//! The tracer actor facade: one owner of the target state, executing
//! submitted tasks strictly one after another.
//!
//! On Linux all ptrace-bearing operations must come from the one OS thread
//! that attached the debuggee.  This type captures the discipline that
//! makes that safe: the state is owned by exactly one worker, every
//! dispatch runs one task to completion against it before the next may be
//! submitted, and the caller blocks until its task's result is back - so
//! completions form a total order consistent with submission.  An embedder
//! that pins the worker to a dedicated thread forwards each task through a
//! rendezvous channel; the serialization argument is the one proved here.

use vstd::prelude::*;

verus! {

/// The state owned by a worker, together with the number of tasks that
/// have completed against it.
pub struct WorkerThreadInner<T> {
    pub state: T,
    pub completed: u64,
}

/// A strictly-serializing owner of a `T`.
pub struct WorkerThread<T> {
    inner: WorkerThreadInner<T>,
}

impl<T> WorkerThread<T> {
    /// The owned state.
    pub closed spec fn state(self) -> T {
        self.inner.state
    }

    /// How many dispatched tasks have completed.
    pub closed spec fn completed(self) -> u64 {
        self.inner.completed
    }

    /// Builds a worker by running an initialization task.  The task either
    /// produces the state to own plus a result handed back to the caller,
    /// or an error that propagates.
    pub fn new<R, E, F: FnOnce() -> Result<(T, R), E>>(f: F) -> (r: Result<(Self, R), E>)
        requires
            call_requires(f, ()),
        ensures
            match r {
                Ok((w, res)) => w.completed() == 0 && call_ensures(
                    f,
                    (),
                    Ok::<(T, R), E>((w.state(), res)),
                ),
                Err(e) => call_ensures(f, (), Err::<(T, R), E>(e)),
            },
    {
        match f() {
            Ok((state, res)) => Ok(
                (WorkerThread { inner: WorkerThreadInner { state, completed: 0 } }, res),
            ),
            Err(e) => Err(e),
        }
    }

    /// Submits a task and blocks until it has run against the owned state;
    /// the worker comes back with the task's result.  Tasks run whole and
    /// in submission order: each call increases the completion count by
    /// exactly one, and no other task can touch the state in between.
    pub fn spawn<R, F: FnOnce(T) -> (T, R)>(self, f: F) -> (r: (Self, R))
        requires
            call_requires(f, (self.state(),)),
            self.completed() < u64::MAX,
        ensures
            call_ensures(f, (self.state(),), (r.0.state(), r.1)),
            r.0.completed() == self.completed() + 1,
    {
        let WorkerThread { inner } = self;
        let WorkerThreadInner { state, completed } = inner;
        let (state2, res) = f(state);
        (WorkerThread { inner: WorkerThreadInner { state: state2, completed: completed + 1 } }, res)
    }
}

} // verus!
