//! The debuggee target: OS operations plus the breakpoint table.
//!
//! For every address in the table, the byte in the debuggee is the `int3`
//! opcode `0xcc` and the entry holds the byte that was there before.
//! `unpause` steps over a breakpoint the debuggee is stopped at, reinstalls
//! it, and continues.

use vstd::prelude::*;

use crate::errors::InjectError;
use crate::tracee::{mem_write, Prot, Regs, TraceeOps};

verus! {

/// The `int3` opcode.
pub const INT3: u8 = 0xcc;

/// A breakpoint request or a removed breakpoint: the address and the
/// callback to run when the debuggee traps on it.
pub struct Breakpoint<Cb> {
    pub addr: u64,
    pub on_trap: Cb,
}

/// One installed breakpoint.
pub struct BreakpointEntry<Cb> {
    /// Address the breakpoint is installed at.
    pub addr: u64,
    /// The byte that was at `addr` before `0xcc` was written.
    pub replaced_byte: u8,
    /// Callback to run when the debuggee traps here.
    pub on_trap: Cb,
}

/// A debuggee with its breakpoint table.
pub struct TargetState<T, Cb> {
    ops: T,
    breakpoints: Vec<BreakpointEntry<Cb>>,
}

impl<T: TraceeOps, Cb> TargetState<T, Cb> {
    /// The installed breakpoints, in installation order.
    pub closed spec fn bps(self) -> Seq<BreakpointEntry<Cb>> {
        self.breakpoints@
    }

    /// The underlying OS handle.
    pub closed spec fn ops(self) -> T {
        self.ops
    }

    /// The debuggee's memory.
    pub open spec fn mem(self) -> Map<u64, u8> {
        self.ops().mem()
    }

    /// The debuggee's protection map.
    pub open spec fn prots(self) -> Map<u64, Prot> {
        self.ops().prots()
    }

    /// The debuggee's registers.
    pub open spec fn regs(self) -> Regs {
        self.ops().regs()
    }

    /// At most one breakpoint per address.
    pub open spec fn wf(self) -> bool {
        forall|i: int, j: int|
            #![trigger self.bps()[i], self.bps()[j]]
            0 <= i < j < self.bps().len() ==> self.bps()[i].addr != self.bps()[j].addr
    }

    /// Whether a breakpoint is installed at `a`.
    pub open spec fn spec_has_bp(self, a: u64) -> bool {
        exists|i: int| 0 <= i < self.bps().len() && #[trigger] self.bps()[i].addr == a
    }

    /// The table index of the breakpoint at `a`.
    pub open spec fn spec_bp_index(self, a: u64) -> int {
        choose|i: int| 0 <= i < self.bps().len() && #[trigger] self.bps()[i].addr == a
    }

    /// Wraps an OS handle with an empty breakpoint table.
    pub fn new(ops: T) -> (r: Self)
        ensures
            r.wf(),
            r.bps().len() == 0,
            r.ops() == ops,
    {
        TargetState { ops, breakpoints: Vec::new() }
    }

    /// Table index of the breakpoint at `a`, if one is installed.
    fn find_bp(&self, a: u64) -> (r: Option<usize>)
        requires
            self.wf(),
        ensures
            match r {
                Some(i) => i < self.bps().len() && self.bps()[i as int].addr == a && i
                    == self.spec_bp_index(a),
                None => !self.spec_has_bp(a),
            },
    {
        let mut i: usize = 0;
        while i < self.breakpoints.len()
            invariant
                self.wf(),
                i <= self.bps().len(),
                forall|k: int| 0 <= k < i ==> #[trigger] self.bps()[k].addr != a,
            decreases self.bps().len() - i,
        {
            if self.breakpoints[i].addr == a {
                proof {
                    let ci = self.spec_bp_index(a);
                    assert(0 <= ci < self.bps().len() && self.bps()[ci].addr == a);
                }
                return Some(i);
            }
            i += 1;
        }
        None
    }

    /// Reads `len` bytes of debuggee memory.
    pub fn read(&self, addr: u64, len: usize) -> (r: Result<Vec<u8>, InjectError>)
        ensures
            match r {
                Ok(v) => {
                    &&& v@.len() == len
                    &&& addr + len <= u64::MAX
                    &&& forall|i: int|
                        0 <= i < len ==> self.mem().dom().contains(#[trigger] ((addr + i) as u64))
                            && v@[i] == self.mem()[(addr + i) as u64]
                },
                Err(_) => true,
            },
    {
        self.ops.read_mem(addr, len)
    }

    /// Writes bytes into debuggee memory.
    pub fn write(&mut self, addr: u64, bytes: &Vec<u8>) -> (r: Result<(), InjectError>)
        ensures
            final(self).bps() == old(self).bps(),
            final(self).mem().dom() == old(self).mem().dom(),
            final(self).prots() == old(self).prots(),
            final(self).regs() == old(self).regs(),
            r is Ok ==> final(self).mem() == mem_write(old(self).mem(), addr, bytes@),
    {
        self.ops.write_mem(addr, bytes)
    }

    /// Reads the debuggee's registers.
    pub fn read_regs(&self) -> (r: Result<Regs, InjectError>)
        ensures
            r is Ok ==> r == Ok::<Regs, InjectError>(self.regs()),
    {
        self.ops.read_regs()
    }

    /// Writes the debuggee's registers.
    pub fn write_regs(&mut self, regs: Regs) -> (r: Result<(), InjectError>)
        ensures
            final(self).bps() == old(self).bps(),
            final(self).mem() == old(self).mem(),
            final(self).prots() == old(self).prots(),
            r is Ok ==> final(self).regs() == regs,
            r is Err ==> final(self).regs() == old(self).regs(),
    {
        self.ops.write_regs(regs)
    }

    /// Installs a breakpoint: saves the byte at the address and replaces it
    /// with `0xcc`.  An address that already holds a breakpoint is
    /// rejected.
    pub fn set_breakpoint(&mut self, bp: Breakpoint<Cb>) -> (r: Result<(), InjectError>)
        requires
            old(self).wf(),
        ensures
            final(self).wf(),
            final(self).prots() == old(self).prots(),
            final(self).regs() == old(self).regs(),
            final(self).mem().dom() == old(self).mem().dom(),
            match r {
                Ok(()) => {
                    &&& !old(self).spec_has_bp(bp.addr)
                    &&& old(self).mem().dom().contains(bp.addr)
                    &&& final(self).mem() == mem_write(old(self).mem(), bp.addr, seq![INT3])
                    &&& final(self).bps() == old(self).bps().push(
                        BreakpointEntry {
                            addr: bp.addr,
                            replaced_byte: old(self).mem()[bp.addr],
                            on_trap: bp.on_trap,
                        },
                    )
                    &&& final(self).spec_has_bp(bp.addr)
                },
                Err(e) => {
                    &&& final(self).bps() == old(self).bps()
                    &&& (old(self).spec_has_bp(bp.addr) ==> e == InjectError::BreakpointAlreadySet
                        && *final(self) == *old(self))
                },
            },
    {
        let a: u64 = bp.addr;
        if self.find_bp(a).is_some() {
            return Err(InjectError::BreakpointAlreadySet);
        }
        let cur: Vec<u8> = match self.ops.read_mem(a, 1) {
            Ok(v) => v,
            Err(e) => {
                return Err(e);
            },
        };
        let replaced: u8 = cur[0];
        let patch: Vec<u8> = vec![INT3];
        match self.ops.write_mem(a, &patch) {
            Ok(()) => {},
            Err(e) => {
                proof {
                    assert(self.bps() == old(self).bps());
                    assert(self.wf());
                }
                return Err(e);
            },
        }
        proof {
            assert((a + 0) as u64 == a);
            assert(self.bps() == old(self).bps());
            assert(self.wf());
        }
        let ghost before: Seq<BreakpointEntry<Cb>> = self.bps();
        self.breakpoints.push(
            BreakpointEntry { addr: a, replaced_byte: replaced, on_trap: bp.on_trap },
        );
        proof {
            assert forall|i: int, j: int| 0 <= i < j < self.bps().len() implies self.bps()[i].addr
                != self.bps()[j].addr by {
                if j == self.bps().len() - 1 {
                    assert(self.bps()[i] == before[i]);
                    assert(before[i].addr != a);
                } else {
                    assert(self.bps()[i] == before[i]);
                    assert(self.bps()[j] == before[j]);
                }
            }
            assert(self.bps()[self.bps().len() - 1].addr == a);
        }
        Ok(())
    }

    /// Removes the breakpoint at `addr`: restores the saved byte and
    /// returns the address with its callback.
    pub fn remove_breakpoint(&mut self, addr: u64) -> (r: Result<Breakpoint<Cb>, InjectError>)
        requires
            old(self).wf(),
        ensures
            final(self).wf(),
            final(self).prots() == old(self).prots(),
            final(self).regs() == old(self).regs(),
            final(self).mem().dom() == old(self).mem().dom(),
            match r {
                Ok(bp) => {
                    &&& old(self).spec_has_bp(addr)
                    &&& bp.addr == addr
                    &&& bp.on_trap == old(self).bps()[old(self).spec_bp_index(addr)].on_trap
                    &&& final(self).mem() == mem_write(
                        old(self).mem(),
                        addr,
                        seq![old(self).bps()[old(self).spec_bp_index(addr)].replaced_byte],
                    )
                    &&& final(self).bps() == old(self).bps().remove(old(self).spec_bp_index(addr))
                    &&& !final(self).spec_has_bp(addr)
                    &&& forall|x: u64|
                        x != addr ==> (final(self).spec_has_bp(x) <==> old(self).spec_has_bp(x))
                },
                Err(e) => {
                    &&& final(self).bps() == old(self).bps()
                    &&& (!old(self).spec_has_bp(addr) ==> e == InjectError::BreakpointNotFound
                        && *final(self) == *old(self))
                },
            },
    {
        let i: usize = match self.find_bp(addr) {
            Some(i) => i,
            None => {
                return Err(InjectError::BreakpointNotFound);
            },
        };
        let restored: u8 = self.breakpoints[i].replaced_byte;
        let patch: Vec<u8> = vec![restored];
        match self.ops.write_mem(addr, &patch) {
            Ok(()) => {},
            Err(e) => {
                return Err(e);
            },
        }
        let entry: BreakpointEntry<Cb> = self.breakpoints.remove(i);
        proof {
            let gi = old(self).spec_bp_index(addr);
            assert(gi == i);
            assert forall|p: int, q: int| 0 <= p < q < self.bps().len() implies self.bps()[p].addr
                != self.bps()[q].addr by {
                let p0: int = if p < i { p } else { p + 1 };
                let q0: int = if q < i { q } else { q + 1 };
                assert(self.bps()[p] == old(self).bps()[p0]);
                assert(self.bps()[q] == old(self).bps()[q0]);
            }
            assert forall|x: u64| x != addr implies (self.spec_has_bp(x) <==> old(
                self,
            ).spec_has_bp(x)) by {
                if self.spec_has_bp(x) {
                    let j = self.spec_bp_index(x);
                    assert(0 <= j < self.bps().len() && self.bps()[j].addr == x);
                    if j < i {
                        assert(old(self).bps()[j].addr == x);
                    } else {
                        assert(old(self).bps()[j + 1].addr == x);
                    }
                }
                if old(self).spec_has_bp(x) {
                    let j = old(self).spec_bp_index(x);
                    assert(0 <= j < old(self).bps().len() && old(self).bps()[j].addr == x);
                    if j < i {
                        assert(self.bps()[j].addr == x);
                    } else {
                        assert(j > i);
                        assert(self.bps()[j - 1].addr == x);
                    }
                }
            }
            assert forall|j: int| 0 <= j < self.bps().len() implies self.bps()[j].addr
                != addr by {
                if j < i {
                    assert(self.bps()[j] == old(self).bps()[j]);
                } else {
                    assert(self.bps()[j] == old(self).bps()[j + 1]);
                }
            }
        }
        Ok(Breakpoint { addr, on_trap: entry.on_trap })
    }

    /// Resumes the debuggee.  If it is stopped just after a breakpoint
    /// (`rip - 1` holds one), the breakpoint is removed, the original
    /// instruction is single-stepped, the breakpoint is reinstalled, and
    /// `rip` is rewound onto it; then execution continues.  On success the
    /// set of breakpointed addresses is unchanged.
    pub fn unpause(&mut self) -> (r: Result<(), InjectError>)
        requires
            old(self).wf(),
        ensures
            final(self).wf(),
            r is Ok ==> forall|a: u64|
                final(self).spec_has_bp(a) <==> old(self).spec_has_bp(a),
    {
        let regs: Regs = match self.ops.read_regs() {
            Ok(rs) => rs,
            Err(e) => {
                return Err(e);
            },
        };
        if regs.rip > 0 {
            let bp_addr: u64 = regs.rip - 1;
            if self.find_bp(bp_addr).is_some() {
                let bp: Breakpoint<Cb> = match self.remove_breakpoint(bp_addr) {
                    Ok(bp) => bp,
                    Err(e) => {
                        return Err(e);
                    },
                };
                let ghost s1: Self = *self;
                match self.ops.single_step() {
                    Ok(()) => {},
                    Err(e) => {
                        return Err(e);
                    },
                }
                let ghost s2: Self = *self;
                proof {
                    assert(s2.bps() == s1.bps());
                    assert(s2.wf());
                }
                match self.set_breakpoint(bp) {
                    Ok(()) => {},
                    Err(e) => {
                        return Err(e);
                    },
                }
                let ghost s3: Self = *self;
                proof {
                    assert forall|x: u64| s3.spec_has_bp(x) <==> old(self).spec_has_bp(
                        x,
                    ) by {
                        if x == bp_addr {
                            assert(s3.spec_has_bp(x));
                            assert(old(self).spec_has_bp(x));
                        } else {
                            assert(s2.spec_has_bp(x) <==> old(self).spec_has_bp(x));
                            if s3.spec_has_bp(x) {
                                let j = s3.spec_bp_index(x);
                                assert(0 <= j < s3.bps().len() && s3.bps()[j].addr == x);
                                assert(j < s3.bps().len() - 1);
                                assert(s2.bps()[j].addr == x);
                            }
                            if s2.spec_has_bp(x) {
                                let j = s2.spec_bp_index(x);
                                assert(s3.bps()[j].addr == x);
                            }
                        }
                    }
                }
                let rewound: Regs = Regs { rip: bp_addr, ..regs };
                match self.ops.write_regs(rewound) {
                    Ok(()) => {},
                    Err(e) => {
                        return Err(e);
                    },
                }
                let ghost s4: Self = *self;
                proof {
                    assert(s4.bps() == s3.bps());
                    assert(s4.wf());
                }
                let res: Result<(), InjectError> = self.ops.cont();
                proof {
                    assert(self.bps() == s4.bps());
                    assert(self.wf());
                    assert forall|x: u64| self.spec_has_bp(x) <==> #[trigger] old(
                        self,
                    ).spec_has_bp(x) by {
                        assert(self.spec_has_bp(x) <==> s3.spec_has_bp(x));
                        assert(s3.spec_has_bp(x) <==> old(self).spec_has_bp(x));
                    }
                }
                return res;
            }
        }
        let res: Result<(), InjectError> = self.ops.cont();
        proof {
            assert(self.bps() == old(self).bps());
            assert(self.wf());
        }
        res
    }

    /// Waits for the debuggee's next stop.
    pub fn next_event(&mut self) -> (r: Result<(), InjectError>)
        requires
            old(self).wf(),
        ensures
            final(self).wf(),
            final(self).bps() == old(self).bps(),
    {
        self.ops.wait_stop()
    }
}

/// Setting a breakpoint and removing it restores the byte it replaced:
/// installing writes `0xcc` and saves the old byte, removal writes the
/// saved byte back, and the composition is the original memory.
pub proof fn lemma_breakpoint_round_trip(m: Map<u64, u8>, addr: u64)
    requires
        m.dom().contains(addr),
    ensures
        mem_write(mem_write(m, addr, seq![INT3]), addr, seq![m[addr]]) == m,
{
    crate::tracee::lemma_mem_write_restore(m, addr, INT3, m[addr]);
}

} // verus!
