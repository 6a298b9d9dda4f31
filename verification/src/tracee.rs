//! The OS-level interface to the debuggee, as a contracted trait.
//!
//! On Linux the primitives behind this trait are `ptrace`, `waitpid`,
//! `process_vm_readv`/`process_vm_writev`, and a way to map fresh pages in
//! the debuggee.  The injection core is verified against the contract
//! stated here; [`crate::sim::SimTracee`] implements it in memory and is
//! verified to meet it, while a ptrace-backed implementation supplied by an
//! embedder must meet it by construction.
//!
//! Execution-control methods (`single_step`, `cont`, `wait_stop`) let the
//! debuggee run, so nothing is promised about the state afterwards.

use vstd::prelude::*;

use crate::errors::InjectError;

verus! {

/// Size of a page in the debuggee.
pub const PAGE_SIZE: u64 = 0x1000;

/// Protection class of an injected region.
#[derive(Clone, Copy, Debug, PartialEq, Eq, Structural)]
pub enum Prot {
    Executable,
    ReadOnly,
    ReadWrite,
}

/// The debuggee registers the injector reads and writes.
#[derive(Clone, Copy, Debug, PartialEq, Eq, Structural)]
pub struct Regs {
    pub rip: u64,
    pub rsp: u64,
    pub rbp: u64,
    pub rax: u64,
}

/// The all-zero byte map over `[base, base + len)`, as a fresh mapping
/// starts out.
pub open spec fn zero_range(base: u64, len: u64) -> Map<u64, u8> {
    Map::new(|a: u64| base <= a < base + len, |a: u64| 0u8)
}

/// Protection `p` over `[base, base + len)`.
pub open spec fn prot_range(base: u64, len: u64, p: Prot) -> Map<u64, Prot> {
    Map::new(|a: u64| base <= a < base + len, |a: u64| p)
}

/// `m` with `bytes` written at `addr`; the domain is unchanged.
pub open spec fn mem_write(m: Map<u64, u8>, addr: u64, bytes: Seq<u8>) -> Map<u64, u8> {
    Map::new(
        |a: u64| m.dom().contains(a),
        |a: u64|
            if addr <= a < addr + bytes.len() {
                bytes[a - addr]
            } else {
                m[a]
            },
    )
}

/// Reading back what was just written yields the written bytes
/// (the write/read round trip, at the level of the memory model).
pub proof fn lemma_mem_write_read(m: Map<u64, u8>, addr: u64, bytes: Seq<u8>)
    requires
        addr + bytes.len() <= u64::MAX,
        forall|i: int| 0 <= i < bytes.len() ==> m.dom().contains(#[trigger] ((addr + i) as u64)),
    ensures
        forall|i: int|
            0 <= i < bytes.len() ==> mem_write(m, addr, bytes)[#[trigger] ((addr + i) as u64)]
                == bytes[i],
{
}

/// Writing a byte back over itself changes nothing (the breakpoint
/// set/remove round trip, at the level of the memory model).
pub proof fn lemma_mem_write_restore(m: Map<u64, u8>, addr: u64, b0: u8, b1: u8)
    requires
        m.dom().contains(addr),
        m[addr] == b1,
    ensures
        mem_write(mem_write(m, addr, seq![b0]), addr, seq![b1]) == m,
{
    assert(mem_write(mem_write(m, addr, seq![b0]), addr, seq![b1]) =~= m);
}

/// OS-level operations on a stopped debuggee.
///
/// `mem` is the debuggee's mapped memory, `prots` the protection class its
/// addresses were mapped with, `regs` its main-thread registers.  All three
/// are abstractions an implementation refines.
pub trait TraceeOps: Sized {
    /// The debuggee's memory: every mapped address and its byte.  The
    /// default abstraction is empty; a verified implementation overrides
    /// it with its real memory model, and an unverified one (a real
    /// ptrace handle) promises nothing.
    open spec fn mem(&self) -> Map<u64, u8> {
        Map::empty()
    }

    /// The protection class each mapped address was mapped with.
    open spec fn prots(&self) -> Map<u64, Prot> {
        Map::empty()
    }

    /// The debuggee's main-thread registers.
    open spec fn regs(&self) -> Regs {
        Regs { rip: 0, rsp: 0, rbp: 0, rax: 0 }
    }

    /// Maps `size` bytes of fresh zeroed memory with protection `prot` in
    /// the debuggee and returns the page-aligned base address.  Mapping
    /// granularity is the page, so `size` must be a positive multiple of
    /// `PAGE_SIZE`.
    fn map_page(&mut self, size: u64, prot: Prot) -> (r: Result<u64, InjectError>)
        requires
            size > 0,
            size as int % PAGE_SIZE as int == 0,
        ensures
            match r {
                Ok(base) => {
                    &&& base % PAGE_SIZE == 0
                    &&& base > 0
                    &&& base + size <= u64::MAX
                    &&& forall|a: u64|
                        base <= a < base + size ==> !old(self).mem().dom().contains(a)
                    &&& final(self).mem() == old(self).mem().union_prefer_right(
                        zero_range(base, size),
                    )
                    &&& final(self).prots() == old(self).prots().union_prefer_right(
                        prot_range(base, size, prot),
                    )
                    &&& final(self).regs() == old(self).regs()
                },
                Err(e) => *final(self) == *old(self) && e is Os,
            },
    ;

    /// Writes `bytes` into the debuggee at `addr`.  On failure some prefix
    /// may have been written, but the set of mapped addresses, their
    /// protections and the registers are untouched.
    fn write_mem(&mut self, addr: u64, bytes: &Vec<u8>) -> (r: Result<(), InjectError>)
        ensures
            final(self).mem().dom() == old(self).mem().dom(),
            final(self).prots() == old(self).prots(),
            final(self).regs() == old(self).regs(),
            match r {
                Ok(()) => {
                    &&& addr + bytes@.len() <= u64::MAX
                    &&& forall|i: int|
                        0 <= i < bytes@.len() ==> old(self).mem().dom().contains(
                            #[trigger] ((addr + i) as u64),
                        )
                    &&& final(self).mem() == mem_write(old(self).mem(), addr, bytes@)
                },
                Err(e) => e is Os && (exists|n: int|
                    0 <= n <= bytes@.len() && final(self).mem() == mem_write(
                        old(self).mem(),
                        addr,
                        #[trigger] bytes@.take(n),
                    )),
            },
    ;

    /// Reads `len` bytes from the debuggee at `addr`.
    fn read_mem(&self, addr: u64, len: usize) -> (r: Result<Vec<u8>, InjectError>)
        ensures
            match r {
                Ok(v) => {
                    &&& v@.len() == len
                    &&& addr + len <= u64::MAX
                    &&& forall|i: int|
                        0 <= i < len ==> self.mem().dom().contains(#[trigger] ((addr + i) as u64))
                            && v@[i] == self.mem()[(addr + i) as u64]
                },
                Err(e) => e is Os,
            },
    ;

    /// Reads the registers of the debuggee's main thread.
    fn read_regs(&self) -> (r: Result<Regs, InjectError>)
        ensures
            match r {
                Ok(rs) => rs == self.regs(),
                Err(e) => e is Os,
            },
    ;

    /// Writes the registers of the debuggee's main thread.
    fn write_regs(&mut self, regs: Regs) -> (r: Result<(), InjectError>)
        ensures
            final(self).mem() == old(self).mem(),
            final(self).prots() == old(self).prots(),
            match r {
                Ok(()) => final(self).regs() == regs,
                Err(e) => final(self).regs() == old(self).regs() && e is Os,
            },
    ;

    /// Executes one instruction of the debuggee and waits for it to stop
    /// again.  The debuggee runs: nothing is promised about its state
    /// afterwards.
    fn single_step(&mut self) -> (r: Result<(), InjectError>)
        ensures
            r matches Err(e) ==> e is Os,
    ;

    /// Resumes the debuggee.  Nothing is promised about its state
    /// afterwards.
    fn cont(&mut self) -> (r: Result<(), InjectError>)
        ensures
            r matches Err(e) ==> e is Os,
    ;

    /// Waits for the debuggee's next stop.  The debuggee runs until then:
    /// nothing is promised about its state afterwards.
    fn wait_stop(&mut self) -> (r: Result<(), InjectError>)
        ensures
            r matches Err(e) ==> e is Os,
    ;
}

} // verus!
