//! An in-memory debuggee, verified against the OS-interface contract.
//!
//! `SimTracee` keeps one contiguous arena starting at `SIM_BASE`; each
//! `map_page` request carves the next page-aligned range out of it.  The
//! simulated debuggee never runs, so the execution-control operations are
//! no-ops.  It backs the crate's tests and exercises every contract of
//! [`TraceeOps`] against a model whose behavior is fully known.

use vstd::prelude::*;
use vstd::arithmetic::div_mod::{lemma_add_mod_noop, lemma_small_mod};

use crate::errors::InjectError;
use crate::tracee::{mem_write, prot_range, zero_range, Prot, Regs, TraceeOps, PAGE_SIZE};

verus! {

/// Base address of the simulated arena.
pub const SIM_BASE: u64 = 0x1000;

/// Largest arena the simulated debuggee will grow to.
pub const SIM_LIMIT: u64 = 0x1000_0000;

/// A debuggee simulated in local memory.
pub struct SimTracee {
    bytes: Vec<u8>,
    regs_state: Regs,
    prot_tags: Ghost<Map<u64, Prot>>,
}

impl SimTracee {
    /// A fresh simulated debuggee: nothing mapped, registers zeroed.
    pub fn new() -> (r: SimTracee)
        ensures
            r.mem() == Map::<u64, u8>::empty(),
            r.prots() == Map::<u64, Prot>::empty(),
            r.regs() == (Regs { rip: 0, rsp: 0, rbp: 0, rax: 0 }),
    {
        let r = SimTracee {
            bytes: Vec::new(),
            regs_state: Regs { rip: 0, rsp: 0, rbp: 0, rax: 0 },
            prot_tags: Ghost(Map::empty()),
        };
        proof {
            assert(r.mem() =~= Map::<u64, u8>::empty());
        }
        r
    }
}

impl TraceeOps for SimTracee {
    /// Addresses `SIM_BASE..SIM_BASE + arena length` map to the arena bytes.
    closed spec fn mem(&self) -> Map<u64, u8> {
        Map::new(
            |a: u64| SIM_BASE <= a < SIM_BASE + self.bytes@.len(),
            |a: u64| self.bytes@[a - SIM_BASE],
        )
    }

    closed spec fn prots(&self) -> Map<u64, Prot> {
        self.prot_tags@
    }

    closed spec fn regs(&self) -> Regs {
        self.regs_state
    }

    fn map_page(&mut self, size: u64, prot: Prot) -> (r: Result<u64, InjectError>) {
        let len: usize = self.bytes.len();
        if len as u64 > SIM_LIMIT - SIM_BASE || size > SIM_LIMIT - SIM_BASE - len as u64 {
            return Err(InjectError::Os(12));  // ENOMEM
        }
        if (len as u64) % PAGE_SIZE != 0 {
            return Err(InjectError::Os(12));
        }
        let base: u64 = SIM_BASE + len as u64;
        proof {
            lemma_add_mod_noop(SIM_BASE as int, len as int, PAGE_SIZE as int);
            lemma_small_mod(0, PAGE_SIZE as nat);
        }
        let mut added: u64 = 0;
        while added < size
            invariant
                added <= size,
                self.bytes@.len() == len + added,
                self.bytes@.take(len as int) == old(self).bytes@,
                forall|i: int| len <= i < len + added ==> self.bytes@[i] == 0u8,
                self.regs_state == old(self).regs_state,
                self.prot_tags == old(self).prot_tags,
                len + size <= SIM_LIMIT,
            decreases size - added,
        {
            self.bytes.push(0u8);
            proof {
                assert(self.bytes@.take(len as int) =~= old(self).bytes@);
            }
            added += 1;
        }
        self.prot_tags = Ghost(self.prot_tags@.union_prefer_right(prot_range(base, size, prot)));
        proof {
            assert forall|a: u64| base <= a < base + size implies !old(self).mem().dom().contains(
                a,
            ) by {}
            assert(self.mem() =~= old(self).mem().union_prefer_right(zero_range(base, size))) by {
                assert(forall|i: int|
                    0 <= i < len ==> self.bytes@[i] == #[trigger] old(self).bytes@[i]);
            };
        }
        Ok(base)
    }

    fn write_mem(&mut self, addr: u64, bytes: &Vec<u8>) -> (r: Result<(), InjectError>) {
        proof {
            assert(bytes@.take(0) =~= Seq::<u8>::empty());
            assert(self.mem() =~= mem_write(self.mem(), addr, bytes@.take(0)));
        }
        let len: usize = self.bytes.len();
        let n: usize = bytes.len();
        if len as u64 > SIM_LIMIT - SIM_BASE {
            return Err(InjectError::Os(14));
        }
        if addr < SIM_BASE || addr - SIM_BASE > len as u64 || n as u64 > len as u64 - (addr
            - SIM_BASE) {
            return Err(InjectError::Os(14));  // EFAULT
        }
        let start: usize = (addr - SIM_BASE) as usize;
        let mut i: usize = 0;
        while i < n
            invariant
                i <= n,
                n == bytes@.len(),
                start + n <= len,
                self.bytes@.len() == len,
                self.bytes@.len() == old(self).bytes@.len(),
                forall|k: int| 0 <= k < i ==> self.bytes@[start + k] == bytes@[k],
                forall|k: int|
                    0 <= k < self.bytes@.len() && !(start <= k < start + i) ==> self.bytes@[k]
                        == old(self).bytes@[k],
                self.regs_state == old(self).regs_state,
                self.prot_tags == old(self).prot_tags,
            decreases n - i,
        {
            let b: u8 = bytes[i];
            self.bytes[start + i] = b;
            i += 1;
        }
        proof {
            assert(self.mem().dom() =~= old(self).mem().dom());
            assert(self.mem() =~= mem_write(old(self).mem(), addr, bytes@));
            assert forall|k: int| 0 <= k < bytes@.len() implies old(self).mem().dom().contains(
                #[trigger] ((addr + k) as u64),
            ) by {
                let obv = old(self).bytes@;
                let a = (addr + k) as u64;
                assert(SIM_BASE <= a);
                assert(a < SIM_BASE + obv.len());
            }
        }
        Ok(())
    }

    fn read_mem(&self, addr: u64, len: usize) -> (r: Result<Vec<u8>, InjectError>) {
        let arena: usize = self.bytes.len();
        if arena as u64 > SIM_LIMIT - SIM_BASE {
            return Err(InjectError::Os(14));
        }
        if addr < SIM_BASE || addr - SIM_BASE > arena as u64 || len as u64 > arena as u64 - (addr
            - SIM_BASE) {
            return Err(InjectError::Os(14));
        }
        let start: usize = (addr - SIM_BASE) as usize;
        let mut v: Vec<u8> = Vec::new();
        let mut i: usize = 0;
        while i < len
            invariant
                i <= len,
                self.bytes@.len() == arena,
                start + len <= arena,
                v@.len() == i,
                forall|k: int| 0 <= k < i ==> v@[k] == self.bytes@[start + k],
            decreases len - i,
        {
            let b: u8 = self.bytes[start + i];
            v.push(b);
            i += 1;
        }
        proof {
            assert forall|k: int| 0 <= k < len implies self.mem().dom().contains(
                #[trigger] ((addr + k) as u64),
            ) && v@[k] == self.mem()[(addr + k) as u64] by {
                let sbv = self.bytes@;
                let a = (addr + k) as u64;
                assert(SIM_BASE <= a);
                assert(a < SIM_BASE + sbv.len());
                assert(v@[k] == sbv[start + k]);
            }
        }
        Ok(v)
    }

    fn read_regs(&self) -> (r: Result<Regs, InjectError>) {
        Ok(self.regs_state)
    }

    fn write_regs(&mut self, regs: Regs) -> (r: Result<(), InjectError>) {
        self.regs_state = regs;
        Ok(())
    }

    /// The simulated debuggee has nothing to execute; stepping stops at
    /// once.
    fn single_step(&mut self) -> (r: Result<(), InjectError>) {
        Ok(())
    }

    /// The simulated debuggee has nothing to execute; resuming is a no-op.
    fn cont(&mut self) -> (r: Result<(), InjectError>) {
        Ok(())
    }

    /// The simulated debuggee stops immediately.
    fn wait_stop(&mut self) -> (r: Result<(), InjectError>) {
        Ok(())
    }
}

} // verus!
