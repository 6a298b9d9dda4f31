//! Bump allocation of remote regions, one allocator per protection class.
//!
//! An allocator keeps at most one open page range in the debuggee.  A
//! request is served from the open range when it fits after alignment;
//! otherwise a fresh range is mapped in the debuggee, sized to at least one
//! page and to the request.

use vstd::prelude::*;
use vstd::arithmetic::div_mod::{
    lemma_add_mod_noop, lemma_fundamental_div_mod, lemma_mod_multiples_basic,
};

use crate::errors::InjectError;
use crate::tracee::{prot_range, zero_range, Prot, TraceeOps, PAGE_SIZE};

verus! {

/// Rounds `x` up to the next multiple of `align`.
pub fn round_up(x: u64, align: u64) -> (r: u64)
    requires
        1 <= align,
        x + align - 1 <= u64::MAX,
    ensures
        r % align == 0,
        x <= r <= x + align - 1,
{
    let d: u64 = (x + (align - 1)) / align;
    proof {
        lemma_fundamental_div_mod((x + align - 1) as int, align as int);
        vstd::arithmetic::div_mod::lemma_mod_bound((x + align - 1) as int, align as int);
        lemma_mod_multiples_basic(d as int, align as int);
        assert(d * align == align * d);
        assert(d * align <= x + align - 1);
        assert(x <= d * align);
    }
    d * align
}

/// Largest request the allocator accepts; keeps all page arithmetic away
/// from `u64` overflow.
pub const MAX_ALLOC: u64 = 0x7fff_ffff_ffff_f000;

/// What one successful `Memory::allocate` did, relating the allocator and
/// the debuggee before (`m0`, `t0`) and after (`m1`, `t1`) to the granted
/// range `[a, a + size)`: the grant lies inside the open page range, above
/// its watermark, and either the open range was reused with the debuggee
/// left alone, or a fresh zeroed range of the allocator's class was mapped
/// at addresses the debuggee had nothing at.
pub open spec fn spec_allocate_effect<T: TraceeOps>(
    m0: Memory,
    m1: Memory,
    t0: T,
    t1: T,
    a: u64,
    size: u64,
) -> bool {
    &&& m1.prot() == m0.prot()
    &&& m1.has_page()
    &&& m1.page_base() <= a
    &&& a + size <= u64::MAX
    &&& a + size <= m1.page_base() + m1.page_len()
    &&& a + size == m1.page_base() + m1.offset()
    &&& t1.regs() == t0.regs()
    &&& (({
        &&& t1 == t0
        &&& m0.has_page()
        &&& m1.page_base() == m0.page_base()
        &&& m1.page_len() == m0.page_len()
        &&& a >= m0.page_base() + m0.offset()
    }) || ({
        let base = m1.page_base();
        let len = m1.page_len();
        &&& (forall|ad: u64| base <= ad < base + len ==> !t0.mem().dom().contains(ad))
        &&& t1.mem() == t0.mem().union_prefer_right(zero_range(base, len))
        &&& t1.prots() == t0.prots().union_prefer_right(prot_range(base, len, m0.prot()))
        &&& a == base
    }))
}

/// One bump allocator for one protection class.
pub struct Memory {
    prot: Prot,
    has_page: bool,
    page_base: u64,
    page_len: u64,
    offset: u64,
}

impl Memory {
    /// The protection class this allocator maps its pages with.
    pub closed spec fn prot(self) -> Prot {
        self.prot
    }

    /// Whether a page range is currently open.
    pub closed spec fn has_page(self) -> bool {
        self.has_page
    }

    /// Base address of the open page range.
    pub closed spec fn page_base(self) -> u64 {
        self.page_base
    }

    /// Length of the open page range.
    pub closed spec fn page_len(self) -> u64 {
        self.page_len
    }

    /// Next free offset within the open page range.
    pub closed spec fn offset(self) -> u64 {
        self.offset
    }

    /// Internal consistency of the allocator state.
    pub open spec fn wf(self) -> bool {
        self.has_page() ==> {
            &&& self.page_base() % PAGE_SIZE == 0
            &&& self.page_base() > 0
            &&& self.page_len() % PAGE_SIZE == 0
            &&& self.page_base() + self.page_len() <= u64::MAX
            &&& self.offset() <= self.page_len()
        }
    }

    /// An allocator for executable regions, with no page open yet.
    pub fn new_executable() -> (r: Memory)
        ensures
            r.wf(),
            !r.has_page(),
            r.prot() == Prot::Executable,
    {
        Memory { prot: Prot::Executable, has_page: false, page_base: 0, page_len: 0, offset: 0 }
    }

    /// An allocator for read-only regions, with no page open yet.
    pub fn new_readonly() -> (r: Memory)
        ensures
            r.wf(),
            !r.has_page(),
            r.prot() == Prot::ReadOnly,
    {
        Memory { prot: Prot::ReadOnly, has_page: false, page_base: 0, page_len: 0, offset: 0 }
    }

    /// An allocator for writable regions, with no page open yet.
    pub fn new_writable() -> (r: Memory)
        ensures
            r.wf(),
            !r.has_page(),
            r.prot() == Prot::ReadWrite,
    {
        Memory { prot: Prot::ReadWrite, has_page: false, page_base: 0, page_len: 0, offset: 0 }
    }

    /// Reserves `size` bytes aligned to `align` in the debuggee and returns
    /// the region's base address.
    ///
    /// The returned address is aligned, the region lies inside the open
    /// page range, and successive grants from one page range never overlap:
    /// the new region starts at or above the previous watermark.  When the
    /// request does not fit, a fresh zeroed range sized
    /// `max(PAGE_SIZE, round_up(size))` is mapped in the debuggee with this
    /// allocator's protection class, at addresses the debuggee had nothing
    /// mapped at.
    pub fn allocate<T: TraceeOps>(&mut self, target: &mut T, size: u64, align: u64) -> (r: Result<
        u64,
        InjectError,
    >)
        requires
            old(self).wf(),
            1 <= align <= PAGE_SIZE,
            PAGE_SIZE as int % align as int == 0,
            size <= MAX_ALLOC,
        ensures
            final(self).wf(),
            final(self).prot() == old(self).prot(),
            match r {
                Ok(a) => {
                    &&& a as int % align as int == 0
                    &&& spec_allocate_effect(
                        *old(self),
                        *final(self),
                        *old(target),
                        *final(target),
                        a,
                        size,
                    )
                },
                Err(e) => {
                    &&& *final(self) == *old(self)
                    &&& *final(target) == *old(target)
                    &&& e is Os
                },
            },
    {
        if self.has_page {
            let aligned: u64 = round_up(self.offset, align);
            if aligned <= self.page_len && size <= self.page_len - aligned {
                let a: u64 = self.page_base + aligned;
                proof {
                    lemma_mod_breaks_down(self.page_base as int, PAGE_SIZE as int, align as int);
                    lemma_add_mod_noop(self.page_base as int, aligned as int, align as int);
                    assert(self.page_base as int % align as int == 0);
                    assert(aligned as int % align as int == 0);
                    assert(0int % align as int == 0) by {
                        vstd::arithmetic::div_mod::lemma_small_mod(0, align as nat);
                    };
                    assert((self.page_base as int + aligned as int) % align as int == 0);
                }
                self.offset = aligned + size;
                return Ok(a);
            }
        }
        let map_len: u64 = if size <= PAGE_SIZE {
            PAGE_SIZE
        } else {
            round_up(size, PAGE_SIZE)
        };
        match target.map_page(map_len, self.prot) {
            Ok(base) => {
                self.has_page = true;
                self.page_base = base;
                self.page_len = map_len;
                self.offset = size;
                proof {
                    lemma_mod_breaks_down(base as int, PAGE_SIZE as int, align as int);
                }
                Ok(base)
            },
            Err(e) => Err(e),
        }
    }
}

/// If `m` divides `x` and `a` divides `m`, then `a` divides `x`.
proof fn lemma_mod_breaks_down(x: int, m: int, a: int)
    requires
        0 < a,
        0 < m,
        m % a == 0,
        x % m == 0,
        0 <= x,
    ensures
        x % a == 0,
{
    lemma_fundamental_div_mod(x, m);
    lemma_fundamental_div_mod(m, a);
    let q1 = x / m;
    let q2 = m / a;
    assert(x == (q1 * q2) * a) by (nonlinear_arith)
        requires
            x == m * q1,
            m == a * q2,
    ;
    lemma_mod_multiples_basic(q1 * q2, a);
}

} // verus!
