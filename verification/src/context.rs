//! The injection context: one debuggee handle plus one allocator per
//! protection class.
//!
//! Besides the allocators themselves, the context keeps a record of every
//! reservation it has handed out (`grants`).  While the record is intact
//! (`backed`), every grant lies in memory mapped with its protection class
//! and no two grants overlap - the no-two-regions-share-memory guarantee
//! callers rely on.  The record speaks about the debuggee's memory, so it
//! can only be maintained while the debuggee is driven through the
//! context: letting the debuggee run, or mutating it through
//! `with_target`, may invalidate it.

use vstd::prelude::*;
use vstd::bytes::{spec_u64_to_le_bytes, u64_to_le_bytes};

use crate::errors::InjectError;
use crate::memory::{spec_allocate_effect, Memory, MAX_ALLOC};
use crate::tracee::{mem_write, prot_range, zero_range, Prot, TraceeOps, PAGE_SIZE};
use crate::{EXECUTABLE_DATA_ALIGNMENT, READONLY_DATA_ALIGNMENT, WRITABLE_DATA_ALIGNMENT};

verus! {

/// The alignment actually used when the caller passes `align`.
pub open spec fn spec_align_or(align: Option<u64>, default: u64) -> u64 {
    match align {
        Some(a) => a,
        None => default,
    }
}

/// An alignment the allocators accept: positive, dividing the page size.
/// The defaults may be overridden upward, up to the page itself; the
/// page-backed allocators cannot serve a coarser alignment than their
/// mapping granularity.
pub open spec fn valid_align(a: u64) -> bool {
    &&& 1 <= a <= PAGE_SIZE
    &&& PAGE_SIZE as int % a as int == 0
}

/// Ranges `[b1, b1 + s1)` and `[b2, b2 + s2)` share no address.
pub open spec fn ranges_disjoint(b1: int, s1: int, b2: int, s2: int) -> bool {
    s1 <= 0 || s2 <= 0 || b1 + s1 <= b2 || b2 + s2 <= b1
}

/// Address `ad` is mapped in `t` with protection class `p`.
pub open spec fn addr_backed<T: TraceeOps>(t: T, ad: u64, p: Prot) -> bool {
    &&& t.mem().dom().contains(ad)
    &&& t.prots().dom().contains(ad)
    &&& t.prots()[ad] == p
}

/// The open page range of `m`, if any, is mapped in `t` with `m`'s class.
pub open spec fn page_backed<T: TraceeOps>(m: Memory, t: T) -> bool {
    m.has_page() ==> forall|ad: u64|
        m.page_base() <= ad && ad < m.page_base() + m.page_len() ==> #[trigger] addr_backed(
            t,
            ad,
            m.prot(),
        )
}

/// The open page ranges of two allocators share no address.
pub open spec fn pages_disjoint(m1: Memory, m2: Memory) -> bool {
    m1.has_page() && m2.has_page() ==> ranges_disjoint(
        m1.page_base() as int,
        m1.page_len() as int,
        m2.page_base() as int,
        m2.page_len() as int,
    )
}

/// The grant's range is mapped in `t` with the grant's class.
pub open spec fn grant_backed<T: TraceeOps>(g: (u64, u64, Prot), t: T) -> bool {
    &&& g.0 + g.1 <= u64::MAX
    &&& forall|ad: u64| g.0 <= ad && ad < g.0 + g.1 ==> #[trigger] addr_backed(t, ad, g.2)
}

/// No grant in `gs` reaches into the free tail of `m`'s open page range,
/// the part the next reservation will be carved from.
pub open spec fn tail_clear(gs: Seq<(u64, u64, Prot)>, m: Memory) -> bool {
    m.has_page() ==> forall|k: int|
        0 <= k < gs.len() ==> ranges_disjoint(
            (#[trigger] gs[k]).0 as int,
            gs[k].1 as int,
            m.page_base() + m.offset(),
            m.page_len() - m.offset(),
        )
}

/// One debuggee handle plus bump allocators for executable, read-only and
/// writable regions, and the record of all reservations handed out.
pub struct InjectionContext<T> {
    target: T,
    code: Memory,
    readonly: Memory,
    readwrite: Memory,
    grants: Ghost<Seq<(u64, u64, Prot)>>,
}

impl<T: TraceeOps> InjectionContext<T> {
    /// The debuggee handle.
    pub closed spec fn target(self) -> T {
        self.target
    }

    /// The executable-region allocator.
    pub closed spec fn code(self) -> Memory {
        self.code
    }

    /// The read-only-region allocator.
    pub closed spec fn readonly(self) -> Memory {
        self.readonly
    }

    /// The writable-region allocator.
    pub closed spec fn readwrite(self) -> Memory {
        self.readwrite
    }

    /// Every reservation handed out so far: base, size and class.
    pub closed spec fn grants(self) -> Seq<(u64, u64, Prot)> {
        self.grants@
    }

    /// Each allocator is consistent and set to its own class.
    pub open spec fn wf(self) -> bool {
        &&& self.code().wf()
        &&& self.readonly().wf()
        &&& self.readwrite().wf()
        &&& self.code().prot() == Prot::Executable
        &&& self.readonly().prot() == Prot::ReadOnly
        &&& self.readwrite().prot() == Prot::ReadWrite
    }

    /// The record agrees with the debuggee: open pages and grants are
    /// mapped with their classes, open pages of distinct classes and
    /// distinct grants never overlap, and no grant reaches into a free
    /// tail.  Established at construction and preserved by every context
    /// operation; mutating the target around the context, or letting the
    /// debuggee run, may break it.
    pub open spec fn backed(self) -> bool {
        &&& page_backed(self.code(), self.target())
        &&& page_backed(self.readonly(), self.target())
        &&& page_backed(self.readwrite(), self.target())
        &&& pages_disjoint(self.code(), self.readonly())
        &&& pages_disjoint(self.code(), self.readwrite())
        &&& pages_disjoint(self.readonly(), self.readwrite())
        &&& (forall|k: int|
            0 <= k < self.grants().len() ==> grant_backed(
                #[trigger] self.grants()[k],
                self.target(),
            ))
        &&& (forall|k1: int, k2: int|
            #![trigger self.grants()[k1], self.grants()[k2]]
            0 <= k1 < k2 < self.grants().len() ==> ranges_disjoint(
                self.grants()[k1].0 as int,
                self.grants()[k1].1 as int,
                self.grants()[k2].0 as int,
                self.grants()[k2].1 as int,
            ))
        &&& tail_clear(self.grants(), self.code())
        &&& tail_clear(self.grants(), self.readonly())
        &&& tail_clear(self.grants(), self.readwrite())
    }

    /// Wraps a debuggee handle; no pages are open and nothing is granted
    /// yet.
    pub fn new(target: T) -> (r: Self)
        ensures
            r.wf(),
            r.backed(),
            r.grants().len() == 0,
            r.target() == target,
    {
        InjectionContext {
            target,
            code: Memory::new_executable(),
            readonly: Memory::new_readonly(),
            readwrite: Memory::new_writable(),
            grants: Ghost(Seq::empty()),
        }
    }

    /// Direct access to the debuggee handle.  The caller may do anything
    /// with it, so nothing ties the record to the debuggee afterwards:
    /// `backed()` must be re-derived from what the caller's own operations
    /// preserved.
    pub fn with_target(&mut self) -> (r: &mut T)
        ensures
            *r == old(self).target(),
            final(self).target() == *final(r),
            final(self).code() == old(self).code(),
            final(self).readonly() == old(self).readonly(),
            final(self).readwrite() == old(self).readwrite(),
            final(self).grants() == old(self).grants(),
    {
        &mut self.target
    }

    /// Reserves `size` bytes for code, aligned to `align` (default `0x10`).
    pub fn allocate_code(&mut self, size: u64, align: Option<u64>) -> (r: Result<u64, InjectError>)
        requires
            old(self).wf(),
            size <= MAX_ALLOC,
            valid_align(spec_align_or(align, EXECUTABLE_DATA_ALIGNMENT)),
        ensures
            final(self).wf(),
            match r {
                Ok(a) => {
                    &&& a as int % spec_align_or(align, EXECUTABLE_DATA_ALIGNMENT) as int == 0
                    &&& a + size <= u64::MAX
                    &&& final(self).grants() == old(self).grants().push((a, size, Prot::Executable))
                    &&& spec_allocate_effect(
                        old(self).code(),
                        final(self).code(),
                        old(self).target(),
                        final(self).target(),
                        a,
                        size,
                    )
                    &&& final(self).readonly() == old(self).readonly()
                    &&& final(self).readwrite() == old(self).readwrite()
                    &&& final(self).target().regs() == old(self).target().regs()
                    &&& old(self).target().mem().dom() <= final(self).target().mem().dom()
                    &&& (forall|ad: u64|
                        old(self).target().mem().dom().contains(ad) ==> #[trigger] final(self).target().mem()[ad] == old(self).target().mem()[ad])
                    &&& (forall|ad: u64|
                        old(self).target().mem().dom().contains(ad) && old(self).target().prots().dom().contains(ad) ==> #[trigger] final(self).target().prots().dom().contains(ad) && final(self).target().prots()[ad]
                            == old(self).target().prots()[ad])
                    &&& (old(self).backed() ==> final(self).backed())
                    &&& (old(self).backed() ==> forall|ad: u64|
                        a <= ad && ad < a + size ==> #[trigger] addr_backed(
                            final(self).target(),
                            ad,
                            Prot::Executable,
                        ))
                    &&& (old(self).backed() ==> forall|k: int|
                        0 <= k < old(self).grants().len() ==> ranges_disjoint(
                            (#[trigger] old(self).grants()[k]).0 as int,
                            old(self).grants()[k].1 as int,
                            a as int,
                            size as int,
                        ))
                },
                Err(e) => *final(self) == *old(self) && e is Os,
            },
    {
        let al: u64 = match align {
            Some(x) => x,
            None => EXECUTABLE_DATA_ALIGNMENT,
        };
        let ghost pre: Self = *self;
        match self.code.allocate(&mut self.target, size, al) {
            Ok(a) => {
                self.grants = Ghost(self.grants@.push((a, size, Prot::Executable)));
                proof {
                    lemma_allocate_preserves_target(
                        pre.code(),
                        self.code(),
                        pre.target(),
                        self.target(),
                        a,
                        size,
                    );
                    if pre.backed() {
                        lemma_backed_pieces(
                            pre.code(),
                            self.code(),
                            pre.readonly(),
                            pre.readwrite(),
                            pre.target(),
                            self.target(),
                            pre.grants(),
                            a,
                            size,
                        );
                        assert(self.grants() =~= pre.grants().push((a, size, Prot::Executable)));
                        assert(self.backed());
                        let ghost last: int = self.grants().len() - 1;
                        assert(self.grants()[last] == (a, size, Prot::Executable));
                        assert(grant_backed((a, size, Prot::Executable), self.target()));
                        assert forall|ad: u64| a <= ad && ad < a + size implies #[trigger]
                            addr_backed(self.target(), ad, Prot::Executable) by {}
                        assert forall|k: int|
                            0 <= k < pre.grants().len() implies ranges_disjoint(
                            (#[trigger] pre.grants()[k]).0 as int,
                            pre.grants()[k].1 as int,
                            a as int,
                            size as int,
                        ) by {
                            assert(self.grants()[k] == pre.grants()[k]);
                        }
                    }
                }
                Ok(a)
            },
            Err(e) => Err(e),
        }
    }

    /// Reserves `size` bytes of read-only data, aligned to `align` (default `0x1`).
    pub fn allocate_readonly(&mut self, size: u64, align: Option<u64>) -> (r: Result<u64, InjectError>)
        requires
            old(self).wf(),
            size <= MAX_ALLOC,
            valid_align(spec_align_or(align, READONLY_DATA_ALIGNMENT)),
        ensures
            final(self).wf(),
            match r {
                Ok(a) => {
                    &&& a as int % spec_align_or(align, READONLY_DATA_ALIGNMENT) as int == 0
                    &&& a + size <= u64::MAX
                    &&& final(self).grants() == old(self).grants().push((a, size, Prot::ReadOnly))
                    &&& spec_allocate_effect(
                        old(self).readonly(),
                        final(self).readonly(),
                        old(self).target(),
                        final(self).target(),
                        a,
                        size,
                    )
                    &&& final(self).code() == old(self).code()
                    &&& final(self).readwrite() == old(self).readwrite()
                    &&& final(self).target().regs() == old(self).target().regs()
                    &&& old(self).target().mem().dom() <= final(self).target().mem().dom()
                    &&& (forall|ad: u64|
                        old(self).target().mem().dom().contains(ad) ==> #[trigger] final(self).target().mem()[ad] == old(self).target().mem()[ad])
                    &&& (forall|ad: u64|
                        old(self).target().mem().dom().contains(ad) && old(self).target().prots().dom().contains(ad) ==> #[trigger] final(self).target().prots().dom().contains(ad) && final(self).target().prots()[ad]
                            == old(self).target().prots()[ad])
                    &&& (old(self).backed() ==> final(self).backed())
                    &&& (old(self).backed() ==> forall|ad: u64|
                        a <= ad && ad < a + size ==> #[trigger] addr_backed(
                            final(self).target(),
                            ad,
                            Prot::ReadOnly,
                        ))
                    &&& (old(self).backed() ==> forall|k: int|
                        0 <= k < old(self).grants().len() ==> ranges_disjoint(
                            (#[trigger] old(self).grants()[k]).0 as int,
                            old(self).grants()[k].1 as int,
                            a as int,
                            size as int,
                        ))
                },
                Err(e) => *final(self) == *old(self) && e is Os,
            },
    {
        let al: u64 = match align {
            Some(x) => x,
            None => READONLY_DATA_ALIGNMENT,
        };
        let ghost pre: Self = *self;
        match self.readonly.allocate(&mut self.target, size, al) {
            Ok(a) => {
                self.grants = Ghost(self.grants@.push((a, size, Prot::ReadOnly)));
                proof {
                    lemma_allocate_preserves_target(
                        pre.readonly(),
                        self.readonly(),
                        pre.target(),
                        self.target(),
                        a,
                        size,
                    );
                    if pre.backed() {
                        lemma_backed_pieces(
                            pre.readonly(),
                            self.readonly(),
                            pre.code(),
                            pre.readwrite(),
                            pre.target(),
                            self.target(),
                            pre.grants(),
                            a,
                            size,
                        );
                        assert(self.grants() =~= pre.grants().push((a, size, Prot::ReadOnly)));
                        assert(self.backed());
                        let ghost last: int = self.grants().len() - 1;
                        assert(self.grants()[last] == (a, size, Prot::ReadOnly));
                        assert(grant_backed((a, size, Prot::ReadOnly), self.target()));
                        assert forall|ad: u64| a <= ad && ad < a + size implies #[trigger]
                            addr_backed(self.target(), ad, Prot::ReadOnly) by {}
                        assert forall|k: int|
                            0 <= k < pre.grants().len() implies ranges_disjoint(
                            (#[trigger] pre.grants()[k]).0 as int,
                            pre.grants()[k].1 as int,
                            a as int,
                            size as int,
                        ) by {
                            assert(self.grants()[k] == pre.grants()[k]);
                        }
                    }
                }
                Ok(a)
            },
            Err(e) => Err(e),
        }
    }

    /// Reserves `size` bytes of writable data, aligned to `align` (default `0x8`).
    pub fn allocate_readwrite(&mut self, size: u64, align: Option<u64>) -> (r: Result<u64, InjectError>)
        requires
            old(self).wf(),
            size <= MAX_ALLOC,
            valid_align(spec_align_or(align, WRITABLE_DATA_ALIGNMENT)),
        ensures
            final(self).wf(),
            match r {
                Ok(a) => {
                    &&& a as int % spec_align_or(align, WRITABLE_DATA_ALIGNMENT) as int == 0
                    &&& a + size <= u64::MAX
                    &&& final(self).grants() == old(self).grants().push((a, size, Prot::ReadWrite))
                    &&& spec_allocate_effect(
                        old(self).readwrite(),
                        final(self).readwrite(),
                        old(self).target(),
                        final(self).target(),
                        a,
                        size,
                    )
                    &&& final(self).code() == old(self).code()
                    &&& final(self).readonly() == old(self).readonly()
                    &&& final(self).target().regs() == old(self).target().regs()
                    &&& old(self).target().mem().dom() <= final(self).target().mem().dom()
                    &&& (forall|ad: u64|
                        old(self).target().mem().dom().contains(ad) ==> #[trigger] final(self).target().mem()[ad] == old(self).target().mem()[ad])
                    &&& (forall|ad: u64|
                        old(self).target().mem().dom().contains(ad) && old(self).target().prots().dom().contains(ad) ==> #[trigger] final(self).target().prots().dom().contains(ad) && final(self).target().prots()[ad]
                            == old(self).target().prots()[ad])
                    &&& (old(self).backed() ==> final(self).backed())
                    &&& (old(self).backed() ==> forall|ad: u64|
                        a <= ad && ad < a + size ==> #[trigger] addr_backed(
                            final(self).target(),
                            ad,
                            Prot::ReadWrite,
                        ))
                    &&& (old(self).backed() ==> forall|k: int|
                        0 <= k < old(self).grants().len() ==> ranges_disjoint(
                            (#[trigger] old(self).grants()[k]).0 as int,
                            old(self).grants()[k].1 as int,
                            a as int,
                            size as int,
                        ))
                },
                Err(e) => *final(self) == *old(self) && e is Os,
            },
    {
        let al: u64 = match align {
            Some(x) => x,
            None => WRITABLE_DATA_ALIGNMENT,
        };
        let ghost pre: Self = *self;
        match self.readwrite.allocate(&mut self.target, size, al) {
            Ok(a) => {
                self.grants = Ghost(self.grants@.push((a, size, Prot::ReadWrite)));
                proof {
                    lemma_allocate_preserves_target(
                        pre.readwrite(),
                        self.readwrite(),
                        pre.target(),
                        self.target(),
                        a,
                        size,
                    );
                    if pre.backed() {
                        lemma_backed_pieces(
                            pre.readwrite(),
                            self.readwrite(),
                            pre.code(),
                            pre.readonly(),
                            pre.target(),
                            self.target(),
                            pre.grants(),
                            a,
                            size,
                        );
                        assert(self.grants() =~= pre.grants().push((a, size, Prot::ReadWrite)));
                        assert(self.backed());
                        let ghost last: int = self.grants().len() - 1;
                        assert(self.grants()[last] == (a, size, Prot::ReadWrite));
                        assert(grant_backed((a, size, Prot::ReadWrite), self.target()));
                        assert forall|ad: u64| a <= ad && ad < a + size implies #[trigger]
                            addr_backed(self.target(), ad, Prot::ReadWrite) by {}
                        assert forall|k: int|
                            0 <= k < pre.grants().len() implies ranges_disjoint(
                            (#[trigger] pre.grants()[k]).0 as int,
                            pre.grants()[k].1 as int,
                            a as int,
                            size as int,
                        ) by {
                            assert(self.grants()[k] == pre.grants()[k]);
                        }
                    }
                }
                Ok(a)
            },
            Err(e) => Err(e),
        }
    }

    /// Allocates a stack of `size` writable bytes aligned to `0x10`, writes
    /// `return_addr` into its topmost machine word, and returns the address
    /// of that word, so the injected function returns into a caller-chosen
    /// trap.  The stack grows downwards on x86-64.
    pub fn allocate_stack(&mut self, size: u64, return_addr: u64) -> (r: Result<u64, InjectError>)
        requires
            old(self).wf(),
            8 <= size <= MAX_ALLOC,
        ensures
            final(self).wf(),
            old(self).backed() ==> final(self).backed(),
            match r {
                Ok(top) => {
                    &&& top + 8 <= u64::MAX
                    &&& (exists|base: u64|
                        #[trigger] (base as int % 0x10) == 0 && top == base + size - 8 && final(self).grants() == old(self).grants().push((base, size, Prot::ReadWrite)))
                    &&& forall|i: int|
                        0 <= i < 8 ==> final(self).target().mem().dom().contains(
                            #[trigger] ((top + i) as u64),
                        ) && final(self).target().mem()[(top + i) as u64] == spec_u64_to_le_bytes(
                            return_addr,
                        )[i]
                    &&& final(self).target().regs() == old(self).target().regs()
                },
                Err(e) => e is Os,
            },
    {
        let ghost pre: Self = *self;
        let stack: u64 = match self.allocate_readwrite(size, Some(0x10)) {
            Ok(a) => a,
            Err(e) => {
                return Err(e);
            },
        };
        let top: u64 = stack + size - 8;
        let ghost mid: Self = *self;
        let word: Vec<u8> = u64_to_le_bytes(return_addr);
        match self.target.write_mem(top, &word) {
            Ok(()) => {},
            Err(e) => {
                proof {
                    if pre.backed() {
                        lemma_backed_after_plain_write(mid, *self);
                    }
                }
                return Err(e);
            },
        }
        proof {
            assert(stack as int % 0x10 == 0 && top == stack + size - 8 && self.grants()
                == pre.grants().push((stack, size, Prot::ReadWrite)));
            assert forall|i: int| 0 <= i < 8 implies self.target().mem().dom().contains(
                #[trigger] ((top + i) as u64),
            ) && self.target().mem()[(top + i) as u64] == spec_u64_to_le_bytes(return_addr)[i] by {
                assert(self.target().mem() == mem_write(mid.target().mem(), top, word@));
                assert(mid.target().mem().dom().contains((top + i) as u64));
            }
            if pre.backed() {
                lemma_backed_after_plain_write(mid, *self);
            }
        }
        Ok(top)
    }

    /// Writes `data` into the debuggee at `ptr`.
    pub fn write(&mut self, data: &Vec<u8>, ptr: u64) -> (r: Result<(), InjectError>)
        ensures
            final(self).code() == old(self).code(),
            final(self).readonly() == old(self).readonly(),
            final(self).readwrite() == old(self).readwrite(),
            final(self).grants() == old(self).grants(),
            final(self).target().mem().dom() == old(self).target().mem().dom(),
            final(self).target().prots() == old(self).target().prots(),
            final(self).target().regs() == old(self).target().regs(),
            old(self).backed() ==> final(self).backed(),
            r is Ok ==> final(self).target().mem() == mem_write(
                old(self).target().mem(),
                ptr,
                data@,
            ),
            r is Ok ==> ptr + data@.len() <= u64::MAX && (forall|i: int|
                0 <= i < data@.len() ==> old(self).target().mem().dom().contains(
                    #[trigger] ((ptr + i) as u64),
                )),
            r matches Err(e) ==> e is Os,
            r is Err ==> (exists|bs: Seq<u8>|
                #[trigger] bs.len() <= data@.len() && final(self).target().mem() == mem_write(
                    old(self).target().mem(),
                    ptr,
                    bs,
                )),
    {
        let ghost pre: Self = *self;
        let r = self.target.write_mem(ptr, data);
        proof {
            if pre.backed() {
                lemma_backed_after_plain_write(pre, *self);
            }
        }
        r
    }
}

/// A write changes bytes, never the mapping: the record survives any
/// operation that keeps the memory domain and the protections.
proof fn lemma_backed_after_plain_write<T: TraceeOps>(
    pre: InjectionContext<T>,
    post: InjectionContext<T>,
)
    requires
        pre.backed(),
        post.code() == pre.code(),
        post.readonly() == pre.readonly(),
        post.readwrite() == pre.readwrite(),
        post.grants() == pre.grants(),
        post.target().mem().dom() == pre.target().mem().dom(),
        post.target().prots() == pre.target().prots(),
    ensures
        post.backed(),
{
    lemma_page_backed_same_mapping(pre.code(), pre.target(), post.target());
    lemma_page_backed_same_mapping(pre.readonly(), pre.target(), post.target());
    lemma_page_backed_same_mapping(pre.readwrite(), pre.target(), post.target());
    assert forall|k: int| 0 <= k < post.grants().len() implies grant_backed(
        #[trigger] post.grants()[k],
        post.target(),
    ) by {
        assert(post.grants()[k] == pre.grants()[k]);
        assert(grant_backed(pre.grants()[k], pre.target()));
        lemma_grant_backed_same_mapping(pre.grants()[k], pre.target(), post.target());
    }
}

/// `addr_backed` only looks at the memory domain and the protections.
proof fn lemma_addr_backed_same_mapping<T: TraceeOps>(t0: T, t1: T, ad: u64, p: Prot)
    requires
        addr_backed(t0, ad, p),
        t1.mem().dom() == t0.mem().dom(),
        t1.prots() == t0.prots(),
    ensures
        addr_backed(t1, ad, p),
{
}

/// An open page range stays backed when the mapping is unchanged.
proof fn lemma_page_backed_same_mapping<T: TraceeOps>(m: Memory, t0: T, t1: T)
    requires
        page_backed(m, t0),
        t1.mem().dom() == t0.mem().dom(),
        t1.prots() == t0.prots(),
    ensures
        page_backed(m, t1),
{
    if m.has_page() {
        assert forall|ad: u64|
            m.page_base() <= ad && ad < m.page_base() + m.page_len() implies #[trigger]
            addr_backed(t1, ad, m.prot()) by {
            assert(addr_backed(t0, ad, m.prot()));
            lemma_addr_backed_same_mapping(t0, t1, ad, m.prot());
        }
    }
}

/// A grant stays backed when the mapping is unchanged.
proof fn lemma_grant_backed_same_mapping<T: TraceeOps>(g: (u64, u64, Prot), t0: T, t1: T)
    requires
        grant_backed(g, t0),
        t1.mem().dom() == t0.mem().dom(),
        t1.prots() == t0.prots(),
    ensures
        grant_backed(g, t1),
{
    assert forall|ad: u64| g.0 <= ad && ad < g.0 + g.1 implies #[trigger] addr_backed(
        t1,
        ad,
        g.2,
    ) by {
        assert(addr_backed(t0, ad, g.2));
        lemma_addr_backed_same_mapping(t0, t1, ad, g.2);
    }
}

/// Whichever way an allocation was served, the debuggee is only extended:
/// every previously mapped byte keeps its value and every previously
/// recorded protection survives.
proof fn lemma_allocate_preserves_target<T: TraceeOps>(
    m0: Memory,
    m1: Memory,
    t0: T,
    t1: T,
    a: u64,
    size: u64,
)
    requires
        spec_allocate_effect(m0, m1, t0, t1, a, size),
        m1.wf(),
    ensures
        t0.mem().dom() <= t1.mem().dom(),
        forall|ad: u64| t0.mem().dom().contains(ad) ==> #[trigger] t1.mem()[ad] == t0.mem()[ad],
        forall|ad: u64|
            t0.mem().dom().contains(ad) && t0.prots().dom().contains(ad)
                ==> #[trigger] t1.prots().dom().contains(ad) && t1.prots()[ad] == t0.prots()[ad],
{
    let base = m1.page_base();
    let len = m1.page_len();
    if t1 == t0 && m0.has_page() && m1.page_base() == m0.page_base() && m1.page_len()
        == m0.page_len() && a >= m0.page_base() + m0.offset() {
    } else {
        assert(t1.mem() == t0.mem().union_prefer_right(zero_range(base, len)));
        assert(t1.prots() == t0.prots().union_prefer_right(prot_range(base, len, m0.prot())));
        assert forall|ad: u64| t0.mem().dom().contains(ad) implies #[trigger] t1.mem()[ad]
            == t0.mem()[ad] by {
            assert(!(base <= ad < base + len));
            assert(!zero_range(base, len).dom().contains(ad));
        }
        assert forall|ad: u64|
            t0.mem().dom().contains(ad) && t0.prots().dom().contains(ad) implies #[trigger] t1
            .prots().dom().contains(ad) && t1.prots()[ad] == t0.prots()[ad] by {
            assert(!(base <= ad < base + len));
            assert(!prot_range(base, len, m0.prot()).dom().contains(ad));
        }
        assert(t0.mem().dom() <= t1.mem().dom());
    }
}

/// A range that is wholly mapped never meets a range that is wholly
/// unmapped.
proof fn lemma_fresh_disjoint<T: TraceeOps>(t0: T, b1: int, s1: int, b2: int, s2: int)
    requires
        forall|ad: u64| b1 <= ad < b1 + s1 ==> #[trigger] t0.mem().dom().contains(ad),
        forall|ad: u64| b2 <= ad < b2 + s2 ==> !(#[trigger] t0.mem().dom().contains(ad)),
        0 <= b1,
        0 <= b2,
        b1 + s1 <= 0x1_0000_0000_0000_0000,
        b2 + s2 <= 0x1_0000_0000_0000_0000,
    ensures
        ranges_disjoint(b1, s1, b2, s2),
{
    if !ranges_disjoint(b1, s1, b2, s2) {
        let ad: int = if b1 >= b2 {
            b1
        } else {
            b2
        };
        assert(b1 <= ad < b1 + s1);
        assert(b2 <= ad < b2 + s2);
        assert(t0.mem().dom().contains(ad as u64));
        assert(!t0.mem().dom().contains(ad as u64));
    }
}

/// An address outside a fresh mapping keeps its class; one inside gets the
/// mapped class.
proof fn lemma_addr_backed_after_fresh<T: TraceeOps>(
    t0: T,
    t1: T,
    ad: u64,
    p: Prot,
    base: u64,
    len: u64,
    np: Prot,
)
    requires
        addr_backed(t0, ad, p),
        !(base <= ad < base + len),
        t1.mem() == t0.mem().union_prefer_right(zero_range(base, len)),
        t1.prots() == t0.prots().union_prefer_right(prot_range(base, len, np)),
    ensures
        addr_backed(t1, ad, p),
{
    assert(!zero_range(base, len).dom().contains(ad));
    assert(!prot_range(base, len, np).dom().contains(ad));
    assert(t1.mem().dom().contains(ad));
    assert(t1.prots().dom().contains(ad));
    assert(t1.prots()[ad] == t0.prots()[ad]);
}

/// An address inside a fresh mapping is backed with the mapped class.
proof fn lemma_addr_backed_in_fresh<T: TraceeOps>(
    t0: T,
    t1: T,
    ad: u64,
    base: u64,
    len: u64,
    np: Prot,
)
    requires
        base <= ad < base + len,
        t1.mem() == t0.mem().union_prefer_right(zero_range(base, len)),
        t1.prots() == t0.prots().union_prefer_right(prot_range(base, len, np)),
    ensures
        addr_backed(t1, ad, np),
{
    assert(zero_range(base, len).dom().contains(ad));
    assert(prot_range(base, len, np).dom().contains(ad));
    assert(t1.mem().dom().contains(ad));
    assert(t1.prots().dom().contains(ad));
    assert(t1.prots()[ad] == prot_range(base, len, np)[ad]);
    assert(prot_range(base, len, np)[ad] == np);
}

/// An open page range carries over when the debuggee is untouched and the
/// range and class are unchanged.
proof fn lemma_page_backed_same<T: TraceeOps>(m0: Memory, m1: Memory, t: T)
    requires
        page_backed(m0, t),
        m1.has_page() ==> m0.has_page(),
        m1.page_base() == m0.page_base(),
        m1.page_len() == m0.page_len(),
        m1.prot() == m0.prot(),
    ensures
        page_backed(m1, t),
{
    if m1.has_page() {
        assert forall|ad: u64|
            m1.page_base() <= ad && ad < m1.page_base() + m1.page_len() implies #[trigger]
            addr_backed(t, ad, m1.prot()) by {
            assert(m0.page_base() <= ad && ad < m0.page_base() + m0.page_len());
            assert(addr_backed(t, ad, m0.prot()));
        }
    }
}

/// A grant wholly inside a backed page range of its own class is backed.
proof fn lemma_grant_in_page<T: TraceeOps>(m: Memory, t: T, g: (u64, u64, Prot))
    requires
        page_backed(m, t),
        m.has_page(),
        m.wf(),
        m.page_base() <= g.0,
        g.0 + g.1 <= m.page_base() + m.page_len(),
        g.2 == m.prot(),
    ensures
        grant_backed(g, t),
{
    assert forall|ad: u64| g.0 <= ad && ad < g.0 + g.1 implies #[trigger] addr_backed(
        t,
        ad,
        g.2,
    ) by {
        assert(m.page_base() <= ad && ad < m.page_base() + m.page_len());
        assert(addr_backed(t, ad, m.prot()));
    }
}

/// An open page range survives a fresh mapping elsewhere.
proof fn lemma_page_backed_after_fresh<T: TraceeOps>(
    o: Memory,
    t0: T,
    t1: T,
    base: u64,
    len: u64,
    np: Prot,
)
    requires
        page_backed(o, t0),
        forall|ad: u64| base <= ad < base + len ==> !(#[trigger] t0.mem().dom().contains(ad)),
        t1.mem() == t0.mem().union_prefer_right(zero_range(base, len)),
        t1.prots() == t0.prots().union_prefer_right(prot_range(base, len, np)),
    ensures
        page_backed(o, t1),
{
    if o.has_page() {
        assert forall|ad: u64|
            o.page_base() <= ad && ad < o.page_base() + o.page_len() implies #[trigger]
            addr_backed(t1, ad, o.prot()) by {
            assert(addr_backed(t0, ad, o.prot()));
            assert(!(base <= ad < base + len));
            lemma_addr_backed_after_fresh(t0, t1, ad, o.prot(), base, len, np);
        }
    }
}

/// A grant survives a fresh mapping elsewhere.
proof fn lemma_grant_backed_after_fresh<T: TraceeOps>(
    g: (u64, u64, Prot),
    t0: T,
    t1: T,
    base: u64,
    len: u64,
    np: Prot,
)
    requires
        grant_backed(g, t0),
        forall|ad: u64| base <= ad < base + len ==> !(#[trigger] t0.mem().dom().contains(ad)),
        t1.mem() == t0.mem().union_prefer_right(zero_range(base, len)),
        t1.prots() == t0.prots().union_prefer_right(prot_range(base, len, np)),
    ensures
        grant_backed(g, t1),
{
    assert forall|ad: u64| g.0 <= ad && ad < g.0 + g.1 implies #[trigger] addr_backed(
        t1,
        ad,
        g.2,
    ) by {
        assert(addr_backed(t0, ad, g.2));
        assert(!(base <= ad < base + len));
        lemma_addr_backed_after_fresh(t0, t1, ad, g.2, base, len, np);
    }
}

/// A freshly mapped page range is backed with the mapped class.
proof fn lemma_page_backed_new_fresh<T: TraceeOps>(m1: Memory, t0: T, t1: T)
    requires
        m1.has_page(),
        m1.wf(),
        t1.mem() == t0.mem().union_prefer_right(zero_range(m1.page_base(), m1.page_len())),
        t1.prots() == t0.prots().union_prefer_right(
            prot_range(m1.page_base(), m1.page_len(), m1.prot()),
        ),
    ensures
        page_backed(m1, t1),
{
    assert forall|ad: u64|
        m1.page_base() <= ad && ad < m1.page_base() + m1.page_len() implies #[trigger]
        addr_backed(t1, ad, m1.prot()) by {
        lemma_addr_backed_in_fresh(t0, t1, ad, m1.page_base(), m1.page_len(), m1.prot());
    }
}

/// One allocation keeps the whole record consistent: `m0`/`m1` are the
/// serving allocator before and after, `o1`/`o2` the two untouched ones,
/// `gs` the grants so far and `[a, a + size)` the new grant.
proof fn lemma_backed_pieces<T: TraceeOps>(
    m0: Memory,
    m1: Memory,
    o1: Memory,
    o2: Memory,
    t0: T,
    t1: T,
    gs: Seq<(u64, u64, Prot)>,
    a: u64,
    size: u64,
)
    requires
        spec_allocate_effect(m0, m1, t0, t1, a, size),
        m0.wf(),
        m1.wf(),
        o1.wf(),
        o2.wf(),
        page_backed(m0, t0),
        page_backed(o1, t0),
        page_backed(o2, t0),
        pages_disjoint(m0, o1),
        pages_disjoint(m0, o2),
        pages_disjoint(o1, o2),
        forall|k: int| 0 <= k < gs.len() ==> grant_backed(#[trigger] gs[k], t0),
        forall|k1: int, k2: int|
            #![trigger gs[k1], gs[k2]]
            0 <= k1 < k2 < gs.len() ==> ranges_disjoint(
                gs[k1].0 as int,
                gs[k1].1 as int,
                gs[k2].0 as int,
                gs[k2].1 as int,
            ),
        tail_clear(gs, m0),
        tail_clear(gs, o1),
        tail_clear(gs, o2),
    ensures
        page_backed(m1, t1),
        page_backed(o1, t1),
        page_backed(o2, t1),
        pages_disjoint(m1, o1),
        pages_disjoint(m1, o2),
        forall|k: int|
            0 <= k < gs.push((a, size, m0.prot())).len() ==> grant_backed(
                #[trigger] gs.push((a, size, m0.prot()))[k],
                t1,
            ),
        forall|k1: int, k2: int|
            #![trigger gs.push((a, size, m0.prot()))[k1], gs.push((a, size, m0.prot()))[k2]]
            0 <= k1 < k2 < gs.push((a, size, m0.prot())).len() ==> ranges_disjoint(
                gs.push((a, size, m0.prot()))[k1].0 as int,
                gs.push((a, size, m0.prot()))[k1].1 as int,
                gs.push((a, size, m0.prot()))[k2].0 as int,
                gs.push((a, size, m0.prot()))[k2].1 as int,
            ),
        tail_clear(gs.push((a, size, m0.prot())), m1),
        tail_clear(gs.push((a, size, m0.prot())), o1),
        tail_clear(gs.push((a, size, m0.prot())), o2),
{
    let g = (a, size, m0.prot());
    let gs2 = gs.push(g);
    let base = m1.page_base();
    let len = m1.page_len();
    assert(gs2.len() == gs.len() + 1);
    assert(forall|k: int| 0 <= k < gs.len() ==> gs2[k] == #[trigger] gs[k]);
    assert(gs2[gs.len() as int] == g);
    if t1 == t0 && m0.has_page() && m1.page_base() == m0.page_base() && m1.page_len()
        == m0.page_len() && a >= m0.page_base() + m0.offset() {
        // the open page range was reused above the watermark
        lemma_page_backed_same(m0, m1, t1);
        lemma_page_backed_same(o1, o1, t1);
        lemma_page_backed_same(o2, o2, t1);
        lemma_grant_in_page(m1, t1, g);
        // the new grant sits in the old free tail, which no old grant
        // reaches into
        assert forall|k: int| 0 <= k < gs.len() implies ranges_disjoint(
            (#[trigger] gs[k]).0 as int,
            gs[k].1 as int,
            a as int,
            size as int,
        ) by {
            assert(ranges_disjoint(
                gs[k].0 as int,
                gs[k].1 as int,
                m0.page_base() + m0.offset(),
                m0.page_len() - m0.offset(),
            ));
        }
        assert forall|k1: int, k2: int|
            #![trigger gs2[k1], gs2[k2]]
            0 <= k1 < k2 < gs2.len() implies ranges_disjoint(
            gs2[k1].0 as int,
            gs2[k1].1 as int,
            gs2[k2].0 as int,
            gs2[k2].1 as int,
        ) by {
            if k2 == gs.len() {
                assert(gs2[k1] == gs[k1]);
            } else {
                assert(gs2[k1] == gs[k1] && gs2[k2] == gs[k2]);
            }
        }
        assert forall|k: int| 0 <= k < gs2.len() implies grant_backed(#[trigger] gs2[k], t1) by {
            if k < gs.len() {
                assert(gs2[k] == gs[k]);
                assert(grant_backed(gs[k], t0));
            } else {
                assert(gs2[k] == g);
            }
        }
        // tails only shrink on this page, and the other tails are untouched
        assert(tail_clear(gs2, m1)) by {
            assert forall|k: int| 0 <= k < gs2.len() implies ranges_disjoint(
                (#[trigger] gs2[k]).0 as int,
                gs2[k].1 as int,
                m1.page_base() + m1.offset(),
                m1.page_len() - m1.offset(),
            ) by {
                if k < gs.len() {
                    assert(gs2[k] == gs[k]);
                    assert(ranges_disjoint(
                        gs[k].0 as int,
                        gs[k].1 as int,
                        m0.page_base() + m0.offset(),
                        m0.page_len() - m0.offset(),
                    ));
                } else {
                    assert(gs2[k] == g);
                }
            }
        }
        assert(tail_clear(gs2, o1)) by {
            if o1.has_page() {
                assert forall|k: int| 0 <= k < gs2.len() implies ranges_disjoint(
                    (#[trigger] gs2[k]).0 as int,
                    gs2[k].1 as int,
                    o1.page_base() + o1.offset(),
                    o1.page_len() - o1.offset(),
                ) by {
                    if k < gs.len() {
                        assert(gs2[k] == gs[k]);
                    } else {
                        assert(gs2[k] == g);
                        assert(ranges_disjoint(
                            m0.page_base() as int,
                            m0.page_len() as int,
                            o1.page_base() as int,
                            o1.page_len() as int,
                        ));
                    }
                }
            }
        }
        assert(tail_clear(gs2, o2)) by {
            if o2.has_page() {
                assert forall|k: int| 0 <= k < gs2.len() implies ranges_disjoint(
                    (#[trigger] gs2[k]).0 as int,
                    gs2[k].1 as int,
                    o2.page_base() + o2.offset(),
                    o2.page_len() - o2.offset(),
                ) by {
                    if k < gs.len() {
                        assert(gs2[k] == gs[k]);
                    } else {
                        assert(gs2[k] == g);
                        assert(ranges_disjoint(
                            m0.page_base() as int,
                            m0.page_len() as int,
                            o2.page_base() as int,
                            o2.page_len() as int,
                        ));
                    }
                }
            }
        }
    } else {
        // a fresh zeroed range was mapped at unmapped addresses
        assert({
            &&& (forall|ad: u64| base <= ad < base + len ==> !t0.mem().dom().contains(ad))
            &&& t1.mem() == t0.mem().union_prefer_right(zero_range(base, len))
            &&& t1.prots() == t0.prots().union_prefer_right(prot_range(base, len, m0.prot()))
            &&& a == base
        });
        assert(forall|ad: u64|
            base <= ad < base + len ==> !(#[trigger] t0.mem().dom().contains(ad)));
        lemma_page_backed_new_fresh(m1, t0, t1);
        lemma_page_backed_after_fresh(o1, t0, t1, base, len, m0.prot());
        lemma_page_backed_after_fresh(o2, t0, t1, base, len, m0.prot());
        lemma_grant_in_page(m1, t1, g);
        assert(pages_disjoint(m1, o1)) by {
            if o1.has_page() {
                assert forall|ad: u64|
                    o1.page_base() <= ad < o1.page_base() + o1.page_len() implies #[trigger]
                    t0.mem().dom().contains(ad) by {
                    assert(addr_backed(t0, ad, o1.prot()));
                }
                lemma_fresh_disjoint(
                    t0,
                    o1.page_base() as int,
                    o1.page_len() as int,
                    base as int,
                    len as int,
                );
            }
        }
        assert(pages_disjoint(m1, o2)) by {
            if o2.has_page() {
                assert forall|ad: u64|
                    o2.page_base() <= ad < o2.page_base() + o2.page_len() implies #[trigger]
                    t0.mem().dom().contains(ad) by {
                    assert(addr_backed(t0, ad, o2.prot()));
                }
                lemma_fresh_disjoint(
                    t0,
                    o2.page_base() as int,
                    o2.page_len() as int,
                    base as int,
                    len as int,
                );
            }
        }
        assert forall|k: int| 0 <= k < gs2.len() implies grant_backed(#[trigger] gs2[k], t1) by {
            if k < gs.len() {
                assert(gs2[k] == gs[k]);
                assert(grant_backed(gs[k], t0));
                lemma_grant_backed_after_fresh(gs[k], t0, t1, base, len, m0.prot());
            } else {
                assert(gs2[k] == g);
            }
        }
        assert forall|k1: int, k2: int|
            #![trigger gs2[k1], gs2[k2]]
            0 <= k1 < k2 < gs2.len() implies ranges_disjoint(
            gs2[k1].0 as int,
            gs2[k1].1 as int,
            gs2[k2].0 as int,
            gs2[k2].1 as int,
        ) by {
            if k2 == gs.len() {
                assert(gs2[k1] == gs[k1]);
                assert(grant_backed(gs[k1], t0));
                assert forall|ad: u64| gs[k1].0 <= ad < gs[k1].0 + gs[k1].1 implies #[trigger]
                    t0.mem().dom().contains(ad) by {
                    assert(addr_backed(t0, ad, gs[k1].2));
                }
                lemma_fresh_disjoint(
                    t0,
                    gs[k1].0 as int,
                    gs[k1].1 as int,
                    base as int,
                    len as int,
                );
                assert(ranges_disjoint(gs[k1].0 as int, gs[k1].1 as int, base as int, len as int));
            } else {
                assert(gs2[k1] == gs[k1] && gs2[k2] == gs[k2]);
            }
        }
        assert(tail_clear(gs2, m1)) by {
            assert forall|k: int| 0 <= k < gs2.len() implies ranges_disjoint(
                (#[trigger] gs2[k]).0 as int,
                gs2[k].1 as int,
                m1.page_base() + m1.offset(),
                m1.page_len() - m1.offset(),
            ) by {
                if k < gs.len() {
                    assert(gs2[k] == gs[k]);
                    assert(grant_backed(gs[k], t0));
                    assert forall|ad: u64| gs[k].0 <= ad < gs[k].0 + gs[k].1 implies #[trigger]
                        t0.mem().dom().contains(ad) by {
                        assert(addr_backed(t0, ad, gs[k].2));
                    }
                    lemma_fresh_disjoint(
                        t0,
                        gs[k].0 as int,
                        gs[k].1 as int,
                        base as int,
                        len as int,
                    );
                } else {
                    assert(gs2[k] == g);
                }
            }
        }
        assert(tail_clear(gs2, o1)) by {
            if o1.has_page() {
                assert forall|k: int| 0 <= k < gs2.len() implies ranges_disjoint(
                    (#[trigger] gs2[k]).0 as int,
                    gs2[k].1 as int,
                    o1.page_base() + o1.offset(),
                    o1.page_len() - o1.offset(),
                ) by {
                    if k < gs.len() {
                        assert(gs2[k] == gs[k]);
                    } else {
                        assert(gs2[k] == g);
                        assert forall|ad: u64|
                            o1.page_base() <= ad < o1.page_base() + o1.page_len() implies
                            #[trigger] t0.mem().dom().contains(ad) by {
                            assert(addr_backed(t0, ad, o1.prot()));
                        }
                        lemma_fresh_disjoint(
                            t0,
                            o1.page_base() as int,
                            o1.page_len() as int,
                            base as int,
                            len as int,
                        );
                    }
                }
            }
        }
        assert(tail_clear(gs2, o2)) by {
            if o2.has_page() {
                assert forall|k: int| 0 <= k < gs2.len() implies ranges_disjoint(
                    (#[trigger] gs2[k]).0 as int,
                    gs2[k].1 as int,
                    o2.page_base() + o2.offset(),
                    o2.page_len() - o2.offset(),
                ) by {
                    if k < gs.len() {
                        assert(gs2[k] == gs[k]);
                    } else {
                        assert(gs2[k] == g);
                        assert forall|ad: u64|
                            o2.page_base() <= ad < o2.page_base() + o2.page_len() implies
                            #[trigger] t0.mem().dom().contains(ad) by {
                            assert(addr_backed(t0, ad, o2.prot()));
                        }
                        lemma_fresh_disjoint(
                            t0,
                            o2.page_base() as int,
                            o2.page_len() as int,
                            base as int,
                            len as int,
                        );
                    }
                }
            }
        }
    }
}

} // verus!
