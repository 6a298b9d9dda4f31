//! Relocation records and the patching engine.
//!
//! A relocation is a recorded patch site inside an emitted byte buffer:
//! kind, offset, symbolic target and addend.  Patching happens on a local
//! copy of the buffer, against already-resolved absolute target addresses,
//! before the buffer is written into the debuggee.

use vstd::prelude::*;
use vstd::bytes::{spec_u32_to_le_bytes, spec_u64_to_le_bytes, u32_to_le_bytes, u64_to_le_bytes};
use vstd::arithmetic::div_mod::lemma_mod_multiples_vanish;

use crate::errors::InjectError;
use crate::ids::FuncOrDataId;

verus! {

/// Relocation kinds understood by the x86-64 injector.
///
/// `GotPcRel4` and `CallPltRel4` are recognized but rejected: the injector
/// does not resolve position-independent relocations.
#[derive(Clone, Copy, Debug, PartialEq, Eq, Structural)]
pub enum RelocKind {
    /// Absolute 4-byte slot (truncating; overflow is not detected).
    Abs4,
    /// Absolute 8-byte slot.
    Abs8,
    /// PC-relative 4-byte slot.
    PCRel4,
    /// PC-relative 4-byte call slot.
    CallPCRel4,
    /// GOT-relative slot; position-independent, rejected.
    GotPcRel4,
    /// PLT-relative call slot; position-independent, rejected.
    CallPltRel4,
}

/// Tag of a compiler-emitted runtime helper.
#[derive(Clone, Copy, Debug, PartialEq, Eq, Structural)]
pub enum LibCall {
    Memcpy,
    Memmove,
    Memset,
    Memcmp,
    Probestack,
}

impl LibCall {
    /// The symbol name of the helper under the standard mapping.
    pub open spec fn spec_name(self) -> Seq<char> {
        match self {
            LibCall::Memcpy => "memcpy"@,
            LibCall::Memmove => "memmove"@,
            LibCall::Memset => "memset"@,
            LibCall::Memcmp => "memcmp"@,
            LibCall::Probestack => "__rust_probestack"@,
        }
    }

    /// Maps the tag to the name that symbol lookup is queried with.
    pub fn name(self) -> (r: &'static str)
        ensures
            r@ == self.spec_name(),
    {
        match self {
            LibCall::Memcpy => "memcpy",
            LibCall::Memmove => "memmove",
            LibCall::Memset => "memset",
            LibCall::Memcmp => "memcmp",
            LibCall::Probestack => "__rust_probestack",
        }
    }
}

/// Symbolic target of a relocation: either a declared symbol of this module
/// or a runtime helper identified by its tag.
#[derive(Clone, Copy, Debug, PartialEq, Eq, Structural)]
pub enum SymRef {
    User(FuncOrDataId),
    LibCall(LibCall),
}

/// One recorded patch site.
#[derive(Clone, Copy, Debug, PartialEq, Eq, Structural)]
pub struct RelocEntry {
    /// Byte offset of the slot within the emitted buffer.
    pub offset: u32,
    /// Kind of the slot.
    pub reloc: RelocKind,
    /// Symbolic target.
    pub name: SymRef,
    /// Constant added to the resolved target address.
    pub addend: i64,
}

/// Reduction of an unbounded integer into a `u64`, two's-complement style.
pub open spec fn wrap64(x: int) -> u64 {
    if x > u64::MAX {
        (x - 0x1_0000_0000_0000_0000) as u64
    } else if x < 0 {
        (x + 0x1_0000_0000_0000_0000) as u64
    } else {
        x as u64
    }
}

/// Reduction of an unbounded integer into a `u32`, two's-complement style.
/// Defined by the mathematical remainder so that it absorbs any number of
/// wrap-arounds.
pub open spec fn wrap32(x: int) -> u32 {
    (x % 0x1_0000_0000) as u32
}

/// Width in bytes of the slot a relocation kind patches.
pub open spec fn reloc_width(kind: RelocKind) -> int {
    match kind {
        RelocKind::Abs8 => 8,
        _ => 4,
    }
}

/// Whether the injector can apply a relocation kind at all.
pub open spec fn reloc_supported(kind: RelocKind) -> bool {
    match kind {
        RelocKind::GotPcRel4 | RelocKind::CallPltRel4 => false,
        _ => true,
    }
}

/// Every entry's slot lies within a buffer of length `len`.
pub open spec fn relocs_in_bounds(relocs: Seq<RelocEntry>, len: int) -> bool {
    forall|i: int|
        0 <= i < relocs.len() ==> #[trigger] relocs[i].offset + reloc_width(relocs[i].reloc) <= len
}

/// `b` with `v` spliced in at offset `off`.
pub open spec fn spec_patch_bytes(b: Seq<u8>, off: int, v: Seq<u8>) -> Seq<u8> {
    b.subrange(0, off) + v + b.subrange(off + v.len(), b.len() as int)
}

/// The bytes a supported relocation kind stores in its slot, given the
/// resolved target address `target`, the entry's addend, the remote address
/// `pos` of the buffer, and the slot offset.
///
/// PC-relative slots store `(target + addend) - (pos + offset)`; the
/// displacement-to-end-of-instruction is assumed to be folded into the
/// offset or the addend by the producer.
pub open spec fn spec_reloc_bytes(
    kind: RelocKind,
    target: u64,
    addend: i64,
    pos: u64,
    offset: u32,
) -> Seq<u8> {
    match kind {
        RelocKind::Abs4 => spec_u32_to_le_bytes(wrap32(target + addend)),
        RelocKind::Abs8 => spec_u64_to_le_bytes(wrap64(target + addend)),
        _ => spec_u32_to_le_bytes(wrap32(target + addend - pos - offset)),
    }
}

/// `b` after applying one relocation entry against resolved target `target`.
pub open spec fn spec_apply_reloc(b: Seq<u8>, pos: u64, e: RelocEntry, target: u64) -> Seq<u8> {
    spec_patch_bytes(b, e.offset as int, spec_reloc_bytes(e.reloc, target, e.addend, pos, e.offset))
}

/// `b` after applying all entries in order, entry `i` against `targets[i]`.
pub open spec fn spec_apply_relocs(
    b: Seq<u8>,
    pos: u64,
    relocs: Seq<RelocEntry>,
    targets: Seq<u64>,
) -> Seq<u8>
    decreases relocs.len(),
{
    if relocs.len() == 0 {
        b
    } else {
        spec_apply_relocs(
            spec_apply_reloc(b, pos, relocs[0], targets[0]),
            pos,
            relocs.skip(1),
            targets.skip(1),
        )
    }
}

/// Applying a relocation within bounds keeps the buffer length.
pub proof fn lemma_apply_reloc_len(b: Seq<u8>, pos: u64, e: RelocEntry, target: u64)
    requires
        e.offset + reloc_width(e.reloc) <= b.len(),
    ensures
        spec_apply_reloc(b, pos, e, target).len() == b.len(),
{
    assert(spec_reloc_bytes(e.reloc, target, e.addend, pos, e.offset).len() == reloc_width(
        e.reloc,
    )) by {
        vstd::bytes::lemma_auto_spec_u64_to_from_le_bytes();
        vstd::bytes::lemma_auto_spec_u32_to_from_le_bytes();
    };
}

/// Applying a list of relocations within bounds keeps the buffer length.
pub proof fn lemma_apply_relocs_len(b: Seq<u8>, pos: u64, relocs: Seq<RelocEntry>, targets: Seq<
    u64,
>)
    requires
        relocs_in_bounds(relocs, b.len() as int),
        targets.len() == relocs.len(),
    ensures
        spec_apply_relocs(b, pos, relocs, targets).len() == b.len(),
    decreases relocs.len(),
{
    if relocs.len() > 0 {
        lemma_apply_reloc_len(b, pos, relocs[0], targets[0]);
        let b1 = spec_apply_reloc(b, pos, relocs[0], targets[0]);
        assert(relocs_in_bounds(relocs.skip(1), b1.len() as int)) by {
            assert(forall|i: int|
                0 <= i < relocs.skip(1).len() ==> relocs.skip(1)[i] == relocs[i + 1]);
        };
        lemma_apply_relocs_len(b1, pos, relocs.skip(1), targets.skip(1));
    }
}

/// Peeling the last entry off `spec_apply_relocs`.
pub proof fn lemma_apply_relocs_snoc(
    b: Seq<u8>,
    pos: u64,
    relocs: Seq<RelocEntry>,
    targets: Seq<u64>,
    e: RelocEntry,
    target: u64,
)
    requires
        targets.len() == relocs.len(),
    ensures
        spec_apply_relocs(b, pos, relocs.push(e), targets.push(target)) == spec_apply_reloc(
            spec_apply_relocs(b, pos, relocs, targets),
            pos,
            e,
            target,
        ),
    decreases relocs.len(),
{
    if relocs.len() == 0 {
        let rs = relocs.push(e);
        let ts = targets.push(target);
        assert(rs[0] == e);
        assert(ts[0] == target);
        assert(rs.skip(1) =~= Seq::<RelocEntry>::empty());
        assert(ts.skip(1) =~= Seq::<u64>::empty());
        let b1 = spec_apply_reloc(b, pos, e, target);
        assert(spec_apply_relocs(b1, pos, rs.skip(1), ts.skip(1)) == b1);
        assert(spec_apply_relocs(b, pos, relocs, targets) == b);
    } else {
        let b1 = spec_apply_reloc(b, pos, relocs[0], targets[0]);
        assert(relocs.push(e).skip(1) =~= relocs.skip(1).push(e));
        assert(targets.push(target).skip(1) =~= targets.skip(1).push(target));
        lemma_apply_relocs_snoc(b1, pos, relocs.skip(1), targets.skip(1), e, target);
    }
}

/// Splices `src` into `dst` at offset `off`, leaving the rest untouched.
pub fn write_bytes_at(dst: &mut Vec<u8>, off: usize, src: &Vec<u8>)
    requires
        off + src@.len() <= old(dst)@.len(),
    ensures
        final(dst)@ == spec_patch_bytes(old(dst)@, off as int, src@),
{
    let n: usize = dst.len();
    let ghost orig: Seq<u8> = dst@;
    let mut i: usize = 0;
    while i < src.len()
        invariant
            off + src@.len() <= n,
            i <= src@.len(),
            dst@.len() == orig.len(),
            orig.len() == n,
            forall|k: int| 0 <= k < i ==> dst@[off + k] == src@[k],
            forall|k: int| 0 <= k < orig.len() && !(off <= k < off + i) ==> dst@[k] == orig[k],
        decreases src@.len() - i,
    {
        let b: u8 = src[i];
        dst[off + i] = b;
        i += 1;
    }
    assert(dst@ =~= spec_patch_bytes(orig, off as int, src@));
}

/// Computes `wrap64(target + addend)`, the absolute patch value.
pub fn reloc_absolute(target: u64, addend: i64) -> (r: u64)
    ensures
        r == wrap64(target + addend),
{
    target.wrapping_add_signed(addend)
}

/// Computes `wrap32(target + addend - pos - offset)`, the PC-relative patch
/// value.
pub fn reloc_pcrel(target: u64, addend: i64, pos: u64, offset: u32) -> (r: u32)
    ensures
        r == wrap32(target + addend - pos - offset),
{
    let what: u64 = target.wrapping_add_signed(addend);
    let site: u64 = pos.wrapping_add(offset as u64);
    let diff: u64 = what.wrapping_sub(site);
    let low: u64 = diff % 0x1_0000_0000;
    proof {
        let y: int = target + addend - pos - offset;
        let m: int = 0x1_0000_0000_0000_0000;
        let d: int = diff as int;
        if d == y - m {
            lemma_wrap64_to_wrap32(d, y, -1);
        } else if d == y {
            lemma_wrap64_to_wrap32(d, y, 0);
        } else if d == y + m {
            lemma_wrap64_to_wrap32(d, y, 1);
        } else if d == y + 2 * m {
            lemma_wrap64_to_wrap32(d, y, 2);
        } else {
            assert(d == y + 3 * m);
            lemma_wrap64_to_wrap32(d, y, 3);
        }
    }
    low as u32
}

/// If `x` (already in `u64` range) differs from `y` by `k` times `2^64`,
/// the two agree after reduction to 32 bits.
proof fn lemma_wrap64_to_wrap32(x: int, y: int, k: int)
    requires
        0 <= x < 0x1_0000_0000_0000_0000,
        x == y + k * 0x1_0000_0000_0000_0000,
    ensures
        x % 0x1_0000_0000 == wrap32(y),
{
    let m: int = 0x1_0000_0000;
    assert(m * (k * m) == k * (m * m)) by (nonlinear_arith);
    lemma_mod_multiples_vanish(k * m, y, m);
}

/// Applies each relocation entry in order, entry `i` against the resolved
/// address `targets[i]`.  Rejects position-independent entries up front and
/// leaves the buffer untouched when it does.
pub fn perform_relocations(
    bytes: &mut Vec<u8>,
    pos: u64,
    relocs: &Vec<RelocEntry>,
    targets: &Vec<u64>,
) -> (r: Result<(), InjectError>)
    requires
        relocs_in_bounds(relocs@, old(bytes)@.len() as int),
        targets@.len() == relocs@.len(),
    ensures
        r is Ok <==> (forall|i: int| 0 <= i < relocs@.len() ==> reloc_supported(
            #[trigger] relocs@[i].reloc,
        )),
        r is Ok ==> final(bytes)@ == spec_apply_relocs(old(bytes)@, pos, relocs@, targets@),
        r is Err ==> final(bytes)@ == old(bytes)@ && r == Result::<(), InjectError>::Err(
            InjectError::UnexpectedPicRelocation,
        ),
{
    let mut i: usize = 0;
    while i < relocs.len()
        invariant
            i <= relocs@.len(),
            forall|k: int| 0 <= k < i ==> reloc_supported(#[trigger] relocs@[k].reloc),
        decreases relocs@.len() - i,
    {
        match relocs[i].reloc {
            RelocKind::GotPcRel4 | RelocKind::CallPltRel4 => {
                return Err(InjectError::UnexpectedPicRelocation);
            },
            _ => {},
        }
        i += 1;
    }

    let ghost orig: Seq<u8> = bytes@;
    let mut j: usize = 0;
    while j < relocs.len()
        invariant
            j <= relocs@.len(),
            targets@.len() == relocs@.len(),
            relocs_in_bounds(relocs@, orig.len() as int),
            forall|k: int| 0 <= k < relocs@.len() ==> reloc_supported(#[trigger] relocs@[k].reloc),
            bytes@ == spec_apply_relocs(orig, pos, relocs@.take(j as int), targets@.take(j as int)),
            bytes@.len() == orig.len(),
        decreases relocs@.len() - j,
    {
        let e: RelocEntry = relocs[j];
        let target: u64 = targets[j];
        let patch: Vec<u8> = match e.reloc {
            RelocKind::Abs4 => {
                let what: u64 = reloc_absolute(target, e.addend);
                let low: u64 = what % 0x1_0000_0000;
                proof {
                    let y: int = target + e.addend;
                    let m: int = 0x1_0000_0000_0000_0000;
                    if what as int == y - m {
                        lemma_wrap64_to_wrap32(what as int, y, -1);
                    } else if what as int == y {
                        lemma_wrap64_to_wrap32(what as int, y, 0);
                    } else {
                        assert(what as int == y + m);
                        lemma_wrap64_to_wrap32(what as int, y, 1);
                    }
                }
                u32_to_le_bytes(low as u32)
            },
            RelocKind::Abs8 => u64_to_le_bytes(reloc_absolute(target, e.addend)),
            _ => u32_to_le_bytes(reloc_pcrel(target, e.addend, pos, e.offset)),
        };
        assert(patch@ == spec_reloc_bytes(e.reloc, target, e.addend, pos, e.offset));
        write_bytes_at(bytes, e.offset as usize, &patch);
        proof {
            lemma_apply_relocs_snoc(
                orig,
                pos,
                relocs@.take(j as int),
                targets@.take(j as int),
                e,
                target,
            );
            assert(relocs@.take(j as int).push(e) =~= relocs@.take(j + 1));
            assert(targets@.take(j as int).push(target) =~= targets@.take(j + 1));
        }
        j += 1;
    }
    proof {
        assert(relocs@.take(relocs@.len() as int) =~= relocs@);
        assert(targets@.take(targets@.len() as int) =~= targets@);
    }
    Ok(())
}


/// Slots of distinct entries never overlap.
pub open spec fn reloc_slots_disjoint(relocs: Seq<RelocEntry>) -> bool {
    forall|i: int, j: int|
        #![trigger relocs[i], relocs[j]]
        0 <= i < j < relocs.len() ==> relocs[i].offset + reloc_width(relocs[i].reloc)
            <= relocs[j].offset || relocs[j].offset + reloc_width(relocs[j].reloc)
            <= relocs[i].offset
}

/// Patching leaves every byte range disjoint from all slots untouched.
pub proof fn lemma_apply_relocs_frame(
    b: Seq<u8>,
    pos: u64,
    relocs: Seq<RelocEntry>,
    targets: Seq<u64>,
    lo: int,
    hi: int,
)
    requires
        relocs_in_bounds(relocs, b.len() as int),
        targets.len() == relocs.len(),
        0 <= lo <= hi <= b.len(),
        forall|i: int|
            0 <= i < relocs.len() ==> #[trigger] relocs[i].offset + reloc_width(relocs[i].reloc)
                <= lo || hi <= relocs[i].offset,
    ensures
        spec_apply_relocs(b, pos, relocs, targets).subrange(lo, hi) == b.subrange(lo, hi),
    decreases relocs.len(),
{
    lemma_apply_relocs_len(b, pos, relocs, targets);
    if relocs.len() > 0 {
        lemma_apply_reloc_len(b, pos, relocs[0], targets[0]);
        let b1 = spec_apply_reloc(b, pos, relocs[0], targets[0]);
        assert(b1.subrange(lo, hi) =~= b.subrange(lo, hi)) by {
            lemma_apply_reloc_len(b, pos, relocs[0], targets[0]);
            assert(spec_reloc_bytes(
                relocs[0].reloc,
                targets[0],
                relocs[0].addend,
                pos,
                relocs[0].offset,
            ).len() == reloc_width(relocs[0].reloc)) by {
                vstd::bytes::lemma_auto_spec_u64_to_from_le_bytes();
                vstd::bytes::lemma_auto_spec_u32_to_from_le_bytes();
            };
        };
        assert(forall|i: int|
            0 <= i < relocs.skip(1).len() ==> relocs.skip(1)[i] == relocs[i + 1]);
        lemma_apply_relocs_frame(b1, pos, relocs.skip(1), targets.skip(1), lo, hi);
    }
}

/// After patching, slot `i` holds exactly the bytes of its relocation,
/// provided no two slots overlap.
pub proof fn lemma_apply_relocs_slot(
    b: Seq<u8>,
    pos: u64,
    relocs: Seq<RelocEntry>,
    targets: Seq<u64>,
    i: int,
)
    requires
        relocs_in_bounds(relocs, b.len() as int),
        reloc_slots_disjoint(relocs),
        targets.len() == relocs.len(),
        0 <= i < relocs.len(),
    ensures
        spec_apply_relocs(b, pos, relocs, targets).subrange(
            relocs[i].offset as int,
            relocs[i].offset + reloc_width(relocs[i].reloc),
        ) == spec_reloc_bytes(relocs[i].reloc, targets[i], relocs[i].addend, pos, relocs[i].offset),
    decreases relocs.len(),
{
    lemma_apply_reloc_len(b, pos, relocs[0], targets[0]);
    let b1 = spec_apply_reloc(b, pos, relocs[0], targets[0]);
    let patch0 = spec_reloc_bytes(relocs[0].reloc, targets[0], relocs[0].addend, pos, relocs[0].offset);
    assert(patch0.len() == reloc_width(relocs[0].reloc)) by {
        vstd::bytes::lemma_auto_spec_u64_to_from_le_bytes();
        vstd::bytes::lemma_auto_spec_u32_to_from_le_bytes();
    };
    assert(forall|k: int|
        0 <= k < relocs.skip(1).len() ==> relocs.skip(1)[k] == relocs[k + 1]);
    if i == 0 {
        let lo: int = relocs[0].offset as int;
        let hi: int = relocs[0].offset + reloc_width(relocs[0].reloc);
        assert(b1.subrange(lo, hi) =~= patch0);
        assert(relocs_in_bounds(relocs.skip(1), b1.len() as int));
        lemma_apply_relocs_frame(b1, pos, relocs.skip(1), targets.skip(1), lo, hi);
    } else {
        assert(relocs_in_bounds(relocs.skip(1), b1.len() as int));
        lemma_apply_relocs_slot(b1, pos, relocs.skip(1), targets.skip(1), i - 1);
    }
}

/// An `Abs8` slot ends up holding the 8 little-endian bytes of
/// `target + addend`: with the target resolved to a compiled region `R`,
/// the slot holds `R + addend`.
pub proof fn lemma_abs8_slot(
    b: Seq<u8>,
    pos: u64,
    relocs: Seq<RelocEntry>,
    targets: Seq<u64>,
    i: int,
)
    requires
        relocs_in_bounds(relocs, b.len() as int),
        reloc_slots_disjoint(relocs),
        targets.len() == relocs.len(),
        0 <= i < relocs.len(),
        relocs[i].reloc == RelocKind::Abs8,
    ensures
        spec_apply_relocs(b, pos, relocs, targets).subrange(
            relocs[i].offset as int,
            relocs[i].offset + 8,
        ) == spec_u64_to_le_bytes(wrap64(targets[i] + relocs[i].addend)),
{
    lemma_apply_relocs_slot(b, pos, relocs, targets, i);
}

/// Reading a `u32` back as a two's-complement signed value.
pub open spec fn as_signed_32(x: u32) -> int {
    if x >= 0x8000_0000 {
        x - 0x1_0000_0000
    } else {
        x as int
    }
}

/// Reducing an integer that already fits in a signed 32-bit range and
/// reading it back signed is the identity.
pub proof fn lemma_as_signed_wrap32(d: int)
    requires
        -0x8000_0000 <= d < 0x8000_0000,
    ensures
        as_signed_32(wrap32(d)) == d,
{
    let m: int = 0x1_0000_0000;
    if d >= 0 {
        vstd::arithmetic::div_mod::lemma_small_mod(d as nat, m as nat);
    } else {
        lemma_mod_multiples_vanish(1, d, m);
        vstd::arithmetic::div_mod::lemma_small_mod((d + m) as nat, m as nat);
    }
}

/// A `PCRel4` or `CallPCRel4` slot ends up holding, as a signed 32-bit
/// little-endian value, exactly `(target + addend) - (pos + offset)`,
/// whenever that displacement fits in 32 bits.
pub proof fn lemma_pcrel_slot(
    b: Seq<u8>,
    pos: u64,
    relocs: Seq<RelocEntry>,
    targets: Seq<u64>,
    i: int,
)
    requires
        relocs_in_bounds(relocs, b.len() as int),
        reloc_slots_disjoint(relocs),
        targets.len() == relocs.len(),
        0 <= i < relocs.len(),
        relocs[i].reloc == RelocKind::PCRel4 || relocs[i].reloc == RelocKind::CallPCRel4,
        -0x8000_0000 <= targets[i] + relocs[i].addend - pos - relocs[i].offset < 0x8000_0000,
    ensures
        as_signed_32(
            vstd::bytes::spec_u32_from_le_bytes(
                spec_apply_relocs(b, pos, relocs, targets).subrange(
                    relocs[i].offset as int,
                    relocs[i].offset + 4,
                ),
            ),
        ) == targets[i] + relocs[i].addend - pos - relocs[i].offset,
{
    lemma_apply_relocs_len(b, pos, relocs, targets);
    lemma_apply_relocs_slot(b, pos, relocs, targets, i);
    let d: int = targets[i] + relocs[i].addend - pos - relocs[i].offset;
    let slot = spec_apply_relocs(b, pos, relocs, targets).subrange(
        relocs[i].offset as int,
        relocs[i].offset + 4,
    );
    assert(slot == spec_u32_to_le_bytes(wrap32(d)));
    vstd::bytes::lemma_auto_spec_u32_to_from_le_bytes();
    assert(vstd::bytes::spec_u32_from_le_bytes(slot) == wrap32(d));
    lemma_as_signed_wrap32(d);
}

} // verus!
