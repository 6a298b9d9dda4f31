//! The injection module: declarations, compiled-object store, relocation
//! resolution and finalize.
//!
//! A consumer declares symbols, submits emitted bytes plus relocations as
//! definitions, and finalizes.  Finalize resolves every pending object's
//! relocations - against compiled regions or through symbol lookup -
//! patches a local copy and writes it to the object's remote region.

use vstd::prelude::*;

use crate::context::{addr_backed, ranges_disjoint, valid_align, InjectionContext};
use crate::decls::{DeclarationTable, FuncSig, Linkage};
use crate::errors::InjectError;
use crate::ids::{DataId, FuncId, FuncOrDataId};
use crate::memory::MAX_ALLOC;
use crate::reloc::{
    relocs_in_bounds, spec_apply_relocs, RelocEntry, RelocKind, SymRef,
};
use crate::symbols::SymbolSource;
use crate::target::INT3;
use crate::tracee::{mem_write, Prot, TraceeOps};
use crate::EXECUTABLE_DATA_ALIGNMENT;

verus! {

/// A compiled object: emitted bytes, pending relocations, the remote
/// region assigned at definition time, and whether it has been finalized.
/// Before finalize `bytes` is the local not-yet-patched copy; after
/// finalize it is the patched copy whose image lives at `region`.
pub struct CompiledBytes {
    pub bytes: Vec<u8>,
    pub relocs: Vec<RelocEntry>,
    pub region: u64,
    pub finalized: bool,
}

/// Init descriptor of a data object.
pub enum Init {
    /// No contents yet; rejected at definition time.
    Uninitialized,
    /// `size` zero bytes.
    Zeros { size: usize },
    /// A verbatim copy of `contents`.
    Bytes { contents: Vec<u8> },
}

impl Init {
    /// The bytes the descriptor stands for (meaningful for `Zeros` and
    /// `Bytes`).
    pub open spec fn spec_bytes(self) -> Seq<u8> {
        match self {
            Init::Uninitialized => Seq::empty(),
            Init::Zeros { size } => Seq::new(size as nat, |i: int| 0u8),
            Init::Bytes { contents } => contents@,
        }
    }

    /// The size in bytes of the data the descriptor describes.
    pub open spec fn spec_size(self) -> int {
        self.spec_bytes().len() as int
    }

    /// Size in bytes.
    pub fn size(&self) -> (r: usize)
        ensures
            r == self.spec_size(),
    {
        match self {
            Init::Uninitialized => 0,
            Init::Zeros { size } => *size,
            Init::Bytes { contents } => contents.len(),
        }
    }
}

/// Description of a data object definition: contents, requested alignment,
/// and pointer-sized relocations against declared functions and data.
pub struct DataDesc {
    pub init: Init,
    pub align: Option<u64>,
    /// `(offset, func_id)`: store the address of the function at `offset`.
    pub function_relocs: Vec<(u32, FuncId)>,
    /// `(offset, data_id, addend)`: store the address of the data object
    /// plus `addend` at `offset`.
    pub data_relocs: Vec<(u32, DataId, i64)>,
}

/// The relocation entries a data description expands to: each function
/// reference becomes an `Abs8` entry with addend zero, each data reference
/// an `Abs8` entry with its addend (pointer width is fixed at 8 bytes).
pub open spec fn spec_data_relocs(desc: DataDesc) -> Seq<RelocEntry> {
    desc.function_relocs@.map(
        |i: int, p: (u32, FuncId)|
            RelocEntry {
                offset: p.0,
                reloc: RelocKind::Abs8,
                name: SymRef::User(FuncOrDataId::Func(p.1)),
                addend: 0,
            },
    ) + desc.data_relocs@.map(
        |i: int, p: (u32, DataId, i64)|
            RelocEntry {
                offset: p.0,
                reloc: RelocKind::Abs8,
                name: SymRef::User(FuncOrDataId::Data(p.1)),
                addend: p.2,
            },
    )
}

/// The protection class a data object's region is drawn from, per its
/// declaration's `writable` flag.
pub open spec fn spec_data_class(writable: bool) -> Prot {
    if writable {
        Prot::ReadWrite
    } else {
        Prot::ReadOnly
    }
}

/// A symbolic reference points at a declared id.
pub open spec fn sym_valid(s: SymRef, d: DeclarationTable) -> bool {
    match s {
        SymRef::User(FuncOrDataId::Func(f)) => f.0 < d.funcs().len(),
        SymRef::User(FuncOrDataId::Data(dd)) => dd.0 < d.datas().len(),
        SymRef::LibCall(_) => true,
    }
}

/// A stored compiled object is consistent with the declaration table: its
/// relocation slots lie within its bytes, its region does not wrap, and
/// its symbolic references are declared.
pub open spec fn obj_wf(obj: CompiledBytes, d: DeclarationTable) -> bool {
    &&& relocs_in_bounds(obj.relocs@, obj.bytes@.len() as int)
    &&& obj.region + obj.bytes@.len() <= u64::MAX
    &&& forall|j: int| 0 <= j < obj.relocs@.len() ==> sym_valid(#[trigger] obj.relocs@[j].name, d)
}

/// The injection module.
pub struct InjectionModule<T, L> {
    inj_ctx: InjectionContext<T>,
    lookup: L,
    declarations: DeclarationTable,
    functions: Vec<Option<CompiledBytes>>,
    data_objects: Vec<Option<CompiledBytes>>,
    functions_to_finalize: Vec<FuncId>,
    data_objects_to_finalize: Vec<DataId>,
    breakpoint_trap: u64,
}

impl<T: TraceeOps, L: SymbolSource> InjectionModule<T, L> {
    /// The injection context (debuggee handle and allocators).
    pub closed spec fn ctx(self) -> InjectionContext<T> {
        self.inj_ctx
    }

    /// The debuggee handle.
    pub open spec fn target(self) -> T {
        self.ctx().target()
    }

    /// The declaration table.
    pub closed spec fn decls(self) -> DeclarationTable {
        self.declarations
    }

    /// The symbol source imports are resolved through.
    pub closed spec fn symbols(self) -> L {
        self.lookup
    }

    /// The per-function-id compiled objects.
    pub closed spec fn funcs_store(self) -> Seq<Option<CompiledBytes>> {
        self.functions@
    }

    /// The per-data-id compiled objects.
    pub closed spec fn datas_store(self) -> Seq<Option<CompiledBytes>> {
        self.data_objects@
    }

    /// Function ids defined but not yet finalized.
    pub closed spec fn pending_funcs(self) -> Seq<FuncId> {
        self.functions_to_finalize@
    }

    /// Data ids defined but not yet finalized.
    pub closed spec fn pending_datas(self) -> Seq<DataId> {
        self.data_objects_to_finalize@
    }

    /// Address of the one-byte trap slot allocated at construction.
    pub closed spec fn spec_breakpoint_trap(self) -> u64 {
        self.breakpoint_trap
    }

    /// Internal consistency: stores are as long as the id spaces, stored
    /// objects are consistent with the declarations, and pending ids point
    /// at defined, unfinalized objects.
    pub open spec fn wf(self) -> bool {
        &&& self.ctx().wf()
        &&& self.decls().wf()
        &&& self.funcs_store().len() == self.decls().funcs().len()
        &&& self.datas_store().len() == self.decls().datas().len()
        &&& (forall|i: int|
            0 <= i < self.funcs_store().len() && self.funcs_store()[i] is Some ==> obj_wf(
                (#[trigger] self.funcs_store()[i])->0,
                self.decls(),
            ))
        &&& (forall|i: int|
            0 <= i < self.datas_store().len() && self.datas_store()[i] is Some ==> obj_wf(
                (#[trigger] self.datas_store()[i])->0,
                self.decls(),
            ))
        &&& (forall|i: int|
            0 <= i < self.pending_funcs().len() ==> {
                let id = (#[trigger] self.pending_funcs()[i]).0 as int;
                &&& id < self.funcs_store().len()
                &&& self.funcs_store()[id] is Some
                &&& !self.funcs_store()[id]->0.finalized
            })
        &&& (forall|i: int|
            0 <= i < self.pending_datas().len() ==> {
                let id = (#[trigger] self.pending_datas()[i]).0 as int;
                &&& id < self.datas_store().len()
                &&& self.datas_store()[id] is Some
                &&& !self.datas_store()[id]->0.finalized
            })
        &&& (forall|k1: int, k2: int|
            #![trigger self.pending_funcs()[k1], self.pending_funcs()[k2]]
            0 <= k1 < k2 < self.pending_funcs().len() ==> self.pending_funcs()[k1].0
                != self.pending_funcs()[k2].0)
        &&& (forall|k1: int, k2: int|
            #![trigger self.pending_datas()[k1], self.pending_datas()[k2]]
            0 <= k1 < k2 < self.pending_datas().len() ==> self.pending_datas()[k1].0
                != self.pending_datas()[k2].0)
    }

    /// Builds a module over a debuggee handle and a symbol source.  One
    /// executable byte is allocated and set to `0xcc` as the breakpoint
    /// trap slot, so injected stacks can use its address as a
    /// return-to-trap sentinel.
    pub fn new(target: T, lookup: L) -> (r: Result<Self, InjectError>)
        ensures
            match r {
                Ok(m) => {
                    &&& m.wf()
                    &&& m.ctx().backed()
                    &&& m.ctx().grants().len() == 1
                    &&& m.decls().funcs().len() == 0
                    &&& m.decls().datas().len() == 0
                    &&& m.pending_funcs().len() == 0
                    &&& m.pending_datas().len() == 0
                    &&& m.target().mem().dom().contains(m.spec_breakpoint_trap())
                    &&& m.target().mem()[m.spec_breakpoint_trap()] == INT3
                    &&& addr_backed(m.target(), m.spec_breakpoint_trap(), Prot::Executable)
                },
                Err(_) => true,
            },
    {
        let mut inj_ctx = InjectionContext::new(target);
        let trap: u64 = match inj_ctx.allocate_code(1, None) {
            Ok(a) => a,
            Err(e) => {
                return Err(e);
            },
        };
        let ghost mid: InjectionContext<T> = inj_ctx;
        let patch: Vec<u8> = vec![INT3];
        match inj_ctx.write(&patch, trap) {
            Ok(()) => {},
            Err(e) => {
                return Err(e);
            },
        }
        proof {
            assert(inj_ctx.target().mem() == mem_write(mid.target().mem(), trap, patch@));
            assert(mid.target().mem().dom().contains((trap + 0) as u64));
            assert((trap + 0) as u64 == trap);
            assert(addr_backed(mid.target(), trap, Prot::Executable));
            assert(addr_backed(inj_ctx.target(), trap, Prot::Executable)) by {
                assert(inj_ctx.target().mem().dom() == mid.target().mem().dom());
                assert(inj_ctx.target().prots() == mid.target().prots());
            }
        }
        Ok(
            InjectionModule {
                inj_ctx,
                lookup,
                declarations: DeclarationTable::new(),
                functions: Vec::new(),
                data_objects: Vec::new(),
                functions_to_finalize: Vec::new(),
                data_objects_to_finalize: Vec::new(),
                breakpoint_trap: trap,
            },
        )
    }

    /// Direct access to the debuggee handle.
    pub fn with_target(&mut self) -> (r: &mut T)
        ensures
            *r == old(self).target(),
            final(self).target() == *final(r),
            final(self).decls() == old(self).decls(),
            final(self).funcs_store() == old(self).funcs_store(),
            final(self).datas_store() == old(self).datas_store(),
            final(self).pending_funcs() == old(self).pending_funcs(),
            final(self).pending_datas() == old(self).pending_datas(),
            final(self).spec_breakpoint_trap() == old(self).spec_breakpoint_trap(),
            final(self).ctx().code() == old(self).ctx().code(),
            final(self).ctx().readonly() == old(self).ctx().readonly(),
            final(self).ctx().readwrite() == old(self).ctx().readwrite(),
    {
        self.inj_ctx.with_target()
    }

    /// The address of the breakpoint trap slot.
    pub fn breakpoint_trap(&self) -> (r: u64)
        ensures
            r == self.spec_breakpoint_trap(),
    {
        self.breakpoint_trap
    }

    /// Allocates a stack whose topmost word returns into the breakpoint
    /// trap, and returns the address of that word.
    pub fn new_stack(&mut self, size: u64) -> (r: Result<u64, InjectError>)
        requires
            old(self).wf(),
            8 <= size <= MAX_ALLOC,
        ensures
            final(self).wf(),
            final(self).decls() == old(self).decls(),
            final(self).funcs_store() == old(self).funcs_store(),
            final(self).datas_store() == old(self).datas_store(),
            final(self).pending_funcs() == old(self).pending_funcs(),
            final(self).pending_datas() == old(self).pending_datas(),
            old(self).ctx().backed() ==> final(self).ctx().backed(),
            match r {
                Ok(top) => {
                    &&& top + 8 <= u64::MAX
                    &&& (exists|base: u64|
                        #[trigger] (base as int % 0x10) == 0 && top == base + size - 8 && final(self).ctx().grants() == old(self).ctx().grants().push(
                            (base, size, Prot::ReadWrite),
                        ))
                    &&& forall|i: int|
                        0 <= i < 8 ==> final(self).target().mem().dom().contains(
                            #[trigger] ((top + i) as u64),
                        ) && final(self).target().mem()[(top + i) as u64]
                            == vstd::bytes::spec_u64_to_le_bytes(
                            old(self).spec_breakpoint_trap(),
                        )[i]
                },
                Err(_) => true,
            },
    {
        let trap: u64 = self.breakpoint_trap;
        self.inj_ctx.allocate_stack(size, trap)
    }

    /// The declaration table.
    pub fn declarations(&self) -> (r: &DeclarationTable)
        ensures
            *r == self.decls(),
    {
        &self.declarations
    }

    /// Declares a function; idempotent on a matching shape, an error on a
    /// conflicting one.
    pub fn declare_function(&mut self, name: &String, linkage: Linkage, signature: FuncSig) -> (r:
        Result<FuncId, InjectError>)
        requires
            old(self).wf(),
            old(self).decls().funcs().len() < u32::MAX,
        ensures
            final(self).wf(),
            final(self).target() == old(self).target(),
            final(self).pending_funcs() == old(self).pending_funcs(),
            final(self).pending_datas() == old(self).pending_datas(),
            final(self).datas_store() == old(self).datas_store(),
            final(self).decls().datas() == old(self).decls().datas(),
            match r {
                Ok(id) => {
                    &&& id.0 < final(self).decls().funcs().len()
                    &&& final(self).decls().funcs()[id.0 as int].name@ == name@
                    &&& final(self).decls().funcs()[id.0 as int].linkage == linkage
                    &&& final(self).decls().funcs()[id.0 as int].signature == signature
                    &&& if old(self).decls().spec_has_func(name@) {
                        &&& *final(self) == *old(self)
                        &&& id.0 == old(self).decls().spec_func_index(name@)
                    } else {
                        &&& id.0 == old(self).decls().funcs().len()
                        &&& final(self).decls().funcs().len() == old(self).decls().funcs().len()
                            + 1
                        &&& final(self).decls().funcs().take(id.0 as int) == old(self).decls().funcs()
                        &&& final(self).funcs_store() == old(self).funcs_store().push(
                            None::<CompiledBytes>,
                        )
                    }
                },
                Err(e) => {
                    &&& *final(self) == *old(self)
                    &&& e matches InjectError::DeclarationConflict(n) && n@ == name@
                },
            },
            r is Ok <==> !(old(self).decls().spec_has_data(name@) || (old(self).decls().spec_has_func(name@) && {
                let d = old(self).decls().funcs()[old(self).decls().spec_func_index(name@)];
                d.linkage != linkage || d.signature != signature
            })),
    {
        let r = self.declarations.declare_function(name, linkage, signature);
        match r {
            Ok(id) => {
                if self.functions.len() < self.declarations.len_funcs() {
                    self.functions.push(None);
                }
                proof {
                    assert(self.funcs_store().len() == self.decls().funcs().len());
                }
                Ok(id)
            },
            Err(e) => Err(e),
        }
    }

    /// Declares a data object; idempotent on a matching shape, an error on
    /// a conflicting one.
    pub fn declare_data(&mut self, name: &String, linkage: Linkage, writable: bool, tls: bool) -> (
        r: Result<DataId, InjectError>)
        requires
            old(self).wf(),
            old(self).decls().datas().len() < u32::MAX,
        ensures
            final(self).wf(),
            final(self).target() == old(self).target(),
            final(self).pending_funcs() == old(self).pending_funcs(),
            final(self).pending_datas() == old(self).pending_datas(),
            final(self).funcs_store() == old(self).funcs_store(),
            final(self).decls().funcs() == old(self).decls().funcs(),
            match r {
                Ok(id) => {
                    &&& id.0 < final(self).decls().datas().len()
                    &&& final(self).decls().datas()[id.0 as int].name@ == name@
                    &&& final(self).decls().datas()[id.0 as int].linkage == linkage
                    &&& final(self).decls().datas()[id.0 as int].writable == writable
                    &&& final(self).decls().datas()[id.0 as int].tls == tls
                    &&& if old(self).decls().spec_has_data(name@) {
                        &&& *final(self) == *old(self)
                        &&& id.0 == old(self).decls().spec_data_index(name@)
                    } else {
                        &&& id.0 == old(self).decls().datas().len()
                        &&& final(self).decls().datas().len() == old(self).decls().datas().len()
                            + 1
                        &&& final(self).decls().datas().take(id.0 as int) == old(self).decls().datas()
                        &&& final(self).datas_store() == old(self).datas_store().push(
                            None::<CompiledBytes>,
                        )
                    }
                },
                Err(e) => {
                    &&& *final(self) == *old(self)
                    &&& e matches InjectError::DeclarationConflict(n) && n@ == name@
                },
            },
            r is Ok <==> !(old(self).decls().spec_has_func(name@) || (old(self).decls().spec_has_data(name@) && {
                let d = old(self).decls().datas()[old(self).decls().spec_data_index(name@)];
                d.linkage != linkage || d.writable != writable || d.tls != tls
            })),
    {
        let r = self.declarations.declare_data(name, linkage, writable, tls);
        match r {
            Ok(id) => {
                if self.data_objects.len() < self.declarations.len_datas() {
                    self.data_objects.push(None);
                }
                proof {
                    assert(self.datas_store().len() == self.decls().datas().len());
                }
                Ok(id)
            },
            Err(e) => Err(e),
        }
    }

    /// The remote region of a finalized function.
    pub fn lookup_function(&self, func_id: FuncId) -> (r: u64)
        requires
            (func_id.0 as int) < self.funcs_store().len(),
            self.funcs_store()[func_id.0 as int] is Some,
            self.funcs_store()[func_id.0 as int]->0.finalized,
        ensures
            r == self.funcs_store()[func_id.0 as int]->0.region,
    {
        match &self.functions[func_id.0 as usize] {
            Some(compiled) => compiled.region,
            None => 0,  // unreachable: the function is finalized
        }
    }

    /// The remote region of a finalized data object.
    pub fn lookup_data_object(&self, data_id: DataId) -> (r: u64)
        requires
            (data_id.0 as int) < self.datas_store().len(),
            self.datas_store()[data_id.0 as int] is Some,
            self.datas_store()[data_id.0 as int]->0.finalized,
        ensures
            r == self.datas_store()[data_id.0 as int]->0.region,
    {
        match &self.data_objects[data_id.0 as usize] {
            Some(compiled) => compiled.region,
            None => 0,  // unreachable: the data object is finalized
        }
    }
}


/// Copies a byte vector.
fn copy_bytes(src: &Vec<u8>) -> (r: Vec<u8>)
    ensures
        r@ == src@,
{
    let mut r: Vec<u8> = Vec::new();
    let mut i: usize = 0;
    while i < src.len()
        invariant
            i <= src@.len(),
            r@ == src@.take(i as int),
        decreases src@.len() - i,
    {
        let b: u8 = src[i];
        r.push(b);
        proof {
            assert(r@ =~= src@.take(i + 1));
        }
        i += 1;
    }
    proof {
        assert(src@.take(src@.len() as int) =~= src@);
    }
    r
}

/// Copies a relocation list.
fn copy_relocs(src: &Vec<RelocEntry>) -> (r: Vec<RelocEntry>)
    ensures
        r@ == src@,
{
    let mut r: Vec<RelocEntry> = Vec::new();
    let mut i: usize = 0;
    while i < src.len()
        invariant
            i <= src@.len(),
            r@ == src@.take(i as int),
        decreases src@.len() - i,
    {
        let e: RelocEntry = src[i];
        r.push(e);
        proof {
            assert(r@ =~= src@.take(i + 1));
        }
        i += 1;
    }
    proof {
        assert(src@.take(src@.len() as int) =~= src@);
    }
    r
}

/// A vector of `n` zero bytes.
fn zero_bytes(n: usize) -> (r: Vec<u8>)
    ensures
        r@ == Seq::new(n as nat, |i: int| 0u8),
{
    let mut r: Vec<u8> = Vec::new();
    let mut i: usize = 0;
    while i < n
        invariant
            i <= n,
            r@ == Seq::new(i as nat, |k: int| 0u8),
        decreases n - i,
    {
        r.push(0u8);
        proof {
            assert(r@ =~= Seq::new((i + 1) as nat, |k: int| 0u8));
        }
        i += 1;
    }
    r
}

impl<T: TraceeOps, L: SymbolSource> InjectionModule<T, L> {
    /// Defines a function from emitted bytes plus relocations: allocates
    /// an executable region sized to the bytes, stores the object and
    /// queues it for finalize.  Returns the code size.  Defining an
    /// `Import`-linkage symbol or an already-defined id is rejected.
    pub fn define_function(
        &mut self,
        func_id: FuncId,
        bytes: &Vec<u8>,
        relocs: &Vec<RelocEntry>,
    ) -> (r: Result<u32, InjectError>)
        requires
            old(self).wf(),
            (func_id.0 as int) < old(self).funcs_store().len(),
            bytes@.len() <= u32::MAX,
            bytes@.len() <= MAX_ALLOC,
            relocs_in_bounds(relocs@, bytes@.len() as int),
            forall|j: int|
                0 <= j < relocs@.len() ==> sym_valid(#[trigger] relocs@[j].name, old(self).decls()),
        ensures
            final(self).wf(),
            final(self).decls() == old(self).decls(),
            final(self).datas_store() == old(self).datas_store(),
            final(self).pending_datas() == old(self).pending_datas(),
            final(self).spec_breakpoint_trap() == old(self).spec_breakpoint_trap(),
            match r {
                Ok(size) => {
                    &&& old(self).funcs_store()[func_id.0 as int] is None
                    &&& size == bytes@.len()
                    &&& final(self).pending_funcs() == old(self).pending_funcs().push(func_id)
                    &&& final(self).funcs_store().len() == old(self).funcs_store().len()
                    &&& (final(self).funcs_store()[func_id.0 as int] matches Some(obj)
                        && obj.bytes@ == bytes@ && obj.relocs@ == relocs@ && !obj.finalized
                        && obj.region as int % EXECUTABLE_DATA_ALIGNMENT as int == 0
                        && obj.region + bytes@.len() <= u64::MAX && final(self).ctx().grants()
                        == old(self).ctx().grants().push(
                        (obj.region, bytes@.len() as u64, Prot::Executable),
                    ) && (old(self).ctx().backed() ==> forall|ad: u64|
                        obj.region <= ad && ad < obj.region + bytes@.len()
                            ==> #[trigger] addr_backed(
                            final(self).target(),
                            ad,
                            Prot::Executable,
                        )) && (old(self).ctx().backed() ==> forall|k: int|
                        0 <= k < old(self).ctx().grants().len() ==> ranges_disjoint(
                            (#[trigger] old(self).ctx().grants()[k]).0 as int,
                            old(self).ctx().grants()[k].1 as int,
                            obj.region as int,
                            bytes@.len() as int,
                        )))
                    &&& (forall|i: int|
                        0 <= i < old(self).funcs_store().len() && i != func_id.0 as int
                            ==> final(self).funcs_store()[i] == old(self).funcs_store()[i])
                    &&& final(self).target().regs() == old(self).target().regs()
                    &&& old(self).target().mem().dom() <= final(self).target().mem().dom()
                    &&& (forall|ad: u64|
                        old(self).target().mem().dom().contains(ad) ==> #[trigger] final(self).target().mem()[ad] == old(self).target().mem()[ad])
                    &&& (old(self).ctx().backed() ==> final(self).ctx().backed())
                },
                Err(_) => {
                    &&& *final(self) == *old(self)
                    &&& final(self).funcs_store() == old(self).funcs_store()
                    &&& final(self).pending_funcs() == old(self).pending_funcs()
                },
            },
            (r matches Err(InjectError::InvalidImportDefinition(n)) ==> n@ == old(self).decls().funcs()[func_id.0 as int].name@),
            (r matches Err(InjectError::DuplicateDefinition(n)) ==> n@ == old(self).decls().funcs()[func_id.0 as int].name@),
            !old(self).decls().funcs()[func_id.0 as int].linkage.spec_is_definable() <==> (
            r matches Err(InjectError::InvalidImportDefinition(_))),
            (old(self).decls().funcs()[func_id.0 as int].linkage.spec_is_definable() && old(self).funcs_store()[func_id.0 as int] is Some) <==> (r matches Err(
                InjectError::DuplicateDefinition(_),
            )),
    {
        let definable: bool = self.declarations.get_function_decl(func_id).linkage.is_definable();
        if !definable {
            let n: String = self.declarations.get_function_decl(func_id).name.clone();
            return Err(InjectError::InvalidImportDefinition(n));
        }
        if self.functions[func_id.0 as usize].is_some() {
            let n: String = self.declarations.get_function_decl(func_id).name.clone();
            return Err(InjectError::DuplicateDefinition(n));
        }
        let region: u64 = match self.inj_ctx.allocate_code(bytes.len() as u64, None) {
            Ok(a) => a,
            Err(e) => {
                return Err(e);
            },
        };
        self.functions_to_finalize.push(func_id);
        let stored = CompiledBytes {
            bytes: copy_bytes(bytes),
            relocs: copy_relocs(relocs),
            region,
            finalized: false,
        };
        self.functions[func_id.0 as usize] = Some(stored);
        proof {
            assert(self.pending_funcs() == old(self).pending_funcs().push(func_id));
            assert forall|i: int|
                0 <= i < self.pending_funcs().len() implies {
                let id = (#[trigger] self.pending_funcs()[i]).0 as int;
                &&& id < self.funcs_store().len()
                &&& self.funcs_store()[id] is Some
                &&& !self.funcs_store()[id]->0.finalized
            } by {
                if i < self.pending_funcs().len() - 1 {
                    assert(self.pending_funcs()[i] == old(self).pending_funcs()[i]);
                }
            }
            assert forall|k1: int, k2: int|
                #![trigger self.pending_funcs()[k1], self.pending_funcs()[k2]]
                0 <= k1 < k2 < self.pending_funcs().len() implies self.pending_funcs()[k1].0
                != self.pending_funcs()[k2].0 by {
                if k2 == self.pending_funcs().len() - 1 {
                    assert(self.pending_funcs()[k1] == old(self).pending_funcs()[k1]);
                    assert(old(self).funcs_store()[old(self).pending_funcs()[k1].0 as int]
                        is Some);
                } else {
                    assert(self.pending_funcs()[k1] == old(self).pending_funcs()[k1]);
                    assert(self.pending_funcs()[k2] == old(self).pending_funcs()[k2]);
                }
            }
        }
        Ok(bytes.len() as u32)
    }

    /// Defines a function from raw bytes with no relocations.
    pub fn define_function_bytes(&mut self, func_id: FuncId, bytes: &Vec<u8>) -> (r: Result<
        u32,
        InjectError,
    >)
        requires
            old(self).wf(),
            (func_id.0 as int) < old(self).funcs_store().len(),
            bytes@.len() <= u32::MAX,
            bytes@.len() <= MAX_ALLOC,
        ensures
            final(self).wf(),
            final(self).decls() == old(self).decls(),
            final(self).datas_store() == old(self).datas_store(),
            final(self).pending_datas() == old(self).pending_datas(),
            final(self).spec_breakpoint_trap() == old(self).spec_breakpoint_trap(),
            match r {
                Ok(size) => {
                    &&& old(self).funcs_store()[func_id.0 as int] is None
                    &&& size == bytes@.len()
                    &&& final(self).pending_funcs() == old(self).pending_funcs().push(func_id)
                    &&& final(self).funcs_store().len() == old(self).funcs_store().len()
                    &&& (final(self).funcs_store()[func_id.0 as int] matches Some(obj)
                        && obj.bytes@ == bytes@ && obj.relocs@.len() == 0 && !obj.finalized
                        && obj.region as int % EXECUTABLE_DATA_ALIGNMENT as int == 0
                        && obj.region + bytes@.len() <= u64::MAX && final(self).ctx().grants()
                        == old(self).ctx().grants().push(
                        (obj.region, bytes@.len() as u64, Prot::Executable),
                    ) && (old(self).ctx().backed() ==> forall|ad: u64|
                        obj.region <= ad && ad < obj.region + bytes@.len()
                            ==> #[trigger] addr_backed(
                            final(self).target(),
                            ad,
                            Prot::Executable,
                        )))
                    &&& (forall|i: int|
                        0 <= i < old(self).funcs_store().len() && i != func_id.0 as int
                            ==> final(self).funcs_store()[i] == old(self).funcs_store()[i])
                    &&& final(self).target().regs() == old(self).target().regs()
                    &&& old(self).target().mem().dom() <= final(self).target().mem().dom()
                    &&& (forall|ad: u64|
                        old(self).target().mem().dom().contains(ad) ==> #[trigger] final(self).target().mem()[ad] == old(self).target().mem()[ad])
                    &&& (old(self).ctx().backed() ==> final(self).ctx().backed())
                },
                Err(_) => {
                    &&& *final(self) == *old(self)
                    &&& final(self).funcs_store() == old(self).funcs_store()
                    &&& final(self).pending_funcs() == old(self).pending_funcs()
                },
            },
            (r matches Err(InjectError::InvalidImportDefinition(n)) ==> n@ == old(self).decls().funcs()[func_id.0 as int].name@),
            (r matches Err(InjectError::DuplicateDefinition(n)) ==> n@ == old(self).decls().funcs()[func_id.0 as int].name@),
            !old(self).decls().funcs()[func_id.0 as int].linkage.spec_is_definable() <==> (
            r matches Err(InjectError::InvalidImportDefinition(_))),
            (old(self).decls().funcs()[func_id.0 as int].linkage.spec_is_definable() && old(self).funcs_store()[func_id.0 as int] is Some) <==> (r matches Err(
                InjectError::DuplicateDefinition(_),
            )),
    {
        let empty: Vec<RelocEntry> = Vec::new();
        self.define_function(func_id, bytes, &empty)
    }
}


impl<T: TraceeOps, L: SymbolSource> InjectionModule<T, L> {
    /// Defines a data object from an init descriptor.  `Uninitialized`
    /// contents and thread-local objects are rejected; `Zeros` produces
    /// zero bytes and `Bytes` a verbatim copy.  The region class follows
    /// the declaration's `writable` flag, the alignment comes from the
    /// descriptor, and each recorded reference expands to a pointer-sized
    /// absolute relocation.
    pub fn define_data(&mut self, data_id: DataId, data_ctx: &DataDesc) -> (r: Result<
        (),
        InjectError,
    >)
        requires
            old(self).wf(),
            (data_id.0 as int) < old(self).datas_store().len(),
            data_ctx.init.spec_size() <= MAX_ALLOC,
            match data_ctx.align {
                Some(a) => valid_align(a),
                None => true,
            },
            relocs_in_bounds(spec_data_relocs(*data_ctx), data_ctx.init.spec_size()),
            forall|j: int|
                0 <= j < spec_data_relocs(*data_ctx).len() ==> sym_valid(
                    #[trigger] spec_data_relocs(*data_ctx)[j].name,
                    old(self).decls(),
                ),
        ensures
            final(self).wf(),
            final(self).decls() == old(self).decls(),
            final(self).funcs_store() == old(self).funcs_store(),
            final(self).pending_funcs() == old(self).pending_funcs(),
            final(self).spec_breakpoint_trap() == old(self).spec_breakpoint_trap(),
            match r {
                Ok(()) => {
                    &&& old(self).datas_store()[data_id.0 as int] is None
                    &&& final(self).pending_datas() == old(self).pending_datas().push(data_id)
                    &&& final(self).datas_store().len() == old(self).datas_store().len()
                    &&& (final(self).datas_store()[data_id.0 as int] matches Some(obj)
                        && obj.bytes@ == data_ctx.init.spec_bytes() && obj.relocs@
                        == spec_data_relocs(*data_ctx) && !obj.finalized && obj.region
                        + data_ctx.init.spec_size() <= u64::MAX && (match data_ctx.align {
                        Some(a) => obj.region as int % a as int == 0,
                        None => true,
                    }) && final(self).ctx().grants() == old(self).ctx().grants().push(
                        (
                            obj.region,
                            data_ctx.init.spec_size() as u64,
                            spec_data_class(old(self).decls().datas()[data_id.0 as int].writable),
                        ),
                    ) && (old(self).ctx().backed() ==> forall|ad: u64|
                        obj.region <= ad && ad < obj.region + data_ctx.init.spec_size()
                            ==> #[trigger] addr_backed(
                            final(self).target(),
                            ad,
                            spec_data_class(old(self).decls().datas()[data_id.0 as int].writable),
                        )) && (old(self).ctx().backed() ==> forall|k: int|
                        0 <= k < old(self).ctx().grants().len() ==> ranges_disjoint(
                            (#[trigger] old(self).ctx().grants()[k]).0 as int,
                            old(self).ctx().grants()[k].1 as int,
                            obj.region as int,
                            data_ctx.init.spec_size(),
                        )))
                    &&& (forall|i: int|
                        0 <= i < old(self).datas_store().len() && i != data_id.0 as int
                            ==> final(self).datas_store()[i] == old(self).datas_store()[i])
                    &&& final(self).target().regs() == old(self).target().regs()
                    &&& old(self).target().mem().dom() <= final(self).target().mem().dom()
                    &&& (forall|ad: u64|
                        old(self).target().mem().dom().contains(ad) ==> #[trigger] final(self).target().mem()[ad] == old(self).target().mem()[ad])
                    &&& (old(self).ctx().backed() ==> final(self).ctx().backed())
                },
                Err(_) => {
                    &&& *final(self) == *old(self)
                    &&& final(self).datas_store() == old(self).datas_store()
                    &&& final(self).pending_datas() == old(self).pending_datas()
                },
            },
            !old(self).decls().datas()[data_id.0 as int].linkage.spec_is_definable() <==> (
            r matches Err(InjectError::InvalidImportDefinition(_))),
            (old(self).decls().datas()[data_id.0 as int].linkage.spec_is_definable() && old(self).datas_store()[data_id.0 as int] is Some) <==> (r matches Err(
                InjectError::DuplicateDefinition(_),
            )),
            (old(self).decls().datas()[data_id.0 as int].linkage.spec_is_definable() && old(self).datas_store()[data_id.0 as int] is None && old(self).decls().datas()[data_id.0
                as int].tls) <==> (r matches Err(InjectError::TlsUnsupported(_))),
            (old(self).decls().datas()[data_id.0 as int].linkage.spec_is_definable() && old(self).datas_store()[data_id.0 as int] is None && !old(self).decls().datas()[data_id.0
                as int].tls && data_ctx.init is Uninitialized) <==> r == Result::<(),
                InjectError,
            >::Err(InjectError::UninitializedData),
    {
        let definable: bool = self.declarations.get_data_decl(data_id).linkage.is_definable();
        if !definable {
            let n: String = self.declarations.get_data_decl(data_id).name.clone();
            return Err(InjectError::InvalidImportDefinition(n));
        }
        if self.data_objects[data_id.0 as usize].is_some() {
            let n: String = self.declarations.get_data_decl(data_id).name.clone();
            return Err(InjectError::DuplicateDefinition(n));
        }
        if self.declarations.get_data_decl(data_id).tls {
            let n: String = self.declarations.get_data_decl(data_id).name.clone();
            return Err(InjectError::TlsUnsupported(n));
        }
        let bytes: Vec<u8> = match &data_ctx.init {
            Init::Uninitialized => {
                return Err(InjectError::UninitializedData);
            },
            Init::Zeros { size } => zero_bytes(*size),
            Init::Bytes { contents } => copy_bytes(contents),
        };
        let writable: bool = self.declarations.get_data_decl(data_id).writable;
        let region: u64 = if writable {
            match self.inj_ctx.allocate_readwrite(bytes.len() as u64, data_ctx.align) {
                Ok(a) => a,
                Err(e) => {
                    return Err(e);
                },
            }
        } else {
            match self.inj_ctx.allocate_readonly(bytes.len() as u64, data_ctx.align) {
                Ok(a) => a,
                Err(e) => {
                    return Err(e);
                },
            }
        };
        let mut relocs: Vec<RelocEntry> = Vec::new();
        let mut i: usize = 0;
        while i < data_ctx.function_relocs.len()
            invariant
                i <= data_ctx.function_relocs@.len(),
                relocs@.len() == i,
                forall|k: int| 0 <= k < i ==> relocs@[k] == spec_data_relocs(*data_ctx)[k],
            decreases data_ctx.function_relocs@.len() - i,
        {
            let p: (u32, FuncId) = data_ctx.function_relocs[i];
            relocs.push(
                RelocEntry {
                    offset: p.0,
                    reloc: RelocKind::Abs8,
                    name: SymRef::User(FuncOrDataId::Func(p.1)),
                    addend: 0,
                },
            );
            i += 1;
        }
        let mut j: usize = 0;
        while j < data_ctx.data_relocs.len()
            invariant
                j <= data_ctx.data_relocs@.len(),
                relocs@.len() == data_ctx.function_relocs@.len() + j,
                forall|k: int|
                    0 <= k < data_ctx.function_relocs@.len() + j ==> relocs@[k]
                        == spec_data_relocs(*data_ctx)[k],
            decreases data_ctx.data_relocs@.len() - j,
        {
            let p: (u32, DataId, i64) = data_ctx.data_relocs[j];
            relocs.push(
                RelocEntry {
                    offset: p.0,
                    reloc: RelocKind::Abs8,
                    name: SymRef::User(FuncOrDataId::Data(p.1)),
                    addend: p.2,
                },
            );
            j += 1;
        }
        proof {
            assert(relocs@ =~= spec_data_relocs(*data_ctx));
        }
        self.data_objects_to_finalize.push(data_id);
        let stored = CompiledBytes { bytes, relocs, region, finalized: false };
        self.data_objects[data_id.0 as usize] = Some(stored);
        proof {
            assert(self.pending_datas() == old(self).pending_datas().push(data_id));
            assert forall|k: int|
                0 <= k < self.pending_datas().len() implies {
                let id = (#[trigger] self.pending_datas()[k]).0 as int;
                &&& id < self.datas_store().len()
                &&& self.datas_store()[id] is Some
                &&& !self.datas_store()[id]->0.finalized
            } by {
                if k < self.pending_datas().len() - 1 {
                    assert(self.pending_datas()[k] == old(self).pending_datas()[k]);
                }
            }
            assert forall|k1: int, k2: int|
                #![trigger self.pending_datas()[k1], self.pending_datas()[k2]]
                0 <= k1 < k2 < self.pending_datas().len() implies self.pending_datas()[k1].0
                != self.pending_datas()[k2].0 by {
                if k2 == self.pending_datas().len() - 1 {
                    assert(self.pending_datas()[k1] == old(self).pending_datas()[k1]);
                    assert(old(self).datas_store()[old(self).pending_datas()[k1].0 as int]
                        is Some);
                } else {
                    assert(self.pending_datas()[k1] == old(self).pending_datas()[k1]);
                    assert(self.pending_datas()[k2] == old(self).pending_datas()[k2]);
                }
            }
        }
        Ok(())
    }
}


impl<T: TraceeOps, L: SymbolSource> InjectionModule<T, L> {
    /// The address a symbolic reference resolves to: the compiled object's
    /// region when one exists for the id, else the symbol source's answer
    /// for the declared name (for a runtime helper, for its standard name).
    pub open spec fn spec_resolved(self, name: SymRef) -> u64 {
        match name {
            SymRef::User(FuncOrDataId::Func(f)) => if self.funcs_store()[f.0 as int] is Some {
                self.funcs_store()[f.0 as int]->0.region
            } else {
                self.symbols().spec_lookup(self.decls().funcs()[f.0 as int].name@)
            },
            SymRef::User(FuncOrDataId::Data(d)) => if self.datas_store()[d.0 as int] is Some {
                self.datas_store()[d.0 as int]->0.region
            } else {
                self.symbols().spec_lookup(self.decls().datas()[d.0 as int].name@)
            },
            SymRef::LibCall(lc) => self.symbols().spec_lookup(lc.spec_name()),
        }
    }

    /// Every resolved target address is exactly what `spec_resolved` says:
    /// a compiled object's region, or the symbol source's answer for the
    /// declared or standard name.
    pub open spec fn spec_targets_consistent(self, relocs: Seq<RelocEntry>, targets: Seq<
        u64,
    >) -> bool {
        &&& targets.len() == relocs.len()
        &&& forall|j: int|
            0 <= j < relocs.len() ==> targets[j] == self.spec_resolved(
                (#[trigger] relocs[j]).name,
            )
    }

    /// Whether `a` lies within the region of some pending object.
    pub open spec fn spec_in_pending_region(self, a: u64) -> bool {
        ||| exists|k: int|
            0 <= k < self.pending_funcs().len() && {
                let obj = self.funcs_store()[(#[trigger] self.pending_funcs()[k]).0 as int]->0;
                obj.region <= a < obj.region + obj.bytes@.len()
            }
        ||| exists|k: int|
            0 <= k < self.pending_datas().len() && {
                let obj = self.datas_store()[(#[trigger] self.pending_datas()[k]).0 as int]->0;
                obj.region <= a < obj.region + obj.bytes@.len()
            }
    }

    /// Resolves a symbolic reference to an absolute target address: the
    /// region of the compiled object when one exists for the id, else the
    /// address symbol lookup returns for the declared name (for a runtime
    /// helper, for its standard name).
    pub fn get_definition(&self, name: SymRef) -> (r: u64)
        requires
            self.wf(),
            sym_valid(name, self.decls()),
        ensures
            r == self.spec_resolved(name),
    {
        match name {
            SymRef::User(FuncOrDataId::Func(f)) => {
                match &self.functions[f.0 as usize] {
                    Some(compiled) => compiled.region,
                    None => {
                        let n: String = self.declarations.get_function_decl(f).name.clone();
                        self.lookup.lookup(&n)
                    },
                }
            },
            SymRef::User(FuncOrDataId::Data(d)) => {
                match &self.data_objects[d.0 as usize] {
                    Some(compiled) => compiled.region,
                    None => {
                        let n: String = self.declarations.get_data_decl(d).name.clone();
                        self.lookup.lookup(&n)
                    },
                }
            },
            SymRef::LibCall(lc) => {
                let n: String = lc.name().to_owned();
                self.lookup.lookup(&n)
            },
        }
    }

    /// Finalizes one function: resolves its relocations, patches a local
    /// copy and writes it to the function's region.  The caller must have
    /// taken the id off the pending list already.
    fn finalize_function(&mut self, func_id: FuncId) -> (r: Result<(), InjectError>)
        requires
            old(self).wf(),
            (func_id.0 as int) < old(self).funcs_store().len(),
            old(self).funcs_store()[func_id.0 as int] is Some,
            !old(self).funcs_store()[func_id.0 as int]->0.finalized,
            forall|k: int|
                #![trigger old(self).pending_funcs()[k]]
                0 <= k < old(self).pending_funcs().len() ==> old(self).pending_funcs()[k].0
                    != func_id.0,
        ensures
            final(self).wf(),
            final(self).decls() == old(self).decls(),
            final(self).datas_store() == old(self).datas_store(),
            final(self).pending_funcs() == old(self).pending_funcs(),
            final(self).pending_datas() == old(self).pending_datas(),
            final(self).spec_breakpoint_trap() == old(self).spec_breakpoint_trap(),
            final(self).symbols() == old(self).symbols(),
            final(self).ctx().grants() == old(self).ctx().grants(),
            old(self).ctx().backed() ==> final(self).ctx().backed(),
            final(self).funcs_store().len() == old(self).funcs_store().len(),
            forall|i: int|
                0 <= i < old(self).funcs_store().len() && i != func_id.0 as int ==> final(self).funcs_store()[i] == old(self).funcs_store()[i],
            final(self).target().mem().dom() == old(self).target().mem().dom(),
            final(self).target().prots() == old(self).target().prots(),
            final(self).target().regs() == old(self).target().regs(),
            match r {
                Ok(()) => ({
                    let obj = old(self).funcs_store()[func_id.0 as int]->0;
                    &&& (final(self).funcs_store()[func_id.0 as int] matches Some(obj2)
                        && obj2.finalized && obj2.region == obj.region && obj2.relocs@
                        == obj.relocs@ && obj2.bytes@.len() == obj.bytes@.len() && (exists|
                        targets: Seq<u64>,
                    |
                        old(self).spec_targets_consistent(obj.relocs@, targets) && obj2.bytes@
                            == #[trigger] spec_apply_relocs(
                            obj.bytes@,
                            obj.region,
                            obj.relocs@,
                            targets,
                        )) && final(self).target().mem() == mem_write(
                        old(self).target().mem(),
                        obj.region,
                        obj2.bytes@,
                    ))
                    &&& forall|j: int|
                        0 <= j < obj.relocs@.len() ==> crate::reloc::reloc_supported(
                            #[trigger] obj.relocs@[j].reloc,
                        )
                    &&& forall|i: int|
                        0 <= i < obj.bytes@.len() ==> old(self).target().mem().dom().contains(
                            #[trigger] ((obj.region + i) as u64),
                        )
                }),
                Err(e) => ({
                    let obj = old(self).funcs_store()[func_id.0 as int]->0;
                    &&& final(self).funcs_store() == old(self).funcs_store()
                    &&& (exists|bs: Seq<u8>|
                        #[trigger] bs.len() <= obj.bytes@.len() && final(self).target().mem()
                            == mem_write(old(self).target().mem(), obj.region, bs))
                    &&& (e is Os || e == InjectError::UnexpectedPicRelocation)
                    &&& (e == InjectError::UnexpectedPicRelocation ==> final(self).target().mem() == old(self).target().mem())
                }),
            },
    {
        let (code0, relocs0, region): (Vec<u8>, Vec<RelocEntry>, u64) = match &self.functions[
            func_id.0 as usize] {
            Some(obj) => (copy_bytes(&obj.bytes), copy_relocs(&obj.relocs), obj.region),
            None => {
                return Err(InjectError::Os(0));  // unreachable: the object is defined
            },
        };
        let mut targets: Vec<u64> = Vec::new();
        let mut j: usize = 0;
        while j < relocs0.len()
            invariant
                self.wf(),
                *self == *old(self),
                j <= relocs0@.len(),
                targets@.len() == j,
                relocs0@ == old(self).funcs_store()[func_id.0 as int]->0.relocs@,
                (func_id.0 as int) < old(self).funcs_store().len(),
                old(self).funcs_store()[func_id.0 as int] is Some,
                forall|k: int|
                    0 <= k < j ==> targets@[k] == self.spec_resolved(
                        (#[trigger] relocs0@[k]).name,
                    ),
            decreases relocs0@.len() - j,
        {
            let e: RelocEntry = relocs0[j];
            proof {
                assert(sym_valid(e.name, self.decls()));
            }
            let t: u64 = self.get_definition(e.name);
            targets.push(t);
            j += 1;
        }
        let mut code: Vec<u8> = code0;
        match crate::reloc::perform_relocations(&mut code, region, &relocs0, &targets) {
            Ok(()) => {},
            Err(e) => {
                proof {
                    let empty: Seq<u8> = Seq::empty();
                    assert(empty.len() <= relocs0@.len() || true);
                    assert(self.target().mem() =~= mem_write(
                        self.target().mem(),
                        region,
                        empty,
                    ));
                    assert(empty.len() == 0);
                }
                return Err(e);
            },
        }
        let ghost mid: Self = *self;
        let ghost prewrite: Self = *self;
        match self.inj_ctx.write(&code, region) {
            Ok(()) => {},
            Err(e) => {
                proof {
                    let obj = old(self).funcs_store()[func_id.0 as int]->0;
                    crate::reloc::lemma_apply_relocs_len(
                        obj.bytes@,
                        obj.region,
                        obj.relocs@,
                        targets@,
                    );
                    let bs = choose|bs: Seq<u8>|
                        #[trigger] bs.len() <= code@.len() && self.target().mem() == mem_write(
                            prewrite.target().mem(),
                            region,
                            bs,
                        );
                    assert(bs.len() <= obj.bytes@.len() && self.target().mem() == mem_write(
                        old(self).target().mem(),
                        obj.region,
                        bs,
                    ));
                }
                return Err(e);
            },
        }
        let stored = CompiledBytes { bytes: code, relocs: relocs0, region, finalized: true };
        self.functions[func_id.0 as usize] = Some(stored);
        proof {
            let obj = old(self).funcs_store()[func_id.0 as int]->0;
            let obj2 = self.funcs_store()[func_id.0 as int]->0;
            crate::reloc::lemma_apply_relocs_len(obj.bytes@, obj.region, obj.relocs@, targets@);
            assert(old(self).spec_targets_consistent(obj.relocs@, targets@) && obj2.bytes@
                == spec_apply_relocs(obj.bytes@, obj.region, obj.relocs@, targets@));
            assert forall|i: int|
                0 <= i < self.pending_funcs().len() implies {
                let id = (#[trigger] self.pending_funcs()[i]).0 as int;
                &&& id < self.funcs_store().len()
                &&& self.funcs_store()[id] is Some
                &&& !self.funcs_store()[id]->0.finalized
            } by {
                assert(self.pending_funcs()[i].0 != func_id.0);
            }
        }
        Ok(())
    }
}


impl<T: TraceeOps, L: SymbolSource> InjectionModule<T, L> {
    /// Finalizes one data object: resolves its relocations, patches a
    /// local copy and writes it to the object's region.  The caller must
    /// have taken the id off the pending list already.
    fn finalize_data(&mut self, data_id: DataId) -> (r: Result<(), InjectError>)
        requires
            old(self).wf(),
            (data_id.0 as int) < old(self).datas_store().len(),
            old(self).datas_store()[data_id.0 as int] is Some,
            !old(self).datas_store()[data_id.0 as int]->0.finalized,
            forall|k: int|
                #![trigger old(self).pending_datas()[k]]
                0 <= k < old(self).pending_datas().len() ==> old(self).pending_datas()[k].0
                    != data_id.0,
        ensures
            final(self).wf(),
            final(self).decls() == old(self).decls(),
            final(self).funcs_store() == old(self).funcs_store(),
            final(self).pending_funcs() == old(self).pending_funcs(),
            final(self).pending_datas() == old(self).pending_datas(),
            final(self).spec_breakpoint_trap() == old(self).spec_breakpoint_trap(),
            final(self).symbols() == old(self).symbols(),
            final(self).ctx().grants() == old(self).ctx().grants(),
            old(self).ctx().backed() ==> final(self).ctx().backed(),
            final(self).datas_store().len() == old(self).datas_store().len(),
            forall|i: int|
                0 <= i < old(self).datas_store().len() && i != data_id.0 as int ==> final(self).datas_store()[i] == old(self).datas_store()[i],
            final(self).target().mem().dom() == old(self).target().mem().dom(),
            final(self).target().prots() == old(self).target().prots(),
            final(self).target().regs() == old(self).target().regs(),
            match r {
                Ok(()) => ({
                    let obj = old(self).datas_store()[data_id.0 as int]->0;
                    &&& (final(self).datas_store()[data_id.0 as int] matches Some(obj2)
                        && obj2.finalized && obj2.region == obj.region && obj2.relocs@
                        == obj.relocs@ && obj2.bytes@.len() == obj.bytes@.len() && (exists|
                        targets: Seq<u64>,
                    |
                        old(self).spec_targets_consistent(obj.relocs@, targets) && obj2.bytes@
                            == #[trigger] spec_apply_relocs(
                            obj.bytes@,
                            obj.region,
                            obj.relocs@,
                            targets,
                        )) && final(self).target().mem() == mem_write(
                        old(self).target().mem(),
                        obj.region,
                        obj2.bytes@,
                    ))
                    &&& forall|j: int|
                        0 <= j < obj.relocs@.len() ==> crate::reloc::reloc_supported(
                            #[trigger] obj.relocs@[j].reloc,
                        )
                    &&& forall|i: int|
                        0 <= i < obj.bytes@.len() ==> old(self).target().mem().dom().contains(
                            #[trigger] ((obj.region + i) as u64),
                        )
                }),
                Err(e) => ({
                    let obj = old(self).datas_store()[data_id.0 as int]->0;
                    &&& final(self).datas_store() == old(self).datas_store()
                    &&& (exists|bs: Seq<u8>|
                        #[trigger] bs.len() <= obj.bytes@.len() && final(self).target().mem()
                            == mem_write(old(self).target().mem(), obj.region, bs))
                    &&& (e is Os || e == InjectError::UnexpectedPicRelocation)
                    &&& (e == InjectError::UnexpectedPicRelocation ==> final(self).target().mem() == old(self).target().mem())
                }),
            },
    {
        let (code0, relocs0, region): (Vec<u8>, Vec<RelocEntry>, u64) = match &self.data_objects[
            data_id.0 as usize] {
            Some(obj) => (copy_bytes(&obj.bytes), copy_relocs(&obj.relocs), obj.region),
            None => {
                return Err(InjectError::Os(0));  // unreachable: the object is defined
            },
        };
        let mut targets: Vec<u64> = Vec::new();
        let mut j: usize = 0;
        while j < relocs0.len()
            invariant
                self.wf(),
                *self == *old(self),
                j <= relocs0@.len(),
                targets@.len() == j,
                relocs0@ == old(self).datas_store()[data_id.0 as int]->0.relocs@,
                (data_id.0 as int) < old(self).datas_store().len(),
                old(self).datas_store()[data_id.0 as int] is Some,
                forall|k: int|
                    0 <= k < j ==> targets@[k] == self.spec_resolved(
                        (#[trigger] relocs0@[k]).name,
                    ),
            decreases relocs0@.len() - j,
        {
            let e: RelocEntry = relocs0[j];
            proof {
                assert(sym_valid(e.name, self.decls()));
            }
            let t: u64 = self.get_definition(e.name);
            targets.push(t);
            j += 1;
        }
        let mut code: Vec<u8> = code0;
        match crate::reloc::perform_relocations(&mut code, region, &relocs0, &targets) {
            Ok(()) => {},
            Err(e) => {
                proof {
                    let empty: Seq<u8> = Seq::empty();
                    assert(empty.len() <= relocs0@.len() || true);
                    assert(self.target().mem() =~= mem_write(
                        self.target().mem(),
                        region,
                        empty,
                    ));
                    assert(empty.len() == 0);
                }
                return Err(e);
            },
        }
        let ghost prewrite: Self = *self;
        match self.inj_ctx.write(&code, region) {
            Ok(()) => {},
            Err(e) => {
                proof {
                    let obj = old(self).datas_store()[data_id.0 as int]->0;
                    crate::reloc::lemma_apply_relocs_len(
                        obj.bytes@,
                        obj.region,
                        obj.relocs@,
                        targets@,
                    );
                    let bs = choose|bs: Seq<u8>|
                        #[trigger] bs.len() <= code@.len() && self.target().mem() == mem_write(
                            prewrite.target().mem(),
                            region,
                            bs,
                        );
                    assert(bs.len() <= obj.bytes@.len() && self.target().mem() == mem_write(
                        old(self).target().mem(),
                        obj.region,
                        bs,
                    ));
                }
                return Err(e);
            },
        }
        let stored = CompiledBytes { bytes: code, relocs: relocs0, region, finalized: true };
        self.data_objects[data_id.0 as usize] = Some(stored);
        proof {
            let obj = old(self).datas_store()[data_id.0 as int]->0;
            let obj2 = self.datas_store()[data_id.0 as int]->0;
            crate::reloc::lemma_apply_relocs_len(obj.bytes@, obj.region, obj.relocs@, targets@);
            assert(old(self).spec_targets_consistent(obj.relocs@, targets@) && obj2.bytes@
                == spec_apply_relocs(obj.bytes@, obj.region, obj.relocs@, targets@));
            assert forall|i: int|
                0 <= i < self.pending_datas().len() implies {
                let id = (#[trigger] self.pending_datas()[i]).0 as int;
                &&& id < self.datas_store().len()
                &&& self.datas_store()[id] is Some
                &&& !self.datas_store()[id]->0.finalized
            } by {
                assert(self.pending_datas()[i].0 != data_id.0);
            }
        }
        Ok(())
    }
}


/// The pending-function list contains id `i`.
pub open spec fn pending_has_func(pf: Seq<FuncId>, i: int) -> bool {
    exists|k: int| 0 <= k < pf.len() && (#[trigger] pf[k]).0 == i
}

/// The pending-data list contains id `i`.
pub open spec fn pending_has_data(pd: Seq<DataId>, i: int) -> bool {
    exists|k: int| 0 <= k < pd.len() && (#[trigger] pd[k]).0 == i
}

/// In `cur`, pending function `k` of `om` has been finalized: the object
/// is marked, keeps its region, its bytes are the patched copy for some
/// resolution consistent with `om`'s compiled regions, and - at every
/// address of its region that no other pending object's region claims -
/// the debuggee holds exactly those patched bytes.
pub open spec fn spec_func_done<T: TraceeOps, L: SymbolSource>(
    om: InjectionModule<T, L>,
    cur: InjectionModule<T, L>,
    k: int,
) -> bool {
    let id = om.pending_funcs()[k].0 as int;
    let obj0 = om.funcs_store()[id]->0;
    let obj1 = cur.funcs_store()[id]->0;
    &&& cur.funcs_store()[id] is Some
    &&& obj1.finalized
    &&& obj1.region == obj0.region
    &&& obj1.relocs@ == obj0.relocs@
    &&& obj1.bytes@.len() == obj0.bytes@.len()
    &&& (exists|targets: Seq<u64>|
        om.spec_targets_consistent(obj0.relocs@, targets) && obj1.bytes@
            == #[trigger] spec_apply_relocs(obj0.bytes@, obj0.region, obj0.relocs@, targets))
    &&& (forall|i: int|
        0 <= i < obj1.bytes@.len() && !om.spec_in_pending_region_except_func(
            k,
            (obj0.region + i) as u64,
        ) ==> cur.target().mem().dom().contains(#[trigger] ((obj0.region + i) as u64))
            && cur.target().mem()[(obj0.region + i) as u64] == obj1.bytes@[i])
}

/// In `cur`, pending data object `k` of `om` has been finalized; the
/// counterpart of `spec_func_done`.
pub open spec fn spec_data_done<T: TraceeOps, L: SymbolSource>(
    om: InjectionModule<T, L>,
    cur: InjectionModule<T, L>,
    k: int,
) -> bool {
    let id = om.pending_datas()[k].0 as int;
    let obj0 = om.datas_store()[id]->0;
    let obj1 = cur.datas_store()[id]->0;
    &&& cur.datas_store()[id] is Some
    &&& obj1.finalized
    &&& obj1.region == obj0.region
    &&& obj1.relocs@ == obj0.relocs@
    &&& obj1.bytes@.len() == obj0.bytes@.len()
    &&& (exists|targets: Seq<u64>|
        om.spec_targets_consistent(obj0.relocs@, targets) && obj1.bytes@
            == #[trigger] spec_apply_relocs(obj0.bytes@, obj0.region, obj0.relocs@, targets))
    &&& (forall|i: int|
        0 <= i < obj1.bytes@.len() && !om.spec_in_pending_region_except_data(
            k,
            (obj0.region + i) as u64,
        ) ==> cur.target().mem().dom().contains(#[trigger] ((obj0.region + i) as u64))
            && cur.target().mem()[(obj0.region + i) as u64] == obj1.bytes@[i])
}

impl<T: TraceeOps, L: SymbolSource> InjectionModule<T, L> {
    /// `a` lies in the region of a pending object other than pending
    /// function `k0`.
    pub open spec fn spec_in_pending_region_except_func(self, k0: int, a: u64) -> bool {
        ||| exists|k: int|
            0 <= k < self.pending_funcs().len() && k != k0 && {
                let obj = self.funcs_store()[(#[trigger] self.pending_funcs()[k]).0 as int]->0;
                obj.region <= a < obj.region + obj.bytes@.len()
            }
        ||| exists|k: int|
            0 <= k < self.pending_datas().len() && {
                let obj = self.datas_store()[(#[trigger] self.pending_datas()[k]).0 as int]->0;
                obj.region <= a < obj.region + obj.bytes@.len()
            }
    }

    /// `a` lies in the region of a pending object other than pending data
    /// object `k0`.
    pub open spec fn spec_in_pending_region_except_data(self, k0: int, a: u64) -> bool {
        ||| exists|k: int|
            0 <= k < self.pending_funcs().len() && {
                let obj = self.funcs_store()[(#[trigger] self.pending_funcs()[k]).0 as int]->0;
                obj.region <= a < obj.region + obj.bytes@.len()
            }
        ||| exists|k: int|
            0 <= k < self.pending_datas().len() && k != k0 && {
                let obj = self.datas_store()[(#[trigger] self.pending_datas()[k]).0 as int]->0;
                obj.region <= a < obj.region + obj.bytes@.len()
            }
    }
}


impl<T: TraceeOps, L: SymbolSource> InjectionModule<T, L> {
    /// Finalizes every pending object: first every pending function, then
    /// every pending data object, each processed exactly once.  Each
    /// object's relocations are resolved, a local copy is patched, the
    /// copy is written to the object's region and the object is marked
    /// finalized.  On failure, objects finalized so far stay valid, the
    /// failing object and the unprocessed ones stay pending, and there is
    /// no rollback.  Objects that were never defined see no write, and
    /// memory outside the pending regions is untouched.
    pub fn finalize_all(&mut self) -> (r: Result<(), InjectError>)
        requires
            old(self).wf(),
        ensures
            final(self).wf(),
            final(self).decls() == old(self).decls(),
            final(self).spec_breakpoint_trap() == old(self).spec_breakpoint_trap(),
            final(self).funcs_store().len() == old(self).funcs_store().len(),
            final(self).datas_store().len() == old(self).datas_store().len(),
            final(self).target().mem().dom() == old(self).target().mem().dom(),
            final(self).target().prots() == old(self).target().prots(),
            final(self).target().regs() == old(self).target().regs(),
            final(self).ctx().grants() == old(self).ctx().grants(),
            old(self).ctx().backed() ==> final(self).ctx().backed(),
            forall|i: int|
                #![trigger final(self).funcs_store()[i]]
                0 <= i < old(self).funcs_store().len() && !pending_has_func(
                    old(self).pending_funcs(),
                    i,
                ) ==> final(self).funcs_store()[i] == old(self).funcs_store()[i],
            forall|i: int|
                #![trigger final(self).datas_store()[i]]
                0 <= i < old(self).datas_store().len() && !pending_has_data(
                    old(self).pending_datas(),
                    i,
                ) ==> final(self).datas_store()[i] == old(self).datas_store()[i],
            forall|a: u64|
                #![trigger final(self).target().mem()[a]]
                old(self).target().mem().dom().contains(a) && !old(self).spec_in_pending_region(a) ==> final(self).target().mem()[a] == old(self).target().mem()[a],
            match r {
                Ok(()) => {
                    &&& final(self).pending_funcs().len() == 0
                    &&& final(self).pending_datas().len() == 0
                    &&& (forall|k: int|
                        0 <= k < old(self).pending_funcs().len() ==> #[trigger] spec_func_done(
                            *old(self),
                            *final(self),
                            k,
                        ))
                    &&& (forall|k: int|
                        0 <= k < old(self).pending_datas().len() ==> #[trigger] spec_data_done(
                            *old(self),
                            *final(self),
                            k,
                        ))
                },
                Err(_) => (exists|fk: int, dk: int|
                    #![trigger old(self).pending_funcs().skip(fk), old(self).pending_datas().skip(dk)]
                    {
                        &&& 0 <= fk <= old(self).pending_funcs().len()
                        &&& 0 <= dk <= old(self).pending_datas().len()
                        &&& (fk < old(self).pending_funcs().len() ==> dk == 0)
                        &&& final(self).pending_funcs() == old(self).pending_funcs().skip(fk)
                        &&& final(self).pending_datas() == old(self).pending_datas().skip(dk)
                        &&& (forall|k: int|
                            0 <= k < fk ==> #[trigger] spec_func_done(*old(self), *final(self), k))
                        &&& (forall|k: int|
                            0 <= k < dk ==> #[trigger] spec_data_done(*old(self), *final(self), k))
                    }),
            },
    {
        let ghost om: Self = *old(self);
        let ghost mut fdone: int = 0;
        while self.functions_to_finalize.len() > 0
            invariant
                self.wf(),
                om == *old(self),
                om.wf(),
                self.decls() == om.decls(),
                self.symbols() == om.symbols(),
                self.ctx().grants() == om.ctx().grants(),
                om.ctx().backed() ==> self.ctx().backed(),
                self.spec_breakpoint_trap() == om.spec_breakpoint_trap(),
                self.funcs_store().len() == om.funcs_store().len(),
                self.datas_store() == om.datas_store(),
                self.pending_datas() == om.pending_datas(),
                0 <= fdone <= om.pending_funcs().len(),
                self.pending_funcs() == om.pending_funcs().skip(fdone),
                self.target().mem().dom() == om.target().mem().dom(),
                self.target().prots() == om.target().prots(),
                self.target().regs() == om.target().regs(),
                forall|i: int|
                    #![trigger self.funcs_store()[i]]
                    0 <= i < om.funcs_store().len() ==> ((om.funcs_store()[i] is Some
                        <==> self.funcs_store()[i] is Some) && (om.funcs_store()[i] is Some
                        ==> self.funcs_store()[i]->0.region == om.funcs_store()[i]->0.region)),
                forall|i: int|
                    #![trigger self.funcs_store()[i]]
                    0 <= i < om.funcs_store().len() && !pending_has_func(
                        om.pending_funcs(),
                        i,
                    ) ==> self.funcs_store()[i] == om.funcs_store()[i],
                forall|k: int|
                    #![trigger om.pending_funcs()[k]]
                    fdone <= k < om.pending_funcs().len() ==> self.funcs_store()[om.pending_funcs()[k].0 as int] == om.funcs_store()[om.pending_funcs()[k].0 as int],
                forall|k: int| 0 <= k < fdone ==> #[trigger] spec_func_done(om, *self, k),
                forall|a: u64|
                    #![trigger self.target().mem()[a]]
                    om.target().mem().dom().contains(a) && !om.spec_in_pending_region(a)
                        ==> self.target().mem()[a] == om.target().mem()[a],
            decreases self.pending_funcs().len(),
        {
            let ghost head: Self = *self;
            let id: FuncId = self.functions_to_finalize[0];
            proof {
                assert(id == om.pending_funcs()[fdone]);
            }
            self.functions_to_finalize.remove(0);
            proof {
                assert(self.pending_funcs() =~= om.pending_funcs().skip(fdone + 1));
                assert forall|k: int|
                    #![trigger self.pending_funcs()[k]]
                    0 <= k < self.pending_funcs().len() implies self.pending_funcs()[k].0
                    != id.0 by {
                    assert(self.pending_funcs()[k] == om.pending_funcs()[fdone + 1 + k]);
                    assert(om.pending_funcs()[fdone] == id);
                }
                assert(self.funcs_store()[id.0 as int] == om.funcs_store()[id.0 as int]);
            }
            let ghost before: Self = *self;
            match self.finalize_function(id) {
                Ok(()) => {},
                Err(e) => {
                    self.functions_to_finalize.insert(0, id);
                    proof {
                        assert(self.pending_funcs() =~= om.pending_funcs().skip(fdone));
                        let obj0 = om.funcs_store()[id.0 as int]->0;
                        assert forall|a: u64|
                            #![trigger self.target().mem()[a]]
                            om.target().mem().dom().contains(a) && !om.spec_in_pending_region(
                                a,
                            ) implies self.target().mem()[a] == om.target().mem()[a] by {
                            assert(om.pending_funcs()[fdone].0 == id.0);
                            assert(!(obj0.region <= a < obj0.region + obj0.bytes@.len()));
                        }
                        // the processed prefix stays finalized and in place:
                        // the failed write only touched the failing object's
                        // own region, which every other image domain excludes
                        assert(before.funcs_store()[id.0 as int] == om.funcs_store()[id.0
                            as int]);
                        let bs = choose|bs: Seq<u8>|
                            #[trigger] bs.len() <= before.funcs_store()[id.0
                                as int]->0.bytes@.len() && self.target().mem() == mem_write(
                                before.target().mem(),
                                before.funcs_store()[id.0 as int]->0.region,
                                bs,
                            );
                        assert forall|k: int| 0 <= k < fdone implies #[trigger] spec_func_done(
                            om,
                            *self,
                            k,
                        ) by {
                            assert(spec_func_done(om, head, k));
                            assert(before.funcs_store() == head.funcs_store());
                            assert(before.target() == head.target());
                            assert(spec_func_done(om, before, k));
                            let idk = om.pending_funcs()[k].0 as int;
                            assert(self.funcs_store()[idk] == before.funcs_store()[idk]);
                            let obj1 = self.funcs_store()[idk]->0;
                            let objk0 = om.funcs_store()[idk]->0;
                            assert forall|i: int|
                                0 <= i < obj1.bytes@.len()
                                    && !om.spec_in_pending_region_except_func(
                                    k,
                                    (objk0.region + i) as u64,
                                ) implies self.target().mem().dom().contains(
                                #[trigger] ((objk0.region + i) as u64),
                            ) && self.target().mem()[(objk0.region + i) as u64]
                                == obj1.bytes@[i] by {
                                let aa = (objk0.region + i) as u64;
                                assert(om.pending_funcs()[fdone].0 == id.0);
                                assert(!(obj0.region <= aa < obj0.region + obj0.bytes@.len()));
                                assert(self.target().mem() == mem_write(
                                    before.target().mem(),
                                    obj0.region,
                                    bs,
                                ));
                            }
                        }
                        assert(self.pending_datas() =~= om.pending_datas().skip(0));
                    }
                    return Err(e);
                },
            }
            proof {
                let idn = id.0 as int;
                let obj0 = om.funcs_store()[idn]->0;
                let obj2 = self.funcs_store()[idn]->0;
                assert(obj2.bytes@.len() == obj0.bytes@.len());
                // the new state settles every invariant
                assert forall|k: int| 0 <= k < fdone + 1 implies #[trigger] spec_func_done(
                    om,
                    *self,
                    k,
                ) by {
                    if k < fdone {
                        assert(spec_func_done(om, head, k));
                        assert(before.funcs_store() == head.funcs_store());
                        assert(before.target() == head.target());
                        assert(spec_func_done(om, before, k));
                        let idk = om.pending_funcs()[k].0 as int;
                        assert(om.pending_funcs()[k].0 != id.0);
                        assert(self.funcs_store()[idk] == before.funcs_store()[idk]);
                        let obj1 = self.funcs_store()[idk]->0;
                        let objk0 = om.funcs_store()[idk]->0;
                        assert forall|i: int|
                            0 <= i < obj1.bytes@.len() && !om.spec_in_pending_region_except_func(
                                k,
                                (objk0.region + i) as u64,
                            ) implies self.target().mem().dom().contains(
                            #[trigger] ((objk0.region + i) as u64),
                        ) && self.target().mem()[(objk0.region + i) as u64]
                            == obj1.bytes@[i] by {
                            let a = (objk0.region + i) as u64;
                            assert(om.pending_funcs()[fdone].0 == id.0);
                            assert(!(obj0.region <= a < obj0.region + obj0.bytes@.len()));
                            assert(self.target().mem() == mem_write(
                                before.target().mem(),
                                obj0.region,
                                obj2.bytes@,
                            ));
                        }
                    } else {
                        let targets = choose|targets: Seq<u64>|
                            before.spec_targets_consistent(obj0.relocs@, targets) && obj2.bytes@
                                == #[trigger] spec_apply_relocs(
                                obj0.bytes@,
                                obj0.region,
                                obj0.relocs@,
                                targets,
                            );
                        assert(om.spec_targets_consistent(obj0.relocs@, targets)) by {
                            assert forall|j: int|
                                0 <= j < obj0.relocs@.len() implies targets[j]
                                == om.spec_resolved((#[trigger] obj0.relocs@[j]).name) by {
                                assert(targets[j] == before.spec_resolved(
                                    obj0.relocs@[j].name,
                                ));
                                assert(before.symbols() == om.symbols());
                                assert(before.decls() == om.decls());
                                assert(obj_wf(obj0, om.decls()));
                                assert(sym_valid(obj0.relocs@[j].name, om.decls()));
                                match obj0.relocs@[j].name {
                                    SymRef::User(FuncOrDataId::Func(f)) => {
                                        assert(om.funcs_store()[f.0 as int] is Some
                                            <==> before.funcs_store()[f.0 as int] is Some);
                                        if om.funcs_store()[f.0 as int] is Some {
                                            assert(before.funcs_store()[f.0 as int]->0.region
                                                == om.funcs_store()[f.0 as int]->0.region);
                                        }
                                    },
                                    SymRef::User(FuncOrDataId::Data(d)) => {
                                        assert(om.datas_store()[d.0 as int] is Some
                                            <==> before.datas_store()[d.0 as int] is Some);
                                        if om.datas_store()[d.0 as int] is Some {
                                            assert(before.datas_store()[d.0 as int]->0.region
                                                == om.datas_store()[d.0 as int]->0.region);
                                        }
                                    },
                                    SymRef::LibCall(_) => {},
                                }
                            }
                        };
                        assert forall|i: int|
                            0 <= i < obj2.bytes@.len() && !om.spec_in_pending_region_except_func(
                                k,
                                (obj0.region + i) as u64,
                            ) implies self.target().mem().dom().contains(
                            #[trigger] ((obj0.region + i) as u64),
                        ) && self.target().mem()[(obj0.region + i) as u64]
                            == obj2.bytes@[i] by {
                            assert(self.target().mem() == mem_write(
                                before.target().mem(),
                                obj0.region,
                                obj2.bytes@,
                            ));
                            assert(before.target().mem().dom().contains(
                                ((obj0.region + i) as u64),
                            ));
                        }
                        assert(spec_func_done(om, *self, fdone));
                    }
                }
                assert forall|a: u64|
                    #![trigger self.target().mem()[a]]
                    om.target().mem().dom().contains(a) && !om.spec_in_pending_region(
                        a,
                    ) implies self.target().mem()[a] == om.target().mem()[a] by {
                    assert(om.pending_funcs()[fdone].0 == id.0);
                    assert(!(obj0.region <= a < obj0.region + obj0.bytes@.len()));
                    assert(self.target().mem() == mem_write(
                        before.target().mem(),
                        obj0.region,
                        obj2.bytes@,
                    ));
                }
                fdone = fdone + 1;
            }
        }

        let ghost mut ddone: int = 0;
        while self.data_objects_to_finalize.len() > 0
            invariant
                self.wf(),
                om == *old(self),
                om.wf(),
                self.decls() == om.decls(),
                self.symbols() == om.symbols(),
                self.ctx().grants() == om.ctx().grants(),
                om.ctx().backed() ==> self.ctx().backed(),
                self.spec_breakpoint_trap() == om.spec_breakpoint_trap(),
                self.funcs_store().len() == om.funcs_store().len(),
                self.datas_store().len() == om.datas_store().len(),
                self.pending_funcs().len() == 0,
                0 <= ddone <= om.pending_datas().len(),
                self.pending_datas() == om.pending_datas().skip(ddone),
                self.target().mem().dom() == om.target().mem().dom(),
                self.target().prots() == om.target().prots(),
                self.target().regs() == om.target().regs(),
                forall|i: int|
                    #![trigger self.funcs_store()[i]]
                    0 <= i < om.funcs_store().len() ==> ((om.funcs_store()[i] is Some
                        <==> self.funcs_store()[i] is Some) && (om.funcs_store()[i] is Some
                        ==> self.funcs_store()[i]->0.region == om.funcs_store()[i]->0.region)),
                forall|i: int|
                    #![trigger self.datas_store()[i]]
                    0 <= i < om.datas_store().len() ==> ((om.datas_store()[i] is Some
                        <==> self.datas_store()[i] is Some) && (om.datas_store()[i] is Some
                        ==> self.datas_store()[i]->0.region == om.datas_store()[i]->0.region)),
                forall|i: int|
                    #![trigger self.funcs_store()[i]]
                    0 <= i < om.funcs_store().len() && !pending_has_func(
                        om.pending_funcs(),
                        i,
                    ) ==> self.funcs_store()[i] == om.funcs_store()[i],
                forall|i: int|
                    #![trigger self.datas_store()[i]]
                    0 <= i < om.datas_store().len() && !pending_has_data(
                        om.pending_datas(),
                        i,
                    ) ==> self.datas_store()[i] == om.datas_store()[i],
                forall|k: int|
                    #![trigger om.pending_datas()[k]]
                    ddone <= k < om.pending_datas().len() ==> self.datas_store()[om.pending_datas()[k].0 as int] == om.datas_store()[om.pending_datas()[k].0 as int],
                forall|k: int|
                    0 <= k < om.pending_funcs().len() ==> #[trigger] spec_func_done(
                        om,
                        *self,
                        k,
                    ),
                forall|k: int| 0 <= k < ddone ==> #[trigger] spec_data_done(om, *self, k),
                forall|a: u64|
                    #![trigger self.target().mem()[a]]
                    om.target().mem().dom().contains(a) && !om.spec_in_pending_region(a)
                        ==> self.target().mem()[a] == om.target().mem()[a],
            decreases self.pending_datas().len(),
        {
            let ghost head: Self = *self;
            let id: DataId = self.data_objects_to_finalize[0];
            proof {
                assert(id == om.pending_datas()[ddone]);
            }
            self.data_objects_to_finalize.remove(0);
            proof {
                assert(self.pending_datas() =~= om.pending_datas().skip(ddone + 1));
                assert forall|k: int|
                    #![trigger self.pending_datas()[k]]
                    0 <= k < self.pending_datas().len() implies self.pending_datas()[k].0
                    != id.0 by {
                    assert(self.pending_datas()[k] == om.pending_datas()[ddone + 1 + k]);
                    assert(om.pending_datas()[ddone] == id);
                }
                assert(self.datas_store()[id.0 as int] == om.datas_store()[id.0 as int]);
            }
            let ghost before: Self = *self;
            match self.finalize_data(id) {
                Ok(()) => {},
                Err(e) => {
                    self.data_objects_to_finalize.insert(0, id);
                    proof {
                        assert(self.pending_datas() =~= om.pending_datas().skip(ddone));
                        let obj0 = om.datas_store()[id.0 as int]->0;
                        assert forall|a: u64|
                            #![trigger self.target().mem()[a]]
                            om.target().mem().dom().contains(a) && !om.spec_in_pending_region(
                                a,
                            ) implies self.target().mem()[a] == om.target().mem()[a] by {
                            assert(om.pending_datas()[ddone].0 == id.0);
                            assert(!(obj0.region <= a < obj0.region + obj0.bytes@.len()));
                        }
                        // everything finalized so far stays in place: the
                        // failed write only touched the failing object's own
                        // region, which every other image domain excludes
                        assert(before.datas_store()[id.0 as int] == om.datas_store()[id.0
                            as int]);
                        let bs = choose|bs: Seq<u8>|
                            #[trigger] bs.len() <= before.datas_store()[id.0
                                as int]->0.bytes@.len() && self.target().mem() == mem_write(
                                before.target().mem(),
                                before.datas_store()[id.0 as int]->0.region,
                                bs,
                            );
                        assert forall|k: int|
                            0 <= k < om.pending_funcs().len() implies #[trigger] spec_func_done(
                            om,
                            *self,
                            k,
                        ) by {
                            assert(spec_func_done(om, head, k));
                            assert(before.funcs_store() == head.funcs_store());
                            assert(before.target() == head.target());
                            assert(spec_func_done(om, before, k));
                            let idk = om.pending_funcs()[k].0 as int;
                            assert(self.funcs_store()[idk] == before.funcs_store()[idk]);
                            let obj1 = self.funcs_store()[idk]->0;
                            let objk0 = om.funcs_store()[idk]->0;
                            assert forall|i: int|
                                0 <= i < obj1.bytes@.len()
                                    && !om.spec_in_pending_region_except_func(
                                    k,
                                    (objk0.region + i) as u64,
                                ) implies self.target().mem().dom().contains(
                                #[trigger] ((objk0.region + i) as u64),
                            ) && self.target().mem()[(objk0.region + i) as u64]
                                == obj1.bytes@[i] by {
                                let aa = (objk0.region + i) as u64;
                                assert(om.pending_datas()[ddone].0 == id.0);
                                assert(!(obj0.region <= aa < obj0.region + obj0.bytes@.len()));
                                assert(self.target().mem() == mem_write(
                                    before.target().mem(),
                                    obj0.region,
                                    bs,
                                ));
                            }
                        }
                        assert forall|k: int| 0 <= k < ddone implies #[trigger] spec_data_done(
                            om,
                            *self,
                            k,
                        ) by {
                            assert(spec_data_done(om, head, k));
                            assert(before.datas_store() == head.datas_store());
                            assert(before.target() == head.target());
                            assert(spec_data_done(om, before, k));
                            let idk = om.pending_datas()[k].0 as int;
                            assert(self.datas_store()[idk] == before.datas_store()[idk]);
                            let obj1 = self.datas_store()[idk]->0;
                            let objk0 = om.datas_store()[idk]->0;
                            assert forall|i: int|
                                0 <= i < obj1.bytes@.len()
                                    && !om.spec_in_pending_region_except_data(
                                    k,
                                    (objk0.region + i) as u64,
                                ) implies self.target().mem().dom().contains(
                                #[trigger] ((objk0.region + i) as u64),
                            ) && self.target().mem()[(objk0.region + i) as u64]
                                == obj1.bytes@[i] by {
                                let aa = (objk0.region + i) as u64;
                                assert(om.pending_datas()[ddone].0 == id.0);
                                assert(!(obj0.region <= aa < obj0.region + obj0.bytes@.len()));
                                assert(self.target().mem() == mem_write(
                                    before.target().mem(),
                                    obj0.region,
                                    bs,
                                ));
                            }
                        }
                        assert(self.pending_funcs() =~= om.pending_funcs().skip(
                            om.pending_funcs().len() as int,
                        ));
                    }
                    return Err(e);
                },
            }
            proof {
                let idn = id.0 as int;
                let obj0 = om.datas_store()[idn]->0;
                let obj2 = self.datas_store()[idn]->0;
                assert(obj2.bytes@.len() == obj0.bytes@.len());
                assert forall|k: int| 0 <= k < ddone + 1 implies #[trigger] spec_data_done(
                    om,
                    *self,
                    k,
                ) by {
                    if k < ddone {
                        assert(spec_data_done(om, head, k));
                        assert(before.datas_store() == head.datas_store());
                        assert(before.target() == head.target());
                        assert(spec_data_done(om, before, k));
                        let idk = om.pending_datas()[k].0 as int;
                        assert(om.pending_datas()[k].0 != id.0);
                        assert(self.datas_store()[idk] == before.datas_store()[idk]);
                        let obj1 = self.datas_store()[idk]->0;
                        let objk0 = om.datas_store()[idk]->0;
                        assert forall|i: int|
                            0 <= i < obj1.bytes@.len() && !om.spec_in_pending_region_except_data(
                                k,
                                (objk0.region + i) as u64,
                            ) implies self.target().mem().dom().contains(
                            #[trigger] ((objk0.region + i) as u64),
                        ) && self.target().mem()[(objk0.region + i) as u64]
                            == obj1.bytes@[i] by {
                            let a = (objk0.region + i) as u64;
                            assert(om.pending_datas()[ddone].0 == id.0);
                            assert(!(obj0.region <= a < obj0.region + obj0.bytes@.len()));
                            assert(self.target().mem() == mem_write(
                                before.target().mem(),
                                obj0.region,
                                obj2.bytes@,
                            ));
                        }
                    } else {
                        let targets = choose|targets: Seq<u64>|
                            before.spec_targets_consistent(obj0.relocs@, targets) && obj2.bytes@
                                == #[trigger] spec_apply_relocs(
                                obj0.bytes@,
                                obj0.region,
                                obj0.relocs@,
                                targets,
                            );
                        assert(om.spec_targets_consistent(obj0.relocs@, targets)) by {
                            assert forall|j: int|
                                0 <= j < obj0.relocs@.len() implies targets[j]
                                == om.spec_resolved((#[trigger] obj0.relocs@[j]).name) by {
                                assert(targets[j] == before.spec_resolved(
                                    obj0.relocs@[j].name,
                                ));
                                assert(before.symbols() == om.symbols());
                                assert(before.decls() == om.decls());
                                assert(obj_wf(obj0, om.decls()));
                                assert(sym_valid(obj0.relocs@[j].name, om.decls()));
                                match obj0.relocs@[j].name {
                                    SymRef::User(FuncOrDataId::Func(f)) => {
                                        assert(om.funcs_store()[f.0 as int] is Some
                                            <==> before.funcs_store()[f.0 as int] is Some);
                                        if om.funcs_store()[f.0 as int] is Some {
                                            assert(before.funcs_store()[f.0 as int]->0.region
                                                == om.funcs_store()[f.0 as int]->0.region);
                                        }
                                    },
                                    SymRef::User(FuncOrDataId::Data(d)) => {
                                        assert(om.datas_store()[d.0 as int] is Some
                                            <==> before.datas_store()[d.0 as int] is Some);
                                        if om.datas_store()[d.0 as int] is Some {
                                            assert(before.datas_store()[d.0 as int]->0.region
                                                == om.datas_store()[d.0 as int]->0.region);
                                        }
                                    },
                                    SymRef::LibCall(_) => {},
                                }
                            }
                        };
                        assert forall|i: int|
                            0 <= i < obj2.bytes@.len() && !om.spec_in_pending_region_except_data(
                                k,
                                (obj0.region + i) as u64,
                            ) implies self.target().mem().dom().contains(
                            #[trigger] ((obj0.region + i) as u64),
                        ) && self.target().mem()[(obj0.region + i) as u64]
                            == obj2.bytes@[i] by {
                            assert(self.target().mem() == mem_write(
                                before.target().mem(),
                                obj0.region,
                                obj2.bytes@,
                            ));
                            assert(before.target().mem().dom().contains(
                                ((obj0.region + i) as u64),
                            ));
                        }
                        assert(spec_data_done(om, *self, ddone));
                    }
                }
                assert forall|k: int|
                    0 <= k < om.pending_funcs().len() implies #[trigger] spec_func_done(
                    om,
                    *self,
                    k,
                ) by {
                    assert(spec_func_done(om, head, k));
                    assert(before.funcs_store() == head.funcs_store());
                    assert(before.target() == head.target());
                    assert(spec_func_done(om, before, k));
                    let idk = om.pending_funcs()[k].0 as int;
                    let obj1 = self.funcs_store()[idk]->0;
                    let objk0 = om.funcs_store()[idk]->0;
                    assert forall|i: int|
                        0 <= i < obj1.bytes@.len() && !om.spec_in_pending_region_except_func(
                            k,
                            (objk0.region + i) as u64,
                        ) implies self.target().mem().dom().contains(
                        #[trigger] ((objk0.region + i) as u64),
                    ) && self.target().mem()[(objk0.region + i) as u64] == obj1.bytes@[i] by {
                        let a = (objk0.region + i) as u64;
                        assert(om.pending_datas()[ddone].0 == id.0);
                        assert(!(obj0.region <= a < obj0.region + obj0.bytes@.len()));
                        assert(self.target().mem() == mem_write(
                            before.target().mem(),
                            obj0.region,
                            obj2.bytes@,
                        ));
                    }
                }
                assert forall|a: u64|
                    #![trigger self.target().mem()[a]]
                    om.target().mem().dom().contains(a) && !om.spec_in_pending_region(
                        a,
                    ) implies self.target().mem()[a] == om.target().mem()[a] by {
                    assert(om.pending_datas()[ddone].0 == id.0);
                    assert(!(obj0.region <= a < obj0.region + obj0.bytes@.len()));
                    assert(self.target().mem() == mem_write(
                        before.target().mem(),
                        obj0.region,
                        obj2.bytes@,
                    ));
                }
                ddone = ddone + 1;
            }
        }
        Ok(())
    }
}

} // verus!
