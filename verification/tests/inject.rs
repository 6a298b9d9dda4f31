//! End-to-end injection scenarios against the simulated debuggee.

use headcrab_inject::decls::{FuncSig, Linkage};
use headcrab_inject::errors::InjectError;
use headcrab_inject::ids::FuncOrDataId;
use headcrab_inject::module::{DataDesc, Init, InjectionModule};
use headcrab_inject::reloc::{RelocEntry, RelocKind, SymRef};
use headcrab_inject::sim::SimTracee;
use headcrab_inject::symbols::SymbolMap;
use headcrab_inject::tracee::TraceeOps;

fn sig() -> FuncSig {
    FuncSig { params: 0, returns: 1 }
}

#[test]
fn define_and_finalize_trivial_function() {
    // mov rax, 42; ret
    let code: Vec<u8> = vec![0x48, 0xc7, 0xc0, 0x2a, 0x00, 0x00, 0x00, 0xc3];
    let mut m = InjectionModule::new(SimTracee::new(), SymbolMap::new()).unwrap();

    // the trap slot allocated at construction holds an int3 byte
    let trap = m.breakpoint_trap();
    assert_eq!(m.with_target().read_mem(trap, 1).unwrap(), vec![0xcc]);

    let foo = m
        .declare_function(&"foo".to_string(), Linkage::Export, sig())
        .unwrap();
    let size = m.define_function_bytes(foo, &code).unwrap();
    assert_eq!(size, 8);
    m.finalize_all().unwrap();

    let region = m.lookup_function(foo);
    assert_eq!(region % 0x10, 0);
    // reading the function back from the debuggee yields the injected bytes
    assert_eq!(m.with_target().read_mem(region, 8).unwrap(), code);

    // a fresh stack returns into the breakpoint trap
    let top = m.new_stack(4096).unwrap();
    let word = m.with_target().read_mem(top, 8).unwrap();
    assert_eq!(u64::from_le_bytes(word.try_into().unwrap()), trap);
}

#[test]
fn absolute_relocation() {
    let mut lookup = SymbolMap::new();
    lookup.insert(&"msg".to_string(), 0x7fff_0000_0000_1234);
    let mut m = InjectionModule::new(SimTracee::new(), lookup).unwrap();

    let msg = m
        .declare_data(&"msg".to_string(), Linkage::Import, false, false)
        .unwrap();
    let f = m
        .declare_function(&"f".to_string(), Linkage::Local, sig())
        .unwrap();
    let code: Vec<u8> = vec![0; 10];
    let relocs = vec![RelocEntry {
        offset: 2,
        reloc: RelocKind::Abs8,
        name: SymRef::User(FuncOrDataId::Data(msg)),
        addend: 0,
    }];
    m.define_function(f, &code, &relocs).unwrap();
    m.finalize_all().unwrap();

    let region = m.lookup_function(f);
    let patched = m.with_target().read_mem(region, 10).unwrap();
    assert_eq!(&patched[2..10], &[0x34, 0x12, 0x00, 0x00, 0x00, 0x00, 0xff, 0x7f]);
    assert_eq!(&patched[0..2], &[0, 0]);
}

#[test]
fn pc_relative_call() {
    let mut m = InjectionModule::new(SimTracee::new(), SymbolMap::new()).unwrap();
    let a = m
        .declare_function(&"a".to_string(), Linkage::Local, sig())
        .unwrap();
    let b = m
        .declare_function(&"b".to_string(), Linkage::Local, sig())
        .unwrap();

    // call rel32 at offset 1, addend -4 as the producer emits it
    let code_a: Vec<u8> = vec![0xe8, 0x00, 0x00, 0x00, 0x00];
    let relocs_a = vec![RelocEntry {
        offset: 1,
        reloc: RelocKind::CallPCRel4,
        name: SymRef::User(FuncOrDataId::Func(b)),
        addend: -4,
    }];
    m.define_function(a, &code_a, &relocs_a).unwrap();
    let code_b: Vec<u8> = vec![0xc3];
    m.define_function_bytes(b, &code_b).unwrap();
    m.finalize_all().unwrap();

    let ra = m.lookup_function(a);
    let rb = m.lookup_function(b);
    let slot = m.with_target().read_mem(ra + 1, 4).unwrap();
    let stored = i32::from_le_bytes(slot.try_into().unwrap()) as i64;
    assert_eq!(stored, rb as i64 - (ra as i64 + 1) - 4);
}

#[test]
fn undefined_ids_see_no_write() {
    // a declared but never defined function contributes nothing to finalize
    let mut m = InjectionModule::new(SimTracee::new(), SymbolMap::new()).unwrap();
    m.declare_function(&"ghost".to_string(), Linkage::Export, sig())
        .unwrap();
    m.finalize_all().unwrap();
    let defined = m
        .declare_function(&"real".to_string(), Linkage::Export, sig())
        .unwrap();
    m.define_function_bytes(defined, &vec![0xc3]).unwrap();
    m.finalize_all().unwrap();
    let region = m.lookup_function(defined);
    assert_eq!(m.with_target().read_mem(region, 1).unwrap(), vec![0xc3]);
}

#[test]
fn double_definition_is_rejected() {
    let mut m = InjectionModule::new(SimTracee::new(), SymbolMap::new()).unwrap();
    let foo = m
        .declare_function(&"foo".to_string(), Linkage::Export, sig())
        .unwrap();
    m.define_function_bytes(foo, &vec![0xc3]).unwrap();
    let again = m.define_function_bytes(foo, &vec![0xc3]);
    assert!(matches!(again, Err(InjectError::DuplicateDefinition(n)) if n == "foo"));
}

#[test]
fn import_definition_is_rejected() {
    let mut m = InjectionModule::new(SimTracee::new(), SymbolMap::new()).unwrap();
    let puts = m
        .declare_function(&"puts".to_string(), Linkage::Import, sig())
        .unwrap();
    let r = m.define_function_bytes(puts, &vec![0xc3]);
    assert!(matches!(r, Err(InjectError::InvalidImportDefinition(n)) if n == "puts"));
}

#[test]
fn uninitialized_data_is_rejected() {
    let mut m = InjectionModule::new(SimTracee::new(), SymbolMap::new()).unwrap();
    let d = m
        .declare_data(&"d".to_string(), Linkage::Export, true, false)
        .unwrap();
    let desc = DataDesc {
        init: Init::Uninitialized,
        align: None,
        function_relocs: vec![],
        data_relocs: vec![],
    };
    let r = m.define_data(d, &desc);
    assert!(matches!(r, Err(InjectError::UninitializedData)));
}

#[test]
fn tls_data_is_rejected() {
    let mut m = InjectionModule::new(SimTracee::new(), SymbolMap::new()).unwrap();
    let d = m
        .declare_data(&"t".to_string(), Linkage::Export, true, true)
        .unwrap();
    let desc = DataDesc {
        init: Init::Zeros { size: 8 },
        align: None,
        function_relocs: vec![],
        data_relocs: vec![],
    };
    let r = m.define_data(d, &desc);
    assert!(matches!(r, Err(InjectError::TlsUnsupported(n)) if n == "t"));
}

#[test]
fn conflicting_redeclaration_is_rejected() {
    let mut m = InjectionModule::new(SimTracee::new(), SymbolMap::new()).unwrap();
    let first = m
        .declare_function(&"x".to_string(), Linkage::Export, sig())
        .unwrap();
    // same shape: idempotent, same id
    let second = m
        .declare_function(&"x".to_string(), Linkage::Export, sig())
        .unwrap();
    assert_eq!(first, second);
    // different linkage: conflict
    let third = m.declare_function(&"x".to_string(), Linkage::Local, sig());
    assert!(matches!(third, Err(InjectError::DeclarationConflict(n)) if n == "x"));
    // name taken by the other namespace: conflict
    let fourth = m.declare_data(&"x".to_string(), Linkage::Export, false, false);
    assert!(matches!(fourth, Err(InjectError::DeclarationConflict(n)) if n == "x"));
}

#[test]
fn pic_relocation_is_rejected() {
    let mut m = InjectionModule::new(SimTracee::new(), SymbolMap::new()).unwrap();
    let f = m
        .declare_function(&"f".to_string(), Linkage::Local, sig())
        .unwrap();
    let g = m
        .declare_function(&"g".to_string(), Linkage::Local, sig())
        .unwrap();
    let code: Vec<u8> = vec![0; 8];
    let relocs = vec![RelocEntry {
        offset: 0,
        reloc: RelocKind::GotPcRel4,
        name: SymRef::User(FuncOrDataId::Func(g)),
        addend: 0,
    }];
    m.define_function(f, &code, &relocs).unwrap();
    let r = m.finalize_all();
    assert!(matches!(r, Err(InjectError::UnexpectedPicRelocation)));
}

#[test]
fn data_with_pointer_relocations() {
    let mut m = InjectionModule::new(SimTracee::new(), SymbolMap::new()).unwrap();
    let f = m
        .declare_function(&"callee".to_string(), Linkage::Local, sig())
        .unwrap();
    m.define_function_bytes(f, &vec![0xc3]).unwrap();
    let d = m
        .declare_data(&"table".to_string(), Linkage::Export, true, false)
        .unwrap();
    let desc = DataDesc {
        init: Init::Zeros { size: 16 },
        align: Some(8),
        function_relocs: vec![(8, f)],
        data_relocs: vec![],
    };
    m.define_data(d, &desc).unwrap();
    m.finalize_all().unwrap();

    let rf = m.lookup_function(f);
    let rd = m.lookup_data_object(d);
    assert_eq!(rd % 8, 0);
    let bytes = m.with_target().read_mem(rd, 16).unwrap();
    assert_eq!(&bytes[0..8], &[0u8; 8]);
    assert_eq!(u64::from_le_bytes(bytes[8..16].try_into().unwrap()), rf);
}
