//! Unit tests for the smaller components: id parsing, the bump allocator,
//! the patching engine, the worker facade and the symbol table.

use headcrab_inject::errors::InjectError;
use headcrab_inject::ids::{parse_func_or_data, DataId, FuncId, FuncOrDataId};
use headcrab_inject::memory::{round_up, Memory};
use headcrab_inject::reloc::{perform_relocations, LibCall, RelocEntry, RelocKind, SymRef};
use headcrab_inject::sim::SimTracee;
use headcrab_inject::symbols::{SymbolIndex, SymbolMap, SymbolSource};
use headcrab_inject::tracee::{Prot, TraceeOps};
use headcrab_inject::worker::WorkerThread;

#[test]
fn parse_ids() {
    assert_eq!(
        parse_func_or_data("func3"),
        Some(FuncOrDataId::Func(FuncId(3)))
    );
    assert_eq!(
        parse_func_or_data("data12"),
        Some(FuncOrDataId::Data(DataId(12)))
    );
    assert_eq!(
        parse_func_or_data("func4294967295"),
        Some(FuncOrDataId::Func(FuncId(u32::MAX)))
    );
    assert_eq!(parse_func_or_data("func4294967296"), None);
    assert_eq!(parse_func_or_data("func"), None);
    assert_eq!(parse_func_or_data("funcx"), None);
    assert_eq!(parse_func_or_data("nope5"), None);
    assert_eq!(parse_func_or_data(""), None);
    assert_eq!(parse_func_or_data("data0"), Some(FuncOrDataId::Data(DataId(0))));
}

#[test]
fn libcall_names() {
    assert_eq!(LibCall::Memcpy.name(), "memcpy");
    assert_eq!(LibCall::Memset.name(), "memset");
    assert_eq!(LibCall::Memmove.name(), "memmove");
}

#[test]
fn round_up_alignment() {
    assert_eq!(round_up(0, 16), 0);
    assert_eq!(round_up(1, 16), 16);
    assert_eq!(round_up(16, 16), 16);
    assert_eq!(round_up(17, 8), 24);
    assert_eq!(round_up(5, 1), 5);
}

#[test]
fn allocator_aligns_and_never_overlaps() {
    let mut sim = SimTracee::new();
    let mut code = Memory::new_executable();
    let a = code.allocate(&mut sim, 10, 16).unwrap();
    assert_eq!(a % 16, 0);
    let b = code.allocate(&mut sim, 10, 16).unwrap();
    assert_eq!(b % 16, 0);
    assert!(b >= a + 10);
    let c = code.allocate(&mut sim, 1, 1).unwrap();
    assert!(c >= b + 10);
    // a request bigger than a page maps a fresh region
    let big = code.allocate(&mut sim, 5000, 16).unwrap();
    assert_eq!(big % 16, 0);
    assert!(big + 5000 <= u64::MAX);
    // the fresh region is mapped and zeroed
    assert_eq!(sim.read_mem(big, 8).unwrap(), vec![0u8; 8]);
}

#[test]
fn patching_writes_little_endian_slots() {
    let mut bytes: Vec<u8> = vec![0xaa; 16];
    let relocs = vec![
        RelocEntry {
            offset: 0,
            reloc: RelocKind::Abs8,
            name: SymRef::LibCall(LibCall::Memcpy),
            addend: 1,
        },
        RelocEntry {
            offset: 8,
            reloc: RelocKind::Abs4,
            name: SymRef::LibCall(LibCall::Memcpy),
            addend: 0,
        },
        RelocEntry {
            offset: 12,
            reloc: RelocKind::PCRel4,
            name: SymRef::LibCall(LibCall::Memcpy),
            addend: -4,
        },
    ];
    let targets = vec![0x1122_3344_5566_7788, 0x1_0000_0001, 0x2000];
    perform_relocations(&mut bytes, 0x1000, &relocs, &targets).unwrap();
    // Abs8: target + addend, little-endian
    assert_eq!(
        &bytes[0..8],
        &[0x89, 0x77, 0x66, 0x55, 0x44, 0x33, 0x22, 0x11]
    );
    // Abs4 truncates to the low 32 bits
    assert_eq!(&bytes[8..12], &[0x01, 0x00, 0x00, 0x00]);
    // PCRel4: (target + addend) - (pos + offset) = 0x1ffc - 0x100c = 0xff0
    assert_eq!(&bytes[12..16], &[0xf0, 0x0f, 0x00, 0x00]);
}

#[test]
fn patching_rejects_pic_and_leaves_bytes_alone() {
    let mut bytes: Vec<u8> = vec![0x11, 0x22, 0x33, 0x44];
    let relocs = vec![RelocEntry {
        offset: 0,
        reloc: RelocKind::CallPltRel4,
        name: SymRef::LibCall(LibCall::Memcpy),
        addend: 0,
    }];
    let targets = vec![0x5000];
    let r = perform_relocations(&mut bytes, 0, &relocs, &targets);
    assert!(matches!(r, Err(InjectError::UnexpectedPicRelocation)));
    assert_eq!(bytes, vec![0x11, 0x22, 0x33, 0x44]);
}

#[test]
fn negative_pcrel_displacement() {
    let mut bytes: Vec<u8> = vec![0; 4];
    let relocs = vec![RelocEntry {
        offset: 0,
        reloc: RelocKind::CallPCRel4,
        name: SymRef::LibCall(LibCall::Memcpy),
        addend: 0,
    }];
    // target below the patch site: the stored value is negative
    let targets = vec![0x1000];
    perform_relocations(&mut bytes, 0x2000, &relocs, &targets).unwrap();
    let stored = i32::from_le_bytes(bytes.try_into().unwrap());
    assert_eq!(stored, -0x1000);
}

#[test]
fn worker_runs_tasks_in_order() {
    let (w, greeting) =
        WorkerThread::new(|| Ok::<(u64, &str), ()>((41, "ready"))).unwrap();
    assert_eq!(greeting, "ready");
    let (w, old) = w.spawn(|state: u64| (state + 1, state));
    assert_eq!(old, 41);
    let (_w, now) = w.spawn(|state: u64| (state, state));
    assert_eq!(now, 42);

    let failed: Result<(WorkerThread<u64>, &str), i32> = WorkerThread::new(|| Err(7));
    assert!(matches!(failed, Err(7)));
}

#[test]
fn symbol_map_lookup() {
    let mut map = SymbolMap::new();
    map.insert(&"main".to_string(), 0x401000);
    map.insert(&"helper".to_string(), 0x401100);
    assert_eq!(map.lookup(&"main".to_string()), 0x401000);
    assert_eq!(map.lookup(&"helper".to_string()), 0x401100);
    assert_eq!(map.lookup(&"absent".to_string()), 0);
    // a later insertion shadows an earlier one
    map.insert(&"main".to_string(), 0x402000);
    assert_eq!(map.lookup(&"main".to_string()), 0x402000);
}

#[test]
fn sim_tracee_memory_model() {
    let mut sim = SimTracee::new();
    let base = sim.map_page(4096, Prot::ReadWrite).unwrap();
    assert_eq!(base % 4096, 0);
    // fresh pages read as zeros
    assert_eq!(sim.read_mem(base + 4090, 6).unwrap(), vec![0u8; 6]);
    // writes round-trip
    sim.write_mem(base + 5, &vec![9, 8, 7]).unwrap();
    assert_eq!(sim.read_mem(base + 4, 5).unwrap(), vec![0, 9, 8, 7, 0]);
    // out-of-range writes fail and map nothing
    assert!(matches!(
        sim.write_mem(base + 4094, &vec![1, 2, 3, 4]),
        Err(InjectError::Os(_))
    ));
    // a second mapping is disjoint from the first
    let second = sim.map_page(4096, Prot::Executable).unwrap();
    assert!(second >= base + 4096 || second + 4096 <= base);
}

#[test]
fn symbol_index_queries() {
    let mut idx = SymbolIndex::new();
    // inserted out of order; the index keeps them address-sorted
    idx.insert_symbol(0x3000, &"baz".to_string());
    idx.insert_symbol(0x1000, &"foo".to_string());
    idx.insert_symbol(0x2000, &"bar".to_string());

    assert_eq!(idx.get_symbol_address(&"foo".to_string()), Some(0x1000));
    assert_eq!(idx.get_symbol_address(&"bar".to_string()), Some(0x2000));
    assert_eq!(idx.get_symbol_address(&"missing".to_string()), None);
    assert_eq!(idx.lookup(&"bar".to_string()), 0x2000);
    assert_eq!(idx.lookup(&"missing".to_string()), 0);

    // an address inside a symbol's extent names that symbol
    assert_eq!(idx.get_address_symbol(0x1000), Some("foo".to_string()));
    assert_eq!(idx.get_address_symbol(0x17ff), Some("foo".to_string()));
    assert_eq!(idx.get_address_symbol(0x2000), Some("bar".to_string()));
    // before the first symbol: no owner
    assert_eq!(idx.get_address_symbol(0xfff), None);
    // at or past the last symbol, whose extent is unknown: no owner
    assert_eq!(idx.get_address_symbol(0x3000), None);
    assert_eq!(idx.get_address_symbol(0x9000), None);

    idx.insert_var(&"counter".to_string(), 0x5008);
    assert_eq!(idx.get_var_address(&"counter".to_string()), Some(0x5008));
    assert_eq!(idx.get_var_address(&"other".to_string()), None);
}
