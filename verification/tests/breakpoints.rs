//! Breakpoint lifecycle against the simulated debuggee.

use headcrab_inject::errors::InjectError;
use headcrab_inject::sim::SimTracee;
use headcrab_inject::target::{Breakpoint, TargetState};
use headcrab_inject::tracee::{Prot, Regs, TraceeOps};

fn target_with_code() -> (TargetState<SimTracee, u32>, u64) {
    let mut sim = SimTracee::new();
    let base = sim.map_page(4096, Prot::Executable).unwrap();
    // a recognizable instruction byte at the breakpoint address
    sim.write_mem(base, &vec![0x55, 0x48, 0x89, 0xe5]).unwrap();
    (TargetState::new(sim), base)
}

#[test]
fn set_writes_int3_and_remove_restores() {
    let (mut t, base) = target_with_code();
    t.set_breakpoint(Breakpoint { addr: base, on_trap: 7 }).unwrap();
    // while installed, the byte at the address is int3
    assert_eq!(t.read(base, 1).unwrap(), vec![0xcc]);
    // neighboring bytes are untouched
    assert_eq!(t.read(base + 1, 3).unwrap(), vec![0x48, 0x89, 0xe5]);

    let bp = t.remove_breakpoint(base).unwrap();
    assert_eq!(bp.addr, base);
    assert_eq!(bp.on_trap, 7);
    // after removal, the original byte is back
    assert_eq!(t.read(base, 1).unwrap(), vec![0x55]);
}

#[test]
fn duplicate_breakpoint_is_rejected() {
    let (mut t, base) = target_with_code();
    t.set_breakpoint(Breakpoint { addr: base, on_trap: 1 }).unwrap();
    let again = t.set_breakpoint(Breakpoint { addr: base, on_trap: 2 });
    assert!(matches!(again, Err(InjectError::BreakpointAlreadySet)));
    // the installed breakpoint is still there
    assert_eq!(t.read(base, 1).unwrap(), vec![0xcc]);
}

#[test]
fn removing_a_missing_breakpoint_is_rejected() {
    let (mut t, base) = target_with_code();
    let r = t.remove_breakpoint(base + 2);
    assert!(matches!(r, Err(InjectError::BreakpointNotFound)));
}

#[test]
fn unpause_steps_over_and_reinstalls() {
    let (mut t, base) = target_with_code();
    t.set_breakpoint(Breakpoint { addr: base, on_trap: 9 }).unwrap();
    // the debuggee stops just after the int3: its PC is one past the
    // breakpoint address
    t.write_regs(Regs { rip: base + 1, rsp: 0x9000, rbp: 0, rax: 0 }).unwrap();
    t.unpause().unwrap();
    // the PC was rewound onto the stepped-over instruction
    assert_eq!(t.read_regs().unwrap().rip, base);
    // the breakpoint is still installed
    assert_eq!(t.read(base, 1).unwrap(), vec![0xcc]);
    // and removing it still restores the original instruction byte
    let bp = t.remove_breakpoint(base).unwrap();
    assert_eq!(bp.on_trap, 9);
    assert_eq!(t.read(base, 1).unwrap(), vec![0x55]);
}

#[test]
fn unpause_without_breakpoint_only_continues() {
    let (mut t, base) = target_with_code();
    t.write_regs(Regs { rip: base + 3, rsp: 0, rbp: 0, rax: 0 }).unwrap();
    t.unpause().unwrap();
    assert_eq!(t.read_regs().unwrap().rip, base + 3);
    assert_eq!(t.read(base, 1).unwrap(), vec![0x55]);
    t.next_event().unwrap();
}

#[test]
fn write_then_read_roundtrip() {
    let mut sim = SimTracee::new();
    let base = sim.map_page(4096, Prot::ReadWrite).unwrap();
    let mut t: TargetState<SimTracee, u32> = TargetState::new(sim);
    let payload: Vec<u8> = vec![1, 2, 3, 4, 5, 250, 251, 252];
    t.write(base + 100, &payload).unwrap();
    assert_eq!(t.read(base + 100, 8).unwrap(), payload);
    // a fresh mapping reads back as zeros around the write
    assert_eq!(t.read(base + 98, 2).unwrap(), vec![0, 0]);
}

#[test]
fn reads_outside_mapped_memory_fail() {
    let sim = SimTracee::new();
    let t: TargetState<SimTracee, u32> = TargetState::new(sim);
    let r = t.read(0x4000, 4);
    assert!(matches!(r, Err(InjectError::Os(_))));
}
