//! Code-injection core for a Linux x86-64 native debugger.
//!
//! The crate takes compiler-produced machine code and data, allocates memory
//! regions of the right protection class inside a debuggee process, resolves
//! cross-references between the injected objects and pre-existing symbols in
//! the debuggee, applies relocations, and writes the finalized bytes across
//! the process boundary.
//!
//! All reasoning about the debuggee goes through the [`tracee::TraceeOps`]
//! trait, which captures the contract of the OS-level primitives (ptrace,
//! `process_vm_readv`/`process_vm_writev`, remote `mmap`).  A purely in-memory
//! implementation, [`sim::SimTracee`], lives in this crate and is verified
//! against that contract; a real ptrace-backed implementation can be supplied
//! by embedders.

use vstd::prelude::*;

pub mod context;
pub mod decls;
pub mod errors;
pub mod ids;
pub mod memory;
pub mod module;
pub mod reloc;
pub mod sim;
pub mod symbols;
pub mod target;
pub mod tracee;
pub mod worker;

verus! {

/// Default alignment for executable regions.
pub const EXECUTABLE_DATA_ALIGNMENT: u64 = 0x10;

/// Default alignment for writable data regions.
pub const WRITABLE_DATA_ALIGNMENT: u64 = 0x8;

/// Default alignment for read-only data regions.
pub const READONLY_DATA_ALIGNMENT: u64 = 0x1;

} // verus!
