//! Error values produced by the injection core.

use vstd::prelude::*;

verus! {

/// Everything that can go wrong inside the injection core.
///
/// Declaration conflicts, illegal definitions and uninitialized data are
/// recoverable per-call errors; breakpoint errors are recoverable at the
/// operation boundary; `Os` carries the errno of a failed OS primitive.
#[derive(Debug, Clone, PartialEq)]
pub enum InjectError {
    /// A symbol was redeclared with a shape that conflicts with its earlier
    /// declaration.
    DeclarationConflict(String),
    /// An `Import`-linkage symbol was given a definition.
    InvalidImportDefinition(String),
    /// The same id was defined twice.
    DuplicateDefinition(String),
    /// Thread-local data objects are not supported.
    TlsUnsupported(String),
    /// A data object was defined with an `Uninitialized` init descriptor.
    UninitializedData,
    /// A GOT- or PLT-relative relocation was encountered; position-independent
    /// relocations are rejected by the injector.
    UnexpectedPicRelocation,
    /// A relocation kind outside the supported set was encountered.
    UnsupportedRelocation,
    /// A breakpoint was set at an address that already holds one.
    BreakpointAlreadySet,
    /// A breakpoint was removed from an address that holds none.
    BreakpointNotFound,
    /// An OS primitive failed; the payload is its errno.
    Os(i32),
}

} // verus!
