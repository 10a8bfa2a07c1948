//! The errors that the library reports.
use vstd::prelude::*;

verus! {

/// An error that is not one of the kinds of the container or debug-info
/// formats: a collaborator handed over something that cannot be used.
#[derive(Debug, Clone, PartialEq, Eq)]
pub enum InternalError {
    /// A description of what went wrong.
    Generic(String),
}

/// The kinds of failure of the library's operations.
#[derive(Debug, Clone, PartialEq, Eq)]
pub enum Error {
    /// The input is not a well-formed object of the expected kind.
    MalformedContainer,
    /// There is no code section, or it lacks a size field.
    MissingRequiredSection,
    /// A relocation of another kind than absolute, in this section at this
    /// offset.
    UnsupportedRelocation { section: String, offset: u64 },
    /// A second relocation at a section offset that already has one.
    DuplicateRelocation { section: String, offset: u64 },
    /// A relocation whose symbol index names no symbol.
    UnresolvedSymbol { section: String, offset: u64 },
    /// The debug-info reader could not decode the data.
    DebugInfoParseError,
    /// An address, line or column does not fit its target width.
    IntegerOverflow,
    /// Reading, seeking, truncating or writing a file failed.
    IoError,
    /// See [`InternalError`].
    Internal(InternalError),
}

} // verus!
