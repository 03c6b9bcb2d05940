use vstd::prelude::*;

verus! {

/// Failures of repository operations.
#[derive(Debug, Clone, Copy, PartialEq, Eq, Structural)]
pub enum NyxError {
    /// An object or reference is missing.
    NotFound,
    /// Stored data is not valid text or is not a well-formed record.
    EncodingError,
    /// The underlying file system failed.
    IoError,
}

} // verus!
