use vstd::prelude::*;

verus! {

/// The errors that the index reports.
#[derive(Debug, Clone, PartialEq, Eq)]
pub enum ArklibError {
    /// A file-system operation failed; carries the offending path.
    Io(String),
    /// The hasher failed on readable bytes.
    Hash(String),
    /// A hex id was malformed, or persisted data was inconsistent.
    Parse,
    /// A path could not be placed under the root, or is not indexable there.
    Path(String),
    /// A path expected to be present on disk is missing.
    NotFound,
    /// A path expected to be gone from disk is still present.
    StillExists,
    /// A zero-byte file was rejected.
    Empty,
    /// A track operation named a path that the index does not hold.
    NotIndexed,
    /// A path was added that the index already holds.
    AlreadyIndexed,
}

} // verus!
