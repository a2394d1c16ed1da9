//! The error kinds a synchronization run can end with. Validation errors are
//! raised before any mutation; I/O errors are wrapped by the caller that
//! performs the filesystem work and abort the run immediately.

use vstd::prelude::*;

verus! {

/// Declares `std::io::Error` as an opaque type so that a run's error can
/// carry the underlying filesystem error. Relied on only as a value passed
/// through unread; no method of it is called from verified code.
#[verifier::external_type_specification]
#[verifier::external_body]
pub struct ExIoError(std::io::Error);

/// Everything that can go wrong in a run. Path payloads hold the path text
/// as bytes, exactly as the caller handed it in.
#[derive(Debug)]
pub enum DirSyncError {
    /// Source and destination resolve to the same directory.
    SameDirectory,
    /// The destination lacks the pairing marker file.
    SyncFileMissing,
    /// The marker file names a different source root.
    SyncPathMismatch,
    /// A required command-line argument was not supplied.
    MissingArgument(String),
    /// A configured root does not exist.
    NonExistentPath(Vec<u8>),
    /// An underlying filesystem operation failed.
    IoError(std::io::Error),
    /// Walked paths that could not be expressed relative to their root,
    /// gathered over the whole walk rather than failing on the first.
    InvalidPaths(Vec<Vec<u8>>),
    /// A destination entry is newer than its source counterpart. Current
    /// policy reports this as a warning and proceeds, so no run returns it;
    /// it is kept for callers that choose the stricter policy.
    DstNewerThanSrc(Vec<u8>),
}

} // verus!
