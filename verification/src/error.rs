//! The failures that operations of this crate report.

use vstd::prelude::*;

verus! {

/// Error number carried by the failure of a store that has no room left.
pub const NO_SPACE: i32 = 28;

/// A typed failure of a stream primitive or of an engine operation.
#[derive(Clone, Copy, Debug, PartialEq, Eq, Structural)]
pub enum FsError {
    /// An inode or a directory entry is absent.
    NotFound,
    /// A name is already taken and what holds it cannot be replaced.
    AlreadyExists,
    /// The operation needs a directory and was given something else.
    NotADirectory,
    /// The operation cannot be applied to a directory.
    IsADirectory,
    /// An exact-length transfer ran out of data.
    UnexpectedEndOfStream,
    /// The backing stream or store failed; carries the cause's error number as
    /// the driver reported it.
    IoFailure(i32),
    /// A persisted record could not be opened or was malformed.
    Corruption,
    /// An argument is outside of what the operation accepts.
    InvalidArgument,
}

} // verus!
