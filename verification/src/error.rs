//! The error kinds shared by every layer.

use vstd::prelude::*;

verus! {

/// Why an operation was refused.
#[derive(Clone, Copy, Debug, PartialEq, Eq, Structural)]
pub enum StorageError {
    /// The caller broke a precondition: wrong buffer length, block 0 misuse,
    /// an unusable configuration.
    InvalidInput,
    /// A block number at or beyond the file's block count.
    OutOfRange,
    /// A tombstoned or missing slot.
    NotFound,
    /// Creation over something that is already there.
    AlreadyExists,
    /// A page, or the file, cannot take what was to be added.
    NoSpace,
    /// Every frame of the pool is pinned.
    NoVictim,
    /// Stored bytes failed structural validation.
    Corrupt,
    /// An error of the underlying file system.
    Io,
}

} // verus!
