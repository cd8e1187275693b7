//! The error kinds of the store.

use vstd::prelude::*;

verus! {

/// What can go wrong in the store.
#[derive(Clone, Copy, Debug, PartialEq, Eq, Structural)]
pub enum HummockError {
    /// The object store refused or failed a request.
    ObjectStoreError,
    /// A table is truncated, malformed, or carries the wrong magic.
    InvalidSST,
    /// A stored checksum differs from the checksum of the bytes it covers.
    ChecksumMismatch,
    /// A user key is empty, or a full key is malformed or out of order.
    InvalidKey,
    /// A compaction lost a race: one of its inputs is no longer live.
    VersionConflict,
    /// A stop request arrived in the middle of an operation, or the store
    /// has run out of numbers for its tables or versions.
    Aborted,
}

/// Whether `e` is an error that stored bytes are refused with.
pub open spec fn read_fault(e: HummockError) -> bool {
    e == HummockError::ChecksumMismatch || e == HummockError::InvalidSST || e
        == HummockError::InvalidKey
}

impl HummockError {
    /// A short description of the error.
    pub fn message(&self) -> (r: &'static str)
        ensures
            r@ == Self::spec_message(*self),
    {
        match self {
            HummockError::ObjectStoreError => "object store error",
            HummockError::InvalidSST => "invalid table",
            HummockError::ChecksumMismatch => "checksum mismatch",
            HummockError::InvalidKey => "invalid key",
            HummockError::VersionConflict => "version conflict",
            HummockError::Aborted => "aborted",
        }
    }

    /// The text that `message` returns.
    pub open spec fn spec_message(e: HummockError) -> Seq<char> {
        match e {
            HummockError::ObjectStoreError => "object store error"@,
            HummockError::InvalidSST => "invalid table"@,
            HummockError::ChecksumMismatch => "checksum mismatch"@,
            HummockError::InvalidKey => "invalid key"@,
            HummockError::VersionConflict => "version conflict"@,
            HummockError::Aborted => "aborted"@,
        }
    }
}

} // verus!
