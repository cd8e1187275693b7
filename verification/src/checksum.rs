//! Checksums of stored bytes, under the algorithm that a table names.

use vstd::prelude::*;
use crate::error::HummockError;

verus! {

/// The CRC-32C (Castagnoli) checksum of `data`.
pub uninterp spec fn crc32c_of(data: Seq<u8>) -> u32;

/// The XXH64 hash of `data` under `seed`.
pub uninterp spec fn xxhash64_of(seed: u64, data: Seq<u8>) -> u64;

/// Calls `crc32c::crc32c`. The contract names its result: the function reads
/// nothing but the bytes it is given, and gives the same checksum whether it
/// runs on the processor's CRC instructions or on its tables.
#[verifier::external_body]
pub(crate) fn crc32c_digest(data: &[u8]) -> (r: u32)
    ensures
        r == crc32c_of(data@),
{
    crc32c::crc32c(data)
}

/// Calls `twox_hash::XxHash64::oneshot`. The contract names its result: the
/// hash is computed from the seed and the bytes alone.
#[verifier::external_body]
pub(crate) fn xxhash64_digest(seed: u64, data: &[u8]) -> (r: u64)
    ensures
        r == xxhash64_of(seed, data@),
{
    twox_hash::XxHash64::oneshot(seed, data)
}

/// The checksum algorithms that a table can name.
#[derive(Clone, Copy, Debug, PartialEq, Eq, Structural)]
pub enum ChecksumAlg {
    Crc32c,
    XxHash64,
}

/// The number that stands for an algorithm in a table's footer.
pub open spec fn spec_alg_tag(alg: ChecksumAlg) -> u8 {
    match alg {
        ChecksumAlg::Crc32c => 0,
        ChecksumAlg::XxHash64 => 1,
    }
}

/// The algorithm that a footer's tag stands for.
pub open spec fn spec_alg_of_tag(tag: u8) -> Option<ChecksumAlg> {
    if tag == 0 {
        Some(ChecksumAlg::Crc32c)
    } else if tag == 1 {
        Some(ChecksumAlg::XxHash64)
    } else {
        None
    }
}

/// The checksum of `data` under `alg`, as a 64-bit number: CRC-32C widened,
/// or XXH64 with seed 0.
pub open spec fn checksum_of(alg: ChecksumAlg, data: Seq<u8>) -> u64 {
    match alg {
        ChecksumAlg::Crc32c => crc32c_of(data) as u64,
        ChecksumAlg::XxHash64 => xxhash64_of(0, data),
    }
}

/// The low 32 bits of the checksum of `data` under `alg`.
pub open spec fn checksum32_of(alg: ChecksumAlg, data: Seq<u8>) -> u32 {
    (checksum_of(alg, data) & 0xffff_ffff) as u32
}

impl ChecksumAlg {
    /// The number that stands for the algorithm in a table's footer.
    pub fn tag(&self) -> (r: u8)
        ensures
            r == spec_alg_tag(*self),
            spec_alg_of_tag(r) == Some(*self),
    {
        match self {
            ChecksumAlg::Crc32c => 0,
            ChecksumAlg::XxHash64 => 1,
        }
    }

    /// The algorithm that `tag` stands for, if any.
    pub fn from_tag(tag: u8) -> (r: Option<ChecksumAlg>)
        ensures
            r == spec_alg_of_tag(tag),
    {
        if tag == 0 {
            Some(ChecksumAlg::Crc32c)
        } else if tag == 1 {
            Some(ChecksumAlg::XxHash64)
        } else {
            None
        }
    }
}

/// Computes the checksum of `data` under `alg`.
pub fn checksum(alg: ChecksumAlg, data: &[u8]) -> (r: u64)
    ensures
        r == checksum_of(alg, data@),
{
    match alg {
        ChecksumAlg::Crc32c => crc32c_digest(data) as u64,
        ChecksumAlg::XxHash64 => xxhash64_digest(0, data),
    }
}

/// Computes the low 32 bits of the checksum of `data` under `alg`.
pub fn checksum32(alg: ChecksumAlg, data: &[u8]) -> (r: u32)
    ensures
        r == checksum32_of(alg, data@),
{
    (checksum(alg, data) & 0xffff_ffff) as u32
}

/// Holds `data` against the checksum stored for it.
pub fn verify_checksum(alg: ChecksumAlg, data: &[u8], expected: u64) -> (r: Result<
    (),
    HummockError,
>)
    ensures
        expected == checksum_of(alg, data@) ==> r is Ok,
        expected != checksum_of(alg, data@) ==> r == Err::<(), HummockError>(
            HummockError::ChecksumMismatch,
        ),
{
    if checksum(alg, data) == expected {
        Ok(())
    } else {
        Err(HummockError::ChecksumMismatch)
    }
}

} // verus!
