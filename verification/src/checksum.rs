//! The block checksum. The CRC-32 itself is computed by an outside crate;
//! the library names its result and reasons with the name alone.

use vstd::prelude::*;

verus! {

/// The IEEE CRC-32 of a byte string: a function of the bytes alone.
pub uninterp spec fn crc32_of(data: Seq<u8>) -> u32;

/// Relies on crc32fast::Hasher (new, update, finalize): the IEEE CRC-32 of
/// the bytes fed to it, a pure function of those bytes.
#[verifier::external_body]
pub(crate) fn crc32(data: &[u8]) -> (r: u32)
    ensures
        r == crc32_of(data@),
{
    let mut hasher = crc32fast::Hasher::new();
    hasher.update(data);
    hasher.finalize()
}

} // verus!
