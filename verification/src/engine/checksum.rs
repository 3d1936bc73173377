//! The checksum that guards every stored record.

use vstd::prelude::*;

verus! {

/// The CRC-32C (Castagnoli) checksum of `data`, as the `crc32c` crate computes it.
pub uninterp spec fn crc_of(data: Seq<u8>) -> u32;

/// `crc32c::crc32c`: the checksum is a function of the bytes alone; [`crc_of`] names it. That it
/// is the Castagnoli polynomial's checksum is not stated here.
#[verifier::external_body]
pub(crate) fn crc(data: &[u8]) -> (r: u32)
    ensures
        r == crc_of(data@),
{
    crc32c::crc32c(data)
}

} // verus!
