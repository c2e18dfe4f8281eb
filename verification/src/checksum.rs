use vstd::prelude::*;

verus! {

/// The CRC-32 (IEEE) checksum of a byte string.
pub uninterp spec fn crc32_of(bytes: Seq<u8>) -> u32;

/// `crc32fast::hash`: the CRC-32 checksum of `bytes`. The contract claims
/// only that the result is a function of the bytes alone.
#[verifier::external_body]
pub(crate) fn crc32(bytes: &[u8]) -> (c: u32)
    ensures
        c == crc32_of(bytes@),
{
    crc32fast::hash(bytes)
}

} // verus!
