//! zstd compression of byte strings.
use vstd::prelude::*;

verus! {

/// `zstd::encode_all` on `data` at `level`.
pub uninterp spec fn zstd_compressed(data: Seq<u8>, level: i32) -> Seq<u8>;

/// `zstd::decode_all` on `data`.
pub uninterp spec fn zstd_decompressed(data: Seq<u8>) -> Seq<u8>;

/// `zstd::encode_all`: compresses `data` at `level`; its I/O error is
/// returned as its message. The contract names the output, claims that
/// decompressing it gives `data` back (zstd is lossless), and claims nothing
/// of when the call fails.
#[verifier::external_body]
pub(crate) fn zstd_encode(data: &[u8], level: i32) -> (r: std::result::Result<Vec<u8>, String>)
    ensures
        r matches Ok(v) ==> v@ == zstd_compressed(data@, level),
        r matches Ok(v) ==> zstd_decompressed(v@) == data@,
{
    zstd::encode_all(data, level).map_err(|e| e.to_string())
}

/// `zstd::decode_all`: decompresses `data`; its I/O error is returned as its
/// message. The contract names the output and claims nothing of when the
/// call fails.
#[verifier::external_body]
pub(crate) fn zstd_decode(data: &[u8]) -> (r: std::result::Result<Vec<u8>, String>)
    ensures
        r matches Ok(v) ==> v@ == zstd_decompressed(data@),
{
    zstd::decode_all(data).map_err(|e| e.to_string())
}

} // verus!
