//! Trusted compression of chunk payloads.

use vstd::prelude::*;

verus! {

/// The zstd frame that the fixed compression settings produce for the
/// given bytes: a function of the input alone for this build of the
/// compression library.
pub uninterp spec fn zstd_of(data: Seq<u8>) -> Seq<u8>;

/// Relies on `zstd::stream::encode_all` at the fixed level three: the
/// returned frame is determined by the input bytes. Compressing in-memory
/// bytes at a valid level cannot fail short of resource exhaustion, which
/// aborts like any allocation failure.
#[verifier::external_body]
pub(crate) fn compress_bytes(data: &Vec<u8>) -> (r: Vec<u8>)
    ensures
        r@ == zstd_of(data@),
{
    zstd::stream::encode_all(data.as_slice(), 3).expect("compressing in-memory bytes")
}

/// Relies on `zstd::stream::decode_all`: decompression is lossless, so a
/// frame that `zstd` produced decodes back to exactly the bytes it was
/// made from.
#[verifier::external_body]
pub(crate) fn decompress_bytes(data: &Vec<u8>) -> (r: Result<Vec<u8>, ()>)
    ensures
        forall|d: Seq<u8>| data@ == zstd_of(d) ==> r is Ok && r->Ok_0@ == d,
{
    match zstd::stream::decode_all(data.as_slice()) {
        Ok(v) => Ok(v),
        Err(_) => Err(()),
    }
}

} // verus!
