//! bzip2 compression of data blocks.

use std::io::Read;
use vstd::prelude::*;

verus! {

/// The bytes that bzip2 at its best compression level makes of `data`.
pub uninterp spec fn bzip2_compressed(data: Seq<u8>) -> Seq<u8>;

/// What a single-stream bzip2 decoder reads from `data`: `None` when it fails.
pub uninterp spec fn bzip2_decompressed(data: Seq<u8>) -> Option<Seq<u8>>;

/// Calls `bzip2::read::BzEncoder::new(data, Compression::best())` and reads
/// the compressed stream to its end.  Claimed: the result is the bytes named
/// [`bzip2_compressed`] of `data`, and decoding them gives `data` back (the
/// crate's documented round trip).  It is never `None`: the encoder reads from
/// an in-memory slice, whose reads cannot fail, and its `read` unwraps the
/// compressor's status instead of returning an error, so `read_to_end`
/// returns no error.
#[verifier::external_body]
pub(crate) fn bzip2_compress(data: &[u8]) -> (r: Option<Vec<u8>>)
    ensures
        r is Some,
        r matches Some(c) ==> c@ == bzip2_compressed(data@) && bzip2_decompressed(c@) == Some(
            data@,
        ),
{
    let mut out: Vec<u8> = Vec::new();
    match bzip2::read::BzEncoder::new(data, bzip2::Compression::best()).read_to_end(&mut out) {
        Ok(_) => Some(out),
        Err(_) => None,
    }
}

/// Calls `bzip2::bufread::BzDecoder::new(data)` and reads the decompressed
/// stream to its end.  Claimed: the result is what [`bzip2_decompressed`]
/// names for `data`, `None` when the decoder reports an error.
#[verifier::external_body]
pub(crate) fn bzip2_decompress(data: &[u8]) -> (r: Option<Vec<u8>>)
    ensures
        match r {
            Some(d) => bzip2_decompressed(data@) == Some(d@),
            None => bzip2_decompressed(data@) is None,
        },
{
    let mut out: Vec<u8> = Vec::new();
    match bzip2::bufread::BzDecoder::new(data).read_to_end(&mut out) {
        Ok(_) => Some(out),
        Err(_) => None,
    }
}

} // verus!
