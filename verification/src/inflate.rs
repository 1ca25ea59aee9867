//! zlib decompression, done by the flate2 crate.

use vstd::prelude::*;
use std::io::Read;
use flate2::read::ZlibDecoder;

verus! {

/// What reading the zlib stream at the start of `data` to its end yields:
/// the bytes the decoder produced, and whether the stream was complete and
/// sound (`false` for a corrupt or truncated stream, in which case the bytes
/// are those produced before the failure).
pub uninterp spec fn zlib_inflate(data: Seq<u8>) -> (Seq<u8>, bool);

/// Decompresses the zlib stream at the start of `data` with
/// `flate2::read::ZlibDecoder` and `Read::read_to_end` into a fresh vector,
/// returning the bytes appended and whether `read_to_end` returned `Ok`.
///
/// Trusted: the contract claims that both depend on `data` alone, which
/// holds of flate2's decoder (one zlib member, then end of input; an error
/// for a corrupt or truncated stream) reading from a byte slice, and of
/// `read_to_end`, which keeps the bytes read before an error. What the
/// decompressed bytes are is not stated beyond the name.
#[verifier::external_body]
pub(crate) fn inflate_zlib(data: &[u8]) -> (r: (Vec<u8>, bool))
    ensures
        zlib_inflate(data@) == (r.0@, r.1),
{
    let mut out = Vec::new();
    let complete = ZlibDecoder::new(data).read_to_end(&mut out).is_ok();
    (out, complete)
}

} // verus!
