//! The zlib stream that wraps every stored object.

use vstd::prelude::*;

verus! {

/// What the decompressor yields for the zlib stream at the start of `data`,
/// or `None` where that stream is malformed or incomplete.
pub uninterp spec fn zlib_decompressed(data: Seq<u8>) -> Option<Seq<u8>>;

/// Relies on `flate2::write::ZlibEncoder` over a `Vec<u8>` at
/// `Compression::default()`: `write_all` then `finish` give a complete zlib
/// stream of `data`, which the decoder below turns back into `data` (the
/// lossless round trip that the crate's own `roundtrip` tests check). The
/// exact compressed bytes are left open. Neither call fails here: writing
/// into a `Vec` never errors, and the compressor reports an error only when
/// it is driven again after finishing, which the encoder never does.
#[verifier::external_body]
pub(crate) fn zlib_compress(data: &[u8]) -> (r: Option<Vec<u8>>)
    ensures
        r is Some,
        r matches Some(v) ==> zlib_decompressed(v@) == Some(data@),
{
    let mut encoder = flate2::write::ZlibEncoder::new(Vec::new(), flate2::Compression::default());
    std::io::Write::write_all(&mut encoder, data).ok()?;
    encoder.finish().ok()
}

/// Relies on `flate2::read::ZlibDecoder` over a byte slice: `read_to_end`
/// yields the decompressed bytes, or an error for a corrupt or truncated
/// stream, which is passed on as `None`.
#[verifier::external_body]
pub(crate) fn zlib_decompress(data: &[u8]) -> (r: Option<Vec<u8>>)
    ensures
        r matches Some(v) ==> zlib_decompressed(data@) == Some(v@),
        r is None ==> zlib_decompressed(data@) is None,
{
    let mut out = Vec::new();
    std::io::Read::read_to_end(&mut flate2::read::ZlibDecoder::new(data), &mut out).ok()?;
    Some(out)
}

} // verus!
