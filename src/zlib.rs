use std::io::{Read, Write};

use vstd::prelude::*;

verus! {

/// The zlib stream flate2 produces for `data` at compression `level`.
pub uninterp spec fn zlib_deflate(data: Seq<u8>, level: u32) -> Seq<u8>;

/// The bytes a zlib stream inflates to, or `None` for a broken stream.
pub uninterp spec fn zlib_inflate(data: Seq<u8>) -> Option<Seq<u8>>;

/// Relies on `flate2::write::ZlibEncoder` with `flate2::Compression::new`:
/// it writes a zlib stream of `data`, and zlib is lossless, so the stream
/// inflates back to `data`. Writing into memory does not fail. Levels are
/// limited to 0 to 9, the range the format uses; the backend asserts a
/// level of at most 10.
#[verifier::external_body]
pub(crate) fn zlib_compress(data: &[u8], level: u32) -> (r: Vec<u8>)
    requires
        level <= 9,
    ensures
        r@ == zlib_deflate(data@, level),
        zlib_inflate(r@) == Some(data@),
{
    let mut encoder = flate2::write::ZlibEncoder::new(Vec::new(), flate2::Compression::new(level));
    match encoder.write_all(data) {
        Ok(()) => {},
        Err(_) => {},
    }
    match encoder.finish() {
        Ok(out) => out,
        Err(_) => Vec::new(),
    }
}

/// Relies on `flate2::bufread::ZlibDecoder` read to its end: the inflated
/// bytes of a well-formed zlib stream, an error otherwise.
#[verifier::external_body]
pub(crate) fn zlib_decompress(data: &[u8]) -> (r: Option<Vec<u8>>)
    ensures
        match r {
            Some(v) => zlib_inflate(data@) == Some(v@),
            None => zlib_inflate(data@) is None,
        },
{
    let mut out = Vec::new();
    match flate2::bufread::ZlibDecoder::new(data).read_to_end(&mut out) {
        Ok(_) => Some(out),
        Err(_) => None,
    }
}

} // verus!
