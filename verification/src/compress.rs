//! Decompression through `flate2`: gzip, zlib and raw deflate streams held
//! in memory.
use vstd::prelude::*;
use std::io::Read;

verus! {

/// What `flate2::read::GzDecoder` reads to the end of a gzip stream: the
/// decompressed bytes, or the text of the error that stopped it.
pub uninterp spec fn gunzip_result(d: Seq<u8>) -> Result<Seq<u8>, Seq<char>>;

/// What `flate2::read::ZlibDecoder` reads to the end of a zlib stream.
pub uninterp spec fn zlib_result(d: Seq<u8>) -> Result<Seq<u8>, Seq<char>>;

/// What `flate2::read::DeflateDecoder` reads to the end of a raw deflate
/// stream.
pub uninterp spec fn inflate_result(d: Seq<u8>) -> Result<Seq<u8>, Seq<char>>;

/// The views of a decoder's result.
pub open spec fn result_view(r: Result<Vec<u8>, String>) -> Result<Seq<u8>, Seq<char>> {
    match r {
        Ok(v) => Ok(v@),
        Err(s) => Err(s@),
    }
}

/// `flate2::read::GzDecoder` read to the end: the decompressed bytes, or
/// the error's text. A function of the input bytes alone.
#[verifier::external_body]
pub(crate) fn gunzip(data: &[u8]) -> (r: Result<Vec<u8>, String>)
    ensures
        result_view(r) == gunzip_result(data@),
{
    let mut buf = Vec::new();
    match flate2::read::GzDecoder::new(std::io::Cursor::new(data)).read_to_end(&mut buf) {
        Ok(_) => Ok(buf),
        Err(e) => Err(e.to_string()),
    }
}

/// `flate2::read::ZlibDecoder` read to the end: the decompressed bytes, or
/// the error's text. A function of the input bytes alone.
#[verifier::external_body]
pub(crate) fn zlib_inflate(data: &[u8]) -> (r: Result<Vec<u8>, String>)
    ensures
        result_view(r) == zlib_result(data@),
{
    let mut buf = Vec::new();
    match flate2::read::ZlibDecoder::new(std::io::Cursor::new(data)).read_to_end(&mut buf) {
        Ok(_) => Ok(buf),
        Err(e) => Err(e.to_string()),
    }
}

/// `flate2::read::DeflateDecoder` read to the end: the decompressed bytes,
/// or the error's text. A function of the input bytes alone.
#[verifier::external_body]
pub(crate) fn raw_inflate(data: &[u8]) -> (r: Result<Vec<u8>, String>)
    ensures
        result_view(r) == inflate_result(data@),
{
    let mut buf = Vec::new();
    match flate2::read::DeflateDecoder::new(std::io::Cursor::new(data)).read_to_end(&mut buf) {
        Ok(_) => Ok(buf),
        Err(e) => Err(e.to_string()),
    }
}

/// The file name in a gzip header, as `flate2::read::GzDecoder` reads it.
pub uninterp spec fn gz_header_name(d: Seq<u8>) -> Option<Seq<u8>>;

/// `GzDecoder::header().filename()`: the name stored in the gzip header,
/// if the header is valid and has one. A function of the input bytes.
#[verifier::external_body]
pub(crate) fn gz_filename_bytes(data: &[u8]) -> (r: Option<Vec<u8>>)
    ensures
        match (r, gz_header_name(data@)) {
            (Some(v), Some(w)) => v@ == w,
            (None, None) => true,
            _ => false,
        },
{
    let decoder = flate2::read::GzDecoder::new(std::io::Cursor::new(data));
    decoder.header().and_then(|h| h.filename()).map(|n| n.to_vec())
}

} // verus!
