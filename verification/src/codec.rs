//! The outside computations that object storage relies on: SHA-256
//! digests (`sha2`) and zlib compression (`flate2`).
use vstd::prelude::*;
use std::io::Read;
use std::io::Write;

verus! {

/// The SHA-256 digest of a byte sequence.
pub uninterp spec fn sha256_of(data: Seq<u8>) -> Seq<u8>;

/// The SHA-256 digest of `data`.
///
/// Trusted: calls `sha2::Sha256::digest`.  The digest is named by
/// `sha256_of`; its length, 32 bytes, is fixed by the output type of the
/// `sha2` crate's `Sha256`.
#[verifier::external_body]
pub(crate) fn sha256(data: &[u8]) -> (d: Vec<u8>)
    ensures
        d@ == sha256_of(data@),
        d@.len() == 32,
{
    <sha2::Sha256 as sha2::Digest>::digest(data).to_vec()
}

/// The zlib stream that `flate2` writes for `data` at the default
/// compression level.
pub uninterp spec fn zlib_deflate(data: Seq<u8>) -> Seq<u8>;

/// What reading a zlib stream with `flate2` gives: the decompressed bytes, or
/// `None` when the stream is malformed.
pub uninterp spec fn zlib_inflate(data: Seq<u8>) -> Option<Seq<u8>>;

/// Compresses `data` into a zlib stream.
///
/// Trusted: writes `data` through a `flate2::write::ZlibEncoder` with
/// `Compression::default()` into a vector and finishes the stream.  The
/// stream is named by `zlib_deflate`.  The encoder reports errors only from
/// the writer underneath, a `Vec<u8>` whose writes do not fail, and from the
/// compressor, which fails only on a misused stream; so the result is
/// always `Some`.  The last part of the clause is the purpose of the format
/// as `flate2` documents it: reading the stream back gives the bytes that
/// were written.
#[verifier::external_body]
pub(crate) fn deflate(data: &[u8]) -> (r: Option<Vec<u8>>)
    ensures
        r is Some,
        r matches Some(c) ==> c@ == zlib_deflate(data@) && zlib_inflate(c@) == Some(data@),
{
    let mut enc = flate2::write::ZlibEncoder::new(Vec::new(), flate2::Compression::default());
    match enc.write_all(data) {
        Ok(()) => enc.finish().ok(),
        Err(_) => None,
    }
}

/// Decompresses a zlib stream.
///
/// Trusted: reads `data` to its end through a `flate2::read::ZlibDecoder`.
/// The result is named by `zlib_inflate`.
#[verifier::external_body]
pub(crate) fn inflate(data: &[u8]) -> (r: Option<Vec<u8>>)
    ensures
        r is Some <==> zlib_inflate(data@) is Some,
        r matches Some(v) ==> zlib_inflate(data@) == Some(v@),
{
    let mut dec = flate2::read::ZlibDecoder::new(data);
    let mut out = Vec::new();
    match dec.read_to_end(&mut out) {
        Ok(_) => Some(out),
        Err(_) => None,
    }
}

} // verus!
