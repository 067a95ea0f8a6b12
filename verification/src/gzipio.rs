//! Gzip compression of blob payloads. The engine always persists blobs
//! gzip-compressed; uploads may arrive raw (compressed here) or already
//! compressed (stored verbatim, decoded only to derive size and checksum).

use vstd::prelude::*;

verus! {

/// The gzip encoding of a byte sequence at the engine's fixed compression
/// level. The encoder writes a fixed header (zero timestamp, "unknown"
/// operating system), so the output depends on the input bytes alone.
pub uninterp spec fn gzip_of(data: Seq<u8>) -> Seq<u8>;

/// The decoding of a gzip stream: `None` on a malformed stream.
pub uninterp spec fn gunzip_of(data: Seq<u8>) -> Option<Seq<u8>>;

/// Relies on flate2::read::GzEncoder at level 9: in-memory encoding cannot
/// fail, its default header is fixed (mtime 0, OS byte 255), and decoding
/// the produced stream yields the input back.
#[verifier::external_body]
pub(crate) fn gzip_compress(data: &[u8]) -> (r: Vec<u8>)
    ensures
        r@ == gzip_of(data@),
        gunzip_of(r@) == Some(data@),
{
    let mut enc = flate2::read::GzEncoder::new(
        std::io::Cursor::new(data),
        flate2::Compression::new(9),
    );
    let mut out = Vec::new();
    std::io::Read::read_to_end(&mut enc, &mut out)
        .expect("encoding from memory to memory does not fail");
    out
}

/// Relies on flate2::read::GzDecoder: decoding depends on the input bytes
/// alone; a malformed stream is reported as an error, not a panic.
#[verifier::external_body]
pub(crate) fn gzip_decompress(data: &[u8]) -> (r: Option<Vec<u8>>)
    ensures
        match r {
            Some(out) => gunzip_of(data@) == Some(out@),
            None => gunzip_of(data@) is None,
        },
{
    let mut dec = flate2::read::GzDecoder::new(std::io::Cursor::new(data));
    let mut out = Vec::new();
    match std::io::Read::read_to_end(&mut dec, &mut out) {
        Ok(_) => Some(out),
        Err(_) => None,
    }
}

} // verus!
