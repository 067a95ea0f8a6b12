//! Validation of the upload request's headers: the content encoding, the
//! optional supplied checksum (lowercase or uppercase hex), and the
//! optional supplied logical size. Each malformed header is a bad request.

use vstd::prelude::*;

use crate::error::StorageError;
use crate::hex::{hex_byte_at, hex_seq_ok, hex_to_byte_array};
use crate::numfmt::{is_dec_seq, parse_dec_usize, str_dec_val};
use crate::strutil::str_eq;

verus! {

/// The validated upload options a PUT proceeds with.
pub struct PutOptions {
    pub is_gzip: bool,
    pub checksum: Option<[u8; 32]>,
    pub logical_size: Option<usize>,
}

/// Whether the header values are acceptable: a content encoding must be
/// exactly `gzip`, a checksum must be 64 hex digits, a size must be a
/// decimal that fits.
pub open spec fn headers_ok(
    content_encoding: Option<&str>,
    checksum: Option<&str>,
    logical_size: Option<&str>,
) -> bool {
    &&& (content_encoding is Some ==> content_encoding->Some_0@ == "gzip"@)
    &&& (checksum is Some ==> hex_seq_ok(checksum->Some_0@, 32))
    &&& (logical_size is Some ==> is_dec_seq(logical_size->Some_0@)
        && str_dec_val(logical_size->Some_0@) <= usize::MAX)
}

/// Validates the three upload headers, exactly as the adapter must before
/// handing the body to the engine.
pub fn parse_put_headers(
    content_encoding: Option<&str>,
    checksum: Option<&str>,
    logical_size: Option<&str>,
) -> (r: Result<PutOptions, StorageError>)
    ensures
        match r {
            Ok(o) => {
                &&& headers_ok(content_encoding, checksum, logical_size)
                &&& o.is_gzip == (content_encoding is Some)
                &&& (o.checksum is Some <==> checksum is Some)
                &&& (checksum is Some ==> forall|i: int| 0 <= i < 32
                    ==> o.checksum->Some_0@[i] == hex_byte_at(checksum->Some_0@, i))
                &&& (o.logical_size is Some <==> logical_size is Some)
                &&& (logical_size is Some
                    ==> o.logical_size->Some_0 as int == str_dec_val(logical_size->Some_0@))
            },
            Err(e) => e == StorageError::BadRequest
                && !headers_ok(content_encoding, checksum, logical_size),
        },
{
    proof {
        reveal_strlit("gzip");
    }
    let is_gzip = match content_encoding {
        Some(v) => {
            if !str_eq(v, "gzip") {
                return Err(StorageError::BadRequest);
            }
            true
        },
        None => false,
    };
    let ck: Option<[u8; 32]> = match checksum {
        Some(v) => {
            match hex_to_byte_array::<32>(v) {
                Some(bytes) => Some(bytes),
                None => {
                    return Err(StorageError::BadRequest);
                },
            }
        },
        None => None,
    };
    let ls: Option<usize> = match logical_size {
        Some(v) => {
            match parse_dec_usize(v) {
                Some(n) => Some(n),
                None => {
                    return Err(StorageError::BadRequest);
                },
            }
        },
        None => None,
    };
    Ok(PutOptions { is_gzip: is_gzip, checksum: ck, logical_size: ls })
}

} // verus!
