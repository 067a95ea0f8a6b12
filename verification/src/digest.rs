//! Content hashing. Blobs are keyed by the SHA-256 digest of the
//! decompressed payload; the digest itself is computed by an outside crate
//! and is only named here.

use vstd::prelude::*;

verus! {

/// The SHA-256 digest of a byte sequence. The algorithm is not restated
/// here; the digest is a fixed function of the input bytes alone.
pub uninterp spec fn sha256_of(data: Seq<u8>) -> Seq<u8>;

/// Relies on sha2::Sha256 (through digest's `Digest::digest`): the digest
/// depends on the input bytes alone and is always 32 bytes long.
#[verifier::external_body]
pub(crate) fn sha256(data: &[u8]) -> (r: [u8; 32])
    ensures
        r@ == sha256_of(data@),
{
    <sha2::Sha256 as sha2::Digest>::digest(data).into()
}

} // verus!
