//! The engine's error taxonomy. Errors bubble to the caller unmodified in
//! kind; the HTTP adapter maps each kind to a status code.

use vstd::prelude::*;

verus! {

#[derive(Clone, Copy, PartialEq, Eq, Structural, Debug)]
pub enum StorageError {
    /// The requested logical path or blob is absent.
    NotFound,
    /// A record on disk (or handed to a codec) does not parse.
    InvalidData,
    /// The caller supplied a malformed request (bad checksum hex, an
    /// unsupported encoding, a malformed size).
    BadRequest,
    /// A listing prefix resolves to a file.
    NotADirectory,
    /// An underlying storage failure not classified above.
    IoError,
}

/// The HTTP status code the adapter answers with for each error kind.
/// Absent paths are reported as not found; bad requests and listing a file
/// are client errors; corrupt records and storage failures are internal.
pub fn http_status(e: &StorageError) -> (r: u16)
    ensures
        r == (match e {
            StorageError::NotFound => 404u16,
            StorageError::BadRequest => 400u16,
            StorageError::NotADirectory => 400u16,
            StorageError::InvalidData => 500u16,
            StorageError::IoError => 500u16,
        }),
{
    match e {
        StorageError::NotFound => 404,
        StorageError::BadRequest => 400,
        StorageError::NotADirectory => 400,
        StorageError::InvalidData => 500,
        StorageError::IoError => 500,
    }
}

} // verus!
