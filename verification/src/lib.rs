//! A verified content-addressed file-tracking engine.
//!
//! Clients store versioned files under logical paths. Payloads are
//! deduplicated by SHA-256 content hash in a reference-counted blob pool,
//! compressed with gzip, and served back on demand. The engine is the
//! in-memory core: the blob pool, the path-to-metadata overlay, the
//! version-conditional put/delete semantics, and the codecs (hex, the
//! metadata record, listing output). Filesystem persistence and the HTTP
//! surface are thin adapters around this library.

pub mod digest;
pub mod error;
pub mod gzipio;
pub mod blobstorage;
pub mod headers;
pub mod hex;
pub mod laws;
pub mod listfmt;
pub mod meta;
pub mod metacodec;
pub mod numfmt;
pub mod storage;
pub mod strutil;
pub mod timefmt;
