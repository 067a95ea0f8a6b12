//! The per-path metadata record: the binding of a logical path to a blob
//! (by content hash), a version timestamp, and the stored compression.

use vstd::prelude::*;

use crate::timefmt::{VERSION_MILLIS_MAX, VERSION_MILLIS_MIN};

verus! {

/// How the referenced blob's bytes are stored on disk.
#[derive(Clone, Copy, PartialEq, Eq, Structural, Debug)]
pub enum Compression {
    Uncompressed,
    Gzip,
}

/// A version timestamp the engine can represent: UTC milliseconds inside
/// the range of the calendar formatter.
pub open spec fn valid_version(t: i64) -> bool {
    VERSION_MILLIS_MIN <= t <= VERSION_MILLIS_MAX
}

/// The per-path record. `version` is a UTC timestamp in milliseconds,
/// `checksum` the SHA-256 digest of the decompressed payload, and
/// `decompressed_size` its length in bytes.
#[derive(Clone, Copy, Debug)]
pub struct FileMetadata {
    pub version: i64,
    pub checksum: [u8; 32],
    pub compression: Compression,
    pub decompressed_size: usize,
}

impl FileMetadata {
    /// A record the engine can persist: its version is representable.
    pub open spec fn wf(self) -> bool {
        valid_version(self.version)
    }
}

} // verus!
