//! The storage coordinator: a path-to-metadata overlay over the
//! reference-counted blob pool, with version-conditional put and delete.
//!
//! The engine's central invariant ties the two layers together: every
//! metadata record references an existing blob, and every blob's refcount
//! equals the number of metadata records whose checksum is its hash.

use vstd::prelude::*;

use crate::blobstorage::{blob_map, distinct_hashes, BlobStorage, BlobView};
use crate::digest::{sha256, sha256_of};
use crate::error::StorageError;
use crate::gzipio::{gunzip_of, gzip_compress, gzip_decompress, gzip_of};
use crate::meta::{valid_version, Compression, FileMetadata};
use crate::strutil::{str_eq, under_prefix};

verus! {

use vstd::slice::slice_to_vec;
use vstd::string::StringExecFns;

/// One record of the overlay: a logical path bound to its metadata.
pub struct MetaEntry {
    pub path: String,
    pub meta: FileMetadata,
}

/// The map denoted by a sequence of overlay records: path to metadata.
pub open spec fn meta_map(s: Seq<MetaEntry>) -> Map<Seq<char>, FileMetadata>
    decreases s.len(),
{
    if s.len() == 0 {
        Map::empty()
    } else {
        meta_map(s.drop_last()).insert(s.last().path@, s.last().meta)
    }
}

/// No two overlay records share a path.
pub open spec fn distinct_paths(s: Seq<MetaEntry>) -> bool {
    forall|i: int, j: int| 0 <= i < j < s.len() ==> (#[trigger] s[i]).path@ != (#[trigger] s[j]).path@
}

/// How many overlay records reference the blob with hash `h`.
pub open spec fn count_refs(s: Seq<MetaEntry>, h: Seq<u8>) -> nat
    decreases s.len(),
{
    if s.len() == 0 {
        0
    } else {
        count_refs(s.drop_last(), h) + (if s.last().meta.checksum@ == h { 1nat } else { 0nat })
    }
}

pub broadcast proof fn lemma_meta_map_contains(s: Seq<MetaEntry>, p: Seq<char>)
    ensures
        #[trigger] meta_map(s).contains_key(p) <==> exists|i: int| 0 <= i < s.len() && (#[trigger] s[i]).path@ == p,
    decreases s.len(),
{
    if s.len() > 0 {
        lemma_meta_map_contains(s.drop_last(), p);
        if meta_map(s).contains_key(p) {
            if s.last().path@ == p {
                assert(s[s.len() - 1].path@ == p);
            } else {
                let i = choose|i: int| 0 <= i < s.drop_last().len() && (#[trigger] s.drop_last()[i]).path@ == p;
                assert(s[i].path@ == p);
            }
        }
        if exists|i: int| 0 <= i < s.len() && (#[trigger] s[i]).path@ == p {
            let i = choose|i: int| 0 <= i < s.len() && (#[trigger] s[i]).path@ == p;
            if i < s.len() - 1 {
                assert(s.drop_last()[i].path@ == p);
            }
        }
    }
}

pub proof fn lemma_meta_map_index(s: Seq<MetaEntry>, i: int)
    requires
        distinct_paths(s),
        0 <= i < s.len(),
    ensures
        meta_map(s).contains_key(s[i].path@),
        meta_map(s)[s[i].path@] == s[i].meta,
    decreases s.len(),
{
    broadcast use lemma_meta_map_contains;

    if i == s.len() - 1 {
    } else {
        lemma_meta_map_index(s.drop_last(), i);
        assert(s.drop_last()[i] == s[i]);
        assert(s.last().path@ != s[i].path@);
    }
}

pub proof fn lemma_meta_map_update(s: Seq<MetaEntry>, i: int, e: MetaEntry)
    requires
        distinct_paths(s),
        0 <= i < s.len(),
        e.path@ == s[i].path@,
    ensures
        distinct_paths(s.update(i, e)),
        meta_map(s.update(i, e)) =~= meta_map(s).insert(e.path@, e.meta),
    decreases s.len(),
{
    broadcast use lemma_meta_map_contains;

    if i == s.len() - 1 {
        assert(s.update(i, e).drop_last() =~= s.drop_last());
    } else {
        lemma_meta_map_update(s.drop_last(), i, e);
        assert(s.update(i, e).drop_last() =~= s.drop_last().update(i, e));
        assert(s.update(i, e).last() == s.last());
        assert(s.last().path@ != e.path@);
    }
}

pub proof fn lemma_meta_map_remove(s: Seq<MetaEntry>, i: int)
    requires
        distinct_paths(s),
        0 <= i < s.len(),
    ensures
        distinct_paths(s.remove(i)),
        meta_map(s.remove(i)) =~= meta_map(s).remove(s[i].path@),
    decreases s.len(),
{
    broadcast use lemma_meta_map_contains;

    if i == s.len() - 1 {
        assert(s.remove(i) =~= s.drop_last());
        assert(!meta_map(s.drop_last()).contains_key(s[i].path@));
        assert(meta_map(s.drop_last()).remove(s[i].path@) =~= meta_map(s.drop_last()));
    } else {
        lemma_meta_map_remove(s.drop_last(), i);
        assert(s.remove(i).drop_last() =~= s.drop_last().remove(i));
        assert(s.remove(i).last() == s.last());
    }
}

pub proof fn lemma_meta_map_push(s: Seq<MetaEntry>, e: MetaEntry)
    requires
        distinct_paths(s),
        !meta_map(s).contains_key(e.path@),
    ensures
        distinct_paths(s.push(e)),
        meta_map(s.push(e)) == meta_map(s).insert(e.path@, e.meta),
    decreases s.len(),
{
    broadcast use lemma_meta_map_contains;

    assert(s.push(e).drop_last() =~= s);
    assert(forall|i: int| 0 <= i < s.len() ==> (#[trigger] s.push(e)[i]) == s[i]);
}

/// A hash is referenced at least once exactly when some record carries it.
pub proof fn lemma_count_refs_pos(s: Seq<MetaEntry>, h: Seq<u8>)
    ensures
        count_refs(s, h) >= 1 <==> exists|i: int| 0 <= i < s.len() && (#[trigger] s[i]).meta.checksum@ == h,
    decreases s.len(),
{
    if s.len() > 0 {
        lemma_count_refs_pos(s.drop_last(), h);
        if count_refs(s, h) >= 1 {
            if s.last().meta.checksum@ == h {
                assert(s[s.len() - 1].meta.checksum@ == h);
            } else {
                let i = choose|i: int| 0 <= i < s.drop_last().len() && (#[trigger] s.drop_last()[i]).meta.checksum@ == h;
                assert(s[i].meta.checksum@ == h);
            }
        }
        if exists|i: int| 0 <= i < s.len() && (#[trigger] s[i]).meta.checksum@ == h {
            let i = choose|i: int| 0 <= i < s.len() && (#[trigger] s[i]).meta.checksum@ == h;
            if i < s.len() - 1 {
                assert(s.drop_last()[i].meta.checksum@ == h);
            }
        }
    }
}

pub proof fn lemma_count_refs_le_len(s: Seq<MetaEntry>, h: Seq<u8>)
    ensures
        count_refs(s, h) <= s.len(),
    decreases s.len(),
{
    if s.len() > 0 {
        lemma_count_refs_le_len(s.drop_last(), h);
    }
}

pub proof fn lemma_count_refs_push(s: Seq<MetaEntry>, e: MetaEntry, h: Seq<u8>)
    ensures
        count_refs(s.push(e), h) == count_refs(s, h) + (if e.meta.checksum@ == h { 1nat } else { 0nat }),
{
    assert(s.push(e).drop_last() =~= s);
}

pub proof fn lemma_count_refs_update(s: Seq<MetaEntry>, i: int, e: MetaEntry, h: Seq<u8>)
    requires
        0 <= i < s.len(),
    ensures
        count_refs(s.update(i, e), h) == count_refs(s, h)
            - (if s[i].meta.checksum@ == h { 1nat } else { 0nat })
            + (if e.meta.checksum@ == h { 1nat } else { 0nat }),
    decreases s.len(),
{
    if i == s.len() - 1 {
        assert(s.update(i, e).drop_last() =~= s.drop_last());
        assert(s.update(i, e).last() == e);
        assert(s.last() == s[i]);
    } else {
        lemma_count_refs_update(s.drop_last(), i, e, h);
        assert(s.update(i, e).drop_last() =~= s.drop_last().update(i, e));
        assert(s.update(i, e).last() == s.last());
        assert(s.drop_last()[i] == s[i]);
    }
}

pub proof fn lemma_count_refs_remove(s: Seq<MetaEntry>, i: int, h: Seq<u8>)
    requires
        0 <= i < s.len(),
    ensures
        count_refs(s.remove(i), h) == count_refs(s, h)
            - (if s[i].meta.checksum@ == h { 1nat } else { 0nat }),
    decreases s.len(),
{
    if i == s.len() - 1 {
        assert(s.remove(i) =~= s.drop_last());
        assert(s.last() == s[i]);
    } else {
        lemma_count_refs_remove(s.drop_last(), i, h);
        assert(s.remove(i).drop_last() =~= s.drop_last().remove(i));
        assert(s.remove(i).last() == s.last());
        assert(s.drop_last()[i] == s[i]);
    }
}

/// The storage engine: the blob pool plus the per-path metadata overlay.
pub struct LocalStorage {
    blobs: BlobStorage,
    metadata: Vec<MetaEntry>,
}

impl LocalStorage {
    /// The overlay's records, for invariants over the representation.
    pub closed spec fn metas(&self) -> Seq<MetaEntry> {
        self.metadata@
    }

    /// The blob pool's slots.
    pub closed spec fn blob_slots(&self) -> Seq<crate::blobstorage::BlobEntry> {
        self.blobs.slots()
    }

    /// The abstract blob pool: hash to stored bytes and refcount.
    pub open spec fn blob_view(&self) -> Map<Seq<u8>, BlobView> {
        blob_map(self.blob_slots())
    }

    /// The blob pool is well formed.
    pub closed spec fn blobs_inv(&self) -> bool {
        self.blobs.inv()
    }

    /// The abstract overlay: logical path to metadata record.
    pub open spec fn meta_view(&self) -> Map<Seq<char>, FileMetadata> {
        meta_map(self.metas())
    }

    /// The engine's invariant:
    /// - the blob pool is well formed and the overlay's paths are distinct;
    /// - every blob's refcount equals the number of records referencing it
    ///   (so a blob exists exactly while it is referenced);
    /// - every record references an existing blob and is representable.
    pub open spec fn wf(&self) -> bool {
        &&& self.blobs_inv()
        &&& distinct_paths(self.metas())
        &&& forall|i: int| 0 <= i < self.blob_slots().len()
            ==> (#[trigger] self.blob_slots()[i]).refcount == count_refs(self.metas(), self.blob_slots()[i].hash@)
        &&& forall|k: int| 0 <= k < self.metas().len()
            ==> self.blob_view().contains_key((#[trigger] self.metas()[k]).meta.checksum@)
        &&& forall|k: int| 0 <= k < self.metas().len() ==> (#[trigger] self.metas()[k]).meta.wf()
    }

    /// Creates an empty engine.
    pub fn new() -> (r: Self)
        ensures
            r.wf(),
            r.meta_view() == Map::<Seq<char>, FileMetadata>::empty(),
            r.blob_view() == Map::<Seq<u8>, BlobView>::empty(),
            r.metas() =~= Seq::<MetaEntry>::empty(),
    {
        LocalStorage { blobs: BlobStorage::create(), metadata: Vec::new() }
    }

    fn meta_find(&self, path: &str) -> (r: Option<usize>)
        requires
            distinct_paths(self.metas()),
        ensures
            match r {
                Some(i) => i < self.metas().len() && self.metas()[i as int].path@ == path@
                    && self.meta_view().contains_key(path@)
                    && self.meta_view()[path@] == self.metas()[i as int].meta,
                None => !self.meta_view().contains_key(path@),
            },
    {
        let n = self.metadata.len();
        let mut i: usize = 0;
        while i < n
            invariant
                n == self.metas().len(),
                i <= n,
                distinct_paths(self.metas()),
                forall|k: int| 0 <= k < i ==> (#[trigger] self.metas()[k]).path@ != path@,
            decreases n - i,
        {
            if str_eq(self.metadata[i].path.as_str(), path) {
                proof {
                    lemma_meta_map_index(self.metas(), i as int);
                }
                return Some(i);
            }
            i = i + 1;
        }
        proof {
            lemma_meta_map_contains(self.metas(), path@);
        }
        None
    }

    /// How many paths currently have a record.
    pub fn path_count(&self) -> (r: usize)
        ensures
            r == self.metas().len(),
    {
        self.metadata.len()
    }

    /// The current refcount of a blob, or `None` when the hash is absent.
    pub fn blob_refcount(&self, sha256: &[u8; 32]) -> (r: Option<usize>)
        requires
            self.wf(),
        ensures
            match r {
                Some(n) => self.blob_view().contains_key(sha256@)
                    && n as nat == self.blob_view()[sha256@].refcount,
                None => !self.blob_view().contains_key(sha256@),
            },
    {
        self.blobs.refcount(sha256)
    }

    /// Looks a path's record up, as the engine's read of one metadata file.
    pub fn read_meta_for(&self, path: &str) -> (r: Result<FileMetadata, StorageError>)
        requires
            self.wf(),
        ensures
            match r {
                Ok(m) => self.meta_view().contains_key(path@) && m == self.meta_view()[path@],
                Err(e) => !self.meta_view().contains_key(path@) && e == StorageError::NotFound,
            },
    {
        match self.meta_find(path) {
            Some(i) => Ok(self.metadata[i].meta),
            None => Err(StorageError::NotFound),
        }
    }

    /// Serves a download: the path's record and the stored (compressed)
    /// blob bytes. Fails with not-found exactly when the path is absent.
    pub fn get(&self, path: &str) -> (r: Result<(FileMetadata, Vec<u8>), StorageError>)
        requires
            self.wf(),
        ensures
            match r {
                Ok((m, bytes)) => {
                    &&& self.meta_view().contains_key(path@)
                    &&& m == self.meta_view()[path@]
                    &&& self.blob_view().contains_key(m.checksum@)
                    &&& bytes@ == self.blob_view()[m.checksum@].bytes
                },
                Err(e) => !self.meta_view().contains_key(path@) && e == StorageError::NotFound,
            },
    {
        match self.meta_find(path) {
            Some(i) => {
                let m = self.metadata[i].meta;
                proof {
                    assert(self.metas()[i as int].meta.checksum@ == m.checksum@);
                }
                let bytes = match self.blobs.read(&m.checksum) {
                    Ok(b) => b,
                    Err(_) => {
                        proof {
                            assert(false);
                        }
                        Vec::new()
                    },
                };
                Ok((m, bytes))
            },
            None => Err(StorageError::NotFound),
        }
    }

    /// Serves a metadata probe: the path's record and the stored byte count
    /// of its blob (the transmitted body length).
    pub fn head(&self, path: &str) -> (r: Result<(FileMetadata, usize), StorageError>)
        requires
            self.wf(),
        ensures
            match r {
                Ok((m, n)) => {
                    &&& self.meta_view().contains_key(path@)
                    &&& m == self.meta_view()[path@]
                    &&& self.blob_view().contains_key(m.checksum@)
                    &&& n == self.blob_view()[m.checksum@].bytes.len()
                },
                Err(e) => !self.meta_view().contains_key(path@) && e == StorageError::NotFound,
            },
    {
        match self.meta_find(path) {
            Some(i) => {
                let m = self.metadata[i].meta;
                let n = match self.blobs.metadata(&m.checksum) {
                    Ok(n) => n,
                    Err(_) => {
                        proof {
                            assert(false);
                        }
                        0
                    },
                };
                Ok((m, n))
            },
            None => Err(StorageError::NotFound),
        }
    }
}

/// The abstract content of one metadata record, with the checksum as a
/// byte sequence.
pub struct MetaAbs {
    pub version: i64,
    pub checksum: Seq<u8>,
    pub compression: Compression,
    pub decompressed_size: int,
}

pub open spec fn abs_meta(m: FileMetadata) -> MetaAbs {
    MetaAbs {
        version: m.version,
        checksum: m.checksum@,
        compression: m.compression,
        decompressed_size: m.decompressed_size as int,
    }
}

pub open spec fn abs_map(mm: Map<Seq<char>, FileMetadata>) -> Map<Seq<char>, MetaAbs> {
    mm.map_values(|m: FileMetadata| abs_meta(m))
}

/// The whole engine state, abstractly: overlay and blob pool.
pub struct EngineState {
    pub meta: Map<Seq<char>, MetaAbs>,
    pub blobs: Map<Seq<u8>, BlobView>,
}

/// Releasing one reference: the last reference removes the blob.
pub open spec fn decref_effect(b: Map<Seq<u8>, BlobView>, h: Seq<u8>) -> Map<Seq<u8>, BlobView> {
    if b[h].refcount == 1 {
        b.remove(h)
    } else {
        b.insert(h, BlobView { bytes: b[h].bytes, refcount: (b[h].refcount - 1) as nat })
    }
}

/// Ingesting one reference: a new hash stores the bytes with refcount 1, a
/// known hash keeps its bytes and gains a reference.
pub open spec fn incref_effect(b: Map<Seq<u8>, BlobView>, h: Seq<u8>, bytes: Seq<u8>) -> Map<Seq<u8>, BlobView> {
    if b.contains_key(h) {
        b.insert(h, BlobView { bytes: b[h].bytes, refcount: b[h].refcount + 1 })
    } else {
        b.insert(h, BlobView { bytes: bytes, refcount: 1nat })
    }
}

/// The state transition of a put, after input normalization: a strictly
/// newer existing version drops the write; otherwise the old reference (if
/// any) is released, the stored bytes are ingested under the new checksum,
/// and the record is replaced.
pub open spec fn spec_put(
    s: EngineState,
    path: Seq<char>,
    version: i64,
    ck: Seq<u8>,
    stored: Seq<u8>,
    ds: int,
) -> EngineState {
    if s.meta.contains_key(path) && s.meta[path].version > version {
        s
    } else {
        let b1 = if s.meta.contains_key(path) {
            decref_effect(s.blobs, s.meta[path].checksum)
        } else {
            s.blobs
        };
        EngineState {
            meta: s.meta.insert(path, MetaAbs {
                version: version,
                checksum: ck,
                compression: Compression::Gzip,
                decompressed_size: ds,
            }),
            blobs: incref_effect(b1, ck, stored),
        }
    }
}

/// The state transition of a delete: a record at or below the cutoff is
/// removed and its blob reference released; a newer record is kept.
pub open spec fn spec_delete(s: EngineState, path: Seq<char>, max_version: i64) -> EngineState {
    if s.meta.contains_key(path) && s.meta[path].version <= max_version {
        EngineState {
            meta: s.meta.remove(path),
            blobs: decref_effect(s.blobs, s.meta[path].checksum),
        }
    } else {
        s
    }
}

/// Whether a put's inputs normalize at all: only an already-compressed body
/// without both trusted quantities must decode.
pub open spec fn put_accepted(content: Seq<u8>, is_gz: bool, ck: Option<[u8; 32]>, ls: Option<usize>) -> bool {
    ||| !is_gz
    ||| (ck is Some && ls is Some)
    ||| gunzip_of(content) is Some
}

/// The checksum a put commits: supplied on the raw path or trusted path,
/// else the digest of the decoded stream.
pub open spec fn norm_checksum(content: Seq<u8>, is_gz: bool, ck: Option<[u8; 32]>, ls: Option<usize>) -> Seq<u8> {
    if !is_gz {
        if ck is Some { ck->Some_0@ } else { sha256_of(content) }
    } else if ck is Some && ls is Some {
        ck->Some_0@
    } else {
        sha256_of(gunzip_of(content)->Some_0)
    }
}

/// The decompressed size a put commits.
pub open spec fn norm_size(content: Seq<u8>, is_gz: bool, ck: Option<[u8; 32]>, ls: Option<usize>) -> int {
    if !is_gz {
        content.len() as int
    } else if ck is Some && ls is Some {
        ls->Some_0 as int
    } else {
        gunzip_of(content)->Some_0.len() as int
    }
}

/// The bytes a put persists: a raw body is compressed, a compressed body is
/// stored verbatim.
pub open spec fn norm_stored(content: Seq<u8>, is_gz: bool) -> Seq<u8> {
    if is_gz { content } else { gzip_of(content) }
}

/// The abstraction keeps the overlay's domain.
pub broadcast proof fn lemma_abs_map_dom(mm: Map<Seq<char>, FileMetadata>, p: Seq<char>)
    ensures
        #[trigger] abs_map(mm).contains_key(p) <==> mm.contains_key(p),
{
}

/// The abstraction maps each record pointwise.
pub broadcast proof fn lemma_abs_map_at(mm: Map<Seq<char>, FileMetadata>, p: Seq<char>)
    requires
        mm.contains_key(p),
    ensures
        #[trigger] abs_map(mm)[p] == abs_meta(mm[p]),
{
}

pub proof fn lemma_abs_map_insert(mm: Map<Seq<char>, FileMetadata>, p: Seq<char>, m: FileMetadata)
    ensures
        abs_map(mm.insert(p, m)) =~= abs_map(mm).insert(p, abs_meta(m)),
{
}

pub proof fn lemma_abs_map_remove(mm: Map<Seq<char>, FileMetadata>, p: Seq<char>)
    ensures
        abs_map(mm.remove(p)) =~= abs_map(mm).remove(p),
{
}

/// Two distinct records referencing a hash witness a refcount of two.
pub proof fn lemma_count_refs_two(s: Seq<MetaEntry>, i: int, j: int, h: Seq<u8>)
    requires
        0 <= i < j < s.len(),
        s[i].meta.checksum@ == h,
        s[j].meta.checksum@ == h,
    ensures
        count_refs(s, h) >= 2,
    decreases s.len(),
{
    if j == s.len() - 1 {
        lemma_count_refs_pos(s.drop_last(), h);
        assert(s.drop_last()[i].meta.checksum@ == h);
    } else {
        lemma_count_refs_two(s.drop_last(), i, j, h);
    }
}

impl LocalStorage {
    /// The engine's whole state, abstractly.
    pub open spec fn state(&self) -> EngineState {
        EngineState { meta: abs_map(self.meta_view()), blobs: self.blob_view() }
    }

    fn meta_set(&mut self, path: &str, m: FileMetadata)
        requires
            distinct_paths(old(self).metas()),
            old(self).metas().len() < usize::MAX,
        ensures
            distinct_paths(final(self).metas()),
            final(self).meta_view() == old(self).meta_view().insert(path@, m),
            final(self).blob_slots() == old(self).blob_slots(),
            final(self).metas().len() <= old(self).metas().len() + 1,
            forall|h: Seq<u8>| #[trigger] count_refs(final(self).metas(), h)
                == count_refs(old(self).metas(), h)
                    - (if old(self).meta_view().contains_key(path@)
                        && old(self).meta_view()[path@].checksum@ == h { 1nat } else { 0nat })
                    + (if m.checksum@ == h { 1nat } else { 0nat }),
            forall|k: int| 0 <= k < final(self).metas().len()
                ==> (#[trigger] final(self).metas()[k]).meta == m
                    || (exists|j: int| 0 <= j < old(self).metas().len()
                        && old(self).metas()[j] == final(self).metas()[k]
                        && old(self).metas()[j].path@ != path@),
    {
        let entry = MetaEntry { path: String::from_str(path), meta: m };
        match self.meta_find(path) {
            Some(i) => {
                proof {
                    lemma_meta_map_index(self.metas(), i as int);
                    lemma_meta_map_update(self.metas(), i as int, entry);
                    assert forall|h: Seq<u8>| #[trigger] count_refs(self.metas().update(i as int, entry), h)
                        == count_refs(self.metas(), h)
                            - (if self.meta_view()[path@].checksum@ == h { 1nat } else { 0nat })
                            + (if m.checksum@ == h { 1nat } else { 0nat }) by {
                        lemma_count_refs_update(self.metas(), i as int, entry, h);
                    }
                }
                self.metadata[i] = entry;
                proof {
                    assert forall|k: int| 0 <= k < self.metas().len()
                        && (#[trigger] self.metas()[k]).meta != m implies (exists|j: int|
                            0 <= j < old(self).metas().len()
                            && old(self).metas()[j] == self.metas()[k]
                            && old(self).metas()[j].path@ != path@) by {
                        assert(k != i);
                        assert(old(self).metas()[k] == self.metas()[k]);
                        assert(old(self).metas()[k].path@ != path@);
                    }
                }
            },
            None => {
                proof {
                    lemma_meta_map_push(self.metas(), entry);
                    assert forall|h: Seq<u8>| #[trigger] count_refs(self.metas().push(entry), h)
                        == count_refs(self.metas(), h)
                            + (if m.checksum@ == h { 1nat } else { 0nat }) by {
                        lemma_count_refs_push(self.metas(), entry, h);
                    }
                    lemma_meta_map_contains(self.metas(), path@);
                }
                self.metadata.push(entry);
                proof {
                    assert forall|k: int| 0 <= k < self.metas().len()
                        && (#[trigger] self.metas()[k]).meta != m implies (exists|j: int|
                            0 <= j < old(self).metas().len()
                            && old(self).metas()[j] == self.metas()[k]
                            && old(self).metas()[j].path@ != path@) by {
                        assert(k < old(self).metas().len());
                        assert(old(self).metas()[k] == self.metas()[k]);
                    }
                }
            },
        }
    }

    /// Removes a path's record when its version is at or below the cutoff,
    /// releasing the blob reference it held; a strictly newer record makes
    /// the delete a no-op. Fails with not-found exactly when the path is
    /// absent.
    pub fn delete(&mut self, path: &str, max_version: i64) -> (r: Result<(), StorageError>)
        requires
            old(self).wf(),
        ensures
            final(self).wf(),
            final(self).metas().len() <= old(self).metas().len(),
            match r {
                Ok(()) => old(self).meta_view().contains_key(path@)
                    && final(self).state() == spec_delete(old(self).state(), path@, max_version),
                Err(e) => e == StorageError::NotFound
                    && !old(self).meta_view().contains_key(path@)
                    && *final(self) == *old(self),
            },
    {
        let i = match self.meta_find(path) {
            Some(i) => i,
            None => {
                return Err(StorageError::NotFound);
            },
        };
        let m = self.metadata[i].meta;
        if m.version > max_version {
            return Ok(());
        }
        proof {
            lemma_meta_map_index(self.metas(), i as int);
        }
        let ghost h_old = m.checksum@;
        let ghost m0 = old(self).metas();
        let ghost b0 = old(self).blob_view();
        match self.blobs.decref(&m.checksum) {
            Ok(()) => (),
            Err(_) => {
                proof {
                    assert(false);
                }
                return Err(StorageError::IoError);
            },
        }
        proof {
            lemma_meta_map_remove(self.metas(), i as int);
            lemma_blob_contains_to_count(old(self), h_old);
        }
        self.metadata.remove(i);
        proof {
            let m1 = self.metas();
            assert forall|h: Seq<u8>| #[trigger] count_refs(m1, h)
                == count_refs(m0, h) - (if h_old == h { 1nat } else { 0nat }) by {
                lemma_count_refs_remove(m0, i as int, h);
            }
            assert forall|l: int| 0 <= l < self.blob_slots().len()
                implies (#[trigger] self.blob_slots()[l]).refcount
                    == count_refs(self.metas(), self.blob_slots()[l].hash@) by {
                crate::blobstorage::lemma_blob_map_index(self.blob_slots(), l);
                let x = self.blob_slots()[l].hash@;
                lemma_old_rc_is_count(old(self), x);
            }
            assert forall|k: int| 0 <= k < self.metas().len()
                implies self.blob_view().contains_key((#[trigger] self.metas()[k]).meta.checksum@) by {
                let c = self.metas()[k].meta.checksum@;
                assert(self.metas()[k] == m0[if k < i as int { k } else { k + 1 }]);
                let kk: int = if k < i as int { k } else { k + 1 };
                assert(b0.contains_key(c));
                if c == h_old && b0[h_old].refcount == 1 {
                    lemma_count_refs_two(m0, if kk < i as int { kk } else { i as int },
                        if kk < i as int { i as int } else { kk }, h_old);
                    lemma_old_rc_is_count(old(self), h_old);
                    assert(false);
                }
            }
            lemma_abs_map_remove(old(self).meta_view(), path@);
            assert(self.state().meta =~= spec_delete(old(self).state(), path@, max_version).meta);
            assert(self.state().blobs =~= spec_delete(old(self).state(), path@, max_version).blobs);
            assert(self.state() == spec_delete(old(self).state(), path@, max_version));
        }
        Ok(())
    }
}

impl LocalStorage {
    /// Stores one upload. The body is normalized first: a raw body is
    /// hashed (unless the caller supplied a checksum, which is trusted) and
    /// compressed; an already-compressed body with both trusted quantities
    /// is stored verbatim; an already-compressed body missing either is
    /// decoded end-to-end to derive size and checksum, and a malformed
    /// stream is rejected as invalid data. Then last-writer-by-version
    /// wins: a strictly newer existing record drops the write silently,
    /// otherwise the old blob reference is released, the stored bytes are
    /// ingested, and the record is replaced.
    pub fn put(
        &mut self,
        path: &str,
        version: i64,
        content: &[u8],
        content_is_gzipped: bool,
        checksum: Option<[u8; 32]>,
        logical_size: Option<usize>,
    ) -> (r: Result<(), StorageError>)
        requires
            old(self).wf(),
            valid_version(version),
            old(self).metas().len() < usize::MAX,
        ensures
            final(self).wf(),
            final(self).metas().len() <= old(self).metas().len() + 1,
            match r {
                Ok(()) => put_accepted(content@, content_is_gzipped, checksum, logical_size)
                    && final(self).state() == spec_put(
                        old(self).state(),
                        path@,
                        version,
                        norm_checksum(content@, content_is_gzipped, checksum, logical_size),
                        norm_stored(content@, content_is_gzipped),
                        norm_size(content@, content_is_gzipped, checksum, logical_size),
                    ),
                Err(e) => e == StorageError::InvalidData
                    && !put_accepted(content@, content_is_gzipped, checksum, logical_size)
                    && *final(self) == *old(self),
            },
    {
        let ghost m0 = old(self).metas();
        let ghost cm0 = old(self).meta_view();
        let ghost b0 = old(self).blob_view();
        let ghost pre = old(self).state();
        let ghost g_ck = norm_checksum(content@, content_is_gzipped, checksum, logical_size);
        let ghost g_stored = norm_stored(content@, content_is_gzipped);
        let ghost g_ds = norm_size(content@, content_is_gzipped, checksum, logical_size);

        let (decompressed_size, ck, stored): (usize, [u8; 32], Vec<u8>) = if !content_is_gzipped {
            let ckv: [u8; 32] = match checksum {
                Some(c) => c,
                None => sha256(content),
            };
            (content.len(), ckv, gzip_compress(content))
        } else if checksum.is_some() && logical_size.is_some() {
            (logical_size.unwrap(), checksum.unwrap(), slice_to_vec(content))
        } else {
            match gzip_decompress(content) {
                Some(decoded) => {
                    let d = sha256(decoded.as_slice());
                    (decoded.len(), d, slice_to_vec(content))
                },
                None => {
                    return Err(StorageError::InvalidData);
                },
            }
        };
        proof {
            assert(put_accepted(content@, content_is_gzipped, checksum, logical_size));
            assert(ck@ == g_ck);
            assert(stored@ == g_stored);
            assert(decompressed_size as int == g_ds);
        }

        let found = self.meta_find(path);
        if let Some(i) = found {
            proof {
                lemma_meta_map_index(self.metas(), i as int);
            }
            let m = self.metadata[i].meta;
            if m.version > version {
                proof {
                    assert(pre.meta.contains_key(path@));
                    assert(pre.meta[path@] == abs_meta(cm0[path@]));
                    assert(spec_put(pre, path@, version, g_ck, g_stored, g_ds) == pre);
                }
                return Ok(());
            }
            match self.blobs.decref(&m.checksum) {
                Ok(()) => (),
                Err(_) => {
                    proof {
                        assert(false);
                    }
                    return Err(StorageError::IoError);
                },
            }
        }
        let ghost b1 = self.blob_view();
        proof {
            assert(self.metas() == m0);
            if cm0.contains_key(path@) {
                assert(b1 == decref_effect(b0, cm0[path@].checksum@));
            } else {
                assert(b1 == b0);
            }
            if b1.contains_key(ck@) {
                if b0.contains_key(ck@) {
                    lemma_old_rc_is_count(old(self), ck@);
                    lemma_count_refs_le_len(m0, ck@);
                    assert(b1[ck@].refcount <= b0[ck@].refcount);
                } else {
                    assert(false);
                }
            }
        }
        let created = self.blobs.write(&ck, stored);
        let ghost b2 = self.blob_view();
        proof {
            assert(b2 == incref_effect(b1, ck@, stored@));
            assert(self.metas() == m0);
        }
        let newmeta = FileMetadata {
            version: version,
            checksum: ck,
            compression: Compression::Gzip,
            decompressed_size: decompressed_size,
        };
        self.meta_set(path, newmeta);
        proof {
            let m1 = self.metas();
            let existed = cm0.contains_key(path@);
            let h_old: Seq<u8> = if existed { cm0[path@].checksum@ } else { Seq::empty() };

            assert forall|l: int| 0 <= l < self.blob_slots().len()
                implies (#[trigger] self.blob_slots()[l]).refcount
                    == count_refs(m1, self.blob_slots()[l].hash@) by {
                crate::blobstorage::lemma_blob_map_index(self.blob_slots(), l);
                let x = self.blob_slots()[l].hash@;
                lemma_blob_contains_to_count(old(self), x);
                if b0.contains_key(x) {
                    lemma_old_rc_is_count(old(self), x);
                } else {
                    lemma_count_refs_pos(m0, x);
                }
            }
            assert forall|k: int| 0 <= k < m1.len()
                implies self.blob_view().contains_key((#[trigger] m1[k]).meta.checksum@) by {
                let c = m1[k].meta.checksum@;
                if m1[k].meta == newmeta {
                    assert(b2.contains_key(ck@));
                } else {
                    let j = choose|j: int| 0 <= j < m0.len() && m0[j] == m1[k]
                        && m0[j].path@ != path@;
                    assert(b0.contains_key(c));
                    if c != ck@ {
                        if existed && c == h_old && b0[h_old].refcount == 1 {
                            lemma_meta_map_contains(m0, path@);
                            let ip = choose|ip: int| 0 <= ip < m0.len()
                                && (#[trigger] m0[ip]).path@ == path@;
                            lemma_meta_map_index(m0, ip);
                            assert(m0[ip].meta.checksum@ == h_old);
                            assert(j != ip);
                            if j < ip {
                                lemma_count_refs_two(m0, j, ip, h_old);
                            } else {
                                lemma_count_refs_two(m0, ip, j, h_old);
                            }
                            lemma_old_rc_is_count(old(self), h_old);
                            assert(false);
                        }
                    }
                }
            }
            lemma_abs_map_insert(cm0, path@, newmeta);
            let post = spec_put(pre, path@, version, g_ck, g_stored, g_ds);
            assert(pre.meta.contains_key(path@) == existed);
            if existed {
                assert(pre.meta[path@] == abs_meta(cm0[path@]));
            }
            assert(self.state().meta =~= post.meta);
            assert(self.state().blobs =~= post.blobs);
            assert(self.state() == post);
        }
        Ok(())
    }
}

/// A record shows up in a listing when its path lies under the prefix and
/// its version does not exceed the cutoff (the boundary is inclusive).
pub open spec fn listed(e: MetaEntry, pre: Seq<char>, maxv: i64) -> bool {
    under_prefix(e.path@, pre) && e.meta.version <= maxv
}

/// The listing of an overlay: the listed records in overlay order, as
/// (path, record) pairs.
pub open spec fn listing_of(s: Seq<MetaEntry>, pre: Seq<char>, maxv: i64) -> Seq<(Seq<char>, FileMetadata)>
    decreases s.len(),
{
    if s.len() == 0 {
        Seq::empty()
    } else {
        let rest = listing_of(s.drop_last(), pre, maxv);
        if listed(s.last(), pre, maxv) {
            rest.push((s.last().path@, s.last().meta))
        } else {
            rest
        }
    }
}

impl LocalStorage {
    /// Enumerates the records under a prefix whose version is at or below
    /// the cutoff, with paths relative to the overlay root. Fails with
    /// not-a-directory when the prefix itself is a file, and with not-found
    /// when nothing lies under a nonempty prefix; the empty prefix is the
    /// root and always lists.
    pub fn list(&self, prefix: &str, max_version: i64) -> (r: Result<Vec<(String, FileMetadata)>, StorageError>)
        requires
            self.wf(),
        ensures
            match r {
                Ok(entries) => {
                    &&& !(prefix@.len() > 0 && self.meta_view().contains_key(prefix@))
                    &&& (prefix@.len() == 0 || exists|k: int| 0 <= k < self.metas().len()
                        && under_prefix((#[trigger] self.metas()[k]).path@, prefix@))
                    &&& entries@.len() == listing_of(self.metas(), prefix@, max_version).len()
                    &&& forall|i: int| 0 <= i < entries@.len()
                        ==> (#[trigger] entries@[i]).0@ == listing_of(self.metas(), prefix@, max_version)[i].0
                            && entries@[i].1 == listing_of(self.metas(), prefix@, max_version)[i].1
                },
                Err(e) => prefix@.len() > 0 && (
                    if self.meta_view().contains_key(prefix@) {
                        e == StorageError::NotADirectory
                    } else {
                        e == StorageError::NotFound
                            && (forall|k: int| 0 <= k < self.metas().len()
                                ==> !under_prefix((#[trigger] self.metas()[k]).path@, prefix@))
                    }
                ),
            },
    {
        let n = self.metadata.len();
        if prefix.unicode_len() > 0 {
            if self.meta_find(prefix).is_some() {
                return Err(StorageError::NotADirectory);
            }
            let mut found: bool = false;
            let mut i: usize = 0;
            while i < n
                invariant
                    n == self.metas().len(),
                    i <= n,
                    found ==> exists|k: int| 0 <= k < self.metas().len()
                        && under_prefix((#[trigger] self.metas()[k]).path@, prefix@),
                    !found ==> forall|k: int| 0 <= k < i
                        ==> !under_prefix((#[trigger] self.metas()[k]).path@, prefix@),
                decreases n - i,
            {
                if !found && crate::strutil::is_under_prefix(self.metadata[i].path.as_str(), prefix) {
                    found = true;
                }
                i = i + 1;
            }
            if !found {
                return Err(StorageError::NotFound);
            }
        }
        let mut entries: Vec<(String, FileMetadata)> = Vec::new();
        let mut i: usize = 0;
        while i < n
            invariant
                n == self.metas().len(),
                i <= n,
                entries@.len() == listing_of(self.metas().subrange(0, i as int), prefix@, max_version).len(),
                forall|j: int| 0 <= j < entries@.len()
                    ==> (#[trigger] entries@[j]).0@ == listing_of(self.metas().subrange(0, i as int), prefix@, max_version)[j].0
                        && entries@[j].1 == listing_of(self.metas().subrange(0, i as int), prefix@, max_version)[j].1,
            decreases n - i,
        {
            let take_it = if crate::strutil::is_under_prefix(self.metadata[i].path.as_str(), prefix) {
                self.metadata[i].meta.version <= max_version
            } else {
                false
            };
            if take_it {
                entries.push((self.metadata[i].path.clone(), self.metadata[i].meta));
            }
            proof {
                let sub1 = self.metas().subrange(0, i + 1 as int);
                assert(sub1.drop_last() =~= self.metas().subrange(0, i as int));
                assert(sub1.last() == self.metas()[i as int]);
            }
            i = i + 1;
        }
        proof {
            assert(self.metas().subrange(0, self.metas().len() as int) =~= self.metas());
        }
        Ok(entries)
    }
}

/// The total of all refcounts in a pool.
pub open spec fn sum_refcounts(s: Seq<crate::blobstorage::BlobEntry>) -> nat
    decreases s.len(),
{
    if s.len() == 0 {
        0
    } else {
        sum_refcounts(s.drop_last()) + s.last().refcount as nat
    }
}

pub proof fn lemma_sum_refcounts_zero(s: Seq<crate::blobstorage::BlobEntry>)
    requires
        forall|i: int| 0 <= i < s.len() ==> (#[trigger] s[i]).refcount == 0,
    ensures
        sum_refcounts(s) == 0,
    decreases s.len(),
{
    if s.len() > 0 {
        lemma_sum_refcounts_zero(s.drop_last());
    }
}

pub proof fn lemma_sum_refcounts_update(
    s: Seq<crate::blobstorage::BlobEntry>,
    i: int,
    e: crate::blobstorage::BlobEntry,
)
    requires
        0 <= i < s.len(),
    ensures
        sum_refcounts(s.update(i, e)) == sum_refcounts(s) - s[i].refcount + e.refcount,
    decreases s.len(),
{
    if i == s.len() - 1 {
        assert(s.update(i, e).drop_last() =~= s.drop_last());
        assert(s.update(i, e).last() == e);
        assert(s.last() == s[i]);
    } else {
        lemma_sum_refcounts_update(s.drop_last(), i, e);
        assert(s.update(i, e).drop_last() =~= s.drop_last().update(i, e));
        assert(s.update(i, e).last() == s.last());
        assert(s.drop_last()[i] == s[i]);
    }
}

/// When every slot's refcount counts the records referencing its hash, and
/// every record references some slot, the refcounts total the records.
pub proof fn lemma_sum_refcounts_core(s: Seq<crate::blobstorage::BlobEntry>, m: Seq<MetaEntry>)
    requires
        distinct_hashes(s),
        forall|i: int| 0 <= i < s.len()
            ==> (#[trigger] s[i]).refcount == count_refs(m, s[i].hash@),
        forall|k: int| 0 <= k < m.len()
            ==> blob_map(s).contains_key((#[trigger] m[k]).meta.checksum@),
    ensures
        sum_refcounts(s) == m.len(),
    decreases m.len(),
{
    if m.len() == 0 {
        lemma_sum_refcounts_zero(s);
    } else {
        let m2 = m.drop_last();
        let h = m.last().meta.checksum@;
        assert(m[m.len() - 1].meta.checksum@ == h);
        crate::blobstorage::lemma_blob_map_contains(s, h);
        let i = choose|i: int| 0 <= i < s.len() && (#[trigger] s[i]).hash@ == h;
        assert(count_refs(m, h) == count_refs(m2, h) + 1);
        let e = crate::blobstorage::BlobEntry {
            hash: s[i].hash,
            bytes: s[i].bytes,
            refcount: (s[i].refcount - 1) as usize,
        };
        let s2 = s.update(i, e);
        assert(e.hash@ == s[i].hash@);
        assert(distinct_hashes(s2)) by {
            assert(forall|j: int| 0 <= j < s.len() ==> (#[trigger] s2[j]).hash@ == s[j].hash@);
        }
        assert forall|j: int| 0 <= j < s2.len()
            implies (#[trigger] s2[j]).refcount == count_refs(m2, s2[j].hash@) by {
            if j == i {
                assert(s2[j].refcount == s[i].refcount - 1);
            } else {
                assert(s2[j] == s[j]);
                assert(s[j].hash@ != h);
                assert(count_refs(m, s[j].hash@) == count_refs(m2, s[j].hash@));
            }
        }
        assert forall|k: int| 0 <= k < m2.len()
            implies blob_map(s2).contains_key((#[trigger] m2[k]).meta.checksum@) by {
            let c = m2[k].meta.checksum@;
            assert(m2[k] == m[k]);
            assert(blob_map(s).contains_key(c));
            crate::blobstorage::lemma_blob_map_contains(s, c);
            let j = choose|j: int| 0 <= j < s.len() && (#[trigger] s[j]).hash@ == c;
            assert(s2[j].hash@ == c);
            crate::blobstorage::lemma_blob_map_contains(s2, c);
        }
        lemma_sum_refcounts_core(s2, m2);
        lemma_sum_refcounts_update(s, i, e);
    }
}

/// The engine invariant includes the pool's own well-formedness.
pub proof fn lemma_wf_pool(s: &LocalStorage)
    requires
        s.wf(),
    ensures
        distinct_hashes(s.blob_slots()),
        forall|i: int| 0 <= i < s.blob_slots().len()
            ==> (#[trigger] s.blob_slots()[i]).refcount >= 1,
{
}

/// Under the engine invariant, a blob the overlay references has a positive
/// refcount equal to its reference count.
pub proof fn lemma_old_rc_is_count(s: &LocalStorage, h: Seq<u8>)
    requires
        s.wf(),
        s.blob_view().contains_key(h),
    ensures
        s.blob_view()[h].refcount == count_refs(s.metas(), h),
        s.blob_view()[h].refcount >= 1,
{
    crate::blobstorage::lemma_blob_map_contains(s.blob_slots(), h);
    let l = choose|l: int| 0 <= l < s.blob_slots().len() && (#[trigger] s.blob_slots()[l]).hash@ == h;
    crate::blobstorage::lemma_blob_map_index(s.blob_slots(), l);
}

/// A hash the overlay does not reference is not in a well-formed pool.
pub proof fn lemma_blob_contains_to_count(s: &LocalStorage, h: Seq<u8>)
    requires
        s.wf(),
    ensures
        s.blob_view().contains_key(h) ==> count_refs(s.metas(), h) >= 1,
        count_refs(s.metas(), h) >= 1 ==> s.blob_view().contains_key(h),
{
    if s.blob_view().contains_key(h) {
        lemma_old_rc_is_count(s, h);
    }
    lemma_count_refs_pos(s.metas(), h);
    if count_refs(s.metas(), h) >= 1 {
        let i = choose|i: int| 0 <= i < s.metas().len() && (#[trigger] s.metas()[i]).meta.checksum@ == h;
        assert(s.blob_view().contains_key(s.metas()[i].meta.checksum@));
    }
}

} // verus!
