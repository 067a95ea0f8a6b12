//! The reference-counted, content-addressed blob pool. Blobs are keyed by
//! the SHA-256 hash of their decompressed payload; each carries a refcount
//! equal to the number of metadata records referencing it. A blob exists
//! exactly while its refcount is at least one.

use vstd::prelude::*;

use crate::error::StorageError;
use crate::hex::{bytes_to_hex, hex_of_bytes};

verus! {

use vstd::slice::slice_to_vec;

/// What the pool holds for one content hash.
pub struct BlobEntry {
    pub hash: [u8; 32],
    pub bytes: Vec<u8>,
    pub refcount: usize,
}

/// The abstract content of one pool slot: the stored bytes and how many
/// metadata records reference them.
pub struct BlobView {
    pub bytes: Seq<u8>,
    pub refcount: nat,
}

impl View for BlobEntry {
    type V = BlobView;

    open spec fn view(&self) -> BlobView {
        BlobView { bytes: self.bytes@, refcount: self.refcount as nat }
    }
}

/// The map denoted by a sequence of pool slots: hash to stored content.
pub open spec fn blob_map(s: Seq<BlobEntry>) -> Map<Seq<u8>, BlobView>
    decreases s.len(),
{
    if s.len() == 0 {
        Map::empty()
    } else {
        blob_map(s.drop_last()).insert(s.last().hash@, s.last()@)
    }
}

/// No two pool slots share a hash.
pub open spec fn distinct_hashes(s: Seq<BlobEntry>) -> bool {
    forall|i: int, j: int| 0 <= i < j < s.len() ==> (#[trigger] s[i]).hash@ != (#[trigger] s[j]).hash@
}

pub broadcast proof fn lemma_blob_map_contains(s: Seq<BlobEntry>, h: Seq<u8>)
    ensures
        #[trigger] blob_map(s).contains_key(h) <==> exists|i: int| 0 <= i < s.len() && (#[trigger] s[i]).hash@ == h,
    decreases s.len(),
{
    if s.len() > 0 {
        lemma_blob_map_contains(s.drop_last(), h);
        if blob_map(s).contains_key(h) {
            if s.last().hash@ == h {
                assert(s[s.len() - 1].hash@ == h);
            } else {
                let i = choose|i: int| 0 <= i < s.drop_last().len() && (#[trigger] s.drop_last()[i]).hash@ == h;
                assert(s[i].hash@ == h);
            }
        }
        if exists|i: int| 0 <= i < s.len() && (#[trigger] s[i]).hash@ == h {
            let i = choose|i: int| 0 <= i < s.len() && (#[trigger] s[i]).hash@ == h;
            if i < s.len() - 1 {
                assert(s.drop_last()[i].hash@ == h);
            }
        }
    }
}

pub proof fn lemma_blob_map_index(s: Seq<BlobEntry>, i: int)
    requires
        distinct_hashes(s),
        0 <= i < s.len(),
    ensures
        blob_map(s).contains_key(s[i].hash@),
        blob_map(s)[s[i].hash@] == s[i]@,
    decreases s.len(),
{
    broadcast use lemma_blob_map_contains;

    if i == s.len() - 1 {
    } else {
        lemma_blob_map_index(s.drop_last(), i);
        assert(s.drop_last()[i] == s[i]);
        assert(s.last().hash@ != s[i].hash@);
    }
}

pub proof fn lemma_blob_map_update(s: Seq<BlobEntry>, i: int, e: BlobEntry)
    requires
        distinct_hashes(s),
        0 <= i < s.len(),
        e.hash@ == s[i].hash@,
    ensures
        distinct_hashes(s.update(i, e)),
        blob_map(s.update(i, e)) =~= blob_map(s).insert(e.hash@, e@),
    decreases s.len(),
{
    broadcast use lemma_blob_map_contains;

    if i == s.len() - 1 {
        assert(s.update(i, e).drop_last() =~= s.drop_last());
    } else {
        lemma_blob_map_update(s.drop_last(), i, e);
        assert(s.update(i, e).drop_last() =~= s.drop_last().update(i, e));
        assert(s.update(i, e).last() == s.last());
        assert(s.last().hash@ != e.hash@);
    }
}

pub proof fn lemma_blob_map_remove(s: Seq<BlobEntry>, i: int)
    requires
        distinct_hashes(s),
        0 <= i < s.len(),
    ensures
        distinct_hashes(s.remove(i)),
        blob_map(s.remove(i)) =~= blob_map(s).remove(s[i].hash@),
    decreases s.len(),
{
    broadcast use lemma_blob_map_contains;

    if i == s.len() - 1 {
        assert(s.remove(i) =~= s.drop_last());
        assert(!blob_map(s.drop_last()).contains_key(s[i].hash@));
        assert(blob_map(s.drop_last()).remove(s[i].hash@) =~= blob_map(s.drop_last()));
    } else {
        lemma_blob_map_remove(s.drop_last(), i);
        assert(s.remove(i).drop_last() =~= s.drop_last().remove(i));
        assert(s.remove(i).last() == s.last());
    }
}

pub proof fn lemma_blob_map_push(s: Seq<BlobEntry>, e: BlobEntry)
    requires
        distinct_hashes(s),
        !blob_map(s).contains_key(e.hash@),
    ensures
        distinct_hashes(s.push(e)),
        blob_map(s.push(e)) == blob_map(s).insert(e.hash@, e@),
    decreases s.len(),
{
    broadcast use lemma_blob_map_contains;

    assert(s.push(e).drop_last() =~= s);
    assert(forall|i: int| 0 <= i < s.len() ==> (#[trigger] s.push(e)[i]) == s[i]);
}

/// Compares two content hashes byte for byte.
pub fn hash_eq(a: &[u8; 32], b: &[u8; 32]) -> (r: bool)
    ensures
        r == (a@ == b@),
{
    let mut j: usize = 0;
    while j < 32
        invariant
            j <= 32,
            forall|k: int| 0 <= k < j ==> a@[k] == b@[k],
        decreases 32 - j,
    {
        if a[j] != b[j] {
            return false;
        }
        j = j + 1;
    }
    proof {
        assert(a@ =~= b@);
    }
    true
}

/// The in-memory, reference-counted blob pool.
pub struct BlobStorage {
    entries: Vec<BlobEntry>,
}

impl View for BlobStorage {
    type V = Map<Seq<u8>, BlobView>;

    open spec fn view(&self) -> Map<Seq<u8>, BlobView> {
        blob_map(self.slots())
    }
}

impl BlobStorage {
    /// The pool's slots, for invariants stated over the representation.
    pub closed spec fn slots(&self) -> Seq<BlobEntry> {
        self.entries@
    }

    /// Representation invariant: one slot per hash, and a blob exists only
    /// while something references it.
    pub open spec fn inv(&self) -> bool {
        &&& distinct_hashes(self.slots())
        &&& forall|i: int| 0 <= i < self.slots().len() ==> (#[trigger] self.slots()[i]).refcount >= 1
    }

    /// Creates an empty pool.
    pub fn create() -> (r: Self)
        ensures
            r.inv(),
            r@ == Map::<Seq<u8>, BlobView>::empty(),
            r.slots() =~= Seq::<BlobEntry>::empty(),
    {
        BlobStorage { entries: Vec::new() }
    }

    fn find(&self, sha256: &[u8; 32]) -> (r: Option<usize>)
        requires
            self.inv(),
        ensures
            match r {
                Some(i) => i < self.slots().len() && self.slots()[i as int].hash@ == sha256@
                    && self@.contains_key(sha256@),
                None => !self@.contains_key(sha256@),
            },
    {
        proof {
            broadcast use lemma_blob_map_contains;
        }
        let n = self.entries.len();
        let mut i: usize = 0;
        while i < n
            invariant
                n == self.slots().len(),
                i <= n,
                self.inv(),
                forall|k: int| 0 <= k < i ==> (#[trigger] self.slots()[k]).hash@ != sha256@,
            decreases n - i,
        {
            if hash_eq(&self.entries[i].hash, sha256) {
                proof {
                    lemma_blob_map_contains(self.slots(), sha256@);
                }
                return Some(i);
            }
            i = i + 1;
        }
        proof {
            lemma_blob_map_contains(self.slots(), sha256@);
        }
        None
    }

    /// Ingests one reference to a blob. If the hash is new, the bytes are
    /// stored with refcount 1 and `true` is returned; otherwise the stored
    /// bytes are kept, the refcount grows by one, and `false` is returned.
    pub fn write(&mut self, sha256: &[u8; 32], data: Vec<u8>) -> (created: bool)
        requires
            old(self).inv(),
            old(self)@.contains_key(sha256@) ==> old(self)@[sha256@].refcount < usize::MAX,
        ensures
            final(self).inv(),
            created == !old(self)@.contains_key(sha256@),
            final(self)@ == old(self)@.insert(
                sha256@,
                if old(self)@.contains_key(sha256@) {
                    BlobView {
                        bytes: old(self)@[sha256@].bytes,
                        refcount: old(self)@[sha256@].refcount + 1,
                    }
                } else {
                    BlobView { bytes: data@, refcount: 1nat }
                },
            ),
    {
        match self.find(sha256) {
            Some(i) => {
                proof {
                    lemma_blob_map_index(self.slots(), i as int);
                }
                let old_bytes = slice_to_vec(self.entries[i].bytes.as_slice());
                let e = BlobEntry {
                    hash: self.entries[i].hash,
                    bytes: old_bytes,
                    refcount: self.entries[i].refcount + 1,
                };
                proof {
                    lemma_blob_map_update(self.slots(), i as int, e);
                }
                self.entries[i] = e;
                false
            },
            None => {
                let e = BlobEntry { hash: *sha256, bytes: data, refcount: 1 };
                proof {
                    lemma_blob_map_push(self.slots(), e);
                }
                self.entries.push(e);
                true
            },
        }
    }

    /// Returns a copy of the blob's stored bytes, or not-found.
    pub fn read(&self, sha256: &[u8; 32]) -> (r: Result<Vec<u8>, StorageError>)
        requires
            self.inv(),
        ensures
            match r {
                Ok(bytes) => self@.contains_key(sha256@) && bytes@ == self@[sha256@].bytes,
                Err(e) => !self@.contains_key(sha256@) && e == StorageError::NotFound,
            },
    {
        match self.find(sha256) {
            Some(i) => {
                proof {
                    lemma_blob_map_index(self.slots(), i as int);
                }
                Ok(slice_to_vec(self.entries[i].bytes.as_slice()))
            },
            None => Err(StorageError::NotFound),
        }
    }

    /// Returns the stored (compressed) byte count of a blob, or not-found.
    pub fn metadata(&self, sha256: &[u8; 32]) -> (r: Result<usize, StorageError>)
        requires
            self.inv(),
        ensures
            match r {
                Ok(n) => self@.contains_key(sha256@) && n == self@[sha256@].bytes.len(),
                Err(e) => !self@.contains_key(sha256@) && e == StorageError::NotFound,
            },
    {
        match self.find(sha256) {
            Some(i) => {
                proof {
                    lemma_blob_map_index(self.slots(), i as int);
                }
                Ok(self.entries[i].bytes.len())
            },
            None => Err(StorageError::NotFound),
        }
    }

    /// Releases one reference. A blob whose last reference goes away is
    /// removed from the pool; otherwise its refcount shrinks by one.
    /// Fails with not-found if the hash is absent.
    pub fn decref(&mut self, sha256: &[u8; 32]) -> (r: Result<(), StorageError>)
        requires
            old(self).inv(),
        ensures
            final(self).inv(),
            match r {
                Ok(()) => old(self)@.contains_key(sha256@) && final(self)@ == (
                    if old(self)@[sha256@].refcount == 1 {
                        old(self)@.remove(sha256@)
                    } else {
                        old(self)@.insert(
                            sha256@,
                            BlobView {
                                bytes: old(self)@[sha256@].bytes,
                                refcount: (old(self)@[sha256@].refcount - 1) as nat,
                            },
                        )
                    }
                ),
                Err(e) => !old(self)@.contains_key(sha256@) && e == StorageError::NotFound
                    && final(self)@ == old(self)@,
            },
    {
        match self.find(sha256) {
            Some(i) => {
                proof {
                    lemma_blob_map_index(self.slots(), i as int);
                }
                if self.entries[i].refcount <= 1 {
                    proof {
                        lemma_blob_map_remove(self.slots(), i as int);
                    }
                    self.entries.remove(i);
                } else {
                    let old_bytes = slice_to_vec(self.entries[i].bytes.as_slice());
                    let e = BlobEntry {
                        hash: self.entries[i].hash,
                        bytes: old_bytes,
                        refcount: self.entries[i].refcount - 1,
                    };
                    proof {
                        lemma_blob_map_update(self.slots(), i as int, e);
                    }
                    self.entries[i] = e;
                }
                Ok(())
            },
            None => Err(StorageError::NotFound),
        }
    }

    /// The current refcount of a blob, or `None` when the hash is absent.
    pub fn refcount(&self, sha256: &[u8; 32]) -> (r: Option<usize>)
        requires
            self.inv(),
        ensures
            match r {
                Some(n) => self@.contains_key(sha256@) && n as nat == self@[sha256@].refcount,
                None => !self@.contains_key(sha256@),
            },
    {
        match self.find(sha256) {
            Some(i) => {
                proof {
                    lemma_blob_map_index(self.slots(), i as int);
                }
                Some(self.entries[i].refcount)
            },
            None => None,
        }
    }

    /// The filesystem path of a blob relative to the pool's root: a
    /// two-character prefix directory, a slash, and the remaining 62 hex
    /// characters of the hash.
    pub fn path_to_blob(sha256: &[u8; 32]) -> (r: String)
        ensures
            r@ == hex_of_bytes(sha256@).subrange(0, 2) + seq!['/'] + hex_of_bytes(sha256@).subrange(2, 64),
    {
        proof {
            crate::hex::lemma_hex_of_bytes_len(sha256@);
        }
        let hex = bytes_to_hex(sha256.as_slice());
        let prefix = hex.as_str().substring_char(0, 2);
        let suffix = hex.as_str().substring_char(2, 64);
        let mut r = String::from_str(prefix);
        proof {
            reveal_strlit("/");
        }
        r.append("/");
        r.append(suffix);
        proof {
            assert(r@ =~= hex_of_bytes(sha256@).subrange(0, 2) + seq!['/'] + hex_of_bytes(sha256@).subrange(2, 64));
        }
        r
    }
}

} // verus!
