//! The engine's global guarantees, stated and proved over the abstract
//! state and the spec-level transitions that `put` and `delete` are proved
//! to compute.

use vstd::prelude::*;

use crate::blobstorage::BlobView;
use crate::digest::sha256_of;
use crate::gzipio::{gunzip_of, gzip_of};
use crate::meta::Compression;
use crate::storage::{
    count_refs, decref_effect, incref_effect, norm_checksum, spec_delete, spec_put, EngineState,
    LocalStorage, MetaAbs,
};

verus! {

/// In a well-formed engine, every stored path references a live blob, and
/// that blob's refcount equals the number of records referencing its hash:
/// the refcount counts exactly the path-to-hash references.
pub proof fn law_store_consistency(s: &LocalStorage, p: Seq<char>)
    requires
        s.wf(),
        s.meta_view().contains_key(p),
    ensures
        s.blob_view().contains_key(s.meta_view()[p].checksum@),
        s.blob_view()[s.meta_view()[p].checksum@].refcount
            == count_refs(s.metas(), s.meta_view()[p].checksum@),
        s.blob_view()[s.meta_view()[p].checksum@].refcount >= 1,
{
    crate::storage::lemma_meta_map_contains(s.metas(), p);
    let i = choose|i: int| 0 <= i < s.metas().len() && (#[trigger] s.metas()[i]).path@ == p;
    crate::storage::lemma_meta_map_index(s.metas(), i);
    crate::storage::lemma_old_rc_is_count(s, s.meta_view()[p].checksum@);
}

/// The abstract state mirrors the overlay exactly: a path is stored in one
/// exactly when it is stored in the other, and the record carried is the
/// same. Reads (`get`, `head`) and the put/delete transitions therefore
/// speak about one and the same store.
pub proof fn law_state_reflects_overlay(s: &LocalStorage, p: Seq<char>)
    ensures
        s.state().meta.contains_key(p) <==> s.meta_view().contains_key(p),
        s.meta_view().contains_key(p) ==> s.state().meta[p]
            == crate::storage::abs_meta(s.meta_view()[p]),
{
    crate::storage::lemma_abs_map_dom(s.meta_view(), p);
    if s.meta_view().contains_key(p) {
        crate::storage::lemma_abs_map_at(s.meta_view(), p);
    }
}

/// In a well-formed engine, the refcounts across the whole pool sum to the
/// number of stored path-to-hash references: nothing leaks and nothing is
/// counted twice.
pub proof fn law_refcounts_total(s: &LocalStorage)
    requires
        s.wf(),
    ensures
        crate::storage::sum_refcounts(s.blob_slots()) == s.metas().len(),
{
    crate::storage::lemma_wf_pool(s);
    assert forall|k: int| 0 <= k < s.metas().len()
        implies crate::blobstorage::blob_map(s.blob_slots()).contains_key(
            (#[trigger] s.metas()[k]).meta.checksum@,
        ) by {
        assert(s.blob_view().contains_key(s.metas()[k].meta.checksum@));
    }
    crate::storage::lemma_sum_refcounts_core(s.blob_slots(), s.metas());
}

/// In a well-formed engine, a blob no record references does not exist: once
/// the last referencing record is deleted, blob and refcount are gone.
pub proof fn law_unreferenced_blob_absent(s: &LocalStorage, h: Seq<u8>)
    requires
        s.wf(),
        forall|k: int| 0 <= k < s.metas().len() ==> (#[trigger] s.metas()[k]).meta.checksum@ != h,
    ensures
        !s.blob_view().contains_key(h),
{
    crate::storage::lemma_count_refs_pos(s.metas(), h);
    crate::storage::lemma_blob_contains_to_count(s, h);
}

/// A later write is never overwritten by an earlier one: putting with a
/// smaller version after putting with a larger one leaves exactly the state
/// of the larger put alone, whatever either body was.
pub proof fn law_version_ordering(
    s0: EngineState,
    path: Seq<char>,
    v1: i64,
    v2: i64,
    ck1: Seq<u8>,
    stored1: Seq<u8>,
    ds1: int,
    ck2: Seq<u8>,
    stored2: Seq<u8>,
    ds2: int,
)
    requires
        v1 < v2,
    ensures
        spec_put(spec_put(s0, path, v2, ck2, stored2, ds2), path, v1, ck1, stored1, ds1)
            == spec_put(s0, path, v2, ck2, stored2, ds2),
{
    let s1 = spec_put(s0, path, v2, ck2, stored2, ds2);
    if s0.meta.contains_key(path) && s0.meta[path].version > v2 {
        assert(s1.meta[path].version > v1);
    } else {
        assert(s1.meta[path].version == v2);
    }
}

/// Deleting below an existing record's version changes nothing.
pub proof fn law_delete_noop(s: EngineState, path: Seq<char>, v: i64)
    requires
        s.meta.contains_key(path),
        s.meta[path].version > v,
    ensures
        spec_delete(s, path, v) == s,
{
}

/// Deleting at or above the record's version removes the record and
/// releases its blob reference: the last reference removes the blob, any
/// other decrements its refcount by one.
pub proof fn law_delete_removes(s: EngineState, path: Seq<char>, v: i64)
    requires
        s.meta.contains_key(path),
        s.meta[path].version <= v,
    ensures
        spec_delete(s, path, v).meta == s.meta.remove(path),
        spec_delete(s, path, v).blobs == decref_effect(s.blobs, s.meta[path].checksum),
{
}

/// A raw put followed by a read: the committed record carries the digest of
/// the uploaded content and its length, and the stored blob holds its gzip
/// encoding (which decodes back to the content). The one hypothesis beyond
/// freshness of the version: if a blob already sits under the content's
/// hash, it holds the same encoding — dedup by hash identifies contents.
pub proof fn law_put_get_round_trip(s0: EngineState, path: Seq<char>, version: i64, x: Seq<u8>)
    requires
        !(s0.meta.contains_key(path) && s0.meta[path].version > version),
        s0.meta.contains_key(path) ==> s0.blobs.contains_key(s0.meta[path].checksum),
        s0.blobs.contains_key(sha256_of(x)) ==> s0.blobs[sha256_of(x)].bytes == gzip_of(x),
    ensures
        spec_put(s0, path, version, sha256_of(x), gzip_of(x), x.len() as int).meta.contains_key(path),
        spec_put(s0, path, version, sha256_of(x), gzip_of(x), x.len() as int).meta[path]
            == (MetaAbs {
                version: version,
                checksum: sha256_of(x),
                compression: Compression::Gzip,
                decompressed_size: x.len() as int,
            }),
        spec_put(s0, path, version, sha256_of(x), gzip_of(x), x.len() as int).blobs.contains_key(sha256_of(x)),
        spec_put(s0, path, version, sha256_of(x), gzip_of(x), x.len() as int).blobs[sha256_of(x)].bytes
            == gzip_of(x),
{
    let h = sha256_of(x);
    let b1 = if s0.meta.contains_key(path) {
        decref_effect(s0.blobs, s0.meta[path].checksum)
    } else {
        s0.blobs
    };
    if b1.contains_key(h) {
        assert(s0.blobs.contains_key(h));
        assert(b1[h].bytes == s0.blobs[h].bytes);
    }
}

/// Whatever mix of trusted quantities accompanies an already-compressed
/// upload, the committed checksum is the digest of the decompressed
/// content, provided a supplied checksum is truthful.
pub proof fn law_gzip_put_checksum(g: Seq<u8>, x: Seq<u8>, ck: Option<[u8; 32]>, ls: Option<usize>)
    requires
        gunzip_of(g) == Some(x),
        ck is Some ==> ck->Some_0@ == sha256_of(x),
    ensures
        norm_checksum(g, true, ck, ls) == sha256_of(x),
{
}

/// Repeated puts of one content to one path, in any version order, starting
/// from a state without the path or the blob.
pub open spec fn apply_same_puts(
    s: EngineState,
    path: Seq<char>,
    versions: Seq<i64>,
    ck: Seq<u8>,
    stored: Seq<u8>,
    ds: int,
) -> EngineState
    decreases versions.len(),
{
    if versions.len() == 0 {
        s
    } else {
        spec_put(
            apply_same_puts(s, path, versions.drop_last(), ck, stored, ds),
            path,
            versions.last(),
            ck,
            stored,
            ds,
        )
    }
}

/// The largest of a nonempty sequence of versions.
pub open spec fn seq_max_i64(vs: Seq<i64>) -> i64
    decreases vs.len(),
{
    if vs.len() <= 1 {
        vs[0]
    } else if vs.last() > seq_max_i64(vs.drop_last()) {
        vs.last()
    } else {
        seq_max_i64(vs.drop_last())
    }
}

/// Any sequence of puts of one content to one path leaves exactly one
/// record, carrying the largest version observed, and exactly one copy of
/// the blob with refcount 1.
pub proof fn law_same_content_puts(
    s0: EngineState,
    path: Seq<char>,
    versions: Seq<i64>,
    ck: Seq<u8>,
    stored: Seq<u8>,
    ds: int,
)
    requires
        versions.len() >= 1,
        !s0.meta.contains_key(path),
        !s0.blobs.contains_key(ck),
    ensures
        apply_same_puts(s0, path, versions, ck, stored, ds).meta =~= s0.meta.insert(
            path,
            MetaAbs {
                version: seq_max_i64(versions),
                checksum: ck,
                compression: Compression::Gzip,
                decompressed_size: ds,
            },
        ),
        apply_same_puts(s0, path, versions, ck, stored, ds).blobs =~= s0.blobs.insert(
            ck,
            BlobView { bytes: stored, refcount: 1nat },
        ),
    decreases versions.len(),
{
    if versions.len() == 1 {
        assert(apply_same_puts(s0, path, versions.drop_last(), ck, stored, ds) == s0);
        assert(versions.last() == versions[0]);
        assert(apply_same_puts(s0, path, versions, ck, stored, ds)
            == spec_put(s0, path, versions[0], ck, stored, ds));
    } else {
        law_same_content_puts(s0, path, versions.drop_last(), ck, stored, ds);
        let sk = apply_same_puts(s0, path, versions.drop_last(), ck, stored, ds);
        let vmax = seq_max_i64(versions.drop_last());
        let v = versions.last();
        if vmax > v {
            assert(seq_max_i64(versions) == vmax);
        } else {
            assert(seq_max_i64(versions) == v);
            assert(sk.meta[path].checksum == ck);
            assert(sk.blobs[ck].refcount == 1);
            let b1 = decref_effect(sk.blobs, ck);
            assert(b1 =~= s0.blobs.insert(ck, BlobView { bytes: stored, refcount: 1nat }).remove(ck));
            assert(!b1.contains_key(ck));
            assert(incref_effect(b1, ck, stored) =~= s0.blobs.insert(
                ck,
                BlobView { bytes: stored, refcount: 1nat },
            ));
            assert(apply_same_puts(s0, path, versions, ck, stored, ds).meta =~= s0.meta.insert(
                path,
                MetaAbs {
                    version: seq_max_i64(versions),
                    checksum: ck,
                    compression: Compression::Gzip,
                    decompressed_size: ds,
                },
            ));
        }
    }
}

} // verus!
