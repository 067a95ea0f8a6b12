//! The metadata record's on-disk form: a one-object JSON text with exactly
//! the keys `version` (an RFC 3339 string), `checksum` (an array of 32
//! byte values), `compression` (`"None"` or `"Gzip"`), and
//! `decompressed_size`. The codec writes the canonical rendering and reads
//! it back; any other text — a missing field, reordered keys, trailing
//! data — is invalid data, never not-found.

use vstd::prelude::*;

use crate::error::StorageError;
use crate::meta::{Compression, FileMetadata};
use crate::numfmt::{dec_of, is_digit, lemma_dec_canon, str_dec_val, u64_to_dec};
use crate::timefmt::{format_version, parse_version_checked, rfc3339_of, rfc3339_val};

verus! {

use vstd::string::StrSliceExecFns;
use vstd::string::StringExecFns;

/// The JSON string for a compression mode.
pub open spec fn compression_label(c: Compression) -> Seq<char> {
    match c {
        Compression::Uncompressed => "None"@,
        Compression::Gzip => "Gzip"@,
    }
}

/// The comma-separated decimal rendering of the checksum bytes.
pub open spec fn checksum_list(b: Seq<u8>) -> Seq<char>
    decreases b.len(),
{
    if b.len() == 0 {
        Seq::empty()
    } else if b.len() == 1 {
        dec_of(b[0] as int)
    } else {
        checksum_list(b.drop_last()) + seq![','] + dec_of(b.last() as int)
    }
}

/// The record's JSON text, parameterized by the version string.
pub open spec fn meta_json_with(vs: Seq<char>, ck: Seq<u8>, comp: Compression, ds: int) -> Seq<char> {
    "{\"version\":\""@ + vs
        + "\",\"checksum\":["@ + checksum_list(ck)
        + "],\"compression\":\""@ + compression_label(comp)
        + "\",\"decompressed_size\":"@ + dec_of(ds)
        + "}"@
}

/// The canonical JSON text of a record.
pub open spec fn meta_json(m: FileMetadata) -> Seq<char> {
    meta_json_with(rfc3339_of(m.version), m.checksum@, m.compression, m.decompressed_size as int)
}

/// The split of the checksum list after element `k`: separator, that
/// element's rendering, and the remainder.
pub open spec fn cl_from(b: Seq<u8>, k: int) -> Seq<char>
    decreases b.len() - k,
{
    if k < 0 || k >= b.len() {
        Seq::empty()
    } else {
        (if k > 0 { seq![','] } else { Seq::<char>::empty() }) + dec_of(b[k] as int) + cl_from(b, k + 1)
    }
}

proof fn lemma_cl_split(b: Seq<u8>, k: int)
    requires
        0 <= k <= b.len(),
    ensures
        checksum_list(b.subrange(0, k)) + cl_from(b, k) == checksum_list(b),
    decreases b.len() - k,
{
    if k == b.len() {
        assert(b.subrange(0, k) =~= b);
        assert(checksum_list(b.subrange(0, k)) + cl_from(b, k) =~= checksum_list(b));
    } else {
        lemma_cl_split(b, k + 1);
        let sub1 = b.subrange(0, k + 1);
        assert(sub1.drop_last() =~= b.subrange(0, k));
        assert(sub1.last() == b[k]);
        if k == 0 {
            assert(checksum_list(sub1) == dec_of(b[0] as int));
            assert(checksum_list(b.subrange(0, 0)) + cl_from(b, 0) =~= checksum_list(sub1)
                + cl_from(b, 1));
        } else {
            assert(checksum_list(sub1) == checksum_list(b.subrange(0, k)) + seq![',']
                + dec_of(b[k] as int));
            assert(checksum_list(b.subrange(0, k)) + cl_from(b, k) =~= checksum_list(sub1)
                + cl_from(b, k + 1));
        }
    }
}

/// A text is the canonical rendering of a record whose version string the
/// calendar formatter produced.
pub open spec fn canonical_meta(data: Seq<char>, m: FileMetadata) -> bool {
    &&& m.wf()
    &&& crate::timefmt::version_string_ok(m.version)
    &&& data == meta_json(m)
}

spec fn vs_end_of(m: FileMetadata) -> int {
    12 + rfc3339_of(m.version).len() as int
}

spec fn cl_start_of(m: FileMetadata) -> int {
    vs_end_of(m) + 14
}

spec fn cl_end_of(m: FileMetadata) -> int {
    cl_start_of(m) + checksum_list(m.checksum@).len() as int
}

spec fn co_start_of(m: FileMetadata) -> int {
    cl_end_of(m) + 17
}

spec fn co_end_of(m: FileMetadata) -> int {
    co_start_of(m) + compression_label(m.compression).len() as int
}

spec fn ds_start_of(m: FileMetadata) -> int {
    co_end_of(m) + 22
}

spec fn ds_end_of(m: FileMetadata) -> int {
    ds_start_of(m) + dec_of(m.decompressed_size as int).len() as int
}

proof fn lemma_canonical_structure(data: Seq<char>, m: FileMetadata)
    requires
        canonical_meta(data, m),
    ensures
        data.len() == ds_end_of(m) + 1,
        data.subrange(0, 12) == "{\"version\":\""@,
        data.subrange(12, vs_end_of(m)) == rfc3339_of(m.version),
        forall|t: int| 12 <= t < vs_end_of(m) ==> data[t] != '"',
        data[vs_end_of(m)] == '"',
        data.subrange(vs_end_of(m), cl_start_of(m)) == "\",\"checksum\":["@,
        data.subrange(cl_start_of(m), cl_end_of(m)) == checksum_list(m.checksum@),
        data.subrange(cl_end_of(m), co_start_of(m)) == "],\"compression\":\""@,
        data.subrange(co_start_of(m), co_end_of(m)) == compression_label(m.compression),
        data.subrange(co_end_of(m), ds_start_of(m)) == "\",\"decompressed_size\":"@,
        data.subrange(ds_start_of(m), ds_end_of(m)) == dec_of(m.decompressed_size as int),
        data.subrange(ds_end_of(m), ds_end_of(m) + 1) == "}"@,
{
    reveal_strlit("{\"version\":\"");
    reveal_strlit("\",\"checksum\":[");
    reveal_strlit("],\"compression\":\"");
    reveal_strlit("\",\"decompressed_size\":");
    reveal_strlit("}");
    reveal_strlit("None");
    reveal_strlit("Gzip");
    let vs = rfc3339_of(m.version);
    let cl = checksum_list(m.checksum@);
    let co = compression_label(m.compression);
    let dq = dec_of(m.decompressed_size as int);
    assert("{\"version\":\""@.len() == 12);
    assert("\",\"checksum\":["@.len() == 14);
    assert("],\"compression\":\""@.len() == 17);
    assert("\",\"decompressed_size\":"@.len() == 22);
    assert("}"@.len() == 1);
    assert(data.len() == 12 + vs.len() + 14 + cl.len() + 17 + co.len() + 22 + dq.len() + 1);
    assert(data.subrange(0, 12) =~= "{\"version\":\""@);
    assert(data.subrange(12, vs_end_of(m)) =~= vs);
    assert forall|t: int| 12 <= t < vs_end_of(m) implies data[t] != '"' by {
        assert(data[t] == vs[t - 12]);
    }
    assert(data.subrange(vs_end_of(m), cl_start_of(m)) =~= "\",\"checksum\":["@);
    assert(data[vs_end_of(m)] == "\",\"checksum\":["@[0]);
    assert(data.subrange(cl_start_of(m), cl_end_of(m)) =~= cl);
    assert(data.subrange(cl_end_of(m), co_start_of(m)) =~= "],\"compression\":\""@);
    assert(data.subrange(co_start_of(m), co_end_of(m)) =~= co);
    assert(data.subrange(co_end_of(m), ds_start_of(m)) =~= "\",\"decompressed_size\":"@);
    assert(data.subrange(ds_start_of(m), ds_end_of(m)) =~= dq);
    assert(data.subrange(ds_end_of(m), ds_end_of(m) + 1) =~= "}"@);
}

/// Renders a record as its canonical JSON text. The text satisfies
/// `canonical_meta`, so reading it back yields the record again.
pub fn serialize_metadata(m: &FileMetadata) -> (r: String)
    requires
        m.wf(),
    ensures
        r@ == meta_json(*m),
        canonical_meta(r@, *m),
{
    let mut r = String::from_str("{\"version\":\"");
    let vs = format_version(m.version);
    r.append(vs.as_str());
    r.append("\",\"checksum\":[");
    let ghost list_head = r@;
    let mut k: usize = 0;
    proof {
        reveal_strlit(",");
    }
    while k < 32
        invariant
            k <= 32,
            m.checksum@.len() == 32,
            ","@ == seq![','],
            r@ == list_head + checksum_list(m.checksum@.subrange(0, k as int)),
        decreases 32 - k,
    {
        if k > 0 {
            r.append(",");
        }
        let d = u64_to_dec(m.checksum[k] as u64);
        r.append(d.as_str());
        proof {
            let sub1 = m.checksum@.subrange(0, k + 1 as int);
            assert(sub1.drop_last() =~= m.checksum@.subrange(0, k as int));
            assert(sub1.last() == m.checksum@[k as int]);
            if k == 0 {
                assert(checksum_list(sub1) == dec_of(m.checksum@[0] as int));
                assert(r@ =~= list_head + checksum_list(sub1));
            } else {
                assert(r@ =~= list_head + checksum_list(sub1));
            }
        }
        k = k + 1;
    }
    proof {
        assert(m.checksum@.subrange(0, 32) =~= m.checksum@);
    }
    r.append("],\"compression\":\"");
    match m.compression {
        Compression::Uncompressed => r.append("None"),
        Compression::Gzip => r.append("Gzip"),
    }
    r.append("\",\"decompressed_size\":");
    let zd = u64_to_dec(m.decompressed_size as u64);
    r.append(zd.as_str());
    r.append("}");
    proof {
        assert(r@ =~= meta_json(*m));
    }
    r
}

/// Matches a literal at a position; on success the position after it.
fn expect_lit(data: &str, pos: usize, lit: &str) -> (r: Option<usize>)
    requires
        pos <= data@.len(),
    ensures
        match r {
            Some(p) => p == pos + lit@.len() && p <= data@.len()
                && data@.subrange(pos as int, p as int) == lit@,
            None => !(pos + lit@.len() <= data@.len()
                && data@.subrange(pos as int, pos + lit@.len()) == lit@),
        },
{
    let n = data.unicode_len();
    let ln = lit.unicode_len();
    if n - pos < ln {
        return None;
    }
    let mut j: usize = 0;
    while j < ln
        invariant
            j <= ln,
            ln == lit@.len(),
            n == data@.len(),
            pos + ln <= n,
            forall|t: int| 0 <= t < j ==> data@[pos + t] == lit@[t],
        decreases ln - j,
    {
        if data.get_char(pos + j) != lit.get_char(j) {
            proof {
                assert(data@.subrange(pos as int, pos + lit@.len())[j as int] == data@[pos + j]);
            }
            return None;
        }
        j = j + 1;
    }
    proof {
        assert(data@.subrange(pos as int, (pos + ln) as int) =~= lit@);
    }
    Some(pos + ln)
}

/// The first double quote at or after a position.
fn find_quote(data: &str, pos: usize) -> (r: Option<usize>)
    requires
        pos <= data@.len(),
    ensures
        match r {
            Some(j) => pos <= j < data@.len() && data@[j as int] == '"'
                && forall|t: int| pos <= t < j ==> data@[t] != '"',
            None => forall|t: int| pos <= t < data@.len() ==> data@[t] != '"',
        },
{
    let n = data.unicode_len();
    let mut j: usize = pos;
    while j < n
        invariant
            pos <= j <= n,
            n == data@.len(),
            forall|t: int| pos <= t < j ==> data@[t] != '"',
        decreases n - j,
    {
        if data.get_char(j) == '"' {
            return Some(j);
        }
        j = j + 1;
    }
    None
}

proof fn lemma_run_digits(run: Seq<char>, v: u64)
    requires
        run == dec_of(v as int),
    ensures
        forall|t: int| 0 <= t < run.len() ==> is_digit(#[trigger] run[t]),
        run.len() >= 1,
{
    broadcast use crate::numfmt::lemma_dec_of_digits;

    assert forall|t: int| 0 <= t < run.len() implies is_digit(run[t]) by {
        assert(run[t] == dec_of(v as int)[t]);
    }
}

/// Whether a canonical decimal run for value `v` sits at `pos` and ends at
/// `end` (the first position after it holds no digit).
pub open spec fn dec_run_at(data: Seq<char>, pos: int, v: u64, end: int) -> bool {
    &&& pos < end <= data.len()
    &&& data.subrange(pos, end) == dec_of(v as int)
    &&& (end == data.len() || !is_digit(data[end]))
}

/// Reads a canonical (no redundant leading zero) decimal run starting at a
/// position, stopping at the first non-digit; the value must fit a u64.
/// Exactly the runs `dec_run_at` describes are read.
fn parse_dec_run(data: &str, pos: usize) -> (r: Option<(u64, usize)>)
    requires
        pos <= data@.len(),
    ensures
        match r {
            Some((v, p)) => {
                &&& pos < p <= data@.len()
                &&& (forall|t: int| pos <= t < p ==> is_digit(#[trigger] data@[t]))
                &&& (p < data@.len() ==> !is_digit(data@[p as int]))
                &&& data@.subrange(pos as int, p as int) == dec_of(v as int)
            },
            None => true,
        },
        forall|v: u64, end: int| #[trigger] dec_run_at(data@, pos as int, v, end)
            ==> r == Some((v, end as usize)),
{
    proof {
        broadcast use crate::numfmt::lemma_dec_of_digits;
    }
    let n = data.unicode_len();
    if pos >= n {
        proof {
            assert forall|v: u64, end: int| #[trigger] dec_run_at(data@, pos as int, v, end)
                implies false by {
            }
        }
        return None;
    }
    let mut val: u64 = 0;
    let mut j: usize = pos;
    while j < n
        invariant
            pos <= j <= n,
            n == data@.len(),
            forall|t: int| pos <= t < j ==> is_digit(#[trigger] data@[t]),
            val as int == str_dec_val(data@.subrange(pos as int, j as int)),
        ensures
            pos <= j <= n,
            n == data@.len(),
            forall|t: int| pos <= t < j ==> is_digit(#[trigger] data@[t]),
            val as int == str_dec_val(data@.subrange(pos as int, j as int)),
            j < n ==> !is_digit(data@[j as int]),
        decreases n - j,
    {
        let c = data.get_char(j);
        let cv = c as u32;
        if cv < 48 || cv > 57 {
            proof {
                assert(!is_digit(data@[j as int]));
            }
            break;
        }
        let d = (cv - 48) as u64;
        if val > (u64::MAX - d) / 10 {
            proof {
                assert forall|v: u64, end: int| #[trigger] dec_run_at(data@, pos as int, v, end)
                    implies false by {
                    let run = data@.subrange(pos as int, end);
                    lemma_run_digits(run, v);
                    assert(end > j) by {
                        if end <= j as int {
                            assert(is_digit(run[end - 1 - pos]));
                            assert(is_digit(data@[end]));
                        }
                    }
                    let sub1 = data@.subrange(pos as int, j + 1 as int);
                    assert(sub1.drop_last() =~= data@.subrange(pos as int, j as int));
                    assert(sub1.last() == data@[j as int]);
                    assert(str_dec_val(sub1) == val * 10 + d);
                    assert(sub1 =~= run.subrange(0, j + 1 - pos as int));
                    crate::numfmt::lemma_dec_prefix_mono(run, j + 1 - pos as int, end - pos as int);
                    assert(run.subrange(0, end - pos as int) =~= run);
                    crate::numfmt::lemma_dec_round_trip(v as int);
                    assert(str_dec_val(run) == v as int);
                }
            }
            return None;
        }
        val = val * 10 + d;
        proof {
            let sub1 = data@.subrange(pos as int, j + 1 as int);
            assert(sub1.drop_last() =~= data@.subrange(pos as int, j as int));
            assert(sub1.last() == data@[j as int]);
        }
        j = j + 1;
    }
    if j == pos {
        proof {
            assert forall|v: u64, end: int| #[trigger] dec_run_at(data@, pos as int, v, end)
                implies false by {
                let run = data@.subrange(pos as int, end);
                lemma_run_digits(run, v);
                assert(is_digit(run[0]));
                assert(is_digit(data@[pos as int]));
            }
        }
        return None;
    }
    if j - pos > 1 {
        let first = data.get_char(pos);
        if first == '0' {
            proof {
                assert forall|v: u64, end: int| #[trigger] dec_run_at(data@, pos as int, v, end)
                    implies false by {
                    let run = data@.subrange(pos as int, end);
                    lemma_run_digits(run, v);
                    assert(end == j) by {
                        lemma_run_end_unique(data@, pos as int, j as int, end);
                    }
                    assert(run.len() > 1);
                    assert(dec_of(v as int).len() > 1);
                    assert(v >= 10) by {
                        if v < 10 {
                            assert(dec_of(v as int) == seq![crate::hex::hex_char(v as int)]);
                        }
                    }
                    crate::numfmt::lemma_dec_of_first(v as int);
                    assert(run[0] == data@[pos as int]);
                }
            }
            return None;
        }
    }
    proof {
        let run = data@.subrange(pos as int, j as int);
        assert(run.len() >= 1);
        assert(run[0] == data@[pos as int]);
        assert(forall|t: int| 0 <= t < run.len() ==> is_digit(#[trigger] run[t]));
        lemma_dec_canon(run);
        assert forall|v: u64, end: int| #[trigger] dec_run_at(data@, pos as int, v, end)
            implies Some((val, j)) == Some((v, end as usize)) by {
            lemma_run_digits(data@.subrange(pos as int, end), v);
            lemma_run_end_unique(data@, pos as int, j as int, end);
            assert(data@.subrange(pos as int, end) == dec_of(v as int));
            crate::numfmt::lemma_dec_round_trip(v as int);
            assert(val as int == str_dec_val(dec_of(v as int)));
            assert(val == v);
        }
    }
    Some((val, j))
}

/// Two positions that both end a digit run starting at `pos` coincide.
proof fn lemma_run_end_unique(data: Seq<char>, pos: int, j: int, end: int)
    requires
        0 <= pos <= j <= data.len(),
        forall|t: int| pos <= t < j ==> is_digit(#[trigger] data[t]),
        j == data.len() || !is_digit(data[j]),
        pos < end <= data.len(),
        forall|t: int| 0 <= t < end - pos ==> is_digit(#[trigger] data.subrange(pos, end)[t]),
        end == data.len() || !is_digit(data[end]),
    ensures
        end == j,
{
    if end < j {
        assert(is_digit(data[end]));
        assert(false);
    }
    if end > j {
        assert(is_digit(data.subrange(pos, end)[j - pos]));
        assert(is_digit(data[j]));
        assert(false);
    }
}

/// Reads a record back from its canonical JSON text. Every failure —
/// missing or reordered fields, malformed numbers, trailing bytes — is
/// invalid data, never not-found; and every canonical text is read back as
/// the record it renders.
#[verifier::rlimit(100)]
pub fn parse_metadata(data: &str) -> (r: Result<FileMetadata, StorageError>)
    ensures
        match r {
            Ok(m) => m.wf() && (exists|vs: Seq<char>|
                rfc3339_val(vs) == Some(m.version)
                    && data@ == meta_json_with(vs, m.checksum@, m.compression,
                        m.decompressed_size as int)),
            Err(e) => e == StorageError::InvalidData,
        },
        forall|m2: FileMetadata| #[trigger] canonical_meta(data@, m2) ==> {
            &&& r is Ok
            &&& r->Ok_0.version == m2.version
            &&& r->Ok_0.checksum@ == m2.checksum@
            &&& r->Ok_0.compression == m2.compression
            &&& r->Ok_0.decompressed_size == m2.decompressed_size
        },
{
    proof {
        reveal_strlit("{\"version\":\"");
        reveal_strlit("\",\"checksum\":[");
        reveal_strlit("],\"compression\":\"");
        reveal_strlit("\",\"decompressed_size\":");
        reveal_strlit("}");
        reveal_strlit("None");
        reveal_strlit("Gzip");
        reveal_strlit(",");
    }
    let n = data.unicode_len();
    let p0 = match expect_lit(data, 0, "{\"version\":\"") {
        Some(p) => p,
        None => {
            proof {
                assert forall|m2: FileMetadata| #[trigger] canonical_meta(data@, m2)
                    implies false by {
                    lemma_canonical_structure(data@, m2);
                }
            }
            return Err(StorageError::InvalidData);
        },
    };
    let vend = match find_quote(data, p0) {
        Some(j) => j,
        None => {
            proof {
                assert forall|m2: FileMetadata| #[trigger] canonical_meta(data@, m2)
                    implies false by {
                    lemma_canonical_structure(data@, m2);
                    assert(data@[vs_end_of(m2)] == '"');
                }
            }
            return Err(StorageError::InvalidData);
        },
    };
    proof {
        assert forall|m2: FileMetadata| #[trigger] canonical_meta(data@, m2)
            implies vend as int == vs_end_of(m2) by {
            lemma_canonical_structure(data@, m2);
            if (vend as int) < vs_end_of(m2) {
                assert(data@[vend as int] != '"');
            }
            if (vend as int) > vs_end_of(m2) {
                assert(data@[vs_end_of(m2)] == '"');
            }
        }
    }
    let vstr = data.substring_char(p0, vend);
    let version = match parse_version_checked(vstr) {
        Some(t) => t,
        None => {
            proof {
                assert forall|m2: FileMetadata| #[trigger] canonical_meta(data@, m2)
                    implies false by {
                    lemma_canonical_structure(data@, m2);
                    assert(vstr@ == rfc3339_of(m2.version));
                }
            }
            return Err(StorageError::InvalidData);
        },
    };
    let p1 = match expect_lit(data, vend, "\",\"checksum\":[") {
        Some(p) => p,
        None => {
            proof {
                assert forall|m2: FileMetadata| #[trigger] canonical_meta(data@, m2)
                    implies false by {
                    lemma_canonical_structure(data@, m2);
                    assert(data@.subrange(vs_end_of(m2), cl_start_of(m2))
                        == "\",\"checksum\":["@);
                }
            }
            return Err(StorageError::InvalidData);
        },
    };
    let ghost list_start = p1 as int;
    let mut ck: [u8; 32] = [0u8; 32];
    let mut pos: usize = p1;
    let mut k: usize = 0;
    proof {
        assert forall|m2: FileMetadata| #[trigger] canonical_meta(data@, m2)
            implies list_start == cl_start_of(m2) by {
            lemma_canonical_structure(data@, m2);
        }
    }
    while k < 32
        invariant
            k <= 32,
            0 <= list_start <= pos <= data@.len(),
            ","@ == seq![','],
            ck@.len() == 32,
            data@.subrange(list_start, pos as int) == checksum_list(ck@.subrange(0, k as int)),
            forall|m2: FileMetadata| #[trigger] canonical_meta(data@, m2) ==> {
                &&& list_start == cl_start_of(m2)
                &&& ck@.subrange(0, k as int) == m2.checksum@.subrange(0, k as int)
                &&& pos as int == cl_start_of(m2)
                    + checksum_list(m2.checksum@.subrange(0, k as int)).len() as int
            },
        decreases 32 - k,
    {
        let ghost pos_before = pos as int;
        proof {
            assert forall|m2: FileMetadata| #[trigger] canonical_meta(data@, m2)
                implies data@.subrange(pos as int, cl_end_of(m2))
                    == cl_from(m2.checksum@, k as int)
                    && cl_from(m2.checksum@, k as int).len() as int
                        == cl_end_of(m2) - pos as int by {
                lemma_canonical_structure(data@, m2);
                lemma_cl_split(m2.checksum@, k as int);
                let a = checksum_list(m2.checksum@.subrange(0, k as int));
                let b = cl_from(m2.checksum@, k as int);
                assert(data@.subrange(cl_start_of(m2), cl_end_of(m2)) == a + b);
                assert(data@.subrange(pos as int, cl_end_of(m2)) =~= b);
            }
        }
        if k > 0 {
            pos = match expect_lit(data, pos, ",") {
                Some(p) => p,
                None => {
                    proof {
                        assert forall|m2: FileMetadata| #[trigger] canonical_meta(data@, m2)
                            implies false by {
                            lemma_canonical_structure(data@, m2);
                            let b = cl_from(m2.checksum@, k as int);
                            assert(cl_end_of(m2) <= data@.len());
                            assert(b.len() >= 1);
                            assert(b[0] == ',');
                            assert(data@[pos_before] == b[0]);
                            assert(data@.subrange(pos_before, pos_before + 1) =~= ","@);
                        }
                    }
                    return Err(StorageError::InvalidData);
                },
            };
        }
        let ghost pos_comma_end = pos as int;
        proof {
            assert forall|m2: FileMetadata| #[trigger] canonical_meta(data@, m2)
                implies dec_run_at(
                    data@,
                    pos_comma_end,
                    m2.checksum@[k as int] as u64,
                    pos_comma_end + dec_of(m2.checksum@[k as int] as int).len() as int,
                ) by {
                lemma_canonical_structure(data@, m2);
                assert((m2.checksum@[k as int] as u64) as int == m2.checksum@[k as int] as int);
                let b = cl_from(m2.checksum@, k as int);
                let d = dec_of(m2.checksum@[k as int] as int);
                let rest = cl_from(m2.checksum@, k + 1 as int);
                assert(data@.subrange(pos_before, cl_end_of(m2)) == b);
                assert(cl_end_of(m2) <= data@.len());
                assert(b.len() == cl_end_of(m2) - pos_before);
                assert forall|u: int| 0 <= u < b.len() implies data@[pos_before + u] == b[u] by {
                    assert(data@.subrange(pos_before, cl_end_of(m2))[u] == data@[pos_before + u]);
                }
                if k > 0 {
                    assert(b =~= seq![','] + d + rest);
                    assert(pos_comma_end == pos_before + 1);
                } else {
                    assert(b =~= Seq::<char>::empty() + d + rest);
                    assert(pos_comma_end == pos_before);
                }
                lemma_run_digits(d, m2.checksum@[k as int] as u64);
                let off = pos_comma_end - pos_before;
                assert forall|t: int| 0 <= t < d.len()
                    implies data@.subrange(pos_comma_end, pos_comma_end + d.len() as int)[t]
                        == d[t] by {
                    assert(b[off + t] == d[t]);
                    assert(data@[pos_comma_end + t] == b[off + t]);
                }
                assert(data@.subrange(pos_comma_end, pos_comma_end + d.len() as int) =~= d);
                let after = pos_comma_end + d.len() as int;
                if k + 1 < 32 {
                    assert(rest.len() >= 1);
                    assert(rest[0] == ',');
                    assert(b[off + d.len() as int] == rest[0]);
                    assert(data@[after] == ',');
                    assert(!is_digit(','));
                    assert(after < cl_end_of(m2) <= data@.len());
                } else {
                    assert(rest =~= Seq::<char>::empty());
                    assert(after == cl_end_of(m2));
                    assert(data@.subrange(cl_end_of(m2), co_start_of(m2))[0] == data@[after]);
                    assert(data@[after] == "],\"compression\":\""@[0]);
                    reveal_strlit("],\"compression\":\"");
                    assert(data@[after] == ']');
                    assert(!is_digit(']'));
                    assert(after < data@.len());
                }
            }
        }
        let (v, p) = match parse_dec_run(data, pos) {
            Some(x) => x,
            None => {
                proof {
                    assert forall|m2: FileMetadata| #[trigger] canonical_meta(data@, m2)
                        implies false by {
                    }
                }
                return Err(StorageError::InvalidData);
            },
        };
        if v > 255 {
            proof {
                assert forall|m2: FileMetadata| #[trigger] canonical_meta(data@, m2)
                    implies false by {
                }
            }
            return Err(StorageError::InvalidData);
        }
        let ghost ck_old = ck@;
        ck[k] = v as u8;
        pos = p;
        proof {
            assert(ck@ == ck_old.update(k as int, v as u8));
            let pref = ck@.subrange(0, k as int);
            assert(pref =~= ck_old.subrange(0, k as int));
            let sub1 = ck@.subrange(0, k + 1 as int);
            assert(sub1.drop_last() =~= pref);
            assert(sub1.last() == v as u8);
            assert(data@.subrange(list_start, pos_comma_end) =~= data@.subrange(list_start, pos_before)
                + data@.subrange(pos_before, pos_comma_end));
            assert(data@.subrange(list_start, p as int) =~= data@.subrange(list_start, pos_comma_end)
                + data@.subrange(pos_comma_end, p as int));
            if k == 0 {
                assert(checksum_list(sub1) == dec_of(sub1[0] as int));
                assert(data@.subrange(list_start, p as int) =~= checksum_list(sub1));
            } else {
                assert(checksum_list(sub1) == checksum_list(pref) + seq![','] + dec_of(v as int));
                assert(data@.subrange(pos_before, pos_comma_end) == ","@);
                assert(data@.subrange(list_start, p as int) =~= checksum_list(sub1));
            }
            assert forall|m2: FileMetadata| #[trigger] canonical_meta(data@, m2)
                implies ck@.subrange(0, k + 1 as int) == m2.checksum@.subrange(0, k + 1 as int)
                    && pos as int == cl_start_of(m2)
                        + checksum_list(m2.checksum@.subrange(0, k + 1 as int)).len() as int by {
                assert(v as u8 == m2.checksum@[k as int]);
                assert(ck@.subrange(0, k + 1 as int) =~= m2.checksum@.subrange(0, k + 1 as int));
                let msub1 = m2.checksum@.subrange(0, k + 1 as int);
                let mpref = m2.checksum@.subrange(0, k as int);
                assert(msub1.drop_last() =~= mpref);
                assert(msub1.last() == m2.checksum@[k as int]);
                if k == 0 {
                    assert(checksum_list(msub1) == dec_of(msub1[0] as int));
                } else {
                    assert(checksum_list(msub1) == checksum_list(mpref) + seq![',']
                        + dec_of(m2.checksum@[k as int] as int));
                }
            }
        }
        k = k + 1;
    }
    let p2 = match expect_lit(data, pos, "],\"compression\":\"") {
        Some(p) => p,
        None => {
            proof {
                assert forall|m2: FileMetadata| #[trigger] canonical_meta(data@, m2)
                    implies false by {
                    lemma_canonical_structure(data@, m2);
                    assert(m2.checksum@.subrange(0, 32) =~= m2.checksum@);
                    assert(pos as int == cl_end_of(m2));
                }
            }
            return Err(StorageError::InvalidData);
        },
    };
    proof {
        assert forall|m2: FileMetadata| #[trigger] canonical_meta(data@, m2)
            implies p2 as int == co_start_of(m2) by {
            lemma_canonical_structure(data@, m2);
            assert(m2.checksum@.subrange(0, 32) =~= m2.checksum@);
        }
    }
    let (compression, p3): (Compression, usize) = match expect_lit(data, p2, "None") {
        Some(p) => (Compression::Uncompressed, p),
        None => {
            match expect_lit(data, p2, "Gzip") {
                Some(p) => (Compression::Gzip, p),
                None => {
                    proof {
                        reveal_strlit("None");
                        reveal_strlit("Gzip");
                        assert forall|m2: FileMetadata| #[trigger] canonical_meta(data@, m2)
                            implies false by {
                            lemma_canonical_structure(data@, m2);
                            assert(compression_label(m2.compression).len() == 4);
                            assert(co_end_of(m2) <= data@.len());
                            assert(data@.subrange(p2 as int, p2 + 4)
                                == compression_label(m2.compression));
                        }
                    }
                    return Err(StorageError::InvalidData);
                },
            }
        },
    };
    proof {
        reveal_strlit("None");
        reveal_strlit("Gzip");
        assert forall|m2: FileMetadata| #[trigger] canonical_meta(data@, m2)
            implies p3 as int == co_end_of(m2) && compression == m2.compression by {
            lemma_canonical_structure(data@, m2);
            assert(compression_label(m2.compression).len() == 4);
            assert(co_end_of(m2) <= data@.len());
            assert(data@.subrange(p2 as int, p2 + 4) == compression_label(m2.compression));
            match compression {
                Compression::Uncompressed => {
                    if m2.compression == Compression::Gzip {
                        assert("None"@[0] != "Gzip"@[0]);
                        assert(false);
                    }
                },
                Compression::Gzip => {
                    if m2.compression == Compression::Uncompressed {
                        assert(data@.subrange(p2 as int, p2 + 4) == "None"@);
                        assert(false);
                    }
                },
            }
        }
    }
    let p4 = match expect_lit(data, p3, "\",\"decompressed_size\":") {
        Some(p) => p,
        None => {
            proof {
                assert forall|m2: FileMetadata| #[trigger] canonical_meta(data@, m2)
                    implies false by {
                    lemma_canonical_structure(data@, m2);
                }
            }
            return Err(StorageError::InvalidData);
        },
    };
    proof {
        assert forall|m2: FileMetadata| #[trigger] canonical_meta(data@, m2)
            implies dec_run_at(data@, p4 as int, m2.decompressed_size as u64, ds_end_of(m2)) by {
            lemma_canonical_structure(data@, m2);
            assert(data@[ds_end_of(m2)] == "}"@[0]);
        }
    }
    let (ds, p5) = match parse_dec_run(data, p4) {
        Some(x) => x,
        None => {
            proof {
                assert forall|m2: FileMetadata| #[trigger] canonical_meta(data@, m2)
                    implies false by {
                }
            }
            return Err(StorageError::InvalidData);
        },
    };
    if ds > usize::MAX as u64 {
        proof {
            assert forall|m2: FileMetadata| #[trigger] canonical_meta(data@, m2)
                implies false by {
            }
        }
        return Err(StorageError::InvalidData);
    }
    let p6 = match expect_lit(data, p5, "}") {
        Some(p) => p,
        None => {
            proof {
                assert forall|m2: FileMetadata| #[trigger] canonical_meta(data@, m2)
                    implies false by {
                    lemma_canonical_structure(data@, m2);
                }
            }
            return Err(StorageError::InvalidData);
        },
    };
    if p6 != n {
        proof {
            assert forall|m2: FileMetadata| #[trigger] canonical_meta(data@, m2)
                implies false by {
                lemma_canonical_structure(data@, m2);
            }
        }
        return Err(StorageError::InvalidData);
    }
    let m = FileMetadata {
        version: version,
        checksum: ck,
        compression: compression,
        decompressed_size: ds as usize,
    };
    proof {
        let vs = data@.subrange(p0 as int, vend as int);
        assert(vstr@ == vs);
        assert(ck@.subrange(0, 32) =~= ck@);
        assert(data@ =~= meta_json_with(vs, m.checksum@, m.compression, m.decompressed_size as int));
        assert forall|m2: FileMetadata| #[trigger] canonical_meta(data@, m2)
            implies m.version == m2.version && m.checksum@ == m2.checksum@
                && m.compression == m2.compression
                && m.decompressed_size == m2.decompressed_size by {
            lemma_canonical_structure(data@, m2);
            assert(vs == rfc3339_of(m2.version));
            assert(m2.checksum@.subrange(0, 32) =~= m2.checksum@);
            assert(ds == m2.decompressed_size as u64);
        }
    }
    Ok(m)
}

} // verus!
