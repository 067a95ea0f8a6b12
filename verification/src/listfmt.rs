//! The listing response body: for each listed record, three
//! newline-terminated lines — the path, the version as whole Unix seconds,
//! and the decompressed size.

use vstd::prelude::*;

use crate::meta::{valid_version, FileMetadata};
use crate::numfmt::{dec_i64_of, dec_of, i64_to_dec, u64_to_dec};

verus! {

use vstd::string::StringExecFns;

/// Whole seconds of a millisecond timestamp, rounding toward minus
/// infinity (what a calendar timestamp does).
pub open spec fn secs_of_millis(v: int) -> int {
    v / 1000
}

pub open spec fn listing_line(path: Seq<char>, version: int, ds: int) -> Seq<char> {
    path + seq!['\n'] + dec_i64_of(secs_of_millis(version)) + seq!['\n'] + dec_of(ds) + seq!['\n']
}

pub open spec fn listing_body(entries: Seq<(Seq<char>, FileMetadata)>) -> Seq<char>
    decreases entries.len(),
{
    if entries.len() == 0 {
        Seq::empty()
    } else {
        listing_body(entries.drop_last()) + listing_line(
            entries.last().0,
            entries.last().1.version as int,
            entries.last().1.decompressed_size as int,
        )
    }
}

fn millis_to_secs(v: i64) -> (r: i64)
    requires
        valid_version(v),
    ensures
        r as int == secs_of_millis(v as int),
{
    if v >= 0 {
        ((v as u64) / 1000) as i64
    } else {
        let m: u64 = (-v) as u64;
        let up: u64 = (m + 999) / 1000;
        proof {
            assert((-(v as int)) == m as int);
            assert(up as int == (m as int + 999) / 1000);
            assert((v as int) / 1000 == -((m as int + 999) / 1000)) by (nonlinear_arith)
                requires
                    v < 0,
                    m as int == -(v as int),
            ;
        }
        -(up as i64)
    }
}

/// Renders a listing as the response body the adapter sends.
pub fn format_listing(entries: &Vec<(String, FileMetadata)>) -> (r: String)
    requires
        forall|i: int| 0 <= i < entries@.len() ==> (#[trigger] entries@[i]).1.wf(),
    ensures
        r@ == listing_body(entries@.map_values(|p: (String, FileMetadata)| (p.0@, p.1))),
{
    let ghost view_entries = entries@.map_values(|p: (String, FileMetadata)| (p.0@, p.1));
    let mut r = String::new();
    let mut i: usize = 0;
    proof {
        reveal_strlit("\n");
    }
    while i < entries.len()
        invariant
            i <= entries@.len(),
            forall|k: int| 0 <= k < entries@.len() ==> (#[trigger] entries@[k]).1.wf(),
            view_entries == entries@.map_values(|p: (String, FileMetadata)| (p.0@, p.1)),
            r@ == listing_body(view_entries.subrange(0, i as int)),
            "\n"@ == seq!['\n'],
        decreases entries@.len() - i,
    {
        let m = entries[i].1;
        r.append(entries[i].0.as_str());
        r.append("\n");
        let secs = millis_to_secs(m.version);
        let sd = i64_to_dec(secs);
        r.append(sd.as_str());
        r.append("\n");
        let zd = u64_to_dec(m.decompressed_size as u64);
        r.append(zd.as_str());
        r.append("\n");
        proof {
            let sub1 = view_entries.subrange(0, i + 1 as int);
            assert(sub1.drop_last() =~= view_entries.subrange(0, i as int));
            assert(sub1.last() == view_entries[i as int]);
            assert(view_entries[i as int].0 == entries@[i as int].0@);
            assert(view_entries[i as int].1 == entries@[i as int].1);
            assert(r@ =~= listing_body(sub1));
        }
        i = i + 1;
    }
    proof {
        assert(view_entries.subrange(0, view_entries.len() as int) =~= view_entries);
    }
    r
}

} // verus!
