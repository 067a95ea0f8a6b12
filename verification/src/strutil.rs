//! Small verified string helpers: logical paths are arbitrary UTF-8, so
//! comparisons walk characters.

use vstd::prelude::*;

verus! {

use vstd::string::StrSliceExecFns;

/// Character-for-character equality of two string slices.
pub fn str_eq(a: &str, b: &str) -> (r: bool)
    ensures
        r == (a@ == b@),
{
    let an = a.unicode_len();
    let bn = b.unicode_len();
    if an != bn {
        return false;
    }
    let mut i: usize = 0;
    while i < an
        invariant
            i <= an,
            an == a@.len(),
            an == b@.len(),
            forall|k: int| 0 <= k < i ==> a@[k] == b@[k],
        decreases an - i,
    {
        if a.get_char(i) != b.get_char(i) {
            return false;
        }
        i = i + 1;
    }
    proof {
        assert(a@ =~= b@);
    }
    true
}

/// Whether `p` continues `pre` below a directory boundary: `pre` is empty,
/// or `p` extends `pre` and the continuation starts at a path separator.
pub open spec fn under_prefix(p: Seq<char>, pre: Seq<char>) -> bool {
    ||| pre.len() == 0
    ||| (p.len() > pre.len() && p.subrange(0, pre.len() as int) == pre
        && (pre[pre.len() - 1] == '/' || p[pre.len() as int] == '/'))
}

/// Decides `under_prefix` for string slices.
pub fn is_under_prefix(p: &str, pre: &str) -> (r: bool)
    ensures
        r == under_prefix(p@, pre@),
{
    let pn = pre.unicode_len();
    if pn == 0 {
        return true;
    }
    let n = p.unicode_len();
    if n <= pn {
        proof {
            assert(!under_prefix(p@, pre@));
        }
        return false;
    }
    let mut i: usize = 0;
    while i < pn
        invariant
            i <= pn,
            pn == pre@.len(),
            n == p@.len(),
            n > pn,
            forall|k: int| 0 <= k < i ==> p@[k] == pre@[k],
        decreases pn - i,
    {
        if p.get_char(i) != pre.get_char(i) {
            proof {
                assert(p@.subrange(0, pre@.len() as int)[i as int] == p@[i as int]);
            }
            return false;
        }
        i = i + 1;
    }
    proof {
        assert(p@.subrange(0, pre@.len() as int) =~= pre@);
    }
    if pre.get_char(pn - 1) == '/' {
        return true;
    }
    p.get_char(pn) == '/'
}

} // verus!
