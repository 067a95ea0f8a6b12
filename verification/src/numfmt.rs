//! Decimal rendering and parsing: refcounts, sizes, and listing timestamps
//! travel as base-10 ASCII.

use vstd::prelude::*;

use crate::hex::{hex_char, hex_char_str};

verus! {

use vstd::string::StrSliceExecFns;
use vstd::string::StringExecFns;

pub open spec fn is_digit(c: char) -> bool {
    '0' <= c && c <= '9'
}

pub open spec fn digit_val(c: char) -> int {
    c as int - '0' as int
}

/// The base-10 rendering of a nonnegative integer, no sign, no leading
/// zeros (a lone zero for 0).
pub open spec fn dec_of(n: int) -> Seq<char>
    decreases n,
{
    if n < 10 {
        seq![hex_char(n)]
    } else {
        dec_of(n / 10).push(hex_char(n % 10))
    }
}

/// The base-10 rendering of an integer, with a leading minus when negative.
pub open spec fn dec_i64_of(n: int) -> Seq<char> {
    if n < 0 {
        seq!['-'] + dec_of(-n)
    } else {
        dec_of(n)
    }
}

/// A nonempty, all-digit character sequence.
pub open spec fn is_dec_seq(s: Seq<char>) -> bool {
    s.len() >= 1 && forall|i: int| 0 <= i < s.len() ==> is_digit(#[trigger] s[i])
}

/// The value of an all-digit character sequence.
pub open spec fn str_dec_val(s: Seq<char>) -> int
    decreases s.len(),
{
    if s.len() == 0 {
        0
    } else {
        str_dec_val(s.drop_last()) * 10 + digit_val(s.last())
    }
}

pub broadcast proof fn lemma_dec_of_digits(n: int)
    requires
        n >= 0,
    ensures
        #![trigger dec_of(n)]
        dec_of(n).len() >= 1,
        forall|i: int| 0 <= i < dec_of(n).len() ==> is_digit(#[trigger] dec_of(n)[i]),
    decreases n,
{
    if n >= 10 {
        lemma_dec_of_digits(n / 10);
    }
}

/// Rendering then reading a nonnegative integer gives it back.
pub proof fn lemma_dec_round_trip(n: int)
    requires
        n >= 0,
    ensures
        str_dec_val(dec_of(n)) == n,
    decreases n,
{
    if n < 10 {
        let s = dec_of(n);
        assert(s.len() == 1);
        assert(s.drop_last() =~= Seq::<char>::empty());
        assert(str_dec_val(Seq::<char>::empty()) == 0);
        assert(s.last() == hex_char(n));
        assert(str_dec_val(s) == str_dec_val(s.drop_last()) * 10 + digit_val(s.last()));
        assert(digit_val(hex_char(n)) == n);
    } else {
        lemma_dec_round_trip(n / 10);
        let s = dec_of(n);
        assert(s.drop_last() =~= dec_of(n / 10));
        assert(s.last() == hex_char(n % 10));
        assert(str_dec_val(s) == str_dec_val(s.drop_last()) * 10 + digit_val(s.last()));
        assert(digit_val(hex_char(n % 10)) == n % 10);
        assert(str_dec_val(s) == (n / 10) * 10 + n % 10);
    }
}

/// A digit string's value only grows as more digits are read.
pub proof fn lemma_dec_prefix_mono(s: Seq<char>, i: int, j: int)
    requires
        0 <= i <= j <= s.len(),
        forall|k: int| 0 <= k < s.len() ==> is_digit(#[trigger] s[k]),
    ensures
        str_dec_val(s.subrange(0, i)) <= str_dec_val(s.subrange(0, j)),
    decreases j - i,
{
    if i < j {
        lemma_dec_prefix_mono(s, i, j - 1);
        let sub = s.subrange(0, j);
        assert(sub.drop_last() =~= s.subrange(0, j - 1));
        assert(str_dec_val(s.subrange(0, j - 1)) >= 0) by {
            lemma_dec_val_nonneg(s.subrange(0, j - 1));
        }
    }
}

pub proof fn lemma_dec_val_nonneg(s: Seq<char>)
    requires
        forall|k: int| 0 <= k < s.len() ==> is_digit(#[trigger] s[k]),
    ensures
        str_dec_val(s) >= 0,
    decreases s.len(),
{
    if s.len() > 0 {
        assert(s.drop_last() =~= s.subrange(0, s.len() - 1));
        lemma_dec_val_nonneg(s.drop_last());
    }
}

/// A digit string that does not start with zero has a positive value.
pub proof fn lemma_dec_val_pos(s: Seq<char>)
    requires
        s.len() >= 1,
        forall|k: int| 0 <= k < s.len() ==> is_digit(#[trigger] s[k]),
        s[0] != '0',
    ensures
        str_dec_val(s) >= 1,
    decreases s.len(),
{
    if s.len() == 1 {
        assert(s.last() == s[0]);
    } else {
        assert(s.drop_last()[0] == s[0]);
        lemma_dec_val_pos(s.drop_last());
    }
}

/// A digit string without a redundant leading zero is the canonical
/// rendering of its value.
pub proof fn lemma_dec_canon(s: Seq<char>)
    requires
        s.len() >= 1,
        forall|k: int| 0 <= k < s.len() ==> is_digit(#[trigger] s[k]),
        s.len() > 1 ==> s[0] != '0',
    ensures
        dec_of(str_dec_val(s)) == s,
    decreases s.len(),
{
    let v = str_dec_val(s);
    if s.len() == 1 {
        assert(s.drop_last() =~= Seq::<char>::empty());
        assert(str_dec_val(Seq::<char>::empty()) == 0);
        assert(s.last() == s[0]);
        assert(v == str_dec_val(s.drop_last()) * 10 + digit_val(s.last()));
        assert(v == digit_val(s[0]));
        assert(hex_char(v) == s[0]);
        assert(dec_of(v) =~= s);
    } else {
        let pre = s.drop_last();
        let d = digit_val(s.last());
        assert(pre[0] == s[0]);
        lemma_dec_canon(pre);
        lemma_dec_val_pos(pre);
        lemma_dec_val_nonneg(pre);
        assert(v == str_dec_val(pre) * 10 + d);
        assert(v >= 10);
        assert(v / 10 == str_dec_val(pre) && v % 10 == d) by (nonlinear_arith)
            requires
                v == str_dec_val(pre) * 10 + d,
                0 <= d < 10,
                str_dec_val(pre) >= 0,
        ;
        assert(hex_char(v % 10) == s.last());
        assert(dec_of(v) == dec_of(v / 10).push(hex_char(v % 10)));
        assert(dec_of(v) =~= s);
    }
}

/// A rendering of ten or more never starts with zero.
pub proof fn lemma_dec_of_first(n: int)
    requires
        n >= 10,
    ensures
        dec_of(n)[0] != '0',
    decreases n,
{
    lemma_dec_of_digits(n / 10);
    assert(dec_of(n) == dec_of(n / 10).push(hex_char(n % 10)));
    assert(dec_of(n)[0] == dec_of(n / 10)[0]);
    if n / 10 >= 10 {
        lemma_dec_of_first(n / 10);
    } else {
        assert(1 <= n / 10 < 10);
        assert(dec_of(n / 10) == seq![hex_char(n / 10)]);
    }
}

/// Renders a nonnegative integer in base 10.
pub fn u64_to_dec(n: u64) -> (r: String)
    ensures
        r@ == dec_of(n as int),
    decreases n,
{
    if n < 10 {
        String::from_str(hex_char_str(n as u8))
    } else {
        let mut s = u64_to_dec(n / 10);
        s.append(hex_char_str((n % 10) as u8));
        proof {
            assert(s@ =~= dec_of(n as int));
        }
        s
    }
}

/// Renders an integer in base 10, with a minus sign when negative.
pub fn i64_to_dec(n: i64) -> (r: String)
    requires
        n > i64::MIN,
    ensures
        r@ == dec_i64_of(n as int),
{
    if n < 0 {
        proof {
            reveal_strlit("-");
        }
        let mut s = String::from_str("-");
        let m = u64_to_dec((-n) as u64);
        s.append(m.as_str());
        proof {
            assert(s@ =~= dec_i64_of(n as int));
        }
        s
    } else {
        u64_to_dec(n as u64)
    }
}

/// Parses an unsigned base-10 integer: the whole string must be digits and
/// the value must fit. (A sign is rejected.)
pub fn parse_dec_usize(data: &str) -> (r: Option<usize>)
    ensures
        match r {
            Some(v) => is_dec_seq(data@) && v as int == str_dec_val(data@)
                && str_dec_val(data@) <= usize::MAX,
            None => !is_dec_seq(data@) || str_dec_val(data@) > usize::MAX,
        },
{
    let n = data.unicode_len();
    if n == 0 {
        return None;
    }
    let mut val: usize = 0;
    let mut i: usize = 0;
    while i < n
        invariant
            i <= n,
            n == data@.len(),
            forall|k: int| 0 <= k < i ==> is_digit(#[trigger] data@[k]),
            val as int == str_dec_val(data@.subrange(0, i as int)),
        decreases n - i,
    {
        let c = data.get_char(i);
        let cv = c as u32;
        if cv < 48 || cv > 57 {
            proof {
                assert(!is_digit(data@[i as int]));
            }
            return None;
        }
        let d = (cv - 48) as usize;
        if val > (usize::MAX - d) / 10 {
            proof {
                let sub1 = data@.subrange(0, i + 1 as int);
                assert(sub1.drop_last() =~= data@.subrange(0, i as int));
                assert(str_dec_val(sub1) == val * 10 + d);
                assert(str_dec_val(sub1) > usize::MAX);
                if i + 1 < n {
                    if is_dec_seq(data@) {
                        lemma_dec_prefix_mono(data@, i + 1, n as int);
                        assert(data@.subrange(0, n as int) =~= data@);
                    }
                } else {
                    assert(data@.subrange(0, n as int) =~= data@);
                }
            }
            return None;
        }
        val = val * 10 + d;
        proof {
            let sub1 = data@.subrange(0, i + 1 as int);
            assert(sub1.drop_last() =~= data@.subrange(0, i as int));
        }
        i = i + 1;
    }
    proof {
        assert(data@.subrange(0, n as int) =~= data@);
    }
    Some(val)
}

} // verus!
