//! Hexadecimal codec: 32-byte content hashes are rendered as 64-character
//! lowercase hex strings for filesystem names and the checksum header, and
//! parsed back from client-supplied header values.

use vstd::prelude::*;

verus! {

use vstd::string::StringSliceAdditionalSpecFns;

/// Numeric value of a hex digit given as a character code; 16 marks a
/// character that is not a hex digit.
pub open spec fn hex_val_code(c: int) -> int {
    if '0' as int <= c && c <= '9' as int {
        c - '0' as int
    } else if 'a' as int <= c && c <= 'f' as int {
        c - 'a' as int + 10
    } else if 'A' as int <= c && c <= 'F' as int {
        c - 'A' as int + 10
    } else {
        16
    }
}

pub open spec fn hex_digit_value(c: char) -> int {
    hex_val_code(c as int)
}

pub open spec fn is_hex_digit(c: char) -> bool {
    hex_digit_value(c) < 16
}

/// The lowercase hex digit for a value in 0..16.
pub open spec fn hex_char(v: int) -> char {
    if v == 0 { '0' }
    else if v == 1 { '1' }
    else if v == 2 { '2' }
    else if v == 3 { '3' }
    else if v == 4 { '4' }
    else if v == 5 { '5' }
    else if v == 6 { '6' }
    else if v == 7 { '7' }
    else if v == 8 { '8' }
    else if v == 9 { '9' }
    else if v == 10 { 'a' }
    else if v == 11 { 'b' }
    else if v == 12 { 'c' }
    else if v == 13 { 'd' }
    else if v == 14 { 'e' }
    else { 'f' }
}

/// Lowercase hex rendering of a byte sequence: two digits per byte, high
/// nibble first, no separators.
pub open spec fn hex_of_bytes(b: Seq<u8>) -> Seq<char>
    decreases b.len(),
{
    if b.len() == 0 {
        Seq::empty()
    } else {
        hex_of_bytes(b.drop_last()) + seq![
            hex_char(b.last() as int / 16),
            hex_char(b.last() as int % 16),
        ]
    }
}

pub broadcast proof fn lemma_hex_of_bytes_len(b: Seq<u8>)
    ensures
        #[trigger] hex_of_bytes(b).len() == 2 * b.len(),
    decreases b.len(),
{
    if b.len() > 0 {
        lemma_hex_of_bytes_len(b.drop_last());
    }
}

/// A character sequence is a well-formed hex rendering of `n` bytes.
pub open spec fn hex_seq_ok(s: Seq<char>, n: int) -> bool {
    &&& s.len() == 2 * n
    &&& forall|i: int| 0 <= i < s.len() ==> is_hex_digit(#[trigger] s[i])
}

/// The byte encoded at position `i` of a hex character sequence.
pub open spec fn hex_byte_at(s: Seq<char>, i: int) -> u8 {
    (hex_digit_value(s[2 * i]) * 16 + hex_digit_value(s[2 * i + 1])) as u8
}

pub(crate) fn hex_char_str(v: u8) -> (r: &'static str)
    requires
        v < 16,
    ensures
        r@ =~= seq![hex_char(v as int)],
        r.is_ascii(),
{
    if v == 0 { proof { reveal_strlit("0"); } "0" }
    else if v == 1 { proof { reveal_strlit("1"); } "1" }
    else if v == 2 { proof { reveal_strlit("2"); } "2" }
    else if v == 3 { proof { reveal_strlit("3"); } "3" }
    else if v == 4 { proof { reveal_strlit("4"); } "4" }
    else if v == 5 { proof { reveal_strlit("5"); } "5" }
    else if v == 6 { proof { reveal_strlit("6"); } "6" }
    else if v == 7 { proof { reveal_strlit("7"); } "7" }
    else if v == 8 { proof { reveal_strlit("8"); } "8" }
    else if v == 9 { proof { reveal_strlit("9"); } "9" }
    else if v == 10 { proof { reveal_strlit("a"); } "a" }
    else if v == 11 { proof { reveal_strlit("b"); } "b" }
    else if v == 12 { proof { reveal_strlit("c"); } "c" }
    else if v == 13 { proof { reveal_strlit("d"); } "d" }
    else if v == 14 { proof { reveal_strlit("e"); } "e" }
    else { proof { reveal_strlit("f"); } "f" }
}

/// Lowercase hex rendering of a byte slice.
pub fn bytes_to_hex(data: &[u8]) -> (r: String)
    ensures
        r@ == hex_of_bytes(data@),
        r.is_ascii(),
{
    let mut r = String::new();
    let mut i: usize = 0;
    while i < data.len()
        invariant
            i <= data.len(),
            r@ == hex_of_bytes(data@.subrange(0, i as int)),
            r.is_ascii(),
        decreases data.len() - i,
    {
        let b = data[i];
        let hi = hex_char_str(b / 16);
        let lo = hex_char_str(b % 16);
        r.append(hi);
        r.append(lo);
        proof {
            let sub1 = data@.subrange(0, i + 1 as int);
            assert(sub1.drop_last() =~= data@.subrange(0, i as int));
            assert(r@ =~= hex_of_bytes(sub1));
        }
        i = i + 1;
    }
    proof {
        assert(data@.subrange(0, data@.len() as int) =~= data@);
    }
    r
}

/// Numeric value of a hex digit given as an ASCII byte; 16 marks a byte
/// that is not a hex digit.
fn hex_val_of_ascii(b: u8) -> (v: u8)
    ensures
        v as int == hex_val_code(b as int),
{
    if b >= 48 && b <= 57 {
        b - 48
    } else if b >= 97 && b <= 102 {
        b - 97 + 10
    } else if b >= 65 && b <= 70 {
        b - 65 + 10
    } else {
        16
    }
}

/// Parses a fixed-size byte array from its hex rendering. Returns `None`
/// on a string of the wrong length or holding any non-hex character.
pub fn hex_to_byte_array<const N: usize>(data: &str) -> (r: Option<[u8; N]>)
    requires
        N <= usize::MAX / 2,
    ensures
        match r {
            Some(bytes) => {
                &&& hex_seq_ok(data@, N as int)
                &&& forall|i: int| 0 <= i < N ==> bytes@[i] == hex_byte_at(data@, i)
            },
            None => !hex_seq_ok(data@, N as int),
        },
{
    broadcast use vstd::string::is_ascii_spec_bytes;

    if !data.is_ascii() {
        proof {
            let j = choose|j: int| !(0 <= j < data@.len() ==> '\0' <= #[trigger] data@[j] <= '\u{7f}');
            if data@.len() == 2 * N {
                assert(!is_hex_digit(data@[j]));
            }
        }
        return None;
    }
    if data.unicode_len() != N * 2 {
        return None;
    }
    let mut out: [u8; N] = [0u8; N];
    let mut i: usize = 0;
    while i < N
        invariant
            i <= N,
            N <= usize::MAX / 2,
            data.is_ascii(),
            data@.len() == 2 * N,
            out@.len() == N,
            forall|j: int| 0 <= j < 2 * i ==> is_hex_digit(#[trigger] data@[j]),
            forall|k: int| 0 <= k < i ==> out@[k] == hex_byte_at(data@, k),
        decreases N - i,
    {
        let hb = data.get_ascii(2 * i);
        let lb = data.get_ascii(2 * i + 1);
        let hv = hex_val_of_ascii(hb);
        let lv = hex_val_of_ascii(lb);
        if hv >= 16 || lv >= 16 {
            proof {
                let c = if hv >= 16 { data@[2 * i as int] } else { data@[2 * i + 1 as int] };
                assert(!is_hex_digit(c));
            }
            return None;
        }
        out[i] = hv * 16 + lv;
        i = i + 1;
    }
    Some(out)
}

} // verus!
