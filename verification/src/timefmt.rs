//! Version timestamps. A version is a UTC instant in whole milliseconds;
//! the metadata record stores it as an RFC 3339 string, produced and parsed
//! by an outside crate.

use vstd::prelude::*;

verus! {

/// Smallest version timestamp (milliseconds) the engine represents:
/// 0000-01-01T00:00:00Z. The window is the one whose RFC 3339 rendering
/// carries a four-digit year, which is all the parser reads back.
pub const VERSION_MILLIS_MIN: i64 = -62167219200000;

/// Largest version timestamp (milliseconds) the engine represents:
/// 9999-12-31T23:59:59.999Z.
pub const VERSION_MILLIS_MAX: i64 = 253402300799999;

/// The RFC 3339 rendering (UTC, millisecond precision, `Z` suffix) of a
/// timestamp in milliseconds.
pub uninterp spec fn rfc3339_of(t: i64) -> Seq<char>;

/// The timestamp in milliseconds denoted by an RFC 3339 string, `None` on a
/// malformed or out-of-range string.
pub uninterp spec fn rfc3339_val(s: Seq<char>) -> Option<i64>;

/// What holds of every version string the formatter produces: its value
/// reads back, it is not empty, and it contains no quote character.
pub open spec fn version_string_ok(t: i64) -> bool {
    &&& rfc3339_val(rfc3339_of(t)) == Some(t)
    &&& rfc3339_of(t).len() > 0
    &&& forall|i: int| 0 <= i < rfc3339_of(t).len() ==> rfc3339_of(t)[i] != '"'
}

/// Relies on chrono's RFC 3339 formatting of a UTC timestamp: the rendering
/// depends on the timestamp alone and is ASCII without a quote character.
/// Within the admitted window the year has exactly four digits, so chrono's
/// RFC 3339 parser (which reads only four-digit years) reads the same
/// instant back.
#[verifier::external_body]
pub(crate) fn format_version(t: i64) -> (r: String)
    requires
        VERSION_MILLIS_MIN <= t <= VERSION_MILLIS_MAX,
    ensures
        r@ == rfc3339_of(t),
        rfc3339_val(r@) == Some(t),
        vstd::utf8::is_ascii_chars(r@),
        forall|i: int| 0 <= i < r@.len() ==> r@[i] != '"',
        r@.len() > 0,
{
    chrono::DateTime::<chrono::Utc>::from_timestamp_millis(t)
        .expect("timestamp is inside chrono's documented range")
        .to_rfc3339_opts(chrono::SecondsFormat::Millis, true)
}

/// Relies on chrono's RFC 3339 parser: the result depends on the input
/// characters alone; malformed strings are rejected, and any accepted
/// instant fits a millisecond count.
#[verifier::external_body]
pub(crate) fn parse_version(s: &str) -> (r: Option<i64>)
    ensures
        r == rfc3339_val(s@),
{
    match chrono::DateTime::parse_from_rfc3339(s) {
        Ok(dt) => Some(dt.to_utc().timestamp_millis()),
        Err(_) => None,
    }
}

/// Parses an RFC 3339 string and keeps only instants the engine can
/// represent (and re-render).
pub fn parse_version_checked(s: &str) -> (r: Option<i64>)
    ensures
        match r {
            Some(t) => rfc3339_val(s@) == Some(t)
                && VERSION_MILLIS_MIN <= t <= VERSION_MILLIS_MAX,
            None => rfc3339_val(s@) is None
                || !(VERSION_MILLIS_MIN <= rfc3339_val(s@)->Some_0 <= VERSION_MILLIS_MAX),
        },
{
    match parse_version(s) {
        Some(t) => {
            if VERSION_MILLIS_MIN <= t && t <= VERSION_MILLIS_MAX {
                Some(t)
            } else {
                None
            }
        },
        None => None,
    }
}

} // verus!
