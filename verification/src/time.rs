//! Timestamps and their text forms.
//!
//! A timestamp is a whole number of seconds since the Unix epoch. Rendering
//! one as RFC 3339 text and reading that text back are delegated to chrono;
//! the text itself is named by the two abstract functions below.

use vstd::prelude::*;

verus! {

/// Earliest timestamp a record may carry: 0000-01-01T00:00:00 UTC, the
/// first instant whose RFC 3339 year needs no sign.
pub const TS_MIN: i64 = -62167219200;

/// Latest timestamp a record may carry: 9999-12-31T23:59:59 UTC, the last
/// instant whose RFC 3339 year needs no sign.
pub const TS_MAX: i64 = 253402300799;

/// A timestamp the library accepts: any instant with a four-digit year.
/// Keeping timestamps in `TS_MIN ..= TS_MAX` keeps every chrono conversion
/// in range and every rendering canonical.
pub open spec fn valid_ts(t: int) -> bool {
    TS_MIN as int <= t <= TS_MAX as int
}

/// The RFC 3339 rendering of the timestamp `t`, as chrono produces it.
pub uninterp spec fn rfc3339_of(t: int) -> Seq<char>;

/// What chrono's datetime parser makes of the text `s`: the timestamp in
/// seconds, or `None` where the text is not a datetime.
pub uninterp spec fn ts_parse(s: Seq<char>) -> Option<i64>;

/// The `YYYY-MM-DD` rendering of the day the timestamp `t` falls on.
pub uninterp spec fn date_of(t: int) -> Seq<char>;

/// Holds of any RFC 3339 rendering: non-empty, and free of newlines and
/// spaces, so it stays one token on one line of a record.
pub open spec fn one_token(s: Seq<char>) -> bool {
    s.len() > 0 && forall|i: int| 0 <= i < s.len() ==> s[i] != '\n' && s[i] != ' '
}

/// Relies on `chrono::DateTime::<Utc>::from_timestamp` and
/// `DateTime::to_rfc3339`: the rendering is a function of the timestamp
/// alone, is one token of the form `YYYY-MM-DDTHH:MM:SS+00:00`, and
/// `from_timestamp` is in range for every `t` this accepts.
#[verifier::external_body]
pub(crate) fn fmt_rfc3339(t: i64) -> (r: String)
    requires
        valid_ts(t as int),
    ensures
        r@ == rfc3339_of(t as int),
        one_token(r@),
{
    chrono::DateTime::<chrono::Utc>::from_timestamp(t, 0)
        .expect("timestamp in range")
        .to_rfc3339()
}

/// Relies on `str::parse::<chrono::DateTime<Utc>>` and
/// `DateTime::timestamp`: the result is a function of the text alone, and
/// chrono documents that `from_timestamp` round-trips with `timestamp`, so
/// parsing the RFC 3339 rendering of `t` gives `t` back.
#[verifier::external_body]
pub(crate) fn parse_ts(s: &str) -> (r: Option<i64>)
    ensures
        r == ts_parse(s@),
        forall|t: i64| valid_ts(t as int) && s@ == rfc3339_of(t as int) ==> r == Some(t),
{
    s.parse::<chrono::DateTime<chrono::Utc>>().ok().map(|d| d.timestamp())
}

/// Relies on `chrono::DateTime::format` with `%Y-%m-%d`: the rendering is a
/// function of the timestamp alone and names the day it falls on.
#[verifier::external_body]
pub(crate) fn fmt_date(t: i64) -> (r: String)
    requires
        valid_ts(t as int),
    ensures
        r@ == date_of(t as int),
        one_token(r@),
{
    chrono::DateTime::<chrono::Utc>::from_timestamp(t, 0)
        .expect("timestamp in range")
        .format("%Y-%m-%d")
        .to_string()
}

} // verus!
