use vstd::prelude::*;
use crate::models::Timestamp;

verus! {

/// `chrono::Utc::now`, as seconds and nanoseconds since the epoch. The value is the
/// current time and nothing is promised of it.
#[verifier::external_body]
pub(crate) fn now() -> Timestamp {
    let t = chrono::Utc::now();
    Timestamp { secs: t.timestamp(), nanos: t.timestamp_subsec_nanos() }
}

/// What `chrono` prints for an instant with the format `%Y-%m-%dT%H:%M:%S%.3fZ`,
/// the timestamp that starts a log line.
pub uninterp spec fn millis_text(ts: Timestamp) -> Seq<char>;

/// The instants whose text has a four-digit year, from 0000-01-01T00:00:00Z to
/// 9999-12-31T23:59:59.999Z, without a leap second.
pub open spec fn four_digit_year(ts: Timestamp) -> bool {
    -62167219200 <= ts.secs <= 253402300799 && ts.nanos < 1_000_000_000
}

/// An instant cut to whole milliseconds.
pub open spec fn to_millis(ts: Timestamp) -> Timestamp {
    Timestamp { secs: ts.secs, nanos: (ts.nanos / 1_000_000 * 1_000_000) as u32 }
}

/// `chrono::DateTime::from_timestamp` followed by `format("%Y-%m-%dT%H:%M:%S%.3fZ")`.
/// Its result is named `millis_text`; the calendar arithmetic is not stated. For an
/// instant that `chrono` cannot represent the text is empty. The text is made of
/// digits, `-`, `+`, `T`, `:`, `.` and `Z`, so it holds no `[` and no line break. For an instant with a
/// four-digit year, `chrono`'s RFC 3339 reader gives back the instant cut to whole
/// milliseconds: the fraction is written with three digits (`%.3f` writes the
/// nanoseconds divided by 1,000,000), the year with four, and `Z` is offset zero.
#[verifier::external_body]
pub(crate) fn format_millis(ts: Timestamp) -> (r: String)
    ensures
        r@ == millis_text(ts),
        !r@.contains('['),
        !r@.contains('\n'),
        four_digit_year(ts) ==> rfc3339_instant(r@) == Some(to_millis(ts)),
{
    match chrono::DateTime::from_timestamp(ts.secs, ts.nanos) {
        Some(dt) => dt.format("%Y-%m-%dT%H:%M:%S%.3fZ").to_string(),
        None => String::new(),
    }
}

/// The instant that `chrono::DateTime::parse_from_rfc3339` reads from a text,
/// or `None` where it refuses the text.
pub uninterp spec fn rfc3339_instant(s: Seq<char>) -> Option<Timestamp>;

/// `chrono::DateTime::parse_from_rfc3339`, converted to UTC seconds and nanoseconds.
/// Its result is named `rfc3339_instant`; which texts RFC 3339 accepts is not stated.
#[verifier::external_body]
pub(crate) fn parse_rfc3339(s: &str) -> (r: Option<Timestamp>)
    ensures
        r == rfc3339_instant(s@),
{
    match chrono::DateTime::parse_from_rfc3339(s) {
        Ok(dt) => Some(Timestamp { secs: dt.timestamp(), nanos: dt.timestamp_subsec_nanos() }),
        Err(_) => None,
    }
}

} // verus!
