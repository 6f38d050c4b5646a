//! Time: the current instant and RFC 3339 text, through `chrono`.
use crate::models::Timestamp;
use vstd::prelude::*;

verus! {

/// The RFC 3339 text that `chrono` gives a UTC instant of `secs` seconds and
/// `nanos` nanoseconds since the Unix epoch, or `None` when `chrono` cannot
/// represent that instant.
pub uninterp spec fn rfc3339_text(secs: i64, nanos: u32) -> Option<Seq<char>>;

/// What `chrono` makes of an RFC 3339 text: the UTC instant it denotes, as
/// seconds and nanoseconds since the Unix epoch, or the text of its error.
pub uninterp spec fn rfc3339_parsed(text: Seq<char>) -> Result<(i64, u32), Seq<char>>;

/// The span from the UTC instant `now` back to the UTC instant `since` (each
/// given as seconds and nanoseconds since the Unix epoch) that `chrono`'s
/// `DateTime::signed_duration_since` gives, as the span's `num_seconds()`
/// and `subsec_nanos()`; `None` when `chrono` cannot represent one of the
/// instants.
pub uninterp spec fn duration_since(now_secs: i64, now_nanos: u32, since_secs: i64, since_nanos: u32) -> Option<(i64, i32)>;

/// Measures the span from `since` to `now` with `chrono`: both instants
/// become `DateTime<Utc>` by `DateTime::from_timestamp`, and the span of
/// `signed_duration_since` is returned as its `num_seconds()` and
/// `subsec_nanos()`. The result is the named [`duration_since`] of the two
/// instants.
#[verifier::external_body]
pub(crate) fn signed_duration_since(now: Timestamp, since: Timestamp) -> (r: Option<(i64, i32)>)
    ensures
        r == duration_since(now.secs, now.nanos, since.secs, since.nanos),
{
    let later = chrono::DateTime::<chrono::Utc>::from_timestamp(now.secs, now.nanos);
    let earlier = chrono::DateTime::<chrono::Utc>::from_timestamp(since.secs, since.nanos);
    match (later, earlier) {
        (Some(a), Some(b)) => {
            let d = a.signed_duration_since(b);
            Some((d.num_seconds(), d.subsec_nanos()))
        },
        _ => None,
    }
}

/// The current UTC time, from `chrono::Utc::now`. Which instant comes out
/// depends on the clock; what is stated holds of every one: it is not
/// before the Unix epoch (`Utc::now` panics on a clock set before it), its
/// nanoseconds are those of a `std::time::Duration` (below one second), and
/// `chrono` can represent it (`Utc::now` builds it with
/// `DateTime::from_timestamp`), so it has an RFC 3339 text.
#[verifier::external_body]
pub fn current_task_time() -> (t: Timestamp)
    ensures
        t.secs >= 0,
        t.nanos < 1_000_000_000,
        rfc3339_text(t.secs, t.nanos) is Some,
{
    let now = chrono::Utc::now();
    Timestamp { secs: now.timestamp(), nanos: now.timestamp_subsec_nanos() }
}

/// The current local time as RFC 3339 text, from `chrono::Local::now` and
/// `to_rfc3339`. Nothing is stated of it: it depends on the clock and the
/// machine's time zone.
#[verifier::external_body]
pub(crate) fn local_now_rfc3339() -> (s: String) {
    chrono::Local::now().to_rfc3339()
}

/// Formats a UTC instant with `chrono`'s `DateTime::from_timestamp` and
/// `to_rfc3339`; the result is the named [`rfc3339_text`] of the instant.
#[verifier::external_body]
pub(crate) fn format_rfc3339(t: Timestamp) -> (r: Option<String>)
    ensures
        match r {
            Some(s) => rfc3339_text(t.secs, t.nanos) == Some(s@),
            None => rfc3339_text(t.secs, t.nanos) is None,
        },
{
    match chrono::DateTime::<chrono::Utc>::from_timestamp(t.secs, t.nanos) {
        Some(dt) => Some(dt.to_rfc3339()),
        None => None,
    }
}

/// Parses RFC 3339 text with `chrono`'s `DateTime::parse_from_rfc3339`,
/// converted to UTC; the result is the named [`rfc3339_parsed`] of the text.
#[verifier::external_body]
pub(crate) fn parse_rfc3339(text: &str) -> (r: Result<Timestamp, String>)
    ensures
        match r {
            Ok(t) => rfc3339_parsed(text@) == Ok::<(i64, u32), Seq<char>>((t.secs, t.nanos)),
            Err(e) => rfc3339_parsed(text@) == Err::<(i64, u32), Seq<char>>(e@),
        },
{
    match chrono::DateTime::parse_from_rfc3339(text) {
        Ok(dt) => {
            let utc = dt.with_timezone(&chrono::Utc);
            Ok(Timestamp { secs: utc.timestamp(), nanos: utc.timestamp_subsec_nanos() })
        },
        Err(e) => Err(e.to_string()),
    }
}

} // verus!
