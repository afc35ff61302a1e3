//! Points in time as text and as seconds since 1970.

use vstd::prelude::*;

verus! {

/// What `chrono::DateTime::parse_from_rfc3339` reads from a text, in whole seconds
/// since 1970.
pub uninterp spec fn rfc3339_seconds(s: Seq<char>) -> Option<i64>;

/// `chrono::DateTime::parse_from_rfc3339` reads a date and time in RFC 3339 notation;
/// the result, in whole seconds since 1970, is only named. It depends on the text
/// alone.
#[verifier::external_body]
pub(crate) fn parse_rfc3339(s: &str) -> (r: Option<i64>)
    ensures
        r == rfc3339_seconds(s@),
{
    match chrono::DateTime::parse_from_rfc3339(s) {
        Ok(at) => Some(at.timestamp()),
        Err(_) => None,
    }
}

/// What `chrono::DateTime::to_rfc3339` writes for a moment, given as seconds and
/// nanoseconds since 1970.
pub uninterp spec fn rfc3339_text(seconds: i64, nanos: u32) -> Seq<char>;

/// `chrono::DateTime::from_timestamp` and `to_rfc3339` write a moment, given as seconds
/// and nanoseconds since 1970, in RFC 3339 notation, in UTC; out of chrono's range 1970
/// itself is written. The text is only named. It depends on the arguments alone.
#[verifier::external_body]
pub(crate) fn format_rfc3339(seconds: i64, nanos: u32) -> (r: String)
    ensures
        r@ == rfc3339_text(seconds, nanos),
{
    chrono::DateTime::from_timestamp(seconds, nanos).unwrap_or_default().to_rfc3339()
}

/// The whole seconds that chrono counts from the time that a text names in RFC 3339
/// notation to a moment, given as seconds and nanoseconds since 1970.
pub uninterp spec fn elapsed_seconds(since: Seq<char>, now_seconds: i64, now_nanos: u32) -> Option<i64>;

/// `chrono::DateTime::signed_duration_since` counts the time from a moment, read by
/// `parse_from_rfc3339`, to another one; the result, in whole seconds, is only named.
/// It depends on the arguments alone.
#[verifier::external_body]
pub(crate) fn seconds_since(since: &str, now_seconds: i64, now_nanos: u32) -> (r: Option<i64>)
    ensures
        r == elapsed_seconds(since@, now_seconds, now_nanos),
{
    let now = chrono::DateTime::from_timestamp(now_seconds, now_nanos).unwrap_or_default();
    match chrono::DateTime::parse_from_rfc3339(since) {
        Ok(at) => Some(now.signed_duration_since(at).num_seconds()),
        Err(_) => None,
    }
}

/// The longest duration that chrono holds, in whole seconds.
pub const LONGEST_SECONDS: i64 = 9223372036854775;

/// `chrono::Duration::seconds` makes a duration of that many seconds; here it is given in
/// seconds. It panics where the duration is out of chrono's range.
#[verifier::external_body]
pub(crate) fn seconds_in_seconds(n: i64) -> (seconds: i64)
    requires
        -LONGEST_SECONDS <= n * 1 <= LONGEST_SECONDS,
    ensures
        seconds == n * 1,
{
    chrono::Duration::seconds(n).num_seconds()
}

/// `chrono::Duration::minutes` makes a duration of that many minutes; here it is given in
/// seconds. It panics where the duration is out of chrono's range.
#[verifier::external_body]
pub(crate) fn minutes_in_seconds(n: i64) -> (seconds: i64)
    requires
        -LONGEST_SECONDS <= n * 60 <= LONGEST_SECONDS,
    ensures
        seconds == n * 60,
{
    chrono::Duration::minutes(n).num_seconds()
}

/// `chrono::Duration::hours` makes a duration of that many hours; here it is given in
/// seconds. It panics where the duration is out of chrono's range.
#[verifier::external_body]
pub(crate) fn hours_in_seconds(n: i64) -> (seconds: i64)
    requires
        -LONGEST_SECONDS <= n * 3600 <= LONGEST_SECONDS,
    ensures
        seconds == n * 3600,
{
    chrono::Duration::hours(n).num_seconds()
}

/// `chrono::Duration::days` makes a duration of that many days; here it is given in
/// seconds. It panics where the duration is out of chrono's range.
#[verifier::external_body]
pub(crate) fn days_in_seconds(n: i64) -> (seconds: i64)
    requires
        -LONGEST_SECONDS <= n * 86400 <= LONGEST_SECONDS,
    ensures
        seconds == n * 86400,
{
    chrono::Duration::days(n).num_seconds()
}

/// `chrono::Duration::weeks` makes a duration of that many weeks; here it is given in
/// seconds. It panics where the duration is out of chrono's range.
#[verifier::external_body]
pub(crate) fn weeks_in_seconds(n: i64) -> (seconds: i64)
    requires
        -LONGEST_SECONDS <= n * 604800 <= LONGEST_SECONDS,
    ensures
        seconds == n * 604800,
{
    chrono::Duration::weeks(n).num_seconds()
}

/// The first second of chrono's range, which begins 262143 years before the year 0.
pub const EARLIEST_SECONDS: i64 = -8334601228800;

/// The last second of chrono's range, which ends with the year 262142.
pub const LATEST_SECONDS: i64 = 8210266876799;

/// Taking a `chrono::Duration` off a `chrono::DateTime` goes back that many seconds. It
/// panics where the result is out of chrono's range.
#[verifier::external_body]
pub(crate) fn moment_before(now: i64, seconds: i64) -> (r: i64)
    requires
        EARLIEST_SECONDS <= now <= LATEST_SECONDS,
        -LONGEST_SECONDS <= seconds <= LONGEST_SECONDS,
        EARLIEST_SECONDS <= now - seconds <= LATEST_SECONDS,
    ensures
        r == now - seconds,
{
    let at = chrono::DateTime::from_timestamp(now, 0).unwrap_or_default();
    (at - chrono::Duration::seconds(seconds)).timestamp()
}

/// What `chrono::NaiveDate::parse_from_str` reads from a date such as "2026-01-31": the
/// seconds from 1970 to the beginning of that day.
pub uninterp spec fn date_seconds(s: Seq<char>) -> Option<i64>;

/// `chrono::NaiveDate::parse_from_str` reads a date of year, month and day; the
/// beginning of that day, in seconds since 1970, is only named. It depends on the text
/// alone.
#[verifier::external_body]
pub(crate) fn parse_date(s: &str) -> (r: Option<i64>)
    ensures
        r == date_seconds(s@),
{
    match chrono::NaiveDate::parse_from_str(s, "%Y-%m-%d") {
        Ok(day) => Some(day.and_time(chrono::NaiveTime::MIN).and_utc().timestamp()),
        Err(_) => None,
    }
}

/// How a moment is written in full.
pub const MOMENT_PATTERN: &'static str = "%Y-%m-%d %H:%M:%S";

/// How a day is written in short.
pub const DAY_PATTERN: &'static str = "%b %-d";

/// What `chrono::DateTime::format` writes for a number of seconds since 1970, by a
/// pattern.
pub uninterp spec fn utc_text(seconds: i64, pattern: Seq<char>) -> Seq<char>;

/// `chrono::DateTime::format` writes a moment in UTC by a pattern; the text is only
/// named. It depends on the arguments alone. Its `to_string` panics where a pattern is
/// not one of chrono's.
#[verifier::external_body]
pub(crate) fn format_utc(seconds: i64, pattern: &str) -> (r: String)
    requires
        EARLIEST_SECONDS <= seconds <= LATEST_SECONDS,
        pattern@ == MOMENT_PATTERN@ || pattern@ == DAY_PATTERN@,
    ensures
        r@ == utc_text(seconds, pattern@),
{
    chrono::DateTime::from_timestamp(seconds, 0).unwrap_or_default().format(pattern).to_string()
}

} // verus!
