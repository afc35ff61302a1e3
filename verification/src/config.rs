//! Settings, and durations as they are written there.

use crate::calendar::{
    days_in_seconds, hours_in_seconds, minutes_in_seconds, seconds_in_seconds, weeks_in_seconds,
    LONGEST_SECONDS,
};
use crate::decimal::{all_digits, decimal, decimal_text, is_digit, number_value, parse_digits};
use crate::text::{chars_of, lowercase, lowercase_of, slice_text, str_eq, trim, trimmed};
use vstd::prelude::*;

verus! {

/// The settings of the program.
#[derive(Debug, Clone)]
pub struct AppConfig {
    /// How long the mutation log is kept.
    pub retention: String,
    /// Whether searches are advanced.
    pub fuzzy: bool,
    pub auto_snapshot: bool,
    pub auto_snapshot_interval: String,
}

/// The settings are those of a fresh installation.
pub open spec fn is_default(c: AppConfig) -> bool {
    &&& c.retention@ == "30d"@
    &&& c.fuzzy
    &&& !c.auto_snapshot
    &&& c.auto_snapshot_interval@ == "24h"@
}

impl Default for AppConfig {
    fn default() -> (c: AppConfig)
        ensures
            is_default(c),
    {
        AppConfig {
            retention: "30d".to_owned(),
            fuzzy: true,
            auto_snapshot: false,
            auto_snapshot_interval: "24h".to_owned(),
        }
    }
}

/// The retention that a bare number stands for: that many days, if it is not negative.
pub fn retention_from_number(n: i64) -> (r: Option<String>)
    ensures
        match r {
            Some(s) => n >= 0 && s@ == decimal_text(n as nat).push('d'),
            None => n < 0,
        },
{
    if n < 0 {
        None
    } else {
        let mut s = decimal(n as u64);
        s.push('d');
        Some(s)
    }
}

/// What was found where the settings are kept.
pub enum ConfigSource {
    /// There is no place for settings.
    NoPlace,
    /// There are no settings yet.
    Absent,
    /// The settings cannot be read.
    Invalid,
    Settings(AppConfig),
}

/// The settings to use, and whether they have to be saved: where there are none that
/// can be read, the default ones.
pub fn load_config(source: ConfigSource) -> (r: (AppConfig, bool))
    ensures
        match source {
            ConfigSource::Settings(c) => r.0 == c && !r.1,
            ConfigSource::Absent => is_default(r.0) && r.1,
            _ => is_default(r.0) && !r.1,
        },
{
    let fresh = AppConfig {
        retention: "30d".to_owned(),
        fuzzy: true,
        auto_snapshot: false,
        auto_snapshot_interval: "24h".to_owned(),
    };
    match source {
        ConfigSource::Settings(c) => (c, false),
        ConfigSource::Absent => (fresh, true),
        _ => (fresh, false),
    }
}

/// The number of digits that a text begins with.
pub open spec fn digit_count(s: Seq<char>) -> nat
    decreases s.len(),
{
    if s.len() > 0 && is_digit(s[0]) {
        1 + digit_count(s.skip(1))
    } else {
        0
    }
}

/// The seconds of a unit of time.
pub open spec fn unit_seconds(unit: Seq<char>) -> Option<int> {
    if unit == "s"@ || unit == "sec"@ || unit == "second"@ || unit == "seconds"@ {
        Some(1)
    } else if unit == "min"@ || unit == "minute"@ || unit == "minutes"@ {
        Some(60)
    } else if unit == "h"@ || unit == "hr"@ || unit == "hour"@ || unit == "hours"@ {
        Some(3600)
    } else if unit == ""@ || unit == "d"@ || unit == "day"@ || unit == "days"@ {
        Some(86400)
    } else if unit == "w"@ || unit == "week"@ || unit == "weeks"@ {
        Some(604800)
    } else if unit == "m"@ || unit == "mo"@ || unit == "month"@ || unit == "months"@ {
        Some(2592000)
    } else if unit == "y"@ || unit == "year"@ || unit == "years"@ {
        Some(31536000)
    } else {
        None
    }
}

/// The unit of a duration.
pub open spec fn unit_of(s: Seq<char>) -> Seq<char> {
    trimmed(s.skip(digit_count(s) as int))
}

/// The number of a duration.
pub open spec fn count_of(s: Seq<char>) -> int {
    number_value(s.take(digit_count(s) as int))
}

/// A digit stands behind the first character that is none.
pub open spec fn digit_behind_unit(s: Seq<char>) -> bool {
    exists|i: int| digit_count(s) <= i < s.len() && is_digit(#[trigger] s[i])
}

/// Why a text in lower case is no duration, if it is none.
pub open spec fn duration_error(s: Seq<char>) -> Option<Seq<char>> {
    if s.len() == 0 {
        Some("Duration string cannot be empty"@)
    } else if digit_behind_unit(s) {
        Some("Invalid duration format: digit found after unit in '"@ + s + "'"@)
    } else if digit_count(s) == 0 {
        Some("Invalid duration: missing numeric value in '"@ + s + "'"@)
    } else if count_of(s) > i64::MAX {
        Some("Invalid duration number in '"@ + s + "'"@)
    } else if unit_seconds(unit_of(s)) is None {
        Some("Unknown duration unit: '"@ + unit_of(s) + "' (supported: s, min, h, d, w, m, y)"@)
    } else if count_of(s) == 0 {
        Some("Duration must be positive."@)
    } else {
        None
    }
}

/// The seconds of a duration in lower case.
pub open spec fn duration_seconds(s: Seq<char>) -> int {
    count_of(s) * unit_seconds(unit_of(s))->0
}

/// The text is a duration, but a longer one than can be held.
pub open spec fn too_long(s: Seq<char>) -> bool {
    duration_error(s) is None && duration_seconds(s) > LONGEST_SECONDS
}

pub(crate) proof fn lemma_digit_count(s: Seq<char>)
    ensures
        digit_count(s) <= s.len(),
        forall|i: int| 0 <= i < digit_count(s) ==> is_digit(#[trigger] s[i]),
        digit_count(s) < s.len() ==> !is_digit(s[digit_count(s) as int]),
    decreases s.len(),
{
    if s.len() > 0 && is_digit(s[0]) {
        lemma_digit_count(s.skip(1));
        let n = digit_count(s.skip(1)) as int;
        assert forall|i: int| 0 <= i < digit_count(s) implies is_digit(#[trigger] s[i]) by {
            if i > 0 {
                assert(s.skip(1)[i - 1] == s[i]);
            }
        }
        if n + 1 < s.len() {
            assert(s.skip(1)[n] == s[n + 1]);
        }
    }
}

fn is_digit_char(c: char) -> (r: bool)
    ensures
        r == is_digit(c),
{
    '0' <= c && c <= '9'
}

fn message(before: &str, s: &str, behind: &str) -> (r: String)
    ensures
        r@ == before@ + s@ + behind@,
{
    let mut r = before.to_owned();
    r.append(s);
    r.append(behind);
    r
}

/// The names of a unit of time.
#[derive(Clone, Copy, PartialEq, Eq, Structural)]
enum Unit {
    Second,
    Minute,
    Hour,
    Day,
    Week,
    Month,
    Year,
}

fn parse_unit(u: &str) -> (r: Option<Unit>)
    ensures
        match r {
            Some(Unit::Second) => unit_seconds(u@) == Some(1int),
            Some(Unit::Minute) => unit_seconds(u@) == Some(60int),
            Some(Unit::Hour) => unit_seconds(u@) == Some(3600int),
            Some(Unit::Day) => unit_seconds(u@) == Some(86400int),
            Some(Unit::Week) => unit_seconds(u@) == Some(604800int),
            Some(Unit::Month) => unit_seconds(u@) == Some(2592000int),
            Some(Unit::Year) => unit_seconds(u@) == Some(31536000int),
            None => unit_seconds(u@) is None,
        },
{
    if str_eq(u, "s") || str_eq(u, "sec") || str_eq(u, "second") || str_eq(u, "seconds") {
        Some(Unit::Second)
    } else if str_eq(u, "min") || str_eq(u, "minute") || str_eq(u, "minutes") {
        Some(Unit::Minute)
    } else if str_eq(u, "h") || str_eq(u, "hr") || str_eq(u, "hour") || str_eq(u, "hours") {
        Some(Unit::Hour)
    } else if str_eq(u, "") || str_eq(u, "d") || str_eq(u, "day") || str_eq(u, "days") {
        Some(Unit::Day)
    } else if str_eq(u, "w") || str_eq(u, "week") || str_eq(u, "weeks") {
        Some(Unit::Week)
    } else if str_eq(u, "m") || str_eq(u, "mo") || str_eq(u, "month") || str_eq(u, "months") {
        Some(Unit::Month)
    } else if str_eq(u, "y") || str_eq(u, "year") || str_eq(u, "years") {
        Some(Unit::Year)
    } else {
        None
    }
}

fn factor(u: Unit) -> (f: i64)
    ensures
        f == (match u {
            Unit::Second => 1int,
            Unit::Minute => 60,
            Unit::Hour => 3600,
            Unit::Day => 86400,
            Unit::Week => 604800,
            Unit::Month => 2592000,
            Unit::Year => 31536000,
        }),
{
    match u {
        Unit::Second => 1,
        Unit::Minute => 60,
        Unit::Hour => 3600,
        Unit::Day => 86400,
        Unit::Week => 604800,
        Unit::Month => 2592000,
        Unit::Year => 31536000,
    }
}

/// What a text in lower case says: a number and a unit, or why it is no duration.
fn read_duration(s: &str) -> (r: Result<(i64, Unit), String>)
    ensures
        match r {
            Ok((n, u)) => duration_error(s@) is None && n == count_of(s@) && n > 0 && unit_seconds(unit_of(s@))
                == Some(
                match u {
                    Unit::Second => 1int,
                    Unit::Minute => 60,
                    Unit::Hour => 3600,
                    Unit::Day => 86400,
                    Unit::Week => 604800,
                    Unit::Month => 2592000,
                    Unit::Year => 31536000,
                },
            ),
            Err(e) => duration_error(s@) == Some(e@),
        },
{
    if s.is_empty() {
        return Err("Duration string cannot be empty".to_owned());
    }
    let chars = chars_of(s);
    let n = chars.len();
    let mut k: usize = 0;
    assert(chars@.skip(0) =~= s@);
    while k < n && is_digit_char(chars[k])
        invariant
            chars@ == s@,
            n == chars@.len(),
            k <= n,
            digit_count(s@) == k + digit_count(s@.skip(k as int)),
        decreases n - k,
    {
        assert(s@.skip(k as int).skip(1) =~= s@.skip(k + 1));
        k = k + 1;
    }
    proof {
        lemma_digit_count(s@);
    }
    assert(digit_count(s@) == k);
    let mut i: usize = k;
    while i < n
        invariant
            chars@ == s@,
            s@.len() > 0,
            n == chars@.len(),
            digit_count(s@) == k,
            k <= i <= n,
            forall|j: int| k <= j < i ==> !is_digit(#[trigger] s@[j]),
        decreases n - i,
    {
        if is_digit_char(chars[i]) {
            assert(is_digit(s@[i as int]));
            return Err(message("Invalid duration format: digit found after unit in '", s, "'"));
        }
        i = i + 1;
    }
    if k == 0 {
        return Err(message("Invalid duration: missing numeric value in '", s, "'"));
    }
    let digits_text = slice_text(&chars, 0, k);
    let digits = chars_of(digits_text.as_str());
    proof {
        assert(digits@ =~= s@.take(k as int));
        assert(digits@.skip(0) =~= digits@);
        assert forall|j: int| 0 <= j < digits@.len() implies is_digit(#[trigger] digits@[j]) by {
            assert(digits@[j] == s@[j]);
        }
        assert(all_digits(digits@));
        crate::decimal::lemma_value_nonneg(digits@);
    }
    let count = match parse_digits(&digits, 0) {
        Some(v) => v,
        None => {
            return Err(message("Invalid duration number in '", s, "'"));
        },
    };
    if count > 9223372036854775807 {
        return Err(message("Invalid duration number in '", s, "'"));
    }
    let rest = slice_text(&chars, k, n);
    assert(rest@ =~= s@.skip(k as int));
    let unit = trim(rest.as_str());
    match parse_unit(unit.as_str()) {
        None => Err(
            message("Unknown duration unit: '", unit.as_str(), "' (supported: s, min, h, d, w, m, y)"),
        ),
        Some(u) => {
            if count == 0 {
                Err("Duration must be positive.".to_owned())
            } else {
                Ok((count as i64, u))
            }
        },
    }
}

fn in_seconds(n: i64, u: Unit) -> (seconds: i64)
    requires
        n > 0,
        n * (match u {
            Unit::Second => 1int,
            Unit::Minute => 60,
            Unit::Hour => 3600,
            Unit::Day => 86400,
            Unit::Week => 604800,
            Unit::Month => 2592000,
            Unit::Year => 31536000,
        }) <= LONGEST_SECONDS,
    ensures
        seconds == n * (match u {
            Unit::Second => 1int,
            Unit::Minute => 60,
            Unit::Hour => 3600,
            Unit::Day => 86400,
            Unit::Week => 604800,
            Unit::Month => 2592000,
            Unit::Year => 31536000,
        }),
{
    match u {
        Unit::Second => seconds_in_seconds(n),
        Unit::Minute => minutes_in_seconds(n),
        Unit::Hour => hours_in_seconds(n),
        Unit::Day => days_in_seconds(n),
        Unit::Week => weeks_in_seconds(n),
        Unit::Month => days_in_seconds(n * 30),
        Unit::Year => days_in_seconds(n * 365),
    }
}

/// The seconds of a duration in lower case, without white space around it.
pub fn parse_lower_duration(s: &str) -> (r: Result<i64, String>)
    requires
        !too_long(s@),
    ensures
        match r {
            Ok(seconds) => duration_error(s@) is None && seconds == duration_seconds(s@),
            Err(e) => duration_error(s@) == Some(e@),
        },
{
    match read_duration(s) {
        Err(e) => Err(e),
        Ok((n, u)) => Ok(in_seconds(n, u)),
    }
}

/// Whether a text in lower case is a longer duration than can be held.
pub fn is_too_long(s: &str) -> (r: bool)
    ensures
        r == too_long(s@),
{
    match read_duration(s) {
        Err(_) => false,
        Ok((n, u)) => {
            let f = factor(u);
            proof {
                assert(n * f > LONGEST_SECONDS <==> n > LONGEST_SECONDS / f) by (nonlinear_arith)
                    requires
                        n > 0,
                        f > 0,
                        LONGEST_SECONDS > 0,
                ;
            }
            n > LONGEST_SECONDS / f
        },
    }
}

/// Parses a duration such as "30d", "24h" or "90 minutes".
pub fn parse_any_duration(s: &str) -> (r: Result<i64, String>)
    requires
        !too_long(lowercase_of(trimmed(s@))),
    ensures
        match r {
            Ok(seconds) => duration_error(lowercase_of(trimmed(s@))) is None && seconds == duration_seconds(
                lowercase_of(trimmed(s@)),
            ),
            Err(e) => duration_error(lowercase_of(trimmed(s@))) == Some(e@),
        },
{
    let t = trim(s);
    let l = lowercase(t.as_str());
    parse_lower_duration(l.as_str())
}

/// Parses a duration, unless it is longer than can be held.
pub fn checked_any_duration(s: &str) -> (r: Option<Result<i64, String>>)
    ensures
        match r {
            None => too_long(lowercase_of(trimmed(s@))),
            Some(Ok(seconds)) => !too_long(lowercase_of(trimmed(s@))) && duration_error(lowercase_of(trimmed(s@))) is None
                && seconds == duration_seconds(lowercase_of(trimmed(s@))),
            Some(Err(e)) => !too_long(lowercase_of(trimmed(s@))) && duration_error(lowercase_of(trimmed(s@))) == Some(e@),
        },
{
    let t = trim(s);
    let l = lowercase(t.as_str());
    if is_too_long(l.as_str()) {
        None
    } else {
        Some(parse_any_duration(s))
    }
}

/// The message for a retention that is out of range.
pub open spec fn retention_message() -> Seq<char> {
    "Retention duration must be between 1 hour and 3650 days."@
}

/// A duration can be a retention: from one hour to ten years of 365 days.
pub fn check_retention(seconds: i64) -> (r: Result<i64, String>)
    ensures
        match r {
            Ok(s) => s == seconds && 3600 <= seconds <= 315360000,
            Err(e) => !(3600 <= seconds <= 315360000) && e@ == retention_message(),
        },
{
    if seconds < hours_in_seconds(1) || seconds > days_in_seconds(3650) {
        Err("Retention duration must be between 1 hour and 3650 days.".to_owned())
    } else {
        Ok(seconds)
    }
}

/// Why a text in lower case is no retention, if it is none.
pub open spec fn retention_error(s: Seq<char>) -> Option<Seq<char>> {
    if duration_error(s) is Some {
        duration_error(s)
    } else if !(3600 <= duration_seconds(s) <= 315360000) {
        Some(retention_message())
    } else {
        None
    }
}

/// Parses a retention.
pub fn parse_duration(s: &str) -> (r: Result<i64, String>)
    requires
        !too_long(lowercase_of(trimmed(s@))),
    ensures
        match r {
            Ok(seconds) => retention_error(lowercase_of(trimmed(s@))) is None && seconds == duration_seconds(
                lowercase_of(trimmed(s@)),
            ),
            Err(e) => retention_error(lowercase_of(trimmed(s@))) == Some(e@),
        },
{
    match parse_any_duration(s) {
        Err(e) => Err(e),
        Ok(seconds) => check_retention(seconds),
    }
}

/// Parses a retention, unless it is a longer duration than can be held.
pub fn checked_duration(s: &str) -> (r: Option<Result<i64, String>>)
    ensures
        match r {
            None => too_long(lowercase_of(trimmed(s@))),
            Some(Ok(seconds)) => !too_long(lowercase_of(trimmed(s@))) && retention_error(lowercase_of(trimmed(s@))) is None
                && seconds == duration_seconds(lowercase_of(trimmed(s@))),
            Some(Err(e)) => !too_long(lowercase_of(trimmed(s@))) && retention_error(lowercase_of(trimmed(s@))) == Some(e@),
        },
{
    let t = trim(s);
    let l = lowercase(t.as_str());
    if is_too_long(l.as_str()) {
        None
    } else {
        Some(parse_duration(s))
    }
}

/// Every retention is a duration, and of the same length.
pub proof fn law_retention_is_duration(s: Seq<char>)
    requires
        retention_error(s) is None,
    ensures
        duration_error(s) is None,
        3600 <= duration_seconds(s) <= 315360000,
        !too_long(s),
{
}

} // verus!
