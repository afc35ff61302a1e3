//! Moments that are given as a date or as a time that has passed since.

use crate::calendar::{
    days_in_seconds, hours_in_seconds, moment_before, parse_rfc3339, rfc3339_seconds,
    EARLIEST_SECONDS, LATEST_SECONDS, LONGEST_SECONDS,
};
use crate::decimal::{i64_value, is_digit, parse_i64};
use crate::text::{chars_of, lowercase, lowercase_of, str_eq, string_of, trim, trimmed};
use vstd::prelude::*;

verus! {

/// The digits of a text, wherever they stand.
pub open spec fn digits_of(s: Seq<char>) -> Seq<char> {
    s.filter(|c: char| is_digit(c))
}

/// What is no digit in a text, wherever it stands.
pub open spec fn letters_of(s: Seq<char>) -> Seq<char> {
    s.filter(|c: char| !is_digit(c))
}

/// The seconds of a unit of time.
pub open spec fn ago_unit(unit: Seq<char>) -> Option<int> {
    if unit == "h"@ || unit == "hr"@ || unit == "hour"@ || unit == "hours"@ {
        Some(3600)
    } else if unit == "d"@ || unit == "day"@ || unit == "days"@ {
        Some(86400)
    } else if unit == "m"@ || unit == "month"@ || unit == "months"@ {
        Some(2592000)
    } else if unit == "y"@ || unit == "year"@ || unit == "years"@ {
        Some(31536000)
    } else {
        None
    }
}

/// Why a text in lower case is no time that has passed, if it is none. Messages quote
/// `shown`.
pub open spec fn ago_error(s: Seq<char>, shown: Seq<char>) -> Option<Seq<char>> {
    if digits_of(s).len() == 0 || letters_of(s).len() == 0 {
        Some("Invalid datetime/duration format: '"@ + shown + "'"@)
    } else if i64_value(digits_of(s)) is None {
        Some("Invalid number in '"@ + shown + "'"@)
    } else if ago_unit(letters_of(s)) is None {
        Some("Unknown unit '"@ + letters_of(s) + "' in '"@ + shown + "'"@)
    } else {
        None
    }
}

/// The seconds that have passed, for a text in lower case that says so.
pub open spec fn ago_seconds(s: Seq<char>) -> int {
    i64_value(digits_of(s))->0 * ago_unit(letters_of(s))->0
}

/// The text names a moment that lies before all that can be held.
pub open spec fn too_far(s: Seq<char>, now: int) -> bool {
    ago_error(s, s) is None && now - ago_seconds(s) < EARLIEST_SECONDS
}

#[derive(Clone, Copy, PartialEq, Eq, Structural)]
enum AgoUnit {
    Hours,
    Days,
    Months,
    Years,
}

impl AgoUnit {
    spec fn seconds(self) -> int {
        match self {
            AgoUnit::Hours => 3600,
            AgoUnit::Days => 86400,
            AgoUnit::Months => 2592000,
            AgoUnit::Years => 31536000,
        }
    }

    fn in_seconds(self) -> (r: i64)
        ensures
            r == self.seconds(),
    {
        match self {
            AgoUnit::Hours => 3600,
            AgoUnit::Days => 86400,
            AgoUnit::Months => 2592000,
            AgoUnit::Years => 31536000,
        }
    }
}

fn read_unit(unit: &str) -> (r: Option<AgoUnit>)
    ensures
        match r {
            Some(u) => ago_unit(unit@) == Some(u.seconds()),
            None => ago_unit(unit@) is None,
        },
{
    if str_eq(unit, "h") || str_eq(unit, "hr") || str_eq(unit, "hour") || str_eq(unit, "hours") {
        Some(AgoUnit::Hours)
    } else if str_eq(unit, "d") || str_eq(unit, "day") || str_eq(unit, "days") {
        Some(AgoUnit::Days)
    } else if str_eq(unit, "m") || str_eq(unit, "month") || str_eq(unit, "months") {
        Some(AgoUnit::Months)
    } else if str_eq(unit, "y") || str_eq(unit, "year") || str_eq(unit, "years") {
        Some(AgoUnit::Years)
    } else {
        None
    }
}

fn part_digits(s: &str) -> (r: (String, String))
    ensures
        r.0@ == digits_of(s@),
        r.1@ == letters_of(s@),
{
    let chars = chars_of(s);
    let ghost digit = |c: char| is_digit(c);
    let ghost letter = |c: char| !is_digit(c);
    let mut digits: Vec<char> = Vec::new();
    let mut letters: Vec<char> = Vec::new();
    let mut i: usize = 0;
    proof {
        reveal(Seq::filter);
        assert(s@.take(0).filter(digit) =~= Seq::<char>::empty());
        assert(s@.take(0).filter(letter) =~= Seq::<char>::empty());
    }
    while i < chars.len()
        invariant
            chars@ == s@,
            digit == (|c: char| is_digit(c)),
            letter == (|c: char| !is_digit(c)),
            i <= s@.len(),
            digits@ == s@.take(i as int).filter(digit),
            letters@ == s@.take(i as int).filter(letter),
        decreases s@.len() - i,
    {
        proof {
            reveal(Seq::filter);
            assert(s@.take(i + 1).drop_last() =~= s@.take(i as int));
            assert(s@.take(i + 1).last() == s@[i as int]);
        }
        let c = chars[i];
        if '0' <= c && c <= '9' {
            digits.push(c);
        } else {
            letters.push(c);
        }
        i = i + 1;
    }
    assert(s@.take(i as int) =~= s@);
    (string_of(digits.as_slice()), string_of(letters.as_slice()))
}

fn quoting(before: &str, shown: &str) -> (r: String)
    ensures
        r@ == before@ + shown@ + "'"@,
{
    let mut r = before.to_owned();
    r.append(shown);
    r.append("'");
    r
}

proof fn lemma_digits_only(s: Seq<char>)
    ensures
        forall|i: int| 0 <= i < digits_of(s).len() ==> is_digit(#[trigger] digits_of(s)[i]),
    decreases s.len(),
{
    reveal(Seq::filter);
    if s.len() > 0 {
        lemma_digits_only(s.drop_last());
    }
}

fn read_ago(s: &str, shown: &str) -> (r: Result<(i64, AgoUnit), String>)
    ensures
        match r {
            Ok((n, u)) => {
                &&& ago_error(s@, shown@) is None
                &&& ago_error(s@, s@) is None
                &&& n >= 0
                &&& ago_seconds(s@) == n * u.seconds()
            },
            Err(e) => ago_error(s@, shown@) == Some(e@) && ago_error(s@, s@) is Some,
        },
{
    let (digits, letters) = part_digits(s);
    proof {
        lemma_digits_only(s@);
    }
    if digits.as_str().is_empty() || letters.as_str().is_empty() {
        return Err(quoting("Invalid datetime/duration format: '", shown));
    }
    match parse_i64(digits.as_str()) {
        None => Err(quoting("Invalid number in '", shown)),
        Some(n) => {
            match read_unit(letters.as_str()) {
                None => {
                    let mut e = "Unknown unit '".to_owned();
                    e.append(letters.as_str());
                    e.append("' in '");
                    e.append(shown);
                    e.append("'");
                    Err(e)
                },
                Some(u) => {
                    proof {
                        let d = digits_of(s@);
                        assert(is_digit(d[0]));
                        if d[0] != '+' {
                            crate::decimal::lemma_value_nonneg(d);
                        }
                    }
                    Ok((n, u))
                },
            }
        },
    }
}

/// Whether a text in lower case names a moment that lies before all that can be held.
pub fn is_too_far(s: &str, now: i64) -> (r: bool)
    requires
        EARLIEST_SECONDS <= now <= LATEST_SECONDS,
    ensures
        r == too_far(s@, now as int),
{
    match read_ago(s, s) {
        Err(_) => false,
        Ok((n, u)) => {
            let unit: i64 = u.in_seconds();
            let most: i64 = now - EARLIEST_SECONDS;
            proof {
                assert(n * unit > most <==> n > most / unit) by (nonlinear_arith)
                    requires
                        n >= 0,
                        unit > 0,
                        most >= 0,
                ;
            }
            n > most / unit
        },
    }
}

/// The moment that lies as long back as a text in lower case says.
pub fn moment_ago(s: &str, shown: &str, now: i64) -> (r: Result<i64, String>)
    requires
        EARLIEST_SECONDS <= now <= LATEST_SECONDS,
        !too_far(s@, now as int),
    ensures
        match r {
            Ok(at) => ago_error(s@, shown@) is None && at == now - ago_seconds(s@),
            Err(e) => ago_error(s@, shown@) == Some(e@),
        },
{
    match read_ago(s, shown) {
        Err(e) => Err(e),
        Ok((n, u)) => {
            proof {
                assert(n * 3600 <= n * u.seconds()) by (nonlinear_arith)
                    requires
                        n >= 0,
                        u.seconds() >= 3600,
                ;
                assert(n * u.seconds() <= LONGEST_SECONDS);
                assert(n * 30 * 86400 == n * 2592000) by (nonlinear_arith);
                assert(n * 365 * 86400 == n * 31536000) by (nonlinear_arith);
            }
            let seconds: i64 = match u {
                AgoUnit::Hours => hours_in_seconds(n),
                AgoUnit::Days => days_in_seconds(n),
                AgoUnit::Months => days_in_seconds(n * 30),
                AgoUnit::Years => days_in_seconds(n * 365),
            };
            Ok(moment_before(now, seconds))
        },
    }
}

/// The moment that a text names, or why it names none: a date in RFC 3339 notation, or
/// a time that has passed, given in lower case too. Messages quote `shown`.
pub open spec fn is_moment(s: Seq<char>, lower: Seq<char>, shown: Seq<char>, now: int, r: Result<i64, String>) -> bool {
    if rfc3339_seconds(s) is Some {
        r == Ok::<i64, String>(rfc3339_seconds(s)->0)
    } else {
        match r {
            Ok(at) => ago_error(lower, shown) is None && at == now - ago_seconds(lower),
            Err(e) => ago_error(lower, shown) == Some(e@),
        }
    }
}

/// The moment that a text names, given what it reads as a date and in lower case; there
/// is none that lies before all that can be held.
pub fn moment_of(date: Option<i64>, lower: &str, shown: &str, now: i64) -> (r: Option<Result<i64, String>>)
    requires
        EARLIEST_SECONDS <= now <= LATEST_SECONDS,
    ensures
        if date is Some {
            r == Some(Ok::<i64, String>(date->0))
        } else {
            match r {
                None => too_far(lower@, now as int),
                Some(Ok(at)) => ago_error(lower@, shown@) is None && !too_far(lower@, now as int) && at == now
                    - ago_seconds(lower@),
                Some(Err(e)) => ago_error(lower@, shown@) == Some(e@) && !too_far(lower@, now as int),
            }
        },
{
    match date {
        Some(at) => Some(Ok(at)),
        None => {
            if is_too_far(lower, now) {
                None
            } else {
                Some(moment_ago(lower, shown, now))
            }
        },
    }
}

/// Parses a date in RFC 3339 notation or a time that has passed, such as "24h" or
/// "2d"; there is no moment before all that can be held. Messages quote the text.
pub fn parse_time_param(s: &str, now: i64) -> (r: Option<Result<i64, String>>)
    requires
        EARLIEST_SECONDS <= now <= LATEST_SECONDS,
    ensures
        match r {
            None => rfc3339_seconds(s@) is None && too_far(lowercase_of(trimmed(s@)), now as int),
            Some(m) => {
                &&& is_moment(s@, lowercase_of(trimmed(s@)), s@, now as int, m)
                &&& rfc3339_seconds(s@) is Some || !too_far(lowercase_of(trimmed(s@)), now as int)
            },
        },
{
    let t = trim(s);
    let l = lowercase(t.as_str());
    moment_of(parse_rfc3339(s), l.as_str(), s, now)
}

/// As `parse_time_param`, but messages quote the text in lower case and without white
/// space around it.
pub fn parse_modified_time(s: &str, now: i64) -> (r: Option<Result<i64, String>>)
    requires
        EARLIEST_SECONDS <= now <= LATEST_SECONDS,
    ensures
        match r {
            None => rfc3339_seconds(s@) is None && too_far(lowercase_of(trimmed(s@)), now as int),
            Some(m) => {
                &&& is_moment(s@, lowercase_of(trimmed(s@)), lowercase_of(trimmed(s@)), now as int, m)
                &&& rfc3339_seconds(s@) is Some || !too_far(lowercase_of(trimmed(s@)), now as int)
            },
        },
{
    let t = trim(s);
    let l = lowercase(t.as_str());
    moment_of(parse_rfc3339(s), l.as_str(), l.as_str(), now)
}

} // verus!
