//! Decimal numbers as text.

use crate::text::{chars_of, string_of};
use vstd::prelude::*;

verus! {

/// The character for a digit.
pub open spec fn digit_char(d: int) -> char {
    if d == 0 {
        '0'
    } else if d == 1 {
        '1'
    } else if d == 2 {
        '2'
    } else if d == 3 {
        '3'
    } else if d == 4 {
        '4'
    } else if d == 5 {
        '5'
    } else if d == 6 {
        '6'
    } else if d == 7 {
        '7'
    } else if d == 8 {
        '8'
    } else {
        '9'
    }
}

/// The character is an ASCII digit.
pub open spec fn is_digit(c: char) -> bool {
    '0' <= c <= '9'
}

/// What a digit stands for.
pub open spec fn digit_value(c: char) -> int {
    c as int - '0' as int
}

/// A number in decimal notation.
pub open spec fn decimal_text(n: nat) -> Seq<char>
    decreases n,
{
    if n < 10 {
        seq![digit_char(n as int)]
    } else {
        decimal_text(n / 10).push(digit_char((n % 10) as int))
    }
}

/// An integer in decimal notation.
pub open spec fn integer_text(i: int) -> Seq<char> {
    if i < 0 {
        seq!['-'] + decimal_text((-i) as nat)
    } else {
        decimal_text(i as nat)
    }
}

/// The number that a sequence of digits stands for.
pub open spec fn number_value(s: Seq<char>) -> int
    decreases s.len(),
{
    if s.len() == 0 {
        0
    } else {
        number_value(s.drop_last()) * 10 + digit_value(s.last())
    }
}

/// There is at least one character, and all are digits.
pub open spec fn all_digits(s: Seq<char>) -> bool {
    s.len() > 0 && forall|i: int| 0 <= i < s.len() ==> is_digit(#[trigger] s[i])
}

/// The number that a text stands for, if it is an unsigned number without or with a
/// plus sign in front that is at most `limit`.
pub open spec fn unsigned_value(s: Seq<char>, limit: int) -> Option<int> {
    let body = if s.len() > 0 && s[0] == '+' {
        s.skip(1)
    } else {
        s
    };
    if all_digits(body) && number_value(body) <= limit {
        Some(number_value(body))
    } else {
        None
    }
}

/// The number that a text stands for, if it is a number, with or without a sign in
/// front, in the range of 64 bits.
pub open spec fn i64_value(s: Seq<char>) -> Option<int> {
    if s.len() > 0 && s[0] == '-' {
        let body = s.skip(1);
        if all_digits(body) && -number_value(body) >= i64::MIN {
            Some(-number_value(body))
        } else {
            None
        }
    } else {
        unsigned_value(s, i64::MAX as int)
    }
}

proof fn lemma_digit(d: int)
    requires
        0 <= d < 10,
    ensures
        is_digit(digit_char(d)),
        digit_value(digit_char(d)) == d,
{
}

/// A decimal number reads back as itself.
pub proof fn law_decimal_roundtrip(n: nat)
    ensures
        all_digits(decimal_text(n)),
        number_value(decimal_text(n)) == n,
    decreases n,
{
    let t = decimal_text(n);
    if n < 10 {
        lemma_digit(n as int);
        assert(t.drop_last() =~= Seq::<char>::empty());
        assert(number_value(t.drop_last()) == 0);
        assert(t.last() == digit_char(n as int));
        assert(forall|i: int| 0 <= i < t.len() ==> t[i] == digit_char(n as int));
    } else {
        law_decimal_roundtrip(n / 10);
        lemma_digit((n % 10) as int);
        assert(t.drop_last() =~= decimal_text(n / 10));
        assert forall|i: int| 0 <= i < t.len() implies is_digit(#[trigger] t[i]) by {
            if i < t.len() - 1 {
                assert(t[i] == decimal_text(n / 10)[i]);
            }
        }
    }
}

/// An integer of 64 bits reads back as itself.
pub proof fn law_integer_roundtrip(i: int)
    requires
        i64::MIN <= i <= i64::MAX,
    ensures
        i64_value(integer_text(i)) == Some(i),
{
    if i < 0 {
        law_decimal_roundtrip((-i) as nat);
        assert(integer_text(i).skip(1) =~= decimal_text((-i) as nat));
        assert(integer_text(i)[0] == '-');
    } else {
        law_decimal_roundtrip(i as nat);
        assert(is_digit(decimal_text(i as nat)[0]));
    }
}

/// An unsigned integer of 64 bits reads back as itself.
pub proof fn law_unsigned_roundtrip(n: nat)
    requires
        n <= u64::MAX,
    ensures
        unsigned_value(decimal_text(n), u64::MAX as int) == Some(n as int),
{
    law_decimal_roundtrip(n);
    assert(is_digit(decimal_text(n)[0]));
}

fn digit(d: u64) -> (c: char)
    requires
        d < 10,
    ensures
        c == digit_char(d as int),
{
    if d == 0 {
        '0'
    } else if d == 1 {
        '1'
    } else if d == 2 {
        '2'
    } else if d == 3 {
        '3'
    } else if d == 4 {
        '4'
    } else if d == 5 {
        '5'
    } else if d == 6 {
        '6'
    } else if d == 7 {
        '7'
    } else if d == 8 {
        '8'
    } else {
        '9'
    }
}

/// The digits of a number, from the highest.
pub fn decimal_chars(n: u128) -> (r: Vec<char>)
    ensures
        r@ == decimal_text(n as nat),
    decreases n,
{
    if n < 10 {
        let mut r: Vec<char> = Vec::new();
        r.push(digit(n as u64));
        assert(r@ =~= decimal_text(n as nat));
        r
    } else {
        let mut r = decimal_chars(n / 10);
        r.push(digit((n % 10) as u64));
        r
    }
}

/// Writes an unsigned number.
pub fn decimal(n: u64) -> (r: String)
    ensures
        r@ == decimal_text(n as nat),
{
    string_of(decimal_chars(n as u128).as_slice())
}

/// Writes an unsigned number of up to 128 bits.
pub fn wide_decimal(n: u128) -> (r: String)
    ensures
        r@ == decimal_text(n as nat),
{
    string_of(decimal_chars(n).as_slice())
}

/// The size of a signed number.
pub fn magnitude(i: i64) -> (n: u64)
    ensures
        n == (if i < 0 {
            -(i as int)
        } else {
            i as int
        }),
{
    if i >= 0 {
        i as u64
    } else if i == i64::MIN {
        9223372036854775808
    } else {
        (-i) as u64
    }
}

/// Writes a signed number.
pub fn signed_decimal(i: i64) -> (r: String)
    ensures
        r@ == integer_text(i as int),
{
    if i < 0 {
        let mut r = String::new();
        r.push('-');
        let digits = decimal(magnitude(i));
        r.append(digits.as_str());
        assert(r@ =~= integer_text(i as int));
        r
    } else {
        decimal(i as u64)
    }
}

proof fn lemma_value_grows(s: Seq<char>, n: int)
    requires
        0 <= n <= s.len(),
        forall|i: int| 0 <= i < s.len() ==> is_digit(#[trigger] s[i]),
    ensures
        0 <= number_value(s.take(n)) <= number_value(s),
    decreases s.len(),
{

    if n < s.len() {
        lemma_value_grows(s.drop_last(), n);
        assert(s.drop_last().take(n) =~= s.take(n));
        assert(is_digit(s.last()));
    } else {
        assert(s.take(n) =~= s);
        if n > 0 {
            lemma_value_grows(s.drop_last(), n - 1);
            assert(s.drop_last().take(n - 1) =~= s.drop_last());
            assert(is_digit(s.last()));
        }
    }
}

/// The number that the characters from `from` on stand for, if they are digits and
/// the number has at most 64 bits.
pub fn parse_digits(chars: &Vec<char>, from: usize) -> (r: Option<u64>)
    requires
        from <= chars@.len(),
    ensures
        r == (if all_digits(chars@.skip(from as int)) && number_value(chars@.skip(from as int)) <= u64::MAX {
            Some(number_value(chars@.skip(from as int)) as u64)
        } else {
            None
        }),
{
    let ghost s = chars@.skip(from as int);
    if from == chars.len() {
        return None;
    }
    let mut acc: u64 = 0;
    let mut i: usize = from;
    assert(s.take(0) =~= Seq::<char>::empty());
    while i < chars.len()
        invariant
            from <= i <= chars@.len(),
            s == chars@.skip(from as int),
            forall|k: int| 0 <= k < i - from ==> is_digit(#[trigger] s[k]),
            acc == number_value(s.take(i - from)),
        decreases chars@.len() - i,
    {
        let c = chars[i];
        assert(c == s[i - from]);
        if c < '0' || c > '9' {
            assert(!is_digit(s[i - from]));
            return None;
        }
        let d: u64 = (c as u32 - 48) as u64;
        proof {
            let p = s.take(i - from + 1);
            assert(p.drop_last() =~= s.take(i - from));
            assert(p.last() == c);
            assert(number_value(p) == acc * 10 + d);
            if all_digits(s) {
                lemma_value_grows(s, i - from + 1);
            }
        }
        if acc > 1844674407370955161 || (acc == 1844674407370955161 && d > 5) {
            return None;
        }
        acc = acc * 10 + d;
        i = i + 1;
    }
    assert(s.take(i - from) =~= s);
    Some(acc)
}

/// Reads an unsigned number of 64 bits.
pub fn parse_u64(s: &str) -> (r: Option<u64>)
    ensures
        r == (match unsigned_value(s@, u64::MAX as int) {
            Some(v) => Some(v as u64),
            None => None,
        }),
{
    let chars = chars_of(s);
    assert(chars@.skip(0) =~= chars@);
    if chars.len() > 0 && chars[0] == '+' {
        parse_digits(&chars, 1)
    } else {
        parse_digits(&chars, 0)
    }
}

/// Reads a signed number of 64 bits.
pub fn parse_i64(s: &str) -> (r: Option<i64>)
    ensures
        r == (match i64_value(s@) {
            Some(v) => Some(v as i64),
            None => None,
        }),
{
    let chars = chars_of(s);
    assert(chars@.skip(0) =~= chars@);
    proof {
        if all_digits(s@) {
            lemma_value_grows(s@, 0);
        }
        if s@.len() > 0 && all_digits(s@.skip(1)) {
            lemma_value_grows(s@.skip(1), 0);
        }
    }
    if chars.len() > 0 && chars[0] == '-' {
        match parse_digits(&chars, 1) {
            Some(v) => {
                if v <= 9223372036854775807 {
                    Some(-(v as i64))
                } else if v == 9223372036854775808 {
                    Some(i64::MIN)
                } else {
                    None
                }
            },
            None => None,
        }
    } else {
        let v = if chars.len() > 0 && chars[0] == '+' {
            parse_digits(&chars, 1)
        } else {
            parse_digits(&chars, 0)
        };
        match v {
            Some(v) => {
                if v <= 9223372036854775807 {
                    Some(v as i64)
                } else {
                    None
                }
            },
            None => None,
        }
    }
}

/// Digits stand for no negative number.
pub proof fn lemma_value_nonneg(s: Seq<char>)
    requires
        all_digits(s),
    ensures
        number_value(s) >= 0,
{
    lemma_value_grows(s, 0);
}

/// Numbers that are read are in range.
pub proof fn lemma_value_ranges(s: Seq<char>)
    ensures
        i64_value(s) is Some ==> i64::MIN <= i64_value(s)->0 <= i64::MAX,
        unsigned_value(s, u64::MAX as int) is Some ==> 0 <= unsigned_value(s, u64::MAX as int)->0 <= u64::MAX,
{
    if all_digits(s) {
        lemma_value_grows(s, 0);
    }
    if s.len() > 0 && all_digits(s.skip(1)) {
        lemma_value_grows(s.skip(1), 0);
    }
}

/// A number holds no colon.
pub proof fn lemma_no_colon(i: int)
    ensures
        !integer_text(i).contains(':'),
{
    let n = if i < 0 { (-i) as nat } else { i as nat };
    law_decimal_roundtrip(n);
    let t = integer_text(i);
    let d = decimal_text(n);
    assert forall|k: int| 0 <= k < t.len() implies t[k] != ':' by {
        if i < 0 {
            if k > 0 {
                assert(t[k] == d[k - 1]);
                assert(is_digit(d[k - 1]));
            }
        } else {
            assert(is_digit(d[k]));
        }
    }
}

/// The character for a hexadecimal digit.
pub open spec fn hex_char(d: int) -> char {
    if d < 10 {
        digit_char(d)
    } else if d == 10 {
        'a'
    } else if d == 11 {
        'b'
    } else if d == 12 {
        'c'
    } else if d == 13 {
        'd'
    } else if d == 14 {
        'e'
    } else {
        'f'
    }
}

/// A number in hexadecimal notation.
pub open spec fn hex_text(n: nat) -> Seq<char>
    decreases n,
{
    if n < 16 {
        seq![hex_char(n as int)]
    } else {
        hex_text(n / 16).push(hex_char((n % 16) as int))
    }
}

fn hex_digit(d: u64) -> (c: char)
    requires
        d < 16,
    ensures
        c == hex_char(d as int),
{
    if d < 10 {
        digit(d)
    } else if d == 10 {
        'a'
    } else if d == 11 {
        'b'
    } else if d == 12 {
        'c'
    } else if d == 13 {
        'd'
    } else if d == 14 {
        'e'
    } else {
        'f'
    }
}

fn hex_chars(n: u128) -> (r: Vec<char>)
    ensures
        r@ == hex_text(n as nat),
    decreases n,
{
    if n < 16 {
        let mut r: Vec<char> = Vec::new();
        r.push(hex_digit(n as u64));
        assert(r@ =~= hex_text(n as nat));
        r
    } else {
        let mut r = hex_chars(n / 16);
        r.push(hex_digit((n % 16) as u64));
        r
    }
}

/// Writes a number in hexadecimal notation.
pub fn hexadecimal(n: u128) -> (r: String)
    ensures
        r@ == hex_text(n as nat),
{
    string_of(hex_chars(n).as_slice())
}

/// A number of one digit is that digit of ASCII, and any other one has its last digit behind
/// the digits of its tenth part; a minus stands in front of a negative number.
pub proof fn law_decimal_digits(n: nat, d: int)
    requires
        0 <= d < 10,
    ensures
        decimal_text(d as nat).len() == 1,
        decimal_text(d as nat)[0] as int == 48 + d,
        n > 0 ==> decimal_text((10 * n + d) as nat) == decimal_text(n) + decimal_text(d as nat),
        n > 0 ==> integer_text(-(n as int)) == seq!['-'] + decimal_text(n),
        integer_text(n as int) == decimal_text(n),
{
    if n > 0 {
        let m = (10 * n + d) as nat;
        assert(m / 10 == n && m % 10 == d);
        assert(decimal_text(m) =~= decimal_text(n) + decimal_text(d as nat));
    }
}

} // verus!
