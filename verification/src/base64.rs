//! Base64 with the standard alphabet and padding.

use vstd::prelude::*;
use vstd::utf8::encode_utf8;

verus! {

/// The character for six bits.
pub open spec fn symbol(v: int) -> u8 {
    if v < 26 {
        (65 + v) as u8
    } else if v < 52 {
        (97 + (v - 26)) as u8
    } else if v < 62 {
        (48 + (v - 52)) as u8
    } else if v == 62 {
        43u8
    } else {
        47u8
    }
}

/// The six bits that a character stands for.
#[verifier::opaque]
pub open spec fn symbol_value(c: u8) -> Option<int> {
    if 65 <= c <= 90 {
        Some(c - 65)
    } else if 97 <= c <= 122 {
        Some(c - 97 + 26)
    } else if 48 <= c <= 57 {
        Some(c - 48 + 52)
    } else if c == 43 {
        Some(62)
    } else if c == 47 {
        Some(63)
    } else {
        None
    }
}

/// The padding character `=`.
pub const PAD: u8 = 61;

/// The four characters for up to three bytes.
pub open spec fn group_text(b: Seq<u8>) -> Seq<u8> {
    let n = b[0] as int * 65536 + (if b.len() > 1 {
        b[1] as int * 256
    } else {
        0
    }) + (if b.len() > 2 {
        b[2] as int
    } else {
        0
    });
    seq![
        symbol(n / 262144),
        symbol(n / 4096 % 64),
        if b.len() > 1 {
            symbol(n / 64 % 64)
        } else {
            PAD
        },
        if b.len() > 2 {
            symbol(n % 64)
        } else {
            PAD
        },
    ]
}

/// The text of a byte string: three bytes at a time become four characters.
pub open spec fn encoded(data: Seq<u8>) -> Seq<u8>
    decreases data.len(),
{
    if data.len() == 0 {
        Seq::empty()
    } else if data.len() <= 3 {
        group_text(data)
    } else {
        group_text(data.take(3)) + encoded(data.skip(3))
    }
}

/// The bytes of four characters: padding in the third or fourth place stands for a
/// missing byte.
#[verifier::opaque]
pub open spec fn group_bytes(c: Seq<u8>) -> Option<Seq<u8>> {
    let v0 = symbol_value(c[0]);
    let v1 = symbol_value(c[1]);
    let v2 = if c[2] == PAD {
        Some(0int)
    } else {
        symbol_value(c[2])
    };
    let v3 = if c[3] == PAD {
        Some(0int)
    } else {
        symbol_value(c[3])
    };
    if v0 is None || v1 is None || v2 is None || v3 is None {
        None
    } else {
        let n = v0->0 * 262144 + v1->0 * 4096 + v2->0 * 64 + v3->0;
        Some(
            seq![(n / 65536) as u8] + (if c[2] != PAD {
                seq![(n / 256 % 256) as u8]
            } else {
                Seq::empty()
            }) + (if c[3] != PAD {
                seq![(n % 256) as u8]
            } else {
                Seq::empty()
            }),
        )
    }
}

/// The bytes of a text. There are none if its length is not a multiple of four or
/// a character is not of the alphabet.
pub open spec fn decoded(text: Seq<u8>) -> Option<Seq<u8>>
    decreases text.len(),
{
    if text.len() == 0 {
        Some(Seq::empty())
    } else if text.len() < 4 {
        None
    } else {
        match (group_bytes(text.take(4)), decoded(text.skip(4))) {
            (Some(a), Some(b)) => Some(a + b),
            _ => None,
        }
    }
}

proof fn lemma_symbol(v: int)
    requires
        0 <= v < 64,
    ensures
        symbol_value(symbol(v)) == Some(v),
        symbol(v) != PAD,
        symbol(v) < 128,
{
    reveal(symbol_value);
}

/// Three bytes and the four groups of six bits that they make.
proof fn lemma_bits(b0: int, b1: int, b2: int, n: int)
    requires
        0 <= b0 < 256,
        0 <= b1 < 256,
        0 <= b2 < 256,
        n == b0 * 65536 + b1 * 256 + b2,
    ensures
        0 <= n / 262144 < 64,
        0 <= n / 4096 % 64 < 64,
        0 <= n / 64 % 64 < 64,
        0 <= n % 64 < 64,
        n == n / 262144 * 262144 + n / 4096 % 64 * 4096 + n / 64 % 64 * 64 + n % 64,
        n / 65536 == b0,
        n / 256 % 256 == b1,
        n % 256 == b2,
        b2 == 0 ==> n % 64 == 0,
        b1 == 0 && b2 == 0 ==> n / 64 % 64 == 0,
{
    let s0 = b0 / 4;
    let s1 = b0 % 4 * 16 + b1 / 16;
    let s2 = b1 % 16 * 4 + b2 / 64;
    let s3 = b2 % 64;
    assert(0 <= s0 < 64 && 0 <= s1 < 64 && 0 <= s2 < 64 && 0 <= s3 < 64);
    assert(n == s0 * 262144 + s1 * 4096 + s2 * 64 + s3);
    lemma_quotient(n, 262144, s0, s1 * 4096 + s2 * 64 + s3);
    lemma_quotient(n, 4096, s0 * 64 + s1, s2 * 64 + s3);
    lemma_quotient(s0 * 64 + s1, 64, s0, s1);
    lemma_quotient(n, 64, s0 * 4096 + s1 * 64 + s2, s3);
    lemma_quotient(s0 * 4096 + s1 * 64 + s2, 64, s0 * 64 + s1, s2);
    lemma_quotient(n, 65536, b0, b1 * 256 + b2);
    lemma_quotient(n, 256, b0 * 256 + b1, b2);
    lemma_quotient(b0 * 256 + b1, 256, b0, b1);
}

proof fn lemma_quotient(n: int, d: int, q: int, r: int)
    by (nonlinear_arith)
    requires
        0 <= r < d,
        n == q * d + r,
    ensures
        n / d == q,
        n % d == r,
{
}

/// The first four characters decode on their own.
proof fn lemma_decoded_step(text: Seq<u8>, head: Seq<u8>, tail: Seq<u8>)
    requires
        head.len() == 4,
        text == head + tail,
    ensures
        decoded(text) == (match (group_bytes(head), decoded(tail)) {
            (Some(a), Some(b)) => Some(a + b),
            _ => None,
        }),
{
    assert(text.take(4) =~= head);
    assert(text.skip(4) =~= tail);
}

proof fn lemma_group(b: Seq<u8>)
    requires
        1 <= b.len() <= 3,
    ensures
        group_text(b).len() == 4,
        group_bytes(group_text(b)) == Some(b),
        forall|i: int| 0 <= i < 4 ==> #[trigger] group_text(b)[i] < 128,
{
    let x1 = if b.len() > 1 { b[1] as int } else { 0 };
    let x2 = if b.len() > 2 { b[2] as int } else { 0 };
    let n = b[0] as int * 65536 + x1 * 256 + x2;
    lemma_bits(b[0] as int, x1, x2, n);
    let s0 = n / 262144;
    let s1 = n / 4096 % 64;
    let s2 = n / 64 % 64;
    let s3 = n % 64;
    lemma_symbol(s0);
    lemma_symbol(s1);
    lemma_symbol(s2);
    lemma_symbol(s3);
    lemma_group_of(b, x1, x2, n, s0, s1, s2, s3);
}

proof fn lemma_group_of(b: Seq<u8>, x1: int, x2: int, n: int, s0: int, s1: int, s2: int, s3: int)
    requires
        1 <= b.len() <= 3,
        x1 == (if b.len() > 1 { b[1] as int } else { 0 }),
        x2 == (if b.len() > 2 { b[2] as int } else { 0 }),
        n == b[0] as int * 65536 + x1 * 256 + x2,
        s0 == n / 262144,
        s1 == n / 4096 % 64,
        s2 == n / 64 % 64,
        s3 == n % 64,
        n == s0 * 262144 + s1 * 4096 + s2 * 64 + s3,
        b.len() <= 2 ==> s3 == 0,
        b.len() <= 1 ==> s2 == 0,
        n / 65536 == b[0],
        n / 256 % 256 == x1,
        n % 256 == x2,
        symbol_value(symbol(s0)) == Some(s0),
        symbol_value(symbol(s1)) == Some(s1),
        symbol_value(symbol(s2)) == Some(s2),
        symbol_value(symbol(s3)) == Some(s3),
        symbol(s2) != PAD,
        symbol(s3) != PAD,
        symbol(s0) < 128,
        symbol(s1) < 128,
        symbol(s2) < 128,
        symbol(s3) < 128,
    ensures
        group_text(b).len() == 4,
        group_bytes(group_text(b)) == Some(b),
        forall|i: int| 0 <= i < 4 ==> #[trigger] group_text(b)[i] < 128,
{
    let c = group_text(b);
    assert(c[0] == symbol(s0));
    assert(c[1] == symbol(s1));
    assert(c[2] == (if b.len() > 1 { symbol(s2) } else { PAD }));
    assert(c[3] == (if b.len() > 2 { symbol(s3) } else { PAD }));
    reveal(group_bytes);
    assert(group_bytes(c) is Some);
    assert(group_bytes(c)->0 =~= b);
}

/// Decoding gives back what was encoded.
pub proof fn law_roundtrip(data: Seq<u8>)
    ensures
        decoded(encoded(data)) == Some(data),
    decreases data.len(),
{
    let text = encoded(data);
    if data.len() == 0 {
    } else if data.len() <= 3 {
        lemma_group(data);
        assert(text.take(4) =~= text);
        assert(text.skip(4) =~= Seq::<u8>::empty());
        assert(data + Seq::<u8>::empty() =~= data);
        assert(decoded(text.skip(4)) == Some(Seq::<u8>::empty()));
    } else {
        lemma_group(data.take(3));
        law_roundtrip(data.skip(3));
        assert(text.take(4) =~= group_text(data.take(3)));
        assert(text.skip(4) =~= encoded(data.skip(3)));
        assert(data.take(3) + data.skip(3) =~= data);
    }
}

/// What is not a multiple of four long does not decode.
pub proof fn lemma_decoded_length(text: Seq<u8>)
    ensures
        text.len() % 4 != 0 ==> decoded(text) is None,
    decreases text.len(),
{
    if text.len() >= 4 {
        lemma_decoded_length(text.skip(4));
    }
}

fn symbol_of(v: u32) -> (c: u8)
    requires
        v < 64,
    ensures
        c == symbol(v as int),
{
    if v < 26 {
        (65 + v) as u8
    } else if v < 52 {
        (97 + (v - 26)) as u8
    } else if v < 62 {
        (48 + (v - 52)) as u8
    } else if v == 62 {
        43
    } else {
        47
    }
}

fn value_of(c: u8) -> (v: Option<u32>)
    ensures
        (v is Some) == (symbol_value(c) is Some),
        v is Some ==> v->0 == symbol_value(c)->0 && v->0 < 64,
{
    reveal(symbol_value);
    if 65 <= c && c <= 90 {
        Some((c - 65) as u32)
    } else if 97 <= c && c <= 122 {
        Some((c - 97 + 26) as u32)
    } else if 48 <= c && c <= 57 {
        Some((c - 48 + 52) as u32)
    } else if c == 43 {
        Some(62)
    } else if c == 47 {
        Some(63)
    } else {
        None
    }
}

/// The characters of ASCII bytes.
pub open spec fn ascii_chars(bytes: Seq<u8>) -> Seq<char> {
    Seq::new(bytes.len(), |i: int| bytes[i] as char)
}

/// Encodes bytes as text.
pub fn base64_encode(data: &[u8]) -> (r: String)
    ensures
        r@ == ascii_chars(encoded(data@)),
        encode_utf8(r@) == encoded(data@),
{
    let mut r = String::new();
    let ghost mut done: Seq<u8> = Seq::empty();
    let mut i: usize = 0;
    assert(data@.skip(0) =~= data@);
    assert(done + encoded(data@) =~= encoded(data@));
    assert(r@ =~= ascii_chars(done));
    while i < data.len()
        invariant
            i <= data@.len(),
            done + encoded(data@.skip(i as int)) == encoded(data@),
            r@ == ascii_chars(done),
            forall|k: int| 0 <= k < done.len() ==> #[trigger] done[k] < 128,
        decreases data@.len() - i,
    {
        let ghost rest = data@.skip(i as int);
        let left = data.len() - i;
        let b0 = data[i] as u32;
        let b1: u32 = if left > 1 { data[i + 1] as u32 } else { 0 };
        let b2: u32 = if left > 2 { data[i + 2] as u32 } else { 0 };
        let n: u32 = b0 * 65536 + b1 * 256 + b2;
        let c0 = symbol_of(n / 262144);
        let c1 = symbol_of(n / 4096 % 64);
        let c2 = if left > 1 { symbol_of(n / 64 % 64) } else { PAD };
        let c3 = if left > 2 { symbol_of(n % 64) } else { PAD };
        let ghost g = if rest.len() <= 3 { rest } else { rest.take(3) };
        let ghost before = done;
        proof {
            lemma_group(g);
            assert(group_text(g) =~= seq![c0, c1, c2, c3]);
            done = done + seq![c0, c1, c2, c3];
        }
        r.push(c0 as char);
        r.push(c1 as char);
        r.push(c2 as char);
        r.push(c3 as char);
        proof {
            assert forall|k: int| 0 <= k < done.len() implies #[trigger] done[k] < 128 by {
                if k >= before.len() {
                    assert(done[k] == group_text(g)[k - before.len()]);
                }
            }
            assert(r@ =~= ascii_chars(done));
        }
        if left > 3 {
            i = i + 3;
            proof {
                assert(data@.skip(i as int) =~= rest.skip(3));
                assert(done + encoded(data@.skip(i as int)) =~= before + (group_text(g) + encoded(rest.skip(3))));
            }
        } else {
            i = data.len();
            proof {
                assert(data@.skip(i as int) =~= Seq::<u8>::empty());
                assert(done + encoded(data@.skip(i as int)) =~= before + group_text(g));
            }
        }
    }
    proof {
        assert(data@.skip(i as int) =~= Seq::<u8>::empty());
        assert(done =~= encoded(data@));
        vstd::utf8::is_ascii_chars_encode_utf8(r@);
        assert(encode_utf8(r@) =~= done);
    }
    r
}

/// Decodes four characters and appends their bytes.
fn decode_group(c0: u8, c1: u8, c2: u8, c3: u8, out: &mut Vec<u8>) -> (ok: bool)
    ensures
        match group_bytes(seq![c0, c1, c2, c3]) {
            Some(b) => ok && final(out)@ == old(out)@ + b,
            None => !ok,
        },
{
    let ghost c = seq![c0, c1, c2, c3];
    let ghost before = out@;
    reveal(group_bytes);
    let pad2 = c2 == PAD;
    let pad3 = c3 == PAD;
    let v2 = if pad2 { Some(0u32) } else { value_of(c2) };
    let v3 = if pad3 { Some(0u32) } else { value_of(c3) };
    match (value_of(c0), value_of(c1), v2, v3) {
        (Some(b0), Some(b1), Some(b2), Some(b3)) => {
            let n: u32 = b0 * 262144 + b1 * 4096 + b2 * 64 + b3;
            out.push((n / 65536) as u8);
            if !pad2 {
                out.push((n / 256 % 256) as u8);
            }
            if !pad3 {
                out.push((n % 256) as u8);
            }
            assert(out@ =~= before + group_bytes(c)->0);
            true
        },
        _ => false,
    }
}

/// The whole result is what came first and what the rest gives, if that gives anything.
pub open spec fn continues(whole: Option<Seq<u8>>, first: Seq<u8>, rest: Option<Seq<u8>>) -> bool {
    match rest {
        Some(r) => whole == Some(first + r),
        None => whole is None,
    }
}

fn decode_bytes(bytes: &[u8]) -> (r: Option<Vec<u8>>)
    ensures
        match r {
            Some(v) => decoded(bytes@) == Some(v@),
            None => decoded(bytes@) is None,
        },
{
    let ghost all = bytes@;
    if bytes.len() % 4 != 0 {
        proof {
            lemma_decoded_length(all);
        }
        return None;
    }
    let mut out: Vec<u8> = Vec::new();
    let mut i: usize = 0;
    assert(all.skip(0) =~= all);
    assert(decoded(all) is Some ==> out@ + decoded(all)->0 =~= decoded(all)->0);
    while i < bytes.len()
        invariant
            all == bytes@,
            i <= all.len(),
            i % 4 == 0,
            all.len() % 4 == 0,
            continues(decoded(all), out@, decoded(all.skip(i as int))),
        decreases all.len() - i,
    {
        assert(i + 4 <= all.len());
        let ghost c = seq![all[i as int], all[i + 1], all[i + 2], all[i + 3]];
        let ghost before = out@;
        proof {
            assert(all.skip(i as int) =~= c + all.skip(i + 4));
            lemma_decoded_step(all.skip(i as int), c, all.skip(i + 4));
        }
        if !decode_group(bytes[i], bytes[i + 1], bytes[i + 2], bytes[i + 3], &mut out) {
            return None;
        }
        proof {
            if decoded(all.skip(i + 4)) is Some {
                let tail = decoded(all.skip(i + 4))->0;
                assert(before + (group_bytes(c)->0 + tail) =~= out@ + tail);
            }
        }
        i = i + 4;
    }
    assert(all.skip(i as int) =~= Seq::<u8>::empty());
    assert(out@ + Seq::<u8>::empty() =~= out@);
    Some(out)
}

/// Decodes text to bytes.
pub fn base64_decode(s: &str) -> (r: Option<Vec<u8>>)
    ensures
        match r {
            Some(v) => decoded(encode_utf8(s@)) == Some(v@),
            None => decoded(encode_utf8(s@)) is None,
        },
{
    decode_bytes(s.as_bytes())
}

/// Six bits stand for a capital letter, a small letter, a digit, a plus or a slash, in this
/// order; three bytes make four such characters, and missing bytes are padded.
pub proof fn law_characters(v: int, a: u8, b: u8, c: u8)
    requires
        0 <= v < 64,
    ensures
        v < 26 ==> symbol(v) == 65 + v,
        26 <= v < 52 ==> symbol(v) == 97 + (v - 26),
        52 <= v < 62 ==> symbol(v) == 48 + (v - 52),
        v == 62 ==> symbol(v) == 43,
        v == 63 ==> symbol(v) == 47,
        encoded(seq![a, b, c]) == seq![
            symbol(a as int / 4),
            symbol(a as int % 4 * 16 + b as int / 16),
            symbol(b as int % 16 * 4 + c as int / 64),
            symbol(c as int % 64),
        ],
        encoded(seq![a, b]) == seq![
            symbol(a as int / 4),
            symbol(a as int % 4 * 16 + b as int / 16),
            symbol(b as int % 16 * 4),
            61u8,
        ],
        encoded(seq![a]) == seq![symbol(a as int / 4), symbol(a as int % 4 * 16), 61u8, 61u8],
{
    lemma_sixes(a as int, b as int, c as int);
    lemma_sixes(a as int, b as int, 0);
    lemma_sixes(a as int, 0, 0);
    assert(encoded(seq![a, b, c]) == group_text(seq![a, b, c]));
    assert(encoded(seq![a, b]) == group_text(seq![a, b]));
    assert(encoded(seq![a]) == group_text(seq![a]));
}

/// The six bits at each of four places of three bytes.
proof fn lemma_sixes(a: int, b: int, c: int)
    requires
        0 <= a < 256,
        0 <= b < 256,
        0 <= c < 256,
    ensures
        (a * 65536 + b * 256 + c) / 262144 == a / 4,
        (a * 65536 + b * 256 + c) / 4096 % 64 == a % 4 * 16 + b / 16,
        (a * 65536 + b * 256 + c) / 64 % 64 == b % 16 * 4 + c / 64,
        (a * 65536 + b * 256 + c) % 64 == c % 64,
{
    let n = a * 65536 + b * 256 + c;
    let (p, q) = (a / 4, a % 4);
    let (s, t) = (b / 16, b % 16);
    let (x, y) = (c / 64, c % 64);
    assert(a == 4 * p + q && b == 16 * s + t && c == 64 * x + y);
    assert(n == p * 262144 + (q * 16 + s) * 4096 + (t * 4 + x) * 64 + y);
    assert(n / 262144 == p);
    assert(n / 4096 == p * 64 + (q * 16 + s));
    assert(n / 64 == p * 4096 + (q * 16 + s) * 64 + (t * 4 + x));
}

/// A text is encoded three bytes at a time.
pub proof fn law_encoded_in_groups(head: Seq<u8>, tail: Seq<u8>)
    requires
        head.len() == 3,
    ensures
        encoded(head + tail) == encoded(head) + encoded(tail),
        encoded(Seq::empty()).len() == 0,
{
    let all = head + tail;
    if tail.len() == 0 {
        assert(all =~= head);
        assert(encoded(head) + encoded(tail) =~= encoded(head));
    } else {
        assert(all.take(3) =~= head);
        assert(all.skip(3) =~= tail);
    }
}

} // verus!
