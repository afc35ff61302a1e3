//! Search: the documents of the index, the plan of a query, and which hits are stale.

use crate::ancestry::{get_fact_path, is_fact_path};
use crate::calendar::{parse_rfc3339, rfc3339_seconds};
use crate::decimal::{decimal, decimal_text, wide_decimal};
use crate::model::{DaemonState, Fact};
use crate::text::{
    chars_of, is_white, lowercase, lowercase_of, replace_char, replaced, skip_leading, slice_text,
    str_eq, string_of, trim, trimmed, views, without_leading,
};
use vstd::prelude::*;
use vstd::utf8::encode_utf8;

verus! {

/// What the index was last brought up to date with.
#[derive(Debug, Clone)]
pub struct SearchIndexMeta {
    pub schema_version: u32,
    pub last_synced_sequence: i64,
}

/// A text field of the index.
#[derive(Debug, Clone, Copy, PartialEq, Eq, Structural)]
pub enum Field {
    Name,
    /// The whole name in lower case.
    NameLower,
    /// Overlapping pieces of the name.
    NameNgram,
    Path,
    Ext,
    Volume,
    Attributes,
}

/// One condition of a query.
#[allow(inconsistent_fields)]
pub enum Clause {
    All,
    /// A text in the notation of the query parser.
    Parsed { field: Field, text: String },
    Term { field: Field, text: String },
    Regex { field: Field, pattern: String },
    /// A term up to a number of edits, or the beginning of one.
    Fuzzy { field: Field, text: String, distance: u8 },
    /// Sizes from `from` up to but not including `to`.
    Size { from: u64, to: u64 },
    /// Times from `from` up to but not including `to`.
    Modified { from: i64, to: i64 },
}

/// A condition as plain values.
#[allow(inconsistent_fields)]
pub enum ClauseView {
    All,
    Parsed { field: Field, text: Seq<char> },
    Term { field: Field, text: Seq<char> },
    Regex { field: Field, pattern: Seq<char> },
    Fuzzy { field: Field, text: Seq<char>, distance: u8 },
    Size { from: u64, to: u64 },
    Modified { from: i64, to: i64 },
}

pub open spec fn clause_view(c: Clause) -> ClauseView {
    match c {
        Clause::All => ClauseView::All,
        Clause::Parsed { field, text } => ClauseView::Parsed { field, text: text@ },
        Clause::Term { field, text } => ClauseView::Term { field, text: text@ },
        Clause::Regex { field, pattern } => ClauseView::Regex { field, pattern: pattern@ },
        Clause::Fuzzy { field, text, distance } => ClauseView::Fuzzy { field, text: text@, distance },
        Clause::Size { from, to } => ClauseView::Size { from, to },
        Clause::Modified { from, to } => ClauseView::Modified { from, to },
    }
}

pub open spec fn clause_views(cs: Seq<Clause>) -> Seq<ClauseView> {
    Seq::new(cs.len(), |i: int| clause_view(cs[i]))
}

/// A group of conditions, any of which makes a hit, with the weight of such a hit.
pub struct Tier {
    /// The weight, in tenths.
    pub boost: u32,
    /// Whether each condition carries the weight, or the group as a whole.
    pub boost_each: bool,
    /// Whether all conditions must hold, or any.
    pub all: bool,
    pub clauses: Vec<Clause>,
}

pub struct TierView {
    pub boost: u32,
    pub boost_each: bool,
    pub all: bool,
    pub clauses: Seq<ClauseView>,
}

pub open spec fn tier_view(t: Tier) -> TierView {
    TierView {
        boost: t.boost,
        boost_each: t.boost_each,
        all: t.all,
        clauses: clause_views(t.clauses@),
    }
}

pub open spec fn tier_views(ts: Seq<Tier>) -> Seq<TierView> {
    Seq::new(ts.len(), |i: int| tier_view(ts[i]))
}

/// A condition that must hold, or must not.
pub struct Filter {
    pub must: bool,
    pub clause: Clause,
}

pub open spec fn filter_views(fs: Seq<Filter>) -> Seq<(bool, ClauseView)> {
    Seq::new(fs.len(), |i: int| (fs[i].must, clause_view(fs[i].clause)))
}

/// A query: at least one of the tiers must match if there are any, and all filters
/// must hold.
pub struct SearchPlan {
    pub tiers: Vec<Tier>,
    pub filters: Vec<Filter>,
}

/// What is searched for.
pub struct SearchRequest {
    pub query: String,
    pub path: Option<String>,
    pub ext: Option<String>,
    pub volume: Option<String>,
    pub min_size: Option<u64>,
    pub max_size: Option<u64>,
    pub modified_after: Option<i64>,
    pub modified_before: Option<i64>,
    pub hidden: Option<bool>,
    pub system: Option<bool>,
    /// Whether words may match in part or with errors.
    pub advanced: bool,
}

/// The character has a meaning in regular expressions.
pub open spec fn is_special(c: char) -> bool {
    c == '\\' || c == '.' || c == '+' || c == '*' || c == '?' || c == '(' || c == ')' || c == '|' || c == '[' || c
        == ']' || c == '{' || c == '}' || c == '^' || c == '$'
}

/// A text as a regular expression that matches it literally.
pub open spec fn escaped(s: Seq<char>) -> Seq<char>
    decreases s.len(),
{
    if s.len() == 0 {
        Seq::empty()
    } else {
        let rest = escaped(s.drop_last());
        if is_special(s.last()) {
            rest.push('\\').push(s.last())
        } else {
            rest.push(s.last())
        }
    }
}

/// Escapes what has a meaning in regular expressions.
pub fn escape_re(s: &str) -> (r: String)
    ensures
        r@ == escaped(s@),
{
    let chars = chars_of(s);
    let mut r = String::new();
    let mut i: usize = 0;
    assert(s@.take(0) =~= Seq::<char>::empty());
    while i < chars.len()
        invariant
            chars@ == s@,
            i <= s@.len(),
            r@ == escaped(s@.take(i as int)),
        decreases s@.len() - i,
    {
        let c = chars[i];
        assert(s@.take(i + 1).drop_last() =~= s@.take(i as int));
        assert(s@.take(i + 1).last() == c);
        if c == '\\' || c == '.' || c == '+' || c == '*' || c == '?' || c == '(' || c == ')' || c == '|' || c == '['
            || c == ']' || c == '{' || c == '}' || c == '^' || c == '$' {
            r.push('\\');
        }
        r.push(c);
        i = i + 1;
    }
    assert(s@.take(i as int) =~= s@);
    r
}

/// The words of a text: the longest pieces without white space.
pub open spec fn words_of(s: Seq<char>) -> Seq<Seq<char>>
    decreases s.len(),
{
    if s.len() == 0 {
        Seq::empty()
    } else {
        let rest = words_of(s.drop_last());
        if is_white(s.last()) {
            rest
        } else if s.len() >= 2 && !is_white(s[s.len() - 2]) {
            rest.update(rest.len() - 1, rest.last().push(s.last()))
        } else {
            rest.push(seq![s.last()])
        }
    }
}

/// Splits a text into its words.
pub fn split_words(s: &str) -> (r: Vec<String>)
    ensures
        views(r@) == words_of(s@),
{
    let chars = chars_of(s);
    let mut r: Vec<String> = Vec::new();
    let mut word = String::new();
    let mut inside = false;
    let mut i: usize = 0;
    assert(s@.take(0) =~= Seq::<char>::empty());
    assert(views(r@) =~= Seq::<Seq<char>>::empty());
    while i < chars.len()
        invariant
            chars@ == s@,
            i <= s@.len(),
            inside == (i > 0 && !is_white(s@[i - 1])),
            words_of(s@.take(i as int)) == (if inside {
                views(r@).push(word@)
            } else {
                views(r@)
            }),
        decreases s@.len() - i,
    {
        let c = chars[i];
        let ghost part = s@.take(i as int);
        let ghost more = s@.take(i + 1);
        let ghost done = views(r@);
        proof {
            assert(more.drop_last() =~= part);
            assert(more.last() == c);
            if i > 0 {
                assert(more[more.len() - 2] == s@[i - 1]);
            }
        }
        if crate::text::white(c) {
            if inside {
                let ghost w = word@;
                r.push(word);
                word = String::new();
                inside = false;
                assert(views(r@) =~= done.push(w));
            }
        } else {
            if !inside {
                word = String::new();
                inside = true;
            }
            let ghost w = word@;
            word.push(c);
            proof {
                if i > 0 && !is_white(s@[i - 1]) {
                    let rest = done.push(w);
                    assert(rest.update(rest.len() - 1, rest.last().push(c)) =~= done.push(word@));
                } else {
                    assert(word@ =~= seq![c]);
                }
            }
        }
        i = i + 1;
    }
    assert(s@.take(i as int) =~= s@);
    if inside {
        let ghost done = views(r@);
        let ghost w = word@;
        r.push(word);
        assert(views(r@) =~= done.push(w));
    }
    r
}

/// The number of bytes of a text.
pub open spec fn byte_len(s: Seq<char>) -> nat {
    encode_utf8(s).len()
}

fn byte_count(s: &str) -> (n: usize)
    ensures
        n == byte_len(s@),
{
    s.as_bytes().len()
}

/// The pieces of the given length, from the left.
pub open spec fn grams_of_size(s: Seq<char>, size: int) -> Seq<ClauseView> {
    Seq::new(
        if s.len() >= size {
            (s.len() - size + 1) as nat
        } else {
            0
        },
        |i: int| ClauseView::Term { field: Field::NameNgram, text: s.subrange(i, i + size) },
    )
}

/// The pieces of lengths from 3 up to `size`, the short ones first.
pub open spec fn grams_up_to(s: Seq<char>, size: int) -> Seq<ClauseView>
    decreases size,
{
    if size < 3 {
        Seq::empty()
    } else {
        grams_up_to(s, size - 1) + grams_of_size(s, size)
    }
}

/// A text without its blanks.
pub open spec fn without_blanks(s: Seq<char>) -> Seq<char> {
    s.filter(|c: char| c != ' ')
}

/// How a word is looked for.
#[derive(Debug, Clone, Copy, PartialEq, Eq, Structural)]
pub enum WordMatch {
    Whole,
    Prefix,
    Infix,
    Fuzzy,
}

/// The condition on a word. Longer words may have two errors, shorter ones one.
pub open spec fn word_clause(w: Seq<char>, how: WordMatch) -> ClauseView {
    match how {
        WordMatch::Whole => ClauseView::Term { field: Field::Name, text: w },
        WordMatch::Prefix => ClauseView::Regex { field: Field::Name, pattern: escaped(w) + ".*"@ },
        WordMatch::Infix => ClauseView::Regex { field: Field::Name, pattern: ".*"@ + escaped(w) + ".*"@ },
        WordMatch::Fuzzy => ClauseView::Fuzzy {
            field: Field::Name,
            text: w,
            distance: if byte_len(w) > 5 {
                2
            } else {
                1
            },
        },
    }
}

/// The conditions on each word, in order.
pub open spec fn per_word(words: Seq<Seq<char>>, how: WordMatch) -> Seq<ClauseView> {
    Seq::new(words.len(), |i: int| word_clause(words[i], how))
}

/// One tier, if it applies.
pub open spec fn tier_if(on: bool, t: TierView) -> Seq<TierView> {
    if on {
        seq![t]
    } else {
        Seq::empty()
    }
}

/// The query in quotes.
pub open spec fn quoted(q: Seq<char>) -> Seq<char> {
    seq!['"'] + q + seq!['"']
}

/// The words that may match with errors.
pub open spec fn long_words(words: Seq<Seq<char>>) -> Seq<Seq<char>> {
    words.filter(|w: Seq<char>| byte_len(w) > 2)
}

/// The tiers of an advanced search, from the whole name down to words with errors.
pub open spec fn advanced_tiers(q: Seq<char>) -> Seq<TierView> {
    let words = words_of(q);
    let grams = without_blanks(q);
    let exact = seq![ClauseView::Parsed { field: Field::Name, text: quoted(q) }];
    tier_if(true, TierView { boost: 100, boost_each: false, all: true, clauses: exact }) + tier_if(
        words.len() > 1,
        TierView { boost: 60, boost_each: false, all: true, clauses: exact },
    ) + tier_if(
        true,
        TierView {
            boost: 30,
            boost_each: false,
            all: true,
            clauses: per_word(words, WordMatch::Whole),
        },
    ) + tier_if(
        true,
        TierView {
            boost: 15,
            boost_each: true,
            all: true,
            clauses: per_word(words, WordMatch::Prefix),
        },
    ) + tier_if(
        byte_len(grams) >= 3 && grams_up_to(grams, 10).len() > 0,
        TierView { boost: 12, boost_each: false, all: false, clauses: grams_up_to(grams, 10) },
    ) + tier_if(
        forall|i: int| 0 <= i < words.len() ==> byte_len(#[trigger] words[i]) >= 2,
        TierView {
            boost: 11,
            boost_each: true,
            all: true,
            clauses: per_word(words, WordMatch::Infix),
        },
    ) + tier_if(
        long_words(words).len() > 0,
        TierView {
            boost: 8,
            boost_each: true,
            all: true,
            clauses: per_word(long_words(words), WordMatch::Fuzzy),
        },
    )
}

fn clause_for(w: &String, how: WordMatch) -> (c: Clause)
    ensures
        clause_view(c) == word_clause(w@, how),
{
    match how {
        WordMatch::Whole => Clause::Term { field: Field::Name, text: w.clone() },
        WordMatch::Prefix => {
            let mut pattern = escape_re(w.as_str());
            pattern.append(".*");
            Clause::Regex { field: Field::Name, pattern }
        },
        WordMatch::Infix => {
            let mut pattern = ".*".to_owned();
            let body = escape_re(w.as_str());
            pattern.append(body.as_str());
            pattern.append(".*");
            Clause::Regex { field: Field::Name, pattern }
        },
        WordMatch::Fuzzy => {
            let distance: u8 = if byte_count(w.as_str()) > 5 { 2 } else { 1 };
            Clause::Fuzzy { field: Field::Name, text: w.clone(), distance }
        },
    }
}

fn clauses_for(words: &Vec<String>, how: WordMatch) -> (r: Vec<Clause>)
    ensures
        clause_views(r@) == per_word(views(words@), how),
{
    let mut r: Vec<Clause> = Vec::new();
    let mut i: usize = 0;
    while i < words.len()
        invariant
            i <= words@.len(),
            clause_views(r@) =~= per_word(views(words@), how).take(i as int),
        decreases words@.len() - i,
    {
        let ghost before = clause_views(r@);
        r.push(clause_for(&words[i], how));
        assert(clause_views(r@) =~= before.push(word_clause(views(words@)[i as int], how)));
        i = i + 1;
    }
    assert(clause_views(r@) =~= per_word(views(words@), how));
    r
}

fn keep_long(words: &Vec<String>) -> (r: Vec<String>)
    ensures
        views(r@) == long_words(views(words@)),
{
    let ghost all = views(words@);
    let ghost pred = |w: Seq<char>| byte_len(w) > 2;
    let mut r: Vec<String> = Vec::new();
    let mut i: usize = 0;
    assert(all.take(0).filter(pred) =~= Seq::<Seq<char>>::empty()) by {
        reveal(Seq::filter);
    }
    assert(views(r@) =~= Seq::<Seq<char>>::empty());
    while i < words.len()
        invariant
            all == views(words@),
            pred == (|w: Seq<char>| byte_len(w) > 2),
            i <= words@.len(),
            views(r@) == all.take(i as int).filter(pred),
        decreases words@.len() - i,
    {
        let ghost before = views(r@);
        proof {
            reveal(Seq::filter);
            assert(all.take(i + 1).drop_last() =~= all.take(i as int));
            assert(all.take(i + 1).last() == words@[i as int]@);
        }
        if byte_count(words[i].as_str()) > 2 {
            r.push(words[i].clone());
            assert(views(r@) =~= before.push(words@[i as int]@));
        }
        i = i + 1;
    }
    assert(all.take(i as int) =~= all);
    r
}

fn all_at_least_two(words: &Vec<String>) -> (r: bool)
    ensures
        r == (forall|i: int| 0 <= i < views(words@).len() ==> byte_len(#[trigger] views(words@)[i]) >= 2),
{
    let mut i: usize = 0;
    while i < words.len()
        invariant
            i <= words@.len(),
            forall|k: int| 0 <= k < i ==> byte_len(#[trigger] views(words@)[k]) >= 2,
        decreases words@.len() - i,
    {
        if byte_count(words[i].as_str()) < 2 {
            assert(byte_len(views(words@)[i as int]) < 2);
            return false;
        }
        i = i + 1;
    }
    true
}

fn drop_blanks(s: &str) -> (r: Vec<char>)
    ensures
        r@ == without_blanks(s@),
{
    let chars = chars_of(s);
    let ghost pred = |c: char| c != ' ';
    let mut r: Vec<char> = Vec::new();
    let mut i: usize = 0;
    assert(s@.take(0).filter(pred) =~= Seq::<char>::empty()) by {
        reveal(Seq::filter);
    }
    while i < chars.len()
        invariant
            chars@ == s@,
            pred == (|c: char| c != ' '),
            i <= s@.len(),
            r@ == s@.take(i as int).filter(pred),
        decreases s@.len() - i,
    {
        proof {
            reveal(Seq::filter);
            assert(s@.take(i + 1).drop_last() =~= s@.take(i as int));
            assert(s@.take(i + 1).last() == s@[i as int]);
        }
        if chars[i] != ' ' {
            r.push(chars[i]);
        }
        i = i + 1;
    }
    assert(s@.take(i as int) =~= s@);
    r
}

fn ngrams(chars: &Vec<char>) -> (r: Vec<Clause>)
    ensures
        clause_views(r@) == grams_up_to(chars@, 10),
{
    let n = chars.len();
    let mut r: Vec<Clause> = Vec::new();
    let mut size: usize = 3;
    assert(grams_up_to(chars@, 2) =~= Seq::<ClauseView>::empty());
    assert(clause_views(r@) =~= Seq::<ClauseView>::empty());
    while size <= 10
        invariant
            n == chars@.len(),
            3 <= size <= 11,
            clause_views(r@) == grams_up_to(chars@, size - 1),
        decreases 11 - size,
    {
        let ghost before = clause_views(r@);
        let ghost own = grams_of_size(chars@, size as int);
        let count: usize = if n >= size { n - size + 1 } else { 0 };
        let mut i: usize = 0;
        assert(clause_views(r@) =~= before + own.take(0));
        while i < count
            invariant
                n == chars@.len(),
                3 <= size <= 10,
                own == grams_of_size(chars@, size as int),
                count == own.len(),
                i <= count,
                n >= size ==> count == n - size + 1,
                count > 0 ==> n >= size,
                clause_views(r@) == before + own.take(i as int),
            decreases count - i,
        {
            let ghost here = clause_views(r@);
            r.push(Clause::Term { field: Field::NameNgram, text: slice_text(chars, i, i + size) });
            assert(clause_views(r@) =~= here.push(own[i as int]));
            i = i + 1;
            assert(clause_views(r@) =~= before + own.take(i as int));
        }
        assert(own.take(i as int) =~= own);
        size = size + 1;
    }
    r
}

fn push_tier(tiers: &mut Vec<Tier>, boost: u32, boost_each: bool, all: bool, clauses: Vec<Clause>)
    ensures
        tier_views(final(tiers)@) == tier_views(old(tiers)@) + tier_if(
            true,
            (TierView { boost, boost_each, all, clauses: clause_views(clauses@) }),
        ),
{
    tiers.push(Tier { boost, boost_each, all, clauses });
    assert(tier_views(tiers@) =~= tier_views(old(tiers)@) + tier_if(
        true,
        TierView { boost, boost_each, all, clauses: clause_views(clauses@) },
    ));
}

fn exact_clause(q: &str) -> (r: Vec<Clause>)
    ensures
        clause_views(r@) == seq![ClauseView::Parsed { field: Field::Name, text: quoted(q@) }],
{
    let mut text = String::new();
    text.push('"');
    text.append(q);
    text.push('"');
    assert(text@ =~= quoted(q@));
    let mut r: Vec<Clause> = Vec::new();
    r.push(Clause::Parsed { field: Field::Name, text });
    assert(clause_views(r@) =~= seq![ClauseView::Parsed { field: Field::Name, text: quoted(q@) }]);
    r
}

proof fn lemma_no_tier(s: Seq<TierView>, t: TierView)
    ensures
        s + tier_if(false, t) == s,
{
    assert(s + tier_if(false, t) =~= s);
}

/// The tiers of an advanced search for a text in lower case that has at least one word.
pub fn build_tiers(q: &str) -> (tiers: Vec<Tier>)
    ensures
        tier_views(tiers@) == advanced_tiers(q@),
{
    let words = split_words(q);
    let ghost ws = words_of(q@);
    let mut tiers: Vec<Tier> = Vec::new();
    assert(tier_views(tiers@) =~= Seq::<TierView>::empty());
    push_tier(&mut tiers, 100, false, true, exact_clause(q));
    let ghost exact = seq![ClauseView::Parsed { field: Field::Name, text: quoted(q@) }];
    assert(tier_views(tiers@) =~= tier_if(true, TierView { boost: 100, boost_each: false, all: true, clauses: exact }));
    let several = words.len() > 1;
    assert(views(words@).len() == words@.len());
    if several {
        push_tier(&mut tiers, 60, false, true, exact_clause(q));
    } else {
        proof {
            lemma_no_tier(tier_views(tiers@), TierView { boost: 60, boost_each: false, all: true, clauses: exact });
        }
    }
    push_tier(&mut tiers, 30, false, true, clauses_for(&words, WordMatch::Whole));
    push_tier(&mut tiers, 15, true, true, clauses_for(&words, WordMatch::Prefix));
    let chars = drop_blanks(q);
    let text = string_of(chars.as_slice());
    let grams = ngrams(&chars);
    let ghost g = grams_up_to(without_blanks(q@), 10);
    assert(clause_views(grams@).len() == grams@.len());
    if byte_count(text.as_str()) >= 3 && grams.len() > 0 {
        push_tier(&mut tiers, 12, false, false, grams);
    } else {
        proof {
            lemma_no_tier(tier_views(tiers@), TierView { boost: 12, boost_each: false, all: false, clauses: g });
        }
    }
    if all_at_least_two(&words) {
        push_tier(&mut tiers, 11, true, true, clauses_for(&words, WordMatch::Infix));
    } else {
        proof {
            lemma_no_tier(
                tier_views(tiers@),
                TierView { boost: 11, boost_each: true, all: true, clauses: per_word(ws, WordMatch::Infix) },
            );
        }
    }
    let long = keep_long(&words);
    assert(views(long@).len() == long@.len());
    if long.len() > 0 {
        push_tier(&mut tiers, 8, true, true, clauses_for(&long, WordMatch::Fuzzy));
    } else {
        proof {
            lemma_no_tier(
                tier_views(tiers@),
                TierView {
                    boost: 8,
                    boost_each: true,
                    all: true,
                    clauses: per_word(long_words(ws), WordMatch::Fuzzy),
                },
            );
        }
    }
    tiers
}

/// One filter, if it applies.
pub open spec fn filter_if(on: bool, must: bool, c: ClauseView) -> Seq<(bool, ClauseView)> {
    if on {
        seq![(must, c)]
    } else {
        Seq::empty()
    }
}

/// A path in the notation of the index, as the beginning of one.
pub open spec fn path_pattern(p: Seq<char>) -> Seq<char> {
    without_leading(replaced(p, '\\', '/'), '/').push('*')
}

/// One more, up to the largest number.
pub open spec fn next_u64(n: u64) -> u64 {
    if n == u64::MAX {
        u64::MAX
    } else {
        (n + 1) as u64
    }
}

/// One more, up to the largest number.
pub open spec fn next_i64(n: i64) -> i64 {
    if n == i64::MAX {
        i64::MAX
    } else {
        (n + 1) as i64
    }
}

/// The filters of a request, whose extension is in lower case. Sizes and times include
/// both of their bounds.
pub open spec fn request_filters(r: SearchRequest, ext_lower: Seq<char>) -> Seq<(bool, ClauseView)> {
    filter_if(
        r.path is Some,
        true,
        ClauseView::Parsed { field: Field::Path, text: path_pattern(r.path->0@) },
    ) + filter_if(r.ext is Some, true, ClauseView::Term { field: Field::Ext, text: ext_lower }) + filter_if(
        r.volume is Some,
        true,
        ClauseView::Term { field: Field::Volume, text: r.volume->0@ },
    ) + filter_if(
        r.min_size is Some || r.max_size is Some,
        true,
        ClauseView::Size {
            from: (match r.min_size {
                Some(n) => n,
                None => 0,
            }),
            to: next_u64(
                match r.max_size {
                    Some(n) => n,
                    None => u64::MAX,
                },
            ),
        },
    ) + filter_if(
        r.modified_after is Some || r.modified_before is Some,
        true,
        ClauseView::Modified {
            from: (match r.modified_after {
                Some(n) => n,
                None => i64::MIN,
            }),
            to: next_i64(
                match r.modified_before {
                    Some(n) => n,
                    None => i64::MAX,
                },
            ),
        },
    ) + filter_if(
        r.hidden is Some,
        r.hidden->0,
        ClauseView::Term { field: Field::Attributes, text: "hidden"@ },
    ) + filter_if(
        r.system is Some,
        r.system->0,
        ClauseView::Term { field: Field::Attributes, text: "system"@ },
    )
}

/// The request names no text: every file matches.
pub open spec fn matches_all(query: Seq<char>) -> bool {
    trimmed(query).len() == 0 || query == "*"@
}

/// The condition on the text of a request, given that text without white space around
/// it and in lower case.
pub open spec fn text_filters(r: SearchRequest, q_lower: Seq<char>) -> Seq<(bool, ClauseView)> {
    if matches_all(r.query@) || (r.advanced && words_of(q_lower).len() == 0) {
        seq![(true, ClauseView::All)]
    } else if r.advanced {
        Seq::empty()
    } else {
        seq![
            (
                true,
                ClauseView::Regex { field: Field::NameLower, pattern: ".*"@ + escaped(q_lower) + ".*"@ },
            ),
        ]
    }
}

/// The plan is that for the request.
pub open spec fn is_search_plan(r: SearchRequest, q_lower: Seq<char>, ext_lower: Seq<char>, plan: SearchPlan) -> bool {
    &&& tier_views(plan.tiers@) == (if r.advanced && !matches_all(r.query@) && words_of(q_lower).len() > 0 {
        advanced_tiers(q_lower)
    } else {
        Seq::empty()
    })
    &&& filter_views(plan.filters@) == text_filters(r, q_lower) + request_filters(r, ext_lower)
}

fn push_filter(fs: &mut Vec<Filter>, on: bool, must: bool, clause: Clause)
    ensures
        filter_views(final(fs)@) == filter_views(old(fs)@) + filter_if(on, must, clause_view(clause)),
{
    if on {
        fs.push(Filter { must, clause });
    }
    assert(filter_views(fs@) =~= filter_views(old(fs)@) + filter_if(on, must, clause_view(clause)));
}

fn path_text(p: &str) -> (r: String)
    ensures
        r@ == path_pattern(p@),
{
    let chars = replace_char(p, '\\', '/');
    let n = chars.len();
    assert(chars@.skip(0) =~= chars@);
    let from = skip_leading(&chars, 0, '/');
    let mut r = slice_text(&chars, from, n);
    assert(r@ =~= chars@.skip(from as int));
    r.push('*');
    r
}

fn text_or_empty(s: &Option<String>) -> (r: String)
    ensures
        s is Some ==> r@ == s->0@,
{
    match s {
        Some(t) => t.clone(),
        None => String::new(),
    }
}

fn list_request_filters(r: &SearchRequest, ext_lower: &str) -> (filters: Vec<Filter>)
    ensures
        filter_views(filters@) == request_filters(*r, ext_lower@),
{
    let mut filters: Vec<Filter> = Vec::new();
    let path = text_or_empty(&r.path);
    push_filter(
        &mut filters,
        r.path.is_some(),
        true,
        Clause::Parsed { field: Field::Path, text: path_text(path.as_str()) },
    );
    proof {
        let first = filter_if(
            r.path is Some,
            true,
            ClauseView::Parsed { field: Field::Path, text: path_pattern(r.path->0@) },
        );
        assert(filter_views(filters@) =~= first);
    }
    push_filter(
        &mut filters,
        r.ext.is_some(),
        true,
        Clause::Term { field: Field::Ext, text: ext_lower.to_owned() },
    );
    push_filter(
        &mut filters,
        r.volume.is_some(),
        true,
        Clause::Term { field: Field::Volume, text: text_or_empty(&r.volume) },
    );
    let from: u64 = match r.min_size {
        Some(n) => n,
        None => 0,
    };
    let top: u64 = match r.max_size {
        Some(n) => n,
        None => u64::MAX,
    };
    let to: u64 = if top == u64::MAX { u64::MAX } else { top + 1 };
    push_filter(
        &mut filters,
        r.min_size.is_some() || r.max_size.is_some(),
        true,
        Clause::Size { from, to },
    );
    let after: i64 = match r.modified_after {
        Some(n) => n,
        None => i64::MIN,
    };
    let latest: i64 = match r.modified_before {
        Some(n) => n,
        None => i64::MAX,
    };
    let before: i64 = if latest == i64::MAX { i64::MAX } else { latest + 1 };
    push_filter(
        &mut filters,
        r.modified_after.is_some() || r.modified_before.is_some(),
        true,
        Clause::Modified { from: after, to: before },
    );
    let hidden = match r.hidden {
        Some(h) => h,
        None => false,
    };
    push_filter(
        &mut filters,
        r.hidden.is_some(),
        hidden,
        Clause::Term { field: Field::Attributes, text: "hidden".to_owned() },
    );
    let system = match r.system {
        Some(s) => s,
        None => false,
    };
    push_filter(
        &mut filters,
        r.system.is_some(),
        system,
        Clause::Term { field: Field::Attributes, text: "system".to_owned() },
    );
    filters
}

/// Plans a search, given the text and the extension that it asks for in lower case.
pub fn plan_search_for(r: &SearchRequest, q_lower: &str, ext_lower: &str) -> (plan: SearchPlan)
    ensures
        is_search_plan(*r, q_lower@, ext_lower@, plan),
{
    let mut filters: Vec<Filter> = Vec::new();
    assert(filter_views(filters@) =~= Seq::<(bool, ClauseView)>::empty());
    let mut tiers: Vec<Tier> = Vec::new();
    assert(tier_views(tiers@) =~= Seq::<TierView>::empty());
    let text = trim(r.query.as_str());
    let everything = text.as_str().is_empty() || str_eq(r.query.as_str(), "*");
    let words = split_words(q_lower);
    assert(views(words@).len() == words@.len());
    if everything || (r.advanced && words.len() == 0) {
        push_filter(&mut filters, true, true, Clause::All);
    } else if r.advanced {
        tiers = build_tiers(q_lower);
    } else {
        let mut pattern = ".*".to_owned();
        let body = escape_re(q_lower);
        pattern.append(body.as_str());
        pattern.append(".*");
        push_filter(&mut filters, true, true, Clause::Regex { field: Field::NameLower, pattern });
    }
    assert(filter_views(filters@) =~= text_filters(*r, q_lower@));
    let ghost own = filter_views(filters@);
    let mut more = list_request_filters(r, ext_lower);
    let ghost asked = filter_views(more@);
    filters.append(&mut more);
    assert(filter_views(filters@) =~= own + asked);
    SearchPlan { tiers, filters }
}

/// The extension that a request asks for, in lower case and without dots in front.
pub open spec fn wanted_ext(r: SearchRequest) -> Seq<char> {
    match r.ext {
        Some(e) => lowercase_of(without_leading(e@, '.')),
        None => Seq::empty(),
    }
}

/// Plans a search.
pub fn execute_search(r: &SearchRequest) -> (plan: SearchPlan)
    ensures
        is_search_plan(*r, lowercase_of(trimmed(r.query@)), wanted_ext(*r), plan),
{
    let text = trim(r.query.as_str());
    let q_lower = lowercase(text.as_str());
    let ext_lower = match &r.ext {
        Some(e) => {
            let chars = chars_of(e.as_str());
            let n = chars.len();
            assert(chars@.skip(0) =~= chars@);
            let from = skip_leading(&chars, 0, '.');
            let bare = slice_text(&chars, from, n);
            assert(bare@ =~= chars@.skip(from as int));
            lowercase(bare.as_str())
        },
        None => String::new(),
    };
    plan_search_for(r, q_lower.as_str(), ext_lower.as_str())
}

/// The last occurrence of a character stands at `i`.
pub open spec fn last_at(s: Seq<char>, c: char, i: int) -> bool {
    0 <= i < s.len() && s[i] == c && forall|j: int| i < j < s.len() ==> s[j] != c
}

/// The extension of a file name: what stands behind its last dot, unless that is the
/// first character.
pub open spec fn is_extension(name: Seq<char>, ext: Seq<char>) -> bool {
    if name.contains('.') {
        forall|i: int|
            #[trigger] last_at(name, '.', i) ==> ext == (if i == 0 {
                Seq::empty()
            } else {
                name.skip(i + 1)
            })
    } else {
        ext.len() == 0
    }
}

/// The extension of a file name, which is a single path segment.
pub fn extension(name: &str) -> (ext: String)
    ensures
        is_extension(name@, ext@),
{
    let chars = chars_of(name);
    let n = chars.len();
    let mut i: usize = n;
    while i > 0
        invariant
            chars@ == name@,
            n == chars@.len(),
            i <= n,
            forall|j: int| i <= j < n ==> chars@[j] != '.',
        decreases i,
    {
        i = i - 1;
        if chars[i] == '.' {
            proof {
                assert(name@[i as int] == '.');
                assert forall|k: int| #[trigger] last_at(name@, '.', k) implies k == i by {
                    if k < i {
                        assert(name@[i as int] == '.');
                    } else if i < k {
                        assert(name@[k] == '.');
                    }
                }
            }
            if i == 0 {
                return String::new();
            }
            let ext = slice_text(&chars, i + 1, n);
            assert(ext@ =~= name@.skip(i + 1));
            return ext;
        }
    }
    String::new()
}

/// The words for the attributes of a file.
pub open spec fn attribute_words(attributes: u32) -> Seq<Seq<char>> {
    word_if(attributes & 1 != 0, "readonly"@) + word_if(attributes & 2 != 0, "hidden"@) + word_if(
        attributes & 4 != 0,
        "system"@,
    ) + word_if(attributes & 32 != 0, "archive"@) + word_if(attributes & 1024 != 0, "reparse"@)
}

/// A word, if it applies.
pub open spec fn word_if(on: bool, w: Seq<char>) -> Seq<Seq<char>> {
    if on {
        seq![w]
    } else {
        Seq::empty()
    }
}

fn push_word(r: &mut Vec<String>, on: bool, w: &str)
    ensures
        views(final(r)@) == views(old(r)@) + word_if(on, w@),
{
    if on {
        r.push(w.to_owned());
    }
    assert(views(r@) =~= views(old(r)@) + word_if(on, w@));
}

/// Names the attributes of a file.
pub fn attribute_names(attributes: u32) -> (r: Vec<String>)
    ensures
        views(r@) == attribute_words(attributes),
{
    let mut r: Vec<String> = Vec::new();
    push_word(&mut r, attributes & 1 != 0, "readonly");
    assert(views(r@) =~= word_if(attributes & 1 != 0, "readonly"@));
    push_word(&mut r, attributes & 2 != 0, "hidden");
    push_word(&mut r, attributes & 4 != 0, "system");
    push_word(&mut r, attributes & 32 != 0, "archive");
    push_word(&mut r, attributes & 1024 != 0, "reparse");
    r
}

/// The key of a file in the index.
pub fn document_uid(volume: &str, file_id: u64) -> (r: String)
    ensures
        r@ == volume@.push('-') + decimal_text(file_id as nat),
{
    let mut r = volume.to_owned();
    r.push('-');
    let id = decimal(file_id);
    r.append(id.as_str());
    r
}

/// What the index holds of a file.
pub struct IndexDocument {
    pub name: String,
    pub name_lower: String,
    pub name_ngram: String,
    pub path: String,
    pub ext: String,
    pub volume: String,
    pub size: u64,
    pub modified_at: i64,
    pub is_directory: bool,
    pub file_id: u64,
    pub uid: String,
    pub attributes: Vec<String>,
}

/// Why a document is made.
#[derive(Debug, Clone, Copy, PartialEq, Eq, Structural)]
pub enum IndexPass {
    /// The whole index is built anew; unreadable times count as 1970.
    Rebuild,
    /// One file is brought up to date; an unreadable time counts as now.
    Update { now: i64 },
}

/// The document of a file, given its name and extension in lower case and the time of
/// its last modification.
pub open spec fn is_document(
    fact: Fact,
    path: Seq<char>,
    name_lower: Seq<char>,
    ext_lower: Seq<char>,
    modified: Option<i64>,
    pass: IndexPass,
    d: IndexDocument,
) -> bool {
    &&& d.name@ == fact.name@
    &&& d.name_lower@ == name_lower
    &&& d.name_ngram@ == (if pass == IndexPass::Rebuild {
        name_lower
    } else {
        fact.name@
    })
    &&& d.path@ == path
    &&& d.ext@ == ext_lower
    &&& d.volume@ == fact.volume@
    &&& d.size == fact.size
    &&& d.modified_at == (match modified {
        Some(t) => t,
        None => match pass {
            IndexPass::Rebuild => 0,
            IndexPass::Update { now } => now,
        },
    })
    &&& d.is_directory == fact.is_directory
    &&& d.file_id == fact.file_id
    &&& d.uid@ == fact.volume@.push('-') + decimal_text(fact.file_id as nat)
    &&& views(d.attributes@) == attribute_words(fact.attributes)
}

/// Makes the document of a file.
pub fn make_document(
    fact: &Fact,
    path: String,
    name_lower: String,
    ext_lower: String,
    modified: Option<i64>,
    pass: IndexPass,
) -> (d: IndexDocument)
    ensures
        is_document(*fact, path@, name_lower@, ext_lower@, modified, pass, d),
{
    let modified_at: i64 = match modified {
        Some(t) => t,
        None => match pass {
            IndexPass::Rebuild => 0,
            IndexPass::Update { now } => now,
        },
    };
    let name_ngram = match pass {
        IndexPass::Rebuild => name_lower.clone(),
        IndexPass::Update { now } => fact.name.clone(),
    };
    IndexDocument {
        name: fact.name.clone(),
        name_lower,
        name_ngram,
        path,
        ext: ext_lower,
        volume: fact.volume.clone(),
        size: fact.size,
        modified_at,
        is_directory: fact.is_directory,
        file_id: fact.file_id,
        uid: document_uid(fact.volume.as_str(), fact.file_id),
        attributes: attribute_names(fact.attributes),
    }
}

/// Makes the document of a file from what is known of its volume.
pub fn index_document(fact: &Fact, table: &crate::facts::FactTable, pass: IndexPass) -> (d: IndexDocument)
    ensures
        exists|path: Seq<char>, ext: Seq<char>|
            #![trigger is_fact_path(table.parents@, table.names@, fact.volume@, fact.parent_file_id, path), is_extension(fact.name@, ext)]
            is_fact_path(table.parents@, table.names@, fact.volume@, fact.parent_file_id, path) && is_extension(
                fact.name@,
                ext,
            ) && is_document(
                *fact,
                path,
                lowercase_of(fact.name@),
                lowercase_of(ext),
                rfc3339_seconds(fact.modified_at@),
                pass,
                d,
            ),
{
    let path = get_fact_path(&table.parents, &table.names, fact.volume.as_str(), fact.parent_file_id);
    let ext = extension(fact.name.as_str());
    let name_lower = lowercase(fact.name.as_str());
    let ext_lower = lowercase(ext.as_str());
    let modified = parse_rfc3339(fact.modified_at.as_str());
    let ghost p = path@;
    let d = make_document(fact, path, name_lower, ext_lower, modified, pass);
    assert(is_fact_path(table.parents@, table.names@, fact.volume@, fact.parent_file_id, p) && is_extension(
        fact.name@,
        ext@,
    ));
    d
}

/// Whether the index can be built: there are volumes, and all of them are live.
pub fn all_live(states: &Vec<DaemonState>) -> (r: bool)
    ensures
        r == (states@.len() > 0 && forall|i: int|
            0 <= i < states@.len() ==> #[trigger] states@[i] == DaemonState::Live),
{
    let mut i: usize = 0;
    while i < states.len()
        invariant
            i <= states@.len(),
            forall|k: int| 0 <= k < i ==> #[trigger] states@[k] == DaemonState::Live,
        decreases states@.len() - i,
    {
        if states[i] != DaemonState::Live {
            assert(states@[i as int] != DaemonState::Live);
            return false;
        }
        i = i + 1;
    }
    states.len() > 0
}

/// The key of a hit, as far as its document holds it.
pub struct HitKey {
    pub volume: Option<String>,
    pub file_id: Option<u64>,
}

/// The hit is looked up among the facts.
pub open spec fn is_checkable(h: HitKey) -> bool {
    h.volume is Some && h.volume->0@.len() > 0 && h.file_id is Some && h.file_id->0 != 0
}

/// A file by volume and id.
pub struct FileKey {
    pub volume: String,
    pub file_id: u64,
}

pub open spec fn key_views(ks: Seq<FileKey>) -> Seq<(Seq<char>, u64)> {
    Seq::new(ks.len(), |i: int| (ks[i].volume@, ks[i].file_id))
}

/// The keys that are looked up, in the order of the hits.
pub open spec fn checked_keys(hits: Seq<HitKey>) -> Seq<(Seq<char>, u64)>
    decreases hits.len(),
{
    if hits.len() == 0 {
        Seq::empty()
    } else {
        let rest = checked_keys(hits.drop_last());
        let h = hits.last();
        if is_checkable(h) {
            rest.push((h.volume->0@, h.file_id->0))
        } else {
            rest
        }
    }
}

/// The keys of hits to look up among the facts.
pub fn keys_to_check(hits: &Vec<HitKey>) -> (r: Vec<FileKey>)
    ensures
        key_views(r@) == checked_keys(hits@),
{
    let mut r: Vec<FileKey> = Vec::new();
    let mut i: usize = 0;
    assert(hits@.take(0) =~= Seq::<HitKey>::empty());
    assert(key_views(r@) =~= Seq::<(Seq<char>, u64)>::empty());
    while i < hits.len()
        invariant
            i <= hits@.len(),
            key_views(r@) == checked_keys(hits@.take(i as int)),
        decreases hits@.len() - i,
    {
        let h = &hits[i];
        let ghost before = key_views(r@);
        proof {
            assert(hits@.take(i + 1).drop_last() =~= hits@.take(i as int));
            assert(hits@.take(i + 1).last() == *h);
        }
        if let (Some(volume), Some(file_id)) = (&h.volume, h.file_id) {
            if !volume.as_str().is_empty() && file_id != 0 {
                r.push(FileKey { volume: volume.clone(), file_id });
                assert(key_views(r@) =~= before.push((volume@, file_id)));
            }
        }
        i = i + 1;
    }
    assert(hits@.take(i as int) =~= hits@);
    r
}

/// The condition for the `i`-th key of a lookup.
pub open spec fn key_condition(i: int) -> Seq<char> {
    "(volume = ?"@ + decimal_text((i * 2 + 1) as nat) + " AND file_id = ?"@ + decimal_text((i * 2 + 2) as nat) + ")"@
}

/// The conditions for `n` keys.
pub open spec fn key_conditions(n: nat) -> Seq<char>
    decreases n,
{
    if n == 0 {
        Seq::empty()
    } else if n == 1 {
        key_condition(0)
    } else {
        key_conditions((n - 1) as nat) + " OR "@ + key_condition(n - 1)
    }
}

/// The query that looks up `n` keys among the facts.
pub fn lookup_query(n: usize) -> (r: String)
    ensures
        r@ == "SELECT volume, file_id FROM facts WHERE "@ + key_conditions(n as nat),
{
    let ghost head = "SELECT volume, file_id FROM facts WHERE "@;
    let mut r = "SELECT volume, file_id FROM facts WHERE ".to_owned();
    let mut i: usize = 0;
    assert(r@ =~= head + key_conditions(0));
    while i < n
        invariant
            head == "SELECT volume, file_id FROM facts WHERE "@,
            i <= n,
            r@ == head + key_conditions(i as nat),
        decreases n - i,
    {
        if i > 0 {
            r.append(" OR ");
        }
        r.append("(volume = ?");
        let a = wide_decimal(i as u128 * 2 + 1);
        r.append(a.as_str());
        r.append(" AND file_id = ?");
        let b = wide_decimal(i as u128 * 2 + 2);
        r.append(b.as_str());
        r.append(")");
        i = i + 1;
        proof {
            if i == 1 {
                assert(r@ =~= head + key_condition(0));
            } else {
                assert(r@ =~= head + (key_conditions((i - 1) as nat) + " OR "@ + key_condition(i - 1)));
            }
        }
    }
    r
}

/// The hit stays: its document holds no whole key, or the file is known.
pub open spec fn is_alive(h: HitKey, existing: Seq<(Seq<char>, u64)>) -> bool {
    h.volume is Some && h.file_id is Some ==> existing.contains((h.volume->0@, h.file_id->0))
}

/// The numbers of the hits that stay, and of those that are stale.
pub open spec fn sorted_hits(hits: Seq<HitKey>, existing: Seq<(Seq<char>, u64)>) -> (Seq<usize>, Seq<usize>)
    decreases hits.len(),
{
    if hits.len() == 0 {
        (Seq::empty(), Seq::empty())
    } else {
        let (alive, stale) = sorted_hits(hits.drop_last(), existing);
        let n = (hits.len() - 1) as usize;
        if is_alive(hits.last(), existing) {
            (alive.push(n), stale)
        } else {
            (alive, stale.push(n))
        }
    }
}

fn has_key(existing: &Vec<FileKey>, volume: &String, file_id: u64) -> (r: bool)
    ensures
        r == key_views(existing@).contains((volume@, file_id)),
{
    let mut i: usize = 0;
    while i < existing.len()
        invariant
            i <= existing@.len(),
            forall|k: int| 0 <= k < i ==> (#[trigger] key_views(existing@)[k]) != (volume@, file_id),
        decreases existing@.len() - i,
    {
        if existing[i].file_id == file_id && str_eq(existing[i].volume.as_str(), volume.as_str()) {
            assert(key_views(existing@)[i as int] == (volume@, file_id));
            return true;
        }
        i = i + 1;
    }
    false
}

/// Parts the hits whose files are still known from those that are stale.
pub fn reconcile_search_results(hits: &Vec<HitKey>, existing: &Vec<FileKey>) -> (r: (Vec<usize>, Vec<usize>))
    ensures
        (r.0@, r.1@) == sorted_hits(hits@, key_views(existing@)),
{
    let ghost known = key_views(existing@);
    let mut alive: Vec<usize> = Vec::new();
    let mut stale: Vec<usize> = Vec::new();
    let mut i: usize = 0;
    assert(hits@.take(0) =~= Seq::<HitKey>::empty());
    while i < hits.len()
        invariant
            known == key_views(existing@),
            i <= hits@.len(),
            (alive@, stale@) == sorted_hits(hits@.take(i as int), known),
        decreases hits@.len() - i,
    {
        let h = &hits[i];
        proof {
            assert(hits@.take(i + 1).drop_last() =~= hits@.take(i as int));
            assert(hits@.take(i + 1).last() == *h);
        }
        let stays = match (&h.volume, h.file_id) {
            (Some(volume), Some(file_id)) => has_key(existing, volume, file_id),
            _ => true,
        };
        if stays {
            alive.push(i);
        } else {
            stale.push(i);
        }
        i = i + 1;
    }
    assert(hits@.take(i as int) =~= hits@);
    (alive, stale)
}

/// Every hit either stays or is stale.
pub proof fn law_hits_partition(hits: Seq<HitKey>, existing: Seq<(Seq<char>, u64)>)
    requires
        hits.len() <= usize::MAX,
    ensures
        sorted_hits(hits, existing).0.len() + sorted_hits(hits, existing).1.len() == hits.len(),
        forall|k: int|
            0 <= k < sorted_hits(hits, existing).0.len() ==> (#[trigger] sorted_hits(hits, existing).0[k]) < hits.len()
                && is_alive(hits[sorted_hits(hits, existing).0[k] as int], existing),
    decreases hits.len(),
{
    if hits.len() > 0 {
        law_hits_partition(hits.drop_last(), existing);
        let part = sorted_hits(hits.drop_last(), existing);
        let whole = sorted_hits(hits, existing);
        assert forall|k: int| 0 <= k < whole.0.len() implies (#[trigger] whole.0[k]) < hits.len() && is_alive(
            hits[whole.0[k] as int],
            existing,
        ) by {
            if k < part.0.len() {
                assert(whole.0[k] == part.0[k]);
                assert(hits.drop_last()[part.0[k] as int] == hits[part.0[k] as int]);
            }
        }
    }
}

} // verus!
