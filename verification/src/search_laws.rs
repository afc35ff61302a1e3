//! What a planned search asks of the files that it finds.

use crate::search::{
    advanced_tiers, attribute_words, byte_len, clause_view, escaped, filter_if, filter_views,
    grams_of_size, grams_up_to, is_extension, is_search_plan, last_at, long_words, next_i64,
    next_u64, path_pattern, per_word, request_filters, sorted_hits, text_filters, tier_view,
    tier_views, without_blanks, word_clause, word_if, words_of, Clause, ClauseView, Field, Filter,
    HitKey, SearchPlan, SearchRequest, WordMatch,
};
use crate::text::{is_white, replaced, trimmed, without_leading};
use vstd::prelude::*;

verus! {

proof fn lemma_in_concat<T>(a: Seq<T>, b: Seq<T>, x: T)
    ensures
        (a + b).contains(x) <==> a.contains(x) || b.contains(x),
{
    let s = a + b;
    if a.contains(x) {
        let i = choose|i: int| 0 <= i < a.len() && a[i] == x;
        assert(s[i] == x);
    }
    if b.contains(x) {
        let i = choose|i: int| 0 <= i < b.len() && b[i] == x;
        assert(s[a.len() + i] == x);
    }
}

proof fn lemma_in_filter(on: bool, must: bool, c: ClauseView, x: (bool, ClauseView))
    ensures
        filter_if(on, must, c).contains(x) <==> on && x == (must, c),
{
    if on {
        assert(filter_if(on, must, c)[0] == (must, c));
    }
}

/// The conditions of a request, one by one.
proof fn lemma_conditions(r: SearchRequest, ext: Seq<char>, x: (bool, ClauseView))
    ensures
        request_filters(r, ext).contains(x) <==> {
            ||| r.path is Some && x == (true, ClauseView::Parsed { field: Field::Path, text: path_pattern(r.path->0@) })
            ||| r.ext is Some && x == (true, ClauseView::Term { field: Field::Ext, text: ext })
            ||| r.volume is Some && x == (true, ClauseView::Term { field: Field::Volume, text: r.volume->0@ })
            ||| (r.min_size is Some || r.max_size is Some) && x == (
                true,
                ClauseView::Size {
                    from: (match r.min_size {
                        Some(n) => n,
                        None => 0,
                    }),
                    to: next_u64(
                        match r.max_size {
                            Some(n) => n,
                            None => u64::MAX,
                        },
                    ),
                },
            )
            ||| (r.modified_after is Some || r.modified_before is Some) && x == (
                true,
                ClauseView::Modified {
                    from: (match r.modified_after {
                        Some(n) => n,
                        None => i64::MIN,
                    }),
                    to: next_i64(
                        match r.modified_before {
                            Some(n) => n,
                            None => i64::MAX,
                        },
                    ),
                },
            )
            ||| r.hidden is Some && x == (r.hidden->0, ClauseView::Term { field: Field::Attributes, text: "hidden"@ })
            ||| r.system is Some && x == (r.system->0, ClauseView::Term { field: Field::Attributes, text: "system"@ })
        },
{
    let p = ClauseView::Parsed { field: Field::Path, text: path_pattern(r.path->0@) };
    let e = ClauseView::Term { field: Field::Ext, text: ext };
    let v = ClauseView::Term { field: Field::Volume, text: r.volume->0@ };
    let s = ClauseView::Size {
        from: (match r.min_size {
            Some(n) => n,
            None => 0,
        }),
        to: next_u64(
            match r.max_size {
                Some(n) => n,
                None => u64::MAX,
            },
        ),
    };
    let m = ClauseView::Modified {
        from: (match r.modified_after {
            Some(n) => n,
            None => i64::MIN,
        }),
        to: next_i64(
            match r.modified_before {
                Some(n) => n,
                None => i64::MAX,
            },
        ),
    };
    let h = ClauseView::Term { field: Field::Attributes, text: "hidden"@ };
    let y = ClauseView::Term { field: Field::Attributes, text: "system"@ };
    let (a1, a2, a3, a4, a5, a6, a7) = (
        filter_if(r.path is Some, true, p),
        filter_if(r.ext is Some, true, e),
        filter_if(r.volume is Some, true, v),
        filter_if(r.min_size is Some || r.max_size is Some, true, s),
        filter_if(r.modified_after is Some || r.modified_before is Some, true, m),
        filter_if(r.hidden is Some, r.hidden->0, h),
        filter_if(r.system is Some, r.system->0, y),
    );
    lemma_in_concat(a1, a2, x);
    lemma_in_concat(a1 + a2, a3, x);
    lemma_in_concat(a1 + a2 + a3, a4, x);
    lemma_in_concat(a1 + a2 + a3 + a4, a5, x);
    lemma_in_concat(a1 + a2 + a3 + a4 + a5, a6, x);
    lemma_in_concat(a1 + a2 + a3 + a4 + a5 + a6, a7, x);
    lemma_in_filter(r.path is Some, true, p, x);
    lemma_in_filter(r.ext is Some, true, e, x);
    lemma_in_filter(r.volume is Some, true, v, x);
    lemma_in_filter(r.min_size is Some || r.max_size is Some, true, s, x);
    lemma_in_filter(r.modified_after is Some || r.modified_before is Some, true, m, x);
    lemma_in_filter(r.hidden is Some, r.hidden->0, h, x);
    lemma_in_filter(r.system is Some, r.system->0, y, x);
}

/// The plan holds a condition exactly if it is one of the text or one of the request.
proof fn lemma_plan(r: SearchRequest, q: Seq<char>, ext: Seq<char>, plan: SearchPlan, x: (bool, ClauseView))
    requires
        is_search_plan(r, q, ext, plan),
    ensures
        filter_views(plan.filters@).contains(x) <==> text_filters(r, q).contains(x) || request_filters(r, ext).contains(x),
        text_filters(r, q).contains(x) ==> x.0 && (x.1 is All || x.1 is Regex),
{
    lemma_in_concat(text_filters(r, q), request_filters(r, ext), x);
}

proof fn lemma_view_at(plan: SearchPlan, i: int)
    requires
        0 <= i < plan.filters@.len(),
    ensures
        filter_views(plan.filters@).contains((plan.filters@[i].must, clause_view(plan.filters@[i].clause))),
{
    assert(filter_views(plan.filters@)[i] == (plan.filters@[i].must, clause_view(plan.filters@[i].clause)));
}

/// A size meets every size condition of the plan exactly if it is at least the smallest
/// and at most the largest size asked for, where those are given.
pub proof fn law_sizes(r: SearchRequest, q: Seq<char>, ext: Seq<char>, plan: SearchPlan, n: u64)
    requires
        is_search_plan(r, q, ext, plan),
        n < u64::MAX,
    ensures
        (forall|i: int|
            0 <= i < plan.filters@.len() && (#[trigger] plan.filters@[i]).clause is Size ==> plan.filters@[i].must == (
            plan.filters@[i].clause->Size_from <= n && n < plan.filters@[i].clause->Size_to)) <==> (r.min_size is Some ==> n
            >= r.min_size->0) && (r.max_size is Some ==> n <= r.max_size->0),
{
    let views = filter_views(plan.filters@);
    let from: u64 = match r.min_size {
        Some(n) => n,
        None => 0,
    };
    let top: u64 = match r.max_size {
        Some(n) => n,
        None => u64::MAX,
    };
    let c = ClauseView::Size { from, to: next_u64(top) };
    let fits = (r.min_size is Some ==> n >= r.min_size->0) && (r.max_size is Some ==> n <= r.max_size->0);
    assert forall|i: int| 0 <= i < plan.filters@.len() && (#[trigger] plan.filters@[i]).clause is Size implies (
    r.min_size is Some || r.max_size is Some) && plan.filters@[i].must && plan.filters@[i].clause == (Clause::Size {
        from,
        to: next_u64(top),
    }) by {
        let x = (plan.filters@[i].must, clause_view(plan.filters@[i].clause));
        lemma_view_at(plan, i);
        lemma_plan(r, q, ext, plan, x);
        lemma_conditions(r, ext, x);
    }
    if !fits {
        lemma_conditions(r, ext, (true, c));
        lemma_plan(r, q, ext, plan, (true, c));
        let i = choose|i: int| 0 <= i < views.len() && views[i] == (true, c);
        assert(clause_view(plan.filters@[i].clause) == c);
        assert(plan.filters@[i].clause is Size);
    }
}

/// A time of modification meets every such condition of the plan exactly if it lies
/// between the bounds asked for, both included.
pub proof fn law_times(r: SearchRequest, q: Seq<char>, ext: Seq<char>, plan: SearchPlan, n: i64)
    requires
        is_search_plan(r, q, ext, plan),
        n < i64::MAX,
    ensures
        (forall|i: int|
            0 <= i < plan.filters@.len() && (#[trigger] plan.filters@[i]).clause is Modified ==> plan.filters@[i].must == (
            plan.filters@[i].clause->Modified_from <= n && n < plan.filters@[i].clause->Modified_to)) <==> (
        r.modified_after is Some ==> n >= r.modified_after->0) && (r.modified_before is Some ==> n
            <= r.modified_before->0),
{
    let views = filter_views(plan.filters@);
    let from: i64 = match r.modified_after {
        Some(n) => n,
        None => i64::MIN,
    };
    let top: i64 = match r.modified_before {
        Some(n) => n,
        None => i64::MAX,
    };
    let c = ClauseView::Modified { from, to: next_i64(top) };
    let fits = (r.modified_after is Some ==> n >= r.modified_after->0) && (r.modified_before is Some ==> n
        <= r.modified_before->0);
    assert forall|i: int| 0 <= i < plan.filters@.len() && (#[trigger] plan.filters@[i]).clause is Modified implies (
    r.modified_after is Some || r.modified_before is Some) && plan.filters@[i].must && plan.filters@[i].clause == (
    Clause::Modified { from, to: next_i64(top) }) by {
        let x = (plan.filters@[i].must, clause_view(plan.filters@[i].clause));
        lemma_view_at(plan, i);
        lemma_plan(r, q, ext, plan, x);
        lemma_conditions(r, ext, x);
    }
    if !fits {
        lemma_conditions(r, ext, (true, c));
        lemma_plan(r, q, ext, plan, (true, c));
        let i = choose|i: int| 0 <= i < views.len() && views[i] == (true, c);
        assert(clause_view(plan.filters@[i].clause) == c);
        assert(plan.filters@[i].clause is Modified);
    }
}

/// A file with the given volume, extension and attributes meets every condition of the
/// plan on them exactly if its volume and its extension are those asked for, and it is
/// hidden or of the system just as asked, where the request names them.
pub proof fn law_properties(
    r: SearchRequest,
    q: Seq<char>,
    ext: Seq<char>,
    plan: SearchPlan,
    volume: Seq<char>,
    file_ext: Seq<char>,
    hidden: bool,
    system: bool,
)
    requires
        is_search_plan(r, q, ext, plan),
    ensures
        (forall|i: int|
            0 <= i < plan.filters@.len() ==> match (#[trigger] plan.filters@[i]).clause {
                Clause::Term { field: Field::Volume, text } => plan.filters@[i].must == (text@ == volume),
                Clause::Term { field: Field::Ext, text } => plan.filters@[i].must == (text@ == file_ext),
                Clause::Term { field: Field::Attributes, text } => plan.filters@[i].must == (text@ == "hidden"@
                    && hidden || text@ == "system"@ && system),
                _ => true,
            }) <==> (r.volume is Some ==> volume == r.volume->0@) && (r.ext is Some ==> file_ext == ext) && (
        r.hidden is Some ==> hidden == r.hidden->0) && (r.system is Some ==> system == r.system->0),
{
    reveal_strlit("hidden");
    reveal_strlit("system");
    assert("hidden"@ != "system"@) by {
        assert("hidden"@[0] == 'h');
        assert("system"@[0] == 's');
    }
    let fits = (r.volume is Some ==> volume == r.volume->0@) && (r.ext is Some ==> file_ext == ext) && (r.hidden is Some
        ==> hidden == r.hidden->0) && (r.system is Some ==> system == r.system->0);
    let meets = |f: Filter|
        match f.clause {
            Clause::Term { field: Field::Volume, text } => f.must == (text@ == volume),
            Clause::Term { field: Field::Ext, text } => f.must == (text@ == file_ext),
            Clause::Term { field: Field::Attributes, text } => f.must == (text@ == "hidden"@ && hidden || text@
                == "system"@ && system),
            _ => true,
        };
    if fits {
        assert forall|i: int| 0 <= i < plan.filters@.len() implies meets(#[trigger] plan.filters@[i]) by {
            let x = (plan.filters@[i].must, clause_view(plan.filters@[i].clause));
            lemma_view_at(plan, i);
            lemma_plan(r, q, ext, plan, x);
            lemma_conditions(r, ext, x);
        }
    } else {
        let (must, field, text) = if r.volume is Some && volume != r.volume->0@ {
            (true, Field::Volume, r.volume->0@)
        } else if r.ext is Some && file_ext != ext {
            (true, Field::Ext, ext)
        } else if r.hidden is Some && hidden != r.hidden->0 {
            (r.hidden->0, Field::Attributes, "hidden"@)
        } else {
            (r.system->0, Field::Attributes, "system"@)
        };
        let i = lemma_term(r, q, ext, plan, must, field, text);
        assert(!meets(plan.filters@[i]));
    }
}

proof fn lemma_term(
    r: SearchRequest,
    q: Seq<char>,
    ext: Seq<char>,
    plan: SearchPlan,
    must: bool,
    field: Field,
    text: Seq<char>,
) -> (i: int)
    requires
        is_search_plan(r, q, ext, plan),
        request_filters(r, ext).contains((must, ClauseView::Term { field, text })) || r.volume is Some && must && field
            == Field::Volume && text == r.volume->0@ || r.ext is Some && must && field == Field::Ext && text == ext
            || r.hidden is Some && must == r.hidden->0 && field == Field::Attributes && text == "hidden"@
            || r.system is Some && must == r.system->0 && field == Field::Attributes && text == "system"@,
    ensures
        0 <= i < plan.filters@.len(),
        plan.filters@[i].must == must,
        plan.filters@[i].clause is Term,
        plan.filters@[i].clause->Term_field == field,
        plan.filters@[i].clause->Term_text@ == text,
{
    let x = (must, ClauseView::Term { field, text });
    lemma_conditions(r, ext, x);
    lemma_plan(r, q, ext, plan, x);
    let views = filter_views(plan.filters@);
    let i = choose|i: int| 0 <= i < views.len() && views[i] == x;
    assert(clause_view(plan.filters@[i].clause) == x.1);
    i
}

pub(crate) proof fn lemma_leading(s: Seq<char>, c: char) -> (k: int)
    ensures
        0 <= k <= s.len(),
        without_leading(s, c) == s.skip(k),
        forall|j: int| 0 <= j < k ==> s[j] == c,
        k < s.len() ==> s[k] != c,
    decreases s.len(),
{
    if s.len() > 0 && s[0] == c {
        let rest = s.skip(1);
        let k = lemma_leading(rest, c);
        assert(rest.skip(k) =~= s.skip(k + 1));
        assert forall|j: int| 0 <= j < k + 1 implies s[j] == c by {
            if j > 0 {
                assert(rest[j - 1] == s[j]);
            }
        }
        if k + 1 < s.len() {
            assert(rest[k] == s[k + 1]);
        }
        k + 1
    } else {
        assert(s.skip(0) =~= s);
        0
    }
}

/// A path that is asked for is looked for as the beginning of one: what follows its
/// leading slashes, with each backslash turned into a slash, and a star behind.
pub proof fn law_path(r: SearchRequest, q: Seq<char>, ext: Seq<char>, plan: SearchPlan)
    requires
        is_search_plan(r, q, ext, plan),
        r.path is Some,
    ensures
        exists|i: int, k: int|
            #![trigger plan.filters@[i], r.path->0@[k]]
            0 <= i < plan.filters@.len() && plan.filters@[i].must && plan.filters@[i].clause is Parsed
                && plan.filters@[i].clause->Parsed_field == Field::Path && ({
                let p = r.path->0@;
                let t = plan.filters@[i].clause->Parsed_text@;
                &&& 0 <= k <= p.len()
                &&& t.len() == p.len() - k + 1
                &&& t[t.len() - 1] == '*'
                &&& forall|j: int| 0 <= j < k ==> p[j] == '/' || p[j] == '\\'
                &&& k < p.len() ==> p[k] != '/' && p[k] != '\\'
                &&& forall|j: int|
                    k <= j < p.len() ==> t[j - k] == (if (#[trigger] p[j]) == '\\' {
                        '/'
                    } else {
                        p[j]
                    })
            }),
{
    let p = r.path->0@;
    let x = (true, ClauseView::Parsed { field: Field::Path, text: path_pattern(p) });
    lemma_conditions(r, ext, x);
    lemma_plan(r, q, ext, plan, x);
    let views = filter_views(plan.filters@);
    let i = choose|i: int| 0 <= i < views.len() && views[i] == x;
    assert(clause_view(plan.filters@[i].clause) == x.1);
    let s = replaced(p, '\\', '/');
    let k = lemma_leading(s, '/');
    assert forall|j: int| 0 <= j < k implies p[j] == '/' || p[j] == '\\' by {
        assert(s[j] == '/');
    }
    let t = plan.filters@[i].clause->Parsed_text@;
    assert(t == s.skip(k).push('*'));
    assert(plan.filters@[i].must && r.path->0@[k] == p[k]);
}

/// A plain text is looked for anywhere in the name in lower case, literally, by one
/// condition, and without tiers.
pub proof fn law_plain_text(r: SearchRequest, q: Seq<char>, ext: Seq<char>, plan: SearchPlan)
    requires
        is_search_plan(r, q, ext, plan),
        !r.advanced,
        trimmed(r.query@).len() > 0,
        r.query@ != "*"@,
    ensures
        plan.tiers@.len() == 0,
        plan.filters@.len() > 0,
        plan.filters@[0].must,
        plan.filters@[0].clause is Regex,
        plan.filters@[0].clause->Regex_field == Field::NameLower,
        plan.filters@[0].clause->Regex_pattern@ == seq!['.', '*'] + escaped(q) + seq!['.', '*'],
        forall|i: int|
            0 < i < plan.filters@.len() ==> !((#[trigger] plan.filters@[i]).clause is Regex) && !(
            plan.filters@[i].clause is All),
{
    reveal_strlit(".*");
    assert(".*"@ =~= seq!['.', '*']);
    let a = text_filters(r, q);
    let b = request_filters(r, ext);
    let views = filter_views(plan.filters@);
    assert(tier_views(plan.tiers@).len() == plan.tiers@.len());
    assert(views.len() == a.len() + b.len());
    assert(views[0] == a[0]);
    assert(clause_view(plan.filters@[0].clause) == a[0].1);
    assert forall|i: int| 0 < i < plan.filters@.len() implies !((#[trigger] plan.filters@[i]).clause is Regex) && !(
    plan.filters@[i].clause is All) by {
        let x = (plan.filters@[i].must, clause_view(plan.filters@[i].clause));
        assert(views[i] == x);
        assert(views[i] == b[i - 1]);
        assert(b.contains(x));
        lemma_conditions(r, ext, x);
    }
}

/// Where no text is asked for, every name matches.
pub proof fn law_no_text(r: SearchRequest, q: Seq<char>, ext: Seq<char>, plan: SearchPlan)
    requires
        is_search_plan(r, q, ext, plan),
        trimmed(r.query@).len() == 0 || r.query@ == seq!['*'],
    ensures
        plan.tiers@.len() == 0,
        forall|i: int| 0 <= i < plan.filters@.len() ==> !((#[trigger] plan.filters@[i]).clause is Regex),
        exists|i: int|
            0 <= i < plan.filters@.len() && (#[trigger] plan.filters@[i]).clause is All && plan.filters@[i].must,
{
    reveal_strlit("*");
    assert("*"@ =~= seq!['*']);
    let a = text_filters(r, q);
    let views = filter_views(plan.filters@);
    assert(tier_views(plan.tiers@).len() == plan.tiers@.len());
    assert(views.len() == a.len() + request_filters(r, ext).len());
    assert(a.len() == 1);
    assert(views[0] == a[0]);
    assert(clause_view(plan.filters@[0].clause) == a[0].1);
    assert forall|i: int| 0 <= i < plan.filters@.len() implies !((#[trigger] plan.filters@[i]).clause is Regex) by {
        let x = (plan.filters@[i].must, clause_view(plan.filters@[i].clause));
        lemma_view_at(plan, i);
        lemma_plan(r, q, ext, plan, x);
        lemma_conditions(r, ext, x);
        if text_filters(r, q).contains(x) {
            assert(x == a[0]);
        }
    }
}

/// Escaping goes character by character: one with a meaning in regular expressions gets a
/// backslash in front, any other stays as it is.
pub proof fn law_escaped(a: Seq<char>, b: Seq<char>, c: char)
    ensures
        escaped(Seq::empty()) == Seq::<char>::empty(),
        escaped(a + b) == escaped(a) + escaped(b),
        "\\.+*?()|[]{}^$"@.contains(c) ==> escaped(seq![c]) == seq!['\\', c],
        !"\\.+*?()|[]{}^$"@.contains(c) ==> escaped(seq![c]) == seq![c],
    decreases b.len(),
{
    reveal_strlit("\\.+*?()|[]{}^$");
    let marks = "\\.+*?()|[]{}^$"@;
    if b.len() == 0 {
        assert(a + b =~= a);
        assert(escaped(a) + escaped(b) =~= escaped(a));
    } else {
        law_escaped(a, b.drop_last(), c);
        assert((a + b).drop_last() =~= a + b.drop_last());
        assert((a + b).last() == b.last());
        assert(escaped(a + b) =~= escaped(a) + escaped(b));
    }
    let one = seq![c];
    assert(one.drop_last() =~= Seq::<char>::empty());
    assert(escaped(one.drop_last()) == Seq::<char>::empty());
    assert(crate::search::is_special(c) <==> marks.contains(c)) by {
        assert(marks[0] == '\\' && marks[1] == '.' && marks[2] == '+' && marks[3] == '*' && marks[4] == '?' && marks[5]
            == '(' && marks[6] == ')' && marks[7] == '|' && marks[8] == '[' && marks[9] == ']' && marks[10] == '{'
            && marks[11] == '}' && marks[12] == '^' && marks[13] == '$' && marks.len() == 14);
    }
    assert(escaped(one) =~= (if marks.contains(c) {
        seq!['\\', c]
    } else {
        seq![c]
    }));
}

/// The words of a text are not empty, hold no white space, and together hold all other
/// characters in their order.
pub proof fn law_words(s: Seq<char>)
    ensures
        forall|i: int| 0 <= i < words_of(s).len() ==> (#[trigger] words_of(s)[i]).len() > 0,
        forall|i: int, j: int|
            0 <= i < words_of(s).len() && 0 <= j < words_of(s)[i].len() ==> !is_white(#[trigger] words_of(s)[i][j]),
        words_of(s).flatten() == s.filter(|c: char| !is_white(c)),
        s.len() > 0 && !is_white(s.last()) ==> words_of(s).len() > 0,
    decreases s.len(),
{
    let pred = |c: char| !is_white(c);
    reveal(Seq::filter);
    if s.len() == 0 {
        assert(words_of(s).flatten() =~= s.filter(pred)) by {
            words_of(s).lemma_flatten_and_flatten_alt_are_equivalent();
        }
    } else {
        let part = s.drop_last();
        law_words(part);
        let rest = words_of(part);
        let all = words_of(s);
        let c = s.last();
        rest.lemma_flatten_and_flatten_alt_are_equivalent();
        all.lemma_flatten_and_flatten_alt_are_equivalent();
        if is_white(c) {
            assert(s.filter(pred) == part.filter(pred));
        } else if s.len() >= 2 && !is_white(s[s.len() - 2]) {
            assert(part.last() == s[s.len() - 2]);
            assert(all.drop_last() =~= rest.drop_last());
            assert(all.last() == rest.last().push(c));
            assert(s.filter(pred) == part.filter(pred).push(c));
            assert(all.flatten_alt() =~= rest.flatten_alt().push(c));
            assert forall|i: int, j: int| 0 <= i < all.len() && 0 <= j < all[i].len() implies !is_white(
                #[trigger] all[i][j],
            ) by {
                if i < rest.len() - 1 {
                    assert(all[i] == rest[i]);
                } else if j < rest.last().len() {
                    assert(!is_white(rest[rest.len() - 1][j]));
                }
            }
        } else {
            assert(all.drop_last() =~= rest);
            assert(all.last() == seq![c]);
            assert(s.filter(pred) == part.filter(pred).push(c));
            assert(all.flatten_alt() =~= rest.flatten_alt().push(c));
        }
    }
}

/// An advanced search looks for the whole text first, and for each of its words in full,
/// by its beginning and with errors after that, with less and less weight.
pub proof fn law_tiers(r: SearchRequest, q: Seq<char>, ext: Seq<char>, plan: SearchPlan)
    requires
        is_search_plan(r, q, ext, plan),
        r.advanced,
        trimmed(r.query@).len() > 0,
        r.query@ != "*"@,
        words_of(q).len() > 0,
    ensures
        plan.tiers@.len() > 0,
        forall|i: int, j: int|
            0 <= i < j < plan.tiers@.len() ==> (#[trigger] plan.tiers@[i]).boost > (#[trigger] plan.tiers@[j]).boost,
        plan.tiers@[0].clauses@.len() == 1,
        plan.tiers@[0].clauses@[0] is Parsed,
        plan.tiers@[0].clauses@[0]->Parsed_field == Field::Name,
        plan.tiers@[0].clauses@[0]->Parsed_text@ == seq!['"'] + q + seq!['"'],
        exists|i: int|
            0 <= i < plan.tiers@.len() && (#[trigger] plan.tiers@[i]).all && plan.tiers@[i].clauses@.len() == words_of(
                q,
            ).len() && forall|w: int|
                0 <= w < words_of(q).len() ==> {
                    let c = #[trigger] plan.tiers@[i].clauses@[w];
                    c is Term && c->Term_field == Field::Name && c->Term_text@ == words_of(q)[w]
                },
        exists|i: int|
            0 <= i < plan.tiers@.len() && (#[trigger] plan.tiers@[i]).all && plan.tiers@[i].clauses@.len() == words_of(
                q,
            ).len() && forall|w: int|
                0 <= w < words_of(q).len() ==> {
                    let c = #[trigger] plan.tiers@[i].clauses@[w];
                    c is Regex && c->Regex_field == Field::Name && c->Regex_pattern@ == escaped(words_of(q)[w]) + seq![
                        '.',
                        '*',
                    ]
                },
        forall|i: int| 0 <= i < plan.filters@.len() ==> !((#[trigger] plan.filters@[i]).clause is All),
{
    reveal_strlit(".*");
    assert(".*"@ =~= seq!['.', '*']);
    let words = words_of(q);
    let ts = tier_views(plan.tiers@);
    let all = advanced_tiers(q);
    assert(ts == all);
    assert(ts.len() == plan.tiers@.len());
    assert forall|i: int| 0 <= i < ts.len() implies tier_view(#[trigger] plan.tiers@[i]) == all[i] by {
        assert(ts[i] == all[i]);
    }
    assert(all[0].clauses.len() == 1);
    assert(tier_view(plan.tiers@[0]) == all[0]);
    assert(all[0].clauses[0] == ClauseView::Parsed { field: Field::Name, text: crate::search::quoted(q) });
    assert(tier_view(plan.tiers@[0]).clauses.len() == plan.tiers@[0].clauses@.len());
    assert(tier_view(plan.tiers@[0]).clauses[0] == clause_view(plan.tiers@[0].clauses@[0]));
    let m: int = if words.len() > 1 {
        2
    } else {
        1
    };
    assert(all[m].clauses == per_word(words, WordMatch::Whole));
    assert(all[m + 1].clauses == per_word(words, WordMatch::Prefix));
    assert(tier_view(plan.tiers@[m]).clauses == per_word(words, WordMatch::Whole));
    assert(tier_view(plan.tiers@[m + 1]).clauses == per_word(words, WordMatch::Prefix));
    assert(per_word(words, WordMatch::Whole).len() == words.len());
    assert(per_word(words, WordMatch::Prefix).len() == words.len());
    assert forall|w: int| 0 <= w < words.len() implies ({
        let c = #[trigger] plan.tiers@[m].clauses@[w];
        c is Term && c->Term_field == Field::Name && c->Term_text@ == words[w]
    }) by {
        assert(tier_view(plan.tiers@[m]).clauses[w] == word_clause(words[w], WordMatch::Whole));
    }
    assert forall|w: int| 0 <= w < words.len() implies ({
        let c = #[trigger] plan.tiers@[m + 1].clauses@[w];
        c is Regex && c->Regex_field == Field::Name && c->Regex_pattern@ == escaped(words[w]) + seq!['.', '*']
    }) by {
        assert(tier_view(plan.tiers@[m + 1]).clauses[w] == word_clause(words[w], WordMatch::Prefix));
    }
    assert forall|i: int, j: int| 0 <= i < j < plan.tiers@.len() implies (#[trigger] plan.tiers@[i]).boost > (
    #[trigger] plan.tiers@[j]).boost by {
        assert(all[i].boost > all[j].boost);
    }
    assert forall|i: int| 0 <= i < plan.filters@.len() implies !((#[trigger] plan.filters@[i]).clause is All) by {
        let x = (plan.filters@[i].must, clause_view(plan.filters@[i].clause));
        lemma_view_at(plan, i);
        lemma_plan(r, q, ext, plan, x);
        lemma_conditions(r, ext, x);
    }
}

/// A hit stays exactly if its document holds no whole key or its file is known; it is stale
/// otherwise.
pub proof fn law_hit_stays(hits: Seq<HitKey>, existing: Seq<(Seq<char>, u64)>, k: usize)
    requires
        hits.len() <= usize::MAX,
    ensures
        sorted_hits(hits, existing).0.contains(k) <==> k < hits.len() && (hits[k as int].volume is None
            || hits[k as int].file_id is None || existing.contains((hits[k as int].volume->0@, hits[k as int].file_id->0))),
        sorted_hits(hits, existing).1.contains(k) <==> k < hits.len() && hits[k as int].volume is Some
            && hits[k as int].file_id is Some && !existing.contains(
            (hits[k as int].volume->0@, hits[k as int].file_id->0),
        ),
    decreases hits.len(),
{
    if hits.len() > 0 {
        let part = hits.drop_last();
        law_hit_stays(part, existing, k);
        let a = sorted_hits(part, existing);
        let b = sorted_hits(hits, existing);
        let n = hits.len() - 1;
        lemma_pushed(a.0, b.0, n as usize, k);
        lemma_pushed(a.1, b.1, n as usize, k);
    }
}

proof fn lemma_pushed(a: Seq<usize>, b: Seq<usize>, n: usize, k: usize)
    requires
        b == a || b == a.push(n),
    ensures
        b == a ==> b.contains(k) == a.contains(k),
        b == a.push(n) ==> b.contains(k) == (a.contains(k) || k == n),
{
    if b == a.push(n) {
        assert(b[a.len() as int] == n);
        if a.contains(k) {
            let i = choose|i: int| 0 <= i < a.len() && a[i] == k;
            assert(b[i] == k);
        }
        if b.contains(k) {
            let i = choose|i: int| 0 <= i < b.len() && b[i] == k;
            if i < a.len() {
                assert(a[i] == k);
            }
        }
    }
}

/// The extension of a name is what stands behind its last dot; a name without a dot, or with
/// its only dot at the front, has none.
pub proof fn law_extension(stem: Seq<char>, ext: Seq<char>, e: Seq<char>)
    requires
        forall|i: int| 0 <= i < ext.len() ==> (#[trigger] ext[i]) != '.',
    ensures
        stem.len() > 0 && is_extension(stem.push('.') + ext, e) ==> e == ext,
        is_extension(seq!['.'] + ext, e) ==> e.len() == 0,
        is_extension(ext, e) ==> e.len() == 0,
{
    let name = stem.push('.') + ext;
    let n = stem.len() as int;
    assert(name[n] == '.');
    assert forall|j: int| n < j < name.len() implies name[j] != '.' by {
        assert(name[j] == ext[j - n - 1]);
    }
    assert(last_at(name, '.', n));
    assert(name.skip(n + 1) =~= ext);
    assert(name.contains('.'));
    let bare = seq!['.'] + ext;
    assert(bare[0] == '.');
    assert forall|j: int| 0 < j < bare.len() implies bare[j] != '.' by {
        assert(bare[j] == ext[j - 1]);
    }
    assert(last_at(bare, '.', 0));
    assert(bare.contains('.'));
    assert(!ext.contains('.'));
}

/// A document is indexed with an attribute exactly if its bit is set.
pub proof fn law_attribute(attributes: u32)
    ensures
        attribute_words(attributes).contains("hidden"@) <==> attributes & 2 != 0,
        attribute_words(attributes).contains("system"@) <==> attributes & 4 != 0,
        attribute_words(attributes).contains("readonly"@) <==> attributes & 1 != 0,
        attribute_words(attributes).contains("archive"@) <==> attributes & 32 != 0,
        attribute_words(attributes).contains("reparse"@) <==> attributes & 1024 != 0,
{
    reveal_strlit("hidden");
    reveal_strlit("system");
    reveal_strlit("readonly");
    reveal_strlit("archive");
    reveal_strlit("reparse");
    assert("hidden"@.len() == 6 && "hidden"@[0] == 'h');
    assert("system"@.len() == 6 && "system"@[0] == 's');
    assert("readonly"@.len() == 8);
    assert("archive"@.len() == 7 && "archive"@[0] == 'a');
    assert("reparse"@.len() == 7 && "reparse"@[0] == 'r');
    lemma_words(attributes, "hidden"@);
    lemma_words(attributes, "system"@);
    lemma_words(attributes, "readonly"@);
    lemma_words(attributes, "archive"@);
    lemma_words(attributes, "reparse"@);
}

proof fn lemma_words(attributes: u32, w: Seq<char>)
    ensures
        attribute_words(attributes).contains(w) <==> {
            ||| attributes & 1 != 0 && w == "readonly"@
            ||| attributes & 2 != 0 && w == "hidden"@
            ||| attributes & 4 != 0 && w == "system"@
            ||| attributes & 32 != 0 && w == "archive"@
            ||| attributes & 1024 != 0 && w == "reparse"@
        },
{
    let a = word_if(attributes & 1 != 0, "readonly"@);
    let b = word_if(attributes & 2 != 0, "hidden"@);
    let c = word_if(attributes & 4 != 0, "system"@);
    let d = word_if(attributes & 32 != 0, "archive"@);
    let e = word_if(attributes & 1024 != 0, "reparse"@);
    lemma_in_concat(a, b, w);
    lemma_in_concat(a + b, c, w);
    lemma_in_concat(a + b + c, d, w);
    lemma_in_concat(a + b + c + d, e, w);
    lemma_word(attributes & 1 != 0, "readonly"@, w);
    lemma_word(attributes & 2 != 0, "hidden"@, w);
    lemma_word(attributes & 4 != 0, "system"@, w);
    lemma_word(attributes & 32 != 0, "archive"@, w);
    lemma_word(attributes & 1024 != 0, "reparse"@, w);
}

proof fn lemma_word(on: bool, word: Seq<char>, w: Seq<char>)
    ensures
        word_if(on, word).contains(w) <==> on && w == word,
{
    if on {
        assert(word_if(on, word)[0] == word);
    }
}

proof fn lemma_grams(s: Seq<char>, size: int, c: ClauseView)
    ensures
        grams_up_to(s, size).contains(c) <==> exists|i: int, n: int|
            3 <= n <= size && 0 <= i && #[trigger] within(s, i, n) && c == (ClauseView::Term {
                field: Field::NameNgram,
                text: s.subrange(i, i + n),
            }),
    decreases size,
{
    if size >= 3 {
        lemma_grams(s, size - 1, c);
        let a = grams_up_to(s, size - 1);
        let b = grams_of_size(s, size);
        lemma_in_concat(a, b, c);
        if a.contains(c) {
            let (i, n) = choose|i: int, n: int|
                3 <= n <= size - 1 && 0 <= i && #[trigger] within(s, i, n) && c == (ClauseView::Term {
                    field: Field::NameNgram,
                    text: s.subrange(i, i + n),
                });
            assert(within(s, i, n));
        }
        if b.contains(c) {
            let i = choose|i: int| 0 <= i < b.len() && b[i] == c;
            assert(within(s, i, size));
        }
        if exists|i: int, n: int|
            3 <= n <= size && 0 <= i && #[trigger] within(s, i, n) && c == (ClauseView::Term {
                field: Field::NameNgram,
                text: s.subrange(i, i + n),
            }) {
            let (i, n) = choose|i: int, n: int|
                3 <= n <= size && 0 <= i && #[trigger] within(s, i, n) && c == (ClauseView::Term {
                    field: Field::NameNgram,
                    text: s.subrange(i, i + n),
                });
            if n == size {
                assert(b[i] == c);
            } else {
                assert(within(s, i, n));
                assert(a.contains(c));
            }
        }
    }
}

/// A piece of the text begins at a place and has a length.
pub open spec fn within(s: Seq<char>, i: int, n: int) -> bool {
    i + n <= s.len()
}

/// In an advanced search of three letters or more, any piece of three to ten letters of the
/// text without blanks makes a hit in one of the tiers, which counts for more than the tier
/// of parts of words and of words with errors, and for less than all others.
pub proof fn law_pieces(r: SearchRequest, q: Seq<char>, ext: Seq<char>, plan: SearchPlan, i: int, n: int)
    requires
        is_search_plan(r, q, ext, plan),
        r.advanced,
        trimmed(r.query@).len() > 0,
        r.query@ != "*"@,
        words_of(q).len() > 0,
        3 <= n <= 10,
        0 <= i,
        i + n <= q.filter(|c: char| c != ' ').len(),
        byte_len(q.filter(|c: char| c != ' ')) >= 3,
    ensures
        exists|t: int|
            0 <= t < plan.tiers@.len() && !(#[trigger] plan.tiers@[t]).all && plan.tiers@[t].boost == 12 && exists|c: int|
                0 <= c < plan.tiers@[t].clauses@.len() && (#[trigger] plan.tiers@[t].clauses@[c]) is Term
                    && plan.tiers@[t].clauses@[c]->Term_field == Field::NameNgram && plan.tiers@[t].clauses@[c]->Term_text@
                    == q.filter(|c: char| c != ' ').subrange(i, i + n),
{
    let g = q.filter(|c: char| c != ' ');
    assert(g == without_blanks(q));
    let want = ClauseView::Term { field: Field::NameNgram, text: g.subrange(i, i + n) };
    assert(within(g, i, n));
    lemma_grams(g, 10, want);
    let grams = grams_up_to(g, 10);
    assert(grams.contains(want));
    let words = words_of(q);
    let all = advanced_tiers(q);
    let ts = tier_views(plan.tiers@);
    assert(ts == all);
    let at: int = if words.len() > 1 {
        4
    } else {
        3
    };
    assert(all[at].clauses == grams && !all[at].all && all[at].boost == 12);
    assert(ts[at] == tier_view(plan.tiers@[at]));
    assert(!plan.tiers@[at].all);
    let c = choose|c: int| 0 <= c < grams.len() && grams[c] == want;
    assert(tier_view(plan.tiers@[at]).clauses[c] == clause_view(plan.tiers@[at].clauses@[c]));
    assert(plan.tiers@[at].clauses@[c] is Term);
}

/// In an advanced search, every word of more than two bytes may have one error, and two where
/// it is longer than five bytes; such hits count least.
pub proof fn law_words_with_errors(r: SearchRequest, q: Seq<char>, ext: Seq<char>, plan: SearchPlan, w: int)
    requires
        is_search_plan(r, q, ext, plan),
        r.advanced,
        trimmed(r.query@).len() > 0,
        r.query@ != "*"@,
        0 <= w < words_of(q).len(),
        byte_len(words_of(q)[w]) > 2,
    ensures
        plan.tiers@.len() > 0,
        ({
            let t = plan.tiers@.last();
            &&& t.boost == 8
            &&& t.all
            &&& exists|c: int|
                0 <= c < t.clauses@.len() && (#[trigger] t.clauses@[c]) is Fuzzy && t.clauses@[c]->Fuzzy_field
                    == Field::Name && t.clauses@[c]->Fuzzy_text@ == words_of(q)[w] && t.clauses@[c]->distance == (if byte_len(
                    words_of(q)[w],
                ) > 5 {
                    2u8
                } else {
                    1u8
                })
            &&& forall|c: int|
                0 <= c < t.clauses@.len() ==> (#[trigger] t.clauses@[c]) is Fuzzy && byte_len(t.clauses@[c]->Fuzzy_text@) > 2
        }),
{
    let words = words_of(q);
    let all = advanced_tiers(q);
    let ts = tier_views(plan.tiers@);
    assert(ts == all);
    assert(ts.len() == plan.tiers@.len());
    let pred = |x: Seq<char>| byte_len(x) > 2;
    let long = words.filter(pred);
    assert(long == long_words(words));
    words.lemma_filter_contains(pred, w);
    let k = choose|k: int| 0 <= k < long.len() && long[k] == words[w];
    assert(long.len() > 0);
    let t = plan.tiers@.last();
    assert(ts.last() == tier_view(t));
    assert(all.last().clauses == per_word(long, WordMatch::Fuzzy));
    assert(all.last().boost == 8 && all.last().all);
    assert(tier_view(t).clauses.len() == t.clauses@.len());
    assert(tier_view(t).clauses[k] == clause_view(t.clauses@[k]));
    assert(t.clauses@[k] is Fuzzy);
    assert forall|c: int| 0 <= c < t.clauses@.len() implies (#[trigger] t.clauses@[c]) is Fuzzy && byte_len(
        t.clauses@[c]->Fuzzy_text@,
    ) > 2 by {
        assert(tier_view(t).clauses[c] == clause_view(t.clauses@[c]));
        words.lemma_filter_pred(pred, c);
    }
}

} // verus!
