//! What the rows of a history are made of.

use crate::decimal::integer_text;
use crate::history::{
    aggregated, cursor_of, is_history_page, merged, merges, runs_fit, used_rows, visible_rows,
    HistoryCursor, HistoryEntry, HistoryPage,
};
use crate::mutation_filter::displayable;
use crate::sums::{lemma_total_push, total};
use vstd::prelude::*;

verus! {

/// Two rows in a row belong together: the same kind of change of the same file, and,
/// unless all such rows are collapsed, no modification and under the same name.
pub open spec fn belong_together(a: HistoryEntry, b: HistoryEntry, collapse: bool) -> bool {
    &&& a.kind@ == b.kind@
    &&& a.file_id == b.file_id
    &&& collapse || a.name@ == b.name@ && a.kind@ != "Modified"@
}

/// The growth of the rows from one place to another.
pub open spec fn growth_between(rows: Seq<HistoryEntry>, from: int, to: int) -> Seq<int> {
    Seq::new((to - from) as nat, |i: int| rows[from + i].size_delta as int)
}

/// The entry stands for the rows from one place up to another: it has their growth as a
/// whole, the kind and the file of the first, and name, place and time of the last.
pub open spec fn stands_for(rows: Seq<HistoryEntry>, from: int, to: int, collapse: bool, e: HistoryEntry) -> bool {
    let a = rows[from];
    let z = rows[to - 1];
    &&& 0 <= from < to <= rows.len()
    &&& e.size_delta == total(growth_between(rows, from, to))
    &&& e.volume == a.volume && e.file_id == a.file_id && e.kind == a.kind && e.is_directory == a.is_directory
    &&& e.sequence == z.sequence && e.at == z.at && e.name == z.name && e.parent_file_id == z.parent_file_id && e.source
        == z.source
    &&& forall|i: int| from < i < to ==> belong_together(rows[i - 1], #[trigger] rows[i], collapse)
}

/// The rows are cut in pieces at the given places.
pub open spec fn are_cuts(cuts: Seq<int>, n: int, pieces: int) -> bool {
    &&& cuts.len() == pieces + 1
    &&& cuts[0] == 0
    &&& cuts[pieces] == n
    &&& forall|k: int| 0 <= k < pieces ==> cuts[k] < #[trigger] cuts[k + 1]
}

/// The entries stand for the pieces in which the rows are cut: each piece is as long as its
/// rows belong together.
pub open spec fn are_runs(rows: Seq<HistoryEntry>, cuts: Seq<int>, collapse: bool, entries: Seq<HistoryEntry>) -> bool {
    &&& are_cuts(cuts, rows.len() as int, entries.len() as int)
    &&& forall|k: int|
        0 <= k < entries.len() ==> stands_for(rows, cuts[k], cuts[k + 1], collapse, #[trigger] entries[k])
    &&& forall|k: int|
        0 < k < entries.len() ==> !belong_together(rows[(#[trigger] cuts[k]) - 1], rows[cuts[k]], collapse)
}

/// The entries of a history stand for the runs of rows that belong together, in order,
/// every row for one entry.
pub proof fn law_runs(rows: Seq<HistoryEntry>, collapse: bool) -> (cuts: Seq<int>)
    requires
        runs_fit(rows, collapse),
    ensures
        are_runs(rows, cuts, collapse, aggregated(rows, collapse)),
    decreases rows.len(),
{
    let entries = aggregated(rows, collapse);
    if rows.len() == 0 {
        seq![0int]
    } else {
        let part = rows.drop_last();
        let n = rows.len() - 1;
        let x = rows[n];
        let cuts = law_runs(part, collapse);
        let rest = aggregated(part, collapse);
        let m = rest.len() as int;
        assert forall|i: int| 0 <= i < n implies #[trigger] part[i] == rows[i] by {}
        assert forall|k: int| 0 <= k < m implies stands_for(rows, cuts[k], cuts[k + 1], collapse, #[trigger] rest[k]) by {
            let (a, z) = (cuts[k], cuts[k + 1]);
            assert(stands_for(part, a, z, collapse, rest[k]));
            assert(growth_between(rows, a, z) =~= growth_between(part, a, z));
            assert forall|i: int| a < i < z implies belong_together(rows[i - 1], #[trigger] rows[i], collapse) by {
                assert(belong_together(part[i - 1], part[i], collapse));
            }
        }
        if m > 0 {
            let a = cuts[m - 1];
            lemma_increasing(cuts, n, m, m - 1);
            assert(stands_for(rows, a, n, collapse, rest[m - 1]));
            lemma_same_kind(rows, a, n, collapse, n - 1);
            assert(merges(rest.last(), x, collapse) == belong_together(rows[n - 1], x, collapse));
            if merges(rest.last(), x, collapse) {
                let more = cuts.update(m, n + 1);
                let e = merged(rest.last(), x);
                assert(growth_between(rows, a, n + 1) =~= growth_between(rows, a, n).push(x.size_delta as int));
                lemma_total_push(growth_between(rows, a, n), x.size_delta as int);
                assert(stands_for(rows, a, n + 1, collapse, e)) by {
                    assert forall|i: int| a < i < n + 1 implies belong_together(rows[i - 1], #[trigger] rows[i], collapse) by {
                        if i < n {
                            assert(belong_together(rows[i - 1], rows[i], collapse));
                        }
                    }
                }
                assert forall|k: int| 0 <= k < m implies stands_for(
                    rows,
                    more[k],
                    more[k + 1],
                    collapse,
                    #[trigger] entries[k],
                ) by {
                    if k < m - 1 {
                        assert(entries[k] == rest[k]);
                    }
                }
                assert forall|k: int| 0 < k < m implies !belong_together(
                    rows[(#[trigger] more[k]) - 1],
                    rows[more[k]],
                    collapse,
                ) by {
                    lemma_increasing(cuts, n, m, k);
                    assert(!belong_together(part[cuts[k] - 1], part[cuts[k]], collapse));
                }
                assert forall|k: int| 0 <= k < m implies more[k] < #[trigger] more[k + 1] by {
                    assert(cuts[k] < cuts[k + 1]);
                }
                more
            } else {
                let more = cuts.push(n + 1);
                lemma_extended(rows, cuts, rest, collapse);
                more
            }
        } else {
            let more = cuts.push(n + 1);
            lemma_extended(rows, cuts, rest, collapse);
            more
        }
    }
}

proof fn lemma_increasing(cuts: Seq<int>, n: int, pieces: int, k: int)
    requires
        are_cuts(cuts, n, pieces),
        0 <= k <= pieces,
    ensures
        k <= cuts[k] <= n - (pieces - k),
    decreases k,
{
    lemma_below(cuts, n, pieces, k);
    if k > 0 {
        lemma_increasing(cuts, n, pieces, k - 1);
        assert(cuts[k - 1] < cuts[(k - 1) + 1]);
    }
}

proof fn lemma_below(cuts: Seq<int>, n: int, pieces: int, k: int)
    requires
        are_cuts(cuts, n, pieces),
        0 <= k <= pieces,
    ensures
        cuts[k] <= n - (pieces - k),
    decreases pieces - k,
{
    if k < pieces {
        lemma_below(cuts, n, pieces, k + 1);
        assert(cuts[k] < cuts[k + 1]);
    }
}

proof fn lemma_same_kind(rows: Seq<HistoryEntry>, from: int, to: int, collapse: bool, i: int)
    requires
        0 <= from <= i < to <= rows.len(),
        forall|j: int| from < j < to ==> belong_together(rows[j - 1], #[trigger] rows[j], collapse),
    ensures
        rows[i].kind@ == rows[from].kind@,
        rows[i].file_id == rows[from].file_id,
    decreases i,
{
    if i > from {
        lemma_same_kind(rows, from, to, collapse, i - 1);
        assert(belong_together(rows[i - 1], rows[i], collapse));
    }
}

/// A row that does not belong to those before it begins a piece of its own.
proof fn lemma_extended(rows: Seq<HistoryEntry>, cuts: Seq<int>, rest: Seq<HistoryEntry>, collapse: bool)
    requires
        rows.len() > 0,
        are_runs(rows.drop_last(), cuts, collapse, rest),
        rest.len() == 0 || !belong_together(rows[rows.len() - 2], rows[rows.len() - 1], collapse),
    ensures
        are_runs(rows, cuts.push(rows.len() as int), collapse, rest.push(rows.last())),
{
    let part = rows.drop_last();
    let n = rows.len() - 1;
    let m = rest.len() as int;
    let more = cuts.push(n + 1);
    let all = rest.push(rows[n]);
    assert forall|i: int| 0 <= i < n implies #[trigger] part[i] == rows[i] by {}
    assert(growth_between(rows, n, n + 1) =~= Seq::<int>::empty().push(rows[n].size_delta as int));
    lemma_total_push(Seq::<int>::empty(), rows[n].size_delta as int);
    assert forall|k: int| 0 <= k < all.len() implies stands_for(rows, more[k], more[k + 1], collapse, #[trigger] all[k]) by {
        if k < m {
            let (a, z) = (cuts[k], cuts[k + 1]);
            assert(stands_for(part, a, z, collapse, rest[k]));
            assert(growth_between(rows, a, z) =~= growth_between(part, a, z));
            assert forall|i: int| a < i < z implies belong_together(rows[i - 1], #[trigger] rows[i], collapse) by {
                assert(belong_together(part[i - 1], part[i], collapse));
            }
        }
    }
    assert forall|k: int| 0 < k < all.len() implies !belong_together(
        rows[(#[trigger] more[k]) - 1],
        rows[more[k]],
        collapse,
    ) by {
        if k < m {
            lemma_increasing(cuts, n, m, k);
            assert(!belong_together(part[cuts[k] - 1], part[cuts[k]], collapse));
        }
    }
    assert forall|k: int| 0 <= k < all.len() implies more[k] < #[trigger] more[k + 1] by {
        if k < m {
            assert(cuts[k] < cuts[k + 1]);
        }
    }
}

/// A page shows, of the entries for the rows that were fetched, those that are created,
/// deleted or renamed files or change a size by two bytes or more, in order, until it is
/// full. Rows that were fetched backward come in order again.
pub proof fn law_page_entries(
    fetched: Seq<HistoryEntry>,
    collapse: bool,
    limit: nat,
    backward: bool,
    has_cursor: bool,
    page: HistoryPage,
    k: int,
)
    requires
        is_history_page(fetched, collapse, limit as int, backward, has_cursor, page),
        fetched.len() <= 2 * limit || collapse && fetched.len() <= 4 * limit,
    ensures
        page.entries@.len() <= limit,
        forall|i: int|
            0 <= i < page.entries@.len() ==> {
                let e = #[trigger] page.entries@[i];
                &&& e.kind@ == "Created"@ || e.kind@ == "Deleted"@ || e.kind@ == "Renamed"@ || e.size_delta >= 2
                    || e.size_delta <= -2
                &&& aggregated(
                    if backward {
                        fetched.reverse()
                    } else {
                        fetched
                    },
                    collapse,
                ).contains(e)
            },
        ({
            let all = aggregated(
                if backward {
                    fetched.reverse()
                } else {
                    fetched
                },
                collapse,
            );
            0 <= k < all.len() && (all[k].kind@ == "Created"@ || all[k].kind@ == "Deleted"@ || all[k].kind@ == "Renamed"@
                || all[k].size_delta >= 2 || all[k].size_delta <= -2) ==> page.entries@.contains(all[k])
                || page.entries@.len() == limit
        }),
        // Nothing follows a page that is not full.
        !backward && page.entries@.len() < limit ==> page.next_cursor is None,
        backward && page.entries@.len() < limit ==> page.prev_cursor is None,
{
    let rows = if backward {
        fetched.reverse()
    } else {
        fetched
    };
    assert(used_rows(fetched, collapse, limit as int, backward) == rows);
    let all = aggregated(rows, collapse);
    let pred = |e: HistoryEntry| displayable(e.kind@, e.size_delta as int);
    let shown = all.filter(pred);
    assert(shown == visible_rows(fetched, collapse, limit as int, backward));
    assert forall|i: int| 0 <= i < page.entries@.len() implies ({
        let e = #[trigger] page.entries@[i];
        displayable(e.kind@, e.size_delta as int) && all.contains(e)
    }) by {
        assert(page.entries@[i] == shown[i]);
        all.lemma_filter_pred(pred, i);
        all.lemma_filter_contains_rev(pred, shown[i]);
    }
    if 0 <= k < all.len() && pred(all[k]) && page.entries@.len() < limit {
        assert(page.entries@ == shown);
        all.lemma_filter_contains(pred, k);
    }
}

/// A cursor is a number, which goes forward, or one with a letter and a colon in front: an f
/// goes forward and a b backward. Without a cursor a history goes forward from its beginning.
pub proof fn law_cursor_read(n: i64)
    ensures
        cursor_of(Some(integer_text(n as int))) == (HistoryCursor { backward: false, sequence: Some(n) }),
        cursor_of(Some(seq!['f', ':'] + integer_text(n as int))) == (HistoryCursor {
            backward: false,
            sequence: Some(n),
        }),
        cursor_of(Some(seq!['b', ':'] + integer_text(n as int))) == (HistoryCursor {
            backward: true,
            sequence: Some(n),
        }),
        cursor_of(None) == (HistoryCursor { backward: false, sequence: None }),
{
    reveal_strlit("f:");
    reveal_strlit("b:");
    assert("f:"@ =~= seq!['f', ':']);
    assert("b:"@ =~= seq!['b', ':']);
    let t = integer_text(n as int);
    crate::decimal::law_integer_roundtrip(n as int);
    let (f, b) = (seq!['f', ':'] + t, seq!['b', ':'] + t);
    assert(f.skip(2) =~= t && b.skip(2) =~= t);
    assert(f.subrange(0, 2) =~= "f:"@);
    assert(b.subrange(0, 2) =~= "b:"@);
    assert(b[0] == 'b' && b.subrange(0, 2)[0] == 'b');
    crate::decimal::law_decimal_roundtrip(if n < 0 { (-(n as int)) as nat } else { n as nat });
    assert(t[0] == '-' || crate::decimal::is_digit(t[0]));
    if "f:"@.is_prefix_of(t) {
        assert(t.subrange(0, 2)[0] == 'f');
    }
    if "b:"@.is_prefix_of(t) {
        assert(t.subrange(0, 2)[0] == 'b');
    }
}

} // verus!
