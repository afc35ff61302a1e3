//! What a comparison of two snapshots, and the account of where their growth comes from,
//! show of the directories that changed.

use crate::explain::{
    collapsed, explained, grown, growth_patterns, label_in, label_of, law_collapse_keeps_growth,
    place_of, source_deltas, source_keys, source_of, source_views, ExplainEntry, SourceView,
};
use crate::order::{before, law_order_exists, lemma_order_distinct, order_of};
use crate::size_diff::{
    all_paths, arranged, by_growth, change_keys, delta_at, deltas, entry_view, entry_views,
    growth_keys, has_path, largest_of, shown, size_of, sizes_fit, sum_at, with_paths, DeltaView,
    DiffEntry, EntryView,
};
use crate::store::{text_of, DirRow};
use crate::sums::{
    lemma_total_filtered, lemma_total_ones, lemma_total_permuted, lemma_total_push, total,
};
use crate::text::{holds_text, opt_text};
use vstd::prelude::*;
use vstd::utf8::{decode_utf8, valid_utf8};

verus! {

proof fn lemma_shown_total(ds: Seq<DeltaView>, f: spec_fn(EntryView) -> int)
    ensures
        total(shown(ds).map_values(f)) == total(
            ds.map_values(
                |d: DeltaView|
                    match text_of(d.path) {
                        Some(t) => f(EntryView { path: t, bytes_a: d.bytes_a, bytes_b: d.bytes_b, delta: d.delta }),
                        None => 0,
                    },
            ),
        ),
    decreases ds.len(),
{
    let g = |d: DeltaView|
        match text_of(d.path) {
            Some(t) => f(EntryView { path: t, bytes_a: d.bytes_a, bytes_b: d.bytes_b, delta: d.delta }),
            None => 0,
        };
    if ds.len() == 0 {
        assert(shown(ds).map_values(f) =~= ds.map_values(g));
    } else {
        let part = ds.drop_last();
        lemma_shown_total(part, f);
        assert(ds.map_values(g).drop_last() =~= part.map_values(g));
        if text_of(ds.last().path) is Some {
            assert(shown(ds).map_values(f) =~= shown(part).map_values(f).push(g(ds.last())));
            lemma_total_push(shown(part).map_values(f), g(ds.last()));
        }
    }
}

proof fn lemma_arranged_total<T>(items: Seq<T>, keys: Seq<i128>, f: spec_fn(T) -> int)
    requires
        items.len() == keys.len(),
        keys.len() <= usize::MAX,
    ensures
        arranged(items, keys).len() == items.len(),
        total(arranged(items, keys).map_values(f)) == total(items.map_values(f)),
{
    law_order_exists(keys);
    let o = order_of(keys);
    lemma_order_distinct(keys, o);
    let s = items.map_values(f);
    lemma_total_permuted(s, o);
    assert(arranged(items, keys).map_values(f) =~= o.map_values(|i: usize| s[i as int]));
}

/// One for each directory that grew.
pub open spec fn grew_ones(ds: Seq<DeltaView>) -> Seq<int> {
    Seq::new(
        ds.len(),
        |i: int|
            if ds[i].delta > 0 {
                1
            } else {
                0
            },
    )
}

/// The growth of the directories that grew and whose paths are texts.
pub open spec fn grew_by(ds: Seq<DeltaView>) -> Seq<int> {
    Seq::new(
        ds.len(),
        |i: int|
            if ds[i].delta > 0 && valid_utf8(ds[i].path) {
                ds[i].delta as int
            } else {
                0
            },
    )
}

/// The growth of the directories that grew and whose paths have the label.
pub open spec fn grew_with(ds: Seq<DeltaView>, label: Seq<char>) -> Seq<int> {
    Seq::new(
        ds.len(),
        |i: int|
            if ds[i].delta > 0 && valid_utf8(ds[i].path) && label_of(decode_utf8(ds[i].path)) == Some(label) {
                ds[i].delta as int
            } else {
                0
            },
    )
}

/// One for each directory that grew and whose path is a text without a label.
pub open spec fn unlabelled_ones(ds: Seq<DeltaView>) -> Seq<int> {
    Seq::new(
        ds.len(),
        |i: int|
            if ds[i].delta > 0 && valid_utf8(ds[i].path) && label_of(decode_utf8(ds[i].path)) is None {
                1
            } else {
                0
            },
    )
}

/// Where few enough directories grew, a sum over the sources is one over all of them.
proof fn lemma_grown_total(ds: Seq<DeltaView>, top: int, f: spec_fn(SourceView) -> int)
    requires
        ds.len() <= usize::MAX,
        total(grew_ones(ds)) <= 3 * top,
    ensures
        total(grown(ds, top).map_values(f)) == total(
            ds.map_values(
                |d: DeltaView|
                    if d.delta > 0 && valid_utf8(d.path) {
                        f(
                            SourceView {
                                path: decode_utf8(d.path),
                                delta: d.delta as int,
                                label: label_of(decode_utf8(d.path)),
                            },
                        )
                    } else {
                        0
                    },
            ),
        ),
{
    let pred = |d: DeltaView| d.delta > 0;
    let grew = ds.filter(pred);
    ds.lemma_filter_len(pred);
    let one = |d: DeltaView| 1int;
    lemma_total_filtered(ds, pred, one);
    lemma_total_ones(grew.map_values(one));
    assert(grew_ones(ds) =~= ds.map_values(
        |x: DeltaView|
            if pred(x) {
                one(x)
            } else {
                0
            },
    ));
    let g = |e: EntryView| f(source_of(e));
    let h = |d: DeltaView|
        match text_of(d.path) {
            Some(t) => g(EntryView { path: t, bytes_a: d.bytes_a, bytes_b: d.bytes_b, delta: d.delta }),
            None => 0,
        };
    lemma_arranged_total(grew, growth_keys(grew), h);
    let ranked = by_growth(grew, 3 * top);
    assert(ranked == arranged(grew, growth_keys(grew)));
    lemma_shown_total(ranked, g);
    lemma_total_filtered(ds, pred, h);
    assert(grown(ds, top).map_values(f) =~= shown(ranked).map_values(g));
    let want = ds.map_values(
        |d: DeltaView|
            if d.delta > 0 && valid_utf8(d.path) {
                f(
                    SourceView {
                        path: decode_utf8(d.path),
                        delta: d.delta as int,
                        label: label_of(decode_utf8(d.path)),
                    },
                )
            } else {
                0
            },
    );
    assert(ds.map_values(
        |x: DeltaView|
            if pred(x) {
                h(x)
            } else {
                0
            },
    ) =~= want);
}

/// What the sources with a label bring.
spec fn labelled(sources: Seq<SourceView>, label: Seq<char>) -> Seq<int> {
    sources.map_values(
        |e: SourceView|
            if e.label == Some(label) {
                e.delta
            } else {
                0
            },
    )
}

spec fn bare_ones(sources: Seq<SourceView>) -> Seq<int> {
    sources.map_values(
        |e: SourceView|
            if e.label is None {
                1int
            } else {
                0
            },
    )
}

/// The labels of the sources, each once.
spec fn label_list(sources: Seq<SourceView>) -> Seq<Seq<char>>
    decreases sources.len(),
{
    if sources.len() == 0 {
        Seq::empty()
    } else {
        let rest = label_list(sources.drop_last());
        if sources.last().label is Some && !rest.contains(sources.last().label->0) {
            rest.push(sources.last().label->0)
        } else {
            rest
        }
    }
}

proof fn lemma_collapsed_labels(sources: Seq<SourceView>)
    ensures
        label_list(sources).no_duplicates(),
        forall|l: Seq<char>| #[trigger]
            label_list(sources).contains(l) <==> exists|i: int|
                0 <= i < sources.len() && (#[trigger] sources[i]).label == Some(l),
        forall|l: Seq<char>| #[trigger]
            label_list(sources).contains(l) <==> exists|i: int|
                0 <= i < collapsed(sources).len() && (#[trigger] collapsed(sources)[i]).label == Some(l),
        collapsed(sources).len() == label_list(sources).len() + total(bare_ones(sources)),
    decreases sources.len(),
{
    if sources.len() == 0 {
        assert(bare_ones(sources) =~= Seq::<int>::empty());
    } else {
        let part = sources.drop_last();
        let n = sources.len() - 1;
        let e = sources[n];
        lemma_collapsed_labels(part);
        let a = label_list(part);
        let b = label_list(sources);
        let c = collapsed(part);
        let d = collapsed(sources);
        assert(bare_ones(sources).drop_last() =~= bare_ones(part));
        assert forall|l: Seq<char>| #[trigger] b.contains(l) <==> a.contains(l) || e.label == Some(l) by {
            if a.contains(l) {
                let k = choose|k: int| 0 <= k < a.len() && a[k] == l;
                assert(b[k] == l);
            }
            if e.label == Some(l) && !a.contains(l) {
                assert(b[a.len() as int] == l);
            }
        }
        if e.label is Some {
            crate::explain::lemma_place(c, e.label->0);
            let p = place_of(c, e.label->0);
            if p is Some {
                assert(c[p->0].label == e.label);
                assert(a.contains(e.label->0));
            }
        }
        assert forall|l: Seq<char>| #[trigger] b.contains(l) <==> exists|i: int|
            0 <= i < sources.len() && (#[trigger] sources[i]).label == Some(l) by {
            if a.contains(l) {
                let i = choose|i: int| 0 <= i < part.len() && (#[trigger] part[i]).label == Some(l);
                assert(sources[i].label == Some(l));
            }
            if exists|i: int| 0 <= i < sources.len() && (#[trigger] sources[i]).label == Some(l) {
                let i = choose|i: int| 0 <= i < sources.len() && (#[trigger] sources[i]).label == Some(l);
                if i < n {
                    assert(part[i].label == Some(l));
                    assert(a.contains(l));
                }
            }
        }
        assert forall|l: Seq<char>| #[trigger] b.contains(l) <==> exists|i: int|
            0 <= i < d.len() && (#[trigger] d[i]).label == Some(l) by {
            if a.contains(l) {
                let i = choose|i: int| 0 <= i < c.len() && (#[trigger] c[i]).label == Some(l);
                assert(d[i].label == Some(l));
            }
            if e.label == Some(l) && !a.contains(l) {
                assert(place_of(c, l) is None);
                assert(d[c.len() as int].label == Some(l));
            }
            if exists|i: int| 0 <= i < d.len() && (#[trigger] d[i]).label == Some(l) {
                let i = choose|i: int| 0 <= i < d.len() && (#[trigger] d[i]).label == Some(l);
                if i < c.len() {
                    assert(c[i].label == Some(l));
                    assert(a.contains(l));
                }
            }
        }
    }
}

proof fn lemma_collapsed_sum(sources: Seq<SourceView>, k: int)
    requires
        0 <= k < collapsed(sources).len(),
        collapsed(sources)[k].label is Some,
    ensures
        collapsed(sources)[k].delta == total(labelled(sources, collapsed(sources)[k].label->0)),
    decreases sources.len(),
{
    let part = sources.drop_last();
    let e = sources.last();
    let c = collapsed(part);
    let d = collapsed(sources);
    let l = d[k].label->0;
    assert(labelled(sources, l).drop_last() =~= labelled(part, l));
    if e.label is Some {
        crate::explain::lemma_place(c, e.label->0);
    }
    lemma_collapsed_labels(part);
    if k < c.len() {
        assert(c[k].label == d[k].label);
        lemma_collapsed_sum(part, k);
        if e.label == Some(l) {
            let p = place_of(c, l);
            assert(p is Some);
            if p->0 != k {
                if p->0 < k {
                    crate::explain::law_labels_once(part, p->0, k);
                } else {
                    crate::explain::law_labels_once(part, k, p->0);
                }
            }
        }
    } else {
        assert(d[k] == e);
        assert(!label_list(part).contains(l)) by {
            if label_list(part).contains(l) {
                let i = choose|i: int| 0 <= i < c.len() && (#[trigger] c[i]).label == Some(l);
            }
        }
        assert forall|i: int| 0 <= i < part.len() implies #[trigger] labelled(part, l)[i] == 0 by {
            if part[i].label == Some(l) {
                assert(label_list(part).contains(l));
            }
        }
        crate::sums::lemma_total_zero(labelled(part, l));
    }
}

/// Where at most three times as many directories grew as sources are asked for, the growth
/// shown for a label is that of all directories that grew and whose paths have the label.
pub proof fn law_label_growth(ds: Seq<DeltaView>, top: nat, r: Seq<ExplainEntry>, k: int)
    requires
        source_views(r) == explained(ds, top as int),
        ds.len() <= usize::MAX,
        total(grew_ones(ds)) <= 3 * top,
        0 <= k < r.len(),
        r[k].label is Some,
    ensures
        r[k].delta_bytes == total(grew_with(ds, r[k].label->0@)),
{
    let sources = grown(ds, top as int);
    let c = collapsed(sources);
    let keys = source_keys(c);
    lemma_few_sources(ds, top as int);
    law_order_exists(keys);
    let o = order_of(keys);
    let views = source_views(r);
    assert(arranged(c, keys).len() == o.len());
    assert(views.len() == r.len());
    assert(keys.len() == c.len());
    assert(views[k] == arranged(c, keys)[k]);
    assert(o[k] < c.len());
    assert(views[k] == c[o[k] as int]);
    assert(views[k].delta == r[k].delta_bytes);
    let l = r[k].label->0@;
    assert(c[o[k] as int].label == Some(l));
    lemma_collapsed_sum(sources, o[k] as int);
    let f = |e: SourceView|
        if e.label == Some(l) {
            e.delta
        } else {
            0
        };
    lemma_grown_total(ds, top as int, f);
    assert(labelled(sources, l) =~= sources.map_values(f));
    assert(grew_with(ds, l) =~= ds.map_values(
        |d: DeltaView|
            if d.delta > 0 && valid_utf8(d.path) {
                f(
                    SourceView {
                        path: decode_utf8(d.path),
                        delta: d.delta as int,
                        label: label_of(decode_utf8(d.path)),
                    },
                )
            } else {
                0
            },
    ));
}

/// There are no more sources than changes.
proof fn lemma_few_sources(ds: Seq<DeltaView>, top: int)
    requires
        ds.len() <= usize::MAX,
        0 <= top,
    ensures
        grown(ds, top).len() <= ds.len(),
        collapsed(grown(ds, top)).len() <= ds.len(),
{
    let pred = |d: DeltaView| d.delta > 0;
    let grew = ds.filter(pred);
    ds.lemma_filter_len(pred);
    law_order_exists(growth_keys(grew));
    let ranked = by_growth(grew, 3 * top);
    crate::size_diff::lemma_shown_len(ranked);
    lemma_collapsed_len(grown(ds, top));
}

proof fn lemma_collapsed_len(sources: Seq<SourceView>)
    ensures
        collapsed(sources).len() <= sources.len(),
    decreases sources.len(),
{
    if sources.len() > 0 {
        lemma_collapsed_len(sources.drop_last());
        let e = sources.last();
        if e.label is Some {
            crate::explain::lemma_place(collapsed(sources.drop_last()), e.label->0);
        }
    }
}

/// Where the labels and the directories without a label that grew are not more than the
/// sources asked for, the entries add up to the growth of all directories that grew.
pub proof fn law_whole_growth(ds: Seq<DeltaView>, top: nat, r: Seq<ExplainEntry>, labels: Set<Seq<char>>)
    requires
        source_views(r) == explained(ds, top as int),
        ds.len() <= usize::MAX,
        total(grew_ones(ds)) <= 3 * top,
        labels.finite(),
        forall|i: int|
            0 <= i < ds.len() && (#[trigger] ds[i]).delta > 0 && valid_utf8(ds[i].path) && label_of(
                decode_utf8(ds[i].path),
            ) is Some ==> labels.contains(label_of(decode_utf8(ds[i].path))->0),
        labels.len() + total(unlabelled_ones(ds)) <= top,
    ensures
        total(Seq::new(r.len(), |k: int| r[k].delta_bytes as int)) == total(grew_by(ds)),
{
    let sources = grown(ds, top as int);
    let c = collapsed(sources);
    let keys = source_keys(c);
    lemma_few_sources(ds, top as int);
    lemma_collapsed_labels(sources);
    // No more sources than asked for.
    let ones = |e: SourceView|
        if e.label is None {
            1int
        } else {
            0
        };
    lemma_grown_total(ds, top as int, ones);
    assert(bare_ones(sources) =~= sources.map_values(ones));
    assert(unlabelled_ones(ds) =~= ds.map_values(
        |d: DeltaView|
            if d.delta > 0 && valid_utf8(d.path) {
                ones(
                    SourceView {
                        path: decode_utf8(d.path),
                        delta: d.delta as int,
                        label: label_of(decode_utf8(d.path)),
                    },
                )
            } else {
                0
            },
    ));
    let list = label_list(sources);
    list.unique_seq_to_set();
    assert(list.to_set().subset_of(labels)) by {
        assert forall|l: Seq<char>| list.to_set().contains(l) implies labels.contains(l) by {
            assert(list.contains(l));
            let i = choose|i: int| 0 <= i < sources.len() && (#[trigger] sources[i]).label == Some(l);
            let j = lemma_source(ds, top as int, i);
        }
    }
    vstd::set_lib::lemma_len_subset(list.to_set(), labels);
    assert(c.len() <= top);
    // Nothing is cut off, so the sums are the same.
    let f = |e: SourceView| e.delta;
    lemma_arranged_total(c, keys, f);
    assert(source_views(r) == arranged(c, keys));
    assert(source_views(r).map_values(f) =~= Seq::new(r.len(), |k: int| r[k].delta_bytes as int));
    law_collapse_keeps_growth(sources);
    assert(source_deltas(c) =~= c.map_values(f));
    assert(source_deltas(sources) =~= sources.map_values(f));
    lemma_grown_total(ds, top as int, f);
    assert(grew_by(ds) =~= ds.map_values(
        |d: DeltaView|
            if d.delta > 0 && valid_utf8(d.path) {
                f(
                    SourceView {
                        path: decode_utf8(d.path),
                        delta: d.delta as int,
                        label: label_of(decode_utf8(d.path)),
                    },
                )
            } else {
                0
            },
    ));
}

/// A source stands for a directory that grew.
proof fn lemma_source(ds: Seq<DeltaView>, top: int, i: int) -> (j: int)
    requires
        ds.len() <= usize::MAX,
        0 <= top,
        0 <= i < grown(ds, top).len(),
    ensures
        0 <= j < ds.len(),
        ds[j].delta > 0,
        valid_utf8(ds[j].path),
        grown(ds, top)[i].path == decode_utf8(ds[j].path),
        grown(ds, top)[i].delta == ds[j].delta,
        grown(ds, top)[i].label == label_of(decode_utf8(ds[j].path)),
{
    let pred = |d: DeltaView| d.delta > 0;
    let grew = ds.filter(pred);
    ds.lemma_filter_len(pred);
    law_order_exists(growth_keys(grew));
    let o = order_of(growth_keys(grew));
    let ranked = by_growth(grew, 3 * top);
    let k = lemma_shown_from(ranked, i);
    assert(ranked[k] == grew[o[k] as int]);
    ds.lemma_filter_pred(pred, o[k] as int);
    ds.lemma_filter_contains_rev(pred, grew[o[k] as int]);
    choose|j: int| 0 <= j < ds.len() && ds[j] == grew[o[k] as int]
}

proof fn lemma_shown_from(ds: Seq<DeltaView>, i: int) -> (k: int)
    requires
        0 <= i < shown(ds).len(),
    ensures
        0 <= k < ds.len(),
        valid_utf8(ds[k].path),
        shown(ds)[i] == (EntryView {
            path: decode_utf8(ds[k].path),
            bytes_a: ds[k].bytes_a,
            bytes_b: ds[k].bytes_b,
            delta: ds[k].delta,
        }),
    decreases ds.len(),
{
    let part = ds.drop_last();
    if i < shown(part).len() {
        lemma_shown_from(part, i)
    } else {
        ds.len() - 1
    }
}

proof fn lemma_shown_to(ds: Seq<DeltaView>, k: int) -> (i: int)
    requires
        0 <= k < ds.len(),
        valid_utf8(ds[k].path),
    ensures
        0 <= i < shown(ds).len(),
        shown(ds)[i] == (EntryView {
            path: decode_utf8(ds[k].path),
            bytes_a: ds[k].bytes_a,
            bytes_b: ds[k].bytes_b,
            delta: ds[k].delta,
        }),
    decreases ds.len(),
{
    let part = ds.drop_last();
    if k < part.len() {
        lemma_shown_to(part, k)
    } else {
        shown(ds).len() - 1
    }
}

/// A path has the label of the first pattern that stands in it, and none where no pattern
/// does; one with `node_modules` in it is always one of npm packages.
pub proof fn law_first_pattern(path: Seq<char>, k: int)
    requires
        0 <= k < growth_patterns().len(),
    ensures
        holds_text(path, growth_patterns()[k].0) && (forall|j: int|
            0 <= j < k ==> !holds_text(path, #[trigger] growth_patterns()[j].0)) ==> label_of(path) == Some(
            growth_patterns()[k].1,
        ),
        (forall|j: int| 0 <= j < growth_patterns().len() ==> !holds_text(path, #[trigger] growth_patterns()[j].0))
            <==> label_of(path) is None,
        holds_text(path, "node_modules"@) ==> label_of(path) == Some("npm packages"@),
{
    let ps = growth_patterns();
    lemma_label_in(ps, path, k);
    assert(ps[0] == ("node_modules"@, "npm packages"@));
}

proof fn lemma_label_in(ps: Seq<(Seq<char>, Seq<char>)>, path: Seq<char>, k: int)
    requires
        0 <= k < ps.len(),
    ensures
        holds_text(path, ps[k].0) && (forall|j: int| 0 <= j < k ==> !holds_text(path, #[trigger] ps[j].0)) ==> label_in(
            ps,
            path,
        ) == Some(ps[k].1),
        (forall|j: int| 0 <= j < ps.len() ==> !holds_text(path, #[trigger] ps[j].0)) <==> label_in(ps, path) is None,
    decreases ps.len(),
{
    let rest = ps.skip(1);
    if rest.len() > 0 {
        let m = if k > 0 {
            k - 1
        } else {
            0
        };
        lemma_label_in(rest, path, m);
    } else {
        assert(label_in(rest, path) is None);
    }
    assert forall|j: int| 0 < j < ps.len() implies #[trigger] ps[j] == rest[j - 1] by {}
    if label_in(ps, path) is None {
        assert forall|j: int| 0 <= j < ps.len() implies !holds_text(path, #[trigger] ps[j].0) by {
            if j > 0 {
                assert(!holds_text(path, rest[j - 1].0));
            }
        }
    }
    if forall|j: int| 0 <= j < ps.len() ==> !holds_text(path, #[trigger] ps[j].0) {
        assert(!holds_text(path, ps[0].0));
        assert forall|j: int| 0 <= j < rest.len() implies !holds_text(path, #[trigger] rest[j].0) by {
            assert(!holds_text(path, ps[j + 1].0));
        }
    }
    if k > 0 && holds_text(path, ps[k].0) && (forall|j: int| 0 <= j < k ==> !holds_text(path, #[trigger] ps[j].0)) {
        assert(!holds_text(path, ps[0].0));
        assert forall|j: int| 0 <= j < k - 1 implies !holds_text(path, #[trigger] rest[j].0) by {
            assert(!holds_text(path, ps[j + 1].0));
        }
    }
}

/// One for each change that is large enough.
pub open spec fn large_ones(ds: Seq<DeltaView>, min: int) -> Seq<int> {
    Seq::new(
        ds.len(),
        |i: int|
            if ds[i].delta >= min || -ds[i].delta >= min {
                1
            } else {
                0
            },
    )
}

/// Where at most twice as many changes are large enough as are asked for, each of those is
/// among the entries, unless that many others are which are not smaller.
pub proof fn law_large_changes_shown(ds: Seq<DeltaView>, top: nat, min: int, entries: Seq<DiffEntry>, i: int)
    requires
        entry_views(entries) == largest_of(ds, top as int, min),
        ds.len() <= usize::MAX,
        total(large_ones(ds, min)) <= 2 * top,
        0 <= i < ds.len(),
        ds[i].delta >= min || -ds[i].delta >= min,
        valid_utf8(ds[i].path),
    ensures
        (exists|k: int|
            0 <= k < entries.len() && (#[trigger] entries[k]).path@ == decode_utf8(ds[i].path) && entries[k].bytes_a
                == ds[i].bytes_a && entries[k].bytes_b == ds[i].bytes_b && entries[k].delta_bytes == ds[i].delta) || (
        entries.len() == top && forall|k: int|
            0 <= k < entries.len() ==> {
                ||| (#[trigger] entries[k]).delta_bytes >= ds[i].delta && entries[k].delta_bytes >= -ds[i].delta
                ||| -entries[k].delta_bytes >= ds[i].delta && -entries[k].delta_bytes >= -ds[i].delta
            }),
{
    let pred = |d: DeltaView| size_of(d.delta as int) >= min;
    let large = ds.filter(pred);
    ds.lemma_filter_len(pred);
    let one = |d: DeltaView| 1int;
    lemma_total_filtered(ds, pred, one);
    lemma_total_ones(large.map_values(one));
    assert(large_ones(ds, min) =~= ds.map_values(
        |x: DeltaView|
            if pred(x) {
                one(x)
            } else {
                0
            },
    ));
    law_order_exists(growth_keys(large));
    let o = order_of(growth_keys(large));
    let ranked = by_growth(large, 2 * (top as int));
    assert(ranked =~= arranged(large, growth_keys(large)));
    assert(pred(ds[i]));
    ds.lemma_filter_contains(pred, i);
    let m = choose|m: int| 0 <= m < large.len() && large[m] == ds[i];
    assert(o.contains(m as usize));
    let p = choose|p: int| 0 <= p < o.len() && o[p] == m as usize;
    assert(ranked[p] == ds[i]);
    let seen = shown(ranked);
    crate::size_diff::lemma_shown_len(ranked);
    let q = lemma_shown_to(ranked, p);
    let keys = change_keys(seen);
    law_order_exists(keys);
    let w = order_of(keys);
    assert(w.contains(q as usize));
    let at = choose|at: int| 0 <= at < w.len() && w[at] == q as usize;
    let views = entry_views(entries);
    let all = arranged(seen, keys);
    assert(all[at] == seen[q]);
    assert(entries.len() == views.len());
    if at < entries.len() {
        assert(views[at] == entry_view(entries[at]));
        assert(views[at] == all[at]);
        assert(entries[at].path@ == decode_utf8(ds[i].path));
    } else {
        assert forall|k: int| 0 <= k < entries.len() implies ({
            ||| (#[trigger] entries[k]).delta_bytes >= ds[i].delta && entries[k].delta_bytes >= -ds[i].delta
            ||| -entries[k].delta_bytes >= ds[i].delta && -entries[k].delta_bytes >= -ds[i].delta
        }) by {
            assert(views[k] == entry_view(entries[k]));
            assert(views[k] == all[k]);
            assert(before(keys, w[k] as int, w[at] as int));
        }
    }
}

/// The bytes of the rows of a snapshot with a path.
pub open spec fn bytes_with(rows: Seq<DirRow>, path: Seq<u8>) -> Seq<int> {
    Seq::new(
        rows.len(),
        |i: int|
            if rows[i].path@ == path {
                rows[i].total_bytes as int
            } else {
                0
            },
    )
}

proof fn lemma_bytes_with(rows: Seq<DirRow>, path: Seq<u8>)
    ensures
        sum_at(rows, path) == total(bytes_with(rows, path)),
    decreases rows.len(),
{
    if rows.len() > 0 {
        lemma_bytes_with(rows.drop_last(), path);
        assert(bytes_with(rows, path).drop_last() =~= bytes_with(rows.drop_last(), path));
    }
}

/// A path is listed as changed between two snapshots exactly if its bytes differ. It is
/// listed with what it has in each of them where it has a row there.
pub proof fn law_path_compared(a: Seq<DirRow>, b: Seq<DirRow>, path: Seq<u8>)
    requires
        sizes_fit(a, b),
    ensures
        total(bytes_with(a, path)) != total(bytes_with(b, path)) <==> exists|k: int|
            0 <= k < deltas(a, b).len() && (#[trigger] deltas(a, b)[k]).path == path,
        forall|k: int|
            0 <= k < deltas(a, b).len() && (#[trigger] deltas(a, b)[k]).path == path ==> {
                let d = deltas(a, b)[k];
                &&& d.delta == total(bytes_with(b, path)) - total(bytes_with(a, path))
                &&& d.bytes_a is Some <==> exists|i: int| 0 <= i < a.len() && (#[trigger] a[i]).path@ == path
                &&& d.bytes_b is Some <==> exists|i: int| 0 <= i < b.len() && (#[trigger] b[i]).path@ == path
                &&& d.bytes_a is Some ==> d.bytes_a->0 == total(bytes_with(a, path))
                &&& d.bytes_b is Some ==> d.bytes_b->0 == total(bytes_with(b, path))
            },
{
    lemma_bytes_with(a, path);
    lemma_bytes_with(b, path);
    assert(i64::MIN <= sum_at(a, path) <= i64::MAX);
    assert(i64::MIN <= sum_at(b, path) <= i64::MAX);
    let paths = all_paths(a, b);
    let all = paths.map_values(|p: Seq<u8>| delta_at(a, b, p));
    let pred = |d: DeltaView| d.delta != 0;
    let left = all.filter(pred);
    assert(left == deltas(a, b));
    assert forall|k: int| 0 <= k < left.len() && (#[trigger] left[k]).path == path implies left[k] == delta_at(a, b, path)
        && left[k].delta != 0 by {
        all.lemma_filter_pred(pred, k);
        assert(pred(left[k]));
        all.lemma_filter_contains_rev(pred, left[k]);
        let j = choose|j: int| 0 <= j < all.len() && all[j] == left[k];
        assert(left[k] == delta_at(a, b, paths[j]));
    }
    if sum_at(a, path) != sum_at(b, path) {
        crate::size_diff::lemma_with_paths(Seq::empty(), a);
        crate::size_diff::lemma_with_paths(with_paths(Seq::empty(), a), b);
        if has_path(a, path) {
            let i = choose|i: int| 0 <= i < a.len() && (#[trigger] a[i]).path@ == path;
            assert(with_paths(Seq::empty(), a).contains(a[i].path@));
            assert(paths.contains(path));
        } else if has_path(b, path) {
            let i = choose|i: int| 0 <= i < b.len() && (#[trigger] b[i]).path@ == path;
            assert(paths.contains(b[i].path@));
        } else {
            crate::size_diff::lemma_no_path(a, path);
            crate::size_diff::lemma_no_path(b, path);
        }
        let j = choose|j: int| 0 <= j < paths.len() && paths[j] == path;
        assert(all[j] == delta_at(a, b, path));
        assert(pred(all[j]));
        all.lemma_filter_contains(pred, j);
        let k = choose|k: int| 0 <= k < left.len() && left[k] == all[j];
        assert(left[k].path == path);
    }
}

/// An entry of a comparison is one of the changes, with its path, its two sizes and its
/// difference, and that is large enough.
pub proof fn law_entry_is_change(ds: Seq<DeltaView>, top: nat, min: int, entries: Seq<DiffEntry>, k: int)
    requires
        entry_views(entries) == largest_of(ds, top as int, min),
        ds.len() <= usize::MAX,
        0 <= k < entries.len(),
    ensures
        entries.len() <= top,
        exists|i: int|
            0 <= i < ds.len() && valid_utf8((#[trigger] ds[i]).path) && entries[k].path@ == decode_utf8(ds[i].path)
                && entries[k].bytes_a == ds[i].bytes_a && entries[k].bytes_b == ds[i].bytes_b && entries[k].delta_bytes
                == ds[i].delta && (ds[i].delta >= min || -ds[i].delta >= min),
{
    let pred = |d: DeltaView| size_of(d.delta as int) >= min;
    let large = ds.filter(pred);
    ds.lemma_filter_len(pred);
    law_order_exists(growth_keys(large));
    let o = order_of(growth_keys(large));
    let ranked = by_growth(large, 2 * (top as int));
    let seen = shown(ranked);
    crate::size_diff::lemma_shown_len(ranked);
    let keys = change_keys(seen);
    law_order_exists(keys);
    let w = order_of(keys);
    let views = entry_views(entries);
    assert(entries.len() == views.len());
    assert(views[k] == arranged(seen, keys)[k]);
    assert(views[k] == entry_view(entries[k]));
    assert(w[k] < seen.len());
    let m = lemma_shown_from(ranked, w[k] as int);
    assert(ranked[m] == large[o[m] as int]);
    ds.lemma_filter_pred(pred, o[m] as int);
    ds.lemma_filter_contains_rev(pred, large[o[m] as int]);
    let i = choose|i: int| 0 <= i < ds.len() && ds[i] == large[o[m] as int];
    assert(ds[i] == ranked[m]);
}

/// A source is one directory that grew, under its label; without a label it shows what that
/// directory grew by.
pub proof fn law_source_is_directory(ds: Seq<DeltaView>, top: nat, r: Seq<ExplainEntry>, k: int)
    requires
        source_views(r) == explained(ds, top as int),
        ds.len() <= usize::MAX,
        0 <= k < r.len(),
    ensures
        r.len() <= top,
        exists|i: int|
            0 <= i < ds.len() && (#[trigger] ds[i]).delta > 0 && valid_utf8(ds[i].path) && r[k].path@ == decode_utf8(
                ds[i].path,
            ) && opt_text(r[k].label) == label_of(decode_utf8(ds[i].path)) && (r[k].label is None ==> r[k].delta_bytes
                == ds[i].delta),
{
    let sources = grown(ds, top as int);
    let c = collapsed(sources);
    let keys = source_keys(c);
    lemma_few_sources(ds, top as int);
    law_order_exists(keys);
    let o = order_of(keys);
    let views = source_views(r);
    assert(views.len() == r.len());
    assert(keys.len() == c.len());
    assert(arranged(c, keys).len() == o.len());
    assert(views[k] == arranged(c, keys)[k]);
    assert(o[k] < c.len());
    assert(views[k] == c[o[k] as int]);
    let j = lemma_collapsed_from(sources, o[k] as int);
    let i = lemma_source(ds, top as int, j);
    assert(ds[i].delta > 0);
}

/// What was taken together has the path and the label of a source.
proof fn lemma_collapsed_from(sources: Seq<SourceView>, k: int) -> (j: int)
    requires
        0 <= k < collapsed(sources).len(),
    ensures
        0 <= j < sources.len(),
        collapsed(sources)[k].path == sources[j].path,
        collapsed(sources)[k].label == sources[j].label,
        collapsed(sources)[k].label is None ==> collapsed(sources)[k].delta == sources[j].delta,
    decreases sources.len(),
{
    let part = sources.drop_last();
    let e = sources.last();
    let c = collapsed(part);
    if e.label is Some {
        crate::explain::lemma_place(c, e.label->0);
    }
    if k < c.len() {
        lemma_collapsed_from(part, k)
    } else {
        sources.len() - 1
    }
}

/// Where at most three times as many directories grew as sources are asked for, a label under
/// which a directory grew is among the sources, unless that many others are which grew by as
/// much at least.
pub proof fn law_label_shown(ds: Seq<DeltaView>, top: nat, r: Seq<ExplainEntry>, i: int, label: Seq<char>)
    requires
        source_views(r) == explained(ds, top as int),
        ds.len() <= usize::MAX,
        total(grew_ones(ds)) <= 3 * top,
        0 <= i < ds.len(),
        ds[i].delta > 0,
        valid_utf8(ds[i].path),
        label_of(decode_utf8(ds[i].path)) == Some(label),
    ensures
        (exists|k: int| 0 <= k < r.len() && opt_text((#[trigger] r[k]).label) == Some(label)) || r.len() == top && forall|
            k: int,
        |
            0 <= k < r.len() ==> (#[trigger] r[k]).delta_bytes >= total(grew_with(ds, label)),
{
    let sources = grown(ds, top as int);
    let c = collapsed(sources);
    let keys = source_keys(c);
    lemma_few_sources(ds, top as int);
    lemma_collapsed_labels(sources);
    let j = lemma_source_of(ds, top as int, i);
    assert(sources[j].label == Some(label));
    assert(label_list(sources).contains(label));
    let m = choose|m: int| 0 <= m < c.len() && (#[trigger] c[m]).label == Some(label);
    lemma_collapsed_sum(sources, m);
    lemma_label_total(ds, top as int, label);
    law_order_exists(keys);
    let o = order_of(keys);
    let all = arranged(c, keys);
    let views = source_views(r);
    assert(views.len() == r.len());
    assert(keys.len() == c.len());
    assert(o.contains(m as usize));
    let at = choose|at: int| 0 <= at < o.len() && o[at] == m as usize;
    assert(all[at] == c[m]);
    if at < r.len() {
        assert(views[at] == all[at]);
        assert(opt_text(r[at].label) == Some(label));
    } else {
        lemma_keys_exact(ds, top as int);
        assert forall|k: int| 0 <= k < r.len() implies (#[trigger] r[k]).delta_bytes >= total(grew_with(ds, label)) by {
            assert(views[k] == all[k]);
            assert(all[k] == c[o[k] as int]);
            assert(views[k].delta == r[k].delta_bytes);
            assert(before(keys, o[k] as int, o[at] as int));
            assert(keys[o[k] as int] == -c[o[k] as int].delta);
            assert(keys[m] == -c[m].delta);
        }
    }
}

/// No sum over the sources is too large for its key.
proof fn lemma_keys_exact(ds: Seq<DeltaView>, top: int)
    requires
        ds.len() <= usize::MAX,
        0 <= top,
    ensures
        forall|m: int|
            0 <= m < collapsed(grown(ds, top)).len() ==> #[trigger] source_keys(collapsed(grown(ds, top)))[m]
                == -collapsed(grown(ds, top))[m].delta,
{
    let sources = grown(ds, top);
    let c = collapsed(sources);
    lemma_few_sources(ds, top);
    assert forall|i: int| 0 <= i < sources.len() implies 0 <= (#[trigger] sources[i]).delta <= i64::MAX by {
        let j = lemma_source(ds, top, i);
    }
    assert forall|m: int| 0 <= m < c.len() implies #[trigger] source_keys(c)[m] == -c[m].delta by {
        lemma_collapsed_bound(sources, m);
        assert(c[m].delta <= i64::MAX * usize::MAX) by (nonlinear_arith)
            requires
                c[m].delta <= i64::MAX * sources.len(),
                sources.len() <= usize::MAX,
        ;
    }
}

proof fn lemma_collapsed_bound(sources: Seq<SourceView>, m: int)
    requires
        0 <= m < collapsed(sources).len(),
        forall|i: int| 0 <= i < sources.len() ==> 0 <= (#[trigger] sources[i]).delta <= i64::MAX,
    ensures
        0 <= collapsed(sources)[m].delta <= i64::MAX * sources.len(),
    decreases sources.len(),
{
    let part = sources.drop_last();
    let e = sources.last();
    let c = collapsed(part);
    assert forall|i: int| 0 <= i < part.len() implies 0 <= (#[trigger] part[i]).delta <= i64::MAX by {
        assert(part[i] == sources[i]);
    }
    assert(0 <= sources[sources.len() - 1].delta <= i64::MAX);
    if e.label is Some {
        crate::explain::lemma_place(c, e.label->0);
    }
    if m < c.len() {
        lemma_collapsed_bound(part, m);
    }
    assert(i64::MAX * sources.len() == i64::MAX * part.len() + i64::MAX) by (nonlinear_arith)
        requires
            sources.len() == part.len() + 1,
    ;
    assert(0 <= i64::MAX * part.len()) by (nonlinear_arith);
}

/// The sum over the sources with a label is that over the directories.
proof fn lemma_label_total(ds: Seq<DeltaView>, top: int, l: Seq<char>)
    requires
        ds.len() <= usize::MAX,
        total(grew_ones(ds)) <= 3 * top,
    ensures
        total(labelled(grown(ds, top), l)) == total(grew_with(ds, l)),
{
    let sources = grown(ds, top);
    let f = |e: SourceView|
        if e.label == Some(l) {
            e.delta
        } else {
            0
        };
    lemma_grown_total(ds, top, f);
    assert(labelled(sources, l) =~= sources.map_values(f));
    assert(grew_with(ds, l) =~= ds.map_values(
        |d: DeltaView|
            if d.delta > 0 && valid_utf8(d.path) {
                f(
                    SourceView {
                        path: decode_utf8(d.path),
                        delta: d.delta as int,
                        label: label_of(decode_utf8(d.path)),
                    },
                )
            } else {
                0
            },
    ));
}

/// Where few enough directories grew, each of them is a source.
proof fn lemma_source_of(ds: Seq<DeltaView>, top: int, i: int) -> (j: int)
    requires
        ds.len() <= usize::MAX,
        total(grew_ones(ds)) <= 3 * top,
        0 <= i < ds.len(),
        ds[i].delta > 0,
        valid_utf8(ds[i].path),
    ensures
        0 <= j < grown(ds, top).len(),
        grown(ds, top)[j].label == label_of(decode_utf8(ds[i].path)),
{
    let pred = |d: DeltaView| d.delta > 0;
    let grew = ds.filter(pred);
    ds.lemma_filter_len(pred);
    let one = |d: DeltaView| 1int;
    lemma_total_filtered(ds, pred, one);
    lemma_total_ones(grew.map_values(one));
    assert(grew_ones(ds) =~= ds.map_values(
        |x: DeltaView|
            if pred(x) {
                one(x)
            } else {
                0
            },
    ));
    law_order_exists(growth_keys(grew));
    let o = order_of(growth_keys(grew));
    let ranked = by_growth(grew, 3 * top);
    assert(ranked =~= arranged(grew, growth_keys(grew)));
    ds.lemma_filter_contains(pred, i);
    let m = choose|m: int| 0 <= m < grew.len() && grew[m] == ds[i];
    assert(o.contains(m as usize));
    let p = choose|p: int| 0 <= p < o.len() && o[p] == m as usize;
    assert(ranked[p] == ds[i]);
    lemma_shown_to(ranked, p)
}

/// None of the first `n` patterns stands in the path.
pub open spec fn holds_none_before(path: Seq<char>, n: int) -> bool {
    forall|j: int| 0 <= j < n ==> !holds_text(path, #[trigger] growth_patterns()[j].0)
}

/// Each part of a path has its label, unless one that is tried before stands in the path too.
pub proof fn law_labels(path: Seq<char>)
    ensures
        holds_text(path, "node_modules"@) && holds_none_before(path, 0) ==> label_of(path) == Some("npm packages"@),
        holds_text(path, ".cargo/registry"@) && holds_none_before(path, 1) ==> label_of(path) == Some("Rust crate cache"@),
        holds_text(path, ".cargo/git"@) && holds_none_before(path, 2) ==> label_of(path) == Some("Rust git crate cache"@),
        holds_text(path, "overlay2"@) && holds_none_before(path, 3) ==> label_of(path) == Some("Docker image layers"@),
        holds_text(path, "docker/volumes"@) && holds_none_before(path, 4) ==> label_of(path) == Some("Docker volumes"@),
        holds_text(path, ".ollama/models"@) && holds_none_before(path, 5) ==> label_of(path) == Some("Ollama models"@),
        holds_text(path, "huggingface"@) && holds_none_before(path, 6) ==> label_of(path) == Some("HuggingFace models"@),
        holds_text(path, ".cache/huggingface"@) && holds_none_before(path, 7) ==> label_of(path) == Some("HuggingFace model cache"@),
        holds_text(path, "Google/Chrome"@) && holds_none_before(path, 8) ==> label_of(path) == Some("Chrome cache"@),
        holds_text(path, ".cache/pip"@) && holds_none_before(path, 9) ==> label_of(path) == Some("Python pip cache"@),
        holds_text(path, "__pycache__"@) && holds_none_before(path, 10) ==> label_of(path) == Some("Python bytecode"@),
        holds_text(path, ".gradle"@) && holds_none_before(path, 11) ==> label_of(path) == Some("Gradle build cache"@),
        holds_text(path, "target/debug"@) && holds_none_before(path, 12) ==> label_of(path) == Some("Rust debug build artifacts"@),
        holds_text(path, "target/release"@) && holds_none_before(path, 13) ==> label_of(path) == Some("Rust release build artifacts"@),
        holds_text(path, ".npm"@) && holds_none_before(path, 14) ==> label_of(path) == Some("npm cache"@),
        holds_text(path, ".pnpm-store"@) && holds_none_before(path, 15) ==> label_of(path) == Some("pnpm package store"@),
        holds_text(path, "Library/Caches"@) && holds_none_before(path, 16) ==> label_of(path) == Some("macOS app caches"@),
        holds_text(path, "AppData/Local/Temp"@) && holds_none_before(path, 17) ==> label_of(path) == Some("Windows temp files"@),
        holds_text(path, "/tmp"@) && holds_none_before(path, 18) ==> label_of(path) == Some("Temporary files"@),
        holds_text(path, "Trash"@) && holds_none_before(path, 19) ==> label_of(path) == Some("Trash / Recycle Bin"@),
        holds_text(path, ".git/objects"@) && holds_none_before(path, 20) ==> label_of(path) == Some("Git object store"@),
        holds_text(path, "node_modules/.cache"@) && holds_none_before(path, 21) ==> label_of(path) == Some("Bundler cache"@),
        holds_text(path, ".yarn/cache"@) && holds_none_before(path, 22) ==> label_of(path) == Some("Yarn package cache"@),
        holds_text(path, "venv"@) && holds_none_before(path, 23) ==> label_of(path) == Some("Python virtual environment"@),
        holds_text(path, ".venv"@) && holds_none_before(path, 24) ==> label_of(path) == Some("Python virtual environment"@),
        holds_text(path, "site-packages"@) && holds_none_before(path, 25) ==> label_of(path) == Some("Python site packages"@),
        holds_text(path, "go/pkg/mod"@) && holds_none_before(path, 26) ==> label_of(path) == Some("Go module cache"@),
        holds_text(path, ".m2/repository"@) && holds_none_before(path, 27) ==> label_of(path) == Some("Maven package cache"@),
        holds_text(path, "vendor"@) && holds_none_before(path, 28) ==> label_of(path) == Some("Vendored dependencies"@),
{
    let ps = growth_patterns();
    assert(ps.len() == 29);
    assert(ps[0] == ("node_modules"@, "npm packages"@));
    lemma_label_in(ps, path, 0);
    assert(ps[1] == (".cargo/registry"@, "Rust crate cache"@));
    lemma_label_in(ps, path, 1);
    assert(ps[2] == (".cargo/git"@, "Rust git crate cache"@));
    lemma_label_in(ps, path, 2);
    assert(ps[3] == ("overlay2"@, "Docker image layers"@));
    lemma_label_in(ps, path, 3);
    assert(ps[4] == ("docker/volumes"@, "Docker volumes"@));
    lemma_label_in(ps, path, 4);
    assert(ps[5] == (".ollama/models"@, "Ollama models"@));
    lemma_label_in(ps, path, 5);
    assert(ps[6] == ("huggingface"@, "HuggingFace models"@));
    lemma_label_in(ps, path, 6);
    assert(ps[7] == (".cache/huggingface"@, "HuggingFace model cache"@));
    lemma_label_in(ps, path, 7);
    assert(ps[8] == ("Google/Chrome"@, "Chrome cache"@));
    lemma_label_in(ps, path, 8);
    assert(ps[9] == (".cache/pip"@, "Python pip cache"@));
    lemma_label_in(ps, path, 9);
    assert(ps[10] == ("__pycache__"@, "Python bytecode"@));
    lemma_label_in(ps, path, 10);
    assert(ps[11] == (".gradle"@, "Gradle build cache"@));
    lemma_label_in(ps, path, 11);
    assert(ps[12] == ("target/debug"@, "Rust debug build artifacts"@));
    lemma_label_in(ps, path, 12);
    assert(ps[13] == ("target/release"@, "Rust release build artifacts"@));
    lemma_label_in(ps, path, 13);
    assert(ps[14] == (".npm"@, "npm cache"@));
    lemma_label_in(ps, path, 14);
    assert(ps[15] == (".pnpm-store"@, "pnpm package store"@));
    lemma_label_in(ps, path, 15);
    assert(ps[16] == ("Library/Caches"@, "macOS app caches"@));
    lemma_label_in(ps, path, 16);
    assert(ps[17] == ("AppData/Local/Temp"@, "Windows temp files"@));
    lemma_label_in(ps, path, 17);
    assert(ps[18] == ("/tmp"@, "Temporary files"@));
    lemma_label_in(ps, path, 18);
    assert(ps[19] == ("Trash"@, "Trash / Recycle Bin"@));
    lemma_label_in(ps, path, 19);
    assert(ps[20] == (".git/objects"@, "Git object store"@));
    lemma_label_in(ps, path, 20);
    assert(ps[21] == ("node_modules/.cache"@, "Bundler cache"@));
    lemma_label_in(ps, path, 21);
    assert(ps[22] == (".yarn/cache"@, "Yarn package cache"@));
    lemma_label_in(ps, path, 22);
    assert(ps[23] == ("venv"@, "Python virtual environment"@));
    lemma_label_in(ps, path, 23);
    assert(ps[24] == (".venv"@, "Python virtual environment"@));
    lemma_label_in(ps, path, 24);
    assert(ps[25] == ("site-packages"@, "Python site packages"@));
    lemma_label_in(ps, path, 25);
    assert(ps[26] == ("go/pkg/mod"@, "Go module cache"@));
    lemma_label_in(ps, path, 26);
    assert(ps[27] == (".m2/repository"@, "Maven package cache"@));
    lemma_label_in(ps, path, 27);
    assert(ps[28] == ("vendor"@, "Vendored dependencies"@));
    lemma_label_in(ps, path, 28);
}

} // verus!
