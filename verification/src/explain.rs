//! What growth comes from.

use crate::history::at_most;
use crate::order::{
    before, is_stable_order, law_order_exists, lemma_order_distinct, order_of, stable_order,
};
use crate::size_diff::{
    arranged, by_growth, changed_dirs, delta_view, delta_views, deltas, entry_view, entry_views,
    growth_keys, lemma_shown, rank_by_growth, show, shown, sizes_fit, DeltaView, DiffEntry, EntryView, PathDelta,
};
use crate::store::DirRow;
use crate::sums::{lemma_total_push, lemma_total_update, total};
use crate::text::{contains, holds_text, opt_text, str_eq};
use vstd::prelude::*;

verus! {

/// What a part of a path says of its origin.
pub open spec fn growth_patterns() -> Seq<(Seq<char>, Seq<char>)> {
    seq![
        ("node_modules"@, "npm packages"@),
        (".cargo/registry"@, "Rust crate cache"@),
        (".cargo/git"@, "Rust git crate cache"@),
        ("overlay2"@, "Docker image layers"@),
        ("docker/volumes"@, "Docker volumes"@),
        (".ollama/models"@, "Ollama models"@),
        ("huggingface"@, "HuggingFace models"@),
        (".cache/huggingface"@, "HuggingFace model cache"@),
        ("Google/Chrome"@, "Chrome cache"@),
        (".cache/pip"@, "Python pip cache"@),
        ("__pycache__"@, "Python bytecode"@),
        (".gradle"@, "Gradle build cache"@),
        ("target/debug"@, "Rust debug build artifacts"@),
        ("target/release"@, "Rust release build artifacts"@),
        (".npm"@, "npm cache"@),
        (".pnpm-store"@, "pnpm package store"@),
        ("Library/Caches"@, "macOS app caches"@),
        ("AppData/Local/Temp"@, "Windows temp files"@),
        ("/tmp"@, "Temporary files"@),
        ("Trash"@, "Trash / Recycle Bin"@),
        (".git/objects"@, "Git object store"@),
        ("node_modules/.cache"@, "Bundler cache"@),
        (".yarn/cache"@, "Yarn package cache"@),
        ("venv"@, "Python virtual environment"@),
        (".venv"@, "Python virtual environment"@),
        ("site-packages"@, "Python site packages"@),
        ("go/pkg/mod"@, "Go module cache"@),
        (".m2/repository"@, "Maven package cache"@),
        ("vendor"@, "Vendored dependencies"@),
    ]
}

/// A pattern and its label.
pub struct Pattern {
    pub part: &'static str,
    pub label: &'static str,
}

/// The patterns as texts.
pub open spec fn pattern_views(ps: Seq<Pattern>) -> Seq<(Seq<char>, Seq<char>)> {
    ps.map_values(|p: Pattern| (p.part@, p.label@))
}

fn put_pattern(patterns: &mut Vec<Pattern>, part: &'static str, label: &'static str)
    ensures
        pattern_views(final(patterns)@) == pattern_views(old(patterns)@).push((part@, label@)),
{
    let ghost before = pattern_views(patterns@);
    patterns.push(Pattern { part, label });
    assert(pattern_views(patterns@) =~= before.push((part@, label@)));
}

/// The patterns, in the order in which they are tried.
pub fn pattern_table() -> (r: Vec<Pattern>)
    ensures
        pattern_views(r@) == growth_patterns(),
{
    let mut r: Vec<Pattern> = Vec::new();
    assert(pattern_views(r@) =~= Seq::<(Seq<char>, Seq<char>)>::empty());
    put_pattern(&mut r, "node_modules", "npm packages");
    put_pattern(&mut r, ".cargo/registry", "Rust crate cache");
    put_pattern(&mut r, ".cargo/git", "Rust git crate cache");
    put_pattern(&mut r, "overlay2", "Docker image layers");
    put_pattern(&mut r, "docker/volumes", "Docker volumes");
    put_pattern(&mut r, ".ollama/models", "Ollama models");
    put_pattern(&mut r, "huggingface", "HuggingFace models");
    put_pattern(&mut r, ".cache/huggingface", "HuggingFace model cache");
    put_pattern(&mut r, "Google/Chrome", "Chrome cache");
    put_pattern(&mut r, ".cache/pip", "Python pip cache");
    put_pattern(&mut r, "__pycache__", "Python bytecode");
    put_pattern(&mut r, ".gradle", "Gradle build cache");
    put_pattern(&mut r, "target/debug", "Rust debug build artifacts");
    put_pattern(&mut r, "target/release", "Rust release build artifacts");
    put_pattern(&mut r, ".npm", "npm cache");
    put_pattern(&mut r, ".pnpm-store", "pnpm package store");
    put_pattern(&mut r, "Library/Caches", "macOS app caches");
    put_pattern(&mut r, "AppData/Local/Temp", "Windows temp files");
    put_pattern(&mut r, "/tmp", "Temporary files");
    put_pattern(&mut r, "Trash", "Trash / Recycle Bin");
    put_pattern(&mut r, ".git/objects", "Git object store");
    put_pattern(&mut r, "node_modules/.cache", "Bundler cache");
    put_pattern(&mut r, ".yarn/cache", "Yarn package cache");
    put_pattern(&mut r, "venv", "Python virtual environment");
    put_pattern(&mut r, ".venv", "Python virtual environment");
    put_pattern(&mut r, "site-packages", "Python site packages");
    put_pattern(&mut r, "go/pkg/mod", "Go module cache");
    put_pattern(&mut r, ".m2/repository", "Maven package cache");
    put_pattern(&mut r, "vendor", "Vendored dependencies");
    assert(pattern_views(r@) =~= growth_patterns());
    r
}

/// The label of the first pattern that stands in a path.
pub open spec fn label_in(patterns: Seq<(Seq<char>, Seq<char>)>, path: Seq<char>) -> Option<Seq<char>>
    decreases patterns.len(),
{
    if patterns.len() == 0 {
        None
    } else if holds_text(path, patterns[0].0) {
        Some(patterns[0].1)
    } else {
        label_in(patterns.skip(1), path)
    }
}

/// Where the contents of a path come from.
pub open spec fn label_of(path: Seq<char>) -> Option<Seq<char>> {
    label_in(growth_patterns(), path)
}

/// Tells where the contents of a path come from.
pub fn attribute_path(path: &str) -> (r: Option<String>)
    ensures
        opt_text(r) == label_of(path@),
{
    let patterns = pattern_table();
    let ghost table = growth_patterns();
    let mut i: usize = 0;
    assert(table.skip(0) =~= table);
    while i < patterns.len()
        invariant
            table == growth_patterns(),
            pattern_views(patterns@) == table,
            i <= patterns@.len(),
            label_in(table.skip(i as int), path@) == label_in(table, path@),
        decreases patterns@.len() - i,
    {
        let p = &patterns[i];
        assert(table[i as int] == (p.part@, p.label@));
        assert(table.skip(i as int)[0] == table[i as int]);
        assert(table.skip(i as int).skip(1) =~= table.skip(i + 1));
        if contains(path, p.part) {
            return Some(p.label.to_owned());
        }
        i = i + 1;
    }
    None
}

/// A source of growth.
#[derive(Debug)]
pub struct ExplainEntry {
    pub path: String,
    pub delta_bytes: i64,
    pub label: Option<String>,
}

/// A source of growth.
pub struct SourceView {
    pub path: Seq<char>,
    pub delta: int,
    pub label: Option<Seq<char>>,
}

/// What an entry says.
pub open spec fn source_view(e: ExplainEntry) -> SourceView {
    SourceView { path: e.path@, delta: e.delta_bytes as int, label: opt_text(e.label) }
}

/// What entries say.
pub open spec fn source_views(es: Seq<ExplainEntry>) -> Seq<SourceView> {
    es.map_values(|e: ExplainEntry| source_view(e))
}

/// The first source with a label, if there is one.
pub open spec fn place_of(sources: Seq<SourceView>, label: Seq<char>) -> Option<int>
    decreases sources.len(),
{
    if sources.len() == 0 {
        None
    } else if place_of(sources.drop_last(), label) is Some {
        place_of(sources.drop_last(), label)
    } else if sources.last().label == Some(label) {
        Some(sources.len() - 1)
    } else {
        None
    }
}

/// The sources with one more: it is added to the one with its label, if it has a label
/// and there is one.
pub open spec fn with_source(sources: Seq<SourceView>, e: SourceView) -> Seq<SourceView> {
    match e.label {
        Some(l) => match place_of(sources, l) {
            Some(k) => sources.update(
                k,
                SourceView { path: sources[k].path, delta: sources[k].delta + e.delta, label: sources[k].label },
            ),
            None => sources.push(e),
        },
        None => sources.push(e),
    }
}

/// The sources, those with the same label taken together.
pub open spec fn collapsed(sources: Seq<SourceView>) -> Seq<SourceView>
    decreases sources.len(),
{
    if sources.len() == 0 {
        Seq::empty()
    } else {
        with_source(collapsed(sources.drop_last()), sources.last())
    }
}

/// The growth of each source.
pub open spec fn source_deltas(sources: Seq<SourceView>) -> Seq<int> {
    sources.map_values(|e: SourceView| e.delta)
}

pub(crate) proof fn lemma_place(sources: Seq<SourceView>, label: Seq<char>)
    ensures
        match place_of(sources, label) {
            Some(k) => 0 <= k < sources.len() && sources[k].label == Some(label) && forall|j: int|
                0 <= j < k ==> (#[trigger] sources[j]).label != Some(label),
            None => forall|j: int| 0 <= j < sources.len() ==> (#[trigger] sources[j]).label != Some(label),
        },
    decreases sources.len(),
{
    if sources.len() > 0 {
        let part = sources.drop_last();
        lemma_place(part, label);
        assert forall|j: int| 0 <= j < part.len() implies sources[j] == part[j] by {}
        match place_of(sources, label) {
            Some(k) => {
                assert forall|j: int| 0 <= j < k implies (#[trigger] sources[j]).label != Some(label) by {
                    assert(part[j].label != Some(label));
                }
            },
            None => {
                assert forall|j: int| 0 <= j < sources.len() implies (#[trigger] sources[j]).label != Some(label) by {
                    if j < part.len() {
                        assert(part[j].label != Some(label));
                    }
                }
            },
        }
    }
}

proof fn lemma_collapse_step(sources: Seq<SourceView>, e: SourceView)
    ensures
        total(source_deltas(with_source(sources, e))) == total(source_deltas(sources)) + e.delta,
        (e.delta >= 0 && forall|i: int| 0 <= i < sources.len() ==> (#[trigger] sources[i]).delta >= 0) ==> forall|i: int|
            0 <= i < with_source(sources, e).len() ==> (#[trigger] with_source(sources, e)[i]).delta >= 0,
{
    let r = with_source(sources, e);
    if e.label is Some {
        lemma_place(sources, e.label->0);
        match place_of(sources, e.label->0) {
            Some(k) => {
                assert(source_deltas(r) =~= source_deltas(sources).update(k, sources[k].delta + e.delta));
                lemma_total_update(source_deltas(sources), k, sources[k].delta + e.delta);
            },
            None => {
                assert(source_deltas(r) =~= source_deltas(sources).push(e.delta));
                lemma_total_push(source_deltas(sources), e.delta);
            },
        }
    } else {
        assert(source_deltas(r) =~= source_deltas(sources).push(e.delta));
        lemma_total_push(source_deltas(sources), e.delta);
    }
}

/// Taking sources together changes nothing of their growth as a whole.
pub proof fn law_collapse_keeps_growth(sources: Seq<SourceView>)
    ensures
        total(source_deltas(collapsed(sources))) == total(source_deltas(sources)),
        (forall|i: int| 0 <= i < sources.len() ==> (#[trigger] sources[i]).delta >= 0) ==> forall|i: int|
            0 <= i < collapsed(sources).len() ==> (#[trigger] collapsed(sources)[i]).delta >= 0,
    decreases sources.len(),
{
    if sources.len() == 0 {
        assert(source_deltas(sources) =~= Seq::<int>::empty());
        assert(source_deltas(collapsed(sources)) =~= Seq::<int>::empty());
    } else {
        let part = sources.drop_last();
        law_collapse_keeps_growth(part);
        lemma_collapse_step(collapsed(part), sources.last());
        assert(source_deltas(sources) =~= source_deltas(part).push(sources.last().delta));
        lemma_total_push(source_deltas(part), sources.last().delta);
        if forall|i: int| 0 <= i < sources.len() ==> (#[trigger] sources[i]).delta >= 0 {
            assert forall|i: int| 0 <= i < part.len() implies (#[trigger] part[i]).delta >= 0 by {
                assert(sources[i].delta >= 0);
            }
            assert(sources[sources.len() - 1].delta >= 0);
        }
    }
}

/// No label is left twice.
pub proof fn law_labels_once(sources: Seq<SourceView>, i: int, j: int)
    requires
        0 <= i < j < collapsed(sources).len(),
        collapsed(sources)[i].label is Some,
    ensures
        collapsed(sources)[i].label != collapsed(sources)[j].label,
    decreases sources.len(),
{
    let part = sources.drop_last();
    let before = collapsed(part);
    let e = sources.last();
    if e.label is Some {
        lemma_place(before, e.label->0);
    }
    if j < before.len() {
        law_labels_once(part, i, j);
    } else {
        assert(before[i].label == collapsed(sources)[i].label);
    }
}

fn find_label(list: &Vec<ExplainEntry>, label: &str) -> (r: Option<usize>)
    ensures
        match r {
            Some(k) => place_of(source_views(list@), label@) == Some(k as int) && k < list@.len(),
            None => place_of(source_views(list@), label@) is None,
        },
{
    let ghost all = source_views(list@);
    let mut i: usize = 0;
    while i < list.len()
        invariant
            all == source_views(list@),
            i <= list@.len(),
            forall|k: int| 0 <= k < i ==> (#[trigger] all[k]).label != Some(label@),
        decreases list@.len() - i,
    {
        assert(all[i as int] == source_view(list@[i as int]));
        if let Some(l) = &list[i].label {
            if str_eq(l.as_str(), label) {
                proof {
                    lemma_place(all, label@);
                    let p = place_of(all, label@);
                    assert(all[i as int].label == Some(label@));
                    assert(p is Some);
                    assert(!(p->0 < i)) by {
                        if p->0 < i {
                            assert(all[p->0].label != Some(label@));
                        }
                    }
                    assert(!(i < p->0));
                }
                return Some(i);
            }
        }
        i = i + 1;
    }
    proof {
        lemma_place(all, label@);
    }
    None
}

/// The growth of every source can be held, however many sources were taken together.
pub open spec fn sources_fit(sources: Seq<SourceView>) -> bool {
    forall|n: int, k: int|
        0 <= n <= sources.len() && 0 <= k < collapsed(sources.take(n)).len() ==> i64::MIN <= (
        #[trigger] collapsed(sources.take(n))[k]).delta <= i64::MAX
}

/// Takes the sources with the same label together, if the growth of each can be held.
pub fn collapse(entries: &Vec<ExplainEntry>) -> (r: Option<Vec<ExplainEntry>>)
    ensures
        match r {
            Some(r) => sources_fit(source_views(entries@)) && source_views(r@) == collapsed(source_views(entries@)),
            None => !sources_fit(source_views(entries@)),
        },
{
    let ghost all = source_views(entries@);
    let mut r: Vec<ExplainEntry> = Vec::new();
    let mut i: usize = 0;
    proof {
        assert(all.take(0) =~= Seq::<SourceView>::empty());
        assert(source_views(r@) =~= Seq::<SourceView>::empty());
    }
    while i < entries.len()
        invariant
            all == source_views(entries@),
            i <= entries@.len(),
            source_views(r@) == collapsed(all.take(i as int)),
            forall|n: int, k: int|
                0 <= n <= i && 0 <= k < collapsed(all.take(n)).len() ==> i64::MIN <= (
                #[trigger] collapsed(all.take(n))[k]).delta <= i64::MAX,
        decreases entries@.len() - i,
    {
        let e = &entries[i];
        let ghost before = source_views(r@);
        let ghost v = source_view(*e);
        let ghost after = collapsed(all.take(i + 1));
        proof {
            assert(all.take(i + 1).drop_last() =~= all.take(i as int));
            assert(all.take(i + 1).last() == v);
        }
        let place = match &e.label {
            Some(l) => find_label(&r, l.as_str()),
            None => None,
        };
        match place {
            Some(k) => {
                proof {
                    assert(before[k as int] == source_view(r@[k as int]));
                    assert(after == with_source(before, v));
                }
                let grown: i128 = r[k].delta_bytes as i128 + e.delta_bytes as i128;
                if grown < i64::MIN as i128 || grown > i64::MAX as i128 {
                    assert(collapsed(all.take(i + 1))[k as int].delta == grown);
                    return None;
                }
                let merged = ExplainEntry {
                    path: r[k].path.clone(),
                    delta_bytes: grown as i64,
                    label: match &r[k].label {
                        Some(l) => Some(l.clone()),
                        None => None,
                    },
                };
                let ghost m = source_view(merged);
                r.set(k, merged);
                assert(source_views(r@) =~= before.update(k as int, m));
            },
            None => {
                r.push(copy_source(e));
                assert(source_views(r@) =~= before.push(v));
            },
        }
        proof {
            assert(source_views(r@) == after);
            assert forall|n: int, k: int|
                0 <= n <= i + 1 && 0 <= k < collapsed(all.take(n)).len() implies i64::MIN <= (
            #[trigger] collapsed(all.take(n))[k]).delta <= i64::MAX by {
                if n == i + 1 {
                    assert(source_views(r@)[k] == source_view(r@[k]));
                }
            }
        }
        i = i + 1;
    }
    assert(all.take(i as int) =~= all);
    Some(r)
}

fn copy_source(e: &ExplainEntry) -> (r: ExplainEntry)
    ensures
        source_view(r) == source_view(*e),
{
    ExplainEntry {
        path: e.path.clone(),
        delta_bytes: e.delta_bytes,
        label: match &e.label {
            Some(l) => Some(l.clone()),
            None => None,
        },
    }
}

/// The source that an entry of a comparison stands for.
pub open spec fn source_of(e: EntryView) -> SourceView {
    SourceView { path: e.path, delta: e.delta as int, label: label_of(e.path) }
}

/// The sources of growth before they are taken together: three times as many as asked
/// for.
pub open spec fn grown(ds: Seq<DeltaView>, top: int) -> Seq<SourceView> {
    shown(by_growth(ds.filter(|d: DeltaView| d.delta > 0), 3 * top)).map_values(|e: EntryView| source_of(e))
}

/// The keys that put the largest growth first.
pub open spec fn source_keys(sources: Seq<SourceView>) -> Seq<i128> {
    sources.map_values(|e: SourceView| (-e.delta) as i128)
}

/// The sources of growth, the largest first and up to `top` of them.
pub open spec fn explained(ds: Seq<DeltaView>, top: int) -> Seq<SourceView> {
    let sources = collapsed(grown(ds, top));
    at_most(arranged(sources, source_keys(sources)), top)
}

fn growing(ds: Vec<PathDelta>) -> (r: Vec<PathDelta>)
    ensures
        delta_views(r@) == delta_views(ds@).filter(|d: DeltaView| d.delta > 0),
{
    let ghost all = delta_views(ds@);
    let ghost pred = |d: DeltaView| d.delta > 0;
    let mut r: Vec<PathDelta> = Vec::new();
    let mut i: usize = 0;
    proof {
        reveal(Seq::filter);
        assert(all.take(0).filter(pred) =~= Seq::<DeltaView>::empty());
        assert(delta_views(r@) =~= Seq::<DeltaView>::empty());
    }
    while i < ds.len()
        invariant
            all == delta_views(ds@),
            pred == (|d: DeltaView| d.delta > 0),
            i <= ds@.len(),
            delta_views(r@) == all.take(i as int).filter(pred),
        decreases ds@.len() - i,
    {
        let ghost before = delta_views(r@);
        let d = &ds[i];
        proof {
            reveal(Seq::filter);
            assert(all.take(i + 1).drop_last() =~= all.take(i as int));
            assert(all.take(i + 1).last() == delta_view(*d));
        }
        if d.delta_bytes > 0 {
            r.push(
                PathDelta {
                    path: d.path.clone(),
                    bytes_a: d.bytes_a,
                    bytes_b: d.bytes_b,
                    delta_bytes: d.delta_bytes,
                },
            );
            assert(delta_views(r@) =~= before.push(delta_view(*d)));
        }
        i = i + 1;
    }
    assert(all.take(i as int) =~= all);
    r
}

fn label_all(es: &Vec<DiffEntry>) -> (r: Vec<ExplainEntry>)
    ensures
        source_views(r@) == entry_views(es@).map_values(|e: EntryView| source_of(e)),
{
    let mut r: Vec<ExplainEntry> = Vec::new();
    let mut i: usize = 0;
    while i < es.len()
        invariant
            i <= es@.len(),
            r@.len() == i,
            forall|k: int| 0 <= k < i ==> source_view(#[trigger] r@[k]) == source_of(entry_view(es@[k])),
        decreases es@.len() - i,
    {
        let e = &es[i];
        r.push(
            ExplainEntry {
                path: e.path.clone(),
                delta_bytes: e.delta_bytes,
                label: attribute_path(e.path.as_str()),
            },
        );
        i = i + 1;
    }
    assert(source_views(r@) =~= entry_views(es@).map_values(|e: EntryView| source_of(e)));
    r
}

fn largest_first(list: &Vec<ExplainEntry>) -> (r: Vec<ExplainEntry>)
    ensures
        source_views(r@) == arranged(source_views(list@), source_keys(source_views(list@))),
        forall|i: int, j: int|
            0 <= i < j < r@.len() ==> (#[trigger] r@[i]).delta_bytes >= (#[trigger] r@[j]).delta_bytes,
{
    let ghost all = source_views(list@);
    let n = list.len();
    let mut keys: Vec<i128> = Vec::new();
    let mut i: usize = 0;
    while i < n
        invariant
            n == list@.len(),
            i <= n,
            keys@.len() == i,
            forall|k: int| 0 <= k < i ==> #[trigger] keys@[k] == -list@[k].delta_bytes,
        decreases n - i,
    {
        keys.push(-(list[i].delta_bytes as i128));
        i = i + 1;
    }
    assert(keys@ =~= source_keys(all));
    let order = stable_order(&keys);
    let ghost want = arranged(all, keys@);
    let mut r: Vec<ExplainEntry> = Vec::new();
    let mut j: usize = 0;
    assert(want.len() == n);
    while j < n
        invariant
            n == list@.len(),
            all == source_views(list@),
            is_stable_order(keys@, order@),
            order@ == order_of(keys@),
            keys@.len() == n,
            want == arranged(all, keys@),
            want.len() == n,
            j <= n,
            r@.len() == j,
            forall|k: int| 0 <= k < j ==> source_view(#[trigger] r@[k]) == want[k],
        decreases n - j,
    {
        let at = order[j];
        assert(want[j as int] == all[at as int]);
        r.push(copy_source(&list[at]));
        j = j + 1;
    }
    assert(source_views(r@) =~= want);
    assert forall|i: int, j: int| 0 <= i < j < r@.len() implies (#[trigger] r@[i]).delta_bytes >= (
    #[trigger] r@[j]).delta_bytes by {
        assert(before(keys@, order@[i] as int, order@[j] as int));
        assert(source_view(r@[i]) == all[order@[i] as int]);
        assert(source_view(r@[j]) == all[order@[j] as int]);
        assert(all[order@[i] as int] == source_view(list@[order@[i] as int]));
        assert(all[order@[j] as int] == source_view(list@[order@[j] as int]));
    }
    r
}

proof fn lemma_collapsed_grow(sources: Seq<SourceView>)
    requires
        forall|i: int| 0 <= i < sources.len() ==> (#[trigger] sources[i]).delta > 0,
    ensures
        forall|i: int| 0 <= i < collapsed(sources).len() ==> (#[trigger] collapsed(sources)[i]).delta > 0,
    decreases sources.len(),
{
    if sources.len() > 0 {
        let part = sources.drop_last();
        assert forall|i: int| 0 <= i < part.len() implies (#[trigger] part[i]).delta > 0 by {
            assert(sources[i].delta > 0);
        }
        lemma_collapsed_grow(part);
        let e = sources.last();
        assert(sources[sources.len() - 1].delta > 0);
        if e.label is Some {
            lemma_place(collapsed(part), e.label->0);
        }
    }
}

proof fn lemma_grown(ds: Seq<DeltaView>, top: int)
    requires
        ds.len() <= usize::MAX,
        0 <= top,
    ensures
        forall|i: int| 0 <= i < grown(ds, top).len() ==> (#[trigger] grown(ds, top)[i]).delta > 0,
{
    let pred = |d: DeltaView| d.delta > 0;
    let grew = ds.filter(pred);
    ds.lemma_filter_len(pred);
    law_order_exists(growth_keys(grew));
    let o = order_of(growth_keys(grew));
    let ranked = by_growth(grew, 3 * top);
    assert forall|i: int| 0 <= i < grown(ds, top).len() implies (#[trigger] grown(ds, top)[i]).delta > 0 by {
        let k = lemma_shown(ranked, i);
        assert(ranked[k] == grew[o[k] as int]);
        ds.lemma_filter_pred(pred, o[k] as int);
    }
}

/// Every source has grown, and no label occurs twice.
pub open spec fn are_sources(r: Seq<ExplainEntry>) -> bool {
    &&& forall|i: int| 0 <= i < r.len() ==> (#[trigger] r[i]).delta_bytes > 0
    &&& forall|i: int, j: int|
        0 <= i < j < r.len() && r[i].label is Some ==> opt_text((#[trigger] r[i]).label) != opt_text(
            (#[trigger] r[j]).label,
        )
}

proof fn lemma_sources(ds: Seq<DeltaView>, top: int, r: Seq<ExplainEntry>)
    requires
        ds.len() <= usize::MAX,
        0 <= top,
        collapsed(grown(ds, top)).len() <= usize::MAX,
        source_views(r) == explained(ds, top),
    ensures
        are_sources(r),
{
    let sources = collapsed(grown(ds, top));
    let keys = source_keys(sources);
    law_order_exists(keys);
    let o = order_of(keys);
    lemma_order_distinct(keys, o);
    lemma_grown(ds, top);
    lemma_collapsed_grow(grown(ds, top));
    let views = source_views(r);
    assert(views.len() == r.len());
    assert(arranged(sources, keys).len() == o.len());
    assert(keys.len() == sources.len());
    assert forall|i: int| 0 <= i < r.len() implies 0 <= o[i] < sources.len() && source_view(#[trigger] r[i])
        == sources[o[i] as int] by {
        assert(views[i] == source_view(r[i]));
        assert(explained(ds, top)[i] == arranged(sources, keys)[i]);
    }
    assert forall|i: int, j: int| 0 <= i < j < r.len() && r[i].label is Some implies opt_text(
        (#[trigger] r[i]).label,
    ) != opt_text((#[trigger] r[j]).label) by {
        let (x, y) = (o[i] as int, o[j] as int);
        assert(source_view(r[i]) == sources[x] && source_view(r[j]) == sources[y]);
        assert(o[i] != o[j]);
        if opt_text(r[i].label) == opt_text(r[j].label) {
            if x < y {
                law_labels_once(grown(ds, top), x, y);
            } else {
                law_labels_once(grown(ds, top), y, x);
            }
        }
    }
}

/// Tells what the growth between two snapshots comes from, by the changes that were kept
/// of their comparison: the largest source first and up to `top` of them. There is no
/// answer where the growth of a source cannot be held.
pub fn explain_changes(changes: Vec<PathDelta>, top: usize) -> (r: Option<Vec<ExplainEntry>>)
    ensures
        match r {
            Some(r) => {
                &&& sources_fit(grown(delta_views(changes@), top as int))
                &&& source_views(r@) == explained(delta_views(changes@), top as int)
                &&& r@.len() <= top
                &&& forall|i: int, j: int|
                    0 <= i < j < r@.len() ==> (#[trigger] r@[i]).delta_bytes >= (#[trigger] r@[j]).delta_bytes
                &&& are_sources(r@)
            },
            None => !sources_fit(grown(delta_views(changes@), top as int)),
        },
{
    let ghost ds = delta_views(changes@);
    assert(ds.len() == changes.len());
    let grew = growing(changes);
    let ranked = rank_by_growth(&grew, top as u128 * 3);
    let seen = show(&ranked);
    let labelled = label_all(&seen);
    let taken = match collapse(&labelled) {
        Some(taken) => taken,
        None => {
            return None;
        },
    };
    assert(source_views(taken@).len() == taken.len());
    let mut r = largest_first(&taken);
    let ghost all = source_views(r@);
    if r.len() > top {
        r.truncate(top);
    }
    assert(source_views(r@) =~= at_most(all, top as int));
    proof {
        lemma_sources(ds, top as int, r@);
    }
    Some(r)
}

/// Tells what the growth between two snapshots comes from, the largest source first and
/// up to `top` of them.
pub fn query_explain(a: &Vec<DirRow>, b: &Vec<DirRow>, top: usize) -> (r: Vec<ExplainEntry>)
    requires
        sizes_fit(a@, b@),
        sources_fit(grown(deltas(a@, b@), top as int)),
    ensures
        source_views(r@) == explained(deltas(a@, b@), top as int),
        r@.len() <= top,
        forall|i: int, j: int|
            0 <= i < j < r@.len() ==> (#[trigger] r@[i]).delta_bytes >= (#[trigger] r@[j]).delta_bytes,
        are_sources(r@),
{
    match explain_changes(changed_dirs(a, b), top) {
        Some(r) => r,
        None => Vec::new(),
    }
}

} // verus!
