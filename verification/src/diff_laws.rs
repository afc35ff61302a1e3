//! What a comparison of a volume between two places in its log tells of a file.

use crate::ancestry::is_fact_path;
use crate::facts::FactTable;
use crate::mutation_filter::displayable;
use crate::order::{before, bytes_at_most, is_stable_order, law_order_exists, order_of};
use crate::snapshot_diff::{
    at_path, diff_view, is_diff, lemma_kinds, lowest_sequence, net_changes, path_keys, places, reduced, touched,
    under_filter, DiffFile, DiffView, LogRow,
};
use crate::sums::total;
use crate::text::opt_text;
use vstd::prelude::*;
use vstd::utf8::encode_utf8;

verus! {

/// The entry is one of a file in the interval.
pub open spec fn is_of(row: LogRow, id: u64, start: i64, end: i64) -> bool {
    row.file_id == id && start < row.sequence && row.sequence <= end
}

proof fn lemma_touched(log: Seq<LogRow>, start: i64, end: i64)
    ensures
        touched(log, start, end).no_duplicates(),
        forall|id: u64| #[trigger] touched(log, start, end).contains(id) <==> exists|i: int|
            0 <= i < log.len() && is_of(#[trigger] log[i], id, start, end),
        forall|id: u64| #[trigger] reduced(log, start, end).contains_key(id) ==> touched(log, start, end).contains(id)
            && reduced(log, start, end)[id].file_id == id,
    decreases log.len(),
{
    if log.len() > 0 {
        let part = log.drop_last();
        let n = log.len() - 1;
        lemma_touched(part, start, end);
        let a = touched(part, start, end);
        let b = touched(log, start, end);
        assert forall|id: u64| #[trigger] b.contains(id) <==> a.contains(id) || is_of(log[n], id, start, end) by {
            if a.contains(id) {
                let k = choose|k: int| 0 <= k < a.len() && a[k] == id;
                assert(b[k] == id);
            }
            if is_of(log[n], id, start, end) && !a.contains(id) {
                assert(b[a.len() as int] == id);
            }
        }
        assert forall|id: u64| #[trigger] b.contains(id) <==> exists|i: int|
            0 <= i < log.len() && is_of(#[trigger] log[i], id, start, end) by {
            if a.contains(id) {
                let i = choose|i: int| 0 <= i < part.len() && is_of(#[trigger] part[i], id, start, end);
                assert(log[i] == part[i]);
            }
            if exists|i: int| 0 <= i < log.len() && is_of(#[trigger] log[i], id, start, end) {
                let i = choose|i: int| 0 <= i < log.len() && is_of(#[trigger] log[i], id, start, end);
                if i < n {
                    assert(part[i] == log[i]);
                }
            }
        }
        assert forall|id: u64| #[trigger] reduced(log, start, end).contains_key(id) implies b.contains(id) && reduced(
            log,
            start,
            end,
        )[id].file_id == id by {
            if reduced(part, start, end).contains_key(id) {
                assert(a.contains(id));
            }
        }
    }
}

/// A net change is what the reduction holds of its file.
proof fn lemma_net(log: Seq<LogRow>, start: i64, end: i64)
    ensures
        forall|id: u64| #[trigger] reduced(log, start, end).contains_key(id) ==> net_changes(log, start, end).contains(
            reduced(log, start, end)[id],
        ),
        forall|k: int|
            0 <= k < net_changes(log, start, end).len() ==> {
                let f = #[trigger] net_changes(log, start, end)[k];
                reduced(log, start, end).contains_key(f.file_id) && reduced(log, start, end)[f.file_id] == f
            },
        forall|i: int, j: int|
            0 <= i < j < net_changes(log, start, end).len() ==> (#[trigger] net_changes(log, start, end)[i]).file_id
                != (#[trigger] net_changes(log, start, end)[j]).file_id,
{
    lemma_touched(log, start, end);
    let m = reduced(log, start, end);
    let ids = touched(log, start, end);
    let pred = |id: u64| m.contains_key(id);
    let kept = ids.filter(pred);
    let net = net_changes(log, start, end);
    assert forall|k: int| 0 <= k < net.len() implies ({
        let f = #[trigger] net[k];
        m.contains_key(f.file_id) && m[f.file_id] == f && f.file_id == kept[k]
    }) by {
        ids.lemma_filter_pred(pred, k);
        assert(m.contains_key(kept[k]));
    }
    assert forall|id: u64| #[trigger] m.contains_key(id) implies net.contains(m[id]) by {
        assert(ids.contains(id));
        let i = choose|i: int| 0 <= i < ids.len() && ids[i] == id;
        ids.lemma_filter_contains(pred, i);
        let k = choose|k: int| 0 <= k < kept.len() && kept[k] == id;
        assert(net[k] == m[id]);
    }
    lemma_filter_distinct(ids, pred);
    assert forall|i: int, j: int| 0 <= i < j < net.len() implies (#[trigger] net[i]).file_id != (
    #[trigger] net[j]).file_id by {
        assert(kept[i] != kept[j]);
    }
}

proof fn lemma_filter_distinct(s: Seq<u64>, pred: spec_fn(u64) -> bool)
    requires
        s.no_duplicates(),
    ensures
        s.filter(pred).no_duplicates(),
    decreases s.len(),
{
    reveal(Seq::filter);
    if s.len() > 0 {
        let part = s.drop_last();
        lemma_filter_distinct(part, pred);
        let a = part.filter(pred);
        if pred(s.last()) && a.contains(s.last()) {
            part.lemma_filter_contains_rev(pred, s.last());
            let i = choose|i: int| 0 <= i < part.len() && part[i] == s.last();
            assert(s[i] == s[s.len() - 1]);
        }
    }
}

/// The files without the last one of the net changes.
spec fn shown_before(table: FactTable, volume: Seq<char>, filter: Option<Seq<char>>, net: Seq<DiffView>, shown: Seq<DiffFile>) -> Seq<
    DiffFile,
> {
    if displayable(net.last().kind, net.last().size_delta) && shown.len() > 0 && diff_view(shown.last()) == net.last()
        && at_path(table, volume, net.last(), shown.last().path@) && under_filter(shown.last().path@, filter) && places(
        table,
        volume,
        filter,
        net.drop_last(),
        shown.drop_last(),
    ) {
        shown.drop_last()
    } else {
        shown
    }
}

/// Every file that is shown is a displayable one of the net changes, at its path.
proof fn lemma_shown_sound(
    table: FactTable,
    volume: Seq<char>,
    filter: Option<Seq<char>>,
    net: Seq<DiffView>,
    shown: Seq<DiffFile>,
    k: int,
)
    requires
        places(table, volume, filter, net, shown),
        0 <= k < shown.len(),
    ensures
        net.contains(diff_view(shown[k])),
        displayable(shown[k].kind@, shown[k].size_delta as int),
        at_path(table, volume, diff_view(shown[k]), shown[k].path@),
        under_filter(shown[k].path@, filter),
    decreases net.len(),
{
    let part = net.drop_last();
    let m = net.len() - 1;
    let some = shown_before(table, volume, filter, net, shown);
    if k < some.len() {
        assert(some[k] == shown[k]);
        lemma_shown_sound(table, volume, filter, part, some, k);
        let v = diff_view(shown[k]);
        let i = choose|i: int| 0 <= i < part.len() && part[i] == v;
        assert(net[i] == v);
    } else {
        assert(net[m] == diff_view(shown[k]));
    }
}

/// Where nothing is filtered, every displayable file is shown.
proof fn lemma_shown_all(
    table: FactTable,
    volume: Seq<char>,
    net: Seq<DiffView>,
    shown: Seq<DiffFile>,
    i: int,
) -> (k: int)
    requires
        places(table, volume, None, net, shown),
        0 <= i < net.len(),
        displayable(net[i].kind, net[i].size_delta),
    ensures
        0 <= k < shown.len(),
        diff_view(shown[k]) == net[i],
    decreases net.len(),
{
    let part = net.drop_last();
    let some = shown_before(table, volume, None, net, shown);
    if i < part.len() {
        let k = lemma_shown_all(table, volume, part, some, i);
        assert(some[k] == shown[k]);
        k
    } else {
        shown.len() - 1
    }
}

/// No file is shown twice.
proof fn lemma_shown_once(
    table: FactTable,
    volume: Seq<char>,
    filter: Option<Seq<char>>,
    net: Seq<DiffView>,
    shown: Seq<DiffFile>,
    i: int,
    j: int,
)
    requires
        places(table, volume, filter, net, shown),
        forall|x: int, y: int| 0 <= x < y < net.len() ==> (#[trigger] net[x]).file_id != (#[trigger] net[y]).file_id,
        0 <= i < j < shown.len(),
    ensures
        shown[i].file_id != shown[j].file_id,
    decreases net.len(),
{
    let part = net.drop_last();
    let m = net.len() - 1;
    let some = shown_before(table, volume, filter, net, shown);
    assert forall|x: int, y: int| 0 <= x < y < part.len() implies (#[trigger] part[x]).file_id != (
    #[trigger] part[y]).file_id by {
        assert(net[x].file_id != net[y].file_id);
    }
    assert(some[i] == shown[i]);
    if j < some.len() {
        assert(some[j] == shown[j]);
        lemma_shown_once(table, volume, filter, part, some, i, j);
    } else {
        lemma_shown_sound(table, volume, filter, part, some, i);
        let v = diff_view(some[i]);
        let k = choose|k: int| 0 <= k < part.len() && part[k] == v;
        assert(net[k].file_id != net[m].file_id);
    }
}

/// Where nothing is filtered, exactly the displayable files are shown, each once.
proof fn lemma_places(table: FactTable, volume: Seq<char>, filter: Option<Seq<char>>, net: Seq<DiffView>, shown: Seq<DiffFile>)
    requires
        places(table, volume, filter, net, shown),
        forall|i: int, j: int| 0 <= i < j < net.len() ==> (#[trigger] net[i]).file_id != (#[trigger] net[j]).file_id,
    ensures
        forall|k: int|
            0 <= k < shown.len() ==> {
                let f = #[trigger] shown[k];
                &&& net.contains(diff_view(f))
                &&& displayable(f.kind@, f.size_delta as int)
                &&& at_path(table, volume, diff_view(f), f.path@)
                &&& under_filter(f.path@, filter)
            },
        filter is None ==> forall|i: int|
            0 <= i < net.len() && displayable((#[trigger] net[i]).kind, net[i].size_delta) ==> exists|k: int|
                0 <= k < shown.len() && diff_view(#[trigger] shown[k]) == net[i],
        forall|i: int, j: int|
            0 <= i < j < shown.len() ==> (#[trigger] shown[i]).file_id != (#[trigger] shown[j]).file_id,
{
    assert forall|k: int| 0 <= k < shown.len() implies ({
        let f = #[trigger] shown[k];
        &&& net.contains(diff_view(f))
        &&& displayable(f.kind@, f.size_delta as int)
        &&& at_path(table, volume, diff_view(f), f.path@)
        &&& under_filter(f.path@, filter)
    }) by {
        lemma_shown_sound(table, volume, filter, net, shown, k);
    }
    if filter is None {
        assert forall|i: int|
            0 <= i < net.len() && displayable((#[trigger] net[i]).kind, net[i].size_delta) implies exists|k: int|
            0 <= k < shown.len() && diff_view(#[trigger] shown[k]) == net[i] by {
            let k = lemma_shown_all(table, volume, net, shown, i);
            assert(diff_view(shown[k]) == net[i]);
        }
    }
    assert forall|i: int, j: int| 0 <= i < j < shown.len() implies (#[trigger] shown[i]).file_id != (
    #[trigger] shown[j]).file_id by {
        lemma_shown_once(table, volume, filter, net, shown, i, j);
    }
}

/// What a comparison shows: files of the reduction, each once and by path, and all of
/// them where nothing is filtered.
proof fn lemma_diff(
    log: Seq<LogRow>,
    table: FactTable,
    volume: Seq<char>,
    start: i64,
    end: i64,
    filter: Option<Seq<char>>,
    files: Seq<DiffFile>,
)
    requires
        is_diff(log, table, volume, start, end, filter, files),
        files.len() <= usize::MAX,
    ensures
        forall|k: int|
            0 <= k < files.len() ==> {
                let f = #[trigger] files[k];
                &&& reduced(log, start, end).contains_key(f.file_id)
                &&& reduced(log, start, end)[f.file_id] == diff_view(f)
                &&& displayable(f.kind@, f.size_delta as int)
                &&& at_path(table, volume, diff_view(f), f.path@)
                &&& under_filter(f.path@, filter)
            },
        forall|i: int, j: int|
            0 <= i < j < files.len() ==> (#[trigger] files[i]).file_id != (#[trigger] files[j]).file_id && bytes_at_most(
                encode_utf8(files[i].path@),
                encode_utf8(files[j].path@),
            ),
        filter is None ==> forall|id: u64| #[trigger]
            reduced(log, start, end).contains_key(id) && displayable(
                reduced(log, start, end)[id].kind,
                reduced(log, start, end)[id].size_delta,
            ) ==> exists|k: int|
                0 <= k < files.len() && diff_view(#[trigger] files[k]) == reduced(log, start, end)[id],
{
    let m = reduced(log, start, end);
    let net = net_changes(log, start, end);
    let shown = choose|shown: Seq<DiffFile>|
        {
            &&& #[trigger] places(table, volume, filter, net, shown)
            &&& files.len() == shown.len()
            &&& forall|k: int|
                0 <= k < files.len() ==> #[trigger] files[k] == shown[order_of(path_keys(shown))[k] as int]
        };
    let keys = path_keys(shown);
    lemma_net(log, start, end);
    lemma_places(table, volume, filter, net, shown);
    law_order_exists(keys);
    let o = order_of(keys);
    crate::order::lemma_order_distinct(keys, o);
    assert(is_stable_order(keys, o));
    assert forall|k: int| 0 <= k < files.len() implies ({
        let f = #[trigger] files[k];
        &&& m.contains_key(f.file_id)
        &&& m[f.file_id] == diff_view(f)
        &&& displayable(f.kind@, f.size_delta as int)
        &&& at_path(table, volume, diff_view(f), f.path@)
        &&& under_filter(f.path@, filter)
    }) by {
        let g = shown[o[k] as int];
        let v = diff_view(g);
        let i = choose|i: int| 0 <= i < net.len() && net[i] == v;
        assert(net[i].file_id == g.file_id);
    }
    assert forall|i: int, j: int| 0 <= i < j < files.len() implies (#[trigger] files[i]).file_id != (
    #[trigger] files[j]).file_id && bytes_at_most(encode_utf8(files[i].path@), encode_utf8(files[j].path@)) by {
        let (x, y) = (o[i] as int, o[j] as int);
        assert(before(keys, o[i] as int, o[j] as int));
        assert(o[i] != o[j]);
        if x < y {
            assert(shown[x].file_id != shown[y].file_id);
        } else {
            assert(shown[y].file_id != shown[x].file_id);
        }
    }
    if filter is None {
        assert forall|id: u64| #[trigger] m.contains_key(id) && displayable(m[id].kind, m[id].size_delta) implies exists|
            k: int,
        |
            0 <= k < files.len() && diff_view(#[trigger] files[k]) == m[id] by {
            let i = choose|i: int| 0 <= i < net.len() && net[i] == m[id];
            assert(displayable(net[i].kind, net[i].size_delta));
            let s = choose|s: int| 0 <= s < shown.len() && diff_view(#[trigger] shown[s]) == net[i];
            assert(o.contains(s as usize));
            let k = choose|k: int| 0 <= k < o.len() && o[k] == s as usize;
            assert(files[k] == shown[s]);
        }
    }
}

/// Entries of other files and entries outside the interval change nothing of a file.
proof fn lemma_tail(log: Seq<LogRow>, n: int, start: i64, end: i64, id: u64)
    requires
        0 <= n <= log.len(),
        forall|i: int| n <= i < log.len() ==> !is_of(#[trigger] log[i], id, start, end),
    ensures
        reduced(log, start, end).contains_key(id) == reduced(log.take(n), start, end).contains_key(id),
        reduced(log, start, end).contains_key(id) ==> reduced(log, start, end)[id] == reduced(log.take(n), start, end)[id],
    decreases log.len() - n,
{
    if n < log.len() {
        let part = log.drop_last();
        assert forall|i: int| n <= i < part.len() implies !is_of(#[trigger] part[i], id, start, end) by {
            assert(part[i] == log[i]);
        }
        lemma_tail(part, n, start, end, id);
        assert(part.take(n) =~= log.take(n));
        assert(!is_of(log[log.len() - 1], id, start, end));
    } else {
        assert(log.take(n) =~= log);
    }
}

/// The growth that the entries of a file in the interval bring.
pub open spec fn logged_growth(log: Seq<LogRow>, id: u64, start: i64, end: i64) -> Seq<int> {
    Seq::new(
        log.len(),
        |i: int|
            if log[i].file_id == id && start < log[i].sequence && log[i].sequence <= end {
                log[i].size_delta as int
            } else {
                0
            },
    )
}

proof fn lemma_growth_push(log: Seq<LogRow>, id: u64, start: i64, end: i64)
    requires
        log.len() > 0,
    ensures
        total(logged_growth(log, id, start, end)) == total(logged_growth(log.drop_last(), id, start, end)) + (
        if is_of(log.last(), id, start, end) {
            log.last().size_delta as int
        } else {
            0
        }),
{
    let a = logged_growth(log, id, start, end);
    assert(a.drop_last() =~= logged_growth(log.drop_last(), id, start, end));
}

/// All that is known of a file of which no entry is a creation, or none a deletion.
proof fn lemma_file(log: Seq<LogRow>, start: i64, end: i64, id: u64)
    requires
        (forall|i: int| 0 <= i < log.len() && is_of(#[trigger] log[i], id, start, end) ==> log[i].kind@ != "Created"@)
            || (forall|i: int|
            0 <= i < log.len() && is_of(#[trigger] log[i], id, start, end) ==> log[i].kind@ != "Deleted"@),
        forall|i: int|
            0 <= i < log.len() && is_of(#[trigger] log[i], id, start, end) ==> log[i].kind@ == "Created"@
                || log[i].kind@ == "Modified"@ || log[i].kind@ == "Deleted"@ || log[i].kind@ == "Renamed"@,
    ensures
        reduced(log, start, end).contains_key(id) <==> exists|i: int|
            0 <= i < log.len() && is_of(#[trigger] log[i], id, start, end),
        (forall|i: int| 0 <= i < log.len() && is_of(#[trigger] log[i], id, start, end) ==> log[i].kind@ != "Renamed"@)
            && reduced(log, start, end).contains_key(id) ==> {
            &&& reduced(log, start, end)[id].size_delta == total(logged_growth(log, id, start, end))
            &&& reduced(log, start, end)[id].kind != "Renamed"@
        },
        (forall|i: int| 0 <= i < log.len() && is_of(#[trigger] log[i], id, start, end) ==> log[i].kind@ != "Created"@)
            && reduced(log, start, end).contains_key(id) ==> reduced(log, start, end)[id].kind != "Created"@,
        (forall|i: int|
            0 <= i < log.len() && is_of(#[trigger] log[i], id, start, end) ==> log[i].kind@ == "Modified"@)
            && reduced(log, start, end).contains_key(id) ==> reduced(log, start, end)[id].kind == "Modified"@,
        reduced(log, start, end).contains_key(id) && reduced(log, start, end)[id].kind == "Deleted"@ ==> exists|i: int|
            0 <= i < log.len() && is_of(#[trigger] log[i], id, start, end) && log[i].kind@ == "Deleted"@,
        !reduced(log, start, end).contains_key(id) ==> total(logged_growth(log, id, start, end)) == 0,
    decreases log.len(),
{
    lemma_kinds();
    if log.len() == 0 {
        assert(logged_growth(log, id, start, end) =~= Seq::empty());
    } else {
        let part = log.drop_last();
        let n = log.len() - 1;
        assert forall|i: int| 0 <= i < part.len() implies #[trigger] part[i] == log[i] by {}
        lemma_file(part, start, end, id);
        lemma_growth_push(log, id, start, end);
        assert(log[n] == log.last());
        let was = reduced(part, start, end);
        let now = reduced(log, start, end);
        if exists|i: int| 0 <= i < part.len() && is_of(#[trigger] part[i], id, start, end) {
            let i = choose|i: int| 0 <= i < part.len() && is_of(#[trigger] part[i], id, start, end);
            assert(is_of(log[i], id, start, end));
        }
        if exists|i: int|
            0 <= i < part.len() && is_of(#[trigger] part[i], id, start, end) && part[i].kind@ == "Deleted"@ {
            let i = choose|i: int|
                0 <= i < part.len() && is_of(#[trigger] part[i], id, start, end) && part[i].kind@ == "Deleted"@;
            assert(is_of(log[i], id, start, end) && log[i].kind@ == "Deleted"@);
        }
        if exists|i: int| 0 <= i < log.len() && is_of(#[trigger] log[i], id, start, end) {
            let i = choose|i: int| 0 <= i < log.len() && is_of(#[trigger] log[i], id, start, end);
            if i < n {
                assert(is_of(part[i], id, start, end));
            }
        }
        if is_of(log[n], id, start, end) {
            if was.contains_key(id) && was[id].kind == "Created"@ && log[n].kind@ == "Deleted"@ {
                let none = forall|i: int|
                    0 <= i < log.len() && is_of(#[trigger] log[i], id, start, end) ==> log[i].kind@ != "Created"@;
                assert(none);
                assert forall|i: int| 0 <= i < part.len() && is_of(#[trigger] part[i], id, start, end) implies part[i].kind@
                    != "Created"@ by {
                    assert(is_of(log[i], id, start, end));
                }
            }
        }
    }
}

/// A file whose last entry in the interval is a deletion, and that was not created in it,
/// is told as deleted, with all that its entries say of its growth.
pub proof fn law_deleted_is_told(
    log: Seq<LogRow>,
    table: FactTable,
    volume: Seq<char>,
    start: i64,
    end: i64,
    files: Seq<DiffFile>,
    id: u64,
    n: int,
)
    requires
        is_diff(log, table, volume, start, end, None, files),
        files.len() <= usize::MAX,
        0 <= n < log.len(),
        is_of(log[n], id, start, end),
        log[n].kind@ == "Deleted"@,
        forall|i: int| n < i < log.len() ==> !is_of(#[trigger] log[i], id, start, end),
        forall|i: int|
            0 <= i < log.len() && is_of(#[trigger] log[i], id, start, end) ==> log[i].kind@ == "Modified"@
                || log[i].kind@ == "Deleted"@ || log[i].kind@ == "Renamed"@,
    ensures
        exists|k: int|
            0 <= k < files.len() && (#[trigger] files[k]).file_id == id && files[k].kind@ == "Deleted"@ && ((forall|
                i: int,
            |
                0 <= i < log.len() && is_of(#[trigger] log[i], id, start, end) ==> log[i].kind@ != "Renamed"@)
                ==> files[k].size_delta == total(logged_growth(log, id, start, end))),
{
    lemma_kinds();
    let head = log.take(n);
    let upto = log.take(n + 1);
    assert(upto.drop_last() =~= head);
    assert(upto.last() == log[n]);
    assert forall|i: int| 0 <= i < head.len() implies #[trigger] head[i] == log[i] by {}
    lemma_file(head, start, end, id);
    lemma_tail(log, n + 1, start, end, id);
    lemma_file(log, start, end, id);
    lemma_touched(log, start, end);
    let m = reduced(log, start, end);
    assert(m.contains_key(id) && m[id].kind == "Deleted"@);
    lemma_diff(log, table, volume, start, end, None, files);
    assert(displayable(m[id].kind, m[id].size_delta));
    let k = choose|k: int| 0 <= k < files.len() && diff_view(#[trigger] files[k]) == m[id];
    assert(files[k].file_id == id);
}

/// A file whose entries in the interval are all modifications is told as modified by
/// their sum, where that is two bytes or more, and else not at all.
pub proof fn law_modified_is_told(
    log: Seq<LogRow>,
    table: FactTable,
    volume: Seq<char>,
    start: i64,
    end: i64,
    files: Seq<DiffFile>,
    id: u64,
)
    requires
        is_diff(log, table, volume, start, end, None, files),
        files.len() <= usize::MAX,
        exists|i: int| 0 <= i < log.len() && is_of(#[trigger] log[i], id, start, end),
        forall|i: int|
            0 <= i < log.len() && is_of(#[trigger] log[i], id, start, end) ==> log[i].kind@ == "Modified"@,
    ensures
        ({
            let sum = total(logged_growth(log, id, start, end));
            if sum >= 2 || sum <= -2 {
                exists|k: int|
                    0 <= k < files.len() && (#[trigger] files[k]).file_id == id && files[k].kind@ == "Modified"@
                        && files[k].size_delta == sum
            } else {
                forall|k: int| 0 <= k < files.len() ==> (#[trigger] files[k]).file_id != id
            }
        }),
{
    lemma_kinds();
    lemma_file(log, start, end, id);
    lemma_touched(log, start, end);
    lemma_diff(log, table, volume, start, end, None, files);
    let m = reduced(log, start, end);
    let sum = total(logged_growth(log, id, start, end));
    assert(m.contains_key(id));
    if sum >= 2 || sum <= -2 {
        assert(displayable(m[id].kind, m[id].size_delta));
        let k = choose|k: int| 0 <= k < files.len() && diff_view(#[trigger] files[k]) == m[id];
        assert(files[k].file_id == id);
    }
}

proof fn lemma_created(log: Seq<LogRow>, n: int, start: i64, end: i64, id: u64)
    requires
        0 <= n < log.len(),
        is_of(log[n], id, start, end),
        log[n].kind@ == "Created"@,
        forall|i: int| 0 <= i < n ==> !is_of(#[trigger] log[i], id, start, end),
        forall|i: int|
            0 <= i < log.len() && is_of(#[trigger] log[i], id, start, end) ==> log[i].kind@ != "Deleted"@,
    ensures
        reduced(log, start, end).contains_key(id),
        reduced(log, start, end)[id].kind == "Created"@,
    decreases log.len(),
{
    lemma_kinds();
    let part = log.drop_last();
    if n == part.len() {
        lemma_touched(part, start, end);
        if reduced(part, start, end).contains_key(id) {
            let i = choose|i: int| 0 <= i < part.len() && is_of(#[trigger] part[i], id, start, end);
            assert(log[i] == part[i]);
        }
    } else {
        assert forall|i: int| 0 <= i < part.len() implies #[trigger] part[i] == log[i] by {}
        lemma_created(part, n, start, end, id);
        assert(log[log.len() - 1] == log.last());
    }
}

/// A file whose first entry in the interval is its creation and that is not deleted in it
/// is told as created, with the growth of all its entries.
pub proof fn law_created_is_told(
    log: Seq<LogRow>,
    table: FactTable,
    volume: Seq<char>,
    start: i64,
    end: i64,
    files: Seq<DiffFile>,
    id: u64,
    n: int,
)
    requires
        is_diff(log, table, volume, start, end, None, files),
        files.len() <= usize::MAX,
        0 <= n < log.len(),
        is_of(log[n], id, start, end),
        log[n].kind@ == "Created"@,
        forall|i: int| 0 <= i < n ==> !is_of(#[trigger] log[i], id, start, end),
        forall|i: int|
            0 <= i < log.len() && is_of(#[trigger] log[i], id, start, end) ==> log[i].kind@ == "Created"@
                || log[i].kind@ == "Modified"@ || log[i].kind@ == "Renamed"@,
    ensures
        exists|k: int|
            0 <= k < files.len() && (#[trigger] files[k]).file_id == id && files[k].kind@ == "Created"@ && ((forall|
                i: int,
            |
                0 <= i < log.len() && is_of(#[trigger] log[i], id, start, end) ==> log[i].kind@ != "Renamed"@)
                ==> files[k].size_delta == total(logged_growth(log, id, start, end))),
{
    lemma_kinds();
    lemma_created(log, n, start, end, id);
    lemma_file(log, start, end, id);
    lemma_touched(log, start, end);
    lemma_diff(log, table, volume, start, end, None, files);
    let m = reduced(log, start, end);
    assert(displayable(m[id].kind, m[id].size_delta));
    let k = choose|k: int| 0 <= k < files.len() && diff_view(#[trigger] files[k]) == m[id];
    assert(files[k].file_id == id);
}

/// A file with no entry in the interval is not told, no file is told twice, and the files
/// come in the order of their paths.
pub proof fn law_diff_is_sound(
    log: Seq<LogRow>,
    table: FactTable,
    volume: Seq<char>,
    start: i64,
    end: i64,
    filter: Option<Seq<char>>,
    files: Seq<DiffFile>,
)
    requires
        is_diff(log, table, volume, start, end, filter, files),
        files.len() <= usize::MAX,
    ensures
        forall|k: int|
            0 <= k < files.len() ==> exists|i: int|
                0 <= i < log.len() && (#[trigger] log[i]).file_id == (#[trigger] files[k]).file_id && start
                    < log[i].sequence && log[i].sequence <= end,
        forall|i: int, j: int|
            0 <= i < j < files.len() ==> (#[trigger] files[i]).file_id != (#[trigger] files[j]).file_id && bytes_at_most(
                encode_utf8(files[i].path@),
                encode_utf8(files[j].path@),
            ),
{
    lemma_diff(log, table, volume, start, end, filter, files);
    lemma_touched(log, start, end);
    assert forall|k: int| 0 <= k < files.len() implies exists|i: int|
        0 <= i < log.len() && (#[trigger] log[i]).file_id == (#[trigger] files[k]).file_id && start < log[i].sequence
            && log[i].sequence <= end by {
        let id = files[k].file_id;
        assert(touched(log, start, end).contains(id));
        let i = choose|i: int| 0 <= i < log.len() && is_of(#[trigger] log[i], id, start, end);
        assert(log[i].file_id == files[k].file_id);
    }
}

proof fn lemma_renamed(log: Seq<LogRow>, n: int, start: i64, end: i64, id: u64)
    requires
        0 <= n < log.len(),
        is_of(log[n], id, start, end),
        log[n].kind@ == "Renamed"@,
        forall|i: int| n < i < log.len() ==> !is_of(#[trigger] log[i], id, start, end) || log[i].kind@ == "Modified"@,
        forall|i: int|
            0 <= i < n && is_of(#[trigger] log[i], id, start, end) ==> log[i].kind@ == "Modified"@ || log[i].kind@
                == "Renamed"@,
    ensures
        reduced(log, start, end).contains_key(id),
        reduced(log, start, end)[id].kind == "Renamed"@,
        reduced(log, start, end)[id].name == log[n].name@,
        reduced(log, start, end)[id].parent_file_id == log[n].parent_file_id,
        reduced(log, start, end)[id].old_name is Some,
    decreases log.len(),
{
    lemma_kinds();
    let part = log.drop_last();
    assert forall|i: int| 0 <= i < part.len() implies #[trigger] part[i] == log[i] by {}
    if n == part.len() {
        lemma_moved(part, start, end, id);
    } else {
        lemma_renamed(part, n, start, end, id);
        assert(log[log.len() - 1] == log.last());
    }
}

/// A file that was only modified and renamed.
proof fn lemma_moved(log: Seq<LogRow>, start: i64, end: i64, id: u64)
    requires
        forall|i: int|
            0 <= i < log.len() && is_of(#[trigger] log[i], id, start, end) ==> log[i].kind@ == "Modified"@
                || log[i].kind@ == "Renamed"@,
    ensures
        reduced(log, start, end).contains_key(id) ==> {
            let f = reduced(log, start, end)[id];
            &&& f.kind == "Modified"@ || f.kind == "Renamed"@
            &&& f.kind == "Renamed"@ ==> f.old_name is Some
        },
    decreases log.len(),
{
    lemma_kinds();
    if log.len() > 0 {
        let part = log.drop_last();
        assert forall|i: int| 0 <= i < part.len() implies #[trigger] part[i] == log[i] by {}
        lemma_moved(part, start, end, id);
        assert(log[log.len() - 1] == log.last());
    }
}

/// A file that was only modified and renamed is told as renamed, with the name and the
/// directory that the last renaming gave it.
pub proof fn law_renamed_is_told(
    log: Seq<LogRow>,
    table: FactTable,
    volume: Seq<char>,
    start: i64,
    end: i64,
    files: Seq<DiffFile>,
    id: u64,
    n: int,
)
    requires
        is_diff(log, table, volume, start, end, None, files),
        files.len() <= usize::MAX,
        0 <= n < log.len(),
        is_of(log[n], id, start, end),
        log[n].kind@ == "Renamed"@,
        forall|i: int| n < i < log.len() ==> !is_of(#[trigger] log[i], id, start, end) || log[i].kind@ == "Modified"@,
        forall|i: int|
            0 <= i < n && is_of(#[trigger] log[i], id, start, end) ==> log[i].kind@ == "Modified"@ || log[i].kind@
                == "Renamed"@,
    ensures
        exists|k: int|
            0 <= k < files.len() && (#[trigger] files[k]).file_id == id && files[k].kind@ == "Renamed"@
                && files[k].name@ == log[n].name@ && files[k].parent_file_id == log[n].parent_file_id
                && files[k].old_name is Some,
{
    lemma_kinds();
    lemma_renamed(log, n, start, end, id);
    lemma_touched(log, start, end);
    lemma_diff(log, table, volume, start, end, None, files);
    let m = reduced(log, start, end);
    assert(displayable(m[id].kind, m[id].size_delta));
    let k = choose|k: int| 0 <= k < files.len() && diff_view(#[trigger] files[k]) == m[id];
    assert(files[k].file_id == id);
}

/// A file that is told as renamed was called by the name of its entry before, which may
/// lie before the interval, when the first renaming of the interval came.
pub proof fn law_old_name(
    log: Seq<LogRow>,
    table: FactTable,
    volume: Seq<char>,
    start: i64,
    end: i64,
    files: Seq<DiffFile>,
    id: u64,
    p: int,
    n: int,
)
    requires
        is_diff(log, table, volume, start, end, None, files),
        files.len() <= usize::MAX,
        0 <= p < n < log.len(),
        is_of(log[n], id, start, end),
        log[n].kind@ == "Renamed"@,
        log[p].file_id == id,
        forall|i: int| p < i < n ==> (#[trigger] log[i]).file_id != id,
        forall|i: int| 0 <= i < n ==> !is_of(#[trigger] log[i], id, start, end) || log[i].kind@ == "Modified"@,
        forall|i: int| n < i < log.len() ==> !is_of(#[trigger] log[i], id, start, end),
    ensures
        exists|k: int|
            0 <= k < files.len() && (#[trigger] files[k]).file_id == id && files[k].old_name is Some
                && files[k].old_name->0@ == log[p].name@ && files[k].old_parent_file_id == Some(log[p].parent_file_id),
{
    lemma_kinds();
    lemma_renamed(log, n, start, end, id);
    lemma_tail(log, n + 1, start, end, id);
    let head = log.take(n);
    let upto = log.take(n + 1);
    assert(upto.drop_last() =~= head);
    assert(upto.last() == log[n]);
    assert forall|i: int| 0 <= i < head.len() implies #[trigger] head[i] == log[i] by {}
    lemma_prior(head, p, id);
    lemma_file(head, start, end, id);
    lemma_touched(log, start, end);
    lemma_diff(log, table, volume, start, end, None, files);
    let m = reduced(log, start, end);
    let f = reduced(upto, start, end)[id];
    assert(f.old_name == Some(log[p].name@));
    assert(displayable(m[id].kind, m[id].size_delta));
    let k = choose|k: int| 0 <= k < files.len() && diff_view(#[trigger] files[k]) == m[id];
    assert(files[k].file_id == id);
}

proof fn lemma_prior(log: Seq<LogRow>, p: int, id: u64)
    requires
        0 <= p < log.len(),
        log[p].file_id == id,
        forall|i: int| p < i < log.len() ==> (#[trigger] log[i]).file_id != id,
    ensures
        crate::snapshot_diff::prior(log, id) == Some(log[p]),
    decreases log.len(),
{
    if p < log.len() - 1 {
        assert(log[log.len() - 1].file_id != id);
        let part = log.drop_last();
        assert forall|i: int| p < i < part.len() implies (#[trigger] part[i]).file_id != id by {
            assert(part[i] == log[i]);
        }
        lemma_prior(part, p, id);
    }
}

/// A file that was deleted and then created again, with nothing but modifications
/// between and after, is told as modified, unless by less than two bytes.
pub proof fn law_recreated_is_told(
    log: Seq<LogRow>,
    table: FactTable,
    volume: Seq<char>,
    start: i64,
    end: i64,
    files: Seq<DiffFile>,
    id: u64,
    d: int,
    c: int,
)
    requires
        is_diff(log, table, volume, start, end, None, files),
        files.len() <= usize::MAX,
        0 <= d < c < log.len(),
        is_of(log[d], id, start, end),
        is_of(log[c], id, start, end),
        log[d].kind@ == "Deleted"@,
        log[c].kind@ == "Created"@,
        forall|i: int|
            0 <= i < log.len() && i != d && i != c && is_of(#[trigger] log[i], id, start, end) ==> log[i].kind@
                == "Modified"@,
        total(logged_growth(log, id, start, end)) >= 2 || total(logged_growth(log, id, start, end)) <= -2,
    ensures
        exists|k: int|
            0 <= k < files.len() && (#[trigger] files[k]).file_id == id && files[k].kind@ == "Modified"@
                && files[k].size_delta == total(logged_growth(log, id, start, end)),
{
    lemma_kinds();
    lemma_recreated(log, start, end, id, d, c);
    lemma_touched(log, start, end);
    lemma_diff(log, table, volume, start, end, None, files);
    let m = reduced(log, start, end);
    assert(displayable(m[id].kind, m[id].size_delta));
    let k = choose|k: int| 0 <= k < files.len() && diff_view(#[trigger] files[k]) == m[id];
    assert(files[k].file_id == id);
}

proof fn lemma_recreated(log: Seq<LogRow>, start: i64, end: i64, id: u64, d: int, c: int)
    requires
        0 <= d < c < log.len(),
        is_of(log[d], id, start, end),
        is_of(log[c], id, start, end),
        log[d].kind@ == "Deleted"@,
        log[c].kind@ == "Created"@,
        forall|i: int|
            0 <= i < log.len() && i != d && i != c && is_of(#[trigger] log[i], id, start, end) ==> log[i].kind@
                == "Modified"@,
    ensures
        reduced(log, start, end).contains_key(id),
        reduced(log, start, end)[id].kind == "Modified"@,
        reduced(log, start, end)[id].size_delta == total(logged_growth(log, id, start, end)),
    decreases log.len(),
{
    lemma_kinds();
    let part = log.drop_last();
    let n = log.len() - 1;
    assert forall|i: int| 0 <= i < part.len() implies #[trigger] part[i] == log[i] by {}
    assert(log[n] == log.last());
    lemma_growth_push(log, id, start, end);
    if c < n {
        lemma_recreated(part, start, end, id, d, c);
    } else {
        lemma_gone(part, start, end, id, d);
    }
}

/// A file that was deleted, with nothing but modifications around.
proof fn lemma_gone(log: Seq<LogRow>, start: i64, end: i64, id: u64, d: int)
    requires
        0 <= d < log.len(),
        is_of(log[d], id, start, end),
        log[d].kind@ == "Deleted"@,
        forall|i: int|
            0 <= i < log.len() && i != d && is_of(#[trigger] log[i], id, start, end) ==> log[i].kind@ == "Modified"@,
    ensures
        reduced(log, start, end).contains_key(id),
        reduced(log, start, end)[id].kind == "Deleted"@,
        reduced(log, start, end)[id].size_delta == total(logged_growth(log, id, start, end)),
    decreases log.len(),
{
    lemma_kinds();
    let part = log.drop_last();
    let n = log.len() - 1;
    assert forall|i: int| 0 <= i < part.len() implies #[trigger] part[i] == log[i] by {}
    assert(log[n] == log.last());
    lemma_growth_push(log, id, start, end);
    if d < n {
        lemma_gone(part, start, end, id, d);
    } else {
        lemma_file(part, start, end, id);
    }
}

/// The path of a file is that of its volume, of its directory and its name, joined by
/// slashes; with a filter only files whose paths begin with it, apart from case, are told.
pub proof fn law_diff_paths(
    log: Seq<LogRow>,
    table: FactTable,
    volume: Seq<char>,
    start: i64,
    end: i64,
    filter: Option<Seq<char>>,
    files: Seq<DiffFile>,
    k: int,
)
    requires
        is_diff(log, table, volume, start, end, filter, files),
        files.len() <= usize::MAX,
        0 <= k < files.len(),
    ensures
        exists|dir: Seq<char>| #[trigger]
            is_fact_path(table.parents@, table.names@, volume, files[k].parent_file_id, dir) && files[k].path@ == volume
                + seq!['/'] + (if dir.len() == 0 {
                dir
            } else {
                dir + seq!['/']
            }) + files[k].name@,
        filter is Some ==> crate::text::lowercase_of(filter->0).is_prefix_of(
            crate::text::lowercase_of(files[k].path@),
        ),
{
    lemma_diff(log, table, volume, start, end, filter, files);
    let f = files[k];
    assert(at_path(table, volume, diff_view(f), f.path@));
    let dir = choose|dir: Seq<char>| #[trigger]
        is_fact_path(table.parents@, table.names@, volume, f.parent_file_id, dir) && f.path@
            == crate::snapshot_diff::full_path(volume, dir, f.name@);
    assert(f.path@ =~= volume + seq!['/'] + (if dir.len() == 0 {
        dir
    } else {
        dir + seq!['/']
    }) + f.name@);
}

/// What one more entry in the interval makes of a file that is told before and after it. A
/// creation makes a deleted file a modified one and names it, a modification changes its size
/// alone, a renaming its name and its directory alone, and a deletion tells it as deleted;
/// sizes add up.
pub proof fn law_entry_after(
    log: Seq<LogRow>,
    row: LogRow,
    table: FactTable,
    volume: Seq<char>,
    start: i64,
    end: i64,
    filter: Option<Seq<char>>,
    before: Seq<DiffFile>,
    after: Seq<DiffFile>,
    i: int,
    j: int,
)
    requires
        is_diff(log, table, volume, start, end, filter, before),
        is_diff(log.push(row), table, volume, start, end, filter, after),
        before.len() <= usize::MAX,
        after.len() <= usize::MAX,
        0 <= i < before.len(),
        0 <= j < after.len(),
        is_of(row, before[i].file_id, start, end),
        after[j].file_id == before[i].file_id,
    ensures
        ({
            let a = before[i];
            let b = after[j];
            &&& row.kind@ == "Created"@ ==> b.name@ == row.name@ && b.parent_file_id == row.parent_file_id && b.size_delta
                == a.size_delta + row.size_delta
            &&& row.kind@ == "Created"@ && a.kind@ == "Deleted"@ ==> b.kind@ == "Modified"@
            &&& row.kind@ == "Created"@ && a.kind@ != "Deleted"@ ==> b.kind@ == a.kind@
            &&& row.kind@ == "Modified"@ ==> b.kind@ == a.kind@ && b.name@ == a.name@ && b.parent_file_id
                == a.parent_file_id && b.size_delta == a.size_delta + row.size_delta && b.path@ == a.path@
            &&& row.kind@ == "Renamed"@ ==> b.name@ == row.name@ && b.parent_file_id == row.parent_file_id && b.size_delta
                == a.size_delta
            &&& row.kind@ == "Renamed"@ && a.kind@ == "Created"@ ==> b.kind@ == "Created"@
            &&& row.kind@ == "Renamed"@ && a.kind@ != "Created"@ ==> b.kind@ == "Renamed"@
            &&& row.kind@ == "Renamed"@ && (a.kind@ == "Modified"@ || a.kind@ == "Deleted"@) ==> b.old_name is Some
            &&& row.kind@ == "Renamed"@ && a.kind@ == "Renamed"@ ==> opt_text(b.old_name) == opt_text(a.old_name)
            &&& row.kind@ == "Deleted"@ ==> a.kind@ != "Created"@ && b.kind@ == "Deleted"@ && b.name@ == a.name@
                && b.parent_file_id == a.parent_file_id && b.size_delta == a.size_delta + row.size_delta
            &&& b.is_directory == a.is_directory
        }),
{
    lemma_kinds();
    lemma_diff(log, table, volume, start, end, filter, before);
    lemma_diff(log.push(row), table, volume, start, end, filter, after);
    assert(log.push(row).drop_last() =~= log);
    let a = diff_view(before[i]);
    let b = diff_view(after[j]);
    assert(reduced(log, start, end)[before[i].file_id] == a);
    assert(reduced(log.push(row), start, end)[after[j].file_id] == b);
    if row.kind@ == "Modified"@ {
        lemma_one_path(table, volume, a, b, before[i].path@, after[j].path@);
    }
}

proof fn lemma_one_path(table: FactTable, volume: Seq<char>, a: DiffView, b: DiffView, x: Seq<char>, y: Seq<char>)
    requires
        at_path(table, volume, a, x),
        at_path(table, volume, b, y),
        a.parent_file_id == b.parent_file_id,
        a.name == b.name,
    ensures
        x == y,
{
    let p = choose|dir: Seq<char>| #[trigger]
        is_fact_path(table.parents@, table.names@, volume, a.parent_file_id, dir) && x
            == crate::snapshot_diff::full_path(volume, dir, a.name);
    let q = choose|dir: Seq<char>| #[trigger]
        is_fact_path(table.parents@, table.names@, volume, b.parent_file_id, dir) && y
            == crate::snapshot_diff::full_path(volume, dir, b.name);
    crate::ancestry::law_fact_path_unique(table.parents@, table.names@, volume, a.parent_file_id, p, q);
}

/// A file of which the interval has one entry is told by that entry: its kind, its name, its
/// directory and its growth.
pub proof fn law_single_entry(
    log: Seq<LogRow>,
    table: FactTable,
    volume: Seq<char>,
    start: i64,
    end: i64,
    files: Seq<DiffFile>,
    n: int,
)
    requires
        is_diff(log, table, volume, start, end, None, files),
        files.len() <= usize::MAX,
        0 <= n < log.len(),
        start < log[n].sequence <= end,
        log[n].kind@ == "Created"@ || log[n].kind@ == "Modified"@ || log[n].kind@ == "Renamed"@ || log[n].kind@
            == "Deleted"@,
        log[n].kind@ == "Modified"@ ==> log[n].size_delta >= 2 || log[n].size_delta <= -2,
        forall|i: int| 0 <= i < log.len() && i != n ==> !is_of(#[trigger] log[i], log[n].file_id, start, end),
    ensures
        exists|k: int|
            0 <= k < files.len() && (#[trigger] files[k]).file_id == log[n].file_id && files[k].kind@ == log[n].kind@
                && files[k].name@ == log[n].name@ && files[k].parent_file_id == log[n].parent_file_id
                && files[k].size_delta == log[n].size_delta && files[k].is_directory == log[n].is_directory && (
            files[k].old_name is Some <==> log[n].kind@ == "Renamed"@),
{
    lemma_kinds();
    let id = log[n].file_id;
    let head = log.take(n);
    let upto = log.take(n + 1);
    assert(upto.drop_last() =~= head);
    assert(upto.last() == log[n]);
    lemma_touched(head, start, end);
    if reduced(head, start, end).contains_key(id) {
        let i = choose|i: int| 0 <= i < head.len() && is_of(#[trigger] head[i], id, start, end);
        assert(log[i] == head[i]);
    }
    lemma_tail(log, n + 1, start, end, id);
    lemma_diff(log, table, volume, start, end, None, files);
    let m = reduced(log, start, end);
    assert(m.contains_key(id));
    assert(displayable(m[id].kind, m[id].size_delta));
    let k = choose|k: int| 0 <= k < files.len() && diff_view(#[trigger] files[k]) == m[id];
    assert(files[k].file_id == id);
}

/// A filter leaves exactly those files whose paths begin with it, apart from case.
pub proof fn law_filtered(
    log: Seq<LogRow>,
    table: FactTable,
    volume: Seq<char>,
    start: i64,
    end: i64,
    filter: Seq<char>,
    all: Seq<DiffFile>,
    some: Seq<DiffFile>,
    i: int,
)
    requires
        is_diff(log, table, volume, start, end, None, all),
        is_diff(log, table, volume, start, end, Some(filter), some),
        all.len() <= usize::MAX,
        some.len() <= usize::MAX,
        0 <= i < all.len(),
    ensures
        crate::text::lowercase_of(filter).is_prefix_of(crate::text::lowercase_of(all[i].path@)) <==> exists|k: int|
            0 <= k < some.len() && (#[trigger] some[k]).file_id == all[i].file_id,
{
    lemma_diff(log, table, volume, start, end, None, all);
    lemma_diff(log, table, volume, start, end, Some(filter), some);
    lemma_net(log, start, end);
    let f = all[i];
    let m = reduced(log, start, end);
    let net = net_changes(log, start, end);
    let v = diff_view(f);
    assert(m[f.file_id] == v);
    if exists|k: int| 0 <= k < some.len() && (#[trigger] some[k]).file_id == f.file_id {
        let k = choose|k: int| 0 <= k < some.len() && (#[trigger] some[k]).file_id == f.file_id;
        assert(diff_view(some[k]) == v);
        lemma_one_path(table, volume, v, v, f.path@, some[k].path@);
    }
    if under_filter(f.path@, Some(filter)) {
        let shown = choose|shown: Seq<DiffFile>|
            {
                &&& #[trigger] places(table, volume, Some(filter), net, shown)
                &&& some.len() == shown.len()
                &&& forall|k: int|
                    0 <= k < some.len() ==> #[trigger] some[k] == shown[order_of(path_keys(shown))[k] as int]
            };
        assert(net.contains(v));
        let p = choose|p: int| 0 <= p < net.len() && net[p] == v;
        let s = lemma_placed(table, volume, Some(filter), net, shown, p, f.path@);
        let keys = path_keys(shown);
        law_order_exists(keys);
        let o = order_of(keys);
        assert(o.contains(s as usize));
        let k = choose|k: int| 0 <= k < o.len() && o[k] == s as usize;
        assert(some[k] == shown[s]);
        assert(some[k].file_id == f.file_id);
    }
}

proof fn lemma_placed(
    table: FactTable,
    volume: Seq<char>,
    filter: Option<Seq<char>>,
    net: Seq<DiffView>,
    shown: Seq<DiffFile>,
    p: int,
    path: Seq<char>,
) -> (s: int)
    requires
        places(table, volume, filter, net, shown),
        0 <= p < net.len(),
        displayable(net[p].kind, net[p].size_delta),
        at_path(table, volume, net[p], path),
        under_filter(path, filter),
    ensures
        0 <= s < shown.len(),
        diff_view(shown[s]) == net[p],
    decreases net.len(),
{
    let part = net.drop_last();
    let f = net.last();
    let took = displayable(f.kind, f.size_delta) && shown.len() > 0 && diff_view(shown.last()) == f && at_path(
        table,
        volume,
        f,
        shown.last().path@,
    ) && under_filter(shown.last().path@, filter) && places(table, volume, filter, part, shown.drop_last());
    if p < part.len() {
        let some = if took {
            shown.drop_last()
        } else {
            shown
        };
        let s = lemma_placed(table, volume, filter, part, some, p, path);
        assert(some[s] == shown[s]);
        s
    } else {
        if !took {
            let q = choose|q: Seq<char>| #[trigger] at_path(table, volume, f, q) && !under_filter(q, filter);
            lemma_one_path(table, volume, f, f, path, q);
        }
        shown.len() - 1
    }
}

/// The lowest place of a log is one of an entry, and no entry has a lower one.
pub proof fn law_lowest(log: Seq<LogRow>)
    requires
        log.len() > 0,
    ensures
        exists|i: int| 0 <= i < log.len() && (#[trigger] log[i]).sequence == lowest_sequence(log),
        forall|i: int| 0 <= i < log.len() ==> lowest_sequence(log) <= (#[trigger] log[i]).sequence,
    decreases log.len(),
{
    let n = log.len() - 1;
    if n > 0 {
        let part = log.drop_last();
        law_lowest(part);
        let i = choose|i: int| 0 <= i < part.len() && (#[trigger] part[i]).sequence == lowest_sequence(part);
        assert(log[i] == part[i]);
        assert(log[n] == log.last());
        assert forall|i: int| 0 <= i < log.len() implies lowest_sequence(log) <= (#[trigger] log[i]).sequence by {
            if i < n {
                assert(part[i] == log[i]);
            }
        }
    } else {
        assert(log[0].sequence == lowest_sequence(log));
    }
}

} // verus!
