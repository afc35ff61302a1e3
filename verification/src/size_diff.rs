//! What grew and shrank between two snapshots.

use crate::history::at_most;
use crate::lookup::ByteTable;
use crate::order::{before, is_stable_order, law_order_exists, order_of, stable_order};
use crate::store::{text_of, DirRow};
use crate::sums::{lemma_total_push, total};
use crate::text::utf8_text;
use vstd::prelude::*;

verus! {

/// A directory whose size differs between two snapshots.
#[derive(Debug)]
pub struct PathDelta {
    pub path: Vec<u8>,
    /// The size in the first snapshot, if it was there.
    pub bytes_a: Option<i64>,
    /// The size in the second snapshot, if it was there.
    pub bytes_b: Option<i64>,
    pub delta_bytes: i64,
}

/// A directory whose size differs between two snapshots.
pub struct DeltaView {
    pub path: Seq<u8>,
    pub bytes_a: Option<i64>,
    pub bytes_b: Option<i64>,
    pub delta: i64,
}

/// What a difference says.
pub open spec fn delta_view(d: PathDelta) -> DeltaView {
    DeltaView { path: d.path@, bytes_a: d.bytes_a, bytes_b: d.bytes_b, delta: d.delta_bytes }
}

/// What differences say.
pub open spec fn delta_views(ds: Seq<PathDelta>) -> Seq<DeltaView> {
    ds.map_values(|d: PathDelta| delta_view(d))
}

/// The bytes of all rows with a path.
pub open spec fn sum_at(rows: Seq<DirRow>, path: Seq<u8>) -> int
    decreases rows.len(),
{
    if rows.len() == 0 {
        0
    } else {
        sum_at(rows.drop_last(), path) + (if rows.last().path@ == path {
            rows.last().total_bytes as int
        } else {
            0
        })
    }
}

/// Some row has the path.
pub open spec fn has_path(rows: Seq<DirRow>, path: Seq<u8>) -> bool {
    exists|i: int| 0 <= i < rows.len() && (#[trigger] rows[i]).path@ == path
}

/// The paths of the rows behind those that are there, each once.
pub open spec fn with_paths(have: Seq<Seq<u8>>, rows: Seq<DirRow>) -> Seq<Seq<u8>>
    decreases rows.len(),
{
    if rows.len() == 0 {
        have
    } else {
        let rest = with_paths(have, rows.drop_last());
        if rest.contains(rows.last().path@) {
            rest
        } else {
            rest.push(rows.last().path@)
        }
    }
}

/// The paths of two snapshots, each once.
pub open spec fn all_paths(a: Seq<DirRow>, b: Seq<DirRow>) -> Seq<Seq<u8>> {
    with_paths(with_paths(Seq::empty(), a), b)
}

/// The size of a directory in a snapshot.
pub open spec fn size_in(rows: Seq<DirRow>, path: Seq<u8>) -> Option<i64> {
    if has_path(rows, path) {
        Some(sum_at(rows, path) as i64)
    } else {
        None
    }
}

/// How a directory differs between two snapshots.
pub open spec fn delta_at(a: Seq<DirRow>, b: Seq<DirRow>, path: Seq<u8>) -> DeltaView {
    DeltaView {
        path,
        bytes_a: size_in(a, path),
        bytes_b: size_in(b, path),
        delta: (sum_at(b, path) - sum_at(a, path)) as i64,
    }
}

/// The directories that differ between two snapshots.
pub open spec fn deltas(a: Seq<DirRow>, b: Seq<DirRow>) -> Seq<DeltaView> {
    all_paths(a, b).map_values(|p: Seq<u8>| delta_at(a, b, p)).filter(|d: DeltaView| d.delta != 0)
}

/// The sizes and differences of all directories can be held.
pub open spec fn sizes_fit(a: Seq<DirRow>, b: Seq<DirRow>) -> bool {
    forall|p: Seq<u8>|
        #![trigger sum_at(a, p)]
        #![trigger sum_at(b, p)]
        {
            &&& i64::MIN <= sum_at(a, p) <= i64::MAX
            &&& i64::MIN <= sum_at(b, p) <= i64::MAX
            &&& i64::MIN < sum_at(b, p) - sum_at(a, p) <= i64::MAX
        }
}

pub(crate) proof fn lemma_with_paths(have: Seq<Seq<u8>>, rows: Seq<DirRow>)
    ensures
        forall|p: Seq<u8>| have.contains(p) ==> #[trigger] with_paths(have, rows).contains(p),
        forall|i: int| 0 <= i < rows.len() ==> with_paths(have, rows).contains(#[trigger] rows[i].path@),
    decreases rows.len(),
{
    if rows.len() > 0 {
        let part = rows.drop_last();
        lemma_with_paths(have, part);
        let rest = with_paths(have, part);
        let all = with_paths(have, rows);
        let last = rows.last().path@;
        assert forall|p: Seq<u8>| rest.contains(p) implies #[trigger] all.contains(p) by {
            let k = choose|k: int| 0 <= k < rest.len() && rest[k] == p;
            assert(all[k] == p);
        }
        assert(all.contains(last)) by {
            if !rest.contains(last) {
                assert(all[rest.len() as int] == last);
            }
        }
        assert forall|i: int| 0 <= i < rows.len() implies all.contains(#[trigger] rows[i].path@) by {
            if i < part.len() {
                assert(part[i] == rows[i]);
                assert(rest.contains(part[i].path@));
            }
        }
    }
}

fn add_paths(table: &mut ByteTable, rows: &Vec<DirRow>)
    requires
        old(table).wf(),
    ensures
        final(table).wf(),
        final(table)@ == with_paths(old(table)@, rows@),
{
    let ghost start = table@;
    let mut i: usize = 0;
    assert(rows@.take(0) =~= Seq::<DirRow>::empty());
    while i < rows.len()
        invariant
            table.wf(),
            start == old(table)@,
            i <= rows@.len(),
            table@ == with_paths(start, rows@.take(i as int)),
        decreases rows@.len() - i,
    {
        assert(rows@.take(i + 1).drop_last() =~= rows@.take(i as int));
        assert(rows@.take(i + 1).last() == rows@[i as int]);
        let _ = table.insert(rows[i].path.as_slice());
        i = i + 1;
    }
    assert(rows@.take(i as int) =~= rows@);
}

proof fn lemma_sum_bound(rows: Seq<DirRow>, path: Seq<u8>)
    ensures
        -0x8000_0000_0000_0000 * rows.len() <= sum_at(rows, path) <= 0x8000_0000_0000_0000 * rows.len(),
    decreases rows.len(),
{
    if rows.len() > 0 {
        lemma_sum_bound(rows.drop_last(), path);
    }
}

pub(crate) proof fn lemma_no_path(rows: Seq<DirRow>, path: Seq<u8>)
    requires
        !has_path(rows, path),
    ensures
        sum_at(rows, path) == 0,
    decreases rows.len(),
{
    if rows.len() > 0 {
        let part = rows.drop_last();
        assert(rows[rows.len() - 1].path@ != path);
        assert(!has_path(part, path)) by {
            if has_path(part, path) {
                let i = choose|i: int| 0 <= i < part.len() && (#[trigger] part[i]).path@ == path;
                assert(rows[i].path@ == path);
            }
        }
        lemma_no_path(part, path);
    }
}

/// The size of every path of the table, if some row has it.
fn sizes_by_path(table: &ByteTable, rows: &Vec<DirRow>) -> (r: Vec<Option<i128>>)
    requires
        table.wf(),
        forall|i: int| 0 <= i < rows@.len() ==> table@.contains(#[trigger] rows@[i].path@),
    ensures
        r@.len() == table@.len(),
        forall|k: int|
            0 <= k < r@.len() ==> match #[trigger] r@[k] {
                Some(n) => has_path(rows@, table@[k]) && n == sum_at(rows@, table@[k]),
                None => !has_path(rows@, table@[k]),
            },
{
    let count = table.len();
    let total_rows = rows.len();
    let mut r: Vec<Option<i128>> = Vec::new();
    let mut k: usize = 0;
    while k < count
        invariant
            count == table@.len(),
            k <= count,
            r@.len() == k,
            forall|j: int| 0 <= j < k ==> #[trigger] r@[j] is None,
        decreases count - k,
    {
        r.push(None);
        k = k + 1;
    }
    let mut i: usize = 0;
    proof {
        table.lemma_distinct();
    }
    while i < total_rows
        invariant
            table.wf(),
            table@.no_duplicates(),
            total_rows == rows@.len(),
            forall|j: int| 0 <= j < rows@.len() ==> table@.contains(#[trigger] rows@[j].path@),
            i <= total_rows,
            r@.len() == table@.len(),
            forall|j: int|
                0 <= j < r@.len() ==> match #[trigger] r@[j] {
                    Some(n) => has_path(rows@.take(i as int), table@[j]) && n == sum_at(rows@.take(i as int), table@[j]),
                    None => !has_path(rows@.take(i as int), table@[j]),
                },
        decreases total_rows - i,
    {
        let ghost part = rows@.take(i as int);
        let ghost more = rows@.take(i + 1);
        let ghost before = r@;
        let row = &rows[i];
        assert(table@.contains(rows@[i as int].path@));
        match table.find(row.path.as_slice()) {
            None => {},
            Some(at) => {
                proof {
                    assert(more.drop_last() =~= part);
                    assert(more.last() == *row);
                    lemma_sum_bound(part, row.path@);
                }
                let sum: i128 = match r[at] {
                    Some(n) => n,
                    None => 0,
                };
                proof {
                    if r@[at as int] is None {
                        lemma_no_path(part, row.path@);
                    }
                    assert(sum == sum_at(part, row.path@));
                }
                r.set(at, Some(sum + row.total_bytes as i128));
                proof {
                    assert forall|j: int| 0 <= j < r@.len() implies match #[trigger] r@[j] {
                        Some(n) => has_path(more, table@[j]) && n == sum_at(more, table@[j]),
                        None => !has_path(more, table@[j]),
                    } by {
                        if j == at {
                            assert(more[i as int].path@ == table@[j]);
                        } else {
                            assert(r@[j] == before[j]);
                            assert(table@[j] != row.path@);
                            assert(has_path(more, table@[j]) == has_path(part, table@[j])) by {
                                if has_path(part, table@[j]) {
                                    let x = choose|x: int| 0 <= x < part.len() && (#[trigger] part[x]).path@ == table@[j];
                                    assert(more[x].path@ == table@[j]);
                                }
                                if has_path(more, table@[j]) {
                                    let x = choose|x: int| 0 <= x < more.len() && (#[trigger] more[x]).path@ == table@[j];
                                    assert(x < i);
                                    assert(part[x].path@ == table@[j]);
                                }
                            }
                        }
                    }
                }
            },
        }
        i = i + 1;
    }
    assert(rows@.take(i as int) =~= rows@);
    r
}

/// The directories that differ between two snapshots.
pub fn changed_dirs(a: &Vec<DirRow>, b: &Vec<DirRow>) -> (r: Vec<PathDelta>)
    requires
        sizes_fit(a@, b@),
    ensures
        delta_views(r@) == deltas(a@, b@),
{
    let mut table = ByteTable::new();
    add_paths(&mut table, a);
    add_paths(&mut table, b);
    let ghost paths = table@;
    proof {
        lemma_with_paths(Seq::empty(), a@);
        lemma_with_paths(with_paths(Seq::empty(), a@), b@);
    }
    let sizes_a = sizes_by_path(&table, a);
    let sizes_b = sizes_by_path(&table, b);
    let n = table.len();
    let ghost make = |p: Seq<u8>| delta_at(a@, b@, p);
    let ghost differs = |d: DeltaView| d.delta != 0;
    let ghost all = paths.map_values(make);
    let mut r: Vec<PathDelta> = Vec::new();
    let mut k: usize = 0;
    proof {
        reveal(Seq::filter);
        assert(all.take(0).filter(differs) =~= Seq::<DeltaView>::empty());
        assert(delta_views(r@) =~= Seq::<DeltaView>::empty());
    }
    while k < n
        invariant
            table.wf(),
            paths == table@,
            n == paths.len(),
            make == (|p: Seq<u8>| delta_at(a@, b@, p)),
            differs == (|d: DeltaView| d.delta != 0),
            all == paths.map_values(make),
            sizes_fit(a@, b@),
            sizes_a@.len() == n,
            sizes_b@.len() == n,
            forall|j: int|
                0 <= j < n ==> match #[trigger] sizes_a@[j] {
                    Some(m) => has_path(a@, paths[j]) && m == sum_at(a@, paths[j]),
                    None => !has_path(a@, paths[j]),
                },
            forall|j: int|
                0 <= j < n ==> match #[trigger] sizes_b@[j] {
                    Some(m) => has_path(b@, paths[j]) && m == sum_at(b@, paths[j]),
                    None => !has_path(b@, paths[j]),
                },
            k <= n,
            delta_views(r@) == all.take(k as int).filter(differs),
        decreases n - k,
    {
        let ghost p = paths[k as int];
        let ghost before = delta_views(r@);
        proof {
            if sizes_a@[k as int] is None {
                lemma_no_path(a@, p);
            }
            if sizes_b@[k as int] is None {
                lemma_no_path(b@, p);
            }
            assert(i64::MIN <= sum_at(a@, p) <= i64::MAX);
            reveal(Seq::filter);
            assert(all.take(k + 1).drop_last() =~= all.take(k as int));
            assert(all.take(k + 1).last() == delta_at(a@, b@, p));
        }
        let (bytes_a, size_a): (Option<i64>, i64) = match sizes_a[k] {
            Some(m) => (Some(m as i64), m as i64),
            None => (None, 0),
        };
        let (bytes_b, size_b): (Option<i64>, i64) = match sizes_b[k] {
            Some(m) => (Some(m as i64), m as i64),
            None => (None, 0),
        };
        let delta: i64 = size_b - size_a;
        if delta != 0 {
            let d = PathDelta { path: table.key(k).clone(), bytes_a, bytes_b, delta_bytes: delta };
            let ghost v = delta_view(d);
            assert(v == delta_at(a@, b@, p));
            r.push(d);
            assert(delta_views(r@) =~= before.push(v));
        }
        k = k + 1;
    }
    assert(all.take(k as int) =~= all);
    r
}

/// Items in the order of their keys.
pub open spec fn arranged<T>(items: Seq<T>, keys: Seq<i128>) -> Seq<T> {
    order_of(keys).map_values(|i: usize| items[i as int])
}

fn copy_delta(d: &PathDelta) -> (r: PathDelta)
    ensures
        delta_view(r) == delta_view(*d),
{
    PathDelta {
        path: d.path.clone(),
        bytes_a: d.bytes_a,
        bytes_b: d.bytes_b,
        delta_bytes: d.delta_bytes,
    }
}

/// The keys that put the largest growth first.
pub open spec fn growth_keys(ds: Seq<DeltaView>) -> Seq<i128> {
    ds.map_values(|d: DeltaView| (-d.delta) as i128)
}

/// The differences from the largest growth to the largest loss, up to `limit` of them.
pub open spec fn by_growth(ds: Seq<DeltaView>, limit: int) -> Seq<DeltaView> {
    at_most(arranged(ds, growth_keys(ds)), limit)
}

/// The differences from the largest growth to the largest loss, up to `limit` of them.
pub fn rank_by_growth(ds: &Vec<PathDelta>, limit: u128) -> (r: Vec<PathDelta>)
    ensures
        delta_views(r@) == by_growth(delta_views(ds@), limit as int),
{
    let ghost all = delta_views(ds@);
    let n = ds.len();
    let mut keys: Vec<i128> = Vec::new();
    let mut i: usize = 0;
    while i < n
        invariant
            n == ds@.len(),
            i <= n,
            keys@.len() == i,
            forall|k: int| 0 <= k < i ==> #[trigger] keys@[k] == -ds@[k].delta_bytes,
        decreases n - i,
    {
        keys.push(-(ds[i].delta_bytes as i128));
        i = i + 1;
    }
    assert(keys@ =~= growth_keys(all));
    let order = stable_order(&keys);
    let mut r: Vec<PathDelta> = Vec::new();
    let mut j: usize = 0;
    let ghost want = arranged(all, keys@);
    assert(want.len() == n);
    while j < n && (j as u128) < limit
        invariant
            n == ds@.len(),
            all == delta_views(ds@),
            is_stable_order(keys@, order@),
            order@ == order_of(keys@),
            keys@.len() == n,
            want == arranged(all, keys@),
            want.len() == n,
            j <= n,
            j <= limit,
            r@.len() == j,
            forall|k: int| 0 <= k < j ==> delta_view(#[trigger] r@[k]) == want[k],
        decreases n - j,
    {
        let at = order[j];
        assert(want[j as int] == all[at as int]);
        r.push(copy_delta(&ds[at]));
        j = j + 1;
    }
    assert(delta_views(r@) =~= at_most(want, limit as int));
    r
}

/// A difference as it is shown.
#[derive(Debug)]
pub struct DiffEntry {
    pub path: String,
    pub bytes_a: Option<i64>,
    pub bytes_b: Option<i64>,
    pub delta_bytes: i64,
}

/// A difference as it is shown.
pub struct EntryView {
    pub path: Seq<char>,
    pub bytes_a: Option<i64>,
    pub bytes_b: Option<i64>,
    pub delta: i64,
}

/// What an entry shows.
pub open spec fn entry_view(e: DiffEntry) -> EntryView {
    EntryView { path: e.path@, bytes_a: e.bytes_a, bytes_b: e.bytes_b, delta: e.delta_bytes }
}

/// What entries show.
pub open spec fn entry_views(es: Seq<DiffEntry>) -> Seq<EntryView> {
    es.map_values(|e: DiffEntry| entry_view(e))
}

/// The differences whose paths are texts, as they are shown.
pub open spec fn shown(ds: Seq<DeltaView>) -> Seq<EntryView>
    decreases ds.len(),
{
    if ds.len() == 0 {
        Seq::empty()
    } else {
        match text_of(ds.last().path) {
            Some(t) => shown(ds.drop_last()).push(
                EntryView {
                    path: t,
                    bytes_a: ds.last().bytes_a,
                    bytes_b: ds.last().bytes_b,
                    delta: ds.last().delta,
                },
            ),
            None => shown(ds.drop_last()),
        }
    }
}

/// Shows the differences whose paths are texts.
pub fn show(ds: &Vec<PathDelta>) -> (r: Vec<DiffEntry>)
    ensures
        entry_views(r@) == shown(delta_views(ds@)),
{
    let ghost all = delta_views(ds@);
    let mut r: Vec<DiffEntry> = Vec::new();
    let mut i: usize = 0;
    assert(all.take(0) =~= Seq::<DeltaView>::empty());
    assert(entry_views(r@) =~= Seq::<EntryView>::empty());
    while i < ds.len()
        invariant
            all == delta_views(ds@),
            i <= ds@.len(),
            entry_views(r@) == shown(all.take(i as int)),
        decreases ds@.len() - i,
    {
        let d = &ds[i];
        let ghost before = entry_views(r@);
        assert(all.take(i + 1).drop_last() =~= all.take(i as int));
        assert(all.take(i + 1).last() == delta_view(*d));
        match utf8_text(d.path.as_slice()) {
            Some(path) => {
                let e = DiffEntry {
                    path,
                    bytes_a: d.bytes_a,
                    bytes_b: d.bytes_b,
                    delta_bytes: d.delta_bytes,
                };
                let ghost v = entry_view(e);
                r.push(e);
                assert(entry_views(r@) =~= before.push(v));
            },
            None => {},
        }
        i = i + 1;
    }
    assert(all.take(i as int) =~= all);
    r
}

/// The size of a change.
pub open spec fn size_of(n: int) -> int {
    if n < 0 {
        -n
    } else {
        n
    }
}

/// The keys that put the largest change first.
pub open spec fn change_keys(es: Seq<EntryView>) -> Seq<i128> {
    es.map_values(|e: EntryView| (-size_of(e.delta as int)) as i128)
}

/// The largest of all changes that are large enough. Of those, twice as many as asked
/// for are looked at, those with the largest growth.
pub open spec fn largest_of(ds: Seq<DeltaView>, top: int, min: int) -> Seq<EntryView> {
    let large = ds.filter(|d: DeltaView| size_of(d.delta as int) >= min);
    let seen = shown(by_growth(large, 2 * top));
    at_most(arranged(seen, change_keys(seen)), top)
}

/// The largest changes between two snapshots.
pub open spec fn diff_entries(a: Seq<DirRow>, b: Seq<DirRow>, top: int, min: int) -> Seq<EntryView> {
    largest_of(deltas(a, b), top, min)
}

/// The growth of all entries together.
pub open spec fn entry_deltas(es: Seq<EntryView>) -> Seq<int> {
    es.map_values(|e: EntryView| e.delta as int)
}

/// A comparison of two snapshots.
#[derive(Debug)]
pub struct DiffResult {
    pub snapshot_a: i64,
    pub snapshot_b: i64,
    pub started_a: i64,
    pub started_b: i64,
    pub entries: Vec<DiffEntry>,
    pub net_change: i64,
}

/// A snapshot to be compared.
pub struct SnapshotRows {
    pub id: i64,
    pub started_at: i64,
    pub rows: Vec<DirRow>,
}

fn large_enough(ds: Vec<PathDelta>, min: i64) -> (r: Vec<PathDelta>)
    ensures
        delta_views(r@) == delta_views(ds@).filter(|d: DeltaView| size_of(d.delta as int) >= min),
{
    let ghost all = delta_views(ds@);
    let ghost pred = |d: DeltaView| size_of(d.delta as int) >= min;
    let mut r: Vec<PathDelta> = Vec::new();
    let mut i: usize = 0;
    proof {
        reveal(Seq::filter);
        assert(all.take(0).filter(pred) =~= Seq::<DeltaView>::empty());
        assert(delta_views(r@) =~= Seq::<DeltaView>::empty());
    }
    while i < ds.len()
        invariant
            all == delta_views(ds@),
            pred == (|d: DeltaView| size_of(d.delta as int) >= min),
            i <= ds@.len(),
            delta_views(r@) == all.take(i as int).filter(pred),
        decreases ds@.len() - i,
    {
        let ghost before = delta_views(r@);
        let d = &ds[i];
        proof {
            reveal(Seq::filter);
            assert(all.take(i + 1).drop_last() =~= all.take(i as int));
            assert(all.take(i + 1).last() == delta_view(*d));
        }
        let wide: i128 = d.delta_bytes as i128;
        let size: i128 = if wide < 0 {
            -wide
        } else {
            wide
        };
        if size >= min as i128 {
            r.push(copy_delta(d));
            assert(delta_views(r@) =~= before.push(delta_view(*d)));
        }
        i = i + 1;
    }
    assert(all.take(i as int) =~= all);
    r
}

fn copy_entry(e: &DiffEntry) -> (r: DiffEntry)
    ensures
        entry_view(r) == entry_view(*e),
{
    DiffEntry {
        path: e.path.clone(),
        bytes_a: e.bytes_a,
        bytes_b: e.bytes_b,
        delta_bytes: e.delta_bytes,
    }
}

fn largest_changes(es: &Vec<DiffEntry>, top: usize) -> (r: Vec<DiffEntry>)
    ensures
        entry_views(r@) == at_most(arranged(entry_views(es@), change_keys(entry_views(es@))), top as int),
        forall|i: int, j: int|
            0 <= i < j < r@.len() ==> size_of((#[trigger] r@[i]).delta_bytes as int) >= size_of(
                (#[trigger] r@[j]).delta_bytes as int,
            ),
{
    let ghost all = entry_views(es@);
    let n = es.len();
    let mut keys: Vec<i128> = Vec::new();
    let mut i: usize = 0;
    while i < n
        invariant
            n == es@.len(),
            i <= n,
            keys@.len() == i,
            forall|k: int| 0 <= k < i ==> #[trigger] keys@[k] == -size_of(es@[k].delta_bytes as int),
        decreases n - i,
    {
        let wide: i128 = es[i].delta_bytes as i128;
        keys.push(
            if wide < 0 {
                wide
            } else {
                -wide
            },
        );
        i = i + 1;
    }
    assert(keys@ =~= change_keys(all));
    let order = stable_order(&keys);
    let ghost want = arranged(all, keys@);
    assert(want.len() == n);
    let mut r: Vec<DiffEntry> = Vec::new();
    let mut j: usize = 0;
    while j < n && j < top
        invariant
            n == es@.len(),
            all == entry_views(es@),
            is_stable_order(keys@, order@),
            order@ == order_of(keys@),
            keys@.len() == n,
            want == arranged(all, keys@),
            want.len() == n,
            j <= n,
            j <= top,
            r@.len() == j,
            forall|k: int| 0 <= k < j ==> entry_view(#[trigger] r@[k]) == want[k],
        decreases n - j,
    {
        let at = order[j];
        assert(want[j as int] == all[at as int]);
        r.push(copy_entry(&es[at]));
        j = j + 1;
    }
    assert(entry_views(r@) =~= at_most(want, top as int));
    assert forall|i: int, j: int| 0 <= i < j < r@.len() implies size_of((#[trigger] r@[i]).delta_bytes as int)
        >= size_of((#[trigger] r@[j]).delta_bytes as int) by {
        assert(before(keys@, order@[i] as int, order@[j] as int));
        assert(entry_view(r@[i]) == all[order@[i] as int]);
        assert(entry_view(r@[j]) == all[order@[j] as int]);
    }
    r
}

proof fn lemma_total_entries(es: Seq<EntryView>)
    ensures
        -0x8000_0000_0000_0000 * es.len() <= total(entry_deltas(es)) <= 0x8000_0000_0000_0000 * es.len(),
    decreases es.len(),
{
    if es.len() > 0 {
        lemma_total_entries(es.drop_last());
        assert(entry_deltas(es).drop_last() =~= entry_deltas(es.drop_last()));
        assert(entry_deltas(es).last() == es.last().delta);
        lemma_total_push(entry_deltas(es.drop_last()), es.last().delta as int);
        assert(entry_deltas(es) =~= entry_deltas(es.drop_last()).push(es.last().delta as int));
    } else {
        assert(entry_deltas(es) =~= Seq::<int>::empty());
    }
}

fn net_change(es: &Vec<DiffEntry>) -> (r: i64)
    requires
        i64::MIN <= total(entry_deltas(entry_views(es@))) <= i64::MAX,
    ensures
        r == total(entry_deltas(entry_views(es@))),
{
    let ghost all = entry_views(es@);
    let n = es.len();
    let mut sum: i128 = 0;
    let mut i: usize = 0;
    assert(entry_deltas(all.take(0)) =~= Seq::<int>::empty());
    while i < n
        invariant
            n == es@.len(),
            all == entry_views(es@),
            i <= n,
            sum == total(entry_deltas(all.take(i as int))),
        decreases n - i,
    {
        proof {
            lemma_total_entries(all.take(i as int));
            assert(all.take(i + 1) =~= all.take(i as int).push(all[i as int]));
            assert(entry_deltas(all.take(i + 1)) =~= entry_deltas(all.take(i as int)).push(all[i as int].delta as int));
            lemma_total_push(entry_deltas(all.take(i as int)), all[i as int].delta as int);
        }
        sum = sum + es[i].delta_bytes as i128;
        i = i + 1;
    }
    assert(all.take(i as int) =~= all);
    sum as i64
}

/// A size, nothing where there is none.
pub open spec fn bytes_or_zero(n: Option<i64>) -> int {
    match n {
        Some(n) => n as int,
        None => 0,
    }
}

/// A difference is that of the two sizes, and there is one.
pub open spec fn is_difference(bytes_a: Option<i64>, bytes_b: Option<i64>, delta: i64) -> bool {
    &&& delta == bytes_or_zero(bytes_b) - bytes_or_zero(bytes_a)
    &&& delta != 0
}

/// All are true differences.
pub open spec fn are_differences(ds: Seq<DeltaView>) -> bool {
    forall|i: int|
        0 <= i < ds.len() ==> is_difference((#[trigger] ds[i]).bytes_a, ds[i].bytes_b, ds[i].delta)
}

proof fn lemma_no_row(rows: Seq<DirRow>, path: Seq<u8>)
    requires
        !has_path(rows, path),
    ensures
        sum_at(rows, path) == 0,
    decreases rows.len(),
{
    if rows.len() > 0 {
        let part = rows.drop_last();
        assert(rows[rows.len() - 1].path@ != path);
        if has_path(part, path) {
            let i = choose|i: int| 0 <= i < part.len() && (#[trigger] part[i]).path@ == path;
            assert(rows[i].path@ == path);
        }
        lemma_no_row(part, path);
    }
}

/// What is listed as changed between two snapshots differs, by the difference of its two
/// sizes.
pub proof fn law_changes(a: Seq<DirRow>, b: Seq<DirRow>)
    requires
        sizes_fit(a, b),
    ensures
        are_differences(deltas(a, b)),
{
    let all = all_paths(a, b).map_values(|p: Seq<u8>| delta_at(a, b, p));
    let pred = |d: DeltaView| d.delta != 0;
    let left = all.filter(pred);
    assert forall|i: int| 0 <= i < left.len() implies is_difference(
        (#[trigger] left[i]).bytes_a,
        left[i].bytes_b,
        left[i].delta,
    ) by {
        all.lemma_filter_pred(pred, i);
        assert(pred(left[i]));
        all.lemma_filter_contains_rev(pred, left[i]);
        let k = choose|k: int| 0 <= k < all.len() && all[k] == left[i];
        let p = all_paths(a, b)[k];
        assert(left[i] == delta_at(a, b, p));
        assert(i64::MIN <= sum_at(a, p) <= i64::MAX);
        assert(i64::MIN <= sum_at(b, p) <= i64::MAX);
        if !has_path(a, p) {
            lemma_no_row(a, p);
        }
        if !has_path(b, p) {
            lemma_no_row(b, p);
        }
    }
}

pub(crate) proof fn lemma_shown(ds: Seq<DeltaView>, i: int) -> (k: int)
    requires
        0 <= i < shown(ds).len(),
    ensures
        0 <= k < ds.len(),
        shown(ds)[i].bytes_a == ds[k].bytes_a,
        shown(ds)[i].bytes_b == ds[k].bytes_b,
        shown(ds)[i].delta == ds[k].delta,
    decreases ds.len(),
{
    let part = ds.drop_last();
    if i < shown(part).len() {
        lemma_shown(part, i)
    } else {
        ds.len() - 1
    }
}

pub(crate) proof fn lemma_shown_len(ds: Seq<DeltaView>)
    ensures
        shown(ds).len() <= ds.len(),
    decreases ds.len(),
{
    if ds.len() > 0 {
        lemma_shown_len(ds.drop_last());
    }
}

/// A comparison has at most `top` entries. Each is a change of at least `min`, and the
/// difference of its two sizes.
pub proof fn law_diff_entries(ds: Seq<DeltaView>, top: int, min: int)
    requires
        are_differences(ds),
        ds.len() <= usize::MAX,
        0 <= top,
    ensures
        largest_of(ds, top, min).len() <= top,
        forall|i: int|
            0 <= i < largest_of(ds, top, min).len() ==> {
                let e = #[trigger] largest_of(ds, top, min)[i];
                &&& size_of(e.delta as int) >= min
                &&& is_difference(e.bytes_a, e.bytes_b, e.delta)
            },
{
    let pred = |d: DeltaView| size_of(d.delta as int) >= min;
    let large = ds.filter(pred);
    ds.lemma_filter_len(pred);
    let ranked = by_growth(large, 2 * top);
    law_order_exists(growth_keys(large));
    assert(order_of(growth_keys(large)).len() == large.len());
    let seen = shown(ranked);
    lemma_shown_len(ranked);
    law_order_exists(change_keys(seen));
    let o = order_of(change_keys(seen));
    let r = largest_of(ds, top, min);
    assert forall|i: int| 0 <= i < r.len() implies ({
        let e = #[trigger] r[i];
        &&& size_of(e.delta as int) >= min
        &&& is_difference(e.bytes_a, e.bytes_b, e.delta)
    }) by {
        assert(o[i] < seen.len());
        assert(r[i] == seen[o[i] as int]);
        let k = lemma_shown(ranked, o[i] as int);
        let at = order_of(growth_keys(large))[k] as int;
        assert(ranked[k] == large[at]);
        ds.lemma_filter_pred(pred, at);
        assert(pred(large[at]));
        ds.lemma_filter_contains_rev(pred, large[at]);
        let j = choose|j: int| 0 <= j < ds.len() && ds[j] == large[at];
        assert(is_difference(ds[j].bytes_a, ds[j].bytes_b, ds[j].delta));
    }
}

/// Compares two snapshots by the changes that were kept of an earlier comparison: the
/// `top` largest of at least `min_delta_bytes`.
pub fn cached_diff(
    snapshot_a: i64,
    snapshot_b: i64,
    started_a: i64,
    started_b: i64,
    changes: Vec<PathDelta>,
    top: usize,
    min_delta_bytes: i64,
) -> (r: DiffResult)
    requires
        i64::MIN <= total(entry_deltas(largest_of(delta_views(changes@), top as int, min_delta_bytes as int)))
            <= i64::MAX,
    ensures
        r.snapshot_a == snapshot_a,
        r.snapshot_b == snapshot_b,
        r.started_a == started_a,
        r.started_b == started_b,
        entry_views(r.entries@) == largest_of(delta_views(changes@), top as int, min_delta_bytes as int),
        r.net_change == total(entry_deltas(entry_views(r.entries@))),
        forall|i: int, j: int|
            0 <= i < j < r.entries@.len() ==> size_of((#[trigger] r.entries@[i]).delta_bytes as int) >= size_of(
                (#[trigger] r.entries@[j]).delta_bytes as int,
            ),
{
    let large = large_enough(changes, min_delta_bytes);
    let ranked = rank_by_growth(&large, top as u128 * 2);
    let seen = show(&ranked);
    let entries = largest_changes(&seen, top);
    let net_change = net_change(&entries);
    DiffResult { snapshot_a, snapshot_b, started_a, started_b, entries, net_change }
}

/// Compares two snapshots: the `top` largest changes of at least `min_delta_bytes`. The
/// changes that [`changed_dirs`] lists can be kept: [`cached_diff`] gives the same.
pub fn compute_diff(a: &SnapshotRows, b: &SnapshotRows, top: usize, min_delta_bytes: i64) -> (r: DiffResult)
    requires
        sizes_fit(a.rows@, b.rows@),
        i64::MIN <= total(entry_deltas(diff_entries(a.rows@, b.rows@, top as int, min_delta_bytes as int)))
            <= i64::MAX,
    ensures
        r.snapshot_a == a.id,
        r.snapshot_b == b.id,
        r.started_a == a.started_at,
        r.started_b == b.started_at,
        entry_views(r.entries@) == diff_entries(a.rows@, b.rows@, top as int, min_delta_bytes as int),
        r.net_change == total(entry_deltas(entry_views(r.entries@))),
        forall|i: int, j: int|
            0 <= i < j < r.entries@.len() ==> size_of((#[trigger] r.entries@[i]).delta_bytes as int) >= size_of(
                (#[trigger] r.entries@[j]).delta_bytes as int,
            ),
        r.entries@.len() <= top,
        forall|i: int|
            0 <= i < r.entries@.len() ==> {
                let e = #[trigger] r.entries@[i];
                &&& size_of(e.delta_bytes as int) >= min_delta_bytes
                &&& is_difference(e.bytes_a, e.bytes_b, e.delta_bytes)
            },
{
    let changes = changed_dirs(&a.rows, &b.rows);
    let ghost ds = delta_views(changes@);
    proof {
        law_changes(a.rows@, b.rows@);
        assert(ds.len() == changes.len());
        law_diff_entries(ds, top as int, min_delta_bytes as int);
    }
    let r = cached_diff(a.id, b.id, a.started_at, b.started_at, changes, top, min_delta_bytes);
    proof {
        let views = entry_views(r.entries@);
        assert forall|i: int| 0 <= i < r.entries@.len() implies ({
            let e = #[trigger] r.entries@[i];
            &&& size_of(e.delta_bytes as int) >= min_delta_bytes
            &&& is_difference(e.bytes_a, e.bytes_b, e.delta_bytes)
        }) by {
            assert(views[i] == entry_view(r.entries@[i]));
            assert(views[i] == largest_of(ds, top as int, min_delta_bytes as int)[i]);
        }
    }
    r
}

/// The changes that were kept of a comparison give the same comparison again.
pub proof fn law_cache_reused(a: Seq<DirRow>, b: Seq<DirRow>, changes: Seq<DeltaView>, top: int, min: int)
    requires
        changes == deltas(a, b),
    ensures
        largest_of(changes, top, min) == diff_entries(a, b, top, min),
{
}

/// A snapshot does not differ from itself.
pub proof fn law_same_snapshot(a: Seq<DirRow>)
    ensures
        deltas(a, a).len() == 0,
{
    let all = all_paths(a, a).map_values(|p: Seq<u8>| delta_at(a, a, p));
    let pred = |d: DeltaView| d.delta != 0;
    let left = all.filter(pred);
    if left.len() > 0 {
        all.lemma_filter_pred(pred, 0);
        all.lemma_filter_contains_rev(pred, left[0]);
        let k = choose|k: int| 0 <= k < all.len() && all[k] == left[0];
        assert(all[k].delta == 0);
    }
}

/// Seen from the second snapshot, every directory differs by as much the other way.
pub proof fn law_swapped(a: Seq<DirRow>, b: Seq<DirRow>, path: Seq<u8>)
    requires
        sizes_fit(a, b),
        sizes_fit(b, a),
    ensures
        delta_at(b, a, path).delta == -delta_at(a, b, path).delta,
        delta_at(b, a, path).bytes_a == delta_at(a, b, path).bytes_b,
        delta_at(b, a, path).bytes_b == delta_at(a, b, path).bytes_a,
{
    assert(i64::MIN <= sum_at(a, path) <= i64::MAX);
    assert(i64::MIN <= sum_at(b, path) <= i64::MAX);
}

} // verus!
