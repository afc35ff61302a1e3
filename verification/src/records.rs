//! What is looked up among stored records: snapshots, sizes over time, events, and how far
//! watching has come.

use crate::events::FsEventKind;
use crate::history::at_most;
use crate::order::{before, is_stable_order, law_order_exists, order_of, stable_order};
use crate::report::TimelineEntry;
use crate::size_diff::arranged;
use crate::store::DeltaRow;
use crate::text::{bytes_eq, opt_text, str_eq};
use vstd::math::abs;
use vstd::prelude::*;
use vstd::utf8::encode_utf8;

verus! {

/// A snapshot as it is stored.
#[derive(Debug)]
pub struct SnapshotRecord {
    pub id: i64,
    pub scan_root: String,
    pub started_at: i64,
    pub finished_at: i64,
    pub total_files: i64,
    pub total_bytes: i64,
    pub error_count: i64,
    pub host: String,
}

/// The snapshot is one of a root.
pub open spec fn is_of_root(s: SnapshotRecord, root: Seq<char>) -> bool {
    s.scan_root@ == root
}

/// The latest snapshot of a root: the one with the highest number.
pub fn get_latest_snapshot_for_root(snapshots: &Vec<SnapshotRecord>, root: &str) -> (r: Option<i64>)
    ensures
        match r {
            Some(id) => {
                &&& exists|i: int|
                    0 <= i < snapshots@.len() && is_of_root(#[trigger] snapshots@[i], root@) && snapshots@[i].id == id
                &&& forall|i: int|
                    0 <= i < snapshots@.len() && is_of_root(#[trigger] snapshots@[i], root@) ==> snapshots@[i].id <= id
            },
            None => forall|i: int| 0 <= i < snapshots@.len() ==> !is_of_root(#[trigger] snapshots@[i], root@),
        },
{
    let mut best: Option<i64> = None;
    let mut i: usize = 0;
    while i < snapshots.len()
        invariant
            i <= snapshots@.len(),
            match best {
                Some(id) => {
                    &&& exists|k: int|
                        0 <= k < i && is_of_root(#[trigger] snapshots@[k], root@) && snapshots@[k].id == id
                    &&& forall|k: int|
                        0 <= k < i && is_of_root(#[trigger] snapshots@[k], root@) ==> snapshots@[k].id <= id
                },
                None => forall|k: int| 0 <= k < i ==> !is_of_root(#[trigger] snapshots@[k], root@),
            },
        decreases snapshots@.len() - i,
    {
        let s = &snapshots[i];
        if str_eq(s.scan_root.as_str(), root) {
            assert(is_of_root(snapshots@[i as int], root@));
            let higher = match best {
                Some(id) => s.id > id,
                None => true,
            };
            if higher {
                best = Some(s.id);
            }
        }
        i = i + 1;
    }
    best
}

/// The first snapshot of a number stands at `k`.
pub open spec fn is_snapshot(snapshots: Seq<SnapshotRecord>, id: i64, k: int) -> bool {
    &&& 0 <= k < snapshots.len()
    &&& snapshots[k].id == id
    &&& forall|j: int| 0 <= j < k ==> (#[trigger] snapshots[j]).id != id
}

/// The snapshot of a number, by its place in the list.
pub fn get_snapshot(snapshots: &Vec<SnapshotRecord>, id: i64) -> (r: Option<usize>)
    ensures
        match r {
            Some(k) => is_snapshot(snapshots@, id, k as int),
            None => forall|k: int| 0 <= k < snapshots@.len() ==> (#[trigger] snapshots@[k]).id != id,
        },
{
    let mut k: usize = 0;
    while k < snapshots.len()
        invariant
            k <= snapshots@.len(),
            forall|j: int| 0 <= j < k ==> (#[trigger] snapshots@[j]).id != id,
        decreases snapshots@.len() - k,
    {
        if snapshots[k].id == id {
            return Some(k);
        }
        k = k + 1;
    }
    None
}

/// The size of a directory in a snapshot.
pub struct SizeRow {
    pub snapshot_id: i64,
    pub path: Vec<u8>,
    pub path_utf8: Option<String>,
    pub total_bytes: i64,
}

/// What stands for a snapshot where there is none.
pub const NO_SNAPSHOT: i64 = -1;

/// The size of a directory when it changed.
pub struct SizeChange {
    pub path: Vec<u8>,
    pub path_utf8: Option<String>,
    pub current_bytes: i64,
    pub recorded_at: i64,
}

/// A stored path is the one asked for, by its text or by its bytes.
pub open spec fn is_at(path: Seq<u8>, path_utf8: Option<String>, wanted: Seq<char>) -> bool {
    opt_text(path_utf8) == Some(wanted) || path == encode_utf8(wanted)
}

fn lies_at(path: &Vec<u8>, path_utf8: &Option<String>, wanted: &str) -> (r: bool)
    ensures
        r == is_at(path@, *path_utf8, wanted@),
{
    let by_text = match path_utf8 {
        Some(s) => str_eq(s.as_str(), wanted),
        None => false,
    };
    by_text || bytes_eq(path.as_slice(), wanted.as_bytes())
}

/// When a snapshot was begun, if there is one of that number.
pub open spec fn begun_at(snapshots: Seq<SnapshotRecord>, id: i64) -> Option<i64> {
    if exists|k: int| #[trigger] is_snapshot(snapshots, id, k) {
        Some(snapshots[choose|k: int| #[trigger] is_snapshot(snapshots, id, k)].started_at)
    } else {
        None
    }
}

fn begin_of(snapshots: &Vec<SnapshotRecord>, id: i64) -> (r: Option<i64>)
    ensures
        r == begun_at(snapshots@, id),
{
    match get_snapshot(snapshots, id) {
        Some(k) => {
            proof {
                assert(is_snapshot(snapshots@, id, k as int));
                let c = choose|c: int| #[trigger] is_snapshot(snapshots@, id, c);
                if c < k {
                    assert(snapshots@[c].id != id);
                } else if k < c {
                    assert(snapshots@[k as int].id != id);
                }
            }
            Some(snapshots[k].started_at)
        },
        None => None,
    }
}

/// The sizes of a directory in all snapshots, in the order of the rows.
pub open spec fn snapshot_sizes(snapshots: Seq<SnapshotRecord>, rows: Seq<SizeRow>, path: Seq<char>) -> Seq<TimelineEntry>
    decreases rows.len(),
{
    if rows.len() == 0 {
        Seq::empty()
    } else {
        let rest = snapshot_sizes(snapshots, rows.drop_last(), path);
        let row = rows.last();
        if is_at(row.path@, row.path_utf8, path) && begun_at(snapshots, row.snapshot_id) is Some {
            rest.push(
                TimelineEntry {
                    snapshot_id: row.snapshot_id,
                    timestamp: begun_at(snapshots, row.snapshot_id)->0,
                    total_bytes: row.total_bytes,
                },
            )
        } else {
            rest
        }
    }
}

/// The sizes of a directory when it changed, in the order of the records. They belong to no
/// snapshot.
pub open spec fn changed_sizes(changes: Seq<SizeChange>, path: Seq<char>) -> Seq<TimelineEntry>
    decreases changes.len(),
{
    if changes.len() == 0 {
        Seq::empty()
    } else {
        let rest = changed_sizes(changes.drop_last(), path);
        let c = changes.last();
        if is_at(c.path@, c.path_utf8, path) {
            rest.push(TimelineEntry { snapshot_id: NO_SNAPSHOT, timestamp: c.recorded_at, total_bytes: c.current_bytes })
        } else {
            rest
        }
    }
}

/// The keys that put the earliest entry first.
pub open spec fn time_keys(entries: Seq<TimelineEntry>) -> Seq<i128> {
    Seq::new(entries.len(), |i: int| entries[i].timestamp as i128)
}

/// Entries by time, the earliest first; entries of the same time keep their order.
pub open spec fn by_time(entries: Seq<TimelineEntry>) -> Seq<TimelineEntry> {
    arranged(entries, time_keys(entries))
}

fn earliest_first(entries: Vec<TimelineEntry>) -> (r: Vec<TimelineEntry>)
    ensures
        r@ == by_time(entries@),
{
    let n = entries.len();
    let mut keys: Vec<i128> = Vec::new();
    let mut i: usize = 0;
    while i < n
        invariant
            n == entries@.len(),
            i <= n,
            keys@ =~= time_keys(entries@).take(i as int),
        decreases n - i,
    {
        keys.push(entries[i].timestamp as i128);
        i = i + 1;
    }
    assert(keys@ =~= time_keys(entries@));
    let order = stable_order(&keys);
    let mut r: Vec<TimelineEntry> = Vec::new();
    let mut j: usize = 0;
    while j < n
        invariant
            n == entries@.len(),
            keys@ == time_keys(entries@),
            is_stable_order(keys@, order@),
            order@ == order_of(keys@),
            j <= n,
            r@ =~= by_time(entries@).take(j as int),
        decreases n - j,
    {
        r.push(entries[order[j]]);
        j = j + 1;
    }
    r
}

/// The size of a directory in all snapshots, the earliest first.
pub fn query_timeline(snapshots: &Vec<SnapshotRecord>, rows: &Vec<SizeRow>, path: &str) -> (r: Vec<TimelineEntry>)
    ensures
        r@ == by_time(snapshot_sizes(snapshots@, rows@, path@)),
{
    let ghost all = rows@;
    let mut found: Vec<TimelineEntry> = Vec::new();
    let mut i: usize = 0;
    assert(all.take(0) =~= Seq::<SizeRow>::empty());
    while i < rows.len()
        invariant
            all == rows@,
            i <= all.len(),
            found@ == snapshot_sizes(snapshots@, all.take(i as int), path@),
        decreases all.len() - i,
    {
        proof {
            assert(all.take(i + 1).drop_last() =~= all.take(i as int));
            assert(all.take(i + 1).last() == all[i as int]);
        }
        let row = &rows[i];
        if lies_at(&row.path, &row.path_utf8, path) {
            if let Some(timestamp) = begin_of(snapshots, row.snapshot_id) {
                found.push(
                    TimelineEntry { snapshot_id: row.snapshot_id, timestamp, total_bytes: row.total_bytes },
                );
            }
        }
        i = i + 1;
    }
    assert(all.take(i as int) =~= all);
    earliest_first(found)
}

/// The size of a directory by its recorded changes, the earliest first.
pub fn query_timeline_from_deltas(changes: &Vec<SizeChange>, path: &str) -> (r: Vec<TimelineEntry>)
    ensures
        r@ == by_time(changed_sizes(changes@, path@)),
{
    let ghost all = changes@;
    let mut found: Vec<TimelineEntry> = Vec::new();
    let mut i: usize = 0;
    assert(all.take(0) =~= Seq::<SizeChange>::empty());
    while i < changes.len()
        invariant
            all == changes@,
            i <= all.len(),
            found@ == changed_sizes(all.take(i as int), path@),
        decreases all.len() - i,
    {
        proof {
            assert(all.take(i + 1).drop_last() =~= all.take(i as int));
            assert(all.take(i + 1).last() == all[i as int]);
        }
        let c = &changes[i];
        if lies_at(&c.path, &c.path_utf8, path) {
            found.push(
                TimelineEntry { snapshot_id: NO_SNAPSHOT, timestamp: c.recorded_at, total_bytes: c.current_bytes },
            );
        }
        i = i + 1;
    }
    assert(all.take(i as int) =~= all);
    earliest_first(found)
}

/// The history of a directory's size: by the snapshots, or by the recorded changes where no
/// snapshot holds it.
pub fn timeline(snapshots: &Vec<SnapshotRecord>, rows: &Vec<SizeRow>, changes: &Vec<SizeChange>, path: &str) -> (r: Vec<
    TimelineEntry,
>)
    ensures
        r@ == (if by_time(snapshot_sizes(snapshots@, rows@, path@)).len() > 0 {
            by_time(snapshot_sizes(snapshots@, rows@, path@))
        } else {
            by_time(changed_sizes(changes@, path@))
        }),
{
    let entries = query_timeline(snapshots, rows, path);
    if entries.len() > 0 {
        entries
    } else {
        query_timeline_from_deltas(changes, path)
    }
}

/// A timeline is in the order of time.
pub proof fn law_timeline_ordered(entries: Seq<TimelineEntry>, i: int, j: int)
    requires
        entries.len() <= usize::MAX,
        0 <= i < j < by_time(entries).len(),
    ensures
        by_time(entries)[i].timestamp <= by_time(entries)[j].timestamp,
{
    let keys = time_keys(entries);
    law_order_exists(keys);
    let o = order_of(keys);
    assert(before(keys, o[i] as int, o[j] as int));
}

/// A change of a directory's size, and the snapshot that it was found in.
pub struct DeltaRecord {
    pub snapshot_id: i64,
    pub delta: DeltaRow,
}

/// The numbers of the changes found in a snapshot.
pub open spec fn numbers_in(rows: Seq<DeltaRecord>, snapshot: i64) -> Seq<usize>
    decreases rows.len(),
{
    if rows.len() == 0 {
        Seq::empty()
    } else {
        let rest = numbers_in(rows.drop_last(), snapshot);
        if rows.last().snapshot_id == snapshot {
            rest.push((rows.len() - 1) as usize)
        } else {
            rest
        }
    }
}

/// The keys that put the largest change first.
pub open spec fn change_keys(rows: Seq<DeltaRecord>, numbers: Seq<usize>) -> Seq<i128> {
    Seq::new(numbers.len(), |i: int| (-abs(rows[numbers[i] as int].delta.delta_bytes as int)) as i128)
}

/// The change was found in the snapshot, and its magnitude is out of range.
pub open spec fn is_out_of_range(row: DeltaRecord, snapshot: i64) -> bool {
    row.snapshot_id == snapshot && row.delta.delta_bytes == i64::MIN
}

/// The changes found in a snapshot by their places in the list, the largest first whether
/// they add or remove. There is no answer where a magnitude is out of range.
pub fn get_deltas_for_snapshot(rows: &Vec<DeltaRecord>, snapshot_id: i64) -> (r: Option<Vec<usize>>)
    ensures
        match r {
            Some(r) => {
                &&& r@ == arranged(
                    numbers_in(rows@, snapshot_id),
                    change_keys(rows@, numbers_in(rows@, snapshot_id)),
                )
                &&& forall|k: int| 0 <= k < r@.len() ==> #[trigger] r@[k] < rows@.len()
                &&& forall|k: int|
                    0 <= k < rows@.len() ==> !is_out_of_range(#[trigger] rows@[k], snapshot_id)
            },
            None => exists|k: int|
                0 <= k < rows@.len() && is_out_of_range(#[trigger] rows@[k], snapshot_id),
        },
{
    let ghost all = rows@;
    let mut numbers: Vec<usize> = Vec::new();
    let mut keys: Vec<i128> = Vec::new();
    let mut i: usize = 0;
    assert(all.take(0) =~= Seq::<DeltaRecord>::empty());
    while i < rows.len()
        invariant
            all == rows@,
            i <= all.len(),
            numbers@ == numbers_in(all.take(i as int), snapshot_id),
            forall|k: int| 0 <= k < numbers@.len() ==> #[trigger] numbers@[k] < i,
            keys@ =~= change_keys(all, numbers@),
            forall|k: int| 0 <= k < i ==> !is_out_of_range(#[trigger] all[k], snapshot_id),
        decreases all.len() - i,
    {
        proof {
            assert(all.take(i + 1).drop_last() =~= all.take(i as int));
            assert(all.take(i + 1).last() == all[i as int]);
        }
        let row = &rows[i];
        if row.snapshot_id == snapshot_id {
            if row.delta.delta_bytes == i64::MIN {
                assert(is_out_of_range(all[i as int], snapshot_id));
                return None;
            }
            let d = row.delta.delta_bytes as i128;
            numbers.push(i);
            keys.push(
                if d < 0 {
                    d
                } else {
                    -d
                },
            );
        }
        i = i + 1;
    }
    assert(all.take(i as int) =~= all);
    let order = stable_order(&keys);
    let n = numbers.len();
    let mut r: Vec<usize> = Vec::new();
    let mut j: usize = 0;
    while j < n
        invariant
            n == numbers@.len(),
            n == keys@.len(),
            is_stable_order(keys@, order@),
            order@ == order_of(keys@),
            forall|k: int| 0 <= k < numbers@.len() ==> #[trigger] numbers@[k] < all.len(),
            j <= n,
            r@ =~= arranged(numbers@, keys@).take(j as int),
            forall|k: int| 0 <= k < r@.len() ==> #[trigger] r@[k] < all.len(),
        decreases n - j,
    {
        r.push(numbers[order[j]]);
        j = j + 1;
    }
    Some(r)
}

/// An event as it is stored.
#[derive(Debug)]
pub struct FsEventRecord {
    pub id: i64,
    pub timestamp: i64,
    pub kind: FsEventKind,
    pub path: Vec<u8>,
    pub is_dir: bool,
}

/// The same event.
pub open spec fn same_event(a: FsEventRecord, b: FsEventRecord) -> bool {
    &&& a.id == b.id
    &&& a.timestamp == b.timestamp
    &&& a.kind == b.kind
    &&& a.path@ == b.path@
    &&& a.is_dir == b.is_dir
}

/// The numbers of the events of a moment or later.
pub open spec fn numbers_since(events: Seq<FsEventRecord>, since: i64) -> Seq<usize>
    decreases events.len(),
{
    if events.len() == 0 {
        Seq::empty()
    } else {
        let rest = numbers_since(events.drop_last(), since);
        if events.last().timestamp >= since {
            rest.push((events.len() - 1) as usize)
        } else {
            rest
        }
    }
}

fn find_since(events: &Vec<FsEventRecord>, since: i64) -> (r: Vec<usize>)
    ensures
        r@ == numbers_since(events@, since),
        forall|k: int| 0 <= k < r@.len() ==> #[trigger] r@[k] < events@.len(),
{
    let ghost all = events@;
    let mut r: Vec<usize> = Vec::new();
    let mut i: usize = 0;
    assert(all.take(0) =~= Seq::<FsEventRecord>::empty());
    while i < events.len()
        invariant
            all == events@,
            i <= all.len(),
            r@ == numbers_since(all.take(i as int), since),
            forall|k: int| 0 <= k < r@.len() ==> #[trigger] r@[k] < i,
        decreases all.len() - i,
    {
        proof {
            assert(all.take(i + 1).drop_last() =~= all.take(i as int));
            assert(all.take(i + 1).last() == all[i as int]);
        }
        if events[i].timestamp >= since {
            r.push(i);
        }
        i = i + 1;
    }
    assert(all.take(i as int) =~= all);
    r
}

/// The keys that put the latest event first.
pub open spec fn latest_keys(events: Seq<FsEventRecord>, numbers: Seq<usize>) -> Seq<i128> {
    Seq::new(numbers.len(), |i: int| (-(events[numbers[i] as int].timestamp as int)) as i128)
}

/// The numbers of the latest events of a moment or later, the latest first and up to `limit`
/// of them.
pub open spec fn recent_numbers(events: Seq<FsEventRecord>, since: i64, limit: int) -> Seq<usize> {
    let numbers = numbers_since(events, since);
    at_most(arranged(numbers, latest_keys(events, numbers)), limit)
}

/// The latest events of a moment or later, the latest first and up to `limit` of them.
pub fn get_recent_events(events: &Vec<FsEventRecord>, since_ts: i64, limit: usize) -> (r: Vec<FsEventRecord>)
    ensures
        r@.len() == recent_numbers(events@, since_ts, limit as int).len(),
        forall|k: int|
            0 <= k < r@.len() ==> same_event(
                #[trigger] r@[k],
                events@[recent_numbers(events@, since_ts, limit as int)[k] as int],
            ),
{
    let numbers = find_since(events, since_ts);
    let n = numbers.len();
    let mut keys: Vec<i128> = Vec::new();
    let mut i: usize = 0;
    while i < n
        invariant
            n == numbers@.len(),
            forall|k: int| 0 <= k < n ==> #[trigger] numbers@[k] < events@.len(),
            i <= n,
            keys@ =~= latest_keys(events@, numbers@).take(i as int),
        decreases n - i,
    {
        keys.push(-(events[numbers[i]].timestamp as i128));
        i = i + 1;
    }
    assert(keys@ =~= latest_keys(events@, numbers@));
    let order = stable_order(&keys);
    let ghost want = arranged(numbers@, keys@);
    assert(want.len() == n);
    let mut r: Vec<FsEventRecord> = Vec::new();
    let mut j: usize = 0;
    while j < n && j < limit
        invariant
            n == numbers@.len(),
            forall|k: int| 0 <= k < n ==> #[trigger] numbers@[k] < events@.len(),
            keys@.len() == n,
            is_stable_order(keys@, order@),
            order@ == order_of(keys@),
            want == arranged(numbers@, keys@),
            want.len() == n,
            j <= n,
            j <= limit,
            r@.len() == j,
            forall|k: int| 0 <= k < j ==> same_event(#[trigger] r@[k], events@[want[k] as int]),
        decreases n - j,
    {
        let e = &events[numbers[order[j]]];
        assert(want[j as int] == numbers@[order@[j as int] as int]);
        r.push(
            FsEventRecord {
                id: e.id,
                timestamp: e.timestamp,
                kind: e.kind,
                path: vstd::slice::slice_to_vec(e.path.as_slice()),
                is_dir: e.is_dir,
            },
        );
        j = j + 1;
    }
    r
}

/// How many events there are of a moment or later.
pub fn get_event_count_since(events: &Vec<FsEventRecord>, since_ts: i64) -> (n: usize)
    ensures
        n == numbers_since(events@, since_ts).len(),
{
    find_since(events, since_ts).len()
}

/// How far watching has come.
#[derive(Debug)]
pub struct WatchState {
    pub watch_root: Vec<u8>,
    pub last_event_time: Option<i64>,
    pub last_reconcile_time: Option<i64>,
    pub last_snapshot_id: Option<i64>,
}

/// The state before anything was watched.
pub open spec fn is_unwatched(s: WatchState) -> bool {
    s.watch_root@.len() == 0 && s.last_event_time is None && s.last_reconcile_time is None && s.last_snapshot_id is None
}

fn or_unwatched(state: Option<WatchState>) -> (s: WatchState)
    ensures
        match state {
            Some(before) => s == before,
            None => is_unwatched(s),
        },
{
    match state {
        Some(before) => before,
        None => WatchState {
            watch_root: Vec::new(),
            last_event_time: None,
            last_reconcile_time: None,
            last_snapshot_id: None,
        },
    }
}

/// Notes when the last event came, and leaves the rest.
pub fn touch_event_time(state: Option<WatchState>, ts: i64) -> (s: WatchState)
    ensures
        s.last_event_time == Some(ts),
        match state {
            Some(before) => s == (WatchState { last_event_time: Some(ts), ..before }),
            None => is_unwatched(WatchState { last_event_time: None, ..s }),
        },
{
    let mut s = or_unwatched(state);
    s.last_event_time = Some(ts);
    s
}

/// Notes when the last reconciliation was, and leaves the rest.
pub fn touch_reconcile_time(state: Option<WatchState>, ts: i64) -> (s: WatchState)
    ensures
        s.last_reconcile_time == Some(ts),
        match state {
            Some(before) => s == (WatchState { last_reconcile_time: Some(ts), ..before }),
            None => is_unwatched(WatchState { last_reconcile_time: None, ..s }),
        },
{
    let mut s = or_unwatched(state);
    s.last_reconcile_time = Some(ts);
    s
}

} // verus!
