//! What is found among stored records, and what replaying the log does to the facts.

use crate::drain::{changed, is_replay, FactView, PendingMutation, Replay};
use crate::order::{before, law_order_exists, order_of};
use crate::records::{
    changed_sizes, SizeChange,
    begun_at, by_time, change_keys, is_at, is_snapshot, latest_keys, numbers_in, numbers_since,
    recent_numbers, same_event, snapshot_sizes, time_keys, DeltaRecord, FsEventRecord, SizeRow,
    SnapshotRecord,
};
use crate::report::TimelineEntry;
use crate::size_diff::arranged;
use crate::sums::total;
use vstd::prelude::*;
use vstd::utf8::encode_utf8;

verus! {

/// What is arranged is the same, and in the order of the keys.
proof fn lemma_arranged<T>(items: Seq<T>, keys: Seq<i128>)
    requires
        items.len() == keys.len(),
        keys.len() <= usize::MAX,
    ensures
        arranged(items, keys).len() == items.len(),
        forall|x: T| #[trigger] arranged(items, keys).contains(x) <==> items.contains(x),
        forall|i: int|
            0 <= i < items.len() ==> 0 <= order_of(keys)[i] < items.len() && #[trigger] arranged(items, keys)[i]
                == items[order_of(keys)[i] as int],
        forall|i: int, j: int|
            0 <= i < j < items.len() ==> keys[(#[trigger] order_of(keys)[i]) as int] <= keys[(
            #[trigger] order_of(keys)[j]) as int],
{
    law_order_exists(keys);
    let o = order_of(keys);
    let r = arranged(items, keys);
    assert forall|x: T| #[trigger] r.contains(x) <==> items.contains(x) by {
        if r.contains(x) {
            let i = choose|i: int| 0 <= i < r.len() && r[i] == x;
            assert(items[o[i] as int] == x);
        }
        if items.contains(x) {
            let k = choose|k: int| 0 <= k < items.len() && items[k] == x;
            assert(o.contains(k as usize));
            let i = choose|i: int| 0 <= i < o.len() && o[i] == k as usize;
            assert(r[i] == x);
        }
    }
    assert forall|i: int, j: int| 0 <= i < j < items.len() implies keys[(#[trigger] o[i]) as int] <= keys[(
    #[trigger] o[j]) as int] by {
        assert(before(keys, o[i] as int, o[j] as int));
    }
}

proof fn lemma_sizes(snapshots: Seq<SnapshotRecord>, rows: Seq<SizeRow>, path: Seq<char>, e: TimelineEntry)
    ensures
        snapshot_sizes(snapshots, rows, path).len() <= rows.len(),
        snapshot_sizes(snapshots, rows, path).contains(e) <==> exists|i: int|
            0 <= i < rows.len() && is_at((#[trigger] rows[i]).path@, rows[i].path_utf8, path) && begun_at(
                snapshots,
                rows[i].snapshot_id,
            ) == Some(e.timestamp) && rows[i].snapshot_id == e.snapshot_id && rows[i].total_bytes == e.total_bytes,
    decreases rows.len(),
{
    let all = snapshot_sizes(snapshots, rows, path);
    if rows.len() > 0 {
        let part = rows.drop_last();
        let rest = snapshot_sizes(snapshots, part, path);
        let n = rows.len() - 1;
        lemma_sizes(snapshots, part, path, e);
        let fits = |i: int|
            0 <= i < rows.len() && is_at(rows[i].path@, rows[i].path_utf8, path) && begun_at(
                snapshots,
                rows[i].snapshot_id,
            ) == Some(e.timestamp) && rows[i].snapshot_id == e.snapshot_id && rows[i].total_bytes == e.total_bytes;
        if rest.contains(e) {
            let k = choose|k: int| 0 <= k < rest.len() && rest[k] == e;
            assert(all[k] == e);
            let i = choose|i: int|
                0 <= i < part.len() && is_at((#[trigger] part[i]).path@, part[i].path_utf8, path) && begun_at(
                    snapshots,
                    part[i].snapshot_id,
                ) == Some(e.timestamp) && part[i].snapshot_id == e.snapshot_id && part[i].total_bytes == e.total_bytes;
            assert(rows[i] == part[i]);
        }
        if fits(n) {
            assert(all[rest.len() as int] == e);
        }
        if all.contains(e) {
            let k = choose|k: int| 0 <= k < all.len() && all[k] == e;
            if k < rest.len() {
                assert(rest[k] == e);
            } else {
                assert(fits(n));
                assert(rows[n].snapshot_id == e.snapshot_id);
            }
        }
        if exists|i: int| #[trigger] fits(i) {
            let i = choose|i: int| #[trigger] fits(i);
            if i < n {
                assert(part[i] == rows[i]);
                assert(rest.contains(e));
            }
        }
        if exists|i: int|
            0 <= i < rows.len() && is_at((#[trigger] rows[i]).path@, rows[i].path_utf8, path) && begun_at(
                snapshots,
                rows[i].snapshot_id,
            ) == Some(e.timestamp) && rows[i].snapshot_id == e.snapshot_id && rows[i].total_bytes == e.total_bytes {
            let i = choose|i: int|
                0 <= i < rows.len() && is_at((#[trigger] rows[i]).path@, rows[i].path_utf8, path) && begun_at(
                    snapshots,
                    rows[i].snapshot_id,
                ) == Some(e.timestamp) && rows[i].snapshot_id == e.snapshot_id && rows[i].total_bytes == e.total_bytes;
            assert(fits(i));
        }
    }
}

/// The size that a snapshot holds of the directory asked for, by the text or by the bytes of
/// its path, is on the timeline at the moment when the snapshot was begun.
pub proof fn law_snapshot_on_timeline(
    snapshots: Seq<SnapshotRecord>,
    rows: Seq<SizeRow>,
    path: Seq<char>,
    k: int,
    i: int,
)
    requires
        rows.len() <= usize::MAX,
        0 <= k < snapshots.len(),
        forall|a: int, b: int|
            0 <= a < b < snapshots.len() ==> (#[trigger] snapshots[a]).id != (#[trigger] snapshots[b]).id,
        0 <= i < rows.len(),
        rows[i].snapshot_id == snapshots[k].id,
    ensures
        rows[i].path@ == encode_utf8(path) || rows[i].path_utf8 is Some && rows[i].path_utf8->0@ == path ==> by_time(
            snapshot_sizes(snapshots, rows, path),
        ).contains(
            (TimelineEntry {
                snapshot_id: snapshots[k].id,
                timestamp: snapshots[k].started_at,
                total_bytes: rows[i].total_bytes,
            }),
        ),
{
    let id = snapshots[k].id;
    assert(is_snapshot(snapshots, id, k));
    let c = choose|c: int| #[trigger] is_snapshot(snapshots, id, c);
    assert(c == k) by {
        if c < k {
            assert(snapshots[c].id != snapshots[k].id);
        } else if k < c {
            assert(snapshots[k].id != snapshots[c].id);
        }
    }
    let e = TimelineEntry { snapshot_id: id, timestamp: snapshots[k].started_at, total_bytes: rows[i].total_bytes };
    let all = snapshot_sizes(snapshots, rows, path);
    lemma_sizes(snapshots, rows, path, e);
    lemma_arranged(all, time_keys(all));
    if is_at(rows[i].path@, rows[i].path_utf8, path) {
        assert(all.contains(e));
    }
}

/// Every entry of the timeline is a size that a snapshot holds of the directory.
pub proof fn law_timeline_is_stored(
    snapshots: Seq<SnapshotRecord>,
    rows: Seq<SizeRow>,
    path: Seq<char>,
    j: int,
)
    requires
        rows.len() <= usize::MAX,
        0 <= j < by_time(snapshot_sizes(snapshots, rows, path)).len(),
    ensures
        exists|i: int, k: int|
            #![trigger rows[i], snapshots[k]]
            0 <= i < rows.len() && 0 <= k < snapshots.len() && ({
                let e = by_time(snapshot_sizes(snapshots, rows, path))[j];
                &&& rows[i].path@ == encode_utf8(path) || rows[i].path_utf8 is Some && rows[i].path_utf8->0@ == path
                &&& rows[i].snapshot_id == snapshots[k].id
                &&& e.snapshot_id == snapshots[k].id
                &&& e.timestamp == snapshots[k].started_at
                &&& e.total_bytes == rows[i].total_bytes
            }),
{
    let all = snapshot_sizes(snapshots, rows, path);
    let e = by_time(all)[j];
    lemma_sizes(snapshots, rows, path, e);
    lemma_arranged(all, time_keys(all));
    assert(by_time(all).contains(e));
    let i = choose|i: int|
        0 <= i < rows.len() && is_at((#[trigger] rows[i]).path@, rows[i].path_utf8, path) && begun_at(
            snapshots,
            rows[i].snapshot_id,
        ) == Some(e.timestamp) && rows[i].snapshot_id == e.snapshot_id && rows[i].total_bytes == e.total_bytes;
    let k = choose|k: int| #[trigger] is_snapshot(snapshots, rows[i].snapshot_id, k);
    assert(snapshots[k].started_at == e.timestamp && rows[i].snapshot_id == snapshots[k].id);
}

proof fn lemma_numbers_in(rows: Seq<DeltaRecord>, snapshot: i64, k: usize)
    requires
        rows.len() <= usize::MAX,
    ensures
        numbers_in(rows, snapshot).len() <= rows.len(),
        numbers_in(rows, snapshot).contains(k) <==> k < rows.len() && rows[k as int].snapshot_id == snapshot,
    decreases rows.len(),
{
    if rows.len() > 0 {
        let part = rows.drop_last();
        let rest = numbers_in(part, snapshot);
        let all = numbers_in(rows, snapshot);
        let n = rows.len() - 1;
        lemma_numbers_in(part, snapshot, k);
        if rest.contains(k) {
            let i = choose|i: int| 0 <= i < rest.len() && rest[i] == k;
            assert(all[i] == k);
        }
        if k == n && rows[n].snapshot_id == snapshot {
            assert(all[rest.len() as int] == k);
        }
        if all.contains(k) {
            let i = choose|i: int| 0 <= i < all.len() && all[i] == k;
            if i < rest.len() {
                assert(rest[i] == k);
            }
        }
    }
}

/// The changes found in a snapshot are listed, and no others, the largest first whether they
/// add or remove.
pub proof fn law_deltas_of_snapshot(rows: Seq<DeltaRecord>, snapshot: i64, r: Seq<usize>)
    requires
        rows.len() <= usize::MAX,
        r == arranged(numbers_in(rows, snapshot), change_keys(rows, numbers_in(rows, snapshot))),
    ensures
        forall|k: usize| #[trigger] r.contains(k) <==> k < rows.len() && rows[k as int].snapshot_id == snapshot,
        forall|i: int, j: int|
            0 <= i < j < r.len() ==> {
                let x = rows[(#[trigger] r[i]) as int].delta.delta_bytes;
                let y = rows[(#[trigger] r[j]) as int].delta.delta_bytes;
                x >= y && x >= -y || -x >= y && -x >= -y
            },
{
    let numbers = numbers_in(rows, snapshot);
    let keys = change_keys(rows, numbers);
    lemma_numbers_in(rows, snapshot, 0);
    lemma_arranged(numbers, keys);
    assert forall|k: usize| #[trigger] r.contains(k) <==> k < rows.len() && rows[k as int].snapshot_id == snapshot by {
        lemma_numbers_in(rows, snapshot, k);
        assert(r.contains(k) <==> numbers.contains(k));
    }
    assert forall|i: int, j: int| 0 <= i < j < r.len() implies ({
        let x = rows[(#[trigger] r[i]) as int].delta.delta_bytes;
        let y = rows[(#[trigger] r[j]) as int].delta.delta_bytes;
        x >= y && x >= -y || -x >= y && -x >= -y
    }) by {
        let o = order_of(keys);
        assert(keys[o[i] as int] <= keys[o[j] as int]);
        assert(r[i] == numbers[o[i] as int] && r[j] == numbers[o[j] as int]);
    }
}

proof fn lemma_numbers_since(events: Seq<FsEventRecord>, since: i64, k: usize)
    requires
        events.len() <= usize::MAX,
    ensures
        numbers_since(events, since).len() <= events.len(),
        numbers_since(events, since).contains(k) <==> k < events.len() && events[k as int].timestamp >= since,
        numbers_since(events, since).len() == total(
            Seq::new(
                events.len(),
                |i: int|
                    if events[i].timestamp >= since {
                        1
                    } else {
                        0
                    },
            ),
        ),
    decreases events.len(),
{
    let ones = Seq::new(
        events.len(),
        |i: int|
            if events[i].timestamp >= since {
                1int
            } else {
                0
            },
    );
    if events.len() > 0 {
        let part = events.drop_last();
        let rest = numbers_since(part, since);
        let all = numbers_since(events, since);
        let n = events.len() - 1;
        lemma_numbers_since(part, since, k);
        assert(ones.drop_last() =~= Seq::new(
            part.len(),
            |i: int|
                if part[i].timestamp >= since {
                    1
                } else {
                    0
                },
        ));
        if rest.contains(k) {
            let i = choose|i: int| 0 <= i < rest.len() && rest[i] == k;
            assert(all[i] == k);
        }
        if k == n && events[n].timestamp >= since {
            assert(all[rest.len() as int] == k);
        }
        if all.contains(k) {
            let i = choose|i: int| 0 <= i < all.len() && all[i] == k;
            if i < rest.len() {
                assert(rest[i] == k);
            }
        }
    }
}

/// The recent events are events of the moment or later, the latest first; one that is left
/// out is not later than any of them, and there are then as many as asked for. All events of
/// the moment or later are counted.
pub proof fn law_recent_events(events: Seq<FsEventRecord>, since: i64, limit: nat, r: Seq<FsEventRecord>, count: nat, k: int)
    requires
        events.len() <= usize::MAX,
        r.len() == recent_numbers(events, since, limit as int).len(),
        forall|i: int|
            0 <= i < r.len() ==> same_event(
                #[trigger] r[i],
                events[recent_numbers(events, since, limit as int)[i] as int],
            ),
        count == numbers_since(events, since).len(),
        0 <= k < events.len(),
    ensures
        r.len() <= limit,
        forall|i: int| 0 <= i < r.len() ==> (#[trigger] r[i]).timestamp >= since,
        forall|i: int, j: int|
            0 <= i < j < r.len() ==> (#[trigger] r[i]).timestamp >= (#[trigger] r[j]).timestamp,
        events[k].timestamp >= since ==> (exists|i: int|
            0 <= i < r.len() && (#[trigger] r[i]).id == events[k].id && r[i].timestamp == events[k].timestamp && r[i].kind
                == events[k].kind && r[i].path@ == events[k].path@ && r[i].is_dir == events[k].is_dir) || r.len() == limit
            && forall|i: int| 0 <= i < r.len() ==> (#[trigger] r[i]).timestamp >= events[k].timestamp,
        count == total(
            Seq::new(
                events.len(),
                |i: int|
                    if events[i].timestamp >= since {
                        1
                    } else {
                        0
                    },
            ),
        ),
{
    let numbers = numbers_since(events, since);
    let keys = latest_keys(events, numbers);
    lemma_numbers_since(events, since, k as usize);
    lemma_arranged(numbers, keys);
    let all = arranged(numbers, keys);
    let o = order_of(keys);
    let some = recent_numbers(events, since, limit as int);
    assert forall|i: int| 0 <= i < r.len() implies same_event(#[trigger] r[i], events[all[i] as int]) && events[all[i] as int].timestamp
        >= since && all[i] == numbers[o[i] as int] && 0 <= o[i] < numbers.len() by {
        assert(some[i] == all[i]);
        assert(all.contains(all[i]));
        lemma_numbers_since(events, since, all[i]);
    }
    assert forall|i: int, j: int| 0 <= i < j < r.len() implies (#[trigger] r[i]).timestamp >= (
    #[trigger] r[j]).timestamp by {
        assert(same_event(r[i], events[all[i] as int]));
        assert(same_event(r[j], events[all[j] as int]));
        assert(keys[o[i] as int] <= keys[o[j] as int]);
    }
    if events[k].timestamp >= since {
        assert(all.contains(k as usize));
        let at = choose|at: int| 0 <= at < all.len() && all[at] == k as usize;
        if at < r.len() {
            assert(same_event(r[at], events[all[at] as int]));
        } else {
            assert(r.len() == limit);
            assert forall|i: int| 0 <= i < r.len() implies (#[trigger] r[i]).timestamp >= events[k].timestamp by {
                assert(same_event(r[i], events[all[i] as int]));
                assert(keys[o[i] as int] <= keys[o[at] as int]);
                assert(all[at] == numbers[o[at] as int]);
            }
        }
    }
}

/// After the replay of a creation or a modification the file is known as the file system
/// tells, or else with the growth as its size, and directories with none; it keeps the time
/// of its creation where it was known. A renamed file keeps all but its name and its
/// directory.
pub proof fn law_replayed_fact(
    facts: Map<u64, FactView>,
    m: PendingMutation,
    previous_size: u64,
    info: Option<(u64, u32)>,
    r: Replay,
)
    requires
        is_replay(m, previous_size, info, r),
    ensures
        m.kind@ == "Created"@ || m.kind@ == "Modified"@ ==> {
            let after = changed(facts, r.change);
            let f = after[m.file_id];
            &&& after.contains_key(m.file_id)
            &&& f.name == m.name@
            &&& f.parent_file_id == m.parent_file_id
            &&& f.is_directory == m.is_directory
            &&& f.modified_at == m.at@
            &&& f.created_at == (if facts.contains_key(m.file_id) {
                facts[m.file_id].created_at
            } else {
                m.at@
            })
            &&& m.is_directory ==> f.size == 0
            &&& !m.is_directory && info is Some ==> f.size == (info->0).0
            &&& !m.is_directory && info is None && m.size_delta >= 0 ==> f.size == m.size_delta
            &&& !m.is_directory && info is None && m.size_delta < 0 ==> f.size == 0
            &&& info is Some ==> f.attributes == (info->0).1
        },
        m.kind@ == "Renamed"@ && facts.contains_key(m.file_id) ==> {
            let after = changed(facts, r.change);
            let f = after[m.file_id];
            let g = facts[m.file_id];
            &&& after.contains_key(m.file_id)
            &&& f.name == m.name@
            &&& f.parent_file_id == m.parent_file_id
            &&& f.size == g.size
            &&& f.is_directory == g.is_directory
            &&& f.created_at == g.created_at
            &&& f.modified_at == g.modified_at
            &&& f.attributes == g.attributes
        },
        m.kind@ == "Renamed"@ && !facts.contains_key(m.file_id) ==> !changed(facts, r.change).contains_key(m.file_id),
{
    crate::snapshot_diff::lemma_kinds();
}

proof fn lemma_change_sizes(changes: Seq<SizeChange>, path: Seq<char>, e: TimelineEntry)
    ensures
        changed_sizes(changes, path).len() <= changes.len(),
        changed_sizes(changes, path).contains(e) <==> exists|i: int|
            0 <= i < changes.len() && is_at((#[trigger] changes[i]).path@, changes[i].path_utf8, path) && changes[i].recorded_at
                == e.timestamp && changes[i].current_bytes == e.total_bytes && e.snapshot_id == -1,
    decreases changes.len(),
{
    let all = changed_sizes(changes, path);
    if changes.len() > 0 {
        let part = changes.drop_last();
        let rest = changed_sizes(part, path);
        let n = changes.len() - 1;
        lemma_change_sizes(part, path, e);
        if rest.contains(e) {
            let k = choose|k: int| 0 <= k < rest.len() && rest[k] == e;
            assert(all[k] == e);
            let i = choose|i: int|
                0 <= i < part.len() && is_at((#[trigger] part[i]).path@, part[i].path_utf8, path) && part[i].recorded_at
                    == e.timestamp && part[i].current_bytes == e.total_bytes && e.snapshot_id == -1;
            assert(changes[i] == part[i]);
        }
        if all.contains(e) {
            let k = choose|k: int| 0 <= k < all.len() && all[k] == e;
            if k < rest.len() {
                assert(rest[k] == e);
            } else {
                assert(changes[n].recorded_at == e.timestamp);
            }
        }
        if exists|i: int|
            0 <= i < changes.len() && is_at((#[trigger] changes[i]).path@, changes[i].path_utf8, path) && changes[i].recorded_at
                == e.timestamp && changes[i].current_bytes == e.total_bytes && e.snapshot_id == -1 {
            let i = choose|i: int|
                0 <= i < changes.len() && is_at((#[trigger] changes[i]).path@, changes[i].path_utf8, path) && changes[i].recorded_at
                    == e.timestamp && changes[i].current_bytes == e.total_bytes && e.snapshot_id == -1;
            if i < n {
                assert(part[i] == changes[i]);
                assert(rest.contains(e));
            } else {
                assert(all[rest.len() as int] == e);
            }
        }
    }
}

/// A recorded change of the directory asked for is on the timeline of changes with the size
/// that it led to, and belongs to no snapshot.
pub proof fn law_change_on_timeline(changes: Seq<SizeChange>, path: Seq<char>, i: int)
    requires
        changes.len() <= usize::MAX,
        0 <= i < changes.len(),
    ensures
        changes[i].path@ == encode_utf8(path) || changes[i].path_utf8 is Some && changes[i].path_utf8->0@ == path
            ==> by_time(changed_sizes(changes, path)).contains(
            (TimelineEntry {
                snapshot_id: (-1) as i64,
                timestamp: changes[i].recorded_at,
                total_bytes: changes[i].current_bytes,
            }),
        ),
{
    let e = TimelineEntry {
        snapshot_id: (-1) as i64,
        timestamp: changes[i].recorded_at,
        total_bytes: changes[i].current_bytes,
    };
    let all = changed_sizes(changes, path);
    lemma_change_sizes(changes, path, e);
    lemma_arranged(all, time_keys(all));
    if is_at(changes[i].path@, changes[i].path_utf8, path) {
        assert(all.contains(e));
    }
}

} // verus!
