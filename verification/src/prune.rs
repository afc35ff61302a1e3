//! Which snapshots are pruned.

use crate::decimal::{integer_text, signed_decimal};
use crate::store::{goes_back_in_range, parse_relative_duration, seconds_back, SnapshotTime};
use crate::sums::total;
use crate::text::{join, joined, views};
use std::collections::HashSet;
use vstd::prelude::*;

verus! {

/// What would be deleted.
#[derive(Debug)]
pub struct PrunePreview {
    pub snapshot_ids: Vec<i64>,
    pub snapshot_count: usize,
    pub dir_row_count: i64,
    pub delta_row_count: i64,
    pub event_row_count: i64,
    pub freed_bytes_approx: i64,
}

/// What was deleted.
#[derive(Debug)]
pub struct PruneResult {
    pub deleted_snapshots: Vec<i64>,
    pub deleted_snapshot_count: usize,
    pub deleted_dir_rows: i64,
    pub deleted_delta_rows: i64,
    pub deleted_event_rows: i64,
    pub freed_bytes_approx: i64,
    pub dry_run: bool,
}

/// How many snapshots are kept in any case: one at least.
pub open spec fn kept_count(keep_last: Option<usize>) -> int {
    match keep_last {
        Some(n) => if n >= 1 {
            n as int
        } else {
            1
        },
        None => 1,
    }
}

/// The snapshot is one of those that are kept in any case, the newest ones.
pub open spec fn is_kept(snapshots: Seq<SnapshotTime>, keep: int, id: i64) -> bool {
    exists|i: int| 0 <= i < keep && i < snapshots.len() && (#[trigger] snapshots[i]).id == id
}

/// The moment before which a snapshot must have been begun to be pruned.
pub open spec fn cutoff_of(older_than: Option<Seq<char>>, now: int) -> Option<int> {
    match older_than {
        Some(s) => match seconds_back(s) {
            Some(back) => Some(now - back),
            None => None,
        },
        None => None,
    }
}

/// The snapshot is pruned.
pub open spec fn is_candidate(snapshots: Seq<SnapshotTime>, keep: int, cutoff: Option<int>, s: SnapshotTime) -> bool {
    !is_kept(snapshots, keep, s.id) && (cutoff is Some ==> s.started_at < cutoff->0)
}

/// The snapshots that are pruned, the newest first.
pub open spec fn candidates(snapshots: Seq<SnapshotTime>, keep: int, cutoff: Option<int>) -> Seq<i64> {
    snapshots.filter(|s: SnapshotTime| is_candidate(snapshots, keep, cutoff, s)).map_values(|s: SnapshotTime| s.id)
}

/// Tells which snapshots are pruned, of a list with the newest one first: none of the
/// newest ones, and only those that are older than asked for. The newest snapshot is
/// always kept.
pub fn resolve_prune_candidates(snapshots: &Vec<SnapshotTime>, keep_last: Option<usize>, older_than: Option<&str>, now: i64) -> (r: Vec<i64>)
    requires
        older_than is Some ==> goes_back_in_range(older_than->0@, now as int),
    ensures
        r@ == candidates(
            snapshots@,
            kept_count(keep_last),
            cutoff_of(
                match older_than {
                    Some(s) => Some(s@),
                    None => None,
                },
                now as int,
            ),
        ),
{
    let keep: usize = match keep_last {
        Some(n) => if n >= 1 {
            n
        } else {
            1
        },
        None => 1,
    };
    let cutoff: Option<i64> = match older_than {
        Some(s) => parse_relative_duration(s, now),
        None => None,
    };
    let ghost all = snapshots@;
    let ghost limit: Option<int> = match cutoff {
        Some(c) => Some(c as int),
        None => None,
    };
    let kept = kept_ids(snapshots, keep);
    let ghost pred = |s: SnapshotTime| is_candidate(all, keep as int, limit, s);
    let ghost get = |s: SnapshotTime| s.id;
    let mut r: Vec<i64> = Vec::new();
    let mut i: usize = 0;
    proof {
        reveal(Seq::filter);
        assert(all.take(0).filter(pred) =~= Seq::<SnapshotTime>::empty());
        assert(r@ =~= all.take(0).filter(pred).map_values(get));
    }
    while i < snapshots.len()
        invariant
            all == snapshots@,
            limit == (match cutoff {
                Some(c) => Some(c as int),
                None => None,
            }),
            pred == (|s: SnapshotTime| is_candidate(all, keep as int, limit, s)),
            get == (|s: SnapshotTime| s.id),
            forall|id: i64| #[trigger] kept@.contains(id) <==> is_kept(all, keep as int, id),
            i <= all.len(),
            r@ == all.take(i as int).filter(pred).map_values(get),
        decreases all.len() - i,
    {
        let s = snapshots[i];
        let ghost before = all.take(i as int).filter(pred);
        proof {
            reveal(Seq::filter);
            assert(all.take(i + 1).drop_last() =~= all.take(i as int));
            assert(all.take(i + 1).last() == s);
        }
        let old_enough = match cutoff {
            Some(c) => s.started_at < c,
            None => true,
        };
        if !kept.contains(&s.id) && old_enough {
            r.push(s.id);
            assert(pred(s));
            assert(before.push(s).map_values(get) =~= before.map_values(get).push(s.id));
        } else {
            assert(!pred(s));
        }
        i = i + 1;
    }
    assert(all.take(i as int) =~= all);
    r
}

fn kept_ids(snapshots: &Vec<SnapshotTime>, keep: usize) -> (kept: HashSet<i64>)
    ensures
        forall|id: i64| #[trigger] kept@.contains(id) <==> is_kept(snapshots@, keep as int, id),
{
    let ghost all = snapshots@;
    let mut kept: HashSet<i64> = HashSet::new();
    let mut i: usize = 0;
    while i < snapshots.len() && i < keep
        invariant
            all == snapshots@,
            i <= all.len(),
            i <= keep,
            forall|id: i64| #[trigger] kept@.contains(id) <==> is_kept(all, i as int, id),
        decreases all.len() - i,
    {
        let ghost before = kept@;
        let id = snapshots[i].id;
        kept.insert(id);
        proof {
            assert forall|x: i64| #[trigger] kept@.contains(x) <==> is_kept(all, i + 1, x) by {
                if before.contains(x) {
                    let k = choose|k: int| 0 <= k < i && k < all.len() && (#[trigger] all[k]).id == x;
                    assert(all[k].id == x);
                }
                if x == id {
                    assert(all[i as int].id == x);
                }
                if is_kept(all, i + 1, x) {
                    let k = choose|k: int| 0 <= k < i + 1 && k < all.len() && (#[trigger] all[k]).id == x;
                    if k < i {
                        assert(is_kept(all, i as int, x));
                    }
                }
            }
        }
        i = i + 1;
    }
    proof {
        assert forall|x: i64| #[trigger] kept@.contains(x) <==> is_kept(all, keep as int, x) by {
            if is_kept(all, keep as int, x) {
                let k = choose|k: int| 0 <= k < keep && k < all.len() && (#[trigger] all[k]).id == x;
                assert(all[k].id == x);
                assert(is_kept(all, i as int, x));
            }
            if is_kept(all, i as int, x) {
                let k = choose|k: int| 0 <= k < i && k < all.len() && (#[trigger] all[k]).id == x;
                assert(all[k].id == x);
            }
        }
    }
    kept
}

/// A row of the table of snapshots.
#[derive(Debug, Clone, Copy, PartialEq, Eq, Structural)]
pub struct SnapshotRef {
    pub id: i64,
    pub total_bytes: i64,
}

/// A row that belongs to a snapshot.
#[derive(Debug, Clone, Copy, PartialEq, Eq, Structural)]
pub struct RowRef {
    pub id: i64,
    pub snapshot_id: i64,
}

/// A row that belongs to a pair of snapshots.
#[derive(Debug, Clone, Copy, PartialEq, Eq, Structural)]
pub struct PairRef {
    pub id: i64,
    pub snapshot_a: i64,
    pub snapshot_b: i64,
}

/// The tables that hold snapshots and what belongs to them: the sizes and the changes of
/// directories, and the changes that were kept of comparisons. Events belong to no
/// snapshot.
pub struct SnapshotTables {
    pub snapshots: Vec<SnapshotRef>,
    pub dirs: Vec<RowRef>,
    pub deltas: Vec<RowRef>,
    pub diffs: Vec<PairRef>,
}

/// The snapshots that are not pruned.
pub open spec fn left_snapshots(ids: Seq<i64>) -> spec_fn(SnapshotRef) -> bool {
    |s: SnapshotRef| !ids.contains(s.id)
}

/// The rows that belong to no pruned snapshot.
pub open spec fn left_rows(ids: Seq<i64>) -> spec_fn(RowRef) -> bool {
    |r: RowRef| !ids.contains(r.snapshot_id)
}

/// The rows that belong to no pair with a pruned snapshot.
pub open spec fn left_pairs(ids: Seq<i64>) -> spec_fn(PairRef) -> bool {
    |p: PairRef| !ids.contains(p.snapshot_a) && !ids.contains(p.snapshot_b)
}

/// The rows that belong to pruned snapshots.
pub open spec fn gone_rows(rows: Seq<RowRef>, ids: Seq<i64>) -> Seq<RowRef> {
    rows.filter(|r: RowRef| ids.contains(r.snapshot_id))
}

/// The bytes of each pruned snapshot.
pub open spec fn gone_bytes(snapshots: Seq<SnapshotRef>, ids: Seq<i64>) -> Seq<int> {
    Seq::new(
        snapshots.len(),
        |i: int| if ids.contains(snapshots[i].id) { snapshots[i].total_bytes as int } else { 0 },
    )
}

impl SnapshotTables {
    /// The numbers of rows and the bytes can be told.
    pub open spec fn countable(&self, ids: Seq<i64>) -> bool {
        &&& self.dirs@.len() <= i64::MAX
        &&& self.deltas@.len() <= i64::MAX
        &&& i64::MIN <= total(gone_bytes(self.snapshots@, ids)) <= i64::MAX
    }

    /// The tables after snapshots were pruned with everything that belongs to them. All
    /// other rows stay, in their order.
    pub open spec fn after_prune(&self, before: &SnapshotTables, ids: Seq<i64>) -> bool {
        &&& self.snapshots@ == before.snapshots@.filter(left_snapshots(ids))
        &&& self.dirs@ == before.dirs@.filter(left_rows(ids))
        &&& self.deltas@ == before.deltas@.filter(left_rows(ids))
        &&& self.diffs@ == before.diffs@.filter(left_pairs(ids))
    }
}

/// What would be deleted with the given snapshots. Events stay.
pub open spec fn is_preview(tables: &SnapshotTables, ids: Seq<i64>, p: PrunePreview) -> bool {
    &&& p.snapshot_ids@ == ids
    &&& p.snapshot_count == ids.len()
    &&& p.dir_row_count == gone_rows(tables.dirs@, ids).len()
    &&& p.delta_row_count == gone_rows(tables.deltas@, ids).len()
    &&& p.event_row_count == 0
    &&& p.freed_bytes_approx == total(gone_bytes(tables.snapshots@, ids))
}

/// The result tells what the preview tells.
pub open spec fn tells(p: PrunePreview, dry_run: bool, r: PruneResult) -> bool {
    &&& r.deleted_snapshots@ == p.snapshot_ids@
    &&& r.deleted_snapshot_count == p.snapshot_count
    &&& r.deleted_dir_rows == p.dir_row_count
    &&& r.deleted_delta_rows == p.delta_row_count
    &&& r.deleted_event_rows == p.event_row_count
    &&& r.freed_bytes_approx == p.freed_bytes_approx
    &&& r.dry_run == dry_run
}

fn id_set(ids: &Vec<i64>) -> (set: HashSet<i64>)
    ensures
        forall|id: i64| #[trigger] set@.contains(id) <==> ids@.contains(id),
{
    let mut set: HashSet<i64> = HashSet::new();
    let mut i: usize = 0;
    while i < ids.len()
        invariant
            i <= ids@.len(),
            forall|id: i64| #[trigger] set@.contains(id) <==> ids@.take(i as int).contains(id),
        decreases ids@.len() - i,
    {
        let ghost before = ids@.take(i as int);
        let ghost more = ids@.take(i + 1);
        let id = ids[i];
        set.insert(id);
        proof {
            assert(more =~= before.push(id));
            assert forall|x: i64| more.contains(x) <==> before.contains(x) || x == id by {
                if before.contains(x) {
                    let k = choose|k: int| 0 <= k < before.len() && before[k] == x;
                    assert(more[k] == x);
                }
                assert(more[i as int] == id);
            }
        }
        i = i + 1;
    }
    assert(ids@.take(i as int) =~= ids@);
    set
}

fn count_rows(rows: &Vec<RowRef>, set: &HashSet<i64>, Ghost(ids): Ghost<Seq<i64>>) -> (n: i64)
    requires
        rows@.len() <= i64::MAX,
        forall|id: i64| #[trigger] set@.contains(id) <==> ids.contains(id),
    ensures
        n == gone_rows(rows@, ids).len(),
{
    let ghost gone = |r: RowRef| ids.contains(r.snapshot_id);
    let mut n: i64 = 0;
    let mut i: usize = 0;
    proof {
        reveal(Seq::filter);
        assert(rows@.take(0).filter(gone) =~= Seq::<RowRef>::empty());
    }
    while i < rows.len()
        invariant
            rows@.len() <= i64::MAX,
            forall|id: i64| #[trigger] set@.contains(id) <==> ids.contains(id),
            gone == (|r: RowRef| ids.contains(r.snapshot_id)),
            i <= rows@.len(),
            n <= i,
            n == rows@.take(i as int).filter(gone).len(),
        decreases rows@.len() - i,
    {
        proof {
            reveal(Seq::filter);
            assert(rows@.take(i + 1).drop_last() =~= rows@.take(i as int));
            assert(rows@.take(i + 1).last() == rows@[i as int]);
        }
        if set.contains(&rows[i].snapshot_id) {
            n = n + 1;
        }
        i = i + 1;
    }
    assert(rows@.take(i as int) =~= rows@);
    n
}

proof fn lemma_bytes_range(snapshots: Seq<SnapshotRef>, ids: Seq<i64>, n: int)
    requires
        0 <= n <= snapshots.len(),
    ensures
        -0x8000_0000_0000_0000 * n <= total(gone_bytes(snapshots, ids).take(n)) <= 0x8000_0000_0000_0000 * n,
    decreases n,
{
    let all = gone_bytes(snapshots, ids);
    if n > 0 {
        lemma_bytes_range(snapshots, ids, n - 1);
        assert(all.take(n).drop_last() =~= all.take(n - 1));
    } else {
        assert(all.take(0) =~= Seq::empty());
    }
}

fn sum_bytes(snapshots: &Vec<SnapshotRef>, set: &HashSet<i64>, Ghost(ids): Ghost<Seq<i64>>) -> (n: i64)
    requires
        i64::MIN <= total(gone_bytes(snapshots@, ids)) <= i64::MAX,
        forall|id: i64| #[trigger] set@.contains(id) <==> ids.contains(id),
    ensures
        n == total(gone_bytes(snapshots@, ids)),
{
    let ghost all = gone_bytes(snapshots@, ids);
    let mut n: i128 = 0;
    let mut i: usize = 0;
    assert(all.take(0) =~= Seq::<int>::empty());
    while i < snapshots.len()
        invariant
            forall|id: i64| #[trigger] set@.contains(id) <==> ids.contains(id),
            all == gone_bytes(snapshots@, ids),
            i <= snapshots@.len(),
            n == total(all.take(i as int)),
        decreases snapshots@.len() - i,
    {
        proof {
            lemma_bytes_range(snapshots@, ids, i as int);
            assert(all.take(i + 1).drop_last() =~= all.take(i as int));
        }
        if set.contains(&snapshots[i].id) {
            n = n + snapshots[i].total_bytes as i128;
        }
        i = i + 1;
    }
    assert(all.take(i as int) =~= all);
    n as i64
}

fn keep_rows(rows: &Vec<RowRef>, set: &HashSet<i64>, Ghost(ids): Ghost<Seq<i64>>) -> (r: Vec<RowRef>)
    requires
        forall|id: i64| #[trigger] set@.contains(id) <==> ids.contains(id),
    ensures
        r@ == rows@.filter(left_rows(ids)),
{
    let mut r: Vec<RowRef> = Vec::new();
    let mut i: usize = 0;
    proof {
        reveal(Seq::filter);
        assert(r@ =~= rows@.take(0).filter(left_rows(ids)));
    }
    while i < rows.len()
        invariant
            forall|id: i64| #[trigger] set@.contains(id) <==> ids.contains(id),
            i <= rows@.len(),
            r@ == rows@.take(i as int).filter(left_rows(ids)),
        decreases rows@.len() - i,
    {
        proof {
            reveal(Seq::filter);
            assert(rows@.take(i + 1).drop_last() =~= rows@.take(i as int));
            assert(rows@.take(i + 1).last() == rows@[i as int]);
        }
        if !set.contains(&rows[i].snapshot_id) {
            r.push(rows[i]);
        }
        i = i + 1;
    }
    assert(rows@.take(i as int) =~= rows@);
    r
}

fn keep_snapshots(rows: &Vec<SnapshotRef>, set: &HashSet<i64>, Ghost(ids): Ghost<Seq<i64>>) -> (r: Vec<SnapshotRef>)
    requires
        forall|id: i64| #[trigger] set@.contains(id) <==> ids.contains(id),
    ensures
        r@ == rows@.filter(left_snapshots(ids)),
{
    let mut r: Vec<SnapshotRef> = Vec::new();
    let mut i: usize = 0;
    proof {
        reveal(Seq::filter);
        assert(r@ =~= rows@.take(0).filter(left_snapshots(ids)));
    }
    while i < rows.len()
        invariant
            forall|id: i64| #[trigger] set@.contains(id) <==> ids.contains(id),
            i <= rows@.len(),
            r@ == rows@.take(i as int).filter(left_snapshots(ids)),
        decreases rows@.len() - i,
    {
        proof {
            reveal(Seq::filter);
            assert(rows@.take(i + 1).drop_last() =~= rows@.take(i as int));
            assert(rows@.take(i + 1).last() == rows@[i as int]);
        }
        if !set.contains(&rows[i].id) {
            r.push(rows[i]);
        }
        i = i + 1;
    }
    assert(rows@.take(i as int) =~= rows@);
    r
}

fn keep_pairs(rows: &Vec<PairRef>, set: &HashSet<i64>, Ghost(ids): Ghost<Seq<i64>>) -> (r: Vec<PairRef>)
    requires
        forall|id: i64| #[trigger] set@.contains(id) <==> ids.contains(id),
    ensures
        r@ == rows@.filter(left_pairs(ids)),
{
    let mut r: Vec<PairRef> = Vec::new();
    let mut i: usize = 0;
    proof {
        reveal(Seq::filter);
        assert(r@ =~= rows@.take(0).filter(left_pairs(ids)));
    }
    while i < rows.len()
        invariant
            forall|id: i64| #[trigger] set@.contains(id) <==> ids.contains(id),
            i <= rows@.len(),
            r@ == rows@.take(i as int).filter(left_pairs(ids)),
        decreases rows@.len() - i,
    {
        proof {
            reveal(Seq::filter);
            assert(rows@.take(i + 1).drop_last() =~= rows@.take(i as int));
            assert(rows@.take(i + 1).last() == rows@[i as int]);
        }
        if !set.contains(&rows[i].snapshot_a) && !set.contains(&rows[i].snapshot_b) {
            r.push(rows[i]);
        }
        i = i + 1;
    }
    assert(rows@.take(i as int) =~= rows@);
    r
}

/// Tells what would be deleted with the given snapshots.
pub fn preview_prune(tables: &SnapshotTables, ids: &Vec<i64>) -> (p: PrunePreview)
    requires
        tables.countable(ids@),
    ensures
        is_preview(tables, ids@, p),
{
    let set = id_set(ids);
    PrunePreview {
        snapshot_ids: vstd::slice::slice_to_vec(ids.as_slice()),
        snapshot_count: ids.len(),
        dir_row_count: count_rows(&tables.dirs, &set, Ghost(ids@)),
        delta_row_count: count_rows(&tables.deltas, &set, Ghost(ids@)),
        event_row_count: 0,
        freed_bytes_approx: sum_bytes(&tables.snapshots, &set, Ghost(ids@)),
    }
}

/// What a preview tells, as the result of a prune.
pub fn prune_result(preview: PrunePreview, dry_run: bool) -> (r: PruneResult)
    ensures
        tells(preview, dry_run, r),
{
    PruneResult {
        deleted_snapshots: preview.snapshot_ids,
        deleted_snapshot_count: preview.snapshot_count,
        deleted_dir_rows: preview.dir_row_count,
        deleted_delta_rows: preview.delta_row_count,
        deleted_event_rows: preview.event_row_count,
        freed_bytes_approx: preview.freed_bytes_approx,
        dry_run,
    }
}

/// Deletes the given snapshots and all rows that belong to them.
pub fn execute_prune(tables: &mut SnapshotTables, ids: &Vec<i64>) -> (r: PruneResult)
    requires
        old(tables).countable(ids@),
    ensures
        final(tables).after_prune(old(tables), ids@),
        forall|p: PrunePreview| #[trigger] is_preview(old(tables), ids@, p) ==> tells(p, false, r),
{
    let preview = preview_prune(tables, ids);
    let set = id_set(ids);
    tables.diffs = keep_pairs(&tables.diffs, &set, Ghost(ids@));
    tables.deltas = keep_rows(&tables.deltas, &set, Ghost(ids@));
    tables.dirs = keep_rows(&tables.dirs, &set, Ghost(ids@));
    tables.snapshots = keep_snapshots(&tables.snapshots, &set, Ghost(ids@));
    prune_result(preview, false)
}

/// The statements that delete the given snapshots, in SQL.
pub open spec fn prune_sql(ids: Seq<i64>) -> Seq<char> {
    let list = joined(id_texts(ids), ","@);
    "DELETE FROM diff_cache WHERE snapshot_a IN ("@ + list + ") OR snapshot_b IN ("@ + list
        + "); DELETE FROM dir_deltas WHERE snapshot_id IN ("@ + list
        + "); DELETE FROM dir_snapshots WHERE snapshot_id IN ("@ + list
        + "); DELETE FROM snapshots WHERE id IN ("@ + list + ");"@
}

/// The statements that delete the given snapshots and all rows that belong to them.
pub fn prune_statements(ids: &Vec<i64>) -> (r: String)
    ensures
        r@ == prune_sql(ids@),
{
    let list = id_list(ids);
    let mut r = "DELETE FROM diff_cache WHERE snapshot_a IN (".to_owned();
    r.append(list.as_str());
    r.append(") OR snapshot_b IN (");
    r.append(list.as_str());
    r.append("); DELETE FROM dir_deltas WHERE snapshot_id IN (");
    r.append(list.as_str());
    r.append("); DELETE FROM dir_snapshots WHERE snapshot_id IN (");
    r.append(list.as_str());
    r.append("); DELETE FROM snapshots WHERE id IN (");
    r.append(list.as_str());
    r.append(");");
    r
}

proof fn lemma_filter_parts<T>(s: Seq<T>, left: spec_fn(T) -> bool, gone: spec_fn(T) -> bool)
    requires
        forall|x: T| #[trigger] left(x) == !gone(x),
    ensures
        s.filter(left).len() + s.filter(gone).len() == s.len(),
    decreases s.len(),
{
    reveal(Seq::filter);
    if s.len() > 0 {
        lemma_filter_parts(s.drop_last(), left, gone);
        assert(left(s.last()) == !gone(s.last()));
    }
}

/// What the filter keeps is exactly what passes it.
proof fn lemma_filter_members<T>(s: Seq<T>, pred: spec_fn(T) -> bool)
    ensures
        forall|x: T| #[trigger] s.filter(pred).contains(x) <==> s.contains(x) && pred(x),
{
    assert forall|x: T| #[trigger] s.filter(pred).contains(x) <==> s.contains(x) && pred(x) by {
        if s.filter(pred).contains(x) {
            let i = choose|i: int| 0 <= i < s.filter(pred).len() && s.filter(pred)[i] == x;
            s.lemma_filter_pred(pred, i);
            s.lemma_filter_contains_rev(pred, x);
        }
        if s.contains(x) && pred(x) {
            let i = choose|i: int| 0 <= i < s.len() && s[i] == x;
            s.lemma_filter_contains(pred, i);
        }
    }
}

/// After a prune no row refers to a pruned snapshot, and all other rows are there as
/// before.
pub proof fn law_pruned(before: &SnapshotTables, after: &SnapshotTables, ids: Seq<i64>)
    requires
        after.after_prune(before, ids),
    ensures
        forall|s: SnapshotRef| #[trigger]
            after.snapshots@.contains(s) <==> before.snapshots@.contains(s) && !ids.contains(s.id),
        forall|r: RowRef| #[trigger]
            after.dirs@.contains(r) <==> before.dirs@.contains(r) && !ids.contains(r.snapshot_id),
        forall|r: RowRef| #[trigger]
            after.deltas@.contains(r) <==> before.deltas@.contains(r) && !ids.contains(r.snapshot_id),
        forall|p: PairRef| #[trigger]
            after.diffs@.contains(p) <==> before.diffs@.contains(p) && !ids.contains(p.snapshot_a) && !ids.contains(
                p.snapshot_b,
            ),
{
    lemma_filter_members(before.snapshots@, left_snapshots(ids));
    lemma_filter_members(before.dirs@, left_rows(ids));
    lemma_filter_members(before.deltas@, left_rows(ids));
    lemma_filter_members(before.diffs@, left_pairs(ids));
}

/// A prune deletes as many rows as its preview tells.
pub proof fn law_preview_is_pruned(before: &SnapshotTables, after: &SnapshotTables, ids: Seq<i64>, p: PrunePreview)
    requires
        after.after_prune(before, ids),
        is_preview(before, ids, p),
    ensures
        before.dirs@.len() - after.dirs@.len() == p.dir_row_count,
        before.deltas@.len() - after.deltas@.len() == p.delta_row_count,
{
    let gone = |r: RowRef| ids.contains(r.snapshot_id);
    lemma_filter_parts(before.dirs@, left_rows(ids), gone);
    lemma_filter_parts(before.deltas@, left_rows(ids), gone);
}

/// Numbers as texts.
pub open spec fn id_texts(ids: Seq<i64>) -> Seq<Seq<char>> {
    ids.map_values(|id: i64| integer_text(id as int))
}

/// The texts of the first `n` numbers.
pub fn id_strings(ids: &Vec<i64>, n: usize) -> (r: Vec<String>)
    requires
        n <= ids@.len(),
    ensures
        views(r@) == id_texts(ids@.take(n as int)),
{
    let mut r: Vec<String> = Vec::new();
    let mut i: usize = 0;
    while i < n
        invariant
            n <= ids@.len(),
            i <= n,
            r@.len() == i,
            forall|k: int| 0 <= k < i ==> (#[trigger] r@[k])@ == integer_text(ids@[k] as int),
        decreases n - i,
    {
        r.push(signed_decimal(ids[i]));
        i = i + 1;
    }
    assert(views(r@) =~= id_texts(ids@.take(n as int)));
    r
}

/// The snapshots as a list in SQL.
pub fn id_list(ids: &Vec<i64>) -> (r: String)
    ensures
        r@ == joined(id_texts(ids@), ","@),
{
    let texts = id_strings(ids, ids.len());
    assert(ids@.take(ids@.len() as int) =~= ids@);
    join(&texts, ",")
}

/// The newest snapshot, which comes first, is never pruned.
pub proof fn law_newest_kept(snapshots: Seq<SnapshotTime>, keep_last: Option<usize>, cutoff: Option<int>)
    requires
        snapshots.len() > 0,
    ensures
        !candidates(snapshots, kept_count(keep_last), cutoff).contains(snapshots[0].id),
{
    let keep = kept_count(keep_last);
    let pred = |s: SnapshotTime| is_candidate(snapshots, keep, cutoff, s);
    let left = snapshots.filter(pred);
    let r = candidates(snapshots, keep, cutoff);
    if r.contains(snapshots[0].id) {
        let i = choose|i: int| 0 <= i < r.len() && r[i] == snapshots[0].id;
        snapshots.lemma_filter_pred(pred, i);
        assert(pred(left[i]));
        assert(left[i].id == snapshots[0].id);
        assert(is_kept(snapshots, keep, snapshots[0].id));
    }
}

/// The bytes that a preview tells are those of the snapshots that go: what all snapshots hold
/// before the prune, without what they hold after it.
pub proof fn law_freed_bytes(before: &SnapshotTables, after: &SnapshotTables, ids: Seq<i64>, p: PrunePreview, r: PruneResult)
    requires
        after.after_prune(before, ids),
        is_preview(before, ids, p),
        tells(p, false, r),
    ensures
        total(before.snapshots@.map_values(|s: SnapshotRef| s.total_bytes as int)) - total(
            after.snapshots@.map_values(|s: SnapshotRef| s.total_bytes as int),
        ) == r.freed_bytes_approx,
        r.deleted_snapshots@ == ids,
        r.deleted_snapshot_count == ids.len(),
        r.deleted_dir_rows == before.dirs@.len() - after.dirs@.len(),
        r.deleted_delta_rows == before.deltas@.len() - after.deltas@.len(),
        !r.dry_run,
{
    let f = |s: SnapshotRef| s.total_bytes as int;
    law_preview_is_pruned(before, after, ids, p);
    lemma_bytes_parted(before.snapshots@, ids, f);
}

proof fn lemma_bytes_parted(snapshots: Seq<SnapshotRef>, ids: Seq<i64>, f: spec_fn(SnapshotRef) -> int)
    requires
        forall|s: SnapshotRef| #[trigger] f(s) == s.total_bytes,
    ensures
        total(snapshots.map_values(f)) == total(snapshots.filter(left_snapshots(ids)).map_values(f)) + total(
            gone_bytes(snapshots, ids),
        ),
    decreases snapshots.len(),
{
    reveal(Seq::filter);
    let kept = snapshots.filter(left_snapshots(ids));
    if snapshots.len() > 0 {
        let part = snapshots.drop_last();
        let last = snapshots.last();
        lemma_bytes_parted(part, ids, f);
        let rest = part.filter(left_snapshots(ids));
        assert(snapshots.map_values(f).drop_last() =~= part.map_values(f));
        assert(gone_bytes(snapshots, ids).drop_last() =~= gone_bytes(part, ids));
        if !ids.contains(last.id) {
            assert(kept.map_values(f) =~= rest.map_values(f).push(f(last)));
            crate::sums::lemma_total_push(rest.map_values(f), f(last));
        }
    } else {
        assert(kept.map_values(f) =~= Seq::<int>::empty());
        assert(snapshots.map_values(f) =~= Seq::<int>::empty());
        assert(gone_bytes(snapshots, ids) =~= Seq::<int>::empty());
    }
}

} // verus!
