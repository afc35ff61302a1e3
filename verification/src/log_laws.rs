//! What a part of the log, a snapshot brought up to date and an uninstallation come to.

use crate::commands::{after_event, total_drift, RootDrift, Uninstall, UninstallEvent};
use crate::history::at_most;
use crate::mutations::{
    after_reconcile, is_read, is_reconciled, path_ancestors, rows_since, target_of, DirSize,
    MutationRecord, MutationRow, PathState, Reconciled,
};
use crate::snapshots::VolumePair;
use crate::sums::total;
use crate::top::{ChangeRow, VolumeFacts};
use crate::top_interval::{
    in_part, is_known_over, is_part_of, is_since, law_since, place_in, spans_between, LoggedChange,
    VolumeLog,
};
use crate::top_request::{is_entry, ParentSnapshot, SnapshotVolume};
use crate::order::bytes_at_most;
use crate::warm_laws::lemma_parent;
use vstd::prelude::*;
use vstd::utf8::encode_utf8;

verus! {

/// The changes of a part of the log are those of the entries behind its beginning and up to
/// its end, each once.
pub proof fn law_part_changes(v: VolumeLog, parts: Seq<VolumePair>, f: VolumeFacts, k: int, i: int)
    requires
        is_known_over(v, parts, f),
        0 <= k < parts.len(),
        parts[k].volume@ == v.volume@,
        forall|j: int| 0 <= j < k ==> (#[trigger] parts[j]).volume@ != v.volume@,
        0 <= i < v.log@.len(),
    ensures
        parts[k].start < v.log@[i].sequence && v.log@[i].sequence <= parts[k].end ==> f.changes@.contains(
            v.log@[i].change,
        ),
        forall|c: ChangeRow| #[trigger]
            f.changes@.contains(c) ==> exists|j: int|
                0 <= j < v.log@.len() && (#[trigger] v.log@[j]).change == c && parts[k].start < v.log@[j].sequence
                    && v.log@[j].sequence <= parts[k].end,
        f.changes@.len() == total(
            Seq::new(
                v.log@.len(),
                |j: int|
                    if parts[k].start < v.log@[j].sequence && v.log@[j].sequence <= parts[k].end {
                        1
                    } else {
                        0
                    },
            ),
        ),
        f.facts@ == v.facts@,
{
    assert(is_part_of(parts, v.volume@, k));
    let (start, end) = (parts[k].start, parts[k].end);
    let log = v.log@;
    let keep = |e: LoggedChange| in_part(e, start, end);
    let get = |e: LoggedChange| e.change;
    let kept = log.filter(keep);
    assert(f.changes@ == kept.map_values(get));
    if keep(log[i]) {
        log.lemma_filter_contains(keep, i);
        let m = choose|m: int| 0 <= m < kept.len() && kept[m] == log[i];
        assert(f.changes@[m] == log[i].change);
    }
    assert forall|c: ChangeRow| #[trigger] f.changes@.contains(c) implies exists|j: int|
        0 <= j < log.len() && (#[trigger] log[j]).change == c && start < log[j].sequence && log[j].sequence <= end by {
        let m = choose|m: int| 0 <= m < f.changes@.len() && f.changes@[m] == c;
        log.lemma_filter_pred(keep, m);
        log.lemma_filter_contains_rev(keep, kept[m]);
        let j = choose|j: int| 0 <= j < log.len() && log[j] == kept[m];
        assert(log[j].change == c);
    }
    let one = |e: LoggedChange| 1int;
    crate::sums::lemma_total_filtered(log, keep, one);
    crate::sums::lemma_total_ones(kept.map_values(one));
    assert(log.map_values(
        |e: LoggedChange|
            if keep(e) {
                one(e)
            } else {
                0
            },
    ) =~= Seq::new(
        log.len(),
        |j: int|
            if start < log[j].sequence && log[j].sequence <= end {
                1
            } else {
                0
            },
    ));
}

/// The part of a log since a moment begins before every entry that was logged then or later
/// and ends with the log.
pub proof fn law_part_since(v: VolumeLog, since: Seq<char>, p: VolumePair, i: int)
    requires
        is_since(v, since, p),
        0 <= i < v.log@.len(),
    ensures
        v.log@[i].sequence <= p.end,
        bytes_at_most(encode_utf8(since), encode_utf8(v.log@[i].at@)) ==> p.start < v.log@[i].sequence,
{
    law_since(v, since, p, i);
    assert(crate::top_interval::places_of(v.log@)[i] == v.log@[i].sequence);
}

/// The part of a log between two snapshots runs from the lower to the higher of their places
/// in it, whichever is given first.
pub proof fn law_part_between(
    a: ParentSnapshot,
    b: ParentSnapshot,
    volume: Seq<char>,
    p: VolumePair,
    q: VolumePair,
    i: int,
    j: int,
)
    requires
        spans_between(a, b, volume, p),
        spans_between(b, a, volume, q),
        0 <= i < a.volumes@.len(),
        0 <= j < b.volumes@.len(),
        a.volumes@[i].volume@ == volume,
        b.volumes@[j].volume@ == volume,
        forall|k: int| 0 <= k < i ==> (#[trigger] a.volumes@[k]).volume@ != volume,
        forall|k: int| 0 <= k < j ==> (#[trigger] b.volumes@[k]).volume@ != volume,
    ensures
        p.start <= p.end,
        p.start == q.start,
        p.end == q.end,
        p.start == a.volumes@[i].sequence_number && p.end == b.volumes@[j].sequence_number || p.start
            == b.volumes@[j].sequence_number && p.end == a.volumes@[i].sequence_number,
{
    lemma_place(a.volumes@, volume, i);
    lemma_place(b.volumes@, volume, j);
}

proof fn lemma_place(s: Seq<SnapshotVolume>, volume: Seq<char>, i: int)
    requires
        0 <= i < s.len(),
        s[i].volume@ == volume,
        forall|k: int| 0 <= k < i ==> (#[trigger] s[k]).volume@ != volume,
    ensures
        place_in(s, volume) == s[i].sequence_number,
{
    assert(is_entry(s, volume, i));
    let c = choose|k: int| is_entry(s, volume, k);
    assert(is_entry(s, volume, c));
    if c < i {
        assert(s[c].volume@ != volume);
    } else if i < c {
        assert(s[i].volume@ != volume);
    }
}

/// The entries since a moment are those of that moment and later, in order; one is left out
/// only where as many as asked for are there.
pub proof fn law_mutations_since(rows: Seq<MutationRow>, since: int, limit: nat, r: Seq<MutationRecord>, i: int)
    requires
        r.len() == at_most(rows_since(rows, since), limit as int).len(),
        forall|k: int| 0 <= k < r.len() ==> is_read(rows_since(rows, since)[k], #[trigger] r[k]),
        0 <= i < rows.len(),
        rows[i].timestamp >= since,
    ensures
        r.len() <= limit,
        forall|k: int| 0 <= k < r.len() ==> (#[trigger] r[k]).timestamp >= since,
        r.len() == limit || exists|k: int| 0 <= k < r.len() && (#[trigger] r[k]).id == Some(rows[i].id),
{
    let pred = |x: MutationRow| x.timestamp >= since;
    let kept = rows.filter(pred);
    assert forall|k: int| 0 <= k < r.len() implies (#[trigger] r[k]).timestamp >= since by {
        rows.lemma_filter_pred(pred, k);
        assert(is_read(kept[k], r[k]));
    }
    if r.len() < limit {
        assert(pred(rows[i]));
        rows.lemma_filter_contains(pred, i);
        let k = choose|k: int| 0 <= k < kept.len() && kept[k] == rows[i];
        assert(is_read(kept[k], r[k]));
    }
}

/// Above a path lie its directory and what lies above that; a path that is gone concerns its
/// directory.
pub proof fn law_path_above(dir: Seq<u8>, name: Seq<u8>, sep: u8)
    requires
        dir.len() > 0,
        name.len() > 0,
        forall|i: int| 0 <= i < name.len() ==> #[trigger] name[i] != sep,
    ensures
        path_ancestors(dir.push(sep) + name, sep) == seq![dir] + path_ancestors(dir, sep),
        target_of(dir.push(sep) + name, PathState::Missing, sep) == dir,
        target_of(dir.push(sep) + name, PathState::Directory, sep) == dir.push(sep) + name,
{
    lemma_parent(dir, name, sep);
}

/// A directory that was brought up to date has the totals that it has on disk. It is not in
/// the snapshot any more where it is empty, and it is not added where it has no bytes.
pub proof fn law_row_reconciled(
    table: Map<Seq<u8>, (int, int)>,
    path: Seq<u8>,
    prev: Option<DirSize>,
    current: DirSize,
    net: (int, int),
    above: Seq<Seq<u8>>,
    r: Reconciled,
    sep: u8,
)
    requires
        is_reconciled(path, prev, current, net, above, r, sep),
        !above.contains(path),
        prev is Some <==> table.contains_key(path),
    ensures
        prev is Some ==> (after_reconcile(table, r).contains_key(path) <==> current.bytes != 0 || current.files != 0),
        prev is None ==> (after_reconcile(table, r).contains_key(path) <==> current.bytes > 0),
        after_reconcile(table, r).contains_key(path) ==> after_reconcile(table, r)[path] == (
            current.bytes as int,
            current.files as int,
        ),
        forall|p: Seq<u8>|
            p != path && table.contains_key(p) && above.contains(p) ==> #[trigger] after_reconcile(table, r)[p] == (
                table[p].0 + net.0,
                table[p].1 + net.1,
            ),
        forall|p: Seq<u8>|
            p != path && table.contains_key(p) && !above.contains(p) ==> #[trigger] after_reconcile(table, r)[p]
                == table[p],
{
}

/// The growth of all roots is what was found in all of them without what was there before.
pub proof fn law_drift(roots: Seq<RootDrift>)
    ensures
        total_drift(roots) == total(Seq::new(roots.len(), |i: int| roots[i].found as int)) - total(
            Seq::new(
                roots.len(),
                |i: int|
                    match roots[i].before {
                        Some(n) => n as int,
                        None => 0,
                    },
            ),
        ),
    decreases roots.len(),
{
    let found = Seq::new(roots.len(), |i: int| roots[i].found as int);
    let before = Seq::new(
        roots.len(),
        |i: int|
            match roots[i].before {
                Some(n) => n as int,
                None => 0,
            },
    );
    if roots.len() > 0 {
        let part = roots.drop_last();
        law_drift(part);
        assert(found.drop_last() =~= Seq::new(part.len(), |i: int| part[i].found as int));
        assert(before.drop_last() =~= Seq::new(
            part.len(),
            |i: int|
                match part[i].before {
                    Some(n) => n as int,
                    None => 0,
                },
        ));
    }
}

/// An uninstallation looks at the database only when no daemon is left running: the one that
/// answered was stopped, or the one that was started, or none could be started or read.
pub proof fn law_stopped_first(state: Uninstall, event: UninstallEvent, delete_snapshot: bool)
    ensures
        after_event(state, event, delete_snapshot) is Checking && !(state is Checking) ==> state is Stopping || state is
            StoppingTemporary || state is RemovingConfig || state is Querying && event == UninstallEvent::Unreadable,
        after_event(state, event, delete_snapshot) is Stopping && !(state is Stopping) ==> state == (Uninstall::Cleaning {
            pid: after_event(state, event, delete_snapshot)->Stopping_pid,
        }),
        after_event(state, event, delete_snapshot) is Cleaning && !(state is Cleaning) ==> state is Querying && event
            == UninstallEvent::Running(after_event(state, event, delete_snapshot)->Cleaning_pid),
        after_event(state, event, delete_snapshot) is StoppingTemporary && !(state is StoppingTemporary) ==> state == (
        Uninstall::CleaningTemporary { pid: after_event(state, event, delete_snapshot)->StoppingTemporary_pid }),
        after_event(state, event, delete_snapshot) is Finished && !(state is Finished) ==> state is Sweeping,
        after_event(state, event, delete_snapshot) is Deleting && !(state is Deleting) ==> delete_snapshot && state is
            Checking && event == UninstallEvent::Directory(true),
{
}

/// The deletion of the database is tried again as often as is left, and then it has failed.
pub proof fn law_delete_retried(n: u32, delete_snapshot: bool) -> (states: Seq<Uninstall>)
    ensures
        states.len() == n + 2,
        states[0] == (Uninstall::Deleting { retries: n }),
        states[n + 1] is Failed,
        forall|i: int|
            0 <= i <= n ==> (#[trigger] states[i]) is Deleting && states[i + 1] == after_event(
                states[i],
                UninstallEvent::DeleteFailed,
                delete_snapshot,
            ),
    decreases n,
{
    let first = Uninstall::Deleting { retries: n };
    if n == 0 {
        seq![first, after_event(first, UninstallEvent::DeleteFailed, delete_snapshot)]
    } else {
        let rest = law_delete_retried((n - 1) as u32, delete_snapshot);
        let all = seq![first] + rest;
        assert forall|i: int| 0 <= i <= n implies (#[trigger] all[i]) is Deleting && all[i + 1] == after_event(
            all[i],
            UninstallEvent::DeleteFailed,
            delete_snapshot,
        ) by {
            if i > 0 {
                assert(all[i] == rest[i - 1]);
                assert(all[i + 1] == rest[(i - 1) + 1]);
            } else {
                assert(all[1] == rest[0]);
            }
        }
        assert(all[n + 1] == rest[n as int]);
        all
    }
}

} // verus!
