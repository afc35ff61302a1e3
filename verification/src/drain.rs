//! Replaying the mutation log of a volume into its facts.

use crate::decimal::{decimal, decimal_text};
use crate::model::DaemonState;
use crate::text::str_eq;
use std::collections::HashMap;
use vstd::prelude::*;

verus! {

/// An entry of the log that was not replayed yet.
pub struct PendingMutation {
    pub sequence: i64,
    pub file_id: u64,
    pub parent_file_id: u64,
    pub name: String,
    pub kind: String,
    pub is_directory: bool,
    pub size_delta: i64,
    pub at: String,
}

/// How many entries of the log are replayed at once.
pub const BATCH_SIZE: u64 = 500;

/// The query for the next batch: what follows a place in the log of a volume, in order
/// and up to the size of a batch.
pub fn pending_query() -> (r: String)
    ensures
        r@
            == "SELECT sequence, file_id, parent_file_id, name, kind, is_directory, size_delta, at FROM mutation_log WHERE volume = ?1 AND sequence > ?2 ORDER BY sequence ASC LIMIT "@
            + decimal_text(BATCH_SIZE as nat),
{
    let mut r = "SELECT sequence, file_id, parent_file_id, name, kind, is_directory, size_delta, at FROM mutation_log WHERE volume = ?1 AND sequence > ?2 ORDER BY sequence ASC LIMIT ".to_owned();
    let n = decimal(BATCH_SIZE);
    r.append(n.as_str());
    r
}

/// What an entry does to the facts.
pub enum FactChange {
    /// The file is entered, or what is known of it is replaced.
    Upsert {
        file_id: u64,
        parent_file_id: u64,
        name: String,
        is_directory: bool,
        size: u64,
        at: String,
        attributes: u32,
    },
    /// The file is removed.
    Remove { file_id: u64 },
    /// The file has another name or lies in another directory.
    Rename { file_id: u64, name: String, parent_file_id: u64 },
    Nothing,
}

/// What an entry does to the search index.
#[derive(Debug, Clone, Copy, PartialEq, Eq, Structural)]
pub enum IndexSync {
    Update,
    Delete,
    Nothing,
}

/// What replaying an entry does.
pub struct Replay {
    pub change: FactChange,
    /// The growth to enter in the log, where it is known now.
    pub delta: Option<i64>,
    pub index: IndexSync,
}

/// The kind stores a file.
pub open spec fn stores(kind: Seq<char>) -> bool {
    kind == "Created"@ || kind == "Modified"@
}

/// The size that a stored file gets: what the file system says, or else what the entry
/// says. Directories have no size of their own.
pub open spec fn stored_size(m: PendingMutation, info: Option<(u64, u32)>) -> u64 {
    if m.is_directory {
        0
    } else {
        match info {
            Some((size, _)) => size,
            None => if m.size_delta < 0 {
                0
            } else {
                m.size_delta as u64
            },
        }
    }
}

/// What replaying an entry does, given the size that is known of the file and what the
/// file system says of it.
pub open spec fn is_replay(m: PendingMutation, previous_size: u64, info: Option<(u64, u32)>, r: Replay) -> bool {
    let previous = if m.is_directory {
        0
    } else {
        previous_size as int
    };
    if stores(m.kind@) {
        &&& r.change is Upsert
        &&& r.change->Upsert_file_id == m.file_id
        &&& r.change->Upsert_parent_file_id == m.parent_file_id
        &&& r.change->Upsert_name@ == m.name@
        &&& r.change->is_directory == m.is_directory
        &&& r.change->size == stored_size(m, info)
        &&& r.change->at@ == m.at@
        &&& r.change->attributes == (match info {
            Some((_, attributes)) => attributes,
            None => 0,
        })
        &&& r.delta is Some
        &&& r.delta->0 == stored_size(m, info) - previous
        &&& r.index == IndexSync::Update
    } else if m.kind@ == "Deleted"@ {
        &&& r.change is Remove
        &&& r.change->Remove_file_id == m.file_id
        &&& r.delta is Some
        &&& r.delta->0 == -previous
        &&& r.index == IndexSync::Delete
    } else if m.kind@ == "Renamed"@ {
        &&& r.change is Rename
        &&& r.change->Rename_file_id == m.file_id
        &&& r.change->Rename_name@ == m.name@
        &&& r.change->Rename_parent_file_id == m.parent_file_id
        &&& r.delta is None
        &&& r.index == IndexSync::Update
    } else {
        r.change is Nothing && r.delta is None && r.index == IndexSync::Nothing
    }
}

/// Decides what replaying an entry does.
pub fn replay(m: &PendingMutation, previous_size: u64, info: Option<(u64, u32)>) -> (r: Replay)
    requires
        previous_size <= i64::MAX,
        stored_size(*m, info) <= i64::MAX,
    ensures
        is_replay(*m, previous_size, info, r),
{
    proof {
        crate::snapshot_diff::lemma_kinds();
    }
    let previous: u64 = if m.is_directory { 0 } else { previous_size };
    if str_eq(m.kind.as_str(), "Created") || str_eq(m.kind.as_str(), "Modified") {
        let mut size: u64 = if m.is_directory || m.size_delta < 0 { 0 } else { m.size_delta as u64 };
        let mut attributes: u32 = 0;
        if let Some((real_size, real_attributes)) = info {
            if !m.is_directory {
                size = real_size;
            }
            attributes = real_attributes;
        }
        Replay {
            change: FactChange::Upsert {
                file_id: m.file_id,
                parent_file_id: m.parent_file_id,
                name: m.name.clone(),
                is_directory: m.is_directory,
                size,
                at: m.at.clone(),
                attributes,
            },
            delta: Some(size as i64 - previous as i64),
            index: IndexSync::Update,
        }
    } else if str_eq(m.kind.as_str(), "Deleted") {
        Replay {
            change: FactChange::Remove { file_id: m.file_id },
            delta: Some(-(previous as i64)),
            index: IndexSync::Delete,
        }
    } else if str_eq(m.kind.as_str(), "Renamed") {
        Replay {
            change: FactChange::Rename {
                file_id: m.file_id,
                name: m.name.clone(),
                parent_file_id: m.parent_file_id,
            },
            delta: None,
            index: IndexSync::Update,
        }
    } else {
        Replay { change: FactChange::Nothing, delta: None, index: IndexSync::Nothing }
    }
}

/// A stored file as plain values.
pub struct FactView {
    pub parent_file_id: u64,
    pub name: Seq<char>,
    pub is_directory: bool,
    pub size: int,
    pub created_at: Seq<char>,
    pub modified_at: Seq<char>,
    pub attributes: u32,
}

/// The facts after a change. A file that was known keeps the time of its creation.
pub open spec fn changed(facts: Map<u64, FactView>, change: FactChange) -> Map<u64, FactView> {
    match change {
        FactChange::Upsert { file_id, parent_file_id, name, is_directory, size, at, attributes } => facts.insert(
            file_id,
            FactView {
                parent_file_id,
                name: name@,
                is_directory,
                size: size as int,
                created_at: if facts.contains_key(file_id) {
                    facts[file_id].created_at
                } else {
                    at@
                },
                modified_at: at@,
                attributes,
            },
        ),
        FactChange::Remove { file_id } => facts.remove(file_id),
        FactChange::Rename { file_id, name, parent_file_id } => if facts.contains_key(file_id) {
            facts.insert(file_id, FactView { name: name@, parent_file_id, ..facts[file_id] })
        } else {
            facts
        },
        FactChange::Nothing => facts,
    }
}

/// The size that is known of a file; none counts as 0.
pub open spec fn known_size(facts: Map<u64, FactView>, id: u64) -> int {
    if facts.contains_key(id) {
        facts[id].size
    } else {
        0
    }
}

/// The growth that replaying enters in the log is the change of the file's known size,
/// and a rename changes no size.
pub proof fn law_logged_growth(facts: Map<u64, FactView>, m: PendingMutation, previous_size: u64, info: Option<(u64, u32)>, r: Replay)
    requires
        is_replay(m, previous_size, info, r),
        previous_size == known_size(facts, m.file_id),
        m.is_directory ==> known_size(facts, m.file_id) == 0,
    ensures
        r.delta is Some ==> known_size(changed(facts, r.change), m.file_id) - known_size(facts, m.file_id)
            == r.delta->0,
        r.delta is None ==> known_size(changed(facts, r.change), m.file_id) == known_size(facts, m.file_id),
{
}

/// Replaying an entry changes nothing about other files.
pub proof fn law_replay_is_local(facts: Map<u64, FactView>, m: PendingMutation, previous_size: u64, info: Option<(u64, u32)>, r: Replay, other: u64)
    requires
        is_replay(m, previous_size, info, r),
        other != m.file_id,
    ensures
        changed(facts, r.change).contains_key(other) == facts.contains_key(other),
        facts.contains_key(other) ==> changed(facts, r.change)[other] == facts[other],
{
}

/// After its replay a deleted file is not known, and a stored one is, under the name
/// that the entry gives it.
pub proof fn law_replay_result(facts: Map<u64, FactView>, m: PendingMutation, previous_size: u64, info: Option<(u64, u32)>, r: Replay)
    requires
        is_replay(m, previous_size, info, r),
    ensures
        m.kind@ == "Deleted"@ ==> !changed(facts, r.change).contains_key(m.file_id),
        stores(m.kind@) ==> changed(facts, r.change).contains_key(m.file_id) && changed(facts, r.change)[m.file_id].name
            == m.name@,
{
    crate::snapshot_diff::lemma_kinds();
}

/// The sizes of files after a change.
pub open spec fn resized(sizes: Map<u64, u64>, change: FactChange) -> Map<u64, u64> {
    match change {
        FactChange::Upsert { file_id, size, .. } => sizes.insert(file_id, size),
        FactChange::Remove { file_id } => sizes.remove(file_id),
        _ => sizes,
    }
}

/// The sizes of files after all changes.
pub open spec fn resized_all(sizes: Map<u64, u64>, replays: Seq<Replay>) -> Map<u64, u64>
    decreases replays.len(),
{
    if replays.len() == 0 {
        sizes
    } else {
        resized(resized_all(sizes, replays.drop_last()), replays.last().change)
    }
}

/// The size of a file; one that is not known counts as 0.
pub open spec fn size_of(sizes: Map<u64, u64>, id: u64) -> u64 {
    if sizes.contains_key(id) {
        sizes[id]
    } else {
        0
    }
}

/// What replaying a batch does: each entry is replayed on what those before it left.
pub open spec fn is_batch(sizes: Map<u64, u64>, ms: Seq<PendingMutation>, infos: Seq<Option<(u64, u32)>>, replays: Seq<Replay>) -> bool {
    &&& replays.len() == ms.len()
    &&& forall|i: int|
        0 <= i < replays.len() ==> is_replay(
            ms[i],
            size_of(resized_all(sizes, replays.take(i)), ms[i].file_id),
            infos[i],
            #[trigger] replays[i],
        )
}

/// What a batch does.
pub struct Batch {
    pub replays: Vec<Replay>,
    /// The place up to which the log is replayed now.
    pub last_sequence: i64,
}

/// All sizes can be entered in the log.
pub open spec fn sizes_fit(sizes: Map<u64, u64>) -> bool {
    forall|id: u64| sizes.contains_key(id) ==> #[trigger] sizes[id] <= i64::MAX
}

/// Replays a batch of the log. `sizes` are the known sizes of the files that it names,
/// and `infos` what the file system says of the file of each entry.
pub fn drain_batch(mutations: &Vec<PendingMutation>, sizes: HashMap<u64, u64>, infos: &Vec<Option<(u64, u32)>>, last_sequence: i64) -> (b: Batch)
    requires
        infos@.len() == mutations@.len(),
        sizes_fit(sizes@),
        forall|i: int| 0 <= i < mutations@.len() ==> stored_size(#[trigger] mutations@[i], infos@[i]) <= i64::MAX,
    ensures
        is_batch(sizes@, mutations@, infos@, b.replays@),
        b.last_sequence == (if mutations@.len() == 0 {
            last_sequence
        } else {
            mutations@.last().sequence
        }),
{
    let ghost start = sizes@;
    let mut known = sizes;
    let mut replays: Vec<Replay> = Vec::new();
    let mut i: usize = 0;
    while i < mutations.len()
        invariant
            infos@.len() == mutations@.len(),
            forall|k: int| 0 <= k < mutations@.len() ==> stored_size(#[trigger] mutations@[k], infos@[k]) <= i64::MAX,
            i <= mutations@.len(),
            replays@.len() == i,
            sizes_fit(known@),
            known@ == resized_all(start, replays@),
            forall|k: int| 0 <= k < i ==> #[trigger] is_replayed(start, mutations@, infos@, replays@, k),
        decreases mutations@.len() - i,
    {
        let ghost before = replays@;
        let r = replay_step(&mutations[i], &mut known, infos[i]);
        let ghost done = r;
        replays.push(r);
        proof {
            lemma_replayed(start, mutations@, infos@, before, done);
            assert(replays@ =~= before.push(done));
        }
        i = i + 1;
    }
    proof {
        lemma_batch(start, mutations@, infos@, replays@);
    }
    Batch { replays, last_sequence: batch_end(mutations, last_sequence) }
}

/// Replays an entry on the sizes that are known.
fn replay_step(m: &PendingMutation, known: &mut HashMap<u64, u64>, info: Option<(u64, u32)>) -> (r: Replay)
    requires
        sizes_fit(old(known)@),
        stored_size(*m, info) <= i64::MAX,
    ensures
        is_replay(*m, size_of(old(known)@, m.file_id), info, r),
        final(known)@ == resized(old(known)@, r.change),
        sizes_fit(final(known)@),
{
    let previous: u64 = match known.get(&m.file_id) {
        Some(n) => *n,
        None => 0,
    };
    let r = replay(m, previous, info);
    match &r.change {
        FactChange::Upsert { file_id, parent_file_id: _, name: _, is_directory: _, size, at: _, attributes: _ } => {
            known.insert(*file_id, *size);
        },
        FactChange::Remove { file_id } => {
            known.remove(file_id);
        },
        _ => {},
    }
    r
}

/// Entry `k` of a batch was replayed on what those before it left.
#[verifier::opaque]
spec fn is_replayed(
    sizes: Map<u64, u64>,
    ms: Seq<PendingMutation>,
    infos: Seq<Option<(u64, u32)>>,
    replays: Seq<Replay>,
    k: int,
) -> bool {
    is_replay(ms[k], size_of(resized_all(sizes, replays.take(k)), ms[k].file_id), infos[k], replays[k])
}

/// One more entry was replayed.
proof fn lemma_replayed(
    sizes: Map<u64, u64>,
    ms: Seq<PendingMutation>,
    infos: Seq<Option<(u64, u32)>>,
    replays: Seq<Replay>,
    r: Replay,
)
    requires
        replays.len() < ms.len(),
        forall|k: int| 0 <= k < replays.len() ==> #[trigger] is_replayed(sizes, ms, infos, replays, k),
        is_replay(
            ms[replays.len() as int],
            size_of(resized_all(sizes, replays), ms[replays.len() as int].file_id),
            infos[replays.len() as int],
            r,
        ),
    ensures
        forall|k: int|
            0 <= k < replays.push(r).len() ==> #[trigger] is_replayed(sizes, ms, infos, replays.push(r), k),
        resized_all(sizes, replays.push(r)) == resized(resized_all(sizes, replays), r.change),
{
    let more = replays.push(r);
    let n = replays.len() as int;
    assert(more.drop_last() =~= replays);
    assert forall|k: int| 0 <= k < more.len() implies #[trigger] is_replayed(sizes, ms, infos, more, k) by {
        reveal(is_replayed);
        if k < n {
            assert(is_replayed(sizes, ms, infos, replays, k));
            assert(more.take(k) =~= replays.take(k));
        } else {
            assert(more.take(k) =~= replays);
        }
    }
}

proof fn lemma_batch(
    sizes: Map<u64, u64>,
    ms: Seq<PendingMutation>,
    infos: Seq<Option<(u64, u32)>>,
    replays: Seq<Replay>,
)
    requires
        replays.len() == ms.len(),
        forall|k: int| 0 <= k < replays.len() ==> #[trigger] is_replayed(sizes, ms, infos, replays, k),
    ensures
        is_batch(sizes, ms, infos, replays),
{
    assert forall|k: int| 0 <= k < replays.len() implies is_replay(
        ms[k],
        size_of(resized_all(sizes, replays.take(k)), ms[k].file_id),
        infos[k],
        #[trigger] replays[k],
    ) by {
        assert(is_replayed(sizes, ms, infos, replays, k));
        reveal(is_replayed);
    }
}

/// The growth that a batch enters in the log for one file.
pub open spec fn logged_for(ms: Seq<PendingMutation>, replays: Seq<Replay>, id: u64) -> int
    decreases replays.len(),
{
    if replays.len() == 0 {
        0
    } else {
        logged_for(ms, replays.drop_last(), id) + (if ms[replays.len() - 1].file_id == id && replays.last().delta is Some {
            replays.last().delta->0 as int
        } else {
            0
        })
    }
}

/// What a batch enters in the log for a file adds up to the change of its size.
pub proof fn law_batch_growth(sizes: Map<u64, u64>, ms: Seq<PendingMutation>, infos: Seq<Option<(u64, u32)>>, replays: Seq<Replay>, id: u64)
    requires
        is_batch(sizes, ms, infos, replays),
        forall|i: int| 0 <= i < ms.len() && (#[trigger] ms[i]).file_id == id ==> !ms[i].is_directory,
    ensures
        logged_for(ms, replays, id) == size_of(resized_all(sizes, replays), id) - size_of(sizes, id),
{
    lemma_batch_growth(sizes, ms, infos, replays, id, replays.len() as int);
    assert(replays.take(replays.len() as int) =~= replays);
}

/// What one entry of a batch enters in the log for a file is the change of its size.
proof fn lemma_entry_growth(
    sizes: Map<u64, u64>,
    ms: Seq<PendingMutation>,
    infos: Seq<Option<(u64, u32)>>,
    replays: Seq<Replay>,
    id: u64,
    k: int,
)
    requires
        is_batch(sizes, ms, infos, replays),
        0 <= k < replays.len(),
        ms[k].file_id == id ==> !ms[k].is_directory,
    ensures
        size_of(resized(resized_all(sizes, replays.take(k)), replays[k].change), id) - size_of(
            resized_all(sizes, replays.take(k)),
            id,
        ) == (if ms[k].file_id == id && replays[k].delta is Some {
            replays[k].delta->0 as int
        } else {
            0
        }),
{
    let before = resized_all(sizes, replays.take(k));
    lemma_replay_growth(before, ms[k], infos[k], replays[k], id);
}

proof fn lemma_replay_growth(
    before: Map<u64, u64>,
    m: PendingMutation,
    info: Option<(u64, u32)>,
    r: Replay,
    id: u64,
)
    requires
        is_replay(m, size_of(before, m.file_id), info, r),
        m.file_id == id ==> !m.is_directory,
    ensures
        size_of(resized(before, r.change), id) - size_of(before, id) == (if m.file_id == id && r.delta is Some {
            r.delta->0 as int
        } else {
            0
        }),
{
}

proof fn lemma_batch_growth(sizes: Map<u64, u64>, ms: Seq<PendingMutation>, infos: Seq<Option<(u64, u32)>>, replays: Seq<Replay>, id: u64, n: int)
    requires
        is_batch(sizes, ms, infos, replays),
        forall|i: int| 0 <= i < ms.len() && (#[trigger] ms[i]).file_id == id ==> !ms[i].is_directory,
        0 <= n <= replays.len(),
    ensures
        logged_for(ms, replays.take(n), id) == size_of(resized_all(sizes, replays.take(n)), id) - size_of(sizes, id),
    decreases n,
{
    if n > 0 {
        lemma_batch_growth(sizes, ms, infos, replays, id, n - 1);
        assert(replays.take(n).drop_last() =~= replays.take(n - 1));
        assert(replays.take(n).last() == replays[n - 1]);
        lemma_entry_growth(sizes, ms, infos, replays, id, n - 1);
    }
}

/// The place up to which the log is replayed after a batch.
pub fn batch_end(mutations: &Vec<PendingMutation>, last_sequence: i64) -> (r: i64)
    ensures
        r == (if mutations@.len() == 0 {
            last_sequence
        } else {
            mutations@.last().sequence
        }),
{
    if mutations.len() == 0 {
        last_sequence
    } else {
        mutations[mutations.len() - 1].sequence
    }
}

/// Whether the first scan of a volume is over, so that its log can be replayed.
pub fn can_replay(state: DaemonState) -> (r: bool)
    ensures
        r == (state == DaemonState::Reconciling || state == DaemonState::Live),
{
    state == DaemonState::Reconciling || state == DaemonState::Live
}

/// The state of a volume after a batch of the replay: once nothing is left to replay, a
/// volume that was catching up is live.
pub fn after_batch(state: DaemonState, processed: usize) -> (r: DaemonState)
    ensures
        r == (if processed == 0 && state == DaemonState::Reconciling {
            DaemonState::Live
        } else {
            state
        }),
{
    if processed == 0 && state == DaemonState::Reconciling {
        DaemonState::Live
    } else {
        state
    }
}

} // verus!
