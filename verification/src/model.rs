//! Events, mutations, facts and the progress of each volume.

use crate::text::{str_eq, views};
use vstd::prelude::*;

verus! {

/// Why a raw event was reported.
#[derive(Debug, Clone, Copy, PartialEq, Eq, Structural)]
pub enum RawEventReason {
    Created,
    Modified,
    RenamedOld,
    RenamedNew,
    Deleted,
}

/// An event as the watcher or the scanner reports it.
#[derive(Debug, Clone)]
pub struct RawEvent {
    pub volume: String,
    pub file_id: u64,
    pub parent_file_id: u64,
    /// Set by the watcher, absent from the scanner.
    pub usn: Option<u64>,
    /// File or directory name only, not a path.
    pub name: String,
    pub reason: RawEventReason,
    pub attributes: u32,
    pub is_directory: bool,
    pub size: u64,
    /// RFC 3339, in UTC.
    pub timestamp: String,
}

#[derive(Debug, Clone, Copy, PartialEq, Eq, Structural)]
pub enum MutationKind {
    Created,
    Modified,
    Renamed,
    Deleted,
}

#[derive(Debug, Clone, Copy, PartialEq, Eq, Structural)]
pub enum MutationSource {
    Watcher,
    Scanner,
    Recovery,
}

/// A change that is entered in the mutation log.
#[derive(Debug, Clone)]
pub struct Mutation {
    pub mutation_id: String,
    pub volume: String,
    pub file_id: u64,
    pub parent_file_id: u64,
    pub name: String,
    pub kind: MutationKind,
    pub is_directory: bool,
    pub size_delta: i64,
    /// RFC 3339, in UTC.
    pub at: String,
    pub source: MutationSource,
}

/// A file or directory as it is known.
#[derive(Debug, Clone)]
pub struct Fact {
    pub volume: String,
    pub file_id: u64,
    /// 0 or the file itself for the root of a volume.
    pub parent_file_id: u64,
    /// Just this segment, e.g. "invoice.pdf".
    pub name: String,
    pub is_directory: bool,
    pub size: u64,
    pub created_at: String,
    pub modified_at: String,
    pub attributes: u32,
}

#[derive(Debug, Clone, Copy, PartialEq, Eq, Structural)]
pub enum DaemonState {
    Starting,
    BaselineScanning,
    Reconciling,
    Live,
}

#[derive(Debug, Clone)]
pub struct ScannerProgress {
    pub dirs_scanned: u64,
    pub files_scanned: u64,
    pub current_path: Option<String>,
}

#[derive(Debug, Clone)]
pub struct WatcherProgress {
    pub usn_start: u64,
    pub events_buffered: u64,
}

#[derive(Debug, Clone)]
pub struct DrainProgress {
    pub replaying: bool,
    pub mutations_replayed: u64,
    pub mutations_total: Option<u64>,
}

#[derive(Debug, Clone)]
pub struct VolumeProgress {
    pub state: DaemonState,
    pub scanner: ScannerProgress,
    pub watcher: WatcherProgress,
    pub drain: DrainProgress,
}

/// The state of the daemon and of all its volumes.
#[derive(Debug, Clone)]
pub struct ProgressSnapshot {
    pub daemon_pid: u32,
    pub db_path: String,
    pub started_at: String,
    /// Live when all volumes are live.
    pub state: DaemonState,
    pub volumes: Vec<(String, VolumeProgress)>,
    pub last_db_modified: Option<String>,
}

/// The counters of one volume.
#[derive(Debug, Clone)]
pub struct VolumeProgressTracker {
    pub state: DaemonState,
    pub dirs_scanned: u64,
    pub files_scanned: u64,
    pub current_path: Option<String>,
    pub usn_start: u64,
    pub events_buffered: u64,
    pub replaying: bool,
    pub mutations_replayed: u64,
    pub mutations_total: u64,
    pub has_mutations_total: bool,
}

/// The counters of a volume of which nothing was heard yet.
pub open spec fn fresh_tracker() -> VolumeProgressTracker {
    VolumeProgressTracker {
        state: DaemonState::Starting,
        dirs_scanned: 0,
        files_scanned: 0,
        current_path: None,
        usn_start: 0,
        events_buffered: 0,
        replaying: false,
        mutations_replayed: 0,
        mutations_total: 0,
        has_mutations_total: false,
    }
}

/// The volumes that the daemon has heard of, each with its counters.
pub struct ProgressRegistry {
    pub names: Vec<String>,
    pub trackers: Vec<VolumeProgressTracker>,
}

impl ProgressRegistry {
    /// Every volume is registered once and has its counters.
    pub open spec fn wf(&self) -> bool {
        &&& self.names@.len() == self.trackers@.len()
        &&& views(self.names@).no_duplicates()
    }

    pub fn new() -> (r: ProgressRegistry)
        ensures
            r.wf(),
            r.names@.len() == 0,
    {
        ProgressRegistry { names: Vec::new(), trackers: Vec::new() }
    }
}

/// The place of a volume's counters in the registry; a volume that was not heard of
/// before is registered.
pub fn get_volume_tracker(registry: &mut ProgressRegistry, volume: &str) -> (i: usize)
    requires
        old(registry).wf(),
    ensures
        final(registry).wf(),
        i < final(registry).names@.len(),
        final(registry).names@[i as int]@ == volume@,
        views(old(registry).names@).contains(volume@) ==> *final(registry) == *old(registry),
        !views(old(registry).names@).contains(volume@) ==> {
            &&& i == old(registry).names@.len()
            &&& views(final(registry).names@) == views(old(registry).names@).push(volume@)
            &&& final(registry).trackers@ == old(registry).trackers@.push(fresh_tracker())
        },
{
    let ghost known = views(registry.names@);
    let mut i: usize = 0;
    while i < registry.names.len()
        invariant
            *registry == *old(registry),
            known == views(registry.names@),
            i <= registry.names@.len(),
            forall|j: int| 0 <= j < i ==> (#[trigger] known[j]) != volume@,
            registry.wf(),
        decreases registry.names@.len() - i,
    {
        if str_eq(registry.names[i].as_str(), volume) {
            assert(known[i as int] == volume@);
            return i;
        }
        i = i + 1;
    }
    assert(!known.contains(volume@));
    registry.names.push(volume.to_owned());
    registry.trackers.push(
        VolumeProgressTracker {
            state: DaemonState::Starting,
            dirs_scanned: 0,
            files_scanned: 0,
            current_path: None,
            usn_start: 0,
            events_buffered: 0,
            replaying: false,
            mutations_replayed: 0,
            mutations_total: 0,
            has_mutations_total: false,
        },
    );
    assert(views(registry.names@) =~= known.push(volume@));
    i
}

/// The volumes that were heard of.
pub fn get_registered_volumes(registry: &ProgressRegistry) -> (r: Vec<String>)
    ensures
        views(r@) == views(registry.names@),
{
    let mut r: Vec<String> = Vec::new();
    let mut i: usize = 0;
    while i < registry.names.len()
        invariant
            i <= registry.names@.len(),
            r@.len() == i,
            forall|j: int| 0 <= j < i ==> #[trigger] r@[j] == registry.names@[j],
        decreases registry.names@.len() - i,
    {
        r.push(registry.names[i].clone());
        i = i + 1;
    }
    assert(views(r@) =~= views(registry.names@));
    r
}

/// The volumes that are not live, in the order of the registry.
pub open spec fn not_live(names: Seq<String>, trackers: Seq<VolumeProgressTracker>) -> Seq<Seq<char>>
    decreases names.len(),
{
    if names.len() == 0 {
        Seq::empty()
    } else {
        let rest = not_live(names.drop_last(), trackers.drop_last());
        if trackers.last().state != DaemonState::Live {
            rest.push(names.last()@)
        } else {
            rest
        }
    }
}

/// The volumes whose facts may be incomplete.
pub fn incomplete_volumes(registry: &ProgressRegistry) -> (r: Vec<String>)
    requires
        registry.wf(),
    ensures
        views(r@) == not_live(registry.names@, registry.trackers@),
{
    let ghost names = registry.names@;
    let ghost trackers = registry.trackers@;
    let mut r: Vec<String> = Vec::new();
    let mut i: usize = 0;
    assert(views(r@) =~= Seq::<Seq<char>>::empty());
    while i < registry.names.len()
        invariant
            names == registry.names@,
            trackers == registry.trackers@,
            names.len() == trackers.len(),
            i <= names.len(),
            views(r@) == not_live(names.take(i as int), trackers.take(i as int)),
        decreases names.len() - i,
    {
        proof {
            assert(names.take(i + 1).drop_last() =~= names.take(i as int));
            assert(trackers.take(i + 1).drop_last() =~= trackers.take(i as int));
        }
        let ghost before = views(r@);
        if registry.trackers[i].state != DaemonState::Live {
            r.push(registry.names[i].clone());
            assert(views(r@) =~= before.push(names[i as int]@));
        }
        i = i + 1;
    }
    assert(names.take(i as int) =~= names);
    assert(trackers.take(i as int) =~= trackers);
    r
}

/// A volume is told as incomplete exactly if it is registered and not live.
pub proof fn law_incomplete(names: Seq<String>, trackers: Seq<VolumeProgressTracker>, volume: Seq<char>)
    requires
        names.len() == trackers.len(),
    ensures
        not_live(names, trackers).contains(volume) <==> exists|i: int|
            0 <= i < names.len() && (#[trigger] names[i])@ == volume && trackers[i].state != DaemonState::Live,
    decreases names.len(),
{
    if names.len() > 0 {
        let n = names.len() - 1;
        let (part, rest) = (names.drop_last(), trackers.drop_last());
        law_incomplete(part, rest, volume);
        let a = not_live(part, rest);
        let b = not_live(names, trackers);
        if a.contains(volume) {
            let k = choose|k: int| 0 <= k < a.len() && a[k] == volume;
            assert(b[k] == volume);
            let i = choose|i: int|
                0 <= i < part.len() && (#[trigger] part[i])@ == volume && rest[i].state != DaemonState::Live;
            assert(names[i]@ == volume && trackers[i] == rest[i]);
        }
        if b.contains(volume) {
            let k = choose|k: int| 0 <= k < b.len() && b[k] == volume;
            if k < a.len() {
                assert(a[k] == volume);
            } else {
                assert(names[n]@ == volume);
            }
        }
        if exists|i: int| 0 <= i < names.len() && (#[trigger] names[i])@ == volume && trackers[i].state != DaemonState::Live {
            let i = choose|i: int|
                0 <= i < names.len() && (#[trigger] names[i])@ == volume && trackers[i].state != DaemonState::Live;
            if i < n {
                assert(part[i]@ == volume && rest[i] == trackers[i]);
            } else {
                assert(b[a.len() as int] == volume);
            }
        }
    }
}

} // verus!
