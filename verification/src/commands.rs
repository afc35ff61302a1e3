//! What the commands decide.

use crate::agent_calls::{allows, is_authorized, is_yes};
use crate::calendar::date_seconds;
use crate::decimal::{decimal, decimal_text};
use crate::store::{goes_back_in_range, is_resolved, resolve_snapshot_ref, SnapshotTime};
use crate::text::{lowercase_of, opt_str, opt_text, trimmed, views};
use vstd::prelude::*;

verus! {

/// Tells from which snapshot a scan takes over what has not changed, if from any. A scan
/// that must be warm needs one.
pub fn plan_scan(cold: bool, warm: bool, latest: Option<i64>, root: &str) -> (r: Result<Option<i64>, String>)
    ensures
        match r {
            Ok(from) => {
                &&& cold || latest is Some || !warm
                &&& from == (if cold {
                    None
                } else {
                    latest
                })
            },
            Err(e) => {
                &&& !cold && latest is None && warm
                &&& e@ == "Force-warm scan requested but no previous snapshot found for root '"@ + root@ + "'"@
            },
        },
{
    if cold {
        return Ok(None);
    }
    if latest.is_none() && warm {
        let mut e = "Force-warm scan requested but no previous snapshot found for root '".to_owned();
        e.append(root);
        e.append("'");
        return Err(e);
    }
    Ok(latest)
}

/// What is done with a scan that has ended.
#[derive(Debug, Clone, Copy, PartialEq, Eq, Structural)]
pub enum ScanEnd {
    /// Only the measurement is shown.
    ShowBench,
    /// Nothing is stored.
    Discard,
    /// The scan is stored as a snapshot.
    Store,
}

/// Tells what is done with a scan that has ended: an interrupted one leaves nothing
/// behind.
pub fn after_scan(bench: bool, interrupted: bool) -> (r: ScanEnd)
    ensures
        r == (if bench {
            ScanEnd::ShowBench
        } else if interrupted {
            ScanEnd::Discard
        } else {
            ScanEnd::Store
        }),
{
    if bench {
        ScanEnd::ShowBench
    } else if interrupted {
        ScanEnd::Discard
    } else {
        ScanEnd::Store
    }
}

/// Whether a scan tells how much it took over.
pub fn reports_reuse(warm: bool, quiet: bool, json: bool, dirs: u64) -> (r: bool)
    ensures
        r == (warm && !quiet && !json && dirs > 0),
{
    warm && !quiet && !json && dirs > 0
}

/// The message where there is no snapshot at all.
pub open spec fn no_snapshots() -> Seq<char> {
    "No snapshots found. Run `disktracker scan` first."@
}

/// The highest number of a snapshot.
pub open spec fn is_latest(snapshots: Seq<SnapshotTime>, r: Option<i64>) -> bool {
    match r {
        Some(id) => {
            &&& exists|i: int| 0 <= i < snapshots.len() && (#[trigger] snapshots[i]).id == id
            &&& forall|i: int| 0 <= i < snapshots.len() ==> (#[trigger] snapshots[i]).id <= id
        },
        None => snapshots.len() == 0,
    }
}

/// The latest snapshot: the one with the highest number.
pub fn get_latest_snapshot_id(snapshots: &Vec<SnapshotTime>) -> (r: Option<i64>)
    ensures
        is_latest(snapshots@, r),
{
    if snapshots.len() == 0 {
        return None;
    }
    let mut best: i64 = snapshots[0].id;
    let mut i: usize = 1;
    while i < snapshots.len()
        invariant
            1 <= i <= snapshots@.len(),
            exists|k: int| 0 <= k < snapshots@.len() && (#[trigger] snapshots@[k]).id == best,
            forall|k: int| 0 <= k < i ==> (#[trigger] snapshots@[k]).id <= best,
        decreases snapshots@.len() - i,
    {
        let id = snapshots[i].id;
        assert(snapshots@[i as int].id == id);
        if id > best {
            best = id;
        }
        i = i + 1;
    }
    Some(best)
}

/// The snapshot that is compared with an earlier one: the one that is asked for, or the
/// latest.
pub open spec fn is_later(to: Option<Seq<char>>, now: int, snapshots: Seq<SnapshotTime>, r: Result<i64, String>) -> bool {
    match to {
        Some(s) => is_resolved(s, date_seconds(s), now, snapshots, r),
        None => match r {
            Ok(id) => is_latest(snapshots, Some(id)),
            Err(e) => snapshots.len() == 0 && e@ == no_snapshots(),
        },
    }
}

/// The snapshot with which a later one is compared: the one that is asked for, or the
/// last but one.
pub open spec fn is_earlier(from: Option<Seq<char>>, now: int, snapshots: Seq<SnapshotTime>, r: Result<i64, String>) -> bool {
    match from {
        Some(s) => is_resolved(s, date_seconds(s), now, snapshots, r),
        None => match r {
            Ok(id) => snapshots.len() >= 2 && id == snapshots[snapshots.len() - 2].id,
            Err(e) => snapshots.len() < 2 && e@ == "Need at least 2 snapshots. Got "@ + decimal_text(snapshots.len())
                + "."@,
        },
    }
}

/// Tells which snapshot is compared with an earlier one.
pub fn later_snapshot(to: Option<&str>, now: i64, snapshots: &Vec<SnapshotTime>) -> (r: Result<i64, String>)
    requires
        to is Some ==> goes_back_in_range(to->0@, now as int),
    ensures
        is_later(opt_str(to), now as int, snapshots@, r),
{
    match to {
        Some(s) => resolve_snapshot_ref(s, now, snapshots),
        None => match get_latest_snapshot_id(snapshots) {
            Some(id) => Ok(id),
            None => Err("No snapshots found. Run `disktracker scan` first.".to_owned()),
        },
    }
}

/// Tells with which snapshot a later one is compared; snapshots are given in the order
/// in which they were taken.
pub fn earlier_snapshot(from: Option<&str>, now: i64, snapshots: &Vec<SnapshotTime>) -> (r: Result<i64, String>)
    requires
        from is Some ==> goes_back_in_range(from->0@, now as int),
    ensures
        is_earlier(opt_str(from), now as int, snapshots@, r),
{
    match from {
        Some(s) => resolve_snapshot_ref(s, now, snapshots),
        None => {
            let n = snapshots.len();
            if n < 2 {
                let mut e = "Need at least 2 snapshots. Got ".to_owned();
                let count = decimal(n as u64);
                e.append(count.as_str());
                e.append(".");
                return Err(e);
            }
            Ok(snapshots[n - 2].id)
        },
    }
}

/// The roots that are scanned to bring the watcher's state up to date: those that it
/// watches, or that of the last snapshot, or the default.
pub fn reconcile_roots(watched: Vec<String>, last_root: Option<String>, default_root: String) -> (r: Vec<String>)
    ensures
        watched@.len() > 0 ==> r == watched,
        watched@.len() == 0 ==> r@ == seq![match last_root {
            Some(root) => root,
            None => default_root,
        }],
{
    if watched.len() > 0 {
        return watched;
    }
    let mut r: Vec<String> = Vec::new();
    match last_root {
        Some(root) => {
            r.push(root);
        },
        None => {
            r.push(default_root);
        },
    }
    r
}

/// What a scan found more than the snapshot before it, for each root.
#[derive(Debug, Clone, Copy)]
pub struct RootDrift {
    pub found: i64,
    pub before: Option<i64>,
}

/// The growth of a root since its last snapshot.
pub open spec fn drift_of(d: RootDrift) -> int {
    d.found - (match d.before {
        Some(n) => n as int,
        None => 0,
    })
}

/// The growth of all roots together.
pub open spec fn total_drift(roots: Seq<RootDrift>) -> int
    decreases roots.len(),
{
    if roots.len() == 0 {
        0
    } else {
        total_drift(roots.drop_last()) + drift_of(roots.last())
    }
}

/// The growth of each root can be held, and so can that of the first ones together.
pub open spec fn drift_fits(roots: Seq<RootDrift>) -> bool {
    forall|n: int|
        0 < n <= roots.len() ==> i64::MIN <= drift_of(roots[n - 1]) <= i64::MAX && i64::MIN <= #[trigger] total_drift(
            roots.take(n),
        ) <= i64::MAX
}

/// The growth of all roots together.
pub fn sum_drift(roots: &Vec<RootDrift>) -> (r: i64)
    requires
        drift_fits(roots@),
    ensures
        r == total_drift(roots@),
{
    let mut sum: i64 = 0;
    let mut i: usize = 0;
    assert(roots@.take(0) =~= Seq::<RootDrift>::empty());
    while i < roots.len()
        invariant
            drift_fits(roots@),
            i <= roots@.len(),
            sum == total_drift(roots@.take(i as int)),
        decreases roots@.len() - i,
    {
        let d = roots[i];
        proof {
            assert(roots@.take(i + 1).drop_last() =~= roots@.take(i as int));
            assert(i64::MIN <= total_drift(roots@.take(i + 1)) <= i64::MAX);
            assert(roots@[(i + 1) - 1] == d);
        }
        let before: i64 = match d.before {
            Some(n) => n,
            None => 0,
        };
        sum = sum + (d.found - before);
        i = i + 1;
    }
    assert(roots@.take(i as int) =~= roots@);
    sum
}

/// Where a reconciliation without a scan goes on from.
#[derive(Debug, Clone, Copy, PartialEq, Eq, Structural)]
pub struct LazyStart {
    pub since: i64,
    pub snapshot_id: i64,
}

/// Tells where a reconciliation without a scan goes on from: there must have been one
/// before, and a snapshot.
pub fn lazy_start(last_reconcile: Option<i64>, last_snapshot: Option<i64>) -> (r: Option<LazyStart>)
    ensures
        r is Some <==> last_reconcile is Some && last_snapshot is Some,
        r is Some ==> r->0.since == last_reconcile->0 && r->0.snapshot_id == last_snapshot->0,
{
    match (last_reconcile, last_snapshot) {
        (Some(since), Some(snapshot_id)) => Some(LazyStart { since, snapshot_id }),
        _ => None,
    }
}

/// A rule is needed to prune by.
pub fn check_prune_rules(keep_last: Option<usize>, has_age: bool) -> (r: Result<(), String>)
    ensures
        r is Ok <==> keep_last is Some || has_age,
        r is Err ==> r->Err_0@
            == "Specify at least one pruning rule:\n  --keep-last N       keep the N most recent snapshots\n  --older-than DURATION  delete snapshots older than e.g. 90d, 12w, 6m"@,
{
    if keep_last.is_some() || has_age {
        Ok(())
    } else {
        Err(
            "Specify at least one pruning rule:\n  --keep-last N       keep the N most recent snapshots\n  --older-than DURATION  delete snapshots older than e.g. 90d, 12w, 6m".to_owned(),
        )
    }
}

/// How far an uninstallation has come.
#[allow(inconsistent_fields)]
#[derive(Debug, Clone, Copy, PartialEq, Eq, Structural)]
pub enum Uninstall {
    /// The user is asked.
    Asking,
    /// The daemon is asked whether it runs.
    Querying,
    /// The running daemon cleans up.
    Cleaning { pid: u32 },
    /// The running daemon is stopped.
    Stopping { pid: u32 },
    /// A daemon is started to clean up.
    Spawning,
    /// The daemon that was started is waited for.
    Polling { pid: u32 },
    CleaningTemporary { pid: u32 },
    StoppingTemporary { pid: u32 },
    /// The settings are removed, and the daemon that cannot be reached is stopped.
    RemovingConfig { pid: Option<u32> },
    /// The directory of the database is looked at.
    Checking,
    /// The directory of the database is deleted.
    Deleting { retries: u32 },
    /// What else was left behind is removed.
    Sweeping,
    Finished,
    Aborted,
    Failed,
}

/// What has happened since.
#[derive(Debug, Clone, Copy, PartialEq, Eq, Structural)]
pub enum UninstallEvent {
    /// What was to be done is done, whether it went well or not.
    Done,
    /// The user allowed it, or did not.
    Answer(bool),
    /// The daemon runs.
    Running(u32),
    /// The daemon gave no status that can be read.
    Unreadable,
    /// No daemon can be reached.
    NotRunning,
    /// A daemon was started, or could not be.
    Spawned(Option<u32>),
    /// The daemon that was started did not answer in time.
    TimedOut,
    /// The directory of the database exists, or does not.
    Directory(bool),
    /// The directory could not be deleted.
    DeleteFailed,
}

/// How often the deletion of the directory is tried again.
pub const DELETE_RETRIES: u32 = 5;

/// What an uninstallation does after an event; an event that does not fit changes
/// nothing.
pub open spec fn after_event(state: Uninstall, event: UninstallEvent, delete_snapshot: bool) -> Uninstall {
    match (state, event) {
        (Uninstall::Asking, UninstallEvent::Answer(yes)) => if yes {
            Uninstall::Querying
        } else {
            Uninstall::Aborted
        },
        (Uninstall::Querying, UninstallEvent::Running(pid)) => Uninstall::Cleaning { pid },
        (Uninstall::Querying, UninstallEvent::Unreadable) => Uninstall::Checking,
        (Uninstall::Querying, UninstallEvent::NotRunning) => Uninstall::Spawning,
        (Uninstall::Cleaning { pid }, UninstallEvent::Done) => Uninstall::Stopping { pid },
        (Uninstall::Stopping { .. }, UninstallEvent::Done) => Uninstall::Checking,
        (Uninstall::Spawning, UninstallEvent::Spawned(Some(pid))) => Uninstall::Polling { pid },
        (Uninstall::Spawning, UninstallEvent::Spawned(None)) => Uninstall::RemovingConfig { pid: None },
        (Uninstall::Polling { .. }, UninstallEvent::Running(pid)) => Uninstall::CleaningTemporary { pid },
        (Uninstall::Polling { pid }, UninstallEvent::TimedOut) => Uninstall::RemovingConfig { pid: Some(pid) },
        (Uninstall::CleaningTemporary { pid }, UninstallEvent::Done) => Uninstall::StoppingTemporary { pid },
        (Uninstall::StoppingTemporary { .. }, UninstallEvent::Done) => Uninstall::Checking,
        (Uninstall::RemovingConfig { .. }, UninstallEvent::Done) => Uninstall::Checking,
        (Uninstall::Checking, UninstallEvent::Directory(there)) => if there && delete_snapshot {
            Uninstall::Deleting { retries: DELETE_RETRIES }
        } else {
            Uninstall::Sweeping
        },
        (Uninstall::Deleting { .. }, UninstallEvent::Done) => Uninstall::Sweeping,
        (Uninstall::Deleting { retries }, UninstallEvent::DeleteFailed) => if retries > 0 {
            Uninstall::Deleting { retries: (retries - 1) as u32 }
        } else {
            Uninstall::Failed
        },
        (Uninstall::Sweeping, UninstallEvent::Done) => Uninstall::Finished,
        _ => state,
    }
}

impl Uninstall {
    /// Begins an uninstallation; the user is asked unless that was answered before.
    pub fn start(yes: bool) -> (s: Uninstall)
        ensures
            s == (if yes {
                Uninstall::Querying
            } else {
                Uninstall::Asking
            }),
    {
        if yes {
            Uninstall::Querying
        } else {
            Uninstall::Asking
        }
    }

    /// Goes on after an event.
    pub fn next(self, event: UninstallEvent, delete_snapshot: bool) -> (s: Uninstall)
        ensures
            s == after_event(self, event, delete_snapshot),
    {
        match (self, event) {
            (Uninstall::Asking, UninstallEvent::Answer(yes)) => if yes {
                Uninstall::Querying
            } else {
                Uninstall::Aborted
            },
            (Uninstall::Querying, UninstallEvent::Running(pid)) => Uninstall::Cleaning { pid },
            (Uninstall::Querying, UninstallEvent::Unreadable) => Uninstall::Checking,
            (Uninstall::Querying, UninstallEvent::NotRunning) => Uninstall::Spawning,
            (Uninstall::Cleaning { pid }, UninstallEvent::Done) => Uninstall::Stopping { pid },
            (Uninstall::Stopping { .. }, UninstallEvent::Done) => Uninstall::Checking,
            (Uninstall::Spawning, UninstallEvent::Spawned(Some(pid))) => Uninstall::Polling { pid },
            (Uninstall::Spawning, UninstallEvent::Spawned(None)) => Uninstall::RemovingConfig { pid: None },
            (Uninstall::Polling { .. }, UninstallEvent::Running(pid)) => Uninstall::CleaningTemporary { pid },
            (Uninstall::Polling { pid }, UninstallEvent::TimedOut) => Uninstall::RemovingConfig { pid: Some(pid) },
            (Uninstall::CleaningTemporary { pid }, UninstallEvent::Done) => Uninstall::StoppingTemporary { pid },
            (Uninstall::StoppingTemporary { .. }, UninstallEvent::Done) => Uninstall::Checking,
            (Uninstall::RemovingConfig { .. }, UninstallEvent::Done) => Uninstall::Checking,
            (Uninstall::Checking, UninstallEvent::Directory(there)) => if there && delete_snapshot {
                Uninstall::Deleting { retries: DELETE_RETRIES }
            } else {
                Uninstall::Sweeping
            },
            (Uninstall::Deleting { .. }, UninstallEvent::Done) => Uninstall::Sweeping,
            (Uninstall::Deleting { retries }, UninstallEvent::DeleteFailed) => if retries > 0 {
                Uninstall::Deleting { retries: retries - 1 }
            } else {
                Uninstall::Failed
            },
            (Uninstall::Sweeping, UninstallEvent::Done) => Uninstall::Finished,
            _ => self,
        }
    }

    /// How long is waited before going on, in milliseconds.
    pub fn pause_ms(self, event: UninstallEvent, went_well: bool) -> (ms: u64)
        ensures
            ms == (match (self, event) {
                (Uninstall::Stopping { .. }, UninstallEvent::Done) => if went_well {
                    500u64
                } else {
                    0u64
                },
                (Uninstall::StoppingTemporary { .. }, UninstallEvent::Done) => 500u64,
                (Uninstall::Deleting { retries }, UninstallEvent::DeleteFailed) => if retries > 0 {
                    200u64
                } else {
                    0u64
                },
                _ => 0u64,
            }),
    {
        match (self, event) {
            (Uninstall::Stopping { .. }, UninstallEvent::Done) => if went_well {
                500
            } else {
                0
            },
            (Uninstall::StoppingTemporary { .. }, UninstallEvent::Done) => 500,
            (Uninstall::Deleting { retries }, UninstallEvent::DeleteFailed) => if retries > 0 {
                200
            } else {
                0
            },
            _ => 0,
        }
    }
}

/// The question that the user is asked before an uninstallation.
pub fn uninstall_prompt(delete_snapshot: bool) -> (r: String)
    ensures
        r@ == (if delete_snapshot {
            "Are you sure you want to stop the daemon and uninstall DiskTracker (snapshots WILL be deleted)? [y/N]: "@
        } else {
            "Are you sure you want to stop the daemon and uninstall DiskTracker (snapshots will be preserved)? [y/N]: "@
        }),
{
    if delete_snapshot {
        "Are you sure you want to stop the daemon and uninstall DiskTracker (snapshots WILL be deleted)? [y/N]: ".to_owned()
    } else {
        "Are you sure you want to stop the daemon and uninstall DiskTracker (snapshots will be preserved)? [y/N]: ".to_owned()
    }
}

/// The event of an answer in lower case and without white space around it.
pub fn uninstall_answer(lower: &str) -> (e: UninstallEvent)
    ensures
        e == UninstallEvent::Answer(allows(lower@)),
{
    UninstallEvent::Answer(is_yes(lower))
}

/// The event of an answer as it was typed.
pub fn uninstall_reply(input: &str) -> (e: UninstallEvent)
    ensures
        e == UninstallEvent::Answer(allows(lowercase_of(trimmed(input@)))),
{
    UninstallEvent::Answer(is_authorized(input))
}

/// How long a daemon that was started is waited for, in seconds.
pub const POLL_LIMIT_SECS: u64 = 5;

/// How long is waited between two looks for it, in milliseconds.
pub const POLL_PAUSE_MS: u64 = 100;

/// How long is waited before a daemon that was started is looked for again, in
/// milliseconds, or that it is given up.
pub fn poll_pause_ms(elapsed_secs: u64) -> (r: Option<u64>)
    ensures
        r == (if elapsed_secs < POLL_LIMIT_SECS {
            Some(POLL_PAUSE_MS)
        } else {
            None
        }),
{
    if elapsed_secs < POLL_LIMIT_SECS {
        Some(POLL_PAUSE_MS)
    } else {
        None
    }
}

/// The directory with the snapshots is never deleted unless that was asked for.
pub proof fn law_snapshots_kept(state: Uninstall, event: UninstallEvent)
    requires
        !(state is Deleting),
    ensures
        !(after_event(state, event, false) is Deleting),
{
}

/// Nothing is done before the user has allowed it, and nothing after they have not.
pub proof fn law_uninstall_needs_consent(event: UninstallEvent, delete_snapshot: bool)
    ensures
        event == UninstallEvent::Answer(true) <==> after_event(Uninstall::Asking, event, delete_snapshot)
            == Uninstall::Querying,
        after_event(Uninstall::Asking, event, delete_snapshot) == Uninstall::Querying || after_event(
            Uninstall::Asking,
            event,
            delete_snapshot,
        ) == Uninstall::Asking || after_event(Uninstall::Asking, event, delete_snapshot) == Uninstall::Aborted,
        after_event(Uninstall::Aborted, event, delete_snapshot) == Uninstall::Aborted,
{
}

/// What the daemon said of its database.
pub enum IntegrityReply {
    Status(String),
    Invalid,
    DaemonError(String),
    /// Neither a result nor an error.
    Empty,
    Unreachable(String),
}

/// A pruning that the daemon has logged.
pub struct LoggedRun {
    pub volume: Option<String>,
    pub status: Option<String>,
    pub run_at: Option<String>,
    pub details: Option<String>,
}

/// What the daemon said of its prunings.
pub enum PruningReply {
    Runs(Vec<LoggedRun>),
    Invalid,
    DaemonError(String),
    /// Neither a result nor an error.
    Empty,
    Unreachable(String),
}

/// Whether the folder of the application can be written to.
pub enum FolderState {
    Writable,
    NotWritable { folder: String, error: String },
    Unknown(String),
}

/// Something that is checked.
pub enum Check {
    Elevation(bool),
    Folder(FolderState),
    /// The daemon was reached, or the error.
    Pipe(Option<String>),
    Integrity(IntegrityReply),
    Journal,
    Pruning(PruningReply),
}

/// A text, or a question mark where there is none.
pub open spec fn or_unknown(o: Option<Seq<char>>) -> Seq<char> {
    match o {
        Some(s) => s,
        None => "?"@,
    }
}

/// The line on a pruning.
pub open spec fn run_line(r: LoggedRun) -> Seq<char> {
    "      - Volume "@ + or_unknown(opt_text(r.volume)) + ": ["@ + or_unknown(opt_text(r.status)) + "] at "@
        + or_unknown(opt_text(r.run_at)) + " ("@ + or_unknown(opt_text(r.details)) + ")"@
}

/// The lines on the latest prunings, up to three.
pub open spec fn run_lines(runs: Seq<LoggedRun>) -> Seq<Seq<char>> {
    Seq::new(
        if runs.len() <= 3 {
            runs.len()
        } else {
            3
        },
        |i: int| run_line(runs[i]),
    )
}

/// The lines on a check.
pub open spec fn check_lines(c: Check) -> Seq<Seq<char>> {
    match c {
        Check::Elevation(yes) => seq![if yes {
            "  [OK] Process elevation (Running with administrator/root privileges)"@
        } else {
            "  [FAIL] Process elevation: Please run DiskTracker from an Administrator/Root terminal."@
        }],
        Check::Folder(f) => seq![match f {
            FolderState::Writable => "  [OK] AppData folder write permissions"@,
            FolderState::NotWritable { folder, error } => "  [FAIL] AppData folder write permissions: Failed to write to AppData folder at "@
                + folder@ + ": "@ + error@,
            FolderState::Unknown(e) => "  [FAIL] AppData folder write permissions: Failed to resolve AppData directory: "@
                + e@,
        }],
        Check::Pipe(error) => seq![match error {
            None => "  [OK] IPC Named Pipe path reachable (Daemon is running)"@,
            Some(e) => "  [FAIL] IPC Named Pipe path reachable: Could not connect to daemon named pipe. Is the daemon running? (Error: "@
                + e@ + ")"@,
        }],
        Check::Integrity(r) => match r {
            IntegrityReply::Status(s) => seq![if s@ == "ok"@ {
                "  [OK] SQLite database integrity"@
            } else {
                "  [FAIL] SQLite database integrity check returned: "@ + s@
            }],
            IntegrityReply::Invalid => seq!["  [FAIL] SQLite database integrity: Invalid response from daemon"@],
            IntegrityReply::DaemonError(e) => seq!["  [FAIL] SQLite database integrity: Daemon error: "@ + e@],
            IntegrityReply::Empty => Seq::empty(),
            IntegrityReply::Unreachable(e) => seq![
                "  [FAIL] SQLite database integrity: Failed to connect to SQLite database via daemon: "@ + e@,
            ],
        },
        Check::Journal => seq![
            "  [OK] USN Journal availability (Mocked fallback on non-Windows target)"@,
        ],
        Check::Pruning(r) => seq!["  Checking Pruning Logs..."@] + match r {
            PruningReply::Runs(runs) => if runs@.len() == 0 {
                seq!["  [OK] Pruning Log check (No pruning runs logged yet)"@]
            } else {
                seq!["  [OK] Pruning Log check. Recent runs:"@] + run_lines(runs@)
            },
            PruningReply::Invalid => seq!["  [FAIL] Pruning Log check: Invalid response from daemon"@],
            PruningReply::DaemonError(e) => seq!["  [FAIL] Pruning Log check: Daemon error: "@ + e@],
            PruningReply::Empty => Seq::empty(),
            PruningReply::Unreachable(e) => seq![
                "  [FAIL] Pruning Log check: Failed to retrieve pruning logs via daemon: "@ + e@,
            ],
        },
    }
}

/// The check found nothing wrong.
pub open spec fn passes(c: Check) -> bool {
    match c {
        Check::Elevation(yes) => yes,
        Check::Folder(f) => f is Writable,
        Check::Pipe(error) => error is None,
        Check::Integrity(r) => r is Empty || (r is Status && r->Status_0@ == "ok"@),
        Check::Journal => true,
        Check::Pruning(r) => r is Empty || r is Runs,
    }
}

fn said(before: &str, text: &str, behind: &str) -> (r: String)
    ensures
        r@ == before@ + text@ + behind@,
{
    let mut r = before.to_owned();
    r.append(text);
    r.append(behind);
    r
}

fn telling(before: &str, text: &str) -> (r: String)
    ensures
        r@ == before@ + text@,
{
    let mut r = before.to_owned();
    r.append(text);
    r
}

fn put_line(lines: &mut Vec<String>, line: String)
    ensures
        views(final(lines)@) == views(old(lines)@).push(line@),
{
    let ghost before = views(lines@);
    lines.push(line);
    assert(views(lines@) =~= before.push(line@));
}

fn known_or_mark(o: &Option<String>) -> (r: String)
    ensures
        r@ == or_unknown(opt_text(*o)),
{
    match o {
        Some(s) => s.clone(),
        None => "?".to_owned(),
    }
}

fn write_run(r: &LoggedRun) -> (line: String)
    ensures
        line@ == run_line(*r),
{
    let volume = known_or_mark(&r.volume);
    let status = known_or_mark(&r.status);
    let run_at = known_or_mark(&r.run_at);
    let details = known_or_mark(&r.details);
    let mut line = "      - Volume ".to_owned();
    line.append(volume.as_str());
    line.append(": [");
    line.append(status.as_str());
    line.append("] at ");
    line.append(run_at.as_str());
    line.append(" (");
    line.append(details.as_str());
    line.append(")");
    line
}

fn add_integrity(r: &IntegrityReply, lines: &mut Vec<String>) -> (ok: bool)
    ensures
        views(final(lines)@) == views(old(lines)@) + check_lines(Check::Integrity(*r)),
        ok == passes(Check::Integrity(*r)),
{
    let ghost before = views(lines@);
    let ok = match r {
        IntegrityReply::Status(s) => {
            if crate::text::str_eq(s.as_str(), "ok") {
                put_line(lines, "  [OK] SQLite database integrity".to_owned());
                true
            } else {
                put_line(lines, telling("  [FAIL] SQLite database integrity check returned: ", s.as_str()));
                false
            }
        },
        IntegrityReply::Invalid => {
            put_line(lines, "  [FAIL] SQLite database integrity: Invalid response from daemon".to_owned());
            false
        },
        IntegrityReply::DaemonError(e) => {
            put_line(lines, telling("  [FAIL] SQLite database integrity: Daemon error: ", e.as_str()));
            false
        },
        IntegrityReply::Empty => true,
        IntegrityReply::Unreachable(e) => {
            put_line(lines, telling("  [FAIL] SQLite database integrity: Failed to connect to SQLite database via daemon: ", e.as_str()));
            false
        },
    };
    assert(views(lines@) =~= before + check_lines(Check::Integrity(*r)));
    ok
}

fn add_pruning(r: &PruningReply, lines: &mut Vec<String>) -> (ok: bool)
    ensures
        views(final(lines)@) == views(old(lines)@) + check_lines(Check::Pruning(*r)),
        ok == passes(Check::Pruning(*r)),
{
    let ghost start = views(lines@);
    put_line(lines, "  Checking Pruning Logs...".to_owned());
    let ok = match r {
        PruningReply::Runs(runs) => {
            if runs.len() == 0 {
                put_line(lines, "  [OK] Pruning Log check (No pruning runs logged yet)".to_owned());
            } else {
                put_line(lines, "  [OK] Pruning Log check. Recent runs:".to_owned());
                let ghost before = views(lines@);
                let ghost all = run_lines(runs@);
                let mut i: usize = 0;
                assert(before + all.take(0) =~= before);
                while i < runs.len() && i < 3
                    invariant
                        all == run_lines(runs@),
                        i <= runs@.len(),
                        i <= 3,
                        views(lines@) == before + all.take(i as int),
                    decreases 3 - i,
                {
                    put_line(lines, write_run(&runs[i]));
                    assert(all.take(i + 1) =~= all.take(i as int).push(run_line(runs@[i as int])));
                    assert(views(lines@) =~= before + all.take(i + 1));
                    i = i + 1;
                }
                assert(all.take(i as int) =~= all);
            }
            true
        },
        PruningReply::Invalid => {
            put_line(lines, "  [FAIL] Pruning Log check: Invalid response from daemon".to_owned());
            false
        },
        PruningReply::DaemonError(e) => {
            put_line(lines, telling("  [FAIL] Pruning Log check: Daemon error: ", e.as_str()));
            false
        },
        PruningReply::Empty => true,
        PruningReply::Unreachable(e) => {
            put_line(lines, telling("  [FAIL] Pruning Log check: Failed to retrieve pruning logs via daemon: ", e.as_str()));
            false
        },
    };
    assert(views(lines@) =~= start + check_lines(Check::Pruning(*r)));
    ok
}

fn add_check(c: &Check, lines: &mut Vec<String>) -> (ok: bool)
    ensures
        views(final(lines)@) == views(old(lines)@) + check_lines(*c),
        ok == passes(*c),
{
    let ghost before = views(lines@);
    let ok = match c {
        Check::Elevation(yes) => {
            if *yes {
                put_line(
                    lines,
                    "  [OK] Process elevation (Running with administrator/root privileges)".to_owned(),
                );
            } else {
                put_line(
                    lines,
                    "  [FAIL] Process elevation: Please run DiskTracker from an Administrator/Root terminal.".to_owned(),
                );
            }
            *yes
        },
        Check::Folder(f) => {
            match f {
                FolderState::Writable => {
                    put_line(lines, "  [OK] AppData folder write permissions".to_owned());
                    true
                },
                FolderState::NotWritable { folder, error } => {
                    let mut line = said(
                        "  [FAIL] AppData folder write permissions: Failed to write to AppData folder at ",
                        folder.as_str(),
                        ": ",
                    );
                    line.append(error.as_str());
                    put_line(lines, line);
                    false
                },
                FolderState::Unknown(e) => {
                    let mut line =
                        "  [FAIL] AppData folder write permissions: Failed to resolve AppData directory: ".to_owned();
                    line.append(e.as_str());
                    put_line(lines, line);
                    false
                },
            }
        },
        Check::Pipe(error) => {
            match error {
                None => {
                    put_line(lines, "  [OK] IPC Named Pipe path reachable (Daemon is running)".to_owned());
                    true
                },
                Some(e) => {
                    put_line(
                        lines,
                        said(
                            "  [FAIL] IPC Named Pipe path reachable: Could not connect to daemon named pipe. Is the daemon running? (Error: ",
                            e.as_str(),
                            ")",
                        ),
                    );
                    false
                },
            }
        },
        Check::Integrity(r) => {
            let ok = add_integrity(r, lines);
            return ok;
        },
        Check::Journal => {
            put_line(
                lines,
                "  [OK] USN Journal availability (Mocked fallback on non-Windows target)".to_owned(),
            );
            true
        },
        Check::Pruning(r) => {
            let ok = add_pruning(r, lines);
            return ok;
        },
    };
    assert(views(lines@) =~= before + check_lines(*c));
    ok
}

/// The lines on all checks.
pub open spec fn all_lines(checks: Seq<Check>) -> Seq<Seq<char>>
    decreases checks.len(),
{
    if checks.len() == 0 {
        seq!["DiskTracker Diagnostics:"@]
    } else {
        all_lines(checks.drop_last()) + check_lines(checks.last())
    }
}

/// Nothing wrong was found.
pub open spec fn all_pass(checks: Seq<Check>) -> bool {
    forall|i: int| 0 <= i < checks.len() ==> passes(#[trigger] checks[i])
}

/// The last line of a diagnosis.
pub open spec fn verdict(ok: bool) -> Seq<char> {
    if ok {
        "\nDiagnostics complete. System status: OK"@
    } else {
        "\nDiagnostics complete. System status: FAILED (Some checks did not pass)"@
    }
}

/// Tells what was found out, and whether all is well.
pub fn doctor_report(checks: &Vec<Check>) -> (r: (Vec<String>, bool))
    ensures
        r.1 == all_pass(checks@),
        views(r.0@) == all_lines(checks@).push(verdict(r.1)),
{
    let mut lines: Vec<String> = Vec::new();
    let mut ok = true;
    let mut i: usize = 0;
    lines.push("DiskTracker Diagnostics:".to_owned());
    assert(checks@.take(0) =~= Seq::<Check>::empty());
    assert(views(lines@) =~= seq!["DiskTracker Diagnostics:"@]);
    while i < checks.len()
        invariant
            i <= checks@.len(),
            views(lines@) == all_lines(checks@.take(i as int)),
            ok == all_pass(checks@.take(i as int)),
        decreases checks@.len() - i,
    {
        let ghost part = checks@.take(i as int);
        let ghost more = checks@.take(i + 1);
        let fine = add_check(&checks[i], &mut lines);
        proof {
            assert(more.drop_last() =~= part);
            assert(more.last() == checks@[i as int]);
            assert(all_pass(more) == (all_pass(part) && passes(checks@[i as int]))) by {
                if all_pass(more) {
                    assert(passes(more[i as int]));
                    assert forall|k: int| 0 <= k < part.len() implies passes(#[trigger] part[k]) by {
                        assert(passes(more[k]));
                    }
                }
                if all_pass(part) && passes(checks@[i as int]) {
                    assert forall|k: int| 0 <= k < more.len() implies passes(#[trigger] more[k]) by {
                        if k < i {
                            assert(passes(part[k]));
                        }
                    }
                }
            }
        }
        ok = ok && fine;
        i = i + 1;
    }
    assert(checks@.take(i as int) =~= checks@);
    if ok {
        put_line(&mut lines, "\nDiagnostics complete. System status: OK".to_owned());
    } else {
        put_line(
            &mut lines,
            "\nDiagnostics complete. System status: FAILED (Some checks did not pass)".to_owned(),
        );
    }
    (lines, ok)
}

/// A diagnosis is well exactly if the process is elevated, the folder can be written to, the
/// daemon was reached, and it reports the database as sound and its prunings in order.
pub proof fn law_diagnosis(checks: Seq<Check>)
    ensures
        all_pass(checks) <==> forall|i: int|
            0 <= i < checks.len() ==> match #[trigger] checks[i] {
                Check::Elevation(yes) => yes,
                Check::Folder(f) => f is Writable,
                Check::Pipe(error) => error is None,
                Check::Integrity(r) => !(r is Invalid) && !(r is DaemonError) && !(r is Unreachable) && (r is Status
                    ==> r->Status_0@ == "ok"@),
                Check::Journal => true,
                Check::Pruning(r) => !(r is Invalid) && !(r is DaemonError) && !(r is Unreachable),
            },
{
    let fine = |c: Check|
        match c {
            Check::Elevation(yes) => yes,
            Check::Folder(f) => f is Writable,
            Check::Pipe(error) => error is None,
            Check::Integrity(r) => !(r is Invalid) && !(r is DaemonError) && !(r is Unreachable) && (r is Status
                ==> r->Status_0@ == "ok"@),
            Check::Journal => true,
            Check::Pruning(r) => !(r is Invalid) && !(r is DaemonError) && !(r is Unreachable),
        };
    assert forall|i: int| 0 <= i < checks.len() implies passes(#[trigger] checks[i]) == fine(checks[i]) by {}
    if all_pass(checks) {
        assert forall|i: int| 0 <= i < checks.len() implies fine(#[trigger] checks[i]) by {
            assert(passes(checks[i]));
        }
    }
    if forall|i: int| 0 <= i < checks.len() ==> fine(#[trigger] checks[i]) {
        assert forall|i: int| 0 <= i < checks.len() implies passes(#[trigger] checks[i]) by {
            assert(fine(checks[i]));
        }
    }
}

} // verus!
