//! What every complete scan of a directory tree reports, whichever way it was done.

use crate::arena::NodeHot;
use crate::identity::FsIdentity;
use crate::parallel::{
    kept_names, law_root_total, outcome_bytes, outcome_errors, outcome_files, outcome_subdirs,
    JobOutcome, SharedState,
};
use crate::sums::{lemma_total_add, lemma_total_bounds, lemma_total_nonneg, lemma_total_push, lemma_total_update, lemma_total_zero, total};
use crate::scan::{id_sum, lemma_id_sum_nonneg, lemma_id_sum_union, SubDir};
use crate::serial::{
    enter_totals, found, handed_up, law_enter_adds, law_probe_keeps,
    new_frame, passed_over, plus, room_for, stack_bytes, stack_errors, stack_files, EnterOutcome,
    Frame, ProbeOutcome, SerialScan, Totals,
    WalkView,
};
use vstd::prelude::*;

verus! {

/// A directory as it lies on disk: its name, what is found directly inside it, and its
/// directories in the order in which they are listed. A directory on another file
/// system that the scan must not enter is `None`.
pub struct DirTree {
    pub name: Seq<u8>,
    /// The bytes of files whose identity is not known.
    pub bytes: nat,
    /// The identities of all other files. A file may have names in several directories.
    pub linked: Seq<FsIdentity>,
    /// The number of names of files.
    pub files: nat,
    pub errors: nat,
    pub dirs: Seq<Option<DirTree>>,
}

/// What a scan counts.
pub enum What {
    /// The bytes of files whose identity is not known.
    Bytes,
    Files,
    Errors,
    /// The directories that hold a file.
    Holds(FsIdentity),
}

/// What is found directly inside a directory.
pub open spec fn own(t: DirTree, what: What) -> int {
    match what {
        What::Bytes => t.bytes as int,
        What::Files => t.files as int,
        What::Errors => t.errors as int,
        What::Holds(id) => if t.linked.contains(id) {
            1
        } else {
            0
        },
    }
}

/// What is found in a directory and everywhere below it.
pub open spec fn tree_sum(t: DirTree, what: What) -> int
    decreases t, t.dirs.len() + 1,
{
    own(t, what) + dirs_sum(t, t.dirs.len() as int, what)
}

/// What is found in the first `n` directories inside a directory.
pub open spec fn dirs_sum(t: DirTree, n: int, what: What) -> int
    decreases t, n,
{
    if 0 < n <= t.dirs.len() {
        dirs_sum(t, n - 1, what) + match t.dirs[n - 1] {
            Some(d) => tree_sum(d, what),
            None => 0,
        }
    } else {
        0
    }
}

/// The identities of all files in a directory and below it.
pub open spec fn tree_ids(t: DirTree) -> Set<FsIdentity>
    decreases t, t.dirs.len() + 1,
{
    t.linked.to_set().union(dirs_ids(t, t.dirs.len() as int))
}

/// The identities of all files in the first `n` directories inside a directory.
pub open spec fn dirs_ids(t: DirTree, n: int) -> Set<FsIdentity>
    decreases t, n,
{
    if 0 < n <= t.dirs.len() {
        dirs_ids(t, n - 1).union(
            match t.dirs[n - 1] {
                Some(d) => tree_ids(d),
                None => Set::empty(),
            },
        )
    } else {
        Set::empty()
    }
}

/// The bytes of all files in a directory and below it, each file counted once.
pub open spec fn tree_bytes(t: DirTree, sizes: spec_fn(FsIdentity) -> nat) -> int {
    tree_sum(t, What::Bytes) + id_sum(tree_ids(t), sizes)
}

proof fn lemma_tree_ids(t: DirTree, id: FsIdentity)
    ensures
        tree_ids(t).finite(),
        tree_ids(t).contains(id) <==> tree_sum(t, What::Holds(id)) > 0,
    decreases t, t.dirs.len() + 1,
{
    lemma_dirs_ids(t, t.dirs.len() as int, id);
    lemma_dirs_nonneg(t, t.dirs.len() as int, What::Holds(id));
    vstd::seq_lib::seq_to_set_is_finite(t.linked);
}

proof fn lemma_dirs_ids(t: DirTree, n: int, id: FsIdentity)
    ensures
        dirs_ids(t, n).finite(),
        dirs_ids(t, n).contains(id) <==> dirs_sum(t, n, What::Holds(id)) > 0,
    decreases t, n,
{
    if 0 < n <= t.dirs.len() {
        lemma_dirs_ids(t, n - 1, id);
        lemma_dirs_nonneg(t, n - 1, What::Holds(id));
        if let Some(d) = t.dirs[n - 1] {
            lemma_tree_ids(d, id);
            lemma_tree_nonneg(d, What::Holds(id));
        }
    }
}

/// What a scan finds for one entry of a listing.
pub open spec fn slot_sum(slot: Option<DirTree>, what: What) -> int {
    match slot {
        Some(d) => tree_sum(d, what),
        None => 0,
    }
}

/// What a scan finds for each of the given entries.
pub open spec fn slot_sums(slots: Seq<Option<DirTree>>, what: What) -> Seq<int> {
    Seq::new(slots.len(), |i: int| slot_sum(slots[i], what))
}

proof fn lemma_dirs_sum(t: DirTree, n: int, what: What)
    requires
        0 <= n <= t.dirs.len(),
    ensures
        dirs_sum(t, n, what) == total(slot_sums(t.dirs.take(n), what)),
    decreases n,
{
    if n > 0 {
        lemma_dirs_sum(t, n - 1, what);
        assert(slot_sums(t.dirs.take(n), what).drop_last() =~= slot_sums(t.dirs.take(n - 1), what));
    }
}

/// The sum of a tree is what lies in its root and the sums of its directories.
proof fn lemma_tree_sum(t: DirTree, what: What)
    ensures
        tree_sum(t, what) == own(t, what) + total(slot_sums(t.dirs, what)),
{
    lemma_dirs_sum(t, t.dirs.len() as int, what);
    assert(t.dirs.take(t.dirs.len() as int) =~= t.dirs);
}

proof fn lemma_tree_nonneg(t: DirTree, what: What)
    ensures
        tree_sum(t, what) >= 0,
    decreases t, t.dirs.len() + 1,
{
    lemma_dirs_nonneg(t, t.dirs.len() as int, what);
}

proof fn lemma_dirs_nonneg(t: DirTree, n: int, what: What)
    ensures
        dirs_sum(t, n, what) >= 0,
    decreases t, n,
{
    if 0 < n <= t.dirs.len() {
        lemma_dirs_nonneg(t, n - 1, what);
        if let Some(d) = t.dirs[n - 1] {
            lemma_tree_nonneg(d, what);
        }
    }
}

/// The directories that a scan enters.
pub open spec fn entered_dirs(slots: Seq<Option<DirTree>>) -> Seq<DirTree>
    decreases slots.len(),
{
    if slots.len() == 0 {
        Seq::empty()
    } else {
        match slots.last() {
            Some(d) => entered_dirs(slots.drop_last()).push(d),
            None => entered_dirs(slots.drop_last()),
        }
    }
}

/// The sums of the given trees.
pub open spec fn tree_sums(trees: Seq<DirTree>, what: What) -> Seq<int> {
    Seq::new(trees.len(), |i: int| tree_sum(trees[i], what))
}

proof fn lemma_entered_sums(slots: Seq<Option<DirTree>>, what: What)
    ensures
        total(tree_sums(entered_dirs(slots), what)) == total(slot_sums(slots, what)),
    decreases slots.len(),
{
    if slots.len() > 0 {
        lemma_entered_sums(slots.drop_last(), what);
        assert(slot_sums(slots, what).drop_last() =~= slot_sums(slots.drop_last(), what));
        if slots.last() is Some {
            assert(tree_sums(entered_dirs(slots), what).drop_last() =~= tree_sums(
                entered_dirs(slots.drop_last()),
                what,
            ));
        }
    }
}

/// A directory job in a parallel scan.
pub struct JobStep {
    pub node: u32,
    pub outcome: JobOutcome,
}

/// The names of the given directories.
pub open spec fn names_of(trees: Seq<DirTree>) -> Seq<Seq<u8>> {
    Seq::new(trees.len(), |i: int| trees[i].name)
}

/// None of the files was counted without being visited: no other name of theirs lies in a
/// directory that was not read.
pub open spec fn are_apart(ids: Set<FsIdentity>, counted: Set<FsIdentity>, visited: Set<FsIdentity>) -> bool {
    forall|id: FsIdentity| #[trigger] ids.contains(id) && counted.contains(id) ==> visited.contains(id)
}

/// A job on directory `t` reports what lies there, the bytes of a file at the first of
/// its names. A directory that is not read must be shown with the totals that it has
/// now, and its files have no other names.
pub open spec fn job_reads(
    outcome: JobOutcome,
    t: DirTree,
    one_filesystem: bool,
    root_device: u64,
    counted: Set<FsIdentity>,
    visited: Set<FsIdentity>,
    sizes: spec_fn(FsIdentity) -> nat,
) -> bool {
    match outcome {
        JobOutcome::Skipped { totals, .. } => {
            &&& tree_ids(t).disjoint(counted)
            &&& totals.total_bytes == tree_bytes(t, sizes)
            &&& totals.file_count == tree_sum(t, What::Files)
            &&& tree_sum(t, What::Errors) == 0
        },
        JobOutcome::Failed { errors } => {
            &&& t.linked.len() == 0
            &&& t.bytes == 0
            &&& t.files == 0
            &&& t.errors == errors
            &&& t.dirs.len() == 0
        },
        JobOutcome::Listed { listing, .. } => {
            &&& are_apart(t.linked.to_set(), counted, visited)
            &&& listing.file_bytes == t.bytes + id_sum(t.linked.to_set().difference(visited), sizes)
            &&& listing.file_count == t.files
            &&& listing.error_count == t.errors
            &&& lists(listing.subdirs@, t.dirs)
            &&& forall|i: int|
                0 <= i < t.dirs.len() ==> ((#[trigger] t.dirs[i]) is Some <==> !one_filesystem || root_device == 0
                    || listing.subdirs@[i].device == Some(root_device))
        },
    }
}

/// The names of the directories that are kept of a listing are those of the directories
/// that a scan enters.
proof fn lemma_kept_are_entered(
    subdirs: Seq<SubDir>,
    dirs: Seq<Option<DirTree>>,
    one_filesystem: bool,
    root_device: u64,
)
    requires
        lists(subdirs, dirs),
        forall|i: int|
            0 <= i < dirs.len() ==> ((#[trigger] dirs[i]) is Some <==> !one_filesystem || root_device == 0
                || subdirs[i].device == Some(root_device)),
    ensures
        kept_names(subdirs, one_filesystem, root_device) == names_of(entered_dirs(dirs)),
    decreases dirs.len(),
{
    if dirs.len() == 0 {
        assert(names_of(entered_dirs(dirs)) =~= Seq::empty());
    } else {
        let n = dirs.len() - 1;
        let s = subdirs.drop_last();
        let d = dirs.drop_last();
        assert forall|i: int| 0 <= i < d.len() && (#[trigger] d[i]) is Some implies d[i]->0.name == s[i].name@ by {
            assert(d[i] == dirs[i] && s[i] == subdirs[i]);
        }
        assert forall|i: int| 0 <= i < d.len() implies ((#[trigger] d[i]) is Some <==> !one_filesystem || root_device
            == 0 || s[i].device == Some(root_device)) by {
            assert(d[i] == dirs[i] && s[i] == subdirs[i]);
        }
        lemma_kept_are_entered(s, d, one_filesystem, root_device);
        assert(dirs[n] is Some <==> !one_filesystem || root_device == 0 || subdirs[n].device == Some(root_device));
        assert(dirs[n] == dirs.last() && subdirs[n] == subdirs.last());
        assert(kept_names(subdirs, one_filesystem, root_device) =~= names_of(entered_dirs(dirs)));
    }
}

/// A job keeps the directories that the scan enters.
pub proof fn lemma_job_kept(
    outcome: JobOutcome,
    t: DirTree,
    one_filesystem: bool,
    root_device: u64,
    counted: Set<FsIdentity>,
    visited: Set<FsIdentity>,
    sizes: spec_fn(FsIdentity) -> nat,
)
    requires
        job_reads(outcome, t, one_filesystem, root_device, counted, visited, sizes),
    ensures
        kept_names(outcome_subdirs(outcome), one_filesystem, root_device) == names_of(job_dirs(outcome, t)),
{
    match outcome {
        JobOutcome::Listed { listing, .. } => {
            lemma_kept_are_entered(listing.subdirs@, t.dirs, one_filesystem, root_device);
        },
        _ => {
            assert(names_of(job_dirs(outcome, t)) =~= Seq::empty());
        },
    }
}

/// The directories that a job on directory `t` brings.
pub open spec fn job_dirs(outcome: JobOutcome, t: DirTree) -> Seq<DirTree> {
    match outcome {
        JobOutcome::Skipped { .. } => Seq::empty(),
        _ => entered_dirs(t.dirs),
    }
}

/// The directory that each node of the scan stands for after some jobs.
pub open spec fn node_trees(t: DirTree, steps: Seq<JobStep>) -> Seq<DirTree>
    decreases steps.len(),
{
    if steps.len() == 0 {
        seq![t]
    } else {
        let before = node_trees(t, steps.drop_last());
        before + job_dirs(steps.last().outcome, before[steps.last().node as int])
    }
}

/// The files that a job on directory `t` counts.
pub open spec fn job_ids(outcome: JobOutcome, t: DirTree) -> Set<FsIdentity> {
    match outcome {
        JobOutcome::Skipped { .. } => tree_ids(t),
        _ => t.linked.to_set(),
    }
}

/// The files that were counted by some jobs.
pub open spec fn job_counted(t: DirTree, steps: Seq<JobStep>) -> Set<FsIdentity>
    decreases steps.len(),
{
    if steps.len() == 0 {
        Set::empty()
    } else {
        let before = steps.drop_last();
        job_counted(t, before).union(
            job_ids(steps.last().outcome, node_trees(t, before)[steps.last().node as int]),
        )
    }
}

/// One job of a parallel scan of `t`.
pub open spec fn job_step(
    before: &SharedState,
    after: &SharedState,
    step: JobStep,
    trees: Seq<DirTree>,
    counted: Set<FsIdentity>,
    one_filesystem: bool,
    sizes: spec_fn(FsIdentity) -> nat,
) -> bool {
    let d = trees[step.node as int];
    &&& before.wf()
    &&& after.wf()
    &&& step.node < before.node_states@.len()
    &&& before.queued@[step.node as int]
    &&& job_reads(step.outcome, d, one_filesystem, before.root_device, counted, before.visited@, sizes)
    &&& after.after_job(before, step.node, step.outcome, one_filesystem)
    &&& after.visited@ == (if step.outcome is Listed {
        before.visited@.union(d.linked.to_set())
    } else {
        before.visited@
    })
}

/// A parallel scan of `t`: any order of jobs on directories that wait to be read.
pub open spec fn parallel_run(
    t: DirTree,
    states: Seq<SharedState>,
    steps: Seq<JobStep>,
    one_filesystem: bool,
    sizes: spec_fn(FsIdentity) -> nat,
) -> bool {
    &&& states.len() == steps.len() + 1
    &&& states[0].wf()
    &&& states[0].queued@ == seq![true]
    &&& states[0].own_bytes@ == seq![0int]
    &&& states[0].own_files@ == seq![0int]
    &&& states[0].error_count == 0
    &&& states[0].visited@ == Set::<FsIdentity>::empty()
    &&& forall|i: int|
        0 <= i < steps.len() ==> job_step(
            &states[i],
            &states[i + 1],
            #[trigger] steps[i],
            node_trees(t, steps.take(i)),
            job_counted(t, steps.take(i)),
            one_filesystem,
            sizes,
        )
}

/// What a parallel scan has found so far.
pub open spec fn job_found(state: &SharedState, what: What) -> int {
    match what {
        What::Bytes => total(state.own_bytes@),
        What::Files => total(state.own_files@),
        What::Errors => state.error_count as int,
        What::Holds(_) => 0,
    }
}

/// What waits to be found below each directory.
pub open spec fn waiting(trees: Seq<DirTree>, queued: Seq<bool>, what: What) -> Seq<int> {
    Seq::new(
        trees.len(),
        |i: int| if queued[i] { tree_sum(trees[i], what) } else { 0 },
    )
}

/// What a job finds.
pub open spec fn outcome_found(outcome: JobOutcome, what: What) -> int {
    match what {
        What::Bytes => outcome_bytes(outcome),
        What::Files => outcome_files(outcome),
        What::Errors => outcome_errors(outcome),
        What::Holds(_) => 0,
    }
}

/// What a job takes from what waits to be found.
pub open spec fn job_taken(outcome: JobOutcome, t: DirTree, what: What) -> int {
    match outcome {
        JobOutcome::Skipped { .. } => tree_sum(t, what),
        _ => own(t, what),
    }
}

/// A job finds what its directory no longer hides.
proof fn lemma_job_step(
    before: &SharedState,
    after: &SharedState,
    step: JobStep,
    trees: Seq<DirTree>,
    counted: Set<FsIdentity>,
    one_filesystem: bool,
    sizes: spec_fn(FsIdentity) -> nat,
    what: What,
)
    requires
        job_step(before, after, step, trees, counted, one_filesystem, sizes),
        trees.len() == before.node_states@.len(),
    ensures
        trees.len() + job_dirs(step.outcome, trees[step.node as int]).len() == after.node_states@.len(),
        total(waiting(trees + job_dirs(step.outcome, trees[step.node as int]), after.queued@, what)) == total(
            waiting(trees, before.queued@, what),
        ) - job_taken(step.outcome, trees[step.node as int], what),
        job_found(after, what) == job_found(before, what) + outcome_found(step.outcome, what),
{
    let node = step.node as int;
    let t = trees[node];
    let kids = job_dirs(step.outcome, t);
    let kept = kept_names(outcome_subdirs(step.outcome), one_filesystem, before.root_device);
    lemma_job_kept(step.outcome, t, one_filesystem, before.root_device, counted, before.visited@, sizes);
    assert(kept.len() == kids.len());
    let done = waiting(trees, before.queued@, what).update(node, 0);
    assert(waiting(trees + kids, after.queued@, what) =~= done + tree_sums(kids, what));
    lemma_total_add(done, tree_sums(kids, what));
    lemma_total_update(waiting(trees, before.queued@, what), node, 0);
    let zeros = Seq::new(kept.len(), |k: int| 0int);
    lemma_total_zero(zeros);
    lemma_total_update(before.own_bytes@, node, outcome_bytes(step.outcome));
    lemma_total_add(before.own_bytes@.update(node, outcome_bytes(step.outcome)), zeros);
    lemma_total_update(before.own_files@, node, outcome_files(step.outcome));
    lemma_total_add(before.own_files@.update(node, outcome_files(step.outcome)), zeros);
    lemma_tree_sum(t, what);
    lemma_entered_sums(t.dirs, what);
    if step.outcome is Skipped {
        assert(tree_sums(kids, what) =~= Seq::empty());
    }
}

/// Bytes of files that were counted by their identities.
pub open spec fn counted_bytes(counted: Set<FsIdentity>, sizes: spec_fn(FsIdentity) -> nat, what: What) -> int {
    match what {
        What::Bytes => id_sum(counted, sizes),
        _ => 0,
    }
}

/// What the next directory adds to the files that were counted.
proof fn lemma_more_counted(
    counted: Set<FsIdentity>,
    visited: Set<FsIdentity>,
    ids: Set<FsIdentity>,
    sizes: spec_fn(FsIdentity) -> nat,
)
    requires
        counted.finite(),
        ids.finite(),
        visited.subset_of(counted),
        are_apart(ids, counted, visited),
    ensures
        counted.union(ids).finite(),
        id_sum(counted.union(ids), sizes) == id_sum(counted, sizes) + id_sum(ids.difference(visited), sizes),
{
    assert(ids.difference(visited) =~= ids.difference(counted));
    lemma_id_sum_union(counted, ids, sizes);
}

/// The part of a run without its last job is a run.
pub proof fn lemma_shorter_run(
    t: DirTree,
    states: Seq<SharedState>,
    steps: Seq<JobStep>,
    one_filesystem: bool,
    sizes: spec_fn(FsIdentity) -> nat,
)
    requires
        parallel_run(t, states, steps, one_filesystem, sizes),
        steps.len() > 0,
    ensures
        parallel_run(t, states.drop_last(), steps.drop_last(), one_filesystem, sizes),
        job_step(
            &states[steps.len() - 1],
            &states[steps.len() as int],
            steps.last(),
            node_trees(t, steps.drop_last()),
            job_counted(t, steps.drop_last()),
            one_filesystem,
            sizes,
        ),
{
    let a = states.drop_last();
    let s = steps.drop_last();
    assert forall|i: int| 0 <= i < s.len() implies job_step(
        &a[i],
        &a[i + 1],
        #[trigger] s[i],
        node_trees(t, s.take(i)),
        job_counted(t, s.take(i)),
        one_filesystem,
        sizes,
    ) by {
        assert(s[i] == steps[i]);
        assert(s.take(i) =~= steps.take(i));
    }
    let n = steps.len() as int;
    assert(steps.take(n - 1) =~= s);
    assert(steps[n - 1] == steps.last());
}

/// What waits below each directory holds a file, or the file was counted.
pub open spec fn job_tracks(t: DirTree, trees: Seq<DirTree>, queued: Seq<bool>, counted: Set<FsIdentity>, id: FsIdentity) -> bool {
    (counted.contains(id) || total(waiting(trees, queued, What::Holds(id))) > 0) <==> tree_sum(
        t,
        What::Holds(id),
    ) > 0
}

proof fn lemma_job_tracks(
    before: &SharedState,
    after: &SharedState,
    step: JobStep,
    t: DirTree,
    trees: Seq<DirTree>,
    counted: Set<FsIdentity>,
    one_filesystem: bool,
    sizes: spec_fn(FsIdentity) -> nat,
    id: FsIdentity,
)
    requires
        job_step(before, after, step, trees, counted, one_filesystem, sizes),
        trees.len() == before.node_states@.len(),
        job_tracks(t, trees, before.queued@, counted, id),
    ensures
        job_tracks(
            t,
            trees + job_dirs(step.outcome, trees[step.node as int]),
            after.queued@,
            counted.union(job_ids(step.outcome, trees[step.node as int])),
            id,
        ),
{
    let what = What::Holds(id);
    let d = trees[step.node as int];
    lemma_job_step(before, after, step, trees, counted, one_filesystem, sizes, what);
    lemma_tree_ids(d, id);
    lemma_tree_sum(d, what);
    lemma_slots_nonneg(d.dirs, what);
    // What waited below the directory is part of what waited.
    let w = waiting(trees, before.queued@, what);
    assert forall|i: int| 0 <= i < w.len() implies #[trigger] w[i] >= 0 by {
        lemma_tree_nonneg(trees[i], what);
    }
    lemma_total_bounds(w, step.node as int, step.node as int);
    assert(w[step.node as int] == tree_sum(d, what));
}

/// What was visited was counted, and only so many files were.
proof fn lemma_parallel_counted(
    t: DirTree,
    states: Seq<SharedState>,
    steps: Seq<JobStep>,
    one_filesystem: bool,
    sizes: spec_fn(FsIdentity) -> nat,
)
    requires
        parallel_run(t, states, steps, one_filesystem, sizes),
    ensures
        job_counted(t, steps).finite(),
        states.last().visited@.subset_of(job_counted(t, steps)),
    decreases steps.len(),
{
    if steps.len() > 0 {
        let s = steps.drop_last();
        lemma_shorter_run(t, states, steps, one_filesystem, sizes);
        lemma_parallel_counted(t, states.drop_last(), s, one_filesystem, sizes);
        assert(states.drop_last().last() == states[steps.len() - 1]);
        let d = node_trees(t, s)[steps.last().node as int];
        lemma_tree_ids(d, arbitrary());
        vstd::seq_lib::seq_to_set_is_finite(d.linked);
    }
}

proof fn lemma_parallel_ids(
    t: DirTree,
    states: Seq<SharedState>,
    steps: Seq<JobStep>,
    one_filesystem: bool,
    sizes: spec_fn(FsIdentity) -> nat,
    id: FsIdentity,
)
    requires
        parallel_run(t, states, steps, one_filesystem, sizes),
    ensures
        node_trees(t, steps).len() == states.last().node_states@.len(),
        job_tracks(t, node_trees(t, steps), states.last().queued@, job_counted(t, steps), id),
    decreases steps.len(),
{
    let what = What::Holds(id);
    if steps.len() == 0 {
        let w = waiting(seq![t], states[0].queued@, what);
        assert(w =~= Seq::empty().push(tree_sum(t, what)));
        lemma_total_push(Seq::empty(), tree_sum(t, what));
    } else {
        let s = steps.drop_last();
        let n = steps.len() as int;
        lemma_shorter_run(t, states, steps, one_filesystem, sizes);
        lemma_parallel_ids(t, states.drop_last(), s, one_filesystem, sizes, id);
        assert(states.drop_last().last() == states[n - 1]);
        let trees = node_trees(t, s);
        let counted = job_counted(t, s);
        lemma_job_step(&states[n - 1], &states[n], steps.last(), trees, counted, one_filesystem, sizes, what);
        lemma_job_tracks(&states[n - 1], &states[n], steps.last(), t, trees, counted, one_filesystem, sizes, id);
    }
}

proof fn lemma_parallel_run(
    t: DirTree,
    states: Seq<SharedState>,
    steps: Seq<JobStep>,
    one_filesystem: bool,
    sizes: spec_fn(FsIdentity) -> nat,
    what: What,
)
    requires
        parallel_run(t, states, steps, one_filesystem, sizes),
        !(what is Holds),
    ensures
        states.last().wf(),
        node_trees(t, steps).len() == states.last().node_states@.len(),
        job_found(&states.last(), what) + total(
            waiting(node_trees(t, steps), states.last().queued@, what),
        ) == tree_sum(t, what) + counted_bytes(job_counted(t, steps), sizes, what),
    decreases steps.len(),
{
    if steps.len() == 0 {
        let w = waiting(seq![t], states[0].queued@, what);
        assert(w =~= Seq::empty().push(tree_sum(t, what)));
        lemma_total_push(Seq::empty(), tree_sum(t, what));
        assert(seq![0int] =~= Seq::empty().push(0int));
        lemma_total_push(Seq::empty(), 0int);
    } else {
        let n = steps.len() as int;
        let s = steps.drop_last();
        lemma_shorter_run(t, states, steps, one_filesystem, sizes);
        lemma_parallel_run(t, states.drop_last(), s, one_filesystem, sizes, what);
        lemma_parallel_counted(t, states.drop_last(), s, one_filesystem, sizes);
        assert(states.drop_last().last() == states[n - 1]);
        let trees = node_trees(t, s);
        let counted = job_counted(t, s);
        let step = steps.last();
        let d = trees[step.node as int];
        lemma_job_step(&states[n - 1], &states[n], step, trees, counted, one_filesystem, sizes, what);
        vstd::seq_lib::seq_to_set_is_finite(d.linked);
        lemma_tree_ids(d, arbitrary());
        if step.outcome is Skipped {
            assert(are_apart(tree_ids(d), counted, Set::empty()));
            assert(tree_ids(d).difference(Set::empty()) =~= tree_ids(d));
            lemma_more_counted(counted, Set::empty(), tree_ids(d), sizes);
        } else {
            lemma_more_counted(counted, states[n - 1].visited@, d.linked.to_set(), sizes);
        }
    }
}

/// Once no directory waits, every file of the tree was counted.
proof fn lemma_all_counted(
    t: DirTree,
    states: Seq<SharedState>,
    steps: Seq<JobStep>,
    one_filesystem: bool,
    sizes: spec_fn(FsIdentity) -> nat,
)
    requires
        parallel_run(t, states, steps, one_filesystem, sizes),
        forall|i: int|
            0 <= i < states.last().node_states@.len() ==> !#[trigger] states.last().queued@[i],
    ensures
        job_counted(t, steps) == tree_ids(t),
{
    let trees = node_trees(t, steps);
    let queued = states.last().queued@;
    assert forall|id: FsIdentity| job_counted(t, steps).contains(id) <==> tree_ids(t).contains(id) by {
        lemma_parallel_ids(t, states, steps, one_filesystem, sizes, id);
        lemma_total_zero(waiting(trees, queued, What::Holds(id)));
        lemma_tree_ids(t, id);
    }
    assert(job_counted(t, steps) =~= tree_ids(t));
}

/// A parallel scan that is complete tells for its root exactly what lies in the tree, the
/// bytes of every file once, however the jobs were spread over the workers and whether
/// or not directories were shown with totals of an earlier snapshot that still stand.
pub proof fn law_parallel_total(
    t: DirTree,
    states: Seq<SharedState>,
    steps: Seq<JobStep>,
    one_filesystem: bool,
    sizes: spec_fn(FsIdentity) -> nat,
)
    requires
        parallel_run(t, states, steps, one_filesystem, sizes),
        states.last().node_states@[0].pending_subdirs == 0,
    ensures
        states.last().arena.hot@[0].total_bytes == tree_bytes(t, sizes),
        states.last().node_states@[0].accumulated_files == tree_sum(t, What::Files),
        states.last().error_count == tree_sum(t, What::Errors),
{
    let end = states.last();
    lemma_parallel_run(t, states, steps, one_filesystem, sizes, What::Bytes);
    lemma_parallel_run(t, states, steps, one_filesystem, sizes, What::Files);
    lemma_parallel_run(t, states, steps, one_filesystem, sizes, What::Errors);
    law_root_total(&end);
    let trees = node_trees(t, steps);
    lemma_total_zero(waiting(trees, end.queued@, What::Bytes));
    lemma_total_zero(waiting(trees, end.queued@, What::Files));
    lemma_total_zero(waiting(trees, end.queued@, What::Errors));
    lemma_all_counted(t, states, steps, one_filesystem, sizes);
}

/// A step of a serial scan.
pub enum WalkStep {
    Enter(EnterOutcome),
    Probe(ProbeOutcome),
}

/// What a serial scan still has before it: the directory that it is about to enter,
/// and for each directory being walked the directories inside it.
pub struct Ahead {
    pub entering: Option<DirTree>,
    pub slots: Seq<Seq<Option<DirTree>>>,
}

/// A listing names the given directories.
pub open spec fn lists(subdirs: Seq<SubDir>, dirs: Seq<Option<DirTree>>) -> bool {
    &&& dirs.len() == subdirs.len()
    &&& forall|i: int| 0 <= i < dirs.len() && (#[trigger] dirs[i]) is Some ==> dirs[i]->0.name == subdirs[i].name@
}

/// Entering directory `t` reports what lies there, the bytes of a file at the first of
/// its names. A directory that is not read must be shown with the totals that it has
/// now, and its files have no other names.
pub open spec fn enter_reads(
    outcome: EnterOutcome,
    t: DirTree,
    counted: Set<FsIdentity>,
    visited: Set<FsIdentity>,
    sizes: spec_fn(FsIdentity) -> nat,
) -> bool {
    match outcome {
        EnterOutcome::Cancelled => false,
        EnterOutcome::Skipped { totals, .. } => {
            &&& tree_ids(t).disjoint(counted)
            &&& totals.total_bytes == tree_bytes(t, sizes)
            &&& totals.file_count == tree_sum(t, What::Files)
            &&& tree_sum(t, What::Errors) == 0
        },
        EnterOutcome::Failed { errors, .. } => {
            &&& t.linked.len() == 0
            &&& t.bytes == 0
            &&& t.files == 0
            &&& t.errors == errors
            &&& t.dirs.len() == 0
        },
        EnterOutcome::Listed { listing, cancelled, .. } => {
            &&& !cancelled
            &&& are_apart(t.linked.to_set(), counted, visited)
            &&& listing.file_bytes == t.bytes + id_sum(t.linked.to_set().difference(visited), sizes)
            &&& listing.file_count == t.files
            &&& listing.error_count == t.errors
            &&& lists(listing.subdirs@, t.dirs)
        },
    }
}

/// Probing an entry of a listing tells what lies there.
pub open spec fn probe_reads(outcome: ProbeOutcome, slot: Option<DirTree>) -> bool {
    match outcome {
        ProbeOutcome::Cancelled => false,
        ProbeOutcome::OtherDevice => slot is None,
        ProbeOutcome::Unopenable => {
            &&& slot is Some
            &&& slot->0.bytes == 0
            &&& slot->0.linked.len() == 0
            &&& slot->0.files == 0
            &&& slot->0.errors == 1
            &&& slot->0.dirs.len() == 0
        },
        ProbeOutcome::Opened => slot is Some,
    }
}

/// The entry that the walk probes next.
pub open spec fn next_slot(before: &SerialScan, ahead: Ahead) -> Option<DirTree> {
    ahead.slots.last()[before.frames@.last().next as int]
}

/// The files that a step counts.
pub open spec fn walk_ids(step: WalkStep, ahead: Ahead) -> Set<FsIdentity> {
    match step {
        WalkStep::Enter(EnterOutcome::Skipped { .. }) => tree_ids(ahead.entering->0),
        WalkStep::Enter(_) => ahead.entering->0.linked.to_set(),
        WalkStep::Probe(_) => Set::empty(),
    }
}

/// A step of a serial scan that reads what lies ahead.
pub open spec fn walk_step(
    before: &SerialScan,
    after: &SerialScan,
    step: WalkStep,
    ahead: Ahead,
    counted: Set<FsIdentity>,
    sizes: spec_fn(FsIdentity) -> nat,
) -> bool {
    &&& before.wf()
    &&& after.wf()
    &&& before.result is None
    &&& match step {
        WalkStep::Enter(outcome) => {
            &&& before.entering is Some
            &&& enter_reads(outcome, ahead.entering->0, counted, before.visited@, sizes)
            &&& after.after_enter(before, outcome)
            &&& after.visited@ == (if outcome is Listed {
                before.visited@.union(ahead.entering->0.linked.to_set())
            } else {
                before.visited@
            })
        },
        WalkStep::Probe(outcome) => {
            &&& before.entering is None
            &&& probe_reads(outcome, next_slot(before, ahead))
            &&& after.after_probe(before, outcome)
            &&& after.visited == before.visited
        },
    }
}

/// What lies ahead after a step.
pub open spec fn ahead_after(before: &SerialScan, after: &SerialScan, step: WalkStep, ahead: Ahead) -> Ahead {
    match step {
        WalkStep::Enter(outcome) => if after.frames@.len() > before.frames@.len() {
            Ahead { entering: None, slots: ahead.slots.push(ahead.entering->0.dirs) }
        } else {
            Ahead { entering: None, slots: ahead.slots.take(after.frames@.len() as int) }
        },
        WalkStep::Probe(ProbeOutcome::Opened) => Ahead {
            entering: next_slot(before, ahead),
            slots: ahead.slots,
        },
        WalkStep::Probe(_) => Ahead {
            entering: None,
            slots: ahead.slots.take(after.frames@.len() as int),
        },
    }
}

/// What lies ahead of a serial scan of `t` in its last state.
pub open spec fn walk_ahead(t: DirTree, states: Seq<SerialScan>, steps: Seq<WalkStep>) -> Ahead
    decreases steps.len(),
{
    if steps.len() == 0 {
        Ahead { entering: Some(t), slots: Seq::empty() }
    } else {
        let n = steps.len() as int;
        ahead_after(
            &states[n - 1],
            &states[n],
            steps[n - 1],
            walk_ahead(t, states, steps.drop_last()),
        )
    }
}

/// The files that some steps of a serial scan of `t` have counted.
pub open spec fn walk_counted(t: DirTree, states: Seq<SerialScan>, steps: Seq<WalkStep>) -> Set<FsIdentity>
    decreases steps.len(),
{
    if steps.len() == 0 {
        Set::empty()
    } else {
        let before = steps.drop_last();
        walk_counted(t, states, before).union(walk_ids(steps.last(), walk_ahead(t, states, before)))
    }
}

/// A serial scan of `t`.
pub open spec fn serial_run(
    t: DirTree,
    states: Seq<SerialScan>,
    steps: Seq<WalkStep>,
    sizes: spec_fn(FsIdentity) -> nat,
) -> bool {
    &&& states.len() == steps.len() + 1
    &&& states[0].wf()
    &&& states[0].entering is Some
    &&& states[0].frames@.len() == 0
    &&& states[0].result is None
    &&& states[0].visited@ == Set::<FsIdentity>::empty()
    &&& forall|i: int|
        0 <= i < steps.len() ==> walk_step(
            &states[i],
            &states[i + 1],
            #[trigger] steps[i],
            walk_ahead(t, states, steps.take(i)),
            walk_counted(t, states, steps.take(i)),
            sizes,
        )
}

/// What the directories being walked still hide.
pub open spec fn hidden(frames: Seq<Frame>, slots: Seq<Seq<Option<DirTree>>>, what: What) -> Seq<int> {
    Seq::new(
        frames.len(),
        |k: int| total(slot_sums(slots[k].skip(frames[k].next as int), what)),
    )
}

/// What lies ahead is known for each directory being walked.
pub open spec fn aligned(frames: Seq<Frame>, slots: Seq<Seq<Option<DirTree>>>) -> bool {
    &&& slots.len() == frames.len()
    &&& forall|k: int|
        0 <= k < frames.len() ==> frames[k].next <= (#[trigger] slots[k]).len() && slots[k].len()
            == frames[k].subdirs@.len()
}

/// What a serial scan has found so far.
pub open spec fn walk_found(w: WalkView, what: What) -> int {
    match what {
        What::Bytes => found(w).0,
        What::Files => found(w).1,
        What::Errors => found(w).2,
        What::Holds(_) => 0,
    }
}

/// What entering a directory finds.
pub open spec fn enter_found(outcome: EnterOutcome, what: What) -> int {
    match what {
        What::Bytes => enter_totals(outcome).bytes as int,
        What::Files => enter_totals(outcome).files as int,
        What::Errors => enter_totals(outcome).errors as int,
        What::Holds(_) => 0,
    }
}

/// What entering a directory leaves to be found in the directories inside it.
pub open spec fn enter_left(outcome: EnterOutcome, t: DirTree, what: What) -> int {
    match outcome {
        EnterOutcome::Skipped { .. } => 0,
        _ => total(slot_sums(t.dirs, what)),
    }
}

/// Only directories of which nothing is left to look at are done with.
proof fn lemma_hidden_handed_up(
    hot: Seq<NodeHot>,
    frames: Seq<Frame>,
    node: u32,
    t: Totals,
    slots: Seq<Seq<Option<DirTree>>>,
    what: What,
)
    requires
        aligned(frames, slots),
    ensures
        ({
            let w = handed_up(hot, frames, node, t);
            let rest = slots.take(w.frames.len() as int);
            &&& w.frames.len() <= frames.len()
            &&& aligned(w.frames, rest)
            &&& total(hidden(w.frames, rest, what)) == total(hidden(frames, slots, what))
        }),
    decreases frames.len(),
{
    if frames.len() == 0 {
        assert(slots.take(0) =~= slots);
    } else {
        let shown = hot.update(node as int, NodeHot { total_bytes: t.bytes, ..hot[node as int] });
        let above = Frame { sum: plus(frames.last().sum, t), ..frames.last() };
        let below = frames.drop_last();
        let m = below.len() as int;
        if above.next < above.subdirs@.len() {
            let up = below.push(above);
            assert(slots.take(up.len() as int) =~= slots);
            assert(hidden(up, slots, what) =~= hidden(frames, slots, what));
        } else {
            let less = slots.take(m);
            let h = shown.update(
                above.node as int,
                NodeHot { file_count: above.files_here, ..shown[above.node as int] },
            );
            lemma_hidden_handed_up(h, below, above.node, above.sum, less, what);
            let w = handed_up(h, below, above.node, above.sum);
            assert(less.take(w.frames.len() as int) =~= slots.take(w.frames.len() as int));
            assert(hidden(frames, slots, what).drop_last() =~= hidden(below, less, what));
            assert(slots[m].len() == frames[m].subdirs@.len());
            lemma_total_zero(slot_sums(slots[m].skip(frames[m].next as int), what));
        }
    }
}

/// The sum of the directory that is about to be entered.
pub open spec fn entering_sum(ahead: Ahead, what: What) -> int {
    slot_sum(ahead.entering, what)
}

/// What was found and what lies ahead make up the tree.
pub open spec fn accounts(
    state: &SerialScan,
    ahead: Ahead,
    counted: Set<FsIdentity>,
    t: DirTree,
    sizes: spec_fn(FsIdentity) -> nat,
    what: What,
) -> bool {
    walk_found(state.walk(), what) + total(hidden(state.frames@, ahead.slots, what)) + entering_sum(
        ahead,
        what,
    ) == tree_sum(t, what) + counted_bytes(counted, sizes, what)
}

/// Every file was counted or lies ahead.
pub open spec fn walk_tracks(state: &SerialScan, ahead: Ahead, counted: Set<FsIdentity>, t: DirTree, id: FsIdentity) -> bool {
    let what = What::Holds(id);
    (counted.contains(id) || total(hidden(state.frames@, ahead.slots, what)) > 0 || entering_sum(ahead, what) > 0)
        <==> tree_sum(t, what) > 0
}

/// The walk knows what lies ahead of it and has lost nothing.
pub open spec fn on_track(
    state: &SerialScan,
    ahead: Ahead,
    counted: Set<FsIdentity>,
    t: DirTree,
    sizes: spec_fn(FsIdentity) -> nat,
) -> bool {
    &&& state.wf()
    &&& aligned(state.frames@, ahead.slots)
    &&& state.entering is Some <==> ahead.entering is Some
    &&& counted.finite()
    &&& state.visited@.subset_of(counted)
    &&& accounts(state, ahead, counted, t, sizes, What::Bytes)
    &&& accounts(state, ahead, counted, t, sizes, What::Files)
    &&& accounts(state, ahead, counted, t, sizes, What::Errors)
    &&& forall|id: FsIdentity| #[trigger] walk_tracks(state, ahead, counted, t, id)
}

/// The counters of a scan can hold what lies in the tree.
pub open spec fn countable(t: DirTree, sizes: spec_fn(FsIdentity) -> nat) -> bool {
    &&& tree_bytes(t, sizes) <= u64::MAX
    &&& tree_sum(t, What::Files) <= u64::MAX
    &&& tree_sum(t, What::Errors) <= u32::MAX
}

proof fn lemma_slots_nonneg(slots: Seq<Option<DirTree>>, what: What)
    ensures
        total(slot_sums(slots, what)) >= 0,
{
    assert forall|i: int| 0 <= i < slots.len() implies #[trigger] slot_sums(slots, what)[i] >= 0 by {
        if let Some(d) = slots[i] {
            lemma_tree_nonneg(d, what);
        }
    }
    lemma_total_nonneg(slot_sums(slots, what));
}

proof fn lemma_hidden_nonneg(frames: Seq<Frame>, slots: Seq<Seq<Option<DirTree>>>, what: What)
    ensures
        total(hidden(frames, slots, what)) >= 0,
{
    assert forall|k: int| 0 <= k < frames.len() implies #[trigger] hidden(frames, slots, what)[k] >= 0 by {
        lemma_slots_nonneg(slots[k].skip(frames[k].next as int), what);
    }
    lemma_total_nonneg(hidden(frames, slots, what));
}

proof fn lemma_enter_step(
    before: &SerialScan,
    after: &SerialScan,
    outcome: EnterOutcome,
    ahead: Ahead,
    counted: Set<FsIdentity>,
    sizes: spec_fn(FsIdentity) -> nat,
    what: What,
)
    requires
        walk_step(before, after, WalkStep::Enter(outcome), ahead, counted, sizes),
        aligned(before.frames@, ahead.slots),
        room_for(before.frames@, enter_totals(outcome)),
        ahead.entering is Some,
    ensures
        ({
            let next = ahead_after(before, after, WalkStep::Enter(outcome), ahead);
            &&& aligned(after.frames@, next.slots)
            &&& next.entering is None
            &&& walk_found(after.walk(), what) == walk_found(before.walk(), what) + enter_found(outcome, what)
            &&& total(hidden(after.frames@, next.slots, what)) == total(
                hidden(before.frames@, ahead.slots, what),
            ) + enter_left(outcome, ahead.entering->0, what)
        }),
{
    let hot = before.arena.hot@;
    let frames = before.frames@;
    let node = before.entering->0;
    let t = ahead.entering->0;
    let sum = enter_totals(outcome);
    let at = hot[node as int];
    let slots = ahead.slots;
    law_enter_adds(hot, frames, node, outcome);
    match outcome {
        EnterOutcome::Skipped { totals, .. } => {
            let h = hot.update(
                node as int,
                NodeHot { total_bytes: totals.total_bytes, file_count: totals.file_count, ..at },
            );
            lemma_hidden_handed_up(h, frames, node, sum, slots, what);
        },
        EnterOutcome::Listed { listing, .. } => {
            let f = new_frame(node, at.depth, listing);
            if listing.subdirs@.len() > 0 {
                let more = frames.push(f);
                let wide = slots.push(t.dirs);
                assert(hidden(more, wide, what).drop_last() =~= hidden(frames, slots, what));
                assert(t.dirs.skip(0) =~= t.dirs);
            } else {
                let h = hot.update(node as int, NodeHot { file_count: f.files_here, ..at });
                lemma_hidden_handed_up(h, frames, node, sum, slots, what);
                assert(slot_sums(t.dirs, what) =~= Seq::empty());
            }
        },
        _ => {
            lemma_hidden_handed_up(hot, frames, node, sum, slots, what);
            assert(slot_sums(t.dirs, what) =~= Seq::empty());
        },
    }
}

/// Once an entry was looked at, it hides nothing any more.
proof fn lemma_hidden_moved(frames: Seq<Frame>, slots: Seq<Seq<Option<DirTree>>>, moved: Frame, what: What)
    requires
        frames.len() > 0,
        aligned(frames, slots),
        frames.last().next < slots.last().len(),
        moved.next == frames.last().next + 1,
        moved.subdirs == frames.last().subdirs,
    ensures
        aligned(frames.drop_last().push(moved), slots),
        total(hidden(frames.drop_last().push(moved), slots, what)) == total(hidden(frames, slots, what))
            - slot_sum(slots.last()[frames.last().next as int], what),
{
    let m = frames.len() - 1;
    let at = frames.last().next as int;
    let slot = slots[m][at];
    let rest = slots[m].skip(at + 1);
    let one = seq![slot_sum(slot, what)];
    assert(slot_sums(slots[m].skip(at), what) =~= one + slot_sums(rest, what));
    lemma_total_add(one, slot_sums(rest, what));
    assert(one =~= Seq::empty().push(slot_sum(slot, what)));
    lemma_total_push(Seq::empty(), slot_sum(slot, what));
    let up = frames.drop_last().push(moved);
    assert forall|k: int| 0 <= k < up.len() implies up[k].next <= (#[trigger] slots[k]).len() && slots[k].len()
        == up[k].subdirs@.len() by {}
    let a = hidden(up, slots, what);
    let b = hidden(frames, slots, what);
    assert(a.drop_last() =~= b.drop_last());
    assert(a.last() == total(slot_sums(rest, what)));
    assert(b.last() == total(slot_sums(slots[m].skip(at), what)));
}

proof fn lemma_hidden_passed(
    hot: Seq<NodeHot>,
    frames: Seq<Frame>,
    errors: int,
    slots: Seq<Seq<Option<DirTree>>>,
    what: What,
)
    requires
        frames.len() > 0,
        aligned(frames, slots),
        frames.last().next < slots.last().len(),
    ensures
        ({
            let w = passed_over(hot, frames, errors);
            let rest = slots.take(w.frames.len() as int);
            &&& aligned(w.frames, rest)
            &&& total(hidden(w.frames, rest, what)) == total(hidden(frames, slots, what)) - slot_sum(
                slots.last()[frames.last().next as int],
                what,
            )
        }),
{
    let top = frames.last();
    let m = frames.len() - 1;
    assert(slots[m].len() == frames[m].subdirs@.len());
    assert(top.subdirs.len() == top.subdirs@.len());
    let moved = Frame {
        next: (top.next + 1) as usize,
        sum: Totals { errors: (top.sum.errors + errors) as u32, ..top.sum },
        ..top
    };
    let below = frames.drop_last();
    let up = below.push(moved);
    lemma_hidden_moved(frames, slots, moved, what);
    if moved.next < moved.subdirs@.len() {
        assert(slots.take(up.len() as int) =~= slots);
    } else {
        let less = slots.take(m);
        let h = hot.update(
            moved.node as int,
            NodeHot { file_count: moved.files_here, ..hot[moved.node as int] },
        );
        lemma_hidden_handed_up(h, below, moved.node, moved.sum, less, what);
        let w = handed_up(h, below, moved.node, moved.sum);
        assert(less.take(w.frames.len() as int) =~= slots.take(w.frames.len() as int));
        assert(hidden(up, slots, what).drop_last() =~= hidden(below, less, what));
        assert(slot_sums(slots[m].skip(moved.next as int), what) =~= Seq::empty());
    }
}

proof fn lemma_pass_step(
    before: &SerialScan,
    after: &SerialScan,
    outcome: ProbeOutcome,
    ahead: Ahead,
    counted: Set<FsIdentity>,
    sizes: spec_fn(FsIdentity) -> nat,
    what: What,
)
    requires
        walk_step(before, after, WalkStep::Probe(outcome), ahead, counted, sizes),
        aligned(before.frames@, ahead.slots),
        room_for(before.frames@, (Totals { bytes: 0, files: 0, errors: 0 })),
        outcome is Unopenable ==> total(stack_errors(before.frames@)) < u32::MAX,
    ensures
        ({
            let next = ahead_after(before, after, WalkStep::Probe(outcome), ahead);
            &&& aligned(after.frames@, next.slots)
            &&& next.entering is Some <==> outcome is Opened
            &&& walk_found(after.walk(), what) + total(hidden(after.frames@, next.slots, what))
                + entering_sum(next, what) == walk_found(before.walk(), what) + total(
                hidden(before.frames@, ahead.slots, what),
            )
        }),
{
    let hot = before.arena.hot@;
    let frames = before.frames@;
    let m = frames.len() - 1;
    let top = frames.last();
    let slots = ahead.slots;
    let slot = slots[m][top.next as int];
    assert(slots[m].len() == frames[m].subdirs@.len());
    assert(top.subdirs.len() == top.subdirs@.len());
    if outcome is Opened {
        let on = Frame { next: (top.next + 1) as usize, ..top };
        lemma_hidden_moved(frames, slots, on, what);
        let up = frames.drop_last().push(on);
        assert(stack_bytes(up) =~= stack_bytes(frames));
        assert(stack_files(up) =~= stack_files(frames));
        assert(stack_errors(up) =~= stack_errors(frames));
    } else {
        let errors: int = if outcome is Unopenable { 1 } else { 0 };
        law_probe_keeps(hot, frames, errors);
        lemma_hidden_passed(hot, frames, errors, slots, what);
        if let Some(t) = slot {
            lemma_tree_sum(t, what);
            assert(slot_sums(t.dirs, what) =~= Seq::empty());
        }
    }
}

/// Files that lie in the tree and were counted, with those of one more directory, have
/// no more bytes than all files of the tree.
proof fn lemma_counted_bound(
    counted: Set<FsIdentity>,
    t: DirTree,
    sizes: spec_fn(FsIdentity) -> nat,
)
    requires
        counted.finite(),
        forall|id: FsIdentity| #[trigger] counted.contains(id) ==> tree_sum(t, What::Holds(id)) > 0,
    ensures
        id_sum(counted, sizes) <= id_sum(tree_ids(t), sizes),
{
    let all = tree_ids(t);
    assert forall|id: FsIdentity| counted.contains(id) implies all.contains(id) by {
        lemma_tree_ids(t, id);
    }
    lemma_tree_ids(t, arbitrary());
    lemma_id_sum_union(counted, all, sizes);
    lemma_id_sum_nonneg(all.difference(counted), sizes);
    assert(counted.union(all) =~= all);
}

/// The files of the next directory lie in the tree.
proof fn lemma_next_counted(
    state: &SerialScan,
    ahead: Ahead,
    counted: Set<FsIdentity>,
    t: DirTree,
    sizes: spec_fn(FsIdentity) -> nat,
    ids: Set<FsIdentity>,
)
    requires
        on_track(state, ahead, counted, t, sizes),
        ahead.entering is Some,
        ids.finite(),
        ids.subset_of(tree_ids(ahead.entering->0)),
    ensures
        counted.union(ids).finite(),
        id_sum(counted.union(ids), sizes) <= id_sum(tree_ids(t), sizes),
        id_sum(counted, sizes) <= id_sum(tree_ids(t), sizes),
{
    let more = counted.union(ids);
    let d = ahead.entering->0;
    assert forall|id: FsIdentity| #[trigger] more.contains(id) implies tree_sum(t, What::Holds(id)) > 0 by {
        assert(walk_tracks(state, ahead, counted, t, id));
        lemma_tree_ids(d, id);
    }
    assert forall|id: FsIdentity| #[trigger] counted.contains(id) implies tree_sum(t, What::Holds(id)) > 0 by {
        assert(more.contains(id));
    }
    lemma_id_sum_union(counted, ids, sizes);
    lemma_counted_bound(more, t, sizes);
    lemma_counted_bound(counted, t, sizes);
}

/// Room for what the next directory adds is left wherever the whole tree can be counted.
proof fn lemma_enter_room(
    state: &SerialScan,
    ahead: Ahead,
    outcome: EnterOutcome,
    counted: Set<FsIdentity>,
    t: DirTree,
    sizes: spec_fn(FsIdentity) -> nat,
)
    requires
        on_track(state, ahead, counted, t, sizes),
        countable(t, sizes),
        state.result is None,
        ahead.entering is Some,
        enter_reads(outcome, ahead.entering->0, counted, state.visited@, sizes),
    ensures
        room_for(state.frames@, enter_totals(outcome)),
        counted.union(walk_ids(WalkStep::Enter(outcome), ahead)).finite(),
        id_sum(counted.union(walk_ids(WalkStep::Enter(outcome), ahead)), sizes) == id_sum(counted, sizes)
            + enter_totals(outcome).bytes - (if outcome is Skipped {
            tree_sum(ahead.entering->0, What::Bytes)
        } else {
            own(ahead.entering->0, What::Bytes)
        }),
{
    let frames = state.frames@;
    let d = ahead.entering->0;
    let ids = walk_ids(WalkStep::Enter(outcome), ahead);
    lemma_hidden_nonneg(frames, ahead.slots, What::Bytes);
    lemma_hidden_nonneg(frames, ahead.slots, What::Files);
    lemma_hidden_nonneg(frames, ahead.slots, What::Errors);
    lemma_tree_sum(d, What::Bytes);
    lemma_tree_sum(d, What::Files);
    lemma_tree_sum(d, What::Errors);
    lemma_slots_nonneg(d.dirs, What::Bytes);
    lemma_slots_nonneg(d.dirs, What::Files);
    lemma_slots_nonneg(d.dirs, What::Errors);
    vstd::seq_lib::seq_to_set_is_finite(d.linked);
    lemma_tree_ids(d, arbitrary());
    lemma_next_counted(state, ahead, counted, t, sizes, ids);
    if outcome is Skipped {
        assert(are_apart(ids, counted, Set::empty()));
        assert(ids.difference(Set::empty()) =~= ids);
        lemma_more_counted(counted, Set::empty(), ids, sizes);
    } else if outcome is Listed {
        lemma_more_counted(counted, state.visited@, ids, sizes);
    } else {
        assert(d.linked.to_set() =~= Set::empty());
        assert(counted.union(ids) =~= counted);
    }
}

/// Room for one more error is left wherever a directory that cannot be opened lies ahead.
proof fn lemma_probe_room(
    state: &SerialScan,
    ahead: Ahead,
    counted: Set<FsIdentity>,
    t: DirTree,
    sizes: spec_fn(FsIdentity) -> nat,
)
    requires
        on_track(state, ahead, counted, t, sizes),
        countable(t, sizes),
        state.result is None,
        state.entering is None,
    ensures
        room_for(state.frames@, (Totals { bytes: 0, files: 0, errors: 0 })),
        total(stack_errors(state.frames@)) + slot_sum(next_slot(state, ahead), What::Errors) <= u32::MAX,
{
    let frames = state.frames@;
    lemma_hidden_nonneg(frames, ahead.slots, What::Bytes);
    lemma_hidden_nonneg(frames, ahead.slots, What::Files);
    lemma_hidden_nonneg(frames, ahead.slots, What::Errors);
    assert forall|id: FsIdentity| #[trigger] counted.contains(id) implies tree_sum(t, What::Holds(id)) > 0 by {
        assert(walk_tracks(state, ahead, counted, t, id));
    }
    lemma_counted_bound(counted, t, sizes);
    let m = frames.len() - 1;
    let top = frames.last();
    assert(ahead.slots[m].len() == frames[m].subdirs@.len());
    assert(top.subdirs.len() == top.subdirs@.len());
    let on = Frame { next: (top.next + 1) as usize, ..top };
    lemma_hidden_moved(frames, ahead.slots, on, What::Errors);
    lemma_hidden_nonneg(frames.drop_last().push(on), ahead.slots, What::Errors);
}

proof fn lemma_enter_tracks(
    before: &SerialScan,
    after: &SerialScan,
    outcome: EnterOutcome,
    ahead: Ahead,
    counted: Set<FsIdentity>,
    t: DirTree,
    sizes: spec_fn(FsIdentity) -> nat,
    id: FsIdentity,
)
    requires
        walk_step(before, after, WalkStep::Enter(outcome), ahead, counted, sizes),
        aligned(before.frames@, ahead.slots),
        room_for(before.frames@, enter_totals(outcome)),
        ahead.entering is Some,
        walk_tracks(before, ahead, counted, t, id),
    ensures
        walk_tracks(
            after,
            ahead_after(before, after, WalkStep::Enter(outcome), ahead),
            counted.union(walk_ids(WalkStep::Enter(outcome), ahead)),
            t,
            id,
        ),
{
    let what = What::Holds(id);
    let d = ahead.entering->0;
    lemma_enter_step(before, after, outcome, ahead, counted, sizes, what);
    lemma_tree_ids(d, id);
    lemma_tree_sum(d, what);
    lemma_slots_nonneg(d.dirs, what);
    lemma_hidden_nonneg(before.frames@, ahead.slots, what);
}

proof fn lemma_walk_step(
    before: &SerialScan,
    after: &SerialScan,
    step: WalkStep,
    ahead: Ahead,
    counted: Set<FsIdentity>,
    t: DirTree,
    sizes: spec_fn(FsIdentity) -> nat,
)
    requires
        walk_step(before, after, step, ahead, counted, sizes),
        on_track(before, ahead, counted, t, sizes),
        countable(t, sizes),
    ensures
        on_track(
            after,
            ahead_after(before, after, step, ahead),
            counted.union(walk_ids(step, ahead)),
            t,
            sizes,
        ),
{
    let next = ahead_after(before, after, step, ahead);
    let more = counted.union(walk_ids(step, ahead));
    match step {
        WalkStep::Enter(outcome) => {
            let d = ahead.entering->0;
            lemma_enter_room(before, ahead, outcome, counted, t, sizes);
            lemma_tree_sum(d, What::Bytes);
            lemma_tree_sum(d, What::Files);
            lemma_tree_sum(d, What::Errors);
            lemma_enter_step(before, after, outcome, ahead, counted, sizes, What::Bytes);
            lemma_enter_step(before, after, outcome, ahead, counted, sizes, What::Files);
            lemma_enter_step(before, after, outcome, ahead, counted, sizes, What::Errors);
            assert forall|id: FsIdentity| #[trigger] walk_tracks(after, next, more, t, id) by {
                assert(walk_tracks(before, ahead, counted, t, id));
                lemma_enter_tracks(before, after, outcome, ahead, counted, t, sizes, id);
            }
        },
        WalkStep::Probe(outcome) => {
            lemma_probe_room(before, ahead, counted, t, sizes);
            if outcome is Unopenable {
                lemma_tree_sum(next_slot(before, ahead)->0, What::Errors);
                assert(slot_sums(next_slot(before, ahead)->0.dirs, What::Errors) =~= Seq::empty());
            }
            assert(more =~= counted);
            lemma_pass_step(before, after, outcome, ahead, counted, sizes, What::Bytes);
            lemma_pass_step(before, after, outcome, ahead, counted, sizes, What::Files);
            lemma_pass_step(before, after, outcome, ahead, counted, sizes, What::Errors);
            assert forall|id: FsIdentity| #[trigger] walk_tracks(after, next, more, t, id) by {
                assert(walk_tracks(before, ahead, counted, t, id));
                lemma_pass_step(before, after, outcome, ahead, counted, sizes, What::Holds(id));
                lemma_hidden_nonneg(after.frames@, next.slots, What::Holds(id));
                if let Some(d) = next.entering {
                    lemma_tree_nonneg(d, What::Holds(id));
                }
            }
        },
    }
}

proof fn lemma_serial_run(
    t: DirTree,
    states: Seq<SerialScan>,
    steps: Seq<WalkStep>,
    sizes: spec_fn(FsIdentity) -> nat,
    n: int,
)
    requires
        serial_run(t, states, steps, sizes),
        countable(t, sizes),
        0 <= n <= steps.len(),
    ensures
        on_track(
            &states[n],
            walk_ahead(t, states, steps.take(n)),
            walk_counted(t, states, steps.take(n)),
            t,
            sizes,
        ),
    decreases n,
{
    if n == 0 {
        let none = Seq::<Seq<Option<DirTree>>>::empty();
        let frames = states[0].frames@;
        assert(stack_bytes(frames) =~= Seq::empty());
        assert(stack_files(frames) =~= Seq::empty());
        assert(stack_errors(frames) =~= Seq::empty());
        assert(hidden(frames, none, What::Bytes) =~= Seq::empty());
        assert(hidden(frames, none, What::Files) =~= Seq::empty());
        assert(hidden(frames, none, What::Errors) =~= Seq::empty());
        let ahead = walk_ahead(t, states, steps.take(0));
        assert forall|id: FsIdentity| #[trigger] walk_tracks(&states[0], ahead, Set::empty(), t, id) by {
            assert(hidden(frames, none, What::Holds(id)) =~= Seq::empty());
        }
    } else {
        lemma_serial_run(t, states, steps, sizes, n - 1);
        assert(steps.take(n).drop_last() =~= steps.take(n - 1));
        assert(steps.take(n)[n - 1] == steps[n - 1]);
        assert(steps.take(n).last() == steps[n - 1]);
        lemma_walk_step(
            &states[n - 1],
            &states[n],
            steps[n - 1],
            walk_ahead(t, states, steps.take(n - 1)),
            walk_counted(t, states, steps.take(n - 1)),
            t,
            sizes,
        );
    }
}

/// A serial scan that is over reports exactly what lies in the tree, the bytes of every
/// file once, whether or not directories were shown with totals of an earlier snapshot
/// that still stand.
pub proof fn law_serial_total(
    t: DirTree,
    states: Seq<SerialScan>,
    steps: Seq<WalkStep>,
    sizes: spec_fn(FsIdentity) -> nat,
)
    requires
        serial_run(t, states, steps, sizes),
        countable(t, sizes),
        states.last().result is Some,
    ensures
        states.last().result->0.bytes == tree_bytes(t, sizes),
        states.last().result->0.files == tree_sum(t, What::Files),
        states.last().result->0.errors == tree_sum(t, What::Errors),
{
    let n = steps.len() as int;
    lemma_serial_run(t, states, steps, sizes, n);
    let end = states.last();
    let ahead = walk_ahead(t, states, steps.take(n));
    let counted = walk_counted(t, states, steps.take(n));
    assert(hidden(end.frames@, ahead.slots, What::Bytes) =~= Seq::empty());
    assert(hidden(end.frames@, ahead.slots, What::Files) =~= Seq::empty());
    assert(hidden(end.frames@, ahead.slots, What::Errors) =~= Seq::empty());
    assert forall|id: FsIdentity| counted.contains(id) <==> tree_ids(t).contains(id) by {
        assert(walk_tracks(&end, ahead, counted, t, id));
        assert(hidden(end.frames@, ahead.slots, What::Holds(id)) =~= Seq::empty());
        lemma_tree_ids(t, id);
    }
    assert(counted =~= tree_ids(t));
}

/// A serial and a parallel scan of the same tree report the same bytes, files and
/// errors.
pub proof fn law_scans_agree(
    t: DirTree,
    walk: Seq<SerialScan>,
    walk_steps: Seq<WalkStep>,
    states: Seq<SharedState>,
    steps: Seq<JobStep>,
    one_filesystem: bool,
    sizes: spec_fn(FsIdentity) -> nat,
)
    requires
        serial_run(t, walk, walk_steps, sizes),
        walk.last().result is Some,
        parallel_run(t, states, steps, one_filesystem, sizes),
        states.last().node_states@[0].pending_subdirs == 0,
        countable(t, sizes),
    ensures
        walk.last().result->0.bytes == states.last().arena.hot@[0].total_bytes,
        walk.last().result->0.files == states.last().node_states@[0].accumulated_files,
        walk.last().result->0.errors == states.last().error_count,
{
    law_serial_total(t, walk, walk_steps, sizes);
    law_parallel_total(t, states, steps, one_filesystem, sizes);
}

} // verus!
