//! Which directories every complete scan of a tree lists.

use crate::agreement::{
    ahead_after, entered_dirs, job_counted, job_dirs, job_step, lemma_job_kept, lemma_shorter_run, lists,
    names_of, next_slot, node_trees, parallel_run, serial_run, walk_ahead, walk_counted,
    walk_step, Ahead, DirTree, JobStep, WalkStep,
};
use crate::arena::{
    join_segment, law_child_path, lemma_linked_rooted, NodeHot, PathlessArena, NO_PARENT,
};
use crate::identity::FsIdentity;
use crate::parallel::{kept_names, law_root_total, outcome_subdirs, same_place, SharedState};
use crate::serial::{
    enter_totals, handed_up, new_frame, passed_over, plus, EnterOutcome, Frame, ProbeOutcome,
    SerialScan, Totals,
};
use crate::sums::{lemma_total_add, lemma_total_push, lemma_total_update, total};
use vstd::prelude::*;

verus! {

/// How often a directory at `path` is found at path `p`.
pub open spec fn counts(path: Seq<u8>, p: Seq<u8>) -> int {
    if p == path {
        1
    } else {
        0
    }
}

/// How many directories of a tree whose root lies at `path` lie at path `p`.
pub open spec fn tree_count(t: DirTree, path: Seq<u8>, p: Seq<u8>, sep: u8) -> int
    decreases t, t.dirs.len() + 1,
{
    counts(path, p) + dirs_count(t, path, t.dirs.len() as int, p, sep)
}

/// How many of them lie in the first `n` directories inside its root.
pub open spec fn dirs_count(t: DirTree, path: Seq<u8>, n: int, p: Seq<u8>, sep: u8) -> int
    decreases t, n,
{
    if 0 < n <= t.dirs.len() {
        dirs_count(t, path, n - 1, p, sep) + match t.dirs[n - 1] {
            Some(d) => tree_count(d, join_segment(path, d.name, sep), p, sep),
            None => 0,
        }
    } else {
        0
    }
}

/// How many of those that one entry of a listing of the directory at `path` leads to
/// lie at path `p`.
pub open spec fn slot_count(slot: Option<DirTree>, path: Seq<u8>, p: Seq<u8>, sep: u8) -> int {
    match slot {
        Some(d) => tree_count(d, join_segment(path, d.name, sep), p, sep),
        None => 0,
    }
}

/// How many it is for each of the given entries.
pub open spec fn slot_counts(slots: Seq<Option<DirTree>>, path: Seq<u8>, p: Seq<u8>, sep: u8) -> Seq<int> {
    Seq::new(slots.len(), |i: int| slot_count(slots[i], path, p, sep))
}

proof fn lemma_dirs_count(t: DirTree, path: Seq<u8>, n: int, p: Seq<u8>, sep: u8)
    requires
        0 <= n <= t.dirs.len(),
    ensures
        dirs_count(t, path, n, p, sep) == total(slot_counts(t.dirs.take(n), path, p, sep)),
    decreases n,
{
    if n > 0 {
        lemma_dirs_count(t, path, n - 1, p, sep);
        assert(slot_counts(t.dirs.take(n), path, p, sep).drop_last() =~= slot_counts(t.dirs.take(n - 1), path, p, sep));
    }
}

proof fn lemma_tree_count(t: DirTree, path: Seq<u8>, p: Seq<u8>, sep: u8)
    ensures
        tree_count(t, path, p, sep) == counts(path, p) + total(slot_counts(t.dirs, path, p, sep)),
{
    lemma_dirs_count(t, path, t.dirs.len() as int, p, sep);
    assert(t.dirs.take(t.dirs.len() as int) =~= t.dirs);
}

/// How many it is for each of the given directories inside the one at `path`.
pub open spec fn kid_counts(kids: Seq<DirTree>, path: Seq<u8>, p: Seq<u8>, sep: u8) -> Seq<int> {
    Seq::new(kids.len(), |i: int| tree_count(kids[i], join_segment(path, kids[i].name, sep), p, sep))
}

proof fn lemma_entered_counts(slots: Seq<Option<DirTree>>, path: Seq<u8>, p: Seq<u8>, sep: u8)
    ensures
        total(kid_counts(entered_dirs(slots), path, p, sep)) == total(slot_counts(slots, path, p, sep)),
    decreases slots.len(),
{
    if slots.len() > 0 {
        lemma_entered_counts(slots.drop_last(), path, p, sep);
        assert(slot_counts(slots, path, p, sep).drop_last() =~= slot_counts(slots.drop_last(), path, p, sep));
        if slots.last() is Some {
            assert(kid_counts(entered_dirs(slots), path, p, sep).drop_last() =~= kid_counts(
                entered_dirs(slots.drop_last()),
                path,
                p,
                sep,
            ));
        }
    }
}

/// The paths of all nodes.
pub open spec fn paths(arena: &PathlessArena) -> Seq<Seq<u8>> {
    Seq::new(arena.hot@.len(), |i: int| arena.path(i as u32))
}

/// For each node, whether it lies at path `p`.
pub open spec fn node_counts(all: Seq<Seq<u8>>, p: Seq<u8>) -> Seq<int> {
    Seq::new(all.len(), |i: int| counts(all[i], p))
}

proof fn lemma_node_counts(all: Seq<Seq<u8>>, p: Seq<u8>)
    ensures
        all.to_multiset().count(p) == total(node_counts(all, p)),
    decreases all.len(),
{
    broadcast use vstd::seq_lib::group_to_multiset_ensures;

    if all.len() > 0 {
        let s = all.drop_last();
        lemma_node_counts(s, p);
        assert(all =~= s.push(all.last()));
        assert(node_counts(all, p).drop_last() =~= node_counts(s, p));
    } else {
        assert(!all.contains(p));
    }
}

/// A node keeps its path when nodes are added.
proof fn lemma_same_path(a: &PathlessArena, b: &PathlessArena, i: u32)
    requires
        a.linked(),
        b.linked(),
        i < a.hot@.len() <= b.hot@.len(),
        forall|k: int| 0 <= k < a.hot@.len() ==> same_place(#[trigger] b.hot@[k], a.hot@[k]),
        a.names().is_prefix_of(b.names()),
        a.sep == b.sep,
    ensures
        a.path(i) == b.path(i),
    decreases i,
{
    lemma_linked_rooted(a, i);
    lemma_linked_rooted(b, i);
    let p = a.hot@[i as int].parent;
    assert(same_place(b.hot@[i as int], a.hot@[i as int]));
    if p != NO_PARENT {
        lemma_linked_rooted(a, p);
        lemma_linked_rooted(b, p);
        lemma_same_path(a, b, p);
    }
    law_child_path(a, i);
    law_child_path(b, i);
    let name = a.hot@[i as int].name.0 as int;
    assert(a.names()[name] == b.names().take(a.names().len() as int)[name]);
}

/// How many directories at path `p` each node of a parallel scan stands for: itself
/// alone or, while it waits, with all below it.
pub open spec fn job_counts(state: &SharedState, trees: Seq<DirTree>, p: Seq<u8>) -> Seq<int> {
    Seq::new(
        trees.len(),
        |i: int|
            if state.queued@[i] {
                tree_count(trees[i], state.arena.path(i as u32), p, state.arena.sep)
            } else {
                counts(state.arena.path(i as u32), p)
            },
    )
}

/// A job that reads its directory puts the directories inside it in its place.
proof fn lemma_job_counts(
    before: &SharedState,
    after: &SharedState,
    step: JobStep,
    trees: Seq<DirTree>,
    counted: Set<FsIdentity>,
    one_filesystem: bool,
    sizes: spec_fn(FsIdentity) -> nat,
    p: Seq<u8>,
)
    requires
        job_step(before, after, step, trees, counted, one_filesystem, sizes),
        trees.len() == before.node_states@.len(),
        !(step.outcome is Skipped),
    ensures
        trees.len() + job_dirs(step.outcome, trees[step.node as int]).len() == after.node_states@.len(),
        total(job_counts(after, trees + job_dirs(step.outcome, trees[step.node as int]), p)) == total(
            job_counts(before, trees, p),
        ),
        after.arena.path(0) == before.arena.path(0),
{
    let node = step.node as int;
    let n = before.node_states@.len() as int;
    let t = trees[node];
    let kids = job_dirs(step.outcome, t);
    let kept = kept_names(outcome_subdirs(step.outcome), one_filesystem, before.root_device);
    lemma_job_kept(step.outcome, t, one_filesystem, before.root_device, counted, before.visited@, sizes);
    assert(kept == names_of(kids));
    let a = &before.arena;
    let b = &after.arena;
    assert(a.linked() && b.linked());
    assert(a.hot@.len() == n && b.hot@.len() == n + kids.len());
    assert forall|i: int| 0 <= i < n implies #[trigger] a.path(i as u32) == b.path(i as u32) by {
        lemma_same_path(a, b, i as u32);
    }
    let path = a.path(node as u32);
    let done = job_counts(before, trees, p).update(node, counts(path, p));
    assert forall|k: int| 0 <= k < kids.len() implies #[trigger] b.path((n + k) as u32) == join_segment(
        path,
        kids[k].name,
        before.arena.sep,
    ) by {
        let child = b.hot@[n + k];
        assert(child.parent == step.node);
        assert(b.names()[child.name.0 as int] == kept[k]);
        lemma_linked_rooted(b, (n + k) as u32);
        lemma_linked_rooted(b, step.node);
        law_child_path(b, (n + k) as u32);
        assert(a.path(node as u32) == b.path(node as u32));
    }
    let all = job_counts(after, trees + kids, p);
    assert forall|i: int| 0 <= i < all.len() implies #[trigger] all[i] == (done + kid_counts(kids, path, p, before.arena.sep))[i] by {
        if i < n {
            assert(a.path(i as u32) == b.path(i as u32));
        } else {
            assert(b.path((n + (i - n)) as u32) == join_segment(path, kids[i - n].name, before.arena.sep));
        }
    }
    assert(all =~= done + kid_counts(kids, path, p, before.arena.sep));
    lemma_total_add(done, kid_counts(kids, path, p, before.arena.sep));
    lemma_total_update(job_counts(before, trees, p), node, counts(path, p));
    lemma_tree_count(t, path, p, before.arena.sep);
    lemma_entered_counts(t.dirs, path, p, before.arena.sep);
    assert(a.path(0u32) == b.path(0u32));
}

/// Every directory was read: none was shown with totals of an earlier snapshot.
pub open spec fn all_read(steps: Seq<JobStep>) -> bool {
    forall|i: int| 0 <= i < steps.len() ==> !((#[trigger] steps[i]).outcome is Skipped)
}

proof fn lemma_run_counts(
    t: DirTree,
    states: Seq<SharedState>,
    steps: Seq<JobStep>,
    one_filesystem: bool,
    sizes: spec_fn(FsIdentity) -> nat,
    p: Seq<u8>,
)
    requires
        parallel_run(t, states, steps, one_filesystem, sizes),
        all_read(steps),
    ensures
        node_trees(t, steps).len() == states.last().node_states@.len(),
        total(job_counts(&states.last(), node_trees(t, steps), p)) == tree_count(t, states[0].arena.path(0), p, states[0].arena.sep),
        states.last().arena.path(0) == states[0].arena.path(0),
    decreases steps.len(),
{
    if steps.len() == 0 {
        let w = job_counts(&states[0], seq![t], p);
        let all = tree_count(t, states[0].arena.path(0), p, states[0].arena.sep);
        assert(w =~= Seq::empty().push(all));
        lemma_total_push(Seq::empty(), all);
    } else {
        let n = steps.len() as int;
        let a = states.drop_last();
        let s = steps.drop_last();
        lemma_shorter_run(t, states, steps, one_filesystem, sizes);
        assert forall|i: int| 0 <= i < s.len() implies !((#[trigger] s[i]).outcome is Skipped) by {
            assert(s[i] == steps[i]);
        }
        assert(!(steps[n - 1].outcome is Skipped));
        assert(a.last() == states[n - 1]);
        lemma_run_counts(t, a, s, one_filesystem, sizes, p);
        assert(steps.take(n - 1) =~= s);
        assert(steps[n - 1] == steps.last());
        lemma_job_counts(
            &states[n - 1],
            &states[n],
            steps[n - 1],
            node_trees(t, s),
            job_counted(t, s),
            one_filesystem,
            sizes,
            p,
        );
    }
}

proof fn lemma_parallel_paths(
    t: DirTree,
    states: Seq<SharedState>,
    steps: Seq<JobStep>,
    one_filesystem: bool,
    sizes: spec_fn(FsIdentity) -> nat,
    p: Seq<u8>,
)
    requires
        parallel_run(t, states, steps, one_filesystem, sizes),
        all_read(steps),
        states.last().node_states@[0].pending_subdirs == 0,
    ensures
        paths(&states.last().arena).to_multiset().count(p) == tree_count(t, states[0].arena.path(0), p, states[0].arena.sep),
{
    let end = states.last();
    lemma_run_counts(t, states, steps, one_filesystem, sizes, p);
    if steps.len() > 0 {
        let n = steps.len() as int;
        lemma_shorter_run(t, states, steps, one_filesystem, sizes);
    }
    law_root_total(&end);
    let trees = node_trees(t, steps);
    let all = paths(&end.arena);
    assert forall|i: int| 0 <= i < trees.len() implies #[trigger] job_counts(&end, trees, p)[i] == node_counts(all, p)[i] by {
        assert(!end.queued@[i]);
    }
    assert(job_counts(&end, trees, p) =~= node_counts(all, p));
    lemma_node_counts(all, p);
}

/// The listing of each directory being walked names the directories ahead.
pub open spec fn frames_list(frames: Seq<Frame>, slots: Seq<Seq<Option<DirTree>>>) -> bool {
    &&& slots.len() == frames.len()
    &&& forall|k: int|
        0 <= k < frames.len() ==> lists(frames[k].subdirs@, #[trigger] slots[k]) && frames[k].next <= slots[k].len()
}

/// How many directories at path `p` each directory being walked still hides, when
/// `at` tells the paths of the nodes.
pub open spec fn hidden_counts(
    frames: Seq<Frame>,
    slots: Seq<Seq<Option<DirTree>>>,
    at: spec_fn(u32) -> Seq<u8>,
    p: Seq<u8>,
    sep: u8,
) -> Seq<int> {
    Seq::new(
        frames.len(),
        |k: int| total(slot_counts(slots[k].skip(frames[k].next as int), at(frames[k].node), p, sep)),
    )
}

/// The same nodes at the same places.
pub open spec fn same_places(a: Seq<NodeHot>, b: Seq<NodeHot>) -> bool {
    &&& a.len() == b.len()
    &&& forall|i: int| 0 <= i < a.len() ==> same_place(a[i], #[trigger] b[i])
}

/// No node moves when directories are done with.
proof fn lemma_places_kept(hot: Seq<NodeHot>, frames: Seq<Frame>, node: u32, t: Totals)
    requires
        node < hot.len(),
        forall|k: int| 0 <= k < frames.len() ==> (#[trigger] frames[k]).node < hot.len(),
    ensures
        same_places(handed_up(hot, frames, node, t).hot, hot),
    decreases frames.len(),
{
    if frames.len() > 0 {
        let shown = hot.update(node as int, NodeHot { total_bytes: t.bytes, ..hot[node as int] });
        assert(same_places(shown, hot));
        let above = Frame { sum: plus(frames.last().sum, t), ..frames.last() };
        let below = frames.drop_last();
        assert(frames.last().node < hot.len());
        if above.next >= above.subdirs@.len() {
            let h = shown.update(
                above.node as int,
                NodeHot { file_count: above.files_here, ..shown[above.node as int] },
            );
            assert(same_places(h, hot));
            assert forall|k: int| 0 <= k < below.len() implies (#[trigger] below[k]).node < h.len() by {
                assert(below[k] == frames[k]);
            }
            lemma_places_kept(h, below, above.node, above.sum);
            let w = handed_up(h, below, above.node, above.sum).hot;
            assert forall|i: int| 0 <= i < w.len() implies same_place(w[i], #[trigger] hot[i]) by {
                assert(same_place(w[i], h[i]));
            }
        }
    }
}

/// Directories that are done with hide nothing.
proof fn lemma_handed_up(
    hot: Seq<NodeHot>,
    frames: Seq<Frame>,
    node: u32,
    t: Totals,
    slots: Seq<Seq<Option<DirTree>>>,
    at: spec_fn(u32) -> Seq<u8>,
    p: Seq<u8>,
    sep: u8,
)
    requires
        frames_list(frames, slots),
    ensures
        ({
            let w = handed_up(hot, frames, node, t);
            let rest = slots.take(w.frames.len() as int);
            &&& w.frames.len() <= frames.len()
            &&& frames_list(w.frames, rest)
            &&& total(hidden_counts(w.frames, rest, at, p, sep)) == total(hidden_counts(frames, slots, at, p, sep))
        }),
    decreases frames.len(),
{
    if frames.len() == 0 {
        assert(slots.take(0) =~= slots);
    } else {
        let shown = hot.update(node as int, NodeHot { total_bytes: t.bytes, ..hot[node as int] });
        let above = Frame { sum: plus(frames.last().sum, t), ..frames.last() };
        let below = frames.drop_last();
        let m = below.len() as int;
        if above.next < above.subdirs@.len() {
            let up = below.push(above);
            assert(slots.take(up.len() as int) =~= slots);
            assert(hidden_counts(up, slots, at, p, sep) =~= hidden_counts(frames, slots, at, p, sep));
        } else {
            let less = slots.take(m);
            let h = shown.update(
                above.node as int,
                NodeHot { file_count: above.files_here, ..shown[above.node as int] },
            );
            lemma_handed_up(h, below, above.node, above.sum, less, at, p, sep);
            let w = handed_up(h, below, above.node, above.sum);
            assert(less.take(w.frames.len() as int) =~= slots.take(w.frames.len() as int));
            assert(hidden_counts(frames, slots, at, p, sep).drop_last() =~= hidden_counts(below, less, at, p, sep));
            assert(lists(frames[m].subdirs@, slots[m]));
            assert(slot_counts(slots[m].skip(frames[m].next as int), at(above.node), p, sep) =~= Seq::empty());
        }
    }
}

/// An entry that was looked at hides nothing any more.
proof fn lemma_moved(
    frames: Seq<Frame>,
    slots: Seq<Seq<Option<DirTree>>>,
    moved: Frame,
    at: spec_fn(u32) -> Seq<u8>,
    p: Seq<u8>,
    sep: u8,
)
    requires
        frames.len() > 0,
        frames_list(frames, slots),
        frames.last().next < slots.last().len(),
        moved.next == frames.last().next + 1,
        moved.subdirs == frames.last().subdirs,
        moved.node == frames.last().node,
    ensures
        frames_list(frames.drop_last().push(moved), slots),
        total(hidden_counts(frames.drop_last().push(moved), slots, at, p, sep)) == total(
            hidden_counts(frames, slots, at, p, sep),
        ) - slot_count(slots.last()[frames.last().next as int], at(moved.node), p, sep),
{
    let m = frames.len() - 1;
    let next = frames.last().next as int;
    let path = at(moved.node);
    let one = slot_count(slots[m][next], path, p, sep);
    let rest = slot_counts(slots[m].skip(next + 1), path, p, sep);
    assert(slot_counts(slots[m].skip(next), path, p, sep) =~= seq![one] + rest);
    lemma_total_add(seq![one], rest);
    assert(seq![one] =~= Seq::empty().push(one));
    lemma_total_push(Seq::empty(), one);
    let up = frames.drop_last().push(moved);
    assert forall|k: int| 0 <= k < up.len() implies lists(up[k].subdirs@, #[trigger] slots[k])
        && up[k].next <= slots[k].len() by {}
    let a = hidden_counts(up, slots, at, p, sep);
    let b = hidden_counts(frames, slots, at, p, sep);
    assert(a.drop_last() =~= b.drop_last());
    assert(a.last() == total(rest));
    assert(b.last() == total(slot_counts(slots[m].skip(next), path, p, sep)));
}

/// Passing over a place that leads nowhere hides nothing.
proof fn lemma_passed(
    hot: Seq<NodeHot>,
    frames: Seq<Frame>,
    slots: Seq<Seq<Option<DirTree>>>,
    at: spec_fn(u32) -> Seq<u8>,
    p: Seq<u8>,
    sep: u8,
)
    requires
        frames.len() > 0,
        frames_list(frames, slots),
        frames.last().next < slots.last().len(),
        slots.last()[frames.last().next as int] is None,
    ensures
        ({
            let w = passed_over(hot, frames, 0);
            let rest = slots.take(w.frames.len() as int);
            &&& w.frames.len() <= frames.len()
            &&& frames_list(w.frames, rest)
            &&& total(hidden_counts(w.frames, rest, at, p, sep)) == total(hidden_counts(frames, slots, at, p, sep))
        }),
{
    let top = frames.last();
    let m = frames.len() - 1;
    assert(lists(frames[m].subdirs@, slots[m]));
    assert(top.subdirs.len() == top.subdirs@.len());
    let moved = Frame {
        next: (top.next + 1) as usize,
        sum: Totals { errors: (top.sum.errors + 0) as u32, ..top.sum },
        ..top
    };
    let below = frames.drop_last();
    let up = below.push(moved);
    lemma_moved(frames, slots, moved, at, p, sep);
    if moved.next < moved.subdirs@.len() {
        assert(slots.take(up.len() as int) =~= slots);
    } else {
        let less = slots.take(m);
        let h = hot.update(
            moved.node as int,
            NodeHot { file_count: moved.files_here, ..hot[moved.node as int] },
        );
        lemma_handed_up(h, below, moved.node, moved.sum, less, at, p, sep);
        let w = handed_up(h, below, moved.node, moved.sum);
        assert(less.take(w.frames.len() as int) =~= slots.take(w.frames.len() as int));
        assert(hidden_counts(up, slots, at, p, sep).drop_last() =~= hidden_counts(below, less, at, p, sep));
        assert(slot_counts(slots[m].skip(moved.next as int), at(moved.node), p, sep) =~= Seq::empty());
    }
}

/// How many directories at path `p` lie below the one that is about to be entered.
pub open spec fn entering_count(state: &SerialScan, ahead: Ahead, p: Seq<u8>) -> int {
    match ahead.entering {
        Some(d) => total(slot_counts(d.dirs, state.arena.path(state.entering->0), p, state.arena.sep)),
        None => 0,
    }
}

/// The paths of the nodes of a walk.
pub open spec fn place(state: &SerialScan) -> spec_fn(u32) -> Seq<u8> {
    |node: u32| state.arena.path(node)
}

/// How many directories at path `p` a walk has listed or still has before it.
pub open spec fn walk_count(state: &SerialScan, ahead: Ahead, p: Seq<u8>) -> int {
    total(node_counts(paths(&state.arena), p)) + total(
        hidden_counts(state.frames@, ahead.slots, place(state), p, state.arena.sep),
    ) + entering_count(state, ahead, p)
}

/// What lies ahead is known, and with it every directory at path `p`.
pub open spec fn on_course(state: &SerialScan, ahead: Ahead, t: DirTree, root: Seq<u8>, p: Seq<u8>) -> bool {
    &&& state.wf()
    &&& frames_list(state.frames@, ahead.slots)
    &&& state.entering is Some <==> ahead.entering is Some
    &&& walk_count(state, ahead, p) == tree_count(t, root, p, state.arena.sep)
}

proof fn lemma_same_paths(before: &SerialScan, after: &SerialScan)
    requires
        before.wf(),
        after.wf(),
        before.arena.hot@.len() <= after.arena.hot@.len(),
        same_places(after.arena.hot@.take(before.arena.hot@.len() as int), before.arena.hot@),
        before.arena.names().is_prefix_of(after.arena.names()),
        before.arena.sep == after.arena.sep,
    ensures
        forall|i: u32| i < before.arena.hot@.len() ==> #[trigger] before.arena.path(i) == after.arena.path(i),
{
    let n = before.arena.hot@.len() as int;
    assert forall|i: u32| i < n implies #[trigger] before.arena.path(i) == after.arena.path(i) by {
        assert forall|k: int| 0 <= k < n implies same_place(#[trigger] after.arena.hot@[k], before.arena.hot@[k]) by {
            assert(after.arena.hot@.take(n)[k] == after.arena.hot@[k]);
            assert(same_place(after.arena.hot@.take(n)[k], before.arena.hot@[k]));
        }
        lemma_same_path(&before.arena, &after.arena, i);
    }
}

/// The paths of the directories being walked are what they were.
proof fn lemma_same_hidden(
    before: &SerialScan,
    after: &SerialScan,
    frames: Seq<Frame>,
    slots: Seq<Seq<Option<DirTree>>>,
    p: Seq<u8>,
)
    requires
        forall|i: u32| i < before.arena.hot@.len() ==> #[trigger] before.arena.path(i) == after.arena.path(i),
        forall|k: int| 0 <= k < frames.len() ==> (#[trigger] frames[k]).node < before.arena.hot@.len(),
    ensures
        hidden_counts(frames, slots, place(after), p, before.arena.sep) == hidden_counts(frames, slots, place(before), p, before.arena.sep),
{
    assert forall|k: int| 0 <= k < frames.len() implies #[trigger] hidden_counts(
        frames,
        slots,
        place(after),
        p,
        before.arena.sep,
    )[k] == hidden_counts(frames, slots, place(before), p, before.arena.sep)[k] by {
        let node = frames[k].node;
        assert(before.arena.path(node) == after.arena.path(node));
    }
    assert(hidden_counts(frames, slots, place(after), p, before.arena.sep) =~= hidden_counts(frames, slots, place(before), p, before.arena.sep));
}

proof fn lemma_paths_kept(before: &SerialScan, after: &SerialScan)
    requires
        before.wf(),
        before.arena.hot@.len() == after.arena.hot@.len(),
        forall|i: u32| i < before.arena.hot@.len() ==> #[trigger] before.arena.path(i) == after.arena.path(i),
    ensures
        paths(&after.arena) == paths(&before.arena),
{
    assert forall|i: int| 0 <= i < before.arena.hot@.len() implies paths(&after.arena)[i] == #[trigger] paths(
        &before.arena,
    )[i] by {
        assert(before.arena.path(i as u32) == after.arena.path(i as u32));
    }
    assert(paths(&after.arena) =~= paths(&before.arena));
}

proof fn lemma_enter_counts(
    before: &SerialScan,
    after: &SerialScan,
    outcome: EnterOutcome,
    ahead: Ahead,
    counted: Set<FsIdentity>,
    sizes: spec_fn(FsIdentity) -> nat,
    t: DirTree,
    root: Seq<u8>,
    p: Seq<u8>,
)
    requires
        walk_step(before, after, WalkStep::Enter(outcome), ahead, counted, sizes),
        !(outcome is Skipped),
        on_course(before, ahead, t, root, p),
    ensures
        on_course(after, ahead_after(before, after, WalkStep::Enter(outcome), ahead), t, root, p),
{
    let hot = before.arena.hot@;
    let frames = before.frames@;
    let node = before.entering->0;
    let d = ahead.entering->0;
    let slots = ahead.slots;
    let at = place(before);
    let next = ahead_after(before, after, WalkStep::Enter(outcome), ahead);
    let same = hot[node as int];
    let sum = enter_totals(outcome);
    match outcome {
        EnterOutcome::Listed { listing, .. } => {
            let f = new_frame(node, same.depth, listing);
            if listing.subdirs@.len() > 0 {
                let more = frames.push(f);
                let wide = slots.push(d.dirs);
                assert(hidden_counts(more, wide, at, p, before.arena.sep).drop_last() =~= hidden_counts(frames, slots, at, p, before.arena.sep));
                assert(d.dirs.skip(0) =~= d.dirs);
                assert(frames_list(more, wide));
            } else {
                let h = hot.update(node as int, NodeHot { file_count: f.files_here, ..same });
                lemma_handed_up(h, frames, node, sum, slots, at, p, before.arena.sep);
                lemma_places_kept(h, frames, node, sum);
                assert forall|i: int| 0 <= i < hot.len() implies same_place(after.arena.hot@[i], #[trigger] hot[i]) by {
                    assert(same_place(after.arena.hot@[i], h[i]));
                }
                assert(slot_counts(d.dirs, at(node), p, before.arena.sep) =~= Seq::empty());
            }
        },
        _ => {
            lemma_handed_up(hot, frames, node, sum, slots, at, p, before.arena.sep);
            lemma_places_kept(hot, frames, node, sum);
            assert(slot_counts(d.dirs, at(node), p, before.arena.sep) =~= Seq::empty());
        },
    }
    assert(same_places(after.arena.hot@, hot));
    assert(after.arena.hot@.take(hot.len() as int) =~= after.arena.hot@);
    lemma_same_paths(before, after);
    lemma_paths_kept(before, after);
    lemma_same_hidden(before, after, after.frames@, next.slots, p);
}

/// A new node lies at the path of its parent and its name, and no other node moves.
proof fn lemma_new_node(a: &PathlessArena, b: &PathlessArena, node: u32, name: Seq<u8>)
    requires
        a.linked(),
        b.linked(),
        node < a.hot@.len(),
        a.hot@.len() < u32::MAX,
        b.hot@.len() == a.hot@.len() + 1,
        b.hot@.take(a.hot@.len() as int) == a.hot@,
        b.hot@.last().parent == node,
        b.names()[b.hot@.last().name.0 as int] == name,
        a.names().is_prefix_of(b.names()),
        a.sep == b.sep,
    ensures
        forall|i: u32| i < a.hot@.len() ==> #[trigger] a.path(i) == b.path(i),
        b.path(a.hot@.len() as u32) == join_segment(a.path(node), name, a.sep),
        paths(b) == paths(a).push(b.path(a.hot@.len() as u32)),
{
    let n = a.hot@.len() as int;
    assert forall|i: u32| i < n implies #[trigger] a.path(i) == b.path(i) by {
        assert forall|k: int| 0 <= k < n implies same_place(#[trigger] b.hot@[k], a.hot@[k]) by {
            assert(b.hot@.take(n)[k] == b.hot@[k]);
        }
        lemma_same_path(a, b, i);
    }
    lemma_linked_rooted(b, n as u32);
    lemma_linked_rooted(b, node);
    law_child_path(b, n as u32);
    assert(a.path(node) == b.path(node));
    assert forall|i: int| 0 <= i < n implies paths(b)[i] == #[trigger] paths(a)[i] by {
        assert(a.path(i as u32) == b.path(i as u32));
    }
    assert(paths(b) =~= paths(a).push(b.path(n as u32)));
}

/// One more path is found once.
proof fn lemma_one_more(known: Seq<Seq<u8>>, path: Seq<u8>, p: Seq<u8>)
    ensures
        total(node_counts(known.push(path), p)) == total(node_counts(known, p)) + counts(path, p),
{
    assert(node_counts(known.push(path), p) =~= node_counts(known, p).push(counts(path, p)));
    lemma_total_push(node_counts(known, p), counts(path, p));
}

/// A directory that was opened stands for itself and for what lies below it.
proof fn lemma_opened_counts(
    before: &SerialScan,
    after: &SerialScan,
    ahead: Ahead,
    counted: Set<FsIdentity>,
    sizes: spec_fn(FsIdentity) -> nat,
    t: DirTree,
    root: Seq<u8>,
    p: Seq<u8>,
)
    requires
        walk_step(before, after, WalkStep::Probe(ProbeOutcome::Opened), ahead, counted, sizes),
        on_course(before, ahead, t, root, p),
    ensures
        on_course(
            after,
            ahead_after(before, after, WalkStep::Probe(ProbeOutcome::Opened), ahead),
            t,
            root,
            p,
        ),
{
    let frames = before.frames@;
    let n = before.arena.hot@.len() as int;
    let m = frames.len() - 1;
    let top = frames.last();
    let slots = ahead.slots;
    assert(lists(frames[m].subdirs@, slots[m]));
    assert(top.subdirs.len() == top.subdirs@.len());
    let on = Frame { next: (top.next + 1) as usize, ..top };
    lemma_moved(frames, slots, on, place(before), p, before.arena.sep);
    assert(frames[m].node < n);
    lemma_new_node(&before.arena, &after.arena, top.node, top.subdirs@[top.next as int].name@);
    assert(slots[m][top.next as int] is Some);
    let d = next_slot(before, ahead)->0;
    let path = after.arena.path(after.entering->0);
    lemma_one_more(paths(&before.arena), path, p);
    lemma_tree_count(d, path, p, before.arena.sep);
    assert forall|k: int| 0 <= k < after.frames@.len() implies (#[trigger] after.frames@[k]).node < n by {
        assert(after.frames@[k].node == frames[k].node);
    }
    lemma_same_hidden(before, after, after.frames@, slots, p);
}

/// No node moves when a directory is passed over.
proof fn lemma_passed_places(hot: Seq<NodeHot>, frames: Seq<Frame>)
    requires
        frames.len() > 0,
        forall|k: int| 0 <= k < frames.len() ==> (#[trigger] frames[k]).node < hot.len(),
    ensures
        same_places(passed_over(hot, frames, 0).hot, hot),
{
    let top = frames.last();
    let moved = Frame {
        next: (top.next + 1) as usize,
        sum: Totals { errors: (top.sum.errors + 0) as u32, ..top.sum },
        ..top
    };
    let below = frames.drop_last();
    assert(frames[frames.len() - 1].node < hot.len());
    if moved.next >= moved.subdirs@.len() {
        let h = hot.update(
            moved.node as int,
            NodeHot { file_count: moved.files_here, ..hot[moved.node as int] },
        );
        assert(same_places(h, hot));
        assert forall|k: int| 0 <= k < below.len() implies (#[trigger] below[k]).node < h.len() by {
            assert(below[k] == frames[k]);
        }
        lemma_places_kept(h, below, moved.node, moved.sum);
        let w = handed_up(h, below, moved.node, moved.sum).hot;
        assert forall|i: int| 0 <= i < w.len() implies same_place(w[i], #[trigger] hot[i]) by {
            assert(same_place(w[i], h[i]));
        }
    }
}

proof fn lemma_passed_counts(
    before: &SerialScan,
    after: &SerialScan,
    ahead: Ahead,
    counted: Set<FsIdentity>,
    sizes: spec_fn(FsIdentity) -> nat,
    t: DirTree,
    root: Seq<u8>,
    p: Seq<u8>,
)
    requires
        walk_step(before, after, WalkStep::Probe(ProbeOutcome::OtherDevice), ahead, counted, sizes),
        on_course(before, ahead, t, root, p),
    ensures
        on_course(
            after,
            ahead_after(before, after, WalkStep::Probe(ProbeOutcome::OtherDevice), ahead),
            t,
            root,
            p,
        ),
{
    let hot = before.arena.hot@;
    let frames = before.frames@;
    let n = hot.len() as int;
    let m = frames.len() - 1;
    let slots = ahead.slots;
    let next = ahead_after(before, after, WalkStep::Probe(ProbeOutcome::OtherDevice), ahead);
    assert(lists(frames[m].subdirs@, slots[m]));
    lemma_passed(hot, frames, slots, place(before), p, before.arena.sep);
    lemma_passed_places(hot, frames);
    assert(after.arena.hot@.take(n) =~= after.arena.hot@);
    lemma_same_paths(before, after);
    lemma_paths_kept(before, after);
    lemma_same_hidden(before, after, after.frames@, next.slots, p);
}

/// Every directory was opened and read: none was shown with totals of an earlier
/// snapshot, and none could not be opened.
pub open spec fn all_opened(steps: Seq<WalkStep>) -> bool {
    forall|i: int|
        0 <= i < steps.len() ==> match #[trigger] steps[i] {
            WalkStep::Enter(outcome) => !(outcome is Skipped),
            WalkStep::Probe(outcome) => !(outcome is Unopenable),
        }
}

proof fn lemma_walk_counts(
    t: DirTree,
    states: Seq<SerialScan>,
    steps: Seq<WalkStep>,
    sizes: spec_fn(FsIdentity) -> nat,
    n: int,
    p: Seq<u8>,
)
    requires
        serial_run(t, states, steps, sizes),
        states[0].arena.hot@.len() == 1,
        all_opened(steps),
        0 <= n <= steps.len(),
    ensures
        on_course(&states[n], walk_ahead(t, states, steps.take(n)), t, states[0].arena.path(0), p),
        states[n].arena.sep == states[0].arena.sep,
    decreases n,
{
    let root = states[0].arena.path(0);
    if n == 0 {
        let none = Seq::<Seq<Option<DirTree>>>::empty();
        let first = states[0];
        assert(hidden_counts(first.frames@, none, place(&first), p, states[0].arena.sep) =~= Seq::empty());
        assert(node_counts(paths(&first.arena), p) =~= Seq::empty().push(counts(root, p)));
        lemma_total_push(Seq::empty(), counts(root, p));
        lemma_tree_count(t, root, p, states[0].arena.sep);
    } else {
        lemma_walk_counts(t, states, steps, sizes, n - 1, p);
        assert(steps.take(n).drop_last() =~= steps.take(n - 1));
        assert(steps.take(n)[n - 1] == steps[n - 1]);
        let ahead = walk_ahead(t, states, steps.take(n - 1));
        let counted = walk_counted(t, states, steps.take(n - 1));
        match steps[n - 1] {
            WalkStep::Enter(outcome) => {
                lemma_enter_counts(&states[n - 1], &states[n], outcome, ahead, counted, sizes, t, root, p);
            },
            WalkStep::Probe(outcome) => {
                if outcome is Opened {
                    lemma_opened_counts(&states[n - 1], &states[n], ahead, counted, sizes, t, root, p);
                } else {
                    lemma_passed_counts(&states[n - 1], &states[n], ahead, counted, sizes, t, root, p);
                }
            },
        }
    }
}

proof fn lemma_serial_paths(
    t: DirTree,
    states: Seq<SerialScan>,
    steps: Seq<WalkStep>,
    sizes: spec_fn(FsIdentity) -> nat,
    p: Seq<u8>,
)
    requires
        serial_run(t, states, steps, sizes),
        states[0].arena.hot@.len() == 1,
        all_opened(steps),
        states.last().result is Some,
    ensures
        paths(&states.last().arena).to_multiset().count(p) == tree_count(t, states[0].arena.path(0), p, states[0].arena.sep),
{
    let n = steps.len() as int;
    lemma_walk_counts(t, states, steps, sizes, n, p);
    let end = states.last();
    let ahead = walk_ahead(t, states, steps.take(n));
    assert(hidden_counts(end.frames@, ahead.slots, place(&end), p, states[0].arena.sep) =~= Seq::empty());
    lemma_node_counts(paths(&end.arena), p);
}

/// A serial and a parallel scan that start at the same path and read every directory
/// of the same tree list the same directories, each as often as the other does.
pub proof fn law_scans_list_same(
    t: DirTree,
    walk: Seq<SerialScan>,
    walk_steps: Seq<WalkStep>,
    states: Seq<SharedState>,
    steps: Seq<JobStep>,
    one_filesystem: bool,
    sizes: spec_fn(FsIdentity) -> nat,
)
    requires
        serial_run(t, walk, walk_steps, sizes),
        walk.last().result is Some,
        all_opened(walk_steps),
        parallel_run(t, states, steps, one_filesystem, sizes),
        states.last().node_states@[0].pending_subdirs == 0,
        all_read(steps),
        walk[0].arena.hot@.len() == 1,
        walk[0].arena.path(0) == states[0].arena.path(0),
        walk[0].arena.sep == states[0].arena.sep,
    ensures
        walk.last().arena.hot@.len() == states.last().arena.hot@.len(),
        paths(&walk.last().arena).to_multiset() == paths(&states.last().arena).to_multiset(),
{
    let a = paths(&walk.last().arena);
    let b = paths(&states.last().arena);
    assert forall|p: Seq<u8>| #[trigger] a.to_multiset().count(p) == b.to_multiset().count(p) by {
        lemma_serial_paths(t, walk, walk_steps, sizes, p);
        lemma_parallel_paths(t, states, steps, one_filesystem, sizes, p);
    }
    assert(a.to_multiset() =~= b.to_multiset());
    a.to_multiset_ensures();
    b.to_multiset_ensures();
}

} // verus!
