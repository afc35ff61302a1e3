//! The shared state of a parallel scan: what each finished directory job does to it.

use crate::arena::{
    blank_cold, lemma_names_grow, new_bytes, with_names, NO_PARENT, NodeCold, NodeHot,
    PathlessArena,
};
use crate::identity::{FsIdentity, VisitedSet};
use crate::scan::{
    entry_bytes, entry_dirs, entry_errors, entry_files, file_ids, is_listing, is_same_filesystem, listed_dirs,
    read_dir_entries, same_filesystem, DirListing, DirMeta, RawEntry, ScanResult, SubDir,
};
use crate::sums::{
    lemma_total_bounds, lemma_total_nonneg, lemma_total_push, lemma_total_update,
    lemma_total_zero, total,
};
use crate::warm::SkipResult;
use vstd::prelude::*;

verus! {

/// A directory that waits to be read.
pub struct DirJob {
    pub path: Vec<u8>,
    pub node_idx: u32,
    pub depth: u16,
}

/// The running totals of a directory.
#[derive(Clone, Copy)]
pub struct NodeState {
    pub parent: u32,
    /// Jobs that must end before this directory is complete: its own and one for
    /// each directory inside it that is not complete.
    pub pending_subdirs: u32,
    pub accumulated_bytes: u64,
    pub accumulated_files: u64,
    /// The files directly inside.
    pub files_here: u32,
    pub mtime: i64,
    pub identity: FsIdentity,
}

/// What the workers of a parallel scan share.
pub struct SharedState {
    pub arena: PathlessArena,
    pub node_states: Vec<NodeState>,
    pub error_count: u32,
    pub root_device: u64,
    /// The files that were counted.
    pub visited: VisitedSet,
    /// Which directories still wait to be read.
    pub queued: Ghost<Seq<bool>>,
    /// The bytes found in each directory itself.
    pub own_bytes: Ghost<Seq<int>>,
    /// The files found in each directory itself.
    pub own_files: Ghost<Seq<int>>,
}

/// Directory `c` lies directly inside directory `p`.
pub open spec fn is_child(states: Seq<NodeState>, p: int, c: int) -> bool {
    0 < c && states[c].parent == p
}

/// One for each incomplete directory directly inside `p`.
pub open spec fn open_children(states: Seq<NodeState>, p: int) -> Seq<int> {
    Seq::new(
        states.len(),
        |c: int| if is_child(states, p, c) && states[c].pending_subdirs > 0 { 1 } else { 0 },
    )
}

/// The bytes of each complete directory directly inside `p`.
pub open spec fn child_bytes(states: Seq<NodeState>, p: int) -> Seq<int> {
    Seq::new(
        states.len(),
        |c: int|
            if is_child(states, p, c) && states[c].pending_subdirs == 0 {
                states[c].accumulated_bytes as int
            } else {
                0
            },
    )
}

/// The files of each complete directory directly inside `p`.
pub open spec fn child_files(states: Seq<NodeState>, p: int) -> Seq<int> {
    Seq::new(
        states.len(),
        |c: int|
            if is_child(states, p, c) && states[c].pending_subdirs == 0 {
                states[c].accumulated_files as int
            } else {
                0
            },
    )
}

/// The bytes that were not yet handed on to a parent.
pub open spec fn loose_bytes(states: Seq<NodeState>) -> Seq<int> {
    Seq::new(
        states.len(),
        |i: int|
            if i == 0 || states[i].pending_subdirs > 0 {
                states[i].accumulated_bytes as int
            } else {
                0
            },
    )
}

/// The files that were not yet handed on to a parent.
pub open spec fn loose_files(states: Seq<NodeState>) -> Seq<int> {
    Seq::new(
        states.len(),
        |i: int|
            if i == 0 || states[i].pending_subdirs > 0 {
                states[i].accumulated_files as int
            } else {
                0
            },
    )
}

/// The directories of the arena form a tree below node 0.
pub open spec fn tree_wf(arena: &PathlessArena, states: Seq<NodeState>) -> bool {
    &&& arena.wf()
    &&& arena.linked()
    &&& states.len() > 0
    &&& states.len() == arena.hot@.len()
    &&& states.len() < u32::MAX
    &&& states[0].parent == NO_PARENT
    &&& arena.hot@[0].depth == 0
    &&& forall|i: int| 0 <= i < states.len() ==> (#[trigger] states[i]).parent == arena.hot@[i].parent
    &&& forall|i: int|
        0 < i < states.len() ==> {
            &&& (#[trigger] states[i]).parent < i
            &&& arena.hot@[i].depth == arena.hot@[states[i].parent as int].depth + 1
        }
}

/// The counters and totals agree; directory `at` still owes `debt` to its counter.
pub open spec fn counts_wf(
    states: Seq<NodeState>,
    queued: Seq<bool>,
    own_bytes: Seq<int>,
    own_files: Seq<int>,
    at: int,
    debt: int,
) -> bool {
    &&& queued.len() == states.len()
    &&& own_bytes.len() == states.len()
    &&& own_files.len() == states.len()
    &&& forall|i: int|
        0 <= i < states.len() ==> (#[trigger] states[i]).pending_subdirs == (if queued[i] {
            1int
        } else {
            0
        }) + total(open_children(states, i)) + (if i == at {
            debt
        } else {
            0
        })
    &&& forall|i: int|
        0 <= i < states.len() ==> (#[trigger] states[i]).accumulated_bytes == own_bytes[i] + total(
            child_bytes(states, i),
        )
    &&& forall|i: int|
        0 <= i < states.len() ==> (#[trigger] states[i]).accumulated_files == own_files[i] + total(
            child_files(states, i),
        )
    &&& forall|i: int, c: int|
        0 <= i < states.len() && 0 <= c < states.len() && #[trigger] queued[i]
            ==> !#[trigger] is_child(states, i, c)
    &&& forall|i: int|
        0 <= i < states.len() && #[trigger] queued[i] ==> own_bytes[i] == 0 && own_files[i] == 0
    &&& forall|i: int| 0 <= i < states.len() ==> #[trigger] own_bytes[i] >= 0
    &&& forall|i: int| 0 <= i < states.len() ==> #[trigger] own_files[i] >= 0
    &&& forall|i: int| 0 <= i < states.len() ==> own_files[i] == (#[trigger] states[i]).files_here
    &&& total(loose_bytes(states)) == total(own_bytes)
    &&& total(loose_files(states)) == total(own_files)
    &&& total(own_bytes) <= u64::MAX
    &&& total(own_files) <= u64::MAX
}

/// The arena shows the bytes below every complete directory and the files directly
/// inside it.
pub open spec fn shown_wf(arena: &PathlessArena, states: Seq<NodeState>) -> bool {
    forall|i: int|
        0 <= i < states.len() && (#[trigger] states[i]).pending_subdirs == 0 ==> {
            &&& arena.hot@[i].total_bytes == states[i].accumulated_bytes
            &&& arena.hot@[i].file_count == states[i].files_here
            &&& arena.cold@[i].mtime == states[i].mtime
            &&& arena.cold@[i].identity == states[i].identity
        }
}

/// The same directory apart from its counter and totals.
pub open spec fn same_dir(a: NodeState, b: NodeState) -> bool {
    a.parent == b.parent && a.mtime == b.mtime && a.identity == b.identity && a.files_here == b.files_here
}

/// The same node apart from its totals.
pub open spec fn same_place(a: NodeHot, b: NodeHot) -> bool {
    a.parent == b.parent && a.name == b.name && a.depth == b.depth
}

impl SharedState {
    pub open spec fn wf_with(&self, at: int, debt: int) -> bool {
        &&& tree_wf(&self.arena, self.node_states@)
        &&& counts_wf(self.node_states@, self.queued@, self.own_bytes@, self.own_files@, at, debt)
        &&& shown_wf(&self.arena, self.node_states@)
        &&& self.visited.wf()
    }

    /// A directory is complete if it and all directories inside it were read; its
    /// totals are then in the arena.
    pub open spec fn wf(&self) -> bool {
        self.wf_with(0, 0)
    }
}

proof fn lemma_open_nonneg(states: Seq<NodeState>, p: int)
    ensures
        total(open_children(states, p)) >= 0,
{
    lemma_total_nonneg(open_children(states, p));
}

/// What changes in the sums when directory `i` gets state `new` under the same parent.
proof fn lemma_replace(states: Seq<NodeState>, i: int, new: NodeState, p: int)
    requires
        0 <= i < states.len(),
        new.parent == states[i].parent,
    ensures
        total(open_children(states.update(i, new), p)) == total(open_children(states, p)) + (if is_child(states, p, i) {
            (if new.pending_subdirs > 0 { 1int } else { 0 }) - (if states[i].pending_subdirs > 0 { 1int } else { 0 })
        } else {
            0
        }),
        total(child_bytes(states.update(i, new), p)) == total(child_bytes(states, p)) + (if is_child(states, p, i) {
            (if new.pending_subdirs == 0 { new.accumulated_bytes as int } else { 0 })
            - (if states[i].pending_subdirs == 0 { states[i].accumulated_bytes as int } else { 0 })
        } else {
            0
        }),
        total(child_files(states.update(i, new), p)) == total(child_files(states, p)) + (if is_child(states, p, i) {
            (if new.pending_subdirs == 0 { new.accumulated_files as int } else { 0 })
            - (if states[i].pending_subdirs == 0 { states[i].accumulated_files as int } else { 0 })
        } else {
            0
        }),
        total(loose_bytes(states.update(i, new))) == total(loose_bytes(states))
            + (if i == 0 || new.pending_subdirs > 0 { new.accumulated_bytes as int } else { 0 })
            - (if i == 0 || states[i].pending_subdirs > 0 { states[i].accumulated_bytes as int } else { 0 }),
        total(loose_files(states.update(i, new))) == total(loose_files(states))
            + (if i == 0 || new.pending_subdirs > 0 { new.accumulated_files as int } else { 0 })
            - (if i == 0 || states[i].pending_subdirs > 0 { states[i].accumulated_files as int } else { 0 }),
{
    let after = states.update(i, new);
    let s = open_children(states, p);
    lemma_total_update(s, i, open_children(after, p)[i]);
    assert(open_children(after, p) =~= s.update(i, open_children(after, p)[i]));
    let s = child_bytes(states, p);
    lemma_total_update(s, i, child_bytes(after, p)[i]);
    assert(child_bytes(after, p) =~= s.update(i, child_bytes(after, p)[i]));
    let s = child_files(states, p);
    lemma_total_update(s, i, child_files(after, p)[i]);
    assert(child_files(after, p) =~= s.update(i, child_files(after, p)[i]));
    let s = loose_bytes(states);
    lemma_total_update(s, i, loose_bytes(after)[i]);
    assert(loose_bytes(after) =~= s.update(i, loose_bytes(after)[i]));
    let s = loose_files(states);
    lemma_total_update(s, i, loose_files(after)[i]);
    assert(loose_files(after) =~= s.update(i, loose_files(after)[i]));
}

/// Directory `curr` has one job less to wait for and is not complete by it.
proof fn lemma_one_less(
    states: Seq<NodeState>,
    queued: Seq<bool>,
    own_bytes: Seq<int>,
    own_files: Seq<int>,
    curr: int,
    new: NodeState,
)
    requires
        0 <= curr < states.len(),
        counts_wf(states, queued, own_bytes, own_files, curr, 1),
        states[curr].pending_subdirs > 1,
        new == (NodeState {
            pending_subdirs: (states[curr].pending_subdirs - 1) as u32,
            ..states[curr]
        }),
    ensures
        counts_wf(states.update(curr, new), queued, own_bytes, own_files, 0, 0),
{
    let after = states.update(curr, new);
    assert forall|p: int| 0 <= p < states.len() implies total(#[trigger] open_children(after, p)) == total(open_children(states, p))
        && total(child_bytes(after, p)) == total(child_bytes(states, p))
        && total(child_files(after, p)) == total(child_files(states, p)) by {
        lemma_replace(states, curr, new, p);
    }
    lemma_replace(states, curr, new, 0);
    assert forall|i: int, c: int| 0 <= i < after.len() && 0 <= c < after.len() && #[trigger] queued[i] implies !#[trigger] is_child(after, i, c) by {
        assert(is_child(after, i, c) == is_child(states, i, c));
    }
    assert forall|i: int| 0 <= i < after.len() implies (#[trigger] after[i]).pending_subdirs == (if queued[i] { 1int } else { 0 })
        + total(open_children(after, i)) by {
        assert(states[i].pending_subdirs == (if queued[i] { 1int } else { 0 }) + total(open_children(states, i)) + (if i == curr { 1int } else { 0 }));
    }
    assert forall|i: int| 0 <= i < after.len() implies (#[trigger] after[i]).accumulated_bytes == own_bytes[i] + total(child_bytes(after, i)) by {
        assert(states[i].accumulated_bytes == own_bytes[i] + total(child_bytes(states, i)));
        assert(total(open_children(after, i)) == total(open_children(states, i)));
    }
    assert forall|i: int| 0 <= i < after.len() implies (#[trigger] after[i]).accumulated_files == own_files[i] + total(child_files(after, i)) by {
        assert(states[i].accumulated_files == own_files[i] + total(child_files(states, i)));
        assert(total(open_children(after, i)) == total(open_children(states, i)));
    }
}

/// Directory `curr` is complete: its totals go to its parent, which then has one
/// job less to wait for.
proof fn lemma_complete(
    states: Seq<NodeState>,
    queued: Seq<bool>,
    own_bytes: Seq<int>,
    own_files: Seq<int>,
    curr: int,
    done: NodeState,
    up: int,
    parent: NodeState,
)
    requires
        0 <= up < curr < states.len(),
        counts_wf(states, queued, own_bytes, own_files, curr, 1),
        states[curr].pending_subdirs == 1,
        states[curr].parent == up,
        done == (NodeState { pending_subdirs: 0, ..states[curr] }),
        states[up].accumulated_bytes + states[curr].accumulated_bytes <= u64::MAX ==> parent == (NodeState {
            accumulated_bytes: (states[up].accumulated_bytes + states[curr].accumulated_bytes) as u64,
            accumulated_files: (states[up].accumulated_files + states[curr].accumulated_files) as u64,
            ..states[up]
        }),
    ensures
        states[up].accumulated_bytes + states[curr].accumulated_bytes <= u64::MAX,
        states[up].accumulated_files + states[curr].accumulated_files <= u64::MAX,
        states[up].pending_subdirs > 0,
        counts_wf(states.update(curr, done).update(up, parent), queued, own_bytes, own_files, up, 1),
{
    let lb = loose_bytes(states);
    let lf = loose_files(states);
    // the parent waits at least for this directory
    lemma_total_bounds(open_children(states, up), curr, curr);
    assert(is_child(states, up, curr));
    assert(open_children(states, up)[curr] == 1);
    assert(states[up].pending_subdirs > 0);
    lemma_total_bounds(lb, up, curr);
    lemma_total_bounds(lf, up, curr);
    assert(lb[up] == states[up].accumulated_bytes && lb[curr] == states[curr].accumulated_bytes);
    assert(lf[up] == states[up].accumulated_files && lf[curr] == states[curr].accumulated_files);
    let mid = states.update(curr, done);
    let after = mid.update(up, parent);
    assert forall|p: int| 0 <= p < states.len() implies
        total(#[trigger] open_children(after, p)) == total(open_children(states, p)) - (if p == up { 1int } else { 0 })
        && total(child_bytes(after, p)) == total(child_bytes(states, p)) + (if p == up { states[curr].accumulated_bytes as int } else { 0 })
        && total(child_files(after, p)) == total(child_files(states, p)) + (if p == up { states[curr].accumulated_files as int } else { 0 }) by {
        lemma_replace(states, curr, done, p);
        lemma_replace(mid, up, parent, p);
        assert(is_child(mid, p, up) == is_child(states, p, up));
    }
    lemma_replace(states, curr, done, 0);
    lemma_replace(mid, up, parent, 0);
    assert forall|i: int, c: int| 0 <= i < after.len() && 0 <= c < after.len() && #[trigger] queued[i] implies !#[trigger] is_child(after, i, c) by {
        assert(is_child(after, i, c) == is_child(states, i, c));
    }
    assert forall|i: int| 0 <= i < after.len() implies (#[trigger] after[i]).pending_subdirs == (if queued[i] { 1int } else { 0 })
        + total(open_children(after, i)) + (if i == up { 1int } else { 0 }) by {
        assert(states[i].pending_subdirs == (if queued[i] { 1int } else { 0 }) + total(open_children(states, i)) + (if i == curr { 1int } else { 0 }));
    }
    assert forall|i: int| 0 <= i < after.len() implies (#[trigger] after[i]).accumulated_bytes == own_bytes[i] + total(child_bytes(after, i)) by {
        assert(states[i].accumulated_bytes == own_bytes[i] + total(child_bytes(states, i)));
        assert(total(open_children(after, i)) == total(open_children(states, i)) - (if i == up { 1int } else { 0 }));
    }
    assert forall|i: int| 0 <= i < after.len() implies (#[trigger] after[i]).accumulated_files == own_files[i] + total(child_files(after, i)) by {
        assert(states[i].accumulated_files == own_files[i] + total(child_files(states, i)));
        assert(total(open_children(after, i)) == total(open_children(states, i)) - (if i == up { 1int } else { 0 }));
    }
}

/// The root is complete: there is no parent to tell.
proof fn lemma_root_complete(
    states: Seq<NodeState>,
    queued: Seq<bool>,
    own_bytes: Seq<int>,
    own_files: Seq<int>,
    done: NodeState,
)
    requires
        0 < states.len() < u32::MAX,
        states[0].parent == NO_PARENT,
        counts_wf(states, queued, own_bytes, own_files, 0, 1),
        states[0].pending_subdirs == 1,
        done == (NodeState { pending_subdirs: 0, ..states[0] }),
    ensures
        counts_wf(states.update(0, done), queued, own_bytes, own_files, 0, 0),
{
    let after = states.update(0, done);
    assert forall|p: int| 0 <= p < states.len() implies total(#[trigger] open_children(after, p)) == total(open_children(states, p))
        && total(child_bytes(after, p)) == total(child_bytes(states, p))
        && total(child_files(after, p)) == total(child_files(states, p)) by {
        lemma_replace(states, 0, done, p);
    }
    lemma_replace(states, 0, done, 0);
    assert forall|i: int, c: int| 0 <= i < after.len() && 0 <= c < after.len() && #[trigger] queued[i] implies !#[trigger] is_child(after, i, c) by {
        assert(is_child(after, i, c) == is_child(states, i, c));
    }
    assert forall|i: int| 0 <= i < after.len() implies (#[trigger] after[i]).pending_subdirs == (if queued[i] { 1int } else { 0 })
        + total(open_children(after, i)) by {
        assert(states[i].pending_subdirs == (if queued[i] { 1int } else { 0 }) + total(open_children(states, i)) + (if i == 0 { 1int } else { 0 }));
    }
    assert forall|i: int| 0 <= i < after.len() implies (#[trigger] after[i]).accumulated_bytes == own_bytes[i] + total(child_bytes(after, i)) by {
        assert(states[i].accumulated_bytes == own_bytes[i] + total(child_bytes(states, i)));
        assert(total(open_children(after, i)) == total(open_children(states, i)));
    }
    assert forall|i: int| 0 <= i < after.len() implies (#[trigger] after[i]).accumulated_files == own_files[i] + total(child_files(after, i)) by {
        assert(states[i].accumulated_files == own_files[i] + total(child_files(states, i)));
        assert(total(open_children(after, i)) == total(open_children(states, i)));
    }
}

impl SharedState {
    /// One job that directory `node_idx` waited for has ended. If that was the last
    /// one, its totals are entered in the arena and handed on to its parent, which in
    /// turn has one job less to wait for.
    pub fn decrement_pending(&mut self, node_idx: u32)
        requires
            node_idx < old(self).node_states@.len(),
            old(self).wf_with(node_idx as int, 1),
        ensures
            final(self).wf(),
            final(self).queued == old(self).queued,
            final(self).own_bytes == old(self).own_bytes,
            final(self).own_files == old(self).own_files,
            final(self).error_count == old(self).error_count,
            final(self).root_device == old(self).root_device,
            final(self).visited == old(self).visited,
            final(self).arena.names() == old(self).arena.names(),
            final(self).arena.byte_pool == old(self).arena.byte_pool,
            final(self).arena.sep == old(self).arena.sep,
            final(self).node_states@.len() == old(self).node_states@.len(),
            forall|i: int|
                0 <= i < old(self).node_states@.len() ==> same_dir(
                    #[trigger] final(self).node_states@[i],
                    old(self).node_states@[i],
                ) && same_place(final(self).arena.hot@[i], old(self).arena.hot@[i]),
            forall|i: int|
                0 <= i < old(self).node_states@.len() && (#[trigger] final(self).node_states@[i]).pending_subdirs
                    > 0 ==> final(self).arena.hot@[i] == old(self).arena.hot@[i]
                    && final(self).arena.cold@[i] == old(self).arena.cold@[i],
    {
        let ghost start = *self;
        let mut curr_idx: u32 = node_idx;
        loop
            invariant
                start == *old(self),
                curr_idx < self.node_states@.len(),
                self.wf_with(curr_idx as int, 1),
                self.queued == start.queued,
                self.own_bytes == start.own_bytes,
                self.own_files == start.own_files,
                self.error_count == start.error_count,
                self.root_device == start.root_device,
                self.visited == start.visited,
                self.arena.names() == start.arena.names(),
                self.arena.byte_pool == start.arena.byte_pool,
                self.arena.sep == start.arena.sep,
                self.node_states@.len() == start.node_states@.len(),
                forall|i: int|
                    0 <= i < start.node_states@.len() ==> same_dir(
                        #[trigger] self.node_states@[i],
                        start.node_states@[i],
                    ) && same_place(self.arena.hot@[i], start.arena.hot@[i]),
                forall|i: int|
                    0 <= i < start.node_states@.len() && (#[trigger] self.node_states@[i]).pending_subdirs
                        > 0 ==> self.arena.hot@[i] == start.arena.hot@[i] && self.arena.cold@[i]
                        == start.arena.cold@[i],
            decreases curr_idx,
        {
            let ghost states = self.node_states@;
            let ghost here = *self;
            let mut state = self.node_states[curr_idx as usize];
            proof {
                lemma_open_nonneg(states, curr_idx as int);
            }
            state.pending_subdirs = state.pending_subdirs - 1;
            self.node_states.set(curr_idx as usize, state);
            if state.pending_subdirs == 0 {
                self.arena.set_totals(curr_idx, state.accumulated_bytes, state.files_here);
                self.arena.set_meta(curr_idx, state.identity, state.mtime);
                if state.parent == NO_PARENT {
                    proof {
                        assert(curr_idx == 0);
                        lemma_root_complete(states, self.queued@, self.own_bytes@, self.own_files@, state);
                    }
                    return;
                } else {
                    let ghost up = state.parent as int;
                    let mut parent = self.node_states[state.parent as usize];
                    proof {
                        assert(curr_idx != 0);
                        let p = NodeState {
                            accumulated_bytes: (states[up].accumulated_bytes + state.accumulated_bytes) as u64,
                            accumulated_files: (states[up].accumulated_files + state.accumulated_files) as u64,
                            ..states[up]
                        };
                        lemma_complete(states, self.queued@, self.own_bytes@, self.own_files@, curr_idx as int, state, up, p);
                    }
                    parent.accumulated_bytes = parent.accumulated_bytes + state.accumulated_bytes;
                    parent.accumulated_files = parent.accumulated_files + state.accumulated_files;
                    self.node_states.set(state.parent as usize, parent);
                    proof {
                        assert forall|i: int| 0 <= i < start.node_states@.len() implies same_dir(
                            #[trigger] self.node_states@[i],
                            start.node_states@[i],
                        ) && same_place(self.arena.hot@[i], start.arena.hot@[i]) by {
                            assert(same_dir(here.node_states@[i], start.node_states@[i]));
                            assert(same_dir(self.node_states@[i], here.node_states@[i]));
                            assert(same_place(self.arena.hot@[i], here.arena.hot@[i]));
                        }
                        assert forall|i: int|
                            0 <= i < start.node_states@.len() && (#[trigger] self.node_states@[i]).pending_subdirs
                                > 0 implies self.arena.hot@[i] == start.arena.hot@[i] && self.arena.cold@[i]
                            == start.arena.cold@[i] by {
                            assert(i != curr_idx);
                            assert(here.node_states@[i].pending_subdirs == self.node_states@[i].pending_subdirs);
                            assert(self.arena.hot@[i] == here.arena.hot@[i]);
                            assert(self.arena.cold@[i] == here.arena.cold@[i]);
                        }
                    }
                    curr_idx = state.parent;
                }
            } else {
                proof {
                    lemma_one_less(states, self.queued@, self.own_bytes@, self.own_files@, curr_idx as int, state);
                }
                return;
            }
        }
    }
}

/// The path of an entry of a directory.
pub open spec fn child_path(path: Seq<u8>, name: Seq<u8>, sep: u8) -> Seq<u8> {
    if path.len() == 0 || path.last() == sep {
        path + name
    } else {
        path.push(sep) + name
    }
}

fn join_child(path: &Vec<u8>, name: &Vec<u8>, sep: u8) -> (r: Vec<u8>)
    ensures
        r@ == child_path(path@, name@, sep),
{
    let mut r: Vec<u8> = vstd::slice::slice_to_vec(path.as_slice());
    if path.len() > 0 && path[path.len() - 1] != sep {
        r.push(sep);
    }
    let ghost stem = r@;
    let mut k: usize = 0;
    while k < name.len()
        invariant
            k <= name@.len(),
            r@ == stem + name@.take(k as int),
        decreases name@.len() - k,
    {
        r.push(name[k]);
        k = k + 1;
        assert(r@ =~= stem + name@.take(k as int));
    }
    assert(name@.take(k as int) =~= name@);
    r
}

/// The names of the directories to descend into, in the order of the listing.
pub open spec fn kept_names(subdirs: Seq<SubDir>, one_filesystem: bool, root_device: u64) -> Seq<Seq<u8>>
    decreases subdirs.len(),
{
    if subdirs.len() == 0 {
        Seq::empty()
    } else {
        let rest = kept_names(subdirs.drop_last(), one_filesystem, root_device);
        if same_filesystem(one_filesystem, root_device, subdirs.last().device) {
            rest.push(subdirs.last().name@)
        } else {
            rest
        }
    }
}

proof fn lemma_kept_prefix(subdirs: Seq<SubDir>, one_filesystem: bool, root_device: u64, n: int)
    requires
        0 <= n <= subdirs.len(),
    ensures
        ({
            let part = kept_names(subdirs.take(n), one_filesystem, root_device);
            let all = kept_names(subdirs, one_filesystem, root_device);
            part.len() <= all.len() && part == all.take(part.len() as int)
        }),
    decreases subdirs.len(),
{
    let all = kept_names(subdirs, one_filesystem, root_device);
    if n == subdirs.len() {
        assert(subdirs.take(n) =~= subdirs);
        assert(all.take(all.len() as int) =~= all);
    } else {
        lemma_kept_prefix(subdirs.drop_last(), one_filesystem, root_device, n);
        assert(subdirs.drop_last().take(n) =~= subdirs.take(n));
        let part = kept_names(subdirs.take(n), one_filesystem, root_device);
        assert(part =~= all.take(part.len() as int));
    }
}

/// A directory that was just found.
pub open spec fn fresh_state(parent: u32) -> NodeState {
    NodeState {
        parent,
        pending_subdirs: 1,
        accumulated_bytes: 0,
        accumulated_files: 0,
        files_here: 0,
        mtime: 0,
        identity: FsIdentity::spec_unknown(),
    }
}

/// What a queued directory looks like.
proof fn lemma_queued(
    states: Seq<NodeState>,
    queued: Seq<bool>,
    own_bytes: Seq<int>,
    own_files: Seq<int>,
    node: int,
)
    requires
        0 <= node < states.len(),
        counts_wf(states, queued, own_bytes, own_files, 0, 0),
        queued[node],
    ensures
        states[node].pending_subdirs == 1,
        states[node].accumulated_bytes == 0,
        states[node].accumulated_files == 0,
{
    assert forall|c: int| 0 <= c < states.len() implies !is_child(states, node, c) by {}
    lemma_total_zero(open_children(states, node));
    lemma_total_zero(child_bytes(states, node));
    lemma_total_zero(child_files(states, node));
}

/// A queued directory was read: it owns what was found directly inside it.
proof fn lemma_settle(
    states: Seq<NodeState>,
    queued: Seq<bool>,
    own_bytes: Seq<int>,
    own_files: Seq<int>,
    node: int,
    new: NodeState,
)
    requires
        0 <= node < states.len(),
        counts_wf(states, queued, own_bytes, own_files, 0, 0),
        queued[node],
        new.parent == states[node].parent,
        new.pending_subdirs == 1,
        new.files_here == new.accumulated_files,
        total(own_bytes) + new.accumulated_bytes <= u64::MAX,
        total(own_files) + new.accumulated_files <= u64::MAX,
    ensures
        counts_wf(
            states.update(node, new),
            queued.update(node, false),
            own_bytes.update(node, new.accumulated_bytes as int),
            own_files.update(node, new.accumulated_files as int),
            node,
            1,
        ),
{
    let after = states.update(node, new);
    let q = queued.update(node, false);
    let ob = own_bytes.update(node, new.accumulated_bytes as int);
    let of = own_files.update(node, new.accumulated_files as int);
    lemma_queued(states, queued, own_bytes, own_files, node);
    lemma_total_update(own_bytes, node, new.accumulated_bytes as int);
    lemma_total_update(own_files, node, new.accumulated_files as int);
    lemma_replace(states, node, new, 0);
    assert forall|p: int| 0 <= p < states.len() implies total(#[trigger] open_children(after, p)) == total(open_children(states, p))
        && total(child_bytes(after, p)) == total(child_bytes(states, p))
        && total(child_files(after, p)) == total(child_files(states, p)) by {
        lemma_replace(states, node, new, p);
    }
    assert forall|i: int, c: int| 0 <= i < after.len() && 0 <= c < after.len() && #[trigger] q[i] implies !#[trigger] is_child(after, i, c) by {
        assert(is_child(after, i, c) == is_child(states, i, c));
        assert(queued[i]);
    }
    assert forall|i: int| 0 <= i < after.len() && #[trigger] q[i] implies ob[i] == 0 && of[i] == 0 by {
        assert(queued[i]);
    }
    assert forall|i: int| 0 <= i < after.len() implies (#[trigger] after[i]).pending_subdirs == (if q[i] { 1int } else { 0 })
        + total(open_children(after, i)) + (if i == node { 1int } else { 0 }) by {
        assert(states[i].pending_subdirs == (if queued[i] { 1int } else { 0 }) + total(open_children(states, i)));
    }
    assert forall|i: int| 0 <= i < after.len() implies (#[trigger] after[i]).accumulated_bytes == ob[i] + total(child_bytes(after, i)) by {
        assert(states[i].accumulated_bytes == own_bytes[i] + total(child_bytes(states, i)));
        assert(total(open_children(after, i)) == total(open_children(states, i)));
    }
    assert forall|i: int| 0 <= i < after.len() implies (#[trigger] after[i]).accumulated_files == of[i] + total(child_files(after, i)) by {
        assert(states[i].accumulated_files == own_files[i] + total(child_files(states, i)));
        assert(total(open_children(after, i)) == total(open_children(states, i)));
    }
}

/// A new directory below `node` is queued.
proof fn lemma_child(
    states: Seq<NodeState>,
    queued: Seq<bool>,
    own_bytes: Seq<int>,
    own_files: Seq<int>,
    node: int,
    debt: int,
    new: NodeState,
)
    requires
        0 <= node < states.len() < u32::MAX,
        counts_wf(states, queued, own_bytes, own_files, node, debt),
        !queued[node],
        states[0].parent == NO_PARENT,
        forall|i: int| 0 < i < states.len() ==> (#[trigger] states[i]).parent < i,
        new == fresh_state(node as u32),
    ensures
        counts_wf(
            states.push(new),
            queued.push(true),
            own_bytes.push(0),
            own_files.push(0),
            node,
            debt - 1,
        ),
{
    let n = states.len() as int;
    let after = states.push(new);
    let q = queued.push(true);
    let ob = own_bytes.push(0);
    let of = own_files.push(0);
    lemma_total_push(own_bytes, 0);
    lemma_total_push(own_files, 0);
    lemma_total_push(loose_bytes(states), 0);
    lemma_total_push(loose_files(states), 0);
    assert(loose_bytes(after) =~= loose_bytes(states).push(0));
    assert(loose_files(after) =~= loose_files(states).push(0));
    assert forall|p: int| 0 <= p <= n implies total(#[trigger] open_children(after, p)) == total(open_children(states, p)) + (if p == node { 1int } else { 0 })
        && total(child_bytes(after, p)) == total(child_bytes(states, p))
        && total(child_files(after, p)) == total(child_files(states, p)) by {
        lemma_total_push(open_children(states, p), if p == node { 1int } else { 0 });
        lemma_total_push(child_bytes(states, p), 0);
        lemma_total_push(child_files(states, p), 0);
        assert(open_children(after, p) =~= open_children(states, p).push(if p == node { 1int } else { 0 }));
        assert(child_bytes(after, p) =~= child_bytes(states, p).push(0));
        assert(child_files(after, p) =~= child_files(states, p).push(0));
    }
    assert forall|i: int, c: int| 0 <= i < after.len() && 0 <= c < after.len() && #[trigger] q[i] implies !#[trigger] is_child(after, i, c) by {
        if c < n {
            assert(is_child(after, i, c) == is_child(states, i, c));
            if i < n {
                assert(queued[i]);
            } else if c > 0 {
                assert(states[c].parent < c);
            }
        } else {
            assert(i != node);
        }
    }
    assert forall|c: int| 0 <= c < n implies !is_child(states, n, c) by {
        if c > 0 {
            assert(states[c].parent < c);
        }
    }
    lemma_total_zero(open_children(states, n));
    lemma_total_zero(child_bytes(states, n));
    lemma_total_zero(child_files(states, n));
    assert forall|i: int| 0 <= i < after.len() implies (#[trigger] after[i]).pending_subdirs == (if q[i] { 1int } else { 0 })
        + total(open_children(after, i)) + (if i == node { debt - 1 } else { 0 }) by {
        if i < n {
            assert(states[i].pending_subdirs == (if queued[i] { 1int } else { 0 }) + total(open_children(states, i)) + (if i == node { debt } else { 0 }));
        }
    }
    assert forall|i: int| 0 <= i < after.len() implies (#[trigger] after[i]).accumulated_bytes == ob[i] + total(child_bytes(after, i)) by {
        assert(total(open_children(after, i)) >= 0 || total(open_children(after, i)) < 0);
        if i < n {
            assert(states[i].accumulated_bytes == own_bytes[i] + total(child_bytes(states, i)));
        }
    }
    assert forall|i: int| 0 <= i < after.len() implies (#[trigger] after[i]).accumulated_files == of[i] + total(child_files(after, i)) by {
        assert(total(open_children(after, i)) >= 0 || total(open_children(after, i)) < 0);
        if i < n {
            assert(states[i].accumulated_files == own_files[i] + total(child_files(states, i)));
        }
    }
    assert forall|i: int| 0 <= i < after.len() && #[trigger] q[i] implies ob[i] == 0 && of[i] == 0 by {
        if i < n {
            assert(queued[i]);
        }
    }
    assert forall|i: int| 0 <= i < after.len() implies #[trigger] ob[i] >= 0 by {
        if i < n {
            assert(own_bytes[i] >= 0);
        }
    }
    assert forall|i: int| 0 <= i < after.len() implies #[trigger] of[i] >= 0 by {
        if i < n {
            assert(own_files[i] >= 0);
        }
    }
}

/// The counter of `node` is set to pay its debt down to one.
proof fn lemma_counter(
    states: Seq<NodeState>,
    queued: Seq<bool>,
    own_bytes: Seq<int>,
    own_files: Seq<int>,
    node: int,
    debt: int,
    new: NodeState,
)
    requires
        0 <= node < states.len(),
        counts_wf(states, queued, own_bytes, own_files, node, debt),
        debt <= 1,
        states[node].pending_subdirs > 0,
        states[node].pending_subdirs + 1 - debt <= u32::MAX,
        new == (NodeState {
            pending_subdirs: (states[node].pending_subdirs + 1 - debt) as u32,
            ..states[node]
        }),
    ensures
        counts_wf(states.update(node, new), queued, own_bytes, own_files, node, 1),
{
    let after = states.update(node, new);
    lemma_replace(states, node, new, 0);
    assert forall|p: int| 0 <= p < states.len() implies total(#[trigger] open_children(after, p)) == total(open_children(states, p))
        && total(child_bytes(after, p)) == total(child_bytes(states, p))
        && total(child_files(after, p)) == total(child_files(states, p)) by {
        lemma_replace(states, node, new, p);
    }
    assert forall|i: int, c: int| 0 <= i < after.len() && 0 <= c < after.len() && #[trigger] queued[i] implies !#[trigger] is_child(after, i, c) by {
        assert(is_child(after, i, c) == is_child(states, i, c));
    }
    assert forall|i: int| 0 <= i < after.len() implies (#[trigger] after[i]).pending_subdirs == (if queued[i] { 1int } else { 0 })
        + total(open_children(after, i)) + (if i == node { 1int } else { 0 }) by {
        assert(states[i].pending_subdirs == (if queued[i] { 1int } else { 0 }) + total(open_children(states, i)) + (if i == node { debt } else { 0 }));
    }
    assert forall|i: int| 0 <= i < after.len() implies (#[trigger] after[i]).accumulated_bytes == own_bytes[i] + total(child_bytes(after, i)) by {
        assert(states[i].accumulated_bytes == own_bytes[i] + total(child_bytes(states, i)));
        assert(total(open_children(after, i)) == total(open_children(states, i)));
    }
    assert forall|i: int| 0 <= i < after.len() implies (#[trigger] after[i]).accumulated_files == own_files[i] + total(child_files(after, i)) by {
        assert(states[i].accumulated_files == own_files[i] + total(child_files(states, i)));
        assert(total(open_children(after, i)) == total(open_children(states, i)));
    }
}

/// What reading a queued directory brought.
pub enum JobOutcome {
    /// It was not read: the totals of an earlier snapshot stand.
    Skipped { meta: DirMeta, totals: SkipResult },
    /// It could not be read.
    Failed { errors: u32 },
    /// It was read.
    Listed { meta: DirMeta, listing: DirListing },
}

/// The bytes that an outcome gives to the directory itself.
pub open spec fn outcome_bytes(outcome: JobOutcome) -> int {
    match outcome {
        JobOutcome::Skipped { totals, .. } => totals.total_bytes as int,
        JobOutcome::Failed { .. } => 0,
        JobOutcome::Listed { listing, .. } => listing.file_bytes as int,
    }
}

/// The files that an outcome gives to the directory itself.
pub open spec fn outcome_files(outcome: JobOutcome) -> int {
    match outcome {
        JobOutcome::Skipped { totals, .. } => totals.file_count as int,
        JobOutcome::Failed { .. } => 0,
        JobOutcome::Listed { listing, .. } => listing.file_count as int,
    }
}

/// The errors that an outcome reports.
pub open spec fn outcome_errors(outcome: JobOutcome) -> int {
    match outcome {
        JobOutcome::Skipped { .. } => 0,
        JobOutcome::Failed { errors } => errors as int,
        JobOutcome::Listed { listing, .. } => listing.error_count as int,
    }
}

/// The metadata that an outcome gives to the directory; one that could not be read
/// keeps none.
pub open spec fn outcome_meta(outcome: JobOutcome) -> NodeCold {
    match outcome {
        JobOutcome::Skipped { meta, .. } => NodeCold { mtime: meta.mtime, identity: meta.identity },
        JobOutcome::Failed { .. } => blank_cold(),
        JobOutcome::Listed { meta, .. } => NodeCold { mtime: meta.mtime, identity: meta.identity },
    }
}

/// The directories that an outcome lists.
pub open spec fn outcome_subdirs(outcome: JobOutcome) -> Seq<SubDir> {
    match outcome {
        JobOutcome::Listed { listing, .. } => listing.subdirs@,
        _ => Seq::empty(),
    }
}

impl SharedState {
    /// The state of a scan of which only the root is known.
    pub fn start(root: &Vec<u8>, root_device: u64, sep: u8) -> (state: SharedState)
        requires
            root@.len() <= u32::MAX,
        ensures
            state.wf(),
            state.node_states@ == seq![fresh_state(NO_PARENT)],
            state.arena.hot@.len() == 1,
            state.arena.rooted(0),
            state.arena.path(0) == root@,
            state.queued@ == seq![true],
            state.own_bytes@ == seq![0int],
            state.own_files@ == seq![0int],
            state.error_count == 0,
            state.root_device == root_device,
            state.visited@ == Set::<FsIdentity>::empty(),
            state.arena.cold@ == seq![blank_cold()],
            state.arena.names() == seq![root@],
            state.arena.byte_pool@ == root@,
            state.arena.sep == sep,
    {
        let mut arena = PathlessArena::with_separator(65536, 4194304, sep);
        let sym = arena.intern(root.as_slice());
        let _ = arena.push_node(NO_PARENT, sym, 0);
        let mut node_states: Vec<NodeState> = Vec::with_capacity(65536);
        node_states.push(
            NodeState {
                parent: NO_PARENT,
                pending_subdirs: 1,
                accumulated_bytes: 0,
                accumulated_files: 0,
                files_here: 0,
                mtime: 0,
                identity: FsIdentity::unknown(),
            },
        );
        let ghost waiting: Seq<bool> = seq![true];
        let ghost nothing: Seq<int> = seq![0int];
        let state = SharedState {
            arena,
            node_states,
            error_count: 0,
            root_device,
            visited: VisitedSet::new(),
            queued: Ghost(waiting),
            own_bytes: Ghost(nothing),
            own_files: Ghost(nothing),
        };
        proof {
            let states = state.node_states@;
            assert(states =~= seq![fresh_state(NO_PARENT)]);
            lemma_total_zero(open_children(states, 0));
            lemma_total_zero(child_bytes(states, 0));
            lemma_total_zero(child_files(states, 0));
            lemma_total_zero(loose_bytes(states));
            lemma_total_zero(loose_files(states));
            lemma_total_zero(seq![0int]);
            assert(state.arena.reaches_root(0, 1));
            assert(state.arena.cold@ =~= seq![blank_cold()]);
            assert(state.arena.names() =~= seq![root@]);
            assert(state.arena.byte_pool@ =~= root@);
        }
        state
    }

    /// Reads the entries of a directory. The bytes of a file count at the first of its
    /// names that a worker comes to.
    pub fn read(
        &mut self,
        entries: Vec<RawEntry>,
        skip_names: &Vec<Vec<u8>>,
        max_depth: Option<u16>,
        depth: u16,
    ) -> (listing: DirListing)
        requires
            old(self).wf(),
            total(entry_bytes(entries@, skip_names@, old(self).visited@)) <= u64::MAX,
            total(entry_files(entries@, skip_names@)) <= u32::MAX,
            total(entry_errors(entries@)) <= u32::MAX,
        ensures
            final(self).wf(),
            final(self).arena == old(self).arena,
            final(self).node_states == old(self).node_states,
            final(self).error_count == old(self).error_count,
            final(self).root_device == old(self).root_device,
            final(self).queued == old(self).queued,
            final(self).own_bytes == old(self).own_bytes,
            final(self).own_files == old(self).own_files,
            final(self).visited@ == old(self).visited@.union(file_ids(entries@, skip_names@)),
            listing.file_bytes == total(entry_bytes(entries@, skip_names@, old(self).visited@)),
            listing.file_count == total(entry_files(entries@, skip_names@)),
            listing.error_count == total(entry_errors(entries@)),
            listed_dirs(listing.subdirs@) == entry_dirs(entries@, skip_names@, max_depth, depth),
            is_listing(entries@, skip_names@, max_depth, depth, old(self).visited@, listing),
    {
        read_dir_entries(entries, skip_names, max_depth, depth, &mut self.visited)
    }

    /// Enters what reading directory `node_idx` brought, before its counter is settled.
    fn settle(&mut self, node_idx: u32, bytes: u64, files: u32, mtime: i64, identity: FsIdentity)
        requires
            old(self).wf(),
            node_idx < old(self).node_states@.len(),
            old(self).queued@[node_idx as int],
            total(old(self).own_bytes@) + bytes <= u64::MAX,
            total(old(self).own_files@) + files <= u64::MAX,
        ensures
            final(self).wf_with(node_idx as int, 1),
            final(self).node_states@ == old(self).node_states@.update(
                node_idx as int,
                (NodeState {
                    parent: old(self).node_states@[node_idx as int].parent,
                    pending_subdirs: 1,
                    accumulated_bytes: bytes,
                    accumulated_files: files as u64,
                    files_here: files,
                    mtime,
                    identity,
                }),
            ),
            final(self).queued@ == old(self).queued@.update(node_idx as int, false),
            final(self).own_bytes@ == old(self).own_bytes@.update(node_idx as int, bytes as int),
            final(self).own_files@ == old(self).own_files@.update(node_idx as int, files as int),
            final(self).arena == old(self).arena,
            final(self).error_count == old(self).error_count,
            final(self).root_device == old(self).root_device,
            final(self).visited == old(self).visited,
    {
        let mut state = self.node_states[node_idx as usize];
        proof {
            lemma_queued(self.node_states@, self.queued@, self.own_bytes@, self.own_files@, node_idx as int);
        }
        state.accumulated_bytes = bytes;
        state.accumulated_files = files as u64;
        state.files_here = files;
        state.mtime = mtime;
        state.identity = identity;
        proof {
            lemma_settle(self.node_states@, self.queued@, self.own_bytes@, self.own_files@, node_idx as int, state);
        }
        self.node_states.set(node_idx as usize, state);
        self.queued = Ghost(self.queued@.update(node_idx as int, false));
        self.own_bytes = Ghost(self.own_bytes@.update(node_idx as int, bytes as int));
        self.own_files = Ghost(self.own_files@.update(node_idx as int, files as int));
    }
}

impl SharedState {
    /// What is known of directory `node_idx` after its job ended with `outcome`.
    pub open spec fn after_job(
        &self,
        before: &SharedState,
        node_idx: u32,
        outcome: JobOutcome,
        one_filesystem: bool,
    ) -> bool {
        let n = before.node_states@.len() as int;
        let node = node_idx as int;
        let kept = kept_names(outcome_subdirs(outcome), one_filesystem, before.root_device);
        &&& self.node_states@.len() == n + kept.len()
        &&& self.error_count == before.error_count + outcome_errors(outcome)
        &&& self.root_device == before.root_device
        &&& self.arena.sep == before.arena.sep
        &&& self.queued@ == before.queued@.update(node, false) + Seq::new(kept.len(), |k: int| true)
        &&& self.own_bytes@ == before.own_bytes@.update(node, outcome_bytes(outcome)) + Seq::new(
            kept.len(),
            |k: int| 0int,
        )
        &&& self.own_files@ == before.own_files@.update(node, outcome_files(outcome)) + Seq::new(
            kept.len(),
            |k: int| 0int,
        )
        &&& self.node_states@[node].files_here == outcome_files(outcome)
        &&& self.node_states@[node].mtime == outcome_meta(outcome).mtime
        &&& self.node_states@[node].identity == outcome_meta(outcome).identity
        &&& before.arena.names().is_prefix_of(self.arena.names())
        &&& self.arena.names() == with_names(before.arena.names(), kept)
        &&& self.arena.byte_pool@.len() == before.arena.byte_pool@.len() + new_bytes(before.arena.names(), kept)
        &&& forall|i: int|
            0 <= i < n ==> same_place(#[trigger] self.arena.hot@[i], before.arena.hot@[i]) && (i != node
                ==> same_dir(self.node_states@[i], before.node_states@[i]))
        &&& forall|k: int|
            0 <= k < kept.len() ==> {
                let child = #[trigger] self.arena.hot@[n + k];
                &&& child.parent == node_idx
                &&& self.arena.names()[child.name.0 as int] == kept[k]
            }
    }

    /// Enters the outcome of a directory job that brought no directories.
    fn finish_leaf(
        &mut self,
        node_idx: u32,
        bytes: u64,
        files: u32,
        mtime: i64,
        identity: FsIdentity,
        errors: u32,
        Ghost(outcome): Ghost<JobOutcome>,
        Ghost(one_filesystem): Ghost<bool>,
    )
        requires
            old(self).wf(),
            node_idx < old(self).node_states@.len(),
            old(self).queued@[node_idx as int],
            total(old(self).own_bytes@) + bytes <= u64::MAX,
            total(old(self).own_files@) + files <= u64::MAX,
            old(self).error_count + errors <= u32::MAX,
            outcome_subdirs(outcome).len() == 0,
            bytes == outcome_bytes(outcome),
            files == outcome_files(outcome),
            errors == outcome_errors(outcome),
            mtime == outcome_meta(outcome).mtime,
            identity == outcome_meta(outcome).identity,
        ensures
            final(self).wf(),
            final(self).after_job(old(self), node_idx, outcome, one_filesystem),
            final(self).visited == old(self).visited,
    {
        let ghost start = *self;
        self.settle(node_idx, bytes, files, mtime, identity);
        self.error_count = self.error_count + errors;
        let ghost settled = *self;
        self.decrement_pending(node_idx);
        proof {
            let node = node_idx as int;
            let n = start.node_states@.len() as int;
            assert(self.queued@ =~= start.queued@.update(node, false) + Seq::new(0, |k: int| true));
            assert(self.own_bytes@ =~= start.own_bytes@.update(node, outcome_bytes(outcome)) + Seq::new(0, |k: int| 0int));
            assert(self.own_files@ =~= start.own_files@.update(node, outcome_files(outcome)) + Seq::new(0, |k: int| 0int));
            assert forall|i: int| 0 <= i < n implies same_place(#[trigger] self.arena.hot@[i], start.arena.hot@[i]) && (i != node
                ==> same_dir(self.node_states@[i], start.node_states@[i])) by {
                assert(same_dir(self.node_states@[i], settled.node_states@[i]));
            }
            assert(same_dir(self.node_states@[node], settled.node_states@[node]));
        }
    }

    /// There is room for directories of these names inside one at a depth.
    pub open spec fn room_for_dirs(&self, depth: u16, kept: Seq<Seq<u8>>) -> bool {
        &&& depth < u16::MAX || kept.len() == 0
        &&& self.node_states@.len() + kept.len() < u32::MAX
        &&& with_names(self.arena.names(), kept).len() <= u32::MAX
        &&& self.arena.byte_pool@.len() + new_bytes(self.arena.names(), kept) <= u32::MAX
    }

    /// Enters the listing of a directory and queues the directories in it.
    fn expand(&mut self, job: DirJob, meta: DirMeta, listing: DirListing, one_filesystem: bool) -> (jobs: Vec<DirJob>)
        requires
            old(self).wf(),
            job.node_idx < old(self).node_states@.len(),
            old(self).queued@[job.node_idx as int],
            job.depth == old(self).arena.hot@[job.node_idx as int].depth,
            total(old(self).own_bytes@) + listing.file_bytes <= u64::MAX,
            total(old(self).own_files@) + listing.file_count <= u64::MAX,
            old(self).error_count + listing.error_count <= u32::MAX,
            old(self).room_for_dirs(job.depth, kept_names(listing.subdirs@, one_filesystem, old(self).root_device)),
        ensures
            final(self).wf(),
            final(self).after_job(old(self), job.node_idx, (JobOutcome::Listed { meta, listing }), one_filesystem),
            final(self).visited == old(self).visited,
            jobs@.len() == final(self).node_states@.len() - old(self).node_states@.len(),
            forall|k: int|
                0 <= k < jobs@.len() ==> {
                    &&& (#[trigger] jobs@[k]).node_idx == old(self).node_states@.len() + k
                    &&& jobs@[k].depth == job.depth + 1
                    &&& jobs@[k].path@ == child_path(
                        job.path@,
                        kept_names(listing.subdirs@, one_filesystem, old(self).root_device)[k],
                        old(self).arena.sep,
                    )
                },
    {
        let node_idx = job.node_idx;
        let ghost start = *self;
        let ghost subdirs = listing.subdirs@;
        let ghost all = kept_names(subdirs, one_filesystem, start.root_device);
        self.settle(
            node_idx,
            listing.file_bytes,
            listing.file_count,
            meta.mtime,
            meta.identity,
        );
        self.error_count = self.error_count + listing.error_count;
        let ghost base = *self;
        let ghost n = base.node_states@.len() as int;
        let mut jobs: Vec<DirJob> = Vec::new();
        let mut i: usize = 0;
        assert(subdirs.take(0) =~= Seq::<SubDir>::empty());
        assert(self.queued@ =~= base.queued@ + Seq::new(0, |k: int| true));
        assert(self.own_bytes@ =~= base.own_bytes@ + Seq::new(0, |k: int| 0int));
        assert(self.own_files@ =~= base.own_files@ + Seq::new(0, |k: int| 0int));
        while i < listing.subdirs.len()
            invariant
                subdirs == listing.subdirs@,
                all == kept_names(subdirs, one_filesystem, base.root_device),
                i <= subdirs.len(),
                n == base.node_states@.len(),
                node_idx < n,
                node_idx == job.node_idx,
                !base.queued@[node_idx as int],
                base.node_states@[node_idx as int].pending_subdirs == 1,
                job.depth == base.arena.hot@[node_idx as int].depth,
                base.room_for_dirs(job.depth, all),
                self.wf_with(node_idx as int, 1 - jobs@.len()),
                self.error_count == base.error_count,
                self.root_device == base.root_device,
                self.visited == base.visited,
                self.arena.sep == base.arena.sep,
                jobs@.len() <= i,
                jobs@.len() == kept_names(subdirs.take(i as int), one_filesystem, base.root_device).len(),
                self.node_states@.len() == n + jobs@.len(),
                self.queued@ == base.queued@ + Seq::new(jobs@.len(), |k: int| true),
                self.own_bytes@ == base.own_bytes@ + Seq::new(jobs@.len(), |k: int| 0int),
                self.own_files@ == base.own_files@ + Seq::new(jobs@.len(), |k: int| 0int),
                base.arena.names().is_prefix_of(self.arena.names()),
                self.arena.names() == with_names(
                    base.arena.names(),
                    kept_names(subdirs.take(i as int), one_filesystem, base.root_device),
                ),
                self.arena.byte_pool@.len() == base.arena.byte_pool@.len() + new_bytes(
                    base.arena.names(),
                    kept_names(subdirs.take(i as int), one_filesystem, base.root_device),
                ),
                forall|j: int|
                    0 <= j < n ==> #[trigger] self.arena.hot@[j] == base.arena.hot@[j]
                        && self.node_states@[j] == base.node_states@[j],
                forall|k: int|
                    0 <= k < jobs@.len() ==> {
                        let child = #[trigger] self.arena.hot@[n + k];
                        &&& child.parent == node_idx
                        &&& child.name.0 < self.arena.names().len()
                        &&& self.arena.names()[child.name.0 as int] == kept_names(
                            subdirs.take(i as int),
                            one_filesystem,
                            base.root_device,
                        )[k]
                    },
                forall|k: int|
                    0 <= k < jobs@.len() ==> {
                        &&& (#[trigger] jobs@[k]).node_idx == n + k
                        &&& jobs@[k].depth == job.depth + 1
                        &&& jobs@[k].path@ == child_path(
                            job.path@,
                            kept_names(subdirs.take(i as int), one_filesystem, base.root_device)[k],
                            base.arena.sep,
                        )
                    },
            decreases subdirs.len() - i,
        {
            let ghost here = *self;
            let ghost kept = kept_names(subdirs.take(i as int), one_filesystem, base.root_device);
            let ghost kept_after = kept_names(subdirs.take(i + 1), one_filesystem, base.root_device);
            proof {
                assert(subdirs.take(i + 1).drop_last() =~= subdirs.take(i as int));
                lemma_kept_prefix(subdirs, one_filesystem, base.root_device, i + 1);
                lemma_names_grow(base.arena.names(), all, kept_after.len() as int);
                assert(kept_after.len() > kept.len() ==> kept_after.drop_last() =~= kept);
            }
            let entry = &listing.subdirs[i];
            if is_same_filesystem(one_filesystem, self.root_device, entry.device) {
                let sym = self.arena.intern(entry.name.as_slice());
                let child_idx = self.arena.push_node(node_idx, sym, job.depth + 1);
                proof {
                    lemma_child(
                        self.node_states@,
                        self.queued@,
                        self.own_bytes@,
                        self.own_files@,
                        node_idx as int,
                        1 - jobs@.len(),
                        fresh_state(node_idx),
                    );
                }
                self.node_states.push(
                    NodeState {
                        parent: node_idx,
                        pending_subdirs: 1,
                        accumulated_bytes: 0,
                        accumulated_files: 0,
                        files_here: 0,
                        mtime: 0,
                        identity: FsIdentity::unknown(),
                    },
                );
                self.queued = Ghost(self.queued@.push(true));
                self.own_bytes = Ghost(self.own_bytes@.push(0));
                self.own_files = Ghost(self.own_files@.push(0));
                jobs.push(
                    DirJob {
                        path: join_child(&job.path, &entry.name, self.arena.sep),
                        node_idx: child_idx,
                        depth: job.depth + 1,
                    },
                );
                proof {
                    assert(self.queued@ =~= base.queued@ + Seq::new(jobs@.len(), |k: int| true));
                    assert(self.own_bytes@ =~= base.own_bytes@ + Seq::new(jobs@.len(), |k: int| 0int));
                    assert(self.own_files@ =~= base.own_files@ + Seq::new(jobs@.len(), |k: int| 0int));
                    assert forall|k: int| 0 <= k < jobs@.len() implies ({
                        let child = #[trigger] self.arena.hot@[n + k];
                        &&& child.parent == node_idx
                        &&& child.name.0 < self.arena.names().len()
                        &&& self.arena.names()[child.name.0 as int] == kept_after[k]
                    }) by {
                        if k < jobs@.len() - 1 {
                            assert(self.arena.hot@[n + k] == here.arena.hot@[n + k]);
                            assert(kept_after[k] == kept[k]);
                        }
                    }
                }
            }
            i = i + 1;
        }
        assert(subdirs.take(i as int) =~= subdirs);
        let mut state = self.node_states[node_idx as usize];
        assert(self.node_states@[node_idx as int] == base.node_states@[node_idx as int]) by {
            assert(self.arena.hot@[node_idx as int] == base.arena.hot@[node_idx as int]);
        }
        state.pending_subdirs = jobs.len() as u32 + 1;
        proof {
            lemma_counter(
                self.node_states@,
                self.queued@,
                self.own_bytes@,
                self.own_files@,
                node_idx as int,
                1 - jobs@.len(),
                state,
            );
        }
        let ghost grown = *self;
        self.node_states.set(node_idx as usize, state);
        self.decrement_pending(node_idx);
        proof {
            assert forall|j: int| 0 <= j < n implies same_place(#[trigger] self.arena.hot@[j], start.arena.hot@[j]) && (j != node_idx
                ==> same_dir(self.node_states@[j], start.node_states@[j])) by {
                assert(grown.arena.hot@[j] == base.arena.hot@[j]);
                assert(same_dir(self.node_states@[j], grown.node_states@.update(node_idx as int, state)[j]));
            }
            assert(same_dir(self.node_states@[node_idx as int], state));
            assert forall|k: int| 0 <= k < jobs@.len() implies ({
                let child = #[trigger] self.arena.hot@[n + k];
                &&& child.parent == node_idx
                &&& self.arena.names()[child.name.0 as int] == kept_names(subdirs, one_filesystem, start.root_device)[k]
            }) by {
                assert(same_dir(self.node_states@[n + k], grown.node_states@.update(node_idx as int, state)[n + k]));
                assert(grown.arena.hot@[n + k].parent == node_idx);
            }
        }
        jobs
    }

    /// Enters the outcome of a directory job. The result is a job for each directory
    /// found inside that lies on the same file system.
    pub fn process_job(&mut self, job: DirJob, outcome: JobOutcome, one_filesystem: bool) -> (jobs: Vec<DirJob>)
        requires
            old(self).wf(),
            job.node_idx < old(self).node_states@.len(),
            old(self).queued@[job.node_idx as int],
            job.depth == old(self).arena.hot@[job.node_idx as int].depth,
            total(old(self).own_bytes@) + outcome_bytes(outcome) <= u64::MAX,
            total(old(self).own_files@) + outcome_files(outcome) <= u64::MAX,
            old(self).error_count + outcome_errors(outcome) <= u32::MAX,
            old(self).room_for_dirs(
                job.depth,
                kept_names(outcome_subdirs(outcome), one_filesystem, old(self).root_device),
            ),
        ensures
            final(self).wf(),
            final(self).after_job(old(self), job.node_idx, outcome, one_filesystem),
            final(self).visited == old(self).visited,
            jobs@.len() == final(self).node_states@.len() - old(self).node_states@.len(),
            forall|k: int|
                0 <= k < jobs@.len() ==> {
                    &&& (#[trigger] jobs@[k]).node_idx == old(self).node_states@.len() + k
                    &&& jobs@[k].depth == job.depth + 1
                    &&& jobs@[k].path@ == child_path(
                        job.path@,
                        kept_names(outcome_subdirs(outcome), one_filesystem, old(self).root_device)[k],
                        old(self).arena.sep,
                    )
                },
    {
        let ghost told = outcome;
        match outcome {
            JobOutcome::Skipped { meta, totals } => {
                self.finish_leaf(
                    job.node_idx,
                    totals.total_bytes,
                    totals.file_count,
                    meta.mtime,
                    meta.identity,
                    0,
                    Ghost(told),
                    Ghost(one_filesystem),
                );
                Vec::new()
            },
            JobOutcome::Failed { errors } => {
                self.finish_leaf(
                    job.node_idx,
                    0,
                    0,
                    0,
                    FsIdentity::unknown(),
                    errors,
                    Ghost(told),
                    Ghost(one_filesystem),
                );
                Vec::new()
            },
            JobOutcome::Listed { meta, listing } => self.expand(job, meta, listing, one_filesystem),
        }
    }

    /// Whether every directory was read.
    pub fn root_done(&self) -> (done: bool)
        requires
            self.wf(),
        ensures
            done == (self.node_states@[0].pending_subdirs == 0),
    {
        self.node_states[0].pending_subdirs == 0
    }

    /// The result of the scan. Of one that is not complete the arena shows no totals, and
    /// no files are told of.
    pub fn into_result(self, scan_duration_ms: u64) -> (r: ScanResult)
        requires
            self.wf(),
        ensures
            r.arena == self.arena,
            r.total_bytes == self.arena.hot@[0].total_bytes,
            r.total_files == (if self.node_states@[0].pending_subdirs == 0 {
                self.node_states@[0].accumulated_files
            } else {
                0
            }),
            r.scan_duration_ms == scan_duration_ms,
            r.error_count == self.error_count,
    {
        let total_bytes = self.arena.hot[0].total_bytes;
        let total_files = if self.root_done() {
            self.node_states[0].accumulated_files
        } else {
            0
        };
        ScanResult {
            total_files,
            total_bytes,
            scan_duration_ms,
            error_count: self.error_count,
            arena: self.arena,
        }
    }
}

/// A directory is complete exactly if its own job has ended and every directory
/// directly inside it is complete.
pub proof fn law_complete(state: &SharedState, i: int)
    requires
        state.wf(),
        0 <= i < state.node_states@.len(),
    ensures
        state.node_states@[i].pending_subdirs == 0 <==> (!state.queued@[i] && forall|c: int|
            0 <= c < state.node_states@.len() && #[trigger] is_child(state.node_states@, i, c)
                ==> state.node_states@[c].pending_subdirs == 0),
{
    let states = state.node_states@;
    let open = open_children(states, i);
    lemma_open_nonneg(states, i);
    assert(states[i].pending_subdirs == (if state.queued@[i] { 1int } else { 0 }) + total(open));
    if states[i].pending_subdirs == 0 {
        assert forall|c: int| 0 <= c < states.len() && #[trigger] is_child(states, i, c) implies states[c].pending_subdirs == 0 by {
            lemma_total_bounds(open, c, c);
            assert(open[c] <= 0);
        }
    }
    if !state.queued@[i] && forall|c: int| 0 <= c < states.len() && #[trigger] is_child(states, i, c) ==> states[c].pending_subdirs == 0 {
        assert forall|c: int| 0 <= c < open.len() implies #[trigger] open[c] == 0 by {
            assert(is_child(states, i, c) || !is_child(states, i, c));
        }
        lemma_total_zero(open);
    }
}

/// The bytes of a complete directory are what was found in it and the bytes of the
/// directories directly inside it. Its number of files is that of the files directly
/// inside it.
pub proof fn law_subtotals(state: &SharedState, i: int)
    requires
        state.wf(),
        0 <= i < state.node_states@.len(),
        state.node_states@[i].pending_subdirs == 0,
    ensures
        state.arena.hot@[i].total_bytes == state.own_bytes@[i] + total(
            Seq::new(
                state.node_states@.len(),
                |c: int|
                    if is_child(state.node_states@, i, c) {
                        state.arena.hot@[c].total_bytes as int
                    } else {
                        0
                    },
            ),
        ),
        state.arena.hot@[i].file_count == state.own_files@[i],
{
    let states = state.node_states@;
    law_complete(state, i);
    let shown = Seq::new(
        states.len(),
        |c: int| if is_child(states, i, c) { state.arena.hot@[c].total_bytes as int } else { 0 },
    );
    assert forall|c: int| 0 <= c < states.len() implies shown[c] == #[trigger] child_bytes(states, i)[c] by {
        if is_child(states, i, c) {
            assert(states[c].pending_subdirs == 0);
        }
    }
    assert(shown =~= child_bytes(states, i));
    assert(states[i].accumulated_bytes == state.own_bytes@[i] + total(child_bytes(states, i)));
}

proof fn lemma_all_complete(state: &SharedState, i: int)
    requires
        state.wf(),
        state.node_states@[0].pending_subdirs == 0,
        0 <= i < state.node_states@.len(),
    ensures
        state.node_states@[i].pending_subdirs == 0,
        !state.queued@[i],
    decreases i,
{
    if i > 0 {
        let p = state.node_states@[i].parent as int;
        lemma_all_complete(state, p);
        law_complete(state, p);
        assert(is_child(state.node_states@, p, i));
    }
    law_complete(state, i);
}

/// Once the root is complete no directory waits any more, and in whatever order the
/// jobs ended the root has the sum of all bytes and files found in any directory.
pub proof fn law_root_total(state: &SharedState)
    requires
        state.wf(),
        state.node_states@[0].pending_subdirs == 0,
    ensures
        forall|i: int|
            0 <= i < state.node_states@.len() ==> !#[trigger] state.queued@[i] && state.node_states@[i].pending_subdirs == 0,
        state.arena.hot@[0].total_bytes == total(state.own_bytes@),
        state.node_states@[0].accumulated_files == total(state.own_files@),
{
    let states = state.node_states@;
    assert forall|i: int| 0 <= i < states.len() implies !#[trigger] state.queued@[i] && states[i].pending_subdirs == 0 by {
        lemma_all_complete(state, i);
    }
    let first = states[0];
    lemma_total_update(loose_bytes(states), 0, 0);
    lemma_total_update(loose_files(states), 0, 0);
    assert forall|i: int| 0 < i < states.len() implies states[i].pending_subdirs == 0 by {
        assert(!state.queued@[i]);
    }
    lemma_total_zero(loose_bytes(states).update(0, 0));
    lemma_total_zero(loose_files(states).update(0, 0));
}

/// While any directory waits to be read the root is not complete.
pub proof fn law_unfinished(state: &SharedState, i: int)
    requires
        state.wf(),
        0 <= i < state.node_states@.len(),
        state.queued@[i],
    ensures
        state.node_states@[0].pending_subdirs > 0,
{
    if state.node_states@[0].pending_subdirs == 0 {
        lemma_all_complete(state, i);
    }
}

/// Every directory but the root has a parent that was found before it and lies one
/// level above it, and its path is built on its parent's.
pub proof fn law_parents(state: &SharedState, i: int)
    requires
        state.wf(),
        0 <= i < state.node_states@.len(),
    ensures
        i == 0 <==> state.arena.hot@[i].parent == NO_PARENT,
        i > 0 ==> state.arena.hot@[i].parent < i && state.arena.hot@[i].depth == state.arena.hot@[state.arena.hot@[i].parent as int].depth
            + 1,
        state.arena.rooted(i as u32),
{
    crate::arena::lemma_linked_rooted(&state.arena, i as u32);
    assert(state.node_states@[i].parent == state.arena.hot@[i].parent);
}

/// Where a scan must stay on one file system, it descends only into directories that
/// lie on the device of the root.
pub proof fn law_one_filesystem(subdirs: Seq<SubDir>, root_device: u64, k: int)
    requires
        root_device != 0,
        0 <= k < kept_names(subdirs, true, root_device).len(),
    ensures
        exists|i: int|
            0 <= i < subdirs.len() && (#[trigger] subdirs[i]).name@ == kept_names(subdirs, true, root_device)[k]
                && subdirs[i].device == Some(root_device),
    decreases subdirs.len(),
{
    let rest = subdirs.drop_last();
    let m = subdirs.len() - 1;
    if k < kept_names(rest, true, root_device).len() {
        law_one_filesystem(rest, root_device, k);
        let i = choose|i: int|
            0 <= i < rest.len() && (#[trigger] rest[i]).name@ == kept_names(rest, true, root_device)[k]
                && rest[i].device == Some(root_device);
        assert(subdirs[i] == rest[i]);
    } else {
        assert(subdirs[m].name@ == kept_names(subdirs, true, root_device)[k]);
    }
}

/// A job gives its directory what the listing found in it, or what the earlier snapshot has
/// of it where it was skipped, adds the errors that it met, and leaves what was found in
/// other directories.
pub proof fn law_job_finds(before: &SharedState, after: &SharedState, node: u32, outcome: JobOutcome, one_filesystem: bool)
    requires
        after.after_job(before, node, outcome, one_filesystem),
        node < before.node_states@.len(),
        before.own_bytes@.len() == before.node_states@.len(),
        before.own_files@.len() == before.node_states@.len(),
    ensures
        match outcome {
            JobOutcome::Listed { listing, meta, .. } => {
                &&& after.own_bytes@[node as int] == listing.file_bytes
                &&& after.own_files@[node as int] == listing.file_count
                &&& after.error_count == before.error_count + listing.error_count
                &&& after.node_states@[node as int].mtime == meta.mtime
                &&& after.node_states@[node as int].identity == meta.identity
            },
            JobOutcome::Skipped { totals, meta, .. } => {
                &&& after.own_bytes@[node as int] == totals.total_bytes
                &&& after.own_files@[node as int] == totals.file_count
                &&& after.error_count == before.error_count
                &&& after.node_states@[node as int].mtime == meta.mtime
                &&& after.node_states@[node as int].identity == meta.identity
                &&& after.node_states@.len() == before.node_states@.len()
            },
            JobOutcome::Failed { errors } => {
                &&& after.own_bytes@[node as int] == 0
                &&& after.own_files@[node as int] == 0
                &&& after.error_count == before.error_count + errors
                &&& after.node_states@.len() == before.node_states@.len()
            },
        },
        forall|i: int|
            0 <= i < before.node_states@.len() && i != node ==> #[trigger] after.own_bytes@[i] == before.own_bytes@[i]
                && after.own_files@[i] == before.own_files@[i],
        forall|i: int|
            before.node_states@.len() <= i < after.node_states@.len() ==> (#[trigger] after.arena.hot@[i]).parent == node
                && after.own_bytes@[i] == 0 && after.own_files@[i] == 0,
{
    let n = before.node_states@.len() as int;
    let kept = kept_names(outcome_subdirs(outcome), one_filesystem, before.root_device);
    assert forall|i: int| n <= i < after.node_states@.len() implies (#[trigger] after.arena.hot@[i]).parent == node
        && after.own_bytes@[i] == 0 && after.own_files@[i] == 0 by {
        let k = i - n;
        assert(after.arena.hot@[n + k].parent == node);
    }
    if !(outcome is Listed) {
        lemma_no_names(one_filesystem, before.root_device);
    }
}

proof fn lemma_no_names(one_filesystem: bool, root_device: u64)
    ensures
        kept_names(Seq::<SubDir>::empty(), one_filesystem, root_device).len() == 0,
{
}

} // verus!
