//! The serial walk through a directory tree, one outside answer at a time.
//!
//! The walk holds the directories from the root down to the one it is in. It asks for
//! a directory to be entered, or for one of the directories inside to be probed, and
//! goes on with the answer.

use crate::arena::{
    blank_cold, new_bytes, with_names, ByteSymbol, NO_PARENT, NodeCold, NodeHot, PathlessArena,
};
use crate::identity::{FsIdentity, VisitedSet};
use crate::scan::{
    entry_bytes, entry_dirs, entry_errors, entry_files, file_ids, is_listing, listed_dirs, read_dir_entries,
    DirListing, DirMeta, RawEntry, ScanResult, SubDir,
};
use crate::sums::{lemma_total_nonneg, total};
use crate::warm::SkipResult;
use vstd::prelude::*;

verus! {

/// What a directory and everything below it amounts to.
#[derive(Debug, Clone, Copy)]
pub struct Totals {
    pub bytes: u64,
    pub files: u64,
    pub errors: u32,
}

/// A directory whose listing was read and whose directories are being walked.
pub struct Frame {
    pub node: u32,
    pub depth: u16,
    pub subdirs: Vec<SubDir>,
    /// The next of `subdirs` to look at.
    pub next: usize,
    /// What was found so far, deeper directories included.
    pub sum: Totals,
    /// The files directly inside.
    pub files_here: u32,
}

/// What entering a directory brought.
pub enum EnterOutcome {
    /// The scan was cancelled before the directory was looked at.
    Cancelled,
    /// It was not read: the totals of an earlier snapshot stand.
    Skipped { meta: DirMeta, totals: SkipResult },
    /// It could not be read.
    Failed { meta: DirMeta, errors: u32 },
    /// It was read. The scan may have been cancelled meanwhile.
    Listed { meta: DirMeta, listing: DirListing, cancelled: bool },
}

/// What probing a directory inside the current one brought.
pub enum ProbeOutcome {
    /// The scan was cancelled.
    Cancelled,
    /// It lies on another device than the root.
    OtherDevice,
    /// It could not be opened.
    Unopenable,
    /// It is open and can be entered.
    Opened,
}

/// A walk in progress.
pub struct SerialScan {
    pub arena: PathlessArena,
    pub frames: Vec<Frame>,
    /// The directory to enter next.
    pub entering: Option<u32>,
    /// The totals of the root, once the walk is over.
    pub result: Option<Totals>,
    /// The files that were counted.
    pub visited: VisitedSet,
}

/// The part of a walk that changes when a directory is done with.
pub struct WalkView {
    pub hot: Seq<NodeHot>,
    pub frames: Seq<Frame>,
    pub result: Option<Totals>,
}

/// A sum of totals.
pub open spec fn plus(a: Totals, b: Totals) -> Totals {
    Totals {
        bytes: (a.bytes + b.bytes) as u64,
        files: (a.files + b.files) as u64,
        errors: (a.errors + b.errors) as u32,
    }
}

/// Directory `node` is done with and amounts to `t`: its bytes are shown, the directory
/// above takes its totals over, and if that one has no more directories to look at, it
/// is done with in turn. The totals of the root end the walk.
pub open spec fn handed_up(hot: Seq<NodeHot>, frames: Seq<Frame>, node: u32, t: Totals) -> WalkView
    decreases frames.len(), 0int,
{
    let shown = hot.update(node as int, NodeHot { total_bytes: t.bytes, ..hot[node as int] });
    if frames.len() == 0 {
        WalkView { hot: shown, frames, result: Some(t) }
    } else {
        let above = Frame { sum: plus(frames.last().sum, t), ..frames.last() };
        if above.next < above.subdirs@.len() {
            WalkView { hot: shown, frames: frames.drop_last().push(above), result: None }
        } else {
            closed_frame(shown, frames.drop_last(), above)
        }
    }
}

/// A directory is left: it shows the number of files directly inside.
pub open spec fn closed_frame(hot: Seq<NodeHot>, below: Seq<Frame>, f: Frame) -> WalkView
    decreases below.len(), 1int,
{
    handed_up(
        hot.update(f.node as int, NodeHot { file_count: f.files_here, ..hot[f.node as int] }),
        below,
        f.node,
        f.sum,
    )
}

/// The bytes found so far by the directories being walked.
pub open spec fn stack_bytes(frames: Seq<Frame>) -> Seq<int> {
    Seq::new(frames.len(), |i: int| frames[i].sum.bytes as int)
}

/// The files found so far by the directories being walked.
pub open spec fn stack_files(frames: Seq<Frame>) -> Seq<int> {
    Seq::new(frames.len(), |i: int| frames[i].sum.files as int)
}

/// The errors counted so far by the directories being walked.
pub open spec fn stack_errors(frames: Seq<Frame>) -> Seq<int> {
    Seq::new(frames.len(), |i: int| frames[i].sum.errors as int)
}

/// Together with `t` the totals of the directories being walked are in range.
pub open spec fn room_for(frames: Seq<Frame>, t: Totals) -> bool {
    &&& total(stack_bytes(frames)) + t.bytes <= u64::MAX
    &&& total(stack_files(frames)) + t.files <= u64::MAX
    &&& total(stack_errors(frames)) + t.errors <= u32::MAX
}

proof fn lemma_stack_last(frames: Seq<Frame>)
    requires
        frames.len() > 0,
    ensures
        total(stack_bytes(frames)) == total(stack_bytes(frames.drop_last())) + frames.last().sum.bytes,
        total(stack_files(frames)) == total(stack_files(frames.drop_last())) + frames.last().sum.files,
        total(stack_errors(frames)) == total(stack_errors(frames.drop_last())) + frames.last().sum.errors,
        total(stack_bytes(frames.drop_last())) >= 0,
        total(stack_files(frames.drop_last())) >= 0,
        total(stack_errors(frames.drop_last())) >= 0,
{
    assert(stack_bytes(frames).drop_last() =~= stack_bytes(frames.drop_last()));
    assert(stack_files(frames).drop_last() =~= stack_files(frames.drop_last()));
    assert(stack_errors(frames).drop_last() =~= stack_errors(frames.drop_last()));
    lemma_total_nonneg(stack_bytes(frames.drop_last()));
    lemma_total_nonneg(stack_files(frames.drop_last()));
    lemma_total_nonneg(stack_errors(frames.drop_last()));
}

/// Each directory of the stack is in the arena, lies directly inside the one before
/// it, and the first is the root.
pub open spec fn stack_wf(arena: &PathlessArena, frames: Seq<Frame>) -> bool {
    &&& forall|k: int|
        0 <= k < frames.len() ==> {
            &&& (#[trigger] frames[k]).node < arena.hot@.len()
            &&& frames[k].depth == arena.hot@[frames[k].node as int].depth
            &&& frames[k].next <= frames[k].subdirs@.len()
            &&& arena.hot@[frames[k].node as int].parent == (if k == 0 {
                NO_PARENT
            } else {
                frames[k - 1].node
            })
        }
}

/// The arena is a tree below node 0 with depths that count from there.
pub open spec fn arena_tree(arena: &PathlessArena) -> bool {
    &&& arena.wf()
    &&& arena.linked()
    &&& 0 < arena.hot@.len() <= u32::MAX
    &&& arena.hot@[0].parent == NO_PARENT
    &&& arena.hot@[0].depth == 0
    &&& forall|i: int|
        0 < i < arena.hot@.len() ==> {
            &&& (#[trigger] arena.hot@[i]).parent < i
            &&& arena.hot@[i].depth == arena.hot@[arena.hot@[i].parent as int].depth + 1
        }
}

impl SerialScan {
    /// The walk is at a directory to enter, at one to probe, or over.
    pub open spec fn wf(&self) -> bool {
        &&& arena_tree(&self.arena)
        &&& stack_wf(&self.arena, self.frames@)
        &&& self.visited.wf()
        &&& match self.entering {
            Some(node) => {
                &&& self.result is None
                &&& node < self.arena.hot@.len()
                &&& self.arena.hot@[node as int].parent == (if self.frames@.len() == 0 {
                    NO_PARENT
                } else {
                    self.frames@.last().node
                })
            },
            None => {
                ||| self.result is Some && self.frames@.len() == 0
                ||| self.result is None && self.frames@.len() > 0 && self.frames@.last().next
                    < self.frames@.last().subdirs@.len()
            },
        }
    }

    pub open spec fn walk(&self) -> WalkView {
        WalkView { hot: self.arena.hot@, frames: self.frames@, result: self.result }
    }

    /// A walk that is about to enter its root.
    pub fn start(root: &Vec<u8>, sep: u8) -> (w: SerialScan)
        requires
            root@.len() <= u32::MAX,
        ensures
            w.wf(),
            w.entering == Some(0u32),
            w.frames@.len() == 0,
            w.result is None,
            w.visited@ == Set::<FsIdentity>::empty(),
            w.arena.hot@ == seq![
                (NodeHot {
                    parent: NO_PARENT,
                    name: ByteSymbol(0),
                    total_bytes: 0,
                    file_count: 0,
                    depth: 0,
                    _pad: 0,
                }),
            ],
            w.arena.cold@ == seq![blank_cold()],
            w.arena.names() == seq![root@],
            w.arena.byte_pool@ == root@,
            w.arena.sep == sep,
            w.arena.path(0) == root@,
    {
        let mut arena = PathlessArena::with_separator(65536, 4194304, sep);
        let sym = arena.intern(root.as_slice());
        let _ = arena.push_node(NO_PARENT, sym, 0);
        let w = SerialScan {
            arena,
            frames: Vec::new(),
            entering: Some(0),
            result: None,
            visited: VisitedSet::new(),
        };
        assert(w.arena.hot@.len() == 1);
        assert(w.arena.names() =~= seq![root@]);
        assert(w.arena.byte_pool@ =~= root@);
        assert(w.arena.cold@ =~= seq![blank_cold()]);
        assert(w.arena.hot@ =~= seq![w.arena.hot@[0]]);
        w
    }

    fn set_file_count(&mut self, node: u32, file_count: u32)
        requires
            arena_tree(&old(self).arena),
            node < old(self).arena.hot@.len(),
        ensures
            arena_tree(&final(self).arena),
            final(self).arena.hot@ == old(self).arena.hot@.update(
                node as int,
                (NodeHot { file_count, ..old(self).arena.hot@[node as int] }),
            ),
            final(self).arena.cold == old(self).arena.cold,
            final(self).arena.names() == old(self).arena.names(),
            final(self).arena.byte_pool == old(self).arena.byte_pool,
            final(self).arena.sep == old(self).arena.sep,
            final(self).frames == old(self).frames,
            final(self).entering == old(self).entering,
            final(self).result == old(self).result,
            final(self).visited == old(self).visited,
    {
        let shown = self.arena.hot[node as usize].total_bytes;
        self.arena.set_totals(node, shown, file_count);
    }

    fn set_bytes(&mut self, node: u32, total_bytes: u64)
        requires
            arena_tree(&old(self).arena),
            node < old(self).arena.hot@.len(),
        ensures
            arena_tree(&final(self).arena),
            final(self).arena.hot@ == old(self).arena.hot@.update(
                node as int,
                (NodeHot { total_bytes, ..old(self).arena.hot@[node as int] }),
            ),
            final(self).arena.cold == old(self).arena.cold,
            final(self).arena.names() == old(self).arena.names(),
            final(self).arena.byte_pool == old(self).arena.byte_pool,
            final(self).arena.sep == old(self).arena.sep,
            final(self).frames == old(self).frames,
            final(self).entering == old(self).entering,
            final(self).result == old(self).result,
            final(self).visited == old(self).visited,
    {
        let count = self.arena.hot[node as usize].file_count;
        self.arena.set_totals(node, total_bytes, count);
    }

    /// Directory `node` is done with and amounts to `t`.
    fn hand_up(&mut self, node: u32, t: Totals)
        requires
            arena_tree(&old(self).arena),
            stack_wf(&old(self).arena, old(self).frames@),
            node < old(self).arena.hot@.len(),
            old(self).entering is None,
            old(self).result is None,
            old(self).visited.wf(),
            room_for(old(self).frames@, t),
        ensures
            final(self).wf(),
            final(self).visited == old(self).visited,
            final(self).entering is None,
            final(self).walk() == handed_up(old(self).arena.hot@, old(self).frames@, node, t),
            final(self).arena.cold == old(self).arena.cold,
            final(self).arena.names() == old(self).arena.names(),
            final(self).arena.byte_pool == old(self).arena.byte_pool,
            final(self).arena.sep == old(self).arena.sep,
    {
        let ghost start = *self;
        let mut at: u32 = node;
        let mut sum: Totals = t;
        loop
            invariant
                start == *old(self),
                arena_tree(&self.arena),
                stack_wf(&self.arena, self.frames@),
                at < self.arena.hot@.len(),
                self.entering is None,
                self.result is None,
                self.visited == start.visited,
                start.visited.wf(),
                room_for(self.frames@, sum),
                self.arena.cold == start.arena.cold,
                self.arena.names() == start.arena.names(),
                self.arena.byte_pool == start.arena.byte_pool,
                self.arena.sep == start.arena.sep,
                handed_up(self.arena.hot@, self.frames@, at, sum) == handed_up(start.arena.hot@, start.frames@, node, t),
            decreases self.frames@.len(),
        {
            let ghost here = *self;
            match self.frames.pop() {
                None => {
                    self.set_bytes(at, sum.bytes);
                    self.result = Some(sum);
                    return;
                },
                Some(top) => {
                    proof {
                        lemma_stack_last(here.frames@);
                    }
                    let mut above = top;
                    above.sum = Totals {
                        bytes: above.sum.bytes + sum.bytes,
                        files: above.sum.files + sum.files,
                        errors: above.sum.errors + sum.errors,
                    };
                    self.set_bytes(at, sum.bytes);
                    assert forall|k: int| 0 <= k < self.frames@.len() implies self.frames@[k] == #[trigger] here.frames@[k] by {}
                    if above.next < above.subdirs.len() {
                        self.frames.push(above);
                        assert(self.frames@ =~= here.frames@.drop_last().push(above));
                        return;
                    }
                    at = above.node;
                    sum = above.sum;
                    let files_here = above.files_here;
                    self.set_file_count(at, files_here);
                }
            }
        }
    }
}

/// What entering a directory finds in it.
pub open spec fn enter_totals(outcome: EnterOutcome) -> Totals {
    match outcome {
        EnterOutcome::Cancelled => Totals { bytes: 0, files: 0, errors: 0 },
        EnterOutcome::Skipped { totals, .. } => Totals {
            bytes: totals.total_bytes,
            files: totals.file_count as u64,
            errors: 0,
        },
        EnterOutcome::Failed { errors, .. } => Totals { bytes: 0, files: 0, errors },
        EnterOutcome::Listed { listing, .. } => Totals {
            bytes: listing.file_bytes,
            files: listing.file_count as u64,
            errors: listing.error_count,
        },
    }
}

/// The directory that was just read.
pub open spec fn new_frame(node: u32, depth: u16, listing: DirListing) -> Frame {
    Frame {
        node,
        depth,
        subdirs: listing.subdirs,
        next: 0,
        sum: Totals {
            bytes: listing.file_bytes,
            files: listing.file_count as u64,
            errors: listing.error_count,
        },
        files_here: listing.file_count,
    }
}

/// The walk after entering directory `node`.
pub open spec fn entered(hot: Seq<NodeHot>, frames: Seq<Frame>, node: u32, outcome: EnterOutcome) -> WalkView {
    let t = enter_totals(outcome);
    let at = hot[node as int];
    match outcome {
        EnterOutcome::Skipped { totals, .. } => handed_up(
            hot.update(
                node as int,
                NodeHot { total_bytes: totals.total_bytes, file_count: totals.file_count, ..at },
            ),
            frames,
            node,
            t,
        ),
        EnterOutcome::Listed { listing, cancelled, .. } => {
            if cancelled {
                handed_up(
                    hot.update(node as int, NodeHot { file_count: listing.file_count, ..at }),
                    frames,
                    node,
                    t,
                )
            } else if listing.subdirs@.len() > 0 {
                WalkView { hot, frames: frames.push(new_frame(node, at.depth, listing)), result: None }
            } else {
                closed_frame(hot, frames, new_frame(node, at.depth, listing))
            }
        },
        _ => handed_up(hot, frames, node, t),
    }
}

/// The metadata of all nodes after entering directory `node`: it is known for every
/// directory that was looked at.
pub open spec fn entered_cold(cold: Seq<NodeCold>, node: u32, outcome: EnterOutcome) -> Seq<NodeCold> {
    match outcome {
        EnterOutcome::Cancelled => cold,
        EnterOutcome::Skipped { meta, .. } => cold.update(
            node as int,
            NodeCold { mtime: meta.mtime, identity: meta.identity },
        ),
        EnterOutcome::Failed { meta, .. } => cold.update(
            node as int,
            NodeCold { mtime: meta.mtime, identity: meta.identity },
        ),
        EnterOutcome::Listed { meta, .. } => cold.update(
            node as int,
            NodeCold { mtime: meta.mtime, identity: meta.identity },
        ),
    }
}

/// The walk after the next directory inside the current one was passed over, with
/// `errors` more errors.
pub open spec fn passed_over(hot: Seq<NodeHot>, frames: Seq<Frame>, errors: int) -> WalkView {
    let top = frames.last();
    let moved = Frame {
        next: (top.next + 1) as usize,
        sum: Totals { errors: (top.sum.errors + errors) as u32, ..top.sum },
        ..top
    };
    if moved.next < moved.subdirs@.len() {
        WalkView { hot, frames: frames.drop_last().push(moved), result: None }
    } else {
        closed_frame(hot, frames.drop_last(), moved)
    }
}

/// The names and the pool with one more name, which is appended where it is new.
pub open spec fn grown_by(before: &PathlessArena, after: &PathlessArena, name: Seq<u8>) -> bool {
    &&& after.names() == with_names(before.names(), seq![name])
    &&& after.byte_pool@.len() == before.byte_pool@.len() + new_bytes(before.names(), seq![name])
}

/// What the walk asks for next.
pub enum WalkAction {
    /// Enter this directory.
    Enter { node: u32 },
    /// Probe this entry of the listing of this directory.
    Probe { node: u32, index: usize },
    /// The walk is over.
    Done { totals: Totals },
}

impl SerialScan {
    /// The walk stood before directory `before.entering` and has entered it.
    pub open spec fn after_enter(&self, before: &SerialScan, outcome: EnterOutcome) -> bool {
        &&& self.entering is None
        &&& self.walk() == entered(before.arena.hot@, before.frames@, before.entering->0, outcome)
        &&& self.arena.cold@ == entered_cold(before.arena.cold@, before.entering->0, outcome)
        &&& self.arena.names() == before.arena.names()
        &&& self.arena.byte_pool == before.arena.byte_pool
        &&& self.arena.sep == before.arena.sep
    }

    /// The walk has probed the next directory inside the current one. One that could
    /// be opened becomes a new node and is entered next.
    pub open spec fn after_probe(&self, before: &SerialScan, outcome: ProbeOutcome) -> bool {
        &&& match outcome {
            ProbeOutcome::Cancelled => self.entering is None && self.walk() == closed_frame(
                before.arena.hot@,
                before.frames@.drop_last(),
                before.frames@.last(),
            ),
            ProbeOutcome::OtherDevice => self.entering is None && self.walk() == passed_over(
                before.arena.hot@,
                before.frames@,
                0,
            ),
            ProbeOutcome::Unopenable => self.entering is None && self.walk() == passed_over(
                before.arena.hot@,
                before.frames@,
                1,
            ),
            ProbeOutcome::Opened => {
                let top = before.frames@.last();
                let n = before.arena.hot@.len() as int;
                &&& self.entering == Some(n as u32)
                &&& self.result is None
                &&& self.frames@ == before.frames@.drop_last().push(
                    (Frame { next: (top.next + 1) as usize, ..top }),
                )
                &&& self.arena.hot@.len() == n + 1
                &&& self.arena.hot@.take(n) == before.arena.hot@
                &&& self.arena.hot@[n].parent == top.node
                &&& self.arena.hot@[n].depth == top.depth + 1
                &&& self.arena.hot@[n].total_bytes == 0
                &&& self.arena.hot@[n].file_count == 0
                &&& self.arena.names()[self.arena.hot@[n].name.0 as int]
                    == top.subdirs@[top.next as int].name@
                &&& before.arena.names().is_prefix_of(self.arena.names())
                &&& self.arena.cold@ == before.arena.cold@.push(blank_cold())
                &&& grown_by(&before.arena, &self.arena, top.subdirs@[top.next as int].name@)
            },
        }
        &&& self.arena.sep == before.arena.sep
        &&& !(outcome is Opened) ==> self.arena.cold == before.arena.cold && self.arena.names()
            == before.arena.names() && self.arena.byte_pool == before.arena.byte_pool
    }

    /// What the walk asks for next.
    pub fn action(&self) -> (a: WalkAction)
        requires
            self.wf(),
        ensures
            a == (match self.entering {
                Some(node) => WalkAction::Enter { node },
                None => match self.result {
                    Some(totals) => WalkAction::Done { totals },
                    None => WalkAction::Probe {
                        node: self.frames@.last().node,
                        index: self.frames@.last().next,
                    },
                },
            }),
    {
        match self.entering {
            Some(node) => WalkAction::Enter { node },
            None => match self.result {
                Some(totals) => WalkAction::Done { totals },
                None => {
                    let top = &self.frames[self.frames.len() - 1];
                    WalkAction::Probe { node: top.node, index: top.next }
                },
            },
        }
    }

    /// Reads the entries of a directory. The bytes of a file count at the first of its
    /// names that the walk comes to.
    pub fn read(
        &mut self,
        entries: Vec<RawEntry>,
        skip_names: &Vec<Vec<u8>>,
        max_depth: Option<u16>,
        depth: u16,
    ) -> (listing: DirListing)
        requires
            old(self).wf(),
            total(entry_bytes(entries@, skip_names@, old(self).visited@)) <= u64::MAX,
            total(entry_files(entries@, skip_names@)) <= u32::MAX,
            total(entry_errors(entries@)) <= u32::MAX,
        ensures
            final(self).wf(),
            final(self).arena == old(self).arena,
            final(self).frames == old(self).frames,
            final(self).entering == old(self).entering,
            final(self).result == old(self).result,
            final(self).visited@ == old(self).visited@.union(file_ids(entries@, skip_names@)),
            listing.file_bytes == total(entry_bytes(entries@, skip_names@, old(self).visited@)),
            listing.file_count == total(entry_files(entries@, skip_names@)),
            listing.error_count == total(entry_errors(entries@)),
            listed_dirs(listing.subdirs@) == entry_dirs(entries@, skip_names@, max_depth, depth),
            is_listing(entries@, skip_names@, max_depth, depth, old(self).visited@, listing),
    {
        read_dir_entries(entries, skip_names, max_depth, depth, &mut self.visited)
    }

    /// Goes on after the directory to enter was looked at.
    pub fn enter(&mut self, outcome: EnterOutcome)
        requires
            old(self).wf(),
            old(self).entering is Some,
            room_for(old(self).frames@, enter_totals(outcome)),
        ensures
            final(self).wf(),
            final(self).after_enter(old(self), outcome),
            final(self).visited == old(self).visited,
    {
        let node = match self.entering {
            Some(node) => node,
            None => 0,
        };
        let ghost start = *self;
        self.entering = None;
        match outcome {
            EnterOutcome::Cancelled => {
                self.hand_up(node, Totals { bytes: 0, files: 0, errors: 0 });
            },
            EnterOutcome::Skipped { meta, totals } => {
                self.arena.set_meta(node, meta.identity, meta.mtime);
                self.arena.set_totals(node, totals.total_bytes, totals.file_count);
                self.hand_up(
                    node,
                    Totals { bytes: totals.total_bytes, files: totals.file_count as u64, errors: 0 },
                );
            },
            EnterOutcome::Failed { meta, errors } => {
                self.arena.set_meta(node, meta.identity, meta.mtime);
                self.hand_up(node, Totals { bytes: 0, files: 0, errors });
            },
            EnterOutcome::Listed { meta, listing, cancelled } => {
                self.arena.set_meta(node, meta.identity, meta.mtime);
                let sum = Totals {
                    bytes: listing.file_bytes,
                    files: listing.file_count as u64,
                    errors: listing.error_count,
                };
                let file_count = listing.file_count;
                if !cancelled && listing.subdirs.len() > 0 {
                    let depth = self.arena.hot[node as usize].depth;
                    let ghost before = self.frames@;
                    self.frames.push(
                        Frame {
                            node,
                            depth,
                            subdirs: listing.subdirs,
                            next: 0,
                            sum,
                            files_here: file_count,
                        },
                    );
                    assert forall|k: int| 0 <= k < before.len() implies self.frames@[k] == #[trigger] before[k] by {}
                } else {
                    self.set_file_count(node, file_count);
                    self.hand_up(node, sum);
                }
            },
        }
    }

    /// Takes the current directory off the stack.
    fn pop_frame(&mut self) -> (top: Frame)
        requires
            arena_tree(&old(self).arena),
            stack_wf(&old(self).arena, old(self).frames@),
            old(self).frames@.len() > 0,
        ensures
            top == old(self).frames@.last(),
            final(self).frames@ == old(self).frames@.drop_last(),
            final(self).arena == old(self).arena,
            final(self).entering == old(self).entering,
            final(self).result == old(self).result,
            final(self).visited == old(self).visited,
            stack_wf(&final(self).arena, final(self).frames@),
    {
        let ghost start = *self;
        let n = self.frames.len();
        let top = self.frames.swap_remove(n - 1);
        assert(self.frames@ =~= start.frames@.drop_last());
        assert forall|k: int| 0 <= k < self.frames@.len() implies self.frames@[k] == #[trigger] start.frames@[k] by {}
        top
    }

    /// Leaves the current directory before its end.
    fn leave(&mut self)
        requires
            old(self).wf(),
            old(self).entering is None,
            old(self).result is None,
            room_for(old(self).frames@, (Totals { bytes: 0, files: 0, errors: 0 })),
        ensures
            final(self).wf(),
            final(self).visited == old(self).visited,
            final(self).entering is None,
            final(self).walk() == closed_frame(
                old(self).arena.hot@,
                old(self).frames@.drop_last(),
                old(self).frames@.last(),
            ),
            final(self).arena.cold == old(self).arena.cold,
            final(self).arena.byte_pool == old(self).arena.byte_pool,
            final(self).arena.sep == old(self).arena.sep,
            final(self).arena.names() == old(self).arena.names(),
    {
        proof {
            lemma_stack_last(self.frames@);
        }
        let top = self.pop_frame();
        self.set_file_count(top.node, top.files_here);
        self.hand_up(top.node, top.sum);
    }

    /// Goes on behind the next directory inside the current one.
    fn pass_over(&mut self, errors: u32)
        requires
            old(self).wf(),
            old(self).entering is None,
            old(self).result is None,
            room_for(old(self).frames@, (Totals { bytes: 0, files: 0, errors })),
        ensures
            final(self).wf(),
            final(self).visited == old(self).visited,
            final(self).entering is None,
            final(self).walk() == passed_over(old(self).arena.hot@, old(self).frames@, errors as int),
            final(self).arena.cold == old(self).arena.cold,
            final(self).arena.byte_pool == old(self).arena.byte_pool,
            final(self).arena.sep == old(self).arena.sep,
            final(self).arena.names() == old(self).arena.names(),
    {
        proof {
            lemma_stack_last(self.frames@);
        }
        let ghost start = *self;
        let mut top = self.pop_frame();
        top.sum = Totals {
            bytes: top.sum.bytes,
            files: top.sum.files,
            errors: top.sum.errors + errors,
        };
        let count = top.subdirs.len();
        top.next = top.next + 1;
        if top.next < count {
            let ghost rest = self.frames@;
            self.frames.push(top);
            assert forall|k: int| 0 <= k < rest.len() implies self.frames@[k] == #[trigger] rest[k] by {}
            assert(self.frames@.last().node == start.frames@.last().node);
        } else {
            self.set_file_count(top.node, top.files_here);
            self.hand_up(top.node, top.sum);
        }
    }

    /// Adds a directory below `node` to the arena.
    fn add_child(&mut self, node: u32, name: &Vec<u8>) -> (child: u32)
        requires
            arena_tree(&old(self).arena),
            node < old(self).arena.hot@.len(),
            old(self).arena.hot@[node as int].depth < u16::MAX,
            old(self).arena.hot@.len() < u32::MAX,
            old(self).arena.room_for_name(name@),
        ensures
            arena_tree(&final(self).arena),
            final(self).arena.sep == old(self).arena.sep,
            child == old(self).arena.hot@.len(),
            final(self).arena.hot@.len() == child + 1,
            final(self).arena.hot@.take(child as int) == old(self).arena.hot@,
            final(self).arena.hot@[child as int].parent == node,
            final(self).arena.hot@[child as int].depth == old(self).arena.hot@[node as int].depth + 1,
            final(self).arena.hot@[child as int].total_bytes == 0,
            final(self).arena.hot@[child as int].file_count == 0,
            final(self).arena.names()[final(self).arena.hot@[child as int].name.0 as int] == name@,
            old(self).arena.names().is_prefix_of(final(self).arena.names()),
            final(self).arena.cold@ == old(self).arena.cold@.push(blank_cold()),
            grown_by(&old(self).arena, &final(self).arena, name@),
            final(self).frames == old(self).frames,
            final(self).entering == old(self).entering,
            final(self).result == old(self).result,
            final(self).visited == old(self).visited,
    {
        let ghost start = *self;
        let depth = self.arena.hot[node as usize].depth;
        let sym = self.arena.intern(name.as_slice());
        let child = self.arena.push_node(node, sym, depth + 1);
        assert(self.arena.hot@.take(child as int) =~= start.arena.hot@);
        proof {
            let names = start.arena.names();
            assert(seq![name@].drop_last() =~= Seq::empty());
            assert(with_names(names, seq![name@].drop_last()) == names);
            assert(new_bytes(names, seq![name@].drop_last()) == 0);
        }
        assert forall|i: int| 0 <= i < start.arena.hot@.len() implies self.arena.hot@[i] == #[trigger] start.arena.hot@[i] by {}
        child
    }

    /// Enters the next directory inside the current one in the arena.
    fn descend(&mut self)
        requires
            old(self).wf(),
            old(self).entering is None,
            old(self).result is None,
            old(self).frames@.last().depth < u16::MAX,
            old(self).arena.hot@.len() < u32::MAX,
            old(self).arena.room_for_name(
                old(self).frames@.last().subdirs@[old(self).frames@.last().next as int].name@,
            ),
        ensures
            final(self).wf(),
            final(self).visited == old(self).visited,
            final(self).arena.sep == old(self).arena.sep,
            ({
                let top = old(self).frames@.last();
                let n = old(self).arena.hot@.len() as int;
                &&& final(self).entering == Some(n as u32)
                &&& final(self).result is None
                &&& final(self).frames@ == old(self).frames@.drop_last().push(
                    (Frame { next: (top.next + 1) as usize, ..top }),
                )
                &&& final(self).arena.hot@.len() == n + 1
                &&& final(self).arena.hot@.take(n) == old(self).arena.hot@
                &&& final(self).arena.hot@[n].parent == top.node
                &&& final(self).arena.hot@[n].depth == top.depth + 1
                &&& final(self).arena.hot@[n].total_bytes == 0
                &&& final(self).arena.hot@[n].file_count == 0
                &&& final(self).arena.names()[final(self).arena.hot@[n].name.0 as int]
                    == top.subdirs@[top.next as int].name@
                &&& old(self).arena.names().is_prefix_of(final(self).arena.names())
                &&& final(self).arena.cold@ == old(self).arena.cold@.push(blank_cold())
                &&& grown_by(&old(self).arena, &final(self).arena, top.subdirs@[top.next as int].name@)
            }),
    {
        let ghost start = *self;
        let mut top = self.pop_frame();
        let child = self.add_child(top.node, &top.subdirs[top.next].name);
        let count = top.subdirs.len();
        top.next = top.next + 1;
        self.frames.push(top);
        self.entering = Some(child);
        assert forall|i: int| 0 <= i < start.arena.hot@.len() implies self.arena.hot@[i] == #[trigger] start.arena.hot@[i] by {
            assert(self.arena.hot@.take(start.arena.hot@.len() as int)[i] == self.arena.hot@[i]);
        }
        assert forall|k: int| 0 <= k < self.frames@.len() implies ({
            &&& (#[trigger] self.frames@[k]).node < self.arena.hot@.len()
            &&& self.frames@[k].depth == self.arena.hot@[self.frames@[k].node as int].depth
            &&& self.frames@[k].next <= self.frames@[k].subdirs@.len()
            &&& self.arena.hot@[self.frames@[k].node as int].parent == (if k == 0 {
                NO_PARENT
            } else {
                self.frames@[k - 1].node
            })
        }) by {
            assert(self.frames@[k].node == start.frames@[k].node);
            if k > 0 {
                assert(self.frames@[k - 1].node == start.frames@[k - 1].node);
            }
        }
    }

    /// Goes on after the next directory inside the current one was probed.
    pub fn probe(&mut self, outcome: ProbeOutcome)
        requires
            old(self).wf(),
            old(self).entering is None,
            old(self).result is None,
            outcome is Unopenable ==> total(stack_errors(old(self).frames@)) < u32::MAX,
            room_for(old(self).frames@, (Totals { bytes: 0, files: 0, errors: 0 })),
            outcome is Opened ==> {
                &&& old(self).frames@.last().depth < u16::MAX
                &&& old(self).arena.hot@.len() < u32::MAX
                &&& old(self).arena.room_for_name(
                    old(self).frames@.last().subdirs@[old(self).frames@.last().next as int].name@,
                )
            },
        ensures
            final(self).wf(),
            final(self).after_probe(old(self), outcome),
            final(self).visited == old(self).visited,
    {
        match outcome {
            ProbeOutcome::Cancelled => {
                self.leave();
            },
            ProbeOutcome::OtherDevice => {
                self.pass_over(0);
            },
            ProbeOutcome::Unopenable => {
                self.pass_over(1);
            },
            ProbeOutcome::Opened => {
                self.descend();
            },
        }
    }

    /// The result of a walk that is over.
    pub fn into_result(self, scan_duration_ms: u64) -> (r: Option<ScanResult>)
        ensures
            match r {
                Some(r) => {
                    &&& self.result == Some(
                        (Totals { bytes: r.total_bytes, files: r.total_files, errors: r.error_count }),
                    )
                    &&& r.arena == self.arena
                    &&& r.scan_duration_ms == scan_duration_ms
                },
                None => self.result is None,
            },
    {
        match self.result {
            None => None,
            Some(t) => Some(
                ScanResult {
                    arena: self.arena,
                    total_files: t.files,
                    total_bytes: t.bytes,
                    scan_duration_ms,
                    error_count: t.errors,
                },
            ),
        }
    }
}

/// All that a walk has found so far.
pub open spec fn found(w: WalkView) -> (int, int, int) {
    match w.result {
        Some(t) => (t.bytes as int, t.files as int, t.errors as int),
        None => (
            total(stack_bytes(w.frames)),
            total(stack_files(w.frames)),
            total(stack_errors(w.frames)),
        ),
    }
}

proof fn lemma_found_handed_up(hot: Seq<NodeHot>, frames: Seq<Frame>, node: u32, t: Totals)
    requires
        room_for(frames, t),
    ensures
        found(handed_up(hot, frames, node, t)) == (
            total(stack_bytes(frames)) + t.bytes,
            total(stack_files(frames)) + t.files,
            total(stack_errors(frames)) + t.errors,
        ),
    decreases frames.len(),
{
    if frames.len() > 0 {
        lemma_stack_last(frames);
        let shown = hot.update(node as int, NodeHot { total_bytes: t.bytes, ..hot[node as int] });
        let above = Frame { sum: plus(frames.last().sum, t), ..frames.last() };
        let up = frames.drop_last().push(above);
        lemma_stack_last(up);
        assert(up.drop_last() =~= frames.drop_last());
        if above.next >= above.subdirs@.len() {
            lemma_found_handed_up(
                shown.update(above.node as int, NodeHot { file_count: above.files_here, ..shown[above.node as int] }),
                frames.drop_last(),
                above.node,
                above.sum,
            );
        }
    }
}

/// Entering a directory adds what it brought to what the walk has found, and the
/// result of a walk is all that it found.
pub proof fn law_enter_adds(hot: Seq<NodeHot>, frames: Seq<Frame>, node: u32, outcome: EnterOutcome)
    requires
        room_for(frames, enter_totals(outcome)),
    ensures
        found(entered(hot, frames, node, outcome)) == (
            total(stack_bytes(frames)) + enter_totals(outcome).bytes,
            total(stack_files(frames)) + enter_totals(outcome).files,
            total(stack_errors(frames)) + enter_totals(outcome).errors,
        ),
{
    let t = enter_totals(outcome);
    let at = hot[node as int];
    match outcome {
        EnterOutcome::Skipped { totals, .. } => {
            lemma_found_handed_up(
                hot.update(
                    node as int,
                    NodeHot { total_bytes: totals.total_bytes, file_count: totals.file_count, ..at },
                ),
                frames,
                node,
                t,
            );
        },
        EnterOutcome::Listed { listing, cancelled, .. } => {
            let f = new_frame(node, at.depth, listing);
            lemma_stack_last(frames.push(f));
            assert(frames.push(f).drop_last() =~= frames);
            lemma_found_handed_up(
                hot.update(node as int, NodeHot { file_count: listing.file_count, ..at }),
                frames,
                node,
                t,
            );
        },
        _ => {
            lemma_found_handed_up(hot, frames, node, t);
        },
    }
}

/// Passing over a directory, or leaving one early, loses nothing that was found.
pub proof fn law_probe_keeps(hot: Seq<NodeHot>, frames: Seq<Frame>, errors: int)
    requires
        frames.len() > 0,
        0 <= errors,
        room_for(frames, (Totals { bytes: 0, files: 0, errors: 0 })),
        total(stack_errors(frames)) + errors <= u32::MAX,
    ensures
        found(passed_over(hot, frames, errors)) == (
            total(stack_bytes(frames)),
            total(stack_files(frames)),
            total(stack_errors(frames)) + errors,
        ),
        found(closed_frame(hot, frames.drop_last(), frames.last())) == (
            total(stack_bytes(frames)),
            total(stack_files(frames)),
            total(stack_errors(frames)),
        ),
{
    let top = frames.last();
    lemma_stack_last(frames);
    let moved = Frame {
        next: (top.next + 1) as usize,
        sum: Totals { errors: (top.sum.errors + errors) as u32, ..top.sum },
        ..top
    };
    let up = frames.drop_last().push(moved);
    lemma_stack_last(up);
    assert(up.drop_last() =~= frames.drop_last());
    let h = hot.update(top.node as int, NodeHot { file_count: top.files_here, ..hot[top.node as int] });
    lemma_found_handed_up(h, frames.drop_last(), top.node, moved.sum);
    lemma_found_handed_up(h, frames.drop_last(), top.node, top.sum);
}

/// Whatever becomes of directories further up, a node shows the number of files that it
/// showed before or, where it is left, that of its own listing. The number of files in
/// deeper directories is never shown for it.
pub proof fn law_own_files(hot: Seq<NodeHot>, frames: Seq<Frame>, node: u32, t: Totals, i: int)
    requires
        node < hot.len(),
        forall|k: int| 0 <= k < frames.len() ==> (#[trigger] frames[k]).node < hot.len(),
        0 <= i < hot.len(),
    ensures
        handed_up(hot, frames, node, t).hot.len() == hot.len(),
        handed_up(hot, frames, node, t).hot[i].file_count == hot[i].file_count || exists|k: int|
            0 <= k < frames.len() && (#[trigger] frames[k]).node == i && handed_up(hot, frames, node, t).hot[i].file_count
                == frames[k].files_here,
    decreases frames.len(),
{
    if frames.len() > 0 {
        let m = frames.len() - 1;
        let shown = hot.update(node as int, NodeHot { total_bytes: t.bytes, ..hot[node as int] });
        let above = Frame { sum: plus(frames.last().sum, t), ..frames.last() };
        let below = frames.drop_last();
        assert(frames[m].node < hot.len());
        if above.next >= above.subdirs@.len() {
            let h = shown.update(
                above.node as int,
                NodeHot { file_count: above.files_here, ..shown[above.node as int] },
            );
            assert forall|k: int| 0 <= k < below.len() implies (#[trigger] below[k]).node < h.len() by {
                assert(below[k] == frames[k]);
            }
            law_own_files(h, below, above.node, above.sum, i);
            let w = handed_up(h, below, above.node, above.sum);
            if w.hot[i].file_count != h[i].file_count {
                let k = choose|k: int|
                    0 <= k < below.len() && (#[trigger] below[k]).node == i && w.hot[i].file_count == below[k].files_here;
                assert(frames[k] == below[k]);
            } else if above.node == i {
                assert(frames[m].node == i);
            }
        }
    }
}

} // verus!
