//! What every directory shows when the serial walk is over.

use crate::arena::{NodeHot, NO_PARENT};
use crate::serial::{
    closed_frame, entered, handed_up, new_frame, plus, stack_bytes, EnterOutcome, Frame,
    ProbeOutcome, SerialScan, Totals,
};
use crate::sums::{lemma_total_nonneg, lemma_total_push, lemma_total_update, lemma_total_zero, total};
use vstd::prelude::*;

verus! {

/// The bytes that the directories directly inside a directory show.
pub open spec fn shown_inside(hot: Seq<NodeHot>, i: int) -> Seq<int> {
    Seq::new(
        hot.len(),
        |c: int|
            if c > 0 && hot[c].parent == i {
                hot[c].total_bytes as int
            } else {
                0
            },
    )
}

/// The directory is being walked.
pub open spec fn is_held(frames: Seq<Frame>, i: int) -> bool {
    exists|k: int| 0 <= k < frames.len() && (#[trigger] frames[k]).node == i
}

/// A directory that is done with shows the bytes found in it and those that the directories
/// inside show, and the files found in it. One that is being walked shows no bytes yet, and
/// holds as much.
pub open spec fn is_accounted(hot: Seq<NodeHot>, bytes: Seq<int>, files: Seq<int>, frames: Seq<Frame>, i: int) -> bool {
    if is_held(frames, i) {
        &&& hot[i].total_bytes == 0
        &&& forall|k: int|
            0 <= k < frames.len() && (#[trigger] frames[k]).node == i ==> frames[k].sum.bytes == bytes[i] + total(
                shown_inside(hot, i),
            ) && frames[k].files_here == files[i]
    } else {
        &&& hot[i].total_bytes == bytes[i] + total(shown_inside(hot, i))
        &&& hot[i].file_count == files[i]
    }
}

/// All directories are accounted for; one that is about to be entered shows nothing, and
/// nothing was found in it or inside.
pub open spec fn adds_up(w: &SerialScan, bytes: Seq<int>, files: Seq<int>) -> bool {
    let hot = w.arena.hot@;
    &&& bytes.len() == hot.len()
    &&& files.len() == hot.len()
    &&& forall|i: int| 0 <= i < hot.len() ==> #[trigger] is_accounted(hot, bytes, files, w.frames@, i)
    &&& w.entering is Some ==> {
        let i = w.entering->0 as int;
        &&& !is_held(w.frames@, i)
        &&& bytes[i] == 0
        &&& files[i] == 0
        &&& hot[i].total_bytes == 0
        &&& forall|c: int| 0 < c < hot.len() ==> (#[trigger] hot[c]).parent != i
    }
}

spec fn is_tree(hot: Seq<NodeHot>) -> bool {
    &&& 0 < hot.len() <= u32::MAX
    &&& hot[0].parent == NO_PARENT
    &&& forall|i: int| 0 < i < hot.len() ==> (#[trigger] hot[i]).parent < i
}

/// Directory `k` of the stack lies directly inside the one before it.
spec fn is_link(hot: Seq<NodeHot>, frames: Seq<Frame>, k: int) -> bool {
    &&& frames[k].node < hot.len()
    &&& hot[frames[k].node as int].parent == (if k == 0 {
        NO_PARENT
    } else {
        frames[k - 1].node
    })
}

spec fn is_chain(hot: Seq<NodeHot>, frames: Seq<Frame>) -> bool {
    forall|k: int| 0 <= k < frames.len() ==> #[trigger] is_link(hot, frames, k)
}

/// The directories of the stack stand before those further down.
proof fn lemma_chain_up(hot: Seq<NodeHot>, frames: Seq<Frame>, i: int, j: int)
    requires
        is_tree(hot),
        is_chain(hot, frames),
        0 <= i < j < frames.len(),
    ensures
        frames[i].node < frames[j].node,
    decreases j - i,
{
    assert(is_link(hot, frames, j));
    assert(is_link(hot, frames, j - 1));
    assert(frames[j].node > 0) by {
        if frames[j].node == 0 {
            assert(hot[0].parent == NO_PARENT);
        }
    }
    assert(hot[frames[j].node as int].parent < frames[j].node);
    if i < j - 1 {
        lemma_chain_up(hot, frames, i, j - 1);
    }
}

/// What a directory shows counts for the one it lies in and for no other.
proof fn lemma_shown(hot: Seq<NodeHot>, node: int, total_bytes: u64, i: int)
    requires
        is_tree(hot),
        0 <= node < hot.len(),
        0 <= i < hot.len(),
    ensures
        total(shown_inside(hot.update(node, (NodeHot { total_bytes, ..hot[node] })), i)) == total(shown_inside(hot, i)) + (
        if node > 0 && hot[node].parent == i {
            total_bytes - hot[node].total_bytes
        } else {
            0
        }),
{
    let after = hot.update(node, NodeHot { total_bytes, ..hot[node] });
    let a = shown_inside(hot, i);
    let b = shown_inside(after, i);
    if node > 0 && hot[node].parent == i {
        assert(b =~= a.update(node, total_bytes as int));
        lemma_total_update(a, node, total_bytes as int);
    } else {
        assert(b =~= a);
    }
}

/// Only the number of files of a directory changes.
proof fn lemma_counted(hot: Seq<NodeHot>, node: int, file_count: u32, i: int)
    requires
        0 <= node < hot.len(),
    ensures
        shown_inside(hot.update(node, (NodeHot { file_count, ..hot[node] })), i) == shown_inside(hot, i),
{
    let after = hot.update(node, NodeHot { file_count, ..hot[node] });
    assert(shown_inside(after, i) =~= shown_inside(hot, i));
}

/// The nodes, as if one of them showed no bytes.
spec fn blank_at(hot: Seq<NodeHot>, node: int) -> Seq<NodeHot> {
    hot.update(node, NodeHot { total_bytes: 0, ..hot[node] })
}

/// All directories but `node` are accounted for, as if that one showed nothing.
spec fn others(hot: Seq<NodeHot>, bytes: Seq<int>, files: Seq<int>, frames: Seq<Frame>, node: int) -> bool {
    forall|i: int|
        0 <= i < hot.len() && i != node ==> #[trigger] is_accounted(
            blank_at(hot, node),
            bytes,
            files,
            frames,
            i,
        )
}

proof fn lemma_up(hot: Seq<NodeHot>, bytes: Seq<int>, files: Seq<int>, frames: Seq<Frame>, node: u32, t: Totals)
    requires
        is_tree(hot),
        is_chain(hot, frames),
        bytes.len() == hot.len(),
        files.len() == hot.len(),
        node < hot.len(),
        hot[node as int].parent == (if frames.len() == 0 {
            NO_PARENT
        } else {
            frames.last().node
        }),
        total(stack_bytes(frames)) + t.bytes <= u64::MAX,
        t.bytes == bytes[node as int] + total(shown_inside(hot, node as int)),
        hot[node as int].file_count == files[node as int],
        others(hot, bytes, files, frames, node as int),
    ensures
        ({
            let w = handed_up(hot, frames, node, t);
            &&& w.hot.len() == hot.len()
            &&& forall|i: int| 0 <= i < hot.len() ==> #[trigger] is_accounted(w.hot, bytes, files, w.frames, i)
        }),
    decreases frames.len(),
{
    let at = node as int;
    let bare = blank_at(hot, at);
    let shown = hot.update(at, NodeHot { total_bytes: t.bytes, ..hot[at] });
    assert(shown =~= bare.update(at, NodeHot { total_bytes: t.bytes, ..bare[at] }));
    assert forall|i: int| 0 <= i < hot.len() implies #[trigger] total(shown_inside(shown, i)) == total(
        shown_inside(bare, i),
    ) + (if at > 0 && hot[at].parent == i {
        t.bytes as int
    } else {
        0
    }) by {
        lemma_shown(bare, at, t.bytes, i);
    }
    assert(total(shown_inside(shown, at)) == total(shown_inside(hot, at))) by {
        lemma_shown(hot, at, t.bytes, at);
    }
    if frames.len() == 0 {
        assert(at == 0) by {
            if at > 0 {
                assert(hot[at].parent < at);
            }
        }
        assert forall|i: int| 0 <= i < hot.len() implies #[trigger] is_accounted(shown, bytes, files, frames, i) by {
            if i != at {
                assert(is_accounted(bare, bytes, files, frames, i));
                assert(total(shown_inside(shown, i)) == total(shown_inside(bare, i)));
            }
        }
    } else {
        let m = frames.len() - 1;
        let last = frames[m];
        assert(is_link(hot, frames, m));
        let above = Frame { sum: plus(last.sum, t), ..last };
        let below = frames.drop_last();
        let p = last.node as int;
        assert(at > 0) by {
            if at == 0 {
                assert(hot[0].parent == NO_PARENT);
            }
        }
        assert(p < at);
        assert forall|k: int| 0 <= k < m implies (#[trigger] frames[k]).node < p by {
            lemma_chain_up(hot, frames, k, m);
        }
        assert(stack_bytes(frames).drop_last() =~= stack_bytes(below));
        lemma_total_nonneg(stack_bytes(below));
        assert(above.sum.bytes == last.sum.bytes + t.bytes);
        assert(is_accounted(bare, bytes, files, frames, p));
        assert(is_held(frames, p));
        assert(total(shown_inside(shown, p)) == total(shown_inside(bare, p)) + t.bytes);
        if above.next < above.subdirs@.len() {
            let fs = below.push(above);
            assert forall|i: int| 0 <= i < hot.len() implies #[trigger] is_accounted(shown, bytes, files, fs, i) by {
                assert(is_held(fs, i) == is_held(frames, i)) by {
                    if is_held(frames, i) {
                        let k = choose|k: int| 0 <= k < frames.len() && (#[trigger] frames[k]).node == i;
                        assert(fs[k].node == i);
                    }
                    if is_held(fs, i) {
                        let k = choose|k: int| 0 <= k < fs.len() && (#[trigger] fs[k]).node == i;
                        assert(frames[k].node == i);
                    }
                }
                if i == at {
                    assert(!is_held(frames, i)) by {
                        if is_held(frames, i) {
                            let k = choose|k: int| 0 <= k < frames.len() && (#[trigger] frames[k]).node == i;
                            assert(k < m ==> frames[k].node < p);
                        }
                    }
                } else {
                    assert(is_accounted(bare, bytes, files, frames, i));
                    if is_held(frames, i) {
                        assert forall|k: int| 0 <= k < fs.len() && (#[trigger] fs[k]).node == i implies fs[k].sum.bytes
                            == bytes[i] + total(shown_inside(shown, i)) && fs[k].files_here == files[i] by {
                            assert(frames[k].node == i);
                            if k < m {
                                assert(fs[k] == frames[k]);
                                assert(i < p);
                            }
                        }
                    }
                }
            }
        } else {
            let next = shown.update(p, NodeHot { file_count: above.files_here, ..shown[p] });
            lemma_counted(shown, p, above.files_here, p);
            assert(shown[p].total_bytes == 0);
            assert(next =~= blank_at(next, p));
            assert forall|k: int| 0 <= k < below.len() implies #[trigger] is_link(next, below, k) by {
                assert(is_link(hot, frames, k));
                assert(below[k] == frames[k]);
                if k > 0 {
                    assert(below[k - 1] == frames[k - 1]);
                }
            }
            assert forall|i: int| 0 < i < next.len() implies (#[trigger] next[i]).parent < i by {
                assert(hot[i].parent < i);
            }
            if m > 0 {
                assert(below.last() == frames[m - 1]);
            }
            assert forall|i: int| 0 <= i < next.len() && i != p implies #[trigger] is_accounted(
                blank_at(next, p),
                bytes,
                files,
                below,
                i,
            ) by {
                lemma_counted(shown, p, above.files_here, i);
                assert(is_held(below, i) == (is_held(frames, i))) by {
                    if is_held(frames, i) {
                        let k = choose|k: int| 0 <= k < frames.len() && (#[trigger] frames[k]).node == i;
                        assert(below[k].node == i);
                    }
                    if is_held(below, i) {
                        let k = choose|k: int| 0 <= k < below.len() && (#[trigger] below[k]).node == i;
                        assert(frames[k].node == i);
                    }
                }
                if i == at {
                    assert(!is_held(below, i)) by {
                        if is_held(below, i) {
                            let k = choose|k: int| 0 <= k < below.len() && (#[trigger] below[k]).node == i;
                            assert(frames[k].node < p);
                        }
                    }
                } else {
                    assert(is_accounted(bare, bytes, files, frames, i));
                    if is_held(below, i) {
                        assert forall|k: int| 0 <= k < below.len() && (#[trigger] below[k]).node
                            == i implies below[k].sum.bytes == bytes[i] + total(shown_inside(next, i))
                            && below[k].files_here == files[i] by {
                            assert(frames[k].node == i);
                        }
                    }
                }
            }
            lemma_up(next, bytes, files, below, above.node, above.sum);
        }
    }
}

/// A walk keeps its nodes in a tree and its stack in a chain.
proof fn lemma_shape(w: &SerialScan)
    requires
        w.wf(),
    ensures
        is_tree(w.arena.hot@),
        is_chain(w.arena.hot@, w.frames@),
{
    let hot = w.arena.hot@;
    let frames = w.frames@;
    assert forall|i: int| 0 < i < hot.len() implies (#[trigger] hot[i]).parent < i by {}
    assert forall|k: int| 0 <= k < frames.len() implies #[trigger] is_link(hot, frames, k) by {
        assert(frames[k].node < hot.len());
    }
}

proof fn lemma_nothing_inside(hot: Seq<NodeHot>, i: int)
    requires
        forall|c: int| 0 < c < hot.len() ==> (#[trigger] hot[c]).parent != i,
    ensures
        total(shown_inside(hot, i)) == 0,
{
    let s = shown_inside(hot, i);
    assert forall|c: int| 0 <= c < s.len() implies #[trigger] s[c] == 0 by {
        if c > 0 {
            assert(hot[c].parent != i);
        }
    }
    lemma_total_zero(s);
}

/// A walk that is about to begin adds up: nothing was found yet.
pub proof fn law_walk_started(w: &SerialScan)
    requires
        w.entering == Some(0u32),
        w.frames@.len() == 0,
        w.arena.hot@.len() == 1,
        w.arena.hot@[0].total_bytes == 0,
        w.arena.hot@[0].file_count == 0,
    ensures
        adds_up(w, seq![0int], seq![0int]),
{
    lemma_nothing_inside(w.arena.hot@, 0);
}

/// A walk that adds up does so after a directory was entered: with the bytes and the files
/// of its listing if it was read, with those of the earlier snapshot if it was skipped,
/// and with nothing else.
pub proof fn law_walk_entered(before: &SerialScan, after: &SerialScan, outcome: EnterOutcome, bytes: Seq<int>, files: Seq<int>)
    requires
        before.wf(),
        before.entering is Some,
        after.after_enter(before, outcome),
        adds_up(before, bytes, files),
        match outcome {
            EnterOutcome::Skipped { totals, .. } => total(stack_bytes(before.frames@)) + totals.total_bytes <= u64::MAX,
            EnterOutcome::Listed { listing, .. } => total(stack_bytes(before.frames@)) + listing.file_bytes <= u64::MAX,
            _ => total(stack_bytes(before.frames@)) <= u64::MAX,
        },
    ensures
        ({
            let node = before.entering->0 as int;
            match outcome {
                EnterOutcome::Skipped { totals, .. } => adds_up(
                    after,
                    bytes.update(node, totals.total_bytes as int),
                    files.update(node, totals.file_count as int),
                ),
                EnterOutcome::Listed { listing, .. } => adds_up(
                    after,
                    bytes.update(node, listing.file_bytes as int),
                    files.update(node, listing.file_count as int),
                ),
                _ => adds_up(after, bytes, files),
            }
        }),
{
    let node = before.entering->0;
    let at = node as int;
    let hot = before.arena.hot@;
    let frames = before.frames@;
    lemma_shape(before);
    lemma_nothing_inside(hot, at);
    let (n, c): (u64, u32) = match outcome {
        EnterOutcome::Skipped { totals, .. } => (totals.total_bytes, totals.file_count),
        EnterOutcome::Listed { listing, .. } => (listing.file_bytes, listing.file_count),
        _ => (0, 0),
    };
    let bs = bytes.update(at, n as int);
    let fs = files.update(at, c as int);
    assert(is_accounted(hot, bytes, files, frames, at));
    if !(outcome is Skipped) && !(outcome is Listed) {
        assert(bs =~= bytes);
        assert(fs =~= files);
    }
    let t = Totals { bytes: n, files: c as u64, errors: crate::serial::enter_totals(outcome).errors };
    if outcome is Listed && !outcome->Listed_cancelled && outcome->Listed_listing.subdirs@.len() > 0 {
        let f = new_frame(node, hot[at].depth, outcome->Listed_listing);
        let more = frames.push(f);
        assert forall|i: int| 0 <= i < hot.len() implies #[trigger] is_accounted(hot, bs, fs, more, i) by {
            assert(is_accounted(hot, bytes, files, frames, i));
            assert(more[frames.len() as int] == f);
            if is_held(frames, i) {
                let k = choose|k: int| 0 <= k < frames.len() && (#[trigger] frames[k]).node == i;
                assert(more[k].node == i);
            }
            if i == at {
                assert(is_held(more, i));
                assert forall|k: int| 0 <= k < more.len() && (#[trigger] more[k]).node == i implies k == frames.len() by {
                    if k < frames.len() {
                        assert(frames[k].node == i);
                    }
                }
            } else {
                if is_held(more, i) {
                    let k = choose|k: int| 0 <= k < more.len() && (#[trigger] more[k]).node == i;
                    assert(frames[k].node == i);
                }
                if is_held(frames, i) {
                    assert forall|k: int| 0 <= k < more.len() && (#[trigger] more[k]).node == i implies more[k].sum.bytes
                        == bs[i] + total(shown_inside(hot, i)) && more[k].files_here == fs[i] by {
                        assert(frames[k].node == i);
                    }
                }
            }
        }
    } else {
        let start = match outcome {
            EnterOutcome::Skipped { totals, .. } => hot.update(
                at,
                NodeHot { total_bytes: totals.total_bytes, file_count: totals.file_count, ..hot[at] },
            ),
            EnterOutcome::Listed { listing, .. } => hot.update(
                at,
                NodeHot { file_count: listing.file_count, ..hot[at] },
            ),
            _ => hot,
        };
        assert(after.walk() == handed_up(start, frames, node, t));
        assert(start[at].file_count == c);
        lemma_begin(hot, start, bytes, files, frames, at, n, c);
        lemma_up(start, bs, fs, frames, node, t);
        assert forall|i: int| 0 <= i < after.arena.hot@.len() implies #[trigger] is_accounted(
            after.arena.hot@,
            bs,
            fs,
            after.frames@,
            i,
        ) by {
            let w = handed_up(start, frames, node, t);
            assert(is_accounted(w.hot, bs, fs, w.frames, i));
        }
    }
}

/// The directory that was entered is the only one that is not accounted for.
proof fn lemma_begin(
    hot: Seq<NodeHot>,
    start: Seq<NodeHot>,
    bytes: Seq<int>,
    files: Seq<int>,
    frames: Seq<Frame>,
    at: int,
    n: u64,
    c: u32,
)
    requires
        is_tree(hot),
        is_chain(hot, frames),
        0 <= at < hot.len(),
        bytes.len() == hot.len(),
        files.len() == hot.len(),
        hot[at].total_bytes == 0,
        start.len() == hot.len(),
        forall|i: int| 0 <= i < hot.len() && i != at ==> #[trigger] start[i] == hot[i],
        start[at].parent == hot[at].parent,
        forall|i: int| 0 <= i < hot.len() ==> #[trigger] is_accounted(hot, bytes, files, frames, i),
        total(shown_inside(hot, at)) == 0,
    ensures
        is_tree(start),
        is_chain(start, frames),
        others(start, bytes.update(at, n as int), files.update(at, c as int), frames, at),
        total(shown_inside(start, at)) == 0,
{
    assert forall|i: int| 0 <= i < hot.len() implies (#[trigger] start[i]).parent == hot[i].parent by {
        if i != at {
            assert(start[i] == hot[i]);
        }
    }
    assert forall|i: int| 0 < i < start.len() implies (#[trigger] start[i]).parent < i by {
        assert(start[i].parent == hot[i].parent);
        assert(hot[i].parent < i);
    }
    assert(start[0].parent == hot[0].parent);
    assert forall|k: int| 0 <= k < frames.len() implies #[trigger] is_link(start, frames, k) by {
        assert(is_link(hot, frames, k));
        assert(start[frames[k].node as int].parent == hot[frames[k].node as int].parent);
    }
    let bare = blank_at(start, at);
    assert forall|i: int| 0 <= i < hot.len() implies #[trigger] shown_inside(bare, i) == shown_inside(hot, i) by {
        assert forall|k: int| 0 <= k < hot.len() implies #[trigger] shown_inside(bare, i)[k] == shown_inside(hot, i)[k] by {
            assert(start[k].parent == hot[k].parent);
            if k != at {
                assert(start[k] == hot[k]);
            }
        }
        assert(shown_inside(bare, i) =~= shown_inside(hot, i));
    }
    assert(shown_inside(start, at) =~= shown_inside(hot, at)) by {
        assert forall|k: int| 0 <= k < hot.len() implies #[trigger] shown_inside(start, at)[k] == shown_inside(hot, at)[k] by {
            assert(start[k].parent == hot[k].parent);
            if k == at {
                if at > 0 {
                    assert(hot[at].parent < at);
                }
            } else {
                assert(start[k] == hot[k]);
            }
        }
    }
    let bs = bytes.update(at, n as int);
    let fs = files.update(at, c as int);
    assert forall|i: int| 0 <= i < start.len() && i != at implies #[trigger] is_accounted(bare, bs, fs, frames, i) by {
        assert(is_accounted(hot, bytes, files, frames, i));
        assert(shown_inside(bare, i) == shown_inside(hot, i));
        assert(start[i] == hot[i]);
    }
}

/// A walk that adds up does so after a directory was probed: one that can be opened has
/// nothing yet, and one that is passed over has nothing.
pub proof fn law_walk_probed(before: &SerialScan, after: &SerialScan, outcome: ProbeOutcome, bytes: Seq<int>, files: Seq<int>)
    requires
        before.wf(),
        before.entering is None,
        before.result is None,
        after.after_probe(before, outcome),
        adds_up(before, bytes, files),
        total(stack_bytes(before.frames@)) <= u64::MAX,
        before.arena.hot@.len() < u32::MAX,
    ensures
        outcome is Opened ==> adds_up(after, bytes.push(0), files.push(0)),
        !(outcome is Opened) ==> adds_up(after, bytes, files),
{
    let hot = before.arena.hot@;
    let frames = before.frames@;
    lemma_shape(before);
    let m = frames.len() - 1;
    let top = frames[m];
    if outcome is Opened {
        lemma_opened(before, after, bytes, files);
    } else {
        let errors: int = if outcome is Unopenable {
            1
        } else {
            0
        };
        let moved = Frame {
            next: (top.next + 1) as usize,
            sum: Totals { errors: (top.sum.errors + errors) as u32, ..top.sum },
            ..top
        };
        if !(outcome is Cancelled) && moved.next < moved.subdirs@.len() {
            let fs = frames.drop_last().push(moved);
            assert forall|i: int| 0 <= i < hot.len() implies #[trigger] is_accounted(hot, bytes, files, fs, i) by {
                assert(is_accounted(hot, bytes, files, frames, i));
                lemma_same_held(frames, fs, i);
                if is_held(frames, i) {
                    assert forall|k: int| 0 <= k < fs.len() && (#[trigger] fs[k]).node == i implies fs[k].sum.bytes
                        == bytes[i] + total(shown_inside(hot, i)) && fs[k].files_here == files[i] by {
                        assert(frames[k].node == i);
                    }
                }
            }
        } else {
            let last = if outcome is Cancelled {
                top
            } else {
                moved
            };
            lemma_closed(hot, bytes, files, frames, last);
            let w = closed_frame(hot, frames.drop_last(), last);
            assert(after.walk() == w);
            assert forall|i: int| 0 <= i < after.arena.hot@.len() implies #[trigger] is_accounted(
                after.arena.hot@,
                bytes,
                files,
                after.frames@,
                i,
            ) by {
                assert(is_accounted(w.hot, bytes, files, w.frames, i));
            }
        }
    }
}

proof fn lemma_same_held(a: Seq<Frame>, b: Seq<Frame>, i: int)
    requires
        a.len() == b.len(),
        forall|k: int| 0 <= k < a.len() ==> (#[trigger] a[k]).node == b[k].node,
    ensures
        is_held(a, i) == is_held(b, i),
{
    if is_held(a, i) {
        let k = choose|k: int| 0 <= k < a.len() && (#[trigger] a[k]).node == i;
        assert(b[k].node == i);
    }
    if is_held(b, i) {
        let k = choose|k: int| 0 <= k < b.len() && (#[trigger] b[k]).node == i;
        assert(a[k].node == i);
    }
}

/// The directory at the end of the stack is left.
proof fn lemma_closed(hot: Seq<NodeHot>, bytes: Seq<int>, files: Seq<int>, frames: Seq<Frame>, last: Frame)
    requires
        is_tree(hot),
        is_chain(hot, frames),
        bytes.len() == hot.len(),
        files.len() == hot.len(),
        frames.len() > 0,
        forall|i: int| 0 <= i < hot.len() ==> #[trigger] is_accounted(hot, bytes, files, frames, i),
        total(stack_bytes(frames)) <= u64::MAX,
        last.node == frames.last().node,
        last.files_here == frames.last().files_here,
        last.sum.bytes == frames.last().sum.bytes,
    ensures
        ({
            let w = closed_frame(hot, frames.drop_last(), last);
            &&& w.hot.len() == hot.len()
            &&& forall|i: int| 0 <= i < hot.len() ==> #[trigger] is_accounted(w.hot, bytes, files, w.frames, i)
        }),
{
    let m = frames.len() - 1;
    let top = frames[m];
    let below = frames.drop_last();
    let at = top.node as int;
    assert(is_link(hot, frames, m));
    assert(is_accounted(hot, bytes, files, frames, at));
    assert(is_held(frames, at));
    let next = hot.update(at, NodeHot { file_count: last.files_here, ..hot[at] });
    lemma_counted(hot, at, last.files_here, at);
    assert(next =~= blank_at(next, at));
    assert forall|i: int| 0 < i < next.len() implies (#[trigger] next[i]).parent < i by {
        assert(hot[i].parent < i);
    }
    assert forall|k: int| 0 <= k < below.len() implies #[trigger] is_link(next, below, k) by {
        assert(is_link(hot, frames, k));
        assert(below[k] == frames[k]);
        if k > 0 {
            assert(below[k - 1] == frames[k - 1]);
        }
    }
    if m > 0 {
        assert(below.last() == frames[m - 1]);
    }
    assert(stack_bytes(frames).drop_last() =~= stack_bytes(below));
    assert forall|k: int| 0 <= k < m implies (#[trigger] frames[k]).node < at by {
        lemma_chain_up(hot, frames, k, m);
    }
    assert forall|i: int| 0 <= i < next.len() && i != at implies #[trigger] is_accounted(
        blank_at(next, at),
        bytes,
        files,
        below,
        i,
    ) by {
        lemma_counted(hot, at, last.files_here, i);
        assert(is_accounted(hot, bytes, files, frames, i));
        assert(is_held(below, i) == is_held(frames, i)) by {
            if is_held(frames, i) {
                let k = choose|k: int| 0 <= k < frames.len() && (#[trigger] frames[k]).node == i;
                assert(below[k].node == i);
            }
            if is_held(below, i) {
                let k = choose|k: int| 0 <= k < below.len() && (#[trigger] below[k]).node == i;
                assert(frames[k].node == i);
            }
        }
        if is_held(below, i) {
            assert forall|k: int| 0 <= k < below.len() && (#[trigger] below[k]).node == i implies below[k].sum.bytes
                == bytes[i] + total(shown_inside(next, i)) && below[k].files_here == files[i] by {
                assert(frames[k].node == i);
            }
        }
    }
    lemma_up(next, bytes, files, below, last.node, last.sum);
}

proof fn lemma_opened(before: &SerialScan, after: &SerialScan, bytes: Seq<int>, files: Seq<int>)
    requires
        before.wf(),
        before.entering is None,
        before.result is None,
        after.after_probe(before, ProbeOutcome::Opened),
        adds_up(before, bytes, files),
        before.arena.hot@.len() < u32::MAX,
    ensures
        adds_up(after, bytes.push(0), files.push(0)),
{
    let hot = before.arena.hot@;
    let more = after.arena.hot@;
    let frames = before.frames@;
    let fs = after.frames@;
    let n = hot.len() as int;
    let (bs, cs) = (bytes.push(0), files.push(0));
    lemma_shape(before);
    assert forall|i: int| 0 <= i < n implies #[trigger] more[i] == hot[i] by {
        assert(more.take(n)[i] == more[i]);
    }
    assert forall|k: int| 0 <= k < frames.len() implies (#[trigger] frames[k]).node == fs[k].node && frames[k].sum
        == fs[k].sum && frames[k].files_here == fs[k].files_here by {}
    assert forall|i: int| 0 <= i < n implies #[trigger] total(shown_inside(more, i)) == total(shown_inside(hot, i)) by {
        assert forall|k: int| 0 <= k < n implies #[trigger] shown_inside(more, i)[k] == shown_inside(hot, i)[k] by {
            assert(more[k] == hot[k]);
        }
        assert(shown_inside(more, i) =~= shown_inside(hot, i).push(0));
        lemma_total_push(shown_inside(hot, i), 0);
    }
    assert forall|c: int| 0 < c < more.len() implies (#[trigger] more[c]).parent != n by {
        if c < n {
            assert(more[c] == hot[c]);
            assert(hot[c].parent < c);
        } else {
            let m = frames.len() - 1;
            assert(is_link(hot, frames, m));
        }
    }
    lemma_nothing_inside(more, n);
    assert(!is_held(fs, n)) by {
        if is_held(fs, n) {
            let k = choose|k: int| 0 <= k < fs.len() && (#[trigger] fs[k]).node == n;
            assert(is_link(hot, frames, k));
            assert(frames[k].node == fs[k].node);
        }
    }
    assert forall|i: int| 0 <= i < more.len() implies #[trigger] is_accounted(more, bs, cs, fs, i) by {
        if i < n {
            assert(is_accounted(hot, bytes, files, frames, i));
            assert(more[i] == hot[i]);
            assert(total(shown_inside(more, i)) == total(shown_inside(hot, i)));
            lemma_same_held(frames, fs, i);
            if is_held(frames, i) {
                assert forall|k: int| 0 <= k < fs.len() && (#[trigger] fs[k]).node == i implies fs[k].sum.bytes == bs[i]
                    + total(shown_inside(more, i)) && fs[k].files_here == cs[i] by {
                    assert(frames[k].node == i);
                }
            }
        }
    }
}

/// When a walk that adds up is over, every directory shows the bytes found in it and those
/// shown by the directories directly inside, and the number of files found in it.
pub proof fn law_walk_over(w: &SerialScan, bytes: Seq<int>, files: Seq<int>, i: int)
    requires
        w.wf(),
        w.result is Some,
        adds_up(w, bytes, files),
        0 <= i < w.arena.hot@.len(),
    ensures
        w.arena.hot@[i].total_bytes == bytes[i] + total(
            Seq::new(
                w.arena.hot@.len(),
                |c: int|
                    if c > 0 && w.arena.hot@[c].parent == i {
                        w.arena.hot@[c].total_bytes as int
                    } else {
                        0
                    },
            ),
        ),
        w.arena.hot@[i].file_count == files[i],
{
    let hot = w.arena.hot@;
    assert(is_accounted(hot, bytes, files, w.frames@, i));
    assert(shown_inside(hot, i) =~= Seq::new(
        hot.len(),
        |c: int|
            if c > 0 && hot[c].parent == i {
                hot[c].total_bytes as int
            } else {
                0
            },
    ));
}

/// A directory that was looked at has the time and the identity that were found, one that was
/// not has none yet, and no other directory changes in this.
pub proof fn law_walk_metadata(before: &SerialScan, after: &SerialScan, outcome: EnterOutcome, i: int)
    requires
        before.wf(),
        before.entering is Some,
        after.after_enter(before, outcome),
        0 <= i < before.arena.hot@.len(),
    ensures
        i != before.entering->0 ==> after.arena.cold@[i] == before.arena.cold@[i],
        i == before.entering->0 ==> match outcome {
            EnterOutcome::Cancelled => after.arena.cold@[i] == before.arena.cold@[i],
            EnterOutcome::Skipped { meta, .. } => after.arena.cold@[i].mtime == meta.mtime
                && after.arena.cold@[i].identity == meta.identity,
            EnterOutcome::Failed { meta, .. } => after.arena.cold@[i].mtime == meta.mtime
                && after.arena.cold@[i].identity == meta.identity,
            EnterOutcome::Listed { meta, .. } => after.arena.cold@[i].mtime == meta.mtime
                && after.arena.cold@[i].identity == meta.identity,
        },
{
}

} // verus!
