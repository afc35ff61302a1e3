//! What the lines of a tree show.

use crate::order::{before, bytes_at_most, law_order_exists, order_of};
use crate::tree::{
    below, kid_keys, kids, lemma_kids, list_lines, node_lines, shown_kids, tree_lines, LineView,
    PathTree,
};
use vstd::prelude::*;
use vstd::utf8::encode_utf8;

verus! {

proof fn lemma_kid(parents: Seq<Option<usize>>, parent: Option<usize>, n: int, c: usize)
    requires
        0 <= n <= parents.len(),
        parents.len() <= usize::MAX,
    ensures
        kids(parents, parent, n).contains(c) <==> c < n && parents[c as int] == parent,
    decreases n,
{
    if n > 0 {
        lemma_kid(parents, parent, n - 1, c);
        let a = kids(parents, parent, n - 1);
        let b = kids(parents, parent, n);
        if a.contains(c) {
            let i = choose|i: int| 0 <= i < a.len() && a[i] == c;
            assert(b[i] == c);
        }
        if c == n - 1 && parents[n - 1] == parent {
            assert(b[a.len() as int] == c);
        }
        if b.contains(c) {
            let i = choose|i: int| 0 <= i < b.len() && b[i] == c;
            if i < a.len() {
                assert(a[i] == c);
            }
        }
    }
}

proof fn lemma_few_kids(parents: Seq<Option<usize>>, parent: Option<usize>, n: int)
    requires
        0 <= n,
    ensures
        kids(parents, parent, n).len() <= n,
    decreases n,
{
    if n > 0 {
        lemma_few_kids(parents, parent, n - 1);
    }
}

/// Below a node its children are shown, and nothing else, those of the highest rank first and
/// those of the same rank by name.
pub proof fn law_children_shown(t: PathTree, ranks: Seq<u64>, parent: Option<usize>, c: usize)
    requires
        t.wf(),
        t.names@.len() <= usize::MAX,
        ranks.len() == t.names@.len(),
    ensures
        shown_kids(t, ranks, parent).contains(c) <==> c < t.names@.len() && t.parents@[c as int] == parent,
        forall|i: int, j: int|
            0 <= i < j < shown_kids(t, ranks, parent).len() ==> {
                let x = (#[trigger] shown_kids(t, ranks, parent)[i]) as int;
                let y = (#[trigger] shown_kids(t, ranks, parent)[j]) as int;
                &&& ranks[x] >= ranks[y]
                &&& ranks[x] == ranks[y] ==> bytes_at_most(encode_utf8(t.names@[x]@), encode_utf8(t.names@[y]@))
            },
{
    let n = t.names@.len() as int;
    let nodes = kids(t.parents@, parent, n);
    let keys = kid_keys(t, ranks, nodes);
    lemma_kids(t.parents@, parent, n);
    lemma_kid(t.parents@, parent, n, c);
    lemma_few_kids(t.parents@, parent, n);
    law_order_exists(keys);
    let o = order_of(keys);
    let r = shown_kids(t, ranks, parent);
    if r.contains(c) {
        let i = choose|i: int| 0 <= i < r.len() && r[i] == c;
        assert(nodes[o[i] as int] == c);
    }
    if nodes.contains(c) {
        let k = choose|k: int| 0 <= k < nodes.len() && nodes[k] == c;
        assert(o.contains(k as usize));
        let i = choose|i: int| 0 <= i < o.len() && o[i] == k as usize;
        assert(r[i] == c);
    }
    assert forall|i: int, j: int| 0 <= i < j < r.len() implies ({
        let x = (#[trigger] r[i]) as int;
        let y = (#[trigger] r[j]) as int;
        &&& ranks[x] >= ranks[y]
        &&& ranks[x] == ranks[y] ==> bytes_at_most(encode_utf8(t.names@[x]@), encode_utf8(t.names@[y]@))
    }) by {
        assert(before(keys, o[i] as int, o[j] as int));
        assert(r[i] == nodes[o[i] as int] && r[j] == nodes[o[j] as int]);
        crate::order::lemma_bytes_total(encode_utf8(t.names@[r[i] as int]@), encode_utf8(t.names@[r[i] as int]@));
    }
}

/// The child of a node on the way down to another one.
proof fn lemma_way_down(t: PathTree, p: int, i: int) -> (c: int)
    requires
        t.wf(),
        t.names@.len() <= usize::MAX,
        0 <= p < t.names@.len(),
        0 <= i < t.names@.len(),
        below(t.parents@, p, i),
        p != i,
    ensures
        p < c <= i,
        t.parents@[c] == Some(p as usize),
        below(t.parents@, c, i),
    decreases i,
{
    let q = t.parents@[i]->0 as int;
    if q == p {
        i
    } else {
        lemma_way_down(t, p, q)
    }
}

/// One of the lines is that of the node.
pub open spec fn hold_node(lines: Seq<LineView>, i: usize) -> bool {
    exists|k: int| 0 <= k < lines.len() && (#[trigger] lines[k]).node == i
}

/// The lines of a list hold those of each of its nodes.
proof fn lemma_in_list(
    t: PathTree,
    ranks: Seq<u64>,
    nodes: Seq<usize>,
    prefix: Seq<char>,
    is_root: bool,
    depth: nat,
    c: usize,
    i: usize,
)
    requires
        nodes.contains(c),
        forall|line: LineView| line.node == c ==> hold_node(#[trigger] node_lines(t, ranks, line, depth), i),
    ensures
        hold_node(list_lines(t, ranks, nodes, prefix, is_root, depth), i),
    decreases nodes.len(),
{
    let line = LineView { node: nodes[0], prefix, is_last: !is_root && nodes.len() == 1, is_root };
    let a = node_lines(t, ranks, line, depth);
    let b = list_lines(t, ranks, nodes.skip(1), prefix, is_root, depth);
    let all = list_lines(t, ranks, nodes, prefix, is_root, depth);
    assert(all == a + b);
    if nodes[0] == c {
        assert(hold_node(a, i));
        let k = choose|k: int| 0 <= k < a.len() && (#[trigger] a[k]).node == i;
        assert(all[k] == a[k]);
    } else {
        let m = choose|m: int| 0 <= m < nodes.len() && nodes[m] == c;
        assert(nodes.skip(1)[m - 1] == c);
        lemma_in_list(t, ranks, nodes.skip(1), prefix, is_root, depth, c, i);
        let k = choose|k: int| 0 <= k < b.len() && (#[trigger] b[k]).node == i;
        assert(all[a.len() + k] == b[k]);
    }
}

proof fn lemma_line(t: PathTree, ranks: Seq<u64>, p: int, i: int, line: LineView, depth: nat)
    requires
        t.wf(),
        t.names@.len() <= usize::MAX,
        ranks.len() == t.names@.len(),
        0 <= p < t.names@.len(),
        0 <= i < t.names@.len(),
        below(t.parents@, p, i),
        line.node == p,
        depth > i - p,
        p <= i,
    ensures
        hold_node(node_lines(t, ranks, line, depth), i as usize),
    decreases depth,
{
    let all = node_lines(t, ranks, line, depth);
    if p == i {
        assert(all[0] == line);
    } else {
        let c = lemma_way_down(t, p, i);
        let less = (depth - 1) as nat;
        let nodes = shown_kids(t, ranks, Some(line.node));
        law_children_shown(t, ranks, Some(line.node), c as usize);
        assert forall|l: LineView| l.node == c as usize implies hold_node(
            #[trigger] node_lines(t, ranks, l, less),
            i as usize,
        ) by {
            lemma_line(t, ranks, c, i, l, less);
        }
        let prefix = crate::tree::deeper(line.prefix, line.is_last, line.is_root);
        lemma_in_list(t, ranks, nodes, prefix, false, less, c as usize, i as usize);
        let rest = list_lines(t, ranks, nodes, prefix, false, less);
        let k = choose|k: int| 0 <= k < rest.len() && (#[trigger] rest[k]).node == i;
        assert(all[k + 1] == rest[k]);
    }
}

/// The root above a node.
proof fn lemma_root(t: PathTree, i: int) -> (p: int)
    requires
        t.wf(),
        0 <= i < t.names@.len(),
    ensures
        0 <= p <= i,
        t.parents@[p] is None,
        below(t.parents@, p, i),
    decreases i,
{
    match t.parents@[i] {
        None => i,
        Some(q) => {
            assert(q < i);
            lemma_root(t, q as int)
        },
    }
}

/// Every node of a tree has a line.
pub proof fn law_every_node_has_a_line(t: PathTree, ranks: Seq<u64>, i: int)
    requires
        t.wf(),
        t.names@.len() <= usize::MAX,
        ranks.len() == t.names@.len(),
        0 <= i < t.names@.len(),
    ensures
        exists|k: int| 0 <= k < tree_lines(t, ranks).len() && (#[trigger] tree_lines(t, ranks)[k]).node == i,
{
    let n = t.names@.len();
    let p = lemma_root(t, i);
    let nodes = shown_kids(t, ranks, None);
    law_children_shown(t, ranks, None, p as usize);
    assert forall|l: LineView| l.node == p as usize implies hold_node(
        #[trigger] node_lines(t, ranks, l, n),
        i as usize,
    ) by {
        lemma_line(t, ranks, p, i, l, n);
    }
    lemma_in_list(t, ranks, nodes, ""@, true, n, p as usize, i as usize);
    let all = tree_lines(t, ranks);
    let k = choose|k: int| 0 <= k < all.len() && (#[trigger] all[k]).node == i as usize;
    assert(all[k].node == i);
}

} // verus!
