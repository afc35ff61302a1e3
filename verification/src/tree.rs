//! Paths shown as a tree.

use crate::order::{is_stable_order, order_of, stable_order};
use crate::text::{str_eq, views};
use crate::top::TopKey;
use vstd::prelude::*;

verus! {

/// A tree of names. Every node stands behind its parent; a node can be marked with the
/// number of an item.
pub struct PathTree {
    pub names: Vec<String>,
    pub parents: Vec<Option<usize>>,
    pub marks: Vec<Option<usize>>,
}

/// The path to node `i`: the names from a root down to it.
pub open spec fn path_to(names: Seq<String>, parents: Seq<Option<usize>>, i: int) -> Seq<Seq<char>>
    decreases i,
{
    if 0 <= i < names.len() && parents[i] is Some && parents[i]->0 < i {
        path_to(names, parents, parents[i]->0 as int).push(names[i]@)
    } else {
        seq![names[i]@]
    }
}

impl PathTree {
    /// Every node stands behind its parent, and no two nodes with the same parent have
    /// the same name.
    pub open spec fn wf(&self) -> bool {
        &&& self.parents@.len() == self.names@.len()
        &&& self.marks@.len() == self.names@.len()
        &&& forall|i: int|
            0 <= i < self.names@.len() ==> match #[trigger] self.parents@[i] {
                Some(p) => p < i,
                None => true,
            }
        &&& forall|i: int, j: int|
            #![trigger self.parents@[i], self.parents@[j]]
            0 <= i < self.names@.len() && 0 <= j < self.names@.len() && i != j && self.parents@[i]
                == self.parents@[j] ==> self.names@[i]@ != self.names@[j]@
    }

    /// The path of node `i`.
    pub open spec fn path(&self, i: int) -> Seq<Seq<char>> {
        path_to(self.names@, self.parents@, i)
    }

    /// Node `i` has the path.
    pub open spec fn is_at(&self, i: int, path: Seq<Seq<char>>) -> bool {
        0 <= i < self.names@.len() && self.path(i) == path
    }

    pub open spec fn has(&self, path: Seq<Seq<char>>) -> bool {
        exists|i: int| #[trigger] self.is_at(i, path)
    }

    /// The item that the node with the path is marked with.
    pub open spec fn mark(&self, path: Seq<Seq<char>>) -> Option<usize> {
        self.marks@[choose|i: int| #[trigger] self.is_at(i, path)]
    }

    /// The paths of the tree, each with its mark.
    pub open spec fn paths(&self) -> Map<Seq<Seq<char>>, Option<usize>> {
        Map::new(|p: Seq<Seq<char>>| self.has(p), |p: Seq<Seq<char>>| self.mark(p))
    }

    pub fn new() -> (t: PathTree)
        ensures
            t.wf(),
            t.paths() == Map::<Seq<Seq<char>>, Option<usize>>::empty(),
    {
        let t = PathTree { names: Vec::new(), parents: Vec::new(), marks: Vec::new() };
        assert(t.paths() =~= Map::<Seq<Seq<char>>, Option<usize>>::empty());
        t
    }

    proof fn lemma_path_unique(&self, i: int, j: int)
        requires
            self.wf(),
            0 <= i < self.names@.len(),
            0 <= j < self.names@.len(),
            self.path(i) == self.path(j),
        ensures
            i == j,
        decreases i,
    {
        let p = self.path(i);
        match (self.parents@[i], self.parents@[j]) {
            (Some(a), Some(b)) => {
                assert(self.path(i).drop_last() =~= self.path(a as int));
                assert(self.path(j).drop_last() =~= self.path(b as int));
                self.lemma_path_unique(a as int, b as int);
                assert(self.path(i).last() == self.names@[i]@);
                assert(self.path(j).last() == self.names@[j]@);
            },
            (None, None) => {
                assert(self.path(i)[0] == self.names@[i]@);
                assert(self.path(j)[0] == self.names@[j]@);
            },
            (Some(a), None) => {
                self.lemma_path_len(a as int);
                assert(self.path(j).len() == 1);
            },
            (None, Some(b)) => {
                self.lemma_path_len(b as int);
                assert(self.path(i).len() == 1);
            },
        }
    }

    proof fn lemma_path_len(&self, i: int)
        requires
            self.wf(),
            0 <= i < self.names@.len(),
        ensures
            self.path(i).len() >= 1,
    {
        if self.parents@[i] is Some {
            assert(self.parents@[i]->0 < i);
        }
    }

    proof fn lemma_mark(&self, i: int)
        requires
            self.wf(),
            0 <= i < self.names@.len(),
        ensures
            self.has(self.path(i)),
            self.mark(self.path(i)) == self.marks@[i],
    {
        assert(self.is_at(i, self.path(i)));
        let k = choose|k: int| #[trigger] self.is_at(k, self.path(i));
        self.lemma_path_unique(i, k);
    }

    /// The node with a name among those with the given parent.
    fn find_child(&self, parent: Option<usize>, name: &str) -> (r: Option<usize>)
        requires
            self.wf(),
        ensures
            match r {
                Some(i) => i < self.names@.len() && self.parents@[i as int] == parent && self.names@[i as int]@ == name@,
                None => forall|i: int|
                    0 <= i < self.names@.len() && #[trigger] self.parents@[i] == parent ==> self.names@[i]@ != name@,
            },
    {
        let mut i: usize = 0;
        while i < self.names.len()
            invariant
                self.wf(),
                i <= self.names@.len(),
                forall|k: int|
                    0 <= k < i && #[trigger] self.parents@[k] == parent ==> self.names@[k]@ != name@,
            decreases self.names@.len() - i,
        {
            let same = match (self.parents[i], parent) {
                (Some(a), Some(b)) => a == b,
                (None, None) => true,
                _ => false,
            };
            if same && str_eq(self.names[i].as_str(), name) {
                return Some(i);
            }
            i = i + 1;
        }
        None
    }

    /// Adds a node.
    fn add_child(&mut self, parent: Option<usize>, name: &str) -> (i: usize)
        requires
            old(self).wf(),
            parent is Some ==> parent->0 < old(self).names@.len(),
            forall|k: int|
                0 <= k < old(self).names@.len() && #[trigger] old(self).parents@[k] == parent
                    ==> old(self).names@[k]@ != name@,
        ensures
            final(self).wf(),
            i == old(self).names@.len(),
            final(self).names@.len() == i + 1,
            final(self).names@.take(i as int) == old(self).names@,
            final(self).names@[i as int]@ == name@,
            final(self).parents@ == old(self).parents@.push(parent),
            final(self).marks@ == old(self).marks@.push(None),
    {
        let i = self.names.len();
        self.names.push(name.to_owned());
        self.parents.push(parent);
        self.marks.push(None);
        assert(self.names@.take(i as int) =~= old(self).names@);
        i
    }
}

proof fn lemma_path_kept(a: PathTree, b: PathTree, i: int)
    requires
        a.wf(),
        b.wf(),
        a.names@.len() <= b.names@.len(),
        b.names@.take(a.names@.len() as int) == a.names@,
        b.parents@.take(a.names@.len() as int) == a.parents@,
        0 <= i < a.names@.len(),
    ensures
        b.path(i) == a.path(i),
    decreases i,
{
    assert(b.names@[i] == b.names@.take(a.names@.len() as int)[i]);
    assert(b.parents@[i] == b.parents@.take(a.names@.len() as int)[i]);
    if a.parents@[i] is Some {
        lemma_path_kept(a, b, a.parents@[i]->0 as int);
    }
}

/// `p` is the beginning of `path`, and not empty.
pub open spec fn is_start(p: Seq<Seq<char>>, path: Seq<Seq<char>>) -> bool {
    p.len() > 0 && p.is_prefix_of(path)
}

/// The paths with one more, which is marked. The paths that lead to it are there too.
pub open spec fn with_path(paths: Map<Seq<Seq<char>>, Option<usize>>, path: Seq<Seq<char>>, mark: usize) -> Map<
    Seq<Seq<char>>,
    Option<usize>,
> {
    Map::new(
        |p: Seq<Seq<char>>| paths.contains_key(p) || is_start(p, path),
        |p: Seq<Seq<char>>|
            if p == path {
                Some(mark)
            } else if paths.contains_key(p) {
                paths[p]
            } else {
                None
            },
    )
}

/// The tree `b` has the nodes of `a` and new ones behind them, which are not marked and
/// whose paths begin `path`.
spec fn extends(a: PathTree, b: PathTree, path: Seq<Seq<char>>) -> bool {
    &&& a.wf()
    &&& b.wf()
    &&& a.names@.len() <= b.names@.len()
    &&& b.names@.take(a.names@.len() as int) == a.names@
    &&& b.parents@.take(a.names@.len() as int) == a.parents@
    &&& b.marks@.take(a.names@.len() as int) == a.marks@
    &&& forall|i: int|
        a.names@.len() <= i < b.names@.len() ==> is_start(#[trigger] b.path(i), path) && b.marks@[i] is None
}

proof fn lemma_starts(t: PathTree, i: int, p: Seq<Seq<char>>)
    requires
        t.wf(),
        0 <= i < t.names@.len(),
        is_start(p, t.path(i)),
    ensures
        t.has(p),
    decreases i,
{
    if p.len() == t.path(i).len() {
        assert(p =~= t.path(i));
        assert(t.is_at(i, p));
    } else {
        assert(t.parents@[i] is Some);
        let a = t.parents@[i]->0 as int;
        assert(t.path(i).drop_last() =~= t.path(a));
        assert(p =~= t.path(a).subrange(0, p.len() as int)) by {
            assert forall|k: int| 0 <= k < p.len() implies p[k] == t.path(a)[k] by {
                assert(p[k] == t.path(i).subrange(0, p.len() as int)[k]);
                assert(t.path(a)[k] == t.path(i)[k]);
            }
        }
        lemma_starts(t, a, p);
    }
}

impl PathTree {
    /// Adds a path and marks it with the number of an item. A path that is there is
    /// marked anew.
    pub fn insert(&mut self, segments: &Vec<String>, mark: usize)
        requires
            old(self).wf(),
            segments@.len() > 0,
        ensures
            final(self).wf(),
            final(self).paths() == with_path(old(self).paths(), views(segments@), mark),
    {
        let ghost start = *self;
        let ghost path = views(segments@);
        let mut at: Option<usize> = None;
        let mut k: usize = 0;
        assert(start.names@.take(start.names@.len() as int) =~= start.names@);
        assert(start.parents@.take(start.names@.len() as int) =~= start.parents@);
        assert(start.marks@.take(start.names@.len() as int) =~= start.marks@);
        while k < segments.len()
            invariant
                start == *old(self),
                path == views(segments@),
                k <= segments@.len(),
                extends(start, *self, path),
                k == 0 <==> at is None,
                at is Some ==> at->0 < self.names@.len() && self.path(at->0 as int) == path.take(k as int),
            decreases segments@.len() - k,
        {
            let name = segments[k].as_str();
            let ghost before = *self;
            match self.find_child(at, name) {
                Some(i) => {
                    proof {
                        if at is Some {
                            assert(self.path(i as int) =~= path.take(k as int).push(name@));
                        }
                        assert(path.take(k + 1) =~= path.take(k as int).push(name@));
                        assert(self.path(i as int) =~= path.take(k + 1));
                    }
                    at = Some(i);
                },
                None => {
                    let i = self.add_child(at, name);
                    proof {
                        assert(self.parents@.take(i as int) =~= before.parents@);
                        assert(self.marks@.take(i as int) =~= before.marks@);
                        if at is Some {
                            lemma_path_kept(before, *self, at->0 as int);
                        }
                        assert(path.take(k + 1) =~= path.take(k as int).push(name@));
                        assert(self.path(i as int) =~= path.take(k + 1));
                        assert(path.take(k + 1).is_prefix_of(path));
                        let n = start.names@.len() as int;
                        assert(self.names@.take(n) =~= start.names@) by {
                            assert forall|j: int| 0 <= j < n implies self.names@[j] == start.names@[j] by {
                                assert(self.names@[j] == self.names@.take(i as int)[j]);
                                assert(before.names@[j] == before.names@.take(n)[j]);
                            }
                        }
                        assert(self.parents@.take(n) =~= start.parents@) by {
                            assert forall|j: int| 0 <= j < n implies self.parents@[j] == start.parents@[j] by {
                                assert(before.parents@[j] == before.parents@.take(n)[j]);
                            }
                        }
                        assert(self.marks@.take(n) =~= start.marks@) by {
                            assert forall|j: int| 0 <= j < n implies self.marks@[j] == start.marks@[j] by {
                                assert(before.marks@[j] == before.marks@.take(n)[j]);
                            }
                        }
                        assert forall|j: int| n <= j < self.names@.len() implies is_start(
                            #[trigger] self.path(j),
                            path,
                        ) && self.marks@[j] is None by {
                            if j < i {
                                lemma_path_kept(before, *self, j);
                                assert(is_start(before.path(j), path));
                            }
                        }
                    }
                    at = Some(i);
                },
            }
            k = k + 1;
        }
        assert(path.take(k as int) =~= path);
        let ghost grown = *self;
        if let Some(i) = at {
            self.marks.set(i, Some(mark));
            proof {
                assert(self.wf());
                assert forall|j: int| 0 <= j < self.names@.len() implies self.path(j) == grown.path(j) by {}
                lemma_inserted(start, grown, *self, path, i as int, mark);
            }
        }
    }
}

proof fn lemma_inserted(start: PathTree, grown: PathTree, end: PathTree, path: Seq<Seq<char>>, leaf: int, mark: usize)
    requires
        extends(start, grown, path),
        end.wf(),
        end.names == grown.names,
        end.parents == grown.parents,
        0 <= leaf < grown.names@.len(),
        grown.path(leaf) == path,
        end.marks@ == grown.marks@.update(leaf, Some(mark)),
    ensures
        end.paths() == with_path(start.paths(), path, mark),
{
    let n = start.names@.len() as int;
    let want = with_path(start.paths(), path, mark);
    assert forall|p: Seq<Seq<char>>| #[trigger] end.has(p) <==> want.contains_key(p) by {
        if end.has(p) {
            let i = choose|i: int| #[trigger] end.is_at(i, p);
            if i < n {
                lemma_path_kept(start, grown, i);
                assert(start.is_at(i, p));
            } else {
                assert(is_start(grown.path(i), path));
            }
        }
        if start.has(p) {
            let i = choose|i: int| #[trigger] start.is_at(i, p);
            lemma_path_kept(start, grown, i);
            assert(end.is_at(i, p));
        }
        if is_start(p, path) {
            lemma_starts(grown, leaf, p);
            let i = choose|i: int| #[trigger] grown.is_at(i, p);
            assert(end.is_at(i, p));
        }
    }
    assert forall|p: Seq<Seq<char>>| end.has(p) implies #[trigger] end.mark(p) == want[p] by {
        let i = choose|i: int| #[trigger] end.is_at(i, p);
        end.lemma_mark(i);
        if p == path {
            end.lemma_path_unique(i, leaf);
        } else if i < n {
            lemma_path_kept(start, grown, i);
            assert(start.is_at(i, p));
            start.lemma_mark(i);
            assert(grown.marks@[i] == grown.marks@.take(n)[i]);
            assert(i != leaf);
        } else {
            assert(n <= i < grown.names@.len());
            assert(is_start(grown.path(i), path));
            assert(grown.marks@[i] is None);
            assert(i != leaf);
            if start.has(p) {
                let j = choose|j: int| #[trigger] start.is_at(j, p);
                lemma_path_kept(start, grown, j);
                grown.lemma_path_unique(i, j);
            }
        }
    }
    assert(end.paths() =~= want);
}

/// The larger of two numbers.
pub open spec fn larger(a: u64, b: u64) -> u64 {
    if a >= b {
        a
    } else {
        b
    }
}

/// The highest rank of node `i` and of what lies below its children from `m` on.
pub open spec fn best_from(parents: Seq<Option<usize>>, own: Seq<u64>, i: int, m: int) -> u64
    decreases parents.len() - i, parents.len() - m,
{
    if m <= i || m >= parents.len() {
        own[i]
    } else if parents[m] == Some(i as usize) {
        larger(best_from(parents, own, i, m + 1), best_from(parents, own, m, m + 1))
    } else {
        best_from(parents, own, i, m + 1)
    }
}

/// The highest rank of node `i` and of what lies below.
pub open spec fn best(parents: Seq<Option<usize>>, own: Seq<u64>, i: int) -> u64 {
    best_from(parents, own, i, i + 1)
}

/// Node `j` is node `i` or lies below it.
pub open spec fn below(parents: Seq<Option<usize>>, i: int, j: int) -> bool
    decreases j,
{
    j == i || (0 <= j < parents.len() && parents[j] is Some && parents[j]->0 < j && below(parents, i, parents[j]->0 as int))
}

/// The best rank of a node is the highest one of all that lies below it.
pub proof fn law_best_is_highest(t: PathTree, own: Seq<u64>, i: int, j: int)
    requires
        t.wf(),
        own.len() == t.names@.len(),
        t.names@.len() <= usize::MAX,
        0 <= i < t.names@.len(),
        0 <= j < t.names@.len(),
        below(t.parents@, i, j),
    ensures
        own[j] <= best(t.parents@, own, i),
        exists|k: int|
            0 <= k < own.len() && #[trigger] below(t.parents@, i, k) && own[k] == best(t.parents@, own, i),
{
    lemma_best_bounds(t.parents@, own, i, j);
    lemma_best_reached(t.parents@, own, i, i + 1);
}

proof fn lemma_best_child(parents: Seq<Option<usize>>, own: Seq<u64>, i: int, m: int, c: int)
    requires
        0 <= i < m <= c < parents.len(),
        parents.len() <= usize::MAX,
        parents[c] == Some(i as usize),
    ensures
        best(parents, own, c) <= best_from(parents, own, i, m),
        own[i] <= best_from(parents, own, i, m),
    decreases parents.len() - m,
{
    if m < c {
        lemma_best_child(parents, own, i, m + 1, c);
    }
    lemma_best_own(parents, own, i, m);
}

proof fn lemma_best_own(parents: Seq<Option<usize>>, own: Seq<u64>, i: int, m: int)
    requires
        0 <= i < m,
        i < parents.len(),
    ensures
        own[i] <= best_from(parents, own, i, m),
    decreases parents.len() - m,
{
    if m < parents.len() {
        lemma_best_own(parents, own, i, m + 1);
    }
}

proof fn lemma_best_bounds(parents: Seq<Option<usize>>, own: Seq<u64>, i: int, j: int)
    requires
        0 <= i < parents.len(),
        0 <= j < parents.len(),
        parents.len() <= usize::MAX,
        below(parents, i, j),
    ensures
        own[j] <= best(parents, own, i),
        best(parents, own, j) <= best(parents, own, i),
    decreases j,
{
    lemma_best_own(parents, own, j, j + 1);
    if j != i {
        let p = parents[j]->0 as int;
        lemma_best_bounds(parents, own, i, p);
        lemma_best_child(parents, own, p, p + 1, j);
    }
}

proof fn lemma_below_trans(parents: Seq<Option<usize>>, i: int, c: int, k: int)
    requires
        below(parents, c, k),
        below(parents, i, c),
    ensures
        below(parents, i, k),
    decreases k,
{
    if k != c {
        lemma_below_trans(parents, i, c, parents[k]->0 as int);
    }
}

proof fn lemma_best_reached(parents: Seq<Option<usize>>, own: Seq<u64>, i: int, m: int)
    requires
        0 <= i < m,
        i < parents.len(),
        own.len() == parents.len(),
        parents.len() <= usize::MAX,
    ensures
        exists|k: int|
            0 <= k < own.len() && #[trigger] below(parents, i, k) && own[k] == best_from(parents, own, i, m),
    decreases parents.len() - i, parents.len() - m,
{
    if m >= parents.len() {
        assert(below(parents, i, i));
    } else {
        lemma_best_reached(parents, own, i, m + 1);
        if parents[m] == Some(i as usize) {
            lemma_best_reached(parents, own, m, m + 1);
            let b = best_from(parents, own, m, m + 1);
            if best_from(parents, own, i, m + 1) < b {
                let k = choose|k: int| 0 <= k < own.len() && #[trigger] below(parents, m, k) && own[k] == b;
                assert(below(parents, i, i));
                assert(below(parents, i, m));
                lemma_below_trans(parents, i, m, k);
            }
        }
    }
}

impl PathTree {
    /// The best rank of every node, given the rank of each one itself.
    pub fn best_ranks(&self, own: &Vec<u64>) -> (r: Vec<u64>)
        requires
            self.wf(),
            own@.len() == self.names@.len(),
        ensures
            r@.len() == own@.len(),
            forall|i: int| 0 <= i < r@.len() ==> #[trigger] r@[i] == best(self.parents@, own@, i),
    {
        let n = own.len();
        let ghost parents = self.parents@;
        let mut r: Vec<u64> = Vec::new();
        let mut k: usize = 0;
        while k < n
            invariant
                n == own@.len(),
                k <= n,
                r@ =~= own@.take(k as int),
            decreases n - k,
        {
            r.push(own[k]);
            k = k + 1;
        }
        let mut m: usize = n;
        assert forall|i: int| 0 <= i < n implies #[trigger] r@[i] == best_from(
            parents,
            own@,
            i,
            if i + 1 >= n {
                i + 1
            } else {
                n as int
            },
        ) by {}
        while m > 0
            invariant
                self.wf(),
                parents == self.parents@,
                n == own@.len(),
                n == parents.len(),
                m <= n,
                r@.len() == n,
                forall|i: int|
                    0 <= i < n ==> #[trigger] r@[i] == best_from(
                        parents,
                        own@,
                        i,
                        if i + 1 >= m {
                            i + 1
                        } else {
                            m as int
                        },
                    ),
            decreases m,
        {
            m = m - 1;
            let ghost before = r@;
            if let Some(p) = self.parents[m] {
                assert(p < m);
                let mine: u64 = r[m];
                assert(mine == best_from(parents, own@, m as int, m + 1));
                if mine > r[p] {
                    r.set(p, mine);
                }
            }
            proof {
                assert forall|i: int| 0 <= i < n implies #[trigger] r@[i] == best_from(
                    parents,
                    own@,
                    i,
                    if i + 1 >= m {
                        i + 1
                    } else {
                        m as int
                    },
                ) by {
                    if i + 1 <= m {
                        assert(before[i] == best_from(parents, own@, i, m + 1));
                        if parents[m as int] is Some && parents[m as int]->0 == i {
                            assert(parents[m as int] == Some(i as usize));
                        } else {
                            assert(r@[i] == before[i]);
                        }
                    } else {
                        assert(r@[i] == before[i]);
                    }
                }
            }
        }
        r
    }
}

/// The nodes with a parent among those before `n`, in the order of their numbers.
pub open spec fn kids(parents: Seq<Option<usize>>, parent: Option<usize>, n: int) -> Seq<usize>
    decreases n,
{
    if n <= 0 {
        Seq::empty()
    } else if parents[n - 1] == parent {
        kids(parents, parent, n - 1).push((n - 1) as usize)
    } else {
        kids(parents, parent, n - 1)
    }
}

/// The rank of each node: the highest one first, then the name.
pub open spec fn kid_keys(t: PathTree, ranks: Seq<u64>, nodes: Seq<usize>) -> Seq<TopKey> {
    Seq::new(
        nodes.len(),
        |k: int|
            TopKey { value: ranks[nodes[k] as int] as i128, name: t.names@[nodes[k] as int], file_id: 0 },
    )
}

/// The nodes with a parent as they are shown.
pub open spec fn shown_kids(t: PathTree, ranks: Seq<u64>, parent: Option<usize>) -> Seq<usize> {
    let nodes = kids(t.parents@, parent, t.names@.len() as int);
    order_of(kid_keys(t, ranks, nodes)).map_values(|k: usize| nodes[k as int])
}

pub(crate) proof fn lemma_kids(parents: Seq<Option<usize>>, parent: Option<usize>, n: int)
    requires
        0 <= n <= parents.len(),
        parents.len() <= usize::MAX,
    ensures
        forall|k: int|
            0 <= k < kids(parents, parent, n).len() ==> 0 <= #[trigger] kids(parents, parent, n)[k] < n
                && parents[kids(parents, parent, n)[k] as int] == parent,
    decreases n,
{
    if n > 0 {
        lemma_kids(parents, parent, n - 1);
        let rest = kids(parents, parent, n - 1);
        let all = kids(parents, parent, n);
        assert forall|k: int| 0 <= k < all.len() implies 0 <= #[trigger] all[k] < n && parents[all[k] as int] == parent by {
            if k < rest.len() {
                assert(all[k] == rest[k]);
            }
        }
    }
}

/// A line of a tree.
#[derive(Debug)]
pub struct TreeLine {
    pub node: usize,
    /// What stands in front of the branch.
    pub prefix: String,
    /// No node with the same parent follows.
    pub is_last: bool,
    pub is_root: bool,
}

/// A line of a tree.
pub struct LineView {
    pub node: usize,
    pub prefix: Seq<char>,
    pub is_last: bool,
    pub is_root: bool,
}

/// What a line shows.
pub open spec fn line_view(l: TreeLine) -> LineView {
    LineView { node: l.node, prefix: l.prefix@, is_last: l.is_last, is_root: l.is_root }
}

/// What lines show.
pub open spec fn line_views(ls: Seq<TreeLine>) -> Seq<LineView> {
    ls.map_values(|l: TreeLine| line_view(l))
}

/// What stands in front of the lines below a node.
pub open spec fn deeper(prefix: Seq<char>, is_last: bool, is_root: bool) -> Seq<char> {
    if is_root {
        ""@
    } else if is_last {
        prefix + "    "@
    } else {
        prefix + "\u{2502}   "@
    }
}

/// The lines of a node and of all below it, at most `depth` levels of them.
pub open spec fn node_lines(t: PathTree, ranks: Seq<u64>, line: LineView, depth: nat) -> Seq<LineView>
    decreases depth, 0nat, 0nat,
{
    if depth == 0 {
        Seq::empty()
    } else {
        seq![line] + list_lines(
            t,
            ranks,
            shown_kids(t, ranks, Some(line.node)),
            deeper(line.prefix, line.is_last, line.is_root),
            false,
            (depth - 1) as nat,
        )
    }
}

/// The lines of nodes that follow one another and of all below them.
pub open spec fn list_lines(t: PathTree, ranks: Seq<u64>, nodes: Seq<usize>, prefix: Seq<char>, is_root: bool, depth: nat) -> Seq<LineView>
    decreases depth, 1nat, nodes.len(),
{
    if nodes.len() == 0 {
        Seq::empty()
    } else {
        node_lines(
            t,
            ranks,
            LineView { node: nodes[0], prefix, is_last: !is_root && nodes.len() == 1, is_root },
            depth,
        ) + list_lines(t, ranks, nodes.skip(1), prefix, is_root, depth)
    }
}

/// All lines of a tree: each root with all below it.
pub open spec fn tree_lines(t: PathTree, ranks: Seq<u64>) -> Seq<LineView> {
    list_lines(t, ranks, shown_kids(t, ranks, None), ""@, true, t.names@.len())
}

impl PathTree {
    fn sorted_kids(&self, ranks: &Vec<u64>, parent: Option<usize>) -> (r: Vec<usize>)
        requires
            self.wf(),
            ranks@.len() == self.names@.len(),
        ensures
            r@ == shown_kids(*self, ranks@, parent),
            forall|k: int|
                0 <= k < r@.len() ==> #[trigger] r@[k] < self.names@.len() && self.parents@[r@[k] as int] == parent,
    {
        let n = self.names.len();
        let ghost parents = self.parents@;
        let mut nodes: Vec<usize> = Vec::new();
        let mut i: usize = 0;
        while i < n
            invariant
                self.wf(),
                n == self.names@.len(),
                parents == self.parents@,
                i <= n,
                nodes@ == kids(parents, parent, i as int),
            decreases n - i,
        {
            let same = match (self.parents[i], parent) {
                (Some(a), Some(b)) => a == b,
                (None, None) => true,
                _ => false,
            };
            if same {
                nodes.push(i);
            }
            i = i + 1;
        }
        proof {
            lemma_kids(parents, parent, n as int);
        }
        let mut keys: Vec<TopKey> = Vec::new();
        let mut k: usize = 0;
        while k < nodes.len()
            invariant
                self.wf(),
                n == self.names@.len(),
                ranks@.len() == n,
                nodes@ == kids(parents, parent, n as int),
                forall|j: int|
                    0 <= j < nodes@.len() ==> 0 <= #[trigger] nodes@[j] < n && parents[nodes@[j] as int] == parent,
                k <= nodes@.len(),
                keys@.len() == k,
                forall|j: int| 0 <= j < k ==> #[trigger] keys@[j] == kid_keys(*self, ranks@, nodes@)[j],
            decreases nodes@.len() - k,
        {
            let at = nodes[k];
            keys.push(TopKey { value: ranks[at] as i128, name: self.names[at].clone(), file_id: 0 });
            k = k + 1;
        }
        assert(keys@ =~= kid_keys(*self, ranks@, nodes@));
        let order = stable_order(&keys);
        let mut r: Vec<usize> = Vec::new();
        let mut j: usize = 0;
        while j < order.len()
            invariant
                is_stable_order(keys@, order@),
                keys@.len() == nodes@.len(),
                n == self.names@.len(),
                parents == self.parents@,
                forall|x: int|
                    0 <= x < nodes@.len() ==> 0 <= #[trigger] nodes@[x] < n && parents[nodes@[x] as int] == parent,
                j <= order@.len(),
                r@.len() == j,
                forall|x: int| 0 <= x < j ==> #[trigger] r@[x] == nodes@[order@[x] as int],
                forall|x: int| 0 <= x < j ==> #[trigger] r@[x] < n && parents[r@[x] as int] == parent,
            decreases order@.len() - j,
        {
            r.push(nodes[order[j]]);
            j = j + 1;
        }
        assert(r@ =~= shown_kids(*self, ranks@, parent));
        r
    }

    fn push_list(&self, ranks: &Vec<u64>, nodes: &Vec<usize>, prefix: &str, is_root: bool, depth: usize, out: &mut Vec<TreeLine>)
        requires
            self.wf(),
            ranks@.len() == self.names@.len(),
            forall|k: int| 0 <= k < nodes@.len() ==> #[trigger] nodes@[k] < self.names@.len(),
        ensures
            line_views(final(out)@) == line_views(old(out)@) + list_lines(
                *self,
                ranks@,
                nodes@,
                prefix@,
                is_root,
                depth as nat,
            ),
        decreases depth, 1nat,
    {
        let n = nodes.len();
        let ghost start = line_views(out@);
        let ghost all = list_lines(*self, ranks@, nodes@, prefix@, is_root, depth as nat);
        let mut k: usize = 0;
        assert(nodes@.skip(0) =~= nodes@);
        while k < n
            invariant
                self.wf(),
                ranks@.len() == self.names@.len(),
                n == nodes@.len(),
                forall|j: int| 0 <= j < nodes@.len() ==> #[trigger] nodes@[j] < self.names@.len(),
                start == line_views(old(out)@),
                all == list_lines(*self, ranks@, nodes@, prefix@, is_root, depth as nat),
                k <= n,
                start + all == line_views(out@) + list_lines(
                    *self,
                    ranks@,
                    nodes@.skip(k as int),
                    prefix@,
                    is_root,
                    depth as nat,
                ),
            decreases n - k,
        {
            let ghost rest = nodes@.skip(k as int);
            let is_last = !is_root && k + 1 == n;
            let line = TreeLine { node: nodes[k], prefix: prefix.to_owned(), is_last, is_root };
            let ghost v = line_view(line);
            let ghost before = line_views(out@);
            self.push_node(ranks, line, depth, out);
            proof {
                assert(rest[0] == nodes@[k as int]);
                assert(rest.skip(1) =~= nodes@.skip(k + 1));
                assert(v == (LineView { node: rest[0], prefix: prefix@, is_last: !is_root && rest.len() == 1, is_root }));
                let a = node_lines(*self, ranks@, v, depth as nat);
                let b = list_lines(*self, ranks@, nodes@.skip(k + 1), prefix@, is_root, depth as nat);
                assert(before + (a + b) =~= (before + a) + b);
            }
            k = k + 1;
        }
        assert(nodes@.skip(k as int) =~= Seq::<usize>::empty());
        assert(line_views(out@) + Seq::<LineView>::empty() =~= line_views(out@));
    }

    fn push_node(&self, ranks: &Vec<u64>, line: TreeLine, depth: usize, out: &mut Vec<TreeLine>)
        requires
            self.wf(),
            ranks@.len() == self.names@.len(),
            line.node < self.names@.len(),
        ensures
            line_views(final(out)@) == line_views(old(out)@) + node_lines(
                *self,
                ranks@,
                line_view(line),
                depth as nat,
            ),
        decreases depth, 0nat,
    {
        let ghost before = line_views(out@);
        let ghost v = line_view(line);
        if depth == 0 {
            assert(before + Seq::<LineView>::empty() =~= before);
            return;
        }
        let kids = self.sorted_kids(ranks, Some(line.node));
        let mut prefix = "".to_owned();
        if !line.is_root {
            prefix = line.prefix.clone();
            if line.is_last {
                prefix.append("    ");
            } else {
                prefix.append("\u{2502}   ");
            }
        }
        out.push(line);
        proof {
            assert(line_views(out@) =~= before + seq![v]);
        }
        self.push_list(ranks, &kids, prefix.as_str(), false, depth - 1, out);
        proof {
            let rest = list_lines(
                *self,
                ranks@,
                shown_kids(*self, ranks@, Some(v.node)),
                deeper(v.prefix, v.is_last, v.is_root),
                false,
                (depth - 1) as nat,
            );
            assert((before + seq![v]) + rest =~= before + (seq![v] + rest));
        }
    }

    /// The lines of the tree. Nodes with the same parent follow one another by rank, the
    /// highest first, and then by name.
    pub fn lines(&self, ranks: &Vec<u64>) -> (r: Vec<TreeLine>)
        requires
            self.wf(),
            ranks@.len() == self.names@.len(),
        ensures
            line_views(r@) == tree_lines(*self, ranks@),
    {
        let roots = self.sorted_kids(ranks, None);
        let mut r: Vec<TreeLine> = Vec::new();
        let ghost none = line_views(r@);
        assert(none =~= Seq::<LineView>::empty());
        self.push_list(ranks, &roots, "", true, self.names.len(), &mut r);
        assert(none + tree_lines(*self, ranks@) =~= tree_lines(*self, ranks@));
        r
    }
}

} // verus!
