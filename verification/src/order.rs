//! Stable ordering of numbered items.

use vstd::prelude::*;

verus! {

/// A total preorder: what sorting goes by.
pub trait Rank: Sized {
    /// This item does not come after the other one.
    spec fn at_most(&self, other: &Self) -> bool;

    proof fn lemma_total(a: &Self, b: &Self)
        ensures
            a.at_most(b) || b.at_most(a),
    ;

    proof fn lemma_transitive(a: &Self, b: &Self, c: &Self)
        requires
            a.at_most(b),
            b.at_most(c),
        ensures
            a.at_most(c),
    ;

    fn is_at_most(&self, other: &Self) -> (r: bool)
        ensures
            r == self.at_most(other),
    ;
}

impl Rank for i128 {
    open spec fn at_most(&self, other: &i128) -> bool {
        *self <= *other
    }

    proof fn lemma_total(a: &i128, b: &i128) {
    }

    proof fn lemma_transitive(a: &i128, b: &i128, c: &i128) {
    }

    fn is_at_most(&self, other: &i128) -> (r: bool) {
        *self <= *other
    }
}

/// Item `i` comes before item `j`: by rank, and for equal ranks by number.
pub open spec fn before<T: Rank>(items: Seq<T>, i: int, j: int) -> bool {
    items[i].at_most(&items[j]) && (items[j].at_most(&items[i]) ==> i < j)
}

/// `s` lists items in the order given by `before`.
pub open spec fn in_order<T: Rank>(items: Seq<T>, s: Seq<usize>) -> bool {
    forall|i: int, j: int|
        0 <= i < j < s.len() ==> before(items, #[trigger] s[i] as int, #[trigger] s[j] as int)
}

/// `s` lists every number from `lo` up to `hi`, and no other.
pub open spec fn lists_range(s: Seq<usize>, lo: int, hi: int) -> bool {
    &&& s.len() == hi - lo
    &&& forall|k: int| 0 <= k < s.len() ==> lo <= #[trigger] s[k] < hi
    &&& forall|x: usize| lo <= x < hi ==> #[trigger] s.contains(x)
}

/// `s` is the stable order of all items.
pub open spec fn is_stable_order<T: Rank>(items: Seq<T>, s: Seq<usize>) -> bool {
    lists_range(s, 0, items.len() as int) && in_order(items, s)
}

proof fn lemma_push_listed(s: Seq<usize>, x: usize)
    ensures
        s.push(x).contains(x),
        forall|y: usize| s.contains(y) ==> #[trigger] s.push(x).contains(y),
{
    assert(s.push(x)[s.len() as int] == x);
    assert forall|y: usize| s.contains(y) implies #[trigger] s.push(x).contains(y) by {
        let k = choose|k: int| 0 <= k < s.len() && s[k] == y;
        assert(s.push(x)[k] == y);
    }
}

/// Taking item `x` next keeps everything taken before everything left in `rest`.
proof fn lemma_next<T: Rank>(items: Seq<T>, x: int, rest: Seq<usize>, from: int)
    requires
        in_order(items, rest),
        0 <= from < rest.len(),
        x != rest[from],
        before(items, x, rest[from] as int),
    ensures
        forall|m: int| from <= m < rest.len() ==> before(items, x, #[trigger] rest[m] as int),
{
    assert forall|m: int| from <= m < rest.len() implies before(items, x, #[trigger] rest[m] as int) by {
        if m > from {
            let a = rest[from] as int;
            let b = rest[m] as int;
            assert(before(items, a, b));
            T::lemma_transitive(&items[x], &items[a], &items[b]);
            if items[b].at_most(&items[x]) {
                T::lemma_transitive(&items[b], &items[x], &items[a]);
                T::lemma_transitive(&items[a], &items[b], &items[x]);
            }
        }
    }
}

fn merge<T: Rank>(
    items: &Vec<T>,
    a: &Vec<usize>,
    b: &Vec<usize>,
    Ghost(lo): Ghost<int>,
    Ghost(mid): Ghost<int>,
    Ghost(hi): Ghost<int>,
) -> (r: Vec<usize>)
    requires
        0 <= lo <= mid <= hi <= items@.len(),
        lists_range(a@, lo, mid),
        lists_range(b@, mid, hi),
        in_order(items@, a@),
        in_order(items@, b@),
    ensures
        lists_range(r@, lo, hi),
        in_order(items@, r@),
{
    let mut r: Vec<usize> = Vec::new();
    let mut i: usize = 0;
    let mut j: usize = 0;
    while i < a.len() || j < b.len()
        invariant
            0 <= lo <= mid <= hi <= items@.len(),
            lists_range(a@, lo, mid),
            lists_range(b@, mid, hi),
            in_order(items@, a@),
            in_order(items@, b@),
            i <= a@.len(),
            j <= b@.len(),
            r@.len() == i + j,
            in_order(items@, r@),
            forall|k: int| 0 <= k < r@.len() ==> lo <= #[trigger] r@[k] < hi,
            forall|k: int, m: int|
                0 <= k < r@.len() && i <= m < a@.len() ==> before(
                    items@,
                    #[trigger] r@[k] as int,
                    #[trigger] a@[m] as int,
                ),
            forall|k: int, m: int|
                0 <= k < r@.len() && j <= m < b@.len() ==> before(
                    items@,
                    #[trigger] r@[k] as int,
                    #[trigger] b@[m] as int,
                ),
            forall|m: int| 0 <= m < i ==> r@.contains(#[trigger] a@[m]),
            forall|m: int| 0 <= m < j ==> r@.contains(#[trigger] b@[m]),
        decreases a@.len() - i + b@.len() - j,
    {
        let from_a = if i >= a.len() {
            false
        } else if j >= b.len() {
            true
        } else {
            items[a[i]].is_at_most(&items[b[j]])
        };
        if from_a {
            proof {
                lemma_push_listed(r@, a@[i as int]);
                if j < b@.len() {
                    lemma_next(items@, a@[i as int] as int, b@, j as int);
                }
            }
            r.push(a[i]);
            i = i + 1;
        } else {
            proof {
                lemma_push_listed(r@, b@[j as int]);
                if i < a@.len() {
                    T::lemma_total(&items@[a@[i as int] as int], &items@[b@[j as int] as int]);
                    lemma_next(items@, b@[j as int] as int, a@, i as int);
                }
            }
            r.push(b[j]);
            j = j + 1;
        }
    }
    assert forall|x: usize| lo <= x < hi implies #[trigger] r@.contains(x) by {
        if x < mid {
            assert(a@.contains(x));
            let m = choose|m: int| 0 <= m < a@.len() && a@[m] == x;
            assert(r@.contains(a@[m]));
        } else {
            assert(b@.contains(x));
            let m = choose|m: int| 0 <= m < b@.len() && b@[m] == x;
            assert(r@.contains(b@[m]));
        }
    }
    r
}

fn order_range<T: Rank>(items: &Vec<T>, lo: usize, hi: usize) -> (r: Vec<usize>)
    requires
        lo <= hi <= items@.len(),
    ensures
        lists_range(r@, lo as int, hi as int),
        in_order(items@, r@),
    decreases hi - lo,
{
    if hi - lo == 0 {
        return Vec::new();
    }
    if hi - lo == 1 {
        let mut one: Vec<usize> = Vec::new();
        one.push(lo);
        assert(one@[0] == lo);
        assert forall|x: usize| lo <= x < hi implies #[trigger] one@.contains(x) by {
            assert(one@[0] == x);
        }
        return one;
    }
    let mid = lo + (hi - lo) / 2;
    let a = order_range(items, lo, mid);
    let b = order_range(items, mid, hi);
    merge(items, &a, &b, Ghost(lo as int), Ghost(mid as int), Ghost(hi as int))
}

/// The numbers of all items in their stable order.
pub open spec fn order_of<T: Rank>(items: Seq<T>) -> Seq<usize> {
    choose|s: Seq<usize>| is_stable_order(items, s)
}

/// The first place in a sorted list at which an item stands that must come after item `n`.
proof fn lemma_place<T: Rank>(items: Seq<T>, s: Seq<usize>, n: int) -> (p: int)
    requires
        in_order(items, s),
        lists_range(s, 0, n),
        0 <= n < items.len(),
    ensures
        0 <= p <= s.len(),
        forall|k: int| 0 <= k < p ==> items[(#[trigger] s[k]) as int].at_most(&items[n]),
        forall|k: int| p <= k < s.len() ==> !items[(#[trigger] s[k]) as int].at_most(&items[n]),
{
    if forall|k: int| 0 <= k < s.len() ==> items[(#[trigger] s[k]) as int].at_most(&items[n]) {
        s.len() as int
    } else {
        let first = choose|k: int| 0 <= k < s.len() && !items[(#[trigger] s[k]) as int].at_most(&items[n]);
        lemma_first_place(items, s, n, first)
    }
}

proof fn lemma_first_place<T: Rank>(items: Seq<T>, s: Seq<usize>, n: int, k: int) -> (p: int)
    requires
        in_order(items, s),
        lists_range(s, 0, n),
        0 <= n < items.len(),
        0 <= k < s.len(),
        !items[s[k] as int].at_most(&items[n]),
    ensures
        0 <= p <= s.len(),
        forall|j: int| 0 <= j < p ==> items[(#[trigger] s[j]) as int].at_most(&items[n]),
        forall|j: int| p <= j < s.len() ==> !items[(#[trigger] s[j]) as int].at_most(&items[n]),
    decreases k,
{
    if exists|j: int| 0 <= j < k && !items[(#[trigger] s[j]) as int].at_most(&items[n]) {
        let j = choose|j: int| 0 <= j < k && !items[(#[trigger] s[j]) as int].at_most(&items[n]);
        lemma_first_place(items, s, n, j)
    } else {
        assert forall|j: int| k <= j < s.len() implies !items[(#[trigger] s[j]) as int].at_most(&items[n]) by {
            if k < j && items[s[j] as int].at_most(&items[n]) {
                assert(before(items, s[k] as int, s[j] as int));
                T::lemma_transitive(&items[s[k] as int], &items[s[j] as int], &items[n]);
            }
        }
        k
    }
}

proof fn lemma_order_of_first<T: Rank>(items: Seq<T>, n: int) -> (s: Seq<usize>)
    requires
        0 <= n <= items.len() <= usize::MAX,
    ensures
        in_order(items, s),
        lists_range(s, 0, n),
    decreases n,
{
    if n == 0 {
        Seq::empty()
    } else {
        let m = n - 1;
        let s = lemma_order_of_first(items, m);
        let p = lemma_place(items, s, m);
        let t = s.take(p).push(m as usize) + s.skip(p);
        assert forall|i: int, j: int| 0 <= i < j < t.len() implies before(
            items,
            #[trigger] t[i] as int,
            #[trigger] t[j] as int,
        ) by {
            if i < p && j > p {
                assert(t[i] == s[i] && t[j] == s[j - 1]);
            } else if j < p {
                assert(t[i] == s[i] && t[j] == s[j]);
            } else if i > p {
                assert(t[i] == s[i - 1] && t[j] == s[j - 1]);
            } else if j == p {
                assert(t[i] == s[i] && t[j] == m);
                assert(s.contains(s[i]));
                assert(s[i] < m);
            } else {
                assert(t[i] == m && t[j] == s[j - 1]);
                T::lemma_total(&items[m], &items[s[j - 1] as int]);
            }
        }
        assert forall|x: usize| #[trigger] t.contains(x) <==> 0 <= x < n by {
            if t.contains(x) {
                let k = choose|k: int| 0 <= k < t.len() && t[k] == x;
                if k < p {
                    assert(s[k] == x);
                } else if k > p {
                    assert(s[k - 1] == x);
                }
                if k != p {
                    assert(s.contains(x));
                }
            }
            if 0 <= x < n {
                if x == m {
                    assert(t[p] == x);
                } else {
                    assert(s.contains(x));
                    let k = choose|k: int| 0 <= k < s.len() && s[k] == x;
                    if k < p {
                        assert(t[k] == x);
                    } else {
                        assert(t[k + 1] == x);
                    }
                }
            }
        }
        t
    }
}

/// Items that can be numbered have a stable order.
pub proof fn law_order_exists<T: Rank>(items: Seq<T>)
    requires
        items.len() <= usize::MAX,
    ensures
        is_stable_order(items, order_of(items)),
{
    let s = lemma_order_of_first(items, items.len() as int);
    assert(is_stable_order(items, s));
}

/// The numbers of all items by ascending rank; items of equal rank keep their order.
pub fn stable_order<T: Rank>(items: &Vec<T>) -> (r: Vec<usize>)
    ensures
        is_stable_order(items@, r@),
        r@ == order_of(items@),
{
    let r = order_range(items, 0, items.len());
    proof {
        assert(is_stable_order(items@, r@));
        law_order_unique(items@, r@, order_of(items@));
    }
    r
}

/// A stable order lists each number once.
pub proof fn lemma_order_distinct<T: Rank>(items: Seq<T>, s: Seq<usize>)
    requires
        is_stable_order(items, s),
    ensures
        s.no_duplicates(),
{
    assert forall|i: int, j: int| 0 <= i < s.len() && 0 <= j < s.len() && i != j implies s[i] != s[j] by {
        if i < j {
            assert(before(items, s[i] as int, s[j] as int));
        } else {
            assert(before(items, s[j] as int, s[i] as int));
        }
    }
}

proof fn lemma_order_agrees<T: Rank>(items: Seq<T>, s: Seq<usize>, t: Seq<usize>, k: int)
    requires
        is_stable_order(items, s),
        is_stable_order(items, t),
        0 <= k <= items.len(),
    ensures
        forall|i: int| 0 <= i < k ==> s[i] == t[i],
    decreases k,
{
    if k > 0 {
        lemma_order_agrees(items, s, t, k - 1);
        let n = k - 1;
        if s[n] != t[n] {
            lemma_order_distinct(items, s);
            lemma_order_distinct(items, t);
            assert(t.contains(s[n]));
            let m = choose|m: int| 0 <= m < t.len() && t[m] == s[n];
            assert(s.contains(t[n]));
            let l = choose|l: int| 0 <= l < s.len() && s[l] == t[n];
            assert(m > n) by {
                if m < n {
                    assert(s[m] == s[n]);
                }
            }
            assert(l > n) by {
                if l < n {
                    assert(t[l] == t[n]);
                }
            }
            assert(before(items, t[n] as int, t[m] as int));
            assert(before(items, s[n] as int, s[l] as int));
        }
    }
}

/// There is only one stable order.
pub proof fn law_order_unique<T: Rank>(items: Seq<T>, s: Seq<usize>, t: Seq<usize>)
    requires
        is_stable_order(items, s),
        is_stable_order(items, t),
    ensures
        s == t,
{
    lemma_order_agrees(items, s, t, items.len() as int);
    assert(s =~= t);
}

/// Byte strings in lexicographic order.
pub open spec fn bytes_at_most(a: Seq<u8>, b: Seq<u8>) -> bool
    decreases a.len(),
{
    if a.len() == 0 {
        true
    } else if b.len() == 0 {
        false
    } else {
        a[0] < b[0] || (a[0] == b[0] && bytes_at_most(a.skip(1), b.skip(1)))
    }
}

pub proof fn lemma_bytes_total(a: Seq<u8>, b: Seq<u8>)
    ensures
        bytes_at_most(a, b) || bytes_at_most(b, a),
    decreases a.len(),
{
    if a.len() > 0 && b.len() > 0 {
        lemma_bytes_total(a.skip(1), b.skip(1));
    }
}

pub proof fn lemma_bytes_transitive(a: Seq<u8>, b: Seq<u8>, c: Seq<u8>)
    requires
        bytes_at_most(a, b),
        bytes_at_most(b, c),
    ensures
        bytes_at_most(a, c),
    decreases a.len(),
{
    if a.len() > 0 && a[0] == b[0] && b[0] == c[0] {
        lemma_bytes_transitive(a.skip(1), b.skip(1), c.skip(1));
    }
}

pub proof fn lemma_bytes_antisymmetric(a: Seq<u8>, b: Seq<u8>)
    requires
        bytes_at_most(a, b),
        bytes_at_most(b, a),
    ensures
        a == b,
    decreases a.len(),
{
    if a.len() > 0 && b.len() > 0 {
        lemma_bytes_antisymmetric(a.skip(1), b.skip(1));
        assert(a =~= seq![a[0]] + a.skip(1));
        assert(b =~= seq![b[0]] + b.skip(1));
    } else {
        assert(a =~= b);
    }
}

proof fn lemma_bytes_skip(a: Seq<u8>, b: Seq<u8>, i: int)
    requires
        0 <= i <= a.len(),
        i <= b.len(),
        forall|k: int| 0 <= k < i ==> a[k] == b[k],
    ensures
        bytes_at_most(a, b) == bytes_at_most(a.skip(i), b.skip(i)),
    decreases i,
{
    if i == 0 {
        assert(a.skip(0) =~= a);
        assert(b.skip(0) =~= b);
    } else {
        lemma_bytes_skip(a.skip(1), b.skip(1), i - 1);
        assert(a.skip(1).skip(i - 1) =~= a.skip(i));
        assert(b.skip(1).skip(i - 1) =~= b.skip(i));
    }
}

/// Whether one byte string does not come after another.
pub fn is_bytes_at_most(a: &[u8], b: &[u8]) -> (r: bool)
    ensures
        r == bytes_at_most(a@, b@),
{
    let mut i: usize = 0;
    while i < a.len() && i < b.len()
        invariant
            i <= a@.len(),
            i <= b@.len(),
            forall|k: int| 0 <= k < i ==> a@[k] == b@[k],
        decreases a@.len() - i,
    {
        if a[i] != b[i] {
            proof {
                lemma_bytes_skip(a@, b@, i as int);
            }
            return a[i] < b[i];
        }
        i = i + 1;
    }
    proof {
        lemma_bytes_skip(a@, b@, i as int);
    }
    i >= a.len()
}

/// Byte strings are in order by the first byte in which they differ, and one that begins
/// another comes before it.
pub proof fn law_bytes_in_order(p: Seq<u8>, x: u8, a: Seq<u8>, y: u8, b: Seq<u8>)
    ensures
        x < y ==> bytes_at_most(p.push(x) + a, p.push(y) + b) && !bytes_at_most(p.push(y) + b, p.push(x) + a),
        bytes_at_most(p, p + a),
        a.len() > 0 ==> !bytes_at_most(p + a, p),
    decreases p.len(),
{
    if p.len() > 0 {
        let rest = p.skip(1);
        law_bytes_in_order(rest, x, a, y, b);
        assert((p.push(x) + a).skip(1) =~= rest.push(x) + a);
        assert((p.push(y) + b).skip(1) =~= rest.push(y) + b);
        assert((p + a).skip(1) =~= rest + a);
        assert((p.push(x) + a)[0] == p[0]);
        assert((p.push(y) + b)[0] == p[0]);
        assert((p + a)[0] == p[0]);
    } else {
        assert((p.push(x) + a)[0] == x);
        assert((p.push(y) + b)[0] == y);
    }
}

} // verus!
