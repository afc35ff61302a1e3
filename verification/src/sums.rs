//! Sums over sequences.

use vstd::prelude::*;

verus! {

/// The sum of a sequence of numbers.
pub open spec fn total(s: Seq<int>) -> int
    decreases s.len(),
{
    if s.len() == 0 {
        0
    } else {
        total(s.drop_last()) + s.last()
    }
}

pub proof fn lemma_total_push(s: Seq<int>, x: int)
    ensures
        total(s.push(x)) == total(s) + x,
{
    assert(s.push(x).drop_last() =~= s);
}

pub proof fn lemma_total_update(s: Seq<int>, i: int, x: int)
    requires
        0 <= i < s.len(),
    ensures
        total(s.update(i, x)) == total(s) - s[i] + x,
    decreases s.len(),
{
    if i == s.len() - 1 {
        assert(s.update(i, x).drop_last() =~= s.drop_last());
    } else {
        assert(s.update(i, x).drop_last() =~= s.drop_last().update(i, x));
        lemma_total_update(s.drop_last(), i, x);
    }
}

pub proof fn lemma_total_nonneg(s: Seq<int>)
    requires
        forall|i: int| 0 <= i < s.len() ==> #[trigger] s[i] >= 0,
    ensures
        total(s) >= 0,
    decreases s.len(),
{
    if s.len() > 0 {
        lemma_total_nonneg(s.drop_last());
        assert(s.last() >= 0);
    }
}

/// One or two entries of a sequence without negative numbers never exceed the sum.
pub proof fn lemma_total_bounds(s: Seq<int>, i: int, j: int)
    requires
        forall|k: int| 0 <= k < s.len() ==> #[trigger] s[k] >= 0,
        0 <= i < s.len(),
        0 <= j < s.len(),
    ensures
        s[i] <= total(s),
        i != j ==> s[i] + s[j] <= total(s),
{
    let a = s.update(i, 0);
    lemma_total_update(s, i, 0);
    lemma_total_nonneg(a);
    let b = a.update(j, 0);
    lemma_total_update(a, j, 0);
    lemma_total_nonneg(b);
}

pub proof fn lemma_total_zero(s: Seq<int>)
    requires
        forall|i: int| 0 <= i < s.len() ==> #[trigger] s[i] == 0,
    ensures
        total(s) == 0,
    decreases s.len(),
{
    if s.len() > 0 {
        assert(s.last() == 0);
        lemma_total_zero(s.drop_last());
    }
}

pub proof fn lemma_total_add(a: Seq<int>, b: Seq<int>)
    ensures
        total(a + b) == total(a) + total(b),
    decreases b.len(),
{
    if b.len() == 0 {
        assert(a + b =~= a);
    } else {
        assert((a + b).drop_last() =~= a + b.drop_last());
        lemma_total_add(a, b.drop_last());
    }
}

/// The sum of a beginning grows with each entry and never exceeds the whole sum.
pub proof fn lemma_total_prefix(s: Seq<int>, i: int)
    requires
        forall|k: int| 0 <= k < s.len() ==> #[trigger] s[k] >= 0,
        0 <= i < s.len(),
    ensures
        total(s.take(i + 1)) == total(s.take(i)) + s[i],
        total(s.take(i + 1)) <= total(s),
{
    assert(s.take(i + 1).drop_last() =~= s.take(i));
    assert(s =~= s.take(i + 1) + s.skip(i + 1));
    lemma_total_add(s.take(i + 1), s.skip(i + 1));
    lemma_total_nonneg(s.skip(i + 1));
}

/// A zero adds nothing.
pub proof fn lemma_total_drop(s: Seq<int>, i: int)
    requires
        0 <= i < s.len(),
        s[i] == 0,
    ensures
        total(s.remove(i)) == total(s),
{
    let a = s.take(i);
    let b = s.skip(i + 1);
    assert(s =~= a.push(0) + b);
    assert(s.remove(i) =~= a + b);
    lemma_total_add(a.push(0), b);
    lemma_total_add(a, b);
    lemma_total_push(a, 0);
}

/// Without an entry, the sum is less by that entry.
pub proof fn lemma_total_remove(s: Seq<int>, i: int)
    requires
        0 <= i < s.len(),
    ensures
        total(s.remove(i)) == total(s) - s[i],
{
    lemma_total_update(s, i, 0);
    let z = s.update(i, 0);
    lemma_total_drop(z, i);
    assert(z.remove(i) =~= s.remove(i));
}

/// A sum does not depend on the order.
pub proof fn lemma_total_permuted(s: Seq<int>, o: Seq<usize>)
    requires
        o.len() == s.len(),
        o.no_duplicates(),
        forall|k: int| 0 <= k < o.len() ==> #[trigger] o[k] < s.len(),
        forall|x: usize| x < s.len() ==> #[trigger] o.contains(x),
        s.len() <= usize::MAX,
    ensures
        total(o.map_values(|i: usize| s[i as int])) == total(s),
    decreases s.len(),
{
    let pick = |i: usize| s[i as int];
    let all = o.map_values(pick);
    if s.len() > 0 {
        let n = s.len() - 1;
        assert(o.contains(n as usize));
        let k = choose|k: int| 0 <= k < o.len() && o[k] == n as usize;
        let less = o.remove(k);
        let part = s.drop_last();
        assert forall|j: int| 0 <= j < less.len() implies #[trigger] less[j] < part.len() by {
            let at = if j < k {
                j
            } else {
                j + 1
            };
            assert(less[j] == o[at]);
            assert(o[at] != o[k]);
        }
        assert forall|x: usize| x < part.len() implies #[trigger] less.contains(x) by {
            assert(o.contains(x));
            let j = choose|j: int| 0 <= j < o.len() && o[j] == x;
            assert(j != k);
            if j < k {
                assert(less[j] == x);
            } else {
                assert(less[j - 1] == x);
            }
        }
        assert(less.no_duplicates()) by {
            assert forall|i: int, j: int| 0 <= i < less.len() && 0 <= j < less.len() && i != j implies less[i] != less[j] by {
                let a = if i < k {
                    i
                } else {
                    i + 1
                };
                let b = if j < k {
                    j
                } else {
                    j + 1
                };
                assert(less[i] == o[a] && less[j] == o[b] && a != b);
            }
        }
        lemma_total_permuted(part, less);
        assert(less.map_values(|i: usize| part[i as int]) =~= all.remove(k));
        lemma_total_remove(all, k);
    } else {
        assert(all =~= s);
    }
}

/// A sum over the elements that are kept is one over all, with nothing for the others.
pub proof fn lemma_total_filtered<T>(s: Seq<T>, pred: spec_fn(T) -> bool, f: spec_fn(T) -> int)
    ensures
        total(s.filter(pred).map_values(f)) == total(
            s.map_values(
                |x: T|
                    if pred(x) {
                        f(x)
                    } else {
                        0
                    },
            ),
        ),
    decreases s.len(),
{
    reveal(Seq::filter);
    let g = |x: T|
        if pred(x) {
            f(x)
        } else {
            0
        };
    if s.len() == 0 {
        assert(s.filter(pred).map_values(f) =~= s.map_values(g));
    } else {
        let part = s.drop_last();
        lemma_total_filtered(part, pred, f);
        assert(s.map_values(g).drop_last() =~= part.map_values(g));
        if pred(s.last()) {
            assert(s.filter(pred).map_values(f) =~= part.filter(pred).map_values(f).push(f(s.last())));
            lemma_total_push(part.filter(pred).map_values(f), f(s.last()));
        }
    }
}

/// Ones add up to their number.
pub proof fn lemma_total_ones(s: Seq<int>)
    requires
        forall|i: int| 0 <= i < s.len() ==> #[trigger] s[i] == 1,
    ensures
        total(s) == s.len(),
    decreases s.len(),
{
    if s.len() > 0 {
        assert(s[s.len() - 1] == 1);
        lemma_total_ones(s.drop_last());
    }
}

} // verus!
