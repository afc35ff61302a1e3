//! Walking up from a file through the parents that are known.
//!
//! Parents come from a table that may be incomplete and may even run in circles, so
//! every walk here ends at the first node that was met before.

use crate::sums::{lemma_total_nonneg, lemma_total_prefix, total};
use crate::text::{join, joined, str_eq, views};
use std::collections::{HashMap, HashSet};
use vstd::prelude::*;

verus! {

/// The node `k` steps above `start`, if every step on the way is known. Node 0 has
/// no parent.
pub open spec fn above_by(parents: Map<u64, u64>, start: u64, k: nat) -> Option<u64>
    decreases k,
{
    if k == 0 {
        Some(start)
    } else {
        match above_by(parents, start, (k - 1) as nat) {
            Some(x) => if x != 0 && parents.contains_key(x) {
                Some(parents[x])
            } else {
                None
            },
            None => None,
        }
    }
}

/// `x` is `start` or lies somewhere above it.
pub open spec fn leads_to(parents: Map<u64, u64>, start: u64, x: u64) -> bool {
    exists|k: nat| #[trigger] above_by(parents, start, k) == Some(x)
}

/// `x` is a node strictly above `id`.
pub open spec fn is_above(parents: Map<u64, u64>, id: u64, x: u64) -> bool {
    x != 0 && x != id && parents.contains_key(id) && leads_to(parents, parents[id], x)
}

/// A chain that ended stays ended.
proof fn lemma_ended(parents: Map<u64, u64>, start: u64, n: nat, m: nat)
    requires
        above_by(parents, start, n) is None,
        n <= m,
    ensures
        above_by(parents, start, m) is None,
    decreases m,
{
    if m > n {
        lemma_ended(parents, start, n, (m - 1) as nat);
    }
}

/// A chain that meets an earlier node goes round among the nodes before.
proof fn lemma_round(parents: Map<u64, u64>, start: u64, n: nat, j: nat, m: nat) -> (i: nat)
    requires
        j < n,
        above_by(parents, start, n) == above_by(parents, start, j),
    ensures
        i < n,
        above_by(parents, start, m) == above_by(parents, start, i),
    decreases m,
{
    if m < n {
        m
    } else if m == n {
        j
    } else {
        let i = lemma_round(parents, start, n, j, (m - 1) as nat);
        if i + 1 < n {
            (i + 1) as nat
        } else {
            j
        }
    }
}

/// The nodes met so far on the way up from `start`.
pub open spec fn trail(parents: Map<u64, u64>, start: u64, s: Seq<u64>) -> bool {
    forall|i: int| 0 <= i < s.len() ==> above_by(parents, start, i as nat) == Some(#[trigger] s[i])
}

proof fn lemma_trail_bound(parents: Map<u64, u64>, s: Seq<u64>)
    requires
        parents.dom().finite(),
        s.no_duplicates(),
        forall|i: int| 0 <= i < s.len() ==> parents.contains_key(#[trigger] s[i]),
    ensures
        s.len() <= parents.dom().len(),
{
    s.unique_seq_to_set();
    assert(s.to_set().subset_of(parents.dom())) by {
        assert forall|x: u64| s.to_set().contains(x) implies parents.dom().contains(x) by {
            let i = choose|i: int| 0 <= i < s.len() && s[i] == x;
            assert(parents.contains_key(s[i]));
        }
    }
    vstd::set_lib::lemma_len_subset(s.to_set(), parents.dom());
}

/// The nodes strictly above `id`, the nearest first.
pub fn ancestors_of(parents: &HashMap<u64, u64>, id: u64) -> (r: Vec<u64>)
    ensures
        r@.no_duplicates(),
        forall|x: u64| #[trigger] r@.contains(x) <==> is_above(parents@, id, x),
        parents@.contains_key(id) ==> trail(parents@, parents@[id], r@),
{
    let mut chain: Vec<u64> = Vec::new();
    let mut visited: HashSet<u64> = HashSet::new();
    let first: u64 = match parents.get(&id) {
        Some(p) => *p,
        None => {
            return chain;
        },
    };
    let ghost map = parents@;
    let mut cur: u64 = first;
    let mut known = true;
    while known && cur != 0 && cur != id && !visited.contains(&cur)
        invariant
            map == parents@,
            map.contains_key(id),
            map[id] == first,
            chain@.no_duplicates(),
            trail(map, first, chain@),
            known ==> above_by(map, first, chain@.len()) == Some(cur),
            !known ==> above_by(map, first, chain@.len()) is None,
            forall|i: int| 0 <= i < chain@.len() ==> #[trigger] chain@[i] != 0 && chain@[i] != id,
            forall|i: int| 0 <= i < chain@.len() - 1 ==> map.contains_key(#[trigger] chain@[i]),
            known && chain@.len() > 0 ==> map.contains_key(chain@.last()),
            forall|x: u64| #[trigger] visited@.contains(x) <==> chain@.contains(x),
        decreases map.dom().len() + 2 - chain@.len() + (if known { 1int } else { 0 }),
    {
        let ghost before = chain@;
        visited.insert(cur);
        chain.push(cur);
        proof {
            assert(chain@.last() == cur);
            assert forall|x: u64| chain@.contains(x) <==> before.contains(x) || x == cur by {
                if before.contains(x) {
                    let i = choose|i: int| 0 <= i < before.len() && before[i] == x;
                    assert(chain@[i] == x);
                }
                assert(chain@[before.len() as int] == cur);
            }
            assert forall|i: int| 0 <= i < chain@.len() - 1 implies map.contains_key(#[trigger] chain@[i]) by {
                assert(chain@[i] == before[i]);
                if i == before.len() - 1 {
                    assert(before.last() == before[i]);
                }
            }
            lemma_trail_bound(map, before);
        }
        match parents.get(&cur) {
            Some(p) => {
                cur = *p;
            },
            None => {
                known = false;
            },
        }
    }
    proof {
        let n = chain@.len();
        assert forall|x: u64| #[trigger] chain@.contains(x) <==> is_above(map, id, x) by {
            if chain@.contains(x) {
                let i = choose|i: int| 0 <= i < chain@.len() && chain@[i] == x;
                assert(above_by(map, first, i as nat) == Some(chain@[i]));
            }
            if is_above(map, id, x) {
                let k = choose|k: nat| above_by(map, first, k) == Some(x);
                if !known {
                    if k >= n {
                        lemma_ended(map, first, n, k);
                    }
                } else if cur == 0 {
                    assert(above_by(map, first, n + 1) is None);
                    if k > n {
                        lemma_ended(map, first, n + 1, k);
                    }
                } else if cur == id {
                    assert(above_by(map, first, n + 1) == above_by(map, first, 0));
                    let i = lemma_round(map, first, n + 1, 0, k);
                    assert(above_by(map, first, i) == Some(x));
                    assert(i != n);
                    assert(chain@[i as int] == x);
                } else {
                    let j = choose|j: int| 0 <= j < chain@.len() && chain@[j] == cur;
                    assert(above_by(map, first, j as nat) == Some(chain@[j]));
                    let i = lemma_round(map, first, n, j as nat, k);
                    assert(above_by(map, first, i) == Some(x));
                    assert(chain@[i as int] == x);
                }
                if k < n {
                    assert(above_by(map, first, k) == Some(chain@[k as int]));
                    assert(chain@[k as int] == x);
                }
                assert(chain@.contains(x));
            }
        }
    }
    chain
}

proof fn lemma_shift(parents: Map<u64, u64>, id: u64, k: nat)
    requires
        id != 0,
        parents.contains_key(id),
    ensures
        above_by(parents, id, k + 1) == above_by(parents, parents[id], k),
    decreases k,
{
    if k > 0 {
        lemma_shift(parents, id, (k - 1) as nat);
    } else {
        assert(above_by(parents, id, 0) == Some(id));
    }
}

/// Whether a file is, or lies somewhere below, the given ancestor.
pub fn is_descendant_u64(parent_map: &HashMap<u64, u64>, file_id: u64, ancestor_id: u64) -> (r: bool)
    ensures
        r == leads_to(parent_map@, file_id, ancestor_id),
{
    let ghost map = parent_map@;
    if file_id == ancestor_id {
        assert(above_by(map, file_id, 0) == Some(ancestor_id));
        return true;
    }
    if file_id == 0 {
        proof {
            assert forall|k: nat| #[trigger] above_by(map, file_id, k) != Some(ancestor_id) by {
                if k > 0 {
                    assert(above_by(map, file_id, 0) == Some(0u64));
                    assert(above_by(map, file_id, 1) is None);
                    lemma_ended(map, file_id, 1, k);
                }
            }
        }
        return false;
    }
    if let Some(p) = parent_map.get(&file_id) {
        if *p == ancestor_id {
            assert(above_by(map, file_id, 0) == Some(file_id));
            assert(above_by(map, file_id, 1) == Some(ancestor_id));
            return true;
        }
    }
    let chain = ancestors_of(parent_map, file_id);
    let mut i: usize = 0;
    while i < chain.len()
        invariant
            map == parent_map@,
            file_id != 0,
            i <= chain@.len(),
            forall|x: u64| #[trigger] chain@.contains(x) <==> is_above(map, file_id, x),
            forall|j: int|
                0 <= j < i ==> !(map.contains_key(#[trigger] chain@[j]) && map[chain@[j]] == ancestor_id),
        decreases chain@.len() - i,
    {
        if let Some(p) = parent_map.get(&chain[i]) {
            if *p == ancestor_id {
                proof {
                    let x = chain@[i as int];
                    assert(chain@.contains(x));
                    let k = choose|k: nat| #[trigger] above_by(map, map[file_id], k) == Some(x);
                    lemma_shift(map, file_id, k);
                    assert(above_by(map, file_id, k + 2) == Some(ancestor_id));
                }
                return true;
            }
        }
        i = i + 1;
    }
    proof {
        assert forall|k: nat| #[trigger] above_by(map, file_id, k) != Some(ancestor_id) by {
            if above_by(map, file_id, k) == Some(ancestor_id) {
                assert(k > 0);
                let x = above_by(map, file_id, (k - 1) as nat)->0;
                assert(x != 0 && map.contains_key(x) && map[x] == ancestor_id);
                if k >= 2 {
                    assert(above_by(map, file_id, 1) is Some) by {
                        if above_by(map, file_id, 1) is None {
                            lemma_ended(map, file_id, 1, k);
                        }
                    }
                    assert(above_by(map, file_id, 0) == Some(file_id));
                    assert(map.contains_key(file_id));
                    lemma_shift(map, file_id, (k - 2) as nat);
                    assert(above_by(map, map[file_id], (k - 2) as nat) == Some(x));
                    if x != file_id {
                        assert(is_above(map, file_id, x));
                        assert(chain@.contains(x));
                        let j = choose|j: int| 0 <= j < chain@.len() && chain@[j] == x;
                        assert(map.contains_key(chain@[j]));
                    }
                } else {
                    assert(x == file_id);
                }
            }
        }
    }
    false
}

/// The node has a usable name: one that is neither empty nor the volume itself.
pub open spec fn is_named(parents: Map<u64, u64>, names: Map<u64, String>, volume: Seq<char>, id: u64) -> bool {
    &&& parents.contains_key(id)
    &&& names.contains_key(id)
    &&& names[id]@.len() > 0
    &&& names[id]@ != volume
}

/// `ids` leads from `start` up to the last node that has a usable name, without
/// meeting any node twice.
pub open spec fn is_lineage(
    parents: Map<u64, u64>,
    names: Map<u64, String>,
    volume: Seq<char>,
    start: u64,
    ids: Seq<u64>,
) -> bool {
    &&& ids.no_duplicates()
    &&& forall|i: int| 0 <= i < ids.len() ==> is_named(parents, names, volume, #[trigger] ids[i])
    &&& ids.len() > 0 ==> ids[0] == start
    &&& forall|i: int|
        0 < i < ids.len() ==> #[trigger] ids[i] == parents[ids[i - 1]] && ids[i] != 0
    &&& if ids.len() == 0 {
        !is_named(parents, names, volume, start)
    } else {
        let p = parents[ids.last()];
        p == 0 || ids.contains(p) || !is_named(parents, names, volume, p)
    }
}

/// The names of the nodes of a lineage above its start, the topmost first.
pub open spec fn upper_names(names: Map<u64, String>, ids: Seq<u64>) -> Seq<Seq<char>> {
    Seq::new(
        if ids.len() > 0 {
            (ids.len() - 1) as nat
        } else {
            0
        },
        |i: int| names[ids[ids.len() - 1 - i]]@,
    )
}

/// A start has only one lineage.
pub proof fn law_lineage_unique(
    parents: Map<u64, u64>,
    names: Map<u64, String>,
    volume: Seq<char>,
    start: u64,
    a: Seq<u64>,
    b: Seq<u64>,
)
    requires
        is_lineage(parents, names, volume, start, a),
        is_lineage(parents, names, volume, start, b),
    ensures
        a == b,
{
    lemma_lineage_prefix(parents, names, volume, start, a, b, if a.len() < b.len() { a.len() } else { b.len() });
    lemma_lineage_length(parents, names, volume, start, a, b);
    lemma_lineage_length(parents, names, volume, start, b, a);
    assert(a =~= b);
}

proof fn lemma_lineage_prefix(
    parents: Map<u64, u64>,
    names: Map<u64, String>,
    volume: Seq<char>,
    start: u64,
    a: Seq<u64>,
    b: Seq<u64>,
    n: nat,
)
    requires
        is_lineage(parents, names, volume, start, a),
        is_lineage(parents, names, volume, start, b),
        n <= a.len(),
        n <= b.len(),
    ensures
        forall|i: int| 0 <= i < n ==> a[i] == b[i],
    decreases n,
{
    if n > 0 {
        lemma_lineage_prefix(parents, names, volume, start, a, b, (n - 1) as nat);
        let k = n - 1;
        if k > 0 {
            assert(a[k] == parents[a[k - 1]]);
            assert(b[k] == parents[b[k - 1]]);
        }
    }
}

proof fn lemma_lineage_length(
    parents: Map<u64, u64>,
    names: Map<u64, String>,
    volume: Seq<char>,
    start: u64,
    a: Seq<u64>,
    b: Seq<u64>,
)
    requires
        is_lineage(parents, names, volume, start, a),
        is_lineage(parents, names, volume, start, b),
    ensures
        b.len() <= a.len(),
{
    if a.len() < b.len() {
        lemma_lineage_prefix(parents, names, volume, start, a, b, a.len());
        let n = a.len() as int;
        assert(is_named(parents, names, volume, b[n]));
        if n > 0 {
            let p = parents[a.last()];
            assert(b[n] == parents[b[n - 1]] && b[n] == p && b[n] != 0);
            if a.contains(p) {
                let i = choose|i: int| 0 <= i < a.len() && a[i] == p;
                assert(b[i] == b[n]);
            }
        }
    }
}

/// The nodes from a file up to the last one that has a usable name.
fn lineage_of(
    parent_map: &HashMap<u64, u64>,
    name_map: &HashMap<u64, String>,
    volume: &str,
    file_id: u64,
) -> (ids: Vec<u64>)
    ensures
        is_lineage(parent_map@, name_map@, volume@, file_id, ids@),
{
    let ghost parents = parent_map@;
    let ghost names = name_map@;
    let mut ids: Vec<u64> = Vec::new();
    let mut visited: HashSet<u64> = HashSet::new();
    let mut cur: u64 = file_id;
    let mut go = true;
    while go
        invariant
            parents == parent_map@,
            names == name_map@,
            ids@.no_duplicates(),
            forall|i: int| 0 <= i < ids@.len() ==> is_named(parents, names, volume@, #[trigger] ids@[i]),
            ids@.len() > 0 ==> ids@[0] == file_id,
            forall|i: int|
                0 < i < ids@.len() ==> #[trigger] ids@[i] == parents[ids@[i - 1]] && ids@[i] != 0,
            forall|x: u64| #[trigger] visited@.contains(x) <==> ids@.contains(x),
            go && ids@.len() == 0 ==> cur == file_id,
            go && ids@.len() > 0 ==> cur == parents[ids@.last()] && cur != 0,
            !go ==> is_lineage(parents, names, volume@, file_id, ids@),
        decreases parents.dom().len() + 1 - ids@.len() + (if go { 1int } else { 0 }),
    {
        proof {
            lemma_trail_bound(parents, ids@);
        }
        if visited.contains(&cur) {
            go = false;
        } else {
            let next: Option<u64> = match parent_map.get(&cur) {
                Some(p) => Some(*p),
                None => None,
            };
            let usable = match name_map.get(&cur) {
                Some(name) => !name.as_str().is_empty() && !str_eq(name.as_str(), volume),
                None => false,
            };
            match next {
                None => {
                    go = false;
                },
                Some(p) => {
                    if !usable {
                        go = false;
                    } else {
                        let ghost before = ids@;
                        visited.insert(cur);
                        ids.push(cur);
                        proof {
                            assert forall|x: u64| ids@.contains(x) <==> before.contains(x) || x == cur by {
                                if before.contains(x) {
                                    let i = choose|i: int| 0 <= i < before.len() && before[i] == x;
                                    assert(ids@[i] == x);
                                }
                                assert(ids@[before.len() as int] == cur);
                            }
                            assert forall|i: int| 0 < i < ids@.len() implies #[trigger] ids@[i] == parents[ids@[i - 1]] && ids@[i] != 0 by {
                                if i < before.len() {
                                    assert(before[i] == parents[before[i - 1]]);
                                }
                            }
                            lemma_trail_bound(parents, ids@);
                        }
                        if p == cur || p == 0 {
                            go = false;
                        } else {
                            cur = p;
                        }
                    }
                },
            }
        }
    }
    ids
}

/// The names of a lineage from the topmost node down to node `lowest`.
fn names_down_to(
    name_map: &HashMap<u64, String>,
    ids: &Vec<u64>,
    lowest: usize,
    Ghost(parents): Ghost<Map<u64, u64>>,
    Ghost(volume): Ghost<Seq<char>>,
    Ghost(start): Ghost<u64>,
) -> (parts: Vec<String>)
    requires
        is_lineage(parents, name_map@, volume, start, ids@),
        ids@.len() > 0 ==> lowest <= ids@.len(),
        ids@.len() == 0 ==> lowest == 0,
    ensures
        parts@.len() == ids@.len() - lowest,
        forall|i: int|
            0 <= i < parts@.len() ==> (#[trigger] parts@[i])@ == name_map@[ids@[ids@.len() - 1 - i]]@,
{
    let ghost names = name_map@;
    let mut parts: Vec<String> = Vec::new();
    let mut k: usize = ids.len();
    while k > lowest
        invariant
            names == name_map@,
            lowest <= k <= ids@.len(),
            forall|i: int| 0 <= i < ids@.len() ==> is_named(parents, names, volume, #[trigger] ids@[i]),
            parts@.len() == ids@.len() - k,
            forall|i: int| 0 <= i < parts@.len() ==> (#[trigger] parts@[i])@ == names[ids@[ids@.len() - 1 - i]]@,
        decreases k,
    {
        k = k - 1;
        assert(is_named(parents, names, volume, ids@[k as int]));
        match name_map.get(&ids[k]) {
            Some(name) => {
                parts.push(name.clone());
            },
            None => {},
        }
    }
    parts
}

/// The path of the directory in which a file lies, relative to its volume.
pub fn get_fact_path_local_u64(
    parent_map: &HashMap<u64, u64>,
    name_map: &HashMap<u64, String>,
    volume: &str,
    file_id: u64,
) -> (path: String)
    ensures
        exists|ids: Seq<u64>|
            #[trigger] is_lineage(parent_map@, name_map@, volume@, file_id, ids) && path@ == joined(
                upper_names(name_map@, ids),
                "/"@,
            ),
{
    let ids = lineage_of(parent_map, name_map, volume, file_id);
    let lowest: usize = if ids.len() > 0 { 1 } else { 0 };
    let parts = names_down_to(name_map, &ids, lowest, Ghost(parent_map@), Ghost(volume@), Ghost(file_id));
    assert(views(parts@) =~= upper_names(name_map@, ids@));
    join(&parts, "/")
}

/// The names of all nodes of a lineage, the topmost first.
pub open spec fn all_names(names: Map<u64, String>, ids: Seq<u64>) -> Seq<Seq<char>> {
    Seq::new(ids.len(), |i: int| names[ids[ids.len() - 1 - i]]@)
}

/// `path` is that of a file, relative to its volume.
pub open spec fn is_fact_path(
    parents: Map<u64, u64>,
    names: Map<u64, String>,
    volume: Seq<char>,
    file_id: u64,
    path: Seq<char>,
) -> bool {
    exists|ids: Seq<u64>|
        #[trigger] is_lineage(parents, names, volume, file_id, ids) && path == joined(
            all_names(names, ids),
            "/"@,
        )
}

/// The path of a file, relative to its volume.
pub fn get_fact_path(
    parent_map: &HashMap<u64, u64>,
    name_map: &HashMap<u64, String>,
    volume: &str,
    file_id: u64,
) -> (path: String)
    ensures
        is_fact_path(parent_map@, name_map@, volume@, file_id, path@),
{
    let ids = lineage_of(parent_map, name_map, volume, file_id);
    let parts = names_down_to(name_map, &ids, 0, Ghost(parent_map@), Ghost(volume@), Ghost(file_id));
    assert(views(parts@) =~= all_names(name_map@, ids@));
    join(&parts, "/")
}

/// A file has one path.
pub proof fn law_fact_path_unique(
    parents: Map<u64, u64>,
    names: Map<u64, String>,
    volume: Seq<char>,
    file_id: u64,
    a: Seq<char>,
    b: Seq<char>,
)
    requires
        is_fact_path(parents, names, volume, file_id, a),
        is_fact_path(parents, names, volume, file_id, b),
    ensures
        a == b,
{
    let x = choose|ids: Seq<u64>|
        #[trigger] is_lineage(parents, names, volume, file_id, ids) && a == joined(all_names(names, ids), "/"@);
    let y = choose|ids: Seq<u64>|
        #[trigger] is_lineage(parents, names, volume, file_id, ids) && b == joined(all_names(names, ids), "/"@);
    law_lineage_unique(parents, names, volume, file_id, x, y);
}

/// What each of the given entries adds to `folder`: its weight if it lies below.
pub open spec fn weights_below(parents: Map<u64, u64>, entries: Seq<(u64, i128)>, folder: u64) -> Seq<int> {
    Seq::new(
        entries.len(),
        |i: int|
            if is_above(parents, entries[i].0, folder) {
                entries[i].1 as int
            } else {
                0
            },
    )
}

/// The sizes of the weights.
pub open spec fn weight_sizes(entries: Seq<(u64, i128)>) -> Seq<int> {
    Seq::new(
        entries.len(),
        |i: int|
            if entries[i].1 >= 0 {
                entries[i].1 as int
            } else {
                -(entries[i].1 as int)
            },
    )
}

/// What a table gives for a key; absent keys count as nothing.
pub open spec fn tally_of(m: Map<u64, i128>, key: u64) -> int {
    if m.contains_key(key) {
        m[key] as int
    } else {
        0
    }
}

proof fn lemma_weight_bound(parents: Map<u64, u64>, entries: Seq<(u64, i128)>, folder: u64, n: int)
    requires
        0 <= n <= entries.len(),
    ensures
        -total(weight_sizes(entries).take(n)) <= total(weights_below(parents, entries, folder).take(n)) <= total(
            weight_sizes(entries).take(n),
        ),
    decreases n,
{
    let w = weights_below(parents, entries, folder);
    let s = weight_sizes(entries);
    if n > 0 {
        lemma_weight_bound(parents, entries, folder, n - 1);
        assert(w.take(n).drop_last() =~= w.take(n - 1));
        assert(s.take(n).drop_last() =~= s.take(n - 1));
        assert(w.take(n).last() == w[n - 1]);
        assert(s.take(n).last() == s[n - 1]);
    } else {
        assert(w.take(0) =~= Seq::<int>::empty());
        assert(s.take(0) =~= Seq::<int>::empty());
    }
}

/// Adds the weight of every entry to every folder above it.
pub fn roll_up(parents: &HashMap<u64, u64>, entries: &Vec<(u64, i128)>) -> (r: HashMap<u64, i128>)
    requires
        total(weight_sizes(entries@)) <= i64::MAX * 4,
    ensures
        forall|folder: u64|
            #[trigger] tally_of(r@, folder) == total(weights_below(parents@, entries@, folder)),
{
    let ghost map = parents@;
    let ghost es = entries@;
    let ghost sizes = weight_sizes(es);
    let mut r: HashMap<u64, i128> = HashMap::new();
    let mut n: usize = 0;
    proof {
        assert forall|folder: u64| #[trigger] tally_of(r@, folder) == total(weights_below(map, es, folder).take(0)) by {
            assert(weights_below(map, es, folder).take(0) =~= Seq::<int>::empty());
        }
    }
    while n < entries.len()
        invariant
            map == parents@,
            es == entries@,
            sizes == weight_sizes(es),
            total(sizes) <= i64::MAX * 4,
            n <= es.len(),
            forall|folder: u64|
                #[trigger] tally_of(r@, folder) == total(weights_below(map, es, folder).take(n as int)),
        decreases es.len() - n,
    {
        let (id, w) = entries[n];
        let chain = ancestors_of(parents, id);
        let ghost before = r@;
        proof {
            lemma_total_prefix(sizes, n as int);
            lemma_total_nonneg(sizes.take(n as int));
            assert(sizes[n as int] == (if w >= 0 { w as int } else { -(w as int) }));
        }
        let mut i: usize = 0;
        while i < chain.len()
            invariant
                map == parents@,
                es == entries@,
                sizes == weight_sizes(es),
                n < es.len(),
                es[n as int] == (id, w),
                total(sizes.take(n as int)) + (if w >= 0 { w as int } else { -(w as int) }) <= i64::MAX * 4,
                0 <= total(sizes.take(n as int)),
                i <= chain@.len(),
                chain@.no_duplicates(),
                forall|folder: u64|
                    #[trigger] tally_of(before, folder) == total(weights_below(map, es, folder).take(n as int)),
                forall|folder: u64|
                    #[trigger] tally_of(r@, folder) == tally_of(before, folder) + (if chain@.take(i as int).contains(folder) {
                        w as int
                    } else {
                        0
                    }),
            decreases chain@.len() - i,
        {
            let folder = chain[i];
            let old_sum: i128 = match r.get(&folder) {
                Some(v) => *v,
                None => 0,
            };
            proof {
                assert(!chain@.take(i as int).contains(folder)) by {
                    if chain@.take(i as int).contains(folder) {
                        let j = choose|j: int| 0 <= j < i && chain@.take(i as int)[j] == folder;
                        assert(chain@[j] == chain@[i as int]);
                    }
                }
                lemma_weight_bound(map, es, folder, n as int);
                assert(tally_of(r@, folder) == tally_of(before, folder));
            }
            let ghost here = r@;
            r.insert(folder, old_sum + w);
            i = i + 1;
            proof {
                assert forall|f: u64| #[trigger] tally_of(r@, f) == tally_of(before, f) + (if chain@.take(i as int).contains(f) { w as int } else { 0 }) by {
                    assert(tally_of(here, f) == tally_of(before, f) + (if chain@.take(i - 1).contains(f) { w as int } else { 0 }));
                    assert(chain@.take(i as int) =~= chain@.take(i - 1).push(folder));
                    if f == folder {
                        assert(chain@.take(i as int)[i - 1] == f);
                    } else {
                        if chain@.take(i - 1).contains(f) {
                            let shorter = chain@.take(i - 1);
                            let j = choose|j: int| 0 <= j < shorter.len() && shorter[j] == f;
                            assert(chain@.take(i as int)[j] == f);
                        }
                        if chain@.take(i as int).contains(f) {
                            let j = choose|j: int| 0 <= j < i && chain@.take(i as int)[j] == f;
                            assert(chain@.take(i - 1)[j] == f);
                        }
                    }
                }
            }
        }
        proof {
            assert(chain@.take(i as int) =~= chain@);
            assert forall|folder: u64| #[trigger] tally_of(r@, folder) == total(weights_below(map, es, folder).take(n + 1)) by {
                let ws = weights_below(map, es, folder);
                assert(ws.take(n + 1).drop_last() =~= ws.take(n as int));
                assert(chain@.contains(folder) <==> is_above(map, id, folder));
                assert(tally_of(before, folder) == total(ws.take(n as int)));
            }
        }
        n = n + 1;
    }
    proof {
        assert forall|folder: u64| #[trigger] tally_of(r@, folder) == total(weights_below(map, es, folder)) by {
            let ws = weights_below(map, es, folder);
            assert(ws.take(n as int) =~= ws);
        }
    }
    r
}

/// What each of the given entries adds to `key`: its weight if it is under that key.
pub open spec fn weights_at(entries: Seq<(u64, i128)>, key: u64) -> Seq<int> {
    Seq::new(
        entries.len(),
        |i: int|
            if entries[i].0 == key {
                entries[i].1 as int
            } else {
                0
            },
    )
}

proof fn lemma_direct_bound(entries: Seq<(u64, i128)>, key: u64, n: int)
    requires
        0 <= n <= entries.len(),
    ensures
        -total(weight_sizes(entries).take(n)) <= total(weights_at(entries, key).take(n)) <= total(
            weight_sizes(entries).take(n),
        ),
    decreases n,
{
    let w = weights_at(entries, key);
    let s = weight_sizes(entries);
    if n > 0 {
        lemma_direct_bound(entries, key, n - 1);
        assert(w.take(n).drop_last() =~= w.take(n - 1));
        assert(s.take(n).drop_last() =~= s.take(n - 1));
        assert(w.take(n).last() == w[n - 1]);
        assert(s.take(n).last() == s[n - 1]);
    } else {
        assert(w.take(0) =~= Seq::<int>::empty());
        assert(s.take(0) =~= Seq::<int>::empty());
    }
}

/// Adds up the weights under each key.
pub fn tally(entries: &Vec<(u64, i128)>) -> (r: HashMap<u64, i128>)
    requires
        total(weight_sizes(entries@)) <= i64::MAX * 4,
    ensures
        forall|key: u64| #[trigger] tally_of(r@, key) == total(weights_at(entries@, key)),
{
    let ghost es = entries@;
    let ghost sizes = weight_sizes(es);
    let mut r: HashMap<u64, i128> = HashMap::new();
    let mut n: usize = 0;
    proof {
        assert forall|key: u64| #[trigger] tally_of(r@, key) == total(weights_at(es, key).take(0)) by {
            assert(weights_at(es, key).take(0) =~= Seq::<int>::empty());
        }
    }
    while n < entries.len()
        invariant
            es == entries@,
            sizes == weight_sizes(es),
            total(sizes) <= i64::MAX * 4,
            n <= es.len(),
            forall|key: u64| #[trigger] tally_of(r@, key) == total(weights_at(es, key).take(n as int)),
        decreases es.len() - n,
    {
        let (id, w) = entries[n];
        let before: i128 = match r.get(&id) {
            Some(v) => *v,
            None => 0,
        };
        let ghost here = r@;
        proof {
            lemma_total_prefix(sizes, n as int);
            lemma_total_nonneg(sizes.take(n as int));
            assert(sizes[n as int] == (if w >= 0 { w as int } else { -(w as int) }));
            lemma_direct_bound(es, id, n as int);
            assert(tally_of(here, id) == before);
        }
        r.insert(id, before + w);
        proof {
            assert forall|key: u64| #[trigger] tally_of(r@, key) == total(weights_at(es, key).take(n + 1)) by {
                let ws = weights_at(es, key);
                assert(ws.take(n + 1).drop_last() =~= ws.take(n as int));
                assert(tally_of(here, key) == total(ws.take(n as int)));
            }
        }
        n = n + 1;
    }
    proof {
        assert forall|key: u64| #[trigger] tally_of(r@, key) == total(weights_at(es, key)) by {
            let ws = weights_at(es, key);
            assert(ws.take(n as int) =~= ws);
        }
    }
    r
}

/// Sums of weights lie within the sum of their sizes, and are not negative where no
/// weight is.
pub proof fn lemma_tally_range(parents: Map<u64, u64>, entries: Seq<(u64, i128)>, key: u64)
    ensures
        -total(weight_sizes(entries)) <= total(weights_below(parents, entries, key)) <= total(weight_sizes(entries)),
        -total(weight_sizes(entries)) <= total(weights_at(entries, key)) <= total(weight_sizes(entries)),
        (forall|i: int| 0 <= i < entries.len() ==> (#[trigger] entries[i]).1 >= 0) ==> total(
            weights_below(parents, entries, key),
        ) >= 0 && total(weights_at(entries, key)) >= 0,
{
    let n = entries.len() as int;
    lemma_weight_bound(parents, entries, key, n);
    lemma_direct_bound(entries, key, n);
    assert(weight_sizes(entries).take(n) =~= weight_sizes(entries));
    assert(weights_below(parents, entries, key).take(n) =~= weights_below(parents, entries, key));
    assert(weights_at(entries, key).take(n) =~= weights_at(entries, key));
    if forall|i: int| 0 <= i < entries.len() ==> (#[trigger] entries[i]).1 >= 0 {
        assert forall|i: int| 0 <= i < n implies #[trigger] weights_below(parents, entries, key)[i] >= 0 by {
            assert(entries[i].1 >= 0);
        }
        assert forall|i: int| 0 <= i < n implies #[trigger] weights_at(entries, key)[i] >= 0 by {
            assert(entries[i].1 >= 0);
        }
        lemma_total_nonneg(weights_below(parents, entries, key));
        lemma_total_nonneg(weights_at(entries, key));
    }
}

/// Weights of at most one sum up to at most their number.
pub proof fn lemma_small_weights(entries: Seq<(u64, i128)>)
    requires
        forall|i: int| 0 <= i < entries.len() ==> 0 <= (#[trigger] entries[i]).1 <= 1,
    ensures
        total(weight_sizes(entries)) <= entries.len(),
    decreases entries.len(),
{
    if entries.len() > 0 {
        let rest = entries.drop_last();
        assert forall|i: int| 0 <= i < rest.len() implies 0 <= (#[trigger] rest[i]).1 <= 1 by {
            assert(rest[i] == entries[i]);
        }
        lemma_small_weights(rest);
        assert(weight_sizes(entries).drop_last() =~= weight_sizes(rest));
        assert(0 <= entries[entries.len() - 1].1 <= 1);
    }
}

/// What a table gives for a key.
pub fn tally_at(m: &HashMap<u64, i128>, key: u64) -> (v: i128)
    ensures
        v == tally_of(m@, key),
{
    match m.get(&key) {
        Some(v) => *v,
        None => 0,
    }
}

/// A chain of parents is followed as the walk upward follows it.
proof fn lemma_lineage_leads(
    parents: Map<u64, u64>,
    names: Map<u64, String>,
    volume: Seq<char>,
    start: u64,
    ids: Seq<u64>,
    i: int,
)
    requires
        is_lineage(parents, names, volume, start, ids),
        start != 0,
        0 <= i < ids.len(),
    ensures
        above_by(parents, start, i as nat) == Some(ids[i]),
        ids[i] != 0,
    decreases i,
{
    if i > 0 {
        lemma_lineage_leads(parents, names, volume, start, ids, i - 1);
        assert(is_named(parents, names, volume, ids[i - 1]));
    }
}

/// The lineage of a file is the file and then that of its directory.
pub(crate) proof fn lemma_lineage_step(
    parents: Map<u64, u64>,
    names: Map<u64, String>,
    volume: Seq<char>,
    id: u64,
    up: Seq<u64>,
)
    requires
        is_named(parents, names, volume, id),
        parents[id] != 0,
        !leads_to(parents, parents[id], id),
        is_lineage(parents, names, volume, parents[id], up),
    ensures
        is_lineage(parents, names, volume, id, seq![id] + up),
{
    let p = parents[id];
    let ids = seq![id] + up;
    assert forall|i: int| 0 <= i < up.len() implies #[trigger] up[i] != id by {
        lemma_lineage_leads(parents, names, volume, p, up, i);
        assert(above_by(parents, p, i as nat) == Some(up[i]));
    }
    assert(ids.no_duplicates()) by {
        assert forall|i: int, j: int| 0 <= i < ids.len() && 0 <= j < ids.len() && i != j implies ids[i] != ids[j] by {
            if i > 0 {
                assert(ids[i] == up[i - 1]);
            }
            if j > 0 {
                assert(ids[j] == up[j - 1]);
            }
        }
    }
    assert forall|i: int| 0 <= i < ids.len() implies is_named(parents, names, volume, #[trigger] ids[i]) by {
        if i > 0 {
            assert(is_named(parents, names, volume, up[i - 1]));
        }
    }
    assert forall|i: int| 0 < i < ids.len() implies #[trigger] ids[i] == parents[ids[i - 1]] && ids[i] != 0 by {
        if i > 1 {
            assert(up[i - 1] == parents[up[i - 2]]);
        } else {
            assert(ids[1] == up[0]);
        }
    }
    if up.len() > 0 {
        assert(ids.last() == up.last());
        let q = parents[up.last()];
        if up.contains(q) {
            let k = choose|k: int| 0 <= k < up.len() && up[k] == q;
            assert(ids[k + 1] == q);
        }
    }
}

/// The path of a file is that of its directory, a slash and its name, or its name alone where
/// its directory has no path.
pub proof fn law_path_step(
    parents: Map<u64, u64>,
    names: Map<u64, String>,
    volume: Seq<char>,
    id: u64,
    dir: Seq<char>,
    path: Seq<char>,
)
    requires
        parents.contains_key(id),
        names.contains_key(id),
        names[id]@.len() > 0,
        names[id]@ != volume,
        parents[id] != 0 ==> !leads_to(parents, parents[id], id),
        is_fact_path(parents, names, volume, parents[id], dir),
        is_fact_path(parents, names, volume, id, path),
    ensures
        parents[id] != 0 && dir.len() > 0 ==> path == dir + seq!['/'] + names[id]@,
        parents[id] == 0 ==> path == names[id]@,
        parents[id] != 0 && !(parents.contains_key(parents[id]) && names.contains_key(parents[id])
            && names[parents[id]]@.len() > 0 && names[parents[id]]@ != volume) ==> path == names[id]@,
{
    reveal_strlit("/");
    assert("/"@ =~= seq!['/']);
    let p = parents[id];
    let up = choose|ids: Seq<u64>| #[trigger]
        is_lineage(parents, names, volume, p, ids) && dir == joined(all_names(names, ids), "/"@);
    let ids = if p == 0 {
        seq![id]
    } else {
        seq![id] + up
    };
    if p != 0 {
        lemma_lineage_step(parents, names, volume, id, up);
    } else {
        assert(is_lineage(parents, names, volume, id, ids));
    }
    let whole = joined(all_names(names, ids), "/"@);
    assert(is_fact_path(parents, names, volume, id, whole));
    law_fact_path_unique(parents, names, volume, id, whole, path);
    if p != 0 && up.len() > 0 {
        let all = all_names(names, ids);
        assert(all =~= all_names(names, up).push(names[id]@));
        assert(all.drop_last() =~= all_names(names, up));
        assert(is_named(parents, names, volume, up[0]));
    } else {
        assert(ids =~= seq![id]);
        assert(all_names(names, ids) =~= seq![names[id]@]);
    }
    if p != 0 && dir.len() > 0 {
        assert(up.len() > 0);
    }
}

} // verus!
