//! The files and directories of a volume as rows, and tables over them.

use crate::sums::total;
use std::collections::HashMap;
use vstd::prelude::*;

verus! {

/// A file or directory as it is stored.
pub struct FactRow {
    pub file_id: u64,
    pub parent_file_id: u64,
    pub name: String,
    pub is_directory: bool,
    pub size: u64,
}

/// The rows by file id. A later row replaces an earlier one.
pub open spec fn table_of(rows: Seq<FactRow>) -> Map<u64, FactRow>
    decreases rows.len(),
{
    if rows.len() == 0 {
        Map::empty()
    } else {
        table_of(rows.drop_last()).insert(rows.last().file_id, rows.last())
    }
}

/// The file ids in the order of their first row.
pub open spec fn ids_of(rows: Seq<FactRow>) -> Seq<u64>
    decreases rows.len(),
{
    if rows.len() == 0 {
        Seq::empty()
    } else {
        let ids = ids_of(rows.drop_last());
        if ids.contains(rows.last().file_id) {
            ids
        } else {
            ids.push(rows.last().file_id)
        }
    }
}

/// The parent of each file.
pub open spec fn parents_of(rows: Seq<FactRow>) -> Map<u64, u64> {
    table_of(rows).map_values(|r: FactRow| r.parent_file_id)
}

/// The name of each file.
pub open spec fn names_of(rows: Seq<FactRow>) -> Map<u64, String> {
    table_of(rows).map_values(|r: FactRow| r.name)
}

/// Ids are listed once, and exactly those of the rows.
pub proof fn lemma_ids(rows: Seq<FactRow>)
    ensures
        ids_of(rows).no_duplicates(),
        forall|id: u64| #[trigger] ids_of(rows).contains(id) <==> table_of(rows).contains_key(id),
    decreases rows.len(),
{
    if rows.len() > 0 {
        lemma_ids(rows.drop_last());
        let ids = ids_of(rows.drop_last());
        let last = rows.last().file_id;
        assert forall|id: u64| #[trigger] ids_of(rows).contains(id) <==> table_of(rows).contains_key(id) by {
            assert(ids.contains(id) <==> table_of(rows.drop_last()).contains_key(id));
            if !ids.contains(last) {
                assert(ids.push(last)[ids.len() as int] == last);
                if ids.contains(id) {
                    let i = choose|i: int| 0 <= i < ids.len() && ids[i] == id;
                    assert(ids.push(last)[i] == id);
                }
            }
        }
    }
}

/// Nothing behind row `i` speaks of the same file.
pub open spec fn is_last_row(rows: Seq<FactRow>, i: int) -> bool {
    forall|j: int| i < j < rows.len() ==> (#[trigger] rows[j]).file_id != rows[i].file_id
}

/// What is known of a file is what its last row says, and nothing is known of a file
/// without a row.
pub proof fn law_last_row(rows: Seq<FactRow>, t: FactTable)
    requires
        t.describes(rows),
    ensures
        forall|i: int|
            0 <= i < rows.len() && #[trigger] is_last_row(rows, i) ==> {
                &&& t.parents@.contains_key(rows[i].file_id)
                &&& t.names@.contains_key(rows[i].file_id)
                &&& t.parents@[rows[i].file_id] == rows[i].parent_file_id
                &&& t.names@[rows[i].file_id] == rows[i].name
            },
        forall|id: u64| #[trigger]
            t.parents@.contains_key(id) ==> exists|i: int|
                0 <= i < rows.len() && rows[i].file_id == id && #[trigger] is_last_row(rows, i),
        forall|id: u64| #[trigger]
            t.names@.contains_key(id) ==> exists|i: int|
                0 <= i < rows.len() && rows[i].file_id == id && #[trigger] is_last_row(rows, i),
{
    lemma_last_rows(rows);
}

/// The table holds the last row of each file.
pub proof fn lemma_last_rows(rows: Seq<FactRow>)
    ensures
        forall|i: int|
            0 <= i < rows.len() && #[trigger] is_last_row(rows, i) ==> table_of(rows).contains_key(rows[i].file_id)
                && table_of(rows)[rows[i].file_id] == rows[i],
        forall|id: u64| #[trigger]
            table_of(rows).contains_key(id) ==> exists|i: int|
                0 <= i < rows.len() && rows[i].file_id == id && #[trigger] is_last_row(rows, i),
    decreases rows.len(),
{
    if rows.len() > 0 {
        let part = rows.drop_last();
        let n = rows.len() - 1;
        lemma_last_rows(part);
        assert forall|i: int| 0 <= i < rows.len() && #[trigger] is_last_row(rows, i) implies table_of(rows).contains_key(
            rows[i].file_id,
        ) && table_of(rows)[rows[i].file_id] == rows[i] by {
            if i < n {
                assert(rows[n].file_id != rows[i].file_id);
                assert(is_last_row(part, i)) by {
                    assert forall|j: int| i < j < part.len() implies (#[trigger] part[j]).file_id != part[i].file_id by {
                        assert(part[j] == rows[j]);
                    }
                }
                assert(part[i] == rows[i]);
            }
        }
        assert forall|id: u64| #[trigger] table_of(rows).contains_key(id) implies exists|i: int|
            0 <= i < rows.len() && rows[i].file_id == id && #[trigger] is_last_row(rows, i) by {
            if id == rows[n].file_id {
                assert(is_last_row(rows, n));
            } else {
                assert(table_of(part).contains_key(id));
                let i = choose|i: int| 0 <= i < part.len() && part[i].file_id == id && #[trigger] is_last_row(part, i);
                assert(is_last_row(rows, i)) by {
                    assert forall|j: int| i < j < rows.len() implies (#[trigger] rows[j]).file_id != rows[i].file_id by {
                        if j < n {
                            assert(part[j] == rows[j]);
                        }
                    }
                }
            }
        }
    }
}

/// A sum over the files is one over their last rows.
pub proof fn lemma_sum_of_rows(rows: Seq<FactRow>, f: spec_fn(FactRow) -> int)
    ensures
        total(Seq::new(ids_of(rows).len(), |k: int| f(table_of(rows)[ids_of(rows)[k]]))) == total(
            Seq::new(
                rows.len(),
                |i: int|
                    if is_last_row(rows, i) {
                        f(rows[i])
                    } else {
                        0
                    },
            ),
        ),
    decreases rows.len(),
{
    let by_id = |rs: Seq<FactRow>| Seq::new(ids_of(rs).len(), |k: int| f(table_of(rs)[ids_of(rs)[k]]));
    let by_row = |rs: Seq<FactRow>|
        Seq::new(
            rs.len(),
            |i: int|
                if is_last_row(rs, i) {
                    f(rs[i])
                } else {
                    0
                },
        );
    if rows.len() == 0 {
        assert(by_id(rows) =~= by_row(rows));
    } else {
        let part = rows.drop_last();
        let n = rows.len() - 1;
        let last = rows[n];
        lemma_sum_of_rows(part, f);
        lemma_ids(part);
        lemma_ids(rows);
        lemma_last_rows(part);
        let (a, b) = (by_id(part), by_id(rows));
        let (c, d) = (by_row(part), by_row(rows));
        assert(is_last_row(rows, n));
        assert forall|i: int| 0 <= i < n implies #[trigger] is_last_row(rows, i) == (is_last_row(part, i) && rows[i].file_id
            != last.file_id) by {
            if is_last_row(rows, i) {
                assert(rows[n].file_id != rows[i].file_id);
                assert forall|j: int| i < j < part.len() implies (#[trigger] part[j]).file_id != part[i].file_id by {
                    assert(part[j] == rows[j]);
                }
            }
            if is_last_row(part, i) && rows[i].file_id != last.file_id {
                assert forall|j: int| i < j < rows.len() implies (#[trigger] rows[j]).file_id != rows[i].file_id by {
                    if j < n {
                        assert(part[j] == rows[j]);
                    }
                }
            }
        }
        if ids_of(part).contains(last.file_id) {
            let k = choose|k: int| 0 <= k < ids_of(part).len() && ids_of(part)[k] == last.file_id;
            assert(table_of(part).contains_key(last.file_id));
            let p = choose|p: int| 0 <= p < part.len() && part[p].file_id == last.file_id && #[trigger] is_last_row(part, p);
            assert(b =~= a.update(k, f(last)));
            crate::sums::lemma_total_update(a, k, f(last));
            assert forall|i: int| 0 <= i < n && i != p && #[trigger] is_last_row(part, i) implies part[i].file_id
                != last.file_id by {
                if i < p {
                    assert(part[p].file_id != part[i].file_id);
                } else {
                    assert(part[i].file_id != part[p].file_id);
                }
            }
            assert(d =~= c.update(p, 0).push(f(last)));
            crate::sums::lemma_total_update(c, p, 0);
            crate::sums::lemma_total_push(c.update(p, 0), f(last));
            assert(a[k] == f(part[p]));
            assert(c[p] == f(part[p]));
        } else {
            assert(b =~= a.push(f(last)));
            assert forall|i: int| 0 <= i < n implies (#[trigger] part[i]).file_id != last.file_id by {
                if part[i].file_id == last.file_id {
                    lemma_known(part, i);
                }
            }
            assert(d =~= c.push(f(last)));
            crate::sums::lemma_total_push(a, f(last));
            crate::sums::lemma_total_push(c, f(last));
        }
    }
}

proof fn lemma_known(rows: Seq<FactRow>, i: int)
    requires
        0 <= i < rows.len(),
    ensures
        table_of(rows).contains_key(rows[i].file_id),
    decreases rows.len(),
{
    if i < rows.len() - 1 {
        lemma_known(rows.drop_last(), i);
    }
}

/// Tables over the rows of a volume.
pub struct FactTable {
    pub ids: Vec<u64>,
    pub parents: HashMap<u64, u64>,
    pub names: HashMap<u64, String>,
    /// The row that stands for each file.
    pub at: HashMap<u64, usize>,
}

impl FactTable {
    /// The tables are those of the given rows.
    pub open spec fn describes(&self, rows: Seq<FactRow>) -> bool {
        &&& self.ids@ == ids_of(rows)
        &&& self.parents@ == parents_of(rows)
        &&& self.names@ == names_of(rows)
        &&& self.at@.dom() == table_of(rows).dom()
        &&& forall|id: u64|
            #[trigger] self.at@.contains_key(id) ==> self.at@[id] < rows.len() && rows[self.at@[id] as int]
                == table_of(rows)[id]
    }

    pub fn build(rows: &Vec<FactRow>) -> (t: FactTable)
        ensures
            t.describes(rows@),
    {
        let mut t = FactTable {
            ids: Vec::new(),
            parents: HashMap::new(),
            names: HashMap::new(),
            at: HashMap::new(),
        };
        let mut i: usize = 0;
        proof {
            assert(rows@.take(0) =~= Seq::<FactRow>::empty());
            assert(t.parents@ =~= parents_of(rows@.take(0)));
            assert(t.names@ =~= names_of(rows@.take(0)));
            assert(t.at@.dom() =~= table_of(rows@.take(0)).dom());
        }
        while i < rows.len()
            invariant
                i <= rows@.len(),
                t.describes(rows@.take(i as int)),
            decreases rows@.len() - i,
        {
            let ghost part = rows@.take(i as int);
            let ghost more = rows@.take(i + 1);
            let ghost before = t;
            let row = &rows[i];
            proof {
                assert(more.drop_last() =~= part);
                assert(more.last() == *row);
                lemma_ids(part);
                assert(part.len() == i);
            }
            if !t.at.contains_key(&row.file_id) {
                t.ids.push(row.file_id);
            }
            t.parents.insert(row.file_id, row.parent_file_id);
            t.names.insert(row.file_id, row.name.clone());
            t.at.insert(row.file_id, i);
            proof {
                assert(before.ids@.contains(row.file_id) <==> before.at@.dom().contains(row.file_id));
                assert(t.ids@ == ids_of(more));
                assert(t.parents@ =~= parents_of(more));
                assert(t.names@ =~= names_of(more));
                assert(t.at@.dom() =~= table_of(more).dom());
                assert forall|id: u64| #[trigger] t.at@.contains_key(id) implies t.at@[id] < more.len() && more[t.at@[id] as int]
                    == table_of(more)[id] by {
                    if id != row.file_id {
                        assert(before.at@.contains_key(id));
                    }
                }
            }
            i = i + 1;
        }
        assert(rows@.take(i as int) =~= rows@);
        t
    }
}

} // verus!
