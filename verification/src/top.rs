//! The largest, the most grown and the most changed files and folders.

use crate::ancestry::{
    get_fact_path_local_u64, is_descendant_u64, is_lineage, leads_to, lemma_small_weights,
    lemma_tally_range, roll_up, tally, tally_at, tally_of, upper_names, weight_sizes, weights_at,
    weights_below,
};
use crate::base64::{base64_decode, base64_encode, decoded, encoded};
use crate::decimal::{
    decimal, decimal_text, i64_value, integer_text, parse_i64, parse_u64, signed_decimal,
    unsigned_value,
};
use crate::facts::{ids_of, lemma_ids, parents_of, table_of, FactRow, FactTable};
use crate::order::{
    before, bytes_at_most, in_order, is_bytes_at_most, law_order_exists, lemma_bytes_antisymmetric,
    lemma_bytes_total, lemma_bytes_transitive, order_of, stable_order, Rank,
};
use crate::sums::total;
use crate::text::{joined, split, split_text, str_eq, utf8_text, views};
use std::collections::HashMap;
use vstd::prelude::*;
use vstd::utf8::{decode_utf8, encode_utf8, valid_utf8};

verus! {

/// One of the results.
#[derive(Debug, Clone)]
pub struct TopItem {
    pub name: String,
    pub volume: String,
    /// Path of the directory that holds the item, relative to the volume.
    pub path: String,
    pub is_directory: bool,
    /// Current size.
    pub size: u64,
    /// Growth over the interval.
    pub size_delta: i64,
    /// Number of changes over the interval.
    pub churn: u64,
    /// Number of files, or changed entries, below a folder.
    pub item_count: u64,
    pub file_id: u64,
}

/// The answer to a request for the top items.
#[derive(Debug, Clone)]
pub struct TopResponse {
    pub results: Vec<TopItem>,
    pub volumes_incomplete: Vec<String>,
    pub next_cursor: Option<String>,
    /// Bound description (e.g. snapshot label or date).
    pub window_start: Option<String>,
    pub window_end: Option<String>,
}

/// What items are ranked by.
#[derive(Debug, Clone, Copy, PartialEq, Eq, Structural)]
pub enum Measure {
    Size,
    Growth,
    Churn,
}

/// A logged change of a file or directory.
pub struct ChangeRow {
    pub node: FactRow,
    pub size_delta: i64,
}

/// What is known of a volume: its files and the changes of the interval.
pub struct VolumeFacts {
    pub volume: String,
    pub facts: Vec<FactRow>,
    pub changes: Vec<ChangeRow>,
}

/// The nodes that the changes name.
pub open spec fn changed_nodes(changes: Seq<ChangeRow>) -> Seq<FactRow> {
    Seq::new(changes.len(), |i: int| changes[i].node)
}

/// All rows of a volume; what a change says of a node replaces what was known.
pub open spec fn all_rows(v: VolumeFacts) -> Seq<FactRow> {
    v.facts@ + changed_nodes(v.changes@)
}

/// Each file with its size; directories have none.
pub open spec fn size_weights(rows: Seq<FactRow>) -> Seq<(u64, i128)> {
    Seq::new(
        ids_of(rows).len(),
        |i: int|
            {
                let row = table_of(rows)[ids_of(rows)[i]];
                (
                    ids_of(rows)[i],
                    if row.is_directory {
                        0i128
                    } else {
                        row.size as i128
                    },
                )
            },
    )
}

/// Each file counts once; directories do not count.
pub open spec fn file_ones(rows: Seq<FactRow>) -> Seq<(u64, i128)> {
    Seq::new(
        ids_of(rows).len(),
        |i: int|
            (
                ids_of(rows)[i],
                if table_of(rows)[ids_of(rows)[i]].is_directory {
                    0i128
                } else {
                    1i128
                },
            ),
    )
}

/// The growth that each change brought.
pub open spec fn growth_weights(changes: Seq<ChangeRow>) -> Seq<(u64, i128)> {
    Seq::new(changes.len(), |i: int| (changes[i].node.file_id, changes[i].size_delta as i128))
}

/// Each change counts once.
pub open spec fn change_ones(changes: Seq<ChangeRow>) -> Seq<(u64, i128)> {
    Seq::new(changes.len(), |i: int| (changes[i].node.file_id, 1i128))
}

/// Each changed node counts once.
pub open spec fn changed_ones(changes: Seq<ChangeRow>) -> Seq<(u64, i128)> {
    Seq::new(
        ids_of(changed_nodes(changes)).len(),
        |i: int| (ids_of(changed_nodes(changes))[i], 1i128),
    )
}

/// The four numbers of an item.
pub struct Numbers {
    pub size: int,
    pub delta: int,
    pub churn: int,
    pub count: int,
}

/// The numbers of node `id`: a folder has what lies below it, a file has its own.
pub open spec fn numbers_of(v: VolumeFacts, measure: Measure, rollup: bool, id: u64) -> Numbers {
    let rows = all_rows(v);
    let parents = parents_of(rows);
    if measure == Measure::Size {
        Numbers {
            size: if rollup {
                total(weights_below(parents, size_weights(rows), id))
            } else {
                table_of(rows)[id].size as int
            },
            delta: 0,
            churn: 0,
            count: if rollup {
                total(weights_below(parents, file_ones(rows), id))
            } else {
                0
            },
        }
    } else {
        Numbers {
            size: 0,
            delta: if rollup {
                total(weights_below(parents, growth_weights(v.changes@), id))
            } else {
                total(weights_at(growth_weights(v.changes@), id))
            },
            churn: if rollup {
                total(weights_below(parents, change_ones(v.changes@), id))
            } else {
                total(weights_at(change_ones(v.changes@), id))
            },
            count: if rollup {
                total(weights_below(parents, changed_ones(v.changes@), id))
            } else {
                0
            },
        }
    }
}

/// Node `id` is among the results of its volume: a folder where folders are asked
/// for and a file where files are, below the ancestor asked for, and changed where
/// changes are asked for.
pub open spec fn is_listed(v: VolumeFacts, measure: Measure, rollup: bool, ancestor: Option<u64>, id: u64) -> bool {
    let n = numbers_of(v, measure, rollup, id);
    &&& table_of(all_rows(v))[id].is_directory == rollup
    &&& ancestor is Some ==> leads_to(parents_of(all_rows(v)), id, ancestor->0)
    &&& measure != Measure::Size ==> n.delta != 0 || n.churn != 0
}

/// The nodes of a volume that are among the results.
pub open spec fn listed_ids(v: VolumeFacts, measure: Measure, rollup: bool, ancestor: Option<u64>) -> Seq<u64> {
    ids_of(all_rows(v)).filter(|id: u64| is_listed(v, measure, rollup, ancestor, id))
}

/// The item shows node `id`; its path is filled in later.
pub open spec fn shows(v: VolumeFacts, measure: Measure, rollup: bool, id: u64, item: TopItem) -> bool {
    let row = table_of(all_rows(v))[id];
    let n = numbers_of(v, measure, rollup, id);
    &&& item.name@ == row.name@
    &&& item.volume@ == v.volume@
    &&& item.path@ == Seq::<char>::empty()
    &&& item.is_directory == rollup
    &&& item.size == n.size
    &&& item.size_delta == n.delta
    &&& item.churn == n.churn
    &&& item.item_count == n.count
    &&& item.file_id == id
}

/// The sums over a volume are in range.
pub open spec fn in_range(v: VolumeFacts) -> bool {
    &&& total(weight_sizes(size_weights(all_rows(v)))) <= u64::MAX
    &&& total(weight_sizes(growth_weights(v.changes@))) <= i64::MAX
}

/// The sums of a volume from which the numbers of its items are taken.
struct Sums {
    size: HashMap<u64, i128>,
    delta: HashMap<u64, i128>,
    churn: HashMap<u64, i128>,
    count: HashMap<u64, i128>,
}

/// The numbers that the sums give for node `id`, whose own size is `own`.
spec fn sums_give(s: Sums, own: int, measure: Measure, rollup: bool, id: u64) -> Numbers {
    Numbers {
        size: if measure == Measure::Size && !rollup {
            own
        } else {
            tally_of(s.size@, id)
        },
        delta: tally_of(s.delta@, id),
        churn: tally_of(s.churn@, id),
        count: tally_of(s.count@, id),
    }
}

spec fn sums_right(s: Sums, v: VolumeFacts, measure: Measure, rollup: bool) -> bool {
    forall|id: u64|
        #[trigger] sums_give(s, table_of(all_rows(v))[id].size as int, measure, rollup, id) == numbers_of(
            v,
            measure,
            rollup,
            id,
        )
}

fn size_entries(rows: &Vec<FactRow>, table: &FactTable) -> (r: Vec<(u64, i128)>)
    requires
        table.describes(rows@),
    ensures
        r@ == size_weights(rows@),
{
    let mut r: Vec<(u64, i128)> = Vec::new();
    let mut i: usize = 0;
    proof {
        lemma_ids(rows@);
    }
    while i < table.ids.len()
        invariant
            table.describes(rows@),
            forall|id: u64| #[trigger] ids_of(rows@).contains(id) <==> table_of(rows@).contains_key(id),
            i <= table.ids@.len(),
            r@ =~= size_weights(rows@).take(i as int),
        decreases table.ids@.len() - i,
    {
        let id = table.ids[i];
        assert(ids_of(rows@).contains(id));
        assert(table.at@.dom().contains(id));
        match table.at.get(&id) {
            Some(k) => {
                let row = &rows[*k];
                let w: i128 = if row.is_directory { 0 } else { row.size as i128 };
                r.push((id, w));
            },
            None => {},
        }
        i = i + 1;
    }
    r
}

fn file_entries(rows: &Vec<FactRow>, table: &FactTable) -> (r: Vec<(u64, i128)>)
    requires
        table.describes(rows@),
    ensures
        r@ == file_ones(rows@),
{
    let mut r: Vec<(u64, i128)> = Vec::new();
    let mut i: usize = 0;
    proof {
        lemma_ids(rows@);
    }
    while i < table.ids.len()
        invariant
            table.describes(rows@),
            forall|id: u64| #[trigger] ids_of(rows@).contains(id) <==> table_of(rows@).contains_key(id),
            i <= table.ids@.len(),
            r@ =~= file_ones(rows@).take(i as int),
        decreases table.ids@.len() - i,
    {
        let id = table.ids[i];
        assert(ids_of(rows@).contains(id));
        assert(table.at@.dom().contains(id));
        match table.at.get(&id) {
            Some(k) => {
                let w: i128 = if rows[*k].is_directory { 0 } else { 1 };
                r.push((id, w));
            },
            None => {},
        }
        i = i + 1;
    }
    r
}

fn change_entries(changes: &Vec<ChangeRow>) -> (r: (Vec<(u64, i128)>, Vec<(u64, i128)>))
    ensures
        r.0@ == growth_weights(changes@),
        r.1@ == change_ones(changes@),
{
    let mut growth: Vec<(u64, i128)> = Vec::new();
    let mut ones: Vec<(u64, i128)> = Vec::new();
    let mut i: usize = 0;
    while i < changes.len()
        invariant
            i <= changes@.len(),
            growth@ =~= growth_weights(changes@).take(i as int),
            ones@ =~= change_ones(changes@).take(i as int),
        decreases changes@.len() - i,
    {
        growth.push((changes[i].node.file_id, changes[i].size_delta as i128));
        ones.push((changes[i].node.file_id, 1));
        i = i + 1;
    }
    (growth, ones)
}

/// The changed nodes, each once, in the order of their first change.
fn changed_entries(changes: &Vec<ChangeRow>) -> (r: Vec<(u64, i128)>)
    ensures
        r@ == changed_ones(changes@),
{
    let mut seen: HashMap<u64, bool> = HashMap::new();
    let mut r: Vec<(u64, i128)> = Vec::new();
    let ghost nodes = changed_nodes(changes@);
    let mut i: usize = 0;
    assert(nodes.take(0) =~= Seq::<FactRow>::empty());
    while i < changes.len()
        invariant
            nodes == changed_nodes(changes@),
            i <= changes@.len(),
            r@.len() == ids_of(nodes.take(i as int)).len(),
            forall|k: int| 0 <= k < r@.len() ==> #[trigger] r@[k] == (ids_of(nodes.take(i as int))[k], 1i128),
            forall|id: u64| #[trigger] seen@.contains_key(id) <==> ids_of(nodes.take(i as int)).contains(id),
        decreases changes@.len() - i,
    {
        let ghost ids = ids_of(nodes.take(i as int));
        proof {
            assert(nodes.take(i + 1).drop_last() =~= nodes.take(i as int));
            assert(nodes.take(i + 1).last() == changes@[i as int].node);
        }
        let id = changes[i].node.file_id;
        if !seen.contains_key(&id) {
            seen.insert(id, true);
            r.push((id, 1));
            proof {
                assert forall|x: u64| ids.push(id).contains(x) <==> ids.contains(x) || x == id by {
                    assert(ids.push(id)[ids.len() as int] == id);
                    if ids.contains(x) {
                        let j = choose|j: int| 0 <= j < ids.len() && ids[j] == x;
                        assert(ids.push(id)[j] == x);
                    }
                }
            }
        }
        i = i + 1;
    }
    assert(nodes.take(i as int) =~= nodes);
    assert(r@ =~= changed_ones(changes@));
    r
}

fn volume_sums(v: &VolumeFacts, rows: &Vec<FactRow>, table: &FactTable, measure: Measure, rollup: bool) -> (s: Sums)
    requires
        rows@ == all_rows(*v),
        table.describes(rows@),
        in_range(*v),
    ensures
        sums_right(s, *v, measure, rollup),
{
    let mut s = Sums {
        size: HashMap::new(),
        delta: HashMap::new(),
        churn: HashMap::new(),
        count: HashMap::new(),
    };
    let ghost parents = parents_of(rows@);
    match measure {
        Measure::Size => {
            if rollup {
                let sizes = size_entries(rows, table);
                let ones = file_entries(rows, table);
                proof {
                    lemma_small_weights(ones@);
                }
                let count = ones.len();
                s.size = roll_up(&table.parents, &sizes);
                s.count = roll_up(&table.parents, &ones);
            }
        },
        _ => {
            let (growth, ones) = change_entries(&v.changes);
            let count = ones.len();
            proof {
                lemma_small_weights(ones@);
            }
            if rollup {
                let changed = changed_entries(&v.changes);
                let count2 = changed.len();
                proof {
                    lemma_small_weights(changed@);
                }
                s.delta = roll_up(&table.parents, &growth);
                s.churn = roll_up(&table.parents, &ones);
                s.count = roll_up(&table.parents, &changed);
            } else {
                s.delta = tally(&growth);
                s.churn = tally(&ones);
            }
        },
    }
    proof {
        assert forall|id: u64|
            #[trigger] sums_give(s, table_of(all_rows(*v))[id].size as int, measure, rollup, id) == numbers_of(*v, measure, rollup, id) by {
            assert(tally_of(s.size@, id) == tally_of(s.size@, id));
            assert(tally_of(s.delta@, id) == tally_of(s.delta@, id));
            assert(tally_of(s.churn@, id) == tally_of(s.churn@, id));
            assert(tally_of(s.count@, id) == tally_of(s.count@, id));
        }
    }
    s
}

/// The numbers of all nodes fit their fields.
proof fn lemma_numbers_fit(v: VolumeFacts, measure: Measure, rollup: bool, id: u64)
    requires
        in_range(v),
        size_weights(all_rows(v)).len() <= u64::MAX,
        v.changes@.len() <= u64::MAX,
        ids_of(changed_nodes(v.changes@)).len() <= u64::MAX,
    ensures
        0 <= numbers_of(v, measure, rollup, id).size <= u64::MAX,
        i64::MIN <= numbers_of(v, measure, rollup, id).delta <= i64::MAX,
        0 <= numbers_of(v, measure, rollup, id).churn <= u64::MAX,
        0 <= numbers_of(v, measure, rollup, id).count <= u64::MAX,
{
    let rows = all_rows(v);
    let parents = parents_of(rows);
    lemma_tally_range(parents, size_weights(rows), id);
    lemma_tally_range(parents, file_ones(rows), id);
    lemma_tally_range(parents, growth_weights(v.changes@), id);
    lemma_tally_range(parents, change_ones(v.changes@), id);
    lemma_tally_range(parents, changed_ones(v.changes@), id);
    lemma_small_weights(file_ones(rows));
    lemma_small_weights(change_ones(v.changes@));
    lemma_small_weights(changed_ones(v.changes@));
}

proof fn lemma_ids_short(rows: Seq<FactRow>)
    ensures
        ids_of(rows).len() <= rows.len(),
    decreases rows.len(),
{
    if rows.len() > 0 {
        lemma_ids_short(rows.drop_last());
    }
}

/// The results of one volume, without their paths.
fn volume_items(
    v: &VolumeFacts,
    rows: &Vec<FactRow>,
    table: &FactTable,
    measure: Measure,
    rollup: bool,
    ancestor: Option<u64>,
) -> (items: Vec<TopItem>)
    requires
        rows@ == all_rows(*v),
        table.describes(rows@),
        in_range(*v),
    ensures
        items@.len() == listed_ids(*v, measure, rollup, ancestor).len(),
        forall|k: int|
            0 <= k < items@.len() ==> shows(
                *v,
                measure,
                rollup,
                listed_ids(*v, measure, rollup, ancestor)[k],
                #[trigger] items@[k],
            ),
{
    let sums = volume_sums(v, rows, table, measure, rollup);
    let ghost pred = |id: u64| is_listed(*v, measure, rollup, ancestor, id);
    let ghost ids = ids_of(rows@);
    let ghost facts = *v;
    let n_rows = rows.len();
    let n_changes = v.changes.len();
    proof {
        lemma_ids(rows@);
        lemma_ids_short(rows@);
        lemma_ids_short(changed_nodes(v.changes@));
    }
    let mut items: Vec<TopItem> = Vec::new();
    let mut i: usize = 0;
    assert(ids.take(0) =~= Seq::<u64>::empty());
    assert(ids.take(0).filter(pred) =~= Seq::<u64>::empty());
    while i < table.ids.len()
        invariant
            facts == *v,
            rows@ == all_rows(facts),
            table.describes(rows@),
            in_range(facts),
            sums_right(sums, facts, measure, rollup),
            ids == ids_of(rows@),
            ids.len() <= rows@.len() <= usize::MAX,
            facts.changes@.len() <= usize::MAX,
            ids_of(changed_nodes(facts.changes@)).len() <= facts.changes@.len(),
            forall|id: u64| #[trigger] ids.contains(id) <==> table_of(rows@).contains_key(id),
            pred == (|id: u64| is_listed(facts, measure, rollup, ancestor, id)),
            i <= ids.len(),
            items@.len() == ids.take(i as int).filter(pred).len(),
            forall|k: int|
                0 <= k < items@.len() ==> shows(
                    facts,
                    measure,
                    rollup,
                    ids.take(i as int).filter(pred)[k],
                    #[trigger] items@[k],
                ),
        decreases ids.len() - i,
    {
        let id = table.ids[i];
        let ghost part = ids.take(i as int).filter(pred);
        proof {
            assert(ids.take(i + 1).drop_last() =~= ids.take(i as int));
            assert(ids.take(i + 1).last() == id);
            assert(ids.take(i + 1).filter(pred) == (if pred(id) { part.push(id) } else { part })) by {
                reveal(Seq::filter);
            }
            assert(ids.contains(id));
            assert(table.at@.dom().contains(id));
            lemma_numbers_fit(facts, measure, rollup, id);
        }
        match table.at.get(&id) {
            Some(k) => {
                let row = &rows[*k];
                let ghost own = table_of(rows@)[id].size as int;
                assert(sums_give(sums, own, measure, rollup, id) == numbers_of(facts, measure, rollup, id));
                let size: i128 = match measure {
                    Measure::Size => if rollup { tally_at(&sums.size, id) } else { row.size as i128 },
                    _ => tally_at(&sums.size, id),
                };
                let delta = tally_at(&sums.delta, id);
                let churn = tally_at(&sums.churn, id);
                let count = tally_at(&sums.count, id);
                let below = match ancestor {
                    Some(a) => is_descendant_u64(&table.parents, id, a),
                    None => true,
                };
                let changed = match measure {
                    Measure::Size => true,
                    _ => delta != 0 || churn != 0,
                };
                if row.is_directory == rollup && below && changed {
                    items.push(
                        TopItem {
                            name: row.name.clone(),
                            volume: v.volume.clone(),
                            path: String::new(),
                            is_directory: rollup,
                            size: size as u64,
                            size_delta: delta as i64,
                            churn: churn as u64,
                            item_count: count as u64,
                            file_id: id,
                        },
                    );
                }
            },
            None => {},
        }
        i = i + 1;
    }
    assert(ids.take(i as int) =~= ids);
    items
}

/// What an item is ranked by: the highest value first, then the name, then the
/// highest file id.
pub struct TopKey {
    pub value: i128,
    pub name: String,
    pub file_id: u64,
}

impl Rank for TopKey {
    open spec fn at_most(&self, other: &TopKey) -> bool {
        let a = encode_utf8(self.name@);
        let b = encode_utf8(other.name@);
        ||| self.value > other.value
        ||| self.value == other.value && a != b && bytes_at_most(a, b)
        ||| self.value == other.value && a == b && self.file_id >= other.file_id
    }

    proof fn lemma_total(a: &TopKey, b: &TopKey) {
        lemma_bytes_total(encode_utf8(a.name@), encode_utf8(b.name@));
    }

    proof fn lemma_transitive(a: &TopKey, b: &TopKey, c: &TopKey) {
        let x = encode_utf8(a.name@);
        let y = encode_utf8(b.name@);
        let z = encode_utf8(c.name@);
        if a.value == b.value && b.value == c.value && x != y && y != z {
            lemma_bytes_transitive(x, y, z);
            if x == z {
                lemma_bytes_antisymmetric(x, y);
            }
        }
    }

    fn is_at_most(&self, other: &TopKey) -> (r: bool) {
        if self.value != other.value {
            return self.value > other.value;
        }
        let a = self.name.as_str().as_bytes();
        let b = other.name.as_str().as_bytes();
        if crate::text::bytes_eq(a, b) {
            self.file_id >= other.file_id
        } else {
            is_bytes_at_most(a, b)
        }
    }
}

/// The number by which an item is ranked.
pub open spec fn rank_value(item: TopItem, measure: Measure) -> int {
    match measure {
        Measure::Size => item.size as int,
        Measure::Churn => item.churn as int,
        Measure::Growth => if item.size_delta < 0 {
            -(item.size_delta as int)
        } else {
            item.size_delta as int
        },
    }
}

/// The ranks of items.
pub open spec fn keys_of(items: Seq<TopItem>, measure: Measure) -> Seq<TopKey> {
    Seq::new(
        items.len(),
        |i: int|
            TopKey {
                value: rank_value(items[i], measure) as i128,
                name: items[i].name,
                file_id: items[i].file_id,
            },
    )
}

/// The order in which items are shown.
pub fn rank_items(items: &Vec<TopItem>, measure: Measure) -> (order: Vec<usize>)
    ensures
        order@ == order_of(keys_of(items@, measure)),
        crate::order::is_stable_order(keys_of(items@, measure), order@),
{
    let mut keys: Vec<TopKey> = Vec::new();
    let mut i: usize = 0;
    while i < items.len()
        invariant
            i <= items@.len(),
            keys@ =~= keys_of(items@, measure).take(i as int),
        decreases items@.len() - i,
    {
        let item = &items[i];
        let value: i128 = match measure {
            Measure::Size => item.size as i128,
            Measure::Churn => item.churn as i128,
            Measure::Growth => if item.size_delta < 0 {
                -(item.size_delta as i128)
            } else {
                item.size_delta as i128
            },
        };
        keys.push(TopKey { value, name: item.name.clone(), file_id: item.file_id });
        i = i + 1;
    }
    assert(keys@ =~= keys_of(items@, measure));
    stable_order(&keys)
}

/// The tables of a volume.
pub struct VolumeTable {
    pub volume: String,
    pub table: FactTable,
}

/// The first table of a volume.
pub open spec fn is_table_of(tables: Seq<VolumeTable>, volume: Seq<char>, k: int) -> bool {
    &&& 0 <= k < tables.len()
    &&& tables[k].volume@ == volume
    &&& forall|j: int| 0 <= j < k ==> (#[trigger] tables[j]).volume@ != volume
}

fn find_table(tables: &Vec<VolumeTable>, volume: &String) -> (r: Option<usize>)
    ensures
        match r {
            Some(k) => is_table_of(tables@, volume@, k as int),
            None => forall|k: int| !is_table_of(tables@, volume@, k),
        },
{
    let mut k: usize = 0;
    while k < tables.len()
        invariant
            k <= tables@.len(),
            forall|j: int| 0 <= j < k ==> (#[trigger] tables@[j]).volume@ != volume@,
        decreases tables@.len() - k,
    {
        if str_eq(tables[k].volume.as_str(), volume.as_str()) {
            return Some(k);
        }
        k = k + 1;
    }
    None
}

/// Item `a` is, or lies below, item `b`.
pub open spec fn lies_below(tables: Seq<VolumeTable>, a: TopItem, b: TopItem) -> bool {
    &&& a.volume@ == b.volume@
    &&& exists|k: int|
        #[trigger] is_table_of(tables, a.volume@, k) && leads_to(
            tables[k].table.parents@,
            a.file_id,
            b.file_id,
        )
}

/// The items to show, in order: where folders are shown, one that lies below a folder
/// shown before is left out.
pub open spec fn outermost(items: Seq<TopItem>, order: Seq<usize>, tables: Seq<VolumeTable>, rollup: bool) -> Seq<usize>
    decreases order.len(),
{
    if order.len() == 0 {
        Seq::empty()
    } else {
        let rest = outermost(items, order.drop_last(), tables, rollup);
        let last = order.last();
        if rollup && exists|j: int|
            0 <= j < rest.len() && lies_below(tables, items[last as int], items[(#[trigger] rest[j]) as int]) {
            rest
        } else {
            rest.push(last)
        }
    }
}

/// No folder that is shown lies below one shown before it.
pub proof fn law_outermost(items: Seq<TopItem>, order: Seq<usize>, tables: Seq<VolumeTable>, i: int, j: int)
    requires
        0 <= i < j < outermost(items, order, tables, true).len(),
    ensures
        !lies_below(
            tables,
            items[outermost(items, order, tables, true)[j] as int],
            items[outermost(items, order, tables, true)[i] as int],
        ),
    decreases order.len(),
{
    let rest = outermost(items, order.drop_last(), tables, true);
    if j < rest.len() {
        law_outermost(items, order.drop_last(), tables, i, j);
    } else {
        assert(outermost(items, order, tables, true)[i] == rest[i]);
    }
}

pub proof fn lemma_kept_place(items: Seq<TopItem>, order: Seq<usize>, tables: Seq<VolumeTable>, rollup: bool, k: int) -> (p: int)
    requires
        0 <= k < outermost(items, order, tables, rollup).len(),
    ensures
        0 <= p < order.len(),
        order[p] == outermost(items, order, tables, rollup)[k],
    decreases order.len(),
{
    let rest = outermost(items, order.drop_last(), tables, rollup);
    if k < rest.len() {
        lemma_kept_place(items, order.drop_last(), tables, rollup, k)
    } else {
        order.len() - 1
    }
}

proof fn lemma_kept_in_order(
    items: Seq<TopItem>,
    order: Seq<usize>,
    tables: Seq<VolumeTable>,
    rollup: bool,
    measure: Measure,
    i: int,
    j: int,
)
    requires
        0 <= i < j < outermost(items, order, tables, rollup).len(),
        in_order(keys_of(items, measure), order),
        forall|k: int| 0 <= k < order.len() ==> #[trigger] order[k] < items.len(),
    ensures
        keys_of(items, measure)[outermost(items, order, tables, rollup)[i] as int].at_most(
            &keys_of(items, measure)[outermost(items, order, tables, rollup)[j] as int],
        ),
    decreases order.len(),
{
    let part = order.drop_last();
    let rest = outermost(items, part, tables, rollup);
    if j < rest.len() {
        assert forall|x: int, y: int| 0 <= x < y < part.len() implies before(
            keys_of(items, measure),
            #[trigger] part[x] as int,
            #[trigger] part[y] as int,
        ) by {
            assert(part[x] == order[x] && part[y] == order[y]);
        }
        lemma_kept_in_order(items, part, tables, rollup, measure, i, j);
    } else {
        let p = lemma_kept_place(items, part, tables, rollup, i);
        assert(part[p] == order[p]);
        assert(before(keys_of(items, measure), order[p] as int, order[order.len() - 1] as int));
    }
}

/// One item is ranked before another: by its number, the highest first, then by its name,
/// and then by its file id, the highest first.
pub open spec fn ranks_first(a: TopItem, b: TopItem, measure: Measure) -> bool {
    let x = rank_value(a, measure);
    let y = rank_value(b, measure);
    ||| x > y
    ||| x == y && encode_utf8(a.name@) != encode_utf8(b.name@) && bytes_at_most(
        encode_utf8(a.name@),
        encode_utf8(b.name@),
    )
    ||| x == y && encode_utf8(a.name@) == encode_utf8(b.name@) && a.file_id >= b.file_id
}

/// Results are ranked: none is shown before one that ranks first.
pub proof fn law_ranked(items: Seq<TopItem>, tables: Seq<VolumeTable>, measure: Measure, rollup: bool, i: int, j: int)
    requires
        items.len() <= usize::MAX,
        0 <= i < j < outermost(items, order_of(keys_of(items, measure)), tables, rollup).len(),
    ensures
        ({
            let kept = outermost(items, order_of(keys_of(items, measure)), tables, rollup);
            ranks_first(items[kept[i] as int], items[kept[j] as int], measure)
        }),
{
    let keys = keys_of(items, measure);
    let order = order_of(keys);
    law_order_exists(keys);
    lemma_kept_in_order(items, order, tables, rollup, measure, i, j);
    let p = lemma_kept_place(items, order, tables, rollup, i);
    let q = lemma_kept_place(items, order, tables, rollup, j);
    assert(order[p] < items.len() && order[q] < items.len());
}

fn keep_outermost(items: &Vec<TopItem>, order: &Vec<usize>, tables: &Vec<VolumeTable>, rollup: bool) -> (r: Vec<usize>)
    requires
        forall|k: int| 0 <= k < order@.len() ==> #[trigger] order@[k] < items@.len(),
    ensures
        r@ == outermost(items@, order@, tables@, rollup),
        forall|k: int| 0 <= k < r@.len() ==> #[trigger] r@[k] < items@.len(),
{
    let mut r: Vec<usize> = Vec::new();
    let mut i: usize = 0;
    assert(order@.take(0) =~= Seq::<usize>::empty());
    while i < order.len()
        invariant
            forall|k: int| 0 <= k < order@.len() ==> #[trigger] order@[k] < items@.len(),
            i <= order@.len(),
            r@ == outermost(items@, order@.take(i as int), tables@, rollup),
            forall|k: int| 0 <= k < r@.len() ==> #[trigger] r@[k] < items@.len(),
        decreases order@.len() - i,
    {
        proof {
            assert(order@.take(i + 1).drop_last() =~= order@.take(i as int));
            assert(order@.take(i + 1).last() == order@[i as int]);
        }
        let at = order[i];
        let item = &items[at];
        let mut nested = false;
        if rollup {
            if let Some(t) = find_table(tables, &item.volume) {
                let mut j: usize = 0;
                while j < r.len() && !nested
                    invariant
                        j <= r@.len(),
                        at < items@.len(),
                        *item == items@[at as int],
                        is_table_of(tables@, item.volume@, t as int),
                        forall|k: int| 0 <= k < r@.len() ==> #[trigger] r@[k] < items@.len(),
                        nested <==> exists|k: int|
                            0 <= k < j && lies_below(tables@, *item, items@[(#[trigger] r@[k]) as int]),
                    decreases r@.len() - j,
                {
                    let other = &items[r[j]];
                    if str_eq(other.volume.as_str(), item.volume.as_str()) {
                        if is_descendant_u64(&tables[t].table.parents, item.file_id, other.file_id) {
                            nested = true;
                            assert(lies_below(tables@, *item, items@[r@[j as int] as int]));
                        } else {
                            assert(!lies_below(tables@, *item, items@[r@[j as int] as int])) by {
                                assert forall|k: int| #[trigger] is_table_of(tables@, item.volume@, k) implies k == t by {
                                    if k < t {
                                        assert(tables@[k].volume@ == item.volume@);
                                    } else if t < k {
                                        assert(tables@[t as int].volume@ == item.volume@);
                                    }
                                }
                            }
                        }
                    }
                    j = j + 1;
                }
            }
        }
        if !nested {
            r.push(at);
        }
        i = i + 1;
    }
    assert(order@.take(i as int) =~= order@);
    r
}

/// A place in the results.
pub struct Cursor {
    pub value: i64,
    pub volume: String,
    pub file_id: u64,
}

/// The number of an item that its cursor holds.
pub open spec fn cursor_value(item: TopItem, measure: Measure) -> i64 {
    match measure {
        Measure::Size => item.size as i64,
        Measure::Churn => item.churn as i64,
        Measure::Growth => item.size_delta,
    }
}

fn value_for_cursor(item: &TopItem, measure: Measure) -> (v: i64)
    ensures
        v == cursor_value(*item, measure),
{
    match measure {
        Measure::Size => item.size as i64,
        Measure::Churn => item.churn as i64,
        Measure::Growth => item.size_delta,
    }
}

/// The text of a cursor before it is encoded.
pub open spec fn cursor_text(value: i64, volume: Seq<char>, file_id: u64) -> Seq<char> {
    integer_text(value as int).push(':') + volume.push(':') + decimal_text(file_id as nat)
}

/// The text behind an encoded cursor, if it is valid.
pub open spec fn cursor_payload(c: Seq<char>) -> Option<Seq<char>> {
    match decoded(encode_utf8(c)) {
        Some(bytes) => if valid_utf8(bytes) {
            Some(decode_utf8(bytes))
        } else {
            None
        },
        None => None,
    }
}

/// The parts of a cursor: its number, volume and file id, if its text is made of
/// exactly those.
pub open spec fn cursor_parts(c: Seq<char>) -> Option<(int, Seq<char>, int)> {
    match cursor_payload(c) {
        Some(t) => {
            let parts = split_text(t, ':');
            if parts.len() == 3 && i64_value(parts[0]) is Some && unsigned_value(parts[2], u64::MAX as int) is Some {
                Some((i64_value(parts[0])->0, parts[1], unsigned_value(parts[2], u64::MAX as int)->0))
            } else {
                None
            }
        },
        None => None,
    }
}

/// Reads an encoded cursor.
pub fn parse_cursor(c: &str) -> (r: Option<Cursor>)
    ensures
        match r {
            Some(k) => cursor_parts(c@) == Some((k.value as int, k.volume@, k.file_id as int)),
            None => cursor_parts(c@) is None,
        },
{
    match base64_decode(c) {
        None => None,
        Some(bytes) => {
            match utf8_text(bytes.as_slice()) {
                None => None,
                Some(t) => {
                    let parts = split(t.as_str(), ':');
                    let ghost texts = split_text(t@, ':');
                    assert(views(parts@) == texts);
                    assert(parts@.len() == texts.len());
                    if parts.len() != 3 {
                        return None;
                    }
                    assert(views(parts@)[0] == parts@[0]@);
                    assert(views(parts@)[1] == parts@[1]@);
                    assert(views(parts@)[2] == parts@[2]@);
                    proof {
                        crate::decimal::lemma_value_ranges(texts[0]);
                        crate::decimal::lemma_value_ranges(texts[2]);
                    }
                    match (parse_i64(parts[0].as_str()), parse_u64(parts[2].as_str())) {
                        (Some(value), Some(file_id)) => Some(
                            Cursor { value, volume: parts[1].clone(), file_id },
                        ),
                        _ => None,
                    }
                },
            }
        },
    }
}

/// Encodes the place of an item.
fn make_cursor(item: &TopItem, measure: Measure) -> (c: String)
    ensures
        encode_utf8(c@) == encoded(
            encode_utf8(cursor_text(cursor_value(*item, measure), item.volume@, item.file_id)),
        ),
{
    let mut t = signed_decimal(value_for_cursor(item, measure));
    t.push(':');
    t.append(item.volume.as_str());
    t.push(':');
    let id = decimal(item.file_id);
    t.append(id.as_str());
    assert(t@ =~= cursor_text(cursor_value(*item, measure), item.volume@, item.file_id));
    base64_encode(t.as_str().as_bytes())
}

/// A cursor made for a place reads back as that place, if the name of the volume
/// holds no colon.
pub proof fn law_cursor_roundtrip(value: i64, volume: Seq<char>, file_id: u64, c: Seq<char>)
    requires
        encode_utf8(c) == encoded(encode_utf8(cursor_text(value, volume, file_id))),
        !volume.contains(':'),
    ensures
        cursor_parts(c) == Some((value as int, volume, file_id as int)),
{
    let t = cursor_text(value, volume, file_id);
    crate::base64::law_roundtrip(encode_utf8(t));
    vstd::utf8::encode_utf8_valid_utf8(t);
    vstd::utf8::encode_utf8_decode_utf8(t);
    let a = integer_text(value as int);
    let d = decimal_text(file_id as nat);
    crate::decimal::law_integer_roundtrip(value as int);
    crate::decimal::law_unsigned_roundtrip(file_id as nat);
    crate::decimal::lemma_no_colon(value as int);
    crate::decimal::lemma_no_colon(file_id as int);
    assert(integer_text(file_id as int) == d);
    crate::text::lemma_split_single(a, ':');
    let ab = a.push(':') + volume;
    crate::text::lemma_split_at(a, volume, ':');
    crate::text::lemma_split_at(ab, d, ':');
    assert(ab.push(':') + d =~= t);
    assert(split_text(t, ':') =~= seq![a, volume, d]);
}

/// The item stands at the place of the cursor.
pub open spec fn at_cursor(item: TopItem, measure: Measure, c: (int, Seq<char>, int)) -> bool {
    cursor_value(item, measure) == c.0 && item.volume@ == c.1 && item.file_id == c.2
}

fn is_at_cursor(item: &TopItem, measure: Measure, c: &Cursor) -> (r: bool)
    ensures
        r == at_cursor(*item, measure, (c.value as int, c.volume@, c.file_id as int)),
{
    value_for_cursor(item, measure) == c.value && str_eq(item.volume.as_str(), c.volume.as_str()) && item.file_id
        == c.file_id
}

/// Where a page begins: at the front without a cursor or with one that fits no item;
/// else behind the item at the cursor, or at the end if that is not shown.
pub open spec fn is_page_start(
    items: Seq<TopItem>,
    kept: Seq<usize>,
    measure: Measure,
    cursor: Option<(int, Seq<char>, int)>,
    start: int,
) -> bool {
    match cursor {
        Some(c) => if exists|i: int| 0 <= i < items.len() && at_cursor(#[trigger] items[i], measure, c) {
            ||| 0 < start <= kept.len() && at_cursor(items[kept[start - 1] as int], measure, c) && forall|k: int|
                0 <= k < start - 1 ==> !at_cursor(items[(#[trigger] kept[k]) as int], measure, c)
            ||| start == kept.len() && forall|k: int|
                0 <= k < kept.len() ==> !at_cursor(items[(#[trigger] kept[k]) as int], measure, c)
        } else {
            start == 0
        },
        None => start == 0,
    }
}

fn page_start(items: &Vec<TopItem>, kept: &Vec<usize>, measure: Measure, cursor: &Option<Cursor>) -> (start: usize)
    requires
        forall|k: int| 0 <= k < kept@.len() ==> #[trigger] kept@[k] < items@.len(),
    ensures
        start <= kept@.len(),
        is_page_start(
            items@,
            kept@,
            measure,
            match *cursor {
                Some(c) => Some((c.value as int, c.volume@, c.file_id as int)),
                None => None,
            },
            start as int,
        ),
{
    match cursor {
        None => 0,
        Some(c) => {
            let ghost place = (c.value as int, c.volume@, c.file_id as int);
            let mut known = false;
            let mut i: usize = 0;
            while i < items.len() && !known
                invariant
                    place == (c.value as int, c.volume@, c.file_id as int),
                    i <= items@.len(),
                    known ==> exists|j: int| 0 <= j < items@.len() && at_cursor(#[trigger] items@[j], measure, place),
                    !known ==> forall|j: int| 0 <= j < i ==> !at_cursor(#[trigger] items@[j], measure, place),
                decreases items@.len() - i,
            {
                known = is_at_cursor(&items[i], measure, c);
                i = i + 1;
            }
            if !known {
                return 0;
            }
            let mut k: usize = 0;
            while k < kept.len()
                invariant
                    place == (c.value as int, c.volume@, c.file_id as int),
                    *cursor == Some(*c),
                    exists|j: int| 0 <= j < items@.len() && at_cursor(#[trigger] items@[j], measure, place),
                    k <= kept@.len(),
                    forall|j: int| 0 <= j < kept@.len() ==> #[trigger] kept@[j] < items@.len(),
                    forall|j: int| 0 <= j < k ==> !at_cursor(items@[(#[trigger] kept@[j]) as int], measure, place),
                decreases kept@.len() - k,
            {
                if is_at_cursor(&items[kept[k]], measure, c) {
                    return k + 1;
                }
                k = k + 1;
            }
            k
        },
    }
}

/// The results of all volumes in the order of the volumes, each as the number of its
/// volume and its file id.
pub open spec fn listing(volumes: Seq<VolumeFacts>, measure: Measure, rollup: bool, ancestor: Option<u64>) -> Seq<(int, u64)>
    decreases volumes.len(),
{
    if volumes.len() == 0 {
        Seq::empty()
    } else {
        let ids = listed_ids(volumes.last(), measure, rollup, ancestor);
        listing(volumes.drop_last(), measure, rollup, ancestor) + Seq::new(
            ids.len(),
            |i: int| (volumes.len() - 1, ids[i]),
        )
    }
}

/// The item shows the file at a place of the listing.
pub open spec fn shows_at(volumes: Seq<VolumeFacts>, measure: Measure, rollup: bool, at: (int, u64), item: TopItem) -> bool {
    0 <= at.0 < volumes.len() && shows(volumes[at.0], measure, rollup, at.1, item)
}

/// `items` are the results of all volumes, and `tables` their tables.
pub open spec fn gathers(
    volumes: Seq<VolumeFacts>,
    measure: Measure,
    rollup: bool,
    ancestor: Option<u64>,
    items: Seq<TopItem>,
    tables: Seq<VolumeTable>,
) -> bool {
    let l = listing(volumes, measure, rollup, ancestor);
    &&& tables.len() == volumes.len()
    &&& forall|k: int|
        0 <= k < tables.len() ==> (#[trigger] tables[k]).volume@ == volumes[k].volume@ && tables[k].table.describes(
            all_rows(volumes[k]),
        )
    &&& items.len() == l.len()
    &&& forall|k: int|
        0 <= k < items.len() ==> shows_at(volumes, measure, rollup, l[k], #[trigger] items[k])
}

/// All rows of a volume as one list.
fn collect_rows(v: &VolumeFacts) -> (rows: Vec<FactRow>)
    ensures
        rows@ == all_rows(*v),
{
    let mut rows: Vec<FactRow> = Vec::new();
    let mut i: usize = 0;
    while i < v.facts.len()
        invariant
            i <= v.facts@.len(),
            rows@ =~= all_rows(*v).take(i as int),
        decreases v.facts@.len() - i,
    {
        rows.push(copy_row(&v.facts[i]));
        i = i + 1;
    }
    let mut j: usize = 0;
    while j < v.changes.len()
        invariant
            j <= v.changes@.len(),
            rows@ =~= all_rows(*v).take(v.facts@.len() + j),
        decreases v.changes@.len() - j,
    {
        rows.push(copy_row(&v.changes[j].node));
        j = j + 1;
    }
    assert(all_rows(*v).take(v.facts@.len() + j) =~= all_rows(*v));
    rows
}

pub(crate) fn copy_row(row: &FactRow) -> (r: FactRow)
    ensures
        r == *row,
{
    FactRow {
        file_id: row.file_id,
        parent_file_id: row.parent_file_id,
        name: row.name.clone(),
        is_directory: row.is_directory,
        size: row.size,
    }
}

proof fn lemma_gathers_more(
    volumes: Seq<VolumeFacts>,
    measure: Measure,
    rollup: bool,
    ancestor: Option<u64>,
    items: Seq<TopItem>,
    new: Seq<TopItem>,
    tables: Seq<VolumeTable>,
    table: VolumeTable,
)
    requires
        volumes.len() > 0,
        gathers(volumes.drop_last(), measure, rollup, ancestor, items, tables),
        table.volume@ == volumes.last().volume@,
        table.table.describes(all_rows(volumes.last())),
        new.len() == listed_ids(volumes.last(), measure, rollup, ancestor).len(),
        forall|k: int|
            0 <= k < new.len() ==> shows(
                volumes.last(),
                measure,
                rollup,
                listed_ids(volumes.last(), measure, rollup, ancestor)[k],
                #[trigger] new[k],
            ),
    ensures
        gathers(volumes, measure, rollup, ancestor, items + new, tables.push(table)),
{
    let part = volumes.drop_last();
    let n = part.len() as int;
    let l = listing(part, measure, rollup, ancestor);
    let ids = listed_ids(volumes.last(), measure, rollup, ancestor);
    let l2 = listing(volumes, measure, rollup, ancestor);
    assert(l2 =~= l + Seq::new(ids.len(), |i: int| (n, ids[i])));
    let all = items + new;
    assert forall|k: int| 0 <= k < all.len() implies shows_at(
        volumes,
        measure,
        rollup,
        l2[k],
        #[trigger] all[k],
    ) by {
        if k < items.len() {
            assert(all[k] == items[k]);
            assert(shows_at(part, measure, rollup, l[k], items[k]));
            assert(l2[k] == l[k]);
            assert(volumes[l[k].0] == part[l[k].0]);
        } else {
            assert(all[k] == new[k - items.len()]);
            assert(l2[k] == (n, ids[k - items.len()]));
        }
    }
    let more = tables.push(table);
    assert forall|k: int| 0 <= k < more.len() implies (#[trigger] more[k]).volume@ == volumes[k].volume@ && more[k].table.describes(
        all_rows(volumes[k]),
    ) by {
        if k < tables.len() {
            assert(more[k] == tables[k]);
            assert(volumes[k] == part[k]);
        }
    }
}

fn gather(volumes: &Vec<VolumeFacts>, measure: Measure, rollup: bool, ancestor: Option<u64>) -> (r: (
    Vec<TopItem>,
    Vec<VolumeTable>,
))
    requires
        forall|k: int| 0 <= k < volumes@.len() ==> in_range(#[trigger] volumes@[k]),
    ensures
        gathers(volumes@, measure, rollup, ancestor, r.0@, r.1@),
{
    let ghost vs = volumes@;
    let mut items: Vec<TopItem> = Vec::new();
    let mut tables: Vec<VolumeTable> = Vec::new();
    let mut n: usize = 0;
    assert(vs.take(0) =~= Seq::<VolumeFacts>::empty());
    while n < volumes.len()
        invariant
            vs == volumes@,
            n <= vs.len(),
            forall|k: int| 0 <= k < vs.len() ==> in_range(#[trigger] vs[k]),
            gathers(vs.take(n as int), measure, rollup, ancestor, items@, tables@),
        decreases vs.len() - n,
    {
        let v = &volumes[n];
        let rows = collect_rows(v);
        let table = FactTable::build(&rows);
        let mut found = volume_items(v, &rows, &table, measure, rollup, ancestor);
        let ghost part = vs.take(n as int);
        let ghost more = vs.take(n + 1);
        let ghost before = items@;
        let ghost new = found@;
        let ghost tables_before = tables@;
        items.append(&mut found);
        tables.push(VolumeTable { volume: v.volume.clone(), table });
        proof {
            assert(more.drop_last() =~= part);
            assert(more.last() == *v);
            assert(items@ =~= before + new);
            lemma_gathers_more(more, measure, rollup, ancestor, before, new, tables_before, tables@.last());
            assert(tables@ =~= tables_before.push(tables@.last()));
        }
        n = n + 1;
    }
    assert(vs.take(n as int) =~= vs);
    (items, tables)
}

/// The same item, with its path filled in.
pub open spec fn with_path(tables: Seq<VolumeTable>, item: TopItem, r: TopItem) -> bool {
    &&& r.name@ == item.name@
    &&& r.volume@ == item.volume@
    &&& r.is_directory == item.is_directory
    &&& r.size == item.size
    &&& r.size_delta == item.size_delta
    &&& r.churn == item.churn
    &&& r.item_count == item.item_count
    &&& r.file_id == item.file_id
    &&& forall|k: int|
        #[trigger] is_table_of(tables, item.volume@, k) ==> exists|ids: Seq<u64>|
            #[trigger] is_lineage(
                tables[k].table.parents@,
                tables[k].table.names@,
                item.volume@,
                item.file_id,
                ids,
            ) && r.path@ == joined(upper_names(tables[k].table.names@, ids), "/"@)
    &&& (forall|k: int| !is_table_of(tables, item.volume@, k)) ==> r.path@ == item.path@
}

fn fill_path(tables: &Vec<VolumeTable>, item: &TopItem) -> (r: TopItem)
    ensures
        with_path(tables@, *item, r),
{
    let path = match find_table(tables, &item.volume) {
        Some(t) => {
            let p = get_fact_path_local_u64(
                &tables[t].table.parents,
                &tables[t].table.names,
                item.volume.as_str(),
                item.file_id,
            );
            proof {
                assert forall|k: int| #[trigger] is_table_of(tables@, item.volume@, k) implies k == t by {
                    if k < t {
                        assert(tables@[k].volume@ == item.volume@);
                    } else if t < k {
                        assert(tables@[t as int].volume@ == item.volume@);
                    }
                }
            }
            p
        },
        None => item.path.clone(),
    };
    TopItem {
        name: item.name.clone(),
        volume: item.volume.clone(),
        path,
        is_directory: item.is_directory,
        size: item.size,
        size_delta: item.size_delta,
        churn: item.churn,
        item_count: item.item_count,
        file_id: item.file_id,
    }
}

/// A page of the results.
pub struct TopPage {
    pub results: Vec<TopItem>,
    pub next_cursor: Option<String>,
}

/// The page is the part of the ranked results that begins behind the item of the cursor
/// and holds at most `limit` items; the next cursor stands for the first item behind it.
pub open spec fn is_page(
    items: Seq<TopItem>,
    tables: Seq<VolumeTable>,
    measure: Measure,
    rollup: bool,
    cursor: Option<(int, Seq<char>, int)>,
    limit: int,
    page: TopPage,
) -> bool {
    let kept = outermost(items, order_of(keys_of(items, measure)), tables, rollup);
    exists|start: int|
        {
            let end = if start + limit < kept.len() {
                start + limit
            } else {
                kept.len() as int
            };
            &&& #[trigger] is_page_start(items, kept, measure, cursor, start)
            &&& 0 <= start <= kept.len()
            &&& page.results@.len() == end - start
            &&& forall|k: int|
                0 <= k < page.results@.len() ==> with_path(
                    tables,
                    items[kept[start + k] as int],
                    #[trigger] page.results@[k],
                )
            &&& (page.next_cursor is Some) == (start + limit < kept.len())
            &&& page.next_cursor is Some ==> {
                let next = items[kept[start + limit] as int];
                encode_utf8(page.next_cursor->0@) == encoded(
                    encode_utf8(cursor_text(cursor_value(next, measure), next.volume@, next.file_id)),
                )
            }
        }
}

/// The cursor that a request names, as far as it can be read.
pub open spec fn requested_cursor(cursor: Option<String>) -> Option<(int, Seq<char>, int)> {
    match cursor {
        Some(c) => cursor_parts(c@),
        None => None,
    }
}

/// The page is one of the ranked files or folders of the given volumes.
pub open spec fn is_top_page(
    volumes: Seq<VolumeFacts>,
    measure: Measure,
    rollup: bool,
    ancestor: Option<u64>,
    cursor: Option<(int, Seq<char>, int)>,
    limit: int,
    page: TopPage,
) -> bool {
    exists|items: Seq<TopItem>, tables: Seq<VolumeTable>|
        #[trigger] gathers(volumes, measure, rollup, ancestor, items, tables) && items.len() <= usize::MAX && is_page(
            items,
            tables,
            measure,
            rollup,
            cursor,
            limit,
            page,
        )
}

/// Ranks the files or folders of the given volumes and cuts out the page asked for.
pub fn top_page(
    volumes: &Vec<VolumeFacts>,
    measure: Measure,
    rollup: bool,
    ancestor: Option<u64>,
    cursor: &Option<String>,
    limit: usize,
) -> (page: TopPage)
    requires
        forall|k: int| 0 <= k < volumes@.len() ==> in_range(#[trigger] volumes@[k]),
    ensures
        is_top_page(volumes@, measure, rollup, ancestor, requested_cursor(*cursor), limit as int, page),
{
    let (items, tables) = gather(volumes, measure, rollup, ancestor);
    let n_items = items.len();
    let order = rank_items(&items, measure);
    let kept = keep_outermost(&items, &order, &tables, rollup);
    let place = match cursor {
        Some(c) => parse_cursor(c.as_str()),
        None => None,
    };
    let start = page_start(&items, &kept, measure, &place);
    let mut results: Vec<TopItem> = Vec::new();
    let mut k: usize = start;
    while k < kept.len() && results.len() < limit
        invariant
            start <= k <= kept@.len(),
            results@.len() == k - start,
            results@.len() <= limit,
            forall|j: int| 0 <= j < kept@.len() ==> #[trigger] kept@[j] < items@.len(),
            forall|j: int|
                0 <= j < results@.len() ==> with_path(
                    tables@,
                    items@[kept@[start + j] as int],
                    #[trigger] results@[j],
                ),
        decreases kept@.len() - k,
    {
        results.push(fill_path(&tables, &items[kept[k]]));
        k = k + 1;
    }
    let next_cursor = if k < kept.len() {
        Some(make_cursor(&items[kept[k]], measure))
    } else {
        None
    };
    let page = TopPage { results, next_cursor };
    proof {
        assert(is_page_start(items@, kept@, measure, requested_cursor(*cursor), start as int));
        assert(is_page(items@, tables@, measure, rollup, requested_cursor(*cursor), limit as int, page));
    }
    page
}

} // verus!
