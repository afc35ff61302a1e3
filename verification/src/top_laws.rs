//! What the results of a ranking show of files and folders.

use crate::ancestry::{
    above_by, all_names, is_above, is_fact_path, is_lineage, law_lineage_unique, leads_to, lemma_lineage_step, upper_names,
    weights_at, weights_below,
};
use crate::facts::{
    ids_of, is_last_row, lemma_ids, lemma_last_rows, lemma_sum_of_rows, names_of, parents_of, table_of, FactRow,
};
use crate::order::{bytes_at_most, law_order_exists, order_of};
use crate::sums::total;
use crate::text::joined;
use crate::top::{
    all_rows, at_cursor, change_ones, changed_nodes, changed_ones, file_ones, gathers,
    growth_weights, is_listed, is_page, is_page_start, is_table_of, is_top_page, keys_of,
    law_outermost, law_ranked, lemma_kept_place, listed_ids, listing, numbers_of, outermost, shows,
    shows_at, size_weights, with_path, ChangeRow, Measure, TopItem, TopPage, VolumeFacts,
    VolumeTable,
};
use vstd::prelude::*;
use vstd::utf8::encode_utf8;

verus! {

/// The last row of a node names the folder as its parent.
pub open spec fn sits_in(rows: Seq<FactRow>, id: u64, folder: u64) -> bool {
    exists|i: int|
        0 <= i < rows.len() && rows[i].file_id == id && rows[i].parent_file_id == folder && #[trigger] is_last_row(rows, i)
}

/// Each node of the chain sits in the next; node 0 sits in nothing.
pub open spec fn is_way_up(rows: Seq<FactRow>, chain: Seq<u64>) -> bool {
    &&& chain.len() >= 2
    &&& forall|j: int|
        0 <= j < chain.len() - 1 ==> sits_in(rows, #[trigger] chain[j], chain[j + 1]) && (j > 0 ==> chain[j] != 0)
}

/// The node lies in the folder, at any depth.
pub open spec fn lies_in(rows: Seq<FactRow>, id: u64, folder: u64) -> bool {
    id != folder && exists|chain: Seq<u64>| #[trigger]
        is_way_up(rows, chain) && chain[0] == id && chain[chain.len() - 1] == folder
}

proof fn lemma_sits(rows: Seq<FactRow>, id: u64, folder: u64)
    ensures
        sits_in(rows, id, folder) <==> parents_of(rows).contains_key(id) && parents_of(rows)[id] == folder,
{
    lemma_last_rows(rows);
    if parents_of(rows).contains_key(id) {
        assert(table_of(rows).contains_key(id));
        let i = choose|i: int| 0 <= i < rows.len() && rows[i].file_id == id && #[trigger] is_last_row(rows, i);
        assert(table_of(rows)[id] == rows[i]);
    }
}

proof fn lemma_way(rows: Seq<FactRow>, id: u64, k: nat) -> (chain: Seq<u64>)
    requires
        parents_of(rows).contains_key(id),
        above_by(parents_of(rows), parents_of(rows)[id], k) is Some,
    ensures
        is_way_up(rows, chain),
        chain[0] == id,
        chain[chain.len() - 1] == above_by(parents_of(rows), parents_of(rows)[id], k)->0,
    decreases k,
{
    let parents = parents_of(rows);
    let start = parents[id];
    if k == 0 {
        lemma_sits(rows, id, start);
        seq![id, start]
    } else {
        let part = lemma_way(rows, id, (k - 1) as nat);
        let x = above_by(parents, start, (k - 1) as nat)->0;
        lemma_sits(rows, x, parents[x]);
        let chain = part.push(parents[x]);
        assert forall|j: int| 0 <= j < chain.len() - 1 implies sits_in(rows, #[trigger] chain[j], chain[j + 1]) && (j > 0
            ==> chain[j] != 0) by {
            if j < part.len() - 1 {
                assert(sits_in(rows, part[j], part[j + 1]));
            }
        }
        chain
    }
}

proof fn lemma_climb(rows: Seq<FactRow>, chain: Seq<u64>, k: nat)
    requires
        is_way_up(rows, chain),
        k + 1 < chain.len(),
    ensures
        parents_of(rows).contains_key(chain[0]),
        above_by(parents_of(rows), parents_of(rows)[chain[0]], k) == Some(chain[k as int + 1]),
    decreases k,
{
    if k == 0 {
        let j: int = 0;
        assert(sits_in(rows, chain[j], chain[j + 1]));
        lemma_sits(rows, chain[0], chain[1]);
    } else {
        lemma_climb(rows, chain, (k - 1) as nat);
        let j = k as int;
        assert(sits_in(rows, chain[j], chain[j + 1]));
        lemma_sits(rows, chain[j], chain[j + 1]);
    }
}

proof fn lemma_lies_in(rows: Seq<FactRow>, id: u64, folder: u64)
    requires
        folder != 0,
    ensures
        is_above(parents_of(rows), id, folder) == lies_in(rows, id, folder),
{
    let parents = parents_of(rows);
    if is_above(parents, id, folder) {
        let k = choose|k: nat| #[trigger] above_by(parents, parents[id], k) == Some(folder);
        let chain = lemma_way(rows, id, k);
        assert(is_way_up(rows, chain));
    }
    if lies_in(rows, id, folder) {
        let chain = choose|chain: Seq<u64>| #[trigger]
            is_way_up(rows, chain) && chain[0] == id && chain[chain.len() - 1] == folder;
        lemma_climb(rows, chain, (chain.len() - 2) as nat);
    }
}

/// Every place of the listing is one of a listed node, and every listed node has one.
proof fn lemma_listing(volumes: Seq<VolumeFacts>, measure: Measure, rollup: bool, ancestor: Option<u64>)
    ensures
        forall|m: int|
            0 <= m < listing(volumes, measure, rollup, ancestor).len() ==> {
                let at = #[trigger] listing(volumes, measure, rollup, ancestor)[m];
                0 <= at.0 < volumes.len() && listed_ids(volumes[at.0], measure, rollup, ancestor).contains(at.1)
            },
        forall|n: int, id: u64|
            0 <= n < volumes.len() && #[trigger] listed_ids(volumes[n], measure, rollup, ancestor).contains(id)
                ==> listing(volumes, measure, rollup, ancestor).contains((n, id)),
    decreases volumes.len(),
{
    let l = listing(volumes, measure, rollup, ancestor);
    if volumes.len() > 0 {
        let part = volumes.drop_last();
        let p = listing(part, measure, rollup, ancestor);
        let n = volumes.len() - 1;
        let ids = listed_ids(volumes.last(), measure, rollup, ancestor);
        lemma_listing(part, measure, rollup, ancestor);
        assert forall|m: int| 0 <= m < l.len() implies ({
            let at = #[trigger] l[m];
            0 <= at.0 < volumes.len() && listed_ids(volumes[at.0], measure, rollup, ancestor).contains(at.1)
        }) by {
            if m < p.len() {
                assert(l[m] == p[m]);
                assert(part[p[m].0] == volumes[p[m].0]);
            } else {
                assert(l[m] == (n, ids[m - p.len()]));
                assert(volumes[n] == volumes.last());
            }
        }
        assert forall|i: int, id: u64|
            0 <= i < volumes.len() && #[trigger] listed_ids(volumes[i], measure, rollup, ancestor).contains(
                id,
            ) implies l.contains((i, id)) by {
            if i < n {
                assert(part[i] == volumes[i]);
                assert(listed_ids(part[i], measure, rollup, ancestor).contains(id));
                assert(p.contains((i, id)));
                let m = choose|m: int| 0 <= m < p.len() && p[m] == (i, id);
                assert(l[m] == (i, id));
            } else {
                let k = choose|k: int| 0 <= k < ids.len() && ids[k] == id;
                assert(l[p.len() + k] == (i, id));
            }
        }
    }
}

/// A result shows a listed node of one of the volumes.
proof fn lemma_result(
    volumes: Seq<VolumeFacts>,
    measure: Measure,
    rollup: bool,
    ancestor: Option<u64>,
    cursor: Option<(int, Seq<char>, int)>,
    limit: int,
    page: TopPage,
    k: int,
) -> (n: int)
    requires
        is_top_page(volumes, measure, rollup, ancestor, cursor, limit, page),
        0 <= k < page.results@.len(),
    ensures
        0 <= n < volumes.len(),
        ({
            let r = page.results@[k];
            let v = volumes[n];
            let row = table_of(all_rows(v))[r.file_id];
            let m = numbers_of(v, measure, rollup, r.file_id);
            &&& table_of(all_rows(v)).contains_key(r.file_id)
            &&& is_listed(v, measure, rollup, ancestor, r.file_id)
            &&& r.volume@ == v.volume@
            &&& r.name@ == row.name@
            &&& r.is_directory == rollup
            &&& r.size == m.size
            &&& r.size_delta == m.delta
            &&& r.churn == m.churn
            &&& r.item_count == m.count
        }),
{
    let (items, tables) = choose|items: Seq<TopItem>, tables: Seq<VolumeTable>| #[trigger]
        gathers(volumes, measure, rollup, ancestor, items, tables) && items.len() <= usize::MAX && is_page(
            items,
            tables,
            measure,
            rollup,
            cursor,
            limit,
            page,
        );
    let keys = keys_of(items, measure);
    let order = order_of(keys);
    let kept = outermost(items, order, tables, rollup);
    let start = lemma_start(items, tables, measure, rollup, cursor, limit, page);
    let at = start + k;
    let p = lemma_kept_place(items, order, tables, rollup, at);
    lemma_order_within(items, tables, measure, rollup, page, start, k);
    let m = kept[at] as int;
    let l = listing(volumes, measure, rollup, ancestor);
    lemma_listing(volumes, measure, rollup, ancestor);
    assert(with_path(tables, items[m], page.results@[k]));
    assert(shows_at(volumes, measure, rollup, l[m], items[m]));
    let v = volumes[l[m].0];
    let id = l[m].1;
    lemma_listed(v, measure, rollup, ancestor, id);
    l[m].0
}

/// A node is listed if it is known and meets what is asked.
proof fn lemma_listed(v: VolumeFacts, measure: Measure, rollup: bool, ancestor: Option<u64>, id: u64)
    ensures
        listed_ids(v, measure, rollup, ancestor).contains(id) <==> table_of(all_rows(v)).contains_key(id) && is_listed(
            v,
            measure,
            rollup,
            ancestor,
            id,
        ),
{
    let rows = all_rows(v);
    lemma_ids(rows);
    let ids = ids_of(rows);
    let pred = |id: u64| is_listed(v, measure, rollup, ancestor, id);
    let kept = ids.filter(pred);
    if kept.contains(id) {
        ids.lemma_filter_contains_rev(pred, id);
        let i = choose|i: int| 0 <= i < kept.len() && kept[i] == id;
        ids.lemma_filter_pred(pred, i);
        assert(ids.contains(id));
    }
    if ids.contains(id) && pred(id) {
        let i = choose|i: int| 0 <= i < ids.len() && ids[i] == id;
        ids.lemma_filter_contains(pred, i);
    }
    assert(ids.contains(id) <==> table_of(rows).contains_key(id));
}

/// Where the page begins among the items that are kept.
proof fn lemma_start(
    items: Seq<TopItem>,
    tables: Seq<VolumeTable>,
    measure: Measure,
    rollup: bool,
    cursor: Option<(int, Seq<char>, int)>,
    limit: int,
    page: TopPage,
) -> (start: int)
    requires
        is_page(items, tables, measure, rollup, cursor, limit, page),
    ensures
        ({
            let kept = outermost(items, order_of(keys_of(items, measure)), tables, rollup);
            &&& is_page_start(items, kept, measure, cursor, start)
            &&& 0 <= start <= kept.len()
            &&& start + page.results@.len() <= kept.len()
            &&& page.results@.len() <= limit || limit < 0
            &&& forall|k: int|
                0 <= k < page.results@.len() ==> with_path(
                    tables,
                    items[kept[start + k] as int],
                    #[trigger] page.results@[k],
                )
            &&& (page.next_cursor is Some) == (start + limit < kept.len())
            &&& page.next_cursor is None ==> start + page.results@.len() == kept.len()
            &&& page.next_cursor is Some ==> page.results@.len() == limit
        }),
{
    let kept = outermost(items, order_of(keys_of(items, measure)), tables, rollup);
    let start = choose|start: int|
        {
            let end = if start + limit < kept.len() {
                start + limit
            } else {
                kept.len() as int
            };
            &&& #[trigger] is_page_start(items, kept, measure, cursor, start)
            &&& 0 <= start <= kept.len()
            &&& page.results@.len() == end - start
            &&& forall|k: int|
                0 <= k < page.results@.len() ==> with_path(
                    tables,
                    items[kept[start + k] as int],
                    #[trigger] page.results@[k],
                )
            &&& (page.next_cursor is Some) == (start + limit < kept.len())
            &&& page.next_cursor is Some ==> {
                let next = items[kept[start + limit] as int];
                encode_utf8(page.next_cursor->0@) == crate::base64::encoded(
                    encode_utf8(
                        crate::top::cursor_text(crate::top::cursor_value(next, measure), next.volume@, next.file_id),
                    ),
                )
            }
        };
    start
}

proof fn lemma_order_within(
    items: Seq<TopItem>,
    tables: Seq<VolumeTable>,
    measure: Measure,
    rollup: bool,
    page: TopPage,
    start: int,
    k: int,
)
    requires
        items.len() <= usize::MAX,
        0 <= start + k < outermost(items, order_of(keys_of(items, measure)), tables, rollup).len(),
    ensures
        outermost(items, order_of(keys_of(items, measure)), tables, rollup)[start + k] < items.len(),
{
    let keys = keys_of(items, measure);
    law_order_exists(keys);
    let p = lemma_kept_place(items, order_of(keys), tables, rollup, start + k);
    assert(order_of(keys)[p] < items.len());
}

/// What a change adds to a folder: its growth, if its node lies in the folder.
pub open spec fn growth_in(v: VolumeFacts, folder: u64) -> Seq<int> {
    Seq::new(
        v.changes@.len(),
        |i: int|
            if lies_in(all_rows(v), v.changes@[i].node.file_id, folder) {
                v.changes@[i].size_delta as int
            } else {
                0
            },
    )
}

/// One for each change of a node that lies in the folder.
pub open spec fn changes_in(v: VolumeFacts, folder: u64) -> Seq<int> {
    Seq::new(
        v.changes@.len(),
        |i: int|
            if lies_in(all_rows(v), v.changes@[i].node.file_id, folder) {
                1
            } else {
                0
            },
    )
}

/// One for each changed node that lies in the folder, at its last change.
pub open spec fn changed_in(v: VolumeFacts, folder: u64) -> Seq<int> {
    Seq::new(
        v.changes@.len(),
        |i: int|
            if lies_in(all_rows(v), v.changes@[i].node.file_id, folder) && forall|j: int|
                i < j < v.changes@.len() ==> (#[trigger] v.changes@[j]).node.file_id != v.changes@[i].node.file_id {
                1
            } else {
                0
            },
    )
}

proof fn lemma_changed_count(v: VolumeFacts, folder: u64)
    requires
        folder != 0,
    ensures
        total(weights_below(parents_of(all_rows(v)), changed_ones(v.changes@), folder)) == total(changed_in(v, folder)),
{
    let rows = all_rows(v);
    let parents = parents_of(rows);
    let nodes = changed_nodes(v.changes@);
    let f = |r: FactRow|
        if is_above(parents, r.file_id, folder) {
            1int
        } else {
            0int
        };
    lemma_sum_of_rows(nodes, f);
    lemma_ids(nodes);
    lemma_keyed(nodes);
    let ids = ids_of(nodes);
    let a = Seq::new(ids.len(), |k: int| f(table_of(nodes)[ids[k]]));
    assert forall|k: int| 0 <= k < ids.len() implies table_of(nodes)[#[trigger] ids[k]].file_id == ids[k] by {
        assert(ids.contains(ids[k]));
    }
    assert(weights_below(parents, changed_ones(v.changes@), folder) =~= a);
    let b = Seq::new(
        nodes.len(),
        |i: int|
            if is_last_row(nodes, i) {
                f(nodes[i])
            } else {
                0
            },
    );
    assert forall|i: int| 0 <= i < nodes.len() implies b[i] == #[trigger] changed_in(v, folder)[i] by {
        lemma_lies_in(rows, nodes[i].file_id, folder);
        if is_last_row(nodes, i) {
            assert forall|j: int| i < j < v.changes@.len() implies (#[trigger] v.changes@[j]).node.file_id
                != v.changes@[i].node.file_id by {
                assert(nodes[j].file_id != nodes[i].file_id);
            }
        }
        if forall|j: int|
            i < j < v.changes@.len() ==> (#[trigger] v.changes@[j]).node.file_id != v.changes@[i].node.file_id {
            assert forall|j: int| i < j < nodes.len() implies (#[trigger] nodes[j]).file_id != nodes[i].file_id by {
                assert(v.changes@[j].node.file_id != v.changes@[i].node.file_id);
            }
        }
    }
    assert(b =~= changed_in(v, folder));
}

proof fn lemma_keyed(rows: Seq<FactRow>)
    ensures
        forall|id: u64| #[trigger] table_of(rows).contains_key(id) ==> table_of(rows)[id].file_id == id,
    decreases rows.len(),
{
    if rows.len() > 0 {
        let part = rows.drop_last();
        lemma_keyed(part);
        assert forall|id: u64| #[trigger] table_of(rows).contains_key(id) implies table_of(rows)[id].file_id == id by {
            if id != rows.last().file_id {
                assert(table_of(part).contains_key(id));
            }
        }
    }
}

/// The growth, the number of changes and the number of changed nodes that are shown for a
/// folder are those of all nodes that lie in it, at any depth, each change once.
pub proof fn law_folder_growth(
    volumes: Seq<VolumeFacts>,
    measure: Measure,
    ancestor: Option<u64>,
    cursor: Option<(int, Seq<char>, int)>,
    limit: int,
    page: TopPage,
    k: int,
)
    requires
        is_top_page(volumes, measure, true, ancestor, cursor, limit, page),
        measure == Measure::Growth || measure == Measure::Churn,
        0 <= k < page.results@.len(),
        page.results@[k].file_id != 0,
    ensures
        exists|n: int|
            0 <= n < volumes.len() && (#[trigger] volumes[n]).volume@ == page.results@[k].volume@ && ({
                let r = page.results@[k];
                &&& r.size_delta == total(growth_in(volumes[n], r.file_id))
                &&& r.churn == total(changes_in(volumes[n], r.file_id))
                &&& r.item_count == total(changed_in(volumes[n], r.file_id))
            }),
{
    let n = lemma_result(volumes, measure, true, ancestor, cursor, limit, page, k);
    let v = volumes[n];
    let r = page.results@[k];
    lemma_folder_numbers(v, measure, r.file_id);
}

proof fn lemma_folder_numbers(v: VolumeFacts, measure: Measure, id: u64)
    requires
        measure == Measure::Growth || measure == Measure::Churn,
        id != 0,
    ensures
        numbers_of(v, measure, true, id).delta == total(growth_in(v, id)),
        numbers_of(v, measure, true, id).churn == total(changes_in(v, id)),
        numbers_of(v, measure, true, id).count == total(changed_in(v, id)),
{
    let parents = parents_of(all_rows(v));
    assert forall|i: int| 0 <= i < v.changes@.len() implies is_above(
        parents,
        (#[trigger] v.changes@[i]).node.file_id,
        id,
    ) == lies_in(all_rows(v), v.changes@[i].node.file_id, id) by {
        lemma_lies_in(all_rows(v), v.changes@[i].node.file_id, id);
    }
    assert(weights_below(parents, growth_weights(v.changes@), id) =~= growth_in(v, id));
    assert(weights_below(parents, change_ones(v.changes@), id) =~= changes_in(v, id));
    lemma_changed_count(v, id);
}

/// One more change of a node that is known by the same row raises the growth of a folder
/// by the growth of the change if the node lies in the folder, for instance directly, and
/// leaves it as it was if not.
pub proof fn law_one_more_change(
    v: VolumeFacts,
    w: VolumeFacts,
    change: ChangeRow,
    measure: Measure,
    limit: int,
    page: TopPage,
    more: TopPage,
    i: int,
    j: int,
)
    requires
        is_top_page(seq![v], measure, true, None, None, limit, page),
        is_top_page(seq![w], measure, true, None, None, limit, more),
        measure == Measure::Growth || measure == Measure::Churn,
        w.facts@ == v.facts@,
        w.changes@ == v.changes@.push(change),
        exists|p: int| 0 <= p < all_rows(v).len() && all_rows(v)[p] == change.node && #[trigger] is_last_row(all_rows(v), p),
        0 <= i < page.results@.len(),
        0 <= j < more.results@.len(),
        page.results@[i].file_id == more.results@[j].file_id,
        page.results@[i].file_id != 0,
    ensures
        ({
            let a = page.results@[i];
            let b = more.results@[j];
            &&& lies_in(all_rows(v), change.node.file_id, a.file_id) ==> b.size_delta == a.size_delta + change.size_delta
                && b.churn == a.churn + 1
            &&& !lies_in(all_rows(v), change.node.file_id, a.file_id) ==> b.size_delta == a.size_delta && b.churn
                == a.churn
            &&& change.node.parent_file_id == a.file_id && change.node.file_id != a.file_id ==> b.size_delta
                == a.size_delta + change.size_delta
        }),
{
    let id = page.results@[i].file_id;
    let x = lemma_result(seq![v], measure, true, None, None, limit, page, i);
    let y = lemma_result(seq![w], measure, true, None, None, limit, more, j);
    lemma_folder_numbers(v, measure, id);
    lemma_folder_numbers(w, measure, id);
    lemma_sums_with_change(v, w, change, id);
}

proof fn lemma_sums_with_change(v: VolumeFacts, w: VolumeFacts, change: ChangeRow, id: u64)
    requires
        w.facts@ == v.facts@,
        w.changes@ == v.changes@.push(change),
        exists|p: int| 0 <= p < all_rows(v).len() && all_rows(v)[p] == change.node && #[trigger] is_last_row(all_rows(v), p),
        id != 0,
    ensures
        total(growth_in(w, id)) == total(growth_in(v, id)) + (if lies_in(all_rows(v), change.node.file_id, id) {
            change.size_delta as int
        } else {
            0
        }),
        total(changes_in(w, id)) == total(changes_in(v, id)) + (if lies_in(all_rows(v), change.node.file_id, id) {
            1int
        } else {
            0
        }),
        change.node.parent_file_id == id && change.node.file_id != id ==> lies_in(all_rows(v), change.node.file_id, id),
{
    let (rv, rw) = (all_rows(v), all_rows(w));
    let n = v.changes@.len() as int;
    let x = change.node.file_id;
    assert(rw =~= rv.push(change.node));
    lemma_last_rows(rv);
    let p = choose|p: int| 0 <= p < rv.len() && rv[p] == change.node && #[trigger] is_last_row(rv, p);
    assert(rw.drop_last() =~= rv);
    assert(table_of(rw) =~= table_of(rv));
    let g = if lies_in(rv, x, id) {
        change.size_delta as int
    } else {
        0
    };
    let c = if lies_in(rv, x, id) {
        1int
    } else {
        0
    };
    lemma_lies_in(rv, x, id);
    lemma_lies_in(rw, x, id);
    assert forall|i: int| 0 <= i < n implies growth_in(w, id)[i] == #[trigger] growth_in(v, id)[i] && changes_in(w, id)[i]
        == changes_in(v, id)[i] by {
        lemma_lies_in(rv, v.changes@[i].node.file_id, id);
        lemma_lies_in(rw, v.changes@[i].node.file_id, id);
    }
    assert(growth_in(w, id) =~= growth_in(v, id).push(g));
    assert forall|i: int| 0 <= i < n implies changes_in(w, id)[i] == #[trigger] changes_in(v, id)[i] by {
        assert(growth_in(w, id)[i] == growth_in(v, id)[i]);
    }
    assert(changes_in(w, id) =~= changes_in(v, id).push(c));
    crate::sums::lemma_total_push(growth_in(v, id), g);
    crate::sums::lemma_total_push(changes_in(v, id), c);
    if change.node.parent_file_id == id && x != id {
        assert(sits_in(rv, x, id)) by {
            assert(is_last_row(rv, p));
        }
        let chain = seq![x, id];
        assert(is_way_up(rv, chain));
    }
}

/// What a row adds to the size of a folder: that of a file, by its last row, if it lies in
/// the folder.
pub open spec fn sizes_in(rows: Seq<FactRow>, folder: u64) -> Seq<int> {
    Seq::new(
        rows.len(),
        |i: int|
            if is_last_row(rows, i) && !rows[i].is_directory && lies_in(rows, rows[i].file_id, folder) {
                rows[i].size as int
            } else {
                0
            },
    )
}

/// One for each file that lies in the folder.
pub open spec fn files_in(rows: Seq<FactRow>, folder: u64) -> Seq<int> {
    Seq::new(
        rows.len(),
        |i: int|
            if is_last_row(rows, i) && !rows[i].is_directory && lies_in(rows, rows[i].file_id, folder) {
                1
            } else {
                0
            },
    )
}

/// The size and the number of files that are shown for a folder are those of the files
/// that lie in it, at any depth.
pub proof fn law_folder_size(
    volumes: Seq<VolumeFacts>,
    ancestor: Option<u64>,
    cursor: Option<(int, Seq<char>, int)>,
    limit: int,
    page: TopPage,
    k: int,
)
    requires
        is_top_page(volumes, Measure::Size, true, ancestor, cursor, limit, page),
        0 <= k < page.results@.len(),
        page.results@[k].file_id != 0,
    ensures
        exists|n: int|
            0 <= n < volumes.len() && (#[trigger] volumes[n]).volume@ == page.results@[k].volume@ && ({
                let r = page.results@[k];
                &&& r.size == total(sizes_in(all_rows(volumes[n]), r.file_id))
                &&& r.item_count == total(files_in(all_rows(volumes[n]), r.file_id))
                &&& r.size_delta == 0
                &&& r.churn == 0
            }),
{
    let n = lemma_result(volumes, Measure::Size, true, ancestor, cursor, limit, page, k);
    let v = volumes[n];
    let r = page.results@[k];
    let rows = all_rows(v);
    let id = r.file_id;
    let parents = parents_of(rows);
    let ids = ids_of(rows);
    let f = |row: FactRow|
        if !row.is_directory && is_above(parents, row.file_id, id) {
            row.size as int
        } else {
            0int
        };
    let g = |row: FactRow|
        if !row.is_directory && is_above(parents, row.file_id, id) {
            1int
        } else {
            0int
        };
    lemma_sum_of_rows(rows, f);
    lemma_sum_of_rows(rows, g);
    lemma_ids(rows);
    lemma_keyed(rows);
    assert forall|k: int| 0 <= k < ids.len() implies table_of(rows)[#[trigger] ids[k]].file_id == ids[k] by {
        assert(ids.contains(ids[k]));
    }
    assert(weights_below(parents, size_weights(rows), id) =~= Seq::new(ids.len(), |k: int| f(table_of(rows)[ids[k]])));
    assert(weights_below(parents, file_ones(rows), id) =~= Seq::new(ids.len(), |k: int| g(table_of(rows)[ids[k]])));
    assert forall|i: int| 0 <= i < rows.len() implies is_above(parents, (#[trigger] rows[i]).file_id, id) == lies_in(
        rows,
        rows[i].file_id,
        id,
    ) by {
        lemma_lies_in(rows, rows[i].file_id, id);
    }
    assert(Seq::new(
        rows.len(),
        |i: int|
            if is_last_row(rows, i) {
                f(rows[i])
            } else {
                0
            },
    ) =~= sizes_in(rows, id));
    assert(Seq::new(
        rows.len(),
        |i: int|
            if is_last_row(rows, i) {
                g(rows[i])
            } else {
                0
            },
    ) =~= files_in(rows, id));
}

/// A file is shown with its own numbers: its size by its last row, or the growth and the
/// number of its own changes.
pub proof fn law_file_numbers(
    volumes: Seq<VolumeFacts>,
    measure: Measure,
    ancestor: Option<u64>,
    cursor: Option<(int, Seq<char>, int)>,
    limit: int,
    page: TopPage,
    k: int,
)
    requires
        is_top_page(volumes, measure, false, ancestor, cursor, limit, page),
        0 <= k < page.results@.len(),
    ensures
        exists|n: int, p: int|
            #![trigger volumes[n], all_rows(volumes[n])[p]]
            0 <= n < volumes.len() && 0 <= p < all_rows(volumes[n]).len() && ({
                let v = volumes[n];
                let r = page.results@[k];
                let row = all_rows(v)[p];
                &&& is_last_row(all_rows(v), p)
                &&& row.file_id == r.file_id
                &&& !row.is_directory
                &&& !r.is_directory
                &&& r.name@ == row.name@
                &&& r.volume@ == v.volume@
                &&& r.item_count == 0
                &&& measure == Measure::Size ==> r.size == row.size && r.size_delta == 0 && r.churn == 0
                &&& measure != Measure::Size ==> {
                    &&& r.size == 0
                    &&& r.size_delta == total(
                        Seq::new(
                            v.changes@.len(),
                            |i: int|
                                if v.changes@[i].node.file_id == r.file_id {
                                    v.changes@[i].size_delta as int
                                } else {
                                    0
                                },
                        ),
                    )
                    &&& r.churn == total(
                        Seq::new(
                            v.changes@.len(),
                            |i: int|
                                if v.changes@[i].node.file_id == r.file_id {
                                    1
                                } else {
                                    0
                                },
                        ),
                    )
                }
            }),
{
    let n = lemma_result(volumes, measure, false, ancestor, cursor, limit, page, k);
    let v = volumes[n];
    let r = page.results@[k];
    let id = r.file_id;
    let rows = all_rows(v);
    lemma_last_rows(rows);
    let p = choose|p: int| 0 <= p < rows.len() && rows[p].file_id == id && #[trigger] is_last_row(rows, p);
    assert(table_of(rows)[id] == rows[p]);
    assert(weights_at(growth_weights(v.changes@), id) =~= Seq::new(
        v.changes@.len(),
        |i: int|
            if v.changes@[i].node.file_id == id {
                v.changes@[i].size_delta as int
            } else {
                0
            },
    ));
    assert(weights_at(change_ones(v.changes@), id) =~= Seq::new(
        v.changes@.len(),
        |i: int|
            if v.changes@[i].node.file_id == id {
                1
            } else {
                0
            },
    ));
    assert(volumes[n] == v && all_rows(volumes[n])[p] == rows[p]);
}

/// Results come with the largest number first: the size, the number of changes, or the
/// growth without its sign. Of two with the same number the one whose name comes first,
/// byte by byte, is first; of two with the same name the one with the highest id.
pub proof fn law_results_ranked(
    volumes: Seq<VolumeFacts>,
    measure: Measure,
    rollup: bool,
    ancestor: Option<u64>,
    cursor: Option<(int, Seq<char>, int)>,
    limit: int,
    page: TopPage,
    i: int,
    j: int,
)
    requires
        is_top_page(volumes, measure, rollup, ancestor, cursor, limit, page),
        0 <= i < j < page.results@.len(),
    ensures
        ({
            let a = page.results@[i];
            let b = page.results@[j];
            let (x, y) = (encode_utf8(a.name@), encode_utf8(b.name@));
            &&& measure == Measure::Size ==> a.size >= b.size
            &&& measure == Measure::Churn ==> a.churn >= b.churn
            &&& measure == Measure::Growth ==> {
                ||| a.size_delta >= b.size_delta && a.size_delta >= -b.size_delta
                ||| -a.size_delta >= b.size_delta && -a.size_delta >= -b.size_delta
            }
            &&& (measure == Measure::Size && a.size == b.size || measure == Measure::Churn && a.churn == b.churn
                || measure == Measure::Growth && (a.size_delta == b.size_delta || a.size_delta == -b.size_delta))
                ==> bytes_at_most(x, y) && (x == y ==> a.file_id >= b.file_id)
        }),
{
    let (items, tables) = choose|items: Seq<TopItem>, tables: Seq<VolumeTable>| #[trigger]
        gathers(volumes, measure, rollup, ancestor, items, tables) && items.len() <= usize::MAX && is_page(
            items,
            tables,
            measure,
            rollup,
            cursor,
            limit,
            page,
        );
    let start = lemma_start(items, tables, measure, rollup, cursor, limit, page);
    law_ranked(items, tables, measure, rollup, start + i, start + j);
    let kept = outermost(items, order_of(keys_of(items, measure)), tables, rollup);
    assert(with_path(tables, items[kept[start + i] as int], page.results@[i]));
    assert(with_path(tables, items[kept[start + j] as int], page.results@[j]));
    crate::order::lemma_bytes_total(encode_utf8(page.results@[i].name@), encode_utf8(page.results@[i].name@));
}

/// A page is never longer than asked for, and it is shorter only where nothing follows.
pub proof fn law_page_length(
    volumes: Seq<VolumeFacts>,
    measure: Measure,
    rollup: bool,
    ancestor: Option<u64>,
    cursor: Option<(int, Seq<char>, int)>,
    limit: nat,
    page: TopPage,
)
    requires
        is_top_page(volumes, measure, rollup, ancestor, cursor, limit as int, page),
    ensures
        page.results@.len() <= limit,
        page.results@.len() < limit ==> page.next_cursor is None,
{
    let (items, tables) = choose|items: Seq<TopItem>, tables: Seq<VolumeTable>| #[trigger]
        gathers(volumes, measure, rollup, ancestor, items, tables) && items.len() <= usize::MAX && is_page(
            items,
            tables,
            measure,
            rollup,
            cursor,
            limit as int,
            page,
        );
    let start = lemma_start(items, tables, measure, rollup, cursor, limit as int, page);
}

/// Where the first page is also the last, every file is on it: by size every known file,
/// by growth or changes every file with a logged change.
pub proof fn law_all_files(
    volumes: Seq<VolumeFacts>,
    measure: Measure,
    limit: nat,
    page: TopPage,
    n: int,
    p: int,
)
    requires
        is_top_page(volumes, measure, false, None, None, limit as int, page),
        page.next_cursor is None,
        0 <= n < volumes.len(),
        0 <= p < all_rows(volumes[n]).len(),
        is_last_row(all_rows(volumes[n]), p),
        !all_rows(volumes[n])[p].is_directory,
        measure == Measure::Size || exists|c: int|
            0 <= c < volumes[n].changes@.len() && (#[trigger] volumes[n].changes@[c]).node.file_id == all_rows(volumes[n])[p].file_id,
    ensures
        exists|k: int|
            0 <= k < page.results@.len() && (#[trigger] page.results@[k]).file_id == all_rows(volumes[n])[p].file_id
                && page.results@[k].volume@ == volumes[n].volume@,
{
    let v = volumes[n];
    let rows = all_rows(v);
    let id = rows[p].file_id;
    lemma_last_rows(rows);
    if measure != Measure::Size {
        let ones = weights_at(change_ones(v.changes@), id);
        let c = choose|c: int| 0 <= c < v.changes@.len() && (#[trigger] v.changes@[c]).node.file_id == id;
        assert(ones[c] == 1);
        crate::sums::lemma_total_nonneg(ones);
        crate::sums::lemma_total_update(ones, c, 0);
        crate::sums::lemma_total_nonneg(ones.update(c, 0));
    }
    lemma_listed(v, measure, false, None, id);
    assert(is_listed(v, measure, false, None, id));
    let k = lemma_shown_file(volumes, measure, limit, page, n, id);
}

proof fn lemma_shown_file(
    volumes: Seq<VolumeFacts>,
    measure: Measure,
    limit: nat,
    page: TopPage,
    n: int,
    id: u64,
) -> (k: int)
    requires
        is_top_page(volumes, measure, false, None, None, limit as int, page),
        page.next_cursor is None,
        0 <= n < volumes.len(),
        listed_ids(volumes[n], measure, false, None).contains(id),
    ensures
        0 <= k < page.results@.len(),
        page.results@[k].file_id == id,
        page.results@[k].volume@ == volumes[n].volume@,
{
    let (items, tables) = choose|items: Seq<TopItem>, tables: Seq<VolumeTable>| #[trigger]
        gathers(volumes, measure, false, None, items, tables) && items.len() <= usize::MAX && is_page(
            items,
            tables,
            measure,
            false,
            None,
            limit as int,
            page,
        );
    let keys = keys_of(items, measure);
    let order = order_of(keys);
    let kept = outermost(items, order, tables, false);
    let start = lemma_start(items, tables, measure, false, None, limit as int, page);
    lemma_listing(volumes, measure, false, None);
    let l = listing(volumes, measure, false, None);
    assert(l.contains((n, id)));
    let m = choose|m: int| 0 <= m < l.len() && l[m] == (n, id);
    law_order_exists(keys);
    lemma_all_kept(items, order, tables);
    assert(order.contains(m as usize));
    let k = choose|k: int| 0 <= k < order.len() && order[k] == m as usize;
    assert(kept[start + k] == order[k]);
    assert(with_path(tables, items[m], page.results@[k]));
    assert(shows_at(volumes, measure, false, l[m], items[m]));
    k
}

proof fn lemma_all_kept(items: Seq<TopItem>, order: Seq<usize>, tables: Seq<VolumeTable>)
    ensures
        outermost(items, order, tables, false) == order,
    decreases order.len(),
{
    if order.len() > 0 {
        lemma_all_kept(items, order.drop_last(), tables);
        assert(order.drop_last().push(order.last()) =~= order);
    } else {
        assert(outermost(items, order, tables, false) =~= order);
    }
}

/// A folder on the page does not lie below one that comes before it.
pub proof fn law_folders_apart(
    v: VolumeFacts,
    measure: Measure,
    ancestor: Option<u64>,
    cursor: Option<(int, Seq<char>, int)>,
    limit: int,
    page: TopPage,
    i: int,
    j: int,
)
    requires
        is_top_page(seq![v], measure, true, ancestor, cursor, limit, page),
        0 <= i < j < page.results@.len(),
        page.results@[i].file_id != 0,
        page.results@[j].file_id != 0,
    ensures
        page.results@[i].file_id != page.results@[j].file_id,
        !lies_in(all_rows(v), page.results@[j].file_id, page.results@[i].file_id),
{
    let volumes = seq![v];
    let (items, tables) = choose|items: Seq<TopItem>, tables: Seq<VolumeTable>| #[trigger]
        gathers(volumes, measure, true, ancestor, items, tables) && items.len() <= usize::MAX && is_page(
            items,
            tables,
            measure,
            true,
            cursor,
            limit,
            page,
        );
    let order = order_of(keys_of(items, measure));
    let kept = outermost(items, order, tables, true);
    let start = lemma_start(items, tables, measure, true, cursor, limit, page);
    law_outermost(items, order, tables, start + i, start + j);
    lemma_order_within(items, tables, measure, true, page, start, i);
    lemma_order_within(items, tables, measure, true, page, start, j);
    let a = items[kept[start + j] as int];
    let b = items[kept[start + i] as int];
    assert(with_path(tables, b, page.results@[i]));
    assert(with_path(tables, a, page.results@[j]));
    let l = listing(volumes, measure, true, ancestor);
    lemma_listing(volumes, measure, true, ancestor);
    assert(shows_at(volumes, measure, true, l[kept[start + j] as int], a));
    assert(shows_at(volumes, measure, true, l[kept[start + i] as int], b));
    let parents = tables[0].table.parents@;
    assert(parents == parents_of(all_rows(v)));
    assert(tables[0].volume@ == v.volume@);
    assert(is_table_of(tables, v.volume@, 0));
    if a.file_id == b.file_id {
        assert(above_by(parents, a.file_id, 0) == Some(b.file_id));
        assert(leads_to(parents, a.file_id, b.file_id));
    }
    if lies_in(all_rows(v), a.file_id, b.file_id) {
        lemma_lies_in(all_rows(v), a.file_id, b.file_id);
        let k = choose|k: nat| #[trigger] above_by(parents, parents[a.file_id], k) == Some(b.file_id);
        lemma_one_lower(parents, a.file_id, k);
        assert(leads_to(parents, a.file_id, b.file_id));
    }
}

proof fn lemma_one_lower(parents: Map<u64, u64>, id: u64, k: nat)
    requires
        id != 0,
        parents.contains_key(id),
    ensures
        above_by(parents, id, k + 1) == above_by(parents, parents[id], k),
    decreases k,
{
    if k == 0 {
        assert(above_by(parents, id, 0) == Some(id));
    } else {
        lemma_one_lower(parents, id, (k - 1) as nat);
    }
}

/// Where a folder is asked for, every result is that folder or lies in it.
pub proof fn law_below_ancestor(
    volumes: Seq<VolumeFacts>,
    measure: Measure,
    rollup: bool,
    ancestor: u64,
    cursor: Option<(int, Seq<char>, int)>,
    limit: int,
    page: TopPage,
    k: int,
)
    requires
        is_top_page(volumes, measure, rollup, Some(ancestor), cursor, limit, page),
        0 <= k < page.results@.len(),
        ancestor != 0,
        page.results@[k].file_id != 0,
    ensures
        exists|n: int|
            0 <= n < volumes.len() && (#[trigger] volumes[n]).volume@ == page.results@[k].volume@ && (
            page.results@[k].file_id == ancestor || lies_in(all_rows(volumes[n]), page.results@[k].file_id, ancestor)),
{
    let n = lemma_result(volumes, measure, rollup, Some(ancestor), cursor, limit, page, k);
    let rows = all_rows(volumes[n]);
    let parents = parents_of(rows);
    let id = page.results@[k].file_id;
    let j = choose|j: nat| #[trigger] above_by(parents, id, j) == Some(ancestor);
    if id != ancestor {
        assert(j > 0);
        assert(parents.contains_key(id));
        lemma_one_lower(parents, id, (j - 1) as nat);
        assert(leads_to(parents, parents[id], ancestor));
        lemma_lies_in(rows, id, ancestor);
    }
    assert(volumes[n].volume@ == page.results@[k].volume@);
}

/// A result shows the path of the directory that it is in.
pub proof fn law_result_path(
    v: VolumeFacts,
    measure: Measure,
    rollup: bool,
    ancestor: Option<u64>,
    cursor: Option<(int, Seq<char>, int)>,
    limit: int,
    page: TopPage,
    k: int,
    dir: Seq<char>,
)
    requires
        is_top_page(seq![v], measure, rollup, ancestor, cursor, limit, page),
        0 <= k < page.results@.len(),
        ({
            let rows = all_rows(v);
            let id = page.results@[k].file_id;
            let parents = parents_of(rows);
            let names = names_of(rows);
            &&& names[id]@.len() > 0
            &&& names[id]@ != v.volume@
            &&& parents[id] != 0
            &&& !leads_to(parents, parents[id], id)
            &&& is_fact_path(parents, names, v.volume@, parents[id], dir)
        }),
    ensures
        page.results@[k].path@ == dir,
{
    let volumes = seq![v];
    let (items, tables) = choose|items: Seq<TopItem>, tables: Seq<VolumeTable>| #[trigger]
        gathers(volumes, measure, rollup, ancestor, items, tables) && items.len() <= usize::MAX && is_page(
            items,
            tables,
            measure,
            rollup,
            cursor,
            limit,
            page,
        );
    let n = lemma_result(volumes, measure, rollup, ancestor, cursor, limit, page, k);
    let start = lemma_start(items, tables, measure, rollup, cursor, limit, page);
    let kept = outermost(items, order_of(keys_of(items, measure)), tables, rollup);
    let item = items[kept[start + k] as int];
    assert(with_path(tables, item, page.results@[k]));
    let r = page.results@[k];
    let id = r.file_id;
    let rows = all_rows(v);
    assert(tables[0].volume@ == v.volume@);
    assert(is_table_of(tables, v.volume@, 0));
    let parents = tables[0].table.parents@;
    let names = tables[0].table.names@;
    assert(parents == parents_of(rows) && names == names_of(rows));
    assert(r.volume@ == v.volume@);
    let ids = choose|ids: Seq<u64>| #[trigger]
        is_lineage(parents, names, v.volume@, id, ids) && r.path@ == joined(upper_names(names, ids), "/"@);
    let up = choose|up: Seq<u64>| #[trigger]
        is_lineage(parents, names, v.volume@, parents[id], up) && dir == joined(all_names(names, up), "/"@);
    lemma_lineage_step(parents, names, v.volume@, id, up);
    law_lineage_unique(parents, names, v.volume@, id, ids, seq![id] + up);
    assert(upper_names(names, ids) =~= all_names(names, up));
}

/// A page begins behind the result that its cursor names: it goes on where a page of all
/// results has that result, and holds as many of them as asked for.
pub proof fn law_next_page(
    items: Seq<TopItem>,
    tables: Seq<VolumeTable>,
    measure: Measure,
    rollup: bool,
    all_limit: nat,
    all: TopPage,
    place: (int, Seq<char>, int),
    limit: nat,
    page: TopPage,
    m: int,
)
    requires
        items.len() <= usize::MAX,
        is_page(items, tables, measure, rollup, None, all_limit as int, all),
        all.next_cursor is None,
        is_page(items, tables, measure, rollup, Some(place), limit as int, page),
        0 <= m < all.results@.len(),
        all.results@[m].volume@ == place.1,
        all.results@[m].file_id == place.2,
        measure == Measure::Growth ==> all.results@[m].size_delta == place.0,
        measure == Measure::Churn ==> all.results@[m].churn == place.0 && place.0 <= i64::MAX,
        measure == Measure::Size ==> all.results@[m].size == place.0 && place.0 <= i64::MAX,
        forall|k: int|
            0 <= k < m ==> (#[trigger] all.results@[k]).volume@ != place.1 || all.results@[k].file_id != place.2,
    ensures
        page.results@.len() == (if m + 1 + limit < all.results@.len() {
            limit as int
        } else {
            all.results@.len() - m - 1
        }),
        forall|k: int|
            0 <= k < page.results@.len() ==> {
                let a = #[trigger] page.results@[k];
                let b = all.results@[m + 1 + k];
                &&& a.file_id == b.file_id
                &&& a.volume@ == b.volume@
                &&& a.name@ == b.name@
                &&& a.size == b.size
                &&& a.size_delta == b.size_delta
                &&& a.churn == b.churn
                &&& a.item_count == b.item_count
            },
        (page.next_cursor is Some) <==> m + 1 + limit < all.results@.len(),
{
    let kept = outermost(items, order_of(keys_of(items, measure)), tables, rollup);
    let s = lemma_start(items, tables, measure, rollup, None, all_limit as int, all);
    let p = lemma_start(items, tables, measure, rollup, Some(place), limit as int, page);
    assert(s == 0);
    assert forall|k: int| 0 <= k < all.results@.len() implies with_path(
        tables,
        items[kept[k] as int],
        #[trigger] all.results@[k],
    ) && 0 <= kept[k] < items.len() by {
        assert(with_path(tables, items[kept[0 + k] as int], all.results@[k]));
        lemma_order_within(items, tables, measure, rollup, all, 0, k);
    }
    let hit = items[kept[m] as int];
    assert(with_path(tables, hit, all.results@[m]));
    assert(at_cursor(hit, measure, place));
    assert(at_cursor(items[kept[m] as int], measure, place));
    assert forall|k: int| 0 <= k < m implies !at_cursor(items[(#[trigger] kept[k]) as int], measure, place) by {
        assert(with_path(tables, items[kept[k] as int], all.results@[k]));
        assert(all.results@[k].volume@ != place.1 || all.results@[k].file_id != place.2);
    }
    assert(p == m + 1) by {
        assert(0 <= kept[m] < items.len());
        if p - 1 < m {
            assert(p == kept.len() || !at_cursor(items[kept[p - 1] as int], measure, place));
        } else if p - 1 > m {
            assert(at_cursor(items[kept[m] as int], measure, place));
        }
    }
    assert forall|k: int| 0 <= k < page.results@.len() implies ({
        let a = #[trigger] page.results@[k];
        let b = all.results@[m + 1 + k];
        &&& a.file_id == b.file_id
        &&& a.volume@ == b.volume@
        &&& a.name@ == b.name@
        &&& a.size == b.size
        &&& a.size_delta == b.size_delta
        &&& a.churn == b.churn
        &&& a.item_count == b.item_count
    }) by {
        assert(with_path(tables, items[kept[p + k] as int], page.results@[k]));
        assert(with_path(tables, items[kept[m + 1 + k] as int], all.results@[m + 1 + k]));
    }
}

} // verus!
