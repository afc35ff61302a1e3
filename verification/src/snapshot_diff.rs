//! What changed on a volume between two places in its mutation log.

use crate::ancestry::{get_fact_path, is_fact_path};
use crate::facts::FactTable;
use crate::mutation_filter::{displayable, is_displayable_mutation};
use crate::order::{
    bytes_at_most, is_bytes_at_most, is_stable_order, lemma_bytes_total, lemma_bytes_transitive,
    order_of, stable_order, Rank,
};
use crate::text::{lowercase, lowercase_of, opt_str, opt_text, starts_with, str_eq};
use crate::top_request::check_log_reaches;
use std::collections::HashMap;
use vstd::prelude::*;
use vstd::utf8::encode_utf8;

verus! {

/// One file that changed.
#[derive(Debug, Clone)]
pub struct DiffFile {
    pub file_id: u64,
    pub parent_file_id: u64,
    pub name: String,
    pub is_directory: bool,
    pub size_delta: i64,
    /// "Created", "Deleted", "Modified" or "Renamed".
    pub kind: String,
    pub old_name: Option<String>,
    pub old_parent_file_id: Option<u64>,
    pub path: String,
}

/// One entry of the mutation log of a volume.
pub struct LogRow {
    pub sequence: i64,
    pub file_id: u64,
    pub parent_file_id: u64,
    pub name: String,
    pub kind: String,
    pub is_directory: bool,
    pub size_delta: i64,
}

/// A changed file as plain values, without its path.
pub struct DiffView {
    pub file_id: u64,
    pub parent_file_id: u64,
    pub name: Seq<char>,
    pub is_directory: bool,
    pub size_delta: int,
    pub kind: Seq<char>,
    pub old_name: Option<Seq<char>>,
    pub old_parent_file_id: Option<u64>,
}

pub open spec fn diff_view(f: DiffFile) -> DiffView {
    DiffView {
        file_id: f.file_id,
        parent_file_id: f.parent_file_id,
        name: f.name@,
        is_directory: f.is_directory,
        size_delta: f.size_delta as int,
        kind: f.kind@,
        old_name: opt_text(f.old_name),
        old_parent_file_id: f.old_parent_file_id,
    }
}

/// The entry lies in the interval.
pub open spec fn in_window(row: LogRow, start: i64, end: i64) -> bool {
    start < row.sequence <= end
}

/// The last entry for a file.
pub open spec fn prior(log: Seq<LogRow>, file_id: u64) -> Option<LogRow>
    decreases log.len(),
{
    if log.len() == 0 {
        None
    } else if log.last().file_id == file_id {
        Some(log.last())
    } else {
        prior(log.drop_last(), file_id)
    }
}

/// The name and parent that a file had before it was renamed: those of its entry
/// before, or else those that it has now.
pub open spec fn old_place(row: LogRow, before: Option<LogRow>) -> (Seq<char>, u64) {
    match before {
        Some(b) => (b.name@, b.parent_file_id),
        None => (row.name@, row.parent_file_id),
    }
}

/// A file of which `row` is the first change.
pub open spec fn first_change(row: LogRow, before: Option<LogRow>) -> DiffView {
    let renamed = row.kind@ == "Renamed"@;
    DiffView {
        file_id: row.file_id,
        parent_file_id: row.parent_file_id,
        name: row.name@,
        is_directory: row.is_directory,
        size_delta: row.size_delta as int,
        kind: row.kind@,
        old_name: if renamed {
            Some(old_place(row, before).0)
        } else {
            None
        },
        old_parent_file_id: if renamed {
            Some(old_place(row, before).1)
        } else {
            None
        },
    }
}

/// What becomes of a changed file by one more entry; `None` if nothing is left.
///
/// A file that was deleted and created again is modified. A file keeps counting as
/// created when it is modified or renamed afterwards, and vanishes when it is deleted.
pub open spec fn next_change(f: DiffView, row: LogRow, before: Option<LogRow>) -> Option<DiffView> {
    if row.kind@ == "Created"@ {
        Some(
            DiffView {
                kind: if f.kind == "Deleted"@ {
                    "Modified"@
                } else {
                    f.kind
                },
                name: row.name@,
                parent_file_id: row.parent_file_id,
                size_delta: f.size_delta + row.size_delta,
                ..f
            },
        )
    } else if row.kind@ == "Modified"@ {
        Some(DiffView { size_delta: f.size_delta + row.size_delta, ..f })
    } else if row.kind@ == "Renamed"@ {
        if f.kind != "Created"@ && f.kind != "Renamed"@ {
            Some(
                DiffView {
                    name: row.name@,
                    parent_file_id: row.parent_file_id,
                    kind: "Renamed"@,
                    old_name: Some(old_place(row, before).0),
                    old_parent_file_id: Some(old_place(row, before).1),
                    ..f
                },
            )
        } else {
            Some(DiffView { name: row.name@, parent_file_id: row.parent_file_id, ..f })
        }
    } else if row.kind@ == "Deleted"@ {
        if f.kind == "Created"@ {
            None
        } else {
            Some(DiffView { kind: "Deleted"@, size_delta: f.size_delta + row.size_delta, ..f })
        }
    } else {
        Some(f)
    }
}

/// The entry is of a kind that changes files.
pub open spec fn known_kind(kind: Seq<char>) -> bool {
    kind == "Created"@ || kind == "Modified"@ || kind == "Renamed"@ || kind == "Deleted"@
}

/// The changed files after one more entry.
pub open spec fn reduce_step(m: Map<u64, DiffView>, row: LogRow, before: Option<LogRow>) -> Map<u64, DiffView> {
    if m.contains_key(row.file_id) {
        match next_change(m[row.file_id], row, before) {
            Some(f) => m.insert(row.file_id, f),
            None => m.remove(row.file_id),
        }
    } else if known_kind(row.kind@) {
        m.insert(row.file_id, first_change(row, before))
    } else {
        m
    }
}

/// The files that changed in the interval, each with all of its changes as one.
pub open spec fn reduced(log: Seq<LogRow>, start: i64, end: i64) -> Map<u64, DiffView>
    decreases log.len(),
{
    if log.len() == 0 {
        Map::empty()
    } else {
        let rest = reduced(log.drop_last(), start, end);
        if in_window(log.last(), start, end) {
            reduce_step(rest, log.last(), prior(log.drop_last(), log.last().file_id))
        } else {
            rest
        }
    }
}

/// The files with entries in the interval, in the order of their first entry.
pub open spec fn touched(log: Seq<LogRow>, start: i64, end: i64) -> Seq<u64>
    decreases log.len(),
{
    if log.len() == 0 {
        Seq::empty()
    } else {
        let rest = touched(log.drop_last(), start, end);
        if in_window(log.last(), start, end) && !rest.contains(log.last().file_id) {
            rest.push(log.last().file_id)
        } else {
            rest
        }
    }
}

/// The growth of a file can be held.
pub open spec fn holdable(f: DiffView) -> bool {
    i64::MIN <= f.size_delta <= i64::MAX
}

/// The growth of every file can be held, however far the log was read.
pub open spec fn changes_fit(log: Seq<LogRow>, start: i64, end: i64) -> bool {
    forall|n: int, id: u64|
        0 <= n <= log.len() && #[trigger] reduced(log.take(n), start, end).contains_key(id) ==> holdable(
            reduced(log.take(n), start, end)[id],
        )
}

/// Entries for one file leave the others as they are.
pub proof fn law_other_files(m: Map<u64, DiffView>, row: LogRow, before: Option<LogRow>, id: u64)
    requires
        id != row.file_id,
    ensures
        reduce_step(m, row, before).contains_key(id) == m.contains_key(id),
        m.contains_key(id) ==> reduce_step(m, row, before)[id] == m[id],
{
}

/// The four kinds of changes are different words.
pub proof fn lemma_kinds()
    ensures
        "Created"@ != "Deleted"@,
        "Created"@ != "Modified"@,
        "Created"@ != "Renamed"@,
        "Deleted"@ != "Modified"@,
        "Deleted"@ != "Renamed"@,
        "Modified"@ != "Renamed"@,
{
    reveal_strlit("Created");
    reveal_strlit("Deleted");
    reveal_strlit("Modified");
    reveal_strlit("Renamed");
    assert("Created"@[0] == 'C');
    assert("Deleted"@[0] == 'D');
    assert("Modified"@[0] == 'M');
    assert("Renamed"@[0] == 'R');
}

proof fn lemma_stays_created(
    head: Seq<LogRow>,
    mid: Seq<LogRow>,
    start: i64,
    end: i64,
    id: u64,
)
    requires
        reduced(head, start, end).contains_key(id),
        reduced(head, start, end)[id].kind == "Created"@,
        forall|i: int|
            0 <= i < mid.len() && (#[trigger] mid[i]).file_id == id ==> mid[i].kind@ != "Deleted"@,
    ensures
        reduced(head + mid, start, end).contains_key(id),
        reduced(head + mid, start, end)[id].kind == "Created"@,
    decreases mid.len(),
{
    if mid.len() == 0 {
        assert(head + mid =~= head);
    } else {
        let short = mid.drop_last();
        assert forall|i: int| 0 <= i < short.len() && (#[trigger] short[i]).file_id == id implies short[i].kind@
            != "Deleted"@ by {
            assert(short[i] == mid[i]);
        }
        lemma_stays_created(head, short, start, end, id);
        assert((head + mid).drop_last() =~= head + short);
        assert((head + mid).last() == mid[mid.len() - 1]);
        lemma_kinds();
    }
}

/// A file that is created and deleted in the interval, with no other deletion between,
/// leaves no trace.
pub proof fn law_created_and_deleted(
    head: Seq<LogRow>,
    c: LogRow,
    mid: Seq<LogRow>,
    d: LogRow,
    start: i64,
    end: i64,
)
    requires
        !reduced(head, start, end).contains_key(c.file_id),
        in_window(c, start, end),
        in_window(d, start, end),
        c.kind@ == "Created"@,
        d.kind@ == "Deleted"@,
        d.file_id == c.file_id,
        forall|i: int|
            0 <= i < mid.len() && (#[trigger] mid[i]).file_id == c.file_id ==> mid[i].kind@ != "Deleted"@,
    ensures
        !reduced(head.push(c) + mid.push(d), start, end).contains_key(c.file_id),
{
    lemma_kinds();
    let h = head.push(c);
    assert(h.drop_last() =~= head);
    assert(reduced(h, start, end)[c.file_id].kind == "Created"@);
    lemma_stays_created(h, mid, start, end, c.file_id);
    let all = h + mid.push(d);
    assert(all.drop_last() =~= h + mid);
    assert(all.last() == d);
}

/// The table holds the given files.
spec fn holds(m: Map<u64, DiffFile>, v: Map<u64, DiffView>) -> bool {
    &&& forall|id: u64| #[trigger] m.contains_key(id) <==> v.contains_key(id)
    &&& forall|id: u64| #[trigger] m.contains_key(id) ==> diff_view(m[id]) == v[id]
}

/// What one more entry makes of the changes of a file.
fn apply(f: Option<&DiffFile>, row: &LogRow, before: Option<&LogRow>) -> (r: Option<DiffFile>)
    requires
        f is Some ==> (match next_change(diff_view(*f->0), *row, match before {
            Some(b) => Some(*b),
            None => None,
        }) {
            Some(v) => holdable(v),
            None => true,
        }),
    ensures
        match f {
            Some(f) => match next_change(diff_view(*f), *row, match before {
                Some(b) => Some(*b),
                None => None,
            }) {
                Some(v) => r is Some && diff_view(r->0) == v,
                None => r is None,
            },
            None => if known_kind(row.kind@) {
                r is Some && diff_view(r->0) == first_change(*row, match before {
                    Some(b) => Some(*b),
                    None => None,
                })
            } else {
                r is None
            },
        },
{
    let created = str_eq(row.kind.as_str(), "Created");
    let modified = str_eq(row.kind.as_str(), "Modified");
    let renamed = str_eq(row.kind.as_str(), "Renamed");
    let deleted = str_eq(row.kind.as_str(), "Deleted");
    proof {
        lemma_kinds();
    }
    let (old_name, old_parent) = match before {
        Some(b) => (b.name.clone(), b.parent_file_id),
        None => (row.name.clone(), row.parent_file_id),
    };
    match f {
        None => {
            if created || modified || renamed || deleted {
                Some(
                    DiffFile {
                        file_id: row.file_id,
                        parent_file_id: row.parent_file_id,
                        name: row.name.clone(),
                        is_directory: row.is_directory,
                        size_delta: row.size_delta,
                        kind: row.kind.clone(),
                        old_name: if renamed { Some(old_name) } else { None },
                        old_parent_file_id: if renamed { Some(old_parent) } else { None },
                        path: String::new(),
                    },
                )
            } else {
                None
            }
        },
        Some(f) => {
            let was_created = str_eq(f.kind.as_str(), "Created");
            let mut g = copy_file(f);
            if created {
                if str_eq(f.kind.as_str(), "Deleted") {
                    g.kind = "Modified".to_owned();
                }
                g.name = row.name.clone();
                g.parent_file_id = row.parent_file_id;
                g.size_delta = f.size_delta + row.size_delta;
            } else if modified {
                g.size_delta = f.size_delta + row.size_delta;
            } else if renamed {
                g.name = row.name.clone();
                g.parent_file_id = row.parent_file_id;
                if !was_created && !str_eq(f.kind.as_str(), "Renamed") {
                    g.kind = "Renamed".to_owned();
                    g.old_name = Some(old_name);
                    g.old_parent_file_id = Some(old_parent);
                }
            } else if deleted {
                if was_created {
                    return None;
                }
                g.kind = "Deleted".to_owned();
                g.size_delta = f.size_delta + row.size_delta;
            }
            Some(g)
        },
    }
}

fn copy_file(f: &DiffFile) -> (r: DiffFile)
    ensures
        r == *f,
{
    DiffFile {
        file_id: f.file_id,
        parent_file_id: f.parent_file_id,
        name: f.name.clone(),
        is_directory: f.is_directory,
        size_delta: f.size_delta,
        kind: f.kind.clone(),
        old_name: match &f.old_name {
            Some(n) => Some(n.clone()),
            None => None,
        },
        old_parent_file_id: f.old_parent_file_id,
        path: f.path.clone(),
    }
}

/// The views of files.
pub open spec fn diff_views(files: Seq<DiffFile>) -> Seq<DiffView> {
    Seq::new(files.len(), |i: int| diff_view(files[i]))
}

/// The changed files in the order of their first entry in the interval.
pub open spec fn net_changes(log: Seq<LogRow>, start: i64, end: i64) -> Seq<DiffView> {
    let m = reduced(log, start, end);
    touched(log, start, end).filter(|id: u64| m.contains_key(id)).map_values(|id: u64| m[id])
}

/// Reduces the entries of the interval to one change for each file.
pub fn reduce_log(log: &Vec<LogRow>, start: i64, end: i64) -> (r: Vec<DiffFile>)
    requires
        changes_fit(log@, start, end),
    ensures
        diff_views(r@) == net_changes(log@, start, end),
{
    let mut m: HashMap<u64, DiffFile> = HashMap::new();
    let mut seen: HashMap<u64, bool> = HashMap::new();
    let mut last: HashMap<u64, usize> = HashMap::new();
    let mut ids: Vec<u64> = Vec::new();
    let mut i: usize = 0;
    assert(log@.take(0) =~= Seq::<LogRow>::empty());
    while i < log.len()
        invariant
            changes_fit(log@, start, end),
            i <= log@.len(),
            holds(m@, reduced(log@.take(i as int), start, end)),
            ids@ == touched(log@.take(i as int), start, end),
            forall|id: u64| #[trigger] seen@.contains_key(id) <==> ids@.contains(id),
            forall|id: u64|
                #[trigger] last@.contains_key(id) ==> last@[id] < i && prior(log@.take(i as int), id) == Some(
                    log@[last@[id] as int],
                ),
            forall|id: u64| !(#[trigger] last@.contains_key(id)) ==> prior(log@.take(i as int), id) is None,
        decreases log@.len() - i,
    {
        let row = &log[i];
        let ghost part = log@.take(i as int);
        let ghost more = log@.take(i + 1);
        let ghost v = reduced(part, start, end);
        proof {
            assert(more.drop_last() =~= part);
            assert(more.last() == *row);
        }
        if start < row.sequence && row.sequence <= end {
            let ghost ids_before = ids@;
            let ghost m_before = m@;
            let before: Option<&LogRow> = match last.get(&row.file_id) {
                Some(k) => Some(&log[*k]),
                None => None,
            };
            let ghost b = prior(part, row.file_id);
            proof {
                assert(last@.contains_key(row.file_id) || !last@.contains_key(row.file_id));
                if v.contains_key(row.file_id) {
                    assert(m@.contains_key(row.file_id));
                    let after = reduced(more, start, end);
                    assert(after.contains_key(row.file_id) ==> holdable(after[row.file_id]));
                }
                assert(v.contains_key(row.file_id) <==> m@.contains_key(row.file_id));
            }
            let next = apply(m.get(&row.file_id), row, before);
            match next {
                Some(f) => {
                    m.insert(row.file_id, f);
                },
                None => {
                    m.remove(&row.file_id);
                },
            }
            if !seen.contains_key(&row.file_id) {
                seen.insert(row.file_id, true);
                ids.push(row.file_id);
            }
            proof {
                assert forall|id: u64| #[trigger] m@.contains_key(id) <==> reduced(more, start, end).contains_key(id) by {
                    assert(m_before.contains_key(id) <==> v.contains_key(id));
                }
                assert forall|id: u64| #[trigger] m@.contains_key(id) implies diff_view(m@[id]) == reduced(more, start, end)[id] by {
                    assert(m_before.contains_key(id) <==> v.contains_key(id));
                }
                assert forall|id: u64| #[trigger] seen@.contains_key(id) <==> ids@.contains(id) by {
                    if !ids_before.contains(row.file_id) {
                        assert(ids@[ids_before.len() as int] == row.file_id);
                        if ids_before.contains(id) {
                            let k = choose|k: int| 0 <= k < ids_before.len() && ids_before[k] == id;
                            assert(ids@[k] == id);
                        }
                    }
                }
            }
        }
        last.insert(row.file_id, i);
        i = i + 1;
    }
    assert(log@.take(i as int) =~= log@);
    let ghost v = reduced(log@, start, end);
    let ghost pred = |id: u64| v.contains_key(id);
    let mut r: Vec<DiffFile> = Vec::new();
    let mut k: usize = 0;
    assert(ids@.take(0).filter(pred) =~= Seq::<u64>::empty()) by {
        reveal(Seq::filter);
    }
    assert(diff_views(r@) =~= ids@.take(0).filter(pred).map_values(|id: u64| v[id]));
    while k < ids.len()
        invariant
            v == reduced(log@, start, end),
            pred == (|id: u64| v.contains_key(id)),
            holds(m@, v),
            k <= ids@.len(),
            diff_views(r@) == ids@.take(k as int).filter(pred).map_values(|id: u64| v[id]),
        decreases ids@.len() - k,
    {
        let ghost before = diff_views(r@);
        let ghost picked = ids@.take(k as int).filter(pred);
        proof {
            reveal(Seq::filter);
            assert(ids@.take(k + 1).drop_last() =~= ids@.take(k as int));
            assert(ids@.take(k + 1).last() == ids@[k as int]);
        }
        let id = ids[k];
        match m.get(&id) {
            Some(f) => {
                r.push(copy_file(f));
                proof {
                    assert(m@.contains_key(id));
                    assert(diff_views(r@) =~= before.push(v[id]));
                    assert(picked.push(id).map_values(|id: u64| v[id]) =~= picked.map_values(|id: u64| v[id]).push(v[id]));
                }
            },
            None => {
                assert(!m@.contains_key(id));
            },
        }
        k = k + 1;
    }
    assert(ids@.take(k as int) =~= ids@);
    r
}

/// Files are shown by path.
pub struct PathKey {
    pub path: String,
}

impl Rank for PathKey {
    open spec fn at_most(&self, other: &PathKey) -> bool {
        bytes_at_most(encode_utf8(self.path@), encode_utf8(other.path@))
    }

    proof fn lemma_total(a: &PathKey, b: &PathKey) {
        lemma_bytes_total(encode_utf8(a.path@), encode_utf8(b.path@));
    }

    proof fn lemma_transitive(a: &PathKey, b: &PathKey, c: &PathKey) {
        lemma_bytes_transitive(encode_utf8(a.path@), encode_utf8(b.path@), encode_utf8(c.path@));
    }

    fn is_at_most(&self, other: &PathKey) -> (r: bool) {
        is_bytes_at_most(self.path.as_str().as_bytes(), other.path.as_str().as_bytes())
    }
}

/// The full path of a file, given the path of its directory.
pub open spec fn full_path(volume: Seq<char>, dir: Seq<char>, name: Seq<char>) -> Seq<char> {
    if dir.len() == 0 {
        volume.push('/') + name
    } else {
        (volume.push('/') + dir).push('/') + name
    }
}

/// The full path of a changed file.
pub fn resolve_diff_file_path(table: &FactTable, volume: &str, name: &str, parent_file_id: u64) -> (r: String)
    ensures
        exists|dir: Seq<char>|
            #[trigger] is_fact_path(table.parents@, table.names@, volume@, parent_file_id, dir) && r@ == full_path(
                volume@,
                dir,
                name@,
            ),
{
    let dir = get_fact_path(&table.parents, &table.names, volume, parent_file_id);
    let mut r = volume.to_owned();
    r.push('/');
    if !dir.as_str().is_empty() {
        r.append(dir.as_str());
        r.push('/');
    }
    r.append(name);
    assert(r@ =~= full_path(volume@, dir@, name@));
    r
}

/// The path lies under the filter, both in lower case.
pub open spec fn under_filter(path: Seq<char>, filter: Option<Seq<char>>) -> bool {
    match filter {
        Some(f) => lowercase_of(f).is_prefix_of(lowercase_of(path)),
        None => true,
    }
}

/// The same file with its path filled in.
pub open spec fn at_path(table: FactTable, volume: Seq<char>, f: DiffView, path: Seq<char>) -> bool {
    exists|dir: Seq<char>|
        #[trigger] is_fact_path(table.parents@, table.names@, volume, f.parent_file_id, dir) && path == full_path(
            volume,
            dir,
            f.name,
        )
}

/// `shown` are the files of `files`, in order, that are displayable and lie under the
/// filter, each with its path.
pub open spec fn places(
    table: FactTable,
    volume: Seq<char>,
    filter: Option<Seq<char>>,
    files: Seq<DiffView>,
    shown: Seq<DiffFile>,
) -> bool
    decreases files.len(),
{
    if files.len() == 0 {
        shown.len() == 0
    } else {
        let f = files.last();
        if !displayable(f.kind, f.size_delta) {
            places(table, volume, filter, files.drop_last(), shown)
        } else {
            ||| shown.len() > 0 && diff_view(shown.last()) == f && at_path(table, volume, f, shown.last().path@)
                && under_filter(shown.last().path@, filter) && places(
                table,
                volume,
                filter,
                files.drop_last(),
                shown.drop_last(),
            )
            ||| places(table, volume, filter, files.drop_last(), shown) && exists|path: Seq<char>|
                #[trigger] at_path(table, volume, f, path) && !under_filter(path, filter)
        }
    }
}

/// The paths of files.
pub open spec fn path_keys(files: Seq<DiffFile>) -> Seq<PathKey> {
    Seq::new(files.len(), |i: int| PathKey { path: files[i].path })
}

/// The lowest place in the log, 0 if it is empty.
pub open spec fn lowest_sequence(log: Seq<LogRow>) -> int
    decreases log.len(),
{
    if log.len() == 0 {
        0
    } else if log.len() == 1 {
        log[0].sequence as int
    } else {
        let rest = lowest_sequence(log.drop_last());
        if log.last().sequence < rest {
            log.last().sequence as int
        } else {
            rest
        }
    }
}

fn min_sequence(log: &Vec<LogRow>) -> (r: i64)
    ensures
        r == lowest_sequence(log@),
{
    if log.len() == 0 {
        return 0;
    }
    let mut r = log[0].sequence;
    let mut i: usize = 1;
    assert(log@.take(1) =~= seq![log@[0]]);
    while i < log.len()
        invariant
            1 <= i <= log@.len(),
            r == lowest_sequence(log@.take(i as int)),
        decreases log@.len() - i,
    {
        assert(log@.take(i + 1).drop_last() =~= log@.take(i as int));
        assert(log@.take(i + 1).last() == log@[i as int]);
        if log[i].sequence < r {
            r = log[i].sequence;
        }
        i = i + 1;
    }
    assert(log@.take(i as int) =~= log@);
    r
}

/// The files are the net changes that are shown, by path.
pub open spec fn is_diff(
    log: Seq<LogRow>,
    table: FactTable,
    volume: Seq<char>,
    start: i64,
    end: i64,
    filter: Option<Seq<char>>,
    files: Seq<DiffFile>,
) -> bool {
    exists|shown: Seq<DiffFile>|
        {
            &&& #[trigger] places(table, volume, filter, net_changes(log, start, end), shown)
            &&& files.len() == shown.len()
            &&& forall|k: int|
                0 <= k < files.len() ==> #[trigger] files[k] == shown[order_of(path_keys(shown))[k] as int]
        }
}

/// The changes of a volume between two places in its log, by path. The log is given in
/// the order of its sequence.
pub fn calculate_diff(
    log: &Vec<LogRow>,
    table: &FactTable,
    volume: &str,
    start: i64,
    end: i64,
    path_filter: Option<&str>,
    retention: &str,
) -> (r: Result<Vec<DiffFile>, String>)
    requires
        changes_fit(log@, start, end),
    ensures
        r is Err <==> start < lowest_sequence(log@) && lowest_sequence(log@) > 1,
        match r {
            Err(e) => e@
                == "E_SNAPSHOT_DATA_EXPIRED: This comparison goes further back than DiskTracker currently keeps ("@
                + retention@ + "). Try a more recent snapshot pair."@,
            Ok(files) => is_diff(log@, *table, volume@, start, end, opt_str(path_filter), files@),
        },
{
    match check_log_reaches(start, min_sequence(log), retention) {
        Err(e) => {
            return Err(e);
        },
        Ok(_) => {},
    }
    let ghost filter: Option<Seq<char>> = opt_str(path_filter);
    let filter_lower: Option<String> = match path_filter {
        Some(f) => Some(lowercase(f)),
        None => None,
    };
    let files = reduce_log(log, start, end);
    let ghost all = net_changes(log@, start, end);
    let mut shown: Vec<DiffFile> = Vec::new();
    let mut keys: Vec<PathKey> = Vec::new();
    let mut i: usize = 0;
    assert(all.take(0) =~= Seq::<DiffView>::empty());
    assert(keys@ =~= path_keys(shown@));
    while i < files.len()
        invariant
            all == diff_views(files@),
            filter == opt_str(path_filter),
            match filter_lower {
                Some(l) => filter is Some && l@ == lowercase_of(filter->0),
                None => filter is None,
            },
            i <= files@.len(),
            places(*table, volume@, filter, all.take(i as int), shown@),
            keys@ == path_keys(shown@),
        decreases files@.len() - i,
    {
        let f = &files[i];
        let ghost before = shown@;
        proof {
            assert(all.take(i + 1).drop_last() =~= all.take(i as int));
            assert(all.take(i + 1).last() == diff_view(*f));
        }
        if is_displayable_mutation(f.kind.as_str(), f.size_delta) {
            let path = resolve_diff_file_path(table, volume, f.name.as_str(), f.parent_file_id);
            proof {
                let dir = choose|dir: Seq<char>|
                    #[trigger] is_fact_path(table.parents@, table.names@, volume@, f.parent_file_id, dir) && path@ == full_path(
                        volume@,
                        dir,
                        f.name@,
                    );
                assert(is_fact_path(table.parents@, table.names@, volume@, diff_view(*f).parent_file_id, dir));
                assert(path@ == full_path(volume@, dir, diff_view(*f).name));
            }
            let wanted = match &filter_lower {
                Some(l) => {
                    let lower = lowercase(path.as_str());
                    starts_with(lower.as_str(), l.as_str())
                },
                None => true,
            };
            assert(at_path(*table, volume@, diff_view(*f), path@));
            if wanted {
                keys.push(PathKey { path: path.clone() });
                let mut g = copy_file(f);
                g.path = path;
                shown.push(g);
                proof {
                    assert(shown@.drop_last() =~= before);
                    assert(keys@ =~= path_keys(shown@));
                    assert(diff_view(shown@.last()) == diff_view(*f));
                }
            }
        }
        i = i + 1;
    }
    assert(all.take(i as int) =~= all);
    let order = stable_order(&keys);
    let mut r: Vec<DiffFile> = Vec::new();
    let mut k: usize = 0;
    while k < order.len()
        invariant
            is_stable_order(path_keys(shown@), order@),
            order@ == order_of(path_keys(shown@)),
            k <= order@.len(),
            r@.len() == k,
            forall|j: int| 0 <= j < k ==> #[trigger] r@[j] == shown@[order@[j] as int],
        decreases order@.len() - k,
    {
        r.push(copy_file(&shown[order[k]]));
        k = k + 1;
    }
    assert(places(*table, volume@, filter, all, shown@));
    Ok(r)
}

} // verus!
