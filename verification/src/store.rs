//! Snapshots of directories as they are stored, and how they are referred to.

use crate::arena::{lemma_linked_rooted, NodeCold, NodeHot, PathlessArena, NO_PARENT};
use crate::calendar::{date_seconds, parse_date};
use crate::decimal::{i64_value, lemma_value_ranges, parse_i64};
use crate::identity::FsIdentity;
use crate::sums::{lemma_total_push, lemma_total_update, total};
use crate::text::{chars_of, opt_text, slice_text, utf8_text};
use crate::warm::{dir_of, CachedDir, SnapshotIndex};
use vstd::prelude::*;
use vstd::utf8::{decode_utf8, valid_utf8};

verus! {

/// An unsigned number as it is stored: large ones become negative.
pub open spec fn stored(n: u64) -> int {
    if n <= i64::MAX {
        n as int
    } else {
        n - 0x1_0000_0000_0000_0000
    }
}

/// An unsigned number as it is stored.
pub fn as_signed(n: u64) -> (r: i64)
    ensures
        r == stored(n),
{
    if n <= 0x7fff_ffff_ffff_ffff {
        n as i64
    } else {
        let down: i64 = (n - 0x8000_0000_0000_0000) as i64;
        down + i64::MIN
    }
}

/// The unsigned number that was stored.
pub fn as_unsigned(n: i64) -> (r: u64)
    ensures
        stored(r) == n,
{
    if n >= 0 {
        n as u64
    } else {
        let up: i64 = n - i64::MIN;
        (up as u64) + 0x8000_0000_0000_0000
    }
}

/// No two unsigned numbers are stored alike.
pub proof fn law_stored_distinct(a: u64, b: u64)
    requires
        stored(a) == stored(b),
    ensures
        a == b,
{
}

/// A directory of a snapshot as it is stored.
#[derive(Debug)]
pub struct DirRow {
    pub path: Vec<u8>,
    pub path_utf8: Option<String>,
    pub depth: i64,
    pub total_bytes: i64,
    pub file_count: i64,
    pub mtime: i64,
    pub dev: i64,
    pub ino: i64,
}

/// The text of a path, if it is one.
pub open spec fn text_of(path: Seq<u8>) -> Option<Seq<char>> {
    if valid_utf8(path) {
        Some(decode_utf8(path))
    } else {
        None
    }
}

/// The row of a directory with the given path.
pub open spec fn is_row(hot: NodeHot, cold: NodeCold, path: Seq<u8>, row: DirRow) -> bool {
    &&& row.path@ == path
    &&& opt_text(row.path_utf8) == text_of(path)
    &&& row.depth == hot.depth
    &&& row.total_bytes == stored(hot.total_bytes)
    &&& row.file_count == hot.file_count
    &&& row.mtime == cold.mtime
    &&& row.dev == stored(cold.identity.dev)
    &&& row.ino == stored(cold.identity.ino)
}

/// The rows of all directories of an arena.
pub fn dir_rows(arena: &PathlessArena) -> (rows: Vec<DirRow>)
    requires
        arena.wf(),
        arena.hot@.len() <= u32::MAX,
        forall|i: u32| i < arena.hot@.len() ==> #[trigger] arena.rooted(i),
    ensures
        rows@.len() == arena.hot@.len(),
        forall|i: int|
            0 <= i < rows@.len() ==> is_row(
                arena.hot@[i],
                arena.cold@[i],
                arena.path(i as u32),
                #[trigger] rows@[i],
            ),
{
    let n = arena.node_count();
    let mut rows: Vec<DirRow> = Vec::new();
    let mut i: usize = 0;
    while i < n
        invariant
            arena.wf(),
            n == arena.hot@.len(),
            n <= u32::MAX,
            forall|k: u32| k < arena.hot@.len() ==> #[trigger] arena.rooted(k),
            i <= n,
            rows@.len() == i,
            forall|k: int|
                0 <= k < i ==> is_row(
                    arena.hot@[k],
                    arena.cold@[k],
                    arena.path(k as u32),
                    #[trigger] rows@[k],
                ),
        decreases n - i,
    {
        assert(arena.rooted(i as u32));
        let path = arena.materialize_path(i as u32);
        let hot = &arena.hot[i];
        let cold = &arena.cold[i];
        let path_utf8 = utf8_text(path.as_slice());
        rows.push(
            DirRow {
                path,
                path_utf8,
                depth: hot.depth as i64,
                total_bytes: as_signed(hot.total_bytes),
                file_count: hot.file_count as i64,
                mtime: cold.mtime,
                dev: as_signed(cold.identity.dev),
                ino: as_signed(cold.identity.ino),
            },
        );
        i = i + 1;
    }
    rows
}

/// The files in a directory and everywhere below it.
pub open spec fn files_below(hot: Seq<NodeHot>, i: int) -> int
    decreases hot.len() - i, 0int,
    when 0 <= i < hot.len()
{
    hot[i].file_count + children_files(hot, i, i + 1)
}

/// The files in those directories inside directory `i`, and below them, that stand at
/// place `j` or later.
pub open spec fn children_files(hot: Seq<NodeHot>, i: int, j: int) -> int
    decreases hot.len() - j, 1int,
    when 0 <= i < j
{
    if j >= hot.len() {
        0
    } else {
        children_files(hot, i, j + 1) + (if hot[j].parent == i {
            files_below(hot, j)
        } else {
            0
        })
    }
}

/// The row of a directory as a snapshot keeps it: its files are those in it and below it.
pub open spec fn is_scan_row(arena: &PathlessArena, i: int, row: DirRow) -> bool {
    let hot = arena.hot@[i];
    &&& row.file_count == files_below(arena.hot@, i)
    &&& row.path@ == arena.path(i as u32)
    &&& opt_text(row.path_utf8) == text_of(arena.path(i as u32))
    &&& row.depth == hot.depth
    &&& row.total_bytes == stored(hot.total_bytes)
    &&& row.mtime == arena.cold@[i].mtime
    &&& row.dev == stored(arena.cold@[i].identity.dev)
    &&& row.ino == stored(arena.cold@[i].identity.ino)
}

proof fn lemma_files_nonneg(hot: Seq<NodeHot>, i: int, j: int)
    requires
        0 <= i < j,
    ensures
        children_files(hot, i, j) >= 0,
    decreases hot.len() - j,
{
    if j < hot.len() {
        lemma_files_nonneg(hot, i, j + 1);
        lemma_files_nonneg(hot, j, j + 1);
        assert(files_below(hot, j) == hot[j].file_count + children_files(hot, j, j + 1));
    }
}

proof fn lemma_children_grow(hot: Seq<NodeHot>, i: int, j: int)
    requires
        0 <= i < j,
    ensures
        children_files(hot, i, j) <= children_files(hot, i, i + 1),
    decreases j,
{
    if j > i + 1 {
        lemma_children_grow(hot, i, j - 1);
        if j - 1 < hot.len() {
            lemma_files_nonneg(hot, j - 1, j);
            assert(files_below(hot, j - 1) == hot[j - 1].file_count + children_files(hot, j - 1, j));
        } else {
            lemma_files_nonneg(hot, i, j - 1);
        }
    }
}

/// What directory `i` has found when those from place `j` on have handed their files up.
spec fn handed(hot: Seq<NodeHot>, i: int, j: int) -> int {
    if i < j {
        hot[i].file_count + children_files(hot, i, j)
    } else {
        files_below(hot, i)
    }
}

fn count_below(hot: &Vec<NodeHot>) -> (r: Vec<i64>)
    requires
        hot@.len() <= u32::MAX,
        forall|i: int|
            0 <= i < hot@.len() ==> (#[trigger] hot@[i]).parent == NO_PARENT || hot@[i].parent < i,
        forall|i: int| 0 <= i < hot@.len() ==> #[trigger] files_below(hot@, i) <= i64::MAX,
    ensures
        r@.len() == hot@.len(),
        forall|i: int| 0 <= i < r@.len() ==> #[trigger] r@[i] == files_below(hot@, i),
{
    let n = hot.len();
    let mut r: Vec<i64> = Vec::new();
    let mut k: usize = 0;
    while k < n
        invariant
            n == hot@.len(),
            k <= n,
            r@.len() == k,
            forall|i: int| 0 <= i < k ==> #[trigger] r@[i] == hot@[i].file_count,
        decreases n - k,
    {
        r.push(hot[k].file_count as i64);
        k = k + 1;
    }
    let mut j: usize = n;
    while j > 0
        invariant
            n == hot@.len(),
            n <= u32::MAX,
            j <= n,
            r@.len() == n,
            forall|i: int|
                0 <= i < hot@.len() ==> (#[trigger] hot@[i]).parent == NO_PARENT || hot@[i].parent < i,
            forall|i: int| 0 <= i < hot@.len() ==> #[trigger] files_below(hot@, i) <= i64::MAX,
            forall|i: int| 0 <= i < n ==> #[trigger] r@[i] == handed(hot@, i, j as int),
        decreases j,
    {
        j = j - 1;
        let ghost before = r@;
        let parent = hot[j].parent;
        let below = r[j];
        assert(before[j as int] == files_below(hot@, j as int));
        if parent != NO_PARENT {
            let p = parent as usize;
            proof {
                assert(hot@[j as int].parent < j);
                assert(before[p as int] == handed(hot@, p as int, j + 1));
                lemma_children_grow(hot@, p as int, j as int);
                assert(files_below(hot@, p as int) <= i64::MAX);
                lemma_files_nonneg(hot@, j as int, j + 1);
                lemma_files_nonneg(hot@, p as int, j + 1);
            }
            let sum = r[p] + below;
            r.set(p, sum);
        }
        assert forall|i: int| 0 <= i < n implies #[trigger] r@[i] == handed(hot@, i, j as int) by {
            assert(before[i] == handed(hot@, i, j + 1));
        }
    }
    assert forall|i: int| 0 <= i < n implies #[trigger] r@[i] == files_below(hot@, i) by {
        assert(r@[i] == handed(hot@, i, 0));
    }
    r
}

/// The rows that a snapshot keeps of a scan. The number of files of a row is that of all
/// files below, which changes with those of the directories inside.
pub fn scan_rows(arena: &PathlessArena) -> (rows: Vec<DirRow>)
    requires
        arena.wf(),
        arena.linked(),
        arena.hot@.len() <= u32::MAX,
        forall|i: int| 0 <= i < arena.hot@.len() ==> #[trigger] files_below(arena.hot@, i) <= i64::MAX,
    ensures
        rows@.len() == arena.hot@.len(),
        forall|i: int| 0 <= i < rows@.len() ==> is_scan_row(arena, i, #[trigger] rows@[i]),
{
    assert forall|i: u32| i < arena.hot@.len() implies #[trigger] arena.rooted(i) by {
        lemma_linked_rooted(arena, i);
    }
    let plain = dir_rows(arena);
    let counts = count_below(&arena.hot);
    let n = plain.len();
    let mut rows: Vec<DirRow> = Vec::new();
    let mut i: usize = 0;
    while i < n
        invariant
            n == plain@.len(),
            n == counts@.len(),
            n == arena.hot@.len(),
            forall|k: int| 0 <= k < n ==> #[trigger] counts@[k] == files_below(arena.hot@, k),
            forall|k: int|
                0 <= k < n ==> is_row(arena.hot@[k], arena.cold@[k], arena.path(k as u32), #[trigger] plain@[k]),
            i <= n,
            rows@.len() == i,
            forall|k: int| 0 <= k < i ==> is_scan_row(arena, k, #[trigger] rows@[k]),
        decreases n - i,
    {
        let row = &plain[i];
        rows.push(
            DirRow {
                path: row.path.clone(),
                path_utf8: match &row.path_utf8 {
                    Some(s) => Some(s.clone()),
                    None => None,
                },
                depth: row.depth,
                total_bytes: row.total_bytes,
                file_count: counts[i],
                mtime: row.mtime,
                dev: row.dev,
                ino: row.ino,
            },
        );
        assert(is_scan_row(arena, i as int, rows@[i as int]));
        i = i + 1;
    }
    rows
}

/// The files of each node.
pub open spec fn own_files(hot: Seq<NodeHot>) -> Seq<int> {
    Seq::new(hot.len(), |i: int| hot[i].file_count as int)
}

/// What the first `j` directories have found when all others have handed their files up.
spec fn handed_all(hot: Seq<NodeHot>, j: int) -> Seq<int> {
    Seq::new(j as nat, |i: int| handed(hot, i, j))
}

proof fn lemma_handed_all(hot: Seq<NodeHot>, j: int)
    requires
        1 <= j <= hot.len(),
        forall|i: int| 0 < i < hot.len() ==> (#[trigger] hot[i]).parent < i,
    ensures
        total(handed_all(hot, j)) == total(own_files(hot)),
    decreases hot.len() - j,
{
    let a = handed_all(hot, j);
    if j == hot.len() {
        assert(a =~= own_files(hot));
    } else {
        lemma_handed_all(hot, j + 1);
        let b = handed_all(hot, j + 1);
        let p = hot[j].parent as int;
        let c = b.drop_last();
        assert(b.last() == files_below(hot, j));
        assert forall|i: int| 0 <= i < j implies #[trigger] a[i] == c.update(p, c[p] + files_below(hot, j))[i] by {
            assert(c[i] == hot[i].file_count + children_files(hot, i, j + 1));
        }
        assert(a =~= c.update(p, c[p] + files_below(hot, j)));
        lemma_total_update(c, p, c[p] + files_below(hot, j));
    }
}

/// The row of the root of a scan has all files of the scan.
pub proof fn law_root_files(hot: Seq<NodeHot>)
    requires
        hot.len() > 0,
        forall|i: int| 0 < i < hot.len() ==> (#[trigger] hot[i]).parent < i,
    ensures
        files_below(hot, 0) == total(own_files(hot)),
{
    lemma_handed_all(hot, 1);
    let one = handed_all(hot, 1);
    assert(one =~= Seq::empty().push(files_below(hot, 0)));
    lemma_total_push(Seq::empty(), files_below(hot, 0));
}

/// What a row says of its directory.
pub open spec fn is_cached(row: DirRow, c: CachedDir) -> bool {
    &&& stored(c.total_bytes) == row.total_bytes
    &&& c.file_count as int == row.file_count as int % 0x1_0000_0000
    &&& c.mtime == row.mtime
}

/// The identity that a row holds.
pub open spec fn is_identity(row: DirRow, id: FsIdentity) -> bool {
    stored(id.dev) == row.dev && stored(id.ino) == row.ino
}

fn low_count(n: i64) -> (r: u32)
    ensures
        r == n as int % 0x1_0000_0000,
{
    let up: i128 = n as i128 + 0x1_0000_0000_0000_0000;
    assert(up % 0x1_0000_0000 == n as int % 0x1_0000_0000) by (nonlinear_arith)
        requires
            up == n + 0x1_0000_0000_0000_0000,
    ;
    (up % 0x1_0000_0000) as u32
}

fn cached_of(row: &DirRow) -> (c: CachedDir)
    ensures
        is_cached(*row, c),
{
    CachedDir {
        total_bytes: as_unsigned(row.total_bytes),
        file_count: low_count(row.file_count),
        mtime: row.mtime,
    }
}

fn identity_of(row: &DirRow) -> (id: FsIdentity)
    ensures
        is_identity(*row, id),
{
    FsIdentity { dev: as_unsigned(row.dev), ino: as_unsigned(row.ino) }
}

/// The row that is found under a key is the last one that has it.
pub open spec fn last_row(rows: Seq<DirRow>, fits: spec_fn(DirRow) -> bool, i: int) -> bool {
    &&& 0 <= i < rows.len()
    &&& fits(rows[i])
    &&& forall|j: int| i < j < rows.len() ==> !fits(#[trigger] rows[j])
}

/// The index finds each directory by its path and, where it is known, by its identity;
/// it knows the parents of all directories.
pub open spec fn indexes(index: SnapshotIndex, rows: Seq<DirRow>) -> bool {
    &&& forall|p: Seq<u8>| #[trigger]
        index.paths().contains_key(p) <==> exists|i: int| 0 <= i < rows.len() && (#[trigger] rows[i]).path@ == p
    &&& forall|p: Seq<u8>, i: int|
        #![trigger index.paths()[p], rows[i]]
        last_row(rows, |r: DirRow| r.path@ == p, i) ==> is_cached(rows[i], index.paths()[p])
    &&& forall|id: FsIdentity| #[trigger]
        index.identities().contains_key(id) <==> id.known() && exists|i: int|
            0 <= i < rows.len() && is_identity(#[trigger] rows[i], id)
    &&& forall|id: FsIdentity, i: int|
        #![trigger index.identities()[id], rows[i]]
        id.known() && last_row(rows, |r: DirRow| is_identity(r, id), i) ==> is_cached(rows[i], index.identities()[id])
    &&& forall|p: Seq<u8>| #[trigger]
        index.parents().contains(p) <==> p.len() > 0 && exists|i: int|
            0 <= i < rows.len() && dir_of((#[trigger] rows[i]).path@, index.separator()) == p
}

proof fn lemma_indexes_more(before: SnapshotIndex, rows: Seq<DirRow>, row: DirRow, id: FsIdentity, c: CachedDir, after: SnapshotIndex)
    requires
        indexes(before, rows),
        is_identity(row, id),
        after.separator() == before.separator(),
        is_cached(row, c),
        after.paths() == before.paths().insert(row.path@, c),
        after.identities() == (if id.known() {
            before.identities().insert(id, c)
        } else {
            before.identities()
        }),
        after.parents() == (if dir_of(row.path@, before.separator()).len() > 0 {
            before.parents().insert(dir_of(row.path@, before.separator()))
        } else {
            before.parents()
        }),
    ensures
        indexes(after, rows.push(row)),
{
    let more = rows.push(row);
    let n = rows.len() as int;
    assert(more[n] == row);
    assert forall|p: Seq<u8>| #[trigger]
        after.paths().contains_key(p) <==> exists|i: int| 0 <= i < more.len() && (#[trigger] more[i]).path@ == p by {
        if before.paths().contains_key(p) {
            let i = choose|i: int| 0 <= i < rows.len() && (#[trigger] rows[i]).path@ == p;
            assert(more[i].path@ == p);
        }
        if exists|i: int| 0 <= i < more.len() && (#[trigger] more[i]).path@ == p {
            let i = choose|i: int| 0 <= i < more.len() && (#[trigger] more[i]).path@ == p;
            if i < n {
                assert(rows[i].path@ == p);
            }
        }
    }
    assert forall|p: Seq<u8>, i: int|
        #![trigger after.paths()[p], more[i]]
        last_row(more, |r: DirRow| r.path@ == p, i) implies is_cached(more[i], after.paths()[p]) by {
        let fits = |r: DirRow| r.path@ == p;
        if i < n {
            assert(!fits(more[n]));
            assert forall|j: int| i < j < rows.len() implies !fits(#[trigger] rows[j]) by {
                assert(!fits(more[j]));
            }
            assert(last_row(rows, fits, i));
            assert(is_cached(rows[i], before.paths()[p]));
        }
    }
    assert forall|d: FsIdentity| #[trigger]
        after.identities().contains_key(d) <==> d.known() && exists|i: int|
            0 <= i < more.len() && is_identity(#[trigger] more[i], d) by {
        if before.identities().contains_key(d) {
            let i = choose|i: int| 0 <= i < rows.len() && is_identity(#[trigger] rows[i], d);
            assert(is_identity(more[i], d));
        }
        if exists|i: int| 0 <= i < more.len() && is_identity(#[trigger] more[i], d) {
            let i = choose|i: int| 0 <= i < more.len() && is_identity(#[trigger] more[i], d);
            if i < n {
                assert(is_identity(rows[i], d));
            } else {
                assert(d == id);
            }
        }
    }
    assert forall|d: FsIdentity, i: int|
        #![trigger after.identities()[d], more[i]]
        d.known() && last_row(more, |r: DirRow| is_identity(r, d), i) implies is_cached(
        more[i],
        after.identities()[d],
    ) by {
        let fits = |r: DirRow| is_identity(r, d);
        if i < n {
            assert(!fits(more[n]));
            assert(d != id);
            assert forall|j: int| i < j < rows.len() implies !fits(#[trigger] rows[j]) by {
                assert(!fits(more[j]));
            }
            assert(last_row(rows, fits, i));
            assert(is_cached(rows[i], before.identities()[d]));
        } else {
            assert(fits(more[n]));
            assert(d == id);
        }
    }
    assert forall|p: Seq<u8>| #[trigger]
        after.parents().contains(p) <==> p.len() > 0 && exists|i: int|
            0 <= i < more.len() && dir_of((#[trigger] more[i]).path@, before.separator()) == p by {
        if before.parents().contains(p) {
            let i = choose|i: int| 0 <= i < rows.len() && dir_of((#[trigger] rows[i]).path@, before.separator()) == p;
            assert(dir_of(more[i].path@, before.separator()) == p);
        }
        if exists|i: int| 0 <= i < more.len() && dir_of((#[trigger] more[i]).path@, before.separator()) == p {
            let i = choose|i: int| 0 <= i < more.len() && dir_of((#[trigger] more[i]).path@, before.separator()) == p;
            if i < n {
                assert(dir_of(rows[i].path@, before.separator()) == p);
            }
        }
    }
}

/// Indexes the rows of a snapshot by path and by identity.
pub fn load_snapshot_index(rows: &Vec<DirRow>, sep: u8) -> (index: SnapshotIndex)
    ensures
        index.wf(),
        index.separator() == sep,
        indexes(index, rows@),
{
    let mut index = SnapshotIndex::with_separator(sep);
    let mut i: usize = 0;
    assert(indexes(index, rows@.take(0)));
    while i < rows.len()
        invariant
            i <= rows@.len(),
            index.wf(),
            index.separator() == sep,
            indexes(index, rows@.take(i as int)),
        decreases rows@.len() - i,
    {
        let ghost before = index;
        let row = &rows[i];
        let cached = cached_of(row);
        let identity = identity_of(row);
        index.insert_identity(identity, cached);
        index.insert_path(row.path.clone(), cached);
        proof {
            lemma_indexes_more(before, rows@.take(i as int), *row, identity, cached, index);
            assert(rows@.take(i + 1) =~= rows@.take(i as int).push(*row));
        }
        i = i + 1;
    }
    assert(rows@.take(i as int) =~= rows@);
    index
}

/// What was stored of a directory is read back.
pub proof fn law_row_roundtrip(hot: NodeHot, cold: NodeCold, path: Seq<u8>, row: DirRow, id: FsIdentity, c: CachedDir)
    requires
        is_row(hot, cold, path, row),
        is_identity(row, id),
        is_cached(row, c),
    ensures
        id == cold.identity,
        c.total_bytes == hot.total_bytes,
        c.file_count == hot.file_count,
        c.mtime == cold.mtime,
{
}

/// A snapshot and when it was begun.
#[derive(Debug, Clone, Copy)]
pub struct SnapshotTime {
    pub id: i64,
    pub started_at: i64,
}

/// The first snapshot that was begun at a moment or later stands at `i`.
pub open spec fn is_first_since(snapshots: Seq<SnapshotTime>, ts: int, i: int) -> bool {
    &&& 0 <= i < snapshots.len()
    &&& snapshots[i].started_at >= ts
    &&& forall|j: int|
        #![trigger snapshots[j]]
        0 <= j < snapshots.len() && snapshots[j].started_at >= ts ==> snapshots[i].started_at
            <= snapshots[j].started_at
    &&& forall|j: int|
        #![trigger snapshots[j]]
        0 <= j < i && snapshots[j].started_at >= ts ==> snapshots[i].started_at < snapshots[j].started_at
}

/// The first snapshot that was begun at a moment or later.
pub fn first_since(snapshots: &Vec<SnapshotTime>, ts: i64) -> (r: Option<i64>)
    ensures
        match r {
            Some(id) => exists|i: int| #[trigger]
                is_first_since(snapshots@, ts as int, i) && snapshots@[i].id == id,
            None => forall|j: int| 0 <= j < snapshots@.len() ==> (#[trigger] snapshots@[j]).started_at < ts,
        },
{
    let mut best: Option<usize> = None;
    let mut i: usize = 0;
    while i < snapshots.len()
        invariant
            i <= snapshots@.len(),
            match best {
                Some(b) => b < i && is_first_since(snapshots@.take(i as int), ts as int, b as int),
                None => forall|j: int| 0 <= j < i ==> (#[trigger] snapshots@[j]).started_at < ts,
            },
        decreases snapshots@.len() - i,
    {
        let ghost part = snapshots@.take(i as int);
        let ghost more = snapshots@.take(i + 1);
        assert forall|j: int| 0 <= j < i implies #[trigger] more[j] == part[j] by {}
        let s = snapshots[i];
        if s.started_at >= ts {
            let better = match best {
                Some(b) => s.started_at < snapshots[b].started_at,
                None => true,
            };
            if better {
                best = Some(i);
            }
        }
        i = i + 1;
    }
    assert(snapshots@.take(i as int) =~= snapshots@);
    match best {
        Some(b) => {
            assert(is_first_since(snapshots@, ts as int, b as int));
            Some(snapshots[b].id)
        },
        None => None,
    }
}

/// The days of a unit at the end of a reference.
pub open spec fn unit_days(c: char) -> Option<int> {
    if c == 'd' {
        Some(1)
    } else if c == 'w' {
        Some(7)
    } else if c == 'm' {
        Some(30)
    } else {
        None
    }
}

/// The seconds that a text such as "7d", "2w" or "1m" goes back.
pub open spec fn seconds_back(s: Seq<char>) -> Option<int> {
    if s.len() > 0 && unit_days(s.last()) is Some && i64_value(s.drop_last()) is Some {
        Some(i64_value(s.drop_last())->0 * unit_days(s.last())->0 * 86400)
    } else {
        None
    }
}

/// The seconds that a text goes back can be held, and so can the moment.
pub open spec fn goes_back_in_range(s: Seq<char>, now: int) -> bool {
    seconds_back(s) is Some ==> {
        &&& i64::MIN <= seconds_back(s)->0 <= i64::MAX
        &&& i64::MIN <= now - seconds_back(s)->0 <= i64::MAX
    }
}

/// The moment to which a text goes back, wide enough for every text.
fn moment_back(s: &str, now: i64) -> (r: Option<(i128, i128)>)
    ensures
        r is Some <==> seconds_back(s@) is Some,
        seconds_back(s@) is Some ==> (r->0).0 == seconds_back(s@)->0 && (r->0).1 == now - seconds_back(s@)->0,
{
    let chars = chars_of(s);
    let n = chars.len();
    if n == 0 {
        return None;
    }
    let last = chars[n - 1];
    let days: i64 = if last == 'd' {
        1
    } else if last == 'w' {
        7
    } else if last == 'm' {
        30
    } else {
        return None;
    };
    let rest = slice_text(&chars, 0, n - 1);
    assert(rest@ =~= s@.drop_last());
    proof {
        lemma_value_ranges(rest@);
    }
    match parse_i64(rest.as_str()) {
        None => None,
        Some(count) => {
            let back: i128 = if days == 1 {
                count as i128 * 86400
            } else if days == 7 {
                count as i128 * 7 * 86400
            } else {
                count as i128 * 30 * 86400
            };
            assert(back == count * days * 86400) by {
                if days == 1 {
                    assert(count * 1 * 86400 == count * 86400);
                } else if days == 7 {
                    assert(count * days == count * 7);
                } else {
                    assert(count * days == count * 30);
                }
            }
            assert(unit_days(s@.last()) == Some(days as int));
            Some((back, now as i128 - back))
        },
    }
}

/// Whether the seconds that a text goes back can be held, and so can the moment.
pub fn is_in_range(s: &str, now: i64) -> (r: bool)
    ensures
        r == goes_back_in_range(s@, now as int),
{
    match moment_back(s, now) {
        Some((back, moment)) => i64::MIN as i128 <= back && back <= i64::MAX as i128 && i64::MIN as i128
            <= moment && moment <= i64::MAX as i128,
        None => true,
    }
}

/// The moment to which a text such as "7d", "2w" or "1m" goes back.
pub fn parse_relative_duration(s: &str, now: i64) -> (r: Option<i64>)
    requires
        goes_back_in_range(s@, now as int),
    ensures
        r == (match seconds_back(s@) {
            Some(back) => Some((now - back) as i64),
            None => None,
        }),
{
    match moment_back(s, now) {
        Some((_, moment)) => Some(moment as i64),
        None => None,
    }
}

fn quoting(before: &str, s: &str) -> (r: String)
    ensures
        r@ == before@ + s@ + "'"@,
{
    let mut r = before.to_owned();
    r.append(s);
    r.append("'");
    r
}

/// The first snapshot since a moment, or a message where there is none.
pub open spec fn is_found_since(snapshots: Seq<SnapshotTime>, ts: int, message: Seq<char>, r: Result<i64, String>) -> bool {
    match r {
        Ok(id) => exists|i: int| #[trigger] is_first_since(snapshots, ts, i) && snapshots[i].id == id,
        Err(e) => {
            &&& forall|j: int| 0 <= j < snapshots.len() ==> (#[trigger] snapshots[j]).started_at < ts
            &&& e@ == message
        },
    }
}

/// The snapshot that a number, a time back or a date refers to, or why there is none.
/// `date` is the beginning of the day that the text names.
pub open spec fn is_resolved(s: Seq<char>, date: Option<i64>, now: int, snapshots: Seq<SnapshotTime>, r: Result<i64, String>) -> bool {
    if i64_value(s) is Some {
        r is Ok && r->Ok_0 == i64_value(s)->0
    } else if seconds_back(s) is Some {
        is_found_since(snapshots, now - seconds_back(s)->0, "No snapshot found for duration '"@ + s + "'"@, r)
    } else if date is Some {
        is_found_since(snapshots, date->0 as int, "No snapshot found for date '"@ + s + "'"@, r)
    } else {
        r is Err && r->Err_0@ == "Cannot parse snapshot reference '"@ + s + "'"@
    }
}

/// Finds the snapshot that a text refers to, given the beginning of the day that it
/// names, if it does.
pub fn resolve_reference(s: &str, date: Option<i64>, now: i64, snapshots: &Vec<SnapshotTime>) -> (r: Result<i64, String>)
    requires
        goes_back_in_range(s@, now as int),
    ensures
        is_resolved(s@, date, now as int, snapshots@, r),
{
    proof {
        lemma_value_ranges(s@);
    }
    if let Some(id) = parse_i64(s) {
        return Ok(id);
    }
    if let Some(ts) = parse_relative_duration(s, now) {
        return match first_since(snapshots, ts) {
            Some(id) => Ok(id),
            None => Err(quoting("No snapshot found for duration '", s)),
        };
    }
    match date {
        Some(ts) => match first_since(snapshots, ts) {
            Some(id) => Ok(id),
            None => Err(quoting("No snapshot found for date '", s)),
        },
        None => Err(quoting("Cannot parse snapshot reference '", s)),
    }
}

/// Finds the snapshot that a number, a time back or a date refers to.
pub fn resolve_snapshot_ref(s: &str, now: i64, snapshots: &Vec<SnapshotTime>) -> (r: Result<i64, String>)
    requires
        goes_back_in_range(s@, now as int),
    ensures
        is_resolved(s@, date_seconds(s@), now as int, snapshots@, r),
{
    resolve_reference(s, parse_date(s), now, snapshots)
}

/// A change of a directory's size between two looks at it.
#[derive(Debug)]
pub struct DeltaRow {
    pub path: Vec<u8>,
    pub path_utf8: Option<String>,
    pub previous_bytes: Option<i64>,
    pub current_bytes: i64,
    pub delta_bytes: i64,
}

/// The size that a directory had, nothing where it was not there.
pub open spec fn previous_size(previous: Option<i64>) -> int {
    match previous {
        Some(n) => n as int,
        None => 0,
    }
}

impl DeltaRow {
    pub fn new(path: Vec<u8>, previous: Option<i64>, current: i64) -> (r: DeltaRow)
        requires
            i64::MIN <= current - previous_size(previous) <= i64::MAX,
        ensures
            r.path == path,
            opt_text(r.path_utf8) == text_of(path@),
            r.previous_bytes == previous,
            r.current_bytes == current,
            r.delta_bytes == current - previous_size(previous),
    {
        let path_utf8 = utf8_text(path.as_slice());
        let before: i64 = match previous {
            Some(n) => n,
            None => 0,
        };
        DeltaRow {
            path,
            path_utf8,
            previous_bytes: previous,
            current_bytes: current,
            delta_bytes: current - before,
        }
    }
}

} // verus!
