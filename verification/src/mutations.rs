//! The log of mutations, and how a snapshot is brought up to date from it.

use crate::events::{byte_views, FsEvent, FsEventKind};
use crate::history::at_most;
use crate::lookup::{ByteMap, ByteTable};
use crate::records::SizeRow;
use crate::store::{as_signed, as_unsigned, stored, text_of};
use crate::sums::total;
use crate::text::{bytes_eq, opt_text, utf8_text};
use crate::warm::{is_last_sep, parent_of, parent_path_bytes, without_last_sep};
use vstd::prelude::*;

verus! {

/// What happened to a path.
#[derive(Debug, Clone, Copy, PartialEq, Eq, Structural)]
pub enum MutationType {
    Create,
    Delete,
    Modify,
    Rename,
}

impl MutationType {
    /// The number under which a type is stored.
    pub open spec fn number(self) -> u8 {
        match self {
            MutationType::Create => 0,
            MutationType::Delete => 1,
            MutationType::Modify => 2,
            MutationType::Rename => 3,
        }
    }

    pub fn as_u8(self) -> (n: u8)
        ensures
            n == self.number(),
    {
        match self {
            MutationType::Create => 0,
            MutationType::Delete => 1,
            MutationType::Modify => 2,
            MutationType::Rename => 3,
        }
    }

    /// The type of a number; a number that is not known stands for a modification.
    pub open spec fn of_number(v: int) -> MutationType {
        if v == 0 {
            MutationType::Create
        } else if v == 1 {
            MutationType::Delete
        } else if v == 3 {
            MutationType::Rename
        } else {
            MutationType::Modify
        }
    }

    pub fn from_u8(v: u8) -> (t: MutationType)
        ensures
            t == MutationType::of_number(v as int),
    {
        match v {
            0 => MutationType::Create,
            1 => MutationType::Delete,
            2 => MutationType::Modify,
            3 => MutationType::Rename,
            _ => MutationType::Modify,
        }
    }

    pub fn as_str(self) -> (s: &'static str)
        ensures
            s@ == (match self {
                MutationType::Create => "create"@,
                MutationType::Delete => "delete"@,
                MutationType::Modify => "modify"@,
                MutationType::Rename => "rename"@,
            }),
    {
        match self {
            MutationType::Create => "create",
            MutationType::Delete => "delete",
            MutationType::Modify => "modify",
            MutationType::Rename => "rename",
        }
    }

    /// The mutation that an event stands for.
    pub open spec fn of_event(kind: FsEventKind) -> MutationType {
        match kind {
            FsEventKind::Create => MutationType::Create,
            FsEventKind::Delete => MutationType::Delete,
            FsEventKind::Modify => MutationType::Modify,
            FsEventKind::Rename => MutationType::Rename,
            _ => MutationType::Modify,
        }
    }
}

impl vstd::std_specs::convert::FromSpecImpl<FsEventKind> for MutationType {
    open spec fn obeys_from_spec() -> bool {
        true
    }

    open spec fn from_spec(kind: FsEventKind) -> MutationType {
        MutationType::of_event(kind)
    }
}

impl From<FsEventKind> for MutationType {
    fn from(kind: FsEventKind) -> (t: MutationType) {
        match kind {
            FsEventKind::Create => MutationType::Create,
            FsEventKind::Delete => MutationType::Delete,
            FsEventKind::Modify => MutationType::Modify,
            FsEventKind::Rename => MutationType::Rename,
            _ => MutationType::Modify,
        }
    }
}

/// A type is stored under its number and read back as itself.
pub proof fn law_type_roundtrip(t: MutationType)
    ensures
        MutationType::of_number(t.number() as int) == t,
{
}

/// An entry of the log.
#[derive(Debug, Clone)]
pub struct MutationRecord {
    pub id: Option<i64>,
    pub timestamp: i64,
    pub mutation_type: MutationType,
    pub dev: u64,
    pub ino: u64,
    pub path_blob: Vec<u8>,
    pub old_size: Option<u64>,
    pub new_size: Option<u64>,
    pub old_path_blob: Option<Vec<u8>>,
}

/// An entry of the log as it is stored.
#[derive(Debug)]
pub struct MutationRow {
    pub id: i64,
    pub timestamp: i64,
    pub mutation_type: i64,
    pub dev: i64,
    pub ino: i64,
    pub path_blob: Vec<u8>,
    pub old_size: Option<i64>,
    pub new_size: Option<i64>,
    pub old_path_blob: Option<Vec<u8>>,
}

/// An optional size as it is stored.
pub open spec fn stored_option(n: Option<u64>) -> Option<int> {
    match n {
        Some(n) => Some(stored(n)),
        None => None,
    }
}

/// An optional stored number.
pub open spec fn int_option(n: Option<i64>) -> Option<int> {
    match n {
        Some(n) => Some(n as int),
        None => None,
    }
}

/// The bytes of an optional path.
pub open spec fn opt_bytes(p: Option<Vec<u8>>) -> Option<Seq<u8>> {
    match p {
        Some(b) => Some(b@),
        None => None,
    }
}

/// The row holds the entry, under its number.
pub open spec fn holds(row: MutationRow, id: i64, r: MutationRecord) -> bool {
    &&& row.id == id
    &&& row.timestamp == r.timestamp
    &&& row.mutation_type == r.mutation_type.number()
    &&& row.dev == stored(r.dev)
    &&& row.ino == stored(r.ino)
    &&& row.path_blob@ == r.path_blob@
    &&& int_option(row.old_size) == stored_option(r.old_size)
    &&& int_option(row.new_size) == stored_option(r.new_size)
    &&& opt_bytes(row.old_path_blob) == opt_bytes(r.old_path_blob)
}

/// The entry that a row gives.
pub open spec fn is_read(row: MutationRow, r: MutationRecord) -> bool {
    &&& r.id == Some(row.id)
    &&& r.timestamp == row.timestamp
    &&& r.mutation_type == MutationType::of_number(row.mutation_type as int % 256)
    &&& stored(r.dev) == row.dev
    &&& stored(r.ino) == row.ino
    &&& r.path_blob@ == row.path_blob@
    &&& stored_option(r.old_size) == int_option(row.old_size)
    &&& stored_option(r.new_size) == int_option(row.new_size)
    &&& opt_bytes(r.old_path_blob) == opt_bytes(row.old_path_blob)
}

fn signed_option(n: Option<u64>) -> (r: Option<i64>)
    ensures
        int_option(r) == stored_option(n),
{
    match n {
        Some(n) => Some(as_signed(n)),
        None => None,
    }
}

fn unsigned_option(n: Option<i64>) -> (r: Option<u64>)
    ensures
        stored_option(r) == int_option(n),
{
    match n {
        Some(n) => Some(as_unsigned(n)),
        None => None,
    }
}

fn copy_option(p: &Option<Vec<u8>>) -> (r: Option<Vec<u8>>)
    ensures
        opt_bytes(r) == opt_bytes(*p),
{
    match p {
        Some(b) => Some(b.clone()),
        None => None,
    }
}

/// The row that an entry is stored in, under a number.
pub fn insert_mutation(record: &MutationRecord, id: i64) -> (row: MutationRow)
    ensures
        holds(row, id, *record),
{
    MutationRow {
        id,
        timestamp: record.timestamp,
        mutation_type: record.mutation_type.as_u8() as i64,
        dev: as_signed(record.dev),
        ino: as_signed(record.ino),
        path_blob: record.path_blob.clone(),
        old_size: signed_option(record.old_size),
        new_size: signed_option(record.new_size),
        old_path_blob: copy_option(&record.old_path_blob),
    }
}

fn low_byte(n: i64) -> (r: u8)
    ensures
        r == n as int % 256,
{
    let up: i128 = n as i128 + 0x1_0000_0000_0000_0000;
    assert(up % 256 == n as int % 256) by (nonlinear_arith)
        requires
            up == n + 0x1_0000_0000_0000_0000,
    ;
    (up % 256) as u8
}

/// The entry that a row gives.
pub fn read_mutation(row: &MutationRow) -> (r: MutationRecord)
    ensures
        is_read(*row, r),
{
    MutationRecord {
        id: Some(row.id),
        timestamp: row.timestamp,
        mutation_type: MutationType::from_u8(low_byte(row.mutation_type)),
        dev: as_unsigned(row.dev),
        ino: as_unsigned(row.ino),
        path_blob: row.path_blob.clone(),
        old_size: unsigned_option(row.old_size),
        new_size: unsigned_option(row.new_size),
        old_path_blob: copy_option(&row.old_path_blob),
    }
}

/// The entry for an event. The sizes are those before and after it, where they are
/// known.
pub fn mutation_of_event(ev: &FsEvent, dev: u64, ino: u64, old_size: Option<u64>, new_size: Option<u64>) -> (r: MutationRecord)
    ensures
        r.id is None,
        r.timestamp == ev.timestamp,
        r.mutation_type == MutationType::of_event(ev.kind),
        r.dev == dev,
        r.ino == ino,
        r.path_blob@ == ev.path@,
        r.old_size == old_size,
        r.new_size == new_size,
        r.old_path_blob is None,
{
    MutationRecord {
        id: None,
        timestamp: ev.timestamp,
        mutation_type: MutationType::from(ev.kind),
        dev,
        ino,
        path_blob: ev.path.clone(),
        old_size,
        new_size,
        old_path_blob: None,
    }
}

/// What lies on disk under the path of an event, with what its metadata say and, of a
/// directory, the size of all files below it.
pub struct Found {
    pub state: PathState,
    pub dev: u64,
    pub ino: u64,
    pub len: Option<u64>,
    pub below: u64,
}

/// The size of a path: that of all files below a directory, none of what is gone.
pub open spec fn size_found(f: Found) -> Option<u64> {
    match f.state {
        PathState::Missing => None,
        PathState::Directory => Some(f.below),
        PathState::File { .. } => f.len,
    }
}

fn size_of_found(f: &Found) -> (r: Option<u64>)
    ensures
        r == size_found(*f),
{
    match f.state {
        PathState::Missing => None,
        PathState::Directory => Some(f.below),
        PathState::File { .. } => f.len,
    }
}

/// The size stored for a path in a snapshot.
pub open spec fn size_in(rows: Seq<SizeRow>, snapshot: i64, path: Seq<u8>) -> Option<int>
    decreases rows.len(),
{
    if rows.len() == 0 {
        None
    } else if size_in(rows.drop_last(), snapshot, path) is Some {
        size_in(rows.drop_last(), snapshot, path)
    } else if rows.last().snapshot_id == snapshot && rows.last().path@ == path {
        Some(rows.last().total_bytes as int)
    } else {
        None
    }
}

/// The size of a path in the latest snapshot, if there is one.
pub open spec fn size_before(rows: Seq<SizeRow>, latest: Option<i64>, path: Seq<u8>) -> Option<int> {
    match latest {
        Some(id) => size_in(rows, id, path),
        None => None,
    }
}

fn find_size(rows: &Vec<SizeRow>, snapshot: i64, path: &Vec<u8>) -> (r: Option<u64>)
    ensures
        stored_option(r) == size_in(rows@, snapshot, path@),
{
    let ghost all = rows@;
    let mut r: Option<u64> = None;
    let mut i: usize = 0;
    while i < rows.len()
        invariant
            all == rows@,
            i <= all.len(),
            stored_option(r) == size_in(all.take(i as int), snapshot, path@),
        decreases all.len() - i,
    {
        proof {
            assert(all.take(i + 1).drop_last() =~= all.take(i as int));
            assert(all.take(i + 1).last() == all[i as int]);
        }
        let row = &rows[i];
        if r.is_none() && row.snapshot_id == snapshot && bytes_eq(row.path.as_slice(), path.as_slice()) {
            r = Some(as_unsigned(row.total_bytes));
        }
        i = i + 1;
    }
    assert(all.take(i as int) =~= all);
    r
}

/// The row holds the entry for an event, with the size before it as the latest snapshot
/// has it and the size after it as it was found.
pub open spec fn logs_event(
    row: MutationRow,
    id: int,
    ev: FsEvent,
    found: Found,
    rows: Seq<SizeRow>,
    latest: Option<i64>,
) -> bool {
    &&& row.id == id
    &&& row.timestamp == ev.timestamp
    &&& row.mutation_type == MutationType::of_event(ev.kind).number()
    &&& row.dev == stored(found.dev)
    &&& row.ino == stored(found.ino)
    &&& row.path_blob@ == ev.path@
    &&& int_option(row.old_size) == size_before(rows, latest, ev.path@)
    &&& int_option(row.new_size) == stored_option(size_found(found))
    &&& row.old_path_blob is None
}

/// The rows that a batch of events is stored in, one for each and numbered from
/// `first_id` on.
pub fn insert_mutations_batch(
    events: &Vec<FsEvent>,
    found: &Vec<Found>,
    rows: &Vec<SizeRow>,
    latest: Option<i64>,
    first_id: i64,
) -> (r: Vec<MutationRow>)
    requires
        found@.len() == events@.len(),
        first_id + events@.len() <= i64::MAX,
    ensures
        r@.len() == events@.len(),
        forall|i: int|
            0 <= i < r@.len() ==> logs_event(
                #[trigger] r@[i],
                first_id + i,
                events@[i],
                found@[i],
                rows@,
                latest,
            ),
{
    let mut r: Vec<MutationRow> = Vec::new();
    let mut id: i64 = first_id;
    let mut i: usize = 0;
    while i < events.len()
        invariant
            id == first_id + i,
            found@.len() == events@.len(),
            first_id + events@.len() <= i64::MAX,
            i <= events@.len(),
            r@.len() == i,
            forall|k: int|
                0 <= k < r@.len() ==> logs_event(
                    #[trigger] r@[k],
                    first_id + k,
                    events@[k],
                    found@[k],
                    rows@,
                    latest,
                ),
        decreases events@.len() - i,
    {
        let ev = &events[i];
        let f = &found[i];
        let old_size = match latest {
            Some(id) => find_size(rows, id, &ev.path),
            None => None,
        };
        let record = mutation_of_event(ev, f.dev, f.ino, old_size, size_of_found(f));
        let row = insert_mutation(&record, id);
        r.push(row);
        id = id + 1;
        i = i + 1;
    }
    r
}

/// What was entered in the log is read back.
pub proof fn law_mutation_roundtrip(record: MutationRecord, id: i64, row: MutationRow, r: MutationRecord)
    requires
        holds(row, id, record),
        is_read(row, r),
    ensures
        r.id == Some(id),
        r.timestamp == record.timestamp,
        r.mutation_type == record.mutation_type,
        r.dev == record.dev,
        r.ino == record.ino,
        r.path_blob@ == record.path_blob@,
        r.old_size == record.old_size,
        r.new_size == record.new_size,
        opt_bytes(r.old_path_blob) == opt_bytes(record.old_path_blob),
{
}

/// The rows of a moment or later.
pub open spec fn rows_since(rows: Seq<MutationRow>, since: int) -> Seq<MutationRow> {
    rows.filter(|r: MutationRow| r.timestamp >= since)
}

/// The entries since a moment, in the order of the rows and up to `limit` of them.
pub fn get_mutations_since(rows: &Vec<MutationRow>, since_ts: i64, limit: usize) -> (r: Vec<MutationRecord>)
    ensures
        r@.len() == at_most(rows_since(rows@, since_ts as int), limit as int).len(),
        forall|i: int| 0 <= i < r@.len() ==> is_read(rows_since(rows@, since_ts as int)[i], #[trigger] r@[i]),
{
    let ghost pred = |r: MutationRow| r.timestamp >= since_ts;
    let ghost want = rows_since(rows@, since_ts as int);
    let mut r: Vec<MutationRecord> = Vec::new();
    let mut i: usize = 0;
    let n = rows.len();
    proof {
        reveal(Seq::filter);
        assert(rows@.take(0).filter(pred) =~= Seq::<MutationRow>::empty());
        assert(want == rows@.filter(pred));
        assert(rows@.take(n as int) =~= rows@);
    }
    while i < n
        invariant
            n == rows@.len(),
            pred == (|r: MutationRow| r.timestamp >= since_ts),
            want == rows@.filter(pred),
            want == rows_since(rows@, since_ts as int),
            i <= n,
            r@.len() == rows@.take(i as int).filter(pred).len(),
            r@.len() <= limit,
            forall|k: int| 0 <= k < r@.len() ==> is_read(rows@.take(i as int).filter(pred)[k], #[trigger] r@[k]),
        decreases n - i,
    {
        let ghost before = rows@.take(i as int).filter(pred);
        proof {
            reveal(Seq::filter);
            assert(rows@.take(i + 1).drop_last() =~= rows@.take(i as int));
            assert(rows@.take(i + 1).last() == rows@[i as int]);
        }
        let row = &rows[i];
        if row.timestamp >= since_ts {
            if r.len() == limit {
                proof {
                    lemma_filter_front(rows@, pred, i as int);
                    lemma_filter_front(rows@, pred, i + 1);
                }
                return r;
            }
            r.push(read_mutation(row));
        }
        i = i + 1;
    }
    proof {
        assert(rows@.take(i as int) =~= rows@);
    }
    r
}

proof fn lemma_filter_front<T>(s: Seq<T>, pred: spec_fn(T) -> bool, i: int)
    requires
        0 <= i <= s.len(),
    ensures
        s.take(i).filter(pred).len() <= s.filter(pred).len(),
        s.take(i).filter(pred) == s.filter(pred).take(s.take(i).filter(pred).len() as int),
    decreases s.len() - i,
{
    if i == s.len() {
        assert(s.take(i) =~= s);
        assert(s.filter(pred).take(s.filter(pred).len() as int) =~= s.filter(pred));
    } else {
        lemma_filter_front(s, pred, i + 1);
        reveal(Seq::filter);
        assert(s.take(i + 1).drop_last() =~= s.take(i));
        let a = s.take(i).filter(pred);
        let b = s.take(i + 1).filter(pred);
        let all = s.filter(pred);
        assert(a =~= b.take(a.len() as int));
        assert(a =~= all.take(a.len() as int)) by {
            assert forall|k: int| 0 <= k < a.len() implies a[k] == all[k] by {
                assert(a[k] == b[k]);
                assert(b[k] == all.take(b.len() as int)[k]);
            }
        }
    }
}

/// What is on disk under a path.
#[derive(Debug)]
pub enum PathState {
    Missing,
    Directory,
    /// A file, in the given directory.
    File { directory: Vec<u8> },
}

/// The directory whose totals a change of a path concerns: the path itself, the
/// directory of a file, and for a path that is gone what was its parent, if it had one.
pub open spec fn target_of(path: Seq<u8>, state: PathState, sep: u8) -> Seq<u8> {
    match state {
        PathState::Directory => path,
        PathState::File { directory } => directory@,
        PathState::Missing => if parent_of(path, sep).len() > 0 {
            parent_of(path, sep)
        } else {
            path
        },
    }
}

/// The directory whose totals a change of a path concerns.
pub fn reconcile_target(path: Vec<u8>, state: PathState, sep: u8) -> (r: Vec<u8>)
    ensures
        r@ == target_of(path@, state, sep),
{
    match state {
        PathState::Directory => path,
        PathState::File { directory } => directory,
        PathState::Missing => {
            let parent = parent_path_bytes(path.as_slice(), sep);
            if parent.len() > 0 {
                parent
            } else {
                path
            }
        },
    }
}

/// The directories above a path, the nearest first.
pub open spec fn path_ancestors(path: Seq<u8>, sep: u8) -> Seq<Seq<u8>>
    decreases path.len(),
{
    let parent = parent_of(path, sep);
    if parent.len() == 0 || parent.len() >= path.len() {
        Seq::empty()
    } else {
        seq![parent] + path_ancestors(parent, sep)
    }
}

proof fn lemma_parent_shorter(path: Seq<u8>, sep: u8)
    ensures
        path.len() > 0 ==> parent_of(path, sep).len() < path.len(),
        path.len() == 0 ==> parent_of(path, sep).len() == 0,
{
    let trimmed = without_last_sep(path, sep);
    if exists|pos: int| is_last_sep(trimmed, pos, sep) {
        let pos = choose|pos: int| is_last_sep(trimmed, pos, sep);
        if pos == 0 && path.len() == 1 {
            assert(path.last() == sep);
        }
    }
}

/// The directories above a path, the nearest first.
pub fn ancestor_paths(path: &Vec<u8>, sep: u8) -> (r: Vec<Vec<u8>>)
    ensures
        byte_views(r@) == path_ancestors(path@, sep),
{
    let mut r: Vec<Vec<u8>> = Vec::new();
    let mut current = path.clone();
    assert(byte_views(r@) + path_ancestors(current@, sep) =~= path_ancestors(path@, sep));
    loop
        invariant
            byte_views(r@) + path_ancestors(current@, sep) == path_ancestors(path@, sep),
        decreases current@.len(),
    {
        let parent = parent_path_bytes(current.as_slice(), sep);
        proof {
            lemma_parent_shorter(current@, sep);
        }
        if parent.len() == 0 {
            assert(byte_views(r@) + Seq::<Seq<u8>>::empty() =~= byte_views(r@));
            return r;
        }
        let ghost before = byte_views(r@);
        let ghost above = parent@;
        r.push(parent.clone());
        proof {
            assert(byte_views(r@) =~= before.push(above));
            assert(before + (seq![above] + path_ancestors(above, sep)) =~= before.push(above) + path_ancestors(above, sep));
        }
        current = parent;
    }
}

proof fn lemma_ancestors_shorter(path: Seq<u8>, sep: u8)
    ensures
        forall|i: int| 0 <= i < path_ancestors(path, sep).len() ==> (#[trigger] path_ancestors(path, sep)[i]).len() < path.len(),
        path_ancestors(path, sep).no_duplicates(),
        !path_ancestors(path, sep).contains(path),
    decreases path.len(),
{
    let parent = parent_of(path, sep);
    let all = path_ancestors(path, sep);
    if parent.len() > 0 && parent.len() < path.len() {
        lemma_ancestors_shorter(parent, sep);
        let rest = path_ancestors(parent, sep);
        assert forall|i: int| 0 <= i < all.len() implies (#[trigger] all[i]).len() < path.len() by {
            if i > 0 {
                assert(all[i] == rest[i - 1]);
            }
        }
        assert forall|i: int, j: int| 0 <= i < all.len() && 0 <= j < all.len() && i != j implies all[i] != all[j] by {
            if i > 0 && j > 0 {
                assert(all[i] == rest[i - 1] && all[j] == rest[j - 1]);
            } else if i == 0 {
                assert(all[j] == rest[j - 1]);
                assert(rest.contains(rest[j - 1]));
            } else {
                assert(all[i] == rest[i - 1]);
                assert(rest.contains(rest[i - 1]));
            }
        }
    }
    if all.contains(path) {
        let i = choose|i: int| 0 <= i < all.len() && all[i] == path;
        assert(all[i].len() < path.len());
    }
}

/// The bytes and files of a directory, with everything below it.
#[derive(Debug, Clone, Copy, PartialEq, Eq, Structural)]
pub struct DirSize {
    pub bytes: i64,
    pub files: i64,
}

/// What happens to the row of a directory.
#[derive(Debug, Clone, Copy, PartialEq, Eq, Structural)]
pub enum RowChange {
    Nothing,
    Delete,
    Update,
    Insert,
}

/// A directory whose totals have changed.
#[derive(Debug)]
pub struct Reconciled {
    pub path: Vec<u8>,
    pub path_utf8: Option<String>,
    /// How many separators stand in the path.
    pub depth: i64,
    pub size: DirSize,
    pub change: RowChange,
    pub delta_bytes: i64,
    pub delta_files: i64,
    /// The directories above, whose totals change with it.
    pub ancestors: Vec<Vec<u8>>,
}

/// The totals that were known, nothing where there were none.
pub open spec fn known_size(prev: Option<DirSize>) -> (int, int) {
    match prev {
        Some(s) => (s.bytes as int, s.files as int),
        None => (0, 0),
    }
}

/// What happens to a row: it goes where nothing is left, and a new one comes only for a
/// directory with bytes in it.
pub open spec fn row_change(prev: Option<DirSize>, current: DirSize) -> RowChange {
    if prev is Some {
        if current.bytes == 0 && current.files == 0 {
            RowChange::Delete
        } else {
            RowChange::Update
        }
    } else if current.bytes > 0 {
        RowChange::Insert
    } else {
        RowChange::Nothing
    }
}

/// The bytes that separate names.
pub open spec fn separating(sep: u8) -> spec_fn(u8) -> bool {
    |b: u8| b == sep
}

/// How many separators stand in a path.
pub open spec fn separators(path: Seq<u8>, sep: u8) -> nat {
    path.filter(separating(sep)).len()
}

fn count_separators(path: &Vec<u8>, sep: u8) -> (n: usize)
    ensures
        n == separators(path@, sep),
{
    let ghost pred = separating(sep);
    let mut n: usize = 0;
    let mut i: usize = 0;
    proof {
        reveal(Seq::filter);
        assert(path@.take(0).filter(pred) =~= Seq::<u8>::empty());
    }
    while i < path.len()
        invariant
            pred == separating(sep),
            i <= path@.len(),
            n <= i,
            n == path@.take(i as int).filter(pred).len(),
        decreases path@.len() - i,
    {
        proof {
            reveal(Seq::filter);
            assert(path@.take(i + 1).drop_last() =~= path@.take(i as int));
            assert(path@.take(i + 1).last() == path@[i as int]);
        }
        if path[i] == sep {
            n = n + 1;
        }
        i = i + 1;
    }
    assert(path@.take(i as int) =~= path@);
    n
}

/// The directories above a path that take over a change of it: those up to the nearest
/// one that was looked at itself.
pub open spec fn reached(seen: Seq<Seq<u8>>, above: Seq<Seq<u8>>) -> Seq<Seq<u8>>
    decreases above.len(),
{
    if above.len() == 0 || seen.contains(above[0]) {
        Seq::empty()
    } else {
        seq![above[0]] + reached(seen, above.skip(1))
    }
}

/// A directory above the path was looked at: what it holds includes the path.
pub open spec fn is_included(seen: Seq<Seq<u8>>, path: Seq<u8>, sep: u8) -> bool {
    exists|i: int| 0 <= i < path_ancestors(path, sep).len() && seen.contains(#[trigger] path_ancestors(path, sep)[i])
}

/// What is known of a directory: its row or, where there is none, what directories
/// inside it have added.
pub open spec fn base_size(prev: Option<DirSize>, passed: (int, int)) -> (int, int) {
    match prev {
        Some(s) => (s.bytes as int, s.files as int),
        None => passed,
    }
}

/// By how much a directory differs from what is known of it.
pub open spec fn net_change(prev: Option<DirSize>, passed: (int, int), current: DirSize) -> (int, int) {
    (current.bytes - base_size(prev, passed).0, current.files - base_size(prev, passed).1)
}

/// The number can be stored.
pub open spec fn in_i64(n: int) -> bool {
    i64::MIN <= n <= i64::MAX
}

/// The totals of a directory have changed in this way, and those of the directories
/// `above` with it.
pub open spec fn is_reconciled(
    path: Seq<u8>,
    prev: Option<DirSize>,
    current: DirSize,
    net: (int, int),
    above: Seq<Seq<u8>>,
    r: Reconciled,
    sep: u8,
) -> bool {
    &&& r.path@ == path
    &&& opt_text(r.path_utf8) == text_of(path)
    &&& r.depth == separators(path, sep)
    &&& r.size == current
    &&& r.change == row_change(prev, current)
    &&& r.delta_bytes == net.0
    &&& r.delta_files == net.1
    &&& byte_views(r.ancestors@) == above
}

/// A snapshot that is brought up to date.
pub struct Reconcile {
    /// The directories that were looked at.
    pub seen: ByteTable,
    /// What was added to each directory for directories inside it.
    pub passed: ByteMap<DirSize>,
    /// The growth so far.
    pub drift: i64,
    /// What stands between the names of a path.
    pub sep: u8,
}

proof fn lemma_reached(seen: Seq<Seq<u8>>, above: Seq<Seq<u8>>)
    ensures
        reached(seen, above).len() <= above.len(),
        reached(seen, above) == above.take(reached(seen, above).len() as int),
        forall|i: int| 0 <= i < reached(seen, above).len() ==> !seen.contains(#[trigger] above[i]),
        reached(seen, above).len() < above.len() ==> seen.contains(above[reached(seen, above).len() as int]),
    decreases above.len(),
{
    if above.len() == 0 || seen.contains(above[0]) {
        assert(above.take(0) =~= Seq::empty());
    } else {
        let rest = above.skip(1);
        lemma_reached(seen, rest);
        let n = reached(seen, rest).len() as int;
        assert(reached(seen, above) =~= above.take(n + 1));
        assert forall|i: int| 0 <= i < n + 1 implies !seen.contains(#[trigger] above[i]) by {
            if i > 0 {
                assert(above[i] == rest[i - 1]);
            }
        }
    }
}

impl Reconcile {
    pub open spec fn wf(&self) -> bool {
        self.seen.wf() && self.passed.wf()
    }

    /// What was added to a directory for directories inside it.
    pub open spec fn passed_to(&self, path: Seq<u8>) -> (int, int) {
        if self.passed.keys().contains(path) {
            let s = self.passed.vals()[self.passed.keys().index_of(path)];
            (s.bytes as int, s.files as int)
        } else {
            (0, 0)
        }
    }

    /// By how much the directory at `path` differs from what is known of it.
    pub open spec fn net(&self, path: Seq<u8>, prev: Option<DirSize>, current: DirSize) -> (int, int) {
        net_change(prev, self.passed_to(path), current)
    }

    /// The directories that take over a change of the directory at `path`.
    pub open spec fn above(&self, path: Seq<u8>) -> Seq<Seq<u8>> {
        reached(self.seen@, path_ancestors(path, self.sep))
    }

    /// All sums that a look at a directory changes can be stored.
    pub open spec fn fits(&self, path: Seq<u8>, prev: Option<DirSize>, current: DirSize) -> bool {
        let net = self.net(path, prev, current);
        &&& path.len() <= i64::MAX
        &&& in_i64(net.0) && in_i64(net.1)
        &&& in_i64(self.drift + net.0)
        &&& forall|i: int|
            0 <= i < self.above(path).len() ==> in_i64(self.passed_to(#[trigger] self.above(path)[i]).0 + net.0)
                && in_i64(self.passed_to(self.above(path)[i]).1 + net.1)
    }

    /// The directory at `path` was looked at. What it differs by is handed on to the
    /// directories above it, up to the nearest one that was looked at itself: what that
    /// one holds includes it.
    pub open spec fn looked(
        &self,
        before: &Reconcile,
        path: Seq<u8>,
        prev: Option<DirSize>,
        current: DirSize,
        r: Option<Reconciled>,
    ) -> bool {
        let net = before.net(path, prev, current);
        let above = before.above(path);
        &&& match r {
            Some(c) => is_reconciled(path, prev, current, net, above, c, before.sep) && (net != (0int, 0int) || (
            current.bytes as int, current.files as int) != known_size(prev)),
            None => net == (0int, 0int) && (current.bytes as int, current.files as int) == known_size(prev),
        }
        &&& self.sep == before.sep
        &&& self.drift == before.drift + (if is_included(before.seen@, path, before.sep) {
            0
        } else {
            net.0
        })
        &&& forall|p: Seq<u8>| #[trigger]
            self.passed_to(p) == (if above.contains(p) {
                (before.passed_to(p).0 + net.0, before.passed_to(p).1 + net.1)
            } else {
                before.passed_to(p)
            })
    }

    pub fn new(sep: u8) -> (r: Reconcile)
        ensures
            r.wf(),
            r.sep == sep,
            r.seen@.len() == 0,
            r.drift == 0,
            forall|p: Seq<u8>| #[trigger] r.passed_to(p) == (0int, 0int),
    {
        Reconcile { seen: ByteTable::new(), passed: ByteMap::new(), drift: 0, sep }
    }

    /// The directory that is to be looked at for a mutation, unless it was before.
    pub fn next_target(&mut self, path: Vec<u8>, state: PathState) -> (r: Option<Vec<u8>>)
        requires
            old(self).wf(),
        ensures
            final(self).wf(),
            final(self).drift == old(self).drift,
            final(self).passed == old(self).passed,
            final(self).sep == old(self).sep,
            match r {
                Some(t) => {
                    &&& t@ == target_of(path@, state, old(self).sep)
                    &&& !old(self).seen@.contains(t@)
                    &&& final(self).seen@ == old(self).seen@.push(t@)
                },
                None => old(self).seen@.contains(target_of(path@, state, old(self).sep)) && final(self).seen@ == old(self).seen@,
            },
    {
        let target = reconcile_target(path, state, self.sep);
        if self.seen.find(target.as_slice()).is_some() {
            return None;
        }
        let _ = self.seen.insert(target.as_slice());
        Some(target)
    }

    fn added_to(&self, path: &Vec<u8>) -> (r: DirSize)
        requires
            self.wf(),
        ensures
            (r.bytes as int, r.files as int) == self.passed_to(path@),
    {
        match self.passed.find(path.as_slice()) {
            Some(i) => {
                proof {
                    self.passed.lemma_wf();
                    let k = self.passed.keys().index_of(path@);
                    assert(self.passed.keys()[k] == path@);
                }
                *self.passed.value_at(i)
            },
            None => DirSize { bytes: 0, files: 0 },
        }
    }

    fn add_to(&mut self, path: &Vec<u8>, sum: DirSize)
        requires
            old(self).wf(),
        ensures
            final(self).wf(),
            final(self).seen == old(self).seen,
            final(self).drift == old(self).drift,
            final(self).sep == old(self).sep,
            forall|p: Seq<u8>| #[trigger]
                final(self).passed_to(p) == (if p == path@ {
                    (sum.bytes as int, sum.files as int)
                } else {
                    old(self).passed_to(p)
                }),
    {
        let ghost before = *self;
        self.passed.put(path.as_slice(), sum);
        proof {
            before.passed.lemma_wf();
            self.passed.lemma_wf();
            let ks = before.passed.keys();
            let ks2 = self.passed.keys();
            assert forall|p: Seq<u8>| #[trigger]
                self.passed_to(p) == (if p == path@ {
                    (sum.bytes as int, sum.files as int)
                } else {
                    before.passed_to(p)
                }) by {
                if ks.contains(path@) {
                    let i = ks.index_of(path@);
                    assert(ks[i] == path@);
                } else {
                    assert(ks2 == ks.push(path@));
                    assert(ks2[ks.len() as int] == path@);
                    if ks.contains(p) {
                        let i = ks.index_of(p);
                        assert(ks2[i] == p);
                    }
                }
                if ks2.contains(p) {
                    let i = ks2.index_of(p);
                    assert(ks2[i] == p);
                    if !ks.contains(path@) && p != path@ {
                        assert(ks[i] == p);
                    }
                }
            }
        }
    }

    fn paths_above(&self, path: &Vec<u8>) -> (r: Vec<Vec<u8>>)
        requires
            self.wf(),
        ensures
            byte_views(r@) == self.above(path@),
    {
        let mut r = ancestor_paths(path, self.sep);
        let ghost all = byte_views(r@);
        let n = r.len();
        let mut i: usize = 0;
        proof {
            lemma_reached(self.seen@, all);
        }
        while i < n
            invariant
                self.wf(),
                n == r@.len(),
                i <= n,
                all == byte_views(r@),
                all == path_ancestors(path@, self.sep),
                forall|k: int| 0 <= k < i ==> !self.seen@.contains(#[trigger] all[k]),
                reached(self.seen@, all).len() <= all.len(),
                reached(self.seen@, all) == all.take(reached(self.seen@, all).len() as int),
                forall|k: int| 0 <= k < reached(self.seen@, all).len() ==> !self.seen@.contains(#[trigger] all[k]),
                reached(self.seen@, all).len() < all.len() ==> self.seen@.contains(
                    all[reached(self.seen@, all).len() as int],
                ),
            decreases n - i,
        {
            assert(all[i as int] == r@[i as int]@);
            if let Some(k) = self.seen.find(r[i].as_slice()) {
                assert(self.seen@[k as int] == all[i as int]);
                assert(self.seen@.contains(all[i as int]));
                r.truncate(i);
                assert(byte_views(r@) =~= all.take(i as int));
                return r;
            }
            i = i + 1;
        }
        assert(all.take(n as int) =~= all);
        r
    }

    /// Whether all sums that a look at a directory changes can be stored.
    pub fn can_take(&self, target: &Vec<u8>, prev: &Option<DirSize>, current: &DirSize) -> (r: bool)
        requires
            self.wf(),
            target@.len() <= i64::MAX,
        ensures
            r == self.fits(target@, *prev, *current),
    {
        let base = match prev {
            Some(s) => *s,
            None => self.added_to(target),
        };
        let bytes: i128 = current.bytes as i128 - base.bytes as i128;
        let files: i128 = current.files as i128 - base.files as i128;
        let ghost net = self.net(target@, *prev, *current);
        if !is_i64(bytes) || !is_i64(files) || !is_i64(self.drift as i128 + bytes) {
            return false;
        }
        let above = self.paths_above(target);
        let ghost all = byte_views(above@);
        let mut i: usize = 0;
        while i < above.len()
            invariant
                self.wf(),
                all == byte_views(above@),
                all == self.above(target@),
                net == self.net(target@, *prev, *current),
                bytes == net.0,
                files == net.1,
                in_i64(net.0) && in_i64(net.1),
                i <= above@.len(),
                forall|k: int|
                    0 <= k < i ==> in_i64(self.passed_to(#[trigger] all[k]).0 + net.0) && in_i64(
                        self.passed_to(all[k]).1 + net.1,
                    ),
            decreases above@.len() - i,
        {
            assert(all[i as int] == above@[i as int]@);
            let sum = self.added_to(&above[i]);
            if !is_i64(sum.bytes as i128 + bytes) || !is_i64(sum.files as i128 + files) {
                return false;
            }
            i = i + 1;
        }
        true
    }

    /// Takes in what a directory holds now. Nothing is to be done where it is what was
    /// known.
    pub fn looked_at(&mut self, target: Vec<u8>, prev: Option<DirSize>, current: DirSize) -> (r: Option<Reconciled>)
        requires
            old(self).wf(),
            old(self).fits(target@, prev, current),
        ensures
            final(self).wf(),
            final(self).seen == old(self).seen,
            final(self).looked(old(self), target@, prev, current, r),
    {
        let ghost start = *self;
        let sep = self.sep;
        let base = match prev {
            Some(s) => s,
            None => self.added_to(&target),
        };
        let delta_bytes: i64 = current.bytes - base.bytes;
        let delta_files: i64 = current.files - base.files;
        let ghost net = start.net(target@, prev, current);
        let unknown = match prev {
            Some(_) => false,
            None => current.bytes != 0 || current.files != 0,
        };
        if delta_bytes == 0 && delta_files == 0 && !unknown {
            return None;
        }
        let ancestors = self.paths_above(&target);
        let ghost above = byte_views(ancestors@);
        let all = ancestor_paths(&target, sep);
        proof {
            lemma_reached(start.seen@, path_ancestors(target@, sep));
            lemma_ancestors_shorter(target@, sep);
            assert(byte_views(all@).len() == all.len());
            assert(above.len() == ancestors.len());
            if ancestors@.len() < all@.len() {
                assert(start.seen@.contains(path_ancestors(target@, sep)[ancestors@.len() as int]));
            } else if is_included(start.seen@, target@, sep) {
                let i = choose|i: int|
                    0 <= i < path_ancestors(target@, sep).len() && start.seen@.contains(#[trigger] path_ancestors(target@, sep)[i]);
                assert(!start.seen@.contains(path_ancestors(target@, sep)[i]));
            }
        }
        if ancestors.len() == all.len() {
            self.drift = self.drift + delta_bytes;
        }
        let mut i: usize = 0;
        while i < ancestors.len()
            invariant
                start.wf(),
                self.wf(),
                self.seen == start.seen,
                self.sep == start.sep,
                sep == start.sep,
                self.drift == start.drift + (if is_included(start.seen@, target@, sep) {
                    0
                } else {
                    net.0
                }),
                above == byte_views(ancestors@),
                above == start.above(target@),
                above.no_duplicates(),
                net == start.net(target@, prev, current),
                delta_bytes == net.0,
                delta_files == net.1,
                start.fits(target@, prev, current),
                i <= ancestors@.len(),
                forall|p: Seq<u8>| #[trigger]
                    self.passed_to(p) == (if above.take(i as int).contains(p) {
                        (start.passed_to(p).0 + net.0, start.passed_to(p).1 + net.1)
                    } else {
                        start.passed_to(p)
                    }),
            decreases ancestors@.len() - i,
        {
            let ghost here = *self;
            let ghost p = above[i as int];
            assert(p == ancestors@[i as int]@);
            proof {
                if above.take(i as int).contains(p) {
                    let k = choose|k: int| 0 <= k < i && above.take(i as int)[k] == p;
                    assert(above[k] == above[i as int]);
                }
                assert(in_i64(start.passed_to(start.above(target@)[i as int]).0 + net.0));
            }
            let sum = self.added_to(&ancestors[i]);
            self.add_to(
                &ancestors[i],
                DirSize { bytes: sum.bytes + delta_bytes, files: sum.files + delta_files },
            );
            proof {
                assert(above.take(i + 1) =~= above.take(i as int).push(p));
                assert forall|q: Seq<u8>| above.take(i + 1).contains(q) <==> above.take(i as int).contains(q) || q == p by {
                    if above.take(i as int).contains(q) {
                        let k = choose|k: int| 0 <= k < i && above.take(i as int)[k] == q;
                        assert(above.take(i + 1)[k] == q);
                    }
                    assert(above.take(i + 1)[i as int] == p);
                }
            }
            i = i + 1;
        }
        assert(above.take(i as int) =~= above);
        let change = if prev.is_some() {
            if current.bytes == 0 && current.files == 0 {
                RowChange::Delete
            } else {
                RowChange::Update
            }
        } else if current.bytes > 0 {
            RowChange::Insert
        } else {
            RowChange::Nothing
        };
        let path_utf8 = utf8_text(target.as_slice());
        let count = count_separators(&target, sep);
        proof {
            reveal(Seq::filter);
            target@.lemma_filter_len(separating(sep));
        }
        Some(
            Reconciled {
                path: target,
                path_utf8,
                depth: count as i64,
                size: current,
                change,
                delta_bytes,
                delta_files,
                ancestors,
            },
        )
    }
}

fn is_i64(n: i128) -> (r: bool)
    ensures
        r == in_i64(n as int),
{
    n >= i64::MIN as i128 && n <= i64::MAX as i128
}

/// The rows of a snapshot after one of its directories was brought up to date.
pub open spec fn after_reconcile(table: Map<Seq<u8>, (int, int)>, r: Reconciled) -> Map<Seq<u8>, (int, int)> {
    let size = (r.size.bytes as int, r.size.files as int);
    let own = match r.change {
        RowChange::Nothing => table,
        RowChange::Delete => table.remove(r.path@),
        RowChange::Update => table.insert(r.path@, size),
        RowChange::Insert => table.insert(r.path@, size),
    };
    own.map_entries(
        |p: Seq<u8>, s: (int, int)|
            if byte_views(r.ancestors@).contains(p) {
                (s.0 + r.delta_bytes, s.1 + r.delta_files)
            } else {
                s
            },
    )
}

/// Bringing a directory up to date gives it the totals that it has, adds the difference
/// to the known directories among those `above`, and leaves all others as they are.
pub proof fn law_reconciled(
    table: Map<Seq<u8>, (int, int)>,
    path: Seq<u8>,
    prev: Option<DirSize>,
    current: DirSize,
    net: (int, int),
    above: Seq<Seq<u8>>,
    r: Reconciled,
    sep: u8,
)
    requires
        is_reconciled(path, prev, current, net, above, r, sep),
        !above.contains(path),
        prev is Some <==> table.contains_key(path),
        prev is Some ==> table[path] == known_size(prev),
    ensures
        row_change(prev, current) == RowChange::Update || row_change(prev, current) == RowChange::Insert ==> {
            &&& after_reconcile(table, r).contains_key(path)
            &&& after_reconcile(table, r)[path] == (current.bytes as int, current.files as int)
        },
        row_change(prev, current) == RowChange::Delete ==> !after_reconcile(table, r).contains_key(path),
        forall|p: Seq<u8>|
            p != path ==> #[trigger] after_reconcile(table, r).contains_key(p) == table.contains_key(p),
        forall|p: Seq<u8>|
            p != path && table.contains_key(p) ==> #[trigger] after_reconcile(table, r)[p] == (if above.contains(p) {
                (table[p].0 + net.0, table[p].1 + net.1)
            } else {
                table[p]
            }),
{
}

/// A look at a directory in the course of a run.
pub struct Look {
    pub path: Seq<u8>,
    pub prev: Option<DirSize>,
    pub current: DirSize,
    pub change: Option<Reconciled>,
}

/// One directory is looked at that was not before, and its row is what the run finds.
pub open spec fn look_step(
    before: &Reconcile,
    after: &Reconcile,
    table: Map<Seq<u8>, (int, int)>,
    next: Map<Seq<u8>, (int, int)>,
    look: Look,
) -> bool {
    &&& !before.seen@.contains(look.path)
    &&& after.seen@ == before.seen@.push(look.path)
    &&& after.looked(before, look.path, look.prev, look.current, look.change)
    &&& look.prev is Some <==> table.contains_key(look.path)
    &&& look.prev is Some ==> table[look.path] == known_size(look.prev)
    &&& next == (match look.change {
        Some(c) => after_reconcile(table, c),
        None => table,
    })
}

/// A run that brings the rows of a snapshot up to date.
pub open spec fn is_run(states: Seq<Reconcile>, tables: Seq<Map<Seq<u8>, (int, int)>>, looks: Seq<Look>) -> bool {
    &&& states.len() == looks.len() + 1
    &&& tables.len() == looks.len() + 1
    &&& states[0].seen@.len() == 0
    &&& states[0].drift == 0
    &&& forall|p: Seq<u8>| #[trigger] states[0].passed_to(p) == (0int, 0int)
    &&& forall|i: int|
        0 <= i < looks.len() ==> look_step(
            &states[i],
            &states[i + 1],
            tables[i],
            tables[i + 1],
            #[trigger] looks[i],
        )
}

/// Directory `p` lies above the path.
pub open spec fn lies_above(p: Seq<u8>, path: Seq<u8>, sep: u8) -> bool {
    path_ancestors(path, sep).contains(p)
}

/// No other directory that was looked at lies above this one.
pub open spec fn is_outer(looks: Seq<Look>, i: int, sep: u8) -> bool {
    forall|j: int| 0 <= j < looks.len() ==> !lies_above((#[trigger] looks[j]).path, looks[i].path, sep)
}

/// The growth of a directory since the snapshot.
pub open spec fn growth(table: Map<Seq<u8>, (int, int)>, look: Look) -> int {
    look.current.bytes - (if table.contains_key(look.path) {
        table[look.path].0
    } else {
        0
    })
}

/// The growth of each outermost directory that was looked at.
pub open spec fn outer_growth(table: Map<Seq<u8>, (int, int)>, looks: Seq<Look>, sep: u8) -> Seq<int> {
    Seq::new(looks.len(), |i: int| if is_outer(looks, i, sep) { growth(table, looks[i]) } else { 0 })
}

/// The growth of each outermost one below directory `p`.
pub open spec fn growth_below(table: Map<Seq<u8>, (int, int)>, looks: Seq<Look>, p: Seq<u8>, sep: u8) -> Seq<int> {
    Seq::new(
        looks.len(),
        |i: int|
            if is_outer(looks, i, sep) && lies_above(p, looks[i].path, sep) {
                growth(table, looks[i])
            } else {
                0
            },
    )
}

proof fn lemma_ancestors_of_ancestor(path: Seq<u8>, k: int, sep: u8)
    requires
        0 <= k < path_ancestors(path, sep).len(),
    ensures
        path_ancestors(path_ancestors(path, sep)[k], sep) == path_ancestors(path, sep).skip(k + 1),
    decreases path.len(),
{
    let all = path_ancestors(path, sep);
    let parent = parent_of(path, sep);
    let rest = path_ancestors(parent, sep);
    if k == 0 {
        assert(all.skip(1) =~= rest);
    } else {
        lemma_ancestors_of_ancestor(parent, k - 1, sep);
        assert(all[k] == rest[k - 1]);
        assert(all.skip(k + 1) =~= rest.skip(k));
    }
}

proof fn lemma_above_transitive(a: Seq<u8>, b: Seq<u8>, path: Seq<u8>, sep: u8)
    requires
        lies_above(a, b, sep),
        lies_above(b, path, sep),
    ensures
        lies_above(a, path, sep),
{
    let all = path_ancestors(path, sep);
    let k = choose|k: int| 0 <= k < all.len() && all[k] == b;
    lemma_ancestors_of_ancestor(path, k, sep);
    let j = choose|j: int| 0 <= j < path_ancestors(b, sep).len() && path_ancestors(b, sep)[j] == a;
    assert(all[k + 1 + j] == a);
}

/// Of two directories above the same path one lies above the other.
proof fn lemma_above_linear(a: Seq<u8>, b: Seq<u8>, path: Seq<u8>, sep: u8)
    requires
        lies_above(a, path, sep),
        lies_above(b, path, sep),
    ensures
        a == b || lies_above(a, b, sep) || lies_above(b, a, sep),
{
    let all = path_ancestors(path, sep);
    let i = choose|i: int| 0 <= i < all.len() && all[i] == a;
    let j = choose|j: int| 0 <= j < all.len() && all[j] == b;
    if i < j {
        lemma_ancestors_of_ancestor(path, i, sep);
        assert(path_ancestors(a, sep)[j - i - 1] == b);
    } else if j < i {
        lemma_ancestors_of_ancestor(path, j, sep);
        assert(path_ancestors(b, sep)[i - j - 1] == a);
    }
}

proof fn lemma_total_minus(a: Seq<int>, b: Seq<int>, c: Seq<int>)
    requires
        a.len() == b.len(),
        a.len() == c.len(),
        forall|i: int| 0 <= i < a.len() ==> #[trigger] c[i] == a[i] - b[i],
    ensures
        total(c) == total(a) - total(b),
    decreases a.len(),
{
    if a.len() > 0 {
        lemma_total_minus(a.drop_last(), b.drop_last(), c.drop_last());
        assert(c[a.len() - 1] == a[a.len() - 1] - b[a.len() - 1]);
    }
}

/// What holds in the course of a run: what was looked at is seen; a directory that was
/// not has its row as it was, and what was added to it; and what was added to one that
/// is not included in another is the growth of the outermost ones below it.
pub open spec fn run_holds(
    state: &Reconcile,
    table: Map<Seq<u8>, (int, int)>,
    first: Map<Seq<u8>, (int, int)>,
    looks: Seq<Look>,
) -> bool {
    &&& forall|p: Seq<u8>| #[trigger]
        state.seen@.contains(p) <==> exists|j: int| 0 <= j < looks.len() && (#[trigger] looks[j]).path == p
    &&& forall|p: Seq<u8>|
        !state.seen@.contains(p) ==> #[trigger] table.contains_key(p) == first.contains_key(p)
    &&& forall|p: Seq<u8>|
        !state.seen@.contains(p) && first.contains_key(p) ==> (#[trigger] table[p]).0 == first[p].0
            + state.passed_to(p).0
    &&& forall|p: Seq<u8>|
        !state.seen@.contains(p) && !is_included(state.seen@, p, state.sep) ==> (#[trigger] state.passed_to(p)).0 == total(
            growth_below(first, looks, p, state.sep),
        )
    &&& state.drift == total(outer_growth(first, looks, state.sep))
}

proof fn lemma_outer_push(looks: Seq<Look>, look: Look, sep: u8)
    ensures
        forall|i: int|
            0 <= i < looks.len() ==> (#[trigger] is_outer(looks.push(look), i, sep) <==> is_outer(looks, i, sep) && !lies_above(
                look.path,
                looks[i].path,
                sep,
            )),
{
    let more = looks.push(look);
    let n = looks.len() as int;
    assert forall|i: int| 0 <= i < n implies (#[trigger] is_outer(more, i, sep) <==> is_outer(looks, i, sep) && !lies_above(
        look.path,
        looks[i].path,
        sep,
    )) by {
        assert(more[i] == looks[i]);
        if is_outer(more, i, sep) {
            assert(!lies_above(more[n].path, more[i].path, sep));
            assert forall|j: int| 0 <= j < n implies !lies_above((#[trigger] looks[j]).path, looks[i].path, sep) by {
                assert(!lies_above(more[j].path, more[i].path, sep));
            }
        }
        if is_outer(looks, i, sep) && !lies_above(look.path, looks[i].path, sep) {
            assert forall|j: int| 0 <= j < more.len() implies !lies_above((#[trigger] more[j]).path, more[i].path, sep) by {
                if j < n {
                    assert(!lies_above(looks[j].path, looks[i].path, sep));
                }
            }
        }
    }
}

/// Whether one of the directories that were looked at lies above the path.
proof fn lemma_included(state: &Reconcile, looks: Seq<Look>, path: Seq<u8>)
    requires
        forall|p: Seq<u8>| #[trigger]
            state.seen@.contains(p) <==> exists|j: int| 0 <= j < looks.len() && (#[trigger] looks[j]).path == p,
    ensures
        is_included(state.seen@, path, state.sep) <==> exists|j: int|
            0 <= j < looks.len() && lies_above((#[trigger] looks[j]).path, path, state.sep),
{
    let all = path_ancestors(path, state.sep);
    if is_included(state.seen@, path, state.sep) {
        let i = choose|i: int| 0 <= i < all.len() && state.seen@.contains(#[trigger] all[i]);
        let j = choose|j: int| 0 <= j < looks.len() && (#[trigger] looks[j]).path == all[i];
        assert(lies_above(looks[j].path, path, state.sep));
    }
    if exists|j: int| 0 <= j < looks.len() && lies_above((#[trigger] looks[j]).path, path, state.sep) {
        let j = choose|j: int| 0 <= j < looks.len() && lies_above((#[trigger] looks[j]).path, path, state.sep);
        let i = choose|i: int| 0 <= i < all.len() && all[i] == looks[j].path;
        assert(state.seen@.contains(all[i]));
    }
}

/// What one more look does to the growth of the outermost directories.
proof fn lemma_look_growth(
    first: Map<Seq<u8>, (int, int)>,
    state: &Reconcile,
    looks: Seq<Look>,
    look: Look,
)
    requires
        forall|p: Seq<u8>| #[trigger]
            state.seen@.contains(p) <==> exists|j: int| 0 <= j < looks.len() && (#[trigger] looks[j]).path == p,
        !state.seen@.contains(look.path),
    ensures
        is_included(state.seen@, look.path, state.sep) ==> total(outer_growth(first, looks.push(look), state.sep)) == total(
            outer_growth(first, looks, state.sep),
        ),
        !is_included(state.seen@, look.path, state.sep) ==> total(outer_growth(first, looks.push(look), state.sep)) == total(
            outer_growth(first, looks, state.sep),
        ) + growth(first, look) - total(growth_below(first, looks, look.path, state.sep)),
{
    let more = looks.push(look);
    let n = looks.len() as int;
    let x = look.path;
    lemma_outer_push(looks, look, state.sep);
    lemma_included(state, looks, x);
    lemma_ancestors_shorter(x, state.sep);
    let a = outer_growth(first, looks, state.sep);
    let b = growth_below(first, looks, x, state.sep);
    let c = outer_growth(first, more, state.sep);
    assert(more[n] == look);
    if is_included(state.seen@, x, state.sep) {
        let j = choose|j: int| 0 <= j < looks.len() && lies_above((#[trigger] looks[j]).path, x, state.sep);
        assert(lies_above(more[j].path, more[n].path, state.sep));
        assert(!is_outer(more, n, state.sep));
        assert forall|i: int| 0 <= i < n implies #[trigger] c[i] == a[i] by {
            assert(more[i] == looks[i]);
            if lies_above(x, looks[i].path, state.sep) {
                lemma_above_transitive(looks[j].path, x, looks[i].path, state.sep);
            }
            assert(is_outer(more, i, state.sep) == is_outer(looks, i, state.sep));
        }
        assert(c.drop_last() =~= a);
    } else {
        assert forall|j: int| 0 <= j < more.len() implies !lies_above((#[trigger] more[j]).path, more[n].path, state.sep) by {
            if j < n {
                assert(more[j] == looks[j]);
            }
        }
        assert(is_outer(more, n, state.sep));
        let d = c.drop_last();
        assert forall|i: int| 0 <= i < n implies #[trigger] d[i] == a[i] - b[i] by {
            assert(more[i] == looks[i]);
            assert(is_outer(more, i, state.sep) == (is_outer(looks, i, state.sep) && !lies_above(x, looks[i].path, state.sep)));
        }
        lemma_total_minus(a, b, d);
    }
}

/// What one more look does to the growth below a directory that is included in none.
proof fn lemma_look_below(
    first: Map<Seq<u8>, (int, int)>,
    state: &Reconcile,
    looks: Seq<Look>,
    look: Look,
    p: Seq<u8>,
)
    requires
        forall|q: Seq<u8>| #[trigger]
            state.seen@.contains(q) <==> exists|j: int| 0 <= j < looks.len() && (#[trigger] looks[j]).path == q,
        !state.seen@.contains(look.path),
        !state.seen@.contains(p),
        !is_included(state.seen@, p, state.sep),
        p != look.path,
        !lies_above(look.path, p, state.sep),
    ensures
        lies_above(p, look.path, state.sep) && !is_included(state.seen@, look.path, state.sep) ==> total(
            growth_below(first, looks.push(look), p, state.sep),
        ) == total(growth_below(first, looks, p, state.sep)) + growth(first, look) - total(
            growth_below(first, looks, look.path, state.sep),
        ),
        !(lies_above(p, look.path, state.sep) && !is_included(state.seen@, look.path, state.sep)) ==> total(
            growth_below(first, looks.push(look), p, state.sep),
        ) == total(growth_below(first, looks, p, state.sep)),
{
    let more = looks.push(look);
    let n = looks.len() as int;
    let x = look.path;
    lemma_outer_push(looks, look, state.sep);
    lemma_included(state, looks, x);
    lemma_included(state, looks, p);
    lemma_ancestors_shorter(x, state.sep);
    let a = growth_below(first, looks, p, state.sep);
    let b = growth_below(first, looks, x, state.sep);
    let c = growth_below(first, more, p, state.sep);
    let d = c.drop_last();
    assert(more[n] == look);
    if is_included(state.seen@, x, state.sep) {
        let j = choose|j: int| 0 <= j < looks.len() && lies_above((#[trigger] looks[j]).path, x, state.sep);
        assert(lies_above(more[j].path, more[n].path, state.sep));
        assert(!is_outer(more, n, state.sep));
        assert forall|i: int| 0 <= i < n implies #[trigger] d[i] == a[i] by {
            assert(more[i] == looks[i]);
            if lies_above(x, looks[i].path, state.sep) {
                lemma_above_transitive(looks[j].path, x, looks[i].path, state.sep);
            }
            assert(is_outer(more, i, state.sep) == is_outer(looks, i, state.sep));
        }
        assert(d =~= a);
    } else {
        assert forall|j: int| 0 <= j < more.len() implies !lies_above((#[trigger] more[j]).path, more[n].path, state.sep) by {
            if j < n {
                assert(more[j] == looks[j]);
            }
        }
        assert(is_outer(more, n, state.sep));
        if lies_above(p, x, state.sep) {
            assert forall|i: int| 0 <= i < n implies #[trigger] d[i] == a[i] - b[i] by {
                assert(more[i] == looks[i]);
                assert(is_outer(more, i, state.sep) == (is_outer(looks, i, state.sep) && !lies_above(x, looks[i].path, state.sep)));
                if lies_above(x, looks[i].path, state.sep) {
                    lemma_above_transitive(p, x, looks[i].path, state.sep);
                }
            }
            lemma_total_minus(a, b, d);
        } else {
            assert forall|i: int| 0 <= i < n implies #[trigger] d[i] == a[i] by {
                assert(more[i] == looks[i]);
                assert(is_outer(more, i, state.sep) == (is_outer(looks, i, state.sep) && !lies_above(x, looks[i].path, state.sep)));
                if lies_above(x, looks[i].path, state.sep) && lies_above(p, looks[i].path, state.sep) {
                    lemma_above_linear(x, p, looks[i].path, state.sep);
                }
            }
            assert(d =~= a);
        }
    }
}

proof fn lemma_look_step(
    before: &Reconcile,
    after: &Reconcile,
    table: Map<Seq<u8>, (int, int)>,
    next: Map<Seq<u8>, (int, int)>,
    first: Map<Seq<u8>, (int, int)>,
    looks: Seq<Look>,
    look: Look,
)
    requires
        look_step(before, after, table, next, look),
        run_holds(before, table, first, looks),
    ensures
        run_holds(after, next, first, looks.push(look)),
{
    let more = looks.push(look);
    let n = looks.len() as int;
    let x = look.path;
    let above = before.above(x);
    let all = path_ancestors(x, before.sep);
    let net = before.net(x, look.prev, look.current);
    lemma_ancestors_shorter(x, before.sep);
    lemma_reached(before.seen@, all);
    assert(!above.contains(x)) by {
        if above.contains(x) {
            let i = choose|i: int| 0 <= i < above.len() && above[i] == x;
            assert(all[i] == x);
            assert(all.contains(x));
        }
    }
    assert forall|p: Seq<u8>| #[trigger] after.seen@.contains(p) <==> before.seen@.contains(p) || p == x by {
        if before.seen@.contains(p) {
            let k = choose|k: int| 0 <= k < before.seen@.len() && before.seen@[k] == p;
            assert(after.seen@[k] == p);
        }
        assert(after.seen@[before.seen@.len() as int] == x);
    }
    assert forall|p: Seq<u8>| #[trigger]
        after.seen@.contains(p) <==> exists|j: int| 0 <= j < more.len() && (#[trigger] more[j]).path == p by {
        if before.seen@.contains(p) {
            let j = choose|j: int| 0 <= j < looks.len() && (#[trigger] looks[j]).path == p;
            assert(more[j].path == p);
        }
        if p == x {
            assert(more[n].path == p);
        }
        if exists|j: int| 0 <= j < more.len() && (#[trigger] more[j]).path == p {
            let j = choose|j: int| 0 <= j < more.len() && (#[trigger] more[j]).path == p;
            if j < n {
                assert(looks[j].path == p);
            }
        }
    }
    if look.change is Some {
        law_reconciled(table, x, look.prev, look.current, net, above, look.change->0, before.sep);
    }
    assert forall|p: Seq<u8>| !after.seen@.contains(p) implies #[trigger] next.contains_key(p) == first.contains_key(p) by {
        assert(table.contains_key(p) == first.contains_key(p));
    }
    assert forall|p: Seq<u8>| !after.seen@.contains(p) && first.contains_key(p) implies (#[trigger] next[p]).0 == first[p].0
        + after.passed_to(p).0 by {
        assert(table.contains_key(p) == first.contains_key(p));
        assert(table[p].0 == first[p].0 + before.passed_to(p).0);
    }
    assert forall|p: Seq<u8>| !after.seen@.contains(p) && !is_included(after.seen@, p, before.sep) implies (
    #[trigger] after.passed_to(p)).0 == total(growth_below(first, more, p, before.sep)) by {
        assert(!before.seen@.contains(p));
        if is_included(before.seen@, p, before.sep) {
            let i = choose|i: int| 0 <= i < path_ancestors(p, before.sep).len() && before.seen@.contains(#[trigger] path_ancestors(p, before.sep)[i]);
            assert(after.seen@.contains(path_ancestors(p, before.sep)[i]));
        }
        assert(!lies_above(x, p, before.sep)) by {
            if lies_above(x, p, before.sep) {
                let i = choose|i: int| 0 <= i < path_ancestors(p, before.sep).len() && path_ancestors(p, before.sep)[i] == x;
                assert(after.seen@.contains(path_ancestors(p, before.sep)[i]));
            }
        }
        lemma_look_below(first, before, looks, look, p);
        assert(before.passed_to(p).0 == total(growth_below(first, looks, p, before.sep)));
        lemma_taken_over(before, x, p);
        if !is_included(before.seen@, x, before.sep) {
            lemma_net(before, table, first, looks, look);
        }
    }
    lemma_look_growth(first, before, looks, look);
    if !is_included(before.seen@, x, before.sep) {
        lemma_net(before, table, first, looks, look);
    }
}

/// A directory that is included in none takes over a change exactly if it lies above, and
/// no directory in between was looked at.
proof fn lemma_taken_over(state: &Reconcile, x: Seq<u8>, p: Seq<u8>)
    requires
        !state.seen@.contains(p),
        !is_included(state.seen@, p, state.sep),
    ensures
        state.above(x).contains(p) <==> lies_above(p, x, state.sep) && !is_included(state.seen@, x, state.sep),
{
    let all = path_ancestors(x, state.sep);
    let above = state.above(x);
    lemma_reached(state.seen@, all);
    let n = above.len() as int;
    if above.contains(p) {
        let i = choose|i: int| 0 <= i < above.len() && above[i] == p;
        assert(all[i] == p);
        if is_included(state.seen@, x, state.sep) {
            let k = choose|k: int| 0 <= k < all.len() && state.seen@.contains(#[trigger] all[k]);
            assert(k >= n);
            lemma_ancestors_of_ancestor(x, i, state.sep);
            assert(path_ancestors(p, state.sep)[k - i - 1] == all[k]);
        }
    }
    if lies_above(p, x, state.sep) && !is_included(state.seen@, x, state.sep) {
        let i = choose|i: int| 0 <= i < all.len() && all[i] == p;
        if n < all.len() {
            assert(state.seen@.contains(all[n]));
        }
        assert(above[i] == p);
    }
}

/// A directory that is included in none differs from what is known of it by its growth,
/// less that of the outermost ones below it.
proof fn lemma_net(
    before: &Reconcile,
    table: Map<Seq<u8>, (int, int)>,
    first: Map<Seq<u8>, (int, int)>,
    looks: Seq<Look>,
    look: Look,
)
    requires
        run_holds(before, table, first, looks),
        !before.seen@.contains(look.path),
        !is_included(before.seen@, look.path, before.sep),
        look.prev is Some <==> table.contains_key(look.path),
        look.prev is Some ==> table[look.path] == known_size(look.prev),
    ensures
        before.net(look.path, look.prev, look.current).0 == growth(first, look) - total(
            growth_below(first, looks, look.path, before.sep),
        ),
{
    let x = look.path;
    assert(table.contains_key(x) == first.contains_key(x));
    assert(before.passed_to(x).0 == total(growth_below(first, looks, x, before.sep)));
    if look.prev is Some {
        assert(table[x].0 == first[x].0 + before.passed_to(x).0);
    }
}

proof fn lemma_run(states: Seq<Reconcile>, tables: Seq<Map<Seq<u8>, (int, int)>>, looks: Seq<Look>, n: int)
    requires
        is_run(states, tables, looks),
        0 <= n <= looks.len(),
    ensures
        run_holds(&states[n], tables[n], tables[0], looks.take(n)),
        states[n].sep == states[0].sep,
    decreases n,
{
    if n == 0 {
        let none = looks.take(0);
        assert(outer_growth(tables[0], none, states[0].sep) =~= Seq::empty());
        assert forall|p: Seq<u8>| (#[trigger] states[0].passed_to(p)).0 == total(growth_below(tables[0], none, p, states[0].sep)) by {
            assert(growth_below(tables[0], none, p, states[0].sep) =~= Seq::empty());
        }
    } else {
        lemma_run(states, tables, looks, n - 1);
        assert(looks.take(n) =~= looks.take(n - 1).push(looks[n - 1]));
        lemma_look_step(
            &states[n - 1],
            &states[n],
            tables[n - 1],
            tables[n],
            tables[0],
            looks.take(n - 1),
            looks[n - 1],
        );
    }
}

/// The drift of a run is the growth of the outermost directories that were looked at: in
/// whatever order they were, nothing is counted twice.
pub proof fn law_drift_is_net(states: Seq<Reconcile>, tables: Seq<Map<Seq<u8>, (int, int)>>, looks: Seq<Look>)
    requires
        is_run(states, tables, looks),
    ensures
        states.last().drift == total(outer_growth(tables[0], looks, states[0].sep)),
{
    let n = looks.len() as int;
    lemma_run(states, tables, looks, n);
    assert(looks.take(n) =~= looks);
}

/// A directory does not lie above itself: that it is noted as the next target before it
/// is looked at changes nothing.
pub proof fn law_target_itself(seen: Seq<Seq<u8>>, path: Seq<u8>, sep: u8)
    ensures
        reached(seen.push(path), path_ancestors(path, sep)) == reached(seen, path_ancestors(path, sep)),
        is_included(seen.push(path), path, sep) == is_included(seen, path, sep),
{
    let all = path_ancestors(path, sep);
    let more = seen.push(path);
    lemma_ancestors_shorter(path, sep);
    assert forall|i: int| 0 <= i < all.len() implies more.contains(#[trigger] all[i]) == seen.contains(all[i]) by {
        assert(all.contains(all[i]));
        if seen.contains(all[i]) {
            let k = choose|k: int| 0 <= k < seen.len() && seen[k] == all[i];
            assert(more[k] == all[i]);
        }
        if more.contains(all[i]) {
            let k = choose|k: int| 0 <= k < more.len() && more[k] == all[i];
            assert(k < seen.len());
            assert(seen[k] == all[i]);
        }
    }
    lemma_reached(seen, all);
    lemma_reached(more, all);
    let a = reached(seen, all).len() as int;
    let b = reached(more, all).len() as int;
    if a < b {
        assert(seen.contains(all[a]));
    } else if b < a {
        assert(more.contains(all[b]));
    }
    if is_included(seen, path, sep) {
        let i = choose|i: int| 0 <= i < all.len() && seen.contains(#[trigger] all[i]);
        assert(more.contains(all[i]));
    }
    if is_included(more, path, sep) {
        let i = choose|i: int| 0 <= i < all.len() && more.contains(#[trigger] all[i]);
        assert(seen.contains(all[i]));
    }
}

} // verus!
