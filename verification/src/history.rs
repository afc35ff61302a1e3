//! The history of a file or directory in the mutation log.

use crate::calendar::{format_rfc3339, parse_rfc3339, rfc3339_seconds, rfc3339_text};
use crate::decimal::{
    decimal, decimal_text, i64_value, integer_text, law_integer_roundtrip, parse_i64,
    signed_decimal,
};
use crate::mutation_filter::{
    aggregates, can_aggregate_history_entries, displayable, is_displayable_mutation,
};
use crate::sums::{lemma_total_push, lemma_total_update, total};
use crate::text::{
    ascii_lower, ascii_upper_char, chars_of, eq_ignore_case, find_char, first_at, has_prefix,
    replace_char, replaced, skip_leading, slice_text, split, split_text, str_eq, upper_char,
    uppercase, uppercase_of, views, without_leading,
};
use vstd::prelude::*;

verus! {

/// One row of a history.
#[derive(Debug, Clone)]
pub struct HistoryEntry {
    pub sequence: i64,
    pub volume: String,
    pub file_id: u64,
    pub parent_file_id: u64,
    pub name: String,
    pub kind: String,
    pub is_directory: bool,
    pub size_delta: i64,
    pub at: String,
    pub source: String,
}

/// A page of a history.
#[derive(Debug, Clone)]
pub struct HistoryResponse {
    pub results: Vec<HistoryEntry>,
    pub truncated: bool,
    pub cursor: Option<String>,
    pub next_cursor: Option<String>,
    pub prev_cursor: Option<String>,
    pub debug_info: Option<String>,
}

/// How a path names its volume.
pub enum PathForm {
    /// A drive letter and a colon, followed by the rest of the path.
    Drive { volume: String, rest: String },
    /// The directory of a mock volume, followed by the rest of the path.
    Mock { letter: String, rest: String },
    /// The path names no volume.
    Unknown,
}

/// The path with forward slashes only.
pub open spec fn forward(path: Seq<char>) -> Seq<char> {
    replaced(path, '\\', '/')
}

/// The path begins with an ASCII character and a colon.
pub open spec fn has_drive(path: Seq<char>) -> bool {
    path.len() >= 2 && path[0] <= '\u{7f}' && path[1] == ':'
}

/// Where the directories of mock volumes lie.
pub open spec fn mock_prefix() -> Seq<char> {
    "/tmp/disktracker_mock_"@
}

/// The form of a path.
pub open spec fn is_form(path: Seq<char>, form: PathForm) -> bool {
    let p = forward(path);
    if has_drive(p) {
        match form {
            PathForm::Drive { volume, rest } => volume@ == seq![ascii_upper_char(p[0]), ':'] && rest@
                == without_leading(p.skip(2), '/'),
            _ => false,
        }
    } else if mock_prefix().is_prefix_of(p) {
        let tail = p.skip(mock_prefix().len() as int);
        match form {
            PathForm::Mock { letter, rest } => if tail.contains('/') {
                forall|i: int|
                    #[trigger] first_at(tail, '/', i) ==> letter@ == tail.take(i) && rest@ == without_leading(
                        tail.skip(i),
                        '/',
                    )
            } else {
                letter@ == tail && rest@.len() == 0
            },
            _ => false,
        }
    } else {
        form is Unknown
    }
}

/// Tells how a path names its volume.
pub fn path_form(path: &str) -> (form: PathForm)
    ensures
        is_form(path@, form),
{
    let chars = replace_char(path, '\\', '/');
    let n = chars.len();
    if n >= 2 && chars[0] <= '\u{7f}' && chars[1] == ':' {
        let mut volume = String::new();
        volume.push(upper_char(chars[0]));
        volume.push(':');
        assert(volume@ =~= seq![ascii_upper_char(chars@[0]), ':']);
        let from = skip_leading(&chars, 2, '/');
        let rest = slice_text(&chars, from, n);
        assert(rest@ =~= chars@.skip(from as int));
        return PathForm::Drive { volume, rest };
    }
    if !has_prefix(&chars, 0, "/tmp/disktracker_mock_") {
        assert(chars@.skip(0) =~= chars@);
        return PathForm::Unknown;
    }
    assert(chars@.skip(0) =~= chars@);
    let start = "/tmp/disktracker_mock_".unicode_len();
    let ghost tail = chars@.skip(start as int);
    match find_char(&chars, start, '/') {
        Some(i) => {
            let letter = slice_text(&chars, start, i);
            let from = skip_leading(&chars, i, '/');
            let rest = slice_text(&chars, from, n);
            proof {
                assert(letter@ =~= tail.take(i - start));
                assert(rest@ =~= chars@.skip(from as int));
                assert(chars@.skip(i as int) =~= tail.skip(i - start));
                assert(tail[i - start] == '/');
                assert forall|k: int| #[trigger] first_at(tail, '/', k) implies k == i - start by {
                    if k < i - start {
                        assert(tail[k] == '/');
                    } else if i - start < k {
                        assert(tail[i - start] == '/');
                    }
                }
            }
            PathForm::Mock { letter, rest }
        },
        None => {
            let letter = slice_text(&chars, start, n);
            assert(letter@ =~= tail);
            PathForm::Mock { letter, rest: String::new() }
        },
    }
}

/// The name of a mock volume, given its letter in upper case: a colon stands behind it.
pub fn mock_volume(letter: &str, upper: String) -> (volume: String)
    ensures
        volume@ == (if letter@.len() > 0 && letter@.last() == ':' {
            upper@
        } else {
            upper@.push(':')
        }),
{
    let chars = chars_of(letter);
    let mut volume = upper;
    if !(chars.len() > 0 && chars[chars.len() - 1] == ':') {
        volume.push(':');
    }
    volume
}

/// The volume and the rest of a path whose form is known.
pub open spec fn volume_and_rest(form: PathForm) -> Option<(Seq<char>, Seq<char>)> {
    match form {
        PathForm::Drive { volume, rest } => Some((volume@, rest@)),
        PathForm::Mock { letter, rest } => Some(
            (
                if letter@.len() > 0 && letter@.last() == ':' {
                    uppercase_of(letter@)
                } else {
                    uppercase_of(letter@).push(':')
                },
                rest@,
            ),
        ),
        PathForm::Unknown => None,
    }
}

/// Splits a path into its volume and what lies below.
pub fn parse_path(path: &str) -> (r: Result<(String, String), String>)
    ensures
        exists|form: PathForm|
            #[trigger] is_form(path@, form) && match r {
                Ok((volume, rest)) => volume_and_rest(form) == Some((volume@, rest@)),
                Err(e) => volume_and_rest(form) is None && e@ == "Could not extract volume from path: "@
                    + path@,
            },
{
    let form = path_form(path);
    let ghost f = form;
    match form {
        PathForm::Drive { volume, rest } => Ok((volume, rest)),
        PathForm::Mock { letter, rest } => {
            let upper = uppercase(letter.as_str());
            let volume = mock_volume(letter.as_str(), upper);
            Ok((volume, rest))
        },
        PathForm::Unknown => {
            let mut e = "Could not extract volume from path: ".to_owned();
            e.append(path);
            Err(e)
        },
    }
}

/// The pieces of a text that are not empty.
pub open spec fn nonempty(parts: Seq<Seq<char>>) -> Seq<Seq<char>> {
    parts.filter(|p: Seq<char>| p.len() > 0)
}

/// The names of the directories and of the file along a path.
pub fn path_parts(rest: &str) -> (r: Vec<String>)
    ensures
        views(r@) == nonempty(split_text(rest@, '/')),
{
    let all = split(rest, '/');
    let ghost texts = views(all@);
    let ghost pred = |p: Seq<char>| p.len() > 0;
    let mut r: Vec<String> = Vec::new();
    let mut i: usize = 0;
    assert(texts.take(0).filter(pred) =~= Seq::<Seq<char>>::empty()) by {
        reveal(Seq::filter);
    }
    assert(views(r@) =~= Seq::<Seq<char>>::empty());
    while i < all.len()
        invariant
            texts == views(all@),
            pred == (|p: Seq<char>| p.len() > 0),
            i <= all@.len(),
            views(r@) == texts.take(i as int).filter(pred),
        decreases all@.len() - i,
    {
        let ghost before = views(r@);
        proof {
            reveal(Seq::filter);
            assert(texts.take(i + 1).drop_last() =~= texts.take(i as int));
            assert(texts.take(i + 1).last() == all@[i as int]@);
        }
        if !all[i].as_str().is_empty() {
            r.push(all[i].clone());
            assert(views(r@) =~= before.push(all@[i as int]@));
        }
        i = i + 1;
    }
    assert(texts.take(i as int) =~= texts);
    r
}

/// A walk down from the root of a volume along the names of a path.
pub struct PathWalk {
    pub parts: Vec<String>,
    pub next: usize,
    pub current: u64,
}

/// The directory entries of a volume: who lies in which directory under which name.
pub open spec fn walked(children: Map<(u64, Seq<char>), u64>, from: u64, parts: Seq<Seq<char>>) -> Option<u64>
    decreases parts.len(),
{
    if parts.len() == 0 {
        Some(from)
    } else if children.contains_key((from, parts[0])) {
        walked(children, children[(from, parts[0])], parts.skip(1))
    } else {
        None
    }
}

impl PathWalk {
    /// The names that are left to follow.
    pub open spec fn left(&self) -> Seq<Seq<char>> {
        views(self.parts@).skip(self.next as int)
    }

    pub fn start(parts: Vec<String>, root: u64) -> (w: PathWalk)
        ensures
            w.parts == parts,
            w.next == 0,
            w.current == root,
            w.left() == views(parts@),
    {
        let w = PathWalk { parts, next: 0, current: root };
        assert(w.left() =~= views(parts@));
        w
    }

    /// Goes on with what was found under the next name in the current directory. The
    /// result tells where the walk ended: at a file, or nowhere; `None` if it goes on.
    pub fn step(&mut self, found: Option<u64>) -> (r: Option<Option<u64>>)
        requires
            old(self).next < old(self).parts@.len(),
        ensures
            final(self).parts == old(self).parts,
            final(self).next <= final(self).parts@.len(),
            r is None ==> final(self).next < final(self).parts@.len(),
            match found {
                Some(id) => {
                    &&& final(self).current == id
                    &&& final(self).next == old(self).next + 1
                    &&& r == (if final(self).next == final(self).parts@.len() {
                        Some(found)
                    } else {
                        None
                    })
                },
                None => r == Some(None::<u64>),
            },
            forall|children: Map<(u64, Seq<char>), u64>|
                (match found {
                    Some(id) => children.contains_key((old(self).current, old(self).left()[0]))
                        && children[(old(self).current, old(self).left()[0])] == id,
                    None => !children.contains_key((old(self).current, old(self).left()[0])),
                }) ==> #[trigger] walked(children, old(self).current, old(self).left()) == (match r {
                    Some(end) => end,
                    None => walked(children, final(self).current, final(self).left()),
                }),
    {
        let ghost before = *self;
        match found {
            Some(id) => {
                let count = self.parts.len();
                self.current = id;
                self.next = self.next + 1;
                assert(self.left() =~= before.left().skip(1));
                assert(views(before.parts@).len() == count);
                if self.next == count {
                    Some(Some(id))
                } else {
                    None
                }
            },
            None => Some(None),
        }
    }
}

/// A check that the directories above a file have the names expected of them.
pub struct ParentChain {
    pub expected: Vec<String>,
    /// How many names are left to check, from the last.
    pub left: usize,
    pub current: u64,
}

/// The first `n` names are those of `id` and of the directories above it, the last
/// name being that of `id` itself, up to the case of ASCII letters.
pub open spec fn chain_fits(known: Map<u64, (u64, Seq<char>)>, id: u64, expected: Seq<Seq<char>>, n: nat) -> bool
    decreases n,
{
    n > 0 ==> {
        &&& known.contains_key(id)
        &&& ascii_lower(known[id].1) == ascii_lower(expected[n - 1])
        &&& chain_fits(known, known[id].0, expected, (n - 1) as nat)
    }
}

impl ParentChain {
    pub fn start(expected: Vec<String>, parent_id: u64) -> (c: ParentChain)
        ensures
            c.expected == expected,
            c.left == expected@.len(),
            c.current == parent_id,
    {
        let left = expected.len();
        ParentChain { expected, left, current: parent_id }
    }

    /// Goes on with the parent and name that are known of the current directory. The
    /// result tells whether the names fit; `None` if the check goes on.
    pub fn step(&mut self, found: Option<(u64, String)>) -> (r: Option<bool>)
        requires
            0 < old(self).left <= old(self).expected@.len(),
        ensures
            final(self).expected == old(self).expected,
            r is None ==> {
                &&& 0 < final(self).left
                &&& final(self).left == old(self).left - 1
                &&& found is Some
                &&& final(self).current == (found->0).0
            },
            forall|known: Map<u64, (u64, Seq<char>)>|
                (match found {
                    Some((p, name)) => known.contains_key(old(self).current) && known[old(self).current] == (
                        p,
                        name@,
                    ),
                    None => !known.contains_key(old(self).current),
                }) ==> #[trigger] chain_fits(
                    known,
                    old(self).current,
                    views(old(self).expected@),
                    old(self).left as nat,
                ) == (match r {
                    Some(b) => b,
                    None => chain_fits(
                        known,
                        final(self).current,
                        views(old(self).expected@),
                        final(self).left as nat,
                    ),
                }),
    {
        match found {
            None => Some(false),
            Some((parent_id, name)) => {
                if !eq_ignore_case(name.as_str(), self.expected[self.left - 1].as_str()) {
                    return Some(false);
                }
                assert(views(self.expected@)[self.left - 1] == self.expected@[self.left - 1]@);
                if self.left == 1 {
                    proof {
                        reveal_with_fuel(chain_fits, 2);
                    }
                    return Some(true);
                }
                self.left = self.left - 1;
                self.current = parent_id;
                None
            },
        }
    }
}

/// Whether a file that no directory is named above lies in the root of its volume.
pub fn lies_in_root(parent_id: u64, root: Option<u64>) -> (r: bool)
    ensures
        r == (root == Some(parent_id)),
{
    match root {
        Some(id) => parent_id == id,
        None => false,
    }
}

/// The history was cut: it was asked for from before the cutoff, or else the oldest
/// entry of the log lies no more than five minutes behind the cutoff.
pub fn is_truncated_at(since: Option<i64>, oldest: Option<i64>, cutoff: i64) -> (r: bool)
    requires
        cutoff <= i64::MAX - 300,
    ensures
        r == (match since {
            Some(s) => s < cutoff,
            None => oldest is Some && oldest->0 <= cutoff + 300,
        }),
{
    match since {
        Some(s) => s < cutoff,
        None => match oldest {
            Some(at) => at <= cutoff + 300,
            None => false,
        },
    }
}

/// The moment of the oldest entry of the log.
pub open spec fn oldest_seconds(oldest_at: Option<String>) -> Option<i64> {
    match oldest_at {
        Some(at) => rfc3339_seconds(at@),
        None => None,
    }
}

/// Whether a history was cut, given the oldest entry of the log as it is written there.
pub fn is_truncated(since: Option<i64>, oldest_at: &Option<String>, cutoff: i64) -> (r: bool)
    requires
        cutoff <= i64::MAX - 300,
    ensures
        r == (match since {
            Some(s) => s < cutoff,
            None => oldest_seconds(*oldest_at) is Some && oldest_seconds(*oldest_at)->0 <= cutoff + 300,
        }),
{
    let oldest = match oldest_at {
        Some(at) => parse_rfc3339(at.as_str()),
        None => None,
    };
    is_truncated_at(since, oldest, cutoff)
}

/// A place in a history, and the direction to go from there.
#[derive(Clone, Copy)]
pub struct HistoryCursor {
    pub backward: bool,
    pub sequence: Option<i64>,
}

/// The number that a text stands for.
pub open spec fn sequence_of(s: Seq<char>) -> Option<i64> {
    match i64_value(s) {
        Some(v) => Some(v as i64),
        None => None,
    }
}

/// What a cursor says: `f:` goes forward, `b:` backward, and a bare number forward.
pub open spec fn cursor_of(c: Option<Seq<char>>) -> HistoryCursor {
    match c {
        None => HistoryCursor { backward: false, sequence: None },
        Some(s) => if "f:"@.is_prefix_of(s) {
            HistoryCursor { backward: false, sequence: sequence_of(s.skip(2)) }
        } else if "b:"@.is_prefix_of(s) {
            HistoryCursor { backward: true, sequence: sequence_of(s.skip(2)) }
        } else {
            HistoryCursor { backward: false, sequence: sequence_of(s) }
        },
    }
}

/// Reads a cursor.
pub fn parse_history_cursor(cursor: Option<&str>) -> (r: HistoryCursor)
    ensures
        r == cursor_of(
            match cursor {
                Some(c) => Some(c@),
                None => None,
            },
        ),
{
    match cursor {
        None => HistoryCursor { backward: false, sequence: None },
        Some(c) => {
            let chars = chars_of(c);
            let n = chars.len();
            assert(chars@.skip(0) =~= c@);
            proof {
                reveal_strlit("f:");
                reveal_strlit("b:");
            }
            if has_prefix(&chars, 0, "f:") {
                let rest = slice_text(&chars, 2, n);
                assert(rest@ =~= c@.skip(2));
                HistoryCursor { backward: false, sequence: parse_i64(rest.as_str()) }
            } else if has_prefix(&chars, 0, "b:") {
                let rest = slice_text(&chars, 2, n);
                assert(rest@ =~= c@.skip(2));
                HistoryCursor { backward: true, sequence: parse_i64(rest.as_str()) }
            } else {
                HistoryCursor { backward: false, sequence: parse_i64(c) }
            }
        },
    }
}

/// A value that is bound to a query.
pub enum SqlParam {
    Text(String),
    Int(i64),
    Id(u64),
    Count(usize),
}

/// A value that is bound to a query, as a plain value.
pub enum ParamView {
    Text(Seq<char>),
    Int(int),
}

pub open spec fn param_view(p: SqlParam) -> ParamView {
    match p {
        SqlParam::Text(s) => ParamView::Text(s@),
        SqlParam::Int(i) => ParamView::Int(i as int),
        SqlParam::Id(i) => ParamView::Int(i as int),
        SqlParam::Count(i) => ParamView::Int(i as int),
    }
}

pub open spec fn param_views(ps: Seq<SqlParam>) -> Seq<ParamView> {
    Seq::new(ps.len(), |i: int| param_view(ps[i]))
}

/// What a history is asked for.
pub struct HistoryFilter {
    pub volume: String,
    pub file_id: u64,
    pub is_dir: bool,
    pub since: Option<i64>,
    pub until: Option<i64>,
    pub kind: Option<String>,
    pub cursor: HistoryCursor,
}

/// A query with the values that are bound to it, in order.
pub struct HistoryQuery {
    pub sql: String,
    pub params: Vec<SqlParam>,
}

/// One more condition: the clause, the number of its value, and what stands behind.
#[verifier::opaque]
pub open spec fn clause(on: bool, before: Seq<char>, number: int, behind: Seq<char>) -> Seq<char> {
    if on {
        before + decimal_text(number as nat) + behind
    } else {
        Seq::empty()
    }
}

pub open spec fn one_if(b: bool) -> int {
    if b {
        1
    } else {
        0
    }
}

/// The query for a history: conditions in a fixed order, each with the number of the
/// value that is bound to it.
pub open spec fn history_sql(f: HistoryFilter) -> Seq<char> {
    let n_since = 3int;
    let n_until = n_since + one_if(f.since is Some);
    let n_kind = n_until + one_if(f.until is Some);
    let n_cursor = n_kind + one_if(f.kind is Some);
    let n_limit = n_cursor + one_if(f.cursor.sequence is Some);
    "SELECT sequence, volume, file_id, parent_file_id, name, kind, is_directory, size_delta, at, source FROM mutation_log WHERE volume = ?1"@
        + (if f.is_dir {
        " AND (file_id = ?2 OR parent_file_id = ?2)"@
    } else {
        " AND file_id = ?2"@
    }) + clause(f.since is Some, " AND at >= ?"@, n_since, ""@) + clause(
        f.until is Some,
        " AND at <= ?"@,
        n_until,
        ""@,
    ) + clause(f.kind is Some, " AND kind = ?"@, n_kind, " COLLATE NOCASE"@) + clause(
        f.cursor.sequence is Some,
        if f.cursor.backward {
            " AND sequence < ?"@
        } else {
            " AND sequence > ?"@
        },
        n_cursor,
        ""@,
    ) + (if f.cursor.backward {
        " ORDER BY sequence DESC"@
    } else {
        " ORDER BY sequence ASC"@
    }) + clause(true, " LIMIT ?"@, n_limit, ""@)
}

/// A value, if there is one.
pub open spec fn if_some(on: bool, v: ParamView) -> Seq<ParamView> {
    if on {
        seq![v]
    } else {
        Seq::empty()
    }
}

/// The values that are bound to the query for a history.
pub open spec fn history_params(f: HistoryFilter, fetch: int) -> Seq<ParamView> {
    seq![ParamView::Text(f.volume@), ParamView::Int(f.file_id as int)] + if_some(
        f.since is Some,
        ParamView::Text(rfc3339_text(f.since->0, 0)),
    ) + if_some(f.until is Some, ParamView::Text(rfc3339_text(f.until->0, 0))) + if_some(
        f.kind is Some,
        ParamView::Text(f.kind->0@),
    ) + if_some(f.cursor.sequence is Some, ParamView::Int(f.cursor.sequence->0 as int)) + seq![
        ParamView::Int(fetch),
    ]
}

/// Appends a condition with its value, if it is asked for.
fn add_clause(q: &mut HistoryQuery, on: bool, before: &str, behind: &str, value: SqlParam)
    requires
        old(q).params@.len() < 1000,
    ensures
        final(q).sql@ == old(q).sql@ + clause(on, before@, old(q).params@.len() + 1int, behind@),
        param_views(final(q).params@) == param_views(old(q).params@) + if_some(on, param_view(value)),
        final(q).params@.len() == old(q).params@.len() + one_if(on),
{
    reveal(clause);
    if on {
        let n = q.params.len();
        q.sql.append(before);
        let number = decimal((n + 1) as u64);
        q.sql.append(number.as_str());
        q.sql.append(behind);
        q.params.push(value);
    }
    assert(q.sql@ =~= old(q).sql@ + clause(on, before@, old(q).params@.len() + 1int, behind@));
    assert(param_views(q.params@) =~= param_views(old(q).params@) + if_some(on, param_view(value)));
}

fn time_param(at: Option<i64>) -> (p: SqlParam)
    ensures
        at is Some ==> param_view(p) == ParamView::Text(rfc3339_text(at->0, 0)),
{
    match at {
        Some(seconds) => SqlParam::Text(format_rfc3339(seconds, 0)),
        None => SqlParam::Int(0),
    }
}

/// The query for a history, of which at most `fetch` rows are asked for.
pub fn history_query(f: &HistoryFilter, fetch: usize) -> (q: HistoryQuery)
    ensures
        q.sql@ == history_sql(*f),
        param_views(q.params@) == history_params(*f, fetch as int),
{
    let mut q = HistoryQuery {
        sql: "SELECT sequence, volume, file_id, parent_file_id, name, kind, is_directory, size_delta, at, source FROM mutation_log WHERE volume = ?1".to_owned(),
        params: Vec::new(),
    };
    if f.is_dir {
        q.sql.append(" AND (file_id = ?2 OR parent_file_id = ?2)");
    } else {
        q.sql.append(" AND file_id = ?2");
    }
    q.params.push(SqlParam::Text(f.volume.clone()));
    q.params.push(SqlParam::Id(f.file_id));
    assert(param_views(q.params@) =~= seq![ParamView::Text(f.volume@), ParamView::Int(f.file_id as int)]);
    add_clause(&mut q, f.since.is_some(), " AND at >= ?", "", time_param(f.since));
    add_clause(&mut q, f.until.is_some(), " AND at <= ?", "", time_param(f.until));
    let kind = match &f.kind {
        Some(kind) => SqlParam::Text(kind.clone()),
        None => SqlParam::Int(0),
    };
    add_clause(&mut q, f.kind.is_some(), " AND kind = ?", " COLLATE NOCASE", kind);
    let sequence = match f.cursor.sequence {
        Some(sequence) => SqlParam::Int(sequence),
        None => SqlParam::Int(0),
    };
    if f.cursor.backward {
        add_clause(&mut q, f.cursor.sequence.is_some(), " AND sequence < ?", "", sequence);
        q.sql.append(" ORDER BY sequence DESC");
    } else {
        add_clause(&mut q, f.cursor.sequence.is_some(), " AND sequence > ?", "", sequence);
        q.sql.append(" ORDER BY sequence ASC");
    }
    add_clause(&mut q, true, " LIMIT ?", "", SqlParam::Count(fetch));
    q
}

/// The number of rows to ask for, so that a page can be filled after rows were merged.
pub open spec fn fetch_count(collapse: bool, limit: int) -> int {
    if collapse {
        limit * 4
    } else {
        limit * 2
    }
}

/// Row `b`, which follows row `a`, is shown as one with it.
pub open spec fn merges(a: HistoryEntry, b: HistoryEntry, collapse: bool) -> bool {
    ||| aggregates(a.kind@, a.file_id, a.name@, b.kind@, b.file_id, b.name@)
    ||| collapse && a.kind@ == b.kind@ && a.file_id == b.file_id
}

/// Two rows as one: the growth of both, and otherwise what the later one says.
pub open spec fn merged(a: HistoryEntry, b: HistoryEntry) -> HistoryEntry {
    HistoryEntry {
        size_delta: (a.size_delta + b.size_delta) as i64,
        sequence: b.sequence,
        at: b.at,
        name: b.name,
        parent_file_id: b.parent_file_id,
        source: b.source,
        ..a
    }
}

/// The rows of a history with each run of rows that belong together as one.
pub open spec fn aggregated(rows: Seq<HistoryEntry>, collapse: bool) -> Seq<HistoryEntry>
    decreases rows.len(),
{
    if rows.len() == 0 {
        Seq::empty()
    } else {
        let rest = aggregated(rows.drop_last(), collapse);
        if rest.len() > 0 && merges(rest.last(), rows.last(), collapse) {
            rest.update(rest.len() - 1, merged(rest.last(), rows.last()))
        } else {
            rest.push(rows.last())
        }
    }
}

/// The growth of each row.
pub open spec fn deltas(rows: Seq<HistoryEntry>) -> Seq<int> {
    Seq::new(rows.len(), |i: int| rows[i].size_delta as int)
}

/// The growth of every run of rows that belong together can be held, however far the run
/// was read.
pub open spec fn runs_fit(rows: Seq<HistoryEntry>, collapse: bool) -> bool
    decreases rows.len(),
{
    rows.len() > 0 ==> {
        let rest = aggregated(rows.drop_last(), collapse);
        &&& runs_fit(rows.drop_last(), collapse)
        &&& rest.len() > 0 && merges(rest.last(), rows.last(), collapse) ==> i64::MIN <= rest.last().size_delta
            + rows.last().size_delta <= i64::MAX
    }
}

proof fn lemma_runs_prefix(rows: Seq<HistoryEntry>, collapse: bool, n: int)
    requires
        runs_fit(rows, collapse),
        0 <= n <= rows.len(),
    ensures
        runs_fit(rows.take(n), collapse),
    decreases rows.len() - n,
{
    if n < rows.len() {
        lemma_runs_prefix(rows, collapse, n + 1);
        assert(rows.take(n + 1).drop_last() =~= rows.take(n));
    } else {
        assert(rows.take(n) =~= rows);
    }
}

/// Showing rows as one loses no growth: the sum over the history stays the same.
pub proof fn law_aggregation_keeps_growth(rows: Seq<HistoryEntry>, collapse: bool)
    requires
        runs_fit(rows, collapse),
    ensures
        total(deltas(aggregated(rows, collapse))) == total(deltas(rows)),
    decreases rows.len(),
{
    if rows.len() > 0 {
        let part = rows.drop_last();
        let x = rows.last();
        assert(deltas(rows).drop_last() =~= deltas(part));
        law_aggregation_keeps_growth(part, collapse);
        let rest = aggregated(part, collapse);
        if rest.len() > 0 && merges(rest.last(), x, collapse) {
            let m = merged(rest.last(), x);
            lemma_total_update(deltas(rest), rest.len() - 1, m.size_delta as int);
            assert(deltas(rest.update(rest.len() - 1, m)) =~= deltas(rest).update(
                rest.len() - 1,
                m.size_delta as int,
            ));
        } else {
            lemma_total_push(deltas(rest), x.size_delta as int);
            assert(deltas(rest.push(x)) =~= deltas(rest).push(x.size_delta as int));
        }
    }
}

/// Without collapsing, every modification stays a row of its own.
pub proof fn law_modified_stays(rows: Seq<HistoryEntry>)
    requires
        forall|k: int| 0 <= k < rows.len() ==> (#[trigger] rows[k]).kind@ == "Modified"@,
    ensures
        aggregated(rows, false) == rows,
    decreases rows.len(),
{
    if rows.len() > 0 {
        let part = rows.drop_last();
        assert forall|k: int| 0 <= k < part.len() implies (#[trigger] part[k]).kind@ == "Modified"@ by {
            assert(part[k] == rows[k]);
        }
        law_modified_stays(part);
        assert(rows[rows.len() - 1].kind@ == "Modified"@);
        if part.len() > 0 {
            assert(part[part.len() - 1].kind@ == "Modified"@);
        }
        assert(part.push(rows.last()) =~= rows);
    }
}

fn copy_entry(e: &HistoryEntry) -> (r: HistoryEntry)
    ensures
        r == *e,
{
    HistoryEntry {
        sequence: e.sequence,
        volume: e.volume.clone(),
        file_id: e.file_id,
        parent_file_id: e.parent_file_id,
        name: e.name.clone(),
        kind: e.kind.clone(),
        is_directory: e.is_directory,
        size_delta: e.size_delta,
        at: e.at.clone(),
        source: e.source.clone(),
    }
}

/// Merges the rows that belong together.
pub fn aggregate(rows: &Vec<HistoryEntry>, collapse: bool) -> (r: Vec<HistoryEntry>)
    requires
        runs_fit(rows@, collapse),
    ensures
        r@ == aggregated(rows@, collapse),
{
    let mut r: Vec<HistoryEntry> = Vec::new();
    let mut i: usize = 0;
    assert(rows@.take(0) =~= Seq::<HistoryEntry>::empty());
    while i < rows.len()
        invariant
            runs_fit(rows@, collapse),
            i <= rows@.len(),
            r@ == aggregated(rows@.take(i as int), collapse),
        decreases rows@.len() - i,
    {
        let next = &rows[i];
        proof {
            let part = rows@.take(i as int);
            let more = rows@.take(i + 1);
            assert(more.drop_last() =~= part);
            assert(more.last() == *next);
            lemma_runs_prefix(rows@, collapse, i + 1);
        }
        let n = r.len();
        let merge = if n == 0 {
            false
        } else {
            let current = &r[n - 1];
            can_aggregate_history_entries(
                current.kind.as_str(),
                current.file_id,
                current.name.as_str(),
                next.kind.as_str(),
                next.file_id,
                next.name.as_str(),
            ) || (collapse && str_eq(current.kind.as_str(), next.kind.as_str()) && current.file_id
                == next.file_id)
        };
        if merge {
            let current = copy_entry(&r[n - 1]);
            let one = HistoryEntry {
                size_delta: current.size_delta + next.size_delta,
                sequence: next.sequence,
                at: next.at.clone(),
                name: next.name.clone(),
                parent_file_id: next.parent_file_id,
                source: next.source.clone(),
                volume: current.volume,
                file_id: current.file_id,
                kind: current.kind,
                is_directory: current.is_directory,
            };
            r.set(n - 1, one);
        } else {
            r.push(copy_entry(next));
        }
        i = i + 1;
    }
    assert(rows@.take(i as int) =~= rows@);
    r
}

/// The rows that are shown.
pub open spec fn shown_rows(rows: Seq<HistoryEntry>) -> Seq<HistoryEntry> {
    rows.filter(|e: HistoryEntry| displayable(e.kind@, e.size_delta as int))
}

fn keep_shown(rows: &Vec<HistoryEntry>) -> (r: Vec<HistoryEntry>)
    ensures
        r@ == shown_rows(rows@),
{
    let ghost pred = |e: HistoryEntry| displayable(e.kind@, e.size_delta as int);
    let mut r: Vec<HistoryEntry> = Vec::new();
    let mut i: usize = 0;
    assert(rows@.take(0).filter(pred) =~= Seq::<HistoryEntry>::empty()) by {
        reveal(Seq::filter);
    }
    while i < rows.len()
        invariant
            pred == (|e: HistoryEntry| displayable(e.kind@, e.size_delta as int)),
            i <= rows@.len(),
            r@ == rows@.take(i as int).filter(pred),
        decreases rows@.len() - i,
    {
        proof {
            reveal(Seq::filter);
            assert(rows@.take(i + 1).drop_last() =~= rows@.take(i as int));
            assert(rows@.take(i + 1).last() == rows@[i as int]);
        }
        if is_displayable_mutation(rows[i].kind.as_str(), rows[i].size_delta) {
            r.push(copy_entry(&rows[i]));
        }
        i = i + 1;
    }
    assert(rows@.take(i as int) =~= rows@);
    r
}

/// Rows that were read backward are put in order.
fn reversed(rows: &Vec<HistoryEntry>) -> (r: Vec<HistoryEntry>)
    ensures
        r@ == rows@.reverse(),
{
    let mut r: Vec<HistoryEntry> = Vec::new();
    let mut i: usize = rows.len();
    while i > 0
        invariant
            i <= rows@.len(),
            r@ =~= rows@.reverse().take(rows@.len() - i),
        decreases i,
    {
        i = i - 1;
        r.push(copy_entry(&rows[i]));
    }
    r
}

/// At most `n` of the first elements.
pub open spec fn at_most<T>(s: Seq<T>, n: int) -> Seq<T> {
    if s.len() > n {
        s.take(n)
    } else {
        s
    }
}

/// The rows that a page is made of, in order, given the rows that were fetched.
pub open spec fn used_rows(fetched: Seq<HistoryEntry>, collapse: bool, limit: int, backward: bool) -> Seq<HistoryEntry> {
    let used = at_most(fetched, fetch_count(collapse, limit));
    if backward {
        used.reverse()
    } else {
        used
    }
}

/// The rows to show, in order, given the rows that were fetched.
pub open spec fn visible_rows(fetched: Seq<HistoryEntry>, collapse: bool, limit: int, backward: bool) -> Seq<HistoryEntry> {
    shown_rows(aggregated(used_rows(fetched, collapse, limit, backward), collapse))
}

/// More rows follow than a page shows.
pub open spec fn more_follow(fetched: Seq<HistoryEntry>, collapse: bool, limit: int, backward: bool) -> bool {
    visible_rows(fetched, collapse, limit, backward).len() > limit || fetched.len() > fetch_count(collapse, limit)
}

/// A page of a history with the cursors around it.
pub struct HistoryPage {
    pub entries: Vec<HistoryEntry>,
    pub next_cursor: Option<String>,
    pub prev_cursor: Option<String>,
}

/// The page of a history. Going forward, a cursor back stands where a cursor led here,
/// and one forward where more follows; going backward it is the other way round.
pub open spec fn is_history_page(
    fetched: Seq<HistoryEntry>,
    collapse: bool,
    limit: int,
    backward: bool,
    has_cursor: bool,
    page: HistoryPage,
) -> bool {
    let more = more_follow(fetched, collapse, limit, backward);
    &&& page.entries@ == at_most(visible_rows(fetched, collapse, limit, backward), limit)
    &&& page.entries@.len() == 0 ==> page.next_cursor is None && page.prev_cursor is None
    &&& page.entries@.len() > 0 ==> {
        &&& (page.prev_cursor is Some) == (if backward {
            more
        } else {
            has_cursor
        })
        &&& (page.next_cursor is Some) == (backward || more)
        &&& page.prev_cursor is Some ==> page.prev_cursor->0@ == "b:"@ + integer_text(page.entries@.first().sequence as int)
        &&& page.next_cursor is Some ==> page.next_cursor->0@ == "f:"@ + integer_text(page.entries@.last().sequence as int)
    }
}

fn cursor_at(direction: &str, sequence: i64) -> (r: String)
    ensures
        r@ == direction@ + integer_text(sequence as int),
{
    let mut r = direction.to_owned();
    let n = signed_decimal(sequence);
    r.append(n.as_str());
    r
}

/// A cursor of a page reads back as the direction and the place that it was made for.
pub proof fn law_page_cursor(
    fetched: Seq<HistoryEntry>,
    collapse: bool,
    limit: int,
    backward: bool,
    has_cursor: bool,
    page: HistoryPage,
)
    requires
        is_history_page(fetched, collapse, limit, backward, has_cursor, page),
    ensures
        page.prev_cursor is Some ==> cursor_of(Some(page.prev_cursor->0@)) == (HistoryCursor {
            backward: true,
            sequence: Some(page.entries@.first().sequence),
        }),
        page.next_cursor is Some ==> cursor_of(Some(page.next_cursor->0@)) == (HistoryCursor {
            backward: false,
            sequence: Some(page.entries@.last().sequence),
        }),
{
    reveal_strlit("f:");
    reveal_strlit("b:");
    if page.entries@.len() > 0 {
        let first = page.entries@.first().sequence;
        let last = page.entries@.last().sequence;
        law_integer_roundtrip(first as int);
        law_integer_roundtrip(last as int);
        assert(("b:"@ + integer_text(first as int)).skip(2) =~= integer_text(first as int));
        assert(("f:"@ + integer_text(last as int)).skip(2) =~= integer_text(last as int));
        assert(("b:"@ + integer_text(first as int))[0] == 'b');
        assert(("b:"@ + integer_text(first as int)).take(2) =~= "b:"@);
        assert(("f:"@ + integer_text(last as int)).take(2) =~= "f:"@);
    }
}

/// Makes a page of the rows that were fetched for it.
pub fn history_page(fetched: Vec<HistoryEntry>, collapse: bool, limit: usize, backward: bool, has_cursor: bool) -> (page: HistoryPage)
    requires
        limit * 4 < usize::MAX,
        runs_fit(used_rows(fetched@, collapse, limit as int, backward), collapse),
    ensures
        is_history_page(fetched@, collapse, limit as int, backward, has_cursor, page),
{
    let ghost all = fetched@;
    let fetch = if collapse { limit * 4 } else { limit * 2 };
    let has_more = fetched.len() > fetch;
    let mut used = fetched;
    if has_more {
        used.truncate(fetch);
    }
    proof {
        assert(used@ =~= at_most(all, fetch as int));
    }
    let ordered = if backward {
        reversed(&used)
    } else {
        used
    };
    let one = aggregate(&ordered, collapse);
    let mut entries = keep_shown(&one);
    let more = entries.len() > limit || has_more;
    if entries.len() > limit {
        entries.truncate(limit);
    }
    let mut next_cursor: Option<String> = None;
    let mut prev_cursor: Option<String> = None;
    if entries.len() > 0 {
        let s_first = entries[0].sequence;
        let s_last = entries[entries.len() - 1].sequence;
        if !backward {
            if has_cursor {
                prev_cursor = Some(cursor_at("b:", s_first));
            }
            if more {
                next_cursor = Some(cursor_at("f:", s_last));
            }
        } else {
            if more {
                prev_cursor = Some(cursor_at("b:", s_first));
            }
            next_cursor = Some(cursor_at("f:", s_last));
        }
    }
    HistoryPage { entries, next_cursor, prev_cursor }
}

/// What the log holds of the file that a history was asked for.
pub struct HistoryCounts {
    pub total: i64,
    pub of_file: i64,
    pub of_children: i64,
}

/// The name of a truth value.
pub open spec fn bool_text(b: bool) -> Seq<char> {
    if b {
        "true"@
    } else {
        "false"@
    }
}

/// How a history was found.
pub open spec fn debug_text(path: Seq<char>, volume: Seq<char>, file_id: u64, is_dir: bool, counts: HistoryCounts) -> Seq<char> {
    "Path: '"@ + path + "', Resolved: ("@ + volume + ", file_id: "@ + decimal_text(file_id as nat) + "), is_dir: "@
        + bool_text(is_dir) + ", Total mutations in DB: "@ + integer_text(counts.total as int)
        + ", Matches for file_id: "@ + integer_text(counts.of_file as int) + ", Matches for parent_file_id: "@
        + integer_text(counts.of_children as int)
}

fn debug_line(path: &str, volume: &str, file_id: u64, is_dir: bool, counts: &HistoryCounts) -> (r: String)
    ensures
        r@ == debug_text(path@, volume@, file_id, is_dir, *counts),
{
    let mut r = "Path: '".to_owned();
    r.append(path);
    r.append("', Resolved: (");
    r.append(volume);
    r.append(", file_id: ");
    let id = decimal(file_id);
    r.append(id.as_str());
    r.append("), is_dir: ");
    r.append(if is_dir { "true" } else { "false" });
    r.append(", Total mutations in DB: ");
    let total = signed_decimal(counts.total);
    r.append(total.as_str());
    r.append(", Matches for file_id: ");
    let of_file = signed_decimal(counts.of_file);
    r.append(of_file.as_str());
    r.append(", Matches for parent_file_id: ");
    let of_children = signed_decimal(counts.of_children);
    r.append(of_children.as_str());
    r
}

/// Answers a request for a history from the rows that were fetched for it.
pub fn get_history(
    path: &str,
    filter: &HistoryFilter,
    fetched: Vec<HistoryEntry>,
    collapse: bool,
    limit: usize,
    has_cursor: bool,
    truncated: bool,
    counts: &HistoryCounts,
) -> (r: HistoryResponse)
    requires
        limit * 4 < usize::MAX,
        runs_fit(used_rows(fetched@, collapse, limit as int, filter.cursor.backward), collapse),
    ensures
        is_history_page(
            fetched@,
            collapse,
            limit as int,
            filter.cursor.backward,
            has_cursor,
            (HistoryPage {
                entries: r.results,
                next_cursor: r.next_cursor,
                prev_cursor: r.prev_cursor,
            }),
        ),
        r.cursor == r.next_cursor,
        r.truncated == truncated,
        r.debug_info is Some,
        r.debug_info->0@ == debug_text(path@, filter.volume@, filter.file_id, filter.is_dir, *counts),
{
    let page = history_page(fetched, collapse, limit, filter.cursor.backward, has_cursor);
    let cursor = match &page.next_cursor {
        Some(c) => Some(c.clone()),
        None => None,
    };
    HistoryResponse {
        results: page.entries,
        truncated,
        cursor,
        next_cursor: page.next_cursor,
        prev_cursor: page.prev_cursor,
        debug_info: Some(debug_line(path, filter.volume.as_str(), filter.file_id, filter.is_dir, counts)),
    }
}

} // verus!
