//! How results are put into words.

use crate::calendar::{
    elapsed_seconds, format_utc, seconds_since, utc_text, DAY_PATTERN, EARLIEST_SECONDS,
    LATEST_SECONDS, MOMENT_PATTERN,
};
use crate::decimal::{decimal, decimal_chars, decimal_text, integer_text, signed_decimal};
use crate::history::{has_drive, HistoryEntry};
use crate::prune::{id_strings, id_texts};
use crate::size_diff::DiffEntry;
use crate::text::{
    ascii_lower, ascii_upper_char, chars_of, eq_ignore_case, is_among, join, joined, opt_str,
    opt_text, str_eq, string_of, trim, trimmed, upper_char, utf8_text, views,
};
use std::collections::HashMap;
use vstd::prelude::*;
use vstd::utf8::{decode_utf8, encode_utf8, valid_utf8};

verus! {

/// Digits in groups of three, with commas between them.
pub open spec fn grouped(digits: Seq<char>) -> Seq<char>
    decreases digits.len(),
{
    if digits.len() <= 3 {
        digits
    } else {
        grouped(digits.take(digits.len() - 3)).push(',') + digits.skip(digits.len() - 3)
    }
}

fn group(digits: &Vec<char>, n: usize) -> (r: Vec<char>)
    requires
        n <= digits@.len(),
    ensures
        r@ == grouped(digits@.take(n as int)),
    decreases n,
{
    let ghost front = digits@.take(n as int);
    if n <= 3 {
        let mut r: Vec<char> = Vec::new();
        let mut i: usize = 0;
        while i < n
            invariant
                n <= digits@.len(),
                i <= n,
                r@ =~= digits@.take(i as int),
            decreases n - i,
        {
            r.push(digits[i]);
            i = i + 1;
        }
        return r;
    }
    let mut r = group(digits, n - 3);
    assert(front.take(n - 3) =~= digits@.take(n - 3));
    r.push(',');
    r.push(digits[n - 3]);
    r.push(digits[n - 2]);
    r.push(digits[n - 1]);
    assert(r@ =~= grouped(front.take(n - 3)).push(',') + front.skip(n - 3));
    r
}

/// A moment that can be written: the one given, or the present one where it is out of
/// the calendar's range.
pub open spec fn writable(ts: i64, now: i64) -> i64 {
    if EARLIEST_SECONDS <= ts <= LATEST_SECONDS {
        ts
    } else {
        now
    }
}

/// A moment in UTC, given as seconds since 1970.
pub fn fmt_ts(ts: i64, now: i64) -> (r: String)
    requires
        EARLIEST_SECONDS <= now <= LATEST_SECONDS,
    ensures
        r@ == utc_text(writable(ts, now), MOMENT_PATTERN@),
{
    let at = if EARLIEST_SECONDS <= ts && ts <= LATEST_SECONDS {
        ts
    } else {
        now
    };
    format_utc(at, MOMENT_PATTERN)
}

/// The day of a moment in UTC, given as seconds since 1970.
pub fn fmt_date(ts: i64, now: i64) -> (r: String)
    requires
        EARLIEST_SECONDS <= now <= LATEST_SECONDS,
    ensures
        r@ == utc_text(writable(ts, now), DAY_PATTERN@),
{
    let at = if EARLIEST_SECONDS <= ts && ts <= LATEST_SECONDS {
        ts
    } else {
        now
    };
    format_utc(at, DAY_PATTERN)
}

/// A number with its digits in groups of three.
pub fn fmt_number(n: u64) -> (r: String)
    ensures
        r@ == grouped(decimal_text(n as nat)),
{
    let digits = decimal_chars(n as u128);
    let chars = group(&digits, digits.len());
    assert(digits@.take(digits@.len() as int) =~= digits@);
    string_of(chars.as_slice())
}

/// A list of snapshots: the first eight, and how many follow.
pub fn fmt_id_list(ids: &Vec<i64>) -> (r: String)
    ensures
        r@ == (if ids@.len() <= 8 {
            joined(id_texts(ids@), ", "@)
        } else {
            joined(id_texts(ids@.take(8)), ", "@) + " \u{2026} (+"@ + decimal_text((ids@.len() - 8) as nat) + ")"@
        }),
{
    if ids.len() <= 8 {
        let texts = id_strings(ids, ids.len());
        assert(ids@.take(ids@.len() as int) =~= ids@);
        join(&texts, ", ")
    } else {
        let texts = id_strings(ids, 8);
        let mut r = join(&texts, ", ");
        let more = decimal((ids.len() - 8) as u64);
        r.append(" \u{2026} (+");
        r.append(more.as_str());
        r.append(")");
        r
    }
}

/// The units of sizes.
#[derive(Debug, Clone, Copy, PartialEq, Eq, Structural)]
pub enum ByteUnit {
    Bytes,
    Kilo,
    Mega,
    Giga,
    Tera,
}

/// The unit in which a size is shown, by powers of 1000 and up to the third one.
pub fn decimal_unit(bytes: u64) -> (u: ByteUnit)
    ensures
        u == (if bytes >= 1000000000 {
            ByteUnit::Giga
        } else if bytes >= 1000000 {
            ByteUnit::Mega
        } else if bytes >= 1000 {
            ByteUnit::Kilo
        } else {
            ByteUnit::Bytes
        }),
{
    if bytes >= 1000000000 {
        ByteUnit::Giga
    } else if bytes >= 1000000 {
        ByteUnit::Mega
    } else if bytes >= 1000 {
        ByteUnit::Kilo
    } else {
        ByteUnit::Bytes
    }
}

/// The unit in which a size is shown, by powers of 1024 and up to the fourth one.
pub fn binary_unit(bytes: u64) -> (u: ByteUnit)
    ensures
        u == (if bytes >= 1099511627776 {
            ByteUnit::Tera
        } else if bytes >= 1073741824 {
            ByteUnit::Giga
        } else if bytes >= 1048576 {
            ByteUnit::Mega
        } else if bytes >= 1024 {
            ByteUnit::Kilo
        } else {
            ByteUnit::Bytes
        }),
{
    if bytes >= 1099511627776 {
        ByteUnit::Tera
    } else if bytes >= 1073741824 {
        ByteUnit::Giga
    } else if bytes >= 1048576 {
        ByteUnit::Mega
    } else if bytes >= 1024 {
        ByteUnit::Kilo
    } else {
        ByteUnit::Bytes
    }
}

/// What became of a directory between two snapshots.
pub fn diff_status(e: &DiffEntry) -> (s: &'static str)
    ensures
        s@ == (if e.bytes_a is None {
            "new"@
        } else if e.bytes_b is None {
            "deleted"@
        } else if e.delta_bytes > 0 {
            "grew"@
        } else {
            "shrank"@
        }),
{
    if e.bytes_a.is_none() {
        "new"
    } else if e.bytes_b.is_none() {
        "deleted"
    } else if e.delta_bytes > 0 {
        "grew"
    } else {
        "shrank"
    }
}

/// How deep a path lies: its separators of either kind.
pub open spec fn depth_of(path: Seq<char>) -> nat {
    path.filter(|c: char| c == '/' || c == '\\').len()
}

fn path_depth(path: &str) -> (n: usize)
    ensures
        n == depth_of(path@),
{
    let chars = chars_of(path);
    let ghost pred = |c: char| c == '/' || c == '\\';
    let mut n: usize = 0;
    let mut i: usize = 0;
    proof {
        reveal(Seq::filter);
        assert(path@.take(0).filter(pred) =~= Seq::<char>::empty());
    }
    while i < chars.len()
        invariant
            chars@ == path@,
            pred == (|c: char| c == '/' || c == '\\'),
            i <= path@.len(),
            n <= i,
            n == path@.take(i as int).filter(pred).len(),
        decreases path@.len() - i,
    {
        proof {
            reveal(Seq::filter);
            assert(path@.take(i + 1).drop_last() =~= path@.take(i as int));
            assert(path@.take(i + 1).last() == path@[i as int]);
        }
        if chars[i] == '/' || chars[i] == '\\' {
            n = n + 1;
        }
        i = i + 1;
    }
    assert(path@.take(i as int) =~= path@);
    n
}

/// The entry is part of a report on growth: it grew and does not lie too deep.
pub open spec fn is_reported(e: DiffEntry, depth_limit: Option<u16>) -> bool {
    e.delta_bytes > 0 && (depth_limit is Some ==> depth_of(e.path@) % 65536 <= depth_limit->0)
}

/// The places of a list that meet a condition, in order.
pub open spec fn places(n: int, meets: spec_fn(int) -> bool) -> Seq<usize>
    decreases n,
{
    if n <= 0 {
        Seq::empty()
    } else if meets(n - 1) {
        places(n - 1, meets).push((n - 1) as usize)
    } else {
        places(n - 1, meets)
    }
}

/// The entries that a report on growth shows.
pub fn grown_entries(entries: &Vec<DiffEntry>, depth_limit: Option<u16>) -> (r: Vec<usize>)
    ensures
        r@ == places(entries@.len() as int, |i: int| is_reported(entries@[i], depth_limit)),
{
    let ghost meets = |i: int| is_reported(entries@[i], depth_limit);
    let mut r: Vec<usize> = Vec::new();
    let mut i: usize = 0;
    while i < entries.len()
        invariant
            meets == (|i: int| is_reported(entries@[i], depth_limit)),
            i <= entries@.len(),
            r@ == places(i as int, meets),
        decreases entries@.len() - i,
    {
        let e = &entries[i];
        let mut keep = e.delta_bytes > 0;
        if let Some(most) = depth_limit {
            let depth: usize = path_depth(e.path.as_str());
            keep = keep && depth % 65536 <= most as usize;
        }
        assert(keep == meets(i as int));
        if keep {
            r.push(i);
        }
        i = i + 1;
    }
    r
}

/// The entries that shrank.
pub fn shrunk_entries(entries: &Vec<DiffEntry>) -> (r: Vec<usize>)
    ensures
        r@ == places(entries@.len() as int, |i: int| entries@[i].delta_bytes < 0),
{
    let ghost meets = |i: int| entries@[i].delta_bytes < 0;
    let mut r: Vec<usize> = Vec::new();
    let mut i: usize = 0;
    while i < entries.len()
        invariant
            meets == (|i: int| entries@[i].delta_bytes < 0),
            i <= entries@.len(),
            r@ == places(i as int, meets),
        decreases entries@.len() - i,
    {
        assert(meets(i as int) == (entries@[i as int].delta_bytes < 0));
        if entries[i].delta_bytes < 0 {
            r.push(i);
        }
        i = i + 1;
    }
    r
}

/// Whole days, towards zero.
pub open spec fn days_of(seconds: int) -> int {
    if seconds >= 0 {
        seconds / 86400
    } else {
        -((-seconds) / 86400)
    }
}

/// The time between two snapshots in words.
pub fn timeframe(started_a: i64, started_b: i64) -> (r: String)
    requires
        i64::MIN <= started_b - started_a <= i64::MAX,
    ensures
        r@ == (if days_of(started_b - started_a) == 0 {
            "less than a day"@
        } else if days_of(started_b - started_a) == 1 {
            "1 day"@
        } else {
            integer_text(days_of(started_b - started_a)) + " days"@
        }),
{
    let seconds: i128 = started_b as i128 - started_a as i128;
    let days: i64 = if seconds >= 0 {
        (seconds / 86400) as i64
    } else {
        -((-seconds / 86400) as i64)
    };
    if days == 0 {
        "less than a day".to_owned()
    } else if days == 1 {
        "1 day".to_owned()
    } else {
        let mut r = signed_decimal(days);
        r.append(" days");
        r
    }
}

/// A root as it stands in a list: of one that is too long the last 27 bytes. There is no
/// text where they do not begin with a character.
pub fn root_short(root: &str) -> (r: Option<String>)
    ensures
        ({
            let bytes = encode_utf8(root@);
            let tail = bytes.skip(bytes.len() - 27);
            if bytes.len() <= 28 {
                r is Some && r->0@ == root@
            } else if valid_utf8(tail) {
                r is Some && r->0@ == "\u{2026}"@ + decode_utf8(tail)
            } else {
                r is None
            }
        }),
{
    let bytes = root.as_bytes();
    let n = bytes.len();
    if n <= 28 {
        return Some(root.to_owned());
    }
    let tail = vstd::slice::slice_subrange(bytes, n - 27, n);
    assert(tail@ =~= encode_utf8(root@).skip(n - 27));
    match utf8_text(tail) {
        Some(text) => {
            let mut r = "\u{2026}".to_owned();
            r.append(text.as_str());
            Some(r)
        },
        None => None,
    }
}

/// A size of a directory at some time.
#[derive(Debug, Clone, Copy)]
pub struct TimelineEntry {
    pub snapshot_id: i64,
    pub timestamp: i64,
    pub total_bytes: i64,
}

/// The change from each entry to the next; there is none for the first one.
pub fn timeline_changes(entries: &Vec<TimelineEntry>) -> (r: Vec<Option<i64>>)
    requires
        forall|i: int|
            #![trigger entries@[i]]
            0 < i < entries@.len() ==> i64::MIN <= entries@[i].total_bytes - entries@[i - 1].total_bytes <= i64::MAX,
    ensures
        r@.len() == entries@.len(),
        forall|i: int|
            0 <= i < r@.len() ==> #[trigger] r@[i] == (if i == 0 {
                None::<i64>
            } else {
                Some((entries@[i].total_bytes - entries@[i - 1].total_bytes) as i64)
            }),
{
    let mut r: Vec<Option<i64>> = Vec::new();
    let mut i: usize = 0;
    while i < entries.len()
        invariant
            forall|i: int|
                #![trigger entries@[i]]
                0 < i < entries@.len() ==> i64::MIN <= entries@[i].total_bytes - entries@[i - 1].total_bytes
                    <= i64::MAX,
            i <= entries@.len(),
            r@.len() == i,
            forall|k: int|
                0 <= k < i ==> #[trigger] r@[k] == (if k == 0 {
                    None::<i64>
                } else {
                    Some((entries@[k].total_bytes - entries@[k - 1].total_bytes) as i64)
                }),
        decreases entries@.len() - i,
    {
        if i == 0 {
            r.push(None);
        } else {
            let now = entries[i].total_bytes;
            let before = entries[i - 1].total_bytes;
            assert(entries@[i as int].total_bytes == now);
            r.push(Some(now - before));
        }
        i = i + 1;
    }
    r
}

/// How long ago something was, in words, given the seconds since.
pub open spec fn ago_text(seconds: Option<i64>, at: Seq<char>) -> Seq<char> {
    match seconds {
        None => at,
        Some(s) => if s < 60 {
            "just now"@
        } else if s < 3600 {
            decimal_text((s / 60) as nat) + "m ago"@
        } else if s < 86400 {
            decimal_text((s / 3600) as nat) + "h ago"@
        } else {
            decimal_text((s / 86400) as nat) + "d ago"@
        },
    }
}

/// How long ago something was, in words, given the seconds since; where they are not
/// known, what it was given as.
pub fn time_ago(seconds: Option<i64>, at: &str) -> (r: String)
    ensures
        r@ == ago_text(seconds, at@),
{
    match seconds {
        None => at.to_owned(),
        Some(s) => {
            if s < 60 {
                "just now".to_owned()
            } else if s < 3600 {
                let mut r = decimal((s / 60) as u64);
                r.append("m ago");
                r
            } else if s < 86400 {
                let mut r = decimal((s / 3600) as u64);
                r.append("h ago");
                r
            } else {
                let mut r = decimal((s / 86400) as u64);
                r.append("d ago");
                r
            }
        },
    }
}

/// How long ago a moment was, in words.
pub fn format_relative_time(at: &str, now_seconds: i64, now_nanos: u32) -> (r: String)
    ensures
        r@ == ago_text(elapsed_seconds(at@, now_seconds, now_nanos), at@),
{
    time_ago(seconds_since(at, now_seconds, now_nanos), at)
}

/// The character is an ASCII letter.
pub open spec fn is_letter(c: char) -> bool {
    'a' <= c <= 'z' || 'A' <= c <= 'Z'
}

/// The volume that a path names by its drive, or a letter by itself.
pub open spec fn volume_of(p: Seq<char>) -> Option<Seq<char>> {
    let t = trimmed(p);
    if has_drive(t) {
        Some(seq![ascii_upper_char(t[0]), ':'])
    } else if t.len() == 1 && is_letter(t[0]) {
        Some(seq![ascii_upper_char(t[0]), ':'])
    } else {
        None
    }
}

/// The volume that a path names.
pub fn resolve_volume_from_path(p: &str) -> (r: Option<String>)
    ensures
        opt_text(r) == volume_of(p@),
{
    let t = trim(p);
    let chars = chars_of(t.as_str());
    let n = chars.len();
    let named = if n >= 2 {
        chars[0] <= '\u{7f}' && chars[1] == ':'
    } else if n == 1 {
        ('a' <= chars[0] && chars[0] <= 'z') || ('A' <= chars[0] && chars[0] <= 'Z')
    } else {
        false
    };
    if named {
        let mut r = String::new();
        r.push(upper_char(chars[0]));
        r.push(':');
        assert(r@ =~= seq![ascii_upper_char(chars@[0]), ':']);
        Some(r)
    } else {
        None
    }
}

/// The volume of a path, of the working directory, or `C:`.
pub open spec fn volume_or_cwd(p: Seq<char>, cwd: Option<Seq<char>>) -> Seq<char> {
    if volume_of(p) is Some {
        volume_of(p)->0
    } else if cwd is Some && volume_of(cwd->0) is Some {
        volume_of(cwd->0)->0
    } else {
        "C:"@
    }
}

/// The volume of a path, of the working directory, or `C:`.
pub fn resolve_volume_from_path_or_cwd(p: &str, cwd: &Option<String>) -> (r: String)
    ensures
        r@ == volume_or_cwd(p@, opt_text(*cwd)),
{
    if let Some(v) = resolve_volume_from_path(p) {
        return v;
    }
    if let Some(dir) = cwd {
        if let Some(v) = resolve_volume_from_path(dir.as_str()) {
            return v;
        }
    }
    "C:".to_owned()
}

/// The volumes of which a snapshot is taken: that of the path that is given, or else all
/// that the daemon knows, or the one of the working directory where it knows none.
pub fn volumes_to_snapshot(all: bool, path: &Option<String>, known: Vec<String>, cwd: &Option<String>) -> (r: Vec<String>)
    ensures
        views(r@) == (if !all && path is Some {
            seq![volume_or_cwd(path->0@, opt_text(*cwd))]
        } else if known@.len() > 0 {
            views(known@)
        } else {
            seq![volume_or_cwd(""@, opt_text(*cwd))]
        }),
{
    let mut r: Vec<String> = Vec::new();
    if !all {
        if let Some(p) = path {
            r.push(resolve_volume_from_path_or_cwd(p.as_str(), cwd));
            assert(views(r@) =~= seq![volume_or_cwd(path->0@, opt_text(*cwd))]);
            return r;
        }
    }
    if known.len() > 0 {
        return known;
    }
    r.push(resolve_volume_from_path_or_cwd("", cwd));
    assert(views(r@) =~= seq![volume_or_cwd(""@, opt_text(*cwd))]);
    r
}

/// One letter for each attribute that is there.
pub open spec fn flags_of(attributes: Seq<Seq<char>>) -> Seq<char> {
    let letters = flag(attributes, "readonly"@, 'R') + flag(attributes, "hidden"@, 'H') + flag(
        attributes,
        "system"@,
        'S',
    ) + flag(attributes, "archive"@, 'A') + flag(attributes, "reparse"@, 'L');
    if letters.len() == 0 {
        "-"@
    } else {
        letters
    }
}

/// The letter of an attribute, if it is there.
pub open spec fn flag(attributes: Seq<Seq<char>>, name: Seq<char>, letter: char) -> Seq<char> {
    if attributes.contains(name) {
        seq![letter]
    } else {
        Seq::empty()
    }
}

fn add_flag(flags: &mut Vec<char>, attributes: &Vec<String>, name: &str, letter: char)
    ensures
        final(flags)@ == old(flags)@ + flag(views(attributes@), name@, letter),
{
    if is_among(attributes, name) {
        flags.push(letter);
        assert(flags@ =~= old(flags)@ + seq![letter]);
    } else {
        assert(flags@ =~= old(flags)@ + Seq::<char>::empty());
    }
}

/// The attributes of a file as letters.
pub fn attribute_flags(attributes: &Vec<String>) -> (r: String)
    ensures
        r@ == flags_of(views(attributes@)),
{
    let ghost all = views(attributes@);
    let mut flags: Vec<char> = Vec::new();
    add_flag(&mut flags, attributes, "readonly", 'R');
    add_flag(&mut flags, attributes, "hidden", 'H');
    add_flag(&mut flags, attributes, "system", 'S');
    add_flag(&mut flags, attributes, "archive", 'A');
    add_flag(&mut flags, attributes, "reparse", 'L');
    assert(flags@ =~= flag(all, "readonly"@, 'R') + flag(all, "hidden"@, 'H') + flag(all, "system"@, 'S') + flag(
        all,
        "archive"@,
        'A',
    ) + flag(all, "reparse"@, 'L'));
    if flags.len() == 0 {
        "-".to_owned()
    } else {
        string_of(flags.as_slice())
    }
}

/// The last entry before `i` of the same file stands at `j`.
pub open spec fn is_previous(rows: Seq<HistoryEntry>, i: int, j: int) -> bool {
    &&& 0 <= j < i
    &&& rows[j].file_id == rows[i].file_id
    &&& forall|k: int| j < k < i ==> (#[trigger] rows[k]).file_id != rows[i].file_id
}

/// What is said of an entry of a history: for one that was renamed, what its name was,
/// if an entry that stands before shows it.
pub open spec fn is_rename_detail(rows: Seq<HistoryEntry>, i: int, text: Seq<char>) -> bool {
    if ascii_lower(rows[i].kind@) != ascii_lower("renamed"@) {
        text == ""@
    } else if exists|j: int| #[trigger] is_previous(rows, i, j) {
        exists|j: int| #[trigger] is_previous(rows, i, j) && text == "Renamed from "@ + rows[j].name@
    } else {
        text == "Renamed"@
    }
}

/// What is said of each entry of a history.
pub fn rename_details(rows: &Vec<HistoryEntry>) -> (r: Vec<String>)
    ensures
        r@.len() == rows@.len(),
        forall|i: int| 0 <= i < r@.len() ==> is_rename_detail(rows@, i, (#[trigger] r@[i])@),
{
    let mut seen: HashMap<u64, usize> = HashMap::new();
    let mut r: Vec<String> = Vec::new();
    let mut i: usize = 0;
    while i < rows.len()
        invariant
            i <= rows@.len(),
            r@.len() == i,
            forall|k: int| 0 <= k < i ==> is_rename_detail(rows@, k, (#[trigger] r@[k])@),
            forall|id: u64| #[trigger]
                seen@.contains_key(id) ==> {
                    &&& seen@[id] < i
                    &&& rows@[seen@[id] as int].file_id == id
                    &&& forall|k: int| seen@[id] < k < i ==> (#[trigger] rows@[k]).file_id != id
                },
            forall|k: int| 0 <= k < i ==> seen@.contains_key((#[trigger] rows@[k]).file_id),
        decreases rows@.len() - i,
    {
        let row = &rows[i];
        let id = row.file_id;
        let before = seen.get(&id);
        let text = if !eq_ignore_case(row.kind.as_str(), "renamed") {
            "".to_owned()
        } else {
            match before {
                Some(j) => {
                    proof {
                        assert(is_previous(rows@, i as int, *j as int));
                    }
                    let mut t = "Renamed from ".to_owned();
                    t.append(rows[*j].name.as_str());
                    t
                },
                None => {
                    proof {
                        assert forall|j: int| !(#[trigger] is_previous(rows@, i as int, j)) by {
                            if is_previous(rows@, i as int, j) {
                                assert(seen@.contains_key(rows@[j].file_id));
                            }
                        }
                    }
                    "Renamed".to_owned()
                },
            }
        };
        r.push(text);
        seen.insert(id, i);
        i = i + 1;
    }
    r
}

/// A path as a comparison shows it: with its old name if it was renamed.
pub fn display_path(path: &str, kind: &str, old_name: &Option<String>) -> (r: String)
    ensures
        r@ == (if ascii_lower(kind@) == ascii_lower("renamed"@) && old_name is Some {
            path@ + " (Renamed from "@ + old_name->0@ + ")"@
        } else {
            path@
        }),
{
    let mut r = path.to_owned();
    if eq_ignore_case(kind, "renamed") {
        if let Some(old) = old_name {
            r.append(" (Renamed from ");
            r.append(old.as_str());
            r.append(")");
        }
    }
    r
}

/// The width of a column: that of the widest text in it, and at least `least`.
pub open spec fn width_of(least: nat, texts: Seq<Seq<char>>) -> nat
    decreases texts.len(),
{
    if texts.len() == 0 {
        least
    } else {
        let rest = width_of(least, texts.drop_last());
        if encode_utf8(texts.last()).len() > rest {
            encode_utf8(texts.last()).len()
        } else {
            rest
        }
    }
}

/// The width of a column in bytes.
pub fn column_width(least: usize, texts: &Vec<String>) -> (w: usize)
    ensures
        w == width_of(least as nat, views(texts@)),
{
    let ghost all = views(texts@);
    let mut w: usize = least;
    let mut i: usize = 0;
    assert(all.take(0) =~= Seq::<Seq<char>>::empty());
    while i < texts.len()
        invariant
            all == views(texts@),
            i <= texts@.len(),
            w == width_of(least as nat, all.take(i as int)),
        decreases texts@.len() - i,
    {
        assert(all.take(i + 1).drop_last() =~= all.take(i as int));
        assert(all.take(i + 1).last() == texts@[i as int]@);
        let n = texts[i].as_str().as_bytes().len();
        if n > w {
            w = n;
        }
        i = i + 1;
    }
    assert(all.take(i as int) =~= all);
    w
}

/// A name of a tree of changes: in the color of what has happened to it and with the
/// change of its size, or by itself where nothing has.
pub open spec fn change_text(
    kind: Seq<char>,
    name: Seq<char>,
    old_name: Option<Seq<char>>,
    delta: Seq<char>,
    directory: bool,
) -> Seq<char> {
    if kind == "Created"@ {
        "\u{1b}[32m+ "@ + name + " ("@ + delta + ")\u{1b}[0m"@
    } else if kind == "Deleted"@ {
        "\u{1b}[31m- "@ + name + " ("@ + delta + ")\u{1b}[0m"@
    } else if kind == "Renamed"@ {
        "\u{1b}[33m~ "@ + name + " (Renamed from "@ + (match old_name {
            Some(old) => old,
            None => "unknown"@,
        }) + ", "@ + delta + ")\u{1b}[0m"@
    } else if kind == "Modified"@ {
        "\u{1b}[36m~ "@ + name + " ("@ + delta + ")\u{1b}[0m"@
    } else if directory {
        name + "/"@
    } else {
        name
    }
}

fn colored(before: &str, name: &str, delta: &str) -> (r: String)
    ensures
        r@ == before@ + name@ + " ("@ + delta@ + ")\u{1b}[0m"@,
{
    let mut r = before.to_owned();
    r.append(name);
    r.append(" (");
    r.append(delta);
    r.append(")\u{1b}[0m");
    r
}

/// A name of a tree of changes, as it is shown.
pub fn change_line(kind: &str, name: &str, old_name: Option<&str>, delta: &str, directory: bool) -> (r: String)
    ensures
        r@ == change_text(kind@, name@, opt_str(old_name), delta@, directory),
{
    if str_eq(kind, "Created") {
        colored("\u{1b}[32m+ ", name, delta)
    } else if str_eq(kind, "Deleted") {
        colored("\u{1b}[31m- ", name, delta)
    } else if str_eq(kind, "Renamed") {
        let mut r = "\u{1b}[33m~ ".to_owned();
        r.append(name);
        r.append(" (Renamed from ");
        match old_name {
            Some(old) => {
                r.append(old);
            },
            None => {
                r.append("unknown");
            },
        }
        r.append(", ");
        r.append(delta);
        r.append(")\u{1b}[0m");
        r
    } else if str_eq(kind, "Modified") {
        colored("\u{1b}[36m~ ", name, delta)
    } else {
        let mut r = name.to_owned();
        if directory {
            r.append("/");
        }
        r
    }
}

/// The volumes of results that are among the incomplete ones, each where it first stands.
pub open spec fn incomplete_among(results: Seq<Seq<char>>, incomplete: Seq<Seq<char>>) -> Seq<Seq<char>>
    decreases results.len(),
{
    if results.len() == 0 {
        Seq::empty()
    } else {
        let rest = incomplete_among(results.drop_last(), incomplete);
        if incomplete.contains(results.last()) && !rest.contains(results.last()) {
            rest.push(results.last())
        } else {
            rest
        }
    }
}

/// The volumes of which results may be missing, in the order of the results.
pub fn incomplete_shown(results: &Vec<String>, incomplete: &Vec<String>) -> (r: Vec<String>)
    ensures
        views(r@) == incomplete_among(views(results@), views(incomplete@)),
{
    let ghost all = views(results@);
    let mut r: Vec<String> = Vec::new();
    let mut i: usize = 0;
    assert(all.take(0) =~= Seq::<Seq<char>>::empty());
    assert(views(r@) =~= Seq::<Seq<char>>::empty());
    while i < results.len()
        invariant
            all == views(results@),
            i <= results@.len(),
            views(r@) == incomplete_among(all.take(i as int), views(incomplete@)),
        decreases results@.len() - i,
    {
        let name = results[i].as_str();
        assert(all.take(i + 1).drop_last() =~= all.take(i as int));
        assert(all.take(i + 1).last() == name@);
        if is_among(incomplete, name) && !is_among(&r, name) {
            let ghost before = r@;
            r.push(name.to_owned());
            assert(views(r@) =~= views(before).push(name@));
        }
        i = i + 1;
    }
    assert(all.take(i as int) =~= all);
    r
}

} // verus!
