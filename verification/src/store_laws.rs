//! What the rows of a scan, references to snapshots, durations and pruning come to.

use crate::arena::{NodeHot, PathlessArena};
use crate::config::{
    count_of, digit_behind_unit, digit_count, duration_error, duration_seconds, lemma_digit_count,
    unit_of, unit_seconds,
};
use crate::decimal::{
    all_digits, decimal_text, i64_value, integer_text, is_digit, law_decimal_roundtrip,
    law_integer_roundtrip,
};
use crate::prune::{candidates, cutoff_of, is_candidate, is_kept, kept_count};
use crate::store::{
    children_files, files_below, is_first_since, is_resolved, is_scan_row, seconds_back, unit_days,
    DirRow, SnapshotTime,
};
use crate::sums::{lemma_total_push, total};
use crate::text::{is_white, trimmed, trimmed_front};
use vstd::prelude::*;

verus! {

proof fn lemma_children_sum(hot: Seq<NodeHot>, counts: Seq<int>, i: int, j: int)
    requires
        0 <= i < j <= hot.len(),
        counts.len() == hot.len(),
        forall|k: int| 0 <= k < hot.len() ==> #[trigger] counts[k] == files_below(hot, k),
    ensures
        children_files(hot, i, j) == total(
            Seq::new(
                (hot.len() - j) as nat,
                |k: int|
                    if hot[j + k].parent == i {
                        counts[j + k]
                    } else {
                        0
                    },
            ),
        ),
    decreases hot.len() - j,
{
    let s = Seq::new(
        (hot.len() - j) as nat,
        |k: int|
            if hot[j + k].parent == i {
                counts[j + k]
            } else {
                0
            },
    );
    if j < hot.len() {
        lemma_children_sum(hot, counts, i, j + 1);
        let rest = Seq::new(
            (hot.len() - j - 1) as nat,
            |k: int|
                if hot[j + 1 + k].parent == i {
                    counts[j + 1 + k]
                } else {
                    0
                },
        );
        assert(counts[j] == files_below(hot, j));
        assert(s =~= seq![s[0]] + rest);
        crate::sums::lemma_total_add(seq![s[0]], rest);
        assert(seq![s[0]] =~= Seq::<int>::empty().push(s[0]));
        lemma_total_push(Seq::empty(), s[0]);
    } else {
        assert(s =~= Seq::<int>::empty());
    }
}

/// A row counts the files of its directory and those that the rows of the directories
/// inside it count.
pub proof fn law_row_files(arena: &PathlessArena, rows: Seq<DirRow>, i: int)
    requires
        rows.len() == arena.hot@.len(),
        forall|k: int| 0 <= k < rows.len() ==> is_scan_row(arena, k, #[trigger] rows[k]),
        forall|k: int| 0 < k < arena.hot@.len() ==> (#[trigger] arena.hot@[k]).parent < k,
        0 <= i < rows.len(),
    ensures
        rows[i].file_count == arena.hot@[i].file_count + total(
            Seq::new(
                rows.len(),
                |k: int|
                    if k > 0 && arena.hot@[k].parent == i {
                        rows[k].file_count as int
                    } else {
                        0
                    },
            ),
        ),
{
    let hot = arena.hot@;
    let counts = Seq::new(hot.len(), |k: int| rows[k].file_count as int);
    assert forall|k: int| 0 <= k < hot.len() implies #[trigger] counts[k] == files_below(hot, k) by {
        assert(is_scan_row(arena, k, rows[k]));
    }
    lemma_children_sum(hot, counts, i, i + 1);
    let tail = Seq::new(
        (hot.len() - i - 1) as nat,
        |k: int|
            if hot[i + 1 + k].parent == i {
                counts[i + 1 + k]
            } else {
                0
            },
    );
    let all = Seq::new(
        rows.len(),
        |k: int|
            if k > 0 && hot[k].parent == i {
                rows[k].file_count as int
            } else {
                0
            },
    );
    let head = all.take(i + 1);
    assert forall|k: int| 0 <= k < head.len() implies #[trigger] head[k] == 0 by {
        if k > 0 {
            assert(hot[k].parent < k);
        }
    }
    crate::sums::lemma_total_zero(head);
    assert(all =~= head + tail);
    crate::sums::lemma_total_add(head, tail);
    assert(counts[i] == files_below(hot, i));
}

/// The seconds that a number of days, weeks or months of thirty days goes back.
proof fn lemma_back(n: nat, unit: char)
    requires
        n <= i64::MAX,
        unit == 'd' || unit == 'w' || unit == 'm',
    ensures
        seconds_back(decimal_text(n).push(unit)) == Some(
            n * (if unit == 'd' {
                86400int
            } else if unit == 'w' {
                604800
            } else {
                2592000
            }),
        ),
        i64_value(decimal_text(n).push(unit)) is None,
{
    let t = decimal_text(n);
    let s = t.push(unit);
    law_integer_roundtrip(n as int);
    assert(integer_text(n as int) == t);
    assert(s.drop_last() =~= t);
    law_decimal_roundtrip(n);
    assert(is_digit(t[0]));
    assert(s[0] == t[0]);
    assert(!is_digit(unit));
    assert(s[t.len() as int] == unit);
    assert(!all_digits(s));
    let days: int = unit_days(unit)->0;
    assert(n * days * 86400 == n * (days * 86400)) by (nonlinear_arith);
}

/// Of snapshots with different numbers, the newest first, exactly those are pruned that do
/// not belong to the newest ones to be kept, one at least, and that were begun more than the
/// given number of days, weeks or months of thirty days before now.
pub proof fn law_pruned_by_age(
    snapshots: Seq<SnapshotTime>,
    keep_last: Option<usize>,
    n: nat,
    unit: char,
    now: int,
    i: int,
)
    requires
        n <= i64::MAX,
        unit == 'd' || unit == 'w' || unit == 'm',
        0 <= i < snapshots.len(),
        forall|a: int, b: int|
            0 <= a < b < snapshots.len() ==> (#[trigger] snapshots[a]).id != (#[trigger] snapshots[b]).id,
    ensures
        candidates(snapshots, kept_count(keep_last), cutoff_of(Some(decimal_text(n).push(unit)), now)).contains(
            snapshots[i].id,
        ) <==> i >= 1 && (keep_last is Some ==> i >= keep_last->0) && snapshots[i].started_at + n * (if unit == 'd' {
            86400int
        } else if unit == 'w' {
            604800
        } else {
            2592000
        }) < now,
{
    lemma_back(n, unit);
    lemma_candidate(snapshots, kept_count(keep_last), cutoff_of(Some(decimal_text(n).push(unit)), now), i);
}

/// Without an age, all but the newest ones are pruned.
pub proof fn law_pruned_by_number(snapshots: Seq<SnapshotTime>, keep_last: Option<usize>, now: int, i: int)
    requires
        0 <= i < snapshots.len(),
        forall|a: int, b: int|
            0 <= a < b < snapshots.len() ==> (#[trigger] snapshots[a]).id != (#[trigger] snapshots[b]).id,
    ensures
        candidates(snapshots, kept_count(keep_last), cutoff_of(None, now)).contains(snapshots[i].id) <==> i >= 1 && (
        keep_last is Some ==> i >= keep_last->0),
{
    lemma_candidate(snapshots, kept_count(keep_last), cutoff_of(None, now), i);
}

proof fn lemma_candidate(snapshots: Seq<SnapshotTime>, keep: int, cutoff: Option<int>, i: int)
    requires
        0 <= i < snapshots.len(),
        forall|a: int, b: int|
            0 <= a < b < snapshots.len() ==> (#[trigger] snapshots[a]).id != (#[trigger] snapshots[b]).id,
    ensures
        candidates(snapshots, keep, cutoff).contains(snapshots[i].id) <==> i >= keep && (cutoff is Some
            ==> snapshots[i].started_at < cutoff->0),
{
    let pred = |s: SnapshotTime| is_candidate(snapshots, keep, cutoff, s);
    let left = snapshots.filter(pred);
    let ids = candidates(snapshots, keep, cutoff);
    assert(is_kept(snapshots, keep, snapshots[i].id) <==> i < keep) by {
        if is_kept(snapshots, keep, snapshots[i].id) {
            let k = choose|k: int| 0 <= k < keep && k < snapshots.len() && (#[trigger] snapshots[k]).id == snapshots[i].id;
            if k < i {
                assert(snapshots[k].id != snapshots[i].id);
            } else if i < k {
                assert(snapshots[i].id != snapshots[k].id);
            }
        }
    }
    if pred(snapshots[i]) {
        snapshots.lemma_filter_contains(pred, i);
        let k = choose|k: int| 0 <= k < left.len() && left[k] == snapshots[i];
        assert(ids[k] == snapshots[i].id);
    }
    if ids.contains(snapshots[i].id) {
        let k = choose|k: int| 0 <= k < ids.len() && ids[k] == snapshots[i].id;
        snapshots.lemma_filter_pred(pred, k);
        snapshots.lemma_filter_contains_rev(pred, left[k]);
        let j = choose|j: int| 0 <= j < snapshots.len() && snapshots[j] == left[k];
        assert(snapshots[j].id == snapshots[i].id);
        if j < i {
            assert(snapshots[j].id != snapshots[i].id);
        } else if i < j {
            assert(snapshots[i].id != snapshots[j].id);
        }
    }
}

/// A number refers to the snapshot with that number.
pub proof fn law_number_refers(id: i64, date: Option<i64>, now: int, snapshots: Seq<SnapshotTime>, r: Result<i64, String>)
    requires
        is_resolved(integer_text(id as int), date, now, snapshots, r),
    ensures
        r == Ok::<i64, String>(id),
{
    law_integer_roundtrip(id as int);
}

/// A number of days, weeks or months back refers to the earliest snapshot that was begun
/// since; there is an error exactly if none was.
pub proof fn law_time_back_refers(
    n: nat,
    unit: char,
    date: Option<i64>,
    now: int,
    snapshots: Seq<SnapshotTime>,
    r: Result<i64, String>,
)
    requires
        n <= i64::MAX,
        unit == 'd' || unit == 'w' || unit == 'm',
        is_resolved(decimal_text(n).push(unit), date, now, snapshots, r),
    ensures
        ({
            let since = now - n * (if unit == 'd' {
                86400int
            } else if unit == 'w' {
                604800
            } else {
                2592000
            });
            &&& r is Ok <==> exists|i: int| 0 <= i < snapshots.len() && (#[trigger] snapshots[i]).started_at >= since
            &&& r is Ok ==> exists|i: int|
                0 <= i < snapshots.len() && (#[trigger] snapshots[i]).id == r->Ok_0 && snapshots[i].started_at >= since
                    && forall|j: int|
                    0 <= j < snapshots.len() && (#[trigger] snapshots[j]).started_at >= since ==> snapshots[i].started_at
                        <= snapshots[j].started_at
        }),
{
    lemma_back(n, unit);
    let since = now - seconds_back(decimal_text(n).push(unit))->0;
    if r is Ok {
        let i = choose|i: int| #[trigger] is_first_since(snapshots, since, i) && snapshots[i].id == r->Ok_0;
        assert(snapshots[i].id == r->Ok_0);
    }
}

/// A day refers to the earliest snapshot that was begun since its beginning.
pub proof fn law_date_refers(s: Seq<char>, date: i64, now: int, snapshots: Seq<SnapshotTime>, r: Result<i64, String>)
    requires
        i64_value(s) is None,
        seconds_back(s) is None,
        is_resolved(s, Some(date), now, snapshots, r),
    ensures
        r is Ok <==> exists|i: int| 0 <= i < snapshots.len() && (#[trigger] snapshots[i]).started_at >= date,
        r is Ok ==> exists|i: int|
            0 <= i < snapshots.len() && (#[trigger] snapshots[i]).id == r->Ok_0 && snapshots[i].started_at >= date
                && forall|j: int|
                0 <= j < snapshots.len() && (#[trigger] snapshots[j]).started_at >= date ==> snapshots[i].started_at
                    <= snapshots[j].started_at,
{
    if r is Ok {
        let i = choose|i: int| #[trigger] is_first_since(snapshots, date as int, i) && snapshots[i].id == r->Ok_0;
        assert(snapshots[i].id == r->Ok_0);
    }
}

proof fn lemma_trimmed_same(s: Seq<char>)
    requires
        s.len() > 0 ==> !is_white(s[0]) && !is_white(s.last()),
    ensures
        trimmed(s) == s,
{
}

proof fn lemma_counted(n: nat, u: Seq<char>)
    requires
        forall|i: int| 0 <= i < u.len() ==> !is_digit(#[trigger] u[i]),
    ensures
        digit_count(decimal_text(n) + u) == decimal_text(n).len(),
        !digit_behind_unit(decimal_text(n) + u),
        count_of(decimal_text(n) + u) == n,
        unit_of(decimal_text(n) + u) == trimmed(u),
        decimal_text(n).len() > 0,
{
    let t = decimal_text(n);
    let s = t + u;
    law_decimal_roundtrip(n);
    lemma_digit_count(s);
    let k = digit_count(s) as int;
    if k < t.len() {
        assert(s[k] == t[k]);
        assert(is_digit(t[k]));
    }
    if k > t.len() {
        let j = t.len() as int;
        assert(is_digit(s[j]));
        assert(s[j] == u[0]);
    }
    assert(s.take(k) =~= t);
    assert(s.skip(k) =~= u);
    assert forall|i: int| k <= i < s.len() implies !is_digit(#[trigger] s[i]) by {
        assert(s[i] == u[i - k]);
    }
}

/// A positive number with a unit behind it, with or without a blank between, is a duration
/// of that many times the unit.
pub proof fn law_duration(n: nat, unit: Seq<char>, seconds: int, blank: bool)
    requires
        0 < n <= i64::MAX,
        (unit == "s"@ || unit == "sec"@ || unit == "second"@ || unit == "seconds"@) && seconds == 1 || (unit == "min"@
            || unit == "minute"@ || unit == "minutes"@) && seconds == 60 || (unit == "h"@ || unit == "hr"@ || unit
            == "hour"@ || unit == "hours"@) && seconds == 60 * 60 || (unit == "d"@ || unit == "day"@ || unit == "days"@)
            && seconds == 24 * 60 * 60 || (unit == "w"@ || unit == "week"@ || unit == "weeks"@) && seconds == 7 * 24
            * 60 * 60 || (unit == "m"@ || unit == "mo"@ || unit == "month"@ || unit == "months"@) && seconds == 30 * 24
            * 60 * 60 || (unit == "y"@ || unit == "year"@ || unit == "years"@) && seconds == 365 * 24 * 60 * 60,
    ensures
        ({
            let s = if blank {
                decimal_text(n).push(' ') + unit
            } else {
                decimal_text(n) + unit
            };
            &&& duration_error(s) is None
            &&& duration_seconds(s) == n * seconds
        }),
{
    lemma_unit(unit);
    let u = if blank {
        seq![' '] + unit
    } else {
        unit
    };
    assert(!is_digit(' '));
    assert forall|i: int| 0 <= i < u.len() implies !is_digit(#[trigger] u[i]) by {
        if blank && i > 0 {
            assert(u[i] == unit[i - 1]);
        }
    }
    lemma_counted(n, u);
    lemma_trimmed_same(unit);
    if blank {
        assert(trimmed_front(u) == trimmed_front(u.skip(1)));
        assert(u.skip(1) =~= unit);
        assert(decimal_text(n) + u =~= decimal_text(n).push(' ') + unit);
    }
    lemma_unit_seconds(unit, seconds);
}

/// A number without a unit is one of days.
pub proof fn law_bare_number(n: nat)
    requires
        0 < n <= i64::MAX,
    ensures
        duration_error(decimal_text(n)) is None,
        duration_seconds(decimal_text(n)) == n * 24 * 60 * 60,
{
    let u = Seq::<char>::empty();
    lemma_counted(n, u);
    lemma_trimmed_same(u);
    assert(decimal_text(n) + u =~= decimal_text(n));
    reveal_strlit("");
    reveal_strlit("s");
    reveal_strlit("sec");
    reveal_strlit("second");
    reveal_strlit("seconds");
    reveal_strlit("min");
    reveal_strlit("minute");
    reveal_strlit("minutes");
    reveal_strlit("h");
    reveal_strlit("hr");
    reveal_strlit("hour");
    reveal_strlit("hours");
    assert(""@ =~= u);
    assert("s"@.len() == 1 && "sec"@.len() == 3 && "second"@.len() == 6 && "seconds"@.len() == 7);
    assert("min"@.len() == 3 && "minute"@.len() == 6 && "minutes"@.len() == 7);
    assert("h"@.len() == 1 && "hr"@.len() == 2 && "hour"@.len() == 4 && "hours"@.len() == 5);
    assert(n * 86400 == n * 24 * 60 * 60) by (nonlinear_arith);
}

/// The letters of a unit.
proof fn lemma_unit(unit: Seq<char>)
    requires
        unit == "s"@ || unit == "sec"@ || unit == "second"@ || unit == "seconds"@ || unit == "min"@ || unit == "minute"@
            || unit == "minutes"@ || unit == "h"@ || unit == "hr"@ || unit == "hour"@ || unit == "hours"@ || unit == "d"@
            || unit == "day"@ || unit == "days"@ || unit == "w"@ || unit == "week"@ || unit == "weeks"@ || unit == "m"@
            || unit == "mo"@ || unit == "month"@ || unit == "months"@ || unit == "y"@ || unit == "year"@ || unit
            == "years"@,
    ensures
        unit.len() > 0,
        forall|i: int| 0 <= i < unit.len() ==> 'a' <= #[trigger] unit[i] <= 'z',
        !is_white(unit[0]),
        !is_white(unit.last()),
{
    reveal_strlit("s");
    reveal_strlit("sec");
    reveal_strlit("second");
    reveal_strlit("seconds");
    reveal_strlit("min");
    reveal_strlit("minute");
    reveal_strlit("minutes");
    reveal_strlit("h");
    reveal_strlit("hr");
    reveal_strlit("hour");
    reveal_strlit("hours");
    reveal_strlit("d");
    reveal_strlit("day");
    reveal_strlit("days");
    reveal_strlit("w");
    reveal_strlit("week");
    reveal_strlit("weeks");
    reveal_strlit("m");
    reveal_strlit("mo");
    reveal_strlit("month");
    reveal_strlit("months");
    reveal_strlit("y");
    reveal_strlit("year");
    reveal_strlit("years");
    let n = unit.len() as int;
    assert('a' <= unit[0] <= 'z');
    assert('a' <= unit[n - 1] <= 'z');
}

/// The unit has its seconds.
proof fn lemma_unit_seconds(unit: Seq<char>, seconds: int)
    requires
        (unit == "s"@ || unit == "sec"@ || unit == "second"@ || unit == "seconds"@) && seconds == 1 || (unit == "min"@
            || unit == "minute"@ || unit == "minutes"@) && seconds == 60 || (unit == "h"@ || unit == "hr"@ || unit
            == "hour"@ || unit == "hours"@) && seconds == 3600 || (unit == "d"@ || unit == "day"@ || unit == "days"@)
            && seconds == 86400 || (unit == "w"@ || unit == "week"@ || unit == "weeks"@) && seconds == 604800 || (unit
            == "m"@ || unit == "mo"@ || unit == "month"@ || unit == "months"@) && seconds == 2592000 || (unit == "y"@
            || unit == "year"@ || unit == "years"@) && seconds == 31536000,
    ensures
        unit_seconds(unit) == Some(seconds),
{
    reveal_strlit("");
    reveal_strlit("s");
    reveal_strlit("sec");
    reveal_strlit("second");
    reveal_strlit("seconds");
    reveal_strlit("min");
    reveal_strlit("minute");
    reveal_strlit("minutes");
    reveal_strlit("h");
    reveal_strlit("hr");
    reveal_strlit("hour");
    reveal_strlit("hours");
    reveal_strlit("d");
    reveal_strlit("day");
    reveal_strlit("days");
    reveal_strlit("w");
    reveal_strlit("week");
    reveal_strlit("weeks");
    reveal_strlit("m");
    reveal_strlit("mo");
    reveal_strlit("month");
    reveal_strlit("months");
    reveal_strlit("y");
    reveal_strlit("year");
    reveal_strlit("years");
    assert(""@.len() == 0);
    assert("s"@.len() == 1 && "s"@[0] == 's');
    assert("sec"@.len() == 3 && "sec"@[0] == 's');
    assert("second"@.len() == 6 && "second"@[0] == 's' && "second"@[1] == 'e');
    assert("seconds"@.len() == 7 && "seconds"@[0] == 's');
    assert("min"@.len() == 3 && "min"@[0] == 'm');
    assert("minute"@.len() == 6 && "minute"@[0] == 'm' && "minute"@[1] == 'i');
    assert("minutes"@.len() == 7 && "minutes"@[0] == 'm');
    assert("h"@.len() == 1 && "h"@[0] == 'h');
    assert("hr"@.len() == 2 && "hr"@[0] == 'h');
    assert("hour"@.len() == 4 && "hour"@[0] == 'h');
    assert("hours"@.len() == 5 && "hours"@[0] == 'h');
    assert("d"@.len() == 1 && "d"@[0] == 'd');
    assert("day"@.len() == 3 && "day"@[0] == 'd');
    assert("days"@.len() == 4 && "days"@[0] == 'd');
    assert("w"@.len() == 1 && "w"@[0] == 'w');
    assert("week"@.len() == 4 && "week"@[0] == 'w');
    assert("weeks"@.len() == 5 && "weeks"@[0] == 'w');
    assert("m"@.len() == 1 && "m"@[0] == 'm');
    assert("mo"@.len() == 2 && "mo"@[0] == 'm');
    assert("month"@.len() == 5 && "month"@[0] == 'm');
    assert("months"@.len() == 6 && "months"@[0] == 'm' && "months"@[1] == 'o');
    assert("y"@.len() == 1 && "y"@[0] == 'y');
    assert("year"@.len() == 4 && "year"@[0] == 'y');
    assert("years"@.len() == 5 && "years"@[0] == 'y');
}

} // verus!
