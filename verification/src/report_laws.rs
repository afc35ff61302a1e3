//! What reports show, and which volumes two snapshots are compared on.

use crate::calendar::rfc3339_seconds;
use crate::decimal::{decimal_text, integer_text, is_digit, law_decimal_roundtrip, law_integer_roundtrip};
use crate::moments::is_moment;
use crate::report::{ago_text, grouped, is_reported, places};
use crate::size_diff::DiffEntry;
use crate::snapshots::{age_text, are_pairs, spans, VolumePair};
use crate::top_request::{has_volume, is_entry, shared_volumes, SnapshotVolume};
use vstd::prelude::*;

verus! {

/// A number in groups has its digits in their order and a comma before every third digit
/// from the right, but not at the front.
pub proof fn law_grouped(digits: Seq<char>)
    requires
        forall|i: int| 0 <= i < digits.len() ==> #[trigger] digits[i] != ',',
    ensures
        grouped(digits).filter(|c: char| c != ',') == digits,
        forall|i: int|
            0 <= i < grouped(digits).len() ==> ((#[trigger] grouped(digits)[i]) == ',' <==> (grouped(digits).len() - i)
                % 4 == 0),
        digits.len() > 0 ==> grouped(digits).len() % 4 != 0,
        digits.len() > 0 ==> grouped(digits).len() > 0,
    decreases digits.len(),
{
    let pred = |c: char| c != ',';
    let r = grouped(digits);
    if digits.len() <= 3 {
        lemma_all_kept(digits, pred);
    } else {
        let n = digits.len() - 3;
        let head = digits.take(n);
        let tail = digits.skip(n);
        assert forall|i: int| 0 <= i < head.len() implies #[trigger] head[i] != ',' by {
            assert(head[i] == digits[i]);
        }
        assert forall|i: int| 0 <= i < tail.len() implies #[trigger] tail[i] != ',' by {
            assert(tail[i] == digits[n + i]);
        }
        law_grouped(head);
        let g = grouped(head);
        assert(r == g.push(',') + tail);
        lemma_all_kept(tail, pred);
        lemma_filter_add(g.push(','), tail, pred);
        assert(g.push(',').filter(pred) == g.filter(pred)) by {
            reveal(Seq::filter);
            assert(g.push(',').drop_last() =~= g);
        }
        assert(head + tail =~= digits);
        assert forall|i: int| 0 <= i < r.len() implies ((#[trigger] r[i]) == ',' <==> (r.len() - i) % 4 == 0) by {
            if i < g.len() {
                assert(r[i] == g[i]);
                assert((r.len() - i) % 4 == (g.len() - i) % 4);
            } else if i > g.len() {
                assert(r[i] == tail[i - g.len() - 1]);
            }
        }
        assert(r.len() == g.len() + 4);
    }
}

pub(crate) proof fn lemma_all_kept(s: Seq<char>, pred: spec_fn(char) -> bool)
    requires
        forall|i: int| 0 <= i < s.len() ==> pred(#[trigger] s[i]),
    ensures
        s.filter(pred) == s,
    decreases s.len(),
{
    reveal(Seq::filter);
    if s.len() > 0 {
        let part = s.drop_last();
        assert forall|i: int| 0 <= i < part.len() implies pred(#[trigger] part[i]) by {
            assert(part[i] == s[i]);
        }
        lemma_all_kept(part, pred);
        assert(pred(s[s.len() - 1]));
        assert(part.push(s.last()) =~= s);
    } else {
        assert(s.filter(pred) =~= s);
    }
}

pub(crate) proof fn lemma_filter_add(a: Seq<char>, b: Seq<char>, pred: spec_fn(char) -> bool)
    ensures
        (a + b).filter(pred) == a.filter(pred) + b.filter(pred),
    decreases b.len(),
{
    reveal(Seq::filter);
    if b.len() == 0 {
        assert(a + b =~= a);
        assert(a.filter(pred) + b.filter(pred) =~= a.filter(pred));
    } else {
        lemma_filter_add(a, b.drop_last(), pred);
        assert((a + b).drop_last() =~= a + b.drop_last());
        assert((a + b).last() == b.last());
        assert((a + b).filter(pred) =~= a.filter(pred) + b.filter(pred));
    }
}

proof fn lemma_places(n: int, meets: spec_fn(int) -> bool, k: usize)
    requires
        0 <= n <= usize::MAX,
    ensures
        places(n, meets).contains(k) <==> k < n && meets(k as int),
        forall|i: int| 0 <= i < places(n, meets).len() ==> #[trigger] places(n, meets)[i] < n,
        forall|i: int, j: int|
            0 <= i < j < places(n, meets).len() ==> (#[trigger] places(n, meets)[i]) < (#[trigger] places(n, meets)[j]),
    decreases n,
{
    if n > 0 {
        lemma_places(n - 1, meets, k);
        let a = places(n - 1, meets);
        let b = places(n, meets);
        if a.contains(k) {
            let i = choose|i: int| 0 <= i < a.len() && a[i] == k;
            assert(b[i] == k);
        }
        if k == n - 1 && meets(n - 1) {
            assert(b[a.len() as int] == k);
        }
        if b.contains(k) {
            let i = choose|i: int| 0 <= i < b.len() && b[i] == k;
            if i < a.len() {
                assert(a[i] == k);
            }
        }
        assert forall|i: int, j: int| 0 <= i < j < b.len() implies (#[trigger] b[i]) < (#[trigger] b[j]) by {
            if j < a.len() {
                assert(a[i] < a[j]);
            }
        }
    }
}

/// A report on growth shows, in their order, the entries that grew, each once; without a
/// limit to the depth it shows all of them.
pub proof fn law_grown_shown(entries: Seq<DiffEntry>, depth_limit: Option<u16>, r: Seq<usize>, k: usize)
    requires
        entries.len() <= usize::MAX,
        r == places(entries.len() as int, |i: int| is_reported(entries[i], depth_limit)),
    ensures
        r.contains(k) ==> k < entries.len() && entries[k as int].delta_bytes > 0,
        depth_limit is None && k < entries.len() && entries[k as int].delta_bytes > 0 ==> r.contains(k),
        forall|i: int, j: int| 0 <= i < j < r.len() ==> (#[trigger] r[i]) < (#[trigger] r[j]),
{
    lemma_places(entries.len() as int, |i: int| is_reported(entries[i], depth_limit), k);
}

/// Less than a minute ago is now; else the largest of minutes, hours and days that fits is
/// told, in whole numbers.
pub proof fn law_ago(seconds: i64, at: Seq<char>, n: nat)
    requires
        seconds >= 0,
    ensures
        seconds < 60 ==> ago_text(Some(seconds), at) == "just now"@,
        1 <= n < 60 && n * 60 <= seconds < (n + 1) * 60 ==> ago_text(Some(seconds), at) == decimal_text(n) + "m ago"@,
        1 <= n < 24 && n * 3600 <= seconds < (n + 1) * 3600 ==> ago_text(Some(seconds), at) == decimal_text(n) + "h ago"@,
        1 <= n && n * 86400 <= seconds < (n + 1) * 86400 ==> ago_text(Some(seconds), at) == decimal_text(n) + "d ago"@,
        ago_text(None, at) == at,
{
    if n * 60 <= seconds < (n + 1) * 60 {
        assert(seconds / 60 == n);
    }
    if n * 3600 <= seconds < (n + 1) * 3600 {
        assert(seconds / 3600 == n);
    }
    if n * 86400 <= seconds < (n + 1) * 86400 {
        assert(seconds / 86400 == n);
    }
}

/// Every volume that both snapshots hold is compared from the lower to the higher of its two
/// places in the log, and no other volume is.
pub proof fn law_pairs(a: Seq<SnapshotVolume>, b: Seq<SnapshotVolume>, pairs: Seq<VolumePair>, i: int, j: int)
    requires
        are_pairs(a, b, pairs),
        0 <= i < a.len(),
        0 <= j < b.len(),
        a[i].volume@ == b[j].volume@,
        forall|k: int| 0 <= k < j ==> (#[trigger] b[k]).volume@ != b[j].volume@,
    ensures
        exists|k: int|
            0 <= k < pairs.len() && (#[trigger] pairs[k]).volume@ == a[i].volume@ && pairs[k].start <= pairs[k].end && (
            pairs[k].start == a[i].sequence_number && pairs[k].end == b[j].sequence_number || pairs[k].start
                == b[j].sequence_number && pairs[k].end == a[i].sequence_number),
        forall|k: int|
            0 <= k < pairs.len() ==> has_volume(a, (#[trigger] pairs[k]).volume@) && has_volume(b, pairs[k].volume@),
    decreases a.len(),
{
    lemma_pairs_known(a, b, pairs);
    let part = a.drop_last();
    let x = a.last();
    let rest = if has_volume(b, x.volume@) {
        pairs.drop_last()
    } else {
        pairs
    };
    if i < part.len() {
        law_pairs(part, b, rest, i, j);
        let k = choose|k: int|
            0 <= k < rest.len() && (#[trigger] rest[k]).volume@ == part[i].volume@ && rest[k].start <= rest[k].end && (
            rest[k].start == part[i].sequence_number && rest[k].end == b[j].sequence_number || rest[k].start
                == b[j].sequence_number && rest[k].end == part[i].sequence_number);
        assert(pairs[k] == rest[k]);
    } else {
        assert(b[j].volume@ == x.volume@);
        assert(has_volume(b, x.volume@));
        let e = choose|e: int|
            #[trigger] is_entry(b, x.volume@, e) && spans(
                pairs.last(),
                x.volume@,
                x.sequence_number,
                b[e].sequence_number,
            );
        if e < j {
            assert(b[e].volume@ != b[j].volume@);
        } else if j < e {
            assert(b[j].volume@ != x.volume@);
        }
        assert(pairs[pairs.len() - 1] == pairs.last());
    }
}

proof fn lemma_pairs_known(a: Seq<SnapshotVolume>, b: Seq<SnapshotVolume>, pairs: Seq<VolumePair>)
    requires
        are_pairs(a, b, pairs),
    ensures
        forall|k: int|
            0 <= k < pairs.len() ==> has_volume(a, (#[trigger] pairs[k]).volume@) && has_volume(b, pairs[k].volume@),
    decreases a.len(),
{
    if a.len() > 0 {
        let part = a.drop_last();
        let n = a.len() - 1;
        let x = a.last();
        let rest = if has_volume(b, x.volume@) {
            pairs.drop_last()
        } else {
            pairs
        };
        lemma_pairs_known(part, b, rest);
        assert forall|k: int| 0 <= k < pairs.len() implies has_volume(a, (#[trigger] pairs[k]).volume@) && has_volume(
            b,
            pairs[k].volume@,
        ) by {
            if k < rest.len() {
                assert(rest[k] == pairs[k]);
                let m = choose|m: int| 0 <= m < part.len() && (#[trigger] part[m]).volume@ == rest[k].volume@;
                assert(a[m].volume@ == pairs[k].volume@);
            } else {
                assert(a[n].volume@ == pairs[k].volume@);
            }
        }
    }
}

/// The volumes that two snapshots share are those of the first that the second holds too.
pub proof fn law_shared(a: Seq<SnapshotVolume>, b: Seq<SnapshotVolume>, volume: Seq<char>)
    ensures
        shared_volumes(a, b).contains(volume) <==> (exists|i: int|
            0 <= i < a.len() && (#[trigger] a[i]).volume@ == volume) && (exists|j: int|
            0 <= j < b.len() && (#[trigger] b[j]).volume@ == volume),
    decreases a.len(),
{
    if a.len() > 0 {
        let part = a.drop_last();
        let n = a.len() - 1;
        law_shared(part, b, volume);
        let rest = shared_volumes(part, b);
        let all = shared_volumes(a, b);
        if rest.contains(volume) {
            let k = choose|k: int| 0 <= k < rest.len() && rest[k] == volume;
            assert(all[k] == volume);
            let i = choose|i: int| 0 <= i < part.len() && (#[trigger] part[i]).volume@ == volume;
            assert(a[i].volume@ == volume);
        }
        if all.contains(volume) {
            let k = choose|k: int| 0 <= k < all.len() && all[k] == volume;
            if k < rest.len() {
                assert(rest[k] == volume);
            } else {
                assert(a[n].volume@ == volume);
            }
        }
        if exists|i: int| 0 <= i < a.len() && (#[trigger] a[i]).volume@ == volume {
            let i = choose|i: int| 0 <= i < a.len() && (#[trigger] a[i]).volume@ == volume;
            if i < n {
                assert(part[i].volume@ == volume);
            } else if has_volume(b, volume) {
                assert(all[rest.len() as int] == volume);
            }
        }
    }
}

proof fn lemma_none_kept(s: Seq<char>, pred: spec_fn(char) -> bool)
    requires
        forall|i: int| 0 <= i < s.len() ==> !pred(#[trigger] s[i]),
    ensures
        s.filter(pred) == Seq::<char>::empty(),
    decreases s.len(),
{
    reveal(Seq::filter);
    if s.len() > 0 {
        let part = s.drop_last();
        assert forall|i: int| 0 <= i < part.len() implies !pred(#[trigger] part[i]) by {
            assert(part[i] == s[i]);
        }
        lemma_none_kept(part, pred);
        assert(!pred(s[s.len() - 1]));
    } else {
        assert(s.filter(pred) =~= Seq::<char>::empty());
    }
}

/// A number of hours, days, months of thirty days or years of 365 days names the moment that
/// lies so long before now.
pub proof fn law_moment_ago(s: Seq<char>, n: nat, unit: Seq<char>, seconds: int, shown: Seq<char>, now: int, r: Result<i64, String>)
    requires
        n <= i64::MAX,
        rfc3339_seconds(s) is None,
        is_moment(s, decimal_text(n) + unit, shown, now, r),
        unit == "h"@ && seconds == 60 * 60 || unit == "d"@ && seconds == 24 * 60 * 60 || unit == "m"@ && seconds == 30 * 24
            * 60 * 60 || unit == "y"@ && seconds == 365 * 24 * 60 * 60,
    ensures
        r is Ok,
        r->Ok_0 == now - n * seconds,
{
    reveal_strlit("h");
    reveal_strlit("hr");
    reveal_strlit("hour");
    reveal_strlit("hours");
    reveal_strlit("d");
    reveal_strlit("day");
    reveal_strlit("days");
    reveal_strlit("m");
    reveal_strlit("month");
    reveal_strlit("months");
    reveal_strlit("y");
    assert("h"@.len() == 1 && "h"@[0] == 'h' && "hr"@.len() == 2 && "hour"@.len() == 4 && "hours"@.len() == 5);
    assert("d"@.len() == 1 && "d"@[0] == 'd' && "day"@.len() == 3 && "days"@.len() == 4);
    assert("m"@.len() == 1 && "m"@[0] == 'm' && "month"@.len() == 5 && "months"@.len() == 6);
    assert("y"@.len() == 1 && "y"@[0] == 'y');
    let t = decimal_text(n);
    let digit = |c: char| is_digit(c);
    let letter = |c: char| !is_digit(c);
    law_decimal_roundtrip(n);
    lemma_filter_add(t, unit, digit);
    lemma_filter_add(t, unit, letter);
    assert forall|i: int| 0 <= i < t.len() implies is_digit(#[trigger] t[i]) by {}
    lemma_all_kept(t, digit);
    lemma_none_kept(t, letter);
    lemma_all_kept(unit, letter);
    lemma_none_kept(unit, digit);
    assert(t + Seq::<char>::empty() =~= t);
    assert(Seq::<char>::empty() + unit =~= unit);
    law_integer_roundtrip(n as int);
    assert(integer_text(n as int) == t);
}

/// The age of a snapshot is told in whole minutes below an hour, in whole hours below a day,
/// and else in whole days.
pub proof fn law_age(seconds: i64, n: nat)
    requires
        seconds >= 0,
    ensures
        seconds < 60 ==> age_text(Some(seconds)) == "just now"@,
        1 <= n < 60 && n * 60 <= seconds < (n + 1) * 60 ==> age_text(Some(seconds)) == decimal_text(n) + " minutes ago"@,
        1 <= n < 24 && n * 3600 <= seconds < (n + 1) * 3600 ==> age_text(Some(seconds)) == decimal_text(n)
            + " hours ago"@,
        1 <= n && n * 86400 <= seconds < (n + 1) * 86400 ==> age_text(Some(seconds)) == decimal_text(n) + " days ago"@,
{
    if n * 60 <= seconds < (n + 1) * 60 {
        assert(seconds / 60 == n);
    }
    if n * 3600 <= seconds < (n + 1) * 3600 {
        assert(seconds / 3600 == n);
    }
    if n * 86400 <= seconds < (n + 1) * 86400 {
        assert(seconds / 86400 == n);
    }
}

} // verus!
