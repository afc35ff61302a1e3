//! The part of the mutation log over which the top items are ranked.

use crate::calendar::{elapsed_seconds, format_rfc3339, rfc3339_text, seconds_since};
use crate::facts::FactRow;
use crate::order::{bytes_at_most, is_bytes_at_most, lemma_bytes_total, lemma_bytes_transitive};
use crate::snapshots::VolumePair;
use crate::text::{opt_str, str_eq, views};
use crate::top::{copy_row, ChangeRow, VolumeFacts};
use crate::top_request::{
    check_log_reaches, common_volumes, has_volume, insufficient_history, interval_between, is_entry,
    missing_volume, shared_volumes, ParentSnapshot, SnapshotVolume, TopParams,
};
use vstd::prelude::*;
use vstd::utf8::encode_utf8;

verus! {

/// An entry of the log of a volume.
pub struct LoggedChange {
    pub sequence: i64,
    /// RFC 3339, in UTC.
    pub at: String,
    pub change: ChangeRow,
}

/// What is known of a volume: its files and its whole log.
pub struct VolumeLog {
    pub volume: String,
    pub facts: Vec<FactRow>,
    pub log: Vec<LoggedChange>,
}

/// One text is not before another, in the order of their bytes.
pub open spec fn not_before(a: Seq<char>, b: Seq<char>) -> bool {
    bytes_at_most(encode_utf8(b), encode_utf8(a))
}

/// The places of all entries.
pub open spec fn places_of(log: Seq<LoggedChange>) -> Seq<i64> {
    Seq::new(log.len(), |i: int| log[i].sequence)
}

/// The entries that were logged at a time or later.
pub open spec fn logged_since(log: Seq<LoggedChange>, since: Seq<char>) -> Seq<LoggedChange> {
    log.filter(|e: LoggedChange| not_before(e.at@, since))
}

/// The lowest of the places, or 0 where there are none.
pub open spec fn is_lowest(places: Seq<i64>, r: int) -> bool {
    if places.len() == 0 {
        r == 0
    } else {
        &&& exists|i: int| 0 <= i < places.len() && #[trigger] places[i] == r
        &&& forall|i: int| 0 <= i < places.len() ==> r <= #[trigger] places[i]
    }
}

/// The highest of the places, or 0 where there are none.
pub open spec fn is_highest(places: Seq<i64>, r: int) -> bool {
    if places.len() == 0 {
        r == 0
    } else {
        &&& exists|i: int| 0 <= i < places.len() && #[trigger] places[i] == r
        &&& forall|i: int| 0 <= i < places.len() ==> #[trigger] places[i] <= r
    }
}

fn lowest(places: &Vec<i64>) -> (r: i64)
    ensures
        is_lowest(places@, r as int),
{
    if places.len() == 0 {
        return 0;
    }
    let mut r: i64 = places[0];
    let mut i: usize = 1;
    while i < places.len()
        invariant
            1 <= i <= places@.len(),
            exists|k: int| 0 <= k < i && #[trigger] places@[k] == r,
            forall|k: int| 0 <= k < i ==> r <= #[trigger] places@[k],
        decreases places@.len() - i,
    {
        if places[i] < r {
            r = places[i];
            assert(places@[i as int] == r);
        }
        i = i + 1;
    }
    r
}

fn highest(places: &Vec<i64>) -> (r: i64)
    ensures
        is_highest(places@, r as int),
{
    if places.len() == 0 {
        return 0;
    }
    let mut r: i64 = places[0];
    let mut i: usize = 1;
    while i < places.len()
        invariant
            1 <= i <= places@.len(),
            exists|k: int| 0 <= k < i && #[trigger] places@[k] == r,
            forall|k: int| 0 <= k < i ==> #[trigger] places@[k] <= r,
        decreases places@.len() - i,
    {
        if places[i] > r {
            r = places[i];
            assert(places@[i as int] == r);
        }
        i = i + 1;
    }
    r
}

fn all_places(log: &Vec<LoggedChange>) -> (r: Vec<i64>)
    ensures
        r@ == places_of(log@),
{
    let mut r: Vec<i64> = Vec::new();
    let mut i: usize = 0;
    while i < log.len()
        invariant
            i <= log@.len(),
            r@ =~= places_of(log@).take(i as int),
        decreases log@.len() - i,
    {
        r.push(log[i].sequence);
        i = i + 1;
    }
    r
}

fn places_since(log: &Vec<LoggedChange>, since: &str) -> (r: Vec<i64>)
    ensures
        r@ == places_of(logged_since(log@, since@)),
{
    let ghost keep = |e: LoggedChange| not_before(e.at@, since@);
    let mut r: Vec<i64> = Vec::new();
    let mut i: usize = 0;
    proof {
        reveal(Seq::filter);
        assert(log@.take(0) =~= Seq::<LoggedChange>::empty());
        assert(r@ =~= places_of(log@.take(0).filter(keep)));
    }
    while i < log.len()
        invariant
            keep == (|e: LoggedChange| not_before(e.at@, since@)),
            i <= log@.len(),
            r@ == places_of(log@.take(i as int).filter(keep)),
        decreases log@.len() - i,
    {
        proof {
            reveal(Seq::filter);
            assert(log@.take(i + 1).drop_last() =~= log@.take(i as int));
            assert(log@.take(i + 1).last() == log@[i as int]);
        }
        let ghost before = r@;
        if is_bytes_at_most(since.as_bytes(), log[i].at.as_str().as_bytes()) {
            r.push(log[i].sequence);
            assert(r@ =~= places_of(log@.take(i + 1).filter(keep)));
        } else {
            assert(r@ =~= places_of(log@.take(i + 1).filter(keep)));
        }
        i = i + 1;
    }
    assert(log@.take(i as int) =~= log@);
    r
}

/// The part of a log since a moment. It begins before the first entry that was logged
/// then or later, and ends with the last entry; where there is no such entry, it is
/// empty.
pub open spec fn is_since(v: VolumeLog, since: Seq<char>, p: VolumePair) -> bool {
    let later = places_of(logged_since(v.log@, since));
    &&& p.volume@ == v.volume@
    &&& is_highest(places_of(v.log@), p.end as int)
    &&& if later.len() == 0 {
        p.start == p.end
    } else {
        is_lowest(later, p.start + 1)
    }
}

/// There is a place before every entry of the log.
pub open spec fn has_begin(v: VolumeLog) -> bool {
    forall|i: int| 0 <= i < v.log@.len() ==> (#[trigger] v.log@[i]).sequence > i64::MIN
}

/// The part of a log since a moment holds every entry that was logged then or later, and
/// no entry before the first of those.
pub proof fn law_since(v: VolumeLog, since: Seq<char>, p: VolumePair, i: int)
    requires
        is_since(v, since, p),
        0 <= i < v.log@.len(),
    ensures
        not_before(v.log@[i].at@, since) ==> in_part(v.log@[i], p.start, p.end),
        in_part(v.log@[i], p.start, p.end) ==> exists|j: int|
            0 <= j < v.log@.len() && not_before((#[trigger] v.log@[j]).at@, since) && v.log@[j].sequence
                <= v.log@[i].sequence,
{
    let keep = |e: LoggedChange| not_before(e.at@, since);
    let kept = v.log@.filter(keep);
    let later = places_of(kept);
    let e = v.log@[i];
    assert(places_of(v.log@)[i] == e.sequence);
    if keep(e) {
        v.log@.lemma_filter_contains(keep, i);
        let k = choose|k: int| 0 <= k < kept.len() && kept[k] == e;
        assert(later[k] == e.sequence);
    }
    if in_part(e, p.start, p.end) {
        let k = choose|k: int| 0 <= k < later.len() && #[trigger] later[k] == p.start + 1;
        v.log@.lemma_filter_pred(keep, k);
        v.log@.lemma_filter_contains_rev(keep, kept[k]);
        let j = choose|j: int| 0 <= j < v.log@.len() && v.log@[j] == kept[k];
        assert(not_before(v.log@[j].at@, since));
    }
}

/// The parts of the logs since a moment, given in seconds since 1970.
pub fn since_intervals(volumes: &Vec<VolumeLog>, since: i64) -> (r: Vec<VolumePair>)
    requires
        forall|k: int| 0 <= k < volumes@.len() ==> has_begin(#[trigger] volumes@[k]),
    ensures
        r@.len() == volumes@.len(),
        forall|k: int| 0 <= k < r@.len() ==> is_since(volumes@[k], rfc3339_text(since, 0), #[trigger] r@[k]),
{
    let from = format_rfc3339(since, 0);
    let mut r: Vec<VolumePair> = Vec::new();
    let mut i: usize = 0;
    while i < volumes.len()
        invariant
            forall|k: int| 0 <= k < volumes@.len() ==> has_begin(#[trigger] volumes@[k]),
            from@ == rfc3339_text(since, 0),
            i <= volumes@.len(),
            r@.len() == i,
            forall|k: int| 0 <= k < i ==> is_since(volumes@[k], rfc3339_text(since, 0), #[trigger] r@[k]),
        decreases volumes@.len() - i,
    {
        let v = &volumes[i];
        let later = places_since(&v.log, from.as_str());
        let end = highest(&all_places(&v.log));
        let start = if later.len() == 0 {
            end
        } else {
            let low = lowest(&later);
            proof {
                let keep = |e: LoggedChange| not_before(e.at@, from@);
                let kept = v.log@.filter(keep);
                let k = choose|k: int| 0 <= k < later@.len() && #[trigger] later@[k] == low;
                v.log@.lemma_filter_contains_rev(keep, kept[k]);
                let j = choose|j: int| 0 <= j < v.log@.len() && v.log@[j] == kept[k];
                assert(has_begin(volumes@[i as int]));
                assert(v.log@[j].sequence > i64::MIN);
            }
            low - 1
        };
        r.push(VolumePair { volume: v.volume.clone(), start, end });
        i = i + 1;
    }
    r
}

/// The time of the oldest entry of a log.
pub open spec fn is_oldest(log: Seq<LoggedChange>, at: Seq<char>) -> bool {
    &&& exists|i: int| 0 <= i < log.len() && (#[trigger] log[i]).at@ == at
    &&& forall|i: int| 0 <= i < log.len() ==> not_before((#[trigger] log[i]).at@, at)
}

/// A log reaches back this many seconds: to its oldest entry, and not at all where it is
/// empty or the time of that entry cannot be read.
pub open spec fn reaches_back(log: Seq<LoggedChange>, now_seconds: i64, now_nanos: u32, seconds: i64) -> bool {
    if log.len() == 0 {
        seconds == 0
    } else {
        exists|at: Seq<char>| #[trigger]
            is_oldest(log, at) && seconds == (match elapsed_seconds(at, now_seconds, now_nanos) {
                Some(s) => s,
                None => 0i64,
            })
    }
}

fn reach_of(log: &Vec<LoggedChange>, now_seconds: i64, now_nanos: u32) -> (seconds: i64)
    ensures
        reaches_back(log@, now_seconds, now_nanos, seconds),
{
    if log.len() == 0 {
        return 0;
    }
    let mut best: usize = 0;
    let mut i: usize = 1;
    proof {
        lemma_bytes_total(encode_utf8(log@[0].at@), encode_utf8(log@[0].at@));
    }
    while i < log.len()
        invariant
            1 <= i <= log@.len(),
            best < i,
            forall|k: int| 0 <= k < i ==> not_before((#[trigger] log@[k]).at@, log@[best as int].at@),
        decreases log@.len() - i,
    {
        let ghost a = encode_utf8(log@[best as int].at@);
        let ghost b = encode_utf8(log@[i as int].at@);
        proof {
            lemma_bytes_total(a, b);
            lemma_bytes_total(b, b);
        }
        if !is_bytes_at_most(log[best].at.as_str().as_bytes(), log[i].at.as_str().as_bytes()) {
            proof {
                assert forall|k: int| 0 <= k < i implies not_before((#[trigger] log@[k]).at@, log@[i as int].at@) by {
                    lemma_bytes_transitive(b, a, encode_utf8(log@[k].at@));
                }
            }
            best = i;
        }
        i = i + 1;
    }
    proof {
        assert(log@[best as int].at@ == log@[best as int].at@);
        assert(is_oldest(log@, log@[best as int].at@));
    }
    match seconds_since(log[best].at.as_str(), now_seconds, now_nanos) {
        Some(s) => s,
        None => 0,
    }
}

/// A log reaches back at least this many seconds.
pub open spec fn reaches(v: VolumeLog, now_seconds: i64, now_nanos: u32, needed: int) -> bool {
    exists|s: i64| #[trigger] reaches_back(v.log@, now_seconds, now_nanos, s) && s >= needed
}

/// The first log that does not reach back as far as needed stands at `k`.
pub open spec fn is_shortfall(volumes: Seq<VolumeLog>, now_seconds: i64, now_nanos: u32, needed: int, k: int, available: i64) -> bool {
    &&& 0 <= k < volumes.len()
    &&& reaches_back(volumes[k].log@, now_seconds, now_nanos, available)
    &&& available < needed
    &&& forall|j: int| 0 <= j < k ==> reaches(#[trigger] volumes[j], now_seconds, now_nanos, needed)
}

/// The first log that does not reach back as far as needed reaches back this far.
pub open spec fn falls_short(volumes: Seq<VolumeLog>, now_seconds: i64, now_nanos: u32, needed: int, available: i64) -> bool {
    exists|k: int| is_shortfall(volumes, now_seconds, now_nanos, needed, k, available)
}

/// Tells for which volume the log does not reach back as far as asked for, if for any:
/// the first one, by the seconds that it reaches back and those that are needed.
pub fn history_shortfall(volumes: &Vec<VolumeLog>, since: i64, now_seconds: i64, now_nanos: u32) -> (r: Option<(i64, i64)>)
    requires
        i64::MIN <= now_seconds - since <= i64::MAX,
    ensures
        match r {
            Some(p) => p.1 == now_seconds - since && falls_short(
                volumes@,
                now_seconds,
                now_nanos,
                now_seconds - since,
                p.0,
            ),
            None => forall|j: int|
                0 <= j < volumes@.len() ==> reaches(
                    #[trigger] volumes@[j],
                    now_seconds,
                    now_nanos,
                    now_seconds - since,
                ),
        },
{
    let needed: i64 = now_seconds - since;
    let mut i: usize = 0;
    while i < volumes.len()
        invariant
            needed == now_seconds - since,
            i <= volumes@.len(),
            forall|j: int| 0 <= j < i ==> reaches(#[trigger] volumes@[j], now_seconds, now_nanos, needed as int),
        decreases volumes@.len() - i,
    {
        let available = reach_of(&volumes[i].log, now_seconds, now_nanos);
        assert(reaches_back(volumes@[i as int].log@, now_seconds, now_nanos, available));
        if insufficient_history(available, needed) {
            assert(is_shortfall(volumes@, now_seconds, now_nanos, needed as int, i as int, available));
            return Some((available, needed));
        }
        i = i + 1;
    }
    None
}

/// The place of a volume in the log when a snapshot was taken.
pub open spec fn place_in(s: Seq<SnapshotVolume>, volume: Seq<char>) -> i64 {
    s[choose|k: int| is_entry(s, volume, k)].sequence_number
}

/// The lowest place in the log of a volume; a volume of which nothing is known has an
/// empty log.
pub open spec fn is_log_start(volumes: Seq<VolumeLog>, volume: Seq<char>, low: int) -> bool {
    if exists|k: int| #[trigger] is_first_log(volumes, volume, k) {
        exists|k: int| #[trigger] is_first_log(volumes, volume, k) && is_lowest(places_of(volumes[k].log@), low)
    } else {
        low == 0
    }
}

/// The first entry of a volume stands at `k`.
pub open spec fn is_first_log(volumes: Seq<VolumeLog>, volume: Seq<char>, k: int) -> bool {
    &&& 0 <= k < volumes.len()
    &&& volumes[k].volume@ == volume
    &&& forall|j: int| 0 <= j < k ==> (#[trigger] volumes[j]).volume@ != volume
}

fn log_start(volumes: &Vec<VolumeLog>, volume: &str) -> (low: i64)
    ensures
        is_log_start(volumes@, volume@, low as int),
{
    let mut k: usize = 0;
    while k < volumes.len()
        invariant
            k <= volumes@.len(),
            forall|j: int| 0 <= j < k ==> (#[trigger] volumes@[j]).volume@ != volume@,
        decreases volumes@.len() - k,
    {
        if str_eq(volumes[k].volume.as_str(), volume) {
            assert(is_first_log(volumes@, volume@, k as int));
            return lowest(&all_places(&volumes[k].log));
        }
        k = k + 1;
    }
    0
}

/// The part of a log between two snapshots, the earlier place first.
pub open spec fn spans_between(a: ParentSnapshot, b: ParentSnapshot, volume: Seq<char>, p: VolumePair) -> bool {
    let x = place_in(a.volumes@, volume);
    let y = place_in(b.volumes@, volume);
    &&& has_volume(a.volumes@, volume)
    &&& has_volume(b.volumes@, volume)
    &&& p.volume@ == volume
    &&& p.start == (if x <= y { x } else { y })
    &&& p.end == (if x <= y { y } else { x })
}

/// Why a volume cannot be compared between two snapshots: one of them does not hold it, or
/// the log does not reach back as far as the earlier one.
pub open spec fn is_refused(
    a: ParentSnapshot,
    b: ParentSnapshot,
    volumes: Seq<VolumeLog>,
    volume: Seq<char>,
    retention: Seq<char>,
    message: Seq<char>,
) -> bool {
    if !has_volume(a.volumes@, volume) {
        message == missing_volume(volume, a.label@)
    } else if !has_volume(b.volumes@, volume) {
        message == missing_volume(volume, b.label@)
    } else {
        &&& exists|p: VolumePair, low: int| #[trigger]
            spans_between(a, b, volume, p) && #[trigger] is_log_start(volumes, volume, low) && p.start < low && low > 1
        &&& message
            == "E_SNAPSHOT_DATA_EXPIRED: This comparison goes further back than DiskTracker currently keeps ("@
            + retention + "). Try a more recent snapshot pair."@
    }
}

/// The part of the log of a volume between two snapshots, as far back as the log reaches.
pub open spec fn is_compared(
    a: ParentSnapshot,
    b: ParentSnapshot,
    volumes: Seq<VolumeLog>,
    volume: Seq<char>,
    p: VolumePair,
) -> bool {
    &&& spans_between(a, b, volume, p)
    &&& exists|low: int| #[trigger] is_log_start(volumes, volume, low) && !(p.start < low && low > 1)
}

/// A volume can be compared between two snapshots.
pub open spec fn can_compare(a: ParentSnapshot, b: ParentSnapshot, volumes: Seq<VolumeLog>, volume: Seq<char>) -> bool {
    exists|p: VolumePair| is_compared(a, b, volumes, volume, p)
}

/// The first volume that cannot be compared stands at `k`.
pub open spec fn is_refusal(
    a: ParentSnapshot,
    b: ParentSnapshot,
    volumes: Seq<VolumeLog>,
    names: Seq<Seq<char>>,
    retention: Seq<char>,
    k: int,
    message: Seq<char>,
) -> bool {
    &&& 0 <= k < names.len()
    &&& is_refused(a, b, volumes, names[k], retention, message)
    &&& forall|j: int|
        0 <= j < k ==> can_compare(a, b, volumes, #[trigger] names[j])
}

/// The first volume that cannot be compared is refused with a message.
pub open spec fn refuses(
    a: ParentSnapshot,
    b: ParentSnapshot,
    volumes: Seq<VolumeLog>,
    names: Seq<Seq<char>>,
    retention: Seq<char>,
    message: Seq<char>,
) -> bool {
    exists|k: int| is_refusal(a, b, volumes, names, retention, k, message)
}

/// The volumes that are compared between two snapshots: the one asked for, or else all that
/// both hold.
pub open spec fn compared_volumes(volume: Option<Seq<char>>, a: ParentSnapshot, b: ParentSnapshot) -> Seq<Seq<char>> {
    match volume {
        Some(v) => seq![v],
        None => shared_volumes(a.volumes@, b.volumes@),
    }
}

fn compared(volume: Option<&str>, a: &ParentSnapshot, b: &ParentSnapshot) -> (r: Vec<String>)
    ensures
        views(r@) == compared_volumes(opt_str(volume), *a, *b),
{
    match volume {
        Some(v) => {
            let mut r: Vec<String> = Vec::new();
            r.push(v.to_owned());
            assert(views(r@) =~= seq![v@]);
            r
        },
        None => common_volumes(a, b),
    }
}

proof fn lemma_entry_exists(s: Seq<SnapshotVolume>, volume: Seq<char>, n: int)
    requires
        0 <= n < s.len(),
        s[n].volume@ == volume,
    ensures
        exists|k: int| is_entry(s, volume, k),
    decreases n,
{
    if exists|j: int| 0 <= j < n && (#[trigger] s[j]).volume@ == volume {
        let j = choose|j: int| 0 <= j < n && (#[trigger] s[j]).volume@ == volume;
        lemma_entry_exists(s, volume, j);
    } else {
        assert(is_entry(s, volume, n));
    }
}

/// Tells over which parts of the logs two snapshots are compared. The first volume that
/// cannot be compared is told.
pub fn between_intervals(
    volume: Option<&str>,
    a: &ParentSnapshot,
    b: &ParentSnapshot,
    volumes: &Vec<VolumeLog>,
    retention: &str,
) -> (r: Result<Vec<VolumePair>, String>)
    ensures
        ({
            let names = compared_volumes(opt_str(volume), *a, *b);
            match r {
                Ok(pairs) => {
                    &&& pairs@.len() == names.len()
                    &&& forall|k: int|
                        0 <= k < names.len() ==> is_compared(*a, *b, volumes@, names[k], #[trigger] pairs@[k])
                },
                Err(e) => refuses(*a, *b, volumes@, names, retention@, e@),
            }
        }),
{
    let names = compared(volume, a, b);
    let ghost all = views(names@);
    let mut pairs: Vec<VolumePair> = Vec::new();
    let mut i: usize = 0;
    while i < names.len()
        invariant
            all == views(names@),
            i <= names@.len(),
            pairs@.len() == i,
            all == compared_volumes(opt_str(volume), *a, *b),
            forall|k: int| 0 <= k < i ==> is_compared(*a, *b, volumes@, all[k], #[trigger] pairs@[k]),
        decreases names@.len() - i,
    {
        let name = names[i].as_str();
        assert(all[i as int] == name@);
        assert forall|j: int| 0 <= j < i implies can_compare(*a, *b, volumes@, #[trigger] all[j]) by {
            assert(is_compared(*a, *b, volumes@, all[j], pairs@[j]));
        }
        match interval_between(a, b, name) {
            Err(e) => {
                assert(is_refusal(*a, *b, volumes@, all, retention@, i as int, e@));
                return Err(e);
            },
            Ok((start, end)) => {
                let pair = VolumePair { volume: name.to_owned(), start, end };
                proof {
                    let i = choose|k: int| 0 <= k < a.volumes@.len() && (#[trigger] a.volumes@[k]).volume@ == name@;
                    let j = choose|k: int| 0 <= k < b.volumes@.len() && (#[trigger] b.volumes@[k]).volume@ == name@;
                    lemma_entry_exists(a.volumes@, name@, i);
                    lemma_entry_exists(b.volumes@, name@, j);
                    let x = choose|k: int| is_entry(a.volumes@, name@, k);
                    let y = choose|k: int| is_entry(b.volumes@, name@, k);
                    assert(is_entry(a.volumes@, name@, x) && is_entry(b.volumes@, name@, y));
                    assert(spans_between(*a, *b, name@, pair));
                }
                let low = log_start(volumes, name);
                match check_log_reaches(start, low, retention) {
                    Err(e) => {
                        assert(spans_between(*a, *b, name@, pair) && is_log_start(volumes@, name@, low as int));
                        assert(is_refusal(*a, *b, volumes@, all, retention@, i as int, e@));
                        return Err(e);
                    },
                    Ok(_) => {
                        assert(is_log_start(volumes@, all[i as int], low as int));
                        pairs.push(pair);
                    },
                }
            },
        }
        i = i + 1;
    }
    Ok(pairs)
}

/// The entry lies in a part of the log.
pub open spec fn in_part(e: LoggedChange, start: i64, end: i64) -> bool {
    start < e.sequence <= end
}

/// The changes of a part of the log, in their order.
pub open spec fn changes_in(log: Seq<LoggedChange>, start: i64, end: i64) -> Seq<ChangeRow> {
    log.filter(|e: LoggedChange| in_part(e, start, end)).map_values(|e: LoggedChange| e.change)
}

fn changes_within(log: &Vec<LoggedChange>, start: i64, end: i64) -> (r: Vec<ChangeRow>)
    ensures
        r@ == changes_in(log@, start, end),
{
    let ghost keep = |e: LoggedChange| in_part(e, start, end);
    let ghost get = |e: LoggedChange| e.change;
    let mut r: Vec<ChangeRow> = Vec::new();
    let mut i: usize = 0;
    proof {
        reveal(Seq::filter);
        assert(log@.take(0) =~= Seq::<LoggedChange>::empty());
        assert(r@ =~= log@.take(0).filter(keep).map_values(get));
    }
    while i < log.len()
        invariant
            keep == (|e: LoggedChange| in_part(e, start, end)),
            get == (|e: LoggedChange| e.change),
            i <= log@.len(),
            r@ == log@.take(i as int).filter(keep).map_values(get),
        decreases log@.len() - i,
    {
        proof {
            reveal(Seq::filter);
            assert(log@.take(i + 1).drop_last() =~= log@.take(i as int));
            assert(log@.take(i + 1).last() == log@[i as int]);
        }
        let e = &log[i];
        if start < e.sequence && e.sequence <= end {
            r.push(ChangeRow { node: copy_row(&e.change.node), size_delta: e.change.size_delta });
            assert(r@ =~= log@.take(i + 1).filter(keep).map_values(get));
        } else {
            assert(r@ =~= log@.take(i + 1).filter(keep).map_values(get));
        }
        i = i + 1;
    }
    assert(log@.take(i as int) =~= log@);
    r
}

/// The first of the parts that belongs to a volume stands at `k`.
pub open spec fn is_part_of(parts: Seq<VolumePair>, volume: Seq<char>, k: int) -> bool {
    &&& 0 <= k < parts.len()
    &&& parts[k].volume@ == volume
    &&& forall|j: int| 0 <= j < k ==> (#[trigger] parts[j]).volume@ != volume
}

fn find_part(parts: &Vec<VolumePair>, volume: &str) -> (r: Option<usize>)
    ensures
        match r {
            Some(k) => is_part_of(parts@, volume@, k as int),
            None => forall|k: int| !is_part_of(parts@, volume@, k),
        },
{
    let mut k: usize = 0;
    while k < parts.len()
        invariant
            k <= parts@.len(),
            forall|j: int| 0 <= j < k ==> (#[trigger] parts@[j]).volume@ != volume@,
        decreases parts@.len() - k,
    {
        if str_eq(parts[k].volume.as_str(), volume) {
            return Some(k);
        }
        k = k + 1;
    }
    None
}

/// What is known of a volume over a part of its log; a volume without a part has no
/// changes.
pub open spec fn is_known_over(v: VolumeLog, parts: Seq<VolumePair>, f: VolumeFacts) -> bool {
    &&& f.volume@ == v.volume@
    &&& f.facts@ == v.facts@
    &&& forall|k: int| #[trigger]
        is_part_of(parts, v.volume@, k) ==> f.changes@ == changes_in(v.log@, parts[k].start, parts[k].end)
    &&& (forall|k: int| !is_part_of(parts, v.volume@, k)) ==> f.changes@.len() == 0
}

/// What is known of each volume over its part of the log.
pub fn known_over(volumes: Vec<VolumeLog>, parts: &Vec<VolumePair>) -> (r: Vec<VolumeFacts>)
    ensures
        r@.len() == volumes@.len(),
        forall|k: int| 0 <= k < r@.len() ==> is_known_over(volumes@[k], parts@, #[trigger] r@[k]),
{
    let mut r: Vec<VolumeFacts> = Vec::new();
    let mut i: usize = 0;
    while i < volumes.len()
        invariant
            i <= volumes@.len(),
            r@.len() == i,
            forall|k: int| 0 <= k < i ==> is_known_over(volumes@[k], parts@, #[trigger] r@[k]),
        decreases volumes@.len() - i,
    {
        let v = &volumes[i];
        let changes = match find_part(parts, v.volume.as_str()) {
            Some(t) => {
                proof {
                    assert forall|k: int| #[trigger] is_part_of(parts@, v.volume@, k) implies k == t by {
                        if k < t {
                            assert(parts@[k].volume@ == v.volume@);
                        } else if t < k {
                            assert(parts@[t as int].volume@ == v.volume@);
                        }
                    }
                }
                changes_within(&v.log, parts[t].start, parts[t].end)
            },
            None => Vec::new(),
        };
        let facts = copy_rows(&v.facts);
        r.push(VolumeFacts { volume: v.volume.clone(), facts, changes });
        i = i + 1;
    }
    r
}

fn copy_rows(rows: &Vec<FactRow>) -> (r: Vec<FactRow>)
    ensures
        r@ == rows@,
{
    let mut r: Vec<FactRow> = Vec::new();
    let mut i: usize = 0;
    while i < rows.len()
        invariant
            i <= rows@.len(),
            r@ =~= rows@.take(i as int),
        decreases rows@.len() - i,
    {
        r.push(copy_row(&rows[i]));
        i = i + 1;
    }
    r
}

/// Why a ranking over an interval is refused.
pub enum TopFailure {
    Refused(String),
    /// The log reaches back less far than is asked for.
    TooShort { available_secs: i64, needed_secs: i64 },
}

/// The two snapshots that a request names, where they are known.
pub struct NamedSnapshots {
    pub a: Option<ParentSnapshot>,
    pub b: Option<ParentSnapshot>,
}

/// Why the snapshots that a request names cannot be compared, if they cannot.
pub open spec fn naming_error(p: TopParams, named: NamedSnapshots) -> Option<Seq<char>> {
    if p.between_b is None {
        Some("Missing parameter between_b"@)
    } else if named.a is None {
        Some("E_NOT_FOUND: Snapshot not found: "@ + p.between_a->0@)
    } else if named.b is None {
        Some("E_NOT_FOUND: Snapshot not found: "@ + p.between_b->0@)
    } else {
        None
    }
}

/// The parts of the logs that a request is about: those since a moment, those between two
/// snapshots, or none.
pub open spec fn is_answered(
    p: TopParams,
    volume: Option<Seq<char>>,
    named: NamedSnapshots,
    volumes: Seq<VolumeLog>,
    now_seconds: i64,
    now_nanos: u32,
    retention: Seq<char>,
    r: Result<Vec<VolumePair>, TopFailure>,
) -> bool {
    if p.since is Some {
        let needed = now_seconds - p.since->0;
        match r {
            Ok(parts) => {
                &&& forall|j: int|
                    0 <= j < volumes.len() ==> reaches(#[trigger] volumes[j], now_seconds, now_nanos, needed)
                &&& parts@.len() == volumes.len()
                &&& forall|k: int|
                    0 <= k < parts@.len() ==> is_since(volumes[k], rfc3339_text(p.since->0, 0), #[trigger] parts@[k])
            },
            Err(TopFailure::TooShort { available_secs, needed_secs }) => needed_secs == needed && falls_short(
                volumes,
                now_seconds,
                now_nanos,
                needed,
                available_secs,
            ),
            Err(_) => false,
        }
    } else if p.between_a is Some {
        match r {
            Ok(parts) => {
                let names = compared_volumes(volume, named.a->0, named.b->0);
                &&& naming_error(p, named) is None
                &&& parts@.len() == names.len()
                &&& forall|k: int|
                    0 <= k < names.len() ==> is_compared(
                        named.a->0,
                        named.b->0,
                        volumes,
                        names[k],
                        #[trigger] parts@[k],
                    )
            },
            Err(TopFailure::Refused(e)) => match naming_error(p, named) {
                Some(message) => e@ == message,
                None => refuses(
                    named.a->0,
                    named.b->0,
                    volumes,
                    compared_volumes(volume, named.a->0, named.b->0),
                    retention,
                    e@,
                ),
            },
            Err(_) => false,
        }
    } else {
        r is Ok && r->Ok_0@.len() == 0
    }
}

fn not_found(label: &str) -> (r: String)
    ensures
        r@ == "E_NOT_FOUND: Snapshot not found: "@ + label@,
{
    let mut r = "E_NOT_FOUND: Snapshot not found: ".to_owned();
    r.append(label);
    r
}

/// Tells over which parts of the logs a request ranks.
pub fn top_parts(
    p: &TopParams,
    volume: Option<&str>,
    named: &NamedSnapshots,
    volumes: &Vec<VolumeLog>,
    now_seconds: i64,
    now_nanos: u32,
    retention: &str,
) -> (r: Result<Vec<VolumePair>, TopFailure>)
    requires
        p.since is Some ==> i64::MIN <= now_seconds - p.since->0 <= i64::MAX,
        forall|k: int| 0 <= k < volumes@.len() ==> has_begin(#[trigger] volumes@[k]),
    ensures
        is_answered(*p, opt_str(volume), *named, volumes@, now_seconds, now_nanos, retention@, r),
{
    if let Some(since) = p.since {
        return match history_shortfall(volumes, since, now_seconds, now_nanos) {
            Some((available_secs, needed_secs)) => Err(TopFailure::TooShort { available_secs, needed_secs }),
            None => Ok(since_intervals(volumes, since)),
        };
    }
    let first = match &p.between_a {
        Some(label) => label.as_str(),
        None => {
            return Ok(Vec::new());
        },
    };
    let second = match &p.between_b {
        Some(label) => label.as_str(),
        None => {
            return Err(TopFailure::Refused("Missing parameter between_b".to_owned()));
        },
    };
    let a = match &named.a {
        Some(a) => a,
        None => {
            return Err(TopFailure::Refused(not_found(first)));
        },
    };
    let b = match &named.b {
        Some(b) => b,
        None => {
            return Err(TopFailure::Refused(not_found(second)));
        },
    };
    match between_intervals(volume, a, b, volumes, retention) {
        Ok(parts) => Ok(parts),
        Err(e) => Err(TopFailure::Refused(e)),
    }
}

} // verus!
