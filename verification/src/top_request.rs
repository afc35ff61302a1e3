//! Requests for the top items: which combinations are allowed, and over which volumes
//! and which part of the mutation log they are answered.

use crate::calendar::{format_rfc3339, rfc3339_text};
use crate::model::{incomplete_volumes, not_live, ProgressRegistry};
use crate::text::{opt_text, str_eq, uppercase, uppercase_of, views};
use crate::top::{
    gathers, in_range, is_page, requested_cursor, top_page, Measure, TopItem, TopPage, TopResponse,
    VolumeFacts, VolumeTable,
};
use vstd::prelude::*;

verus! {

/// A request for the top items.
pub struct TopParams {
    pub volume: Option<String>,
    pub folders: bool,
    pub files: bool,
    pub since: Option<i64>,
    pub between_a: Option<String>,
    pub between_b: Option<String>,
    pub growth: bool,
    pub churn: bool,
}

/// How a request is answered.
pub struct TopPlan {
    /// The volumes to look at.
    pub volumes: Vec<String>,
    /// The directory below which results must lie.
    pub ancestor: Option<u64>,
    /// Whether folders are shown, with what lies below them.
    pub rollup: bool,
    pub measure: Measure,
}

/// The request asks for changes over an interval.
pub open spec fn asks_interval(p: TopParams) -> bool {
    p.since is Some || p.between_a is Some
}

/// Why a request is refused, if it is. `volume` is the volume filter in upper case,
/// `target` the volume and file id of the path filter.
pub open spec fn refusal(p: TopParams, volume: Option<Seq<char>>, target: Option<(Seq<char>, u64)>) -> Option<Seq<char>> {
    if target is Some && volume is Some && volume->0 != (target->0).0 {
        Some("E_INVALID_PARAMS: Path filter and volume filter do not match."@)
    } else if p.since is Some && (p.between_a is Some || p.between_b is Some) {
        Some("E_INVALID_PARAMS: Parameters '--since' and '--between' are mutually exclusive."@)
    } else if p.growth && p.churn {
        Some("E_INVALID_PARAMS: Parameters '--growth' and '--churn' are mutually exclusive."@)
    } else if p.folders && p.files {
        Some("E_INVALID_PARAMS: Parameters '--folders' and '--files' are mutually exclusive."@)
    } else {
        None
    }
}

/// The volumes that a request looks at: the one asked for, or else all.
pub open spec fn target_volumes(
    volume: Option<Seq<char>>,
    target: Option<(Seq<char>, u64)>,
    registered: Seq<String>,
) -> Seq<Seq<char>> {
    if target is Some {
        seq![(target->0).0]
    } else if volume is Some {
        seq![volume->0]
    } else {
        views(registered)
    }
}

/// The view of an optional string.
pub open spec fn text_of(s: Option<String>) -> Option<Seq<char>> {
    match s {
        Some(s) => Some(s@),
        None => None,
    }
}

/// The view of an optional volume and file id.
pub open spec fn target_of(t: Option<(String, u64)>) -> Option<(Seq<char>, u64)> {
    match t {
        Some(t) => Some((t.0@, t.1)),
        None => None,
    }
}

/// The plan is that for the request.
pub open spec fn is_plan(
    p: TopParams,
    volume: Option<Seq<char>>,
    target: Option<(Seq<char>, u64)>,
    registered: Seq<String>,
    plan: TopPlan,
) -> bool {
    &&& views(plan.volumes@) == target_volumes(volume, target, registered)
    &&& plan.ancestor == (match target {
        Some(t) => Some(t.1),
        None => None,
    })
    &&& plan.rollup == (p.folders || (!p.files && asks_interval(p)))
    &&& plan.measure == (if !asks_interval(p) {
        Measure::Size
    } else if p.churn {
        Measure::Churn
    } else {
        Measure::Growth
    })
}

/// Plans the answer to a request whose volume filter is in upper case.
pub fn plan_top_for(
    p: &TopParams,
    volume: Option<String>,
    target: Option<(String, u64)>,
    registered: Vec<String>,
) -> (r: Result<TopPlan, String>)
    ensures
        match r {
            Ok(plan) => refusal(*p, text_of(volume), target_of(target)) is None && is_plan(
                *p,
                text_of(volume),
                target_of(target),
                registered@,
                plan,
            ),
            Err(e) => refusal(*p, text_of(volume), target_of(target)) == Some(e@),
        },
{
    let ghost v = text_of(volume);
    let ghost t = target_of(target);
    if let (Some(f), Some((vol, _))) = (&volume, &target) {
        if !str_eq(f.as_str(), vol.as_str()) {
            return Err("E_INVALID_PARAMS: Path filter and volume filter do not match.".to_owned());
        }
    }
    if p.since.is_some() && (p.between_a.is_some() || p.between_b.is_some()) {
        return Err(
            "E_INVALID_PARAMS: Parameters '--since' and '--between' are mutually exclusive.".to_owned(),
        );
    }
    if p.growth && p.churn {
        return Err(
            "E_INVALID_PARAMS: Parameters '--growth' and '--churn' are mutually exclusive.".to_owned(),
        );
    }
    if p.folders && p.files {
        return Err(
            "E_INVALID_PARAMS: Parameters '--folders' and '--files' are mutually exclusive.".to_owned(),
        );
    }
    let interval = p.since.is_some() || p.between_a.is_some();
    let rollup = if p.folders {
        true
    } else if p.files {
        false
    } else {
        interval
    };
    let measure = if !interval {
        Measure::Size
    } else if p.churn {
        Measure::Churn
    } else {
        Measure::Growth
    };
    let (volumes, ancestor) = match target {
        Some((vol, fid)) => {
            let mut one: Vec<String> = Vec::new();
            one.push(vol);
            assert(views(one@) =~= seq![vol@]);
            (one, Some(fid))
        },
        None => match volume {
            Some(vol) => {
                let mut one: Vec<String> = Vec::new();
                one.push(vol);
                assert(views(one@) =~= seq![vol@]);
                (one, None)
            },
            None => (registered, None),
        },
    };
    Ok(TopPlan { volumes, ancestor, rollup, measure })
}

/// The volume filter of a request in upper case.
pub open spec fn upper_volume(p: TopParams) -> Option<Seq<char>> {
    match p.volume {
        Some(v) => Some(uppercase_of(v@)),
        None => None,
    }
}

/// Plans the answer to a request.
pub fn plan_top(p: &TopParams, target: Option<(String, u64)>, registered: Vec<String>) -> (r: Result<
    TopPlan,
    String,
>)
    ensures
        match r {
            Ok(plan) => refusal(*p, upper_volume(*p), target_of(target)) is None && is_plan(
                *p,
                upper_volume(*p),
                target_of(target),
                registered@,
                plan,
            ),
            Err(e) => refusal(*p, upper_volume(*p), target_of(target)) == Some(e@),
        },
{
    let volume = match &p.volume {
        Some(v) => Some(uppercase(v.as_str())),
        None => None,
    };
    plan_top_for(p, volume, target, registered)
}

/// The log reaches less far back than the interval asked for.
pub fn insufficient_history(available_secs: i64, needed_secs: i64) -> (r: bool)
    ensures
        r == (available_secs < needed_secs),
{
    available_secs < needed_secs
}

/// The place of a volume in the mutation log when a snapshot was taken.
pub struct SnapshotVolume {
    pub volume: String,
    pub sequence_number: i64,
}

/// A snapshot over several volumes.
pub struct ParentSnapshot {
    pub label: String,
    pub volumes: Vec<SnapshotVolume>,
}

/// The first entry of a volume stands at `k`.
pub open spec fn is_entry(volumes: Seq<SnapshotVolume>, volume: Seq<char>, k: int) -> bool {
    &&& 0 <= k < volumes.len()
    &&& volumes[k].volume@ == volume
    &&& forall|j: int| 0 <= j < k ==> (#[trigger] volumes[j]).volume@ != volume
}

/// The volume is part of the snapshot.
pub open spec fn has_volume(volumes: Seq<SnapshotVolume>, volume: Seq<char>) -> bool {
    exists|k: int| 0 <= k < volumes.len() && (#[trigger] volumes[k]).volume@ == volume
}

pub fn find_entry(volumes: &Vec<SnapshotVolume>, volume: &str) -> (r: Option<usize>)
    ensures
        match r {
            Some(k) => is_entry(volumes@, volume@, k as int),
            None => !has_volume(volumes@, volume@),
        },
{
    let mut k: usize = 0;
    while k < volumes.len()
        invariant
            k <= volumes@.len(),
            forall|j: int| 0 <= j < k ==> (#[trigger] volumes@[j]).volume@ != volume@,
        decreases volumes@.len() - k,
    {
        if str_eq(volumes[k].volume.as_str(), volume) {
            return Some(k);
        }
        k = k + 1;
    }
    None
}

/// The volumes of the first snapshot that are part of the second too.
pub open spec fn shared_volumes(a: Seq<SnapshotVolume>, b: Seq<SnapshotVolume>) -> Seq<Seq<char>>
    decreases a.len(),
{
    if a.len() == 0 {
        Seq::empty()
    } else {
        let rest = shared_volumes(a.drop_last(), b);
        if has_volume(b, a.last().volume@) {
            rest.push(a.last().volume@)
        } else {
            rest
        }
    }
}

/// The volumes that two snapshots can be compared on.
pub fn common_volumes(a: &ParentSnapshot, b: &ParentSnapshot) -> (r: Vec<String>)
    ensures
        views(r@) == shared_volumes(a.volumes@, b.volumes@),
{
    let ghost all = a.volumes@;
    let mut r: Vec<String> = Vec::new();
    let mut i: usize = 0;
    assert(all.take(0) =~= Seq::<SnapshotVolume>::empty());
    assert(views(r@) =~= Seq::<Seq<char>>::empty());
    while i < a.volumes.len()
        invariant
            all == a.volumes@,
            i <= all.len(),
            views(r@) == shared_volumes(all.take(i as int), b.volumes@),
        decreases all.len() - i,
    {
        proof {
            assert(all.take(i + 1).drop_last() =~= all.take(i as int));
        }
        let ghost before = views(r@);
        match find_entry(&b.volumes, a.volumes[i].volume.as_str()) {
            Some(k) => {
                assert(b.volumes@[k as int].volume@ == all[i as int].volume@);
                r.push(a.volumes[i].volume.clone());
                assert(views(r@) =~= before.push(all[i as int].volume@));
            },
            None => {},
        }
        i = i + 1;
    }
    assert(all.take(i as int) =~= all);
    r
}

/// The message for a volume that a snapshot does not hold.
pub open spec fn missing_volume(volume: Seq<char>, label: Seq<char>) -> Seq<char> {
    "E_NOT_FOUND: Volume "@ + volume + " not found in snapshot "@ + label
}

fn missing_volume_text(volume: &str, label: &str) -> (r: String)
    ensures
        r@ == missing_volume(volume@, label@),
{
    let mut r = "E_NOT_FOUND: Volume ".to_owned();
    r.append(volume);
    r.append(" not found in snapshot ");
    r.append(label);
    r
}

/// The part of the mutation log between two snapshots, the earlier place first.
pub fn interval_between(a: &ParentSnapshot, b: &ParentSnapshot, volume: &str) -> (r: Result<(i64, i64), String>)
    ensures
        match r {
            Ok((start, end)) => {
                &&& has_volume(a.volumes@, volume@)
                &&& has_volume(b.volumes@, volume@)
                &&& forall|i: int, j: int|
                    #![trigger is_entry(a.volumes@, volume@, i), is_entry(b.volumes@, volume@, j)]
                    is_entry(a.volumes@, volume@, i) && is_entry(b.volumes@, volume@, j) ==> {
                        let x = a.volumes@[i].sequence_number;
                        let y = b.volumes@[j].sequence_number;
                        start == (if x <= y { x } else { y }) && end == (if x <= y { y } else { x })
                    }
            },
            Err(e) => if !has_volume(a.volumes@, volume@) {
                e@ == missing_volume(volume@, a.label@)
            } else {
                !has_volume(b.volumes@, volume@) && e@ == missing_volume(volume@, b.label@)
            },
        },
{
    match find_entry(&a.volumes, volume) {
        None => Err(missing_volume_text(volume, a.label.as_str())),
        Some(i) => {
            assert(a.volumes@[i as int].volume@ == volume@);
            match find_entry(&b.volumes, volume) {
                None => Err(missing_volume_text(volume, b.label.as_str())),
                Some(j) => {
                    assert(b.volumes@[j as int].volume@ == volume@);
                    let x = a.volumes[i].sequence_number;
                    let y = b.volumes[j].sequence_number;
                    assert forall|k: int| #[trigger] is_entry(a.volumes@, volume@, k) implies k == i by {
                        if k < i {
                            assert(a.volumes@[k].volume@ == volume@);
                        } else if i < k {
                            assert(a.volumes@[i as int].volume@ == volume@);
                        }
                    }
                    assert forall|k: int| #[trigger] is_entry(b.volumes@, volume@, k) implies k == j by {
                        if k < j {
                            assert(b.volumes@[k].volume@ == volume@);
                        } else if j < k {
                            assert(b.volumes@[j as int].volume@ == volume@);
                        }
                    }
                    if x <= y {
                        Ok((x, y))
                    } else {
                        Ok((y, x))
                    }
                },
            }
        },
    }
}

/// Refuses an interval that begins before the oldest entry of the log, if entries
/// were already removed from it.
pub fn check_log_reaches(start: i64, min_sequence: i64, retention: &str) -> (r: Result<(), String>)
    ensures
        r is Err <==> start < min_sequence && min_sequence > 1,
        r is Err ==> (r->Err_0)@
            == "E_SNAPSHOT_DATA_EXPIRED: This comparison goes further back than DiskTracker currently keeps ("@
            + retention@ + "). Try a more recent snapshot pair."@,
{
    if start < min_sequence && min_sequence > 1 {
        let mut e = "E_SNAPSHOT_DATA_EXPIRED: This comparison goes further back than DiskTracker currently keeps (".to_owned();
        e.append(retention);
        e.append("). Try a more recent snapshot pair.");
        Err(e)
    } else {
        Ok(())
    }
}

/// The ends of the interval that a request is about, as texts: the moment that it names
/// and the present one, or the labels of the two snapshots.
pub open spec fn window_texts(
    p: TopParams,
    a: Option<ParentSnapshot>,
    b: Option<ParentSnapshot>,
    now_seconds: i64,
    now_nanos: u32,
) -> (Option<Seq<char>>, Option<Seq<char>>) {
    if p.since is Some {
        (Some(rfc3339_text(p.since->0, 0)), Some(rfc3339_text(now_seconds, now_nanos)))
    } else if p.between_a is Some {
        (label_text(a), label_text(b))
    } else {
        (None, None)
    }
}

/// The label of a snapshot.
pub open spec fn label_text(s: Option<ParentSnapshot>) -> Option<Seq<char>> {
    match s {
        Some(s) => Some(s.label@),
        None => None,
    }
}

fn label_of(s: &Option<ParentSnapshot>) -> (r: Option<String>)
    ensures
        opt_text(r) == label_text(*s),
{
    match s {
        Some(s) => Some(s.label.clone()),
        None => None,
    }
}

/// Tells the ends of the interval that a request is about.
pub fn top_window(
    p: &TopParams,
    a: &Option<ParentSnapshot>,
    b: &Option<ParentSnapshot>,
    now_seconds: i64,
    now_nanos: u32,
) -> (r: (Option<String>, Option<String>))
    ensures
        (opt_text(r.0), opt_text(r.1)) == window_texts(*p, *a, *b, now_seconds, now_nanos),
{
    match p.since {
        Some(since) => (
            Some(format_rfc3339(since, 0)),
            Some(format_rfc3339(now_seconds, now_nanos)),
        ),
        None => if p.between_a.is_some() {
            (label_of(a), label_of(b))
        } else {
            (None, None)
        },
    }
}

/// Answers a planned request from what is known of its volumes, at a moment given as
/// seconds and nanoseconds since 1970. `a` and `b` are the snapshots that it names.
pub fn handle_get_top(
    p: &TopParams,
    a: &Option<ParentSnapshot>,
    b: &Option<ParentSnapshot>,
    now_seconds: i64,
    now_nanos: u32,
    plan: &TopPlan,
    volumes: &Vec<VolumeFacts>,
    registry: &ProgressRegistry,
    cursor: &Option<String>,
    limit: usize,
) -> (r: TopResponse)
    requires
        registry.wf(),
        forall|k: int| 0 <= k < volumes@.len() ==> in_range(#[trigger] volumes@[k]),
    ensures
        exists|items: Seq<TopItem>, tables: Seq<VolumeTable>|
            #[trigger] gathers(volumes@, plan.measure, plan.rollup, plan.ancestor, items, tables) && is_page(
                items,
                tables,
                plan.measure,
                plan.rollup,
                requested_cursor(*cursor),
                limit as int,
                (TopPage { results: r.results, next_cursor: r.next_cursor }),
            ),
        views(r.volumes_incomplete@) == not_live(registry.names@, registry.trackers@),
        (opt_text(r.window_start), opt_text(r.window_end)) == window_texts(*p, *a, *b, now_seconds, now_nanos),
{
    let (window_start, window_end) = top_window(p, a, b, now_seconds, now_nanos);
    let volumes_incomplete = incomplete_volumes(registry);
    let page = top_page(volumes, plan.measure, plan.rollup, plan.ancestor, cursor, limit);
    TopResponse {
        results: page.results,
        volumes_incomplete,
        next_cursor: page.next_cursor,
        window_start,
        window_end,
    }
}

} // verus!
