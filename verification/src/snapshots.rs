//! Snapshots: requests to take one, their labels and ages, and which parts of the
//! mutation log are compared between two of them.

use crate::calendar::{elapsed_seconds, seconds_since};
use crate::decimal::{decimal, decimal_text, hex_text, hexadecimal};
use crate::text::{is_among, str_eq, trim, trimmed, uppercase, uppercase_of, views};
use crate::top_request::{find_entry, has_volume, is_entry, ParentSnapshot, SnapshotVolume};
use vstd::prelude::*;

verus! {

/// How long ago something was, in words, given the seconds since then.
pub open spec fn age_text(seconds: Option<i64>) -> Seq<char> {
    match seconds {
        None => "some time ago"@,
        Some(s) => if s < 60 {
            "just now"@
        } else if s / 60 < 60 {
            decimal_text((s / 60) as nat) + " minutes ago"@
        } else if s / 3600 < 24 {
            decimal_text((s / 3600) as nat) + " hours ago"@
        } else {
            decimal_text((s / 86400) as nat) + " days ago"@
        },
    }
}

fn counted(n: i64, unit: &str) -> (r: String)
    requires
        n >= 0,
    ensures
        r@ == decimal_text(n as nat) + unit@,
{
    let mut r = decimal(n as u64);
    r.append(unit);
    r
}

/// Puts the time since something in words.
pub fn relative_age(seconds: Option<i64>) -> (r: String)
    ensures
        r@ == age_text(seconds),
{
    match seconds {
        None => "some time ago".to_owned(),
        Some(s) => {
            if s < 60 {
                "just now".to_owned()
            } else if s / 60 < 60 {
                counted(s / 60, " minutes ago")
            } else if s / 3600 < 24 {
                counted(s / 3600, " hours ago")
            } else {
                counted(s / 86400, " days ago")
            }
        },
    }
}

/// Puts the age of a snapshot in words.
pub fn format_relative_age(created_at: &str, now_seconds: i64, now_nanos: u32) -> (r: String)
    ensures
        r@ == age_text(elapsed_seconds(created_at@, now_seconds, now_nanos)),
{
    relative_age(seconds_since(created_at, now_seconds, now_nanos))
}

/// An id made of a prefix and a seed, such as the nanoseconds since 1970.
pub fn generate_random_id(prefix: &str, seed: u128) -> (r: String)
    ensures
        r@ == prefix@.push('_') + hex_text(seed as nat),
{
    let mut r = prefix.to_owned();
    r.push('_');
    let digits = hexadecimal(seed);
    r.append(digits.as_str());
    r
}

/// The names of volumes in upper case.
pub fn upper_volumes(volumes: &Vec<String>) -> (r: Vec<String>)
    ensures
        r@.len() == volumes@.len(),
        forall|i: int| 0 <= i < r@.len() ==> (#[trigger] r@[i])@ == uppercase_of(volumes@[i]@),
{
    let mut r: Vec<String> = Vec::new();
    let mut i: usize = 0;
    while i < volumes.len()
        invariant
            i <= volumes@.len(),
            r@.len() == i,
            forall|k: int| 0 <= k < i ==> (#[trigger] r@[k])@ == uppercase_of(volumes@[k]@),
        decreases volumes@.len() - i,
    {
        r.push(uppercase(volumes[i].as_str()));
        i = i + 1;
    }
    r
}

/// The first volume that is not registered stands at `i`.
pub open spec fn first_unregistered(volumes: Seq<String>, registered: Seq<String>, i: int) -> bool {
    &&& 0 <= i < volumes.len()
    &&& !views(registered).contains(volumes[i]@)
    &&& forall|k: int| 0 <= k < i ==> views(registered).contains((#[trigger] volumes[k])@)
}

/// Checks that the volumes of a snapshot are named and registered.
pub fn check_volumes(volumes: &Vec<String>, registered: &Vec<String>) -> (r: Result<(), String>)
    ensures
        match r {
            Ok(_) => volumes@.len() > 0 && forall|k: int|
                0 <= k < volumes@.len() ==> views(registered@).contains((#[trigger] volumes@[k])@),
            Err(e) => if volumes@.len() == 0 {
                e@ == "Missing volumes parameter"@
            } else {
                exists|i: int|
                    #[trigger] first_unregistered(volumes@, registered@, i) && e@ == "Volume "@ + volumes@[i]@
                        + " is not registered."@
            },
        },
{
    if volumes.len() == 0 {
        return Err("Missing volumes parameter".to_owned());
    }
    let mut i: usize = 0;
    while i < volumes.len()
        invariant
            volumes@.len() > 0,
            i <= volumes@.len(),
            forall|k: int| 0 <= k < i ==> views(registered@).contains((#[trigger] volumes@[k])@),
        decreases volumes@.len() - i,
    {
        if !is_among(registered, volumes[i].as_str()) {
            let mut e = "Volume ".to_owned();
            e.append(volumes[i].as_str());
            e.append(" is not registered.");
            assert(first_unregistered(volumes@, registered@, i as int));
            return Err(e);
        }
        i = i + 1;
    }
    Ok(())
}

/// The label of a snapshot without white space around it; it must not be empty.
pub fn clean_label(label: &str) -> (r: Result<String, String>)
    ensures
        match r {
            Ok(l) => l@ == trimmed(label@) && l@.len() > 0,
            Err(e) => trimmed(label@).len() == 0 && e@ == "Label cannot be empty"@,
        },
{
    let l = trim(label);
    if l.as_str().is_empty() {
        Err("Label cannot be empty".to_owned())
    } else {
        Ok(l)
    }
}

/// The message for a label that is already in use.
pub open spec fn taken_text(label: Seq<char>, age: Seq<char>, id: Seq<char>) -> Seq<char> {
    "E_INVALID_PARAMS: A snapshot named \""@ + label + "\" already exists (created "@ + age + ", id "@ + id
        + "). Choose a different label, or omit --label to get an auto-generated one."@
}

pub fn label_taken(label: &str, age: &str, id: &str) -> (r: String)
    ensures
        r@ == taken_text(label@, age@, id@),
{
    let mut r = "E_INVALID_PARAMS: A snapshot named \"".to_owned();
    r.append(label);
    r.append("\" already exists (created ");
    r.append(age);
    r.append(", id ");
    r.append(id);
    r.append("). Choose a different label, or omit --label to get an auto-generated one.");
    r
}

/// What a snapshot is to be taken of.
#[derive(Debug)]
pub struct SnapshotRequest {
    pub volumes: Vec<String>,
    /// A label that was asked for.
    pub label: Option<String>,
}

/// The names of volumes in upper case.
pub open spec fn in_upper(volumes: Seq<String>) -> Seq<Seq<char>> {
    Seq::new(volumes.len(), |i: int| uppercase_of(volumes[i]@))
}

/// What comes of a request for a snapshot of volumes that are named in upper case.
pub open spec fn is_planned(upper: Seq<Seq<char>>, registered: Seq<Seq<char>>, label: Option<Seq<char>>, r: Result<SnapshotRequest, String>) -> bool {
    if upper.len() == 0 {
        r is Err && r->Err_0@ == "Missing volumes parameter"@
    } else if exists|i: int| 0 <= i < upper.len() && !registered.contains(#[trigger] upper[i]) {
        r is Err && exists|i: int|
            {
                &&& 0 <= i < upper.len()
                &&& !registered.contains(#[trigger] upper[i])
                &&& forall|k: int| 0 <= k < i ==> registered.contains(#[trigger] upper[k])
                &&& r->Err_0@ == "Volume "@ + upper[i] + " is not registered."@
            }
    } else if label is Some && trimmed(label->0).len() == 0 {
        r is Err && r->Err_0@ == "Label cannot be empty"@
    } else {
        &&& r is Ok
        &&& views(r->Ok_0.volumes@) == upper
        &&& label is None ==> r->Ok_0.label is None
        &&& label is Some ==> r->Ok_0.label is Some && r->Ok_0.label->0@ == trimmed(label->0)
    }
}

/// Checks a request for a snapshot of volumes that are named in upper case.
pub fn plan_snapshot(upper: Vec<String>, registered: &Vec<String>, label: Option<&str>) -> (r: Result<SnapshotRequest, String>)
    ensures
        is_planned(
            views(upper@),
            views(registered@),
            match label {
                Some(l) => Some(l@),
                None => None,
            },
            r,
        ),
{
    let ghost names = views(upper@);
    if let Err(e) = check_volumes(&upper, registered) {
        proof {
            if names.len() > 0 {
                let i = choose|i: int|
                    #[trigger] first_unregistered(upper@, registered@, i) && e@ == "Volume "@ + upper@[i]@
                        + " is not registered."@;
                assert(names[i] == upper@[i]@);
                assert forall|k: int| 0 <= k < i implies views(registered@).contains(#[trigger] names[k]) by {
                    assert(names[k] == upper@[k]@);
                }
            }
        }
        return Err(e);
    }
    assert forall|k: int| 0 <= k < names.len() implies views(registered@).contains(#[trigger] names[k]) by {
        assert(names[k] == upper@[k]@);
    }
    match label {
        None => Ok(SnapshotRequest { volumes: upper, label: None }),
        Some(l) => match clean_label(l) {
            Err(e) => Err(e),
            Ok(l) => Ok(SnapshotRequest { volumes: upper, label: Some(l) }),
        },
    }
}

/// Checks a request for a snapshot.
pub fn handle_snapshot_create(volumes: &Vec<String>, registered: &Vec<String>, label: Option<&str>) -> (r: Result<SnapshotRequest, String>)
    ensures
        is_planned(
            in_upper(volumes@),
            views(registered@),
            match label {
                Some(l) => Some(l@),
                None => None,
            },
            r,
        ),
{
    let upper = upper_volumes(volumes);
    assert(views(upper@) =~= in_upper(volumes@));
    plan_snapshot(upper, registered, label)
}

/// A snapshot with the given label.
pub struct ExistingSnapshot {
    pub id: String,
    pub created_at: String,
}

/// A label must not be in use: `existing` is the snapshot that has it, if there is one.
pub fn check_label_free(label: &str, existing: &Option<ExistingSnapshot>, now_seconds: i64, now_nanos: u32) -> (r: Result<(), String>)
    ensures
        match existing {
            None => r is Ok,
            Some(x) => r is Err && r->Err_0@ == taken_text(
                label@,
                age_text(elapsed_seconds(x.created_at@, now_seconds, now_nanos)),
                x.id@,
            ),
        },
{
    match existing {
        None => Ok(()),
        Some(x) => {
            let age = format_relative_age(x.created_at.as_str(), now_seconds, now_nanos);
            Err(label_taken(label, age.as_str(), x.id.as_str()))
        },
    }
}

/// The message for a snapshot that does not exist.
pub fn snapshot_not_found(input: &str) -> (r: String)
    ensures
        r@ == "E_NOT_FOUND: Couldn't find snapshot \""@ + input@ + "\". Check the path/ID and try again."@,
{
    let mut r = "E_NOT_FOUND: Couldn't find snapshot \"".to_owned();
    r.append(input);
    r.append("\". Check the path/ID and try again.");
    r
}

/// A volume with the part of its log that is compared.
pub struct VolumePair {
    pub volume: String,
    pub start: i64,
    pub end: i64,
}

/// The pair spans from the earlier to the later of two places.
pub open spec fn spans(p: VolumePair, volume: Seq<char>, x: i64, y: i64) -> bool {
    &&& p.volume@ == volume
    &&& p.start == (if x <= y { x } else { y })
    &&& p.end == (if x <= y { y } else { x })
}

/// The pairs of all volumes of the first snapshot that the second one holds too.
pub open spec fn are_pairs(a: Seq<SnapshotVolume>, b: Seq<SnapshotVolume>, pairs: Seq<VolumePair>) -> bool
    decreases a.len(),
{
    if a.len() == 0 {
        pairs.len() == 0
    } else {
        let x = a.last();
        if has_volume(b, x.volume@) {
            &&& pairs.len() > 0
            &&& exists|k: int|
                #[trigger] is_entry(b, x.volume@, k) && spans(
                    pairs.last(),
                    x.volume@,
                    x.sequence_number,
                    b[k].sequence_number,
                )
            &&& are_pairs(a.drop_last(), b, pairs.drop_last())
        } else {
            are_pairs(a.drop_last(), b, pairs)
        }
    }
}

fn pair(volume: String, x: i64, y: i64) -> (p: VolumePair)
    ensures
        spans(p, volume@, x, y),
{
    if x <= y {
        VolumePair { volume, start: x, end: y }
    } else {
        VolumePair { volume, start: y, end: x }
    }
}

/// The parts of the log that are compared between two snapshots: of the volume asked
/// for, or else of every volume that both hold.
pub fn snapshot_pairs(volume: Option<String>, a: &ParentSnapshot, b: &ParentSnapshot) -> (r: Result<
    Vec<VolumePair>,
    String,
>)
    ensures
        match volume {
            Some(v) => if has_volume(a.volumes@, v@) && has_volume(b.volumes@, v@) {
                r is Ok && r->Ok_0@.len() == 1 && exists|i: int, j: int|
                    #![trigger is_entry(a.volumes@, v@, i), is_entry(b.volumes@, v@, j)]
                    is_entry(a.volumes@, v@, i) && is_entry(b.volumes@, v@, j) && spans(
                        r->Ok_0@[0],
                        v@,
                        a.volumes@[i].sequence_number,
                        b.volumes@[j].sequence_number,
                    )
            } else {
                r is Err && r->Err_0@ == "E_NOT_FOUND: Target volume "@ + v@
                    + " is not present in both snapshots."@
            },
            None => match r {
                Ok(pairs) => pairs@.len() > 0 && are_pairs(a.volumes@, b.volumes@, pairs@),
                Err(e) => are_pairs(a.volumes@, b.volumes@, Seq::empty()) && e@
                    == "No common volumes found to compare between these snapshots."@,
            },
        },
{
    let mut pairs: Vec<VolumePair> = Vec::new();
    match volume {
        Some(v) => {
            let i = find_entry(&a.volumes, v.as_str());
            let j = find_entry(&b.volumes, v.as_str());
            match (i, j) {
                (Some(i), Some(j)) => {
                    assert(a.volumes@[i as int].volume@ == v@);
                    assert(b.volumes@[j as int].volume@ == v@);
                    assert(is_entry(a.volumes@, v@, i as int) && is_entry(b.volumes@, v@, j as int));
                    pairs.push(
                        pair(v.clone(), a.volumes[i].sequence_number, b.volumes[j].sequence_number),
                    );
                    Ok(pairs)
                },
                _ => {
                    let mut e = "E_NOT_FOUND: Target volume ".to_owned();
                    e.append(v.as_str());
                    e.append(" is not present in both snapshots.");
                    Err(e)
                },
            }
        },
        None => {
            let ghost all = a.volumes@;
            let mut i: usize = 0;
            assert(all.take(0) =~= Seq::<SnapshotVolume>::empty());
            while i < a.volumes.len()
                invariant
                    all == a.volumes@,
                    i <= all.len(),
                    are_pairs(all.take(i as int), b.volumes@, pairs@),
                decreases all.len() - i,
            {
                let ca = &a.volumes[i];
                let ghost before = pairs@;
                proof {
                    assert(all.take(i + 1).drop_last() =~= all.take(i as int));
                    assert(all.take(i + 1).last() == *ca);
                }
                match find_entry(&b.volumes, ca.volume.as_str()) {
                    Some(j) => {
                        assert(b.volumes@[j as int].volume@ == ca.volume@);
                        pairs.push(
                            pair(ca.volume.clone(), ca.sequence_number, b.volumes[j].sequence_number),
                        );
                        assert(pairs@.drop_last() =~= before);
                        assert(is_entry(b.volumes@, ca.volume@, j as int));
                    },
                    None => {},
                }
                i = i + 1;
            }
            assert(all.take(i as int) =~= all);
            if pairs.len() == 0 {
                assert(pairs@ =~= Seq::<VolumePair>::empty());
                Err("No common volumes found to compare between these snapshots.".to_owned())
            } else {
                Ok(pairs)
            }
        },
    }
}

/// A background job.
#[derive(Clone)]
pub struct Job {
    pub id: String,
    pub completed: bool,
    pub progress: u32,
    /// The result, as JSON.
    pub result: Option<String>,
    pub error: Option<String>,
}

/// The jobs that were started.
pub struct JobTable {
    pub jobs: Vec<Job>,
}

impl JobTable {
    /// No two jobs have the same id.
    pub open spec fn wf(&self) -> bool {
        forall|i: int, j: int|
            0 <= i < j < self.jobs@.len() ==> (#[trigger] self.jobs@[i]).id@ != (#[trigger] self.jobs@[j]).id@
    }

    pub open spec fn has(&self, id: Seq<char>) -> bool {
        exists|i: int| 0 <= i < self.jobs@.len() && (#[trigger] self.jobs@[i]).id@ == id
    }

    pub fn new() -> (t: JobTable)
        ensures
            t.wf(),
            t.jobs@.len() == 0,
    {
        JobTable { jobs: Vec::new() }
    }

    fn find(&self, id: &str) -> (r: Option<usize>)
        ensures
            match r {
                Some(i) => i < self.jobs@.len() && self.jobs@[i as int].id@ == id@,
                None => !self.has(id@),
            },
    {
        let mut i: usize = 0;
        while i < self.jobs.len()
            invariant
                i <= self.jobs@.len(),
                forall|k: int| 0 <= k < i ==> (#[trigger] self.jobs@[k]).id@ != id@,
            decreases self.jobs@.len() - i,
        {
            if str_eq(self.jobs[i].id.as_str(), id) {
                return Some(i);
            }
            i = i + 1;
        }
        None
    }

    /// Enters a job that was started.
    pub fn start(&mut self, id: String)
        requires
            old(self).wf(),
            !old(self).has(id@),
        ensures
            final(self).wf(),
            final(self).jobs@ == old(self).jobs@.push(
                (Job { id, completed: false, progress: 0, result: None, error: None }),
            ),
    {
        self.jobs.push(Job { id, completed: false, progress: 0, result: None, error: None });
    }

    /// Enters the outcome of a job; a job that is not known is passed over.
    pub fn finish(&mut self, id: &str, outcome: Result<String, String>)
        requires
            old(self).wf(),
        ensures
            final(self).wf(),
            final(self).jobs@.len() == old(self).jobs@.len(),
            forall|i: int|
                0 <= i < old(self).jobs@.len() ==> {
                    let j = old(self).jobs@[i];
                    #[trigger] final(self).jobs@[i] == (if j.id@ == id@ {
                        Job {
                            id: j.id,
                            completed: true,
                            progress: 100,
                            result: (match outcome {
                                Ok(v) => Some(v),
                                Err(_) => j.result,
                            }),
                            error: (match outcome {
                                Ok(_) => j.error,
                                Err(e) => Some(e),
                            }),
                        }
                    } else {
                        j
                    })
                },
    {
        if let Some(i) = self.find(id) {
            let ghost before = self.jobs@;
            let job = &self.jobs[i];
            let result = match &job.result {
                Some(v) => Some(v.clone()),
                None => None,
            };
            let error = match &job.error {
                Some(e) => Some(e.clone()),
                None => None,
            };
            let id = job.id.clone();
            let done = match outcome {
                Ok(v) => Job { id, completed: true, progress: 100, result: Some(v), error },
                Err(e) => Job { id, completed: true, progress: 100, result, error: Some(e) },
            };
            self.jobs.set(i, done);
        }
    }

    /// The state of a job.
    pub fn handle_job_completed(&self, id: &str) -> (r: Result<&Job, String>)
        ensures
            match r {
                Ok(job) => self.jobs@.contains(*job) && job.id@ == id@,
                Err(e) => !self.has(id@) && e@ == "E_NOT_FOUND: Job not found"@,
            },
    {
        match self.find(id) {
            Some(i) => {
                assert(self.jobs@[i as int] == self.jobs[i as int]);
                Ok(&self.jobs[i])
            },
            None => Err("E_NOT_FOUND: Job not found".to_owned()),
        }
    }
}

} // verus!
