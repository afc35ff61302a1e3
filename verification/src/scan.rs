//! Scans: their settings, what a directory holds, and the serial walk.

use crate::arena::PathlessArena;
use crate::identity::{FsIdentity, VisitedSet};
use crate::sums::{lemma_total_drop, lemma_total_prefix, total};
use crate::text::bytes_eq;
use crate::warm::SkipPredicate;
use vstd::prelude::*;

verus! {

/// Settings of a scan.
pub struct ScanConfig {
    pub root: Vec<u8>,
    /// Max directory depth. None = unlimited.
    pub max_depth: Option<u16>,
    /// Skip directories matching these exact names (e.g. ["proc", "sys"]).
    pub skip_names: Vec<Vec<u8>>,
    /// Skip mount points on Linux/macOS.
    pub one_filesystem: bool,
    /// Number of workers; 0 leaves the choice to the machine.
    pub parallelism: u16,
    /// The rule by which unchanged directories are not read again.
    pub skip_predicate: Option<SkipPredicate>,
}

impl Default for ScanConfig {
    fn default() -> (c: ScanConfig)
        ensures
            c.root@.len() == 0,
            c.max_depth is None,
            c.skip_names@.len() == 0,
            !c.one_filesystem,
            c.parallelism == 0,
            c.skip_predicate is None,
    {
        ScanConfig {
            root: Vec::new(),
            max_depth: None,
            skip_names: Vec::new(),
            one_filesystem: false,
            parallelism: 0,
            skip_predicate: None,
        }
    }
}

/// What a scan found.
pub struct ScanResult {
    pub arena: PathlessArena,
    pub total_files: u64,
    pub total_bytes: u64,
    pub scan_duration_ms: u64,
    /// Permission denied etc: counted, not fatal.
    pub error_count: u32,
}

/// Type of a directory entry.
#[derive(Debug, Clone, Copy, PartialEq, Eq, Structural)]
pub enum EntryType {
    Dir,
    File,
    Symlink,
    Other,
}

/// Metadata about a directory itself.
#[derive(Debug, Clone, Copy)]
pub struct DirMeta {
    pub mtime: i64,
    pub identity: FsIdentity,
}

/// A directory inside another one, with the device it lies on where that was asked for.
pub struct SubDir {
    pub name: Vec<u8>,
    pub device: Option<u64>,
}

/// Everything that was found directly inside a directory.
pub struct DirListing {
    pub subdirs: Vec<SubDir>,
    pub file_bytes: u64,
    pub file_count: u32,
    pub error_count: u32,
}

/// The directory is not on another file system than the root. Without a known root
/// device, or without the restriction, every directory passes.
pub open spec fn same_filesystem(one_filesystem: bool, root_device: u64, device: Option<u64>) -> bool {
    one_filesystem && root_device != 0 ==> (match device {
        Some(d) => d,
        None => 0,
    }) == root_device
}

/// Whether a directory is not on another file system than the root.
pub fn is_same_filesystem(one_filesystem: bool, root_device: u64, device: Option<u64>) -> (r: bool)
    ensures
        r == same_filesystem(one_filesystem, root_device, device),
{
    if one_filesystem && root_device != 0 {
        let d: u64 = match device {
            Some(d) => d,
            None => 0,
        };
        d == root_device
    } else {
        true
    }
}

/// One step of reading a directory.
pub enum RawEntry {
    /// An entry, with its size and identity where it is not a directory or a symbolic
    /// link.
    Found { name: Vec<u8>, kind: EntryType, size: u64, device: Option<u64>, identity: FsIdentity },
    /// An entry that could not be read.
    Error,
}

/// The name is neither a reference to the directory itself or its parent nor one of
/// those to be skipped.
pub open spec fn name_wanted(name: Seq<u8>, skip_names: Seq<Vec<u8>>) -> bool {
    &&& name != seq![46u8]
    &&& name != seq![46u8, 46u8]
    &&& forall|i: int| 0 <= i < skip_names.len() ==> (#[trigger] skip_names[i])@ != name
}

/// Whether an entry of this name is looked at.
pub fn is_name_wanted(name: &[u8], skip_names: &Vec<Vec<u8>>) -> (r: bool)
    ensures
        r == name_wanted(name@, skip_names@),
{
    if name.len() == 1 && name[0] == 46 {
        assert(name@ =~= seq![46u8]);
        return false;
    }
    if name.len() == 2 && name[0] == 46 && name[1] == 46 {
        assert(name@ =~= seq![46u8, 46u8]);
        return false;
    }
    assert(name@ != seq![46u8]);
    assert(name@ != seq![46u8, 46u8]);
    let mut i: usize = 0;
    while i < skip_names.len()
        invariant
            i <= skip_names@.len(),
            forall|j: int| 0 <= j < i ==> (#[trigger] skip_names@[j])@ != name@,
        decreases skip_names@.len() - i,
    {
        if bytes_eq(skip_names[i].as_slice(), name) {
            assert(skip_names@[i as int]@ == name@);
            return false;
        }
        i = i + 1;
    }
    true
}

/// Directories at `depth + 1` are still within the limit.
pub open spec fn depth_allowed(max_depth: Option<u16>, depth: u16) -> bool {
    match max_depth {
        Some(max) => depth + 1 <= max,
        None => true,
    }
}

/// The entry counts as a file: regular files do, and whatever else is neither a
/// directory nor a symbolic link and has a size.
pub open spec fn counts_as_file(e: RawEntry, skip_names: Seq<Vec<u8>>) -> bool {
    match e {
        RawEntry::Found { name, kind, size, .. } => name_wanted(name@, skip_names) && (kind == EntryType::File || (
        kind == EntryType::Other && size > 0)),
        RawEntry::Error => false,
    }
}

/// The entry is a directory to descend into.
pub open spec fn counts_as_dir(e: RawEntry, skip_names: Seq<Vec<u8>>, max_depth: Option<u16>, depth: u16) -> bool {
    match e {
        RawEntry::Found { name, kind, .. } => name_wanted(name@, skip_names) && kind == EntryType::Dir && depth_allowed(
            max_depth,
            depth,
        ) && !name@.contains(0u8),
        RawEntry::Error => false,
    }
}

/// The entry counts as a file of this identity.
pub open spec fn is_name_of(e: RawEntry, skip_names: Seq<Vec<u8>>, id: FsIdentity) -> bool {
    counts_as_file(e, skip_names) && e->identity == id
}

/// The known identities of all entries that count as files.
pub open spec fn file_ids(entries: Seq<RawEntry>, skip_names: Seq<Vec<u8>>) -> Set<FsIdentity> {
    Set::new(
        |id: FsIdentity|
            id.known() && exists|k: int| 0 <= k < entries.len() && is_name_of(#[trigger] entries[k], skip_names, id),
    )
}

/// Entry `i` is the first name of its file: no name of it was seen before. A file
/// without a known identity has only one name.
pub open spec fn is_first_name(entries: Seq<RawEntry>, skip_names: Seq<Vec<u8>>, seen: Set<FsIdentity>, i: int) -> bool {
    let id = entries[i]->identity;
    id.known() ==> !seen.contains(id) && !file_ids(entries.take(i), skip_names).contains(id)
}

/// The bytes that each entry adds where the files of `seen` were counted already: those
/// of a file under several names count once.
pub open spec fn entry_bytes(entries: Seq<RawEntry>, skip_names: Seq<Vec<u8>>, seen: Set<FsIdentity>) -> Seq<int> {
    Seq::new(
        entries.len(),
        |i: int|
            if counts_as_file(entries[i], skip_names) && is_first_name(entries, skip_names, seen, i) {
                entries[i]->size as int
            } else {
                0
            },
    )
}

/// One for each entry that counts as a file.
pub open spec fn entry_files(entries: Seq<RawEntry>, skip_names: Seq<Vec<u8>>) -> Seq<int> {
    Seq::new(entries.len(), |i: int| if counts_as_file(entries[i], skip_names) { 1int } else { 0 })
}

/// One for each entry that could not be read.
pub open spec fn entry_errors(entries: Seq<RawEntry>) -> Seq<int> {
    Seq::new(entries.len(), |i: int| if entries[i] is Error { 1int } else { 0 })
}

/// The directories to descend into, in the order of the entries.
pub open spec fn entry_dirs(
    entries: Seq<RawEntry>,
    skip_names: Seq<Vec<u8>>,
    max_depth: Option<u16>,
    depth: u16,
) -> Seq<(Seq<u8>, Option<u64>)>
    decreases entries.len(),
{
    if entries.len() == 0 {
        Seq::empty()
    } else {
        let rest = entry_dirs(entries.drop_last(), skip_names, max_depth, depth);
        if counts_as_dir(entries.last(), skip_names, max_depth, depth) {
            rest.push((entries.last()->name@, entries.last()->device))
        } else {
            rest
        }
    }
}

/// The directories of a listing.
pub open spec fn listed_dirs(subdirs: Seq<SubDir>) -> Seq<(Seq<u8>, Option<u64>)> {
    Seq::new(subdirs.len(), |i: int| (subdirs[i].name@, subdirs[i].device))
}

fn has_nul(name: &Vec<u8>) -> (r: bool)
    ensures
        r == name@.contains(0u8),
{
    let mut i: usize = 0;
    while i < name.len()
        invariant
            i <= name@.len(),
            forall|j: int| 0 <= j < i ==> name@[j] != 0u8,
        decreases name@.len() - i,
    {
        if name[i] == 0 {
            return true;
        }
        i = i + 1;
    }
    false
}

proof fn lemma_file_ids_push(entries: Seq<RawEntry>, skip_names: Seq<Vec<u8>>, e: RawEntry)
    ensures
        file_ids(entries.push(e), skip_names) == (if counts_as_file(e, skip_names) && e->identity.known() {
            file_ids(entries, skip_names).insert(e->identity)
        } else {
            file_ids(entries, skip_names)
        }),
{
    let more = entries.push(e);
    let n = entries.len() as int;
    let a = file_ids(more, skip_names);
    let b = file_ids(entries, skip_names);
    assert forall|id: FsIdentity| #[trigger] a.contains(id) <==> b.contains(id) || (id.known() && is_name_of(
        e,
        skip_names,
        id,
    )) by {
        if b.contains(id) {
            let k = choose|k: int| 0 <= k < n && is_name_of(#[trigger] entries[k], skip_names, id);
            assert(more[k] == entries[k]);
        }
        if is_name_of(e, skip_names, id) {
            assert(more[n] == e);
        }
        if a.contains(id) {
            let k = choose|k: int| 0 <= k < more.len() && is_name_of(#[trigger] more[k], skip_names, id);
            if k < n {
                assert(entries[k] == more[k]);
            }
        }
    }
    if counts_as_file(e, skip_names) && e->identity.known() {
        assert(a =~= b.insert(e->identity));
    } else {
        assert(a =~= b);
    }
}

/// Classifies all entries of a directory: what counts as files is summed up, and the
/// directories to descend into are listed. Symbolic links are never followed. The bytes
/// of a file that was visited under another name are not counted again.
pub fn read_dir_entries(
    entries: Vec<RawEntry>,
    skip_names: &Vec<Vec<u8>>,
    max_depth: Option<u16>,
    current_depth: u16,
    visited: &mut VisitedSet,
) -> (listing: DirListing)
    requires
        old(visited).wf(),
        total(entry_bytes(entries@, skip_names@, old(visited)@)) <= u64::MAX,
        total(entry_files(entries@, skip_names@)) <= u32::MAX,
        total(entry_errors(entries@)) <= u32::MAX,
    ensures
        final(visited).wf(),
        final(visited)@ == old(visited)@.union(file_ids(entries@, skip_names@)),
        listing.file_bytes == total(entry_bytes(entries@, skip_names@, old(visited)@)),
        listing.file_count == total(entry_files(entries@, skip_names@)),
        listing.error_count == total(entry_errors(entries@)),
        listed_dirs(listing.subdirs@) == entry_dirs(entries@, skip_names@, max_depth, current_depth),
        is_listing(entries@, skip_names@, max_depth, current_depth, old(visited)@, listing),
{
    let ghost seen = visited@;
    let ghost sizes = entry_bytes(entries@, skip_names@, seen);
    let ghost ones = entry_files(entries@, skip_names@);
    let ghost errs = entry_errors(entries@);
    let mut subdirs: Vec<SubDir> = Vec::new();
    let mut file_bytes: u64 = 0;
    let mut file_count: u32 = 0;
    let mut error_count: u32 = 0;
    let mut i: usize = 0;
    assert(sizes.take(0) =~= Seq::<int>::empty());
    assert(ones.take(0) =~= Seq::<int>::empty());
    assert(errs.take(0) =~= Seq::<int>::empty());
    assert(entries@.take(0) =~= Seq::<RawEntry>::empty());
    assert(visited@ =~= seen.union(file_ids(entries@.take(0), skip_names@)));
    assert(listed_dirs(subdirs@) =~= Seq::<(Seq<u8>, Option<u64>)>::empty());
    while i < entries.len()
        invariant
            sizes == entry_bytes(entries@, skip_names@, seen),
            visited.wf(),
            visited@ == seen.union(file_ids(entries@.take(i as int), skip_names@)),
            ones == entry_files(entries@, skip_names@),
            errs == entry_errors(entries@),
            total(sizes) <= u64::MAX,
            total(ones) <= u32::MAX,
            total(errs) <= u32::MAX,
            i <= entries@.len(),
            file_bytes == total(sizes.take(i as int)),
            file_count == total(ones.take(i as int)),
            error_count == total(errs.take(i as int)),
            listed_dirs(subdirs@) == entry_dirs(entries@.take(i as int), skip_names@, max_depth, current_depth),
        decreases entries@.len() - i,
    {
        proof {
            lemma_total_prefix(sizes, i as int);
            lemma_total_prefix(ones, i as int);
            lemma_total_prefix(errs, i as int);
            assert(entries@.take(i + 1).drop_last() =~= entries@.take(i as int));
            assert(entries@.take(i + 1).last() == entries@[i as int]);
        }
        proof {
            assert(entries@.take(i + 1) =~= entries@.take(i as int).push(entries@[i as int]));
            lemma_file_ids_push(entries@.take(i as int), skip_names@, entries@[i as int]);
        }
        let ghost before = subdirs@;
        match &entries[i] {
            RawEntry::Error => {
                error_count = error_count + 1;
            },
            RawEntry::Found { name, kind, size, device, identity } => {
                if is_name_wanted(name.as_slice(), skip_names) {
                    match kind {
                        EntryType::Dir => {
                            let allowed = match max_depth {
                                Some(max) => current_depth < max,
                                None => true,
                            };
                            if allowed && !has_nul(name) {
                                subdirs.push(
                                    SubDir { name: vstd::slice::slice_to_vec(name.as_slice()), device: *device },
                                );
                                assert(listed_dirs(subdirs@) =~= listed_dirs(before).push((name@, *device)));
                            }
                        },
                        EntryType::File => {
                            if visited.visit(*identity) {
                                file_bytes = file_bytes + *size;
                            }
                            file_count = file_count + 1;
                        },
                        EntryType::Symlink => {},
                        EntryType::Other => {
                            if *size > 0 {
                                if visited.visit(*identity) {
                                    file_bytes = file_bytes + *size;
                                }
                                file_count = file_count + 1;
                            }
                        },
                    }
                }
            },
        }
        assert(visited@ =~= seen.union(file_ids(entries@.take(i + 1), skip_names@)));
        i = i + 1;
    }
    assert(sizes.take(i as int) =~= sizes);
    assert(ones.take(i as int) =~= ones);
    assert(errs.take(i as int) =~= errs);
    assert(entries@.take(i as int) =~= entries@);
    DirListing { subdirs, file_bytes, file_count, error_count }
}

/// The listing is what reading the entries gives where the files of `seen` were counted
/// already.
pub open spec fn is_listing(
    entries: Seq<RawEntry>,
    skip_names: Seq<Vec<u8>>,
    max_depth: Option<u16>,
    depth: u16,
    seen: Set<FsIdentity>,
    listing: DirListing,
) -> bool {
    &&& listing.file_bytes == total(entry_bytes(entries, skip_names, seen))
    &&& listing.file_count == total(entry_files(entries, skip_names))
    &&& listing.error_count == total(entry_errors(entries))
    &&& listed_dirs(listing.subdirs@) == entry_dirs(entries, skip_names, max_depth, depth)
}

/// The number of workers of a scan: as many as asked for, or else one for each
/// processor up to eight.
pub fn worker_count(parallelism: u16, processors: usize) -> (n: usize)
    ensures
        n == (if parallelism != 0 {
            parallelism as int
        } else if processors < 8 {
            processors as int
        } else {
            8
        }),
{
    if parallelism == 0 {
        if processors < 8 {
            processors
        } else {
            8
        }
    } else {
        parallelism as usize
    }
}

proof fn lemma_entry_dirs_add(
    a: Seq<RawEntry>,
    b: Seq<RawEntry>,
    skip_names: Seq<Vec<u8>>,
    max_depth: Option<u16>,
    depth: u16,
)
    ensures
        entry_dirs(a + b, skip_names, max_depth, depth) == entry_dirs(a, skip_names, max_depth, depth)
            + entry_dirs(b, skip_names, max_depth, depth),
    decreases b.len(),
{
    if b.len() == 0 {
        assert(a + b =~= a);
    } else {
        assert((a + b).drop_last() =~= a + b.drop_last());
        lemma_entry_dirs_add(a, b.drop_last(), skip_names, max_depth, depth);
    }
    assert(entry_dirs(a + b, skip_names, max_depth, depth) =~= entry_dirs(a, skip_names, max_depth, depth)
        + entry_dirs(b, skip_names, max_depth, depth));
}

proof fn lemma_ids_without(entries: Seq<RawEntry>, i: int, skip_names: Seq<Vec<u8>>)
    requires
        0 <= i < entries.len(),
        !counts_as_file(entries[i], skip_names),
    ensures
        file_ids(entries.remove(i), skip_names) == file_ids(entries, skip_names),
{
    let less = entries.remove(i);
    let a = file_ids(less, skip_names);
    let b = file_ids(entries, skip_names);
    assert forall|id: FsIdentity| #[trigger] a.contains(id) <==> b.contains(id) by {
        if a.contains(id) {
            let k = choose|k: int| 0 <= k < less.len() && is_name_of(#[trigger] less[k], skip_names, id);
            assert(less[k] == entries[if k < i { k } else { k + 1 }]);
        }
        if b.contains(id) {
            let k = choose|k: int| 0 <= k < entries.len() && is_name_of(#[trigger] entries[k], skip_names, id);
            assert(entries[k] == less[if k < i { k } else { k - 1 }]);
        }
    }
    assert(a =~= b);
}

/// A symbolic link is never followed or counted, and an entry of an unwanted name is
/// passed over: a listing is the same with and without it.
pub proof fn law_ignored_entry(
    entries: Seq<RawEntry>,
    i: int,
    skip_names: Seq<Vec<u8>>,
    max_depth: Option<u16>,
    depth: u16,
    seen: Set<FsIdentity>,
)
    requires
        0 <= i < entries.len(),
        entries[i] is Found,
        entries[i]->kind == EntryType::Symlink || !name_wanted(entries[i]->name@, skip_names),
    ensures
        total(entry_bytes(entries, skip_names, seen)) == total(entry_bytes(entries.remove(i), skip_names, seen)),
        file_ids(entries, skip_names) == file_ids(entries.remove(i), skip_names),
        total(entry_files(entries, skip_names)) == total(entry_files(entries.remove(i), skip_names)),
        total(entry_errors(entries)) == total(entry_errors(entries.remove(i))),
        entry_dirs(entries, skip_names, max_depth, depth) == entry_dirs(
            entries.remove(i),
            skip_names,
            max_depth,
            depth,
        ),
{
    let a = entries.take(i);
    let e = entries.subrange(i, i + 1);
    let b = entries.skip(i + 1);
    assert(entries =~= a + e + b);
    assert(entries.remove(i) =~= a + b);
    lemma_entry_dirs_add(a + e, b, skip_names, max_depth, depth);
    lemma_entry_dirs_add(a, e, skip_names, max_depth, depth);
    lemma_entry_dirs_add(a, b, skip_names, max_depth, depth);
    assert(e.last() == entries[i]);
    assert(e.drop_last() =~= Seq::empty());
    assert(entry_dirs(e.drop_last(), skip_names, max_depth, depth) =~= Seq::empty());
    assert(entry_dirs(e, skip_names, max_depth, depth) =~= Seq::empty());
    assert(entry_dirs(a, skip_names, max_depth, depth) + Seq::empty() =~= entry_dirs(
        a,
        skip_names,
        max_depth,
        depth,
    ));
    let less = entries.remove(i);
    lemma_ids_without(entries, i, skip_names);
    lemma_total_drop(entry_bytes(entries, skip_names, seen), i);
    assert forall|k: int| 0 <= k < less.len() implies #[trigger] entry_bytes(less, skip_names, seen)[k]
        == entry_bytes(entries, skip_names, seen).remove(i)[k] by {
        if k < i {
            assert(less.take(k) =~= entries.take(k));
        } else {
            assert(less.take(k) =~= entries.take(k + 1).remove(i));
            lemma_ids_without(entries.take(k + 1), i, skip_names);
        }
    }
    assert(entry_bytes(entries, skip_names, seen).remove(i) =~= entry_bytes(less, skip_names, seen));
    lemma_total_drop(entry_files(entries, skip_names), i);
    assert(entry_files(entries, skip_names).remove(i) =~= entry_files(entries.remove(i), skip_names));
    lemma_total_drop(entry_errors(entries), i);
    assert(entry_errors(entries).remove(i) =~= entry_errors(entries.remove(i)));
}

proof fn lemma_listing_push(
    entries: Seq<RawEntry>,
    e: RawEntry,
    skip_names: Seq<Vec<u8>>,
    max_depth: Option<u16>,
    depth: u16,
    seen: Set<FsIdentity>,
)
    ensures
        total(entry_bytes(entries.push(e), skip_names, seen)) == total(entry_bytes(entries, skip_names, seen)) + (
        if counts_as_file(e, skip_names) && is_first_name(entries.push(e), skip_names, seen, entries.len() as int) {
            e->size as int
        } else {
            0
        }),
        total(entry_files(entries.push(e), skip_names)) == total(entry_files(entries, skip_names)) + (
        if counts_as_file(e, skip_names) {
            1int
        } else {
            0
        }),
        total(entry_errors(entries.push(e))) == total(entry_errors(entries)) + (if e is Error {
            1int
        } else {
            0
        }),
        entry_dirs(entries.push(e), skip_names, max_depth, depth) == (if counts_as_dir(
            e,
            skip_names,
            max_depth,
            depth,
        ) {
            entry_dirs(entries, skip_names, max_depth, depth).push((e->name@, e->device))
        } else {
            entry_dirs(entries, skip_names, max_depth, depth)
        }),
        entries.push(e).take(entries.len() as int) == entries,
{
    let more = entries.push(e);
    let n = entries.len() as int;
    let a = entry_bytes(entries, skip_names, seen);
    let b = entry_bytes(more, skip_names, seen);
    assert forall|k: int| 0 <= k < n implies #[trigger] b[k] == a[k] by {
        assert(more.take(k) =~= entries.take(k));
    }
    assert(b.drop_last() =~= a);
    assert(entry_files(more, skip_names).drop_last() =~= entry_files(entries, skip_names));
    assert(entry_errors(more).drop_last() =~= entry_errors(entries));
    assert(more.drop_last() =~= entries);
    assert(more.take(n) =~= entries);
}

/// What one more entry adds to a listing. Only `.`, `..` and the names to be skipped are
/// passed over, whatever else a name begins with. A regular file counts, and its bytes
/// do unless another name of it was counted; so does anything else with a size. A
/// directory is listed down to the depth limit. A symbolic link adds nothing.
pub proof fn law_entry_counts(
    entries: Seq<RawEntry>,
    e: RawEntry,
    skip_names: Seq<Vec<u8>>,
    max_depth: Option<u16>,
    depth: u16,
    seen: Set<FsIdentity>,
    before: DirListing,
    after: DirListing,
)
    requires
        is_listing(entries, skip_names, max_depth, depth, seen, before),
        is_listing(entries.push(e), skip_names, max_depth, depth, seen, after),
        e is Found,
        e->name@ != seq![46u8],
        e->name@ != seq![46u8, 46u8],
        forall|i: int| 0 <= i < skip_names.len() ==> (#[trigger] skip_names[i])@ != e->name@,
    ensures
        after.error_count == before.error_count,
        e->kind == EntryType::File || (e->kind == EntryType::Other && e->size > 0) ==> {
            &&& after.file_count == before.file_count + 1
            &&& listed_dirs(after.subdirs@) == listed_dirs(before.subdirs@)
            &&& e->identity.ino == 0 ==> after.file_bytes == before.file_bytes + e->size
            &&& seen.contains(e->identity) && e->identity.ino != 0 ==> after.file_bytes == before.file_bytes
            &&& e->identity.ino != 0 && (exists|i: int|
                0 <= i < entries.len() && is_other_name(#[trigger] entries[i], e->identity, skip_names))
                ==> after.file_bytes == before.file_bytes
            &&& e->identity.ino != 0 && !seen.contains(e->identity) && (forall|i: int|
                0 <= i < entries.len() && (#[trigger] entries[i]) is Found ==> entries[i]->identity != e->identity)
                ==> after.file_bytes == before.file_bytes + e->size
        },
        e->kind == EntryType::Dir ==> {
            &&& after.file_count == before.file_count
            &&& after.file_bytes == before.file_bytes
            &&& (max_depth is None || depth < max_depth->0) && !e->name@.contains(0u8) ==> listed_dirs(after.subdirs@)
                == listed_dirs(before.subdirs@).push((e->name@, e->device))
            &&& max_depth is Some && depth >= max_depth->0 ==> listed_dirs(after.subdirs@) == listed_dirs(
                before.subdirs@,
            )
        },
        e->kind == EntryType::Symlink || (e->kind == EntryType::Other && e->size == 0) ==> {
            &&& after.file_count == before.file_count
            &&& after.file_bytes == before.file_bytes
            &&& listed_dirs(after.subdirs@) == listed_dirs(before.subdirs@)
        },
{
    lemma_listing_push(entries, e, skip_names, max_depth, depth, seen);
    let n = entries.len() as int;
    let more = entries.push(e);
    let id = e->identity;
    assert(more[n] == e);
    let ids = file_ids(entries, skip_names);
    if id.ino != 0 && exists|i: int|
        0 <= i < entries.len() && is_other_name(#[trigger] entries[i], id, skip_names) {
        let i = choose|i: int| 0 <= i < entries.len() && is_other_name(#[trigger] entries[i], id, skip_names);
        assert(is_name_of(entries[i], skip_names, id));
        assert(ids.contains(id));
    }
    if forall|i: int| 0 <= i < entries.len() && (#[trigger] entries[i]) is Found ==> entries[i]->identity != id {
        if ids.contains(id) {
            let k = choose|k: int| 0 <= k < entries.len() && is_name_of(#[trigger] entries[k], skip_names, id);
            assert(entries[k]->identity != id);
        }
    }
}

/// The entry is a regular file with an identity, under a name that is not passed over.
pub open spec fn is_other_name(e: RawEntry, id: FsIdentity, skip_names: Seq<Vec<u8>>) -> bool {
    &&& e is Found
    &&& e->kind == EntryType::File
    &&& e->identity == id
    &&& e->name@ != seq![46u8]
    &&& e->name@ != seq![46u8, 46u8]
    &&& forall|i: int| 0 <= i < skip_names.len() ==> (#[trigger] skip_names[i])@ != e->name@
}

/// What adds nothing to a listing: `.`, `..` and names to be skipped. An entry that could
/// not be read adds one error and nothing else, and of no entries nothing comes.
pub proof fn law_entry_ignored(
    entries: Seq<RawEntry>,
    e: RawEntry,
    skip_names: Seq<Vec<u8>>,
    max_depth: Option<u16>,
    depth: u16,
    seen: Set<FsIdentity>,
    before: DirListing,
    after: DirListing,
)
    requires
        is_listing(entries, skip_names, max_depth, depth, seen, before),
        is_listing(entries.push(e), skip_names, max_depth, depth, seen, after),
        e is Found ==> e->name@ == seq![46u8] || e->name@ == seq![46u8, 46u8] || exists|i: int|
            0 <= i < skip_names.len() && (#[trigger] skip_names[i])@ == e->name@,
    ensures
        after.file_count == before.file_count,
        after.file_bytes == before.file_bytes,
        listed_dirs(after.subdirs@) == listed_dirs(before.subdirs@),
        after.error_count == before.error_count + (if e is Error {
            1int
        } else {
            0
        }),
        entries.len() == 0 ==> {
            &&& before.file_count == 0
            &&& before.file_bytes == 0
            &&& before.error_count == 0
            &&& before.subdirs@.len() == 0
        },
{
    lemma_listing_push(entries, e, skip_names, max_depth, depth, seen);
    if entries.len() == 0 {
        assert(entry_bytes(entries, skip_names, seen) =~= Seq::empty());
        assert(entry_files(entries, skip_names) =~= Seq::empty());
        assert(entry_errors(entries) =~= Seq::empty());
        assert(listed_dirs(before.subdirs@).len() == 0);
    }
}

/// A scan that must stay on one file system passes a directory exactly if it lies on the
/// root's device, where that is known; any other scan passes every directory.
pub proof fn law_same_filesystem(one_filesystem: bool, root_device: u64, device: Option<u64>)
    ensures
        one_filesystem && root_device != 0 ==> same_filesystem(one_filesystem, root_device, device) == (device == Some(
            root_device,
        )),
        !one_filesystem || root_device == 0 ==> same_filesystem(one_filesystem, root_device, device),
{
}

/// The sizes of files that are known by their identities, each once.
pub open spec fn id_sum(ids: Set<FsIdentity>, sizes: spec_fn(FsIdentity) -> nat) -> int
    decreases ids.len(),
    when ids.finite()
{
    if ids.len() == 0 {
        0
    } else {
        let id = ids.choose();
        sizes(id) + id_sum(ids.remove(id), sizes)
    }
}

pub proof fn lemma_id_sum_remove(ids: Set<FsIdentity>, sizes: spec_fn(FsIdentity) -> nat, id: FsIdentity)
    requires
        ids.finite(),
        ids.contains(id),
    ensures
        id_sum(ids, sizes) == sizes(id) + id_sum(ids.remove(id), sizes),
    decreases ids.len(),
{
    let first = ids.choose();
    assert(ids.contains(first));
    if first != id {
        lemma_id_sum_remove(ids.remove(first), sizes, id);
        let rest = ids.remove(id);
        lemma_id_sum_remove(rest, sizes, first);
        assert(ids.remove(first).remove(id) =~= rest.remove(first));
    }
}

/// The sizes of separate files add up.
pub proof fn lemma_id_sum_union(a: Set<FsIdentity>, b: Set<FsIdentity>, sizes: spec_fn(FsIdentity) -> nat)
    requires
        a.finite(),
        b.finite(),
    ensures
        a.union(b).finite(),
        b.difference(a).finite(),
        id_sum(a.union(b), sizes) == id_sum(a, sizes) + id_sum(b.difference(a), sizes),
    decreases b.difference(a).len(),
{
    let d = b.difference(a);
    vstd::set_lib::lemma_len_subset(d, b);
    if d.len() == 0 {
        d.lemma_len0_is_empty();
        assert(a.union(b) =~= a) by {
            assert forall|id: FsIdentity| b.contains(id) implies a.contains(id) by {
                assert(!d.contains(id));
            }
        }
    } else {
        let id = d.choose();
        assert(d.contains(id));
        let less = b.remove(id);
        assert(less.difference(a) =~= d.remove(id));
        lemma_id_sum_union(a, less, sizes);
        assert(a.union(b).remove(id) =~= a.union(less));
        assert(a.union(b) =~= a.union(less).insert(id));
        lemma_id_sum_remove(a.union(b), sizes, id);
        lemma_id_sum_remove(d, sizes, id);
    }
}

pub proof fn lemma_id_sum_nonneg(ids: Set<FsIdentity>, sizes: spec_fn(FsIdentity) -> nat)
    requires
        ids.finite(),
    ensures
        id_sum(ids, sizes) >= 0,
    decreases ids.len(),
{
    if ids.len() > 0 {
        lemma_id_sum_nonneg(ids.remove(ids.choose()), sizes);
    }
}

/// The bytes of each file whose identity is not known.
pub open spec fn unknown_bytes(entries: Seq<RawEntry>, skip_names: Seq<Vec<u8>>) -> Seq<int> {
    Seq::new(
        entries.len(),
        |i: int|
            if counts_as_file(entries[i], skip_names) && !entries[i]->identity.known() {
                entries[i]->size as int
            } else {
                0
            },
    )
}

/// All names of a file tell its size.
pub open spec fn sizes_agree(
    entries: Seq<RawEntry>,
    skip_names: Seq<Vec<u8>>,
    sizes: spec_fn(FsIdentity) -> nat,
) -> bool {
    forall|i: int|
        0 <= i < entries.len() && counts_as_file(#[trigger] entries[i], skip_names) && entries[i]->identity.known()
            ==> entries[i]->size == sizes(entries[i]->identity)
}

/// The bytes of a listing are those of every file that was not counted before, once
/// however many names it has.
pub proof fn law_files_once(
    entries: Seq<RawEntry>,
    skip_names: Seq<Vec<u8>>,
    seen: Set<FsIdentity>,
    sizes: spec_fn(FsIdentity) -> nat,
)
    requires
        sizes_agree(entries, skip_names, sizes),
    ensures
        file_ids(entries, skip_names).finite(),
        file_ids(entries, skip_names).difference(seen).finite(),
        total(entry_bytes(entries, skip_names, seen)) == total(unknown_bytes(entries, skip_names)) + id_sum(
            file_ids(entries, skip_names).difference(seen),
            sizes,
        ),
    decreases entries.len(),
{
    if entries.len() == 0 {
        let none = file_ids(entries, skip_names);
        assert(none =~= Set::empty());
        assert(none.difference(seen) =~= Set::empty());
    } else {
        let part = entries.drop_last();
        let e = entries.last();
        let n = part.len() as int;
        assert(entries =~= part.push(e));
        assert(entries[n] == e);
        assert forall|i: int|
            0 <= i < part.len() && counts_as_file(#[trigger] part[i], skip_names) && part[i]->identity.known() implies part[i]->size
            == sizes(part[i]->identity) by {
            assert(part[i] == entries[i]);
        }
        law_files_once(part, skip_names, seen, sizes);
        lemma_file_ids_push(part, skip_names, e);
        let a = entry_bytes(entries, skip_names, seen);
        let b = entry_bytes(part, skip_names, seen);
        assert forall|k: int| 0 <= k < n implies #[trigger] a[k] == b[k] by {
            assert(entries.take(k) =~= part.take(k));
        }
        assert(a.drop_last() =~= b);
        assert(entries.take(n) =~= part);
        assert(unknown_bytes(entries, skip_names).drop_last() =~= unknown_bytes(part, skip_names));
        let ids = file_ids(part, skip_names);
        let all = file_ids(entries, skip_names);
        if counts_as_file(e, skip_names) && e->identity.known() {
            let id = e->identity;
            if ids.contains(id) || seen.contains(id) {
                assert(all.difference(seen) =~= ids.difference(seen));
            } else {
                assert(all.difference(seen) =~= ids.difference(seen).insert(id));
                assert(all.difference(seen).remove(id) =~= ids.difference(seen));
                lemma_id_sum_remove(all.difference(seen), sizes, id);
            }
        }
    }
}

} // verus!
