use disktracker::arena::{PathlessArena, NO_PARENT};
use disktracker::identity::{FsIdentity, VisitedSet};
use disktracker::parallel::{DirJob, JobOutcome, SharedState};
use disktracker::scan::{
    is_name_wanted, is_same_filesystem, read_dir_entries, worker_count, DirMeta, EntryType,
    RawEntry, ScanConfig, ScanResult,
};
use disktracker::serial::{EnterOutcome, ProbeOutcome, SerialScan, WalkAction};
use disktracker::warm::{dir_of_path, parent_path_bytes, CachedDir, SnapshotIndex};
use std::collections::HashMap;

/// A directory of a tree in memory: its files with their sizes, and its directories.
struct Dir {
    files: Vec<(&'static str, u64)>,
    dirs: Vec<&'static str>,
    readable: bool,
    mtime: i64,
}

type Tree = HashMap<String, Dir>;

fn dir(files: Vec<(&'static str, u64)>, dirs: Vec<&'static str>) -> Dir {
    Dir { files, dirs, readable: true, mtime: 100 }
}

fn tree() -> Tree {
    let mut t = HashMap::new();
    t.insert("/root".to_string(), dir(vec![("root_file.txt", 50)], vec!["sub1", "sub2", "skipme"]));
    t.insert("/root/sub1".to_string(), dir(vec![("file_a.txt", 100)], vec!["nested"]));
    t.insert("/root/sub1/nested".to_string(), dir(vec![("file_b.txt", 250)], vec![]));
    t.insert("/root/sub2".to_string(), dir(vec![("c", 1), ("d", 2)], vec![]));
    t.insert("/root/skipme".to_string(), dir(vec![("ignored.bin", 9)], vec![]));
    t
}

fn meta(d: &Dir, path: &str) -> DirMeta {
    DirMeta { mtime: d.mtime, identity: FsIdentity { dev: 1, ino: path.len() as u64 } }
}

/// The entries of a directory. All names that begin with `hard` are of one file.
fn entries(d: &Dir) -> Vec<RawEntry> {
    let found = |name: &str, kind: EntryType, size: u64| RawEntry::Found {
        name: name.as_bytes().to_vec(),
        kind,
        size,
        device: None,
        identity: if name.starts_with("hard") {
            FsIdentity { dev: 1, ino: 99 }
        } else {
            FsIdentity::unknown()
        },
    };
    let mut entries = vec![found(".", EntryType::Dir, 0), found("..", EntryType::Dir, 0)];
    for (name, size) in &d.files {
        entries.push(found(name, EntryType::File, *size));
    }
    for name in &d.dirs {
        entries.push(found(name, EntryType::Dir, 0));
    }
    entries.push(found("link", EntryType::Symlink, 77));
    entries
}

fn names(skip: &[&str]) -> Vec<Vec<u8>> {
    skip.iter().map(|s| s.as_bytes().to_vec()).collect()
}

fn run_parallel(t: &Tree, skip: &[&str], last_first: bool) -> ScanResult {
    let mut state = SharedState::start(&b"/root".to_vec(), 0, b'/');
    let mut jobs = vec![DirJob { path: b"/root".to_vec(), node_idx: 0, depth: 0 }];
    while !jobs.is_empty() {
        let job = if last_first { jobs.pop().unwrap() } else { jobs.remove(0) };
        let path = String::from_utf8(job.path.clone()).unwrap();
        let d = &t[&path];
        let outcome = if d.readable {
            let listing = state.read(entries(d), &names(skip), None, job.depth);
            JobOutcome::Listed { meta: meta(d, &path), listing }
        } else {
            JobOutcome::Failed { errors: 1 }
        };
        jobs.extend(state.process_job(job, outcome, false));
    }
    assert!(state.root_done());
    state.into_result(5)
}

fn run_serial(t: &Tree, skip: &[&str], max_depth: Option<u16>) -> ScanResult {
    let mut w = SerialScan::start(&b"/root".to_vec(), b'/');
    loop {
        match w.action() {
            WalkAction::Done { .. } => break,
            WalkAction::Enter { node } => {
                let path = String::from_utf8(w.arena.materialize_path(node)).unwrap();
                let depth = w.arena.hot[node as usize].depth;
                let d = &t[&path];
                let listing = w.read(entries(d), &names(skip), max_depth, depth);
                w.enter(EnterOutcome::Listed { meta: meta(d, &path), listing, cancelled: false });
            }
            WalkAction::Probe { node, index } => {
                let top = w.frames.last().unwrap();
                assert_eq!(top.node, node);
                let mut path = w.arena.materialize_path(node);
                path.push(b'/');
                path.extend(&top.subdirs[index].name);
                let d = &t[&String::from_utf8(path).unwrap()];
                w.probe(if d.readable { ProbeOutcome::Opened } else { ProbeOutcome::Unopenable });
            }
        }
    }
    w.into_result(5).unwrap()
}

fn by_path(r: &ScanResult) -> Vec<(String, u64)> {
    let mut v: Vec<(String, u64)> = (0..r.arena.node_count())
        .map(|i| {
            let path = String::from_utf8(r.arena.materialize_path(i as u32)).unwrap();
            (path, r.arena.hot[i].total_bytes)
        })
        .collect();
    v.sort();
    v
}

#[test]
fn files_and_bytes_are_counted() {
    let r = run_serial(&tree(), &[], None);
    assert_eq!(r.total_files, 6);
    assert_eq!(r.total_bytes, 412);
    assert_eq!(r.error_count, 0);
    assert_eq!(r.scan_duration_ms, 5);
}

#[test]
fn skipped_names_are_not_entered() {
    let r = run_serial(&tree(), &["skipme"], None);
    assert_eq!(r.total_files, 5);
    assert_eq!(r.total_bytes, 403);
    assert!(!is_name_wanted(b"skipme", &vec![b"skipme".to_vec()]));
    assert!(!is_name_wanted(b"..", &Vec::new()));
    assert!(is_name_wanted(b"...", &Vec::new()));
}

#[test]
fn a_depth_limit_cuts_the_tree() {
    let r = run_serial(&tree(), &[], Some(1));
    assert_eq!(r.arena.node_count(), 4);
    assert_eq!(r.total_bytes, 162);
}

#[test]
fn the_order_of_jobs_does_not_matter() {
    let serial = run_serial(&tree(), &["skipme"], None);
    for last_first in [false, true] {
        let parallel = run_parallel(&tree(), &["skipme"], last_first);
        assert_eq!(parallel.total_files, serial.total_files);
        assert_eq!(parallel.total_bytes, serial.total_bytes);
        assert_eq!(parallel.error_count, serial.error_count);
        assert_eq!(by_path(&parallel), by_path(&serial));
    }
}

#[test]
fn a_file_under_several_names_counts_once() {
    let mut t = HashMap::new();
    t.insert("/root".to_string(), dir(vec![("hard1", 10), ("hard2", 10)], vec!["a", "b"]));
    t.insert("/root/a".to_string(), dir(vec![("hard3", 10), ("own", 3)], vec![]));
    t.insert("/root/b".to_string(), dir(vec![("hard4", 10)], vec!["c"]));
    t.insert("/root/b/c".to_string(), dir(vec![("more", 4), ("twin", 4)], vec![]));
    let results = [run_serial(&t, &[], None), run_parallel(&t, &[], false), run_parallel(&t, &[], true)];
    for r in results {
        assert_eq!((r.total_bytes, r.total_files, r.error_count), (21, 7, 0));
    }
    let mut w = SerialScan::start(&b"/root".to_vec(), b'/');
    let listing = w.read(entries(&t["/root"]), &Vec::new(), None, 0);
    assert_eq!((listing.file_bytes, listing.file_count), (10, 2));
    let listing = w.read(entries(&t["/root/a"]), &Vec::new(), None, 1);
    assert_eq!((listing.file_bytes, listing.file_count), (3, 2));
    assert_eq!(w.visited.len(), 1);
}

#[test]
fn a_directory_shows_the_files_directly_inside_it() {
    for r in [run_serial(&tree(), &[], None), run_parallel(&tree(), &[], true)] {
        for i in 0..r.arena.node_count() {
            let path = String::from_utf8(r.arena.materialize_path(i as u32)).unwrap();
            assert_eq!(r.arena.hot[i].file_count as usize, tree()[&path].files.len());
        }
    }
}

#[test]
fn a_walk_starts_with_an_empty_root() {
    let w = SerialScan::start(&b"/root".to_vec(), b'/');
    let root = w.arena.hot[0];
    assert_eq!((root.parent, root.total_bytes, root.file_count), (NO_PARENT, 0, 0));
    assert_eq!((w.arena.cold[0].mtime, w.arena.cold[0].identity.ino), (0, 0));
    assert_eq!(w.arena.byte_pool, b"/root");
}

#[test]
fn paths_are_joined_by_the_separator() {
    let mut arena = PathlessArena::with_separator(4, 64, b'\\');
    let root = arena.intern(br"C:\");
    let a = arena.intern(b"a");
    let top = arena.push_node(NO_PARENT, root, 0);
    let dir = arena.push_node(top, a, 1);
    let deep = arena.push_node(dir, a, 2);
    assert_eq!(arena.materialize_path(deep), br"C:\a\a");
    assert_eq!(arena.intern(b"a"), a);
    assert_eq!((arena.symbols.len(), arena.byte_pool.len()), (2, 4));
}

#[test]
fn parents_stand_before_their_children() {
    let r = run_parallel(&tree(), &[], true);
    assert_eq!(r.arena.hot[0].parent, NO_PARENT);
    assert_eq!(r.arena.hot[0].depth, 0);
    for i in 1..r.arena.node_count() {
        let parent = r.arena.hot[i].parent as usize;
        assert!(parent < i);
        assert_eq!(r.arena.hot[i].depth, r.arena.hot[parent].depth + 1);
        assert!(r.arena.hot[parent].total_bytes >= r.arena.hot[i].total_bytes);
    }
}

#[test]
fn unreadable_directories_count_as_errors() {
    let mut t = tree();
    t.get_mut("/root/sub2").unwrap().readable = false;
    let r = run_parallel(&t, &[], false);
    assert_eq!((r.error_count, r.total_bytes), (1, 409));
    let r = run_serial(&t, &[], None);
    assert_eq!((r.error_count, r.total_bytes), (1, 409));
}

#[test]
fn a_cancelled_walk_ends() {
    let mut w = SerialScan::start(&b"/root".to_vec(), b'/');
    w.enter(EnterOutcome::Cancelled);
    assert!(matches!(w.action(), WalkAction::Done { .. }));
    let r = w.into_result(0).unwrap();
    assert_eq!((r.total_files, r.total_bytes), (0, 0));
}

#[test]
fn unchanged_leaves_are_taken_over() {
    let mut index = SnapshotIndex::new();
    let cached = |total_bytes: u64| CachedDir { total_bytes, file_count: 1, mtime: 100 };
    index.insert_path(b"/root".to_vec(), cached(350));
    index.insert_path(b"/root/sub1".to_vec(), cached(100));
    index.insert_identity(FsIdentity { dev: 1, ino: 7 }, cached(42));
    let p = index.build_skip_predicate();
    let nobody = FsIdentity::unknown();
    assert_eq!(p.check(b"/root/sub1", 100, nobody).unwrap().total_bytes, 100);
    assert!(p.check(b"/root/sub1", 101, nobody).is_none());
    assert!(p.check(b"/root", 100, nobody).is_none());
    assert_eq!(p.check(b"/moved", 50, FsIdentity { dev: 1, ino: 7 }).unwrap().total_bytes, 42);
    assert!(p.check(b"/other", 0, nobody).is_none());
    assert_eq!(parent_path_bytes(b"/a/b/", b'/'), b"/a");
    assert_eq!(parent_path_bytes(b"/a", b'/'), b"/");
    assert_eq!(parent_path_bytes(b"a", b'/'), b"");
    assert_eq!(parent_path_bytes(br"C:\a", b'\\'), b"C:");
    assert_eq!(dir_of_path(br"C:\a\", b'\\'), br"C:\");
    assert_eq!(dir_of_path(br"C:\a\b", b'\\'), br"C:\a");
    assert_eq!(dir_of_path(b"/a/b", b'/'), b"/a");
    let mut drive = SnapshotIndex::with_separator(b'\\');
    drive.insert_path(br"C:\a".to_vec(), cached(1));
    assert!(drive.is_non_leaf(br"C:\"));
}

#[test]
fn settings_of_a_scan() {
    let c = ScanConfig::default();
    assert!(c.root.is_empty() && c.max_depth.is_none() && !c.one_filesystem);
    assert_eq!(worker_count(0, 16), 8);
    assert_eq!(worker_count(0, 4), 4);
    assert_eq!(worker_count(3, 16), 3);
    assert!(is_same_filesystem(true, 5, Some(5)));
    assert!(!is_same_filesystem(true, 5, Some(6)));
    assert!(!is_same_filesystem(true, 5, None));
    assert!(is_same_filesystem(false, 5, Some(6)));
    assert!(is_same_filesystem(true, 0, Some(6)));
}

#[test]
fn links_and_unwanted_names_leave_no_trace() {
    let found = |name: &str, kind: EntryType| RawEntry::Found {
        name: name.as_bytes().to_vec(),
        kind,
        size: 8,
        device: None,
        identity: FsIdentity::unknown(),
    };
    let shown = |entries: Vec<RawEntry>| {
        let l = read_dir_entries(entries, &vec![b"proc".to_vec()], None, 0, &mut VisitedSet::new());
        let names: Vec<Vec<u8>> = l.subdirs.into_iter().map(|d| d.name).collect();
        (l.file_bytes, l.file_count, l.error_count, names)
    };
    let with = shown(vec![
        found("a", EntryType::File),
        found("link", EntryType::Symlink),
        found("proc", EntryType::Dir),
        RawEntry::Error,
        found("d", EntryType::Dir),
        found("socket", EntryType::Other),
    ]);
    let without = shown(vec![
        found("a", EntryType::File),
        RawEntry::Error,
        found("d", EntryType::Dir),
        found("socket", EntryType::Other),
    ]);
    assert_eq!(with, without);
    assert_eq!(with, (16, 2, 1, vec![b"d".to_vec()]));
}

#[test]
fn other_devices_are_not_entered() {
    let mut state = SharedState::start(&b"/".to_vec(), 5, b'/');
    let on = |name: &str, device: Option<u64>| RawEntry::Found {
        name: name.as_bytes().to_vec(),
        kind: EntryType::Dir,
        size: 0,
        device,
        identity: FsIdentity::unknown(),
    };
    let entries = vec![on("home", Some(5)), on("mnt", Some(6)), on("odd", None), on("usr", Some(5))];
    let listing = state.read(entries, &Vec::new(), None, 0);
    let outcome = JobOutcome::Listed {
        meta: DirMeta { mtime: 1, identity: FsIdentity::unknown() },
        listing,
    };
    let root = DirJob { path: b"/".to_vec(), node_idx: 0, depth: 0 };
    let jobs = state.process_job(root, outcome, true);
    let paths: Vec<Vec<u8>> = jobs.into_iter().map(|j| j.path).collect();
    assert_eq!(paths, vec![b"/home".to_vec(), b"/usr".to_vec()]);
    assert!(!state.root_done());
}
