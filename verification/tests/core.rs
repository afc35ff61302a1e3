use disktracker::arena::{DirNode, PathlessArena, NO_PARENT};
use disktracker::bench::{
    bench_result, get_peak_rss_kb, get_proc_io, lines, measure, BenchHandle, Reading,
    ResourceSnapshot, ScanMetrics,
};
use disktracker::events::{DirtyQueue, FsEvent, FsEventKind};
use disktracker::identity::{FsIdentity, VisitedSet};

fn idle() -> Reading {
    Reading {
        snapshot: ResourceSnapshot { user_us: 0, sys_us: 0, read_bytes: 0, write_bytes: 0 },
        peak_rss_kb: 0,
    }
}

#[test]
fn test_intern_dedup() {
    let mut arena = PathlessArena::with_capacity(16, 256);
    let s1 = arena.intern(b"home");
    let s2 = arena.intern(b"home");
    assert_eq!(s1, s2);
    let s3 = arena.intern(b"user");
    assert_ne!(s1, s3);
}

#[test]
fn test_materialize_path_root() {
    let mut arena = PathlessArena::with_capacity(16, 256);
    let root_name = arena.intern(b"/");
    let root_idx = arena.push_node(NO_PARENT, root_name, 0);
    let path = arena.materialize_path(root_idx);
    assert_eq!(path, b"/");
}

#[test]
fn test_materialize_path_child() {
    let mut arena = PathlessArena::with_capacity(16, 256);
    let root_name = arena.intern(b"/home/user");
    let root_idx = arena.push_node(NO_PARENT, root_name, 0);

    let child_name = arena.intern(b"documents");
    let child_idx = arena.push_node(root_idx, child_name, 1);
    arena.hot[child_idx as usize].total_bytes = 2000;
    arena.hot[child_idx as usize].file_count = 10;

    let path = arena.materialize_path(child_idx);
    assert_eq!(path, b"/home/user/documents");
}

#[test]
fn test_materialize_nested() {
    let mut arena = PathlessArena::with_capacity(16, 256);
    let root_name = arena.intern(b"/");
    let root_idx = arena.push_node(NO_PARENT, root_name, 0);

    let a_name = arena.intern(b"var");
    let a_idx = arena.push_node(root_idx, a_name, 1);

    let b_name = arena.intern(b"log");
    let b_idx = arena.push_node(a_idx, b_name, 2);
    arena.hot[b_idx as usize].total_bytes = 500;
    arena.hot[b_idx as usize].file_count = 3;

    let path = arena.materialize_path(b_idx);
    assert_eq!(path, b"/var/log");
}

#[test]
fn test_hot_cold_split() {
    let mut arena = PathlessArena::with_capacity(16, 256);
    let name = arena.intern(b"test");
    let idx = arena.push_node(NO_PARENT, name, 0);

    arena.hot[idx as usize].total_bytes = 42;
    arena.hot[idx as usize].file_count = 5;

    arena.cold[idx as usize].mtime = 1234567890;
    arena.cold[idx as usize].identity = FsIdentity { dev: 1, ino: 99 };

    assert_eq!(arena.hot[idx as usize].total_bytes, 42);
    assert_eq!(arena.cold[idx as usize].mtime, 1234567890);
    assert_eq!(arena.cold[idx as usize].identity.ino, 99);
}

#[test]
fn test_dir_node_compat() {
    let mut arena = PathlessArena::with_capacity(16, 256);
    let name = arena.intern(b"compat");
    let idx = DirNode {
        parent: NO_PARENT,
        name,
        total_bytes: 100,
        file_count: 3,
        mtime: 999,
        depth: 0,
        identity: FsIdentity { dev: 1, ino: 50 },
    }
    .push_into(&mut arena);

    assert_eq!(arena.hot[idx as usize].total_bytes, 100);
    assert_eq!(arena.cold[idx as usize].mtime, 999);
    assert_eq!(arena.cold[idx as usize].identity.ino, 50);
}

#[test]
fn test_node_count() {
    let mut arena = PathlessArena::with_capacity(16, 256);
    assert_eq!(arena.node_count(), 0);
    let name = arena.intern(b"test");
    arena.push_node(NO_PARENT, name, 0);
    assert_eq!(arena.node_count(), 1);
    arena.push_node(0, name, 1);
    assert_eq!(arena.node_count(), 2);
}

#[test]
fn test_resolve_name() {
    let mut arena = PathlessArena::with_capacity(16, 256);
    let sym = arena.intern(b"hello");
    assert_eq!(arena.resolve_name(sym), b"hello");
}

#[test]
fn totals_and_meta_are_set() {
    let mut arena = PathlessArena::with_capacity(4, 64);
    let name = arena.intern(b"x");
    let idx = arena.push_node(NO_PARENT, name, 0);
    arena.set_totals(idx, 7, 2);
    arena.set_meta(idx, FsIdentity { dev: 3, ino: 4 }, 11);
    assert_eq!(arena.hot[0].total_bytes, 7);
    assert_eq!(arena.hot[0].file_count, 2);
    assert_eq!(arena.cold[0].identity, FsIdentity { dev: 3, ino: 4 });
    assert_eq!(arena.cold[0].mtime, 11);
}

#[test]
fn test_identity_unknown() {
    assert!(!FsIdentity::unknown().is_known());
    assert!(!FsIdentity::default().is_known());
}

#[test]
fn test_identity_known() {
    let id = FsIdentity { dev: 1, ino: 42 };
    assert!(id.is_known());
}

#[test]
fn test_identity_equality() {
    let a = FsIdentity { dev: 1, ino: 100 };
    let b = FsIdentity { dev: 1, ino: 100 };
    let c = FsIdentity { dev: 2, ino: 100 };
    assert_eq!(a, b);
    assert_ne!(a, c);
}

#[test]
fn test_visited_set_dedup() {
    let mut vs = VisitedSet::new();
    let id = FsIdentity { dev: 1, ino: 42 };
    assert!(vs.visit(id));
    assert!(!vs.visit(id));
    assert_eq!(vs.len(), 1);
}

#[test]
fn test_visited_set_unknown_always_allowed() {
    let mut vs = VisitedSet::new();
    assert!(vs.visit(FsIdentity::unknown()));
    assert!(vs.visit(FsIdentity::unknown()));
    assert_eq!(vs.len(), 0);
}

#[test]
fn test_visited_set_multiple() {
    let mut vs = VisitedSet::new();
    let a = FsIdentity { dev: 1, ino: 10 };
    let b = FsIdentity { dev: 1, ino: 20 };
    let c = FsIdentity { dev: 2, ino: 10 };
    assert!(vs.visit(a));
    assert!(vs.visit(b));
    assert!(vs.visit(c));
    assert_eq!(vs.len(), 3);
    assert!(!vs.visit(a));
}

#[test]
fn statx_device_numbers() {
    let id = FsIdentity::from_statx(8, 1, 77);
    assert_eq!(id.ino, 77);
    assert_eq!(id.dev, (8u64 << 32) | 1);
    assert_eq!(FsIdentity::from_stat(5, 6), FsIdentity { dev: 5, ino: 6 });
}

#[test]
fn test_measure_basic() {
    let result = measure(
        || ScanMetrics { total_files: 42, total_dirs: 7, total_bytes: 1024, error_count: 0 },
        || idle(),
    );
    assert_eq!(result.total_files, 42);
    assert_eq!(result.total_dirs, 7);
    assert_eq!(result.total_bytes, 1024);
    assert_eq!(result.error_count, 0);
    assert!(result.wall_ms < 100);
}

#[test]
fn test_bench_handle() {
    let handle = BenchHandle::start(idle().snapshot);
    let sum: u64 = (0..1000).sum();
    assert!(sum > 0);
    let result = handle.finish(
        ScanMetrics { total_files: 100, total_dirs: 10, total_bytes: 5000, error_count: 1 },
        &idle().snapshot,
        0,
    );
    assert_eq!(result.total_files, 100);
    assert_eq!(result.error_count, 1);
}

#[test]
fn test_proc_io_readable() {
    let content = "rchar: 3980\nwchar: 12\nread_bytes: 4096\nwrite_bytes: 512\ncancelled_write_bytes: 0\n";
    let (read, write) = get_proc_io(content);
    assert_eq!((read, write), (4096, 512));
    assert_eq!(get_proc_io(""), (0, 0));
    assert_eq!(get_proc_io("read_bytes: none\n"), (0, 0));
}

#[test]
fn test_peak_rss_nonzero() {
    let rss = get_peak_rss_kb("Name:\tdisktracker\nVmPeak:\t   99999 kB\nVmHWM:\t   12345 kB\nVmRSS:\t 1 kB\n");
    assert!(rss > 0);
    assert_eq!(rss, 12345);
    assert_eq!(get_peak_rss_kb("VmHWM:\t 7 MB\n"), 0);
    assert_eq!(get_peak_rss_kb("VmHWM:\t x kB\n"), 0);
}

#[test]
fn measured_use_never_goes_back() {
    let before = ResourceSnapshot { user_us: 5000, sys_us: 900, read_bytes: 10, write_bytes: 90 };
    let after = ResourceSnapshot { user_us: 12500, sys_us: 100, read_bytes: 30, write_bytes: 90 };
    let m = ScanMetrics { total_files: 1, total_dirs: 2, total_bytes: 3, error_count: 4 };
    let r = bench_result(&before, &after, 17, 8, m);
    assert_eq!(r.wall_ms, 17);
    assert_eq!(r.user_ms, 7);
    assert_eq!(r.sys_ms, 0);
    assert_eq!(r.read_bytes, 20);
    assert_eq!(r.write_bytes, 0);
    assert_eq!(r.peak_rss_kb, 8);
}

#[test]
fn lines_end_with_or_without_carriage_return() {
    assert_eq!(lines("a\r\nb\n\nc\r"), vec!["a", "b", "", "c\r"]);
    assert!(lines("").is_empty());
}

#[test]
fn test_dedup_child_paths() {
    let mut q = DirtyQueue::new();
    q.mark_dirty(b"/home/user".to_vec());
    q.mark_dirty(b"/home/user/projects".to_vec());
    q.mark_dirty(b"/home/user/projects/app".to_vec());
    let (paths, _) = q.drain();
    assert_eq!(paths.len(), 1);
    assert_eq!(paths[0], b"/home/user");
}

#[test]
fn test_independent_paths() {
    let mut q = DirtyQueue::new();
    q.mark_dirty(b"/home/user".to_vec());
    q.mark_dirty(b"/tmp".to_vec());
    let (paths, _) = q.drain();
    assert_eq!(paths.len(), 2);
}

#[test]
fn a_symbol_keeps_its_name() {
    let mut arena = PathlessArena::with_capacity(4, 64);
    let hello = arena.intern(b"hello");
    for i in 0..50u32 {
        let sym = arena.intern(format!("name{}", i).as_bytes());
        arena.push_node(NO_PARENT, sym, 0);
    }
    assert_eq!(arena.resolve_name(hello), b"hello");
    assert_eq!(arena.intern(b"hello"), hello);
    assert_eq!(arena.symbols.len(), 51);
}

#[test]
fn a_dirty_root_covers_everything() {
    let mut q = DirtyQueue::new();
    q.mark_dirty(b"/".to_vec());
    q.mark_dirty(b"/home".to_vec());
    assert_eq!(q.drain(), (vec![b"/".to_vec()], false));
    q.mark_dirty(br"C:\".to_vec());
    q.mark_dirty(br"C:\x".to_vec());
    q.mark_dirty(b"/homes".to_vec());
    q.mark_dirty(b"/home".to_vec());
    let (paths, _) = q.drain();
    assert_eq!(paths, vec![br"C:\".to_vec(), b"/home".to_vec(), b"/homes".to_vec()]);
}

#[test]
fn test_overflow_clears_pending() {
    let mut q = DirtyQueue::new();
    q.mark_dirty(b"/home".to_vec());
    q.mark_overflow();
    let (paths, overflow) = q.drain();
    assert!(paths.is_empty());
    assert!(overflow);
}

#[test]
fn drained_paths_are_short_first_and_cover_all() {
    let mut q = DirtyQueue::default();
    assert!(q.is_empty());
    q.mark_dirty(b"/var/log/app".to_vec());
    q.mark_dirty(b"/var/logs".to_vec());
    q.mark_dirty(b"/var/log".to_vec());
    q.mark_dirty(b"/var/log".to_vec());
    q.mark_dirty(Vec::new());
    assert!(!q.is_empty());
    let (paths, overflow) = q.drain();
    assert_eq!(paths, vec![b"/var/log".to_vec(), b"/var/logs".to_vec()]);
    assert!(!overflow);
    assert!(q.is_empty());
}

#[test]
fn from_u8_maps_known_values() {
    assert_eq!(FsEventKind::from_u8(0), FsEventKind::Create);
    assert_eq!(FsEventKind::from_u8(1), FsEventKind::Delete);
    assert_eq!(FsEventKind::from_u8(2), FsEventKind::Modify);
    assert_eq!(FsEventKind::from_u8(3), FsEventKind::Rename);
    assert_eq!(FsEventKind::from_u8(4), FsEventKind::Overflow);
    assert_eq!(FsEventKind::from_u8(250), FsEventKind::Other);
}

#[test]
fn event_kinds_are_named_and_numbered() {
    let kinds = [
        (FsEventKind::Create, "create"),
        (FsEventKind::Delete, "delete"),
        (FsEventKind::Modify, "modify"),
        (FsEventKind::Rename, "rename"),
        (FsEventKind::Overflow, "overflow"),
        (FsEventKind::Other, "other"),
    ];
    for (i, (kind, name)) in kinds.iter().enumerate() {
        assert_eq!(kind.as_str(), *name);
        assert_eq!(kind.as_u8() as usize, i);
        assert_eq!(FsEventKind::from_u8(kind.as_u8()), *kind);
    }
}

#[test]
fn event_paths_are_text_if_they_are_utf8() {
    let mut ev = FsEvent {
        timestamp: 1,
        kind: FsEventKind::Create,
        path: "/tmp/\u{e9}".as_bytes().to_vec(),
        is_dir: false,
    };
    assert_eq!(ev.path_utf8(), Some("/tmp/\u{e9}"));
    ev.path = vec![47, 255];
    assert_eq!(ev.path_utf8(), None);
}
