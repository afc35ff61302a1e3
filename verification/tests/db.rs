use disktracker::arena::{DirNode, PathlessArena, NO_PARENT};
use disktracker::events::{FsEvent, FsEventKind};
use disktracker::explain::{
    attribute_path, collapse, explain_changes, query_explain, ExplainEntry,
};
use disktracker::identity::FsIdentity;
use disktracker::mutations::{
    ancestor_paths, get_mutations_since, insert_mutation, insert_mutations_batch,
    mutation_of_event, reconcile_target, DirSize, Found, MutationRecord, MutationRow, MutationType, PathState, Reconcile, RowChange,
};
use disktracker::prune::{
    execute_prune, id_list, preview_prune, prune_result, prune_statements,
    resolve_prune_candidates, PairRef, RowRef, SnapshotRef, SnapshotTables,
};
use disktracker::records::{
    get_deltas_for_snapshot, get_event_count_since, get_latest_snapshot_for_root,
    get_recent_events, get_snapshot, query_timeline, query_timeline_from_deltas, timeline, touch_event_time, touch_reconcile_time,
    DeltaRecord, FsEventRecord, SizeChange, SizeRow, SnapshotRecord, WatchState,
};
use disktracker::size_diff::{
    cached_diff, changed_dirs, compute_diff, DiffResult, SnapshotRows,
};
use disktracker::store::{
    as_signed, as_unsigned, dir_rows, load_snapshot_index, parse_relative_duration,
    resolve_snapshot_ref, scan_rows, DeltaRow, DirRow, SnapshotTime,
};
use std::collections::HashMap;

fn make_arena(root_bytes: u64, name: &[u8], child_bytes: u64) -> PathlessArena {
    let mut arena = PathlessArena::with_capacity(8, 256);
    let root_sym = arena.intern(b"/");
    let root_idx = DirNode {
        parent: NO_PARENT,
        name: root_sym,
        total_bytes: root_bytes,
        file_count: 0,
        mtime: 0,
        depth: 0,
        identity: FsIdentity::unknown(),
    }
    .push_into(&mut arena);
    let child_sym = arena.intern(name);
    DirNode {
        parent: root_idx,
        name: child_sym,
        total_bytes: child_bytes,
        file_count: 0,
        mtime: 0,
        depth: 1,
        identity: FsIdentity::unknown(),
    }
    .push_into(&mut arena);
    arena
}

fn row(path: &str, total_bytes: i64) -> DirRow {
    DirRow {
        path: path.as_bytes().to_vec(),
        path_utf8: Some(path.to_string()),
        depth: 0,
        total_bytes,
        file_count: 0,
        mtime: 0,
        dev: 0,
        ino: 0,
    }
}

#[test]
fn explain_attributes_known_paths() {
    let a = dir_rows(&make_arena(100, b"node_modules", 80));
    let b = dir_rows(&make_arena(300, b"node_modules", 250));
    let entries = query_explain(&a, &b, 10);
    let found = entries.iter().any(|e| e.label.as_deref() == Some("npm packages"));
    assert!(found);
}

#[test]
fn labels_of_paths() {
    assert_eq!(attribute_path("/home/u/.cargo/registry/x").as_deref(), Some("Rust crate cache"));
    assert_eq!(attribute_path("/srv/node_modules/.cache").as_deref(), Some("npm packages"));
    assert_eq!(attribute_path("/home/u/.venv").as_deref(), Some("Python virtual environment"));
    assert_eq!(attribute_path("/srv/vendor").as_deref(), Some("Vendored dependencies"));
    assert_eq!(attribute_path("/srv/data"), None);
}

#[test]
fn sources_with_one_label_are_added_up() {
    let source = |path: &str, delta_bytes: i64, label: Option<&str>| ExplainEntry {
        path: path.to_string(),
        delta_bytes,
        label: label.map(|l| l.to_string()),
    };
    let r = collapse(&vec![
        source("/a", 5, Some("x")),
        source("/b", 7, None),
        source("/c", 6, Some("x")),
        source("/d", 1, None),
    ])
    .unwrap();
    let got: Vec<(&str, i64)> = r.iter().map(|e| (e.path.as_str(), e.delta_bytes)).collect();
    assert_eq!(got, vec![("/a", 11), ("/b", 7), ("/d", 1)]);
    let full = vec![source("/a", i64::MAX, Some("x")), source("/b", 1, Some("x"))];
    assert!(collapse(&full).is_none());
    let entries = query_explain(
        &vec![row("/a/.npm", 1), row("/big", 1), row("/c/.npm", 1)],
        &vec![row("/a/.npm", 51), row("/big", 81), row("/c/.npm", 61), row("/gone", 0)],
        10,
    );
    let got: Vec<(i64, Option<&str>)> =
        entries.iter().map(|e| (e.delta_bytes, e.label.as_deref())).collect();
    assert_eq!(got, vec![(110, Some("npm cache")), (80, None)]);
}

#[test]
fn test_diff_logic() {
    let now = 1_700_000_000;
    let a = SnapshotRows { id: 1, started_at: now, rows: dir_rows(&make_arena(1000, b"var", 200)) };
    let b = SnapshotRows {
        id: 2,
        started_at: now + 86400,
        rows: dir_rows(&make_arena(2000, b"var", 1200)),
    };
    let result = compute_diff(&a, &b, 20, 0);
    assert!(!result.entries.is_empty());
    let var_entry = result.entries.iter().find(|e| e.path.contains("var"));
    assert!(var_entry.is_some());
    assert_eq!(var_entry.unwrap().delta_bytes, 1000);
    assert_eq!(result.net_change, 2000);
    assert_eq!((result.snapshot_a, result.started_b), (1, now + 86400));
}

#[test]
fn the_largest_changes_come_first() {
    let rows = |list: Vec<(&str, i64)>| SnapshotRows {
        id: 0,
        started_at: 0,
        rows: list.into_iter().map(|(p, n)| row(p, n)).collect(),
    };
    let a = rows(vec![("/same", 9), ("/gone", 70), ("/small", 10), ("/grown", 100)]);
    let b = rows(vec![("/same", 9), ("/small", 11), ("/grown", 150), ("/new", 20)]);
    let r = compute_diff(&a, &b, 3, 2);
    let got: Vec<(&str, i64)> = r.entries.iter().map(|e| (e.path.as_str(), e.delta_bytes)).collect();
    assert_eq!(got, vec![("/gone", -70), ("/grown", 50), ("/new", 20)]);
    assert_eq!(r.entries[0].bytes_b, None);
    assert_eq!(r.entries[2].bytes_a, None);
    assert_eq!(r.net_change, 0);
    assert!(compute_diff(&a, &a, 3, 0).entries.is_empty());
}

#[test]
fn a_path_that_is_no_text_is_not_shown() {
    let mut odd = row("/x", 5);
    odd.path = vec![47, 255];
    odd.path_utf8 = None;
    let a = SnapshotRows { id: 0, started_at: 0, rows: Vec::new() };
    let b = SnapshotRows { id: 1, started_at: 0, rows: vec![odd, row("/y", 3)] };
    let r = compute_diff(&a, &b, 10, 0);
    assert_eq!(r.entries.len(), 1);
    assert_eq!(r.entries[0].path, "/y");
}

#[test]
fn resolve_snapshot_ref_by_id_and_date() {
    let now = 1_784_000_000;
    let snapshots = vec![SnapshotTime { id: 1, started_at: now }];
    let resolved_id = resolve_snapshot_ref("1", now, &snapshots).unwrap();
    assert_eq!(resolved_id, 1);

    let date = chrono::DateTime::from_timestamp(now, 0).unwrap().date_naive().to_string();
    let resolved_date = resolve_snapshot_ref(&date, now, &snapshots).unwrap();
    assert_eq!(resolved_date, 1);

    assert_eq!(snapshots.len(), 1);
}

#[test]
fn references_go_back_in_time() {
    let now = 1_784_000_000;
    let day = 86400;
    let snapshots = vec![
        SnapshotTime { id: 4, started_at: now - 40 * day },
        SnapshotTime { id: 5, started_at: now - 6 * day },
        SnapshotTime { id: 6, started_at: now - day },
    ];
    assert_eq!(resolve_snapshot_ref("7d", now, &snapshots), Ok(5));
    assert_eq!(resolve_snapshot_ref("2d", now, &snapshots), Ok(6));
    assert_eq!(resolve_snapshot_ref("8w", now, &snapshots), Ok(4));
    assert_eq!(resolve_snapshot_ref("1m", now, &snapshots), Ok(5));
    assert_eq!(
        resolve_snapshot_ref("0d", now, &snapshots),
        Err("No snapshot found for duration '0d'".to_string())
    );
    assert_eq!(
        resolve_snapshot_ref("2100-01-01", now, &snapshots),
        Err("No snapshot found for date '2100-01-01'".to_string())
    );
    assert_eq!(
        resolve_snapshot_ref("soon", now, &snapshots),
        Err("Cannot parse snapshot reference 'soon'".to_string())
    );
    assert_eq!(parse_relative_duration("3w", 100_000_000), Some(100_000_000 - 21 * day));
    assert_eq!(parse_relative_duration("xd", 0), None);
}

#[test]
fn identity_roundtrip() {
    let mut arena = PathlessArena::with_capacity(10, 100);
    let root_sym = arena.intern(b"/tmp");
    let root_idx = arena.push_node(NO_PARENT, root_sym, 0);

    let expected_identity = FsIdentity { dev: 12345, ino: 67890 };
    arena.cold[root_idx as usize].mtime = 1337;
    arena.cold[root_idx as usize].identity = expected_identity;

    let rows = dir_rows(&arena);
    let index = load_snapshot_index(&rows, b'/');

    let cached = index.lookup_identity(expected_identity).expect("Should find identity in index");
    assert_eq!(cached.mtime, 1337);
    assert_eq!(cached.total_bytes, 0);
    assert_eq!(cached.file_count, 0);

    let cached_by_path = index.lookup_path(b"/tmp").expect("Should find path in index");
    assert_eq!(cached_by_path.mtime, 1337);
}

#[test]
fn large_numbers_are_stored_as_negative_ones() {
    assert_eq!(as_signed(u64::MAX), -1);
    assert_eq!(as_signed(i64::MAX as u64), i64::MAX);
    assert_eq!(as_unsigned(-1), u64::MAX);
    assert_eq!(as_unsigned(i64::MIN), 1 << 63);
    for n in [0, 1, 1 << 62, 1 << 63, u64::MAX - 1] {
        assert_eq!(as_unsigned(as_signed(n)), n);
        assert_eq!(as_signed(n), n as i64);
    }
}

#[test]
fn a_delta_row_counts_from_nothing() {
    let r = DeltaRow::new(b"/a".to_vec(), None, 30);
    assert_eq!((r.delta_bytes, r.path_utf8.as_deref()), (30, Some("/a")));
    let r = DeltaRow::new(vec![255], Some(50), 30);
    assert_eq!((r.delta_bytes, r.path_utf8), (-20, None));
}

#[test]
fn test_mutation_log_operations() {
    let record = MutationRecord {
        id: None,
        timestamp: 1000,
        mutation_type: MutationType::Rename,
        dev: 12,
        ino: 34,
        path_blob: b"/new/path".to_vec(),
        old_size: Some(100),
        new_size: Some(200),
        old_path_blob: Some(b"/old/path".to_vec()),
    };

    let id = 1;
    let mut log: Vec<MutationRow> = Vec::new();
    log.push(insert_mutation(&record, id));
    assert!(id > 0);

    let mutations = get_mutations_since(&log, 500, 10);
    assert_eq!(mutations.len(), 1);
    let loaded = mutations[0].clone();
    assert_eq!(loaded.id, Some(id));
    assert_eq!(loaded.timestamp, record.timestamp);
    assert_eq!(loaded.mutation_type, record.mutation_type);
    assert_eq!(loaded.dev, record.dev);
    assert_eq!(loaded.ino, record.ino);
    assert_eq!(loaded.path_blob, record.path_blob);
    assert_eq!(loaded.old_size, record.old_size);
    assert_eq!(loaded.new_size, record.new_size);
    assert_eq!(loaded.old_path_blob, record.old_path_blob);

    let empty_mutations = get_mutations_since(&log, 1500, 10);
    assert_eq!(empty_mutations.len(), 0);

    log.clear();
    let mutations_after_clear = get_mutations_since(&log, 500, 10);
    assert_eq!(mutations_after_clear.len(), 0);
}

#[test]
fn the_log_is_read_up_to_a_limit() {
    let record = |timestamp: i64| MutationRecord {
        id: None,
        timestamp,
        mutation_type: MutationType::Create,
        dev: 0,
        ino: 0,
        path_blob: Vec::new(),
        old_size: None,
        new_size: None,
        old_path_blob: None,
    };
    let log: Vec<MutationRow> =
        (0..5).map(|i| insert_mutation(&record(if i == 1 { 3 } else { 10 }), i)).collect();
    let ids: Vec<Option<i64>> = get_mutations_since(&log, 5, 3).iter().map(|m| m.id).collect();
    assert_eq!(ids, vec![Some(0), Some(2), Some(3)]);
    assert!(get_mutations_since(&log, 5, 0).is_empty());
}

#[test]
fn mutation_types_are_named_and_numbered() {
    let types = [
        (MutationType::Create, "create"),
        (MutationType::Delete, "delete"),
        (MutationType::Modify, "modify"),
        (MutationType::Rename, "rename"),
    ];
    for (i, (t, name)) in types.iter().enumerate() {
        assert_eq!(t.as_str(), *name);
        assert_eq!(MutationType::from_u8(i as u8), *t);
        assert_eq!(t.as_u8() as usize, i);
    }
    assert_eq!(MutationType::from_u8(99), MutationType::Modify);
    let ev = FsEvent {
        timestamp: 2000,
        kind: FsEventKind::Overflow,
        path: b"/x".to_vec(),
        is_dir: false,
    };
    let m = mutation_of_event(&ev, 1, 2, None, Some(11));
    assert_eq!(m.mutation_type, MutationType::Modify);
    assert_eq!((m.timestamp, m.new_size), (2000, Some(11)));
    assert_eq!(MutationType::from(FsEventKind::Delete), MutationType::Delete);
}

#[test]
fn test_insert_mutations_batch() {
    let path = b"/t/test_file.txt".to_vec();
    let event = FsEvent {
        timestamp: 2000,
        kind: FsEventKind::Create,
        path: path.clone(),
        is_dir: false,
    };
    let found = Found {
        state: PathState::File { directory: b"/t".to_vec() },
        dev: 7,
        ino: 9,
        len: Some(b"hello world".len() as u64),
        below: 0,
    };
    let rows = insert_mutations_batch(&vec![event], &vec![found], &vec![], None, 1);
    let mutations = get_mutations_since(&rows, 1000, 10);
    assert_eq!(mutations.len(), 1);
    let m = &mutations[0];
    assert_eq!(m.timestamp, 2000);
    assert_eq!(m.path_blob, path);
    assert_eq!(m.new_size, Some(11));
    assert!(m.dev > 0);
    assert!(m.ino > 0);
}

#[test]
fn a_batch_is_logged_with_the_sizes_before_and_after() {
    let event = |path: &[u8], kind| FsEvent { timestamp: 5, kind, path: path.to_vec(), is_dir: true };
    let found = |state, len| Found { state, dev: 1, ino: 2, len, below: 700 };
    let size = |snapshot_id, path: &[u8], total_bytes| SizeRow {
        snapshot_id,
        path: path.to_vec(),
        path_utf8: None,
        total_bytes,
    };
    let rows = insert_mutations_batch(
        &vec![event(b"/d", FsEventKind::Modify), event(b"/gone", FsEventKind::Delete)],
        &vec![found(PathState::Directory, Some(4096)), found(PathState::Missing, Some(1))],
        &vec![size(1, b"/d", 100), size(2, b"/gone", 30), size(2, b"/d", 200)],
        Some(2),
        41,
    );
    let shown: Vec<_> = rows.iter().map(|r| (r.id, r.mutation_type, r.old_size, r.new_size)).collect();
    assert_eq!(shown, vec![(41, 2, Some(200), Some(700)), (42, 1, Some(30), None)]);
}

#[test]
fn the_largest_changes_of_a_snapshot_come_first() {
    let change = |snapshot_id, delta_bytes| DeltaRecord {
        snapshot_id,
        delta: DeltaRow {
            path: b"/d".to_vec(),
            path_utf8: None,
            previous_bytes: None,
            current_bytes: 0,
            delta_bytes,
        },
    };
    let rows = vec![change(2, 5), change(1, 900), change(2, -70), change(2, 6)];
    assert_eq!(get_deltas_for_snapshot(&rows, 2), Some(vec![2, 3, 0]));
    assert_eq!(get_deltas_for_snapshot(&rows, 3), Some(vec![]));
    assert_eq!(get_deltas_for_snapshot(&vec![change(1, i64::MIN)], 1), None);
    assert_eq!(get_deltas_for_snapshot(&vec![change(1, i64::MIN)], 2), Some(vec![]));
}

#[test]
fn a_changed_file_brings_its_directories_up_to_date() {
    let file = b"/t/root_dir/subdir/file2.txt".to_vec();
    let subdir = b"/t/root_dir/subdir".to_vec();
    let mut r = Reconcile::new(b'/');
    let state = || PathState::File { directory: b"/t/root_dir/subdir".to_vec() };
    let target = r.next_target(file.clone(), state()).unwrap();
    assert_eq!(target, subdir);
    assert!(r.next_target(file, state()).is_none());
    let change = r
        .looked_at(
            target,
            Some(DirSize { bytes: 20, files: 1 }),
            DirSize { bytes: 50, files: 1 },
        )
        .unwrap();
    assert_eq!(r.drift, 30);
    assert_eq!((change.delta_bytes, change.delta_files), (30, 0));
    assert_eq!(change.change, RowChange::Update);
    assert_eq!(change.depth, 3);
    assert_eq!(
        change.ancestors,
        vec![b"/t/root_dir".to_vec(), b"/t".to_vec(), b"/".to_vec()]
    );
}

/// Looks at directories one after the other and applies what is found to the rows.
fn reconcile(rows: &mut HashMap<&'static str, DirSize>, looks: &[(&'static str, i64)]) -> i64 {
    let mut r = Reconcile::new(b'/');
    for (path, bytes) in looks {
        let target = r.next_target(path.as_bytes().to_vec(), PathState::Directory).unwrap();
        let prev = rows.get(path).copied();
        let current = DirSize { bytes: *bytes, files: 1 };
        assert!(r.can_take(&target, &prev, &current));
        let Some(c) = r.looked_at(target, prev, current) else { continue };
        match c.change {
            RowChange::Nothing => {}
            RowChange::Delete => {
                rows.remove(path);
            }
            RowChange::Update | RowChange::Insert => {
                rows.insert(path, c.size);
            }
        }
        for (p, size) in rows.iter_mut() {
            if c.ancestors.iter().any(|a| a == p.as_bytes()) {
                size.bytes += c.delta_bytes;
            }
        }
    }
    r.drift
}

#[test]
fn growth_is_not_counted_twice() {
    let size = |bytes| DirSize { bytes, files: 1 };
    for looks in [[("/r", 60), ("/r/sub", 50)], [("/r/sub", 50), ("/r", 60)]] {
        let mut rows = HashMap::from([("/r", size(30)), ("/r/sub", size(20))]);
        assert_eq!(reconcile(&mut rows, &looks), 30);
        assert_eq!((rows["/r"].bytes, rows["/r/sub"].bytes), (60, 50));
    }
    for looks in [[("/r/new", 9), ("/r/new/sub", 5)], [("/r/new/sub", 5), ("/r/new", 9)]] {
        let mut rows = HashMap::from([("/r", size(30))]);
        assert_eq!(reconcile(&mut rows, &looks), 9);
        assert_eq!((rows["/r"].bytes, rows["/r/new"].bytes, rows["/r/new/sub"].bytes), (39, 9, 5));
    }
    let mut r = Reconcile::new(b'/');
    assert!(!r.can_take(&b"/a".to_vec(), &Some(size(-2)), &size(i64::MAX)));
    r.drift = i64::MAX;
    assert!(!r.can_take(&b"/a".to_vec(), &None, &size(1)));
}

#[test]
fn kept_changes_give_the_same_comparison() {
    let row = |path: &str, total_bytes| DirRow {
        path: path.as_bytes().to_vec(),
        path_utf8: Some(path.to_string()),
        depth: 1,
        total_bytes,
        file_count: 0,
        mtime: 0,
        dev: 0,
        ino: 0,
    };
    let a = SnapshotRows { id: 1, started_at: 5, rows: vec![row("/a", 10), row("/b", 90), row("/same", 1)] };
    let b = SnapshotRows { id: 2, started_at: 6, rows: vec![row("/a", 35), row("/c", 7), row("/same", 1)] };
    let first = compute_diff(&a, &b, 5, 0);
    let again = cached_diff(1, 2, 5, 6, changed_dirs(&a.rows, &b.rows), 5, 0);
    let shown = |r: &DiffResult| {
        r.entries.iter().map(|e| (e.path.clone(), e.bytes_a, e.bytes_b, e.delta_bytes)).collect::<Vec<_>>()
    };
    assert_eq!(shown(&first), shown(&again));
    assert_eq!((first.net_change, again.net_change), (-58, -58));
    assert_eq!(
        shown(&first),
        vec![
            ("/b".to_string(), Some(90), None, -90),
            ("/a".to_string(), Some(10), Some(35), 25),
            ("/c".to_string(), None, Some(7), 7),
        ]
    );
    let one = query_explain(&a.rows, &b.rows, 1);
    assert_eq!(one.len(), 1);
    assert_eq!((one[0].path.as_str(), one[0].delta_bytes), ("/a", 25));
    assert_eq!(explain_changes(changed_dirs(&a.rows, &b.rows), 9).unwrap().len(), 2);
}

#[test]
fn rows_come_and_go() {
    let mut r = Reconcile::new(b'/');
    let none = DirSize { bytes: 0, files: 0 };
    let some = DirSize { bytes: 5, files: 1 };
    assert!(r.looked_at(b"/a".to_vec(), None, none).is_none());
    assert!(r.looked_at(b"/a".to_vec(), Some(some), some).is_none());
    assert_eq!(r.looked_at(b"/a".to_vec(), None, some).unwrap().change, RowChange::Insert);
    assert_eq!(r.looked_at(b"/a".to_vec(), Some(some), none).unwrap().change, RowChange::Delete);
    let empty_files = DirSize { bytes: 0, files: 2 };
    assert_eq!(r.looked_at(b"/a".to_vec(), None, empty_files).unwrap().change, RowChange::Nothing);
    assert_eq!(r.drift, 0);
    assert_eq!(reconcile_target(b"/a/b".to_vec(), PathState::Missing, b'/'), b"/a".to_vec());
    assert_eq!(reconcile_target(b"b".to_vec(), PathState::Missing, b'/'), b"b".to_vec());
    assert_eq!(reconcile_target(b"/a".to_vec(), PathState::Directory, b'/'), b"/a".to_vec());
    assert!(ancestor_paths(&b"/".to_vec(), b'/').is_empty());
}

#[test]
fn the_newest_snapshot_is_kept() {
    let now = 1_784_000_000;
    let snapshots: Vec<SnapshotTime> =
        (0..4).map(|i| SnapshotTime { id: 10 - i, started_at: now - i * 86400 * 10 }).collect();
    assert_eq!(resolve_prune_candidates(&snapshots, Some(2), None, now), vec![8, 7]);
    assert_eq!(resolve_prune_candidates(&snapshots, Some(0), None, now), vec![9, 8, 7]);
    assert_eq!(resolve_prune_candidates(&snapshots, None, Some("15d"), now), vec![8, 7]);
    assert_eq!(resolve_prune_candidates(&snapshots, None, Some("0d"), now), vec![9, 8, 7]);
    assert_eq!(resolve_prune_candidates(&snapshots, None, Some("odd"), now), vec![9, 8, 7]);
    assert!(resolve_prune_candidates(&Vec::new(), None, None, now).is_empty());
}

fn pruned_tables() -> SnapshotTables {
    let row = |id, snapshot_id| RowRef { id, snapshot_id };
    SnapshotTables {
        snapshots: vec![
            SnapshotRef { id: 3, total_bytes: 5 },
            SnapshotRef { id: 4, total_bytes: 3 },
            SnapshotRef { id: 5, total_bytes: 100 },
        ],
        dirs: vec![row(1, 3), row(2, 5), row(3, 4), row(4, 3)],
        deltas: vec![row(1, 5), row(2, 4)],
        diffs: vec![
            PairRef { id: 1, snapshot_a: 3, snapshot_b: 5 },
            PairRef { id: 2, snapshot_a: 5, snapshot_b: 6 },
            PairRef { id: 3, snapshot_a: 5, snapshot_b: 4 },
        ],
    }
}

#[test]
fn a_prune_deletes_what_its_preview_tells() {
    let mut tables = pruned_tables();
    let p = preview_prune(&tables, &vec![3, 4]);
    assert_eq!((p.snapshot_count, p.dir_row_count, p.event_row_count), (2, 3, 0));
    assert_eq!((p.delta_row_count, p.freed_bytes_approx), (1, 8));
    let dry = prune_result(p, true);
    assert_eq!((dry.deleted_dir_rows, dry.deleted_event_rows, dry.dry_run), (3, 0, true));
    assert_eq!(tables.dirs.len(), 4);
    let r = execute_prune(&mut tables, &vec![3, 4]);
    assert_eq!(r.deleted_snapshots, vec![3, 4]);
    assert_eq!((r.deleted_dir_rows, r.deleted_delta_rows, r.deleted_event_rows), (3, 1, 0));
    assert_eq!((r.freed_bytes_approx, r.deleted_snapshot_count, r.dry_run), (8, 2, false));
    assert_eq!(tables.snapshots, vec![SnapshotRef { id: 5, total_bytes: 100 }]);
    assert_eq!(tables.dirs, vec![RowRef { id: 2, snapshot_id: 5 }]);
    assert_eq!(tables.deltas, vec![RowRef { id: 1, snapshot_id: 5 }]);
    assert_eq!(tables.diffs, vec![PairRef { id: 2, snapshot_a: 5, snapshot_b: 6 }]);
    assert_eq!(preview_prune(&tables, &Vec::new()).freed_bytes_approx, 0);
    assert_eq!(execute_prune(&mut tables, &Vec::new()).deleted_dir_rows, 0);
    assert_eq!(tables.dirs.len(), 1);
    assert_eq!(id_list(&vec![3, -4, 5]), "3,-4,5");
    assert_eq!(
        prune_statements(&vec![3, 4]),
        "DELETE FROM diff_cache WHERE snapshot_a IN (3,4) OR snapshot_b IN (3,4); DELETE FROM dir_deltas WHERE snapshot_id IN (3,4); DELETE FROM dir_snapshots WHERE snapshot_id IN (3,4); DELETE FROM snapshots WHERE id IN (3,4);"
    );
}

#[test]
fn the_rows_of_a_scan_count_the_files_below() {
    let mut arena = PathlessArena::with_capacity(8, 64);
    let node = |parent: u32, files: u32, arena: &mut PathlessArena| {
        let name = arena.intern(format!("n{}", arena.node_count()).as_bytes());
        let i = arena.push_node(parent, name, 0);
        arena.set_totals(i, 0, files);
        i
    };
    let root = node(NO_PARENT, 1, &mut arena);
    let a = node(root, 2, &mut arena);
    let _b = node(root, 4, &mut arena);
    let _c = node(a, 8, &mut arena);
    let counts = |rows: Vec<DirRow>| rows.iter().map(|r| r.file_count).collect::<Vec<_>>();
    assert_eq!(counts(dir_rows(&arena)), vec![1, 2, 4, 8]);
    let rows = scan_rows(&arena);
    assert_eq!(rows[3].path, b"n0/n1/n3");
    assert_eq!(counts(rows), vec![15, 10, 4, 8]);
}

#[test]
fn far_references_are_out_of_range() {
    assert!(disktracker::store::is_in_range("7d", 1_000_000));
    assert!(disktracker::store::is_in_range("2024-01-01", 0));
    assert!(disktracker::store::is_in_range("106751991167300d", i64::MAX));
    assert!(!disktracker::store::is_in_range("106751991167301d", i64::MAX));
    assert!(!disktracker::store::is_in_range("-1d", i64::MAX));
    assert!(!disktracker::store::is_in_range("9223372036854775807m", 0));
}

fn snapshot_record(id: i64, root: &str, started_at: i64) -> SnapshotRecord {
    SnapshotRecord {
        id,
        scan_root: root.to_string(),
        started_at,
        finished_at: started_at + 1,
        total_files: 1,
        total_bytes: 10 * id,
        error_count: 0,
        host: "host".to_string(),
    }
}

#[test]
fn snapshots_are_found_by_root_and_number() {
    let list = vec![
        snapshot_record(1, "/a", 100),
        snapshot_record(3, "/a", 90),
        snapshot_record(2, "/b", 80),
    ];
    assert_eq!(get_latest_snapshot_for_root(&list, "/a"), Some(3));
    assert_eq!(get_latest_snapshot_for_root(&list, "/b"), Some(2));
    assert_eq!(get_latest_snapshot_for_root(&list, "/c"), None);
    assert_eq!(get_snapshot(&list, 2), Some(2));
    assert_eq!(get_snapshot(&list, 4), None);
}

#[test]
fn a_timeline_prefers_snapshots() {
    let snapshots = vec![snapshot_record(1, "/", 100), snapshot_record(2, "/", 50)];
    let row = |snapshot_id: i64, path: &str, total_bytes: i64| SizeRow {
        snapshot_id,
        path: path.as_bytes().to_vec(),
        path_utf8: None,
        total_bytes,
    };
    let rows = vec![row(1, "/var", 7), row(2, "/var", 5), row(2, "/tmp", 1), row(9, "/var", 3)];
    let change = |recorded_at: i64, current_bytes: i64| SizeChange {
        path: vec![255],
        path_utf8: Some("/opt".to_string()),
        current_bytes,
        recorded_at,
    };
    let changes = vec![change(30, 2), change(20, 1)];
    let seen = |path: &str| -> Vec<(i64, i64, i64)> {
        timeline(&snapshots, &rows, &changes, path)
            .iter()
            .map(|e| (e.snapshot_id, e.timestamp, e.total_bytes))
            .collect()
    };
    assert_eq!(seen("/var"), vec![(2, 50, 5), (1, 100, 7)]);
    assert_eq!(seen("/opt"), vec![(-1, 20, 1), (-1, 30, 2)]);
    assert_eq!(seen("/none"), vec![]);
    assert!(query_timeline(&snapshots, &rows, "/opt").is_empty());
    assert_eq!(query_timeline_from_deltas(&changes, "/opt").len(), 2);
}

#[test]
fn recent_events_come_first() {
    let event = |id: i64, timestamp: i64| FsEventRecord {
        id,
        timestamp,
        kind: FsEventKind::Modify,
        path: vec![id as u8],
        is_dir: false,
    };
    let events = vec![event(1, 10), event(2, 30), event(3, 20), event(4, 30), event(5, 5)];
    let ids = |since: i64, limit: usize| -> Vec<i64> {
        get_recent_events(&events, since, limit).iter().map(|e| e.id).collect()
    };
    assert_eq!(ids(10, 10), vec![2, 4, 3, 1]);
    assert_eq!(ids(0, 2), vec![2, 4]);
    assert_eq!(ids(31, 2), Vec::<i64>::new());
    assert_eq!(get_event_count_since(&events, 10), 4);
}

#[test]
fn times_of_watching_are_noted() {
    let s = touch_event_time(None, 7);
    assert!(s.watch_root.is_empty() && s.last_reconcile_time.is_none() && s.last_snapshot_id.is_none());
    assert_eq!(s.last_event_time, Some(7));
    let s = WatchState { watch_root: vec![47], last_snapshot_id: Some(3), ..s };
    let s = touch_reconcile_time(Some(s), 9);
    assert_eq!((s.last_event_time, s.last_reconcile_time), (Some(7), Some(9)));
    assert_eq!((s.watch_root, s.last_snapshot_id), (vec![47], Some(3)));
}
