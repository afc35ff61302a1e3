use disktracker::ancestry::{
    get_fact_path, get_fact_path_local_u64, is_descendant_u64, roll_up,
};
use disktracker::base64::{base64_decode, base64_encode};
use disktracker::facts::{FactRow, FactTable};
use disktracker::model::{get_volume_tracker, DaemonState, ProgressRegistry};
use disktracker::mutation_filter::{can_aggregate_history_entries, is_displayable_mutation};
use disktracker::snapshot_diff::{calculate_diff, LogRow};
use disktracker::top::{parse_cursor, top_page, ChangeRow, Measure, VolumeFacts};
use disktracker::top_interval::{
    between_intervals, history_shortfall, known_over, since_intervals, top_parts, LoggedChange,
    NamedSnapshots, TopFailure, VolumeLog,
};
use disktracker::top_request::{
    handle_get_top, plan_top, top_window, ParentSnapshot, SnapshotVolume, TopParams,
};
use std::collections::HashMap;

fn fact(file_id: u64, parent_file_id: u64, name: &str, is_directory: bool, size: u64) -> FactRow {
    FactRow { file_id, parent_file_id, name: name.to_string(), is_directory, size }
}

fn tree() -> Vec<FactRow> {
    vec![
        fact(1, 1, "C:", true, 0),
        fact(2, 1, "dir1", true, 0),
        fact(3, 2, "file1.txt", false, 100),
        fact(4, 2, "file2.txt", false, 200),
        fact(5, 1, "file3.txt", false, 50),
    ]
}

fn entry(sequence: i64, file_id: u64, name: &str, kind: &str, size_delta: i64) -> LogRow {
    LogRow {
        sequence,
        file_id,
        parent_file_id: 0,
        name: name.to_string(),
        kind: kind.to_string(),
        is_directory: false,
        size_delta,
    }
}

#[test]
fn displayable_allows_zero_byte_create_delete_rename() {
    assert!(is_displayable_mutation("Created", 0));
    assert!(is_displayable_mutation("Deleted", 0));
    assert!(is_displayable_mutation("Renamed", 0));
}

#[test]
fn displayable_modified_requires_two_bytes() {
    assert!(!is_displayable_mutation("Modified", 0));
    assert!(!is_displayable_mutation("Modified", 1));
    assert!(!is_displayable_mutation("Modified", -1));
    assert!(is_displayable_mutation("Modified", 2));
    assert!(is_displayable_mutation("Modified", -2));
}

#[test]
fn aggregate_consecutive_same_create_but_not_modified() {
    assert!(can_aggregate_history_entries("Created", 1, "a.txt", "Created", 1, "a.txt"));
    assert!(!can_aggregate_history_entries("Created", 1, "a.txt", "Created", 2, "a.txt"));
    assert!(!can_aggregate_history_entries("Created", 1, "a.txt", "Deleted", 1, "a.txt"));
    assert!(!can_aggregate_history_entries("Modified", 1, "a.txt", "Modified", 1, "a.txt"));
}

#[test]
fn test_base64_encode_decode() {
    let original = b"1024:C::12345";
    let encoded = base64_encode(original);
    assert_ne!(encoded, "");
    let decoded = base64_decode(&encoded).unwrap();
    assert_eq!(decoded, original);
}

#[test]
fn base64_of_known_texts() {
    assert_eq!(base64_encode(b""), "");
    assert_eq!(base64_encode(b"f"), "Zg==");
    assert_eq!(base64_encode(b"fo"), "Zm8=");
    assert_eq!(base64_encode(b"foo"), "Zm9v");
    assert_eq!(base64_encode(b"foobar"), "Zm9vYmFy");
    assert_eq!(base64_decode("Zm8="), Some(b"fo".to_vec()));
    assert_eq!(base64_decode("!!!!"), None);
}

#[test]
fn test_top_mode_a_files_and_rollup() {
    let nodes = tree();
    let volume = VolumeFacts { volume: "C:".to_string(), facts: tree(), changes: Vec::new() };
    let page = top_page(&vec![volume], Measure::Size, false, None, &None, 20);
    let file_items = page.results;

    assert_eq!(file_items.len(), 3);
    assert_eq!(file_items[0].name, "file2.txt");
    assert_eq!(file_items[0].size, 200);
    assert_eq!(file_items[0].path, "dir1");
    assert_eq!(file_items[1].name, "file1.txt");
    assert_eq!(file_items[1].size, 100);
    assert_eq!(file_items[2].name, "file3.txt");
    assert_eq!(file_items[2].size, 50);

    let table = FactTable::build(&nodes);
    let sizes: Vec<(u64, i128)> =
        nodes.iter().filter(|n| !n.is_directory).map(|n| (n.file_id, n.size as i128)).collect();
    let ones: Vec<(u64, i128)> = sizes.iter().map(|(id, _)| (*id, 1)).collect();
    let folder_sizes = roll_up(&table.parents, &sizes);
    let folder_item_counts = roll_up(&table.parents, &ones);
    let mut folder_items: Vec<(String, i128, i128)> = nodes
        .iter()
        .filter(|n| n.is_directory)
        .map(|n| (n.name.clone(), folder_sizes[&n.file_id], folder_item_counts[&n.file_id]))
        .collect();
    folder_items.sort_by(|a, b| b.1.cmp(&a.1));

    assert_eq!(folder_items.len(), 2);
    assert_eq!(folder_items[0].0, "C:");
    assert_eq!(folder_items[0].1, 350);
    assert_eq!(folder_items[0].2, 3);
    assert_eq!(folder_items[1].0, "dir1");
    assert_eq!(folder_items[1].1, 300);
    assert_eq!(folder_items[1].2, 2);
}

#[test]
fn test_is_descendant_u64() {
    let mut parent_map = HashMap::new();
    parent_map.insert(2, 1);
    parent_map.insert(3, 2);
    parent_map.insert(4, 2);
    parent_map.insert(5, 1);

    assert!(is_descendant_u64(&parent_map, 3, 2));
    assert!(is_descendant_u64(&parent_map, 3, 1));
    assert!(!is_descendant_u64(&parent_map, 5, 2));
    assert!(is_descendant_u64(&parent_map, 5, 1));
}

#[test]
fn a_ring_of_parents_ends() {
    let mut parents = HashMap::new();
    parents.insert(1, 2);
    parents.insert(2, 1);
    assert!(is_descendant_u64(&parents, 1, 2));
    assert!(!is_descendant_u64(&parents, 1, 9));
    let mut names = HashMap::new();
    names.insert(1, "a".to_string());
    names.insert(2, "b".to_string());
    let path = get_fact_path_local_u64(&parents, &names, "C:", 1);
    assert!(path.len() < 10);
}

#[test]
fn a_ranking_names_the_volumes_that_are_not_complete() {
    let params = TopParams {
        volume: None,
        folders: true,
        files: false,
        since: None,
        between_a: None,
        between_b: None,
        growth: false,
        churn: false,
    };
    let plan = plan_top(&params, Some(("C:".to_string(), 2)), vec!["C:".to_string()]).unwrap();
    let volumes =
        vec![VolumeFacts { volume: "C:".to_string(), facts: tree(), changes: Vec::new() }];
    let mut registry = ProgressRegistry::new();
    let live = get_volume_tracker(&mut registry, "C:");
    registry.trackers[live].state = DaemonState::Live;
    get_volume_tracker(&mut registry, "D:");
    let r = handle_get_top(&params, &None, &None, 60, 0, &plan, &volumes, &registry, &None, 5);
    assert_eq!(r.volumes_incomplete, vec!["D:".to_string()]);
    assert_eq!((r.window_start, r.window_end), (None, None));
    assert_eq!(r.results.len(), 1);
    assert_eq!((r.results[0].name.as_str(), r.results[0].size), ("dir1", 300));
    assert_eq!(r.results[0].item_count, 2);
    assert_eq!(r.next_cursor, None);
}

#[test]
fn a_ranking_names_the_ends_of_its_interval() {
    let mut p = top_params();
    let named = |label: &str| Some(ParentSnapshot { label: label.to_string(), volumes: Vec::new() });
    assert_eq!(top_window(&p, &named("a"), &named("b"), 60, 0), (None, None));
    p.between_a = Some("id1".to_string());
    let (start, end) = top_window(&p, &named("a"), &named("b"), 60, 0);
    assert_eq!((start.as_deref(), end.as_deref()), (Some("a"), Some("b")));
    p.since = Some(60);
    let (start, end) = top_window(&p, &None, &None, 120, 500_000_000);
    assert_eq!(start.as_deref(), Some("1970-01-01T00:01:00+00:00"));
    assert_eq!(end.as_deref(), Some("1970-01-01T00:02:00.500+00:00"));
}

#[test]
fn paths_of_files_are_joined() {
    let table = FactTable::build(&tree());
    assert_eq!(get_fact_path(&table.parents, &table.names, "C:", 3), "dir1/file1.txt");
    assert_eq!(get_fact_path(&table.parents, &table.names, "C:", 1), "");
    assert_eq!(get_fact_path(&table.parents, &table.names, "C:", 99), "");
}

#[test]
fn a_page_begins_behind_the_item_that_its_cursor_names() {
    let volumes =
        || vec![VolumeFacts { volume: "data".to_string(), facts: tree(), changes: Vec::new() }];
    let first = top_page(&volumes(), Measure::Size, false, None, &None, 2);
    assert_eq!(first.results.len(), 2);
    let cursor = first.next_cursor.clone();
    assert!(cursor.is_some());
    assert!(parse_cursor(cursor.as_deref().unwrap()).is_some());
    // The cursor names the item behind the first page; the next page begins behind it.
    let second = top_page(&volumes(), Measure::Size, false, None, &cursor, 2);
    assert!(second.results.is_empty());
    assert_eq!(second.next_cursor, None);
    let one = top_page(&volumes(), Measure::Size, false, None, &None, 1);
    let third = top_page(&volumes(), Measure::Size, false, None, &one.next_cursor, 1);
    assert_eq!(third.results[0].name, "file3.txt");
    assert!(parse_cursor(&base64_encode(b"1024:C::12345")).is_none());
}

#[test]
fn growth_and_churn_come_from_the_log() {
    let change = |id: u64, name: &str, size_delta: i64| ChangeRow {
        node: fact(id, 2, name, false, 0),
        size_delta,
    };
    let volumes = || {
        vec![VolumeFacts {
            volume: "C:".to_string(),
            facts: tree(),
            changes: vec![
                change(3, "file1.txt", 10),
                change(3, "file1.txt", -4),
                change(4, "file2.txt", 100),
            ],
        }]
    };
    let growth = top_page(&volumes(), Measure::Growth, false, None, &None, 10);
    assert_eq!(growth.results[0].name, "file2.txt");
    assert_eq!(growth.results[0].size_delta, 100);
    assert_eq!(growth.results[1].size_delta, 6);
    let churn = top_page(&volumes(), Measure::Churn, false, None, &None, 10);
    assert_eq!(churn.results[0].name, "file1.txt");
    assert_eq!(churn.results[0].churn, 2);
}

#[test]
fn test_diff_reduction_created_modified_deleted() {
    let log = vec![
        entry(1, 1, "new.txt", "Created", 100),
        entry(2, 1, "new.txt", "Modified", 50),
        entry(3, 2, "temp.txt", "Created", 500),
        entry(4, 2, "temp.txt", "Deleted", -500),
    ];
    let table = FactTable::build(&Vec::new());
    let diff = calculate_diff(&log, &table, "C:", 0, 4, None, "30d").unwrap();
    assert_eq!(diff.len(), 1);
    assert_eq!(diff[0].file_id, 1);
    assert_eq!(diff[0].kind, "Created");
    assert_eq!(diff[0].size_delta, 150);
    assert_eq!(diff[0].name, "new.txt");
}

#[test]
fn test_diff_reduction_renamed() {
    let log = vec![
        entry(1, 10, "old_name.txt", "Created", 100),
        entry(2, 10, "new_name.txt", "Renamed", 0),
    ];
    let table = FactTable::build(&Vec::new());
    let diff = calculate_diff(&log, &table, "C:", 1, 2, None, "30d").unwrap();
    assert_eq!(diff.len(), 1);
    assert_eq!(diff[0].file_id, 10);
    assert_eq!(diff[0].kind, "Renamed");
    assert_eq!(diff[0].name, "new_name.txt");
    assert_eq!(diff[0].old_name, Some("old_name.txt".to_string()));
}

#[test]
fn a_log_that_does_not_reach_back_is_expired() {
    let log = vec![entry(8, 1, "a", "Created", 1), entry(9, 1, "a", "Modified", 1)];
    let table = FactTable::build(&Vec::new());
    let e = calculate_diff(&log, &table, "C:", 3, 9, None, "30d").unwrap_err();
    assert!(e.starts_with("E_SNAPSHOT_DATA_EXPIRED: "));
}

fn logged(sequence: i64, at: &str, file_id: u64, size_delta: i64) -> LoggedChange {
    let node = fact(file_id, 1, &format!("f{}", file_id), false, 0);
    LoggedChange { sequence, at: at.to_string(), change: ChangeRow { node, size_delta } }
}

fn volume_log(volume: &str) -> VolumeLog {
    VolumeLog {
        volume: volume.to_string(),
        facts: vec![fact(1, 1, volume, true, 0)],
        log: vec![
            logged(4, "1970-01-01T00:01:00+00:00", 2, 10),
            logged(5, "1970-01-01T00:02:00+00:00", 3, 20),
            logged(6, "1970-01-01T00:03:00+00:00", 2, -4),
            logged(7, "1970-01-01T00:04:00+00:00", 4, 1),
        ],
    }
}

#[test]
fn an_interval_since_a_moment() {
    let mut volumes = vec![volume_log("C:")];
    volumes.push(VolumeLog { volume: "D:".to_string(), facts: Vec::new(), log: Vec::new() });
    let parts = since_intervals(&volumes, 120);
    assert_eq!((parts[0].volume.as_str(), parts[0].start, parts[0].end), ("C:", 4, 7));
    assert_eq!((parts[1].start, parts[1].end), (0, 0));
    let nothing = since_intervals(&volumes, 9_999);
    assert_eq!((nothing[0].start, nothing[0].end), (7, 7));
    assert!(known_over(vec![volume_log("C:")], &nothing)[0].changes.is_empty());
    let known = known_over(volumes, &parts);
    let deltas: Vec<i64> = known[0].changes.iter().map(|c| c.size_delta).collect();
    assert_eq!(deltas, vec![20, -4, 1]);
    assert!(known[1].changes.is_empty());
    let page = top_page(&known, Measure::Growth, false, None, &None, 10);
    let names: Vec<&str> = page.results.iter().map(|i| i.name.as_str()).collect();
    assert_eq!(names, vec!["f3", "f2", "f4"]);
}

#[test]
fn a_log_that_reaches_back_far_enough() {
    let volumes = vec![volume_log("C:")];
    // The oldest entry is 60 seconds behind 1970, that is 240 seconds ago.
    assert_eq!(history_shortfall(&volumes, 60, 300, 0), None);
    assert_eq!(history_shortfall(&volumes, 59, 300, 0), Some((240, 241)));
    let empty = vec![VolumeLog { volume: "D:".to_string(), facts: Vec::new(), log: Vec::new() }];
    assert_eq!(history_shortfall(&empty, 299, 300, 0), Some((0, 1)));
    assert_eq!(history_shortfall(&empty, 300, 300, 0), None);
}

#[test]
fn an_interval_between_snapshots() {
    let snapshot = |label: &str, places: &[(&str, i64)]| ParentSnapshot {
        label: label.to_string(),
        volumes: places
            .iter()
            .map(|(v, n)| SnapshotVolume { volume: v.to_string(), sequence_number: *n })
            .collect(),
    };
    let volumes = vec![volume_log("C:")];
    let a = snapshot("a", &[("C:", 6), ("E:", 1)]);
    let b = snapshot("b", &[("D:", 3), ("C:", 4)]);
    let parts = between_intervals(None, &a, &b, &volumes, "30d").unwrap();
    assert_eq!(parts.len(), 1);
    assert_eq!((parts[0].volume.as_str(), parts[0].start, parts[0].end), ("C:", 4, 6));
    let known = known_over(volumes, &parts);
    let deltas: Vec<i64> = known[0].changes.iter().map(|c| c.size_delta).collect();
    assert_eq!(deltas, vec![20, -4]);

    let volumes = vec![volume_log("C:")];
    let e = between_intervals(Some("D:"), &a, &b, &volumes, "30d").err().unwrap();
    assert_eq!(e, "E_NOT_FOUND: Volume D: not found in snapshot a");
    let old = snapshot("old", &[("C:", 3)]);
    let e = between_intervals(Some("C:"), &old, &b, &volumes, "30d").err().unwrap();
    assert!(e.starts_with("E_SNAPSHOT_DATA_EXPIRED: ") && e.contains("(30d)"));
}

fn top_params() -> TopParams {
    TopParams {
        volume: None,
        folders: false,
        files: false,
        since: None,
        between_a: None,
        between_b: None,
        growth: false,
        churn: false,
    }
}

#[test]
fn the_parts_of_the_logs_that_are_ranked() {
    let volumes = vec![volume_log("C:")];
    let nothing = NamedSnapshots { a: None, b: None };
    let mut p = top_params();
    assert_eq!(top_parts(&p, None, &nothing, &volumes, 300, 0, "30d").ok().unwrap().len(), 0);
    p.since = Some(120);
    assert_eq!(top_parts(&p, None, &nothing, &volumes, 300, 0, "30d").ok().unwrap()[0].start, 4);
    p.since = Some(0);
    assert!(matches!(
        top_parts(&p, None, &nothing, &volumes, 300, 0, "30d"),
        Err(TopFailure::TooShort { available_secs: 240, needed_secs: 300 })
    ));
    let mut p = top_params();
    p.between_a = Some("a".to_string());
    let message = |p: &TopParams, named: &NamedSnapshots| {
        match top_parts(p, None, named, &volumes, 300, 0, "30d") {
            Err(TopFailure::Refused(e)) => e,
            _ => String::new(),
        }
    };
    assert_eq!(message(&p, &nothing), "Missing parameter between_b");
    p.between_b = Some("b".to_string());
    assert_eq!(message(&p, &nothing), "E_NOT_FOUND: Snapshot not found: a");
    let place = |n: i64| ParentSnapshot {
        label: "x".to_string(),
        volumes: vec![SnapshotVolume { volume: "C:".to_string(), sequence_number: n }],
    };
    let one = NamedSnapshots { a: Some(place(5)), b: None };
    assert_eq!(message(&p, &one), "E_NOT_FOUND: Snapshot not found: b");
    let both = NamedSnapshots { a: Some(place(5)), b: Some(place(7)) };
    let parts = top_parts(&p, Some("C:"), &both, &volumes, 300, 0, "30d").ok().unwrap();
    assert_eq!((parts[0].start, parts[0].end), (5, 7));
}
