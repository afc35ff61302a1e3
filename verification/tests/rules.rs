use disktracker::calendar::{EARLIEST_SECONDS, LATEST_SECONDS};
use disktracker::commands::{
    after_scan, check_prune_rules, doctor_report, earlier_snapshot, get_latest_snapshot_id,
    later_snapshot, lazy_start, plan_scan, reconcile_roots, reports_reuse, sum_drift,
    poll_pause_ms, uninstall_answer, uninstall_prompt, uninstall_reply, Check, FolderState, IntegrityReply, LoggedRun,
    PruningReply, RootDrift, ScanEnd, Uninstall, UninstallEvent,
};
use disktracker::config::{
    check_retention, checked_any_duration, checked_duration, load_config, parse_any_duration,
    parse_duration, retention_from_number, AppConfig, ConfigSource,
};
use disktracker::decimal::{decimal, hexadecimal, parse_i64, parse_u64, signed_decimal};
use disktracker::drain::{after_batch, batch_end, can_replay, pending_query, replay, FactChange, IndexSync, PendingMutation};
use disktracker::history::{
    aggregate, get_history, history_page, history_query, is_truncated, parse_history_cursor,
    parse_path, path_parts, HistoryCounts, HistoryCursor, HistoryEntry, HistoryFilter, PathWalk,
    ParentChain, SqlParam,
};
use disktracker::model::{
    get_registered_volumes, get_volume_tracker, incomplete_volumes, DaemonState, ProgressRegistry,
};
use disktracker::moments::{parse_modified_time, parse_time_param};
use disktracker::report::{
    attribute_flags, binary_unit, change_line, column_width, decimal_unit, diff_status,
    display_path, fmt_date, fmt_id_list, fmt_number, fmt_ts, format_relative_time, grown_entries,
    incomplete_shown, rename_details, resolve_volume_from_path, resolve_volume_from_path_or_cwd,
    root_short, shrunk_entries, time_ago, timeframe, timeline_changes, volumes_to_snapshot,
    ByteUnit, TimelineEntry,
};
use disktracker::rpc::{
    aggregate_state, can_prune, config_get, config_set, get_last_successful_pruning_time,
    get_volume_progress, handle_request, history_error, index_stale, is_due, is_due_since,
    is_pruning_due, map_rpc_result,
    parse_error, path_required, pruning_record, pruning_window, requested_limit, requested_page,
    snapshot_interval, JsonRpcRequest, JsonRpcResponse, Method, PruningOutcome, PruningRun,
};
use disktracker::size_diff::DiffEntry;
use disktracker::snapshots::{
    check_volumes, clean_label, format_relative_age, generate_random_id, label_taken,
    relative_age, snapshot_not_found, snapshot_pairs, upper_volumes, JobTable,
};
use disktracker::store::SnapshotTime;
use disktracker::top_request::{
    check_log_reaches, common_volumes, insufficient_history, interval_between, plan_top,
    ParentSnapshot, SnapshotVolume, TopParams,
};
use disktracker::tree::PathTree;

fn s(t: &str) -> String {
    t.to_string()
}

fn strings(ts: &[&str]) -> Vec<String> {
    ts.iter().map(|t| t.to_string()).collect()
}

#[test]
fn durations_in_all_units() {
    assert_eq!(parse_any_duration("30d"), Ok(30 * 86400));
    assert_eq!(parse_any_duration(" 24H "), Ok(86400));
    assert_eq!(parse_any_duration("90 min"), Ok(5400));
    assert_eq!(parse_any_duration("45s"), Ok(45));
    assert_eq!(parse_any_duration("2w"), Ok(1209600));
    assert_eq!(parse_any_duration("1m"), Ok(2592000));
    assert_eq!(parse_any_duration("1y"), Ok(31536000));
    assert_eq!(parse_any_duration("0d"), Err(s("Duration must be positive.")));
    assert!(parse_any_duration("d").unwrap_err().contains("missing numeric value"));
    assert!(parse_any_duration("3x").unwrap_err().contains("Unknown duration unit: 'x'"));
    assert!(parse_any_duration("3d4").unwrap_err().contains("digit found after unit"));
    assert_eq!(checked_any_duration("9999999999999999y"), None);
}

#[test]
fn retention_lies_between_an_hour_and_ten_years() {
    assert_eq!(parse_duration("1h"), Ok(3600));
    assert_eq!(parse_duration("3650d"), Ok(315360000));
    let out = Err(s("Retention duration must be between 1 hour and 3650 days."));
    assert_eq!(parse_duration("59min"), out);
    assert_eq!(checked_duration("3651d"), Some(out.clone()));
    assert_eq!(check_retention(0), out);
    assert_eq!(retention_from_number(7), Some(s("7d")));
    assert_eq!(retention_from_number(-1), None);
}

#[test]
fn settings_are_read_or_made() {
    let (c, save) = load_config(ConfigSource::Absent);
    assert_eq!((c.retention.as_str(), c.fuzzy, c.auto_snapshot), ("30d", true, false));
    assert!(save);
    let mut own = AppConfig::default();
    own.retention = s("7d");
    let (c, save) = load_config(ConfigSource::Settings(own));
    assert_eq!(c.retention, "7d");
    assert!(!save);
}

#[test]
fn settings_are_asked_for_and_changed() {
    let c = AppConfig::default();
    assert_eq!(config_get(&c, "retention-days").unwrap(), "30d");
    assert_eq!(config_get(&c, "fuzzy").unwrap(), "true");
    assert_eq!(config_get(&c, "color").unwrap_err().code, -32602);
    let u = config_set(&c, "fuzzy", " OFF ").unwrap().unwrap();
    assert!(!u.config.fuzzy);
    assert_eq!((u.value.as_str(), u.prune), ("false", false));
    let u = config_set(&c, "retention", "7d").unwrap().unwrap();
    assert_eq!(u.config.retention, "7d");
    assert!(u.prune);
    let u = config_set(&c, "auto-snapshot-interval", "1min").unwrap().unwrap();
    assert_eq!(u.config.auto_snapshot_interval, "1min");
    let u = config_set(&c, "auto-snapshot", "yes").unwrap().unwrap();
    assert!(u.config.auto_snapshot);
    let e = config_set(&c, "fuzzy", "maybe").unwrap().err().unwrap();
    assert_eq!(e.message, "Invalid boolean value. Acceptable values: true, false, on, off");
    let e = config_set(&c, "retention", "1s").unwrap().err().unwrap();
    assert!(e.message.starts_with("Retention duration must be"));
    assert!(config_set(&c, "auto-snapshot-interval", "99999999999999999w").is_none());
    assert_eq!(pruning_window(&c), Some(2592000));
    let odd = AppConfig { retention: s("1s"), auto_snapshot_interval: s("x"), ..AppConfig::default() };
    assert_eq!(pruning_window(&odd), Some(2592000));
    assert_eq!(snapshot_interval(&odd), Some(86400));
}

fn request(version: &str, method: &str) -> JsonRpcRequest {
    JsonRpcRequest { jsonrpc: s(version), method: s(method), params: s("{}"), id: None }
}

#[test]
fn requests_are_routed() {
    assert_eq!(handle_request(&request("2.0", "status")).unwrap(), Method::Status);
    assert_eq!(handle_request(&request("2.0", "job.completed")).unwrap(), Method::JobCompleted);
    assert_eq!(handle_request(&request("2.0", "uninstall_cleanup")).unwrap(), Method::UninstallCleanup);
    let e = handle_request(&request("1.0", "status")).unwrap_err();
    assert_eq!(e.code, -32600);
    let e = handle_request(&request("2.0", "dance")).unwrap_err();
    assert_eq!((e.code, e.message.as_str()), (-32601, "Method not found: dance"));
    let r = parse_error();
    assert_eq!(r.error.unwrap().code, -32700);
}

#[test]
fn answers_hold_a_result_or_an_error() {
    let r = JsonRpcResponse::of(Some(s("1")), Ok(s("{}")));
    assert!(r.result.is_some() && r.error.is_none());
    let r = JsonRpcResponse::of(None, Err(path_required()));
    assert!(r.result.is_none() && r.error.is_some());
    assert_eq!(r.jsonrpc, "2.0");
}

#[test]
fn code_words_become_codes() {
    let map = |e: &str| map_rpc_result(None, Err(s(e)), "30d").error.unwrap();
    let e = map("E_INVALID_PARAMS: E_INVALID_PARAMS: bad");
    assert_eq!((e.code, e.message.as_str()), (-32602, "bad"));
    assert_eq!(map("E_NOT_FOUND: x").code, -32002);
    let e = map("E_SNAPSHOT_DATA_EXPIRED: old");
    assert_eq!(e.code, -32003);
    assert_eq!(e.data.unwrap().retention.as_deref(), Some("30d"));
    let e = map("boom");
    assert_eq!((e.code, e.message.as_str()), (-32603, "boom"));
    assert!(map_rpc_result(None, Ok(s("1")), "").error.is_none());
    let e = history_error("C:/x", s("path component missing"));
    assert_eq!(e.code, -32002);
    assert_eq!(e.message, "Couldn't find \"C:/x\". Check the path and try again.");
    assert_eq!(history_error("x", s("disk")).code, -32603);
    assert_eq!(index_stale(4).data.unwrap().progress, Some(4));
    assert_eq!(requested_limit(None), 100);
    assert_eq!(requested_limit(Some(7)), 7);
    assert_eq!(requested_page(None), 20);
    assert_eq!(requested_page(Some(7)), 7);
    assert!(pending_query().ends_with("AND sequence > ?2 ORDER BY sequence ASC LIMIT 500"));
}

#[test]
fn volumes_are_registered_once() {
    let mut r = ProgressRegistry::new();
    let c = get_volume_tracker(&mut r, "C:");
    let d = get_volume_tracker(&mut r, "D:");
    assert_eq!(get_volume_tracker(&mut r, "C:"), c);
    assert_eq!(get_registered_volumes(&r), strings(&["C:", "D:"]));
    r.trackers[d].state = DaemonState::Live;
    assert_eq!(incomplete_volumes(&r), strings(&["C:"]));
    assert_eq!(aggregate_state(&vec![]), DaemonState::Live);
    assert_eq!(
        aggregate_state(&vec![DaemonState::Live, DaemonState::Starting]),
        DaemonState::BaselineScanning
    );
    let p = get_volume_progress(&r.trackers[c]);
    assert_eq!(p.drain.mutations_total, None);
    assert_eq!(p.state, DaemonState::Starting);
}

#[test]
fn prunings_are_recorded() {
    assert!(can_prune(DaemonState::Live, false));
    assert!(!can_prune(DaemonState::Live, true));
    assert!(!can_prune(DaemonState::Reconciling, false));
    let record = |o: PruningOutcome| pruning_record(s("C:"), s("now"), &o, "T");
    assert_eq!(record(PruningOutcome::Deleted(3)).details, "Deleted 3 rows older than T");
    assert_eq!(record(PruningOutcome::Skipped).status, "SKIPPED");
    assert_eq!(record(PruningOutcome::Refused(s("x"))).details, "Database error during pruning: x");
    assert_eq!(record(PruningOutcome::Unreachable(s("x"))).status, "FAILED");
    let run = |status: &str, at: &str| PruningRun {
        volume: s("C:"),
        run_at: s(at),
        status: s(status),
        details: s(""),
    };
    let runs = vec![
        run("FAILED", "2026-01-03T00:00:00Z"),
        run("SUCCESS", "yesterday"),
        run("SUCCESS", "2026-01-01T00:00:00Z"),
    ];
    assert_eq!(get_last_successful_pruning_time(&runs), Some(2));
    assert!(is_due(None, 5) && is_due(Some(5), 5) && !is_due(Some(4), 5));
    let at = Some("1970-01-01T00:01:00Z");
    assert!(is_due_since(at, 65, 0, 5) && !is_due_since(at, 64, 999_999_999, 5));
    assert!(is_due_since(None, 0, 0, 5) && is_due_since(Some("never"), 0, 0, 5));
    let run = |status: &str| PruningRun {
        volume: s("C:"),
        run_at: s("1970-01-01T00:00:00Z"),
        status: s(status),
        details: String::new(),
    };
    assert!(is_pruning_due(&vec![run("SUCCESS")], 86400, 0));
    assert!(!is_pruning_due(&vec![run("FAILED"), run("SUCCESS")], 86399, 0));
    assert!(is_pruning_due(&vec![run("FAILED")], 5, 0));
}

#[test]
fn moments_are_dates_or_times_ago() {
    let now = 1_000_000_000;
    assert_eq!(parse_time_param("1970-01-02T00:00:00Z", now), Some(Ok(86400)));
    assert_eq!(parse_time_param("24h", now), Some(Ok(now - 86400)));
    assert_eq!(parse_time_param(" 2D ", now), Some(Ok(now - 172800)));
    assert_eq!(parse_time_param("1m", now), Some(Ok(now - 2592000)));
    assert_eq!(parse_time_param("1year", now), Some(Ok(now - 31536000)));
    assert_eq!(parse_time_param("X", now), Some(Err(s("Invalid datetime/duration format: 'X'"))));
    assert_eq!(parse_modified_time("X", now), Some(Err(s("Invalid datetime/duration format: 'x'"))));
    assert_eq!(parse_time_param("5q", now), Some(Err(s("Unknown unit 'q' in '5q'"))));
    assert_eq!(
        parse_time_param("99999999999999999999h", now),
        Some(Err(s("Invalid number in '99999999999999999999h'")))
    );
    assert_eq!(parse_time_param("999999y", now), None);
    assert!(EARLIEST_SECONDS < 0 && LATEST_SECONDS > 0);
    assert_eq!(
        chrono::DateTime::<chrono::Utc>::MIN_UTC.timestamp(),
        EARLIEST_SECONDS
    );
    assert_eq!(chrono::DateTime::<chrono::Utc>::MAX_UTC.timestamp(), LATEST_SECONDS);
}

#[test]
fn paths_name_their_volumes() {
    assert_eq!(parse_path("c:\\Users\\me"), Ok((s("C:"), s("Users/me"))));
    assert_eq!(parse_path("/tmp/disktracker_mock_d/x/y"), Ok((s("D:"), s("x/y"))));
    assert_eq!(
        parse_path("relative/path"),
        Err(s("Could not extract volume from path: relative/path"))
    );
    assert_eq!(path_parts("/a//b/"), strings(&["a", "b"]));
}

#[test]
fn a_walk_follows_the_names() {
    let mut w = PathWalk::start(strings(&["a", "b"]), 1);
    assert_eq!(w.step(Some(5)), None);
    assert_eq!(w.step(Some(9)), Some(Some(9)));
    let mut w = PathWalk::start(strings(&["a", "b"]), 1);
    assert_eq!(w.step(None), Some(None));
    let mut c = ParentChain::start(strings(&["b", "a"]), 7);
    assert_eq!(c.step(Some((3, s("zzz")))), Some(false));
}

fn row(sequence: i64, file_id: u64, name: &str, kind: &str, size_delta: i64) -> HistoryEntry {
    HistoryEntry {
        sequence,
        volume: s("C:"),
        file_id,
        parent_file_id: 1,
        name: s(name),
        kind: s(kind),
        is_directory: false,
        size_delta,
        at: s("2026-01-01T00:00:00Z"),
        source: s("watcher"),
    }
}

#[test]
fn histories_are_aggregated_and_paged() {
    let rows = vec![
        row(1, 1, "a", "Created", 5),
        row(2, 1, "a", "Created", 7),
        row(3, 1, "a", "Modified", 0),
        row(4, 1, "a", "Modified", 9),
    ];
    let r = aggregate(&rows, true);
    assert_eq!(r.iter().map(|e| e.size_delta).sum::<i64>(), 21);
    let page = history_page(rows, false, 2, false, false);
    assert_eq!(page.entries.len(), 2);
    let details = rename_details(&vec![
        row(1, 1, "a", "Created", 0),
        row(2, 1, "b", "renamed", 0),
        row(3, 2, "c", "Renamed", 0),
        row(4, 1, "d", "Modified", 3),
    ]);
    assert_eq!(details, strings(&["", "Renamed from a", "Renamed", ""]));
}

#[test]
fn the_cursors_of_a_history_lead_on_and_back() {
    let filter = |cursor| HistoryFilter {
        volume: s("C:"),
        file_id: 7,
        is_dir: true,
        since: None,
        until: None,
        kind: None,
        cursor: parse_history_cursor(cursor),
    };
    let rows = || (11..17).map(|i| row(i, i as u64, "a", "Created", 5)).collect::<Vec<_>>();
    let counts = HistoryCounts { total: 9, of_file: 6, of_children: -1 };
    let r = get_history("C:/x", &filter(None), rows(), false, 2, false, true, &counts);
    assert!(r.truncated);
    assert_eq!(r.results.iter().map(|e| e.sequence).collect::<Vec<_>>(), vec![11, 12]);
    assert_eq!((r.prev_cursor, r.next_cursor, r.cursor), (None, Some(s("f:12")), Some(s("f:12"))));
    assert_eq!(
        r.debug_info.unwrap(),
        "Path: 'C:/x', Resolved: (C:, file_id: 7), is_dir: true, Total mutations in DB: 9, Matches for file_id: 6, Matches for parent_file_id: -1"
    );
    let on = parse_history_cursor(Some("f:12"));
    assert_eq!((on.backward, on.sequence), (false, Some(12)));
    let back: Vec<_> = rows().into_iter().rev().collect();
    let r = get_history("C:/x", &filter(Some("b:17")), back, false, 3, true, false, &counts);
    assert_eq!(r.results.iter().map(|e| e.sequence).collect::<Vec<_>>(), vec![11, 12, 13]);
    assert_eq!((r.prev_cursor, r.next_cursor), (Some(s("b:11")), Some(s("f:13"))));
    let off = parse_history_cursor(Some("b:-3"));
    assert_eq!((off.backward, off.sequence), (true, Some(-3)));
}

#[test]
fn a_history_is_asked_for_in_sql() {
    let f = HistoryFilter {
        volume: s("C:"),
        file_id: 7,
        is_dir: true,
        since: Some(0),
        until: None,
        kind: Some(s("created")),
        cursor: HistoryCursor { backward: true, sequence: Some(9) },
    };
    let q = history_query(&f, 10);
    assert!(q.sql.ends_with(
        "WHERE volume = ?1 AND (file_id = ?2 OR parent_file_id = ?2) AND at >= ?3 AND kind = ?4 COLLATE NOCASE AND sequence < ?5 ORDER BY sequence DESC LIMIT ?6"
    ));
    assert_eq!(q.params.len(), 6);
    assert!(matches!(&q.params[2], SqlParam::Text(t) if t == "1970-01-01T00:00:00+00:00"));
    let c = parse_history_cursor(Some("b:12"));
    assert!(c.backward && c.sequence == Some(12));
    assert_eq!(parse_history_cursor(Some("12")).sequence, Some(12));
    assert_eq!(parse_history_cursor(Some("f:x")).sequence, None);
    assert!(is_truncated(Some(0), &Some(s("2026-01-01T00:00:00Z")), 10));
}

#[test]
fn ages_in_words() {
    assert_eq!(relative_age(Some(59)), "just now");
    assert_eq!(relative_age(Some(120)), "2 minutes ago");
    assert_eq!(relative_age(Some(7200)), "2 hours ago");
    assert_eq!(relative_age(Some(172800)), "2 days ago");
    assert_eq!(relative_age(None), "some time ago");
    assert_eq!(format_relative_age("1970-01-01T00:00:00Z", 3600, 0), "1 hours ago");
    assert_eq!(time_ago(Some(-5), "x"), "just now");
    assert_eq!(time_ago(Some(61), "x"), "1m ago");
    assert_eq!(time_ago(Some(7200), "x"), "2h ago");
    assert_eq!(time_ago(Some(86400 * 3), "x"), "3d ago");
    assert_eq!(format_relative_time("1970-01-01T00:00:00Z", 7200, 0), "2h ago");
    assert_eq!(format_relative_time("then", 7200, 0), "then");
}

#[test]
fn snapshots_have_labels_and_volumes() {
    assert_eq!(generate_random_id("snap", 255), "snap_ff");
    assert_eq!(upper_volumes(&strings(&["c:", "d:"])), strings(&["C:", "D:"]));
    assert!(check_volumes(&strings(&["C:"]), &strings(&["C:"])).is_ok());
    assert!(check_volumes(&strings(&["C:", "E:"]), &strings(&["C:"])).is_err());
    assert_eq!(clean_label("  a b "), Ok(s("a b")));
    assert!(clean_label("   ").is_err());
    assert!(label_taken("x", "just now", "id").contains("x"));
    assert!(snapshot_not_found("x").starts_with("E_NOT_FOUND: "));
    let mut jobs = JobTable::new();
    jobs.start(s("j1"));
    assert!(!jobs.handle_job_completed("j1").unwrap().completed);
    jobs.finish("j1", Ok(s("{}")));
    assert!(jobs.handle_job_completed("j1").unwrap().completed);
    assert!(jobs.handle_job_completed("j2").is_err());
}

fn parent(id: &str, volumes: &[(&str, i64)]) -> ParentSnapshot {
    ParentSnapshot {
        label: s(id),
        volumes: volumes
            .iter()
            .map(|(v, n)| SnapshotVolume { volume: s(v), sequence_number: *n })
            .collect(),
    }
}

#[test]
fn snapshots_are_compared_by_volume() {
    let a = parent("a", &[("C:", 5), ("D:", 2)]);
    let b = parent("b", &[("C:", 9), ("E:", 1)]);
    assert_eq!(common_volumes(&a, &b), strings(&["C:"]));
    assert_eq!(interval_between(&a, &b, "C:"), Ok((5, 9)));
    assert!(interval_between(&a, &b, "D:").is_err());
    assert_eq!(snapshot_pairs(None, &a, &b).unwrap().len(), 1);
    assert!(check_log_reaches(6, 6, "30d").is_ok());
    assert!(check_log_reaches(5, 9, "30d").is_err());
    assert!(insufficient_history(10, 20));
}

#[test]
fn moments_are_written_in_utc() {
    let now = 1_784_000_000;
    assert_eq!(fmt_ts(86_461, now), "1970-01-02 00:01:01");
    assert_eq!(fmt_date(86_461, now), "Jan 2");
    assert_eq!(fmt_ts(i64::MAX, 0), "1970-01-01 00:00:00");
    assert_eq!(fmt_date(i64::MIN, 0), "Jan 1");
}

#[test]
fn rankings_are_planned() {
    let p = TopParams {
        volume: Some(s("c:")),
        folders: false,
        files: false,
        since: None,
        between_a: None,
        between_b: None,
        growth: false,
        churn: false,
    };
    let plan = plan_top(&p, None, strings(&["C:", "D:"])).unwrap();
    assert_eq!(plan.volumes, strings(&["C:"]));
    let both = TopParams { folders: true, files: true, volume: None, ..p };
    assert!(plan_top(&both, None, strings(&["C:"])).is_err());
}

fn pending(kind: &str, size_delta: i64) -> PendingMutation {
    PendingMutation {
        sequence: 4,
        file_id: 1,
        parent_file_id: 2,
        name: s("f"),
        kind: s(kind),
        is_directory: false,
        size_delta,
        at: s("now"),
    }
}

#[test]
fn mutations_are_replayed() {
    let r = replay(&pending("Created", 0), 10, Some((25, 3)));
    assert!(matches!(r.change, FactChange::Upsert { size: 25, attributes: 3, .. }));
    assert_eq!((r.delta, r.index), (Some(15), IndexSync::Update));
    let r = replay(&pending("Deleted", 0), 10, None);
    assert!(matches!(r.change, FactChange::Remove { file_id: 1 }));
    assert_eq!(r.delta, Some(-10));
    let r = replay(&pending("Renamed", 0), 10, None);
    assert!(matches!(r.change, FactChange::Rename { .. }));
    assert_eq!(batch_end(&vec![pending("Created", 0)], 1), 4);
    assert!(!can_replay(DaemonState::BaselineScanning));
    assert_eq!(after_batch(DaemonState::Reconciling, 0), DaemonState::Live);
}

#[test]
fn numbers_as_texts() {
    assert_eq!(decimal(0), "0");
    assert_eq!(decimal(u64::MAX), u64::MAX.to_string());
    assert_eq!(signed_decimal(i64::MIN), i64::MIN.to_string());
    assert_eq!(hexadecimal(0xabc), "abc");
    assert_eq!(parse_u64("+12"), Some(12));
    assert_eq!(parse_u64("-1"), None);
    assert_eq!(parse_i64("-9223372036854775808"), Some(i64::MIN));
    assert_eq!(parse_i64("9223372036854775808"), None);
    assert_eq!(fmt_number(1234567), "1,234,567");
    assert_eq!(fmt_number(999), "999");
    assert_eq!(fmt_number(1000), "1,000");
    assert_eq!(fmt_id_list(&vec![1, 2]), "1, 2");
    assert_eq!(
        fmt_id_list(&(1..=11).collect()),
        "1, 2, 3, 4, 5, 6, 7, 8 \u{2026} (+3)"
    );
    assert_eq!(decimal_unit(999), ByteUnit::Bytes);
    assert_eq!(decimal_unit(1_000_000), ByteUnit::Mega);
    assert_eq!(binary_unit(1023), ByteUnit::Bytes);
    assert_eq!(binary_unit(1 << 40), ByteUnit::Tera);
}

fn diff(path: &str, a: Option<i64>, b: Option<i64>) -> DiffEntry {
    DiffEntry {
        path: s(path),
        bytes_a: a,
        bytes_b: b,
        delta_bytes: b.unwrap_or(0) - a.unwrap_or(0),
    }
}

#[test]
fn reports_show_growth() {
    let es = vec![
        diff("/a/b/c", None, Some(5)),
        diff("/a", Some(9), Some(1)),
        diff("/x/y", Some(1), Some(9)),
        diff("/z", Some(4), None),
    ];
    assert_eq!(diff_status(&es[0]), "new");
    assert_eq!(diff_status(&es[1]), "shrank");
    assert_eq!(diff_status(&es[2]), "grew");
    assert_eq!(diff_status(&es[3]), "deleted");
    assert_eq!(grown_entries(&es, None), vec![0, 2]);
    assert_eq!(grown_entries(&es, Some(2)), vec![2]);
    assert_eq!(shrunk_entries(&es), vec![1, 3]);
    assert_eq!(timeframe(0, 86399), "less than a day");
    assert_eq!(timeframe(0, 86400), "1 day");
    assert_eq!(timeframe(86400 * 3, 0), "-3 days");
    let t = |n: i64| TimelineEntry { snapshot_id: 1, timestamp: 0, total_bytes: n };
    assert_eq!(timeline_changes(&vec![t(5), t(9), t(2)]), vec![None, Some(4), Some(-7)]);
}

#[test]
fn texts_of_tables() {
    assert_eq!(root_short("/short").as_deref(), Some("/short"));
    let long = "/a/very/long/path/that/does/not/fit/in/here";
    assert_eq!(root_short(long).unwrap(), format!("\u{2026}{}", &long[long.len() - 27..]));
    let split = format!("xx\u{e9}{}", "a".repeat(26));
    assert_eq!(root_short(&split), None);
    assert_eq!(attribute_flags(&strings(&["hidden", "readonly"])), "RH");
    assert_eq!(attribute_flags(&Vec::new()), "-");
    assert_eq!(display_path("p", "Renamed", &Some(s("o"))), "p (Renamed from o)");
    assert_eq!(display_path("p", "Created", &Some(s("o"))), "p");
    assert_eq!(column_width(6, &strings(&["ab", "\u{e9}\u{e9}\u{e9}\u{e9}"])), 8);
    assert_eq!(resolve_volume_from_path(" d:/x ").as_deref(), Some("D:"));
    assert_eq!(resolve_volume_from_path("e").as_deref(), Some("E:"));
    assert_eq!(resolve_volume_from_path("/x"), None);
    assert_eq!(resolve_volume_from_path_or_cwd("/x", &Some(s("/y"))), "C:");
    assert_eq!(resolve_volume_from_path_or_cwd("/x", &Some(s("f:/y"))), "F:");
    assert_eq!(volumes_to_snapshot(false, &Some(s("d")), strings(&["C:"]), &None), strings(&["D:"]));
    assert_eq!(volumes_to_snapshot(true, &Some(s("d")), strings(&["E:"]), &None), strings(&["E:"]));
    assert_eq!(volumes_to_snapshot(false, &None, Vec::new(), &None), strings(&["C:"]));
}

#[test]
fn paths_are_shown_as_a_tree() {
    let mut t = PathTree::new();
    t.insert(&strings(&["C:", "b", "x"]), 0);
    t.insert(&strings(&["C:", "a"]), 1);
    t.insert(&strings(&["C:", "b"]), 2);
    t.insert(&strings(&["C:", "b"]), 3);
    assert_eq!(t.names, strings(&["C:", "b", "x", "a"]));
    assert_eq!(t.marks, vec![None, Some(3), Some(0), Some(1)]);
    let flat = vec![0; 4];
    let order: Vec<usize> = t.lines(&flat).iter().map(|l| l.node).collect();
    assert_eq!(order, vec![0, 3, 1, 2]);
    let ranks = t.best_ranks(&vec![0, 1, 9, 4]);
    assert_eq!(ranks, vec![9, 9, 9, 4]);
    let lines = t.lines(&ranks);
    let order: Vec<usize> = lines.iter().map(|l| l.node).collect();
    assert_eq!(order, vec![0, 1, 2, 3]);
    assert!(lines[0].is_root && !lines[0].is_last);
    assert_eq!(lines[2].prefix, "\u{2502}   ");
    assert!(lines[2].is_last && lines[3].is_last && !lines[1].is_last);
}

#[test]
fn scans_are_planned() {
    assert_eq!(plan_scan(true, false, Some(3), "/"), Ok(None));
    assert_eq!(plan_scan(false, true, Some(3), "/"), Ok(Some(3)));
    assert_eq!(plan_scan(false, false, None, "/"), Ok(None));
    assert_eq!(
        plan_scan(false, true, None, "/"),
        Err(s("Force-warm scan requested but no previous snapshot found for root '/'"))
    );
    assert_eq!(after_scan(true, true), ScanEnd::ShowBench);
    assert_eq!(after_scan(false, true), ScanEnd::Discard);
    assert_eq!(after_scan(false, false), ScanEnd::Store);
    assert!(reports_reuse(true, false, false, 1) && !reports_reuse(true, false, false, 0));
    let list = vec![SnapshotTime { id: 2, started_at: 5 }, SnapshotTime { id: 9, started_at: 6 }];
    assert_eq!(get_latest_snapshot_id(&list), Some(9));
    assert_eq!(later_snapshot(None, 0, &list), Ok(9));
    assert_eq!(earlier_snapshot(None, 0, &list), Ok(2));
    assert_eq!(earlier_snapshot(Some("9"), 0, &list), Ok(9));
    assert_eq!(
        later_snapshot(None, 0, &Vec::new()),
        Err(s("No snapshots found. Run `disktracker scan` first."))
    );
    assert_eq!(
        earlier_snapshot(None, 0, &list[..1].to_vec()),
        Err(s("Need at least 2 snapshots. Got 1."))
    );
    assert_eq!(reconcile_roots(Vec::new(), Some(s("/r")), s("/")), strings(&["/r"]));
    assert_eq!(reconcile_roots(Vec::new(), None, s("/")), strings(&["/"]));
    assert_eq!(reconcile_roots(strings(&["/w"]), Some(s("/r")), s("/")), strings(&["/w"]));
    let drifts =
        vec![RootDrift { found: 10, before: Some(4) }, RootDrift { found: 3, before: None }];
    assert_eq!(sum_drift(&drifts), 9);
    assert_eq!(lazy_start(Some(5), Some(6)).unwrap().snapshot_id, 6);
    assert!(lazy_start(Some(5), None).is_none());
    assert!(check_prune_rules(None, false).is_err());
    assert!(check_prune_rules(Some(1), false).is_ok());
}

#[test]
fn an_uninstallation_runs_its_course() {
    let mut u = Uninstall::start(false);
    assert!(uninstall_prompt(false).contains("will be preserved"));
    assert_eq!(u.next(uninstall_answer("n"), true), Uninstall::Aborted);
    assert_eq!(u.next(uninstall_reply(" YES\n"), true), Uninstall::Querying);
    assert_eq!((poll_pause_ms(4), poll_pause_ms(5)), (Some(100), None));
    u = u.next(uninstall_answer("yes"), true);
    u = u.next(UninstallEvent::NotRunning, true);
    u = u.next(UninstallEvent::Spawned(Some(7)), true);
    u = u.next(UninstallEvent::Running(8), true);
    assert_eq!(u, Uninstall::CleaningTemporary { pid: 8 });
    u = u.next(UninstallEvent::Done, true);
    assert_eq!(u.pause_ms(UninstallEvent::Done, true), 500);
    u = u.next(UninstallEvent::Done, true);
    u = u.next(UninstallEvent::Directory(true), true);
    for left in (0..5).rev() {
        assert_eq!(u.pause_ms(UninstallEvent::DeleteFailed, false), 200);
        u = u.next(UninstallEvent::DeleteFailed, true);
        assert_eq!(u, Uninstall::Deleting { retries: left });
    }
    assert_eq!(u.next(UninstallEvent::DeleteFailed, true), Uninstall::Failed);
    u = u.next(UninstallEvent::Done, true);
    assert_eq!(u.next(UninstallEvent::Done, true), Uninstall::Finished);
    assert_eq!(
        Uninstall::Checking.next(UninstallEvent::Directory(true), false),
        Uninstall::Sweeping
    );
    assert_eq!(
        Uninstall::Polling { pid: 3 }.next(UninstallEvent::TimedOut, false),
        Uninstall::RemovingConfig { pid: Some(3) }
    );
}

#[test]
fn a_diagnosis_tells_what_is_wrong() {
    let (lines, ok) = doctor_report(&vec![
        Check::Elevation(true),
        Check::Folder(FolderState::Writable),
        Check::Pipe(None),
        Check::Integrity(IntegrityReply::Status(s("ok"))),
        Check::Journal,
        Check::Pruning(PruningReply::Runs(vec![LoggedRun {
            volume: Some(s("C:")),
            status: Some(s("SUCCESS")),
            run_at: None,
            details: Some(s("d")),
        }])),
    ]);
    assert!(ok);
    assert_eq!(lines[8], "      - Volume C:: [SUCCESS] at ? (d)");
    assert_eq!(lines.last().unwrap(), "\nDiagnostics complete. System status: OK");
    let (lines, ok) = doctor_report(&vec![
        Check::Pipe(Some(s("refused"))),
        Check::Integrity(IntegrityReply::Status(s("broken"))),
        Check::Pruning(PruningReply::Unreachable(s("x"))),
    ]);
    assert!(!ok);
    assert!(lines[1].ends_with("(Error: refused)"));
    assert_eq!(lines[2], "  [FAIL] SQLite database integrity check returned: broken");
    assert!(lines.last().unwrap().contains("FAILED"));
}

#[test]
fn changes_are_shown_in_color() {
    assert_eq!(change_line("Created", "a", None, "+1 B", false), "\x1b[32m+ a (+1 B)\x1b[0m");
    assert_eq!(change_line("Deleted", "a", None, "-1 B", true), "\x1b[31m- a (-1 B)\x1b[0m");
    let renamed = change_line("Renamed", "b", Some("a"), "0 B", false);
    assert_eq!(renamed, "\x1b[33m~ b (Renamed from a, 0 B)\x1b[0m");
    assert!(change_line("Renamed", "b", None, "0 B", false).contains("from unknown"));
    assert_eq!(change_line("Modified", "m", None, "+2 B", false), "\x1b[36m~ m (+2 B)\x1b[0m");
    assert_eq!(change_line("", "src", None, "0 B", true), "src/");
    assert_eq!(change_line("", "x", None, "0 B", false), "x");
    let list = |v: &[&str]| v.iter().map(|s| s.to_string()).collect::<Vec<String>>();
    let shown = incomplete_shown(&list(&["D:", "C:", "D:", "E:"]), &list(&["E:", "D:"]));
    assert_eq!(shown, list(&["D:", "E:"]));
}
