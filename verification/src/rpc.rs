//! Requests to the daemon and the answers to them.

use crate::calendar::{
    days_in_seconds, elapsed_seconds, hours_in_seconds, parse_rfc3339, rfc3339_seconds,
    seconds_since,
};
use crate::config::{
    checked_any_duration, checked_duration, duration_error, duration_seconds, retention_error,
    too_long, AppConfig,
};
use crate::decimal::{decimal, decimal_text};
use crate::history::bool_text;
use crate::model::{
    DaemonState, DrainProgress, ScannerProgress, VolumeProgress, VolumeProgressTracker,
    WatcherProgress,
};
use crate::text::{
    contains, holds_text, lowercase, lowercase_of, opt_str, starts_with, str_eq, strip_prefixes, trim,
    trimmed, without_prefixes,
};
use vstd::prelude::*;

verus! {

/// A request. Values that are not read here are kept as JSON.
#[derive(Debug)]
pub struct JsonRpcRequest {
    pub jsonrpc: String,
    pub method: String,
    pub params: String,
    pub id: Option<String>,
}

/// The answer to a request: a result or an error.
#[derive(Debug)]
pub struct JsonRpcResponse {
    pub jsonrpc: String,
    pub result: Option<String>,
    pub error: Option<JsonRpcError>,
    pub id: Option<String>,
}

/// Why a request failed.
#[derive(Debug)]
pub struct JsonRpcError {
    pub code: i32,
    pub message: String,
    pub data: Option<ErrorData>,
}

/// What more there is to say of an error.
#[derive(Debug)]
pub struct ErrorData {
    pub code: String,
    /// What was asked for and not found.
    pub input: Option<String>,
    /// How far the index is rebuilt.
    pub progress: Option<u64>,
    /// How long the log is kept.
    pub retention: Option<String>,
}

impl JsonRpcResponse {
    /// Exactly one of result and error is there, and the version is that of the
    /// protocol.
    pub open spec fn wf(&self) -> bool {
        (self.result is Some) != (self.error is Some) && self.jsonrpc@ == "2.0"@
    }

    pub fn success(id: Option<String>, result: String) -> (r: JsonRpcResponse)
        ensures
            r.wf(),
            r.id == id,
            r.result == Some(result),
    {
        JsonRpcResponse { jsonrpc: "2.0".to_owned(), result: Some(result), error: None, id }
    }

    pub fn error(id: Option<String>, code: i32, message: String) -> (r: JsonRpcResponse)
        ensures
            r.wf(),
            r.id == id,
            r.error == Some((JsonRpcError { code, message, data: None })),
    {
        JsonRpcResponse::error_with_data(id, code, message, None)
    }

    pub fn error_with_data(id: Option<String>, code: i32, message: String, data: Option<ErrorData>) -> (r: JsonRpcResponse)
        ensures
            r.wf(),
            r.id == id,
            r.error == Some((JsonRpcError { code, message, data })),
    {
        JsonRpcResponse {
            jsonrpc: "2.0".to_owned(),
            result: None,
            error: Some(JsonRpcError { code, message, data }),
            id,
        }
    }

    /// The answer to a request that failed or did not.
    pub fn of(id: Option<String>, outcome: Result<String, JsonRpcError>) -> (r: JsonRpcResponse)
        ensures
            r.wf(),
            r.id == id,
            match outcome {
                Ok(v) => r.result == Some(v),
                Err(e) => r.error == Some(e),
            },
    {
        match outcome {
            Ok(v) => JsonRpcResponse::success(id, v),
            Err(e) => JsonRpcResponse::error_with_data(id, e.code, e.message, e.data),
        }
    }
}

/// The methods that the daemon answers.
#[derive(Debug, Clone, Copy, PartialEq, Eq, Structural)]
pub enum Method {
    Status,
    ConfigGet,
    ConfigSet,
    GetPruningLogs,
    CheckDbIntegrity,
    GetHistory,
    SearchQuery,
    SnapshotCreate,
    JobCompleted,
    SnapshotList,
    SnapshotDiff,
    GetSearchRebuildStatus,
    UninstallCleanup,
}

/// The method of a name.
pub open spec fn method_named(name: Seq<char>) -> Option<Method> {
    if name == "status"@ {
        Some(Method::Status)
    } else if name == "config_get"@ {
        Some(Method::ConfigGet)
    } else if name == "config_set"@ {
        Some(Method::ConfigSet)
    } else if name == "get_pruning_logs"@ {
        Some(Method::GetPruningLogs)
    } else if name == "check_db_integrity"@ {
        Some(Method::CheckDbIntegrity)
    } else if name == "get_history"@ {
        Some(Method::GetHistory)
    } else if name == "search_query"@ {
        Some(Method::SearchQuery)
    } else if name == "snapshot_create"@ {
        Some(Method::SnapshotCreate)
    } else if name == "job.completed"@ {
        Some(Method::JobCompleted)
    } else if name == "snapshot_list"@ {
        Some(Method::SnapshotList)
    } else if name == "snapshot_diff"@ {
        Some(Method::SnapshotDiff)
    } else if name == "get_search_rebuild_status"@ {
        Some(Method::GetSearchRebuildStatus)
    } else if name == "uninstall_cleanup"@ {
        Some(Method::UninstallCleanup)
    } else {
        None
    }
}

/// Tells which method a request asks for. The version of the protocol must be right,
/// and the method must be known.
pub fn handle_request(req: &JsonRpcRequest) -> (r: Result<Method, JsonRpcError>)
    ensures
        match r {
            Ok(m) => req.jsonrpc@ == "2.0"@ && method_named(req.method@) == Some(m),
            Err(e) => e.data is None && if req.jsonrpc@ != "2.0"@ {
                e.code == -32600 && e.message@ == "Invalid Request: jsonrpc version must be 2.0"@
            } else {
                method_named(req.method@) is None && e.code == -32601 && e.message@ == "Method not found: "@
                    + req.method@
            },
        },
{
    if !str_eq(req.jsonrpc.as_str(), "2.0") {
        return Err(
            JsonRpcError {
                code: -32600,
                message: "Invalid Request: jsonrpc version must be 2.0".to_owned(),
                data: None,
            },
        );
    }
    let name = req.method.as_str();
    if str_eq(name, "status") {
        Ok(Method::Status)
    } else if str_eq(name, "config_get") {
        Ok(Method::ConfigGet)
    } else if str_eq(name, "config_set") {
        Ok(Method::ConfigSet)
    } else if str_eq(name, "get_pruning_logs") {
        Ok(Method::GetPruningLogs)
    } else if str_eq(name, "check_db_integrity") {
        Ok(Method::CheckDbIntegrity)
    } else if str_eq(name, "get_history") {
        Ok(Method::GetHistory)
    } else if str_eq(name, "search_query") {
        Ok(Method::SearchQuery)
    } else if str_eq(name, "snapshot_create") {
        Ok(Method::SnapshotCreate)
    } else if str_eq(name, "job.completed") {
        Ok(Method::JobCompleted)
    } else if str_eq(name, "snapshot_list") {
        Ok(Method::SnapshotList)
    } else if str_eq(name, "snapshot_diff") {
        Ok(Method::SnapshotDiff)
    } else if str_eq(name, "get_search_rebuild_status") {
        Ok(Method::GetSearchRebuildStatus)
    } else if str_eq(name, "uninstall_cleanup") {
        Ok(Method::UninstallCleanup)
    } else {
        let mut message = "Method not found: ".to_owned();
        message.append(name);
        Err(JsonRpcError { code: -32601, message, data: None })
    }
}

/// The answer to what is no request at all.
pub fn parse_error() -> (r: JsonRpcResponse)
    ensures
        r.wf(),
        r.id is None,
        r.error is Some,
        r.error->0.code == -32700,
        r.error->0.message@ == "Parse error: invalid JSON"@,
        r.error->0.data is None,
{
    JsonRpcResponse::error(None, -32700, "Parse error: invalid JSON".to_owned())
}

/// The state of the daemon: live if all volumes are.
pub fn aggregate_state(states: &Vec<DaemonState>) -> (r: DaemonState)
    ensures
        r == (if forall|i: int| 0 <= i < states@.len() ==> #[trigger] states@[i] == DaemonState::Live {
            DaemonState::Live
        } else {
            DaemonState::BaselineScanning
        }),
{
    let mut i: usize = 0;
    while i < states.len()
        invariant
            i <= states@.len(),
            forall|k: int| 0 <= k < i ==> #[trigger] states@[k] == DaemonState::Live,
        decreases states@.len() - i,
    {
        if states[i] != DaemonState::Live {
            assert(states@[i as int] != DaemonState::Live);
            return DaemonState::BaselineScanning;
        }
        i = i + 1;
    }
    DaemonState::Live
}

/// The progress of a volume, as its counters show it.
pub fn get_volume_progress(tracker: &VolumeProgressTracker) -> (p: VolumeProgress)
    ensures
        p.state == tracker.state,
        p.scanner.dirs_scanned == tracker.dirs_scanned,
        p.scanner.files_scanned == tracker.files_scanned,
        p.scanner.current_path == tracker.current_path,
        p.watcher.usn_start == tracker.usn_start,
        p.watcher.events_buffered == tracker.events_buffered,
        p.drain.replaying == tracker.replaying,
        p.drain.mutations_replayed == tracker.mutations_replayed,
        p.drain.mutations_total == (if tracker.has_mutations_total {
            Some(tracker.mutations_total)
        } else {
            None
        }),
{
    VolumeProgress {
        state: tracker.state,
        scanner: ScannerProgress {
            dirs_scanned: tracker.dirs_scanned,
            files_scanned: tracker.files_scanned,
            current_path: match &tracker.current_path {
                Some(p) => Some(p.clone()),
                None => None,
            },
        },
        watcher: WatcherProgress {
            usn_start: tracker.usn_start,
            events_buffered: tracker.events_buffered,
        },
        drain: DrainProgress {
            replaying: tracker.replaying,
            mutations_replayed: tracker.mutations_replayed,
            mutations_total: if tracker.has_mutations_total {
                Some(tracker.mutations_total)
            } else {
                None
            },
        },
    }
}

/// The settings that can be asked for and changed.
#[derive(Debug, Clone, Copy, PartialEq, Eq, Structural)]
pub enum ConfigKey {
    Retention,
    Fuzzy,
    AutoSnapshot,
    AutoSnapshotInterval,
}

/// The setting of a name.
pub open spec fn key_named(key: Seq<char>) -> Option<ConfigKey> {
    if key == "retention"@ || key == "retention-days"@ {
        Some(ConfigKey::Retention)
    } else if key == "fuzzy"@ {
        Some(ConfigKey::Fuzzy)
    } else if key == "auto-snapshot"@ {
        Some(ConfigKey::AutoSnapshot)
    } else if key == "auto-snapshot-interval"@ {
        Some(ConfigKey::AutoSnapshotInterval)
    } else {
        None
    }
}

/// The message for a setting that does not exist.
pub open spec fn bad_key() -> Seq<char> {
    "Invalid config key. Valid keys are: retention, retention-days, fuzzy, auto-snapshot, auto-snapshot-interval"@
}

/// The error is one of wrong parameters with the given message.
pub open spec fn is_bad_params(e: JsonRpcError, message: Seq<char>) -> bool {
    e.code == -32602 && e.message@ == message && e.data is None
}

fn bad_params(message: &str) -> (e: JsonRpcError)
    ensures
        is_bad_params(e, message@),
{
    JsonRpcError { code: -32602, message: message.to_owned(), data: None }
}

/// Tells which setting a name stands for.
pub fn config_key(key: &str) -> (r: Result<ConfigKey, JsonRpcError>)
    ensures
        match r {
            Ok(k) => key_named(key@) == Some(k),
            Err(e) => key_named(key@) is None && is_bad_params(e, bad_key()),
        },
{
    if str_eq(key, "retention") || str_eq(key, "retention-days") {
        Ok(ConfigKey::Retention)
    } else if str_eq(key, "fuzzy") {
        Ok(ConfigKey::Fuzzy)
    } else if str_eq(key, "auto-snapshot") {
        Ok(ConfigKey::AutoSnapshot)
    } else if str_eq(key, "auto-snapshot-interval") {
        Ok(ConfigKey::AutoSnapshotInterval)
    } else {
        Err(
            bad_params(
                "Invalid config key. Valid keys are: retention, retention-days, fuzzy, auto-snapshot, auto-snapshot-interval",
            ),
        )
    }
}

/// The value of a setting, in words.
pub open spec fn setting_text(c: AppConfig, k: ConfigKey) -> Seq<char> {
    match k {
        ConfigKey::Retention => c.retention@,
        ConfigKey::Fuzzy => bool_text(c.fuzzy),
        ConfigKey::AutoSnapshot => bool_text(c.auto_snapshot),
        ConfigKey::AutoSnapshotInterval => c.auto_snapshot_interval@,
    }
}

fn bool_string(b: bool) -> (r: String)
    ensures
        r@ == bool_text(b),
{
    if b {
        "true".to_owned()
    } else {
        "false".to_owned()
    }
}

/// Answers a request for a setting.
pub fn config_get(config: &AppConfig, key: &str) -> (r: Result<String, JsonRpcError>)
    ensures
        match r {
            Ok(v) => key_named(key@) is Some && v@ == setting_text(*config, key_named(key@)->0),
            Err(e) => key_named(key@) is None && is_bad_params(e, bad_key()),
        },
{
    match config_key(key) {
        Err(e) => Err(e),
        Ok(k) => Ok(
            match k {
                ConfigKey::Retention => config.retention.clone(),
                ConfigKey::Fuzzy => bool_string(config.fuzzy),
                ConfigKey::AutoSnapshot => bool_string(config.auto_snapshot),
                ConfigKey::AutoSnapshotInterval => config.auto_snapshot_interval.clone(),
            },
        ),
    }
}

/// The truth value of a word in lower case.
pub open spec fn truth_of(s: Seq<char>) -> Option<bool> {
    if s == "true"@ || s == "on"@ || s == "1"@ || s == "yes"@ {
        Some(true)
    } else if s == "false"@ || s == "off"@ || s == "0"@ || s == "no"@ {
        Some(false)
    } else {
        None
    }
}

/// Reads a truth value in lower case.
pub fn parse_truth(s: &str) -> (r: Option<bool>)
    ensures
        r == truth_of(s@),
{
    if str_eq(s, "true") || str_eq(s, "on") || str_eq(s, "1") || str_eq(s, "yes") {
        Some(true)
    } else if str_eq(s, "false") || str_eq(s, "off") || str_eq(s, "0") || str_eq(s, "no") {
        Some(false)
    } else {
        None
    }
}

/// A change of the settings.
pub struct ConfigUpdate {
    pub config: AppConfig,
    /// The new value, in words.
    pub value: String,
    pub message: String,
    /// Whether the log is to be pruned at once.
    pub prune: bool,
}

/// Why a value cannot be given to a setting, if it cannot. `lower` is the value without
/// white space around it and in lower case.
pub open spec fn setting_error(k: ConfigKey, lower: Seq<char>) -> Option<Seq<char>> {
    match k {
        ConfigKey::Retention => retention_error(lower),
        ConfigKey::AutoSnapshotInterval => duration_error(lower),
        _ => if truth_of(lower) is None {
            Some("Invalid boolean value. Acceptable values: true, false, on, off"@)
        } else {
            None
        },
    }
}

/// The change that gives a value to a setting, and leaves the others as they are.
pub open spec fn is_update(old: AppConfig, k: ConfigKey, value: Seq<char>, lower: Seq<char>, u: ConfigUpdate) -> bool {
    &&& u.prune == (k == ConfigKey::Retention)
    &&& match k {
        ConfigKey::Retention => {
            &&& u.config.retention@ == value
            &&& u.value@ == value
            &&& u.message@ == "Retention setting updated. Pruning cycle triggered immediately."@
        },
        ConfigKey::Fuzzy => {
            &&& u.config.fuzzy == truth_of(lower)->0
            &&& u.value@ == bool_text(truth_of(lower)->0)
            &&& u.message@ == "Fuzzy search setting updated."@
        },
        ConfigKey::AutoSnapshot => {
            &&& u.config.auto_snapshot == truth_of(lower)->0
            &&& u.value@ == bool_text(truth_of(lower)->0)
            &&& u.message@ == "Auto-snapshot setting updated."@
        },
        ConfigKey::AutoSnapshotInterval => {
            &&& u.config.auto_snapshot_interval@ == value
            &&& u.value@ == value
            &&& u.message@ == "Auto-snapshot interval updated."@
        },
    }
    &&& k != ConfigKey::Retention ==> u.config.retention == old.retention
    &&& k != ConfigKey::Fuzzy ==> u.config.fuzzy == old.fuzzy
    &&& k != ConfigKey::AutoSnapshot ==> u.config.auto_snapshot == old.auto_snapshot
    &&& k != ConfigKey::AutoSnapshotInterval ==> u.config.auto_snapshot_interval == old.auto_snapshot_interval
}

/// Answers a request to change a setting; there is no answer to a duration that is
/// longer than can be held.
pub fn config_set(config: &AppConfig, key: &str, value: &str) -> (r: Option<Result<ConfigUpdate, JsonRpcError>>)
    ensures
        match r {
            None => {
                &&& key_named(key@) == Some(ConfigKey::Retention) || key_named(key@) == Some(
                    ConfigKey::AutoSnapshotInterval,
                )
                &&& too_long(lowercase_of(trimmed(value@)))
            },
            Some(Ok(u)) => {
                &&& key_named(key@) is Some
                &&& setting_error(key_named(key@)->0, lowercase_of(trimmed(value@))) is None
                &&& is_update(*config, key_named(key@)->0, value@, lowercase_of(trimmed(value@)), u)
            },
            Some(Err(e)) => if key_named(key@) is None {
                is_bad_params(e, bad_key())
            } else {
                &&& !(key_named(key@)->0 == ConfigKey::Retention && too_long(lowercase_of(trimmed(value@))))
                &&& setting_error(key_named(key@)->0, lowercase_of(trimmed(value@))) is Some
                &&& is_bad_params(e, setting_error(key_named(key@)->0, lowercase_of(trimmed(value@)))->0)
            },
        },
{
    let k = match config_key(key) {
        Ok(k) => k,
        Err(e) => {
            return Some(Err(e));
        },
    };
    let mut next = AppConfig {
        retention: config.retention.clone(),
        fuzzy: config.fuzzy,
        auto_snapshot: config.auto_snapshot,
        auto_snapshot_interval: config.auto_snapshot_interval.clone(),
    };
    match k {
        ConfigKey::Retention => {
            match checked_duration(value) {
                None => None,
                Some(Err(e)) => Some(Err(bad_params(e.as_str()))),
                Some(Ok(_)) => {
                    next.retention = value.to_owned();
                    Some(
                        Ok(
                            ConfigUpdate {
                                config: next,
                                value: value.to_owned(),
                                message: "Retention setting updated. Pruning cycle triggered immediately.".to_owned(),
                                prune: true,
                            },
                        ),
                    )
                },
            }
        },
        ConfigKey::AutoSnapshotInterval => {
            match checked_any_duration(value) {
                None => None,
                Some(Err(e)) => Some(Err(bad_params(e.as_str()))),
                Some(Ok(_)) => {
                    next.auto_snapshot_interval = value.to_owned();
                    Some(
                        Ok(
                            ConfigUpdate {
                                config: next,
                                value: value.to_owned(),
                                message: "Auto-snapshot interval updated.".to_owned(),
                                prune: false,
                            },
                        ),
                    )
                },
            }
        },
        ConfigKey::Fuzzy => {
            let t = trim(value);
            let l = lowercase(t.as_str());
            match parse_truth(l.as_str()) {
                None => Some(
                    Err(bad_params("Invalid boolean value. Acceptable values: true, false, on, off")),
                ),
                Some(b) => {
                    next.fuzzy = b;
                    Some(
                        Ok(
                            ConfigUpdate {
                                config: next,
                                value: bool_string(b),
                                message: "Fuzzy search setting updated.".to_owned(),
                                prune: false,
                            },
                        ),
                    )
                },
            }
        },
        ConfigKey::AutoSnapshot => {
            let t = trim(value);
            let l = lowercase(t.as_str());
            match parse_truth(l.as_str()) {
                None => Some(
                    Err(bad_params("Invalid boolean value. Acceptable values: true, false, on, off")),
                ),
                Some(b) => {
                    next.auto_snapshot = b;
                    Some(
                        Ok(
                            ConfigUpdate {
                                config: next,
                                value: bool_string(b),
                                message: "Auto-snapshot setting updated.".to_owned(),
                                prune: false,
                            },
                        ),
                    )
                },
            }
        },
    }
}

/// The error carries a code word and nothing else.
pub open spec fn is_coded(e: JsonRpcError, code: int, message: Seq<char>, word: Seq<char>) -> bool {
    &&& e.code == code
    &&& e.message@ == message
    &&& e.data is Some
    &&& e.data->0.code@ == word
    &&& e.data->0.input is None
    &&& e.data->0.progress is None
    &&& e.data->0.retention is None
}

/// The error for a message that may begin with a code word. `retention` is how long the
/// log is kept.
pub open spec fn is_mapped_error(err: Seq<char>, retention: Seq<char>, e: JsonRpcError) -> bool {
    if "E_INVALID_PARAMS: "@.is_prefix_of(err) {
        is_coded(e, -32602, without_prefixes(err, "E_INVALID_PARAMS: "@), "E_INVALID_PARAMS"@)
    } else if "E_NOT_FOUND: "@.is_prefix_of(err) {
        is_coded(e, -32002, without_prefixes(err, "E_NOT_FOUND: "@), "E_NOT_FOUND"@)
    } else if "E_SNAPSHOT_DATA_EXPIRED: "@.is_prefix_of(err) {
        &&& e.code == -32003
        &&& e.message@ == without_prefixes(err, "E_SNAPSHOT_DATA_EXPIRED: "@)
        &&& e.data is Some
        &&& e.data->0.code@ == "E_SNAPSHOT_DATA_EXPIRED"@
        &&& e.data->0.input is None
        &&& e.data->0.progress is None
        &&& e.data->0.retention is Some
        &&& e.data->0.retention->0@ == retention
    } else {
        e.code == -32603 && e.message@ == err && e.data is None
    }
}

fn coded(code: i32, message: String, word: &str) -> (e: JsonRpcError)
    ensures
        is_coded(e, code as int, message@, word@),
{
    JsonRpcError {
        code,
        message,
        data: Some(
            ErrorData { code: word.to_owned(), input: None, progress: None, retention: None },
        ),
    }
}

/// The error for a message that may begin with a code word.
pub fn map_rpc_error(err: String, retention: &str) -> (e: JsonRpcError)
    ensures
        is_mapped_error(err@, retention@, e),
{
    if starts_with(err.as_str(), "E_INVALID_PARAMS: ") {
        coded(-32602, strip_prefixes(err.as_str(), "E_INVALID_PARAMS: "), "E_INVALID_PARAMS")
    } else if starts_with(err.as_str(), "E_NOT_FOUND: ") {
        coded(-32002, strip_prefixes(err.as_str(), "E_NOT_FOUND: "), "E_NOT_FOUND")
    } else if starts_with(err.as_str(), "E_SNAPSHOT_DATA_EXPIRED: ") {
        JsonRpcError {
            code: -32003,
            message: strip_prefixes(err.as_str(), "E_SNAPSHOT_DATA_EXPIRED: "),
            data: Some(
                ErrorData {
                    code: "E_SNAPSHOT_DATA_EXPIRED".to_owned(),
                    input: None,
                    progress: None,
                    retention: Some(retention.to_owned()),
                },
            ),
        }
    } else {
        JsonRpcError { code: -32603, message: err, data: None }
    }
}

/// The answer to a request whose handler gave a result or a message.
pub fn map_rpc_result(id: Option<String>, res: Result<String, String>, retention: &str) -> (r: JsonRpcResponse)
    ensures
        r.wf(),
        r.id == id,
        match res {
            Ok(v) => r.result == Some(v),
            Err(err) => r.error is Some && is_mapped_error(err@, retention@, r.error->0),
        },
{
    match res {
        Ok(v) => JsonRpcResponse::success(id, v),
        Err(err) => {
            let e = map_rpc_error(err, retention);
            JsonRpcResponse::error_with_data(id, e.code, e.message, e.data)
        },
    }
}

/// The error of a request for a history that names no path.
pub fn path_required() -> (e: JsonRpcError)
    ensures
        is_coded(e, -32602, "Path is required"@, "E_INVALID_PARAMS"@),
{
    coded(-32602, "Path is required".to_owned(), "E_INVALID_PARAMS")
}

/// The error of a request for a history that failed: a path that was not found is told
/// as such.
pub fn history_error(path: &str, err: String) -> (e: JsonRpcError)
    ensures
        if holds_text(err@, "not found"@) || holds_text(err@, "component"@) {
            &&& e.code == -32002
            &&& e.message@ == "Couldn't find \""@ + path@ + "\". Check the path and try again."@
            &&& e.data is Some
            &&& e.data->0.code@ == "E_NOT_FOUND"@
            &&& e.data->0.input is Some
            &&& e.data->0.input->0@ == path@
            &&& e.data->0.progress is None
            &&& e.data->0.retention is None
        } else {
            e.code == -32603 && e.message == err && e.data is None
        },
{
    if contains(err.as_str(), "not found") || contains(err.as_str(), "component") {
        let mut message = "Couldn't find \"".to_owned();
        message.append(path);
        message.append("\". Check the path and try again.");
        JsonRpcError {
            code: -32002,
            message,
            data: Some(
                ErrorData {
                    code: "E_NOT_FOUND".to_owned(),
                    input: Some(path.to_owned()),
                    progress: None,
                    retention: None,
                },
            ),
        }
    } else {
        JsonRpcError { code: -32603, message: err, data: None }
    }
}

/// The error of a search while the index is rebuilt.
pub fn index_stale(progress: u64) -> (e: JsonRpcError)
    ensures
        e.code == -32001,
        e.message@ == "Still finishing an index update \u{2014} try again in a moment."@,
        e.data is Some,
        e.data->0.code@ == "E_SEARCH_INDEX_STALE"@,
        e.data->0.progress == Some(progress),
        e.data->0.input is None,
        e.data->0.retention is None,
{
    JsonRpcError {
        code: -32001,
        message: "Still finishing an index update \u{2014} try again in a moment.".to_owned(),
        data: Some(
            ErrorData {
                code: "E_SEARCH_INDEX_STALE".to_owned(),
                input: None,
                progress: Some(progress),
                retention: None,
            },
        ),
    }
}

/// Whether the log of a volume can be pruned: not before it is live, nor while the log
/// is replayed.
pub open spec fn prunable(state: DaemonState, replaying: bool) -> bool {
    state == DaemonState::Live && !replaying
}

pub fn can_prune(state: DaemonState, replaying: bool) -> (r: bool)
    ensures
        r == prunable(state, replaying),
{
    state == DaemonState::Live && !replaying
}

/// The seconds that the log reaches back: as long as the configuration says, or thirty
/// days where it says nothing that can be read. There are none for a duration that is
/// longer than can be held.
pub fn pruning_window(config: &AppConfig) -> (r: Option<i64>)
    ensures
        r == (if too_long(lowercase_of(trimmed(config.retention@))) {
            None::<i64>
        } else if retention_error(lowercase_of(trimmed(config.retention@))) is Some {
            Some(2592000i64)
        } else {
            Some(duration_seconds(lowercase_of(trimmed(config.retention@))) as i64)
        }),
{
    match checked_duration(config.retention.as_str()) {
        None => None,
        Some(Ok(seconds)) => Some(seconds),
        Some(Err(_)) => Some(days_in_seconds(30)),
    }
}

/// The seconds between two snapshots that are taken without being asked for: as the
/// configuration says, or a day where it says nothing that can be read. There are none
/// for a duration that is longer than can be held.
pub fn snapshot_interval(config: &AppConfig) -> (r: Option<i64>)
    ensures
        r == (if too_long(lowercase_of(trimmed(config.auto_snapshot_interval@))) {
            None::<i64>
        } else if duration_error(lowercase_of(trimmed(config.auto_snapshot_interval@))) is Some {
            Some(86400i64)
        } else {
            Some(duration_seconds(lowercase_of(trimmed(config.auto_snapshot_interval@))) as i64)
        }),
{
    match checked_any_duration(config.auto_snapshot_interval.as_str()) {
        None => None,
        Some(Ok(seconds)) => Some(seconds),
        Some(Err(_)) => Some(hours_in_seconds(24)),
    }
}

/// What became of the pruning of one volume.
pub enum PruningOutcome {
    Skipped,
    Deleted(u64),
    Refused(String),
    Unreachable(String),
}

/// What is noted of a pruning.
pub open spec fn pruning_details(outcome: PruningOutcome, cutoff: Seq<char>) -> Seq<char> {
    match outcome {
        PruningOutcome::Skipped => "Volume is mid-replay or baseline scanning"@,
        PruningOutcome::Deleted(n) => "Deleted "@ + decimal_text(n as nat) + " rows older than "@ + cutoff,
        PruningOutcome::Refused(e) => "Database error during pruning: "@ + e@,
        PruningOutcome::Unreachable(e) => "Failed to get db connection: "@ + e@,
    }
}

/// How a pruning is said to have gone.
pub open spec fn pruning_status(outcome: PruningOutcome) -> Seq<char> {
    match outcome {
        PruningOutcome::Skipped => "SKIPPED"@,
        PruningOutcome::Deleted(_) => "SUCCESS"@,
        _ => "FAILED"@,
    }
}

/// The record of a pruning.
pub fn pruning_record(volume: String, run_at: String, outcome: &PruningOutcome, cutoff: &str) -> (r: PruningRun)
    ensures
        r.volume == volume,
        r.run_at == run_at,
        r.status@ == pruning_status(*outcome),
        r.details@ == pruning_details(*outcome, cutoff@),
{
    match outcome {
        PruningOutcome::Skipped => PruningRun {
            volume,
            run_at,
            status: "SKIPPED".to_owned(),
            details: "Volume is mid-replay or baseline scanning".to_owned(),
        },
        PruningOutcome::Deleted(n) => {
            let mut details = "Deleted ".to_owned();
            let count = decimal(*n);
            details.append(count.as_str());
            details.append(" rows older than ");
            details.append(cutoff);
            PruningRun { volume, run_at, status: "SUCCESS".to_owned(), details }
        },
        PruningOutcome::Refused(e) => {
            let mut details = "Database error during pruning: ".to_owned();
            details.append(e.as_str());
            PruningRun { volume, run_at, status: "FAILED".to_owned(), details }
        },
        PruningOutcome::Unreachable(e) => {
            let mut details = "Failed to get db connection: ".to_owned();
            details.append(e.as_str());
            PruningRun { volume, run_at, status: "FAILED".to_owned(), details }
        },
    }
}

/// How many hits or entries of a history a request is for, if it does not say.
pub const DEFAULT_LIMIT: usize = 100;

/// How many snapshots or ranked items a request is for, if it does not say.
pub const DEFAULT_PAGE: usize = 20;

/// How many hits or entries of a history a request is for.
pub fn requested_limit(limit: Option<u64>) -> (r: usize)
    ensures
        r == (match limit {
            Some(n) => n as usize,
            None => DEFAULT_LIMIT,
        }),
{
    match limit {
        Some(n) => n as usize,
        None => DEFAULT_LIMIT,
    }
}

/// How many snapshots or ranked items a request is for.
pub fn requested_page(limit: Option<u64>) -> (r: usize)
    ensures
        r == (match limit {
            Some(n) => n as usize,
            None => DEFAULT_PAGE,
        }),
{
    match limit {
        Some(n) => n as usize,
        None => DEFAULT_PAGE,
    }
}

/// Whether something that is done at intervals is to be done now, given the seconds
/// since it was done last.
pub fn is_due(elapsed: Option<i64>, interval: i64) -> (r: bool)
    ensures
        r == (elapsed is None || elapsed->0 >= interval),
{
    match elapsed {
        Some(e) => e >= interval,
        None => true,
    }
}

/// The seconds from a moment that is written down to the present one.
pub open spec fn seconds_from(last: Option<Seq<char>>, now_seconds: i64, now_nanos: u32) -> Option<i64> {
    match last {
        Some(at) => elapsed_seconds(at, now_seconds, now_nanos),
        None => None,
    }
}

/// Whether something that is done at intervals is to be done now, given when it was done
/// last as that is written down.
pub fn is_due_since(last: Option<&str>, now_seconds: i64, now_nanos: u32, interval: i64) -> (r: bool)
    ensures
        r == ({
            let elapsed = seconds_from(opt_str(last), now_seconds, now_nanos);
            elapsed is None || elapsed->0 >= interval
        }),
{
    let elapsed = match last {
        Some(at) => seconds_since(at, now_seconds, now_nanos),
        None => None,
    };
    is_due(elapsed, interval)
}

/// The seconds between two prunings of the log.
pub const PRUNING_INTERVAL: i64 = 86400;

/// When the latest pruning that went well was run, of a list with the latest run first.
pub open spec fn last_pruned(runs: Seq<PruningRun>) -> Option<Seq<char>> {
    if exists|i: int| first_success(runs, i) {
        Some(runs[choose|i: int| first_success(runs, i)].run_at@)
    } else {
        None
    }
}

/// Whether the log is to be pruned now, given the runs so far with the latest first.
pub fn is_pruning_due(runs: &Vec<PruningRun>, now_seconds: i64, now_nanos: u32) -> (r: bool)
    ensures
        r == ({
            let elapsed = seconds_from(last_pruned(runs@), now_seconds, now_nanos);
            elapsed is None || elapsed->0 >= PRUNING_INTERVAL
        }),
{
    match get_last_successful_pruning_time(runs) {
        Some(i) => {
            proof {
                assert(first_success(runs@, i as int));
                let c = choose|c: int| first_success(runs@, c);
                assert(first_success(runs@, c));
                if c < i {
                    assert(!is_dated_success(runs@[c]));
                } else if i < c {
                    assert(!is_dated_success(runs@[i as int]));
                }
            }
            is_due_since(Some(runs[i].run_at.as_str()), now_seconds, now_nanos, PRUNING_INTERVAL)
        },
        None => is_due_since(None, now_seconds, now_nanos, PRUNING_INTERVAL),
    }
}

/// A pruning of the log.
pub struct PruningRun {
    pub volume: String,
    pub run_at: String,
    pub status: String,
    pub details: String,
}

/// The run went well, and the time of it can be read.
pub open spec fn is_dated_success(run: PruningRun) -> bool {
    run.status@ == "SUCCESS"@ && rfc3339_seconds(run.run_at@) is Some
}

/// The first run of a list that went well stands at `i`.
pub open spec fn first_success(runs: Seq<PruningRun>, i: int) -> bool {
    &&& 0 <= i < runs.len()
    &&& is_dated_success(runs[i])
    &&& forall|k: int| 0 <= k < i ==> !is_dated_success(#[trigger] runs[k])
}

/// The latest pruning that went well, of a list with the latest run first.
pub fn get_last_successful_pruning_time(runs: &Vec<PruningRun>) -> (r: Option<usize>)
    ensures
        match r {
            Some(i) => first_success(runs@, i as int),
            None => forall|k: int| 0 <= k < runs@.len() ==> !is_dated_success(#[trigger] runs@[k]),
        },
{
    let mut i: usize = 0;
    while i < runs.len()
        invariant
            i <= runs@.len(),
            forall|k: int| 0 <= k < i ==> !is_dated_success(#[trigger] runs@[k]),
        decreases runs@.len() - i,
    {
        if str_eq(runs[i].status.as_str(), "SUCCESS") {
            if parse_rfc3339(runs[i].run_at.as_str()).is_some() {
                return Some(i);
            }
        }
        i = i + 1;
    }
    None
}

/// A setting that was changed reads back as the value that the change reports.
pub proof fn law_set_then_get(old: AppConfig, k: ConfigKey, value: Seq<char>, lower: Seq<char>, u: ConfigUpdate)
    requires
        is_update(old, k, value, lower, u),
    ensures
        setting_text(u.config, k) == u.value@,
{
}

/// Changing one setting leaves the others as they are.
pub proof fn law_other_settings(old: AppConfig, k: ConfigKey, other: ConfigKey, value: Seq<char>, lower: Seq<char>, u: ConfigUpdate)
    requires
        is_update(old, k, value, lower, u),
        other != k,
    ensures
        setting_text(u.config, other) == setting_text(old, other),
{
}

} // verus!
