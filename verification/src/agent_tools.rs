//! The tools that the model may call.

use crate::text::views;
use vstd::prelude::*;

verus! {

/// What a parameter of a tool takes.
#[derive(Debug, Clone, Copy, PartialEq, Eq, Structural)]
pub enum ParamKind {
    Text,
    Integer,
    Boolean,
    /// A list of texts.
    TextList,
}

/// A parameter of a tool.
#[derive(Debug)]
pub struct ToolParam {
    pub name: String,
    pub kind: ParamKind,
    /// The texts that it takes, if not all.
    pub options: Vec<String>,
    pub description: String,
}

/// A tool that the model may call.
#[derive(Debug)]
pub struct ToolInfo {
    pub name: String,
    pub description: String,
    pub params: Vec<ToolParam>,
    /// The parameters that every call has.
    pub required: Vec<String>,
}

/// What a parameter is.
pub struct ToolParamView {
    pub name: Seq<char>,
    pub kind: ParamKind,
    pub options: Seq<Seq<char>>,
    pub description: Seq<char>,
}

/// What a tool is.
pub struct ToolView {
    pub name: Seq<char>,
    pub description: Seq<char>,
    pub params: Seq<ToolParamView>,
    pub required: Seq<Seq<char>>,
}

/// What a parameter is.
pub open spec fn param_view(p: ToolParam) -> ToolParamView {
    ToolParamView { name: p.name@, kind: p.kind, options: views(p.options@), description: p.description@ }
}

/// What parameters are.
pub open spec fn param_views(ps: Seq<ToolParam>) -> Seq<ToolParamView> {
    ps.map_values(|p: ToolParam| param_view(p))
}

/// What a tool is.
pub open spec fn tool_view(t: ToolInfo) -> ToolView {
    ToolView {
        name: t.name@,
        description: t.description@,
        params: param_views(t.params@),
        required: views(t.required@),
    }
}

/// A parameter that takes any value of a kind.
pub open spec fn takes(name: Seq<char>, kind: ParamKind, description: Seq<char>) -> ToolParamView {
    ToolParamView { name, kind, options: Seq::empty(), description }
}

/// A parameter that takes one of some texts.
pub open spec fn takes_one(name: Seq<char>, options: Seq<Seq<char>>, description: Seq<char>) -> ToolParamView {
    ToolParamView { name, kind: ParamKind::Text, options, description }
}

fn param(name: &str, kind: ParamKind, description: &str) -> (p: ToolParam)
    ensures
        param_view(p) == takes(name@, kind, description@),
{
    let options: Vec<String> = Vec::new();
    assert(views(options@) =~= Seq::<Seq<char>>::empty());
    ToolParam { name: name.to_owned(), kind, options, description: description.to_owned() }
}

fn choice(name: &str, options: Vec<String>, description: &str) -> (p: ToolParam)
    ensures
        param_view(p) == takes_one(name@, views(options@), description@),
{
    ToolParam {
        name: name.to_owned(),
        kind: ParamKind::Text,
        options,
        description: description.to_owned(),
    }
}

fn texts(a: &str, b: &str) -> (r: Vec<String>)
    ensures
        views(r@) == seq![a@, b@],
{
    let mut r: Vec<String> = Vec::new();
    r.push(a.to_owned());
    r.push(b.to_owned());
    assert(views(r@) =~= seq![a@, b@]);
    r
}

fn text(a: &str) -> (r: Vec<String>)
    ensures
        views(r@) == seq![a@],
{
    let mut r: Vec<String> = Vec::new();
    r.push(a.to_owned());
    assert(views(r@) =~= seq![a@]);
    r
}

fn no_texts() -> (r: Vec<String>)
    ensures
        views(r@) == Seq::<Seq<char>>::empty(),
{
    let r: Vec<String> = Vec::new();
    assert(views(r@) =~= Seq::<Seq<char>>::empty());
    r
}

fn append_param(params: &mut Vec<ToolParam>, p: ToolParam)
    ensures
        param_views(final(params)@) == param_views(old(params)@).push(param_view(p)),
{
    let ghost before = param_views(params@);
    params.push(p);
    assert(param_views(params@) =~= before.push(param_view(p)));
}

fn no_tool_params() -> (r: Vec<ToolParam>)
    ensures
        param_views(r@) == Seq::<ToolParamView>::empty(),
{
    let r: Vec<ToolParam> = Vec::new();
    assert(param_views(r@) =~= Seq::<ToolParamView>::empty());
    r
}

fn tool(name: &str, description: &str, params: Vec<ToolParam>, required: Vec<String>) -> (t: ToolInfo)
    ensures
        tool_view(t) == (ToolView {
            name: name@,
            description: description@,
            params: param_views(params@),
            required: views(required@),
        }),
{
    ToolInfo { name: name.to_owned(), description: description.to_owned(), params, required }
}

fn mutation_kinds() -> (r: Vec<String>)
    ensures
        views(r@) == seq!["Created"@, "Modified"@, "Deleted"@, "Renamed"@],
{
    let mut r: Vec<String> = Vec::new();
    r.push("Created".to_owned());
    r.push("Modified".to_owned());
    r.push("Deleted".to_owned());
    r.push("Renamed".to_owned());
    assert(views(r@) =~= seq!["Created"@, "Modified"@, "Deleted"@, "Renamed"@]);
    r
}

/// The tool `sqlite_read_query`.
pub open spec fn sqlite_read_query_tool_view() -> ToolView {
    ToolView {
        name: "sqlite_read_query"@,
        description: "Executes a SELECT query on the read-only database to search files, uninstalls, installer footprints, and runtime artifacts."@,
        params: seq![
            takes("query"@, ParamKind::Text, "The exact SQL SELECT query to run."@),
        ],
        required: seq!["query"@],
    }
}

fn sqlite_read_query_tool() -> (t: ToolInfo)
    ensures
        tool_view(t) == sqlite_read_query_tool_view(),
{
    let mut params = no_tool_params();
    append_param(&mut params, param("query", ParamKind::Text, "The exact SQL SELECT query to run."));
    assert(param_views(params@) =~= sqlite_read_query_tool_view().params);
    tool(
        "sqlite_read_query",
        "Executes a SELECT query on the read-only database to search files, uninstalls, installer footprints, and runtime artifacts.",
        params,
        text("query"),
    )
}

/// The tool `fetch_signature`.
pub open spec fn fetch_signature_tool_view() -> ToolView {
    ToolView {
        name: "fetch_signature"@,
        description: "Resolves heuristics and signatures for directories or executable names (e.g. GLCache, Steam, system32)."@,
        params: seq![
            takes("target"@, ParamKind::Text, "The directory name, executable name, or full file path."@),
        ],
        required: seq!["target"@],
    }
}

fn fetch_signature_tool() -> (t: ToolInfo)
    ensures
        tool_view(t) == fetch_signature_tool_view(),
{
    let mut params = no_tool_params();
    append_param(&mut params, param("target", ParamKind::Text, "The directory name, executable name, or full file path."));
    assert(param_views(params@) =~= fetch_signature_tool_view().params);
    tool(
        "fetch_signature",
        "Resolves heuristics and signatures for directories or executable names (e.g. GLCache, Steam, system32).",
        params,
        text("target"),
    )
}

/// The tool `cli_read_command`.
pub open spec fn cli_read_command_tool_view() -> ToolView {
    ToolView {
        name: "cli_read_command"@,
        description: "Executes passive, read-only system shell commands (e.g. ls, dir, df, du, cat, ps, free, type) to inspect the live OS state."@,
        params: seq![
            takes("command"@, ParamKind::Text, "The command string to execute."@),
        ],
        required: seq!["command"@],
    }
}

fn cli_read_command_tool() -> (t: ToolInfo)
    ensures
        tool_view(t) == cli_read_command_tool_view(),
{
    let mut params = no_tool_params();
    append_param(&mut params, param("command", ParamKind::Text, "The command string to execute."));
    assert(param_views(params@) =~= cli_read_command_tool_view().params);
    tool(
        "cli_read_command",
        "Executes passive, read-only system shell commands (e.g. ls, dir, df, du, cat, ps, free, type) to inspect the live OS state.",
        params,
        text("command"),
    )
}

/// The tool `cli_write_command`.
pub open spec fn cli_write_command_tool_view() -> ToolView {
    ToolView {
        name: "cli_write_command"@,
        description: "Executes mutating OS filesystem commands (e.g. rm, del, remove-item, rmdir, erase). Note: Mutating commands trigger human approval prompts."@,
        params: seq![
            takes("command"@, ParamKind::Text, "The mutating command string to execute."@),
        ],
        required: seq!["command"@],
    }
}

fn cli_write_command_tool() -> (t: ToolInfo)
    ensures
        tool_view(t) == cli_write_command_tool_view(),
{
    let mut params = no_tool_params();
    append_param(&mut params, param("command", ParamKind::Text, "The mutating command string to execute."));
    assert(param_views(params@) =~= cli_write_command_tool_view().params);
    tool(
        "cli_write_command",
        "Executes mutating OS filesystem commands (e.g. rm, del, remove-item, rmdir, erase). Note: Mutating commands trigger human approval prompts.",
        params,
        text("command"),
    )
}

/// The tool `snapshot_manage`.
pub open spec fn snapshot_manage_tool_view() -> ToolView {
    ToolView {
        name: "snapshot_manage"@,
        description: "Manages DiskTracker snapshots (delete or compress action). Note: Mutating actions trigger human approval prompts."@,
        params: seq![
            takes_one("action"@, seq!["delete"@, "compress"@], "The snapshot action."@),
            takes("label"@, ParamKind::Text, "The label of the snapshot to target."@),
        ],
        required: seq!["action"@, "label"@],
    }
}

fn snapshot_manage_tool() -> (t: ToolInfo)
    ensures
        tool_view(t) == snapshot_manage_tool_view(),
{
    let mut params = no_tool_params();
    append_param(&mut params, choice("action", texts("delete", "compress"), "The snapshot action."));
    append_param(&mut params, param("label", ParamKind::Text, "The label of the snapshot to target."));
    assert(param_views(params@) =~= snapshot_manage_tool_view().params);
    tool(
        "snapshot_manage",
        "Manages DiskTracker snapshots (delete or compress action). Note: Mutating actions trigger human approval prompts.",
        params,
        texts("action", "label"),
    )
}

/// The tool `disktracker_status`.
pub open spec fn status_tool_view() -> ToolView {
    ToolView {
        name: "disktracker_status"@,
        description: "Queries the status of the DiskTracker daemon (state, volumes monitored, and database paths)."@,
        params: Seq::empty(),
        required: Seq::empty(),
    }
}

fn status_tool() -> (t: ToolInfo)
    ensures
        tool_view(t) == status_tool_view(),
{
    let params = no_tool_params();
    assert(param_views(params@) =~= status_tool_view().params);
    tool(
        "disktracker_status",
        "Queries the status of the DiskTracker daemon (state, volumes monitored, and database paths).",
        params,
        no_texts(),
    )
}

/// The tool `disktracker_doctor`.
pub open spec fn doctor_tool_view() -> ToolView {
    ToolView {
        name: "disktracker_doctor"@,
        description: "Runs diagnostic checks on DiskTracker (checks SQLite database integrity and recent pruning logs)."@,
        params: Seq::empty(),
        required: Seq::empty(),
    }
}

fn doctor_tool() -> (t: ToolInfo)
    ensures
        tool_view(t) == doctor_tool_view(),
{
    let params = no_tool_params();
    assert(param_views(params@) =~= doctor_tool_view().params);
    tool(
        "disktracker_doctor",
        "Runs diagnostic checks on DiskTracker (checks SQLite database integrity and recent pruning logs).",
        params,
        no_texts(),
    )
}

/// The tool `disktracker_search`.
pub open spec fn search_tool_view() -> ToolView {
    ToolView {
        name: "disktracker_search"@,
        description: "Searches indexed files/directories in the database using the Tantivy search index."@,
        params: seq![
            takes("query"@, ParamKind::Text, "Matches filenames/substrings. Use '*' for matching everything."@),
            takes("path"@, ParamKind::Text, "Filter by folder path prefix (e.g. 'C:/Users')."@),
            takes("ext"@, ParamKind::Text, "Filter by exact file extension (e.g. 'txt')."@),
            takes("volume"@, ParamKind::Text, "Filter by volume (e.g. 'C:')."@),
            takes("min_size"@, ParamKind::Integer, "Filter by minimum size in bytes."@),
            takes("max_size"@, ParamKind::Integer, "Filter by maximum size in bytes."@),
            takes("modified_after"@, ParamKind::Text, "Filter files modified after a given duration (e.g. '24h', '2d') or UTC datetime (RFC3339)."@),
            takes("modified_before"@, ParamKind::Text, "Filter files modified before a given duration (e.g. '24h', '2d') or UTC datetime (RFC3339)."@),
            takes("hidden"@, ParamKind::Boolean, "Filter hidden files."@),
            takes("system"@, ParamKind::Boolean, "Filter system files."@),
            takes("limit"@, ParamKind::Integer, "Max number of search results to return (default 100)."@),
        ],
        required: seq!["query"@],
    }
}

fn search_tool() -> (t: ToolInfo)
    ensures
        tool_view(t) == search_tool_view(),
{
    let mut params = no_tool_params();
    append_param(&mut params, param("query", ParamKind::Text, "Matches filenames/substrings. Use '*' for matching everything."));
    append_param(&mut params, param("path", ParamKind::Text, "Filter by folder path prefix (e.g. 'C:/Users')."));
    append_param(&mut params, param("ext", ParamKind::Text, "Filter by exact file extension (e.g. 'txt')."));
    append_param(&mut params, param("volume", ParamKind::Text, "Filter by volume (e.g. 'C:')."));
    append_param(&mut params, param("min_size", ParamKind::Integer, "Filter by minimum size in bytes."));
    append_param(&mut params, param("max_size", ParamKind::Integer, "Filter by maximum size in bytes."));
    append_param(&mut params, param("modified_after", ParamKind::Text, "Filter files modified after a given duration (e.g. '24h', '2d') or UTC datetime (RFC3339)."));
    append_param(&mut params, param("modified_before", ParamKind::Text, "Filter files modified before a given duration (e.g. '24h', '2d') or UTC datetime (RFC3339)."));
    append_param(&mut params, param("hidden", ParamKind::Boolean, "Filter hidden files."));
    append_param(&mut params, param("system", ParamKind::Boolean, "Filter system files."));
    append_param(&mut params, param("limit", ParamKind::Integer, "Max number of search results to return (default 100)."));
    assert(param_views(params@) =~= search_tool_view().params);
    tool(
        "disktracker_search",
        "Searches indexed files/directories in the database using the Tantivy search index.",
        params,
        text("query"),
    )
}

/// The tool `disktracker_history`.
pub open spec fn history_tool_view() -> ToolView {
    ToolView {
        name: "disktracker_history"@,
        description: "Queries the mutation history of a specific file or directory."@,
        params: seq![
            takes("path"@, ParamKind::Text, "Path to query history for (defaults to current directory if empty)."@),
            takes("since"@, ParamKind::Text, "Filter history since a duration (e.g. '24h', '2d') or UTC datetime (RFC3339)."@),
            takes("until"@, ParamKind::Text, "Filter history until a duration (e.g. '24h', '2d') or UTC datetime (RFC3339)."@),
            takes_one("kind"@, seq!["Created"@, "Modified"@, "Deleted"@, "Renamed"@], "Filter by mutation kind."@),
            takes("collapse"@, ParamKind::Boolean, "Collapse consecutive same-kind entries."@),
            takes("limit"@, ParamKind::Integer, "Max number of history entries (default 100)."@),
        ],
        required: Seq::empty(),
    }
}

fn history_tool() -> (t: ToolInfo)
    ensures
        tool_view(t) == history_tool_view(),
{
    let mut params = no_tool_params();
    append_param(&mut params, param("path", ParamKind::Text, "Path to query history for (defaults to current directory if empty)."));
    append_param(&mut params, param("since", ParamKind::Text, "Filter history since a duration (e.g. '24h', '2d') or UTC datetime (RFC3339)."));
    append_param(&mut params, param("until", ParamKind::Text, "Filter history until a duration (e.g. '24h', '2d') or UTC datetime (RFC3339)."));
    append_param(&mut params, choice("kind", mutation_kinds(), "Filter by mutation kind."));
    append_param(&mut params, param("collapse", ParamKind::Boolean, "Collapse consecutive same-kind entries."));
    append_param(&mut params, param("limit", ParamKind::Integer, "Max number of history entries (default 100)."));
    assert(param_views(params@) =~= history_tool_view().params);
    tool(
        "disktracker_history",
        "Queries the mutation history of a specific file or directory.",
        params,
        no_texts(),
    )
}

/// The tool `disktracker_top`.
pub open spec fn top_tool_view() -> ToolView {
    ToolView {
        name: "disktracker_top"@,
        description: "Ranks files/folders by size, growth, or churn."@,
        params: seq![
            takes("volume"@, ParamKind::Text, "Restrict search to specific volume (e.g. 'C:')."@),
            takes("path"@, ParamKind::Text, "Restrict to specific folder path (e.g. 'C:/Windows')."@),
            takes("folders"@, ParamKind::Boolean, "Folder-only rollup (conflicts with files)."@),
            takes("files"@, ParamKind::Boolean, "File-only rollup, no folder rollup (conflicts with folders)."@),
            takes("limit"@, ParamKind::Integer, "Max number of top results (default 20)."@),
            takes("since"@, ParamKind::Text, "Filter by duration (e.g. '7d', '24h') since mutations occurred."@),
            takes("between_a"@, ParamKind::Text, "Compare mutations starting from this snapshot (label or ID)."@),
            takes("between_b"@, ParamKind::Text, "Compare mutations ending at this snapshot (label or ID, required if between_a is set)."@),
            takes("growth"@, ParamKind::Boolean, "Rank by size delta (growth)."@),
            takes("churn"@, ParamKind::Boolean, "Rank by modification count (churn)."@),
        ],
        required: Seq::empty(),
    }
}

fn top_tool() -> (t: ToolInfo)
    ensures
        tool_view(t) == top_tool_view(),
{
    let mut params = no_tool_params();
    append_param(&mut params, param("volume", ParamKind::Text, "Restrict search to specific volume (e.g. 'C:')."));
    append_param(&mut params, param("path", ParamKind::Text, "Restrict to specific folder path (e.g. 'C:/Windows')."));
    append_param(&mut params, param("folders", ParamKind::Boolean, "Folder-only rollup (conflicts with files)."));
    append_param(&mut params, param("files", ParamKind::Boolean, "File-only rollup, no folder rollup (conflicts with folders)."));
    append_param(&mut params, param("limit", ParamKind::Integer, "Max number of top results (default 20)."));
    append_param(&mut params, param("since", ParamKind::Text, "Filter by duration (e.g. '7d', '24h') since mutations occurred."));
    append_param(&mut params, param("between_a", ParamKind::Text, "Compare mutations starting from this snapshot (label or ID)."));
    append_param(&mut params, param("between_b", ParamKind::Text, "Compare mutations ending at this snapshot (label or ID, required if between_a is set)."));
    append_param(&mut params, param("growth", ParamKind::Boolean, "Rank by size delta (growth)."));
    append_param(&mut params, param("churn", ParamKind::Boolean, "Rank by modification count (churn)."));
    assert(param_views(params@) =~= top_tool_view().params);
    tool(
        "disktracker_top",
        "Ranks files/folders by size, growth, or churn.",
        params,
        no_texts(),
    )
}

/// The tool `disktracker_snapshot_list`.
pub open spec fn snapshot_list_tool_view() -> ToolView {
    ToolView {
        name: "disktracker_snapshot_list"@,
        description: "Lists all snapshots in the database."@,
        params: seq![
            takes("volume"@, ParamKind::Text, "Filter snapshots by volume."@),
            takes("limit"@, ParamKind::Integer, "Max number of snapshots (default 20)."@),
        ],
        required: Seq::empty(),
    }
}

fn snapshot_list_tool() -> (t: ToolInfo)
    ensures
        tool_view(t) == snapshot_list_tool_view(),
{
    let mut params = no_tool_params();
    append_param(&mut params, param("volume", ParamKind::Text, "Filter snapshots by volume."));
    append_param(&mut params, param("limit", ParamKind::Integer, "Max number of snapshots (default 20)."));
    assert(param_views(params@) =~= snapshot_list_tool_view().params);
    tool(
        "disktracker_snapshot_list",
        "Lists all snapshots in the database.",
        params,
        no_texts(),
    )
}

/// The tool `disktracker_snapshot_diff`.
pub open spec fn snapshot_diff_tool_view() -> ToolView {
    ToolView {
        name: "disktracker_snapshot_diff"@,
        description: "Diffs two snapshots to see net file mutations."@,
        params: seq![
            takes("snapshot_a"@, ParamKind::Text, "First snapshot label or ID."@),
            takes("snapshot_b"@, ParamKind::Text, "Second snapshot label or ID."@),
            takes("path"@, ParamKind::Text, "Filter diff results by path prefix."@),
            takes("limit"@, ParamKind::Integer, "Max number of diff results (default 100)."@),
        ],
        required: seq!["snapshot_a"@, "snapshot_b"@],
    }
}

fn snapshot_diff_tool() -> (t: ToolInfo)
    ensures
        tool_view(t) == snapshot_diff_tool_view(),
{
    let mut params = no_tool_params();
    append_param(&mut params, param("snapshot_a", ParamKind::Text, "First snapshot label or ID."));
    append_param(&mut params, param("snapshot_b", ParamKind::Text, "Second snapshot label or ID."));
    append_param(&mut params, param("path", ParamKind::Text, "Filter diff results by path prefix."));
    append_param(&mut params, param("limit", ParamKind::Integer, "Max number of diff results (default 100)."));
    assert(param_views(params@) =~= snapshot_diff_tool_view().params);
    tool(
        "disktracker_snapshot_diff",
        "Diffs two snapshots to see net file mutations.",
        params,
        texts("snapshot_a", "snapshot_b"),
    )
}

/// The tool `disktracker_snapshot_create`.
pub open spec fn snapshot_create_tool_view() -> ToolView {
    ToolView {
        name: "disktracker_snapshot_create"@,
        description: "Creates a new snapshot. Note: Mutating action triggers HIL human approval."@,
        params: seq![
            takes("volumes"@, ParamKind::TextList, "Volumes to snapshot. Defaults to all monitored volumes if empty/omitted."@),
            takes("label"@, ParamKind::Text, "Label for the snapshot (auto-generated if omitted)."@),
        ],
        required: Seq::empty(),
    }
}

fn snapshot_create_tool() -> (t: ToolInfo)
    ensures
        tool_view(t) == snapshot_create_tool_view(),
{
    let mut params = no_tool_params();
    append_param(&mut params, param("volumes", ParamKind::TextList, "Volumes to snapshot. Defaults to all monitored volumes if empty/omitted."));
    append_param(&mut params, param("label", ParamKind::Text, "Label for the snapshot (auto-generated if omitted)."));
    assert(param_views(params@) =~= snapshot_create_tool_view().params);
    tool(
        "disktracker_snapshot_create",
        "Creates a new snapshot. Note: Mutating action triggers HIL human approval.",
        params,
        no_texts(),
    )
}

/// The tool `disktracker_snapshot_delete`.
pub open spec fn snapshot_delete_tool_view() -> ToolView {
    ToolView {
        name: "disktracker_snapshot_delete"@,
        description: "Deletes a snapshot. Note: Mutating action triggers HIL human approval."@,
        params: seq![
            takes("label"@, ParamKind::Text, "The label of the snapshot to delete."@),
        ],
        required: seq!["label"@],
    }
}

fn snapshot_delete_tool() -> (t: ToolInfo)
    ensures
        tool_view(t) == snapshot_delete_tool_view(),
{
    let mut params = no_tool_params();
    append_param(&mut params, param("label", ParamKind::Text, "The label of the snapshot to delete."));
    assert(param_views(params@) =~= snapshot_delete_tool_view().params);
    tool(
        "disktracker_snapshot_delete",
        "Deletes a snapshot. Note: Mutating action triggers HIL human approval.",
        params,
        text("label"),
    )
}

/// The tool `disktracker_websearch`.
pub open spec fn websearch_tool_view() -> ToolView {
    ToolView {
        name: "disktracker_websearch"@,
        description: "Searches the web for information about an application's publisher, creator, default installation directories, registry keys, and runtime folders."@,
        params: seq![
            takes("query"@, ParamKind::Text, "The search query (e.g. 'valorant publisher', 'valorant installation folder layout')."@),
            takes("limit"@, ParamKind::Integer, "Max number of search results to return (default 5)."@),
        ],
        required: seq!["query"@],
    }
}

fn websearch_tool() -> (t: ToolInfo)
    ensures
        tool_view(t) == websearch_tool_view(),
{
    let mut params = no_tool_params();
    append_param(&mut params, param("query", ParamKind::Text, "The search query (e.g. 'valorant publisher', 'valorant installation folder layout')."));
    append_param(&mut params, param("limit", ParamKind::Integer, "Max number of search results to return (default 5)."));
    assert(param_views(params@) =~= websearch_tool_view().params);
    tool(
        "disktracker_websearch",
        "Searches the web for information about an application's publisher, creator, default installation directories, registry keys, and runtime folders.",
        params,
        text("query"),
    )
}

/// The tool `disktracker_human_feedback`.
pub open spec fn human_feedback_tool_view() -> ToolView {
    ToolView {
        name: "disktracker_human_feedback"@,
        description: "Asks the user a clarifying question or requests additional input during interactive mode, returning the user's feedback to the agent."@,
        params: seq![
            takes("prompt"@, ParamKind::Text, "The question or message to present to the user."@),
        ],
        required: seq!["prompt"@],
    }
}

fn human_feedback_tool() -> (t: ToolInfo)
    ensures
        tool_view(t) == human_feedback_tool_view(),
{
    let mut params = no_tool_params();
    append_param(&mut params, param("prompt", ParamKind::Text, "The question or message to present to the user."));
    assert(param_views(params@) =~= human_feedback_tool_view().params);
    tool(
        "disktracker_human_feedback",
        "Asks the user a clarifying question or requests additional input during interactive mode, returning the user's feedback to the agent.",
        params,
        text("prompt"),
    )
}

/// All tools, in the order in which the model is told of them.
pub open spec fn tool_table() -> Seq<ToolView> {
    seq![
        sqlite_read_query_tool_view(),
        fetch_signature_tool_view(),
        cli_read_command_tool_view(),
        cli_write_command_tool_view(),
        snapshot_manage_tool_view(),
        status_tool_view(),
        doctor_tool_view(),
        search_tool_view(),
        history_tool_view(),
        top_tool_view(),
        snapshot_list_tool_view(),
        snapshot_diff_tool_view(),
        snapshot_create_tool_view(),
        snapshot_delete_tool_view(),
        websearch_tool_view(),
        human_feedback_tool_view(),
    ]
}

/// The tools that the model may call.
pub fn get_tools() -> (r: Vec<ToolInfo>)
    ensures
        r@.len() == tool_table().len(),
        forall|i: int| 0 <= i < r@.len() ==> tool_view(#[trigger] r@[i]) == tool_table()[i],
{
    let mut r: Vec<ToolInfo> = Vec::new();
    r.push(sqlite_read_query_tool());
    r.push(fetch_signature_tool());
    r.push(cli_read_command_tool());
    r.push(cli_write_command_tool());
    r.push(snapshot_manage_tool());
    r.push(status_tool());
    r.push(doctor_tool());
    r.push(search_tool());
    r.push(history_tool());
    r.push(top_tool());
    r.push(snapshot_list_tool());
    r.push(snapshot_diff_tool());
    r.push(snapshot_create_tool());
    r.push(snapshot_delete_tool());
    r.push(websearch_tool());
    r.push(human_feedback_tool());
    r
}

} // verus!
