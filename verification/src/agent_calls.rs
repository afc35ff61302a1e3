//! What the agent does for each tool that is called.

use crate::agent::{is_mutating, Argument, ToolCall};
use crate::calendar::{rfc3339_seconds, EARLIEST_SECONDS, LATEST_SECONDS};
use crate::history::{forward, has_drive, path_form, PathForm};
use crate::moments::{ago_error, ago_seconds, parse_time_param, too_far};
use crate::text::{
    ascii_upper_char, chars_of, lowercase, lowercase_of, opt_text, quoted, quoted_of, str_eq, trim,
    trimmed, upper_char, uppercase, uppercase_of, without_leading,
};
use vstd::prelude::*;

verus! {

/// A value that is sent to the daemon.
#[derive(Debug)]
pub enum ParamValue {
    Null,
    Text(String),
    Count(u64),
    Time(i64),
    Flag(bool),
    /// A value in JSON.
    Json(String),
}

/// What a parameter holds.
pub enum ValueView {
    Null,
    Text(Seq<char>),
    Count(int),
    Time(int),
    Flag(bool),
    Json(Seq<char>),
}

/// What a value holds.
pub open spec fn value_view(v: ParamValue) -> ValueView {
    match v {
        ParamValue::Null => ValueView::Null,
        ParamValue::Text(s) => ValueView::Text(s@),
        ParamValue::Count(n) => ValueView::Count(n as int),
        ParamValue::Time(t) => ValueView::Time(t as int),
        ParamValue::Flag(b) => ValueView::Flag(b),
        ParamValue::Json(s) => ValueView::Json(s@),
    }
}

/// The parameters of a request, each with its name.
pub open spec fn params_view(ps: Seq<(String, ParamValue)>) -> Seq<(Seq<char>, ValueView)> {
    ps.map_values(|p: (String, ParamValue)| (p.0@, value_view(p.1)))
}

/// What is taken of the daemon's reply.
#[derive(Debug)]
pub enum Take {
    /// All of it, as JSON.
    Whole,
    /// The text of one field, or another text where there is none.
    Field { name: String, otherwise: String },
}

/// A request to the daemon.
#[derive(Debug)]
pub struct DaemonCall {
    pub method: String,
    pub params: Vec<(String, ParamValue)>,
    pub take: Take,
}

/// A request for a method, of which all is taken.
pub open spec fn is_whole_call(c: DaemonCall, method: Seq<char>, params: Seq<(Seq<char>, ValueView)>) -> bool {
    c.method@ == method && params_view(c.params@) == params && c.take is Whole
}

/// A request for a method, of which one field is taken.
pub open spec fn is_field_call(
    c: DaemonCall,
    method: Seq<char>,
    params: Seq<(Seq<char>, ValueView)>,
    field: Seq<char>,
    or_else: Seq<char>,
) -> bool {
    &&& c.method@ == method
    &&& params_view(c.params@) == params
    &&& c.take matches Take::Field { name, otherwise } && name@ == field && otherwise@ == or_else
}

fn put(params: &mut Vec<(String, ParamValue)>, key: &str, value: ParamValue)
    ensures
        params_view(final(params)@) == params_view(old(params)@).push((key@, value_view(value))),
{
    let ghost before = params_view(params@);
    params.push((key.to_owned(), value));
    assert(params_view(params@) =~= before.push((key@, value_view(value))));
}

fn no_params() -> (r: Vec<(String, ParamValue)>)
    ensures
        params_view(r@) == Seq::<(Seq<char>, ValueView)>::empty(),
{
    let r: Vec<(String, ParamValue)> = Vec::new();
    assert(params_view(r@) =~= Seq::<(Seq<char>, ValueView)>::empty());
    r
}

/// An optional text as a parameter.
pub open spec fn text_or_null(o: Option<Seq<char>>) -> ValueView {
    match o {
        Some(s) => ValueView::Text(s),
        None => ValueView::Null,
    }
}

/// An optional number as a parameter.
pub open spec fn count_or_null(o: Option<u64>) -> ValueView {
    match o {
        Some(n) => ValueView::Count(n as int),
        None => ValueView::Null,
    }
}

/// An optional moment as a parameter.
pub open spec fn time_or_null(o: Option<i64>) -> ValueView {
    match o {
        Some(t) => ValueView::Time(t as int),
        None => ValueView::Null,
    }
}

/// An optional truth value as a parameter.
pub open spec fn flag_or_null(o: Option<bool>) -> ValueView {
    match o {
        Some(b) => ValueView::Flag(b),
        None => ValueView::Null,
    }
}

fn text_param(o: Option<String>) -> (r: ParamValue)
    ensures
        value_view(r) == text_or_null(opt_text(o)),
{
    match o {
        Some(s) => ParamValue::Text(s),
        None => ParamValue::Null,
    }
}

fn count_param(o: Option<u64>) -> (r: ParamValue)
    ensures
        value_view(r) == count_or_null(o),
{
    match o {
        Some(n) => ParamValue::Count(n),
        None => ParamValue::Null,
    }
}

fn time_param(o: Option<i64>) -> (r: ParamValue)
    ensures
        value_view(r) == time_or_null(o),
{
    match o {
        Some(t) => ParamValue::Time(t),
        None => ParamValue::Null,
    }
}

fn flag_param(o: Option<bool>) -> (r: ParamValue)
    ensures
        value_view(r) == flag_or_null(o),
{
    match o {
        Some(b) => ParamValue::Flag(b),
        None => ParamValue::Null,
    }
}

/// What a search for files is for.
pub struct SearchArgs {
    pub query: String,
    pub path: Option<String>,
    pub ext: Option<String>,
    /// In upper case.
    pub volume: Option<String>,
    pub min_size: Option<u64>,
    pub max_size: Option<u64>,
    pub modified_after: Option<i64>,
    pub modified_before: Option<i64>,
    pub hidden: Option<bool>,
    pub system: Option<bool>,
    pub limit: Option<u64>,
    pub cursor: Option<String>,
}

/// The volume that a path names by its drive, if it does.
pub open spec fn drive_of(path: Option<Seq<char>>) -> Option<Seq<char>> {
    match path {
        Some(p) => if has_drive(forward(p)) {
            Some(seq![ascii_upper_char(forward(p)[0]), ':'])
        } else {
            None
        },
        None => None,
    }
}

/// The path below the drive; nothing where it is the drive itself. A path without a
/// drive stays.
pub open spec fn below_drive(path: Option<Seq<char>>) -> Option<Seq<char>> {
    match path {
        Some(p) => if has_drive(forward(p)) {
            let rest = without_leading(forward(p).skip(2), '/');
            if rest.len() == 0 {
                None
            } else {
                Some(rest)
            }
        } else {
            Some(p)
        },
        None => None,
    }
}

/// The parameters of a search. The drive of the path goes before the volume.
pub open spec fn search_params(a: SearchArgs) -> Seq<(Seq<char>, ValueView)> {
    let path = opt_text(a.path);
    let volume = if drive_of(path) is Some {
        drive_of(path)
    } else {
        opt_text(a.volume)
    };
    seq![
        ("query"@, ValueView::Text(a.query@)),
        ("path"@, text_or_null(below_drive(path))),
        ("ext"@, text_or_null(opt_text(a.ext))),
        ("volume"@, text_or_null(volume)),
        ("min_size"@, count_or_null(a.min_size)),
        ("max_size"@, count_or_null(a.max_size)),
        ("modified_after"@, time_or_null(a.modified_after)),
        ("modified_before"@, time_or_null(a.modified_before)),
        ("hidden"@, flag_or_null(a.hidden)),
        ("system"@, flag_or_null(a.system)),
        ("limit"@, count_or_null(a.limit)),
        ("cursor"@, text_or_null(opt_text(a.cursor))),
    ]
}

/// The volume and the path of a search: the drive of the path goes before the volume.
fn search_place(path: Option<String>, volume: Option<String>) -> (r: (Option<String>, Option<String>))
    ensures
        opt_text(r.0) == below_drive(opt_text(path)),
        opt_text(r.1) == (if drive_of(opt_text(path)) is Some {
            drive_of(opt_text(path))
        } else {
            opt_text(volume)
        }),
{
    match path {
        None => (None, volume),
        Some(p) => {
            match path_form(p.as_str()) {
                PathForm::Drive { volume: drive, rest } => {
                    if rest.as_str().is_empty() {
                        (None, Some(drive))
                    } else {
                        (Some(rest), Some(drive))
                    }
                },
                _ => (Some(p), volume),
            }
        },
    }
}

/// The request for a search.
pub fn search_call(a: SearchArgs) -> (c: DaemonCall)
    ensures
        is_whole_call(c, "search_query"@, search_params(a)),
{
    let ghost want = search_params(a);
    let (path, volume) = search_place(a.path, a.volume);
    let mut params = no_params();
    put(&mut params, "query", ParamValue::Text(a.query));
    put(&mut params, "path", text_param(path));
    put(&mut params, "ext", text_param(a.ext));
    put(&mut params, "volume", text_param(volume));
    put(&mut params, "min_size", count_param(a.min_size));
    put(&mut params, "max_size", count_param(a.max_size));
    put(&mut params, "modified_after", time_param(a.modified_after));
    put(&mut params, "modified_before", time_param(a.modified_before));
    put(&mut params, "hidden", flag_param(a.hidden));
    put(&mut params, "system", flag_param(a.system));
    put(&mut params, "limit", count_param(a.limit));
    put(&mut params, "cursor", text_param(a.cursor));
    assert(params_view(params@) =~= want);
    DaemonCall { method: "search_query".to_owned(), params, take: Take::Whole }
}

/// A path, seen from a working directory: one that begins with a slash stands for
/// itself.
pub open spec fn absolute_path(p: Seq<char>, cwd: Option<Seq<char>>) -> Seq<char> {
    if p.len() > 0 && p[0] == '/' {
        p
    } else {
        match cwd {
            None => p,
            Some(dir) => if dir.len() == 0 || dir.last() == '/' {
                dir + p
            } else {
                dir + seq!['/'] + p
            },
        }
    }
}

/// A path, seen from the working directory, if that is known.
pub fn resolve_absolute_path(p: &str, cwd: &Option<String>) -> (r: String)
    ensures
        r@ == absolute_path(p@, opt_text(*cwd)),
{
    let chars = chars_of(p);
    if chars.len() > 0 && chars[0] == '/' {
        return p.to_owned();
    }
    match cwd {
        None => p.to_owned(),
        Some(dir) => {
            let d = chars_of(dir.as_str());
            let mut r = dir.clone();
            if d.len() > 0 && d[d.len() - 1] != '/' {
                r.push('/');
                assert(r@ =~= dir@ + seq!['/']);
            }
            r.append(p);
            r
        },
    }
}

/// What a history is for.
pub struct HistoryArgs {
    pub path: String,
    pub since: Option<i64>,
    pub until: Option<i64>,
    pub kind: Option<String>,
    pub collapse: bool,
    pub limit: Option<u64>,
    pub cursor: Option<String>,
}

/// The parameters of a history.
pub open spec fn history_call_params(a: HistoryArgs) -> Seq<(Seq<char>, ValueView)> {
    seq![
        ("path"@, ValueView::Text(a.path@)),
        ("since"@, time_or_null(a.since)),
        ("until"@, time_or_null(a.until)),
        ("kind"@, text_or_null(opt_text(a.kind))),
        ("collapse"@, ValueView::Flag(a.collapse)),
        ("limit"@, count_or_null(a.limit)),
        ("cursor"@, text_or_null(opt_text(a.cursor))),
    ]
}

/// The request for a history.
pub fn history_call(a: HistoryArgs) -> (c: DaemonCall)
    ensures
        is_whole_call(c, "get_history"@, history_call_params(a)),
{
    let ghost want = history_call_params(a);
    let mut params = no_params();
    put(&mut params, "path", ParamValue::Text(a.path));
    put(&mut params, "since", time_param(a.since));
    put(&mut params, "until", time_param(a.until));
    put(&mut params, "kind", text_param(a.kind));
    put(&mut params, "collapse", ParamValue::Flag(a.collapse));
    put(&mut params, "limit", count_param(a.limit));
    put(&mut params, "cursor", text_param(a.cursor));
    assert(params_view(params@) =~= want);
    DaemonCall { method: "get_history".to_owned(), params, take: Take::Whole }
}

/// What a ranking is for.
pub struct TopArgs {
    /// An absolute path.
    pub path: Option<String>,
    pub volume: Option<String>,
    pub folders: bool,
    pub files: bool,
    pub limit: Option<u64>,
    pub since: Option<i64>,
    pub between_a: Option<String>,
    pub between_b: Option<String>,
    pub growth: bool,
    pub churn: bool,
    pub cursor: Option<String>,
}

/// The parameters of a ranking. The volume goes before the drive of the path.
pub open spec fn top_call_params(a: TopArgs) -> Seq<(Seq<char>, ValueView)> {
    let volume = if a.volume is Some {
        opt_text(a.volume)
    } else {
        drive_of(opt_text(a.path))
    };
    seq![
        ("path"@, text_or_null(opt_text(a.path))),
        ("volume"@, text_or_null(volume)),
        ("folders"@, ValueView::Flag(a.folders)),
        ("files"@, ValueView::Flag(a.files)),
        ("limit"@, count_or_null(a.limit)),
        ("since"@, time_or_null(a.since)),
        ("between_a"@, text_or_null(opt_text(a.between_a))),
        ("between_b"@, text_or_null(opt_text(a.between_b))),
        ("growth"@, ValueView::Flag(a.growth)),
        ("churn"@, ValueView::Flag(a.churn)),
        ("cursor"@, text_or_null(opt_text(a.cursor))),
    ]
}

fn drive_in(path: &Option<String>) -> (r: Option<String>)
    ensures
        opt_text(r) == drive_of(opt_text(*path)),
{
    match path {
        None => None,
        Some(p) => {
            match path_form(p.as_str()) {
                PathForm::Drive { volume, rest: _ } => Some(volume),
                _ => None,
            }
        },
    }
}

/// The request for a ranking.
pub fn top_call(a: TopArgs) -> (c: DaemonCall)
    ensures
        is_whole_call(c, "get_top"@, top_call_params(a)),
{
    let ghost want = top_call_params(a);
    let volume = if a.volume.is_some() {
        a.volume
    } else {
        drive_in(&a.path)
    };
    let mut params = no_params();
    put(&mut params, "path", text_param(a.path));
    put(&mut params, "volume", text_param(volume));
    put(&mut params, "folders", ParamValue::Flag(a.folders));
    put(&mut params, "files", ParamValue::Flag(a.files));
    put(&mut params, "limit", count_param(a.limit));
    put(&mut params, "since", time_param(a.since));
    put(&mut params, "between_a", text_param(a.between_a));
    put(&mut params, "between_b", text_param(a.between_b));
    put(&mut params, "growth", ParamValue::Flag(a.growth));
    put(&mut params, "churn", ParamValue::Flag(a.churn));
    put(&mut params, "cursor", text_param(a.cursor));
    assert(params_view(params@) =~= want);
    DaemonCall { method: "get_top".to_owned(), params, take: Take::Whole }
}

/// The name of a volume that was given as a letter or as a name; `upper` is the name in
/// upper case.
pub fn volume_name(volume: &str, upper: String) -> (r: String)
    ensures
        r@ == (if volume@.len() == 1 && volume@[0] <= '\u{7f}' {
            seq![ascii_upper_char(volume@[0]), ':']
        } else {
            upper@
        }),
{
    let chars = chars_of(volume);
    if chars.len() == 1 && chars[0] <= '\u{7f}' {
        let mut r = String::new();
        r.push(upper_char(chars[0]));
        r.push(':');
        assert(r@ =~= seq![ascii_upper_char(volume@[0]), ':']);
        r
    } else {
        upper
    }
}

/// The argument of a name.
pub open spec fn arg_at(args: Seq<(String, Argument)>, key: Seq<char>) -> Option<Argument>
    decreases args.len(),
{
    if args.len() == 0 {
        None
    } else if args[0].0@ == key {
        Some(args[0].1)
    } else {
        arg_at(args.skip(1), key)
    }
}

/// The text of an argument.
pub open spec fn text_at(args: Seq<(String, Argument)>, key: Seq<char>) -> Option<Seq<char>> {
    match arg_at(args, key) {
        Some(Argument::Text(s)) => Some(s@),
        _ => None,
    }
}

/// The number of an argument.
pub open spec fn count_at(args: Seq<(String, Argument)>, key: Seq<char>) -> Option<u64> {
    match arg_at(args, key) {
        Some(Argument::Count(n)) => Some(n),
        _ => None,
    }
}

/// The truth value of an argument.
pub open spec fn flag_at(args: Seq<(String, Argument)>, key: Seq<char>) -> Option<bool> {
    match arg_at(args, key) {
        Some(Argument::Flag(b)) => Some(b),
        _ => None,
    }
}

/// A text, or another one where there is none.
pub open spec fn or_text(o: Option<Seq<char>>, otherwise: Seq<char>) -> Seq<char> {
    match o {
        Some(s) => s,
        None => otherwise,
    }
}

fn find_arg<'a>(args: &'a Vec<(String, Argument)>, key: &str) -> (r: Option<&'a Argument>)
    ensures
        match r {
            Some(a) => arg_at(args@, key@) == Some(*a),
            None => arg_at(args@, key@) is None,
        },
{
    let mut i: usize = 0;
    assert(args@.skip(0) =~= args@);
    while i < args.len()
        invariant
            i <= args@.len(),
            arg_at(args@, key@) == arg_at(args@.skip(i as int), key@),
        decreases args@.len() - i,
    {
        assert(args@.skip(i as int)[0] == args@[i as int]);
        assert(args@.skip(i as int).skip(1) =~= args@.skip(i + 1));
        if str_eq(args[i].0.as_str(), key) {
            return Some(&args[i].1);
        }
        i = i + 1;
    }
    None
}

fn text_arg(call: &ToolCall, key: &str) -> (r: Option<String>)
    ensures
        opt_text(r) == text_at(call.arguments@, key@),
{
    match find_arg(&call.arguments, key) {
        Some(Argument::Text(s)) => Some(s.clone()),
        _ => None,
    }
}

fn text_arg_or(call: &ToolCall, key: &str, otherwise: &str) -> (r: String)
    ensures
        r@ == or_text(text_at(call.arguments@, key@), otherwise@),
{
    match find_arg(&call.arguments, key) {
        Some(Argument::Text(s)) => s.clone(),
        _ => otherwise.to_owned(),
    }
}

fn count_arg(call: &ToolCall, key: &str) -> (r: Option<u64>)
    ensures
        r == count_at(call.arguments@, key@),
{
    match find_arg(&call.arguments, key) {
        Some(Argument::Count(n)) => Some(*n),
        _ => None,
    }
}

fn flag_arg(call: &ToolCall, key: &str) -> (r: Option<bool>)
    ensures
        r == flag_at(call.arguments@, key@),
{
    match find_arg(&call.arguments, key) {
        Some(Argument::Flag(b)) => Some(*b),
        _ => None,
    }
}

/// A truth value, or another one where there is none.
pub open spec fn or_flag(o: Option<bool>, otherwise: bool) -> bool {
    match o {
        Some(b) => b,
        None => otherwise,
    }
}

fn flag_arg_or(call: &ToolCall, key: &str, otherwise: bool) -> (r: bool)
    ensures
        r == or_flag(flag_at(call.arguments@, key@), otherwise),
{
    match flag_arg(call, key) {
        Some(b) => b,
        None => otherwise,
    }
}

/// The moment that an argument names, if it names one.
pub open spec fn moment_at(text: Option<Seq<char>>, now: int) -> Option<i64> {
    match text {
        None => None,
        Some(s) => if rfc3339_seconds(s) is Some {
            rfc3339_seconds(s)
        } else if ago_error(lowercase_of(trimmed(s)), s) is None {
            Some((now - ago_seconds(lowercase_of(trimmed(s)))) as i64)
        } else {
            None
        },
    }
}

/// An argument names a moment that lies before all that can be held.
pub open spec fn too_far_at(text: Option<Seq<char>>, now: int) -> bool {
    text is Some && rfc3339_seconds(text->0) is None && too_far(lowercase_of(trimmed(text->0)), now)
}

fn moment_arg(call: &ToolCall, key: &str, now: i64) -> (r: Option<Option<i64>>)
    requires
        EARLIEST_SECONDS <= now <= LATEST_SECONDS,
    ensures
        match r {
            None => too_far_at(text_at(call.arguments@, key@), now as int),
            Some(at) => !too_far_at(text_at(call.arguments@, key@), now as int) && at == moment_at(
                text_at(call.arguments@, key@),
                now as int,
            ),
        },
{
    match find_arg(&call.arguments, key) {
        Some(Argument::Text(s)) => {
            match parse_time_param(s.as_str(), now) {
                None => None,
                Some(Ok(at)) => Some(Some(at)),
                Some(Err(_)) => Some(None),
            }
        },
        _ => Some(None),
    }
}

/// What is done for a call.
#[derive(Debug)]
pub enum ToolAction {
    /// The daemon is asked.
    Ask(DaemonCall),
    /// The daemon is asked for the state of its database and of its pruning.
    Doctor,
    /// A command is run that reads.
    Command(String),
    /// The web is searched.
    WebSearch { query: String, limit: u64 },
    /// The user is asked.
    AskUser(String),
    /// The answer is known.
    Reply(String),
    Ignore,
}

/// What is done for a call, and what is noted of it.
#[derive(Debug)]
pub struct ToolStep {
    pub note: Option<String>,
    pub action: ToolAction,
}

/// The step asks the daemon and takes all that it replies.
pub open spec fn asks_whole(s: ToolStep, note: Seq<char>, method: Seq<char>, params: Seq<(Seq<char>, ValueView)>) -> bool {
    &&& opt_text(s.note) == Some(note)
    &&& s.action matches ToolAction::Ask(c) && is_whole_call(c, method, params)
}

/// An optional text as it is noted.
pub open spec fn shown_option(o: Option<Seq<char>>) -> Seq<char> {
    match o {
        Some(s) => "Some("@ + quoted_of(s) + ")"@,
        None => "None"@,
    }
}

fn show_option(o: &Option<String>) -> (r: String)
    ensures
        r@ == shown_option(opt_text(*o)),
{
    match o {
        Some(s) => {
            let mut r = "Some(".to_owned();
            let q = quoted(s.as_str());
            r.append(q.as_str());
            r.append(")");
            r
        },
        None => "None".to_owned(),
    }
}

/// A note on a call with one value.
pub open spec fn note_of(before: Seq<char>, value: Seq<char>) -> Seq<char> {
    before + value + ")"@
}

fn note_one(before: &str, value: &str) -> (r: String)
    ensures
        r@ == note_of(before@, quoted_of(value@)),
{
    let mut r = before.to_owned();
    let q = quoted(value);
    r.append(q.as_str());
    r.append(")");
    r
}

/// A note on a call with two values.
pub open spec fn note_of_two(before: Seq<char>, first: Seq<char>, between: Seq<char>, second: Seq<char>) -> Seq<char> {
    before + first + between + second + ")"@
}

fn note_two(before: &str, first: &str, between: &str, second: &str) -> (r: String)
    ensures
        r@ == note_of_two(before@, first@, between@, second@),
{
    let mut r = before.to_owned();
    r.append(first);
    r.append(between);
    r.append(second);
    r.append(")");
    r
}

/// What a search is for, as its call says.
pub open spec fn is_search_args(args: Seq<(String, Argument)>, now: int, a: SearchArgs) -> bool {
    &&& a.query@ == or_text(text_at(args, "query"@), "*"@)
    &&& opt_text(a.path) == text_at(args, "path"@)
    &&& opt_text(a.ext) == text_at(args, "ext"@)
    &&& opt_text(a.volume) == upper_text(text_at(args, "volume"@))
    &&& a.min_size == count_at(args, "min_size"@)
    &&& a.max_size == count_at(args, "max_size"@)
    &&& a.modified_after == moment_at(text_at(args, "modified_after"@), now)
    &&& a.modified_before == moment_at(text_at(args, "modified_before"@), now)
    &&& a.hidden == flag_at(args, "hidden"@)
    &&& a.system == flag_at(args, "system"@)
    &&& a.limit == count_at(args, "limit"@)
    &&& opt_text(a.cursor) == text_at(args, "cursor"@)
}

/// An optional text in upper case.
pub open spec fn upper_text(o: Option<Seq<char>>) -> Option<Seq<char>> {
    match o {
        Some(s) => Some(uppercase_of(s)),
        None => None,
    }
}

/// The step of a search.
pub open spec fn is_search_step(args: Seq<(String, Argument)>, now: int, s: ToolStep) -> bool {
    exists|a: SearchArgs|
        #[trigger] is_search_args(args, now, a) && asks_whole(
            s,
            note_of("disktracker_search(query="@, quoted_of(a.query@)),
            "search_query"@,
            search_params(a),
        )
}

fn search_step(call: &ToolCall, now: i64) -> (r: Option<ToolStep>)
    requires
        EARLIEST_SECONDS <= now <= LATEST_SECONDS,
    ensures
        match r {
            None => too_far_at(text_at(call.arguments@, "modified_after"@), now as int) || too_far_at(
                text_at(call.arguments@, "modified_before"@),
                now as int,
            ),
            Some(s) => {
                &&& is_search_step(call.arguments@, now as int, s)
                &&& !too_far_at(text_at(call.arguments@, "modified_after"@), now as int)
                &&& !too_far_at(text_at(call.arguments@, "modified_before"@), now as int)
            },
        },
{
    let modified_after = match moment_arg(call, "modified_after", now) {
        None => {
            return None;
        },
        Some(at) => at,
    };
    let modified_before = match moment_arg(call, "modified_before", now) {
        None => {
            return None;
        },
        Some(at) => at,
    };
    let query = text_arg_or(call, "query", "*");
    let note = note_one("disktracker_search(query=", query.as_str());
    let volume = match find_arg(&call.arguments, "volume") {
        Some(Argument::Text(v)) => Some(uppercase(v.as_str())),
        _ => None,
    };
    let args = SearchArgs {
        query,
        path: text_arg(call, "path"),
        ext: text_arg(call, "ext"),
        volume,
        min_size: count_arg(call, "min_size"),
        max_size: count_arg(call, "max_size"),
        modified_after,
        modified_before,
        hidden: flag_arg(call, "hidden"),
        system: flag_arg(call, "system"),
        limit: count_arg(call, "limit"),
        cursor: text_arg(call, "cursor"),
    };
    let ghost a = args;
    assert(is_search_args(call.arguments@, now as int, a));
    Some(ToolStep { note: Some(note), action: ToolAction::Ask(search_call(args)) })
}

/// What a history is for, as its call says.
pub open spec fn is_history_args(args: Seq<(String, Argument)>, now: int, cwd: Option<Seq<char>>, a: HistoryArgs) -> bool {
    &&& a.path@ == absolute_path(or_text(text_at(args, "path"@), ""@), cwd)
    &&& a.since == moment_at(text_at(args, "since"@), now)
    &&& a.until == moment_at(text_at(args, "until"@), now)
    &&& opt_text(a.kind) == text_at(args, "kind"@)
    &&& a.collapse == or_flag(flag_at(args, "collapse"@), true)
    &&& a.limit == count_at(args, "limit"@)
    &&& opt_text(a.cursor) == text_at(args, "cursor"@)
}

/// The step of a history.
pub open spec fn is_history_step(args: Seq<(String, Argument)>, now: int, cwd: Option<Seq<char>>, s: ToolStep) -> bool {
    exists|a: HistoryArgs|
        #[trigger] is_history_args(args, now, cwd, a) && asks_whole(
            s,
            note_of("disktracker_history(path="@, quoted_of(or_text(text_at(args, "path"@), ""@))),
            "get_history"@,
            history_call_params(a),
        )
}

fn history_step(call: &ToolCall, now: i64, cwd: &Option<String>) -> (r: Option<ToolStep>)
    requires
        EARLIEST_SECONDS <= now <= LATEST_SECONDS,
    ensures
        match r {
            None => too_far_at(text_at(call.arguments@, "since"@), now as int) || too_far_at(
                text_at(call.arguments@, "until"@),
                now as int,
            ),
            Some(s) => {
                &&& is_history_step(call.arguments@, now as int, opt_text(*cwd), s)
                &&& !too_far_at(text_at(call.arguments@, "since"@), now as int)
                &&& !too_far_at(text_at(call.arguments@, "until"@), now as int)
            },
        },
{
    let since = match moment_arg(call, "since", now) {
        None => {
            return None;
        },
        Some(at) => at,
    };
    let until = match moment_arg(call, "until", now) {
        None => {
            return None;
        },
        Some(at) => at,
    };
    let path = text_arg_or(call, "path", "");
    let note = note_one("disktracker_history(path=", path.as_str());
    let args = HistoryArgs {
        path: resolve_absolute_path(path.as_str(), cwd),
        since,
        until,
        kind: text_arg(call, "kind"),
        collapse: flag_arg_or(call, "collapse", true),
        limit: count_arg(call, "limit"),
        cursor: text_arg(call, "cursor"),
    };
    let ghost a = args;
    assert(is_history_args(call.arguments@, now as int, opt_text(*cwd), a));
    Some(ToolStep { note: Some(note), action: ToolAction::Ask(history_call(args)) })
}

/// An optional path, seen from a working directory.
pub open spec fn absolute_option(p: Option<Seq<char>>, cwd: Option<Seq<char>>) -> Option<Seq<char>> {
    match p {
        Some(s) => Some(absolute_path(s, cwd)),
        None => None,
    }
}

fn resolve_option(p: &Option<String>, cwd: &Option<String>) -> (r: Option<String>)
    ensures
        opt_text(r) == absolute_option(opt_text(*p), opt_text(*cwd)),
{
    match p {
        Some(s) => Some(resolve_absolute_path(s.as_str(), cwd)),
        None => None,
    }
}

/// The name of a volume that was given as a letter or as a name.
pub open spec fn full_volume(o: Option<Seq<char>>) -> Option<Seq<char>> {
    match o {
        Some(v) => if v.len() == 1 && v[0] <= '\u{7f}' {
            Some(seq![ascii_upper_char(v[0]), ':'])
        } else {
            Some(uppercase_of(v))
        },
        None => None,
    }
}

/// What a ranking is for, as its call says.
pub open spec fn is_top_args(args: Seq<(String, Argument)>, now: int, cwd: Option<Seq<char>>, a: TopArgs) -> bool {
    &&& opt_text(a.path) == absolute_option(text_at(args, "path"@), cwd)
    &&& opt_text(a.volume) == full_volume(text_at(args, "volume"@))
    &&& a.folders == or_flag(flag_at(args, "folders"@), false)
    &&& a.files == or_flag(flag_at(args, "files"@), false)
    &&& a.limit == count_at(args, "limit"@)
    &&& a.since == moment_at(text_at(args, "since"@), now)
    &&& opt_text(a.between_a) == text_at(args, "between_a"@)
    &&& opt_text(a.between_b) == text_at(args, "between_b"@)
    &&& a.growth == or_flag(flag_at(args, "growth"@), false)
    &&& a.churn == or_flag(flag_at(args, "churn"@), false)
    &&& opt_text(a.cursor) == text_at(args, "cursor"@)
}

/// The step of a ranking.
pub open spec fn is_top_step(args: Seq<(String, Argument)>, now: int, cwd: Option<Seq<char>>, s: ToolStep) -> bool {
    exists|a: TopArgs|
        #[trigger] is_top_args(args, now, cwd, a) && asks_whole(
            s,
            note_of_two(
                "disktracker_top(volume="@,
                shown_option(text_at(args, "volume"@)),
                ", path="@,
                shown_option(text_at(args, "path"@)),
            ),
            "get_top"@,
            top_call_params(a),
        )
}

fn top_step(call: &ToolCall, now: i64, cwd: &Option<String>) -> (r: Option<ToolStep>)
    requires
        EARLIEST_SECONDS <= now <= LATEST_SECONDS,
    ensures
        match r {
            None => too_far_at(text_at(call.arguments@, "since"@), now as int),
            Some(s) => {
                &&& is_top_step(call.arguments@, now as int, opt_text(*cwd), s)
                &&& !too_far_at(text_at(call.arguments@, "since"@), now as int)
            },
        },
{
    let since = match moment_arg(call, "since", now) {
        None => {
            return None;
        },
        Some(at) => at,
    };
    let volume = text_arg(call, "volume");
    let path = text_arg(call, "path");
    let shown_volume = show_option(&volume);
    let shown_path = show_option(&path);
    let note = note_two("disktracker_top(volume=", shown_volume.as_str(), ", path=", shown_path.as_str());
    let full = match &volume {
        Some(v) => Some(volume_name(v.as_str(), uppercase(v.as_str()))),
        None => None,
    };
    let args = TopArgs {
        path: resolve_option(&path, cwd),
        volume: full,
        folders: flag_arg_or(call, "folders", false),
        files: flag_arg_or(call, "files", false),
        limit: count_arg(call, "limit"),
        since,
        between_a: text_arg(call, "between_a"),
        between_b: text_arg(call, "between_b"),
        growth: flag_arg_or(call, "growth", false),
        churn: flag_arg_or(call, "churn", false),
        cursor: text_arg(call, "cursor"),
    };
    let ghost a = args;
    assert(is_top_args(call.arguments@, now as int, opt_text(*cwd), a));
    Some(ToolStep { note: Some(note), action: ToolAction::Ask(top_call(args)) })
}

fn whole_step(note: String, method: &str, params: Vec<(String, ParamValue)>) -> (s: ToolStep)
    ensures
        asks_whole(s, note@, method@, params_view(params@)),
{
    ToolStep {
        note: Some(note),
        action: ToolAction::Ask(DaemonCall { method: method.to_owned(), params, take: Take::Whole }),
    }
}

/// The step of a list of snapshots.
pub open spec fn is_list_step(args: Seq<(String, Argument)>, s: ToolStep) -> bool {
    asks_whole(
        s,
        note_of("disktracker_snapshot_list(volume="@, shown_option(text_at(args, "volume"@))),
        "snapshot_list"@,
        seq![
            ("volume"@, text_or_null(text_at(args, "volume"@))),
            ("limit"@, count_or_null(count_at(args, "limit"@))),
            ("cursor"@, text_or_null(text_at(args, "cursor"@))),
        ],
    )
}

fn list_step(call: &ToolCall) -> (s: ToolStep)
    ensures
        is_list_step(call.arguments@, s),
{
    let ghost args = call.arguments@;
    let volume = text_arg(call, "volume");
    let shown = show_option(&volume);
    let mut note = "disktracker_snapshot_list(volume=".to_owned();
    note.append(shown.as_str());
    note.append(")");
    let mut params = no_params();
    put(&mut params, "volume", text_param(volume));
    put(&mut params, "limit", count_param(count_arg(call, "limit")));
    put(&mut params, "cursor", text_param(text_arg(call, "cursor")));
    assert(params_view(params@) =~= seq![
        ("volume"@, text_or_null(text_at(args, "volume"@))),
        ("limit"@, count_or_null(count_at(args, "limit"@))),
        ("cursor"@, text_or_null(text_at(args, "cursor"@))),
    ]);
    whole_step(note, "snapshot_list", params)
}

/// The step of a comparison of two snapshots.
pub open spec fn is_diff_step(args: Seq<(String, Argument)>, cwd: Option<Seq<char>>, s: ToolStep) -> bool {
    let a = or_text(text_at(args, "snapshot_a"@), ""@);
    let b = or_text(text_at(args, "snapshot_b"@), ""@);
    asks_whole(
        s,
        note_of_two("disktracker_snapshot_diff(a="@, quoted_of(a), ", b="@, quoted_of(b)),
        "snapshot_diff"@,
        seq![
            ("snapshot_a"@, ValueView::Text(a)),
            ("snapshot_b"@, ValueView::Text(b)),
            ("path"@, text_or_null(absolute_option(text_at(args, "path"@), cwd))),
            ("limit"@, count_or_null(count_at(args, "limit"@))),
        ],
    )
}

fn diff_step(call: &ToolCall, cwd: &Option<String>) -> (s: ToolStep)
    ensures
        is_diff_step(call.arguments@, opt_text(*cwd), s),
{
    let ghost args = call.arguments@;
    let a = text_arg_or(call, "snapshot_a", "");
    let b = text_arg_or(call, "snapshot_b", "");
    let quoted_a = quoted(a.as_str());
    let quoted_b = quoted(b.as_str());
    let ghost want = seq![
        ("snapshot_a"@, ValueView::Text(a@)),
        ("snapshot_b"@, ValueView::Text(b@)),
        ("path"@, text_or_null(absolute_option(text_at(args, "path"@), opt_text(*cwd)))),
        ("limit"@, count_or_null(count_at(args, "limit"@))),
    ];
    let note = note_two("disktracker_snapshot_diff(a=", quoted_a.as_str(), ", b=", quoted_b.as_str());
    let path = text_arg(call, "path");
    let mut params = no_params();
    put(&mut params, "snapshot_a", ParamValue::Text(a));
    put(&mut params, "snapshot_b", ParamValue::Text(b));
    put(&mut params, "path", text_param(resolve_option(&path, cwd)));
    put(&mut params, "limit", count_param(count_arg(call, "limit")));
    assert(params_view(params@) =~= want);
    whole_step(note, "snapshot_diff", params)
}

/// The step of a query of the database.
pub open spec fn is_query_step(args: Seq<(String, Argument)>, s: ToolStep) -> bool {
    let query = or_text(text_at(args, "query"@), ""@);
    asks_whole(
        s,
        note_of("sqlite_read_query(query="@, quoted_of(query)),
        "sqlite_read_query"@,
        seq![("query"@, ValueView::Text(query))],
    )
}

fn query_step(call: &ToolCall) -> (s: ToolStep)
    ensures
        is_query_step(call.arguments@, s),
{
    let query = text_arg_or(call, "query", "");
    let ghost want = seq![("query"@, ValueView::Text(query@))];
    let note = note_one("sqlite_read_query(query=", query.as_str());
    let mut params = no_params();
    put(&mut params, "query", ParamValue::Text(query));
    assert(params_view(params@) =~= want);
    whole_step(note, "sqlite_read_query", params)
}

/// The step that looks a signature up.
pub open spec fn is_signature_step(args: Seq<(String, Argument)>, s: ToolStep) -> bool {
    let target = or_text(text_at(args, "target"@), ""@);
    &&& opt_text(s.note) == Some(note_of("fetch_signature(target="@, quoted_of(target)))
    &&& s.action matches ToolAction::Ask(c) && is_field_call(
        c,
        "fetch_signature"@,
        seq![("target"@, ValueView::Text(target))],
        "signature"@,
        ""@,
    )
}

fn signature_step(call: &ToolCall) -> (s: ToolStep)
    ensures
        is_signature_step(call.arguments@, s),
{
    let target = text_arg_or(call, "target", "");
    let ghost want = seq![("target"@, ValueView::Text(target@))];
    let note = note_one("fetch_signature(target=", target.as_str());
    let mut params = no_params();
    put(&mut params, "target", ParamValue::Text(target));
    assert(params_view(params@) =~= want);
    ToolStep {
        note: Some(note),
        action: ToolAction::Ask(
            DaemonCall {
                method: "fetch_signature".to_owned(),
                params,
                take: Take::Field { name: "signature".to_owned(), otherwise: "".to_owned() },
            },
        ),
    }
}

/// The step that asks the user, where there is one to ask.
pub open spec fn is_feedback_step(args: Seq<(String, Argument)>, interactive: bool, s: ToolStep) -> bool {
    let prompt = or_text(text_at(args, "prompt"@), ""@);
    &&& opt_text(s.note) == Some(note_of("disktracker_human_feedback(prompt="@, quoted_of(prompt)))
    &&& if interactive {
        s.action matches ToolAction::AskUser(p) && p@ == prompt
    } else {
        s.action matches ToolAction::Reply(t) && t@
            == "Error: Cannot request human feedback in exploratory (read-only) mode. Please run with the --interactive flag to enable human interaction."@
    }
}

fn feedback_step(call: &ToolCall, interactive: bool) -> (s: ToolStep)
    ensures
        is_feedback_step(call.arguments@, interactive, s),
{
    let prompt = text_arg_or(call, "prompt", "");
    let note = note_one("disktracker_human_feedback(prompt=", prompt.as_str());
    ToolStep {
        note: Some(note),
        action: if interactive {
            ToolAction::AskUser(prompt)
        } else {
            ToolAction::Reply(
                "Error: Cannot request human feedback in exploratory (read-only) mode. Please run with the --interactive flag to enable human interaction.".to_owned(),
            )
        },
    }
}

/// The step that is taken for a call without asking the user first. Tools that change
/// something are passed over, and so are those that do not exist.
pub open spec fn is_exec_step(call: ToolCall, interactive: bool, now: int, cwd: Option<Seq<char>>, s: ToolStep) -> bool {
    let args = call.arguments@;
    let name = call.name@;
    if name == "disktracker_search"@ {
        is_search_step(args, now, s)
    } else if name == "disktracker_history"@ {
        is_history_step(args, now, cwd, s)
    } else if name == "disktracker_top"@ {
        is_top_step(args, now, cwd, s)
    } else if name == "sqlite_read_query"@ {
        is_query_step(args, s)
    } else if name == "fetch_signature"@ {
        is_signature_step(args, s)
    } else if name == "cli_read_command"@ {
        let command = or_text(text_at(args, "command"@), ""@);
        &&& opt_text(s.note) == Some(note_of("cli_read_command(command="@, quoted_of(command)))
        &&& s.action matches ToolAction::Command(c) && c@ == command
    } else if name == "disktracker_status"@ {
        asks_whole(s, "disktracker_status"@, "status"@, Seq::empty())
    } else if name == "disktracker_doctor"@ {
        opt_text(s.note) == Some("disktracker_doctor"@) && s.action is Doctor
    } else if name == "disktracker_snapshot_list"@ {
        is_list_step(args, s)
    } else if name == "disktracker_snapshot_diff"@ {
        is_diff_step(args, cwd, s)
    } else if name == "disktracker_websearch"@ {
        let sought = or_text(text_at(args, "query"@), ""@);
        &&& opt_text(s.note) == Some(note_of("disktracker_websearch(query="@, quoted_of(sought)))
        &&& s.action matches ToolAction::WebSearch { query, limit } && query@ == sought && limit == (match count_at(
            args,
            "limit"@,
        ) {
            Some(n) => n,
            None => 5u64,
        })
    } else if name == "disktracker_human_feedback"@ {
        is_feedback_step(args, interactive, s)
    } else {
        s.note is None && s.action is Ignore
    }
}

/// A call names a moment that lies before all that can be held.
pub open spec fn names_too_far(call: ToolCall, now: int) -> bool {
    let args = call.arguments@;
    if call.name@ == "disktracker_search"@ {
        too_far_at(text_at(args, "modified_after"@), now) || too_far_at(text_at(args, "modified_before"@), now)
    } else if call.name@ == "disktracker_history"@ {
        too_far_at(text_at(args, "since"@), now) || too_far_at(text_at(args, "until"@), now)
    } else if call.name@ == "disktracker_top"@ {
        too_far_at(text_at(args, "since"@), now)
    } else {
        false
    }
}

/// Tells what is done for a call without asking the user first. There is no step for a
/// call that names a moment before all that can be held.
pub fn tool_step(call: &ToolCall, interactive: bool, now: i64, cwd: &Option<String>) -> (r: Option<ToolStep>)
    requires
        EARLIEST_SECONDS <= now <= LATEST_SECONDS,
    ensures
        match r {
            None => names_too_far(*call, now as int),
            Some(s) => !names_too_far(*call, now as int) && is_exec_step(
                *call,
                interactive,
                now as int,
                opt_text(*cwd),
                s,
            ),
        },
{
    let name = call.name.as_str();
    if str_eq(name, "disktracker_search") {
        search_step(call, now)
    } else if str_eq(name, "disktracker_history") {
        history_step(call, now, cwd)
    } else if str_eq(name, "disktracker_top") {
        top_step(call, now, cwd)
    } else {
        Some(plain_step(call, interactive, cwd))
    }
}

fn plain_step(call: &ToolCall, interactive: bool, cwd: &Option<String>) -> (s: ToolStep)
    requires
        call.name@ != "disktracker_search"@,
        call.name@ != "disktracker_history"@,
        call.name@ != "disktracker_top"@,
    ensures
        forall|now: int| #[trigger] is_exec_step(*call, interactive, now, opt_text(*cwd), s),
{
    let name = call.name.as_str();
    if str_eq(name, "sqlite_read_query") {
        query_step(call)
    } else if str_eq(name, "fetch_signature") {
        signature_step(call)
    } else if str_eq(name, "cli_read_command") {
        let command = text_arg_or(call, "command", "");
        let note = note_one("cli_read_command(command=", command.as_str());
        ToolStep { note: Some(note), action: ToolAction::Command(command) }
    } else if str_eq(name, "disktracker_status") {
        whole_step("disktracker_status".to_owned(), "status", no_params())
    } else if str_eq(name, "disktracker_doctor") {
        ToolStep { note: Some("disktracker_doctor".to_owned()), action: ToolAction::Doctor }
    } else if str_eq(name, "disktracker_snapshot_list") {
        list_step(call)
    } else if str_eq(name, "disktracker_snapshot_diff") {
        diff_step(call, cwd)
    } else if str_eq(name, "disktracker_websearch") {
        let query = text_arg_or(call, "query", "");
        let note = note_one("disktracker_websearch(query=", query.as_str());
        let limit: u64 = match count_arg(call, "limit") {
            Some(n) => n,
            None => 5,
        };
        ToolStep { note: Some(note), action: ToolAction::WebSearch { query, limit } }
    } else if str_eq(name, "disktracker_human_feedback") {
        feedback_step(call, interactive)
    } else {
        ToolStep { note: None, action: ToolAction::Ignore }
    }
}

/// What the user is asked to allow.
#[derive(Debug)]
pub enum Change {
    Command { command: String },
    Manage { action: String, label: String },
    /// The volumes as they are shown.
    Create { volumes: String, name: Option<String> },
    Delete { label: String },
}

/// A change that is made if the user allows it.
#[derive(Debug)]
pub struct Consent {
    pub note: String,
    pub change: Change,
    pub request: DaemonCall,
}

/// The list of an argument, as JSON and as it is shown.
pub open spec fn list_at(args: Seq<(String, Argument)>, key: Seq<char>) -> Option<(Seq<char>, Seq<char>)> {
    match arg_at(args, key) {
        Some(Argument::List { json, shown }) => Some((json@, shown@)),
        _ => None,
    }
}

/// An optional list as a parameter.
pub open spec fn list_or_null(list: Option<(Seq<char>, Seq<char>)>) -> ValueView {
    match list {
        Some(l) => ValueView::Json(l.0),
        None => ValueView::Null,
    }
}

/// A command that changes something.
pub open spec fn is_command_consent(args: Seq<(String, Argument)>, c: Consent) -> bool {
    let sought = or_text(text_at(args, "command"@), ""@);
    &&& c.note@ == note_of("cli_write_command(command="@, quoted_of(sought))
    &&& c.change matches Change::Command { command } && command@ == sought
    &&& is_field_call(
        c.request,
        "cli_write_command"@,
        seq![("command"@, ValueView::Text(sought))],
        "output"@,
        ""@,
    )
}

fn command_consent(call: &ToolCall) -> (c: Consent)
    ensures
        is_command_consent(call.arguments@, c),
{
    let command = text_arg_or(call, "command", "");
    let ghost want = seq![("command"@, ValueView::Text(command@))];
    let mut params = no_params();
    put(&mut params, "command", ParamValue::Text(command.clone()));
    assert(params_view(params@) =~= want);
    Consent {
        note: note_one("cli_write_command(command=", command.as_str()),
        change: Change::Command { command },
        request: DaemonCall {
            method: "cli_write_command".to_owned(),
            params,
            take: Take::Field { name: "output".to_owned(), otherwise: "".to_owned() },
        },
    }
}

/// The request that does something to a snapshot.
pub open spec fn is_manage_request(c: DaemonCall, action: Seq<char>, label: Seq<char>) -> bool {
    is_field_call(
        c,
        "snapshot_manage"@,
        seq![("action"@, ValueView::Text(action)), ("label"@, ValueView::Text(label))],
        "status"@,
        "ok"@,
    )
}

fn manage_request(action: &str, label: &str) -> (c: DaemonCall)
    ensures
        is_manage_request(c, action@, label@),
{
    let mut params = no_params();
    put(&mut params, "action", ParamValue::Text(action.to_owned()));
    put(&mut params, "label", ParamValue::Text(label.to_owned()));
    assert(params_view(params@) =~= seq![
        ("action"@, ValueView::Text(action@)),
        ("label"@, ValueView::Text(label@)),
    ]);
    DaemonCall {
        method: "snapshot_manage".to_owned(),
        params,
        take: Take::Field { name: "status".to_owned(), otherwise: "ok".to_owned() },
    }
}

/// A change of a snapshot.
pub open spec fn is_manage_consent(args: Seq<(String, Argument)>, c: Consent) -> bool {
    let act = or_text(text_at(args, "action"@), ""@);
    let name = or_text(text_at(args, "label"@), ""@);
    &&& c.note@ == note_of_two("snapshot_manage(action="@, quoted_of(act), ", label="@, quoted_of(name))
    &&& c.change matches Change::Manage { action, label } && action@ == act && label@ == name
    &&& is_manage_request(c.request, act, name)
}

fn manage_consent(call: &ToolCall) -> (c: Consent)
    ensures
        is_manage_consent(call.arguments@, c),
{
    let action = text_arg_or(call, "action", "");
    let label = text_arg_or(call, "label", "");
    let quoted_action = quoted(action.as_str());
    let quoted_label = quoted(label.as_str());
    Consent {
        note: note_two("snapshot_manage(action=", quoted_action.as_str(), ", label=", quoted_label.as_str()),
        request: manage_request(action.as_str(), label.as_str()),
        change: Change::Manage { action, label },
    }
}

/// A deletion of a snapshot.
pub open spec fn is_delete_consent(args: Seq<(String, Argument)>, c: Consent) -> bool {
    let name = or_text(text_at(args, "label"@), ""@);
    &&& c.note@ == note_of("disktracker_snapshot_delete(label="@, quoted_of(name))
    &&& c.change matches Change::Delete { label } && label@ == name
    &&& is_manage_request(c.request, "delete"@, name)
}

fn delete_consent(call: &ToolCall) -> (c: Consent)
    ensures
        is_delete_consent(call.arguments@, c),
{
    let label = text_arg_or(call, "label", "");
    Consent {
        note: note_one("disktracker_snapshot_delete(label=", label.as_str()),
        request: manage_request("delete", label.as_str()),
        change: Change::Delete { label },
    }
}

/// A new snapshot.
pub open spec fn is_create_consent(args: Seq<(String, Argument)>, c: Consent) -> bool {
    let list = list_at(args, "volumes"@);
    let given = text_at(args, "label"@);
    &&& c.note@ == note_of_two(
        "disktracker_snapshot_create(volumes="@,
        match list {
            Some(l) => "Some("@ + l.1 + ")"@,
            None => "None"@,
        },
        ", label="@,
        shown_option(given),
    )
    &&& c.change matches Change::Create { volumes, name } && volumes@ == (match list {
        Some(l) => l.1,
        None => "all registered volumes"@,
    }) && opt_text(name) == given
    &&& is_whole_call(
        c.request,
        "snapshot_create"@,
        seq![
            ("volumes"@, list_or_null(list)),
            ("label"@, text_or_null(given)),
        ],
    )
}

fn create_consent(call: &ToolCall) -> (c: Consent)
    ensures
        is_create_consent(call.arguments@, c),
{
    let ghost args = call.arguments@;
    let label = text_arg(call, "label");
    let shown_label = show_option(&label);
    let mut params = no_params();
    let mut noted = "None".to_owned();
    let mut volumes = "all registered volumes".to_owned();
    let mut value = ParamValue::Null;
    if let Some(Argument::List { json, shown }) = find_arg(&call.arguments, "volumes") {
        noted = "Some(".to_owned();
        noted.append(shown.as_str());
        noted.append(")");
        volumes = shown.clone();
        value = ParamValue::Json(json.clone());
    }
    let ghost list = list_at(args, "volumes"@);
    assert(noted@ == match list {
        Some(l) => "Some("@ + l.1 + ")"@,
        None => "None"@,
    });
    assert(volumes@ == match list {
        Some(l) => l.1,
        None => "all registered volumes"@,
    });
    put(&mut params, "volumes", value);
    put(&mut params, "label", text_param(text_arg(call, "label")));
    assert(params_view(params@) =~= seq![
        ("volumes"@, list_or_null(list)),
        ("label"@, text_or_null(text_at(args, "label"@))),
    ]);
    Consent {
        note: note_two(
            "disktracker_snapshot_create(volumes=",
            noted.as_str(),
            ", label=",
            shown_label.as_str(),
        ),
        change: Change::Create { volumes, name: label },
        request: DaemonCall { method: "snapshot_create".to_owned(), params, take: Take::Whole },
    }
}

/// What the user is asked to allow for a call.
pub open spec fn is_consent(call: ToolCall, c: Consent) -> bool {
    let args = call.arguments@;
    if call.name@ == "cli_write_command"@ {
        is_command_consent(args, c)
    } else if call.name@ == "snapshot_manage"@ {
        is_manage_consent(args, c)
    } else if call.name@ == "disktracker_snapshot_create"@ {
        is_create_consent(args, c)
    } else {
        is_delete_consent(args, c)
    }
}

/// Tells what the user is asked to allow for a call. Calls that change nothing are
/// passed over.
pub fn consent_step(call: &ToolCall) -> (r: Option<Consent>)
    ensures
        match r {
            Some(c) => is_mutating(call.name@) && is_consent(*call, c),
            None => !is_mutating(call.name@),
        },
{
    let name = call.name.as_str();
    if str_eq(name, "cli_write_command") {
        Some(command_consent(call))
    } else if str_eq(name, "snapshot_manage") {
        Some(manage_consent(call))
    } else if str_eq(name, "disktracker_snapshot_create") {
        Some(create_consent(call))
    } else if str_eq(name, "disktracker_snapshot_delete") {
        Some(delete_consent(call))
    } else {
        None
    }
}

/// An answer in lower case allows what was asked.
pub open spec fn allows(lower: Seq<char>) -> bool {
    lower == "y"@ || lower == "yes"@
}

/// Whether an answer in lower case allows what was asked.
pub fn is_yes(lower: &str) -> (r: bool)
    ensures
        r == allows(lower@),
{
    str_eq(lower, "y") || str_eq(lower, "yes")
}

/// Whether an answer of the user allows what was asked.
pub fn is_authorized(answer: &str) -> (r: bool)
    ensures
        r == allows(lowercase_of(trimmed(answer@))),
{
    let t = trim(answer);
    let l = lowercase(t.as_str());
    is_yes(l.as_str())
}

/// What comes of a change that the user was asked to allow.
pub enum Verdict {
    /// The daemon is asked to make the change.
    Make(DaemonCall),
    /// The change is not made, and this is the answer to the call.
    Abort(String),
}

/// Makes the change if the answer of the user, in lower case, allows it.
pub fn decide(consent: Consent, lower: &str) -> (v: Verdict)
    ensures
        match v {
            Verdict::Make(c) => allows(lower@) && c == consent.request,
            Verdict::Abort(t) => !allows(lower@) && t@ == "Action Aborted by User"@,
        },
{
    if is_yes(lower) {
        Verdict::Make(consent.request)
    } else {
        Verdict::Abort("Action Aborted by User".to_owned())
    }
}

/// What the daemon replied: all of it, as JSON, and the text of the field that was
/// asked for.
pub struct DaemonReply {
    pub json: String,
    pub field: Option<String>,
}

/// The answer to a call for which the daemon was asked.
pub open spec fn reply_text(take: Take, reply: Result<DaemonReply, String>) -> Seq<char> {
    match reply {
        Err(e) => "Error: "@ + e@,
        Ok(r) => match take {
            Take::Whole => r.json@,
            Take::Field { otherwise, .. } => or_text(opt_text(r.field), otherwise@),
        },
    }
}

/// The answer to a call for which the daemon was asked.
pub fn daemon_answer(take: &Take, reply: Result<DaemonReply, String>) -> (r: String)
    ensures
        r@ == reply_text(*take, reply),
{
    match reply {
        Err(e) => {
            let mut r = "Error: ".to_owned();
            r.append(e.as_str());
            r
        },
        Ok(reply) => match take {
            Take::Whole => reply.json,
            Take::Field { name: _, otherwise } => match reply.field {
                Some(text) => text,
                None => otherwise.clone(),
            },
        },
    }
}

/// A tool that changes something does nothing where the user is not asked.
pub proof fn law_changes_not_run(call: ToolCall, interactive: bool, now: int, cwd: Option<Seq<char>>, s: ToolStep)
    requires
        is_mutating(call.name@),
        is_exec_step(call, interactive, now, cwd, s),
    ensures
        s.note is None,
        s.action is Ignore,
{
    reveal_strlit("cli_write_command");
    reveal_strlit("snapshot_manage");
    reveal_strlit("disktracker_snapshot_create");
    reveal_strlit("disktracker_snapshot_delete");
    reveal_strlit("disktracker_search");
    reveal_strlit("disktracker_history");
    reveal_strlit("disktracker_top");
    reveal_strlit("sqlite_read_query");
    reveal_strlit("fetch_signature");
    reveal_strlit("cli_read_command");
    reveal_strlit("disktracker_status");
    reveal_strlit("disktracker_doctor");
    reveal_strlit("disktracker_snapshot_list");
    reveal_strlit("disktracker_snapshot_diff");
    reveal_strlit("disktracker_websearch");
    reveal_strlit("disktracker_human_feedback");
    assert("snapshot_manage"@[0] == 's');
    assert("disktracker_top"@[0] == 'd');
    assert("fetch_signature"@[0] == 'f');
    assert("sqlite_read_query"@[0] == 's');
    assert("cli_write_command"@[0] == 'c');
    assert("cli_write_command"@.len() == 17);
    assert("snapshot_manage"@.len() == 15);
    assert("disktracker_snapshot_create"@.len() == 27);
    assert("disktracker_snapshot_delete"@.len() == 27);
    assert("disktracker_search"@.len() == 18);
    assert("disktracker_history"@.len() == 19);
    assert("disktracker_top"@.len() == 15);
    assert("sqlite_read_query"@.len() == 17);
    assert("fetch_signature"@.len() == 15);
    assert("cli_read_command"@.len() == 16);
    assert("disktracker_status"@.len() == 18);
    assert("disktracker_doctor"@.len() == 18);
    assert("disktracker_snapshot_list"@.len() == 25);
    assert("disktracker_snapshot_diff"@.len() == 25);
    assert("disktracker_websearch"@.len() == 21);
    assert("disktracker_human_feedback"@.len() == 26);
}

} // verus!
