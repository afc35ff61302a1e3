use disktracker::agent::{next_node, Argument, AskState, Message, Node, ToolCall};
use disktracker::agent_calls::{
    consent_step, daemon_answer, decide, is_authorized, resolve_absolute_path, search_call,
    tool_step, volume_name, Change, DaemonCall, DaemonReply, ParamValue, SearchArgs, Take,
    ToolAction, Verdict,
};
use disktracker::agent_service::{
    chat_url, check_ai_configuration_validity, command_allowed, command_answered, command_replied,
    detect_shell, plan_web_search, read_reply, run_command, system_prompt, update_ai_config,
    web_plan, web_results, AiConfig, Chunk, CommandStep, RawReply, ReplyText, Retry, WebItem,
    WebPlan,
};
use disktracker::agent_tools::{get_tools, ParamKind};

fn call(name: &str, arguments: Vec<(&str, Argument)>) -> ToolCall {
    ToolCall {
        id: "call_1".to_string(),
        name: name.to_string(),
        arguments: arguments.into_iter().map(|(k, v)| (k.to_string(), v)).collect(),
    }
}

fn text(s: &str) -> Argument {
    Argument::Text(s.to_string())
}

fn asked(calls: Vec<ToolCall>, interactive: bool) -> AskState {
    let mut s = AskState::ask("what grew?", interactive, None);
    s.take_reply("looking".to_string(), calls);
    s
}

fn request(action: ToolAction) -> DaemonCall {
    match action {
        ToolAction::Ask(c) => c,
        _ => panic!("the daemon is not asked"),
    }
}

fn param(c: &DaemonCall, key: &str) -> String {
    let (_, v) = c.params.iter().find(|(k, _)| k == key).unwrap();
    match v {
        ParamValue::Null => "null".to_string(),
        ParamValue::Text(s) => s.clone(),
        ParamValue::Count(n) => n.to_string(),
        ParamValue::Time(t) => t.to_string(),
        ParamValue::Flag(b) => b.to_string(),
        ParamValue::Json(s) => s.clone(),
    }
}

#[test]
fn test_detect_shell() {
    let shell = detect_shell(false, false);
    assert!(!shell.is_empty());
    assert_eq!(shell, "Bash/Sh");
    assert_eq!(detect_shell(true, true), "PowerShell");
    assert_eq!(detect_shell(true, false), "CMD");
}

#[test]
fn test_tools_definition() {
    let tools = get_tools();
    assert_eq!(tools.len(), 16);
    assert_eq!(tools[0].name, "sqlite_read_query");
    assert_eq!(tools[1].name, "fetch_signature");
    assert_eq!(tools[2].name, "cli_read_command");
    assert_eq!(tools[3].name, "cli_write_command");
    assert_eq!(tools[4].name, "snapshot_manage");
    assert_eq!(tools[5].name, "disktracker_status");
    assert_eq!(tools[6].name, "disktracker_doctor");
    assert_eq!(tools[7].name, "disktracker_search");
    assert_eq!(tools[8].name, "disktracker_history");
    assert_eq!(tools[9].name, "disktracker_top");
    assert_eq!(tools[10].name, "disktracker_snapshot_list");
    assert_eq!(tools[11].name, "disktracker_snapshot_diff");
    assert_eq!(tools[12].name, "disktracker_snapshot_create");
    assert_eq!(tools[13].name, "disktracker_snapshot_delete");
    assert_eq!(tools[14].name, "disktracker_websearch");
    assert_eq!(tools[15].name, "disktracker_human_feedback");
}

#[test]
fn tools_say_what_they_take() {
    let tools = get_tools();
    assert_eq!(tools[0].required, vec!["query"]);
    assert_eq!(tools[4].params[0].options, vec!["delete", "compress"]);
    assert_eq!(tools[4].required, vec!["action", "label"]);
    assert!(tools[5].params.is_empty());
    assert_eq!(tools[7].params.len(), 11);
    assert_eq!(tools[7].params[4].kind, ParamKind::Integer);
    assert_eq!(tools[8].params[3].options.len(), 4);
    assert_eq!(tools[12].params[0].kind, ParamKind::TextList);
    assert!(tools[12].required.is_empty());
}

#[test]
fn changes_go_to_the_user_or_nowhere() {
    let read = || call("disktracker_status", vec![]);
    let write = || call("cli_write_command", vec![("command", text("rm x"))]);
    assert_eq!(next_node(Node::Planner, &asked(vec![read()], false)), Some(Node::ToolExec));
    assert_eq!(
        next_node(Node::Planner, &asked(vec![read(), write()], true)),
        Some(Node::HumanInterrupt)
    );
    assert_eq!(
        next_node(Node::Planner, &asked(vec![write()], false)),
        Some(Node::ToolRejectNonInteractive)
    );
    assert_eq!(next_node(Node::Planner, &asked(vec![], true)), None);
    assert_eq!(next_node(Node::ToolExec, &asked(vec![], true)), Some(Node::Planner));
    let mut s = asked(vec![read()], false);
    s.round_count = 12;
    assert_eq!(next_node(Node::Planner, &s), None);
    assert!(!s.can_plan());
}

#[test]
fn an_answer_ends_the_conversation() {
    let mut s = AskState::ask("q", true, None);
    s.take_reply("42".to_string(), vec![]);
    assert_eq!(s.final_answer.as_deref(), Some("42"));
    assert!(s.messages[1].tool_calls.is_none());
    let again = AskState::ask("more", false, Some(s));
    assert_eq!(again.final_answer, None);
    assert_eq!(again.messages.len(), 3);
    assert_eq!(again.messages[2].role, "user");
    assert!(!again.interactive);
}

#[test]
fn rejected_calls_are_answered() {
    let mut s = asked(vec![call("a", vec![]), call("b", vec![])], false);
    s.reject_calls();
    assert_eq!(s.round_count, 1);
    assert_eq!(s.messages.len(), 4);
    assert_eq!(s.messages[3].role, "tool");
    assert_eq!(s.messages[3].tool_call_id.as_deref(), Some("call_1"));
    assert!(s.messages[2].content.starts_with("Error: Cannot execute mutating commands"));
}

#[test]
fn rounds_hand_out_the_calls() {
    let mut s = asked(vec![call("a", vec![("k", Argument::Count(3))])], false);
    let calls = s.begin_round();
    assert_eq!(calls.len(), 1);
    assert_eq!(calls[0].name, "a");
    s.answer("done", &calls[0].id);
    s.note("a".to_string());
    assert_eq!(s.messages.last().unwrap().content, "done");
    assert_eq!(s.data_used, vec!["a"]);
}

#[test]
fn states_are_merged() {
    let mut a = AskState::ask("first", false, None);
    a.note("x".to_string());
    let mut b = AskState::ask("second", true, None);
    b.messages.push(Message::tool("t", "1"));
    b.note("y".to_string());
    b.note("x".to_string());
    b.note("y".to_string());
    b.round_count = 3;
    a.merge(b);
    assert_eq!(a.question, "second");
    assert_eq!(a.messages.len(), 2);
    assert_eq!(a.data_used, vec!["x", "y"]);
    assert_eq!(a.round_count, 3);
    assert!(a.interactive);
    let mut empty = AskState::ask("", false, None);
    empty.messages.clear();
    a.merge(empty);
    assert_eq!(a.question, "second");
    assert_eq!(a.messages.len(), 2);
}

#[test]
fn a_search_takes_the_drive_from_its_path() {
    let c = call(
        "disktracker_search",
        vec![
            ("query", text("a\"b")),
            ("path", text("d:\\data\\old")),
            ("volume", text("c:")),
            ("limit", Argument::Count(7)),
            ("modified_after", text("24H")),
        ],
    );
    let step = tool_step(&c, false, 1_000_000, &None).unwrap();
    assert_eq!(step.note.as_deref(), Some("disktracker_search(query=\"a\\\"b\")"));
    let r = request(step.action);
    assert_eq!(r.method, "search_query");
    assert_eq!(param(&r, "path"), "data/old");
    assert_eq!(param(&r, "volume"), "D:");
    assert_eq!(param(&r, "limit"), "7");
    assert_eq!(param(&r, "modified_after"), (1_000_000 - 86400).to_string());
    assert_eq!(param(&r, "ext"), "null");
    let c = call("disktracker_search", vec![("volume", text("c:")), ("path", text("data"))]);
    let r = request(tool_step(&c, false, 0, &None).unwrap().action);
    assert_eq!(param(&r, "query"), "*");
    assert_eq!(param(&r, "volume"), "C:");
    assert_eq!(param(&r, "path"), "data");
    let args = SearchArgs {
        query: "*".to_string(),
        path: Some("C:\\".to_string()),
        ext: None,
        volume: None,
        min_size: None,
        max_size: Some(9),
        modified_after: None,
        modified_before: None,
        hidden: Some(true),
        system: None,
        limit: None,
        cursor: None,
    };
    let r = search_call(args);
    assert_eq!(param(&r, "path"), "null");
    assert_eq!(param(&r, "volume"), "C:");
    assert_eq!(param(&r, "max_size"), "9");
    assert_eq!(param(&r, "hidden"), "true");
}

#[test]
fn a_time_before_all_time_has_no_step() {
    let c = call("disktracker_history", vec![("since", text("900000y"))]);
    assert!(tool_step(&c, false, 0, &None).is_none());
}

#[test]
fn histories_and_rankings_resolve_paths() {
    let cwd = Some("/home/u".to_string());
    let c = call("disktracker_history", vec![("path", text("docs")), ("since", text("no time"))]);
    let step = tool_step(&c, false, 0, &cwd).unwrap();
    assert_eq!(step.note.as_deref(), Some("disktracker_history(path=\"docs\")"));
    let r = request(step.action);
    assert_eq!(r.method, "get_history");
    assert_eq!(param(&r, "path"), "/home/u/docs");
    assert_eq!(param(&r, "since"), "null");
    assert_eq!(param(&r, "collapse"), "true");
    let c = call("disktracker_top", vec![("volume", text("c")), ("growth", Argument::Flag(true))]);
    let step = tool_step(&c, false, 0, &cwd).unwrap();
    assert_eq!(step.note.as_deref(), Some("disktracker_top(volume=Some(\"c\"), path=None)"));
    let r = request(step.action);
    assert_eq!(param(&r, "volume"), "C:");
    assert_eq!(param(&r, "growth"), "true");
    assert_eq!(param(&r, "path"), "null");
    assert_eq!(resolve_absolute_path("/x", &cwd), "/x");
    assert_eq!(resolve_absolute_path("x", &Some("/".to_string())), "/x");
    assert_eq!(resolve_absolute_path("x", &None), "x");
    assert_eq!(volume_name("data", "DATA".to_string()), "DATA");
}

#[test]
fn the_other_tools_ask_for_what_they_are_for() {
    let step = |c: &ToolCall, interactive: bool| tool_step(c, interactive, 0, &None).unwrap();
    let r = request(step(&call("sqlite_read_query", vec![("query", text("SELECT 1"))]), false).action);
    assert_eq!((r.method.as_str(), param(&r, "query").as_str()), ("sqlite_read_query", "SELECT 1"));
    let r = request(step(&call("fetch_signature", vec![("target", text("Steam"))]), false).action);
    assert!(matches!(r.take, Take::Field { .. }));
    let s = step(&call("cli_read_command", vec![("command", text("df"))]), false);
    assert!(matches!(s.action, ToolAction::Command(c) if c == "df"));
    let s = step(&call("disktracker_doctor", vec![]), false);
    assert!(matches!(s.action, ToolAction::Doctor));
    let r = request(step(&call("disktracker_status", vec![]), false).action);
    assert!(r.params.is_empty());
    let s = step(&call("disktracker_snapshot_list", vec![]), false);
    assert_eq!(s.note.as_deref(), Some("disktracker_snapshot_list(volume=None)"));
    let s = step(
        &call("disktracker_snapshot_diff", vec![("snapshot_a", text("a")), ("snapshot_b", text("b"))]),
        false,
    );
    assert_eq!(s.note.as_deref(), Some("disktracker_snapshot_diff(a=\"a\", b=\"b\")"));
    let s = step(&call("disktracker_websearch", vec![("query", text("x"))]), false);
    assert!(matches!(s.action, ToolAction::WebSearch { limit: 5, .. }));
    let feedback = call("disktracker_human_feedback", vec![("prompt", text("which?"))]);
    assert!(matches!(step(&feedback, true).action, ToolAction::AskUser(p) if p == "which?"));
    assert!(matches!(step(&feedback, false).action, ToolAction::Reply(_)));
    let s = step(&call("cli_write_command", vec![("command", text("rm"))]), true);
    assert!(matches!(s.action, ToolAction::Ignore));
    assert_eq!(s.note, None);
}

#[test]
fn changes_are_made_only_if_allowed() {
    let c = consent_step(&call("disktracker_snapshot_delete", vec![("label", text("old"))])).unwrap();
    assert_eq!(c.note, "disktracker_snapshot_delete(label=\"old\")");
    assert!(matches!(&c.change, Change::Delete { label } if label == "old"));
    assert_eq!(param(&c.request, "action"), "delete");
    match decide(c, "no") {
        Verdict::Abort(t) => assert_eq!(t, "Action Aborted by User"),
        Verdict::Make(_) => panic!("not allowed"),
    }
    let c = consent_step(&call(
        "disktracker_snapshot_create",
        vec![(
            "volumes",
            Argument::List {
                json: "[\"C:\"]".to_string(),
                shown: "[String(\"C:\")]".to_string(),
            },
        )],
    ))
    .unwrap();
    assert_eq!(
        c.note,
        "disktracker_snapshot_create(volumes=Some([String(\"C:\")]), label=None)"
    );
    assert_eq!(param(&c.request, "volumes"), "[\"C:\"]");
    assert!(matches!(decide(c, "yes"), Verdict::Make(r) if r.method == "snapshot_create"));
    let c = consent_step(&call("cli_write_command", vec![("command", text("rm x"))])).unwrap();
    assert_eq!(param(&c.request, "command"), "rm x");
    let c = consent_step(&call("snapshot_manage", vec![("action", text("compress"))])).unwrap();
    assert_eq!(c.note, "snapshot_manage(action=\"compress\", label=\"\")");
    assert!(consent_step(&call("disktracker_status", vec![])).is_none());
    assert!(is_authorized(" YES \n"));
    assert!(is_authorized("y"));
    assert!(!is_authorized(""));
}

#[test]
fn replies_are_taken_in_part_or_whole() {
    let reply = |field: Option<&str>| {
        Ok(DaemonReply { json: "{}".to_string(), field: field.map(|s| s.to_string()) })
    };
    let field = Take::Field { name: "status".to_string(), otherwise: "ok".to_string() };
    assert_eq!(daemon_answer(&Take::Whole, reply(Some("x"))), "{}");
    assert_eq!(daemon_answer(&field, reply(Some("x"))), "x");
    assert_eq!(daemon_answer(&field, reply(None)), "ok");
    assert_eq!(daemon_answer(&field, Err("down".to_string())), "Error: down");
}

#[test]
fn the_model_is_asked_three_times() {
    let mut r = Retry::new();
    assert_eq!(r.failed(), Some(500));
    assert_eq!(r.failed(), Some(1000));
    assert_eq!(r.failed(), None);
}

#[test]
fn pieces_of_a_reply_are_put_together() {
    let mut r = ReplyText::new();
    r.take(Chunk { content: "ab".to_string(), tool_calls: None });
    r.take(Chunk { content: "c".to_string(), tool_calls: Some(vec![call("x", vec![])]) });
    r.take(Chunk { content: String::new(), tool_calls: Some(vec![call("y", vec![])]) });
    assert_eq!(r.content, "abc");
    assert_eq!(r.calls.len(), 2);
    assert_eq!(r.calls[1].name, "y");
}

fn config() -> AiConfig {
    AiConfig {
        base_url: Some(" https://api.example/v1/ ".to_string()),
        model: Some("m".to_string()),
        chat_session_store: false,
        websearch_provider: Some("Google".to_string()),
        websearch_cx: Some("e ngine".to_string()),
    }
}

#[test]
fn settings_are_checked_in_order() {
    let key = Some(" k ".to_string());
    let a = check_ai_configuration_validity(&config(), &key).unwrap();
    assert_eq!(a.base_url, "https://api.example/v1/");
    assert_eq!(a.api_key, "k");
    assert_eq!(chat_url(&a.base_url), "https://api.example/v1/chat/completions");
    let mut c = config();
    c.model = Some("  ".to_string());
    assert!(check_ai_configuration_validity(&c, &key).err().unwrap().contains("model is not set"));
    c.base_url = None;
    assert!(check_ai_configuration_validity(&c, &key).err().unwrap().contains("base-url is not set"));
    assert!(check_ai_configuration_validity(&config(), &None).err().unwrap().contains("api-key is not set"));
    let c = update_ai_config(config(), None, Some("n".to_string()), Some(true));
    assert_eq!(c.model.as_deref(), Some("n"));
    assert_eq!(c.base_url, config().base_url);
    assert!(c.chat_session_store);
}

#[test]
fn the_prompt_names_shell_and_system() {
    let p = system_prompt("Bash/Sh", "linux");
    assert!(p.contains("- Shell Mode: Bash/Sh\n- Operating System: linux\n\nINSTRUCTIONS:\n1. "));
    assert!(p.starts_with("You are AI AGENT"));
    assert!(p.ends_with("DO NOT query in infinite loops."));
}

#[test]
fn replies_of_the_daemon_are_read() {
    let reply = |has_error: bool, message: Option<&str>, result: Option<&str>| {
        read_reply(RawReply {
            has_error,
            error_message: message.map(|s| s.to_string()),
            result: result.map(|s| s.to_string()),
        })
    };
    assert_eq!(reply(false, None, Some("1")), Ok("1".to_string()));
    assert_eq!(reply(true, Some("bad"), Some("1")), Err("bad".to_string()));
    assert_eq!(reply(true, None, None), Err("Unknown error".to_string()));
    assert_eq!(
        reply(false, None, None),
        Err("Missing result and error in JSON-RPC response".to_string())
    );
}

#[test]
fn commands_are_allowed_by_the_user() {
    assert!(matches!(run_command("write"), CommandStep::Run(m) if m == "cli_write_command"));
    assert!(matches!(run_command("read"), CommandStep::Run(m) if m == "cli_read_command"));
    assert!(matches!(command_replied(Ok(None)), CommandStep::Done(Ok(s)) if s.is_empty()));
    let asked = command_replied(Err("E_COMMAND_NOT_WHITELISTED:  lsblk ".to_string()));
    assert!(matches!(asked, CommandStep::AskToAllow(w) if w == "lsblk"));
    assert!(matches!(command_replied(Err("x".to_string())), CommandStep::Done(Err(e)) if e == "x"));
    assert!(matches!(command_answered("ls".to_string(), "y"), CommandStep::Allow(w) if w == "ls"));
    assert!(matches!(
        command_answered("ls".to_string(), "n"),
        CommandStep::Done(Err(e)) if e == "Command 'ls' execution denied by user."
    ));
    assert!(matches!(command_allowed("read", Ok(())), CommandStep::Run(_)));
    assert!(matches!(
        command_allowed("read", Err("no".to_string())),
        CommandStep::Done(Err(e)) if e == "Failed to add command to whitelist: no"
    ));
}

#[test]
fn the_web_is_searched_by_the_provider_with_a_key() {
    match plan_web_search(&config(), "k&y", "a b/\u{e9}~", 3) {
        WebPlan::Google { url } => assert_eq!(
            url,
            "https://www.googleapis.com/customsearch/v1?q=a%20b%2F%C3%A9~&key=k%26y&cx=e%20ngine&num=3"
        ),
        _ => panic!("another provider"),
    }
    assert!(matches!(plan_web_search(&config(), "", "a", 3), WebPlan::Fallback));
    assert!(matches!(web_plan("tavily", "k", &None, "a", 3), WebPlan::Tavily));
    assert!(matches!(web_plan("google", "k", &None, "a", 3), WebPlan::Fallback));
    match web_plan("brave", "k", &None, "a+b", 10) {
        WebPlan::Brave { url } => {
            assert_eq!(url, "https://api.search.brave.com/res/v1/web/search?q=a%2Bb&count=10")
        }
        _ => panic!("another provider"),
    }
}

#[test]
fn pages_are_numbered_from_one() {
    let items = vec![
        WebItem { title: Some("t".to_string()), url: None, snippet: None },
        WebItem { title: None, url: Some("u".to_string()), snippet: Some("s".to_string()) },
    ];
    let r = web_results(&items);
    assert_eq!((r[0].title.as_str(), r[0].url.as_str(), r[0].ref_index), ("t", "", 1));
    assert_eq!((r[1].snippet.as_str(), r[1].url.as_str(), r[1].ref_index), ("s", "u", 2));
}
