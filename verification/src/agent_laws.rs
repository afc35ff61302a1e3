//! What the agent does with the replies of the model and the answers of the user, and what
//! requests ask for.

use crate::agent::{after_planner, is_merged, last_calls, Argument, AskState, Node, ToolCall};
use crate::agent_calls::{
    absolute_path, allows, arg_at, asks_whole, history_call_params, is_consent, is_exec_step,
    is_search_args, is_whole_call, note_of, params_view, search_params, top_call_params, value_view,
    Consent, DaemonCall, HistoryArgs, SearchArgs, ToolStep, TopArgs, ValueView,
};
use crate::agent_service::{chunk_calls, chunk_text, without_slashes, Chunk};
use crate::config::AppConfig;
use crate::rpc::{is_update, setting_error, ConfigKey, ConfigUpdate};
use crate::text::{opt_text, views};
use crate::top::Measure;
use crate::top_request::{is_plan, refusal, TopParams, TopPlan};
use vstd::prelude::*;

verus! {

/// Of the tools, those that write, manage, create or delete change something: where one of
/// them is called the user is asked first, or the calls are refused if there is none to ask.
/// All other calls are run, up to the last round.
pub proof fn law_tools_that_change(s: AskState)
    requires
        s.round_count < 12,
        s.messages@.len() > 0,
        s.messages@.last().tool_calls is Some,
        s.messages@.last().tool_calls->0@.len() > 0,
    ensures
        ({
            let calls = s.messages@.last().tool_calls->0@;
            if exists|i: int|
                0 <= i < calls.len() && ((#[trigger] calls[i]).name@ == "cli_write_command"@ || calls[i].name@
                    == "snapshot_manage"@ || calls[i].name@ == "disktracker_snapshot_create"@ || calls[i].name@
                    == "disktracker_snapshot_delete"@) {
                after_planner(s) == Some(
                    if s.interactive {
                        Node::HumanInterrupt
                    } else {
                        Node::ToolRejectNonInteractive
                    },
                )
            } else {
                after_planner(s) == Some(Node::ToolExec)
            }
        }),
{
    let calls = s.messages@.last().tool_calls->0@;
    assert(last_calls(s.messages@) == calls);
    if exists|i: int|
        0 <= i < calls.len() && ((#[trigger] calls[i]).name@ == "cli_write_command"@ || calls[i].name@ == "snapshot_manage"@
            || calls[i].name@ == "disktracker_snapshot_create"@ || calls[i].name@ == "disktracker_snapshot_delete"@) {
        let i = choose|i: int|
            0 <= i < calls.len() && ((#[trigger] calls[i]).name@ == "cli_write_command"@ || calls[i].name@
                == "snapshot_manage"@ || calls[i].name@ == "disktracker_snapshot_create"@ || calls[i].name@
                == "disktracker_snapshot_delete"@);
        assert(crate::agent::is_mutating(calls[i].name@));
    } else {
        assert forall|i: int| 0 <= i < calls.len() implies !crate::agent::is_mutating((#[trigger] calls[i]).name@) by {}
    }
}

/// After the twelfth round, and where the last message calls no tool, the agent ends.
pub proof fn law_agent_ends(s: AskState)
    ensures
        s.round_count >= 12 || s.messages@.len() == 0 || s.messages@.last().tool_calls is None
            || s.messages@.last().tool_calls->0@.len() == 0 ==> after_planner(s) is None,
{
}

/// Taking another state over never shortens the conversation, takes over a question and an
/// answer where there is one, and counts the rounds of the other state.
pub proof fn law_merged_state(a: AskState, b: AskState, r: AskState)
    requires
        is_merged(a, b, r),
    ensures
        r.messages@.len() >= a.messages@.len(),
        b.messages@.len() > 0 && b.messages@.len() >= a.messages@.len() ==> r.messages@ == b.messages@,
        b.messages@.len() < a.messages@.len() ==> r.messages@ == a.messages@,
        b.question@.len() > 0 ==> r.question@ == b.question@,
        b.question@.len() == 0 ==> r.question@ == a.question@,
        b.final_answer is Some ==> r.final_answer == b.final_answer,
        b.final_answer is None ==> r.final_answer == a.final_answer,
        r.round_count == b.round_count,
{
}

/// Only the letter y and the word yes allow a change.
pub proof fn law_allows(lower: Seq<char>)
    ensures
        allows(lower) <==> lower == seq!['y'] || lower == seq!['y', 'e', 's'],
{
    reveal_strlit("y");
    reveal_strlit("yes");
    assert("y"@ =~= seq!['y']);
    assert("yes"@ =~= seq!['y', 'e', 's']);
}

/// A path from the root stands for itself; any other one is put behind the working directory
/// and a slash.
pub proof fn law_absolute_path(p: Seq<char>, dir: Seq<char>)
    ensures
        absolute_path(seq!['/'] + p, Some(dir)) == seq!['/'] + p,
        absolute_path(p, None) == p,
        (p.len() == 0 || p[0] != '/') && dir.len() > 0 && dir.last() != '/' ==> absolute_path(p, Some(dir)) == dir + seq![
            '/',
        ] + p,
        (p.len() == 0 || p[0] != '/') && dir.len() > 0 && dir.last() == '/' ==> absolute_path(p, Some(dir)) == dir + p,
{
    assert((seq!['/'] + p)[0] == '/');
}

/// The value of a parameter of a request.
pub open spec fn has_param(c: DaemonCall, name: Seq<char>, v: ValueView) -> bool {
    exists|i: int| 0 <= i < c.params@.len() && (#[trigger] c.params@[i]).0@ == name && value_view(c.params@[i].1) == v
}

proof fn lemma_param(c: DaemonCall, params: Seq<(Seq<char>, ValueView)>, i: int)
    requires
        params_view(c.params@) == params,
        0 <= i < params.len(),
    ensures
        has_param(c, params[i].0, params[i].1),
{
    assert(params_view(c.params@)[i] == (c.params@[i].0@, value_view(c.params@[i].1)));
    assert(c.params@[i].0@ == params[i].0);
}

/// A search asks the daemon for what it is given, each under its name.
pub proof fn law_search_call(a: SearchArgs, c: DaemonCall)
    requires
        is_whole_call(c, "search_query"@, search_params(a)),
    ensures
        has_param(c, "query"@, ValueView::Text(a.query@)),
        a.ext is Some ==> has_param(c, "ext"@, ValueView::Text(a.ext->0@)),
        a.path is None && a.volume is Some ==> has_param(c, "volume"@, ValueView::Text(a.volume->0@)),
        a.min_size is Some ==> has_param(c, "min_size"@, ValueView::Count(a.min_size->0 as int)),
        a.max_size is Some ==> has_param(c, "max_size"@, ValueView::Count(a.max_size->0 as int)),
        a.modified_after is Some ==> has_param(c, "modified_after"@, ValueView::Time(a.modified_after->0 as int)),
        a.modified_before is Some ==> has_param(c, "modified_before"@, ValueView::Time(a.modified_before->0 as int)),
        a.hidden is Some ==> has_param(c, "hidden"@, ValueView::Flag(a.hidden->0)),
        a.system is Some ==> has_param(c, "system"@, ValueView::Flag(a.system->0)),
        a.limit is Some ==> has_param(c, "limit"@, ValueView::Count(a.limit->0 as int)),
        a.cursor is Some ==> has_param(c, "cursor"@, ValueView::Text(a.cursor->0@)),
{
    let ps = search_params(a);
    assert forall|i: int| 0 <= i < ps.len() implies has_param(c, (#[trigger] ps[i]).0, ps[i].1) by {
        lemma_param(c, ps, i);
    }
    assert(has_param(c, ps[0].0, ps[0].1) && has_param(c, ps[2].0, ps[2].1) && has_param(c, ps[3].0, ps[3].1));
    assert(has_param(c, ps[4].0, ps[4].1) && has_param(c, ps[5].0, ps[5].1) && has_param(c, ps[6].0, ps[6].1));
    assert(has_param(c, ps[7].0, ps[7].1) && has_param(c, ps[8].0, ps[8].1) && has_param(c, ps[9].0, ps[9].1));
    assert(has_param(c, ps[10].0, ps[10].1) && has_param(c, ps[11].0, ps[11].1));
}

/// A history asks the daemon for what it is given, each under its name.
pub proof fn law_history_call(a: HistoryArgs, c: DaemonCall)
    requires
        is_whole_call(c, "get_history"@, history_call_params(a)),
    ensures
        has_param(c, "path"@, ValueView::Text(a.path@)),
        a.since is Some ==> has_param(c, "since"@, ValueView::Time(a.since->0 as int)),
        a.until is Some ==> has_param(c, "until"@, ValueView::Time(a.until->0 as int)),
        a.kind is Some ==> has_param(c, "kind"@, ValueView::Text(a.kind->0@)),
        has_param(c, "collapse"@, ValueView::Flag(a.collapse)),
        a.limit is Some ==> has_param(c, "limit"@, ValueView::Count(a.limit->0 as int)),
        a.cursor is Some ==> has_param(c, "cursor"@, ValueView::Text(a.cursor->0@)),
{
    let ps = history_call_params(a);
    assert forall|i: int| 0 <= i < ps.len() implies has_param(c, (#[trigger] ps[i]).0, ps[i].1) by {
        lemma_param(c, ps, i);
    }
    assert(has_param(c, ps[0].0, ps[0].1) && has_param(c, ps[1].0, ps[1].1) && has_param(c, ps[2].0, ps[2].1));
    assert(has_param(c, ps[3].0, ps[3].1) && has_param(c, ps[4].0, ps[4].1) && has_param(c, ps[5].0, ps[5].1));
    assert(has_param(c, ps[6].0, ps[6].1));
}

/// A ranking asks the daemon for what it is given, each under its name.
pub proof fn law_top_call(a: TopArgs, c: DaemonCall)
    requires
        is_whole_call(c, "get_top"@, top_call_params(a)),
    ensures
        a.path is Some ==> has_param(c, "path"@, ValueView::Text(a.path->0@)),
        a.volume is Some ==> has_param(c, "volume"@, ValueView::Text(a.volume->0@)),
        has_param(c, "folders"@, ValueView::Flag(a.folders)),
        has_param(c, "files"@, ValueView::Flag(a.files)),
        a.limit is Some ==> has_param(c, "limit"@, ValueView::Count(a.limit->0 as int)),
        a.since is Some ==> has_param(c, "since"@, ValueView::Time(a.since->0 as int)),
        a.between_a is Some ==> has_param(c, "between_a"@, ValueView::Text(a.between_a->0@)),
        a.between_b is Some ==> has_param(c, "between_b"@, ValueView::Text(a.between_b->0@)),
        has_param(c, "growth"@, ValueView::Flag(a.growth)),
        has_param(c, "churn"@, ValueView::Flag(a.churn)),
        a.cursor is Some ==> has_param(c, "cursor"@, ValueView::Text(a.cursor->0@)),
{
    let ps = top_call_params(a);
    assert forall|i: int| 0 <= i < ps.len() implies has_param(c, (#[trigger] ps[i]).0, ps[i].1) by {
        lemma_param(c, ps, i);
    }
    assert(has_param(c, ps[0].0, ps[0].1) && has_param(c, ps[1].0, ps[1].1) && has_param(c, ps[2].0, ps[2].1));
    assert(has_param(c, ps[3].0, ps[3].1) && has_param(c, ps[4].0, ps[4].1) && has_param(c, ps[5].0, ps[5].1));
    assert(has_param(c, ps[6].0, ps[6].1) && has_param(c, ps[7].0, ps[7].1) && has_param(c, ps[8].0, ps[8].1));
    assert(has_param(c, ps[9].0, ps[9].1) && has_param(c, ps[10].0, ps[10].1));
}

/// A ranking is by size where no interval is named; over an interval it is by changes where
/// those are asked for, and else by growth. Folders are ranked where they are asked for, and
/// over an interval unless files are. A path narrows it to one volume and what lies below.
pub proof fn law_ranking_planned(
    p: TopParams,
    volume: Option<Seq<char>>,
    target: Option<(Seq<char>, u64)>,
    registered: Seq<String>,
    plan: TopPlan,
)
    requires
        is_plan(p, volume, target, registered, plan),
    ensures
        plan.measure == Measure::Size <==> p.since is None && p.between_a is None,
        plan.measure == Measure::Churn <==> (p.since is Some || p.between_a is Some) && p.churn,
        plan.measure == Measure::Growth <==> (p.since is Some || p.between_a is Some) && !p.churn,
        p.folders ==> plan.rollup,
        p.files && !p.folders ==> !plan.rollup,
        !p.files && !p.folders ==> (plan.rollup <==> p.since is Some || p.between_a is Some),
        target is Some ==> plan.ancestor == Some((target->0).1) && views(plan.volumes@) == seq![(target->0).0],
        target is None ==> plan.ancestor is None,
        target is None && volume is Some ==> views(plan.volumes@) == seq![volume->0],
        target is None && volume is None ==> views(plan.volumes@) == views(registered),
{
}

/// A request for a ranking is refused exactly if it names two things of which only one can
/// be had: growth and changes, folders and files, a moment and snapshots, or a path on
/// another volume.
pub proof fn law_ranking_refused(p: TopParams, volume: Option<Seq<char>>, target: Option<(Seq<char>, u64)>)
    ensures
        refusal(p, volume, target) is Some <==> {
            ||| p.growth && p.churn
            ||| p.folders && p.files
            ||| p.since is Some && (p.between_a is Some || p.between_b is Some)
            ||| volume is Some && target is Some && volume->0 != (target->0).0
        },
{
}

/// A setting that is changed has the value that was given: a truth value by one of four words
/// for each, anything else as it was written; the log is pruned only for another retention.
pub proof fn law_setting_changed(old: AppConfig, k: ConfigKey, value: Seq<char>, lower: Seq<char>, u: ConfigUpdate)
    requires
        is_update(old, k, value, lower, u),
        setting_error(k, lower) is None,
    ensures
        k == ConfigKey::Retention ==> u.config.retention@ == value && u.prune,
        k == ConfigKey::AutoSnapshotInterval ==> u.config.auto_snapshot_interval@ == value && !u.prune,
        k == ConfigKey::Fuzzy ==> (u.config.fuzzy <==> lower == "true"@ || lower == "on"@ || lower == "1"@ || lower
            == "yes"@) && (!u.config.fuzzy <==> lower == "false"@ || lower == "off"@ || lower == "0"@ || lower == "no"@),
        k == ConfigKey::AutoSnapshot ==> (u.config.auto_snapshot <==> lower == "true"@ || lower == "on"@ || lower == "1"@
            || lower == "yes"@) && (!u.config.auto_snapshot <==> lower == "false"@ || lower == "off"@ || lower == "0"@
            || lower == "no"@),
        k == ConfigKey::Fuzzy || k == ConfigKey::AutoSnapshot ==> !u.prune,
{
    reveal_strlit("true");
    reveal_strlit("on");
    reveal_strlit("1");
    reveal_strlit("yes");
    reveal_strlit("false");
    reveal_strlit("off");
    reveal_strlit("0");
    reveal_strlit("no");
    assert("true"@.len() == 4 && "on"@.len() == 2 && "1"@.len() == 1 && "yes"@.len() == 3);
    assert("false"@.len() == 5 && "off"@.len() == 3 && "0"@.len() == 1 && "no"@.len() == 2);
    assert("on"@[0] == 'o' && "no"@[0] == 'n' && "1"@[0] == '1' && "0"@[0] == '0' && "yes"@[0] == 'y' && "off"@[0] == 'o');
}

/// Slashes at the end of an address do not matter.
pub proof fn law_without_slashes(base: Seq<char>, slashes: Seq<char>)
    requires
        base.len() > 0,
        base.last() != '/',
        forall|i: int| 0 <= i < slashes.len() ==> (#[trigger] slashes[i]) == '/',
    ensures
        without_slashes(base + slashes) == base,
    decreases slashes.len(),
{
    let all = base + slashes;
    if slashes.len() == 0 {
        assert(all =~= base);
    } else {
        let part = slashes.drop_last();
        assert(all.last() == slashes[slashes.len() - 1]);
        assert(all.drop_last() =~= base + part);
        assert forall|i: int| 0 <= i < part.len() implies (#[trigger] part[i]) == '/' by {
            assert(part[i] == slashes[i]);
        }
        law_without_slashes(base, part);
    }
}

/// The text and the calls of a reply are those of its pieces one after the other, however it
/// is cut.
pub proof fn law_reply_pieces(a: Seq<Chunk>, b: Seq<Chunk>, one: Chunk)
    ensures
        chunk_text(a + b) == chunk_text(a) + chunk_text(b),
        chunk_calls(a + b) == chunk_calls(a) + chunk_calls(b),
        chunk_text(seq![one]) == one.content@,
        one.tool_calls is Some ==> chunk_calls(seq![one]) == one.tool_calls->0@,
        one.tool_calls is None ==> chunk_calls(seq![one]).len() == 0,
    decreases b.len(),
{
    assert(seq![one].drop_last() =~= Seq::<Chunk>::empty());
    assert(chunk_text(Seq::<Chunk>::empty()) =~= Seq::<char>::empty());
    assert(chunk_calls(Seq::<Chunk>::empty()) =~= Seq::<ToolCall>::empty());
    assert(chunk_text(seq![one]) =~= one.content@);
    if one.tool_calls is Some {
        assert(chunk_calls(seq![one]) =~= one.tool_calls->0@);
    }
    if b.len() == 0 {
        assert(a + b =~= a);
        assert(chunk_text(a) + chunk_text(b) =~= chunk_text(a));
        assert(chunk_calls(a) + chunk_calls(b) =~= chunk_calls(a));
    } else {
        assert((a + b).drop_last() =~= a + b.drop_last());
        assert((a + b).last() == b.last());
        law_reply_pieces(a, b.drop_last(), one);
        assert(chunk_text(a + b) =~= chunk_text(a) + chunk_text(b));
        assert(chunk_calls(a + b) =~= chunk_calls(a) + chunk_calls(b));
    }
}

/// The argument stands at place `i`, and none of its name before it.
pub open spec fn is_argument(args: Seq<(String, Argument)>, key: Seq<char>, i: int) -> bool {
    &&& 0 <= i < args.len()
    &&& args[i].0@ == key
    &&& forall|j: int| 0 <= j < i ==> (#[trigger] args[j]).0@ != key
}

/// An argument is found by its name, the first one of that name.
pub proof fn law_argument(args: Seq<(String, Argument)>, key: Seq<char>, i: int)
    ensures
        is_argument(args, key, i) ==> arg_at(args, key) == Some(args[i].1),
        (forall|j: int| 0 <= j < args.len() ==> (#[trigger] args[j]).0@ != key) ==> arg_at(args, key) is None,
    decreases args.len(),
{
    if args.len() > 0 {
        let rest = args.skip(1);
        law_argument(rest, key, i - 1);
        if is_argument(args, key, i) && i > 0 {
            assert(args[0].0@ != key);
            assert forall|j: int| 0 <= j < i - 1 implies (#[trigger] rest[j]).0@ != key by {
                assert(args[j + 1].0@ != key);
            }
            assert(is_argument(rest, key, i - 1));
        }
        if forall|j: int| 0 <= j < args.len() ==> (#[trigger] args[j]).0@ != key {
            assert(args[0].0@ != key);
            assert forall|j: int| 0 <= j < rest.len() implies (#[trigger] rest[j]).0@ != key by {
                assert(args[j + 1].0@ != key);
            }
        }
    }
}

/// The user is asked to allow just what the daemon is then asked to do: the command that is
/// run, the snapshot that is deleted, or what is done to it.
pub proof fn law_consent_is_request(call: ToolCall, c: Consent)
    requires
        is_consent(call, c),
    ensures
        call.name@ == "cli_write_command"@ ==> c.change is Command && c.request.method@ == "cli_write_command"@
            && has_param(c.request, "command"@, ValueView::Text(c.change->command@)),
        call.name@ == "snapshot_manage"@ ==> c.change is Manage && c.request.method@ == "snapshot_manage"@ && has_param(
            c.request,
            "action"@,
            ValueView::Text(c.change->action@),
        ) && has_param(c.request, "label"@, ValueView::Text(c.change->Manage_label@)),
        call.name@ == "disktracker_snapshot_delete"@ ==> c.change is Delete && c.request.method@ == "snapshot_manage"@
            && has_param(c.request, "action"@, ValueView::Text("delete"@)) && has_param(
            c.request,
            "label"@,
            ValueView::Text(c.change->Delete_label@),
        ),
        call.name@ == "disktracker_snapshot_create"@ ==> c.change is Create && c.request.method@ == "snapshot_create"@,
{
    lemma_writing_tools();
    let ps = params_view(c.request.params@);
    if ps.len() > 0 {
        lemma_param(c.request, ps, 0);
    }
    if ps.len() > 1 {
        lemma_param(c.request, ps, 1);
    }
}

proof fn lemma_writing_tools()
    ensures
        "cli_write_command"@ != "snapshot_manage"@,
        "cli_write_command"@ != "disktracker_snapshot_create"@,
        "cli_write_command"@ != "disktracker_snapshot_delete"@,
        "snapshot_manage"@ != "disktracker_snapshot_create"@,
        "snapshot_manage"@ != "disktracker_snapshot_delete"@,
        "disktracker_snapshot_create"@ != "disktracker_snapshot_delete"@,
{
    reveal_strlit("cli_write_command");
    reveal_strlit("snapshot_manage");
    reveal_strlit("disktracker_snapshot_create");
    reveal_strlit("disktracker_snapshot_delete");
    assert("cli_write_command"@.len() == 17);
    assert("snapshot_manage"@.len() == 15);
    assert("disktracker_snapshot_create"@.len() == 27);
    assert("disktracker_snapshot_delete"@.len() == 27);
    assert("disktracker_snapshot_create"@[21] == 'c');
    assert("disktracker_snapshot_delete"@[21] == 'd');
}

/// What a consent names comes from the arguments of the call.
pub proof fn law_consent_names(call: ToolCall, c: Consent, key: Seq<char>, i: int)
    requires
        is_consent(call, c),
        is_argument(call.arguments@, key, i),
        call.arguments@[i].1 is Text,
    ensures
        call.name@ == "cli_write_command"@ && key == "command"@ ==> c.change is Command && c.change->command@
            == call.arguments@[i].1->Text_0@,
        call.name@ == "snapshot_manage"@ && key == "label"@ ==> c.change is Manage && c.change->Manage_label@
            == call.arguments@[i].1->Text_0@,
        call.name@ == "snapshot_manage"@ && key == "action"@ ==> c.change is Manage && c.change->action@
            == call.arguments@[i].1->Text_0@,
        call.name@ == "disktracker_snapshot_delete"@ && key == "label"@ ==> c.change is Delete && c.change->Delete_label@
            == call.arguments@[i].1->Text_0@,
{
    lemma_writing_tools();
    law_argument(call.arguments@, key, i);
}

/// A search that the model calls for asks the daemon with the arguments of the call.
pub proof fn law_search_tool(call: ToolCall, interactive: bool, now: int, cwd: Option<Seq<char>>, s: ToolStep, key: Seq<char>, i: int)
    requires
        call.name@ == "disktracker_search"@,
        is_exec_step(call, interactive, now, cwd, s),
        is_argument(call.arguments@, key, i),
    ensures
        s.action is Ask,
        s.action->Ask_0.method@ == "search_query"@,
        call.arguments@[i].1 is Count && (key == "min_size"@ || key == "max_size"@ || key == "limit"@) ==> has_param(
            s.action->Ask_0,
            key,
            ValueView::Count(call.arguments@[i].1->Count_0 as int),
        ),
        call.arguments@[i].1 is Flag && (key == "hidden"@ || key == "system"@) ==> has_param(
            s.action->Ask_0,
            key,
            ValueView::Flag(call.arguments@[i].1->Flag_0),
        ),
        call.arguments@[i].1 is Text && (key == "query"@ || key == "ext"@ || key == "cursor"@) ==> has_param(
            s.action->Ask_0,
            key,
            ValueView::Text(call.arguments@[i].1->Text_0@),
        ),
{
    let args = call.arguments@;
    law_argument(args, key, i);
    let a = choose|a: SearchArgs|
        #[trigger] is_search_args(args, now, a) && asks_whole(
            s,
            note_of("disktracker_search(query="@, crate::text::quoted_of(a.query@)),
            "search_query"@,
            search_params(a),
        );
    let c = s.action->Ask_0;
    assert(is_whole_call(c, "search_query"@, search_params(a)));
    law_search_call(a, c);
    if args[i].1 is Text && key == "ext"@ {
        assert(opt_text(a.ext) == Some(args[i].1->Text_0@));
    }
    if args[i].1 is Text && key == "cursor"@ {
        assert(opt_text(a.cursor) == Some(args[i].1->Text_0@));
    }
}

} // verus!
