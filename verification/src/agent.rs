//! The agent that answers questions: its state, what it does next, and who may change
//! anything.

use crate::text::{str_eq, views};
use vstd::prelude::*;

verus! {

/// What a tool is called with.
#[derive(Debug, Clone)]
pub enum Argument {
    Text(String),
    Count(u64),
    Flag(bool),
    /// A list, as JSON and as it is shown.
    List { json: String, shown: String },
    /// Anything else.
    Other,
}

/// A call of a tool that the model asks for.
#[derive(Debug, Clone)]
pub struct ToolCall {
    pub id: String,
    pub name: String,
    pub arguments: Vec<(String, Argument)>,
}

/// A message of the conversation.
#[derive(Debug, Clone)]
pub struct Message {
    pub role: String,
    pub content: String,
    pub tool_calls: Option<Vec<ToolCall>>,
    pub tool_call_id: Option<String>,
}

/// The message of a tool that was called.
pub open spec fn is_tool_message(m: Message, content: Seq<char>, id: Seq<char>) -> bool {
    &&& m.role@ == "tool"@
    &&& m.content@ == content
    &&& m.tool_calls is None
    &&& m.tool_call_id is Some
    &&& m.tool_call_id->0@ == id
}

/// The message of the user.
pub open spec fn is_user_message(m: Message, content: Seq<char>) -> bool {
    m.role@ == "user"@ && m.content@ == content && m.tool_calls is None && m.tool_call_id is None
}

impl Message {
    pub fn tool(content: &str, id: &str) -> (m: Message)
        ensures
            is_tool_message(m, content@, id@),
    {
        Message {
            role: "tool".to_owned(),
            content: content.to_owned(),
            tool_calls: None,
            tool_call_id: Some(id.to_owned()),
        }
    }

    pub fn user(content: &str) -> (m: Message)
        ensures
            is_user_message(m, content@),
    {
        Message {
            role: "user".to_owned(),
            content: content.to_owned(),
            tool_calls: None,
            tool_call_id: None,
        }
    }
}

/// The conversation about a question.
#[derive(Debug)]
pub struct AskState {
    pub question: String,
    pub messages: Vec<Message>,
    pub round_count: u32,
    pub interactive: bool,
    pub json: bool,
    pub data_used: Vec<String>,
    pub final_answer: Option<String>,
}

/// The entries of `more` behind those of `have`, each entry once.
pub open spec fn with_new(have: Seq<Seq<char>>, more: Seq<Seq<char>>) -> Seq<Seq<char>>
    decreases more.len(),
{
    if more.len() == 0 {
        have
    } else {
        let rest = with_new(have, more.drop_last());
        if rest.contains(more.last()) {
            rest
        } else {
            rest.push(more.last())
        }
    }
}

/// The state after another one was taken over. What the other one leaves empty stays;
/// the messages are taken over unless there are fewer of them.
pub open spec fn is_merged(a: AskState, b: AskState, r: AskState) -> bool {
    &&& r.question == (if b.question@.len() > 0 {
        b.question
    } else {
        a.question
    })
    &&& r.messages@ == (if b.messages@.len() > 0 && b.messages@.len() >= a.messages@.len() {
        b.messages@
    } else {
        a.messages@
    })
    &&& r.round_count == b.round_count
    &&& r.interactive == b.interactive
    &&& r.json == b.json
    &&& views(r.data_used@) == with_new(views(a.data_used@), views(b.data_used@))
    &&& r.final_answer == (if b.final_answer is Some {
        b.final_answer
    } else {
        a.final_answer
    })
}

fn add_new(have: &mut Vec<String>, more: &Vec<String>)
    ensures
        views(final(have)@) == with_new(views(old(have)@), views(more@)),
{
    let ghost start = views(have@);
    let ghost added = views(more@);
    let mut i: usize = 0;
    assert(added.take(0) =~= Seq::<Seq<char>>::empty());
    while i < more.len()
        invariant
            start == views(old(have)@),
            added == views(more@),
            i <= more@.len(),
            views(have@) == with_new(start, added.take(i as int)),
        decreases more@.len() - i,
    {
        let ghost now = views(have@);
        let entry = &more[i];
        assert(added.take(i + 1).drop_last() =~= added.take(i as int));
        assert(added.take(i + 1).last() == entry@);
        if !holds_entry(have, entry.as_str()) {
            have.push(entry.clone());
            assert(views(have@) =~= now.push(entry@));
        }
        i = i + 1;
    }
    assert(added.take(i as int) =~= added);
}

fn holds_entry(list: &Vec<String>, entry: &str) -> (r: bool)
    ensures
        r == views(list@).contains(entry@),
{
    let ghost texts = views(list@);
    let mut i: usize = 0;
    while i < list.len()
        invariant
            texts == views(list@),
            i <= list@.len(),
            forall|k: int| 0 <= k < i ==> #[trigger] texts[k] != entry@,
        decreases list@.len() - i,
    {
        if str_eq(list[i].as_str(), entry) {
            assert(texts[i as int] == entry@);
            return true;
        }
        i = i + 1;
    }
    false
}

/// How many rounds of tool calls there are for one question.
pub const MAX_ROUNDS: u32 = 12;

/// The tool changes something.
pub open spec fn is_mutating(tool: Seq<char>) -> bool {
    tool == "cli_write_command"@ || tool == "snapshot_manage"@ || tool == "disktracker_snapshot_create"@ || tool
        == "disktracker_snapshot_delete"@
}

/// Whether a tool changes something.
pub fn mutating(tool: &str) -> (r: bool)
    ensures
        r == is_mutating(tool@),
{
    str_eq(tool, "cli_write_command") || str_eq(tool, "snapshot_manage") || str_eq(
        tool,
        "disktracker_snapshot_create",
    ) || str_eq(tool, "disktracker_snapshot_delete")
}

/// The steps of the agent.
#[derive(Debug, Clone, Copy, PartialEq, Eq, Structural)]
pub enum Node {
    Planner,
    ToolExec,
    HumanInterrupt,
    ToolRejectNonInteractive,
}

/// The calls that the last message asks for.
pub open spec fn last_calls(messages: Seq<Message>) -> Seq<ToolCall> {
    if messages.len() > 0 && messages.last().tool_calls is Some {
        messages.last().tool_calls->0@
    } else {
        Seq::empty()
    }
}

/// One of the calls is of a tool that changes something.
pub open spec fn any_mutating(calls: Seq<ToolCall>) -> bool {
    exists|i: int| 0 <= i < calls.len() && is_mutating((#[trigger] calls[i]).name@)
}

/// What follows the planner: nothing after the last round or where no tool is called;
/// the user is asked before anything is changed, or it is refused where there is no
/// user to ask.
pub open spec fn after_planner(s: AskState) -> Option<Node> {
    let calls = last_calls(s.messages@);
    if s.round_count >= MAX_ROUNDS || calls.len() == 0 {
        None
    } else if !any_mutating(calls) {
        Some(Node::ToolExec)
    } else if s.interactive {
        Some(Node::HumanInterrupt)
    } else {
        Some(Node::ToolRejectNonInteractive)
    }
}

fn calls_mutating(calls: &Vec<ToolCall>) -> (r: bool)
    ensures
        r == any_mutating(calls@),
{
    let mut i: usize = 0;
    while i < calls.len()
        invariant
            i <= calls@.len(),
            forall|k: int| 0 <= k < i ==> !is_mutating((#[trigger] calls@[k]).name@),
        decreases calls@.len() - i,
    {
        if mutating(calls[i].name.as_str()) {
            assert(is_mutating(calls@[i as int].name@));
            return true;
        }
        i = i + 1;
    }
    false
}

/// The step that follows another one; the agent begins with the planner, and all other
/// steps lead back to it.
pub fn next_node(node: Node, state: &AskState) -> (r: Option<Node>)
    ensures
        r == (if node == Node::Planner {
            after_planner(*state)
        } else {
            Some(Node::Planner)
        }),
{
    if node != Node::Planner {
        return Some(Node::Planner);
    }
    let n = state.messages.len();
    if state.round_count >= MAX_ROUNDS || n == 0 {
        return None;
    }
    match &state.messages[n - 1].tool_calls {
        None => None,
        Some(calls) => {
            if calls.len() == 0 {
                None
            } else if !calls_mutating(calls) {
                Some(Node::ToolExec)
            } else if state.interactive {
                Some(Node::HumanInterrupt)
            } else {
                Some(Node::ToolRejectNonInteractive)
            }
        },
    }
}

impl AskState {
    /// Takes another state over.
    pub fn merge(&mut self, other: AskState)
        ensures
            is_merged(*old(self), other, *final(self)),
    {
        add_new(&mut self.data_used, &other.data_used);
        if !other.question.as_str().is_empty() {
            self.question = other.question;
        }
        if other.messages.len() > 0 && other.messages.len() >= self.messages.len() {
            self.messages = other.messages;
        }
        self.round_count = other.round_count;
        self.interactive = other.interactive;
        self.json = other.json;
        if other.final_answer.is_some() {
            self.final_answer = other.final_answer;
        }
    }

    /// The state in which a question is asked, in a conversation that may have begun
    /// before.
    pub fn ask(question: &str, interactive: bool, before: Option<AskState>) -> (s: AskState)
        ensures
            s.question@ == question@,
            s.interactive == interactive,
            s.round_count == 0,
            s.final_answer is None,
            s.messages@.len() > 0,
            is_user_message(s.messages@.last(), question@),
            match before {
                Some(b) => s.messages@.drop_last() == b.messages@ && s.data_used == b.data_used && s.json == b.json,
                None => s.messages@.len() == 1 && s.data_used@.len() == 0 && !s.json,
            },
    {
        match before {
            Some(b) => {
                let mut messages = b.messages;
                messages.push(Message::user(question));
                assert(messages@.drop_last() =~= b.messages@);
                AskState {
                    question: question.to_owned(),
                    messages,
                    round_count: 0,
                    interactive,
                    json: b.json,
                    data_used: b.data_used,
                    final_answer: None,
                }
            },
            None => {
                let mut messages: Vec<Message> = Vec::new();
                messages.push(Message::user(question));
                AskState {
                    question: question.to_owned(),
                    messages,
                    round_count: 0,
                    interactive,
                    json: false,
                    data_used: Vec::new(),
                    final_answer: None,
                }
            },
        }
    }

    /// Whether the planner has anything left to do.
    pub fn can_plan(&self) -> (r: bool)
        ensures
            r == (self.round_count < MAX_ROUNDS),
    {
        self.round_count < MAX_ROUNDS
    }

    /// Takes in what the model replied. A reply without tool calls is the answer.
    pub fn take_reply(&mut self, content: String, calls: Vec<ToolCall>)
        ensures
            final(self).messages@.len() == old(self).messages@.len() + 1,
            final(self).messages@.drop_last() == old(self).messages@,
            final(self).messages@.last().role@ == "assistant"@,
            final(self).messages@.last().content == content,
            final(self).messages@.last().tool_call_id is None,
            final(self).messages@.last().tool_calls == (if calls@.len() > 0 {
                Some(calls)
            } else {
                None
            }),
            final(self).final_answer == (if calls@.len() == 0 {
                Some(content)
            } else {
                old(self).final_answer
            }),
            final(self).question == old(self).question,
            final(self).round_count == old(self).round_count,
            final(self).interactive == old(self).interactive,
            final(self).json == old(self).json,
            final(self).data_used == old(self).data_used,
    {
        let has_calls = calls.len() > 0;
        if !has_calls {
            self.final_answer = Some(content.clone());
        }
        self.messages.push(
            Message {
                role: "assistant".to_owned(),
                content,
                tool_calls: if has_calls {
                    Some(calls)
                } else {
                    None
                },
                tool_call_id: None,
            },
        );
        assert(self.messages@.drop_last() =~= old(self).messages@);
    }

    /// Begins a round of tool calls: it is counted, and the calls that are to be
    /// answered are handed out.
    pub fn begin_round(&mut self) -> (calls: Vec<ToolCall>)
        requires
            old(self).round_count < u32::MAX,
        ensures
            final(self).round_count == old(self).round_count + 1,
            final(self).question == old(self).question,
            final(self).messages == old(self).messages,
            final(self).interactive == old(self).interactive,
            final(self).json == old(self).json,
            final(self).data_used == old(self).data_used,
            final(self).final_answer == old(self).final_answer,
            calls@.len() == last_calls(old(self).messages@).len(),
            forall|i: int|
                0 <= i < calls@.len() ==> same_call(#[trigger] calls@[i], last_calls(old(self).messages@)[i]),
    {
        self.round_count = self.round_count + 1;
        let n = self.messages.len();
        let mut r: Vec<ToolCall> = Vec::new();
        if n > 0 {
            if let Some(calls) = &self.messages[n - 1].tool_calls {
                let mut i: usize = 0;
                while i < calls.len()
                    invariant
                        i <= calls@.len(),
                        r@.len() == i,
                        forall|k: int| 0 <= k < i ==> same_call(#[trigger] r@[k], calls@[k]),
                    decreases calls@.len() - i,
                {
                    r.push(copy_call(&calls[i]));
                    i = i + 1;
                }
            }
        }
        r
    }

    /// Enters the answer to a tool call.
    pub fn answer(&mut self, content: &str, id: &str)
        ensures
            final(self).messages@.len() == old(self).messages@.len() + 1,
            final(self).messages@.drop_last() == old(self).messages@,
            is_tool_message(final(self).messages@.last(), content@, id@),
            final(self).question == old(self).question,
            final(self).round_count == old(self).round_count,
            final(self).interactive == old(self).interactive,
            final(self).json == old(self).json,
            final(self).data_used == old(self).data_used,
            final(self).final_answer == old(self).final_answer,
    {
        self.messages.push(Message::tool(content, id));
        assert(self.messages@.drop_last() =~= old(self).messages@);
    }

    /// Notes what an answer rests on.
    pub fn note(&mut self, entry: String)
        ensures
            final(self).data_used@ == old(self).data_used@.push(entry),
            final(self).question == old(self).question,
            final(self).messages == old(self).messages,
            final(self).round_count == old(self).round_count,
            final(self).interactive == old(self).interactive,
            final(self).json == old(self).json,
            final(self).final_answer == old(self).final_answer,
    {
        self.data_used.push(entry);
    }

    /// Refuses every call of the last message.
    pub fn reject_calls(&mut self)
        requires
            old(self).round_count < u32::MAX,
        ensures
            final(self).round_count == old(self).round_count + 1,
            is_rejected(old(self).messages@, final(self).messages@),
            final(self).question == old(self).question,
            final(self).interactive == old(self).interactive,
            final(self).json == old(self).json,
            final(self).data_used == old(self).data_used,
            final(self).final_answer == old(self).final_answer,
    {
        let ghost start = *self;
        let calls = self.begin_round();
        let ghost before = self.messages@;
        let ghost asked = last_calls(before);
        let mut i: usize = 0;
        while i < calls.len()
            invariant
                start == *old(self),
                before == start.messages@,
                asked == last_calls(before),
                calls@.len() == asked.len(),
                forall|k: int| 0 <= k < calls@.len() ==> same_call(#[trigger] calls@[k], asked[k]),
                i <= calls@.len(),
                self.round_count == start.round_count + 1,
                self.question == start.question,
                self.interactive == start.interactive,
                self.json == start.json,
                self.data_used == start.data_used,
                self.final_answer == start.final_answer,
                self.messages@.len() == before.len() + i,
                self.messages@.take(before.len() as int) == before,
                forall|k: int|
                    0 <= k < i ==> is_tool_message(
                        #[trigger] self.messages@[before.len() + k],
                        read_only_refusal(),
                        asked[k].id@,
                    ),
            decreases calls@.len() - i,
        {
            let ghost now = self.messages@;
            assert(same_call(calls@[i as int], asked[i as int]));
            self.answer(
                "Error: Cannot execute mutating commands in Exploratory (read-only) mode. User must supply --interactive flag to authorize mutating actions.",
                calls[i].id.as_str(),
            );
            proof {
                assert(self.messages@.take(before.len() as int) =~= before) by {
                    assert forall|k: int| 0 <= k < before.len() implies self.messages@[k] == before[k] by {
                        assert(self.messages@[k] == self.messages@.drop_last()[k]);
                        assert(now[k] == now.take(before.len() as int)[k]);
                    }
                }
                assert forall|k: int| 0 <= k < i + 1 implies is_tool_message(
                    #[trigger] self.messages@[before.len() + k],
                    read_only_refusal(),
                    asked[k].id@,
                ) by {
                    if k < i {
                        assert(self.messages@[before.len() + k] == self.messages@.drop_last()[before.len() + k]);
                        assert(self.messages@[before.len() + k] == now[before.len() + k]);
                    }
                }
            }
            i = i + 1;
        }
    }
}

/// The answer to a call that would change something where there is no user to ask.
pub open spec fn read_only_refusal() -> Seq<char> {
    "Error: Cannot execute mutating commands in Exploratory (read-only) mode. User must supply --interactive flag to authorize mutating actions."@
}

/// Behind the messages stands a refusal of each call of the last one.
pub open spec fn is_rejected(before: Seq<Message>, after: Seq<Message>) -> bool {
    let calls = last_calls(before);
    &&& after.len() == before.len() + calls.len()
    &&& after.take(before.len() as int) == before
    &&& forall|k: int|
        0 <= k < calls.len() ==> is_tool_message(
            #[trigger] after[before.len() + k],
            read_only_refusal(),
            calls[k].id@,
        )
}

/// Two arguments are the same.
pub open spec fn same_argument(a: Argument, b: Argument) -> bool {
    match (a, b) {
        (Argument::Text(s), Argument::Text(t)) => s@ == t@,
        (Argument::Count(m), Argument::Count(n)) => m == n,
        (Argument::Flag(f), Argument::Flag(g)) => f == g,
        (Argument::List { json: j, shown: s }, Argument::List { json: k, shown: t }) => j@ == k@ && s@ == t@,
        (Argument::Other, Argument::Other) => true,
        _ => false,
    }
}

/// Two calls are the same.
pub open spec fn same_call(a: ToolCall, b: ToolCall) -> bool {
    &&& a.id@ == b.id@
    &&& a.name@ == b.name@
    &&& a.arguments@.len() == b.arguments@.len()
    &&& forall|i: int|
        #![trigger a.arguments@[i]]
        #![trigger b.arguments@[i]]
        0 <= i < a.arguments@.len() ==> a.arguments@[i].0@ == b.arguments@[i].0@ && same_argument(
            a.arguments@[i].1,
            b.arguments@[i].1,
        )
}

fn copy_argument(a: &Argument) -> (r: Argument)
    ensures
        same_argument(r, *a),
{
    match a {
        Argument::Text(s) => Argument::Text(s.clone()),
        Argument::Count(n) => Argument::Count(*n),
        Argument::Flag(b) => Argument::Flag(*b),
        Argument::List { json, shown } => Argument::List { json: json.clone(), shown: shown.clone() },
        Argument::Other => Argument::Other,
    }
}

fn copy_call(c: &ToolCall) -> (r: ToolCall)
    ensures
        same_call(r, *c),
{
    let mut arguments: Vec<(String, Argument)> = Vec::new();
    let mut i: usize = 0;
    while i < c.arguments.len()
        invariant
            i <= c.arguments@.len(),
            arguments@.len() == i,
            forall|k: int|
                #![trigger arguments@[k]]
                #![trigger c.arguments@[k]]
                0 <= k < i ==> arguments@[k].0@ == c.arguments@[k].0@ && same_argument(
                    arguments@[k].1,
                    c.arguments@[k].1,
                ),
        decreases c.arguments@.len() - i,
    {
        let (name, value) = &c.arguments[i];
        arguments.push((name.clone(), copy_argument(value)));
        i = i + 1;
    }
    ToolCall { id: c.id.clone(), name: c.name.clone(), arguments }
}

/// Merging the state that is already there changes nothing.
pub proof fn law_merge_same(a: AskState, r: AskState)
    requires
        is_merged(a, a, r),
    ensures
        r.question == a.question,
        r.messages@ == a.messages@,
        r.round_count == a.round_count,
        r.final_answer == a.final_answer,
        views(r.data_used@) == views(a.data_used@),
{
    lemma_nothing_new(views(a.data_used@), views(a.data_used@));
}

proof fn lemma_nothing_new(have: Seq<Seq<char>>, more: Seq<Seq<char>>)
    requires
        forall|i: int| 0 <= i < more.len() ==> have.contains(#[trigger] more[i]),
    ensures
        with_new(have, more) == have,
    decreases more.len(),
{
    if more.len() > 0 {
        assert(have.contains(more[more.len() - 1]));
        assert forall|i: int| 0 <= i < more.drop_last().len() implies have.contains(#[trigger] more.drop_last()[i]) by {
            assert(have.contains(more[i]));
        }
        lemma_nothing_new(have, more.drop_last());
    }
}

/// Nothing that was noted is lost by taking another state over, and what the other one
/// noted is there.
pub proof fn law_merge_keeps(a: AskState, b: AskState, r: AskState, entry: Seq<char>)
    requires
        is_merged(a, b, r),
        views(a.data_used@).contains(entry) || views(b.data_used@).contains(entry),
    ensures
        views(r.data_used@).contains(entry),
{
    lemma_with_new(views(a.data_used@), views(b.data_used@), entry);
}

proof fn lemma_with_new(have: Seq<Seq<char>>, more: Seq<Seq<char>>, entry: Seq<char>)
    requires
        have.contains(entry) || more.contains(entry),
    ensures
        with_new(have, more).contains(entry),
    decreases more.len(),
{
    if more.len() > 0 {
        let rest = with_new(have, more.drop_last());
        if have.contains(entry) || more.drop_last().contains(entry) {
            lemma_with_new(have, more.drop_last(), entry);
            if !rest.contains(more.last()) {
                let i = choose|i: int| 0 <= i < rest.len() && rest[i] == entry;
                assert(rest.push(more.last())[i] == entry);
            }
        } else {
            let i = choose|i: int| 0 <= i < more.len() && more[i] == entry;
            if i < more.len() - 1 {
                assert(more.drop_last()[i] == entry);
            }
            if !rest.contains(more.last()) {
                assert(rest.push(more.last())[rest.len() as int] == entry);
            }
        }
    }
}

/// A call that changes something goes to the user or is refused; it never goes where
/// tools are run without asking.
pub proof fn law_changes_need_consent(s: AskState, i: int)
    requires
        0 <= i < last_calls(s.messages@).len(),
        is_mutating(last_calls(s.messages@)[i].name@),
    ensures
        after_planner(s) != Some(Node::ToolExec),
        !s.interactive ==> after_planner(s) != Some(Node::HumanInterrupt),
{
}

/// The rounds for one question are counted, and after the last one the agent ends.
pub proof fn law_rounds_end(s: AskState)
    ensures
        s.round_count >= MAX_ROUNDS ==> after_planner(s) is None,
        after_planner(s) is Some ==> s.round_count < MAX_ROUNDS && last_calls(s.messages@).len() > 0,
{
}

} // verus!
