//! How the agent reaches the model, the daemon and the web.

use crate::agent::ToolCall;
use crate::agent_calls::{allows, is_yes, or_text};
use crate::decimal::{decimal, decimal_text};
use crate::text::{
    chars_of, lowercase, lowercase_of, opt_text, slice_text, starts_with, str_eq, strip_prefixes,
    trim, trimmed, without_prefixes,
};
use vstd::prelude::*;
use vstd::utf8::encode_utf8;

verus! {

/// The settings of the agent.
#[derive(Debug, Clone)]
pub struct AiConfig {
    pub base_url: Option<String>,
    pub model: Option<String>,
    pub chat_session_store: bool,
    pub websearch_provider: Option<String>,
    pub websearch_cx: Option<String>,
}

/// Changes the settings that are given, and leaves the others.
pub fn update_ai_config(config: AiConfig, base_url: Option<String>, model: Option<String>, chat_session_store: Option<bool>) -> (r: AiConfig)
    ensures
        r.base_url == (if base_url is Some {
            base_url
        } else {
            config.base_url
        }),
        r.model == (if model is Some {
            model
        } else {
            config.model
        }),
        r.chat_session_store == (match chat_session_store {
            Some(b) => b,
            None => config.chat_session_store,
        }),
        r.websearch_provider == config.websearch_provider,
        r.websearch_cx == config.websearch_cx,
{
    let mut r = config;
    if base_url.is_some() {
        r.base_url = base_url;
    }
    if model.is_some() {
        r.model = model;
    }
    if let Some(b) = chat_session_store {
        r.chat_session_store = b;
    }
    r
}

/// A setting says nothing.
pub open spec fn is_blank(o: Option<Seq<char>>) -> bool {
    o is None || trimmed(o->0).len() == 0
}

fn clean(o: &Option<String>) -> (r: Option<String>)
    ensures
        match r {
            Some(s) => !is_blank(opt_text(*o)) && s@ == trimmed(opt_text(*o)->0),
            None => is_blank(opt_text(*o)),
        },
{
    match o {
        None => None,
        Some(s) => {
            let t = trim(s.as_str());
            if t.as_str().is_empty() {
                None
            } else {
                Some(t)
            }
        },
    }
}

/// Where the model is reached.
pub struct Access {
    pub base_url: String,
    pub model: String,
    pub api_key: String,
}

/// Checks that all is set that the agent needs: the address, the model and the key, in
/// this order.
pub fn check_ai_configuration_validity(config: &AiConfig, api_key: &Option<String>) -> (r: Result<Access, String>)
    ensures
        match r {
            Ok(a) => {
                &&& !is_blank(opt_text(config.base_url))
                &&& !is_blank(opt_text(config.model))
                &&& !is_blank(opt_text(*api_key))
                &&& a.base_url@ == trimmed(opt_text(config.base_url)->0)
                &&& a.model@ == trimmed(opt_text(config.model)->0)
                &&& a.api_key@ == trimmed(opt_text(*api_key)->0)
            },
            Err(e) => if is_blank(opt_text(config.base_url)) {
                e@ == "AI cannot be used because base-url is not set. Run 'disktracker ai config --base-url <url>' to configure it."@
            } else if is_blank(opt_text(config.model)) {
                e@ == "AI cannot be used because model is not set. Run 'disktracker ai config --model <model>' to configure it."@
            } else {
                is_blank(opt_text(*api_key)) && e@
                    == "AI cannot be used because api-key is not set. Run 'disktracker ai config --api-key <key>' to configure it."@
            },
        },
{
    let base_url = match clean(&config.base_url) {
        Some(s) => s,
        None => {
            return Err(
                "AI cannot be used because base-url is not set. Run 'disktracker ai config --base-url <url>' to configure it.".to_owned(),
            );
        },
    };
    let model = match clean(&config.model) {
        Some(s) => s,
        None => {
            return Err(
                "AI cannot be used because model is not set. Run 'disktracker ai config --model <model>' to configure it.".to_owned(),
            );
        },
    };
    match clean(api_key) {
        Some(api_key) => Ok(Access { base_url, model, api_key }),
        None => Err(
            "AI cannot be used because api-key is not set. Run 'disktracker ai config --api-key <key>' to configure it.".to_owned(),
        ),
    }
}

/// A text without the slashes at its end.
pub open spec fn without_slashes(s: Seq<char>) -> Seq<char>
    decreases s.len(),
{
    if s.len() > 0 && s.last() == '/' {
        without_slashes(s.drop_last())
    } else {
        s
    }
}

/// Where the model is asked.
pub fn chat_url(base_url: &str) -> (r: String)
    ensures
        r@ == without_slashes(base_url@) + "/chat/completions"@,
{
    let chars = chars_of(base_url);
    let mut n = chars.len();
    assert(chars@.take(n as int) =~= chars@);
    while n > 0 && chars[n - 1] == '/'
        invariant
            chars@ == base_url@,
            n <= chars@.len(),
            without_slashes(chars@.take(n as int)) == without_slashes(chars@),
        decreases n,
    {
        assert(chars@.take(n as int).drop_last() =~= chars@.take(n - 1));
        n = n - 1;
    }
    let mut r = slice_text(&chars, 0, n);
    assert(r@ =~= chars@.take(n as int));
    r.append("/chat/completions");
    r
}

/// The shell in which commands are run.
pub fn detect_shell(windows: bool, powershell: bool) -> (r: String)
    ensures
        r@ == (if !windows {
            "Bash/Sh"@
        } else if powershell {
            "PowerShell"@
        } else {
            "CMD"@
        }),
{
    if windows {
        if powershell {
            "PowerShell".to_owned()
        } else {
            "CMD".to_owned()
        }
    } else {
        "Bash/Sh".to_owned()
    }
}

/// What the model is told, up to the shell.
pub const PROMPT_HEAD: &'static str = "You are AI AGENT, a natural-language orchestration agent for DiskTracker.\n\
     You analyze application file installations and runtime footprints to help users clean up their disks safely.\n\
     \n\
     DATABASE SCHEMA:\n\
     - app_install_footprints (app_name TEXT, file_path TEXT, install_time TEXT) -- files written by installers\n\
     - app_runtime_artifacts (process_name TEXT, target_path TEXT, access_time TEXT) -- files/folders generated by running apps\n\
     - facts (volume TEXT, path TEXT, size INTEGER, modified_at INTEGER, is_directory BOOLEAN) -- file system metadata captured at the last snapshot\n\
     - volume_snapshots / parent_snapshots -- historical snapshots. Each volume snapshot records a `sequence_number`, which is the checkpoint sequence number of the mutation log at the time of the snapshot.\n\
     \n\
     DYNAMIC CONTEXT:\n\
     - Shell Mode: ";

/// What the model is told between the shell and the operating system.
pub const PROMPT_OS: &'static str = "\n\
     - Operating System: ";

/// What the model is told behind the operating system.
pub const PROMPT_RULES: &'static str = "\n\
     \n\
     INSTRUCTIONS:\n\
     1. Query high-level DiskTracker tools (e.g. disktracker_search, disktracker_top, disktracker_history, disktracker_status, disktracker_doctor, disktracker_snapshot_list, disktracker_snapshot_diff) first as they are highly optimized and correct. Check existing database data using `disktracker_search` first to see if details are already indexed before deciding to take a new snapshot.\n\
     2. Be extremely dynamic and persistent in your search strategy: If searching for a specific application name directly yields no results or incomplete data, do not stop. You must dynamically expand your search to identify and query associated publisher names, parent/creator directories, or related executable names (for example, files might be stored under parent publisher folders or run under different process names). Use `fetch_signature` to resolve these name associations, and dynamically fallback to query the raw database tables (`app_install_footprints`, `app_runtime_artifacts`) via `sqlite_read_query` if the high-level search index returns nothing.\n\
     3. Use the `disktracker_websearch` tool to search the internet for external knowledge about applications, such as identifying who the publisher or creator of a game/app is, what their default installation folders are, or what process names they run under. This allows you to find associated directories and footprints to check in the database.\n\
     4. If you decide to execute a shell command (via cli_read_command or cli_write_command), you MUST explicitly state in your text response which shell you are executing the command in (e.g. 'Executing command in PowerShell:' or 'Executing command in Bash:') *before* making the tool call. Do not ask the user which shell they are using; you must use the shell specified in the Shell Mode dynamically provided to you.\n\
     5. Under Action Mode (interactive), you can suggest file deletions (cli_write_command) or snapshot operations (disktracker_snapshot_create, disktracker_snapshot_delete).\n\
     6. You do NOT have permission to execute mutating actions directly (such as creating/deleting snapshots or deleting files using `disktracker_snapshot_create`, `disktracker_snapshot_delete`, or `cli_write_command`). If a mutating action is required, you must never invoke these mutating tools. Instead, output a clear natural language message instructing the human to perform the work (e.g. telling them to run the command or delete the files manually).\n\
     7. Perform multi-step reasoning and tool calls if necessary. Do not hesitate to call multiple tools in sequence, try different tools or directions if one fails, reloop or go back-and-forth in any direction as needed (up to 10 rounds) to gather all necessary facts before formulating your final answer.\n\
     8. In interactive mode, if you are unsure of the user's intent, need clarification, or want to ask a question before proceeding, do NOT output the question in text. Instead, immediately invoke the `disktracker_human_feedback` tool with your question. It will display the question to the user and return their input directly to you so you can continue reasoning.\n\
     9. Terminate and produce your final natural language answer as soon as you have the answer. DO NOT query in infinite loops.";

/// What the model is told before it is asked.
pub fn system_prompt(shell: &str, os: &str) -> (r: String)
    ensures
        r@ == PROMPT_HEAD@ + shell@ + PROMPT_OS@ + os@ + PROMPT_RULES@,
{
    let mut r = PROMPT_HEAD.to_owned();
    r.append(shell);
    r.append(PROMPT_OS);
    r.append(os);
    r.append(PROMPT_RULES);
    r
}

/// A piece of the model's reply.
pub struct Chunk {
    pub content: String,
    pub tool_calls: Option<Vec<ToolCall>>,
}

/// The text of all pieces.
pub open spec fn chunk_text(chunks: Seq<Chunk>) -> Seq<char>
    decreases chunks.len(),
{
    if chunks.len() == 0 {
        Seq::empty()
    } else {
        chunk_text(chunks.drop_last()) + chunks.last().content@
    }
}

/// The tool calls of all pieces.
pub open spec fn chunk_calls(chunks: Seq<Chunk>) -> Seq<ToolCall>
    decreases chunks.len(),
{
    if chunks.len() == 0 {
        Seq::empty()
    } else {
        match chunks.last().tool_calls {
            Some(calls) => chunk_calls(chunks.drop_last()) + calls@,
            None => chunk_calls(chunks.drop_last()),
        }
    }
}

/// What came of the model's reply so far.
pub struct ReplyText {
    pub content: String,
    pub calls: Vec<ToolCall>,
}

impl ReplyText {
    /// All pieces so far were taken in.
    pub open spec fn holds(&self, chunks: Seq<Chunk>) -> bool {
        self.content@ == chunk_text(chunks) && self.calls@ == chunk_calls(chunks)
    }

    pub fn new() -> (r: ReplyText)
        ensures
            r.holds(Seq::empty()),
    {
        let r = ReplyText { content: String::new(), calls: Vec::new() };
        assert(r.content@ =~= Seq::<char>::empty());
        assert(r.calls@ =~= Seq::<ToolCall>::empty());
        r
    }

    /// Takes in one more piece.
    pub fn take(&mut self, chunk: Chunk)
        ensures
            final(self).content@ == old(self).content@ + chunk.content@,
            final(self).calls@ == old(self).calls@ + (match chunk.tool_calls {
                Some(calls) => calls@,
                None => Seq::<ToolCall>::empty(),
            }),
            forall|before: Seq<Chunk>| #[trigger] old(self).holds(before) ==> final(self).holds(before.push(chunk)),
    {
        let ghost start = *self;
        self.content.append(chunk.content.as_str());
        match chunk.tool_calls {
            Some(calls) => {
                let mut more = calls;
                self.calls.append(&mut more);
            },
            None => {
                assert(self.calls@ =~= start.calls@ + Seq::<ToolCall>::empty());
            },
        }
        assert forall|before: Seq<Chunk>| #[trigger] start.holds(before) implies self.holds(before.push(chunk)) by {
            assert(before.push(chunk).drop_last() =~= before);
            assert(before.push(chunk).last() == chunk);
            assert(self.content@ =~= chunk_text(before.push(chunk)));
            assert(self.calls@ =~= chunk_calls(before.push(chunk)));
        }
    }
}

/// How often the model is asked before it is given up.
pub const MAX_ATTEMPTS: u32 = 3;

/// How long is waited after the first failure, in milliseconds.
pub const FIRST_DELAY_MS: u64 = 500;

/// The attempts to reach the model.
#[derive(Debug)]
pub struct Retry {
    pub attempts: u32,
    pub delay_ms: u64,
}

/// How long is waited after a number of failures: twice as long each time.
pub open spec fn delay_after(failures: nat) -> nat
    decreases failures,
{
    if failures <= 1 {
        FIRST_DELAY_MS as nat
    } else {
        2 * delay_after((failures - 1) as nat)
    }
}

impl Retry {
    pub open spec fn wf(&self) -> bool {
        self.attempts <= MAX_ATTEMPTS && self.delay_ms == delay_after((self.attempts + 1) as nat)
    }

    pub fn new() -> (r: Retry)
        ensures
            r.wf(),
            r.attempts == 0,
    {
        Retry { attempts: 0, delay_ms: FIRST_DELAY_MS }
    }

    /// Counts a failure. The model is asked again after the wait that is returned, or
    /// given up.
    pub fn failed(&mut self) -> (wait_ms: Option<u64>)
        requires
            old(self).wf(),
            old(self).attempts < MAX_ATTEMPTS,
        ensures
            final(self).wf(),
            final(self).attempts == old(self).attempts + 1,
            match wait_ms {
                None => final(self).attempts == MAX_ATTEMPTS,
                Some(ms) => final(self).attempts < MAX_ATTEMPTS && ms == delay_after(final(self).attempts as nat),
            },
    {
        self.attempts = self.attempts + 1;
        let wait: u64 = self.delay_ms;
        proof {
            reveal_with_fuel(delay_after, 5);
        }
        self.delay_ms = wait * 2;
        if self.attempts >= MAX_ATTEMPTS {
            None
        } else {
            Some(wait)
        }
    }
}

/// What the daemon replied to a request.
pub struct RawReply {
    pub has_error: bool,
    /// The message of the error, if it has one.
    pub error_message: Option<String>,
    /// The result as JSON, if there is one.
    pub result: Option<String>,
}

/// The result of a request to the daemon, or why there is none.
pub fn read_reply(reply: RawReply) -> (r: Result<String, String>)
    ensures
        if reply.has_error {
            r is Err && r->Err_0@ == or_text(opt_text(reply.error_message), "Unknown error"@)
        } else if reply.result is Some {
            r == Ok::<String, String>(reply.result->0)
        } else {
            r is Err && r->Err_0@ == "Missing result and error in JSON-RPC response"@
        },
{
    if reply.has_error {
        return match reply.error_message {
            Some(m) => Err(m),
            None => Err("Unknown error".to_owned()),
        };
    }
    match reply.result {
        Some(v) => Ok(v),
        None => Err("Missing result and error in JSON-RPC response".to_owned()),
    }
}

/// What is done next to run a command.
pub enum CommandStep {
    /// The daemon is asked to run it, by this method.
    Run(String),
    /// The user is asked whether a command may be run from now on.
    AskToAllow(String),
    /// The daemon is told that a command may be run.
    Allow(String),
    Done(Result<String, String>),
}

/// The method by which commands of a kind are run.
pub open spec fn command_method(mode: Seq<char>) -> Seq<char> {
    if mode == "write"@ {
        "cli_write_command"@
    } else {
        "cli_read_command"@
    }
}

/// Begins to run a command.
pub fn run_command(mode: &str) -> (s: CommandStep)
    ensures
        s matches CommandStep::Run(m) && m@ == command_method(mode@),
{
    if str_eq(mode, "write") {
        CommandStep::Run("cli_write_command".to_owned())
    } else {
        CommandStep::Run("cli_read_command".to_owned())
    }
}

/// How the daemon refuses a command that is not allowed.
pub open spec fn not_allowed() -> Seq<char> {
    "E_COMMAND_NOT_WHITELISTED: "@
}

/// Goes on after the daemon was asked to run a command; `reply` is its output, if it
/// has any. The user is asked about a command that is not allowed.
pub fn command_replied(reply: Result<Option<String>, String>) -> (s: CommandStep)
    ensures
        match reply {
            Ok(output) => s matches CommandStep::Done(r) && r is Ok && r->Ok_0@ == or_text(opt_text(output), ""@),
            Err(e) => if not_allowed().is_prefix_of(e@) {
                s matches CommandStep::AskToAllow(w) && w@ == trimmed(without_prefixes(e@, not_allowed()))
            } else {
                s matches CommandStep::Done(r) && r == Err::<String, String>(e)
            },
        },
{
    match reply {
        Ok(Some(text)) => CommandStep::Done(Ok(text)),
        Ok(None) => CommandStep::Done(Ok("".to_owned())),
        Err(e) => {
            if starts_with(e.as_str(), "E_COMMAND_NOT_WHITELISTED: ") {
                let rest = strip_prefixes(e.as_str(), "E_COMMAND_NOT_WHITELISTED: ");
                CommandStep::AskToAllow(trim(rest.as_str()))
            } else {
                CommandStep::Done(Err(e))
            }
        },
    }
}

/// Goes on after the user was asked about a command; `lower` is the answer in lower
/// case and without white space around it.
pub fn command_answered(word: String, lower: &str) -> (s: CommandStep)
    ensures
        if allows(lower@) {
            s matches CommandStep::Allow(w) && w == word
        } else {
            s matches CommandStep::Done(r) && r is Err && r->Err_0@ == "Command '"@ + word@
                + "' execution denied by user."@
        },
{
    if is_yes(lower) {
        CommandStep::Allow(word)
    } else {
        let mut e = "Command '".to_owned();
        e.append(word.as_str());
        e.append("' execution denied by user.");
        CommandStep::Done(Err(e))
    }
}

/// Goes on after the daemon was told that a command may be run: it is tried again.
pub fn command_allowed(mode: &str, outcome: Result<(), String>) -> (s: CommandStep)
    ensures
        match outcome {
            Ok(_) => s matches CommandStep::Run(m) && m@ == command_method(mode@),
            Err(e) => s matches CommandStep::Done(r) && r is Err && r->Err_0@
                == "Failed to add command to whitelist: "@ + e@,
        },
{
    match outcome {
        Ok(_) => run_command(mode),
        Err(e) => {
            let mut m = "Failed to add command to whitelist: ".to_owned();
            m.append(e.as_str());
            CommandStep::Done(Err(m))
        },
    }
}

/// The byte stands for itself in an address.
pub open spec fn is_unreserved(b: u8) -> bool {
    ||| 48 <= b <= 57
    ||| 65 <= b <= 90
    ||| 97 <= b <= 122
    ||| b == 45
    ||| b == 46
    ||| b == 95
    ||| b == 126
}

/// A digit of a number to the base of sixteen.
pub open spec fn hex_digit(d: int) -> char {
    if d < 10 {
        ('0' as int + d) as char
    } else {
        ('A' as int + (d - 10)) as char
    }
}

/// Bytes as they stand in an address: letters, digits and the characters `-`, `.`, `_`
/// and `~` for themselves, any other byte as `%` and two digits to the base of sixteen.
pub open spec fn percent_encoded(bytes: Seq<u8>) -> Seq<char>
    decreases bytes.len(),
{
    if bytes.len() == 0 {
        Seq::empty()
    } else {
        let b = bytes.last();
        percent_encoded(bytes.drop_last()) + (if is_unreserved(b) {
            seq![b as char]
        } else {
            seq!['%', hex_digit(b as int / 16), hex_digit(b as int % 16)]
        })
    }
}

/// `urlencoding::encode` encodes every byte of a text for an address, except letters,
/// digits and `-`, `.`, `_` and `~`.
#[verifier::external_body]
fn encode_url(s: &str) -> (r: String)
    ensures
        r@ == percent_encoded(encode_utf8(s@)),
{
    urlencoding::encode(s).into_owned()
}

/// How the web is searched.
pub enum WebPlan {
    Tavily,
    Google { url: String },
    Brave { url: String },
    /// By the search that needs no key.
    Fallback,
}

/// The address of a search by Google.
pub open spec fn google_url(query: Seq<char>, key: Seq<char>, cx: Seq<char>, limit: nat) -> Seq<char> {
    "https://www.googleapis.com/customsearch/v1?q="@ + percent_encoded(encode_utf8(query)) + "&key="@ + percent_encoded(
        encode_utf8(key),
    ) + "&cx="@ + percent_encoded(encode_utf8(cx)) + "&num="@ + decimal_text(limit)
}

/// The address of a search by Brave.
pub open spec fn brave_url(query: Seq<char>, limit: nat) -> Seq<char> {
    "https://api.search.brave.com/res/v1/web/search?q="@ + percent_encoded(encode_utf8(query)) + "&count="@
        + decimal_text(limit)
}

/// The way in which the web is searched: a provider is asked only if there is a key
/// for it.
pub open spec fn is_web_plan(provider: Seq<char>, key: Seq<char>, cx: Option<Seq<char>>, query: Seq<char>, limit: nat, p: WebPlan) -> bool {
    if provider == "tavily"@ && key.len() > 0 {
        p is Tavily
    } else if provider == "google"@ && key.len() > 0 && cx is Some {
        p matches WebPlan::Google { url } && url@ == google_url(query, key, cx->0, limit)
    } else if provider == "brave"@ && key.len() > 0 {
        p matches WebPlan::Brave { url } && url@ == brave_url(query, limit)
    } else {
        p is Fallback
    }
}

/// Tells how the web is searched; the name of the provider is in lower case.
pub fn web_plan(provider: &str, key: &str, cx: &Option<String>, query: &str, limit: u64) -> (p: WebPlan)
    ensures
        is_web_plan(provider@, key@, opt_text(*cx), query@, limit as nat, p),
{
    let has_key = !key.is_empty();
    if str_eq(provider, "tavily") && has_key {
        return WebPlan::Tavily;
    }
    let count = decimal(limit);
    let encoded_query = encode_url(query);
    if str_eq(provider, "google") && has_key {
        if let Some(engine) = cx {
            let encoded_key = encode_url(key);
            let encoded_cx = encode_url(engine.as_str());
            let mut url = "https://www.googleapis.com/customsearch/v1?q=".to_owned();
            url.append(encoded_query.as_str());
            url.append("&key=");
            url.append(encoded_key.as_str());
            url.append("&cx=");
            url.append(encoded_cx.as_str());
            url.append("&num=");
            url.append(count.as_str());
            return WebPlan::Google { url };
        }
    }
    if str_eq(provider, "brave") && has_key {
        let mut url = "https://api.search.brave.com/res/v1/web/search?q=".to_owned();
        url.append(encoded_query.as_str());
        url.append("&count=");
        url.append(count.as_str());
        return WebPlan::Brave { url };
    }
    WebPlan::Fallback
}

/// Tells how the web is searched by the settings of the agent.
pub fn plan_web_search(config: &AiConfig, key: &str, query: &str, limit: u64) -> (p: WebPlan)
    ensures
        is_web_plan(
            lowercase_of(or_text(opt_text(config.websearch_provider), "duckduckgo"@)),
            key@,
            opt_text(config.websearch_cx),
            query@,
            limit as nat,
            p,
        ),
{
    let provider = match &config.websearch_provider {
        Some(s) => lowercase(s.as_str()),
        None => lowercase("duckduckgo"),
    };
    web_plan(provider.as_str(), key, &config.websearch_cx, query, limit)
}

/// What a provider says of one page.
pub struct WebItem {
    pub title: Option<String>,
    pub url: Option<String>,
    pub snippet: Option<String>,
}

/// A page that was found.
#[derive(Debug)]
pub struct SearchResult {
    pub title: String,
    pub snippet: String,
    pub url: String,
    /// Pages are numbered from 1.
    pub ref_index: usize,
}

/// The page that an item of a provider's reply describes.
pub open spec fn is_result(item: WebItem, index: int, r: SearchResult) -> bool {
    &&& r.title@ == or_text(opt_text(item.title), ""@)
    &&& r.snippet@ == or_text(opt_text(item.snippet), ""@)
    &&& r.url@ == or_text(opt_text(item.url), ""@)
    &&& r.ref_index == index + 1
}

fn text_or_empty(o: &Option<String>) -> (r: String)
    ensures
        r@ == or_text(opt_text(*o), ""@),
{
    match o {
        Some(s) => s.clone(),
        None => "".to_owned(),
    }
}

/// The pages of a provider's reply, numbered.
pub fn web_results(items: &Vec<WebItem>) -> (r: Vec<SearchResult>)
    ensures
        r@.len() == items@.len(),
        forall|i: int| 0 <= i < r@.len() ==> is_result(items@[i], i, #[trigger] r@[i]),
{
    let n = items.len();
    let mut r: Vec<SearchResult> = Vec::new();
    let mut i: usize = 0;
    while i < n
        invariant
            n == items@.len(),
            i <= n,
            r@.len() == i,
            forall|k: int| 0 <= k < i ==> is_result(items@[k], k, #[trigger] r@[k]),
        decreases n - i,
    {
        r.push(
            SearchResult {
                title: text_or_empty(&items[i].title),
                snippet: text_or_empty(&items[i].snippet),
                url: text_or_empty(&items[i].url),
                ref_index: i + 1,
            },
        );
        i = i + 1;
    }
    r
}

/// No provider is asked without a key.
pub proof fn law_no_key_no_provider(provider: Seq<char>, cx: Option<Seq<char>>, query: Seq<char>, limit: nat, p: WebPlan)
    requires
        is_web_plan(provider, Seq::empty(), cx, query, limit, p),
    ensures
        p is Fallback,
{
}

/// Each wait between attempts to reach the model is twice as long as the one before.
pub proof fn law_delays()
    ensures
        delay_after(1) == FIRST_DELAY_MS,
        forall|n: nat| n >= 1 ==> #[trigger] delay_after(n + 1) == 2 * delay_after(n),
{
    assert forall|n: nat| n >= 1 implies #[trigger] delay_after(n + 1) == 2 * delay_after(n) by {
        reveal_with_fuel(delay_after, 2);
    }
}

} // verus!
