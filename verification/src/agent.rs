//! First-party deterministic agent.
//!
//! The behavior is simple and command-like:
//!
//! - `read <path>` asks for `fs.read`
//! - `shell <command>` asks for `shell.exec`
//! - anything else asks for `demo.echo`

use crate::cbor::{
    cbor_debug, cbor_map_integer, cbor_map_text, debug_text, first_integer, first_text,
    lemma_table_model, make_text_entry, text_entry, CborModel, CborValue, entry_models,
};
use crate::proto::{
    event_views, hears, hello, make_hello, make_ready, ready, subscription, ClientKind, Event,
    EventModel, EventName,
};
use crate::text::{
    decimal, digit, has_prefix, push_decimal, push_signed_decimal, signed_decimal, slice_text,
    starts_with, str_eq, to_chars, trim, trim_str,
};
use vstd::prelude::*;

verus! {

// ---------------------------------------------------------------------------
// Requests
// ---------------------------------------------------------------------------

/// The tool that a user message asks for, and its arguments.
pub open spec fn request_of(text: Seq<char>) -> (Seq<char>, CborModel) {
    if starts_with(text, "read "@) {
        (
            "fs.read"@,
            CborModel::Table(seq![text_entry("path"@, trim(text.skip("read "@.len() as int)))]),
        )
    } else if starts_with(text, "shell "@) {
        (
            "shell.exec"@,
            CborModel::Table(
                seq![text_entry("command"@, trim(text.skip("shell "@.len() as int)))],
            ),
        )
    } else {
        ("demo.echo"@, CborModel::Text(text))
    }
}

/// A table with one text entry.
fn text_table(key: &str, value: &str) -> (v: CborValue)
    ensures
        v.model() == CborModel::Table(seq![text_entry(key@, value@)]),
{
    let entries = vec![make_text_entry(key, value)];
    proof {
        lemma_table_model(entries);
        assert(entry_models(entries@) =~= seq![text_entry(key@, value@)]);
    }
    CborValue::Table(entries)
}

/// What follows `prefix` in `text`, without white space around it.
fn trimmed_rest(text: &str, prefix: &str) -> (r: Option<String>)
    ensures
        match r {
            Some(s) => starts_with(text@, prefix@) && s@ == trim(text@.skip(prefix@.len() as int)),
            None => !starts_with(text@, prefix@),
        },
{
    let chars = to_chars(text);
    let head = to_chars(prefix);
    if !has_prefix(&chars, &head) {
        return None;
    }
    let rest = slice_text(&chars, head.len(), chars.len());
    proof {
        assert(rest@ =~= text@.skip(prefix@.len() as int));
    }
    Some(trim_str(rest.as_str()))
}

/// The tool request for a user message.
pub fn request_for_user_message(call_id: String, text: String) -> (e: Event)
    ensures
        e@ == (EventModel::ToolRequest {
            call_id: call_id@,
            tool_name: request_of(text@).0,
            arguments: request_of(text@).1,
        }),
{
    if let Some(path) = trimmed_rest(text.as_str(), "read ") {
        return Event::ToolRequest {
            call_id,
            tool_name: "fs.read".to_owned(),
            arguments: text_table("path", path.as_str()),
        };
    }
    if let Some(command) = trimmed_rest(text.as_str(), "shell ") {
        return Event::ToolRequest {
            call_id,
            tool_name: "shell.exec".to_owned(),
            arguments: text_table("command", command.as_str()),
        };
    }
    Event::ToolRequest {
        call_id,
        tool_name: "demo.echo".to_owned(),
        arguments: CborValue::Text(text),
    }
}

// ---------------------------------------------------------------------------
// Answers
// ---------------------------------------------------------------------------

/// The first text under `key`, or a default.
pub open spec fn text_or(v: CborModel, key: Seq<char>, default: Seq<char>) -> Seq<char> {
    match first_text(v.entries(), key) {
        Some(s) => s,
        None => default,
    }
}

/// A labelled output that is left out where it is empty.
pub open spec fn output_section(label: Seq<char>, output: Seq<char>) -> Seq<char> {
    if output.len() == 0 {
        Seq::empty()
    } else {
        label + output
    }
}

/// The answer to the user for a tool result.
pub open spec fn result_text(tool_name: Seq<char>, result: CborModel) -> Seq<char> {
    if tool_name == "fs.read"@ {
        "fs.read "@ + text_or(result, "path"@, "<unknown>"@) + ":\n"@ + text_or(
            result,
            "content"@,
            cbor_debug(result),
        )
    } else if tool_name == "shell.exec"@ {
        let status = match first_integer(
            result.entries(),
            "status"@,
            i128::MIN as int,
            i128::MAX as int,
        ) {
            Some(n) => signed_decimal(n),
            None => "unknown"@,
        };
        "shell.exec status "@ + status + output_section(
            "\nstdout:\n"@,
            text_or(result, "stdout"@, Seq::empty()),
        ) + output_section("\nstderr:\n"@, text_or(result, "stderr"@, Seq::empty()))
    } else {
        tool_name + " returned: "@ + cbor_debug(result)
    }
}

/// The answer to the user for a tool error.
pub open spec fn error_text(
    tool_name: Seq<char>,
    message: Seq<char>,
    details: Option<CborModel>,
) -> Seq<char> {
    let stderr = match details {
        Some(d) if tool_name == "shell.exec"@ => text_or(d, "stderr"@, Seq::empty()),
        _ => Seq::empty(),
    };
    tool_name + " failed: "@ + message + output_section("\nstderr:\n"@, stderr)
}

fn map_text(value: &CborValue, key: &str) -> (r: Option<String>)
    ensures
        match r {
            Some(s) => first_text(value.model().entries(), key@) == Some(s@),
            None => first_text(value.model().entries(), key@) is None,
        },
{
    match cbor_map_text(value, key) {
        Some(s) => Some(s.to_owned()),
        None => None,
    }
}

/// The first text under `key`, or an empty one.
fn map_text_or_empty(value: &CborValue, key: &str) -> (s: String)
    ensures
        s@ == text_or(value.model(), key@, Seq::empty()),
{
    match map_text(value, key) {
        Some(s) => s,
        None => String::new(),
    }
}

/// Whether a string is empty.
fn is_blank(s: &str) -> (r: bool)
    ensures
        r == (s@.len() == 0),
{
    to_chars(s).len() == 0
}

/// Appends a labelled output, unless it is empty.
fn push_section(text: &mut String, label: &str, output: &str)
    ensures
        final(text)@ == old(text)@ + output_section(label@, output@),
{
    let ghost start = text@;
    if !is_blank(output) {
        text.append(label);
        text.append(output);
    }
    proof {
        assert(text@ =~= start + output_section(label@, output@));
    }
}

/// The number in decimal notation.
fn status_text(status: i128) -> (s: String)
    requires
        status > i128::MIN,
    ensures
        s@ == signed_decimal(status as int),
{
    let mut s = String::new();
    push_signed_decimal(&mut s, status);
    proof {
        assert(s@ =~= signed_decimal(status as int));
    }
    s
}

/// The answer to the user for a tool result.
pub fn format_tool_result(tool_name: &str, result: &CborValue) -> (s: String)
    ensures
        s@ == result_text(tool_name@, result.model()),
{
    if str_eq(tool_name, "fs.read") {
        let path = match map_text(result, "path") {
            Some(path) => path,
            None => "<unknown>".to_owned(),
        };
        let content = match map_text(result, "content") {
            Some(content) => content,
            None => debug_text(result),
        };
        let mut text = "fs.read ".to_owned();
        text.append(path.as_str());
        text.append(":\n");
        text.append(content.as_str());
        return text;
    }
    if str_eq(tool_name, "shell.exec") {
        let status = match cbor_map_integer(result, "status") {
            Some(value) => {
                proof {
                    crate::cbor::lemma_integer_range(*result, "status"@);
                }
                status_text(value)
            },
            None => "unknown".to_owned(),
        };
        let stdout = map_text_or_empty(result, "stdout");
        let stderr = map_text_or_empty(result, "stderr");
        let mut text = "shell.exec status ".to_owned();
        text.append(status.as_str());
        push_section(&mut text, "\nstdout:\n", stdout.as_str());
        push_section(&mut text, "\nstderr:\n", stderr.as_str());
        return text;
    }
    let mut text = tool_name.to_owned();
    text.append(" returned: ");
    text.append(debug_text(result).as_str());
    text
}

/// The answer to the user for a tool error.
pub fn format_tool_error(tool_name: &str, message: &str, details: &Option<CborValue>) -> (s: String)
    ensures
        s@ == error_text(tool_name@, message@, crate::proto::opt_cbor(*details)),
{
    let mut text = tool_name.to_owned();
    text.append(" failed: ");
    text.append(message);
    if str_eq(tool_name, "shell.exec") {
        if let Some(details) = details {
            let stderr = map_text_or_empty(details, "stderr");
            push_section(&mut text, "\nstderr:\n", stderr.as_str());
            return text;
        }
    }
    proof {
        assert(text@ + output_section("\nstderr:\n"@, Seq::empty()) =~= text@);
    }
    text
}

// ---------------------------------------------------------------------------
// The agent
// ---------------------------------------------------------------------------

/// The name of a call.
pub open spec fn call_name(n: nat) -> Seq<char> {
    "call-"@ + decimal(n)
}

/// The state of the agent: the number of the next call, and which session asked
/// for each call that is still open.
#[verifier::ext_equal]
pub struct AgentModel {
    pub next_call: nat,
    pub pending: Map<Seq<char>, Seq<char>>,
}

/// What the agent does with an event.
pub enum AgentStep {
    /// Send this event.
    Send(Event),
    /// Nothing to do.
    Ignore,
    /// Stop.
    Stop,
}

/// What an [`AgentStep`] says.
#[verifier::ext_equal]
pub enum AgentStepModel {
    Send(EventModel),
    Ignore,
    Stop,
}

impl View for AgentStep {
    type V = AgentStepModel;

    open spec fn view(&self) -> AgentStepModel {
        match *self {
            AgentStep::Send(e) => AgentStepModel::Send(e@),
            AgentStep::Ignore => AgentStepModel::Ignore,
            AgentStep::Stop => AgentStepModel::Stop,
        }
    }
}

impl AgentModel {
    /// The session that asked for a call; the nameless one where none did.
    pub open spec fn session_of(self, call_id: Seq<char>) -> Seq<char> {
        if self.pending.contains_key(call_id) {
            self.pending[call_id]
        } else {
            Seq::empty()
        }
    }

    /// The call is no longer open.
    pub open spec fn closed(self, call_id: Seq<char>) -> AgentModel {
        AgentModel { pending: self.pending.remove(call_id), ..self }
    }

    /// What an event does.
    pub open spec fn after(self, event: EventModel) -> (AgentModel, AgentStepModel) {
        match event {
            EventModel::MessageUser { session_id, text } => (
                AgentModel {
                    next_call: self.next_call + 1,
                    pending: self.pending.insert(call_name(self.next_call), session_id),
                },
                AgentStepModel::Send(
                    EventModel::ToolRequest {
                        call_id: call_name(self.next_call),
                        tool_name: request_of(text).0,
                        arguments: request_of(text).1,
                    },
                ),
            ),
            EventModel::ToolResult { call_id, tool_name, result } => (
                self.closed(call_id),
                AgentStepModel::Send(
                    EventModel::MessageAgent {
                        session_id: self.session_of(call_id),
                        text: result_text(tool_name, result),
                    },
                ),
            ),
            EventModel::ToolError { call_id, tool_name, message, details } => (
                self.closed(call_id),
                AgentStepModel::Send(
                    EventModel::MessageAgent {
                        session_id: self.session_of(call_id),
                        text: error_text(tool_name, message, details),
                    },
                ),
            ),
            EventModel::LifecycleDisconnect => (self, AgentStepModel::Stop),
            _ => (self, AgentStepModel::Ignore),
        }
    }
}

/// The agent.
pub struct Agent {
    next_call_number: u64,
    pending: Vec<(String, String)>,
}

/// The map that a list of pairs stands for.
pub open spec fn pairs_map(pairs: Seq<(String, String)>) -> Map<Seq<char>, Seq<char>>
    decreases pairs.len(),
{
    if pairs.len() == 0 {
        Map::empty()
    } else {
        pairs_map(pairs.drop_last()).insert(pairs.last().0@, pairs.last().1@)
    }
}

impl View for Agent {
    type V = AgentModel;

    closed spec fn view(&self) -> AgentModel {
        AgentModel { next_call: self.next_call_number as nat, pending: pairs_map(self.pending@) }
    }
}

/// The events that announce the agent.
pub open spec fn agent_startup(version: u32) -> Seq<EventModel> {
    seq![
        hello(version, "tau-agent"@, ClientKind::Agent),
        subscription(
            seq![
                EventName::MessageUser,
                EventName::ToolResult,
                EventName::ToolError,
                EventName::LifecycleDisconnect,
            ],
        ),
        ready("agent ready"@),
    ]
}

/// The events that announce the agent.
pub fn startup_events(protocol_version: u32) -> (out: Vec<Event>)
    ensures
        event_views(out@) == agent_startup(protocol_version),
{
    let selectors = vec![
        EventName::MessageUser,
        EventName::ToolResult,
        EventName::ToolError,
        EventName::LifecycleDisconnect,
    ];
    let mut out: Vec<Event> = Vec::new();
    out.push(make_hello(protocol_version, "tau-agent", ClientKind::Agent));
    out.push(Event::LifecycleSubscribe { selectors });
    out.push(make_ready("agent ready"));
    proof {
        assert(event_views(out@) =~= agent_startup(protocol_version));
    }
    out
}

/// The position of the last pair with the given key.
proof fn lemma_pairs_lookup(pairs: Seq<(String, String)>, k: int)
    requires
        0 <= k < pairs.len(),
        forall|j: int| k < j < pairs.len() ==> (#[trigger] pairs[j]).0@ != pairs[k].0@,
    ensures
        pairs_map(pairs).contains_key(pairs[k].0@),
        pairs_map(pairs)[pairs[k].0@] == pairs[k].1@,
    decreases pairs.len(),
{
    if k < pairs.len() - 1 {
        let before = pairs.drop_last();
        assert(pairs[pairs.len() - 1].0@ != pairs[k].0@);
        assert forall|j: int| k < j < before.len() implies (#[trigger] before[j]).0@
            != before[k].0@ by {
            assert(before[j] == pairs[j]);
        }
        lemma_pairs_lookup(before, k);
    }
}

proof fn lemma_pairs_absent(pairs: Seq<(String, String)>, key: Seq<char>)
    requires
        forall|j: int| 0 <= j < pairs.len() ==> (#[trigger] pairs[j]).0@ != key,
    ensures
        !pairs_map(pairs).contains_key(key),
    decreases pairs.len(),
{
    if pairs.len() > 0 {
        let before = pairs.drop_last();
        assert(pairs[pairs.len() - 1].0@ != key);
        assert forall|j: int| 0 <= j < before.len() implies (#[trigger] before[j]).0@ != key by {
            assert(before[j] == pairs[j]);
        }
        lemma_pairs_absent(before, key);
    }
}

/// The pairs without those of one key.
spec fn pairs_without(pairs: Seq<(String, String)>, key: Seq<char>) -> Seq<(String, String)>
    decreases pairs.len(),
{
    if pairs.len() == 0 {
        Seq::empty()
    } else {
        let before = pairs_without(pairs.drop_last(), key);
        if pairs.last().0@ == key {
            before
        } else {
            before.push(pairs.last())
        }
    }
}

proof fn lemma_pairs_without(pairs: Seq<(String, String)>, key: Seq<char>)
    ensures
        pairs_map(pairs_without(pairs, key)) == pairs_map(pairs).remove(key),
    decreases pairs.len(),
{
    if pairs.len() > 0 {
        let before = pairs.drop_last();
        lemma_pairs_without(before, key);
        if pairs.last().0@ == key {
            assert(pairs_map(pairs).remove(key) =~= pairs_map(before).remove(key));
        } else {
            let kept = pairs_without(before, key);
            assert(kept.push(pairs.last()).drop_last() =~= kept);
            assert(pairs_map(pairs).remove(key) =~= pairs_map(before).remove(key).insert(
                pairs.last().0@,
                pairs.last().1@,
            ));
        }
    } else {
        assert(pairs_map(pairs).remove(key) =~= pairs_map(pairs));
    }
}

impl Agent {
    /// An agent without open calls; calls are counted from one.
    pub fn new() -> (a: Self)
        ensures
            a@ == (AgentModel { next_call: 1, pending: Map::empty() }),
    {
        Agent { next_call_number: 1, pending: Vec::new() }
    }

    /// Closes a call and returns the session that asked for it.
    fn take_session(&mut self, call_id: &str) -> (s: String)
        ensures
            s@ == old(self)@.session_of(call_id@),
            final(self)@ == old(self)@.closed(call_id@),
    {
        let ghost all = self.pending@;
        let mut found = String::new();
        let mut kept: Vec<(String, String)> = Vec::new();
        let mut i: usize = 0;
        let ghost mut last: int = -1;
        proof {
            assert(all.take(0) =~= Seq::<(String, String)>::empty());
            assert(found@ =~= Seq::<char>::empty());
        }
        while i < self.pending.len()
            invariant
                i <= self.pending@.len(),
                self.pending@ == all,
                self.next_call_number == old(self).next_call_number,
                -1 <= last < i,
                last == -1 ==> found@ == Seq::<char>::empty(),
                last >= 0 ==> all[last].0@ == call_id@ && found@ == all[last].1@,
                forall|j: int| last < j < i ==> (#[trigger] all[j]).0@ != call_id@,
                pairs_map(kept@) == pairs_map(pairs_without(all.take(i as int), call_id@)),
            decreases self.pending@.len() - i,
        {
            let pair = &self.pending[i];
            proof {
                assert(all.take(i + 1).drop_last() =~= all.take(i as int));
                assert(all.take(i + 1).last() == all[i as int]);
            }
            if str_eq(pair.0.as_str(), call_id) {
                found = pair.1.clone();
                proof {
                    last = i as int;
                }
            } else {
                let ghost done = kept@;
                kept.push((pair.0.clone(), pair.1.clone()));
                proof {
                    assert(kept@.drop_last() =~= done);
                    let w = pairs_without(all.take(i as int), call_id@);
                    assert(w.push(all[i as int]).drop_last() =~= w);
                }
            }
            i = i + 1;
        }
        proof {
            assert(all.take(i as int) =~= all);
            lemma_pairs_without(all, call_id@);
            if last >= 0 {
                lemma_pairs_lookup(all, last);
            } else {
                lemma_pairs_absent(all, call_id@);
            }
        }
        self.pending = kept;
        found
    }

    /// The number of the next call.
    pub fn next_call(&self) -> (n: u64)
        ensures
            n == self@.next_call,
    {
        self.next_call_number
    }

    /// Handles one event; `None` is the end of the input.
    pub fn handle(&mut self, event: Option<Event>) -> (step: AgentStep)
        requires
            event matches Some(Event::MessageUser { .. }) ==> old(self)@.next_call < u64::MAX,
        ensures
            match event {
                Some(e) => (final(self)@, step@) == old(self)@.after(e@),
                None => final(self)@ == old(self)@ && step@ == AgentStepModel::Stop,
            },
    {
        let event = match event {
            Some(event) => event,
            None => {
                return AgentStep::Stop;
            },
        };
        match event {
            Event::MessageUser { session_id, text } => {
                let mut call_id = "call-".to_owned();
                push_decimal(&mut call_id, self.next_call_number as u128);
                let ghost before = self.pending@;
                let key = call_id.clone();
                self.next_call_number = self.next_call_number + 1;
                self.pending.push((key, session_id));
                proof {
                    assert(self.pending@.drop_last() =~= before);
                }
                AgentStep::Send(request_for_user_message(call_id, text))
            },
            Event::ToolResult { call_id, tool_name, result } => {
                let session_id = self.take_session(call_id.as_str());
                let text = format_tool_result(tool_name.as_str(), &result);
                AgentStep::Send(Event::MessageAgent { session_id, text })
            },
            Event::ToolError { call_id, tool_name, message, details } => {
                let session_id = self.take_session(call_id.as_str());
                let text = format_tool_error(tool_name.as_str(), message.as_str(), &details);
                AgentStep::Send(Event::MessageAgent { session_id, text })
            },
            Event::LifecycleDisconnect => AgentStep::Stop,
            _ => AgentStep::Ignore,
        }
    }
}

// ---------------------------------------------------------------------------
// Laws
// ---------------------------------------------------------------------------

/// The number with the given decimal digits.
spec fn decimal_value(s: Seq<char>) -> int
    decreases s.len(),
{
    if s.len() == 0 {
        0
    } else {
        10 * decimal_value(s.drop_last()) + (s.last() as u32 - 48)
    }
}

proof fn lemma_decimal_value(n: nat)
    ensures
        decimal_value(decimal(n)) == n,
    decreases n,
{
    if n < 10 {
        assert(seq![digit(n)].drop_last() =~= Seq::<char>::empty());
        reveal_with_fuel(decimal_value, 2);
    } else {
        lemma_decimal_value(n / 10);
        let s = decimal(n / 10);
        assert(s.push(digit(n % 10)).drop_last() =~= s);
    }
}

/// Different calls have different names.
pub proof fn law_calls_have_distinct_names(m: nat, n: nat)
    ensures
        call_name(m) == call_name(n) <==> m == n,
{
    lemma_decimal_value(m);
    lemma_decimal_value(n);
    let k = "call-"@.len() as int;
    assert(call_name(m).skip(k) =~= decimal(m));
    assert(call_name(n).skip(k) =~= decimal(n));
}

/// The result of a call is answered in the session whose message led to it, and
/// closes the call: a second result of the same call goes to the nameless
/// session.
pub proof fn law_answer_reaches_asking_session(
    a: AgentModel,
    session_id: Seq<char>,
    text: Seq<char>,
    tool_name: Seq<char>,
    result: CborModel,
)
    ensures
        ({
            let asked = a.after(EventModel::MessageUser { session_id, text }).0;
            let reply = EventModel::ToolResult {
                call_id: call_name(a.next_call),
                tool_name,
                result,
            };
            let answered = asked.after(reply);
            &&& answered.1 == AgentStepModel::Send(
                EventModel::MessageAgent { session_id, text: result_text(tool_name, result) },
            )
            &&& answered.0.after(reply).1 == AgentStepModel::Send(
                EventModel::MessageAgent {
                    session_id: Seq::empty(),
                    text: result_text(tool_name, result),
                },
            )
        }),
{
}

/// A message opens a new call and leaves the calls that are open alone, as long
/// as open calls have names of earlier calls.
pub proof fn law_open_calls_are_kept(
    a: AgentModel,
    session_id: Seq<char>,
    text: Seq<char>,
    earlier: nat,
)
    requires
        earlier < a.next_call,
    ensures
        a.after(EventModel::MessageUser { session_id, text }).0.session_of(call_name(earlier))
            == a.session_of(call_name(earlier)),
{
    law_calls_have_distinct_names(earlier, a.next_call);
}

/// What a user asks for reaches the tool whole: the path behind `read ` and the
/// command behind `shell `, without the white space around them, and any other text as
/// it is.
pub proof fn law_requests_carry_what_was_asked_for(text: Seq<char>)
    ensures
        request_of("read "@ + text) == (
            "fs.read"@,
            CborModel::Table(seq![(CborModel::Text("path"@), CborModel::Text(trim(text)))]),
        ),
        request_of("shell "@ + text) == (
            "shell.exec"@,
            CborModel::Table(seq![(CborModel::Text("command"@), CborModel::Text(trim(text)))]),
        ),
        (forall|rest: Seq<char>|
            text != #[trigger] ("read "@ + rest)) && (forall|rest: Seq<char>|
            text != #[trigger] ("shell "@ + rest)) ==> request_of(text) == (
            "demo.echo"@,
            CborModel::Text(text),
        ),
{
    reveal_strlit("read ");
    reveal_strlit("shell ");
    let a = "read "@ + text;
    let b = "shell "@ + text;
    assert(a.take("read "@.len() as int) =~= "read "@);
    assert(a.skip("read "@.len() as int) =~= text);
    assert(b.take("shell "@.len() as int) =~= "shell "@);
    assert(b.skip("shell "@.len() as int) =~= text);
    assert(!starts_with(b, "read "@)) by {
        assert(b.take(5)[0] == 's');
        assert("read "@[0] == 'r');
    }
    if starts_with(text, "read "@) {
        assert("read "@ + text.skip("read "@.len() as int) =~= text);
    }
    if starts_with(text, "shell "@) {
        assert("shell "@ + text.skip("shell "@.len() as int) =~= text);
    }
}

/// The answer for a tool result shows what the tool returned, in full: the content of a
/// file, the status of a command and all that it wrote.
pub proof fn law_answers_show_what_tools_returned(
    result: CborModel,
    path: Seq<char>,
    content: Seq<char>,
    status: int,
    stdout: Seq<char>,
    stderr: Seq<char>,
)
    ensures
        first_text(result.entries(), "path"@) == Some(path) && first_text(
            result.entries(),
            "content"@,
        ) == Some(content) ==> result_text("fs.read"@, result) == "fs.read "@ + path + ":\n"@
            + content,
        first_integer(result.entries(), "status"@, i128::MIN as int, i128::MAX as int) == Some(
            status,
        ) && first_text(result.entries(), "stdout"@) == Some(stdout) && first_text(
            result.entries(),
            "stderr"@,
        ) == Some(stderr) && stdout.len() > 0 && stderr.len() > 0 ==> result_text(
            "shell.exec"@,
            result,
        ) == "shell.exec status "@ + signed_decimal(status) + ("\nstdout:\n"@ + stdout) + (
        "\nstderr:\n"@ + stderr),
        first_integer(result.entries(), "status"@, i128::MIN as int, i128::MAX as int) == Some(
            status,
        ) && first_text(result.entries(), "stdout"@) == Some(stdout) && stdout.len() > 0 && (
        match first_text(result.entries(), "stderr"@) {
            Some(e) => e.len() == 0,
            None => true,
        }) ==> result_text("shell.exec"@, result) == "shell.exec status "@ + signed_decimal(status)
            + ("\nstdout:\n"@ + stdout),
{
    reveal_strlit("fs.read");
    reveal_strlit("shell.exec");
    assert("fs.read"@.len() != "shell.exec"@.len());
    let head = "shell.exec status "@ + signed_decimal(status) + ("\nstdout:\n"@ + stdout);
    assert(head + Seq::<char>::empty() =~= head);
}

/// The answer for a tool error names the tool and gives its message in full, and what a
/// command wrote as an error behind it.
pub proof fn law_answers_show_why_tools_failed(
    tool_name: Seq<char>,
    message: Seq<char>,
    details: CborModel,
    stderr: Seq<char>,
)
    ensures
        error_text(tool_name, message, None) == tool_name + " failed: "@ + message,
        tool_name != "shell.exec"@ ==> error_text(tool_name, message, Some(details)) == tool_name
            + " failed: "@ + message,
        first_text(details.entries(), "stderr"@) == Some(stderr) && stderr.len() > 0 ==> error_text(
            "shell.exec"@,
            message,
            Some(details),
        ) == "shell.exec"@ + " failed: "@ + message + ("\nstderr:\n"@ + stderr),
{
    let head = tool_name + " failed: "@ + message;
    assert(head + Seq::<char>::empty() =~= head);
}

/// Every message of a user becomes one request, under a number of its own; a result or
/// an error becomes one answer and changes no other open call.
pub proof fn law_every_event_is_answered_once(
    a: AgentModel,
    session_id: Seq<char>,
    text: Seq<char>,
    call_id: Seq<char>,
    tool_name: Seq<char>,
    result: CborModel,
    other: Seq<char>,
)
    requires
        other != call_id,
    ensures
        ({
            let (b, step) = a.after(EventModel::MessageUser { session_id, text });
            &&& b.next_call == a.next_call + 1
            &&& step == AgentStepModel::Send(
                EventModel::ToolRequest {
                    call_id: "call-"@ + decimal(a.next_call),
                    tool_name: request_of(text).0,
                    arguments: request_of(text).1,
                },
            )
        }),
        ({
            let (b, step) = a.after(EventModel::ToolResult { call_id, tool_name, result });
            &&& b.next_call == a.next_call
            &&& b.session_of(other) == a.session_of(other)
            &&& step matches AgentStepModel::Send(EventModel::MessageAgent { session_id: s, .. })
                && s == a.session_of(call_id)
        }),
        ({
            let (b, step) = a.after(
                EventModel::ToolError { call_id, tool_name, message: text, details: Some(result) },
            );
            &&& b.next_call == a.next_call
            &&& b.session_of(other) == a.session_of(other)
            &&& step == AgentStepModel::Send(
                EventModel::MessageAgent {
                    session_id: a.session_of(call_id),
                    text: error_text(tool_name, text, Some(result)),
                },
            )
        }),
        a.after(EventModel::LifecycleDisconnect).1 is Stop,
{
}

/// The agent introduces itself as one, subscribes to everything that it acts on,
/// and only then says that it is ready.
pub proof fn law_agent_hears_what_it_acts_on(a: AgentModel, version: u32, event: EventModel)
    ensures
        agent_startup(version)[0] matches EventModel::LifecycleHello {
            protocol_version,
            client_kind,
            ..
        } && protocol_version == version && client_kind is Agent,
        agent_startup(version).last() is LifecycleReady,
        !(a.after(event).1 is Ignore) ==> hears(agent_startup(version), event),
{
    let selectors = seq![
        EventName::MessageUser,
        EventName::ToolResult,
        EventName::ToolError,
        EventName::LifecycleDisconnect,
    ];
    assert(agent_startup(version)[1] == subscription(selectors));
    assert(selectors[0] is MessageUser && selectors[1] is ToolResult && selectors[2] is ToolError
        && selectors[3] is LifecycleDisconnect);
}

/// The answer to a tool result goes to the session that asked, and shows the
/// result.
pub proof fn law_results_are_shown_to_who_asked(
    a: AgentModel,
    call_id: Seq<char>,
    tool_name: Seq<char>,
    result: CborModel,
)
    ensures
        a.after(EventModel::ToolResult { call_id, tool_name, result }).1 == AgentStepModel::Send(
            EventModel::MessageAgent {
                session_id: a.session_of(call_id),
                text: result_text(tool_name, result),
            },
        ),
{
}

} // verus!
