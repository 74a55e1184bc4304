//! What the clients of language models share: errors and when to try again, and
//! what a stream of chunks adds up to.

use crate::cbor::{CborModel, CborValue};
use crate::convert::{json_to_cbor, to_cbor};
use crate::json::{parse_json, parsed_json, JsonModel, JsonNumber, JsonValue};
use crate::text::{decimal, has_prefix, push_decimal, starts_with, str_eq, str_len, to_chars};
use vstd::prelude::*;

verus! {

// ---------------------------------------------------------------------------
// Errors
// ---------------------------------------------------------------------------

/// Why a request failed. The texts are those of the errors below.
#[derive(Clone, Debug)]
pub enum LlmError {
    Http(String),
    HttpStatus(u16, String),
    Io(String),
    Json(String),
}

impl LlmError {
    /// What the error says.
    pub open spec fn spec_message(self) -> Seq<char> {
        match self {
            LlmError::Http(e) => "HTTP error: "@ + e@,
            LlmError::HttpStatus(code, body) => "HTTP "@ + decimal(code as nat) + ": "@ + body@,
            LlmError::Io(e) => "I/O error: "@ + e@,
            LlmError::Json(e) => "JSON error: "@ + e@,
        }
    }

    /// What the error says.
    pub fn message(&self) -> (s: String)
        ensures
            s@ == self.spec_message(),
    {
        match self {
            LlmError::Http(e) => {
                let mut s = "HTTP error: ".to_owned();
                s.append(e.as_str());
                s
            },
            LlmError::HttpStatus(code, body) => {
                let mut s = "HTTP ".to_owned();
                push_decimal(&mut s, *code as u128);
                s.append(": ");
                s.append(body.as_str());
                s
            },
            LlmError::Io(e) => {
                let mut s = "I/O error: ".to_owned();
                s.append(e.as_str());
                s
            },
            LlmError::Json(e) => {
                let mut s = "JSON error: ".to_owned();
                s.append(e.as_str());
                s
            },
        }
    }
}

/// How many seconds a reply asks to wait whose usage limit is reached: as many
/// as it says, or until the time it says. `now` is the time in seconds, where
/// the clock has one.
pub open spec fn usage_limit_wait(reply: Option<JsonModel>, now: Option<u64>) -> Option<u64> {
    match reply {
        None => None,
        Some(value) => match value.get("error"@) {
            None => None,
            Some(error) => if !(error.get("type"@) matches Some(t) && t.as_text()
                == Some("usage_limit_reached"@)) {
                None
            } else {
                match member_u64(error, "resets_in_seconds"@) {
                    Some(seconds) => Some(seconds),
                    None => match (member_u64(error, "resets_at"@), now) {
                        (Some(at), Some(now)) => Some(
                            if at > now {
                                (at - now) as u64
                            } else {
                                0
                            },
                        ),
                        _ => None,
                    },
                }
            },
        },
    }
}

/// A member that is a non-negative integer.
pub open spec fn member_u64(value: JsonModel, key: Seq<char>) -> Option<u64> {
    match value.get(key) {
        Some(v) => v.as_u64(),
        None => None,
    }
}

/// In how many seconds a failed request is worth another try; none where it is
/// not. `reply` is the body of a reply as JSON, if it is.
pub open spec fn retry_wait(error: LlmError, reply: Option<JsonModel>, now: Option<u64>) -> Option<
    u64,
> {
    match error {
        LlmError::Http(_) => Some(0),
        LlmError::Io(_) => Some(0),
        LlmError::Json(_) => None,
        LlmError::HttpStatus(code, body) => if code == 408 || code == 425 || 500 <= code <= 599 {
            Some(0)
        } else if code == 429 {
            match usage_limit_wait(reply, now) {
                Some(seconds) => Some(seconds),
                None => Some(0),
            }
        } else if code == 0 && starts_with(body@, "stream error:"@) {
            Some(0)
        } else {
            None
        },
    }
}

/// The reply of a failed request.
pub open spec fn error_body(error: LlmError) -> Seq<char> {
    match error {
        LlmError::HttpStatus(_, body) => body@,
        _ => Seq::empty(),
    }
}

/// A member that is a non-negative integer.
fn get_u64(value: &JsonValue, key: &str) -> (r: Option<u64>)
    ensures
        r == member_u64(value.model(), key@),
{
    match value.get(key) {
        Some(v) => v.as_u64(),
        None => None,
    }
}

/// How many seconds a reply asks to wait whose usage limit is reached.
pub fn usage_limit_retry_after(reply: Option<&JsonValue>, now: Option<u64>) -> (r: Option<u64>)
    ensures
        r == usage_limit_wait(reply_model(reply), now),
{
    let value = match reply {
        Some(value) => value,
        None => {
            return None;
        },
    };
    let error = match value.get("error") {
        Some(error) => error,
        None => {
            return None;
        },
    };
    let reached = match error.get("type") {
        Some(t) => match t.as_text() {
            Some(s) => str_eq(s, "usage_limit_reached"),
            None => false,
        },
        None => false,
    };
    if !reached {
        return None;
    }
    match get_u64(error, "resets_in_seconds") {
        Some(seconds) => Some(seconds),
        None => match (get_u64(error, "resets_at"), now) {
            (Some(at), Some(now)) => Some(at.saturating_sub(now)),
            _ => None,
        },
    }
}

/// What a reply says.
pub open spec fn reply_model(reply: Option<&JsonValue>) -> Option<JsonModel> {
    match reply {
        Some(v) => Some(v.model()),
        None => None,
    }
}

impl LlmError {
    /// In how many seconds a failed request is worth another try. Transport
    /// errors and failures of the server are; errors in the JSON and most
    /// refusals are not.
    pub fn retry_after(&self, now: Option<u64>) -> (r: Option<u64>)
        ensures
            r == retry_wait(*self, parsed_json(error_body(*self)), now),
    {
        let reply = match self {
            LlmError::HttpStatus(429, body) => parse_json(body.as_str()),
            _ => None,
        };
        match &reply {
            Some(v) => self.retry_after_reply(Some(v), now),
            None => self.retry_after_reply(None, now),
        }
    }

    /// In how many seconds a failed request is worth another try, given the body
    /// of the reply as JSON.
    pub fn retry_after_reply(&self, reply: Option<&JsonValue>, now: Option<u64>) -> (r: Option<
        u64,
    >)
        ensures
            r == retry_wait(*self, reply_model(reply), now),
    {
        match self {
            LlmError::Http(_) => Some(0),
            LlmError::Io(_) => Some(0),
            LlmError::Json(_) => None,
            LlmError::HttpStatus(code, body) => {
                let code: u16 = *code;
                if code == 408 || code == 425 || (500 <= code && code <= 599) {
                    Some(0)
                } else if code == 429 {
                    match usage_limit_retry_after(reply, now) {
                        Some(seconds) => Some(seconds),
                        None => Some(0),
                    }
                } else if code == 0 {
                    let chars = to_chars(body.as_str());
                    let prefix = to_chars("stream error:");
                    if has_prefix(&chars, &prefix) {
                        Some(0)
                    } else {
                        None
                    }
                } else {
                    None
                }
            },
        }
    }
}

// ---------------------------------------------------------------------------
// Streams
// ---------------------------------------------------------------------------

/// One tool call, as its chunks add up.
#[derive(Clone, Debug)]
pub struct ToolCallAccumulator {
    pub id: String,
    pub name: String,
    pub arguments_json: String,
}

/// What a [`ToolCallAccumulator`] says.
#[verifier::ext_equal]
pub struct AccumulatorModel {
    pub id: Seq<char>,
    pub name: Seq<char>,
    pub arguments_json: Seq<char>,
}

impl View for ToolCallAccumulator {
    type V = AccumulatorModel;

    open spec fn view(&self) -> AccumulatorModel {
        AccumulatorModel {
            id: self.id@,
            name: self.name@,
            arguments_json: self.arguments_json@,
        }
    }
}

/// What a stream adds up to.
#[derive(Clone, Debug)]
pub struct StreamState {
    pub text: String,
    pub tool_calls: Vec<ToolCallAccumulator>,
    pub input_tokens: Option<u64>,
    pub cached_tokens: Option<u64>,
    pub output_tokens: Option<u64>,
    /// The summary of the reasoning; none as long as there was none.
    pub thinking: Option<String>,
}

/// A tool call that a model asks for.
#[derive(Debug)]
pub struct AgentToolCall {
    pub id: String,
    pub name: String,
    pub arguments: CborValue,
}

/// What an [`AgentToolCall`] says.
#[verifier::ext_equal]
pub struct ToolCallModel {
    pub id: Seq<char>,
    pub name: Seq<char>,
    pub arguments: CborModel,
}

impl View for AgentToolCall {
    type V = ToolCallModel;

    open spec fn view(&self) -> ToolCallModel {
        ToolCallModel { id: self.id@, name: self.name@, arguments: self.arguments.model() }
    }
}

/// The arguments of a call: those that were read, or null.
pub open spec fn call_arguments(read: Option<JsonModel>) -> CborModel {
    match read {
        Some(v) => to_cbor(v),
        None => CborModel::Null,
    }
}

/// The calls that were accumulated. One without a name is no call.
pub open spec fn finished_calls(all: Seq<AccumulatorModel>) -> Seq<ToolCallModel>
    decreases all.len(),
{
    if all.len() == 0 {
        Seq::empty()
    } else {
        let before = finished_calls(all.drop_last());
        let a = all.last();
        if a.name.len() == 0 {
            before
        } else {
            before.push(
                ToolCallModel {
                    id: a.id,
                    name: a.name,
                    arguments: call_arguments(parsed_json(a.arguments_json)),
                },
            )
        }
    }
}

/// A call with the arguments that were read, if they could be read.
pub fn finish_call(id: String, name: String, read: Option<&JsonValue>) -> (c: AgentToolCall)
    ensures
        c@ == (ToolCallModel {
            id: id@,
            name: name@,
            arguments: call_arguments(reply_model(read)),
        }),
{
    let arguments = match read {
        Some(v) => json_to_cbor(v),
        None => CborValue::Null,
    };
    AgentToolCall { id, name, arguments }
}

impl StreamState {
    /// The state before the first chunk.
    pub fn new() -> (s: Self)
        ensures
            s.text@.len() == 0,
            s.tool_calls@.len() == 0,
            s.input_tokens is None,
            s.cached_tokens is None,
            s.output_tokens is None,
            s.thinking is None,
    {
        StreamState {
            text: String::new(),
            tool_calls: Vec::new(),
            input_tokens: None,
            cached_tokens: None,
            output_tokens: None,
            thinking: None,
        }
    }

    /// The tool calls with their arguments read. A call without a name is left
    /// out: only pieces of its arguments arrived.
    pub fn into_tool_calls(self) -> (out: Vec<AgentToolCall>)
        ensures
            crate::table::deep_views(out@) == finished_calls(
                crate::table::deep_views(self.tool_calls@),
            ),
    {
        let calls = self.tool_calls;
        let ghost all = crate::table::deep_views(calls@);
        let mut out: Vec<AgentToolCall> = Vec::new();
        let mut i: usize = 0;
        proof {
            assert(all.take(0) =~= Seq::<AccumulatorModel>::empty());
            assert(crate::table::deep_views(out@) =~= Seq::<ToolCallModel>::empty());
        }
        while i < calls.len()
            invariant
                i <= calls@.len(),
                all == crate::table::deep_views(calls@),
                crate::table::deep_views(out@) == finished_calls(all.take(i as int)),
            decreases calls@.len() - i,
        {
            let call = &calls[i];
            let ghost before = out@;
            proof {
                assert(all.take(i + 1).drop_last() =~= all.take(i as int));
                assert(all.take(i + 1).last() == call@);
                crate::text::lemma_empty_text(call.name@);
            }
            if str_len(call.name.as_str()) > 0 {
                let read = parse_json(call.arguments_json.as_str());
                let done = match &read {
                    Some(v) => finish_call(call.id.clone(), call.name.clone(), Some(v)),
                    None => finish_call(call.id.clone(), call.name.clone(), None),
                };
                out.push(done);
                proof {
                    assert(crate::table::deep_views(out@) =~= crate::table::deep_views(
                        before,
                    ).push(done@));
                }
            }
            i = i + 1;
        }
        proof {
            assert(all.take(i as int) =~= all);
        }
        out
    }
}

// ---------------------------------------------------------------------------
// Laws
// ---------------------------------------------------------------------------

/// Every finished call has a name.
pub proof fn law_finished_calls_have_names(all: Seq<AccumulatorModel>)
    ensures
        forall|i: int|
            0 <= i < finished_calls(all).len() ==> (#[trigger] finished_calls(all)[i]).name.len()
                > 0,
        finished_calls(all).len() <= all.len(),
    decreases all.len(),
{
    if all.len() > 0 {
        law_finished_calls_have_names(all.drop_last());
    }
}

/// A request that took too long, came too early or came too often is worth another
/// try, whatever the reply says.
pub proof fn law_early_and_late_requests_are_tried_again(
    code: u16,
    body: String,
    now: Option<u64>,
)
    requires
        code == 408 || code == 425 || code == 429,
    ensures
        retry_wait(LlmError::HttpStatus(code, body), parsed_json(body@), now) is Some,
{
}

/// Any other refusal of the request is not tried again.
pub proof fn law_refusals_are_final(code: u16, body: String, now: Option<u64>)
    requires
        400 <= code <= 499,
        code != 408,
        code != 425,
        code != 429,
    ensures
        retry_wait(LlmError::HttpStatus(code, body), parsed_json(body@), now) is None,
{
}

/// Every accumulated call with a name is finished, in the order of the calls: under
/// its own id and name, with what its arguments say, or null where they are no JSON.
pub proof fn law_every_named_call_is_finished(all: Seq<AccumulatorModel>)
    ensures
        ({
            let named = all.filter(|a: AccumulatorModel| a.name.len() > 0);
            let done = finished_calls(all);
            &&& done.len() == named.len()
            &&& forall|i: int|
                0 <= i < done.len() ==> (#[trigger] done[i]).id == named[i].id && done[i].name
                    == named[i].name && done[i].arguments == match parsed_json(
                    named[i].arguments_json,
                ) {
                    Some(v) => to_cbor(v),
                    None => CborModel::Null,
                }
        }),
    decreases all.len(),
{
    reveal(Seq::filter);
    if all.len() > 0 {
        law_every_named_call_is_finished(all.drop_last());
    }
}

/// A reply that tells how many seconds a usage limit lasts is waited for that long;
/// one that tells when the limit ends, until then.
pub proof fn law_usage_limits_are_waited_for(
    body: String,
    now: u64,
    reply: JsonModel,
    error: JsonModel,
    n: u64,
)
    requires
        parsed_json(body@) == Some(reply),
        reply.get("error"@) == Some(error),
        error.get("type"@) == Some(JsonModel::Text("usage_limit_reached"@)),
    ensures
        error.get("resets_in_seconds"@) == Some(JsonModel::Number(JsonNumber::Unsigned(n)))
            ==> retry_wait(LlmError::HttpStatus(429, body), parsed_json(body@), Some(now)) == Some(
            n,
        ),
        error.get("resets_in_seconds"@) is None && error.get("resets_at"@) == Some(
            JsonModel::Number(JsonNumber::Unsigned(n)),
        ) ==> (retry_wait(
            LlmError::HttpStatus(429, body),
            parsed_json(body@),
            Some(now),
        ) matches Some(s) && (if n >= now {
            now + s == n
        } else {
            s == 0
        })),
{
}

/// What breaks between the two sides or inside the server is tried again at once;
/// broken JSON and statuses of any other kind are not.
pub proof fn law_only_transient_failures_are_tried_again(
    code: u16,
    text: String,
    now: Option<u64>,
)
    ensures
        retry_wait(LlmError::Http(text), parsed_json(Seq::empty()), now) == Some(0u64),
        retry_wait(LlmError::Io(text), parsed_json(Seq::empty()), now) == Some(0u64),
        retry_wait(LlmError::Json(text), parsed_json(Seq::empty()), now) is None,
        500 <= code <= 599 ==> retry_wait(
            LlmError::HttpStatus(code, text),
            parsed_json(text@),
            now,
        ) == Some(0u64),
        1 <= code < 400 || code >= 600 ==> retry_wait(
            LlmError::HttpStatus(code, text),
            parsed_json(text@),
            now,
        ) is None,
        code == 0 ==> retry_wait(LlmError::HttpStatus(code, text), parsed_json(text@), now)
            == if exists|rest: Seq<char>| #[trigger] ("stream error:"@ + rest) == text@ {
            Some(0u64)
        } else {
            None
        },
{
    let p = "stream error:"@;
    if starts_with(text@, p) {
        assert(p + text@.skip(p.len() as int) =~= text@);
    } else if exists|rest: Seq<char>| #[trigger] (p + rest) == text@ {
        let rest = choose|rest: Seq<char>| #[trigger] (p + rest) == text@;
        assert((p + rest).take(p.len() as int) =~= p);
    }
}

/// A reply that came too often and names no usage limit is tried again at once.
pub proof fn law_other_limits_are_not_waited_for(body: String, now: Option<u64>)
    requires
        !(parsed_json(body@) matches Some(reply) && reply.get("error"@) matches Some(error)
            && error.get("type"@) == Some(JsonModel::Text("usage_limit_reached"@))),
    ensures
        retry_wait(LlmError::HttpStatus(429, body), parsed_json(body@), now) == Some(0u64),
{
}

} // verus!
