//! Shared protocol types.

use crate::cbor::{CborModel, CborValue};
use crate::json::{JsonModel, JsonValue};
use vstd::prelude::*;

verus! {

/// Name of the protocol crate.
pub const CRATE_NAME: &'static str = "shlop-proto";

/// What kind of client connects.
#[derive(Clone, Copy, PartialEq, Eq, Structural, Debug)]
pub enum ClientKind {
    Agent,
    Tool,
}

/// Names of the events that a client can subscribe to.
#[derive(Clone, Copy, PartialEq, Eq, Structural, Debug)]
pub enum EventName {
    MessageUser,
    ToolResult,
    ToolError,
    ToolInvoke,
    AgentPromptSubmitted,
    AgentResponseFinished,
    UiPromptSubmitted,
    LifecycleConfigure,
    LifecycleDisconnect,
}

/// Whether a tool changes anything outside.
#[derive(Clone, Copy, PartialEq, Eq, Structural, Debug)]
pub enum ToolSideEffects {
    Pure,
    Mutating,
}

/// How a tool presents itself.
#[derive(Debug)]
pub struct ToolSpec {
    pub name: String,
    pub description: Option<String>,
    pub parameters: Option<JsonValue>,
    pub side_effects: Option<ToolSideEffects>,
}

/// What a [`ToolSpec`] says.
#[verifier::ext_equal]
pub struct ToolSpecModel {
    pub name: Seq<char>,
    pub description: Option<Seq<char>>,
    pub parameters: Option<JsonModel>,
    pub side_effects: Option<ToolSideEffects>,
}

/// A protocol event.
#[derive(Debug)]
pub enum Event {
    LifecycleHello { protocol_version: u32, client_name: String, client_kind: ClientKind },
    LifecycleSubscribe { selectors: Vec<EventName> },
    LifecycleReady { message: Option<String> },
    LifecycleConfigError { message: String },
    LifecycleDisconnect,
    MessageUser { session_id: String, text: String },
    MessageAgent { session_id: String, text: String },
    ToolRegister { tool: ToolSpec },
    ToolRequest { call_id: String, tool_name: String, arguments: CborValue },
    ToolInvoke { call_id: String, tool_name: String, arguments: CborValue },
    ToolResult { call_id: String, tool_name: String, result: CborValue },
    ToolError {
        call_id: String,
        tool_name: String,
        message: String,
        details: Option<CborValue>,
    },
    Osc1337SetUserVar { name: String, value: String },
    /// An event that its receiver does not act on.
    Other,
}

/// What an [`Event`] says.
#[verifier::ext_equal]
pub enum EventModel {
    LifecycleHello { protocol_version: u32, client_name: Seq<char>, client_kind: ClientKind },
    LifecycleSubscribe { selectors: Seq<EventName> },
    LifecycleReady { message: Option<Seq<char>> },
    LifecycleConfigError { message: Seq<char> },
    LifecycleDisconnect,
    MessageUser { session_id: Seq<char>, text: Seq<char> },
    MessageAgent { session_id: Seq<char>, text: Seq<char> },
    ToolRegister { tool: ToolSpecModel },
    ToolRequest { call_id: Seq<char>, tool_name: Seq<char>, arguments: CborModel },
    ToolInvoke { call_id: Seq<char>, tool_name: Seq<char>, arguments: CborModel },
    ToolResult { call_id: Seq<char>, tool_name: Seq<char>, result: CborModel },
    ToolError {
        call_id: Seq<char>,
        tool_name: Seq<char>,
        message: Seq<char>,
        details: Option<CborModel>,
    },
    Osc1337SetUserVar { name: Seq<char>, value: Seq<char> },
    Other,
}

/// The model of an optional string.
pub open spec fn opt_text(s: Option<String>) -> Option<Seq<char>> {
    match s {
        Some(s) => Some(s@),
        None => None,
    }
}

/// The model of an optional value.
pub open spec fn opt_cbor(v: Option<CborValue>) -> Option<CborModel> {
    match v {
        Some(v) => Some(v.model()),
        None => None,
    }
}

/// The model of an optional JSON value.
pub open spec fn opt_json(v: Option<JsonValue>) -> Option<JsonModel> {
    match v {
        Some(v) => Some(v.model()),
        None => None,
    }
}

impl View for ToolSpec {
    type V = ToolSpecModel;

    open spec fn view(&self) -> ToolSpecModel {
        ToolSpecModel {
            name: self.name@,
            description: opt_text(self.description),
            parameters: opt_json(self.parameters),
            side_effects: self.side_effects,
        }
    }
}

impl View for Event {
    type V = EventModel;

    open spec fn view(&self) -> EventModel {
        match *self {
            Event::LifecycleHello { protocol_version, client_name, client_kind } =>
                EventModel::LifecycleHello {
                protocol_version,
                client_name: client_name@,
                client_kind,
            },
            Event::LifecycleSubscribe { selectors } => EventModel::LifecycleSubscribe {
                selectors: selectors@,
            },
            Event::LifecycleReady { message } => EventModel::LifecycleReady {
                message: opt_text(message),
            },
            Event::LifecycleConfigError { message } => EventModel::LifecycleConfigError {
                message: message@,
            },
            Event::LifecycleDisconnect => EventModel::LifecycleDisconnect,
            Event::MessageUser { session_id, text } => EventModel::MessageUser {
                session_id: session_id@,
                text: text@,
            },
            Event::MessageAgent { session_id, text } => EventModel::MessageAgent {
                session_id: session_id@,
                text: text@,
            },
            Event::ToolRegister { tool } => EventModel::ToolRegister { tool: tool@ },
            Event::ToolRequest { call_id, tool_name, arguments } => EventModel::ToolRequest {
                call_id: call_id@,
                tool_name: tool_name@,
                arguments: arguments.model(),
            },
            Event::ToolInvoke { call_id, tool_name, arguments } => EventModel::ToolInvoke {
                call_id: call_id@,
                tool_name: tool_name@,
                arguments: arguments.model(),
            },
            Event::ToolResult { call_id, tool_name, result } => EventModel::ToolResult {
                call_id: call_id@,
                tool_name: tool_name@,
                result: result.model(),
            },
            Event::ToolError { call_id, tool_name, message, details } => EventModel::ToolError {
                call_id: call_id@,
                tool_name: tool_name@,
                message: message@,
                details: opt_cbor(details),
            },
            Event::Osc1337SetUserVar { name, value } => EventModel::Osc1337SetUserVar {
                name: name@,
                value: value@,
            },
            Event::Other => EventModel::Other,
        }
    }
}

/// What the events of a list say.
pub open spec fn event_views(v: Seq<Event>) -> Seq<EventModel> {
    Seq::new(v.len(), |i: int| v[i]@)
}

/// The hello event of a client.
pub open spec fn hello(version: u32, name: Seq<char>, kind: ClientKind) -> EventModel {
    EventModel::LifecycleHello { protocol_version: version, client_name: name, client_kind: kind }
}

/// The subscription of a client.
pub open spec fn subscription(selectors: Seq<EventName>) -> EventModel {
    EventModel::LifecycleSubscribe { selectors }
}

/// The ready event of a client.
pub open spec fn ready(message: Seq<char>) -> EventModel {
    EventModel::LifecycleReady { message: Some(message) }
}

/// The hello event of a client.
pub fn make_hello(version: u32, name: &str, kind: ClientKind) -> (e: Event)
    ensures
        e@ == hello(version, name@, kind),
{
    Event::LifecycleHello {
        protocol_version: version,
        client_name: name.to_owned(),
        client_kind: kind,
    }
}

/// The ready event of a client.
pub fn make_ready(message: &str) -> (e: Event)
    ensures
        e@ == ready(message@),
{
    Event::LifecycleReady { message: Some(message.to_owned()) }
}

/// The name under which a client subscribes to an event, if it can.
pub open spec fn event_name(e: EventModel) -> Option<EventName> {
    match e {
        EventModel::MessageUser { .. } => Some(EventName::MessageUser),
        EventModel::ToolResult { .. } => Some(EventName::ToolResult),
        EventModel::ToolError { .. } => Some(EventName::ToolError),
        EventModel::ToolInvoke { .. } => Some(EventName::ToolInvoke),
        EventModel::LifecycleDisconnect => Some(EventName::LifecycleDisconnect),
        _ => None,
    }
}

/// Whether a client that starts with these events hears of the event.
pub open spec fn hears(startup: Seq<EventModel>, e: EventModel) -> bool {
    exists|i: int|
        0 <= i < startup.len() && (#[trigger] startup[i] matches EventModel::LifecycleSubscribe {
            selectors,
        } && event_name(e) matches Some(name) && selectors.contains(name))
}

/// Whether a client that starts with these events registers the tool.
pub open spec fn registers(startup: Seq<EventModel>, name: Seq<char>) -> bool {
    exists|i: int|
        0 <= i < startup.len() && (#[trigger] startup[i] matches EventModel::ToolRegister { tool }
            && tool.name == name)
}

} // verus!
