//! Test extension whose tool randomly restarts it or returns an error.

use crate::cbor::{entry_models, lemma_table_model, CborModel, CborValue};
use crate::json::{lemma_json_object, member_models, JsonModel, JsonValue};
use crate::proto::{
    event_views, hears, hello, make_hello, make_ready, ready, registers, subscription, ClientKind,
    Event, EventModel, EventName, ToolSideEffects, ToolSpec, ToolSpecModel,
};
use crate::text::str_eq;
use vstd::prelude::*;

verus! {

/// The tool that restarts the extension or fails.
pub const RESTART_TEST_DUMMY_TOOL_NAME: &'static str = "restart_test_dummy";

/// The schema of an object without properties.
pub open spec fn empty_schema() -> JsonModel {
    JsonModel::Object(
        seq![
            ("additionalProperties"@, JsonModel::Bool(false)),
            ("properties"@, JsonModel::Object(Seq::empty())),
            ("type"@, JsonModel::Text("object"@)),
        ],
    )
}

/// The events that announce the extension.
pub open spec fn dummy_startup(version: u32) -> Seq<EventModel> {
    seq![
        hello(version, "tau-ext-test-dummy"@, ClientKind::Tool),
        subscription(seq![EventName::ToolInvoke, EventName::LifecycleDisconnect]),
        EventModel::ToolRegister {
            tool: ToolSpecModel {
                name: RESTART_TEST_DUMMY_TOOL_NAME@,
                description: Some(
                    "Test-only tool that randomly restarts the dummy extension or returns an error"@,
                ),
                parameters: Some(empty_schema()),
                side_effects: Some(ToolSideEffects::Mutating),
            },
        },
        ready("test dummy tools ready"@),
    ]
}

fn make_empty_schema() -> (v: JsonValue)
    ensures
        v.model() == empty_schema(),
{
    let none: Vec<(String, JsonValue)> = Vec::new();
    proof {
        lemma_json_object(none);
        assert(member_models(none@) =~= Seq::<(Seq<char>, JsonModel)>::empty());
    }
    let mut members: Vec<(String, JsonValue)> = Vec::new();
    members.push(("additionalProperties".to_owned(), JsonValue::Bool(false)));
    members.push(("properties".to_owned(), JsonValue::Object(none)));
    members.push(("type".to_owned(), JsonValue::Text("object".to_owned())));
    proof {
        lemma_json_object(members);
        assert(member_models(members@) =~= empty_schema()->Object_0);
    }
    JsonValue::Object(members)
}

/// The events that announce the extension.
pub fn startup_events(protocol_version: u32) -> (out: Vec<Event>)
    ensures
        event_views(out@) == dummy_startup(protocol_version),
{
    let selectors = vec![EventName::ToolInvoke, EventName::LifecycleDisconnect];
    let mut out: Vec<Event> = Vec::new();
    out.push(make_hello(protocol_version, "tau-ext-test-dummy", ClientKind::Tool));
    out.push(Event::LifecycleSubscribe { selectors });
    out.push(
        Event::ToolRegister {
            tool: ToolSpec {
                name: RESTART_TEST_DUMMY_TOOL_NAME.to_owned(),
                description: Some(
                    "Test-only tool that randomly restarts the dummy extension or returns an error".to_owned(),
                ),
                parameters: Some(make_empty_schema()),
                side_effects: Some(ToolSideEffects::Mutating),
            },
        },
    );
    out.push(make_ready("test dummy tools ready"));
    proof {
        assert(event_views(out@) =~= dummy_startup(protocol_version));
    }
    out
}

/// What the extension does with an event.
pub enum DummyStep {
    /// Flip a coin, then go on with [`after_flip`].
    Flip { call_id: String, tool_name: String },
    /// Send this event.
    Reply(Event),
    /// Nothing to do.
    Ignore,
    /// Stop.
    Stop,
}

/// What a [`DummyStep`] says.
#[verifier::ext_equal]
pub enum DummyStepModel {
    Flip { call_id: Seq<char>, tool_name: Seq<char> },
    Reply(EventModel),
    Ignore,
    Stop,
}

impl View for DummyStep {
    type V = DummyStepModel;

    open spec fn view(&self) -> DummyStepModel {
        match *self {
            DummyStep::Flip { call_id, tool_name } => DummyStepModel::Flip {
                call_id: call_id@,
                tool_name: tool_name@,
            },
            DummyStep::Reply(e) => DummyStepModel::Reply(e@),
            DummyStep::Ignore => DummyStepModel::Ignore,
            DummyStep::Stop => DummyStepModel::Stop,
        }
    }
}

/// What the extension does with an event: a coin decides about its own tool,
/// and every other tool returns an empty table.
pub open spec fn dummy_step(event: EventModel) -> DummyStepModel {
    match event {
        EventModel::ToolInvoke { call_id, tool_name, .. } => if tool_name
            == RESTART_TEST_DUMMY_TOOL_NAME@ {
            DummyStepModel::Flip { call_id, tool_name }
        } else {
            DummyStepModel::Reply(
                EventModel::ToolResult {
                    call_id,
                    tool_name,
                    result: CborModel::Table(Seq::empty()),
                },
            )
        },
        EventModel::LifecycleDisconnect => DummyStepModel::Stop,
        _ => DummyStepModel::Ignore,
    }
}

/// Handles one event; `None` is the end of the input.
pub fn handle(event: Option<Event>) -> (step: DummyStep)
    ensures
        step@ == match event {
            Some(e) => dummy_step(e@),
            None => DummyStepModel::Stop,
        },
{
    match event {
        Some(Event::ToolInvoke { call_id, tool_name, arguments: _ }) => {
            if str_eq(tool_name.as_str(), RESTART_TEST_DUMMY_TOOL_NAME) {
                DummyStep::Flip { call_id, tool_name }
            } else {
                let entries: Vec<(CborValue, CborValue)> = Vec::new();
                proof {
                    lemma_table_model(entries);
                    assert(entry_models(entries@) =~= Seq::<(CborModel, CborModel)>::empty());
                }
                DummyStep::Reply(
                    Event::ToolResult { call_id, tool_name, result: CborValue::Table(entries) },
                )
            }
        },
        Some(Event::LifecycleDisconnect) => DummyStep::Stop,
        None => DummyStep::Stop,
        Some(_) => DummyStep::Ignore,
    }
}

/// What follows the flip of the coin: on `restart` the extension stops without
/// an answer, otherwise the call fails.
pub fn after_flip(call_id: String, tool_name: String, restart: bool) -> (step: DummyStep)
    ensures
        step@ == if restart {
            DummyStepModel::Stop
        } else {
            DummyStepModel::Reply(
                EventModel::ToolError {
                    call_id: call_id@,
                    tool_name: tool_name@,
                    message: "restarting failed"@,
                    details: None,
                },
            )
        },
{
    if restart {
        DummyStep::Stop
    } else {
        DummyStep::Reply(
            Event::ToolError {
                call_id,
                tool_name,
                message: "restarting failed".to_owned(),
                details: None,
            },
        )
    }
}

/// Every call is answered under its own name, but for one that the coin lets
/// restart the extension.
pub proof fn law_calls_are_answered_or_restart(
    call_id: Seq<char>,
    tool_name: Seq<char>,
    arguments: CborModel,
)
    ensures
        match dummy_step(EventModel::ToolInvoke { call_id, tool_name, arguments }) {
            DummyStepModel::Reply(EventModel::ToolResult { call_id: c, tool_name: t, .. }) => c
                == call_id && t == tool_name && tool_name != RESTART_TEST_DUMMY_TOOL_NAME@,
            DummyStepModel::Flip { call_id: c, tool_name: t } => c == call_id && t == tool_name
                && tool_name == RESTART_TEST_DUMMY_TOOL_NAME@,
            _ => false,
        },
{
}

/// The extension introduces itself as a tool, subscribes to everything that it
/// acts on, registers its tool, and only then says that it is ready.
pub proof fn law_dummy_announces_what_it_serves(version: u32, event: EventModel)
    ensures
        dummy_startup(version)[0] matches EventModel::LifecycleHello {
            protocol_version,
            client_kind,
            ..
        } && protocol_version == version && client_kind is Tool,
        dummy_startup(version).last() is LifecycleReady,
        !(dummy_step(event) is Ignore) ==> hears(dummy_startup(version), event),
        registers(dummy_startup(version), RESTART_TEST_DUMMY_TOOL_NAME@),
{
    let selectors = seq![EventName::ToolInvoke, EventName::LifecycleDisconnect];
    let startup = dummy_startup(version);
    assert(startup[1] == subscription(selectors));
    assert(selectors[0] is ToolInvoke && selectors[1] is LifecycleDisconnect);
    assert(startup[2]->tool.name == RESTART_TEST_DUMMY_TOOL_NAME@);
}

} // verus!
