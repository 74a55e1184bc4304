//! Filesystem-oriented tool extension.
//!
//! It serves a deterministic `demo.echo` tool and `fs.read`, which reads one
//! file.

use crate::cbor::{
    entry_models, first_text, law_first_text_is_found, lemma_table_model, make_text_entry,
    optional_argument_text, text_entry, CborModel, CborValue,
};
use crate::proto::{
    event_views, hears, hello, make_hello, make_ready, ready, registers, subscription, ClientKind,
    Event, EventModel, EventName, ToolSpec, ToolSpecModel,
};
use crate::text::str_eq;
use vstd::prelude::*;

verus! {

/// The deterministic tool.
pub const DEMO_ECHO_TOOL_NAME: &'static str = "demo.echo";

/// The tool that reads one file.
pub const FS_READ_TOOL_NAME: &'static str = "fs.read";

/// A tool with a description and nothing else.
pub open spec fn described_tool(name: Seq<char>, description: Seq<char>) -> EventModel {
    EventModel::ToolRegister {
        tool: ToolSpecModel {
            name,
            description: Some(description),
            parameters: None,
            side_effects: None,
        },
    }
}

/// The events that announce the extension.
pub open spec fn fs_startup(version: u32) -> Seq<EventModel> {
    seq![
        hello(version, "tau-ext-fs"@, ClientKind::Tool),
        subscription(seq![EventName::ToolInvoke, EventName::LifecycleDisconnect]),
        described_tool(DEMO_ECHO_TOOL_NAME@, "Echo the provided payload unchanged"@),
        described_tool(
            FS_READ_TOOL_NAME@,
            "Read the contents of a file. Returns the file path and text content. Use this instead of shell commands like cat or head."@,
        ),
        ready("filesystem tools ready"@),
    ]
}

fn describe_tool(name: &str, description: &str) -> (e: Event)
    ensures
        e@ == described_tool(name@, description@),
{
    Event::ToolRegister {
        tool: ToolSpec {
            name: name.to_owned(),
            description: Some(description.to_owned()),
            parameters: None,
            side_effects: None,
        },
    }
}

/// The events that announce the extension.
pub fn startup_events(protocol_version: u32) -> (out: Vec<Event>)
    ensures
        event_views(out@) == fs_startup(protocol_version),
{
    let selectors = vec![EventName::ToolInvoke, EventName::LifecycleDisconnect];
    let mut out: Vec<Event> = Vec::new();
    out.push(make_hello(protocol_version, "tau-ext-fs", ClientKind::Tool));
    out.push(Event::LifecycleSubscribe { selectors });
    out.push(describe_tool(DEMO_ECHO_TOOL_NAME, "Echo the provided payload unchanged"));
    out.push(
        describe_tool(
            FS_READ_TOOL_NAME,
            "Read the contents of a file. Returns the file path and text content. Use this instead of shell commands like cat or head.",
        ),
    );
    out.push(make_ready("filesystem tools ready"));
    proof {
        assert(event_views(out@) =~= fs_startup(protocol_version));
    }
    out
}

/// What the extension does with an event.
pub enum FsStep {
    /// Send this event.
    Reply(Event),
    /// Read the file at `path`, then answer with [`read_reply`].
    Read { call_id: String, tool_name: String, path: String },
    /// Nothing to do.
    Ignore,
    /// Stop.
    Stop,
}

/// What an [`FsStep`] says.
#[verifier::ext_equal]
pub enum FsStepModel {
    Reply(EventModel),
    Read { call_id: Seq<char>, tool_name: Seq<char>, path: Seq<char> },
    Ignore,
    Stop,
}

impl View for FsStep {
    type V = FsStepModel;

    open spec fn view(&self) -> FsStepModel {
        match *self {
            FsStep::Reply(e) => FsStepModel::Reply(e@),
            FsStep::Read { call_id, tool_name, path } => FsStepModel::Read {
                call_id: call_id@,
                tool_name: tool_name@,
                path: path@,
            },
            FsStep::Ignore => FsStepModel::Ignore,
            FsStep::Stop => FsStepModel::Stop,
        }
    }
}

/// The text argument `key` of a tool call, or why there is none.
pub open spec fn text_argument(arguments: CborModel, key: Seq<char>) -> Result<
    Seq<char>,
    Seq<char>,
> {
    match arguments {
        CborModel::Table(entries) => match first_text(entries, key) {
            Some(s) => Ok(s),
            None => Err("missing string argument: "@ + key),
        },
        _ => Err("tool arguments must be a CBOR map"@),
    }
}

/// The error answer to a call.
pub open spec fn call_error(call_id: Seq<char>, tool_name: Seq<char>, message: Seq<char>) -> EventModel {
    EventModel::ToolError { call_id, tool_name, message, details: None }
}

/// What the extension does with an event.
pub open spec fn fs_step(event: EventModel) -> FsStepModel {
    match event {
        EventModel::ToolInvoke { call_id, tool_name, arguments } => if tool_name
            == DEMO_ECHO_TOOL_NAME@ {
            FsStepModel::Reply(EventModel::ToolResult { call_id, tool_name, result: arguments })
        } else if tool_name == FS_READ_TOOL_NAME@ {
            match text_argument(arguments, "path"@) {
                Ok(path) => FsStepModel::Read { call_id, tool_name, path },
                Err(message) => FsStepModel::Reply(call_error(call_id, tool_name, message)),
            }
        } else {
            FsStepModel::Reply(call_error(call_id, tool_name, "unknown tool"@))
        },
        EventModel::LifecycleDisconnect => FsStepModel::Stop,
        _ => FsStepModel::Ignore,
    }
}

/// The text argument `key`.
pub fn argument_text(arguments: &CborValue, key: &str) -> (r: Result<String, String>)
    ensures
        match r {
            Ok(s) => text_argument(arguments.model(), key@) == Ok::<Seq<char>, Seq<char>>(s@),
            Err(e) => text_argument(arguments.model(), key@) == Err::<Seq<char>, Seq<char>>(e@),
        },
{
    if let CborValue::Table(entries) = arguments {
        proof {
            lemma_table_model(*entries);
        }
        match optional_argument_text(arguments, key) {
            Some(s) => Ok(s),
            None => {
                let mut message = "missing string argument: ".to_owned();
                message.append(key);
                Err(message)
            },
        }
    } else {
        Err("tool arguments must be a CBOR map".to_owned())
    }
}

fn make_error(call_id: String, tool_name: String, message: String) -> (e: Event)
    ensures
        e@ == call_error(call_id@, tool_name@, message@),
{
    Event::ToolError { call_id, tool_name, message, details: None }
}

/// Handles one event; `None` is the end of the input.
pub fn handle(event: Option<Event>) -> (step: FsStep)
    ensures
        step@ == match event {
            Some(e) => fs_step(e@),
            None => FsStepModel::Stop,
        },
{
    match event {
        Some(Event::ToolInvoke { call_id, tool_name, arguments }) => {
            if str_eq(tool_name.as_str(), DEMO_ECHO_TOOL_NAME) {
                FsStep::Reply(Event::ToolResult { call_id, tool_name, result: arguments })
            } else if str_eq(tool_name.as_str(), FS_READ_TOOL_NAME) {
                match argument_text(&arguments, "path") {
                    Ok(path) => FsStep::Read { call_id, tool_name, path },
                    Err(message) => FsStep::Reply(make_error(call_id, tool_name, message)),
                }
            } else {
                FsStep::Reply(make_error(call_id, tool_name, "unknown tool".to_owned()))
            }
        },
        Some(Event::LifecycleDisconnect) => FsStep::Stop,
        None => FsStep::Stop,
        Some(_) => FsStep::Ignore,
    }
}

/// The answer to a call of the reading tool: path and content of the file, or
/// why it could not be read.
pub open spec fn read_answer(
    call_id: Seq<char>,
    tool_name: Seq<char>,
    path: Seq<char>,
    outcome: Result<Seq<char>, Seq<char>>,
) -> EventModel {
    match outcome {
        Ok(content) => EventModel::ToolResult {
            call_id,
            tool_name,
            result: CborModel::Table(
                seq![text_entry("path"@, path), text_entry("content"@, content)],
            ),
        },
        Err(error) => call_error(
            call_id,
            tool_name,
            "failed to read "@ + path + ": "@ + error,
        ),
    }
}

/// The texts of an outcome.
pub open spec fn outcome_view(r: Result<String, String>) -> Result<Seq<char>, Seq<char>> {
    match r {
        Ok(s) => Ok(s@),
        Err(e) => Err(e@),
    }
}

/// The answer to a call of the reading tool, once the file was read or could
/// not be read.
pub fn read_reply(
    call_id: String,
    tool_name: String,
    path: String,
    outcome: Result<String, String>,
) -> (e: Event)
    ensures
        e@ == read_answer(call_id@, tool_name@, path@, outcome_view(outcome)),
{
    match outcome {
        Ok(content) => {
            let entries = vec![
                make_text_entry("path", path.as_str()),
                make_text_entry("content", content.as_str()),
            ];
            proof {
                lemma_table_model(entries);
                assert(entry_models(entries@) =~= seq![
                    text_entry("path"@, path@),
                    text_entry("content"@, content@),
                ]);
            }
            Event::ToolResult { call_id, tool_name, result: CborValue::Table(entries) }
        },
        Err(error) => {
            let mut message = "failed to read ".to_owned();
            message.append(path.as_str());
            message.append(": ");
            message.append(error.as_str());
            make_error(call_id, tool_name, message)
        },
    }
}

/// Every call gets an answer under its own name: at once, or after the read
/// that it asks for.
pub proof fn law_every_call_is_answered(
    call_id: Seq<char>,
    tool_name: Seq<char>,
    arguments: CborModel,
)
    ensures
        match fs_step(EventModel::ToolInvoke { call_id, tool_name, arguments }) {
            FsStepModel::Reply(EventModel::ToolResult { call_id: c, tool_name: t, .. }) => c
                == call_id && t == tool_name,
            FsStepModel::Reply(EventModel::ToolError { call_id: c, tool_name: t, .. }) => c
                == call_id && t == tool_name,
            FsStepModel::Read { call_id: c, tool_name: t, .. } => c == call_id && t == tool_name,
            _ => false,
        },
{
}

/// The echo gives back what it was given. A file is read at the path that the
/// first text under `path` names, and without one the call fails. No other tool
/// is known.
pub proof fn law_tools_do_what_they_are_for(
    call_id: Seq<char>,
    tool_name: Seq<char>,
    arguments: CborModel,
)
    ensures
        tool_name == "demo.echo"@ ==> fs_step(
            EventModel::ToolInvoke { call_id, tool_name, arguments },
        ) == FsStepModel::Reply(EventModel::ToolResult { call_id, tool_name, result: arguments }),
        tool_name == "fs.read"@ ==> match fs_step(
            EventModel::ToolInvoke { call_id, tool_name, arguments },
        ) {
            FsStepModel::Read { path, .. } => arguments is Table && arguments->Table_0.contains(
                (CborModel::Text("path"@), CborModel::Text(path)),
            ),
            FsStepModel::Reply(EventModel::ToolError { .. }) => arguments is Table ==> forall|i: int|
                0 <= i < arguments->Table_0.len() ==> !((#[trigger] arguments->Table_0[i]).0
                    == CborModel::Text("path"@) && arguments->Table_0[i].1 is Text),
            _ => false,
        },
        tool_name != "demo.echo"@ && tool_name != "fs.read"@ ==> fs_step(
            EventModel::ToolInvoke { call_id, tool_name, arguments },
        ) == FsStepModel::Reply(
            EventModel::ToolError { call_id, tool_name, message: "unknown tool"@, details: None },
        ),
{
    reveal_strlit("demo.echo");
    reveal_strlit("fs.read");
    assert("demo.echo"@.len() == 9 && "fs.read"@.len() == 7);
    if let CborModel::Table(entries) = arguments {
        law_first_text_is_found(entries, "path"@);
    }
}

/// The answer to a read names the file and holds all of its content; where the
/// file could not be read, it says why.
pub proof fn law_read_answers_hold_the_content(
    call_id: Seq<char>,
    tool_name: Seq<char>,
    path: Seq<char>,
    content: Seq<char>,
    error: Seq<char>,
)
    ensures
        read_answer(call_id, tool_name, path, Ok(content)) matches EventModel::ToolResult {
            result: CborModel::Table(entries),
            ..
        } && first_text(entries, "path"@) == Some(path) && first_text(entries, "content"@) == Some(
            content,
        ),
        read_answer(call_id, tool_name, path, Err(error)) matches EventModel::ToolError {
            message,
            ..
        } && message == "failed to read "@ + path + ": "@ + error,
{
    reveal_strlit("path");
    reveal_strlit("content");
    assert("path"@.len() == 4 && "content"@.len() == 7);
    let entries = seq![text_entry("path"@, path), text_entry("content"@, content)];
    assert(entries.drop_first()[0] == entries[1]);
    reveal_with_fuel(first_text, 3);
}

/// The extension introduces itself as a tool, subscribes to everything that it
/// acts on, registers the tools that it serves, and only then says that it is
/// ready.
pub proof fn law_extension_announces_what_it_serves(
    version: u32,
    event: EventModel,
    tool_name: Seq<char>,
)
    ensures
        fs_startup(version)[0] matches EventModel::LifecycleHello {
            protocol_version,
            client_kind,
            ..
        } && protocol_version == version && client_kind is Tool,
        fs_startup(version).last() is LifecycleReady,
        !(fs_step(event) is Ignore) ==> hears(fs_startup(version), event),
        tool_name == "demo.echo"@ || tool_name == "fs.read"@ ==> registers(
            fs_startup(version),
            tool_name,
        ),
{
    let selectors = seq![EventName::ToolInvoke, EventName::LifecycleDisconnect];
    let startup = fs_startup(version);
    assert(startup[1] == subscription(selectors));
    assert(selectors[0] is ToolInvoke && selectors[1] is LifecycleDisconnect);
    assert(startup[2]->tool.name == "demo.echo"@);
    assert(startup[3]->tool.name == "fs.read"@);
}

} // verus!
