use tau::agent::{
    format_tool_error, format_tool_result, request_for_user_message, startup_events, Agent,
    AgentStep,
};
use tau::cbor::{CborInteger, CborValue};
use tau::proto::{ClientKind, Event, EventName};

fn text(s: &str) -> CborValue {
    CborValue::Text(s.to_owned())
}

fn table(entries: Vec<(&str, CborValue)>) -> CborValue {
    CborValue::Table(entries.into_iter().map(|(k, v)| (text(k), v)).collect())
}

fn request(message: &str) -> (String, CborValue) {
    match request_for_user_message("call-1".to_owned(), message.to_owned()) {
        Event::ToolRequest { call_id, tool_name, arguments } => {
            assert_eq!(call_id, "call-1");
            (tool_name, arguments)
        }
        other => panic!("expected a tool request, got {other:?}"),
    }
}

fn entry(value: &CborValue, i: usize) -> (String, String) {
    match value {
        CborValue::Table(entries) => match (&entries[i].0, &entries[i].1) {
            (CborValue::Text(k), CborValue::Text(v)) => (k.clone(), v.clone()),
            _ => panic!("expected texts"),
        },
        _ => panic!("expected a table"),
    }
}

#[test]
fn user_message_routes_to_fs_read_when_requested() {
    let (tool_name, arguments) = request("read Cargo.toml");
    assert_eq!(tool_name, "fs.read");
    match &arguments {
        CborValue::Table(entries) => assert_eq!(entries.len(), 1),
        _ => panic!("expected a table"),
    }
    assert_eq!(entry(&arguments, 0), ("path".to_owned(), "Cargo.toml".to_owned()));
}

#[test]
fn user_message_routes_to_shell_exec_when_requested() {
    let (tool_name, _) = request("shell printf hi");
    assert_eq!(tool_name, "shell.exec");
}

#[test]
fn arguments_are_trimmed_and_anything_else_is_echoed() {
    let (_, arguments) = request("shell   printf hi \n");
    assert_eq!(entry(&arguments, 0), ("command".to_owned(), "printf hi".to_owned()));
    let (tool_name, arguments) = request("reading is fun");
    assert_eq!(tool_name, "demo.echo");
    match arguments {
        CborValue::Text(t) => assert_eq!(t, "reading is fun"),
        _ => panic!("expected a text"),
    }
}

#[test]
fn startup_announces_the_agent() {
    let events = startup_events(3);
    assert_eq!(events.len(), 3);
    match &events[0] {
        Event::LifecycleHello { protocol_version, client_name, client_kind } => {
            assert_eq!(*protocol_version, 3);
            assert_eq!(client_name, "tau-agent");
            assert_eq!(*client_kind, ClientKind::Agent);
        }
        other => panic!("unexpected {other:?}"),
    }
    match &events[1] {
        Event::LifecycleSubscribe { selectors } => assert_eq!(
            selectors,
            &vec![
                EventName::MessageUser,
                EventName::ToolResult,
                EventName::ToolError,
                EventName::LifecycleDisconnect,
            ]
        ),
        other => panic!("unexpected {other:?}"),
    }
    match &events[2] {
        Event::LifecycleReady { message } => assert_eq!(message.as_deref(), Some("agent ready")),
        other => panic!("unexpected {other:?}"),
    }
}

#[test]
fn read_results_show_path_and_content() {
    let result = table(vec![("path", text("a.txt")), ("content", text("hello"))]);
    assert_eq!(format_tool_result("fs.read", &result), "fs.read a.txt:\nhello");
    assert_eq!(
        format_tool_result("fs.read", &CborValue::Null),
        "fs.read <unknown>:\nNull"
    );
}

#[test]
fn shell_results_show_what_was_written() {
    let status = CborValue::Integer(CborInteger::from_i64(-7));
    let full = table(vec![
        ("status", status),
        ("stdout", text("out")),
        ("stderr", text("err")),
    ]);
    assert_eq!(
        format_tool_result("shell.exec", &full),
        "shell.exec status -7\nstdout:\nout\nstderr:\nerr"
    );
    let bare = table(vec![]);
    assert_eq!(format_tool_result("shell.exec", &bare), "shell.exec status unknown");
}

#[test]
fn other_results_are_shown_as_they_are() {
    assert_eq!(
        format_tool_result("demo.echo", &text("hi")),
        "demo.echo returned: Text(\"hi\")"
    );
    assert_eq!(
        format_tool_result("x", &CborValue::Array(vec![CborValue::Bool(true)])),
        "x returned: Array([Bool(true)])"
    );
}

#[test]
fn errors_show_what_the_shell_complained_about() {
    let details = Some(table(vec![("stderr", text("boom"))]));
    assert_eq!(
        format_tool_error("shell.exec", "exit 1", &details),
        "shell.exec failed: exit 1\nstderr:\nboom"
    );
    assert_eq!(
        format_tool_error("shell.exec", "exit 1", &Some(CborValue::Null)),
        "shell.exec failed: exit 1"
    );
    assert_eq!(
        format_tool_error("fs.read", "gone", &details),
        "fs.read failed: gone"
    );
    assert_eq!(format_tool_error("fs.read", "gone", &None), "fs.read failed: gone");
}

fn user(session: &str, message: &str) -> Option<Event> {
    Some(Event::MessageUser { session_id: session.to_owned(), text: message.to_owned() })
}

fn asked(step: AgentStep) -> String {
    match step {
        AgentStep::Send(Event::ToolRequest { call_id, .. }) => call_id,
        _ => panic!("expected a tool request"),
    }
}

fn answered(step: AgentStep) -> (String, String) {
    match step {
        AgentStep::Send(Event::MessageAgent { session_id, text }) => (session_id, text),
        _ => panic!("expected a message"),
    }
}

#[test]
fn answers_go_to_the_session_that_asked() {
    let mut agent = Agent::new();
    let first = asked(agent.handle(user("s1", "one")));
    let second = asked(agent.handle(user("s2", "two")));
    assert_eq!(first, "call-1");
    assert_eq!(second, "call-2");

    let reply = agent.handle(Some(Event::ToolResult {
        call_id: second,
        tool_name: "demo.echo".to_owned(),
        result: text("two"),
    }));
    assert_eq!(
        answered(reply),
        ("s2".to_owned(), "demo.echo returned: Text(\"two\")".to_owned())
    );
    let failed = agent.handle(Some(Event::ToolError {
        call_id: first.clone(),
        tool_name: "demo.echo".to_owned(),
        message: "no".to_owned(),
        details: None,
    }));
    assert_eq!(answered(failed), ("s1".to_owned(), "demo.echo failed: no".to_owned()));
    let stray = agent.handle(Some(Event::ToolError {
        call_id: first,
        tool_name: "demo.echo".to_owned(),
        message: "no".to_owned(),
        details: None,
    }));
    assert_eq!(answered(stray).0, "");
}

#[test]
fn the_agent_stops_when_told_to() {
    let mut agent = Agent::new();
    assert!(matches!(agent.handle(Some(Event::Other)), AgentStep::Ignore));
    assert!(matches!(agent.handle(Some(Event::LifecycleDisconnect)), AgentStep::Stop));
    assert!(matches!(agent.handle(None), AgentStep::Stop));
}
