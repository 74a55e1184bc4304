use rand::rngs::StdRng;
use rand::{Rng, SeedableRng};
use tau::cbor::CborValue;
use tau::ext_dummy::{self, DummyStep, RESTART_TEST_DUMMY_TOOL_NAME};
use tau::ext_fs::{self, argument_text, FsStep, DEMO_ECHO_TOOL_NAME, FS_READ_TOOL_NAME};
use tau::proto::Event;

fn text(s: &str) -> CborValue {
    CborValue::Text(s.to_owned())
}

fn invoke(tool: &str, arguments: CborValue) -> Event {
    Event::ToolInvoke {
        call_id: "call-1".to_owned(),
        tool_name: tool.to_owned(),
        arguments,
    }
}

const FILE_PATH: &str = "/tmp/fixture/README.txt";

/// Handles one event of the file extension where one file can be read.
fn fs_reply(event: Event) -> Event {
    match ext_fs::handle(Some(event)) {
        FsStep::Reply(reply) => reply,
        FsStep::Read { call_id, tool_name, path } => {
            let outcome = if path == FILE_PATH {
                Ok("hello from file".to_owned())
            } else {
                Err("No such file or directory (os error 2)".to_owned())
            };
            ext_fs::read_reply(call_id, tool_name, path, outcome)
        }
        _ => panic!("expected an answer"),
    }
}

#[test]
fn extension_registers_fs_read_and_reads_file_content() {
    let events = ext_fs::startup_events(1);
    assert_eq!(events.len(), 5);
    assert!(matches!(events[0], Event::LifecycleHello { .. }));
    assert!(matches!(events[1], Event::LifecycleSubscribe { .. }));
    let registered_names: Vec<&str> = events[2..4]
        .iter()
        .filter_map(|event| match event {
            Event::ToolRegister { tool } => Some(tool.name.as_str()),
            _ => None,
        })
        .collect();
    assert!(registered_names.iter().any(|name| *name == DEMO_ECHO_TOOL_NAME));
    assert!(registered_names.iter().any(|name| *name == FS_READ_TOOL_NAME));
    assert!(matches!(events[4], Event::LifecycleReady { .. }));

    let path = FILE_PATH.to_owned();
    let reply = fs_reply(invoke(
        FS_READ_TOOL_NAME,
        CborValue::Table(vec![(text("path"), text(&path))]),
    ));
    match reply {
        Event::ToolResult { tool_name, result, .. } => {
            assert_eq!(tool_name, FS_READ_TOOL_NAME);
            let content = argument_text(&result, "content").expect("content should be present");
            assert_eq!(content, "hello from file");
            assert_eq!(argument_text(&result, "path"), Ok(path));
        }
        _ => panic!("expected tool result"),
    }

    assert!(matches!(
        ext_fs::handle(Some(Event::LifecycleDisconnect)),
        FsStep::Stop
    ));
}

#[test]
fn extension_reports_read_errors_cleanly() {
    let reply = fs_reply(invoke(
        FS_READ_TOOL_NAME,
        CborValue::Table(vec![(text("path"), text("/definitely/missing/file.txt"))]),
    ));
    match reply {
        Event::ToolError { tool_name, message, .. } => {
            assert_eq!(tool_name, FS_READ_TOOL_NAME);
            assert!(message.contains("failed to read"));
            assert!(message.starts_with("failed to read /definitely/missing/file.txt: "));
        }
        _ => panic!("expected tool error"),
    }
}

#[test]
fn echo_returns_what_it_was_given() {
    match fs_reply(invoke(DEMO_ECHO_TOOL_NAME, text("x"))) {
        Event::ToolResult { result: CborValue::Text(t), .. } => assert_eq!(t, "x"),
        _ => panic!("expected tool result"),
    }
}

#[test]
fn bad_calls_are_answered_with_errors() {
    let message = |event: Event| match fs_reply(event) {
        Event::ToolError { message, .. } => message,
        _ => panic!("expected tool error"),
    };
    assert_eq!(message(invoke("nope", CborValue::Null)), "unknown tool");
    assert_eq!(
        message(invoke(FS_READ_TOOL_NAME, CborValue::Null)),
        "tool arguments must be a CBOR map"
    );
    assert_eq!(
        message(invoke(FS_READ_TOOL_NAME, CborValue::Table(Vec::new()))),
        "missing string argument: path"
    );
    assert!(matches!(ext_fs::handle(Some(Event::Other)), FsStep::Ignore));
    assert!(matches!(ext_fs::handle(None), FsStep::Stop));
}

/// Runs the dummy extension on some events with a coin.
fn run_with_rng(events: Vec<Event>, rng: &mut StdRng) -> Vec<Event> {
    let mut sent = ext_dummy::startup_events(1);
    let mut inputs: Vec<Option<Event>> = events.into_iter().map(Some).collect();
    inputs.push(None);
    for input in inputs {
        let mut step = ext_dummy::handle(input);
        if let DummyStep::Flip { call_id, tool_name } = step {
            step = ext_dummy::after_flip(call_id, tool_name, rng.gen_bool(0.5));
        }
        match step {
            DummyStep::Reply(event) => sent.push(event),
            DummyStep::Stop => break,
            _ => {}
        }
    }
    sent
}

fn invoke_restart() -> Event {
    invoke(RESTART_TEST_DUMMY_TOOL_NAME, CborValue::Table(Vec::new()))
}

#[test]
fn restart_tool_can_return_error() {
    let mut rng = StdRng::seed_from_u64(1);
    let events = run_with_rng(vec![invoke_restart()], &mut rng);
    assert!(matches!(events[0], Event::LifecycleHello { .. }));
    assert!(matches!(events[1], Event::LifecycleSubscribe { .. }));
    assert!(matches!(events[2], Event::ToolRegister { .. }));
    assert!(matches!(events[3], Event::LifecycleReady { .. }));
    match &events[4] {
        Event::ToolError { message, .. } => assert_eq!(message, "restarting failed"),
        _ => panic!("expected tool error"),
    }
    assert_eq!(events.len(), 5);
}

#[test]
fn restart_tool_can_exit_without_reply() {
    let mut rng = StdRng::seed_from_u64(2);
    let events = run_with_rng(vec![invoke_restart()], &mut rng);
    assert_eq!(events.len(), 4);
    assert!(matches!(events[0], Event::LifecycleHello { .. }));
    assert!(matches!(events[1], Event::LifecycleSubscribe { .. }));
    assert!(matches!(events[2], Event::ToolRegister { .. }));
    assert!(matches!(events[3], Event::LifecycleReady { .. }));
}

#[test]
fn other_tools_of_the_dummy_return_an_empty_table() {
    let mut rng = StdRng::seed_from_u64(1);
    let events = run_with_rng(vec![invoke("other", CborValue::Null), Event::Other], &mut rng);
    assert_eq!(events.len(), 5);
    match &events[4] {
        Event::ToolResult { tool_name, result: CborValue::Table(entries), .. } => {
            assert_eq!(tool_name, "other");
            assert!(entries.is_empty());
        }
        _ => panic!("expected tool result"),
    }
    match &events[2] {
        Event::ToolRegister { tool } => {
            assert_eq!(tool.name, "restart_test_dummy");
            let schema = tool.parameters.as_ref().unwrap();
            assert_eq!(schema.get("type").and_then(|t| t.as_text()), Some("object"));
        }
        _ => panic!("expected a tool"),
    }
}
