use tau::cbor::{cbor_map_text, CborValue};
use tau::json::parse_json;
use tau::llm::{
    finish_call, usage_limit_retry_after, LlmError, StreamState, ToolCallAccumulator,
};

fn status(code: u16, body: &str) -> LlmError {
    LlmError::HttpStatus(code, body.to_owned())
}

#[test]
fn errors_say_where_they_come_from() {
    assert_eq!(LlmError::Http("x".to_owned()).message(), "HTTP error: x");
    assert_eq!(status(404, "gone").message(), "HTTP 404: gone");
    assert_eq!(LlmError::Io("x".to_owned()).message(), "I/O error: x");
    assert_eq!(LlmError::Json("x".to_owned()).message(), "JSON error: x");
}

#[test]
fn transient_errors_are_tried_again() {
    assert_eq!(LlmError::Http("x".to_owned()).retry_after(None), Some(0));
    assert_eq!(LlmError::Io("x".to_owned()).retry_after(None), Some(0));
    assert_eq!(LlmError::Json("x".to_owned()).retry_after(None), None);
    for code in [408, 425, 429, 500, 503, 599] {
        assert_eq!(status(code, "").retry_after(None), Some(0), "{code}");
    }
    for code in [400, 401, 404, 428, 430, 499, 600, 0] {
        assert_eq!(status(code, "").retry_after(None), None, "{code}");
    }
    assert_eq!(status(0, "stream error: overload").retry_after(None), Some(0));
    assert_eq!(status(0, "response failed: no").retry_after(None), None);
}

#[test]
fn usage_limits_say_how_long_to_wait() {
    let body = |inner: &str| format!("{{\"error\":{{\"type\":\"usage_limit_reached\"{inner}}}}}");
    let wait = |inner: &str, now: Option<u64>| status(429, &body(inner)).retry_after(now);
    assert_eq!(wait(",\"resets_in_seconds\":30", None), Some(30));
    assert_eq!(wait(",\"resets_in_seconds\":30,\"resets_at\":900", Some(1)), Some(30));
    assert_eq!(wait(",\"resets_at\":900", Some(850)), Some(50));
    assert_eq!(wait(",\"resets_at\":900", Some(950)), Some(0));
    assert_eq!(wait(",\"resets_at\":900", None), Some(0));
    assert_eq!(wait("", Some(1)), Some(0));
    assert_eq!(status(429, "{\"error\":{\"type\":\"other\"}}").retry_after(Some(1)), Some(0));
    assert_eq!(status(429, "not json").retry_after(Some(1)), Some(0));

    let reply = parse_json(&body(",\"resets_at\":7"));
    assert_eq!(usage_limit_retry_after(reply.as_ref(), Some(5)), Some(2));
    assert_eq!(usage_limit_retry_after(None, Some(5)), None);
}

fn call(id: &str, name: &str, arguments: &str) -> ToolCallAccumulator {
    ToolCallAccumulator {
        id: id.to_owned(),
        name: name.to_owned(),
        arguments_json: arguments.to_owned(),
    }
}

#[test]
fn a_stream_starts_empty() {
    let state = StreamState::new();
    assert_eq!(state.text, "");
    assert_eq!(state.input_tokens, None);
    assert_eq!(state.thinking, None);
    assert!(state.into_tool_calls().is_empty());
}

#[test]
fn calls_are_finished_with_their_arguments() {
    let mut state = StreamState::new();
    state.tool_calls = vec![
        call("1", "read", "{\"path\":\"a\"}"),
        call("2", "", "{}"),
        call("3", "shell", "{broken"),
    ];
    let calls = state.into_tool_calls();
    assert_eq!(calls.len(), 2);
    assert_eq!((calls[0].id.as_str(), calls[0].name.as_str()), ("1", "read"));
    assert_eq!(cbor_map_text(&calls[0].arguments, "path"), Some("a"));
    assert_eq!(calls[1].id, "3");
    assert!(matches!(calls[1].arguments, CborValue::Null));

    let read = parse_json("[1]");
    let done = finish_call("9".to_owned(), "x".to_owned(), read.as_ref());
    assert!(matches!(done.arguments, CborValue::Array(items) if items.len() == 1));
}
