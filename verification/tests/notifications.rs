use std::collections::VecDeque;

use tau::notifications::{
    startup_events, Inbound, Input, Notifier, Wait, SECOND, SOUND_VAR_NAME, TEXT_VAR_NAME,
    VALUE_AGENT_END, VALUE_AGENT_START,
};
use tau::proto::{ClientKind, Event, EventName};

/// Runs the extension on some inbound events with a clock of its own: waiting
/// for input that never comes ends the stream, and sleeping moves the clock.
fn run_with_idle(inbound: Vec<Inbound>, idle: u128) -> Vec<Event> {
    let mut queue: VecDeque<Inbound> = inbound.into();
    let mut notifier = Notifier::new(idle);
    let mut now: u128 = 0;
    let mut sent = Vec::new();
    loop {
        let input = match notifier.next_wait(now) {
            Wait::Finished => break,
            Wait::Forever | Wait::AtMost(_) => match queue.pop_front() {
                Some(event) => Input::Event(event),
                None => Input::EndOfStream,
            },
            Wait::Sleep(left) => {
                now += left;
                Input::Timeout
            }
        };
        let step = notifier.handle(input, now);
        sent.extend(step.event);
        if step.stop {
            break;
        }
    }
    sent
}

fn user_var(event: &Event) -> (&str, &str) {
    match event {
        Event::Osc1337SetUserVar { name, value } => (name, value),
        other => panic!("expected Osc1337SetUserVar, got {other:?}"),
    }
}

fn finished(tool_calls: usize) -> Inbound {
    Inbound::AgentResponseFinished { tool_calls }
}

#[test]
fn emits_start_and_end_user_var_in_order() {
    let sent = run_with_idle(
        vec![Inbound::AgentPromptSubmitted, finished(0), Inbound::Disconnect],
        3600 * SECOND,
    );
    assert_eq!(sent.len(), 2);
    assert_eq!(user_var(&sent[0]), (SOUND_VAR_NAME, VALUE_AGENT_START));
    assert_eq!(user_var(&sent[1]), (SOUND_VAR_NAME, VALUE_AGENT_END));
}

#[test]
fn mid_turn_finish_with_tool_calls_does_not_emit_end_sound() {
    let sent = run_with_idle(
        vec![Inbound::AgentPromptSubmitted, finished(1), Inbound::Disconnect],
        3600 * SECOND,
    );
    assert_eq!(user_var(&sent[0]).1, VALUE_AGENT_START);
    assert_eq!(
        sent.len(),
        1,
        "no further OSC events expected after mid-turn finish, got {sent:?}"
    );
}

#[test]
fn idle_timeout_fires_text_notification() {
    let sent = run_with_idle(vec![finished(0)], 50_000_000);
    assert_eq!(user_var(&sent[0]), (SOUND_VAR_NAME, VALUE_AGENT_END));
    let (name, value) = user_var(&sent[1]);
    assert_eq!(name, TEXT_VAR_NAME);
    let payload: serde_json::Value = serde_json::from_str(value).expect("idle payload is JSON");
    assert_eq!(payload["urgency"], "normal");
    assert_eq!(payload["title"], "Tau");
    assert_eq!(payload["body"], "Agent is waiting for input");
    assert_eq!(sent.len(), 2);
}

#[test]
fn the_text_notification_is_compact_json() {
    let sent = run_with_idle(vec![finished(0)], 1);
    assert_eq!(
        user_var(&sent[1]).1,
        "{\"body\":\"Agent is waiting for input\",\"title\":\"Tau\",\"urgency\":\"normal\"}"
    );
}

#[test]
fn invalid_config_emits_lifecycle_config_error() {
    let bad = "unknown field `totally_unknown_field`, expected `idle_seconds`".to_owned();
    let sent = run_with_idle(
        vec![Inbound::Configure(Err(bad.clone())), Inbound::Disconnect],
        3600 * SECOND,
    );
    match &sent[0] {
        Event::LifecycleConfigError { message } => {
            assert!(!message.is_empty(), "config error must carry a message");
            assert_eq!(message, &bad);
        }
        other => panic!("expected LifecycleConfigError, got {other:?}"),
    }
}

#[test]
fn user_prompt_during_idle_window_cancels_text_notification() {
    let sent = run_with_idle(vec![finished(0), Inbound::UiPromptSubmitted], 3600 * SECOND);
    assert_eq!(user_var(&sent[0]).1, VALUE_AGENT_END);
    assert_eq!(sent.len(), 1);
}

#[test]
fn config_sets_the_idle_time() {
    let mut notifier = Notifier::with_default_idle();
    assert_eq!(notifier.next_wait(0), Wait::Forever);
    notifier.handle(Input::Event(Inbound::Configure(Ok(5))), 0);
    notifier.handle(Input::Event(finished(0)), 10 * SECOND);
    assert_eq!(notifier.next_wait(10 * SECOND), Wait::AtMost(5 * SECOND));
    assert_eq!(notifier.next_wait(20 * SECOND), Wait::AtMost(0));
    assert!(notifier.handle(Input::Timeout, 15 * SECOND).event.is_some());
    assert_eq!(notifier.next_wait(15 * SECOND), Wait::Forever);
}

#[test]
fn a_pending_notification_outlives_the_input() {
    let mut notifier = Notifier::with_default_idle();
    notifier.handle(Input::Event(finished(0)), 0);
    let closed = notifier.handle(Input::EndOfStream, SECOND);
    assert!(!closed.stop);
    assert_eq!(notifier.next_wait(SECOND), Wait::Sleep(59 * SECOND));
    let fired = notifier.handle(Input::Timeout, 60 * SECOND);
    assert!(fired.stop);
    assert_eq!(user_var(&fired.event.unwrap()).0, TEXT_VAR_NAME);

    let mut idle = Notifier::with_default_idle();
    assert!(idle.handle(Input::Disconnected, 0).stop);
    assert_eq!(idle.next_wait(0), Wait::Finished);
}

#[test]
fn startup_announces_the_notifications() {
    let events = startup_events(1);
    assert_eq!(events.len(), 3);
    match &events[0] {
        Event::LifecycleHello { client_name, client_kind, .. } => {
            assert_eq!(client_name, "tau-ext-dpc-notifications");
            assert_eq!(*client_kind, ClientKind::Tool);
        }
        other => panic!("unexpected {other:?}"),
    }
    match &events[1] {
        Event::LifecycleSubscribe { selectors } => assert_eq!(
            selectors,
            &vec![
                EventName::AgentPromptSubmitted,
                EventName::AgentResponseFinished,
                EventName::UiPromptSubmitted,
                EventName::LifecycleConfigure,
                EventName::LifecycleDisconnect,
            ]
        ),
        other => panic!("unexpected {other:?}"),
    }
    match &events[2] {
        Event::LifecycleReady { message } => {
            assert_eq!(message.as_deref(), Some("dpc-notifications ready"))
        }
        other => panic!("unexpected {other:?}"),
    }
}
