//! Notifications about the agent's turns, as terminal user variables.
//!
//! - the start of a turn sets a sound variable;
//! - the end of a turn sets it to another sound;
//! - some time without input after the end of a turn sets a text variable.
//!
//! The idle timer is reset by every prompt, of the user or of the agent.

use crate::json::{
    compact_json, keys_ordered, pair_views, parsed_json, text_member, text_object, write_text_object, JsonModel,
};
use crate::proto::{
    event_views, hello, make_hello, make_ready, ready, subscription, ClientKind, Event, EventModel,
    EventName,
};
use crate::text::text_lt;
use vstd::prelude::*;

verus! {

/// Log target of this extension.
pub const LOG_TARGET: &'static str = "dpc_notifications";

/// Variable for sound notifications.
pub const SOUND_VAR_NAME: &'static str = "user-notification";

/// Variable for text notifications.
pub const TEXT_VAR_NAME: &'static str = "user-text-notification";

/// Sound at the start of an agent turn.
pub const VALUE_AGENT_START: &'static str = "protoss-probe-ack";

/// Sound at the end of an agent turn.
pub const VALUE_AGENT_END: &'static str = "protoss-upgrade-complete";

/// Default idle time before the text notification, in seconds.
pub const DEFAULT_IDLE_SECONDS: u64 = 60;

/// Nanoseconds in a second.
pub const SECOND: u128 = 1_000_000_000;

/// The events that announce the extension.
pub open spec fn notifications_startup(version: u32) -> Seq<EventModel> {
    seq![
        hello(version, "tau-ext-dpc-notifications"@, ClientKind::Tool),
        subscription(
            seq![
                EventName::AgentPromptSubmitted,
                EventName::AgentResponseFinished,
                EventName::UiPromptSubmitted,
                EventName::LifecycleConfigure,
                EventName::LifecycleDisconnect,
            ],
        ),
        ready("dpc-notifications ready"@),
    ]
}

/// The events that announce the extension.
pub fn startup_events(protocol_version: u32) -> (out: Vec<Event>)
    ensures
        event_views(out@) == notifications_startup(protocol_version),
{
    let selectors = vec![
        EventName::AgentPromptSubmitted,
        EventName::AgentResponseFinished,
        EventName::UiPromptSubmitted,
        EventName::LifecycleConfigure,
        EventName::LifecycleDisconnect,
    ];
    let mut out: Vec<Event> = Vec::new();
    out.push(make_hello(protocol_version, "tau-ext-dpc-notifications", ClientKind::Tool));
    out.push(Event::LifecycleSubscribe { selectors });
    out.push(make_ready("dpc-notifications ready"));
    proof {
        assert(event_views(out@) =~= notifications_startup(protocol_version));
    }
    out
}

/// An event that the extension listens to.
#[derive(Debug)]
pub enum Inbound {
    /// New configuration: the idle time in seconds, or why it was rejected.
    Configure(Result<u64, String>),
    AgentPromptSubmitted,
    UiPromptSubmitted,
    /// The agent answered, with this many tool calls still to run.
    AgentResponseFinished { tool_calls: usize },
    Disconnect,
    Other,
}

/// What the extension was woken by.
#[derive(Debug)]
pub enum Input {
    Event(Inbound),
    /// The input ended.
    EndOfStream,
    /// The wait for input took as long as it may.
    Timeout,
    /// The reader is gone.
    Disconnected,
}

/// What an [`Input`] says.
#[verifier::ext_equal]
pub enum InputModel {
    Configured(u64),
    ConfigRejected(Seq<char>),
    AgentPromptSubmitted,
    UiPromptSubmitted,
    AgentResponseFinished { tool_calls: nat },
    Disconnect,
    Other,
    Closed,
    Timeout,
}

impl View for Input {
    type V = InputModel;

    open spec fn view(&self) -> InputModel {
        match *self {
            Input::Event(e) => match e {
                Inbound::Configure(Ok(seconds)) => InputModel::Configured(seconds),
                Inbound::Configure(Err(message)) => InputModel::ConfigRejected(message@),
                Inbound::AgentPromptSubmitted => InputModel::AgentPromptSubmitted,
                Inbound::UiPromptSubmitted => InputModel::UiPromptSubmitted,
                Inbound::AgentResponseFinished { tool_calls } => InputModel::AgentResponseFinished {
                    tool_calls: tool_calls as nat,
                },
                Inbound::Disconnect => InputModel::Disconnect,
                Inbound::Other => InputModel::Other,
            },
            Input::EndOfStream => InputModel::Closed,
            Input::Disconnected => InputModel::Closed,
            Input::Timeout => InputModel::Timeout,
        }
    }
}

/// How to wait for the next input. Times are in nanoseconds.
#[derive(Clone, Copy, PartialEq, Eq, Structural, Debug)]
pub enum Wait {
    /// For as long as it takes.
    Forever,
    /// For at most this long.
    AtMost(u128),
    /// Exactly this long: there will be no input, only the timeout.
    Sleep(u128),
    /// Not at all: the extension is done.
    Finished,
}

/// What the extension does after an input.
#[derive(Debug)]
pub struct NotifyStep {
    /// The event to send, if any.
    pub event: Option<Event>,
    /// Whether the extension stops.
    pub stop: bool,
}

/// State of the extension: the idle time, the moment when the text notification
/// is due, and whether the input ended. Times are in nanoseconds since a fixed
/// moment.
#[verifier::ext_equal]
pub struct NotifierModel {
    pub idle: nat,
    pub deadline: Option<nat>,
    pub closed: bool,
}

/// The extension.
#[derive(Debug)]
pub struct Notifier {
    idle: u128,
    deadline: Option<u128>,
    closed: bool,
}

impl View for Notifier {
    type V = NotifierModel;

    closed spec fn view(&self) -> NotifierModel {
        NotifierModel {
            idle: self.idle as nat,
            deadline: match self.deadline {
                Some(d) => Some(d as nat),
                None => None,
            },
            closed: self.closed,
        }
    }
}

/// The sound notification.
pub open spec fn sound(value: Seq<char>) -> EventModel {
    EventModel::Osc1337SetUserVar { name: SOUND_VAR_NAME@, value }
}

/// What the text notification says.
pub open spec fn idle_payload() -> Seq<(Seq<char>, Seq<char>)> {
    seq![
        ("body"@, "Agent is waiting for input"@),
        ("title"@, "Tau"@),
        ("urgency"@, "normal"@),
    ]
}

/// The text notification.
pub open spec fn idle_text() -> EventModel {
    EventModel::Osc1337SetUserVar {
        name: TEXT_VAR_NAME@,
        value: compact_json(text_object(idle_payload())),
    }
}

/// Whether the value of an event is read as a JSON object with the members of the
/// text notification.
pub open spec fn carries_payload(e: EventModel) -> bool {
    e matches EventModel::Osc1337SetUserVar { value, .. } && parsed_json(value) == Some(
        text_object(idle_payload()),
    )
}

/// What is left until `deadline`.
pub open spec fn time_left(deadline: nat, now: nat) -> nat {
    if deadline > now {
        (deadline - now) as nat
    } else {
        0
    }
}

impl NotifierModel {
    /// How to wait for the next input.
    pub open spec fn next_wait(self, now: nat) -> Wait {
        match self.deadline {
            Some(d) => if self.closed {
                Wait::Sleep(time_left(d, now) as u128)
            } else {
                Wait::AtMost(time_left(d, now) as u128)
            },
            None => if self.closed {
                Wait::Finished
            } else {
                Wait::Forever
            },
        }
    }

    /// What an input at time `now` does: the new state, the event to send, and
    /// whether the extension stops.
    pub open spec fn after(self, input: InputModel, now: nat) -> (
        NotifierModel,
        Option<EventModel>,
        bool,
    ) {
        match input {
            InputModel::Configured(seconds) => (
                NotifierModel { idle: seconds as nat * 1_000_000_000, ..self },
                None,
                false,
            ),
            InputModel::ConfigRejected(message) => (
                self,
                Some(EventModel::LifecycleConfigError { message }),
                false,
            ),
            InputModel::AgentPromptSubmitted => (
                NotifierModel { deadline: None, ..self },
                Some(sound(VALUE_AGENT_START@)),
                false,
            ),
            InputModel::UiPromptSubmitted => (
                NotifierModel { deadline: None, ..self },
                None,
                false,
            ),
            InputModel::AgentResponseFinished { tool_calls } => if tool_calls > 0 {
                (self, None, false)
            } else {
                (
                    NotifierModel { deadline: Some(now + self.idle), ..self },
                    Some(sound(VALUE_AGENT_END@)),
                    false,
                )
            },
            InputModel::Disconnect => (self, None, true),
            InputModel::Other => (self, None, false),
            InputModel::Closed => (
                NotifierModel { closed: true, ..self },
                None,
                self.deadline is None,
            ),
            InputModel::Timeout => (
                NotifierModel { deadline: None, ..self },
                Some(idle_text()),
                self.closed,
            ),
        }
    }
}

/// The sound notification.
pub fn sound_event(value: &str) -> (e: Event)
    ensures
        e@ == sound(value@),
{
    Event::Osc1337SetUserVar { name: SOUND_VAR_NAME.to_owned(), value: value.to_owned() }
}

proof fn lemma_payload_ordered()
    ensures
        text_object(idle_payload()) matches JsonModel::Object(all) && keys_ordered(all),
{
    reveal_strlit("body");
    reveal_strlit("title");
    reveal_strlit("urgency");
    assert(text_lt("body"@, "title"@));
    assert(text_lt("title"@, "urgency"@));
    assert(text_lt("body"@, "urgency"@));
    let all = text_object(idle_payload())->Object_0;
    assert(all[0] == text_member(idle_payload()[0]));
    assert(all[1] == text_member(idle_payload()[1]));
    assert(all[2] == text_member(idle_payload()[2]));
}

/// The text notification.
pub fn idle_text_event() -> (e: Event)
    ensures
        e@ == idle_text(),
        carries_payload(e@),
{
    let mut members: Vec<(String, String)> = Vec::new();
    members.push(("body".to_owned(), "Agent is waiting for input".to_owned()));
    members.push(("title".to_owned(), "Tau".to_owned()));
    members.push(("urgency".to_owned(), "normal".to_owned()));
    proof {
        assert(pair_views(members@) =~= idle_payload());
        lemma_payload_ordered();
    }
    let value = write_text_object(members);
    Event::Osc1337SetUserVar { name: TEXT_VAR_NAME.to_owned(), value }
}

/// The event of a step.
pub open spec fn step_event(step: NotifyStep) -> Option<EventModel> {
    match step.event {
        Some(e) => Some(e@),
        None => None,
    }
}

impl Notifier {
    /// The extension with the given idle time in nanoseconds.
    pub fn new(idle: u128) -> (n: Self)
        ensures
            n@ == (NotifierModel { idle: idle as nat, deadline: None, closed: false }),
    {
        Notifier { idle, deadline: None, closed: false }
    }

    /// The extension with the default idle time.
    pub fn with_default_idle() -> (n: Self)
        ensures
            n@ == (NotifierModel { idle: 60_000_000_000, deadline: None, closed: false }),
    {
        Notifier::new(DEFAULT_IDLE_SECONDS as u128 * SECOND)
    }

    /// How to wait for the next input at time `now`.
    pub fn next_wait(&self, now: u128) -> (w: Wait)
        ensures
            w == self@.next_wait(now as nat),
    {
        match self.deadline {
            Some(deadline) => {
                let left: u128 = if deadline > now {
                    deadline - now
                } else {
                    0
                };
                if self.closed {
                    Wait::Sleep(left)
                } else {
                    Wait::AtMost(left)
                }
            },
            None => {
                if self.closed {
                    Wait::Finished
                } else {
                    Wait::Forever
                }
            },
        }
    }

    /// Handles one input at time `now`.
    pub fn handle(&mut self, input: Input, now: u128) -> (step: NotifyStep)
        requires
            now + old(self)@.idle <= u128::MAX,
        ensures
            (final(self)@, step_event(step), step.stop) == old(self)@.after(input@, now as nat),
            input is Timeout ==> (step_event(step) matches Some(e) && carries_payload(e)),
    {
        match input {
            Input::Event(event) => match event {
                Inbound::Configure(Ok(seconds)) => {
                    self.idle = seconds as u128 * SECOND;
                    NotifyStep { event: None, stop: false }
                },
                Inbound::Configure(Err(message)) => NotifyStep {
                    event: Some(Event::LifecycleConfigError { message }),
                    stop: false,
                },
                Inbound::AgentPromptSubmitted => {
                    self.deadline = None;
                    NotifyStep { event: Some(sound_event(VALUE_AGENT_START)), stop: false }
                },
                Inbound::UiPromptSubmitted => {
                    self.deadline = None;
                    NotifyStep { event: None, stop: false }
                },
                Inbound::AgentResponseFinished { tool_calls } => {
                    if tool_calls > 0 {
                        return NotifyStep { event: None, stop: false };
                    }
                    self.deadline = Some(now + self.idle);
                    NotifyStep { event: Some(sound_event(VALUE_AGENT_END)), stop: false }
                },
                Inbound::Disconnect => NotifyStep { event: None, stop: true },
                Inbound::Other => NotifyStep { event: None, stop: false },
            },
            Input::EndOfStream | Input::Disconnected => {
                self.closed = true;
                NotifyStep { event: None, stop: self.deadline.is_none() }
            },
            Input::Timeout => {
                self.deadline = None;
                NotifyStep { event: Some(idle_text_event()), stop: self.closed }
            },
        }
    }
}

// ---------------------------------------------------------------------------
// Laws
// ---------------------------------------------------------------------------

/// The state after the inputs, each with its time.
pub open spec fn run(start: NotifierModel, inputs: Seq<(InputModel, nat)>) -> NotifierModel
    decreases inputs.len(),
{
    if inputs.len() == 0 {
        start
    } else {
        run(start, inputs.drop_last()).after(inputs.last().0, inputs.last().1).0
    }
}

/// Whether the input ends a turn: the agent answered and no tool is left to
/// run.
pub open spec fn ends_turn(input: InputModel) -> bool {
    input == (InputModel::AgentResponseFinished { tool_calls: 0 })
}

/// Whether the input takes back a pending text notification.
pub open spec fn resets_timer(input: InputModel) -> bool {
    input == InputModel::AgentPromptSubmitted || input == InputModel::UiPromptSubmitted || input
        == InputModel::Timeout
}

/// A wait can only time out while a text notification is due.
pub proof fn law_timeouts_need_a_deadline(m: NotifierModel, now: nat)
    ensures
        m.next_wait(now) is AtMost || m.next_wait(now) is Sleep <==> m.deadline is Some,
{
}

/// A text notification is only due after the end of a turn with no prompt since:
/// where one is due after the inputs, one of them ended a turn, and nothing
/// after it reset the timer.
pub proof fn law_idle_follows_end_of_turn(idle: nat, inputs: Seq<(InputModel, nat)>)
    ensures
        run(NotifierModel { idle, deadline: None, closed: false }, inputs).deadline is Some
            ==> exists|k: int|
            0 <= k < inputs.len() && ends_turn((#[trigger] inputs[k]).0) && forall|j: int|
                k < j < inputs.len() ==> !resets_timer((#[trigger] inputs[j]).0),
    decreases inputs.len(),
{
    let start = NotifierModel { idle, deadline: None, closed: false };
    if inputs.len() > 0 && run(start, inputs).deadline is Some {
        let before = inputs.drop_last();
        let last = inputs.last().0;
        if ends_turn(last) {
            assert(ends_turn(inputs[inputs.len() - 1].0));
        } else {
            law_idle_follows_end_of_turn(idle, before);
            let k = choose|k: int|
                0 <= k < before.len() && ends_turn((#[trigger] before[k]).0) && forall|j: int|
                    k < j < before.len() ==> !resets_timer((#[trigger] before[j]).0);
            assert(inputs[k] == before[k]);
            assert forall|j: int| k < j < inputs.len() implies !resets_timer(
                (#[trigger] inputs[j]).0,
            ) by {
                if j < before.len() {
                    assert(inputs[j] == before[j]);
                }
            }
        }
    }
}

/// A prompt resets the timer: after it no text notification is due, and the
/// extension waits for input as long as it takes.
pub proof fn law_prompts_reset_the_timer(m: NotifierModel, input: InputModel, now: nat, later: nat)
    requires
        input == InputModel::AgentPromptSubmitted || input == InputModel::UiPromptSubmitted,
        !m.closed,
    ensures
        m.after(input, now).0.next_wait(later) == Wait::Forever,
{
}

/// A pending text notification is still sent after the input ended: the
/// extension only stops once nothing is due.
pub proof fn law_pending_text_outlives_input(m: NotifierModel, now: nat)
    requires
        m.deadline is Some,
    ensures
        ({
            let closed = m.after(InputModel::Closed, now);
            let fired = closed.0.after(InputModel::Timeout, now);
            &&& !closed.2
            &&& closed.0.next_wait(now) is Sleep
            &&& fired.1 == Some(idle_text())
            &&& fired.2
        }),
{
}

/// The end of a turn without tool calls sounds at once and puts off the text
/// notification by exactly the idle time; a turn that goes on with tool calls does
/// neither, and a prompt only sounds.
pub proof fn law_turns_are_announced(m: NotifierModel, now: nat, tool_calls: usize)
    requires
        now + m.idle <= u128::MAX,
    ensures
        ({
            let (n, event, stop) = m.after(
                InputModel::AgentResponseFinished { tool_calls: 0 },
                now,
            );
            &&& event == Some(
                EventModel::Osc1337SetUserVar {
                    name: "user-notification"@,
                    value: "protoss-upgrade-complete"@,
                },
            )
            &&& !stop
            &&& n.idle == m.idle
            &&& !m.closed ==> n.next_wait(now) == Wait::AtMost(m.idle as u128)
        }),
        tool_calls > 0 ==> m.after(
            InputModel::AgentResponseFinished { tool_calls: tool_calls as nat },
            now,
        ) == (m, None::<EventModel>, false),
        ({
            let (n, event, stop) = m.after(InputModel::AgentPromptSubmitted, now);
            &&& event == Some(
                EventModel::Osc1337SetUserVar {
                    name: "user-notification"@,
                    value: "protoss-probe-ack"@,
                },
            )
            &&& !stop
            &&& n.deadline is None
        }),
        m.after(InputModel::UiPromptSubmitted, now).1 is None,
        m.after(InputModel::Disconnect, now).2,
        m.after(InputModel::Other, now) == (m, None::<EventModel>, false),
{
}

/// A configured idle time holds from then on, in seconds; a configuration that is
/// refused is reported with its reason and changes nothing.
pub proof fn law_configuration_sets_the_idle_time(
    m: NotifierModel,
    now: nat,
    seconds: u64,
    message: Seq<char>,
)
    ensures
        m.after(InputModel::Configured(seconds), now).0 == (NotifierModel {
            idle: seconds as nat * 1_000_000_000,
            ..m
        }),
        m.after(InputModel::Configured(seconds), now).1 is None,
        m.after(InputModel::ConfigRejected(message), now) == (
            m,
            Some(EventModel::LifecycleConfigError { message }),
            false,
        ),
        DEFAULT_IDLE_SECONDS == 60,
{
}

/// The text notification is sent when its time is up, once, and says that the agent is
/// waiting.
pub proof fn law_text_notification_says_what_it_should(m: NotifierModel, now: nat)
    ensures
        ({
            let (n, event, _) = m.after(InputModel::Timeout, now);
            &&& n.deadline is None
            &&& event matches Some(EventModel::Osc1337SetUserVar { name, .. }) && name
                == "user-text-notification"@
        }),
        text_object(idle_payload()).get("title"@) == Some(JsonModel::Text("Tau"@)),
        text_object(idle_payload()).get("body"@) == Some(
            JsonModel::Text("Agent is waiting for input"@),
        ),
        text_object(idle_payload()).get("urgency"@) == Some(JsonModel::Text("normal"@)),
{
    reveal_strlit("body");
    reveal_strlit("title");
    reveal_strlit("urgency");
    assert("body"@.len() == 4 && "title"@.len() == 5 && "urgency"@.len() == 7);
    let all = text_object(idle_payload())->Object_0;
    assert(all[0] == text_member(idle_payload()[0]));
    assert(all[1] == text_member(idle_payload()[1]));
    assert(all[2] == text_member(idle_payload()[2]));
    let one = all.drop_first();
    let two = one.drop_first();
    assert(one[0] == all[1] && two[0] == all[2]);
    reveal_with_fuel(crate::json::member, 4);
}

} // verus!
