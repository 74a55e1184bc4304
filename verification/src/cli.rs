//! Command line of the agent: commands, flags, and what is printed.

use crate::text::{str_eq, views};
use vstd::prelude::*;

verus! {

/// The commands.
#[derive(Clone, Copy, PartialEq, Eq, Structural, Debug)]
pub enum CommandKind {
    Embedded,
    Serve,
    Send,
    SessionList,
    SessionShow,
    PolicyShow,
    Help,
}

/// The flags.
#[derive(Clone, Copy, PartialEq, Eq, Structural, Debug)]
pub enum Flag {
    Message,
    SessionId,
    SessionStore,
    Socket,
    PolicyStore,
    Config,
}

/// The command with the given name; without a known name the help is shown.
pub open spec fn command_named(name: Seq<char>) -> CommandKind {
    if name == "embedded"@ {
        CommandKind::Embedded
    } else if name == "serve"@ {
        CommandKind::Serve
    } else if name == "send"@ {
        CommandKind::Send
    } else if name == "session-list"@ {
        CommandKind::SessionList
    } else if name == "session-show"@ {
        CommandKind::SessionShow
    } else if name == "policy-show"@ {
        CommandKind::PolicyShow
    } else {
        CommandKind::Help
    }
}

/// The flag with the given name, if there is one.
pub open spec fn flag_named(name: Seq<char>) -> Option<Flag> {
    if name == "--message"@ {
        Some(Flag::Message)
    } else if name == "--session-id"@ {
        Some(Flag::SessionId)
    } else if name == "--session-store"@ {
        Some(Flag::SessionStore)
    } else if name == "--socket"@ {
        Some(Flag::Socket)
    } else if name == "--policy-store"@ {
        Some(Flag::PolicyStore)
    } else if name == "--config"@ {
        Some(Flag::Config)
    } else {
        None
    }
}

/// Whether the command takes the flag.
pub open spec fn takes(command: CommandKind, flag: Flag) -> bool {
    match command {
        CommandKind::Embedded => flag == Flag::Message || flag == Flag::SessionId || flag
            == Flag::SessionStore || flag == Flag::Config,
        CommandKind::Serve => flag == Flag::Socket || flag == Flag::SessionStore || flag
            == Flag::PolicyStore || flag == Flag::Config,
        CommandKind::Send => flag == Flag::Message || flag == Flag::SessionId || flag
            == Flag::Socket,
        CommandKind::SessionList => flag == Flag::SessionStore,
        CommandKind::SessionShow => flag == Flag::SessionId || flag == Flag::SessionStore,
        CommandKind::PolicyShow => flag == Flag::PolicyStore,
        CommandKind::Help => false,
    }
}

/// The values that hold where no flag gives another.
#[derive(Debug)]
pub struct Defaults {
    pub session_id: String,
    pub session_store: String,
    pub socket: String,
    pub policy_store: String,
}

/// A parsed command line.
#[derive(Debug)]
pub struct Invocation {
    pub command: CommandKind,
    pub message: Option<String>,
    pub session_id: String,
    pub session_store: String,
    pub socket: String,
    pub policy_store: String,
    pub config: Option<String>,
    /// How many times the help has to be printed: once for the help command,
    /// and once for every argument that is no flag of the command.
    pub help: usize,
}

/// What an [`Invocation`] says.
#[verifier::ext_equal]
pub struct InvocationModel {
    pub command: CommandKind,
    pub message: Option<Seq<char>>,
    pub session_id: Seq<char>,
    pub session_store: Seq<char>,
    pub socket: Seq<char>,
    pub policy_store: Seq<char>,
    pub config: Option<Seq<char>>,
    pub help: nat,
}

/// The model of an optional string.
pub open spec fn opt_view(s: Option<String>) -> Option<Seq<char>> {
    match s {
        Some(s) => Some(s@),
        None => None,
    }
}

impl View for Invocation {
    type V = InvocationModel;

    open spec fn view(&self) -> InvocationModel {
        InvocationModel {
            command: self.command,
            message: opt_view(self.message),
            session_id: self.session_id@,
            session_store: self.session_store@,
            socket: self.socket@,
            policy_store: self.policy_store@,
            config: opt_view(self.config),
            help: self.help as nat,
        }
    }
}

impl InvocationModel {
    /// With the value of a flag; `None` is a flag at the end of the line, which
    /// takes back an optional value and keeps a default.
    pub open spec fn with_flag(self, flag: Flag, value: Option<Seq<char>>) -> InvocationModel {
        match flag {
            Flag::Message => InvocationModel { message: value, ..self },
            Flag::Config => InvocationModel { config: value, ..self },
            Flag::SessionId => match value {
                Some(v) => InvocationModel { session_id: v, ..self },
                None => self,
            },
            Flag::SessionStore => match value {
                Some(v) => InvocationModel { session_store: v, ..self },
                None => self,
            },
            Flag::Socket => match value {
                Some(v) => InvocationModel { socket: v, ..self },
                None => self,
            },
            Flag::PolicyStore => match value {
                Some(v) => InvocationModel { policy_store: v, ..self },
                None => self,
            },
        }
    }

    /// With the flags and values in `args` taken from the left.
    pub open spec fn with_args(self, args: Seq<Seq<char>>) -> InvocationModel
        decreases args.len(),
    {
        if args.len() == 0 {
            self
        } else {
            match flag_named(args[0]) {
                Some(flag) if takes(self.command, flag) => if args.len() == 1 {
                    self.with_flag(flag, None)
                } else {
                    self.with_flag(flag, Some(args[1])).with_args(args.skip(2))
                },
                _ => (InvocationModel { help: self.help + 1, ..self }).with_args(args.skip(1)),
            }
        }
    }
}

/// The meaning of a command line.
pub open spec fn invocation(args: Seq<Seq<char>>, defaults: Defaults) -> InvocationModel {
    let command = if args.len() == 0 {
        CommandKind::Help
    } else {
        command_named(args[0])
    };
    let start = InvocationModel {
        command,
        message: None,
        session_id: defaults.session_id@,
        session_store: defaults.session_store@,
        socket: defaults.socket@,
        policy_store: defaults.policy_store@,
        config: None,
        help: 0,
    };
    if command == CommandKind::Help {
        InvocationModel { help: 1, ..start }
    } else {
        start.with_args(args.skip(1))
    }
}

fn find_command(name: &str) -> (c: CommandKind)
    ensures
        c == command_named(name@),
{
    if str_eq(name, "embedded") {
        CommandKind::Embedded
    } else if str_eq(name, "serve") {
        CommandKind::Serve
    } else if str_eq(name, "send") {
        CommandKind::Send
    } else if str_eq(name, "session-list") {
        CommandKind::SessionList
    } else if str_eq(name, "session-show") {
        CommandKind::SessionShow
    } else if str_eq(name, "policy-show") {
        CommandKind::PolicyShow
    } else {
        CommandKind::Help
    }
}

fn find_flag(name: &str) -> (f: Option<Flag>)
    ensures
        f == flag_named(name@),
{
    if str_eq(name, "--message") {
        Some(Flag::Message)
    } else if str_eq(name, "--session-id") {
        Some(Flag::SessionId)
    } else if str_eq(name, "--session-store") {
        Some(Flag::SessionStore)
    } else if str_eq(name, "--socket") {
        Some(Flag::Socket)
    } else if str_eq(name, "--policy-store") {
        Some(Flag::PolicyStore)
    } else if str_eq(name, "--config") {
        Some(Flag::Config)
    } else {
        None
    }
}

fn is_taken(command: CommandKind, flag: Flag) -> (r: bool)
    ensures
        r == takes(command, flag),
{
    match command {
        CommandKind::Embedded => flag == Flag::Message || flag == Flag::SessionId || flag
            == Flag::SessionStore || flag == Flag::Config,
        CommandKind::Serve => flag == Flag::Socket || flag == Flag::SessionStore || flag
            == Flag::PolicyStore || flag == Flag::Config,
        CommandKind::Send => flag == Flag::Message || flag == Flag::SessionId || flag
            == Flag::Socket,
        CommandKind::SessionList => flag == Flag::SessionStore,
        CommandKind::SessionShow => flag == Flag::SessionId || flag == Flag::SessionStore,
        CommandKind::PolicyShow => flag == Flag::PolicyStore,
        CommandKind::Help => false,
    }
}

impl Invocation {
    /// Takes the value of a flag.
    fn set_flag(&mut self, flag: Flag, value: Option<&String>)
        ensures
            final(self)@ == old(self)@.with_flag(
                flag,
                match value {
                    Some(v) => Some(v@),
                    None => None,
                },
            ),
    {
        match value {
            Some(v) => {
                let v = v.clone();
                match flag {
                    Flag::Message => {
                        self.message = Some(v);
                    },
                    Flag::Config => {
                        self.config = Some(v);
                    },
                    Flag::SessionId => {
                        self.session_id = v;
                    },
                    Flag::SessionStore => {
                        self.session_store = v;
                    },
                    Flag::Socket => {
                        self.socket = v;
                    },
                    Flag::PolicyStore => {
                        self.policy_store = v;
                    },
                }
            },
            None => {
                match flag {
                    Flag::Message => {
                        self.message = None;
                    },
                    Flag::Config => {
                        self.config = None;
                    },
                    _ => {},
                }
            },
        }
    }

    /// The message to send: the given one, or a greeting.
    pub fn message_or_greeting(&self) -> (s: String)
        ensures
            s@ == match self@.message {
                Some(m) => m,
                None => "hello"@,
            },
    {
        match &self.message {
            Some(m) => m.clone(),
            None => "hello".to_owned(),
        }
    }
}

/// Parses the command line: the command's name and its flags.
pub fn parse_args(args: &[String], defaults: &Defaults) -> (inv: Invocation)
    ensures
        inv@ == invocation(views(args@), *defaults),
{
    let command = if args.len() == 0 {
        CommandKind::Help
    } else {
        find_command(args[0].as_str())
    };
    let mut inv = Invocation {
        command,
        message: None,
        session_id: defaults.session_id.clone(),
        session_store: defaults.session_store.clone(),
        socket: defaults.socket.clone(),
        policy_store: defaults.policy_store.clone(),
        config: None,
        help: 0,
    };
    let ghost all = views(args@);
    if command == CommandKind::Help {
        inv.help = 1;
        return inv;
    }
    let mut i: usize = 1;
    let ghost goal = inv@.with_args(all.skip(1));
    while i < args.len()
        invariant
            1 <= i <= args@.len() <= usize::MAX,
            all == views(args@),
            inv@.command == command,
            inv@.help < i,
            inv@.with_args(all.skip(i as int)) == goal,
        decreases args@.len() - i,
    {
        let ghost before = inv@;
        let ghost rest = all.skip(i as int);
        proof {
            assert(rest[0] == args@[i as int]@);
            assert(rest.skip(1) =~= all.skip(i + 1));
        }
        let mut flag: Option<Flag> = None;
        if let Some(f) = find_flag(args[i].as_str()) {
            if is_taken(command, f) {
                flag = Some(f);
            }
        }
        match flag {
            Some(f) => {
                if i + 1 < args.len() {
                    inv.set_flag(f, Some(&args[i + 1]));
                    proof {
                        assert(rest[1] == args@[i + 1]@);
                        assert(rest.skip(2) =~= all.skip(i + 2));
                    }
                    i = i + 2;
                } else {
                    inv.set_flag(f, None);
                    i = i + 1;
                    proof {
                        assert(inv@.with_args(all.skip(i as int)) == inv@);
                    }
                }
            },
            None => {
                inv.help = inv.help + 1;
                i = i + 1;
                proof {
                    assert(inv@ == (InvocationModel { help: before.help + 1, ..before }));
                }
            },
        }
    }
    inv
}

/// The lines of the help.
pub fn help_lines() -> (out: Vec<String>)
    ensures
        views(out@) == help_text(),
{
    let mut out: Vec<String> = Vec::new();
    out.push("shlop-cli commands:".to_owned());
    out.push(
        "  embedded [--message TEXT] [--session-id ID] [--session-store PATH] [--config PATH]".to_owned(),
    );
    out.push(
        "  serve [--socket PATH] [--session-store PATH] [--policy-store PATH] [--config PATH]".to_owned(),
    );
    out.push("  send [--message TEXT] [--session-id ID] [--socket PATH]".to_owned());
    out.push("  session-list [--session-store PATH]".to_owned());
    out.push("  session-show [--session-id ID] [--session-store PATH]".to_owned());
    out.push("  policy-show [--policy-store PATH]".to_owned());
    proof {
        assert(views(out@) =~= help_text());
    }
    out
}

/// The lines of the help.
pub open spec fn help_text() -> Seq<Seq<char>> {
    seq![
        "shlop-cli commands:"@,
        "  embedded [--message TEXT] [--session-id ID] [--session-store PATH] [--config PATH]"@,
        "  serve [--socket PATH] [--session-store PATH] [--policy-store PATH] [--config PATH]"@,
        "  send [--message TEXT] [--session-id ID] [--socket PATH]"@,
        "  session-list [--session-store PATH]"@,
        "  session-show [--session-id ID] [--session-store PATH]"@,
        "  policy-show [--policy-store PATH]"@,
    ]
}

// ---------------------------------------------------------------------------
// Reports
// ---------------------------------------------------------------------------

/// What came back for a message.
#[derive(Debug)]
pub struct Outcome {
    pub lifecycle_messages: Vec<String>,
    pub progress_messages: Vec<String>,
    pub response: String,
}

/// Every text with `label` in front.
pub open spec fn labelled(label: Seq<char>, texts: Seq<Seq<char>>) -> Seq<Seq<char>> {
    Seq::new(texts.len(), |i: int| label + texts[i])
}

/// The lines that report an outcome: the user's message, the lifecycle and
/// progress messages, the agent's answer.
pub open spec fn report(message: Seq<char>, outcome: Outcome) -> Seq<Seq<char>> {
    seq!["user: "@ + message] + labelled("lifecycle: "@, views(outcome.lifecycle_messages@))
        + labelled("progress: "@, views(outcome.progress_messages@)) + seq![
        "agent: "@ + outcome.response@,
    ]
}

fn label_text(label: &str, text: &str) -> (s: String)
    ensures
        s@ == label@ + text@,
{
    let mut s = label.to_owned();
    s.append(text);
    s
}

fn push_labelled(out: &mut Vec<String>, label: &str, texts: &[String])
    ensures
        views(final(out)@) == views(old(out)@) + labelled(label@, views(texts@)),
{
    let ghost start = views(out@);
    let mut i: usize = 0;
    proof {
        assert(start + labelled(label@, views(texts@).take(0)) =~= start);
    }
    while i < texts.len()
        invariant
            i <= texts@.len(),
            views(out@) == start + labelled(label@, views(texts@).take(i as int)),
        decreases texts@.len() - i,
    {
        let ghost done = out@;
        out.push(label_text(label, texts[i].as_str()));
        proof {
            assert(views(out@) =~= views(done).push(label@ + texts@[i as int]@));
            assert(views(out@) =~= start + labelled(label@, views(texts@).take(i + 1)));
        }
        i = i + 1;
    }
    proof {
        assert(views(texts@).take(i as int) =~= views(texts@));
    }
}

/// The lines that report an outcome.
pub fn report_lines(message: &str, outcome: &Outcome) -> (out: Vec<String>)
    ensures
        views(out@) == report(message@, *outcome),
{
    let mut out: Vec<String> = Vec::new();
    out.push(label_text("user: ", message));
    proof {
        assert(views(out@) =~= seq!["user: "@ + message@]);
    }
    push_labelled(&mut out, "lifecycle: ", outcome.lifecycle_messages.as_slice());
    push_labelled(&mut out, "progress: ", outcome.progress_messages.as_slice());
    let ghost before = out@;
    out.push(label_text("agent: ", outcome.response.as_str()));
    proof {
        assert(views(out@) =~= views(before) + seq!["agent: "@ + outcome.response@]);
    }
    out
}

/// The line that announces where the daemon listens.
pub fn serving_line(socket: &str) -> (s: String)
    ensures
        s@ == "serving on "@ + socket@,
{
    label_text("serving on ", socket)
}

// ---------------------------------------------------------------------------
// Configuration
// ---------------------------------------------------------------------------

/// Where to look for the configuration.
#[derive(Debug)]
pub struct LoadOptions {
    pub user_config_path: Option<String>,
    pub enable_project_config: bool,
    pub project_config_path: Option<String>,
}

/// Where to look for the configuration: an explicit path and nothing else, or
/// the default user and project paths.
pub fn load_options(explicit_path: &Option<String>) -> (o: LoadOptions)
    ensures
        opt_view(o.user_config_path) == opt_view(*explicit_path),
        o.enable_project_config == (explicit_path is None),
        o.project_config_path is None,
{
    match explicit_path {
        Some(path) => LoadOptions {
            user_config_path: Some(path.clone()),
            enable_project_config: false,
            project_config_path: None,
        },
        None => LoadOptions {
            user_config_path: None,
            enable_project_config: true,
            project_config_path: None,
        },
    }
}

/// How loading the configuration went.
#[derive(Debug)]
pub enum LoadOutcome {
    /// It was read, and names this many extensions.
    Loaded { extensions: usize },
    /// The explicit file does not exist.
    MissingExplicitFile { path: String },
    /// The current directory is unknown.
    CurrentDirectory,
    /// A file could not be read.
    ReadFile,
    /// A file could not be parsed.
    ParseFile,
}

/// Whether the configuration is to be used. Only a missing explicit file is an
/// error; a configuration without extensions counts as none.
pub fn try_load_config(outcome: &LoadOutcome) -> (r: Result<bool, String>)
    ensures
        match *outcome {
            LoadOutcome::Loaded { extensions } => r == Ok::<bool, String>(extensions > 0),
            LoadOutcome::MissingExplicitFile { path } => r matches Err(e) && e@
                == "config file not found: "@ + path@,
            LoadOutcome::CurrentDirectory
            | LoadOutcome::ReadFile
            | LoadOutcome::ParseFile => r == Ok::<bool, String>(false),
        },
{
    match outcome {
        LoadOutcome::Loaded { extensions } => Ok(*extensions > 0),
        LoadOutcome::MissingExplicitFile { path } => Err(
            label_text("config file not found: ", path.as_str()),
        ),
        LoadOutcome::CurrentDirectory | LoadOutcome::ReadFile | LoadOutcome::ParseFile => Ok(
            false,
        ),
    }
}

// ---------------------------------------------------------------------------
// Laws
// ---------------------------------------------------------------------------

/// A flag given twice counts as its last value.
pub proof fn law_last_flag_wins(
    m: InvocationModel,
    flag: Flag,
    first: Seq<char>,
    second: Seq<char>,
)
    ensures
        m.with_flag(flag, Some(first)).with_flag(flag, Some(second)) == m.with_flag(
            flag,
            Some(second),
        ),
{
}

/// Arguments change nothing of what the command does not take.
pub proof fn law_foreign_flags_keep_values(m: InvocationModel, args: Seq<Seq<char>>)
    ensures
        m.with_args(args).command == m.command,
        !takes(m.command, Flag::Message) ==> m.with_args(args).message == m.message,
        !takes(m.command, Flag::SessionId) ==> m.with_args(args).session_id == m.session_id,
        !takes(m.command, Flag::SessionStore) ==> m.with_args(args).session_store
            == m.session_store,
        !takes(m.command, Flag::Socket) ==> m.with_args(args).socket == m.socket,
        !takes(m.command, Flag::PolicyStore) ==> m.with_args(args).policy_store == m.policy_store,
        !takes(m.command, Flag::Config) ==> m.with_args(args).config == m.config,
    decreases args.len(),
{
    if args.len() > 0 {
        match flag_named(args[0]) {
            Some(flag) if takes(m.command, flag) => {
                if args.len() > 1 {
                    law_foreign_flags_keep_values(m.with_flag(flag, Some(args[1])), args.skip(2));
                }
            },
            _ => {
                law_foreign_flags_keep_values(
                    InvocationModel { help: m.help + 1, ..m },
                    args.skip(1),
                );
            },
        }
    }
}

/// Each command has one name, and whatever is no such name asks for the help.
pub proof fn law_commands_have_one_name(name: Seq<char>)
    ensures
        command_named(name) is Embedded <==> name == "embedded"@,
        command_named(name) is Serve <==> name == "serve"@,
        command_named(name) is Send <==> name == "send"@,
        command_named(name) is SessionList <==> name == "session-list"@,
        command_named(name) is SessionShow <==> name == "session-show"@,
        command_named(name) is PolicyShow <==> name == "policy-show"@,
{
    reveal_strlit("embedded");
    reveal_strlit("serve");
    reveal_strlit("send");
    reveal_strlit("session-list");
    reveal_strlit("session-show");
    reveal_strlit("policy-show");
    assert("session-list"@[8] != "session-show"@[8]);
    assert("embedded"@.len() == 8 && "serve"@.len() == 5 && "send"@.len() == 4
        && "session-list"@.len() == 12 && "session-show"@.len() == 12 && "policy-show"@.len()
        == 11);
}

/// Each flag has one name.
pub proof fn law_flags_have_one_name(name: Seq<char>)
    ensures
        flag_named(name) == Some(Flag::Message) <==> name == "--message"@,
        flag_named(name) == Some(Flag::SessionId) <==> name == "--session-id"@,
        flag_named(name) == Some(Flag::SessionStore) <==> name == "--session-store"@,
        flag_named(name) == Some(Flag::Socket) <==> name == "--socket"@,
        flag_named(name) == Some(Flag::PolicyStore) <==> name == "--policy-store"@,
        flag_named(name) == Some(Flag::Config) <==> name == "--config"@,
{
    reveal_strlit("--message");
    reveal_strlit("--session-id");
    reveal_strlit("--session-store");
    reveal_strlit("--socket");
    reveal_strlit("--policy-store");
    reveal_strlit("--config");
    assert("--socket"@[2] != "--config"@[2]);
    assert("--message"@.len() == 9 && "--session-id"@.len() == 12 && "--session-store"@.len() == 15
        && "--socket"@.len() == 8 && "--policy-store"@.len() == 14 && "--config"@.len() == 8);
}

/// The value that a command line gives to a flag.
pub open spec fn value_of(m: InvocationModel, flag: Flag) -> Option<Seq<char>> {
    match flag {
        Flag::Message => m.message,
        Flag::SessionId => Some(m.session_id),
        Flag::SessionStore => Some(m.session_store),
        Flag::Socket => Some(m.socket),
        Flag::PolicyStore => Some(m.policy_store),
        Flag::Config => m.config,
    }
}

/// Whether the arguments are flags of the command, each with a value behind it.
pub open spec fn are_pairs(command: CommandKind, args: Seq<Seq<char>>) -> bool {
    &&& args.len() % 2 == 0
    &&& forall|i: int|
        0 <= i < args.len() && i % 2 == 0 ==> flag_named(#[trigger] args[i]) is Some && takes(
            command,
            flag_named(args[i])->0,
        )
}

proof fn lemma_pairs(m: InvocationModel, args: Seq<Seq<char>>, flag: Flag)
    requires
        are_pairs(m.command, args),
        forall|i: int|
            0 <= i < args.len() && i % 2 == 0 ==> flag_named(#[trigger] args[i]) != Some(flag),
    ensures
        value_of(m.with_args(args), flag) == value_of(m, flag),
    decreases args.len(),
{
    if args.len() > 0 {
        let rest = args.skip(2);
        let next = m.with_flag(flag_named(args[0])->0, Some(args[1]));
        assert(args[0] == args[0int]);
        assert forall|i: int| 0 <= i < rest.len() && i % 2 == 0 implies flag_named(
            #[trigger] rest[i],
        ) is Some && takes(m.command, flag_named(rest[i])->0) && flag_named(rest[i]) != Some(
            flag,
        ) by {
            assert(rest[i] == args[i + 2]);
        }
        lemma_pairs(next, rest, flag);
    }
}

proof fn lemma_pairs_before(m: InvocationModel, before: Seq<Seq<char>>, args: Seq<Seq<char>>)
    requires
        are_pairs(m.command, before),
    ensures
        m.with_args(before + args) == m.with_args(before).with_args(args),
        m.with_args(before).command == m.command,
        m.with_args(before).help == m.help,
    decreases before.len(),
{
    let all = before + args;
    if before.len() == 0 {
        assert(all =~= args);
    } else {
        let rest = before.skip(2);
        let next = m.with_flag(flag_named(before[0])->0, Some(before[1]));
        assert(all[0] == before[0] && all[1] == before[1]);
        assert(all.skip(2) =~= rest + args);
        assert forall|i: int| 0 <= i < rest.len() && i % 2 == 0 implies flag_named(
            #[trigger] rest[i],
        ) is Some && takes(m.command, flag_named(rest[i])->0) by {
            assert(rest[i] == before[i + 2]);
        }
        lemma_pairs_before(next, rest, args);
    }
}

/// A flag has the value that stands behind it, whatever comes before and after,
/// unless the flag comes again, and it asks for no help.
pub proof fn law_flags_have_the_values_behind_them(
    m: InvocationModel,
    before: Seq<Seq<char>>,
    flag: Flag,
    name: Seq<char>,
    value: Seq<char>,
    after: Seq<Seq<char>>,
)
    requires
        flag_named(name) == Some(flag),
        takes(m.command, flag),
        are_pairs(m.command, before),
        are_pairs(m.command, after),
        forall|i: int|
            0 <= i < after.len() && i % 2 == 0 ==> flag_named(#[trigger] after[i]) != Some(flag),
    ensures
        value_of(m.with_args(before + seq![name, value] + after), flag) == Some(value),
        m.with_args(before + seq![name, value] + after).help == m.help,
{
    let own = seq![name, value];
    assert(before + own + after =~= before + (own + after));
    lemma_pairs_before(m, before, own + after);
    let start = m.with_args(before);
    assert forall|i: int| 0 <= i < own.len() && i % 2 == 0 implies flag_named(#[trigger] own[i])
        is Some && takes(m.command, flag_named(own[i])->0) by {
        assert(i == 0);
    }
    lemma_pairs_before(start, own, after);
    assert(own.skip(2) =~= Seq::<Seq<char>>::empty());
    assert(start.with_args(own) == start.with_flag(flag, Some(value))) by {
        reveal_with_fuel(InvocationModel::with_args, 2);
    }
    lemma_pairs(start.with_args(own), after, flag);
    lemma_pairs_before(start.with_args(own), after, Seq::empty());
}

/// A flag that a command line does not give keeps its default.
pub proof fn law_flags_that_are_not_given_keep_their_defaults(
    name: Seq<char>,
    args: Seq<Seq<char>>,
    flag: Flag,
    defaults: Defaults,
)
    requires
        command_named(name) != CommandKind::Help,
        are_pairs(command_named(name), args),
        forall|i: int|
            0 <= i < args.len() && i % 2 == 0 ==> flag_named(#[trigger] args[i]) != Some(flag),
    ensures
        ({
            let inv = invocation(seq![name] + args, defaults);
            &&& inv.command == command_named(name)
            &&& inv.help == 0
            &&& value_of(inv, flag) == match flag {
                Flag::Message => None,
                Flag::SessionId => Some(defaults.session_id@),
                Flag::SessionStore => Some(defaults.session_store@),
                Flag::Socket => Some(defaults.socket@),
                Flag::PolicyStore => Some(defaults.policy_store@),
                Flag::Config => None,
            }
        }),
{
    let all = seq![name] + args;
    let start = InvocationModel {
        command: command_named(name),
        message: None,
        session_id: defaults.session_id@,
        session_store: defaults.session_store@,
        socket: defaults.socket@,
        policy_store: defaults.policy_store@,
        config: None,
        help: 0,
    };
    assert(all[0] == name);
    assert(all.skip(1) =~= args);
    lemma_pairs(start, args, flag);
    lemma_pairs_before(start, args, Seq::empty());
}

/// A report says everything once and in order: the message, every lifecycle
/// message, every progress message, the answer.
pub proof fn law_reports_say_everything_in_order(
    message: Seq<char>,
    outcome: Outcome,
    i: int,
    j: int,
)
    ensures
        ({
            let n = outcome.lifecycle_messages@.len() as int;
            let k = outcome.progress_messages@.len() as int;
            let lines = report(message, outcome);
            &&& lines.len() == n + k + 2
            &&& lines[0] == "user: "@ + message
            &&& 0 <= i < n ==> lines[1 + i] == "lifecycle: "@ + outcome.lifecycle_messages@[i]@
            &&& 0 <= j < k ==> lines[1 + n + j] == "progress: "@ + outcome.progress_messages@[j]@
            &&& lines[1 + n + k] == "agent: "@ + outcome.response@
        }),
{
}

/// Whether `part` stands somewhere in `line`.
pub open spec fn mentions(line: Seq<char>, part: Seq<char>) -> bool {
    exists|k: int|
        0 <= k <= line.len() - part.len() && #[trigger] line.subrange(k, k + part.len()) == part
}

proof fn lemma_mentions(line: Seq<char>, part: Seq<char>, k: int)
    requires
        0 <= k <= line.len() - part.len(),
        forall|i: int| 0 <= i < part.len() ==> line[k + i] == #[trigger] part[i],
    ensures
        mentions(line, part),
{
    assert(line.subrange(k, k + part.len()) =~= part);
}

/// The line of the help that shows a command; the first line is a heading.
pub open spec fn help_line(command: CommandKind) -> Seq<char> {
    match command {
        CommandKind::Embedded => help_text()[1],
        CommandKind::Serve => help_text()[2],
        CommandKind::Send => help_text()[3],
        CommandKind::SessionList => help_text()[4],
        CommandKind::SessionShow => help_text()[5],
        CommandKind::PolicyShow => help_text()[6],
        CommandKind::Help => help_text()[0],
    }
}

proof fn lemma_help_of_embedded(flag: Flag, name: Seq<char>)
    requires
        flag_named(name) == Some(flag),
        takes(CommandKind::Embedded, flag),
    ensures
        mentions(help_line(CommandKind::Embedded), name),
{
    law_flags_have_one_name(name);
    reveal_strlit("  embedded [--message TEXT] [--session-id ID] [--session-store PATH] [--config PATH]");
    reveal_strlit("--message");
    reveal_strlit("--session-id");
    reveal_strlit("--session-store");
    reveal_strlit("--config");
    let line = help_text()[1];
    match flag {
        Flag::Message => lemma_mentions(line, name, 12),
        Flag::SessionId => lemma_mentions(line, name, 29),
        Flag::SessionStore => lemma_mentions(line, name, 47),
        _ => lemma_mentions(line, name, 70),
    }
}

proof fn lemma_help_of_serve(flag: Flag, name: Seq<char>)
    requires
        flag_named(name) == Some(flag),
        takes(CommandKind::Serve, flag),
    ensures
        mentions(help_line(CommandKind::Serve), name),
{
    law_flags_have_one_name(name);
    reveal_strlit("  serve [--socket PATH] [--session-store PATH] [--policy-store PATH] [--config PATH]");
    reveal_strlit("--session-store");
    reveal_strlit("--socket");
    reveal_strlit("--policy-store");
    reveal_strlit("--config");
    let line = help_text()[2];
    match flag {
        Flag::SessionStore => lemma_mentions(line, name, 25),
        Flag::Socket => lemma_mentions(line, name, 9),
        Flag::PolicyStore => lemma_mentions(line, name, 48),
        _ => lemma_mentions(line, name, 70),
    }
}

proof fn lemma_help_of_send(flag: Flag, name: Seq<char>)
    requires
        flag_named(name) == Some(flag),
        takes(CommandKind::Send, flag),
    ensures
        mentions(help_line(CommandKind::Send), name),
{
    law_flags_have_one_name(name);
    reveal_strlit("  send [--message TEXT] [--session-id ID] [--socket PATH]");
    reveal_strlit("--message");
    reveal_strlit("--session-id");
    reveal_strlit("--socket");
    let line = help_text()[3];
    match flag {
        Flag::Message => lemma_mentions(line, name, 8),
        Flag::SessionId => lemma_mentions(line, name, 25),
        _ => lemma_mentions(line, name, 43),
    }
}

proof fn lemma_help_of_session_list(flag: Flag, name: Seq<char>)
    requires
        flag_named(name) == Some(flag),
        takes(CommandKind::SessionList, flag),
    ensures
        mentions(help_line(CommandKind::SessionList), name),
{
    law_flags_have_one_name(name);
    reveal_strlit("  session-list [--session-store PATH]");
    reveal_strlit("--session-store");
    let line = help_text()[4];
    lemma_mentions(line, name, 16);
}

proof fn lemma_help_of_session_show(flag: Flag, name: Seq<char>)
    requires
        flag_named(name) == Some(flag),
        takes(CommandKind::SessionShow, flag),
    ensures
        mentions(help_line(CommandKind::SessionShow), name),
{
    law_flags_have_one_name(name);
    reveal_strlit("  session-show [--session-id ID] [--session-store PATH]");
    reveal_strlit("--session-id");
    reveal_strlit("--session-store");
    let line = help_text()[5];
    match flag {
        Flag::SessionId => lemma_mentions(line, name, 16),
        _ => lemma_mentions(line, name, 34),
    }
}

proof fn lemma_help_of_policy_show(flag: Flag, name: Seq<char>)
    requires
        flag_named(name) == Some(flag),
        takes(CommandKind::PolicyShow, flag),
    ensures
        mentions(help_line(CommandKind::PolicyShow), name),
{
    law_flags_have_one_name(name);
    reveal_strlit("  policy-show [--policy-store PATH]");
    reveal_strlit("--policy-store");
    let line = help_text()[6];
    lemma_mentions(line, name, 15);
}

/// The help shows every flag that a command takes. Commands that start or ask a
/// session take its name, those that open a store take the path of the store, and
/// the two ends of a socket both take the path of the socket.
pub proof fn law_help_shows_the_flags_of_a_command(
    command: CommandKind,
    flag: Flag,
    name: Seq<char>,
)
    requires
        flag_named(name) == Some(flag),
    ensures
        takes(command, flag) ==> mentions(help_line(command), name),
        command is Embedded || command is Send ==> takes(command, Flag::Message) && takes(
            command,
            Flag::SessionId,
        ),
        command is Embedded || command is Serve || command is SessionList || command is SessionShow
            ==> takes(command, Flag::SessionStore),
        command is Embedded || command is Serve ==> takes(command, Flag::Config),
        command is Serve || command is Send ==> takes(command, Flag::Socket),
        command is Serve || command is PolicyShow ==> takes(command, Flag::PolicyStore),
        command is SessionShow ==> takes(command, Flag::SessionId),
{
    if takes(command, flag) {
        match command {
            CommandKind::Embedded => lemma_help_of_embedded(flag, name),
            CommandKind::Serve => lemma_help_of_serve(flag, name),
            CommandKind::Send => lemma_help_of_send(flag, name),
            CommandKind::SessionList => lemma_help_of_session_list(flag, name),
            CommandKind::SessionShow => lemma_help_of_session_show(flag, name),
            CommandKind::PolicyShow => lemma_help_of_policy_show(flag, name),
            CommandKind::Help => {},
        }
    }
}

} // verus!
