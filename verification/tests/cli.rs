use tau::cli::{
    help_lines, load_options, parse_args, report_lines, serving_line, try_load_config, CommandKind,
    Defaults, Invocation, LoadOutcome, Outcome,
};

fn defaults() -> Defaults {
    Defaults {
        session_id: "default".to_owned(),
        session_store: "store.cbor".to_owned(),
        socket: "tau.sock".to_owned(),
        policy_store: "policy.cbor".to_owned(),
    }
}

fn parse(args: &[&str]) -> Invocation {
    let args: Vec<String> = args.iter().map(|a| a.to_string()).collect();
    parse_args(&args, &defaults())
}

#[test]
fn no_arguments_and_unknown_commands_ask_for_help() {
    for args in [vec![], vec!["help"], vec!["--help"], vec!["-h"], vec!["dance", "--message", "x"]] {
        let inv = parse(&args);
        assert_eq!(inv.command, CommandKind::Help);
        assert_eq!(inv.help, 1);
    }
}

#[test]
fn embedded_takes_its_flags() {
    let inv = parse(&[
        "embedded",
        "--message",
        "hi",
        "--session-id",
        "s1",
        "--session-store",
        "other",
        "--config",
        "c.toml",
    ]);
    assert_eq!(inv.command, CommandKind::Embedded);
    assert_eq!(inv.message.as_deref(), Some("hi"));
    assert_eq!(inv.session_id, "s1");
    assert_eq!(inv.session_store, "other");
    assert_eq!(inv.config.as_deref(), Some("c.toml"));
    assert_eq!(inv.socket, "tau.sock");
    assert_eq!(inv.help, 0);
    assert_eq!(inv.message_or_greeting(), "hi");
}

#[test]
fn missing_values_leave_defaults() {
    let inv = parse(&["embedded", "--session-id"]);
    assert_eq!(inv.session_id, "default");
    let inv = parse(&["embedded", "--message", "a", "--message"]);
    assert_eq!(inv.message, None);
    assert_eq!(inv.message_or_greeting(), "hello");
}

#[test]
fn flags_of_other_commands_ask_for_help() {
    let inv = parse(&["serve", "--message", "hi", "--socket", "s"]);
    assert_eq!(inv.command, CommandKind::Serve);
    assert_eq!(inv.help, 2);
    assert_eq!(inv.socket, "s");
    assert_eq!(parse(&["send", "--config", "x"]).help, 2);
    assert_eq!(parse(&["session-list", "--session-store", "p"]).session_store, "p");
    assert_eq!(parse(&["session-show", "--session-id", "p"]).session_id, "p");
    assert_eq!(parse(&["policy-show", "--policy-store", "p"]).policy_store, "p");
}

#[test]
fn the_last_flag_wins() {
    let inv = parse(&["send", "--session-id", "a", "--session-id", "b"]);
    assert_eq!(inv.session_id, "b");
}

#[test]
fn outcomes_are_reported_line_by_line() {
    let outcome = Outcome {
        lifecycle_messages: vec!["up".to_owned()],
        progress_messages: vec!["half".to_owned(), "done".to_owned()],
        response: "bye".to_owned(),
    };
    assert_eq!(
        report_lines("hi", &outcome),
        vec!["user: hi", "lifecycle: up", "progress: half", "progress: done", "agent: bye"]
    );
    assert_eq!(serving_line("tau.sock"), "serving on tau.sock");
}

#[test]
fn help_lists_the_commands() {
    assert_eq!(
        help_lines(),
        vec![
            "shlop-cli commands:",
            "  embedded [--message TEXT] [--session-id ID] [--session-store PATH] [--config PATH]",
            "  serve [--socket PATH] [--session-store PATH] [--policy-store PATH] [--config PATH]",
            "  send [--message TEXT] [--session-id ID] [--socket PATH]",
            "  session-list [--session-store PATH]",
            "  session-show [--session-id ID] [--session-store PATH]",
            "  policy-show [--policy-store PATH]",
        ]
    );
}

#[test]
fn an_explicit_config_has_to_be_there() {
    let explicit = load_options(&Some("c.toml".to_owned()));
    assert_eq!(explicit.user_config_path.as_deref(), Some("c.toml"));
    assert!(!explicit.enable_project_config);
    assert_eq!(explicit.project_config_path, None);
    let usual = load_options(&None);
    assert_eq!(usual.user_config_path, None);
    assert!(usual.enable_project_config);

    assert_eq!(
        try_load_config(&LoadOutcome::MissingExplicitFile { path: "c.toml".to_owned() }),
        Err("config file not found: c.toml".to_owned())
    );
    assert_eq!(try_load_config(&LoadOutcome::Loaded { extensions: 2 }), Ok(true));
    assert_eq!(try_load_config(&LoadOutcome::Loaded { extensions: 0 }), Ok(false));
    assert_eq!(try_load_config(&LoadOutcome::CurrentDirectory), Ok(false));
    assert_eq!(try_load_config(&LoadOutcome::ReadFile), Ok(false));
    assert_eq!(try_load_config(&LoadOutcome::ParseFile), Ok(false));
}
