use tau::agents::{
    ancestor_dirs, candidate, discover_agents_files, session_roots, DiscoveredAgentsFile,
};
use tau::extension::{DEFAULT_FILTER, ENV_VAR};
use tau::isolation::{command_environment, env_allowlist, may_start};
use tau::semaphore::Semaphore;
use tau::support::{wait_for_path, TestRuntime, WaitError, WaitStep, TEST_MODELS};

#[test]
fn ancestors_come_topmost_first() {
    assert_eq!(ancestor_dirs("/a/b"), vec!["/", "/a", "/a/b"]);
    assert_eq!(ancestor_dirs("/"), vec!["/"]);
    assert_eq!(ancestor_dirs("a/b"), vec!["", "a", "a/b"]);
}

#[test]
fn a_session_looks_in_home_and_above_its_directory() {
    assert_eq!(
        session_roots(Some("/home/u"), Some("/w")),
        vec!["/home/u/.agents", "/", "/w"]
    );
    assert_eq!(session_roots(None, Some("/")), vec!["/"]);
    assert_eq!(session_roots(Some("/h"), None), vec!["/h/.agents"]);
    assert_eq!(candidate("/w"), "/w/AGENTS.md");
}

fn file(path: &str, content: &str) -> DiscoveredAgentsFile {
    DiscoveredAgentsFile { file_path: path.to_owned(), content: content.to_owned() }
}

#[test]
fn files_count_once_and_only_if_they_say_something() {
    let kept = discover_agents_files(vec![
        file("/a/AGENTS.md", " \n"),
        file("/a/AGENTS.md", "first"),
        file("/b/AGENTS.md", "other"),
        file("/a/./AGENTS.md", "again"),
    ]);
    let kept: Vec<(String, String)> =
        kept.into_iter().map(|f| (f.file_path, f.content)).collect();
    assert_eq!(
        kept,
        vec![
            ("/a/AGENTS.md".to_owned(), "first".to_owned()),
            ("/b/AGENTS.md".to_owned(), "other".to_owned()),
        ]
    );
}

#[test]
fn permits_run_out_and_come_back() {
    let mut s = Semaphore::new(2);
    assert!(s.acquire());
    assert!(s.acquire());
    assert!(!s.acquire());
    s.release();
    assert!(s.acquire());
    assert!(!s.acquire());
    assert!(!Semaphore::new(0).acquire());
}

#[test]
fn commands_see_a_small_environment() {
    let names = env_allowlist();
    assert_eq!(names.len(), 13);
    let values: Vec<Option<String>> = names
        .iter()
        .map(|n| match *n {
            "PATH" => Some("/bin".to_owned()),
            "TAU_BUILD" => Some("7".to_owned()),
            _ => None,
        })
        .collect();
    let expected: Vec<(String, String)> = [
        ("PATH", "/bin"),
        ("TAU_BUILD", "7"),
        ("TERM", "dumb"),
        ("NO_COLOR", "1"),
        ("CLICOLOR", "0"),
    ]
    .iter()
    .map(|(k, v)| (k.to_string(), v.to_string()))
    .collect();
    assert_eq!(command_environment(&values), expected);
}

#[test]
fn a_session_leader_may_start() {
    assert!(may_start(false, None, 1));
    assert!(may_start(true, Some(1), 1));
    assert!(!may_start(true, Some(2), 1));
    assert!(!may_start(true, None, 1));
}

#[test]
fn waiting_ends_with_the_path_or_the_time() {
    assert_eq!(wait_for_path(true, 10, 0), WaitStep::Ready);
    assert_eq!(wait_for_path(false, 9, 10), WaitStep::Sleep(10));
    assert_eq!(wait_for_path(false, 10, 10), WaitStep::GiveUp);
    let error = WaitError::Timeout { path: "/s".to_owned(), timeout: "2s".to_owned() };
    assert_eq!(error.message(), "timed out waiting for path /s after 2s");
}

#[test]
fn a_test_keeps_its_files_together() {
    let runtime = TestRuntime::new("/tmp/t");
    assert_eq!(runtime.socket_path, "/tmp/t/daemon.sock");
    assert_eq!(runtime.session_store_path, "/tmp/t/sessions.cbor");
    assert_eq!(runtime.policy_store_path, "/tmp/t/policy.cbor");
    assert_eq!(runtime.config_dir, "/tmp/t/config");
    assert_eq!(runtime.state_dir, "/tmp/t/state");
    assert_eq!(runtime.models_path, "/tmp/t/config/models.json5");
    assert!(TEST_MODELS.contains("\"test\""));
    assert_eq!((ENV_VAR, DEFAULT_FILTER), ("TAU_EXT_LOG", "info"));
}
