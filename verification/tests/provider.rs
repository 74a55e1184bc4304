use tau::provider::{
    auth_dir, auth_path, build_provider_entry, delete_provider, provider_auth_path,
    provider_of_file, AuthStore, Credentials, PlatformDirs, ProviderKind, ProviderName,
};

fn name(s: &str) -> ProviderName {
    ProviderName::try_new(s.to_owned()).unwrap()
}

fn key(text: &str) -> Credentials {
    Credentials::ApiKey { provider_kind: ProviderKind::Openai, api_key: text.to_owned() }
}

fn key_of(c: Option<&Credentials>) -> Option<String> {
    match c {
        Some(Credentials::ApiKey { api_key, .. }) => Some(api_key.clone()),
        _ => None,
    }
}

#[test]
fn ollama_provider_entry_enables_llama_cpp_cache_compat() {
    let entry = build_provider_entry(&ProviderKind::Ollama);

    assert!(entry.compat.supports_llama_cpp_cache);
    assert_eq!(entry.auth.as_deref(), Some("none"));
    assert_eq!(entry.api.as_deref(), Some("openai-completions"));
}

#[test]
fn other_providers_have_no_defaults() {
    for kind in ProviderKind::all() {
        if kind != ProviderKind::Ollama {
            let entry = build_provider_entry(&kind);
            assert!(!entry.compat.supports_llama_cpp_cache);
            assert_eq!(entry.auth, None);
            assert_eq!(entry.api, None);
        }
    }
}

#[test]
fn provider_name_accepts_typical_names() {
    for name in [
        "local",
        "openai",
        "openai-codex",
        "github-copilot",
        "my.provider_2",
        "a",
    ] {
        assert!(
            ProviderName::try_new(name.to_owned()).is_ok(),
            "expected '{name}' to be accepted"
        );
    }
}

#[test]
fn provider_name_rejects_unsafe_inputs() {
    for name in [
        "",
        ".hidden",
        "-leading-dash",
        "has space",
        "has/slash",
        "has\\backslash",
        "..",
        "../escape",
    ] {
        assert!(
            ProviderName::try_new(name.to_owned()).is_err(),
            "expected '{name}' to be rejected"
        );
    }
}

#[test]
fn kinds_have_names_and_ways_to_log_in() {
    let kinds = ProviderKind::all();
    let names: Vec<&str> = kinds.iter().map(|k| k.display_name()).collect();
    assert_eq!(
        names,
        vec![
            "Ollama (local)",
            "OpenAI (API key)",
            "OpenAI Codex (ChatGPT subscription)",
            "Anthropic (API key)",
            "GitHub Copilot (subscription)",
        ]
    );
    let oauth: Vec<bool> = kinds.iter().map(|k| k.requires_oauth()).collect();
    assert_eq!(oauth, vec![false, false, true, false, true]);
}

#[test]
fn places_lie_below_the_state_directory() {
    let dirs = PlatformDirs {
        state: Some("/home/u/.local/state".to_owned()),
        data_local: Some("/home/u/.local/share".to_owned()),
    };
    assert_eq!(auth_path(&dirs).as_deref(), Some("/home/u/.local/state/tau/auth.json"));
    assert_eq!(auth_dir(&dirs).as_deref(), Some("/home/u/.local/state/tau/auth.d"));
    assert_eq!(
        provider_auth_path(&dirs, &name("openai")).unwrap(),
        "/home/u/.local/state/tau/auth.d/openai.json"
    );

    let local = PlatformDirs { state: None, data_local: Some("/data".to_owned()) };
    assert_eq!(auth_path(&local).as_deref(), Some("/data/tau/auth.json"));

    let nowhere = PlatformDirs { state: None, data_local: None };
    assert_eq!(auth_dir(&nowhere), None);
    assert_eq!(
        provider_auth_path(&nowhere, &name("openai")),
        Err("cannot determine data directory".to_owned())
    );
}

#[test]
fn files_belong_to_the_providers_they_are_named_after() {
    let provider = |n: &str, is_file: bool| {
        match provider_of_file(Some(n), is_file) {
            Ok(found) => Ok(found.map(|p| p.as_str().to_owned())),
            Err(e) => Err(e.name),
        }
    };
    assert_eq!(provider("openai.json", true), Ok(Some("openai".to_owned())));
    assert_eq!(provider("my.provider_2.json", true), Ok(Some("my.provider_2".to_owned())));
    assert_eq!(provider("openai.json", false), Ok(None));
    assert_eq!(provider("openai.txt", true), Ok(None));
    assert_eq!(provider("openai", true), Ok(None));
    assert_eq!(provider(".json", true), Ok(None));
    assert_eq!(provider("has space.json", true), Err("has space".to_owned()));
    assert_eq!(provider("has space.json", false), Ok(None));
    assert!(matches!(provider_of_file(None, true), Ok(None)));
}

#[test]
fn files_count_before_the_common_file() {
    let mut common = AuthStore::new();
    common.insert(&name("a"), key("old-a"));
    common.insert(&name("b"), key("old-b"));
    let store = AuthStore::load(
        Some(common),
        vec![(name("b"), key("new-b")), (name("c"), key("new-c"))],
    );
    assert_eq!(store.len(), 3);
    assert_eq!(key_of(store.get(&name("a"))).as_deref(), Some("old-a"));
    assert_eq!(key_of(store.get(&name("b"))).as_deref(), Some("new-b"));
    assert_eq!(key_of(store.get(&name("c"))).as_deref(), Some("new-c"));
    assert!(store.get(&name("d")).is_none());
    assert_eq!(store.entry(0).0, "a");
    assert_eq!(store.entry(2).0, "c");
    assert_eq!(AuthStore::load(None, Vec::new()).len(), 0);
}

#[test]
fn deleting_touches_only_what_is_there() {
    let mut common = AuthStore::new();
    common.insert(&name("a"), key("x"));
    common.insert(&name("b"), key("y"));
    let gone = delete_provider(&name("a"), false, Some(common));
    assert!(gone.changed);
    let rest = gone.rewrite.unwrap();
    assert_eq!(rest.len(), 1);
    assert!(rest.get(&name("a")).is_none());
    assert_eq!(key_of(rest.get(&name("b"))).as_deref(), Some("y"));

    let absent = delete_provider(&name("a"), false, Some(rest));
    assert!(!absent.changed);
    assert!(absent.rewrite.is_none());

    let file_only = delete_provider(&name("a"), true, None);
    assert!(file_only.changed);
    assert!(file_only.rewrite.is_none());
}

#[test]
fn credentials_know_their_kind() {
    let none = Credentials::NoAuth { provider_kind: ProviderKind::Ollama, base_url: None };
    assert_eq!(none.provider_kind(), &ProviderKind::Ollama);
    let oauth = Credentials::Oauth {
        provider_kind: ProviderKind::OpenaiCodex,
        access_token: "a".to_owned(),
        refresh_token: "r".to_owned(),
        expires_at_ms: 7,
        account_id: None,
    };
    assert_eq!(oauth.provider_kind(), &ProviderKind::OpenaiCodex);
    assert_eq!(key("k").provider_kind(), &ProviderKind::Openai);
}
