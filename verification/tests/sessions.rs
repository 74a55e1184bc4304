use tau::records::{frame, read_frames};
use tau::session::{
    NodeId, PersistedSessionRecord, SessionEntry, SessionTree, ToolActivityOutcome,
    ToolActivityRecord,
};
use tau::session_store::{
    list_session_metas, load_session_log, lock_text, next_session_event, next_session_event_id,
    read_cbor_records, record_session_meta, session_of_entry, touch_meta, LogEventId, MetaEntry,
    PersistedSessionEvent, SessionMeta, SessionStore, SessionStoreError, StateEntry,
};

fn message(text: &str) -> SessionEntry {
    SessionEntry::UserMessage { text: text.to_owned() }
}

fn texts(entries: &[&SessionEntry]) -> Vec<String> {
    entries
        .iter()
        .map(|e| match e {
            SessionEntry::UserMessage { text } => text.clone(),
            SessionEntry::AgentMessage { text, thinking } => {
                format!("{text}/{}", thinking.as_deref().unwrap_or("-"))
            }
            SessionEntry::ToolActivity(a) => a.tool_name.clone(),
        })
        .collect()
}

#[test]
fn branches_grow_from_the_head() {
    let mut tree = SessionTree::new("s".to_owned());
    assert_eq!(tree.head(), None);
    assert!(tree.current_branch().is_empty());
    let a = tree.append_node(message("a"));
    let b = tree.append_node(message("b"));
    tree.set_head(a);
    let c = tree.append_node(message("c"));
    assert_eq!((a, b, c), (NodeId(0), NodeId(1), NodeId(2)));
    assert_eq!(texts(&tree.current_branch()), vec!["a", "c"]);
    assert_eq!(tree.children(a), vec![b, c]);
    assert_eq!(tree.children(b), Vec::new());
    tree.set_head(b);
    assert_eq!(texts(&tree.current_branch()), vec!["a", "b"]);
    assert_eq!(tree.nodes().len(), 3);
    assert_eq!(tree.node(c).unwrap().parent_id, Some(a));
    assert!(tree.node(NodeId(3)).is_none());
    tree.set_head(NodeId(9));
    assert!(tree.current_branch().is_empty());
    assert_eq!(tree.session_id(), "s");
}

#[test]
fn a_session_is_restored_from_its_log() {
    let decoded = vec![
        Ok(PersistedSessionRecord::Node { id: NodeId(0), parent_id: None, entry: message("a") }),
        Ok(PersistedSessionRecord::Node {
            id: NodeId(1),
            parent_id: Some(NodeId(0)),
            entry: message("b"),
        }),
        Ok(PersistedSessionRecord::SetHead { node_id: NodeId(0) }),
    ];
    let tree = load_session_log("log.cbor", "s".to_owned(), decoded, None).unwrap();
    assert_eq!(tree.head(), Some(NodeId(0)));
    assert_eq!(tree.nodes().len(), 2);
    assert_eq!(texts(&tree.current_branch()), vec!["a"]);
}

#[test]
fn broken_logs_say_what_is_wrong() {
    let bad: Vec<Result<u8, String>> = vec![Ok(1), Err("odd".to_owned()), Ok(2)];
    let e = read_cbor_records("p", bad, None).unwrap_err();
    assert_eq!(e.message(), "failed to decode session store record from p: odd");
    let torn: Vec<Result<u8, String>> = vec![Ok(1)];
    let e = read_cbor_records("p", torn, Some("eof".to_owned())).unwrap_err();
    assert_eq!(e.message(), "failed to read session store p: eof");
    let good: Vec<Result<u8, String>> = vec![Ok(1), Ok(2)];
    assert_eq!(read_cbor_records("p", good, None).unwrap(), vec![1, 2]);
}

#[test]
fn errors_name_their_place() {
    let p = || "/x".to_owned();
    let s = || "why".to_owned();
    let cases = [
        (
            SessionStoreError::CreateParentDirectory { path: p(), source: s() },
            "failed to create parent directory for session store /x: why",
        ),
        (
            SessionStoreError::Open { path: p(), source: s() },
            "failed to open session store /x: why",
        ),
        (
            SessionStoreError::Write { path: p(), source: s() },
            "failed to write session store /x: why",
        ),
        (
            SessionStoreError::Encode { path: p(), source: s() },
            "failed to encode session store record for /x: why",
        ),
        (
            SessionStoreError::Locked { path: p(), holder: "pid=1\n".to_owned() },
            "session lock at /x held by another process (pid=1)",
        ),
        (
            SessionStoreError::InvalidSessionDir { path: p() },
            "invalid session directory name (non-utf8): /x",
        ),
    ];
    for (error, text) in cases {
        assert_eq!(error.message(), text);
    }
    assert_eq!(lock_text(12, 34), "pid=12 start=34\n");
}

#[test]
fn sessions_of_a_store_are_independent() {
    let mut store = SessionStore::new("/state");
    assert_eq!(store.state_dir(), "/state");
    assert_eq!(store.session_dir("a"), "/state/a");
    assert!(store.needs_lock("a"));
    store.lock_taken("a");
    assert!(!store.needs_lock("a"));
    assert!(store.needs_lock("b"));

    assert_eq!(store.append_user_message("a", "hi".to_owned()), NodeId(0));
    assert_eq!(store.append_agent_message("a", "yes".to_owned()), NodeId(1));
    assert_eq!(
        store.append_agent_message_with_thinking("a", "no".to_owned(), Some("hm".to_owned())),
        NodeId(2)
    );
    assert_eq!(store.append("b", message("other")), NodeId(0));
    let activity = ToolActivityRecord {
        call_id: "c".to_owned(),
        tool_name: "ls".to_owned(),
        outcome: ToolActivityOutcome::Error { message: "m".to_owned(), details: None },
    };
    assert_eq!(store.append_tool_activity("a", activity), NodeId(3));
    assert_eq!(
        texts(&store.session("a").unwrap().current_branch()),
        vec!["hi", "yes/-", "no/hm", "ls"]
    );
    assert_eq!(texts(&store.session("b").unwrap().current_branch()), vec!["other"]);
    assert_eq!(store.sessions().len(), 2);

    assert!(store.set_head("a", NodeId(0)).is_ok());
    assert_eq!(store.session("a").unwrap().head(), Some(NodeId(0)));
    let e = store.set_head("zz", NodeId(0)).unwrap_err();
    assert_eq!(e.message(), "failed to open session store /state/zz: session not found");
    assert!(store.session("zz").is_none());
}

#[test]
fn loaded_sessions_are_found_again() {
    let mut tree = SessionTree::new("s".to_owned());
    tree.append_node(message("a"));
    let mut store = SessionStore::new("/state");
    store.insert_loaded(tree);
    assert_eq!(store.session("s").unwrap().nodes().len(), 1);
    assert!(store.needs_lock("s"));
}

#[test]
fn metadata_is_recorded_once_and_touched_later() {
    let first = record_session_meta(None, Some("/w".to_owned()), 100);
    assert_eq!(first.cwd.as_deref(), Some("/w"));
    assert_eq!((first.created_at, first.last_touched), (100, 100));
    let again = record_session_meta(Some(first), Some("/other".to_owned()), 200);
    assert_eq!(again.cwd.as_deref(), Some("/w"));
    assert_eq!((again.created_at, again.last_touched), (100, 200));
    let touched = touch_meta(Some(again), 300);
    assert_eq!((touched.created_at, touched.last_touched), (100, 300));
    let fresh = touch_meta(None, 7);
    assert_eq!(fresh.cwd, None);
    assert_eq!((fresh.created_at, fresh.last_touched), (7, 7));
}

#[test]
fn listings_skip_what_is_no_session() {
    let meta = |n: u64| SessionMeta { cwd: None, created_at: n, last_touched: n };
    let entries = vec![
        MetaEntry { is_dir: true, name: Some("a".to_owned()), meta: Some(meta(1)) },
        MetaEntry { is_dir: false, name: Some("b".to_owned()), meta: Some(meta(2)) },
        MetaEntry { is_dir: true, name: None, meta: Some(meta(3)) },
        MetaEntry { is_dir: true, name: Some("c".to_owned()), meta: None },
        MetaEntry { is_dir: true, name: Some("d".to_owned()), meta: Some(meta(4)) },
    ];
    let listed: Vec<(String, u64)> =
        list_session_metas(entries).into_iter().map(|(n, m)| (n, m.created_at)).collect();
    assert_eq!(listed, vec![("a".to_owned(), 1), ("d".to_owned(), 4)]);
}

#[test]
fn directories_with_a_log_are_sessions() {
    let entry = |is_dir: bool, has_log: bool, name: Option<&str>| StateEntry {
        path: "/state/x".to_owned(),
        is_dir,
        has_log,
        name: name.map(|n| n.to_owned()),
    };
    assert_eq!(session_of_entry(entry(true, true, Some("x"))).unwrap(), Some("x".to_owned()));
    assert_eq!(session_of_entry(entry(false, true, Some("x"))).unwrap(), None);
    assert_eq!(session_of_entry(entry(true, false, None)).unwrap(), None);
    assert_eq!(
        session_of_entry(entry(true, true, None)).unwrap_err().message(),
        "invalid session directory name (non-utf8): /state/x"
    );
}

#[test]
fn events_are_numbered_from_zero() {
    let none: Vec<PersistedSessionEvent<u8>> = Vec::new();
    assert_eq!(next_session_event_id(&none).get(), 0);
    let some = vec![PersistedSessionEvent { id: LogEventId::new(41), source: None, event: 1u8 }];
    assert_eq!(next_session_event_id(&some).get(), 42);
}

fn copied(record: &PersistedSessionRecord) -> PersistedSessionRecord {
    match record {
        PersistedSessionRecord::Node { id, parent_id, entry: SessionEntry::UserMessage { text } } => {
            PersistedSessionRecord::Node { id: *id, parent_id: *parent_id, entry: message(text) }
        }
        PersistedSessionRecord::SetHead { node_id } => {
            PersistedSessionRecord::SetHead { node_id: *node_id }
        }
        _ => panic!("expected a user message or a move"),
    }
}

#[test]
fn records_say_what_a_change_does() {
    let mut store = SessionStore::new("/state");
    match store.append_record("a", message("one")) {
        PersistedSessionRecord::Node { id, parent_id, .. } => {
            assert_eq!((id, parent_id), (NodeId(0), None));
        }
        _ => panic!("expected a node"),
    }
    assert!(store.session("a").is_none());
    store.append("a", message("one"));
    store.append("a", message("two"));
    assert!(store.set_head("a", NodeId(0)).is_ok());
    match store.append_record("a", message("three")) {
        PersistedSessionRecord::Node { id, parent_id, .. } => {
            assert_eq!((id, parent_id), (NodeId(2), Some(NodeId(0))));
        }
        _ => panic!("expected a node"),
    }
    assert!(matches!(
        store.head_record("a", NodeId(1)),
        Ok(PersistedSessionRecord::SetHead { node_id: NodeId(1) })
    ));
    assert_eq!(
        store.head_record("zz", NodeId(1)).unwrap_err().message(),
        "failed to open session store /state/zz: session not found"
    );
    let record = store.append_record("b", message("new"));
    assert_eq!(store.apply("b", record), NodeId(0));
    assert_eq!(texts(&store.session("b").unwrap().current_branch()), vec!["new"]);
}

#[test]
fn a_store_is_restored_from_its_logs() {
    let mut store = SessionStore::new("/state");
    let mut logs: Vec<(&str, Vec<PersistedSessionRecord>)> = vec![("a", vec![]), ("b", vec![])];
    let steps: [(usize, Option<&str>, u64); 5] =
        [(0, Some("a0"), 0), (1, Some("b0"), 0), (0, Some("a1"), 0), (0, None, 0), (0, Some("a2"), 0)];
    for (k, text, node) in steps {
        let id = logs[k].0;
        let record = match text {
            Some(text) => store.append_record(id, message(text)),
            None => store.head_record(id, NodeId(node)).unwrap(),
        };
        logs[k].1.push(copied(&record));
        store.apply(id, record);
    }
    let mut again = SessionStore::new("/state");
    for (id, log) in logs.into_iter().rev() {
        let decoded = log.into_iter().map(Ok).collect();
        again.insert_loaded(load_session_log("log.cbor", id.to_owned(), decoded, None).unwrap());
    }
    assert_eq!(again.sessions().len(), 2);
    for id in ["a", "b"] {
        let (old, new) = (store.session(id).unwrap(), again.session(id).unwrap());
        assert_eq!(format!("{old:?}"), format!("{new:?}"));
    }
    assert_eq!(texts(&again.session("a").unwrap().current_branch()), vec!["a0", "a2"]);
}

fn read_events(bytes: &[u8]) -> Vec<PersistedSessionEvent<u8>> {
    let (records, torn) = read_frames(bytes);
    assert!(!torn);
    let decoded = records
        .into_iter()
        .map(|r| {
            Ok(PersistedSessionEvent {
                id: LogEventId::new(u64::from(r[0])),
                source: None,
                event: r[1],
            })
        })
        .collect();
    read_cbor_records("events.cbor", decoded, None).unwrap()
}

#[test]
fn an_appended_event_is_read_last() {
    let mut bytes: Vec<u8> = Vec::new();
    for event in [7u8, 9, 7] {
        let old = read_events(&bytes);
        let next = next_session_event(&old, None, event);
        bytes.extend(frame(&[u8::try_from(next.id.get()).unwrap(), next.event]));
        let new = read_events(&bytes);
        assert_eq!(new.len(), old.len() + 1);
        assert_eq!(format!("{:?}", &new[..old.len()]), format!("{old:?}"));
        assert_eq!(format!("{:?}", new[old.len()]), format!("{next:?}"));
    }
    let ids: Vec<u64> = read_events(&bytes).iter().map(|e| e.id.get()).collect();
    assert_eq!(ids, vec![0, 1, 2]);
    assert_eq!(next_session_event(&read_events(&bytes), Some("c".to_owned()), 1u8).source, Some("c".to_owned()));
}
