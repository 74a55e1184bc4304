use tau::event_log::EventLog;

#[test]
fn followers_see_every_event_in_order() {
    let mut log: EventLog<&str> = EventLog::new();
    assert_eq!(log.next_seq(), 0);
    assert!(log.get_next_from(0).is_none());
    assert_eq!(log.append(None, "a"), 0);
    assert_eq!(log.append(Some("c1".to_owned()), "b"), 1);
    assert_eq!(log.next_seq(), 2);
    let first = log.get_next_from(0).unwrap();
    assert_eq!((first.seq, first.event), (0, "a"));
    assert_eq!(first.source, None);
    let second = log.get_next_from(first.seq + 1).unwrap();
    assert_eq!((second.seq, second.event), (1, "b"));
    assert_eq!(second.source.as_deref(), Some("c1"));
    assert!(log.get_next_from(2).is_none());
}

#[test]
fn pruning_keeps_later_events_and_numbers() {
    let mut log: EventLog<u8> = EventLog::new();
    for i in 0..5 {
        log.append(None, i);
    }
    log.prune_below(3);
    assert_eq!(log.get_next_from(0).unwrap().seq, 3);
    assert_eq!(log.get_next_from(4).unwrap().event, 4);
    log.prune_below(1);
    assert_eq!(log.get_next_from(0).unwrap().seq, 3);
    log.prune_below(100);
    assert!(log.get_next_from(0).is_none());
    assert_eq!(log.append(None, 9), 5);
    assert_eq!(log.get_next_from(0).unwrap().seq, 5);
}
