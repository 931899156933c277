use deployer::logstream::{run_session, LogSession};
use deployer::model::{LogEntry, MIN_TIMESTAMP};

fn entry(id: u128, ts: i64, line: Option<&str>) -> LogEntry {
    LogEntry { deployment_id: id, timestamp: ts, line: line.map(|s| s.to_string()) }
}

#[test]
fn unrenderable_backlog_entry_still_advances() {
    let mut s = LogSession::new(1);
    assert_eq!(s.target_id(), 1);
    assert!(s.replay(entry(1, 50, None)).is_none());
    assert!(s.on_event(entry(1, 50, Some("dup"))).is_none());
    assert!(s.on_event(entry(1, 51, Some("new"))).is_some());
}

#[test]
fn live_event_equal_to_last_is_dropped() {
    let mut s = LogSession::new(1);
    assert!(s.on_event(entry(1, 10, Some("a"))).is_some());
    assert!(s.on_event(entry(1, 10, Some("a again"))).is_none());
    assert!(s.on_event(entry(1, 9, Some("older"))).is_none());
    assert!(s.on_event(entry(2, 11, Some("other"))).is_none());
    assert!(s.on_event(entry(1, 11, None)).is_none());
    assert!(s.on_event(entry(1, 11, Some("after blank"))).is_none());
    assert!(s.on_event(entry(1, 12, Some("b"))).is_some());
}

#[test]
fn earliest_timestamp_is_never_forwarded_live() {
    let mut s = LogSession::new(1);
    assert!(s.on_event(entry(1, MIN_TIMESTAMP, Some("a"))).is_none());
    assert!(s.on_event(entry(1, MIN_TIMESTAMP + 1, Some("b"))).is_some());
}

#[test]
fn whole_session_output_is_ordered_without_repeats() {
    let backlog = vec![entry(1, 1, Some("a")), entry(1, 2, None), entry(1, 3, Some("c"))];
    let events = vec![
        entry(1, 2, Some("old")),
        entry(1, 3, Some("c")),
        entry(2, 4, Some("other")),
        entry(1, 5, Some("e")),
        entry(1, 5, Some("e")),
        entry(1, 6, Some("f")),
    ];
    let out = run_session(1, &backlog, events);
    let stamps: Vec<i64> = out.iter().map(|e| e.timestamp).collect();
    assert_eq!(stamps, vec![1, 3, 5, 6]);
}

#[test]
fn empty_session_sends_nothing() {
    let out = run_session(1, &Vec::new(), Vec::new());
    assert!(out.is_empty());
}
