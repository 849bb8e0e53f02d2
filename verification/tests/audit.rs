use linkscope::audit::{Audit, event_entry, rotates};

#[test]
fn audit_trails_know_their_directory() {
    let a = Audit::new(None);
    assert!(a.directory().is_none());
    let b = Audit::new(Some(std::path::PathBuf::from("/tmp/logs")));
    assert_eq!(b.directory(), Some(&std::path::PathBuf::from("/tmp/logs")));
}

#[test]
fn logs_rotate_past_2_mib() {
    assert!(!rotates(None));
    assert!(!rotates(Some(2 * 1024 * 1024)));
    assert!(rotates(Some(2 * 1024 * 1024 + 1)));
}

#[test]
fn events_are_json_lines() {
    assert_eq!(event_entry(1700000000, "session_start", 0), "{\"timestamp\":1700000000,\"event\":\"session_start\",\"count\":0}\n");
    assert_eq!(event_entry(-1, "q\"", 3), "{\"timestamp\":-1,\"event\":\"q\\\"\",\"count\":3}\n");
}
