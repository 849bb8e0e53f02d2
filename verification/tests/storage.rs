use linkscope::model::{Batch, ModelError, Node};
use linkscope::storage::{
    Journal, Recovery, Step, StoreError, cache_admits, cache_expiry, cache_needs_room, checksum, page_limit, page_statement,
    record_line,
};

fn batch() -> Batch {
    let mut b = Batch::default();
    b.nodes.push(Node::stamped("domain", "a.example", "analyst", 1));
    b
}

#[test]
fn only_nodes_and_edges_are_paged() {
    assert_eq!(page_statement("nodes"), Ok("SELECT rowid,data FROM nodes WHERE rowid>? ORDER BY rowid LIMIT ?".to_string()));
    assert_eq!(page_statement("edges"), Ok("SELECT rowid,data FROM edges WHERE rowid>? ORDER BY rowid LIMIT ?".to_string()));
    assert_eq!(page_statement("cache; DROP TABLE nodes"), Err(StoreError::InvalidTable));
    assert_eq!(page_statement("applied"), Err(StoreError::InvalidTable));
}

#[test]
fn pages_hold_at_most_512_rows() {
    assert_eq!(page_limit(256), 256);
    assert_eq!(page_limit(512), 512);
    assert_eq!(page_limit(100_000), 512);
}

#[test]
fn checksums_are_hex_sha256() {
    assert_eq!(checksum(b""), "e3b0c44298fc1c149afbf4c8996fb92427ae41e4649b934ca495991b7852b855");
    assert_eq!(checksum(b"abc"), "ba7816bf8f01cfea414140de5dae2223b00361a396177a9cb410ff61f20015ad");
}

#[test]
fn journal_records_are_json_lines() {
    let line = record_line("rec-1", "{\"nodes\":[],\"edges\":[]}", b"{\"nodes\":[],\"edges\":[]}");
    let v: serde_json::Value = serde_json::from_str(line.trim_end()).unwrap();
    assert!(line.ends_with('\n'));
    assert_eq!(v["id"], "rec-1");
    assert_eq!(v["checksum"], checksum(b"{\"nodes\":[],\"edges\":[]}"));
    assert_eq!(v["batch"]["nodes"], serde_json::Value::Array(vec![]));
    assert!(line.starts_with("{\"id\":\"rec-1\",\"checksum\":\""));
}

#[test]
fn a_failed_commit_refuses_writes_until_finished() {
    let mut j = Journal::new();
    let b = batch();
    assert_eq!(j.begin(&b, 100, &vec![100]), Ok(()));
    assert_eq!(j.begin(&b, 100, &vec![100]), Err(StoreError::Poisoned));
    j.finish();
    assert_eq!(j.begin(&b, 100, &vec![100]), Ok(()));
    assert_eq!(StoreError::Poisoned.message(), "storage requires restart/recovery after a failed commit");
}

#[test]
fn invalid_batches_are_refused_before_the_journal_is_touched() {
    let mut j = Journal::new();
    let b = batch();
    assert_eq!(j.begin(&b, 100, &vec![70_000]), Err(StoreError::Batch(ModelError::NodeTooLarge)));
    assert_eq!(j.begin(&b, 100, &vec![100]), Ok(()));
}

#[test]
fn recovery_steps() {
    let r = Recovery::new();
    assert_eq!(r.step(b""), Ok(Step::Done));
    assert_eq!(r.step(b"{\"id\":1}\n"), Ok(Step::Record));
    assert_eq!(r.step(b"{\"id\":"), Ok(Step::Truncate(0)));
    let long = vec![b'x'; 4 * 1024 * 1024];
    assert_eq!(r.step(&long), Err(StoreError::OversizedRecord));
}

#[test]
fn recovery_checks_records_and_moves_past_them() {
    let mut r = Recovery::new();
    let b = batch();
    let json = b"{\"batch\":1}";
    let sum = checksum(json);
    assert_eq!(r.check(40, &sum, json, &b, 100, &vec![100]), Ok(()));
    assert_eq!(r.step(b"partial"), Ok(Step::Truncate(40)));
    assert_eq!(r.check(10, "00", json, &b, 100, &vec![100]), Err(StoreError::ChecksumMismatch));
    assert_eq!(r.check(10, &sum, json, &b, 100, &vec![70_000]), Err(StoreError::Batch(ModelError::NodeTooLarge)));
    assert_eq!(r.step(b"partial"), Ok(Step::Truncate(40)));
}

#[test]
fn cache_bounds() {
    assert_eq!(cache_admits(2 * 1024 * 1024), Ok(()));
    assert_eq!(cache_admits(2 * 1024 * 1024 + 1), Err(StoreError::CacheItemTooLarge));
    assert!(!cache_needs_room(0, 100));
    assert!(!cache_needs_room(32 * 1024 * 1024 - 100, 100));
    assert!(cache_needs_room(32 * 1024 * 1024 - 99, 100));
    assert!(cache_needs_room(i64::MAX, 1));
}

#[test]
fn cache_lifetimes_are_clamped() {
    assert_eq!(cache_expiry(1000, 3600), 4600);
    assert_eq!(cache_expiry(1000, 0), 1001);
    assert_eq!(cache_expiry(1000, -5), 1001);
    assert_eq!(cache_expiry(1000, 1_000_000), 1000 + 86400);
}

#[test]
fn commits_start_with_a_fresh_journal_record() {
    let mut j = Journal::new();
    let b = batch();
    let (id, line) = j.begin_record(&b, "{\"nodes\":[]}", b"{\"nodes\":[]}", 100, &vec![100]).unwrap();
    assert!(uuid::Uuid::parse_str(&id).is_ok());
    assert_eq!(line, record_line(&id, "{\"nodes\":[]}", b"{\"nodes\":[]}"));
    assert_eq!(j.begin_record(&b, "{}", b"{}", 100, &vec![100]).err(), Some(StoreError::Poisoned));
    j.finish();
    let (other, _) = j.begin_record(&b, "{}", b"{}", 100, &vec![100]).unwrap();
    assert_ne!(id, other);
}
