use linkscope::model::{Attributes, Batch, Confidence, Edge, ModelError, Node, now};

fn node(kind: &str, value: &str) -> Node {
    Node::stamped(kind, value, "analyst", 1_700_000_000)
}

#[test]
fn confidence_defaults_to_data() {
    assert_eq!(Confidence::default(), Confidence::Data);
}

#[test]
fn domain_values_are_normalised() {
    let n = Node::new("domain", "  Example.COM. ", "analyst");
    assert_eq!(n.value, "example.com");
    assert_eq!(n.kind, "domain");
    assert_eq!(n.sources, vec!["analyst".to_string()]);
    assert_eq!(n.confidence, Confidence::Data);
    assert_eq!(n.attributes.len(), 0);
    assert_eq!((n.x, n.y), (0, 0));
}

#[test]
fn email_values_are_lowercased_other_kinds_only_trimmed() {
    assert_eq!(node("email", " Alice@Example.org ").value, "alice@example.org");
    assert_eq!(node("username", "  Alice. ").value, "Alice.");
}

#[test]
fn entity_ids_are_name_based_uuids() {
    let n = node("domain", "example.com");
    let expected = uuid::Uuid::new_v5(&uuid::Uuid::NAMESPACE_URL, b"domain:example.com").to_string();
    assert_eq!(n.id, expected);
}

#[test]
fn same_normal_value_same_identity() {
    let a = Node::stamped("domain", "EXAMPLE.com.", "crtsh", 1);
    let b = Node::stamped("domain", "example.com", "analyst", 99);
    assert_eq!(a.id, b.id);
    assert_eq!(a.value, b.value);
    let c = node("ip", "example.com");
    assert_ne!(a.id, c.id);
}

#[test]
fn new_node_is_stamped_now() {
    let before = now();
    let n = Node::new("ip", "1.1.1.1", "analyst");
    assert!(n.timestamp >= before && n.timestamp <= now());
    assert!(before > 1_600_000_000);
}

#[test]
fn node_validation_accepts_a_fresh_node() {
    assert_eq!(node("domain", "example.com").validate(300), Ok(()));
}

#[test]
fn node_validation_refuses_empty_value() {
    assert_eq!(node("domain", "   ").validate(300), Err(ModelError::InvalidNode));
}

#[test]
fn node_validation_refuses_long_kind_and_value() {
    let kind = "k".repeat(65);
    assert_eq!(node(&kind, "v").validate(300), Err(ModelError::InvalidNode));
    let value = "v".repeat(4097);
    assert_eq!(node("username", &value).validate(300), Err(ModelError::InvalidNode));
    let value = "v".repeat(4096);
    assert_eq!(node("username", &value).validate(5000), Ok(()));
}

#[test]
fn node_validation_refuses_bad_id_and_non_finite_coordinates() {
    let mut n = node("domain", "example.com");
    n.id = "not-a-uuid".to_string();
    assert_eq!(n.validate(300), Err(ModelError::InvalidNode));
    let mut n = node("domain", "example.com");
    n.x = f32::NAN.to_bits();
    assert_eq!(n.validate(300), Err(ModelError::InvalidNode));
    let mut n = node("domain", "example.com");
    n.y = f32::INFINITY.to_bits();
    assert_eq!(n.validate(300), Err(ModelError::InvalidNode));
    let mut n = node("domain", "example.com");
    n.x = 12.5f32.to_bits();
    assert_eq!(n.validate(300), Ok(()));
}

#[test]
fn node_validation_refuses_encodings_over_64_kib() {
    let n = node("domain", "example.com");
    assert_eq!(n.validate(65536), Ok(()));
    assert_eq!(n.validate(65537), Err(ModelError::NodeTooLarge));
}

#[test]
fn merge_unions_sorted_sources_and_keeps_earliest_time() {
    let mut a = Node::stamped("domain", "example.com", "zeta", 50);
    let mut b = Node::stamped("domain", "example.com", "alpha", 20);
    b.sources.push("zeta".to_string());
    b.confidence = Confidence::Intelligence;
    b.attributes.insert("rdap".to_string(), "{}".to_string());
    a.attributes.insert("note".to_string(), "\"x\"".to_string());
    a.merge(b);
    assert_eq!(a.sources, vec!["alpha".to_string(), "zeta".to_string()]);
    assert_eq!(a.timestamp, 20);
    assert_eq!(a.confidence, Confidence::Intelligence);
    assert_eq!(a.attributes.get("rdap"), Some("{}".to_string()));
    assert_eq!(a.attributes.get("note"), Some("\"x\"".to_string()));
}

#[test]
fn merge_keeps_an_analysed_confidence() {
    let mut a = node("ip", "8.8.8.8");
    a.confidence = Confidence::Information;
    let mut b = node("ip", "8.8.8.8");
    b.confidence = Confidence::CounterIntelligence;
    a.merge(b);
    assert_eq!(a.confidence, Confidence::Information);
}

#[test]
fn merging_twice_changes_nothing_more() {
    let mut a = Node::stamped("domain", "example.com", "b", 7);
    let b = Node::stamped("domain", "example.com", "a", 9);
    a.merge(b.duplicate());
    let once = a.duplicate();
    a.merge(b);
    assert_eq!(a.sources, once.sources);
    assert_eq!(a.timestamp, once.timestamp);
    assert_eq!(a.confidence, once.confidence);
}

#[test]
fn attributes_replace_values_and_sort_keys() {
    let mut a = Attributes::new();
    a.insert("b".to_string(), "1".to_string());
    a.insert("a".to_string(), "2".to_string());
    a.insert("b".to_string(), "3".to_string());
    assert_eq!(a.len(), 2);
    assert_eq!(a.get("b"), Some("3".to_string()));
    assert_eq!(a.get("c"), None);
    assert_eq!(a.to_pairs(), vec![("b".to_string(), "3".to_string()), ("a".to_string(), "2".to_string())]);
    assert_eq!(a.sorted_pairs(), vec![("a".to_string(), "2".to_string()), ("b".to_string(), "3".to_string())]);
}

#[test]
fn edges_are_name_based_uuids() {
    let e = Edge::stamped("s", "t", "observed", "crtsh", 5);
    let expected = uuid::Uuid::new_v5(&uuid::Uuid::NAMESPACE_URL, b"s:t:observed:crtsh").to_string();
    assert_eq!(e.id, expected);
    assert_eq!((e.source.as_str(), e.target.as_str(), e.relation.as_str(), e.provenance.as_str()), ("s", "t", "observed", "crtsh"));
    assert_eq!(e.timestamp, 5);
    assert_eq!(e.check(), Ok(()));
}

#[test]
fn edge_check_refuses_long_relation_and_bad_id() {
    let rel = "r".repeat(129);
    assert_eq!(Edge::stamped("s", "t", &rel, "p", 0).check(), Err(ModelError::InvalidEdge));
    let mut e = Edge::new("s", "t", "r", "p");
    e.id = "x".to_string();
    assert_eq!(e.check(), Err(ModelError::InvalidEdge));
}

#[test]
fn batch_validation_checks_sizes_then_nodes_then_edges() {
    let mut b = Batch::default();
    b.nodes.push(node("domain", "example.com"));
    assert_eq!(b.validate(100, &vec![100]), Ok(()));
    assert_eq!(b.validate(2 * 1024 * 1024 + 1, &vec![100]), Err(ModelError::BatchTooLarge));
    assert_eq!(b.validate(100, &vec![70000]), Err(ModelError::NodeTooLarge));
    let mut e = Edge::new("a", "b", "r", "p");
    e.id = "bad".to_string();
    b.edges.push(e);
    assert_eq!(b.validate(100, &vec![100]), Err(ModelError::InvalidEdge));
}

#[test]
fn batch_validation_refuses_more_than_512_nodes() {
    let mut b = Batch::default();
    let mut lens = Vec::new();
    for i in 0..513 {
        b.nodes.push(node("ip", &format!("10.0.{}.{}", i / 256, i % 256)));
        lens.push(100);
    }
    assert_eq!(b.validate(1000, &lens), Err(ModelError::BatchTooLarge));
}

#[test]
fn model_error_messages() {
    assert_eq!(ModelError::InvalidNode.message(), "invalid node");
    assert_eq!(ModelError::NodeTooLarge.message(), "node exceeds 64 KiB");
    assert_eq!(ModelError::BatchTooLarge.message(), "batch too large");
    assert_eq!(ModelError::InvalidEdge.message(), "invalid edge");
}
