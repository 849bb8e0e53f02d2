use linkscope::engine::{Coalescer, coalesce};
use linkscope::graph::{Graph, GraphError};
use linkscope::model::{Batch, Edge, ModelError, Node};

fn node(value: &str) -> Node {
    Node::stamped("domain", value, "analyst", 100)
}

fn batch(nodes: Vec<Node>, edges: Vec<Edge>) -> Batch {
    Batch { nodes, edges }
}

#[test]
fn empty_graph() {
    let g = Graph::new(1000, false);
    assert_eq!(g.node_count(), 0);
    assert_eq!(g.edge_count(), 0);
    assert_eq!(g.estimated_bytes(), 0);
}

#[test]
fn admitted_batch_is_applied_and_reckoned() {
    let mut g = Graph::new(10_000, false);
    let a = node("a.example");
    let b = node("b.example");
    let e = Edge::stamped(&a.id, &b.id, "observed", "crtsh", 100);
    let aid = a.id.clone();
    let bt = batch(vec![a, b], vec![e]);
    assert_eq!(g.admit_batch(&bt, 100, &vec![50, 50]), Ok(()));
    g.apply(bt, &vec![50, 50]);
    assert_eq!(g.node_count(), 2);
    assert_eq!(g.edge_count(), 1);
    assert_eq!(g.estimated_bytes(), 2 * (320 + 150) + 200);
    let hot = g.get_hot(&aid).expect("payload in memory");
    assert_eq!(hot.value, "a.example");
    assert!(g.get_hot("00000000-0000-0000-0000-000000000000").is_none());
}

#[test]
fn reapplying_a_node_replaces_its_payload_and_edges_enter_once() {
    let mut g = Graph::new(10_000, false);
    let a = node("a.example");
    let b = node("b.example");
    let e = Edge::stamped(&a.id, &b.id, "observed", "crtsh", 100);
    g.apply(batch(vec![a.duplicate(), b.duplicate()], vec![e.duplicate()]), &vec![50, 50]);
    g.apply(batch(vec![a], vec![e]), &vec![10]);
    assert_eq!(g.node_count(), 2);
    assert_eq!(g.edge_count(), 1);
    assert_eq!(g.estimated_bytes(), (320 + 30) + (320 + 150) + 200);
}

#[test]
fn dangling_edges_are_refused() {
    let mut g = Graph::new(10_000, false);
    let a = node("a.example");
    let e = Edge::stamped(&a.id, "6ba7b810-9dad-11d1-80b4-00c04fd430c8", "observed", "crtsh", 1);
    let bt = batch(vec![a], vec![e]);
    assert_eq!(g.admit_batch(&bt, 10, &vec![10]), Err(GraphError::DanglingEdge));
}

#[test]
fn invalid_batches_are_refused_with_their_model_error() {
    let mut g = Graph::new(10_000, false);
    let bt = batch(vec![node("  ")], vec![]);
    assert_eq!(g.admit_batch(&bt, 10, &vec![10]), Err(GraphError::Model(ModelError::InvalidNode)));
}

#[test]
fn cold_payloads_are_dropped_to_make_room() {
    let mut g = Graph::new(1000, false);
    let a = node("a.example");
    let aid = a.id.clone();
    g.apply(batch(vec![a], vec![]), &vec![100]);
    assert_eq!(g.estimated_bytes(), 620);
    let bt = batch(vec![node("b.example")], vec![]);
    assert_eq!(g.admit_batch(&bt, 30, &vec![30]), Ok(()));
    assert_eq!(g.estimated_bytes(), 320);
    assert!(g.get_hot(&aid).is_none());
    assert_eq!(g.node_count(), 1);
}

#[test]
fn ephemeral_graphs_refuse_instead_of_evicting() {
    let mut g = Graph::new(1000, true);
    let a = node("a.example");
    let aid = a.id.clone();
    g.apply(batch(vec![a], vec![]), &vec![100]);
    let bt = batch(vec![node("b.example")], vec![]);
    assert_eq!(g.admit_batch(&bt, 30, &vec![30]), Err(GraphError::BudgetReached));
    assert_eq!(g.estimated_bytes(), 620);
    assert!(g.get_hot(&aid).is_some());
}

#[test]
fn budget_reached_even_after_eviction() {
    let mut g = Graph::new(500, false);
    let bt = batch(vec![node("b.example")], vec![]);
    assert_eq!(g.admit_batch(&bt, 100, &vec![100]), Err(GraphError::BudgetReached));
    assert_eq!(GraphError::BudgetReached.message(), "graph budget reached; reduce scope or raise budget");
    assert_eq!(GraphError::DanglingEdge.message(), "dangling edge");
}

#[test]
fn coalescing_merges_per_identifier_with_stored_truth() {
    let first = Node::stamped("domain", "example.com", "crtsh", 50);
    let second = Node::stamped("domain", "EXAMPLE.com", "certspotter", 40);
    let other = Node::stamped("ip", "1.1.1.1", "google", 60);
    let stored = Node::stamped("domain", "example.com", "analyst", 10);
    let out = coalesce(vec![first, second, other.duplicate()], vec![Some(stored), None, None]);
    assert_eq!(out.len(), 2);
    assert!(out[0].id < out[1].id);
    let d = out.iter().find(|n| n.kind == "domain").unwrap();
    assert_eq!(d.sources, vec!["analyst".to_string(), "certspotter".to_string(), "crtsh".to_string()]);
    assert_eq!(d.timestamp, 10);
    let i = out.iter().find(|n| n.kind == "ip").unwrap();
    assert_eq!(i.sources, vec!["google".to_string()]);
}

#[test]
fn coalescer_takes_stored_truth_only_for_the_first_occurrence() {
    let mut c = Coalescer::new();
    let n = Node::stamped("ip", "9.9.9.9", "a", 5);
    let id = n.id.clone();
    assert!(!c.contains(&id));
    c.add(n, None);
    assert!(c.contains(&id));
    c.add(Node::stamped("ip", "9.9.9.9", "b", 3), Some(Node::stamped("ip", "9.9.9.9", "ignored", 1)));
    let got = c.get(&id).unwrap();
    assert_eq!(got.sources, vec!["a".to_string(), "b".to_string()]);
    assert_eq!(got.timestamp, 3);
    assert_eq!(c.into_nodes().len(), 1);
}

#[test]
fn an_admitted_batch_fits_once_entered() {
    let mut g = Graph::new(1000, false);
    g.apply(batch(vec![node("a.example")], vec![]), &vec![100]);
    let bt = batch(vec![node("b.example")], vec![]);
    assert_eq!(g.admit_batch(&bt, 30, &vec![30]), Ok(()));
    g.apply(bt, &vec![30]);
    assert_eq!(g.estimated_bytes(), 320 + 320 + 90);
    assert!(g.estimated_bytes() <= 1000);
}

#[test]
fn entered_nodes_are_read_back_last_report_winning() {
    let mut g = Graph::new(100_000, false);
    let first = Node::stamped("domain", "a.example", "crtsh", 1);
    let last = Node::stamped("domain", "a.example", "urlscan", 2);
    let id = first.id.clone();
    g.apply(batch(vec![first, last], vec![]), &vec![10, 10]);
    let hot = g.get_hot(&id).unwrap();
    assert_eq!(hot.sources, vec!["urlscan".to_string()]);
    assert_eq!(hot.timestamp, 2);
    assert_eq!(g.node_count(), 1);
}
