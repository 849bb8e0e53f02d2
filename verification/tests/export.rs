use linkscope::export::{
    ExportError, ExportFormat, Exporter, array_json, confidence_name, decimal, export_format, import_json, join_texts,
    misp_kind, misp_node, object_json, stix_edge, stix_node, stix_type, unsigned_decimal, xml,
};
use linkscope::model::{Batch, Confidence, Edge, ModelError, Node};

fn node(kind: &str, value: &str) -> Node {
    Node::stamped(kind, value, "analyst", 0)
}

#[test]
fn xml_escapes_markup_and_drops_control_characters() {
    assert_eq!(xml("a<b>&\"c'"), "a&lt;b&gt;&amp;&quot;c&apos;");
    assert_eq!(xml("tab\there\nline\r\u{1}\u{0}x"), "tab\there\nline\rx");
    assert_eq!(xml("&amp;"), "&amp;amp;");
    assert_eq!(xml("é✓"), "é✓");
}

#[test]
fn escaped_text_never_holds_markup() {
    let s: String = (0u8..128).map(|b| b as char).collect();
    let e = xml(&s);
    assert!(!e.contains('<') && !e.contains('>') && !e.contains('"') && !e.contains('\''));
    assert!(e.chars().all(|c| c == '\n' || c == '\r' || c == '\t' || c >= ' '));
}

#[test]
fn decimal_text_of_integers() {
    assert_eq!(decimal(0), "0");
    assert_eq!(decimal(-7), "-7");
    assert_eq!(decimal(1700000000), "1700000000");
    assert_eq!(decimal(i64::MIN), i64::MIN.to_string());
    assert_eq!(unsigned_decimal(u64::MAX), u64::MAX.to_string());
}

#[test]
fn json_lists_and_objects() {
    assert_eq!(join_texts(&vec![]), "");
    assert_eq!(join_texts(&vec!["a".to_string(), "b".to_string()]), "a,b");
    assert_eq!(array_json(&vec!["1".to_string(), "\"x\"".to_string()]), "[1,\"x\"]");
    assert_eq!(object_json(&vec![("k".to_string(), "1".to_string()), ("q\"".to_string(), "null".to_string())]), "{\"k\":1,\"q\\\"\":null}");
    assert_eq!(object_json(&vec![]), "{}");
    assert_eq!(
        object_json(&vec![("a\u{1}\n\t\\".to_string(), "1".to_string())]),
        "{\"a\\u0001\\n\\t\\\\\":1}"
    );
}

#[test]
fn formats_by_name() {
    assert_eq!(export_format("json"), Ok(ExportFormat::Json));
    assert_eq!(export_format("graphml"), Ok(ExportFormat::Graphml));
    assert_eq!(export_format("stix"), Ok(ExportFormat::Stix));
    assert_eq!(export_format("misp"), Ok(ExportFormat::Misp));
    assert_eq!(export_format("csv"), Err(ExportError::UnsupportedFormat));
    assert_eq!(ExportError::UnsupportedFormat.message(), "unsupported export format");
}

#[test]
fn stix_object_types() {
    assert_eq!(stix_type(&node("domain", "a.example")), "domain-name");
    assert_eq!(stix_type(&node("ip", "1.2.3.4")), "ipv4-addr");
    assert_eq!(stix_type(&node("ip", "::1")), "ipv6-addr");
    assert_eq!(stix_type(&node("url", "https://a/")), "url");
    assert_eq!(stix_type(&node("email", "a@b")), "email-addr");
    assert_eq!(stix_type(&node("username", "bob")), "x-linkscope-entity");
}

#[test]
fn misp_types_and_categories() {
    assert_eq!(misp_kind("domain"), ("domain", "Network activity"));
    assert_eq!(misp_kind("ip"), ("ip-dst", "Network activity"));
    assert_eq!(misp_kind("url"), ("url", "Network activity"));
    assert_eq!(misp_kind("email"), ("email-src", "Payload delivery"));
    assert_eq!(misp_kind("username"), ("text", "Other"));
}

#[test]
fn confidence_names() {
    assert_eq!(confidence_name(Confidence::Data), "data");
    assert_eq!(confidence_name(Confidence::Information), "information");
    assert_eq!(confidence_name(Confidence::Intelligence), "intelligence");
    assert_eq!(confidence_name(Confidence::CounterIntelligence), "counter-intelligence");
}

#[test]
fn stix_entity_objects() {
    let mut n = node("domain", "a.example");
    n.attributes.insert("z".to_string(), "1".to_string());
    n.attributes.insert("a".to_string(), "{\"k\":true}".to_string());
    let text = stix_node(&n);
    let expected = format!(
        "{{\"id\":\"domain-name--{}\",\"spec_version\":\"2.1\",\"type\":\"domain-name\",\"value\":\"a.example\",\"x_linkscope_attributes\":{{\"a\":{{\"k\":true}},\"z\":1}},\"x_linkscope_confidence\":\"data\",\"x_linkscope_kind\":\"domain\",\"x_linkscope_sources\":[\"analyst\"]}}",
        n.id
    );
    assert_eq!(text, expected);
    let v: serde_json::Value = serde_json::from_str(&text).unwrap();
    assert_eq!(v["type"], "domain-name");
}

#[test]
fn stix_extension_objects_carry_times() {
    let n = Node::stamped("username", "bob", "github", 86400);
    let text = stix_node(&n);
    assert!(text.starts_with(&format!("{{\"created\":\"1970-01-02T00:00:00Z\",\"id\":\"x-linkscope-entity--{}\",\"modified\":\"1970-01-02T00:00:00Z\",", n.id)));
    let late = Node::stamped("username", "bob", "github", i64::MAX);
    assert!(stix_node(&late).starts_with("{\"created\":\"1970-01-01T00:00:00Z\""));
}

#[test]
fn stix_relationships() {
    let a = node("domain", "a.example");
    let b = node("ip", "::1");
    let e = Edge::stamped(&a.id, &b.id, "observed", "google", 0);
    let expected = format!(
        "{{\"created\":\"1970-01-01T00:00:00Z\",\"id\":\"relationship--{}\",\"modified\":\"1970-01-01T00:00:00Z\",\"relationship_type\":\"related-to\",\"source_ref\":\"domain-name--{}\",\"spec_version\":\"2.1\",\"target_ref\":\"ipv6-addr--{}\",\"type\":\"relationship\",\"x_linkscope_provenance\":\"google\",\"x_linkscope_relation\":\"observed\"}}",
        e.id, a.id, b.id
    );
    assert_eq!(stix_edge(&e, &a, &b), expected);
}

#[test]
fn misp_attributes() {
    let mut n = Node::stamped("email", "a@b.example", "analyst", 1234);
    n.attributes.insert("k".to_string(), "\"v\"".to_string());
    let expected = format!(
        "{{\"category\":\"Payload delivery\",\"comment\":\"{{\\\"k\\\":\\\"v\\\"}}\",\"timestamp\":\"1234\",\"to_ids\":false,\"type\":\"email-src\",\"uuid\":\"{}\",\"value\":\"a@b.example\"}}",
        n.id
    );
    assert_eq!(misp_node(&n), expected);
}

#[test]
fn json_export_frames_records() {
    let (mut x, head) = Exporter::start(ExportFormat::Json, "");
    let a = node("domain", "a.example");
    let mut out = head;
    out += &x.node(&a, "{\"n\":1}");
    out += &x.node(&a, "{\"n\":2}");
    out += &x.between();
    let e = Edge::stamped("s", "t", "r", "p", 0);
    out += &x.edge(&e, "{\"e\":1}", None, None).unwrap();
    out += &x.finish();
    assert_eq!(out, "{\"version\":1,\"nodes\":[{\"n\":1},{\"n\":2}],\"edges\":[{\"e\":1}]}");
}

#[test]
fn graphml_export_escapes_payloads() {
    let (mut x, head) = Exporter::start(ExportFormat::Graphml, "");
    assert!(head.starts_with("<?xml version=\"1.0\" encoding=\"UTF-8\"?><graphml"));
    let mut a = node("domain", "a.example");
    a.id = "i<d".to_string();
    assert_eq!(x.node(&a, "{\"v\":\"<&>\"}"), "<node id=\"i&lt;d\"><data key=\"payload\">{&quot;v&quot;:&quot;&lt;&amp;&gt;&quot;}</data></node>");
    assert_eq!(x.between(), "");
    let e = Edge::stamped("s", "t", "r", "p", 0);
    let text = x.edge(&e, "{}", None, None).unwrap();
    assert_eq!(text, format!("<edge id=\"{}\" source=\"s\" target=\"t\"><data key=\"payload\">{{}}</data></edge>", e.id));
    assert_eq!(x.finish(), "</graph></graphml>");
}

#[test]
fn stix_bundle_keeps_one_list_and_needs_both_ends() {
    let (mut x, head) = Exporter::start(ExportFormat::Stix, "11111111-2222-4333-8444-555555555555");
    assert_eq!(head, "{\"type\":\"bundle\",\"id\":\"bundle--11111111-2222-4333-8444-555555555555\",\"objects\":[");
    let a = node("domain", "a.example");
    let b = node("ip", "1.2.3.4");
    let first = x.node(&a, "");
    assert!(first.starts_with('{'));
    assert!(x.node(&b, "").starts_with(",{"));
    assert_eq!(x.between(), "");
    let e = Edge::stamped(&a.id, &b.id, "observed", "dns", 0);
    assert_eq!(x.edge(&e, "", None, Some(&b)), Err(ExportError::MissingSource));
    assert_eq!(x.edge(&e, "", Some(&a), None), Err(ExportError::MissingTarget));
    assert!(x.edge(&e, "", Some(&a), Some(&b)).unwrap().starts_with(",{\"created\""));
    assert_eq!(x.finish(), "]}");
}

#[test]
fn misp_event_lists_edges_apart() {
    let (mut x, head) = Exporter::start(ExportFormat::Misp, "u");
    assert_eq!(head, "{\"Event\":{\"uuid\":\"u\",\"info\":\"LinkScope local export\",\"distribution\":\"0\",\"analysis\":\"0\",\"threat_level_id\":\"4\",\"published\":false,\"Attribute\":[");
    let a = node("url", "https://a.example/");
    assert!(x.node(&a, "").starts_with("{\"category\":\"Network activity\""));
    assert_eq!(x.between(), "],\"x_linkscope_edges\":[");
    let e = Edge::stamped("s", "t", "r", "p", 0);
    assert_eq!(x.edge(&e, "{\"e\":1}", None, None), Ok("{\"e\":1}".to_string()));
    assert_eq!(x.finish(), "]}}");
}

#[test]
fn exports_begin_with_a_fresh_identifier() {
    let (_, head) = Exporter::begin("stix").unwrap();
    let id = &head["{\"type\":\"bundle\",\"id\":\"bundle--".len()..head.len() - "\",\"objects\":[".len()];
    assert!(uuid::Uuid::parse_str(id).is_ok());
    assert!(Exporter::begin("xlsx").is_err());
    let (_, other) = Exporter::begin("stix").unwrap();
    assert_ne!(head, other);
}

#[test]
fn imports_are_bounded_parsed_and_checked() {
    let mut b = Batch::default();
    b.nodes.push(node("domain", "a.example"));
    let ok = import_json(100, Some(b), 100, &vec![100]).unwrap();
    assert_eq!(ok.nodes.len(), 1);
    assert_eq!(import_json(2 * 1024 * 1024 + 1, None, 0, &vec![]).err(), Some(ExportError::ImportTooLarge));
    assert_eq!(import_json(10, None, 0, &vec![]).err(), Some(ExportError::InvalidImport));
    let mut bad = Batch::default();
    bad.nodes.push(node("domain", " "));
    assert_eq!(import_json(10, Some(bad), 10, &vec![10]).err(), Some(ExportError::Batch(ModelError::InvalidNode)));
    assert_eq!(ExportError::ImportTooLarge.message(), "import batch exceeds 2 MiB");
}

#[test]
fn stix_entities_of_standard_types_carry_no_time() {
    let n = Node::stamped("domain", "old.example", "analyst", -100_000_000_000);
    assert!(stix_node(&n).starts_with("{\"id\":\"domain-name--"));
    let (mut x, _) = Exporter::start(ExportFormat::Stix, "b");
    assert!(x.node(&n, "").starts_with("{\"id\""));
}
