use linkscope::codec::UrlRefusal;
use linkscope::json::Json;
use linkscope::model::{Batch, ModelError, Node};
use linkscope::transform::{RunStatus, Tally};
use linkscope::transform::{
    HttpTransform, Manifest, TransformError, builtins, default_ttl, extract, is_known_parser, lines_of, parse, parse_at,
    validate_manifests,
};

fn is_ip(s: &str) -> bool {
    let v4 = s.split('.').count() == 4 && s.split('.').all(|p| !p.is_empty() && p.len() <= 3 && p.chars().all(|c| c.is_ascii_digit()) && p.parse::<u16>().map_or(false, |n| n <= 255));
    let v6 = s.contains(':') && s.chars().all(|c| c.is_ascii_hexdigit() || c == ':' || c == '.');
    v4 || v6
}

fn to_json(v: &serde_json::Value) -> Json {
    match v {
        serde_json::Value::Null => Json::Null,
        serde_json::Value::Bool(b) => Json::Bool(*b),
        serde_json::Value::Number(n) => Json::Number(n.as_i64()),
        serde_json::Value::String(s) => Json::String(s.clone()),
        serde_json::Value::Array(a) => Json::Array(a.iter().map(to_json).collect()),
        serde_json::Value::Object(o) => Json::Object(o.iter().map(|(k, v)| (k.clone(), to_json(v))).collect()),
    }
}

fn json(text: &str) -> Json {
    to_json(&serde_json::from_str::<serde_json::Value>(text).unwrap())
}

fn manifest(id: &str, parser: &str) -> Manifest {
    Manifest {
        id: id.to_string(),
        name: id.to_string(),
        input: "domain".to_string(),
        group: "data".to_string(),
        endpoint: "https://api.example.org/lookup?q={value}".to_string(),
        host: "api.example.org".to_string(),
        parser: parser.to_string(),
        pointer: String::new(),
        output_kind: String::new(),
        ttl: 3600,
    }
}

fn values(m: &Manifest, text: &str) -> Vec<(String, String)> {
    extract(m, &json(text), &is_ip).unwrap()
}

fn pairs(kind: &str, vs: &[&str]) -> Vec<(String, String)> {
    vs.iter().map(|v| (kind.to_string(), v.to_string())).collect()
}

fn small(_: &Node) -> usize {
    200
}

fn batch_small(_: &Batch) -> usize {
    1000
}

fn place(x: u32, y: u32, k: usize) -> (u32, u32) {
    (x.wrapping_add(k as u32), y)
}

#[test]
fn manifests_default_to_an_hour_of_caching() {
    assert_eq!(default_ttl(), 3600);
}

#[test]
fn builtin_transforms_are_valid() {
    let b = builtins();
    let ids: Vec<&str> = b.iter().map(|r| r.0.id.as_str()).collect();
    assert_eq!(ids, vec!["cloudflare", "google", "crtsh", "certspotter", "internetdb", "urlscan", "wayback", "rdap", "github", "hackernews", "keybase"]);
    assert!(b.iter().all(|r| r.0.group == "data" && r.0.ttl == 3600 && r.0.pointer.is_empty()));
    let ms: Vec<Manifest> = b.into_iter().map(|r| r.0).collect();
    let ts = validate_manifests(ms).expect("builtins validate");
    assert_eq!(ts.len(), 11);
    assert_eq!(ts[4].manifest().input, "ip");
}

#[test]
fn manifest_ids_must_be_fresh_and_short() {
    let a = manifest("a", "doh");
    assert_eq!(validate_manifests(vec![a.duplicate(), a]).err(), Some(TransformError::InvalidPluginId));
    assert_eq!(validate_manifests(vec![manifest("", "doh")]).err(), Some(TransformError::InvalidPluginId));
    assert_eq!(validate_manifests(vec![manifest(&"x".repeat(65), "doh")]).err(), Some(TransformError::InvalidPluginId));
    assert!(validate_manifests(vec![manifest(&"x".repeat(64), "doh")]).is_ok());
}

#[test]
fn manifest_endpoints_must_stay_on_https_and_their_host() {
    let mut m = manifest("a", "doh");
    m.endpoint = "http://api.example.org/{value}".to_string();
    assert_eq!(validate_manifests(vec![m]).err(), Some(TransformError::InvalidPluginHost));
    let mut m = manifest("a", "doh");
    m.host = "other.example.org".to_string();
    assert_eq!(validate_manifests(vec![m]).err(), Some(TransformError::InvalidPluginHost));
    let mut m = manifest("a", "doh");
    m.endpoint = "https://user@api.example.org/{value}".to_string();
    assert_eq!(validate_manifests(vec![m]).err(), Some(TransformError::InvalidPluginHost));
    let mut m = manifest("a", "doh");
    m.endpoint = "{value} is no url".to_string();
    let e = validate_manifests(vec![m]).err();
    assert_eq!(e, Some(TransformError::InvalidUrl(UrlRefusal::RelativeUrlWithoutBase)));
    assert_eq!(e.unwrap().message(), "relative URL without a base");
}

#[test]
fn manifest_parsers_must_be_known() {
    assert_eq!(validate_manifests(vec![manifest("a", "regex")]).err(), Some(TransformError::UnsupportedParser));
    for p in ["doh", "crt", "certspotter", "internetdb", "urlscan", "cdx", "pointer", "attributes"] {
        assert!(is_known_parser(p));
    }
    assert!(!is_known_parser("Doh"));
}

#[test]
fn requests_encode_the_value_into_the_endpoint() {
    let t = HttpTransform(manifest("a", "doh"));
    let n = Node::stamped("domain", "a b&c", "analyst", 0);
    let url = t.request(&n).unwrap();
    assert_eq!(url.text, "https://api.example.org/lookup?q=a+b%26c");
    assert_eq!(url.host.as_deref(), Some("api.example.org"));
    let ip = Node::stamped("ip", "1.1.1.1", "analyst", 0);
    assert_eq!(t.request(&ip).err(), Some(TransformError::InputKindMismatch));
}

#[test]
fn requests_form_encode_bytes_outside_the_kept_set() {
    let t = HttpTransform(manifest("a", "doh"));
    let n = Node::stamped("domain", "\u{e9} x-._*~", "analyst", 0);
    let url = t.request(&n).unwrap();
    assert_eq!(url.text, "https://api.example.org/lookup?q=%C3%A9+x-._*%7E");
}

#[test]
fn requests_may_not_escape_the_declared_host() {
    let mut m = manifest("a", "doh");
    m.endpoint = "https://{value}/lookup".to_string();
    let t = HttpTransform(m);
    let n = Node::stamped("domain", "evil.example", "analyst", 0);
    assert_eq!(t.request(&n).err(), Some(TransformError::EscapedHost));
    assert_eq!(TransformError::EscapedHost.message(), "plugin endpoint escaped its declared host");
}

#[test]
fn lines_split_like_str_lines() {
    assert_eq!(lines_of("a\r\nb\n\nc\n"), vec!["a", "b", "", "c"]);
    assert_eq!(lines_of(""), Vec::<String>::new());
    assert_eq!(lines_of("x"), vec!["x"]);
}

#[test]
fn doh_answers_give_addresses_of_a_and_aaaa_records() {
    let m = manifest("cloudflare", "doh");
    let text = r#"{"Answer":[{"type":5,"data":"alias."},{"type":1,"data":"93.184.216.34"},{"type":28,"data":"2606:2800::1"},{"type":1,"data":"nonsense"},{"type":1.0,"data":"1.2.3.4"}]}"#;
    assert_eq!(values(&m, text), pairs("ip", &["93.184.216.34", "2606:2800::1"]));
    assert!(values(&m, "{}").is_empty());
}

#[test]
fn crt_names_lose_their_wildcards() {
    let m = manifest("crtsh", "crt");
    let text = r#"[{"name_value":"*.a.example\nb.example"},{"name_value":"c.example\r\n*.*.d.example"},{"other":1}]"#;
    assert_eq!(values(&m, text), pairs("domain", &["a.example", "b.example", "c.example", "d.example"]));
}

#[test]
fn crt_stops_after_passing_1024_names() {
    let m = manifest("crtsh", "crt");
    let names: Vec<String> = (0..40).map(|i| format!("n{}.example", i)).collect();
    let record = format!("{{\"name_value\":\"{}\"}}", names.join("\\n"));
    let text = format!("[{}]", vec![record; 30].join(","));
    assert_eq!(values(&m, &text).len(), 1040);
}

#[test]
fn certspotter_dns_names() {
    let m = manifest("certspotter", "certspotter");
    let text = r#"[{"dns_names":["*.x.example","y.example",7]},{"dns_names":"no"}]"#;
    assert_eq!(values(&m, text), pairs("domain", &["x.example", "y.example"]));
}

#[test]
fn internetdb_hostnames() {
    let m = manifest("internetdb", "internetdb");
    let text = r#"{"hostnames":["*.keep.example","two.example"],"ip":"1.1.1.1"}"#;
    assert_eq!(values(&m, text), pairs("domain", &["*.keep.example", "two.example"]));
}

#[test]
fn urlscan_page_urls() {
    let m = manifest("urlscan", "urlscan");
    let text = r#"{"results":[{"page":{"url":"https://a.example/"}},{"page":{}},{"task":1},{"page":{"url":"https://b.example/"}}]}"#;
    assert_eq!(values(&m, text), pairs("url", &["https://a.example/", "https://b.example/"]));
}

#[test]
fn cdx_skips_the_header_row() {
    let m = manifest("wayback", "cdx");
    let text = r#"[["original"],["http://a.example/"],[],["http://b.example/x"],"loose"]"#;
    assert_eq!(values(&m, text), pairs("url", &["http://a.example/", "http://b.example/x"]));
}

#[test]
fn pointer_reads_strings_at_the_pointer() {
    let mut m = manifest("p", "pointer");
    m.pointer = "/data/emails".to_string();
    m.output_kind = "email".to_string();
    assert_eq!(values(&m, r#"{"data":{"emails":["a@x.example",3,"b@x.example"]}}"#), pairs("email", &["a@x.example", "b@x.example"]));
    assert_eq!(values(&m, r#"{"data":{"emails":"c@x.example"}}"#), pairs("email", &["c@x.example"]));
    assert!(values(&m, r#"{"data":{}}"#).is_empty());
    m.pointer = "/list/1".to_string();
    assert_eq!(values(&m, r#"{"list":["a","b"]}"#), pairs("email", &["b"]));
}

#[test]
fn pointer_takes_at_most_512_items() {
    let mut m = manifest("p", "pointer");
    m.pointer = "/xs".to_string();
    m.output_kind = "username".to_string();
    let items: Vec<String> = (0..600).map(|i| format!("\"u{}\"", i)).collect();
    let text = format!("{{\"xs\":[{}]}}", items.join(","));
    assert_eq!(values(&m, &text).len(), 512);
}

#[test]
fn attributes_parser_yields_no_pairs_and_unknown_parsers_fail() {
    assert!(values(&manifest("rdap", "attributes"), r#"{"a":1}"#).is_empty());
    assert_eq!(extract(&manifest("x", "mystery"), &Json::Null, &is_ip).err(), Some(TransformError::UnknownParser));
}

fn input() -> Node {
    let mut n = Node::stamped("domain", "example.com", "analyst", 10);
    n.x = 100;
    n.y = 7;
    n
}

#[test]
fn parse_builds_a_star_around_the_input() {
    let m = manifest("cloudflare", "doh");
    let input = input();
    let j = json(r#"{"Answer":[{"type":1,"data":"1.1.1.1"},{"type":1,"data":"1.1.1.1"},{"type":1,"data":"8.8.8.8"}]}"#);
    let b = parse_at(&m, &input, &j, "{}", 2, 42, &is_ip, &small, &batch_small, &place).unwrap();
    assert_eq!(b.nodes.len(), 3);
    assert_eq!(b.edges.len(), 2);
    assert_eq!(b.nodes[0].id, input.id);
    assert_eq!(b.nodes[0].sources, vec!["analyst".to_string(), "cloudflare".to_string()]);
    assert_eq!(b.nodes[1].value, "1.1.1.1");
    assert_eq!(b.nodes[2].value, "8.8.8.8");
    assert_eq!(b.nodes[1].sources, vec!["cloudflare".to_string()]);
    assert_eq!(b.nodes[1].timestamp, 42);
    assert_eq!((b.nodes[1].x, b.nodes[1].y), (101, 7));
    assert_eq!((b.nodes[2].x, b.nodes[2].y), (102, 7));
    for (k, e) in b.edges.iter().enumerate() {
        assert_eq!(e.source, input.id);
        assert_eq!(e.target, b.nodes[k + 1].id);
        assert_eq!(e.relation, "observed");
        assert_eq!(e.provenance, "cloudflare");
        assert_eq!(e.timestamp, 42);
    }
}

#[test]
fn parse_skips_the_input_itself_and_invalid_entities() {
    let mut m = manifest("p", "pointer");
    m.pointer = "/xs".to_string();
    m.output_kind = "domain".to_string();
    let j = json(r#"{"xs":["EXAMPLE.com.","  ","ok.example"]}"#);
    let b = parse_at(&m, &input(), &j, "", 0, 1, &is_ip, &small, &batch_small, &place).unwrap();
    let vs: Vec<&str> = b.nodes.iter().map(|n| n.value.as_str()).collect();
    assert_eq!(vs, vec!["example.com", "ok.example"]);
}

#[test]
fn parse_drops_entities_whose_encoding_is_too_large() {
    let m = manifest("cloudflare", "doh");
    let j = json(r#"{"Answer":[{"type":1,"data":"1.1.1.1"}]}"#);
    let big = |n: &Node| if n.kind == "ip" { 70_000 } else { 100 };
    let b = parse_at(&m, &input(), &j, "", 0, 1, &is_ip, &big, &batch_small, &place).unwrap();
    assert_eq!(b.nodes.len(), 1);
    assert!(b.edges.is_empty());
}

#[test]
fn parse_stops_at_256_entities() {
    let m = manifest("cloudflare", "doh");
    let answers: Vec<String> = (0..300).map(|i| format!("{{\"type\":1,\"data\":\"10.0.{}.{}\"}}", i / 256, i % 256)).collect();
    let j = json(&format!("{{\"Answer\":[{}]}}", answers.join(",")));
    let b = parse_at(&m, &input(), &j, "", 0, 1, &is_ip, &small, &batch_small, &place).unwrap();
    assert_eq!(b.nodes.len(), 256);
    assert_eq!(b.edges.len(), 255);
    assert_eq!(b.nodes[255].value, "10.0.0.254");
}

#[test]
fn parse_keeps_attribute_documents_up_to_48_kib() {
    let m = manifest("rdap", "attributes");
    let j = json(r#"{"handle":"X"}"#);
    let b = parse_at(&m, &input(), &j, "{\"handle\":\"X\"}", 48 * 1024, 1, &is_ip, &small, &batch_small, &place).unwrap();
    assert_eq!(b.nodes.len(), 1);
    assert_eq!(b.nodes[0].attributes.get("rdap"), Some("{\"handle\":\"X\"}".to_string()));
    let err = parse_at(&m, &input(), &j, "{}", 48 * 1024 + 1, 1, &is_ip, &small, &batch_small, &place).err();
    assert_eq!(err, Some(TransformError::AttributesTooLarge));
}

#[test]
fn parse_refuses_unknown_parsers_and_oversized_batches() {
    let j = json("{}");
    let err = parse_at(&manifest("x", "mystery"), &input(), &j, "", 0, 1, &is_ip, &small, &batch_small, &place).err();
    assert_eq!(err, Some(TransformError::UnknownParser));
    let huge = |_: &Batch| 3 * 1024 * 1024;
    let err = parse_at(&manifest("c", "doh"), &input(), &j, "", 0, 1, &is_ip, &small, &huge, &place).err();
    assert_eq!(err, Some(TransformError::Batch(ModelError::BatchTooLarge)));
}

#[test]
fn parse_stamps_with_the_current_time() {
    let m = manifest("cloudflare", "doh");
    let j = json(r#"{"Answer":[{"type":1,"data":"9.9.9.9"}]}"#);
    let before = linkscope::model::now();
    let b = parse(&m, &input(), &j, "", 0, &is_ip, &small, &batch_small, &place).unwrap();
    assert_eq!(b.nodes.len(), 2);
    assert!(b.nodes[1].timestamp >= before);
}

#[test]
fn runs_count_their_reports() {
    let mut t = Tally::new(2);
    assert_eq!(t.record(true), RunStatus::Complete);
    assert_eq!(t.record(false), RunStatus::Error);
    assert_eq!(t, Tally { done: 2, total: 2 });
    assert_eq!(t.finish(false).name(), "finished");
    assert_eq!(t.finish(true).name(), "cancelled");
    assert_eq!(RunStatus::Complete.name(), "complete");
    assert_eq!(RunStatus::Error.name(), "error");
}
