use linkscope::json::{Json, parse_index, split_on};

fn doc() -> Json {
    Json::Object(vec![
        ("a".to_string(), Json::Array(vec![Json::Number(Some(1)), Json::String("two".to_string())])),
        ("b/c".to_string(), Json::Bool(true)),
        ("d~e".to_string(), Json::Null),
        ("a".to_string(), Json::Null),
    ])
}

#[test]
fn fields_are_found_by_first_name() {
    let d = doc();
    assert!(matches!(d.get("a"), Some(Json::Array(_))));
    assert!(d.get("z").is_none());
    assert!(Json::Null.get("a").is_none());
}

#[test]
fn pointers_follow_rfc_6901() {
    let d = doc();
    assert!(matches!(d.pointer(""), Some(Json::Object(_))));
    assert!(matches!(d.pointer("/a/1"), Some(Json::String(s)) if s == "two"));
    assert!(matches!(d.pointer("/b~1c"), Some(Json::Bool(true))));
    assert!(matches!(d.pointer("/d~0e"), Some(Json::Null)));
    assert!(d.pointer("/a/01").is_none());
    assert!(d.pointer("/a/2").is_none());
    assert!(d.pointer("a").is_none());
}

#[test]
fn pointer_tokens() {
    assert_eq!(split_on("/a//b", '/'), vec!["", "a", "", "b"]);
    assert_eq!(parse_index("0"), Some(0));
    assert_eq!(parse_index("12"), Some(12));
    assert_eq!(parse_index("012"), None);
    assert_eq!(parse_index("+1"), None);
    assert_eq!(parse_index(""), None);
}
