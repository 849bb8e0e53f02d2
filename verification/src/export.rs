//! Export of an investigation as JSON, GraphML, STIX 2.1 or a MISP event,
//! written piece by piece as the records are read from storage, and the
//! checks on an imported batch.

use vstd::prelude::*;
use crate::model::model_message;
use crate::codec::{json_quote, json_string};
use crate::ids::{is_hyphenated_uuid, uuid_v4_text};
use crate::model::{Batch, Confidence, Edge, EdgeView, ModelError, Node, NodeView, batch_check, sorted_members};
use crate::text::{has_prefix, same_text, starts_with};

verus! {

/// The texts `items` separated by commas.
pub open spec fn joined(items: Seq<Seq<char>>) -> Seq<char>
    decreases items.len(),
{
    if items.len() == 0 {
        seq![]
    } else if items.len() == 1 {
        items[0]
    } else {
        joined(items.drop_last()) + seq![','] + items.last()
    }
}

/// The texts `items` separated by commas.
pub fn join_texts(items: &Vec<String>) -> (r: String)
    ensures
        r@ == joined(items@.map_values(|s: String| s@)),
{
    let ghost views = items@.map_values(|s: String| s@);
    let mut r = String::new();
    let mut i: usize = 0;
    while i < items.len()
        invariant
            views == items@.map_values(|s: String| s@),
            i <= items.len(),
            r@ == joined(views.take(i as int)),
        decreases items.len() - i,
    {
        if i > 0 {
            r.append(",");
        }
        r.append(items[i].as_str());
        proof {
            reveal_strlit(",");
            assert(views.take(i + 1).drop_last() =~= views.take(i as int));
            if i == 0 {
                assert(joined(views.take(1)) == views[0]);
                assert(r@ =~= views[0]);
            } else {
                assert(r@ =~= joined(views.take(i as int)) + seq![','] + views[i as int]);
            }
        }
        i = i + 1;
    }
    assert(views.take(i as int) =~= views);
    r
}

/// A JSON array of the JSON texts `items`.
pub open spec fn array_text(items: Seq<Seq<char>>) -> Seq<char> {
    seq!['['] + joined(items) + seq![']']
}

/// One member of a JSON object: the key quoted, a colon, the value's text.
pub open spec fn member_text(m: (Seq<char>, Seq<char>)) -> Seq<char> {
    json_string(m.0) + seq![':'] + m.1
}

/// A JSON object of the members `ms` (key, JSON text of the value), in order.
pub open spec fn object_text(ms: Seq<(Seq<char>, Seq<char>)>) -> Seq<char> {
    seq!['{'] + joined(ms.map_values(|m: (Seq<char>, Seq<char>)| member_text(m))) + seq!['}']
}

/// The views of (key, value text) members.
pub open spec fn member_views(ms: Seq<(String, String)>) -> Seq<(Seq<char>, Seq<char>)> {
    ms.map_values(|m: (String, String)| (m.0@, m.1@))
}

/// The JSON array of the JSON texts `items`.
pub fn array_json(items: &Vec<String>) -> (r: String)
    ensures
        r@ == array_text(items@.map_values(|s: String| s@)),
{
    let inner = join_texts(items);
    let mut r = String::new();
    r.append("[");
    r.append(inner.as_str());
    r.append("]");
    proof {
        reveal_strlit("[");
        reveal_strlit("]");
        assert(r@ =~= array_text(items@.map_values(|s: String| s@)));
    }
    r
}

/// The JSON object of the members `ms`, in order.
pub fn object_json(ms: &Vec<(String, String)>) -> (r: String)
    ensures
        r@ == object_text(member_views(ms@)),
{
    let mut parts: Vec<String> = Vec::new();
    let mut i: usize = 0;
    while i < ms.len()
        invariant
            i <= ms.len(),
            parts.len() == i,
            forall|j: int| 0 <= j < i ==> #[trigger] parts@[j]@ == member_text(member_views(ms@)[j]),
        decreases ms.len() - i,
    {
        let mut p = json_quote(ms[i].0.as_str());
        p.append(":");
        p.append(ms[i].1.as_str());
        proof {
            reveal_strlit(":");
            assert(p@ =~= member_text(member_views(ms@)[i as int]));
        }
        parts.push(p);
        i = i + 1;
    }
    let inner = join_texts(&parts);
    assert(parts@.map_values(|s: String| s@) =~= member_views(ms@).map_values(
        |m: (Seq<char>, Seq<char>)| member_text(m),
    ));
    let mut r = String::new();
    r.append("{");
    r.append(inner.as_str());
    r.append("}");
    proof {
        reveal_strlit("{");
        reveal_strlit("}");
        assert(r@ =~= object_text(member_views(ms@)));
    }
    r
}

/// The character of a decimal digit.
pub open spec fn digit_char(d: nat) -> char {
    if d == 0 { '0' }
    else if d == 1 { '1' }
    else if d == 2 { '2' }
    else if d == 3 { '3' }
    else if d == 4 { '4' }
    else if d == 5 { '5' }
    else if d == 6 { '6' }
    else if d == 7 { '7' }
    else if d == 8 { '8' }
    else { '9' }
}

/// The decimal digits of `n`, most significant first, without leading zeros.
pub open spec fn digits(n: nat) -> Seq<char>
    decreases n,
{
    if n < 10 {
        seq![digit_char(n)]
    } else {
        digits(n / 10).push(digit_char(n % 10))
    }
}

/// The decimal text of `n`, with a minus sign when negative.
pub open spec fn decimal_spec(n: int) -> Seq<char> {
    if n < 0 { seq!['-'] + digits((-n) as nat) } else { digits(n as nat) }
}

fn digit(d: u64) -> (c: char)
    requires
        d < 10,
    ensures
        c == digit_char(d as nat),
{
    if d == 0 { '0' }
    else if d == 1 { '1' }
    else if d == 2 { '2' }
    else if d == 3 { '3' }
    else if d == 4 { '4' }
    else if d == 5 { '5' }
    else if d == 6 { '6' }
    else if d == 7 { '7' }
    else if d == 8 { '8' }
    else { '9' }
}

fn push_digits(out: &mut Vec<char>, n: u64)
    ensures
        final(out)@ == old(out)@ + digits(n as nat),
    decreases n,
{
    if n >= 10 {
        push_digits(out, n / 10);
    }
    out.push(digit(n % 10));
    proof {
        if n < 10 {
            assert(final(out)@ =~= old(out)@ + digits(n as nat)) by {
                assert(n % 10 == n);
            }
        }
    }
    assert(out@ =~= old(out)@ + digits(n as nat));
}

/// The decimal text of `n`, as `to_string` writes it.
pub fn decimal(n: i64) -> (r: String)
    ensures
        r@ == decimal_spec(n as int),
{
    let mut v: Vec<char> = Vec::new();
    if n < 0 {
        v.push('-');
        let m: u64 = (0i128 - n as i128) as u64;
        push_digits(&mut v, m);
        assert(v@ =~= seq!['-'] + digits((-n) as nat));
    } else {
        push_digits(&mut v, n as u64);
        assert(v@ =~= digits(n as nat));
    }
    crate::text::string_from(v.as_slice())
}

/// The decimal text of `n`.
pub fn unsigned_decimal(n: u64) -> (r: String)
    ensures
        r@ == digits(n as nat),
{
    let mut v: Vec<char> = Vec::new();
    push_digits(&mut v, n);
    assert(v@ =~= digits(n as nat));
    crate::text::string_from(v.as_slice())
}

/// The characters XML 1.0 may hold in text and attributes, escaped: the
/// five markup characters become entities, other control characters than
/// tab, line feed and carriage return are dropped.
pub open spec fn xml_char(c: char) -> Seq<char> {
    if c == '&' {
        seq!['&', 'a', 'm', 'p', ';']
    } else if c == '<' {
        seq!['&', 'l', 't', ';']
    } else if c == '>' {
        seq!['&', 'g', 't', ';']
    } else if c == '"' {
        seq!['&', 'q', 'u', 'o', 't', ';']
    } else if c == '\'' {
        seq!['&', 'a', 'p', 'o', 's', ';']
    } else if c == '\n' || c == '\r' || c == '\t' || c >= ' ' {
        seq![c]
    } else {
        seq![]
    }
}

/// `s` escaped for XML, character by character.
pub open spec fn xml_spec(s: Seq<char>) -> Seq<char>
    decreases s.len(),
{
    if s.len() == 0 {
        seq![]
    } else {
        xml_spec(s.drop_last()) + xml_char(s.last())
    }
}

/// `s` escaped for XML text and attribute values.
pub fn xml(s: &str) -> (r: String)
    ensures
        r@ == xml_spec(s@),
{
    let cs = crate::text::chars_of(s);
    let mut out: Vec<char> = Vec::new();
    let mut i: usize = 0;
    while i < cs.len()
        invariant
            cs@ == s@,
            i <= cs.len(),
            out@ == xml_spec(cs@.take(i as int)),
        decreases cs.len() - i,
    {
        let c = cs[i];
        let ghost before = out@;
        if c == '&' {
            out.push('&');
            out.push('a');
            out.push('m');
            out.push('p');
            out.push(';');
        } else if c == '<' {
            out.push('&');
            out.push('l');
            out.push('t');
            out.push(';');
        } else if c == '>' {
            out.push('&');
            out.push('g');
            out.push('t');
            out.push(';');
        } else if c == '"' {
            out.push('&');
            out.push('q');
            out.push('u');
            out.push('o');
            out.push('t');
            out.push(';');
        } else if c == '\'' {
            out.push('&');
            out.push('a');
            out.push('p');
            out.push('o');
            out.push('s');
            out.push(';');
        } else if c == '\n' || c == '\r' || c == '\t' || c >= ' ' {
            out.push(c);
        }
        assert(out@ =~= before + xml_char(c));
        assert(cs@.take(i + 1).drop_last() =~= cs@.take(i as int));
        i = i + 1;
    }
    assert(cs@.take(i as int) =~= s@);
    crate::text::string_from(out.as_slice())
}

/// The RFC 3339 text (UTC, `Z`) of the Unix time `t`.
pub uninterp spec fn rfc3339_text(t: i64) -> Seq<char>;

/// Whether the Unix time `t` falls on a date the `time` crate represents
/// (the years -9999 to 9999).
pub open spec fn representable(t: i64) -> bool {
    -377705116800 <= t <= 253402300799
}

/// Whether `timestamp` can write `t`: RFC 3339 has no years before 0.
pub open spec fn writable_time(t: i64) -> bool {
    !(representable(t) && t < -62167219200)
}

/// The time `timestamp` writes for `t`: `t` itself where it is
/// representable, else the Unix epoch.
pub open spec fn written_time(t: i64) -> i64 {
    if representable(t) { t } else { 0 }
}

/// `time::OffsetDateTime::from_unix_timestamp(t)` (the epoch where `t` has
/// no date) formatted by `time::format_description::well_known::Rfc3339`.
/// Formatting fails only for years before 0, which `requires` leaves out.
#[verifier::external_body]
fn timestamp(t: i64) -> (r: String)
    requires
        writable_time(t),
    ensures
        r@ == rfc3339_text(written_time(t)),
{
    let d = time::OffsetDateTime::from_unix_timestamp(t).unwrap_or(time::OffsetDateTime::UNIX_EPOCH);
    d.format(&time::format_description::well_known::Rfc3339).unwrap_or_default()
}

/// Whether the time `t` can be written in RFC 3339 (see `writable_time`).
pub fn can_write_time(t: i64) -> (r: bool)
    ensures
        r == writable_time(t),
{
    !(-377705116800 <= t && t < -62167219200)
}

/// The formats an investigation can be exported to.
#[derive(Clone, Copy, Debug, PartialEq, Eq, Structural)]
pub enum ExportFormat {
    Json,
    Graphml,
    Stix,
    Misp,
}

/// Why an export or an import is refused.
#[derive(Clone, Copy, Debug, PartialEq, Eq, Structural)]
pub enum ExportError {
    UnsupportedFormat,
    MissingSource,
    MissingTarget,
    ImportTooLarge,
    InvalidImport,
    Batch(ModelError),
}

/// The message shown for a refusal.
pub open spec fn export_message(e: ExportError) -> Seq<char> {
    match e {
        ExportError::UnsupportedFormat => "unsupported export format"@,
        ExportError::MissingSource => "missing source"@,
        ExportError::MissingTarget => "missing target"@,
        ExportError::ImportTooLarge => "import batch exceeds 2 MiB"@,
        ExportError::InvalidImport => "import is not a valid batch"@,
        ExportError::Batch(e) => model_message(e),
    }
}

impl ExportError {
    /// The message shown for this refusal.
    pub fn message(&self) -> (m: &'static str)
        ensures
            m@ == export_message(*self),
    {
        match self {
            ExportError::UnsupportedFormat => "unsupported export format",
            ExportError::MissingSource => "missing source",
            ExportError::MissingTarget => "missing target",
            ExportError::ImportTooLarge => "import batch exceeds 2 MiB",
            ExportError::InvalidImport => "import is not a valid batch",
            ExportError::Batch(e) => e.message(),
        }
    }
}

/// The format a name stands for.
pub open spec fn format_named(name: Seq<char>) -> Option<ExportFormat> {
    if name == "json"@ {
        Some(ExportFormat::Json)
    } else if name == "graphml"@ {
        Some(ExportFormat::Graphml)
    } else if name == "stix"@ {
        Some(ExportFormat::Stix)
    } else if name == "misp"@ {
        Some(ExportFormat::Misp)
    } else {
        None
    }
}

/// The format named `name`; refused for any other name.
pub fn export_format(name: &str) -> (r: Result<ExportFormat, ExportError>)
    ensures
        match format_named(name@) {
            Some(f) => r == Ok::<ExportFormat, ExportError>(f),
            None => r == Err::<ExportFormat, ExportError>(ExportError::UnsupportedFormat),
        },
{
    if same_text(name, "json") {
        Ok(ExportFormat::Json)
    } else if same_text(name, "graphml") {
        Ok(ExportFormat::Graphml)
    } else if same_text(name, "stix") {
        Ok(ExportFormat::Stix)
    } else if same_text(name, "misp") {
        Ok(ExportFormat::Misp)
    } else {
        Err(ExportError::UnsupportedFormat)
    }
}

/// The STIX 2.1 object type of an entity.
pub open spec fn stix_type_spec(kind: Seq<char>, value: Seq<char>) -> Seq<char> {
    if kind == "domain"@ {
        "domain-name"@
    } else if kind == "ip"@ {
        if value.contains(':') { "ipv6-addr"@ } else { "ipv4-addr"@ }
    } else if kind == "url"@ {
        "url"@
    } else if kind == "email"@ {
        "email-addr"@
    } else {
        "x-linkscope-entity"@
    }
}

fn holds_char(s: &str, c: char) -> (r: bool)
    ensures
        r == s@.contains(c),
{
    let cs = crate::text::chars_of(s);
    let mut i: usize = 0;
    while i < cs.len()
        invariant
            cs@ == s@,
            i <= cs.len(),
            forall|j: int| 0 <= j < i ==> cs@[j] != c,
        decreases cs.len() - i,
    {
        if cs[i] == c {
            return true;
        }
        i = i + 1;
    }
    false
}

/// The STIX 2.1 object type of `n`.
pub fn stix_type(n: &Node) -> (r: &'static str)
    ensures
        r@ == stix_type_spec(n@.kind, n@.value),
{
    let k = n.kind.as_str();
    if same_text(k, "domain") {
        "domain-name"
    } else if same_text(k, "ip") {
        if holds_char(n.value.as_str(), ':') { "ipv6-addr" } else { "ipv4-addr" }
    } else if same_text(k, "url") {
        "url"
    } else if same_text(k, "email") {
        "email-addr"
    } else {
        "x-linkscope-entity"
    }
}

/// The MISP attribute type and category of an entity of `kind`.
pub open spec fn misp_kind_spec(kind: Seq<char>) -> (Seq<char>, Seq<char>) {
    if kind == "domain"@ {
        ("domain"@, "Network activity"@)
    } else if kind == "ip"@ {
        ("ip-dst"@, "Network activity"@)
    } else if kind == "url"@ {
        ("url"@, "Network activity"@)
    } else if kind == "email"@ {
        ("email-src"@, "Payload delivery"@)
    } else {
        ("text"@, "Other"@)
    }
}

/// The MISP attribute type and category of an entity of `kind`.
pub fn misp_kind(kind: &str) -> (r: (&'static str, &'static str))
    ensures
        (r.0@, r.1@) == misp_kind_spec(kind@),
{
    if same_text(kind, "domain") {
        ("domain", "Network activity")
    } else if same_text(kind, "ip") {
        ("ip-dst", "Network activity")
    } else if same_text(kind, "url") {
        ("url", "Network activity")
    } else if same_text(kind, "email") {
        ("email-src", "Payload delivery")
    } else {
        ("text", "Other")
    }
}

/// The name a confidence level is written under.
pub open spec fn confidence_spec(c: Confidence) -> Seq<char> {
    match c {
        Confidence::Data => "data"@,
        Confidence::Information => "information"@,
        Confidence::Intelligence => "intelligence"@,
        Confidence::CounterIntelligence => "counter-intelligence"@,
    }
}

/// The name a confidence level is written under.
pub fn confidence_name(c: Confidence) -> (r: &'static str)
    ensures
        r@ == confidence_spec(c),
{
    match c {
        Confidence::Data => "data",
        Confidence::Information => "information",
        Confidence::Intelligence => "intelligence",
        Confidence::CounterIntelligence => "counter-intelligence",
    }
}

/// The JSON string literals of `ts`.
pub open spec fn quoted_all(ts: Seq<Seq<char>>) -> Seq<Seq<char>> {
    ts.map_values(|t: Seq<char>| json_string(t))
}

/// The members of the STIX object of an entity, keys in order.
pub open spec fn stix_node_members(n: NodeView) -> Seq<(Seq<char>, Seq<char>)> {
    let t = stix_type_spec(n.kind, n.value);
    let stamp = json_string(rfc3339_text(written_time(n.timestamp)));
    let rest = seq![
        ("spec_version"@, json_string("2.1"@)),
        ("type"@, json_string(t)),
        ("value"@, json_string(n.value)),
        ("x_linkscope_attributes"@, object_text(sorted_members(n.attributes))),
        ("x_linkscope_confidence"@, json_string(confidence_spec(n.confidence))),
        ("x_linkscope_kind"@, json_string(n.kind)),
        ("x_linkscope_sources"@, array_text(quoted_all(n.sources))),
    ];
    let id = ("id"@, json_string(t + "--"@ + n.id));
    if has_prefix(t, "x-"@) {
        seq![("created"@, stamp), id, ("modified"@, stamp)] + rest
    } else {
        seq![id] + rest
    }
}

/// The members of the MISP attribute of an entity, keys in order.
pub open spec fn misp_node_members(n: NodeView) -> Seq<(Seq<char>, Seq<char>)> {
    let k = misp_kind_spec(n.kind);
    seq![
        ("category"@, json_string(k.1)),
        ("comment"@, json_string(object_text(sorted_members(n.attributes)))),
        ("timestamp"@, json_string(decimal_spec(n.timestamp as int))),
        ("to_ids"@, "false"@),
        ("type"@, json_string(k.0)),
        ("uuid"@, json_string(n.id)),
        ("value"@, json_string(n.value)),
    ]
}

/// The members of the STIX relationship of an edge between `source` and
/// `target`, keys in order.
pub open spec fn stix_edge_members(e: EdgeView, source: NodeView, target: NodeView) -> Seq<(Seq<char>, Seq<char>)> {
    let stamp = json_string(rfc3339_text(written_time(e.timestamp)));
    seq![
        ("created"@, stamp),
        ("id"@, json_string("relationship--"@ + e.id)),
        ("modified"@, stamp),
        ("relationship_type"@, json_string("related-to"@)),
        ("source_ref"@, json_string(stix_type_spec(source.kind, source.value) + "--"@ + source.id)),
        ("spec_version"@, json_string("2.1"@)),
        ("target_ref"@, json_string(stix_type_spec(target.kind, target.value) + "--"@ + target.id)),
        ("type"@, json_string("relationship"@)),
        ("x_linkscope_provenance"@, json_string(e.provenance)),
        ("x_linkscope_relation"@, json_string(e.relation)),
    ]
}

fn member(key: &str, value: String) -> (m: (String, String))
    ensures
        m.0@ == key@,
        m.1@ == value@,
{
    (key.to_owned(), value)
}

fn concat3(a: &str, b: &str, c: &str) -> (r: String)
    ensures
        r@ == a@ + b@ + c@,
{
    let mut r = a.to_owned();
    r.append(b);
    r.append(c);
    r
}

/// The JSON object of `n`'s attributes, keys in order.
fn attributes_json(n: &Node) -> (r: String)
    ensures
        r@ == object_text(sorted_members(n@.attributes)),
{
    let pairs = n.attributes.sorted_pairs();
    let r = object_json(&pairs);
    assert(member_views(pairs@) =~= sorted_members(n@.attributes));
    r
}

/// The JSON array of `n`'s sources.
fn sources_json(n: &Node) -> (r: String)
    ensures
        r@ == array_text(quoted_all(crate::model::texts(n.sources@))),
{
    let mut items: Vec<String> = Vec::new();
    let mut i: usize = 0;
    while i < n.sources.len()
        invariant
            i <= n.sources.len(),
            items.len() == i,
            forall|j: int| 0 <= j < i ==> #[trigger] items@[j]@ == json_string(n.sources@[j]@),
        decreases n.sources.len() - i,
    {
        items.push(json_quote(n.sources[i].as_str()));
        i = i + 1;
    }
    assert(items@.map_values(|s: String| s@) =~= quoted_all(crate::model::texts(n.sources@)));
    array_json(&items)
}

/// The STIX object of `n`.
pub fn stix_node(n: &Node) -> (r: String)
    requires
        has_prefix(stix_type_spec(n@.kind, n@.value), "x-"@) ==> writable_time(n.timestamp),
    ensures
        r@ == object_text(stix_node_members(n@)),
{
    let t = stix_type(n);
    let mut ms: Vec<(String, String)> = Vec::new();
    let ext = starts_with(t, "x-");
    if ext {
        ms.push(member("created", json_quote(timestamp(n.timestamp).as_str())));
    }
    ms.push(member("id", json_quote(concat3(t, "--", n.id.as_str()).as_str())));
    if ext {
        ms.push(member("modified", json_quote(timestamp(n.timestamp).as_str())));
    }
    ms.push(member("spec_version", json_quote("2.1")));
    ms.push(member("type", json_quote(t)));
    ms.push(member("value", json_quote(n.value.as_str())));
    ms.push(member("x_linkscope_attributes", attributes_json(n)));
    ms.push(member("x_linkscope_confidence", json_quote(confidence_name(n.confidence))));
    ms.push(member("x_linkscope_kind", json_quote(n.kind.as_str())));
    ms.push(member("x_linkscope_sources", sources_json(n)));
    assert(member_views(ms@) =~= stix_node_members(n@));
    object_json(&ms)
}

/// The MISP attribute of `n`.
pub fn misp_node(n: &Node) -> (r: String)
    ensures
        r@ == object_text(misp_node_members(n@)),
{
    let k = misp_kind(n.kind.as_str());
    let mut ms: Vec<(String, String)> = Vec::new();
    ms.push(member("category", json_quote(k.1)));
    ms.push(member("comment", json_quote(attributes_json(n).as_str())));
    ms.push(member("timestamp", json_quote(decimal(n.timestamp).as_str())));
    ms.push(member("to_ids", "false".to_owned()));
    ms.push(member("type", json_quote(k.0)));
    ms.push(member("uuid", json_quote(n.id.as_str())));
    ms.push(member("value", json_quote(n.value.as_str())));
    assert(member_views(ms@) =~= misp_node_members(n@));
    object_json(&ms)
}

/// The STIX relationship of `e` from `source` to `target`.
pub fn stix_edge(e: &Edge, source: &Node, target: &Node) -> (r: String)
    requires
        writable_time(e.timestamp),
    ensures
        r@ == object_text(stix_edge_members(e@, source@, target@)),
{
    let mut ms: Vec<(String, String)> = Vec::new();
    ms.push(member("created", json_quote(timestamp(e.timestamp).as_str())));
    ms.push(member("id", json_quote(concat3("relationship--", e.id.as_str(), "").as_str())));
    ms.push(member("modified", json_quote(timestamp(e.timestamp).as_str())));
    ms.push(member("relationship_type", json_quote("related-to")));
    ms.push(member("source_ref", json_quote(concat3(stix_type(source), "--", source.id.as_str()).as_str())));
    ms.push(member("spec_version", json_quote("2.1")));
    ms.push(member("target_ref", json_quote(concat3(stix_type(target), "--", target.id.as_str()).as_str())));
    ms.push(member("type", json_quote("relationship")));
    ms.push(member("x_linkscope_provenance", json_quote(e.provenance.as_str())));
    ms.push(member("x_linkscope_relation", json_quote(e.relation.as_str())));
    proof {
        reveal_strlit("");
        assert("relationship--"@ + e@.id + ""@ =~= "relationship--"@ + e@.id);
    }
    assert(member_views(ms@) =~= stix_edge_members(e@, source@, target@));
    object_json(&ms)
}

/// What an export opens with; `bundle` identifies a STIX bundle or a MISP
/// event.
pub open spec fn header_text(f: ExportFormat, bundle: Seq<char>) -> Seq<char> {
    match f {
        ExportFormat::Json => "{\"version\":1,\"nodes\":["@,
        ExportFormat::Graphml => "<?xml version=\"1.0\" encoding=\"UTF-8\"?><graphml xmlns=\"http://graphml.graphdrawing.org/xmlns\"><key id=\"payload\" for=\"all\" attr.name=\"payload\" attr.type=\"string\"/><graph id=\"investigation\" edgedefault=\"directed\">"@,
        ExportFormat::Stix => "{\"type\":\"bundle\",\"id\":\"bundle--"@ + bundle + "\",\"objects\":["@,
        ExportFormat::Misp => "{\"Event\":{\"uuid\":\""@ + bundle
            + "\",\"info\":\"LinkScope local export\",\"distribution\":\"0\",\"analysis\":\"0\",\"threat_level_id\":\"4\",\"published\":false,\"Attribute\":["@,
    }
}

/// What an export closes with.
pub open spec fn footer_text(f: ExportFormat) -> Seq<char> {
    match f {
        ExportFormat::Json => "]}"@,
        ExportFormat::Graphml => "</graph></graphml>"@,
        ExportFormat::Stix => "]}"@,
        ExportFormat::Misp => "]}}"@,
    }
}

/// What stands between the entities and the relationships.
pub open spec fn middle_text(f: ExportFormat) -> Seq<char> {
    match f {
        ExportFormat::Json => "],\"edges\":["@,
        ExportFormat::Misp => "],\"x_linkscope_edges\":["@,
        _ => seq![],
    }
}

/// The comma before every record of a JSON list but the first.
pub open spec fn separator(first: bool) -> Seq<char> {
    if first { seq![] } else { seq![','] }
}

/// The GraphML element of an entity with its JSON encoding as payload.
pub open spec fn graphml_node_text(id: Seq<char>, payload: Seq<char>) -> Seq<char> {
    "<node id=\""@ + xml_spec(id) + "\"><data key=\"payload\">"@ + xml_spec(payload) + "</data></node>"@
}

/// The GraphML element of a relationship with its JSON encoding as payload.
pub open spec fn graphml_edge_text(e: EdgeView, payload: Seq<char>) -> Seq<char> {
    "<edge id=\""@ + xml_spec(e.id) + "\" source=\""@ + xml_spec(e.source) + "\" target=\""@ + xml_spec(e.target)
        + "\"><data key=\"payload\">"@ + xml_spec(payload) + "</data></edge>"@
}

/// What an entity adds to an export; `payload` is its JSON encoding.
pub open spec fn node_text(f: ExportFormat, first: bool, n: NodeView, payload: Seq<char>) -> Seq<char> {
    match f {
        ExportFormat::Json => separator(first) + payload,
        ExportFormat::Graphml => graphml_node_text(n.id, payload),
        ExportFormat::Stix => separator(first) + object_text(stix_node_members(n)),
        ExportFormat::Misp => separator(first) + object_text(misp_node_members(n)),
    }
}

/// What a relationship adds to an export, given the entities it links (a
/// STIX relationship names both); `payload` is its JSON encoding.
pub open spec fn edge_text(
    f: ExportFormat,
    first: bool,
    e: EdgeView,
    payload: Seq<char>,
    source: Option<NodeView>,
    target: Option<NodeView>,
) -> Result<Seq<char>, ExportError> {
    match f {
        ExportFormat::Json => Ok(separator(first) + payload),
        ExportFormat::Graphml => Ok(graphml_edge_text(e, payload)),
        ExportFormat::Stix => match (source, target) {
            (None, _) => Err(ExportError::MissingSource),
            (Some(_), None) => Err(ExportError::MissingTarget),
            (Some(s), Some(t)) => Ok(separator(first) + object_text(stix_edge_members(e, s, t))),
        },
        ExportFormat::Misp => Ok(separator(first) + payload),
    }
}

/// An export being written: its format, and whether the current JSON list
/// is still empty.
pub struct Exporter {
    format: ExportFormat,
    first: bool,
}

/// The state of an export being written.
pub struct ExporterView {
    pub format: ExportFormat,
    pub first: bool,
}

impl View for Exporter {
    type V = ExporterView;

    closed spec fn view(&self) -> ExporterView {
        ExporterView { format: self.format, first: self.first }
    }
}

fn graphml_node(id: &str, payload: &str) -> (r: String)
    ensures
        r@ == graphml_node_text(id@, payload@),
{
    let mut r = "<node id=\"".to_owned();
    r.append(xml(id).as_str());
    r.append("\"><data key=\"payload\">");
    r.append(xml(payload).as_str());
    r.append("</data></node>");
    r
}

fn graphml_edge(e: &Edge, payload: &str) -> (r: String)
    ensures
        r@ == graphml_edge_text(e@, payload@),
{
    let mut r = "<edge id=\"".to_owned();
    r.append(xml(e.id.as_str()).as_str());
    r.append("\" source=\"");
    r.append(xml(e.source.as_str()).as_str());
    r.append("\" target=\"");
    r.append(xml(e.target.as_str()).as_str());
    r.append("\"><data key=\"payload\">");
    r.append(xml(payload).as_str());
    r.append("</data></edge>");
    r
}

fn separated(first: bool, body: String) -> (r: String)
    ensures
        r@ == separator(first) + body@,
{
    if first {
        proof {
            assert(separator(first) + body@ =~= body@);
        }
        body
    } else {
        let mut r = ",".to_owned();
        r.append(body.as_str());
        proof {
            reveal_strlit(",");
            assert(r@ =~= separator(first) + body@);
        }
        r
    }
}

impl Exporter {
    /// An export to `format` and its opening text, `bundle` identifying the
    /// STIX bundle or the MISP event.
    pub fn start(format: ExportFormat, bundle: &str) -> (r: (Exporter, String))
        ensures
            r.0@ == (ExporterView { format, first: true }),
            r.1@ == header_text(format, bundle@),
    {
        let head = match format {
            ExportFormat::Json => "{\"version\":1,\"nodes\":[".to_owned(),
            ExportFormat::Graphml => "<?xml version=\"1.0\" encoding=\"UTF-8\"?><graphml xmlns=\"http://graphml.graphdrawing.org/xmlns\"><key id=\"payload\" for=\"all\" attr.name=\"payload\" attr.type=\"string\"/><graph id=\"investigation\" edgedefault=\"directed\">".to_owned(),
            ExportFormat::Stix => concat3("{\"type\":\"bundle\",\"id\":\"bundle--", bundle, "\",\"objects\":["),
            ExportFormat::Misp => concat3("{\"Event\":{\"uuid\":\"", bundle,
                "\",\"info\":\"LinkScope local export\",\"distribution\":\"0\",\"analysis\":\"0\",\"threat_level_id\":\"4\",\"published\":false,\"Attribute\":["),
        };
        (Exporter { format, first: true }, head)
    }

    /// An export to the format named `name`, with a fresh random identifier
    /// for the bundle or event; refused for an unknown format.
    pub fn begin(name: &str) -> (r: Result<(Exporter, String), ExportError>)
        ensures
            match format_named(name@) {
                None => r == Err::<(Exporter, String), ExportError>(ExportError::UnsupportedFormat),
                Some(f) => r is Ok && r->Ok_0.0@ == (ExporterView { format: f, first: true })
                    && exists|u: Seq<char>| is_hyphenated_uuid(u) && r->Ok_0.1@ == #[trigger] header_text(f, u),
            },
    {
        let format = match export_format(name) {
            Ok(f) => f,
            Err(e) => return Err(e),
        };
        let bundle = uuid_v4_text();
        let r = Exporter::start(format, bundle.as_str());
        assert(is_hyphenated_uuid(bundle@) && r.1@ == header_text(format, bundle@));
        Ok(r)
    }

    /// The text of entity `n`, whose JSON encoding is `payload`.
    pub fn node(&mut self, n: &Node, payload: &str) -> (r: String)
        requires
            old(self)@.format == ExportFormat::Stix && has_prefix(stix_type_spec(n@.kind, n@.value), "x-"@)
                ==> writable_time(n.timestamp),
        ensures
            r@ == node_text(old(self)@.format, old(self)@.first, n@, payload@),
            final(self)@.format == old(self)@.format,
            final(self)@.first == (old(self)@.format == ExportFormat::Graphml && old(self)@.first),
    {
        let r = match self.format {
            ExportFormat::Json => separated(self.first, payload.to_owned()),
            ExportFormat::Graphml => graphml_node(n.id.as_str(), payload),
            ExportFormat::Stix => separated(self.first, stix_node(n)),
            ExportFormat::Misp => separated(self.first, misp_node(n)),
        };
        if self.format != ExportFormat::Graphml {
            self.first = false;
        }
        r
    }

    /// The text between the entities and the relationships.
    pub fn between(&mut self) -> (r: String)
        ensures
            r@ == middle_text(old(self)@.format),
            final(self)@.format == old(self)@.format,
            final(self)@.first == match old(self)@.format {
                ExportFormat::Json | ExportFormat::Misp => true,
                _ => old(self)@.first,
            },
    {
        match self.format {
            ExportFormat::Json => {
                self.first = true;
                "],\"edges\":[".to_owned()
            },
            ExportFormat::Misp => {
                self.first = true;
                "],\"x_linkscope_edges\":[".to_owned()
            },
            _ => String::new(),
        }
    }

    /// The text of relationship `e`, whose JSON encoding is `payload`, given
    /// the stored entities at its ends; refused in STIX when either is
    /// missing.
    pub fn edge(&mut self, e: &Edge, payload: &str, source: Option<&Node>, target: Option<&Node>) -> (r: Result<String, ExportError>)
        requires
            old(self)@.format == ExportFormat::Stix ==> writable_time(e.timestamp),
        ensures
            match edge_text(old(self)@.format, old(self)@.first, e@, payload@,
                match source { Some(s) => Some(s@), None => None },
                match target { Some(t) => Some(t@), None => None }) {
                Ok(t) => r is Ok && r->Ok_0@ == t
                    && final(self)@.first == (old(self)@.format == ExportFormat::Graphml && old(self)@.first),
                Err(x) => r == Err::<String, ExportError>(x) && final(self)@.first == old(self)@.first,
            },
            final(self)@.format == old(self)@.format,
    {
        let r = match self.format {
            ExportFormat::Json => separated(self.first, payload.to_owned()),
            ExportFormat::Graphml => graphml_edge(e, payload),
            ExportFormat::Stix => {
                let s = match source {
                    Some(s) => s,
                    None => return Err(ExportError::MissingSource),
                };
                let t = match target {
                    Some(t) => t,
                    None => return Err(ExportError::MissingTarget),
                };
                separated(self.first, stix_edge(e, s, t))
            },
            ExportFormat::Misp => separated(self.first, payload.to_owned()),
        };
        if self.format != ExportFormat::Graphml {
            self.first = false;
        }
        Ok(r)
    }

    /// What the export closes with.
    pub fn finish(&self) -> (r: String)
        ensures
            r@ == footer_text(self@.format),
    {
        match self.format {
            ExportFormat::Json => "]}".to_owned(),
            ExportFormat::Graphml => "</graph></graphml>".to_owned(),
            ExportFormat::Stix => "]}".to_owned(),
            ExportFormat::Misp => "]}}".to_owned(),
        }
    }
}

/// The verdict on an import of `byte_len` bytes, `parsed` being the batch it
/// holds (`None` when it is no batch in JSON): refused over 2 MiB, when it
/// is no batch, and when the batch fails its check.
pub open spec fn import_spec(byte_len: nat, parsed: Option<crate::model::BatchView>, encoded_len: nat, node_lens: Seq<usize>) -> Result<(), ExportError> {
    if byte_len > 2 * 1024 * 1024 {
        Err(ExportError::ImportTooLarge)
    } else {
        match parsed {
            None => Err(ExportError::InvalidImport),
            Some(b) => match batch_check(b, encoded_len, node_lens) {
                Err(e) => Err(ExportError::Batch(e)),
                Ok(()) => Ok(()),
            },
        }
    }
}

/// Whether an import of `byte_len` bytes is read at all: refused over 2 MiB.
pub fn check_import_size(byte_len: usize) -> (r: Result<(), ExportError>)
    ensures
        r == if byte_len > 2 * 1024 * 1024 { Err::<(), ExportError>(ExportError::ImportTooLarge) } else { Ok(()) },
{
    if byte_len > 2 * 1024 * 1024 {
        Err(ExportError::ImportTooLarge)
    } else {
        Ok(())
    }
}

/// The batch of an import of `byte_len` bytes, as `import_spec` decides;
/// `encoded_len` and `node_lens` are the lengths of the JSON encodings of
/// the parsed batch and of its nodes.
pub fn import_json(byte_len: usize, parsed: Option<Batch>, encoded_len: usize, node_lens: &Vec<usize>) -> (r: Result<Batch, ExportError>)
    requires
        parsed is Some ==> node_lens.len() == parsed->Some_0.nodes.len(),
    ensures
        match import_spec(byte_len as nat, match parsed { Some(b) => Some(b@), None => None }, encoded_len as nat, node_lens@) {
            Ok(()) => r is Ok && r->Ok_0@ == parsed->Some_0@,
            Err(e) => r is Err && r->Err_0 == e,
        },
{
    if let Err(e) = check_import_size(byte_len) {
        return Err(e);
    }
    match parsed {
        None => Err(ExportError::InvalidImport),
        Some(b) => match b.validate(encoded_len, node_lens) {
            Ok(()) => Ok(b),
            Err(e) => Err(ExportError::Batch(e)),
        },
    }
}

/// Escaped text holds no markup: no `<`, `>`, `"` or `'`, and no control
/// character but tab, line feed and carriage return.
pub proof fn law_xml_inert(s: Seq<char>)
    ensures
        forall|i: int| 0 <= i < xml_spec(s).len() ==> {
            let c = #[trigger] xml_spec(s)[i];
            &&& c != '<' && c != '>' && c != '"' && c != '\''
            &&& (c == '\n' || c == '\r' || c == '\t' || c >= ' ')
        },
    decreases s.len(),
{
    if s.len() > 0 {
        law_xml_inert(s.drop_last());
        let a = xml_spec(s.drop_last());
        let b = xml_char(s.last());
        assert(xml_spec(s) == a + b);
        assert forall|i: int| 0 <= i < xml_spec(s).len() implies {
            let c = #[trigger] xml_spec(s)[i];
            &&& c != '<' && c != '>' && c != '"' && c != '\''
            &&& (c == '\n' || c == '\r' || c == '\t' || c >= ' ')
        } by {
            if i < a.len() {
                assert(xml_spec(s)[i] == a[i]);
            } else {
                assert(xml_spec(s)[i] == b[i - a.len()]);
            }
        }
    }
}

} // verus!
