//! Transforms: declarative HTTP sources that turn an entity into the URL of a
//! request, and the response into new entities and relationships.

use vstd::prelude::*;
use crate::model::model_message;
use crate::codec::{UrlFacts, UrlParts, UrlRefusal, url_refusal_message, form_encode, form_encoded, parse_url, url_parse};
use crate::model::{Batch, BatchView, Edge, EdgeView, ModelError, Node, NodeView, batch_check, fresh_edge, fresh_node, lemma_push_to_set, node_check, texts};
use crate::json::{Json, field, items, lookup, pointer_spec, split_on, split_spec, text_of};
use crate::model::{TextPair, text_pairs};
use crate::network::{answer, decides, lemma_answer};
use crate::text::{chars_of, replace, replace_spec, same_text, string_from, trim_start_str, trim_start_str_spec};

verus! {

/// A transform's declaration: identity and display name, the kind of
/// entity it takes, its group, the endpoint template (with `{value}`), the
/// host the endpoint must stay on, the response parser, a JSON pointer and
/// output kind for the `pointer` parser, and the cache lifetime in seconds.
pub struct Manifest {
    pub id: String,
    pub name: String,
    pub input: String,
    pub group: String,
    pub endpoint: String,
    pub host: String,
    pub parser: String,
    pub pointer: String,
    pub output_kind: String,
    pub ttl: i64,
}

/// The mathematical value of a manifest.
pub struct ManifestView {
    pub id: Seq<char>,
    pub name: Seq<char>,
    pub input: Seq<char>,
    pub group: Seq<char>,
    pub endpoint: Seq<char>,
    pub host: Seq<char>,
    pub parser: Seq<char>,
    pub pointer: Seq<char>,
    pub output_kind: Seq<char>,
    pub ttl: i64,
}

impl View for Manifest {
    type V = ManifestView;

    open spec fn view(&self) -> ManifestView {
        ManifestView {
            id: self.id@,
            name: self.name@,
            input: self.input@,
            group: self.group@,
            endpoint: self.endpoint@,
            host: self.host@,
            parser: self.parser@,
            pointer: self.pointer@,
            output_kind: self.output_kind@,
            ttl: self.ttl,
        }
    }
}

impl Manifest {
    /// A copy of this manifest.
    pub fn duplicate(&self) -> (r: Manifest)
        ensures
            r@ == self@,
    {
        Manifest {
            id: self.id.clone(),
            name: self.name.clone(),
            input: self.input.clone(),
            group: self.group.clone(),
            endpoint: self.endpoint.clone(),
            host: self.host.clone(),
            parser: self.parser.clone(),
            pointer: self.pointer.clone(),
            output_kind: self.output_kind.clone(),
            ttl: self.ttl,
        }
    }
}

/// The cache lifetime a manifest gets when it names none: one hour.
pub fn default_ttl() -> (t: i64)
    ensures
        t == 3600,
{
    3600
}

/// A transform run over HTTP as its manifest declares.
pub struct HttpTransform(pub Manifest);

impl HttpTransform {
    /// The declaration of this transform.
    pub fn manifest(&self) -> (m: &Manifest)
        ensures
            m == &self.0,
    {
        &self.0
    }
}

/// A transform compiled into the application, registered by its manifest.
pub struct Registration(pub Manifest);

/// The manifest of a built-in transform: in the `data` group, without
/// pointer or output kind, cached for an hour.
pub open spec fn builtin_spec(
    id: Seq<char>,
    name: Seq<char>,
    input: Seq<char>,
    endpoint: Seq<char>,
    host: Seq<char>,
    parser: Seq<char>,
) -> ManifestView {
    ManifestView {
        id,
        name,
        input,
        group: "data"@,
        endpoint,
        host,
        parser,
        pointer: seq![],
        output_kind: seq![],
        ttl: 3600,
    }
}

fn builtin(id: &str, name: &str, input: &str, endpoint: &str, host: &str, parser: &str) -> (m: Manifest)
    ensures
        m@ == builtin_spec(id@, name@, input@, endpoint@, host@, parser@),
{
    let m = Manifest {
        id: id.to_owned(),
        name: name.to_owned(),
        input: input.to_owned(),
        group: "data".to_owned(),
        endpoint: endpoint.to_owned(),
        host: host.to_owned(),
        parser: parser.to_owned(),
        pointer: String::new(),
        output_kind: String::new(),
        ttl: 3600,
    };
    assert(m@.pointer =~= Seq::<char>::empty());
    assert(m@.output_kind =~= Seq::<char>::empty());
    m
}

/// The built-in transforms, in order.
pub open spec fn builtin_table() -> Seq<ManifestView> {
    seq![
        builtin_spec("cloudflare"@, "Cloudflare · DNS A"@, "domain"@, "https://cloudflare-dns.com/dns-query?name={value}&type=A"@, "cloudflare-dns.com"@, "doh"@),
        builtin_spec("google"@, "Google · DNS A"@, "domain"@, "https://dns.google/resolve?name={value}&type=A"@, "dns.google"@, "doh"@),
        builtin_spec("crtsh"@, "Certificate Transparency"@, "domain"@, "https://crt.sh/?q=%25.{value}&output=json"@, "crt.sh"@, "crt"@),
        builtin_spec("certspotter"@, "Cert Spotter"@, "domain"@, "https://api.certspotter.com/v1/issuances?domain={value}&include_subdomains=true&expand=dns_names"@, "api.certspotter.com"@, "certspotter"@),
        builtin_spec("internetdb"@, "Shodan InternetDB"@, "ip"@, "https://internetdb.shodan.io/{value}"@, "internetdb.shodan.io"@, "internetdb"@),
        builtin_spec("urlscan"@, "urlscan · passive search"@, "domain"@, "https://urlscan.io/api/v1/search/?q=domain:{value}&size=100"@, "urlscan.io"@, "urlscan"@),
        builtin_spec("wayback"@, "Wayback CDX"@, "domain"@, "https://web.archive.org/cdx/search/cdx?url={value}%2F*&output=json&fl=original&collapse=urlkey&limit=100"@, "web.archive.org"@, "cdx"@),
        builtin_spec("rdap"@, "RDAP · .com domains"@, "domain"@, "https://rdap.verisign.com/com/v1/domain/{value}"@, "rdap.verisign.com"@, "attributes"@),
        builtin_spec("github"@, "GitHub · public profile"@, "username"@, "https://api.github.com/users/{value}"@, "api.github.com"@, "attributes"@),
        builtin_spec("hackernews"@, "Hacker News · user"@, "username"@, "https://hacker-news.firebaseio.com/v0/user/{value}.json"@, "hacker-news.firebaseio.com"@, "attributes"@),
        builtin_spec("keybase"@, "Keybase · public lookup"@, "username"@, "https://keybase.io/_/api/1.0/user/lookup.json?usernames={value}"@, "keybase.io"@, "attributes"@),
    ]
}

/// The built-in transforms: DNS over HTTPS (Cloudflare, Google),
/// certificate transparency (crt.sh, Cert Spotter), Shodan InternetDB,
/// urlscan, the Wayback CDX, RDAP, and the public GitHub, Hacker News and
/// Keybase profiles.
pub fn builtins() -> (r: Vec<Registration>)
    ensures
        r@.map_values(|g: Registration| g.0@) == builtin_table(),
{
    let mut r: Vec<Registration> = Vec::new();
    r.push(Registration(builtin("cloudflare", "Cloudflare · DNS A", "domain", "https://cloudflare-dns.com/dns-query?name={value}&type=A", "cloudflare-dns.com", "doh")));
    r.push(Registration(builtin("google", "Google · DNS A", "domain", "https://dns.google/resolve?name={value}&type=A", "dns.google", "doh")));
    r.push(Registration(builtin("crtsh", "Certificate Transparency", "domain", "https://crt.sh/?q=%25.{value}&output=json", "crt.sh", "crt")));
    r.push(Registration(builtin("certspotter", "Cert Spotter", "domain", "https://api.certspotter.com/v1/issuances?domain={value}&include_subdomains=true&expand=dns_names", "api.certspotter.com", "certspotter")));
    r.push(Registration(builtin("internetdb", "Shodan InternetDB", "ip", "https://internetdb.shodan.io/{value}", "internetdb.shodan.io", "internetdb")));
    r.push(Registration(builtin("urlscan", "urlscan · passive search", "domain", "https://urlscan.io/api/v1/search/?q=domain:{value}&size=100", "urlscan.io", "urlscan")));
    r.push(Registration(builtin("wayback", "Wayback CDX", "domain", "https://web.archive.org/cdx/search/cdx?url={value}%2F*&output=json&fl=original&collapse=urlkey&limit=100", "web.archive.org", "cdx")));
    r.push(Registration(builtin("rdap", "RDAP · .com domains", "domain", "https://rdap.verisign.com/com/v1/domain/{value}", "rdap.verisign.com", "attributes")));
    r.push(Registration(builtin("github", "GitHub · public profile", "username", "https://api.github.com/users/{value}", "api.github.com", "attributes")));
    r.push(Registration(builtin("hackernews", "Hacker News · user", "username", "https://hacker-news.firebaseio.com/v0/user/{value}.json", "hacker-news.firebaseio.com", "attributes")));
    r.push(Registration(builtin("keybase", "Keybase · public lookup", "username", "https://keybase.io/_/api/1.0/user/lookup.json?usernames={value}", "keybase.io", "attributes")));
    assert(r@.map_values(|g: Registration| g.0@) =~= builtin_table());
    r
}

/// Why a transform, a manifest or a response is refused.
#[derive(Clone, Copy, Debug, PartialEq, Eq, Structural)]
pub enum TransformError {
    InputKindMismatch,
    InvalidUrl(UrlRefusal),
    EscapedHost,
    InvalidPluginId,
    InvalidPluginHost,
    UnsupportedParser,
    UnknownParser,
    AttributesTooLarge,
    Batch(crate::model::ModelError),
}

/// The message shown for a refusal.
pub open spec fn transform_message(e: TransformError) -> Seq<char> {
    match e {
        TransformError::InputKindMismatch => "transform input kind mismatch"@,
        TransformError::InvalidUrl(e) => url_refusal_message(e),
        TransformError::EscapedHost => "plugin endpoint escaped its declared host"@,
        TransformError::InvalidPluginId => "invalid or duplicate plugin id"@,
        TransformError::InvalidPluginHost => "invalid plugin host"@,
        TransformError::UnsupportedParser => "unsupported parser"@,
        TransformError::UnknownParser => "unknown parser"@,
        TransformError::AttributesTooLarge => "attribute response exceeds retained payload limit"@,
        TransformError::Batch(e) => model_message(e),
    }
}

impl TransformError {
    /// The message shown for this refusal.
    pub fn message(&self) -> (m: &'static str)
        ensures
            m@ == transform_message(*self),
    {
        match self {
            TransformError::InputKindMismatch => "transform input kind mismatch",
            TransformError::InvalidUrl(e) => e.message(),
            TransformError::EscapedHost => "plugin endpoint escaped its declared host",
            TransformError::InvalidPluginId => "invalid or duplicate plugin id",
            TransformError::InvalidPluginHost => "invalid plugin host",
            TransformError::UnsupportedParser => "unsupported parser",
            TransformError::UnknownParser => "unknown parser",
            TransformError::AttributesTooLarge => "attribute response exceeds retained payload limit",
            TransformError::Batch(e) => e.message(),
        }
    }
}

/// The response parsers a manifest may name.
pub open spec fn known_parser(p: Seq<char>) -> bool {
    ||| p == "doh"@
    ||| p == "crt"@
    ||| p == "certspotter"@
    ||| p == "internetdb"@
    ||| p == "urlscan"@
    ||| p == "cdx"@
    ||| p == "pointer"@
    ||| p == "attributes"@
}

/// Whether `p` names a response parser.
pub fn is_known_parser(p: &str) -> (r: bool)
    ensures
        r == known_parser(p@),
{
    same_text(p, "doh") || same_text(p, "crt") || same_text(p, "certspotter") || same_text(p, "internetdb")
        || same_text(p, "urlscan") || same_text(p, "cdx") || same_text(p, "pointer") || same_text(p, "attributes")
}

/// The verdict on one manifest, given the identifiers accepted before it:
/// a fresh identifier of 1 to 64 bytes; an endpoint that, with
/// `example.org` for `{value}`, parses as a credential-free HTTPS URL on the
/// declared host; a known parser.
pub open spec fn manifest_check(m: ManifestView, seen: Set<Seq<char>>) -> Result<(), TransformError> {
    if seen.contains(m.id) || crate::model::utf8_len(m.id) > 64 || m.id.len() == 0 {
        Err(TransformError::InvalidPluginId)
    } else {
        match url_parse(replace_spec(m.endpoint, "{value}"@, "example.org"@)) {
            Err(e) => Err(TransformError::InvalidUrl(e)),
            Ok(p) => if p.0 != "https"@ || p.1 != Some(m.host) || p.2.len() != 0 || p.3 is Some {
                Err(TransformError::InvalidPluginHost)
            } else if !known_parser(m.parser) {
                Err(TransformError::UnsupportedParser)
            } else {
                Ok(())
            },
        }
    }
}

/// The verdict on manifests taken in order, the first refusal winning.
pub open spec fn manifests_check(ms: Seq<ManifestView>, seen: Set<Seq<char>>) -> Result<(), TransformError>
    decreases ms.len(),
{
    if ms.len() == 0 {
        Ok(())
    } else {
        match manifest_check(ms[0], seen) {
            Err(e) => Err(e),
            Ok(()) => manifests_check(ms.drop_first(), seen.insert(ms[0].id)),
        }
    }
}

/// Whether `id` is among the identifiers of the first `n` manifests.
fn seen_before(ms: &Vec<Manifest>, n: usize, id: &str) -> (r: bool)
    requires
        n <= ms.len(),
    ensures
        r == ms@.take(n as int).map_values(|m: Manifest| m@.id).to_set().contains(id@),
{
    let ghost ids = ms@.take(n as int).map_values(|m: Manifest| m@.id);
    let mut k: usize = 0;
    while k < n
        invariant
            n <= ms.len(),
            ids == ms@.take(n as int).map_values(|m: Manifest| m@.id),
            k <= n,
            forall|j: int| 0 <= j < k ==> #[trigger] ids[j] != id@,
        decreases n - k,
    {
        if same_text(ms[k].id.as_str(), id) {
            assert(ids[k as int] == id@);
            assert(ids.to_set().contains(id@));
            return true;
        }
        k = k + 1;
    }
    assert(!ids.to_set().contains(id@)) by {
        if ids.to_set().contains(id@) {
            let j = choose|j: int| 0 <= j < ids.len() && ids[j] == id@;
            assert(ids[j] != id@);
        }
    }
    false
}

/// Accepts the manifests as transforms when every one passes
/// `manifest_check` against those before it; else the first refusal.
pub fn validate_manifests(manifests: Vec<Manifest>) -> (r: Result<Vec<HttpTransform>, TransformError>)
    ensures
        match manifests_check(manifests@.map_values(|m: Manifest| m@), Set::empty()) {
            Ok(()) => r is Ok && r->Ok_0@.map_values(|t: HttpTransform| t.0@) == manifests@.map_values(|m: Manifest| m@),
            Err(e) => r == Err::<Vec<HttpTransform>, TransformError>(e),
        },
{
    let ghost mv = manifests@.map_values(|m: Manifest| m@);
    let mut out: Vec<HttpTransform> = Vec::new();
    let mut i: usize = 0;
    assert(mv.skip(0) =~= mv);
    assert(manifests@.take(0).map_values(|m: Manifest| m@.id).to_set() =~= Set::<Seq<char>>::empty());
    while i < manifests.len()
        invariant
            mv == manifests@.map_values(|m: Manifest| m@),
            i <= manifests.len(),
            manifests_check(mv, Set::empty())
                == manifests_check(mv.skip(i as int), manifests@.take(i as int).map_values(|m: Manifest| m@.id).to_set()),
            out@.map_values(|t: HttpTransform| t.0@) == mv.take(i as int),
        decreases manifests.len() - i,
    {
        let m = &manifests[i];
        let ghost seen = manifests@.take(i as int).map_values(|m: Manifest| m@.id).to_set();
        assert(mv.skip(i as int)[0] == m@);
        assert(mv.skip(i as int).drop_first() =~= mv.skip(i + 1));
        assert(manifests@.take(i + 1).map_values(|m: Manifest| m@.id) =~= manifests@.take(i as int).map_values(|m: Manifest| m@.id).push(m@.id));
        proof {
            crate::model::lemma_push_to_set(manifests@.take(i as int).map_values(|m: Manifest| m@.id), m@.id);
        }
        if seen_before(&manifests, i, m.id.as_str()) || m.id.as_str().len() > 64 || m.id.as_str().is_empty() {
            return Err(TransformError::InvalidPluginId);
        }
        proof {
            reveal_strlit("{value}");
        }
        let endpoint = replace(m.endpoint.as_str(), "{value}", "example.org");
        let facts = match parse_url(endpoint.as_str()) {
            Ok(f) => f,
            Err(e) => {
                return Err(TransformError::InvalidUrl(e));
            },
        };
        let host_ok = match &facts.host {
            Some(h) => same_text(h.as_str(), m.host.as_str()),
            None => false,
        };
        if !same_text(facts.scheme.as_str(), "https") || !host_ok || !facts.username.as_str().is_empty()
            || facts.password.is_some() {
            return Err(TransformError::InvalidPluginHost);
        }
        if !is_known_parser(m.parser.as_str()) {
            return Err(TransformError::UnsupportedParser);
        }
        let ghost before = out@.map_values(|t: HttpTransform| t.0@);
        out.push(HttpTransform(m.duplicate()));
        assert(out@.map_values(|t: HttpTransform| t.0@) =~= before.push(m@));
        assert(mv.take(i + 1) =~= mv.take(i as int).push(m@));
        i = i + 1;
    }
    assert(mv.take(i as int) =~= mv);
    Ok(out)
}

/// The URL a transform requests for `input`: its endpoint with the
/// form-encoded value for `{value}`, which must parse and stay on the
/// declared host; refused when the input is not of the transform's kind.
pub open spec fn request_spec(m: ManifestView, input: NodeView) -> Result<UrlParts, TransformError> {
    if input.kind != m.input {
        Err(TransformError::InputKindMismatch)
    } else {
        match url_parse(replace_spec(m.endpoint, "{value}"@, form_encoded(input.value))) {
            Err(e) => Err(TransformError::InvalidUrl(e)),
            Ok(p) => if p.1 != Some(m.host) {
                Err(TransformError::EscapedHost)
            } else {
                Ok(p)
            },
        }
    }
}

impl HttpTransform {
    /// The URL to request for `input` (see `request_spec`).
    pub fn request(&self, input: &Node) -> (r: Result<UrlFacts, TransformError>)
        ensures
            match request_spec(self.0@, input@) {
                Ok(p) => r is Ok && r->Ok_0@ == p,
                Err(e) => r == Err::<UrlFacts, TransformError>(e),
            },
    {
        let m = &self.0;
        if !same_text(input.kind.as_str(), m.input.as_str()) {
            return Err(TransformError::InputKindMismatch);
        }
        let encoded = form_encode(input.value.as_str());
        proof {
            reveal_strlit("{value}");
        }
        let endpoint = replace(m.endpoint.as_str(), "{value}", encoded.as_str());
        let facts = match parse_url(endpoint.as_str()) {
            Ok(f) => f,
            Err(e) => {
                return Err(TransformError::InvalidUrl(e));
            },
        };
        let on_host = match &facts.host {
            Some(h) => same_text(h.as_str(), m.host.as_str()),
            None => false,
        };
        if !on_host {
            return Err(TransformError::EscapedHost);
        }
        Ok(facts)
    }
}

/// `line` without one trailing carriage return.
pub open spec fn strip_cr(line: Seq<char>) -> Seq<char> {
    if line.len() > 0 && line.last() == '\r' {
        line.drop_last()
    } else {
        line
    }
}

/// The lines of `s` as `str::lines` gives them: split at `\n`, a `\r`
/// directly before a `\n` removed, no empty line after a final `\n`.
pub open spec fn lines_spec(s: Seq<char>) -> Seq<Seq<char>> {
    let p = split_spec(s, '\n');
    p.drop_last().map_values(|l: Seq<char>| strip_cr(l)) + if p.last().len() > 0 { seq![p.last()] } else { seq![] }
}

/// The lines of `s`.
pub fn lines_of(s: &str) -> (r: Vec<String>)
    ensures
        r@.map_values(|t: String| t@) == lines_spec(s@),
{
    let pieces = split_on(s, '\n');
    let ghost p = split_spec(s@, '\n');
    proof {
        crate::json::lemma_split_nonempty(s@, '\n', Seq::empty());
    }
    assert(pieces@.len() == p.len());
    let mut out: Vec<String> = Vec::new();
    let mut i: usize = 0;
    while i + 1 < pieces.len()
        invariant
            p == split_spec(s@, '\n'),
            pieces@.map_values(|t: String| t@) == p,
            p.len() >= 1,
            i + 1 <= pieces.len(),
            out@.map_values(|t: String| t@) == p.take(i as int).map_values(|l: Seq<char>| strip_cr(l)),
        decreases pieces.len() - i,
    {
        let v = chars_of(pieces[i].as_str());
        assert(v@ == p[i as int]);
        let keep = if v.len() > 0 && v[v.len() - 1] == '\r' { v.len() - 1 } else { v.len() };
        let mut line: Vec<char> = Vec::new();
        let mut k: usize = 0;
        while k < keep
            invariant
                keep <= v.len(),
                k <= keep,
                line@ == v@.take(k as int),
            decreases keep - k,
        {
            line.push(v[k]);
            assert(v@.take(k + 1) =~= v@.take(k as int).push(v@[k as int]));
            k = k + 1;
        }
        assert(line@ =~= strip_cr(p[i as int]));
        let ghost before = out@.map_values(|t: String| t@);
        out.push(string_from(line.as_slice()));
        assert(out@.map_values(|t: String| t@) =~= before.push(strip_cr(p[i as int])));
        assert(p.take(i + 1).map_values(|l: Seq<char>| strip_cr(l)) =~= p.take(i as int).map_values(|l: Seq<char>| strip_cr(l)).push(strip_cr(p[i as int])));
        i = i + 1;
    }
    assert(p.take(i as int) =~= p.drop_last());
    let last = &pieces[pieces.len() - 1];
    assert(last@ == p.last());
    if !last.as_str().is_empty() {
        let ghost before = out@.map_values(|t: String| t@);
        out.push(last.clone());
        assert(out@.map_values(|t: String| t@) =~= before.push(p.last()));
        assert(before.push(p.last()) =~= before + seq![p.last()]);
    } else {
        assert(out@.map_values(|t: String| t@) =~= out@.map_values(|t: String| t@) + Seq::<Seq<char>>::empty());
    }
    out
}

/// The items of the array found under `key`, or none.
pub(crate) fn array_under<'a>(v: &'a Json, key: &str) -> (r: &'a [Json])
    ensures
        r@ == items(field(*v, key@)),
{
    match v.get(key) {
        Some(Json::Array(a)) => a.as_slice(),
        _ => &[],
    }
}

/// The items of an array value, or none.
fn array_items<'a>(v: &'a Json) -> (r: &'a [Json])
    ensures
        r@ == items(*v),
{
    match v {
        Json::Array(a) => a.as_slice(),
        _ => &[],
    }
}

/// The text of the string found under `key`.
pub(crate) fn text_under(v: &Json, key: &str) -> (r: Option<String>)
    ensures
        match r {
            Some(t) => text_of(field(*v, key@)) == Some(t@),
            None => text_of(field(*v, key@)) is None,
        },
{
    match v.get(key) {
        Some(Json::String(t)) => Some(t.clone()),
        _ => None,
    }
}

/// A pair of texts.
fn pair(a: &str, b: &str) -> (r: (String, String))
    ensures
        r.0@ == a@,
        r.1@ == b@,
{
    (a.to_owned(), b.to_owned())
}

/// Whether the value is the number 1 or 28 (the DNS record types A and AAAA).
pub open spec fn address_type(t: Json) -> bool {
    t == Json::Number(Some(1)) || t == Json::Number(Some(28))
}

/// What one DNS-over-HTTPS answer yields: its address, when the record is
/// of type A or AAAA and its data is a literal IP address.
pub open spec fn doh_one(a: Json, is_ip: spec_fn(Seq<char>) -> bool) -> Seq<TextPair> {
    if address_type(field(a, "type"@)) {
        match text_of(field(a, "data"@)) {
            Some(d) => if is_ip(d) { seq![("ip"@, d)] } else { seq![] },
            None => seq![],
        }
    } else {
        seq![]
    }
}

/// What the answers yield, in order.
pub open spec fn doh_all(answers: Seq<Json>, is_ip: spec_fn(Seq<char>) -> bool) -> Seq<TextPair>
    decreases answers.len(),
{
    if answers.len() == 0 {
        seq![]
    } else {
        doh_one(answers[0], is_ip) + doh_all(answers.drop_first(), is_ip)
    }
}

/// Addresses of a DNS-over-HTTPS JSON response.
fn doh_values<F: Fn(&str) -> bool>(json: &Json, is_ip: &F) -> (r: Vec<(String, String)>)
    requires
        decides(*is_ip),
    ensures
        text_pairs(r@) == doh_all(items(field(*json, "Answer"@)), |t: Seq<char>| answer(*is_ip, t)),
{
    proof {
        reveal_strlit("Answer");
        reveal_strlit("type");
        reveal_strlit("data");
        reveal_strlit("ip");
    }
    let answers = array_under(json, "Answer");
    let ghost ipf = |t: Seq<char>| answer(*is_ip, t);
    let mut out: Vec<(String, String)> = Vec::new();
    let mut i: usize = 0;
    assert(answers@.skip(0) =~= answers@);
    while i < answers.len()
        invariant
            decides(*is_ip),
            ipf == (|t: Seq<char>| answer(*is_ip, t)),
            i <= answers.len(),
            doh_all(answers@, ipf) == text_pairs(out@) + doh_all(answers@.skip(i as int), ipf),
        decreases answers.len() - i,
    {
        let a = &answers[i];
        assert(answers@.skip(i as int)[0] == *a);
        assert(answers@.skip(i as int).drop_first() =~= answers@.skip(i + 1));
        let ghost before = text_pairs(out@);
        let typed = match a.get("type") {
            Some(Json::Number(Some(n))) => *n == 1 || *n == 28,
            _ => false,
        };
        if typed {
            match text_under(a, "data") {
                Some(d) => {
                    let ds = d.as_str();
                    let ok = is_ip(ds);
                    proof {
                        lemma_answer(*is_ip, ds, ok);
                    }
                    if ok {
                        out.push(pair("ip", ds));
                        assert(text_pairs(out@) =~= before + doh_one(*a, ipf));
                    } else {
                        assert(doh_one(*a, ipf) =~= Seq::<TextPair>::empty());
                    }
                },
                None => {
                    assert(doh_one(*a, ipf) =~= Seq::<TextPair>::empty());
                },
            }
        } else {
            assert(doh_one(*a, ipf) =~= Seq::<TextPair>::empty());
        }
        assert(before + (doh_one(*a, ipf) + doh_all(answers@.skip(i + 1), ipf))
            =~= (before + doh_one(*a, ipf)) + doh_all(answers@.skip(i + 1), ipf));
        i = i + 1;
    }
    assert(text_pairs(out@) + Seq::<TextPair>::empty() =~= text_pairs(out@));
    out
}

/// At most the first `n` elements of `s`.
pub open spec fn first_n<A>(s: Seq<A>, n: nat) -> Seq<A> {
    if s.len() <= n { s } else { s.take(n as int) }
}

/// The texts of the string items, in order.
pub open spec fn string_items(xs: Seq<Json>) -> Seq<Seq<char>>
    decreases xs.len(),
{
    if xs.len() == 0 {
        seq![]
    } else {
        (match text_of(xs[0]) {
            Some(t) => seq![t],
            None => seq![],
        }) + string_items(xs.drop_first())
    }
}

/// `t` without leading `*.` wildcards.
pub open spec fn unwild(t: Seq<char>) -> Seq<char> {
    trim_start_str_spec(t, "*."@)
}

/// Each text paired with `kind`, wildcards removed when `strip` holds.
pub open spec fn tagged(kind: Seq<char>, ts: Seq<Seq<char>>, strip: bool) -> Seq<TextPair>
    decreases ts.len(),
{
    if ts.len() == 0 {
        seq![]
    } else {
        seq![(kind, if strip { unwild(ts[0]) } else { ts[0] })] + tagged(kind, ts.drop_first(), strip)
    }
}

proof fn lemma_tagged_push(kind: Seq<char>, ts: Seq<Seq<char>>, t: Seq<char>, strip: bool)
    ensures
        tagged(kind, ts.push(t), strip) == tagged(kind, ts, strip).push((kind, if strip { unwild(t) } else { t })),
    decreases ts.len(),
{
    let x = (kind, if strip { unwild(t) } else { t });
    if ts.len() == 0 {
        assert(ts.push(t).drop_first() =~= Seq::<Seq<char>>::empty());
        assert(ts.push(t)[0] == t);
        assert(tagged(kind, ts.push(t).drop_first(), strip) == Seq::<TextPair>::empty());
        assert(tagged(kind, ts.push(t), strip) == seq![x] + tagged(kind, ts.push(t).drop_first(), strip));
        assert(tagged(kind, ts.push(t), strip) =~= seq![x] + Seq::<TextPair>::empty());
        assert(tagged(kind, ts, strip).push(x) =~= seq![x]);
    } else {
        lemma_tagged_push(kind, ts.drop_first(), t, strip);
        assert(ts.push(t).drop_first() =~= ts.drop_first().push(t));
        assert(ts.push(t)[0] == ts[0]);
        let h = (kind, if strip { unwild(ts[0]) } else { ts[0] });
        assert(tagged(kind, ts.push(t), strip) == seq![h] + tagged(kind, ts.drop_first().push(t), strip));
        assert((seq![h] + tagged(kind, ts.drop_first(), strip)).push(x) =~= seq![h] + tagged(kind, ts.drop_first(), strip).push(x));
    }
}

/// One text paired with `kind`, wildcards removed when `strip` holds.
fn tag(kind: &str, t: &str, strip: bool) -> (r: (String, String))
    ensures
        r.0@ == kind@,
        r.1@ == if strip { unwild(t@) } else { t@ },
{
    proof {
        reveal_strlit("*.");
    }
    if strip {
        (kind.to_owned(), trim_start_str(t, "*."))
    } else {
        (kind.to_owned(), t.to_owned())
    }
}

/// Appends the string items of `xs`, each paired with `kind`.
fn push_strings(out: &mut Vec<(String, String)>, xs: &[Json], kind: &str, strip: bool)
    ensures
        text_pairs(final(out)@) == text_pairs(old(out)@) + tagged(kind@, string_items(xs@), strip),
{
    let ghost start = text_pairs(out@);
    let mut i: usize = 0;
    assert(xs@.skip(0) =~= xs@);
    while i < xs.len()
        invariant
            i <= xs.len(),
            start + tagged(kind@, string_items(xs@), strip)
                == text_pairs(out@) + tagged(kind@, string_items(xs@.skip(i as int)), strip),
        decreases xs.len() - i,
    {
        let ghost before = text_pairs(out@);
        assert(xs@.skip(i as int)[0] == xs@[i as int]);
        assert(xs@.skip(i as int).drop_first() =~= xs@.skip(i + 1));
        match &xs[i] {
            Json::String(t) => {
                let item = tag(kind, t.as_str(), strip);
                out.push(item);
                assert(text_pairs(out@) =~= before.push((item.0@, item.1@)));
                let ghost ts = string_items(xs@.skip(i as int));
                assert(ts =~= seq![t@] + string_items(xs@.skip(i + 1)));
                assert(ts[0] == t@);
                assert(ts.drop_first() =~= string_items(xs@.skip(i + 1)));
                assert(tagged(kind@, ts, strip) == seq![(item.0@, item.1@)] + tagged(kind@, string_items(xs@.skip(i + 1)), strip));
                assert(before + tagged(kind@, string_items(xs@.skip(i as int)), strip)
                    =~= text_pairs(out@) + tagged(kind@, string_items(xs@.skip(i + 1)), strip));
            },
            _ => {
                assert(string_items(xs@.skip(i as int)) =~= string_items(xs@.skip(i + 1)));
            },
        }
        i = i + 1;
    }
    assert(text_pairs(out@) + Seq::<TextPair>::empty() =~= text_pairs(out@));
}

/// Appends the texts `ts`, each paired with `kind`.
fn push_texts(out: &mut Vec<(String, String)>, ts: &[String], kind: &str, strip: bool)
    ensures
        text_pairs(final(out)@) == text_pairs(old(out)@) + tagged(kind@, ts@.map_values(|t: String| t@), strip),
{
    let ghost start = text_pairs(out@);
    let ghost tv = ts@.map_values(|t: String| t@);
    let mut i: usize = 0;
    assert(tv.take(0) =~= Seq::<Seq<char>>::empty());
    while i < ts.len()
        invariant
            i <= ts.len(),
            tv == ts@.map_values(|t: String| t@),
            text_pairs(out@) == start + tagged(kind@, tv.take(i as int), strip),
        decreases ts.len() - i,
    {
        let ghost before = text_pairs(out@);
        let item = tag(kind, ts[i].as_str(), strip);
        out.push(item);
        assert(text_pairs(out@) =~= before.push((item.0@, item.1@)));
        assert(tv[i as int] == ts@[i as int]@);
        proof {
            lemma_tagged_push(kind@, tv.take(i as int), tv[i as int], strip);
        }
        assert(tv.take(i + 1) =~= tv.take(i as int).push(tv[i as int]));
        assert(text_pairs(out@) =~= start + tagged(kind@, tv.take(i + 1), strip));
        i = i + 1;
    }
    assert(tv.take(i as int) =~= tv);
}

/// What one certificate-transparency record of crt.sh yields: the first 50
/// lines of its `name_value`, wildcards removed, as domains.
pub open spec fn crt_one(r: Json) -> Seq<TextPair> {
    match text_of(field(r, "name_value"@)) {
        Some(names) => tagged("domain"@, first_n(lines_spec(names), 50), true),
        None => seq![],
    }
}

/// What records yield after `acc`, stopping after the record that takes
/// the count past 1024.
pub open spec fn crt_fold(rs: Seq<Json>, acc: Seq<TextPair>) -> Seq<TextPair>
    decreases rs.len(),
{
    if rs.len() == 0 {
        acc
    } else {
        let next = acc + crt_one(rs[0]);
        if next.len() > 1024 { next } else { crt_fold(rs.drop_first(), next) }
    }
}

/// Domains of a crt.sh response (its first 10000 records).
fn crt_values(json: &Json) -> (r: Vec<(String, String)>)
    ensures
        text_pairs(r@) == crt_fold(first_n(items(*json), 10000), seq![]),
{
    proof {
        reveal_strlit("name_value");
        reveal_strlit("domain");
    }
    let all = array_items(json);
    let n: usize = if all.len() <= 10000 { all.len() } else { 10000 };
    let ghost rs = first_n(items(*json), 10000);
    assert(rs.len() == n);
    let mut out: Vec<(String, String)> = Vec::new();
    let mut i: usize = 0;
    assert(rs.skip(0) =~= rs);
    assert(text_pairs(out@) =~= Seq::<TextPair>::empty());
    while i < n
        invariant
            rs == first_n(items(*json), 10000),
            all@ == items(*json),
            n == rs.len(),
            n <= all.len(),
            i <= n,
            crt_fold(rs, seq![]) == crt_fold(rs.skip(i as int), text_pairs(out@)),
        decreases n - i,
    {
        let r = &all[i];
        assert(rs.skip(i as int)[0] == *r);
        assert(rs.skip(i as int).drop_first() =~= rs.skip(i + 1));
        let ghost before = text_pairs(out@);
        match text_under(r, "name_value") {
            Some(names) => {
                let lines = lines_of(names.as_str());
                let m: usize = if lines.len() <= 50 { lines.len() } else { 50 };
                assert(first_n(lines_spec(names@), 50) =~= lines@.subrange(0, m as int).map_values(|t: String| t@));
                push_texts(&mut out, &lines.as_slice()[0..m], "domain", true);
            },
            None => {},
        }
        assert(text_pairs(out@) =~= before + crt_one(*r));
        if out.len() > 1024 {
            return out;
        }
        i = i + 1;
    }
    assert(rs.skip(i as int) =~= Seq::<Json>::empty());
    out
}

/// What one Cert Spotter issuance yields: its DNS names, wildcards removed,
/// as domains.
pub open spec fn certspotter_one(r: Json) -> Seq<TextPair> {
    tagged("domain"@, string_items(items(field(r, "dns_names"@))), true)
}

/// What issuances yield after `acc`, stopping after the one that takes the
/// count past 1024.
pub open spec fn certspotter_fold(rs: Seq<Json>, acc: Seq<TextPair>) -> Seq<TextPair>
    decreases rs.len(),
{
    if rs.len() == 0 {
        acc
    } else {
        let next = acc + certspotter_one(rs[0]);
        if next.len() > 1024 { next } else { certspotter_fold(rs.drop_first(), next) }
    }
}

/// Domains of a Cert Spotter response.
fn certspotter_values(json: &Json) -> (r: Vec<(String, String)>)
    ensures
        text_pairs(r@) == certspotter_fold(items(*json), seq![]),
{
    proof {
        reveal_strlit("dns_names");
        reveal_strlit("domain");
    }
    let rs = array_items(json);
    let mut out: Vec<(String, String)> = Vec::new();
    let mut i: usize = 0;
    assert(rs@.skip(0) =~= rs@);
    assert(text_pairs(out@) =~= Seq::<TextPair>::empty());
    while i < rs.len()
        invariant
            rs@ == items(*json),
            i <= rs.len(),
            certspotter_fold(rs@, seq![]) == certspotter_fold(rs@.skip(i as int), text_pairs(out@)),
        decreases rs.len() - i,
    {
        let r = &rs[i];
        assert(rs@.skip(i as int)[0] == *r);
        assert(rs@.skip(i as int).drop_first() =~= rs@.skip(i + 1));
        push_strings(&mut out, array_under(r, "dns_names"), "domain", true);
        if out.len() > 1024 {
            return out;
        }
        i = i + 1;
    }
    assert(rs@.skip(i as int) =~= Seq::<Json>::empty());
    out
}

/// Host names of a Shodan InternetDB response, as domains.
pub open spec fn internetdb_spec(json: Json) -> Seq<TextPair> {
    tagged("domain"@, string_items(items(field(json, "hostnames"@))), false)
}

/// The URLs of urlscan results (each result's `page.url`).
pub open spec fn urlscan_all(rs: Seq<Json>) -> Seq<TextPair>
    decreases rs.len(),
{
    if rs.len() == 0 {
        seq![]
    } else {
        (match text_of(field(field(rs[0], "page"@), "url"@)) {
            Some(u) => seq![("url"@, u)],
            None => seq![],
        }) + urlscan_all(rs.drop_first())
    }
}

/// The URLs of Wayback CDX rows (each row's first column, after the header row).
pub open spec fn cdx_all(rs: Seq<Json>) -> Seq<TextPair>
    decreases rs.len(),
{
    if rs.len() == 0 {
        seq![]
    } else {
        (match text_of(if items(rs[0]).len() > 0 { items(rs[0])[0] } else { Json::Null }) {
            Some(u) => if rs[0] is Array { seq![("url"@, u)] } else { seq![] },
            None => seq![],
        }) + cdx_all(rs.drop_first())
    }
}

/// URLs of a urlscan search response.
fn urlscan_values(json: &Json) -> (r: Vec<(String, String)>)
    ensures
        text_pairs(r@) == urlscan_all(items(field(*json, "results"@))),
{
    proof {
        reveal_strlit("results");
        reveal_strlit("page");
        reveal_strlit("url");
    }
    let rs = array_under(json, "results");
    let mut out: Vec<(String, String)> = Vec::new();
    let mut i: usize = 0;
    assert(rs@.skip(0) =~= rs@);
    while i < rs.len()
        invariant
            i <= rs.len(),
            urlscan_all(rs@) == text_pairs(out@) + urlscan_all(rs@.skip(i as int)),
        decreases rs.len() - i,
    {
        let r = &rs[i];
        let ghost before = text_pairs(out@);
        assert(rs@.skip(i as int)[0] == *r);
        assert(rs@.skip(i as int).drop_first() =~= rs@.skip(i + 1));
        let page = match r.get("page") {
            Some(p) => text_under(p, "url"),
            None => None,
        };
        assert(field(*r, "page"@) == Json::Null ==> text_of(field(field(*r, "page"@), "url"@)) is None);
        match page {
            Some(u) => {
                out.push(pair("url", u.as_str()));
                assert(text_pairs(out@) =~= before + seq![("url"@, u@)]);
            },
            None => {},
        }
        assert(before + ((match text_of(field(field(*r, "page"@), "url"@)) {
            Some(u) => seq![("url"@, u)],
            None => Seq::<TextPair>::empty(),
        }) + urlscan_all(rs@.skip(i + 1))) =~= text_pairs(out@) + urlscan_all(rs@.skip(i + 1)));
        i = i + 1;
    }
    assert(text_pairs(out@) + Seq::<TextPair>::empty() =~= text_pairs(out@));
    out
}

/// URLs of a Wayback CDX response.
fn cdx_values(json: &Json) -> (r: Vec<(String, String)>)
    ensures
        text_pairs(r@) == if items(*json).len() > 0 { cdx_all(items(*json).drop_first()) } else { seq![] },
{
    proof {
        reveal_strlit("url");
    }
    let all = array_items(json);
    let mut out: Vec<(String, String)> = Vec::new();
    if all.len() == 0 {
        assert(text_pairs(out@) =~= Seq::<TextPair>::empty());
        return out;
    }
    let ghost rs = all@.drop_first();
    let mut i: usize = 1;
    assert(rs.skip(0) =~= rs);
    while i < all.len()
        invariant
            rs == all@.drop_first(),
            1 <= i <= all.len(),
            cdx_all(rs) == text_pairs(out@) + cdx_all(rs.skip(i - 1)),
        decreases all.len() - i,
    {
        let r = &all[i];
        let ghost before = text_pairs(out@);
        assert(rs.skip(i - 1)[0] == *r);
        assert(rs.skip(i - 1).drop_first() =~= rs.skip(i as int));
        let first = match r {
            Json::Array(cols) => if cols.len() > 0 {
                match &cols[0] {
                    Json::String(u) => Some(u.clone()),
                    _ => None,
                }
            } else {
                None
            },
            _ => None,
        };
        match first {
            Some(u) => {
                out.push(pair("url", u.as_str()));
                assert(text_pairs(out@) =~= before + seq![("url"@, u@)]);
            },
            None => {},
        }
        assert(before + ((match text_of(if items(*r).len() > 0 { items(*r)[0] } else { Json::Null }) {
            Some(u) => if *r is Array { seq![("url"@, u)] } else { Seq::<TextPair>::empty() },
            None => Seq::<TextPair>::empty(),
        }) + cdx_all(rs.skip(i as int))) =~= text_pairs(out@) + cdx_all(rs.skip(i as int)));
        i = i + 1;
    }
    assert(text_pairs(out@) + Seq::<TextPair>::empty() =~= text_pairs(out@));
    out
}

/// What the `pointer` parser takes: the strings among the first 512 items
/// of an array at the pointer, or the string at it, with the manifest's
/// output kind.
pub open spec fn pointer_values_spec(m: ManifestView, json: Json) -> Seq<TextPair> {
    match pointer_spec(json, m.pointer) {
        Some(Json::Array(a)) => tagged(m.output_kind, string_items(first_n(a@, 512)), false),
        Some(Json::String(s)) => seq![(m.output_kind, s@)],
        _ => seq![],
    }
}

/// The strings a manifest's JSON pointer designates.
fn pointer_values(m: &Manifest, json: &Json) -> (r: Vec<(String, String)>)
    ensures
        text_pairs(r@) == pointer_values_spec(m@, *json),
{
    let mut out: Vec<(String, String)> = Vec::new();
    match json.pointer(m.pointer.as_str()) {
        Some(Json::Array(a)) => {
            let n: usize = if a.len() <= 512 { a.len() } else { 512 };
            assert(first_n(a@, 512) =~= a@.subrange(0, n as int));
            assert(text_pairs(out@) =~= Seq::<TextPair>::empty());
            push_strings(&mut out, &a.as_slice()[0..n], m.output_kind.as_str(), false);
        },
        Some(Json::String(s)) => {
            out.push(pair(m.output_kind.as_str(), s.as_str()));
            assert(text_pairs(out@) =~= seq![(m@.output_kind, s@)]);
        },
        _ => {
            assert(text_pairs(out@) =~= Seq::<TextPair>::empty());
        },
    }
    out
}

/// The (kind, value) pairs a response yields under the manifest's parser,
/// before any limit on their number; refused for an unknown parser.
pub open spec fn extract_spec(m: ManifestView, json: Json, is_ip: spec_fn(Seq<char>) -> bool) -> Result<Seq<TextPair>, TransformError> {
    if m.parser == "doh"@ {
        Ok(doh_all(items(field(json, "Answer"@)), is_ip))
    } else if m.parser == "crt"@ {
        Ok(crt_fold(first_n(items(json), 10000), seq![]))
    } else if m.parser == "certspotter"@ {
        Ok(certspotter_fold(items(json), seq![]))
    } else if m.parser == "internetdb"@ {
        Ok(internetdb_spec(json))
    } else if m.parser == "urlscan"@ {
        Ok(urlscan_all(items(field(json, "results"@))))
    } else if m.parser == "cdx"@ {
        Ok(if items(json).len() > 0 { cdx_all(items(json).drop_first()) } else { seq![] })
    } else if m.parser == "pointer"@ {
        Ok(pointer_values_spec(m, json))
    } else if m.parser == "attributes"@ {
        Ok(seq![])
    } else {
        Err(TransformError::UnknownParser)
    }
}

/// The (kind, value) pairs that the manifest's parser finds in a response.
pub fn extract<F: Fn(&str) -> bool>(m: &Manifest, json: &Json, is_ip: &F) -> (r: Result<Vec<(String, String)>, TransformError>)
    requires
        decides(*is_ip),
    ensures
        match extract_spec(m@, *json, |t: Seq<char>| answer(*is_ip, t)) {
            Ok(v) => r is Ok && text_pairs(r->Ok_0@) == v,
            Err(e) => r == Err::<Vec<(String, String)>, TransformError>(e),
        },
{
    let p = m.parser.as_str();
    if same_text(p, "doh") {
        Ok(doh_values(json, is_ip))
    } else if same_text(p, "crt") {
        Ok(crt_values(json))
    } else if same_text(p, "certspotter") {
        Ok(certspotter_values(json))
    } else if same_text(p, "internetdb") {
        proof {
            reveal_strlit("hostnames");
            reveal_strlit("domain");
        }
        let mut out: Vec<(String, String)> = Vec::new();
        assert(text_pairs(out@) =~= Seq::<TextPair>::empty());
        push_strings(&mut out, array_under(json, "hostnames"), "domain", false);
        assert(text_pairs(out@) =~= internetdb_spec(*json));
        Ok(out)
    } else if same_text(p, "urlscan") {
        Ok(urlscan_values(json))
    } else if same_text(p, "cdx") {
        Ok(cdx_values(json))
    } else if same_text(p, "pointer") {
        Ok(pointer_values(m, json))
    } else if same_text(p, "attributes") {
        let out: Vec<(String, String)> = Vec::new();
        assert(text_pairs(out@) =~= Seq::<TextPair>::empty());
        Ok(out)
    } else {
        Err(TransformError::UnknownParser)
    }
}


/// Whether `g` measures every node, alike for nodes of the same value (as
/// the length of a node's JSON encoding is).
pub open spec fn measures_nodes<G: Fn(&Node) -> usize>(g: G) -> bool {
    &&& forall|n: &Node| g.requires((n,))
    &&& forall|a: &Node, b: &Node, la: usize, lb: usize|
        a@ == b@ && #[trigger] g.ensures((a,), la) && #[trigger] g.ensures((b,), lb) ==> la == lb
}

/// What a measuring `g` gives for a node of value `v`.
pub open spec fn node_size<G: Fn(&Node) -> usize>(g: G, v: NodeView) -> usize {
    (choose|n: &Node, l: usize| n@ == v && #[trigger] g.ensures((n,), l)).1
}

proof fn lemma_node_size<G: Fn(&Node) -> usize>(g: G, n: &Node, l: usize)
    requires
        measures_nodes(g),
        g.ensures((n,), l),
    ensures
        l == node_size(g, n@),
{
    assert(exists|m: &Node, k: usize| m@ == n@ && #[trigger] g.ensures((m,), k));
    let (m, k) = choose|m: &Node, k: usize| m@ == n@ && #[trigger] g.ensures((m,), k);
    assert(g.ensures((n,), l) && g.ensures((m,), k));
}

/// Whether `h` measures every batch, alike for batches of the same value.
pub open spec fn measures_batches<H: Fn(&Batch) -> usize>(h: H) -> bool {
    &&& forall|b: &Batch| h.requires((b,))
    &&& forall|a: &Batch, b: &Batch, la: usize, lb: usize|
        a@ == b@ && #[trigger] h.ensures((a,), la) && #[trigger] h.ensures((b,), lb) ==> la == lb
}

/// What a measuring `h` gives for a batch of value `v`.
pub open spec fn batch_size<H: Fn(&Batch) -> usize>(h: H, v: BatchView) -> usize {
    (choose|b: &Batch, l: usize| b@ == v && #[trigger] h.ensures((b,), l)).1
}

proof fn lemma_batch_size<H: Fn(&Batch) -> usize>(h: H, b: &Batch, l: usize)
    requires
        measures_batches(h),
        h.ensures((b,), l),
    ensures
        l == batch_size(h, b@),
{
    assert(exists|m: &Batch, k: usize| m@ == b@ && #[trigger] h.ensures((m,), k));
    let (m, k) = choose|m: &Batch, k: usize| m@ == b@ && #[trigger] h.ensures((m,), k);
    assert(h.ensures((b,), l) && h.ensures((m,), k));
}

/// Whether `p` places every child, the same way for the same arguments.
pub open spec fn places<P: Fn(u32, u32, usize) -> (u32, u32)>(p: P) -> bool {
    &&& forall|x: u32, y: u32, k: usize| p.requires((x, y, k))
    &&& forall|x: u32, y: u32, k: usize, a: (u32, u32), b: (u32, u32)|
        #[trigger] p.ensures((x, y, k), a) && #[trigger] p.ensures((x, y, k), b) ==> a == b
}

/// Where a placing `p` puts the child at index `k` of a node at (`x`, `y`).
pub open spec fn placement<P: Fn(u32, u32, usize) -> (u32, u32)>(p: P, x: u32, y: u32, k: usize) -> (u32, u32) {
    choose|r: (u32, u32)| p.ensures((x, y, k), r)
}

proof fn lemma_placement<P: Fn(u32, u32, usize) -> (u32, u32)>(p: P, x: u32, y: u32, k: usize, r: (u32, u32))
    requires
        places(p),
        p.ensures((x, y, k), r),
    ensures
        r == placement(p, x, y, k),
{
    let r2 = placement(p, x, y, k);
    assert(p.ensures((x, y, k), r) && p.ensures((x, y, k), r2));
}

/// The nodes and edges gathered so far from a response, with the
/// identifiers already met.
pub struct Growth {
    pub nodes: Seq<NodeView>,
    pub edges: Seq<EdgeView>,
    pub seen: Set<Seq<char>>,
}

/// `n` moved to (`x`, `y`).
pub open spec fn moved(n: NodeView, x: u32, y: u32) -> NodeView {
    NodeView {
        id: n.id,
        kind: n.kind,
        value: n.value,
        attributes: n.attributes,
        sources: n.sources,
        confidence: n.confidence,
        timestamp: n.timestamp,
        x,
        y,
    }
}

/// One (kind, value) pair of a response taken in: its entity is skipped when
/// it is the input or was met before, dropped (but remembered) when it fails
/// its check, and otherwise placed by `place` at the next index and linked
/// from the input by an `observed` edge.
pub open spec fn child_step(
    m: ManifestView,
    input: NodeView,
    p: TextPair,
    now: i64,
    len_of: spec_fn(NodeView) -> usize,
    place: spec_fn(u32, u32, nat) -> (u32, u32),
    g: Growth,
) -> Growth {
    let n = fresh_node(p.0, p.1, m.id, now);
    if n.id == input.id || g.seen.contains(n.id) {
        g
    } else if node_check(n, len_of(n) as nat) is Err {
        Growth { nodes: g.nodes, edges: g.edges, seen: g.seen.insert(n.id) }
    } else {
        let xy = place(input.x, input.y, g.nodes.len());
        Growth {
            nodes: g.nodes.push(moved(n, xy.0, xy.1)),
            edges: g.edges.push(fresh_edge(input.id, n.id, "observed"@, m.id, now)),
            seen: g.seen.insert(n.id),
        }
    }
}

/// The pairs taken in, in order, until the batch holds 256 nodes.
pub open spec fn grow(
    m: ManifestView,
    input: NodeView,
    pairs: Seq<TextPair>,
    now: i64,
    len_of: spec_fn(NodeView) -> usize,
    place: spec_fn(u32, u32, nat) -> (u32, u32),
    g: Growth,
) -> Growth
    decreases pairs.len(),
{
    if pairs.len() == 0 || g.nodes.len() >= 256 {
        g
    } else {
        grow(m, input, pairs.drop_first(), now, len_of, place, child_step(m, input, pairs[0], now, len_of, place, g))
    }
}

/// The input as it enters the batch: with the whole document kept as an
/// attribute under the transform's id for the `attributes` parser, and the
/// transform added to its sources.
pub open spec fn root_of(m: ManifestView, input: NodeView, document: Seq<char>) -> NodeView {
    NodeView {
        id: input.id,
        kind: input.kind,
        value: input.value,
        attributes: if m.parser == "attributes"@ { input.attributes.insert(m.id, document) } else { input.attributes },
        sources: input.sources.push(m.id),
        confidence: input.confidence,
        timestamp: input.timestamp,
        x: input.x,
        y: input.y,
    }
}

/// The batch a response gives: refused for an unknown parser, for an
/// `attributes` response over 48 KiB, and when the batch fails its check;
/// else the root, then the first 1024 pairs taken in (see `grow`).
pub open spec fn parse_spec(
    m: ManifestView,
    input: NodeView,
    json: Json,
    document: Seq<char>,
    response_len: nat,
    now: i64,
    is_ip: spec_fn(Seq<char>) -> bool,
    len_of: spec_fn(NodeView) -> usize,
    batch_len: spec_fn(BatchView) -> usize,
    place: spec_fn(u32, u32, nat) -> (u32, u32),
) -> Result<BatchView, TransformError> {
    match extract_spec(m, json, is_ip) {
        Err(e) => Err(e),
        Ok(values) => if m.parser == "attributes"@ && response_len > 48 * 1024 {
            Err(TransformError::AttributesTooLarge)
        } else {
            let start = Growth { nodes: seq![root_of(m, input, document)], edges: seq![], seen: Set::empty() };
            let g = grow(m, input, first_n(values, 1024), now, len_of, place, start);
            let b = BatchView { nodes: g.nodes, edges: g.edges };
            match batch_check(b, batch_len(b) as nat, g.nodes.map_values(len_of)) {
                Err(e) => Err(TransformError::Batch(e)),
                Ok(()) => Ok(b),
            }
        },
    }
}

/// Whether the text `t` is among `v`.
fn holds_text(v: &Vec<String>, t: &str) -> (r: bool)
    ensures
        r == texts(v@).contains(t@),
{
    let mut i: usize = 0;
    while i < v.len()
        invariant
            i <= v.len(),
            forall|j: int| 0 <= j < i ==> v@[j]@ != t@,
        decreases v.len() - i,
    {
        if same_text(v[i].as_str(), t) {
            assert(texts(v@)[i as int] == t@);
            return true;
        }
        i = i + 1;
    }
    assert forall|j: int| 0 <= j < texts(v@).len() implies texts(v@)[j] != t@ by {
        assert(texts(v@)[j] == v@[j]@);
    }
    false
}

/// `parse_spec` with the answers of `is_ip`, the measures of `node_len` and
/// `batch_len`, and the placements of `place`.
pub open spec fn parse_outcome<F, G, H, P>(
    m: ManifestView,
    input: NodeView,
    json: Json,
    document: Seq<char>,
    response_len: nat,
    now: i64,
    is_ip: F,
    node_len: G,
    batch_len: H,
    place: P,
) -> Result<BatchView, TransformError>
    where
        F: Fn(&str) -> bool,
        G: Fn(&Node) -> usize,
        H: Fn(&Batch) -> usize,
        P: Fn(u32, u32, usize) -> (u32, u32),
{
    parse_spec(m, input, json, document, response_len, now, |t: Seq<char>| answer(is_ip, t),
        |v: NodeView| node_size(node_len, v), |b: BatchView| batch_size(batch_len, b),
        |x: u32, y: u32, k: nat| placement(place, x, y, k as usize))
}

/// Whether a batch, or a refusal, is the one `s` describes.
pub open spec fn agrees(r: Result<Batch, TransformError>, s: Result<BatchView, TransformError>) -> bool {
    match s {
        Ok(b) => r is Ok && r->Ok_0@ == b,
        Err(e) => r is Err && r->Err_0 == e,
    }
}

/// The batch a response gives (see `parse_spec`), with every new entity and
/// edge stamped `now`. `json` is the response parsed, `document` its JSON
/// text and `response_len` its length in bytes; `is_ip` decides IP
/// literals, `node_len` and `batch_len` give the length of the JSON
/// encoding of a node and of a batch, and `place` places a child.
#[verifier::rlimit(40)]
pub fn parse_at<F, G, H, P>(
    m: &Manifest,
    input: &Node,
    json: &Json,
    document: &str,
    response_len: usize,
    now: i64,
    is_ip: &F,
    node_len: &G,
    batch_len: &H,
    place: &P,
) -> (r: Result<Batch, TransformError>)
    where
        F: Fn(&str) -> bool,
        G: Fn(&Node) -> usize,
        H: Fn(&Batch) -> usize,
        P: Fn(u32, u32, usize) -> (u32, u32),
    requires
        decides(*is_ip),
        measures_nodes(*node_len),
        measures_batches(*batch_len),
        places(*place),
    ensures
        agrees(r, parse_outcome(m@, input@, *json, document@, response_len as nat, now, *is_ip, *node_len, *batch_len, *place)),
{
    let ghost lf = |v: NodeView| node_size(*node_len, v);
    let ghost pf = |x: u32, y: u32, k: nat| placement(*place, x, y, k as usize);
    let values = match extract(m, json, is_ip) {
        Ok(v) => v,
        Err(e) => return Err(e),
    };
    let ghost pairs = first_n(text_pairs(values@), 1024);
    proof {
        reveal_strlit("attributes");
        reveal_strlit("observed");
    }
    let attrs = same_text(m.parser.as_str(), "attributes");
    if attrs && response_len > 48 * 1024 {
        return Err(TransformError::AttributesTooLarge);
    }
    let mut root = input.duplicate();
    if attrs {
        root.attributes.insert(m.id.clone(), document.to_owned());
    }
    root.sources.push(m.id.clone());
    assert(texts(root.sources@) =~= input@.sources.push(m@.id));
    assert(root@ == root_of(m@, input@, document@));
    let mut batch = Batch::default();
    batch.nodes.push(root);
    let mut seen: Vec<String> = Vec::new();
    let ghost start = Growth { nodes: seq![root_of(m@, input@, document@)], edges: seq![], seen: Set::empty() };
    assert(batch@.nodes =~= start.nodes);
    assert(batch@.edges =~= start.edges);
    assert(texts(seen@).to_set() =~= start.seen);
    let limit: usize = if values.len() < 1024 { values.len() } else { 1024 };
    assert(pairs.len() == limit);
    assert(pairs.skip(0) =~= pairs);
    let mut i: usize = 0;
    while i < limit && batch.nodes.len() < 256
        invariant
            measures_nodes(*node_len),
            places(*place),
            lf == (|v: NodeView| node_size(*node_len, v)),
            pf == (|x: u32, y: u32, k: nat| placement(*place, x, y, k as usize)),
            pairs == first_n(text_pairs(values@), 1024),
            pairs.len() == limit,
            limit <= values.len(),
            i <= limit,
            batch.nodes.len() <= 256,
            grow(m@, input@, pairs, now, lf, pf, start) == grow(m@, input@, pairs.skip(i as int), now, lf, pf,
                Growth { nodes: batch@.nodes, edges: batch@.edges, seen: texts(seen@).to_set() }),
        decreases limit - i,
    {
        let ghost g = Growth { nodes: batch@.nodes, edges: batch@.edges, seen: texts(seen@).to_set() };
        assert(pairs.skip(i as int)[0] == pairs[i as int]);
        assert(pairs.skip(i as int).drop_first() =~= pairs.skip(i + 1));
        assert(pairs[i as int] == (values@[i as int].0@, values@[i as int].1@));
        let node = Node::stamped(values[i].0.as_str(), values[i].1.as_str(), m.id.as_str(), now);
        if !same_text(node.id.as_str(), input.id.as_str()) && !holds_text(&seen, node.id.as_str()) {
            let ghost before = seen@;
            seen.push(node.id.clone());
            proof {
                assert(texts(seen@) =~= texts(before).push(node@.id));
                lemma_push_to_set(texts(before), node@.id);
            }
            let len = node_len(&node);
            proof {
                lemma_node_size(*node_len, &node, len);
            }
            if node.validate(len).is_ok() {
                let k = batch.nodes.len();
                let xy = place(input.x, input.y, k);
                proof {
                    lemma_placement(*place, input.x, input.y, k, xy);
                }
                let mut node = node;
                node.x = xy.0;
                node.y = xy.1;
                assert(node@ == moved(fresh_node(pairs[i as int].0, pairs[i as int].1, m@.id, now), xy.0, xy.1));
                let edge = Edge::stamped(input.id.as_str(), node.id.as_str(), "observed", m.id.as_str(), now);
                batch.edges.push(edge);
                batch.nodes.push(node);
                assert(batch@.nodes =~= g.nodes.push(node@));
                assert(batch@.edges =~= g.edges.push(edge@));
            }
        }
        i = i + 1;
    }
    proof {
        let g = Growth { nodes: batch@.nodes, edges: batch@.edges, seen: texts(seen@).to_set() };
        if i == limit {
            assert(pairs.skip(i as int).len() == 0);
        }
        assert(grow(m@, input@, pairs.skip(i as int), now, lf, pf, g) == g);
    }
    let mut lens: Vec<usize> = Vec::new();
    let mut j: usize = 0;
    while j < batch.nodes.len()
        invariant
            measures_nodes(*node_len),
            lf == (|v: NodeView| node_size(*node_len, v)),
            j <= batch.nodes.len(),
            lens.len() == j,
            forall|q: int| 0 <= q < j ==> lens@[q] == lf(batch@.nodes[q]),
        decreases batch.nodes.len() - j,
    {
        let l = node_len(&batch.nodes[j]);
        proof {
            lemma_node_size(*node_len, &batch.nodes[j as int], l);
        }
        lens.push(l);
        j = j + 1;
    }
    assert(lens@ =~= batch@.nodes.map_values(lf));
    let total = batch_len(&batch);
    proof {
        lemma_batch_size(*batch_len, &batch, total);
    }
    match batch.validate(total, &lens) {
        Ok(()) => Ok(batch),
        Err(e) => Err(TransformError::Batch(e)),
    }
}

/// The batch a response gives, with every new entity and edge stamped with
/// the current time: `parse_at` at some instant.
pub fn parse<F, G, H, P>(
    m: &Manifest,
    input: &Node,
    json: &Json,
    document: &str,
    response_len: usize,
    is_ip: &F,
    node_len: &G,
    batch_len: &H,
    place: &P,
) -> (r: Result<Batch, TransformError>)
    where
        F: Fn(&str) -> bool,
        G: Fn(&Node) -> usize,
        H: Fn(&Batch) -> usize,
        P: Fn(u32, u32, usize) -> (u32, u32),
    requires
        decides(*is_ip),
        measures_nodes(*node_len),
        measures_batches(*batch_len),
        places(*place),
    ensures
        exists|now: i64|
            agrees(r, #[trigger] parse_outcome(m@, input@, *json, document@, response_len as nat, now, *is_ip, *node_len, *batch_len, *place)),
{
    let t = crate::model::now();
    parse_at(m, input, json, document, response_len, t, is_ip, node_len, batch_len, place)
}

/// What holds of the growth so far: the root first, then one child per
/// edge, each edge `observed` from the input to its child under the
/// transform's id, the children distinct, met before, and none of them the
/// input; at most 256 nodes.
pub open spec fn star(m: ManifestView, input: NodeView, root: NodeView, now: i64, g: Growth) -> bool {
    &&& g.nodes.len() == g.edges.len() + 1
    &&& g.nodes.len() <= 256
    &&& g.nodes[0] == root
    &&& forall|k: int| 0 <= k < g.edges.len() ==> #[trigger] g.edges[k] == fresh_edge(input.id, g.nodes[k + 1].id, "observed"@, m.id, now)
    &&& forall|k: int| 1 <= k < g.nodes.len() ==> #[trigger] g.seen.contains(g.nodes[k].id) && g.nodes[k].id != input.id
    &&& forall|a: int, b: int| 1 <= a < b < g.nodes.len() ==> #[trigger] g.nodes[a].id != #[trigger] g.nodes[b].id
}

proof fn lemma_grow_star(
    m: ManifestView,
    input: NodeView,
    root: NodeView,
    pairs: Seq<TextPair>,
    now: i64,
    len_of: spec_fn(NodeView) -> usize,
    place: spec_fn(u32, u32, nat) -> (u32, u32),
    g: Growth,
)
    requires
        star(m, input, root, now, g),
    ensures
        star(m, input, root, now, grow(m, input, pairs, now, len_of, place, g)),
    decreases pairs.len(),
{
    if pairs.len() > 0 && g.nodes.len() < 256 {
        let h = child_step(m, input, pairs[0], now, len_of, place, g);
        let n = fresh_node(pairs[0].0, pairs[0].1, m.id, now);
        if !(n.id == input.id || g.seen.contains(n.id)) && node_check(n, len_of(n) as nat) is Ok {
            let xy = place(input.x, input.y, g.nodes.len());
            assert(h.nodes == g.nodes.push(moved(n, xy.0, xy.1)));
            assert forall|k: int| 0 <= k < h.edges.len() implies #[trigger] h.edges[k] == fresh_edge(input.id, h.nodes[k + 1].id, "observed"@, m.id, now) by {
                if k < g.edges.len() {
                    assert(h.edges[k] == g.edges[k]);
                    assert(h.nodes[k + 1] == g.nodes[k + 1]);
                }
            }
            assert forall|k: int| 1 <= k < h.nodes.len() implies #[trigger] h.seen.contains(h.nodes[k].id) && h.nodes[k].id != input.id by {
                if k < g.nodes.len() {
                    assert(h.nodes[k] == g.nodes[k]);
                }
            }
            assert forall|a: int, b: int| 1 <= a < b < h.nodes.len() implies #[trigger] h.nodes[a].id != #[trigger] h.nodes[b].id by {
                assert(h.nodes[a] == g.nodes[a]);
                if b < g.nodes.len() {
                    assert(h.nodes[b] == g.nodes[b]);
                } else {
                    assert(g.seen.contains(g.nodes[a].id));
                }
            }
        }
        lemma_grow_star(m, input, root, pairs.drop_first(), now, len_of, place, h);
    }
}

/// Every batch a response gives is a star around the input: the input
/// first (see `root_of`), then at most 255 distinct new entities, none of
/// them the input, each linked from the input by one edge `observed` under
/// the transform's id.
pub proof fn law_parse_star(
    m: ManifestView,
    input: NodeView,
    json: Json,
    document: Seq<char>,
    response_len: nat,
    now: i64,
    is_ip: spec_fn(Seq<char>) -> bool,
    len_of: spec_fn(NodeView) -> usize,
    batch_len: spec_fn(BatchView) -> usize,
    place: spec_fn(u32, u32, nat) -> (u32, u32),
)
    requires
        parse_spec(m, input, json, document, response_len, now, is_ip, len_of, batch_len, place) is Ok,
    ensures
        ({
            let b = parse_spec(m, input, json, document, response_len, now, is_ip, len_of, batch_len, place)->Ok_0;
            &&& b.nodes.len() == b.edges.len() + 1
            &&& b.nodes.len() <= 256
            &&& b.nodes[0] == root_of(m, input, document)
            &&& forall|k: int| 0 <= k < b.edges.len() ==> #[trigger] b.edges[k] == fresh_edge(input.id, b.nodes[k + 1].id, "observed"@, m.id, now)
            &&& forall|k: int| 1 <= k < b.nodes.len() ==> #[trigger] b.nodes[k].id != input.id
            &&& forall|a: int, c: int| 1 <= a < c < b.nodes.len() ==> #[trigger] b.nodes[a].id != #[trigger] b.nodes[c].id
        }),
{
    let values = extract_spec(m, json, is_ip)->Ok_0;
    let root = root_of(m, input, document);
    let start = Growth { nodes: seq![root], edges: seq![], seen: Set::empty() };
    assert(star(m, input, root, now, start));
    lemma_grow_star(m, input, root, first_n(values, 1024), now, len_of, place, start);
    let g = grow(m, input, first_n(values, 1024), now, len_of, place, start);
    assert forall|k: int| 1 <= k < g.nodes.len() implies #[trigger] g.nodes[k].id != input.id by {
        assert(g.seen.contains(g.nodes[k].id) && g.nodes[k].id != input.id);
    }
}

/// Where a run of transforms stands, as progress reports it.
#[derive(Clone, Copy, Debug, PartialEq, Eq, Structural)]
pub enum RunStatus {
    Complete,
    Error,
    Cancelled,
    Finished,
}

/// The name progress reports give a status.
pub open spec fn status_name(s: RunStatus) -> Seq<char> {
    match s {
        RunStatus::Complete => "complete"@,
        RunStatus::Error => "error"@,
        RunStatus::Cancelled => "cancelled"@,
        RunStatus::Finished => "finished"@,
    }
}

impl RunStatus {
    /// The name progress reports give this status.
    pub fn name(&self) -> (r: &'static str)
        ensures
            r@ == status_name(*self),
    {
        match self {
            RunStatus::Complete => "complete",
            RunStatus::Error => "error",
            RunStatus::Cancelled => "cancelled",
            RunStatus::Finished => "finished",
        }
    }
}

/// The count of a run: transforms done out of the total.
#[derive(Clone, Copy, Debug, PartialEq, Eq, Structural)]
pub struct Tally {
    pub done: usize,
    pub total: usize,
}

impl Tally {
    /// A run of `total` transforms, none done.
    pub fn new(total: usize) -> (t: Tally)
        ensures
            t == (Tally { done: 0, total }),
    {
        Tally { done: 0, total }
    }

    /// One more transform done, its batch committed (`ok`) or not: the
    /// status its report carries.
    pub fn record(&mut self, ok: bool) -> (r: RunStatus)
        requires
            old(self).done < usize::MAX,
        ensures
            *final(self) == (Tally { done: (old(self).done + 1) as usize, total: old(self).total }),
            r == if ok { RunStatus::Complete } else { RunStatus::Error },
    {
        self.done = self.done + 1;
        if ok { RunStatus::Complete } else { RunStatus::Error }
    }

    /// The status of the last report: cancelled or finished.
    pub fn finish(&self, cancelled: bool) -> (r: RunStatus)
        ensures
            r == if cancelled { RunStatus::Cancelled } else { RunStatus::Finished },
    {
        if cancelled { RunStatus::Cancelled } else { RunStatus::Finished }
    }
}

} // verus!
