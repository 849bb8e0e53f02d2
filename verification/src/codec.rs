//! Encodings taken from outside crates: JSON string literals, SHA-256,
//! URL parsing and form encoding; and lower-case hexadecimal.

use vstd::prelude::*;

verus! {

/// How `serde_json` writes a character inside a string literal: a quote and
/// a backslash escaped by a backslash; backspace, tab, line feed, form feed
/// and carriage return as `\b \t \n \f \r`; the other characters below
/// U+0020 as `\u00` and two lower-case hexadecimal digits; every other
/// character as itself.
pub open spec fn json_escape(c: char) -> Seq<char> {
    let u = c as u32;
    if c == '"' {
        seq!['\\', '"']
    } else if c == '\\' {
        seq!['\\', '\\']
    } else if u == 8 {
        seq!['\\', 'b']
    } else if u == 9 {
        seq!['\\', 't']
    } else if u == 10 {
        seq!['\\', 'n']
    } else if u == 12 {
        seq!['\\', 'f']
    } else if u == 13 {
        seq!['\\', 'r']
    } else if u < 32 {
        seq!['\\', 'u', '0', '0', hex_digit((u / 16) as u8), hex_digit((u % 16) as u8)]
    } else {
        seq![c]
    }
}

/// The characters of `s`, each escaped for a JSON string literal.
pub open spec fn json_escaped(s: Seq<char>) -> Seq<char>
    decreases s.len(),
{
    if s.len() == 0 {
        seq![]
    } else {
        json_escaped(s.drop_last()) + json_escape(s.last())
    }
}

/// The JSON string literal of `s`, as `serde_json` writes it: the escaped
/// characters between quotes.
pub open spec fn json_string(s: Seq<char>) -> Seq<char> {
    seq!['"'] + json_escaped(s) + seq!['"']
}

/// `serde_json::to_string` on a string: its JSON literal, quotes included.
/// Serialising a `str` cannot fail.
#[verifier::external_body]
pub(crate) fn json_quote(s: &str) -> (r: String)
    ensures
        r@ == json_string(s@),
{
    serde_json::to_string(s).unwrap_or_default()
}

/// The SHA-256 digest of `data`.
pub uninterp spec fn sha256_of(data: Seq<u8>) -> Seq<u8>;

/// `sha2::Sha256::digest`: the 32-byte SHA-256 digest of `data`.
#[verifier::external_body]
pub(crate) fn sha256(data: &[u8]) -> (r: Vec<u8>)
    ensures
        r@ == sha256_of(data@),
        r@.len() == 32,
{
    <sha2::Sha256 as sha2::Digest>::digest(data).to_vec()
}

/// The lower-case hexadecimal digit of a value below 16.
pub open spec fn hex_digit(v: u8) -> char {
    if v < 10 {
        (48u8 + v) as char
    } else {
        (97u8 + (v - 10)) as char
    }
}

/// The lower-case hexadecimal text of `data`, two digits per byte, as
/// `format!("{:x}", ..)` writes a digest.
pub open spec fn hex_text(data: Seq<u8>) -> Seq<char>
    decreases data.len(),
{
    if data.len() == 0 {
        seq![]
    } else {
        hex_text(data.drop_last()) + seq![hex_digit(data.last() / 16), hex_digit(data.last() % 16)]
    }
}

fn hex_char(v: u8) -> (c: char)
    requires
        v < 16,
    ensures
        c == hex_digit(v),
{
    if v < 10 {
        ((48u8 + v) as char)
    } else {
        ((97u8 + (v - 10)) as char)
    }
}

/// The lower-case hexadecimal text of `data`.
pub fn hex(data: &[u8]) -> (r: String)
    ensures
        r@ == hex_text(data@),
{
    let mut out: Vec<char> = Vec::new();
    let mut i: usize = 0;
    while i < data.len()
        invariant
            i <= data.len(),
            out@ == hex_text(data@.take(i as int)),
        decreases data.len() - i,
    {
        let b = data[i];
        let hi = hex_char(b / 16);
        let lo = hex_char(b % 16);
        assert(data@.take(i + 1).drop_last() =~= data@.take(i as int));
        out.push(hi);
        out.push(lo);
        i = i + 1;
    }
    assert(data@.take(i as int) =~= data@);
    crate::text::string_from(out.as_slice())
}

/// The parts of a parsed URL that the library reads.
pub struct UrlFacts {
    pub scheme: String,
    pub host: Option<String>,
    pub username: String,
    pub password: Option<String>,
    pub query: Option<String>,
    pub fragment: Option<String>,
    pub text: String,
}

/// Scheme, host, user name, password, query, fragment and serialisation.
pub type UrlParts = (Seq<char>, Option<Seq<char>>, Seq<char>, Option<Seq<char>>, Option<Seq<char>>, Option<Seq<char>>, Seq<char>);

/// The view of an optional string.
pub open spec fn opt_text(o: Option<String>) -> Option<Seq<char>> {
    match o {
        Some(s) => Some(s@),
        None => None,
    }
}

impl View for UrlFacts {
    type V = UrlParts;

    open spec fn view(&self) -> UrlParts {
        (self.scheme@, opt_text(self.host), self.username@, opt_text(self.password), opt_text(self.query), opt_text(self.fragment), self.text@)
    }
}

/// Why `url::Url::parse` refuses a text: the variants of
/// `url::ParseError`, and one for a variant that a later version of `url`
/// may add.
#[derive(Clone, Copy, Debug, PartialEq, Eq, Structural)]
pub enum UrlRefusal {
    EmptyHost,
    IdnaError,
    InvalidPort,
    InvalidIpv4Address,
    InvalidIpv6Address,
    InvalidDomainCharacter,
    RelativeUrlWithoutBase,
    RelativeUrlWithCannotBeABaseBase,
    SetHostOnCannotBeABaseUrl,
    Overflow,
    Unnamed,
}

/// The text `url::ParseError` displays for each refusal.
pub open spec fn url_refusal_message(e: UrlRefusal) -> Seq<char> {
    match e {
        UrlRefusal::EmptyHost => "empty host"@,
        UrlRefusal::IdnaError => "invalid international domain name"@,
        UrlRefusal::InvalidPort => "invalid port number"@,
        UrlRefusal::InvalidIpv4Address => "invalid IPv4 address"@,
        UrlRefusal::InvalidIpv6Address => "invalid IPv6 address"@,
        UrlRefusal::InvalidDomainCharacter => "invalid domain character"@,
        UrlRefusal::RelativeUrlWithoutBase => "relative URL without a base"@,
        UrlRefusal::RelativeUrlWithCannotBeABaseBase => "relative URL with a cannot-be-a-base base"@,
        UrlRefusal::SetHostOnCannotBeABaseUrl => "a cannot-be-a-base URL doesn\u{2019}t have a host to set"@,
        UrlRefusal::Overflow => "URLs more than 4 GB are not supported"@,
        UrlRefusal::Unnamed => "invalid URL"@,
    }
}

impl UrlRefusal {
    /// The text shown for this refusal.
    pub fn message(&self) -> (m: &'static str)
        ensures
            m@ == url_refusal_message(*self),
    {
        match self {
            UrlRefusal::EmptyHost => "empty host",
            UrlRefusal::IdnaError => "invalid international domain name",
            UrlRefusal::InvalidPort => "invalid port number",
            UrlRefusal::InvalidIpv4Address => "invalid IPv4 address",
            UrlRefusal::InvalidIpv6Address => "invalid IPv6 address",
            UrlRefusal::InvalidDomainCharacter => "invalid domain character",
            UrlRefusal::RelativeUrlWithoutBase => "relative URL without a base",
            UrlRefusal::RelativeUrlWithCannotBeABaseBase => "relative URL with a cannot-be-a-base base",
            UrlRefusal::SetHostOnCannotBeABaseUrl => "a cannot-be-a-base URL doesn\u{2019}t have a host to set",
            UrlRefusal::Overflow => "URLs more than 4 GB are not supported",
            UrlRefusal::Unnamed => "invalid URL",
        }
    }
}

/// What `url::Url::parse` makes of a text: its parts, or why it refuses it.
pub uninterp spec fn url_parse(s: Seq<char>) -> Result<UrlParts, UrlRefusal>;

/// `url::Url::parse`, then its `scheme`, `host_str`, `username`,
/// `password`, `query`, `fragment` and `as_str`; a refusal is told by its
/// `url::ParseError` variant. The contract names the outcome, which depends
/// on the text alone.
#[verifier::external_body]
pub(crate) fn parse_url(s: &str) -> (r: Result<UrlFacts, UrlRefusal>)
    ensures
        match r {
            Ok(f) => url_parse(s@) == Ok::<UrlParts, UrlRefusal>(f@),
            Err(e) => url_parse(s@) == Err::<UrlParts, UrlRefusal>(e),
        },
{
    match url::Url::parse(s) {
        Ok(u) => Ok(UrlFacts {
            scheme: u.scheme().to_string(),
            host: u.host_str().map(|h| h.to_string()),
            username: u.username().to_string(),
            password: u.password().map(|p| p.to_string()),
            query: u.query().map(|q| q.to_string()),
            fragment: u.fragment().map(|f| f.to_string()),
            text: u.as_str().to_string(),
        }),
        Err(e) => Err(url_refusal(e)),
    }
}

/// `url::ParseError`, carried from `url::Url::parse` to `url_refusal`.
#[verifier::external_type_specification]
#[verifier::external_body]
pub struct ExUrlParseError(url::ParseError);

/// The `UrlRefusal` variant of a `url::ParseError`, one arm each; it
/// serves `parse_url`, whose contract states the outcome.
#[verifier::external_body]
fn url_refusal(e: url::ParseError) -> UrlRefusal {
    match e {
        url::ParseError::EmptyHost => UrlRefusal::EmptyHost,
        url::ParseError::IdnaError => UrlRefusal::IdnaError,
        url::ParseError::InvalidPort => UrlRefusal::InvalidPort,
        url::ParseError::InvalidIpv4Address => UrlRefusal::InvalidIpv4Address,
        url::ParseError::InvalidIpv6Address => UrlRefusal::InvalidIpv6Address,
        url::ParseError::InvalidDomainCharacter => UrlRefusal::InvalidDomainCharacter,
        url::ParseError::RelativeUrlWithoutBase => UrlRefusal::RelativeUrlWithoutBase,
        url::ParseError::RelativeUrlWithCannotBeABaseBase => UrlRefusal::RelativeUrlWithCannotBeABaseBase,
        url::ParseError::SetHostOnCannotBeABaseUrl => UrlRefusal::SetHostOnCannotBeABaseUrl,
        url::ParseError::Overflow => UrlRefusal::Overflow,
        _ => UrlRefusal::Unnamed,
    }
}

/// An upper-case hexadecimal digit of a value below 16.
pub open spec fn upper_hex_digit(v: u8) -> char {
    if v < 10 {
        (48u8 + v) as char
    } else {
        (65u8 + (v - 10)) as char
    }
}

/// How `application/x-www-form-urlencoded` writes a byte: ASCII letters,
/// digits and `* - . _` as themselves, a space as `+`, any other byte as
/// `%` and two upper-case hexadecimal digits.
pub open spec fn form_byte(b: u8) -> Seq<char> {
    if (48 <= b <= 57) || (65 <= b <= 90) || (97 <= b <= 122) || b == 42 || b == 45 || b == 46 || b == 95 {
        seq![b as char]
    } else if b == 32 {
        seq!['+']
    } else {
        seq!['%', upper_hex_digit(b / 16), upper_hex_digit(b % 16)]
    }
}

/// The bytes `bs`, each written as `form_byte` does.
pub open spec fn form_bytes(bs: Seq<u8>) -> Seq<char>
    decreases bs.len(),
{
    if bs.len() == 0 {
        seq![]
    } else {
        form_bytes(bs.drop_last()) + form_byte(bs.last())
    }
}

/// The `application/x-www-form-urlencoded` form of a text: its UTF-8 bytes,
/// each written as `form_byte` does.
pub open spec fn form_encoded(s: Seq<char>) -> Seq<char> {
    form_bytes(vstd::utf8::encode_utf8(s))
}

/// `url::form_urlencoded::byte_serialize` on the UTF-8 bytes of `s`,
/// collected into a string.
#[verifier::external_body]
pub(crate) fn form_encode(s: &str) -> (r: String)
    ensures
        r@ == form_encoded(s@),
{
    url::form_urlencoded::byte_serialize(s.as_bytes()).collect()
}

} // verus!
