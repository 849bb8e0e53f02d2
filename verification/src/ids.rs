//! Identifiers: name-based UUIDs for entities and relationships, and the
//! random identifiers of journal records.

use vstd::prelude::*;

verus! {

/// A lower-case hexadecimal digit.
pub open spec fn is_lower_hex(c: char) -> bool {
    ('0' <= c && c <= '9') || ('a' <= c && c <= 'f')
}

/// The hyphenated lower-case form of a UUID: 8-4-4-4-12 hexadecimal digits.
pub open spec fn is_hyphenated_uuid(s: Seq<char>) -> bool {
    &&& s.len() == 36
    &&& forall|i: int|
        0 <= i < 36 ==> if i == 8 || i == 13 || i == 18 || i == 23 {
            #[trigger] s[i] == '-'
        } else {
            is_lower_hex(s[i])
        }
}

/// The text of the version-5 UUID in the URL namespace for `name`, a SHA-1
/// based value of the name's UTF-8 bytes.
pub uninterp spec fn uuid_v5_url(name: Seq<char>) -> Seq<char>;

/// Whether `uuid::Uuid::parse_str` accepts the text.
pub uninterp spec fn uuid_accepts(text: Seq<char>) -> bool;

/// `uuid::Uuid::new_v5` in `Uuid::NAMESPACE_URL` on the UTF-8 bytes of
/// `name`, then `to_string`. The contract names the value, which depends on
/// the name alone, and states the documented shape of `to_string`: the
/// hyphenated lower-case form, which `parse_str` accepts.
#[verifier::external_body]
pub(crate) fn uuid_v5_text(name: &str) -> (r: String)
    ensures
        r@ == uuid_v5_url(name@),
        is_hyphenated_uuid(r@),
        uuid_accepts(r@),
{
    uuid::Uuid::new_v5(&uuid::Uuid::NAMESPACE_URL, name.as_bytes()).to_string()
}

/// `uuid::Uuid::parse_str(text).is_ok()`. The contract names the answer and
/// states that the hyphenated lower-case form is accepted; the other forms
/// (simple, braced, URN, upper case) are left to the name.
#[verifier::external_body]
pub(crate) fn uuid_parses(text: &str) -> (r: bool)
    ensures
        r == uuid_accepts(text@),
        is_hyphenated_uuid(text@) ==> r,
{
    uuid::Uuid::parse_str(text).is_ok()
}

/// `uuid::Uuid::new_v4().to_string()`: a random identifier. Only its shape is
/// stated; the value is random.
#[verifier::external_body]
pub(crate) fn uuid_v4_text() -> (r: String)
    ensures
        is_hyphenated_uuid(r@),
{
    uuid::Uuid::new_v4().to_string()
}

} // verus!
