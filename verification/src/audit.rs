//! The audit trail: a JSON-lines log of coarse session events (an event
//! name and a count, never a URL, a response, an entity or a secret),
//! rotated once it passes 2 MiB.

use vstd::prelude::*;
use std::path::PathBuf;
use crate::codec::{json_quote, json_string};
use crate::export::{decimal, decimal_spec, digits, object_json, object_text};

verus! {

#[verifier::external_type_specification]
#[verifier::external_body]
pub struct ExPathBuf(PathBuf);

/// Where audit events go: a directory, or nowhere (an ephemeral session).
pub struct Audit {
    directory: Option<PathBuf>,
}

impl Audit {
    /// The directory the log is kept in, if any.
    pub closed spec fn dir(&self) -> Option<PathBuf> {
        self.directory
    }

    /// An audit trail kept in `directory`, or none.
    pub fn new(directory: Option<PathBuf>) -> (a: Self)
        ensures
            a.dir() == directory,
    {
        Audit { directory }
    }

    /// The directory the log is kept in, if any: recording without one
    /// does nothing.
    pub fn directory(&self) -> (d: Option<&PathBuf>)
        ensures
            d == match self.dir() { Some(p) => Some(&p), None => None::<&PathBuf> },
    {
        match &self.directory {
            Some(p) => Some(p),
            None => None,
        }
    }
}

/// Whether a log of `size` bytes (`None` when there is none yet) is
/// rotated before the next event: past 2 MiB.
pub open spec fn rotates_spec(size: Option<u64>) -> bool {
    match size {
        Some(n) => n > 2 * 1024 * 1024,
        None => false,
    }
}

/// Whether the log is rotated before the next event.
pub fn rotates(size: Option<u64>) -> (r: bool)
    ensures
        r == rotates_spec(size),
{
    match size {
        Some(n) => n > 2 * 1024 * 1024,
        None => false,
    }
}

/// The line an event adds to the log: a JSON object with the time, the
/// event's name and its count, then a line feed.
pub open spec fn event_line(timestamp: i64, event: Seq<char>, count: u64) -> Seq<char> {
    object_text(seq![
        ("timestamp"@, decimal_spec(timestamp as int)),
        ("event"@, json_string(event)),
        ("count"@, digits(count as nat)),
    ]) + seq!['\n']
}

/// The line recording `event` with `count` at `timestamp`.
pub fn event_entry(timestamp: i64, event: &str, count: u64) -> (r: String)
    ensures
        r@ == event_line(timestamp, event@, count),
{
    let mut ms: Vec<(String, String)> = Vec::new();
    ms.push(("timestamp".to_owned(), decimal(timestamp)));
    ms.push(("event".to_owned(), json_quote(event)));
    ms.push(("count".to_owned(), crate::export::unsigned_decimal(count)));
    assert(crate::export::member_views(ms@) =~= seq![
        ("timestamp"@, decimal_spec(timestamp as int)),
        ("event"@, json_string(event@)),
        ("count"@, digits(count as nat)),
    ]);
    let mut r = object_json(&ms);
    r.append("\n");
    proof {
        reveal_strlit("\n");
    }
    r
}

} // verus!
