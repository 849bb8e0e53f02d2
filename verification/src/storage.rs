//! The decisions of durable storage: which tables may be paged, the
//! transaction journal's records and checksums, the recovery of a journal
//! after a crash, the refusal of writes after an ambiguous failure, and the
//! bounds of the response cache.

use vstd::prelude::*;
use crate::model::model_message;
use crate::codec::{hex, hex_text, json_quote, json_string, sha256, sha256_of};
use crate::ids::{is_hyphenated_uuid, uuid_v4_text};
use crate::export::{member_views, object_json, object_text};
use crate::model::{Batch, ModelError, batch_check};
use crate::text::same_text;

verus! {

/// Why storage refuses an operation.
#[derive(Clone, Copy, Debug, PartialEq, Eq, Structural)]
pub enum StoreError {
    InvalidTable,
    Poisoned,
    OversizedRecord,
    CorruptLog,
    ChecksumMismatch,
    CacheItemTooLarge,
    Batch(ModelError),
}

/// The message shown for a refusal.
pub open spec fn store_message(e: StoreError) -> Seq<char> {
    match e {
        StoreError::InvalidTable => "invalid table"@,
        StoreError::Poisoned => "storage requires restart/recovery after a failed commit"@,
        StoreError::OversizedRecord => "oversized transaction log record"@,
        StoreError::CorruptLog => "corrupt transaction log; recovery stopped"@,
        StoreError::ChecksumMismatch => "transaction checksum mismatch"@,
        StoreError::CacheItemTooLarge => "cache item too large"@,
        StoreError::Batch(e) => model_message(e),
    }
}

impl StoreError {
    /// The message shown for this refusal.
    pub fn message(&self) -> (m: &'static str)
        ensures
            m@ == store_message(*self),
    {
        match self {
            StoreError::InvalidTable => "invalid table",
            StoreError::Poisoned => "storage requires restart/recovery after a failed commit",
            StoreError::OversizedRecord => "oversized transaction log record",
            StoreError::CorruptLog => "corrupt transaction log; recovery stopped",
            StoreError::ChecksumMismatch => "transaction checksum mismatch",
            StoreError::CacheItemTooLarge => "cache item too large",
            StoreError::Batch(e) => e.message(),
        }
    }
}

/// The statement that reads a page of `table`, for the two tables that may
/// be paged.
pub open spec fn page_statement_spec(table: Seq<char>) -> Option<Seq<char>> {
    if table == "nodes"@ || table == "edges"@ {
        Some("SELECT rowid,data FROM "@ + table + " WHERE rowid>? ORDER BY rowid LIMIT ?"@)
    } else {
        None
    }
}

/// The statement that reads the rows of `table` after a row id, in row
/// order, up to a limit; refused for any table but `nodes` and `edges`.
pub fn page_statement(table: &str) -> (r: Result<String, StoreError>)
    ensures
        match page_statement_spec(table@) {
            Some(s) => r is Ok && r->Ok_0@ == s,
            None => r == Err::<String, StoreError>(StoreError::InvalidTable),
        },
{
    if !same_text(table, "nodes") && !same_text(table, "edges") {
        return Err(StoreError::InvalidTable);
    }
    let mut s = "SELECT rowid,data FROM ".to_owned();
    s.append(table);
    s.append(" WHERE rowid>? ORDER BY rowid LIMIT ?");
    Ok(s)
}

/// The number of rows a page holds at most: the limit asked for, but never
/// more than 512.
pub fn page_limit(limit: usize) -> (r: usize)
    ensures
        r == if limit < 512 { limit } else { 512 },
{
    if limit < 512 { limit } else { 512 }
}

/// The checksum a journal record carries for a batch whose JSON encoding is
/// `batch_json`: its SHA-256 digest in lower-case hexadecimal.
pub open spec fn checksum_spec(batch_json: Seq<u8>) -> Seq<char> {
    hex_text(sha256_of(batch_json))
}

/// The checksum of a batch whose JSON encoding is `batch_json`.
pub fn checksum(batch_json: &[u8]) -> (r: String)
    ensures
        r@ == checksum_spec(batch_json@),
{
    let d = sha256(batch_json);
    hex(d.as_slice())
}

/// The journal line of a record: its identifier, the checksum of its batch
/// and the batch (`batch_text`, its JSON encoding), then a line feed.
pub open spec fn record_line_spec(id: Seq<char>, batch_text: Seq<char>, check: Seq<char>) -> Seq<char> {
    object_text(seq![
        ("id"@, json_string(id)),
        ("checksum"@, json_string(check)),
        ("batch"@, batch_text),
    ]) + seq!['\n']
}

/// The journal line recording a batch under `id`; `batch_text` is the
/// batch's JSON encoding and `batch_json` the same as bytes.
pub fn record_line(id: &str, batch_text: &str, batch_json: &[u8]) -> (r: String)
    ensures
        r@ == record_line_spec(id@, batch_text@, checksum_spec(batch_json@)),
{
    let check = checksum(batch_json);
    let mut ms: Vec<(String, String)> = Vec::new();
    ms.push(("id".to_owned(), json_quote(id)));
    ms.push(("checksum".to_owned(), json_quote(check.as_str())));
    ms.push(("batch".to_owned(), batch_text.to_owned()));
    assert(member_views(ms@) =~= seq![
        ("id"@, json_string(id@)),
        ("checksum"@, json_string(check@)),
        ("batch"@, batch_text@),
    ]);
    let mut r = object_json(&ms);
    r.append("\n");
    proof {
        reveal_strlit("\n");
    }
    r
}

/// Whether writes are refused: set before a commit's first durable effect
/// and cleared once it has completed, so that after an ambiguous failure
/// nothing more is written until the journal is replayed.
pub struct Journal {
    poisoned: bool,
}

impl Journal {
    /// Whether writes are refused.
    pub closed spec fn is_poisoned(&self) -> bool {
        self.poisoned
    }

    /// A journal that accepts writes.
    pub fn new() -> (j: Journal)
        ensures
            !j.is_poisoned(),
    {
        Journal { poisoned: false }
    }

    /// Starts a commit of `batch`: refused while poisoned and when the batch
    /// fails its check (`encoded_len` and `node_lens` being the lengths of
    /// the JSON encodings of the batch and of its nodes); else poisoned
    /// until `finish`.
    pub fn begin(&mut self, batch: &Batch, encoded_len: usize, node_lens: &Vec<usize>) -> (r: Result<(), StoreError>)
        requires
            node_lens.len() == batch.nodes.len(),
        ensures
            old(self).is_poisoned() ==> r == Err::<(), StoreError>(StoreError::Poisoned) && final(self).is_poisoned(),
            !old(self).is_poisoned() ==> match batch_check(batch@, encoded_len as nat, node_lens@) {
                Err(e) => r == Err::<(), StoreError>(StoreError::Batch(e)) && !final(self).is_poisoned(),
                Ok(()) => r is Ok && final(self).is_poisoned(),
            },
    {
        if self.poisoned {
            return Err(StoreError::Poisoned);
        }
        match batch.validate(encoded_len, node_lens) {
            Err(e) => Err(StoreError::Batch(e)),
            Ok(()) => {
                self.poisoned = true;
                Ok(())
            },
        }
    }

    /// Starts a commit of `batch` as `begin` does, and gives the journal
    /// record to write first: a fresh random identifier and its line (see
    /// `record_line_spec`); `batch_text` is the batch's JSON encoding and
    /// `batch_json` the same as bytes.
    pub fn begin_record(
        &mut self,
        batch: &Batch,
        batch_text: &str,
        batch_json: &[u8],
        encoded_len: usize,
        node_lens: &Vec<usize>,
    ) -> (r: Result<(String, String), StoreError>)
        requires
            node_lens.len() == batch.nodes.len(),
        ensures
            old(self).is_poisoned() ==> r == Err::<(String, String), StoreError>(StoreError::Poisoned) && final(self).is_poisoned(),
            !old(self).is_poisoned() ==> match batch_check(batch@, encoded_len as nat, node_lens@) {
                Err(e) => r == Err::<(String, String), StoreError>(StoreError::Batch(e)) && !final(self).is_poisoned(),
                Ok(()) => r is Ok && final(self).is_poisoned() && is_hyphenated_uuid(r->Ok_0.0@)
                    && r->Ok_0.1@ == record_line_spec(r->Ok_0.0@, batch_text@, checksum_spec(batch_json@)),
            },
    {
        match self.begin(batch, encoded_len, node_lens) {
            Err(e) => Err(e),
            Ok(()) => {
                let id = uuid_v4_text();
                let line = record_line(id.as_str(), batch_text, batch_json);
                Ok((id, line))
            },
        }
    }

    /// Ends a commit whose effects all completed: writes are accepted again.
    pub fn finish(&mut self)
        ensures
            !final(self).is_poisoned(),
    {
        self.poisoned = false;
    }
}

/// The longest journal line recovery reads: 4 MiB.
pub const RECORD_LIMIT: usize = 4194304;

/// What recovery does with the next read of the journal.
#[derive(Clone, Copy, Debug, PartialEq, Eq, Structural)]
pub enum Step {
    /// Nothing more was read: recovery is complete.
    Done,
    /// A line without its line feed was cut short by a crash: the journal is
    /// truncated at this offset and recovery is complete.
    Truncate(u64),
    /// A full line: a record to check and apply.
    Record,
}

/// What recovery does with a read of `len` bytes (at most 4 MiB, up to and
/// including a line feed), `complete` telling whether it ended in one, at
/// `offset` bytes into the journal: refused when a line is too long.
pub open spec fn step_spec(len: nat, complete: bool, offset: u64) -> Result<Step, StoreError> {
    if len == 0 {
        Ok(Step::Done)
    } else if !complete {
        if len >= RECORD_LIMIT { Err(StoreError::OversizedRecord) } else { Ok(Step::Truncate(offset)) }
    } else {
        Ok(Step::Record)
    }
}

/// Replaying the journal: the offset just past the last record applied.
pub struct Recovery {
    offset: u64,
}

impl Recovery {
    /// The offset just past the last record applied.
    pub closed spec fn at(&self) -> u64 {
        self.offset
    }

    /// Recovery from the start of the journal.
    pub fn new() -> (r: Recovery)
        ensures
            r.at() == 0,
    {
        Recovery { offset: 0 }
    }

    /// The offset just past the last record applied.
    pub fn offset(&self) -> (r: u64)
        ensures
            r == self.at(),
    {
        self.offset
    }

    /// What to do with the bytes `line` read next.
    pub fn step(&self, line: &[u8]) -> (r: Result<Step, StoreError>)
        ensures
            r == step_spec(line@.len(), line@.len() > 0 && line@.last() == 10u8, self.at()),
    {
        let n = line.len();
        if n == 0 {
            return Ok(Step::Done);
        }
        if line[n - 1] != 10u8 {
            if n >= RECORD_LIMIT {
                return Err(StoreError::OversizedRecord);
            }
            return Ok(Step::Truncate(self.offset));
        }
        Ok(Step::Record)
    }

    /// Checks a record read as a line of `len` bytes, which carried
    /// `check` as its checksum and the batch `batch` (`batch_json` being
    /// its JSON encoding, `encoded_len` and `node_lens` the lengths of the
    /// encodings of the batch and its nodes): refused when the checksum
    /// differs or the batch fails its check; else the record is to be
    /// applied and the offset moves past it.
    pub fn check(
        &mut self,
        len: u64,
        check: &str,
        batch_json: &[u8],
        batch: &Batch,
        encoded_len: usize,
        node_lens: &Vec<usize>,
    ) -> (r: Result<(), StoreError>)
        requires
            node_lens.len() == batch.nodes.len(),
            old(self).at() + len <= u64::MAX,
        ensures
            checksum_spec(batch_json@) != check@ ==> r == Err::<(), StoreError>(StoreError::ChecksumMismatch)
                && final(self).at() == old(self).at(),
            checksum_spec(batch_json@) == check@ ==> match batch_check(batch@, encoded_len as nat, node_lens@) {
                Err(e) => r == Err::<(), StoreError>(StoreError::Batch(e)) && final(self).at() == old(self).at(),
                Ok(()) => r is Ok && final(self).at() == old(self).at() + len,
            },
    {
        let actual = checksum(batch_json);
        if !same_text(actual.as_str(), check) {
            return Err(StoreError::ChecksumMismatch);
        }
        match batch.validate(encoded_len, node_lens) {
            Err(e) => Err(StoreError::Batch(e)),
            Ok(()) => {
                self.offset = self.offset + len;
                Ok(())
            },
        }
    }
}

/// The largest response the cache keeps: 2 MiB.
pub const CACHE_ITEM_LIMIT: usize = 2097152;

/// The most the cache holds in all: 32 MiB.
pub const CACHE_LIMIT: i64 = 33554432;

/// Whether a response of `len` bytes may be cached.
pub fn cache_admits(len: usize) -> (r: Result<(), StoreError>)
    ensures
        r == if len > CACHE_ITEM_LIMIT { Err::<(), StoreError>(StoreError::CacheItemTooLarge) } else { Ok(()) },
{
    if len > CACHE_ITEM_LIMIT {
        Err(StoreError::CacheItemTooLarge)
    } else {
        Ok(())
    }
}

/// Whether the oldest entries must go before a response of `len` bytes
/// joins a cache holding `size` bytes: while the total would pass 32 MiB.
pub fn cache_needs_room(size: i64, len: usize) -> (r: bool)
    requires
        len <= CACHE_ITEM_LIMIT,
    ensures
        r == (size + len > CACHE_LIMIT),
{
    if size > CACHE_LIMIT {
        true
    } else {
        size + len as i64 > CACHE_LIMIT
    }
}

/// When an entry cached at `now` for `ttl` seconds expires: the lifetime
/// is held between one second and one day.
pub fn cache_expiry(now: i64, ttl: i64) -> (r: i64)
    requires
        now <= i64::MAX - 86400,
    ensures
        r == now + if ttl < 1 { 1 } else if ttl > 86400 { 86400 } else { ttl },
{
    let life: i64 = if ttl < 1 { 1 } else if ttl > 86400 { 86400 } else { ttl };
    now + life
}

} // verus!
