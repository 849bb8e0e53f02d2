//! The rules of a desktop session: the memory budget, the requests the
//! interface may make, which transforms a run takes, and export file names.

use vstd::prelude::*;
use crate::export::{decimal, decimal_spec, format_named, ExportFormat};
use crate::model::{finite_bits, texts, utf8_len};
use crate::transform::{Manifest, ManifestView};
use crate::text::same_text;

verus! {

/// Why a request of the interface is refused.
#[derive(Clone, Copy, Debug, PartialEq, Eq, Structural)]
pub enum SessionError {
    MemoryBudget,
    TooManyPositions,
    InvalidCoordinates,
    InvalidKeySize,
    QueryTooLong,
    NoTransforms,
    UnsupportedFormat,
}

/// The message shown for a refusal.
pub open spec fn session_message(e: SessionError) -> Seq<char> {
    match e {
        SessionError::MemoryBudget => "memory budget must be 256–4096 MiB"@,
        SessionError::TooManyPositions => "position batch exceeds 256 nodes"@,
        SessionError::InvalidCoordinates => "invalid coordinates"@,
        SessionError::InvalidKeySize => "invalid key size"@,
        SessionError::QueryTooLong => "query too long"@,
        SessionError::NoTransforms => "no compatible transforms selected"@,
        SessionError::UnsupportedFormat => "unsupported format"@,
    }
}

impl SessionError {
    /// The message shown for this refusal.
    pub fn message(&self) -> (m: &'static str)
        ensures
            m@ == session_message(*self),
    {
        match self {
            SessionError::MemoryBudget => "memory budget must be 256–4096 MiB",
            SessionError::TooManyPositions => "position batch exceeds 256 nodes",
            SessionError::InvalidCoordinates => "invalid coordinates",
            SessionError::InvalidKeySize => "invalid key size",
            SessionError::QueryTooLong => "query too long",
            SessionError::NoTransforms => "no compatible transforms selected",
            SessionError::UnsupportedFormat => "unsupported format",
        }
    }
}

/// The graph's share of a memory budget of `memory_mb` MiB: a third;
/// refused outside 256 to 4096 MiB.
pub fn graph_budget(memory_mb: usize) -> (r: Result<usize, SessionError>)
    ensures
        256 <= memory_mb <= 4096 ==> r == Ok::<usize, SessionError>((memory_mb * 1024 * 1024 / 3) as usize),
        !(256 <= memory_mb <= 4096) ==> r == Err::<usize, SessionError>(SessionError::MemoryBudget),
{
    if memory_mb < 256 || memory_mb > 4096 {
        return Err(SessionError::MemoryBudget);
    }
    let bytes: u64 = (memory_mb as u64) * 1048576 / 3;
    Ok(bytes as usize)
}

/// Whether a batch of `count` moved entities is accepted: at most 256.
pub fn positions_ok(count: usize) -> (r: Result<(), SessionError>)
    ensures
        r == if count > 256 { Err::<(), SessionError>(SessionError::TooManyPositions) } else { Ok(()) },
{
    if count > 256 {
        Err(SessionError::TooManyPositions)
    } else {
        Ok(())
    }
}

/// Whether a position, as `f32` bit patterns, is finite.
pub fn coordinates_ok(x: u32, y: u32) -> (r: Result<(), SessionError>)
    ensures
        r == if finite_bits(x) && finite_bits(y) { Ok::<(), SessionError>(()) } else { Err(SessionError::InvalidCoordinates) },
{
    if (x >> 23u32) & 0xffu32 != 0xffu32 && (y >> 23u32) & 0xffu32 != 0xffu32 {
        Ok(())
    } else {
        Err(SessionError::InvalidCoordinates)
    }
}

/// Whether a key may be stored for a source: a source name of at most 64
/// bytes and a key of at most 4096.
pub fn key_sizes_ok(source: &str, key: &str) -> (r: Result<(), SessionError>)
    ensures
        r == if utf8_len(source@) > 64 || utf8_len(key@) > 4096 { Err::<(), SessionError>(SessionError::InvalidKeySize) } else { Ok(()) },
{
    if source.len() > 64 || key.len() > 4096 {
        Err(SessionError::InvalidKeySize)
    } else {
        Ok(())
    }
}

/// Whether a search query is accepted: at most 512 bytes.
pub fn query_ok(q: &str) -> (r: Result<(), SessionError>)
    ensures
        r == if utf8_len(q@) > 512 { Err::<(), SessionError>(SessionError::QueryTooLong) } else { Ok(()) },
{
    if q.len() > 512 {
        Err(SessionError::QueryTooLong)
    } else {
        Ok(())
    }
}

/// Whether a run for an entity of `kind`, with the transforms `sources`
/// chosen, takes the transform `m`: it must take that kind and be chosen.
pub open spec fn selected_spec(m: ManifestView, kind: Seq<char>, sources: Seq<Seq<char>>) -> bool {
    m.input == kind && sources.contains(m.id)
}

/// Whether a run takes the transform `m`.
pub fn selected(m: &Manifest, kind: &str, sources: &Vec<String>) -> (r: bool)
    ensures
        r == selected_spec(m@, kind@, texts(sources@)),
{
    if !same_text(m.input.as_str(), kind) {
        return false;
    }
    let mut i: usize = 0;
    while i < sources.len()
        invariant
            m@.input == kind@,
            i <= sources.len(),
            forall|j: int| 0 <= j < i ==> sources@[j]@ != m@.id,
        decreases sources.len() - i,
    {
        if same_text(sources[i].as_str(), m.id.as_str()) {
            assert(texts(sources@)[i as int] == m@.id);
            return true;
        }
        i = i + 1;
    }
    assert forall|j: int| 0 <= j < texts(sources@).len() implies texts(sources@)[j] != m@.id by {
        assert(texts(sources@)[j] == sources@[j]@);
    }
    false
}

/// The indices of the transforms a run takes, in order; refused when it
/// would take none.
pub fn select(manifests: &Vec<Manifest>, kind: &str, sources: &Vec<String>) -> (r: Result<Vec<usize>, SessionError>)
    ensures
        match r {
            Ok(v) => v@.len() > 0
                && (forall|j: int| 0 <= j < v@.len() ==> #[trigger] v@[j] < manifests@.len() && selected_spec(manifests@[v@[j] as int]@, kind@, texts(sources@)))
                && (forall|j: int, k: int| 0 <= j < k < v@.len() ==> #[trigger] v@[j] < #[trigger] v@[k])
                && (forall|i: int| 0 <= i < manifests@.len() && selected_spec(#[trigger] manifests@[i]@, kind@, texts(sources@)) ==> v@.contains(i as usize)),
            Err(e) => e == SessionError::NoTransforms
                && forall|i: int| 0 <= i < manifests@.len() ==> !selected_spec(#[trigger] manifests@[i]@, kind@, texts(sources@)),
        },
{
    let mut v: Vec<usize> = Vec::new();
    let mut i: usize = 0;
    while i < manifests.len()
        invariant
            i <= manifests.len(),
            forall|j: int| 0 <= j < v@.len() ==> #[trigger] v@[j] < i && selected_spec(manifests@[v@[j] as int]@, kind@, texts(sources@)),
            forall|j: int, k: int| 0 <= j < k < v@.len() ==> #[trigger] v@[j] < #[trigger] v@[k],
            forall|q: int| 0 <= q < i && selected_spec(#[trigger] manifests@[q]@, kind@, texts(sources@)) ==> v@.contains(q as usize),
        decreases manifests.len() - i,
    {
        if selected(&manifests[i], kind, sources) {
            let ghost before = v@;
            v.push(i);
            assert forall|q: int| 0 <= q < i + 1 && selected_spec(#[trigger] manifests@[q]@, kind@, texts(sources@)) implies v@.contains(q as usize) by {
                if q < i {
                    let w = choose|w: int| 0 <= w < before.len() && before[w] == q as usize;
                    assert(v@[w] == q as usize);
                } else {
                    assert(v@[before.len() as int] == q as usize);
                }
            }
        }
        i = i + 1;
    }
    if v.len() == 0 {
        assert forall|q: int| 0 <= q < manifests@.len() implies !selected_spec(#[trigger] manifests@[q]@, kind@, texts(sources@)) by {
            if selected_spec(manifests@[q]@, kind@, texts(sources@)) {
                assert(v@.contains(q as usize));
            }
        }
        return Err(SessionError::NoTransforms);
    }
    Ok(v)
}

/// The name of an export file written at `now` in `format`:
/// `investigation-<now>-<format>.<graphml or json>`.
pub open spec fn export_name_spec(now: i64, format: Seq<char>) -> Seq<char> {
    "investigation-"@ + decimal_spec(now as int) + "-"@ + format + "."@
        + if format == "graphml"@ { "graphml"@ } else { "json"@ }
}

/// The name of an export file written at `now` in the format named
/// `format`; refused for an unknown format.
pub fn export_file_name(now: i64, format: &str) -> (r: Result<String, SessionError>)
    ensures
        match format_named(format@) {
            Some(_) => r is Ok && r->Ok_0@ == export_name_spec(now, format@),
            None => r == Err::<String, SessionError>(SessionError::UnsupportedFormat),
        },
{
    let f = match crate::export::export_format(format) {
        Ok(f) => f,
        Err(_) => return Err(SessionError::UnsupportedFormat),
    };
    let mut name = "investigation-".to_owned();
    name.append(decimal(now).as_str());
    name.append("-");
    name.append(format);
    name.append(".");
    if f == ExportFormat::Graphml {
        name.append("graphml");
    } else {
        name.append("json");
    }
    proof {
        reveal_strlit("json");
        reveal_strlit("graphml");
        if f == ExportFormat::Graphml {
            assert(format@ == "graphml"@);
        } else {
            assert(format@ != "graphml"@);
        }
    }
    Ok(name)
}

} // verus!
