# linkscope

The core of LinkScope, a local-first OSINT link-analysis tool, as a Verus
library: the functions under `src/` carry `requires`/`ensures` contracts
that Verus proves, except the small `#[verifier::external_body]` wrappers
around outside crates (`age`, `serde_json`, `url`, `uuid`, `petgraph`,
`time`, `sha2`, `zeroize`, `form_urlencoded`) and a few std calls, whose
contracts are trusted as their sources document them. `app/` wires the
library to SQLite, Tantivy, HTTP, the file system and the async runtime;
new entities get their floating-point screen position there.

## Layout

- `src/model.rs` — entities, relationships and batches: normalisation and
  name-based identifiers, merging, and the bounds a batch must respect.
- `src/graph.rs`, `src/topology.rs` — the in-memory graph with its memory
  budget and least-recently-used payload eviction, over a `petgraph`
  stable graph.
- `src/engine.rs` — coalescing the reports of one batch per identifier.
- `src/transform.rs`, `src/json.rs` — transform manifests, request URLs,
  the response parsers and the batch a response gives.
- `src/network.rs` — routing policy, cache keys, pacing, circuit breaking,
  retries and DNS-over-HTTPS bootstrap answers.
- `src/storage.rs` — paging, journal records and checksums, recovery steps,
  the poisoned-journal rule and cache bounds.
- `src/export.rs` — JSON, GraphML, STIX 2.1 and MISP export framing, XML
  escaping, and import checks.
- `src/vault.rs` — API keys by source, wiped when replaced or locked, sealed
  with age.
- `src/search.rs` — the terms and hit count of a full-text query.
- `src/audit.rs`, `src/session.rs` — audit lines and log rotation; the
  limits of the interface's requests.
- `src/text.rs`, `src/codec.rs`, `src/ids.rs` — text operations, and the
  encodings taken from `serde_json`, `sha2`, `url` and `uuid`.

Laws that relate several operations are public proof functions named
`law_*`.

The library is checked with Verus; `tests/` exercises it on concrete
values, with the real outside crates linked.
