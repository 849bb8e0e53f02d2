//! Verified core of an OSINT link-analysis engine: the entity model, the
//! in-memory graph with its memory budget, transform planning and response
//! extraction, routing policy, export framing and storage decisions.

pub mod audit;
pub mod codec;
pub mod engine;
pub mod export;
pub mod graph;
pub mod ids;
pub mod json;
pub mod model;
pub mod network;
pub mod search;
pub mod session;
pub mod storage;
pub mod text;
pub mod vault;
pub mod topology;
pub mod transform;
