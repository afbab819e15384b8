//! A source-map engine: maps positions in generated text back to positions in
//! original source text.
//!
//! The engine decodes the standard JSON source-map wire format (version 3,
//! with its base64-VLQ delta-encoded `mappings` field) into an immutable
//! in-memory document, answers position queries over it by binary search, and
//! round-trips the document through a compact private binary form (memdb)
//! that can be reloaded without a JSON parse.

pub mod document;
pub mod errors;
pub mod json;
pub mod mappings;
pub mod memdb;
pub mod sort;
pub mod view;
pub mod vlq;
