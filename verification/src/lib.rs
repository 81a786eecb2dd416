//! A conflict-free replicated text engine.
//!
//! The visible document is a sequence of UTF-8 encoded bytes stored as a
//! sequence of chunks, each tagged with the peer and logical clock of its
//! insertion. Concurrent edits made by different peers are merged
//! deterministically: every peer that has received the same set of
//! operations shows the same text, whatever the arrival order.
//!
//! All mutation happens inside a transaction; committing a transaction
//! squashes adjacent same-origin chunks and produces a delta (retain /
//! insert / delete entries) describing the net effect on the visible text.

pub mod chunk;
pub mod delta;
pub mod errors;
pub mod merge;
pub mod ops;
pub mod store;
pub mod text;
