//! Aggregation and persistence of personal streaming history.
//!
//! Playback records are classified by content kind, folded into an index
//! grouped by user, country, kind and three label levels, and persisted in a
//! compact, versioned and optionally DEFLATE-compressed binary format.

pub mod order;
pub mod end_stream;
pub mod compression;
pub mod codec;
pub mod index_format;
pub mod persist;
pub mod time;
