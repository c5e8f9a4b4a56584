//! A small record store for short timestamped notes ("thoughts").
//!
//! Records live in memory as an ordered sequence; the store assigns
//! monotonically increasing identifiers, filters by tag substring, and
//! reads and writes a comma-separated, line-delimited text format.

pub mod clock;
pub mod codec;
pub mod config;
pub mod digits;
pub mod store;
pub mod text;
pub mod thought;
