//! An append-only key-value log.
//!
//! The log is a run of records with nothing between them. A record is
//!
//! ```text
//! key_len (4 bytes, little-endian) | value_len (4 bytes, little-endian) | key | value
//! ```
//!
//! - [`codec`] turns an entry into a record and reads one record back from a
//!   cursor. A cursor at the end of the bytes is a clean end of the stream; a
//!   record that claims more bytes than are left is corrupt.
//! - [`log`] appends records and answers point lookups by decoding the
//!   records from the start. Keys are never overwritten: where a key was put
//!   more than once, a lookup returns the entry that was put first.
//! - [`lemmas`] proves what holds of every log: round trips, the order of a
//!   scan, hits and misses of a lookup, and what a truncated tail does.
//! - [`command`] reads a line of an interactive session as a request.
//! - [`bytes`] holds the helpers on byte strings.

pub mod bytes;
pub mod codec;
pub mod command;
pub mod lemmas;
pub mod log;
