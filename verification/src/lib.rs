//! A read-only storage engine for the StarDict binary lexicon format, and
//! the data model of the web dictionary services around it.
//!
//! A StarDict dictionary consists of four cooperating files sharing one path
//! prefix: a metadata descriptor (`.ifo`), a sorted binary index (`.idx`), a
//! blob of entry payloads (`.dict`), and an optional synonym table (`.syn`).
//! This crate validates their internal consistency, builds a lookup
//! structure from words to byte ranges, and serves decoded entry payloads on
//! demand through a bounded decode cache. All parsing and lookup logic works
//! on plain byte buffers; reading the files from disk, like fetching and
//! decoding the web services' responses for the [`dictionary`] and [`urban`]
//! data models, is left to the caller.

use vstd::prelude::*;

pub mod bytes;
pub mod cache;
pub mod errors;
pub mod dict;
pub mod dictionary;
pub mod idx;
pub mod ifo;
pub mod stardict;
pub mod syn;
pub mod urban;

verus! {

} // verus!
