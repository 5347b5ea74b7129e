//! A minimal embedded persistent key-value store built on an append-only log
//! with an in-memory offset index.
//!
//! The store keeps the full log as a byte sequence. Each record is framed as
//! a fixed 12-byte header (CRC-32 checksum, key length, value length, each a
//! 4-byte little-endian word) followed by the raw key and value bytes.
//! The index maps key bytes to the offset of that key's most recent record;
//! it is rebuilt by scanning the log from the start. Overwrites and
//! deletions append new records rather than touching old bytes, so the log
//! only grows; compaction (rewriting the log to keep only the last record
//! per key) is a named extension point deliberately left out of the engine.
//!
//! Reading the log image from a file and appending new bytes to it are the
//! surrounding program's work: the engine takes the bytes, decides, and
//! hands bytes back.

use vstd::prelude::*;

pub mod cli;
pub mod codec;
pub mod index;
pub mod laws;
pub mod store;

verus! {

} // verus!
