//! A persistent, single-node, embeddable key-value store built on a
//! log-structured storage engine.
//!
//! The engine works on the contents of a single append-only data file,
//! held here as a vector of bytes: every mutation appends one encoded
//! record, an in-memory index maps each live key to the offset of its
//! most recent `PUT` record, and a compaction pass rewrites the log to
//! contain exactly one record per live key.  Reading the file at open,
//! appending after a write, and swapping files after compaction are the
//! caller's concern; the engine fixes what the bytes mean.

pub mod big_endian;
pub mod codec;
pub mod error;
pub mod index;
pub mod kv_store;
pub mod replay;
pub mod storage;
pub mod text;

pub use codec::{CmdType, Entry};
pub use error::KvsError;
pub use kv_store::KvStore;
pub use storage::{Bitcask, Storage};
