//! An embeddable, single-node key-value storage engine organised as a
//! log-structured merge tree: a write-ahead log, an in-memory sorted table,
//! immutable sorted tables with an index and a bloom filter, and a compaction
//! merge. Everything here works on values in memory; reading and writing
//! files is left to the caller.

pub mod bloom;
pub mod codec;
pub mod compaction;
pub mod engine;
pub mod keys;
pub mod memtable;
pub mod sstable;
pub mod wal;
