//! An embedded log-structured merge (LSM) key/value storage engine core:
//! a write-ahead log with CRC-framed records, an in-memory sorted memtable
//! with exact byte accounting, immutable sorted string tables (data bytes,
//! sparse index, Bloom filter, SHA-256 checksums, metadata descriptor),
//! level-based compaction with newest-wins merging, and the lookup cascade
//! binding them together.
//!
//! The engine works over in-memory images of the on-disk files; reading and
//! writing the files themselves is left to the embedding program.

pub mod keys;
pub mod codec;
pub mod kv;
pub mod wal;
pub mod memtable;
pub mod sstable_index;
pub mod sstable_bloom_filter;
pub mod checksums;
pub mod sstable_metadata;
pub mod sstable;
pub mod lsm_storage;
pub mod config;
pub mod command;

pub use crate::kv::KeyValuePair;
pub use crate::kv::ByteString;
pub use crate::lsm_storage::LsmStorage;
