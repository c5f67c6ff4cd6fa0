//! The log-structured merge tree: keys, values and entries, the in-memory
//! table, sorted runs on disk, the write-ahead log and the engine over them.

pub mod iterator;
pub mod lsm;
pub mod manifest;
pub mod memtable;
pub mod relations;
pub mod sstable;
pub mod types;
pub mod versions;
pub mod wal;

pub use iterator::MergeIterator;
pub use lsm::{LsmConfig, LsmStats, LsmTree};
pub use memtable::MemTable;
pub use sstable::{SSTableReader, SSTableWriter};
pub use types::{Entry, Key, SeqNum, Value};
