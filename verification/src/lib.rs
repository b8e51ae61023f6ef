//! An LSM-tree storage engine core: write-ahead-log records, an ordered
//! memtable, SSTable encoding and lookup, and Bloom filters, each stated
//! over a mathematical model of what it holds.

pub mod bloom;
pub mod error;
pub mod keys;
pub mod memtable;
pub mod wal;
pub mod sstable;
pub mod storage_engine;
pub mod durability;
pub mod file_names;
