//! A key-value storage engine on a log-structured merge tree (LSM tree).
//!
//! - [`memtable`]: the sorted table in memory that takes all writes.
//! - [`wal`]: the write-ahead log that every write is appended to before it
//!   reaches the memtable, and its replay after a crash.
//! - [`sstable`]: the immutable sorted file that a memtable is flushed into, with
//!   a sparse index and a Bloom filter, which are kept in memory; [`block`] is its
//!   data block, which stays on disk.
//! - [`bloom`]: the Bloom filter, which spares a lookup the tables that do not
//!   have the key.
//! - [`compaction`]: the merge of all tables into one, in which overwritten
//!   values and tombstones are dropped; [`merge`] does it with a part of each table
//!   at a time, and [`queue`] is the heap that it takes the next entry from.
//! - [`lsm`]: [`LsmTree`], the store itself.
//!
//! The store does no input or output. It says what is to be done to its data
//! directory, and is told when that has been done; [`state`] describes these
//! steps and what the store holds, [`store`] how much of that is in memory, and
//! [`recovery`] what a crash between or during them leaves behind. [`laws`] states
//! what the operations do as a caller sees it. [`names`] says what the files of a
//! data directory are called. [`entry`], [`order`] and [`bytes`] are what the others
//! are written in terms of: what a table says of keys, the order of keys, and integers
//! in bytes.

pub mod block;
pub mod bloom;
pub mod bytes;
pub mod compaction;
pub mod entry;
pub mod laws;
pub mod lsm;
pub mod memtable;
pub mod merge;
pub mod names;
pub mod order;
pub mod queue;
pub mod recovery;
pub mod sstable;
pub mod state;
pub mod store;
pub mod wal;

pub use bloom::BloomFilter;
pub use lsm::{LsmOptions, LsmTree};
pub use sstable::SsTable;
pub use wal::WalRecord;
