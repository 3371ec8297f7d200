//! A log-structured merge tree storage engine.
//!
//! Writes go to a sorted in-memory table; full tables are frozen and later
//! flushed into immutable sorted string tables. Reads look at every layer,
//! the newest first.
pub mod block;
pub mod buffer;
pub mod compact;
pub mod endian;
pub mod error;
pub mod file_name;
pub mod history;
pub mod iterators;
pub mod key;
pub mod lsm_iterator;
pub mod lsm_storage;
pub mod mem_table;
pub mod range;
pub mod sorted;
pub mod table;
