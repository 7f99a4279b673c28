//! Durable pages: the page format, the write-ahead log and the store.
pub mod buffer_pool;
pub mod byte_lru;
pub mod data_file;
pub mod durability;
pub mod error;
pub mod group_commit;
pub mod page;
pub mod recovery;
pub mod store;
pub mod wal;
