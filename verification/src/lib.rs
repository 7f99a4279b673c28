pub mod bench;
pub mod bytes;
pub mod client;
pub mod engine;
pub mod index;
pub mod list;
pub mod mvcc;
pub mod server;
pub mod storage;
pub mod syntax;
pub mod text;
