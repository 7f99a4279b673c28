//! Transactions over versions of keys: snapshots, conflicts and index generations.
pub mod database;
pub mod error;
pub mod history;
pub mod isolation;
pub mod key_map;
pub mod manifest;
pub mod prefix;
pub mod record;
pub mod recovery;
pub mod restart;
pub mod runs;
pub mod state;
pub mod transaction;
