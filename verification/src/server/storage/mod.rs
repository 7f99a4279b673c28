//! Tables kept in memory, each with its rows by number.
pub mod engine;
pub mod error;
pub mod persistence;
pub mod table;
pub mod types;
