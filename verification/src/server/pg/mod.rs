//! The PostgreSQL wire protocol, version 3: the simple and the extended query protocol, with
//! parameters in text format.
pub mod connection;
pub mod cursor;
pub mod error;
pub mod exchange;
pub mod extended;
pub mod message;
pub mod parameters;
