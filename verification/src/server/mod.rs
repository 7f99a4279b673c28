//! The network server's rules: configuration, requests and responses, and the wire protocols.
pub mod config;
pub mod error;
pub mod frame;
pub mod http;
pub mod net;
pub mod pg;
pub mod protocol;
pub mod service;
pub mod serving;
pub mod sql;
pub mod storage;
