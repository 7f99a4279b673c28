//! Immutable B+ trees over byte-string keys, kept in pages.
pub mod cache;
pub mod compact;
pub mod contents;
pub mod editor;
pub mod edits;
pub mod error;
pub mod finish;
pub mod key;
pub mod model;
pub mod node;
pub mod pages;
pub mod plan;
pub mod range;
pub mod read;
pub mod steps;
pub mod tree;
pub mod verify;
