//! Statements on the tables kept in memory: their form, how they are read and how they are executed.
pub mod statements;
pub mod executor;
pub mod guard;
pub mod meaning;
pub mod parser;
pub mod tree;
pub mod wording;
