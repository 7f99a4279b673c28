//! The relational catalog and the execution of statements, over transactions on byte keys.
pub mod access;
pub mod admission;
pub mod answer;
pub mod changes;
pub mod codec;
pub mod constraint;
pub mod delete;
pub mod effects;
pub mod error;
pub mod exact;
pub mod expression;
pub mod float;
pub mod image;
pub mod insert;
pub mod integrity;
pub mod operators;
pub mod output;
pub mod results;
pub mod schema;
pub mod select;
pub mod session;
pub mod sort;
pub mod statement;
pub mod success;
pub mod typing;
pub mod update;
pub mod value;
pub mod world;
