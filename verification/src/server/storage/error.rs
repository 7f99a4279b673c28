//! Failures of the tables kept in memory.
use crate::text::join_text;
use vstd::prelude::*;
use vstd::string::*;

verus! {

#[derive(Clone, Debug, PartialEq, Eq)]
pub enum QuantaError {
    QueryError(String),
    TableNotFound(String),
    ColumnNotFound(String),
    SqlParseError(String),
    StorageError(String),
    SerializationError(String),
}

#[verifier::ext_equal]
pub enum QuantaErrorView {
    QueryError(Seq<char>),
    TableNotFound(Seq<char>),
    ColumnNotFound(Seq<char>),
    SqlParseError(Seq<char>),
    StorageError(Seq<char>),
    SerializationError(Seq<char>),
}

impl View for QuantaError {
    type V = QuantaErrorView;

    open spec fn view(&self) -> QuantaErrorView {
        match self {
            QuantaError::QueryError(detail) => QuantaErrorView::QueryError(detail@),
            QuantaError::TableNotFound(name) => QuantaErrorView::TableNotFound(name@),
            QuantaError::ColumnNotFound(name) => QuantaErrorView::ColumnNotFound(name@),
            QuantaError::SqlParseError(detail) => QuantaErrorView::SqlParseError(detail@),
            QuantaError::StorageError(detail) => QuantaErrorView::StorageError(detail@),
            QuantaError::SerializationError(detail) => QuantaErrorView::SerializationError(detail@),
        }
    }
}

/// What a client is told of a failure.
pub open spec fn quanta_message(error: QuantaErrorView) -> Seq<char> {
    match error {
        QuantaErrorView::QueryError(detail) => "Query error: "@ + detail + ""@,
        QuantaErrorView::TableNotFound(name) => "Table not found: "@ + name + ""@,
        QuantaErrorView::ColumnNotFound(name) => "Column not found: "@ + name + ""@,
        QuantaErrorView::SqlParseError(detail) => "SQL parse error: "@ + detail + ""@,
        QuantaErrorView::StorageError(detail) => "Storage error: "@ + detail + ""@,
        QuantaErrorView::SerializationError(detail) => "Serialization error: "@ + detail + ""@,
    }
}

impl QuantaError {
    /// What a client is told of the failure.
    pub fn message(&self) -> (message: String)
        ensures
            message@ == quanta_message(self@),
    {
        match self {
            QuantaError::QueryError(detail) => join_text("Query error: ", detail.as_str(), ""),
            QuantaError::TableNotFound(name) => join_text("Table not found: ", name.as_str(), ""),
            QuantaError::ColumnNotFound(name) => join_text("Column not found: ", name.as_str(), ""),
            QuantaError::SqlParseError(detail) => join_text(
                "SQL parse error: ",
                detail.as_str(),
                "",
            ),
            QuantaError::StorageError(detail) => join_text("Storage error: ", detail.as_str(), ""),
            QuantaError::SerializationError(detail) => join_text(
                "Serialization error: ",
                detail.as_str(),
                "",
            ),
        }
    }
}

} // verus!
