//! What can go wrong with a statement.
use crate::engine::float::FloatRequest;
use crate::mvcc::error;
use crate::mvcc::error::{TransactionError, TransactionErrorView};
use crate::syntax::Span;
use crate::text::join_text;
use vstd::prelude::*;
use vstd::string::*;

verus! {

/// A statement that failed.
#[derive(Debug)]
pub enum EngineError {
    Transaction(TransactionError),
    Encoding(String),
    Syntax { message: String, span: Span },
    CorruptRecord(String),
    TableAlreadyExists(String),
    TableNotFound(String),
    InvalidSchema(String),
    InvalidRow(String),
    ColumnNotFound(String),
    ConstraintViolation(String),
    Expression(String),
    Unsupported(String),
    TransactionAlreadyActive,
    NoActiveTransaction,
    TransactionAborted,
}

#[verifier::ext_equal]
pub enum EngineErrorView {
    Transaction(TransactionErrorView),
    Encoding(Seq<char>),
    Syntax { message: Seq<char>, span: Span },
    CorruptRecord(Seq<char>),
    TableAlreadyExists(Seq<char>),
    TableNotFound(Seq<char>),
    InvalidSchema(Seq<char>),
    InvalidRow(Seq<char>),
    ColumnNotFound(Seq<char>),
    ConstraintViolation(Seq<char>),
    Expression(Seq<char>),
    Unsupported(Seq<char>),
    TransactionAlreadyActive,
    NoActiveTransaction,
    TransactionAborted,
}

impl View for EngineError {
    type V = EngineErrorView;

    open spec fn view(&self) -> EngineErrorView {
        match *self {
            EngineError::Transaction(cause) => EngineErrorView::Transaction(cause@),
            EngineError::Encoding(detail) => EngineErrorView::Encoding(detail@),
            EngineError::Syntax { message, span } => EngineErrorView::Syntax {
                message: message@,
                span,
            },
            EngineError::CorruptRecord(detail) => EngineErrorView::CorruptRecord(detail@),
            EngineError::TableAlreadyExists(name) => EngineErrorView::TableAlreadyExists(name@),
            EngineError::TableNotFound(name) => EngineErrorView::TableNotFound(name@),
            EngineError::InvalidSchema(detail) => EngineErrorView::InvalidSchema(detail@),
            EngineError::InvalidRow(detail) => EngineErrorView::InvalidRow(detail@),
            EngineError::ColumnNotFound(name) => EngineErrorView::ColumnNotFound(name@),
            EngineError::ConstraintViolation(detail) => EngineErrorView::ConstraintViolation(
                detail@,
            ),
            EngineError::Expression(detail) => EngineErrorView::Expression(detail@),
            EngineError::Unsupported(detail) => EngineErrorView::Unsupported(detail@),
            EngineError::TransactionAlreadyActive => EngineErrorView::TransactionAlreadyActive,
            EngineError::NoActiveTransaction => EngineErrorView::NoActiveTransaction,
            EngineError::TransactionAborted => EngineErrorView::TransactionAborted,
        }
    }
}

/// The text that an error is shown with.
pub open spec fn engine_message(error: EngineErrorView) -> Seq<char> {
    match error {
        EngineErrorView::Transaction(cause) => "transaction error: "@
            + error::transaction_message(cause) + ""@,
        EngineErrorView::Encoding(detail) => "catalog encoding error: "@ + detail + ""@,
        EngineErrorView::Syntax { message, span } => "SQL syntax error: "@ + message + ""@,
        EngineErrorView::CorruptRecord(detail) => "corrupt engine record: "@ + detail + ""@,
        EngineErrorView::TableAlreadyExists(name) => "table already exists: "@ + name + ""@,
        EngineErrorView::TableNotFound(name) => "table does not exist: "@ + name + ""@,
        EngineErrorView::InvalidSchema(detail) => "invalid schema: "@ + detail + ""@,
        EngineErrorView::InvalidRow(detail) => "invalid row: "@ + detail + ""@,
        EngineErrorView::ColumnNotFound(name) => "column does not exist: "@ + name + ""@,
        EngineErrorView::ConstraintViolation(detail) => "constraint violation: "@ + detail + ""@,
        EngineErrorView::Expression(detail) => "expression error: "@ + detail + ""@,
        EngineErrorView::Unsupported(detail) => "unsupported SQL feature: "@ + detail + ""@,
        EngineErrorView::TransactionAlreadyActive => "a transaction is already active"@,
        EngineErrorView::NoActiveTransaction => "there is no active transaction"@,
        EngineErrorView::TransactionAborted =>
            "the current transaction is aborted; ROLLBACK is required"@,
    }
}

impl EngineError {
    /// The error as one line of text.
    pub fn message(&self) -> (shown: String)
        ensures
            shown@ == engine_message(self@),
    {
        match self {
            EngineError::Transaction(cause) => {
                let inner = cause.message();
                join_text("transaction error: ", inner.as_str(), "")
            },
            EngineError::Encoding(detail) => join_text(
                "catalog encoding error: ",
                detail.as_str(),
                "",
            ),
            EngineError::Syntax { message, span: _ } => join_text(
                "SQL syntax error: ",
                message.as_str(),
                "",
            ),
            EngineError::CorruptRecord(detail) => join_text(
                "corrupt engine record: ",
                detail.as_str(),
                "",
            ),
            EngineError::TableAlreadyExists(name) => join_text(
                "table already exists: ",
                name.as_str(),
                "",
            ),
            EngineError::TableNotFound(name) => join_text(
                "table does not exist: ",
                name.as_str(),
                "",
            ),
            EngineError::InvalidSchema(detail) => join_text("invalid schema: ", detail.as_str(), ""),
            EngineError::InvalidRow(detail) => join_text("invalid row: ", detail.as_str(), ""),
            EngineError::ColumnNotFound(name) => join_text(
                "column does not exist: ",
                name.as_str(),
                "",
            ),
            EngineError::ConstraintViolation(detail) => join_text(
                "constraint violation: ",
                detail.as_str(),
                "",
            ),
            EngineError::Expression(detail) => join_text("expression error: ", detail.as_str(), ""),
            EngineError::Unsupported(detail) => join_text(
                "unsupported SQL feature: ",
                detail.as_str(),
                "",
            ),
            EngineError::TransactionAlreadyActive => String::from_str(
                "a transaction is already active",
            ),
            EngineError::NoActiveTransaction => String::from_str("there is no active transaction"),
            EngineError::TransactionAborted => String::from_str(
                "the current transaction is aborted; ROLLBACK is required",
            ),
        }
    }
}

/// Why a statement came to no output: it failed, or results of float operations are wanted first.
#[derive(Debug)]
pub enum Stop {
    Error(EngineError),
    Needs(Vec<FloatRequest>),
}

#[verifier::ext_equal]
pub enum StopView {
    Error(EngineErrorView),
    Needs,
}

impl View for Stop {
    type V = StopView;

    open spec fn view(&self) -> StopView {
        match *self {
            Stop::Error(cause) => StopView::Error(cause@),
            Stop::Needs(_) => StopView::Needs,
        }
    }
}

/// Whether a stop for float results wants some, and none that are known.
pub open spec fn asks_anew(stop: Stop, floats: Map<FloatRequest, u64>) -> bool {
    stop matches Stop::Needs(wanted) ==> wanted@.len() > 0 && forall|i: int|
        0 <= i < wanted@.len() ==> !floats.contains_key(#[trigger] wanted@[i])
}

pub open spec fn expression_stop(detail: &str) -> StopView {
    StopView::Error(EngineErrorView::Expression(detail@))
}

/// A failure of an expression.
pub(crate) fn expression_error(detail: &str) -> (stop: Stop)
    ensures
        stop@ == expression_stop(detail),
{
    Stop::Error(EngineError::Expression(String::from_str(detail)))
}

/// A failed transaction operation as a failed statement.
pub(crate) fn failed(cause: TransactionError) -> (stop: Stop)
    ensures
        stop@ == StopView::Error(EngineErrorView::Transaction(cause@)),
{
    Stop::Error(EngineError::Transaction(cause))
}

} // verus!
