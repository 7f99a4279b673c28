//! Errors with a SQLSTATE.
use crate::engine::error::{EngineError, EngineErrorView};
use vstd::prelude::*;
use vstd::string::*;

verus! {

/// An error as a client sees it.
#[derive(Debug, PartialEq, Eq)]
pub struct PgError {
    pub code: &'static str,
    pub message: String,
}

#[verifier::ext_equal]
pub struct PgErrorView {
    pub code: Seq<char>,
    pub message: Seq<char>,
}

impl View for PgError {
    type V = PgErrorView;

    open spec fn view(&self) -> PgErrorView {
        PgErrorView { code: self.code@, message: self.message@ }
    }
}

/// The SQLSTATE of a failure.
pub open spec fn state_of(error: EngineErrorView) -> Seq<char> {
    match error {
        EngineErrorView::Syntax { .. } => "42601"@,
        EngineErrorView::TableNotFound(_) => "42P01"@,
        EngineErrorView::TableAlreadyExists(_) => "42P07"@,
        EngineErrorView::ColumnNotFound(_) => "42703"@,
        EngineErrorView::ConstraintViolation(_) => "23505"@,
        EngineErrorView::Transaction(_) => "40001"@,
        EngineErrorView::TransactionAborted => "25P02"@,
        EngineErrorView::TransactionAlreadyActive => "25000"@,
        EngineErrorView::NoActiveTransaction => "25000"@,
        EngineErrorView::Unsupported(_) => "0A000"@,
        _ => "XX000"@,
    }
}

/// The SQLSTATE of a failure.
pub fn sqlstate(error: &EngineError) -> (code: &'static str)
    ensures
        code@ == state_of(error@),
{
    match error {
        EngineError::Syntax { .. } => "42601",
        EngineError::TableNotFound(_) => "42P01",
        EngineError::TableAlreadyExists(_) => "42P07",
        EngineError::ColumnNotFound(_) => "42703",
        EngineError::ConstraintViolation(_) => "23505",
        EngineError::Transaction(_) => "40001",
        EngineError::TransactionAborted => "25P02",
        EngineError::TransactionAlreadyActive => "25000",
        EngineError::NoActiveTransaction => "25000",
        EngineError::Unsupported(_) => "0A000",
        _ => "XX000",
    }
}

} // verus!
