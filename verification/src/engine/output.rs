//! What statements give back.
use crate::engine::schema::LogicalType;
use crate::engine::value;
use crate::engine::value::{Value, ValueView};
use vstd::prelude::*;
use vstd::string::*;

verus! {

#[derive(Clone, Copy, Debug, PartialEq, Eq, Structural)]
pub enum TransactionOutput {
    Begun,
    Committed,
    RolledBack,
}

/// A column of a query's result.
#[derive(Clone, Debug, PartialEq, Eq)]
pub struct OutputColumn {
    pub name: String,
    pub data_type: LogicalType,
    pub nullable: bool,
}

/// What a statement gives back.
#[derive(Clone, Debug, PartialEq, Eq)]
pub enum StatementOutput {
    Transaction(TransactionOutput),
    Command { tag: String, affected_rows: u64 },
    Query { columns: Vec<OutputColumn>, rows: Vec<Vec<Value>> },
}

#[verifier::ext_equal]
pub struct OutputColumnView {
    pub name: Seq<char>,
    pub data_type: LogicalType,
    pub nullable: bool,
}

#[verifier::ext_equal]
pub enum OutputView {
    Transaction(TransactionOutput),
    Command { tag: Seq<char>, affected_rows: u64 },
    Query { columns: Seq<OutputColumnView>, rows: Seq<Seq<ValueView>> },
}

impl View for OutputColumn {
    type V = OutputColumnView;

    open spec fn view(&self) -> OutputColumnView {
        OutputColumnView { name: self.name@, data_type: self.data_type, nullable: self.nullable }
    }
}

pub open spec fn output_columns(columns: Seq<OutputColumn>) -> Seq<OutputColumnView> {
    Seq::new(columns.len(), |i: int| columns[i]@)
}

pub open spec fn output_rows(rows: Seq<Vec<Value>>) -> Seq<Seq<ValueView>> {
    Seq::new(rows.len(), |i: int| value::value_views(rows[i]@))
}

impl View for StatementOutput {
    type V = OutputView;

    open spec fn view(&self) -> OutputView {
        match *self {
            StatementOutput::Transaction(done) => OutputView::Transaction(done),
            StatementOutput::Command { tag, affected_rows } => OutputView::Command {
                tag: tag@,
                affected_rows,
            },
            StatementOutput::Query { columns, rows } => OutputView::Query {
                columns: output_columns(columns@),
                rows: output_rows(rows@),
            },
        }
    }
}

pub open spec fn done(tag: &str, affected_rows: u64) -> OutputView {
    OutputView::Command { tag: tag@, affected_rows }
}

/// The output of a command.
pub fn command(tag: &str, affected_rows: u64) -> (output: StatementOutput)
    ensures
        output@ == done(tag, affected_rows),
{
    StatementOutput::Command { tag: String::from_str(tag), affected_rows }
}

} // verus!
