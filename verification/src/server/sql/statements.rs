//! The statements.
use crate::server::storage::types;
use crate::server::storage::types::{Column, ColumnView, Value, ValueView};
use vstd::prelude::*;
use vstd::string::*;

verus! {

pub enum Statement {
    CreateTable(CreateTableStmt),
    DropTable(DropTableStmt),
    Insert(InsertStmt),
    Select(SelectStmt),
    Delete(DeleteStmt),
}

pub struct CreateTableStmt {
    pub table_name: String,
    pub columns: Vec<Column>,
}

pub struct DropTableStmt {
    pub table_name: String,
}

pub struct InsertStmt {
    pub table_name: String,
    pub values: Vec<Value>,
}

pub struct SelectStmt {
    pub table_name: String,
    pub columns: SelectColumns,
    pub where_clause: Option<WhereClause>,
}

pub enum SelectColumns {
    All,
    Specific(Vec<String>),
}

pub struct DeleteStmt {
    pub table_name: String,
    pub where_clause: Option<WhereClause>,
}

pub struct WhereClause {
    pub condition: Condition,
}

pub enum Condition {
    Comparison { left: Expression, operator: ComparisonOp, right: Expression },
    And { left: Box<Condition>, right: Box<Condition> },
    Or { left: Box<Condition>, right: Box<Condition> },
    Not { condition: Box<Condition> },
    Parenthesized { condition: Box<Condition> },
}

pub enum Expression {
    Column(String),
    Literal(Value),
}

#[derive(Clone, Copy, Debug, PartialEq, Eq, Structural)]
pub enum ComparisonOp {
    Equal,
    NotEqual,
    LessThan,
    GreaterThan,
    LessThanOrEqual,
    GreaterThanOrEqual,
}

#[verifier::ext_equal]
pub enum ExpressionView {
    Column(Seq<char>),
    Literal(ValueView),
}

impl View for Expression {
    type V = ExpressionView;

    open spec fn view(&self) -> ExpressionView {
        match self {
            Expression::Column(name) => ExpressionView::Column(name@),
            Expression::Literal(value) => ExpressionView::Literal(value@),
        }
    }
}

#[verifier::ext_equal]
pub enum ConditionView {
    Comparison { left: ExpressionView, operator: ComparisonOp, right: ExpressionView },
    And { left: Box<ConditionView>, right: Box<ConditionView> },
    Or { left: Box<ConditionView>, right: Box<ConditionView> },
    Not { condition: Box<ConditionView> },
    Parenthesized { condition: Box<ConditionView> },
}

pub open spec fn condition_view(condition: Condition) -> ConditionView
    decreases condition,
{
    match condition {
        Condition::Comparison { left, operator, right } => ConditionView::Comparison {
            left: left@,
            operator,
            right: right@,
        },
        Condition::And { left, right } => ConditionView::And {
            left: Box::new(condition_view(*left)),
            right: Box::new(condition_view(*right)),
        },
        Condition::Or { left, right } => ConditionView::Or {
            left: Box::new(condition_view(*left)),
            right: Box::new(condition_view(*right)),
        },
        Condition::Not { condition } => ConditionView::Not {
            condition: Box::new(condition_view(*condition)),
        },
        Condition::Parenthesized { condition } => ConditionView::Parenthesized {
            condition: Box::new(condition_view(*condition)),
        },
    }
}

impl View for Condition {
    type V = ConditionView;

    open spec fn view(&self) -> ConditionView {
        condition_view(*self)
    }
}

pub open spec fn where_view(clause: Option<WhereClause>) -> Option<ConditionView> {
    match clause {
        Some(clause) => Some(clause.condition@),
        None => None,
    }
}

pub open spec fn text_views(names: Seq<String>) -> Seq<Seq<char>> {
    Seq::new(names.len(), |i: int| names[i]@)
}

/// The columns that a query names; none where it asks for all.
pub open spec fn chosen_columns(columns: SelectColumns) -> Option<Seq<Seq<char>>> {
    match columns {
        SelectColumns::All => None,
        SelectColumns::Specific(names) => Some(text_views(names@)),
    }
}

#[verifier::ext_equal]
pub enum StatementView {
    CreateTable { table_name: Seq<char>, columns: Seq<ColumnView> },
    DropTable { table_name: Seq<char> },
    Insert { table_name: Seq<char>, values: Seq<ValueView> },
    Select {
        table_name: Seq<char>,
        columns: Option<Seq<Seq<char>>>,
        condition: Option<ConditionView>,
    },
    Delete { table_name: Seq<char>, condition: Option<ConditionView> },
}

impl View for Statement {
    type V = StatementView;

    open spec fn view(&self) -> StatementView {
        match self {
            Statement::CreateTable(stmt) => StatementView::CreateTable {
                table_name: stmt.table_name@,
                columns: types::column_views(stmt.columns@),
            },
            Statement::DropTable(stmt) => StatementView::DropTable { table_name: stmt.table_name@ },
            Statement::Insert(stmt) => StatementView::Insert {
                table_name: stmt.table_name@,
                values: types::value_views(stmt.values@),
            },
            Statement::Select(stmt) => StatementView::Select {
                table_name: stmt.table_name@,
                columns: chosen_columns(stmt.columns),
                condition: where_view(stmt.where_clause),
            },
            Statement::Delete(stmt) => StatementView::Delete {
                table_name: stmt.table_name@,
                condition: where_view(stmt.where_clause),
            },
        }
    }
}

} // verus!
