//! SQL statements as trees.
use vstd::prelude::*;

verus! {

/// A part of a statement's text: the byte offsets of its start and its end.
#[derive(Clone, Copy, Debug, PartialEq, Eq, Structural)]
pub struct Span {
    pub start: usize,
    pub end: usize,
}

/// A name of a table or a column.
#[derive(Clone, Debug, PartialEq, Eq)]
pub struct Identifier {
    pub value: String,
}

/// A constant. A float is kept as the bits of its double-precision representation.
#[derive(Clone, Debug, PartialEq, Eq)]
pub enum Literal {
    Null,
    Boolean(bool),
    Integer(i64),
    Float(u64),
    String(String),
}

#[derive(Clone, Copy, Debug, PartialEq, Eq, Structural)]
pub enum UnaryOperator {
    Not,
    Plus,
    Minus,
}

#[derive(Clone, Copy, Debug, PartialEq, Eq, Structural)]
pub enum BinaryOperator {
    Or,
    And,
    Equal,
    NotEqual,
    LessThan,
    LessThanOrEqual,
    GreaterThan,
    GreaterThanOrEqual,
    Add,
    Subtract,
    Multiply,
    Divide,
    Modulo,
}

/// An expression over the columns of one row.
#[derive(Debug, PartialEq, Eq)]
pub enum Expr {
    Identifier(Identifier),
    Literal { value: Literal },
    Unary { operator: UnaryOperator, expression: Box<Expr> },
    Binary { left: Box<Expr>, operator: BinaryOperator, right: Box<Expr> },
    IsNull { expression: Box<Expr>, negated: bool },
    Parenthesized { expression: Box<Expr> },
}

/// The declared type of a column.
#[derive(Clone, Copy, Debug, PartialEq, Eq, Structural)]
pub enum DataType {
    Boolean,
    Int64,
    Float64,
    Text { max_length: Option<u32> },
}

#[derive(Clone, Debug, PartialEq, Eq)]
pub struct ColumnDef {
    pub name: Identifier,
    pub data_type: DataType,
    pub nullable: bool,
    pub primary_key: bool,
    pub unique: bool,
}

#[derive(Clone, Debug, PartialEq, Eq)]
pub struct CreateTable {
    pub name: Identifier,
    pub if_not_exists: bool,
    pub columns: Vec<ColumnDef>,
}

#[derive(Clone, Debug, PartialEq, Eq)]
pub struct DropTable {
    pub name: Identifier,
    pub if_exists: bool,
}

#[derive(Debug, PartialEq, Eq)]
pub struct Insert {
    pub table: Identifier,
    /// The columns that values are given for; none stands for all of them.
    pub columns: Vec<Identifier>,
    pub rows: Vec<Vec<Expr>>,
}

#[derive(Debug, PartialEq, Eq)]
pub enum SelectItem {
    Wildcard,
    Expression { expression: Expr, alias: Option<Identifier> },
}

#[derive(Debug, PartialEq, Eq)]
pub struct OrderKey {
    pub expression: Expr,
    pub descending: bool,
}

#[derive(Debug, PartialEq, Eq)]
pub struct Select {
    pub projection: Vec<SelectItem>,
    pub from: Identifier,
    pub selection: Option<Expr>,
    pub order_by: Vec<OrderKey>,
    pub limit: Option<u64>,
}

#[derive(Debug, PartialEq, Eq)]
pub struct Assignment {
    pub column: Identifier,
    pub value: Expr,
}

#[derive(Debug, PartialEq, Eq)]
pub struct Update {
    pub table: Identifier,
    pub assignments: Vec<Assignment>,
    pub selection: Option<Expr>,
}

#[derive(Debug, PartialEq, Eq)]
pub struct Delete {
    pub table: Identifier,
    pub selection: Option<Expr>,
}

#[derive(Debug, PartialEq, Eq)]
pub enum Statement {
    BeginTransaction,
    Commit,
    Rollback,
    CreateTable(CreateTable),
    DropTable(DropTable),
    Insert(Insert),
    Select(Select),
    Update(Update),
    Delete(Delete),
}

} // verus!
