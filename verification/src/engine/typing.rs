//! What the types of expressions promise about their values.
use crate::engine::expression;
use crate::engine::float::FloatRequest;
use crate::engine::schema;
use crate::engine::schema::{ColumnView, LogicalType, TableView};
use crate::engine::value;
use crate::engine::value::ValueView;
use crate::syntax::Expr;
use vstd::prelude::*;

verus! {

/// Whether a value is NULL or of a type.
pub open spec fn like(value: ValueView, data_type: LogicalType) -> bool {
    value is Null || (data_type != LogicalType::Unknown && schema::has_type(value, data_type))
}

/// Whether all columns have a type.
pub open spec fn typed(columns: Seq<ColumnView>) -> bool {
    forall|i: int| 0 <= i < columns.len() ==> (#[trigger] columns[i]).data_type
        != LogicalType::Unknown
}

pub proof fn lemma_position(columns: Seq<ColumnView>, name: Seq<char>, at: int)
    requires
        0 <= at,
    ensures
        schema::position_from(columns, name, at) matches Some(found) ==> at <= found
            < columns.len() && columns[found].name == name,
    decreases columns.len() - at,
{
    if at < columns.len() {
        lemma_position(columns, name, at + 1);
    }
}

/// A table made by CREATE TABLE has a type for every column.
pub proof fn law_created_columns_are_typed(id: u64, create: crate::syntax::CreateTable)
    ensures
        schema::created(id, create) matches Ok(table) ==> typed(table.columns),
{
}

/// The value of an expression has the type that is inferred for it, and is NULL only where that is
/// inferred to be possible.
pub proof fn law_inferred_types_hold(
    expr: Expr,
    table: TableView,
    row: Seq<ValueView>,
    floats: Map<FloatRequest, u64>,
)
    requires
        typed(table.columns),
        schema::row_refused(table, row) is None,
        expression::evaluated(expr, table.columns, row, floats) is Ok,
        expression::inferred(expr, table.columns) is Ok,
    ensures
        like(
            expression::evaluated(expr, table.columns, row, floats)->Ok_0,
            expression::inferred(expr, table.columns)->Ok_0.0,
        ),
        expression::evaluated(expr, table.columns, row, floats)->Ok_0 is Null
            ==> expression::inferred(expr, table.columns)->Ok_0.1,
    decreases expr,
{
    match expr {
        Expr::Identifier(identifier) => {
            lemma_position(table.columns, identifier.value@, 0);
            let at = schema::position_from(table.columns, identifier.value@, 0)->Some_0;
            schema::law_accepted_rows(table, row, at);
        },
        Expr::Literal { value } => {},
        Expr::Parenthesized { expression } => {
            law_inferred_types_hold(*expression, table, row, floats);
        },
        Expr::IsNull { expression, negated } => {},
        Expr::Unary { operator, expression } => {
            law_inferred_types_hold(*expression, table, row, floats);
        },
        Expr::Binary { left, operator, right } => {
            law_inferred_types_hold(*left, table, row, floats);
            law_inferred_types_hold(*right, table, row, floats);
        },
    }
}

} // verus!
