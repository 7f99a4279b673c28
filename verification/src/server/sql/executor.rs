//! Executes statements on the tables kept in memory.
use crate::engine::float;
use crate::engine::float::{
    not_a_number, rank_of, FloatOperation, FloatRequest, FloatTable, SIGN,
};
use crate::engine::value as engine_value;
use crate::engine::value::{copy_text, order_text};
use crate::index::key::KeyOrder;
use crate::server::sql::statements;
use crate::server::sql::statements::{
    ComparisonOp, Condition, ConditionView, CreateTableStmt, DeleteStmt, DropTableStmt, Expression,
    ExpressionView, InsertStmt, SelectColumns, SelectStmt, Statement, WhereClause,
};
use crate::server::storage::engine;
use crate::server::storage::engine::{EngineView, StorageEngine};
use crate::server::storage::error::{QuantaError, QuantaErrorView};
use crate::server::storage::persistence::PersistedTable;
use crate::server::storage::table;
use crate::server::storage::types;
use crate::server::storage::types::{Column, ColumnView, Row, Schema, Value, ValueView};
use crate::text;
use crate::text::{join_text, text_with_number};
use vstd::prelude::*;
use vstd::string::*;

verus! {

/// The bits of the distance under which two floats count as equal.
pub const EPSILON_BITS: u64 = 0x3cb0_0000_0000_0000;

/// What a client gets of a statement.
pub struct QueryResult {
    pub success: bool,
    pub message: String,
    pub data: Option<Vec<Row>>,
    pub affected_rows: Option<usize>,
}

#[verifier::ext_equal]
pub struct ResultView {
    pub success: bool,
    pub message: Seq<char>,
    pub data: Option<Seq<Seq<ValueView>>>,
    pub affected_rows: Option<nat>,
}

pub open spec fn row_views(rows: Seq<Row>) -> Seq<Seq<ValueView>> {
    Seq::new(rows.len(), |i: int| rows[i]@)
}

impl View for QueryResult {
    type V = ResultView;

    open spec fn view(&self) -> ResultView {
        ResultView {
            success: self.success,
            message: self.message@,
            data: match self.data {
                Some(rows) => Some(row_views(rows@)),
                None => None,
            },
            affected_rows: match self.affected_rows {
                Some(count) => Some(count as nat),
                None => None,
            },
        }
    }
}

/// Why a statement did not come to its end.
pub enum QueryStop {
    Error(QuantaError),
    /// The difference of two floats must be known first.
    Needs(FloatRequest),
}

#[verifier::ext_equal]
pub enum QueryStopView {
    Error(QuantaErrorView),
    Needs(FloatRequest),
}

impl View for QueryStop {
    type V = QueryStopView;

    open spec fn view(&self) -> QueryStopView {
        match self {
            QueryStop::Error(error) => QueryStopView::Error(error@),
            QueryStop::Needs(request) => QueryStopView::Needs(*request),
        }
    }
}

/// What is to be done about the files that keep the tables.
pub enum Disk {
    Nothing,
    Save(PersistedTable),
    Delete(String),
}

pub open spec fn difference(left: u64, right: u64) -> FloatRequest {
    FloatRequest { operation: FloatOperation::Subtract, left, right }
}

/// A number without its sign.
pub open spec fn distance(bits: u64) -> u64 {
    if bits < SIGN {
        bits
    } else {
        (bits - SIGN) as u64
    }
}

/// How two ordered values compare.
pub open spec fn holds(operator: ComparisonOp, less: bool, same: bool) -> bool {
    match operator {
        ComparisonOp::Equal => same,
        ComparisonOp::NotEqual => !same,
        ComparisonOp::LessThan => less,
        ComparisonOp::GreaterThan => !less && !same,
        ComparisonOp::LessThanOrEqual => less || same,
        ComparisonOp::GreaterThanOrEqual => !less,
    }
}

/// How two floats compare: nothing holds of what is no number, and numbers that are close count as
/// equal.
pub open spec fn floats_compared(
    left: u64,
    operator: ComparisonOp,
    right: u64,
    floats: Map<FloatRequest, u64>,
) -> Result<bool, QueryStopView> {
    let numbers = !float::is_nan(left) && !float::is_nan(right);
    match operator {
        ComparisonOp::Equal | ComparisonOp::NotEqual => {
            let request = difference(left, right);
            if !floats.contains_key(request) {
                Err(QueryStopView::Needs(request))
            } else {
                let bits = floats[request];
                Ok(
                    !float::is_nan(bits) && (operator == ComparisonOp::Equal) == (distance(bits)
                        < EPSILON_BITS),
                )
            }
        },
        ComparisonOp::LessThan => Ok(numbers && float::rank(left) < float::rank(right)),
        ComparisonOp::GreaterThan => Ok(numbers && float::rank(left) > float::rank(right)),
        ComparisonOp::LessThanOrEqual => Ok(numbers && float::rank(left) <= float::rank(right)),
        ComparisonOp::GreaterThanOrEqual => Ok(numbers && float::rank(left) >= float::rank(right)),
    }
}

/// How two values compare.
pub open spec fn compared(
    left: ValueView,
    operator: ComparisonOp,
    right: ValueView,
    floats: Map<FloatRequest, u64>,
) -> Result<bool, QueryStopView> {
    match (left, right) {
        (ValueView::Int(l), ValueView::Int(r)) => Ok(holds(operator, l < r, l == r)),
        (ValueView::Text(l), ValueView::Text(r)) => Ok(
            holds(operator, engine_value::text_before(l, r), l == r),
        ),
        (ValueView::Bool(l), ValueView::Bool(r)) => match operator {
            ComparisonOp::Equal => Ok(l == r),
            ComparisonOp::NotEqual => Ok(l != r),
            _ => Err(
                QueryStopView::Error(
                    QuantaErrorView::QueryError("Boolean comparison only supports = and !="@),
                ),
            ),
        },
        (ValueView::Float(l), ValueView::Float(r)) => floats_compared(l, operator, r, floats),
        _ => Err(
            QueryStopView::Error(QuantaErrorView::QueryError("Type mismatch in comparison"@)),
        ),
    }
}

/// The value of an expression in a row.
pub open spec fn evaluated(
    expression: ExpressionView,
    row: Seq<ValueView>,
    columns: Seq<ColumnView>,
) -> Result<ValueView, QueryStopView> {
    match expression {
        ExpressionView::Column(name) => match types::value_named(row, name, columns) {
            Some(value) => Ok(value),
            None => Err(QueryStopView::Error(QuantaErrorView::ColumnNotFound(name))),
        },
        ExpressionView::Literal(value) => Ok(value),
    }
}

/// Whether a row meets a condition; what stands behind a side that decides is not looked at.
pub open spec fn met(
    condition: ConditionView,
    row: Seq<ValueView>,
    columns: Seq<ColumnView>,
    floats: Map<FloatRequest, u64>,
) -> Result<bool, QueryStopView>
    decreases condition,
{
    match condition {
        ConditionView::Comparison { left, operator, right } => match evaluated(left, row, columns) {
            Err(stop) => Err(stop),
            Ok(first) => match evaluated(right, row, columns) {
                Err(stop) => Err(stop),
                Ok(second) => compared(first, operator, second, floats),
            },
        },
        ConditionView::And { left, right } => match met(*left, row, columns, floats) {
            Err(stop) => Err(stop),
            Ok(false) => Ok(false),
            Ok(true) => met(*right, row, columns, floats),
        },
        ConditionView::Or { left, right } => match met(*left, row, columns, floats) {
            Err(stop) => Err(stop),
            Ok(true) => Ok(true),
            Ok(false) => met(*right, row, columns, floats),
        },
        ConditionView::Not { condition } => match met(*condition, row, columns, floats) {
            Err(stop) => Err(stop),
            Ok(yes) => Ok(!yes),
        },
        ConditionView::Parenthesized { condition } => met(*condition, row, columns, floats),
    }
}

pub type Pairs = Seq<(u64, Seq<ValueView>)>;

/// The rows that meet a condition, in their order.
pub open spec fn filtered(
    rows: Pairs,
    condition: Option<ConditionView>,
    columns: Seq<ColumnView>,
    floats: Map<FloatRequest, u64>,
) -> Result<Pairs, QueryStopView>
    decreases rows.len(),
{
    match condition {
        None => Ok(rows),
        Some(test) => if rows.len() == 0 {
            Ok(Seq::empty())
        } else {
            match filtered(rows.drop_last(), condition, columns, floats) {
                Err(stop) => Err(stop),
                Ok(front) => match met(test, rows.last().1, columns, floats) {
                    Err(stop) => Err(stop),
                    Ok(true) => Ok(front.push(rows.last())),
                    Ok(false) => Ok(front),
                },
            }
        },
    }
}

/// The values of a row in the first of some columns.
pub open spec fn picked(
    row: Seq<ValueView>,
    names: Seq<Seq<char>>,
    columns: Seq<ColumnView>,
) -> Result<Seq<ValueView>, QueryStopView>
    decreases names.len(),
{
    if names.len() == 0 {
        Ok(Seq::empty())
    } else {
        match picked(row, names.drop_last(), columns) {
            Err(stop) => Err(stop),
            Ok(front) => match types::value_named(row, names.last(), columns) {
                Some(value) => Ok(front.push(value)),
                None => Err(QueryStopView::Error(QuantaErrorView::ColumnNotFound(names.last()))),
            },
        }
    }
}

/// The values of rows in some columns, or in all.
pub open spec fn projected(
    rows: Pairs,
    names: Option<Seq<Seq<char>>>,
    columns: Seq<ColumnView>,
) -> Result<Seq<Seq<ValueView>>, QueryStopView>
    decreases rows.len(),
{
    if rows.len() == 0 {
        Ok(Seq::empty())
    } else {
        match projected(rows.drop_last(), names, columns) {
            Err(stop) => Err(stop),
            Ok(front) => match names {
                None => Ok(front.push(rows.last().1)),
                Some(names) => match picked(rows.last().1, names, columns) {
                    Err(stop) => Err(stop),
                    Ok(values) => Ok(front.push(values)),
                },
            },
        }
    }
}

/// What a query gives of rows in an order.
pub open spec fn selected(
    rows: Pairs,
    names: Option<Seq<Seq<char>>>,
    condition: Option<ConditionView>,
    columns: Seq<ColumnView>,
    floats: Map<FloatRequest, u64>,
) -> Result<Seq<Seq<ValueView>>, QueryStopView> {
    match filtered(rows, condition, columns, floats) {
        Err(stop) => Err(stop),
        Ok(kept) => projected(kept, names, columns),
    }
}

pub open spec fn ids_of(rows: Pairs) -> Seq<u64> {
    Seq::new(rows.len(), |i: int| rows[i].0)
}

pub open spec fn success(
    message: Seq<char>,
    data: Option<Seq<Seq<ValueView>>>,
    affected_rows: Option<nat>,
) -> ResultView {
    ResultView { success: true, message, data, affected_rows }
}

/// What a query that found rows tells its client.
pub open spec fn select_result(rows: Seq<Seq<ValueView>>) -> ResultView {
    success(
        "Query executed successfully, "@ + text::decimal(rows.len()) + " rows returned"@,
        Some(rows),
        None,
    )
}

/// What a deletion tells its client.
pub open spec fn delete_result(count: nat) -> ResultView {
    success(""@ + text::decimal(count) + " rows deleted"@, None, Some(count))
}

/// A query finds only rows that meet its condition, each as it stands in the table, and all of them
/// where no row stops it.
pub proof fn law_filter_is_exact(
    rows: Pairs,
    condition: ConditionView,
    columns: Seq<ColumnView>,
    floats: Map<FloatRequest, u64>,
)
    requires
        filtered(rows, Some(condition), columns, floats) is Ok,
    ensures
        forall|i: int|
            0 <= i < filtered(rows, Some(condition), columns, floats)->Ok_0.len() ==> rows.contains(
                #[trigger] filtered(rows, Some(condition), columns, floats)->Ok_0[i],
            ) && met(
                condition,
                filtered(rows, Some(condition), columns, floats)->Ok_0[i].1,
                columns,
                floats,
            ) == Ok::<bool, QueryStopView>(true),
        forall|i: int|
            0 <= i < rows.len() && met(condition, (#[trigger] rows[i]).1, columns, floats) == Ok::<
                bool,
                QueryStopView,
            >(true) ==> filtered(rows, Some(condition), columns, floats)->Ok_0.contains(rows[i]),
    decreases rows.len(),
{
    if rows.len() > 0 {
        let front = rows.drop_last();
        law_filter_is_exact(front, condition, columns, floats);
        let before = filtered(front, Some(condition), columns, floats)->Ok_0;
        let kept = filtered(rows, Some(condition), columns, floats)->Ok_0;
        assert(rows[rows.len() - 1] == rows.last());
        assert forall|i: int| 0 <= i < kept.len() implies rows.contains(#[trigger] kept[i]) && met(
            condition,
            kept[i].1,
            columns,
            floats,
        ) == Ok::<bool, QueryStopView>(true) by {
            if i < before.len() {
                assert(kept[i] == before[i]);
                assert(front.contains(before[i]));
                let j = choose|j: int| 0 <= j < front.len() && front[j] == before[i];
                assert(rows[j] == kept[i]);
            }
        }
        assert forall|i: int|
            0 <= i < rows.len() && met(condition, (#[trigger] rows[i]).1, columns, floats) == Ok::<
                bool,
                QueryStopView,
            >(true) implies kept.contains(rows[i]) by {
            if i < front.len() {
                assert(front[i] == rows[i]);
                assert(before.contains(front[i]));
                let j = choose|j: int| 0 <= j < before.len() && before[j] == front[i];
                assert(kept[j] == rows[i]);
            } else {
                assert(kept[kept.len() - 1] == rows[i]);
            }
        }
    }
}

fn query_error(detail: &str) -> (stop: QueryStop)
    ensures
        stop@ == QueryStopView::Error(QuantaErrorView::QueryError(detail@)),
{
    QueryStop::Error(QuantaError::QueryError(String::from_str(detail)))
}

fn operator_holds(operator: ComparisonOp, less: bool, same: bool) -> (yes: bool)
    ensures
        yes == holds(operator, less, same),
{
    match operator {
        ComparisonOp::Equal => same,
        ComparisonOp::NotEqual => !same,
        ComparisonOp::LessThan => less,
        ComparisonOp::GreaterThan => !less && !same,
        ComparisonOp::LessThanOrEqual => less || same,
        ComparisonOp::GreaterThanOrEqual => !less,
    }
}

fn compare_floats(left: u64, operator: ComparisonOp, right: u64, floats: &FloatTable) -> (yes:
    Result<bool, QueryStop>)
    requires
        floats.wf(),
    ensures
        match yes {
            Ok(yes) => floats_compared(left, operator, right, floats@) == Ok::<
                bool,
                QueryStopView,
            >(yes),
            Err(stop) => floats_compared(left, operator, right, floats@) == Err::<
                bool,
                QueryStopView,
            >(stop@),
        },
{
    let numbers = !not_a_number(left) && !not_a_number(right);
    match operator {
        ComparisonOp::LessThan => Ok(numbers && rank_of(left) < rank_of(right)),
        ComparisonOp::GreaterThan => Ok(numbers && rank_of(left) > rank_of(right)),
        ComparisonOp::LessThanOrEqual => Ok(numbers && rank_of(left) <= rank_of(right)),
        ComparisonOp::GreaterThanOrEqual => Ok(numbers && rank_of(left) >= rank_of(right)),
        _ => {
            let request = FloatRequest { operation: FloatOperation::Subtract, left, right };
            match floats.result(request) {
                None => Err(QueryStop::Needs(request)),
                Some(bits) => {
                    let apart: u64 = if bits < SIGN {
                        bits
                    } else {
                        bits - SIGN
                    };
                    let close = apart < EPSILON_BITS;
                    Ok(!not_a_number(bits) && (operator == ComparisonOp::Equal) == close)
                },
            }
        },
    }
}

/// How two values compare.
pub fn compare_values(
    left: &Value,
    operator: ComparisonOp,
    right: &Value,
    floats: &FloatTable,
) -> (yes: Result<bool, QueryStop>)
    requires
        floats.wf(),
    ensures
        match yes {
            Ok(yes) => compared(left@, operator, right@, floats@) == Ok::<bool, QueryStopView>(yes),
            Err(stop) => compared(left@, operator, right@, floats@) == Err::<bool, QueryStopView>(
                stop@,
            ),
        },
{
    match (left, right) {
        (Value::Int(l), Value::Int(r)) => Ok(operator_holds(operator, *l < *r, *l == *r)),
        (Value::Text(l), Value::Text(r)) => {
            let order = order_text(l.as_str(), r.as_str());
            Ok(
                operator_holds(
                    operator,
                    matches!(order, KeyOrder::Before),
                    matches!(order, KeyOrder::Same),
                ),
            )
        },
        (Value::Bool(l), Value::Bool(r)) => match operator {
            ComparisonOp::Equal => Ok(*l == *r),
            ComparisonOp::NotEqual => Ok(*l != *r),
            _ => Err(query_error("Boolean comparison only supports = and !=")),
        },
        (Value::Float(l), Value::Float(r)) => compare_floats(*l, operator, *r, floats),
        _ => Err(query_error("Type mismatch in comparison")),
    }
}

/// The value of an expression in a row.
pub fn evaluate_expression(expression: &Expression, row: &Row, schema: &Schema) -> (value: Result<
    Value,
    QueryStop,
>)
    ensures
        match value {
            Ok(value) => evaluated(expression@, row@, schema@) == Ok::<ValueView, QueryStopView>(
                value@,
            ),
            Err(stop) => evaluated(expression@, row@, schema@) == Err::<ValueView, QueryStopView>(
                stop@,
            ),
        },
{
    match expression {
        Expression::Column(name) => match row.get_value_by_name(name.as_str(), &schema.columns) {
            Some(value) => Ok(value.copy()),
            None => Err(QueryStop::Error(QuantaError::ColumnNotFound(copy_text(name)))),
        },
        Expression::Literal(value) => Ok(value.copy()),
    }
}

/// Whether a row meets a condition.
pub fn evaluate_condition(condition: &Condition, row: &Row, schema: &Schema, floats: &FloatTable)
    -> (yes: Result<bool, QueryStop>)
    requires
        floats.wf(),
    ensures
        match yes {
            Ok(yes) => met(condition@, row@, schema@, floats@) == Ok::<bool, QueryStopView>(yes),
            Err(stop) => met(condition@, row@, schema@, floats@) == Err::<bool, QueryStopView>(
                stop@,
            ),
        },
    decreases condition,
{
    match condition {
        Condition::Comparison { left, operator, right } => {
            let first = match evaluate_expression(left, row, schema) {
                Err(stop) => {
                    return Err(stop);
                },
                Ok(value) => value,
            };
            let second = match evaluate_expression(right, row, schema) {
                Err(stop) => {
                    return Err(stop);
                },
                Ok(value) => value,
            };
            compare_values(&first, *operator, &second, floats)
        },
        Condition::And { left, right } => match evaluate_condition(left, row, schema, floats) {
            Err(stop) => Err(stop),
            Ok(false) => Ok(false),
            Ok(true) => evaluate_condition(right, row, schema, floats),
        },
        Condition::Or { left, right } => match evaluate_condition(left, row, schema, floats) {
            Err(stop) => Err(stop),
            Ok(true) => Ok(true),
            Ok(false) => evaluate_condition(right, row, schema, floats),
        },
        Condition::Not { condition } => match evaluate_condition(condition, row, schema, floats) {
            Err(stop) => Err(stop),
            Ok(yes) => Ok(!yes),
        },
        Condition::Parenthesized { condition } => evaluate_condition(
            condition,
            row,
            schema,
            floats,
        ),
    }
}

proof fn lemma_filter_stops(
    rows: Pairs,
    condition: ConditionView,
    columns: Seq<ColumnView>,
    floats: Map<FloatRequest, u64>,
    few: int,
)
    requires
        0 <= few <= rows.len(),
        filtered(rows.take(few), Some(condition), columns, floats) is Err,
    ensures
        filtered(rows, Some(condition), columns, floats) == filtered(
            rows.take(few),
            Some(condition),
            columns,
            floats,
        ),
    decreases rows.len(),
{
    if few == rows.len() {
        assert(rows.take(few) =~= rows);
    } else {
        assert(rows.drop_last().take(few) =~= rows.take(few));
        lemma_filter_stops(rows.drop_last(), condition, columns, floats, few);
    }
}

/// The rows that meet a condition, in their order.
pub fn filter_rows(
    rows: &Vec<(u64, Row)>,
    clause: &Option<WhereClause>,
    schema: &Schema,
    floats: &FloatTable,
) -> (kept: Result<Vec<(u64, Row)>, QueryStop>)
    requires
        floats.wf(),
    ensures
        match kept {
            Ok(kept) => filtered(
                table::pair_views(rows@),
                statements::where_view(*clause),
                schema@,
                floats@,
            ) == Ok::<Pairs, QueryStopView>(table::pair_views(kept@)),
            Err(stop) => filtered(
                table::pair_views(rows@),
                statements::where_view(*clause),
                schema@,
                floats@,
            ) == Err::<Pairs, QueryStopView>(stop@),
        },
{
    let ghost views = table::pair_views(rows@);
    let mut kept: Vec<(u64, Row)> = Vec::new();
    let length: usize = rows.len();
    let mut index: usize = 0;
    match clause {
        None => {
            while index < length
                invariant
                    index <= length == rows@.len(),
                    views == table::pair_views(rows@),
                    table::pair_views(kept@) == views.take(index as int),
                decreases length - index,
            {
                let ghost before = table::pair_views(kept@);
                kept.push((rows[index].0, rows[index].1.copy()));
                assert(table::pair_views(kept@) =~= before.push(views[index as int]));
                assert(views.take(index + 1) =~= before.push(views[index as int]));
                index = index + 1;
            }
            assert(views.take(length as int) =~= views);
            Ok(kept)
        },
        Some(wanted) => {
            let ghost test = wanted.condition@;
            assert(views.take(0) =~= Seq::empty());
            assert(table::pair_views(kept@) =~= Seq::empty());
            while index < length
                invariant
                    index <= length == rows@.len(),
                    views == table::pair_views(rows@),
                    floats.wf(),
                    test == wanted.condition@,
                    statements::where_view(*clause) == Some(test),
                    filtered(views.take(index as int), Some(test), schema@, floats@) == Ok::<
                        Pairs,
                        QueryStopView,
                    >(table::pair_views(kept@)),
                decreases length - index,
            {
                let ghost before = table::pair_views(kept@);
                let ghost more = views.take(index + 1);
                proof {
                    assert(more.drop_last() =~= views.take(index as int));
                    assert(more.last() == views[index as int]);
                }
                match evaluate_condition(&wanted.condition, &rows[index].1, schema, floats) {
                    Err(stop) => {
                        proof {
                            lemma_filter_stops(views, test, schema@, floats@, index + 1);
                        }
                        return Err(stop);
                    },
                    Ok(true) => {
                        kept.push((rows[index].0, rows[index].1.copy()));
                        assert(table::pair_views(kept@) =~= before.push(more.last()));
                    },
                    Ok(false) => {},
                }
                index = index + 1;
            }
            assert(views.take(length as int) =~= views);
            Ok(kept)
        },
    }
}

proof fn lemma_pick_stops(
    row: Seq<ValueView>,
    names: Seq<Seq<char>>,
    columns: Seq<ColumnView>,
    few: int,
)
    requires
        0 <= few <= names.len(),
        picked(row, names.take(few), columns) is Err,
    ensures
        picked(row, names, columns) == picked(row, names.take(few), columns),
    decreases names.len(),
{
    if few == names.len() {
        assert(names.take(few) =~= names);
    } else {
        assert(names.drop_last().take(few) =~= names.take(few));
        lemma_pick_stops(row, names.drop_last(), columns, few);
    }
}

fn pick_columns(row: &Row, names: &Vec<String>, schema: &Schema) -> (values: Result<
    Row,
    QueryStop,
>)
    ensures
        match values {
            Ok(values) => picked(row@, statements::text_views(names@), schema@) == Ok::<
                Seq<ValueView>,
                QueryStopView,
            >(values@),
            Err(stop) => picked(row@, statements::text_views(names@), schema@) == Err::<
                Seq<ValueView>,
                QueryStopView,
            >(stop@),
        },
{
    let ghost views = statements::text_views(names@);
    let mut values: Vec<Value> = Vec::new();
    let length: usize = names.len();
    let mut index: usize = 0;
    assert(views.take(0) =~= Seq::empty());
    assert(types::value_views(values@) =~= Seq::empty());
    while index < length
        invariant
            index <= length == names@.len(),
            views == statements::text_views(names@),
            picked(row@, views.take(index as int), schema@) == Ok::<Seq<ValueView>, QueryStopView>(
                types::value_views(values@),
            ),
        decreases length - index,
    {
        let ghost before = types::value_views(values@);
        let ghost more = views.take(index + 1);
        proof {
            assert(more.drop_last() =~= views.take(index as int));
            assert(more.last() == names@[index as int]@);
        }
        match row.get_value_by_name(names[index].as_str(), &schema.columns) {
            Some(value) => {
                values.push(value.copy());
                assert(types::value_views(values@) =~= before.push(value@));
            },
            None => {
                proof {
                    lemma_pick_stops(row@, views, schema@, index + 1);
                }
                return Err(QueryStop::Error(QuantaError::ColumnNotFound(copy_text(&names[index]))));
            },
        }
        index = index + 1;
    }
    assert(views.take(length as int) =~= views);
    Ok(Row::new(values))
}

proof fn lemma_project_stops(
    rows: Pairs,
    names: Option<Seq<Seq<char>>>,
    columns: Seq<ColumnView>,
    few: int,
)
    requires
        0 <= few <= rows.len(),
        projected(rows.take(few), names, columns) is Err,
    ensures
        projected(rows, names, columns) == projected(rows.take(few), names, columns),
    decreases rows.len(),
{
    if few == rows.len() {
        assert(rows.take(few) =~= rows);
    } else {
        assert(rows.drop_last().take(few) =~= rows.take(few));
        lemma_project_stops(rows.drop_last(), names, columns, few);
    }
}

/// The values of rows in some columns, or in all.
pub fn select_columns(rows: &Vec<(u64, Row)>, columns: &SelectColumns, schema: &Schema) -> (values:
    Result<Vec<Row>, QueryStop>)
    ensures
        match values {
            Ok(values) => projected(
                table::pair_views(rows@),
                statements::chosen_columns(*columns),
                schema@,
            ) == Ok::<Seq<Seq<ValueView>>, QueryStopView>(row_views(values@)),
            Err(stop) => projected(
                table::pair_views(rows@),
                statements::chosen_columns(*columns),
                schema@,
            ) == Err::<Seq<Seq<ValueView>>, QueryStopView>(stop@),
        },
{
    let ghost views = table::pair_views(rows@);
    let ghost names = statements::chosen_columns(*columns);
    let mut values: Vec<Row> = Vec::new();
    let length: usize = rows.len();
    let mut index: usize = 0;
    assert(views.take(0) =~= Seq::empty());
    assert(row_views(values@) =~= Seq::empty());
    while index < length
        invariant
            index <= length == rows@.len(),
            views == table::pair_views(rows@),
            names == statements::chosen_columns(*columns),
            projected(views.take(index as int), names, schema@) == Ok::<
                Seq<Seq<ValueView>>,
                QueryStopView,
            >(row_views(values@)),
        decreases length - index,
    {
        let ghost before = row_views(values@);
        let ghost more = views.take(index + 1);
        proof {
            assert(more.drop_last() =~= views.take(index as int));
            assert(more.last() == views[index as int]);
        }
        let next = match columns {
            SelectColumns::All => rows[index].1.copy(),
            SelectColumns::Specific(wanted) => match pick_columns(&rows[index].1, wanted, schema) {
                Ok(next) => next,
                Err(stop) => {
                    proof {
                        lemma_project_stops(views, names, schema@, index + 1);
                    }
                    return Err(stop);
                },
            },
        };
        let ghost added = next@;
        values.push(next);
        assert(row_views(values@) =~= before.push(added));
        index = index + 1;
    }
    assert(views.take(length as int) =~= views);
    Ok(values)
}

fn ids(rows: &Vec<(u64, Row)>) -> (list: Vec<u64>)
    ensures
        list@ == ids_of(table::pair_views(rows@)),
{
    let mut list: Vec<u64> = Vec::new();
    let length: usize = rows.len();
    let mut index: usize = 0;
    while index < length
        invariant
            index <= length == rows@.len(),
            list@ == ids_of(table::pair_views(rows@)).take(index as int),
        decreases length - index,
    {
        list.push(rows[index].0);
        assert(list@ =~= ids_of(table::pair_views(rows@)).take(index + 1));
        index = index + 1;
    }
    assert(list@ =~= ids_of(table::pair_views(rows@)));
    list
}

/// Whether an outcome of a query is right: some order of the rows gives it.
pub open spec fn is_selection(
    outcome: Result<ResultView, QueryStopView>,
    state: EngineView,
    table_name: Seq<char>,
    names: Option<Seq<Seq<char>>>,
    condition: Option<ConditionView>,
    floats: Map<FloatRequest, u64>,
) -> bool {
    if !state.tables.contains_key(table_name) {
        outcome == Err::<ResultView, QueryStopView>(
            QueryStopView::Error(engine::not_found(table_name)),
        )
    } else {
        exists|rows: Pairs|
            #![trigger table::is_listing(rows, state.tables[table_name].rows)]
            table::is_listing(rows, state.tables[table_name].rows) && outcome == (match selected(
                rows,
                names,
                condition,
                state.tables[table_name].schema,
                floats,
            ) {
                Ok(values) => Ok::<ResultView, QueryStopView>(select_result(values)),
                Err(stop) => Err(stop),
            })
    }
}

/// Whether an outcome of a deletion, and the tables after it, are right: some order of the rows gives
/// them.
pub open spec fn is_deletion(
    outcome: Result<ResultView, QueryStopView>,
    after: EngineView,
    state: EngineView,
    table_name: Seq<char>,
    condition: Option<ConditionView>,
    floats: Map<FloatRequest, u64>,
) -> bool {
    if !state.tables.contains_key(table_name) {
        outcome == Err::<ResultView, QueryStopView>(
            QueryStopView::Error(engine::not_found(table_name)),
        ) && after == state
    } else {
        exists|rows: Pairs|
            #![trigger table::is_listing(rows, state.tables[table_name].rows)]
            table::is_listing(rows, state.tables[table_name].rows) && match filtered(
                rows,
                condition,
                state.tables[table_name].schema,
                floats,
            ) {
                Ok(gone) => {
                    &&& outcome == Ok::<ResultView, QueryStopView>(
                        delete_result(
                            engine::removed_count(state.tables[table_name], ids_of(gone)),
                        ),
                    )
                    &&& after == (EngineView {
                        tables: state.tables.insert(
                            table_name,
                            engine::without_rows(state.tables[table_name], ids_of(gone)),
                        ),
                        ..state
                    })
                },
                Err(stop) => outcome == Err::<ResultView, QueryStopView>(stop) && after == state,
            }
    }
}

pub open spec fn outcome_view(outcome: Result<QueryResult, QueryStop>) -> Result<
    ResultView,
    QueryStopView,
> {
    match outcome {
        Ok(result) => Ok(result@),
        Err(stop) => Err(stop@),
    }
}

fn done(message: String, affected_rows: Option<usize>) -> (result: QueryResult)
    ensures
        result@ == success(
            message@,
            None,
            match affected_rows {
                Some(count) => Some(count as nat),
                None => None,
            },
        ),
{
    QueryResult { success: true, message, data: None, affected_rows }
}

/// Executes statements on tables.
pub struct QueryExecutor {
    storage: StorageEngine,
}

impl View for QueryExecutor {
    type V = EngineView;

    closed spec fn view(&self) -> EngineView {
        self.storage@
    }
}

/// What a statement does to the tables, what it tells its client, and what it means for the files,
/// are right.
pub open spec fn is_execution(
    statement: statements::StatementView,
    state: EngineView,
    after: EngineView,
    outcome: Result<ResultView, QueryStopView>,
    disk: Disk,
    floats: Map<FloatRequest, u64>,
) -> bool {
    match statement {
        statements::StatementView::CreateTable { table_name, columns } => match engine::table_created(
            state,
            table_name,
            columns,
        ) {
            Ok(created) => {
                &&& after == created
                &&& outcome == Ok::<ResultView, QueryStopView>(
                    success("Table '"@ + table_name + "' created successfully"@, None, None),
                )
                &&& engine::saves(saved_table(disk), after, table_name)
                &&& disk !is Delete
            },
            Err(error) => {
                &&& after == state
                &&& outcome == Err::<ResultView, QueryStopView>(QueryStopView::Error(error))
                &&& disk is Nothing
            },
        },
        statements::StatementView::DropTable { table_name } => match engine::table_dropped(
            state,
            table_name,
        ) {
            Ok(dropped) => {
                &&& after == dropped
                &&& outcome == Ok::<ResultView, QueryStopView>(
                    success("Table '"@ + table_name + "' dropped successfully"@, None, None),
                )
                &&& if state.persistent {
                    disk matches Disk::Delete(name) && name@ == table_name
                } else {
                    disk is Nothing
                }
            },
            Err(error) => {
                &&& after == state
                &&& outcome == Err::<ResultView, QueryStopView>(QueryStopView::Error(error))
                &&& disk is Nothing
            },
        },
        statements::StatementView::Insert { table_name, values } => match engine::row_added(
            state,
            table_name,
            values,
        ) {
            Ok(added) => {
                &&& after == added
                &&& outcome == Ok::<ResultView, QueryStopView>(
                    success(
                        "Row inserted with ID: "@ + text::decimal(
                            state.tables[table_name].next_id as nat,
                        ) + ""@,
                        None,
                        Some(1),
                    ),
                )
                &&& engine::saves(saved_table(disk), after, table_name)
                &&& disk !is Delete
            },
            Err(error) => {
                &&& after == state
                &&& outcome == Err::<ResultView, QueryStopView>(QueryStopView::Error(error))
                &&& disk is Nothing
            },
        },
        statements::StatementView::Select { table_name, columns, condition } => {
            &&& after == state
            &&& disk is Nothing
            &&& is_selection(outcome, state, table_name, columns, condition, floats)
        },
        statements::StatementView::Delete { table_name, condition } => {
            &&& disk is Nothing
            &&& is_deletion(outcome, after, state, table_name, condition, floats)
        },
    }
}

pub open spec fn saved_table(disk: Disk) -> Option<PersistedTable> {
    match disk {
        Disk::Save(saved) => Some(saved),
        _ => None,
    }
}

fn save(saved: Option<PersistedTable>) -> (disk: Disk)
    ensures
        saved_table(disk) == saved,
        disk !is Delete,
{
    match saved {
        Some(saved) => Disk::Save(saved),
        None => Disk::Nothing,
    }
}

impl QueryExecutor {
    pub fn new() -> (executor: QueryExecutor)
        ensures
            executor@ == (EngineView { tables: engine::no_tables(), persistent: false }),
    {
        QueryExecutor { storage: StorageEngine::new() }
    }

    /// An executor on tables that are kept in files.
    pub fn new_with_persistence(storage: StorageEngine) -> (executor: QueryExecutor)
        ensures
            executor@ == storage@,
    {
        QueryExecutor { storage }
    }

    pub fn get_storage(&self) -> (storage: &StorageEngine)
        ensures
            storage@ == self@,
    {
        &self.storage
    }

    /// Executes a statement.
    pub fn execute(&mut self, statement: Statement, floats: &FloatTable) -> (done: (
        Result<QueryResult, QueryStop>,
        Disk,
    ))
        requires
            floats.wf(),
        ensures
            is_execution(
                statement@,
                old(self)@,
                final(self)@,
                outcome_view(done.0),
                done.1,
                floats@,
            ),
    {
        match statement {
            Statement::CreateTable(stmt) => self.execute_create_table(stmt),
            Statement::DropTable(stmt) => self.execute_drop_table(stmt),
            Statement::Insert(stmt) => self.execute_insert(stmt),
            Statement::Select(stmt) => (self.execute_select(stmt, floats), Disk::Nothing),
            Statement::Delete(stmt) => (self.execute_delete(stmt, floats), Disk::Nothing),
        }
    }

    fn execute_create_table(&mut self, stmt: CreateTableStmt) -> (made: (
        Result<QueryResult, QueryStop>,
        Disk,
    ))
        ensures
            is_execution(
                Statement::CreateTable(stmt)@,
                old(self)@,
                final(self)@,
                outcome_view(made.0),
                made.1,
                Map::empty(),
            ),
    {
        match self.storage.create_table(copy_text(&stmt.table_name), stmt.columns) {
            Err(error) => (Err(QueryStop::Error(error)), Disk::Nothing),
            Ok(saved) => {
                let message = join_text(
                    "Table '",
                    stmt.table_name.as_str(),
                    "' created successfully",
                );
                (Ok(done(message, None)), save(saved))
            },
        }
    }

    fn execute_drop_table(&mut self, stmt: DropTableStmt) -> (made: (
        Result<QueryResult, QueryStop>,
        Disk,
    ))
        ensures
            is_execution(
                Statement::DropTable(stmt)@,
                old(self)@,
                final(self)@,
                outcome_view(made.0),
                made.1,
                Map::empty(),
            ),
    {
        match self.storage.drop_table(stmt.table_name.as_str()) {
            Err(error) => (Err(QueryStop::Error(error)), Disk::Nothing),
            Ok(delete) => {
                let message = join_text(
                    "Table '",
                    stmt.table_name.as_str(),
                    "' dropped successfully",
                );
                let disk = if delete {
                    Disk::Delete(stmt.table_name)
                } else {
                    Disk::Nothing
                };
                (Ok(done(message, None)), disk)
            },
        }
    }

    fn execute_insert(&mut self, stmt: InsertStmt) -> (made: (
        Result<QueryResult, QueryStop>,
        Disk,
    ))
        ensures
            is_execution(
                Statement::Insert(stmt)@,
                old(self)@,
                final(self)@,
                outcome_view(made.0),
                made.1,
                Map::empty(),
            ),
    {
        match self.storage.insert_into_table(stmt.table_name.as_str(), stmt.values) {
            Err(error) => (Err(QueryStop::Error(error)), Disk::Nothing),
            Ok((id, saved)) => {
                let message = text_with_number("Row inserted with ID: ", id, "");
                (Ok(done(message, Some(1))), save(saved))
            },
        }
    }

    fn execute_select(&self, stmt: SelectStmt, floats: &FloatTable) -> (made: Result<
        QueryResult,
        QueryStop,
    >)
        requires
            floats.wf(),
        ensures
            is_selection(
                outcome_view(made),
                self@,
                stmt.table_name@,
                statements::chosen_columns(stmt.columns),
                statements::where_view(stmt.where_clause),
                floats@,
            ),
    {
        let found = match self.storage.get_table(stmt.table_name.as_str()) {
            Err(error) => {
                return Err(QueryStop::Error(error));
            },
            Ok(found) => found,
        };
        let rows = found.get_all_rows();
        assert(table::is_listing(table::pair_views(rows@), self@.tables[stmt.table_name@].rows));
        let kept = match filter_rows(&rows, &stmt.where_clause, found.get_schema(), floats) {
            Err(stop) => {
                return Err(stop);
            },
            Ok(kept) => kept,
        };
        let values = match select_columns(&kept, &stmt.columns, found.get_schema()) {
            Err(stop) => {
                return Err(stop);
            },
            Ok(values) => values,
        };
        let message = text_with_number(
            "Query executed successfully, ",
            values.len() as u64,
            " rows returned",
        );
        Ok(QueryResult { success: true, message, data: Some(values), affected_rows: None })
    }

    fn execute_delete(&mut self, stmt: DeleteStmt, floats: &FloatTable) -> (made: Result<
        QueryResult,
        QueryStop,
    >)
        requires
            floats.wf(),
        ensures
            is_deletion(
                outcome_view(made),
                final(self)@,
                old(self)@,
                stmt.table_name@,
                statements::where_view(stmt.where_clause),
                floats@,
            ),
    {
        let found = match self.storage.get_table(stmt.table_name.as_str()) {
            Err(error) => {
                return Err(QueryStop::Error(error));
            },
            Ok(found) => found,
        };
        let rows = found.get_all_rows();
        assert(table::is_listing(table::pair_views(rows@), self@.tables[stmt.table_name@].rows));
        let gone = match filter_rows(&rows, &stmt.where_clause, found.get_schema(), floats) {
            Err(stop) => {
                return Err(stop);
            },
            Ok(gone) => gone,
        };
        let list = ids(&gone);
        match self.storage.delete_rows(stmt.table_name.as_str(), &list) {
            Err(error) => Err(QueryStop::Error(error)),
            Ok(count) => {
                let message = text_with_number("", count as u64, " rows deleted");
                Ok(done(message, Some(count)))
            },
        }
    }
}

} // verus!
