//! What conditions, queries and deletions on the tables in memory mean.
use crate::engine::exact;
use crate::engine::float;
use crate::engine::float::{FloatOperation, FloatRequest};
use crate::index::key;
use crate::server::sql::executor;
use crate::server::sql::executor::{Disk, Pairs, QueryStopView, ResultView};
use crate::server::sql::statements::{ComparisonOp, ConditionView, ExpressionView, StatementView};
use crate::server::storage::engine;
use crate::server::storage::engine::EngineView;
use crate::server::storage::error::QuantaErrorView;
use crate::server::storage::table;
use crate::server::storage::table::TableView;
use crate::server::storage::types;
use crate::server::storage::types::{ColumnView, DataType, ValueView};
use vstd::prelude::*;
use vstd::utf8::encode_utf8;

verus! {

/// The row that a condition is about, its columns, and the known results of float arithmetic.
pub struct RowScope {
    pub row: Seq<ValueView>,
    pub columns: Seq<ColumnView>,
    pub floats: Map<FloatRequest, u64>,
}

/// Whether a condition is true of a row, or false.
pub open spec fn says(condition: ConditionView, scope: RowScope, yes: bool) -> bool {
    executor::met(condition, scope.row, scope.columns, scope.floats) == Ok::<bool, QueryStopView>(
        yes,
    )
}

/// Whether a condition fails.
pub open spec fn fails(condition: ConditionView, scope: RowScope) -> bool {
    executor::met(condition, scope.row, scope.columns, scope.floats) matches Err(
        QueryStopView::Error(_),
    )
}

/// Two operands compared.
pub open spec fn compared(
    left: ExpressionView,
    operator: ComparisonOp,
    right: ExpressionView,
) -> ConditionView {
    ConditionView::Comparison { left, operator, right }
}

/// Whether an operand has a value.
pub open spec fn gives(operand: ExpressionView, scope: RowScope, value: ValueView) -> bool {
    executor::evaluated(operand, scope.row, scope.columns) == Ok::<ValueView, QueryStopView>(value)
}

/// What the six comparisons say of two operands of which the first is the smaller, or the second is, or
/// neither.
pub open spec fn compares(
    left: ExpressionView,
    right: ExpressionView,
    scope: RowScope,
    smaller: bool,
    larger: bool,
) -> bool {
    &&& says(compared(left, ComparisonOp::LessThan, right), scope, smaller)
    &&& says(compared(left, ComparisonOp::GreaterThan, right), scope, larger)
    &&& says(compared(left, ComparisonOp::LessThanOrEqual, right), scope, !larger)
    &&& says(compared(left, ComparisonOp::GreaterThanOrEqual, right), scope, !smaller)
    &&& says(compared(left, ComparisonOp::Equal, right), scope, !smaller && !larger)
    &&& says(compared(left, ComparisonOp::NotEqual, right), scope, smaller || larger)
}

/// Integers compare as numbers, and texts by the first byte in which their encodings differ.
pub proof fn law_ordered_values_compare(
    left: ExpressionView,
    right: ExpressionView,
    scope: RowScope,
    a: ValueView,
    b: ValueView,
    at: int,
)
    requires
        gives(left, scope, a),
        gives(right, scope, b),
    ensures
        a matches ValueView::Int(x) ==> (b matches ValueView::Int(y) ==> compares(
            left,
            right,
            scope,
            x < y,
            x > y,
        )),
        a matches ValueView::Text(x) ==> (b matches ValueView::Text(y) ==> {
            &&& key::parts_below(encode_utf8(x), encode_utf8(y), at) ==> compares(
                left,
                right,
                scope,
                true,
                false,
            )
            &&& key::parts_below(encode_utf8(y), encode_utf8(x), at) ==> compares(
                left,
                right,
                scope,
                false,
                true,
            )
            &&& x == y ==> compares(left, right, scope, false, false)
        }),
{
    if let (ValueView::Text(x), ValueView::Text(y)) = (a, b) {
        let p = encode_utf8(x);
        let q = encode_utf8(y);
        if key::parts_below(p, q, at) {
            key::law_first_difference_decides(p, q, at);
        }
        if key::parts_below(q, p, at) {
            key::law_first_difference_decides(q, p, at);
        }
        key::lemma_key_irreflexive(p);
    }
}

/// Truths are equal or not and have no order, and values of different types, and NULL, do not compare.
pub proof fn law_other_values_compare(
    left: ExpressionView,
    right: ExpressionView,
    scope: RowScope,
    a: ValueView,
    b: ValueView,
    operator: ComparisonOp,
)
    requires
        gives(left, scope, a),
        gives(right, scope, b),
    ensures
        a matches ValueView::Bool(x) ==> (b matches ValueView::Bool(y) ==> {
            &&& says(compared(left, ComparisonOp::Equal, right), scope, x == y)
            &&& says(compared(left, ComparisonOp::NotEqual, right), scope, x != y)
            &&& operator != ComparisonOp::Equal && operator != ComparisonOp::NotEqual ==> fails(
                compared(left, operator, right),
                scope,
            )
        }),
        a is Null || b is Null || (a is Int && !(b is Int)) || (a is Text && !(b is Text)) || (
        a is Bool && !(b is Bool)) || (a is Float && !(b is Float)) ==> fails(
            compared(left, operator, right),
            scope,
        ),
{
}

/// Floats that are numbers are ordered by their exact values, and nothing is in order with what is no
/// number. Two floats are equal where their difference is smaller than the step from one to the next float,
/// and unequal where it is not.
pub proof fn law_floats_compare(
    left: ExpressionView,
    right: ExpressionView,
    scope: RowScope,
    a: u64,
    b: u64,
    difference: u64,
)
    requires
        gives(left, scope, ValueView::Float(a)),
        gives(right, scope, ValueView::Float(b)),
    ensures
        ({
            let numbers = !float::is_nan(a) && !float::is_nan(b);
            let x = exact::exact_value(a);
            let y = exact::exact_value(b);
            &&& says(compared(left, ComparisonOp::LessThan, right), scope, numbers && x < y)
            &&& says(compared(left, ComparisonOp::GreaterThan, right), scope, numbers && x > y)
            &&& says(compared(left, ComparisonOp::LessThanOrEqual, right), scope, numbers && x <= y)
            &&& says(
                compared(left, ComparisonOp::GreaterThanOrEqual, right),
                scope,
                numbers && x >= y,
            )
        }),
        scope.floats.contains_pair(
            FloatRequest { operation: FloatOperation::Subtract, left: a, right: b },
            difference,
        ) ==> ({
            let step = exact::exact_value(0x3cb0_0000_0000_0000);
            let close = -step < exact::exact_value(difference) < step;
            &&& says(
                compared(left, ComparisonOp::Equal, right),
                scope,
                !float::is_nan(difference) && close,
            )
            &&& says(
                compared(left, ComparisonOp::NotEqual, right),
                scope,
                !float::is_nan(difference) && !close,
            )
        }),
{
    exact::lemma_ranks_are_values(a, b);
    exact::lemma_ranks_are_values(b, a);
    let step: u64 = 0x3cb0_0000_0000_0000;
    let size = executor::distance(difference);
    exact::lemma_ranks_are_values(size, step);
    exact::lemma_sizes(difference);
    exact::lemma_sizes(size);
}

/// AND is true where both sides are, OR where one is, NOT where its condition is not, and parentheses
/// change nothing. A side that decides keeps the side behind it from mattering.
pub proof fn law_conditions_join(
    left: ConditionView,
    right: ConditionView,
    scope: RowScope,
    a: bool,
)
    requires
        says(left, scope, a),
    ensures
        ({
            let both = ConditionView::And { left: Box::new(left), right: Box::new(right) };
            let any = ConditionView::Or { left: Box::new(left), right: Box::new(right) };
            &&& !a ==> says(both, scope, false)
            &&& a ==> says(any, scope, true)
            &&& says(right, scope, true) ==> says(both, scope, a) && says(any, scope, true)
            &&& says(right, scope, false) ==> says(both, scope, false) && says(any, scope, a)
            &&& fails(right, scope) ==> (a ==> fails(both, scope)) && (!a ==> fails(any, scope))
        }),
        says(ConditionView::Not { condition: Box::new(left) }, scope, !a),
        says(ConditionView::Parenthesized { condition: Box::new(left) }, scope, a),
{
}

/// Whether a column is the first of its name.
pub open spec fn is_named(columns: Seq<ColumnView>, c: int, name: Seq<char>) -> bool {
    &&& 0 <= c < columns.len()
    &&& columns[c].name == name
    &&& forall|i: int| 0 <= i < c ==> (#[trigger] columns[i]).name != name
}

/// Whether some column has a name.
pub open spec fn is_column(columns: Seq<ColumnView>, name: Seq<char>) -> bool {
    exists|c: int| is_named(columns, c, name)
}

proof fn lemma_place(columns: Seq<ColumnView>, name: Seq<char>, from: int)
    requires
        0 <= from <= columns.len(),
    ensures
        from <= types::place_from(columns, name, from) <= columns.len(),
        types::place_from(columns, name, from) < columns.len() ==> columns[types::place_from(
            columns,
            name,
            from,
        )].name == name,
        forall|i: int|
            from <= i < types::place_from(columns, name, from) ==> (#[trigger] columns[i]).name
                != name,
    decreases columns.len() - from,
{
    if from < columns.len() {
        lemma_place(columns, name, from + 1);
    }
}

/// A name stands for the value in the first column of that name, and a constant for itself.
pub proof fn law_operands(name: Seq<char>, value: ValueView, scope: RowScope, c: int)
    requires
        scope.row.len() == scope.columns.len(),
    ensures
        is_named(scope.columns, c, name) ==> gives(
            ExpressionView::Column(name),
            scope,
            scope.row[c],
        ),
        (forall|i: int| 0 <= i < scope.columns.len() ==> (#[trigger] scope.columns[i]).name != name)
            ==> executor::evaluated(
            ExpressionView::Column(name),
            scope.row,
            scope.columns,
        ) == Err::<ValueView, QueryStopView>(
            QueryStopView::Error(QuantaErrorView::ColumnNotFound(name)),
        ),
        gives(ExpressionView::Literal(value), scope, value),
{
    lemma_place(scope.columns, name, 0);
    let found = types::place_from(scope.columns, name, 0);
    if is_named(scope.columns, c, name) && found < c {
        assert(scope.columns[found].name != name);
    }
}

/// A row fits a table where it has one value for each column and each value is NULL or of the column's
/// type.
pub proof fn law_rows_fit(row: Seq<ValueView>, columns: Seq<ColumnView>)
    ensures
        types::row_fits(row, columns) <==> row.len() == columns.len() && forall|i: int|
            0 <= i < row.len() ==> {
                &&& (#[trigger] row[i]) is Int ==> columns[i].data_type == DataType::Int
                &&& row[i] is Text ==> columns[i].data_type == DataType::Text
                &&& row[i] is Bool ==> columns[i].data_type == DataType::Bool
                &&& row[i] is Float ==> columns[i].data_type == DataType::Float
            },
{
    if row.len() == columns.len() {
        assert forall|i: int| 0 <= i < row.len() implies (types::fits(
            #[trigger] row[i],
            columns[i].data_type,
        ) <==> {
            &&& row[i] is Int ==> columns[i].data_type == DataType::Int
            &&& row[i] is Text ==> columns[i].data_type == DataType::Text
            &&& row[i] is Bool ==> columns[i].data_type == DataType::Bool
            &&& row[i] is Float ==> columns[i].data_type == DataType::Float
        }) by {}
    }
}

/// Whether a condition is true of a row of a table, or there is none.
pub open spec fn is_met(
    condition: Option<ConditionView>,
    row: Seq<ValueView>,
    columns: Seq<ColumnView>,
    floats: Map<FloatRequest, u64>,
) -> bool {
    condition matches Some(test) ==> says(test, RowScope { row, columns, floats }, true)
}

/// Whether a value is that of the first column of a name.
pub open spec fn shows_column(
    columns: Seq<ColumnView>,
    row: Seq<ValueView>,
    name: Seq<char>,
    value: ValueView,
) -> bool {
    exists|c: int| #[trigger] is_named(columns, c, name) && c < row.len() && row[c] == value
}

/// Whether values are what a query shows of a row: those of the named columns in the order of the names,
/// or all.
pub open spec fn shows_row(
    names: Option<Seq<Seq<char>>>,
    row: Seq<ValueView>,
    columns: Seq<ColumnView>,
    shown: Seq<ValueView>,
) -> bool {
    match names {
        None => shown == row,
        Some(names) => shown.len() == names.len() && forall|i: int|
            0 <= i < names.len() ==> shows_column(columns, row, names[i], #[trigger] shown[i]),
    }
}

/// Whether rows are what a query shows of a table: each row of which the condition is true, once.
pub open spec fn shows(
    ids: Seq<u64>,
    source: TableView,
    names: Option<Seq<Seq<char>>>,
    condition: Option<ConditionView>,
    floats: Map<FloatRequest, u64>,
    shown: Seq<Seq<ValueView>>,
) -> bool {
    &&& ids.len() == shown.len()
    &&& ids.no_duplicates()
    &&& forall|i: int|
        0 <= i < ids.len() ==> source.rows.contains_key(#[trigger] ids[i]) && is_met(
            condition,
            source.rows[ids[i]],
            source.schema,
            floats,
        ) && shows_row(names, source.rows[ids[i]], source.schema, shown[i])
    &&& forall|id: u64| #[trigger]
        source.rows.contains_key(id) && is_met(
            condition,
            source.rows[id],
            source.schema,
            floats,
        ) ==> ids.contains(id)
}

proof fn lemma_picked(
    row: Seq<ValueView>,
    names: Seq<Seq<char>>,
    columns: Seq<ColumnView>,
    shown: Seq<ValueView>,
)
    requires
        executor::picked(row, names, columns) == Ok::<Seq<ValueView>, QueryStopView>(shown),
    ensures
        shows_row(Some(names), row, columns, shown),
    decreases names.len(),
{
    if names.len() > 0 {
        let fewer = names.drop_last();
        let front = executor::picked(row, fewer, columns)->Ok_0;
        lemma_picked(row, fewer, columns, front);
        assert(shown.len() == names.len());
        assert forall|i: int| 0 <= i < names.len() implies shows_column(
            columns,
            row,
            names[i],
            #[trigger] shown[i],
        ) by {
            if i < fewer.len() {
                assert(names[i] == fewer[i]);
                assert(front[i] == shown[i]);
            } else {
                lemma_place(columns, names[i], 0);
                let c = types::place_from(columns, names[i], 0);
                assert(is_named(columns, c, names[i]));
            }
        }
    }
}

proof fn lemma_projected(
    rows: Pairs,
    names: Option<Seq<Seq<char>>>,
    columns: Seq<ColumnView>,
    shown: Seq<Seq<ValueView>>,
)
    requires
        executor::projected(rows, names, columns) == Ok::<Seq<Seq<ValueView>>, QueryStopView>(
            shown,
        ),
    ensures
        shown.len() == rows.len(),
        forall|i: int|
            0 <= i < rows.len() ==> shows_row(names, rows[i].1, columns, #[trigger] shown[i]),
    decreases rows.len(),
{
    if rows.len() > 0 {
        let fewer = rows.drop_last();
        let front = executor::projected(fewer, names, columns)->Ok_0;
        lemma_projected(fewer, names, columns, front);
        if let Some(list) = names {
            lemma_picked(rows.last().1, list, columns, shown.last());
        }
        assert forall|i: int| 0 <= i < rows.len() implies shows_row(
            names,
            rows[i].1,
            columns,
            #[trigger] shown[i],
        ) by {
            if i < fewer.len() {
                assert(front[i] == shown[i]);
                assert(fewer[i] == rows[i]);
            }
        }
    }
}

proof fn lemma_filtered(
    rows: Pairs,
    condition: Option<ConditionView>,
    columns: Seq<ColumnView>,
    floats: Map<FloatRequest, u64>,
    kept: Pairs,
)
    requires
        executor::filtered(rows, condition, columns, floats) == Ok::<Pairs, QueryStopView>(kept),
        forall|i: int, j: int|
            0 <= i < j < rows.len() ==> #[trigger] rows[i].0 != #[trigger] rows[j].0,
    ensures
        forall|i: int, j: int|
            0 <= i < j < kept.len() ==> #[trigger] kept[i].0 != #[trigger] kept[j].0,
        forall|i: int|
            0 <= i < kept.len() ==> rows.contains(#[trigger] kept[i]) && is_met(
                condition,
                kept[i].1,
                columns,
                floats,
            ),
        forall|i: int|
            0 <= i < rows.len() && is_met(condition, (#[trigger] rows[i]).1, columns, floats)
                ==> kept.contains(rows[i]),
    decreases rows.len(),
{
    if condition is Some && rows.len() > 0 {
        let fewer = rows.drop_last();
        let front = executor::filtered(fewer, condition, columns, floats)->Ok_0;
        assert forall|i: int, j: int| 0 <= i < j < fewer.len() implies #[trigger] fewer[i].0
            != #[trigger] fewer[j].0 by {
            assert(rows[i].0 != rows[j].0);
        }
        lemma_filtered(fewer, condition, columns, floats, front);
        assert(rows.last() == rows[rows.len() - 1]);
        assert forall|i: int| 0 <= i < front.len() implies rows.contains(#[trigger] front[i])
            && front[i].0 != rows.last().0 by {
            let at = fewer.index_of(front[i]);
            assert(rows[at] == front[i]);
            assert(rows[at].0 != rows[rows.len() - 1].0);
        }
        assert forall|i: int, j: int| 0 <= i < j < kept.len() implies #[trigger] kept[i].0
            != #[trigger] kept[j].0 by {
            assert(kept[i] == front[i]);
            if j < front.len() {
                assert(kept[j] == front[j]);
            }
        }
        assert forall|i: int| 0 <= i < kept.len() implies rows.contains(#[trigger] kept[i])
            && is_met(condition, kept[i].1, columns, floats) by {
            if i < front.len() {
                assert(kept[i] == front[i]);
            }
        }
        assert forall|i: int|
            0 <= i < rows.len() && is_met(
                condition,
                (#[trigger] rows[i]).1,
                columns,
                floats,
            ) implies kept.contains(rows[i]) by {
            if i < fewer.len() {
                assert(fewer[i] == rows[i]);
                let at = front.index_of(rows[i]);
                assert(kept[at] == front[at]);
            } else {
                assert(kept[kept.len() - 1] == rows.last());
            }
        }
    }
}

/// A query shows each row of its table of which its condition is true, once, and of each the values of the
/// named columns in the order of the names, or all.
pub proof fn law_query_shows_rows(
    result: ResultView,
    state: EngineView,
    table_name: Seq<char>,
    names: Option<Seq<Seq<char>>>,
    condition: Option<ConditionView>,
    floats: Map<FloatRequest, u64>,
)
    requires
        executor::is_selection(
            Ok::<ResultView, QueryStopView>(result),
            state,
            table_name,
            names,
            condition,
            floats,
        ),
    ensures
        state.tables.contains_key(table_name),
        result.success,
        result.affected_rows is None,
        result.data is Some,
        exists|ids: Seq<u64>| #[trigger]
            shows(
                ids,
                state.tables[table_name],
                names,
                condition,
                floats,
                result.data->Some_0,
            ),
{
    let source = state.tables[table_name];
    let rows = choose|rows: Pairs|
        #![trigger table::is_listing(rows, source.rows)]
        table::is_listing(rows, source.rows) && Ok::<ResultView, QueryStopView>(result) == (
        match executor::selected(rows, names, condition, source.schema, floats) {
            Ok(values) => Ok::<ResultView, QueryStopView>(executor::select_result(values)),
            Err(stop) => Err(stop),
        });
    assert(executor::selected(rows, names, condition, source.schema, floats) is Ok);
    let kept = executor::filtered(rows, condition, source.schema, floats)->Ok_0;
    let shown = executor::projected(kept, names, source.schema)->Ok_0;
    lemma_filtered(rows, condition, source.schema, floats, kept);
    lemma_projected(kept, names, source.schema, shown);
    let ids = executor::ids_of(kept);
    lemma_kept(rows, kept, source, condition, floats);
    assert forall|i: int| 0 <= i < ids.len() implies source.rows.contains_key(#[trigger] ids[i])
        && is_met(condition, source.rows[ids[i]], source.schema, floats) && shows_row(
        names,
        source.rows[ids[i]],
        source.schema,
        shown[i],
    ) by {
        assert(ids[i] == kept[i].0);
        assert(rows.contains(kept[i]));
        let at = rows.index_of(kept[i]);
        assert(rows[at].0 == kept[i].0);
        assert(shows_row(names, kept[i].1, source.schema, shown[i]));
    }
    assert(ids.len() == shown.len());
    assert(shows(ids, source, names, condition, floats, shown));
    assert(result.data == Some(shown));
    assert(shows(ids, state.tables[table_name], names, condition, floats, result.data->Some_0));
}

proof fn lemma_kept(
    rows: Pairs,
    kept: Pairs,
    source: TableView,
    condition: Option<ConditionView>,
    floats: Map<FloatRequest, u64>,
)
    requires
        table::is_listing(rows, source.rows),
        executor::filtered(rows, condition, source.schema, floats) == Ok::<Pairs, QueryStopView>(
            kept,
        ),
    ensures
        executor::ids_of(kept).no_duplicates(),
        forall|i: int|
            0 <= i < kept.len() ==> source.rows.contains_key((#[trigger] kept[i]).0)
                && source.rows[kept[i].0] == kept[i].1 && is_met(
                condition,
                kept[i].1,
                source.schema,
                floats,
            ),
        forall|id: u64| #[trigger]
            source.rows.contains_key(id) && is_met(
                condition,
                source.rows[id],
                source.schema,
                floats,
            ) ==> executor::ids_of(kept).contains(id),
{
    lemma_filtered(rows, condition, source.schema, floats, kept);
    let ids = executor::ids_of(kept);
    assert forall|i: int, j: int|
        0 <= i < ids.len() && 0 <= j < ids.len() && i != j implies ids[i] != ids[j] by {
        if i < j {
            assert(kept[i].0 != kept[j].0);
        } else {
            assert(kept[j].0 != kept[i].0);
        }
    }
    assert forall|i: int| 0 <= i < kept.len() implies source.rows.contains_key(
        (#[trigger] kept[i]).0,
    ) && source.rows[kept[i].0] == kept[i].1 && is_met(
        condition,
        kept[i].1,
        source.schema,
        floats,
    ) by {
        let at = rows.index_of(kept[i]);
        assert(rows[at].0 == kept[i].0);
    }
    assert forall|id: u64| #[trigger]
        source.rows.contains_key(id) && is_met(
            condition,
            source.rows[id],
            source.schema,
            floats,
        ) implies ids.contains(id) by {
        let at = choose|i: int| 0 <= i < rows.len() && #[trigger] rows[i].0 == id;
        assert(source.rows[rows[at].0] == rows[at].1);
        assert(kept.contains(rows[at]));
        let i = kept.index_of(rows[at]);
        assert(ids[i] == id);
    }
}

proof fn lemma_without(kept: TableView, ids: Seq<u64>)
    ensures
        engine::without_rows(kept, ids) == (TableView {
            rows: engine::without_rows(kept, ids).rows,
            ..kept
        }),
        forall|id: u64| #[trigger]
            engine::without_rows(kept, ids).rows.contains_key(id) <==> kept.rows.contains_key(id)
                && !ids.contains(id),
        forall|id: u64| #[trigger]
            engine::without_rows(kept, ids).rows.contains_key(id) ==> engine::without_rows(
                kept,
                ids,
            ).rows[id] == kept.rows[id],
    decreases ids.len(),
{
    if ids.len() > 0 {
        let fewer = ids.drop_last();
        lemma_without(kept, fewer);
        assert forall|id: u64| #[trigger] ids.contains(id) <==> fewer.contains(id) || id
            == ids.last() by {
            if fewer.contains(id) {
                let i = fewer.index_of(id);
                assert(ids[i] == id);
            }
            if ids.contains(id) {
                let i = ids.index_of(id);
                if i < fewer.len() {
                    assert(fewer[i] == id);
                }
            }
            assert(ids[ids.len() - 1] == ids.last());
        }
        assert forall|id: u64| #[trigger]
            engine::without_rows(kept, ids).rows.contains_key(id) <==> kept.rows.contains_key(id)
                && !ids.contains(id) by {
            assert(engine::without_rows(kept, fewer).rows.contains_key(id)
                <==> kept.rows.contains_key(id) && !fewer.contains(id));
            assert(ids.contains(id) <==> fewer.contains(id) || id == ids.last());
        }
    }
}

proof fn lemma_removed_count(kept: TableView, ids: Seq<u64>)
    requires
        ids.no_duplicates(),
        forall|i: int| 0 <= i < ids.len() ==> kept.rows.contains_key(#[trigger] ids[i]),
    ensures
        engine::removed_count(kept, ids) == ids.len(),
    decreases ids.len(),
{
    if ids.len() > 0 {
        let fewer = ids.drop_last();
        assert forall|i: int| 0 <= i < fewer.len() implies kept.rows.contains_key(
            #[trigger] fewer[i],
        ) by {
            assert(fewer[i] == ids[i]);
        }
        lemma_removed_count(kept, fewer);
        lemma_without(kept, fewer);
        assert(ids[ids.len() - 1] == ids.last());
        if fewer.contains(ids.last()) {
            let i = fewer.index_of(ids.last());
            assert(ids[i] == ids[ids.len() - 1]);
        }
    }
}

/// A deletion takes exactly the rows away that its condition is true of, tells how many they were, and
/// leaves every other row and every other table as it is.
pub proof fn law_deletion_takes_rows(
    result: ResultView,
    after: EngineView,
    state: EngineView,
    table_name: Seq<char>,
    condition: Option<ConditionView>,
    floats: Map<FloatRequest, u64>,
)
    requires
        executor::is_deletion(
            Ok::<ResultView, QueryStopView>(result),
            after,
            state,
            table_name,
            condition,
            floats,
        ),
    ensures
        state.tables.contains_key(table_name),
        after.tables.contains_key(table_name),
        ({
            let was = state.tables[table_name];
            let now = after.tables[table_name];
            &&& now.schema == was.schema
            &&& now.next_id == was.next_id
            &&& forall|id: u64| #[trigger]
                now.rows.contains_key(id) <==> was.rows.contains_key(id) && !is_met(
                    condition,
                    was.rows[id],
                    was.schema,
                    floats,
                )
            &&& forall|id: u64| #[trigger] now.rows.contains_key(id) ==> now.rows[id] == was.rows[id]
            &&& exists|ids: Seq<u64>|
                #![trigger ids.no_duplicates()]
                ids.no_duplicates() && result.affected_rows == Some(ids.len()) && forall|id: u64|
                    #[trigger]
                    ids.contains(id) <==> was.rows.contains_key(id) && !now.rows.contains_key(id)
        }),
        forall|other: Seq<char>|
            other != table_name ==> (#[trigger] after.tables.contains_key(other)
                <==> state.tables.contains_key(other)) && (state.tables.contains_key(other)
                ==> after.tables[other] == state.tables[other]),
{
    let was = state.tables[table_name];
    let rows = choose|rows: Pairs|
        #![trigger table::is_listing(rows, was.rows)]
        table::is_listing(rows, was.rows) && match executor::filtered(
            rows,
            condition,
            was.schema,
            floats,
        ) {
            Ok(gone) => {
                &&& result == executor::delete_result(
                    engine::removed_count(was, executor::ids_of(gone)),
                )
                &&& after == (EngineView {
                    tables: state.tables.insert(
                        table_name,
                        engine::without_rows(was, executor::ids_of(gone)),
                    ),
                    ..state
                })
            },
            Err(stop) => false,
        };
    let gone = executor::filtered(rows, condition, was.schema, floats)->Ok_0;
    let ids = executor::ids_of(gone);
    lemma_kept(rows, gone, was, condition, floats);
    lemma_without(was, ids);
    assert forall|i: int| 0 <= i < ids.len() implies was.rows.contains_key(#[trigger] ids[i]) by {
        assert(ids[i] == gone[i].0);
    }
    lemma_removed_count(was, ids);
    let now = after.tables[table_name];
    assert forall|id: u64| #[trigger] ids.contains(id) implies was.rows.contains_key(id) && is_met(
        condition,
        was.rows[id],
        was.schema,
        floats,
    ) by {
        let i = ids.index_of(id);
        assert(ids[i] == gone[i].0);
    }
    assert forall|id: u64| #[trigger] now.rows.contains_key(id) <==> was.rows.contains_key(id)
        && !is_met(condition, was.rows[id], was.schema, floats) by {
        if was.rows.contains_key(id) && is_met(condition, was.rows[id], was.schema, floats) {
            assert(ids.contains(id));
        }
    }
    assert forall|id: u64| #[trigger] ids.contains(id) <==> was.rows.contains_key(id)
        && !now.rows.contains_key(id) by {
        assert(now.rows.contains_key(id) <==> was.rows.contains_key(id) && !ids.contains(id));
    }
    assert(ids.no_duplicates() && result.affected_rows == Some(ids.len()));
}

/// Whether a value is of a type, or NULL.
pub open spec fn is_of(value: ValueView, data_type: DataType) -> bool {
    match value {
        ValueView::Null => true,
        ValueView::Int(_) => data_type == DataType::Int,
        ValueView::Text(_) => data_type == DataType::Text,
        ValueView::Bool(_) => data_type == DataType::Bool,
        ValueView::Float(_) => data_type == DataType::Float,
    }
}

/// Whether tables differ in one table at most.
pub open spec fn others_stay(state: EngineView, after: EngineView, table_name: Seq<char>) -> bool {
    forall|other: Seq<char>|
        other != table_name ==> (#[trigger] after.tables.contains_key(other)
            <==> state.tables.contains_key(other)) && (state.tables.contains_key(other)
            ==> after.tables[other] == state.tables[other])
}

/// An insertion adds its row under the next number, where the table is there and the row has a value of
/// the right type, or NULL, for each column; otherwise it fails and changes nothing.
pub proof fn law_insertion_adds_the_row(
    outcome: Result<ResultView, QueryStopView>,
    state: EngineView,
    after: EngineView,
    table_name: Seq<char>,
    values: Seq<ValueView>,
    disk: Disk,
    floats: Map<FloatRequest, u64>,
)
    requires
        executor::is_execution(
            StatementView::Insert { table_name, values },
            state,
            after,
            outcome,
            disk,
            floats,
        ),
    ensures
        ({
            let was = state.tables[table_name];
            let suits = state.tables.contains_key(table_name) && values.len() == was.schema.len()
                && forall|i: int|
                0 <= i < values.len() ==> is_of(#[trigger] values[i], was.schema[i].data_type);
            &&& suits ==> {
                &&& outcome matches Ok(result) && result.success && result.affected_rows == Some(
                    1nat,
                )
                &&& after.tables.contains_key(table_name)
                &&& after.tables[table_name].rows == was.rows.insert(was.next_id, values)
                &&& after.tables[table_name].schema == was.schema
                &&& was.next_id < u64::MAX ==> after.tables[table_name].next_id == was.next_id + 1
            }
            &&& !suits ==> outcome is Err && after == state
            &&& !state.tables.contains_key(table_name) ==> outcome == Err::<
                ResultView,
                QueryStopView,
            >(QueryStopView::Error(QuantaErrorView::TableNotFound(table_name)))
        }),
        others_stay(state, after, table_name),
{
    if state.tables.contains_key(table_name) {
        law_rows_fit(values, state.tables[table_name].schema);
        let columns = state.tables[table_name].schema;
        if values.len() == columns.len() {
            if types::row_fits(values, columns) {
                assert forall|i: int| 0 <= i < values.len() implies is_of(
                    #[trigger] values[i],
                    columns[i].data_type,
                ) by {}
            }
        }
    }
}

/// A table is created without rows and with the columns that are listed, unless there is one of its name,
/// and a table that is dropped is gone; no other table changes.
pub proof fn law_tables_come_and_go(
    outcome: Result<ResultView, QueryStopView>,
    state: EngineView,
    after: EngineView,
    table_name: Seq<char>,
    columns: Seq<ColumnView>,
    disk: Disk,
    floats: Map<FloatRequest, u64>,
)
    ensures
        executor::is_execution(
            StatementView::CreateTable { table_name, columns },
            state,
            after,
            outcome,
            disk,
            floats,
        ) ==> {
            &&& others_stay(state, after, table_name)
            &&& state.tables.contains_key(table_name) <==> outcome is Err
            &&& outcome is Err ==> after == state
            &&& outcome is Ok ==> {
                &&& after.tables.contains_key(table_name)
                &&& after.tables[table_name].schema == columns
                &&& after.tables[table_name].rows == Map::<u64, Seq<ValueView>>::empty()
            }
        },
        executor::is_execution(
            StatementView::DropTable { table_name },
            state,
            after,
            outcome,
            disk,
            floats,
        ) ==> {
            &&& others_stay(state, after, table_name)
            &&& state.tables.contains_key(table_name) <==> outcome is Ok
            &&& outcome is Err ==> after == state
            &&& outcome is Ok ==> !after.tables.contains_key(table_name)
        },
{
}

/// Whether a condition is true or false of a row.
pub open spec fn can_judge(
    condition: Option<ConditionView>,
    row: Seq<ValueView>,
    columns: Seq<ColumnView>,
    floats: Map<FloatRequest, u64>,
) -> bool {
    condition matches Some(test) ==> says(test, RowScope { row, columns, floats }, true) || says(
        test,
        RowScope { row, columns, floats },
        false,
    )
}

proof fn lemma_filters(
    rows: Pairs,
    condition: Option<ConditionView>,
    columns: Seq<ColumnView>,
    floats: Map<FloatRequest, u64>,
)
    requires
        forall|i: int|
            0 <= i < rows.len() ==> can_judge(condition, (#[trigger] rows[i]).1, columns, floats)
                && rows[i].1.len() == columns.len(),
    ensures
        executor::filtered(rows, condition, columns, floats) matches Ok(kept) && forall|i: int|
            0 <= i < kept.len() ==> (#[trigger] kept[i]).1.len() == columns.len(),
    decreases rows.len(),
{
    if condition is Some && rows.len() > 0 {
        let fewer = rows.drop_last();
        assert forall|i: int| 0 <= i < fewer.len() implies can_judge(
            condition,
            (#[trigger] fewer[i]).1,
            columns,
            floats,
        ) && fewer[i].1.len() == columns.len() by {
            assert(fewer[i] == rows[i]);
        }
        lemma_filters(fewer, condition, columns, floats);
        assert(rows.last() == rows[rows.len() - 1]);
    }
}

proof fn lemma_picks(row: Seq<ValueView>, names: Seq<Seq<char>>, columns: Seq<ColumnView>)
    requires
        row.len() == columns.len(),
        forall|i: int|
            0 <= i < names.len() ==> is_column(columns, #[trigger] names[i]),
    ensures
        executor::picked(row, names, columns) is Ok,
    decreases names.len(),
{
    if names.len() > 0 {
        let fewer = names.drop_last();
        assert forall|i: int| 0 <= i < fewer.len() implies is_column(columns, #[trigger] fewer[i]) by {
            assert(fewer[i] == names[i]);
        }
        lemma_picks(row, fewer, columns);
        assert(names.last() == names[names.len() - 1]);
        assert(is_column(columns, names[names.len() - 1]));
        let name = names.last();
        let c = choose|c: int| is_named(columns, c, name);
        lemma_place(columns, names.last(), 0);
        if types::place_from(columns, names.last(), 0) == columns.len() {
            assert(columns[c].name != names.last());
        }
    }
}

proof fn lemma_projects(rows: Pairs, names: Option<Seq<Seq<char>>>, columns: Seq<ColumnView>)
    requires
        forall|i: int| 0 <= i < rows.len() ==> (#[trigger] rows[i]).1.len() == columns.len(),
        names matches Some(list) ==> forall|i: int|
            0 <= i < list.len() ==> is_column(columns, #[trigger] list[i]),
    ensures
        executor::projected(rows, names, columns) is Ok,
    decreases rows.len(),
{
    if rows.len() > 0 {
        let fewer = rows.drop_last();
        assert forall|i: int| 0 <= i < fewer.len() implies (#[trigger] fewer[i]).1.len()
            == columns.len() by {
            assert(fewer[i] == rows[i]);
        }
        lemma_projects(fewer, names, columns);
        assert(rows.last() == rows[rows.len() - 1]);
        if let Some(list) = names {
            lemma_picks(rows.last().1, list, columns);
        }
    }
}

/// A query is answered where its table is there, its condition is true or false of every row, and the
/// columns that it names are there; without the table it fails for that.
pub proof fn law_query_runs(
    outcome: Result<ResultView, QueryStopView>,
    state: EngineView,
    table_name: Seq<char>,
    names: Option<Seq<Seq<char>>>,
    condition: Option<ConditionView>,
    floats: Map<FloatRequest, u64>,
)
    requires
        executor::is_selection(outcome, state, table_name, names, condition, floats),
    ensures
        !state.tables.contains_key(table_name) ==> outcome == Err::<ResultView, QueryStopView>(
            QueryStopView::Error(QuantaErrorView::TableNotFound(table_name)),
        ),
        ({
            let source = state.tables[table_name];
            &&& state.tables.contains_key(table_name)
            &&& names matches Some(list) ==> forall|i: int|
                0 <= i < list.len() ==> is_column(source.schema, #[trigger] list[i])
            &&& forall|id: u64| #[trigger]
                source.rows.contains_key(id) ==> can_judge(
                    condition,
                    source.rows[id],
                    source.schema,
                    floats,
                ) && source.rows[id].len() == source.schema.len()
        }) ==> outcome is Ok,
{
    let source = state.tables[table_name];
    if state.tables.contains_key(table_name) && (names matches Some(list) ==> forall|i: int|
        0 <= i < list.len() ==> is_column(source.schema, #[trigger] list[i])) && (
    forall|id: u64| #[trigger]
        source.rows.contains_key(id) ==> can_judge(
            condition,
            source.rows[id],
            source.schema,
            floats,
        ) && source.rows[id].len() == source.schema.len()) {
        let rows = choose|rows: Pairs|
            #![trigger table::is_listing(rows, source.rows)]
            table::is_listing(rows, source.rows) && outcome == (match executor::selected(
                rows,
                names,
                condition,
                source.schema,
                floats,
            ) {
                Ok(values) => Ok::<ResultView, QueryStopView>(executor::select_result(values)),
                Err(stop) => Err(stop),
            });
        assert forall|i: int| 0 <= i < rows.len() implies can_judge(
            condition,
            (#[trigger] rows[i]).1,
            source.schema,
            floats,
        ) && rows[i].1.len() == source.schema.len() by {
            assert(source.rows.contains_key(rows[i].0));
        }
        lemma_filters(rows, condition, source.schema, floats);
        lemma_projects(
            executor::filtered(rows, condition, source.schema, floats)->Ok_0,
            names,
            source.schema,
        );
    }
}

} // verus!
