//! What a query shows, row by row and value by value.
use crate::bytes;
use crate::engine::access;
use crate::engine::access::StoredView;
use crate::engine::answer;
use crate::engine::codec;
use crate::engine::error::{EngineErrorView, StopView};
use crate::engine::exact;
use crate::engine::expression;
use crate::engine::float::{FloatRequest, SIGN};
use crate::engine::integrity;
use crate::engine::operators;
use crate::engine::operators::Scope;
use crate::engine::output::{OutputColumnView, OutputView};
use crate::engine::schema;
use crate::engine::schema::{ColumnView, LogicalType, TableView};
use crate::engine::select;
use crate::engine::sort;
use crate::engine::sort::SortView;
use crate::engine::typing;
use crate::engine::value::ValueView;
use crate::engine::world;
use crate::index::key;
use crate::index::key::KeyOrder;
use crate::syntax::{Expr, OrderKey, Select, SelectItem};
use vstd::arithmetic::power2::pow2;
use vstd::prelude::*;
use vstd::utf8::encode_utf8;

verus! {

/// Whether a value may stand before another where the order rises: a number before one that is not
/// smaller, false before true, text before text whose encoding is not smaller where the two first
/// differ, and everything before NULL. Of the float zeros the negative one comes first.
pub open spec fn ascends(a: ValueView, b: ValueView) -> bool {
    &&& a is Null ==> b is Null
    &&& a matches ValueView::Integer(x) ==> {
        &&& b matches ValueView::Integer(y) ==> x <= y
        &&& b matches ValueView::Float(y) ==> x * pow2(1074) < exact::exact_value(y) || (x * pow2(
            1074,
        ) == exact::exact_value(y) && (x < 0 || y < SIGN))
        &&& !(b is Boolean)
    }
    &&& a matches ValueView::Float(x) ==> {
        &&& b matches ValueView::Integer(y) ==> exact::exact_value(x) <= y * pow2(1074)
        &&& b matches ValueView::Float(y) ==> exact::exact_value(x) < exact::exact_value(y) || (
        exact::exact_value(x) == exact::exact_value(y) && (x >= SIGN || y < SIGN))
        &&& !(b is Boolean)
    }
    &&& a matches ValueView::Boolean(x) ==> (b matches ValueView::Boolean(y) ==> y || !x)
    &&& a matches ValueView::Text(x) ==> {
        &&& b matches ValueView::Text(y) ==> forall|at: int| !#[trigger]
            key::parts_below(encode_utf8(y), encode_utf8(x), at)
        &&& b is Text || b is Null
    }
}

/// Values are put in the order of what they stand for.
pub proof fn law_values_stand_in_order(a: ValueView, b: ValueView)
    ensures
        sort::key_order(a, b, false) != KeyOrder::After <==> ascends(a, b),
        sort::key_order(a, b, true) != KeyOrder::After <==> ascends(b, a),
{
    lemma_values_ascend(a, b);
    lemma_values_ascend(b, a);
    sort::law_values_have_one_order(a, b, b);
}

proof fn lemma_values_ascend(a: ValueView, b: ValueView)
    ensures
        sort::sort_order(a, b) != KeyOrder::After <==> ascends(a, b),
{
    vstd::arithmetic::power2::lemma_pow2_pos(1074);
    let one = pow2(1074) as int;
    match (a, b) {
        (ValueView::Float(x), ValueView::Float(y)) => {
            exact::lemma_float_places(x, y);
            exact::lemma_ranks_are_values(x, y);
            lemma_float_ties(x, y);
        },
        (ValueView::Integer(x), ValueView::Float(y)) => {
            lemma_places(x, y);
        },
        (ValueView::Float(x), ValueView::Integer(y)) => {
            lemma_places(y, x);
        },
        (ValueView::Text(x), ValueView::Text(y)) => {
            let p = encode_utf8(x);
            let q = encode_utf8(y);
            sort::lemma_text_order(x, y, y);
            if key::key_lt(q, p) {
                let at = key::law_order_shows_in_a_difference(q, p);
                key::lemma_key_asymmetric(q, p);
                assert(key::parts_below(q, p, at));
            } else {
                assert forall|at: int| !#[trigger] key::parts_below(q, p, at) by {
                    if key::parts_below(q, p, at) {
                        key::law_first_difference_decides(q, p, at);
                    }
                }
                key::lemma_key_total(p, q);
                if p == q {
                    broadcast use vstd::utf8::encode_utf8_decode_utf8;

                    assert(vstd::utf8::decode_utf8(p) == x);
                    assert(vstd::utf8::decode_utf8(q) == y);
                }
            }
        },
        _ => {},
    }
}

/// Floats of one value and one sign are the same.
proof fn lemma_float_ties(x: u64, y: u64)
    ensures
        exact::float_place(x) <= exact::float_place(y) <==> exact::exact_value(x)
            < exact::exact_value(y) || (exact::exact_value(x) == exact::exact_value(y) && (x >= SIGN
            || y < SIGN)),
{
    exact::lemma_sizes(x);
    exact::lemma_sizes(y);
}

/// Where an integer and a float stand among all numbers.
proof fn lemma_places(x: i64, y: u64)
    ensures
        exact::integer_place(x as int) <= exact::float_place(y) <==> x * pow2(1074)
            < exact::exact_value(y) || (x * pow2(1074) == exact::exact_value(y) && (x < 0 || y
            < SIGN)),
        exact::float_place(y) <= exact::integer_place(x as int) <==> exact::exact_value(y) <= x
            * pow2(1074),
{
    let one = pow2(1074) as int;
    vstd::arithmetic::power2::lemma_pow2_pos(1074);
    exact::lemma_sizes(y);
    assert(x < 0 ==> x * one < 0) by (nonlinear_arith)
        requires
            one > 0,
    ;
    assert(x >= 0 ==> x * one >= 0) by (nonlinear_arith)
        requires
            one > 0,
    ;
    assert(x > 0 ==> x * one > 0) by (nonlinear_arith)
        requires
            one > 0,
    ;
}

/// Keys that agree up to one leave the order to that one.
proof fn lemma_first_key_decides(
    left: Seq<ValueView>,
    right: Seq<ValueView>,
    order_by: Seq<OrderKey>,
    at: int,
    n: int,
)
    requires
        0 <= at <= n < order_by.len(),
        forall|m: int| at <= m < n ==> #[trigger] left[m] == right[m],
        sort::keys_order(left, right, order_by, at) != KeyOrder::After,
    ensures
        sort::key_order(left[n], right[n], order_by[n].descending) != KeyOrder::After,
    decreases n - at,
{
    if at < n {
        assert(left[at] == right[at]);
        sort::law_values_have_one_order(left[at], right[at], left[at]);
        lemma_first_key_decides(left, right, order_by, at + 1, n);
    }
}

/// Keys that agree leave rows in any order.
proof fn lemma_equal_keys(
    left: Seq<ValueView>,
    right: Seq<ValueView>,
    order_by: Seq<OrderKey>,
    at: int,
)
    requires
        0 <= at,
        forall|m: int| at <= m < order_by.len() ==> #[trigger] left[m] == right[m],
    ensures
        sort::keys_order(left, right, order_by, at) == KeyOrder::Same,
    decreases order_by.len() - at,
{
    if at < order_by.len() {
        assert(left[at] == right[at]);
        sort::law_values_have_one_order(left[at], right[at], left[at]);
        lemma_equal_keys(left, right, order_by, at + 1);
    }
}

/// Rows put in order are the rows that were given, and of any two of them the first key in which they
/// differ rises, or falls where the order is descending.
pub proof fn law_sorted_rows_ascend(
    items: Seq<SortView>,
    sorted: Seq<SortView>,
    order_by: Seq<OrderKey>,
    i: int,
    j: int,
    n: int,
)
    requires
        sort::is_sorted_from(items, sorted, order_by),
    ensures
        sorted.len() == items.len(),
        forall|item: SortView| #[trigger] sorted.contains(item) <==> items.contains(item),
        0 <= i < j < sorted.len() && 0 <= n < order_by.len() && (forall|m: int|
            0 <= m < n ==> #[trigger] sorted[i].keys[m] == sorted[j].keys[m]) ==> {
            &&& !order_by[n].descending ==> ascends(sorted[i].keys[n], sorted[j].keys[n])
            &&& order_by[n].descending ==> ascends(sorted[j].keys[n], sorted[i].keys[n])
        },
{
    let places = choose|places: Seq<int>| #[trigger]
        sort::sorted_by(items, sorted, places, order_by);
    assert forall|item: SortView| #[trigger] sorted.contains(item) <==> items.contains(item) by {
        if sorted.contains(item) {
            let at = sorted.index_of(item);
            assert(items[places[at]] == item);
        }
        if items.contains(item) {
            let at = items.index_of(item);
            sort::lemma_arrangement_has(places, items.len(), at);
            let from = places.index_of(at);
            assert(sorted[from] == item);
        }
    }
    if 0 <= i < j < sorted.len() && 0 <= n < order_by.len() && (forall|m: int|
        0 <= m < n ==> #[trigger] sorted[i].keys[m] == sorted[j].keys[m]) {
        assert(sort::in_order(items, places[i], places[j], order_by));
        lemma_first_key_decides(sorted[i].keys, sorted[j].keys, order_by, 0, n);
        law_values_stand_in_order(sorted[i].keys[n], sorted[j].keys[n]);
    }
}

/// How many values the items of a projection before one show of a row.
pub open spec fn offset(projection: Seq<SelectItem>, width: nat, item: nat) -> nat
    decreases item,
{
    if item == 0 {
        0
    } else {
        offset(projection, width, (item - 1) as nat) + (if projection[item - 1] is Wildcard {
            width
        } else {
            1
        })
    }
}

/// Whether values show an item of a projection from a place on.
pub open spec fn shows_item(item: SelectItem, scope: Scope, shown: Seq<ValueView>, at: int) -> bool {
    match item {
        SelectItem::Expression { expression, alias } => at < shown.len() && operators::gives(
            expression,
            scope,
            shown[at],
        ),
        SelectItem::Wildcard => at + scope.row.len() <= shown.len() && shown.subrange(
            at,
            at + scope.row.len(),
        ) == scope.row,
    }
}

/// Whether values are what a projection shows of a row: the values of its items one behind the other,
/// an expression's one and the whole row for a star.
pub open spec fn shows_row(
    projection: Seq<SelectItem>,
    scope: Scope,
    shown: Seq<ValueView>,
) -> bool {
    &&& shown.len() == offset(projection, scope.row.len(), projection.len())
    &&& forall|item: int|
        0 <= item < projection.len() ==> shows_item(
            #[trigger] projection[item],
            scope,
            shown,
            offset(projection, scope.row.len(), item as nat) as int,
        )
}

/// Whether every expression of a projection has a value.
pub open spec fn can_be_shown(projection: Seq<SelectItem>, scope: Scope) -> bool {
    forall|item: int|
        0 <= item < projection.len() ==> ((#[trigger] projection[item]) matches
            SelectItem::Expression { expression, alias } ==> expression::evaluated(
            expression,
            scope.columns,
            scope.row,
            scope.floats,
        ) is Ok)
}

proof fn lemma_still_shown(
    item: SelectItem,
    scope: Scope,
    front: Seq<ValueView>,
    shown: Seq<ValueView>,
    at: int,
)
    requires
        0 <= at,
        shows_item(item, scope, front, at),
        front.len() <= shown.len(),
        forall|i: int| 0 <= i < front.len() ==> #[trigger] shown[i] == front[i],
    ensures
        shows_item(item, scope, shown, at),
{
    if item is Wildcard {
        assert(shown.subrange(at, at + scope.row.len()) =~= front.subrange(
            at,
            at + scope.row.len(),
        ));
    }
}

/// Values that show a projection, with one more item behind it shown behind them.
proof fn lemma_one_more_shown(
    less: Seq<SelectItem>,
    item: SelectItem,
    scope: Scope,
    front: Seq<ValueView>,
    more: Seq<ValueView>,
)
    requires
        shows_row(less, scope, front),
        shows_item(item, scope, front + more, front.len() as int),
        more.len() == (if item is Wildcard {
            scope.row.len()
        } else {
            1
        }),
    ensures
        shows_row(less.push(item), scope, front + more),
{
    let part = less.push(item);
    let shown = front + more;
    let width = scope.row.len();
    lemma_offset_take(part, less, width, less.len());
    assert(offset(part, width, part.len()) == shown.len());
    assert forall|n: int| 0 <= n < part.len() implies shows_item(
        #[trigger] part[n],
        scope,
        shown,
        offset(part, width, n as nat) as int,
    ) by {
        lemma_offset_take(part, less, width, if n < less.len() {
            n as nat
        } else {
            less.len()
        });
        if n < less.len() {
            assert(part[n] == less[n]);
            lemma_still_shown(
                less[n],
                scope,
                front,
                shown,
                offset(less, width, n as nat) as int,
            );
        }
    }
}

proof fn lemma_shown_rows(
    projection: Seq<SelectItem>,
    scope: Scope,
    shown: Seq<ValueView>,
    count: nat,
)
    requires
        count <= projection.len(),
        select::projected(projection, scope.columns, scope.row, scope.floats, count) == Ok::<
            Seq<ValueView>,
            StopView,
        >(shown),
    ensures
        shows_row(projection.take(count as int), scope, shown),
    decreases count,
{
    if count > 0 {
        let before = (count - 1) as nat;
        let less = projection.take(before as int);
        let item = projection[count - 1];
        let front = select::projected(
            projection,
            scope.columns,
            scope.row,
            scope.floats,
            before,
        )->Ok_0;
        lemma_shown_rows(projection, scope, front, before);
        let more = shown.skip(front.len() as int);
        assert(shown =~= front + more);
        if item is Wildcard {
            assert(more =~= scope.row);
            assert(shown.subrange(
                front.len() as int,
                front.len() as int + scope.row.len(),
            ) =~= scope.row);
        }
        lemma_one_more_shown(less, item, scope, front, more);
        assert(projection.take(count as int) =~= less.push(item));
    }
}

proof fn lemma_items_have_values(
    projection: Seq<SelectItem>,
    scope: Scope,
    count: nat,
    item: int,
)
    requires
        count <= projection.len(),
        select::projected(projection, scope.columns, scope.row, scope.floats, count) is Ok,
        0 <= item < count,
        projection[item] is Expression,
    ensures
        expression::evaluated(
            projection[item]->Expression_expression,
            scope.columns,
            scope.row,
            scope.floats,
        ) is Ok,
    decreases count,
{
    if item < count - 1 {
        lemma_items_have_values(projection, scope, (count - 1) as nat, item);
    }
}

proof fn lemma_projected(
    projection: Seq<SelectItem>,
    scope: Scope,
    shown: Seq<ValueView>,
    count: nat,
)
    requires
        count <= projection.len(),
        select::projected(projection, scope.columns, scope.row, scope.floats, count) == Ok::<
            Seq<ValueView>,
            StopView,
        >(shown),
    ensures
        shows_row(projection.take(count as int), scope, shown),
        can_be_shown(projection.take(count as int), scope),
{
    let part = projection.take(count as int);
    lemma_shown_rows(projection, scope, shown, count);
    assert forall|item: int| 0 <= item < part.len() implies ((#[trigger] part[item]) matches
        SelectItem::Expression { expression, alias } ==> expression::evaluated(
        expression,
        scope.columns,
        scope.row,
        scope.floats,
    ) is Ok) by {
        if part[item] is Expression {
            lemma_items_have_values(projection, scope, count, item);
        }
    }
}

proof fn lemma_offset_take(
    first: Seq<SelectItem>,
    second: Seq<SelectItem>,
    width: nat,
    item: nat,
)
    requires
        item <= first.len(),
        item <= second.len(),
        forall|i: int| 0 <= i < item ==> #[trigger] first[i] == second[i],
    ensures
        offset(first, width, item) == offset(second, width, item),
    decreases item,
{
    if item > 0 {
        assert(first[item - 1] == second[item - 1]);
        lemma_offset_take(first, second, width, (item - 1) as nat);
    }
}

proof fn lemma_projects(projection: Seq<SelectItem>, scope: Scope, count: nat)
    requires
        count <= projection.len(),
        can_be_shown(projection, scope),
    ensures
        select::projected(projection, scope.columns, scope.row, scope.floats, count) is Ok,
    decreases count,
{
    if count > 0 {
        lemma_projects(projection, scope, (count - 1) as nat);
        assert(projection[count - 1] is Wildcard || projection[count - 1] is Expression);
    }
}

/// A projection shows the values of its items, in their order, and does so of every row of which each
/// of its expressions has a value.
pub proof fn law_projection_shows_items(projection: Seq<SelectItem>, scope: Scope)
    ensures
        select::projected(
            projection,
            scope.columns,
            scope.row,
            scope.floats,
            projection.len(),
        ) is Ok <==> can_be_shown(projection, scope),
        select::projected(
            projection,
            scope.columns,
            scope.row,
            scope.floats,
            projection.len(),
        ) matches Ok(shown) ==> shows_row(projection, scope, shown),
{
    assert(projection.take(projection.len() as int) =~= projection);
    if let Ok(shown) = select::projected(
        projection,
        scope.columns,
        scope.row,
        scope.floats,
        projection.len(),
    ) {
        lemma_projected(projection, scope, shown, projection.len());
    }
    if can_be_shown(projection, scope) {
        lemma_projects(projection, scope, projection.len());
    }
}

/// Whether columns of a result are those that an item of a projection makes, from a place on: the
/// table's columns for a star, and for an expression one that has the alias as its name, or else the name
/// of the column that the expression is, and the type told of the expression.
pub open spec fn names_item(
    item: SelectItem,
    columns: Seq<ColumnView>,
    made: Seq<OutputColumnView>,
    at: int,
) -> bool {
    match item {
        SelectItem::Expression { expression, alias } => {
            &&& at < made.len()
            &&& alias matches Some(name) ==> made[at].name == name.value@
            &&& alias is None ==> (expression matches Expr::Identifier(name) ==> made[at].name
                == name.value@)
            &&& alias is None && !(expression is Identifier) ==> made[at].name == "?column?"@
            &&& expression::inferred(expression, columns) == Ok::<
                (LogicalType, bool),
                EngineErrorView,
            >((made[at].data_type, made[at].nullable))
        },
        SelectItem::Wildcard => at + columns.len() <= made.len() && forall|c: int|
            0 <= c < columns.len() ==> (#[trigger] made[at + c]) == (OutputColumnView {
                name: columns[c].name,
                data_type: columns[c].data_type,
                nullable: columns[c].nullable,
            }),
    }
}

/// Whether the columns of a result are those that the items of a projection make, one behind the other.
pub open spec fn names_columns(
    projection: Seq<SelectItem>,
    columns: Seq<ColumnView>,
    made: Seq<OutputColumnView>,
) -> bool {
    &&& made.len() == offset(projection, columns.len(), projection.len())
    &&& forall|item: int|
        0 <= item < projection.len() ==> names_item(
            #[trigger] projection[item],
            columns,
            made,
            offset(projection, columns.len(), item as nat) as int,
        )
}

proof fn lemma_still_named(
    item: SelectItem,
    columns: Seq<ColumnView>,
    front: Seq<OutputColumnView>,
    made: Seq<OutputColumnView>,
    at: int,
)
    requires
        0 <= at,
        names_item(item, columns, front, at),
        front.len() <= made.len(),
        forall|i: int| 0 <= i < front.len() ==> #[trigger] made[i] == front[i],
    ensures
        names_item(item, columns, made, at),
{
    if item is Wildcard {
        assert forall|c: int| 0 <= c < columns.len() implies (#[trigger] made[at + c]) == (
        OutputColumnView {
            name: columns[c].name,
            data_type: columns[c].data_type,
            nullable: columns[c].nullable,
        }) by {
            assert(made[at + c] == front[at + c]);
        }
    }
}

/// Columns that a projection makes, with those of one more item behind them.
proof fn lemma_one_more_named(
    less: Seq<SelectItem>,
    item: SelectItem,
    columns: Seq<ColumnView>,
    front: Seq<OutputColumnView>,
    more: Seq<OutputColumnView>,
)
    requires
        names_columns(less, columns, front),
        names_item(item, columns, front + more, front.len() as int),
        more.len() == (if item is Wildcard {
            columns.len()
        } else {
            1
        }),
    ensures
        names_columns(less.push(item), columns, front + more),
{
    let part = less.push(item);
    let made = front + more;
    let width = columns.len();
    lemma_offset_take(part, less, width, less.len());
    assert(offset(part, width, part.len()) == made.len());
    assert forall|n: int| 0 <= n < part.len() implies names_item(
        #[trigger] part[n],
        columns,
        made,
        offset(part, width, n as nat) as int,
    ) by {
        lemma_offset_take(part, less, width, if n < less.len() {
            n as nat
        } else {
            less.len()
        });
        if n < less.len() {
            assert(part[n] == less[n]);
            lemma_still_named(
                less[n],
                columns,
                front,
                made,
                offset(less, width, n as nat) as int,
            );
        }
    }
}

proof fn lemma_columns_named(
    projection: Seq<SelectItem>,
    columns: Seq<ColumnView>,
    made: Seq<OutputColumnView>,
    count: nat,
)
    requires
        count <= projection.len(),
        select::projected_columns(projection, columns, count) == Ok::<
            Seq<OutputColumnView>,
            StopView,
        >(made),
    ensures
        names_columns(projection.take(count as int), columns, made),
    decreases count,
{
    if count > 0 {
        let before = (count - 1) as nat;
        let less = projection.take(before as int);
        let item = projection[count - 1];
        let front = select::projected_columns(projection, columns, before)->Ok_0;
        lemma_columns_named(projection, columns, front, before);
        let more = made.skip(front.len() as int);
        let at = front.len() as int;
        assert(made =~= front + more);
        if item is Wildcard {
            assert(more =~= select::table_columns(columns));
            assert forall|c: int| 0 <= c < columns.len() implies (#[trigger] made[at + c]) == (
            OutputColumnView {
                name: columns[c].name,
                data_type: columns[c].data_type,
                nullable: columns[c].nullable,
            }) by {
                assert(made[at + c] == select::table_columns(columns)[c]);
            }
        }
        lemma_one_more_named(less, item, columns, front, more);
        assert(projection.take(count as int) =~= less.push(item));
    }
}

/// The columns of a result are told by the items of the projection.
pub proof fn law_result_columns_are_named(
    projection: Seq<SelectItem>,
    columns: Seq<ColumnView>,
    made: Seq<OutputColumnView>,
)
    requires
        select::projected_columns(projection, columns, projection.len()) == Ok::<
            Seq<OutputColumnView>,
            StopView,
        >(made),
    ensures
        names_columns(projection, columns, made),
{
    assert(projection.take(projection.len() as int) =~= projection);
    lemma_columns_named(projection, columns, made, projection.len());
}

/// Whether a condition is true of a row, or there is none.
pub open spec fn is_met(selection: Option<Expr>, scope: Scope) -> bool {
    selection matches Some(condition) ==> operators::says(condition, scope, true)
}

/// A row of a table, with the names of its columns and the known results of float arithmetic.
pub open spec fn scope_of(
    columns: Seq<ColumnView>,
    row: StoredView,
    floats: Map<FloatRequest, u64>,
) -> Scope {
    Scope { columns, row: row.values, floats }
}

/// The value of an order key for a row.
pub open spec fn order_value(order_by: Seq<OrderKey>, n: int, scope: Scope) -> ValueView {
    expression::evaluated(order_by[n].expression, scope.columns, scope.row, scope.floats)->Ok_0
}

/// Whether the values of the first order keys are the same for two rows.
pub open spec fn agree(order_by: Seq<OrderKey>, n: int, first: Scope, second: Scope) -> bool {
    forall|m: int|
        0 <= m < n ==> #[trigger] order_value(order_by, m, first) == order_value(
            order_by,
            m,
            second,
        )
}

/// Whether two rows may stand one behind the other: the first order key in which they differ rises, or
/// falls where it is descending, and if there is none they stand as in the table.
pub open spec fn stand(
    order_by: Seq<OrderKey>,
    first: Scope,
    first_place: int,
    second: Scope,
    second_place: int,
) -> bool {
    &&& forall|n: int|
        0 <= n < order_by.len() && #[trigger] agree(order_by, n, first, second) ==> if order_by[n].descending {
            ascends(order_value(order_by, n, second), order_value(order_by, n, first))
        } else {
            ascends(order_value(order_by, n, first), order_value(order_by, n, second))
        }
    &&& agree(order_by, order_by.len() as int, first, second) ==> first_place < second_place
}

/// Whether a row has a value for every expression of a query.
pub open spec fn has_values(select: Select, scope: Scope) -> bool {
    &&& can_be_shown(select.projection@, scope)
    &&& forall|n: int|
        0 <= n < select.order_by@.len() ==> expression::evaluated(
            (#[trigger] select.order_by@[n]).expression,
            scope.columns,
            scope.row,
            scope.floats,
        ) is Ok
}

/// Whether rows are what a query shows of a table, by the places that the rows have in the table.
pub open spec fn shows(
    select: Select,
    columns: Seq<ColumnView>,
    rows: Seq<StoredView>,
    floats: Map<FloatRequest, u64>,
    shown: Seq<Seq<ValueView>>,
    places: Seq<int>,
) -> bool {
    &&& places.len() == shown.len()
    &&& places.no_duplicates()
    &&& forall|i: int|
        0 <= i < places.len() ==> 0 <= (#[trigger] places[i]) < rows.len() && is_met(
            select.selection,
            scope_of(columns, rows[places[i]], floats),
        ) && shows_row(
            select.projection@,
            scope_of(columns, rows[places[i]], floats),
            shown[i],
        )
    &&& forall|i: int, j: int|
        0 <= i < j < places.len() ==> stand(
            select.order_by@,
            scope_of(columns, rows[#[trigger] places[i]], floats),
            places[i],
            scope_of(columns, rows[#[trigger] places[j]], floats),
            places[j],
        )
    &&& select.limit matches Some(limit) ==> shown.len() <= limit
    &&& forall|r: int|
        #![trigger rows[r]]
        0 <= r < rows.len() && is_met(select.selection, scope_of(columns, rows[r], floats))
            && has_values(select, scope_of(columns, rows[r], floats)) && !places.contains(r) ==> {
            &&& select.limit matches Some(limit) && limit == shown.len()
            &&& forall|i: int|
                0 <= i < places.len() ==> stand(
                    select.order_by@,
                    scope_of(columns, rows[#[trigger] places[i]], floats),
                    places[i],
                    scope_of(columns, rows[r], floats),
                    r,
                )
        }
}

proof fn lemma_ordered_by(
    order_by: Seq<OrderKey>,
    scope: Scope,
    keys: Seq<ValueView>,
    count: nat,
)
    requires
        count <= order_by.len(),
        select::ordered_by(order_by, scope.columns, scope.row, scope.floats, count) == Ok::<
            Seq<ValueView>,
            StopView,
        >(keys),
    ensures
        keys.len() == count,
        forall|n: int| 0 <= n < count ==> #[trigger] keys[n] == order_value(order_by, n, scope),
        forall|n: int|
            0 <= n < count ==> expression::evaluated(
                (#[trigger] order_by[n]).expression,
                scope.columns,
                scope.row,
                scope.floats,
            ) is Ok,
    decreases count,
{
    if count > 0 {
        let front = select::ordered_by(
            order_by,
            scope.columns,
            scope.row,
            scope.floats,
            (count - 1) as nat,
        )->Ok_0;
        lemma_ordered_by(order_by, scope, front, (count - 1) as nat);
    }
}

proof fn lemma_orders(order_by: Seq<OrderKey>, scope: Scope, count: nat)
    requires
        count <= order_by.len(),
        forall|n: int|
            0 <= n < count ==> expression::evaluated(
                (#[trigger] order_by[n]).expression,
                scope.columns,
                scope.row,
                scope.floats,
            ) is Ok,
    ensures
        select::ordered_by(order_by, scope.columns, scope.row, scope.floats, count) is Ok,
    decreases count,
{
    if count > 0 {
        lemma_orders(order_by, scope, (count - 1) as nat);
        assert(expression::evaluated(
            order_by[count - 1].expression,
            scope.columns,
            scope.row,
            scope.floats,
        ) is Ok);
    }
}

/// What a query takes of a row that it is about and that has values.
proof fn lemma_taken_of(select: Select, scope: Scope)
    ensures
        is_met(select.selection, scope) && has_values(select, scope) <==> (select::taken_of(
            select,
            scope.columns,
            scope.row,
            scope.floats,
        ) matches Ok(Some(_))),
        select::taken_of(select, scope.columns, scope.row, scope.floats) matches Ok(Some(item)) ==> {
            &&& shows_row(select.projection@, scope, item.row)
            &&& item.keys.len() == select.order_by@.len()
            &&& forall|n: int|
                0 <= n < select.order_by@.len() ==> #[trigger] item.keys[n] == order_value(
                    select.order_by@,
                    n,
                    scope,
                )
        },
{
    operators::law_conditions_choose(select.selection, scope);
    law_projection_shows_items(select.projection@, scope);
    if has_values(select, scope) {
        lemma_orders(select.order_by@, scope, select.order_by@.len());
    }
    if let Ok(keys) = select::ordered_by(
        select.order_by@,
        scope.columns,
        scope.row,
        scope.floats,
        select.order_by@.len(),
    ) {
        lemma_ordered_by(select.order_by@, scope, keys, select.order_by@.len());
    }
}

/// The places of the rows that a query takes, from one on.
spec fn matching_places(
    select: Select,
    columns: Seq<ColumnView>,
    rows: Seq<StoredView>,
    floats: Map<FloatRequest, u64>,
    at: int,
) -> Seq<int>
    decreases rows.len() - at,
{
    if at < 0 || at >= rows.len() {
        Seq::empty()
    } else {
        let rest = matching_places(select, columns, rows, floats, at + 1);
        match select::taken_of(select, columns, rows[at].values, floats) {
            Ok(Some(_)) => seq![at] + rest,
            _ => rest,
        }
    }
}

proof fn lemma_matching(
    select: Select,
    columns: Seq<ColumnView>,
    rows: Seq<StoredView>,
    floats: Map<FloatRequest, u64>,
    at: int,
)
    requires
        0 <= at <= rows.len(),
    ensures
        ({
            let taken = answer::matching(select, columns, rows, floats, at);
            let from = matching_places(select, columns, rows, floats, at);
            &&& from.len() == taken.len()
            &&& forall|i: int|
                0 <= i < from.len() ==> at <= (#[trigger] from[i]) < rows.len()
                    && select::taken_of(select, columns, rows[from[i]].values, floats) == Ok::<
                    Option<SortView>,
                    StopView,
                >(Some(taken[i]))
            &&& forall|i: int, j: int| 0 <= i < j < from.len() ==> from[i] < from[j]
            &&& forall|r: int|
                at <= r < rows.len() && (select::taken_of(
                    select,
                    columns,
                    (#[trigger] rows[r]).values,
                    floats,
                ) matches Ok(Some(_))) ==> from.contains(r)
        }),
    decreases rows.len() - at,
{
    if at < rows.len() {
        lemma_matching(select, columns, rows, floats, at + 1);
        let rest = matching_places(select, columns, rows, floats, at + 1);
        let from = matching_places(select, columns, rows, floats, at);
        let others = answer::matching(select, columns, rows, floats, at + 1);
        let taken = answer::matching(select, columns, rows, floats, at);
        let own = select::taken_of(select, columns, rows[at].values, floats) matches Ok(Some(_));
        if own {
            assert forall|i: int| 0 <= i < from.len() implies at <= (#[trigger] from[i])
                < rows.len() && select::taken_of(
                select,
                columns,
                rows[from[i]].values,
                floats,
            ) == Ok::<Option<SortView>, StopView>(Some(taken[i])) by {
                if i > 0 {
                    assert(from[i] == rest[i - 1]);
                    assert(taken[i] == others[i - 1]);
                }
            }
            assert forall|i: int, j: int| 0 <= i < j < from.len() implies from[i] < from[j] by {
                assert(from[j] == rest[j - 1]);
                if i > 0 {
                    assert(from[i] == rest[i - 1]);
                }
            }
        }
        assert forall|r: int|
            at <= r < rows.len() && (select::taken_of(
                select,
                columns,
                (#[trigger] rows[r]).values,
                floats,
            ) matches Ok(Some(_))) implies from.contains(r) by {
            if r > at {
                assert(rest.contains(r));
                let i = rest.index_of(r);
                assert(own ==> from[i + 1] == r);
            } else {
                assert(from[0] == at);
            }
        }
    }
}

/// Rows in order stand as their order keys tell.
proof fn lemma_stand(
    select: Select,
    columns: Seq<ColumnView>,
    rows: Seq<StoredView>,
    floats: Map<FloatRequest, u64>,
    items: Seq<SortView>,
    from: Seq<int>,
    first: int,
    second: int,
)
    requires
        from.len() == items.len(),
        forall|i: int|
            0 <= i < from.len() ==> 0 <= (#[trigger] from[i]) < rows.len() && select::taken_of(
                select,
                columns,
                rows[from[i]].values,
                floats,
            ) == Ok::<Option<SortView>, StopView>(Some(items[i])),
        forall|i: int, j: int| 0 <= i < j < from.len() ==> from[i] < from[j],
        0 <= first < items.len(),
        0 <= second < items.len(),
        sort::in_order(items, first, second, select.order_by@),
    ensures
        stand(
            select.order_by@,
            scope_of(columns, rows[from[first]], floats),
            from[first],
            scope_of(columns, rows[from[second]], floats),
            from[second],
        ),
{
    let order_by = select.order_by@;
    let one = scope_of(columns, rows[from[first]], floats);
    let two = scope_of(columns, rows[from[second]], floats);
    let a = items[first].keys;
    let b = items[second].keys;
    lemma_taken_of(select, one);
    lemma_taken_of(select, two);
    assert forall|n: int|
        0 <= n < order_by.len() && #[trigger] agree(order_by, n, one, two) implies if order_by[n].descending {
        ascends(order_value(order_by, n, two), order_value(order_by, n, one))
    } else {
        ascends(order_value(order_by, n, one), order_value(order_by, n, two))
    } by {
        assert forall|m: int| 0 <= m < n implies #[trigger] a[m] == b[m] by {
            assert(order_value(order_by, m, one) == order_value(order_by, m, two));
        }
        lemma_first_key_decides(a, b, order_by, 0, n);
        law_values_stand_in_order(a[n], b[n]);
        assert(a[n] == order_value(order_by, n, one));
        assert(b[n] == order_value(order_by, n, two));
    }
    if agree(order_by, order_by.len() as int, one, two) {
        assert forall|m: int| 0 <= m < order_by.len() implies #[trigger] b[m] == a[m] by {
            assert(order_value(order_by, m, one) == order_value(order_by, m, two));
            assert(a[m] == order_value(order_by, m, one));
        }
        lemma_equal_keys(b, a, order_by, 0);
        assert(first < second);
    }
}

/// A query shows of its table the rows of which its condition is true, each once: of each the values of
/// its projection, one row behind another where the first order key in which they differ rises, or falls
/// where it is descending, and rows that agree in all order keys as they stand in the table. It shows
/// no more rows than its limit, and where it leaves rows out, those would stand behind all that it
/// shows, which are as many as the limit. The names of the shown columns come from the projection.
#[verifier::rlimit(40)]
pub proof fn law_select_shows_rows(
    select: Select,
    world: Map<Seq<u8>, Seq<u8>>,
    floats: Map<FloatRequest, u64>,
    table: TableView,
    rows: Seq<StoredView>,
    output: OutputView,
)
    requires
        world.dom().finite(),
        access::table_named(select.from.value@, world) == Ok::<TableView, StopView>(table),
        integrity::consistent(table, world),
        answer::key_column_named(table),
        typing::typed(table.columns),
        !answer::seeks_zero(table, select.selection, floats),
        access::decoded(world::rows_under(world, codec::rows_of(table.id))) == Ok::<
            Seq<StoredView>,
            StopView,
        >(rows),
        select::selected(select, world, floats, output),
    ensures
        output matches OutputView::Query { columns, rows: shown } && names_columns(
            select.projection@,
            table.columns,
            columns,
        ) && exists|places: Seq<int>| #[trigger]
            shows(select, table.columns, rows, floats, shown, places),
{
    answer::law_select_is_exact(select, world, floats, table, rows, output);
    let (columns, shown) = (output->columns, output->rows);
    law_result_columns_are_named(select.projection@, table.columns, columns);
    let order_by = select.order_by@;
    if select.limit == Some(0u64) {
        let places: Seq<int> = Seq::empty();
        assert(shows(select, table.columns, rows, floats, shown, places));
    } else {
        let items = answer::matching(select, table.columns, rows, floats, 0);
        let from = matching_places(select, table.columns, rows, floats, 0);
        lemma_matching(select, table.columns, rows, floats, 0);
        let sorted = choose|sorted: Seq<SortView>|
            #[trigger] sort::is_sorted_from(items, sorted, order_by) && shown == select::limited(
                select::shown(sorted),
                select.limit,
            );
        let order = choose|order: Seq<int>| #[trigger]
            sort::sorted_by(items, sorted, order, order_by);
        let places = Seq::new(shown.len(), |i: int| from[order[i]]);
        assert forall|i: int| 0 <= i < places.len() implies 0 <= (#[trigger] places[i])
            < rows.len() && is_met(
            select.selection,
            scope_of(table.columns, rows[places[i]], floats),
        ) && shows_row(
            select.projection@,
            scope_of(table.columns, rows[places[i]], floats),
            shown[i],
        ) by {
            assert(0 <= order[i] < items.len());
            assert(0 <= from[order[i]] < rows.len());
            lemma_taken_of(select, scope_of(table.columns, rows[places[i]], floats));
            assert(shown[i] == sorted[i].row);
            assert(sorted[i] == items[order[i]]);
        }
        assert forall|i: int, j: int| 0 <= i < j < places.len() implies stand(
            order_by,
            scope_of(table.columns, rows[#[trigger] places[i]], floats),
            places[i],
            scope_of(table.columns, rows[#[trigger] places[j]], floats),
            places[j],
        ) by {
            assert(0 <= order[i] < items.len());
            assert(0 <= order[j] < items.len());
            assert(sort::in_order(items, order[i], order[j], order_by));
            lemma_stand(select, table.columns, rows, floats, items, from, order[i], order[j]);
        }
        assert(places.no_duplicates()) by {
            assert forall|i: int, j: int|
                0 <= i < places.len() && 0 <= j < places.len() && i != j implies places[i]
                != places[j] by {
                assert(order[i] != order[j]);
                assert(0 <= order[i] < from.len() && 0 <= order[j] < from.len());
                if order[i] < order[j] {
                    assert(from[order[i]] < from[order[j]]);
                } else {
                    assert(from[order[j]] < from[order[i]]);
                }
            }
        }
        assert forall|r: int|
            #![trigger rows[r]]
            0 <= r < rows.len() && is_met(
                select.selection,
                scope_of(table.columns, rows[r], floats),
            ) && has_values(select, scope_of(table.columns, rows[r], floats)) && !places.contains(
                r,
            ) implies {
            &&& select.limit matches Some(limit) && limit == shown.len()
            &&& forall|i: int|
                0 <= i < places.len() ==> stand(
                    order_by,
                    scope_of(table.columns, rows[#[trigger] places[i]], floats),
                    places[i],
                    scope_of(table.columns, rows[r], floats),
                    r,
                )
        } by {
            lemma_taken_of(select, scope_of(table.columns, rows[r], floats));
            assert(from.contains(r));
            let item = from.index_of(r);
            sort::lemma_arrangement_has(order, items.len(), item);
            let at = order.index_of(item);
            if at < places.len() {
                assert(places[at] == r);
            }
            assert forall|i: int| 0 <= i < places.len() implies stand(
                order_by,
                scope_of(table.columns, rows[#[trigger] places[i]], floats),
                places[i],
                scope_of(table.columns, rows[r], floats),
                r,
            ) by {
                assert(0 <= order[i] < items.len());
                assert(sort::in_order(items, order[i], order[at], order_by));
                lemma_stand(select, table.columns, rows, floats, items, from, order[i], order[at]);
            }
        }
        assert(shows(select, table.columns, rows, floats, shown, places));
    }
}

/// The rows of a table with integers as its primary key stand in the order of these.
pub proof fn law_rows_stand_in_key_order(
    table: TableView,
    world: Map<Seq<u8>, Seq<u8>>,
    rows: Seq<StoredView>,
    i: int,
    j: int,
)
    requires
        world.dom().finite(),
        integrity::consistent(table, world),
        access::decoded(world::rows_under(world, codec::rows_of(table.id))) == Ok::<
            Seq<StoredView>,
            StopView,
        >(rows),
        0 <= i < j < rows.len(),
        table.primary_key is Some,
        table.primary_key->Some_0 < table.columns.len(),
        table.columns[table.primary_key->Some_0 as int].data_type is Int64,
    ensures
        ({
            let p = table.primary_key->Some_0 as int;
            rows[i].values[p] matches ValueView::Integer(a) && rows[j].values[p] matches
                ValueView::Integer(b) && a < b
        }),
{
    let p = table.primary_key->Some_0 as int;
    let start = codec::rows_of(table.id);
    let all = world::rows_under(world, start);
    integrity::lemma_rows_under(world, start);
    integrity::lemma_decoded(all);
    assert(rows[i].key == all[i].key && rows[j].key == all[j].key);
    assert(integrity::row_sound(table, world, all[i].key));
    assert(integrity::row_sound(table, world, all[j].key));
    let first = rows[i].values[p];
    let second = rows[j].values[p];
    schema::law_accepted_rows(table, rows[i].values, p);
    schema::law_accepted_rows(table, rows[j].values, p);
    let a = codec::identity_of(first)->Ok_0;
    let b = codec::identity_of(second)->Ok_0;
    key::lemma_key_asymmetric(rows[i].key, rows[j].key);
    codec::law_identities_keep_order(second, first);
    bytes::lemma_be_round_trip((first->Integer_0 + SIGN) as nat, 8);
    bytes::lemma_be_round_trip((second->Integer_0 + SIGN) as nat, 8);
    if key::key_lt(b, a) {
        let at: int = key::law_order_shows_in_a_difference(b, a);
        bytes::lemma_be_round_trip(9, 4);
        let front = start.len() + 4;
        assert(rows[i].key =~= start + bytes::be_bytes(9, 4) + a);
        assert(rows[j].key =~= start + bytes::be_bytes(9, 4) + b);
        assert forall|n: int| 0 <= n < front + at implies rows[j].key[n] == rows[i].key[n] by {
            if n >= front {
                assert(rows[j].key[n] == b[n - front]);
                assert(rows[i].key[n] == a[n - front]);
            }
        }
        assert(key::parts_below(rows[j].key, rows[i].key, front + at));
        key::law_first_difference_decides(rows[j].key, rows[i].key, front + at);
    }
}

} // verus!
