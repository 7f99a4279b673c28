//! What a query shows of a table: the rows that meet its condition, in the order asked for, and
//! with a limit the first of them.
use crate::engine::access;
use crate::engine::access::{AccessView, StoredView};
use crate::engine::codec;
use crate::engine::delete;
use crate::engine::error::StopView;
use crate::engine::expression;
use crate::engine::float;
use crate::engine::float::FloatRequest;
use crate::engine::integrity;
use crate::engine::output::{OutputColumnView, OutputView};
use crate::engine::schema;
use crate::engine::schema::{ColumnView, LogicalType, TableView};
use crate::engine::select;
use crate::engine::sort;
use crate::engine::sort::SortView;
use crate::engine::typing;
use crate::engine::value::ValueView;
use crate::engine::world;
use crate::index::key::KeyOrder;
use crate::mvcc::prefix;
use crate::syntax::{CreateTable, Expr, OrderKey, Select};
use vstd::prelude::*;

verus! {

/// What a query takes of the rows, from one on, that meet its condition.
pub open spec fn matching(
    select: Select,
    columns: Seq<ColumnView>,
    rows: Seq<StoredView>,
    floats: Map<FloatRequest, u64>,
    at: int,
) -> Seq<SortView>
    decreases rows.len() - at,
{
    if at < 0 || at >= rows.len() {
        Seq::empty()
    } else {
        let rest = matching(select, columns, rows, floats, at + 1);
        match select::taken_of(select, columns, rows[at].values, floats) {
            Ok(Some(item)) => seq![item] + rest,
            _ => rest,
        }
    }
}

/// Whether a condition finds a row by a key that is a zero, of which floats have two.
pub open spec fn seeks_zero(
    table: TableView,
    selection: Option<Expr>,
    floats: Map<FloatRequest, u64>,
) -> bool {
    &&& selection matches Some(condition)
    &&& access::column_equality(condition) matches Some((name, wanted))
    &&& schema::position_from(table.columns, name, 0) matches Some(position)
    &&& expression::evaluated(
        wanted,
        table.columns,
        access::nulls(table.columns.len()),
        floats,
    ) matches Ok(plain)
    &&& access::coerced(plain, table.columns[position].data_type, floats) matches Ok(
        ValueView::Float(bits),
    )
    &&& float::rank(bits) == 0
}

/// What a query takes one row after the other are the rows that meet its condition, as many as it
/// asks for.
proof fn lemma_taken(
    select: Select,
    table: TableView,
    rows: Seq<StoredView>,
    floats: Map<FloatRequest, u64>,
    before: Seq<SortView>,
    at: int,
)
    requires
        0 <= at <= rows.len(),
        select.order_by@.len() == 0 ==> (select.limit matches Some(limit) ==> before.len()
            <= limit),
    ensures
        select::taken(select, table, rows, floats, before, at) matches Ok(items) ==> {
            let all = before + matching(select, table.columns, rows, floats, at);
            items == (if select.order_by@.len() == 0 && (select.limit matches Some(limit) && limit
                < all.len()) {
                all.take(select.limit->0 as int)
            } else {
                all
            })
        },
    decreases rows.len() - at,
{
    let all = before + matching(select, table.columns, rows, floats, at);
    if at >= rows.len() {
        assert(all =~= before);
        assert(all.take(before.len() as int) =~= before);
    } else if select::has_enough(select, before.len()) {
        assert(all.take(before.len() as int) =~= before);
        assert(all.len() == before.len() ==> all =~= before);
    } else {
        match select::taken_of(select, table.columns, rows[at].values, floats) {
            Err(_) => {},
            Ok(None) => {
                lemma_taken(select, table, rows, floats, before, at + 1);
            },
            Ok(Some(item)) => {
                lemma_taken(select, table, rows, floats, before.push(item), at + 1);
                assert(all =~= before.push(item) + matching(
                    select,
                    table.columns,
                    rows,
                    floats,
                    at + 1,
                ));
            },
        }
    }
}

/// Rows without an order asked for are in order as they are.
proof fn lemma_unordered(items: Seq<SortView>, order_by: Seq<OrderKey>)
    requires
        order_by.len() == 0,
    ensures
        sort::is_sorted_from(items, items, order_by),
{
    let places = Seq::new(items.len(), |i: int| i);
    assert(items =~= Seq::new(places.len(), |i: int| items[places[i]]));
    assert(sort::sorted_by(items, items, places, order_by));
}

/// An expression without columns has the same value on every row.
proof fn lemma_constant(
    expr: Expr,
    columns: Seq<ColumnView>,
    first: Seq<ValueView>,
    second: Seq<ValueView>,
    floats: Map<FloatRequest, u64>,
)
    requires
        access::constant(expr),
    ensures
        expression::evaluated(expr, columns, first, floats) == expression::evaluated(
            expr,
            columns,
            second,
            floats,
        ),
    decreases expr,
{
    match expr {
        Expr::Identifier(_) => {},
        Expr::Literal { .. } => {},
        Expr::Unary { operator, expression } => {
            lemma_constant(*expression, columns, first, second, floats);
        },
        Expr::IsNull { expression, negated } => {
            lemma_constant(*expression, columns, first, second, floats);
        },
        Expr::Parenthesized { expression } => {
            lemma_constant(*expression, columns, first, second, floats);
        },
        Expr::Binary { left, operator, right } => {
            lemma_constant(*left, columns, first, second, floats);
            lemma_constant(*right, columns, first, second, floats);
        },
    }
}

/// The key column of a table is the one that its schema names.
pub open spec fn key_column_named(table: TableView) -> bool {
    forall|i: int|
        0 <= i < table.columns.len() && (#[trigger] table.columns[i]).primary_key ==> i
            <= usize::MAX && table.primary_key == Some(i as usize)
}

/// A column before which there is no key column is the first key column.
proof fn lemma_first_key(columns: Seq<ColumnView>, at: int, i: int)
    requires
        0 <= at <= i < columns.len() <= usize::MAX,
        columns[i].primary_key,
        !schema::two_primaries(columns),
    ensures
        schema::primary_from(columns, at) == Some(i as usize),
    decreases i - at,
{
    if at < i {
        if columns[at].primary_key {
            assert(schema::two_primaries(columns));
        }
        lemma_first_key(columns, at + 1, i);
    }
}

/// The schema of a table made by CREATE TABLE names its key column.
pub proof fn law_created_key_is_named(id: u64, create: CreateTable)
    requires
        create.columns@.len() <= usize::MAX,
    ensures
        schema::created(id, create) matches Ok(table) ==> key_column_named(table),
{
    if let Ok(table) = schema::created(id, create) {
        assert forall|i: int|
            0 <= i < table.columns.len() && (#[trigger] table.columns[i]).primary_key implies i
            <= usize::MAX && table.primary_key == Some(i as usize) by {
            lemma_first_key(table.columns, 0, i);
        }
    }
}

/// Values of a column's type that differ do not compare as equal, but for the two zeros.
proof fn lemma_differing_values(
    held: ValueView,
    plain: ValueView,
    value: ValueView,
    data_type: LogicalType,
    floats: Map<FloatRequest, u64>,
)
    requires
        data_type != LogicalType::Unknown,
        schema::has_type(held, data_type),
        schema::has_type(value, data_type),
        access::coerced(plain, data_type, floats) == Ok::<ValueView, StopView>(value),
        !(value matches ValueView::Float(bits) && float::rank(bits) == 0),
        held != value,
    ensures
        expression::value_order(held, plain, floats) != Ok::<KeyOrder, StopView>(KeyOrder::Same),
        expression::value_order(plain, held, floats) != Ok::<KeyOrder, StopView>(KeyOrder::Same),
{
}

/// A condition that is an equality of a column and a constant is met only where they compare as
/// equal.
proof fn lemma_equality_met(
    condition: Expr,
    columns: Seq<ColumnView>,
    row: Seq<ValueView>,
    floats: Map<FloatRequest, u64>,
    position: int,
)
    requires
        access::column_equality(condition) matches Some((name, wanted)) && schema::position_from(
            columns,
            name,
            0,
        ) == Some(position),
        0 <= position < row.len(),
        expression::meets(condition, columns, row, floats) == Ok::<bool, StopView>(true),
    ensures
        access::column_equality(condition) matches Some((name, wanted))
            && expression::evaluated(wanted, columns, row, floats) matches Ok(plain) && !(
        plain is Null) && !(row[position] is Null) && (expression::value_order(
            row[position],
            plain,
            floats,
        ) == Ok::<KeyOrder, StopView>(KeyOrder::Same) || expression::value_order(
            plain,
            row[position],
            floats,
        ) == Ok::<KeyOrder, StopView>(KeyOrder::Same)),
{
    reveal_with_fuel(expression::evaluated, 2);
}

/// A row that is not the one that a condition finds by its key does not meet the condition.
pub proof fn lemma_only_the_found(
    table: TableView,
    selection: Option<Expr>,
    world: Map<Seq<u8>, Seq<u8>>,
    floats: Map<FloatRequest, u64>,
    found: Option<Seq<u8>>,
    row: StoredView,
)
    requires
        integrity::consistent(table, world),
        key_column_named(table),
        typing::typed(table.columns),
        !seeks_zero(table, selection, floats),
        access::planned(table, selection, world, floats) == Ok::<AccessView, StopView>(
            AccessView::Point(found),
        ),
        world.contains_key(row.key),
        prefix::starts_with(row.key, codec::rows_of(table.id)),
        integrity::row_at(world, row.key) == Some(row.values),
        found != Some(row.key),
    ensures
        delete::chosen(selection, table.columns, row.values, floats) != Ok::<bool, StopView>(true),
{
    let condition = selection->0;
    let (name, wanted) = access::column_equality(condition)->0;
    let position = schema::position_from(table.columns, name, 0)->0;
    typing::lemma_position(table.columns, name, 0);
    let column = table.columns[position];
    let blank = access::nulls(table.columns.len());
    lemma_constant(wanted, table.columns, blank, row.values, floats);
    let plain = expression::evaluated(wanted, table.columns, blank, floats)->Ok_0;
    assert(integrity::row_sound(table, world, row.key));
    if delete::chosen(selection, table.columns, row.values, floats) == Ok::<bool, StopView>(true) {
        schema::law_accepted_rows(table, row.values, position);
        lemma_equality_met(condition, table.columns, row.values, floats, position);
        let value = access::coerced(plain, column.data_type, floats)->Ok_0;
        integrity::law_point_read_finds_the_row(table, world, position, value, found, row.key);
        lemma_differing_values(row.values[position], plain, value, column.data_type, floats);
    }
}

/// Where no row from one on meets a condition, nothing is taken.
proof fn lemma_none_match(
    select: Select,
    columns: Seq<ColumnView>,
    rows: Seq<StoredView>,
    floats: Map<FloatRequest, u64>,
    at: int,
)
    requires
        0 <= at <= rows.len(),
        forall|i: int|
            at <= i < rows.len() ==> delete::chosen(
                select.selection,
                columns,
                (#[trigger] rows[i]).values,
                floats,
            ) != Ok::<bool, StopView>(true),
    ensures
        matching(select, columns, rows, floats, at) == Seq::<SortView>::empty(),
    decreases rows.len() - at,
{
    if at < rows.len() {
        lemma_none_match(select, columns, rows, floats, at + 1);
        assert(rows[at].values == rows[at].values);
    }
}

/// Where one row alone can meet a condition, what is taken is taken of it.
proof fn lemma_one_matches(
    select: Select,
    columns: Seq<ColumnView>,
    rows: Seq<StoredView>,
    floats: Map<FloatRequest, u64>,
    place: int,
    at: int,
)
    requires
        0 <= at <= place < rows.len(),
        forall|i: int|
            at <= i < rows.len() && i != place ==> delete::chosen(
                select.selection,
                columns,
                (#[trigger] rows[i]).values,
                floats,
            ) != Ok::<bool, StopView>(true),
    ensures
        matching(select, columns, rows, floats, at) == matching(
            select,
            columns,
            seq![rows[place]],
            floats,
            0,
        ),
    decreases rows.len() - at,
{
    let one = seq![rows[place]];
    assert(matching(select, columns, one, floats, 1) == Seq::<SortView>::empty());
    if at < place {
        lemma_one_matches(select, columns, rows, floats, place, at + 1);
        assert(rows[at].values == rows[at].values);
    } else {
        lemma_none_match(select, columns, rows, floats, at + 1);
    }
}

/// However a statement finds the rows that it reads, those that meet its condition are those of the
/// whole table.
proof fn lemma_reads_what_matches(
    select: Select,
    world: Map<Seq<u8>, Seq<u8>>,
    floats: Map<FloatRequest, u64>,
    table: TableView,
    rows: Seq<StoredView>,
)
    requires
        world.dom().finite(),
        integrity::consistent(table, world),
        key_column_named(table),
        typing::typed(table.columns),
        !seeks_zero(table, select.selection, floats),
        access::decoded(world::rows_under(world, codec::rows_of(table.id))) == Ok::<
            Seq<StoredView>,
            StopView,
        >(rows),
    ensures
        access::rows_read(table, select.selection, world, floats) matches Ok(read) ==> matching(
            select,
            table.columns,
            read,
            floats,
            0,
        ) == matching(select, table.columns, rows, floats, 0),
{
    integrity::law_scan_reads_every_row(table, world);
    if let Ok(read) = access::rows_read(table, select.selection, world, floats) {
        match access::planned(table, select.selection, world, floats)->Ok_0 {
            AccessView::Scan => {},
            AccessView::Point(found) => {
                assert forall|i: int|
                    0 <= i < rows.len() && found != Some((#[trigger] rows[i]).key) implies
                    delete::chosen(select.selection, table.columns, rows[i].values, floats) != Ok::<
                    bool,
                    StopView,
                >(true) by {
                    lemma_only_the_found(
                        table,
                        select.selection,
                        world,
                        floats,
                        found,
                        rows[i],
                    );
                }
                if exists|i: int| 0 <= i < rows.len() && found == Some((#[trigger] rows[i]).key) {
                    let place = choose|i: int|
                        0 <= i < rows.len() && found == Some((#[trigger] rows[i]).key);
                    lemma_one_matches(select, table.columns, rows, floats, place, 0);
                    assert(read =~= seq![rows[place]]);
                } else {
                    lemma_none_match(select, table.columns, rows, floats, 0);
                    if let Some(k) = found {
                        if world.contains_key(k) {
                            integrity::lemma_point_key(
                                table,
                                select.selection,
                                world,
                                floats,
                                k,
                            );
                            assert(world.contains_key(k) && prefix::starts_with(
                                k,
                                codec::rows_of(table.id),
                            ));
                        }
                    }
                    assert(read =~= Seq::empty());
                }
            },
        }
    }
}

/// A query shows exactly the rows of its table that meet its condition, each once, sorted by its
/// keys with ties as the rows stand in the table; with a limit it shows the first of the same rows,
/// as many as the limit.
///
/// The answer is the same whether the table is read through or a row is found by its key. Left out
/// is a search by key for a zero of a float column, which finds the one zero of the two that has
/// the sign asked for. A limit of zero shows nothing and reads nothing.
pub proof fn law_select_is_exact(
    select: Select,
    world: Map<Seq<u8>, Seq<u8>>,
    floats: Map<FloatRequest, u64>,
    table: TableView,
    rows: Seq<StoredView>,
    output: OutputView,
)
    requires
        world.dom().finite(),
        access::table_named(select.from.value@, world) == Ok::<TableView, StopView>(table),
        integrity::consistent(table, world),
        key_column_named(table),
        typing::typed(table.columns),
        !seeks_zero(table, select.selection, floats),
        access::decoded(world::rows_under(world, codec::rows_of(table.id))) == Ok::<
            Seq<StoredView>,
            StopView,
        >(rows),
        select::selected(select, world, floats, output),
    ensures
        output matches OutputView::Query { columns, rows: shown } && {
            &&& select::projected_columns(
                select.projection@,
                table.columns,
                select.projection@.len(),
            ) == Ok::<Seq<OutputColumnView>, StopView>(columns)
            &&& if select.limit == Some(0u64) {
                shown == Seq::<Seq<ValueView>>::empty()
            } else {
                exists|sorted: Seq<SortView>|
                    #[trigger] sort::is_sorted_from(
                        matching(select, table.columns, rows, floats, 0),
                        sorted,
                        select.order_by@,
                    ) && shown == select::limited(select::shown(sorted), select.limit)
            }
        },
{
    let (columns, items) = select::gathered(select, world, floats)->Ok_0;
    let all = matching(select, table.columns, rows, floats, 0);
    if select.limit == Some(0u64) {
        if select.order_by@.len() > 0 {
            let sorted = choose|sorted: Seq<SortView>|
                #[trigger] sort::is_sorted_from(items, sorted, select.order_by@) && output == (
                OutputView::Query {
                    columns,
                    rows: select::limited(select::shown(sorted), select.limit),
                });
            assert(select::shown(sorted) =~= Seq::empty());
        } else {
            assert(select::shown(items) =~= Seq::empty());
        }
    } else {
        lemma_reads_what_matches(select, world, floats, table, rows);
        let read = access::rows_read(table, select.selection, world, floats)->Ok_0;
        lemma_taken(select, table, read, floats, Seq::empty(), 0);
        assert(Seq::<SortView>::empty() + all =~= all);
        if select.order_by@.len() == 0 {
            lemma_unordered(all, select.order_by@);
            assert(select::shown(items) =~= select::limited(select::shown(all), select.limit));
        }
    }
}

} // verus!
