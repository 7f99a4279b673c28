//! SELECT.
use crate::engine::access;
use crate::engine::access::{load_schema, read_rows, StoredRow, StoredView};
use crate::engine::delete;
use crate::engine::delete::is_chosen;
use crate::engine::error;
use crate::engine::error::{EngineError, EngineErrorView, Stop, StopView};
use crate::engine::expression;
use crate::engine::expression::{evaluate, infer_type, wants_also};
use crate::engine::float::{FloatRequest, FloatTable};
use crate::engine::output;
use crate::engine::output::{OutputColumn, OutputColumnView, OutputView, StatementOutput};
use crate::engine::schema;
use crate::engine::schema::{ColumnView, TableSchema, TableView};
use crate::engine::sort;
use crate::engine::sort::{sort_rows, SortItem, SortView};
use crate::engine::value;
use crate::engine::value::{copy_text, Value, ValueView};
use crate::engine::world;
use crate::mvcc::database::MvccDatabase;
use crate::mvcc::transaction::Transaction;
use crate::syntax::{Expr, Identifier, OrderKey, Select, SelectItem};
use vstd::prelude::*;
use vstd::string::*;

verus! {

/// The name of a column that an expression makes.
pub open spec fn shown_name(expression: Expr, alias: Option<Identifier>) -> Seq<char> {
    match alias {
        Some(identifier) => identifier.value@,
        None => match expression {
            Expr::Identifier(identifier) => identifier.value@,
            _ => "?column?"@,
        },
    }
}

pub open spec fn table_columns(columns: Seq<ColumnView>) -> Seq<OutputColumnView> {
    Seq::new(
        columns.len(),
        |i: int|
            OutputColumnView {
                name: columns[i].name,
                data_type: columns[i].data_type,
                nullable: columns[i].nullable,
            },
    )
}

/// The columns that the first items of a projection make.
pub open spec fn projected_columns(
    projection: Seq<SelectItem>,
    columns: Seq<ColumnView>,
    count: nat,
) -> Result<Seq<OutputColumnView>, StopView>
    decreases count,
{
    if count == 0 {
        Ok(Seq::empty())
    } else {
        match projected_columns(projection, columns, (count - 1) as nat) {
            Err(stop) => Err(stop),
            Ok(front) => match projection[count - 1] {
                SelectItem::Wildcard => Ok(front + table_columns(columns)),
                SelectItem::Expression { expression, alias } => match expression::inferred(
                    expression,
                    columns,
                ) {
                    Err(error) => Err(StopView::Error(error)),
                    Ok((data_type, nullable)) => Ok(
                        front.push(
                            OutputColumnView {
                                name: shown_name(expression, alias),
                                data_type,
                                nullable,
                            },
                        ),
                    ),
                },
            },
        }
    }
}

/// The first failure among the order keys, from one on, that have no type.
pub open spec fn untyped_key(order_by: Seq<OrderKey>, columns: Seq<ColumnView>, at: int) -> Option<
    EngineErrorView,
>
    decreases order_by.len() - at,
{
    if at < 0 || at >= order_by.len() {
        None
    } else {
        match expression::inferred(order_by[at].expression, columns) {
            Err(error) => Some(error),
            Ok(_) => untyped_key(order_by, columns, at + 1),
        }
    }
}

/// The values that the first items of a projection show of a row.
pub open spec fn projected(
    projection: Seq<SelectItem>,
    columns: Seq<ColumnView>,
    values: Seq<ValueView>,
    floats: Map<FloatRequest, u64>,
    count: nat,
) -> Result<Seq<ValueView>, StopView>
    decreases count,
{
    if count == 0 {
        Ok(Seq::empty())
    } else {
        match projected(projection, columns, values, floats, (count - 1) as nat) {
            Err(stop) => Err(stop),
            Ok(front) => match projection[count - 1] {
                SelectItem::Wildcard => Ok(front + values),
                SelectItem::Expression { expression, alias } => match expression::evaluated(
                    expression,
                    columns,
                    values,
                    floats,
                ) {
                    Err(stop) => Err(stop),
                    Ok(value) => Ok(front.push(value)),
                },
            },
        }
    }
}

/// The values of the first order keys for a row.
pub open spec fn ordered_by(
    order_by: Seq<OrderKey>,
    columns: Seq<ColumnView>,
    values: Seq<ValueView>,
    floats: Map<FloatRequest, u64>,
    count: nat,
) -> Result<Seq<ValueView>, StopView>
    decreases count,
{
    if count == 0 {
        Ok(Seq::empty())
    } else {
        match ordered_by(order_by, columns, values, floats, (count - 1) as nat) {
            Err(stop) => Err(stop),
            Ok(front) => match expression::evaluated(
                order_by[count - 1].expression,
                columns,
                values,
                floats,
            ) {
                Err(stop) => Err(stop),
                Ok(value) => Ok(front.push(value)),
            },
        }
    }
}

/// What a query takes of a row, if it is about the row.
pub open spec fn taken_of(
    select: Select,
    columns: Seq<ColumnView>,
    values: Seq<ValueView>,
    floats: Map<FloatRequest, u64>,
) -> Result<Option<SortView>, StopView> {
    match delete::chosen(select.selection, columns, values, floats) {
        Err(stop) => Err(stop),
        Ok(false) => Ok(None),
        Ok(true) => match projected(
            select.projection@,
            columns,
            values,
            floats,
            select.projection@.len(),
        ) {
            Err(stop) => Err(stop),
            Ok(row) => match ordered_by(
                select.order_by@,
                columns,
                values,
                floats,
                select.order_by@.len(),
            ) {
                Err(stop) => Err(stop),
                Ok(keys) => Ok(Some(SortView { keys, row })),
            },
        },
    }
}

/// Whether a query without an order has all the rows it asks for.
pub open spec fn has_enough(select: Select, count: nat) -> bool {
    select.order_by@.len() == 0 && (select.limit matches Some(limit) && count >= limit)
}

/// What a query takes of the rows from one on, behind what it took before.
pub open spec fn taken(
    select: Select,
    table: TableView,
    rows: Seq<StoredView>,
    floats: Map<FloatRequest, u64>,
    before: Seq<SortView>,
    at: int,
) -> Result<Seq<SortView>, StopView>
    decreases rows.len() - at,
{
    if at < 0 || at >= rows.len() || has_enough(select, before.len()) {
        Ok(before)
    } else {
        match schema::row_refused(table, rows[at].values) {
            Some(refusal) => Err(StopView::Error(refusal)),
            None => match taken_of(select, table.columns, rows[at].values, floats) {
                Err(stop) => Err(stop),
                Ok(None) => taken(select, table, rows, floats, before, at + 1),
                Ok(Some(item)) => taken(select, table, rows, floats, before.push(item), at + 1),
            },
        }
    }
}

/// The columns of a query's result, and what it takes of the rows, before they are put in order.
pub open spec fn gathered(
    select: Select,
    world: Map<Seq<u8>, Seq<u8>>,
    floats: Map<FloatRequest, u64>,
) -> Result<(Seq<OutputColumnView>, Seq<SortView>), StopView> {
    match access::table_named(select.from.value@, world) {
        Err(stop) => Err(stop),
        Ok(table) => match projected_columns(
            select.projection@,
            table.columns,
            select.projection@.len(),
        ) {
            Err(stop) => Err(stop),
            Ok(columns) => match untyped_key(select.order_by@, table.columns, 0) {
                Some(error) => Err(StopView::Error(error)),
                None => if select.limit == Some(0u64) {
                    Ok((columns, Seq::empty()))
                } else {
                    match access::rows_read(table, select.selection, world, floats) {
                        Err(stop) => Err(stop),
                        Ok(rows) => match taken(select, table, rows, floats, Seq::empty(), 0) {
                            Err(stop) => Err(stop),
                            Ok(items) => Ok((columns, items)),
                        },
                    }
                },
            },
        },
    }
}

pub open spec fn shown(items: Seq<SortView>) -> Seq<Seq<ValueView>> {
    Seq::new(items.len(), |i: int| items[i].row)
}

/// The first rows, as many as a query asks for.
pub open spec fn limited(rows: Seq<Seq<ValueView>>, limit: Option<u64>) -> Seq<Seq<ValueView>> {
    match limit {
        Some(count) if count < rows.len() => rows.take(count as int),
        _ => rows,
    }
}

/// Whether an output is the answer to a query that gathered these rows: in the order asked for, and
/// no more than asked for.
pub open spec fn answers(
    select: Select,
    columns: Seq<OutputColumnView>,
    items: Seq<SortView>,
    output: OutputView,
) -> bool {
    if select.order_by@.len() == 0 {
        output == (OutputView::Query { columns, rows: shown(items) })
    } else {
        exists|sorted: Seq<SortView>|
            #[trigger] sort::is_sorted_from(items, sorted, select.order_by@) && output == (
            OutputView::Query { columns, rows: limited(shown(sorted), select.limit) })
    }
}

/// Whether an output is the answer to a query.
pub open spec fn selected(
    select: Select,
    world: Map<Seq<u8>, Seq<u8>>,
    floats: Map<FloatRequest, u64>,
    output: OutputView,
) -> bool {
    gathered(select, world, floats) matches Ok(pair) && answers(
        select,
        pair.0,
        pair.1,
        output,
    )
}

fn expression_name(expression: &Expr) -> (name: String)
    ensures
        name@ == shown_name(*expression, None),
{
    match expression {
        Expr::Identifier(identifier) => copy_text(&identifier.value),
        _ => String::from_str("?column?"),
    }
}

proof fn lemma_columns_stop(
    projection: Seq<SelectItem>,
    columns: Seq<ColumnView>,
    few: nat,
    many: nat,
)
    requires
        projected_columns(projection, columns, few) is Err,
        few <= many,
    ensures
        projected_columns(projection, columns, many) == projected_columns(
            projection,
            columns,
            few,
        ),
    decreases many,
{
    if few < many {
        lemma_columns_stop(projection, columns, few, (many - 1) as nat);
    }
}

fn put_table_columns(out: &mut Vec<OutputColumn>, table: &TableSchema)
    ensures
        output::output_columns(final(out)@) == output::output_columns(old(out)@) + table_columns(
            table@.columns,
        ),
{
    let ghost before = output::output_columns(out@);
    let ghost all = table_columns(table@.columns);
    let mut index: usize = 0;
    assert(output::output_columns(out@) =~= before + all.take(0));
    while index < table.columns.len()
        invariant
            index <= table.columns@.len(),
            all == table_columns(table@.columns),
            output::output_columns(out@) == before + all.take(index as int),
        decreases table.columns@.len() - index,
    {
        let column = &table.columns[index];
        let ghost partly = output::output_columns(out@);
        let made = OutputColumn {
            name: copy_text(&column.name),
            data_type: column.data_type,
            nullable: column.nullable,
        };
        assert(made@ == all[index as int]) by {
            assert(table@.columns[index as int] == column@);
        }
        let ghost view = made@;
        out.push(made);
        assert(output::output_columns(out@) =~= partly.push(view));
        assert(output::output_columns(out@) =~= before + all.take(index + 1));
        index = index + 1;
    }
    assert(all.take(index as int) =~= all);
}

/// The columns of a query's result.
fn projection_columns(table: &TableSchema, projection: &Vec<SelectItem>) -> (made: Result<
    Vec<OutputColumn>,
    Stop,
>)
    ensures
        match made {
            Ok(made) => projected_columns(
                projection@,
                table@.columns,
                projection@.len(),
            ) == Ok::<Seq<OutputColumnView>, StopView>(output::output_columns(made@)),
            Err(stop) => projected_columns(
                projection@,
                table@.columns,
                projection@.len(),
            ) == Err::<Seq<OutputColumnView>, StopView>(stop@) && !(stop is Needs),
        },
{
    let mut made: Vec<OutputColumn> = Vec::new();
    let mut index: usize = 0;
    assert(output::output_columns(made@) =~= Seq::empty());
    while index < projection.len()
        invariant
            index <= projection@.len(),
            projected_columns(projection@, table@.columns, index as nat) == Ok::<
                Seq<OutputColumnView>,
                StopView,
            >(output::output_columns(made@)),
        decreases projection@.len() - index,
    {
        match &projection[index] {
            SelectItem::Wildcard => {
                put_table_columns(&mut made, table);
            },
            SelectItem::Expression { expression, alias } => {
                let (data_type, nullable) = match infer_type(expression, table) {
                    Err(error) => {
                        proof {
                            lemma_columns_stop(
                                projection@,
                                table@.columns,
                                (index + 1) as nat,
                                projection@.len(),
                            );
                        }
                        return Err(Stop::Error(error));
                    },
                    Ok(found) => found,
                };
                let name = match alias {
                    Some(identifier) => copy_text(&identifier.value),
                    None => expression_name(expression),
                };
                let ghost before = output::output_columns(made@);
                let column = OutputColumn { name, data_type, nullable };
                let ghost view = column@;
                made.push(column);
                assert(output::output_columns(made@) =~= before.push(view));
            },
        }
        index = index + 1;
    }
    Ok(made)
}

/// Whether all order keys have a type.
fn check_order_keys(order_by: &Vec<OrderKey>, table: &TableSchema) -> (done: Result<(), Stop>)
    ensures
        match done {
            Ok(_) => untyped_key(order_by@, table@.columns, 0) is None,
            Err(stop) => untyped_key(order_by@, table@.columns, 0) matches Some(error) && stop@
                == StopView::Error(error) && !(stop is Needs),
        },
{
    let mut index: usize = 0;
    while index < order_by.len()
        invariant
            index <= order_by@.len(),
            untyped_key(order_by@, table@.columns, 0) == untyped_key(
                order_by@,
                table@.columns,
                index as int,
            ),
        decreases order_by@.len() - index,
    {
        match infer_type(&order_by[index].expression, table) {
            Err(error) => {
                return Err(Stop::Error(error));
            },
            Ok(_) => {},
        }
        index = index + 1;
    }
    Ok(())
}

proof fn lemma_projected_stop(
    projection: Seq<SelectItem>,
    columns: Seq<ColumnView>,
    values: Seq<ValueView>,
    floats: Map<FloatRequest, u64>,
    few: nat,
    many: nat,
)
    requires
        projected(projection, columns, values, floats, few) is Err,
        few <= many,
    ensures
        projected(projection, columns, values, floats, many) == projected(
            projection,
            columns,
            values,
            floats,
            few,
        ),
    decreases many,
{
    if few < many {
        lemma_projected_stop(projection, columns, values, floats, few, (many - 1) as nat);
    }
}

fn put_values(out: &mut Vec<Value>, values: &[Value])
    ensures
        value::value_views(final(out)@) == value::value_views(old(out)@) + value::value_views(
            values@,
        ),
{
    let mut copy = value::copy_values(values);
    let ghost first = value::value_views(out@);
    let ghost second = value::value_views(copy@);
    out.append(&mut copy);
    assert(value::value_views(out@) =~= first + second);
}

/// What a projection shows of a row.
fn project_row(
    projection: &Vec<SelectItem>,
    table: &TableSchema,
    values: &[Value],
    floats: &FloatTable,
) -> (row: Result<Vec<Value>, Stop>)
    requires
        floats.wf(),
    ensures
        match row {
            Ok(row) => projected(
                projection@,
                table@.columns,
                value::value_views(values@),
                floats@,
                projection@.len(),
            ) == Ok::<Seq<ValueView>, StopView>(value::value_views(row@)),
            Err(stop) => projected(
                projection@,
                table@.columns,
                value::value_views(values@),
                floats@,
                projection@.len(),
            ) == Err::<Seq<ValueView>, StopView>(stop@) && error::asks_anew(stop, floats@),
        },
{
    let ghost views = value::value_views(values@);
    let mut row: Vec<Value> = Vec::new();
    let mut index: usize = 0;
    assert(value::value_views(row@) =~= Seq::empty());
    while index < projection.len()
        invariant
            index <= projection@.len(),
            floats.wf(),
            views == value::value_views(values@),
            projected(projection@, table@.columns, views, floats@, index as nat) == Ok::<
                Seq<ValueView>,
                StopView,
            >(value::value_views(row@)),
        decreases projection@.len() - index,
    {
        match &projection[index] {
            SelectItem::Wildcard => {
                put_values(&mut row, values);
            },
            SelectItem::Expression { expression, alias: _ } => {
                match evaluate(expression, table, values, floats) {
                    Err(stop) => {
                        proof {
                            lemma_projected_stop(
                                projection@,
                                table@.columns,
                                views,
                                floats@,
                                (index + 1) as nat,
                                projection@.len(),
                            );
                        }
                        return Err(stop);
                    },
                    Ok(value) => {
                        let ghost before = value::value_views(row@);
                        let ghost added = value@;
                        row.push(value);
                        assert(value::value_views(row@) =~= before.push(added));
                    },
                }
            },
        }
        index = index + 1;
    }
    Ok(row)
}

proof fn lemma_ordered_stop(
    order_by: Seq<OrderKey>,
    columns: Seq<ColumnView>,
    values: Seq<ValueView>,
    floats: Map<FloatRequest, u64>,
    few: nat,
    many: nat,
)
    requires
        ordered_by(order_by, columns, values, floats, few) is Err,
        few <= many,
    ensures
        ordered_by(order_by, columns, values, floats, many) == ordered_by(
            order_by,
            columns,
            values,
            floats,
            few,
        ),
    decreases many,
{
    if few < many {
        lemma_ordered_stop(order_by, columns, values, floats, few, (many - 1) as nat);
    }
}

/// The values of the order keys for a row.
fn order_values_of(
    order_by: &Vec<OrderKey>,
    table: &TableSchema,
    values: &[Value],
    floats: &FloatTable,
) -> (keys: Result<Vec<Value>, Stop>)
    requires
        floats.wf(),
    ensures
        match keys {
            Ok(keys) => ordered_by(
                order_by@,
                table@.columns,
                value::value_views(values@),
                floats@,
                order_by@.len(),
            ) == Ok::<Seq<ValueView>, StopView>(value::value_views(keys@)) && keys@.len()
                == order_by@.len(),
            Err(stop) => ordered_by(
                order_by@,
                table@.columns,
                value::value_views(values@),
                floats@,
                order_by@.len(),
            ) == Err::<Seq<ValueView>, StopView>(stop@) && error::asks_anew(stop, floats@),
        },
{
    let ghost views = value::value_views(values@);
    let mut keys: Vec<Value> = Vec::new();
    let mut index: usize = 0;
    assert(value::value_views(keys@) =~= Seq::empty());
    while index < order_by.len()
        invariant
            index <= order_by@.len(),
            keys@.len() == index,
            floats.wf(),
            views == value::value_views(values@),
            ordered_by(order_by@, table@.columns, views, floats@, index as nat) == Ok::<
                Seq<ValueView>,
                StopView,
            >(value::value_views(keys@)),
        decreases order_by@.len() - index,
    {
        match evaluate(&order_by[index].expression, table, values, floats) {
            Err(stop) => {
                proof {
                    lemma_ordered_stop(
                        order_by@,
                        table@.columns,
                        views,
                        floats@,
                        (index + 1) as nat,
                        order_by@.len(),
                    );
                }
                return Err(stop);
            },
            Ok(value) => {
                let ghost before = value::value_views(keys@);
                let ghost added = value@;
                keys.push(value);
                assert(value::value_views(keys@) =~= before.push(added));
            },
        }
        index = index + 1;
    }
    Ok(keys)
}

/// What a query takes of a row, if it is about the row.
fn take_row(select: &Select, table: &TableSchema, values: &[Value], floats: &FloatTable) -> (item:
    Result<Option<SortItem>, Stop>)
    requires
        floats.wf(),
    ensures
        match item {
            Ok(None) => taken_of(
                *select,
                table@.columns,
                value::value_views(values@),
                floats@,
            ) == Ok::<Option<SortView>, StopView>(None),
            Ok(Some(item)) => taken_of(
                *select,
                table@.columns,
                value::value_views(values@),
                floats@,
            ) == Ok::<Option<SortView>, StopView>(Some(item@)) && item.keys@.len()
                == select.order_by@.len(),
            Err(stop) => taken_of(
                *select,
                table@.columns,
                value::value_views(values@),
                floats@,
            ) == Err::<Option<SortView>, StopView>(stop@) && error::asks_anew(stop, floats@),
        },
{
    match is_chosen(&select.selection, table, values, floats) {
        Err(stop) => Err(stop),
        Ok(false) => Ok(None),
        Ok(true) => match project_row(&select.projection, table, values, floats) {
            Err(stop) => Err(stop),
            Ok(row) => match order_values_of(&select.order_by, table, values, floats) {
                Err(stop) => Err(stop),
                Ok(keys) => Ok(Some(SortItem { keys, row })),
            },
        },
    }
}

/// A stop for float results with those that later rows want as well.
fn wanted_by_rows(
    stop: Stop,
    select: &Select,
    table: &TableSchema,
    rows: &Vec<StoredRow>,
    from: usize,
    floats: &FloatTable,
) -> (joint: Stop)
    requires
        floats.wf(),
        error::asks_anew(stop, floats@),
    ensures
        joint@ == stop@,
        error::asks_anew(joint, floats@),
{
    let ghost view = stop@;
    let mut joint = stop;
    if let Stop::Error(_) = joint {
        return joint;
    }
    let mut index: usize = from;
    while index < rows.len()
        invariant
            floats.wf(),
            joint@ == view,
            error::asks_anew(joint, floats@),
        decreases rows@.len() - index,
    {
        let other = take_row(select, table, rows[index].values.as_slice(), floats);
        joint = wants_also(joint, other, floats);
        index = index + 1;
    }
    joint
}

/// Takes from the rows what a query asks for.
fn take_rows(select: &Select, table: &TableSchema, rows: &Vec<StoredRow>, floats: &FloatTable) -> (items:
    Result<Vec<SortItem>, Stop>)
    requires
        floats.wf(),
    ensures
        match items {
            Ok(items) => taken(
                *select,
                table@,
                access::stored_views(rows@),
                floats@,
                Seq::empty(),
                0,
            ) == Ok::<Seq<SortView>, StopView>(sort::sort_views(items@)) && forall|i: int|
                0 <= i < items@.len() ==> (#[trigger] items@[i]).keys@.len()
                    == select.order_by@.len(),
            Err(stop) => taken(
                *select,
                table@,
                access::stored_views(rows@),
                floats@,
                Seq::empty(),
                0,
            ) == Err::<Seq<SortView>, StopView>(stop@) && error::asks_anew(stop, floats@),
        },
{
    let ghost views = access::stored_views(rows@);
    let mut items: Vec<SortItem> = Vec::new();
    let mut index: usize = 0;
    assert(sort::sort_views(items@) =~= Seq::empty());
    while index < rows.len()
        invariant
            index <= rows@.len(),
            floats.wf(),
            views == access::stored_views(rows@),
            forall|i: int|
                0 <= i < items@.len() ==> (#[trigger] items@[i]).keys@.len()
                    == select.order_by@.len(),
            taken(*select, table@, views, floats@, Seq::empty(), 0) == taken(
                *select,
                table@,
                views,
                floats@,
                sort::sort_views(items@),
                index as int,
            ),
        decreases rows@.len() - index,
    {
        if select.order_by.len() == 0 {
            if let Some(limit) = select.limit {
                if items.len() as u64 >= limit {
                    return Ok(items);
                }
            }
        }
        let row = &rows[index];
        assert(views[index as int] == row@);
        match table.validate_row(row.values.as_slice()) {
            Err(refusal) => {
                return Err(Stop::Error(refusal));
            },
            Ok(_) => {},
        }
        match take_row(select, table, row.values.as_slice(), floats) {
            Err(stop) => {
                return Err(wanted_by_rows(stop, select, table, rows, index + 1, floats));
            },
            Ok(None) => {},
            Ok(Some(item)) => {
                let ghost before = sort::sort_views(items@);
                let ghost added = item@;
                items.push(item);
                assert(sort::sort_views(items@) =~= before.push(added));
            },
        }
        index = index + 1;
    }
    Ok(items)
}

/// The rows that items show, as many as a query asks for.
fn rows_of(items: Vec<SortItem>, limit: Option<u64>) -> (rows: Vec<Vec<Value>>)
    ensures
        output::output_rows(rows@) == limited(shown(sort::sort_views(items@)), limit),
{
    let ghost views = sort::sort_views(items@);
    let count: usize = match limit {
        Some(limit) => if limit < items.len() as u64 {
            limit as usize
        } else {
            items.len()
        },
        None => items.len(),
    };
    let mut rest = crate::list::reversed(items);
    let mut rows: Vec<Vec<Value>> = Vec::new();
    while rows.len() < count
        invariant
            count <= items@.len(),
            views == sort::sort_views(items@),
            rows@.len() <= count,
            rest@.len() == items@.len() - rows@.len(),
            forall|i: int|
                0 <= i < rest@.len() ==> #[trigger] rest@[i] == items@[items@.len() - 1 - i],
            forall|i: int|
                0 <= i < rows@.len() ==> value::value_views((#[trigger] rows@[i])@)
                    == views[i].row,
        decreases count - rows@.len(),
    {
        let ghost before = rest@;
        match rest.pop() {
            Some(item) => {
                proof {
                    assert(before[before.len() - 1] == item);
                    assert(views[rows@.len() as int] == item@);
                }
                rows.push(item.row);
            },
            None => {
                return rows;
            },
        }
    }
    assert(output::output_rows(rows@) =~= limited(shown(views), limit));
    rows
}

/// The columns of a query's result.
pub open spec fn described(select: Select, world: Map<Seq<u8>, Seq<u8>>) -> Result<
    Seq<OutputColumnView>,
    StopView,
> {
    match access::table_named(select.from.value@, world) {
        Err(stop) => Err(stop),
        Ok(table) => projected_columns(select.projection@, table.columns, select.projection@.len()),
    }
}

/// The columns of a query's result, without its rows.
pub(crate) fn describe_query(
    transaction: &Transaction,
    db: &mut MvccDatabase,
    select: &Select,
) -> (columns: Result<Vec<OutputColumn>, EngineError>)
    requires
        world::live(transaction, old(db)),
    ensures
        final(db).wf(),
        final(db)@ == old(db)@,
        match columns {
            Ok(columns) => described(
                *select,
                world::world(transaction@, old(db)@),
            ) == Ok::<Seq<OutputColumnView>, StopView>(output::output_columns(columns@)),
            Err(error) => described(
                *select,
                world::world(transaction@, old(db)@),
            ) == Err::<Seq<OutputColumnView>, StopView>(StopView::Error(error@)),
        },
{
    let table = match load_schema(transaction, db, select.from.value.as_str()) {
        Err(Stop::Error(error)) => {
            return Err(error);
        },
        Err(Stop::Needs(_)) => {
            return Err(EngineError::TransactionAborted);
        },
        Ok(table) => table,
    };
    match projection_columns(&table, &select.projection) {
        Err(Stop::Error(error)) => Err(error),
        Err(Stop::Needs(_)) => Err(EngineError::TransactionAborted),
        Ok(columns) => Ok(columns),
    }
}

/// Carries a SELECT out.
pub(crate) fn execute_select(
    transaction: &mut Transaction,
    db: &mut MvccDatabase,
    select: &Select,
    floats: &FloatTable,
) -> (result: Result<StatementOutput, Stop>)
    requires
        world::live(old(transaction), old(db)),
        floats.wf(),
    ensures
        world::live(final(transaction), final(db)),
        final(db)@ == old(db)@,
        world::continues(old(transaction)@, final(transaction)@),
        world::world(final(transaction)@, final(db)@) == world::world(
            old(transaction)@,
            old(db)@,
        ),
        match result {
            Ok(output) => selected(
                *select,
                world::world(old(transaction)@, old(db)@),
                floats@,
                output@,
            ),
            Err(stop) => error::asks_anew(stop, floats@) && (world::scan_failed(old(db)@, stop@)
                || gathered(*select, world::world(old(transaction)@, old(db)@), floats@) == Err::<
                (Seq<OutputColumnView>, Seq<SortView>),
                StopView,
            >(stop@)),
        },
{
    let table = match load_schema(&*transaction, db, select.from.value.as_str()) {
        Err(stop) => {
            return Err(stop);
        },
        Ok(table) => table,
    };
    let columns = match projection_columns(&table, &select.projection) {
        Err(stop) => {
            return Err(stop);
        },
        Ok(columns) => columns,
    };
    match check_order_keys(&select.order_by, &table) {
        Err(stop) => {
            return Err(stop);
        },
        Ok(_) => {},
    }
    let items = if matches!(select.limit, Some(0)) {
        let none: Vec<SortItem> = Vec::new();
        assert(sort::sort_views(none@) =~= Seq::empty());
        none
    } else {
        let rows = match read_rows(transaction, db, &table, &select.selection, floats) {
            Err(stop) => {
                return Err(stop);
            },
            Ok(rows) => rows,
        };
        let items = match take_rows(select, &table, &rows, floats) {
            Err(stop) => {
                return Err(stop);
            },
            Ok(items) => items,
        };
        items
    };
    let ghost views = sort::sort_views(items@);
    let ghost heads = output::output_columns(columns@);
    if select.order_by.len() == 0 {
        let rows = rows_of(items, None);
        assert(shown(views) == output::output_rows(rows@));
        return Ok(StatementOutput::Query { columns, rows });
    }
    let sorted = sort_rows(items, &select.order_by);
    let ghost ordered = sort::sort_views(sorted@);
    let rows = rows_of(sorted, select.limit);
    let result = StatementOutput::Query { columns, rows };
    proof {
        assert(sort::is_sorted_from(views, ordered, select.order_by@));
        assert(result@ == (OutputView::Query {
            columns: heads,
            rows: limited(shown(ordered), select.limit),
        }));
    }
    Ok(result)
}

} // verus!
