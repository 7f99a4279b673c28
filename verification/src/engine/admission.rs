//! Which tables, rows and values are let in.
use crate::engine::access;
use crate::engine::access::StoredView;
use crate::engine::codec;
use crate::engine::constraint;
use crate::engine::error::{EngineErrorView, StopView};
use crate::engine::exact;
use crate::engine::float;
use crate::engine::float::FloatRequest;
use crate::engine::insert;
use crate::engine::insert::Inserting;
use crate::engine::output::OutputView;
use crate::engine::schema;
use crate::engine::schema::{ColumnView, LogicalType, TableView};
use crate::engine::statement;
use crate::engine::update;
use crate::engine::update::Updating;
use crate::engine::value;
use crate::engine::value::ValueView;
use crate::engine::world;
use crate::syntax::{CreateTable, DataType, Delete, DropTable, Insert, Select, Statement, Update};
use vstd::prelude::*;
use vstd::utf8::encode_utf8;

verus! {

/// Whether a column takes a value: NULL where the column can be NULL, and else a value of its type, text
/// within its length, and a float that is finite.
pub open spec fn takes(column: ColumnView, value: ValueView) -> bool {
    &&& value is Null ==> column.nullable
    &&& value is Boolean ==> column.data_type is Boolean || column.data_type is Unknown
    &&& value is Integer ==> column.data_type is Int64 || column.data_type is Unknown
    &&& value matches ValueView::Float(bits) ==> float::is_finite(bits) && (
    column.data_type is Float64 || column.data_type is Unknown)
    &&& value matches ValueView::Text(text) ==> (column.data_type is Text
        || column.data_type is Unknown) && (column.data_type matches LogicalType::Text {
        max_length: Some(maximum),
    } ==> text.len() <= maximum)
}

proof fn lemma_taken_from(columns: Seq<ColumnView>, values: Seq<ValueView>, at: int)
    requires
        0 <= at,
        values.len() == columns.len(),
    ensures
        schema::refused_from(columns, values, at) is None <==> forall|i: int|
            at <= i < columns.len() ==> takes(#[trigger] columns[i], values[i]),
        schema::refused_from(columns, values, at) matches Some(error) ==> error is InvalidRow,
    decreases columns.len() - at,
{
    if at < columns.len() {
        lemma_taken_from(columns, values, at + 1);
        assert(takes(columns[at], values[at]) <==> schema::value_refused(
            columns[at],
            values[at],
        ) is None);
    }
}

/// A table takes a row where the row has one value for each column and each column takes its value, and
/// refuses every other row.
pub proof fn law_rows_are_taken_exactly(table: TableView, values: Seq<ValueView>)
    ensures
        schema::row_refused(table, values) is None <==> values.len() == table.columns.len()
            && forall|i: int|
            0 <= i < values.len() ==> takes(#[trigger] table.columns[i], values[i]),
        schema::row_refused(table, values) matches Some(error) ==> error is InvalidRow,
{
    if values.len() == table.columns.len() {
        lemma_taken_from(table.columns, values, 0);
    }
}

/// Whether two values are the same: floats that are numbers by their exact values.
pub open spec fn alike(a: ValueView, b: ValueView) -> bool {
    match (a, b) {
        (ValueView::Float(x), ValueView::Float(y)) => !float::is_nan(x) && !float::is_nan(y)
            && exact::exact_value(x) == exact::exact_value(y),
        _ => a == b,
    }
}

/// Whether two rows share a value, other than NULL, of a unique column or of the primary key.
pub open spec fn share(
    columns: Seq<ColumnView>,
    candidate: Seq<ValueView>,
    row: Seq<ValueView>,
) -> bool {
    exists|c: int|
        0 <= c < columns.len() && ((#[trigger] columns[c]).unique || columns[c].primary_key) && !(
        candidate[c] is Null) && alike(candidate[c], row[c])
}

pub proof fn lemma_alike(a: ValueView, b: ValueView)
    ensures
        value::equal(a, b) <==> alike(a, b),
{
    match (a, b) {
        (ValueView::Float(x), ValueView::Float(y)) => {
            exact::lemma_ranks_are_values(x, y);
        },
        _ => {},
    }
}

proof fn lemma_row_clash(
    columns: Seq<ColumnView>,
    candidate: Seq<ValueView>,
    row: Seq<ValueView>,
    at: int,
)
    requires
        0 <= at,
        row.len() == columns.len(),
    ensures
        constraint::row_clash(columns, candidate, row, at) is Some <==> exists|c: int|
            at <= c < columns.len() && ((#[trigger] columns[c]).unique || columns[c].primary_key)
                && !(candidate[c] is Null) && alike(candidate[c], row[c]),
        constraint::row_clash(columns, candidate, row, at) matches Some(error)
            ==> error is ConstraintViolation,
    decreases columns.len() - at,
{
    if at < columns.len() {
        lemma_row_clash(columns, candidate, row, at + 1);
        lemma_alike(candidate[at], row[at]);
        assert(columns[at].unique || !columns[at].unique);
    }
}

proof fn lemma_clash(
    columns: Seq<ColumnView>,
    candidate: Seq<ValueView>,
    rows: Seq<StoredView>,
    excluded: int,
    at: int,
)
    requires
        0 <= at,
        forall|r: int| 0 <= r < rows.len() ==> (#[trigger] rows[r]).values.len() == columns.len(),
    ensures
        constraint::clash(columns, candidate, rows, excluded, at) is Some <==> exists|r: int|
            at <= r < rows.len() && r != excluded && share(
                columns,
                candidate,
                (#[trigger] rows[r]).values,
            ),
        constraint::clash(columns, candidate, rows, excluded, at) matches Some(error)
            ==> error is ConstraintViolation,
    decreases rows.len() - at,
{
    if at < rows.len() {
        lemma_clash(columns, candidate, rows, excluded, at + 1);
        lemma_row_clash(columns, candidate, rows[at].values, 0);
        assert(share(columns, candidate, rows[at].values) <==> constraint::row_clash(
            columns,
            candidate,
            rows[at].values,
            0,
        ) is Some);
    }
}

/// A row is refused as a duplicate where, and only where, it shares a value other than NULL with another
/// row in a unique column or the primary key.
pub proof fn law_duplicates_are_refused_exactly(
    columns: Seq<ColumnView>,
    candidate: Seq<ValueView>,
    rows: Seq<StoredView>,
    excluded: int,
)
    requires
        forall|r: int| 0 <= r < rows.len() ==> (#[trigger] rows[r]).values.len() == columns.len(),
    ensures
        constraint::clash(columns, candidate, rows, excluded, 0) is Some <==> exists|r: int|
            0 <= r < rows.len() && r != excluded && share(
                columns,
                candidate,
                (#[trigger] rows[r]).values,
            ),
        constraint::clash(columns, candidate, rows, excluded, 0) matches Some(error)
            ==> error is ConstraintViolation,
{
    lemma_clash(columns, candidate, rows, excluded, 0);
}

/// INSERT lets a row in only where every column takes its value and no row of the table shares a unique
/// value with it, and says which of the two stands against it.
pub proof fn law_insert_checks_rows(from: Inserting, values: Seq<ValueView>)
    requires
        forall|r: int|
            0 <= r < from.rows.len() ==> (#[trigger] from.rows[r]).values.len()
                == from.table.columns.len(),
    ensures
        insert::row_added(from, values) is Ok ==> values.len() == from.table.columns.len(),
        values.len() != from.table.columns.len() || (exists|c: int|
            0 <= c < values.len() && !takes(#[trigger] from.table.columns[c], values[c])) ==> (
        insert::row_added(from, values) matches Err(StopView::Error(error)) && error is InvalidRow),
        values.len() == from.table.columns.len() && (forall|c: int|
            0 <= c < values.len() ==> takes(#[trigger] from.table.columns[c], values[c])) && (
        exists|r: int|
            0 <= r < from.rows.len() && share(
                from.table.columns,
                values,
                (#[trigger] from.rows[r]).values,
            )) ==> (insert::row_added(from, values) matches Err(StopView::Error(error))
            && error is ConstraintViolation),
{
    law_rows_are_taken_exactly(from.table, values);
    law_duplicates_are_refused_exactly(from.table.columns, values, from.rows, -1);
}

/// UPDATE changes a row only where every column takes its new value and no other row shares a unique value
/// with it, and says which of the two stands against it.
pub proof fn law_update_checks_rows(
    table: TableView,
    from: Updating,
    at: int,
    after: Seq<ValueView>,
)
    requires
        forall|r: int|
            0 <= r < from.rows.len() ==> (#[trigger] from.rows[r]).values.len()
                == table.columns.len(),
    ensures
        after.len() != table.columns.len() || (exists|c: int|
            0 <= c < after.len() && !takes(#[trigger] table.columns[c], after[c])) ==> (
        update::row_changed(table, from, at, after) matches Err(StopView::Error(error))
            && error is InvalidRow),
        after.len() == table.columns.len() && (forall|c: int|
            0 <= c < after.len() ==> takes(#[trigger] table.columns[c], after[c])) && (exists|
            r: int,
        |
            0 <= r < from.rows.len() && r != at && share(
                table.columns,
                after,
                (#[trigger] from.rows[r]).values,
            )) ==> (update::row_changed(table, from, at, after) matches Err(StopView::Error(error))
            && error is ConstraintViolation),
{
    law_rows_are_taken_exactly(table, after);
    law_duplicates_are_refused_exactly(table.columns, after, from.rows, at);
}

/// CREATE TABLE makes the columns that it lists, in their order, each with its name, type and constraints;
/// the key column is the one that is marked so. It is refused where two columns are marked as the
/// primary key, or two have one name.
pub proof fn law_created_columns(id: u64, create: CreateTable, i: int)
    requires
        create.columns@.len() <= usize::MAX,
    ensures
        schema::created(id, create) is Ok <==> forall|a: int, b: int|
            0 <= a < b < create.columns@.len() ==> (#[trigger] create.columns@[a]).name.value@ != (
            #[trigger] create.columns@[b]).name.value@ && !(create.columns@[a].primary_key
                && create.columns@[b].primary_key),
        schema::created(id, create) matches Err(error) ==> error is InvalidSchema,
        schema::created(id, create) matches Ok(table) ==> {
            &&& table.id == id
            &&& table.name == create.name.value@
            &&& table.columns.len() == create.columns@.len()
            &&& 0 <= i < table.columns.len() ==> {
                let made = table.columns[i];
                let asked = create.columns@[i];
                &&& made.name == asked.name.value@
                &&& made.nullable == asked.nullable
                &&& made.unique == asked.unique
                &&& made.primary_key == asked.primary_key
                &&& asked.data_type is Boolean <==> made.data_type is Boolean
                &&& asked.data_type is Int64 <==> made.data_type is Int64
                &&& asked.data_type is Float64 <==> made.data_type is Float64
                &&& asked.data_type matches DataType::Text { max_length } ==> made.data_type == (
                LogicalType::Text { max_length })
                &&& asked.primary_key <==> table.primary_key == Some(i as usize)
            }
        },
{
    let columns = schema::defined_columns(create.columns@);
    assert forall|a: int| 0 <= a < columns.len() implies (#[trigger] columns[a]).name
        == create.columns@[a].name.value@ && columns[a].primary_key
        == create.columns@[a].primary_key by {}
    if schema::two_primaries(columns) {
        let (a, b) = choose|a: int, b: int|
            0 <= a < b < columns.len() && (#[trigger] columns[a]).primary_key && (
            #[trigger] columns[b]).primary_key;
        assert(create.columns@[a].primary_key && create.columns@[b].primary_key);
    }
    if schema::two_alike(columns) {
        let (a, b) = choose|a: int, b: int|
            0 <= a < b < columns.len() && (#[trigger] columns[a]).name == (
            #[trigger] columns[b]).name;
        assert(create.columns@[a].name.value@ == create.columns@[b].name.value@);
    }
    if !schema::two_primaries(columns) && !schema::two_alike(columns) {
        assert forall|a: int, b: int| 0 <= a < b < create.columns@.len() implies (
        #[trigger] create.columns@[a]).name.value@ != (#[trigger] create.columns@[b]).name.value@
            && !(create.columns@[a].primary_key && create.columns@[b].primary_key) by {
            assert(columns[a].name != columns[b].name);
            assert(!(columns[a].primary_key && columns[b].primary_key));
        }
        if 0 <= i < columns.len() {
            lemma_key_column(columns, 0, i);
        }
    }
}

proof fn lemma_key_column(columns: Seq<ColumnView>, at: int, i: int)
    requires
        0 <= at <= i < columns.len() <= usize::MAX,
        !schema::two_primaries(columns),
    ensures
        columns[i].primary_key <==> schema::primary_from(columns, at) == Some(i as usize),
    decreases i - at,
{
    lemma_primary_found(columns, at);
    if columns[i].primary_key {
        let found = schema::primary_from(columns, at)->0;
        if found < i {
            assert(columns[found as int].primary_key && columns[i].primary_key);
        }
    }
}

proof fn lemma_primary_found(columns: Seq<ColumnView>, at: int)
    requires
        0 <= at <= columns.len() <= usize::MAX,
    ensures
        match schema::primary_from(columns, at) {
            Some(found) => at <= found < columns.len() && columns[found as int].primary_key
                && forall|i: int| at <= i < found ==> !(#[trigger] columns[i]).primary_key,
            None => forall|i: int| at <= i < columns.len() ==> !(#[trigger] columns[i]).primary_key,
        },
    decreases columns.len() - at,
{
    if at < columns.len() {
        lemma_primary_found(columns, at + 1);
    }
}

/// A CREATE TABLE of a name that is taken fails, or changes nothing where that was asked for; a DROP TABLE
/// of a name that is not taken fails, or changes nothing where that was asked for.
pub proof fn law_names_are_taken_once(
    create: CreateTable,
    drop: DropTable,
    world: Map<Seq<u8>, Seq<u8>>,
)
    requires
        encode_utf8(create.name.value@).len() <= u32::MAX,
        encode_utf8(drop.name.value@).len() <= u32::MAX,
    ensures
        world.contains_key(codec::catalog_key_of(create.name.value@)) ==> (
        statement::table_created(create, world) == (if create.if_not_exists {
            Ok::<(Map<Seq<u8>, Seq<u8>>, OutputView), StopView>(
                (
                    world,
                    OutputView::Command { tag: "CREATE TABLE"@, affected_rows: 0 },
                ),
            )
        } else {
            Err(StopView::Error(EngineErrorView::TableAlreadyExists(create.name.value@)))
        })),
        !world.contains_key(codec::catalog_key_of(drop.name.value@)) ==> (statement::table_dropped(
            drop,
            world,
        ) == (if drop.if_exists {
            Ok::<(Map<Seq<u8>, Seq<u8>>, OutputView), StopView>(
                (world, OutputView::Command { tag: "DROP TABLE"@, affected_rows: 0 }),
            )
        } else {
            Err(StopView::Error(EngineErrorView::TableNotFound(drop.name.value@)))
        })),
{
}

/// A statement about a table that there is not fails with the name of the table.
pub proof fn law_unknown_tables_are_told(
    insert: Insert,
    select: Select,
    update: Update,
    delete: Delete,
    world: Map<Seq<u8>, Seq<u8>>,
    floats: Map<FloatRequest, u64>,
    name: Seq<char>,
)
    requires
        encode_utf8(name).len() <= u32::MAX,
        !world.contains_key(codec::catalog_key_of(name)),
    ensures
        ({
            let unknown = Some(StopView::Error(EngineErrorView::TableNotFound(name)));
            &&& insert.table.value@ == name ==> statement::refused(
                Statement::Insert(insert),
                world,
                floats,
            ) == unknown
            &&& select.from.value@ == name ==> statement::refused(
                Statement::Select(select),
                world,
                floats,
            ) == unknown
            &&& update.table.value@ == name ==> statement::refused(
                Statement::Update(update),
                world,
                floats,
            ) == unknown
            &&& delete.table.value@ == name ==> statement::refused(
                Statement::Delete(delete),
                world,
                floats,
            ) == unknown
        }),
{
    assert(world::found(world, codec::catalog_key_of(name)) is None);
    assert(access::table_named(name, world) == Err::<TableView, StopView>(
        StopView::Error(EngineErrorView::TableNotFound(name)),
    ));
}

} // verus!
