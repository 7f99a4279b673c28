//! Unique columns: values that no two rows of a table share, and the keys that stand for them.
use crate::bytes::{copy_bytes, same_bytes};
use crate::engine::access;
use crate::engine::access::{StoredRow, StoredView};
use crate::engine::codec;
use crate::engine::codec::unique_key;
use crate::engine::error::{EngineError, EngineErrorView, Stop, StopView};
use crate::engine::schema::{ColumnView, TableSchema, TableView};
use crate::engine::value;
use crate::engine::value::{Value, ValueView};
use crate::engine::world;
use crate::engine::world::{erase, read, store};
use crate::mvcc::database::MvccDatabase;
use crate::mvcc::transaction::Transaction;
use crate::text::join_text;
use vstd::prelude::*;
use vstd::string::*;

verus! {

pub open spec fn duplicate(column: ColumnView) -> EngineErrorView {
    EngineErrorView::ConstraintViolation(
        "duplicate value for unique column "@ + column.name + ""@,
    )
}

fn duplicate_error(name: &str) -> (error: EngineError)
    ensures
        error@ == EngineErrorView::ConstraintViolation(
            "duplicate value for unique column "@ + name@ + ""@,
        ),
{
    EngineError::ConstraintViolation(join_text("duplicate value for unique column ", name, ""))
}

pub open spec fn short_row() -> EngineErrorView {
    EngineErrorView::CorruptRecord("stored row has too few values"@)
}

pub(crate) fn short_row_error() -> (error: EngineError)
    ensures
        error@ == short_row(),
{
    EngineError::CorruptRecord(String::from_str("stored row has too few values"))
}

/// Why a row stands against another, from a column on: a unique column has the same value in both.
pub open spec fn row_clash(
    columns: Seq<ColumnView>,
    candidate: Seq<ValueView>,
    row: Seq<ValueView>,
    at: int,
) -> Option<EngineErrorView>
    decreases columns.len() - at,
{
    if at < 0 || at >= columns.len() {
        None
    } else if !(columns[at].unique || columns[at].primary_key) || candidate[at] is Null {
        row_clash(columns, candidate, row, at + 1)
    } else if at >= row.len() {
        Some(short_row())
    } else if value::equal(candidate[at], row[at]) {
        Some(duplicate(columns[at]))
    } else {
        row_clash(columns, candidate, row, at + 1)
    }
}

/// Why a row stands against one of the rows of a table but one, from a row on.
pub open spec fn clash(
    columns: Seq<ColumnView>,
    candidate: Seq<ValueView>,
    rows: Seq<StoredView>,
    excluded: int,
    at: int,
) -> Option<EngineErrorView>
    decreases rows.len() - at,
{
    if at < 0 || at >= rows.len() {
        None
    } else if at == excluded {
        clash(columns, candidate, rows, excluded, at + 1)
    } else {
        match row_clash(columns, candidate, rows[at].values, 0) {
            Some(error) => Some(error),
            None => clash(columns, candidate, rows, excluded, at + 1),
        }
    }
}

proof fn lemma_row_clash(
    columns: Seq<ColumnView>,
    candidate: Seq<ValueView>,
    row: Seq<ValueView>,
    at: int,
    i: int,
)
    requires
        row_clash(columns, candidate, row, at) is None,
        0 <= at <= i < columns.len(),
        columns[i].unique || columns[i].primary_key,
        !(candidate[i] is Null),
    ensures
        i < row.len(),
        !value::equal(candidate[i], row[i]),
    decreases i - at,
{
    if at < i {
        lemma_row_clash(columns, candidate, row, at + 1, i);
    }
}

/// A row that stands against none shares no value of a unique column with any other row.
pub proof fn law_no_clash_is_unique(
    columns: Seq<ColumnView>,
    candidate: Seq<ValueView>,
    rows: Seq<StoredView>,
    excluded: int,
    at: int,
    row: int,
    column: int,
)
    requires
        clash(columns, candidate, rows, excluded, at) is None,
        0 <= at <= row < rows.len(),
        row != excluded,
        0 <= column < columns.len(),
        columns[column].unique || columns[column].primary_key,
        !(candidate[column] is Null),
    ensures
        !value::equal(candidate[column], rows[row].values[column]),
    decreases row - at,
{
    if at < row {
        law_no_clash_is_unique(columns, candidate, rows, excluded, at + 1, row, column);
    } else {
        lemma_row_clash(columns, candidate, rows[row].values, 0, column);
    }
}

fn validate_unique_row(table: &TableSchema, candidate: &[Value], row: &[Value]) -> (result: Result<
    (),
    EngineError,
>)
    requires
        candidate@.len() == table.columns@.len(),
    ensures
        match result {
            Ok(_) => row_clash(
                table@.columns,
                value::value_views(candidate@),
                value::value_views(row@),
                0,
            ) is None,
            Err(error) => row_clash(
                table@.columns,
                value::value_views(candidate@),
                value::value_views(row@),
                0,
            ) == Some(error@),
        },
{
    let ghost columns = table@.columns;
    let ghost new = value::value_views(candidate@);
    let ghost old = value::value_views(row@);
    let mut index: usize = 0;
    while index < table.columns.len()
        invariant
            index <= table.columns@.len(),
            candidate@.len() == table.columns@.len(),
            columns == table@.columns,
            new == value::value_views(candidate@),
            old == value::value_views(row@),
            row_clash(columns, new, old, 0) == row_clash(columns, new, old, index as int),
        decreases table.columns@.len() - index,
    {
        let column = &table.columns[index];
        assert(columns[index as int] == column@);
        if (column.unique || column.primary_key) && !candidate[index].is_null() {
            if index >= row.len() {
                return Err(short_row_error());
            }
            if candidate[index].same(&row[index]) {
                return Err(duplicate_error(column.name.as_str()));
            }
        }
        index = index + 1;
    }
    Ok(())
}

/// Whether a row shares no value of a unique column with the other rows.
pub(crate) fn validate_unique_values(
    table: &TableSchema,
    candidate: &[Value],
    rows: &Vec<StoredRow>,
    excluded: Option<usize>,
) -> (result: Result<(), EngineError>)
    requires
        candidate@.len() == table.columns@.len(),
    ensures
        match result {
            Ok(_) => clash(
                table@.columns,
                value::value_views(candidate@),
                access::stored_views(rows@),
                excluded_position(excluded),
                0,
            ) is None,
            Err(error) => clash(
                table@.columns,
                value::value_views(candidate@),
                access::stored_views(rows@),
                excluded_position(excluded),
                0,
            ) == Some(error@),
        },
{
    let ghost columns = table@.columns;
    let ghost new = value::value_views(candidate@);
    let ghost views = access::stored_views(rows@);
    let ghost skip = excluded_position(excluded);
    let mut index: usize = 0;
    while index < rows.len()
        invariant
            index <= rows@.len(),
            candidate@.len() == table.columns@.len(),
            columns == table@.columns,
            new == value::value_views(candidate@),
            views == access::stored_views(rows@),
            skip == excluded_position(excluded),
            clash(columns, new, views, skip, 0) == clash(columns, new, views, skip, index as int),
        decreases rows@.len() - index,
    {
        let left_out = match excluded {
            Some(position) => position == index,
            None => false,
        };
        if !left_out {
            match validate_unique_row(table, candidate, rows[index].values.as_slice()) {
                Err(error) => {
                    assert(views[index as int].values == value::value_views(
                        rows@[index as int].values@,
                    ));
                    return Err(error);
                },
                Ok(_) => {},
            }
        }
        index = index + 1;
    }
    Ok(())
}

pub open spec fn excluded_position(excluded: Option<usize>) -> int {
    match excluded {
        Some(position) => position as int,
        None => -1,
    }
}

/// Whether a column keeps keys for its values.
pub open spec fn keyed(column: ColumnView) -> bool {
    column.unique && !column.primary_key
}

/// The keys of a row's unique values taken for it, from a column on.
pub open spec fn acquired(
    table: TableView,
    values: Seq<ValueView>,
    row: Seq<u8>,
    world: Map<Seq<u8>, Seq<u8>>,
    at: int,
) -> Result<Map<Seq<u8>, Seq<u8>>, StopView>
    decreases table.columns.len() - at,
{
    if at < 0 || at >= table.columns.len() {
        Ok(world)
    } else if !keyed(table.columns[at]) || values[at] is Null {
        acquired(table, values, row, world, at + 1)
    } else {
        match codec::unique_key_result(table.id, at as nat, values[at]) {
            Err(error) => Err(StopView::Error(error)),
            Ok(k) => if world.contains_key(k) {
                Err(StopView::Error(duplicate(table.columns[at])))
            } else {
                match world::put(world, k, row) {
                    Err(stop) => Err(stop),
                    Ok(next) => acquired(table, values, row, next, at + 1),
                }
            },
        }
    }
}

/// The keys of a row's unique values given up, from a column on.
pub open spec fn released(
    table: TableView,
    values: Seq<ValueView>,
    world: Map<Seq<u8>, Seq<u8>>,
    at: int,
) -> Result<Map<Seq<u8>, Seq<u8>>, StopView>
    decreases table.columns.len() - at,
{
    if at < 0 || at >= table.columns.len() {
        Ok(world)
    } else if !keyed(table.columns[at]) || values[at] is Null {
        released(table, values, world, at + 1)
    } else {
        match codec::unique_key_result(table.id, at as nat, values[at]) {
            Err(error) => Err(StopView::Error(error)),
            Ok(k) => match world::removed(world, k) {
                Err(stop) => Err(stop),
                Ok(next) => released(table, values, next, at + 1),
            },
        }
    }
}

/// The key of the new value of one column taken for a row that changes.
pub open spec fn column_taken(
    table: TableView,
    at: int,
    new: ValueView,
    changed: bool,
    row: Seq<u8>,
    world: Map<Seq<u8>, Seq<u8>>,
) -> Result<Map<Seq<u8>, Seq<u8>>, StopView> {
    if new is Null {
        Ok(world)
    } else {
        match codec::unique_key_result(table.id, at as nat, new) {
            Err(error) => Err(StopView::Error(error)),
            Ok(k) => if changed && world.contains_key(k) {
                Err(StopView::Error(duplicate(table.columns[at])))
            } else {
                world::put(world, k, row)
            },
        }
    }
}

/// The key of the old value of one column given up by a row that changes.
pub open spec fn column_left(
    table: TableView,
    at: int,
    old_value: ValueView,
    changed: bool,
    world: Map<Seq<u8>, Seq<u8>>,
) -> Result<Map<Seq<u8>, Seq<u8>>, StopView> {
    if !changed || old_value is Null {
        Ok(world)
    } else {
        match codec::unique_key_result(table.id, at as nat, old_value) {
            Err(error) => Err(StopView::Error(error)),
            Ok(k) => world::removed(world, k),
        }
    }
}

/// The keys of unique values brought in line with a row that changes, from a column on.
pub open spec fn rekeyed(
    table: TableView,
    before: Seq<ValueView>,
    after: Seq<ValueView>,
    old_row: Seq<u8>,
    new_row: Seq<u8>,
    world: Map<Seq<u8>, Seq<u8>>,
    at: int,
) -> Result<Map<Seq<u8>, Seq<u8>>, StopView>
    decreases table.columns.len() - at,
{
    if at < 0 || at >= table.columns.len() {
        Ok(world)
    } else {
        let changed = !value::equal(before[at], after[at]);
        if !keyed(table.columns[at]) || (!changed && old_row == new_row) {
            rekeyed(table, before, after, old_row, new_row, world, at + 1)
        } else {
            match column_taken(table, at, after[at], changed, new_row, world) {
                Err(stop) => Err(stop),
                Ok(taken) => match column_left(table, at, before[at], changed, taken) {
                    Err(stop) => Err(stop),
                    Ok(next) => rekeyed(table, before, after, old_row, new_row, next, at + 1),
                },
            }
        }
    }
}

/// Takes the keys of a row's unique values for it.
pub(crate) fn acquire_unique_keys(
    transaction: &mut Transaction,
    db: &mut MvccDatabase,
    table: &TableSchema,
    values: &[Value],
    row: &[u8],
) -> (done: Result<(), Stop>)
    requires
        world::live(old(transaction), old(db)),
        values@.len() == table.columns@.len(),
    ensures
        world::live(final(transaction), final(db)),
        final(db)@ == old(db)@,
        world::continues(old(transaction)@, final(transaction)@),
        match done {
            Ok(_) => acquired(
                table@,
                value::value_views(values@),
                row@,
                world::world(old(transaction)@, old(db)@),
                0,
            ) == Ok::<Map<Seq<u8>, Seq<u8>>, StopView>(
                world::world(final(transaction)@, final(db)@),
            ),
            Err(stop) => acquired(
                table@,
                value::value_views(values@),
                row@,
                world::world(old(transaction)@, old(db)@),
                0,
            ) == Err::<Map<Seq<u8>, Seq<u8>>, StopView>(stop@) && !(stop is Needs),
        },
{
    let ghost view = table@;
    let ghost new = value::value_views(values@);
    let ghost start = world::world(transaction@, db@);
    let ghost first = transaction@;
    let ghost whole = db@;
    let mut index: usize = 0;
    while index < table.columns.len()
        invariant
            index <= table.columns@.len(),
            values@.len() == table.columns@.len(),
            view == table@,
            new == value::value_views(values@),
            first == old(transaction)@,
            whole == old(db)@,
            start == world::world(first, whole),
            world::live(transaction, db),
            db@ == whole,
            world::continues(first, transaction@),
            acquired(view, new, row@, start, 0) == acquired(
                view,
                new,
                row@,
                world::world(transaction@, db@),
                index as int,
            ),
        decreases table.columns@.len() - index,
    {
        let column = &table.columns[index];
        assert(view.columns[index as int] == column@);
        if column.unique && !column.primary_key && !values[index].is_null() {
            let k = match unique_key(table.id, index, &values[index]) {
                Err(error) => {
                    return Err(Stop::Error(error));
                },
                Ok(k) => k,
            };
            if read(&*transaction, db, k.as_slice()).is_some() {
                return Err(Stop::Error(duplicate_error(column.name.as_str())));
            }
            match store(transaction, &*db, k, copy_bytes(row)) {
                Err(stop) => {
                    return Err(stop);
                },
                Ok(_) => {},
            }
        }
        index = index + 1;
    }
    Ok(())
}

/// Gives the keys of a row's unique values up.
pub(crate) fn release_unique_keys(
    transaction: &mut Transaction,
    db: &mut MvccDatabase,
    table: &TableSchema,
    values: &[Value],
) -> (done: Result<(), Stop>)
    requires
        world::live(old(transaction), old(db)),
        values@.len() == table.columns@.len(),
    ensures
        world::live(final(transaction), final(db)),
        final(db)@ == old(db)@,
        world::continues(old(transaction)@, final(transaction)@),
        match done {
            Ok(_) => released(
                table@,
                value::value_views(values@),
                world::world(old(transaction)@, old(db)@),
                0,
            ) == Ok::<Map<Seq<u8>, Seq<u8>>, StopView>(
                world::world(final(transaction)@, final(db)@),
            ),
            Err(stop) => released(
                table@,
                value::value_views(values@),
                world::world(old(transaction)@, old(db)@),
                0,
            ) == Err::<Map<Seq<u8>, Seq<u8>>, StopView>(stop@) && !(stop is Needs),
        },
{
    let ghost view = table@;
    let ghost gone = value::value_views(values@);
    let ghost start = world::world(transaction@, db@);
    let ghost first = transaction@;
    let ghost whole = db@;
    let mut index: usize = 0;
    while index < table.columns.len()
        invariant
            index <= table.columns@.len(),
            values@.len() == table.columns@.len(),
            view == table@,
            gone == value::value_views(values@),
            first == old(transaction)@,
            whole == old(db)@,
            start == world::world(first, whole),
            world::live(transaction, db),
            db@ == whole,
            world::continues(first, transaction@),
            released(view, gone, start, 0) == released(
                view,
                gone,
                world::world(transaction@, db@),
                index as int,
            ),
        decreases table.columns@.len() - index,
    {
        let column = &table.columns[index];
        assert(view.columns[index as int] == column@);
        if column.unique && !column.primary_key && !values[index].is_null() {
            let k = match unique_key(table.id, index, &values[index]) {
                Err(error) => {
                    return Err(Stop::Error(error));
                },
                Ok(k) => k,
            };
            match erase(transaction, &*db, k) {
                Err(stop) => {
                    return Err(stop);
                },
                Ok(_) => {},
            }
        }
        index = index + 1;
    }
    Ok(())
}

fn take_column(
    transaction: &mut Transaction,
    db: &mut MvccDatabase,
    table: &TableSchema,
    at: usize,
    new: &Value,
    changed: bool,
    row: &[u8],
) -> (done: Result<(), Stop>)
    requires
        world::live(old(transaction), old(db)),
        at < table.columns@.len(),
    ensures
        world::live(final(transaction), final(db)),
        final(db)@ == old(db)@,
        world::continues(old(transaction)@, final(transaction)@),
        match done {
            Ok(_) => column_taken(
                table@,
                at as int,
                new@,
                changed,
                row@,
                world::world(old(transaction)@, old(db)@),
            ) == Ok::<Map<Seq<u8>, Seq<u8>>, StopView>(
                world::world(final(transaction)@, final(db)@),
            ),
            Err(stop) => column_taken(
                table@,
                at as int,
                new@,
                changed,
                row@,
                world::world(old(transaction)@, old(db)@),
            ) == Err::<Map<Seq<u8>, Seq<u8>>, StopView>(stop@) && !(stop is Needs),
        },
{
    if new.is_null() {
        return Ok(());
    }
    let k = match unique_key(table.id, at, new) {
        Err(error) => {
            return Err(Stop::Error(error));
        },
        Ok(k) => k,
    };
    let owner = read(&*transaction, db, k.as_slice());
    if changed && owner.is_some() {
        assert(table@.columns[at as int] == table.columns@[at as int]@);
        return Err(Stop::Error(duplicate_error(table.columns[at].name.as_str())));
    }
    store(transaction, &*db, k, copy_bytes(row))
}

fn leave_column(
    transaction: &mut Transaction,
    db: &MvccDatabase,
    table: &TableSchema,
    at: usize,
    old_value: &Value,
    changed: bool,
) -> (done: Result<(), Stop>)
    requires
        world::live(old(transaction), db),
        at < table.columns@.len(),
    ensures
        world::live(final(transaction), db),
        world::continues(old(transaction)@, final(transaction)@),
        match done {
            Ok(_) => column_left(
                table@,
                at as int,
                old_value@,
                changed,
                world::world(old(transaction)@, db@),
            ) == Ok::<Map<Seq<u8>, Seq<u8>>, StopView>(world::world(final(transaction)@, db@)),
            Err(stop) => column_left(
                table@,
                at as int,
                old_value@,
                changed,
                world::world(old(transaction)@, db@),
            ) == Err::<Map<Seq<u8>, Seq<u8>>, StopView>(stop@) && !(stop is Needs),
        },
{
    if !changed || old_value.is_null() {
        return Ok(());
    }
    match unique_key(table.id, at, old_value) {
        Err(error) => Err(Stop::Error(error)),
        Ok(k) => erase(transaction, db, k),
    }
}

/// Brings the keys of unique values in line with a row that changes.
pub(crate) fn update_unique_keys(
    transaction: &mut Transaction,
    db: &mut MvccDatabase,
    table: &TableSchema,
    before: &[Value],
    after: &[Value],
    old_row: &[u8],
    new_row: &[u8],
) -> (done: Result<(), Stop>)
    requires
        world::live(old(transaction), old(db)),
        before@.len() == table.columns@.len(),
        after@.len() == table.columns@.len(),
    ensures
        world::live(final(transaction), final(db)),
        final(db)@ == old(db)@,
        world::continues(old(transaction)@, final(transaction)@),
        match done {
            Ok(_) => rekeyed(
                table@,
                value::value_views(before@),
                value::value_views(after@),
                old_row@,
                new_row@,
                world::world(old(transaction)@, old(db)@),
                0,
            ) == Ok::<Map<Seq<u8>, Seq<u8>>, StopView>(
                world::world(final(transaction)@, final(db)@),
            ),
            Err(stop) => rekeyed(
                table@,
                value::value_views(before@),
                value::value_views(after@),
                old_row@,
                new_row@,
                world::world(old(transaction)@, old(db)@),
                0,
            ) == Err::<Map<Seq<u8>, Seq<u8>>, StopView>(stop@) && !(stop is Needs),
        },
{
    let ghost view = table@;
    let ghost was = value::value_views(before@);
    let ghost becomes = value::value_views(after@);
    let ghost start = world::world(transaction@, db@);
    let ghost first = transaction@;
    let ghost whole = db@;
    let moved = !same_bytes(old_row, new_row);
    let mut index: usize = 0;
    while index < table.columns.len()
        invariant
            index <= table.columns@.len(),
            before@.len() == table.columns@.len(),
            after@.len() == table.columns@.len(),
            view == table@,
            was == value::value_views(before@),
            becomes == value::value_views(after@),
            moved == (old_row@ != new_row@),
            first == old(transaction)@,
            whole == old(db)@,
            start == world::world(first, whole),
            world::live(transaction, db),
            db@ == whole,
            world::continues(first, transaction@),
            rekeyed(view, was, becomes, old_row@, new_row@, start, 0) == rekeyed(
                view,
                was,
                becomes,
                old_row@,
                new_row@,
                world::world(transaction@, db@),
                index as int,
            ),
        decreases table.columns@.len() - index,
    {
        let column = &table.columns[index];
        assert(view.columns[index as int] == column@);
        let changed = !before[index].same(&after[index]);
        if column.unique && !column.primary_key && (changed || moved) {
            match take_column(transaction, db, table, index, &after[index], changed, new_row) {
                Err(stop) => {
                    return Err(stop);
                },
                Ok(_) => {},
            }
            match leave_column(transaction, &*db, table, index, &before[index], changed) {
                Err(stop) => {
                    return Err(stop);
                },
                Ok(_) => {},
            }
        }
        index = index + 1;
    }
    Ok(())
}

} // verus!
