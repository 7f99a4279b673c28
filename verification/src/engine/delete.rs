//! DELETE.
use crate::bytes::copy_bytes;
use crate::engine::access;
use crate::engine::access::{load_schema, read_rows, StoredRow, StoredView};
use crate::engine::constraint;
use crate::engine::constraint::release_unique_keys;
use crate::engine::error;
use crate::engine::error::{Stop, StopView};
use crate::engine::expression;
use crate::engine::expression::{predicate, wants_also};
use crate::engine::float::{FloatRequest, FloatTable};
use crate::engine::output;
use crate::engine::output::{command, OutputView, StatementOutput};
use crate::engine::schema;
use crate::engine::schema::{ColumnView, TableSchema, TableView};
use crate::engine::value;
use crate::engine::value::{Value, ValueView};
use crate::engine::world;
use crate::engine::world::erase;
use crate::mvcc::database::MvccDatabase;
use crate::mvcc::transaction::Transaction;
use crate::syntax::{Delete, Expr};
use vstd::prelude::*;

verus! {

/// Whether a statement is about a row: without a condition it is about all of them.
pub open spec fn chosen(
    selection: Option<Expr>,
    columns: Seq<ColumnView>,
    row: Seq<ValueView>,
    floats: Map<FloatRequest, u64>,
) -> Result<bool, StopView> {
    match selection {
        None => Ok(true),
        Some(condition) => expression::meets(condition, columns, row, floats),
    }
}

/// A row with its keys taken away.
pub open spec fn row_deleted(
    table: TableView,
    row: StoredView,
    world: Map<Seq<u8>, Seq<u8>>,
) -> Result<Map<Seq<u8>, Seq<u8>>, StopView> {
    match constraint::released(table, row.values, world, 0) {
        Err(stop) => Err(stop),
        Ok(freed) => world::removed(freed, row.key),
    }
}

/// The chosen rows from one on taken away, and how many they are with those before.
pub open spec fn rows_deleted(
    table: TableView,
    selection: Option<Expr>,
    rows: Seq<StoredView>,
    world: Map<Seq<u8>, Seq<u8>>,
    floats: Map<FloatRequest, u64>,
    affected: nat,
    at: int,
) -> Result<(Map<Seq<u8>, Seq<u8>>, nat), StopView>
    decreases rows.len() - at,
{
    if at < 0 || at >= rows.len() {
        Ok((world, affected))
    } else {
        match schema::row_refused(table, rows[at].values) {
            Some(refusal) => Err(StopView::Error(refusal)),
            None => match chosen(selection, table.columns, rows[at].values, floats) {
                Err(stop) => Err(stop),
                Ok(false) => rows_deleted(
                    table,
                    selection,
                    rows,
                    world,
                    floats,
                    affected,
                    at + 1,
                ),
                Ok(true) => match row_deleted(table, rows[at], world) {
                    Err(stop) => Err(stop),
                    Ok(next) => rows_deleted(
                        table,
                        selection,
                        rows,
                        next,
                        floats,
                        affected + 1,
                        at + 1,
                    ),
                },
            },
        }
    }
}

/// What a DELETE does to what the transaction sees.
pub open spec fn deleted(
    delete: Delete,
    world: Map<Seq<u8>, Seq<u8>>,
    floats: Map<FloatRequest, u64>,
) -> Result<(Map<Seq<u8>, Seq<u8>>, OutputView), StopView> {
    match access::table_named(delete.table.value@, world) {
        Err(stop) => Err(stop),
        Ok(table) => match access::rows_read(table, delete.selection, world, floats) {
            Err(stop) => Err(stop),
            Ok(rows) => match rows_deleted(table, delete.selection, rows, world, floats, 0, 0) {
                Err(stop) => Err(stop),
                Ok((after, affected)) => Ok((after, output::done("DELETE", affected as u64))),
            },
        },
    }
}

/// Whether a statement is about a row.
pub(crate) fn is_chosen(
    selection: &Option<Expr>,
    table: &TableSchema,
    row: &[Value],
    floats: &FloatTable,
) -> (yes: Result<bool, Stop>)
    requires
        floats.wf(),
    ensures
        match yes {
            Ok(yes) => chosen(
                *selection,
                table@.columns,
                value::value_views(row@),
                floats@,
            ) == Ok::<bool, StopView>(yes),
            Err(stop) => chosen(
                *selection,
                table@.columns,
                value::value_views(row@),
                floats@,
            ) == Err::<bool, StopView>(stop@) && error::asks_anew(stop, floats@),
        },
{
    match selection {
        None => Ok(true),
        Some(condition) => predicate(condition, table, row, floats),
    }
}

/// A stop for float results with those that the condition wants for later rows as well.
fn wanted_by_rows(
    stop: Stop,
    selection: &Option<Expr>,
    table: &TableSchema,
    rows: &Vec<StoredRow>,
    from: usize,
    floats: &FloatTable,
) -> (joint: Stop)
    requires
        floats.wf(),
        error::asks_anew(stop, floats@),
    ensures
        joint@ == stop@,
        error::asks_anew(joint, floats@),
{
    let ghost view = stop@;
    let mut joint = stop;
    if let Stop::Error(_) = joint {
        return joint;
    }
    let mut index: usize = from;
    while index < rows.len()
        invariant
            floats.wf(),
            joint@ == view,
            error::asks_anew(joint, floats@),
        decreases rows@.len() - index,
    {
        let other = is_chosen(selection, table, rows[index].values.as_slice(), floats);
        joint = wants_also(joint, other, floats);
        index = index + 1;
    }
    joint
}

fn delete_row(
    transaction: &mut Transaction,
    db: &mut MvccDatabase,
    table: &TableSchema,
    row: &StoredRow,
) -> (done: Result<(), Stop>)
    requires
        world::live(old(transaction), old(db)),
        row.values@.len() == table.columns@.len(),
    ensures
        world::live(final(transaction), final(db)),
        final(db)@ == old(db)@,
        world::continues(old(transaction)@, final(transaction)@),
        match done {
            Ok(_) => row_deleted(table@, row@, world::world(old(transaction)@, old(db)@)) == Ok::<
                Map<Seq<u8>, Seq<u8>>,
                StopView,
            >(world::world(final(transaction)@, final(db)@)),
            Err(stop) => row_deleted(
                table@,
                row@,
                world::world(old(transaction)@, old(db)@),
            ) == Err::<Map<Seq<u8>, Seq<u8>>, StopView>(stop@) && !(stop is Needs),
        },
{
    match release_unique_keys(transaction, db, table, row.values.as_slice()) {
        Err(stop) => Err(stop),
        Ok(_) => erase(transaction, &*db, copy_bytes(row.key.as_slice())),
    }
}

/// Takes the chosen rows away.
fn delete_rows(
    transaction: &mut Transaction,
    db: &mut MvccDatabase,
    table: &TableSchema,
    selection: &Option<Expr>,
    rows: &Vec<StoredRow>,
    floats: &FloatTable,
) -> (affected: Result<u64, Stop>)
    requires
        world::live(old(transaction), old(db)),
        floats.wf(),
    ensures
        world::live(final(transaction), final(db)),
        final(db)@ == old(db)@,
        world::continues(old(transaction)@, final(transaction)@),
        match affected {
            Ok(affected) => rows_deleted(
                table@,
                *selection,
                access::stored_views(rows@),
                world::world(old(transaction)@, old(db)@),
                floats@,
                0,
                0,
            ) == Ok::<(Map<Seq<u8>, Seq<u8>>, nat), StopView>(
                (world::world(final(transaction)@, final(db)@), affected as nat),
            ),
            Err(stop) => rows_deleted(
                table@,
                *selection,
                access::stored_views(rows@),
                world::world(old(transaction)@, old(db)@),
                floats@,
                0,
                0,
            ) == Err::<(Map<Seq<u8>, Seq<u8>>, nat), StopView>(stop@) && error::asks_anew(
                stop,
                floats@,
            ),
        },
{
    let ghost views = access::stored_views(rows@);
    let ghost start = world::world(transaction@, db@);
    let mut affected: u64 = 0;
    let mut index: usize = 0;
    while index < rows.len()
        invariant
            index <= rows@.len(),
            affected <= index,
            floats.wf(),
            views == access::stored_views(rows@),
            start == world::world(old(transaction)@, old(db)@),
            world::live(transaction, db),
            db@ == old(db)@,
            world::continues(old(transaction)@, transaction@),
            rows_deleted(table@, *selection, views, start, floats@, 0, 0) == rows_deleted(
                table@,
                *selection,
                views,
                world::world(transaction@, db@),
                floats@,
                affected as nat,
                index as int,
            ),
        decreases rows@.len() - index,
    {
        let row = &rows[index];
        assert(views[index as int] == row@);
        match table.validate_row(row.values.as_slice()) {
            Err(refusal) => {
                return Err(Stop::Error(refusal));
            },
            Ok(_) => {},
        }
        let selected = match is_chosen(selection, table, row.values.as_slice(), floats) {
            Err(stop) => {
                return Err(wanted_by_rows(stop, selection, table, rows, index + 1, floats));
            },
            Ok(selected) => selected,
        };
        if selected {
            match delete_row(transaction, db, table, row) {
                Err(stop) => {
                    return Err(stop);
                },
                Ok(_) => {},
            }
            affected = affected + 1;
        }
        index = index + 1;
    }
    Ok(affected)
}

/// Carries a DELETE out.
pub(crate) fn execute_delete(
    transaction: &mut Transaction,
    db: &mut MvccDatabase,
    delete: &Delete,
    floats: &FloatTable,
) -> (result: Result<StatementOutput, Stop>)
    requires
        world::live(old(transaction), old(db)),
        floats.wf(),
    ensures
        world::live(final(transaction), final(db)),
        final(db)@ == old(db)@,
        world::continues(old(transaction)@, final(transaction)@),
        match result {
            Ok(output) => deleted(
                *delete,
                world::world(old(transaction)@, old(db)@),
                floats@,
            ) == Ok::<(Map<Seq<u8>, Seq<u8>>, OutputView), StopView>(
                (world::world(final(transaction)@, final(db)@), output@),
            ),
            Err(stop) => error::asks_anew(stop, floats@) && (world::scan_failed(old(db)@, stop@)
                || deleted(*delete, world::world(old(transaction)@, old(db)@), floats@) == Err::<
                (Map<Seq<u8>, Seq<u8>>, OutputView),
                StopView,
            >(stop@)),
        },
{
    let table = match load_schema(&*transaction, db, delete.table.value.as_str()) {
        Err(stop) => {
            return Err(stop);
        },
        Ok(table) => table,
    };
    let rows = match read_rows(transaction, db, &table, &delete.selection, floats) {
        Err(stop) => {
            return Err(stop);
        },
        Ok(rows) => rows,
    };
    match delete_rows(transaction, db, &table, &delete.selection, &rows, floats) {
        Err(stop) => Err(stop),
        Ok(affected) => Ok(command("DELETE", affected)),
    }
}

} // verus!
