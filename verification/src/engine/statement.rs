//! Statements within a transaction.
use crate::bytes;
use crate::engine::codec;
use crate::engine::codec::{
    catalog_key,
    decode_u64,
    encode_u64,
    row_prefix,
    table_id_counter_key,
    unique_prefix,
};
use crate::engine::delete;
use crate::engine::delete::execute_delete;
use crate::engine::error;
use crate::engine::error::{EngineError, EngineErrorView, Stop, StopView};
use crate::engine::float::{FloatRequest, FloatTable};
use crate::engine::image;
use crate::engine::image::{decode_schema, encode_schema};
use crate::engine::insert;
use crate::engine::insert::execute_insert;
use crate::engine::output;
use crate::engine::output::{command, OutputView, StatementOutput};
use crate::engine::schema;
use crate::engine::schema::TableSchema;
use crate::engine::select;
use crate::engine::select::execute_select;
use crate::engine::update;
use crate::engine::update::execute_update;
use crate::engine::value::copy_text;
use crate::engine::world;
use crate::engine::world::{erase, read, scan, store};
use crate::mvcc::database::MvccDatabase;
use crate::mvcc::transaction;
use crate::mvcc::transaction::{RowView, Transaction};
use crate::syntax::{CreateTable, DropTable, Statement};
use vstd::prelude::*;
use vstd::string::*;
use vstd::utf8::encode_utf8;

verus! {

pub open spec fn long_name() -> StopView {
    StopView::Error(EngineErrorView::InvalidSchema("identifier is too large"@))
}

/// The number that the next table gets.
pub open spec fn next_table_id(world: Map<Seq<u8>, Seq<u8>>) -> Result<u64, StopView> {
    match world::found(world, codec::table_counter()) {
        None => Ok(1),
        Some(bytes) => match codec::number_decoded(bytes) {
            Err(error) => Err(StopView::Error(error)),
            Ok(number) => Ok(number),
        },
    }
}

/// A new table with a given number entered in the catalog.
pub open spec fn table_entered(
    create: CreateTable,
    id: u64,
    world: Map<Seq<u8>, Seq<u8>>,
) -> Result<(Map<Seq<u8>, Seq<u8>>, OutputView), StopView> {
    match schema::created(id, create) {
        Err(error) => Err(StopView::Error(error)),
        Ok(table) => if !image::schema_fits(table) {
            Err(StopView::Error(EngineErrorView::Encoding("schema is too large"@)))
        } else {
            match world::put(
                world,
                codec::catalog_key_of(create.name.value@),
                image::schema_image(table),
            ) {
                Err(stop) => Err(stop),
                Ok(entered) => match world::put(
                    entered,
                    codec::table_counter(),
                    bytes::be_bytes((id + 1) as nat, 8),
                ) {
                    Err(stop) => Err(stop),
                    Ok(next) => Ok((next, output::done("CREATE TABLE", 0))),
                },
            }
        },
    }
}

/// What a CREATE TABLE does to what the transaction sees.
pub open spec fn table_created(create: CreateTable, world: Map<Seq<u8>, Seq<u8>>) -> Result<
    (Map<Seq<u8>, Seq<u8>>, OutputView),
    StopView,
> {
    if encode_utf8(create.name.value@).len() > u32::MAX {
        Err(long_name())
    } else if world.contains_key(codec::catalog_key_of(create.name.value@)) {
        if create.if_not_exists {
            Ok((world, output::done("CREATE TABLE", 0)))
        } else {
            Err(StopView::Error(EngineErrorView::TableAlreadyExists(create.name.value@)))
        }
    } else {
        match next_table_id(world) {
            Err(stop) => Err(stop),
            Ok(id) => if id == u64::MAX {
                Err(StopView::Error(EngineErrorView::InvalidSchema("table ID space exhausted"@)))
            } else {
                table_entered(create, id, world)
            },
        }
    }
}

/// Keys from one on taken away.
pub open spec fn keys_removed(rows: Seq<RowView>, world: Map<Seq<u8>, Seq<u8>>, at: int) -> Result<
    Map<Seq<u8>, Seq<u8>>,
    StopView,
>
    decreases rows.len() - at,
{
    if at < 0 || at >= rows.len() {
        Ok(world)
    } else {
        match world::removed(world, rows[at].key) {
            Err(stop) => Err(stop),
            Ok(next) => keys_removed(rows, next, at + 1),
        }
    }
}

/// All keys with a prefix taken away.
pub open spec fn cleared(world: Map<Seq<u8>, Seq<u8>>, p: Seq<u8>) -> Result<
    Map<Seq<u8>, Seq<u8>>,
    StopView,
> {
    keys_removed(world::rows_under(world, p), world, 0)
}

/// What a DROP TABLE does to what the transaction sees.
pub open spec fn table_dropped(drop: DropTable, world: Map<Seq<u8>, Seq<u8>>) -> Result<
    (Map<Seq<u8>, Seq<u8>>, OutputView),
    StopView,
> {
    let k = codec::catalog_key_of(drop.name.value@);
    if encode_utf8(drop.name.value@).len() > u32::MAX {
        Err(long_name())
    } else {
        match world::found(world, k) {
            None => if drop.if_exists {
                Ok((world, output::done("DROP TABLE", 0)))
            } else {
                Err(StopView::Error(EngineErrorView::TableNotFound(drop.name.value@)))
            },
            Some(bytes) => match image::schema_decoded(bytes) {
                Err(error) => Err(StopView::Error(error)),
                Ok(table) => match cleared(world, codec::rows_of(table.id)) {
                    Err(stop) => Err(stop),
                    Ok(rowless) => match cleared(rowless, codec::uniques_of(table.id)) {
                        Err(stop) => Err(stop),
                        Ok(bare) => match world::removed(bare, k) {
                            Err(stop) => Err(stop),
                            Ok(next) => Ok((next, output::done("DROP TABLE", 0))),
                        },
                    },
                },
            },
        }
    }
}

pub open spec fn unsupported(name: &str) -> StopView {
    StopView::Error(
        EngineErrorView::Unsupported(name@ + " execution is not implemented yet"@ + ""@),
    )
}

/// Whether a statement turns one world into another and gives an output.
pub open spec fn ran(
    statement: Statement,
    world: Map<Seq<u8>, Seq<u8>>,
    floats: Map<FloatRequest, u64>,
    after: Map<Seq<u8>, Seq<u8>>,
    output: OutputView,
) -> bool {
    match statement {
        Statement::CreateTable(create) => table_created(create, world) == Ok::<
            (Map<Seq<u8>, Seq<u8>>, OutputView),
            StopView,
        >((after, output)),
        Statement::DropTable(drop) => table_dropped(drop, world) == Ok::<
            (Map<Seq<u8>, Seq<u8>>, OutputView),
            StopView,
        >((after, output)),
        Statement::Insert(insert) => insert::inserted(insert, world, floats) == Ok::<
            (Map<Seq<u8>, Seq<u8>>, OutputView),
            StopView,
        >((after, output)),
        Statement::Update(update) => update::updated(update, world, floats) == Ok::<
            (Map<Seq<u8>, Seq<u8>>, OutputView),
            StopView,
        >((after, output)),
        Statement::Delete(delete) => delete::deleted(delete, world, floats) == Ok::<
            (Map<Seq<u8>, Seq<u8>>, OutputView),
            StopView,
        >((after, output)),
        Statement::Select(select) => after == world && select::selected(
            select,
            world,
            floats,
            output,
        ),
        _ => false,
    }
}

pub open spec fn stop_of<T>(result: Result<T, StopView>) -> Option<StopView> {
    match result {
        Ok(_) => None,
        Err(stop) => Some(stop),
    }
}

/// Why a statement does not run, if it does not.
pub open spec fn refused(
    statement: Statement,
    world: Map<Seq<u8>, Seq<u8>>,
    floats: Map<FloatRequest, u64>,
) -> Option<StopView> {
    match statement {
        Statement::CreateTable(create) => stop_of(table_created(create, world)),
        Statement::DropTable(drop) => stop_of(table_dropped(drop, world)),
        Statement::Insert(insert) => stop_of(insert::inserted(insert, world, floats)),
        Statement::Update(update) => stop_of(update::updated(update, world, floats)),
        Statement::Delete(delete) => stop_of(delete::deleted(delete, world, floats)),
        Statement::Select(select) => stop_of(select::gathered(select, world, floats)),
        Statement::BeginTransaction => Some(unsupported("BeginTransaction")),
        Statement::Commit => Some(unsupported("Commit")),
        Statement::Rollback => Some(unsupported("Rollback")),
    }
}

fn execute_create(
    transaction: &mut Transaction,
    db: &mut MvccDatabase,
    create: &CreateTable,
) -> (result: Result<StatementOutput, Stop>)
    requires
        world::live(old(transaction), old(db)),
    ensures
        world::live(final(transaction), final(db)),
        final(db)@ == old(db)@,
        world::continues(old(transaction)@, final(transaction)@),
        match result {
            Ok(output) => table_created(*create, world::world(old(transaction)@, old(db)@)) == Ok::<
                (Map<Seq<u8>, Seq<u8>>, OutputView),
                StopView,
            >((world::world(final(transaction)@, final(db)@), output@)),
            Err(stop) => table_created(
                *create,
                world::world(old(transaction)@, old(db)@),
            ) == Err::<(Map<Seq<u8>, Seq<u8>>, OutputView), StopView>(stop@) && !(stop is Needs),
        },
{
    let k = match catalog_key(create.name.value.as_str()) {
        Err(error) => {
            return Err(Stop::Error(error));
        },
        Ok(k) => k,
    };
    if read(&*transaction, db, k.as_slice()).is_some() {
        return if create.if_not_exists {
            Ok(command("CREATE TABLE", 0))
        } else {
            Err(Stop::Error(EngineError::TableAlreadyExists(copy_text(&create.name.value))))
        };
    }
    let counter = table_id_counter_key();
    let id: u64 = match read(&*transaction, db, counter.as_slice()) {
        None => 1,
        Some(bytes) => match decode_u64(bytes.as_slice()) {
            Err(error) => {
                return Err(Stop::Error(error));
            },
            Ok(number) => number,
        },
    };
    if id == u64::MAX {
        return Err(
            Stop::Error(EngineError::InvalidSchema(String::from_str("table ID space exhausted"))),
        );
    }
    let table = match TableSchema::from_create(id, create) {
        Err(error) => {
            return Err(Stop::Error(error));
        },
        Ok(table) => table,
    };
    let stored = match encode_schema(&table) {
        Err(error) => {
            return Err(Stop::Error(error));
        },
        Ok(stored) => stored,
    };
    match store(transaction, &*db, k, stored) {
        Err(stop) => {
            return Err(stop);
        },
        Ok(_) => {},
    }
    match store(transaction, &*db, counter, encode_u64(id + 1)) {
        Err(stop) => Err(stop),
        Ok(_) => Ok(command("CREATE TABLE", 0)),
    }
}

/// Takes all keys with a prefix away.
fn clear(transaction: &mut Transaction, db: &mut MvccDatabase, prefix: &[u8]) -> (done: Result<
    (),
    Stop,
>)
    requires
        world::live(old(transaction), old(db)),
    ensures
        world::live(final(transaction), final(db)),
        final(db)@ == old(db)@,
        world::continues(old(transaction)@, final(transaction)@),
        match done {
            Ok(_) => cleared(world::world(old(transaction)@, old(db)@), prefix@) == Ok::<
                Map<Seq<u8>, Seq<u8>>,
                StopView,
            >(world::world(final(transaction)@, final(db)@)),
            Err(stop) => !(stop is Needs) && (world::scan_failed(old(db)@, stop@) || cleared(
                world::world(old(transaction)@, old(db)@),
                prefix@,
            ) == Err::<Map<Seq<u8>, Seq<u8>>, StopView>(stop@)),
        },
{
    let ghost start = world::world(transaction@, db@);
    let rows = match scan(transaction, db, prefix) {
        Err(stop) => {
            return Err(stop);
        },
        Ok(rows) => rows,
    };
    let ghost views = transaction::row_views(rows@);
    let mut index: usize = 0;
    while index < rows.len()
        invariant
            index <= rows@.len(),
            views == transaction::row_views(rows@),
            views == world::rows_under(start, prefix@),
            start == world::world(old(transaction)@, old(db)@),
            world::live(transaction, db),
            db@ == old(db)@,
            world::continues(old(transaction)@, transaction@),
            keys_removed(views, start, 0) == keys_removed(
                views,
                world::world(transaction@, db@),
                index as int,
            ),
        decreases rows@.len() - index,
    {
        match erase(transaction, &*db, bytes::copy_bytes(rows[index].0.as_slice())) {
            Err(stop) => {
                return Err(stop);
            },
            Ok(_) => {},
        }
        index = index + 1;
    }
    Ok(())
}

fn execute_drop(transaction: &mut Transaction, db: &mut MvccDatabase, drop: &DropTable) -> (result:
    Result<StatementOutput, Stop>)
    requires
        world::live(old(transaction), old(db)),
    ensures
        world::live(final(transaction), final(db)),
        final(db)@ == old(db)@,
        world::continues(old(transaction)@, final(transaction)@),
        match result {
            Ok(output) => table_dropped(*drop, world::world(old(transaction)@, old(db)@)) == Ok::<
                (Map<Seq<u8>, Seq<u8>>, OutputView),
                StopView,
            >((world::world(final(transaction)@, final(db)@), output@)),
            Err(stop) => !(stop is Needs) && (world::scan_failed(old(db)@, stop@) || table_dropped(
                *drop,
                world::world(old(transaction)@, old(db)@),
            ) == Err::<(Map<Seq<u8>, Seq<u8>>, OutputView), StopView>(stop@)),
        },
{
    let k = match catalog_key(drop.name.value.as_str()) {
        Err(error) => {
            return Err(Stop::Error(error));
        },
        Ok(k) => k,
    };
    let stored = match read(&*transaction, db, k.as_slice()) {
        None => {
            return if drop.if_exists {
                Ok(command("DROP TABLE", 0))
            } else {
                Err(Stop::Error(EngineError::TableNotFound(copy_text(&drop.name.value))))
            };
        },
        Some(stored) => stored,
    };
    let table = match decode_schema(stored.as_slice()) {
        Err(error) => {
            return Err(Stop::Error(error));
        },
        Ok(table) => table,
    };
    let rows = row_prefix(table.id);
    match clear(transaction, db, rows.as_slice()) {
        Err(stop) => {
            return Err(stop);
        },
        Ok(_) => {},
    }
    let uniques = unique_prefix(table.id);
    match clear(transaction, db, uniques.as_slice()) {
        Err(stop) => {
            return Err(stop);
        },
        Ok(_) => {},
    }
    match erase(transaction, &*db, k) {
        Err(stop) => Err(stop),
        Ok(_) => Ok(command("DROP TABLE", 0)),
    }
}

fn unsupported_stop(name: &str) -> (stop: Stop)
    ensures
        stop@ == unsupported(name),
        !(stop is Needs),
{
    Stop::Error(
        EngineError::Unsupported(
            crate::text::join_text(name, " execution is not implemented yet", ""),
        ),
    )
}

/// Runs a statement within a transaction.
pub fn execute_in_transaction(
    transaction: &mut Transaction,
    db: &mut MvccDatabase,
    statement: &Statement,
    floats: &FloatTable,
) -> (result: Result<StatementOutput, Stop>)
    requires
        world::live(old(transaction), old(db)),
        floats.wf(),
    ensures
        world::live(final(transaction), final(db)),
        final(db)@ == old(db)@,
        world::continues(old(transaction)@, final(transaction)@),
        match result {
            Ok(output) => ran(
                *statement,
                world::world(old(transaction)@, old(db)@),
                floats@,
                world::world(final(transaction)@, final(db)@),
                output@,
            ),
            Err(stop) => error::asks_anew(stop, floats@) && (world::scan_failed(old(db)@, stop@)
                || refused(*statement, world::world(old(transaction)@, old(db)@), floats@) == Some(
                stop@,
            )),
        },
{
    match statement {
        Statement::CreateTable(create) => execute_create(transaction, db, create),
        Statement::DropTable(drop) => execute_drop(transaction, db, drop),
        Statement::Insert(insert) => execute_insert(transaction, db, insert, floats),
        Statement::Select(select) => execute_select(transaction, db, select, floats),
        Statement::Update(update) => execute_update(transaction, db, update, floats),
        Statement::Delete(delete) => execute_delete(transaction, db, delete, floats),
        Statement::BeginTransaction => Err(unsupported_stop("BeginTransaction")),
        Statement::Commit => Err(unsupported_stop("Commit")),
        Statement::Rollback => Err(unsupported_stop("Rollback")),
    }
}

} // verus!
