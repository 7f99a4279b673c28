//! UPDATE.
use crate::bytes::{copy_bytes, same_bytes};
use crate::engine::access;
use crate::engine::access::{coerce, load_schema, read_rows, StoredRow, StoredView};
use crate::engine::codec;
use crate::engine::codec::{encode_identity, row_key};
use crate::engine::constraint;
use crate::engine::constraint::{short_row_error, update_unique_keys, validate_unique_values};
use crate::engine::delete;
use crate::engine::delete::is_chosen;
use crate::engine::error;
use crate::engine::error::{EngineError, EngineErrorView, Stop, StopView};
use crate::engine::expression;
use crate::engine::expression::{evaluate, wants_also};
use crate::engine::float::{FloatRequest, FloatTable};
use crate::engine::image;
use crate::engine::image::encode_row;
use crate::engine::output;
use crate::engine::output::{command, OutputView, StatementOutput};
use crate::engine::schema;
use crate::engine::schema::{ColumnView, TableSchema, TableView};
use crate::engine::value;
use crate::engine::value::{copy_text, copy_values, Value, ValueView};
use crate::engine::world;
use crate::engine::world::{erase, read, store};
use crate::engine::insert;
use crate::mvcc::database::MvccDatabase;
use crate::mvcc::transaction::Transaction;
use crate::syntax::{Assignment, Expr, Update};
use crate::text::join_text;
use vstd::prelude::*;
use vstd::string::*;

verus! {

/// The positions of the first columns assigned to, each of which may be assigned to once.
pub open spec fn assigned(
    assignments: Seq<Assignment>,
    columns: Seq<ColumnView>,
    count: nat,
) -> Result<Seq<int>, StopView>
    decreases count,
{
    if count == 0 {
        Ok(Seq::empty())
    } else {
        match assigned(assignments, columns, (count - 1) as nat) {
            Err(stop) => Err(stop),
            Ok(front) => {
                let name = assignments[count - 1].column.value@;
                match schema::position_from(columns, name, 0) {
                    None => Err(expression::no_column(name)),
                    Some(position) => if front.contains(position) {
                        Err(
                            StopView::Error(
                                EngineErrorView::InvalidRow(
                                    "column "@ + name + " is assigned more than once"@,
                                ),
                            ),
                        )
                    } else {
                        Ok(front.push(position))
                    },
                }
            },
        }
    }
}

/// Values with the assignments from one on made; every expression sees the values of before.
pub open spec fn changed(
    assignments: Seq<Assignment>,
    positions: Seq<int>,
    columns: Seq<ColumnView>,
    before: Seq<ValueView>,
    values: Seq<ValueView>,
    floats: Map<FloatRequest, u64>,
    at: int,
) -> Result<Seq<ValueView>, StopView>
    decreases positions.len() - at,
{
    if at < 0 || at >= positions.len() {
        Ok(values)
    } else {
        match expression::evaluated(assignments[at].value, columns, before, floats) {
            Err(stop) => Err(stop),
            Ok(plain) => match access::coerced(plain, columns[positions[at]].data_type, floats) {
                Err(stop) => Err(stop),
                Ok(value) => if positions[at] >= values.len() {
                    Err(StopView::Error(constraint::short_row()))
                } else {
                    changed(
                        assignments,
                        positions,
                        columns,
                        before,
                        values.update(positions[at], value),
                        floats,
                        at + 1,
                    )
                },
            },
        }
    }
}

/// The new values of a row, if the statement is about it.
pub open spec fn change_of(
    assignments: Seq<Assignment>,
    positions: Seq<int>,
    selection: Option<Expr>,
    columns: Seq<ColumnView>,
    before: Seq<ValueView>,
    floats: Map<FloatRequest, u64>,
) -> Result<Option<Seq<ValueView>>, StopView> {
    match delete::chosen(selection, columns, before, floats) {
        Err(stop) => Err(stop),
        Ok(false) => Ok(None),
        Ok(true) => match changed(assignments, positions, columns, before, before, floats, 0) {
            Err(stop) => Err(stop),
            Ok(after) => Ok(Some(after)),
        },
    }
}

/// How far an UPDATE has come.
#[verifier::ext_equal]
pub struct Updating {
    pub rows: Seq<StoredView>,
    pub world: Map<Seq<u8>, Seq<u8>>,
    pub affected: nat,
}

/// The key that a row has after a change.
pub open spec fn moved_key(table: TableView, old_key: Seq<u8>, after: Seq<ValueView>) -> Result<
    Seq<u8>,
    StopView,
> {
    match table.primary_key {
        None => Ok(old_key),
        Some(position) => match codec::identity_of(after[position as int]) {
            Err(error) => Err(StopView::Error(error)),
            Ok(identity) => if identity.len() > u32::MAX {
                Err(StopView::Error(EngineErrorView::InvalidRow("row identity is too large"@)))
            } else {
                Ok(codec::row_key_of(table.id, identity))
            },
        },
    }
}

/// Whether another row has a key.
pub open spec fn key_in_use(rows: Seq<StoredView>, at: int, k: Seq<u8>) -> bool {
    exists|i: int| 0 <= i < rows.len() && i != at && (#[trigger] rows[i]).key == k
}

/// The old key of a row that moves taken away; nothing may be in the new place.
pub open spec fn place_freed(
    rows: Seq<StoredView>,
    at: int,
    k: Seq<u8>,
    world: Map<Seq<u8>, Seq<u8>>,
) -> Result<Map<Seq<u8>, Seq<u8>>, StopView> {
    if k == rows[at].key {
        Ok(world)
    } else if world.contains_key(k) || key_in_use(rows, at, k) {
        Err(StopView::Error(EngineErrorView::ConstraintViolation("duplicate primary key"@)))
    } else {
        world::removed(world, rows[at].key)
    }
}

/// A row given new values and their key.
pub open spec fn row_moved(
    table: TableView,
    from: Updating,
    at: int,
    after: Seq<ValueView>,
    k: Seq<u8>,
) -> Result<Updating, StopView> {
    match constraint::rekeyed(
        table,
        from.rows[at].values,
        after,
        from.rows[at].key,
        k,
        from.world,
        0,
    ) {
        Err(stop) => Err(stop),
        Ok(keyed) => match place_freed(from.rows, at, k, keyed) {
            Err(stop) => Err(stop),
            Ok(freed) => if !image::row_fits(after) {
                Err(StopView::Error(EngineErrorView::Encoding("row is too large"@)))
            } else {
                match world::put(freed, k, image::row_image(after)) {
                    Err(stop) => Err(stop),
                    Ok(next) => Ok(
                        Updating {
                            rows: from.rows.update(at, StoredView { key: k, values: after }),
                            world: next,
                            affected: from.affected + 1,
                        },
                    ),
                }
            },
        },
    }
}

/// A row given new values.
pub open spec fn row_changed(table: TableView, from: Updating, at: int, after: Seq<ValueView>) -> Result<
    Updating,
    StopView,
> {
    match schema::row_refused(table, after) {
        Some(refusal) => Err(StopView::Error(refusal)),
        None => match constraint::clash(table.columns, after, from.rows, at, 0) {
            Some(error) => Err(StopView::Error(error)),
            None => match moved_key(table, from.rows[at].key, after) {
                Err(stop) => Err(stop),
                Ok(k) => row_moved(table, from, at, after, k),
            },
        },
    }
}

/// The rows from one on changed, one after the other.
pub open spec fn rows_changed(
    table: TableView,
    assignments: Seq<Assignment>,
    positions: Seq<int>,
    selection: Option<Expr>,
    from: Updating,
    floats: Map<FloatRequest, u64>,
    at: int,
) -> Result<Updating, StopView>
    decreases from.rows.len() - at,
{
    if at < 0 || at >= from.rows.len() {
        Ok(from)
    } else {
        match change_of(
            assignments,
            positions,
            selection,
            table.columns,
            from.rows[at].values,
            floats,
        ) {
            Err(stop) => Err(stop),
            Ok(None) => rows_changed(
                table,
                assignments,
                positions,
                selection,
                from,
                floats,
                at + 1,
            ),
            Ok(Some(after)) => match row_changed(table, from, at, after) {
                Err(stop) => Err(stop),
                Ok(next) => rows_changed(
                    table,
                    assignments,
                    positions,
                    selection,
                    next,
                    floats,
                    at + 1,
                ),
            },
        }
    }
}

/// What an UPDATE does to what the transaction sees.
pub open spec fn updated(
    update: Update,
    world: Map<Seq<u8>, Seq<u8>>,
    floats: Map<FloatRequest, u64>,
) -> Result<(Map<Seq<u8>, Seq<u8>>, OutputView), StopView> {
    match access::table_named(update.table.value@, world) {
        Err(stop) => Err(stop),
        Ok(table) => match assigned(
            update.assignments@,
            table.columns,
            update.assignments@.len(),
        ) {
            Err(stop) => Err(stop),
            Ok(positions) => match access::rows_read(table, update.selection, world, floats) {
                Err(stop) => Err(stop),
                Ok(rows) => match rows_changed(
                    table,
                    update.assignments@,
                    positions,
                    update.selection,
                    Updating { rows, world, affected: 0 },
                    floats,
                    0,
                ) {
                    Err(stop) => Err(stop),
                    Ok(state) => Ok(
                        (state.world, output::done("UPDATE", state.affected as u64)),
                    ),
                },
            },
        },
    }
}

proof fn lemma_assigned_stop(
    assignments: Seq<Assignment>,
    columns: Seq<ColumnView>,
    few: nat,
    many: nat,
)
    requires
        assigned(assignments, columns, few) is Err,
        few <= many,
    ensures
        assigned(assignments, columns, many) == assigned(assignments, columns, few),
    decreases many,
{
    if few < many {
        lemma_assigned_stop(assignments, columns, few, (many - 1) as nat);
    }
}

fn has_position(positions: &Vec<usize>, wanted: usize) -> (yes: bool)
    ensures
        yes == insert::position_views(positions@).contains(wanted as int),
{
    let mut index: usize = 0;
    while index < positions.len()
        invariant
            index <= positions@.len(),
            forall|i: int| 0 <= i < index ==> #[trigger] positions@[i] != wanted,
        decreases positions@.len() - index,
    {
        if positions[index] == wanted {
            assert(insert::position_views(positions@)[index as int] == wanted as int);
            return true;
        }
        index = index + 1;
    }
    proof {
        let views = insert::position_views(positions@);
        if views.contains(wanted as int) {
            let i = views.index_of(wanted as int);
            assert(positions@[i] == wanted);
        }
    }
    false
}

/// The positions that an UPDATE assigns to.
fn assignment_positions(assignments: &Vec<Assignment>, table: &TableSchema) -> (positions: Result<
    Vec<usize>,
    Stop,
>)
    ensures
        match positions {
            Ok(positions) => assigned(
                assignments@,
                table@.columns,
                assignments@.len(),
            ) == Ok::<Seq<int>, StopView>(insert::position_views(positions@)) && positions@.len()
                == assignments@.len() && forall|i: int|
                0 <= i < positions@.len() ==> (#[trigger] positions@[i]) < table.columns@.len(),
            Err(stop) => assigned(
                assignments@,
                table@.columns,
                assignments@.len(),
            ) == Err::<Seq<int>, StopView>(stop@) && !(stop is Needs),
        },
{
    let mut positions: Vec<usize> = Vec::new();
    let mut index: usize = 0;
    assert(insert::position_views(positions@) =~= Seq::empty());
    while index < assignments.len()
        invariant
            index <= assignments@.len(),
            positions@.len() == index,
            assigned(assignments@, table@.columns, index as nat) == Ok::<Seq<int>, StopView>(
                insert::position_views(positions@),
            ),
            forall|i: int|
                0 <= i < positions@.len() ==> (#[trigger] positions@[i]) < table.columns@.len(),
        decreases assignments@.len() - index,
    {
        let name = &assignments[index].column.value;
        match table.position(name.as_str()) {
            None => {
                proof {
                    lemma_assigned_stop(
                        assignments@,
                        table@.columns,
                        (index + 1) as nat,
                        assignments@.len(),
                    );
                }
                return Err(Stop::Error(EngineError::ColumnNotFound(copy_text(name))));
            },
            Some(position) => {
                if has_position(&positions, position) {
                    proof {
                        lemma_assigned_stop(
                            assignments@,
                            table@.columns,
                            (index + 1) as nat,
                            assignments@.len(),
                        );
                    }
                    return Err(
                        Stop::Error(
                            EngineError::InvalidRow(
                                join_text("column ", name.as_str(), " is assigned more than once"),
                            ),
                        ),
                    );
                }
                let ghost before = insert::position_views(positions@);
                positions.push(position);
                assert(insert::position_views(positions@) =~= before.push(position as int));
            },
        }
        index = index + 1;
    }
    Ok(positions)
}

/// Values with all assignments made.
fn change_row(
    table: &TableSchema,
    assignments: &Vec<Assignment>,
    positions: &Vec<usize>,
    before: &Vec<Value>,
    floats: &FloatTable,
) -> (after: Result<Vec<Value>, Stop>)
    requires
        floats.wf(),
        positions@.len() == assignments@.len(),
        forall|i: int|
            0 <= i < positions@.len() ==> (#[trigger] positions@[i]) < table.columns@.len(),
    ensures
        match after {
            Ok(after) => changed(
                assignments@,
                insert::position_views(positions@),
                table@.columns,
                value::value_views(before@),
                value::value_views(before@),
                floats@,
                0,
            ) == Ok::<Seq<ValueView>, StopView>(value::value_views(after@)) && after@.len()
                == before@.len(),
            Err(stop) => changed(
                assignments@,
                insert::position_views(positions@),
                table@.columns,
                value::value_views(before@),
                value::value_views(before@),
                floats@,
                0,
            ) == Err::<Seq<ValueView>, StopView>(stop@) && error::asks_anew(stop, floats@),
        },
{
    let ghost columns = table@.columns;
    let ghost places = insert::position_views(positions@);
    let ghost was = value::value_views(before@);
    let mut values = copy_values(before.as_slice());
    proof {
        assert(values@.len() == value::value_views(values@).len());
        assert(before@.len() == was.len());
    }
    let mut index: usize = 0;
    while index < positions.len()
        invariant
            index <= positions@.len() == assignments@.len(),
            columns == table@.columns,
            places == insert::position_views(positions@),
            was == value::value_views(before@),
            floats.wf(),
            values@.len() == before@.len(),
            forall|i: int|
                0 <= i < positions@.len() ==> (#[trigger] positions@[i]) < table.columns@.len(),
            changed(assignments@, places, columns, was, was, floats@, 0) == changed(
                assignments@,
                places,
                columns,
                was,
                value::value_views(values@),
                floats@,
                index as int,
            ),
        decreases positions@.len() - index,
    {
        let position: usize = positions[index];
        assert(columns[position as int] == table.columns@[position as int]@);
        let plain = match evaluate(&assignments[index].value, table, before.as_slice(), floats) {
            Err(stop) => {
                return Err(stop);
            },
            Ok(plain) => plain,
        };
        let value = match coerce(plain, table.columns[position].data_type, floats) {
            Err(stop) => {
                return Err(stop);
            },
            Ok(value) => value,
        };
        if position >= values.len() {
            return Err(Stop::Error(short_row_error()));
        }
        let ghost partly = value::value_views(values@);
        let ghost set = value@;
        values.set(position, value);
        assert(value::value_views(values@) =~= partly.update(position as int, set));
        index = index + 1;
    }
    Ok(values)
}

/// The new values of a row, if the statement is about it.
fn evaluate_change(
    table: &TableSchema,
    update: &Update,
    positions: &Vec<usize>,
    before: &Vec<Value>,
    floats: &FloatTable,
) -> (after: Result<Option<Vec<Value>>, Stop>)
    requires
        floats.wf(),
        positions@.len() == update.assignments@.len(),
        forall|i: int|
            0 <= i < positions@.len() ==> (#[trigger] positions@[i]) < table.columns@.len(),
    ensures
        match after {
            Ok(None) => change_of(
                update.assignments@,
                insert::position_views(positions@),
                update.selection,
                table@.columns,
                value::value_views(before@),
                floats@,
            ) == Ok::<Option<Seq<ValueView>>, StopView>(None),
            Ok(Some(after)) => change_of(
                update.assignments@,
                insert::position_views(positions@),
                update.selection,
                table@.columns,
                value::value_views(before@),
                floats@,
            ) == Ok::<Option<Seq<ValueView>>, StopView>(Some(value::value_views(after@)))
                && after@.len() == before@.len(),
            Err(stop) => change_of(
                update.assignments@,
                insert::position_views(positions@),
                update.selection,
                table@.columns,
                value::value_views(before@),
                floats@,
            ) == Err::<Option<Seq<ValueView>>, StopView>(stop@) && error::asks_anew(stop, floats@),
        },
{
    match is_chosen(&update.selection, table, before.as_slice(), floats) {
        Err(stop) => Err(stop),
        Ok(false) => Ok(None),
        Ok(true) => match change_row(table, &update.assignments, positions, before, floats) {
            Err(stop) => Err(stop),
            Ok(after) => Ok(Some(after)),
        },
    }
}

/// A stop for float results with those that later rows want as well.
fn wanted_by_rows(
    stop: Stop,
    table: &TableSchema,
    update: &Update,
    positions: &Vec<usize>,
    rows: &Vec<StoredRow>,
    from: usize,
    floats: &FloatTable,
) -> (joint: Stop)
    requires
        floats.wf(),
        error::asks_anew(stop, floats@),
        positions@.len() == update.assignments@.len(),
        forall|i: int|
            0 <= i < positions@.len() ==> (#[trigger] positions@[i]) < table.columns@.len(),
    ensures
        joint@ == stop@,
        error::asks_anew(joint, floats@),
{
    let ghost view = stop@;
    let mut joint = stop;
    if let Stop::Error(_) = joint {
        return joint;
    }
    let mut index: usize = from;
    while index < rows.len()
        invariant
            floats.wf(),
            joint@ == view,
            error::asks_anew(joint, floats@),
            positions@.len() == update.assignments@.len(),
            forall|i: int|
                0 <= i < positions@.len() ==> (#[trigger] positions@[i]) < table.columns@.len(),
        decreases rows@.len() - index,
    {
        let other = evaluate_change(table, update, positions, &rows[index].values, floats);
        joint = wants_also(joint, other, floats);
        index = index + 1;
    }
    joint
}

/// Whether another row has a key.
fn is_key_in_use(rows: &Vec<StoredRow>, at: usize, k: &[u8]) -> (yes: bool)
    ensures
        yes == key_in_use(access::stored_views(rows@), at as int, k@),
{
    let ghost views = access::stored_views(rows@);
    let mut index: usize = 0;
    while index < rows.len()
        invariant
            index <= rows@.len(),
            views == access::stored_views(rows@),
            forall|i: int| 0 <= i < index && i != at ==> (#[trigger] views[i]).key != k@,
        decreases rows@.len() - index,
    {
        if index != at && same_bytes(rows[index].key.as_slice(), k) {
            assert(views[index as int].key == k@);
            return true;
        }
        index = index + 1;
    }
    false
}

/// Gives a row new values and their key.
fn move_row(
    transaction: &mut Transaction,
    db: &mut MvccDatabase,
    table: &TableSchema,
    rows: &mut Vec<StoredRow>,
    at: usize,
    after: Vec<Value>,
    k: Vec<u8>,
    Ghost(affected): Ghost<nat>,
) -> (done: Result<(), Stop>)
    requires
        world::live(old(transaction), old(db)),
        at < old(rows)@.len(),
        old(rows)@[at as int].values@.len() == table.columns@.len(),
        after@.len() == table.columns@.len(),
    ensures
        world::live(final(transaction), final(db)),
        final(db)@ == old(db)@,
        world::continues(old(transaction)@, final(transaction)@),
        final(rows)@.len() == old(rows)@.len(),
        match done {
            Ok(_) => row_moved(
                table@,
                Updating {
                    rows: access::stored_views(old(rows)@),
                    world: world::world(old(transaction)@, old(db)@),
                    affected,
                },
                at as int,
                value::value_views(after@),
                k@,
            ) == Ok::<Updating, StopView>(
                Updating {
                    rows: access::stored_views(final(rows)@),
                    world: world::world(final(transaction)@, final(db)@),
                    affected: affected + 1,
                },
            ),
            Err(stop) => row_moved(
                table@,
                Updating {
                    rows: access::stored_views(old(rows)@),
                    world: world::world(old(transaction)@, old(db)@),
                    affected,
                },
                at as int,
                value::value_views(after@),
                k@,
            ) == Err::<Updating, StopView>(stop@) && !(stop is Needs),
        },
{
    let ghost views = access::stored_views(rows@);
    assert(views[at as int] == rows@[at as int]@);
    match update_unique_keys(
        transaction,
        db,
        table,
        rows[at].values.as_slice(),
        after.as_slice(),
        rows[at].key.as_slice(),
        k.as_slice(),
    ) {
        Err(stop) => {
            return Err(stop);
        },
        Ok(_) => {},
    }
    if !same_bytes(k.as_slice(), rows[at].key.as_slice()) {
        if read(&*transaction, db, k.as_slice()).is_some() || is_key_in_use(
            &*rows,
            at,
            k.as_slice(),
        ) {
            return Err(
                Stop::Error(
                    EngineError::ConstraintViolation(String::from_str("duplicate primary key")),
                ),
            );
        }
        match erase(transaction, &*db, copy_bytes(rows[at].key.as_slice())) {
            Err(stop) => {
                return Err(stop);
            },
            Ok(_) => {},
        }
    }
    let stored = match encode_row(after.as_slice()) {
        Err(error) => {
            return Err(Stop::Error(error));
        },
        Ok(stored) => stored,
    };
    match store(transaction, &*db, copy_bytes(k.as_slice()), stored) {
        Err(stop) => {
            return Err(stop);
        },
        Ok(_) => {},
    }
    let ghost row = StoredView { key: k@, values: value::value_views(after@) };
    rows.set(at, StoredRow { key: k, values: after });
    assert(access::stored_views(rows@) =~= views.update(at as int, row));
    Ok(())
}

/// Gives a row new values.
fn apply_change(
    transaction: &mut Transaction,
    db: &mut MvccDatabase,
    table: &TableSchema,
    rows: &mut Vec<StoredRow>,
    at: usize,
    after: Vec<Value>,
    Ghost(affected): Ghost<nat>,
) -> (done: Result<(), Stop>)
    requires
        world::live(old(transaction), old(db)),
        at < old(rows)@.len(),
        old(rows)@[at as int].values@.len() == after@.len(),
        table.primary_key matches Some(position) ==> position < table.columns@.len(),
    ensures
        world::live(final(transaction), final(db)),
        final(db)@ == old(db)@,
        world::continues(old(transaction)@, final(transaction)@),
        final(rows)@.len() == old(rows)@.len(),
        match done {
            Ok(_) => row_changed(
                table@,
                Updating {
                    rows: access::stored_views(old(rows)@),
                    world: world::world(old(transaction)@, old(db)@),
                    affected,
                },
                at as int,
                value::value_views(after@),
            ) == Ok::<Updating, StopView>(
                Updating {
                    rows: access::stored_views(final(rows)@),
                    world: world::world(final(transaction)@, final(db)@),
                    affected: affected + 1,
                },
            ),
            Err(stop) => row_changed(
                table@,
                Updating {
                    rows: access::stored_views(old(rows)@),
                    world: world::world(old(transaction)@, old(db)@),
                    affected,
                },
                at as int,
                value::value_views(after@),
            ) == Err::<Updating, StopView>(stop@) && !(stop is Needs),
        },
{
    let ghost views = access::stored_views(rows@);
    assert(views[at as int] == rows@[at as int]@);
    match table.validate_row(after.as_slice()) {
        Err(refusal) => {
            return Err(Stop::Error(refusal));
        },
        Ok(_) => {},
    }
    match validate_unique_values(table, after.as_slice(), &*rows, Some(at)) {
        Err(error) => {
            return Err(Stop::Error(error));
        },
        Ok(_) => {},
    }
    let k = match table.primary_key {
        None => copy_bytes(rows[at].key.as_slice()),
        Some(position) => {
            let identity = match encode_identity(&after[position]) {
                Err(error) => {
                    return Err(Stop::Error(error));
                },
                Ok(identity) => identity,
            };
            match row_key(table.id, identity.as_slice()) {
                Err(error) => {
                    return Err(Stop::Error(error));
                },
                Ok(k) => k,
            }
        },
    };
    move_row(transaction, db, table, rows, at, after, k, Ghost(affected))
}

/// Changes the rows that the statement is about.
fn change_rows(
    transaction: &mut Transaction,
    db: &mut MvccDatabase,
    table: &TableSchema,
    update: &Update,
    positions: &Vec<usize>,
    rows: &mut Vec<StoredRow>,
    floats: &FloatTable,
) -> (result: Result<u64, Stop>)
    requires
        world::live(old(transaction), old(db)),
        floats.wf(),
        positions@.len() == update.assignments@.len(),
        forall|i: int|
            0 <= i < positions@.len() ==> (#[trigger] positions@[i]) < table.columns@.len(),
        table.primary_key matches Some(position) ==> position < table.columns@.len(),
    ensures
        world::live(final(transaction), final(db)),
        final(db)@ == old(db)@,
        world::continues(old(transaction)@, final(transaction)@),
        match result {
            Ok(affected) => rows_changed(
                table@,
                update.assignments@,
                insert::position_views(positions@),
                update.selection,
                Updating {
                    rows: access::stored_views(old(rows)@),
                    world: world::world(old(transaction)@, old(db)@),
                    affected: 0,
                },
                floats@,
                0,
            ) == Ok::<Updating, StopView>(
                Updating {
                    rows: access::stored_views(final(rows)@),
                    world: world::world(final(transaction)@, final(db)@),
                    affected: affected as nat,
                },
            ),
            Err(stop) => rows_changed(
                table@,
                update.assignments@,
                insert::position_views(positions@),
                update.selection,
                Updating {
                    rows: access::stored_views(old(rows)@),
                    world: world::world(old(transaction)@, old(db)@),
                    affected: 0,
                },
                floats@,
                0,
            ) == Err::<Updating, StopView>(stop@) && error::asks_anew(stop, floats@),
        },
{
    let ghost from = Updating {
        rows: access::stored_views(rows@),
        world: world::world(transaction@, db@),
        affected: 0,
    };
    let ghost places = insert::position_views(positions@);
    let mut affected: u64 = 0;
    let mut index: usize = 0;
    while index < rows.len()
        invariant
            index <= rows@.len(),
            affected <= index,
            floats.wf(),
            places == insert::position_views(positions@),
            positions@.len() == update.assignments@.len(),
            forall|i: int|
                0 <= i < positions@.len() ==> (#[trigger] positions@[i]) < table.columns@.len(),
            table.primary_key matches Some(position) ==> position < table.columns@.len(),
            from == (Updating {
                rows: access::stored_views(old(rows)@),
                world: world::world(old(transaction)@, old(db)@),
                affected: 0,
            }),
            world::live(transaction, db),
            db@ == old(db)@,
            world::continues(old(transaction)@, transaction@),
            rows_changed(
                table@,
                update.assignments@,
                places,
                update.selection,
                from,
                floats@,
                0,
            ) == rows_changed(
                table@,
                update.assignments@,
                places,
                update.selection,
                Updating {
                    rows: access::stored_views(rows@),
                    world: world::world(transaction@, db@),
                    affected: affected as nat,
                },
                floats@,
                index as int,
            ),
        decreases rows@.len() - index,
    {
        assert(access::stored_views(rows@)[index as int] == rows@[index as int]@);
        match evaluate_change(table, update, positions, &rows[index].values, floats) {
            Err(stop) => {
                return Err(
                    wanted_by_rows(stop, table, update, positions, &*rows, index + 1, floats),
                );
            },
            Ok(None) => {},
            Ok(Some(after)) => {
                match apply_change(
                    transaction,
                    db,
                    table,
                    rows,
                    index,
                    after,
                    Ghost(affected as nat),
                ) {
                    Err(stop) => {
                        return Err(stop);
                    },
                    Ok(_) => {},
                }
                affected = affected + 1;
            },
        }
        index = index + 1;
    }
    Ok(affected)
}

/// Carries an UPDATE out.
pub(crate) fn execute_update(
    transaction: &mut Transaction,
    db: &mut MvccDatabase,
    update: &Update,
    floats: &FloatTable,
) -> (result: Result<StatementOutput, Stop>)
    requires
        world::live(old(transaction), old(db)),
        floats.wf(),
    ensures
        world::live(final(transaction), final(db)),
        final(db)@ == old(db)@,
        world::continues(old(transaction)@, final(transaction)@),
        match result {
            Ok(output) => updated(
                *update,
                world::world(old(transaction)@, old(db)@),
                floats@,
            ) == Ok::<(Map<Seq<u8>, Seq<u8>>, OutputView), StopView>(
                (world::world(final(transaction)@, final(db)@), output@),
            ),
            Err(stop) => error::asks_anew(stop, floats@) && (world::scan_failed(old(db)@, stop@)
                || updated(*update, world::world(old(transaction)@, old(db)@), floats@) == Err::<
                (Map<Seq<u8>, Seq<u8>>, OutputView),
                StopView,
            >(stop@)),
        },
{
    let ghost start = world::world(transaction@, db@);
    let table = match load_schema(&*transaction, db, update.table.value.as_str()) {
        Err(stop) => {
            return Err(stop);
        },
        Ok(table) => table,
    };
    proof {
        image::lemma_decoded_primary(world::found(
            start,
            codec::catalog_key_of(update.table.value@),
        )->Some_0);
    }
    let positions = match assignment_positions(&update.assignments, &table) {
        Err(stop) => {
            return Err(stop);
        },
        Ok(positions) => positions,
    };
    let mut rows = match read_rows(transaction, db, &table, &update.selection, floats) {
        Err(stop) => {
            return Err(stop);
        },
        Ok(rows) => rows,
    };
    match change_rows(transaction, db, &table, update, &positions, &mut rows, floats) {
        Err(stop) => Err(stop),
        Ok(affected) => Ok(command("UPDATE", affected)),
    }
}

} // verus!
