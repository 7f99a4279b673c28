//! INSERT.
use crate::bytes;
use crate::engine::access;
use crate::engine::access::{coerce, decode_rows, load_schema, StoredRow, StoredView};
use crate::engine::codec;
use crate::engine::codec::{catalog_key, encode_identity, encode_u64, row_key, row_prefix};
use crate::engine::constraint;
use crate::engine::constraint::{acquire_unique_keys, validate_unique_values};
use crate::engine::error;
use crate::engine::error::{EngineError, EngineErrorView, Stop, StopView};
use crate::engine::expression;
use crate::engine::expression::{evaluate, wants_also};
use crate::engine::float::{FloatRequest, FloatTable};
use crate::engine::image;
use crate::engine::image::{encode_row, encode_schema};
use crate::engine::output;
use crate::engine::output::{command, OutputView, StatementOutput};
use crate::engine::schema;
use crate::engine::schema::{same_text, ColumnView, TableSchema, TableView};
use crate::engine::value;
use crate::engine::value::{copy_text, null_values, Value, ValueView};
use crate::engine::world;
use crate::engine::world::{read, scan, store};
use crate::mvcc::database::MvccDatabase;
use crate::mvcc::transaction::Transaction;
use crate::syntax::{Expr, Identifier, Insert};
use crate::text;
use crate::text::{join_text, text_with_number};
use vstd::prelude::*;
use vstd::string::*;

verus! {

/// Whether the first `count` of some names hold a name.
pub open spec fn named_before(names: Seq<Identifier>, name: Seq<char>, count: int) -> bool {
    exists|i: int| 0 <= i < count && (#[trigger] names[i]).value@ == name
}

/// The positions of the first columns named, each of which may be named once.
pub open spec fn positions_of(
    names: Seq<Identifier>,
    columns: Seq<ColumnView>,
    count: nat,
) -> Result<Seq<int>, StopView>
    decreases count,
{
    if count == 0 {
        Ok(Seq::empty())
    } else {
        match positions_of(names, columns, (count - 1) as nat) {
            Err(stop) => Err(stop),
            Ok(front) => {
                let name = names[count - 1].value@;
                if named_before(names, name, count - 1) {
                    Err(
                        StopView::Error(
                            EngineErrorView::InvalidRow(
                                "column "@ + name + " appears more than once"@,
                            ),
                        ),
                    )
                } else {
                    match schema::position_from(columns, name, 0) {
                        None => Err(expression::no_column(name)),
                        Some(position) => Ok(front.push(position)),
                    }
                }
            },
        }
    }
}

/// The positions that an INSERT gives values for.
pub open spec fn insert_positions(names: Seq<Identifier>, columns: Seq<ColumnView>) -> Result<
    Seq<int>,
    StopView,
> {
    if names.len() == 0 {
        Ok(Seq::new(columns.len(), |i: int| i))
    } else {
        positions_of(names, columns, names.len())
    }
}

/// Values of a row with those from an expression on filled in; each may use those before it.
pub open spec fn filled(
    expressions: Seq<Expr>,
    positions: Seq<int>,
    columns: Seq<ColumnView>,
    values: Seq<ValueView>,
    floats: Map<FloatRequest, u64>,
    at: int,
) -> Result<Seq<ValueView>, StopView>
    decreases expressions.len() - at,
{
    if at < 0 || at >= expressions.len() {
        Ok(values)
    } else {
        match expression::evaluated(expressions[at], columns, values, floats) {
            Err(stop) => Err(stop),
            Ok(plain) => match access::coerced(plain, columns[positions[at]].data_type, floats) {
                Err(stop) => Err(stop),
                Ok(value) => filled(
                    expressions,
                    positions,
                    columns,
                    values.update(positions[at], value),
                    floats,
                    at + 1,
                ),
            },
        }
    }
}

/// The values of a row that an INSERT gives.
pub open spec fn row_values(
    table: TableView,
    expressions: Seq<Expr>,
    positions: Seq<int>,
    floats: Map<FloatRequest, u64>,
) -> Result<Seq<ValueView>, StopView> {
    if expressions.len() != positions.len() {
        Err(
            StopView::Error(
                EngineErrorView::InvalidRow(
                    "INSERT specifies "@ + text::decimal(positions.len()) + (
                    " columns but supplies "@ + text::decimal(expressions.len()) + " values"@),
                ),
            ),
        )
    } else {
        filled(
            expressions,
            positions,
            table.columns,
            access::nulls(table.columns.len()),
            floats,
            0,
        )
    }
}

/// The bytes that a new row is told by, and the table with the number used up where there is no
/// primary key.
pub open spec fn row_identity(table: TableView, values: Seq<ValueView>) -> Result<
    (Seq<u8>, TableView),
    StopView,
> {
    match table.primary_key {
        Some(position) => match codec::identity_of(values[position as int]) {
            Err(error) => Err(StopView::Error(error)),
            Ok(identity) => Ok((identity, table)),
        },
        None => if table.next_row_id == u64::MAX {
            Err(
                StopView::Error(
                    EngineErrorView::ConstraintViolation("hidden row ID space exhausted"@),
                ),
            )
        } else {
            Ok(
                (
                    bytes::be_bytes(table.next_row_id as nat, 8),
                    TableView { next_row_id: (table.next_row_id + 1) as u64, ..table },
                ),
            )
        },
    }
}

/// How far an INSERT has come.
#[verifier::ext_equal]
pub struct Inserting {
    pub table: TableView,
    /// The rows of the table, those inserted so far at the end.
    pub rows: Seq<StoredView>,
    pub world: Map<Seq<u8>, Seq<u8>>,
}

/// A row with given values added.
pub open spec fn row_added(from: Inserting, values: Seq<ValueView>) -> Result<Inserting, StopView> {
    match schema::row_refused(from.table, values) {
        Some(refusal) => Err(StopView::Error(refusal)),
        None => match constraint::clash(from.table.columns, values, from.rows, -1, 0) {
            Some(error) => Err(StopView::Error(error)),
            None => match row_identity(from.table, values) {
                Err(stop) => Err(stop),
                Ok((identity, table)) => row_placed(from, table, identity, values),
            },
        },
    }
}

/// A row with a given identity put in its place.
pub open spec fn row_placed(
    from: Inserting,
    table: TableView,
    identity: Seq<u8>,
    values: Seq<ValueView>,
) -> Result<Inserting, StopView> {
    let k = codec::row_key_of(table.id, identity);
    if identity.len() > u32::MAX {
        Err(StopView::Error(EngineErrorView::InvalidRow("row identity is too large"@)))
    } else if from.world.contains_key(k) {
        Err(StopView::Error(EngineErrorView::ConstraintViolation("duplicate primary key"@)))
    } else {
        match constraint::acquired(table, values, k, from.world, 0) {
            Err(stop) => Err(stop),
            Ok(taken) => if !image::row_fits(values) {
                Err(StopView::Error(EngineErrorView::Encoding("row is too large"@)))
            } else {
                match world::put(taken, k, image::row_image(values)) {
                    Err(stop) => Err(stop),
                    Ok(next) => Ok(
                        Inserting {
                            table,
                            rows: from.rows.push(StoredView { key: k, values }),
                            world: next,
                        },
                    ),
                }
            },
        }
    }
}

/// The first `count` rows of an INSERT added, one after the other.
pub open spec fn rows_added(
    from: Inserting,
    rows: Seq<Vec<Expr>>,
    positions: Seq<int>,
    floats: Map<FloatRequest, u64>,
    count: nat,
) -> Result<Inserting, StopView>
    decreases count,
{
    if count == 0 {
        Ok(from)
    } else {
        match rows_added(from, rows, positions, floats, (count - 1) as nat) {
            Err(stop) => Err(stop),
            Ok(state) => match row_values(state.table, rows[count - 1]@, positions, floats) {
                Err(stop) => Err(stop),
                Ok(values) => row_added(state, values),
            },
        }
    }
}

/// What an INSERT does to what the transaction sees.
pub open spec fn inserted(
    insert: Insert,
    world: Map<Seq<u8>, Seq<u8>>,
    floats: Map<FloatRequest, u64>,
) -> Result<(Map<Seq<u8>, Seq<u8>>, OutputView), StopView> {
    match access::table_named(insert.table.value@, world) {
        Err(stop) => Err(stop),
        Ok(table) => match insert_positions(insert.columns@, table.columns) {
            Err(stop) => Err(stop),
            Ok(positions) => match access::decoded(
                world::rows_under(world, codec::rows_of(table.id)),
            ) {
                Err(stop) => Err(stop),
                Ok(rows) => match rows_added(
                    Inserting { table, rows, world },
                    insert.rows@,
                    positions,
                    floats,
                    insert.rows@.len(),
                ) {
                    Err(stop) => Err(stop),
                    Ok(state) => inserted_all(insert, state),
                },
            },
        },
    }
}

/// The end of an INSERT: a table that numbers its rows remembers the next number.
pub open spec fn inserted_all(insert: Insert, state: Inserting) -> Result<
    (Map<Seq<u8>, Seq<u8>>, OutputView),
    StopView,
> {
    let output = output::done("INSERT", insert.rows@.len() as u64);
    if state.table.primary_key is Some {
        Ok((state.world, output))
    } else if !image::schema_fits(state.table) {
        Err(StopView::Error(EngineErrorView::Encoding("schema is too large"@)))
    } else {
        match world::put(
            state.world,
            codec::catalog_key_of(insert.table.value@),
            image::schema_image(state.table),
        ) {
            Err(stop) => Err(stop),
            Ok(next) => Ok((next, output)),
        }
    }
}

pub open spec fn position_views(positions: Seq<usize>) -> Seq<int> {
    Seq::new(positions.len(), |i: int| positions[i] as int)
}

proof fn lemma_positions_stop(
    names: Seq<Identifier>,
    columns: Seq<ColumnView>,
    few: nat,
    many: nat,
)
    requires
        positions_of(names, columns, few) is Err,
        few <= many,
    ensures
        positions_of(names, columns, many) == positions_of(names, columns, few),
    decreases many,
{
    if few < many {
        lemma_positions_stop(names, columns, few, (many - 1) as nat);
    }
}

/// Whether a name is among the first ones.
fn is_named_before(names: &Vec<Identifier>, count: usize) -> (yes: bool)
    requires
        count < names@.len(),
    ensures
        yes == named_before(names@, names@[count as int].value@, count as int),
{
    let mut index: usize = 0;
    while index < count
        invariant
            index <= count < names@.len(),
            forall|i: int|
                0 <= i < index ==> (#[trigger] names@[i]).value@ != names@[count as int].value@,
        decreases count - index,
    {
        if same_text(names[index].value.as_str(), names[count].value.as_str()) {
            return true;
        }
        index = index + 1;
    }
    false
}

/// The positions that an INSERT gives values for.
fn target_positions(names: &Vec<Identifier>, table: &TableSchema) -> (positions: Result<
    Vec<usize>,
    Stop,
>)
    ensures
        match positions {
            Ok(positions) => insert_positions(names@, table@.columns) == Ok::<Seq<int>, StopView>(
                position_views(positions@),
            ) && forall|i: int|
                0 <= i < positions@.len() ==> (#[trigger] positions@[i]) < table.columns@.len(),
            Err(stop) => insert_positions(names@, table@.columns) == Err::<Seq<int>, StopView>(
                stop@,
            ) && !(stop is Needs),
        },
{
    let mut positions: Vec<usize> = Vec::new();
    if names.len() == 0 {
        let mut index: usize = 0;
        while index < table.columns.len()
            invariant
                index <= table.columns@.len(),
                positions@.len() == index,
                forall|i: int| 0 <= i < index ==> #[trigger] positions@[i] == i,
            decreases table.columns@.len() - index,
        {
            positions.push(index);
            index = index + 1;
        }
        assert(position_views(positions@) =~= Seq::new(table@.columns.len(), |i: int| i));
        return Ok(positions);
    }
    let mut index: usize = 0;
    assert(position_views(positions@) =~= Seq::empty());
    while index < names.len()
        invariant
            names@.len() > 0,
            index <= names@.len(),
            positions_of(names@, table@.columns, index as nat) == Ok::<Seq<int>, StopView>(
                position_views(positions@),
            ),
            forall|i: int|
                0 <= i < positions@.len() ==> (#[trigger] positions@[i]) < table.columns@.len(),
        decreases names@.len() - index,
    {
        if is_named_before(names, index) {
            proof {
                lemma_positions_stop(names@, table@.columns, (index + 1) as nat, names@.len());
            }
            return Err(
                Stop::Error(
                    EngineError::InvalidRow(
                        join_text(
                            "column ",
                            names[index].value.as_str(),
                            " appears more than once",
                        ),
                    ),
                ),
            );
        }
        match table.position(names[index].value.as_str()) {
            None => {
                proof {
                    lemma_positions_stop(names@, table@.columns, (index + 1) as nat, names@.len());
                }
                return Err(
                    Stop::Error(EngineError::ColumnNotFound(copy_text(&names[index].value))),
                );
            },
            Some(position) => {
                let ghost before = position_views(positions@);
                positions.push(position);
                assert(position_views(positions@) =~= before.push(position as int));
            },
        }
        index = index + 1;
    }
    Ok(positions)
}

/// The values of a row that an INSERT gives.
fn evaluate_row(
    table: &TableSchema,
    expressions: &Vec<Expr>,
    positions: &Vec<usize>,
    floats: &FloatTable,
) -> (values: Result<Vec<Value>, Stop>)
    requires
        floats.wf(),
        forall|i: int|
            0 <= i < positions@.len() ==> (#[trigger] positions@[i]) < table.columns@.len(),
    ensures
        match values {
            Ok(values) => row_values(
                table@,
                expressions@,
                position_views(positions@),
                floats@,
            ) == Ok::<Seq<ValueView>, StopView>(value::value_views(values@)),
            Err(stop) => row_values(
                table@,
                expressions@,
                position_views(positions@),
                floats@,
            ) == Err::<Seq<ValueView>, StopView>(stop@) && error::asks_anew(stop, floats@),
        },
{
    if expressions.len() != positions.len() {
        let tail = text_with_number(
            " columns but supplies ",
            expressions.len() as u64,
            " values",
        );
        return Err(
            Stop::Error(
                EngineError::InvalidRow(
                    text_with_number("INSERT specifies ", positions.len() as u64, tail.as_str()),
                ),
            ),
        );
    }
    let ghost columns = table@.columns;
    let ghost places = position_views(positions@);
    let mut values = null_values(table.columns.len());
    let ghost start = value::value_views(values@);
    assert(start =~= access::nulls(columns.len()));
    let mut index: usize = 0;
    while index < expressions.len()
        invariant
            index <= expressions@.len() == positions@.len(),
            columns == table@.columns,
            places == position_views(positions@),
            start == access::nulls(columns.len()),
            floats.wf(),
            forall|i: int|
                0 <= i < positions@.len() ==> (#[trigger] positions@[i]) < table.columns@.len(),
            values@.len() == table.columns@.len(),
            filled(expressions@, places, columns, start, floats@, 0) == filled(
                expressions@,
                places,
                columns,
                value::value_views(values@),
                floats@,
                index as int,
            ),
        decreases expressions@.len() - index,
    {
        let position: usize = positions[index];
        assert(columns[position as int] == table.columns@[position as int]@);
        let plain = match evaluate(&expressions[index], table, values.as_slice(), floats) {
            Err(stop) => {
                return Err(stop);
            },
            Ok(plain) => plain,
        };
        let value = match coerce(plain, table.columns[position].data_type, floats) {
            Err(stop) => {
                return Err(stop);
            },
            Ok(value) => value,
        };
        let ghost before = value::value_views(values@);
        let ghost set = value@;
        values.set(position, value);
        assert(value::value_views(values@) =~= before.update(position as int, set));
        index = index + 1;
    }
    Ok(values)
}

/// A stop for float results with those that later rows want as well.
fn wanted_by_rows(
    stop: Stop,
    table: &TableSchema,
    rows: &Vec<Vec<Expr>>,
    from: usize,
    positions: &Vec<usize>,
    floats: &FloatTable,
) -> (joint: Stop)
    requires
        floats.wf(),
        error::asks_anew(stop, floats@),
        forall|i: int|
            0 <= i < positions@.len() ==> (#[trigger] positions@[i]) < table.columns@.len(),
    ensures
        joint@ == stop@,
        error::asks_anew(joint, floats@),
{
    let ghost view = stop@;
    let mut joint = stop;
    let mut index: usize = from;
    if let Stop::Error(_) = joint {
        return joint;
    }
    while index < rows.len()
        invariant
            floats.wf(),
            joint@ == view,
            error::asks_anew(joint, floats@),
            forall|i: int|
                0 <= i < positions@.len() ==> (#[trigger] positions@[i]) < table.columns@.len(),
        decreases rows@.len() - index,
    {
        joint = wants_also(joint, evaluate_row(table, &rows[index], positions, floats), floats);
        index = index + 1;
    }
    joint
}

/// Adds a row.
fn add_row(
    transaction: &mut Transaction,
    db: &mut MvccDatabase,
    table: &mut TableSchema,
    rows: &mut Vec<StoredRow>,
    values: Vec<Value>,
) -> (done: Result<(), Stop>)
    requires
        world::live(old(transaction), old(db)),
        old(table).primary_key matches Some(position) ==> position < old(table).columns@.len(),
    ensures
        world::live(final(transaction), final(db)),
        final(db)@ == old(db)@,
        world::continues(old(transaction)@, final(transaction)@),
        final(table)@.columns == old(table)@.columns,
        final(table)@.id == old(table)@.id,
        final(table)@.primary_key == old(table)@.primary_key,
        match done {
            Ok(_) => row_added(
                Inserting {
                    table: old(table)@,
                    rows: access::stored_views(old(rows)@),
                    world: world::world(old(transaction)@, old(db)@),
                },
                value::value_views(values@),
            ) == Ok::<Inserting, StopView>(
                Inserting {
                    table: final(table)@,
                    rows: access::stored_views(final(rows)@),
                    world: world::world(final(transaction)@, final(db)@),
                },
            ) && final(rows)@.len() == old(rows)@.len() + 1,
            Err(stop) => row_added(
                Inserting {
                    table: old(table)@,
                    rows: access::stored_views(old(rows)@),
                    world: world::world(old(transaction)@, old(db)@),
                },
                value::value_views(values@),
            ) == Err::<Inserting, StopView>(stop@) && !(stop is Needs),
        },
{
    let ghost new = value::value_views(values@);
    match table.validate_row(values.as_slice()) {
        Err(refusal) => {
            return Err(Stop::Error(refusal));
        },
        Ok(_) => {},
    }
    match validate_unique_values(&*table, values.as_slice(), &*rows, None) {
        Err(error) => {
            return Err(Stop::Error(error));
        },
        Ok(_) => {},
    }
    let identity = match table.primary_key {
        Some(position) => {
            match encode_identity(&values[position]) {
                Err(error) => {
                    return Err(Stop::Error(error));
                },
                Ok(identity) => identity,
            }
        },
        None => {
            let number: u64 = table.next_row_id;
            if number == u64::MAX {
                return Err(
                    Stop::Error(
                        EngineError::ConstraintViolation(
                            String::from_str("hidden row ID space exhausted"),
                        ),
                    ),
                );
            }
            table.next_row_id = number + 1;
            encode_u64(number)
        },
    };
    assert(row_identity(old(table)@, new) == Ok::<(Seq<u8>, TableView), StopView>(
        (identity@, table@),
    ));
    let k = match row_key(table.id, identity.as_slice()) {
        Err(error) => {
            return Err(Stop::Error(error));
        },
        Ok(k) => k,
    };
    if read(&*transaction, db, k.as_slice()).is_some() {
        return Err(
            Stop::Error(
                EngineError::ConstraintViolation(String::from_str("duplicate primary key")),
            ),
        );
    }
    match acquire_unique_keys(transaction, db, &*table, values.as_slice(), k.as_slice()) {
        Err(stop) => {
            return Err(stop);
        },
        Ok(_) => {},
    }
    let stored = match encode_row(values.as_slice()) {
        Err(error) => {
            return Err(Stop::Error(error));
        },
        Ok(stored) => stored,
    };
    match store(transaction, &*db, bytes::copy_bytes(k.as_slice()), stored) {
        Err(stop) => {
            return Err(stop);
        },
        Ok(_) => {},
    }
    let ghost before = access::stored_views(rows@);
    let ghost row = StoredView { key: k@, values: new };
    rows.push(StoredRow { key: k, values });
    assert(access::stored_views(rows@) =~= before.push(row));
    Ok(())
}

proof fn lemma_rows_stop(
    from: Inserting,
    rows: Seq<Vec<Expr>>,
    positions: Seq<int>,
    floats: Map<FloatRequest, u64>,
    few: nat,
    many: nat,
)
    requires
        rows_added(from, rows, positions, floats, few) is Err,
        few <= many,
    ensures
        rows_added(from, rows, positions, floats, many) == rows_added(
            from,
            rows,
            positions,
            floats,
            few,
        ),
    decreases many,
{
    if few < many {
        lemma_rows_stop(from, rows, positions, floats, few, (many - 1) as nat);
    }
}

/// Adds all rows of an INSERT.
fn add_rows(
    transaction: &mut Transaction,
    db: &mut MvccDatabase,
    table: &mut TableSchema,
    rows: &mut Vec<StoredRow>,
    expressions: &Vec<Vec<Expr>>,
    positions: &Vec<usize>,
    floats: &FloatTable,
) -> (done: Result<(), Stop>)
    requires
        world::live(old(transaction), old(db)),
        floats.wf(),
        old(table).primary_key matches Some(position) ==> position < old(table).columns@.len(),
        forall|i: int|
            0 <= i < positions@.len() ==> (#[trigger] positions@[i]) < old(table).columns@.len(),
    ensures
        world::live(final(transaction), final(db)),
        final(db)@ == old(db)@,
        world::continues(old(transaction)@, final(transaction)@),
        match done {
            Ok(_) => rows_added(
                Inserting {
                    table: old(table)@,
                    rows: access::stored_views(old(rows)@),
                    world: world::world(old(transaction)@, old(db)@),
                },
                expressions@,
                position_views(positions@),
                floats@,
                expressions@.len(),
            ) == Ok::<Inserting, StopView>(
                Inserting {
                    table: final(table)@,
                    rows: access::stored_views(final(rows)@),
                    world: world::world(final(transaction)@, final(db)@),
                },
            ),
            Err(stop) => rows_added(
                Inserting {
                    table: old(table)@,
                    rows: access::stored_views(old(rows)@),
                    world: world::world(old(transaction)@, old(db)@),
                },
                expressions@,
                position_views(positions@),
                floats@,
                expressions@.len(),
            ) == Err::<Inserting, StopView>(stop@) && error::asks_anew(stop, floats@),
        },
{
    let ghost from = Inserting {
        table: table@,
        rows: access::stored_views(rows@),
        world: world::world(transaction@, db@),
    };
    let ghost places = position_views(positions@);
    let mut index: usize = 0;
    while index < expressions.len()
        invariant
            index <= expressions@.len(),
            floats.wf(),
            places == position_views(positions@),
            from == (Inserting {
                table: old(table)@,
                rows: access::stored_views(old(rows)@),
                world: world::world(old(transaction)@, old(db)@),
            }),
            world::live(transaction, db),
            db@ == old(db)@,
            world::continues(old(transaction)@, transaction@),
            table@.columns == old(table)@.columns,
            table@.primary_key == old(table)@.primary_key,
            old(table).primary_key matches Some(position) ==> position < old(table).columns@.len(),
            forall|i: int|
                0 <= i < positions@.len() ==> (#[trigger] positions@[i])
                    < old(table).columns@.len(),
            rows_added(from, expressions@, places, floats@, index as nat) == Ok::<
                Inserting,
                StopView,
            >(
                Inserting {
                    table: table@,
                    rows: access::stored_views(rows@),
                    world: world::world(transaction@, db@),
                },
            ),
        decreases expressions@.len() - index,
    {
        assert(table@.columns.len() == table.columns@.len());
        assert(old(table)@.columns.len() == old(table).columns@.len());
        match evaluate_row(&*table, &expressions[index], positions, floats) {
            Err(stop) => {
                proof {
                    lemma_rows_stop(
                        from,
                        expressions@,
                        places,
                        floats@,
                        (index + 1) as nat,
                        expressions@.len(),
                    );
                }
                return Err(
                    wanted_by_rows(stop, &*table, expressions, index + 1, positions, floats),
                );
            },
            Ok(values) => {
                match add_row(transaction, db, table, rows, values) {
                    Err(stop) => {
                        proof {
                            lemma_rows_stop(
                                from,
                                expressions@,
                                places,
                                floats@,
                                (index + 1) as nat,
                                expressions@.len(),
                            );
                        }
                        return Err(stop);
                    },
                    Ok(_) => {},
                }
            },
        }
        index = index + 1;
    }
    Ok(())
}

/// Carries an INSERT out.
pub(crate) fn execute_insert(
    transaction: &mut Transaction,
    db: &mut MvccDatabase,
    insert: &Insert,
    floats: &FloatTable,
) -> (result: Result<StatementOutput, Stop>)
    requires
        world::live(old(transaction), old(db)),
        floats.wf(),
    ensures
        world::live(final(transaction), final(db)),
        final(db)@ == old(db)@,
        world::continues(old(transaction)@, final(transaction)@),
        match result {
            Ok(output) => inserted(
                *insert,
                world::world(old(transaction)@, old(db)@),
                floats@,
            ) == Ok::<(Map<Seq<u8>, Seq<u8>>, OutputView), StopView>(
                (world::world(final(transaction)@, final(db)@), output@),
            ),
            Err(stop) => error::asks_anew(stop, floats@) && (world::scan_failed(old(db)@, stop@)
                || inserted(*insert, world::world(old(transaction)@, old(db)@), floats@) == Err::<
                (Map<Seq<u8>, Seq<u8>>, OutputView),
                StopView,
            >(stop@)),
        },
{
    let ghost start = world::world(transaction@, db@);
    let mut table = match load_schema(&*transaction, db, insert.table.value.as_str()) {
        Err(stop) => {
            return Err(stop);
        },
        Ok(table) => table,
    };
    proof {
        image::lemma_decoded_primary(world::found(
            start,
            codec::catalog_key_of(insert.table.value@),
        )->Some_0);
    }
    let positions = match target_positions(&insert.columns, &table) {
        Err(stop) => {
            return Err(stop);
        },
        Ok(positions) => positions,
    };
    let prefix = row_prefix(table.id);
    let mut rows = match scan(transaction, db, prefix.as_slice()) {
        Err(stop) => {
            return Err(stop);
        },
        Ok(found) => match decode_rows(found) {
            Err(stop) => {
                return Err(stop);
            },
            Ok(rows) => rows,
        },
    };
    match add_rows(transaction, db, &mut table, &mut rows, &insert.rows, &positions, floats) {
        Err(stop) => {
            return Err(stop);
        },
        Ok(_) => {},
    }
    if table.primary_key.is_none() {
        let k = match catalog_key(insert.table.value.as_str()) {
            Err(error) => {
                return Err(Stop::Error(error));
            },
            Ok(k) => k,
        };
        let stored = match encode_schema(&table) {
            Err(error) => {
                return Err(Stop::Error(error));
            },
            Ok(stored) => stored,
        };
        match store(transaction, &*db, k, stored) {
            Err(stop) => {
                return Err(stop);
            },
            Ok(_) => {},
        }
    }
    Ok(command("INSERT", insert.rows.len() as u64))
}

} // verus!
