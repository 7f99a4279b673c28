//! Finding tables and rows.
use crate::engine::codec;
use crate::engine::codec::{catalog_key, encode_identity, row_key, row_prefix, unique_key};
use crate::engine::error;
use crate::engine::error::{EngineError, EngineErrorView, Stop, StopView};
use crate::engine::expression;
use crate::engine::expression::{convert, evaluate};
use crate::engine::float::{FloatRequest, FloatTable};
use crate::engine::image;
use crate::engine::image::{decode_row, decode_schema};
use crate::engine::schema;
use crate::engine::schema::{LogicalType, TableSchema, TableView};
use crate::engine::value;
use crate::engine::value::{null_values, Value, ValueView};
use crate::engine::world;
use crate::engine::world::{read, scan};
use crate::mvcc::database::MvccDatabase;
use crate::mvcc::transaction;
use crate::mvcc::transaction::{RowView, Transaction};
use crate::syntax::{BinaryOperator, Expr};
use vstd::prelude::*;
use vstd::string::*;
use vstd::utf8::encode_utf8;

verus! {

/// How the rows that a statement is about are found.
pub enum AccessPath {
    /// All rows of the table are looked at.
    Scan,
    /// Only the row with a key can be meant, or none at all.
    Point(Option<Vec<u8>>),
}

#[verifier::ext_equal]
pub enum AccessView {
    Scan,
    Point(Option<Seq<u8>>),
}

impl View for AccessPath {
    type V = AccessView;

    open spec fn view(&self) -> AccessView {
        match *self {
            AccessPath::Scan => AccessView::Scan,
            AccessPath::Point(None) => AccessView::Point(None),
            AccessPath::Point(Some(found)) => AccessView::Point(Some(found@)),
        }
    }
}

/// A row of a table: its key and its values.
pub struct StoredRow {
    pub key: Vec<u8>,
    pub values: Vec<Value>,
}

#[verifier::ext_equal]
pub struct StoredView {
    pub key: Seq<u8>,
    pub values: Seq<ValueView>,
}

impl View for StoredRow {
    type V = StoredView;

    open spec fn view(&self) -> StoredView {
        StoredView { key: self.key@, values: value::value_views(self.values@) }
    }
}

pub open spec fn stored_views(rows: Seq<StoredRow>) -> Seq<StoredView> {
    Seq::new(rows.len(), |i: int| rows[i]@)
}

/// Whether an expression mentions no column.
pub open spec fn constant(expr: Expr) -> bool
    decreases expr,
{
    match expr {
        Expr::Identifier(_) => false,
        Expr::Literal { .. } => true,
        Expr::Unary { operator, expression } => constant(*expression),
        Expr::IsNull { expression, negated } => constant(*expression),
        Expr::Parenthesized { expression } => constant(*expression),
        Expr::Binary { left, operator, right } => constant(*left) && constant(*right),
    }
}

/// The column and the constant of a condition that is an equality of the two.
pub open spec fn column_equality(expr: Expr) -> Option<(Seq<char>, Expr)> {
    match expr {
        Expr::Binary { left, operator: BinaryOperator::Equal, right } => {
            if *left is Identifier && constant(*right) {
                Some(((*left)->Identifier_0.value@, *right))
            } else if *right is Identifier && constant(*left) {
                Some(((*right)->Identifier_0.value@, *left))
            } else {
                None
            }
        },
        _ => None,
    }
}

/// A value made a float where a column of floats is given an integer.
pub open spec fn coerced(
    value: ValueView,
    data_type: LogicalType,
    floats: Map<FloatRequest, u64>,
) -> Result<ValueView, StopView> {
    match (value, data_type) {
        (ValueView::Integer(number), LogicalType::Float64) => match expression::converted(
            number,
            floats,
        ) {
            Err(stop) => Err(stop),
            Ok(bits) => Ok(ValueView::Float(bits)),
        },
        _ => Ok(value),
    }
}

pub open spec fn nulls(count: nat) -> Seq<ValueView> {
    Seq::new(count, |i: int| ValueView::Null)
}

/// The key of the row with a value in a key column, or the failure of the value.
pub open spec fn key_for(
    table: TableView,
    position: int,
    wanted: ValueView,
    world: Map<Seq<u8>, Seq<u8>>,
) -> Result<AccessView, StopView> {
    let column = table.columns[position];
    match schema::value_refused(column, wanted) {
        Some(refusal) => Err(StopView::Error(refusal)),
        None => if column.primary_key {
            match codec::identity_of(wanted) {
                Err(error) => Err(StopView::Error(error)),
                Ok(identity) => if identity.len() > u32::MAX {
                    Err(
                        StopView::Error(
                            EngineErrorView::InvalidRow("row identity is too large"@),
                        ),
                    )
                } else {
                    Ok(AccessView::Point(Some(codec::row_key_of(table.id, identity))))
                },
            }
        } else {
            match codec::unique_key_result(table.id, position as nat, wanted) {
                Err(error) => Err(StopView::Error(error)),
                Ok(k) => Ok(AccessView::Point(world::found(world, k))),
            }
        },
    }
}

/// How the rows that meet a condition are found.
pub open spec fn planned(
    table: TableView,
    selection: Option<Expr>,
    world: Map<Seq<u8>, Seq<u8>>,
    floats: Map<FloatRequest, u64>,
) -> Result<AccessView, StopView> {
    match selection {
        None => Ok(AccessView::Scan),
        Some(condition) => match column_equality(condition) {
            None => Ok(AccessView::Scan),
            Some((name, wanted)) => match schema::position_from(table.columns, name, 0) {
                None => Err(expression::no_column(name)),
                Some(position) => {
                    let column = table.columns[position];
                    if !column.primary_key && !column.unique {
                        Ok(AccessView::Scan)
                    } else {
                        match expression::evaluated(
                            wanted,
                            table.columns,
                            nulls(table.columns.len()),
                            floats,
                        ) {
                            Err(stop) => Err(stop),
                            Ok(ValueView::Null) => Ok(AccessView::Point(None)),
                            Ok(plain) => match coerced(plain, column.data_type, floats) {
                                Err(stop) => Err(stop),
                                Ok(value) => key_for(table, position, value, world),
                            },
                        }
                    }
                },
            },
        },
    }
}

/// Stored rows with their values read, or the failure of the first that cannot be.
pub open spec fn decoded(rows: Seq<RowView>) -> Result<Seq<StoredView>, StopView>
    decreases rows.len(),
{
    if rows.len() == 0 {
        Ok(Seq::empty())
    } else {
        match decoded(rows.drop_last()) {
            Err(stop) => Err(stop),
            Ok(front) => match image::row_decoded(rows.last().value) {
                Err(error) => Err(StopView::Error(error)),
                Ok(values) => Ok(front.push(StoredView { key: rows.last().key, values })),
            },
        }
    }
}

/// The rows that can meet a condition.
pub open spec fn rows_read(
    table: TableView,
    selection: Option<Expr>,
    world: Map<Seq<u8>, Seq<u8>>,
    floats: Map<FloatRequest, u64>,
) -> Result<Seq<StoredView>, StopView> {
    match planned(table, selection, world, floats) {
        Err(stop) => Err(stop),
        Ok(AccessView::Scan) => decoded(world::rows_under(world, codec::rows_of(table.id))),
        Ok(AccessView::Point(None)) => Ok(Seq::empty()),
        Ok(AccessView::Point(Some(k))) => match world::found(world, k) {
            None => Ok(Seq::empty()),
            Some(bytes) => match image::row_decoded(bytes) {
                Err(error) => Err(StopView::Error(error)),
                Ok(values) => Ok(seq![StoredView { key: k, values }]),
            },
        },
    }
}

/// The schema of a table.
pub open spec fn table_named(name: Seq<char>, world: Map<Seq<u8>, Seq<u8>>) -> Result<
    TableView,
    StopView,
> {
    if encode_utf8(name).len() > u32::MAX {
        Err(StopView::Error(EngineErrorView::InvalidSchema("identifier is too large"@)))
    } else {
        match world::found(world, codec::catalog_key_of(name)) {
            None => Err(StopView::Error(EngineErrorView::TableNotFound(name))),
            Some(bytes) => match image::schema_decoded(bytes) {
                Err(error) => Err(StopView::Error(error)),
                Ok(table) => Ok(table),
            },
        }
    }
}

fn is_constant(expr: &Expr) -> (yes: bool)
    ensures
        yes == constant(*expr),
    decreases expr,
{
    match expr {
        Expr::Identifier(_) => false,
        Expr::Literal { .. } => true,
        Expr::Unary { operator: _, expression } => is_constant(&**expression),
        Expr::IsNull { expression, negated: _ } => is_constant(&**expression),
        Expr::Parenthesized { expression } => is_constant(&**expression),
        Expr::Binary { left, operator: _, right } => is_constant(&**left) && is_constant(&**right),
    }
}

/// The column and the constant of a condition that is an equality of the two.
pub fn equality_column_and_constant(expr: &Expr) -> (found: Option<(&str, &Expr)>)
    ensures
        match found {
            Some(pair) => column_equality(*expr) == Some((pair.0@, *pair.1)),
            None => column_equality(*expr) is None,
        },
{
    match expr {
        Expr::Binary { left, operator: BinaryOperator::Equal, right } => {
            match (&**left, &**right) {
                (Expr::Identifier(identifier), other) if is_constant(other) => Some(
                    (identifier.value.as_str(), other),
                ),
                (other, Expr::Identifier(identifier)) if is_constant(other) => Some(
                    (identifier.value.as_str(), other),
                ),
                _ => None,
            }
        },
        _ => None,
    }
}

/// A value made a float where a column of floats is given an integer.
pub(crate) fn coerce(value: Value, data_type: LogicalType, floats: &FloatTable) -> (result: Result<
    Value,
    Stop,
>)
    requires
        floats.wf(),
    ensures
        match result {
            Ok(result) => coerced(value@, data_type, floats@) == Ok::<ValueView, StopView>(
                result@,
            ),
            Err(stop) => coerced(value@, data_type, floats@) == Err::<ValueView, StopView>(stop@)
                && error::asks_anew(stop, floats@),
        },
{
    match (value, data_type) {
        (Value::Integer(number), LogicalType::Float64) => match convert(number, floats) {
            Err(stop) => Err(stop),
            Ok(bits) => Ok(Value::Float(bits)),
        },
        (value, _) => Ok(value),
    }
}

fn key_of_value(
    transaction: &Transaction,
    db: &mut MvccDatabase,
    table: &TableSchema,
    position: usize,
    wanted: &Value,
) -> (path: Result<AccessPath, Stop>)
    requires
        world::live(transaction, old(db)),
        position < table.columns@.len(),
    ensures
        final(db).wf(),
        final(db)@ == old(db)@,
        match path {
            Ok(path) => key_for(
                table@,
                position as int,
                wanted@,
                world::world(transaction@, old(db)@),
            ) == Ok::<AccessView, StopView>(path@),
            Err(stop) => key_for(
                table@,
                position as int,
                wanted@,
                world::world(transaction@, old(db)@),
            ) == Err::<AccessView, StopView>(stop@) && !(stop is Needs),
        },
{
    let column = &table.columns[position];
    assert(table@.columns[position as int] == column@);
    match column.validate(wanted) {
        Err(refusal) => {
            return Err(Stop::Error(refusal));
        },
        Ok(_) => {},
    }
    if column.primary_key {
        let identity = match encode_identity(wanted) {
            Err(error) => {
                return Err(Stop::Error(error));
            },
            Ok(identity) => identity,
        };
        return match row_key(table.id, identity.as_slice()) {
            Err(error) => Err(Stop::Error(error)),
            Ok(found) => Ok(AccessPath::Point(Some(found))),
        };
    }
    match unique_key(table.id, position, wanted) {
        Err(error) => Err(Stop::Error(error)),
        Ok(found) => Ok(AccessPath::Point(read(transaction, db, found.as_slice()))),
    }
}

/// How the rows that meet a condition are found.
pub fn plan(
    transaction: &Transaction,
    db: &mut MvccDatabase,
    table: &TableSchema,
    selection: &Option<Expr>,
    floats: &FloatTable,
) -> (path: Result<AccessPath, Stop>)
    requires
        world::live(transaction, old(db)),
        floats.wf(),
    ensures
        final(db).wf(),
        final(db)@ == old(db)@,
        match path {
            Ok(path) => planned(
                table@,
                *selection,
                world::world(transaction@, old(db)@),
                floats@,
            ) == Ok::<AccessView, StopView>(path@),
            Err(stop) => planned(
                table@,
                *selection,
                world::world(transaction@, old(db)@),
                floats@,
            ) == Err::<AccessView, StopView>(stop@) && error::asks_anew(stop, floats@),
        },
{
    let condition = match selection {
        None => {
            return Ok(AccessPath::Scan);
        },
        Some(condition) => condition,
    };
    let (name, wanted) = match equality_column_and_constant(condition) {
        None => {
            return Ok(AccessPath::Scan);
        },
        Some(pair) => pair,
    };
    let position: usize = match table.position(name) {
        None => {
            return Err(Stop::Error(EngineError::ColumnNotFound(String::from_str(name))));
        },
        Some(position) => position,
    };
    let column = &table.columns[position];
    assert(table@.columns[position as int] == column@);
    if !column.primary_key && !column.unique {
        return Ok(AccessPath::Scan);
    }
    let row = null_values(table.columns.len());
    assert(value::value_views(row@) =~= nulls(table@.columns.len()));
    let plain = match evaluate(wanted, table, row.as_slice(), floats) {
        Err(stop) => {
            return Err(stop);
        },
        Ok(value) => value,
    };
    if plain.is_null() {
        return Ok(AccessPath::Point(None));
    }
    match coerce(plain, column.data_type, floats) {
        Err(stop) => Err(stop),
        Ok(value) => key_of_value(transaction, db, table, position, &value),
    }
}

proof fn lemma_decoded_stop(rows: Seq<RowView>, count: int)
    requires
        0 <= count <= rows.len(),
        decoded(rows.take(count)) is Err,
    ensures
        decoded(rows) == decoded(rows.take(count)),
    decreases rows.len(),
{
    if count == rows.len() {
        assert(rows.take(count) =~= rows);
    } else {
        assert(rows.drop_last().take(count) =~= rows.take(count));
        lemma_decoded_stop(rows.drop_last(), count);
    }
}

/// Stored rows with their values read.
pub(crate) fn decode_rows(rows: Vec<(Vec<u8>, Vec<u8>)>) -> (read: Result<Vec<StoredRow>, Stop>)
    ensures
        match read {
            Ok(read) => decoded(transaction::row_views(rows@)) == Ok::<Seq<StoredView>, StopView>(
                stored_views(read@),
            ),
            Err(stop) => decoded(transaction::row_views(rows@)) == Err::<Seq<StoredView>, StopView>(
                stop@,
            ) && !(stop is Needs),
        },
{
    let ghost views = transaction::row_views(rows@);
    let mut read: Vec<StoredRow> = Vec::new();
    let mut index: usize = 0;
    proof {
        assert(views.take(0) =~= Seq::empty());
        assert(stored_views(read@) =~= Seq::empty());
    }
    while index < rows.len()
        invariant
            index <= rows@.len(),
            views == transaction::row_views(rows@),
            decoded(views.take(index as int)) == Ok::<Seq<StoredView>, StopView>(
                stored_views(read@),
            ),
        decreases rows@.len() - index,
    {
        let ghost more = views.take(index + 1);
        proof {
            assert(more.drop_last() =~= views.take(index as int));
            assert(more.last() == views[index as int]);
        }
        match decode_row(rows[index].1.as_slice()) {
            Err(error) => {
                proof {
                    lemma_decoded_stop(views, index + 1);
                }
                return Err(Stop::Error(error));
            },
            Ok(values) => {
                let ghost before = stored_views(read@);
                let row = StoredRow { key: crate::bytes::copy_bytes(rows[index].0.as_slice()), values };
                let ghost added = row@;
                read.push(row);
                assert(stored_views(read@) =~= before.push(added));
            },
        }
        index = index + 1;
    }
    assert(views.take(index as int) =~= views);
    Ok(read)
}

/// The rows that can meet a condition.
pub(crate) fn read_rows(
    transaction: &mut Transaction,
    db: &mut MvccDatabase,
    table: &TableSchema,
    selection: &Option<Expr>,
    floats: &FloatTable,
) -> (rows: Result<Vec<StoredRow>, Stop>)
    requires
        world::live(old(transaction), old(db)),
        floats.wf(),
    ensures
        world::live(final(transaction), final(db)),
        final(db)@ == old(db)@,
        world::continues(old(transaction)@, final(transaction)@),
        world::world(final(transaction)@, final(db)@) == world::world(
            old(transaction)@,
            old(db)@,
        ),
        match rows {
            Ok(rows) => rows_read(
                table@,
                *selection,
                world::world(old(transaction)@, old(db)@),
                floats@,
            ) == Ok::<Seq<StoredView>, StopView>(stored_views(rows@)),
            Err(stop) => error::asks_anew(stop, floats@) && (world::scan_failed(old(db)@, stop@)
                || rows_read(
                table@,
                *selection,
                world::world(old(transaction)@, old(db)@),
                floats@,
            ) == Err::<Seq<StoredView>, StopView>(stop@)),
        },
{
    match plan(&*transaction, db, table, selection, floats) {
        Err(stop) => Err(stop),
        Ok(AccessPath::Scan) => {
            let start = row_prefix(table.id);
            match scan(transaction, db, start.as_slice()) {
                Err(stop) => Err(stop),
                Ok(rows) => decode_rows(rows),
            }
        },
        Ok(AccessPath::Point(None)) => {
            let rows: Vec<StoredRow> = Vec::new();
            assert(stored_views(rows@) =~= Seq::empty());
            Ok(rows)
        },
        Ok(AccessPath::Point(Some(found))) => match read(&*transaction, db, found.as_slice()) {
            None => {
                let rows: Vec<StoredRow> = Vec::new();
                assert(stored_views(rows@) =~= Seq::empty());
                Ok(rows)
            },
            Some(bytes) => match decode_row(bytes.as_slice()) {
                Err(error) => Err(Stop::Error(error)),
                Ok(values) => {
                    let mut rows: Vec<StoredRow> = Vec::new();
                    let ghost row = StoredView { key: found@, values: value::value_views(values@) };
                    rows.push(StoredRow { key: found, values });
                    assert(stored_views(rows@) =~= seq![row]);
                    Ok(rows)
                },
            },
        },
    }
}

/// The schema of a table.
pub(crate) fn load_schema(transaction: &Transaction, db: &mut MvccDatabase, name: &str) -> (table:
    Result<TableSchema, Stop>)
    requires
        world::live(transaction, old(db)),
    ensures
        final(db).wf(),
        final(db)@ == old(db)@,
        match table {
            Ok(table) => table_named(name@, world::world(transaction@, old(db)@)) == Ok::<
                TableView,
                StopView,
            >(table@),
            Err(stop) => table_named(name@, world::world(transaction@, old(db)@)) == Err::<
                TableView,
                StopView,
            >(stop@) && !(stop is Needs),
        },
{
    let wanted = match catalog_key(name) {
        Err(error) => {
            return Err(Stop::Error(error));
        },
        Ok(wanted) => wanted,
    };
    match read(transaction, db, wanted.as_slice()) {
        None => Err(Stop::Error(EngineError::TableNotFound(String::from_str(name)))),
        Some(bytes) => match decode_schema(bytes.as_slice()) {
            Err(error) => Err(Stop::Error(error)),
            Ok(table) => Ok(table),
        },
    }
}

} // verus!
