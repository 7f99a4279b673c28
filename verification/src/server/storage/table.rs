//! A table: its rows by number, and the number that the next row gets.
use crate::engine::value::copy_text;
use crate::server::storage::error::{QuantaError, QuantaErrorView};
use crate::server::storage::types;
use crate::server::storage::types::{ColumnView, Row, Schema, ValueView};
use crate::text::join_text;
use dashmap::DashMap;
use std::collections::hash_map::RandomState;
use vstd::prelude::*;
use vstd::string::*;

verus! {

/// A map of the `dashmap` crate.
#[verifier::external_type_specification]
#[verifier::external_body]
#[verifier::reject_recursive_types(K)]
#[verifier::reject_recursive_types(V)]
#[verifier::reject_recursive_types(S)]
pub struct ExDashMap<K, V, S>(dashmap::DashMap<K, V, S>);

/// The rows that a map holds, by number.
pub uninterp spec fn rows_held(map: DashMap<u64, Row, RandomState>) -> Map<u64, Seq<ValueView>>;

pub open spec fn no_row_views() -> Map<u64, Seq<ValueView>> {
    Map::empty()
}

pub open spec fn pair_views(pairs: Seq<(u64, Row)>) -> Seq<(u64, Seq<ValueView>)> {
    Seq::new(pairs.len(), |i: int| (pairs[i].0, pairs[i].1@))
}

/// Whether a list holds each row with its number, once, in some order.
pub open spec fn is_listing(
    list: Seq<(u64, Seq<ValueView>)>,
    rows: Map<u64, Seq<ValueView>>,
) -> bool {
    &&& forall|i: int, j: int| 0 <= i < j < list.len() ==> #[trigger] list[i].0 != #[trigger] list[j].0
    &&& forall|i: int|
        0 <= i < list.len() ==> rows.contains_key(#[trigger] list[i].0) && rows[list[i].0]
            == list[i].1
    &&& forall|id: u64| #[trigger]
        rows.contains_key(id) ==> exists|i: int| 0 <= i < list.len() && #[trigger] list[i].0 == id
}

/// `DashMap::new`: the map holds nothing.
#[verifier::external_body]
fn empty_map() -> (map: DashMap<u64, Row, RandomState>)
    ensures
        rows_held(map) == no_row_views(),
{
    DashMap::new()
}

/// `DashMap::insert`: the row is held under its number, in place of one that was; the others stay.
#[verifier::external_body]
fn put_into(map: &mut DashMap<u64, Row, RandomState>, id: u64, row: Row)
    ensures
        rows_held(*final(map)) == rows_held(*old(map)).insert(id, row@),
{
    map.insert(id, row);
}

/// `DashMap::remove`: no row is held under the number any more; it tells whether one was.
#[verifier::external_body]
fn remove_from(map: &mut DashMap<u64, Row, RandomState>, id: u64) -> (removed: bool)
    ensures
        rows_held(*final(map)) == rows_held(*old(map)).remove(id),
        removed == rows_held(*old(map)).contains_key(id),
{
    map.remove(&id).is_some()
}

/// `DashMap::get`: the row that is held under the number, if there is one.
#[verifier::external_body]
fn find_in(map: &DashMap<u64, Row, RandomState>, id: u64) -> (row: Option<Row>)
    ensures
        row is Some == rows_held(*map).contains_key(id),
        row is Some ==> row->0@ == rows_held(*map)[id],
{
    map.get(&id).map(|entry| entry.value().copy())
}

/// `DashMap::iter`: each row with its number, once; the order is left open.
#[verifier::external_body]
fn list_of(map: &DashMap<u64, Row, RandomState>) -> (pairs: Vec<(u64, Row)>)
    ensures
        is_listing(pair_views(pairs@), rows_held(*map)),
{
    map.iter().map(|entry| (*entry.key(), entry.value().copy())).collect()
}

/// Whether there are so many rows.
pub open spec fn is_count(count: nat, rows: Map<u64, Seq<ValueView>>) -> bool {
    rows.dom().finite() && count == rows.dom().len()
}

/// `DashMap::len`: how many rows are held.
#[verifier::external_body]
fn count_of(map: &DashMap<u64, Row, RandomState>) -> (count: usize)
    ensures
        is_count(count as nat, rows_held(*map)),
{
    map.len()
}

pub struct Table {
    pub name: String,
    pub schema: Schema,
    rows: DashMap<u64, Row, RandomState>,
    next_id: u64,
}

#[verifier::ext_equal]
pub struct TableView {
    pub name: Seq<char>,
    pub schema: Seq<ColumnView>,
    pub rows: Map<u64, Seq<ValueView>>,
    pub next_id: u64,
}

impl View for Table {
    type V = TableView;

    closed spec fn view(&self) -> TableView {
        TableView {
            name: self.name@,
            schema: self.schema@,
            rows: rows_held(self.rows),
            next_id: self.next_id,
        }
    }
}

/// The number after a number; the largest is followed by zero.
pub open spec fn id_after(id: u64) -> u64 {
    if id == u64::MAX {
        0
    } else {
        (id + 1) as u64
    }
}

/// What inserting a row does.
pub open spec fn row_inserted(table: TableView, row: Seq<ValueView>) -> Result<
    TableView,
    QuantaErrorView,
> {
    if types::row_fits(row, table.schema) {
        Ok(
            TableView {
                rows: table.rows.insert(table.next_id, row),
                next_id: id_after(table.next_id),
                ..table
            },
        )
    } else {
        Err(
            QuantaErrorView::QueryError(
                "Row does not match schema for table '"@ + table.name + "'"@,
            ),
        )
    }
}

/// Whether every row fits the schema, and no row has a number that is still to be given.
pub open spec fn table_valid(table: TableView) -> bool {
    forall|id: u64| #[trigger]
        table.rows.contains_key(id) ==> types::row_fits(table.rows[id], table.schema) && id
            < table.next_id
}

/// A table stays valid when a row is inserted, as long as numbers last; the row gets a number that
/// no other has, and no other row changes.
pub proof fn law_insertion_keeps_rows(table: TableView, row: Seq<ValueView>)
    requires
        table_valid(table),
        table.next_id < u64::MAX,
        row_inserted(table, row) is Ok,
    ensures
        table_valid(row_inserted(table, row)->Ok_0),
        !table.rows.contains_key(table.next_id),
        row_inserted(table, row)->Ok_0.rows[table.next_id] == row,
        forall|id: u64| #[trigger]
            table.rows.contains_key(id) ==> row_inserted(table, row)->Ok_0.rows.contains_key(id)
                && row_inserted(table, row)->Ok_0.rows[id] == table.rows[id],
{
}

impl Table {
    /// A table without rows; its first row gets the number 1.
    pub fn new(name: String, schema: Schema) -> (table: Table)
        ensures
            table@ == (TableView {
                name: name@,
                schema: schema@,
                rows: no_row_views(),
                next_id: 1,
            }),
    {
        Table { name, schema, rows: empty_map(), next_id: 1 }
    }

    /// Inserts a row and gives its number.
    pub fn insert_row(&mut self, row: Row) -> (inserted: Result<u64, QuantaError>)
        ensures
            match inserted {
                Ok(id) => row_inserted(old(self)@, row@) == Ok::<TableView, QuantaErrorView>(
                    final(self)@,
                ) && id == old(self)@.next_id,
                Err(error) => row_inserted(old(self)@, row@) == Err::<TableView, QuantaErrorView>(
                    error@,
                ) && final(self)@ == old(self)@,
            },
    {
        if !self.schema.validate_row(&row) {
            return Err(
                QuantaError::QueryError(
                    join_text(
                        "Row does not match schema for table '",
                        self.name.as_str(),
                        "'",
                    ),
                ),
            );
        }
        let id: u64 = self.next_id;
        self.next_id = if id == u64::MAX {
            0
        } else {
            id + 1
        };
        put_into(&mut self.rows, id, row);
        Ok(id)
    }

    /// Each row with its number; the order is left open.
    pub fn get_all_rows(&self) -> (pairs: Vec<(u64, Row)>)
        ensures
            is_listing(pair_views(pairs@), self@.rows),
    {
        list_of(&self.rows)
    }

    /// The row with a number.
    pub fn get_row(&self, id: u64) -> (row: Option<Row>)
        ensures
            match row {
                Some(row) => self@.rows.contains_key(id) && row@ == self@.rows[id],
                None => !self@.rows.contains_key(id),
            },
    {
        find_in(&self.rows, id)
    }

    /// Deletes the row with a number, and tells whether there was one.
    pub fn delete_row(&mut self, id: u64) -> (deleted: bool)
        ensures
            deleted == old(self)@.rows.contains_key(id),
            final(self)@ == (TableView { rows: old(self)@.rows.remove(id), ..old(self)@ }),
    {
        remove_from(&mut self.rows, id)
    }

    /// How many rows there are.
    pub fn row_count(&self) -> (count: usize)
        ensures
            is_count(count as nat, self@.rows),
    {
        count_of(&self.rows)
    }

    pub fn get_schema(&self) -> (schema: &Schema)
        ensures
            schema@ == self@.schema,
    {
        &self.schema
    }

    /// The name of the table.
    pub fn name_text(&self) -> (name: String)
        ensures
            name@ == self@.name,
    {
        copy_text(&self.name)
    }

    /// The number that the next row gets.
    pub fn next_id(&self) -> (id: u64)
        ensures
            id == self@.next_id,
    {
        self.next_id
    }

    /// The table once more.
    pub fn copy(&self) -> (copy: Table)
        ensures
            copy@ == self@,
    {
        let pairs = self.get_all_rows();
        proof {
            law_listing_is_complete(pair_views(pairs@), self@.rows);
        }
        Table::with_rows(self.name_text(), self.schema.copy(), self.next_id, &pairs)
    }

    /// A table with rows that it had before, and the number that the next row gets.
    pub(crate) fn with_rows(
        name: String,
        schema: Schema,
        next_id: u64,
        pairs: &Vec<(u64, Row)>,
    ) -> (table: Table)
        ensures
            table@ == (TableView {
                name: name@,
                schema: schema@,
                rows: rows_of(pair_views(pairs@)),
                next_id,
            }),
    {
        let mut rows = empty_map();
        let ghost views = pair_views(pairs@);
        let length: usize = pairs.len();
        let mut index: usize = 0;
        assert(views.take(0) =~= Seq::empty());
        while index < length
            invariant
                index <= length == pairs@.len(),
                views == pair_views(pairs@),
                rows_held(rows) == rows_of(views.take(index as int)),
            decreases length - index,
        {
            put_into(&mut rows, pairs[index].0, pairs[index].1.copy());
            assert(views.take(index + 1).drop_last() =~= views.take(index as int));
            index = index + 1;
        }
        assert(views.take(length as int) =~= views);
        Table { name, schema, rows, next_id }
    }
}

/// The rows of a list by number; of two with one number the later counts.
pub open spec fn rows_of(list: Seq<(u64, Seq<ValueView>)>) -> Map<u64, Seq<ValueView>>
    decreases list.len(),
{
    if list.len() == 0 {
        no_row_views()
    } else {
        rows_of(list.drop_last()).insert(list.last().0, list.last().1)
    }
}

/// The rows of a listing are those that were listed.
pub proof fn law_listing_is_complete(
    list: Seq<(u64, Seq<ValueView>)>,
    rows: Map<u64, Seq<ValueView>>,
)
    requires
        is_listing(list, rows),
    ensures
        rows_of(list) == rows,
    decreases list.len(),
{
    if list.len() == 0 {
        assert(rows_of(list) =~= rows);
    } else {
        let front = list.drop_last();
        let last = list.last();
        let fewer = rows.remove(last.0);
        assert(list[list.len() - 1] == last);
        assert(is_listing(front, fewer)) by {
            assert forall|i: int, j: int| 0 <= i < j < front.len() implies #[trigger] front[i].0
                != #[trigger] front[j].0 by {
                assert(front[i] == list[i] && front[j] == list[j]);
            }
            assert forall|i: int| 0 <= i < front.len() implies fewer.contains_key(
                #[trigger] front[i].0,
            ) && fewer[front[i].0] == front[i].1 by {
                assert(front[i] == list[i]);
                assert(list[i].0 != list[list.len() - 1].0);
            }
            assert forall|id: u64| #[trigger] fewer.contains_key(id) implies exists|i: int|
                0 <= i < front.len() && #[trigger] front[i].0 == id by {
                assert(rows.contains_key(id));
                let i = choose|i: int| 0 <= i < list.len() && #[trigger] list[i].0 == id;
                assert(front[i] == list[i]);
            }
        }
        law_listing_is_complete(front, fewer);
        assert(rows.contains_key(list[list.len() - 1].0));
        assert(rows_of(list) =~= rows);
    }
}

} // verus!
