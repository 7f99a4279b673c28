//! The tables of a server, by name. What a change means for the files that keep the tables is
//! handed to the caller, who writes them.
use crate::engine::value::copy_text;
use crate::server::storage::error::{QuantaError, QuantaErrorView};
use crate::server::storage::persistence;
use crate::server::storage::persistence::{persist, restore, PersistedTable};
use crate::server::storage::table;
use crate::server::storage::table::{Table, TableView};
use crate::server::storage::types;
use crate::server::storage::types::{Column, ColumnView, Row, Schema, Value, ValueView};
use crate::text::join_text;
use dashmap::DashMap;
use std::collections::hash_map::RandomState;
use vstd::prelude::*;
use vstd::string::*;

verus! {

/// The tables that a map holds, by name.
pub uninterp spec fn tables_held(map: DashMap<String, Table, RandomState>) -> Map<
    Seq<char>,
    TableView,
>;

pub open spec fn no_tables() -> Map<Seq<char>, TableView> {
    Map::empty()
}

pub open spec fn text_views(names: Seq<String>) -> Seq<Seq<char>> {
    Seq::new(names.len(), |i: int| names[i]@)
}

/// Whether a list holds the name of each table, once, in some order.
pub open spec fn lists_names(list: Seq<Seq<char>>, tables: Map<Seq<char>, TableView>) -> bool {
    &&& list.no_duplicates()
    &&& forall|name: Seq<char>| #[trigger] list.contains(name) == tables.contains_key(name)
}

/// `DashMap::new`: the map holds nothing.
#[verifier::external_body]
fn empty_map() -> (map: DashMap<String, Table, RandomState>)
    ensures
        tables_held(map) == no_tables(),
{
    DashMap::new()
}

/// `DashMap::insert`: the table is held under the name, in place of one that was; the others stay.
#[verifier::external_body]
fn put_into(map: &mut DashMap<String, Table, RandomState>, name: String, kept: Table)
    ensures
        tables_held(*final(map)) == tables_held(*old(map)).insert(name@, kept@),
{
    map.insert(name, kept);
}

/// `DashMap::remove`: nothing is held under the name any more; it gives the table that was.
#[verifier::external_body]
fn take_from(map: &mut DashMap<String, Table, RandomState>, name: &str) -> (taken: Option<Table>)
    ensures
        tables_held(*final(map)) == tables_held(*old(map)).remove(name@),
        taken is Some == tables_held(*old(map)).contains_key(name@),
        taken is Some ==> taken->0@ == tables_held(*old(map))[name@],
{
    map.remove(name).map(|pair| pair.1)
}

/// `DashMap::get`: the table that is held under the name, if there is one.
#[verifier::external_body]
fn find_in(map: &DashMap<String, Table, RandomState>, name: &str) -> (found: Option<Table>)
    ensures
        found is Some == tables_held(*map).contains_key(name@),
        found is Some ==> found->0@ == tables_held(*map)[name@],
{
    map.get(name).map(|entry| entry.value().copy())
}

/// `DashMap::contains_key`: whether a table is held under the name.
#[verifier::external_body]
fn held_in(map: &DashMap<String, Table, RandomState>, name: &str) -> (yes: bool)
    ensures
        yes == tables_held(*map).contains_key(name@),
{
    map.contains_key(name)
}

/// `DashMap::iter`: each name, once; the order is left open.
#[verifier::external_body]
fn names_of(map: &DashMap<String, Table, RandomState>) -> (names: Vec<String>)
    ensures
        lists_names(text_views(names@), tables_held(*map)),
{
    map.iter().map(|entry| copy_text(entry.key())).collect()
}

pub struct StorageEngine {
    tables: DashMap<String, Table, RandomState>,
    persistent: bool,
}

#[verifier::ext_equal]
pub struct EngineView {
    pub tables: Map<Seq<char>, TableView>,
    /// Whether tables are kept in files.
    pub persistent: bool,
}

impl View for StorageEngine {
    type V = EngineView;

    closed spec fn view(&self) -> EngineView {
        EngineView { tables: tables_held(self.tables), persistent: self.persistent }
    }
}

pub open spec fn not_found(name: Seq<char>) -> QuantaErrorView {
    QuantaErrorView::TableNotFound(name)
}

/// What creating a table does.
pub open spec fn table_created(
    state: EngineView,
    name: Seq<char>,
    columns: Seq<ColumnView>,
) -> Result<EngineView, QuantaErrorView> {
    if state.tables.contains_key(name) {
        Err(QuantaErrorView::QueryError("Table '"@ + name + "' already exists"@))
    } else {
        Ok(
            EngineView {
                tables: state.tables.insert(
                    name,
                    TableView { name, schema: columns, rows: table::no_row_views(), next_id: 1 },
                ),
                ..state
            },
        )
    }
}

/// What dropping a table does.
pub open spec fn table_dropped(state: EngineView, name: Seq<char>) -> Result<
    EngineView,
    QuantaErrorView,
> {
    if state.tables.contains_key(name) {
        Ok(EngineView { tables: state.tables.remove(name), ..state })
    } else {
        Err(not_found(name))
    }
}

/// What inserting a row into a table does.
pub open spec fn row_added(state: EngineView, name: Seq<char>, row: Seq<ValueView>) -> Result<
    EngineView,
    QuantaErrorView,
> {
    if !state.tables.contains_key(name) {
        Err(not_found(name))
    } else {
        match table::row_inserted(state.tables[name], row) {
            Err(error) => Err(error),
            Ok(after) => Ok(EngineView { tables: state.tables.insert(name, after), ..state }),
        }
    }
}

/// A table without the rows with some numbers.
pub open spec fn without_rows(kept: TableView, ids: Seq<u64>) -> TableView
    decreases ids.len(),
{
    if ids.len() == 0 {
        kept
    } else {
        let before = without_rows(kept, ids.drop_last());
        TableView { rows: before.rows.remove(ids.last()), ..before }
    }
}

/// Whether what is handed out for the files is a table, exactly where tables are kept in files.
pub open spec fn saves(
    saved: Option<PersistedTable>,
    state: EngineView,
    name: Seq<char>,
) -> bool {
    match saved {
        Some(saved) => state.persistent && persistence::is_saved(saved@, state.tables[name]),
        None => !state.persistent,
    }
}

/// Creating a table and dropping it leaves everything as it was.
pub proof fn law_drop_undoes_create(state: EngineView, name: Seq<char>, columns: Seq<ColumnView>)
    requires
        table_created(state, name, columns) is Ok,
    ensures
        table_dropped(table_created(state, name, columns)->Ok_0, name) == Ok::<
            EngineView,
            QuantaErrorView,
        >(state),
{
    let after = table_created(state, name, columns)->Ok_0;
    assert(after.tables.remove(name) =~= state.tables);
}

/// A table that is dropped is not found, and no other table is touched.
pub proof fn law_dropped_tables_are_gone(state: EngineView, name: Seq<char>, row: Seq<ValueView>)
    requires
        table_dropped(state, name) is Ok,
    ensures
        row_added(table_dropped(state, name)->Ok_0, name, row) == Err::<
            EngineView,
            QuantaErrorView,
        >(not_found(name)),
        forall|other: Seq<char>|
            other != name ==> (#[trigger] table_dropped(state, name)->Ok_0.tables.contains_key(other)
                == state.tables.contains_key(other)),
        forall|other: Seq<char>|
            other != name && #[trigger] state.tables.contains_key(other) ==> table_dropped(
                state,
                name,
            )->Ok_0.tables[other] == state.tables[other],
{
}

impl StorageEngine {
    /// No tables, and none kept in files.
    pub fn new() -> (engine: StorageEngine)
        ensures
            engine@ == (EngineView { tables: no_tables(), persistent: false }),
    {
        StorageEngine { tables: empty_map(), persistent: false }
    }

    /// No tables yet; they are kept in files.
    pub fn new_with_persistence() -> (engine: StorageEngine)
        ensures
            engine@ == (EngineView { tables: no_tables(), persistent: true }),
    {
        StorageEngine { tables: empty_map(), persistent: true }
    }

    /// Takes a table from its file.
    pub fn load_table(&mut self, name: String, saved: PersistedTable)
        ensures
            final(self)@ == (EngineView {
                tables: old(self)@.tables.insert(name@, persistence::loaded(saved@)),
                ..old(self)@
            }),
    {
        put_into(&mut self.tables, name, restore(saved));
    }

    fn saved(&self, name: &str) -> (saved: Option<PersistedTable>)
        requires
            self@.tables.contains_key(name@),
        ensures
            saves(saved, self@, name@),
    {
        if self.persistent {
            match find_in(&self.tables, name) {
                Some(kept) => Some(persist(&kept)),
                None => None,
            }
        } else {
            None
        }
    }

    /// Creates a table; gives what its file is to hold.
    pub fn create_table(&mut self, name: String, columns: Vec<Column>) -> (created: Result<
        Option<PersistedTable>,
        QuantaError,
    >)
        ensures
            match created {
                Ok(saved) => table_created(old(self)@, name@, types::column_views(columns@))
                    == Ok::<EngineView, QuantaErrorView>(final(self)@) && saves(
                    saved,
                    final(self)@,
                    name@,
                ),
                Err(error) => table_created(old(self)@, name@, types::column_views(columns@))
                    == Err::<EngineView, QuantaErrorView>(error@) && final(self)@ == old(self)@,
            },
    {
        if held_in(&self.tables, name.as_str()) {
            return Err(
                QuantaError::QueryError(join_text("Table '", name.as_str(), "' already exists")),
            );
        }
        let kept = Table::new(copy_text(&name), Schema::new(columns));
        put_into(&mut self.tables, copy_text(&name), kept);
        Ok(self.saved(name.as_str()))
    }

    /// Drops a table; tells whether its file is to be deleted.
    pub fn drop_table(&mut self, name: &str) -> (dropped: Result<bool, QuantaError>)
        ensures
            match dropped {
                Ok(delete) => table_dropped(old(self)@, name@) == Ok::<EngineView, QuantaErrorView>(
                    final(self)@,
                ) && delete == old(self)@.persistent,
                Err(error) => table_dropped(old(self)@, name@) == Err::<
                    EngineView,
                    QuantaErrorView,
                >(error@) && final(self)@ == old(self)@,
            },
    {
        match take_from(&mut self.tables, name) {
            None => {
                assert(self@.tables =~= old(self)@.tables);
                Err(QuantaError::TableNotFound(String::from_str(name)))
            },
            Some(_) => Ok(self.persistent),
        }
    }

    /// A table as it is now.
    pub fn get_table(&self, name: &str) -> (found: Result<Table, QuantaError>)
        ensures
            match found {
                Ok(found) => self@.tables.contains_key(name@) && found@ == self@.tables[name@],
                Err(error) => !self@.tables.contains_key(name@) && error@ == not_found(name@),
            },
    {
        match find_in(&self.tables, name) {
            Some(found) => Ok(found),
            None => Err(QuantaError::TableNotFound(String::from_str(name))),
        }
    }

    /// Inserts a row; gives its number, and what the table's file is to hold.
    pub fn insert_into_table(&mut self, name: &str, values: Vec<Value>) -> (inserted: Result<
        (u64, Option<PersistedTable>),
        QuantaError,
    >)
        ensures
            match inserted {
                Ok((id, saved)) => row_added(old(self)@, name@, types::value_views(values@)) == Ok::<
                    EngineView,
                    QuantaErrorView,
                >(final(self)@) && id == old(self)@.tables[name@].next_id && saves(
                    saved,
                    final(self)@,
                    name@,
                ),
                Err(error) => row_added(old(self)@, name@, types::value_views(values@)) == Err::<
                    EngineView,
                    QuantaErrorView,
                >(error@) && final(self)@ == old(self)@,
            },
    {
        let ghost before = self@;
        let mut kept = match take_from(&mut self.tables, name) {
            None => {
                assert(self@.tables =~= before.tables);
                return Err(QuantaError::TableNotFound(String::from_str(name)));
            },
            Some(kept) => kept,
        };
        let done = kept.insert_row(Row::new(values));
        put_into(&mut self.tables, String::from_str(name), kept);
        match done {
            Err(error) => {
                assert(self@.tables =~= before.tables);
                Err(error)
            },
            Ok(id) => {
                assert(self@.tables =~= before.tables.insert(name@, self@.tables[name@]));
                Ok((id, self.saved(name)))
            },
        }
    }

    /// Each row of a table with its number; the order is left open.
    pub fn select_from_table(&self, name: &str) -> (rows: Result<Vec<(u64, Row)>, QuantaError>)
        ensures
            match rows {
                Ok(rows) => self@.tables.contains_key(name@) && table::is_listing(
                    table::pair_views(rows@),
                    self@.tables[name@].rows,
                ),
                Err(error) => !self@.tables.contains_key(name@) && error@ == not_found(name@),
            },
    {
        match self.get_table(name) {
            Ok(found) => Ok(found.get_all_rows()),
            Err(error) => Err(error),
        }
    }

    /// Deletes a row; tells whether there was one, and what the table's file is to hold if so.
    pub fn delete_from_table(&mut self, name: &str, id: u64) -> (deleted: Result<
        (bool, Option<PersistedTable>),
        QuantaError,
    >)
        ensures
            match deleted {
                Ok((deleted, saved)) => {
                    &&& old(self)@.tables.contains_key(name@)
                    &&& deleted == old(self)@.tables[name@].rows.contains_key(id)
                    &&& final(self)@ == (EngineView {
                        tables: old(self)@.tables.insert(
                            name@,
                            without_rows(old(self)@.tables[name@], seq![id]),
                        ),
                        ..old(self)@
                    })
                    &&& if deleted {
                        saves(saved, final(self)@, name@)
                    } else {
                        saved is None
                    }
                },
                Err(error) => !old(self)@.tables.contains_key(name@) && error@ == not_found(name@)
                    && final(self)@ == old(self)@,
            },
    {
        let mut ids: Vec<u64> = Vec::new();
        ids.push(id);
        let ghost before = self@;
        assert(ids@ =~= seq![id]);
        match self.delete_rows(name, &ids) {
            Err(error) => Err(error),
            Ok(count) => {
                proof {
                    assert(seq![id].drop_last() =~= Seq::empty());
                    assert(without_rows(before.tables[name@], Seq::empty())
                        == before.tables[name@]);
                    assert(removed_count(before.tables[name@], Seq::empty()) == 0);
                }
                if count > 0 {
                    Ok((true, self.saved(name)))
                } else {
                    Ok((false, None))
                }
            },
        }
    }

    /// Deletes rows of a table, and tells how many there were.
    pub fn delete_rows(&mut self, name: &str, ids: &Vec<u64>) -> (deleted: Result<
        usize,
        QuantaError,
    >)
        ensures
            match deleted {
                Ok(count) => {
                    &&& old(self)@.tables.contains_key(name@)
                    &&& count as nat == removed_count(old(self)@.tables[name@], ids@)
                    &&& final(self)@ == (EngineView {
                        tables: old(self)@.tables.insert(
                            name@,
                            without_rows(old(self)@.tables[name@], ids@),
                        ),
                        ..old(self)@
                    })
                },
                Err(error) => !old(self)@.tables.contains_key(name@) && error@ == not_found(name@)
                    && final(self)@ == old(self)@,
            },
    {
        let ghost before = self@;
        let mut kept = match take_from(&mut self.tables, name) {
            None => {
                assert(self@.tables =~= before.tables);
                return Err(QuantaError::TableNotFound(String::from_str(name)));
            },
            Some(kept) => kept,
        };
        let ghost first = kept@;
        let length: usize = ids.len();
        let mut count: usize = 0;
        let mut index: usize = 0;
        assert(ids@.take(0) =~= Seq::empty());
        while index < length
            invariant
                count <= index <= length == ids@.len(),
                kept@ == without_rows(first, ids@.take(index as int)),
                count as nat == removed_count(first, ids@.take(index as int)),
            decreases length - index,
        {
            assert(ids@.take(index + 1).drop_last() =~= ids@.take(index as int));
            if kept.delete_row(ids[index]) {
                count = count + 1;
            }
            index = index + 1;
        }
        assert(ids@.take(length as int) =~= ids@);
        put_into(&mut self.tables, String::from_str(name), kept);
        assert(self@.tables =~= before.tables.insert(name@, without_rows(first, ids@)));
        Ok(count)
    }

    /// The names of the tables; the order is left open.
    pub fn list_tables(&self) -> (names: Vec<String>)
        ensures
            lists_names(text_views(names@), self@.tables),
    {
        names_of(&self.tables)
    }

    pub fn table_exists(&self, name: &str) -> (yes: bool)
        ensures
            yes == self@.tables.contains_key(name@),
    {
        held_in(&self.tables, name)
    }
}

/// How many of some numbers name a row when they are deleted one after another.
pub open spec fn removed_count(kept: TableView, ids: Seq<u64>) -> nat
    decreases ids.len(),
{
    if ids.len() == 0 {
        0
    } else {
        let before = removed_count(kept, ids.drop_last());
        if without_rows(kept, ids.drop_last()).rows.contains_key(ids.last()) {
            before + 1
        } else {
            before
        }
    }
}

} // verus!
