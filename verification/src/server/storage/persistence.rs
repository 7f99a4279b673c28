//! What is kept of a table in a file, and which files hold tables.
use crate::server::storage::table;
use crate::server::storage::table::{Table, TableView};
use crate::server::storage::types::{ColumnView, Row, Schema, ValueView};
use crate::text::{chars_of, join_text, text_of};
use vstd::prelude::*;
use vstd::string::*;

verus! {

pub struct TableMetadata {
    pub name: String,
    pub schema: Schema,
    pub next_id: u64,
}

/// A table as it is kept in a file.
pub struct PersistedTable {
    pub metadata: TableMetadata,
    pub rows: Vec<(u64, Row)>,
}

#[verifier::ext_equal]
pub struct PersistedView {
    pub name: Seq<char>,
    pub schema: Seq<ColumnView>,
    pub next_id: u64,
    pub rows: Seq<(u64, Seq<ValueView>)>,
}

impl View for PersistedTable {
    type V = PersistedView;

    open spec fn view(&self) -> PersistedView {
        PersistedView {
            name: self.metadata.name@,
            schema: self.metadata.schema@,
            next_id: self.metadata.next_id,
            rows: table::pair_views(self.rows@),
        }
    }
}

/// Whether a file's content is that of a table, with its rows in some order.
pub open spec fn is_saved(saved: PersistedView, kept: TableView) -> bool {
    &&& saved.name == kept.name
    &&& saved.schema == kept.schema
    &&& saved.next_id == kept.next_id
    &&& table::is_listing(saved.rows, kept.rows)
}

/// The table that a file holds.
pub open spec fn loaded(saved: PersistedView) -> TableView {
    TableView {
        name: saved.name,
        schema: saved.schema,
        rows: table::rows_of(saved.rows),
        next_id: saved.next_id,
    }
}

/// A table that is saved and loaded is the same again, in whatever order its rows were saved.
pub proof fn law_saved_tables_load(saved: PersistedView, kept: TableView)
    requires
        is_saved(saved, kept),
    ensures
        loaded(saved) == kept,
{
    table::law_listing_is_complete(saved.rows, kept.rows);
    assert(loaded(saved) =~= kept);
}

/// What is kept of a table.
pub fn persist(kept: &Table) -> (saved: PersistedTable)
    ensures
        is_saved(saved@, kept@),
{
    PersistedTable {
        metadata: TableMetadata {
            name: kept.name_text(),
            schema: kept.get_schema().copy(),
            next_id: kept.next_id(),
        },
        rows: kept.get_all_rows(),
    }
}

/// The table that a file holds.
pub fn restore(saved: PersistedTable) -> (kept: Table)
    ensures
        kept@ == loaded(saved@),
{
    Table::with_rows(
        saved.metadata.name,
        saved.metadata.schema,
        saved.metadata.next_id,
        &saved.rows,
    )
}

/// A directory with a file for each table.
pub struct FileStorage {
    data_dir: String,
}

/// The name of a table's file.
pub open spec fn file_of(name: Seq<char>) -> Seq<char> {
    name + ".json"@ + ""@
}

pub open spec fn ends_with(whole: Seq<char>, end: Seq<char>) -> bool {
    whole.len() >= end.len() && whole.skip(whole.len() - end.len()) == end
}

/// A name without the ends that say that it is a table's file, however many there are.
pub open spec fn without_ends(name: Seq<char>) -> Seq<char>
    decreases name.len(),
{
    if ends_with(name, ".json"@) && ".json"@.len() > 0 {
        without_ends(name.take(name.len() - ".json"@.len()))
    } else {
        name
    }
}

/// The table whose file has a name, if it is a table's file.
pub open spec fn table_of(file: Seq<char>) -> Option<Seq<char>> {
    if ends_with(file, ".json"@) {
        Some(without_ends(file))
    } else {
        None
    }
}

/// The file of a table is found again under the table's name, unless the name itself ends like a
/// file.
pub proof fn law_files_name_their_tables(name: Seq<char>)
    requires
        !ends_with(name, ".json"@),
    ensures
        table_of(file_of(name)) == Some(name),
{
    reveal_strlit(".json");
    reveal_strlit("");
    let file = file_of(name);
    assert(file =~= name + ".json"@);
    assert(file.skip(file.len() - ".json"@.len()) =~= ".json"@);
    assert(file.take(file.len() - ".json"@.len()) =~= name);
    assert(without_ends(name) == name);
}

fn ends_like_file(chars: &Vec<char>, end: usize) -> (yes: bool)
    requires
        end <= chars@.len(),
    ensures
        yes == ends_with(chars@.take(end as int), ".json"@),
{
    proof {
        reveal_strlit(".json");
    }
    let ghost whole = chars@.take(end as int);
    let tail = chars_of(".json");
    if end < 5 {
        return false;
    }
    let mut index: usize = 0;
    while index < 5
        invariant
            5 <= end <= chars@.len(),
            index <= 5,
            tail@ == ".json"@,
            tail@.len() == 5,
            whole == chars@.take(end as int),
            forall|i: int| 0 <= i < index ==> chars@[end - 5 + i] == #[trigger] tail@[i],
        decreases 5 - index,
    {
        if chars[end - 5 + index] != tail[index] {
            assert(whole.skip(whole.len() - 5)[index as int] != tail@[index as int]);
            return false;
        }
        index = index + 1;
    }
    assert(whole.skip(whole.len() - 5) =~= ".json"@);
    true
}

/// The table whose file has a name.
pub fn table_of_file(file: &str) -> (name: Option<String>)
    ensures
        match name {
            Some(name) => table_of(file@) == Some(name@),
            None => table_of(file@) is None,
        },
{
    proof {
        reveal_strlit(".json");
    }
    let chars = chars_of(file);
    let mut end: usize = chars.len();
    assert(chars@.take(end as int) =~= file@);
    if !ends_like_file(&chars, end) {
        return None;
    }
    while ends_like_file(&chars, end)
        invariant
            end <= chars@.len(),
            chars@ == file@,
            ".json"@.len() == 5,
            without_ends(file@) == without_ends(chars@.take(end as int)),
        decreases end,
    {
        assert(chars@.take(end as int).take(end - 5) =~= chars@.take(end - 5));
        end = end - 5;
    }
    let name = text_of(&chars, 0, end);
    assert(name@ =~= chars@.take(end as int));
    Some(name)
}

impl FileStorage {
    pub closed spec fn dir(&self) -> Seq<char> {
        self.data_dir@
    }

    pub fn new(data_dir: String) -> (storage: FileStorage)
        ensures
            storage.dir() == data_dir@,
    {
        FileStorage { data_dir }
    }

    pub fn get_data_dir(&self) -> (dir: &str)
        ensures
            dir@ == self.dir(),
    {
        self.data_dir.as_str()
    }

    /// The name of a table's file in the directory.
    pub fn file_name(&self, name: &str) -> (file: String)
        ensures
            file@ == file_of(name@),
    {
        join_text(name, ".json", "")
    }

    /// Whether a table has a file, where the directory holds files with these names.
    pub fn table_exists(&self, name: &str, files: &Vec<String>) -> (yes: bool)
        ensures
            yes == exists|i: int| 0 <= i < files@.len() && (#[trigger] files@[i])@ == file_of(name@),
    {
        let wanted = self.file_name(name);
        let length: usize = files.len();
        let mut index: usize = 0;
        while index < length
            invariant
                index <= length == files@.len(),
                wanted@ == file_of(name@),
                forall|i: int| 0 <= i < index ==> (#[trigger] files@[i])@ != file_of(name@),
            decreases length - index,
        {
            if crate::engine::schema::same_text(files[index].as_str(), wanted.as_str()) {
                assert(files@[index as int]@ == file_of(name@));
                return true;
            }
            index = index + 1;
        }
        false
    }
}

} // verus!
