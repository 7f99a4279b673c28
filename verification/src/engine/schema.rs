//! Tables and their columns.
use crate::engine::error::{EngineError, EngineErrorView};
use crate::engine::float;
use crate::engine::float::finite;
use crate::engine::value;
use crate::engine::value::{copy_text, Value, ValueView};
use crate::syntax::{ColumnDef, CreateTable, DataType};
use crate::text;
use crate::text::{join_text, text_with_number};
use vstd::prelude::*;
use vstd::string::*;

verus! {

/// The version of the stored form of schemas.
pub const SCHEMA_FORMAT_VERSION: u16 = 1;

/// The type of a column or an expression.
#[derive(Clone, Copy, Debug, PartialEq, Eq, Structural)]
pub enum LogicalType {
    Unknown,
    Boolean,
    Int64,
    Float64,
    Text { max_length: Option<u32> },
}

#[derive(Clone, Debug, PartialEq, Eq)]
pub struct ColumnSchema {
    pub name: String,
    pub data_type: LogicalType,
    pub nullable: bool,
    pub primary_key: bool,
    pub unique: bool,
}

#[derive(Clone, Debug, PartialEq, Eq)]
pub struct TableSchema {
    pub format_version: u16,
    pub id: u64,
    pub name: String,
    pub columns: Vec<ColumnSchema>,
    /// The position of the column that is the primary key.
    pub primary_key: Option<usize>,
    /// The number that the next row gets where no column is the primary key.
    pub next_row_id: u64,
}

#[verifier::ext_equal]
pub struct ColumnView {
    pub name: Seq<char>,
    pub data_type: LogicalType,
    pub nullable: bool,
    pub primary_key: bool,
    pub unique: bool,
}

#[verifier::ext_equal]
pub struct TableView {
    pub format_version: u16,
    pub id: u64,
    pub name: Seq<char>,
    pub columns: Seq<ColumnView>,
    pub primary_key: Option<usize>,
    pub next_row_id: u64,
}

impl View for ColumnSchema {
    type V = ColumnView;

    open spec fn view(&self) -> ColumnView {
        ColumnView {
            name: self.name@,
            data_type: self.data_type,
            nullable: self.nullable,
            primary_key: self.primary_key,
            unique: self.unique,
        }
    }
}

pub open spec fn column_views(columns: Seq<ColumnSchema>) -> Seq<ColumnView> {
    Seq::new(columns.len(), |i: int| columns[i]@)
}

impl View for TableSchema {
    type V = TableView;

    open spec fn view(&self) -> TableView {
        TableView {
            format_version: self.format_version,
            id: self.id,
            name: self.name@,
            columns: column_views(self.columns@),
            primary_key: self.primary_key,
            next_row_id: self.next_row_id,
        }
    }
}

pub open spec fn logical_type(data_type: DataType) -> LogicalType {
    match data_type {
        DataType::Boolean => LogicalType::Boolean,
        DataType::Int64 => LogicalType::Int64,
        DataType::Float64 => LogicalType::Float64,
        DataType::Text { max_length } => LogicalType::Text { max_length },
    }
}

/// The column that a definition describes.
pub open spec fn defined_column(definition: ColumnDef) -> ColumnView {
    ColumnView {
        name: definition.name.value@,
        data_type: logical_type(definition.data_type),
        nullable: definition.nullable,
        primary_key: definition.primary_key,
        unique: definition.unique,
    }
}

pub open spec fn defined_columns(definitions: Seq<ColumnDef>) -> Seq<ColumnView> {
    Seq::new(definitions.len(), |i: int| defined_column(definitions[i]))
}

/// Whether `position` is the first column, from `at` on, that is a primary key.
pub open spec fn primary_from(columns: Seq<ColumnView>, at: int) -> Option<usize>
    decreases columns.len() - at,
{
    if at < 0 || at >= columns.len() {
        None
    } else if columns[at].primary_key {
        Some(at as usize)
    } else {
        primary_from(columns, at + 1)
    }
}

pub open spec fn two_primaries(columns: Seq<ColumnView>) -> bool {
    exists|i: int, j: int|
        0 <= i < j < columns.len() && (#[trigger] columns[i]).primary_key && (
        #[trigger] columns[j]).primary_key
}

pub open spec fn two_alike(columns: Seq<ColumnView>) -> bool {
    exists|i: int, j: int|
        0 <= i < j < columns.len() && (#[trigger] columns[i]).name == (#[trigger] columns[j]).name
}

/// The table that a CREATE TABLE describes.
pub open spec fn created(id: u64, create: CreateTable) -> Result<TableView, EngineErrorView> {
    let columns = defined_columns(create.columns@);
    if two_primaries(columns) {
        Err(EngineErrorView::InvalidSchema("only one PRIMARY KEY is currently supported"@))
    } else if two_alike(columns) {
        Err(EngineErrorView::InvalidSchema("column names must be unique"@))
    } else {
        Ok(
            TableView {
                format_version: SCHEMA_FORMAT_VERSION,
                id,
                name: create.name.value@,
                columns,
                primary_key: primary_from(columns, 0),
                next_row_id: 1,
            },
        )
    }
}

/// The position of the first column of a name, from `at` on.
pub open spec fn position_from(columns: Seq<ColumnView>, name: Seq<char>, at: int) -> Option<int>
    decreases columns.len() - at,
{
    if at < 0 || at >= columns.len() {
        None
    } else if columns[at].name == name {
        Some(at)
    } else {
        position_from(columns, name, at + 1)
    }
}

/// The column found by a name is the first that has it, and none is found where none has it.
pub proof fn lemma_first_named(columns: Seq<ColumnView>, name: Seq<char>, at: int)
    requires
        0 <= at,
    ensures
        match position_from(columns, name, at) {
            Some(found) => at <= found < columns.len() && columns[found].name == name && forall|
                i: int,
            |
                at <= i < found ==> (#[trigger] columns[i]).name != name,
            None => forall|i: int|
                at <= i < columns.len() ==> (#[trigger] columns[i]).name != name,
        },
    decreases columns.len() - at,
{
    if at < columns.len() {
        lemma_first_named(columns, name, at + 1);
    }
}

/// Whether a value that is not NULL has a type.
pub open spec fn has_type(value: ValueView, data_type: LogicalType) -> bool {
    match (data_type, value) {
        (LogicalType::Unknown, _) => true,
        (LogicalType::Boolean, ValueView::Boolean(_)) => true,
        (LogicalType::Int64, ValueView::Integer(_)) => true,
        (LogicalType::Float64, ValueView::Float(_)) => true,
        (LogicalType::Text { .. }, ValueView::Text(_)) => true,
        _ => false,
    }
}

/// Whether text is longer than its column allows.
pub open spec fn too_long(value: ValueView, data_type: LogicalType) -> bool {
    match (data_type, value) {
        (LogicalType::Text { max_length: Some(maximum) }, ValueView::Text(text)) => text.len()
            > maximum,
        _ => false,
    }
}

/// Why a column does not take a value, if it does not.
pub open spec fn value_refused(column: ColumnView, value: ValueView) -> Option<EngineErrorView> {
    if value is Null {
        if column.nullable {
            None
        } else {
            Some(
                EngineErrorView::InvalidRow("column "@ + column.name + " cannot be NULL"@),
            )
        }
    } else if !has_type(value, column.data_type) {
        Some(
            EngineErrorView::InvalidRow(
                "value has the wrong type for column "@ + column.name + ""@,
            ),
        )
    } else if too_long(value, column.data_type) {
        Some(
            EngineErrorView::InvalidRow(
                "value for column "@ + column.name + (" exceeds "@ + text::decimal(
                    column.data_type->max_length->Some_0 as nat,
                ) + " characters"@),
            ),
        )
    } else if value matches ValueView::Float(bits) && !float::is_finite(bits) {
        Some(
            EngineErrorView::InvalidRow(
                "column "@ + column.name + " cannot contain a non-finite float"@,
            ),
        )
    } else {
        None
    }
}

/// The refusal of the first column, from `at` on, that does not take its value.
pub open spec fn refused_from(
    columns: Seq<ColumnView>,
    values: Seq<ValueView>,
    at: int,
) -> Option<EngineErrorView>
    decreases columns.len() - at,
{
    if at < 0 || at >= columns.len() {
        None
    } else {
        match value_refused(columns[at], values[at]) {
            Some(refusal) => Some(refusal),
            None => refused_from(columns, values, at + 1),
        }
    }
}

/// Why a table does not take a row, if it does not.
pub open spec fn row_refused(table: TableView, values: Seq<ValueView>) -> Option<EngineErrorView> {
    if values.len() != table.columns.len() {
        Some(
            EngineErrorView::InvalidRow(
                "table "@ + table.name + (" expects "@ + text::decimal(table.columns.len()) + (
                " values, got "@ + text::decimal(values.len()) + ""@)),
            ),
        )
    } else {
        refused_from(table.columns, values, 0)
    }
}

proof fn lemma_refused_from(columns: Seq<ColumnView>, values: Seq<ValueView>, at: int, i: int)
    requires
        0 <= at <= i < columns.len(),
        refused_from(columns, values, at) is None,
    ensures
        value_refused(columns[i], values[i]) is None,
    decreases i - at,
{
    if at < i {
        lemma_refused_from(columns, values, at + 1, i);
    }
}

/// A row that a table takes has, in each column, NULL where that is allowed or a value of the
/// column's type, within its length, and finite.
pub proof fn law_accepted_rows(table: TableView, values: Seq<ValueView>, i: int)
    requires
        row_refused(table, values) is None,
        0 <= i < values.len(),
    ensures
        values.len() == table.columns.len(),
        values[i] is Null ==> table.columns[i].nullable,
        !(values[i] is Null) ==> has_type(values[i], table.columns[i].data_type) && !too_long(
            values[i],
            table.columns[i].data_type,
        ),
        values[i] matches ValueView::Float(bits) ==> float::is_finite(bits),
{
    lemma_refused_from(table.columns, values, 0, i);
}

impl ColumnSchema {
    fn from_definition(column: &ColumnDef) -> (made: ColumnSchema)
        ensures
            made@ == defined_column(*column),
    {
        ColumnSchema {
            name: copy_text(&column.name.value),
            data_type: match column.data_type {
                DataType::Boolean => LogicalType::Boolean,
                DataType::Int64 => LogicalType::Int64,
                DataType::Float64 => LogicalType::Float64,
                DataType::Text { max_length } => LogicalType::Text { max_length },
            },
            nullable: column.nullable,
            primary_key: column.primary_key,
            unique: column.unique,
        }
    }

    /// Whether the column takes a value.
    pub fn validate(&self, value: &Value) -> (result: Result<(), EngineError>)
        ensures
            match result {
                Ok(_) => value_refused(self@, value@) is None,
                Err(error) => value_refused(self@, value@) == Some(error@),
            },
    {
        if value.is_null() {
            return if self.nullable {
                Ok(())
            } else {
                Err(
                    EngineError::InvalidRow(
                        join_text("column ", self.name.as_str(), " cannot be NULL"),
                    ),
                )
            };
        }
        let valid = match (self.data_type, value) {
            (LogicalType::Unknown, _) => true,
            (LogicalType::Boolean, Value::Boolean(_)) => true,
            (LogicalType::Int64, Value::Integer(_)) => true,
            (LogicalType::Float64, Value::Float(_)) => true,
            (LogicalType::Text { .. }, Value::Text(_)) => true,
            _ => false,
        };
        if !valid {
            return Err(
                EngineError::InvalidRow(
                    join_text("value has the wrong type for column ", self.name.as_str(), ""),
                ),
            );
        }
        if let LogicalType::Text { max_length: Some(maximum) } = self.data_type {
            if let Value::Text(content) = value {
                if content.as_str().unicode_len() as u64 > maximum as u64 {
                    let tail = text_with_number(" exceeds ", maximum as u64, " characters");
                    return Err(
                        EngineError::InvalidRow(
                            join_text("value for column ", self.name.as_str(), tail.as_str()),
                        ),
                    );
                }
            }
        }
        if let Value::Float(bits) = value {
            if !finite(*bits) {
                return Err(
                    EngineError::InvalidRow(
                        join_text(
                            "column ",
                            self.name.as_str(),
                            " cannot contain a non-finite float",
                        ),
                    ),
                );
            }
        }
        Ok(())
    }

    /// A copy of the column.
    pub fn copy(&self) -> (copy: ColumnSchema)
        ensures
            copy@ == self@,
    {
        ColumnSchema {
            name: copy_text(&self.name),
            data_type: self.data_type,
            nullable: self.nullable,
            primary_key: self.primary_key,
            unique: self.unique,
        }
    }
}

/// Whether two pieces of text are the same.
pub(crate) fn same_text(left: &str, right: &str) -> (same: bool)
    ensures
        same == (left@ == right@),
{
    matches!(value::order_text(left, right), crate::index::key::KeyOrder::Same)
}

impl TableSchema {
    /// The table that a CREATE TABLE describes, with a number.
    pub fn from_create(id: u64, create: &CreateTable) -> (made: Result<TableSchema, EngineError>)
        ensures
            match made {
                Ok(table) => created(id, *create) == Ok::<TableView, EngineErrorView>(table@),
                Err(error) => created(id, *create) == Err::<TableView, EngineErrorView>(error@),
            },
    {
        let ghost wanted = defined_columns(create.columns@);
        let mut columns: Vec<ColumnSchema> = Vec::new();
        let mut primary_key: Option<usize> = None;
        let mut primaries: bool = false;
        let mut index: usize = 0;
        while index < create.columns.len()
            invariant
                wanted == defined_columns(create.columns@),
                index <= create.columns@.len(),
                column_views(columns@) == wanted.take(index as int),
                primaries == two_primaries(wanted.take(index as int)),
                primary_key is None ==> primary_from(wanted, 0) == primary_from(
                    wanted,
                    index as int,
                ) && forall|i: int| 0 <= i < index ==> !(#[trigger] wanted[i]).primary_key,
                primary_key matches Some(first) ==> first < index && wanted[first as int].primary_key
                    && primary_from(wanted, 0) == primary_key,
            decreases create.columns@.len() - index,
        {
            let column = ColumnSchema::from_definition(&create.columns[index]);
            let ghost before = wanted.take(index as int);
            let ghost after = wanted.take(index + 1);
            proof {
                assert(after =~= before.push(wanted[index as int]));
                assert(column@ == wanted[index as int]);
                assert forall|i: int| 0 <= i < index implies before[i] == after[i] by {}
                if two_primaries(before) {
                    let (i, j) = choose|i: int, j: int|
                        0 <= i < j < before.len() && (#[trigger] before[i]).primary_key && (
                        #[trigger] before[j]).primary_key;
                    assert(after[i].primary_key && after[j].primary_key);
                }
            }
            if column.primary_key {
                match primary_key {
                    None => {
                        primary_key = Some(index);
                        proof {
                            if two_primaries(after) && !two_primaries(before) {
                                let (i, j) = choose|i: int, j: int|
                                    0 <= i < j < after.len() && (#[trigger] after[i]).primary_key
                                        && (#[trigger] after[j]).primary_key;
                                assert(wanted[i].primary_key);
                            }
                        }
                    },
                    Some(first) => {
                        primaries = true;
                        assert(after[first as int].primary_key && after[index as int].primary_key);
                    },
                }
            } else {
                proof {
                    if two_primaries(after) && !two_primaries(before) {
                        let (i, j) = choose|i: int, j: int|
                            0 <= i < j < after.len() && (#[trigger] after[i]).primary_key && (
                            #[trigger] after[j]).primary_key;
                        assert(before[i].primary_key && before[j].primary_key);
                    }
                }
            }
            columns.push(column);
            assert(column_views(columns@) =~= after);
            index = index + 1;
        }
        assert(wanted.take(index as int) =~= wanted);
        if primaries {
            return Err(
                EngineError::InvalidSchema(
                    String::from_str("only one PRIMARY KEY is currently supported"),
                ),
            );
        }
        if has_duplicate_name(&columns) {
            return Err(
                EngineError::InvalidSchema(String::from_str("column names must be unique")),
            );
        }
        Ok(
            TableSchema {
                format_version: SCHEMA_FORMAT_VERSION,
                id,
                name: copy_text(&create.name.value),
                columns,
                primary_key,
                next_row_id: 1,
            },
        )
    }

    /// Whether the table takes a row.
    pub fn validate_row(&self, values: &[Value]) -> (result: Result<(), EngineError>)
        ensures
            match result {
                Ok(_) => row_refused(self@, value::value_views(values@)) is None,
                Err(error) => row_refused(self@, value::value_views(values@)) == Some(error@),
            },
    {
        let ghost views = value::value_views(values@);
        if values.len() != self.columns.len() {
            let last = text_with_number(" values, got ", values.len() as u64, "");
            let tail = text_with_number(" expects ", self.columns.len() as u64, last.as_str());
            return Err(
                EngineError::InvalidRow(join_text("table ", self.name.as_str(), tail.as_str())),
            );
        }
        let mut index: usize = 0;
        while index < self.columns.len()
            invariant
                index <= self.columns@.len(),
                self.columns@.len() == values@.len(),
                views == value::value_views(values@),
                refused_from(self@.columns, views, 0) == refused_from(
                    self@.columns,
                    views,
                    index as int,
                ),
            decreases self.columns@.len() - index,
        {
            match self.columns[index].validate(&values[index]) {
                Ok(_) => {},
                Err(error) => {
                    assert(self@.columns[index as int] == self.columns@[index as int]@);
                    return Err(error);
                },
            }
            assert(self@.columns[index as int] == self.columns@[index as int]@);
            index = index + 1;
        }
        Ok(())
    }

    /// The position of the column with a name.
    pub fn position(&self, name: &str) -> (found: Option<usize>)
        ensures
            match found {
                Some(at) => position_from(self@.columns, name@, 0) == Some(at as int) && at
                    < self.columns@.len(),
                None => position_from(self@.columns, name@, 0) is None,
            },
    {
        let mut index: usize = 0;
        while index < self.columns.len()
            invariant
                index <= self.columns@.len(),
                position_from(self@.columns, name@, 0) == position_from(
                    self@.columns,
                    name@,
                    index as int,
                ),
            decreases self.columns@.len() - index,
        {
            assert(self@.columns[index as int] == self.columns@[index as int]@);
            if same_text(self.columns[index].name.as_str(), name) {
                return Some(index);
            }
            index = index + 1;
        }
        None
    }

    /// A copy of the schema.
    pub fn copy(&self) -> (copy: TableSchema)
        ensures
            copy@ == self@,
    {
        let mut columns: Vec<ColumnSchema> = Vec::new();
        let mut index: usize = 0;
        while index < self.columns.len()
            invariant
                index <= self.columns@.len(),
                columns@.len() == index,
                forall|i: int| 0 <= i < index ==> (#[trigger] columns@[i])@ == self.columns@[i]@,
            decreases self.columns@.len() - index,
        {
            columns.push(self.columns[index].copy());
            index = index + 1;
        }
        assert(column_views(columns@) =~= column_views(self.columns@));
        TableSchema {
            format_version: self.format_version,
            id: self.id,
            name: copy_text(&self.name),
            columns,
            primary_key: self.primary_key,
            next_row_id: self.next_row_id,
        }
    }
}

/// Whether two columns have the same name.
fn has_duplicate_name(columns: &Vec<ColumnSchema>) -> (yes: bool)
    ensures
        yes == two_alike(column_views(columns@)),
{
    let ghost views = column_views(columns@);
    let mut second: usize = 0;
    while second < columns.len()
        invariant
            second <= columns@.len(),
            views == column_views(columns@),
            forall|i: int, j: int|
                0 <= i < j < second ==> (#[trigger] views[i]).name != (#[trigger] views[j]).name,
        decreases columns@.len() - second,
    {
        let mut first: usize = 0;
        while first < second
            invariant
                first <= second < columns@.len(),
                views == column_views(columns@),
                forall|i: int| 0 <= i < first ==> (#[trigger] views[i]).name != views[second as int].name,
            decreases second - first,
        {
            if same_text(columns[first].name.as_str(), columns[second].name.as_str()) {
                assert(views[first as int].name == views[second as int].name);
                return true;
            }
            first = first + 1;
        }
        second = second + 1;
    }
    false
}

} // verus!
