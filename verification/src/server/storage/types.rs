//! Values, rows and schemas of the tables kept in memory.
use crate::engine::schema::same_text;
use crate::engine::value::copy_text;
use crate::text;
use crate::text::{join_text, signed_text};
use vstd::prelude::*;
use vstd::string::*;

verus! {

#[derive(Clone, Copy, Debug, PartialEq, Eq, Structural)]
pub enum DataType {
    Int,
    Text,
    Bool,
    Float,
}

/// The name of a type.
pub open spec fn type_text(data_type: DataType) -> Seq<char> {
    match data_type {
        DataType::Int => "INT"@,
        DataType::Text => "TEXT"@,
        DataType::Bool => "BOOL"@,
        DataType::Float => "FLOAT"@,
    }
}

impl DataType {
    /// The name of the type.
    pub fn text(&self) -> (name: &'static str)
        ensures
            name@ == type_text(*self),
    {
        match self {
            DataType::Int => "INT",
            DataType::Text => "TEXT",
            DataType::Bool => "BOOL",
            DataType::Float => "FLOAT",
        }
    }
}

/// A value; a float by its bits.
#[derive(Debug, PartialEq, Eq)]
pub enum Value {
    Int(i64),
    Text(String),
    Bool(bool),
    Float(u64),
    Null,
}

#[verifier::ext_equal]
pub enum ValueView {
    Int(i64),
    Text(Seq<char>),
    Bool(bool),
    Float(u64),
    Null,
}

impl View for Value {
    type V = ValueView;

    open spec fn view(&self) -> ValueView {
        match self {
            Value::Int(number) => ValueView::Int(*number),
            Value::Text(content) => ValueView::Text(content@),
            Value::Bool(set) => ValueView::Bool(*set),
            Value::Float(bits) => ValueView::Float(*bits),
            Value::Null => ValueView::Null,
        }
    }
}

/// How a value is shown; the text of a float is given.
pub open spec fn value_text(value: ValueView, float_text: Seq<char>) -> Seq<char> {
    match value {
        ValueView::Int(number) => text::signed_decimal(number as int),
        ValueView::Text(content) => "\""@ + content + "\""@,
        ValueView::Bool(set) => if set {
            "true"@
        } else {
            "false"@
        },
        ValueView::Float(_) => float_text,
        ValueView::Null => "NULL"@,
    }
}

/// The type of a value; NULL counts as an integer.
pub open spec fn type_of(value: ValueView) -> DataType {
    match value {
        ValueView::Int(_) => DataType::Int,
        ValueView::Text(_) => DataType::Text,
        ValueView::Bool(_) => DataType::Bool,
        ValueView::Float(_) => DataType::Float,
        ValueView::Null => DataType::Int,
    }
}

/// Whether a column of a type can hold a value: NULL fits every type.
pub open spec fn fits(value: ValueView, data_type: DataType) -> bool {
    value is Null || type_of(value) == data_type
}

impl Value {
    /// The value once more.
    pub fn copy(&self) -> (copy: Value)
        ensures
            copy@ == self@,
    {
        match self {
            Value::Int(number) => Value::Int(*number),
            Value::Text(content) => Value::Text(copy_text(content)),
            Value::Bool(set) => Value::Bool(*set),
            Value::Float(bits) => Value::Float(*bits),
            Value::Null => Value::Null,
        }
    }

    /// How the value is shown.
    pub fn text(&self, float_text: &str) -> (shown: String)
        ensures
            shown@ == value_text(self@, float_text@),
    {
        match self {
            Value::Int(number) => signed_text(*number),
            Value::Text(content) => join_text("\"", content.as_str(), "\""),
            Value::Bool(true) => String::from_str("true"),
            Value::Bool(false) => String::from_str("false"),
            Value::Float(_) => String::from_str(float_text),
            Value::Null => String::from_str("NULL"),
        }
    }

    /// The type of the value.
    pub fn get_type(&self) -> (data_type: DataType)
        ensures
            data_type == type_of(self@),
    {
        match self {
            Value::Int(_) => DataType::Int,
            Value::Text(_) => DataType::Text,
            Value::Bool(_) => DataType::Bool,
            Value::Float(_) => DataType::Float,
            Value::Null => DataType::Int,
        }
    }

    /// Whether a column of a type can hold the value.
    pub fn matches_type(&self, data_type: &DataType) -> (yes: bool)
        ensures
            yes == fits(self@, *data_type),
    {
        match self {
            Value::Null => true,
            _ => self.get_type() == *data_type,
        }
    }
}

#[derive(Debug, PartialEq, Eq)]
pub struct Column {
    pub name: String,
    pub data_type: DataType,
}

#[verifier::ext_equal]
pub struct ColumnView {
    pub name: Seq<char>,
    pub data_type: DataType,
}

impl View for Column {
    type V = ColumnView;

    open spec fn view(&self) -> ColumnView {
        ColumnView { name: self.name@, data_type: self.data_type }
    }
}

pub open spec fn column_views(columns: Seq<Column>) -> Seq<ColumnView> {
    Seq::new(columns.len(), |i: int| columns[i]@)
}

pub open spec fn value_views(values: Seq<Value>) -> Seq<ValueView> {
    Seq::new(values.len(), |i: int| values[i]@)
}

/// The first column with a name, from a place on; the number of columns where there is none.
pub open spec fn place_from(columns: Seq<ColumnView>, name: Seq<char>, from: int) -> int
    decreases columns.len() - from,
{
    if from >= columns.len() {
        columns.len() as int
    } else if columns[from].name == name {
        from
    } else {
        place_from(columns, name, from + 1)
    }
}

/// The first column with a name.
pub open spec fn place_of(columns: Seq<ColumnView>, name: Seq<char>) -> Option<int> {
    let place = place_from(columns, name, 0);
    if place < columns.len() {
        Some(place)
    } else {
        None
    }
}

fn find_column(columns: &Vec<Column>, name: &str) -> (place: Option<usize>)
    ensures
        match place {
            Some(place) => place_of(column_views(columns@), name@) == Some(place as int) && place
                < columns@.len(),
            None => place_of(column_views(columns@), name@) is None,
        },
{
    let length: usize = columns.len();
    let ghost views = column_views(columns@);
    let mut index: usize = 0;
    while index < length
        invariant
            index <= length == columns@.len(),
            views == column_views(columns@),
            place_from(views, name@, 0) == place_from(views, name@, index as int),
        decreases length - index,
    {
        assert(views[index as int] == columns@[index as int]@);
        if same_text(columns[index].name.as_str(), name) {
            return Some(index);
        }
        index = index + 1;
    }
    None
}

#[derive(Debug)]
pub struct Row {
    pub values: Vec<Value>,
}

impl View for Row {
    type V = Seq<ValueView>;

    open spec fn view(&self) -> Seq<ValueView> {
        value_views(self.values@)
    }
}

/// The value in the first column with a name, if the row reaches that far.
pub open spec fn value_named(
    row: Seq<ValueView>,
    name: Seq<char>,
    columns: Seq<ColumnView>,
) -> Option<ValueView> {
    match place_of(columns, name) {
        None => None,
        Some(place) => if place < row.len() {
            Some(row[place])
        } else {
            None
        },
    }
}

impl Row {
    pub fn new(values: Vec<Value>) -> (row: Row)
        ensures
            row@ == value_views(values@),
    {
        Row { values }
    }

    /// The row once more.
    pub fn copy(&self) -> (copy: Row)
        ensures
            copy@ == self@,
    {
        let mut values: Vec<Value> = Vec::new();
        let length: usize = self.values.len();
        let mut index: usize = 0;
        while index < length
            invariant
                index <= length == self.values@.len(),
                values@.len() == index,
                forall|i: int| 0 <= i < index ==> (#[trigger] values@[i])@ == self.values@[i]@,
            decreases length - index,
        {
            values.push(self.values[index].copy());
            index = index + 1;
        }
        let copy = Row { values };
        assert(copy@ =~= self@);
        copy
    }

    /// The value at a place.
    pub fn get_value(&self, index: usize) -> (value: Option<&Value>)
        ensures
            match value {
                Some(value) => index < self@.len() && value@ == self@[index as int],
                None => index >= self@.len(),
            },
    {
        if index < self.values.len() {
            Some(&self.values[index])
        } else {
            None
        }
    }

    /// The value in the column with a name.
    pub fn get_value_by_name(&self, name: &str, columns: &Vec<Column>) -> (value: Option<&Value>)
        ensures
            match value {
                Some(value) => value_named(self@, name@, column_views(columns@)) == Some(value@),
                None => value_named(self@, name@, column_views(columns@)) is None,
            },
    {
        match find_column(columns, name) {
            Some(index) => self.get_value(index),
            None => None,
        }
    }
}

#[derive(Debug)]
pub struct Schema {
    pub columns: Vec<Column>,
}

impl View for Schema {
    type V = Seq<ColumnView>;

    open spec fn view(&self) -> Seq<ColumnView> {
        column_views(self.columns@)
    }
}

/// Whether a row has a value for each column, of its type.
pub open spec fn row_fits(row: Seq<ValueView>, columns: Seq<ColumnView>) -> bool {
    row.len() == columns.len() && forall|i: int|
        0 <= i < row.len() ==> fits(#[trigger] row[i], columns[i].data_type)
}

impl Schema {
    pub fn new(columns: Vec<Column>) -> (schema: Schema)
        ensures
            schema@ == column_views(columns@),
    {
        Schema { columns }
    }

    /// The schema once more.
    pub fn copy(&self) -> (copy: Schema)
        ensures
            copy@ == self@,
    {
        let mut columns: Vec<Column> = Vec::new();
        let length: usize = self.columns.len();
        let mut index: usize = 0;
        while index < length
            invariant
                index <= length == self.columns@.len(),
                columns@.len() == index,
                forall|i: int| 0 <= i < index ==> (#[trigger] columns@[i])@ == self.columns@[i]@,
            decreases length - index,
        {
            let column = &self.columns[index];
            columns.push(Column { name: copy_text(&column.name), data_type: column.data_type });
            index = index + 1;
        }
        let copy = Schema { columns };
        assert(copy@ =~= self@);
        copy
    }

    /// The first column with a name.
    pub fn get_column_index(&self, name: &str) -> (place: Option<usize>)
        ensures
            match place {
                Some(place) => place_of(self@, name@) == Some(place as int) && place
                    < self.columns@.len(),
                None => place_of(self@, name@) is None,
            },
    {
        find_column(&self.columns, name)
    }

    /// Whether a row fits the schema.
    pub fn validate_row(&self, row: &Row) -> (yes: bool)
        ensures
            yes == row_fits(row@, self@),
    {
        if row.values.len() != self.columns.len() {
            return false;
        }
        let length: usize = self.columns.len();
        let mut index: usize = 0;
        while index < length
            invariant
                index <= length == self.columns@.len() == row.values@.len(),
                forall|i: int|
                    0 <= i < index ==> fits(#[trigger] row@[i], self@[i].data_type),
            decreases length - index,
        {
            if !row.values[index].matches_type(&self.columns[index].data_type) {
                assert(!fits(row@[index as int], self@[index as int].data_type));
                return false;
            }
            assert(row@[index as int] == row.values@[index as int]@);
            index = index + 1;
        }
        true
    }
}

} // verus!
