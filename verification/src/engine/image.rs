//! The stored forms of rows and schemas.
//!
//! Numbers are big-endian. Text is its length in four bytes and its UTF-8 bytes. A row is a format
//! version, the number of values, and the values, each a tag and its content. A schema is a format
//! version, the table's numbers and name, and its columns.
use crate::bytes;
use crate::bytes::{copy_range, get_be, put_be, put_bytes};
use crate::engine::error::{EngineError, EngineErrorView};
use crate::engine::float;
use crate::engine::schema;
use crate::engine::schema::{ColumnSchema, ColumnView, LogicalType, TableSchema, TableView};
use crate::engine::value;
use crate::engine::value::{Value, ValueView};
use crate::text;
use crate::text::{text_from_utf8, text_with_number};
use vstd::prelude::*;
use vstd::string::*;
use vstd::utf8::{decode_utf8, encode_utf8, valid_utf8};

verus! {

/// The version of the stored form of rows.
pub const ROW_FORMAT_VERSION: u16 = 1;

/// The integer whose bits are given.
pub open spec fn integer_of(bits: u64) -> i64 {
    if bits < float::SIGN {
        bits as i64
    } else {
        (bits - 0x1_0000_0000_0000_0000) as i64
    }
}

pub open spec fn text_image(text: Seq<char>) -> Seq<u8> {
    bytes::be_bytes(encode_utf8(text).len(), 4) + encode_utf8(text)
}

pub open spec fn value_image(value: ValueView) -> Seq<u8> {
    match value {
        ValueView::Null => seq![0u8],
        ValueView::Boolean(value) => seq![1u8] + seq![if value { 1u8 } else { 0u8 }],
        ValueView::Integer(value) => seq![2u8] + bytes::be_bytes(
            float::integer_bits(value) as nat,
            8,
        ),
        ValueView::Float(bits) => seq![3u8] + bytes::be_bytes(bits as nat, 8),
        ValueView::Text(text) => seq![4u8] + text_image(text),
    }
}

pub open spec fn values_image(values: Seq<ValueView>) -> Seq<u8>
    decreases values.len(),
{
    if values.len() == 0 {
        Seq::empty()
    } else {
        values_image(values.drop_last()) + value_image(values.last())
    }
}

pub open spec fn row_image(values: Seq<ValueView>) -> Seq<u8> {
    bytes::be_bytes(ROW_FORMAT_VERSION as nat, 2) + (bytes::be_bytes(values.len(), 4)
        + values_image(values))
}

/// Whether text fits the length field in front of it.
pub open spec fn text_fits(text: Seq<char>) -> bool {
    encode_utf8(text).len() <= u32::MAX
}

pub open spec fn value_fits(value: ValueView) -> bool {
    value matches ValueView::Text(text) ==> text_fits(text)
}

/// Whether a row can be stored.
pub open spec fn row_fits(values: Seq<ValueView>) -> bool {
    values.len() <= u32::MAX && forall|i: int|
        0 <= i < values.len() ==> value_fits(#[trigger] values[i])
}

pub open spec fn type_image(data_type: LogicalType) -> Seq<u8> {
    match data_type {
        LogicalType::Unknown => seq![0u8],
        LogicalType::Boolean => seq![1u8],
        LogicalType::Int64 => seq![2u8],
        LogicalType::Float64 => seq![3u8],
        LogicalType::Text { max_length: None } => seq![4u8],
        LogicalType::Text { max_length: Some(maximum) } => seq![5u8] + bytes::be_bytes(
            maximum as nat,
            4,
        ),
    }
}

pub open spec fn flag(set: bool) -> u8 {
    if set {
        1
    } else {
        0
    }
}

pub open spec fn column_image(column: ColumnView) -> Seq<u8> {
    seq![flag(column.nullable), flag(column.primary_key), flag(column.unique)] + (text_image(
        column.name,
    ) + type_image(column.data_type))
}

pub open spec fn columns_image(columns: Seq<ColumnView>) -> Seq<u8>
    decreases columns.len(),
{
    if columns.len() == 0 {
        Seq::empty()
    } else {
        columns_image(columns.drop_last()) + column_image(columns.last())
    }
}

/// The primary key's position as a number: none is zero.
pub open spec fn primary_number(primary_key: Option<usize>) -> nat {
    match primary_key {
        None => 0,
        Some(position) => position as nat + 1,
    }
}

pub open spec fn schema_image(table: TableView) -> Seq<u8> {
    bytes::be_bytes(table.format_version as nat, 2) + (bytes::be_bytes(table.id as nat, 8) + (
    bytes::be_bytes(table.next_row_id as nat, 8) + (bytes::be_bytes(
        primary_number(table.primary_key),
        4,
    ) + (text_image(table.name) + (bytes::be_bytes(table.columns.len(), 4) + columns_image(
        table.columns,
    ))))))
}

/// Whether a schema can be stored: its lengths fit their fields, and the primary key is a column.
pub open spec fn schema_fits(table: TableView) -> bool {
    &&& table.columns.len() <= u32::MAX
    &&& text_fits(table.name)
    &&& forall|i: int| 0 <= i < table.columns.len() ==> text_fits((#[trigger] table.columns[i]).name)
    &&& table.primary_key matches Some(position) ==> position < table.columns.len()
}

// Reading, from a position on: what is there, and the position behind it.

pub open spec fn number_at(image: Seq<u8>, at: int, width: int) -> Option<(u64, int)> {
    if 0 <= at && at + width <= image.len() {
        Some((bytes::be_field(image, at, width) as u64, at + width))
    } else {
        None
    }
}

pub open spec fn text_at(image: Seq<u8>, at: int) -> Option<(Seq<char>, int)> {
    match number_at(image, at, 4) {
        None => None,
        Some((length, start)) => {
            let end = start + length;
            if end <= image.len() && valid_utf8(image.subrange(start, end)) {
                Some((decode_utf8(image.subrange(start, end)), end))
            } else {
                None
            }
        },
    }
}

pub open spec fn flag_at(image: Seq<u8>, at: int) -> Option<(bool, int)> {
    match number_at(image, at, 1) {
        Some((0, next)) => Some((false, next)),
        Some((1, next)) => Some((true, next)),
        _ => None,
    }
}

pub open spec fn value_at(image: Seq<u8>, at: int) -> Option<(ValueView, int)> {
    match number_at(image, at, 1) {
        Some((0, next)) => Some((ValueView::Null, next)),
        Some((1, next)) => match flag_at(image, next) {
            Some((set, end)) => Some((ValueView::Boolean(set), end)),
            None => None,
        },
        Some((2, next)) => match number_at(image, next, 8) {
            Some((bits, end)) => Some((ValueView::Integer(integer_of(bits)), end)),
            None => None,
        },
        Some((3, next)) => match number_at(image, next, 8) {
            Some((bits, end)) => Some((ValueView::Float(bits), end)),
            None => None,
        },
        Some((4, next)) => match text_at(image, next) {
            Some((text, end)) => Some((ValueView::Text(text), end)),
            None => None,
        },
        _ => None,
    }
}

pub open spec fn values_at(image: Seq<u8>, at: int, count: nat) -> Option<(Seq<ValueView>, int)>
    decreases count,
{
    if count == 0 {
        Some((Seq::empty(), at))
    } else {
        match values_at(image, at, (count - 1) as nat) {
            None => None,
            Some((values, next)) => match value_at(image, next) {
                None => None,
                Some((value, end)) => Some((values.push(value), end)),
            },
        }
    }
}

/// The row that an image holds.
pub open spec fn row_decoded(image: Seq<u8>) -> Result<Seq<ValueView>, EngineErrorView> {
    match number_at(image, 0, 2) {
        None => Err(EngineErrorView::Encoding("malformed row"@)),
        Some((version, next)) => if version != ROW_FORMAT_VERSION {
            Err(
                EngineErrorView::CorruptRecord(
                    "unsupported row format version "@ + text::decimal(version as nat) + ""@,
                ),
            )
        } else {
            match number_at(image, next, 4) {
                None => Err(EngineErrorView::Encoding("malformed row"@)),
                Some((count, start)) => match values_at(image, start, count as nat) {
                    Some((values, end)) if end == image.len() => Ok(values),
                    _ => Err(EngineErrorView::Encoding("malformed row"@)),
                },
            }
        },
    }
}

pub open spec fn type_at(image: Seq<u8>, at: int) -> Option<(LogicalType, int)> {
    match number_at(image, at, 1) {
        Some((0, next)) => Some((LogicalType::Unknown, next)),
        Some((1, next)) => Some((LogicalType::Boolean, next)),
        Some((2, next)) => Some((LogicalType::Int64, next)),
        Some((3, next)) => Some((LogicalType::Float64, next)),
        Some((4, next)) => Some((LogicalType::Text { max_length: None }, next)),
        Some((5, next)) => match number_at(image, next, 4) {
            Some((maximum, end)) => Some(
                (LogicalType::Text { max_length: Some(maximum as u32) }, end),
            ),
            None => None,
        },
        _ => None,
    }
}

pub open spec fn column_at(image: Seq<u8>, at: int) -> Option<(ColumnView, int)> {
    match flag_at(image, at) {
        None => None,
        Some((nullable, second)) => match flag_at(image, second) {
            None => None,
            Some((primary_key, third)) => match flag_at(image, third) {
                None => None,
                Some((unique, fourth)) => match text_at(image, fourth) {
                    None => None,
                    Some((name, fifth)) => match type_at(image, fifth) {
                        None => None,
                        Some((data_type, end)) => Some(
                            (
                                ColumnView { name, data_type, nullable, primary_key, unique },
                                end,
                            ),
                        ),
                    },
                },
            },
        },
    }
}

pub open spec fn columns_at(image: Seq<u8>, at: int, count: nat) -> Option<(Seq<ColumnView>, int)>
    decreases count,
{
    if count == 0 {
        Some((Seq::empty(), at))
    } else {
        match columns_at(image, at, (count - 1) as nat) {
            None => None,
            Some((columns, next)) => match column_at(image, next) {
                None => None,
                Some((column, end)) => Some((columns.push(column), end)),
            },
        }
    }
}

/// The table that the part of an image behind the format version holds.
pub open spec fn table_at(image: Seq<u8>, version: u16, at: int) -> Option<TableView> {
    match number_at(image, at, 8) {
        None => None,
        Some((id, second)) => match number_at(image, second, 8) {
            None => None,
            Some((next_row_id, third)) => match number_at(image, third, 4) {
                None => None,
                Some((primary, fourth)) => match text_at(image, fourth) {
                    None => None,
                    Some((name, fifth)) => match number_at(image, fifth, 4) {
                        None => None,
                        Some((count, start)) => match columns_at(image, start, count as nat) {
                            None => None,
                            Some((columns, end)) => if end == image.len() && primary <= count {
                                Some(
                                    TableView {
                                        format_version: version,
                                        id,
                                        name,
                                        columns,
                                        primary_key: if primary == 0 {
                                            None
                                        } else {
                                            Some((primary - 1) as usize)
                                        },
                                        next_row_id,
                                    },
                                )
                            } else {
                                None
                            },
                        },
                    },
                },
            },
        },
    }
}

/// The schema that an image holds.
pub open spec fn schema_decoded(image: Seq<u8>) -> Result<TableView, EngineErrorView> {
    match number_at(image, 0, 2) {
        None => Err(EngineErrorView::Encoding("malformed schema"@)),
        Some((version, next)) => if version != schema::SCHEMA_FORMAT_VERSION {
            Err(
                EngineErrorView::CorruptRecord(
                    "unsupported schema format version "@ + text::decimal(version as nat) + ""@,
                ),
            )
        } else {
            match table_at(image, version as u16, next) {
                None => Err(EngineErrorView::Encoding("malformed schema"@)),
                Some(table) => Ok(table),
            }
        },
    }
}

pub proof fn lemma_columns_count(image: Seq<u8>, at: int, count: nat)
    ensures
        columns_at(image, at, count) matches Some(pair) ==> pair.0.len() == count,
    decreases count,
{
    if count > 0 {
        lemma_columns_count(image, at, (count - 1) as nat);
    }
}

/// The primary key of a schema that was read is one of its columns.
pub proof fn lemma_decoded_primary(image: Seq<u8>)
    ensures
        schema_decoded(image) matches Ok(table) ==> (table.primary_key matches Some(position) ==>
            position < table.columns.len()),
{
    if let Some((id, second)) = number_at(image, 2, 8) {
        if let Some((next_row_id, third)) = number_at(image, second, 8) {
            if let Some((primary, fourth)) = number_at(image, third, 4) {
                if let Some((name, fifth)) = text_at(image, fourth) {
                    if let Some((count, start)) = number_at(image, fifth, 4) {
                        lemma_columns_count(image, start, count as nat);
                        bytes::lemma_byte_limits();
                        bytes::lemma_be_canonical(image.subrange(third, third + 4));
                    }
                }
            }
        }
    }
}

// What was written is read back.

spec fn holds(image: Seq<u8>, at: int, piece: Seq<u8>) -> bool {
    0 <= at && at + piece.len() <= image.len() && image.subrange(at, at + piece.len()) == piece
}

proof fn lemma_holds_parts(image: Seq<u8>, at: int, first: Seq<u8>, second: Seq<u8>)
    requires
        holds(image, at, first + second),
    ensures
        holds(image, at, first),
        holds(image, at + first.len(), second),
{
    let whole = image.subrange(at, at + (first + second).len());
    assert(image.subrange(at, at + first.len()) =~= first) by {
        assert(forall|i: int| 0 <= i < first.len() ==> whole[i] == first[i]);
    }
    assert(image.subrange(at + first.len(), at + first.len() + second.len()) =~= second) by {
        assert forall|i: int| 0 <= i < second.len() implies image[at + first.len() + i]
            == #[trigger] second[i] by {
            assert(whole[first.len() + i] == (first + second)[first.len() + i]);
        }
    }
}

proof fn lemma_number(image: Seq<u8>, at: int, value: nat, width: nat)
    requires
        holds(image, at, bytes::be_bytes(value, width)),
        value < bytes::byte_limit(width),
        width <= 8,
    ensures
        number_at(image, at, width as int) == Some((value as u64, at + width)),
        value <= u64::MAX,
{
    bytes::lemma_byte_limits();
    bytes::lemma_byte_limit_mono(width, 8);
    bytes::lemma_be_round_trip(value, width);
}

proof fn lemma_byte(image: Seq<u8>, at: int, value: u8)
    requires
        holds(image, at, seq![value]),
    ensures
        number_at(image, at, 1) == Some((value as u64, at + 1)),
{
    bytes::lemma_byte_limits();
    assert(bytes::be_bytes(value as nat, 1) =~= seq![value]) by {
        reveal_with_fuel(bytes::be_bytes, 2);
    }
    lemma_number(image, at, value as nat, 1);
}

proof fn lemma_text(image: Seq<u8>, at: int, text: Seq<char>)
    requires
        holds(image, at, text_image(text)),
        text_fits(text),
    ensures
        text_at(image, at) == Some((text, at + text_image(text).len())),
{
    broadcast use vstd::utf8::encode_utf8_decode_utf8, vstd::utf8::encode_utf8_valid_utf8;

    bytes::lemma_byte_limits();
    let content = encode_utf8(text);
    lemma_holds_parts(image, at, bytes::be_bytes(content.len(), 4), content);
    bytes::lemma_be_round_trip(content.len(), 4);
    lemma_number(image, at, content.len(), 4);
    assert(valid_utf8(content));
    assert(decode_utf8(content) == text);
}

proof fn lemma_value(image: Seq<u8>, at: int, value: ValueView)
    requires
        holds(image, at, value_image(value)),
        value_fits(value),
    ensures
        value_at(image, at) == Some((value, at + value_image(value).len())),
{
    bytes::lemma_byte_limits();
    match value {
        ValueView::Null => {
            lemma_byte(image, at, 0);
        },
        ValueView::Boolean(set) => {
            lemma_holds_parts(image, at, seq![1u8], seq![flag(set)]);
            lemma_byte(image, at, 1);
            lemma_byte(image, at + 1, flag(set));
        },
        ValueView::Integer(number) => {
            let bits = float::integer_bits(number) as nat;
            lemma_holds_parts(image, at, seq![2u8], bytes::be_bytes(bits, 8));
            lemma_byte(image, at, 2);
            lemma_number(image, at + 1, bits, 8);
            bytes::lemma_be_round_trip(bits, 8);
        },
        ValueView::Float(bits) => {
            lemma_holds_parts(image, at, seq![3u8], bytes::be_bytes(bits as nat, 8));
            lemma_byte(image, at, 3);
            lemma_number(image, at + 1, bits as nat, 8);
            bytes::lemma_be_round_trip(bits as nat, 8);
        },
        ValueView::Text(text) => {
            lemma_holds_parts(image, at, seq![4u8], text_image(text));
            lemma_byte(image, at, 4);
            lemma_text(image, at + 1, text);
        },
    }
}

proof fn lemma_values(image: Seq<u8>, at: int, values: Seq<ValueView>)
    requires
        holds(image, at, values_image(values)),
        forall|i: int| 0 <= i < values.len() ==> value_fits(#[trigger] values[i]),
    ensures
        values_at(image, at, values.len()) == Some((values, at + values_image(values).len())),
    decreases values.len(),
{
    if values.len() > 0 {
        let front = values.drop_last();
        lemma_holds_parts(image, at, values_image(front), value_image(values.last()));
        assert forall|i: int| 0 <= i < front.len() implies value_fits(#[trigger] front[i]) by {
            assert(front[i] == values[i]);
        }
        lemma_values(image, at, front);
        assert(value_fits(values[values.len() - 1]));
        lemma_value(image, at + values_image(front).len(), values.last());
        assert(front.push(values.last()) =~= values);
    }
}

/// A stored row reads back as it was written.
pub proof fn law_row_round_trip(values: Seq<ValueView>)
    requires
        row_fits(values),
    ensures
        row_decoded(row_image(values)) == Ok::<Seq<ValueView>, EngineErrorView>(values),
{
    bytes::lemma_byte_limits();
    let image = row_image(values);
    let version = bytes::be_bytes(ROW_FORMAT_VERSION as nat, 2);
    let count = bytes::be_bytes(values.len(), 4);
    bytes::lemma_be_round_trip(ROW_FORMAT_VERSION as nat, 2);
    bytes::lemma_be_round_trip(values.len(), 4);
    assert(image.subrange(0, image.len() as int) =~= image);
    lemma_holds_parts(image, 0, version, count + values_image(values));
    lemma_holds_parts(image, 2, count, values_image(values));
    lemma_number(image, 0, ROW_FORMAT_VERSION as nat, 2);
    lemma_number(image, 2, values.len(), 4);
    lemma_values(image, 6, values);
}

proof fn lemma_type(image: Seq<u8>, at: int, data_type: LogicalType)
    requires
        holds(image, at, type_image(data_type)),
    ensures
        type_at(image, at) == Some((data_type, at + type_image(data_type).len())),
{
    bytes::lemma_byte_limits();
    match data_type {
        LogicalType::Unknown => {
            lemma_byte(image, at, 0);
        },
        LogicalType::Boolean => {
            lemma_byte(image, at, 1);
        },
        LogicalType::Int64 => {
            lemma_byte(image, at, 2);
        },
        LogicalType::Float64 => {
            lemma_byte(image, at, 3);
        },
        LogicalType::Text { max_length: None } => {
            lemma_byte(image, at, 4);
        },
        LogicalType::Text { max_length: Some(maximum) } => {
            lemma_holds_parts(image, at, seq![5u8], bytes::be_bytes(maximum as nat, 4));
            lemma_byte(image, at, 5);
            lemma_number(image, at + 1, maximum as nat, 4);
            bytes::lemma_be_round_trip(maximum as nat, 4);
        },
    }
}

proof fn lemma_column(image: Seq<u8>, at: int, column: ColumnView)
    requires
        holds(image, at, column_image(column)),
        text_fits(column.name),
    ensures
        column_at(image, at) == Some((column, at + column_image(column).len())),
{
    let flags = seq![flag(column.nullable), flag(column.primary_key), flag(column.unique)];
    let rest = text_image(column.name) + type_image(column.data_type);
    lemma_holds_parts(image, at, flags, rest);
    assert(flags =~= seq![flag(column.nullable)] + (seq![flag(column.primary_key)] + seq![
        flag(column.unique),
    ]));
    lemma_holds_parts(
        image,
        at,
        seq![flag(column.nullable)],
        seq![flag(column.primary_key)] + seq![flag(column.unique)],
    );
    lemma_holds_parts(image, at + 1, seq![flag(column.primary_key)], seq![flag(column.unique)]);
    lemma_byte(image, at, flag(column.nullable));
    lemma_byte(image, at + 1, flag(column.primary_key));
    lemma_byte(image, at + 2, flag(column.unique));
    lemma_holds_parts(image, at + 3, text_image(column.name), type_image(column.data_type));
    lemma_text(image, at + 3, column.name);
    lemma_type(image, at + 3 + text_image(column.name).len(), column.data_type);
}

proof fn lemma_columns(image: Seq<u8>, at: int, columns: Seq<ColumnView>)
    requires
        holds(image, at, columns_image(columns)),
        forall|i: int| 0 <= i < columns.len() ==> text_fits((#[trigger] columns[i]).name),
    ensures
        columns_at(image, at, columns.len()) == Some((columns, at + columns_image(columns).len())),
    decreases columns.len(),
{
    if columns.len() > 0 {
        let front = columns.drop_last();
        lemma_holds_parts(image, at, columns_image(front), column_image(columns.last()));
        assert forall|i: int| 0 <= i < front.len() implies text_fits((#[trigger] front[i]).name) by {
            assert(front[i] == columns[i]);
        }
        lemma_columns(image, at, front);
        assert(text_fits(columns[columns.len() - 1].name));
        lemma_column(image, at + columns_image(front).len(), columns.last());
        assert(front.push(columns.last()) =~= columns);
    }
}

/// A stored schema reads back as it was written.
#[verifier::spinoff_prover]
#[verifier::rlimit(60)]
pub proof fn law_schema_round_trip(table: TableView)
    requires
        schema_fits(table),
        table.format_version == schema::SCHEMA_FORMAT_VERSION,
    ensures
        schema_decoded(schema_image(table)) == Ok::<TableView, EngineErrorView>(table),
{
    bytes::lemma_byte_limits();
    let image = schema_image(table);
    let a = bytes::be_bytes(table.format_version as nat, 2);
    let b = bytes::be_bytes(table.id as nat, 8);
    let c = bytes::be_bytes(table.next_row_id as nat, 8);
    let d = bytes::be_bytes(primary_number(table.primary_key), 4);
    let e = text_image(table.name);
    let f = bytes::be_bytes(table.columns.len(), 4);
    let g = columns_image(table.columns);
    bytes::lemma_be_round_trip(table.format_version as nat, 2);
    bytes::lemma_be_round_trip(table.id as nat, 8);
    bytes::lemma_be_round_trip(table.next_row_id as nat, 8);
    bytes::lemma_be_round_trip(primary_number(table.primary_key), 4);
    bytes::lemma_be_round_trip(table.columns.len(), 4);
    assert(image.subrange(0, image.len() as int) =~= image);
    lemma_holds_parts(image, 0, a, b + (c + (d + (e + (f + g)))));
    lemma_holds_parts(image, 2, b, c + (d + (e + (f + g))));
    lemma_holds_parts(image, 10, c, d + (e + (f + g)));
    lemma_holds_parts(image, 18, d, e + (f + g));
    lemma_holds_parts(image, 22, e, f + g);
    lemma_holds_parts(image, (22 + e.len()) as int, f, g);
    lemma_number(image, 0, table.format_version as nat, 2);
    lemma_number(image, 2, table.id as nat, 8);
    lemma_number(image, 10, table.next_row_id as nat, 8);
    lemma_number(image, 18, primary_number(table.primary_key), 4);
    lemma_text(image, 22, table.name);
    lemma_number(image, (22 + e.len()) as int, table.columns.len(), 4);
    lemma_columns(image, (26 + e.len()) as int, table.columns);
}

// Writing.

fn put_text(out: &mut Vec<u8>, content: &str) -> (done: bool)
    ensures
        done == text_fits(content@),
        done ==> final(out)@ == old(out)@ + text_image(content@),
{
    let encoded = content.as_bytes();
    if encoded.len() as u64 > u32::MAX as u64 {
        return false;
    }
    put_be(out, encoded.len() as u64, 4);
    put_bytes(out, encoded);
    assert(out@ =~= old(out)@ + text_image(content@));
    true
}

fn put_value(out: &mut Vec<u8>, value: &Value) -> (done: bool)
    ensures
        done == value_fits(value@),
        done ==> final(out)@ == old(out)@ + value_image(value@),
{
    let ghost before = out@;
    let done = match value {
        Value::Null => {
            out.push(0);
            true
        },
        Value::Boolean(set) => {
            out.push(1);
            out.push(if *set { 1 } else { 0 });
            true
        },
        Value::Integer(number) => {
            out.push(2);
            put_be(out, float::conversion_of(*number).left, 8);
            true
        },
        Value::Float(bits) => {
            out.push(3);
            put_be(out, *bits, 8);
            true
        },
        Value::Text(content) => {
            out.push(4);
            put_text(out, content.as_str())
        },
    };
    assert(done ==> out@ =~= before + value_image(value@));
    done
}

/// The stored form of a row.
pub fn encode_row(values: &[Value]) -> (image: Result<Vec<u8>, EngineError>)
    ensures
        match image {
            Ok(image) => row_fits(value::value_views(values@)) && image@ == row_image(
                value::value_views(values@),
            ),
            Err(error) => !row_fits(value::value_views(values@)) && error@
                == EngineErrorView::Encoding("row is too large"@),
        },
{
    let ghost views = value::value_views(values@);
    if values.len() as u64 > u32::MAX as u64 {
        return Err(EngineError::Encoding(String::from_str("row is too large")));
    }
    let mut out: Vec<u8> = Vec::new();
    put_be(&mut out, ROW_FORMAT_VERSION as u64, 2);
    put_be(&mut out, values.len() as u64, 4);
    let ghost head = out@;
    let mut index: usize = 0;
    proof {
        assert(views.take(0) =~= Seq::empty());
        assert(out@ =~= head + values_image(views.take(0)));
    }
    while index < values.len()
        invariant
            index <= values@.len(),
            views == value::value_views(values@),
            out@ == head + values_image(views.take(index as int)),
            forall|i: int| 0 <= i < index ==> value_fits(#[trigger] views[i]),
        decreases values@.len() - index,
    {
        if !put_value(&mut out, &values[index]) {
            assert(!value_fits(views[index as int]));
            return Err(EngineError::Encoding(String::from_str("row is too large")));
        }
        proof {
            let more = views.take(index + 1);
            assert(more.drop_last() =~= views.take(index as int));
            assert(out@ =~= head + values_image(more));
        }
        index = index + 1;
    }
    proof {
        assert(views.take(index as int) =~= views);
        assert(out@ =~= row_image(views));
    }
    Ok(out)
}

fn put_column(out: &mut Vec<u8>, column: &ColumnSchema) -> (done: bool)
    ensures
        done == text_fits(column.name@),
        done ==> final(out)@ == old(out)@ + column_image(column@),
{
    let ghost before = out@;
    out.push(if column.nullable { 1 } else { 0 });
    out.push(if column.primary_key { 1 } else { 0 });
    out.push(if column.unique { 1 } else { 0 });
    if !put_text(out, column.name.as_str()) {
        return false;
    }
    match column.data_type {
        LogicalType::Unknown => out.push(0),
        LogicalType::Boolean => out.push(1),
        LogicalType::Int64 => out.push(2),
        LogicalType::Float64 => out.push(3),
        LogicalType::Text { max_length: None } => out.push(4),
        LogicalType::Text { max_length: Some(maximum) } => {
            out.push(5);
            put_be(out, maximum as u64, 4);
        },
    }
    assert(out@ =~= before + column_image(column@));
    true
}

/// The stored form of a schema.
pub fn encode_schema(table: &TableSchema) -> (image: Result<Vec<u8>, EngineError>)
    ensures
        match image {
            Ok(image) => schema_fits(table@) && image@ == schema_image(table@),
            Err(error) => !schema_fits(table@) && error@ == EngineErrorView::Encoding(
                "schema is too large"@,
            ),
        },
{
    let ghost view = table@;
    if table.columns.len() as u64 > u32::MAX as u64 {
        return Err(EngineError::Encoding(String::from_str("schema is too large")));
    }
    let primary: u64 = match table.primary_key {
        None => 0,
        Some(position) => {
            if position >= table.columns.len() {
                return Err(EngineError::Encoding(String::from_str("schema is too large")));
            }
            position as u64 + 1
        },
    };
    let mut out: Vec<u8> = Vec::new();
    put_be(&mut out, table.format_version as u64, 2);
    put_be(&mut out, table.id, 8);
    put_be(&mut out, table.next_row_id, 8);
    put_be(&mut out, primary, 4);
    if !put_text(&mut out, table.name.as_str()) {
        return Err(EngineError::Encoding(String::from_str("schema is too large")));
    }
    put_be(&mut out, table.columns.len() as u64, 4);
    let ghost head = out@;
    let mut index: usize = 0;
    proof {
        assert(view.columns.take(0) =~= Seq::empty());
        assert(out@ =~= head + columns_image(view.columns.take(0)));
    }
    while index < table.columns.len()
        invariant
            index <= table.columns@.len(),
            view == table@,
            out@ == head + columns_image(view.columns.take(index as int)),
            forall|i: int| 0 <= i < index ==> text_fits((#[trigger] view.columns[i]).name),
        decreases table.columns@.len() - index,
    {
        assert(view.columns[index as int] == table.columns@[index as int]@);
        if !put_column(&mut out, &table.columns[index]) {
            return Err(EngineError::Encoding(String::from_str("schema is too large")));
        }
        proof {
            let more = view.columns.take(index + 1);
            assert(more.drop_last() =~= view.columns.take(index as int));
            assert(out@ =~= head + columns_image(more));
        }
        index = index + 1;
    }
    proof {
        assert(view.columns.take(index as int) =~= view.columns);
        assert(out@ =~= schema_image(view));
    }
    Ok(out)
}

// Reading.

fn read_number(image: &[u8], at: usize, width: usize) -> (found: Option<(u64, usize)>)
    requires
        at <= image@.len(),
        width <= 8,
    ensures
        match found {
            Some(pair) => number_at(image@, at as int, width as int) == Some(
                (pair.0, pair.1 as int),
            ) && pair.1 <= image@.len() && pair.0 < bytes::byte_limit(width as nat),
            None => number_at(image@, at as int, width as int) is None,
        },
{
    if image.len() - at < width {
        return None;
    }
    Some((get_be(image, at, width), at + width))
}

fn read_text(image: &[u8], at: usize) -> (found: Option<(String, usize)>)
    requires
        at <= image@.len(),
    ensures
        match found {
            Some(pair) => text_at(image@, at as int) == Some((pair.0@, pair.1 as int)) && pair.1
                <= image@.len(),
            None => text_at(image@, at as int) is None,
        },
{
    let (length, start) = match read_number(image, at, 4) {
        None => {
            return None;
        },
        Some(pair) => pair,
    };
    if ((image.len() - start) as u64) < length {
        return None;
    }
    let end: usize = start + length as usize;
    match text_from_utf8(copy_range(image, start, end)) {
        None => None,
        Some(content) => Some((content, end)),
    }
}

fn read_flag(image: &[u8], at: usize) -> (found: Option<(bool, usize)>)
    requires
        at <= image@.len(),
    ensures
        match found {
            Some(pair) => flag_at(image@, at as int) == Some((pair.0, pair.1 as int)) && pair.1
                <= image@.len(),
            None => flag_at(image@, at as int) is None,
        },
{
    match read_number(image, at, 1) {
        Some((0, next)) => Some((false, next)),
        Some((1, next)) => Some((true, next)),
        _ => None,
    }
}

fn read_value(image: &[u8], at: usize) -> (found: Option<(Value, usize)>)
    requires
        at <= image@.len(),
    ensures
        match found {
            Some(pair) => value_at(image@, at as int) == Some((pair.0@, pair.1 as int)) && pair.1
                <= image@.len(),
            None => value_at(image@, at as int) is None,
        },
{
    proof {
        bytes::lemma_byte_limits();
    }
    let (tag, next) = match read_number(image, at, 1) {
        None => {
            return None;
        },
        Some(pair) => pair,
    };
    if tag == 0 {
        Some((Value::Null, next))
    } else if tag == 1 {
        match read_flag(image, next) {
            Some((set, end)) => Some((Value::Boolean(set), end)),
            None => None,
        }
    } else if tag == 2 {
        match read_number(image, next, 8) {
            Some((bits, end)) => {
                let number: i64 = if bits < float::SIGN {
                    bits as i64
                } else {
                    (bits as i128 - 0x1_0000_0000_0000_0000) as i64
                };
                Some((Value::Integer(number), end))
            },
            None => None,
        }
    } else if tag == 3 {
        match read_number(image, next, 8) {
            Some((bits, end)) => Some((Value::Float(bits), end)),
            None => None,
        }
    } else if tag == 4 {
        match read_text(image, next) {
            Some((content, end)) => Some((Value::Text(content), end)),
            None => None,
        }
    } else {
        None
    }
}

proof fn lemma_values_stop(image: Seq<u8>, at: int, few: nat, many: nat)
    requires
        values_at(image, at, few) is None,
        few <= many,
    ensures
        values_at(image, at, many) is None,
    decreases many,
{
    if few < many {
        lemma_values_stop(image, at, few, (many - 1) as nat);
    }
}

fn read_values(image: &[u8], start: usize, count: u64) -> (found: Option<(Vec<Value>, usize)>)
    requires
        start <= image@.len(),
    ensures
        match found {
            Some(pair) => values_at(image@, start as int, count as nat) == Some(
                (value::value_views(pair.0@), pair.1 as int),
            ) && pair.1 <= image@.len(),
            None => values_at(image@, start as int, count as nat) is None,
        },
{
    let mut values: Vec<Value> = Vec::new();
    let mut at: usize = start;
    let mut index: u64 = 0;
    assert(value::value_views(values@) =~= Seq::empty());
    while index < count
        invariant
            index <= count,
            start <= image@.len(),
            at <= image@.len(),
            values_at(image@, start as int, index as nat) == Some(
                (value::value_views(values@), at as int),
            ),
        decreases count - index,
    {
        match read_value(image, at) {
            None => {
                proof {
                    lemma_values_stop(image@, start as int, (index + 1) as nat, count as nat);
                }
                return None;
            },
            Some((value, end)) => {
                let ghost before = value::value_views(values@);
                let ghost added = value@;
                values.push(value);
                assert(value::value_views(values@) =~= before.push(added));
                at = end;
            },
        }
        index = index + 1;
    }
    Some((values, at))
}

fn malformed_row() -> (error: EngineError)
    ensures
        error@ == EngineErrorView::Encoding("malformed row"@),
{
    EngineError::Encoding(String::from_str("malformed row"))
}

/// The row that a stored form holds.
pub fn decode_row(image: &[u8]) -> (row: Result<Vec<Value>, EngineError>)
    ensures
        match row {
            Ok(values) => row_decoded(image@) == Ok::<Seq<ValueView>, EngineErrorView>(
                value::value_views(values@),
            ),
            Err(error) => row_decoded(image@) == Err::<Seq<ValueView>, EngineErrorView>(error@),
        },
{
    let (version, next) = match read_number(image, 0, 2) {
        None => {
            return Err(malformed_row());
        },
        Some(pair) => pair,
    };
    if version != ROW_FORMAT_VERSION as u64 {
        return Err(
            EngineError::CorruptRecord(
                text_with_number("unsupported row format version ", version, ""),
            ),
        );
    }
    let (count, start) = match read_number(image, next, 4) {
        None => {
            return Err(malformed_row());
        },
        Some(pair) => pair,
    };
    let (values, at) = match read_values(image, start, count) {
        None => {
            return Err(malformed_row());
        },
        Some(pair) => pair,
    };
    if at != image.len() {
        return Err(malformed_row());
    }
    Ok(values)
}

fn read_type(image: &[u8], at: usize) -> (found: Option<(LogicalType, usize)>)
    requires
        at <= image@.len(),
    ensures
        match found {
            Some(pair) => type_at(image@, at as int) == Some((pair.0, pair.1 as int)) && pair.1
                <= image@.len(),
            None => type_at(image@, at as int) is None,
        },
{
    proof {
        bytes::lemma_byte_limits();
    }
    match read_number(image, at, 1) {
        Some((0, next)) => Some((LogicalType::Unknown, next)),
        Some((1, next)) => Some((LogicalType::Boolean, next)),
        Some((2, next)) => Some((LogicalType::Int64, next)),
        Some((3, next)) => Some((LogicalType::Float64, next)),
        Some((4, next)) => Some((LogicalType::Text { max_length: None }, next)),
        Some((5, next)) => match read_number(image, next, 4) {
            Some((maximum, end)) => Some(
                (LogicalType::Text { max_length: Some(maximum as u32) }, end),
            ),
            None => None,
        },
        _ => None,
    }
}

fn read_column(image: &[u8], at: usize) -> (found: Option<(ColumnSchema, usize)>)
    requires
        at <= image@.len(),
    ensures
        match found {
            Some(pair) => column_at(image@, at as int) == Some((pair.0@, pair.1 as int)) && pair.1
                <= image@.len(),
            None => column_at(image@, at as int) is None,
        },
{
    let (nullable, second) = match read_flag(image, at) {
        None => {
            return None;
        },
        Some(pair) => pair,
    };
    let (primary_key, third) = match read_flag(image, second) {
        None => {
            return None;
        },
        Some(pair) => pair,
    };
    let (unique, fourth) = match read_flag(image, third) {
        None => {
            return None;
        },
        Some(pair) => pair,
    };
    let (name, fifth) = match read_text(image, fourth) {
        None => {
            return None;
        },
        Some(pair) => pair,
    };
    let (data_type, end) = match read_type(image, fifth) {
        None => {
            return None;
        },
        Some(pair) => pair,
    };
    Some((ColumnSchema { name, data_type, nullable, primary_key, unique }, end))
}

proof fn lemma_columns_stop(image: Seq<u8>, at: int, few: nat, many: nat)
    requires
        columns_at(image, at, few) is None,
        few <= many,
    ensures
        columns_at(image, at, many) is None,
    decreases many,
{
    if few < many {
        lemma_columns_stop(image, at, few, (many - 1) as nat);
    }
}

fn read_columns(image: &[u8], start: usize, count: u64) -> (found: Option<(Vec<ColumnSchema>, usize)>)
    requires
        start <= image@.len(),
    ensures
        match found {
            Some(pair) => columns_at(image@, start as int, count as nat) == Some(
                (schema::column_views(pair.0@), pair.1 as int),
            ) && pair.1 <= image@.len(),
            None => columns_at(image@, start as int, count as nat) is None,
        },
{
    let mut columns: Vec<ColumnSchema> = Vec::new();
    let mut at: usize = start;
    let mut index: u64 = 0;
    assert(schema::column_views(columns@) =~= Seq::empty());
    while index < count
        invariant
            index <= count,
            start <= image@.len(),
            at <= image@.len(),
            columns_at(image@, start as int, index as nat) == Some(
                (schema::column_views(columns@), at as int),
            ),
        decreases count - index,
    {
        match read_column(image, at) {
            None => {
                proof {
                    lemma_columns_stop(image@, start as int, (index + 1) as nat, count as nat);
                }
                return None;
            },
            Some((column, end)) => {
                let ghost before = schema::column_views(columns@);
                let ghost added = column@;
                columns.push(column);
                assert(schema::column_views(columns@) =~= before.push(added));
                at = end;
            },
        }
        index = index + 1;
    }
    Some((columns, at))
}

fn read_table(image: &[u8], version: u16, at: usize) -> (found: Option<TableSchema>)
    requires
        at <= image@.len(),
    ensures
        match found {
            Some(table) => table_at(image@, version, at as int) == Some(table@),
            None => table_at(image@, version, at as int) is None,
        },
{
    proof {
        bytes::lemma_byte_limits();
    }
    let (id, second) = match read_number(image, at, 8) {
        None => {
            return None;
        },
        Some(pair) => pair,
    };
    let (next_row_id, third) = match read_number(image, second, 8) {
        None => {
            return None;
        },
        Some(pair) => pair,
    };
    let (primary, fourth) = match read_number(image, third, 4) {
        None => {
            return None;
        },
        Some(pair) => pair,
    };
    let (name, fifth) = match read_text(image, fourth) {
        None => {
            return None;
        },
        Some(pair) => pair,
    };
    let (count, start) = match read_number(image, fifth, 4) {
        None => {
            return None;
        },
        Some(pair) => pair,
    };
    let (columns, end) = match read_columns(image, start, count) {
        None => {
            return None;
        },
        Some(pair) => pair,
    };
    if end != image.len() || primary > count {
        return None;
    }
    let primary_key: Option<usize> = if primary == 0 {
        None
    } else {
        Some((primary - 1) as usize)
    };
    Some(TableSchema { format_version: version, id, name, columns, primary_key, next_row_id })
}

/// The schema that a stored form holds.
pub fn decode_schema(image: &[u8]) -> (table: Result<TableSchema, EngineError>)
    ensures
        match table {
            Ok(table) => schema_decoded(image@) == Ok::<TableView, EngineErrorView>(table@),
            Err(error) => schema_decoded(image@) == Err::<TableView, EngineErrorView>(error@),
        },
{
    let (version, next) = match read_number(image, 0, 2) {
        None => {
            return Err(EngineError::Encoding(String::from_str("malformed schema")));
        },
        Some(pair) => pair,
    };
    if version != schema::SCHEMA_FORMAT_VERSION as u64 {
        return Err(
            EngineError::CorruptRecord(
                text_with_number("unsupported schema format version ", version, ""),
            ),
        );
    }
    match read_table(image, version as u16, next) {
        None => Err(EngineError::Encoding(String::from_str("malformed schema"))),
        Some(table) => Ok(table),
    }
}

} // verus!
