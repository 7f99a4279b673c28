//! The messages that the server sends.
use crate::bytes;
use crate::bytes::{put_be, put_bytes};
use crate::engine::error;
use crate::engine::error::{EngineError, EngineErrorView};
use crate::engine::output;
use crate::engine::output::{
    OutputColumn,
    OutputColumnView,
    OutputView,
    StatementOutput,
    TransactionOutput,
};
use crate::engine::schema::LogicalType;
use crate::engine::session::SessionStatus;
use crate::engine::value;
use crate::engine::value::{copy_text, Value, ValueView};
use crate::mvcc::key_map::KeyMap;
use crate::server::pg::error::sqlstate;
use crate::server::pg::error as pg_error;
use crate::text;
use crate::text::{join_text, signed_text, text_with_number};
use vstd::prelude::*;
use vstd::string::*;
use vstd::utf8::encode_utf8;

verus! {

pub const OID_BOOL: u32 = 16;

pub const OID_INT8: u32 = 20;

pub const OID_TEXT: u32 = 25;

pub const OID_FLOAT8: u32 = 701;

/// A message: its kind, its length, which counts itself, and its body.
pub open spec fn message(kind: u8, body: Seq<u8>) -> Seq<u8> {
    seq![kind] + bytes::be_bytes(body.len() + 4, 4) + body
}

/// Text behind which a zero byte stands.
pub open spec fn ended_text(content: Seq<char>) -> Seq<u8> {
    encode_utf8(content).push(0)
}

pub open spec fn field(kind: u8, content: Seq<char>) -> Seq<u8> {
    seq![kind] + ended_text(content)
}

/// An error: its severity twice, its SQLSTATE and its text.
pub open spec fn error_message(code: Seq<char>, detail: Seq<char>) -> Seq<u8> {
    message(
        69,
        field(83, "ERROR"@) + field(86, "ERROR"@) + field(67, code) + field(77, detail) + seq![0u8],
    )
}

/// The message that says that the server waits for a query, and how the session stands.
pub open spec fn ready_message(status: SessionStatus) -> Seq<u8> {
    message(
        90,
        seq![
            match status {
                SessionStatus::Idle => 73u8,
                SessionStatus::InTransaction => 84u8,
                SessionStatus::Failed => 69u8,
            },
        ],
    )
}

pub open spec fn complete_message(tag: Seq<char>) -> Seq<u8> {
    message(67, ended_text(tag))
}

pub open spec fn parameter_message(name: Seq<char>, content: Seq<char>) -> Seq<u8> {
    message(83, ended_text(name) + ended_text(content))
}

pub open spec fn oid_of(data_type: LogicalType) -> u32 {
    match data_type {
        LogicalType::Boolean => OID_BOOL,
        LogicalType::Int64 => OID_INT8,
        LogicalType::Float64 => OID_FLOAT8,
        LogicalType::Text { .. } => OID_TEXT,
        LogicalType::Unknown => OID_TEXT,
    }
}

/// A column: its name, no table, its type, no size and text format.
pub open spec fn column_entry(column: OutputColumnView) -> Seq<u8> {
    ended_text(column.name) + bytes::be_bytes(0, 6) + bytes::be_bytes(
        oid_of(column.data_type) as nat,
        4,
    ) + bytes::be_bytes(0xffff, 2) + bytes::be_bytes(0xffff_ffff, 4) + bytes::be_bytes(0, 2)
}

pub open spec fn column_entries(columns: Seq<OutputColumnView>) -> Seq<u8>
    decreases columns.len(),
{
    if columns.len() == 0 {
        Seq::empty()
    } else {
        column_entries(columns.drop_last()) + column_entry(columns.last())
    }
}

pub open spec fn description_message(columns: Seq<OutputColumnView>) -> Seq<u8> {
    message(84, bytes::be_bytes(columns.len(), 2) + column_entries(columns))
}

/// How a value is shown; NULL is not. The texts of floats are given.
pub open spec fn shown(value: ValueView, texts: Map<u64, Seq<char>>) -> Option<Seq<char>> {
    match value {
        ValueView::Null => None,
        ValueView::Boolean(set) => Some(if set { "t"@ } else { "f"@ }),
        ValueView::Integer(number) => Some(text::signed_decimal(number as int)),
        ValueView::Float(bits) => Some(texts[bits]),
        ValueView::Text(content) => Some(content),
    }
}

/// A value in a row: its length and its text; NULL has no text and the length minus one.
pub open spec fn cell(value: ValueView, texts: Map<u64, Seq<char>>) -> Seq<u8> {
    match shown(value, texts) {
        Some(content) => bytes::be_bytes(encode_utf8(content).len(), 4) + encode_utf8(content),
        None => bytes::be_bytes(0xffff_ffff, 4),
    }
}

pub open spec fn cells(values: Seq<ValueView>, texts: Map<u64, Seq<char>>) -> Seq<u8>
    decreases values.len(),
{
    if values.len() == 0 {
        Seq::empty()
    } else {
        cells(values.drop_last(), texts) + cell(values.last(), texts)
    }
}

pub open spec fn row_message(values: Seq<ValueView>, texts: Map<u64, Seq<char>>) -> Seq<u8> {
    message(68, bytes::be_bytes(values.len(), 2) + cells(values, texts))
}

pub open spec fn row_messages(rows: Seq<Seq<ValueView>>, texts: Map<u64, Seq<char>>) -> Seq<u8>
    decreases rows.len(),
{
    if rows.len() == 0 {
        Seq::empty()
    } else {
        row_messages(rows.drop_last(), texts) + row_message(rows.last(), texts)
    }
}

/// The words that tell a client what a statement did.
pub open spec fn tag_of(given: OutputView) -> Seq<char> {
    match given {
        OutputView::Transaction(TransactionOutput::Begun) => "BEGIN"@,
        OutputView::Transaction(TransactionOutput::Committed) => "COMMIT"@,
        OutputView::Transaction(TransactionOutput::RolledBack) => "ROLLBACK"@,
        OutputView::Command { tag, affected_rows } => if tag == "INSERT"@ {
            "INSERT 0 "@ + text::decimal(affected_rows as nat) + ""@
        } else {
            tag + " "@ + text::decimal(affected_rows as nat)
        },
        OutputView::Query { columns, rows } => "SELECT "@ + text::decimal(rows.len()) + ""@,
    }
}

/// What a client gets of a statement: its rows, and that it is done.
pub open spec fn output_messages(given: OutputView, texts: Map<u64, Seq<char>>) -> Seq<u8> {
    match given {
        OutputView::Query { columns, rows } => row_messages(rows, texts) + complete_message(
            tag_of(given),
        ),
        _ => complete_message(tag_of(given)),
    }
}

/// What a client of the simple protocol gets of a statement: a query's columns come first.
pub open spec fn described_output(given: OutputView, texts: Map<u64, Seq<char>>) -> Seq<u8> {
    match given {
        OutputView::Query { columns, rows } => description_message(columns) + output_messages(
            given,
            texts,
        ),
        _ => output_messages(given, texts),
    }
}

pub open spec fn output_list(
    given: Seq<OutputView>,
    with_columns: bool,
    texts: Map<u64, Seq<char>>,
) -> Seq<u8>
    decreases given.len(),
{
    if given.len() == 0 {
        Seq::empty()
    } else {
        output_list(given.drop_last(), with_columns, texts) + if with_columns {
            described_output(given.last(), texts)
        } else {
            output_messages(given.last(), texts)
        }
    }
}

/// The messages that a client gets once its connection is accepted.
pub open spec fn welcome() -> Seq<u8> {
    message(82, bytes::be_bytes(0, 4)) + parameter_message(
        "server_version"@,
        "16.0 (QuantaDB 0.2)"@,
    ) + parameter_message("server_encoding"@, "UTF8"@) + parameter_message(
        "client_encoding"@,
        "UTF8"@,
    ) + parameter_message("DateStyle"@, "ISO, MDY"@) + message(
        75,
        bytes::be_bytes(1, 4) + bytes::be_bytes(1, 4),
    ) + ready_message(SessionStatus::Idle)
}

/// Appends a message.
pub fn put_message(out: &mut Vec<u8>, kind: u8, body: &[u8])
    ensures
        final(out)@ == old(out)@ + message(kind, body@),
{
    out.push(kind);
    let length: u64 = body.len() as u64 % 0x1_0000_0000 + 4;
    proof {
        bytes::lemma_byte_limits();
        bytes::lemma_be_low(length as nat, 4);
        bytes::lemma_be_low(body@.len() + 4, 4);
        assert((body@.len() + 4) % 0x1_0000_0000 == length as nat % 0x1_0000_0000);
    }
    put_be(out, length, 4);
    put_bytes(out, body);
    assert(out@ =~= old(out)@ + message(kind, body@));
}

fn put_ended(out: &mut Vec<u8>, content: &str)
    ensures
        final(out)@ == old(out)@ + ended_text(content@),
{
    put_bytes(out, content.as_bytes());
    out.push(0);
    assert(out@ =~= old(out)@ + ended_text(content@));
}

fn put_field(out: &mut Vec<u8>, kind: u8, content: &str)
    ensures
        final(out)@ == old(out)@ + field(kind, content@),
{
    out.push(kind);
    put_ended(out, content);
    assert(out@ =~= old(out)@ + field(kind, content@));
}

/// Appends an error.
pub fn put_error(out: &mut Vec<u8>, code: &str, detail: &str)
    ensures
        final(out)@ == old(out)@ + error_message(code@, detail@),
{
    let mut body: Vec<u8> = Vec::new();
    put_field(&mut body, 83, "ERROR");
    put_field(&mut body, 86, "ERROR");
    put_field(&mut body, 67, code);
    put_field(&mut body, 77, detail);
    body.push(0);
    assert(body@ =~= field(83, "ERROR"@) + field(86, "ERROR"@) + field(67, code@) + field(
        77,
        detail@,
    ) + seq![0u8]);
    put_message(out, 69, body.as_slice());
}

/// Appends that the server waits for a query.
pub fn put_ready(out: &mut Vec<u8>, status: SessionStatus)
    ensures
        final(out)@ == old(out)@ + ready_message(status),
{
    let letter: u8 = match status {
        SessionStatus::Idle => 73,
        SessionStatus::InTransaction => 84,
        SessionStatus::Failed => 69,
    };
    let mut body: Vec<u8> = Vec::new();
    body.push(letter);
    assert(body@ =~= seq![letter]);
    put_message(out, 90, body.as_slice());
}

fn put_complete(out: &mut Vec<u8>, tag: &str)
    ensures
        final(out)@ == old(out)@ + complete_message(tag@),
{
    let mut body: Vec<u8> = Vec::new();
    put_ended(&mut body, tag);
    assert(body@ =~= ended_text(tag@));
    put_message(out, 67, body.as_slice());
}

fn put_parameter(out: &mut Vec<u8>, name: &str, content: &str)
    ensures
        final(out)@ == old(out)@ + parameter_message(name@, content@),
{
    let mut body: Vec<u8> = Vec::new();
    put_ended(&mut body, name);
    put_ended(&mut body, content);
    assert(body@ =~= ended_text(name@) + ended_text(content@));
    put_message(out, 83, body.as_slice());
}

/// The messages that a client gets once its connection is accepted.
pub fn welcome_messages() -> (out: Vec<u8>)
    ensures
        out@ == welcome(),
{
    let mut out: Vec<u8> = Vec::new();
    let mut zero: Vec<u8> = Vec::new();
    put_be(&mut zero, 0, 4);
    assert(zero@ =~= bytes::be_bytes(0, 4));
    put_message(&mut out, 82, zero.as_slice());
    put_parameter(&mut out, "server_version", "16.0 (QuantaDB 0.2)");
    put_parameter(&mut out, "server_encoding", "UTF8");
    put_parameter(&mut out, "client_encoding", "UTF8");
    put_parameter(&mut out, "DateStyle", "ISO, MDY");
    let mut secret: Vec<u8> = Vec::new();
    put_be(&mut secret, 1, 4);
    put_be(&mut secret, 1, 4);
    assert(secret@ =~= bytes::be_bytes(1, 4) + bytes::be_bytes(1, 4));
    put_message(&mut out, 75, secret.as_slice());
    put_ready(&mut out, SessionStatus::Idle);
    assert(out@ =~= welcome());
    out
}

/// The number by which clients know a type.
pub fn type_oid(data_type: LogicalType) -> (oid: u32)
    ensures
        oid == oid_of(data_type),
{
    match data_type {
        LogicalType::Boolean => OID_BOOL,
        LogicalType::Int64 => OID_INT8,
        LogicalType::Float64 => OID_FLOAT8,
        LogicalType::Text { .. } => OID_TEXT,
        LogicalType::Unknown => OID_TEXT,
    }
}

fn put_column(out: &mut Vec<u8>, column: &OutputColumn)
    ensures
        final(out)@ == old(out)@ + column_entry(column@),
{
    put_ended(out, column.name.as_str());
    put_be(out, 0, 6);
    put_be(out, type_oid(column.data_type) as u64, 4);
    put_be(out, 0xffff, 2);
    put_be(out, 0xffff_ffff, 4);
    put_be(out, 0, 2);
    assert(out@ =~= old(out)@ + column_entry(column@));
}

/// Appends the columns of a query's result.
pub fn put_description(out: &mut Vec<u8>, columns: &Vec<OutputColumn>)
    ensures
        final(out)@ == old(out)@ + description_message(output::output_columns(columns@)),
{
    let ghost views = output::output_columns(columns@);
    let mut body: Vec<u8> = Vec::new();
    put_be(&mut body, columns.len() as u64, 2);
    let ghost head = body@;
    let mut index: usize = 0;
    proof {
        assert(views.take(0) =~= Seq::empty());
        assert(body@ =~= head + column_entries(views.take(0)));
    }
    while index < columns.len()
        invariant
            index <= columns@.len(),
            views == output::output_columns(columns@),
            body@ == head + column_entries(views.take(index as int)),
        decreases columns@.len() - index,
    {
        put_column(&mut body, &columns[index]);
        proof {
            let more = views.take(index + 1);
            assert(more.drop_last() =~= views.take(index as int));
            assert(body@ =~= head + column_entries(more));
        }
        index = index + 1;
    }
    proof {
        assert(views.take(index as int) =~= views);
        assert(head =~= bytes::be_bytes(views.len(), 2));
    }
    put_message(out, 84, body.as_slice());
}

/// How floats are shown, as far as the caller has said.
pub struct FloatTexts {
    texts: KeyMap<String>,
}

spec fn bits_key(bits: u64) -> Seq<u8> {
    bytes::be_bytes(bits as nat, 8)
}

fn key_of(bits: u64) -> (found: Vec<u8>)
    ensures
        found@ == bits_key(bits),
{
    let mut out: Vec<u8> = Vec::new();
    put_be(&mut out, bits, 8);
    assert(out@ =~= bits_key(bits));
    out
}

impl View for FloatTexts {
    type V = Map<u64, Seq<char>>;

    closed spec fn view(&self) -> Map<u64, Seq<char>> {
        Map::new(
            |bits: u64| self.texts@.contains_key(bits_key(bits)),
            |bits: u64| self.texts@[bits_key(bits)]@,
        )
    }
}

impl FloatTexts {
    pub closed spec fn wf(&self) -> bool {
        self.texts.wf()
    }

    pub fn new() -> (texts: FloatTexts)
        ensures
            texts.wf(),
            texts@ == Map::<u64, Seq<char>>::empty(),
    {
        let texts = FloatTexts { texts: KeyMap::new() };
        assert(texts@ =~= Map::<u64, Seq<char>>::empty());
        texts
    }

    /// Says how a float is shown.
    pub fn set(&mut self, bits: u64, content: String)
        requires
            old(self).wf(),
        ensures
            final(self).wf(),
            final(self)@ == old(self)@.insert(bits, content@),
    {
        let ghost before = self@;
        let ghost view = content@;
        self.texts.insert(key_of(bits), content);
        proof {
            bytes::lemma_byte_limits();
            assert forall|other: u64| bits_key(other) == bits_key(bits) implies other == bits by {
                bytes::lemma_be_round_trip(other as nat, 8);
                bytes::lemma_be_round_trip(bits as nat, 8);
            }
            assert(self@ =~= before.insert(bits, view));
        }
    }

    fn get(&self, bits: u64) -> (content: Option<&String>)
        requires
            self.wf(),
        ensures
            match content {
                Some(content) => self@.contains_key(bits) && self@[bits] == content@,
                None => !self@.contains_key(bits),
            },
    {
        let wanted = key_of(bits);
        self.texts.get(wanted.as_slice())
    }
}

/// Whether a value can be shown: a float must have a text.
pub open spec fn showable(value: ValueView, texts: Map<u64, Seq<char>>) -> bool {
    value matches ValueView::Float(bits) ==> texts.contains_key(bits)
}

pub open spec fn row_showable(values: Seq<ValueView>, texts: Map<u64, Seq<char>>) -> bool {
    forall|i: int| 0 <= i < values.len() ==> showable(#[trigger] values[i], texts)
}

pub open spec fn output_showable(given: OutputView, texts: Map<u64, Seq<char>>) -> bool {
    given matches OutputView::Query { columns, rows } ==> forall|i: int|
        0 <= i < rows.len() ==> row_showable(#[trigger] rows[i], texts)
}

/// How a value is shown.
pub fn value_text(value: &Value, texts: &FloatTexts) -> (content: Option<String>)
    requires
        texts.wf(),
        showable(value@, texts@),
    ensures
        match content {
            Some(content) => shown(value@, texts@) == Some(content@),
            None => shown(value@, texts@) is None,
        },
{
    match value {
        Value::Null => None,
        Value::Boolean(true) => Some(String::from_str("t")),
        Value::Boolean(false) => Some(String::from_str("f")),
        Value::Integer(number) => Some(signed_text(*number)),
        Value::Float(bits) => match texts.get(*bits) {
            Some(content) => Some(copy_text(content)),
            None => None,
        },
        Value::Text(content) => Some(copy_text(content)),
    }
}

fn put_row(out: &mut Vec<u8>, values: &Vec<Value>, texts: &FloatTexts)
    requires
        texts.wf(),
        row_showable(value::value_views(values@), texts@),
    ensures
        final(out)@ == old(out)@ + row_message(value::value_views(values@), texts@),
{
    let ghost views = value::value_views(values@);
    let mut body: Vec<u8> = Vec::new();
    put_be(&mut body, values.len() as u64, 2);
    let ghost head = body@;
    let mut index: usize = 0;
    proof {
        assert(views.take(0) =~= Seq::empty());
        assert(body@ =~= head + cells(views.take(0), texts@));
    }
    while index < values.len()
        invariant
            index <= values@.len(),
            texts.wf(),
            row_showable(views, texts@),
            views == value::value_views(values@),
            body@ == head + cells(views.take(index as int), texts@),
        decreases values@.len() - index,
    {
        let ghost before = body@;
        assert(showable(views[index as int], texts@));
        match value_text(&values[index], texts) {
            Some(content) => {
                let encoded = content.as_str().as_bytes();
                put_be(&mut body, encoded.len() as u64, 4);
                put_bytes(&mut body, encoded);
            },
            None => {
                put_be(&mut body, 0xffff_ffff, 4);
            },
        }
        proof {
            assert(body@ =~= before + cell(views[index as int], texts@));
            let more = views.take(index + 1);
            assert(more.drop_last() =~= views.take(index as int));
            assert(body@ =~= head + cells(more, texts@));
        }
        index = index + 1;
    }
    proof {
        assert(views.take(index as int) =~= views);
        assert(head =~= bytes::be_bytes(views.len(), 2));
    }
    put_message(out, 68, body.as_slice());
}

fn put_rows(out: &mut Vec<u8>, rows: &Vec<Vec<Value>>, texts: &FloatTexts)
    requires
        texts.wf(),
        forall|i: int|
            0 <= i < rows@.len() ==> row_showable(
                #[trigger] output::output_rows(rows@)[i],
                texts@,
            ),
    ensures
        final(out)@ == old(out)@ + row_messages(output::output_rows(rows@), texts@),
{
    let ghost views = output::output_rows(rows@);
    let ghost head = out@;
    let mut index: usize = 0;
    proof {
        assert(views.take(0) =~= Seq::empty());
        assert(out@ =~= head + row_messages(views.take(0), texts@));
    }
    while index < rows.len()
        invariant
            index <= rows@.len(),
            texts.wf(),
            views == output::output_rows(rows@),
            forall|i: int| 0 <= i < rows@.len() ==> row_showable(#[trigger] views[i], texts@),
            out@ == head + row_messages(views.take(index as int), texts@),
        decreases rows@.len() - index,
    {
        assert(row_showable(views[index as int], texts@));
        put_row(out, &rows[index], texts);
        proof {
            let more = views.take(index + 1);
            assert(more.drop_last() =~= views.take(index as int));
            assert(out@ =~= head + row_messages(more, texts@));
        }
        index = index + 1;
    }
    assert(views.take(index as int) =~= views);
}

/// The words that tell a client what a statement did.
pub fn output_tag(given: &StatementOutput) -> (tag: String)
    ensures
        tag@ == tag_of(given@),
{
    match given {
        StatementOutput::Transaction(TransactionOutput::Begun) => String::from_str("BEGIN"),
        StatementOutput::Transaction(TransactionOutput::Committed) => String::from_str("COMMIT"),
        StatementOutput::Transaction(TransactionOutput::RolledBack) => String::from_str("ROLLBACK"),
        StatementOutput::Command { tag, affected_rows } => {
            if crate::engine::schema::same_text(tag.as_str(), "INSERT") {
                text_with_number("INSERT 0 ", *affected_rows, "")
            } else {
                let count = text::decimal_text(*affected_rows);
                join_text(tag.as_str(), " ", count.as_str())
            }
        },
        StatementOutput::Query { columns: _, rows } => text_with_number(
            "SELECT ",
            rows.len() as u64,
            "",
        ),
    }
}

/// Appends what a client gets of a statement, with the columns of a query or without.
fn put_output(out: &mut Vec<u8>, given: &StatementOutput, with_columns: bool, texts: &FloatTexts)
    requires
        texts.wf(),
        output_showable(given@, texts@),
    ensures
        final(out)@ == old(out)@ + if with_columns {
            described_output(given@, texts@)
        } else {
            output_messages(given@, texts@)
        },
{
    if let StatementOutput::Query { columns, rows } = given {
        if with_columns {
            put_description(out, columns);
        }
        proof {
            let views = output::output_rows(rows@);
            assert(given@ == (OutputView::Query {
                columns: output::output_columns(columns@),
                rows: views,
            }));
            assert(output_showable(given@, texts@));
            assert forall|i: int| 0 <= i < views.len() implies row_showable(
                #[trigger] views[i],
                texts@,
            ) by {
                assert(row_showable(given@->Query_rows[i], texts@));
            }
        }
        put_rows(out, rows, texts);
    }
    let tag = output_tag(given);
    put_complete(out, tag.as_str());
    assert(out@ =~= old(out)@ + if with_columns {
        described_output(given@, texts@)
    } else {
        output_messages(given@, texts@)
    });
}

/// Appends the floats of a row that have no text.
fn put_untold(wanted: &mut Vec<u64>, values: &Vec<Value>, texts: &FloatTexts)
    requires
        texts.wf(),
    ensures
        final(wanted)@.len() >= old(wanted)@.len(),
        (final(wanted)@.len() == old(wanted)@.len()) == row_showable(
            value::value_views(values@),
            texts@,
        ),
        forall|i: int|
            old(wanted)@.len() <= i < final(wanted)@.len() ==> !texts@.contains_key(
                #[trigger] final(wanted)@[i],
            ),
        forall|i: int|
            0 <= i < old(wanted)@.len() ==> #[trigger] final(wanted)@[i] == old(wanted)@[i],
{
    let mut index: usize = 0;
    while index < values.len()
        invariant
            index <= values@.len(),
            texts.wf(),
            wanted@.len() >= old(wanted)@.len(),
            wanted@.len() == old(wanted)@.len() ==> forall|i: int|
                0 <= i < index ==> showable(#[trigger] values@[i]@, texts@),
            wanted@.len() > old(wanted)@.len() ==> !row_showable(
                value::value_views(values@),
                texts@,
            ),
            forall|i: int|
                old(wanted)@.len() <= i < wanted@.len() ==> !texts@.contains_key(
                    #[trigger] wanted@[i],
                ),
            forall|i: int|
                0 <= i < old(wanted)@.len() ==> #[trigger] wanted@[i] == old(wanted)@[i],
        decreases values@.len() - index,
    {
        if let Value::Float(bits) = &values[index] {
            if texts.get(*bits).is_none() {
                wanted.push(*bits);
                assert(!showable(value::value_views(values@)[index as int], texts@));
            }
        }
        index = index + 1;
    }
}

pub open spec fn rows_of(given: OutputView) -> Seq<Seq<ValueView>> {
    match given {
        OutputView::Query { columns, rows } => rows,
        _ => Seq::empty(),
    }
}

/// Whether every float of what statements gave back has a text.
pub open spec fn all_showable(
    given: Seq<StatementOutput>,
    texts: Map<u64, Seq<char>>,
) -> bool {
    forall|i: int| 0 <= i < given.len() ==> output_showable((#[trigger] given[i])@, texts)
}

/// The floats of what statements gave back that have no text yet.
pub fn untold_floats(given: &Vec<StatementOutput>, texts: &FloatTexts) -> (wanted: Vec<u64>)
    requires
        texts.wf(),
    ensures
        (wanted@.len() == 0) == all_showable(given@, texts@),
        forall|i: int| 0 <= i < wanted@.len() ==> !texts@.contains_key(#[trigger] wanted@[i]),
{
    let mut wanted: Vec<u64> = Vec::new();
    let mut index: usize = 0;
    while index < given.len()
        invariant
            index <= given@.len(),
            texts.wf(),
            wanted@.len() == 0 ==> forall|i: int|
                0 <= i < index ==> output_showable((#[trigger] given@[i])@, texts@),
            wanted@.len() > 0 ==> !all_showable(given@, texts@),
            forall|i: int| 0 <= i < wanted@.len() ==> !texts@.contains_key(#[trigger] wanted@[i]),
        decreases given@.len() - index,
    {
        if let StatementOutput::Query { columns: _, rows } = &given[index] {
            let ghost before = wanted@;
            let mut row: usize = 0;
            while row < rows.len()
                invariant
                    row <= rows@.len(),
                    texts.wf(),
                    index < given@.len(),
                    output::output_rows(rows@) == rows_of(given@[index as int]@),
                    given@[index as int]@ is Query,
                    wanted@.len() > 0 ==> !all_showable(given@, texts@),
                    wanted@.len() >= before.len(),
                    wanted@.len() == 0 ==> forall|i: int|
                        0 <= i < row ==> row_showable(
                            #[trigger] value::value_views(rows@[i]@),
                            texts@,
                        ),
                    forall|i: int|
                        0 <= i < wanted@.len() ==> !texts@.contains_key(#[trigger] wanted@[i]),
                decreases rows@.len() - row,
            {
                let ghost earlier = wanted@;
                put_untold(&mut wanted, &rows[row], texts);
                proof {
                    if wanted@.len() > 0 && earlier.len() == 0 {
                        let views = output::output_rows(rows@);
                        assert(views[row as int] == value::value_views(rows@[row as int]@));
                        assert(!output_showable(given@[index as int]@, texts@));
                    }
                    assert forall|i: int| 0 <= i < wanted@.len() implies !texts@.contains_key(
                        #[trigger] wanted@[i],
                    ) by {
                        if i < earlier.len() {
                            assert(wanted@[i] == earlier[i]);
                        }
                    }
                }
                row = row + 1;
            }
            proof {
                if wanted@.len() == 0 {
                    let views = output::output_rows(rows@);
                    assert forall|i: int| 0 <= i < views.len() implies row_showable(
                        #[trigger] views[i],
                        texts@,
                    ) by {
                        assert(views[i] == value::value_views(rows@[i]@));
                    }
                    assert(output_showable(given@[index as int]@, texts@));
                }
            }
        }
        index = index + 1;
    }
    wanted
}

pub open spec fn output_views(given: Seq<StatementOutput>) -> Seq<OutputView> {
    Seq::new(given.len(), |i: int| given[i]@)
}

/// Appends what a client gets of statements.
fn put_outputs(
    out: &mut Vec<u8>,
    given: &Vec<StatementOutput>,
    with_columns: bool,
    texts: &FloatTexts,
)
    requires
        texts.wf(),
        forall|i: int| 0 <= i < given@.len() ==> output_showable((#[trigger] given@[i])@, texts@),
    ensures
        final(out)@ == old(out)@ + output_list(output_views(given@), with_columns, texts@),
{
    let ghost views = output_views(given@);
    let ghost head = out@;
    let mut index: usize = 0;
    proof {
        assert(views.take(0) =~= Seq::empty());
        assert(out@ =~= head + output_list(views.take(0), with_columns, texts@));
    }
    while index < given.len()
        invariant
            index <= given@.len(),
            texts.wf(),
            views == output_views(given@),
            forall|i: int|
                0 <= i < given@.len() ==> output_showable((#[trigger] given@[i])@, texts@),
            out@ == head + output_list(views.take(index as int), with_columns, texts@),
        decreases given@.len() - index,
    {
        put_output(out, &given[index], with_columns, texts);
        proof {
            let more = views.take(index + 1);
            assert(more.drop_last() =~= views.take(index as int));
            assert(out@ =~= head + output_list(more, with_columns, texts@));
        }
        index = index + 1;
    }
    assert(views.take(index as int) =~= views);
}

/// What a client of the simple protocol gets of its query.
pub open spec fn query_reply(
    done: Result<Seq<OutputView>, EngineErrorView>,
    status: SessionStatus,
    texts: Map<u64, Seq<char>>,
) -> Seq<u8> {
    (match done {
        Ok(given) => output_list(given, true, texts),
        Err(error) => error_message(pg_error::state_of(error), error::engine_message(error)),
    }) + ready_message(status)
}

pub open spec fn done_view(done: Result<Vec<StatementOutput>, EngineError>) -> Result<
    Seq<OutputView>,
    EngineErrorView,
> {
    match done {
        Ok(given) => Ok(output_views(given@)),
        Err(error) => Err(error@),
    }
}

/// What a client of the simple protocol gets of its query; or the floats that must have a text
/// first.
pub fn answer_query(
    done: &Result<Vec<StatementOutput>, EngineError>,
    status: SessionStatus,
    texts: &FloatTexts,
) -> (reply: Result<Vec<u8>, Vec<u64>>)
    requires
        texts.wf(),
    ensures
        match reply {
            Ok(reply) => reply@ == query_reply(done_view(*done), status, texts@) && (*done matches Ok(
                given,
            ) ==> all_showable(given@, texts@)),
            Err(wanted) => (*done matches Ok(given) && !all_showable(given@, texts@)) && wanted@.len() > 0 && forall|i: int|
                0 <= i < wanted@.len() ==> !texts@.contains_key(#[trigger] wanted@[i]),
        },
{
    let mut out: Vec<u8> = Vec::new();
    match done {
        Ok(given) => {
            let wanted = untold_floats(given, texts);
            if wanted.len() > 0 {
                return Err(wanted);
            }
            put_outputs(&mut out, given, true, texts);
        },
        Err(error) => {
            let detail = error.message();
            put_error(&mut out, sqlstate(error), detail.as_str());
        },
    }
    put_ready(&mut out, status);
    assert(out@ =~= query_reply(done_view(*done), status, texts@));
    Ok(out)
}

/// What a client of the extended protocol gets of the statements of a portal; or the floats that
/// must have a text first.
pub fn answer_execute(given: &Vec<StatementOutput>, texts: &FloatTexts) -> (reply: Result<
    Vec<u8>,
    Vec<u64>,
>)
    requires
        texts.wf(),
    ensures
        match reply {
            Ok(reply) => reply@ == output_list(output_views(given@), false, texts@) && all_showable(
                given@,
                texts@,
            ),
            Err(wanted) => !all_showable(given@, texts@) && wanted@.len() > 0 && forall|i: int|
                0 <= i < wanted@.len() ==> !texts@.contains_key(#[trigger] wanted@[i]),
        },
{
    let wanted = untold_floats(given, texts);
    if wanted.len() > 0 {
        return Err(wanted);
    }
    let mut out: Vec<u8> = Vec::new();
    put_outputs(&mut out, given, false, texts);
    assert(out@ =~= output_list(output_views(given@), false, texts@));
    Ok(out)
}

/// What a client gets that asked for the columns of a text: a query's columns, or that there are
/// none.
pub open spec fn description_reply(columns: Option<Seq<OutputColumnView>>) -> Seq<u8> {
    match columns {
        Some(columns) => description_message(columns),
        None => message(110, Seq::empty()),
    }
}

pub open spec fn columns_view(columns: Option<Vec<OutputColumn>>) -> Option<Seq<OutputColumnView>> {
    match columns {
        Some(columns) => Some(output::output_columns(columns@)),
        None => None,
    }
}

/// What a client gets that asked for the columns of a text.
pub fn answer_describe(columns: &Option<Vec<OutputColumn>>) -> (reply: Vec<u8>)
    ensures
        reply@ == description_reply(columns_view(*columns)),
{
    let mut out: Vec<u8> = Vec::new();
    match columns {
        Some(columns) => {
            put_description(&mut out, columns);
        },
        None => {
            let body: Vec<u8> = Vec::new();
            assert(body@ =~= Seq::empty());
            put_message(&mut out, 110, body.as_slice());
        },
    }
    assert(out@ =~= description_reply(columns_view(*columns)));
    out
}

} // verus!
