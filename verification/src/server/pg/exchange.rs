//! What client and server make of each other's messages.
use crate::bytes;
use crate::engine::error::EngineErrorView;
use crate::engine::schema::LogicalType;
use crate::engine::value::ValueView;
use crate::server::pg::cursor;
use crate::server::pg::error as pg_error;
use crate::server::pg::error::PgErrorView;
use crate::server::pg::extended;
use crate::server::pg::extended::ExtendedView;
use crate::server::pg::message;
use crate::server::pg::parameters;
use crate::text;
use vstd::prelude::*;
use vstd::utf8::encode_utf8;

verus! {

/// A message says its kind, then the length of what follows the kind, then its body.
pub proof fn law_messages_are_framed(kind: u8, body: Seq<u8>)
    requires
        body.len() + 4 < 0x1_0000_0000,
    ensures
        ({
            let sent = message::message(kind, body);
            &&& sent.len() == body.len() + 5
            &&& sent[0] == kind
            &&& bytes::from_be(sent.subrange(1, 5)) == sent.len() - 1
            &&& sent.skip(5) == body
        }),
{
    let sent = message::message(kind, body);
    bytes::lemma_be_round_trip(body.len() + 4, 4);
    reveal_with_fuel(bytes::byte_limit, 5);
    assert(sent.subrange(1, 5) =~= bytes::be_bytes(body.len() + 4, 4));
    assert(sent.skip(5) =~= body);
}

/// A value that was sent in a row reads as a parameter that stands for it: its text in quotes, or NULL.
pub proof fn law_cells_read_as_parameters(
    before: Seq<u8>,
    value: ValueView,
    texts: Map<u64, Seq<char>>,
    after: Seq<u8>,
)
    requires
        message::shown(value, texts) matches Some(content) ==> encode_utf8(content).len()
            < 0x8000_0000,
    ensures
        extended::literal_at(
            before + message::cell(value, texts) + after,
            before.len() as int,
            0,
        ) == Ok::<(Seq<char>, int), PgErrorView>(
            (
                match message::shown(value, texts) {
                    Some(content) => parameters::quoted(content),
                    None => "NULL"@,
                },
                (before.len() + message::cell(value, texts).len()) as int,
            ),
        ),
{
    let cell = message::cell(value, texts);
    let whole = before + cell + after;
    let at = before.len() as int;
    reveal_with_fuel(bytes::byte_limit, 5);
    match message::shown(value, texts) {
        Some(content) => {
            let encoded = encode_utf8(content);
            bytes::lemma_be_round_trip(encoded.len(), 4);
            vstd::utf8::encode_utf8_valid_utf8(content);
            vstd::utf8::encode_utf8_decode_utf8(content);
            assert(whole.subrange(at, at + 4) =~= bytes::be_bytes(encoded.len(), 4));
            assert(whole.subrange(at + 4, at + 4 + encoded.len()) =~= encoded);
        },
        None => {
            bytes::lemma_be_round_trip(0xffff_ffff, 4);
            assert(whole.subrange(at, at + 4) =~= bytes::be_bytes(0xffff_ffff, 4));
        },
    }
}

proof fn lemma_digits_between(sql: Seq<char>, at: int, end: int)
    requires
        0 <= at <= end <= sql.len(),
        forall|i: int| at <= i < end ==> text::is_digit(#[trigger] sql[i]),
        end == sql.len() || !text::is_digit(sql[end]),
    ensures
        parameters::digits_end(sql, at) == end,
    decreases end - at,
{
    if at < end {
        lemma_digits_between(sql, at + 1, end);
    }
}

/// A dollar sign and a number give way to the parameter of that number, counted from one, and to nothing
/// else; what follows is treated in the same way. A number that no parameter has is refused.
pub proof fn law_parameters_are_replaced(
    sql: Seq<char>,
    literals: Seq<Seq<char>>,
    at: int,
    end: int,
    number: nat,
)
    requires
        0 <= at < end - 1,
        end <= sql.len(),
        sql[at] == '$',
        sql.subrange(at + 1, end) == text::decimal(number),
        end == sql.len() || !text::is_digit(sql[end]),
        number <= usize::MAX,
    ensures
        number == 0 || number > literals.len() ==> parameters::substituted(sql, literals, at) is Err,
        1 <= number <= literals.len() ==> parameters::substituted(sql, literals, at) == (
        match parameters::substituted(sql, literals, end) {
            Ok(rest) => Ok::<Seq<char>, PgErrorView>(literals[number - 1] + rest),
            Err(error) => Err(error),
        }),
        parameters::numbers(sql, at) == seq![number] + parameters::numbers(sql, end),
{
    let shown = sql.subrange(at + 1, end);
    text::lemma_decimal(number);
    assert forall|i: int| at + 1 <= i < end implies text::is_digit(#[trigger] sql[i]) by {
        assert(shown[i - at - 1] == sql[i]);
    }
    lemma_digits_between(sql, at + 1, end);
    text::law_decimal_reads_back(number, usize::MAX as nat);
}

/// What stands in quotes is kept as it is, dollar signs too.
pub proof fn law_quoted_text_is_kept(
    before: Seq<char>,
    content: Seq<char>,
    after: Seq<char>,
    literals: Seq<Seq<char>>,
)
    requires
        after.len() == 0 || after[0] != '\'',
    ensures
        ({
            let sql = before + parameters::quoted(content) + after;
            let at = before.len() as int;
            let end = at + parameters::quoted(content).len();
            &&& parameters::substituted(sql, literals, at) == (match parameters::substituted(
                sql,
                literals,
                end,
            ) {
                Ok(rest) => Ok::<Seq<char>, PgErrorView>(parameters::quoted(content) + rest),
                Err(error) => Err(error),
            })
            &&& parameters::numbers(sql, at) == parameters::numbers(sql, end)
        }),
{
    let sql = before + parameters::quoted(content) + after;
    let at = before.len() as int;
    let end = at + parameters::quoted(content).len();
    parameters::law_quoted_text_stays_inside(content, before, after);
    assert(sql[at] == '\'');
    assert(sql.subrange(at, end) =~= parameters::quoted(content));
}

/// A statement takes as many parameters as the largest number in it says.
pub proof fn law_largest_number_counts(found: Seq<nat>, number: nat)
    ensures
        found.contains(number) ==> number <= parameters::largest(found),
        parameters::largest(found) == 0 || found.contains(parameters::largest(found)),
    decreases found.len(),
{
    if found.len() > 0 {
        let front = found.drop_last();
        law_largest_number_counts(front, number);
        assert(found[found.len() - 1] == found.last());
        if found.contains(number) {
            let i = found.index_of(number);
            if i < front.len() {
                assert(front[i] == number);
            }
        }
        if front.contains(parameters::largest(front)) {
            let i = front.index_of(parameters::largest(front));
            assert(found[i] == front[i]);
        }
    }
}

/// The name that a message begins with.
pub open spec fn names_first(payload: Seq<u8>, name: Seq<char>) -> bool {
    cursor::text_at(payload, 0) matches Ok((found, _)) && found == name
}

/// A portal runs the text that was bound to it last, and binding one leaves the others and the statements
/// alone.
pub proof fn law_portals_run_what_was_bound(
    state: ExtendedView,
    after: ExtendedView,
    bound: Seq<u8>,
    executed: Seq<u8>,
    portal: Seq<char>,
    other: Seq<char>,
)
    requires
        extended::bound(state, bound) == Ok::<ExtendedView, PgErrorView>(after),
        names_first(bound, portal),
        names_first(executed, other),
    ensures
        after.statements == state.statements,
        other != portal ==> extended::executed(after, executed) == extended::executed(
            state,
            executed,
        ),
        other == portal ==> extended::executed(after, executed) is Ok,
{
    if other != portal && encode_utf8(other) == encode_utf8(portal) {
        vstd::utf8::encode_utf8_decode_utf8(other);
        vstd::utf8::encode_utf8_decode_utf8(portal);
    }
}

/// Preparing a statement keeps its text under its name with the parameters that it takes, and leaves the
/// other statements and the portals alone.
pub proof fn law_prepared_statements_are_kept(
    state: ExtendedView,
    after: ExtendedView,
    payload: Seq<u8>,
    name: Seq<char>,
    sql: Seq<char>,
    second: int,
    third: int,
    other: Seq<char>,
    number: nat,
)
    requires
        extended::parsed(state, payload) == Ok::<ExtendedView, PgErrorView>(after),
        cursor::text_at(payload, 0) == Ok::<(Seq<char>, int), PgErrorView>((name, second)),
        cursor::text_at(payload, second) == Ok::<(Seq<char>, int), PgErrorView>((sql, third)),
    ensures
        after.portals == state.portals,
        ({
            let key = encode_utf8(name);
            &&& after.statements.contains_key(key)
            &&& after.statements[key].sql == sql
            &&& parameters::numbers(sql, 0).contains(number) ==> number
                <= after.statements[key].parameters
            &&& after.statements[key].parameters == 0 || parameters::numbers(sql, 0).contains(
                after.statements[key].parameters,
            )
        }),
        other != name ==> (after.statements.contains_key(encode_utf8(other))
            <==> state.statements.contains_key(encode_utf8(other))) && (
        state.statements.contains_key(encode_utf8(other))
            ==> after.statements[encode_utf8(other)] == state.statements[encode_utf8(other)]),
{
    law_largest_number_counts(parameters::numbers(sql, 0), number);
    if other != name && encode_utf8(other) == encode_utf8(name) {
        vstd::utf8::encode_utf8_decode_utf8(other);
        vstd::utf8::encode_utf8_decode_utf8(name);
    }
}

/// A text that ends in a zero byte is read back, together with the place behind it.
pub proof fn law_texts_are_read_back(before: Seq<u8>, content: Seq<char>, after: Seq<u8>)
    requires
        forall|i: int|
            0 <= i < encode_utf8(content).len() ==> #[trigger] encode_utf8(content)[i] != 0,
    ensures
        cursor::text_at(before + message::ended_text(content) + after, before.len() as int) == Ok::<
            (Seq<char>, int),
            PgErrorView,
        >((content, (before.len() + message::ended_text(content).len()) as int)),
{
    let encoded = encode_utf8(content);
    let whole = before + message::ended_text(content) + after;
    let at = before.len() as int;
    let end = at + encoded.len();
    assert forall|i: int| at <= i < end implies #[trigger] whole[i] != 0 by {
        assert(whole[i] == encoded[i - at]);
    }
    assert(whole[end] == 0);
    lemma_first_zero(whole, at, end);
    assert(whole.subrange(at, end) =~= encoded);
    vstd::utf8::encode_utf8_valid_utf8(content);
    vstd::utf8::encode_utf8_decode_utf8(content);
}

proof fn lemma_first_zero(payload: Seq<u8>, at: int, end: int)
    requires
        0 <= at <= end < payload.len(),
        payload[end] == 0,
        forall|i: int| at <= i < end ==> #[trigger] payload[i] != 0,
    ensures
        cursor::zero_at(payload, at) == end,
    decreases end - at,
{
    if at < end {
        lemma_first_zero(payload, at + 1, end);
    }
}

/// Clients know types by the numbers that PostgreSQL gives them.
pub proof fn law_types_have_their_numbers(data_type: LogicalType)
    ensures
        data_type is Boolean ==> message::oid_of(data_type) == 16,
        data_type is Int64 ==> message::oid_of(data_type) == 20,
        data_type is Float64 ==> message::oid_of(data_type) == 701,
        data_type is Text || data_type is Unknown ==> message::oid_of(data_type) == 25,
{
}

/// A value is shown as text: a truth by its first letter, an integer in decimal, and text as it is. NULL is
/// not shown.
pub proof fn law_values_are_shown(value: ValueView, texts: Map<u64, Seq<char>>)
    ensures
        value is Null <==> message::shown(value, texts) is None,
        value == ValueView::Boolean(true) ==> message::shown(value, texts) == Some(seq!['t']),
        value == ValueView::Boolean(false) ==> message::shown(value, texts) == Some(seq!['f']),
        value matches ValueView::Integer(number) ==> message::shown(value, texts) == Some(
            if number < 0 {
                seq!['-'] + text::decimal((-number) as nat)
            } else {
                text::decimal(number as nat)
            },
        ),
        value matches ValueView::Text(content) ==> message::shown(value, texts) == Some(content),
        value matches ValueView::Float(bits) ==> message::shown(value, texts) == Some(texts[bits]),
{
    reveal_strlit("t");
    reveal_strlit("f");
    reveal_strlit("-");
    assert("t"@ =~= seq!['t']);
    assert("f"@ =~= seq!['f']);
    assert("-"@ =~= seq!['-']);
}

/// A row is sent as a `D` message: how many values it has, and then each of them, in order.
pub proof fn law_rows_are_sent_in_order(values: Seq<ValueView>, texts: Map<u64, Seq<char>>, i: int)
    requires
        values.len() < 0x1_0000,
        0 <= i < values.len(),
    ensures
        ({
            let sent = message::row_message(values, texts);
            let body = sent.skip(5);
            let at = 2 + message::cells(values.take(i), texts).len();
            let cell = message::cell(values[i], texts);
            &&& sent[0] == 'D' as u8
            &&& bytes::from_be(body.subrange(0, 2)) == values.len()
            &&& at + cell.len() <= body.len()
            &&& body.subrange(at as int, (at + cell.len()) as int) == cell
        }),
{
    let sent = message::row_message(values, texts);
    let cells = message::cells(values, texts);
    let count = bytes::be_bytes(values.len(), 2);
    bytes::lemma_be_round_trip((count + cells).len() + 4, 4);
    bytes::lemma_be_round_trip(values.len(), 2);
    reveal_with_fuel(bytes::byte_limit, 3);
    let body = sent.skip(5);
    assert(body =~= count + cells);
    assert(body.subrange(0, 2) =~= count);
    let after: Seq<u8> = lemma_cells(values, texts, i + 1);
    assert(values.take(i + 1).drop_last() =~= values.take(i));
    let front = message::cells(values.take(i), texts);
    let cell = message::cell(values[i], texts);
    assert(cells =~= front + cell + after);
    assert(body.subrange((2 + front.len()) as int, (2 + front.len() + cell.len()) as int) =~= cell);
}

proof fn lemma_cells(values: Seq<ValueView>, texts: Map<u64, Seq<char>>, count: int) -> (after: Seq<
    u8,
>)
    requires
        0 <= count <= values.len(),
    ensures
        message::cells(values, texts) == message::cells(values.take(count), texts) + after,
    decreases values.len() - count,
{
    if count == values.len() {
        assert(values.take(count) =~= values);
        let none: Seq<u8> = Seq::empty();
        assert(message::cells(values, texts) + none =~= message::cells(values, texts));
        none
    } else {
        let rest: Seq<u8> = lemma_cells(values, texts, count + 1);
        let more = values.take(count + 1);
        assert(more.drop_last() =~= values.take(count));
        let after = message::cell(more.last(), texts) + rest;
        assert(message::cells(values, texts) =~= message::cells(values.take(count), texts) + after);
        after
    }
}

/// What went wrong is told by the SQLSTATE that PostgreSQL has for it.
pub proof fn law_failures_have_their_states(error: EngineErrorView)
    ensures
        error is Syntax ==> pg_error::state_of(error) == "42601"@,
        error is TableNotFound ==> pg_error::state_of(error) == "42P01"@,
        error is TableAlreadyExists ==> pg_error::state_of(error) == "42P07"@,
        error is ColumnNotFound ==> pg_error::state_of(error) == "42703"@,
        error is ConstraintViolation ==> pg_error::state_of(error) == "23505"@,
        error is Transaction ==> pg_error::state_of(error) == "40001"@,
        error is TransactionAborted ==> pg_error::state_of(error) == "25P02"@,
        error is TransactionAlreadyActive || error is NoActiveTransaction ==> pg_error::state_of(
            error,
        ) == "25000"@,
        error is Unsupported ==> pg_error::state_of(error) == "0A000"@,
{
}

} // verus!
