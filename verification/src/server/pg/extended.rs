//! Prepared statements and portals.
use crate::bytes;
use crate::bytes::{copy_bytes, put_be};
use crate::engine::value::copy_text;
use crate::mvcc::key_map::KeyMap;
use crate::server::pg::cursor;
use crate::server::pg::cursor::Cursor;
use crate::server::pg::error::{PgError, PgErrorView};
use crate::server::pg::message;
use crate::server::pg::message::{put_message, OID_TEXT};
use crate::server::pg::parameters;
use crate::server::pg::parameters::{count_parameters, quote_literal, substitute_parameters};
use crate::text;
use crate::text::{join_text, text_from_utf8, text_with_number};
use vstd::prelude::*;
use vstd::string::*;
use vstd::utf8::{decode_utf8, encode_utf8, valid_utf8};

verus! {

/// A prepared statement: its text and how many parameters it has.
pub struct Prepared {
    pub sql: String,
    pub parameters: usize,
}

/// The prepared statements and portals of a connection, by their names.
pub struct ExtendedState {
    statements: KeyMap<Prepared>,
    portals: KeyMap<String>,
    skip_until_sync: bool,
}

#[verifier::ext_equal]
pub struct PreparedView {
    pub sql: Seq<char>,
    pub parameters: nat,
}

#[verifier::ext_equal]
pub struct ExtendedView {
    /// By the bytes of their names.
    pub statements: Map<Seq<u8>, PreparedView>,
    /// The texts with all parameters put in, by the bytes of their names.
    pub portals: Map<Seq<u8>, Seq<char>>,
    /// After an error, messages are skipped until the client asks where the server stands.
    pub skip_until_sync: bool,
}

pub open spec fn prepared_views(statements: Map<Seq<u8>, Prepared>) -> Map<Seq<u8>, PreparedView> {
    Map::new(
        |k: Seq<u8>| statements.contains_key(k),
        |k: Seq<u8>|
            PreparedView { sql: statements[k].sql@, parameters: statements[k].parameters as nat },
    )
}

pub open spec fn portal_views(portals: Map<Seq<u8>, String>) -> Map<Seq<u8>, Seq<char>> {
    Map::new(|k: Seq<u8>| portals.contains_key(k), |k: Seq<u8>| portals[k]@)
}

impl View for ExtendedState {
    type V = ExtendedView;

    closed spec fn view(&self) -> ExtendedView {
        ExtendedView {
            statements: prepared_views(self.statements@),
            portals: portal_views(self.portals@),
            skip_until_sync: self.skip_until_sync,
        }
    }
}

// Parse.

/// The place behind numbers.
pub open spec fn numbers_skipped(payload: Seq<u8>, at: int, count: int) -> Result<int, PgErrorView>
    decreases count,
{
    if count <= 0 {
        Ok(at)
    } else {
        match cursor::i32_at(payload, at) {
            Err(error) => Err(error),
            Ok((_, next)) => numbers_skipped(payload, next, count - 1),
        }
    }
}

/// The name and the text of a statement to prepare; the types that the client declares are read and
/// not used.
pub open spec fn parse_read(payload: Seq<u8>) -> Result<(Seq<char>, Seq<char>), PgErrorView> {
    match cursor::text_at(payload, 0) {
        Err(error) => Err(error),
        Ok((name, second)) => match cursor::text_at(payload, second) {
            Err(error) => Err(error),
            Ok((sql, third)) => match cursor::i16_at(payload, third) {
                Err(error) => Err(error),
                Ok((declared, fourth)) => match numbers_skipped(payload, fourth, declared) {
                    Err(error) => Err(error),
                    Ok(_) => Ok((name, sql)),
                },
            },
        },
    }
}

/// What preparing a statement does.
pub open spec fn parsed(state: ExtendedView, payload: Seq<u8>) -> Result<ExtendedView, PgErrorView> {
    match parse_read(payload) {
        Err(error) => Err(error),
        Ok((name, sql)) => Ok(
            ExtendedView {
                statements: state.statements.insert(
                    encode_utf8(name),
                    PreparedView { sql, parameters: parameters::largest(parameters::numbers(sql, 0)) },
                ),
                ..state
            },
        ),
    }
}

// Bind.

pub open spec fn no_statement(name: Seq<char>) -> PgErrorView {
    PgErrorView {
        code: "26000"@,
        message: "prepared statement \""@ + name + "\" does not exist"@,
    }
}

pub open spec fn no_portal(name: Seq<char>) -> PgErrorView {
    PgErrorView { code: "34000"@, message: "portal \""@ + name + "\" does not exist"@ }
}

/// The first parameter formats.
pub open spec fn formats_at(payload: Seq<u8>, at: int, count: nat) -> Result<
    (Seq<int>, int),
    PgErrorView,
>
    decreases count,
{
    if count == 0 {
        Ok((Seq::empty(), at))
    } else {
        match formats_at(payload, at, (count - 1) as nat) {
            Err(error) => Err(error),
            Ok((front, next)) => match cursor::i16_at(payload, next) {
                Err(error) => Err(error),
                Ok((format, end)) => Ok((front.push(format), end)),
            },
        }
    }
}

pub open spec fn positive(number: int) -> nat {
    if number < 0 {
        0
    } else {
        number as nat
    }
}

/// A signed count as the machine takes it for a length.
pub open spec fn as_length(number: int) -> nat {
    if number < 0 {
        (usize::MAX as int + 1 + number) as nat
    } else {
        number as nat
    }
}

/// The format of a parameter: text where none is named, the one named where there is only one.
pub open spec fn format_of(formats: Seq<int>, position: int) -> int {
    if formats.len() == 1 {
        formats[0]
    } else if position < formats.len() {
        formats[position]
    } else {
        0
    }
}

/// The literal for a parameter, and the place behind it.
pub open spec fn literal_at(payload: Seq<u8>, at: int, format: int) -> Result<
    (Seq<char>, int),
    PgErrorView,
> {
    if format != 0 {
        Err(
            PgErrorView {
                code: "0A000"@,
                message: "binary parameter format is not supported yet; send text"@,
            },
        )
    } else {
        match cursor::i32_at(payload, at) {
            Err(error) => Err(error),
            Ok((length, next)) => if length < 0 {
                Ok(("NULL"@, next))
            } else {
                match cursor::bytes_at(payload, next, length as nat) {
                    Err(error) => Err(error),
                    Ok((content, end)) => if valid_utf8(content) {
                        Ok((parameters::quoted(decode_utf8(content)), end))
                    } else {
                        Err(
                            PgErrorView {
                                code: "22021"@,
                                message: "parameter is not valid UTF-8"@,
                            },
                        )
                    },
                }
            },
        }
    }
}

/// The literals for the first parameters, and the place behind them.
pub open spec fn literals_at(payload: Seq<u8>, at: int, formats: Seq<int>, count: nat) -> Result<
    (Seq<Seq<char>>, int),
    PgErrorView,
>
    decreases count,
{
    if count == 0 {
        Ok((Seq::empty(), at))
    } else {
        match literals_at(payload, at, formats, (count - 1) as nat) {
            Err(error) => Err(error),
            Ok((front, next)) => match literal_at(payload, next, format_of(formats, count - 1)) {
                Err(error) => Err(error),
                Ok((literal, end)) => Ok((front.push(literal), end)),
            },
        }
    }
}

pub open spec fn wrong_count(given: nat, wanted: nat) -> PgErrorView {
    PgErrorView {
        code: "08P01"@,
        message: "bind supplies "@ + text::decimal(given) + (
        " parameters but the statement uses "@ + text::decimal(wanted) + ""@),
    }
}

/// The text of a portal: a prepared statement with the literals of a message put in.
pub open spec fn bound_text(prepared: PreparedView, payload: Seq<u8>, at: int) -> Result<
    Seq<char>,
    PgErrorView,
> {
    match cursor::i16_at(payload, at) {
        Err(error) => Err(error),
        Ok((format_count, second)) => match formats_at(payload, second, positive(format_count)) {
            Err(error) => Err(error),
            Ok((formats, third)) => match cursor::i16_at(payload, third) {
                Err(error) => Err(error),
                Ok((value_count, fourth)) => if as_length(value_count) != prepared.parameters {
                    Err(wrong_count(as_length(value_count), prepared.parameters))
                } else {
                    match literals_at(payload, fourth, formats, prepared.parameters) {
                        Err(error) => Err(error),
                        Ok((literals, _)) => parameters::substituted(prepared.sql, literals, 0),
                    }
                },
            },
        },
    }
}

/// What binding a portal does.
pub open spec fn bound(state: ExtendedView, payload: Seq<u8>) -> Result<ExtendedView, PgErrorView> {
    match cursor::text_at(payload, 0) {
        Err(error) => Err(error),
        Ok((portal, second)) => match cursor::text_at(payload, second) {
            Err(error) => Err(error),
            Ok((name, third)) => if !state.statements.contains_key(encode_utf8(name)) {
                Err(no_statement(name))
            } else {
                match bound_text(state.statements[encode_utf8(name)], payload, third) {
                    Err(error) => Err(error),
                    Ok(sql) => Ok(
                        ExtendedView {
                            portals: state.portals.insert(encode_utf8(portal), sql),
                            ..state
                        },
                    ),
                }
            },
        },
    }
}

// Describe, execute, close.

/// As many NULLs as there are parameters.
pub open spec fn null_literals(count: nat) -> Seq<Seq<char>> {
    Seq::new(count, |i: int| "NULL"@)
}

pub open spec fn text_types(count: nat) -> Seq<u8>
    decreases count,
{
    if count == 0 {
        Seq::empty()
    } else {
        text_types((count - 1) as nat) + bytes::be_bytes(OID_TEXT as nat, 4)
    }
}

/// The message that tells a client the types of parameters: all are text.
pub open spec fn parameter_types(count: nat) -> Seq<u8> {
    message::message(116, bytes::be_bytes(count, 2) + text_types(count))
}

/// What a client asks the columns of: the messages that come first, and the text.
pub open spec fn described(state: ExtendedView, payload: Seq<u8>) -> Result<
    (Seq<u8>, Seq<char>),
    PgErrorView,
> {
    match cursor::byte_at(payload, 0) {
        Err(error) => Err(error),
        Ok((target, second)) => match cursor::text_at(payload, second) {
            Err(error) => Err(error),
            Ok((name, _)) => if target == 83 {
                if !state.statements.contains_key(encode_utf8(name)) {
                    Err(no_statement(name))
                } else {
                    let prepared = state.statements[encode_utf8(name)];
                    match parameters::substituted(
                        prepared.sql,
                        null_literals(prepared.parameters),
                        0,
                    ) {
                        Err(error) => Err(error),
                        Ok(sql) => Ok((parameter_types(prepared.parameters), sql)),
                    }
                }
            } else if target == 80 {
                if !state.portals.contains_key(encode_utf8(name)) {
                    Err(no_portal(name))
                } else {
                    Ok((Seq::empty(), state.portals[encode_utf8(name)]))
                }
            } else {
                Err(
                    PgErrorView {
                        code: "08P01"@,
                        message: "describe target must be S or P"@,
                    },
                )
            },
        },
    }
}

/// The text that a client asks to execute.
pub open spec fn executed(state: ExtendedView, payload: Seq<u8>) -> Result<Seq<char>, PgErrorView> {
    match cursor::text_at(payload, 0) {
        Err(error) => Err(error),
        Ok((name, _)) => if state.portals.contains_key(encode_utf8(name)) {
            Ok(state.portals[encode_utf8(name)])
        } else {
            Err(no_portal(name))
        },
    }
}

/// What closing a statement or a portal does; a message that cannot be read closes nothing.
pub open spec fn closed(state: ExtendedView, payload: Seq<u8>) -> ExtendedView {
    match cursor::byte_at(payload, 0) {
        Err(_) => state,
        Ok((target, second)) => match cursor::text_at(payload, second) {
            Err(_) => state,
            Ok((name, _)) => if target == 83 {
                ExtendedView { statements: state.statements.remove(encode_utf8(name)), ..state }
            } else if target == 80 {
                ExtendedView { portals: state.portals.remove(encode_utf8(name)), ..state }
            } else {
                state
            },
        },
    }
}

fn pg_error(code: &'static str, message: &str) -> (error: PgError)
    ensures
        error@ == (PgErrorView { code: code@, message: message@ }),
{
    PgError { code, message: String::from_str(message) }
}

fn missing_statement(name: &str) -> (error: PgError)
    ensures
        error@ == no_statement(name@),
{
    PgError {
        code: "26000",
        message: join_text("prepared statement \"", name, "\" does not exist"),
    }
}

fn missing_portal(name: &str) -> (error: PgError)
    ensures
        error@ == no_portal(name@),
{
    PgError { code: "34000", message: join_text("portal \"", name, "\" does not exist") }
}

proof fn lemma_formats_stop(payload: Seq<u8>, at: int, few: nat, many: nat)
    requires
        formats_at(payload, at, few) is Err,
        few <= many,
    ensures
        formats_at(payload, at, many) == formats_at(payload, at, few),
    decreases many,
{
    if few < many {
        lemma_formats_stop(payload, at, few, (many - 1) as nat);
    }
}

pub open spec fn format_views(formats: Seq<i16>) -> Seq<int> {
    Seq::new(formats.len(), |i: int| formats[i] as int)
}

fn take_formats(cursor: &mut Cursor, count: i16) -> (formats: Result<Vec<i16>, PgError>)
    requires
        old(cursor).wf(),
    ensures
        final(cursor).wf(),
        final(cursor).message() == old(cursor).message(),
        match formats {
            Ok(formats) => formats_at(
                old(cursor).message(),
                old(cursor).at(),
                positive(count as int),
            ) == Ok::<(Seq<int>, int), PgErrorView>((format_views(formats@), final(cursor).at())),
            Err(error) => formats_at(
                old(cursor).message(),
                old(cursor).at(),
                positive(count as int),
            ) == Err::<(Seq<int>, int), PgErrorView>(error@),
        },
{
    let ghost payload = cursor.message();
    let ghost start = cursor.at();
    let mut formats: Vec<i16> = Vec::new();
    let mut index: i16 = 0;
    assert(format_views(formats@) =~= Seq::empty());
    while index < count
        invariant
            0 <= index,
            index <= count || index == 0,
            payload == old(cursor).message(),
            start == old(cursor).at(),
            cursor.wf(),
            cursor.message() == payload,
            formats_at(payload, start, index as nat) == Ok::<(Seq<int>, int), PgErrorView>(
                (format_views(formats@), cursor.at()),
            ),
        decreases count - index,
    {
        match cursor.take_i16() {
            Err(error) => {
                proof {
                    lemma_formats_stop(payload, start, (index + 1) as nat, count as nat);
                }
                return Err(error);
            },
            Ok(format) => {
                let ghost before = format_views(formats@);
                formats.push(format);
                assert(format_views(formats@) =~= before.push(format as int));
            },
        }
        index = index + 1;
    }
    Ok(formats)
}

fn take_literal(cursor: &mut Cursor, format: i16) -> (literal: Result<String, PgError>)
    requires
        old(cursor).wf(),
    ensures
        final(cursor).wf(),
        final(cursor).message() == old(cursor).message(),
        match literal {
            Ok(literal) => literal_at(
                old(cursor).message(),
                old(cursor).at(),
                format as int,
            ) == Ok::<(Seq<char>, int), PgErrorView>((literal@, final(cursor).at())),
            Err(error) => literal_at(
                old(cursor).message(),
                old(cursor).at(),
                format as int,
            ) == Err::<(Seq<char>, int), PgErrorView>(error@),
        },
{
    if format != 0 {
        return Err(
            pg_error("0A000", "binary parameter format is not supported yet; send text"),
        );
    }
    let length: i32 = match cursor.take_i32() {
        Err(error) => {
            return Err(error);
        },
        Ok(length) => length,
    };
    if length < 0 {
        return Ok(String::from_str("NULL"));
    }
    let content = match cursor.take_bytes(length as usize) {
        Err(error) => {
            return Err(error);
        },
        Ok(content) => content,
    };
    match text_from_utf8(content) {
        None => Err(pg_error("22021", "parameter is not valid UTF-8")),
        Some(plain) => Ok(quote_literal(plain.as_str())),
    }
}

proof fn lemma_literals_stop(payload: Seq<u8>, at: int, formats: Seq<int>, few: nat, many: nat)
    requires
        literals_at(payload, at, formats, few) is Err,
        few <= many,
    ensures
        literals_at(payload, at, formats, many) == literals_at(payload, at, formats, few),
    decreases many,
{
    if few < many {
        lemma_literals_stop(payload, at, formats, few, (many - 1) as nat);
    }
}

fn take_literals(cursor: &mut Cursor, formats: &Vec<i16>, count: usize) -> (literals: Result<
    Vec<String>,
    PgError,
>)
    requires
        old(cursor).wf(),
    ensures
        final(cursor).wf(),
        final(cursor).message() == old(cursor).message(),
        match literals {
            Ok(literals) => literals_at(
                old(cursor).message(),
                old(cursor).at(),
                format_views(formats@),
                count as nat,
            ) == Ok::<(Seq<Seq<char>>, int), PgErrorView>(
                (parameters::literal_views(literals@), final(cursor).at()),
            ),
            Err(error) => literals_at(
                old(cursor).message(),
                old(cursor).at(),
                format_views(formats@),
                count as nat,
            ) == Err::<(Seq<Seq<char>>, int), PgErrorView>(error@),
        },
{
    let ghost payload = cursor.message();
    let ghost start = cursor.at();
    let ghost views = format_views(formats@);
    let mut literals: Vec<String> = Vec::new();
    let mut index: usize = 0;
    assert(parameters::literal_views(literals@) =~= Seq::empty());
    while index < count
        invariant
            index <= count,
            payload == old(cursor).message(),
            start == old(cursor).at(),
            views == format_views(formats@),
            cursor.wf(),
            cursor.message() == payload,
            literals_at(payload, start, views, index as nat) == Ok::<
                (Seq<Seq<char>>, int),
                PgErrorView,
            >((parameters::literal_views(literals@), cursor.at())),
        decreases count - index,
    {
        let format: i16 = if formats.len() == 1 {
            formats[0]
        } else if index < formats.len() {
            formats[index]
        } else {
            0
        };
        match take_literal(cursor, format) {
            Err(error) => {
                proof {
                    lemma_literals_stop(payload, start, views, (index + 1) as nat, count as nat);
                }
                return Err(error);
            },
            Ok(literal) => {
                let ghost before = parameters::literal_views(literals@);
                let ghost added = literal@;
                literals.push(literal);
                assert(parameters::literal_views(literals@) =~= before.push(added));
            },
        }
        index = index + 1;
    }
    Ok(literals)
}

fn length_of(number: i16) -> (length: usize)
    ensures
        length as nat == as_length(number as int),
{
    if number >= 0 {
        number as usize
    } else {
        usize::MAX - ((-1 - number as i32) as usize)
    }
}

/// The text of a portal.
fn bind_text(cursor: &mut Cursor, prepared: &Prepared) -> (sql: Result<String, PgError>)
    requires
        old(cursor).wf(),
    ensures
        final(cursor).wf(),
        match sql {
            Ok(sql) => bound_text(
                PreparedView { sql: prepared.sql@, parameters: prepared.parameters as nat },
                old(cursor).message(),
                old(cursor).at(),
            ) == Ok::<Seq<char>, PgErrorView>(sql@),
            Err(error) => bound_text(
                PreparedView { sql: prepared.sql@, parameters: prepared.parameters as nat },
                old(cursor).message(),
                old(cursor).at(),
            ) == Err::<Seq<char>, PgErrorView>(error@),
        },
{
    let format_count: i16 = match cursor.take_i16() {
        Err(error) => {
            return Err(error);
        },
        Ok(count) => count,
    };
    let formats = match take_formats(cursor, format_count) {
        Err(error) => {
            return Err(error);
        },
        Ok(formats) => formats,
    };
    let value_count: usize = match cursor.take_i16() {
        Err(error) => {
            return Err(error);
        },
        Ok(count) => length_of(count),
    };
    if value_count != prepared.parameters {
        let tail = text_with_number(
            " parameters but the statement uses ",
            prepared.parameters as u64,
            "",
        );
        return Err(
            PgError {
                code: "08P01",
                message: text_with_number("bind supplies ", value_count as u64, tail.as_str()),
            },
        );
    }
    let literals = match take_literals(cursor, &formats, value_count) {
        Err(error) => {
            return Err(error);
        },
        Ok(literals) => literals,
    };
    substitute_parameters(prepared.sql.as_str(), &literals)
}

/// What a client is to get about a text: messages that come first, and the text to look at.
pub struct Description {
    pub head: Vec<u8>,
    pub sql: String,
}

fn parameter_type_message(count: usize) -> (out: Vec<u8>)
    ensures
        out@ == parameter_types(count as nat),
{
    let mut body: Vec<u8> = Vec::new();
    put_be(&mut body, count as u64, 2);
    let ghost head = body@;
    let mut index: usize = 0;
    assert(body@ =~= head + text_types(0));
    while index < count
        invariant
            index <= count,
            body@ == head + text_types(index as nat),
        decreases count - index,
    {
        put_be(&mut body, OID_TEXT as u64, 4);
        assert(body@ =~= head + text_types((index + 1) as nat));
        index = index + 1;
    }
    let mut out: Vec<u8> = Vec::new();
    assert(head =~= bytes::be_bytes(count as nat, 2));
    put_message(&mut out, 116, body.as_slice());
    assert(out@ =~= parameter_types(count as nat));
    out
}

fn null_list(count: usize) -> (literals: Vec<String>)
    ensures
        parameters::literal_views(literals@) == null_literals(count as nat),
{
    let mut literals: Vec<String> = Vec::new();
    let mut index: usize = 0;
    while index < count
        invariant
            index <= count,
            literals@.len() == index,
            forall|i: int| 0 <= i < index ==> (#[trigger] literals@[i])@ == "NULL"@,
        decreases count - index,
    {
        literals.push(String::from_str("NULL"));
        index = index + 1;
    }
    assert(parameters::literal_views(literals@) =~= null_literals(count as nat));
    literals
}

impl ExtendedState {
    pub closed spec fn wf(&self) -> bool {
        self.statements.wf() && self.portals.wf()
    }

    /// No statements and no portals.
    pub fn new() -> (state: ExtendedState)
        ensures
            state.wf(),
            state@ == (ExtendedView {
                statements: Map::empty(),
                portals: Map::empty(),
                skip_until_sync: false,
            }),
    {
        let state = ExtendedState {
            statements: KeyMap::new(),
            portals: KeyMap::new(),
            skip_until_sync: false,
        };
        assert(state@.statements =~= Map::empty());
        assert(state@.portals =~= Map::empty());
        state
    }

    /// Whether messages are skipped.
    pub fn skips(&self) -> (yes: bool)
        ensures
            yes == self@.skip_until_sync,
    {
        self.skip_until_sync
    }

    /// Skips messages from now on, or no longer.
    pub fn set_skip(&mut self, skip: bool)
        requires
            old(self).wf(),
        ensures
            final(self).wf(),
            final(self)@ == (ExtendedView { skip_until_sync: skip, ..old(self)@ }),
    {
        self.skip_until_sync = skip;
    }

    /// Prepares a statement.
    pub fn handle_parse(&mut self, payload: &[u8]) -> (done: Result<(), PgError>)
        requires
            old(self).wf(),
        ensures
            final(self).wf(),
            match done {
                Ok(_) => parsed(old(self)@, payload@) == Ok::<ExtendedView, PgErrorView>(
                    final(self)@,
                ),
                Err(error) => parsed(old(self)@, payload@) == Err::<ExtendedView, PgErrorView>(
                    error@,
                ) && final(self)@ == old(self)@,
            },
    {
        let mut cursor = Cursor::new(payload);
        let name = match cursor.take_cstring() {
            Err(error) => {
                return Err(error);
            },
            Ok(name) => name,
        };
        let sql = match cursor.take_cstring() {
            Err(error) => {
                return Err(error);
            },
            Ok(sql) => sql,
        };
        let parameters = count_parameters(sql.as_str());
        let declared: i16 = match cursor.take_i16() {
            Err(error) => {
                return Err(error);
            },
            Ok(declared) => declared,
        };
        match skip_numbers(&mut cursor, declared) {
            Err(error) => {
                return Err(error);
            },
            Ok(_) => {},
        }
        let ghost before = self.statements@;
        let ghost k = encode_utf8(name@);
        let ghost view = PreparedView { sql: sql@, parameters: parameters as nat };
        self.statements.insert(
            copy_bytes(name.as_str().as_bytes()),
            Prepared { sql, parameters },
        );
        assert(prepared_views(self.statements@) =~= prepared_views(before).insert(k, view));
        Ok(())
    }

    /// Binds a portal.
    pub fn handle_bind(&mut self, payload: &[u8]) -> (done: Result<(), PgError>)
        requires
            old(self).wf(),
        ensures
            final(self).wf(),
            match done {
                Ok(_) => bound(old(self)@, payload@) == Ok::<ExtendedView, PgErrorView>(
                    final(self)@,
                ),
                Err(error) => bound(old(self)@, payload@) == Err::<ExtendedView, PgErrorView>(
                    error@,
                ) && final(self)@ == old(self)@,
            },
    {
        let mut cursor = Cursor::new(payload);
        let portal = match cursor.take_cstring() {
            Err(error) => {
                return Err(error);
            },
            Ok(portal) => portal,
        };
        let name = match cursor.take_cstring() {
            Err(error) => {
                return Err(error);
            },
            Ok(name) => name,
        };
        let prepared = match self.statements.get(name.as_str().as_bytes()) {
            None => {
                return Err(missing_statement(name.as_str()));
            },
            Some(prepared) => prepared,
        };
        let sql = match bind_text(&mut cursor, prepared) {
            Err(error) => {
                return Err(error);
            },
            Ok(sql) => sql,
        };
        let ghost before = self.portals@;
        let ghost k = encode_utf8(portal@);
        let ghost view = sql@;
        self.portals.insert(copy_bytes(portal.as_str().as_bytes()), sql);
        assert(portal_views(self.portals@) =~= portal_views(before).insert(k, view));
        Ok(())
    }

    /// What a client asks the columns of.
    pub fn handle_describe(&self, payload: &[u8]) -> (description: Result<Description, PgError>)
        requires
            self.wf(),
        ensures
            match description {
                Ok(description) => described(self@, payload@) == Ok::<
                    (Seq<u8>, Seq<char>),
                    PgErrorView,
                >((description.head@, description.sql@)),
                Err(error) => described(self@, payload@) == Err::<
                    (Seq<u8>, Seq<char>),
                    PgErrorView,
                >(error@),
            },
    {
        let mut cursor = Cursor::new(payload);
        let target: u8 = match cursor.take_u8() {
            Err(error) => {
                return Err(error);
            },
            Ok(target) => target,
        };
        let name = match cursor.take_cstring() {
            Err(error) => {
                return Err(error);
            },
            Ok(name) => name,
        };
        if target == 83 {
            match self.statements.get(name.as_str().as_bytes()) {
                None => Err(missing_statement(name.as_str())),
                Some(prepared) => {
                    let literals = null_list(prepared.parameters);
                    match substitute_parameters(prepared.sql.as_str(), &literals) {
                        Err(error) => Err(error),
                        Ok(sql) => Ok(
                            Description { head: parameter_type_message(prepared.parameters), sql },
                        ),
                    }
                },
            }
        } else if target == 80 {
            match self.portals.get(name.as_str().as_bytes()) {
                None => Err(missing_portal(name.as_str())),
                Some(sql) => {
                    let head: Vec<u8> = Vec::new();
                    assert(head@ =~= Seq::empty());
                    Ok(Description { head, sql: copy_text(sql) })
                },
            }
        } else {
            Err(pg_error("08P01", "describe target must be S or P"))
        }
    }

    /// The text that a client asks to execute.
    pub fn handle_execute(&self, payload: &[u8]) -> (sql: Result<String, PgError>)
        requires
            self.wf(),
        ensures
            match sql {
                Ok(sql) => executed(self@, payload@) == Ok::<Seq<char>, PgErrorView>(sql@),
                Err(error) => executed(self@, payload@) == Err::<Seq<char>, PgErrorView>(error@),
            },
    {
        let mut cursor = Cursor::new(payload);
        let name = match cursor.take_cstring() {
            Err(error) => {
                return Err(error);
            },
            Ok(name) => name,
        };
        match self.portals.get(name.as_str().as_bytes()) {
            None => Err(missing_portal(name.as_str())),
            Some(sql) => Ok(copy_text(sql)),
        }
    }

    /// Closes a statement or a portal.
    pub fn handle_close(&mut self, payload: &[u8])
        requires
            old(self).wf(),
        ensures
            final(self).wf(),
            final(self)@ == closed(old(self)@, payload@),
    {
        let mut cursor = Cursor::new(payload);
        let target: u8 = match cursor.take_u8() {
            Err(_) => {
                return;
            },
            Ok(target) => target,
        };
        let name = match cursor.take_cstring() {
            Err(_) => {
                return;
            },
            Ok(name) => name,
        };
        let ghost k = encode_utf8(name@);
        if target == 83 {
            let ghost before = self.statements@;
            let gone = self.statements.remove(name.as_str().as_bytes());
            assert(prepared_views(self.statements@) =~= prepared_views(before).remove(k));
        } else if target == 80 {
            let ghost before = self.portals@;
            let gone = self.portals.remove(name.as_str().as_bytes());
            assert(portal_views(self.portals@) =~= portal_views(before).remove(k));
        }
    }
}

fn skip_numbers(cursor: &mut Cursor, count: i16) -> (done: Result<(), PgError>)
    requires
        old(cursor).wf(),
    ensures
        final(cursor).wf(),
        match done {
            Ok(_) => numbers_skipped(
                old(cursor).message(),
                old(cursor).at(),
                count as int,
            ) is Ok,
            Err(error) => numbers_skipped(
                old(cursor).message(),
                old(cursor).at(),
                count as int,
            ) == Err::<int, PgErrorView>(error@),
        },
{
    let ghost payload = cursor.message();
    let ghost start = cursor.at();
    let mut left: i16 = count;
    while left > 0
        invariant
            left <= count,
            payload == old(cursor).message(),
            start == old(cursor).at(),
            cursor.wf(),
            cursor.message() == payload,
            numbers_skipped(payload, start, count as int) == numbers_skipped(
                payload,
                cursor.at(),
                left as int,
            ),
        decreases left,
    {
        match cursor.take_i32() {
            Err(error) => {
                return Err(error);
            },
            Ok(_) => {},
        }
        left = left - 1;
    }
    Ok(())
}

} // verus!
