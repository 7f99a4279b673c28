//! The course of a connection: its startup, and what follows from each message.
use crate::engine::error;
use crate::engine::error::EngineError;
use crate::engine::session::SessionStatus;
use crate::server::pg::cursor;
use crate::server::pg::cursor::Cursor;
use crate::server::pg::error as pg_error;
use crate::server::pg::error::{sqlstate, PgError, PgErrorView};
use crate::server::pg::extended;
use crate::server::pg::extended::{Description, ExtendedState, ExtendedView};
use crate::server::pg::message;
use crate::server::pg::message::{put_error, put_message, put_ready, welcome_messages};
use crate::text;
use crate::text::{chars_of, join_text, trim_end, trim_start};
use vstd::prelude::*;
use vstd::string::*;

verus! {

pub const PROTOCOL_VERSION_3: i32 = 196_608;

pub const SSL_REQUEST_CODE: i32 = 80_877_103;

pub const GSSENC_REQUEST_CODE: i32 = 80_877_104;

pub const CANCEL_REQUEST_CODE: i32 = 80_877_102;

pub const MAX_STARTUP_BYTES: i32 = 65_536;

pub const MAX_QUERY_BYTES: i32 = 4_194_304;

/// What a startup message leads to.
pub enum Startup {
    /// Encryption is refused; the client starts again.
    Again(Vec<u8>),
    /// The connection stands.
    Begin(Vec<u8>),
    /// The client is told, and the connection ends.
    Close(Vec<u8>),
}

#[verifier::ext_equal]
pub enum StartupView {
    Again(Seq<u8>),
    Begin(Seq<u8>),
    Close(Seq<u8>),
}

impl View for Startup {
    type V = StartupView;

    open spec fn view(&self) -> StartupView {
        match self {
            Startup::Again(out) => StartupView::Again(out@),
            Startup::Begin(out) => StartupView::Begin(out@),
            Startup::Close(out) => StartupView::Close(out@),
        }
    }
}

/// How many bytes of a startup message follow its length and its code; none where the length is not
/// one that such a message may have, which ends the connection.
pub fn startup_rest(length: i32) -> (rest: Option<usize>)
    ensures
        rest == (if 8 <= length <= MAX_STARTUP_BYTES {
            Some((length - 8) as usize)
        } else {
            None
        }),
{
    if length < 8 || length > MAX_STARTUP_BYTES {
        None
    } else {
        Some((length - 8) as usize)
    }
}

/// What a startup message with a code leads to.
pub open spec fn started(code: i32) -> StartupView {
    if code == SSL_REQUEST_CODE || code == GSSENC_REQUEST_CODE {
        StartupView::Again(seq![78u8])
    } else if code == CANCEL_REQUEST_CODE {
        StartupView::Close(Seq::empty())
    } else if code == PROTOCOL_VERSION_3 {
        StartupView::Begin(message::welcome())
    } else {
        StartupView::Close(
            message::error_message(
                "08P01"@,
                "unsupported protocol version; QuantaDB speaks protocol 3.0"@,
            ),
        )
    }
}

/// Answers a startup message.
pub fn handshake(code: i32) -> (startup: Startup)
    ensures
        startup@ == started(code),
{
    let mut out: Vec<u8> = Vec::new();
    assert(out@ =~= Seq::empty());
    if code == SSL_REQUEST_CODE || code == GSSENC_REQUEST_CODE {
        out.push(78);
        assert(out@ =~= seq![78u8]);
        Startup::Again(out)
    } else if code == CANCEL_REQUEST_CODE {
        Startup::Close(out)
    } else if code == PROTOCOL_VERSION_3 {
        Startup::Begin(welcome_messages())
    } else {
        put_error(
            &mut out,
            "08P01",
            "unsupported protocol version; QuantaDB speaks protocol 3.0",
        );
        assert(out@ =~= message::error_message(
            "08P01"@,
            "unsupported protocol version; QuantaDB speaks protocol 3.0"@,
        ));
        Startup::Close(out)
    }
}

/// How many bytes of a message follow its length; or what the client is told before the connection
/// ends, where the length is not one that a message may have.
pub fn message_rest(length: i32) -> (rest: Result<usize, Vec<u8>>)
    ensures
        match rest {
            Ok(rest) => 4 <= length <= MAX_QUERY_BYTES && rest == length - 4,
            Err(out) => !(4 <= length <= MAX_QUERY_BYTES) && out@ == message::error_message(
                "08P01"@,
                "message length is out of range"@,
            ),
        },
{
    if length < 4 || length > MAX_QUERY_BYTES {
        let mut out: Vec<u8> = Vec::new();
        put_error(&mut out, "08P01", "message length is out of range");
        assert(out@ =~= message::error_message("08P01"@, "message length is out of range"@));
        Err(out)
    } else {
        Ok((length - 4) as usize)
    }
}

/// What is to be done about a message.
pub enum Action {
    /// Nothing.
    Ignore,
    /// Write bytes, and send them now or when more has gathered.
    Send { out: Vec<u8>, flush: bool },
    /// Execute a text and answer as the simple protocol asks.
    Query { sql: String },
    /// Write bytes, then the columns of a text.
    Describe(Description),
    /// Execute a text and answer with its rows.
    Execute { sql: String },
    /// Send what was written.
    Flush,
    /// End the connection.
    Close,
}

#[verifier::ext_equal]
pub enum ActionView {
    Ignore,
    Send { out: Seq<u8>, flush: bool },
    Query { sql: Seq<char> },
    Describe { head: Seq<u8>, sql: Seq<char> },
    Execute { sql: Seq<char> },
    Flush,
    Close,
}

impl View for Action {
    type V = ActionView;

    open spec fn view(&self) -> ActionView {
        match self {
            Action::Ignore => ActionView::Ignore,
            Action::Send { out, flush } => ActionView::Send { out: out@, flush: *flush },
            Action::Query { sql } => ActionView::Query { sql: sql@ },
            Action::Describe(description) => ActionView::Describe {
                head: description.head@,
                sql: description.sql@,
            },
            Action::Execute { sql } => ActionView::Execute { sql: sql@ },
            Action::Flush => ActionView::Flush,
            Action::Close => ActionView::Close,
        }
    }
}

/// A failure in the extended protocol: the client is told, and messages are skipped from then on.
pub open spec fn failed(state: ExtendedView, error: PgErrorView) -> (ExtendedView, ActionView) {
    (
        ExtendedView { skip_until_sync: true, ..state },
        ActionView::Send { out: message::error_message(error.code, error.message), flush: true },
    )
}

/// The text of a simple query; none where it cannot be read.
pub open spec fn query_text(payload: Seq<u8>) -> Seq<char> {
    match cursor::text_at(payload, 0) {
        Ok((sql, _)) => sql,
        Err(_) => Seq::empty(),
    }
}

pub open spec fn unknown_message(kind: u8) -> Seq<char> {
    "message '"@ + seq![kind as char] + "' is not supported"@
}

pub open spec fn changed(
    state: ExtendedView,
    after: Result<ExtendedView, PgErrorView>,
    kind: u8,
) -> (ExtendedView, ActionView) {
    match after {
        Err(error) => failed(state, error),
        Ok(after) => (
            after,
            ActionView::Send { out: message::message(kind, Seq::empty()), flush: false },
        ),
    }
}

/// What follows from a message, with the session in a status.
pub open spec fn received(
    state: ExtendedView,
    kind: u8,
    payload: Seq<u8>,
    status: SessionStatus,
) -> (ExtendedView, ActionView) {
    if state.skip_until_sync && kind != 83 && kind != 88 {
        (state, ActionView::Ignore)
    } else if kind == 81 {
        let sql = query_text(payload);
        (
            state,
            if text::trimmed(sql).len() == 0 {
                ActionView::Send {
                    out: message::message(73, Seq::empty()) + message::ready_message(status),
                    flush: true,
                }
            } else {
                ActionView::Query { sql }
            },
        )
    } else if kind == 80 {
        changed(state, extended::parsed(state, payload), 49)
    } else if kind == 66 {
        changed(state, extended::bound(state, payload), 50)
    } else if kind == 68 {
        match extended::described(state, payload) {
            Err(error) => failed(state, error),
            Ok((head, sql)) => (state, ActionView::Describe { head, sql }),
        }
    } else if kind == 69 {
        match extended::executed(state, payload) {
            Err(error) => failed(state, error),
            Ok(sql) => (state, ActionView::Execute { sql }),
        }
    } else if kind == 67 {
        changed(state, Ok(extended::closed(state, payload)), 51)
    } else if kind == 72 {
        (state, ActionView::Flush)
    } else if kind == 83 {
        (
            ExtendedView { skip_until_sync: false, ..state },
            ActionView::Send { out: message::ready_message(status), flush: true },
        )
    } else if kind == 88 {
        (state, ActionView::Close)
    } else {
        (
            state,
            ActionView::Send {
                out: message::error_message("0A000"@, unknown_message(kind))
                    + message::ready_message(status),
                flush: true,
            },
        )
    }
}

/// The messages that are received one after another, each with the session's status at that time,
/// and the state that they leave.
pub open spec fn received_all(
    state: ExtendedView,
    messages: Seq<(u8, Seq<u8>, SessionStatus)>,
) -> ExtendedView
    decreases messages.len(),
{
    if messages.len() == 0 {
        state
    } else {
        let (kind, payload, status) = messages.last();
        received(received_all(state, messages.drop_last()), kind, payload, status).0
    }
}

/// After a failure in the extended protocol the server keeps silent, and keeps what it has, through
/// every message up to the next that asks where it stands.
pub proof fn law_silent_until_sync(
    state: ExtendedView,
    messages: Seq<(u8, Seq<u8>, SessionStatus)>,
    kind: u8,
    payload: Seq<u8>,
    status: SessionStatus,
)
    requires
        state.skip_until_sync,
        forall|i: int| 0 <= i < messages.len() ==> (#[trigger] messages[i]).0 != 83,
        kind != 83,
    ensures
        received_all(state, messages) == state,
        kind != 88 ==> received(received_all(state, messages), kind, payload, status)
            == (state, ActionView::Ignore),
        received(received_all(state, messages), 83, payload, status).0
            == (ExtendedView { skip_until_sync: false, ..state }),
    decreases messages.len(),
{
    if messages.len() > 0 {
        let front = messages.drop_last();
        assert forall|i: int| 0 <= i < front.len() implies (#[trigger] front[i]).0 != 83 by {
            assert(front[i] == messages[i]);
        }
        law_silent_until_sync(state, front, kind, payload, status);
        assert(messages.last() == messages[messages.len() - 1]);
    }
}

fn error_bytes(code: &str, detail: &str) -> (out: Vec<u8>)
    ensures
        out@ == message::error_message(code@, detail@),
{
    let mut out: Vec<u8> = Vec::new();
    put_error(&mut out, code, detail);
    assert(out@ =~= message::error_message(code@, detail@));
    out
}

fn ready_bytes(status: SessionStatus) -> (out: Vec<u8>)
    ensures
        out@ == message::ready_message(status),
{
    let mut out: Vec<u8> = Vec::new();
    put_ready(&mut out, status);
    assert(out@ =~= message::ready_message(status));
    out
}

fn empty_message(kind: u8) -> (out: Vec<u8>)
    ensures
        out@ == message::message(kind, Seq::empty()),
{
    let body: Vec<u8> = Vec::new();
    let mut out: Vec<u8> = Vec::new();
    assert(body@ =~= Seq::empty());
    put_message(&mut out, kind, body.as_slice());
    assert(out@ =~= message::message(kind, Seq::empty()));
    out
}

/// Whether a text is nothing but white space.
fn blank(sql: &str) -> (yes: bool)
    ensures
        yes == (text::trimmed(sql@).len() == 0),
{
    let chars = chars_of(sql);
    let length: usize = chars.len();
    let first = trim_start(&chars, 0, length);
    let stop = trim_end(&chars, first, length);
    assert(chars@.subrange(0, length as int) =~= sql@);
    first == stop
}

/// A connection that has been accepted.
pub struct Connection {
    extended: ExtendedState,
}

impl View for Connection {
    type V = ExtendedView;

    closed spec fn view(&self) -> ExtendedView {
        self.extended@
    }
}

impl Connection {
    pub closed spec fn wf(&self) -> bool {
        self.extended.wf()
    }

    /// A connection without statements or portals.
    pub fn new() -> (connection: Connection)
        ensures
            connection.wf(),
            connection@ == (ExtendedView {
                statements: Map::empty(),
                portals: Map::empty(),
                skip_until_sync: false,
            }),
    {
        Connection { extended: ExtendedState::new() }
    }

    fn refuse(&mut self, error: PgError) -> (action: Action)
        requires
            old(self).wf(),
        ensures
            final(self).wf(),
            (final(self)@, action@) == failed(old(self)@, error@),
    {
        self.extended.set_skip(true);
        Action::Send { out: error_bytes(error.code, error.message.as_str()), flush: true }
    }

    /// Takes a message.
    pub fn receive(&mut self, kind: u8, payload: &[u8], status: SessionStatus) -> (action: Action)
        requires
            old(self).wf(),
        ensures
            final(self).wf(),
            (final(self)@, action@) == received(old(self)@, kind, payload@, status),
    {
        if self.extended.skips() && kind != 83 && kind != 88 {
            return Action::Ignore;
        }
        match kind {
            81 => {
                let mut reader = Cursor::new(payload);
                let sql = match reader.take_cstring() {
                    Ok(sql) => sql,
                    Err(_) => {
                        let none = String::new();
                        assert(none@ =~= Seq::empty());
                        none
                    },
                };
                if blank(sql.as_str()) {
                    let mut out = empty_message(73);
                    put_ready(&mut out, status);
                    Action::Send { out, flush: true }
                } else {
                    Action::Query { sql }
                }
            },
            80 => match self.extended.handle_parse(payload) {
                Err(error) => self.refuse(error),
                Ok(_) => Action::Send { out: empty_message(49), flush: false },
            },
            66 => match self.extended.handle_bind(payload) {
                Err(error) => self.refuse(error),
                Ok(_) => Action::Send { out: empty_message(50), flush: false },
            },
            68 => match self.extended.handle_describe(payload) {
                Err(error) => self.refuse(error),
                Ok(description) => Action::Describe(description),
            },
            69 => match self.extended.handle_execute(payload) {
                Err(error) => self.refuse(error),
                Ok(sql) => Action::Execute { sql },
            },
            67 => {
                self.extended.handle_close(payload);
                Action::Send { out: empty_message(51), flush: false }
            },
            72 => Action::Flush,
            83 => {
                self.extended.set_skip(false);
                Action::Send { out: ready_bytes(status), flush: true }
            },
            88 => Action::Close,
            other => {
                let mut letter = String::new();
                letter.push(other as char);
                assert(letter@ =~= seq![other as char]);
                let detail = join_text("message '", letter.as_str(), "' is not supported");
                let mut out = error_bytes("0A000", detail.as_str());
                put_ready(&mut out, status);
                Action::Send { out, flush: true }
            },
        }
    }

    /// Tells the client that a statement of the extended protocol failed.
    pub fn fail(&mut self, error: &EngineError) -> (out: Vec<u8>)
        requires
            old(self).wf(),
        ensures
            final(self).wf(),
            final(self)@ == (ExtendedView { skip_until_sync: true, ..old(self)@ }),
            out@ == message::error_message(
                pg_error::state_of(error@),
                error::engine_message(error@),
            ),
    {
        self.extended.set_skip(true);
        error_bytes(sqlstate(error), error.message().as_str())
    }
}

/// Every message is answered by its letter: `Q` runs a text, `P` prepares one, `B` binds a portal, `D`
/// describes, `E` executes a portal, `C` closes, `H` flushes, `S` tells how the session stands, and `X`
/// ends the connection. What cannot be done is told, and silence follows until the next `S`.
pub proof fn law_messages_are_answered(
    state: ExtendedView,
    kind: u8,
    payload: Seq<u8>,
    status: SessionStatus,
)
    requires
        !state.skip_until_sync,
    ensures
        ({
            let (after, action) = received(state, kind, payload, status);
            let letter = kind as char;
            &&& letter == 'Q' ==> after == state && (text::trimmed(query_text(payload)).len() > 0
                ==> action == (ActionView::Query { sql: query_text(payload) }))
            &&& letter == 'P' ==> match extended::parsed(state, payload) {
                Ok(prepared) => after == prepared && action == (ActionView::Send {
                    out: message::message('1' as u8, Seq::empty()),
                    flush: false,
                }),
                Err(_) => after.skip_until_sync && action is Send,
            }
            &&& letter == 'B' ==> match extended::bound(state, payload) {
                Ok(bound) => after == bound && action == (ActionView::Send {
                    out: message::message('2' as u8, Seq::empty()),
                    flush: false,
                }),
                Err(_) => after.skip_until_sync && action is Send,
            }
            &&& letter == 'D' ==> match extended::described(state, payload) {
                Ok((head, sql)) => after == state && action == (ActionView::Describe {
                    head,
                    sql,
                }),
                Err(_) => after.skip_until_sync && action is Send,
            }
            &&& letter == 'E' ==> match extended::executed(state, payload) {
                Ok(sql) => after == state && action == (ActionView::Execute { sql }),
                Err(_) => after.skip_until_sync && action is Send,
            }
            &&& letter == 'C' ==> after == extended::closed(state, payload) && action == (
            ActionView::Send { out: message::message('3' as u8, Seq::empty()), flush: false })
            &&& letter == 'H' ==> after == state && action is Flush
            &&& letter == 'S' ==> after == state && action == (ActionView::Send {
                out: message::message(
                    'Z' as u8,
                    seq![
                        match status {
                            SessionStatus::Idle => 'I' as u8,
                            SessionStatus::InTransaction => 'T' as u8,
                            SessionStatus::Failed => 'E' as u8,
                        },
                    ],
                ),
                flush: true,
            })
            &&& letter == 'X' ==> action is Close
        }),
{
}

} // verus!
