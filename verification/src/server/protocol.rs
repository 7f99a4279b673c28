//! Requests and responses.
use crate::syntax::{Span, Statement};
use vstd::prelude::*;
use vstd::string::*;

verus! {

/// The version of the protocol that requests must name.
pub const PROTOCOL_VERSION: u16 = 1;

/// The version that the server reports.
pub const SERVER_VERSION: &'static str = "0.1.0";

#[derive(Clone, Debug, PartialEq, Eq)]
pub enum Request {
    Ping,
    Parse { sql: String },
    Execute { sql: String },
}

#[derive(Clone, Debug, PartialEq, Eq)]
pub struct RequestFrame {
    pub protocol_version: u16,
    pub request_id: u64,
    pub request: Request,
}

#[derive(Clone, Copy, Debug, PartialEq, Eq, Structural)]
pub enum TransactionState {
    Begun,
    Committed,
    RolledBack,
}

#[derive(Clone, Debug, PartialEq, Eq)]
pub struct ColumnMetadata {
    pub name: String,
    pub data_type: String,
    pub nullable: bool,
}

/// A value in a response. A float is kept as the bits of its double-precision representation.
#[derive(Clone, Debug, PartialEq, Eq)]
pub enum ScalarValue {
    Null,
    Boolean(bool),
    Integer(i64),
    Float(u64),
    Text(String),
}

#[derive(Clone, Debug, PartialEq, Eq)]
pub enum StatementResult {
    Transaction { state: TransactionState },
    Command { tag: String, affected_rows: u64 },
    Query { columns: Vec<ColumnMetadata>, rows: Vec<Vec<ScalarValue>> },
}

#[derive(Clone, Copy, Debug, PartialEq, Eq, Structural)]
pub enum ErrorCode {
    InvalidJson,
    UnsupportedProtocolVersion,
    SyntaxError,
    ExecutionUnavailable,
    ExecutionError,
    TransactionError,
    FrameTooLarge,
    IdleTimeout,
    ServerBusy,
}

#[derive(Clone, Debug, PartialEq, Eq)]
pub struct ProtocolError {
    pub code: ErrorCode,
    pub message: String,
    pub span: Option<Span>,
}

#[derive(Debug, PartialEq, Eq)]
pub enum Response {
    Pong { server_version: String },
    Parsed { statements: Vec<Statement> },
    Executed { results: Vec<StatementResult> },
    Error { error: ProtocolError },
}

#[derive(Debug, PartialEq, Eq)]
pub struct ResponseFrame {
    pub protocol_version: u16,
    pub request_id: u64,
    pub response: Response,
}

/// Whether a response is a given error.
pub open spec fn is_error(
    response: Response,
    code: ErrorCode,
    message: Seq<char>,
    span: Option<Span>,
) -> bool {
    response matches Response::Error { error } && error.code == code && error.message@ == message
        && error.span == span
}

impl ResponseFrame {
    /// The answer to a ping.
    pub fn pong(request_id: u64) -> (frame: ResponseFrame)
        ensures
            frame.protocol_version == PROTOCOL_VERSION,
            frame.request_id == request_id,
            frame.response matches Response::Pong { server_version } && server_version@
                == SERVER_VERSION@,
    {
        ResponseFrame {
            protocol_version: PROTOCOL_VERSION,
            request_id,
            response: Response::Pong { server_version: String::from_str(SERVER_VERSION) },
        }
    }

    /// Statements that a text was read as.
    pub fn parsed(request_id: u64, statements: Vec<Statement>) -> (frame: ResponseFrame)
        ensures
            frame == (ResponseFrame {
                protocol_version: PROTOCOL_VERSION,
                request_id,
                response: Response::Parsed { statements },
            }),
    {
        ResponseFrame {
            protocol_version: PROTOCOL_VERSION,
            request_id,
            response: Response::Parsed { statements },
        }
    }

    /// An error.
    pub fn error(request_id: u64, code: ErrorCode, message: String, span: Option<Span>) -> (frame:
        ResponseFrame)
        ensures
            frame.protocol_version == PROTOCOL_VERSION,
            frame.request_id == request_id,
            is_error(frame.response, code, message@, span),
    {
        ResponseFrame {
            protocol_version: PROTOCOL_VERSION,
            request_id,
            response: Response::Error { error: ProtocolError { code, message, span } },
        }
    }
}

} // verus!
