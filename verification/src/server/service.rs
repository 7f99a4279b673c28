//! Answering requests.
use crate::engine::error::{EngineError, EngineErrorView};
use crate::engine::error;
use crate::engine::output::{
    OutputColumn,
    OutputColumnView,
    OutputView,
    StatementOutput,
    TransactionOutput,
};
use crate::engine::output;
use crate::engine::schema::LogicalType;
use crate::engine::value;
use crate::engine::value::{copy_text, Value, ValueView};
use crate::server::protocol::{
    ColumnMetadata,
    ErrorCode,
    ProtocolError,
    RequestFrame,
    Response,
    ResponseFrame,
    ScalarValue,
    StatementResult,
    TransactionState,
    PROTOCOL_VERSION,
    SERVER_VERSION,
};
use crate::server::protocol;
use crate::syntax::{Span, Statement};
use crate::text;
use crate::text::text_with_number;
use vstd::prelude::*;
use vstd::string::*;

verus! {

/// A service that reads statements and executes none.
#[derive(Clone, Copy, Debug)]
pub struct SyntaxService;

/// A text that is no SQL: what is wrong with it, and where.
#[derive(Clone, Debug, PartialEq, Eq)]
pub struct SyntaxFault {
    pub message: String,
    pub span: Span,
}

/// The name that a type has in responses.
pub open spec fn shown_type(data_type: LogicalType) -> Seq<char> {
    match data_type {
        LogicalType::Unknown => "unknown"@,
        LogicalType::Boolean => "boolean"@,
        LogicalType::Int64 => "int64"@,
        LogicalType::Float64 => "float64"@,
        LogicalType::Text { max_length: None } => "text"@,
        LogicalType::Text { max_length: Some(maximum) } => "varchar("@ + text::decimal(
            maximum as nat,
        ) + ")"@,
    }
}

pub open spec fn transaction_state(done: TransactionOutput) -> TransactionState {
    match done {
        TransactionOutput::Begun => TransactionState::Begun,
        TransactionOutput::Committed => TransactionState::Committed,
        TransactionOutput::RolledBack => TransactionState::RolledBack,
    }
}

/// Whether a value in a response is a value of the database.
pub open spec fn shows_value(shown: ScalarValue, value: ValueView) -> bool {
    match (shown, value) {
        (ScalarValue::Null, ValueView::Null) => true,
        (ScalarValue::Boolean(a), ValueView::Boolean(b)) => a == b,
        (ScalarValue::Integer(a), ValueView::Integer(b)) => a == b,
        (ScalarValue::Float(a), ValueView::Float(b)) => a == b,
        (ScalarValue::Text(a), ValueView::Text(b)) => a@ == b,
        _ => false,
    }
}

pub open spec fn shows_row(shown: Seq<ScalarValue>, row: Seq<ValueView>) -> bool {
    &&& shown.len() == row.len()
    &&& forall|i: int| 0 <= i < row.len() ==> shows_value(#[trigger] shown[i], row[i])
}

pub open spec fn shows_column(shown: ColumnMetadata, column: OutputColumnView) -> bool {
    &&& shown.name@ == column.name
    &&& shown.data_type@ == shown_type(column.data_type)
    &&& shown.nullable == column.nullable
}

/// Whether a result in a response is what a statement gave back.
pub open spec fn shows_output(shown: StatementResult, given: OutputView) -> bool {
    match (shown, given) {
        (StatementResult::Transaction { state }, OutputView::Transaction(done)) => state
            == transaction_state(done),
        (
            StatementResult::Command { tag, affected_rows },
            OutputView::Command { tag: name, affected_rows: count },
        ) => tag@ == name && affected_rows == count,
        (StatementResult::Query { columns, rows }, OutputView::Query { columns: heads, rows: body })
        => {
            &&& columns@.len() == heads.len()
            &&& forall|i: int| 0 <= i < heads.len() ==> shows_column(#[trigger] columns@[i], heads[i])
            &&& rows@.len() == body.len()
            &&& forall|i: int| 0 <= i < body.len() ==> shows_row((#[trigger] rows@[i])@, body[i])
        },
        _ => false,
    }
}

/// The code that an error has in responses.
pub open spec fn error_code(error: EngineErrorView) -> ErrorCode {
    match error {
        EngineErrorView::Syntax { .. } => ErrorCode::SyntaxError,
        EngineErrorView::TransactionAlreadyActive
        | EngineErrorView::NoActiveTransaction
        | EngineErrorView::TransactionAborted
        | EngineErrorView::Transaction(_) => ErrorCode::TransactionError,
        _ => ErrorCode::ExecutionError,
    }
}

/// Whether a response is a failure of a statement.
pub open spec fn shows_error(response: Response, error: EngineErrorView) -> bool {
    match error {
        EngineErrorView::Syntax { message, span } => protocol::is_error(
            response,
            ErrorCode::SyntaxError,
            message,
            Some(span),
        ),
        _ => protocol::is_error(
            response,
            error_code(error),
            error::engine_message(error),
            None,
        ),
    }
}

pub open spec fn is_pong(response: Response) -> bool {
    response matches Response::Pong { server_version } && server_version@ == SERVER_VERSION@
}

/// A value of the database in a response.
pub fn map_value(value: &Value) -> (shown: ScalarValue)
    ensures
        shows_value(shown, value@),
{
    match value {
        Value::Null => ScalarValue::Null,
        Value::Boolean(set) => ScalarValue::Boolean(*set),
        Value::Integer(number) => ScalarValue::Integer(*number),
        Value::Float(bits) => ScalarValue::Float(*bits),
        Value::Text(content) => ScalarValue::Text(copy_text(content)),
    }
}

fn map_row(row: &Vec<Value>) -> (shown: Vec<ScalarValue>)
    ensures
        shows_row(shown@, value::value_views(row@)),
{
    let mut shown: Vec<ScalarValue> = Vec::new();
    let mut index: usize = 0;
    while index < row.len()
        invariant
            index <= row@.len(),
            shown@.len() == index,
            forall|i: int| 0 <= i < index ==> shows_value(#[trigger] shown@[i], row@[i]@),
        decreases row@.len() - index,
    {
        shown.push(map_value(&row[index]));
        index = index + 1;
    }
    shown
}

/// The name that a type has in responses.
pub fn logical_type_name(data_type: LogicalType) -> (name: String)
    ensures
        name@ == shown_type(data_type),
{
    match data_type {
        LogicalType::Unknown => String::from_str("unknown"),
        LogicalType::Boolean => String::from_str("boolean"),
        LogicalType::Int64 => String::from_str("int64"),
        LogicalType::Float64 => String::from_str("float64"),
        LogicalType::Text { max_length: None } => String::from_str("text"),
        LogicalType::Text { max_length: Some(maximum) } => text_with_number(
            "varchar(",
            maximum as u64,
            ")",
        ),
    }
}

fn map_columns(columns: &Vec<OutputColumn>) -> (shown: Vec<ColumnMetadata>)
    ensures
        shown@.len() == columns@.len(),
        forall|i: int| 0 <= i < columns@.len() ==> shows_column(#[trigger] shown@[i], columns@[i]@),
{
    let mut shown: Vec<ColumnMetadata> = Vec::new();
    let mut index: usize = 0;
    while index < columns.len()
        invariant
            index <= columns@.len(),
            shown@.len() == index,
            forall|i: int| 0 <= i < index ==> shows_column(#[trigger] shown@[i], columns@[i]@),
        decreases columns@.len() - index,
    {
        let column = &columns[index];
        shown.push(
            ColumnMetadata {
                name: copy_text(&column.name),
                data_type: logical_type_name(column.data_type),
                nullable: column.nullable,
            },
        );
        index = index + 1;
    }
    shown
}

/// What a statement gave back, in a response.
pub fn map_output(given: &StatementOutput) -> (shown: StatementResult)
    ensures
        shows_output(shown, given@),
{
    match given {
        StatementOutput::Transaction(done) => StatementResult::Transaction {
            state: match done {
                TransactionOutput::Begun => TransactionState::Begun,
                TransactionOutput::Committed => TransactionState::Committed,
                TransactionOutput::RolledBack => TransactionState::RolledBack,
            },
        },
        StatementOutput::Command { tag, affected_rows } => StatementResult::Command {
            tag: copy_text(tag),
            affected_rows: *affected_rows,
        },
        StatementOutput::Query { columns, rows } => {
            let heads = map_columns(columns);
            let mut body: Vec<Vec<ScalarValue>> = Vec::new();
            let mut index: usize = 0;
            while index < rows.len()
                invariant
                    index <= rows@.len(),
                    body@.len() == index,
                    forall|i: int|
                        0 <= i < index ==> shows_row(
                            (#[trigger] body@[i])@,
                            value::value_views(rows@[i]@),
                        ),
                decreases rows@.len() - index,
            {
                body.push(map_row(&rows[index]));
                index = index + 1;
            }
            proof {
                let views = output::output_columns(columns@);
                assert forall|i: int| 0 <= i < views.len() implies shows_column(
                    #[trigger] heads@[i],
                    views[i],
                ) by {
                    assert(views[i] == columns@[i]@);
                }
            }
            StatementResult::Query { columns: heads, rows: body }
        },
    }
}

/// A text that is no SQL, in a response.
pub fn syntax_error(message: &str, span: Span) -> (response: Response)
    ensures
        protocol::is_error(response, ErrorCode::SyntaxError, message@, Some(span)),
{
    Response::Error {
        error: ProtocolError {
            code: ErrorCode::SyntaxError,
            message: String::from_str(message),
            span: Some(span),
        },
    }
}

/// A failure of a statement, in a response.
pub fn map_engine_error(error: &EngineError) -> (response: Response)
    ensures
        shows_error(response, error@),
{
    let code = match error {
        EngineError::Syntax { message, span } => {
            return syntax_error(message.as_str(), *span);
        },
        EngineError::TransactionAlreadyActive => ErrorCode::TransactionError,
        EngineError::NoActiveTransaction => ErrorCode::TransactionError,
        EngineError::TransactionAborted => ErrorCode::TransactionError,
        EngineError::Transaction(_) => ErrorCode::TransactionError,
        _ => ErrorCode::ExecutionError,
    };
    Response::Error { error: ProtocolError { code, message: error.message(), span: None } }
}

/// The answer to a ping.
pub fn answer_ping() -> (response: Response)
    ensures
        is_pong(response),
{
    Response::Pong { server_version: String::from_str(SERVER_VERSION) }
}

/// The answer to a request to read a text, by how it was read.
pub fn answer_parse(read: Result<Vec<Statement>, SyntaxFault>) -> (response: Response)
    ensures
        match read {
            Ok(statements) => response == (Response::Parsed { statements }),
            Err(fault) => protocol::is_error(
                response,
                ErrorCode::SyntaxError,
                fault.message@,
                Some(fault.span),
            ),
        },
{
    match read {
        Ok(statements) => Response::Parsed { statements },
        Err(fault) => syntax_error(fault.message.as_str(), fault.span),
    }
}

/// The answer to a request to execute, by what its statements gave back.
pub fn answer_execute(done: &Result<Vec<StatementOutput>, EngineError>) -> (response: Response)
    ensures
        match *done {
            Ok(outputs) => response matches Response::Executed { results } && results@.len()
                == outputs@.len() && forall|i: int|
                0 <= i < outputs@.len() ==> shows_output(#[trigger] results@[i], outputs@[i]@),
            Err(error) => shows_error(response, error@),
        },
{
    match done {
        Err(error) => map_engine_error(error),
        Ok(outputs) => {
            let mut results: Vec<StatementResult> = Vec::new();
            let mut index: usize = 0;
            while index < outputs.len()
                invariant
                    index <= outputs@.len(),
                    results@.len() == index,
                    forall|i: int|
                        0 <= i < index ==> shows_output(#[trigger] results@[i], outputs@[i]@),
                decreases outputs@.len() - index,
            {
                results.push(map_output(&outputs[index]));
                index = index + 1;
            }
            Response::Executed { results }
        },
    }
}

impl SyntaxService {
    /// The answer to a request to execute where nothing can be executed.
    pub fn answer_execute(&self, read: &Result<Vec<Statement>, SyntaxFault>) -> (response: Response)
        ensures
            match *read {
                Ok(_) => protocol::is_error(
                    response,
                    ErrorCode::ExecutionUnavailable,
                    "this server has no SQL execution service configured"@,
                    None,
                ),
                Err(fault) => protocol::is_error(
                    response,
                    ErrorCode::SyntaxError,
                    fault.message@,
                    Some(fault.span),
                ),
            },
    {
        match read {
            Ok(_) => Response::Error {
                error: ProtocolError {
                    code: ErrorCode::ExecutionUnavailable,
                    message: String::from_str(
                        "this server has no SQL execution service configured",
                    ),
                    span: None,
                },
            },
            Err(fault) => syntax_error(fault.message.as_str(), fault.span),
        }
    }
}

/// Whether a frame is refused before its request is looked at: the bytes are no request, the
/// protocol is another version, or the server has no room for one more request.
pub open spec fn frame_refused(
    read: Result<RequestFrame, Seq<char>>,
    has_room: bool,
    frame: ResponseFrame,
) -> bool {
    frame.protocol_version == PROTOCOL_VERSION && match read {
        Err(fault) => frame.request_id == 0 && protocol::is_error(
            frame.response,
            ErrorCode::InvalidJson,
            "invalid request JSON: "@ + fault + ""@,
            None,
        ),
        Ok(request) => frame.request_id == request.request_id && if request.protocol_version
            != PROTOCOL_VERSION {
            protocol::is_error(
                frame.response,
                ErrorCode::UnsupportedProtocolVersion,
                "unsupported protocol version "@ + text::decimal(request.protocol_version as nat)
                    + ("; server requires "@ + text::decimal(PROTOCOL_VERSION as nat) + ""@),
                None,
            )
        } else {
            !has_room && protocol::is_error(
                frame.response,
                ErrorCode::ServerBusy,
                "server request execution capacity reached"@,
                None,
            )
        },
    }
}

pub open spec fn frame_view(read: Result<RequestFrame, String>) -> Result<RequestFrame, Seq<char>> {
    match read {
        Ok(request) => Ok(request),
        Err(fault) => Err(fault@),
    }
}

/// Looks at a frame: it is refused, or its request is to be answered.
pub fn check_frame(read: &Result<RequestFrame, String>, has_room: bool) -> (refused: Option<
    ResponseFrame,
>)
    ensures
        match refused {
            Some(frame) => frame_refused(frame_view(*read), has_room, frame),
            None => *read matches Ok(request) && request.protocol_version == PROTOCOL_VERSION
                && has_room,
        },
{
    match read {
        Err(fault) => Some(
            ResponseFrame::error(
                0,
                ErrorCode::InvalidJson,
                text::join_text("invalid request JSON: ", fault.as_str(), ""),
                None,
            ),
        ),
        Ok(request) => {
            if request.protocol_version != PROTOCOL_VERSION {
                let tail = text_with_number("; server requires ", PROTOCOL_VERSION as u64, "");
                return Some(
                    ResponseFrame::error(
                        request.request_id,
                        ErrorCode::UnsupportedProtocolVersion,
                        text_with_number(
                            "unsupported protocol version ",
                            request.protocol_version as u64,
                            tail.as_str(),
                        ),
                        None,
                    ),
                );
            }
            if !has_room {
                return Some(
                    ResponseFrame::error(
                        request.request_id,
                        ErrorCode::ServerBusy,
                        String::from_str("server request execution capacity reached"),
                        None,
                    ),
                );
            }
            None
        },
    }
}

/// The answer to a request as a frame.
pub fn answer_frame(request_id: u64, response: Response) -> (frame: ResponseFrame)
    ensures
        frame == (ResponseFrame { protocol_version: PROTOCOL_VERSION, request_id, response }),
{
    ResponseFrame { protocol_version: PROTOCOL_VERSION, request_id, response }
}

/// What a client is told that has been silent for too long.
pub fn idle_frame() -> (frame: ResponseFrame)
    ensures
        frame.protocol_version == PROTOCOL_VERSION,
        frame.request_id == 0,
        protocol::is_error(
            frame.response,
            ErrorCode::IdleTimeout,
            "connection idle timeout expired"@,
            None,
        ),
{
    ResponseFrame::error(
        0,
        ErrorCode::IdleTimeout,
        String::from_str("connection idle timeout expired"),
        None,
    )
}

/// What a client is told whose frame is too large.
pub fn large_frame(maximum: usize) -> (frame: ResponseFrame)
    ensures
        frame.protocol_version == PROTOCOL_VERSION,
        frame.request_id == 0,
        protocol::is_error(
            frame.response,
            ErrorCode::FrameTooLarge,
            "request frame exceeds "@ + text::decimal(maximum as nat) + " bytes"@,
            None,
        ),
{
    ResponseFrame::error(
        0,
        ErrorCode::FrameTooLarge,
        text_with_number("request frame exceeds ", maximum as u64, " bytes"),
        None,
    )
}

/// What a client is told that finds no room.
pub fn busy_frame() -> (frame: ResponseFrame)
    ensures
        frame.protocol_version == PROTOCOL_VERSION,
        frame.request_id == 0,
        protocol::is_error(
            frame.response,
            ErrorCode::ServerBusy,
            "server connection limit reached"@,
            None,
        ),
{
    ResponseFrame::error(
        0,
        ErrorCode::ServerBusy,
        String::from_str("server connection limit reached"),
        None,
    )
}

} // verus!
