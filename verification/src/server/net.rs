//! The line protocol: a query on each line, answered with a line.
use crate::engine::float::{FloatRequest, FloatTable};
use crate::server::sql::executor;
use crate::server::sql::executor::{
    Disk, QueryExecutor, QueryResult, QueryStop, QueryStopView, ResultView,
};
use crate::server::sql::parser;
use crate::server::sql::parser::{FloatReadings, ParseStop, ParseStopView, SqlParser};
use crate::server::storage::engine::EngineView;
use crate::server::storage::error;
use crate::server::storage::error::{QuantaError, QuantaErrorView};
use crate::server::storage::types::{Row, ValueView};
use crate::text;
use crate::text::{chars_of, text_of, trim_end, trim_start};
use vstd::prelude::*;
use vstd::string::*;

verus! {

pub struct QuantaRequest {
    pub query: String,
}

/// An answer: a message with rows, or an error.
pub struct QuantaResponse {
    pub success: bool,
    pub message: String,
    pub data: Option<Vec<Row>>,
    pub error: Option<String>,
}

#[verifier::ext_equal]
pub struct ResponseView {
    pub success: bool,
    pub message: Seq<char>,
    pub data: Option<Seq<Seq<ValueView>>>,
    pub error: Option<Seq<char>>,
}

pub open spec fn data_view(data: Option<Vec<Row>>) -> Option<Seq<Seq<ValueView>>> {
    match data {
        Some(rows) => Some(executor::row_views(rows@)),
        None => None,
    }
}

impl View for QuantaResponse {
    type V = ResponseView;

    open spec fn view(&self) -> ResponseView {
        ResponseView {
            success: self.success,
            message: self.message@,
            data: data_view(self.data),
            error: match self.error {
                Some(error) => Some(error@),
                None => None,
            },
        }
    }
}

pub open spec fn succeeded(
    message: Seq<char>,
    data: Option<Seq<Seq<ValueView>>>,
) -> ResponseView {
    ResponseView { success: true, message, data, error: None }
}

pub open spec fn failed(message: Seq<char>) -> ResponseView {
    ResponseView { success: false, message: Seq::empty(), data: None, error: Some(message) }
}

impl QuantaResponse {
    pub fn success(message: String, data: Option<Vec<Row>>) -> (response: QuantaResponse)
        ensures
            response@ == succeeded(message@, data_view(data)),
    {
        QuantaResponse { success: true, message, data, error: None }
    }

    pub fn error(message: String) -> (response: QuantaResponse)
        ensures
            response@ == failed(message@),
    {
        let none = String::new();
        assert(none@ =~= Seq::empty());
        QuantaResponse { success: false, message: none, data: None, error: Some(message) }
    }

    /// The answer that a client gets when it connects.
    pub fn welcome() -> (response: QuantaResponse)
        ensures
            response@ == succeeded(
                "Welcome to QuantaDB! Send SQL queries to get started."@,
                None,
            ),
    {
        QuantaResponse::success(
            String::from_str("Welcome to QuantaDB! Send SQL queries to get started."),
            None,
        )
    }
}

/// A line without the white space around it.
fn trim(line: &str) -> (content: String)
    ensures
        content@ == text::trimmed(line@),
{
    let chars = chars_of(line);
    let length: usize = chars.len();
    let start: usize = trim_start(&chars, 0, length);
    let end: usize = trim_end(&chars, start, length);
    assert(chars@.subrange(0, length as int) =~= line@);
    text_of(&chars, start, end)
}

pub struct QuantaProtocol {}

impl QuantaProtocol {
    /// The content of a line; none where there is nothing to answer.
    pub fn content(line: &str) -> (content: Option<String>)
        ensures
            match content {
                Some(content) => content@ == text::trimmed(line@) && content@.len() > 0,
                None => text::trimmed(line@).len() == 0,
            },
    {
        let content = trim(line);
        if content.as_str().as_bytes().len() == 0 {
            proof {
                vstd::utf8::encode_utf8_decode_utf8(content@);
                assert(vstd::utf8::encode_utf8(content@) =~= vstd::utf8::encode_utf8(Seq::empty()));
                vstd::utf8::encode_utf8_decode_utf8(Seq::empty());
            }
            None
        } else {
            assert(content@.len() > 0) by {
                if content@.len() == 0 {
                    assert(content@ =~= Seq::empty());
                }
            }
            Some(content)
        }
    }

    /// The query of a line: the one that it holds as JSON, or else the line itself.
    pub fn parse_request(line: &str, json: Option<String>) -> (request: QuantaRequest)
        ensures
            request.query@ == (match json {
                Some(query) => query@,
                None => text::trimmed(line@),
            }),
    {
        match json {
            Some(query) => QuantaRequest { query },
            None => QuantaRequest { query: trim(line) },
        }
    }

    /// The answer to a query.
    pub fn answer(outcome: Result<QueryResult, QuantaError>) -> (response: QuantaResponse)
        ensures
            response@ == (match outcome {
                Ok(result) => succeeded(result@.message, result@.data),
                Err(error) => failed(error::quanta_message(error@)),
            }),
    {
        match outcome {
            Ok(result) => QuantaResponse::success(result.message, result.data),
            Err(error) => QuantaResponse::error(error.message()),
        }
    }
}

/// Why a query did not come to its end.
pub enum ProcessStop {
    Error(QuantaError),
    /// The float that a number text stands for must be known first.
    NeedsReading(String),
    /// The difference of two floats must be known first.
    NeedsFloat(FloatRequest),
}

#[verifier::ext_equal]
pub enum ProcessStopView {
    Error(QuantaErrorView),
    NeedsReading(Seq<char>),
    NeedsFloat(FloatRequest),
}

impl View for ProcessStop {
    type V = ProcessStopView;

    open spec fn view(&self) -> ProcessStopView {
        match self {
            ProcessStop::Error(error) => ProcessStopView::Error(error@),
            ProcessStop::NeedsReading(digits) => ProcessStopView::NeedsReading(digits@),
            ProcessStop::NeedsFloat(request) => ProcessStopView::NeedsFloat(*request),
        }
    }
}

pub open spec fn from_parse(stop: ParseStopView) -> ProcessStopView {
    match stop {
        ParseStopView::Error(error) => ProcessStopView::Error(error),
        ParseStopView::Needs(digits) => ProcessStopView::NeedsReading(digits),
    }
}

pub open spec fn from_query(stop: QueryStopView) -> ProcessStopView {
    match stop {
        QueryStopView::Error(error) => ProcessStopView::Error(error),
        QueryStopView::Needs(request) => ProcessStopView::NeedsFloat(request),
    }
}

/// What executing a statement came to, as the query that it was read from is answered.
pub open spec fn processed(outcome: Result<ResultView, QueryStopView>) -> Result<
    ResultView,
    ProcessStopView,
> {
    match outcome {
        Ok(result) => Ok(result),
        Err(stop) => Err(from_query(stop)),
    }
}

pub open spec fn process_view(outcome: Result<QueryResult, ProcessStop>) -> Result<
    ResultView,
    ProcessStopView,
> {
    match outcome {
        Ok(result) => Ok(result@),
        Err(stop) => Err(stop@),
    }
}

/// Whether what came of a query is right: its text is refused and nothing changes, or the statement
/// that it stands for is executed.
pub open spec fn is_processed(
    sql: Seq<char>,
    readings: Map<Seq<char>, Option<u64>>,
    floats: Map<FloatRequest, u64>,
    state: EngineView,
    after: EngineView,
    outcome: Result<ResultView, ProcessStopView>,
    disk: Disk,
) -> bool {
    match parser::parsed(sql, readings) {
        Err(stop) => {
            &&& outcome == Err::<ResultView, ProcessStopView>(from_parse(stop))
            &&& after == state
            &&& disk is Nothing
        },
        Ok(statement) => exists|executed: Result<ResultView, QueryStopView>|
            outcome == #[trigger] processed(executed) && executor::is_execution(
                statement,
                state,
                after,
                executed,
                disk,
                floats,
            ),
    }
}

/// Reads a query and executes it.
pub fn process_query(
    sql: &str,
    parser: &SqlParser,
    executor: &mut QueryExecutor,
    readings: &FloatReadings,
    floats: &FloatTable,
) -> (done: (Result<QueryResult, ProcessStop>, Disk))
    requires
        readings.wf(),
        floats.wf(),
    ensures
        is_processed(
            sql@,
            readings@,
            floats@,
            old(executor)@,
            final(executor)@,
            process_view(done.0),
            done.1,
        ),
{
    let statement = match parser.parse(sql, readings) {
        Err(ParseStop::Error(error)) => {
            return (Err(ProcessStop::Error(error)), Disk::Nothing);
        },
        Err(ParseStop::Needs(digits)) => {
            return (Err(ProcessStop::NeedsReading(digits)), Disk::Nothing);
        },
        Ok(statement) => statement,
    };
    let (outcome, disk) = executor.execute(statement, floats);
    let ghost executed = executor::outcome_view(outcome);
    let answer = match outcome {
        Ok(result) => Ok(result),
        Err(QueryStop::Error(error)) => Err(ProcessStop::Error(error)),
        Err(QueryStop::Needs(request)) => Err(ProcessStop::NeedsFloat(request)),
    };
    assert(process_view(answer) == processed(executed));
    (answer, disk)
}

} // verus!
