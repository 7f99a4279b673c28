//! The rules of the server.
use quantadb::engine::error::{EngineError, Stop};
use quantadb::engine::float::{FloatOperation, FloatRequest, FloatTable};
use quantadb::engine::output::StatementOutput;
use quantadb::engine::session::{DatabaseEngine, SessionStatus, SqlSession};
use quantadb::mvcc::database::{MvccDatabase, MvccOptions};
use quantadb::storage::page::PAGE_SIZE;
use quantadb::storage::store::FileOp;
use quantadb::syntax::{
    Assignment, BinaryOperator, ColumnDef, CreateTable, DataType, Delete, DropTable, Expr,
    Identifier, Insert, Literal, OrderKey, Select, SelectItem, Span, Statement, UnaryOperator,
    Update,
};
use quantadb::engine::value::Value;
use quantadb::server::config::{AddressSetting, ServerConfig, Setting, Settings};
use quantadb::server::frame::{FrameReader, FrameStep};
use quantadb::server::http::{execute_reply, respond, Execution, RequestHead, Route};
use quantadb::server::pg::connection::{
    handshake, message_rest, startup_rest, Action, Connection, Startup, PROTOCOL_VERSION_3,
    SSL_REQUEST_CODE,
};
use quantadb::server::pg::message::{
    answer_describe, answer_execute as answer_rows, answer_query, FloatTexts,
};
use quantadb::server::pg::parameters::{
    count_parameters, quote_literal, scan_parameters, substitute_parameters,
};
use quantadb::server::protocol::{
    ErrorCode, ProtocolError, Request, RequestFrame, Response, ScalarValue, StatementResult,
    PROTOCOL_VERSION,
};
use quantadb::server::service::{
    answer_execute, answer_frame, answer_parse, answer_ping, check_frame, idle_frame, large_frame,
    map_output, SyntaxFault, SyntaxService,
};
use quantadb::server::serving::{
    connection_step, ConnectionStep, Incoming, ServeAction, ServeEvent, Serving,
};
use sqlparser::ast as sql;
use sqlparser::dialect::GenericDialect;
use sqlparser::parser::Parser;

fn identifier(name: &sql::Ident) -> Identifier {
    Identifier {
        value: name.value.clone(),
    }
}

fn object(name: &sql::ObjectName) -> Identifier {
    identifier(&name.0[0])
}

fn relation(table: &sql::TableWithJoins) -> Identifier {
    match &table.relation {
        sql::TableFactor::Table { name, .. } => object(name),
        other => panic!("unexpected table {other:?}"),
    }
}

fn literal(value: &sql::Value) -> Expr {
    let value = match value {
        sql::Value::Number(digits, _) => match digits.parse::<i64>() {
            Ok(number) => Literal::Integer(number),
            Err(_) => Literal::Float(digits.parse::<f64>().expect("number").to_bits()),
        },
        sql::Value::SingleQuotedString(text) => Literal::String(text.clone()),
        sql::Value::Boolean(set) => Literal::Boolean(*set),
        sql::Value::Null => Literal::Null,
        other => panic!("unexpected literal {other:?}"),
    };
    Expr::Literal { value }
}

fn expression(expr: &sql::Expr) -> Expr {
    match expr {
        sql::Expr::Identifier(name) => Expr::Identifier(identifier(name)),
        sql::Expr::Value(value) => literal(value),
        sql::Expr::Nested(inner) => Expr::Parenthesized {
            expression: Box::new(expression(inner)),
        },
        sql::Expr::IsNull(inner) => Expr::IsNull {
            expression: Box::new(expression(inner)),
            negated: false,
        },
        sql::Expr::IsNotNull(inner) => Expr::IsNull {
            expression: Box::new(expression(inner)),
            negated: true,
        },
        sql::Expr::UnaryOp { op, expr } => Expr::Unary {
            operator: match op {
                sql::UnaryOperator::Not => UnaryOperator::Not,
                sql::UnaryOperator::Plus => UnaryOperator::Plus,
                sql::UnaryOperator::Minus => UnaryOperator::Minus,
                other => panic!("unexpected operator {other:?}"),
            },
            expression: Box::new(expression(expr)),
        },
        sql::Expr::BinaryOp { left, op, right } => Expr::Binary {
            left: Box::new(expression(left)),
            operator: match op {
                sql::BinaryOperator::Or => BinaryOperator::Or,
                sql::BinaryOperator::And => BinaryOperator::And,
                sql::BinaryOperator::Eq => BinaryOperator::Equal,
                sql::BinaryOperator::NotEq => BinaryOperator::NotEqual,
                sql::BinaryOperator::Lt => BinaryOperator::LessThan,
                sql::BinaryOperator::LtEq => BinaryOperator::LessThanOrEqual,
                sql::BinaryOperator::Gt => BinaryOperator::GreaterThan,
                sql::BinaryOperator::GtEq => BinaryOperator::GreaterThanOrEqual,
                sql::BinaryOperator::Plus => BinaryOperator::Add,
                sql::BinaryOperator::Minus => BinaryOperator::Subtract,
                sql::BinaryOperator::Multiply => BinaryOperator::Multiply,
                sql::BinaryOperator::Divide => BinaryOperator::Divide,
                sql::BinaryOperator::Modulo => BinaryOperator::Modulo,
                other => panic!("unexpected operator {other:?}"),
            },
            right: Box::new(expression(right)),
        },
        other => panic!("unexpected expression {other:?}"),
    }
}

fn column(definition: &sql::ColumnDef) -> ColumnDef {
    let mut column = ColumnDef {
        name: identifier(&definition.name),
        data_type: match &definition.data_type {
            sql::DataType::BigInt(_) => DataType::Int64,
            sql::DataType::Double => DataType::Float64,
            sql::DataType::Bool => DataType::Boolean,
            sql::DataType::Text => DataType::Text { max_length: None },
            sql::DataType::Varchar(Some(sql::CharacterLength::IntegerLength {
                length, ..
            })) => DataType::Text {
                max_length: Some(*length as u32),
            },
            other => panic!("unexpected type {other:?}"),
        },
        nullable: true,
        primary_key: false,
        unique: false,
    };
    for option in &definition.options {
        match &option.option {
            sql::ColumnOption::NotNull => column.nullable = false,
            sql::ColumnOption::Unique { is_primary: true } => column.primary_key = true,
            sql::ColumnOption::Unique { is_primary: false } => column.unique = true,
            other => panic!("unexpected option {other:?}"),
        }
    }
    column
}

fn select(query: &sql::Query) -> Select {
    let sql::SetExpr::Select(body) = &*query.body else {
        panic!("unexpected query {query:?}");
    };
    Select {
        projection: body
            .projection
            .iter()
            .map(|item| match item {
                sql::SelectItem::Wildcard(_) => SelectItem::Wildcard,
                sql::SelectItem::UnnamedExpr(expr) => SelectItem::Expression {
                    expression: expression(expr),
                    alias: None,
                },
                sql::SelectItem::ExprWithAlias { expr, alias } => SelectItem::Expression {
                    expression: expression(expr),
                    alias: Some(identifier(alias)),
                },
                other => panic!("unexpected item {other:?}"),
            })
            .collect(),
        from: relation(&body.from[0]),
        selection: body.selection.as_ref().map(expression),
        order_by: query
            .order_by
            .iter()
            .map(|key| OrderKey {
                expression: expression(&key.expr),
                descending: key.asc == Some(false),
            })
            .collect(),
        limit: query.limit.as_ref().map(|limit| match limit {
            sql::Expr::Value(sql::Value::Number(digits, _)) => digits.parse().expect("limit"),
            other => panic!("unexpected limit {other:?}"),
        }),
    }
}

fn statement(statement: &sql::Statement) -> Statement {
    match statement {
        sql::Statement::StartTransaction { .. } => Statement::BeginTransaction,
        sql::Statement::Commit { .. } => Statement::Commit,
        sql::Statement::Rollback { .. } => Statement::Rollback,
        sql::Statement::CreateTable {
            name,
            columns,
            if_not_exists,
            ..
        } => Statement::CreateTable(CreateTable {
            name: object(name),
            if_not_exists: *if_not_exists,
            columns: columns.iter().map(column).collect(),
        }),
        sql::Statement::Drop {
            names, if_exists, ..
        } => Statement::DropTable(DropTable {
            name: object(&names[0]),
            if_exists: *if_exists,
        }),
        sql::Statement::Insert {
            table_name,
            columns,
            source: Some(source),
            ..
        } => {
            let sql::SetExpr::Values(values) = &*source.body else {
                panic!("unexpected source {source:?}");
            };
            Statement::Insert(Insert {
                table: object(table_name),
                columns: columns.iter().map(identifier).collect(),
                rows: values
                    .rows
                    .iter()
                    .map(|row| row.iter().map(expression).collect())
                    .collect(),
            })
        }
        sql::Statement::Query(query) => Statement::Select(select(query)),
        sql::Statement::Update {
            table,
            assignments,
            selection,
            ..
        } => Statement::Update(Update {
            table: relation(table),
            assignments: assignments
                .iter()
                .map(|assignment| Assignment {
                    column: identifier(&assignment.id[0]),
                    value: expression(&assignment.value),
                })
                .collect(),
            selection: selection.as_ref().map(expression),
        }),
        sql::Statement::Delete {
            from, selection, ..
        } => Statement::Delete(Delete {
            table: relation(&from[0]),
            selection: selection.as_ref().map(expression),
        }),
        other => panic!("unexpected statement {other:?}"),
    }
}

fn lacks_table(statement: &sql::Statement) -> bool {
    match statement {
        sql::Statement::Query(query) => match &*query.body {
            sql::SetExpr::Select(body) => body.from.is_empty(),
            _ => false,
        },
        _ => false,
    }
}

/// The statements of a text.
fn read(text: &str) -> Result<Vec<Statement>, String> {
    match Parser::parse_sql(&GenericDialect {}, text) {
        Ok(statements) if statements.iter().any(lacks_table) => {
            Err("expected a table behind FROM".to_owned())
        }
        Ok(statements) => Ok(statements.iter().map(statement).collect()),
        Err(error) => Err(error.to_string()),
    }
}

fn calculate(request: FloatRequest) -> u64 {
    let (left, right) = (f64::from_bits(request.left), f64::from_bits(request.right));
    match request.operation {
        FloatOperation::FromInteger => request.left as i64 as f64,
        FloatOperation::Add => left + right,
        FloatOperation::Subtract => left - right,
        FloatOperation::Multiply => left * right,
        FloatOperation::Divide => left / right,
        FloatOperation::Modulo => left % right,
    }
    .to_bits()
}

/// Executes the statements of a text, with the arithmetic on floats that they ask for.
fn execute(
    session: &mut SqlSession,
    database: &mut MvccDatabase,
    text: &str,
) -> Result<Vec<StatementOutput>, EngineError> {
    let statements = match read(text) {
        Ok(statements) => statements,
        Err(message) => {
            return Err(session.fail_syntax(database, message, Span { start: 0, end: 0 }));
        }
    };
    let mut outputs = Vec::new();
    let mut floats = FloatTable::new();
    for statement in &statements {
        loop {
            match session.execute_statement(database, statement, &floats) {
                Ok(output) => {
                    outputs.push(output);
                    break;
                }
                Err(Stop::Error(error)) => return Err(error),
                Err(Stop::Needs(requests)) => {
                    for request in requests {
                        floats.answer(request, calculate(request));
                    }
                }
            }
        }
    }
    Ok(outputs)
}

/// The two files of a database.
#[derive(Default)]
struct Disk {
    data: Vec<u8>,
    log: Vec<u8>,
}

impl Disk {
    fn apply(&mut self, ops: Vec<FileOp>) {
        for op in ops {
            match op {
                FileOp::DataTruncate { pages } => self.data.resize(pages as usize * PAGE_SIZE, 0),
                FileOp::WalTruncate { length } => self.log.truncate(length as usize),
                FileOp::WalAppend(bytes) => self.log.extend_from_slice(&bytes),
                FileOp::DataWrite { page_id, image } => {
                    let offset = page_id.0 as usize * PAGE_SIZE;
                    if self.data.len() < offset + image.len() {
                        self.data.resize(offset + image.len(), 0);
                    }
                    self.data[offset..offset + image.len()].copy_from_slice(&image);
                }
                FileOp::WalSync | FileOp::DataSync => {}
            }
        }
    }

    fn open(&mut self) -> DatabaseEngine {
        let mut engine =
            DatabaseEngine::open(&self.data, &self.log, MvccOptions::default()).expect("engine");
        self.apply(engine.database.take_ops());
        engine
    }
}

fn scalar(number: i64) -> ScalarValue {
    ScalarValue::Integer(number)
}

#[test]
fn syntax_service_preserves_ping_parse_and_diagnostics() {
    let service = SyntaxService;
    assert!(matches!(answer_ping(), Response::Pong { .. }));
    assert!(matches!(
        answer_parse(Ok(vec![Statement::BeginTransaction, Statement::Commit])),
        Response::Parsed { statements } if statements.len() == 2
    ));
    let fault = || SyntaxFault {
        message: read("SELECT FROM").expect_err("syntax error"),
        span: Span { start: 7, end: 11 },
    };
    assert!(matches!(
        answer_parse(Err(fault())),
        Response::Error {
            error: ProtocolError { span: Some(_), .. }
        }
    ));
    assert!(matches!(
        service.answer_execute(&Ok(read("SELECT id FROM records").expect("parse"))),
        Response::Error {
            error: ProtocolError {
                code: ErrorCode::ExecutionUnavailable,
                ..
            }
        }
    ));
}

#[test]
fn validates_resource_limits() {
    let mut config = ServerConfig {
        max_connections: 0,
        ..ServerConfig::default()
    };
    assert!(config.validate().is_err());

    config.max_connections = 1;
    config.max_in_flight_requests = 0;
    assert!(config.validate().is_err());

    config.max_in_flight_requests = 1;
    config.max_frame_bytes = 255;
    assert!(config.validate().is_err());

    config.max_frame_bytes = 256;
    assert!(config.validate().is_ok());
}

#[test]
fn bounded_reader_rejects_oversized_frames() {
    let bytes = vec![b'x'; 65];
    let mut reader = FrameReader::new(64);
    assert!(matches!(reader.feed(&bytes).0, FrameStep::TooLarge));
}

#[test]
fn frames_come_out_the_same_in_whatever_pieces_they_arrive() {
    let input = b"first\r\nsecond\n";
    for cut in 1..input.len() {
        let mut reader = FrameReader::new(64);
        let mut frames = Vec::new();
        for piece in [&input[..cut], &input[cut..]] {
            let mut at = 0;
            while at < piece.len() {
                let (step, used) = reader.feed(&piece[at..]);
                at += used;
                match step {
                    FrameStep::Frame(frame) => frames.push(frame),
                    FrameStep::More => {}
                    other => panic!("unexpected step {other:?}"),
                }
            }
        }
        assert_eq!(frames, vec![b"first".to_vec(), b"second".to_vec()]);
    }
}

#[test]
fn serves_ping_parse_and_syntax_errors_on_one_connection() {
    let frame = |request_id: u64, request: Request| RequestFrame {
        protocol_version: PROTOCOL_VERSION,
        request_id,
        request,
    };
    let ping = frame(1, Request::Ping);
    assert!(check_frame(&Ok(ping), true).is_none());
    assert!(matches!(
        answer_frame(1, answer_ping()).response,
        Response::Pong { .. }
    ));

    let parsed = answer_frame(
        2,
        answer_parse(Ok(
            read("SELECT id FROM users WHERE active = true").expect("parse")
        )),
    );
    assert_eq!(parsed.request_id, 2);
    assert!(matches!(
        parsed.response,
        Response::Parsed { ref statements } if statements.len() == 1
    ));

    let invalid = answer_frame(
        3,
        answer_parse(Err(SyntaxFault {
            message: read("SELECT FROM").expect_err("syntax error"),
            span: Span { start: 7, end: 11 },
        })),
    );
    assert!(matches!(
        invalid.response,
        Response::Error {
            error: ProtocolError {
                code: ErrorCode::SyntaxError,
                span: Some(_),
                ..
            }
        }
    ));
}

#[test]
fn frames_that_cannot_be_served_say_why() {
    let refused = check_frame(&Err("expected value".to_owned()), true).expect("refused");
    assert!(matches!(
        refused.response,
        Response::Error { error: ProtocolError { code: ErrorCode::InvalidJson, .. } }
    ));
    let old = RequestFrame {
        protocol_version: 9,
        request_id: 5,
        request: Request::Ping,
    };
    let refused = check_frame(&Ok(old), true).expect("refused");
    assert_eq!(refused.request_id, 5);
    assert!(matches!(
        refused.response,
        Response::Error {
            error: ProtocolError { code: ErrorCode::UnsupportedProtocolVersion, .. }
        }
    ));
    assert!(matches!(
        idle_frame().response,
        Response::Error { error: ProtocolError { code: ErrorCode::IdleTimeout, .. } }
    ));
    assert!(matches!(
        large_frame(64).response,
        Response::Error { error: ProtocolError { code: ErrorCode::FrameTooLarge, .. } }
    ));
}

#[test]
fn rejects_work_above_the_bounded_service_capacity() {
    let frame = RequestFrame {
        protocol_version: PROTOCOL_VERSION,
        request_id: 2,
        request: Request::Ping,
    };
    let busy = check_frame(&Ok(frame), false).expect("busy");
    assert_eq!(busy.request_id, 2);
    assert!(matches!(
        busy.response,
        Response::Error {
            error: ProtocolError {
                code: ErrorCode::ServerBusy,
                ..
            }
        }
    ));
}

#[test]
fn engine_sessions_preserve_transaction_state_across_frames() {
    let mut engine = Disk::default().open();
    let mut first = engine.session();
    for sql in [
        "BEGIN",
        "CREATE TABLE accounts (id BIGINT PRIMARY KEY, balance BIGINT NOT NULL)",
        "INSERT INTO accounts VALUES (1, 100), (2, 250)",
    ] {
        let response = answer_execute(&execute(&mut first, &mut engine.database, sql));
        assert!(!matches!(response, Response::Error { .. }), "{response:?}");
    }

    let mut second = engine.session();
    let invisible = answer_execute(&execute(
        &mut second,
        &mut engine.database,
        "SELECT * FROM accounts",
    ));
    assert!(matches!(
        invisible,
        Response::Error {
            error: ProtocolError {
                code: ErrorCode::ExecutionError,
                ..
            }
        }
    ));

    answer_execute(&execute(&mut first, &mut engine.database, "COMMIT"));
    let visible = answer_execute(&execute(
        &mut second,
        &mut engine.database,
        "SELECT id, balance FROM accounts WHERE balance >= 200",
    ));
    let Response::Executed { results } = visible else {
        panic!("{visible:?}");
    };
    assert!(matches!(
        results.as_slice(),
        [StatementResult::Query { rows, .. }] if rows == &vec![vec![scalar(2), scalar(250)]]
    ));
}

#[test]
fn settings_replace_the_defaults() {
    let absent = || AddressSetting {
        setting: Setting::Absent,
        fault: None,
    };
    let settings = Settings {
        listen_address: absent(),
        pg_listen_address: absent(),
        data_directory: Setting::Text("elsewhere".to_owned()),
        max_connections: Setting::Text("12".to_owned()),
        max_in_flight_requests: Setting::Absent,
        max_frame_bytes: Setting::Absent,
        idle_timeout: Setting::Absent,
        shutdown_grace: Setting::Absent,
    };
    let config = ServerConfig::from_env(&settings).expect("config");
    assert_eq!(config.data_directory, "elsewhere");
    assert_eq!(config.max_connections, 12);
    assert_eq!(config.max_frame_bytes, 1 << 20);

    let settings = Settings {
        max_connections: Setting::Text("many".to_owned()),
        ..settings
    };
    assert!(ServerConfig::from_env(&settings).is_err());
}

#[test]
fn parameter_substitution_is_quote_safe() {
    let literals = vec![quote_literal("o'brien"), "42".to_owned()];
    let substituted = substitute_parameters(
        "SELECT id FROM t WHERE name = $1 AND age = $2 AND tag = '$1'",
        &literals,
    )
    .expect("substitution");
    assert_eq!(
        substituted, "SELECT id FROM t WHERE name = 'o''brien' AND age = 42 AND tag = '$1'",
        "quotes double, and a placeholder inside a string stays untouched"
    );
    assert_eq!(count_parameters("SELECT $2, $1, '$9' -- $5"), 2);
    assert!(substitute_parameters("SELECT $3", &vec!["'a'".to_owned()]).is_err());
}

/// A client of the PostgreSQL protocol, with the server's side of its connection.
struct PgClient {
    engine: DatabaseEngine,
    session: SqlSession,
    connection: Connection,
    received: Vec<u8>,
}

impl PgClient {
    fn connect() -> Self {
        let engine = Disk::default().open();
        let session = engine.session();
        let Startup::Begin(received) = handshake(PROTOCOL_VERSION_3) else {
            panic!("the startup must be accepted");
        };
        PgClient {
            engine,
            session,
            connection: Connection::new(),
            received,
        }
    }

    fn send(&mut self, kind: u8, body: &[u8]) {
        assert_eq!(message_rest(body.len() as i32 + 4).expect("length"), body.len());
        let texts = FloatTexts::new();
        let status = self.session.transaction_status();
        match self.connection.receive(kind, body, status) {
            Action::Ignore | Action::Flush => {}
            Action::Close => panic!("the connection must stay open"),
            Action::Send { out, .. } => self.received.extend(out),
            Action::Query { sql } => {
                let done = execute(&mut self.session, &mut self.engine.database, &sql);
                let status = self.session.transaction_status();
                self.received
                    .extend(answer_query(&done, status, &texts).expect("no floats"));
            }
            Action::Describe(description) => {
                self.received.extend(description.head);
                let statements = read(&description.sql).expect("parse");
                let columns = match &statements[0] {
                    Statement::Select(query) => {
                        match self.session.describe(&mut self.engine.database, query) {
                            Ok(columns) => Some(columns),
                            Err(error) => {
                                self.received.extend(self.connection.fail(&error));
                                return;
                            }
                        }
                    }
                    _ => None,
                };
                self.received.extend(answer_describe(&columns));
            }
            Action::Execute { sql } => {
                match execute(&mut self.session, &mut self.engine.database, &sql) {
                    Ok(outputs) => self
                        .received
                        .extend(answer_rows(&outputs, &texts).expect("no floats")),
                    Err(error) => self.received.extend(self.connection.fail(&error)),
                }
            }
        }
    }

    fn query(&mut self, sql: &str) {
        let mut body = sql.as_bytes().to_vec();
        body.push(0);
        self.send(b'Q', &body);
    }

    fn read_until_ready(&mut self) -> Vec<(u8, Vec<u8>)> {
        let mut messages = Vec::new();
        let mut at = 0;
        while at < self.received.len() {
            let kind = self.received[at];
            let mut length = [0; 4];
            length.copy_from_slice(&self.received[at + 1..at + 5]);
            let end = at + 1 + i32::from_be_bytes(length) as usize;
            messages.push((kind, self.received[at + 5..end].to_vec()));
            at = end;
        }
        self.received.clear();
        assert_eq!(messages.last().map(|(kind, _)| *kind), Some(b'Z'));
        messages
    }
}

fn kinds(messages: &[(u8, Vec<u8>)]) -> Vec<u8> {
    messages.iter().map(|(kind, _)| *kind).collect()
}

#[test]
fn speaks_the_simple_query_protocol_end_to_end() {
    let mut client = PgClient::connect();
    let startup = client.read_until_ready();
    assert_eq!(startup.first().map(|(kind, _)| *kind), Some(b'R'));
    assert_eq!(startup.last().map(|(kind, _)| *kind), Some(b'Z'));

    client.query("CREATE TABLE pets (id BIGINT PRIMARY KEY, name TEXT NOT NULL, good BOOL)");
    let created = client.read_until_ready();
    assert_eq!(kinds(&created), vec![b'C', b'Z']);

    client.query("INSERT INTO pets (id, name, good) VALUES (1, 'rex', true), (2, 'ada', NULL)");
    let inserted = client.read_until_ready();
    assert!(String::from_utf8_lossy(&inserted[0].1).starts_with("INSERT 0 2"));

    client.query("SELECT id, name, good FROM pets ORDER BY id");
    let selected = client.read_until_ready();
    assert_eq!(kinds(&selected), vec![b'T', b'D', b'D', b'C', b'Z']);
    let first_row = &selected[1].1;
    assert_eq!(i16::from_be_bytes([first_row[0], first_row[1]]), 3);
    let text = String::from_utf8_lossy(first_row);
    assert!(text.contains("rex"), "{text:?}");
    let second_row = &selected[2].1;
    assert!(
        second_row.ends_with(&(-1_i32).to_be_bytes()),
        "a NULL column arrives as length -1"
    );

    client.query("SELECT nope FROM pets");
    let failed = client.read_until_ready();
    assert_eq!(kinds(&failed), vec![b'E', b'Z']);
    let error_text = String::from_utf8_lossy(&failed[0].1);
    assert!(error_text.contains("42703"), "{error_text:?}");

    client.query("BEGIN");
    let begun = client.read_until_ready();
    assert_eq!(
        begun.last().map(|(_, body)| body.clone()),
        Some(b"T".to_vec()),
        "ReadyForQuery reports an open transaction"
    );
    client.query("ROLLBACK");
    client.read_until_ready();
}

#[test]
fn speaks_the_extended_query_protocol() {
    let mut client = PgClient::connect();
    client.read_until_ready();
    client.query(
        "CREATE TABLE crew (id BIGINT PRIMARY KEY, name TEXT NOT NULL); \
         INSERT INTO crew (id, name) VALUES (1, 'ada'), (2, 'o''brien')",
    );
    client.read_until_ready();

    let mut parse = b"find\0SELECT id, name FROM crew WHERE name = $1\0".to_vec();
    parse.extend_from_slice(&0_i16.to_be_bytes());
    client.send(b'P', &parse);

    let mut describe_statement = b"S".to_vec();
    describe_statement.extend_from_slice(b"find\0");
    client.send(b'D', &describe_statement);

    let mut bind = b"\0find\0".to_vec();
    bind.extend_from_slice(&1_i16.to_be_bytes());
    bind.extend_from_slice(&0_i16.to_be_bytes());
    bind.extend_from_slice(&1_i16.to_be_bytes());
    let value = b"o'brien";
    bind.extend_from_slice(&(value.len() as i32).to_be_bytes());
    bind.extend_from_slice(value);
    bind.extend_from_slice(&0_i16.to_be_bytes());
    client.send(b'B', &bind);

    client.send(b'E', b"\0\0\0\0\0");
    client.send(b'S', &[]);

    let messages = client.read_until_ready();
    assert_eq!(
        kinds(&messages),
        vec![b'1', b't', b'T', b'2', b'D', b'C', b'Z'],
        "parse, parameter and row descriptions, bind, one row, complete, ready"
    );
    let data_row = String::from_utf8_lossy(&messages[4].1);
    assert!(data_row.contains("o'brien"), "{data_row:?}");

    let mut bad_bind = b"\0missing\0".to_vec();
    bad_bind.extend_from_slice(&0_i16.to_be_bytes());
    bad_bind.extend_from_slice(&0_i16.to_be_bytes());
    bad_bind.extend_from_slice(&0_i16.to_be_bytes());
    client.send(b'B', &bad_bind);
    client.send(b'E', b"\0\0\0\0\0");
    client.send(b'S', &[]);
    let failed = client.read_until_ready();
    assert_eq!(
        kinds(&failed),
        vec![b'E', b'Z'],
        "the execute after a failed bind is skipped until sync"
    );
    let error_text = String::from_utf8_lossy(&failed[0].1);
    assert!(error_text.contains("26000"), "{error_text:?}");
}

#[test]
fn refuses_ssl_politely_and_keeps_talking() {
    assert_eq!(startup_rest(8), Some(0));
    let Startup::Again(answer) = handshake(SSL_REQUEST_CODE) else {
        panic!("the client may start again");
    };
    assert_eq!(answer, b"N", "no TLS yet, and no hang either");

    let mut client = PgClient::connect();
    let ready = client.read_until_ready();
    assert_eq!(ready.last().map(|(kind, _)| *kind), Some(b'Z'));
}

#[test]
fn lengths_and_versions_out_of_range_end_the_connection() {
    assert_eq!(startup_rest(7), None);
    assert_eq!(startup_rest(65_537), None);
    assert!(message_rest(3).is_err());
    assert!(message_rest((4 << 20) + 1).is_err());
    let Startup::Close(answer) = handshake(7) else {
        panic!("an unknown version is refused");
    };
    assert_eq!(answer[0], b'E');
}

#[test]
fn unknown_messages_are_answered_and_binary_parameters_refused() {
    let mut client = PgClient::connect();
    client.read_until_ready();
    client.send(b'?', &[]);
    let answer = client.read_until_ready();
    assert_eq!(kinds(&answer), vec![b'E', b'Z']);
    assert!(String::from_utf8_lossy(&answer[0].1).contains("message '?' is not supported"));

    client.send(b'P', b"s\0SELECT $1\0\0\0");
    client.send(b'B', b"\0s\0\0\x01\0\x01\0\x01\0\0\0\x01x\0\0");
    client.send(b'S', &[]);
    let answer = client.read_until_ready();
    assert_eq!(kinds(&answer), vec![b'1', b'E', b'Z']);
    assert!(String::from_utf8_lossy(&answer[1].1).contains("0A000"));

    client.send(b'B', b"\0s\0\0\0\0\x02");
    client.send(b'S', &[]);
    let answer = client.read_until_ready();
    assert!(String::from_utf8_lossy(&answer[0].1)
        .contains("bind supplies 2 parameters but the statement uses 1"));

    client.send(b'C', b"Ss\0");
    client.send(b'D', b"Ss\0");
    client.send(b'S', &[]);
    assert_eq!(kinds(&client.read_until_ready()), vec![b'3', b'E', b'Z']);
}

#[test]
fn floats_are_asked_for_before_rows_are_shown() {
    let bits = 1.5_f64.to_bits();
    let done = Ok(vec![StatementOutput::Query {
        columns: Vec::new(),
        rows: vec![vec![Value::Float(bits)]],
    }]);
    let mut texts = FloatTexts::new();
    let idle = SessionStatus::Idle;
    assert_eq!(answer_query(&done, idle, &texts).expect_err("unknown"), vec![bits]);
    texts.set(bits, "1.5".to_owned());
    let reply = answer_query(&done, idle, &texts).expect("known");
    assert!(String::from_utf8_lossy(&reply).contains("1.5"));
}

fn request(lines: &[&str]) -> RequestHead {
    let mut head = RequestHead::new(lines[0]);
    for line in &lines[1..] {
        if head.header(line) {
            break;
        }
    }
    head
}

fn answered(head: &RequestHead, execution: Option<Execution>) -> String {
    match head.route() {
        Route::Answer { reply, .. } => respond(&reply),
        Route::Execute => respond(&execute_reply(execution.expect("an execution"))),
    }
}

#[test]
fn executes_sql_over_http_with_cors() {
    let mut engine = Disk::default().open();
    let mut session = engine.session();
    let outputs = execute(
        &mut session,
        &mut engine.database,
        "CREATE TABLE hits (id BIGINT PRIMARY KEY, page TEXT NOT NULL); \
         INSERT INTO hits (id, page) VALUES (1, '/'); SELECT id, page FROM hits",
    )
    .expect("execute");
    assert!(matches!(
        map_output(&outputs[0]),
        StatementResult::Command { tag, .. } if tag == "CREATE TABLE"
    ));
    let StatementResult::Query { rows, .. } = map_output(&outputs[2]) else {
        panic!("expected rows");
    };
    assert_eq!(rows, vec![vec![scalar(1), ScalarValue::Text("/".to_owned())]]);

    let post = request(&[
        "POST /v1/execute HTTP/1.1\r\n",
        "Host: x\r\n",
        "Content-Type: application/json\r\n",
        "Content-Length: 12\r\n",
        "Connection: close\r\n",
        "\r\n",
    ]);
    assert_eq!(post.content_length, 12);
    assert!(!post.keep_alive);
    let response = answered(
        &post,
        Some(Execution::Done {
            json: Ok("{\"results\":[]}".to_owned()),
        }),
    );
    assert!(response.starts_with("HTTP/1.1 200"), "{response}");
    assert!(
        response.contains("Access-Control-Allow-Origin: *"),
        "{response}"
    );
    assert!(response.ends_with("Content-Type\r\n\r\n{\"results\":[]}"), "{response}");

    let response = answered(
        &post,
        Some(Execution::Failed {
            json: Some("{\"error\":{\"code\":\"syntax_error\"}}".to_owned()),
        }),
    );
    assert!(response.starts_with("HTTP/1.1 400"), "{response}");
    assert!(response.contains("syntax_error"), "{response}");

    let preflight = request(&[
        "OPTIONS /v1/execute HTTP/1.1\r\n",
        "Host: x\r\n",
        "Connection: close\r\n",
        "\r\n",
    ]);
    let response = answered(&preflight, None);
    assert!(response.starts_with("HTTP/1.1 204"), "{response}");

    let missing = request(&[
        "GET /elsewhere HTTP/1.1\r\n",
        "Host: x\r\n",
        "Connection: close\r\n",
        "\r\n",
    ]);
    let response = answered(&missing, None);
    assert!(response.starts_with("HTTP/1.1 404"), "{response}");
}

#[test]
fn bodies_that_are_too_large_or_have_no_length_are_refused() {
    for length in ["4194305", "many", "99999999999999999999999"] {
        let header = format!("content-LENGTH: {length}\r\n");
        let head = request(&["POST /v1/execute HTTP/1.1\r\n", &header, "\r\n"]);
        let response = answered(&head, None);
        assert!(response.starts_with("HTTP/1.1 413"), "{response}");
    }
    let head = request(&["POST /v1/execute HTTP/1.1\r\n", "Content-Length: 4194304\r\n", "\r\n"]);
    assert!(matches!(head.route(), Route::Execute));
}

#[test]
fn a_full_server_refuses_clients_until_one_leaves() {
    let mut serving = Serving::new(1);
    assert!(matches!(serving.step(ServeEvent::Accepted), ServeAction::Serve));
    match serving.step(ServeEvent::Accepted) {
        ServeAction::Refuse(frame) => match frame.response {
            Response::Error { error } => {
                assert_eq!(error.code, ErrorCode::ServerBusy);
                assert_eq!(error.message, "server connection limit reached");
            }
            _ => panic!("expected an error"),
        },
        _ => panic!("expected a refusal"),
    }
    assert!(matches!(serving.step(ServeEvent::Finished), ServeAction::Wait));
    assert!(matches!(serving.step(ServeEvent::Accepted), ServeAction::Serve));
}

#[test]
fn a_stopping_server_waits_for_its_connections() {
    let mut idle = Serving::new(2);
    assert!(matches!(idle.step(ServeEvent::Shutdown), ServeAction::Stop));

    let mut serving = Serving::new(2);
    serving.step(ServeEvent::Accepted);
    serving.step(ServeEvent::Accepted);
    assert!(matches!(serving.step(ServeEvent::Shutdown), ServeAction::Drain));
    assert!(!serving.is_accepting());
    assert!(matches!(serving.step(ServeEvent::Finished), ServeAction::Wait));
    assert!(matches!(serving.step(ServeEvent::GraceExpired), ServeAction::Abort));
    assert!(matches!(serving.step(ServeEvent::Finished), ServeAction::Stop));
}

#[test]
fn a_server_that_cannot_accept_gives_up() {
    let mut serving = Serving::new(2);
    assert!(matches!(serving.step(ServeEvent::AcceptFailed), ServeAction::Fail));
}

#[test]
fn a_connection_answers_frames_and_closes_on_all_else() {
    match connection_step(Incoming::Frame(b"{}".to_vec()), 64) {
        ConnectionStep::Dispatch(frame) => assert_eq!(frame, b"{}".to_vec()),
        _ => panic!("expected a request"),
    }
    match connection_step(Incoming::TooLarge, 64) {
        ConnectionStep::Refuse(frame) => match frame.response {
            Response::Error { error } => {
                assert_eq!(error.code, ErrorCode::FrameTooLarge);
                assert_eq!(error.message, "request frame exceeds 64 bytes");
            }
            _ => panic!("expected an error"),
        },
        _ => panic!("expected a refusal"),
    }
    match connection_step(Incoming::Silence, 64) {
        ConnectionStep::Refuse(frame) => match frame.response {
            Response::Error { error } => assert_eq!(error.code, ErrorCode::IdleTimeout),
            _ => panic!("expected an error"),
        },
        _ => panic!("expected a refusal"),
    }
    assert!(matches!(connection_step(Incoming::End, 64), ConnectionStep::Close));
    assert!(matches!(connection_step(Incoming::Shutdown, 64), ConnectionStep::Close));
}

#[test]
fn substitution_keeps_text_in_every_script() {
    assert_eq!(
        substitute_parameters("SELECT na\u{ef}ve, $1", &vec!["1".to_owned()]).expect("substitution"),
        "SELECT na\u{ef}ve, 1"
    );
    assert_eq!(
        substitute_parameters("SELECT '\u{65e5}\u{672c}', $1 -- \u{1f980}", &vec!["'\u{fc}'".to_owned()])
            .expect("substitution"),
        "SELECT '\u{65e5}\u{672c}', '\u{fc}' -- \u{1f980}"
    );
}

#[test]
fn every_parameter_is_found_once() {
    let mut found = scan_parameters("SELECT $2, $1, $2, '$4'");
    found.sort_unstable();
    assert_eq!(found, vec![1, 2]);
    assert!(scan_parameters("SELECT '$1' -- $2").is_empty());
}
