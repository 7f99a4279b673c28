//! Statements over stored tables.
use quantadb::engine::error::{EngineError, Stop};
use quantadb::engine::float::{FloatOperation, FloatRequest, FloatTable};
use quantadb::engine::output::StatementOutput;
use quantadb::engine::session::{DatabaseEngine, SqlSession};
use quantadb::mvcc::database::{MvccDatabase, MvccOptions};
use quantadb::storage::page::PAGE_SIZE;
use quantadb::storage::store::FileOp;
use quantadb::syntax::{
    Assignment, BinaryOperator, ColumnDef, CreateTable, DataType, Delete, DropTable, Expr,
    Identifier, Insert, Literal, OrderKey, Select, SelectItem, Span, Statement, UnaryOperator,
    Update,
};
use quantadb::engine::access::equality_column_and_constant;
use quantadb::engine::codec::{
    catalog_key, decode_u64, encode_u64, index_value_prefix, row_key,
};
use quantadb::engine::image::{decode_row, encode_row};
use quantadb::engine::output::command;
use quantadb::engine::session::SessionStatus;
use quantadb::engine::sort::compare_sort_values;
use quantadb::engine::value::Value;
use quantadb::index::key::KeyOrder;
use quantadb::mvcc::error::TransactionError;
use sqlparser::ast as sql;
use sqlparser::dialect::GenericDialect;
use sqlparser::parser::Parser;

fn identifier(name: &sql::Ident) -> Identifier {
    Identifier {
        value: name.value.clone(),
    }
}

fn object(name: &sql::ObjectName) -> Identifier {
    identifier(&name.0[0])
}

fn relation(table: &sql::TableWithJoins) -> Identifier {
    match &table.relation {
        sql::TableFactor::Table { name, .. } => object(name),
        other => panic!("unexpected table {other:?}"),
    }
}

fn literal(value: &sql::Value) -> Expr {
    let value = match value {
        sql::Value::Number(digits, _) => match digits.parse::<i64>() {
            Ok(number) => Literal::Integer(number),
            Err(_) => Literal::Float(digits.parse::<f64>().expect("number").to_bits()),
        },
        sql::Value::SingleQuotedString(text) => Literal::String(text.clone()),
        sql::Value::Boolean(set) => Literal::Boolean(*set),
        sql::Value::Null => Literal::Null,
        other => panic!("unexpected literal {other:?}"),
    };
    Expr::Literal { value }
}

fn expression(expr: &sql::Expr) -> Expr {
    match expr {
        sql::Expr::Identifier(name) => Expr::Identifier(identifier(name)),
        sql::Expr::Value(value) => literal(value),
        sql::Expr::Nested(inner) => Expr::Parenthesized {
            expression: Box::new(expression(inner)),
        },
        sql::Expr::IsNull(inner) => Expr::IsNull {
            expression: Box::new(expression(inner)),
            negated: false,
        },
        sql::Expr::IsNotNull(inner) => Expr::IsNull {
            expression: Box::new(expression(inner)),
            negated: true,
        },
        sql::Expr::UnaryOp { op, expr } => Expr::Unary {
            operator: match op {
                sql::UnaryOperator::Not => UnaryOperator::Not,
                sql::UnaryOperator::Plus => UnaryOperator::Plus,
                sql::UnaryOperator::Minus => UnaryOperator::Minus,
                other => panic!("unexpected operator {other:?}"),
            },
            expression: Box::new(expression(expr)),
        },
        sql::Expr::BinaryOp { left, op, right } => Expr::Binary {
            left: Box::new(expression(left)),
            operator: match op {
                sql::BinaryOperator::Or => BinaryOperator::Or,
                sql::BinaryOperator::And => BinaryOperator::And,
                sql::BinaryOperator::Eq => BinaryOperator::Equal,
                sql::BinaryOperator::NotEq => BinaryOperator::NotEqual,
                sql::BinaryOperator::Lt => BinaryOperator::LessThan,
                sql::BinaryOperator::LtEq => BinaryOperator::LessThanOrEqual,
                sql::BinaryOperator::Gt => BinaryOperator::GreaterThan,
                sql::BinaryOperator::GtEq => BinaryOperator::GreaterThanOrEqual,
                sql::BinaryOperator::Plus => BinaryOperator::Add,
                sql::BinaryOperator::Minus => BinaryOperator::Subtract,
                sql::BinaryOperator::Multiply => BinaryOperator::Multiply,
                sql::BinaryOperator::Divide => BinaryOperator::Divide,
                sql::BinaryOperator::Modulo => BinaryOperator::Modulo,
                other => panic!("unexpected operator {other:?}"),
            },
            right: Box::new(expression(right)),
        },
        other => panic!("unexpected expression {other:?}"),
    }
}

fn column(definition: &sql::ColumnDef) -> ColumnDef {
    let mut column = ColumnDef {
        name: identifier(&definition.name),
        data_type: match &definition.data_type {
            sql::DataType::BigInt(_) => DataType::Int64,
            sql::DataType::Double => DataType::Float64,
            sql::DataType::Bool => DataType::Boolean,
            sql::DataType::Text => DataType::Text { max_length: None },
            sql::DataType::Varchar(Some(sql::CharacterLength::IntegerLength {
                length, ..
            })) => DataType::Text {
                max_length: Some(*length as u32),
            },
            other => panic!("unexpected type {other:?}"),
        },
        nullable: true,
        primary_key: false,
        unique: false,
    };
    for option in &definition.options {
        match &option.option {
            sql::ColumnOption::NotNull => column.nullable = false,
            sql::ColumnOption::Unique { is_primary: true } => column.primary_key = true,
            sql::ColumnOption::Unique { is_primary: false } => column.unique = true,
            other => panic!("unexpected option {other:?}"),
        }
    }
    column
}

fn select(query: &sql::Query) -> Select {
    let sql::SetExpr::Select(body) = &*query.body else {
        panic!("unexpected query {query:?}");
    };
    Select {
        projection: body
            .projection
            .iter()
            .map(|item| match item {
                sql::SelectItem::Wildcard(_) => SelectItem::Wildcard,
                sql::SelectItem::UnnamedExpr(expr) => SelectItem::Expression {
                    expression: expression(expr),
                    alias: None,
                },
                sql::SelectItem::ExprWithAlias { expr, alias } => SelectItem::Expression {
                    expression: expression(expr),
                    alias: Some(identifier(alias)),
                },
                other => panic!("unexpected item {other:?}"),
            })
            .collect(),
        from: relation(&body.from[0]),
        selection: body.selection.as_ref().map(expression),
        order_by: query
            .order_by
            .iter()
            .map(|key| OrderKey {
                expression: expression(&key.expr),
                descending: key.asc == Some(false),
            })
            .collect(),
        limit: query.limit.as_ref().map(|limit| match limit {
            sql::Expr::Value(sql::Value::Number(digits, _)) => digits.parse().expect("limit"),
            other => panic!("unexpected limit {other:?}"),
        }),
    }
}

fn statement(statement: &sql::Statement) -> Statement {
    match statement {
        sql::Statement::StartTransaction { .. } => Statement::BeginTransaction,
        sql::Statement::Commit { .. } => Statement::Commit,
        sql::Statement::Rollback { .. } => Statement::Rollback,
        sql::Statement::CreateTable {
            name,
            columns,
            if_not_exists,
            ..
        } => Statement::CreateTable(CreateTable {
            name: object(name),
            if_not_exists: *if_not_exists,
            columns: columns.iter().map(column).collect(),
        }),
        sql::Statement::Drop {
            names, if_exists, ..
        } => Statement::DropTable(DropTable {
            name: object(&names[0]),
            if_exists: *if_exists,
        }),
        sql::Statement::Insert {
            table_name,
            columns,
            source: Some(source),
            ..
        } => {
            let sql::SetExpr::Values(values) = &*source.body else {
                panic!("unexpected source {source:?}");
            };
            Statement::Insert(Insert {
                table: object(table_name),
                columns: columns.iter().map(identifier).collect(),
                rows: values
                    .rows
                    .iter()
                    .map(|row| row.iter().map(expression).collect())
                    .collect(),
            })
        }
        sql::Statement::Query(query) => Statement::Select(select(query)),
        sql::Statement::Update {
            table,
            assignments,
            selection,
            ..
        } => Statement::Update(Update {
            table: relation(table),
            assignments: assignments
                .iter()
                .map(|assignment| Assignment {
                    column: identifier(&assignment.id[0]),
                    value: expression(&assignment.value),
                })
                .collect(),
            selection: selection.as_ref().map(expression),
        }),
        sql::Statement::Delete {
            from, selection, ..
        } => Statement::Delete(Delete {
            table: relation(&from[0]),
            selection: selection.as_ref().map(expression),
        }),
        other => panic!("unexpected statement {other:?}"),
    }
}

fn lacks_table(statement: &sql::Statement) -> bool {
    match statement {
        sql::Statement::Query(query) => match &*query.body {
            sql::SetExpr::Select(body) => body.from.is_empty(),
            _ => false,
        },
        _ => false,
    }
}

/// The statements of a text.
fn read(text: &str) -> Result<Vec<Statement>, String> {
    match Parser::parse_sql(&GenericDialect {}, text) {
        Ok(statements) if statements.iter().any(lacks_table) => {
            Err("expected a table behind FROM".to_owned())
        }
        Ok(statements) => Ok(statements.iter().map(statement).collect()),
        Err(error) => Err(error.to_string()),
    }
}

fn calculate(request: FloatRequest) -> u64 {
    let (left, right) = (f64::from_bits(request.left), f64::from_bits(request.right));
    match request.operation {
        FloatOperation::FromInteger => request.left as i64 as f64,
        FloatOperation::Add => left + right,
        FloatOperation::Subtract => left - right,
        FloatOperation::Multiply => left * right,
        FloatOperation::Divide => left / right,
        FloatOperation::Modulo => left % right,
    }
    .to_bits()
}

/// Executes the statements of a text, with the arithmetic on floats that they ask for.
fn execute(
    session: &mut SqlSession,
    database: &mut MvccDatabase,
    text: &str,
) -> Result<Vec<StatementOutput>, EngineError> {
    let statements = match read(text) {
        Ok(statements) => statements,
        Err(message) => {
            return Err(session.fail_syntax(database, message, Span { start: 0, end: 0 }));
        }
    };
    let mut outputs = Vec::new();
    let mut floats = FloatTable::new();
    for statement in &statements {
        loop {
            match session.execute_statement(database, statement, &floats) {
                Ok(output) => {
                    outputs.push(output);
                    break;
                }
                Err(Stop::Error(error)) => return Err(error),
                Err(Stop::Needs(requests)) => {
                    for request in requests {
                        floats.answer(request, calculate(request));
                    }
                }
            }
        }
    }
    Ok(outputs)
}

/// The two files of a database.
#[derive(Default)]
struct Disk {
    data: Vec<u8>,
    log: Vec<u8>,
}

impl Disk {
    fn apply(&mut self, ops: Vec<FileOp>) {
        for op in ops {
            match op {
                FileOp::DataTruncate { pages } => self.data.resize(pages as usize * PAGE_SIZE, 0),
                FileOp::WalTruncate { length } => self.log.truncate(length as usize),
                FileOp::WalAppend(bytes) => self.log.extend_from_slice(&bytes),
                FileOp::DataWrite { page_id, image } => {
                    let offset = page_id.0 as usize * PAGE_SIZE;
                    if self.data.len() < offset + image.len() {
                        self.data.resize(offset + image.len(), 0);
                    }
                    self.data[offset..offset + image.len()].copy_from_slice(&image);
                }
                FileOp::WalSync | FileOp::DataSync => {}
            }
        }
    }

    fn open(&mut self) -> DatabaseEngine {
        let mut engine =
            DatabaseEngine::open(&self.data, &self.log, MvccOptions::default()).expect("engine");
        self.apply(engine.database.take_ops());
        engine
    }
}

fn float(number: f64) -> Value {
    Value::Float(number.to_bits())
}

fn query_rows(engine: &mut DatabaseEngine, session: &mut SqlSession, text: &str) -> Vec<Vec<Value>> {
    match execute(session, &mut engine.database, text)
        .expect("query")
        .pop()
        .expect("output")
    {
        StatementOutput::Query { rows, .. } => rows,
        other => panic!("expected a query result, got {other:?}"),
    }
}

fn first_column(rows: &[Vec<Value>]) -> Vec<Value> {
    rows.iter().map(|row| row[0].clone()).collect()
}

#[test]
fn recognizes_only_column_constant_equalities() {
    let Statement::Select(select) = read("SELECT * FROM t WHERE 7 = id").expect("parse").remove(0)
    else {
        panic!("select");
    };
    assert!(matches!(
        equality_column_and_constant(select.selection.as_ref().expect("where")),
        Some(("id", _))
    ));

    let Statement::Select(select) = read("SELECT * FROM t WHERE id > 7").expect("parse").remove(0)
    else {
        panic!("select");
    };
    assert!(equality_column_and_constant(select.selection.as_ref().expect("where")).is_none());
}

#[test]
fn component_keys_are_unambiguous_and_rows_round_trip() {
    assert_ne!(
        catalog_key("ab").expect("key"),
        catalog_key("a").expect("key")
    );
    assert_ne!(
        row_key(1, b"identity").expect("row key"),
        row_key(2, b"identity").expect("row key")
    );
    let values = vec![
        Value::Null,
        Value::Integer(-7),
        Value::Text("hello".to_owned()),
    ];
    assert_eq!(
        decode_row(&encode_row(&values).expect("encode")).expect("decode"),
        values
    );
    assert_eq!(decode_u64(&encode_u64(77)).expect("number"), 77);
    assert!(matches!(
        decode_u64(&[1, 2, 3]),
        Err(EngineError::CorruptRecord(message)) if message == "expected an 8-byte integer, got 3"
    ));
}

#[test]
fn order_by_sorts_keys_directions_and_nulls() {
    let mut engine = Disk::default().open();
    let mut session = engine.session();
    execute(
        &mut session,
        &mut engine.database,
        "CREATE TABLE ranked (id BIGINT PRIMARY KEY, score DOUBLE, team TEXT NOT NULL)",
    )
    .expect("create");
    execute(
        &mut session,
        &mut engine.database,
        "INSERT INTO ranked (id, score, team) VALUES \
         (1, 7.5, 'blue'), (2, NULL, 'red'), (3, 9.0, 'blue'), \
         (4, 7.5, 'red'), (5, 1.0, 'green')",
    )
    .expect("insert");

    let rows = query_rows(
        &mut engine,
        &mut session,
        "SELECT id FROM ranked ORDER BY score DESC, id",
    );
    assert_eq!(
        first_column(&rows),
        vec![
            Value::Integer(2),
            Value::Integer(3),
            Value::Integer(1),
            Value::Integer(4),
            Value::Integer(5),
        ],
        "descending puts nulls first, ties break on the second key"
    );

    let rows = query_rows(
        &mut engine,
        &mut session,
        "SELECT id FROM ranked ORDER BY score LIMIT 2",
    );
    assert_eq!(
        first_column(&rows),
        vec![Value::Integer(5), Value::Integer(1)],
        "ascending puts nulls last and LIMIT applies after the sort"
    );

    let rows = query_rows(
        &mut engine,
        &mut session,
        "SELECT id, score FROM ranked WHERE team = 'blue' ORDER BY 0 - id",
    );
    assert_eq!(
        first_column(&rows),
        vec![Value::Integer(3), Value::Integer(1)],
        "order keys are full expressions and need not be projected"
    );

    assert!(
        execute(
            &mut session,
            &mut engine.database,
            "SELECT id FROM ranked ORDER BY missing"
        )
        .is_err(),
        "unknown order keys fail before any row is read"
    );
}

#[test]
fn catalog_ddl_is_transactional_and_survives_restart() {
    let mut disk = Disk::default();
    {
        let mut engine = disk.open();
        let mut session = engine.session();
        execute(
            &mut session,
            &mut engine.database,
            "BEGIN; CREATE TABLE users (id BIGINT PRIMARY KEY, name TEXT); COMMIT",
        )
        .expect("create table");
        disk.apply(engine.database.take_ops());
    }
    {
        let mut engine = disk.open();
        let mut session = engine.session();
        assert!(matches!(
            execute(&mut session, &mut engine.database, "CREATE TABLE users (id BIGINT PRIMARY KEY)"),
            Err(EngineError::TableAlreadyExists(name)) if name == "users"
        ));
        execute(&mut session, &mut engine.database, "DROP TABLE users").expect("drop table");
    }
}

#[test]
fn failed_explicit_transaction_requires_rollback() {
    let mut engine = Disk::default().open();
    let mut session = engine.session();
    execute(&mut session, &mut engine.database, "BEGIN").expect("begin");
    assert!(execute(&mut session, &mut engine.database, "SELECT * FROM missing").is_err());
    assert_eq!(session.transaction_status(), SessionStatus::Failed);
    assert!(matches!(
        execute(&mut session, &mut engine.database, "COMMIT"),
        Err(EngineError::TransactionAborted)
    ));
    execute(&mut session, &mut engine.database, "ROLLBACK").expect("rollback");
    assert_eq!(session.transaction_status(), SessionStatus::Idle);
}

#[test]
fn inserts_and_selects_typed_rows_with_constraints() {
    let mut engine = Disk::default().open();
    let mut session = engine.session();
    execute(
        &mut session,
        &mut engine.database,
        "CREATE TABLE users (
            id BIGINT PRIMARY KEY,
            name VARCHAR(20) NOT NULL,
            score DOUBLE,
            active BOOL
        )",
    )
    .expect("create");
    assert_eq!(
        execute(
            &mut session,
            &mut engine.database,
            "INSERT INTO users (id, name, score, active) VALUES
             (1, 'Ada', 9.5, true), (2, 'Grace', 8, false)"
        )
        .expect("insert"),
        vec![command("INSERT", 2)]
    );
    let output = execute(
        &mut session,
        &mut engine.database,
        "SELECT id, name, score + 1 AS adjusted
         FROM users WHERE active = true LIMIT 10",
    )
    .expect("select");
    let StatementOutput::Query { columns, rows } = &output[0] else {
        panic!("expected query");
    };
    assert_eq!(
        columns
            .iter()
            .map(|column| column.name.as_str())
            .collect::<Vec<_>>(),
        vec!["id", "name", "adjusted"]
    );
    assert_eq!(
        rows,
        &vec![vec![
            Value::Integer(1),
            Value::Text("Ada".to_owned()),
            float(10.5),
        ]]
    );
    assert!(matches!(
        execute(
            &mut session,
            &mut engine.database,
            "INSERT INTO users VALUES (1, 'Duplicate', 1, true)"
        ),
        Err(EngineError::ConstraintViolation(_))
    ));

    assert_eq!(
        execute(
            &mut session,
            &mut engine.database,
            "UPDATE users SET score = score + 2, active = true WHERE id = 2"
        )
        .expect("update"),
        vec![command("UPDATE", 1)]
    );
    assert_eq!(
        execute(
            &mut session,
            &mut engine.database,
            "DELETE FROM users WHERE score >= 10"
        )
        .expect("delete"),
        vec![command("DELETE", 1)]
    );
    let rows = query_rows(
        &mut engine,
        &mut session,
        "SELECT id, score FROM users WHERE active = true",
    );
    assert_eq!(rows, vec![vec![Value::Integer(1), float(9.5)]]);
}

#[test]
fn explicit_rollback_discards_rows_and_schema_changes() {
    let mut engine = Disk::default().open();
    let mut session = engine.session();
    execute(&mut session, &mut engine.database, "BEGIN").expect("begin");
    execute(
        &mut session,
        &mut engine.database,
        "CREATE TABLE temporary (id BIGINT PRIMARY KEY)",
    )
    .expect("create");
    execute(
        &mut session,
        &mut engine.database,
        "INSERT INTO temporary VALUES (1)",
    )
    .expect("insert");
    execute(&mut session, &mut engine.database, "ROLLBACK").expect("rollback");
    assert!(matches!(
        execute(&mut session, &mut engine.database, "SELECT * FROM temporary"),
        Err(EngineError::TableNotFound(_))
    ));
}

#[test]
fn concurrent_unique_values_conflict_at_mvcc_commit() {
    let mut engine = Disk::default().open();
    let mut setup = engine.session();
    execute(
        &mut setup,
        &mut engine.database,
        "CREATE TABLE users (id BIGINT PRIMARY KEY, email TEXT UNIQUE)",
    )
    .expect("create");

    let mut first = engine.session();
    let mut second = engine.session();
    execute(&mut first, &mut engine.database, "BEGIN").expect("first begin");
    execute(&mut second, &mut engine.database, "BEGIN").expect("second begin");
    execute(
        &mut first,
        &mut engine.database,
        "INSERT INTO users VALUES (1, 'same@example.com')",
    )
    .expect("first insert");
    execute(
        &mut second,
        &mut engine.database,
        "INSERT INTO users VALUES (2, 'same@example.com')",
    )
    .expect("second insert in snapshot");
    execute(&mut first, &mut engine.database, "COMMIT").expect("first commit");
    assert!(matches!(
        execute(&mut second, &mut engine.database, "COMMIT"),
        Err(EngineError::Transaction(
            TransactionError::WriteConflict { .. }
        ))
    ));
}

#[test]
fn primary_and_unique_point_paths_track_key_changes_and_restart() {
    let mut disk = Disk::default();
    {
        let mut engine = disk.open();
        let mut session = engine.session();
        execute(
            &mut session,
            &mut engine.database,
            "CREATE TABLE users (id BIGINT PRIMARY KEY, email TEXT UNIQUE)",
        )
        .expect("create");
        execute(
            &mut session,
            &mut engine.database,
            "INSERT INTO users VALUES (1, 'old@example.com')",
        )
        .expect("insert");
        execute(
            &mut session,
            &mut engine.database,
            "UPDATE users SET id = 9 WHERE email = 'old@example.com'",
        )
        .expect("change primary key through unique path");
        execute(
            &mut session,
            &mut engine.database,
            "UPDATE users SET email = 'new@example.com' WHERE id = 9",
        )
        .expect("change unique value through primary path");

        assert_eq!(
            query_rows(
                &mut engine,
                &mut session,
                "SELECT id FROM users WHERE email = 'new@example.com'",
            ),
            vec![vec![Value::Integer(9)]],
        );
        assert!(query_rows(
            &mut engine,
            &mut session,
            "SELECT id FROM users WHERE email = 'old@example.com'",
        )
        .is_empty());
        disk.apply(engine.database.take_ops());
    }
    {
        let mut engine = disk.open();
        let mut session = engine.session();
        assert_eq!(
            query_rows(
                &mut engine,
                &mut session,
                "SELECT email FROM users WHERE id = 9",
            ),
            vec![vec![Value::Text("new@example.com".to_owned())]],
        );
        execute(
            &mut session,
            &mut engine.database,
            "DELETE FROM users WHERE email = 'new@example.com'",
        )
        .expect("delete through unique path");
        assert!(query_rows(
            &mut engine,
            &mut session,
            "SELECT * FROM users WHERE id = 9"
        )
        .is_empty());
    }
}

#[test]
fn each_kind_of_mistake_has_its_error() {
    let mut engine = Disk::default().open();
    let mut session = engine.session();
    let database = &mut engine.database;
    execute(
        &mut session,
        database,
        "CREATE TABLE t (id BIGINT PRIMARY KEY, name VARCHAR(3) NOT NULL, n BIGINT UNIQUE)",
    )
    .expect("create");
    assert!(matches!(
        execute(&mut session, database, "SELECT * FROM nowhere"),
        Err(EngineError::TableNotFound(name)) if name == "nowhere"
    ));
    assert!(matches!(
        execute(&mut session, database, "SELECT nope FROM t"),
        Err(EngineError::ColumnNotFound(name)) if name == "nope"
    ));
    assert!(execute(&mut session, database, "INSERT INTO t VALUES (1, NULL, 1)").is_err());
    assert!(execute(&mut session, database, "INSERT INTO t VALUES (1, 'long', 1)").is_err());
    assert!(execute(&mut session, database, "INSERT INTO t VALUES (1, 'a')").is_err());
    execute(&mut session, database, "INSERT INTO t VALUES (1, 'a', 5)").expect("insert");
    assert!(matches!(
        execute(&mut session, database, "INSERT INTO t VALUES (2, 'b', 5)"),
        Err(EngineError::ConstraintViolation(_))
    ));
    execute(&mut session, database, "INSERT INTO t VALUES (2, 'b', NULL), (3, 'c', NULL)")
        .expect("NULL is never a duplicate");
    assert!(matches!(
        execute(&mut session, database, "COMMIT"),
        Err(EngineError::NoActiveTransaction)
    ));
    execute(&mut session, database, "BEGIN").expect("begin");
    assert!(matches!(
        execute(&mut session, database, "BEGIN"),
        Err(EngineError::TransactionAlreadyActive)
    ));
    execute(&mut session, database, "ROLLBACK").expect("rollback");
    assert!(execute(&mut session, database, "SELECT id / 0 FROM t").is_err());
    assert!(matches!(
        execute(&mut session, database, "SELECT FROM"),
        Err(EngineError::Syntax { .. })
    ));
    assert!(execute(
        &mut session,
        database,
        "CREATE TABLE bad (id BIGINT PRIMARY KEY, id BIGINT)"
    )
    .is_err());
    assert_eq!(
        execute(&mut session, database, "DROP TABLE IF EXISTS nowhere").expect("drop"),
        vec![command("DROP TABLE", 0)]
    );
}

#[test]
fn a_table_that_is_dropped_and_made_again_is_empty() {
    let mut engine = Disk::default().open();
    let mut session = engine.session();
    for text in [
        "CREATE TABLE t (id BIGINT PRIMARY KEY, name TEXT UNIQUE)",
        "INSERT INTO t VALUES (1, 'one'), (2, 'two')",
        "DROP TABLE t",
        "CREATE TABLE t (id BIGINT PRIMARY KEY, name TEXT UNIQUE)",
        "INSERT INTO t VALUES (1, 'one')",
    ] {
        execute(&mut session, &mut engine.database, text).expect(text);
    }
    assert_eq!(
        query_rows(&mut engine, &mut session, "SELECT id FROM t"),
        vec![vec![Value::Integer(1)]]
    );
}

#[test]
fn an_open_transaction_keeps_what_it_writes_to_itself() {
    let mut engine = Disk::default().open();
    let mut writer = engine.session();
    let mut reader = engine.session();
    execute(
        &mut writer,
        &mut engine.database,
        "CREATE TABLE t (id BIGINT PRIMARY KEY)",
    )
    .expect("create");
    execute(&mut writer, &mut engine.database, "BEGIN").expect("begin");
    execute(&mut writer, &mut engine.database, "INSERT INTO t VALUES (1)").expect("insert");
    assert!(query_rows(&mut engine, &mut reader, "SELECT * FROM t").is_empty());
    assert_eq!(query_rows(&mut engine, &mut writer, "SELECT * FROM t").len(), 1);
    writer.close(&mut engine.database);
    assert!(query_rows(&mut engine, &mut reader, "SELECT * FROM t").is_empty());
    assert_eq!(engine.database.stats().active_transactions, 0);
}

#[test]
fn integers_and_floats_sort_by_their_exact_values() {
    let float = |number: f64| Value::Float(number.to_bits());
    let large = 9_007_199_254_740_993_i64;
    for (integer, number, expected) in [
        (large, 9_007_199_254_740_992.0, KeyOrder::After),
        (large - 1, 9_007_199_254_740_992.0, KeyOrder::Same),
        (large, 9_007_199_254_740_994.0, KeyOrder::Before),
        (-large, -9_007_199_254_740_992.0, KeyOrder::Before),
        (0, 0.5, KeyOrder::Before),
        (0, -0.5, KeyOrder::After),
        (i64::MAX, 9_223_372_036_854_775_808.0, KeyOrder::Before),
        (i64::MIN, -9_223_372_036_854_775_808.0, KeyOrder::Same),
        (7, f64::INFINITY, KeyOrder::Before),
        (7, f64::NEG_INFINITY, KeyOrder::After),
    ] {
        assert_eq!(
            compare_sort_values(&Value::Integer(integer), &float(number)),
            expected,
            "{integer} {number}"
        );
    }
}

#[test]
fn index_prefixes_tell_indexes_and_lengths_apart() {
    let text = |text: &str| Value::Text(text.to_owned());
    let one = index_value_prefix(7, &[Value::Integer(1)]).expect("prefix");
    let two = index_value_prefix(7, &[Value::Integer(1), text("a")]).expect("prefix");
    assert!(two.starts_with(&one) && two.len() > one.len());
    let others = [
        index_value_prefix(8, &[Value::Integer(1)]).expect("prefix"),
        index_value_prefix(7, &[]).expect("prefix"),
        index_value_prefix(7, &[Value::Integer(2)]).expect("prefix"),
        index_value_prefix(7, &[text("a"), Value::Integer(1)]).expect("prefix"),
        two,
    ];
    for other in others {
        assert_ne!(one, other);
    }
}

#[test]
fn a_limit_shows_the_first_of_the_same_rows() {
    let mut engine = Disk::default().open();
    let mut session = engine.session();
    execute(
        &mut session,
        &mut engine.database,
        "CREATE TABLE places (id BIGINT PRIMARY KEY, score BIGINT NOT NULL)",
    )
    .expect("create");
    execute(
        &mut session,
        &mut engine.database,
        "INSERT INTO places (id, score) VALUES (1, 5), (2, 3), (3, 5), (4, 1), (5, 3)",
    )
    .expect("insert");
    let all = query_rows(
        &mut engine,
        &mut session,
        "SELECT id FROM places WHERE score > 1 ORDER BY score",
    );
    assert_eq!(
        first_column(&all),
        vec![
            Value::Integer(2),
            Value::Integer(5),
            Value::Integer(1),
            Value::Integer(3),
        ],
        "ties stand as in the table"
    );
    for limit in 0..=5_usize {
        let some = query_rows(
            &mut engine,
            &mut session,
            &format!("SELECT id FROM places WHERE score > 1 ORDER BY score LIMIT {limit}"),
        );
        assert_eq!(some, all[..limit.min(all.len())]);
    }
    let found = query_rows(&mut engine, &mut session, "SELECT score FROM places WHERE id = 3");
    assert_eq!(found, vec![vec![Value::Integer(5)]], "one row is found by its key");
}
