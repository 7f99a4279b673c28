//! The tables kept in memory, the line protocol, and the tools around them.
use quantadb::bench::{
    classify, next_random, operation, parse_args, seed_batch, worker_seed, Config, Outcome,
};
use quantadb::client::{cli_command, take_response, Command};
use quantadb::engine::float::FloatTable;
use quantadb::server::net::{process_query, ProcessStop, QuantaProtocol, QuantaResponse};
use quantadb::server::sql::executor::{Disk, QueryExecutor, QueryResult};
use quantadb::server::sql::parser::{FloatReadings, SqlParser};
use quantadb::server::storage::engine::StorageEngine;
use quantadb::server::storage::error::QuantaError;
use quantadb::server::storage::persistence::{persist, restore, table_of_file, FileStorage};
use quantadb::server::storage::table::Table;
use quantadb::server::storage::types::{Column, DataType, Row, Schema, Value};

fn query(executor: &mut QueryExecutor, sql: &str) -> Result<(QueryResult, Disk), QuantaError> {
    let parser = SqlParser::new();
    let mut readings = FloatReadings::new();
    let mut floats = FloatTable::new();
    loop {
        let (outcome, disk) = process_query(sql, &parser, executor, &readings, &floats);
        match outcome {
            Ok(result) => return Ok((result, disk)),
            Err(ProcessStop::Error(error)) => return Err(error),
            Err(ProcessStop::NeedsReading(digits)) => {
                readings.set(&digits, digits.parse::<f64>().ok().map(f64::to_bits));
            }
            Err(ProcessStop::NeedsFloat(request)) => {
                let difference = f64::from_bits(request.left) - f64::from_bits(request.right);
                floats.answer(request, difference.to_bits());
            }
        }
    }
}

fn message(executor: &mut QueryExecutor, sql: &str) -> String {
    query(executor, sql).expect(sql).0.message
}

fn error(executor: &mut QueryExecutor, sql: &str) -> QuantaError {
    match query(executor, sql) {
        Err(error) => error,
        Ok(_) => panic!("expected an error"),
    }
}

fn column(name: &str, data_type: DataType) -> Column {
    Column {
        name: name.to_owned(),
        data_type,
    }
}

#[test]
fn the_usual_statements_work_end_to_end() {
    let mut executor = QueryExecutor::new();
    assert_eq!(
        message(&mut executor, "CREATE TABLE users (id INT, name TEXT, age INT)"),
        "Table 'users' created successfully"
    );
    assert_eq!(
        message(&mut executor, "INSERT INTO users VALUES (1, 'Alice', 25)"),
        "Row inserted with ID: 1"
    );
    assert_eq!(
        message(&mut executor, "INSERT INTO users VALUES (2, 'Bob', 30)"),
        "Row inserted with ID: 2"
    );
    let (all, _) = query(&mut executor, "SELECT * FROM users").expect("select");
    assert_eq!(all.message, "Query executed successfully, 2 rows returned");
    let (names, disk) =
        query(&mut executor, "SELECT name FROM users WHERE (age > 25)").expect("select");
    let rows = names.data.expect("rows");
    assert_eq!(rows.len(), 1);
    assert_eq!(rows[0].values, vec![Value::Text("Bob".to_owned())]);
    assert!(matches!(disk, Disk::Nothing));
    assert_eq!(
        message(&mut executor, "DELETE FROM users WHERE name = 'Alice'"),
        "1 rows deleted"
    );
    assert_eq!(message(&mut executor, "DELETE FROM users"), "1 rows deleted");
    assert_eq!(
        message(&mut executor, "DROP TABLE users"),
        "Table 'users' dropped successfully"
    );
    assert!(matches!(
        error(&mut executor, "SELECT * FROM users"),
        QuantaError::TableNotFound(name) if name == "users"
    ));
}

#[test]
fn floats_that_are_close_count_as_equal() {
    let mut executor = QueryExecutor::new();
    message(&mut executor, "CREATE TABLE f (x DOUBLE)");
    message(&mut executor, "INSERT INTO f VALUES (0.3)");
    let count = |executor: &mut QueryExecutor, condition: &str| {
        let sql = format!("SELECT x FROM f WHERE {condition}");
        query(executor, &sql).expect("select").0.data.expect("rows").len()
    };
    assert_eq!(count(&mut executor, "x = 0.30000000000000004"), 1);
    assert_eq!(count(&mut executor, "x <> 0.30000000000000004"), 0);
    assert_eq!(count(&mut executor, "x < 0.30000000000000004"), 1);
    assert_eq!(count(&mut executor, "x >= 0.5"), 0);
    assert_eq!(count(&mut executor, "x <> 0.5"), 1);
}

#[test]
fn each_mistake_is_named() {
    let mut executor = QueryExecutor::new();
    message(&mut executor, "CREATE TABLE t (id INT, ok BOOLEAN)");
    message(&mut executor, "INSERT INTO t VALUES (1, true)");
    for (sql, detail) in [
        ("CREATE TABLE t (id INT)", "Table 't' already exists"),
        ("INSERT INTO t VALUES (1)", "Row does not match schema for table 't'"),
        ("SELECT id FROM t WHERE ok > true", "Boolean comparison only supports = and !="),
        ("SELECT id FROM t WHERE id = 'x'", "Type mismatch in comparison"),
    ] {
        assert!(
            matches!(error(&mut executor, sql), QuantaError::QueryError(found) if found == detail),
            "{sql}"
        );
    }
    assert!(matches!(
        error(&mut executor, "SELECT nope FROM t"),
        QuantaError::ColumnNotFound(name) if name == "nope"
    ));
    for (sql, detail) in [
        ("DROP VIEW t", "Only DROP TABLE is supported"),
        ("DROP TABLE a, b", "DROP TABLE expects exactly one table name"),
        ("SELECT id FROM a, b", "SELECT expects exactly one table"),
        ("SELECT id FROM x.t", "Multi-part table names not supported"),
        ("SELECT id + 1 FROM t", "Unsupported SELECT projection"),
        ("INSERT INTO t VALUES (1, true), (2, false)", "INSERT expects exactly one row"),
        ("INSERT INTO t SELECT 1", "INSERT VALUES expected"),
        ("VALUES (1)", "Only SELECT queries are supported"),
        ("INSERT INTO t VALUES (99999999999999999999, true)", "Invalid integer"),
    ] {
        match error(&mut executor, sql) {
            QuantaError::SqlParseError(found) => assert_eq!(found, detail, "{sql}"),
            other => panic!("{sql}: {other:?}"),
        }
    }
    assert!(error(&mut executor, "SELEC id").message().starts_with("SQL parse error: "));
    assert!(error(&mut executor, "UPDATE t SET id = 2")
        .message()
        .starts_with("SQL parse error: Unsupported statement: Update"));
    assert!(error(&mut executor, "CREATE TABLE b (x BLOB)")
        .message()
        .contains("Unsupported data type: Blob"));
}

#[test]
fn rows_keep_their_numbers_and_tables_their_rows() {
    let schema = Schema::new(vec![column("id", DataType::Int), column("note", DataType::Text)]);
    let mut table = Table::new("notes".to_owned(), schema);
    let row = |id: i64| Row::new(vec![Value::Int(id), Value::Null]);
    assert_eq!(table.insert_row(row(10)).expect("insert"), 1);
    assert_eq!(table.insert_row(row(20)).expect("insert"), 2);
    assert!(table.insert_row(Row::new(vec![Value::Bool(true), Value::Null])).is_err());
    assert_eq!(table.row_count(), 2);
    assert!(table.delete_row(1));
    assert!(!table.delete_row(1));
    assert!(table.get_row(1).is_none());
    assert_eq!(table.get_row(2).expect("row").values[0], Value::Int(20));
    assert_eq!(table.insert_row(row(30)).expect("insert"), 3);

    let again = restore(persist(&table));
    assert_eq!(again.name, "notes");
    assert_eq!(again.next_id(), 4);
    let mut ids: Vec<u64> = again.get_all_rows().iter().map(|pair| pair.0).collect();
    ids.sort_unstable();
    assert_eq!(ids, vec![2, 3]);
}

#[test]
fn schemas_find_columns_and_check_rows() {
    let schema = Schema::new(vec![column("a", DataType::Int), column("b", DataType::Float)]);
    assert_eq!(schema.get_column_index("b"), Some(1));
    assert_eq!(schema.get_column_index("c"), None);
    assert!(schema.validate_row(&Row::new(vec![Value::Null, Value::Float(0)])));
    assert!(!schema.validate_row(&Row::new(vec![Value::Int(1)])));
    assert!(!schema.validate_row(&Row::new(vec![Value::Int(1), Value::Int(2)])));
    let row = Row::new(vec![Value::Int(7)]);
    assert_eq!(row.get_value_by_name("a", &schema.columns), Some(&Value::Int(7)));
    assert_eq!(row.get_value_by_name("b", &schema.columns), None);
    assert_eq!(Value::Null.get_type(), DataType::Int);
    assert_eq!(Value::Text("x".to_owned()).text(""), "\"x\"");
    assert_eq!(DataType::Bool.text(), "BOOL");
}

#[test]
fn changes_are_handed_out_for_the_files() {
    let storage = StorageEngine::new_with_persistence();
    let mut executor = QueryExecutor::new_with_persistence(storage);
    let (_, disk) = query(&mut executor, "CREATE TABLE t (id INT)").expect("create");
    assert!(matches!(disk, Disk::Save(_)));
    let (_, disk) = query(&mut executor, "INSERT INTO t VALUES (5)").expect("insert");
    let Disk::Save(saved) = disk else {
        panic!("the table must be saved");
    };
    assert_eq!(saved.metadata.next_id, 2);
    assert_eq!(saved.rows.len(), 1);

    let mut reloaded = StorageEngine::new_with_persistence();
    reloaded.load_table("t".to_owned(), saved);
    assert!(reloaded.table_exists("t"));
    assert_eq!(reloaded.list_tables(), vec!["t".to_owned()]);
    assert_eq!(reloaded.select_from_table("t").expect("rows")[0].0, 1);
    assert!(matches!(
        reloaded.delete_from_table("t", 1),
        Ok((true, Some(_)))
    ));
    assert!(matches!(
        reloaded.delete_from_table("t", 1),
        Ok((false, None))
    ));

    let (_, disk) = query(&mut executor, "DROP TABLE t").expect("drop");
    assert!(matches!(disk, Disk::Delete(name) if name == "t"));
}

#[test]
fn table_files_are_told_by_their_ends() {
    let storage = FileStorage::new("data".to_owned());
    assert_eq!(storage.get_data_dir(), "data");
    assert_eq!(storage.file_name("users"), "users.json");
    assert_eq!(table_of_file("users.json"), Some("users".to_owned()));
    assert_eq!(table_of_file("a.json.json"), Some("a".to_owned()));
    assert_eq!(table_of_file("users.txt"), None);
    let files = vec!["users.json".to_owned()];
    assert!(storage.table_exists("users", &files));
    assert!(!storage.table_exists("other", &files));
}

#[test]
fn lines_are_queries_and_answers_carry_results() {
    assert_eq!(QuantaProtocol::content(" \t\r\n"), None);
    assert_eq!(
        QuantaProtocol::content(" SELECT 1 \n").as_deref(),
        Some("SELECT 1")
    );
    assert_eq!(
        QuantaProtocol::parse_request(" plain ", None).query,
        "plain"
    );
    assert_eq!(
        QuantaProtocol::parse_request("{}", Some("json".to_owned())).query,
        "json"
    );
    assert_eq!(
        QuantaResponse::welcome().message,
        "Welcome to QuantaDB! Send SQL queries to get started."
    );
    let refused = QuantaProtocol::answer(Err(QuantaError::TableNotFound("t".to_owned())));
    assert!(!refused.success);
    assert_eq!(
        take_response(refused).map(|result| result.message),
        Err("Table not found: t".to_owned())
    );
    assert_eq!(
        take_response(QuantaResponse {
            success: false,
            message: String::new(),
            data: None,
            error: None,
        })
        .map(|result| result.message),
        Err("Unknown error".to_owned())
    );
}

#[test]
fn commands_of_the_client_are_known() {
    assert!(matches!(cli_command("\\h"), Command::Help));
    assert!(matches!(cli_command("\\exit"), Command::Quit));
    assert!(matches!(cli_command("\\status"), Command::Status));
    assert!(matches!(
        cli_command("\\x"),
        Command::Unknown { message } if message == "Unknown command: \\x. Type \\help for help."
    ));
}

fn options(args: &[&str]) -> Result<Option<Config>, String> {
    parse_args(&args.iter().map(|arg| (*arg).to_owned()).collect())
}

#[test]
fn the_load_generator_reads_its_options() {
    let config = options(&[]).expect("defaults").expect("config");
    assert_eq!(config.address, "127.0.0.1:54321");
    assert_eq!((config.connections, config.seconds, config.rows), (8, 10, 10_000));
    let config = options(&["--rows", "7", "--read-percent", "100"])
        .expect("options")
        .expect("config");
    assert_eq!((config.rows, config.read_percent), (7, 100));
    assert!(options(&["--help"]).expect("help").is_none());
    for (args, message) in [
        (vec!["--rows"], "--rows needs a value"),
        (vec!["--rows", "x"], "--rows needs a whole number, got x"),
        (vec!["--read-percent", "101"], "--read-percent must be between 0 and 100"),
        (vec!["--speed", "1"], "unknown option --speed"),
        (vec!["--rows", "0"], "connections, seconds, and rows must all be positive"),
    ] {
        match options(&args) {
            Err(found) => assert_eq!(found, message),
            Ok(_) => panic!("expected an error"),
        }
    }
}

#[test]
fn the_workload_is_determined_by_its_generator() {
    assert_eq!(next_random(1), 0x4082_2041);
    assert_ne!(worker_seed(0), worker_seed(1));
    let config = Config {
        rows: 10,
        read_percent: 50,
        ..Config::default()
    };
    let read = operation(123, &config);
    assert!(read.is_read);
    assert_eq!(read.sql, "SELECT val FROM bench_kv WHERE id = 3");
    let write = operation(178, &config);
    assert!(!write.is_read);
    assert_eq!(write.sql, "UPDATE bench_kv SET val = 'w178' WHERE id = 8");
    assert_eq!(
        seed_batch(1, 3),
        (
            "INSERT INTO bench_kv (id, val) VALUES (1, 'seed 1'), (2, 'seed 2')".to_owned(),
            3
        )
    );
    assert_eq!(seed_batch(0, 10_000).1, 500);
    let kind = |text: &str| Some(text.to_owned());
    assert_eq!(classify(&kind("executed"), &None), Some(Outcome::Done));
    assert_eq!(
        classify(&kind("error"), &kind("transaction_error")),
        Some(Outcome::Conflict)
    );
    assert_eq!(classify(&kind("error"), &kind("syntax_error")), Some(Outcome::Failure));
    assert_eq!(classify(&kind("pong"), &None), None);
}

#[test]
fn texts_that_stop_the_parser_are_mistakes() {
    let mut executor = QueryExecutor::new();
    for sql in [
        "CREATE TABLE t (id INT) AUTO_INCREMENT = 4294967296",
        "CREATE TABLE t (id INT) AUTO_INCREMENT 1.5",
        "CREATE TABLE t (id INT)\n-- the next number\nAUTO_INCREMENT =\n  4294967296",
        "CREATE TABLE t (id INT, CHECK (auto_increment = 4294967296)) AUTO_INCREMENT.5",
        "CREATE TABLE t (id INT) STORED AS INPUTFORMAT a OUTPUTFORMAT b AUTO_INCREMENT = 4294967296",
        "GRANT SELECT ON t TO a GRANTED BY",
        "GRANT SELECT ON t TO a WITH GRANT OPTION GRANTED BY 7",
        "REVOKE SELECT ON t FROM a GRANTED BY",
        "EXPLAIN CREATE TABLE t (id INT) AUTO_INCREMENT = 4294967296",
        "EXPLAIN ANALYZE EXPLAIN GRANT SELECT ON t TO a GRANTED BY",
        "PREPARE p AS GRANT SELECT ON t TO a GRANTED BY",
        "PREPARE p AS CREATE TABLE t (id INT) AUTO_INCREMENT = 4294967296",
        "CREATE PROCEDURE p AS BEGIN SELECT 1; GRANT SELECT ON t TO a GRANTED BY ; END",
    ] {
        match error(&mut executor, sql) {
            QuantaError::SqlParseError(found) => {
                assert_eq!(found, "Unsupported option in statement", "{sql}");
            }
            other => panic!("{sql}: {other:?}"),
        }
    }
}

#[test]
fn like_words_elsewhere_are_left_to_the_parser() {
    let mut executor = QueryExecutor::new();
    for (sql, start) in [
        ("GRANT SELECT ON t TO a, GRANTED BY", "Unsupported statement: Grant"),
        ("GRANT SELECT ON t TO a; GRANT SELECT ON t TO a GRANTED BY", "Unsupported statement: Grant"),
        ("EXPLAIN SELECT auto_increment = 4294967296", "Unsupported statement: Explain"),
        ("PREPARE p AS SELECT auto_increment = 4294967296", "Unsupported statement: Prepare"),
        ("CREATE VIEW v AS SELECT auto_increment = 4294967296", "Unsupported statement: CreateView"),
        ("ALTER TABLE t ADD COLUMN n INT DEFAULT auto_increment = 4294967296", "Unsupported statement: AlterTable"),
        ("CREATE TABLE t (id INT AUTO_INCREMENT = 4294967296)", "sql parser error: Expected"),
        ("CREATE TABLE t (id INT)) AUTO_INCREMENT = 4294967296", ""),
        ("GRANT SELECT t GRANTED BY", "sql parser error: Expected ON"),
    ] {
        match query(&mut executor, sql) {
            Err(QuantaError::SqlParseError(found)) => {
                assert!(found.starts_with(start), "{sql}: {found}");
                assert_ne!(found, "Unsupported option in statement", "{sql}");
            }
            Err(other) => panic!("{sql}: {other:?}"),
            Ok(_) => assert_eq!(start, "", "{sql}"),
        }
    }
    message(&mut executor, "CREATE TABLE u (id INT) AUTO_INCREMENT = 4294967295");
    message(
        &mut executor,
        "CREATE TABLE w (id INT AUTO_INCREMENT, auto_increment INT, CHECK (auto_increment < 4294967296))",
    );
    message(&mut executor, "INSERT INTO w VALUES (1, 4294967296)");
    let (result, _) = query(&mut executor, "SELECT id FROM w WHERE auto_increment = 4294967296")
        .expect("a column of that name is compared");
    assert_eq!(result.data.map(|rows| rows.len()), Some(1));
}
