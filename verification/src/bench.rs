//! The rules of a load generator: its options, the statements of its workload, and which rows they
//! touch.
use crate::engine::schema::same_text;
use crate::engine::value::copy_text;
use crate::text;
use crate::text::{chars_of, join_text, push_decimal};
use vstd::prelude::*;
use vstd::string::*;

verus! {

pub struct Config {
    pub address: String,
    pub connections: u64,
    pub seconds: u64,
    pub read_percent: u64,
    pub rows: u64,
}

#[verifier::ext_equal]
pub struct ConfigView {
    pub address: Seq<char>,
    pub connections: u64,
    pub seconds: u64,
    pub read_percent: u64,
    pub rows: u64,
}

impl View for Config {
    type V = ConfigView;

    open spec fn view(&self) -> ConfigView {
        ConfigView {
            address: self.address@,
            connections: self.connections,
            seconds: self.seconds,
            read_percent: self.read_percent,
            rows: self.rows,
        }
    }
}

pub open spec fn default_config() -> ConfigView {
    ConfigView {
        address: "127.0.0.1:54321"@,
        connections: 8,
        seconds: 10,
        read_percent: 80,
        rows: 10_000,
    }
}

impl Default for Config {
    fn default() -> (config: Config)
        ensures
            config@ == default_config(),
    {
        Config {
            address: String::from_str("127.0.0.1:54321"),
            connections: 8,
            seconds: 10,
            read_percent: 80,
            rows: 10_000,
        }
    }
}

/// The number that an option gives.
pub open spec fn number_given(flag: Seq<char>, value: Seq<char>) -> Result<u64, Seq<char>> {
    match text::parsed_number(value, u64::MAX as nat) {
        Ok(number) => Ok(number as u64),
        Err(_) => Err(flag + " needs a whole number, got "@ + value),
    }
}

/// A configuration with one more option.
pub open spec fn with_option(config: ConfigView, flag: Seq<char>, value: Seq<char>) -> Result<
    ConfigView,
    Seq<char>,
> {
    if flag == "--address"@ {
        Ok(ConfigView { address: value, ..config })
    } else if flag == "--connections"@ {
        match number_given(flag, value) {
            Ok(number) => Ok(ConfigView { connections: number, ..config }),
            Err(message) => Err(message),
        }
    } else if flag == "--seconds"@ {
        match number_given(flag, value) {
            Ok(number) => Ok(ConfigView { seconds: number, ..config }),
            Err(message) => Err(message),
        }
    } else if flag == "--read-percent"@ {
        match number_given(flag, value) {
            Ok(number) => if number > 100 {
                Err("--read-percent must be between 0 and 100"@)
            } else {
                Ok(ConfigView { read_percent: number, ..config })
            },
            Err(message) => Err(message),
        }
    } else if flag == "--rows"@ {
        match number_given(flag, value) {
            Ok(number) => Ok(ConfigView { rows: number, ..config }),
            Err(message) => Err(message),
        }
    } else {
        Err("unknown option "@ + flag + ""@)
    }
}

/// What a command line says from a place on: a configuration, nothing where help is asked for, or what
/// is wrong with it.
pub open spec fn options_from(args: Seq<Seq<char>>, at: int, config: ConfigView) -> Result<
    Option<ConfigView>,
    Seq<char>,
>
    decreases args.len() - at,
{
    if at >= args.len() {
        if config.connections == 0 || config.seconds == 0 || config.rows == 0 {
            Err("connections, seconds, and rows must all be positive"@)
        } else {
            Ok(Some(config))
        }
    } else if args[at] == "--help"@ {
        Ok(None)
    } else if at + 1 >= args.len() {
        Err(args[at] + " needs a value"@ + ""@)
    } else {
        match with_option(config, args[at], args[at + 1]) {
            Err(message) => Err(message),
            Ok(next) => options_from(args, at + 2, next),
        }
    }
}

pub open spec fn text_views(args: Seq<String>) -> Seq<Seq<char>> {
    Seq::new(args.len(), |i: int| args[i]@)
}

fn parse_number(flag: &str, value: &str) -> (number: Result<u64, String>)
    ensures
        match number {
            Ok(number) => number_given(flag@, value@) == Ok::<u64, Seq<char>>(number),
            Err(message) => number_given(flag@, value@) == Err::<u64, Seq<char>>(message@),
        },
{
    let chars = chars_of(value);
    let length: usize = chars.len();
    assert(chars@.subrange(0, length as int) =~= value@);
    match text::parse_number(&chars, 0, length, u64::MAX) {
        Ok(number) => Ok(number),
        Err(_) => Err(join_text(flag, " needs a whole number, got ", value)),
    }
}

fn set_option(config: &mut Config, flag: &str, value: &String) -> (done: Result<(), String>)
    ensures
        match done {
            Ok(_) => with_option(old(config)@, flag@, value@) == Ok::<ConfigView, Seq<char>>(
                final(config)@,
            ),
            Err(message) => with_option(old(config)@, flag@, value@) == Err::<
                ConfigView,
                Seq<char>,
            >(message@),
        },
{
    if same_text(flag, "--address") {
        config.address = copy_text(value);
        return Ok(());
    }
    if same_text(flag, "--connections") || same_text(flag, "--seconds") || same_text(
        flag,
        "--read-percent",
    ) || same_text(flag, "--rows") {
        let number: u64 = match parse_number(flag, value.as_str()) {
            Err(message) => {
                return Err(message);
            },
            Ok(number) => number,
        };
        if same_text(flag, "--connections") {
            config.connections = number;
        } else if same_text(flag, "--seconds") {
            config.seconds = number;
        } else if same_text(flag, "--read-percent") {
            if number > 100 {
                return Err(String::from_str("--read-percent must be between 0 and 100"));
            }
            config.read_percent = number;
        } else {
            config.rows = number;
        }
        return Ok(());
    }
    Err(join_text("unknown option ", flag, ""))
}

/// What a command line says.
pub fn parse_args(args: &Vec<String>) -> (options: Result<Option<Config>, String>)
    ensures
        match options {
            Ok(Some(config)) => options_from(text_views(args@), 0, default_config()) == Ok::<
                Option<ConfigView>,
                Seq<char>,
            >(Some(config@)),
            Ok(None) => options_from(text_views(args@), 0, default_config()) == Ok::<
                Option<ConfigView>,
                Seq<char>,
            >(None),
            Err(message) => options_from(text_views(args@), 0, default_config()) == Err::<
                Option<ConfigView>,
                Seq<char>,
            >(message@),
        },
{
    let ghost views = text_views(args@);
    let mut config = Config::default();
    let length: usize = args.len();
    let mut at: usize = 0;
    while at < length
        invariant
            at <= length == args@.len(),
            views == text_views(args@),
            options_from(views, 0, default_config()) == options_from(views, at as int, config@),
        decreases length - at,
    {
        assert(views[at as int] == args@[at as int]@);
        if same_text(args[at].as_str(), "--help") {
            return Ok(None);
        }
        if length - at < 2 {
            return Err(join_text(args[at].as_str(), " needs a value", ""));
        }
        assert(views[at + 1] == args@[at + 1]@);
        match set_option(&mut config, args[at].as_str(), &args[at + 1]) {
            Err(message) => {
                return Err(message);
            },
            Ok(_) => {},
        }
        at = at + 2;
    }
    if config.connections == 0 || config.seconds == 0 || config.rows == 0 {
        return Err(String::from_str("connections, seconds, and rows must all be positive"));
    }
    Ok(Some(config))
}

/// The state after a state of a xorshift generator.
pub open spec fn random_after(state: u64) -> u64 {
    let first = state ^ (state << 13);
    let second = first ^ (first >> 7);
    second ^ (second << 17)
}

/// The state after a state.
pub fn next_random(state: u64) -> (next: u64)
    ensures
        next == random_after(state),
{
    let first: u64 = state ^ (state << 13);
    let second: u64 = first ^ (first >> 7);
    second ^ (second << 17)
}

/// A generator that is not stuck at zero never gets stuck there.
pub proof fn law_generator_does_not_stop(state: u64)
    requires
        state != 0,
    ensures
        random_after(state) != 0,
{
    assert(state != 0 ==> {
        let first = state ^ (state << 13);
        let second = first ^ (first >> 7);
        second ^ (second << 17)
    } != 0) by (bit_vector);
}

/// Where the generator of a worker starts.
pub open spec fn worker_start(worker: u64) -> u64 {
    0x9e37_79b9_7f4a_7c15u64 ^ (((worker + 1) as u64) << 17)
}

/// Where the generator of a worker starts.
pub fn worker_seed(worker: u64) -> (seed: u64)
    requires
        worker < u64::MAX,
    ensures
        seed == worker_start(worker),
{
    0x9e37_79b9_7f4a_7c15u64 ^ ((worker + 1) << 17)
}

/// A statement of the workload.
pub struct Operation {
    pub is_read: bool,
    pub sql: String,
}

/// Whether a state of the generator leads to a read.
pub open spec fn reads(state: u64, read_percent: u64) -> bool {
    state % 100 < read_percent
}

/// The statement that a state of the generator leads to.
pub open spec fn statement_for(state: u64, rows: u64, read_percent: u64) -> Seq<char> {
    if reads(state, read_percent) {
        "SELECT val FROM bench_kv WHERE id = "@ + text::decimal((state % rows) as nat)
    } else {
        "UPDATE bench_kv SET val = 'w"@ + text::decimal(state as nat) + "' WHERE id = "@
            + text::decimal((state % rows) as nat)
    }
}

/// The statement that a state of the generator leads to.
pub fn operation(state: u64, config: &Config) -> (made: Operation)
    requires
        config.rows > 0,
    ensures
        made.is_read == reads(state, config.read_percent),
        made.sql@ == statement_for(state, config.rows, config.read_percent),
{
    let id: u64 = state % config.rows;
    if state % 100 < config.read_percent {
        let mut sql = String::from_str("SELECT val FROM bench_kv WHERE id = ");
        push_decimal(&mut sql, id);
        Operation { is_read: true, sql }
    } else {
        let mut sql = String::from_str("UPDATE bench_kv SET val = 'w");
        push_decimal(&mut sql, state);
        sql.append("' WHERE id = ");
        push_decimal(&mut sql, id);
        Operation { is_read: false, sql }
    }
}

/// Where a batch of rows that starts at a row ends.
pub open spec fn batch_end(start: u64, rows: u64) -> int {
    if start + 500 < rows {
        start + 500
    } else {
        rows as int
    }
}

/// A row of the table before the run.
pub open spec fn seed_row(row: nat) -> Seq<char> {
    "("@ + text::decimal(row) + ", 'seed "@ + text::decimal(row) + "')"@
}

/// Rows of the table before the run, from one up to another.
pub open spec fn seed_rows(start: nat, end: nat) -> Seq<char>
    decreases end - start,
{
    if end <= start {
        Seq::empty()
    } else if end == start + 1 {
        seed_row(start)
    } else {
        seed_rows(start, (end - 1) as nat) + ", "@ + seed_row((end - 1) as nat)
    }
}

/// The statement that inserts a batch of rows.
pub open spec fn seed_statement(start: u64, rows: u64) -> Seq<char> {
    "INSERT INTO bench_kv (id, val) VALUES "@ + seed_rows(
        start as nat,
        batch_end(start, rows) as nat,
    )
}

/// The statement that inserts the batch of rows that starts at a row, and where the next batch starts.
pub fn seed_batch(start: u64, rows: u64) -> (batch: (String, u64))
    requires
        start < rows,
    ensures
        batch.0@ == seed_statement(start, rows),
        batch.1 == batch_end(start, rows),
        start < batch.1 <= rows,
{
    let end: u64 = if rows - start <= 500 {
        rows
    } else {
        start + 500
    };
    let mut sql = String::from_str("INSERT INTO bench_kv (id, val) VALUES ");
    let ghost head = sql@;
    let mut row: u64 = start;
    assert(sql@ =~= head + seed_rows(start as nat, row as nat));
    while row < end
        invariant
            start <= row <= end,
            sql@ == head + seed_rows(start as nat, row as nat),
        decreases end - row,
    {
        let ghost before = sql@;
        if row > start {
            sql.append(", ");
        }
        sql.append("(");
        push_decimal(&mut sql, row);
        sql.append(", 'seed ");
        push_decimal(&mut sql, row);
        sql.append("')");
        assert(sql@ =~= head + seed_rows(start as nat, (row + 1) as nat));
        row = row + 1;
    }
    (sql, end)
}

/// How a statement of the workload came out.
#[derive(Clone, Copy, Debug, PartialEq, Eq, Structural)]
pub enum Outcome {
    Done,
    Conflict,
    Failure,
}

/// How a statement came out, by the kind of the answer and, of an error, its code; nothing for an
/// answer of another kind.
pub open spec fn outcome_of(kind: Option<Seq<char>>, code: Option<Seq<char>>) -> Option<Outcome> {
    if kind == Some("executed"@) {
        Some(Outcome::Done)
    } else if kind == Some("error"@) {
        Some(
            if code == Some("transaction_error"@) {
                Outcome::Conflict
            } else {
                Outcome::Failure
            },
        )
    } else {
        None
    }
}

pub open spec fn optional_view(given: Option<String>) -> Option<Seq<char>> {
    match given {
        Some(given) => Some(given@),
        None => None,
    }
}

fn is_text(given: &Option<String>, wanted: &str) -> (yes: bool)
    ensures
        yes == (optional_view(*given) == Some(wanted@)),
{
    match given {
        Some(given) => same_text(given.as_str(), wanted),
        None => false,
    }
}

/// How a statement came out.
pub fn classify(kind: &Option<String>, code: &Option<String>) -> (outcome: Option<Outcome>)
    ensures
        outcome == outcome_of(optional_view(*kind), optional_view(*code)),
{
    if is_text(kind, "executed") {
        Some(Outcome::Done)
    } else if is_text(kind, "error") {
        if is_text(code, "transaction_error") {
            Some(Outcome::Conflict)
        } else {
            Some(Outcome::Failure)
        }
    } else {
        None
    }
}

/// The batches of rows before the run follow each other without a gap up to the last row, and none has
/// more than 500.
pub proof fn law_batches_cover_the_rows(start: u64, rows: u64)
    requires
        start < rows,
    ensures
        start < batch_end(start, rows) <= rows,
        batch_end(start, rows) - start <= 500,
        batch_end(start, rows) < rows ==> batch_end(start, rows) - start == 500,
{
}

/// A state of the generator leads to a read where its last two decimal digits are below the percentage:
/// never at none, and always at a hundred. The statement is about the row that the state names.
pub proof fn law_reads_follow_the_percentage(state: u64, read_percent: u64, rows: u64)
    requires
        rows > 0,
    ensures
        reads(state, read_percent) <==> state % 100 < read_percent,
        read_percent == 0 ==> !reads(state, read_percent),
        read_percent >= 100 ==> reads(state, read_percent),
        exists|front: Seq<char>| #[trigger]
            (front + text::decimal((state % rows) as nat)) == statement_for(
                state,
                rows,
                read_percent,
            ),
{
    let row = text::decimal((state % rows) as nat);
    let read = "SELECT val FROM bench_kv WHERE id = "@;
    let write = "UPDATE bench_kv SET val = 'w"@ + text::decimal(state as nat) + "' WHERE id = "@;
    if reads(state, read_percent) {
        assert(read + row == statement_for(state, rows, read_percent));
    } else {
        assert(write + row == statement_for(state, rows, read_percent));
    }
}

/// An option sets the one number that it names, a percentage only up to a hundred, and leaves the rest of
/// the configuration as it is.
pub proof fn law_options_set_their_number(config: ConfigView, number: nat)
    requires
        number <= u64::MAX,
    ensures
        with_option(config, "--connections"@, text::decimal(number)) == Ok::<
            ConfigView,
            Seq<char>,
        >(ConfigView { connections: number as u64, ..config }),
        with_option(config, "--seconds"@, text::decimal(number)) == Ok::<ConfigView, Seq<char>>(
            ConfigView { seconds: number as u64, ..config },
        ),
        with_option(config, "--rows"@, text::decimal(number)) == Ok::<ConfigView, Seq<char>>(
            ConfigView { rows: number as u64, ..config },
        ),
        number <= 100 ==> with_option(config, "--read-percent"@, text::decimal(number)) == Ok::<
            ConfigView,
            Seq<char>,
        >(ConfigView { read_percent: number as u64, ..config }),
        number > 100 ==> with_option(config, "--read-percent"@, text::decimal(number)) is Err,
{
    reveal_strlit("--address");
    reveal_strlit("--connections");
    reveal_strlit("--seconds");
    reveal_strlit("--read-percent");
    reveal_strlit("--rows");
    text::law_decimal_reads_back(number, u64::MAX as nat);
    assert("--address"@[2] == 'a');
    assert("--connections"@[2] == 'c');
    assert("--seconds"@[2] == 's');
    assert("--read-percent"@[2] == 'r' && "--read-percent"@[3] == 'e');
    assert("--rows"@[2] == 'r' && "--rows"@[3] == 'o');
}

} // verus!
