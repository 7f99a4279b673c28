//! Sessions: statements one after the other, alone or within a transaction.
use crate::engine::error;
use crate::engine::error::{failed, EngineError, EngineErrorView, Stop, StopView};
use crate::engine::float::{FloatRequest, FloatTable};
use crate::engine::output;
use crate::engine::output::{
    OutputColumn,
    OutputColumnView,
    OutputView,
    StatementOutput,
    TransactionOutput,
};
use crate::engine::select;
use crate::engine::select::describe_query;
use crate::engine::statement;
use crate::engine::statement::execute_in_transaction;
use crate::engine::world;
use crate::mvcc::database;
use crate::mvcc::database::{CommitResult, MvccDatabase, MvccOptions};
use crate::mvcc::error::TransactionErrorView;
use crate::mvcc::history::DatabaseView;
use crate::mvcc::record::{Timestamp, TransactionId};
use crate::mvcc::state;
use crate::mvcc::state::{ActiveSnapshot, StateView};
use crate::mvcc::transaction;
use crate::mvcc::transaction::{Transaction, TransactionView};
use crate::syntax::{Select, Span, Statement};
use vstd::prelude::*;
use vstd::string::*;

verus! {

/// A database that statements run on.
pub struct DatabaseEngine {
    pub database: MvccDatabase,
}

/// Where a session stands.
#[derive(Clone, Copy, Debug, PartialEq, Eq, Structural)]
pub enum SessionStatus {
    Idle,
    InTransaction,
    Failed,
}

enum SessionState {
    Idle,
    Active(Transaction),
    Failed,
}

/// A client's statements: each alone in a transaction of its own, or several in one that is open.
pub struct SqlSession {
    state: SessionState,
}

#[verifier::ext_equal]
pub enum SessionView {
    Idle,
    Active(TransactionView),
    Failed,
}

impl View for SqlSession {
    type V = SessionView;

    closed spec fn view(&self) -> SessionView {
        match self.state {
            SessionState::Idle => SessionView::Idle,
            SessionState::Active(transaction) => SessionView::Active(transaction@),
            SessionState::Failed => SessionView::Failed,
        }
    }
}

/// The transaction that a database begins next.
pub open spec fn new_transaction(db: DatabaseView) -> TransactionView {
    TransactionView {
        id: db.state.next_transaction_id,
        snapshot: db.state.visible,
        writes: Map::empty(),
        scanned: Seq::empty(),
        range_protected: false,
        finished: false,
    }
}

/// The database with that transaction begun.
pub open spec fn begun(db: DatabaseView) -> DatabaseView {
    DatabaseView {
        state: StateView {
            next_transaction_id: (db.state.next_transaction_id + 1) as u64,
            active: db.state.active.push(
                ActiveSnapshot {
                    id: TransactionId(db.state.next_transaction_id),
                    snapshot: Timestamp(db.state.visible),
                },
            ),
            ..db.state
        },
        ..db
    }
}

pub open spec fn no_transaction() -> StopView {
    StopView::Error(EngineErrorView::NoActiveTransaction)
}

pub open spec fn aborted() -> StopView {
    StopView::Error(EngineErrorView::TransactionAborted)
}

pub open spec fn exhausted() -> StopView {
    StopView::Error(EngineErrorView::Transaction(TransactionErrorView::TransactionIdExhausted))
}

/// Why a statement did not run in a transaction.
pub open spec fn stopped_by(
    statement: Statement,
    transaction: TransactionView,
    db: DatabaseView,
    floats: Map<FloatRequest, u64>,
    stop: StopView,
) -> bool {
    ||| world::scan_failed(db, stop)
    ||| statement::refused(statement, world::world(transaction, db), floats) == Some(stop)
}

/// Whether a transaction comes from another by running a statement.
pub open spec fn advanced(
    statement: Statement,
    before: TransactionView,
    after: TransactionView,
    db: DatabaseView,
    floats: Map<FloatRequest, u64>,
    output: OutputView,
) -> bool {
    world::continues(before, after) && statement::ran(
        statement,
        world::world(before, db),
        floats,
        world::world(after, db),
        output,
    )
}

/// What BEGIN does.
pub open spec fn begins(
    before: SessionView,
    db: DatabaseView,
    after: SessionView,
    db_after: DatabaseView,
    result: Result<OutputView, StopView>,
) -> bool {
    if before != SessionView::Idle {
        result == Err::<OutputView, StopView>(
            StopView::Error(EngineErrorView::TransactionAlreadyActive),
        ) && after == before && db_after == db
    } else if db.state.next_transaction_id == u64::MAX {
        result == Err::<OutputView, StopView>(exhausted()) && after == before && db_after == db
    } else {
        &&& result == Ok::<OutputView, StopView>(OutputView::Transaction(TransactionOutput::Begun))
        &&& after == SessionView::Active(new_transaction(db))
        &&& db_after == begun(db)
    }
}

/// Whether a commit of a transaction had an outcome and left the database so.
pub open spec fn commits(
    transaction: TransactionView,
    db: DatabaseView,
    db_after: DatabaseView,
    outcome: Result<CommitResult, TransactionErrorView>,
) -> bool {
    exists|mid: DatabaseView| #[trigger]
        transaction::committed(transaction, db, mid, outcome) && db_after == transaction::ended(
            mid,
            transaction.id,
        )
}

/// Whether a transaction was committed and the database left so.
pub open spec fn is_committed(
    transaction: TransactionView,
    db: DatabaseView,
    db_after: DatabaseView,
) -> bool {
    exists|outcome: Result<CommitResult, TransactionErrorView>|
        #[trigger] commits(transaction, db, db_after, outcome) && outcome is Ok
}

/// What COMMIT does.
pub open spec fn finishes(
    before: SessionView,
    db: DatabaseView,
    after: SessionView,
    db_after: DatabaseView,
    result: Result<OutputView, StopView>,
) -> bool {
    match before {
        SessionView::Idle => result == Err::<OutputView, StopView>(no_transaction()) && after
            == before && db_after == db,
        SessionView::Failed => result == Err::<OutputView, StopView>(aborted()) && after == before
            && db_after == db,
        SessionView::Active(transaction) => after == SessionView::Idle && match result {
            Ok(output) => output == OutputView::Transaction(TransactionOutput::Committed)
                && is_committed(transaction, db, db_after),
            Err(StopView::Error(EngineErrorView::Transaction(error))) => commits(
                transaction,
                db,
                db_after,
                Err(error),
            ),
            _ => false,
        },
    }
}

/// What ROLLBACK does.
pub open spec fn gives_up(
    before: SessionView,
    db: DatabaseView,
    after: SessionView,
    db_after: DatabaseView,
    result: Result<OutputView, StopView>,
) -> bool {
    match before {
        SessionView::Idle => result == Err::<OutputView, StopView>(no_transaction()) && after
            == before && db_after == db,
        SessionView::Failed => result == Ok::<OutputView, StopView>(
            OutputView::Transaction(TransactionOutput::RolledBack),
        ) && after == SessionView::Idle && db_after == db,
        SessionView::Active(transaction) => result == Ok::<OutputView, StopView>(
            OutputView::Transaction(TransactionOutput::RolledBack),
        ) && after == SessionView::Idle && db_after == transaction::ended(db, transaction.id),
    }
}

/// Whether a statement ran in a transaction of its own that was then committed with an outcome.
pub open spec fn ran_alone(
    statement: Statement,
    db: DatabaseView,
    db_after: DatabaseView,
    floats: Map<FloatRequest, u64>,
    output: OutputView,
    outcome: Result<CommitResult, TransactionErrorView>,
) -> bool {
    exists|last: TransactionView|
        #[trigger] advanced(
            statement,
            new_transaction(db),
            last,
            begun(db),
            floats,
            output,
        ) && commits(last, begun(db), db_after, outcome)
}

/// What any other statement does.
pub open spec fn works(
    statement: Statement,
    floats: Map<FloatRequest, u64>,
    before: SessionView,
    db: DatabaseView,
    after: SessionView,
    db_after: DatabaseView,
    result: Result<OutputView, StopView>,
) -> bool {
    match before {
        SessionView::Failed => result == Err::<OutputView, StopView>(aborted()) && after == before
            && db_after == db,
        SessionView::Idle => after == before && if db.state.next_transaction_id == u64::MAX {
            result == Err::<OutputView, StopView>(exhausted()) && db_after == db
        } else {
            match result {
                Ok(output) => exists|outcome: Result<CommitResult, TransactionErrorView>|
                    #[trigger] ran_alone(statement, db, db_after, floats, output, outcome)
                        && outcome is Ok,
                Err(stop) => {
                    ||| stopped_by(statement, new_transaction(db), begun(db), floats, stop)
                        && db_after == transaction::ended(begun(db), new_transaction(db).id)
                    ||| exists|output: OutputView, error: TransactionErrorView|
                        #[trigger] ran_alone(
                            statement,
                            db,
                            db_after,
                            floats,
                            output,
                            Err(error),
                        ) && stop == StopView::Error(EngineErrorView::Transaction(error))
                },
            }
        },
        SessionView::Active(transaction) => match result {
            Ok(output) => db_after == db && (after matches SessionView::Active(last) && advanced(
                statement,
                transaction,
                last,
                db,
                floats,
                output,
            )),
            Err(StopView::Needs) => after == before && db_after == db && stopped_by(
                statement,
                transaction,
                db,
                floats,
                StopView::Needs,
            ),
            Err(stop) => after == SessionView::Failed && db_after == transaction::ended(
                db,
                transaction.id,
            ) && stopped_by(statement, transaction, db, floats, stop),
        },
    }
}

/// What a statement does to a session and its database.
pub open spec fn stepped(
    statement: Statement,
    floats: Map<FloatRequest, u64>,
    before: SessionView,
    db: DatabaseView,
    after: SessionView,
    db_after: DatabaseView,
    result: Result<OutputView, StopView>,
) -> bool {
    match statement {
        Statement::BeginTransaction => begins(before, db, after, db_after, result),
        Statement::Commit => finishes(before, db, after, db_after, result),
        Statement::Rollback => gives_up(before, db, after, db_after, result),
        _ => works(statement, floats, before, db, after, db_after, result),
    }
}

pub open spec fn result_view(result: Result<StatementOutput, Stop>) -> Result<OutputView, StopView> {
    match result {
        Ok(output) => Ok(output@),
        Err(stop) => Err(stop@),
    }
}

/// The number of the transaction that a session's next statement runs in.
pub open spec fn own_id(session: SessionView, db: DatabaseView) -> u64 {
    match session {
        SessionView::Active(transaction) => transaction.id,
        _ => db.state.next_transaction_id,
    }
}

proof fn lemma_still_running(active: Seq<ActiveSnapshot>, id: u64, i: int) -> (at: int)
    requires
        0 <= i < active.len(),
        active[i].id.0 != id,
    ensures
        0 <= at < state::active_without(active, id).len(),
        state::active_without(active, id)[at] == active[i],
    decreases active.len(),
{
    let rest = state::active_without(active.drop_last(), id);
    if i == active.len() - 1 {
        rest.len() as int
    } else {
        lemma_still_running(active.drop_last(), id, i)
    }
}

proof fn lemma_runs_on(other: TransactionView, before: StateView, after: StateView, id: u64)
    requires
        transaction::runs_in(other, before),
        other.id != id,
        after.active == before.active || after.active == state::active_without(before.active, id)
            || (before.active.len() < after.active.len() && after.active.take(
            before.active.len() as int,
        ) == before.active),
    ensures
        transaction::runs_in(other, after),
{
    if !other.finished {
        let i = choose|i: int|
            0 <= i < before.active.len() && (#[trigger] before.active[i]).id.0 == other.id
                && before.active[i].snapshot.0 == other.snapshot;
        if after.active == before.active {
            assert(after.active[i].id.0 == other.id);
        } else if after.active == state::active_without(before.active, id) {
            let at = lemma_still_running(before.active, id, i);
            assert(after.active[at].id.0 == other.id);
        } else {
            assert(after.active.take(before.active.len() as int)[i] == before.active[i]);
            assert(after.active[i].id.0 == other.id);
        }
    }
}

/// The transactions of other sessions keep running, whatever a session does.
pub proof fn law_other_transactions_keep_running(
    statement: Statement,
    floats: Map<FloatRequest, u64>,
    before: SessionView,
    db: DatabaseView,
    after: SessionView,
    db_after: DatabaseView,
    result: Result<OutputView, StopView>,
    other: TransactionView,
)
    requires
        stepped(statement, floats, before, db, after, db_after, result),
        transaction::runs_in(other, db.state),
        other.id != own_id(before, db),
    ensures
        transaction::runs_in(other, db_after.state),
{
    let id = own_id(before, db);
    match before {
        SessionView::Active(own) => {
            if db_after.state.active != db.state.active {
                assert(db_after.state.active == state::active_without(db.state.active, id));
            }
            lemma_runs_on(other, db.state, db_after.state, id);
        },
        SessionView::Failed => {
            lemma_runs_on(other, db.state, db_after.state, id);
        },
        SessionView::Idle => {
            let started = begun(db);
            assert(started.state.active.take(db.state.active.len() as int) =~= db.state.active);
            if db_after == db {
            } else if db_after == started {
                lemma_runs_on(other, db.state, db_after.state, id);
            } else {
                lemma_runs_on(other, db.state, started.state, id);
                assert(db_after.state.active == state::active_without(started.state.active, id)) by {
                    match result {
                        Ok(output) => {
                            let outcome = choose|
                                outcome: Result<CommitResult, TransactionErrorView>,
                            |
                                #[trigger] ran_alone(
                                    statement,
                                    db,
                                    db_after,
                                    floats,
                                    output,
                                    outcome,
                                ) && outcome is Ok;
                            lemma_alone_ends(statement, db, db_after, floats, output, outcome);
                        },
                        Err(stop) => {
                            if !(stopped_by(
                                statement,
                                new_transaction(db),
                                started,
                                floats,
                                stop,
                            ) && db_after == transaction::ended(started, new_transaction(db).id)) {
                                let (output, error) = choose|
                                    output: OutputView,
                                    error: TransactionErrorView,
                                |
                                    #[trigger] ran_alone(
                                        statement,
                                        db,
                                        db_after,
                                        floats,
                                        output,
                                        Err(error),
                                    ) && stop == StopView::Error(
                                        EngineErrorView::Transaction(error),
                                    );
                                lemma_alone_ends(
                                    statement,
                                    db,
                                    db_after,
                                    floats,
                                    output,
                                    Err(error),
                                );
                            }
                        },
                    }
                }
                lemma_runs_on(other, started.state, db_after.state, id);
            }
        },
    }
}

proof fn lemma_alone_ends(
    statement: Statement,
    db: DatabaseView,
    db_after: DatabaseView,
    floats: Map<FloatRequest, u64>,
    output: OutputView,
    outcome: Result<CommitResult, TransactionErrorView>,
)
    requires
        ran_alone(statement, db, db_after, floats, output, outcome),
    ensures
        db_after.state.active == state::active_without(
            begun(db).state.active,
            db.state.next_transaction_id,
        ),
{
    let last = choose|last: TransactionView|
        #[trigger] advanced(
            statement,
            new_transaction(db),
            last,
            begun(db),
            floats,
            output,
        ) && commits(last, begun(db), db_after, outcome);
    let mid = choose|mid: DatabaseView| #[trigger]
        transaction::committed(last, begun(db), mid, outcome) && db_after == transaction::ended(
            mid,
            last.id,
        );
}

/// A failed transaction takes no statement but ROLLBACK, and ROLLBACK always ends it.
pub proof fn law_failed_until_rollback(
    statement: Statement,
    floats: Map<FloatRequest, u64>,
    db: DatabaseView,
    after: SessionView,
    db_after: DatabaseView,
    result: Result<OutputView, StopView>,
)
    requires
        stepped(statement, floats, SessionView::Failed, db, after, db_after, result),
    ensures
        db_after == db,
        statement == Statement::Rollback ==> result is Ok && after == SessionView::Idle,
        statement != Statement::Rollback ==> result is Err && after == SessionView::Failed,
        statement != Statement::Rollback && statement != Statement::BeginTransaction ==> result
            == Err::<OutputView, StopView>(aborted()),
{
}

/// ROLLBACK leaves the stored versions as they are: what the transaction wrote is gone.
pub proof fn law_rollback_discards(
    floats: Map<FloatRequest, u64>,
    before: SessionView,
    db: DatabaseView,
    after: SessionView,
    db_after: DatabaseView,
    result: Result<OutputView, StopView>,
)
    requires
        stepped(Statement::Rollback, floats, before, db, after, db_after, result),
    ensures
        db_after.history == db.history,
        db_after.store == db.store,
        db_after.state.versions == db.state.versions,
        db_after.state.visible == db.state.visible,
{
}

/// Statements within an open transaction leave the database as it is.
pub proof fn law_open_transactions_are_private(
    statement: Statement,
    floats: Map<FloatRequest, u64>,
    before: SessionView,
    db: DatabaseView,
    after: SessionView,
    db_after: DatabaseView,
    result: Result<OutputView, StopView>,
)
    requires
        stepped(statement, floats, before, db, after, db_after, result),
        before is Active,
        after is Active,
    ensures
        db_after == db,
{
}

/// Whether a result is the columns of a query over what is seen, or why it has none.
pub open spec fn shows_columns(
    columns: Result<Vec<OutputColumn>, EngineError>,
    query: Select,
    world: Map<Seq<u8>, Seq<u8>>,
) -> bool {
    match columns {
        Ok(columns) => select::described(query, world) == Ok::<Seq<OutputColumnView>, StopView>(
            output::output_columns(columns@),
        ),
        Err(error) => select::described(query, world) == Err::<Seq<OutputColumnView>, StopView>(
            StopView::Error(error@),
        ),
    }
}

impl DatabaseEngine {
    /// Opens the database that is stored in a page file and its log.
    pub fn open(file: &[u8], log: &[u8], options: MvccOptions) -> (result: Result<
        DatabaseEngine,
        EngineError,
    >)
        ensures
            match result {
                Ok(engine) => engine.database.wf() && database::is_open_result(
                    file@,
                    log@,
                    options,
                    Ok(engine.database@),
                ),
                Err(error) => error@ matches EngineErrorView::Transaction(cause)
                    && database::is_open_result(file@, log@, options, Err(cause)),
            },
    {
        match MvccDatabase::open(file, log, options) {
            Ok(database) => Ok(DatabaseEngine { database }),
            Err(error) => Err(EngineError::Transaction(error)),
        }
    }

    /// A new session.
    pub fn session(&self) -> (session: SqlSession)
        ensures
            session@ == SessionView::Idle,
            session.attached(&self.database) || !self.database.wf(),
    {
        SqlSession { state: SessionState::Idle }
    }
}

impl SqlSession {
    /// Whether the session's transaction, if it has one, runs on a database.
    pub closed spec fn attached(&self, db: &MvccDatabase) -> bool {
        &&& db.wf()
        &&& self.state matches SessionState::Active(transaction) ==> world::live(&transaction, db)
    }

    /// Where the session stands.
    pub fn transaction_status(&self) -> (status: SessionStatus)
        ensures
            match self@ {
                SessionView::Idle => status == SessionStatus::Idle,
                SessionView::Active(_) => status == SessionStatus::InTransaction,
                SessionView::Failed => status == SessionStatus::Failed,
            },
    {
        match &self.state {
            SessionState::Idle => SessionStatus::Idle,
            SessionState::Active(_) => SessionStatus::InTransaction,
            SessionState::Failed => SessionStatus::Failed,
        }
    }

    fn take_state(&mut self) -> (state: SessionState)
        ensures
            state == old(self).state,
            final(self).state == SessionState::Idle,
    {
        let mut state = SessionState::Idle;
        std::mem::swap(&mut state, &mut self.state);
        state
    }

    fn begin(&mut self, db: &mut MvccDatabase) -> (result: Result<StatementOutput, Stop>)
        requires
            old(self).attached(old(db)),
        ensures
            final(self).attached(final(db)),
            begins(old(self)@, old(db)@, final(self)@, final(db)@, result_view(result)),
            !(result matches Err(stop) && stop is Needs),
    {
        match &self.state {
            SessionState::Idle => {},
            _ => {
                return Err(Stop::Error(EngineError::TransactionAlreadyActive));
            },
        }
        match db.begin() {
            Err(error) => Err(failed(error)),
            Ok(transaction) => {
                self.state = SessionState::Active(transaction);
                Ok(StatementOutput::Transaction(TransactionOutput::Begun))
            },
        }
    }

    fn commit(&mut self, db: &mut MvccDatabase) -> (result: Result<StatementOutput, Stop>)
        requires
            old(self).attached(old(db)),
        ensures
            final(self).attached(final(db)),
            finishes(old(self)@, old(db)@, final(self)@, final(db)@, result_view(result)),
            !(result matches Err(stop) && stop is Needs),
    {
        let ghost before = db@;
        match self.take_state() {
            SessionState::Idle => Err(Stop::Error(EngineError::NoActiveTransaction)),
            SessionState::Failed => {
                self.state = SessionState::Failed;
                Err(Stop::Error(EngineError::TransactionAborted))
            },
            SessionState::Active(transaction) => {
                let ghost view = transaction@;
                assert(old(self)@ == SessionView::Active(view));
                match transaction.commit(db) {
                    Ok(done) => {
                        let ghost outcome: Result<CommitResult, TransactionErrorView> = Ok(done);
                        proof {
                            assert(commits(view, before, db@, outcome) && outcome is Ok);
                            assert(is_committed(view, before, db@));
                        }
                        Ok(StatementOutput::Transaction(TransactionOutput::Committed))
                    },
                    Err(error) => {
                        assert(commits(view, before, db@, Err(error@)));
                        Err(failed(error))
                    },
                }
            },
        }
    }

    fn rollback(&mut self, db: &mut MvccDatabase) -> (result: Result<StatementOutput, Stop>)
        requires
            old(self).attached(old(db)),
        ensures
            final(self).attached(final(db)),
            gives_up(old(self)@, old(db)@, final(self)@, final(db)@, result_view(result)),
            !(result matches Err(stop) && stop is Needs),
    {
        match self.take_state() {
            SessionState::Idle => {
                return Err(Stop::Error(EngineError::NoActiveTransaction));
            },
            SessionState::Failed => {},
            SessionState::Active(transaction) => {
                match transaction.rollback(db) {
                    Ok(_) => {},
                    Err(error) => {
                        return Err(failed(error));
                    },
                }
            },
        }
        Ok(StatementOutput::Transaction(TransactionOutput::RolledBack))
    }

    /// Runs a statement in a transaction of its own.
    fn execute_alone(&mut self, db: &mut MvccDatabase, statement: &Statement, floats: &FloatTable) -> (result:
        Result<StatementOutput, Stop>)
        requires
            old(self).attached(old(db)),
            old(self)@ == SessionView::Idle,
            floats.wf(),
        ensures
            final(self).attached(final(db)),
            works(
                *statement,
                floats@,
                old(self)@,
                old(db)@,
                final(self)@,
                final(db)@,
                result_view(result),
            ),
            result matches Err(stop) ==> error::asks_anew(stop, floats@),
    {
        let ghost before = db@;
        let mut transaction = match db.begin() {
            Err(error) => {
                return Err(failed(error));
            },
            Ok(transaction) => transaction,
        };
        let ghost started = db@;
        proof {
            assert(transaction@ == new_transaction(before));
            assert(started == begun(before));
        }
        match execute_in_transaction(&mut transaction, db, statement, floats) {
            Err(stop) => {
                let done = transaction.rollback(db);
                assert(stopped_by(
                    *statement,
                    new_transaction(before),
                    started,
                    floats@,
                    stop@,
                ));
                Err(stop)
            },
            Ok(output) => {
                let ghost last = transaction@;
                assert(advanced(
                    *statement,
                    new_transaction(before),
                    last,
                    started,
                    floats@,
                    output@,
                ));
                match transaction.commit(db) {
                    Ok(done) => {
                        assert(commits(last, started, db@, Ok(done)));
                        assert(ran_alone(
                            *statement,
                            before,
                            db@,
                            floats@,
                            output@,
                            Ok(done),
                        ));
                        Ok(output)
                    },
                    Err(error) => {
                        assert(commits(last, started, db@, Err(error@)));
                        assert(ran_alone(
                            *statement,
                            before,
                            db@,
                            floats@,
                            output@,
                            Err(error@),
                        ));
                        Err(failed(error))
                    },
                }
            },
        }
    }

    fn execute_data_statement(
        &mut self,
        db: &mut MvccDatabase,
        statement: &Statement,
        floats: &FloatTable,
    ) -> (result: Result<StatementOutput, Stop>)
        requires
            old(self).attached(old(db)),
            floats.wf(),
        ensures
            final(self).attached(final(db)),
            works(
                *statement,
                floats@,
                old(self)@,
                old(db)@,
                final(self)@,
                final(db)@,
                result_view(result),
            ),
            result matches Err(stop) ==> error::asks_anew(stop, floats@),
    {
        match self.take_state() {
            SessionState::Idle => self.execute_alone(db, statement, floats),
            SessionState::Failed => {
                self.state = SessionState::Failed;
                Err(Stop::Error(EngineError::TransactionAborted))
            },
            SessionState::Active(transaction) => {
                let mut tried = transaction.duplicate();
                match execute_in_transaction(&mut tried, db, statement, floats) {
                    Ok(output) => {
                        self.state = SessionState::Active(tried);
                        Ok(output)
                    },
                    Err(Stop::Needs(wanted)) => {
                        self.state = SessionState::Active(transaction);
                        Err(Stop::Needs(wanted))
                    },
                    Err(stop) => {
                        let done = transaction.rollback(db);
                        self.state = SessionState::Failed;
                        Err(stop)
                    },
                }
            },
        }
    }

    /// Runs a statement. Where results of float operations are wanted first, nothing has happened
    /// to the session's transaction, and the statement can be run again once they are known.
    pub fn execute_statement(
        &mut self,
        db: &mut MvccDatabase,
        statement: &Statement,
        floats: &FloatTable,
    ) -> (result: Result<StatementOutput, Stop>)
        requires
            old(self).attached(old(db)),
            floats.wf(),
        ensures
            final(self).attached(final(db)),
            stepped(
                *statement,
                floats@,
                old(self)@,
                old(db)@,
                final(self)@,
                final(db)@,
                result_view(result),
            ),
            result matches Err(stop) ==> error::asks_anew(stop, floats@),
    {
        match statement {
            Statement::BeginTransaction => self.begin(db),
            Statement::Commit => self.commit(db),
            Statement::Rollback => self.rollback(db),
            _ => self.execute_data_statement(db, statement, floats),
        }
    }

    /// Runs statements in order, from the first that has no output yet, until one fails.
    pub fn execute(
        &mut self,
        db: &mut MvccDatabase,
        statements: &Vec<Statement>,
        outputs: &mut Vec<StatementOutput>,
        floats: &FloatTable,
    ) -> (result: Result<(), Stop>)
        requires
            old(self).attached(old(db)),
            old(outputs)@.len() <= statements@.len(),
            floats.wf(),
        ensures
            final(self).attached(final(db)),
            old(outputs)@.len() <= final(outputs)@.len() <= statements@.len(),
            final(outputs)@.take(old(outputs)@.len() as int) == old(outputs)@,
            result matches Err(stop) ==> error::asks_anew(stop, floats@),
            exists|moments: Seq<Moment>|
                #[trigger] is_course(
                    statements@,
                    floats@,
                    moments,
                    final(outputs)@,
                    old(outputs)@.len() as int,
                ) && moments.first() == (Moment { session: old(self)@, db: old(db)@ })
                    && match result {
                    Ok(_) => final(outputs)@.len() == statements@.len() && moments.last() == (
                    Moment { session: final(self)@, db: final(db)@ }),
                    Err(stop) => final(outputs)@.len() < statements@.len() && stepped(
                        statements@[final(outputs)@.len() as int],
                        floats@,
                        moments.last().session,
                        moments.last().db,
                        final(self)@,
                        final(db)@,
                        Err(stop@),
                    ),
                },
    {
        let ghost from = outputs@.len() as int;
        let ghost mut moments: Seq<Moment> = seq![Moment { session: self@, db: db@ }];
        assert(outputs@.take(from) =~= outputs@);
        while outputs.len() < statements.len()
            invariant
                self.attached(db),
                floats.wf(),
                from == old(outputs)@.len(),
                from <= outputs@.len() <= statements@.len(),
                outputs@.take(from) == old(outputs)@,
                is_course(statements@, floats@, moments, outputs@, from),
                moments.first() == (Moment { session: old(self)@, db: old(db)@ }),
                moments.last() == (Moment { session: self@, db: db@ }),
            decreases statements@.len() - outputs@.len(),
        {
            let ghost earlier = moments;
            let ghost before = outputs@;
            match self.execute_statement(db, &statements[outputs.len()], floats) {
                Err(stop) => {
                    return Err(stop);
                },
                Ok(output) => {
                    outputs.push(output);
                    proof {
                        moments = moments.push(Moment { session: self@, db: db@ });
                        assert(outputs@.take(from) =~= before.take(from));
                        assert forall|i: int| 0 <= i < moments.len() - 1 implies stepped(
                            statements@[from + i],
                            floats@,
                            (#[trigger] moments[i]).session,
                            moments[i].db,
                            moments[i + 1].session,
                            moments[i + 1].db,
                            Ok(outputs@[from + i]@),
                        ) by {
                            if i < earlier.len() - 1 {
                                assert(earlier[i] == moments[i]);
                                assert(earlier[i + 1] == moments[i + 1]);
                                assert(outputs@[from + i] == before[from + i]);
                            }
                        }
                    }
                },
            }
        }
        Ok(())
    }

    /// The columns that a query would have, without running it. A session without a transaction
    /// looks at what is visible now.
    pub fn describe(&mut self, db: &mut MvccDatabase, query: &Select) -> (columns: Result<
        Vec<OutputColumn>,
        EngineError,
    >)
        requires
            old(self).attached(old(db)),
        ensures
            final(self).attached(final(db)),
            final(self)@ == old(self)@,
            match old(self)@ {
                SessionView::Failed => final(db)@ == old(db)@ && (columns matches Err(error)
                    && error@ == EngineErrorView::TransactionAborted),
                SessionView::Active(transaction) => final(db)@ == old(db)@ && shows_columns(
                    columns,
                    *query,
                    world::world(transaction, old(db)@),
                ),
                SessionView::Idle => if old(db)@.state.next_transaction_id == u64::MAX {
                    final(db)@ == old(db)@ && (columns matches Err(error) && StopView::Error(error@)
                        == exhausted())
                } else {
                    final(db)@ == transaction::ended(
                        begun(old(db)@),
                        new_transaction(old(db)@).id,
                    ) && shows_columns(
                        columns,
                        *query,
                        world::world(new_transaction(old(db)@), begun(old(db)@)),
                    )
                },
            },
    {
        match &self.state {
            SessionState::Failed => Err(EngineError::TransactionAborted),
            SessionState::Active(transaction) => describe_query(transaction, db, query),
            SessionState::Idle => {
                let transaction = match db.begin() {
                    Err(error) => {
                        return Err(EngineError::Transaction(error));
                    },
                    Ok(transaction) => transaction,
                };
                let columns = describe_query(&transaction, db, query);
                let done = transaction.rollback(db);
                columns
            },
        }
    }

    /// What a text that is no SQL does to the session: an open transaction has failed.
    pub fn fail_syntax(&mut self, db: &mut MvccDatabase, message: String, span: Span) -> (error:
        EngineError)
        requires
            old(self).attached(old(db)),
        ensures
            final(self).attached(final(db)),
            error@ == (EngineErrorView::Syntax { message: message@, span }),
            match old(self)@ {
                SessionView::Active(transaction) => final(self)@ == SessionView::Failed
                    && final(db)@ == transaction::ended(old(db)@, transaction.id),
                _ => final(self)@ == old(self)@ && final(db)@ == old(db)@,
            },
    {
        match self.take_state() {
            SessionState::Active(transaction) => {
                let done = transaction.rollback(db);
                self.state = SessionState::Failed;
            },
            other => {
                self.state = other;
            },
        }
        EngineError::Syntax { message, span }
    }

    /// Ends the session: an open transaction is given up.
    pub fn close(self, db: &mut MvccDatabase)
        requires
            self.attached(old(db)),
        ensures
            final(db).wf(),
            match self@ {
                SessionView::Active(transaction) => final(db)@ == transaction::ended(
                    old(db)@,
                    transaction.id,
                ),
                _ => final(db)@ == old(db)@,
            },
    {
        if let SessionState::Active(transaction) = self.state {
            let done = transaction.rollback(db);
        }
    }
}

/// A session and its database between two statements.
#[verifier::ext_equal]
pub struct Moment {
    pub session: SessionView,
    pub db: DatabaseView,
}

/// Whether moments follow each other by the statements from one on, with their outputs.
pub open spec fn is_course(
    statements: Seq<Statement>,
    floats: Map<FloatRequest, u64>,
    moments: Seq<Moment>,
    outputs: Seq<StatementOutput>,
    from: int,
) -> bool {
    &&& moments.len() == outputs.len() - from + 1
    &&& forall|i: int|
        0 <= i < moments.len() - 1 ==> stepped(
            statements[from + i],
            floats,
            (#[trigger] moments[i]).session,
            moments[i].db,
            moments[i + 1].session,
            moments[i + 1].db,
            Ok(outputs[from + i]@),
        )
}

} // verus!
