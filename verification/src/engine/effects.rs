//! What statements make later ones see.
use crate::engine::error::{EngineErrorView, StopView};
use crate::engine::float::FloatRequest;
use crate::engine::output::{OutputView, TransactionOutput};
use crate::engine::session;
use crate::engine::session::SessionView;
use crate::engine::statement;
use crate::engine::world;
use crate::mvcc::database::CommitResult;
use crate::mvcc::error::TransactionErrorView;
use crate::mvcc::history;
use crate::mvcc::history::DatabaseView;
use crate::mvcc::isolation;
use crate::mvcc::record::{Timestamp, TransactionId};
use crate::mvcc::state;
use crate::mvcc::state::{ActiveSnapshot, WriteView};
use crate::mvcc::transaction;
use crate::mvcc::transaction::TransactionView;
use crate::syntax::Statement;
use vstd::prelude::*;

verus! {

/// What a transaction that begins now sees.
pub open spec fn seen_now(db: DatabaseView) -> Map<Seq<u8>, Seq<u8>> {
    world::world(session::new_transaction(db), db)
}

/// A transaction that was committed left the database with its writes.
proof fn lemma_commit_seen(
    transaction: TransactionView,
    db: DatabaseView,
    db_after: DatabaseView,
    k: Seq<u8>,
)
    requires
        history::in_order(db),
        isolation::is_settled(db.state),
        transaction::runs_in(transaction, db.state),
        !transaction.finished,
        session::is_committed(transaction, db, db_after),
    ensures
        isolation::is_settled(db_after.state),
        world::found(seen_now(db_after), k) == (if transaction.writes.contains_key(k) {
            transaction.writes[k]
        } else {
            world::found(seen_now(db), k)
        }),
{
    let outcome = choose|outcome: Result<CommitResult, TransactionErrorView>|
        #[trigger] session::commits(transaction, db, db_after, outcome) && outcome is Ok;
    let mid = choose|mid: DatabaseView| #[trigger]
        transaction::committed(transaction, db, mid, outcome) && db_after == transaction::ended(
            mid,
            transaction.id,
        );
    let writes = choose|writes: Seq<WriteView>| #[trigger]
        transaction::is_write_list(transaction.writes, writes);
    isolation::law_commits_take_effect_at_once(
        transaction,
        db,
        mid,
        outcome->Ok_0,
        writes,
        k,
        db.state.visible,
    );
    let fresh = session::new_transaction(db_after);
    let before = session::new_transaction(db);
    assert(transaction::seen(fresh, db_after, k) == history::value_at(
        db_after.history,
        k,
        db_after.state.visible,
    ));
    assert(transaction::seen(before, db, k) == history::value_at(
        db.history,
        k,
        db.state.visible,
    ));
}

/// COMMIT gives every key that the transaction wrote its new value for all that begin from then on, and
/// leaves every other key as it is.
pub proof fn law_commit_shows_the_writes(
    floats: Map<FloatRequest, u64>,
    transaction: TransactionView,
    db: DatabaseView,
    after: SessionView,
    db_after: DatabaseView,
    output: OutputView,
    k: Seq<u8>,
)
    requires
        history::in_order(db),
        isolation::is_settled(db.state),
        transaction::runs_in(transaction, db.state),
        !transaction.finished,
        session::stepped(
            Statement::Commit,
            floats,
            SessionView::Active(transaction),
            db,
            after,
            db_after,
            Ok::<OutputView, StopView>(output),
        ),
    ensures
        after == SessionView::Idle,
        output == OutputView::Transaction(TransactionOutput::Committed),
        isolation::is_settled(db_after.state),
        world::found(seen_now(db_after), k) == (if transaction.writes.contains_key(k) {
            transaction.writes[k]
        } else {
            world::found(seen_now(db), k)
        }),
{
    lemma_commit_seen(transaction, db, db_after, k);
}

/// A statement outside a transaction does what it does to what was committed, and all that begin from then
/// on see it.
pub proof fn law_statements_alone_are_seen(
    statement: Statement,
    floats: Map<FloatRequest, u64>,
    db: DatabaseView,
    after: SessionView,
    db_after: DatabaseView,
    output: OutputView,
)
    requires
        history::in_order(db),
        isolation::is_settled(db.state),
        !(statement is BeginTransaction),
        !(statement is Commit),
        !(statement is Rollback),
        session::stepped(
            statement,
            floats,
            SessionView::Idle,
            db,
            after,
            db_after,
            Ok::<OutputView, StopView>(output),
        ),
    ensures
        after == SessionView::Idle,
        isolation::is_settled(db_after.state),
        statement::ran(statement, seen_now(db), floats, seen_now(db_after), output),
{
    let begun = session::begun(db);
    let first = session::new_transaction(db);
    let outcome = choose|outcome: Result<CommitResult, TransactionErrorView>|
        #[trigger] session::ran_alone(statement, db, db_after, floats, output, outcome)
            && outcome is Ok;
    let last = choose|last: TransactionView|
        #[trigger] session::advanced(statement, first, last, begun, floats, output)
            && session::commits(last, begun, db_after, outcome);
    let own = ActiveSnapshot {
        id: TransactionId(db.state.next_transaction_id),
        snapshot: Timestamp(db.state.visible),
    };
    history::law_begin_keeps_order(db, begun, own);
    assert(begun.state.active[db.state.active.len() as int] == own);
    assert(transaction::runs_in(last, begun.state));
    assert(session::is_committed(last, begun, db_after));
    assert forall|k: Seq<u8>| #[trigger]
        world::found(seen_now(db_after), k) == world::found(world::world(last, begun), k) by {
        lemma_commit_seen(last, begun, db_after, k);
        assert(transaction::seen(session::new_transaction(begun), begun, k) == history::value_at(
            begun.history,
            k,
            begun.state.visible,
        ));
    }
    lemma_commit_seen(last, begun, db_after, Seq::empty());
    lemma_same_world(seen_now(db_after), world::world(last, begun));
    assert forall|k: Seq<u8>| #[trigger]
        world::found(seen_now(db), k) == world::found(world::world(first, begun), k) by {
        assert(transaction::seen(first, begun, k) == transaction::seen(first, db, k));
    }
    lemma_same_world(seen_now(db), world::world(first, begun));
}

proof fn lemma_same_world(one: Map<Seq<u8>, Seq<u8>>, two: Map<Seq<u8>, Seq<u8>>)
    requires
        forall|k: Seq<u8>| #[trigger] world::found(one, k) == world::found(two, k),
    ensures
        one == two,
{
    assert forall|k: Seq<u8>| #[trigger] one.contains_key(k) <==> two.contains_key(k) by {
        assert(world::found(one, k) == world::found(two, k));
    }
    assert forall|k: Seq<u8>| one.contains_key(k) implies #[trigger] one[k] == two[k] by {
        assert(world::found(one, k) == world::found(two, k));
    }
    assert(one =~= two);
}

/// A statement that fails leaves every committed version as it is, and takes its transaction with it,
/// unless it only asks for results of float arithmetic.
pub proof fn law_failures_change_nothing(
    statement: Statement,
    floats: Map<FloatRequest, u64>,
    before: SessionView,
    db: DatabaseView,
    after: SessionView,
    db_after: DatabaseView,
    stop: StopView,
)
    requires
        session::stepped(
            statement,
            floats,
            before,
            db,
            after,
            db_after,
            Err::<OutputView, StopView>(stop),
        ),
    ensures
        db_after.history == db.history,
        stop == StopView::Needs ==> after == before,
        stop != StopView::Needs && before is Active && !(statement is BeginTransaction) && !(
        statement is Commit) ==> after == SessionView::Failed,
        before is Idle ==> after is Idle,
{
}

/// BEGIN opens a transaction that sees what is committed at that moment and has written nothing; it fails,
/// and changes nothing, where the session has a transaction already.
pub proof fn law_begin_takes_a_snapshot(
    floats: Map<FloatRequest, u64>,
    before: SessionView,
    db: DatabaseView,
    after: SessionView,
    db_after: DatabaseView,
    result: Result<OutputView, StopView>,
)
    requires
        session::stepped(
            Statement::BeginTransaction,
            floats,
            before,
            db,
            after,
            db_after,
            result,
        ),
    ensures
        before == SessionView::Idle && db.state.next_transaction_id < u64::MAX ==> {
            &&& result == Ok::<OutputView, StopView>(
                OutputView::Transaction(TransactionOutput::Begun),
            )
            &&& after matches SessionView::Active(transaction) && transaction.writes == Map::<
                Seq<u8>,
                Option<Seq<u8>>,
            >::empty() && world::world(transaction, db_after) == seen_now(db)
            &&& db_after.history == db.history
        },
        before != SessionView::Idle ==> {
            &&& result == Err::<OutputView, StopView>(
                StopView::Error(EngineErrorView::TransactionAlreadyActive),
            )
            &&& after == before
            &&& db_after == db
        },
{
    if before == SessionView::Idle && db.state.next_transaction_id < u64::MAX {
        let transaction = session::new_transaction(db);
        assert forall|k: Seq<u8>| #[trigger]
            transaction::seen(transaction, db_after, k) == transaction::seen(
                transaction,
                db,
                k,
            ) by {}
        assert(world::world(transaction, db_after) =~= seen_now(db));
    }
}

/// COMMIT and ROLLBACK fail, and change nothing, where the session has no transaction.
pub proof fn law_ends_need_a_transaction(
    statement: Statement,
    floats: Map<FloatRequest, u64>,
    db: DatabaseView,
    after: SessionView,
    db_after: DatabaseView,
    result: Result<OutputView, StopView>,
)
    requires
        statement is Commit || statement is Rollback,
        session::stepped(statement, floats, SessionView::Idle, db, after, db_after, result),
    ensures
        result == Err::<OutputView, StopView>(
            StopView::Error(EngineErrorView::NoActiveTransaction),
        ),
        after == SessionView::Idle,
        db_after == db,
{
}

/// A statement in a transaction works on what the transaction sees, at the snapshot that it began with, and
/// what it does the transaction sees from then on.
pub proof fn law_statements_build_on_each_other(
    statement: Statement,
    floats: Map<FloatRequest, u64>,
    transaction: TransactionView,
    db: DatabaseView,
    after: SessionView,
    db_after: DatabaseView,
    output: OutputView,
)
    requires
        !(statement is BeginTransaction),
        !(statement is Commit),
        !(statement is Rollback),
        session::stepped(
            statement,
            floats,
            SessionView::Active(transaction),
            db,
            after,
            db_after,
            Ok::<OutputView, StopView>(output),
        ),
    ensures
        db_after == db,
        after matches SessionView::Active(next) && next.id == transaction.id && next.snapshot
            == transaction.snapshot && statement::ran(
            statement,
            world::world(transaction, db),
            floats,
            world::world(next, db),
            output,
        ),
{
}

} // verus!
