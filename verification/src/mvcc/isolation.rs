//! When transactions stand in each other's way, and what a commit makes others see.
use crate::index::key;
use crate::mvcc::database;
use crate::mvcc::database::CommitResult;
use crate::mvcc::error::TransactionErrorView;
use crate::mvcc::history;
use crate::mvcc::history::DatabaseView;
use crate::mvcc::key_map;
use crate::mvcc::prefix;
use crate::mvcc::record::Timestamp;
use crate::mvcc::state;
use crate::mvcc::state::{StateView, VersionView, WriteView};
use crate::mvcc::transaction;
use crate::mvcc::transaction::TransactionView;
use vstd::prelude::*;

verus! {

/// Whether the first bytes of a key are those of another.
pub open spec fn begins_with(k: Seq<u8>, p: Seq<u8>) -> bool {
    p.len() <= k.len() && forall|i: int| 0 <= i < p.len() ==> #[trigger] k[i] == p[i]
}

/// A key is under a prefix where its first bytes are the prefix.
pub proof fn law_prefixes_are_first_bytes(k: Seq<u8>, p: Seq<u8>)
    ensures
        prefix::starts_with(k, p) <==> begins_with(k, p),
{
    if prefix::starts_with(k, p) {
        assert forall|i: int| 0 <= i < p.len() implies #[trigger] k[i] == p[i] by {
            assert(k.subrange(0, p.len() as int)[i] == k[i]);
        }
    }
    if begins_with(k, p) {
        assert(k.subrange(0, p.len() as int) =~= p);
    }
}

/// Whether another transaction changed a key since a snapshot, or is about to.
pub open spec fn is_touched(db: DatabaseView, id: u64, snapshot: u64, k: Seq<u8>) -> bool {
    ||| exists|at: int|
        0 <= at < state::versions_of(db.history, k).len() && (#[trigger] state::versions_of(
            db.history,
            k,
        )[at]).timestamp > snapshot
    ||| db.state.intents.contains_key(k) && db.state.intents[k] != id
}

/// What stands against writing a key is that another transaction changed it since the snapshot or is
/// about to, and nothing else.
pub proof fn law_key_conflicts_have_a_reason(
    db: DatabaseView,
    id: u64,
    snapshot: u64,
    k: Seq<u8>,
)
    requires
        history::in_order(db),
        db.state.oldest() <= snapshot,
    ensures
        state::key_conflicts(db.state, id, snapshot, k) <==> is_touched(db, id, snapshot, k),
{
    let past = state::versions_of(db.history, k);
    let now = state::versions_of(db.state.versions, k);
    assert(history::key_kept(db, k));
    if now.len() > 0 && now.last().timestamp > snapshot {
        assert(now[now.len() - 1] == past[past.len() - 1]);
        assert(past[past.len() - 1].timestamp > snapshot);
    }
    if exists|at: int| 0 <= at < past.len() && (#[trigger] past[at]).timestamp > snapshot {
        let at = choose|at: int| 0 <= at < past.len() && (#[trigger] past[at]).timestamp > snapshot;
        history::law_first_committer_wins(db, id, snapshot, k, at);
    }
}

/// What stands against a scanned prefix is that another transaction changed a key that begins with it
/// since the snapshot or is about to, and nothing else: changes to other keys do not matter.
pub proof fn law_range_conflicts_have_a_reason(
    db: DatabaseView,
    id: u64,
    snapshot: u64,
    p: Seq<u8>,
)
    requires
        history::in_order(db),
        db.state.oldest() <= snapshot,
    ensures
        state::prefix_conflicts(db.state, id, snapshot, p) <==> exists|k: Seq<u8>|
            begins_with(k, p) && #[trigger] is_touched(db, id, snapshot, k),
{
    if state::prefix_conflicts(db.state, id, snapshot, p) {
        let k = if exists|k: Seq<u8>| #[trigger]
            db.state.versions.contains_key(k) && prefix::starts_with(k, p)
                && db.state.versions[k].len() > 0 && db.state.versions[k].last().timestamp
                > snapshot {
            choose|k: Seq<u8>| #[trigger]
                db.state.versions.contains_key(k) && prefix::starts_with(k, p)
                    && db.state.versions[k].len() > 0 && db.state.versions[k].last().timestamp
                    > snapshot
        } else {
            choose|k: Seq<u8>| #[trigger]
                db.state.intents.contains_key(k) && db.state.intents[k] != id
                    && prefix::starts_with(k, p)
        };
        law_prefixes_are_first_bytes(k, p);
        law_key_conflicts_have_a_reason(db, id, snapshot, k);
        assert(is_touched(db, id, snapshot, k));
    }
    if exists|k: Seq<u8>| begins_with(k, p) && #[trigger] is_touched(db, id, snapshot, k) {
        let k = choose|k: Seq<u8>| begins_with(k, p) && #[trigger] is_touched(db, id, snapshot, k);
        law_prefixes_are_first_bytes(k, p);
        let past = state::versions_of(db.history, k);
        if exists|at: int| 0 <= at < past.len() && (#[trigger] past[at]).timestamp > snapshot {
            let at = choose|at: int|
                0 <= at < past.len() && (#[trigger] past[at]).timestamp > snapshot;
            history::law_protected_scans_see_no_phantoms(db, id, snapshot, p, k, at);
        } else {
            assert(db.state.intents.contains_key(k));
        }
    }
}

proof fn lemma_first_key(
    db: DatabaseView,
    id: u64,
    snapshot: u64,
    keys: Seq<Seq<u8>>,
)
    requires
        history::in_order(db),
        db.state.oldest() <= snapshot,
    ensures
        match state::first_key_conflict(db.state, id, snapshot, keys) {
            Some(found) => exists|at: int|
                0 <= at < keys.len() && #[trigger] keys[at] == found && is_touched(
                    db,
                    id,
                    snapshot,
                    found,
                ) && forall|i: int|
                    0 <= i < at ==> !is_touched(db, id, snapshot, #[trigger] keys[i]),
            None => forall|i: int|
                0 <= i < keys.len() ==> !is_touched(db, id, snapshot, #[trigger] keys[i]),
        },
    decreases keys.len(),
{
    if keys.len() > 0 {
        let front = keys.drop_last();
        lemma_first_key(db, id, snapshot, front);
        law_key_conflicts_have_a_reason(db, id, snapshot, keys.last());
        match state::first_key_conflict(db.state, id, snapshot, front) {
            Some(found) => {
                let at = choose|at: int|
                    0 <= at < front.len() && #[trigger] front[at] == found && is_touched(
                        db,
                        id,
                        snapshot,
                        found,
                    ) && forall|i: int|
                        0 <= i < at ==> !is_touched(db, id, snapshot, #[trigger] front[i]);
                assert(keys[at] == found);
                assert forall|i: int| 0 <= i < at implies !is_touched(
                    db,
                    id,
                    snapshot,
                    #[trigger] keys[i],
                ) by {
                    assert(front[i] == keys[i]);
                }
            },
            None => {
                assert forall|i: int| 0 <= i < front.len() implies !is_touched(
                    db,
                    id,
                    snapshot,
                    #[trigger] keys[i],
                ) by {
                    assert(front[i] == keys[i]);
                }
                assert(keys[keys.len() - 1] == keys.last());
            },
        }
    }
}

/// Whether a key that begins with a prefix was changed by another transaction, or is about to be.
pub open spec fn is_range_touched(db: DatabaseView, id: u64, snapshot: u64, p: Seq<u8>) -> bool {
    exists|k: Seq<u8>| begins_with(k, p) && #[trigger] is_touched(db, id, snapshot, k)
}

proof fn lemma_first_prefix(
    db: DatabaseView,
    id: u64,
    snapshot: u64,
    prefixes: Seq<Seq<u8>>,
)
    requires
        history::in_order(db),
        db.state.oldest() <= snapshot,
    ensures
        match state::first_prefix_conflict(db.state, id, snapshot, prefixes) {
            Some(found) => prefixes.contains(found) && is_range_touched(db, id, snapshot, found),
            None => forall|i: int|
                0 <= i < prefixes.len() ==> !is_range_touched(
                    db,
                    id,
                    snapshot,
                    #[trigger] prefixes[i],
                ),
        },
    decreases prefixes.len(),
{
    if prefixes.len() > 0 {
        let front = prefixes.drop_last();
        lemma_first_prefix(db, id, snapshot, front);
        law_range_conflicts_have_a_reason(db, id, snapshot, prefixes.last());
        match state::first_prefix_conflict(db.state, id, snapshot, front) {
            Some(found) => {
                let at = front.index_of(found);
                assert(prefixes[at] == found);
            },
            None => {
                assert forall|i: int| 0 <= i < front.len() implies !is_range_touched(
                    db,
                    id,
                    snapshot,
                    #[trigger] prefixes[i],
                ) by {
                    assert(front[i] == prefixes[i]);
                }
                assert(prefixes[prefixes.len() - 1] == prefixes.last());
            },
        }
    }
}

/// A transaction that wrote something is refused where, and only where, another transaction changed or is
/// about to change a key that it wrote, or a key that begins with a prefix that it scanned while its
/// scans were protected. It is told the first of its keys that stands so, or else such a prefix, and
/// then leaves the database as it is. Where no such key stands against it, timestamps are left, and the
/// store takes its records, it commits; and a transaction that wrote nothing always does.
pub proof fn law_commits_are_refused_for_conflicts_only(
    transaction: TransactionView,
    before: DatabaseView,
    after: DatabaseView,
    result: Result<CommitResult, TransactionErrorView>,
    writes: Seq<WriteView>,
)
    requires
        history::in_order(before),
        transaction::runs_in(transaction, before.state),
        !transaction.finished,
        transaction::committed(transaction, before, after, result),
        transaction::is_write_list(transaction.writes, writes),
    ensures
        result matches Err(TransactionErrorView::WriteConflict { key: found }) ==> {
            &&& transaction.writes.contains_key(found)
            &&& is_touched(before, transaction.id, transaction.snapshot, found)
            &&& forall|k: Seq<u8>| #[trigger]
                transaction.writes.contains_key(k) && key::key_lt(k, found) ==> !is_touched(
                    before,
                    transaction.id,
                    transaction.snapshot,
                    k,
                )
            &&& after == before
        },
        result matches Err(TransactionErrorView::RangeConflict { prefix: found }) ==> {
            &&& transaction.scanned.contains(found)
            &&& is_range_touched(before, transaction.id, transaction.snapshot, found)
            &&& after == before
        },
        (exists|k: Seq<u8>| #[trigger]
            transaction.writes.contains_key(k) && is_touched(
                before,
                transaction.id,
                transaction.snapshot,
                k,
            )) ==> (result matches Err(error) && error is WriteConflict),
        writes.len() > 0 && (exists|i: int|
            0 <= i < transaction.scanned.len() && is_range_touched(
                before,
                transaction.id,
                transaction.snapshot,
                #[trigger] transaction.scanned[i],
            )) ==> (result matches Err(error) && (error is WriteConflict || error is RangeConflict)),
        (forall|k: Seq<u8>| #[trigger]
            transaction.writes.contains_key(k) ==> !is_touched(
                before,
                transaction.id,
                transaction.snapshot,
                k,
            )) && (forall|i: int|
            0 <= i < transaction.scanned.len() ==> !is_range_touched(
                before,
                transaction.id,
                transaction.snapshot,
                #[trigger] transaction.scanned[i],
            )) && before.state.next_commit_timestamp < u64::MAX && database::persists(
            before.store,
            writes,
            before.state.next_commit_timestamp,
        ) ==> result is Ok,
        writes.len() == 0 ==> after == before && result == Ok::<
            CommitResult,
            TransactionErrorView,
        >(CommitResult { timestamp: None, writes: 0 }),
{
    let id = transaction.id;
    let snapshot = transaction.snapshot;
    transaction::lemma_snapshot_in_use(transaction, before.state);
    let list = choose|list: Seq<WriteView>|
        #![trigger transaction::is_write_list(transaction.writes, list)]
        transaction::is_write_list(transaction.writes, list) && if list.len() == 0 {
            &&& result == Ok::<CommitResult, TransactionErrorView>(
                CommitResult { timestamp: None, writes: 0 },
            )
            &&& after == before
        } else {
            match state::commit_refused(
                before.state,
                transaction.id,
                transaction.snapshot,
                state::write_keys(list),
                transaction.scanned,
            ) {
                Some(refusal) => result == Err::<CommitResult, TransactionErrorView>(refusal)
                    && after == before,
                None => match result {
                    Ok(result) => {
                        &&& database::persists(
                            before.store,
                            list,
                            before.state.next_commit_timestamp,
                        )
                        &&& result.timestamp == Some(
                            Timestamp(before.state.next_commit_timestamp),
                        )
                        &&& result.writes == list.len()
                        &&& exists|pages: Seq<u64>| #[trigger]
                            history::is_commit(before, after, transaction.id, list, pages)
                    },
                    Err(error) => {
                        &&& after.history == before.history
                        &&& !database::persists(
                            before.store,
                            list,
                            before.state.next_commit_timestamp,
                        )
                        &&& database::persist_failed(
                            error,
                            list,
                            before.state.next_commit_timestamp,
                            before.store,
                        )
                    },
                },
            }
        };
    let keys = state::write_keys(list);
    lemma_one_list(transaction.writes, list, writes);
    lemma_first_key(before, id, snapshot, keys);
    lemma_first_prefix(before, id, snapshot, transaction.scanned);
    assert forall|k: Seq<u8>| #[trigger] transaction.writes.contains_key(k) implies keys.contains(
        k,
    ) by {}
    match state::first_key_conflict(before.state, id, snapshot, keys) {
        Some(found) => {
            let at = choose|at: int|
                0 <= at < keys.len() && #[trigger] keys[at] == found && is_touched(
                    before,
                    id,
                    snapshot,
                    found,
                ) && forall|i: int|
                    0 <= i < at ==> !is_touched(before, id, snapshot, #[trigger] keys[i]);
            assert(keys.contains(found));
            assert forall|k: Seq<u8>| #[trigger]
                transaction.writes.contains_key(k) && key::key_lt(k, found) implies !is_touched(
                before,
                id,
                snapshot,
                k,
            ) by {
                let i = keys.index_of(k);
                if i > at {
                    assert(key::key_lt(keys[at], keys[i]));
                    key::lemma_key_asymmetric(k, found);
                } else if i == at {
                    key::lemma_key_irreflexive(found);
                }
            }
        },
        None => {
            assert forall|k: Seq<u8>| #[trigger]
                transaction.writes.contains_key(k) implies !is_touched(
                before,
                id,
                snapshot,
                k,
            ) by {
                let i = keys.index_of(k);
                assert(!is_touched(before, id, snapshot, keys[i]));
            }
        },
    }
}

/// The writes of a transaction have one list.
proof fn lemma_one_list(
    map: Map<Seq<u8>, Option<Seq<u8>>>,
    first: Seq<WriteView>,
    second: Seq<WriteView>,
)
    requires
        transaction::is_write_list(map, first),
        transaction::is_write_list(map, second),
    ensures
        first == second,
{
    let a = state::write_keys(first);
    let b = state::write_keys(second);
    key_map::lemma_order_unique(map, a);
    key_map::lemma_order_unique(map, b);
    assert(a == b);
    assert(first.len() == a.len() && second.len() == b.len());
    assert forall|i: int| 0 <= i < first.len() implies first[i] == second[i] by {
        assert(a[i] == first[i].key && b[i] == second[i].key);
        assert(map[first[i].key] == first[i].value);
        assert(map[second[i].key] == second[i].value);
    }
    assert(first =~= second);
}

/// The value of a key at a snapshot is that of the last version that is not newer than the snapshot, and
/// there is none where every version is newer.
pub proof fn law_snapshots_see_the_last_version(
    history: Map<Seq<u8>, Seq<VersionView>>,
    k: Seq<u8>,
    snapshot: u64,
    at: int,
)
    requires
        history::versions_rise(state::versions_of(history, k)),
    ensures
        ({
            let versions = state::versions_of(history, k);
            &&& 0 <= at < versions.len() && versions[at].timestamp <= snapshot && (at + 1
                == versions.len() || versions[at + 1].timestamp > snapshot) ==> history::value_at(
                history,
                k,
                snapshot,
            ) == versions[at].value
            &&& (forall|i: int|
                0 <= i < versions.len() ==> (#[trigger] versions[i]).timestamp > snapshot)
                ==> history::value_at(history, k, snapshot) is None
        }),
{
    let versions = state::versions_of(history, k);
    if 0 <= at < versions.len() && versions[at].timestamp <= snapshot && (at + 1 == versions.len()
        || versions[at + 1].timestamp > snapshot) {
        history::lemma_visible_at(versions, snapshot, at + 1);
    }
    if forall|i: int| 0 <= i < versions.len() ==> (#[trigger] versions[i]).timestamp > snapshot {
        history::lemma_visible_at(versions, snapshot, 0);
    }
}

/// Whether all commits that were handed a timestamp are done.
pub open spec fn is_settled(state: StateView) -> bool {
    state.visible + 1 == state.next_commit_timestamp && state.completed == Set::<u64>::empty()
}

/// A commit gives every key that the transaction wrote its new value, or takes it away, for all that
/// begin from then on, leaves every other key as it is, and changes nothing for a snapshot that was
/// taken before.
pub proof fn law_commits_take_effect_at_once(
    transaction: TransactionView,
    before: DatabaseView,
    after: DatabaseView,
    result: CommitResult,
    writes: Seq<WriteView>,
    k: Seq<u8>,
    snapshot: u64,
)
    requires
        history::in_order(before),
        is_settled(before.state),
        transaction::runs_in(transaction, before.state),
        !transaction.finished,
        transaction::committed(
            transaction,
            before,
            after,
            Ok::<CommitResult, TransactionErrorView>(result),
        ),
        transaction::is_write_list(transaction.writes, writes),
        snapshot <= before.state.visible,
    ensures
        is_settled(after.state),
        history::value_at(after.history, k, after.state.visible) == (
        if transaction.writes.contains_key(k) {
            transaction.writes[k]
        } else {
            history::value_at(before.history, k, before.state.visible)
        }),
        history::value_at(after.history, k, snapshot) == history::value_at(
            before.history,
            k,
            snapshot,
        ),
        writes.len() > 0 ==> after.state.visible == before.state.visible + 1 && result.timestamp
            == Some(Timestamp(after.state.visible)),
        result.writes == writes.len(),
{
    let list = choose|list: Seq<WriteView>|
        #![trigger transaction::is_write_list(transaction.writes, list)]
        transaction::is_write_list(transaction.writes, list) && if list.len() == 0 {
            &&& result == (CommitResult { timestamp: None, writes: 0 })
            &&& after == before
        } else {
            &&& state::commit_refused(
                before.state,
                transaction.id,
                transaction.snapshot,
                state::write_keys(list),
                transaction.scanned,
            ) is None
            &&& result.timestamp == Some(Timestamp(before.state.next_commit_timestamp))
            &&& result.writes == list.len()
            &&& exists|pages: Seq<u64>| #[trigger]
                history::is_commit(before, after, transaction.id, list, pages)
        };
    lemma_one_list(transaction.writes, list, writes);
    let keys = state::write_keys(list);
    if list.len() == 0 {
        assert(!keys.contains(k));
    } else {
        let timestamp = before.state.next_commit_timestamp;
        let pages = choose|pages: Seq<u64>| #[trigger]
            history::is_commit(before, after, transaction.id, list, pages);
        transaction::lemma_snapshot_in_use(transaction, before.state);
        assert(history::key_kept(before, k));
        history::lemma_writable(
            before,
            transaction.id,
            transaction.snapshot,
            list,
            timestamp,
        );
        history::law_commit_is_atomic(before.history, list, pages, timestamp, k, timestamp);
        history::law_commit_is_atomic(before.history, list, pages, timestamp, k, snapshot);
        let reached = after.state.visible;
        let done = before.state.completed.insert(timestamp);
        assert(done.contains(timestamp));
        assert(reached == timestamp) by {
            if reached < timestamp {
                assert(reached == before.state.visible);
                assert(!done.contains((reached + 1) as u64));
            }
            if reached > timestamp {
                assert(done.contains((timestamp + 1) as u64));
            }
        }
        assert(after.state.completed =~= Set::empty());
        lemma_unchanged_at(before, k, timestamp);
        assert(transaction.writes.contains_key(k) <==> keys.contains(k));
        if keys.contains(k) {
            assert(keys[keys.index_of(k)] == k);
        }
    }
}

/// Nothing is newer than what is visible once all commits are done.
proof fn lemma_unchanged_at(db: DatabaseView, k: Seq<u8>, snapshot: u64)
    requires
        history::in_order(db),
        is_settled(db.state),
        db.state.visible <= snapshot,
    ensures
        history::value_at(db.history, k, snapshot) == history::value_at(
            db.history,
            k,
            db.state.visible,
        ),
{
    let past = state::versions_of(db.history, k);
    assert(history::key_kept(db, k));
    let count = past.len() as int;
    if count > 0 {
        assert(past[count - 1].timestamp <= db.state.visible);
    }
    history::lemma_visible_at(past, snapshot, count);
    history::lemma_visible_at(past, db.state.visible, count);
}

} // verus!
