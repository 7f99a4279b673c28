//! What running transactions keep seeing: over any run of operations, and when versions are dropped.
use crate::mvcc::history;
use crate::mvcc::history::DatabaseView;
use crate::mvcc::state;
use crate::mvcc::state::WriteView;
use crate::mvcc::transaction;
use crate::mvcc::transaction::TransactionView;
use crate::storage::store;
use vstd::prelude::*;

verus! {

/// Whether versions join the history at a timestamp that no snapshot reaches yet.
pub open spec fn joins_history(
    before: DatabaseView,
    after: DatabaseView,
    writes: Seq<WriteView>,
    page_ids: Seq<u64>,
    timestamp: u64,
) -> bool {
    &&& after.history == state::versions_with(before.history, writes, page_ids, timestamp)
    &&& before.state.visible < timestamp
    &&& page_ids.len() == writes.len()
    &&& state::write_keys(writes).no_duplicates()
    &&& history::writable(before.history, writes, timestamp)
}

/// Whether one operation leads from one database to another: beginning, ending and refusing
/// transactions, building an index and emptying the log leave the history as it is, and a commit
/// joins it.
pub open spec fn is_step(before: DatabaseView, after: DatabaseView) -> bool {
    ||| after.history == before.history
    ||| exists|writes: Seq<WriteView>, page_ids: Seq<u64>, timestamp: u64| #[trigger]
        joins_history(before, after, writes, page_ids, timestamp)
}

/// Whether a database went through given states, each in order, one operation after the other.
pub open spec fn is_run(run: Seq<DatabaseView>) -> bool {
    &&& run.len() > 0
    &&& forall|i: int| 0 <= i < run.len() ==> history::in_order(#[trigger] run[i])
    &&& forall|i: int, j: int|
        0 <= i < run.len() && j == i + 1 && j < run.len() ==> is_step(
            #[trigger] run[i],
            #[trigger] run[j],
        )
}

/// A commit at the next timestamp joins the history.
pub proof fn lemma_commit_joins(
    before: DatabaseView,
    after: DatabaseView,
    id: u64,
    writes: Seq<WriteView>,
    page_ids: Seq<u64>,
)
    requires
        history::in_order(before),
        history::is_commit(before, after, id, writes, page_ids),
        state::write_keys(writes).no_duplicates(),
    ensures
        is_step(before, after),
{
    let timestamp = before.state.next_commit_timestamp;
    assert forall|i: int| 0 <= i < writes.len() implies {
        let past = state::versions_of(before.history, (#[trigger] writes[i]).key);
        past.len() == 0 || past.last().timestamp < timestamp
    } by {
        let past = state::versions_of(before.history, writes[i].key);
        assert(history::key_kept(before, writes[i].key));
        if past.len() > 0 {
            assert(past[past.len() - 1].timestamp < timestamp);
        }
    }
    assert(joins_history(before, after, writes, page_ids, timestamp));
}

/// A step changes nothing for a snapshot that is visible before it.
proof fn lemma_step_keeps(before: DatabaseView, after: DatabaseView, k: Seq<u8>, snapshot: u64)
    requires
        history::in_order(before),
        is_step(before, after),
        snapshot <= before.state.visible,
    ensures
        history::value_at(after.history, k, snapshot) == history::value_at(
            before.history,
            k,
            snapshot,
        ),
{
    if after.history != before.history {
        let (writes, page_ids, timestamp) = choose|
            writes: Seq<WriteView>,
            page_ids: Seq<u64>,
            timestamp: u64,
        | #[trigger]
            joins_history(before, after, writes, page_ids, timestamp);
        assert(history::key_kept(before, k));
        history::law_commit_is_atomic(before.history, writes, page_ids, timestamp, k, snapshot);
    }
}

/// A run changes nothing for a snapshot that is visible throughout.
proof fn lemma_run_keeps(run: Seq<DatabaseView>, count: int, k: Seq<u8>, snapshot: u64)
    requires
        is_run(run),
        1 <= count <= run.len(),
        forall|i: int| 0 <= i < run.len() ==> snapshot <= (#[trigger] run[i]).state.visible,
    ensures
        history::value_at(run[count - 1].history, k, snapshot) == history::value_at(
            run[0].history,
            k,
            snapshot,
        ),
    decreases count,
{
    if count > 1 {
        lemma_run_keeps(run, count - 1, k, snapshot);
        assert(is_step(run[count - 2], run[count - 1]));
        lemma_step_keeps(run[count - 2], run[count - 1], k, snapshot);
    }
}

/// Reads are repeatable over any run: whatever begins, commits, is rolled back, or is built
/// meanwhile, in whatever order, a transaction that is still running sees what it saw, and reading
/// the versions in memory and the index finds it.
pub proof fn law_runs_are_repeatable(
    run: Seq<DatabaseView>,
    transaction: TransactionView,
    k: Seq<u8>,
)
    requires
        is_run(run),
        !transaction.finished,
        forall|i: int|
            0 <= i < run.len() ==> transaction::runs_in(transaction, (#[trigger] run[i]).state),
    ensures
        transaction::seen(transaction, run.last(), k) == transaction::seen(transaction, run[0], k),
        history::resolved(run.last(), k, transaction.snapshot) == history::resolved(
            run[0],
            k,
            transaction.snapshot,
        ),
{
    let snapshot = transaction.snapshot;
    assert forall|i: int| 0 <= i < run.len() implies snapshot <= (
    #[trigger] run[i]).state.visible by {
        assert(history::in_order(run[i]));
        transaction::lemma_snapshot_in_use(transaction, run[i].state);
    }
    lemma_run_keeps(run, run.len() as int, k, snapshot);
    assert(history::in_order(run[run.len() - 1]));
    assert(transaction::runs_in(transaction, run[run.len() - 1].state));
    transaction::lemma_snapshot_in_use(transaction, run.last().state);
    history::law_snapshots_read_history(run.last(), k, snapshot);
    assert(history::in_order(run[0]));
    transaction::lemma_snapshot_in_use(transaction, run[0].state);
    history::law_snapshots_read_history(run[0], k, snapshot);
}

/// Dropping versions is exact: every snapshot from the oldest one in use on, of whatever number, reads
/// what it read; of
/// a key every version after the oldest snapshot stays, and of the others at most the newest; a key
/// that is being written, or that no index has yet, keeps a version; the count of dropped versions
/// grows by as many as there are fewer, up to its largest value; and no page that is given back is
/// needed for anything that stays.
pub proof fn law_reclaim_is_exact(
    before: DatabaseView,
    after: DatabaseView,
    k: Seq<u8>,
    snapshot: u64,
    page: u64,
)
    requires
        history::in_order(before),
        history::is_reclaim(before, after),
        before.state.oldest() <= snapshot,
    ensures
        history::resolved(after, k, snapshot) == history::resolved(before, k, snapshot),
        ({
            let was = state::versions_of(before.state.versions, k);
            let now = state::versions_of(after.state.versions, k);
            &&& now.len() <= was.len()
            &&& now == was.skip(was.len() - now.len())
            &&& forall|i: int|
                0 <= i < was.len() && (#[trigger] was[i]).timestamp > before.state.oldest()
                    ==> now.contains(was[i])
            &&& forall|i: int|
                1 <= i < now.len() ==> (#[trigger] now[i]).timestamp > before.state.oldest()
            &&& now.len() > 0 && now[0].timestamp <= before.state.oldest() ==> Some(now[0])
                == state::visible_version(was, before.state.oldest())
            &&& was.len() > 0 && (before.state.dirty.contains(k)
                || before.state.intents.contains_key(k)) ==> now.len() > 0
        }),
        after.state.reclaimed == state::reclaimed_count(before.state, after.state.versions),
        state::page_freed(before.state, page) ==> {
            &&& forall|i: int|
                0 <= i < state::versions_of(after.state.versions, k).len() ==> (
                #[trigger] state::versions_of(after.state.versions, k)[i]).page != page
            &&& forall|i: int|
                0 <= i < after.state.generations.len() ==> (
                #[trigger] after.state.generations[i]).manifest_page_id.0 != page
            &&& !crate::index::model::store_nodes(after.store).contains_key(page)
            &&& state::visible_version(state::versions_of(after.state.versions, k), snapshot) is None
                ==> history::indexed_page(after, k, snapshot) != Some(page)
        },
{
    history::law_reclaim_keeps_order(before, after);
    history::law_snapshots_read_history(before, k, snapshot);
    history::law_snapshots_read_history(after, k, snapshot);
    let oldest = before.state.oldest();
    let was = state::versions_of(before.state.versions, k);
    let now = state::versions_of(after.state.versions, k);
    let kept = state::kept_versions(was, oldest);
    let count = state::visible_count(was, oldest) as int;
    assert(history::key_kept(before, k));
    assert(history::key_kept(after, k));
    let past = state::versions_of(before.history, k);
    assert forall|i: int, j: int| 0 <= i < j < was.len() implies (#[trigger] was[i]).timestamp < (
    #[trigger] was[j]).timestamp by {
        let dropped = past.len() - was.len();
        assert(was[i] == past[i + dropped] && was[j] == past[j + dropped]);
    }
    state::lemma_visible_count_bound(was, oldest);
    if before.state.versions.contains_key(k) {
        if state::leaves_memory(before.state, k) {
            assert(now =~= Seq::empty());
            history::lemma_oldest_visible(before.state);
            state::lemma_cover_count_bound(before.state.generations, oldest);
            assert(kept[0].timestamp <= oldest);
            assert(was.skip(was.len() as int) =~= now);
            assert(kept.len() == 1);
            assert(count == was.len());
        } else {
            assert(now == kept);
        }
    } else {
        assert(was =~= Seq::empty());
        assert(now =~= was);
        assert(was.skip(0) =~= was);
    }
    assert(now =~= was.skip(was.len() - now.len()));
    assert forall|i: int| 0 <= i < was.len() && (#[trigger] was[i]).timestamp > oldest implies now.contains(
        was[i],
    ) by {
        if i < count {
            if i < count - 1 {
                assert(was[i].timestamp < was[count - 1].timestamp);
            }
        }
        let gone = was.len() - now.len();
        assert(now[i - gone] == was[i]);
    }
    assert forall|i: int| 1 <= i < now.len() implies (#[trigger] now[i]).timestamp > oldest by {
        let gone = was.len() - now.len();
        assert(now[i] == was[i + gone]);
        if count < i + gone {
            assert(was[count].timestamp < was[i + gone].timestamp);
        }
    }
    if state::page_freed(before.state, page) {
        assert(!store::is_live(after.store, page));
        assert forall|i: int| 0 <= i < now.len() implies (#[trigger] now[i]).page != page by {
            assert(history::stored(after.store, k, now[i]));
        }
        assert forall|i: int| 0 <= i < after.state.generations.len() implies (
        #[trigger] after.state.generations[i]).manifest_page_id.0 != page by {
            assert(history::generation_kept(after, after.state.generations[i]));
        }
    }
}

} // verus!
