//! The history of a database, and what memory, pages and indexes have to keep of it so that every
//! snapshot reads what was committed up to it.
use crate::index::key;
use crate::index::model;
use crate::index::node;
use crate::index::node::EntryView;
use crate::index::pages;
use crate::index::plan;
use crate::index::plan::IndexRoot;
use crate::mvcc::manifest;
use crate::mvcc::manifest::IndexGeneration;
use crate::mvcc::record;
use crate::mvcc::record::RecordView;
use crate::mvcc::state;
use crate::mvcc::state::{ActiveSnapshot, StateView, VersionView, WriteView};
use crate::storage::store;
use crate::storage::store::StoreView;
use vstd::prelude::*;

verus! {

/// A database: what is in memory, what is in the store, and every version ever committed.
#[verifier::ext_equal]
pub struct DatabaseView {
    pub state: StateView,
    pub store: StoreView,
    pub history: Map<Seq<u8>, Seq<VersionView>>,
    /// Whether index generations are published after commits without being asked for.
    pub online: bool,
    /// Whether there are commits that no index generation has been published for.
    pub unpublished: bool,
}

/// The value of a key at a timestamp, by the versions committed up to it.
pub open spec fn value_at(
    history: Map<Seq<u8>, Seq<VersionView>>,
    k: Seq<u8>,
    snapshot: u64,
) -> Option<Seq<u8>> {
    match state::visible_version(state::versions_of(history, k), snapshot) {
        Some(version) => version.value,
        None => None,
    }
}

/// The record that a page holds.
pub open spec fn page_record(store: StoreView, page: u64) -> Option<RecordView> {
    match store.read(page) {
        Ok(Some(found)) => match record::record_decoded(found.payload) {
            Ok(found) => found,
            Err(_) => None,
        },
        _ => None,
    }
}

/// The record of a version.
pub open spec fn version_record(k: Seq<u8>, version: VersionView) -> RecordView {
    RecordView { timestamp: version.timestamp, key: k, value: version.value }
}

/// Whether a version's page is in use and holds its record.
pub open spec fn stored(store: StoreView, k: Seq<u8>, version: VersionView) -> bool {
    &&& store::is_live(store, version.page)
    &&& page_record(store, version.page) == Some(version_record(k, version))
}

/// Whether versions are ordered by timestamp.
pub open spec fn versions_rise(versions: Seq<VersionView>) -> bool {
    forall|i: int, j: int|
        0 <= i < j < versions.len() ==> (#[trigger] versions[i]).timestamp < (
        #[trigger] versions[j]).timestamp
}

/// Whether a timestamp was handed out to a commit that is not done.
pub open spec fn is_pending(state: StateView, timestamp: u64) -> bool {
    state.visible < timestamp < state.next_commit_timestamp && !state.completed.contains(timestamp)
}

/// The timestamp of the newest index generation.
pub open spec fn indexed_through(generations: Seq<IndexGeneration>) -> u64 {
    if generations.len() == 0 {
        0
    } else {
        generations.last().timestamp.0
    }
}

/// Whether the first version in memory answers all snapshots from the oldest on.
pub open spec fn masks(now: Seq<VersionView>, oldest: u64) -> bool {
    now.len() > 0 && now[0].timestamp <= oldest
}

/// Whether generations answer the snapshots from the oldest on that a version is the newest for.
pub open spec fn rests(
    store: StoreView,
    generations: Seq<IndexGeneration>,
    oldest: u64,
    k: Seq<u8>,
    version: VersionView,
) -> bool {
    &&& generations.len() > 0
    &&& generations[0].timestamp.0 <= oldest
    &&& forall|i: int|
        0 <= i < generations.len() ==> version.timestamp <= (
        #[trigger] generations[i]).timestamp.0
    &&& stored(store, k, version)
}

/// Whether an index names the page of a key's live value at the index's timestamp, or need not
/// because memory has a newer version for all snapshots.
pub open spec fn covered(
    past: Seq<VersionView>,
    now: Seq<VersionView>,
    oldest: u64,
    found: Option<u64>,
    timestamp: u64,
) -> bool {
    ||| found == state::live_page(past, timestamp)
    ||| now.len() > 0 && timestamp < now[0].timestamp <= oldest
}

/// What holds of one key: memory has the newest versions, and what it dropped is answered by a
/// newer version or by the generations.
pub open spec fn key_kept(db: DatabaseView, k: Seq<u8>) -> bool {
    let past = state::versions_of(db.history, k);
    let now = state::versions_of(db.state.versions, k);
    let dropped = past.len() - now.len();
    &&& versions_rise(past)
    &&& forall|i: int|
        0 <= i < past.len() ==> 0 < (#[trigger] past[i]).timestamp
            < db.state.next_commit_timestamp && !is_pending(db.state, past[i].timestamp)
    &&& now.len() <= past.len()
    &&& now == past.skip(dropped)
    &&& db.state.versions.contains_key(k) ==> now.len() > 0
    &&& forall|i: int| 0 <= i < now.len() ==> stored(db.store, k, #[trigger] now[i])
    &&& dropped > 0 ==> masks(now, db.state.oldest()) || rests(
        db.store,
        db.state.generations,
        db.state.oldest(),
        k,
        past[dropped - 1],
    )
    &&& state::has_newer(now, indexed_through(db.state.generations)) ==> db.state.dirty.contains(k)
}

/// What holds of one generation: its pages are in use, its manifest is written, and its index is
/// right about every key.
pub open spec fn generation_kept(db: DatabaseView, generation: IndexGeneration) -> bool {
    &&& generation.timestamp.0 <= db.state.visible
    &&& plan::index_holds(db.store, generation.root)
    &&& page_manifest(db.store, generation.manifest_page_id.0) == Some(
        (generation.timestamp.0, generation.root),
    )
    &&& store::is_live(db.store, generation.manifest_page_id.0)
    &&& forall|k: Seq<u8>|
        covered(
            state::versions_of(db.history, k),
            state::versions_of(db.state.versions, k),
            db.state.oldest(),
            #[trigger] model::find(plan::index_entries(db.store, generation.root), k),
            generation.timestamp.0,
        )
}

/// The manifest that a page holds.
pub open spec fn page_manifest(store: StoreView, page: u64) -> Option<(u64, Option<IndexRoot>)> {
    match store.read(page) {
        Ok(Some(found)) => match manifest::manifest_decoded(found.payload) {
            Ok(found) => found,
            Err(_) => None,
        },
        _ => None,
    }
}

/// What holds of timestamps and snapshots.
pub open spec fn clock_kept(state: StateView) -> bool {
    &&& state.visible < state.next_commit_timestamp
    &&& forall|i: int|
        0 <= i < state.active.len() ==> (#[trigger] state.active[i]).snapshot.0 <= state.visible
    &&& forall|t: u64| #[trigger]
        state.completed.contains(t) ==> state.visible < t < state.next_commit_timestamp
    &&& forall|i: int, j: int|
        0 <= i < j < state.generations.len() ==> (#[trigger] state.generations[i]).timestamp.0 <= (
        #[trigger] state.generations[j]).timestamp.0
    &&& manifests_distinct(state.generations)
}

/// What holds of the store: every index node is on a page in use.
pub open spec fn store_kept(store: StoreView) -> bool {
    &&& store.wf()
    &&& forall|id: u64| #[trigger]
        model::store_nodes(store).contains_key(id) ==> store::is_live(store, id)
}

/// Whether a database is in order.
pub open spec fn in_order(db: DatabaseView) -> bool {
    &&& store_kept(db.store)
    &&& clock_kept(db.state)
    &&& forall|k: Seq<u8>| #[trigger] key_kept(db, k)
    &&& forall|i: int|
        0 <= i < db.state.generations.len() ==> generation_kept(
            db,
            #[trigger] db.state.generations[i],
        )
}

/// Whether there is something to publish has no part in the order of a database.
pub proof fn lemma_flags_aside(before: DatabaseView, after: DatabaseView)
    requires
        in_order(before),
        after == (DatabaseView { online: after.online, unpublished: after.unpublished, ..before }),
    ensures
        in_order(after),
{
    assert forall|k: Seq<u8>| #[trigger] key_kept(after, k) by {
        assert(key_kept(before, k));
    }
    assert forall|i: int| 0 <= i < after.state.generations.len() implies generation_kept(
        after,
        #[trigger] after.state.generations[i],
    ) by {
        assert(generation_kept(before, before.state.generations[i]));
    }
}

/// The value that a database gives for a key at a snapshot: that of the newest version in memory
/// that the snapshot sees, or else that of the version that the snapshot's index generation names.
pub open spec fn resolved(db: DatabaseView, k: Seq<u8>, snapshot: u64) -> Option<Seq<u8>> {
    match state::visible_version(state::versions_of(db.state.versions, k), snapshot) {
        Some(version) => version.value,
        None => match indexed_page(db, k, snapshot) {
            Some(page) => match page_record(db.store, page) {
                Some(found) => found.value,
                None => None,
            },
            None => None,
        },
    }
}

/// The page that the index generation for a snapshot names for a key.
pub open spec fn indexed_page(db: DatabaseView, k: Seq<u8>, snapshot: u64) -> Option<u64> {
    match state::generation_for(db.state.generations, snapshot) {
        Some(generation) => model::find(plan::index_entries(db.store, generation.root), k),
        None => None,
    }
}

/// The newest version at a timestamp is the one that is not after it while the next one is.
pub proof fn lemma_visible_at(versions: Seq<VersionView>, snapshot: u64, count: int)
    requires
        versions_rise(versions),
        0 <= count <= versions.len(),
        count > 0 ==> versions[count - 1].timestamp <= snapshot,
        count < versions.len() ==> versions[count].timestamp > snapshot,
    ensures
        state::visible_count(versions, snapshot) == count,
{
    state::lemma_visible_count_bound(versions, snapshot);
    let found = state::visible_count(versions, snapshot) as int;
    if found < count {
        if found < count - 1 {
            assert(versions[found].timestamp < versions[count - 1].timestamp);
        }
        assert(versions[found].timestamp > snapshot);
    }
    if found > count {
        if count < found - 1 {
            assert(versions[count].timestamp < versions[found - 1].timestamp);
        }
    }
}

/// What a snapshot sees does not depend on versions before one that it sees.
pub proof fn lemma_visible_suffix(past: Seq<VersionView>, dropped: int, snapshot: u64)
    requires
        versions_rise(past),
        0 <= dropped < past.len(),
        past[dropped].timestamp <= snapshot,
    ensures
        state::visible_version(past.skip(dropped), snapshot) == state::visible_version(
            past,
            snapshot,
        ),
        state::visible_version(past, snapshot) is Some,
        state::visible_count(past, snapshot) > dropped,
{
    let now = past.skip(dropped);
    let count = state::visible_count(past, snapshot) as int;
    state::lemma_visible_count_bound(past, snapshot);
    if count <= dropped {
        assert(past[dropped].timestamp > snapshot);
    }
    assert(versions_rise(now)) by {
        assert forall|i: int, j: int| 0 <= i < j < now.len() implies (#[trigger] now[i]).timestamp
            < (#[trigger] now[j]).timestamp by {
            assert(now[i] == past[i + dropped] && now[j] == past[j + dropped]);
        }
    }
    if count < past.len() {
        assert(now[count - dropped] == past[count]);
    }
    assert(now[count - dropped - 1] == past[count - 1]);
    lemma_visible_at(now, snapshot, count - dropped);
}

/// If no version in memory is old enough for a snapshot, what it sees was dropped last.
pub proof fn lemma_visible_dropped(past: Seq<VersionView>, dropped: int, snapshot: u64)
    requires
        versions_rise(past),
        0 <= dropped <= past.len(),
        dropped < past.len() ==> past[dropped].timestamp > snapshot,
        dropped > 0 ==> past[dropped - 1].timestamp <= snapshot,
    ensures
        state::visible_version(past, snapshot) == (if dropped == 0 {
            None
        } else {
            Some(past[dropped - 1])
        }),
{
    lemma_visible_at(past, snapshot, dropped);
}

/// Every snapshot that is in use, and every later one, reads exactly what was committed up to it.
pub proof fn law_snapshots_read_history(db: DatabaseView, k: Seq<u8>, snapshot: u64)
    requires
        in_order(db),
        db.state.oldest() <= snapshot,
    ensures
        resolved(db, k, snapshot) == value_at(db.history, k, snapshot),
        state::visible_version(
            state::versions_of(db.state.versions, k),
            snapshot,
        ) is None ==> (match indexed_page(db, k, snapshot) {
            Some(page) => page_record(db.store, page) matches Some(found) && found.key == k
                && found.timestamp <= snapshot && found.value is Some && store::is_live(
                db.store,
                page,
            ),
            None => value_at(db.history, k, snapshot) is None,
        }),
{
    let past = state::versions_of(db.history, k);
    let now = state::versions_of(db.state.versions, k);
    let dropped = past.len() - now.len();
    let generations = db.state.generations;
    assert(key_kept(db, k));
    state::lemma_visible_count_bound(now, snapshot);
    state::lemma_cover_count_bound(generations, snapshot);
    if now.len() > 0 {
        assert(now[0] == past[dropped]);
    }
    if now.len() > 0 && now[0].timestamp <= snapshot {
        lemma_visible_suffix(past, dropped, snapshot);
    } else {
        assert(state::visible_version(now, snapshot) is None) by {
            if state::visible_count(now, snapshot) > 0 {
                let at = state::visible_count(now, snapshot) - 1;
                assert(now[at] == past[dropped + at]);
                if at > 0 {
                    assert(past[dropped].timestamp < past[dropped + at].timestamp);
                }
            }
        }
        assert(!masks(now, db.state.oldest()));
        if dropped > 0 {
            assert(rests(db.store, generations, db.state.oldest(), k, past[dropped - 1]));
            assert(past[dropped - 1].timestamp <= generations[0].timestamp.0);
            lemma_visible_dropped(past, dropped, snapshot);
            assert(state::cover_count(generations, snapshot) > 0) by {
                if state::cover_count(generations, snapshot) == 0 {
                    assert(generations[0].timestamp.0 > snapshot);
                }
            }
            let at = state::cover_count(generations, snapshot) - 1;
            let generation = generations[at];
            assert(generation_kept(db, generation));
            let found = model::find(plan::index_entries(db.store, generation.root), k);
            assert(covered(past, now, db.state.oldest(), found, generation.timestamp.0));
            assert(past[dropped - 1].timestamp <= generation.timestamp.0);
            lemma_visible_dropped(past, dropped, generation.timestamp.0);
        } else {
            lemma_visible_dropped(past, 0, snapshot);
            if state::cover_count(generations, snapshot) > 0 {
                let at = state::cover_count(generations, snapshot) - 1;
                let generation = generations[at];
                assert(generation_kept(db, generation));
                let found = model::find(plan::index_entries(db.store, generation.root), k);
                assert(covered(past, now, db.state.oldest(), found, generation.timestamp.0));
                lemma_visible_dropped(past, 0, generation.timestamp.0);
            }
        }
    }
}

/// The oldest snapshot is one of those in use, or what a new transaction would see.
pub proof fn lemma_oldest(active: Seq<ActiveSnapshot>, visible: u64)
    ensures
        forall|i: int|
            0 <= i < active.len() ==> state::oldest_snapshot(active, visible) <= (
            #[trigger] active[i]).snapshot.0,
        active.len() > 0 ==> exists|i: int|
            0 <= i < active.len() && state::oldest_snapshot(active, visible) == (
            #[trigger] active[i]).snapshot.0,
    decreases active.len(),
{
    if active.len() == 1 {
        assert(state::oldest_snapshot(active, visible) == active[0].snapshot.0);
    } else if active.len() > 1 {
        let head = active.drop_last();
        lemma_oldest(head, visible);
        let rest = state::oldest_snapshot(head, visible);
        assert forall|i: int| 0 <= i < active.len() implies state::oldest_snapshot(active, visible)
            <= (#[trigger] active[i]).snapshot.0 by {
            if i < head.len() {
                assert(head[i] == active[i]);
            }
        }
        let j = choose|j: int| 0 <= j < head.len() && rest == (#[trigger] head[j]).snapshot.0;
        assert(active[j] == head[j]);
        assert(active[active.len() - 1] == active.last());
    }
}

/// The oldest snapshot is not behind what is visible.
pub proof fn lemma_oldest_visible(state: StateView)
    requires
        clock_kept(state),
    ensures
        state.oldest() <= state.visible,
{
    lemma_oldest(state.active, state.visible);
    if state.active.len() > 0 {
        assert(state.oldest() <= state.active[0].snapshot.0);
    }
}

/// Two databases that differ only in intents, snapshots and the clock.
pub open spec fn same_data(before: DatabaseView, after: DatabaseView) -> bool {
    &&& after.history == before.history
    &&& after.store == before.store
    &&& after.state.versions == before.state.versions
    &&& after.state.generations == before.state.generations
    &&& after.state.dirty == before.state.dirty
}

/// A database stays in order when the oldest snapshot and the clock move up.
pub proof fn lemma_later(before: DatabaseView, after: DatabaseView)
    requires
        in_order(before),
        same_data(before, after),
        clock_kept(after.state),
        before.state.oldest() <= after.state.oldest(),
        before.state.visible <= after.state.visible,
        before.state.next_commit_timestamp <= after.state.next_commit_timestamp,
        forall|t: u64|
            t < before.state.next_commit_timestamp && !is_pending(before.state, t) ==> !(
            #[trigger] is_pending(after.state, t)),
    ensures
        in_order(after),
{
    assert forall|k: Seq<u8>| #[trigger] key_kept(after, k) by {
        assert(key_kept(before, k));
        let past = state::versions_of(before.history, k);
        assert forall|i: int| 0 <= i < past.len() implies 0 < (#[trigger] past[i]).timestamp
            < after.state.next_commit_timestamp && !is_pending(after.state, past[i].timestamp) by {
            assert(!is_pending(before.state, past[i].timestamp));
        }
    }
    assert forall|i: int| 0 <= i < after.state.generations.len() implies generation_kept(
        after,
        #[trigger] after.state.generations[i],
    ) by {
        let generation = before.state.generations[i];
        assert(generation_kept(before, generation));
        assert forall|k: Seq<u8>|
            covered(
                state::versions_of(after.history, k),
                state::versions_of(after.state.versions, k),
                after.state.oldest(),
                #[trigger] model::find(plan::index_entries(after.store, generation.root), k),
                generation.timestamp.0,
            ) by {
            assert(covered(
                state::versions_of(before.history, k),
                state::versions_of(before.state.versions, k),
                before.state.oldest(),
                model::find(plan::index_entries(before.store, generation.root), k),
                generation.timestamp.0,
            ));
        }
    }
}

/// Beginning a transaction keeps a database in order.
pub proof fn law_begin_keeps_order(before: DatabaseView, after: DatabaseView, begun: ActiveSnapshot)
    requires
        in_order(before),
        begun.snapshot.0 == before.state.visible,
        after == (DatabaseView {
            state: StateView {
                active: before.state.active.push(begun),
                next_transaction_id: after.state.next_transaction_id,
                ..before.state
            },
            ..before
        }),
    ensures
        in_order(after),
        after.state.oldest() == before.state.oldest(),
{
    let active = after.state.active;
    assert(active.drop_last() =~= before.state.active);
    lemma_oldest_visible(before.state);
    assert(after.state.oldest() == before.state.oldest());
    assert(clock_kept(after.state)) by {
        assert forall|i: int| 0 <= i < active.len() implies (#[trigger] active[i]).snapshot.0
            <= after.state.visible by {
            if i < before.state.active.len() {
                assert(active[i] == before.state.active[i]);
            }
        }
    }
    lemma_later(before, after);
}

pub proof fn lemma_active_without(active: Seq<ActiveSnapshot>, id: u64)
    ensures
        forall|i: int|
            0 <= i < state::active_without(active, id).len() ==> active.contains(
                #[trigger] state::active_without(active, id)[i],
            ),
    decreases active.len(),
{
    if active.len() > 0 {
        let head = active.drop_last();
        lemma_active_without(head, id);
        let left = state::active_without(active, id);
        let rest = state::active_without(head, id);
        assert forall|i: int| 0 <= i < left.len() implies active.contains(#[trigger] left[i]) by {
            if i < rest.len() {
                assert(left[i] == rest[i]);
                assert(head.contains(rest[i]));
                let j = choose|j: int| 0 <= j < head.len() && head[j] == rest[i];
                assert(active[j] == left[i]);
            } else {
                assert(active[active.len() - 1] == left[i]);
            }
        }
    }
}

/// Ending a transaction keeps a database in order.
pub proof fn law_end_keeps_order(before: DatabaseView, after: DatabaseView, id: u64)
    requires
        in_order(before),
        after == (DatabaseView {
            state: StateView {
                active: state::active_without(before.state.active, id),
                ..before.state
            },
            ..before
        }),
    ensures
        in_order(after),
{
    let active = after.state.active;
    lemma_active_without(before.state.active, id);
    lemma_oldest(before.state.active, before.state.visible);
    lemma_oldest(active, after.state.visible);
    lemma_oldest_visible(before.state);
    assert forall|i: int| 0 <= i < active.len() implies (#[trigger] active[i]).snapshot.0
        <= after.state.visible && before.state.oldest() <= active[i].snapshot.0 by {
        assert(before.state.active.contains(active[i]));
        let j = choose|j: int|
            0 <= j < before.state.active.len() && before.state.active[j] == active[i];
        assert(before.state.active[j].snapshot.0 <= before.state.visible);
    }
    lemma_later(before, after);
}

/// Preparing a commit keeps a database in order.
pub proof fn law_prepare_keeps_order(before: DatabaseView, after: DatabaseView)
    requires
        in_order(before),
        before.state.next_commit_timestamp < u64::MAX,
        after == (DatabaseView {
            state: StateView {
                next_commit_timestamp: (before.state.next_commit_timestamp + 1) as u64,
                intents: after.state.intents,
                ..before.state
            },
            ..before
        }),
    ensures
        in_order(after),
        is_pending(after.state, before.state.next_commit_timestamp),
{
    lemma_later(before, after);
}

/// What completing a commit does to the clock.
proof fn lemma_finish_clock(before: StateView, after: StateView, timestamp: u64)
    requires
        clock_kept(before),
        is_pending(before, timestamp),
        after.active == before.active,
        after.generations == before.generations,
        after.next_commit_timestamp == before.next_commit_timestamp,
        state::is_advance(
            before.visible,
            before.completed.insert(timestamp),
            after.visible,
            after.completed,
        ),
    ensures
        clock_kept(after),
        before.oldest() <= after.oldest(),
        before.visible <= after.visible,
        !is_pending(after, timestamp),
        forall|t: u64|
            t < before.next_commit_timestamp && !is_pending(before, t) ==> !(#[trigger] is_pending(
                after,
                t,
            )),
{
    let done = before.completed.insert(timestamp);
    assert(done.contains(timestamp));
    if after.visible > before.visible {
        assert(done.contains(after.visible));
    }
    lemma_oldest(before.active, before.visible);
    lemma_oldest(after.active, after.visible);
    if before.active.len() > 0 {
        let i = choose|i: int|
            0 <= i < after.active.len() && after.oldest() == (#[trigger] after.active[i]).snapshot.0;
        assert(before.oldest() <= before.active[i].snapshot.0);
    }
    assert forall|t: u64|
        t < before.next_commit_timestamp && !is_pending(before, t) implies !(#[trigger] is_pending(
        after,
        t,
    )) by {
        if t > before.visible {
            assert(before.completed.contains(t));
            assert(done.contains(t));
            if t > after.visible {
                assert(after.completed.contains(t));
            }
        }
    }
    if timestamp > after.visible {
        assert(after.completed.contains(timestamp));
    }
}

/// Giving up a prepared commit keeps a database in order.
pub proof fn law_abandon_keeps_order(
    before: DatabaseView,
    after: DatabaseView,
    id: u64,
    timestamp: u64,
    writes: Seq<WriteView>,
)
    requires
        in_order(before),
        is_pending(before.state, timestamp),
        state::finished(before.state, after.state, id, timestamp, writes, None),
        after.store == before.store,
        after.history == before.history,
    ensures
        in_order(after),
{
    lemma_finish_clock(before.state, after.state, timestamp);
    lemma_later(before, after);
}

/// Whether commits may write keys: their last versions are before the commit's timestamp.
pub open spec fn writable(
    history: Map<Seq<u8>, Seq<VersionView>>,
    writes: Seq<WriteView>,
    timestamp: u64,
) -> bool {
    forall|i: int|
        0 <= i < writes.len() ==> {
            let past = state::versions_of(history, (#[trigger] writes[i]).key);
            past.len() == 0 || past.last().timestamp < timestamp
        }
}

/// Completing a commit whose records are stored keeps a database in order, and adds the commit to
/// the history.
pub proof fn law_commit_keeps_order(
    before: DatabaseView,
    after: DatabaseView,
    id: u64,
    timestamp: u64,
    writes: Seq<WriteView>,
    page_ids: Seq<u64>,
)
    requires
        in_order(before),
        is_pending(before.state, timestamp),
        page_ids.len() == writes.len(),
        state::write_keys(writes).no_duplicates(),
        writable(before.history, writes, timestamp),
        forall|i: int|
            0 <= i < writes.len() ==> stored(
                before.store,
                (#[trigger] writes[i]).key,
                VersionView { timestamp, value: writes[i].value, page: page_ids[i] },
            ),
        state::finished(before.state, after.state, id, timestamp, writes, Some(page_ids)),
        after.store == before.store,
        after.history == state::versions_with(before.history, writes, page_ids, timestamp),
    ensures
        in_order(after),
{
    lemma_finish_clock(before.state, after.state, timestamp);
    assert forall|k: Seq<u8>| #[trigger] key_kept(after, k) by {
        assert(key_kept(before, k));
        let past = state::versions_of(before.history, k);
        let now = state::versions_of(before.state.versions, k);
        let new_past = state::versions_of(after.history, k);
        let new_now = state::versions_of(after.state.versions, k);
        state::law_commit_versions(before.history, writes, page_ids, timestamp, k);
        state::law_commit_versions(before.state.versions, writes, page_ids, timestamp, k);
        assert forall|i: int| 0 <= i < past.len() implies 0 < (#[trigger] past[i]).timestamp
            < after.state.next_commit_timestamp && !is_pending(after.state, past[i].timestamp) by {
            assert(!is_pending(before.state, past[i].timestamp));
        }
        match state::write_at(writes, k) {
            Some(at) => {
                let added = VersionView {
                    timestamp,
                    value: writes[at].value,
                    page: page_ids[at],
                };
                assert(state::write_keys(writes)[at] == k);
                assert(writes[at].key == k);
                assert(new_past == past.push(added));
                assert(new_now == now.push(added));
                assert(versions_rise(new_past)) by {
                    assert forall|i: int, j: int| 0 <= i < j < new_past.len() implies (
                    #[trigger] new_past[i]).timestamp < (#[trigger] new_past[j]).timestamp by {
                        assert(new_past[i] == past[i]);
                        if j < past.len() {
                            assert(new_past[j] == past[j]);
                        } else if i < past.len() - 1 {
                            assert(past[i].timestamp < past[past.len() - 1].timestamp);
                        }
                    }
                }
                assert forall|i: int| 0 <= i < new_past.len() implies 0 < (
                #[trigger] new_past[i]).timestamp < after.state.next_commit_timestamp
                    && !is_pending(after.state, new_past[i].timestamp) by {
                    if i < past.len() {
                        assert(new_past[i] == past[i]);
                    }
                }
                assert(new_now =~= new_past.skip(new_past.len() - new_now.len()));
                assert forall|i: int| 0 <= i < new_now.len() implies stored(
                    after.store,
                    k,
                    #[trigger] new_now[i],
                ) by {
                    if i < now.len() {
                        assert(new_now[i] == now[i]);
                    }
                }
                assert(state::write_keys(writes).contains(k));
                assert(after.state.dirty.contains(k));
                if past.len() - now.len() > 0 && masks(now, before.state.oldest()) {
                    assert(new_now[0] == now[0]);
                }
                if past.len() - now.len() > 0 {
                    assert(new_past[new_past.len() - new_now.len() - 1] == past[past.len()
                        - now.len() - 1]);
                }
            },
            None => {
                assert(new_past == past);
                assert(new_now == now);
            },
        }
    }
    assert forall|i: int| 0 <= i < after.state.generations.len() implies generation_kept(
        after,
        #[trigger] after.state.generations[i],
    ) by {
        let generation = before.state.generations[i];
        assert(generation_kept(before, generation));
        assert forall|k: Seq<u8>|
            covered(
                state::versions_of(after.history, k),
                state::versions_of(after.state.versions, k),
                after.state.oldest(),
                #[trigger] model::find(plan::index_entries(after.store, generation.root), k),
                generation.timestamp.0,
            ) by {
            let past = state::versions_of(before.history, k);
            let now = state::versions_of(before.state.versions, k);
            assert(covered(
                past,
                now,
                before.state.oldest(),
                model::find(plan::index_entries(before.store, generation.root), k),
                generation.timestamp.0,
            ));
            assert(key_kept(before, k));
            assert(key_kept(after, k));
            state::law_commit_versions(before.history, writes, page_ids, timestamp, k);
            state::law_commit_versions(before.state.versions, writes, page_ids, timestamp, k);
            if let Some(at) = state::write_at(writes, k) {
                let new_past = state::versions_of(after.history, k);
                let count = state::visible_count(past, generation.timestamp.0) as int;
                state::lemma_visible_count_bound(past, generation.timestamp.0);
                assert(count > 0 ==> new_past[count - 1] == past[count - 1]);
                if count < past.len() {
                    assert(new_past[count] == past[count]);
                    assert(past[count].timestamp > generation.timestamp.0);
                }
                lemma_visible_at(new_past, generation.timestamp.0, count);
                let new_now = state::versions_of(after.state.versions, k);
                if now.len() > 0 {
                    assert(new_now[0] == now[0]);
                }
            }
        }
    }
}

/// What a commit adds to the history is seen from its timestamp on, and changes nothing for
/// snapshots before it.
pub proof fn law_commit_is_atomic(
    history: Map<Seq<u8>, Seq<VersionView>>,
    writes: Seq<WriteView>,
    page_ids: Seq<u64>,
    timestamp: u64,
    k: Seq<u8>,
    snapshot: u64,
)
    requires
        state::write_keys(writes).no_duplicates(),
        page_ids.len() == writes.len(),
        versions_rise(state::versions_of(history, k)),
        writable(history, writes, timestamp),
    ensures
        value_at(state::versions_with(history, writes, page_ids, timestamp), k, snapshot) == (
        match state::write_at(writes, k) {
            Some(at) => if snapshot >= timestamp {
                writes[at].value
            } else {
                value_at(history, k, snapshot)
            },
            None => value_at(history, k, snapshot),
        }),
{
    let past = state::versions_of(history, k);
    let after = state::versions_with(history, writes, page_ids, timestamp);
    state::law_commit_versions(history, writes, page_ids, timestamp, k);
    if let Some(at) = state::write_at(writes, k) {
        assert(state::write_keys(writes)[at] == k);
        assert(writes[at].key == k);
        let new_past = state::versions_of(after, k);
        assert(new_past.drop_last() =~= past);
        assert(new_past.last().timestamp == timestamp);
        state::lemma_visible_count_bound(past, snapshot);
    }
}

/// What writing pages that were not in use leaves: every page in use stays in use and reads the
/// same.
pub open spec fn only_fresh_written(before: StoreView, after: StoreView) -> bool {
    &&& after.wf()
    &&& forall|id: u64|
        store::is_live(before, id) ==> #[trigger] store::is_live(after, id) && after.read(id)
            == before.read(id)
    &&& forall|id: u64|
        !store::is_live(before, id) && !(#[trigger] store::is_live(after, id)) ==> after.read(id)
            == before.read(id)
}

/// An index stays when only pages that were not in use are written.
pub proof fn lemma_index_stays(before: StoreView, after: StoreView, root: Option<IndexRoot>)
    requires
        only_fresh_written(before, after),
        plan::index_holds(before, root),
    ensures
        plan::index_holds(after, root),
        plan::index_entries(after, root) == plan::index_entries(before, root),
{
    if let Some(found) = root {
        let nodes = model::store_nodes(before);
        let live = model::live_pages(before);
        let reached = model::store_nodes(after);
        let reached_live = model::live_pages(after);
        assert(model::agrees(nodes, live, reached, reached_live)) by {
            assert forall|id: u64| #[trigger] live.contains(id) implies reached_live.contains(id)
                && (nodes.contains_key(id) ==> reached.contains_key(id) && reached[id]
                == nodes[id]) by {
                assert(store::is_live(after, id));
            }
        }
        model::lemma_tree_frame(
            nodes,
            live,
            reached,
            reached_live,
            found.page_id.0,
            (found.height - 1) as nat,
            None,
            None,
        );
    }
}

/// Writing pages that were not in use keeps a database in order.
pub proof fn law_fresh_writes_keep_order(before: DatabaseView, after: DatabaseView)
    requires
        in_order(before),
        only_fresh_written(before.store, after.store),
        after.state == before.state,
        after.history == before.history,
    ensures
        in_order(after),
{
    assert(store_kept(after.store)) by {
        assert forall|id: u64| #[trigger] model::store_nodes(after.store).contains_key(
            id,
        ) implies store::is_live(after.store, id) by {
            if !store::is_live(after.store, id) {
                assert(!store::is_live(before.store, id));
                assert(after.store.read(id) == before.store.read(id));
                assert(model::store_nodes(before.store).contains_key(id));
            }
        }
    }
    assert forall|k: Seq<u8>| #[trigger] key_kept(after, k) by {
        assert(key_kept(before, k));
        let past = state::versions_of(before.history, k);
        let now = state::versions_of(before.state.versions, k);
        let dropped = past.len() - now.len();
        assert forall|i: int| 0 <= i < now.len() implies stored(
            after.store,
            k,
            #[trigger] now[i],
        ) by {
            assert(stored(before.store, k, now[i]));
            assert(store::is_live(after.store, now[i].page));
        }
        if dropped > 0 {
            assert(store::is_live(before.store, past[dropped - 1].page) ==> store::is_live(
                after.store,
                past[dropped - 1].page,
            ));
        }
    }
    assert forall|i: int| 0 <= i < after.state.generations.len() implies generation_kept(
        after,
        #[trigger] after.state.generations[i],
    ) by {
        let generation = before.state.generations[i];
        assert(generation_kept(before, generation));
        lemma_index_stays(before.store, after.store, generation.root);
        assert(store::is_live(after.store, generation.manifest_page_id.0));
        assert forall|k: Seq<u8>|
            covered(
                state::versions_of(after.history, k),
                state::versions_of(after.state.versions, k),
                after.state.oldest(),
                #[trigger] model::find(plan::index_entries(after.store, generation.root), k),
                generation.timestamp.0,
            ) by {
            assert(covered(
                state::versions_of(before.history, k),
                state::versions_of(before.state.versions, k),
                before.state.oldest(),
                model::find(plan::index_entries(before.store, generation.root), k),
                generation.timestamp.0,
            ));
        }
    }
}

/// The right answer for a key in an index at a timestamp, from the index at an earlier one: if the
/// key has a version in between, the change for it, or else what was there.
proof fn lemma_index_advances(db: DatabaseView, k: Seq<u8>)
    requires
        in_order(db),
        db.state.generations.len() > 0,
    ensures
        (match state::index_change(
            db.state,
            indexed_through(db.state.generations),
            db.state.visible,
            k,
        ) {
            Some(value) => value,
            None => model::find(
                plan::index_entries(db.store, db.state.generations.last().root),
                k,
            ),
        }) == state::live_page(state::versions_of(db.history, k), db.state.visible),
{
    let past = state::versions_of(db.history, k);
    let now = state::versions_of(db.state.versions, k);
    let dropped = past.len() - now.len();
    let generations = db.state.generations;
    let last = generations.last();
    let base = last.timestamp.0;
    let oldest = db.state.oldest();
    let visible = db.state.visible;
    let found = model::find(plan::index_entries(db.store, last.root), k);
    assert(generations[generations.len() - 1] == last);
    assert(key_kept(db, k));
    assert(generation_kept(db, last));
    assert(covered(past, now, oldest, found, base));
    lemma_oldest_visible(db.state);
    state::lemma_visible_count_bound(now, visible);
    assert forall|i: int| 0 <= i < now.len() implies #[trigger] now[i] == past[dropped + i] by {}
    if dropped > 0 && rests(db.store, generations, oldest, k, past[dropped - 1]) {
        assert(past[dropped - 1].timestamp <= generations[generations.len() - 1].timestamp.0);
    }
    match state::visible_version(now, visible) {
        Some(version) => {
            let at = state::visible_count(now, visible) - 1;
            assert(version == now[at]);
            if at > 0 {
                assert(past[dropped].timestamp < past[dropped + at].timestamp);
            }
            assert(now[0].timestamp <= visible);
            lemma_visible_suffix(past, dropped, visible);
            if version.timestamp > base {
                assert(state::has_newer(now, base));
            } else {
                // The version is the newest at the earlier timestamp too.
                assert(now[0].timestamp <= base);
                assert(found == state::live_page(past, base));
                if dropped + at + 1 < past.len() {
                    assert(now[at + 1] == past[dropped + at + 1]);
                    assert(now[at + 1].timestamp > visible);
                }
                lemma_visible_at(past, base, dropped + at + 1);
                lemma_visible_at(past, visible, dropped + at + 1);
            }
        },
        None => {
            if now.len() > 0 {
                assert(now[0].timestamp > visible);
            }
            assert(!masks(now, oldest));
            assert(found == state::live_page(past, base));
            lemma_visible_dropped(past, dropped, base);
            lemma_visible_dropped(past, dropped, visible);
        },
    }
}

/// The right answer for a key in a first index is the one from the versions in memory.
proof fn lemma_index_starts(db: DatabaseView, k: Seq<u8>)
    requires
        in_order(db),
        db.state.generations.len() == 0,
    ensures
        state::live_page(state::versions_of(db.state.versions, k), db.state.visible)
            == state::live_page(state::versions_of(db.history, k), db.state.visible),
{
    let past = state::versions_of(db.history, k);
    let now = state::versions_of(db.state.versions, k);
    let dropped = past.len() - now.len();
    assert(key_kept(db, k));
    lemma_oldest_visible(db.state);
    if dropped > 0 {
        assert(masks(now, db.state.oldest()));
        assert(now[0] == past[dropped]);
        lemma_visible_suffix(past, dropped, db.state.visible);
    } else {
        assert(now =~= past);
    }
}

/// Whether an index has the page of the live value of every key at the newest visible timestamp.
pub open spec fn is_current_index(db: DatabaseView, root: Option<IndexRoot>) -> bool {
    &&& plan::index_holds(db.store, root)
    &&& forall|k: Seq<u8>| #[trigger]
        model::find(plan::index_entries(db.store, root), k) == state::live_page(
            state::versions_of(db.history, k),
            db.state.visible,
        )
}

/// A first index of the live versions in memory is right about every key.
pub proof fn law_first_index_is_current(db: DatabaseView, entries: Seq<EntryView>, k: Seq<u8>)
    requires
        in_order(db),
        db.state.generations.len() == 0,
        forall|k: Seq<u8>| #[trigger]
            model::find(entries, k) == state::live_page(
                state::versions_of(db.state.versions, k),
                db.state.visible,
            ),
    ensures
        model::find(entries, k) == state::live_page(
            state::versions_of(db.history, k),
            db.state.visible,
        ),
{
    lemma_index_starts(db, k);
}

/// The newest index with the changes since is right about every key.
pub proof fn law_next_index_is_current(db: DatabaseView, k: Seq<u8>)
    requires
        in_order(db),
        db.state.generations.len() > 0,
    ensures
        (match state::index_change(
            db.state,
            db.state.generations.last().timestamp.0,
            db.state.visible,
            k,
        ) {
            Some(value) => value,
            None => model::find(
                plan::index_entries(db.store, db.state.generations.last().root),
                k,
            ),
        }) == state::live_page(state::versions_of(db.history, k), db.state.visible),
{
    lemma_index_advances(db, k);
}

/// Publishing a current index keeps a database in order.
pub proof fn law_publish_keeps_order(
    before: DatabaseView,
    after: DatabaseView,
    added: IndexGeneration,
)
    requires
        in_order(before),
        is_current_index(before, added.root),
        added.timestamp.0 == before.state.visible,
        page_manifest(before.store, added.manifest_page_id.0) == Some(
            (added.timestamp.0, added.root),
        ),
        store::is_live(before.store, added.manifest_page_id.0),
        forall|i: int|
            0 <= i < before.state.generations.len() ==> (
            #[trigger] before.state.generations[i]).manifest_page_id != added.manifest_page_id,
        after.store == before.store,
        after.history == before.history,
        after.state == (StateView {
            generations: before.state.generations.push(added),
            dirty: after.state.dirty,
            ..before.state
        }),
        forall|k: Seq<u8>| #[trigger]
            after.state.dirty.contains(k) <==> before.state.dirty.contains(k) && state::has_newer(
                state::versions_of(before.state.versions, k),
                added.timestamp.0,
            ),
    ensures
        in_order(after),
{
    let generations = after.state.generations;
    let old_generations = before.state.generations;
    assert forall|i: int| 0 <= i < old_generations.len() implies generations[i]
        == #[trigger] old_generations[i] && old_generations[i].timestamp.0
        <= before.state.visible by {
        assert(generation_kept(before, old_generations[i]));
    }
    assert(clock_kept(after.state)) by {
        assert forall|i: int, j: int| 0 <= i < j < generations.len() implies (
        #[trigger] generations[i]).timestamp.0 <= (#[trigger] generations[j]).timestamp.0 by {
            assert(generations[i] == old_generations[i]);
            if j < old_generations.len() {
                assert(generations[j] == old_generations[j]);
            }
        }
        assert forall|i: int, j: int| 0 <= i < j < generations.len() implies (
        #[trigger] generations[i]).manifest_page_id != (
        #[trigger] generations[j]).manifest_page_id by {
            assert(generations[i] == old_generations[i]);
            if j < old_generations.len() {
                assert(generations[j] == old_generations[j]);
            }
        }
    }
    assert forall|k: Seq<u8>| #[trigger] key_kept(after, k) by {
        assert(key_kept(before, k));
        let past = state::versions_of(before.history, k);
        let now = state::versions_of(before.state.versions, k);
        let dropped = past.len() - now.len();
        assert(generations.last() == added);
        assert(state::has_newer(now, added.timestamp.0) ==> state::has_newer(
            now,
            indexed_through(old_generations),
        )) by {
            if state::has_newer(now, added.timestamp.0) {
                let i = choose|i: int|
                    0 <= i < now.len() && (#[trigger] now[i]).timestamp > added.timestamp.0;
                if old_generations.len() > 0 {
                    assert(old_generations[old_generations.len() - 1].timestamp.0
                        <= before.state.visible);
                }
                assert(now[i].timestamp > indexed_through(old_generations));
            }
        }
        if dropped > 0 && rests(
            before.store,
            old_generations,
            before.state.oldest(),
            k,
            past[dropped - 1],
        ) {
            assert(generations[0] == old_generations[0]);
            assert forall|i: int| 0 <= i < generations.len() implies past[dropped - 1].timestamp
                <= (#[trigger] generations[i]).timestamp.0 by {
                if i < old_generations.len() {
                    assert(generations[i] == old_generations[i]);
                } else {
                    assert(past[dropped - 1].timestamp <= old_generations[0].timestamp.0);
                }
            }
        }
    }
    assert forall|i: int| 0 <= i < generations.len() implies generation_kept(
        after,
        #[trigger] generations[i],
    ) by {
        if i < old_generations.len() {
            let generation = old_generations[i];
            assert(generation_kept(before, generation));
            assert forall|k: Seq<u8>|
                covered(
                    state::versions_of(after.history, k),
                    state::versions_of(after.state.versions, k),
                    after.state.oldest(),
                    #[trigger] model::find(plan::index_entries(after.store, generation.root), k),
                    generation.timestamp.0,
                ) by {
                assert(covered(
                    state::versions_of(before.history, k),
                    state::versions_of(before.state.versions, k),
                    before.state.oldest(),
                    model::find(plan::index_entries(before.store, generation.root), k),
                    generation.timestamp.0,
                ));
            }
        } else {
            assert(generations[i] == added);
        }
    }
}

/// A page that holds an index node holds neither a record nor a manifest.
pub proof fn lemma_node_alone(store: StoreView, page: u64)
    requires
        model::store_nodes(store).contains_key(page),
    ensures
        page_record(store, page) is None,
        page_manifest(store, page) is None,
{
    if let Ok(Some(found)) = store.read(page) {
        let image = found.payload;
        if page_record(store, page) is Some {
            assert(node::node_magic()[2] == 0x49u8);
            assert(record::record_magic()[2] == 0x4du8);
            assert(image.subrange(0, 4)[2] == 0x49u8);
        }
        if page_manifest(store, page) is Some {
            assert(node::node_magic()[3] == 0x58u8);
            assert(manifest::manifest_magic()[3] == 0x52u8);
            assert(image.subrange(0, 4)[3] == 0x58u8);
        }
    }
}

/// A page that holds a record holds no manifest.
pub proof fn lemma_record_alone(store: StoreView, page: u64)
    requires
        page_record(store, page) is Some,
    ensures
        page_manifest(store, page) is None,
{
    if let Ok(Some(found)) = store.read(page) {
        if page_manifest(store, page) is Some {
            assert(record::record_magic()[2] == 0x4du8);
            assert(manifest::manifest_magic()[2] == 0x49u8);
            assert(found.payload.subrange(0, 4)[2] == 0x49u8);
        }
    }
}

/// What a page that is given back held: a manifest, or the record of a version that memory drops.
proof fn lemma_freed_contents(db: DatabaseView, page: u64)
    requires
        in_order(db),
        state::page_freed(db.state, page),
    ensures
        page_manifest(db.store, page) is Some || page_record(db.store, page) is Some,
        page_record(db.store, page) matches Some(found) ==> {
            let versions = state::versions_of(db.state.versions, found.key);
            exists|i: int|
                0 <= i < versions.len() - state::kept_versions(versions, db.state.oldest()).len()
                    && (#[trigger] versions[i]).timestamp == found.timestamp
        },
        page_manifest(db.store, page) is Some ==> page_record(db.store, page) is None,
{
    state::lemma_cover_count_bound(db.state.generations, db.state.oldest());
    if exists|k: Seq<u8>| #[trigger] db.state.versions.contains_key(k) && state::version_freed(
        db.state.versions[k],
        db.state.oldest(),
        page,
    ) {
        let k = choose|k: Seq<u8>| #[trigger]
            db.state.versions.contains_key(k) && state::version_freed(
                db.state.versions[k],
                db.state.oldest(),
                page,
            );
        let versions = db.state.versions[k];
        let i = choose|i: int|
            0 <= i < versions.len() - state::kept_versions(versions, db.state.oldest()).len() && (
            #[trigger] versions[i]).page == page;
        assert(key_kept(db, k));
        assert(state::versions_of(db.state.versions, k) == versions);
        assert(stored(db.store, k, versions[i]));
        lemma_record_alone(db.store, page);
        let found = page_record(db.store, page)->0;
        let own = state::versions_of(db.state.versions, found.key);
        assert(own == versions);
        assert(own[i].timestamp == found.timestamp);
    } else {
        let i = choose|i: int|
            0 <= i < db.state.generations.len() - state::kept_generations(db.state).len() && (
            #[trigger] db.state.generations[i]).manifest_page_id.0 == page;
        assert(generation_kept(db, db.state.generations[i]));
        if page_record(db.store, page) is Some {
            lemma_record_alone(db.store, page);
        }
    }
}

/// A version that stays needed does not lose its page.
proof fn lemma_version_stays(db: DatabaseView, k: Seq<u8>, version: VersionView)
    requires
        in_order(db),
        stored(db.store, k, version),
        ({
            let versions = state::versions_of(db.state.versions, k);
            let kept = state::kept_versions(versions, db.state.oldest());
            forall|i: int|
                0 <= i < versions.len() - kept.len() ==> (#[trigger] versions[i]).timestamp
                    != version.timestamp
        }),
    ensures
        !state::page_freed(db.state, version.page),
{
    if state::page_freed(db.state, version.page) {
        lemma_freed_contents(db, version.page);
    }
}

/// An index does not lose pages as long as only pages with records and manifests are given back.
pub proof fn lemma_index_keeps_pages(before: StoreView, after: StoreView, root: Option<IndexRoot>)
    requires
        plan::index_holds(before, root),
        forall|id: u64| #[trigger] after.read(id) == before.read(id),
        forall|id: u64|
            store::is_live(before, id) && page_manifest(before, id) is None && page_record(
                before,
                id,
            ) is None ==> #[trigger] store::is_live(after, id),
    ensures
        plan::index_holds(after, root),
        plan::index_entries(after, root) == plan::index_entries(before, root),
{
    let nodes = model::store_nodes(before);
    let reached = model::store_nodes(after);
    assert(reached =~= nodes) by {
        assert forall|id: u64| reached.contains_key(id) == nodes.contains_key(id) by {
            assert(after.read(id) == before.read(id));
        }
    }
    if let Some(found) = root {
        let level = (found.height - 1) as nat;
        let live = model::live_pages(before);
        let left = model::live_pages(after);
        let own = model::tree_pages(nodes, found.page_id.0, level);
        pages::lemma_tree_pages_within(nodes, live, found.page_id.0, level, None, None);
        assert forall|i: int| 0 <= i < own.len() implies left.contains(#[trigger] own[i]) by {
            assert(pages::is_page_within(nodes, live, own[i], level, None, None));
            assert(nodes.contains_key(own[i]));
            lemma_node_alone(before, own[i]);
            assert(store::is_live(after, own[i]));
        }
        pages::lemma_tree_restrict(nodes, live, left, found.page_id.0, level, None, None);
    }
}

/// An index does not lose pages when what no snapshot needs is dropped.
proof fn lemma_index_not_freed(before: DatabaseView, after: StoreView, root: Option<IndexRoot>)
    requires
        in_order(before),
        plan::index_holds(before.store, root),
        forall|id: u64| #[trigger] after.read(id) == before.store.read(id),
        forall|id: u64| #[trigger]
            store::is_live(after, id) <==> store::is_live(before.store, id) && !state::page_freed(
                before.state,
                id,
            ),
    ensures
        plan::index_holds(after, root),
        plan::index_entries(after, root) == plan::index_entries(before.store, root),
{
    assert forall|id: u64|
        store::is_live(before.store, id) && page_manifest(before.store, id) is None && page_record(
            before.store,
            id,
        ) is None implies #[trigger] store::is_live(after, id) by {
        if state::page_freed(before.state, id) {
            lemma_freed_contents(before, id);
        }
    }
    lemma_index_keeps_pages(before.store, after, root);
}

/// What dropping leaves of one key.
#[verifier::rlimit(80)]
proof fn lemma_reclaimed_key(before: DatabaseView, k: Seq<u8>)
    requires
        in_order(before),
    ensures
        ({
            let past = state::versions_of(before.history, k);
            let now = state::versions_of(before.state.versions, k);
            let left = state::versions_of(state::reclaimed_versions(before.state), k);
            let dropped = past.len() - left.len();
            let oldest = before.state.oldest();
            let kept = state::kept_versions(now, oldest);
            let generations = state::kept_generations(before.state);
            &&& kept.len() <= now.len()
            &&& now.len() > 0 ==> kept.len() > 0
            &&& kept == now.skip(now.len() - kept.len())
            &&& left.len() <= past.len()
            &&& left == past.skip(dropped)
            &&& left == kept || left.len() == 0
            &&& left.len() == 0 && now.len() > 0 ==> state::leaves_memory(before.state, k)
            &&& dropped > 0 ==> masks(left, oldest) || rests(
                before.store,
                generations,
                oldest,
                k,
                past[dropped - 1],
            )
            &&& dropped > 0 && !masks(left, oldest) ==> (forall|i: int|
                0 <= i < now.len() - kept.len() ==> (#[trigger] now[i]).timestamp < past[dropped
                    - 1].timestamp)
        }),
{
    let past = state::versions_of(before.history, k);
    let now = state::versions_of(before.state.versions, k);
    let left = state::versions_of(state::reclaimed_versions(before.state), k);
    let oldest = before.state.oldest();
    let kept = state::kept_versions(now, oldest);
    let old_generations = before.state.generations;
    let generations = state::kept_generations(before.state);
    let count = state::visible_count(now, oldest) as int;
    let gone = past.len() - now.len();
    assert(key_kept(before, k));
    state::lemma_visible_count_bound(now, oldest);
    state::lemma_cover_count_bound(old_generations, oldest);
    let cover = state::cover_count(old_generations, oldest) as int;
    assert forall|i: int| 0 <= i < now.len() implies #[trigger] now[i] == past[gone + i] by {}
    assert(kept =~= now.skip(now.len() - kept.len()));
    assert(kept =~= past.skip(past.len() - kept.len()));
    if !before.state.versions.contains_key(k) {
        assert(now =~= Seq::empty());
    }
    if count > 0 {
        assert(kept[0] == now[count - 1]);
        if state::leaves_memory(before.state, k) {
            assert(left =~= Seq::empty());
            assert(left =~= past.skip(past.len() as int));
            assert(kept.len() == 1);
            let version = past[past.len() - 1];
            assert(version == kept[0]);
            assert(stored(before.store, k, now[count - 1]));
            assert(generations[0] == old_generations[cover - 1]);
            assert forall|i: int| 0 <= i < generations.len() implies version.timestamp <= (
            #[trigger] generations[i]).timestamp.0 by {
                assert(generations[i] == old_generations[cover - 1 + i]);
                if i > 0 {
                    assert(old_generations[cover - 1].timestamp.0 <= old_generations[cover - 1
                        + i].timestamp.0);
                }
            }
            assert forall|i: int| 0 <= i < now.len() - kept.len() implies (
            #[trigger] now[i]).timestamp < version.timestamp by {
                assert(now[i] == past[gone + i]);
                assert(past[gone + i].timestamp < past[past.len() - 1].timestamp);
            }
        } else {
            assert(left == kept);
            assert(masks(left, oldest));
        }
    } else {
        assert(kept == now);
        if state::leaves_memory(before.state, k) {
            assert(now[0].timestamp > oldest);
        }
        assert(left == now);
        assert(!masks(now, oldest));
        if gone > 0 {
            assert(rests(before.store, old_generations, oldest, k, past[gone - 1]));
            assert(cover > 0) by {
                if cover == 0 {
                    assert(old_generations[0].timestamp.0 > oldest);
                }
            }
            assert(generations[0] == old_generations[cover - 1]);
            assert forall|i: int| 0 <= i < generations.len() implies past[gone - 1].timestamp <= (
            #[trigger] generations[i]).timestamp.0 by {
                assert(generations[i] == old_generations[cover - 1 + i]);
            }
        }
    }
}

/// What dropping does: memory keeps what snapshots in use can see, and pages are given back.
pub open spec fn is_reclaim(before: DatabaseView, after: DatabaseView) -> bool {
    &&& after.history == before.history
    &&& after.online == before.online
    &&& after.unpublished == before.unpublished
    &&& after.state.reclaimed == state::reclaimed_count(before.state, after.state.versions)
    &&& after.state == (StateView {
        versions: state::reclaimed_versions(before.state),
        generations: state::kept_generations(before.state),
        reclaimed: after.state.reclaimed,
        ..before.state
    })
    &&& after.store.wf()
    &&& after.store.ops == before.store.ops
    &&& forall|id: u64| #[trigger] after.store.read(id) == before.store.read(id)
    &&& forall|id: u64| #[trigger]
        store::is_live(after.store, id) <==> store::is_live(before.store, id)
            && !state::page_freed(before.state, id)
}

/// A version that stays needed stays stored.
proof fn lemma_version_stays_stored(
    before: DatabaseView,
    after: DatabaseView,
    k: Seq<u8>,
    version: VersionView,
)
    requires
        in_order(before),
        is_reclaim(before, after),
        stored(before.store, k, version),
        ({
            let versions = state::versions_of(before.state.versions, k);
            let kept = state::kept_versions(versions, before.state.oldest());
            forall|i: int|
                0 <= i < versions.len() - kept.len() ==> (#[trigger] versions[i]).timestamp
                    != version.timestamp
        }),
    ensures
        stored(after.store, k, version),
{
    lemma_version_stays(before, k, version);
    assert(after.store.read(version.page) == before.store.read(version.page));
    assert(store::is_live(after.store, version.page));
}

#[verifier::rlimit(60)]
#[verifier::spinoff_prover]
proof fn lemma_reclaim_keeps_stored(before: DatabaseView, after: DatabaseView, k: Seq<u8>)
    requires
        in_order(before),
        is_reclaim(before, after),
    ensures
        forall|i: int|
            0 <= i < state::versions_of(after.state.versions, k).len() ==> stored(
                after.store,
                k,
                #[trigger] state::versions_of(after.state.versions, k)[i],
            ),
{
    let oldest = before.state.oldest();
    assert(key_kept(before, k));
    lemma_reclaimed_key(before, k);
    let past = state::versions_of(before.history, k);
    let now = state::versions_of(before.state.versions, k);
    let left = state::versions_of(after.state.versions, k);
    let kept = state::kept_versions(now, oldest);
    let gone = past.len() - now.len();
    assert forall|i: int| 0 <= i < now.len() implies #[trigger] now[i] == past[gone + i] by {}
    assert forall|i: int| 0 <= i < left.len() implies stored(
        after.store,
        k,
        #[trigger] left[i],
    ) by {
        let at = now.len() - kept.len() + i;
        assert(left[i] == now[at]);
        assert(stored(before.store, k, now[at]));
        assert forall|j: int| 0 <= j < now.len() - kept.len() implies (#[trigger] now[j]).timestamp
            != left[i].timestamp by {
            assert(past[gone + j].timestamp < past[gone + at].timestamp);
        }
        lemma_version_stays_stored(before, after, k, left[i]);
    }
}

#[verifier::rlimit(60)]
#[verifier::spinoff_prover]
proof fn lemma_reclaim_keeps_key(before: DatabaseView, after: DatabaseView, k: Seq<u8>)
    requires
        in_order(before),
        is_reclaim(before, after),
    ensures
        key_kept(after, k),
{
    let oldest = before.state.oldest();
    assert(after.state.oldest() == oldest);
    let old_generations = before.state.generations;
    let generations = after.state.generations;
    assert(key_kept(before, k));
    lemma_reclaimed_key(before, k);
    let past = state::versions_of(before.history, k);
    let now = state::versions_of(before.state.versions, k);
    let left = state::versions_of(after.state.versions, k);
    let kept = state::kept_versions(now, oldest);
    let dropped = past.len() - left.len();
    lemma_reclaim_keeps_stored(before, after, k);
    if dropped > 0 && !masks(left, oldest) {
        lemma_version_stays_stored(before, after, k, past[dropped - 1]);
        assert(rests(after.store, generations, oldest, k, past[dropped - 1]));
    }
    if after.state.versions.contains_key(k) {
        assert(before.state.versions.contains_key(k));
        assert(left == kept);
    }
    if state::has_newer(left, indexed_through(generations)) {
        let i = choose|i: int|
            0 <= i < left.len() && (#[trigger] left[i]).timestamp > indexed_through(generations);
        assert(left[i] == now[now.len() - kept.len() + i]);
        state::lemma_cover_count_bound(old_generations, oldest);
        assert(indexed_through(generations) == indexed_through(old_generations));
        assert(state::has_newer(now, indexed_through(old_generations)));
    }
}

#[verifier::rlimit(60)]
#[verifier::spinoff_prover]
proof fn lemma_reclaim_keeps_covered(
    before: DatabaseView,
    after: DatabaseView,
    at: int,
    k: Seq<u8>,
    found: Option<u64>,
)
    requires
        in_order(before),
        is_reclaim(before, after),
        0 <= at < after.state.generations.len(),
        covered(
            state::versions_of(before.history, k),
            state::versions_of(before.state.versions, k),
            before.state.oldest(),
            found,
            after.state.generations[at].timestamp.0,
        ),
    ensures
        covered(
            state::versions_of(after.history, k),
            state::versions_of(after.state.versions, k),
            after.state.oldest(),
            found,
            after.state.generations[at].timestamp.0,
        ),
{
    let oldest = before.state.oldest();
    let old_generations = before.state.generations;
    let generations = after.state.generations;
    let generation = generations[at];
    let cover = state::cover_count(old_generations, oldest) as int;
    let past = state::versions_of(before.history, k);
    let now = state::versions_of(before.state.versions, k);
    let left = state::versions_of(after.state.versions, k);
    let kept = state::kept_versions(now, oldest);
    assert(key_kept(before, k));
    lemma_reclaimed_key(before, k);
    if now.len() > 0 && generation.timestamp.0 < now[0].timestamp <= oldest {
        let from = now.len() - kept.len();
        assert(now[from] == past[past.len() - now.len() + from]);
        assert(now[0] == past[past.len() - now.len()]);
        if from > 0 {
            assert(past[past.len() - now.len()].timestamp < past[past.len() - now.len()
                + from].timestamp);
        }
        state::lemma_visible_count_bound(now, oldest);
        if state::visible_count(now, oldest) == 0 {
            assert(now[0].timestamp > oldest);
        }
        assert(kept[0] == now[from]);
        if left.len() == 0 {
            assert(state::leaves_memory(before.state, k));
            state::lemma_cover_count_bound(old_generations, oldest);
            assert(generation == old_generations[cover - 1 + at]);
            if at > 0 {
                assert(old_generations[cover - 1].timestamp.0 <= old_generations[cover - 1
                    + at].timestamp.0);
            }
        } else {
            assert(left[0] == now[from]);
        }
    }
}

#[verifier::rlimit(40)]
proof fn lemma_reclaim_keeps_generation(before: DatabaseView, after: DatabaseView, at: int)
    requires
        in_order(before),
        is_reclaim(before, after),
        0 <= at < after.state.generations.len(),
    ensures
        generation_kept(after, after.state.generations[at]),
{
    let generations = after.state.generations;
    let old_generations = before.state.generations;
    let generation = generations[at];
    state::lemma_cover_count_bound(old_generations, before.state.oldest());
    let skipped = old_generations.len() - generations.len();
    assert(generation == old_generations[skipped + at]);
    assert(generation_kept(before, old_generations[skipped + at]));
    lemma_index_not_freed(before, after.store, generation.root);
    assert(after.store.read(generation.manifest_page_id.0) == before.store.read(
        generation.manifest_page_id.0,
    ));
    lemma_manifest_stays(before, skipped + at);
    assert(store::is_live(after.store, generation.manifest_page_id.0));
    assert forall|k: Seq<u8>|
        covered(
            state::versions_of(after.history, k),
            state::versions_of(after.state.versions, k),
            after.state.oldest(),
            #[trigger] model::find(plan::index_entries(after.store, generation.root), k),
            generation.timestamp.0,
        ) by {
        let found = model::find(plan::index_entries(before.store, generation.root), k);
        assert(covered(
            state::versions_of(before.history, k),
            state::versions_of(before.state.versions, k),
            before.state.oldest(),
            found,
            generation.timestamp.0,
        ));
        lemma_reclaim_keeps_covered(before, after, at, k, found);
    }
}

/// Dropping what no snapshot needs, and giving its pages back, keeps a database in order: every
/// snapshot in use reads what it read before.
#[verifier::rlimit(60)]
#[verifier::spinoff_prover]
pub proof fn law_reclaim_keeps_order(before: DatabaseView, after: DatabaseView)
    requires
        in_order(before),
        is_reclaim(before, after),
    ensures
        in_order(after),
        after.state.oldest() == before.state.oldest(),
{
    let old_generations = before.state.generations;
    let generations = after.state.generations;
    state::lemma_cover_count_bound(old_generations, before.state.oldest());
    let skipped = old_generations.len() - generations.len();
    assert(store_kept(after.store)) by {
        assert forall|id: u64| #[trigger] model::store_nodes(after.store).contains_key(
            id,
        ) implies store::is_live(after.store, id) by {
            assert(after.store.read(id) == before.store.read(id));
            assert(model::store_nodes(before.store).contains_key(id));
            lemma_node_alone(before.store, id);
            if state::page_freed(before.state, id) {
                lemma_freed_contents(before, id);
            }
        }
    }
    assert forall|i: int| 0 <= i < generations.len() implies #[trigger] generations[i]
        == old_generations[skipped + i] by {}
    assert(clock_kept(after.state));
    assert forall|k: Seq<u8>| #[trigger] key_kept(after, k) by {
        lemma_reclaim_keeps_key(before, after, k);
    }
    assert forall|i: int| 0 <= i < generations.len() implies generation_kept(
        after,
        #[trigger] generations[i],
    ) by {
        lemma_reclaim_keeps_generation(before, after, i);
    }
}

/// A generation that stays does not lose its manifest.
proof fn lemma_manifest_stays(db: DatabaseView, at: int)
    requires
        in_order(db),
        manifests_distinct(db.state.generations),
        db.state.generations.len() - state::kept_generations(db.state).len() <= at
            < db.state.generations.len(),
    ensures
        !state::page_freed(db.state, db.state.generations[at].manifest_page_id.0),
{
    let generations = db.state.generations;
    let page = generations[at].manifest_page_id.0;
    state::lemma_cover_count_bound(generations, db.state.oldest());
    assert(generation_kept(db, generations[at]));
    if state::page_freed(db.state, page) {
        if exists|k: Seq<u8>| #[trigger] db.state.versions.contains_key(k) && state::version_freed(
            db.state.versions[k],
            db.state.oldest(),
            page,
        ) {
            let k = choose|k: Seq<u8>| #[trigger]
                db.state.versions.contains_key(k) && state::version_freed(
                    db.state.versions[k],
                    db.state.oldest(),
                    page,
                );
            let versions = db.state.versions[k];
            let i = choose|i: int|
                0 <= i < versions.len() - state::kept_versions(versions, db.state.oldest()).len()
                    && (#[trigger] versions[i]).page == page;
            assert(key_kept(db, k));
            assert(state::versions_of(db.state.versions, k) == versions);
            assert(stored(db.store, k, versions[i]));
            lemma_record_alone(db.store, page);
        } else {
            let i = choose|i: int|
                0 <= i < generations.len() - state::kept_generations(db.state).len() && (
                #[trigger] generations[i]).manifest_page_id.0 == page;
            assert(generations[i].manifest_page_id != generations[at].manifest_page_id);
        }
    }
}

/// Whether generations have their manifests on different pages.
pub open spec fn manifests_distinct(generations: Seq<IndexGeneration>) -> bool {
    forall|i: int, j: int|
        0 <= i < j < generations.len() ==> (#[trigger] generations[i]).manifest_page_id != (
        #[trigger] generations[j]).manifest_page_id
}

/// The newest version of a key is in memory, or no snapshot in use is before it.
pub proof fn lemma_newest_known(db: DatabaseView, k: Seq<u8>)
    requires
        in_order(db),
        state::versions_of(db.history, k).len() > 0,
    ensures
        ({
            let past = state::versions_of(db.history, k);
            let now = state::versions_of(db.state.versions, k);
            if now.len() > 0 {
                now.last() == past.last() && db.state.versions.contains_key(k)
                    && db.state.versions[k] == now
            } else {
                past.last().timestamp <= db.state.oldest()
            }
        }),
{
    let past = state::versions_of(db.history, k);
    let now = state::versions_of(db.state.versions, k);
    assert(key_kept(db, k));
    if now.len() > 0 {
        assert(now[now.len() - 1] == past[past.len() - 1]);
    } else {
        assert(past[past.len() - 1] == past.last());
        assert(past[past.len() - now.len() - 1].timestamp <= db.state.generations[0].timestamp.0);
    }
}

/// The first committer wins: a transaction may not write a key that another commit wrote after
/// its snapshot.
pub proof fn law_first_committer_wins(
    db: DatabaseView,
    id: u64,
    snapshot: u64,
    k: Seq<u8>,
    at: int,
)
    requires
        in_order(db),
        db.state.oldest() <= snapshot,
        0 <= at < state::versions_of(db.history, k).len(),
        state::versions_of(db.history, k)[at].timestamp > snapshot,
    ensures
        state::key_conflicts(db.state, id, snapshot, k),
{
    let past = state::versions_of(db.history, k);
    assert(key_kept(db, k));
    lemma_newest_known(db, k);
    if at < past.len() - 1 {
        assert(past[at].timestamp < past[past.len() - 1].timestamp);
    }
}

/// A protected scan sees no phantoms: a transaction may not commit if another commit wrote a key
/// under a prefix that it scanned, after its snapshot.
pub proof fn law_protected_scans_see_no_phantoms(
    db: DatabaseView,
    id: u64,
    snapshot: u64,
    p: Seq<u8>,
    k: Seq<u8>,
    at: int,
)
    requires
        in_order(db),
        db.state.oldest() <= snapshot,
        crate::mvcc::prefix::starts_with(k, p),
        0 <= at < state::versions_of(db.history, k).len(),
        state::versions_of(db.history, k)[at].timestamp > snapshot,
    ensures
        state::prefix_conflicts(db.state, id, snapshot, p),
{
    let past = state::versions_of(db.history, k);
    assert(key_kept(db, k));
    lemma_newest_known(db, k);
    if at < past.len() - 1 {
        assert(past[at].timestamp < past[past.len() - 1].timestamp);
    }
    assert(db.state.versions.contains_key(k));
}

pub proof fn lemma_no_key_conflict(
    state: StateView,
    id: u64,
    snapshot: u64,
    keys: Seq<Seq<u8>>,
    at: int,
)
    requires
        state::first_key_conflict(state, id, snapshot, keys) is None,
        0 <= at < keys.len(),
    ensures
        !state::key_conflicts(state, id, snapshot, keys[at]),
    decreases keys.len(),
{
    if at < keys.len() - 1 {
        lemma_no_key_conflict(state, id, snapshot, keys.drop_last(), at);
    }
}

/// Keys that a transaction may write have no version from its timestamp on.
pub proof fn lemma_writable(
    db: DatabaseView,
    id: u64,
    snapshot: u64,
    writes: Seq<WriteView>,
    timestamp: u64,
)
    requires
        in_order(db),
        db.state.oldest() <= snapshot <= db.state.visible,
        db.state.visible < timestamp,
        state::first_key_conflict(db.state, id, snapshot, state::write_keys(writes)) is None,
    ensures
        writable(db.history, writes, timestamp),
{
    assert forall|i: int| 0 <= i < writes.len() implies {
        let past = state::versions_of(db.history, (#[trigger] writes[i]).key);
        past.len() == 0 || past.last().timestamp < timestamp
    } by {
        let k = writes[i].key;
        let past = state::versions_of(db.history, k);
        assert(state::write_keys(writes)[i] == k);
        lemma_no_key_conflict(db.state, id, snapshot, state::write_keys(writes), i);
        if past.len() > 0 {
            lemma_newest_known(db, k);
        }
    }
}

/// What a commit is: its versions join the history at the next timestamp, and it is completed.
pub open spec fn is_commit(
    before: DatabaseView,
    after: DatabaseView,
    id: u64,
    writes: Seq<WriteView>,
    page_ids: Seq<u64>,
) -> bool {
    &&& page_ids.len() == writes.len()
    &&& before.state.next_commit_timestamp < u64::MAX
    &&& after.history == state::versions_with(
        before.history,
        writes,
        page_ids,
        before.state.next_commit_timestamp,
    )
    &&& state::finished(
        prepared(before.state, id, state::write_keys(writes)),
        after.state,
        id,
        before.state.next_commit_timestamp,
        writes,
        Some(page_ids),
    )
}

/// The state with a commit prepared.
pub open spec fn prepared(before: StateView, id: u64, keys: Seq<Seq<u8>>) -> StateView {
    StateView {
        next_commit_timestamp: (before.next_commit_timestamp + 1) as u64,
        intents: state::intents_with(before.intents, keys, id),
        ..before
    }
}

/// The keys that have a value in what is visible.
pub open spec fn live_keys(db: DatabaseView) -> Set<Seq<u8>> {
    Set::new(
        |k: Seq<u8>|
            state::live_page(state::versions_of(db.history, k), db.state.visible) is Some,
    )
}

/// An index of what is visible has one entry for every key that has a value, and its root counts them;
/// there is no root where no key has a value.
pub proof fn law_index_counts_live_keys(db: DatabaseView, root: Option<IndexRoot>)
    requires
        is_current_index(db, root),
    ensures
        live_keys(db).finite(),
        root matches Some(root) ==> root.entries == live_keys(db).len(),
        root is None <==> live_keys(db).is_empty(),
{
    let entries = plan::index_entries(db.store, root);
    let keys = Seq::new(entries.len(), |i: int| entries[i].key);
    if let Some(root) = root {
        model::lemma_tree_sorted(
            model::store_nodes(db.store),
            model::live_pages(db.store),
            root.page_id.0,
            (root.height - 1) as nat,
            None,
            None,
        );
    }
    assert forall|i: int, j: int| 0 <= i < j < keys.len() implies keys[i] != keys[j] by {
        key::lemma_key_irreflexive(keys[i]);
        assert(key::key_lt(entries[i].key, entries[j].key));
    }
    assert(keys.to_set() =~= live_keys(db)) by {
        assert forall|k: Seq<u8>| keys.to_set().contains(k) <==> live_keys(db).contains(k) by {
            assert(model::find(entries, k) == state::live_page(
                state::versions_of(db.history, k),
                db.state.visible,
            ));
            if keys.contains(k) {
                let i = choose|i: int| 0 <= i < keys.len() && keys[i] == k;
                model::lemma_find_at(entries, i);
            }
            if model::find(entries, k) is Some {
                let at = model::lemma_find_some(entries, k);
                assert(keys[at] == k);
            }
        }
    }
    keys.unique_seq_to_set();
    if root is Some {
        assert(keys[0] == entries[0].key);
        assert(keys.to_set().contains(keys[0]));
    }
}

} // verus!
