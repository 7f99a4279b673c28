//! The database: reading at a snapshot, committing, and keeping the index up to date.
use crate::bytes::{copy_bytes, same_bytes};
use crate::index::cache::{NodeCache, NodeCacheStats};
use crate::index::editor;
use crate::index::error::{IndexError, IndexErrorView};
use crate::index::model;
use crate::index::node;
use crate::index::node::EntryView;
use crate::index::plan;
use crate::index::plan::IndexRoot;
use crate::index::range;
use crate::index::read;
use crate::index::tree;
use crate::index::tree::BPlusTree;
use crate::mvcc::error::{corrupt, TransactionError, TransactionErrorView};
use crate::mvcc::history;
use crate::mvcc::history::DatabaseView;
use crate::mvcc::key_map;
use crate::mvcc::key_map::KeyMap;
use crate::mvcc::manifest;
use crate::mvcc::manifest::IndexGeneration;
use crate::mvcc::prefix;
use crate::mvcc::prefix::prefix_end;
use crate::mvcc::record;
use crate::mvcc::record::{copy_value, RecordView, Timestamp, TransactionId, VersionRecord};
use crate::mvcc::recovery;
use crate::mvcc::recovery::{scan_pages, ScanView, Scanned};
use crate::mvcc::restart;
use crate::mvcc::runs;
use crate::mvcc::state;
use crate::mvcc::state::{ActiveSnapshot, Remembered, State, StateView, VersionView, WriteView};
use crate::storage::byte_lru;
use crate::storage::byte_lru::{ByteCacheStats, LruEntryView, LruView, SharedByteLru};
use crate::storage::error::StorageErrorView;
use crate::storage::group_commit;
use crate::storage::group_commit::{GroupCommitHandle, GroupCommitOptions, GroupCommitStats, HandleView};
use crate::storage::page;
use crate::storage::page::{PageId, MAX_PAGE_PAYLOAD};
use crate::storage::store;
use crate::storage::store::{DurableStore, FileOp, PageWrite, PageWriteView, StoreOptions, StoreView};
use crate::storage::wal;
use std::sync::Arc;
use vstd::prelude::*;

verus! {

/// How a database is opened.
#[derive(Debug, Clone, Copy, PartialEq, Eq)]
pub struct MvccOptions {
    pub store: StoreOptions,
    pub group_commit: GroupCommitOptions,
    /// Whether index generations are published after commits without being asked for.
    pub online_index: bool,
    /// The byte budget of the cache of index nodes.
    pub index_cache_bytes: usize,
    /// The byte budget of the cache of version records.
    pub record_cache_bytes: usize,
}

impl Default for MvccOptions {
    fn default() -> (options: MvccOptions)
        ensures
            options.online_index,
            options.index_cache_bytes == 67_108_864,
            options.record_cache_bytes == 67_108_864,
            options.store.create_if_missing,
            options.group_commit == (GroupCommitOptions {
                queue_depth: 1024,
                max_batch_pages: 256,
                max_delay_micros: 200,
                checkpoint_after_wal_bytes: 67_108_864,
            }),
    {
        MvccOptions {
            store: StoreOptions::default(),
            group_commit: GroupCommitOptions::default(),
            online_index: true,
            index_cache_bytes: 67_108_864,
            record_cache_bytes: 67_108_864,
        }
    }
}

/// What a commit did.
#[derive(Debug, Clone, Copy, PartialEq, Eq)]
pub struct CommitResult {
    /// The commit's timestamp; a transaction without writes has none.
    pub timestamp: Option<Timestamp>,
    pub writes: usize,
}

/// A database over the in-memory contents of its files.
pub struct MvccDatabase {
    state: State,
    storage: GroupCommitHandle,
    node_cache: NodeCache,
    record_cache: SharedByteLru<VersionRecord>,
    online_index: bool,
    index_dirty: bool,
    history: Ghost<Map<Seq<u8>, Seq<VersionView>>>,
}

impl View for MvccDatabase {
    type V = DatabaseView;

    closed spec fn view(&self) -> DatabaseView {
        DatabaseView {
            state: self.state@,
            store: self.storage@.store,
            history: self.history@,
            online: self.online_index,
            unpublished: self.index_dirty,
        }
    }
}

/// A cache with nothing in it.
pub open spec fn empty_cache<V>(capacity: usize) -> LruView<V> {
    LruView { entries: Seq::empty(), capacity, hits: 0, misses: 0 }
}

/// The counts before the first commit.
pub open spec fn no_commits() -> GroupCommitStats {
    GroupCommitStats { groups: 0, requests: 0, pages: 0, automatic_checkpoints: 0 }
}

/// Whether every cached record is the one on its page, and the page is in use.
pub open spec fn records_true(cache: LruView<VersionRecord>, store: StoreView) -> bool {
    forall|i: int|
        0 <= i < cache.entries.len() ==> store::is_live(
            store,
            (#[trigger] cache.entries[i]).page_id,
        ) && history::page_record(store, cache.entries[i].page_id) == Some(
            cache.entries[i].value@,
        )
}

impl MvccDatabase {
    /// Whether the database is in order and its caches tell the truth.
    pub closed spec fn wf(&self) -> bool {
        &&& self.state.wf()
        &&& self.storage@.wf()
        &&& history::in_order(self@)
        &&& self.node_cache.wf()
        &&& read::cache_true(self.node_cache@, self.storage@.store)
        &&& self.record_cache.wf()
        &&& records_true(self.record_cache@, self.storage@.store)
    }

    /// The store with the counts of its commits.
    pub closed spec fn handle(&self) -> HandleView {
        self.storage@
    }

    /// The index nodes that are cached.
    pub closed spec fn nodes_cached(&self) -> LruView<node::Node> {
        self.node_cache@
    }

    /// The version records that are cached.
    pub closed spec fn records_cached(&self) -> LruView<RecordView> {
        byte_lru::cache_seen(self.record_cache@)
    }

    /// Whether nothing is counted and cached yet, and the caches have their budgets.
    pub open spec fn is_fresh(&self, options: MvccOptions) -> bool {
        &&& self.handle().options == options.group_commit
        &&& self.handle().stats == no_commits()
        &&& self.nodes_cached() == empty_cache::<node::Node>(options.index_cache_bytes)
        &&& self.records_cached() == empty_cache::<RecordView>(options.record_cache_bytes)
    }

    /// A database that is well-formed is in order.
    pub proof fn lemma_in_order(&self)
        requires
            self.wf(),
        ensures
            history::in_order(self@),
    {
    }
}

/// A cache of nodes stays true when only pages that were not in use are written.
proof fn lemma_nodes_stay(
    cache: LruView<node::Node>,
    before: StoreView,
    after: StoreView,
)
    requires
        history::store_kept(before),
        read::cache_true(cache, before),
        history::only_fresh_written(before, after),
    ensures
        read::cache_true(cache, after),
{
    assert forall|i: int| 0 <= i < cache.entries.len() implies after.read(
        (#[trigger] cache.entries[i]).page_id,
    ) == before.read(cache.entries[i].page_id) by {
        let id = cache.entries[i].page_id;
        assert(model::store_nodes(before).contains_key(id));
        assert(store::is_live(after, id));
    }
    read::lemma_cache_true_frame(cache, before, after);
}

/// A cache of records stays true when only pages that were not in use are written.
proof fn lemma_records_stay(cache: LruView<VersionRecord>, before: StoreView, after: StoreView)
    requires
        records_true(cache, before),
        history::only_fresh_written(before, after),
    ensures
        records_true(cache, after),
{
    assert forall|i: int| 0 <= i < cache.entries.len() implies store::is_live(
        after,
        (#[trigger] cache.entries[i]).page_id,
    ) && history::page_record(after, cache.entries[i].page_id) == Some(
        cache.entries[i].value@,
    ) by {
        assert(store::is_live(after, cache.entries[i].page_id));
    }
}

proof fn lemma_records_members(
    cache: LruView<VersionRecord>,
    other: LruView<VersionRecord>,
    store: StoreView,
)
    requires
        records_true(cache, store),
        forall|entry: LruEntryView<VersionRecord>| #[trigger]
            other.entries.contains(entry) ==> cache.entries.contains(entry),
    ensures
        records_true(other, store),
{
    assert forall|i: int| 0 <= i < other.entries.len() implies store::is_live(
        store,
        (#[trigger] other.entries[i]).page_id,
    ) && history::page_record(store, other.entries[i].page_id) == Some(
        other.entries[i].value@,
    ) by {
        assert(other.entries.contains(other.entries[i]));
        let j = choose|j: int|
            0 <= j < cache.entries.len() && cache.entries[j] == other.entries[i];
        assert(store::is_live(store, cache.entries[j].page_id));
    }
}

proof fn lemma_records_insert(
    cache: LruView<VersionRecord>,
    entry: LruEntryView<VersionRecord>,
    store: StoreView,
)
    requires
        cache.wf(),
        records_true(cache, store),
        store::is_live(store, entry.page_id),
        history::page_record(store, entry.page_id) == Some(entry.value@),
    ensures
        records_true(byte_lru::lru_inserted(cache, entry), store),
{
    let after = byte_lru::lru_inserted(cache, entry);
    byte_lru::law_insert_keeps_budget(cache, entry);
    assert forall|i: int| 0 <= i < after.entries.len() implies store::is_live(
        store,
        (#[trigger] after.entries[i]).page_id,
    ) && history::page_record(store, after.entries[i].page_id) == Some(
        after.entries[i].value@,
    ) by {
        assert(after.entries.contains(after.entries[i]));
        if after.entries[i] != entry {
            let j = choose|j: int|
                0 <= j < cache.entries.len() && cache.entries[j] == after.entries[i];
            assert(store::is_live(store, cache.entries[j].page_id));
        }
    }
}

spec fn record_entry(page_id: u64, value: &Arc<VersionRecord>, bytes: usize) -> LruEntryView<
    VersionRecord,
> {
    LruEntryView { page_id, value: **value, bytes }
}

/// What reading a version page through an index gives: the value of its record, if the record is
/// the key's, is seen by the snapshot and has a value.
pub open spec fn version_read(
    store: StoreView,
    page: u64,
    k: Seq<u8>,
    snapshot: u64,
) -> Option<Seq<u8>> {
    match history::page_record(store, page) {
        Some(found) => if found.key == k && found.timestamp <= snapshot {
            found.value
        } else {
            None
        },
        None => None,
    }
}

impl MvccDatabase {
    /// Reads the version that an index names for a key.
    fn read_index_version(&mut self, page_id: PageId, wanted: &[u8], snapshot: Timestamp) -> (value:
        Result<Option<Vec<u8>>, TransactionError>)
        requires
            old(self).wf(),
            store::is_live(old(self)@.store, page_id.0),
        ensures
            final(self).wf(),
            final(self)@ == old(self)@,
            match value {
                Ok(value) => value is Some && record::value_view(value) == version_read(
                    old(self)@.store,
                    page_id.0,
                    wanted@,
                    snapshot.0,
                ),
                Err(error) => version_read(
                    old(self)@.store,
                    page_id.0,
                    wanted@,
                    snapshot.0,
                ) is None && (error@ is CorruptRecord || error@ is Storage),
            },
    {
        let ghost before = self.record_cache@;
        let ghost store = self.storage@.store;
        proof {
            self.record_cache.lemma_wf();
        }
        let cached = self.record_cache.get(page_id);
        proof {
            self.record_cache.lemma_wf();
            byte_lru::lemma_looked_up_members(before, page_id.0);
            lemma_records_members(before, self.record_cache@, store);
            byte_lru::lemma_lru_found(before.entries, page_id.0);
        }
        let shared: Arc<VersionRecord> = match cached {
            Some(shared) => {
                proof {
                    let entry = byte_lru::lru_find(before.entries, page_id.0)->0;
                    let i = choose|i: int|
                        0 <= i < before.entries.len() && before.entries[i] == entry;
                    assert(store::is_live(store, before.entries[i].page_id));
                }
                shared
            },
            None => {
                let found = match self.storage.read_page(page_id) {
                    Ok(Some(found)) => found,
                    Ok(None) => {
                        return Err(corrupt(page_id, "index points to an absent version page"));
                    },
                    Err(error) => {
                        return Err(TransactionError::Storage(error));
                    },
                };
                let decoded = match VersionRecord::decode(page_id, found.payload()) {
                    Ok(Some(decoded)) => decoded,
                    Ok(None) => {
                        return Err(corrupt(page_id, "index points to a non-MVCC page"));
                    },
                    Err(error) => {
                        return Err(error);
                    },
                };
                let size: usize = decoded.approximate_bytes();
                let shared = Arc::new(decoded);
                proof {
                    lemma_records_insert(
                        self.record_cache@,
                        record_entry(page_id.0, &shared, size),
                        store,
                    );
                }
                self.record_cache.insert(page_id, &shared, size);
                shared
            },
        };
        assert(history::page_record(store, page_id.0) == Some(shared@));
        if !same_bytes(shared.key.as_slice(), wanted) {
            return Err(corrupt(page_id, "index key does not match version-record key"));
        }
        if shared.timestamp.0 > snapshot.0 || shared.value.is_none() {
            return Err(
                corrupt(
                    page_id,
                    "index points to a version that is not live in its snapshot",
                ),
            );
        }
        Ok(copy_value(&shared.value))
    }

    /// The value of a key through the index of a generation.
    fn read_indexed(
        &mut self,
        root: Option<IndexRoot>,
        wanted: &[u8],
        snapshot: Timestamp,
    ) -> (value: Result<Option<Vec<u8>>, TransactionError>)
        requires
            old(self).wf(),
            plan::index_holds(old(self)@.store, root),
            match model::find(plan::index_entries(old(self)@.store, root), wanted@) {
                Some(page) => store::is_live(old(self)@.store, page) && version_read(
                    old(self)@.store,
                    page,
                    wanted@,
                    snapshot.0,
                ) is Some,
                None => true,
            },
        ensures
            final(self).wf(),
            final(self)@ == old(self)@,
            value matches Ok(value) && record::value_view(value) == (match model::find(
                plan::index_entries(old(self)@.store, root),
                wanted@,
            ) {
                Some(page) => version_read(old(self)@.store, page, wanted@, snapshot.0),
                None => None,
            }),
    {
        let root = match root {
            Some(root) => root,
            None => {
                return Ok(None);
            },
        };
        match BPlusTree::get(&self.storage, &mut self.node_cache, root, wanted) {
            Err(error) => Err(TransactionError::Index(error)),
            Ok(None) => Ok(None),
            Ok(Some(page_id)) => self.read_index_version(page_id, wanted, snapshot),
        }
    }

    /// The value of a key at a snapshot.
    pub fn read(&mut self, wanted: &[u8], snapshot: Timestamp) -> (value: Result<
        Option<Vec<u8>>,
        TransactionError,
    >)
        requires
            old(self).wf(),
            old(self)@.state.oldest() <= snapshot.0 <= old(self)@.state.visible,
        ensures
            final(self).wf(),
            final(self)@ == old(self)@,
            value matches Ok(value) && record::value_view(value) == history::value_at(
                old(self)@.history,
                wanted@,
                snapshot.0,
            ),
    {
        proof {
            history::law_snapshots_read_history(self@, wanted@, snapshot.0);
        }
        match self.state.lookup(wanted, snapshot) {
            Remembered::Known(value) => Ok(value),
            Remembered::Absent => Ok(None),
            Remembered::Indexed(generation) => {
                proof {
                    state::lemma_cover_count_bound(self@.state.generations, snapshot.0);
                    let at = state::cover_count(self@.state.generations, snapshot.0) - 1;
                    assert(history::generation_kept(self@, self@.state.generations[at]));
                }
                self.read_indexed(generation.root, wanted, snapshot)
            },
        }
    }

    /// The value of a key as of the newest visible commit.
    pub fn get(&mut self, wanted: &[u8]) -> (value: Result<Option<Vec<u8>>, TransactionError>)
        requires
            old(self).wf(),
        ensures
            final(self).wf(),
            final(self)@ == old(self)@,
            value matches Ok(value) && record::value_view(value) == history::value_at(
                old(self)@.history,
                wanted@,
                old(self)@.state.visible,
            ),
    {
        proof {
            history::lemma_oldest_visible(self@.state);
        }
        let snapshot = self.state.visible_through();
        self.read(wanted, snapshot)
    }

    /// Begins a transaction: its snapshot is what is visible now, and stays so until it ends.
    pub(crate) fn begin_snapshot(&mut self) -> (begun: Result<ActiveSnapshot, TransactionError>)
        requires
            old(self).wf(),
        ensures
            final(self).wf(),
            match begun {
                Ok(begun) => {
                    &&& begun.snapshot.0 == old(self)@.state.visible
                    &&& begun.id.0 == old(self)@.state.next_transaction_id
                    &&& old(self)@.state.next_transaction_id < u64::MAX
                    &&& final(self)@ == (DatabaseView {
                        state: StateView {
                            next_transaction_id: (old(self)@.state.next_transaction_id + 1) as u64,
                            active: old(self)@.state.active.push(begun),
                            ..old(self)@.state
                        },
                        ..old(self)@
                    })
                },
                Err(error) => {
                    &&& old(self)@.state.next_transaction_id == u64::MAX
                    &&& error@ == TransactionErrorView::TransactionIdExhausted
                    &&& final(self)@ == old(self)@
                },
            },
    {
        let ghost before = self@;
        let begun = self.state.begin();
        proof {
            if let Ok(begun) = begun {
                history::law_begin_keeps_order(before, self@, begun);
            }
        }
        begun
    }

    /// Ends a transaction.
    pub fn end_transaction(&mut self, id: TransactionId)
        requires
            old(self).wf(),
        ensures
            final(self).wf(),
            final(self)@ == (DatabaseView {
                state: StateView {
                    active: state::active_without(old(self)@.state.active, id.0),
                    ..old(self)@.state
                },
                ..old(self)@
            }),
    {
        let ghost before = self@;
        self.state.end(id);
        proof {
            history::law_end_keeps_order(before, self@, id.0);
        }
    }
}

/// Writing pages that were reserved for it leaves every page that was in use alone.
proof fn lemma_commit_fresh(
    before: StoreView,
    reserved: StoreView,
    after: StoreView,
    writes: Seq<PageWrite>,
)
    requires
        after.wf(),
        forall|id: u64| #[trigger] reserved.read(id) == before.read(id),
        forall|id: u64|
            store::is_live(before, id) ==> #[trigger] store::is_live(reserved, id),
        forall|i: int|
            0 <= i < writes.len() ==> !store::is_live(before, (#[trigger] writes[i]).page_id.0)
                && store::is_live(reserved, writes[i].page_id.0),
        after.free == reserved.free,
        after.next_page_id >= reserved.next_page_id,
        forall|id: u64|
            (forall|i: int| 0 <= i < writes.len() ==> (#[trigger] writes[i]).page_id.0 != id)
                ==> #[trigger] after.read(id) == reserved.read(id),
    ensures
        history::only_fresh_written(before, after),
{
    assert forall|id: u64| store::is_live(before, id) implies #[trigger] store::is_live(after, id)
        && after.read(id) == before.read(id) by {
        assert(store::is_live(reserved, id));
        assert(reserved.read(id) == before.read(id));
        assert(after.read(id) == reserved.read(id));
    }
    assert forall|id: u64|
        !store::is_live(before, id) && !(#[trigger] store::is_live(after, id)) implies after.read(
        id,
    ) == before.read(id) by {
        assert forall|i: int| 0 <= i < writes.len() implies (#[trigger] writes[i]).page_id.0
            != id by {
            assert(store::is_live(reserved, writes[i].page_id.0));
        }
        assert(after.read(id) == reserved.read(id));
        assert(reserved.read(id) == before.read(id));
    }
}

/// Whether a record of a write does not fit in a page.
pub open spec fn is_too_large(write: WriteView) -> bool {
    record::record_size(write.key, write.value) > MAX_PAGE_PAYLOAD
}

/// The page writes that store the versions of a commit.
pub open spec fn version_writes(
    writes: Seq<WriteView>,
    timestamp: u64,
    page_ids: Seq<u64>,
) -> Seq<PageWriteView> {
    Seq::new(writes.len(), |i: int| version_write(writes[i], timestamp, page_ids[i]))
}

/// Whether a store has numbers left for so many pages.
pub open spec fn has_numbers(store: StoreView, count: nat) -> bool {
    store.next_page_id + (count - store::reused_count(store, count)) <= u64::MAX
}

/// Whether a store takes the records of a commit, on the pages that are next.
pub open spec fn takes_records(store: StoreView, writes: Seq<WriteView>, timestamp: u64) -> bool {
    group_commit::batch_taken(
        store::store_reserved(store, writes.len()),
        version_writes(writes, timestamp, store::reserved_ids(store, writes.len())),
    )
}

/// Whether the records of a commit can be stored.
pub open spec fn persists(store: StoreView, writes: Seq<WriteView>, timestamp: u64) -> bool {
    &&& !store.poisoned
    &&& has_numbers(store, writes.len())
    &&& forall|i: int| 0 <= i < writes.len() ==> !is_too_large(#[trigger] writes[i])
    &&& takes_records(store, writes, timestamp)
}

/// Why the records of a commit cannot be stored: the store takes no writes any more, page numbers
/// are used up, the first record that is too large is, or the store does not take the batch.
pub open spec fn persist_failed(
    error: TransactionErrorView,
    writes: Seq<WriteView>,
    timestamp: u64,
    store: StoreView,
) -> bool {
    if store.poisoned {
        error == TransactionErrorView::Storage(StorageErrorView::Poisoned)
    } else if !has_numbers(store, writes.len()) {
        error == TransactionErrorView::Storage(
            StorageErrorView::Configuration("page ID space exhausted"@),
        )
    } else if exists|i: int| 0 <= i < writes.len() && is_too_large(#[trigger] writes[i]) {
        exists|i: int|
            0 <= i < writes.len() && is_too_large(#[trigger] writes[i]) && error
                == record::record_too_large(writes[i].key, writes[i].value) && forall|j: int|
                0 <= j < i ==> !is_too_large(#[trigger] writes[j])
    } else {
        !takes_records(store, writes, timestamp) && error == TransactionErrorView::Storage(
            group_commit::batch_refused(
                store::store_reserved(store, writes.len()),
                version_writes(
                    writes,
                    timestamp,
                    store::reserved_ids(store, writes.len()),
                ),
            ),
        )
    }
}

/// The write that stores one version of a commit.
pub open spec fn version_write(write: WriteView, timestamp: u64, page_id: u64) -> PageWriteView {
    PageWriteView {
        page_id,
        payload: record::record_image(
            RecordView { timestamp, key: write.key, value: write.value },
        ),
    }
}

/// The page writes that store the versions of a commit.
fn encode_writes(
    timestamp: Timestamp,
    writes: &[(Vec<u8>, Option<Vec<u8>>)],
    page_ids: &Vec<PageId>,
) -> (page_writes: Result<Vec<PageWrite>, TransactionError>)
    requires
        page_ids@.len() == writes@.len(),
    ensures
        match page_writes {
            Ok(page_writes) => {
                &&& page_writes@.len() == writes@.len()
                &&& forall|i: int|
                    0 <= i < writes@.len() ==> (#[trigger] page_writes@[i])@ == version_write(
                        state::write_views(writes@)[i],
                        timestamp.0,
                        page_ids@[i].0,
                    ) && record::record_size(
                        state::write_views(writes@)[i].key,
                        state::write_views(writes@)[i].value,
                    ) <= MAX_PAGE_PAYLOAD
            },
            Err(error) => exists|i: int|
                0 <= i < writes@.len() && is_too_large(
                    #[trigger] state::write_views(writes@)[i],
                ) && error@ == record::record_too_large(
                    state::write_views(writes@)[i].key,
                    state::write_views(writes@)[i].value,
                ) && forall|j: int|
                    0 <= j < i ==> !is_too_large(#[trigger] state::write_views(writes@)[j]),
        },
{
    let ghost views = state::write_views(writes@);
    let mut page_writes: Vec<PageWrite> = Vec::new();
    let mut index: usize = 0;
    while index < writes.len()
        invariant
            index <= writes@.len() == page_ids@.len(),
            views == state::write_views(writes@),
            page_writes@.len() == index,
            forall|i: int|
                0 <= i < index ==> (#[trigger] page_writes@[i])@ == version_write(
                    views[i],
                    timestamp.0,
                    page_ids@[i].0,
                ) && record::record_size(views[i].key, views[i].value) <= MAX_PAGE_PAYLOAD,
        decreases writes@.len() - index,
    {
        let made = VersionRecord {
            timestamp,
            key: copy_bytes(writes[index].0.as_slice()),
            value: copy_value(&writes[index].1),
        };
        assert(views[index as int] == WriteView { key: made@.key, value: made@.value });
        match made.encode() {
            Ok(payload) => {
                page_writes.push(PageWrite { page_id: page_ids[index], payload });
            },
            Err(error) => {
                proof {
                    assert(is_too_large(views[index as int]));
                    assert forall|j: int| 0 <= j < index implies !is_too_large(
                        #[trigger] views[j],
                    ) by {
                        assert(page_writes@[j]@ == version_write(
                            views[j],
                            timestamp.0,
                            page_ids@[j].0,
                        ));
                    }
                }
                return Err(error);
            },
        }
        index = index + 1;
    }
    Ok(page_writes)
}

/// The page writes of a commit as a batch, which fits in its pages.
proof fn lemma_batch(
    given: Seq<PageWrite>,
    writes: Seq<WriteView>,
    timestamp: u64,
    page_ids: Seq<u64>,
)
    requires
        given.len() == writes.len(),
        page_ids.len() == writes.len(),
        timestamp > 0,
        forall|i: int|
            0 <= i < writes.len() ==> (#[trigger] given[i])@ == version_write(
                writes[i],
                timestamp,
                page_ids[i],
            ) && record::record_size(writes[i].key, writes[i].value) <= MAX_PAGE_PAYLOAD,
    ensures
        store::write_views(given) == version_writes(writes, timestamp, page_ids),
        store::payloads_fit(store::write_views(given)),
        forall|i: int| 0 <= i < writes.len() ==> !is_too_large(#[trigger] writes[i]),
{
    let batch = store::write_views(given);
    assert forall|i: int| 0 <= i < writes.len() implies batch[i] == version_write(
        writes[i],
        timestamp,
        page_ids[i],
    ) && !is_too_large(#[trigger] writes[i]) by {
        assert(given[i]@ == version_write(writes[i], timestamp, page_ids[i]));
    }
    assert(batch =~= version_writes(writes, timestamp, page_ids));
    assert forall|i: int| 0 <= i < batch.len() implies crate::storage::page::fits_page(
        (#[trigger] batch[i]).payload,
    ) by {
        assert(!is_too_large(writes[i]));
        record::law_record_round_trip(
            RecordView { timestamp, key: writes[i].key, value: writes[i].value },
        );
    }
}

impl MvccDatabase {
    /// Puts the records of a commit that have values in the cache.
    fn cache_writes(
        &mut self,
        timestamp: Timestamp,
        writes: &[(Vec<u8>, Option<Vec<u8>>)],
        page_ids: &Vec<PageId>,
    )
        requires
            old(self).record_cache.wf(),
            records_true(old(self).record_cache@, old(self).storage@.store),
            page_ids@.len() == writes@.len(),
            forall|i: int|
                0 <= i < writes@.len() ==> record::record_size(
                    (#[trigger] state::write_views(writes@)[i]).key,
                    state::write_views(writes@)[i].value,
                ) <= MAX_PAGE_PAYLOAD,
            forall|i: int|
                0 <= i < writes@.len() ==> history::stored(
                    old(self).storage@.store,
                    (#[trigger] state::write_views(writes@)[i]).key,
                    VersionView {
                        timestamp: timestamp.0,
                        value: state::write_views(writes@)[i].value,
                        page: page_ids@[i].0,
                    },
                ),
        ensures
            final(self).record_cache.wf(),
            records_true(final(self).record_cache@, final(self).storage@.store),
            *final(self) == (MvccDatabase {
                record_cache: final(self).record_cache,
                ..*old(self)
            }),
            byte_lru::cache_seen(final(self).record_cache@) == writes_cached(
                byte_lru::cache_seen(old(self).record_cache@),
                timestamp.0,
                state::write_views(writes@),
                store::id_views(page_ids@),
                writes@.len(),
            ),
    {
        let ghost views = state::write_views(writes@);
        let ghost ids = store::id_views(page_ids@);
        let ghost start = byte_lru::cache_seen(self.record_cache@);
        let mut cached: usize = 0;
        while cached < writes.len()
            invariant
                cached <= writes@.len() == page_ids@.len(),
                views == state::write_views(writes@),
                ids == store::id_views(page_ids@),
                start == byte_lru::cache_seen(old(self).record_cache@),
                byte_lru::cache_seen(self.record_cache@) == writes_cached(
                    start,
                    timestamp.0,
                    views,
                    ids,
                    cached as nat,
                ),
                self.record_cache.wf(),
                records_true(self.record_cache@, self.storage@.store),
                *self == (MvccDatabase { record_cache: self.record_cache, ..*old(self) }),
                forall|i: int|
                    0 <= i < views.len() ==> record::record_size(
                        (#[trigger] views[i]).key,
                        views[i].value,
                    ) <= MAX_PAGE_PAYLOAD,
                forall|i: int|
                    0 <= i < views.len() ==> history::stored(
                        self.storage@.store,
                        (#[trigger] views[i]).key,
                        VersionView {
                            timestamp: timestamp.0,
                            value: views[i].value,
                            page: page_ids@[i].0,
                        },
                    ),
            decreases writes@.len() - cached,
        {
            if writes[cached].1.is_some() {
                let made = VersionRecord {
                    timestamp,
                    key: copy_bytes(writes[cached].0.as_slice()),
                    value: copy_value(&writes[cached].1),
                };
                assert(views[cached as int] == WriteView { key: made@.key, value: made@.value });
                let size: usize = made.approximate_bytes();
                let shared = Arc::new(made);
                let page_id = page_ids[cached];
                proof {
                    self.record_cache.lemma_wf();
                    lemma_records_insert(
                        self.record_cache@,
                        record_entry(page_id.0, &shared, size),
                        self.storage@.store,
                    );
                    byte_lru::lemma_inserted_seen(
                        self.record_cache@,
                        record_entry(page_id.0, &shared, size),
                    );
                }
                self.record_cache.insert(page_id, &shared, size);
            }
            cached = cached + 1;
        }
    }

    /// Takes the keys of a transaction and hands out its timestamp, if nothing conflicts.
    pub fn prepare_commit(
        &mut self,
        id: TransactionId,
        snapshot: Timestamp,
        keys: &Vec<Vec<u8>>,
        prefixes: &Vec<Vec<u8>>,
    ) -> (timestamp: Result<Timestamp, TransactionError>)
        requires
            old(self).wf(),
        ensures
            final(self).wf(),
            match timestamp {
                Ok(timestamp) => {
                    &&& state::commit_refused(
                        old(self)@.state,
                        id.0,
                        snapshot.0,
                        key_map::byte_views(keys@),
                        key_map::byte_views(prefixes@),
                    ) is None
                    &&& timestamp.0 == old(self)@.state.next_commit_timestamp
                    &&& final(self)@ == (DatabaseView {
                        state: history::prepared(
                            old(self)@.state,
                            id.0,
                            key_map::byte_views(keys@),
                        ),
                        ..old(self)@
                    })
                    &&& history::is_pending(final(self)@.state, timestamp.0)
                },
                Err(error) => {
                    &&& state::commit_refused(
                        old(self)@.state,
                        id.0,
                        snapshot.0,
                        key_map::byte_views(keys@),
                        key_map::byte_views(prefixes@),
                    ) == Some(error@)
                    &&& final(self)@ == old(self)@
                },
            },
    {
        let ghost before = self@;
        let timestamp = self.state.prepare(id, snapshot, keys, prefixes);
        proof {
            if timestamp is Ok {
                history::law_prepare_keeps_order(before, self@);
            }
        }
        timestamp
    }

    /// Writes the records of a commit to pages of their own, in one batch.
    #[verifier::rlimit(40)]
    pub fn persist_commit(
        &mut self,
        timestamp: Timestamp,
        writes: &[(Vec<u8>, Option<Vec<u8>>)],
    ) -> (pages: Result<Vec<PageId>, TransactionError>)
        requires
            old(self).wf(),
            timestamp.0 > 0,
        ensures
            final(self).wf(),
            final(self)@ == (DatabaseView { store: final(self)@.store, ..old(self)@ }),
            match pages {
                Ok(pages) => {
                    &&& persists(old(self)@.store, state::write_views(writes@), timestamp.0)
                    &&& pages@.len() == writes@.len()
                    &&& forall|i: int|
                        0 <= i < writes@.len() ==> history::stored(
                            final(self)@.store,
                            (#[trigger] state::write_views(writes@)[i]).key,
                            VersionView {
                                timestamp: timestamp.0,
                                value: state::write_views(writes@)[i].value,
                                page: store::id_views(pages@)[i],
                            },
                        )
                    &&& final(self).records_cached() == writes_cached(
                        old(self).records_cached(),
                        timestamp.0,
                        state::write_views(writes@),
                        store::id_views(pages@),
                        writes@.len(),
                    )
                    &&& final(self).nodes_cached() == old(self).nodes_cached()
                    &&& final(self).handle().stats == (if writes@.len() == 0 {
                        old(self).handle().stats
                    } else {
                        group_commit::commit_counted(
                            HandleView {
                                store: store::store_reserved(old(self)@.store, writes@.len()),
                                ..old(self).handle()
                            },
                            version_writes(
                                state::write_views(writes@),
                                timestamp.0,
                                store::id_views(pages@),
                            ),
                        )
                    })
                    &&& restart::commit_stored(
                        old(self)@.store,
                        final(self)@.store,
                        state::write_views(writes@),
                        store::id_views(pages@),
                        timestamp.0,
                    )
                },
                Err(error) => {
                    &&& !persists(old(self)@.store, state::write_views(writes@), timestamp.0)
                    &&& persist_failed(
                        error@,
                        state::write_views(writes@),
                        timestamp.0,
                        old(self)@.store,
                    )
                    &&& !final(self)@.store.poisoned ==> forall|id: u64| #[trigger]
                        final(self)@.store.read(id) == old(self)@.store.read(id)
                },
            },
    {
        let ghost start = self@;
        let ghost before = self.storage@.store;
        let ghost views = state::write_views(writes@);
        let reserved = self.storage.reserve_page_ids(writes.len());
        let ghost middle = self.storage@.store;
        proof {
            if reserved is Ok {
                store::law_reserved_are_fresh(before, writes@.len());
            }
            assert(history::only_fresh_written(before, middle));
            history::law_fresh_writes_keep_order(start, self@);
            lemma_nodes_stay(self.node_cache@, before, middle);
            lemma_records_stay(self.record_cache@, before, middle);
        }
        let page_ids = match reserved {
            Ok(page_ids) => page_ids,
            Err(error) => {
                return Err(TransactionError::Storage(error));
            },
        };
        let ghost ids = store::id_views(page_ids@);
        proof {
            assert forall|i: int| 0 <= i < ids.len() implies !store::is_live(
                before,
                #[trigger] ids[i],
            ) && store::is_live(middle, ids[i]) by {
                assert(ids.contains(ids[i]));
            }
        }
        let page_writes = match encode_writes(timestamp, writes, &page_ids) {
            Ok(page_writes) => page_writes,
            Err(error) => {
                return Err(error);
            },
        };
        let ghost given = page_writes@;
        let ghost batch = store::write_views(page_writes@);
        let ghost threshold = self.storage@.options.checkpoint_after_wal_bytes;
        proof {
            lemma_batch(given, views, timestamp.0, ids);
        }
        let committed = self.storage.commit(page_writes);
        let ghost after = self.storage@.store;
        proof {
            assert forall|i: int| 0 <= i < given.len() implies !store::is_live(
                before,
                (#[trigger] given[i]).page_id.0,
            ) && store::is_live(middle, given[i].page_id.0) by {
                assert(given[i]@.page_id == ids[i]);
            }
            lemma_commit_fresh(before, middle, after, given);
            history::law_fresh_writes_keep_order(start, DatabaseView { store: after, ..start });
            lemma_nodes_stay(self.node_cache@, before, after);
        }
        assert(self.node_cache@ == old(self).node_cache@);
        proof {
            lemma_records_stay(self.record_cache@, before, after);
        }
        let _ = match committed {
            Ok(lsns) => lsns,
            Err(error) => {
                return Err(TransactionError::Storage(error));
            },
        };
        proof {
            assert forall|i: int| 0 <= i < views.len() implies history::stored(
                after,
                (#[trigger] views[i]).key,
                VersionView { timestamp: timestamp.0, value: views[i].value, page: ids[i] },
            ) by {
                assert(batch[i] == given[i]@);
                let made = RecordView {
                    timestamp: timestamp.0,
                    key: views[i].key,
                    value: views[i].value,
                };
                record::law_record_round_trip(made);
                assert forall|j: int| i < j < batch.len() implies (#[trigger] batch[j]).page_id
                    != batch[i].page_id by {
                    assert(batch[j] == given[j]@);
                    assert(ids[i] != ids[j]);
                }
                group_commit::law_commit_reads(middle, batch, threshold, i);
                assert(store::is_live(middle, ids[i]));
            }
            assert(restart::commit_stored(before, after, views, ids, timestamp.0)) by {
                assert forall|id: u64| !ids.contains(id) implies #[trigger] after.read(id)
                    == before.read(id) by {
                    assert forall|i: int| 0 <= i < given.len() implies (
                    #[trigger] given[i]).page_id.0 != id by {
                        assert(given[i]@.page_id == ids[i]);
                    }
                    assert(after.read(id) == middle.read(id));
                }
                assert forall|i: int| 0 <= i < ids.len() implies history::page_record(
                    after,
                    #[trigger] ids[i],
                ) == Some(
                    RecordView { timestamp: timestamp.0, key: views[i].key, value: views[i].value },
                ) by {
                    assert(history::stored(
                        after,
                        views[i].key,
                        VersionView { timestamp: timestamp.0, value: views[i].value, page: ids[i] },
                    ));
                }
            }
        }
        self.cache_writes(timestamp, writes, &page_ids);
        Ok(page_ids)
    }

    /// Completes a prepared commit: with the pages of its records it joins the history, without
    /// it is given up.
    pub fn finish_prepared(
        &mut self,
        id: TransactionId,
        timestamp: Timestamp,
        writes: &[(Vec<u8>, Option<Vec<u8>>)],
        pages: Option<&[PageId]>,
    )
        requires
            old(self).wf(),
            history::is_pending(old(self)@.state, timestamp.0),
            pages matches Some(pages) ==> {
                &&& pages@.len() == writes@.len()
                &&& state::write_keys(state::write_views(writes@)).no_duplicates()
                &&& history::writable(
                    old(self)@.history,
                    state::write_views(writes@),
                    timestamp.0,
                )
                &&& forall|i: int|
                    0 <= i < writes@.len() ==> history::stored(
                        old(self)@.store,
                        (#[trigger] state::write_views(writes@)[i]).key,
                        VersionView {
                            timestamp: timestamp.0,
                            value: state::write_views(writes@)[i].value,
                            page: store::id_views(pages@)[i],
                        },
                    )
            },
        ensures
            final(self).wf(),
            final(self)@.online == old(self)@.online,
            final(self)@.unpublished == old(self)@.unpublished,
            final(self)@.store == old(self)@.store,
            final(self)@.history == (match pages {
                Some(pages) => state::versions_with(
                    old(self)@.history,
                    state::write_views(writes@),
                    store::id_views(pages@),
                    timestamp.0,
                ),
                None => old(self)@.history,
            }),
            runs::is_step(old(self)@, final(self)@),
            state::finished(
                old(self)@.state,
                final(self)@.state,
                id.0,
                timestamp.0,
                state::write_views(writes@),
                state::optional_ids(pages),
            ),
    {
        let ghost before = self@;
        let ghost views = state::write_views(writes@);
        self.state.finish(id, timestamp, writes, pages);
        proof {
            match pages {
                Some(pages) => {
                    let ids = store::id_views(pages@);
                    self.history@ = state::versions_with(
                        before.history,
                        views,
                        ids,
                        timestamp.0,
                    );
                    assert forall|i: int| 0 <= i < views.len() implies history::stored(
                        before.store,
                        (#[trigger] views[i]).key,
                        VersionView { timestamp: timestamp.0, value: views[i].value, page: ids[i] },
                    ) by {
                        assert(views[i] == state::write_views(writes@)[i]);
                    }
                    history::law_commit_keeps_order(
                        before,
                        self@,
                        id.0,
                        timestamp.0,
                        views,
                        ids,
                    );
                    assert(runs::joins_history(before, self@, views, ids, timestamp.0));
                },
                None => {
                    history::law_abandon_keeps_order(before, self@, id.0, timestamp.0, views);
                },
            }
        }
    }

    /// Commits writes to distinct keys from a snapshot.
    pub(crate) fn commit_writes(
        &mut self,
        id: TransactionId,
        snapshot: Timestamp,
        writes: Vec<(Vec<u8>, Option<Vec<u8>>)>,
        prefixes: &Vec<Vec<u8>>,
    ) -> (result: Result<CommitResult, TransactionError>)
        requires
            old(self).wf(),
            old(self)@.state.oldest() <= snapshot.0 <= old(self)@.state.visible,
            state::write_keys(state::write_views(writes@)).no_duplicates(),
        ensures
            final(self).wf(),
            final(self)@.state.active == old(self)@.state.active,
            if writes@.len() == 0 {
                &&& result == Ok::<CommitResult, TransactionError>(
                    CommitResult { timestamp: None, writes: 0 },
                )
                &&& final(self)@ == old(self)@
            } else {
                match state::commit_refused(
                    old(self)@.state,
                    id.0,
                    snapshot.0,
                    state::write_keys(state::write_views(writes@)),
                    key_map::byte_views(prefixes@),
                ) {
                    Some(refusal) => {
                        &&& result matches Err(error)
                        &&& error@ == refusal
                        &&& final(self)@ == old(self)@
                    },
                    None => match result {
                        Ok(result) => {
                            &&& persists(
                                old(self)@.store,
                                state::write_views(writes@),
                                old(self)@.state.next_commit_timestamp,
                            )
                            &&& result.timestamp == Some(
                                Timestamp(old(self)@.state.next_commit_timestamp),
                            )
                            &&& result.writes == writes@.len()
                            &&& exists|pages: Seq<u64>|
                                #[trigger] history::is_commit(
                                    old(self)@,
                                    final(self)@,
                                    id.0,
                                    state::write_views(writes@),
                                    pages,
                                )
                        },
                        Err(error) => {
                            &&& final(self)@.history == old(self)@.history
                            &&& !persists(
                                old(self)@.store,
                                state::write_views(writes@),
                                old(self)@.state.next_commit_timestamp,
                            )
                            &&& persist_failed(
                                error@,
                                state::write_views(writes@),
                                old(self)@.state.next_commit_timestamp,
                                old(self)@.store,
                            )
                        },
                    },
                }
            },
            final(self)@.online == old(self)@.online,
            final(self)@.unpublished == (old(self)@.unpublished || (result is Ok && writes@.len()
                > 0)),
            runs::is_step(old(self)@, final(self)@),
            restart::pages_kept(old(self)@) && (result is Ok || !final(self)@.store.poisoned)
                ==> restart::pages_kept(final(self)@),
    {
        let ghost start = self@;
        let ghost views = state::write_views(writes@);
        let ghost names = state::write_keys(views);
        let count: usize = writes.len();
        if count == 0 {
            return Ok(CommitResult { timestamp: None, writes: 0 });
        }
        let mut keys: Vec<Vec<u8>> = Vec::new();
        let mut index: usize = 0;
        while index < writes.len()
            invariant
                index <= writes@.len(),
                views == state::write_views(writes@),
                keys@.len() == index,
                forall|i: int| 0 <= i < index ==> (#[trigger] keys@[i])@ == views[i].key,
            decreases writes@.len() - index,
        {
            keys.push(copy_bytes(writes[index].0.as_slice()));
            index = index + 1;
        }
        assert(key_map::byte_views(keys@) =~= names);
        let timestamp = match self.prepare_commit(id, snapshot, &keys, prefixes) {
            Ok(timestamp) => timestamp,
            Err(error) => {
                return Err(error);
            },
        };
        let ghost ready = self@;
        proof {
            history::lemma_writable(start, id.0, snapshot.0, views, timestamp.0);
        }
        match self.persist_commit(timestamp, writes.as_slice()) {
            Ok(page_ids) => {
                let ghost ids = store::id_views(page_ids@);
                self.finish_prepared(
                    id,
                    timestamp,
                    writes.as_slice(),
                    Some(page_ids.as_slice()),
                );
                self.mark_index(true);
                proof {
                    assert(history::is_commit(start, self@, id.0, views, ids));
                    runs::lemma_commit_joins(start, self@, id.0, views, ids);
                    if restart::pages_kept(start) {
                        restart::law_commit_keeps_pages(start, self@, views, ids, timestamp.0);
                    }
                }
                Ok(CommitResult { timestamp: Some(timestamp), writes: count })
            },
            Err(error) => {
                self.finish_prepared(id, timestamp, writes.as_slice(), None);
                proof {
                    if restart::pages_kept(start) && !self@.store.poisoned {
                        restart::lemma_pages_stay(start, self@);
                    }
                }
                Err(error)
            },
        }
    }
}

/// What an index build gave.
#[derive(Debug, Clone, Copy, PartialEq, Eq)]
pub struct IndexBuildResult {
    pub timestamp: Timestamp,
    pub root: Option<IndexRoot>,
}

/// Whether a plan, once its writes are made, is an index with the page of every live value.
pub open spec fn plan_is_current(db: DatabaseView, planned: plan::PlanView) -> bool {
    forall|k: Seq<u8>| #[trigger]
        model::find(plan::plan_entries(db.store, planned), k) == state::live_page(
            state::versions_of(db.history, k),
            db.state.visible,
        )
}

/// The newest generation at the newest visible timestamp is current.
proof fn lemma_newest_is_current(db: DatabaseView)
    requires
        history::in_order(db),
        db.state.generations.len() > 0,
        db.state.generations.last().timestamp.0 == db.state.visible,
    ensures
        history::is_current_index(db, db.state.generations.last().root),
{
    let last = db.state.generations.last();
    assert(db.state.generations[db.state.generations.len() - 1] == last);
    assert(history::generation_kept(db, last));
    history::lemma_oldest_visible(db.state);
    assert forall|k: Seq<u8>| #[trigger]
        model::find(plan::index_entries(db.store, last.root), k) == state::live_page(
            state::versions_of(db.history, k),
            db.state.visible,
        ) by {
        assert(history::covered(
            state::versions_of(db.history, k),
            state::versions_of(db.state.versions, k),
            db.state.oldest(),
            model::find(plan::index_entries(db.store, last.root), k),
            last.timestamp.0,
        ));
    }
}

/// Whether changes bring an index from its timestamp up to what is visible.
pub open spec fn is_catch_up(db: DatabaseView, mutations: Seq<plan::MutationView>) -> bool {
    forall|entries: Seq<EntryView>, k: Seq<u8>| #[trigger]
        plan::value_after(entries, mutations, k) == (match state::index_change(
            db.state,
            db.state.generations.last().timestamp.0,
            db.state.visible,
            k,
        ) {
            Some(value) => value,
            None => model::find(entries, k),
        })
}

/// Whether entries are those of every value that is visible.
pub open spec fn is_live_list(db: DatabaseView, entries: Seq<EntryView>) -> bool {
    &&& node::keys_rise(entries)
    &&& forall|k: Seq<u8>| #[trigger]
        model::find(entries, k) == state::live_page(
            state::versions_of(db.state.versions, k),
            db.state.visible,
        )
}

/// Why an index over what is visible could not be planned; `reached` is the store afterwards.
pub open spec fn plan_failed(
    db: DatabaseView,
    reached: StoreView,
    error: TransactionErrorView,
) -> bool {
    error matches TransactionErrorView::Index(error) && if db.state.generations.len() > 0 {
        exists|mutations: Seq<plan::MutationView>|
            #![trigger is_catch_up(db, mutations)]
            is_catch_up(db, mutations) && tree::edit_refused(
                db.store,
                db.state.generations.last().root,
                mutations,
                error,
                reached,
            )
    } else {
        exists|entries: Seq<EntryView>|
            #![trigger is_live_list(db, entries)]
            is_live_list(db, entries) && (tree::entries_refused(entries) == Some(error) || (
            tree::entries_refused(entries) is None && (editor::pages_refused(
                error,
                db.store,
                entries.len(),
            ) || editor::out_of_pages(error, reached))))
    }
}

/// The page writes of a planned index with its manifest.
pub open spec fn generation_writes(
    planned: plan::PlanView,
    timestamp: u64,
    page_id: u64,
) -> Seq<PageWriteView> {
    planned.writes.push(
        PageWriteView { page_id, payload: manifest::manifest_image(timestamp, planned.root) },
    )
}

/// Why a planned index could not be stored: the store takes no writes any more, page numbers are
/// used up, or the store does not take the batch.
pub open spec fn store_failed(
    store: StoreView,
    planned: plan::PlanView,
    timestamp: u64,
    error: TransactionErrorView,
) -> bool {
    if store.poisoned {
        error == TransactionErrorView::Storage(StorageErrorView::Poisoned)
    } else if !has_numbers(store, 1) {
        error == TransactionErrorView::Storage(
            StorageErrorView::Configuration("page ID space exhausted"@),
        )
    } else {
        !group_commit::batch_taken(
            store::store_reserved(store, 1),
            generation_writes(planned, timestamp, store::reserved_ids(store, 1)[0]),
        ) && error == TransactionErrorView::Storage(
            group_commit::batch_refused(
                store::store_reserved(store, 1),
                generation_writes(planned, timestamp, store::reserved_ids(store, 1)[0]),
            ),
        )
    }
}

/// Whether all that a store asks of the files beyond what it asked for before is to append to the log:
/// no sync, and no page written before its log record is durable.
pub open spec fn only_logged(before: StoreView, after: StoreView) -> bool {
    &&& after.ops.len() == before.ops.len() + 1
    &&& after.ops.drop_last() == before.ops
    &&& after.ops.last() is WalAppend
}

/// Whether the newest index generation is of all that is visible.
pub open spec fn index_is_newest(db: DatabaseView) -> bool {
    db.state.generations.len() > 0 && db.state.generations.last().timestamp.0 == db.state.visible
}

/// Why an index over what is visible could not be built.
pub open spec fn build_failed(db: DatabaseView, error: TransactionErrorView) -> bool {
    ||| exists|reached: StoreView| #[trigger] plan_failed(db, reached, error)
    ||| exists|reached: StoreView, planned: plan::PlanView| #[trigger]
        plan::plan_holds(db.store, reached, planned) && plan_is_current(
            DatabaseView { store: reached, ..db },
            planned,
        ) && store_failed(reached, planned, db.state.visible, error)
}

impl MvccDatabase {
    /// Plans an index over the values that are visible now.
    fn plan_generation(&mut self) -> (planned: Result<plan::IndexBuildPlan, TransactionError>)
        requires
            old(self).wf(),
        ensures
            final(self).wf(),
            final(self).record_cache == old(self).record_cache,
            final(self)@ == (DatabaseView { store: final(self)@.store, ..old(self)@ }),
            final(self)@.store == (StoreView {
                next_page_id: final(self)@.store.next_page_id,
                free: final(self)@.store.free,
                ..old(self)@.store
            }),
            forall|id: u64|
                store::is_live(old(self)@.store, id) ==> #[trigger] store::is_live(
                    final(self)@.store,
                    id,
                ),
            match planned {
                Ok(planned) => {
                    &&& plan::plan_holds(old(self)@.store, final(self)@.store, planned@)
                    &&& plan_is_current(final(self)@, planned@)
                },
                Err(error) => plan_failed(old(self)@, final(self)@.store, error@),
            },
    {
        let ghost start = self@;
        let ghost before = self.storage@.store;
        let timestamp = self.state.visible_through();
        match self.state.latest_generation() {
            Some(generation) => {
                proof {
                    let generations = start.state.generations;
                    assert(generations[generations.len() - 1] == generation);
                    assert(history::generation_kept(start, generation));
                }
                let mutations = self.state.index_mutations(generation.timestamp, timestamp);
                let ghost views = plan::mutation_views(mutations@);
                let planned = BPlusTree::edit_plan(
                    &mut self.storage,
                    &mut self.node_cache,
                    generation.root,
                    mutations,
                );
                proof {
                    let now = self.storage@.store;
                    assert(history::only_fresh_written(before, now));
                    history::law_fresh_writes_keep_order(start, self@);
                    lemma_records_stay(self.record_cache@, before, now);
                    if planned is Ok {
                        let made = planned->Ok_0;
                        assert forall|k: Seq<u8>| #[trigger]
                            model::find(plan::plan_entries(now, made@), k) == state::live_page(
                                state::versions_of(start.history, k),
                                start.state.visible,
                            ) by {
                            let entries = plan::index_entries(before, generation.root);
                            assert(plan::value_after(entries, views, k) == (
                            match state::index_change(
                                start.state,
                                generation.timestamp.0,
                                timestamp.0,
                                k,
                            ) {
                                Some(value) => value,
                                None => model::find(entries, k),
                            }));
                            history::law_next_index_is_current(start, k);
                        }
                    }
                }
                match planned {
                    Ok(made) => Ok(made),
                    Err(error) => {
                        assert(is_catch_up(start, views));
                        Err(TransactionError::Index(error))
                    },
                }
            },
            None => {
                let entries = self.state.live_entries(timestamp);
                let ghost views = node::entry_views(entries@);
                let planned = BPlusTree::plan(&mut self.storage, entries);
                proof {
                    let now = self.storage@.store;
                    assert(history::only_fresh_written(before, now));
                    history::law_fresh_writes_keep_order(start, self@);
                    lemma_nodes_stay(self.node_cache@, before, now);
                    lemma_records_stay(self.record_cache@, before, now);
                    if planned is Ok {
                        let made = planned->Ok_0;
                        assert forall|k: Seq<u8>| #[trigger]
                            model::find(plan::plan_entries(now, made@), k) == state::live_page(
                                state::versions_of(start.history, k),
                                start.state.visible,
                            ) by {
                            history::law_first_index_is_current(start, views, k);
                        }
                    }
                }
                match planned {
                    Ok(made) => Ok(made),
                    Err(error) => {
                        assert(is_live_list(start, views));
                        Err(TransactionError::Index(error))
                    },
                }
            },
        }
    }

    /// Writes the nodes of a planned index and its manifest, in one batch that becomes durable with
    /// the next commit.
    ///
    /// Should a crash undo the batch, the generation before it is the newest, and the versions since
    /// then, which stand in the store, are indexed anew.
    #[verifier::rlimit(100)]
    fn store_generation(
        &mut self,
        planned: plan::IndexBuildPlan,
        Ghost(before): Ghost<StoreView>,
    ) -> (generation: Result<IndexGeneration, TransactionError>)
        requires
            old(self).wf(),
            plan::plan_holds(before, old(self)@.store, planned@),
            plan_is_current(old(self)@, planned@),
            history::in_order(DatabaseView { store: before, ..old(self)@ }),
            before.wf(),
            read::cache_true(old(self).node_cache@, before),
            records_true(old(self).record_cache@, before),
            old(self)@.store == (StoreView {
                next_page_id: old(self)@.store.next_page_id,
                free: old(self)@.store.free,
                ..before
            }),
            forall|id: u64|
                store::is_live(before, id) ==> #[trigger] store::is_live(old(self)@.store, id),
        ensures
            final(self).wf(),
            final(self)@ == (DatabaseView { store: final(self)@.store, ..old(self)@ }),
            match generation {
                Ok(generation) => {
                    &&& generation.timestamp.0 == old(self)@.state.visible
                    &&& generation.root == planned@.root
                    &&& history::is_current_index(final(self)@, generation.root)
                    &&& history::page_manifest(
                        final(self)@.store,
                        generation.manifest_page_id.0,
                    ) == Some((generation.timestamp.0, generation.root))
                    &&& store::is_live(final(self)@.store, generation.manifest_page_id.0)
                    &&& !store::is_live(before, generation.manifest_page_id.0)
                    &&& restart::generation_stored(before, final(self)@.store, generation)
                    &&& only_logged(before, final(self)@.store)
                },
                Err(error) => {
                    &&& store_failed(old(self)@.store, planned@, old(self)@.state.visible, error@)
                    &&& !final(self)@.store.poisoned ==> forall|id: u64| #[trigger]
                        final(self)@.store.read(id) == before.read(id)
                },
            },
    {
        let ghost start = self@;
        let ghost base = DatabaseView { store: before, ..start };
        let ghost now = self.storage@.store;
        let ghost view = planned@;
        let timestamp = self.state.visible_through();
        let root = planned.root();
        let reserved = self.storage.reserve_page_ids(1);
        let ghost middle = self.storage@.store;
        proof {
            if reserved is Ok {
                store::law_reserved_are_fresh(now, 1);
            }
            assert(history::only_fresh_written(now, middle));
            history::law_fresh_writes_keep_order(start, self@);
            lemma_nodes_stay(self.node_cache@, now, middle);
            lemma_records_stay(self.record_cache@, now, middle);
        }
        let manifest_page_id = match reserved {
            Ok(ids) => {
                assert(store::id_views(ids@).len() == 1);
                assert(store::id_views(ids@)[0] == ids@[0].0);
                assert(store::id_views(ids@).contains(ids@[0].0));
                ids[0]
            },
            Err(error) => {
                return Err(TransactionError::Storage(error));
            },
        };
        assert(!store::is_live(now, manifest_page_id.0));
        assert(store::is_live(middle, manifest_page_id.0));
        let generation = IndexGeneration { timestamp, root, manifest_page_id };
        let mut writes = planned.into_writes();
        let ghost nodes = writes@;
        let image = generation.encode();
        proof {
            lemma_root_storable(now, view);
            manifest::law_manifest_round_trip(timestamp.0, root);
        }
        writes.push(PageWrite { page_id: manifest_page_id, payload: image });
        let ghost given = writes@;
        let ghost batch = store::write_views(writes@);
        let committed = self.storage.commit_relaxed(writes);
        let ghost after = self.storage@.store;
        proof {
            assert forall|i: int| 0 <= i < nodes.len() implies #[trigger] given[i] == nodes[i]
                && batch[i] == view.writes[i] by {}
            assert forall|i: int| 0 <= i < given.len() implies !store::is_live(
                before,
                (#[trigger] given[i]).page_id.0,
            ) && store::is_live(middle, given[i].page_id.0) by {
                if i < nodes.len() {
                    assert(given[i]@ == view.writes[i]);
                    assert(store::is_live(now, view.writes[i].page_id));
                }
            }
            lemma_commit_fresh(before, middle, after, given);
            history::law_fresh_writes_keep_order(base, DatabaseView { store: after, ..start });
            lemma_nodes_stay(self.node_cache@, before, after);
            lemma_records_stay(self.record_cache@, before, after);
        }
        assert(batch =~= generation_writes(view, timestamp.0, manifest_page_id.0));
        match committed {
            Err(error) => {
                proof {
                    assert forall|i: int| 0 <= i < batch.len() implies page::fits_page(
                        (#[trigger] batch[i]).payload,
                    ) by {
                        if i < nodes.len() {
                            assert(batch[i] == view.writes[i]);
                        }
                    }
                }
                Err(TransactionError::Storage(error))
            },
            Ok(_) => {
                proof {
                    assert(batch[nodes.len() as int] == PageWriteView {
                        page_id: manifest_page_id.0,
                        payload: image@,
                    });
                    assert(given[nodes.len() as int]@ == batch[nodes.len() as int]);
                    group_commit::law_relaxed_reads(middle, batch, nodes.len() as int);
                    lemma_planned(before, now, middle, after, view, batch);
                    lemma_only_logged(middle, batch);
                    assert forall|id: u64|
                        id == manifest_page_id.0 || #[trigger] after.read(id) == before.read(id)
                            || model::store_nodes(after).contains_key(id) by {
                        if exists|i: int|
                            0 <= i < given.len() && (#[trigger] given[i]).page_id.0 == id {
                            let i = choose|i: int|
                                0 <= i < given.len() && (#[trigger] given[i]).page_id.0 == id;
                            if i < nodes.len() {
                                assert(given[i]@ == batch[i]);
                                assert(batch[i] == view.writes[i]);
                                assert forall|j: int| i < j < batch.len() implies (
                                #[trigger] batch[j]).page_id != batch[i].page_id by {
                                    if j < nodes.len() {
                                        assert(batch[j] == view.writes[j]);
                                    }
                                }
                                group_commit::law_relaxed_reads(middle, batch, i);
                            }
                        } else {
                            assert(after.read(id) == middle.read(id));
                        }
                    }
                }
                Ok(generation)
            },
        }
    }
}

/// A batch that waits for the next sync is only appended to the log.
proof fn lemma_only_logged(store: StoreView, writes: Seq<PageWriteView>)
    ensures
        only_logged(store, store::store_relaxed(store, writes)),
{
    assert(store::store_relaxed(store, writes).ops.drop_last() =~= store.ops);
}

/// The root of a plan can stand in a manifest.
proof fn lemma_root_storable(now: StoreView, planned: plan::PlanView)
    requires
        plan::root_holds(
            plan::planned_nodes(now, planned.writes),
            model::live_pages(now),
            planned.root,
        ),
    ensures
        manifest::root_storable(planned.root),
{
    if let Some(root) = planned.root {
        model::lemma_tree_sorted(
            plan::planned_nodes(now, planned.writes),
            model::live_pages(now),
            root.page_id.0,
            (root.height - 1) as nat,
            None,
            None,
        );
    }
}

/// Once a batch that ends with a manifest is committed, the planned index is there.
proof fn lemma_planned(
    before: StoreView,
    now: StoreView,
    middle: StoreView,
    after: StoreView,
    planned: plan::PlanView,
    batch: Seq<PageWriteView>,
)
    requires
        plan::plan_holds(before, now, planned),
        middle.wf(),
        group_commit::batch_taken(middle, batch),
        after == store::store_relaxed(middle, batch),
        batch.len() == planned.writes.len() + 1,
        forall|i: int| 0 <= i < planned.writes.len() ==> #[trigger] batch[i] == planned.writes[i],
        !store::is_live(now, batch.last().page_id),
        forall|id: u64| store::is_live(now, id) ==> #[trigger] store::is_live(after, id),
        forall|id: u64| #[trigger] middle.read(id) == now.read(id),
        forall|id: u64|
            (forall|i: int| 0 <= i < batch.len() ==> (#[trigger] batch[i]).page_id != id)
                ==> #[trigger] after.read(id) == middle.read(id),
    ensures
        plan::index_holds(after, planned.root),
        plan::index_entries(after, planned.root) == plan::plan_entries(now, planned),
{
    let last = planned.writes.len() as int;
    assert(batch[last] == batch.last());
    assert forall|id: u64|
        store::is_live(now, id) && (forall|i: int|
            0 <= i < planned.writes.len() ==> (#[trigger] planned.writes[i]).page_id
                != id) implies #[trigger] after.read(id) == now.read(id) by {
        assert forall|i: int| 0 <= i < batch.len() implies (#[trigger] batch[i]).page_id != id by {
            if i < last {
                assert(batch[i] == planned.writes[i]);
            }
        }
        assert(after.read(id) == middle.read(id));
        assert(middle.read(id) == now.read(id));
    }
    assert forall|i: int| 0 <= i < planned.writes.len() implies (after.read(
        (#[trigger] planned.writes[i]).page_id,
    ) matches Ok(Some(found)) && found.payload == planned.writes[i].payload) by {
        assert(batch[i] == planned.writes[i]);
        assert forall|j: int| i < j < batch.len() implies (#[trigger] batch[j]).page_id
            != batch[i].page_id by {
            if j < last {
                assert(batch[j] == planned.writes[j]);
                assert(planned.writes[i].page_id != planned.writes[j].page_id);
            } else {
                assert(store::is_live(now, planned.writes[i].page_id));
            }
        }
        group_commit::law_relaxed_reads(middle, batch, i);
    }
    plan::law_plan_completes(before, now, planned, after);
}

/// A cache of records after those of the first `count` writes of a commit that have values were put
/// in it one after the other, each under its page and for the size that it has there.
pub open spec fn writes_cached(
    cache: LruView<RecordView>,
    timestamp: u64,
    writes: Seq<WriteView>,
    pages: Seq<u64>,
    count: nat,
) -> LruView<RecordView>
    decreases count,
{
    if count == 0 {
        cache
    } else {
        let before = writes_cached(cache, timestamp, writes, pages, (count - 1) as nat);
        let write = writes[count - 1];
        if write.value is Some {
            byte_lru::lru_inserted(
                before,
                LruEntryView {
                    page_id: pages[count - 1],
                    value: RecordView { timestamp, key: write.key, value: write.value },
                    bytes: record::record_size(write.key, write.value) as usize,
                },
            )
        } else {
            before
        }
    }
}

/// Entries but those of some pages.
spec fn lru_spared(before: LruView<VersionRecord>, after: LruView<VersionRecord>, pages: Seq<u64>) -> bool {
    &&& forall|entry: LruEntryView<VersionRecord>| #[trigger]
        after.entries.contains(entry) ==> before.entries.contains(entry)
    &&& forall|i: int|
        0 <= i < after.entries.len() ==> !pages.contains((#[trigger] after.entries[i]).page_id)
}

impl MvccDatabase {
    /// Takes pages out of the cache of records.
    fn uncache(&mut self, pages: &Vec<PageId>)
        requires
            old(self).record_cache.wf(),
        ensures
            final(self).record_cache.wf(),
            *final(self) == (MvccDatabase {
                record_cache: final(self).record_cache,
                ..*old(self)
            }),
            lru_spared(
                old(self).record_cache@,
                final(self).record_cache@,
                store::id_views(pages@),
            ),
    {
        let ghost ids = store::id_views(pages@);
        let ghost start = self.record_cache@;
        let mut index: usize = 0;
        assert(ids.take(0) =~= Seq::empty());
        while index < pages.len()
            invariant
                index <= pages@.len(),
                ids == store::id_views(pages@),
                start == old(self).record_cache@,
                self.record_cache.wf(),
                *self == (MvccDatabase { record_cache: self.record_cache, ..*old(self) }),
                lru_spared(start, self.record_cache@, ids.take(index as int)),
            decreases pages@.len() - index,
        {
            let ghost before = self.record_cache@;
            let page_id = pages[index];
            proof {
                self.record_cache.lemma_wf();
                byte_lru::lemma_without(before.entries, page_id.0);
            }
            self.record_cache.remove(page_id);
            proof {
                let after = self.record_cache@;
                let part = ids.take(index as int);
                let more = ids.take(index + 1);
                assert(more =~= part.push(page_id.0));
                assert forall|i: int| 0 <= i < after.entries.len() implies !more.contains(
                    (#[trigger] after.entries[i]).page_id,
                ) by {
                    let id = after.entries[i].page_id;
                    assert(after.entries.contains(after.entries[i]));
                    assert(before.entries.contains(after.entries[i]));
                    let j = choose|j: int|
                        0 <= j < before.entries.len() && before.entries[j] == after.entries[i];
                    assert(!part.contains(before.entries[j].page_id));
                    if more.contains(id) {
                        let m = choose|m: int| 0 <= m < more.len() && more[m] == id;
                        if m < part.len() {
                            assert(part[m] == id);
                        }
                    }
                }
            }
            index = index + 1;
        }
        assert(ids.take(index as int) =~= ids);
    }

    /// Drops what no snapshot needs and gives its pages back for reuse.
    fn reclaim(&mut self)
        requires
            old(self).wf(),
        ensures
            final(self).wf(),
            history::is_reclaim(old(self)@, final(self)@),
    {
        let ghost before = self@;
        let freed = self.state.reclaim_covered();
        let ghost dropped = self@;
        // A page that is reused must not be found in the cache with what it held before.
        self.uncache(&freed);
        self.storage.release_pages(freed.as_slice());
        proof {
            let after = self@;
            assert(after.store == StoreView { free: after.store.free, ..before.store });
            assert forall|id: u64| #[trigger] store::is_live(after.store, id) <==> store::is_live(
                before.store,
                id,
            ) && !state::page_freed(before.state, id) by {
                assert(store::id_views(freed@).contains(id) <==> state::page_freed(
                    before.state,
                    id,
                ));
            }
            assert(history::is_reclaim(before, after));
            history::law_reclaim_keeps_order(before, after);
            read::lemma_cache_true_frame(self.node_cache@, before.store, after.store);
            let cache = self.record_cache@;
            assert(records_true(cache, before.store)) by {
                lemma_records_members(old(self).record_cache@, cache, before.store);
            }
            assert forall|i: int| 0 <= i < cache.entries.len() implies store::is_live(
                after.store,
                (#[trigger] cache.entries[i]).page_id,
            ) && history::page_record(after.store, cache.entries[i].page_id) == Some(
                cache.entries[i].value@,
            ) by {
                let id = cache.entries[i].page_id;
                assert(store::is_live(before.store, id));
                assert(!store::id_views(freed@).contains(id));
                assert(store::is_live(after.store, id));
                assert(after.store.read(id) == before.store.read(id));
            }
        }
    }

    /// Makes a stored generation the newest, and drops what is then not needed.
    fn publish(&mut self, generation: IndexGeneration)
        requires
            old(self).wf(),
            history::is_current_index(old(self)@, generation.root),
            generation.timestamp.0 == old(self)@.state.visible,
            history::indexed_through(old(self)@.state.generations) < old(self)@.state.visible
                || old(self)@.state.generations.len() == 0,
            history::page_manifest(old(self)@.store, generation.manifest_page_id.0) == Some(
                (generation.timestamp.0, generation.root),
            ),
            store::is_live(old(self)@.store, generation.manifest_page_id.0),
            forall|i: int|
                0 <= i < old(self)@.state.generations.len() ==> (
                #[trigger] old(self)@.state.generations[i]).manifest_page_id
                    != generation.manifest_page_id,
        ensures
            final(self).wf(),
            final(self)@.online == old(self)@.online,
            final(self)@.unpublished == old(self)@.unpublished,
            final(self)@.history == old(self)@.history,
            final(self)@.state.visible == old(self)@.state.visible,
            final(self)@.state.active == old(self)@.state.active,
            final(self)@.state.intents == old(self)@.state.intents,
            final(self)@.state.next_commit_timestamp == old(self)@.state.next_commit_timestamp,
            final(self)@.state.generations.len() > 0,
            final(self)@.state.generations.last() == generation,
            final(self)@.store.ops == old(self)@.store.ops,
            forall|id: u64| #[trigger] final(self)@.store.read(id) == old(self)@.store.read(id),
    {
        let ghost before = self@;
        self.state.publish_generation(generation);
        self.state.settle_dirty(generation.timestamp);
        proof {
            let generations = before.state.generations;
            state::lemma_generation_rank(generations, generation);
            if generations.len() > 0 {
                assert(generations[generations.len() - 1] == generations.last());
            }
            assert(state::generations_with(generations, generation) =~= generations.push(
                generation,
            ));
            history::law_publish_keeps_order(before, self@, generation);
        }
        let ghost published = self@;
        self.reclaim();
        proof {
            state::lemma_cover_count_bound(
                published.state.generations,
                published.state.oldest(),
            );
        }
    }

    /// Brings the index up to the newest visible commit, if it is not there already.
    ///
    /// A new index is read from at once, and becomes durable with the next commit.
    #[verifier::rlimit(60)]
    pub fn rebuild_index(&mut self) -> (result: Result<IndexBuildResult, TransactionError>)
        requires
            old(self).wf(),
        ensures
            final(self).wf(),
            final(self)@.history == old(self)@.history,
            final(self)@.state.visible == old(self)@.state.visible,
            final(self)@.state.active == old(self)@.state.active,
            final(self)@.online == old(self)@.online,
            final(self)@.state.intents == old(self)@.state.intents,
            final(self)@.state.next_commit_timestamp == old(self)@.state.next_commit_timestamp,
            match result {
                Ok(result) => {
                    &&& result.timestamp.0 == old(self)@.state.visible
                    &&& final(self)@.state.generations.len() > 0
                    &&& final(self)@.state.generations.last().timestamp == result.timestamp
                    &&& final(self)@.state.generations.last().root == result.root
                    &&& history::is_current_index(final(self)@, result.root)
                    &&& index_is_newest(final(self)@)
                    &&& result.root matches Some(root) ==> root.entries == history::live_keys(
                        old(self)@,
                    ).len()
                    &&& result.root is None <==> history::live_keys(old(self)@).is_empty()
                    &&& index_is_newest(old(self)@) ==> final(self)@ == old(self)@ && result.root
                        == old(self)@.state.generations.last().root
                    &&& !index_is_newest(old(self)@) ==> !final(self)@.unpublished && only_logged(
                        old(self)@.store,
                        final(self)@.store,
                    )
                },
                Err(error) => {
                    &&& final(self)@.state == old(self)@.state
                    &&& final(self)@.unpublished == old(self)@.unpublished
                    &&& build_failed(old(self)@, error@)
                    &&& history::indexed_through(old(self)@.state.generations)
                        != old(self)@.state.visible || old(self)@.state.generations.len() == 0
                },
            },
            restart::pages_kept(old(self)@) && restart::reached(
                old(self)@.history,
                old(self)@.state.visible,
            ) && (result is Ok || !final(self)@.store.poisoned) ==> restart::pages_kept(
                final(self)@,
            ),
    {
        let ghost start = self@;
        let timestamp = self.state.visible_through();
        if let Some(generation) = self.state.latest_generation() {
            if generation.timestamp.0 == timestamp.0 {
                proof {
                    lemma_newest_is_current(start);
                    history::law_index_counts_live_keys(start, generation.root);
                }
                return Ok(IndexBuildResult { timestamp, root: generation.root });
            }
        }
        proof {
            let generations = start.state.generations;
            if generations.len() > 0 {
                assert(history::generation_kept(start, generations[generations.len() - 1]));
            }
        }
        let planned = match self.plan_generation() {
            Ok(planned) => planned,
            Err(error) => {
                proof {
                    if restart::pages_kept(start) {
                        restart::lemma_pages_stay(start, self@);
                    }
                }
                return Err(error);
            },
        };
        let ghost now = self@;
        proof {
            read::lemma_cache_true_frame(self.node_cache@, now.store, start.store);
        }
        let ghost view = planned@;
        let generation = match self.store_generation(planned, Ghost(start.store)) {
            Ok(generation) => generation,
            Err(error) => {
                proof {
                    assert(plan::plan_holds(start.store, now.store, view));
                    assert(now =~= DatabaseView { store: now.store, ..start });
                    if restart::pages_kept(start) && !self@.store.poisoned {
                        restart::lemma_pages_stay(start, self@);
                    }
                }
                return Err(error);
            },
        };
        let ghost stored = self@;
        proof {
            assert forall|i: int| 0 <= i < start.state.generations.len() implies (
            #[trigger] start.state.generations[i]).manifest_page_id
                != generation.manifest_page_id by {
                assert(history::generation_kept(start, start.state.generations[i]));
            }
        }
        self.publish(generation);
        self.mark_index(false);
        proof {
            lemma_newest_is_current(self@);
            history::law_index_counts_live_keys(self@, generation.root);
            assert(history::live_keys(self@) =~= history::live_keys(start));
            if restart::pages_kept(start) && restart::reached(start.history, start.state.visible) {
                assert(restart::generation_stored(start.store, self@.store, generation)) by {
                    restart::lemma_stored_reads(
                        start.store,
                        stored.store,
                        self@.store,
                        generation,
                    );
                }
                restart::law_publish_keeps_pages(start, self@, generation);
            }
        }
        Ok(IndexBuildResult { timestamp, root: generation.root })
    }

    /// Brings the index up to date and empties the log.
    pub fn checkpoint(&mut self) -> (timestamp: Result<Timestamp, TransactionError>)
        requires
            old(self).wf(),
        ensures
            final(self).wf(),
            final(self)@.history == old(self)@.history,
            final(self)@.state.visible == old(self)@.state.visible,
            final(self)@.state.active == old(self)@.state.active,
            final(self)@.online == old(self)@.online,
            final(self)@.unpublished == old(self)@.unpublished || (!index_is_newest(old(self)@)
                && !final(self)@.unpublished),
            timestamp is Ok && !index_is_newest(old(self)@) ==> !final(self)@.unpublished,
            match timestamp {
                Ok(timestamp) => {
                    &&& timestamp.0 == old(self)@.state.visible
                    &&& final(self)@.state.generations.len() > 0
                    &&& final(self)@.state.generations.last().timestamp == timestamp
                    &&& final(self)@.store.wal.size == 0
                    &&& final(self)@.store.held.len() == 0
                },
                Err(error) => build_failed(old(self)@, error@) || (final(self)@.store.poisoned && (
                error@ == TransactionErrorView::Storage(StorageErrorView::Poisoned) || (
                !wal::wal_has_room(final(self)@.store.wal, 0) && error@
                    == TransactionErrorView::Storage(wal::wal_full(final(self)@.store.wal))))),
            },
            restart::pages_kept(old(self)@) && restart::reached(
                old(self)@.history,
                old(self)@.state.visible,
            ) && (timestamp is Ok || !final(self)@.store.poisoned) ==> restart::pages_kept(
                final(self)@,
            ),
    {
        let built = match self.rebuild_index() {
            Ok(built) => built,
            Err(error) => {
                return Err(error);
            },
        };
        let ghost before = self@;
        let done = self.storage.checkpoint();
        proof {
            let after = self@;
            assert forall|id: u64| #[trigger] store::is_live(after.store, id) == store::is_live(
                before.store,
                id,
            ) by {}
            assert(history::only_fresh_written(before.store, after.store)) by {
                assert forall|id: u64| after.store.read(id) == before.store.read(id) by {}
            }
            if restart::pages_kept(before) {
                restart::lemma_pages_stay(before, after);
            }
            history::law_fresh_writes_keep_order(before, after);
            lemma_nodes_stay(self.node_cache@, before.store, after.store);
            lemma_records_stay(self.record_cache@, before.store, after.store);
        }
        match done {
            Ok(_) => Ok(built.timestamp),
            Err(error) => Err(TransactionError::Storage(error)),
        }
    }

    /// Notes whether there are commits that no generation has been published for.
    fn mark_index(&mut self, unpublished: bool)
        requires
            old(self).wf(),
        ensures
            final(self).wf(),
            final(self)@ == (DatabaseView { unpublished, ..old(self)@ }),
    {
        let ghost before = self@;
        self.index_dirty = unpublished;
        proof {
            history::lemma_flags_aside(before, self@);
        }
    }

    /// Whether commits since the last build should be published without being asked for.
    pub fn needs_publication(&self) -> (needed: bool)
        ensures
            needed == (self@.online && self@.unpublished),
    {
        self.online_index && self.index_dirty
    }

    /// What has to be done to the files, in order.
    pub fn take_ops(&mut self) -> (ops: Vec<FileOp>)
        requires
            old(self).wf(),
        ensures
            final(self).wf(),
            store::op_views(ops@) == old(self)@.store.ops,
            final(self)@ == (DatabaseView {
                store: StoreView { ops: Seq::empty(), ..old(self)@.store },
                ..old(self)@
            }),
    {
        let ghost before = self@;
        let ops = self.storage.take_ops();
        proof {
            let after = self@;
            assert(history::only_fresh_written(before.store, after.store));
            history::law_fresh_writes_keep_order(before, after);
            lemma_nodes_stay(self.node_cache@, before.store, after.store);
            lemma_records_stay(self.record_cache@, before.store, after.store);
        }
        ops
    }

    /// Stops the store from taking writes, because an operation on the files failed.
    pub fn poison(&mut self)
        requires
            old(self).wf(),
        ensures
            final(self).wf(),
            final(self)@ == (DatabaseView {
                store: StoreView { poisoned: true, ..old(self)@.store },
                ..old(self)@
            }),
    {
        let ghost before = self@;
        self.storage.poison();
        proof {
            let after = self@;
            assert(history::only_fresh_written(before.store, after.store));
            history::law_fresh_writes_keep_order(before, after);
            lemma_nodes_stay(self.node_cache@, before.store, after.store);
            lemma_records_stay(self.record_cache@, before.store, after.store);
        }
    }
}

/// Counts of what a database holds and did.
#[derive(Debug, Clone, Copy, PartialEq, Eq)]
pub struct MvccStats {
    pub visible_through: Timestamp,
    pub keys: usize,
    pub versions: usize,
    pub active_transactions: usize,
    pub write_intents: usize,
    pub indexed_through: Option<Timestamp>,
    pub index_height: Option<u16>,
    pub indexed_keys: u64,
    pub reclaimed_versions: u64,
    /// Pages waiting for reuse.
    pub free_pages: usize,
    pub index_cache: NodeCacheStats,
    pub record_cache: ByteCacheStats,
    pub group_commit: GroupCommitStats,
}

impl MvccDatabase {
    /// Counts of what the database holds and did.
    pub fn stats(&self) -> (stats: MvccStats)
        requires
            self.wf(),
        ensures
            stats.visible_through.0 == self@.state.visible,
            stats.keys == key_map::ordered_keys(self@.state.versions).len(),
            stats.versions == if state::total_versions(self@.state.versions) > usize::MAX {
                usize::MAX as nat
            } else {
                state::total_versions(self@.state.versions)
            },
            stats.active_transactions == self@.state.active.len(),
            stats.write_intents == key_map::ordered_keys(self@.state.intents).len(),
            stats.reclaimed_versions == self@.state.reclaimed,
            stats.free_pages == self@.store.free.len(),
            stats.group_commit == self.handle().stats,
            stats.index_cache.hits == self.nodes_cached().hits,
            stats.index_cache.misses == self.nodes_cached().misses,
            stats.index_cache.entries == self.nodes_cached().entries.len(),
            stats.index_cache.bytes == byte_lru::lru_bytes(self.nodes_cached().entries),
            stats.record_cache.hits == self.records_cached().hits,
            stats.record_cache.misses == self.records_cached().misses,
            stats.record_cache.entries == self.records_cached().entries.len(),
            stats.record_cache.bytes == byte_lru::lru_bytes(self.records_cached().entries),
            if self@.state.generations.len() == 0 {
                stats.indexed_through is None && stats.index_height is None && stats.indexed_keys
                    == 0
            } else {
                let last = self@.state.generations.last();
                &&& stats.indexed_through == Some(last.timestamp)
                &&& match last.root {
                    Some(root) => stats.index_height == Some(root.height) && stats.indexed_keys
                        == root.entries,
                    None => stats.index_height is None && stats.indexed_keys == 0,
                }
            },
    {
        proof {
            byte_lru::lemma_bytes_seen(self.record_cache@.entries);
        }
        let latest = self.state.latest_generation();
        let (indexed_through, root): (Option<Timestamp>, Option<IndexRoot>) = match latest {
            Some(generation) => (Some(generation.timestamp), generation.root),
            None => (None, None),
        };
        let (index_height, indexed_keys): (Option<u16>, u64) = match root {
            Some(root) => (Some(root.height), root.entries),
            None => (None, 0),
        };
        MvccStats {
            visible_through: self.state.visible_through(),
            keys: self.state.key_count(),
            versions: self.state.version_count(),
            active_transactions: self.state.active_count(),
            write_intents: self.state.intent_count(),
            indexed_through,
            index_height,
            indexed_keys,
            reclaimed_versions: self.state.reclaimed_count(),
            free_pages: self.storage.free_page_count(),
            index_cache: self.node_cache.stats(),
            record_cache: self.record_cache.stats(),
            group_commit: self.storage.stats(),
        }
    }
}

/// Whether a generation has more entries than a list in memory can.
pub open spec fn index_too_long(state: StateView) -> bool {
    exists|i: int|
        0 <= i < state.generations.len() && ((#[trigger] state.generations[i]).root matches Some(
            root,
        ) && root.entries > usize::MAX)
}

proof fn lemma_selected_len(
    entries: Seq<EntryView>,
    start: Option<Seq<u8>>,
    end: Option<Seq<u8>>,
)
    ensures
        range::selected(entries, start, end).len() <= entries.len(),
    decreases entries.len(),
{
    if entries.len() > 0 {
        lemma_selected_len(entries.drop_last(), start, end);
    }
}

/// A selected entry is one of the entries, and every entry in the range is selected.
proof fn lemma_selected_find(
    entries: Seq<EntryView>,
    start: Option<Seq<u8>>,
    end: Option<Seq<u8>>,
    k: Seq<u8>,
)
    requires
        range::in_range(k, start, end),
    ensures
        model::find(range::selected(entries, start, end), k) == model::find(entries, k),
    decreases entries.len(),
{
    if entries.len() > 0 {
        lemma_selected_find(entries.drop_last(), start, end, k);
        let before = range::selected(entries.drop_last(), start, end);
        let all = range::selected(entries, start, end);
        if range::in_range(entries.last().key, start, end) {
            assert(all.drop_last() =~= before);
        }
    }
}

impl MvccDatabase {
    /// The keys under a prefix that are known at a snapshot, with their values. A key that is not
    /// among them has no value; a key that is may have none.
    #[verifier::rlimit(40)]
    pub(crate) fn scan(&mut self, wanted: &[u8], snapshot: Timestamp) -> (found: Result<
        KeyMap<Option<Vec<u8>>>,
        TransactionError,
    >)
        requires
            old(self).wf(),
            old(self)@.state.oldest() <= snapshot.0 <= old(self)@.state.visible,
        ensures
            final(self).wf(),
            final(self)@ == old(self)@,
            match found {
                Ok(found) => {
                    &&& found.wf()
                    &&& forall|k: Seq<u8>| #[trigger]
                        found@.contains_key(k) ==> prefix::starts_with(k, wanted@)
                            && record::value_view(found@[k]) == history::value_at(
                            old(self)@.history,
                            k,
                            snapshot.0,
                        )
                    &&& forall|k: Seq<u8>|
                        prefix::starts_with(k, wanted@) && !(#[trigger] found@.contains_key(k))
                            ==> history::value_at(old(self)@.history, k, snapshot.0) is None
                },
                Err(error) => {
                    &&& index_too_long(old(self)@.state)
                    &&& error@ == TransactionErrorView::Index(IndexErrorView::EntryCountOverflow)
                },
            },
    {
        let ghost start = self@;
        let mut found = self.state.visible_under(wanted, snapshot);
        let ghost known = found@;
        proof {
            assert forall|k: Seq<u8>| prefix::starts_with(k, wanted@) implies (
            #[trigger] known.contains_key(k) ==> record::value_view(known[k]) == history::value_at(
                start.history,
                k,
                snapshot.0,
            )) && (!known.contains_key(k) ==> (match history::indexed_page(start, k, snapshot.0) {
                Some(page) => version_read(start.store, page, k, snapshot.0) is Some
                    && version_read(start.store, page, k, snapshot.0) == history::value_at(
                    start.history,
                    k,
                    snapshot.0,
                ) && store::is_live(start.store, page),
                None => history::value_at(start.history, k, snapshot.0) is None,
            })) by {
                history::law_snapshots_read_history(start, k, snapshot.0);
            }
        }
        let generation = match self.state.generation_at(snapshot) {
            Some(generation) => generation,
            None => {
                return Ok(found);
            },
        };
        proof {
            state::lemma_cover_count_bound(start.state.generations, snapshot.0);
            let at = state::cover_count(start.state.generations, snapshot.0) - 1;
            assert(start.state.generations[at] == generation);
            assert(history::generation_kept(start, start.state.generations[at]));
        }
        let root = match generation.root {
            Some(root) => root,
            None => {
                proof {
                    assert(plan::index_entries(start.store, None) =~= Seq::empty());
                }
                return Ok(found);
            },
        };
        if root.entries > usize::MAX as u64 {
            return Err(TransactionError::Index(IndexError::EntryCountOverflow));
        }
        let ghost entries = plan::index_entries(start.store, Some(root));
        let end = prefix_end(wanted);
        let bound: Option<&[u8]> = match &end {
            Some(end) => Some(end.as_slice()),
            None => None,
        };
        let ghost high = prefix::prefix_bound(wanted@);
        let listed = match BPlusTree::range(
            &self.storage,
            &mut self.node_cache,
            root,
            Some(wanted),
            bound,
            usize::MAX,
        ) {
            Ok(listed) => listed,
            Err(error) => {
                return Err(TransactionError::Index(error));
            },
        };
        let ghost views = node::entry_views(listed@);
        proof {
            assert(range::bound_view(bound) == high);
            lemma_selected_len(entries, Some(wanted@), high);
            assert(views == range::selected(entries, Some(wanted@), high));
            assert forall|k: Seq<u8>| prefix::starts_with(k, wanted@) implies #[trigger] model::find(
                views,
                k,
            ) == history::indexed_page(start, k, snapshot.0) by {
                prefix::law_prefix_range(wanted@, k);
                lemma_selected_find(entries, Some(wanted@), high, k);
            }
            assert forall|i: int| 0 <= i < views.len() implies prefix::starts_with(
                (#[trigger] views[i]).key,
                wanted@,
            ) by {
                prefix::law_prefix_range(wanted@, views[i].key);
            }
        }
        let mut index: usize = 0;
        while index < listed.len()
            invariant
                index <= listed@.len(),
                views == node::entry_views(listed@),
                node::keys_rise(views),
                self.wf(),
                self@ == start,
                found.wf(),
                forall|i: int|
                    0 <= i < views.len() ==> prefix::starts_with(
                        (#[trigger] views[i]).key,
                        wanted@,
                    ),
                forall|k: Seq<u8>|
                    prefix::starts_with(k, wanted@) ==> #[trigger] model::find(views, k)
                        == history::indexed_page(start, k, snapshot.0),
                forall|k: Seq<u8>|
                    prefix::starts_with(k, wanted@) && !(#[trigger] known.contains_key(k)) ==> (
                    match history::indexed_page(start, k, snapshot.0) {
                        Some(page) => version_read(start.store, page, k, snapshot.0) is Some
                            && version_read(start.store, page, k, snapshot.0) == history::value_at(
                            start.history,
                            k,
                            snapshot.0,
                        ) && store::is_live(start.store, page),
                        None => history::value_at(start.history, k, snapshot.0) is None,
                    }),
                forall|k: Seq<u8>| #[trigger]
                    found@.contains_key(k) <==> known.contains_key(k) || exists|i: int|
                        0 <= i < index && (#[trigger] views[i]).key == k,
                forall|k: Seq<u8>| #[trigger]
                    found@.contains_key(k) ==> prefix::starts_with(k, wanted@)
                        && record::value_view(found@[k]) == history::value_at(
                        start.history,
                        k,
                        snapshot.0,
                    ),
            decreases listed@.len() - index,
        {
            let ghost before = found@;
            let ghost k = views[index as int].key;
            assert(listed@[index as int]@ == views[index as int]);
            if !found.contains(listed[index].key.as_slice()) {
                proof {
                    model::lemma_find_at(views, index as int);
                    assert(prefix::starts_with(k, wanted@));
                    assert(!known.contains_key(k));
                }
                let value = match self.read_index_version(
                    listed[index].value,
                    listed[index].key.as_slice(),
                    snapshot,
                ) {
                    Ok(value) => value,
                    Err(error) => {
                        return Err(error);
                    },
                };
                found.insert(copy_bytes(listed[index].key.as_slice()), value);
            }
            proof {
                assert forall|other: Seq<u8>| #[trigger] found@.contains_key(other)
                    <==> known.contains_key(other) || exists|i: int|
                    0 <= i < index + 1 && (#[trigger] views[i]).key == other by {
                    assert(found@.contains_key(other) <==> before.contains_key(other) || other == k);
                }
                assert forall|other: Seq<u8>| #[trigger]
                    found@.contains_key(other) implies prefix::starts_with(other, wanted@)
                    && record::value_view(found@[other]) == history::value_at(
                    start.history,
                    other,
                    snapshot.0,
                ) by {
                    if other != k || before.contains_key(k) {
                        assert(before.contains_key(other));
                    }
                }
            }
            index = index + 1;
        }
        proof {
            assert forall|k: Seq<u8>|
                prefix::starts_with(k, wanted@) && !(#[trigger] found@.contains_key(
                    k,
                )) implies history::value_at(start.history, k, snapshot.0) is None by {
                assert(!known.contains_key(k));
                if history::indexed_page(start, k, snapshot.0) is Some {
                    let at = model::lemma_find_some(views, k);
                    assert(views[at].key == k);
                }
            }
        }
        Ok(found)
    }
}

/// A store that was just opened has every page of its file in use.
proof fn lemma_opened_live(file: Seq<u8>, log: Seq<u8>)
    ensures
        store::store_opened(file, log) matches Ok(opened) ==> opened.free.len() == 0
            && opened.data.page_count <= opened.next_page_id,
{
    if let Ok(opened) = store::store_opened(file, log) {
        let (records, end) = crate::storage::wal::wal_scan(log, 0, 0)->Ok_0;
        let images = store::committed_images(records)->Ok_0;
        let data = crate::storage::data_file::data_of_bytes(file);
        let recovered = store::replay(data, images)->Ok_0.0;
        store::lemma_next_id_grows(recovered.page_count, images);
    }
}

/// Why a database does not open on what its pages hold, if it does not: the first entry of the newest
/// index generation cannot be found.
pub open spec fn newest_refused(store: StoreView, scan: ScanView) -> Option<TransactionErrorView> {
    let generations = recovery::generations_ordered(scan.generations, scan.highest);
    if generations.len() == 0 {
        None
    } else {
        match generations.last().root {
            None => None,
            Some(root) => match range::scanned(store, root, None, None, 1) {
                Err(error) => Some(TransactionErrorView::Index(error)),
                Ok(_) => None,
            },
        }
    }
}

/// What a database takes of what its pages hold: the versions, and the index generations unless the
/// newest is no index, does not agree with the versions, or is too long for memory.
///
/// A version is dropped only where the generation that covers it holds it, so a generation that does
/// not agree with the versions covers none of them: the versions are then all there is to read, and
/// the index is built anew.
pub open spec fn taken(store: StoreView, scan: ScanView) -> ScanView {
    if recovery::newest_generation_sound(store, scan) && !generation_too_long(scan) {
        scan
    } else {
        ScanView { generations: Seq::empty(), ..scan }
    }
}

/// What opening a database on the bytes of its files gives.
pub open spec fn is_open_result(
    file: Seq<u8>,
    log: Seq<u8>,
    options: MvccOptions,
    result: Result<DatabaseView, TransactionErrorView>,
) -> bool {
    match store::store_opened(file, log) {
        Err(error) => result == Err::<DatabaseView, TransactionErrorView>(
            TransactionErrorView::Storage(error),
        ),
        Ok(opened) => match recovery::pages_scanned(opened, opened.data.page_count as nat) {
            Err(error) => result == Err::<DatabaseView, TransactionErrorView>(error),
            Ok(scan) => if scan.highest == u64::MAX {
                result == Err::<DatabaseView, TransactionErrorView>(
                    TransactionErrorView::TimestampExhausted,
                )
            } else if !group_commit::options_usable(options.group_commit) {
                result == Err::<DatabaseView, TransactionErrorView>(
                    TransactionErrorView::Storage(
                        group_commit::options_refused(options.group_commit),
                    ),
                )
            } else {
                match newest_refused(opened, scan) {
                    Some(error) => result == Err::<DatabaseView, TransactionErrorView>(error),
                    None => result matches Ok(db) && recovery::is_opened(
                        opened,
                        taken(opened, scan),
                        db,
                    ) && db.online == options.online_index,
                }
            },
        },
    }
}

/// Whether the newest generation has more entries than a list in memory can.
pub open spec fn generation_too_long(scan: ScanView) -> bool {
    let generations = recovery::generations_ordered(scan.generations, scan.highest);
    generations.len() > 0 && (generations.last().root matches Some(root) && root.entries
        >= usize::MAX)
}

pub open spec fn open_view(result: Result<MvccDatabase, TransactionError>) -> Result<
    DatabaseView,
    TransactionErrorView,
> {
    match result {
        Ok(db) => Ok(db@),
        Err(error) => Err(error@),
    }
}

/// Whether the newest generation is an index that agrees with the stored versions; an error where its
/// first entry cannot be found.
fn check_generation(storage: &GroupCommitHandle, state: &State, generation: IndexGeneration) -> (
    checked: Result<bool, TransactionError>)
    requires
        storage@.wf(),
        history::store_kept(storage@.store),
        state.wf(),
    ensures
        match checked {
            Ok(sound) => {
                &&& sound == (plan::index_holds(storage@.store, generation.root) && !(
                generation.root matches Some(root) && root.entries >= usize::MAX)
                    && state::index_matches(
                    state@.versions,
                    plan::index_entries(storage@.store, generation.root),
                    generation.timestamp.0,
                ))
                &&& generation.root matches Some(root) ==> range::scanned(
                    storage@.store,
                    root,
                    None,
                    None,
                    1,
                ) is Ok
            },
            Err(error) => generation.root matches Some(root) && (range::scanned(
                storage@.store,
                root,
                None,
                None,
                1,
            ) matches Err(cause) && error@ == TransactionErrorView::Index(cause)),
        },
{
    let mut cache = NodeCache::new(0);
    let entries: Vec<node::IndexEntry> = match generation.root {
        None => Vec::new(),
        Some(root) => {
            match BPlusTree::range(storage, &mut cache, root, None, None, 1) {
                Ok(_) => {},
                Err(error) => {
                    return Err(TransactionError::Index(error));
                },
            }
            match BPlusTree::check(storage, &mut cache, root) {
                Some(entries) => {
                    proof {
                        model::lemma_tree_sorted(
                            model::store_nodes(storage@.store),
                            model::live_pages(storage@.store),
                            root.page_id.0,
                            (root.height - 1) as nat,
                            None,
                            None,
                        );
                    }
                    entries
                },
                None => {
                    return Ok(false);
                },
            }
        },
    };
    assert(node::entry_views(entries@) =~= plan::index_entries(storage@.store, generation.root));
    Ok(state.check_index(&entries, generation.timestamp))
}

/// The state of a database on what its store was found to hold.
fn usable_state(storage: &GroupCommitHandle, scanned: Scanned) -> (usable: Result<
    State,
    TransactionError,
>)
    requires
        storage@.wf(),
        history::store_kept(storage@.store),
        scanned.wf(),
        scanned.highest < u64::MAX,
    ensures
        match usable {
            Ok(state) => {
                &&& newest_refused(storage@.store, scanned.found()) is None
                &&& state.wf()
                &&& state@ == recovery::scanned_state(taken(storage@.store, scanned.found()))
            },
            Err(error) => newest_refused(storage@.store, scanned.found()) == Some(error@),
        },
{
    let ghost scan = scanned.found();
    let ghost left = ScanView { generations: Seq::empty(), ..scan };
    let mut state = recover_state(scanned);
    if let Some(generation) = state.latest_generation() {
        match check_generation(storage, &state, generation) {
            Ok(true) => {},
            Ok(false) => {
                state.forget_generations();
                state.mark_all_dirty();
                state.settle_dirty(Timestamp(0));
                proof {
                    assert(recovery::generations_ordered(left.generations, left.highest)
                        =~= Seq::empty());
                    assert(state@.dirty =~= recovery::scanned_state(left).dirty);
                }
            },
            Err(error) => {
                return Err(error);
            },
        }
    }
    Ok(state)
}

/// The state of a database whose pages were read.
fn recover_state(scanned: Scanned) -> (state: State)
    requires
        scanned.wf(),
        scanned.highest < u64::MAX,
    ensures
        state.wf(),
        state@ == recovery::scanned_state(scanned.found()),
{
    let ghost scan = scanned.found();
    let highest: u64 = scanned.highest;
    let generations = scanned.generations;
    let mut state = State::make(
        scanned.versions,
        Vec::new(),
        KeyMap::new(),
        highest + 1,
        Timestamp(highest),
    );
    let ghost start = state@;
    let mut index: usize = 0;
    assert(generations@.take(0) =~= Seq::empty());
    assert(start.generations =~= recovery::generations_ordered(generations@.take(0), highest));
    while index < generations.len()
        invariant
            index <= generations@.len(),
            state.wf(),
            state@ == (StateView {
                generations: recovery::generations_ordered(
                    generations@.take(index as int),
                    highest,
                ),
                ..start
            }),
        decreases generations@.len() - index,
    {
        proof {
            let more = generations@.take(index + 1);
            assert(more.drop_last() =~= generations@.take(index as int));
            assert(more.last() == generations@[index as int]);
        }
        let generation = generations[index];
        if generation.timestamp.0 <= highest {
            state.publish_generation(generation);
        }
        index = index + 1;
    }
    assert(generations@.take(index as int) =~= generations@);
    let indexed = match state.latest_generation() {
        Some(generation) => generation.timestamp,
        None => Timestamp(0),
    };
    state.mark_all_dirty();
    state.settle_dirty(indexed);
    proof {
        assert(state@.dirty =~= recovery::scanned_state(scan).dirty);
    }
    state
}

impl MvccDatabase {
    /// Opens a database on the contents of its data file and its log.
    ///
    /// The newest version of each key is found in the pages. The first entry of the newest index
    /// generation has to be found. A generation that does not agree with the versions is given up, as
    /// are those before it, so that reads give what the versions hold.
    pub fn open(file: &[u8], log: &[u8], options: MvccOptions) -> (result: Result<
        MvccDatabase,
        TransactionError,
    >)
        ensures
            is_open_result(file@, log@, options, open_view(result)),
            result matches Ok(db) ==> db.wf() && db.is_fresh(options),
    {
        let store = match DurableStore::open(file, log) {
            Ok(store) => store,
            Err(error) => {
                return Err(TransactionError::Storage(error));
            },
        };
        let ghost opened = store@;
        let ghost count = opened.data.page_count as nat;
        proof {
            lemma_opened_live(file@, log@);
            recovery::lemma_scan_sound(opened, count);
        }
        let scanned = match scan_pages(&store) {
            Ok(scanned) => scanned,
            Err(error) => {
                return Err(error);
            },
        };
        let ghost scan = scanned.found();
        if scanned.highest == u64::MAX {
            return Err(TransactionError::TimestampExhausted);
        }
        let storage = match GroupCommitHandle::start(store, options.group_commit) {
            Ok(storage) => storage,
            Err(error) => {
                return Err(TransactionError::Storage(error));
            },
        };
        MvccDatabase::recover(storage, scanned, options)
    }

    /// A database of what was found in a store that was just opened.
    #[verifier::rlimit(100)]
    #[verifier::spinoff_prover]
    fn recover(storage: GroupCommitHandle, scanned: Scanned, options: MvccOptions) -> (result:
        Result<MvccDatabase, TransactionError>)
        requires
            storage@.wf(),
            storage@.store.free.len() == 0,
            storage@.store.data.page_count <= storage@.store.next_page_id,
            scanned.wf(),
            scanned.highest < u64::MAX,
            recovery::scan_sound(
                storage@.store,
                scanned.found(),
                storage@.store.data.page_count as nat,
            ),
        ensures
            match result {
                Ok(db) => {
                    &&& newest_refused(storage@.store, scanned.found()) is None
                    &&& db.wf()
                    &&& recovery::is_opened(
                        storage@.store,
                        taken(storage@.store, scanned.found()),
                        db@,
                    )
                    &&& db@.online == options.online_index
                    &&& storage@.options == options.group_commit && storage@.stats == no_commits()
                        ==> db.is_fresh(options)
                },
                Err(error) => newest_refused(storage@.store, scanned.found()) == Some(error@),
            },
    {
        let ghost opened = storage@.store;
        let ghost count = opened.data.page_count as nat;
        let ghost scan = taken(opened, scanned.found());
        proof {
            assert forall|id: u64| id < count implies #[trigger] store::is_live(opened, id) by {}
            assert(history::store_kept(opened)) by {
                assert forall|id: u64| #[trigger] model::store_nodes(opened).contains_key(
                    id,
                ) implies store::is_live(opened, id) by {
                    assert(id < count);
                }
            }
        }
        let mut storage = storage;
        let mut state = match usable_state(&storage, scanned) {
            Ok(state) => state,
            Err(error) => {
                return Err(error);
            },
        };
        let ghost init = state@;
        proof {
            assert(recovery::scan_sound(opened, scan, count));
            assert(recovery::newest_generation_sound(opened, scan)) by {
                assert(recovery::generations_ordered(Seq::empty(), scan.highest) =~= Seq::empty());
            }
        }
        let freed = state.reclaim_covered();
        storage.release_pages(freed.as_slice());
        let needs_catch_up = state.has_dirty_keys();
        let db = MvccDatabase {
            state,
            storage,
            node_cache: NodeCache::new(options.index_cache_bytes),
            record_cache: SharedByteLru::new(options.record_cache_bytes),
            online_index: options.online_index,
            index_dirty: needs_catch_up,
            history: Ghost(recovery::newest_only(scan.versions)),
        };
        proof {
            let after = db@;
            assert forall|id: u64| #[trigger] store::is_live(after.store, id) <==> store::is_live(
                opened,
                id,
            ) && !state::page_freed(init, id) by {
                assert(store::id_views(freed@).contains(id) <==> state::page_freed(init, id));
            }
            assert(init == recovery::scanned_state(scan));
            assert(db.records_cached() =~= empty_cache::<RecordView>(options.record_cache_bytes));
            assert(after.state.dirty == init.dirty);
            assert(after.unpublished == exists|k: Seq<u8>| init.dirty.contains(k));
            assert(recovery::is_opened(opened, scan, after));
            recovery::law_opened_in_order(opened, scan, count, after);
        }
        Ok(db)
    }
}

/// What was committed survives a restart: a database that is opened on files that read as those of
/// another did has the newest value of every key, and its pages tell it again.
///
/// The newest index generation has to fit in a list in memory.
#[verifier::rlimit(40)]
pub proof fn law_restart_restores(
    db: DatabaseView,
    file: Seq<u8>,
    log: Seq<u8>,
    options: MvccOptions,
    result: Result<DatabaseView, TransactionErrorView>,
)
    requires
        history::in_order(db),
        restart::pages_kept(db),
        store::store_opened(file, log) matches Ok(opened) && restart::is_reopened(db, opened),
        group_commit::options_usable(options.group_commit),
        db.state.generations.len() > 0 ==> !(db.state.generations.last().root matches Some(root)
            && root.entries >= usize::MAX),
        is_open_result(file, log, options, result),
    ensures
        result matches Ok(again) && {
            &&& forall|k: Seq<u8>|
                history::value_at(again.history, k, again.state.visible)
                    == #[trigger] restart::newest_value(db.history, k)
            &&& again.state.visible < db.state.next_commit_timestamp
            &&& restart::pages_kept(again)
        },
{
    let opened = store::store_opened(file, log)->Ok_0;
    restart::law_restart_finds_newest(db, opened);
    let scan = recovery::pages_scanned(opened, opened.data.page_count as nat)->Ok_0;
    restart::lemma_manifests_reached(db, opened, scan);
    let generations = recovery::generations_ordered(scan.generations, scan.highest);
    if generations.len() > 0 {
        if let Some(root) = generations.last().root {
            range::lemma_first_entry_found(opened, root);
        }
    }
    assert(newest_refused(opened, scan) is None);
    assert(!generation_too_long(scan));
    assert(taken(opened, scan) == scan);
    restart::law_open_keeps_pages(opened, scan, result->Ok_0);
}

} // verus!
