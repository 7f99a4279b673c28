//! What the pages of a store keep of a database, so that opening it again finds the newest version
//! of every key.
use crate::index::model;
use crate::index::node;
use crate::index::pages;
use crate::index::plan;
use crate::index::plan::IndexRoot;
use crate::mvcc::history;
use crate::mvcc::history::DatabaseView;
use crate::mvcc::manifest;
use crate::mvcc::manifest::IndexGeneration;
use crate::mvcc::record;
use crate::mvcc::record::{RecordView, Timestamp};
use crate::mvcc::recovery;
use crate::mvcc::recovery::ScanView;
use crate::mvcc::state;
use crate::mvcc::state::{VersionView, WriteView};
use crate::storage::data_file;
use crate::storage::data_file::PAGE_LIMIT;
use crate::storage::group_commit;
use crate::storage::page::PageId;
use crate::storage::recovery as storage_recovery;
use crate::storage::recovery::DiskView;
use crate::storage::store;
use crate::storage::store::{PageWriteView, StoreView};
use crate::storage::wal;
use vstd::prelude::*;

verus! {

/// Whether a page can be read and holds no broken manifest or record.
pub open spec fn page_sound(store: StoreView, id: u64) -> bool {
    match store.read(id) {
        Err(_) => false,
        Ok(None) => true,
        Ok(Some(found)) => match manifest::manifest_decoded(found.payload) {
            Err(_) => false,
            Ok(Some(_)) => true,
            Ok(None) => record::record_decoded(found.payload) is Ok,
        },
    }
}

/// The version that a record on a page stands for.
pub open spec fn record_version(page: u64, found: RecordView) -> VersionView {
    VersionView { timestamp: found.timestamp, value: found.value, page }
}

/// The generation that a manifest on a page stands for.
pub open spec fn page_generation(page: u64, found: (u64, Option<IndexRoot>)) -> IndexGeneration {
    IndexGeneration { timestamp: Timestamp(found.0), root: found.1, manifest_page_id: PageId(page) }
}

/// Whether a record is the newest version of its key, or older than it.
pub open spec fn record_known(
    history: Map<Seq<u8>, Seq<VersionView>>,
    page: u64,
    found: RecordView,
) -> bool {
    let past = state::versions_of(history, found.key);
    &&& past.len() > 0
    &&& found.timestamp < past.last().timestamp || past.last() == record_version(page, found)
}

/// Whether a key has a version that is not before a timestamp.
pub open spec fn committed_since(
    history: Map<Seq<u8>, Seq<VersionView>>,
    timestamp: u64,
    k: Seq<u8>,
) -> bool {
    state::versions_of(history, k).len() > 0 && state::versions_of(history, k).last().timestamp
        >= timestamp
}

/// Whether a version is not before a timestamp, or there is nothing before the timestamp.
pub open spec fn reached(history: Map<Seq<u8>, Seq<VersionView>>, timestamp: u64) -> bool {
    timestamp == 0 || exists|k: Seq<u8>| #[trigger] committed_since(history, timestamp, k)
}

/// Whether every page is sound.
pub open spec fn pages_sound(store: StoreView) -> bool {
    forall|id: u64| id < PAGE_LIMIT ==> #[trigger] page_sound(store, id)
}

/// Whether no two pages hold records of one key at one timestamp.
pub open spec fn records_distinct(store: StoreView) -> bool {
    forall|a: u64, b: u64|
        a != b && history::page_record(store, a) is Some && history::page_record(store, b) is Some
            && (#[trigger] history::page_record(store, a))->0.key == (
        #[trigger] history::page_record(store, b))->0.key ==> history::page_record(
            store,
            a,
        )->0.timestamp != history::page_record(store, b)->0.timestamp
}

/// Whether the history accounts for every record.
pub open spec fn records_known(store: StoreView, history: Map<Seq<u8>, Seq<VersionView>>) -> bool {
    forall|id: u64|
        (#[trigger] history::page_record(store, id)) matches Some(found) ==> record_known(
            history,
            id,
            found,
        )
}

/// Whether no manifest is newer than the last of some generations.
pub open spec fn manifests_known(store: StoreView, generations: Seq<IndexGeneration>) -> bool {
    forall|id: u64|
        (#[trigger] history::page_manifest(store, id)) matches Some(found) ==> generations.len() > 0
            && state::generation_le(page_generation(id, found), generations.last())
}

/// Whether the pages alone tell the newest version of every key and the newest generation.
pub open spec fn pages_kept(db: DatabaseView) -> bool {
    &&& pages_sound(db.store)
    &&& records_distinct(db.store)
    &&& records_known(db.store, db.history)
    &&& manifests_known(db.store, db.state.generations)
    &&& reached(db.history, history::indexed_through(db.state.generations))
}

/// The value of the newest version of a key.
pub open spec fn newest_value(history: Map<Seq<u8>, Seq<VersionView>>, k: Seq<u8>) -> Option<
    Seq<u8>,
> {
    let past = state::versions_of(history, k);
    if past.len() == 0 {
        None
    } else {
        past.last().value
    }
}

/// What a scan that went well found of the first pages: all of their records and manifests.
pub open spec fn scan_complete(store: StoreView, scan: ScanView, count: nat) -> bool {
    &&& forall|id: u64| id < count ==> #[trigger] page_sound(store, id)
    &&& forall|id: u64|
        id < count ==> ((#[trigger] history::page_record(store, id)) matches Some(found)
            ==> state::versions_of(scan.versions, found.key).contains(record_version(id, found)))
    &&& forall|id: u64|
        id < count ==> ((#[trigger] history::page_manifest(store, id)) matches Some(found)
            ==> scan.generations.contains(page_generation(id, found)))
    &&& reached(scan.versions, scan.highest)
}

/// A page with one kind of contents does not hold another.
proof fn lemma_magic(payload: Seq<u8>)
    requires
        payload.len() >= 4,
    ensures
        payload.subrange(0, 4) == manifest::manifest_magic() ==> record::record_decoded(payload)
            == Ok::<Option<RecordView>, Seq<char>>(None),
        payload.subrange(0, 4) == record::record_magic() ==> manifest::manifest_decoded(payload)
            == Ok::<Option<(u64, Option<IndexRoot>)>, Seq<char>>(None),
        payload.subrange(0, 4) == node::node_magic() ==> {
            &&& record::record_decoded(payload) == Ok::<Option<RecordView>, Seq<char>>(None)
            &&& manifest::manifest_decoded(payload) == Ok::<
                Option<(u64, Option<IndexRoot>)>,
                Seq<char>,
            >(None)
        },
{
    let magic = payload.subrange(0, 4);
    assert(manifest::manifest_magic()[2] == 0x49u8);
    assert(record::record_magic()[2] == 0x4du8);
    assert(node::node_magic()[2] == 0x49u8);
    assert(node::node_magic()[3] == 0x58u8);
    assert(manifest::manifest_magic()[3] == 0x52u8);
}

/// A page with a manifest, a record or an index node is sound.
proof fn lemma_sound(store: StoreView, id: u64)
    ensures
        history::page_manifest(store, id) is Some ==> page_sound(store, id)
            && history::page_record(store, id) is None,
        history::page_record(store, id) is Some ==> page_sound(store, id)
            && history::page_manifest(store, id) is None,
        model::store_nodes(store).contains_key(id) ==> page_sound(store, id)
            && history::page_record(store, id) is None && history::page_manifest(store, id) is None,
{
    if let Ok(Some(found)) = store.read(id) {
        if found.payload.len() >= 4 {
            lemma_magic(found.payload);
        }
    }
}

/// Adding a page to what a scan found.
proof fn lemma_page_added(store: StoreView, scan: ScanView, before: nat)
    requires
        before < u64::MAX,
        recovery::scan_sound(store, scan, before),
        scan_complete(store, scan, before),
    ensures
        recovery::page_added(store, scan, before as u64) matches Ok(after) ==> scan_complete(
            store,
            after,
            before + 1,
        ),
{
    let page = before as u64;
    if let Ok(after) = recovery::page_added(store, scan, page) {
        lemma_sound(store, page);
        assert(page_sound(store, page));
        assert forall|id: u64| id < before + 1 implies #[trigger] page_sound(store, id) by {
            if id != page {
                assert(id < before);
            }
        }
        assert forall|id: u64| id < before + 1 implies ((#[trigger] history::page_manifest(
            store,
            id,
        )) matches Some(found) ==> after.generations.contains(page_generation(id, found))) by {
            if let Some(found) = history::page_manifest(store, id) {
                if id == page {
                    assert(after.generations == scan.generations.push(page_generation(id, found)));
                    assert(after.generations.last() == page_generation(id, found));
                } else {
                    assert(id < before);
                    let i = choose|i: int|
                        0 <= i < scan.generations.len() && scan.generations[i] == page_generation(
                            id,
                            found,
                        );
                    assert(after.generations[i] == scan.generations[i]);
                }
            }
        }
        match history::page_record(store, page) {
            None => {
                assert(after.versions == scan.versions);
                assert forall|id: u64| id < before + 1 implies ((#[trigger] history::page_record(
                    store,
                    id,
                )) matches Some(found) ==> state::versions_of(after.versions, found.key).contains(
                    record_version(id, found),
                )) by {
                    if id != page {
                        assert(id < before);
                    }
                }
            },
            Some(made) => {
                let old_versions = state::versions_of(scan.versions, made.key);
                let added = record_version(page, made);
                let placed = recovery::version_placed(old_versions, added);
                assert(recovery::record_added(scan, page, made) == Ok::<
                    ScanView,
                    crate::mvcc::error::TransactionErrorView,
                >(after));
                recovery::lemma_version_placed(old_versions, added);
                assert(after.versions == scan.versions.insert(made.key, placed));
                assert forall|id: u64| id < before + 1 implies ((#[trigger] history::page_record(
                    store,
                    id,
                )) matches Some(found) ==> state::versions_of(after.versions, found.key).contains(
                    record_version(id, found),
                )) by {
                    if let Some(found) = history::page_record(store, id) {
                        if id != page {
                            assert(id < before);
                            assert(state::versions_of(scan.versions, found.key).contains(
                                record_version(id, found),
                            ));
                            if found.key == made.key {
                                let i = choose|i: int|
                                    0 <= i < old_versions.len() && old_versions[i]
                                        == record_version(id, found);
                                assert(placed.contains(old_versions[i]));
                            }
                        }
                    }
                }
                lemma_reached(scan, after, made, placed, added);
            },
        }
    }
}

/// The highest timestamp is reached after one more version.
proof fn lemma_reached(
    scan: ScanView,
    after: ScanView,
    made: RecordView,
    placed: Seq<VersionView>,
    added: VersionView,
)
    requires
        reached(scan.versions, scan.highest),
        after.versions == scan.versions.insert(made.key, placed),
        history::versions_rise(placed),
        placed.contains(added),
        forall|i: int|
            0 <= i < state::versions_of(scan.versions, made.key).len() ==> placed.contains(
                #[trigger] state::versions_of(scan.versions, made.key)[i],
            ),
        added.timestamp == made.timestamp,
        after.highest == (if made.timestamp > scan.highest {
            made.timestamp
        } else {
            scan.highest
        }),
    ensures
        reached(after.versions, after.highest),
{
    let last = placed.len() - 1;
    if made.timestamp > scan.highest {
        let i = choose|i: int| 0 <= i < placed.len() && placed[i] == added;
        if i < last {
            assert(placed[i].timestamp < placed[last].timestamp);
        }
        assert(committed_since(after.versions, after.highest, made.key));
    } else if scan.highest > 0 {
        let k = choose|k: Seq<u8>| #[trigger] committed_since(scan.versions, scan.highest, k);
        if k == made.key {
            let had = state::versions_of(scan.versions, k);
            assert(placed.contains(had[had.len() - 1]));
            let i = choose|i: int| 0 <= i < placed.len() && placed[i] == had[had.len() - 1];
            if i < last {
                assert(placed[i].timestamp < placed[last].timestamp);
            }
        }
        assert(committed_since(after.versions, after.highest, k));
    }
}

/// A scan that went well found everything.
pub proof fn lemma_scan_complete(store: StoreView, count: nat)
    requires
        count <= u64::MAX,
    ensures
        recovery::pages_scanned(store, count) matches Ok(scan) ==> scan_complete(
            store,
            scan,
            count,
        ),
    decreases count,
{
    if count > 0 {
        let before = (count - 1) as nat;
        lemma_scan_complete(store, before);
        recovery::lemma_scan_sound(store, before);
        if let Ok(scan) = recovery::pages_scanned(store, before) {
            lemma_page_added(store, scan, before);
        }
    }
}

/// A scan of sound pages without duplicates goes well.
pub proof fn lemma_scan_succeeds(store: StoreView, count: nat)
    requires
        count <= PAGE_LIMIT,
        pages_sound(store),
        records_distinct(store),
    ensures
        recovery::pages_scanned(store, count) is Ok,
    decreases count,
{
    if count > 0 {
        let before = (count - 1) as nat;
        let page = before as u64;
        lemma_scan_succeeds(store, before);
        recovery::lemma_scan_sound(store, before);
        let scan = recovery::pages_scanned(store, before)->Ok_0;
        assert(page_sound(store, page));
        if let Some(made) = history::page_record(store, page) {
            lemma_sound(store, page);
            let versions = state::versions_of(scan.versions, made.key);
            if recovery::has_timestamp(versions, made.timestamp) {
                let i = choose|i: int|
                    0 <= i < versions.len() && (#[trigger] versions[i]).timestamp
                        == made.timestamp;
                let other = scan.versions[made.key][i];
                assert(other.page < before);
                assert(history::page_record(store, other.page) == Some(
                    history::version_record(made.key, other),
                ));
            }
        }
    }
}

/// The newest version of a key is on a page in use.
pub proof fn lemma_newest_stored(db: DatabaseView, k: Seq<u8>)
    requires
        history::in_order(db),
        state::versions_of(db.history, k).len() > 0,
    ensures
        history::stored(db.store, k, state::versions_of(db.history, k).last()),
{
    let past = state::versions_of(db.history, k);
    let now = state::versions_of(db.state.versions, k);
    assert(history::key_kept(db, k));
    if now.len() > 0 {
        assert(now[now.len() - 1] == past.last());
    }
}

/// An index is an index in every store that reads the same and has the nodes in use.
proof fn lemma_index_reopens(before: StoreView, after: StoreView, root: Option<IndexRoot>)
    requires
        plan::index_holds(before, root),
        forall|id: u64| #[trigger] after.read(id) == before.read(id),
        forall|id: u64| #[trigger]
            model::store_nodes(before).contains_key(id) ==> store::is_live(after, id),
    ensures
        plan::index_holds(after, root),
        plan::index_entries(after, root) == plan::index_entries(before, root),
{
    let nodes = model::store_nodes(before);
    let again = model::store_nodes(after);
    assert(again =~= nodes) by {
        assert forall|id: u64| again.contains_key(id) == nodes.contains_key(id) by {
            assert(after.read(id) == before.read(id));
        }
    }
    if let Some(found) = root {
        let level = (found.height - 1) as nat;
        let live = model::live_pages(before);
        let left = model::live_pages(after);
        let own = model::tree_pages(nodes, found.page_id.0, level);
        pages::lemma_tree_pages_within(nodes, live, found.page_id.0, level, None, None);
        assert forall|i: int| 0 <= i < own.len() implies left.contains(#[trigger] own[i]) by {
            assert(pages::is_page_within(nodes, live, own[i], level, None, None));
            assert(nodes.contains_key(own[i]));
        }
        pages::lemma_tree_restrict(nodes, live, left, found.page_id.0, level, None, None);
    }
}

/// Whether a store that was opened reads as the store of a database did, with every page of its
/// file in use.
pub open spec fn is_reopened(db: DatabaseView, opened: StoreView) -> bool {
    &&& opened.data.wf()
    &&& forall|id: u64| #[trigger] opened.read(id) == db.store.read(id)
    &&& forall|id: u64| id < opened.data.page_count ==> #[trigger] store::is_live(opened, id)
}

/// Files on which everything was carried out that the store of a database asked for open to a store
/// that reads as the database's did.
pub proof fn law_files_in_step_reopen(db: DatabaseView, file: Seq<u8>, log: Seq<u8>)
    requires
        storage_recovery::in_step(
            db.store,
            DiskView { data: data_file::data_of_bytes(file), log },
        ),
    ensures
        store::store_opened(file, log) matches Ok(opened) && is_reopened(db, opened),
{
    let disk = DiskView { data: data_file::data_of_bytes(file), log };
    storage_recovery::law_reopening_reads_same(db.store, disk);
    let again = storage_recovery::reopened(disk)->Ok_0;
    let opened = store::store_opened(file, log)->Ok_0;
    assert(opened == StoreView { ops: opened.ops, ..again });
    assert forall|id: u64| id < opened.data.page_count implies #[trigger] store::is_live(
        opened,
        id,
    ) by {
        assert(store::is_live(again, id));
    }
}

/// A batch that a crash undid, such as that of an index generation which no commit followed, leaves
/// files that open to a store that reads as the database's did before the batch.
pub proof fn law_lost_batch_reopens(
    db: DatabaseView,
    file: Seq<u8>,
    log: Seq<u8>,
    writes: Seq<PageWriteView>,
    cut: int,
)
    requires
        storage_recovery::in_step(
            db.store,
            DiskView { data: data_file::data_of_bytes(file), log },
        ),
        writes.len() > 0,
        group_commit::batch_taken(db.store, writes),
        0 <= cut < wal::wal_log(store::batch_records(db.store.wal.next_lsn, writes)).len(),
    ensures
        store::store_opened(
            file,
            log + wal::wal_log(store::batch_records(db.store.wal.next_lsn, writes)).take(cut),
        ) matches Ok(opened) && is_reopened(db, opened),
{
    let disk = DiskView { data: data_file::data_of_bytes(file), log };
    let torn = log + wal::wal_log(store::batch_records(db.store.wal.next_lsn, writes)).take(cut);
    storage_recovery::law_torn_batch_is_undone(db.store, disk, writes, cut);
    let again = storage_recovery::reopened(DiskView { log: torn, ..disk })->Ok_0;
    let opened = store::store_opened(file, torn)->Ok_0;
    assert(opened == StoreView { ops: opened.ops, ..again });
    assert forall|id: u64| id < opened.data.page_count implies #[trigger] store::is_live(
        opened,
        id,
    ) by {
        assert(store::is_live(again, id));
    }
}

/// A store that reads the same keeps the pages.
proof fn lemma_reads_same(db: DatabaseView, opened: StoreView)
    requires
        pages_kept(db),
        is_reopened(db, opened),
    ensures
        pages_kept(DatabaseView { store: opened, ..db }),
        forall|id: u64| #[trigger]
            history::page_record(opened, id) == history::page_record(db.store, id),
        forall|id: u64| #[trigger]
            history::page_manifest(opened, id) == history::page_manifest(db.store, id),
{
    assert forall|id: u64| #[trigger]
        history::page_record(opened, id) == history::page_record(db.store, id) by {
        assert(opened.read(id) == db.store.read(id));
    }
    assert forall|id: u64| #[trigger]
        history::page_manifest(opened, id) == history::page_manifest(db.store, id) by {
        assert(opened.read(id) == db.store.read(id));
    }
    assert forall|id: u64| id < PAGE_LIMIT implies #[trigger] page_sound(opened, id) by {
        assert(opened.read(id) == db.store.read(id));
        assert(page_sound(db.store, id));
    }
}

/// What a scan of a reopened store finds of a key: its newest version comes last.
proof fn lemma_scanned_key(db: DatabaseView, opened: StoreView, scan: ScanView, k: Seq<u8>)
    requires
        history::in_order(db),
        pages_kept(db),
        is_reopened(db, opened),
        recovery::scan_sound(opened, scan, opened.data.page_count as nat),
        scan_complete(opened, scan, opened.data.page_count as nat),
    ensures
        scan.versions.contains_key(k) <==> state::versions_of(db.history, k).len() > 0,
        scan.versions.contains_key(k) ==> {
            &&& scan.versions[k].len() > 0
            &&& scan.versions[k].last() == state::versions_of(db.history, k).last()
            &&& scan.versions[k].last().timestamp <= scan.highest
        },
{
    let past = state::versions_of(db.history, k);
    lemma_reads_same(db, opened);
    if scan.versions.contains_key(k) {
        let versions = scan.versions[k];
        let at = versions.len() - 1;
        let last = scan.versions[k][at];
        assert(history::page_record(opened, last.page) == Some(history::version_record(k, last)));
        assert(history::page_record(db.store, last.page) == Some(history::version_record(k, last)));
        assert(record_known(db.history, last.page, history::version_record(k, last)));
        lemma_newest_stored(db, k);
        let newest = past.last();
        assert(history::page_record(opened, newest.page) == Some(
            history::version_record(k, newest),
        ));
        assert(record_version(newest.page, history::version_record(k, newest)) == newest);
        assert(newest.page < opened.data.page_count);
        assert(versions.contains(newest));
        let i = choose|i: int| 0 <= i < versions.len() && versions[i] == newest;
        if i < at {
            assert(versions[i].timestamp < versions[at].timestamp);
        }
    } else if past.len() > 0 {
        lemma_newest_stored(db, k);
        let newest = past.last();
        assert(history::page_record(opened, newest.page) == Some(
            history::version_record(k, newest),
        ));
        assert(newest.page < opened.data.page_count);
        assert(state::versions_of(scan.versions, k).contains(
            record_version(newest.page, history::version_record(k, newest)),
        ));
    }
}

/// The newest generation that a scan of a reopened store finds is the newest there was.
proof fn lemma_scanned_generation(db: DatabaseView, opened: StoreView, scan: ScanView)
    requires
        history::in_order(db),
        pages_kept(db),
        is_reopened(db, opened),
        recovery::scan_sound(opened, scan, opened.data.page_count as nat),
        scan_complete(opened, scan, opened.data.page_count as nat),
    ensures
        ({
            let generations = recovery::generations_ordered(scan.generations, scan.highest);
            if db.state.generations.len() == 0 {
                generations.len() == 0
            } else {
                generations.len() > 0 && generations.last() == db.state.generations.last()
            }
        }),
{
    let generations = recovery::generations_ordered(scan.generations, scan.highest);
    lemma_reads_same(db, opened);
    recovery::lemma_generations_ordered(scan.generations, scan.highest);
    if generations.len() > 0 {
        let top = generations[generations.len() - 1];
        assert(scan.generations.contains(top));
        let j = choose|j: int| 0 <= j < scan.generations.len() && scan.generations[j] == top;
        assert(history::page_manifest(opened, scan.generations[j].manifest_page_id.0) == Some(
            (top.timestamp.0, top.root),
        ));
        let page = top.manifest_page_id.0;
        assert(history::page_manifest(db.store, page) == Some((top.timestamp.0, top.root)));
        assert(page_generation(page, (top.timestamp.0, top.root)) == top);
        assert(db.state.generations.len() > 0);
        assert(state::generation_le(top, db.state.generations.last()));
    }
    if db.state.generations.len() > 0 {
        let last = db.state.generations.last();
        assert(db.state.generations[db.state.generations.len() - 1] == last);
        assert(history::generation_kept(db, last));
        let page = last.manifest_page_id.0;
        assert(history::page_manifest(opened, page) == Some((last.timestamp.0, last.root)));
        assert(page < opened.data.page_count);
        assert(page_generation(page, (last.timestamp.0, last.root)) == last);
        assert(scan.generations.contains(last));
        let i = choose|i: int| 0 <= i < scan.generations.len() && scan.generations[i] == last;
        assert(last.timestamp.0 <= scan.highest) by {
            if last.timestamp.0 > 0 {
                let k = choose|k: Seq<u8>| #[trigger]
                    committed_since(db.history, last.timestamp.0, k);
                lemma_scanned_key(db, opened, scan, k);
            }
        }
        assert(generations.contains(scan.generations[i]));
        let at = choose|at: int| 0 <= at < generations.len() && generations[at] == last;
        let top = generations[generations.len() - 1];
        if at < generations.len() - 1 {
            assert(state::generation_le(generations[at], top));
            assert(generations[at].manifest_page_id != top.manifest_page_id);
        }
    }
}

/// What was committed survives a restart: opening a store that reads as the store of a database did
/// finds every page sound, the newest version of every key and no other key, and the newest index
/// generation, which agrees with them.
pub proof fn law_restart_finds_newest(db: DatabaseView, opened: StoreView)
    requires
        history::in_order(db),
        pages_kept(db),
        is_reopened(db, opened),
    ensures
        recovery::pages_scanned(opened, opened.data.page_count as nat) matches Ok(scan) && {
            &&& scan.highest < db.state.next_commit_timestamp
            &&& recovery::newest_generation_sound(opened, scan)
            &&& recovery::generations_ordered(scan.generations, scan.highest).len() > 0
                <==> db.state.generations.len() > 0
            &&& db.state.generations.len() > 0 ==> recovery::generations_ordered(
                scan.generations,
                scan.highest,
            ).last() == db.state.generations.last()
            &&& forall|k: Seq<u8>|
                history::value_at(recovery::newest_only(scan.versions), k, scan.highest)
                    == #[trigger] newest_value(db.history, k)
        },
{
    let count = opened.data.page_count as nat;
    lemma_reads_same(db, opened);
    lemma_scan_succeeds(opened, count);
    recovery::lemma_scan_sound(opened, count);
    lemma_scan_complete(opened, count);
    let scan = recovery::pages_scanned(opened, count)->Ok_0;
    lemma_scanned_generation(db, opened, scan);
    assert(scan.highest < db.state.next_commit_timestamp) by {
        if scan.highest > 0 {
            let k = choose|k: Seq<u8>| #[trigger] committed_since(scan.versions, scan.highest, k);
            lemma_scanned_key(db, opened, scan, k);
            let past = state::versions_of(db.history, k);
            assert(history::key_kept(db, k));
            assert(past[past.len() - 1].timestamp < db.state.next_commit_timestamp);
        }
    }
    assert forall|k: Seq<u8>|
        history::value_at(recovery::newest_only(scan.versions), k, scan.highest)
            == #[trigger] newest_value(db.history, k) by {
        lemma_scanned_key(db, opened, scan, k);
        let only = state::versions_of(recovery::newest_only(scan.versions), k);
        if scan.versions.contains_key(k) {
            assert(only == seq![scan.versions[k].last()]);
            assert(only.last() == scan.versions[k].last());
        }
    }
    if db.state.generations.len() > 0 {
        let last = db.state.generations.last();
        assert(db.state.generations[db.state.generations.len() - 1] == last);
        assert(history::generation_kept(db, last));
        assert forall|id: u64| #[trigger]
            model::store_nodes(db.store).contains_key(id) implies store::is_live(opened, id) by {
            assert(opened.read(id) == db.store.read(id));
            assert(id < opened.data.page_count);
        }
        lemma_index_reopens(db.store, opened, last.root);
        let entries = plan::index_entries(opened, last.root);
        assert forall|k: Seq<u8>|
            state::key_matches(
                state::versions_of(scan.versions, k),
                #[trigger] model::find(entries, k),
                last.timestamp.0,
            ) by {
            lemma_indexed_key(db, opened, scan, k);
        }
    }
}

/// The newest generation agrees with what a scan finds of a key.
proof fn lemma_indexed_key(db: DatabaseView, opened: StoreView, scan: ScanView, k: Seq<u8>)
    requires
        history::in_order(db),
        pages_kept(db),
        is_reopened(db, opened),
        recovery::scan_sound(opened, scan, opened.data.page_count as nat),
        scan_complete(opened, scan, opened.data.page_count as nat),
        db.state.generations.len() > 0,
    ensures
        state::key_matches(
            state::versions_of(scan.versions, k),
            model::find(plan::index_entries(db.store, db.state.generations.last().root), k),
            db.state.generations.last().timestamp.0,
        ),
{
    let last = db.state.generations.last();
    assert(db.state.generations[db.state.generations.len() - 1] == last);
    assert(history::generation_kept(db, last));
    lemma_scanned_key(db, opened, scan, k);
    let past = state::versions_of(db.history, k);
    let now = state::versions_of(db.state.versions, k);
    let found = model::find(plan::index_entries(db.store, last.root), k);
    assert(history::key_kept(db, k));
    assert(history::covered(past, now, db.state.oldest(), found, last.timestamp.0));
    if past.len() > 0 && past.last().timestamp <= last.timestamp.0 && now.len() > 0 {
        assert(now[now.len() - 1] == past.last());
        if now.len() > 1 {
            let dropped = past.len() - now.len();
            assert(now[0] == past[dropped]);
            assert(past[dropped].timestamp < past[past.len() - 1].timestamp);
        }
    }
}

/// Databases with the same history whose stores read the same and whose newest generation is the
/// same keep the pages alike.
pub proof fn lemma_pages_stay(before: DatabaseView, after: DatabaseView)
    requires
        pages_kept(before),
        after.history == before.history,
        forall|id: u64| #[trigger] after.store.read(id) == before.store.read(id),
        after.state.generations.len() > 0 <==> before.state.generations.len() > 0,
        after.state.generations.len() > 0 ==> after.state.generations.last()
            == before.state.generations.last(),
    ensures
        pages_kept(after),
{
    assert forall|id: u64| #[trigger]
        history::page_record(after.store, id) == history::page_record(before.store, id) by {
        assert(after.store.read(id) == before.store.read(id));
    }
    assert forall|id: u64| #[trigger]
        history::page_manifest(after.store, id) == history::page_manifest(before.store, id) by {
        assert(after.store.read(id) == before.store.read(id));
    }
    assert forall|id: u64| id < PAGE_LIMIT implies #[trigger] page_sound(after.store, id) by {
        assert(after.store.read(id) == before.store.read(id));
        assert(page_sound(before.store, id));
    }
}

/// Dropping what no snapshot needs leaves the pages as they are.
pub proof fn law_reclaim_keeps_pages(before: DatabaseView, after: DatabaseView)
    requires
        pages_kept(before),
        history::is_reclaim(before, after),
    ensures
        pages_kept(after),
{
    state::lemma_cover_count_bound(before.state.generations, before.state.oldest());
    lemma_pages_stay(before, after);
}

/// What storing a commit does to a store: every page reads as before, but for the commit's own,
/// which hold its versions.
pub open spec fn commit_stored(
    before: StoreView,
    after: StoreView,
    writes: Seq<WriteView>,
    page_ids: Seq<u64>,
    timestamp: u64,
) -> bool {
    &&& page_ids.len() == writes.len()
    &&& page_ids.no_duplicates()
    &&& forall|id: u64| !page_ids.contains(id) ==> #[trigger] after.read(id) == before.read(id)
    &&& forall|i: int|
        0 <= i < page_ids.len() ==> history::page_record(after, #[trigger] page_ids[i]) == Some(
            RecordView { timestamp, key: writes[i].key, value: writes[i].value },
        )
}

/// A commit leaves pages that tell its versions.
pub proof fn law_commit_keeps_pages(
    before: DatabaseView,
    after: DatabaseView,
    writes: Seq<WriteView>,
    page_ids: Seq<u64>,
    timestamp: u64,
)
    requires
        pages_kept(before),
        state::write_keys(writes).no_duplicates(),
        history::writable(before.history, writes, timestamp),
        commit_stored(before.store, after.store, writes, page_ids, timestamp),
        after.history == state::versions_with(before.history, writes, page_ids, timestamp),
        after.state.generations == before.state.generations,
    ensures
        pages_kept(after),
{
    assert forall|id: u64| !page_ids.contains(id) implies #[trigger] history::page_record(
        after.store,
        id,
    ) == history::page_record(before.store, id) by {
        assert(after.store.read(id) == before.store.read(id));
    }
    assert forall|id: u64| id < PAGE_LIMIT implies #[trigger] page_sound(after.store, id) by {
        if page_ids.contains(id) {
            let i = choose|i: int| 0 <= i < page_ids.len() && page_ids[i] == id;
            assert(history::page_record(after.store, page_ids[i]) is Some);
            lemma_sound(after.store, id);
        } else {
            assert(after.store.read(id) == before.store.read(id));
            assert(page_sound(before.store, id));
        }
    }
    assert forall|id: u64|
        (#[trigger] history::page_manifest(after.store, id)) is Some implies
        after.state.generations.len() > 0 && state::generation_le(
        page_generation(id, history::page_manifest(after.store, id)->0),
        after.state.generations.last(),
    ) by {
        if page_ids.contains(id) {
            let i = choose|i: int| 0 <= i < page_ids.len() && page_ids[i] == id;
            assert(history::page_record(after.store, page_ids[i]) is Some);
            lemma_sound(after.store, id);
        } else {
            assert(after.store.read(id) == before.store.read(id));
            assert(history::page_manifest(before.store, id) == history::page_manifest(
                after.store,
                id,
            ));
        }
    }
    assert forall|id: u64|
        (#[trigger] history::page_record(after.store, id)) is Some implies record_known(
        after.history,
        id,
        history::page_record(after.store, id)->0,
    ) && (!page_ids.contains(id) ==> history::page_record(after.store, id)->0.timestamp < timestamp
        || state::write_at(writes, history::page_record(after.store, id)->0.key) is None) by {
        let found = history::page_record(after.store, id)->0;
        state::law_commit_versions(before.history, writes, page_ids, timestamp, found.key);
        if page_ids.contains(id) {
            let i = choose|i: int| 0 <= i < page_ids.len() && page_ids[i] == id;
            assert(history::page_record(after.store, page_ids[i]) is Some);
            assert(state::write_keys(writes)[i] == found.key);
            lemma_write_at(writes, i);
            let now = state::versions_of(after.history, found.key);
            assert(now.last() == record_version(id, found));
        } else {
            assert(history::page_record(before.store, id) == Some(found));
            assert(record_known(before.history, id, found));
            if let Some(at) = state::write_at(writes, found.key) {
                lemma_write_at_key(writes, found.key);
                assert(writes[at].key == found.key);
                let past = state::versions_of(before.history, found.key);
                assert(past.last().timestamp < timestamp);
                let now = state::versions_of(after.history, found.key);
                assert(now.last().timestamp == timestamp);
            }
        }
    }
    assert forall|a: u64, b: u64|
        a != b && history::page_record(after.store, a) is Some && history::page_record(
            after.store,
            b,
        ) is Some && (#[trigger] history::page_record(after.store, a))->0.key == (
        #[trigger] history::page_record(after.store, b))->0.key implies history::page_record(
        after.store,
        a,
    )->0.timestamp != history::page_record(after.store, b)->0.timestamp by {
        lemma_committed_distinct(before, after, writes, page_ids, timestamp, a, b);
    }
    let indexed = history::indexed_through(after.state.generations);
    if indexed > 0 {
        let k = choose|k: Seq<u8>| #[trigger] committed_since(before.history, indexed, k);
        state::law_commit_versions(before.history, writes, page_ids, timestamp, k);
        if let Some(at) = state::write_at(writes, k) {
            lemma_write_at_key(writes, k);
            assert(writes[at].key == k);
        }
        assert(committed_since(after.history, indexed, k));
    }
}

/// A key that is written has its write.
proof fn lemma_write_at_key(writes: Seq<WriteView>, k: Seq<u8>)
    ensures
        state::write_at(writes, k) matches Some(at) ==> 0 <= at < writes.len() && writes[at].key
            == k,
{
    if let Some(at) = state::write_at(writes, k) {
        assert(state::write_keys(writes)[at] == writes[at].key);
    }
}

/// With distinct keys, the write of a key is the only one.
proof fn lemma_write_at(writes: Seq<WriteView>, i: int)
    requires
        0 <= i < writes.len(),
        state::write_keys(writes).no_duplicates(),
    ensures
        state::write_at(writes, writes[i].key) == Some(i),
{
    let keys = state::write_keys(writes);
    assert(keys[i] == writes[i].key);
    assert(keys.contains(writes[i].key));
}

/// A commit leaves no two records of one key at one timestamp.
proof fn lemma_committed_distinct(
    before: DatabaseView,
    after: DatabaseView,
    writes: Seq<WriteView>,
    page_ids: Seq<u64>,
    timestamp: u64,
    a: u64,
    b: u64,
)
    requires
        pages_kept(before),
        state::write_keys(writes).no_duplicates(),
        commit_stored(before.store, after.store, writes, page_ids, timestamp),
        forall|id: u64|
            !page_ids.contains(id) ==> #[trigger] history::page_record(after.store, id)
                == history::page_record(before.store, id),
        forall|id: u64|
            !page_ids.contains(id) ==> ((#[trigger] history::page_record(
                after.store,
                id,
            )) matches Some(found) ==> found.timestamp < timestamp || state::write_at(
                writes,
                found.key,
            ) is None),
        a != b,
        history::page_record(after.store, a) is Some,
        history::page_record(after.store, b) is Some,
        history::page_record(after.store, a)->0.key == history::page_record(after.store, b)->0.key,
    ensures
        history::page_record(after.store, a)->0.timestamp != history::page_record(
            after.store,
            b,
        )->0.timestamp,
{
    let first = history::page_record(after.store, a)->0;
    let second = history::page_record(after.store, b)->0;
    if page_ids.contains(a) {
        let i = choose|i: int| 0 <= i < page_ids.len() && page_ids[i] == a;
        assert(history::page_record(after.store, page_ids[i]) is Some);
        lemma_write_at(writes, i);
        if page_ids.contains(b) {
            let j = choose|j: int| 0 <= j < page_ids.len() && page_ids[j] == b;
            assert(history::page_record(after.store, page_ids[j]) is Some);
            lemma_write_at(writes, j);
        }
    } else if page_ids.contains(b) {
        let j = choose|j: int| 0 <= j < page_ids.len() && page_ids[j] == b;
        assert(history::page_record(after.store, page_ids[j]) is Some);
        lemma_write_at(writes, j);
    } else {
        assert(history::page_record(before.store, a) == Some(first));
        assert(history::page_record(before.store, b) == Some(second));
    }
}

/// What storing a generation does to a store: pages that read otherwise hold index nodes, but for
/// the manifest's.
pub open spec fn generation_stored(
    before: StoreView,
    after: StoreView,
    added: IndexGeneration,
) -> bool {
    &&& history::page_manifest(after, added.manifest_page_id.0) == Some(
        (added.timestamp.0, added.root),
    )
    &&& forall|id: u64|
        id == added.manifest_page_id.0 || #[trigger] after.read(id) == before.read(id)
            || model::store_nodes(after).contains_key(id)
}

/// Publishing a generation leaves pages that tell it. Some version has to be as new as the
/// generation: one that is newer than every stored version is not found again.
pub proof fn law_publish_keeps_pages(
    before: DatabaseView,
    after: DatabaseView,
    added: IndexGeneration,
)
    requires
        pages_kept(before),
        generation_stored(before.store, after.store, added),
        before.state.generations.len() > 0 ==> history::indexed_through(before.state.generations)
            < added.timestamp.0,
        reached(before.history, added.timestamp.0),
        after.history == before.history,
        after.state.generations.len() > 0,
        after.state.generations.last() == added,
    ensures
        pages_kept(after),
{
    let own = added.manifest_page_id.0;
    assert forall|id: u64| #[trigger] history::page_record(after.store, id) is None
        || history::page_record(after.store, id) == history::page_record(before.store, id) by {
        lemma_sound(after.store, id);
        assert(id == own || after.store.read(id) == before.store.read(id) || model::store_nodes(
            after.store,
        ).contains_key(id));
    }
    assert forall|id: u64| id < PAGE_LIMIT implies #[trigger] page_sound(after.store, id) by {
        lemma_sound(after.store, id);
        assert(page_sound(before.store, id));
        assert(id == own || after.store.read(id) == before.store.read(id) || model::store_nodes(
            after.store,
        ).contains_key(id));
    }
    assert forall|id: u64|
        (#[trigger] history::page_manifest(after.store, id)) is Some implies state::generation_le(
        page_generation(id, history::page_manifest(after.store, id)->0),
        added,
    ) by {
        lemma_sound(after.store, id);
        assert(id == own || after.store.read(id) == before.store.read(id) || model::store_nodes(
            after.store,
        ).contains_key(id));
        if id != own {
            assert(history::page_manifest(before.store, id) == history::page_manifest(
                after.store,
                id,
            ));
        }
    }
    assert(records_distinct(after.store)) by {
        assert forall|a: u64, b: u64|
            a != b && history::page_record(after.store, a) is Some && history::page_record(
                after.store,
                b,
            ) is Some && (#[trigger] history::page_record(after.store, a))->0.key == (
            #[trigger] history::page_record(after.store, b))->0.key implies history::page_record(
            after.store,
            a,
        )->0.timestamp != history::page_record(after.store, b)->0.timestamp by {
            assert(history::page_record(after.store, a) == history::page_record(before.store, a));
            assert(history::page_record(after.store, b) == history::page_record(before.store, b));
        }
    }
}

/// Whether no manifest of a scan is newer than every version.
pub open spec fn manifests_reached(scan: ScanView) -> bool {
    forall|i: int|
        0 <= i < scan.generations.len() ==> (#[trigger] scan.generations[i]).timestamp.0
            <= scan.highest
}

/// Opening leaves pages that tell what was found, unless a manifest is newer than every version.
pub proof fn law_open_keeps_pages(store: StoreView, scan: ScanView, db: DatabaseView)
    requires
        store.data.wf(),
        recovery::pages_scanned(store, store.data.page_count as nat) == Ok::<
            ScanView,
            crate::mvcc::error::TransactionErrorView,
        >(scan),
        manifests_reached(scan),
        recovery::is_opened(store, scan, db),
    ensures
        pages_kept(db),
{
    let count = store.data.page_count as nat;
    recovery::lemma_scan_sound(store, count);
    lemma_scan_complete(store, count);
    recovery::lemma_opened_generations(scan, store, count);
    recovery::lemma_generations_ordered(scan.generations, scan.highest);
    let found = DatabaseView { store, ..db };
    assert forall|id: u64| id < PAGE_LIMIT implies #[trigger] page_sound(store, id) by {
        if id < count {
            assert(page_sound(store, id));
        }
    }
    assert forall|id: u64|
        (#[trigger] history::page_record(store, id)) is Some implies record_known(
        db.history,
        id,
        history::page_record(store, id)->0,
    ) by {
        let made = history::page_record(store, id)->0;
        lemma_record_found(store, scan, count, id);
        let versions = scan.versions[made.key];
        let i = choose|i: int|
            0 <= i < versions.len() && versions[i] == record_version(id, made);
        let at = versions.len() - 1;
        if i < at {
            assert(versions[i].timestamp < versions[at].timestamp);
        }
        assert(state::versions_of(db.history, made.key) == seq![versions.last()]);
        assert(state::versions_of(db.history, made.key).last() == versions[at]);
    }
    assert(records_distinct(store)) by {
        assert forall|a: u64, b: u64|
            a != b && history::page_record(store, a) is Some && history::page_record(
                store,
                b,
            ) is Some && (#[trigger] history::page_record(store, a))->0.key == (
            #[trigger] history::page_record(store, b))->0.key implies history::page_record(
            store,
            a,
        )->0.timestamp != history::page_record(store, b)->0.timestamp by {
            let first = history::page_record(store, a)->0;
            let second = history::page_record(store, b)->0;
            lemma_record_found(store, scan, count, a);
            lemma_record_found(store, scan, count, b);
            let versions = scan.versions[first.key];
            let i = choose|i: int|
                0 <= i < versions.len() && versions[i] == record_version(a, first);
            let j = choose|j: int|
                0 <= j < versions.len() && versions[j] == record_version(b, second);
            if i < j {
                assert(versions[i].timestamp < versions[j].timestamp);
            } else if j < i {
                assert(versions[j].timestamp < versions[i].timestamp);
            }
        }
    }
    let generations = recovery::generations_ordered(scan.generations, scan.highest);
    assert forall|id: u64|
        (#[trigger] history::page_manifest(store, id)) is Some implies
        db.state.generations.len() > 0 && state::generation_le(
        page_generation(id, history::page_manifest(store, id)->0),
        db.state.generations.last(),
    ) by {
        let made = history::page_manifest(store, id)->0;
        assert(id < count);
        assert(scan.generations.contains(page_generation(id, made)));
        let i = choose|i: int|
            0 <= i < scan.generations.len() && scan.generations[i] == page_generation(id, made);
        assert(generations.contains(scan.generations[i]));
        let at = choose|at: int| 0 <= at < generations.len() && generations[at]
            == page_generation(id, made);
        let top = generations[generations.len() - 1];
        if at < generations.len() - 1 {
            assert(state::generation_le(generations[at], top));
        }
        assert(db.state.generations.last() == top);
    }
    assert(reached(db.history, history::indexed_through(db.state.generations))) by {
        let indexed = history::indexed_through(db.state.generations);
        if indexed > 0 {
            assert(generations[generations.len() - 1].timestamp.0 <= scan.highest);
            assert(db.state.generations.last() == generations.last());
            let k = choose|k: Seq<u8>| #[trigger] committed_since(scan.versions, scan.highest, k);
            assert(state::versions_of(db.history, k) == seq![scan.versions[k].last()]);
            assert(state::versions_of(db.history, k).last() == scan.versions[k].last());
            assert(committed_since(db.history, indexed, k));
        }
    }
    lemma_pages_stay(found, db);
}

/// A record is among what a scan found.
proof fn lemma_record_found(store: StoreView, scan: ScanView, count: nat, id: u64)
    requires
        scan_complete(store, scan, count),
        count == store.data.page_count,
        history::page_record(store, id) is Some,
    ensures
        id < count,
        scan.versions.contains_key(history::page_record(store, id)->0.key),
        scan.versions[history::page_record(store, id)->0.key].contains(
            record_version(id, history::page_record(store, id)->0),
        ),
{
    let made = history::page_record(store, id)->0;
    assert(id < count);
    assert(state::versions_of(scan.versions, made.key).contains(record_version(id, made)));
}

/// A generation is stored in every store that reads the same.
pub proof fn lemma_stored_reads(
    before: StoreView,
    after: StoreView,
    again: StoreView,
    added: IndexGeneration,
)
    requires
        generation_stored(before, after, added),
        forall|id: u64| #[trigger] again.read(id) == after.read(id),
    ensures
        generation_stored(before, again, added),
{
    assert(again.read(added.manifest_page_id.0) == after.read(added.manifest_page_id.0));
    assert forall|id: u64|
        id == added.manifest_page_id.0 || #[trigger] again.read(id) == before.read(id)
            || model::store_nodes(again).contains_key(id) by {
        assert(again.read(id) == after.read(id));
    }
}

/// No manifest in a reopened store is newer than every version.
pub proof fn lemma_manifests_reached(db: DatabaseView, opened: StoreView, scan: ScanView)
    requires
        history::in_order(db),
        pages_kept(db),
        is_reopened(db, opened),
        recovery::pages_scanned(opened, opened.data.page_count as nat) == Ok::<
            ScanView,
            crate::mvcc::error::TransactionErrorView,
        >(scan),
    ensures
        manifests_reached(scan),
{
    let count = opened.data.page_count as nat;
    lemma_reads_same(db, opened);
    recovery::lemma_scan_sound(opened, count);
    lemma_scan_complete(opened, count);
    assert forall|i: int| 0 <= i < scan.generations.len() implies (
    #[trigger] scan.generations[i]).timestamp.0 <= scan.highest by {
        let page = scan.generations[i].manifest_page_id.0;
        assert(history::page_manifest(db.store, page) == history::page_manifest(opened, page));
        let last = db.state.generations.last();
        assert(state::generation_le(
            page_generation(page, history::page_manifest(opened, page)->0),
            last,
        ));
        if last.timestamp.0 > 0 {
            let k = choose|k: Seq<u8>| #[trigger] committed_since(
                db.history,
                last.timestamp.0,
                k,
            );
            lemma_scanned_key(db, opened, scan, k);
        }
    }
}

} // verus!
