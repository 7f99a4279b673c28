//! Finding the versions and generations of a database in the pages of its store.
use crate::index::model;
use crate::index::plan;
use crate::mvcc::error::{TransactionError, TransactionErrorView};
use crate::mvcc::history;
use crate::mvcc::history::DatabaseView;
use crate::mvcc::key_map::KeyMap;
use crate::mvcc::manifest;
use crate::mvcc::manifest::IndexGeneration;
use crate::mvcc::record;
use crate::mvcc::record::{RecordView, Timestamp, VersionRecord};
use crate::mvcc::state;
use crate::mvcc::state::{StateView, Version, VersionView};
use crate::storage::page::PageId;
use crate::storage::store;
use crate::storage::store::{DurableStore, StoreView};
use crate::text;
use crate::text::text_with_number;
use vstd::prelude::*;

verus! {

/// What the pages of a store hold of a database.
#[verifier::ext_equal]
pub struct ScanView {
    pub versions: Map<Seq<u8>, Seq<VersionView>>,
    /// The generations in the order of their manifest pages.
    pub generations: Seq<IndexGeneration>,
    /// The largest timestamp of a version.
    pub highest: u64,
}

/// Whether a version has a timestamp.
pub open spec fn has_timestamp(versions: Seq<VersionView>, timestamp: u64) -> bool {
    exists|i: int| 0 <= i < versions.len() && (#[trigger] versions[i]).timestamp == timestamp
}

/// The refusal of a page with a second version of a key at one timestamp.
pub open spec fn duplicate_version(page: u64, timestamp: u64) -> TransactionErrorView {
    TransactionErrorView::CorruptRecord {
        page_id: page,
        reason: "duplicate version timestamp "@ + text::decimal(timestamp as nat)
            + " for one key"@,
    }
}

/// Versions with one more, at its place by timestamp.
pub open spec fn version_placed(versions: Seq<VersionView>, added: VersionView) -> Seq<VersionView> {
    versions.insert(state::visible_count(versions, added.timestamp) as int, added)
}

/// What is known after one more page.
pub open spec fn page_added(store: StoreView, scan: ScanView, page: u64) -> Result<
    ScanView,
    TransactionErrorView,
> {
    match store.read(page) {
        Err(error) => Err(TransactionErrorView::Storage(error)),
        Ok(None) => Ok(scan),
        Ok(Some(found)) => match manifest::manifest_decoded(found.payload) {
            Err(reason) => Err(TransactionErrorView::CorruptRecord { page_id: page, reason }),
            Ok(Some((timestamp, root))) => Ok(
                ScanView {
                    generations: scan.generations.push(
                        IndexGeneration {
                            timestamp: Timestamp(timestamp),
                            root,
                            manifest_page_id: PageId(page),
                        },
                    ),
                    ..scan
                },
            ),
            Ok(None) => match record::record_decoded(found.payload) {
                Err(reason) => Err(TransactionErrorView::CorruptRecord { page_id: page, reason }),
                Ok(None) => Ok(scan),
                Ok(Some(found)) => record_added(scan, page, found),
            },
        },
    }
}

/// What is known after one more record.
pub open spec fn record_added(scan: ScanView, page: u64, found: RecordView) -> Result<
    ScanView,
    TransactionErrorView,
> {
    let versions = state::versions_of(scan.versions, found.key);
    if has_timestamp(versions, found.timestamp) {
        Err(duplicate_version(page, found.timestamp))
    } else {
        Ok(
            ScanView {
                versions: scan.versions.insert(
                    found.key,
                    version_placed(
                        versions,
                        VersionView { timestamp: found.timestamp, value: found.value, page },
                    ),
                ),
                highest: if found.timestamp > scan.highest {
                    found.timestamp
                } else {
                    scan.highest
                },
                ..scan
            },
        )
    }
}

/// What is known after the first pages, or the first thing that is wrong with them.
pub open spec fn pages_scanned(store: StoreView, count: nat) -> Result<
    ScanView,
    TransactionErrorView,
>
    decreases count,
{
    if count == 0 {
        Ok(ScanView { versions: Map::empty(), generations: Seq::empty(), highest: 0 })
    } else {
        match pages_scanned(store, (count - 1) as nat) {
            Err(error) => Err(error),
            Ok(scan) => page_added(store, scan, (count - 1) as u64),
        }
    }
}

/// What holds of everything that a scan found.
pub open spec fn scan_sound(store: StoreView, scan: ScanView, count: nat) -> bool {
    &&& forall|k: Seq<u8>| #[trigger]
        scan.versions.contains_key(k) ==> scan.versions[k].len() > 0 && history::versions_rise(
            scan.versions[k],
        )
    &&& forall|k: Seq<u8>, i: int|
        scan.versions.contains_key(k) && 0 <= i < scan.versions[k].len() ==> {
            let version = #[trigger] scan.versions[k][i];
            &&& 0 < version.timestamp <= scan.highest
            &&& version.page < count
            &&& history::page_record(store, version.page) == Some(
                history::version_record(k, version),
            )
        }
    &&& forall|i: int|
        0 <= i < scan.generations.len() ==> {
            let generation = #[trigger] scan.generations[i];
            &&& generation.manifest_page_id.0 < count
            &&& history::page_manifest(store, generation.manifest_page_id.0) == Some(
                (generation.timestamp.0, generation.root),
            )
        }
    &&& forall|i: int, j: int|
        0 <= i < j < scan.generations.len() ==> (
        #[trigger] scan.generations[i]).manifest_page_id.0 < (
        #[trigger] scan.generations[j]).manifest_page_id.0
}

/// A version put at its place by timestamp.
pub proof fn lemma_version_placed(versions: Seq<VersionView>, added: VersionView)
    requires
        history::versions_rise(versions),
        !has_timestamp(versions, added.timestamp),
    ensures
        history::versions_rise(version_placed(versions, added)),
        version_placed(versions, added).len() == versions.len() + 1,
        forall|i: int|
            0 <= i < version_placed(versions, added).len() ==> (
            #[trigger] version_placed(versions, added)[i]) == added || versions.contains(
                version_placed(versions, added)[i],
            ),
        forall|i: int|
            0 <= i < versions.len() ==> version_placed(versions, added).contains(
                #[trigger] versions[i],
            ),
        version_placed(versions, added).contains(added),
{
    let at = state::visible_count(versions, added.timestamp) as int;
    state::lemma_visible_count_bound(versions, added.timestamp);
    let all = version_placed(versions, added);
    assert forall|i: int| 0 <= i < at implies (#[trigger] versions[i]).timestamp
        < added.timestamp by {
        if i < at - 1 {
            assert(versions[i].timestamp < versions[at - 1].timestamp);
        }
    }
    assert forall|i: int, j: int| 0 <= i < j < all.len() implies (#[trigger] all[i]).timestamp < (
    #[trigger] all[j]).timestamp by {
        let from_i = if i < at {
            i
        } else {
            i - 1
        };
        let from_j = if j < at {
            j
        } else {
            j - 1
        };
        if i != at {
            assert(all[i] == versions[from_i]);
        }
        if j != at {
            assert(all[j] == versions[from_j]);
        }
    }
    assert forall|i: int| 0 <= i < all.len() implies (#[trigger] all[i]) == added
        || versions.contains(all[i]) by {
        if i < at {
            assert(all[i] == versions[i]);
        } else if i > at {
            assert(all[i] == versions[i - 1]);
        }
    }
    assert forall|i: int| 0 <= i < versions.len() implies all.contains(#[trigger] versions[i]) by {
        if i < at {
            assert(all[i] == versions[i]);
        } else {
            assert(all[i + 1] == versions[i]);
        }
    }
    assert(all[at] == added);
}

proof fn lemma_record_added(store: StoreView, scan: ScanView, count: nat, found: RecordView)
    requires
        scan_sound(store, scan, count),
        count <= u64::MAX,
        found.timestamp > 0,
        history::page_record(store, count as u64) == Some(found),
    ensures
        record_added(scan, count as u64, found) matches Ok(after) ==> scan_sound(
            store,
            after,
            count + 1,
        ),
{
    if let Ok(after) = record_added(scan, count as u64, found) {
        let old_versions = state::versions_of(scan.versions, found.key);
        let added = VersionView {
            timestamp: found.timestamp,
            value: found.value,
            page: count as u64,
        };
        let placed = version_placed(old_versions, added);
        lemma_version_placed(old_versions, added);
        assert forall|k: Seq<u8>, i: int|
            after.versions.contains_key(k) && 0 <= i < after.versions[k].len() implies {
            let version = #[trigger] after.versions[k][i];
            &&& 0 < version.timestamp <= after.highest
            &&& version.page < count + 1
            &&& history::page_record(store, version.page) == Some(
                history::version_record(k, version),
            )
        } by {
            if k == found.key {
                assert(after.versions[k] == placed);
                if placed[i] != added {
                    assert(old_versions.contains(placed[i]));
                    let j = choose|j: int|
                        0 <= j < old_versions.len() && old_versions[j] == placed[i];
                    assert(scan.versions[k][j] == placed[i]);
                }
            } else {
                assert(scan.versions.contains_key(k));
                assert(scan.versions[k][i] == after.versions[k][i]);
            }
        }
        assert forall|k: Seq<u8>| #[trigger]
            after.versions.contains_key(k) implies after.versions[k].len() > 0
            && history::versions_rise(after.versions[k]) by {
            if k != found.key {
                assert(scan.versions.contains_key(k));
            }
        }
    }
}

/// Everything that a scan found is sound.
pub proof fn lemma_scan_sound(store: StoreView, count: nat)
    requires
        count <= u64::MAX,
    ensures
        pages_scanned(store, count) matches Ok(scan) ==> scan_sound(store, scan, count),
    decreases count,
{
    if count > 0 {
        let before = (count - 1) as nat;
        lemma_scan_sound(store, before);
        if let Ok(scan) = pages_scanned(store, before) {
            let page = before as u64;
            match store.read(page) {
                Ok(Some(found)) => match manifest::manifest_decoded(found.payload) {
                    Ok(None) => match record::record_decoded(found.payload) {
                        Ok(Some(found)) => {
                            lemma_record_added(store, scan, before, found);
                        },
                        _ => {},
                    },
                    _ => {},
                },
                _ => {},
            }
        }
    }
}

/// What a scan found.
pub(crate) struct Scanned {
    pub versions: KeyMap<Vec<Version>>,
    pub generations: Vec<IndexGeneration>,
    pub highest: u64,
}

impl Scanned {
    pub(crate) open spec fn wf(&self) -> bool {
        self.versions.wf()
    }

    pub(crate) open spec fn found(&self) -> ScanView {
        ScanView {
            versions: state::version_map(self.versions@),
            generations: self.generations@,
            highest: self.highest,
        }
    }
}

/// The place of a timestamp among versions.
fn version_place(versions: &Vec<Version>, timestamp: Timestamp) -> (at: usize)
    ensures
        at == state::visible_count(state::version_views(versions@), timestamp.0),
        at <= versions@.len(),
{
    let ghost all = state::version_views(versions@);
    let mut at: usize = versions.len();
    assert(all.take(at as int) =~= all);
    while at > 0 && versions[at - 1].timestamp.0 > timestamp.0
        invariant
            at <= versions@.len(),
            all == state::version_views(versions@),
            state::visible_count(all, timestamp.0) == state::visible_count(
                all.take(at as int),
                timestamp.0,
            ),
        decreases at,
    {
        proof {
            let part = all.take(at as int);
            assert(part.last() == versions@[at - 1]@);
            assert(part.drop_last() =~= all.take(at - 1));
        }
        at = at - 1;
    }
    proof {
        let part = all.take(at as int);
        if at > 0 {
            assert(part.last() == versions@[at - 1]@);
        }
    }
    at
}

/// Adds one record to what is known.
fn add_record(scanned: &mut Scanned, page_id: PageId, found: VersionRecord) -> (added: Result<
    (),
    TransactionError,
>)
    requires
        old(scanned).wf(),
        forall|k: Seq<u8>| #[trigger]
            old(scanned).found().versions.contains_key(k) ==> history::versions_rise(
                old(scanned).found().versions[k],
            ),
    ensures
        match added {
            Ok(_) => final(scanned).wf() && record_added(
                old(scanned).found(),
                page_id.0,
                found@,
            ) == Ok::<ScanView, TransactionErrorView>(final(scanned).found()),
            Err(error) => record_added(old(scanned).found(), page_id.0, found@) == Err::<
                ScanView,
                TransactionErrorView,
            >(error@),
        },
{
    let ghost start = scanned.found();
    let ghost view = found@;
    let ghost held = scanned.versions@;
    let timestamp = found.timestamp;
    let mut list = match scanned.versions.remove(found.key.as_slice()) {
        Some(list) => list,
        None => Vec::new(),
    };
    let ghost had = state::version_views(list@);
    let at: usize = version_place(&list, timestamp);
    proof {
        assert(had =~= state::versions_of(start.versions, view.key));
        state::lemma_visible_count_bound(had, timestamp.0);
        assert forall|i: int| 0 <= i < had.len() && (#[trigger] had[i]).timestamp
            == timestamp.0 implies i == at - 1 by {
            if i < at - 1 {
                assert(had[i].timestamp < had[at - 1].timestamp);
            }
        }
    }
    if at > 0 && list[at - 1].timestamp.0 == timestamp.0 {
        assert(had[at - 1].timestamp == timestamp.0);
        return Err(
            TransactionError::CorruptRecord {
                page_id,
                reason: text_with_number(
                    "duplicate version timestamp ",
                    timestamp.0,
                    " for one key",
                ),
            },
        );
    }
    assert(!has_timestamp(had, timestamp.0));
    let version = Version { timestamp, value: found.value, page_id };
    let ghost added = version@;
    list.insert(at, version);
    scanned.versions.insert(found.key, list);
    proof {
        assert(state::version_views(list@) =~= version_placed(had, added));
        assert(state::version_map(scanned.versions@) =~= start.versions.insert(
            view.key,
            version_placed(had, added),
        ));
    }
    if timestamp.0 > scanned.highest {
        scanned.highest = timestamp.0;
    }
    Ok(())
}

/// Reads all pages of a store.
pub(crate) fn scan_pages(store: &DurableStore) -> (scanned: Result<Scanned, TransactionError>)
    requires
        store@.wf(),
    ensures
        match scanned {
            Ok(scanned) => scanned.wf() && pages_scanned(
                store@,
                store@.data.page_count as nat,
            ) == Ok::<ScanView, TransactionErrorView>(scanned.found()),
            Err(error) => pages_scanned(store@, store@.data.page_count as nat) == Err::<
                ScanView,
                TransactionErrorView,
            >(error@),
        },
{
    let mut scanned = Scanned { versions: KeyMap::new(), generations: Vec::new(), highest: 0 };
    let count: u64 = store.page_count();
    let mut page: u64 = 0;
    assert(scanned.found().versions =~= Map::empty());
    while page < count
        invariant
            page <= count == store@.data.page_count,
            store@.wf(),
            scanned.wf(),
            pages_scanned(store@, page as nat) == Ok::<ScanView, TransactionErrorView>(
                scanned.found(),
            ),
        decreases count - page,
    {
        let ghost before = scanned.found();
        proof {
            lemma_scan_sound(store@, page as nat);
            if page_added(store@, before, page) is Err {
                lemma_scan_fails(store@, page as nat, count as nat);
            }
        }
        let page_id = PageId(page);
        let found = match store.read_page(page_id) {
            Ok(found) => found,
            Err(error) => {
                return Err(TransactionError::Storage(error));
            },
        };
        if let Some(found) = found {
            let decoded = match IndexGeneration::decode(page_id, found.payload()) {
                Ok(decoded) => decoded,
                Err(error) => {
                    return Err(error);
                },
            };
            match decoded {
                Some(generation) => {
                    scanned.generations.push(generation);
                    assert(scanned.found() == page_added(store@, before, page)->Ok_0);
                },
                None => {
                    let decoded = match VersionRecord::decode(page_id, found.payload()) {
                        Ok(decoded) => decoded,
                        Err(error) => {
                            return Err(error);
                        },
                    };
                    if let Some(decoded) = decoded {
                        match add_record(&mut scanned, page_id, decoded) {
                            Ok(_) => {},
                            Err(error) => {
                                return Err(error);
                            },
                        }
                    }
                },
            }
        }
        page = page + 1;
    }
    Ok(scanned)
}

/// A scan that fails at a page fails there however many follow.
proof fn lemma_scan_fails(store: StoreView, at: nat, count: nat)
    requires
        at < count <= u64::MAX,
        pages_scanned(store, at) matches Ok(scan) && page_added(store, scan, at as u64) is Err,
    ensures
        pages_scanned(store, at) matches Ok(scan) && page_added(
            store,
            scan,
            at as u64,
        ) matches Err(error) && pages_scanned(store, count) == Err::<
            ScanView,
            TransactionErrorView,
        >(error),
    decreases count,
{
    if at + 1 < count {
        lemma_scan_fails(store, at, (count - 1) as nat);
    }
}

/// The generations up to a timestamp, by timestamp and manifest page.
pub open spec fn generations_ordered(found: Seq<IndexGeneration>, highest: u64) -> Seq<
    IndexGeneration,
>
    decreases found.len(),
{
    if found.len() == 0 {
        Seq::empty()
    } else {
        let before = generations_ordered(found.drop_last(), highest);
        if found.last().timestamp.0 <= highest {
            state::generations_with(before, found.last())
        } else {
            before
        }
    }
}

/// Whether generations stand in order.
pub open spec fn in_sequence(generations: Seq<IndexGeneration>) -> bool {
    forall|i: int, j: int|
        0 <= i < j < generations.len() ==> state::generation_le(
            #[trigger] generations[i],
            #[trigger] generations[j],
        ) && generations[i].manifest_page_id != generations[j].manifest_page_id
}

proof fn lemma_generation_inserted(generations: Seq<IndexGeneration>, added: IndexGeneration)
    requires
        in_sequence(generations),
        forall|i: int|
            0 <= i < generations.len() ==> (#[trigger] generations[i]).manifest_page_id
                != added.manifest_page_id,
    ensures
        in_sequence(state::generations_with(generations, added)),
        forall|i: int|
            0 <= i < state::generations_with(generations, added).len() ==> (
            #[trigger] state::generations_with(generations, added)[i]) == added
                || generations.contains(state::generations_with(generations, added)[i]),
        state::generations_with(generations, added).contains(added),
        forall|i: int|
            0 <= i < generations.len() ==> state::generations_with(generations, added).contains(
                #[trigger] generations[i],
            ),
{
    let rank = state::generation_rank(generations, added) as int;
    lemma_rank_splits(generations, added);
    let all = state::generations_with(generations, added);
    assert(all == generations.insert(rank, added));
    assert forall|i: int, j: int| 0 <= i < j < all.len() implies state::generation_le(
        #[trigger] all[i],
        #[trigger] all[j],
    ) && all[i].manifest_page_id != all[j].manifest_page_id by {
        let from_i = if i < rank {
            i
        } else {
            i - 1
        };
        let from_j = if j < rank {
            j
        } else {
            j - 1
        };
        if i != rank {
            assert(all[i] == generations[from_i]);
        }
        if j != rank {
            assert(all[j] == generations[from_j]);
        }
    }
    assert forall|i: int| 0 <= i < all.len() implies (#[trigger] all[i]) == added
        || generations.contains(all[i]) by {
        if i < rank {
            assert(all[i] == generations[i]);
        } else if i > rank {
            assert(all[i] == generations[i - 1]);
        }
    }
    assert(all[rank] == added);
    assert forall|i: int| 0 <= i < generations.len() implies all.contains(
        #[trigger] generations[i],
    ) by {
        if i < rank {
            assert(all[i] == generations[i]);
        } else {
            assert(all[i + 1] == generations[i]);
        }
    }
}

proof fn lemma_rank_splits(generations: Seq<IndexGeneration>, added: IndexGeneration)
    requires
        in_sequence(generations),
    ensures
        state::generation_rank(generations, added) <= generations.len(),
        forall|i: int|
            0 <= i < state::generation_rank(generations, added) ==> state::generation_le(
                #[trigger] generations[i],
                added,
            ),
        forall|i: int|
            state::generation_rank(generations, added) <= i < generations.len()
                ==> !state::generation_le(#[trigger] generations[i], added),
    decreases generations.len(),
{
    if generations.len() > 0 {
        let last = generations.len() - 1;
        assert(generations[last] == generations.last());
        if state::generation_le(generations.last(), added) {
            assert forall|i: int| 0 <= i < generations.len() implies state::generation_le(
                #[trigger] generations[i],
                added,
            ) by {
                if i < last {
                    assert(state::generation_le(generations[i], generations[last]));
                }
            }
        } else {
            let head = generations.drop_last();
            assert(in_sequence(head)) by {
                assert forall|i: int, j: int| 0 <= i < j < head.len() implies state::generation_le(
                    #[trigger] head[i],
                    #[trigger] head[j],
                ) && head[i].manifest_page_id != head[j].manifest_page_id by {
                    assert(head[i] == generations[i] && head[j] == generations[j]);
                }
            }
            lemma_rank_splits(head, added);
            assert forall|i: int| 0 <= i < head.len() implies head[i] == #[trigger] generations[i] by {}
        }
    }
}

/// The ordered generations are those found that are not too new.
pub proof fn lemma_generations_ordered(found: Seq<IndexGeneration>, highest: u64)
    requires
        forall|i: int, j: int|
            0 <= i < j < found.len() ==> (#[trigger] found[i]).manifest_page_id.0 < (
            #[trigger] found[j]).manifest_page_id.0,
    ensures
        in_sequence(generations_ordered(found, highest)),
        forall|i: int|
            0 <= i < generations_ordered(found, highest).len() ==> found.contains(
                #[trigger] generations_ordered(found, highest)[i],
            ) && generations_ordered(found, highest)[i].timestamp.0 <= highest,
        forall|i: int|
            0 <= i < found.len() && (#[trigger] found[i]).timestamp.0 <= highest
                ==> generations_ordered(found, highest).contains(found[i]),
    decreases found.len(),
{
    if found.len() > 0 {
        let head = found.drop_last();
        assert forall|i: int, j: int| 0 <= i < j < head.len() implies (
        #[trigger] head[i]).manifest_page_id.0 < (#[trigger] head[j]).manifest_page_id.0 by {
            assert(head[i] == found[i] && head[j] == found[j]);
        }
        lemma_generations_ordered(head, highest);
        let before = generations_ordered(head, highest);
        let all = generations_ordered(found, highest);
        assert forall|i: int| 0 <= i < before.len() implies found.contains(
            #[trigger] before[i],
        ) && before[i].manifest_page_id != found.last().manifest_page_id by {
            assert(head.contains(before[i]));
            let j = choose|j: int| 0 <= j < head.len() && head[j] == before[i];
            assert(found[j] == before[i]);
            assert(found[found.len() - 1] == found.last());
        }
        if found.last().timestamp.0 <= highest {
            lemma_generation_inserted(before, found.last());
            assert forall|i: int| 0 <= i < all.len() implies found.contains(#[trigger] all[i])
                && all[i].timestamp.0 <= highest by {
                if all[i] != found.last() {
                    assert(before.contains(all[i]));
                    let j = choose|j: int| 0 <= j < before.len() && before[j] == all[i];
                    assert(found.contains(before[j]));
                } else {
                    assert(found[found.len() - 1] == all[i]);
                }
            }
        }
        assert forall|i: int|
            0 <= i < found.len() && (#[trigger] found[i]).timestamp.0 <= highest implies all.contains(
            found[i],
        ) by {
            if i < head.len() {
                assert(head[i] == found[i]);
                assert(before.contains(head[i]));
                let j = choose|j: int| 0 <= j < before.len() && before[j] == head[i];
                if found.last().timestamp.0 <= highest {
                    assert(all.contains(before[j]));
                }
            } else {
                assert(found[i] == found.last());
            }
        }
    }
}

/// The state of a database whose pages were read, before anything is dropped.
pub open spec fn scanned_state(scan: ScanView) -> StateView {
    let generations = generations_ordered(scan.generations, scan.highest);
    StateView {
        versions: scan.versions,
        intents: Map::empty(),
        active: Seq::empty(),
        completed: Set::empty(),
        next_transaction_id: 1,
        next_commit_timestamp: (scan.highest + 1) as u64,
        visible: scan.highest,
        generations,
        dirty: Set::new(
            |k: Seq<u8>|
                scan.versions.contains_key(k) && state::has_newer(
                    state::versions_of(scan.versions, k),
                    history::indexed_through(generations),
                ),
        ),
        reclaimed: 0,
    }
}

/// The newest version of each key.
pub open spec fn newest_only(versions: Map<Seq<u8>, Seq<VersionView>>) -> Map<
    Seq<u8>,
    Seq<VersionView>,
> {
    Map::new(|k: Seq<u8>| versions.contains_key(k), |k: Seq<u8>| seq![versions[k].last()])
}

/// Whether the newest generation that was found is an index, and agrees with the versions that
/// were found.
pub open spec fn newest_generation_sound(store: StoreView, scan: ScanView) -> bool {
    let generations = generations_ordered(scan.generations, scan.highest);
    generations.len() > 0 ==> {
        &&& plan::index_holds(store, generations.last().root)
        &&& state::index_matches(
            scan.versions,
            plan::index_entries(store, generations.last().root),
            generations.last().timestamp.0,
        )
    }
}

/// What dropping leaves of a key right after its versions were read: its newest version, or
/// nothing if the newest generation has it.
proof fn lemma_opened_key(scan: ScanView, store: StoreView, count: nat, k: Seq<u8>)
    requires
        scan_sound(store, scan, count),
        scan.versions.contains_key(k),
    ensures
        state::kept_versions(scan.versions[k], scanned_state(scan).oldest()) == seq![
            scan.versions[k].last(),
        ],
{
    let versions = scan.versions[k];
    let last = versions.len() - 1;
    assert(scanned_state(scan).oldest() == scan.highest);
    assert(versions[last] == versions.last());
    assert(versions[last].timestamp <= scan.highest);
    assert(state::visible_count(versions, scan.highest) == versions.len());
    assert(versions.skip(last) =~= seq![versions.last()]);
}

/// A database that was just opened keeps its newest generation only.
pub proof fn lemma_opened_generations(scan: ScanView, store: StoreView, count: nat)
    requires
        scan_sound(store, scan, count),
    ensures
        ({
            let init = scanned_state(scan);
            let generations = init.generations;
            state::kept_generations(init) == (if generations.len() == 0 {
                Seq::empty()
            } else {
                seq![generations.last()]
            })
        }),
{
    let init = scanned_state(scan);
    let generations = init.generations;
    lemma_generations_ordered(scan.generations, scan.highest);
    if generations.len() > 0 {
        let last = generations.len() - 1;
        assert(generations[last] == generations.last());
        assert(generations[last].timestamp.0 <= scan.highest);
        assert(state::cover_count(generations, scan.highest) == generations.len());
        assert(generations.skip(last) =~= seq![generations.last()]);
    } else {
        assert(generations =~= Seq::empty());
    }
}

/// What a page that is given back at opening held.
proof fn lemma_opened_freed(scan: ScanView, store: StoreView, count: nat, page: u64)
    requires
        scan_sound(store, scan, count),
        state::page_freed(scanned_state(scan), page),
    ensures
        history::page_manifest(store, page) is Some || history::page_record(store, page) is Some,
        history::page_record(store, page) matches Some(found) ==> scan.versions.contains_key(
            found.key,
        ) && found.timestamp < scan.versions[found.key].last().timestamp,
        history::page_manifest(store, page) is Some ==> {
            &&& history::page_record(store, page) is None
            &&& scanned_state(scan).generations.len() > 0
            &&& scanned_state(scan).generations.last().manifest_page_id.0 != page
        },
{
    let init = scanned_state(scan);
    let generations = init.generations;
    lemma_opened_generations(scan, store, count);
    lemma_generations_ordered(scan.generations, scan.highest);
    if exists|k: Seq<u8>| #[trigger] init.versions.contains_key(k) && state::version_freed(
        init.versions[k],
        init.oldest(),
        page,
    ) {
        let k = choose|k: Seq<u8>| #[trigger]
            init.versions.contains_key(k) && state::version_freed(
                init.versions[k],
                init.oldest(),
                page,
            );
        let versions = scan.versions[k];
        lemma_opened_key(scan, store, count, k);
        let i = choose|i: int|
            0 <= i < versions.len() - state::kept_versions(versions, init.oldest()).len() && (
            #[trigger] versions[i]).page == page;
        assert(history::page_record(store, scan.versions[k][i].page) == Some(
            history::version_record(k, versions[i]),
        ));
        assert(versions[i].timestamp < versions[versions.len() - 1].timestamp);
        history::lemma_record_alone(store, page);
    } else {
        let i = choose|i: int|
            0 <= i < generations.len() - state::kept_generations(init).len() && (
            #[trigger] generations[i]).manifest_page_id.0 == page;
        assert(scan.generations.contains(generations[i]));
        let j = choose|j: int|
            0 <= j < scan.generations.len() && scan.generations[j] == generations[i];
        assert(history::page_manifest(store, scan.generations[j].manifest_page_id.0) is Some);
        assert(generations[i].manifest_page_id != generations[generations.len()
            - 1].manifest_page_id);
        if history::page_record(store, page) is Some {
            history::lemma_record_alone(store, page);
        }
    }
}

/// Whether a database is what opening makes of its pages.
pub open spec fn is_opened(store: StoreView, scan: ScanView, db: DatabaseView) -> bool {
    let init = scanned_state(scan);
    &&& db.history == newest_only(scan.versions)
    &&& db.state == (StateView {
        versions: state::reclaimed_versions(init),
        generations: state::kept_generations(init),
        reclaimed: db.state.reclaimed,
        ..init
    })
    &&& db.unpublished == exists|k: Seq<u8>| init.dirty.contains(k)
    &&& db.store.wf()
    &&& forall|id: u64| #[trigger] db.store.read(id) == store.read(id)
    &&& forall|id: u64| #[trigger]
        store::is_live(db.store, id) <==> store::is_live(store, id) && !state::page_freed(init, id)
}

/// A version that was found as the newest of its key keeps its page.
proof fn lemma_opened_stored(
    store: StoreView,
    scan: ScanView,
    count: nat,
    db: DatabaseView,
    k: Seq<u8>,
)
    requires
        scan_sound(store, scan, count),
        is_opened(store, scan, db),
        forall|id: u64| id < count ==> #[trigger] store::is_live(store, id),
        scan.versions.contains_key(k),
    ensures
        history::stored(db.store, k, scan.versions[k].last()),
{
    let versions = scan.versions[k];
    let newest = versions.last();
    let at = versions.len() - 1;
    assert(scan.versions[k][at] == newest);
    assert(store::is_live(store, newest.page));
    assert(db.store.read(newest.page) == store.read(newest.page));
    if state::page_freed(scanned_state(scan), newest.page) {
        lemma_opened_freed(scan, store, count, newest.page);
    }
    assert(store::is_live(db.store, newest.page));
}

proof fn lemma_opened_key_kept(
    store: StoreView,
    scan: ScanView,
    count: nat,
    db: DatabaseView,
    k: Seq<u8>,
)
    requires
        scan_sound(store, scan, count),
        scan.highest < u64::MAX,
        is_opened(store, scan, db),
        forall|id: u64| id < count ==> #[trigger] store::is_live(store, id),
    ensures
        history::key_kept(db, k),
{
    let init = scanned_state(scan);
    let past = state::versions_of(db.history, k);
    let now = state::versions_of(db.state.versions, k);
    lemma_opened_generations(scan, store, count);
    lemma_generations_ordered(scan.generations, scan.highest);
    assert(db.state.oldest() == scan.highest);
    assert(init.oldest() == scan.highest);
    if scan.versions.contains_key(k) {
        let versions = scan.versions[k];
        let newest = versions.last();
        assert(versions[versions.len() - 1] == newest);
        lemma_opened_key(scan, store, count, k);
        lemma_opened_stored(store, scan, count, db, k);
        assert(past =~= seq![newest]);
        assert(state::versions_of(init.versions, k) == versions);
        if state::leaves_memory(init, k) {
            assert(now =~= Seq::empty());
            assert(now =~= past.skip(1));
            let generations = db.state.generations;
            state::lemma_cover_count_bound(init.generations, init.oldest());
            let last = init.generations.last();
            assert(init.generations[init.generations.len() - 1] == last);
            assert(state::cover_count(init.generations, scan.highest) == init.generations.len()) by {
                assert(last.timestamp.0 <= scan.highest);
            }
            assert(generations =~= seq![last]);
            assert(history::rests(db.store, generations, scan.highest, k, newest));
        } else {
            assert(db.state.versions.contains_key(k));
            assert(now =~= seq![newest]);
            assert(now =~= past.skip(0));
            if state::has_newer(now, history::indexed_through(db.state.generations)) {
                let indexed = history::indexed_through(db.state.generations);
                let i = choose|i: int| 0 <= i < now.len() && (#[trigger] now[i]).timestamp > indexed;
                assert(now[i] == versions[versions.len() - 1]);
                assert(state::has_newer(versions, indexed));
                assert(indexed == history::indexed_through(init.generations));
                assert(init.dirty.contains(k));
            }
        }
    } else {
        assert(past =~= Seq::empty());
        assert(now =~= Seq::empty());
        assert(now =~= past.skip(0));
    }
}

#[verifier::rlimit(40)]
proof fn lemma_opened_generation_kept(
    store: StoreView,
    scan: ScanView,
    count: nat,
    db: DatabaseView,
)
    requires
        scan_sound(store, scan, count),
        newest_generation_sound(store, scan),
        scan.highest < u64::MAX,
        is_opened(store, scan, db),
        forall|id: u64| id < count ==> #[trigger] store::is_live(store, id),
        db.state.generations.len() > 0,
    ensures
        history::generation_kept(db, db.state.generations[0]),
{
    let init = scanned_state(scan);
    lemma_opened_generations(scan, store, count);
    lemma_generations_ordered(scan.generations, scan.highest);
    let generation = init.generations.last();
    assert(db.state.generations[0] == generation);
    assert(init.generations[init.generations.len() - 1] == generation);
    assert(scan.generations.contains(generation));
    let j = choose|j: int| 0 <= j < scan.generations.len() && scan.generations[j] == generation;
    let page = generation.manifest_page_id.0;
    assert(history::page_manifest(store, scan.generations[j].manifest_page_id.0) == Some(
        (generation.timestamp.0, generation.root),
    ));
    assert(db.store.read(page) == store.read(page));
    assert(store::is_live(store, page));
    if state::page_freed(init, page) {
        lemma_opened_freed(scan, store, count, page);
        if history::page_record(store, page) is Some {
            history::lemma_record_alone(store, page);
        }
    }
    assert(store::is_live(db.store, page));
    assert forall|id: u64| history::page_manifest(store, id) is Some || history::page_record(
        store,
        id,
    ) is Some || !(#[trigger] state::page_freed(init, id)) by {
        if state::page_freed(init, id) {
            lemma_opened_freed(scan, store, count, id);
        }
    }
    history::lemma_index_keeps_pages(store, db.store, generation.root);
    assert(db.state.oldest() == scan.highest);
    assert forall|k: Seq<u8>|
        history::covered(
            state::versions_of(db.history, k),
            state::versions_of(db.state.versions, k),
            db.state.oldest(),
            #[trigger] model::find(plan::index_entries(db.store, generation.root), k),
            generation.timestamp.0,
        ) by {
        let found = model::find(plan::index_entries(store, generation.root), k);
        let past = state::versions_of(db.history, k);
        let now = state::versions_of(db.state.versions, k);
        assert(state::key_matches(
            state::versions_of(scan.versions, k),
            found,
            generation.timestamp.0,
        ));
        if scan.versions.contains_key(k) {
            let versions = scan.versions[k];
            let newest = versions.last();
            assert(versions[versions.len() - 1] == newest);
            assert(past =~= seq![newest]);
            lemma_opened_key(scan, store, count, k);
            assert(past.drop_last() =~= Seq::empty());
            reveal_with_fuel(state::visible_count, 2);
            if newest.timestamp > generation.timestamp.0 {
                assert(!state::leaves_memory(init, k)) by {
                    if state::leaves_memory(init, k) {
                        state::lemma_cover_count_bound(init.generations, init.oldest());
                        assert(state::cover_count(init.generations, scan.highest)
                            == init.generations.len());
                    }
                }
                assert(db.state.versions.contains_key(k));
                assert(now =~= seq![newest]);
            }
        } else {
            assert(past =~= Seq::empty());
        }
    }
}

/// A database that was opened on sound pages is in order.
pub proof fn law_opened_in_order(store: StoreView, scan: ScanView, count: nat, db: DatabaseView)
    requires
        scan_sound(store, scan, count),
        newest_generation_sound(store, scan),
        scan.highest < u64::MAX,
        is_opened(store, scan, db),
        forall|id: u64| id < count ==> #[trigger] store::is_live(store, id),
        history::store_kept(store),
    ensures
        history::in_order(db),
{
    let init = scanned_state(scan);
    lemma_opened_generations(scan, store, count);
    lemma_generations_ordered(scan.generations, scan.highest);
    assert(history::store_kept(db.store)) by {
        assert forall|id: u64| #[trigger] model::store_nodes(db.store).contains_key(
            id,
        ) implies store::is_live(db.store, id) by {
            assert(db.store.read(id) == store.read(id));
            assert(model::store_nodes(store).contains_key(id));
            history::lemma_node_alone(store, id);
            if state::page_freed(init, id) {
                lemma_opened_freed(scan, store, count, id);
            }
        }
    }
    assert(history::clock_kept(db.state));
    assert forall|k: Seq<u8>| #[trigger] history::key_kept(db, k) by {
        lemma_opened_key_kept(store, scan, count, db, k);
    }
    assert forall|i: int| 0 <= i < db.state.generations.len() implies history::generation_kept(
        db,
        #[trigger] db.state.generations[i],
    ) by {
        lemma_opened_generation_kept(store, scan, count, db);
        assert(db.state.generations[i] == db.state.generations[0]);
    }
}

} // verus!
