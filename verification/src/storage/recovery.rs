//! What survives a crash: the files as the store leaves them, and what reopening makes of them.
use crate::storage::data_file;
use crate::storage::data_file::DataView;
use crate::storage::error::StorageErrorView;
use crate::storage::page;
use crate::storage::page::PageView;
use crate::storage::store;
use crate::storage::store::{FileOpView, PageWriteView, StoreView};
use crate::storage::wal;
use crate::storage::wal::{WalKindView, WalRecordView, WalView};
use vstd::prelude::*;

verus! {

/// The two files: the data file's whole pages and the log's bytes.
#[verifier::ext_equal]
pub struct DiskView {
    pub data: DataView,
    pub log: Seq<u8>,
}

/// The files after one operation.
pub open spec fn disk_after(disk: DiskView, op: FileOpView) -> DiskView {
    match op {
        FileOpView::WalTruncate { length } => DiskView { log: disk.log.take(length as int), ..disk },
        FileOpView::WalAppend(more) => DiskView { log: disk.log + more, ..disk },
        FileOpView::DataWrite { page_id, image } => DiskView {
            data: DataView {
                slots: disk.data.slots.insert(page_id, image),
                page_count: if disk.data.page_count > page_id {
                    disk.data.page_count
                } else {
                    (page_id + 1) as u64
                },
            },
            ..disk
        },
        FileOpView::DataTruncate { .. } | FileOpView::WalSync | FileOpView::DataSync => disk,
    }
}

/// The files after a run of operations.
pub open spec fn disk_after_all(disk: DiskView, ops: Seq<FileOpView>) -> DiskView
    decreases ops.len(),
{
    if ops.len() == 0 {
        disk
    } else {
        disk_after(disk_after_all(disk, ops.drop_last()), ops.last())
    }
}

/// What opening a store on these files gives.
pub open spec fn reopened(disk: DiskView) -> Result<StoreView, StorageErrorView> {
    match wal::wal_scan(disk.log, 0, 0) {
        Err(error) => Err(error),
        Ok((records, end)) => store::store_recovered(
            disk.data,
            records,
            end as u64,
            if end != disk.log.len() {
                seq![FileOpView::WalTruncate { length: end as u64 }]
            } else {
                Seq::empty()
            },
        ),
    }
}

/// Whether LSNs rise strictly.
pub open spec fn lsns_rise(pages: Seq<PageView>) -> bool {
    forall|i: int, j: int|
        0 <= i < j < pages.len() ==> (#[trigger] pages[i]).lsn < (#[trigger] pages[j]).lsn
}

/// Whether pages fit and have a place in the data file.
pub open spec fn pages_placed(pages: Seq<PageView>) -> bool {
    forall|i: int|
        0 <= i < pages.len() ==> data_file::has_offset((#[trigger] pages[i]).id)
            && page::fits_page(pages[i].payload)
}

/// A page as replay leaves it: the logged image unless what is there is as new.
pub open spec fn newest(
    found: Result<Option<PageView>, StorageErrorView>,
    image: Option<PageView>,
) -> Result<Option<PageView>, StorageErrorView> {
    match image {
        None => found,
        Some(image) => match found {
            Ok(Some(there)) => if there.lsn < image.lsn {
                Ok(Some(image))
            } else {
                found
            },
            _ => Ok(Some(image)),
        },
    }
}

/// Reading a page with a place in the file fails only where its image is damaged.
pub proof fn lemma_read_error(data: DataView, id: u64)
    requires
        data.wf(),
        data_file::has_offset(id),
        data_file::data_read(data, id) is Err,
    ensures
        data_file::data_read(data, id)->Err_0 is CorruptPage,
{
    if data.slots.contains_key(id) {
        assert(data.slot(id).len() == page::PAGE_SIZE);
    }
}

proof fn lemma_batch_last_member(pages: Seq<PageView>, id: u64)
    ensures
        batch_last_at(pages, id) matches Some(at) ==> 0 <= at < pages.len() && pages[at].id == id
            && store::batch_last(pages, id) == Some(pages[at]),
        batch_last_at(pages, id) is None ==> store::batch_last(pages, id) is None,
    decreases pages.len(),
{
    if pages.len() > 0 && pages.last().id != id {
        lemma_batch_last_member(pages.drop_last(), id);
    }
}

spec fn batch_last_at(pages: Seq<PageView>, id: u64) -> Option<int>
    decreases pages.len(),
{
    if pages.len() == 0 {
        None
    } else if pages.last().id == id {
        Some(pages.len() - 1)
    } else {
        batch_last_at(pages.drop_last(), id)
    }
}

/// Replay succeeds on images with a place, and leaves each page at the newest of what the data
/// file had and what the log says.
pub proof fn law_replay_is_newest(data: DataView, images: Seq<PageView>)
    requires
        data.wf(),
        pages_placed(images),
        lsns_rise(images),
    ensures
        store::replay(data, images) matches Ok((after, ops)) && after.wf() && forall|id: u64|
            #[trigger]
            data_file::data_read(after, id) == newest(
                data_file::data_read(data, id),
                store::batch_last(images, id),
            ),
    decreases images.len(),
{
    if images.len() > 0 {
        let before = images.drop_last();
        let image = images.last();
        assert forall|i: int| 0 <= i < before.len() implies data_file::has_offset(
            (#[trigger] before[i]).id,
        ) && page::fits_page(before[i].payload) by {
            assert(before[i] == images[i]);
        }
        assert(lsns_rise(before)) by {
            assert forall|i: int, j: int| 0 <= i < j < before.len() implies (
            #[trigger] before[i]).lsn < (#[trigger] before[j]).lsn by {
                assert(before[i] == images[i] && before[j] == images[j]);
            }
        }
        law_replay_is_newest(data, before);
        let (reached, ops) = store::replay(data, before)->Ok_0;
        assert(image == images[images.len() - 1]);
        if store::replay_blocked(reached, image) {
            lemma_read_error(reached, image.id);
        }
        data_file::law_write_then_read(reached, image);
        lemma_batch_last_member(before, image.id);
        if let Some(at) = batch_last_at(before, image.id) {
            assert(before[at] == images[at]);
            assert(images[at].lsn < image.lsn);
        }
        let after = store::replay(data, images)->Ok_0.0;
        assert forall|id: u64| #[trigger] data_file::data_read(after, id) == newest(
            data_file::data_read(data, id),
            store::batch_last(images, id),
        ) by {
            assert(data_file::data_read(reached, id) == newest(
                data_file::data_read(data, id),
                store::batch_last(before, id),
            ));
        }
    }
}

/// Images come out of the log in the order of their LSNs.
proof fn lemma_batches_rise(records: Seq<WalRecordView>)
    requires
        wal::wal_ordered(records, 0),
        forall|i: int| 0 <= i < records.len() ==> wal::wal_storable(#[trigger] records[i]),
    ensures
        store::batches(records) matches Ok((pending, committed)) ==> {
            &&& lsns_rise(committed + pending)
            &&& forall|i: int|
                0 <= i < (committed + pending).len() ==> (#[trigger] (committed + pending)[i]).lsn
                    <= wal::wal_last_lsn(records, 0)
        },
    decreases records.len(),
{
    if records.len() > 0 {
        let before = records.drop_last();
        assert(wal::wal_ordered(before, 0)) by {
            assert forall|i: int, j: int| 0 <= i < j < before.len() implies (
            #[trigger] before[i]).lsn < (#[trigger] before[j]).lsn by {
                assert(before[i] == records[i] && before[j] == records[j]);
            }
            assert forall|i: int| 0 <= i < before.len() implies (#[trigger] before[i]).lsn > 0 by {
                assert(before[i] == records[i]);
            }
        }
        lemma_batches_rise(before);
        assert(records.last() == records[records.len() - 1]);
        if before.len() > 0 {
            assert(before.last() == records[records.len() - 2]);
        }
        if let Ok((pending, committed)) = store::batches(records) {
            let (waiting, done) = store::batches(before)->Ok_0;
            let earlier = done + waiting;
            let all = committed + pending;
            match records.last().kind {
                WalKindView::PageImage { page_id, payload } => {
                    assert(all =~= earlier.push(all.last()));
                },
                WalKindView::BatchCommit { page_count } => {
                    let skipped = waiting.len() - page_count;
                    assert forall|i: int| 0 <= i < all.len() implies #[trigger] all[i] == earlier[if i
                        < done.len() {
                        i
                    } else {
                        i + skipped
                    }] by {}
                },
                WalKindView::Checkpoint => {},
            }
            assert forall|i: int, j: int| 0 <= i < j < all.len() implies (#[trigger] all[i]).lsn < (
            #[trigger] all[j]).lsn by {}
        }
    }
}

/// The store and the files agree, every operation of the store having been carried out. Pages that
/// wait for a sync of the log stand in the log, and the data file lacks only those.
pub open spec fn in_step(store: StoreView, disk: DiskView) -> bool {
    &&& store.wf()
    &&& disk.data.wf()
    &&& store.data == store::data_batch(disk.data, store.held)
    &&& wal::wal_clean(disk.log)
    &&& disk.log.len() == store.wal.size
    &&& store.wal.records == wal::wal_since_checkpoint(wal::wal_records(disk.log))
    &&& wal::wal_last_lsn(wal::wal_records(disk.log), 0) < store.wal.next_lsn
    &&& store::batches(store.wal.records) matches Ok((pending, committed)) && pages_placed(
        committed,
    ) && held_logged(disk.data, committed, store.held) && forall|i: int|
        0 <= i < committed.len() ==> is_as_new(store.data, #[trigger] committed[i])
    &&& is_readable(store.data, store.wal.next_lsn)
    &&& is_readable(disk.data, store.wal.next_lsn)
}

/// Whether every page of a data file reads, and its LSN is below the next one.
pub open spec fn is_readable(data: DataView, next_lsn: u64) -> bool {
    forall|id: u64|
        id < data.page_count ==> (#[trigger] data_file::data_read(data, id)) is Ok && (
        data_file::data_read(data, id) matches Ok(Some(found)) ==> found.lsn < next_lsn)
}

/// Whether pages that wait are the newest that the log has committed, each newer than what the data
/// file holds in its place.
pub open spec fn held_logged(data: DataView, committed: Seq<PageView>, held: Seq<PageView>) -> bool {
    &&& held.len() <= committed.len()
    &&& held == committed.skip(committed.len() - held.len())
    &&& forall|i: int|
        0 <= i < held.len() ==> (data_file::data_read(data, (#[trigger] held[i]).id) matches Ok(
            Some(found),
        ) ==> found.lsn < held[i].lsn)
}

/// Whether the data file holds a page at least as new as an image of it.
pub open spec fn is_as_new(data: DataView, image: PageView) -> bool {
    data_file::data_read(data, image.id) matches Ok(Some(found)) && found.lsn >= image.lsn
}

proof fn lemma_recent(records: Seq<WalRecordView>)
    requires
        wal::wal_ordered(records, 0),
        forall|i: int| 0 <= i < records.len() ==> wal::wal_storable(#[trigger] records[i]),
    ensures
        wal::wal_ordered(wal::wal_since_checkpoint(records), 0),
        forall|i: int|
            0 <= i < wal::wal_since_checkpoint(records).len() ==> wal::wal_storable(
                #[trigger] wal::wal_since_checkpoint(records)[i],
            ),
        wal::wal_last_lsn(wal::wal_since_checkpoint(records), 0) <= wal::wal_last_lsn(records, 0),
{
    store::lemma_since_checkpoint(records);
    let recent = wal::wal_since_checkpoint(records);
    let skipped = records.len() - recent.len();
    assert forall|i: int, j: int| 0 <= i < j < recent.len() implies (#[trigger] recent[i]).lsn < (
    #[trigger] recent[j]).lsn by {
        assert(recent[i] == records[skipped + i] && recent[j] == records[skipped + j]);
    }
    assert forall|i: int| 0 <= i < recent.len() implies (#[trigger] recent[i]).lsn > 0
        && wal::wal_storable(recent[i]) by {
        assert(recent[i] == records[skipped + i]);
    }
}

/// Records without a checkpoint among them stay behind the last checkpoint.
proof fn lemma_since_checkpoint_extend(records: Seq<WalRecordView>, more: Seq<WalRecordView>)
    requires
        forall|i: int| 0 <= i < more.len() ==> !((#[trigger] more[i]).kind is Checkpoint),
    ensures
        wal::wal_since_checkpoint(records + more) == wal::wal_since_checkpoint(records) + more,
    decreases more.len(),
{
    if more.len() == 0 {
        assert(records + more =~= records);
        assert(wal::wal_since_checkpoint(records) + more =~= wal::wal_since_checkpoint(records));
    } else {
        let all = records + more;
        assert(all.last() == more[more.len() - 1]);
        assert(all.drop_last() =~= records + more.drop_last());
        assert forall|i: int| 0 <= i < more.drop_last().len() implies !((
        #[trigger] more.drop_last()[i]).kind is Checkpoint) by {
            assert(more.drop_last()[i] == more[i]);
        }
        lemma_since_checkpoint_extend(records, more.drop_last());
        assert(wal::wal_since_checkpoint(records) + more =~= (wal::wal_since_checkpoint(records)
            + more.drop_last()).push(more.last()));
    }
}

/// Page images alone commit nothing.
proof fn lemma_batches_images(records: Seq<WalRecordView>, pages: Seq<PageView>)
    requires
        store::batches(records) is Ok,
    ensures
        store::batches(records + store::image_records(pages)) == Ok::<
            (Seq<PageView>, Seq<PageView>),
            StorageErrorView,
        >((store::batches(records)->Ok_0.0 + pages, store::batches(records)->Ok_0.1)),
    decreases pages.len(),
{
    let images = store::image_records(pages);
    let (pending, committed) = store::batches(records)->Ok_0;
    if pages.len() == 0 {
        assert(records + images =~= records);
        assert(pending + pages =~= pending);
    } else {
        lemma_batches_images(records, pages.drop_last());
        assert((records + images).drop_last() =~= records + store::image_records(
            pages.drop_last(),
        ));
        assert((records + images).last() == images[pages.len() - 1]);
        assert(pending + pages =~= (pending + pages.drop_last()).push(pages.last()));
    }
}

/// Appending a run of records to a sound log.
proof fn lemma_log_appended(log: Seq<u8>, records: Seq<WalRecordView>)
    requires
        wal::wal_clean(log),
        wal::wal_ordered(records, wal::wal_last_lsn(wal::wal_records(log), 0)),
        forall|i: int| 0 <= i < records.len() ==> wal::wal_storable(#[trigger] records[i]),
    ensures
        wal::wal_clean(log + wal::wal_log(records)),
        wal::wal_records(log + wal::wal_log(records)) == wal::wal_records(log) + records,
    decreases records.len(),
{
    if records.len() == 0 {
        assert(log + wal::wal_log(records) =~= log);
        assert(wal::wal_records(log) + records =~= wal::wal_records(log));
    } else {
        let before = records.drop_last();
        lemma_ordered_take(records, wal::wal_last_lsn(wal::wal_records(log), 0), before.len() as int);
        assert(records.take(before.len() as int) =~= before);
        lemma_log_appended(log, before);
        let reached = log + wal::wal_log(before);
        let found = wal::wal_records(reached);
        assert(records.last() == records[records.len() - 1]);
        assert(wal::wal_last_lsn(found, 0) < records.last().lsn) by {
            if before.len() > 0 {
                assert(found.last() == records[records.len() - 2]);
            } else {
                assert(found =~= wal::wal_records(log));
            }
        }
        wal::law_append_is_scanned(reached, records.last());
        assert(reached + wal::wal_bytes(records.last()) =~= log + wal::wal_log(records));
        assert(found.push(records.last()) =~= wal::wal_records(log) + records);
    }
}

proof fn lemma_ordered_take(records: Seq<WalRecordView>, previous: u64, count: int)
    requires
        wal::wal_ordered(records, previous),
        forall|i: int| 0 <= i < records.len() ==> wal::wal_storable(#[trigger] records[i]),
        0 <= count <= records.len(),
    ensures
        wal::wal_ordered(records.take(count), previous),
        forall|i: int| 0 <= i < count ==> wal::wal_storable(#[trigger] records.take(count)[i]),
{
    let head = records.take(count);
    assert forall|i: int, j: int| 0 <= i < j < head.len() implies (#[trigger] head[i]).lsn < (
    #[trigger] head[j]).lsn by {
        assert(head[i] == records[i] && head[j] == records[j]);
    }
    assert forall|i: int| 0 <= i < head.len() implies (#[trigger] head[i]).lsn > previous
        && wal::wal_storable(head[i]) by {
        assert(head[i] == records[i]);
    }
}

/// A run of records that reached the log only in part scans to the whole records of it.
proof fn lemma_torn_run(log: Seq<u8>, records: Seq<WalRecordView>, cut: int) -> (whole: int)
    requires
        wal::wal_clean(log),
        wal::wal_ordered(records, wal::wal_last_lsn(wal::wal_records(log), 0)),
        forall|i: int| 0 <= i < records.len() ==> wal::wal_storable(#[trigger] records[i]),
        0 <= cut < wal::wal_log(records).len(),
    ensures
        0 <= whole < records.len(),
        wal::wal_scan(log + wal::wal_log(records).take(cut), 0, 0) == Ok::<
            (Seq<WalRecordView>, int),
            StorageErrorView,
        >(
            (
                wal::wal_records(log) + records.take(whole),
                (log.len() + wal::wal_log(records.take(whole)).len()) as int,
            ),
        ),
        wal::wal_log(records.take(whole)).len() <= cut,
    decreases records.len(),
{
    let before = records.drop_last();
    let kept = wal::wal_log(before);
    lemma_ordered_take(records, wal::wal_last_lsn(wal::wal_records(log), 0), before.len() as int);
    assert(records.take(before.len() as int) =~= before);
    if cut < kept.len() {
        let whole = lemma_torn_run(log, before, cut);
        assert(wal::wal_log(records).take(cut) =~= kept.take(cut));
        assert(before.take(whole) =~= records.take(whole));
        whole
    } else {
        lemma_log_appended(log, before);
        let last = records.last();
        assert(last == records[records.len() - 1]);
        wal::law_torn_tail_is_dropped(log + kept, last, cut - kept.len());
        assert(log + wal::wal_log(records).take(cut) =~= log + kept + wal::wal_bytes(last).take(
            cut - kept.len(),
        ));
        records.len() - 1
    }
}

/// What recovery gives where every committed image already is in the data file.
proof fn lemma_recovered(
    data: DataView,
    records: Seq<WalRecordView>,
    size: u64,
    repairs: Seq<FileOpView>,
    bound: u64,
)
    requires
        data.wf(),
        wal::wal_ordered(records, 0),
        forall|i: int| 0 <= i < records.len() ==> wal::wal_storable(#[trigger] records[i]),
        store::committed_images(records) matches Ok(images) && pages_placed(images),
        bound < u64::MAX,
        wal::wal_last_lsn(records, 0) <= bound,
        forall|id: u64|
            id < data.page_count && data_file::has_offset(id) ==> {
                ||| (#[trigger] data_file::data_read(data, id)) is Ok
                ||| store::batch_last(store::committed_images(records)->Ok_0, id) is Some
            },
        forall|id: u64| (#[trigger] data_file::data_read(data, id)) matches Ok(Some(found))
            ==> found.lsn <= bound,
    ensures
        store::store_recovered(data, records, size, repairs) matches Ok(after) && forall|id: u64|
            #[trigger]
            after.read(id) == newest(
                data_file::data_read(data, id),
                store::batch_last(store::committed_images(records)->Ok_0, id),
            ),
{
    let images = store::committed_images(records)->Ok_0;
    let recent = wal::wal_since_checkpoint(records);
    lemma_recent(records);
    lemma_batches_rise(recent);
    let (pending, committed) = store::batches(recent)->Ok_0;
    assert(lsns_rise(images)) by {
        assert forall|i: int, j: int| 0 <= i < j < images.len() implies (#[trigger] images[i]).lsn
            < (#[trigger] images[j]).lsn by {
            assert((committed + pending)[i] == images[i]);
            assert((committed + pending)[j] == images[j]);
        }
    }
    assert forall|i: int| 0 <= i < images.len() implies (#[trigger] images[i]).lsn <= bound by {
        assert((committed + pending)[i] == images[i]);
    }
    law_replay_is_newest(data, images);
    let (after, ops) = store::replay(data, images)->Ok_0;
    assert forall|id: u64| id < after.page_count implies (#[trigger] data_file::data_read(
        after,
        id,
    )) is Ok && (data_file::data_read(after, id) matches Ok(Some(found)) ==> found.lsn
        <= bound) by {
        lemma_batch_last_member(images, id);
        if store::batch_last(images, id) is None {
            lemma_page_limit(after, id);
            if id >= data.page_count {
                assert(data_file::data_read(data, id) is Ok);
            }
        }
    }
    data_file::lemma_max_lsn_below(after, after.page_count as nat, bound);
}

proof fn lemma_page_limit(data: DataView, id: u64)
    requires
        data.wf(),
        id < data.page_count,
    ensures
        data_file::has_offset(id),
{
}

proof fn lemma_batch_shape(log: WalView, writes: Seq<PageWriteView>, previous: u64)
    requires
        log.next_lsn > previous,
        store::batch_logs(log, writes),
        store::payloads_fit(writes),
        store::batch_placed(writes),
        writes.len() > 0,
    ensures
        wal::wal_ordered(store::batch_records(log.next_lsn, writes), previous),
        forall|i: int|
            0 <= i < store::batch_records(log.next_lsn, writes).len() ==> wal::wal_storable(
                #[trigger] store::batch_records(log.next_lsn, writes)[i],
            ) && !(store::batch_records(log.next_lsn, writes)[i].kind is Checkpoint),
        pages_placed(store::batch_pages(log.next_lsn, writes)),
        lsns_rise(store::batch_pages(log.next_lsn, writes)),
{
    let first = log.next_lsn;
    let records = store::batch_records(first, writes);
    let pages = store::batch_pages(first, writes);
    assert forall|i: int| 0 <= i < pages.len() implies data_file::has_offset(
        (#[trigger] pages[i]).id,
    ) && page::fits_page(pages[i].payload) by {
        assert(data_file::has_offset(writes[i].page_id));
        assert(page::fits_page(writes[i].payload));
    }
    assert forall|i: int| 0 <= i < records.len() implies wal::wal_storable(#[trigger] records[i])
        && !(records[i].kind is Checkpoint) && records[i].lsn == first + i by {
        if i < writes.len() {
            assert(records[i] == store::image_records(pages)[i]);
            assert(pages[i].id == writes[i].page_id);
            assert(data_file::has_offset(pages[i].id));
        }
    }
}

/// The order of the log at a store in step with its files.
proof fn lemma_in_step_log(store: StoreView, disk: DiskView)
    requires
        in_step(store, disk),
    ensures
        wal::wal_ordered(wal::wal_records(disk.log), 0),
        forall|i: int|
            0 <= i < wal::wal_records(disk.log).len() ==> wal::wal_storable(
                #[trigger] wal::wal_records(disk.log)[i],
            ),
{
    wal::law_scan_is_ordered(disk.log, 0, 0);
}

/// A batch whose log records did not all reach the log is as if it had never been written: every
/// page reads after reopening as it did before, and every page of the data file is in use.
pub proof fn law_torn_batch_is_undone(
    store: StoreView,
    disk: DiskView,
    writes: Seq<PageWriteView>,
    cut: int,
)
    requires
        in_step(store, disk),
        writes.len() > 0,
        store::payloads_fit(writes),
        store::batch_logs(store.wal, writes),
        store::batch_placed(writes),
        0 <= cut < wal::wal_log(store::batch_records(store.wal.next_lsn, writes)).len(),
    ensures
        reopened(
            DiskView {
                log: disk.log + wal::wal_log(
                    store::batch_records(store.wal.next_lsn, writes),
                ).take(cut),
                ..disk
            },
        ) matches Ok(after) && {
            &&& after.data.wf()
            &&& forall|id: u64| #[trigger] after.read(id) == store.read(id)
            &&& forall|id: u64| id < after.data.page_count ==> #[trigger] store::is_live(after, id)
        },
{
    let first = store.wal.next_lsn;
    let records = store::batch_records(first, writes);
    let pages = store::batch_pages(first, writes);
    let found = wal::wal_records(disk.log);
    let torn = disk.log + wal::wal_log(records).take(cut);
    lemma_in_step_log(store, disk);
    lemma_batch_shape(store.wal, writes, wal::wal_last_lsn(found, 0));
    let whole = lemma_torn_run(disk.log, records, cut);
    let part = records.take(whole);
    assert(part =~= store::image_records(pages.take(whole)));
    lemma_since_checkpoint_extend(found, part);
    lemma_batches_images(store.wal.records, pages.take(whole));
    wal::law_scan_is_ordered(torn, 0, 0);
    let (scanned, end) = wal::wal_scan(torn, 0, 0)->Ok_0;
    let committed = store::batches(store.wal.records)->Ok_0.1;
    assert(store::committed_images(scanned) == Ok::<Seq<PageView>, StorageErrorView>(committed));
    assert(wal::wal_last_lsn(scanned, 0) <= first + writes.len()) by {
        if whole > 0 {
            assert(scanned.last() == records[whole - 1]);
            assert(records[whole - 1] == store::image_records(pages)[whole - 1]);
        } else {
            assert(scanned =~= found);
        }
    }
    lemma_readable(disk.data, first);
    let repairs = if end != torn.len() {
        seq![FileOpView::WalTruncate { length: end as u64 }]
    } else {
        Seq::empty()
    };
    lemma_recovered(
        disk.data,
        scanned,
        end as u64,
        repairs,
        (first + writes.len()) as u64,
    );
    let after = reopened(DiskView { log: torn, ..disk })->Ok_0;
    assert forall|id: u64| #[trigger] after.read(id) == store.read(id) by {
        lemma_lag(store, disk, id);
    }
    lemma_reopened_live(DiskView { log: torn, ..disk });
}

/// Opening a store on files that it is in step with gives a store in which every page reads the
/// same, and with every page of the data file in use.
pub proof fn law_reopening_reads_same(store: StoreView, disk: DiskView)
    requires
        in_step(store, disk),
    ensures
        reopened(disk) matches Ok(after) && {
            &&& after.data.wf()
            &&& forall|id: u64| #[trigger] after.read(id) == store.read(id)
            &&& forall|id: u64| id < after.data.page_count ==> #[trigger] store::is_live(after, id)
        },
{
    let (records, end) = wal::wal_scan(disk.log, 0, 0)->Ok_0;
    lemma_in_step_log(store, disk);
    lemma_readable(disk.data, store.wal.next_lsn);
    let committed = store::batches(store.wal.records)->Ok_0.1;
    assert(store::committed_images(records) == Ok::<Seq<PageView>, StorageErrorView>(committed));
    let repairs = if end != disk.log.len() {
        seq![FileOpView::WalTruncate { length: end as u64 }]
    } else {
        Seq::empty()
    };
    lemma_recovered(disk.data, records, end as u64, repairs, (store.wal.next_lsn - 1) as u64);
    let after = reopened(disk)->Ok_0;
    assert forall|id: u64| #[trigger] after.read(id) == store.read(id) by {
        lemma_lag(store, disk, id);
    }
    lemma_reopened_live(disk);
}

/// A store that was just opened has every page of its data file in use.
proof fn lemma_reopened_live(disk: DiskView)
    requires
        disk.data.wf(),
        reopened(disk) is Ok,
    ensures
        reopened(disk)->Ok_0.data.wf(),
        forall|id: u64|
            id < reopened(disk)->Ok_0.data.page_count ==> #[trigger] store::is_live(
                reopened(disk)->Ok_0,
                id,
            ),
{
    let after = reopened(disk)->Ok_0;
    wal::law_scan_is_ordered(disk.log, 0, 0);
    let (records, end) = wal::wal_scan(disk.log, 0, 0)->Ok_0;
    let recent = wal::wal_since_checkpoint(records);
    lemma_recent(records);
    lemma_batches_rise(recent);
    let (pending, images) = store::batches(recent)->Ok_0;
    lemma_replay_placed(disk.data, images);
    store::lemma_batches_fit(recent);
    assert(pages_placed(images));
    assert(lsns_rise(images)) by {
        assert forall|i: int, j: int| 0 <= i < j < images.len() implies (#[trigger] images[i]).lsn
            < (#[trigger] images[j]).lsn by {
            assert((images + pending)[i] == images[i]);
            assert((images + pending)[j] == images[j]);
        }
    }
    law_replay_is_newest(disk.data, images);
    store::lemma_next_id_grows(after.data.page_count, images);
}

/// Where every page reads below an LSN, no read is at it or above.
proof fn lemma_readable(data: DataView, next_lsn: u64)
    requires
        data.wf(),
        is_readable(data, next_lsn),
    ensures
        forall|id: u64| (#[trigger] data_file::data_read(data, id)) matches Ok(Some(found))
            ==> found.lsn < next_lsn,
{
}

/// What replaying the log makes of a page in the data file is what the store reads.
proof fn lemma_lag(store: StoreView, disk: DiskView, id: u64)
    requires
        in_step(store, disk),
    ensures
        newest(
            data_file::data_read(disk.data, id),
            store::batch_last(store::batches(store.wal.records)->Ok_0.1, id),
        ) == store.read(id),
        store.read(id) == (match store::batch_last(store.held, id) {
            Some(waits) => Ok(Some(waits)),
            None => data_file::data_read(disk.data, id),
        }),
{
    let committed = store::batches(store.wal.records)->Ok_0.1;
    let held = store.held;
    let first = committed.take(committed.len() - held.len());
    assert(committed =~= first + held);
    assert forall|i: int| 0 <= i < held.len() implies data_file::has_offset((#[trigger] held[i]).id)
        && page::fits_page(held[i].payload) by {
        assert(held[i] == committed[first.len() + i]);
    }
    store::law_batch_reads(disk.data, held);
    lemma_last_of_concat(first, held, id);
    lemma_batch_last_member(held, id);
    lemma_batch_last_member(committed, id);
    if batch_last_at(held, id) is None {
        if let Some(at) = batch_last_at(committed, id) {
            assert(is_as_new(store.data, committed[at]));
        }
    }
}

/// Whether a data file is one that a crash can leave while a batch is being written to it: each
/// page of the batch is as before, as some write of the batch left it, or damaged.
pub open spec fn batch_in_flight(before: DataView, pages: Seq<PageView>, data: DataView) -> bool {
    &&& data.wf()
    &&& forall|id: u64|
        {
            let found = #[trigger] data_file::data_read(data, id);
            ||| found == data_file::data_read(before, id)
            ||| exists|i: int| 0 <= i < pages.len() && #[trigger] pages[i].id == id && (found == Ok::<
                Option<PageView>,
                StorageErrorView,
            >(Some(pages[i])) || found is Err)
        }
}

/// The page of a batch that a page found in flight comes from.
proof fn lemma_in_flight(before: DataView, pages: Seq<PageView>, data: DataView, id: u64) -> (at:
    Option<int>)
    requires
        batch_in_flight(before, pages, data),
    ensures
        match at {
            None => data_file::data_read(data, id) == data_file::data_read(before, id),
            Some(i) => {
                &&& 0 <= i < pages.len()
                &&& pages[i].id == id
                &&& store::batch_last(pages, id) is Some
                &&& batch_last_at(pages, id) matches Some(last) && i <= last < pages.len()
                &&& data_file::data_read(data, id) == Ok::<Option<PageView>, StorageErrorView>(
                    Some(pages[i]),
                ) || data_file::data_read(data, id) is Err
            },
        },
{
    let found = data_file::data_read(data, id);
    if found == data_file::data_read(before, id) {
        None
    } else {
        let i = choose|i: int|
            0 <= i < pages.len() && #[trigger] pages[i].id == id && (found == Ok::<
                Option<PageView>,
                StorageErrorView,
            >(Some(pages[i])) || found is Err);
        lemma_batch_last_some_of(pages, i);
        lemma_last_is_last(pages, id, i);
        Some(i)
    }
}

/// A batch whose log records are durable survives: whatever the crash left in the data file of its
/// pages and of those that waited, after reopening every page reads as the whole batch left it.
#[verifier::rlimit(40)]
pub proof fn law_logged_batch_survives(
    store: StoreView,
    disk: DiskView,
    writes: Seq<PageWriteView>,
    data: DataView,
)
    requires
        in_step(store, disk),
        writes.len() > 0,
        store::payloads_fit(writes),
        store::batch_logs(store.wal, writes),
        store::batch_placed(writes),
        batch_in_flight(
            disk.data,
            store.held + store::batch_pages(store.wal.next_lsn, writes),
            data,
        ),
    ensures
        reopened(
            DiskView {
                data,
                log: disk.log + wal::wal_log(store::batch_records(store.wal.next_lsn, writes)),
            },
        ) matches Ok(after) && forall|id: u64| #[trigger]
            after.read(id) == store::store_written(store, writes).read(id),
{
    let first = store.wal.next_lsn;
    let records = store::batch_records(first, writes);
    let pages = store::batch_pages(first, writes);
    let found = wal::wal_records(disk.log);
    let log = disk.log + wal::wal_log(records);
    lemma_in_step_log(store, disk);
    lemma_batch_shape(store.wal, writes, wal::wal_last_lsn(found, 0));
    lemma_log_appended(disk.log, records);
    let scanned = wal::wal_records(log);
    lemma_since_checkpoint_extend(found, records);
    lemma_batches_commit(store.wal.records, first, writes);
    wal::law_scan_is_ordered(log, 0, 0);
    let committed = store::batches(store.wal.records)->Ok_0.1;
    let images = committed + pages;
    let bound = (first + writes.len()) as u64;
    assert(store::committed_images(scanned) == Ok::<Seq<PageView>, StorageErrorView>(images));
    assert(wal::wal_last_lsn(scanned, 0) <= bound) by {
        assert(scanned.last() == records[writes.len() as int]);
    }
    assert(pages_placed(images)) by {
        assert forall|i: int| 0 <= i < images.len() implies data_file::has_offset(
            (#[trigger] images[i]).id,
        ) && page::fits_page(images[i].payload) by {
            if i < committed.len() {
                assert(images[i] == committed[i]);
            } else {
                assert(images[i] == pages[i - committed.len()]);
            }
        }
    }
    lemma_readable(disk.data, first);
    let flying = store.held + pages;
    lemma_flying_rise(store, disk, writes);
    assert forall|id: u64|
        ((#[trigger] data_file::data_read(data, id)) matches Ok(Some(there)) ==> there.lsn
            <= bound) by {
        let at = lemma_in_flight(disk.data, flying, data, id);
        if let Some(i) = at {
            assert(flying[i].lsn <= bound);
        }
    }
    let settled = committed.take(committed.len() - store.held.len());
    assert(committed =~= settled + store.held);
    assert(images =~= settled + flying);
    assert forall|id: u64| id < data.page_count && data_file::has_offset(id) implies {
        ||| (#[trigger] data_file::data_read(data, id)) is Ok
        ||| store::batch_last(images, id) is Some
    } by {
        lemma_last_of_concat(settled, flying, id);
        let at = lemma_in_flight(disk.data, flying, data, id);
        if at is None && id < disk.data.page_count {
            assert(data_file::data_read(disk.data, id) is Ok);
        }
    }
    lemma_recovered(data, scanned, log.len() as u64, Seq::empty(), bound);
    let after = reopened(DiskView { data, log })->Ok_0;
    store::law_batch_reads(store.data, pages);
    assert forall|id: u64| #[trigger] after.read(id) == store::store_written(store, writes).read(
        id,
    ) by {
        lemma_lag(store, disk, id);
        lemma_last_of_concat(committed, pages, id);
        lemma_last_of_concat(settled, flying, id);
        lemma_last_of_concat(store.held, pages, id);
        lemma_batch_last_member(flying, id);
        lemma_batch_last_member(pages, id);
        let there = data_file::data_read(data, id);
        let at = lemma_in_flight(disk.data, flying, data, id);
        assert(after.read(id) == newest(there, store::batch_last(images, id)));
        if let Some(i) = at {
            let last = batch_last_at(flying, id)->Some_0;
            assert(i < last ==> flying[i].lsn < flying[last].lsn);
        } else {
            assert(there == data_file::data_read(disk.data, id));
        }
    }
}

/// The LSNs of pages that wait and of those of the next batch rise, up to that of its commit.
proof fn lemma_flying_rise(store: StoreView, disk: DiskView, writes: Seq<PageWriteView>)
    requires
        in_step(store, disk),
        store::batch_logs(store.wal, writes),
    ensures
        lsns_rise(store.held + store::batch_pages(store.wal.next_lsn, writes)),
        forall|i: int|
            0 <= i < (store.held + store::batch_pages(store.wal.next_lsn, writes)).len() ==> (
            #[trigger] (store.held + store::batch_pages(store.wal.next_lsn, writes))[i]).lsn
                <= store.wal.next_lsn + writes.len(),
{
    let committed = store::batches(store.wal.records)->Ok_0.1;
    lemma_committed_rise(store, disk);
    lemma_tail_rise(
        committed,
        store.held,
        store::batch_pages(store.wal.next_lsn, writes),
        store.wal.next_lsn,
    );
}

/// What the log of a store in step has committed rises in LSNs below the next one.
proof fn lemma_committed_rise(store: StoreView, disk: DiskView)
    requires
        in_step(store, disk),
    ensures
        lsns_rise(store::batches(store.wal.records)->Ok_0.1),
        forall|i: int|
            0 <= i < store::batches(store.wal.records)->Ok_0.1.len() ==> (
            #[trigger] store::batches(store.wal.records)->Ok_0.1[i]).lsn < store.wal.next_lsn,
{
    let (pending, committed) = store::batches(store.wal.records)->Ok_0;
    lemma_in_step_log(store, disk);
    lemma_recent(wal::wal_records(disk.log));
    lemma_batches_rise(store.wal.records);
    assert forall|i: int| 0 <= i < committed.len() implies (#[trigger] committed[i]).lsn
        < store.wal.next_lsn by {
        assert(committed[i] == (committed + pending)[i]);
    }
    assert forall|i: int, j: int| 0 <= i < j < committed.len() implies (
    #[trigger] committed[i]).lsn < (#[trigger] committed[j]).lsn by {
        assert(committed[i] == (committed + pending)[i]);
        assert(committed[j] == (committed + pending)[j]);
    }
}

proof fn lemma_tail_rise(
    committed: Seq<PageView>,
    held: Seq<PageView>,
    pages: Seq<PageView>,
    next: u64,
)
    requires
        lsns_rise(committed),
        forall|i: int| 0 <= i < committed.len() ==> (#[trigger] committed[i]).lsn < next,
        held.len() <= committed.len(),
        held == committed.skip(committed.len() - held.len()),
        next + pages.len() <= u64::MAX,
        forall|i: int| 0 <= i < pages.len() ==> (#[trigger] pages[i]).lsn == next + i,
    ensures
        lsns_rise(held + pages),
        forall|i: int|
            0 <= i < (held + pages).len() ==> (#[trigger] (held + pages)[i]).lsn <= next
                + pages.len(),
{
    let first = committed.len() - held.len();
    let flying = held + pages;
    assert forall|i: int| 0 <= i < held.len() implies #[trigger] flying[i] == committed[first
        + i] by {}
    assert forall|i: int, j: int| 0 <= i < j < flying.len() implies (#[trigger] flying[i]).lsn < (
    #[trigger] flying[j]).lsn by {
        if i >= held.len() {
            assert(flying[i] == pages[i - held.len()]);
        }
        if j >= held.len() {
            assert(flying[j] == pages[j - held.len()]);
        }
    }
    assert forall|i: int| 0 <= i < flying.len() implies (#[trigger] flying[i]).lsn <= next
        + pages.len() by {
        if i >= held.len() {
            assert(flying[i] == pages[i - held.len()]);
        }
    }
}

proof fn lemma_last_is_last(pages: Seq<PageView>, id: u64, i: int)
    requires
        0 <= i < pages.len(),
        pages[i].id == id,
    ensures
        batch_last_at(pages, id) matches Some(at) && i <= at < pages.len() && pages[at].id == id,
    decreases pages.len(),
{
    if pages.last().id != id {
        lemma_last_is_last(pages.drop_last(), id, i);
    }
}

proof fn lemma_batch_last_some_of(pages: Seq<PageView>, i: int)
    requires
        0 <= i < pages.len(),
    ensures
        store::batch_last(pages, pages[i].id) is Some,
{
    lemma_last_is_last(pages, pages[i].id, i);
    lemma_batch_last_member(pages, pages[i].id);
}

proof fn lemma_last_of_concat(first: Seq<PageView>, second: Seq<PageView>, id: u64)
    ensures
        store::batch_last(first + second, id) == (match store::batch_last(second, id) {
            Some(found) => Some(found),
            None => store::batch_last(first, id),
        }),
    decreases second.len(),
{
    if second.len() == 0 {
        assert(first + second =~= first);
    } else {
        assert((first + second).last() == second.last());
        assert((first + second).drop_last() =~= first + second.drop_last());
        lemma_last_of_concat(first, second.drop_last(), id);
    }
}

/// The commit of a batch commits exactly its pages, leaving out older images without a commit.
proof fn lemma_batches_commit(
    records: Seq<WalRecordView>,
    first: u64,
    writes: Seq<PageWriteView>,
)
    requires
        store::batches(records) is Ok,
        writes.len() <= u32::MAX,
    ensures
        store::batches(records + store::batch_records(first, writes)) == Ok::<
            (Seq<PageView>, Seq<PageView>),
            StorageErrorView,
        >(
            (
                Seq::empty(),
                store::batches(records)->Ok_0.1 + store::batch_pages(first, writes),
            ),
        ),
{
    let pages = store::batch_pages(first, writes);
    let images = store::image_records(pages);
    let all = records + store::batch_records(first, writes);
    let (pending, committed) = store::batches(records)->Ok_0;
    lemma_batches_images(records, pages);
    assert(all.drop_last() =~= records + images);
    assert(all.last() == store::batch_records(first, writes).last());
    assert((pending + pages).skip((pending + pages).len() - writes.len()) =~= pages);
}

/// Carrying out what a batch lists keeps the store and its files in step.
pub proof fn law_batch_keeps_step(store: StoreView, disk: DiskView, writes: Seq<PageWriteView>)
    requires
        in_step(store, disk),
        writes.len() > 0,
        store::payloads_fit(writes),
        store::batch_logs(store.wal, writes),
        store::batch_placed(writes),
    ensures
        in_step(
            store::store_written(store, writes),
            disk_after_all(disk, store::batch_ops(store.held, store.wal.next_lsn, writes)),
        ),
{
    let first = store.wal.next_lsn;
    let committed = store::batches(store.wal.records)->Ok_0.1;
    let images = committed + store::batch_pages(first, writes);
    lemma_batch_logged(store, disk, writes);
    lemma_batch_ops(disk, store.held, first, writes);
    assert(images.skip(images.len() as int) =~= Seq::empty());
}

/// Carrying out what a batch lists that waits for the next sync keeps the store and its files in
/// step.
pub proof fn law_relaxed_batch_keeps_step(
    store: StoreView,
    disk: DiskView,
    writes: Seq<PageWriteView>,
)
    requires
        in_step(store, disk),
        writes.len() > 0,
        store::payloads_fit(writes),
        store::batch_logs(store.wal, writes),
        store::batch_placed(writes),
    ensures
        in_step(
            store::store_relaxed(store, writes),
            disk_after(disk, store::log_op(store.wal.next_lsn, writes)),
        ),
{
    let first = store.wal.next_lsn;
    let pages = store::batch_pages(first, writes);
    let after = store::store_relaxed(store, writes);
    let committed = store::batches(store.wal.records)->Ok_0.1;
    let images = committed + pages;
    lemma_batch_logged(store, disk, writes);
    lemma_readable(disk.data, first);
    lemma_data_batch_concat(disk.data, store.held, pages);
    assert(images.skip(images.len() - after.held.len()) =~= after.held);
    assert forall|i: int| 0 <= i < after.held.len() implies (data_file::data_read(
        disk.data,
        (#[trigger] after.held[i]).id,
    ) matches Ok(Some(found)) ==> found.lsn < after.held[i].lsn) by {
        if i < store.held.len() {
            assert(after.held[i] == store.held[i]);
        } else {
            assert(after.held[i] == pages[i - store.held.len()]);
        }
    }
    assert forall|i: int| 0 <= i < after.held.len() implies page::fits_page(
        (#[trigger] after.held[i]).payload,
    ) by {
        if i < store.held.len() {
            assert(after.held[i] == store.held[i]);
        } else {
            assert(after.held[i] == pages[i - store.held.len()]);
            assert(page::fits_page(writes[i - store.held.len()].payload));
        }
    }
    assert(is_readable(disk.data, after.wal.next_lsn));
}

/// What appending the records of a batch makes of the log, and of the pages as they then read.
proof fn lemma_batch_logged(store: StoreView, disk: DiskView, writes: Seq<PageWriteView>)
    requires
        in_step(store, disk),
        writes.len() > 0,
        store::payloads_fit(writes),
        store::batch_logs(store.wal, writes),
        store::batch_placed(writes),
    ensures
        ({
            let first = store.wal.next_lsn;
            let pages = store::batch_pages(first, writes);
            let log = disk.log + wal::wal_log(store::batch_records(first, writes));
            let after = store::store_written(store, writes);
            let images = store::batches(store.wal.records)->Ok_0.1 + pages;
            &&& after.wf()
            &&& wal::wal_clean(log)
            &&& log.len() == after.wal.size
            &&& after.wal.records == wal::wal_since_checkpoint(wal::wal_records(log))
            &&& wal::wal_last_lsn(wal::wal_records(log), 0) < after.wal.next_lsn
            &&& store::batches(after.wal.records) == Ok::<
                (Seq<PageView>, Seq<PageView>),
                StorageErrorView,
            >((Seq::empty(), images))
            &&& pages_placed(images)
            &&& forall|i: int| 0 <= i < images.len() ==> is_as_new(after.data, #[trigger] images[i])
            &&& is_readable(after.data, after.wal.next_lsn)
        }),
{
    let first = store.wal.next_lsn;
    let records = store::batch_records(first, writes);
    let pages = store::batch_pages(first, writes);
    let found = wal::wal_records(disk.log);
    let log = disk.log + wal::wal_log(records);
    let after = store::store_written(store, writes);
    lemma_in_step_log(store, disk);
    lemma_batch_shape(store.wal, writes, wal::wal_last_lsn(found, 0));
    lemma_log_appended(disk.log, records);
    lemma_since_checkpoint_extend(found, records);
    lemma_batches_commit(store.wal.records, first, writes);
    store::law_batch_reads(store.data, pages);
    lemma_readable(store.data, first);
    let committed = store::batches(store.wal.records)->Ok_0.1;
    let images = committed + pages;
    assert forall|i: int| 0 <= i < images.len() implies is_as_new(after.data, #[trigger] images[i])
        && data_file::has_offset(images[i].id) && page::fits_page(images[i].payload) by {
        let id = images[i].id;
        lemma_batch_last_member(pages, id);
        if i < committed.len() {
            assert(images[i] == committed[i]);
            assert(is_as_new(store.data, committed[i]));
        } else {
            assert(images[i] == pages[i - committed.len()]);
            lemma_last_is_last(pages, id, i - committed.len());
        }
    }
    assert forall|id: u64| id < after.data.page_count implies (#[trigger] data_file::data_read(
        after.data,
        id,
    )) is Ok && (data_file::data_read(after.data, id) matches Ok(Some(there)) ==> there.lsn
        < after.wal.next_lsn) by {
        lemma_batch_last_member(pages, id);
        if store::batch_last(pages, id) is None {
            lemma_page_limit(after.data, id);
            if id >= store.data.page_count {
                assert(store.read(id) is Ok);
            }
        }
    }
    store::lemma_next_id_grows(store.next_page_id, pages);
    assert(wal::wal_last_lsn(wal::wal_records(log), 0) < after.wal.next_lsn) by {
        assert(wal::wal_records(log).last() == records[writes.len() as int]);
    }
}

/// Writing pages behind others is writing all of them.
proof fn lemma_data_batch_concat(data: DataView, first: Seq<PageView>, second: Seq<PageView>)
    ensures
        store::data_batch(data, first + second) == store::data_batch(
            store::data_batch(data, first),
            second,
        ),
    decreases second.len(),
{
    if second.len() == 0 {
        assert(first + second =~= first);
    } else {
        assert((first + second).last() == second.last());
        assert((first + second).drop_last() =~= first + second.drop_last());
        lemma_data_batch_concat(data, first, second.drop_last());
    }
}

proof fn lemma_batch_ops(
    disk: DiskView,
    held: Seq<PageView>,
    first: u64,
    writes: Seq<PageWriteView>,
)
    ensures
        disk_after_all(disk, store::batch_ops(held, first, writes)) == (DiskView {
            data: store::data_batch(
                store::data_batch(disk.data, held),
                store::batch_pages(first, writes),
            ),
            log: disk.log + wal::wal_log(store::batch_records(first, writes)),
        }),
{
    let ops = store::batch_ops(held, first, writes);
    let pages = store::batch_pages(first, writes);
    let logged = DiskView {
        log: disk.log + wal::wal_log(store::batch_records(first, writes)),
        ..disk
    };
    let head = seq![store::log_op(first, writes), FileOpView::WalSync];
    reveal_with_fuel(disk_after_all, 3);
    assert(head.drop_last().drop_last() =~= Seq::empty());
    assert(disk_after_all(disk, head) == logged);
    lemma_page_ops(disk, logged, head, held + pages);
    lemma_data_batch_concat(disk.data, held, pages);
    assert(ops.drop_last() =~= head + store::page_ops(held + pages));
}

proof fn lemma_page_ops(
    disk: DiskView,
    logged: DiskView,
    head: Seq<FileOpView>,
    pages: Seq<PageView>,
)
    requires
        disk_after_all(disk, head) == logged,
    ensures
        disk_after_all(disk, head + store::page_ops(pages)) == (DiskView {
            data: store::data_batch(logged.data, pages),
            ..logged
        }),
    decreases pages.len(),
{
    let ops = store::page_ops(pages);
    if pages.len() == 0 {
        assert(head + ops =~= head);
    } else {
        let before = store::page_ops(pages.drop_last());
        lemma_page_ops(disk, logged, head, pages.drop_last());
        assert((head + ops).drop_last() =~= head + before);
        assert((head + ops).last() == store::data_write_op(pages.last()));
    }
}

/// A store that was just opened is in step with its files once it has carried out its repairs.
#[verifier::rlimit(40)]
pub proof fn law_open_is_in_step(disk: DiskView, store: StoreView)
    requires
        disk.data.wf(),
        disk.log.len() <= u64::MAX,
        reopened(disk) == Ok::<StoreView, StorageErrorView>(store),
        store.wal.next_lsn < u64::MAX,
    ensures
        in_step(store, disk_after_all(disk, store.ops)),
{
    wal::law_scan_is_ordered(disk.log, 0, 0);
    wal::law_repair_keeps_records(disk.log, 0, 0);
    let (records, end) = wal::wal_scan(disk.log, 0, 0)->Ok_0;
    let recent = wal::wal_since_checkpoint(records);
    lemma_recent(records);
    lemma_batches_rise(recent);
    let (pending, committed) = store::batches(recent)->Ok_0;
    let (after, ops) = store::replay(disk.data, committed)->Ok_0;
    lemma_replay_placed(disk.data, committed);
    store::lemma_batches_fit(recent);
    assert(pages_placed(committed));
    assert(lsns_rise(committed)) by {
        assert forall|i: int, j: int| 0 <= i < j < committed.len() implies (
        #[trigger] committed[i]).lsn < (#[trigger] committed[j]).lsn by {
            assert((committed + pending)[i] == committed[i]);
            assert((committed + pending)[j] == committed[j]);
        }
    }
    law_replay_is_newest(disk.data, committed);
    let repairs = if end != disk.log.len() {
        seq![FileOpView::WalTruncate { length: end as u64 }]
    } else {
        Seq::empty()
    };
    let cut = DiskView { log: disk.log.take(end), ..disk };
    assert(disk.log.take(disk.log.len() as int) =~= disk.log);
    reveal_with_fuel(disk_after_all, 2);
    assert(disk_after_all(disk, repairs) == cut) by {
        if end != disk.log.len() {
            assert(repairs.drop_last() =~= Seq::empty());
        }
    }
    lemma_replay_ops(disk, cut, repairs, committed);
    let reached = disk_after_all(disk, store.ops);
    assert(reached == DiskView { data: after, ..cut }) by {
        if ops.len() > 0 {
            assert(store.ops.drop_last() =~= repairs + ops);
        } else {
            assert(store.ops =~= repairs + ops);
        }
    }
    data_file::lemma_max_lsn_bounds(after, after.page_count as nat);
    assert forall|i: int| 0 <= i < committed.len() implies is_as_new(
        after,
        #[trigger] committed[i],
    ) by {
        let id = committed[i].id;
        lemma_last_is_last(committed, id, i);
        lemma_batch_last_member(committed, id);
        let at = batch_last_at(committed, id)->Some_0;
        assert(committed[at].lsn >= committed[i].lsn) by {
            if i < at {
                assert(committed[i].lsn < committed[at].lsn);
            }
        }
    }
    assert forall|id: u64| id < store.data.page_count implies (#[trigger] store.read(id)) is Ok && (
    store.read(id) matches Ok(Some(found)) ==> found.lsn < store.wal.next_lsn) by {
        assert(data_file::data_read(after, id) is Ok);
    }
    assert(store.free =~= Seq::empty());
    assert(wal::wal_records(reached.log) == records);
    assert(committed.skip(committed.len() as int) =~= Seq::empty());
    assert(held_logged(reached.data, committed, store.held));
    assert(is_readable(reached.data, store.wal.next_lsn));
}

/// Replay got past an image only where the image has a place in the file.
proof fn lemma_replay_placed(data: DataView, images: Seq<PageView>)
    requires
        store::replay(data, images) is Ok,
    ensures
        forall|i: int| 0 <= i < images.len() ==> data_file::has_offset((#[trigger] images[i]).id),
    decreases images.len(),
{
    if images.len() > 0 {
        lemma_replay_placed(data, images.drop_last());
        let reached = store::replay(data, images.drop_last())->Ok_0.0;
        assert(!store::replay_blocked(reached, images.last()));
        assert forall|i: int| 0 <= i < images.len() implies data_file::has_offset(
            (#[trigger] images[i]).id,
        ) by {
            if i < images.len() - 1 {
                assert(images.drop_last()[i] == images[i]);
            }
        }
    }
}

proof fn lemma_replay_ops(
    disk: DiskView,
    cut: DiskView,
    repairs: Seq<FileOpView>,
    images: Seq<PageView>,
)
    requires
        disk_after_all(disk, repairs) == cut,
        cut.data == disk.data,
        store::replay(disk.data, images) is Ok,
    ensures
        disk_after_all(disk, repairs + store::replay(disk.data, images)->Ok_0.1) == (DiskView {
            data: store::replay(disk.data, images)->Ok_0.0,
            ..cut
        }),
    decreases images.len(),
{
    let (after, ops) = store::replay(disk.data, images)->Ok_0;
    if images.len() == 0 {
        assert(repairs + ops =~= repairs);
    } else {
        lemma_replay_ops(disk, cut, repairs, images.drop_last());
        let (before, earlier) = store::replay(disk.data, images.drop_last())->Ok_0;
        if store::needs_replay(before, images.last()) {
            assert((repairs + ops).drop_last() =~= repairs + earlier);
            assert((repairs + ops).last() == store::data_write_op(images.last()));
        }
    }
}

/// Writing the pages that wait brings the data file up to the store.
proof fn lemma_held_ops(disk: DiskView, held: Seq<PageView>)
    ensures
        disk_after_all(disk, store::held_ops(held)) == (DiskView {
            data: store::data_batch(disk.data, held),
            ..disk
        }),
{
    reveal_with_fuel(disk_after_all, 2);
    if held.len() > 0 {
        let head = seq![FileOpView::WalSync];
        assert(head.drop_last() =~= Seq::empty());
        assert(disk_after_all(disk, head) == disk);
        lemma_page_ops(disk, disk, head, held);
    }
}

/// A checkpoint loses nothing: carrying it out keeps the store and its files in step, and every
/// page reads as before.
pub proof fn law_checkpoint_keeps_step(store: StoreView, disk: DiskView)
    requires
        in_step(store, disk),
        wal::wal_has_room(store.wal, 0),
    ensures
        in_step(
            store::store_checkpointed(store),
            disk_after_all(
                disk,
                store::store_checkpointed(store).ops.skip(store.ops.len() as int),
            ),
        ),
        forall|id: u64| #[trigger]
            store::store_checkpointed(store).read(id) == store.read(id),
{
    let after = store::store_checkpointed(store);
    let ops = after.ops.skip(store.ops.len() as int);
    let head = store::held_ops(store.held);
    let settled = DiskView { data: store.data, ..disk };
    lemma_held_ops(disk, store.held);
    reveal_with_fuel(disk_after_all, 5);
    let record = WalRecordView { lsn: store.wal.next_lsn, kind: WalKindView::Checkpoint };
    assert(ops =~= head + seq![
        FileOpView::DataSync,
        FileOpView::WalAppend(wal::wal_bytes(record)),
        FileOpView::WalSync,
        FileOpView::WalTruncate { length: 0 },
    ]);
    let ops3 = ops.drop_last();
    let ops2 = ops3.drop_last();
    let ops1 = ops2.drop_last();
    assert(ops1.drop_last() =~= head);
    assert(disk_after_all(disk, head) == settled);
    let reached = disk_after_all(disk, ops);
    assert(reached.log =~= Seq::empty());
    assert(reached.data == store.data);
    assert(wal::wal_records(reached.log) =~= Seq::empty());
    assert(Seq::<PageView>::empty().skip(0) =~= Seq::empty());
    assert(store::batches(after.wal.records) == Ok::<
        (Seq<PageView>, Seq<PageView>),
        StorageErrorView,
    >((Seq::empty(), Seq::empty())));
}

} // verus!
