//! The durable page store: the data file and the log, and the order in which they are written.
use crate::bytes;
use crate::bytes::copy_bytes;
use crate::storage::data_file;
use crate::storage::data_file::{DataFile, DataView};
use crate::storage::error::{configuration, corrupt_wal, StorageError, StorageErrorView};
use crate::storage::page;
use crate::storage::page::{Lsn, Page, PageId, PageView, MAX_PAGE_PAYLOAD, PAGE_SIZE};
use crate::storage::wal;
use crate::storage::wal::{Wal, WalKind, WalKindView, WalRecord, WalRecordView, WalView};
use crate::text;
use crate::text::text_with_number;
use vstd::prelude::*;
use vstd::string::*;

verus! {

/// How a store is opened.
#[derive(Debug, Clone, Copy, PartialEq, Eq, Structural)]
pub struct StoreOptions {
    pub create_if_missing: bool,
}

impl Default for StoreOptions {
    fn default() -> (options: StoreOptions)
        ensures
            options.create_if_missing,
    {
        StoreOptions { create_if_missing: true }
    }
}

/// A page to be written.
#[derive(Debug, Clone, PartialEq, Eq)]
pub struct PageWrite {
    pub page_id: PageId,
    pub payload: Vec<u8>,
}

#[verifier::ext_equal]
pub struct PageWriteView {
    pub page_id: u64,
    pub payload: Seq<u8>,
}

impl View for PageWrite {
    type V = PageWriteView;

    open spec fn view(&self) -> PageWriteView {
        PageWriteView { page_id: self.page_id.0, payload: self.payload@ }
    }
}

pub open spec fn write_views(writes: Seq<PageWrite>) -> Seq<PageWriteView> {
    Seq::new(writes.len(), |i: int| writes[i]@)
}

pub open spec fn page_views(pages: Seq<Page>) -> Seq<PageView> {
    Seq::new(pages.len(), |i: int| pages[i]@)
}

/// One thing to do to the files, in the order in which the store lists them.
#[derive(Debug)]
pub enum FileOp {
    /// Cut the data file to whole pages.
    DataTruncate { pages: u64 },
    /// Cut the log.
    WalTruncate { length: u64 },
    /// Write at the end of the log.
    WalAppend(Vec<u8>),
    /// Wait until the log is durable.
    WalSync,
    /// Write a page image at the page's offset in the data file.
    DataWrite { page_id: PageId, image: Vec<u8> },
    /// Wait until the data file is durable.
    DataSync,
}

#[verifier::ext_equal]
pub enum FileOpView {
    DataTruncate { pages: u64 },
    WalTruncate { length: u64 },
    WalAppend(Seq<u8>),
    WalSync,
    DataWrite { page_id: u64, image: Seq<u8> },
    DataSync,
}

impl View for FileOp {
    type V = FileOpView;

    open spec fn view(&self) -> FileOpView {
        match *self {
            FileOp::DataTruncate { pages } => FileOpView::DataTruncate { pages },
            FileOp::WalTruncate { length } => FileOpView::WalTruncate { length },
            FileOp::WalAppend(log) => FileOpView::WalAppend(log@),
            FileOp::WalSync => FileOpView::WalSync,
            FileOp::DataWrite { page_id, image } => FileOpView::DataWrite {
                page_id: page_id.0,
                image: image@,
            },
            FileOp::DataSync => FileOpView::DataSync,
        }
    }
}

pub open spec fn op_views(ops: Seq<FileOp>) -> Seq<FileOpView> {
    Seq::new(ops.len(), |i: int| ops[i]@)
}

/// Images still waiting for their commit, and those committed, in the order of the log.
pub open spec fn batches(records: Seq<WalRecordView>) -> Result<
    (Seq<PageView>, Seq<PageView>),
    StorageErrorView,
>
    decreases records.len(),
{
    if records.len() == 0 {
        Ok((Seq::empty(), Seq::empty()))
    } else {
        match batches(records.drop_last()) {
            Err(error) => Err(error),
            Ok((pending, committed)) => {
                let last = records.last();
                match last.kind {
                    WalKindView::PageImage { page_id, payload } => Ok(
                        (pending.push(PageView { id: page_id, lsn: last.lsn, payload }), committed),
                    ),
                    WalKindView::BatchCommit { page_count } => if pending.len() < page_count {
                        Err(
                            StorageErrorView::CorruptWal {
                                offset: 0,
                                reason: "batch commit declares "@ + text::decimal(page_count as nat)
                                    + (" pages but only "@ + text::decimal(pending.len())
                                    + " are pending"@),
                            },
                        )
                    } else {
                        Ok(
                            (
                                Seq::empty(),
                                committed + pending.skip(pending.len() - page_count),
                            ),
                        )
                    },
                    WalKindView::Checkpoint => Err(
                        StorageErrorView::CorruptWal {
                            offset: 0,
                            reason: "unexpected checkpoint after recovery boundary"@,
                        },
                    ),
                }
            },
        }
    }
}

/// The page images that recovery may write: those of committed batches after the last checkpoint.
pub open spec fn committed_images(records: Seq<WalRecordView>) -> Result<
    Seq<PageView>,
    StorageErrorView,
> {
    match batches(wal::wal_since_checkpoint(records)) {
        Ok((pending, committed)) => Ok(committed),
        Err(error) => Err(error),
    }
}

/// Whether a page in the data file is older than a logged image of it, missing or damaged.
pub open spec fn needs_replay(data: DataView, image: PageView) -> bool {
    match data_file::data_read(data, image.id) {
        Ok(Some(found)) => found.lsn < image.lsn,
        Ok(None) => true,
        Err(error) => error is CorruptPage,
    }
}

/// Whether reading a page fails in a way that no replay mends.
pub open spec fn replay_blocked(data: DataView, image: PageView) -> bool {
    data_file::data_read(data, image.id) matches Err(error) && !(error is CorruptPage)
}

/// The data file after replaying logged images, and what was written to get there.
pub open spec fn replay(data: DataView, images: Seq<PageView>) -> Result<
    (DataView, Seq<FileOpView>),
    StorageErrorView,
>
    decreases images.len(),
{
    if images.len() == 0 {
        Ok((data, Seq::empty()))
    } else {
        match replay(data, images.drop_last()) {
            Err(error) => Err(error),
            Ok((before, ops)) => {
                let image = images.last();
                if replay_blocked(before, image) {
                    Err(data_file::data_read(before, image.id)->Err_0)
                } else if needs_replay(before, image) {
                    Ok((data_file::data_written(before, image), ops.push(data_write_op(image))))
                } else {
                    Ok((before, ops))
                }
            },
        }
    }
}

/// Writing one page to the data file.
pub open spec fn data_write_op(written: PageView) -> FileOpView {
    FileOpView::DataWrite { page_id: written.id, image: page::page_image(written) }
}

/// One past a page number, or the largest number where there is none.
pub open spec fn id_after(id: u64) -> u64 {
    if id == u64::MAX {
        u64::MAX
    } else {
        (id + 1) as u64
    }
}

/// The larger of `next` and one past every page.
pub open spec fn next_id_after(next: u64, pages: Seq<PageView>) -> u64
    decreases pages.len(),
{
    if pages.len() == 0 {
        next
    } else {
        let before = next_id_after(next, pages.drop_last());
        let after = id_after(pages.last().id);
        if before > after {
            before
        } else {
            after
        }
    }
}

/// The state of a store.
#[verifier::ext_equal]
pub struct StoreView {
    pub data: DataView,
    pub wal: WalView,
    /// The first page number never handed out.
    pub next_page_id: u64,
    /// Released page numbers waiting for reuse, in rising order.
    pub free: Seq<u64>,
    /// Set when a durability operation failed; the store has to be reopened.
    pub poisoned: bool,
    /// What has to be done to the files.
    pub ops: Seq<FileOpView>,
    /// Pages that stand in the log and wait for its next sync to be written to the data file.
    pub held: Seq<PageView>,
}

pub open spec fn rising(ids: Seq<u64>) -> bool {
    forall|i: int, j: int| 0 <= i < j < ids.len() ==> ids[i] < ids[j]
}

impl StoreView {
    pub open spec fn wf(self) -> bool {
        &&& self.data.wf()
        &&& self.wal.next_lsn > 0
        &&& self.wal.appended.len() == 0
        &&& rising(self.free)
        &&& forall|i: int| 0 <= i < self.free.len() ==> self.free[i] < self.next_page_id
        &&& forall|i: int|
            0 <= i < self.held.len() ==> page::fits_page((#[trigger] self.held[i]).payload)
    }

    /// What reading a page gives.
    #[verifier::inline]
    pub open spec fn read(self, id: u64) -> Result<Option<PageView>, StorageErrorView> {
        data_file::data_read(self.data, id)
    }
}

/// What opening a store on the bytes of its two files gives.
pub open spec fn store_opened(file: Seq<u8>, log: Seq<u8>) -> Result<StoreView, StorageErrorView> {
    match wal::wal_scan(log, 0, 0) {
        Err(error) => Err(error),
        Ok((records, end)) => store_recovered(
            data_file::data_of_bytes(file),
            records,
            end as u64,
            (if file.len() % PAGE_SIZE as nat != 0 {
                seq![
                    FileOpView::DataTruncate { pages: data_file::data_of_bytes(file).page_count },
                ]
            } else {
                Seq::empty()
            }) + (if end != log.len() {
                seq![FileOpView::WalTruncate { length: end as u64 }]
            } else {
                Seq::empty()
            }),
        ),
    }
}

/// What recovery makes of a data file and the records of its log.
pub open spec fn store_recovered(
    data: DataView,
    records: Seq<WalRecordView>,
    size: u64,
    repairs: Seq<FileOpView>,
) -> Result<StoreView, StorageErrorView> {
    match committed_images(records) {
        Err(error) => Err(error),
        Ok(images) => match replay(data, images) {
            Err(error) => Err(error),
            Ok((recovered, ops)) => match data_file::data_max_lsn(
                recovered,
                recovered.page_count as nat,
            ) {
                Err(error) => Err(error),
                Ok(highest) => if highest == u64::MAX {
                    Err(
                        StorageErrorView::CorruptWal {
                            offset: size,
                            reason: "LSN space exhausted"@,
                        },
                    )
                } else {
                    Ok(
                        StoreView {
                            data: recovered,
                            wal: WalView {
                                records: wal::wal_since_checkpoint(records),
                                next_lsn: if wal::wal_resume(records) > highest {
                                    wal::wal_resume(records)
                                } else {
                                    (highest + 1) as u64
                                },
                                size,
                                appended: Seq::empty(),
                            },
                            next_page_id: next_id_after(recovered.page_count, images),
                            free: Seq::empty(),
                            poisoned: false,
                            ops: repairs + ops + (if ops.len() > 0 {
                                seq![FileOpView::DataSync]
                            } else {
                                Seq::empty()
                            }),
                            held: Seq::empty(),
                        },
                    )
                },
            },
        },
    }
}

proof fn lemma_batches_error(records: Seq<WalRecordView>, count: int)
    requires
        0 <= count <= records.len(),
        batches(records.take(count)) is Err,
    ensures
        batches(records) == batches(records.take(count)),
    decreases records.len() - count,
{
    if count < records.len() {
        assert(records.take(count + 1).drop_last() =~= records.take(count));
        lemma_batches_error(records, count + 1);
    } else {
        assert(records.take(count) =~= records);
    }
}

/// Every committed image comes from a page image in the log.
pub proof fn lemma_batches_fit(records: Seq<WalRecordView>)
    requires
        forall|i: int| 0 <= i < records.len() ==> wal::wal_storable(#[trigger] records[i]),
    ensures
        batches(records) matches Ok((pending, committed)) ==> {
            &&& forall|i: int|
                0 <= i < pending.len() ==> page::fits_page((#[trigger] pending[i]).payload)
            &&& forall|i: int|
                0 <= i < committed.len() ==> page::fits_page((#[trigger] committed[i]).payload)
        },
    decreases records.len(),
{
    if records.len() > 0 {
        lemma_batches_fit(records.drop_last());
    }
}

/// The records behind the last checkpoint are among the records.
pub proof fn lemma_since_checkpoint(records: Seq<WalRecordView>)
    ensures
        wal::wal_since_checkpoint(records).len() <= records.len(),
        wal::wal_since_checkpoint(records) == records.skip(
            records.len() - wal::wal_since_checkpoint(records).len(),
        ),
        forall|i: int|
            0 <= i < wal::wal_since_checkpoint(records).len() ==> !((
            #[trigger] wal::wal_since_checkpoint(records)[i]).kind is Checkpoint),
        wal::wal_since_checkpoint(records).len() < records.len() ==> records[records.len()
            - wal::wal_since_checkpoint(records).len() - 1].kind is Checkpoint,
    decreases records.len(),
{
    if records.len() > 0 && !(records.last().kind is Checkpoint) {
        lemma_since_checkpoint(records.drop_last());
        let before = wal::wal_since_checkpoint(records.drop_last());
        assert(wal::wal_since_checkpoint(records) =~= records.skip(
            records.len() - before.len() - 1,
        ));
    } else {
        assert(records.skip(records.len() as int) =~= Seq::empty());
    }
}

/// The page images that recovery may write.
fn committed_page_images(records: &[WalRecord]) -> (images: Result<Vec<Page>, StorageError>)
    requires
        forall|i: int|
            0 <= i < records@.len() ==> wal::wal_storable((#[trigger] records@[i])@),
    ensures
        match images {
            Ok(images) => {
                &&& committed_images(wal::record_views(records@)) == Ok::<
                    Seq<PageView>,
                    StorageErrorView,
                >(page_views(images@))
                &&& forall|i: int|
                    0 <= i < images@.len() ==> page::fits_page((#[trigger] images@[i])@.payload)
            },
            Err(error) => committed_images(wal::record_views(records@)) == Err::<
                Seq<PageView>,
                StorageErrorView,
            >(error@),
        },
{
    let ghost all = wal::record_views(records@);
    let ghost recent = wal::wal_since_checkpoint(all);
    proof {
        lemma_since_checkpoint(all);
    }
    let mut start: usize = records.len();
    while start > 0 && !matches!(records[start - 1].kind, WalKind::Checkpoint)
        invariant
            start <= records@.len(),
            all == wal::record_views(records@),
            forall|i: int| start <= i < all.len() ==> !((#[trigger] all[i]).kind is Checkpoint),
        decreases start,
    {
        start = start - 1;
    }
    proof {
        if recent.len() < all.len() {
            assert(all[all.len() - recent.len() - 1].kind is Checkpoint);
        }
        if start > 0 {
            assert(all[start - 1].kind is Checkpoint);
            if all.len() - recent.len() < start {
                assert(recent[start - 1 - (all.len() - recent.len())] == all[start - 1]);
            }
        }
        assert(start == all.len() - recent.len());
    }
    let mut pending: Vec<Page> = Vec::new();
    let mut committed: Vec<Page> = Vec::new();
    let mut index: usize = start;
    proof {
        assert(recent.take(0) =~= Seq::empty());
        assert(page_views(pending@) =~= Seq::empty());
        assert(page_views(committed@) =~= Seq::empty());
    }
    while index < records.len()
        invariant
            start <= index <= records@.len(),
            all == wal::record_views(records@),
            recent == all.skip(start as int),
            recent == wal::wal_since_checkpoint(all),
            forall|i: int|
                0 <= i < records@.len() ==> wal::wal_storable((#[trigger] records@[i])@),
            batches(recent.take(index - start)) == Ok::<
                (Seq<PageView>, Seq<PageView>),
                StorageErrorView,
            >((page_views(pending@), page_views(committed@))),
        decreases records@.len() - index,
    {
        let record = &records[index];
        let ghost done = recent.take(index - start);
        let ghost next = recent.take(index - start + 1);
        proof {
            assert(next.drop_last() =~= done);
            assert(next.last() == record@);
            assert(wal::wal_storable(record@));
        }
        match &record.kind {
            WalKind::PageImage { page_id, payload } => {
                match Page::with_lsn(*page_id, record.lsn, copy_bytes(payload.as_slice())) {
                    Ok(image) => {
                        let ghost before = page_views(pending@);
                        pending.push(image);
                        assert(page_views(pending@) =~= before.push(image@));
                    },
                    Err(error) => {
                        return Err(error);
                    },
                }
            },
            WalKind::BatchCommit { page_count } => {
                let count: usize = *page_count as usize;
                if pending.len() < count {
                    let tail = text_with_number(
                        " pages but only ",
                        pending.len() as u64,
                        " are pending",
                    );
                    proof {
                        lemma_batches_error(recent, index - start + 1);
                    }
                    return Err(
                        StorageError::CorruptWal {
                            offset: 0,
                            reason: text_with_number(
                                "batch commit declares ",
                                count as u64,
                                tail.as_str(),
                            ),
                        },
                    );
                }
                let ghost waiting = page_views(pending@);
                let ghost before = page_views(committed@);
                let from: usize = pending.len() - count;
                let mut batch = pending.split_off(from);
                committed.append(&mut batch);
                pending.clear();
                proof {
                    assert(page_views(pending@) =~= Seq::empty());
                    assert(page_views(committed@) =~= before + waiting.skip(
                        waiting.len() - *page_count,
                    ));
                }
            },
            WalKind::Checkpoint => {
                proof {
                    lemma_batches_error(recent, index - start + 1);
                }
                return Err(corrupt_wal(0, "unexpected checkpoint after recovery boundary"));
            },
        }
        index = index + 1;
    }
    proof {
        assert(recent.take(index - start) =~= recent);
        assert forall|i: int| 0 <= i < recent.len() implies wal::wal_storable(
            #[trigger] recent[i],
        ) by {
            assert(recent[i] == records@[start + i]@);
        }
        lemma_batches_fit(recent);
        assert forall|i: int| 0 <= i < committed@.len() implies page::fits_page(
            (#[trigger] committed@[i])@.payload,
        ) by {
            assert(page_views(committed@)[i] == committed@[i]@);
        }
    }
    Ok(committed)
}

/// The pages that a batch of writes puts down when its first log record has LSN `first`.
pub open spec fn batch_pages(first: u64, writes: Seq<PageWriteView>) -> Seq<PageView> {
    Seq::new(
        writes.len(),
        |i: int|
            PageView {
                id: writes[i].page_id,
                lsn: (first + i) as u64,
                payload: writes[i].payload,
            },
    )
}

/// The log records of page images.
pub open spec fn image_records(pages: Seq<PageView>) -> Seq<WalRecordView> {
    Seq::new(
        pages.len(),
        |i: int|
            WalRecordView {
                lsn: pages[i].lsn,
                kind: WalKindView::PageImage { page_id: pages[i].id, payload: pages[i].payload },
            },
    )
}

/// The log records of a batch: its page images, then its commit.
pub open spec fn batch_records(first: u64, writes: Seq<PageWriteView>) -> Seq<WalRecordView> {
    image_records(batch_pages(first, writes)).push(
        WalRecordView {
            lsn: (first + writes.len()) as u64,
            kind: WalKindView::BatchCommit { page_count: writes.len() as u32 },
        },
    )
}

/// The data file after writing pages one after the other.
pub open spec fn data_batch(data: DataView, pages: Seq<PageView>) -> DataView
    decreases pages.len(),
{
    if pages.len() == 0 {
        data
    } else {
        data_file::data_written(data_batch(data, pages.drop_last()), pages.last())
    }
}

/// The log with a run of records behind it.
pub open spec fn wal_extended(log: WalView, records: Seq<WalRecordView>) -> WalView {
    WalView {
        records: log.records + records,
        next_lsn: (log.next_lsn + records.len()) as u64,
        size: (log.size + wal::wal_log(records).len()) as u64,
        appended: log.appended + wal::wal_log(records),
    }
}

/// Writing pages to the data file, one after the other.
pub open spec fn page_ops(pages: Seq<PageView>) -> Seq<FileOpView> {
    Seq::new(pages.len(), |i: int| data_write_op(pages[i]))
}

/// Appending the records of a batch to the log.
pub open spec fn log_op(first: u64, writes: Seq<PageWriteView>) -> FileOpView {
    FileOpView::WalAppend(wal::wal_log(batch_records(first, writes)))
}

/// What a batch does to the files: its log records are durable before any page is written. Pages that
/// waited for a sync of the log go before those of the batch.
pub open spec fn batch_ops(
    held: Seq<PageView>,
    first: u64,
    writes: Seq<PageWriteView>,
) -> Seq<FileOpView> {
    seq![log_op(first, writes), FileOpView::WalSync] + page_ops(held + batch_pages(first, writes))
        + seq![FileOpView::DataSync]
}

/// What has to be done to the files before the data file has every page: nothing unless pages wait.
pub open spec fn held_ops(held: Seq<PageView>) -> Seq<FileOpView> {
    if held.len() == 0 {
        Seq::empty()
    } else {
        seq![FileOpView::WalSync] + page_ops(held)
    }
}

/// Whether every payload fits in a page.
pub open spec fn payloads_fit(writes: Seq<PageWriteView>) -> bool {
    forall|i: int| 0 <= i < writes.len() ==> page::fits_page((#[trigger] writes[i]).payload)
}

/// Whether the log has room for a batch.
pub open spec fn batch_logs(log: WalView, writes: Seq<PageWriteView>) -> bool {
    &&& writes.len() <= u32::MAX
    &&& log.next_lsn + writes.len() < u64::MAX
    &&& log.size + wal::wal_log(batch_records(log.next_lsn, writes)).len() <= u64::MAX
}

/// Whether every page of a batch has a place in the data file.
pub open spec fn batch_placed(writes: Seq<PageWriteView>) -> bool {
    forall|i: int| 0 <= i < writes.len() ==> data_file::has_offset((#[trigger] writes[i]).page_id)
}

/// Why the log has no room for a batch: what the first of its records from `at` on that finds no room
/// is told.
pub open spec fn log_refused(log: WalView, writes: Seq<PageWriteView>, at: nat) -> StorageErrorView
    decreases writes.len() - at,
{
    let reached = wal_extended(log, batch_records(log.next_lsn, writes).take(at as int));
    if at < writes.len() {
        if wal::wal_has_room(reached, writes[at as int].payload.len()) {
            log_refused(log, writes, at + 1)
        } else {
            wal::wal_full(reached)
        }
    } else if writes.len() > u32::MAX {
        StorageErrorView::CorruptWal {
            offset: reached.size,
            reason: "batch page count exceeds u32"@,
        }
    } else {
        wal::wal_full(reached)
    }
}

/// How long the first payload is that does not fit in a page.
pub open spec fn misfit_length(writes: Seq<PageWriteView>) -> nat
    decreases writes.len(),
{
    if writes.len() == 0 {
        0
    } else if page::fits_page(writes[0].payload) {
        misfit_length(writes.drop_first())
    } else {
        writes[0].payload.len()
    }
}

/// The refusal of the first payload that does not fit in a page.
pub open spec fn misfit_refused(writes: Seq<PageWriteView>) -> StorageErrorView {
    StorageErrorView::PageTooLarge {
        actual: misfit_length(writes) as usize,
        maximum: MAX_PAGE_PAYLOAD,
    }
}

/// Why a batch is not written.
pub open spec fn write_refused(store: StoreView, writes: Seq<PageWriteView>) -> StorageErrorView {
    if store.poisoned {
        StorageErrorView::Poisoned
    } else if !payloads_fit(writes) {
        misfit_refused(writes)
    } else if !batch_logs(store.wal, writes) {
        log_refused(store.wal, writes, 0)
    } else {
        StorageErrorView::CorruptDataFile("page offset overflow"@)
    }
}

/// The first payload that does not fit is the first from any place before it on.
pub proof fn lemma_misfit(writes: Seq<PageWriteView>, at: int)
    requires
        0 <= at < writes.len(),
        forall|i: int| 0 <= i < at ==> page::fits_page((#[trigger] writes[i]).payload),
        !page::fits_page(writes[at].payload),
    ensures
        misfit_length(writes) == writes[at].payload.len(),
    decreases at,
{
    if at > 0 {
        assert(page::fits_page(writes[0].payload));
        let rest = writes.drop_first();
        assert forall|i: int| 0 <= i < at - 1 implies page::fits_page(
            (#[trigger] rest[i]).payload,
        ) by {
            assert(rest[i] == writes[i + 1]);
        }
        lemma_misfit(rest, at - 1);
    }
}

/// The store after a batch was written.
pub open spec fn store_written(store: StoreView, writes: Seq<PageWriteView>) -> StoreView {
    let pages = batch_pages(store.wal.next_lsn, writes);
    StoreView {
        data: data_batch(store.data, pages),
        wal: WalView {
            appended: Seq::empty(),
            ..wal_extended(store.wal, batch_records(store.wal.next_lsn, writes))
        },
        next_page_id: next_id_after(store.next_page_id, pages),
        ops: store.ops + batch_ops(store.held, store.wal.next_lsn, writes),
        held: Seq::empty(),
        ..store
    }
}

/// The store after a batch was written that waits for the next sync: its records are appended to the
/// log, and its pages read as written.
pub open spec fn store_relaxed(store: StoreView, writes: Seq<PageWriteView>) -> StoreView {
    StoreView {
        ops: store.ops.push(log_op(store.wal.next_lsn, writes)),
        held: store.held + batch_pages(store.wal.next_lsn, writes),
        ..store_written(store, writes)
    }
}

/// The store after a batch was written, with a sync of its own or without.
pub open spec fn store_put(store: StoreView, writes: Seq<PageWriteView>, synced: bool) -> StoreView {
    if synced {
        store_written(store, writes)
    } else {
        store_relaxed(store, writes)
    }
}

pub proof fn lemma_next_id_grows(next: u64, pages: Seq<PageView>)
    ensures
        next_id_after(next, pages) >= next,
        forall|i: int|
            0 <= i < pages.len() ==> next_id_after(next, pages) >= id_after(
                (#[trigger] pages[i]).id,
            ),
    decreases pages.len(),
{
    if pages.len() > 0 {
        lemma_next_id_grows(next, pages.drop_last());
        assert forall|i: int| 0 <= i < pages.len() implies next_id_after(next, pages) >= id_after(
            (#[trigger] pages[i]).id,
        ) by {
            if i < pages.len() - 1 {
                assert(pages.drop_last()[i] == pages[i]);
            }
        }
    }
}

/// The last page written to an id by a batch, if there is one.
pub open spec fn batch_last(pages: Seq<PageView>, id: u64) -> Option<PageView>
    decreases pages.len(),
{
    if pages.len() == 0 {
        None
    } else if pages.last().id == id {
        Some(pages.last())
    } else {
        batch_last(pages.drop_last(), id)
    }
}

/// After a batch every page reads as the batch last wrote it, or as before where it did not.
pub proof fn law_batch_reads(data: DataView, pages: Seq<PageView>)
    requires
        data.wf(),
        forall|i: int|
            0 <= i < pages.len() ==> data_file::has_offset((#[trigger] pages[i]).id)
                && page::fits_page(pages[i].payload),
    ensures
        data_batch(data, pages).wf(),
        forall|id: u64| #[trigger]
            data_file::data_read(data_batch(data, pages), id) == (match batch_last(pages, id) {
                Some(written) => Ok(Some(written)),
                None => data_file::data_read(data, id),
            }),
    decreases pages.len(),
{
    if pages.len() > 0 {
        law_batch_reads(data, pages.drop_last());
        data_file::law_write_then_read(data_batch(data, pages.drop_last()), pages.last());
    }
}

/// A page that no write of a batch names is not the batch's.
pub proof fn lemma_batch_last_none(pages: Seq<PageView>, id: u64)
    requires
        forall|i: int| 0 <= i < pages.len() ==> (#[trigger] pages[i]).id != id,
    ensures
        batch_last(pages, id) is None,
    decreases pages.len(),
{
    if pages.len() > 0 {
        assert(pages.last() == pages[pages.len() - 1]);
        lemma_batch_last_none(pages.drop_last(), id);
    }
}

/// A page that one write of a batch names, and no later one, reads as that write left it.
pub proof fn lemma_batch_last_some(pages: Seq<PageView>, at: int)
    requires
        0 <= at < pages.len(),
        forall|i: int| at < i < pages.len() ==> (#[trigger] pages[i]).id != pages[at].id,
    ensures
        batch_last(pages, pages[at].id) == Some(pages[at]),
    decreases pages.len(),
{
    if at < pages.len() - 1 {
        assert(pages.last() == pages[pages.len() - 1]);
        lemma_batch_last_some(pages.drop_last(), at);
    }
}

/// A strictly durable physical page store.
///
/// The store works on the contents of its two files in memory and lists what has to be done to
/// the files. Each batch of writes has its log records made durable before any of its pages is
/// written to the data file.
pub struct DurableStore {
    data: DataFile,
    wal: Wal,
    next_page_id: u64,
    free_pages: Vec<u64>,
    poisoned: bool,
    ops: Vec<FileOp>,
    held: Vec<Page>,
}

impl View for DurableStore {
    type V = StoreView;

    closed spec fn view(&self) -> StoreView {
        StoreView {
            data: self.data@,
            wal: self.wal@,
            next_page_id: self.next_page_id,
            free: self.free_pages@,
            poisoned: self.poisoned,
            ops: op_views(self.ops@),
            held: page_views(self.held@),
        }
    }
}

fn push_op(ops: &mut Vec<FileOp>, op: FileOp)
    ensures
        op_views(final(ops)@) == op_views(old(ops)@).push(op@),
{
    ops.push(op);
    assert(op_views(ops@) =~= op_views(old(ops)@).push(op@));
}

impl DurableStore {
    /// Opens a store on the bytes of its data file and its log, and recovers.
    ///
    /// Committed page images that the data file lacks, or holds in an older or damaged form, are
    /// written to it again.
    pub fn open(file: &[u8], log: &[u8]) -> (store: Result<DurableStore, StorageError>)
        ensures
            match store {
                Ok(store) => store_opened(file@, log@) == Ok::<StoreView, StorageErrorView>(store@)
                    && store@.wf(),
                Err(error) => store_opened(file@, log@) == Err::<StoreView, StorageErrorView>(
                    error@,
                ),
            },
    {
        let data = DataFile::open(file);
        let mut ops: Vec<FileOp> = Vec::new();
        assert(op_views(ops@) =~= Seq::empty());
        if file.len() % PAGE_SIZE != 0 {
            push_op(&mut ops, FileOp::DataTruncate { pages: data.page_count() });
        }
        let ghost data_repairs = op_views(ops@);
        let opened = match Wal::open(log) {
            Ok(opened) => opened,
            Err(error) => {
                return Err(error);
            },
        };
        proof {
            wal::law_scan_is_ordered(log@, 0, 0);
        }
        let size: u64 = opened.size_bytes();
        if size != log.len() as u64 {
            push_op(&mut ops, FileOp::WalTruncate { length: size });
        }
        let ghost repairs = op_views(ops@);
        let ghost records = opened@.records;
        proof {
            assert(repairs =~= (if file@.len() % PAGE_SIZE as nat != 0 {
                seq![
                    FileOpView::DataTruncate { pages: data_file::data_of_bytes(file@).page_count },
                ]
            } else {
                Seq::empty()
            }) + (if size != log@.len() {
                seq![FileOpView::WalTruncate { length: size }]
            } else {
                Seq::empty()
            }));
            assert(forall|i: int| 0 <= i < records.len() ==> wal::wal_storable(#[trigger] records[i]));
        }
        let mut store = DurableStore {
            data,
            wal: opened,
            next_page_id: 0,
            free_pages: Vec::new(),
            poisoned: false,
            ops,
            held: Vec::new(),
        };
        let images = match store.recover() {
            Ok(images) => images,
            Err(error) => {
                return Err(error);
            },
        };
        let highest: u64 = match store.data.max_lsn() {
            Ok(highest) => highest,
            Err(error) => {
                return Err(error);
            },
        };
        match store.wal.ensure_next_lsn_after(highest) {
            Ok(_) => {},
            Err(error) => {
                return Err(error);
            },
        }
        store.next_page_id = calculate_next_page_id(store.data.page_count(), images.as_slice());
        store.wal.trim_records_to_last_checkpoint();
        proof {
            assert(store@.free =~= Seq::empty());
            assert(store@.held =~= Seq::empty());
            assert(store@ =~= store_opened(file@, log@)->Ok_0);
        }
        Ok(store)
    }

    /// Writes to the data file what the log has committed and the data file lacks.
    fn recover(&mut self) -> (images: Result<Vec<Page>, StorageError>)
        requires
            old(self)@.data.wf(),
            forall|i: int|
                0 <= i < old(self)@.wal.records.len() ==> wal::wal_storable(
                    #[trigger] old(self)@.wal.records[i],
                ),
        ensures
            match images {
                Ok(images) => {
                    &&& committed_images(old(self)@.wal.records) == Ok::<
                        Seq<PageView>,
                        StorageErrorView,
                    >(page_views(images@))
                    &&& replay(old(self)@.data, page_views(images@)) matches Ok((recovered, ops))
                        && final(self)@ == (StoreView {
                        data: recovered,
                        ops: old(self)@.ops + ops + (if ops.len() > 0 {
                            seq![FileOpView::DataSync]
                        } else {
                            Seq::empty()
                        }),
                        ..old(self)@
                    })
                    &&& final(self)@.data.wf()
                },
                Err(error) => match committed_images(old(self)@.wal.records) {
                    Err(cause) => cause == error@,
                    Ok(images) => replay(old(self)@.data, images) == Err::<
                        (DataView, Seq<FileOpView>),
                        StorageErrorView,
                    >(error@),
                },
            },
    {
        let ghost records = self.wal@.records;
        let recent = self.wal.records();
        proof {
            assert forall|i: int| 0 <= i < recent@.len() implies wal::wal_storable(
                (#[trigger] recent@[i])@,
            ) by {
                assert(wal::record_views(recent@)[i] == recent@[i]@);
            }
        }
        let images = match committed_page_images(recent) {
            Ok(images) => images,
            Err(error) => {
                return Err(error);
            },
        };
        let ghost all = page_views(images@);
        let mut wrote_page = false;
        let mut index: usize = 0;
        proof {
            assert(all.take(0) =~= Seq::empty());
            assert(self@.ops + Seq::<FileOpView>::empty() =~= self@.ops);
        }
        while index < images.len()
            invariant
                index <= images@.len(),
                all == page_views(images@),
                forall|i: int|
                    0 <= i < images@.len() ==> page::fits_page((#[trigger] images@[i])@.payload),
                replay(old(self)@.data, all.take(index as int)) matches Ok((reached, ops))
                    && self@.data == reached && self@.ops == old(self)@.ops + ops && wrote_page == (
                ops.len() > 0),
                self@ == (StoreView { data: self@.data, ops: self@.ops, ..old(self)@ }),
                self@.data.wf(),
                committed_images(old(self)@.wal.records) == Ok::<Seq<PageView>, StorageErrorView>(
                    all,
                ),
            decreases images@.len() - index,
        {
            let image = &images[index];
            proof {
                assert(all.take(index + 1).drop_last() =~= all.take(index as int));
                assert(all.take(index + 1).last() == image@);
            }
            let stale = match self.data.read(image.id()) {
                Ok(Some(found)) => found.lsn().0 < image.lsn().0,
                Ok(None) => true,
                Err(StorageError::CorruptPage { page_id, reason }) => true,
                Err(error) => {
                    proof {
                        lemma_replay_error(old(self)@.data, all, index + 1);
                    }
                    return Err(error);
                },
            };
            if stale {
                let ghost ops_before = self@.ops;
                match self.data.write(image) {
                    Ok(written) => {
                        push_op(
                            &mut self.ops,
                            FileOp::DataWrite { page_id: image.id(), image: written },
                        );
                        wrote_page = true;
                        let ghost ops = replay(old(self)@.data, all.take(index as int))->Ok_0.1;
                        assert(self@.ops =~= old(self)@.ops + ops.push(data_write_op(image@)));
                    },
                    Err(error) => {
                        assert(false);
                        return Err(error);
                    },
                }
            }
            index = index + 1;
        }
        proof {
            assert(all.take(index as int) =~= all);
        }
        let ghost ops = replay(old(self)@.data, all)->Ok_0.1;
        if wrote_page {
            push_op(&mut self.ops, FileOp::DataSync);
        }
        proof {
            assert(self@.ops =~= old(self)@.ops + ops + (if ops.len() > 0 {
                seq![FileOpView::DataSync]
            } else {
                Seq::empty()
            }));
        }
        Ok(images)
    }
}

proof fn lemma_replay_error(data: DataView, images: Seq<PageView>, count: int)
    requires
        0 <= count <= images.len(),
        replay(data, images.take(count)) is Err,
    ensures
        replay(data, images) == replay(data, images.take(count)),
    decreases images.len() - count,
{
    if count < images.len() {
        assert(images.take(count + 1).drop_last() =~= images.take(count));
        lemma_replay_error(data, images, count + 1);
    } else {
        assert(images.take(count) =~= images);
    }
}

/// The first page number that neither the data file nor the log has.
fn calculate_next_page_id(page_count: u64, images: &[Page]) -> (next: u64)
    ensures
        next == next_id_after(page_count, page_views(images@)),
{
    let ghost all = page_views(images@);
    let mut next: u64 = page_count;
    let mut index: usize = 0;
    assert(all.take(0) =~= Seq::empty());
    while index < images.len()
        invariant
            index <= images@.len(),
            all == page_views(images@),
            next == next_id_after(page_count, all.take(index as int)),
        decreases images@.len() - index,
    {
        proof {
            assert(all.take(index + 1).drop_last() =~= all.take(index as int));
        }
        let after: u64 = images[index].id().0.saturating_add(1);
        if next <= after {
            next = after;
        }
        index = index + 1;
    }
    assert(all.take(index as int) =~= all);
    next
}


proof fn lemma_extend_step(log: WalView, records: Seq<WalRecordView>, count: int)
    requires
        0 <= count < records.len(),
        records[count].lsn == log.next_lsn + count,
        log.next_lsn + count < u64::MAX,
        log.size + wal::wal_log(records.take(count)).len() + wal::wal_bytes(records[count]).len()
            <= u64::MAX,
    ensures
        wal::wal_appended(wal_extended(log, records.take(count)), records[count].kind)
            == wal_extended(log, records.take(count + 1)),
{
    wal::lemma_wal_log_take(records, count);
    wal::lemma_wal_bytes_len(records[count]);
    assert(records.take(count).push(records[count]) =~= records.take(count + 1));
    let before = wal_extended(log, records.take(count));
    let after = wal::wal_appended(before, records[count].kind);
    assert(WalRecordView { lsn: before.next_lsn, kind: records[count].kind } == records[count]);
    assert(after.records =~= log.records + records.take(count + 1));
    assert(after.appended =~= log.appended + wal::wal_log(records.take(count + 1)));
}

impl DurableStore {
    /// Appends the records of a batch to the log.
    fn log_batch(&mut self, writes: &Vec<PageWrite>, synced: bool) -> (lsns: Result<
        Vec<Lsn>,
        StorageError,
    >)
        requires
            old(self)@.wf(),
            writes@.len() > 0,
            payloads_fit(write_views(writes@)),
        ensures
            final(self)@ == (StoreView {
                wal: final(self)@.wal,
                ops: final(self)@.ops,
                ..old(self)@
            }),
            final(self)@.wal.appended.len() == 0,
            final(self)@.wal.next_lsn > 0,
            match lsns {
                Ok(lsns) => {
                    &&& batch_logs(old(self)@.wal, write_views(writes@))
                    &&& lsns@.len() == writes@.len()
                    &&& forall|i: int|
                        0 <= i < lsns@.len() ==> (#[trigger] lsns@[i]).0 == old(self)@.wal.next_lsn
                            + i
                    &&& final(self)@.wal == (WalView {
                        appended: Seq::empty(),
                        ..wal_extended(
                            old(self)@.wal,
                            batch_records(old(self)@.wal.next_lsn, write_views(writes@)),
                        )
                    })
                    &&& final(self)@.ops == old(self)@.ops.push(
                        log_op(old(self)@.wal.next_lsn, write_views(writes@)),
                    ) + (if synced {
                        seq![FileOpView::WalSync]
                    } else {
                        Seq::empty()
                    })
                },
                Err(error) => {
                    &&& !batch_logs(old(self)@.wal, write_views(writes@))
                    &&& error@ == log_refused(old(self)@.wal, write_views(writes@), 0)
                    &&& old(self)@.ops.is_prefix_of(final(self)@.ops)
                },
            },
    {
        let ghost views = write_views(writes@);
        let ghost first = self.wal@.next_lsn;
        let ghost log = self.wal@;
        let ghost records = batch_records(first, views);
        let mut lsns: Vec<Lsn> = Vec::new();
        let mut index: usize = 0;
        let mut failed: Option<StorageError> = None;
        proof {
            assert(records.take(0) =~= Seq::empty());
            assert(log.records + Seq::<WalRecordView>::empty() =~= log.records);
            assert(log.appended + Seq::<u8>::empty() =~= log.appended);
        }
        while index < writes.len() && failed.is_none()
            invariant
                index <= writes@.len(),
                views == write_views(writes@),
                payloads_fit(views),
                log == old(self)@.wal,
                first == log.next_lsn > 0,
                records == batch_records(first, views),
                self@ == (StoreView { wal: self@.wal, ..old(self)@ }),
                lsns@.len() == index,
                first + index <= u64::MAX,
                log.size + wal::wal_log(records.take(index as int)).len() <= u64::MAX,
                self@.wal == wal_extended(log, records.take(index as int)),
                forall|i: int| 0 <= i < index ==> (#[trigger] lsns@[i]).0 == first + i,
                match failed {
                    Some(error) => !batch_logs(log, views) && error@ == log_refused(log, views, 0),
                    None => log_refused(log, views, 0) == log_refused(log, views, index as nat),
                },
            decreases writes@.len() - index, (if failed is None { 1int } else { 0int }),
        {
            let write = &writes[index];
            let ghost before = self.wal@;
            proof {
                assert(views[index as int] == write@);
                assert(page::fits_page(views[index as int].payload));
                wal::lemma_wal_log_take(records, index as int);
                wal::lemma_wal_log_take(records, index + 1);
                wal::lemma_wal_bytes_len(records[index as int]);
            }
            match self.wal.append_page(write.page_id, write.payload.as_slice()) {
                Ok(lsn) => {
                    proof {
                        lemma_extend_step(log, records, index as int);
                    }
                    lsns.push(lsn);
                    index = index + 1;
                },
                Err(error) => {
                    failed = Some(error);
                },
            }
        }
        if failed.is_none() {
            proof {
                wal::lemma_wal_log_take(records, index as int);
                wal::lemma_wal_bytes_len(records[index as int]);
                bytes::lemma_le_round_trip(views.len() as u32 as nat, 4);
                assert(records.take(index + 1) =~= records);
            }
            match self.wal.append_batch_commit(writes.len()) {
                Ok(_) => {
                    proof {
                        lemma_extend_step(log, records, index as int);
                    }
                },
                Err(error) => {
                    failed = Some(error);
                },
            }
        }
        let ghost written = self.wal@.appended;
        let appended = self.wal.take_appended();
        push_op(&mut self.ops, FileOp::WalAppend(appended));
        match failed {
            Some(error) => {
                Err(error)
            },
            None => {
                proof {
                    assert(log.appended + wal::wal_log(records) =~= wal::wal_log(records));
                }
                let ghost logged = self@.ops;
                if synced {
                    push_op(&mut self.ops, FileOp::WalSync);
                }
                assert(self@.ops =~= logged + (if synced {
                    seq![FileOpView::WalSync]
                } else {
                    Seq::empty()
                }));
                Ok(lsns)
            },
        }
    }

    /// Lets the pages of a logged batch read as written, and wait to be written to the data file.
    fn store_batch(&mut self, writes: &Vec<PageWrite>, lsns: &Vec<Lsn>) -> (done: Result<
        (),
        StorageError,
    >)
        requires
            old(self)@.wf(),
            payloads_fit(write_views(writes@)),
            lsns@.len() == writes@.len(),
        ensures
            final(self)@.wf(),
            final(self)@ == (StoreView {
                data: final(self)@.data,
                next_page_id: final(self)@.next_page_id,
                held: final(self)@.held,
                ..old(self)@
            }),
            final(self)@.next_page_id >= old(self)@.next_page_id,
            forall|id: u64|
                (forall|i: int| 0 <= i < writes@.len() ==> (#[trigger] writes@[i]).page_id.0 != id)
                    ==> #[trigger] final(self)@.read(id) == old(self)@.read(id),
            match done {
                Ok(_) => {
                    let pages = Seq::new(
                        writes@.len(),
                        |i: int|
                            PageView {
                                id: writes@[i].page_id.0,
                                lsn: lsns@[i].0,
                                payload: writes@[i].payload@,
                            },
                    );
                    &&& batch_placed(write_views(writes@))
                    &&& final(self)@.data == data_batch(old(self)@.data, pages)
                    &&& final(self)@.next_page_id == next_id_after(old(self)@.next_page_id, pages)
                    &&& final(self)@.held == old(self)@.held + pages
                },
                Err(error) => !batch_placed(write_views(writes@)) && error@
                    == StorageErrorView::CorruptDataFile("page offset overflow"@),
            },
    {
        let ghost views = write_views(writes@);
        let ghost pages = Seq::new(
            writes@.len(),
            |i: int|
                PageView {
                    id: writes@[i].page_id.0,
                    lsn: lsns@[i].0,
                    payload: writes@[i].payload@,
                },
        );
        let mut index: usize = 0;
        proof {
            assert(pages.take(0) =~= Seq::empty());
            assert(self@.held + pages.take(0) =~= self@.held);
        }
        while index < writes.len()
            invariant
                index <= writes@.len() == lsns@.len(),
                views == write_views(writes@),
                payloads_fit(views),
                pages == Seq::new(
                    writes@.len(),
                    |i: int|
                        PageView {
                            id: writes@[i].page_id.0,
                            lsn: lsns@[i].0,
                            payload: writes@[i].payload@,
                        },
                ),
                self@ == (StoreView {
                    data: self@.data,
                    next_page_id: self@.next_page_id,
                    held: self@.held,
                    ..old(self)@
                }),
                self@.wf(),
                old(self)@.wf(),
                self@.data == data_batch(old(self)@.data, pages.take(index as int)),
                self@.next_page_id == next_id_after(
                    old(self)@.next_page_id,
                    pages.take(index as int),
                ),
                self@.next_page_id >= old(self)@.next_page_id,
                self@.held == old(self)@.held + pages.take(index as int),
                forall|i: int|
                    0 <= i < index ==> data_file::has_offset((#[trigger] views[i]).page_id),
                forall|id: u64|
                    (forall|i: int|
                        0 <= i < writes@.len() ==> (#[trigger] writes@[i]).page_id.0 != id)
                        ==> #[trigger] self@.read(id) == old(self)@.read(id),
            decreases writes@.len() - index,
        {
            let write = &writes[index];
            proof {
                assert(views[index as int] == write@);
                assert(page::fits_page(views[index as int].payload));
                assert(pages.take(index + 1).drop_last() =~= pages.take(index as int));
                assert(pages.take(index + 1).last() == pages[index as int]);
            }
            let written = match Page::with_lsn(
                write.page_id,
                lsns[index],
                copy_bytes(write.payload.as_slice()),
            ) {
                Ok(written) => written,
                Err(error) => {
                    assert(false);
                    return Err(error);
                },
            };
            let ghost before = self@;
            match self.data.write(&written) {
                Ok(_) => {
                    let ghost page = written@;
                    proof {
                        data_file::law_write_then_read(before.data, page);
                    }
                    self.held.push(written);
                    let after: u64 = write.page_id.0.saturating_add(1);
                    if self.next_page_id <= after {
                        self.next_page_id = after;
                    }
                    proof {
                        assert(self@.held =~= before.held.push(page));
                        assert(self@.held =~= old(self)@.held + pages.take(index + 1));
                        assert forall|id: u64|
                            (forall|i: int|
                                0 <= i < writes@.len() ==> (#[trigger] writes@[i]).page_id.0
                                    != id) implies #[trigger] self@.read(id) == old(self)@.read(
                            id,
                        ) by {
                            assert(writes@[index as int].page_id.0 != id);
                            assert(before.read(id) == old(self)@.read(id));
                            assert(data_file::data_read(
                                data_file::data_written(before.data, page),
                                id,
                            ) == data_file::data_read(before.data, id));
                        }
                    }
                },
                Err(error) => {
                    return Err(error);
                },
            }
            index = index + 1;
        }
        assert(pages.take(index as int) =~= pages);
        Ok(())
    }

    /// Writes the pages that wait to the data file.
    fn write_held(&mut self)
        requires
            old(self)@.wf(),
        ensures
            final(self)@ == (StoreView {
                ops: old(self)@.ops + page_ops(old(self)@.held),
                held: Seq::empty(),
                ..old(self)@
            }),
    {
        let ghost waiting = self@.held;
        let mut index: usize = 0;
        assert(self@.ops + page_ops(waiting).take(0) =~= self@.ops);
        while index < self.held.len()
            invariant
                old(self)@.wf(),
                waiting == old(self)@.held,
                waiting == page_views(self.held@),
                index <= self.held@.len() == waiting.len(),
                self@ == (StoreView {
                    ops: old(self)@.ops + page_ops(waiting).take(index as int),
                    ..old(self)@
                }),
            decreases self.held@.len() - index,
        {
            let ghost before = self@.ops;
            let waits = &self.held[index];
            assert(waits@ == waiting[index as int]);
            let image = waits.encode();
            let page_id = waits.id();
            push_op(&mut self.ops, FileOp::DataWrite { page_id, image });
            proof {
                assert(page_ops(waiting).take(index + 1) =~= page_ops(waiting).take(
                    index as int,
                ).push(data_write_op(waiting[index as int])));
                assert(self@.ops =~= before.push(data_write_op(waiting[index as int])));
                assert(self@.ops =~= old(self)@.ops + page_ops(waiting).take(index + 1));
            }
            index = index + 1;
        }
        assert(page_ops(waiting).take(index as int) =~= page_ops(waiting));
        self.held = Vec::new();
        assert(self@.held =~= Seq::empty());
    }

    /// Writes a group of pages, with a sync of the log and of the data file or without.
    fn put_pages(&mut self, writes: Vec<PageWrite>, synced: bool) -> (lsns: Result<
        Vec<Lsn>,
        StorageError,
    >)
        requires
            old(self)@.wf(),
        ensures
            final(self)@.wf(),
            final(self)@.free == old(self)@.free,
            final(self)@.next_page_id >= old(self)@.next_page_id,
            forall|id: u64|
                (forall|i: int| 0 <= i < writes@.len() ==> (#[trigger] writes@[i]).page_id.0 != id)
                    ==> #[trigger] final(self)@.read(id) == old(self)@.read(id),
            match lsns {
                Ok(lsns) => {
                    &&& !old(self)@.poisoned
                    &&& payloads_fit(write_views(writes@))
                    &&& lsns@.len() == writes@.len()
                    &&& forall|i: int|
                        0 <= i < lsns@.len() ==> (#[trigger] lsns@[i]).0 == old(self)@.wal.next_lsn
                            + i
                    &&& if writes@.len() == 0 {
                        final(self)@ == old(self)@
                    } else {
                        &&& batch_logs(old(self)@.wal, write_views(writes@))
                        &&& batch_placed(write_views(writes@))
                        &&& final(self)@ == store_put(
                            old(self)@,
                            write_views(writes@),
                            synced,
                        )
                    }
                },
                Err(error) => {
                    &&& error@ == write_refused(old(self)@, write_views(writes@))
                    &&& if old(self)@.poisoned || !payloads_fit(write_views(writes@)) {
                        final(self)@ == old(self)@
                    } else {
                        &&& final(self)@.poisoned
                        &&& writes@.len() > 0
                        &&& if batch_logs(old(self)@.wal, write_views(writes@)) {
                            !batch_placed(write_views(writes@))
                        } else {
                            final(self)@.data == old(self)@.data
                        }
                    }
                },
            },
    {
        if self.poisoned {
            return Err(StorageError::Poisoned);
        }
        let ghost views = write_views(writes@);
        let mut index: usize = 0;
        while index < writes.len()
            invariant
                index <= writes@.len(),
                views == write_views(writes@),
                *self == *old(self),
                old(self)@.wf(),
                !old(self)@.poisoned,
                payloads_fit(views.take(index as int)),
            decreases writes@.len() - index,
        {
            if writes[index].payload.len() > MAX_PAGE_PAYLOAD {
                proof {
                    assert(!page::fits_page(views[index as int].payload));
                    assert forall|i: int| 0 <= i < index implies page::fits_page(
                        (#[trigger] views[i]).payload,
                    ) by {
                        assert(views.take(index as int)[i] == views[i]);
                    }
                    lemma_misfit(views, index as int);
                }
                return Err(
                    StorageError::PageTooLarge {
                        actual: writes[index].payload.len(),
                        maximum: MAX_PAGE_PAYLOAD,
                    },
                );
            }
            proof {
                assert forall|i: int| 0 <= i < index + 1 implies page::fits_page(
                    (#[trigger] views.take(index + 1)[i]).payload,
                ) by {
                    if i < index {
                        assert(views.take(index as int)[i] == views[i]);
                    }
                }
            }
            index = index + 1;
        }
        assert(views.take(index as int) =~= views);
        if writes.len() == 0 {
            return Ok(Vec::new());
        }
        let ghost start = self@;
        match self.log_batch(&writes, synced) {
            Err(error) => {
                self.poisoned = true;
                Err(error)
            },
            Ok(lsns) => {
                let ghost logged = self@;
                match self.store_batch(&writes, &lsns) {
                    Err(error) => {
                        self.poisoned = true;
                        Err(error)
                    },
                    Ok(_) => {
                        proof {
                            let pages = batch_pages(start.wal.next_lsn, views);
                            let named = Seq::new(
                                writes@.len(),
                                |i: int|
                                    PageView {
                                        id: writes@[i].page_id.0,
                                        lsn: lsns@[i].0,
                                        payload: writes@[i].payload@,
                                    },
                            );
                            assert(pages =~= named);
                            lemma_next_id_grows(start.next_page_id, pages);
                            assert(self@ =~= StoreView { ops: logged.ops, ..store_relaxed(start, views) });
                        }
                        if synced {
                            self.write_held();
                            push_op(&mut self.ops, FileOp::DataSync);
                            assert(self@.ops =~= start.ops + batch_ops(
                                start.held,
                                start.wal.next_lsn,
                                views,
                            ));
                        }
                        assert(self@ =~= store_put(start, views, synced));
                        Ok(lsns)
                    },
                }
            },
        }
    }
    /// Durably writes a group of pages with one log sync and one data-file sync.
    ///
    /// All writes are checked before the log is changed. A store whose files may no longer agree
    /// with it is poisoned and takes no more writes.
    pub fn write_pages(&mut self, writes: Vec<PageWrite>) -> (lsns: Result<Vec<Lsn>, StorageError>)
        requires
            old(self)@.wf(),
        ensures
            final(self)@.wf(),
            final(self)@.free == old(self)@.free,
            final(self)@.next_page_id >= old(self)@.next_page_id,
            forall|id: u64|
                (forall|i: int| 0 <= i < writes@.len() ==> (#[trigger] writes@[i]).page_id.0 != id)
                    ==> #[trigger] final(self)@.read(id) == old(self)@.read(id),
            match lsns {
                Ok(lsns) => {
                    &&& !old(self)@.poisoned
                    &&& payloads_fit(write_views(writes@))
                    &&& lsns@.len() == writes@.len()
                    &&& forall|i: int|
                        0 <= i < lsns@.len() ==> (#[trigger] lsns@[i]).0 == old(self)@.wal.next_lsn
                            + i
                    &&& if writes@.len() == 0 {
                        final(self)@ == old(self)@
                    } else {
                        &&& batch_logs(old(self)@.wal, write_views(writes@))
                        &&& batch_placed(write_views(writes@))
                        &&& final(self)@ == store_written(old(self)@, write_views(writes@))
                    }
                },
                Err(error) => {
                    &&& error@ == write_refused(old(self)@, write_views(writes@))
                    &&& if old(self)@.poisoned || !payloads_fit(write_views(writes@)) {
                        final(self)@ == old(self)@
                    } else {
                        &&& final(self)@.poisoned
                        &&& writes@.len() > 0
                        &&& if batch_logs(old(self)@.wal, write_views(writes@)) {
                            !batch_placed(write_views(writes@))
                        } else {
                            final(self)@.data == old(self)@.data
                        }
                    }
                },
            },
    {
        self.put_pages(writes, true)
    }

    /// Writes a group of pages that become durable with the next sync of the log.
    ///
    /// The pages read as written at once. They are written to the data file once their log records
    /// are durable; until then a crash may undo the group, and leaves what was written before it.
    pub fn write_pages_relaxed(&mut self, writes: Vec<PageWrite>) -> (lsns: Result<
        Vec<Lsn>,
        StorageError,
    >)
        requires
            old(self)@.wf(),
        ensures
            final(self)@.wf(),
            final(self)@.free == old(self)@.free,
            final(self)@.next_page_id >= old(self)@.next_page_id,
            forall|id: u64|
                (forall|i: int| 0 <= i < writes@.len() ==> (#[trigger] writes@[i]).page_id.0 != id)
                    ==> #[trigger] final(self)@.read(id) == old(self)@.read(id),
            match lsns {
                Ok(lsns) => {
                    &&& !old(self)@.poisoned
                    &&& payloads_fit(write_views(writes@))
                    &&& lsns@.len() == writes@.len()
                    &&& forall|i: int|
                        0 <= i < lsns@.len() ==> (#[trigger] lsns@[i]).0 == old(self)@.wal.next_lsn
                            + i
                    &&& if writes@.len() == 0 {
                        final(self)@ == old(self)@
                    } else {
                        &&& batch_logs(old(self)@.wal, write_views(writes@))
                        &&& batch_placed(write_views(writes@))
                        &&& final(self)@ == store_relaxed(old(self)@, write_views(writes@))
                    }
                },
                Err(error) => {
                    &&& error@ == write_refused(old(self)@, write_views(writes@))
                    &&& if old(self)@.poisoned || !payloads_fit(write_views(writes@)) {
                        final(self)@ == old(self)@
                    } else {
                        &&& final(self)@.poisoned
                        &&& writes@.len() > 0
                        &&& if batch_logs(old(self)@.wal, write_views(writes@)) {
                            !batch_placed(write_views(writes@))
                        } else {
                            final(self)@.data == old(self)@.data
                        }
                    }
                },
            },
    {
        self.put_pages(writes, false)
    }
}

/// How many of `count` page numbers come from the released ones.
pub open spec fn reused_count(store: StoreView, count: nat) -> nat {
    if count < store.free.len() {
        count
    } else {
        store.free.len()
    }
}

/// The page numbers that a reservation hands out: released ones first, then fresh ones.
pub open spec fn reserved_ids(store: StoreView, count: nat) -> Seq<u64> {
    let reused = reused_count(store, count);
    store.free.take(reused as int) + Seq::new(
        (count - reused) as nat,
        |i: int| (store.next_page_id + i) as u64,
    )
}

/// The store after a reservation.
pub open spec fn store_reserved(store: StoreView, count: nat) -> StoreView {
    let reused = reused_count(store, count);
    StoreView {
        next_page_id: (store.next_page_id + (count - reused)) as u64,
        free: store.free.skip(reused as int),
        ..store
    }
}

pub open spec fn id_views(ids: Seq<PageId>) -> Seq<u64> {
    Seq::new(ids.len(), |i: int| ids[i].0)
}

/// Whether a page number has been handed out and not been released.
pub open spec fn is_live(store: StoreView, id: u64) -> bool {
    id < store.next_page_id && !store.free.contains(id)
}

/// Reserved numbers were not in use, differ from each other, and are in use afterwards, together
/// with exactly those that were before.
pub proof fn law_reserved_are_fresh(store: StoreView, count: nat)
    requires
        store.wf(),
        store.next_page_id + (count - reused_count(store, count)) <= u64::MAX,
    ensures
        store_reserved(store, count).wf(),
        reserved_ids(store, count).len() == count,
        reserved_ids(store, count).no_duplicates(),
        forall|i: int|
            0 <= i < count ==> !is_live(store, #[trigger] reserved_ids(store, count)[i]),
        forall|id: u64| #[trigger]
            is_live(store_reserved(store, count), id) <==> is_live(store, id) || reserved_ids(
                store,
                count,
            ).contains(id),
{
    let reused = reused_count(store, count);
    let ids = reserved_ids(store, count);
    let after = store_reserved(store, count);
    assert forall|i: int| 0 <= i < count implies !is_live(store, #[trigger] ids[i]) by {
        if i < reused {
            assert(ids[i] == store.free[i]);
        }
    }
    assert forall|id: u64| #[trigger] is_live(after, id) <==> is_live(store, id) || ids.contains(
        id,
    ) by {
        if is_live(after, id) && !is_live(store, id) {
            if id < store.next_page_id {
                let at = choose|j: int| 0 <= j < store.free.len() && store.free[j] == id;
                if at >= reused {
                    assert(after.free[at - reused] == id);
                }
                assert(ids[at] == id);
            } else {
                assert(ids[reused + (id - store.next_page_id)] == id);
            }
        }
        if is_live(store, id) && after.free.contains(id) {
            let at = choose|j: int| 0 <= j < after.free.len() && after.free[j] == id;
            assert(store.free[at + reused] == id);
        }
        if ids.contains(id) {
            let at = choose|j: int| 0 <= j < ids.len() && ids[j] == id;
            if after.free.contains(id) {
                let other = choose|j: int| 0 <= j < after.free.len() && after.free[j] == id;
                assert(store.free[other + reused] == id);
                if at < reused {
                    assert(ids[at] == store.free[at]);
                }
            }
            if at < reused {
                assert(ids[at] == store.free[at]);
            }
        }
    }
}

/// Adds a number to a rising list unless it is there.
pub(crate) fn insert_rising(ids: &mut Vec<u64>, id: u64)
    requires
        rising(old(ids)@),
    ensures
        rising(final(ids)@),
        forall|other: u64|
            #![trigger final(ids)@.contains(other)]
            #![trigger old(ids)@.contains(other)]
            final(ids)@.contains(other) <==> old(ids)@.contains(other) || other == id,
{
    let mut at: usize = 0;
    while at < ids.len() && ids[at] < id
        invariant
            at <= ids@.len(),
            *ids == *old(ids),
            forall|i: int| 0 <= i < at ==> ids@[i] < id,
        decreases ids@.len() - at,
    {
        at = at + 1;
    }
    let ghost before = ids@;
    if at < ids.len() && ids[at] == id {
        return;
    }
    ids.insert(at, id);
    proof {
        let after = ids@;
        assert forall|i: int, j: int| 0 <= i < j < after.len() implies after[i] < after[j] by {
            if at < before.len() {
                assert(id < before[at as int]);
            }
            if j > at && i == at {
                assert(after[j] == before[j - 1]);
                if j - 1 > at {
                    assert(before[at as int] < before[j - 1]);
                }
            }
        }
        assert forall|other: u64|
            #![trigger after.contains(other)]
            #![trigger before.contains(other)]
            after.contains(other) <==> before.contains(other) || other == id by {
            if before.contains(other) {
                let i = choose|i: int| 0 <= i < before.len() && before[i] == other;
                if i < at {
                    assert(after[i] == other);
                } else {
                    assert(after[i + 1] == other);
                }
            }
            if after.contains(other) {
                let i = choose|i: int| 0 <= i < after.len() && after[i] == other;
                if i < at {
                    assert(before[i] == other);
                } else if i > at {
                    assert(before[i - 1] == other);
                }
            }
            assert(after[at as int] == id);
        }
    }
}

/// The store after a checkpoint that found no room in the log.
pub open spec fn checkpoint_failed(store: StoreView) -> StoreView {
    StoreView {
        poisoned: true,
        ops: store.ops + held_ops(store.held) + seq![FileOpView::DataSync],
        held: Seq::empty(),
        ..store
    }
}

/// The store after a checkpoint: an empty log, LSNs going on.
pub open spec fn store_checkpointed(store: StoreView) -> StoreView {
    StoreView {
        wal: WalView {
            records: Seq::empty(),
            next_lsn: (store.wal.next_lsn + 1) as u64,
            size: 0,
            appended: Seq::empty(),
        },
        ops: store.ops + held_ops(store.held) + seq![
            FileOpView::DataSync,
            FileOpView::WalAppend(
                wal::wal_bytes(
                    WalRecordView { lsn: store.wal.next_lsn, kind: WalKindView::Checkpoint },
                ),
            ),
            FileOpView::WalSync,
            FileOpView::WalTruncate { length: 0 },
        ],
        held: Seq::empty(),
        ..store
    }
}

/// The writes of a single page.
pub open spec fn one_write(page_id: u64, payload: Seq<u8>) -> Seq<PageWriteView> {
    seq![PageWriteView { page_id, payload }]
}

impl DurableStore {
    /// Durably writes one page.
    pub fn write_page(&mut self, page_id: PageId, payload: Vec<u8>) -> (lsn: Result<
        Lsn,
        StorageError,
    >)
        requires
            old(self)@.wf(),
        ensures
            final(self)@.wf(),
            final(self)@.free == old(self)@.free,
            final(self)@.next_page_id >= old(self)@.next_page_id,
            forall|id: u64|
                id != page_id.0 ==> #[trigger] final(self)@.read(id) == old(self)@.read(id),
            match lsn {
                Ok(lsn) => {
                    &&& !old(self)@.poisoned
                    &&& page::fits_page(payload@)
                    &&& lsn.0 == old(self)@.wal.next_lsn
                    &&& batch_logs(old(self)@.wal, one_write(page_id.0, payload@))
                    &&& data_file::has_offset(page_id.0)
                    &&& final(self)@ == store_written(
                        old(self)@,
                        one_write(page_id.0, payload@),
                    )
                    &&& final(self)@.read(page_id.0) == Ok::<Option<PageView>, StorageErrorView>(
                        Some(PageView { id: page_id.0, lsn: lsn.0, payload: payload@ }),
                    )
                },
                Err(error) => {
                    &&& error@ == write_refused(old(self)@, one_write(page_id.0, payload@))
                    &&& if old(self)@.poisoned || !page::fits_page(payload@) {
                        final(self)@ == old(self)@
                    } else {
                        &&& final(self)@.poisoned
                        &&& final(self)@.read(page_id.0) == old(self)@.read(page_id.0)
                        &&& !batch_logs(old(self)@.wal, one_write(page_id.0, payload@))
                            || !data_file::has_offset(page_id.0)
                    }
                },
            },
    {
        let ghost bytes = payload@;
        let ghost start = self@;
        let mut writes: Vec<PageWrite> = Vec::new();
        writes.push(PageWrite { page_id, payload });
        let ghost written = writes@;
        let ghost views = write_views(written);
        assert(views =~= one_write(page_id.0, bytes));
        assert(views[0].payload == bytes);
        assert(written[0].page_id.0 == page_id.0);
        match self.write_pages(writes) {
            Err(error) => {
                Err(error)
            },
            Ok(lsns) => {
                proof {
                    let pages = batch_pages(start.wal.next_lsn, views);
                    assert(data_file::has_offset(views[0].page_id));
                    law_batch_reads(start.data, pages);
                    assert(pages[0] == PageView {
                        id: page_id.0,
                        lsn: start.wal.next_lsn,
                        payload: bytes,
                    });
                    lemma_batch_last_some(pages, 0);
                }
                Ok(lsns[0])
            },
        }
    }

    /// Durably writes a page under a number never used before.
    pub fn allocate_page(&mut self, payload: Vec<u8>) -> (page_id: Result<PageId, StorageError>)
        requires
            old(self)@.wf(),
        ensures
            final(self)@.wf(),
            forall|id: u64|
                id != old(self)@.next_page_id ==> #[trigger] final(self)@.read(id) == old(
                    self,
                )@.read(id),
            match page_id {
                Ok(page_id) => {
                    &&& !old(self)@.poisoned
                    &&& page_id.0 == old(self)@.next_page_id < u64::MAX
                    &&& page::fits_page(payload@)
                    &&& final(self)@ == store_written(
                        old(self)@,
                        one_write(page_id.0, payload@),
                    )
                    &&& final(self)@.next_page_id == page_id.0 + 1
                    &&& final(self)@.read(page_id.0) == Ok::<Option<PageView>, StorageErrorView>(
                        Some(
                            PageView {
                                id: page_id.0,
                                lsn: old(self)@.wal.next_lsn,
                                payload: payload@,
                            },
                        ),
                    )
                },
                Err(error) => if old(self)@.next_page_id == u64::MAX {
                    final(self)@ == old(self)@ && error@ == StorageErrorView::Configuration(
                        "page ID space exhausted"@,
                    )
                } else {
                    &&& error@ == write_refused(
                        old(self)@,
                        one_write(old(self)@.next_page_id, payload@),
                    )
                    &&& if old(self)@.poisoned || !page::fits_page(payload@) {
                        final(self)@ == old(self)@
                    } else {
                        &&& final(self)@.poisoned
                        &&& forall|id: u64| #[trigger] final(self)@.read(id) == old(self)@.read(id)
                        &&& !batch_logs(
                            old(self)@.wal,
                            one_write(old(self)@.next_page_id, payload@),
                        ) || !data_file::has_offset(old(self)@.next_page_id)
                    }
                },
            },
    {
        if self.next_page_id == u64::MAX {
            return Err(configuration("page ID space exhausted"));
        }
        let page_id = PageId(self.next_page_id);
        let ghost start = self@;
        match self.write_page(page_id, payload) {
            Err(error) => Err(error),
            Ok(_) => {
                proof {
                    let pages = batch_pages(start.wal.next_lsn, one_write(page_id.0, payload@));
                    assert(pages.drop_last() =~= Seq::empty());
                    assert(pages.last().id == page_id.0);
                    reveal_with_fuel(next_id_after, 2);
                }
                Ok(page_id)
            },
        }
    }

    /// Reads one page.
    pub fn read_page(&self, page_id: PageId) -> (found: Result<Option<Page>, StorageError>)
        requires
            self@.wf(),
        ensures
            match found {
                Ok(None) => self@.read(page_id.0) == Ok::<Option<PageView>, StorageErrorView>(None),
                Ok(Some(found)) => self@.read(page_id.0) == Ok::<
                    Option<PageView>,
                    StorageErrorView,
                >(Some(found@)) && page::fits_page(found@.payload),
                Err(error) => self@.read(page_id.0) == Err::<Option<PageView>, StorageErrorView>(
                    error@,
                ),
            },
    {
        self.data.read(page_id)
    }

    /// The length of the data file in pages.
    pub fn page_count(&self) -> (count: u64)
        ensures
            count == self@.data.page_count,
    {
        self.data.page_count()
    }

    /// Hands out page numbers without writing pages: released ones first, then fresh ones.
    pub fn reserve_page_ids(&mut self, count: usize) -> (ids: Result<Vec<PageId>, StorageError>)
        requires
            old(self)@.wf(),
        ensures
            final(self)@.wf(),
            match ids {
                Ok(ids) => {
                    &&& !old(self)@.poisoned
                    &&& old(self)@.next_page_id + (count - reused_count(old(self)@, count as nat))
                        <= u64::MAX
                    &&& id_views(ids@) == reserved_ids(old(self)@, count as nat)
                    &&& final(self)@ == store_reserved(old(self)@, count as nat)
                },
                Err(error) => if old(self)@.poisoned {
                    error@ == StorageErrorView::Poisoned && final(self)@ == old(self)@
                } else {
                    &&& old(self)@.next_page_id + (count - reused_count(old(self)@, count as nat))
                        > u64::MAX
                    &&& error@ == StorageErrorView::Configuration("page ID space exhausted"@)
                    &&& final(self)@ == (StoreView { free: Seq::empty(), ..old(self)@ })
                },
            },
    {
        if self.poisoned {
            return Err(StorageError::Poisoned);
        }
        let ghost start = self@;
        let reused: usize = if count < self.free_pages.len() {
            count
        } else {
            self.free_pages.len()
        };
        let kept = self.free_pages.split_off(reused);
        let mut page_ids: Vec<PageId> = Vec::new();
        let mut index: usize = 0;
        while index < reused
            invariant
                index <= reused == self.free_pages@.len(),
                reused <= start.free.len(),
                self.free_pages@ == start.free.take(reused as int),
                id_views(page_ids@) == start.free.take(index as int),
            decreases reused - index,
        {
            let ghost done = id_views(page_ids@);
            page_ids.push(PageId(self.free_pages[index]));
            assert(id_views(page_ids@) =~= done.push(start.free[index as int]));
            index = index + 1;
            assert(id_views(page_ids@) =~= start.free.take(index as int));
        }
        self.free_pages = kept;
        assert(self.free_pages@ =~= start.free.skip(reused as int));
        let fresh: u64 = (count - reused) as u64;
        if fresh > u64::MAX - self.next_page_id {
            proof {
                assert(start.free.skip(reused as int) =~= Seq::empty());
            }
            return Err(configuration("page ID space exhausted"));
        }
        let end: u64 = self.next_page_id + fresh;
        let mut next: u64 = self.next_page_id;
        while next < end
            invariant
                start.next_page_id <= next <= end,
                end == start.next_page_id + fresh,
                fresh == count - reused,
                reused == reused_count(start, count as nat),
                id_views(page_ids@) == reserved_ids(start, count as nat).take(
                    reused + (next - start.next_page_id),
                ),
            decreases end - next,
        {
            let ghost done = id_views(page_ids@);
            page_ids.push(PageId(next));
            assert(id_views(page_ids@) =~= done.push(next));
            next = next + 1;
            proof {
                assert(id_views(page_ids@) =~= reserved_ids(start, count as nat).take(
                    reused + (next - start.next_page_id),
                ));
            }
        }
        proof {
            assert(id_views(page_ids@) =~= reserved_ids(start, count as nat));
            law_reserved_are_fresh(start, count as nat);
        }
        self.next_page_id = end;
        Ok(page_ids)
    }

    /// Takes page numbers back for reuse by later reservations.
    ///
    /// The caller vouches that nothing refers to these pages any more. What they hold stays on
    /// disk until a new write lands on them. Numbers never handed out are passed over.
    pub fn release_pages(&mut self, pages: &[PageId])
        requires
            old(self)@.wf(),
        ensures
            final(self)@.wf(),
            final(self)@ == (StoreView { free: final(self)@.free, ..old(self)@ }),
            forall|id: u64| #[trigger]
                final(self)@.free.contains(id) <==> old(self)@.free.contains(id) || (id_views(
                    pages@,
                ).contains(id) && id < old(self)@.next_page_id),
    {
        let mut index: usize = 0;
        assert(id_views(pages@).take(0) =~= Seq::empty());
        while index < pages.len()
            invariant
                index <= pages@.len(),
                old(self)@.wf(),
                self@.wf(),
                self@ == (StoreView { free: self@.free, ..old(self)@ }),
                forall|id: u64| #[trigger]
                    self@.free.contains(id) <==> old(self)@.free.contains(id) || (id_views(
                        pages@,
                    ).take(index as int).contains(id) && id < old(self)@.next_page_id),
            decreases pages@.len() - index,
        {
            let id: u64 = pages[index].0;
            let ghost before = self@.free;
            if id < self.next_page_id {
                insert_rising(&mut self.free_pages, id);
            }
            proof {
                let named = id_views(pages@);
                assert(self@.free == self.free_pages@);
                assert(self@.held == old(self)@.held);
                assert forall|i: int| 0 <= i < self@.free.len() implies self@.free[i]
                    < self@.next_page_id by {
                    assert(self@.free.contains(self@.free[i]));
                    if before.contains(self@.free[i]) {
                        let j = choose|j: int| 0 <= j < before.len() && before[j] == self@.free[i];
                    }
                }
                assert forall|other: u64| #[trigger] self@.free.contains(other) <==> old(
                    self,
                )@.free.contains(other) || (named.take(index + 1).contains(other) && other < old(
                    self,
                )@.next_page_id) by {
                    assert(named.take(index + 1) =~= named.take(index as int).push(id));
                    lemma_push_contains(named.take(index as int), id, other);
                    assert(before.contains(other) <==> old(self)@.free.contains(other) || (
                    named.take(index as int).contains(other) && other < old(self)@.next_page_id));
                }
            }
            index = index + 1;
        }
        assert(id_views(pages@).take(index as int) =~= id_views(pages@));
    }

    /// How many released page numbers wait for reuse.
    pub fn free_page_count(&self) -> (count: usize)
        ensures
            count == self@.free.len(),
    {
        self.free_pages.len()
    }

    /// Makes the data file durable and starts the log anew.
    pub fn checkpoint(&mut self) -> (lsn: Result<Lsn, StorageError>)
        requires
            old(self)@.wf(),
        ensures
            final(self)@.wf(),
            match lsn {
                Ok(lsn) => {
                    &&& !old(self)@.poisoned
                    &&& wal::wal_has_room(old(self)@.wal, 0)
                    &&& lsn.0 == old(self)@.wal.next_lsn
                    &&& final(self)@ == store_checkpointed(old(self)@)
                },
                Err(error) => if old(self)@.poisoned {
                    error@ == StorageErrorView::Poisoned && final(self)@ == old(self)@
                } else {
                    &&& !wal::wal_has_room(old(self)@.wal, 0)
                    &&& error@ == wal::wal_full(old(self)@.wal)
                    &&& final(self)@ == checkpoint_failed(old(self)@)
                },
            },
    {
        if self.poisoned {
            return Err(StorageError::Poisoned);
        }
        let ghost start = self@;
        if self.held.len() > 0 {
            push_op(&mut self.ops, FileOp::WalSync);
            assert(self@.held == start.held);
            self.write_held();
        }
        proof {
            assert(self@.ops =~= start.ops + held_ops(start.held));
            assert(self@.held =~= Seq::empty());
        }
        push_op(&mut self.ops, FileOp::DataSync);
        match self.wal.append_checkpoint() {
            Err(error) => {
                self.poisoned = true;
                assert(self@ =~= checkpoint_failed(start));
                Err(error)
            },
            Ok(lsn) => {
                let appended = self.wal.take_appended();
                proof {
                    let record = WalRecordView {
                        lsn: start.wal.next_lsn,
                        kind: WalKindView::Checkpoint,
                    };
                    assert(start.wal.appended + wal::wal_bytes(record) =~= wal::wal_bytes(record));
                }
                push_op(&mut self.ops, FileOp::WalAppend(appended));
                push_op(&mut self.ops, FileOp::WalSync);
                self.wal.reset_after_checkpoint();
                push_op(&mut self.ops, FileOp::WalTruncate { length: 0 });
                assert(self@ =~= store_checkpointed(start));
                Ok(lsn)
            },
        }
    }

    /// The length of the log, which only a checkpoint shrinks.
    pub fn wal_size_bytes(&self) -> (size: u64)
        ensures
            size == self@.wal.size,
    {
        self.wal.size_bytes()
    }

    /// Takes out what has to be done to the files, in order.
    pub fn take_ops(&mut self) -> (ops: Vec<FileOp>)
        ensures
            op_views(ops@) == old(self)@.ops,
            final(self)@ == (StoreView { ops: Seq::empty(), ..old(self)@ }),
    {
        let mut ops: Vec<FileOp> = Vec::new();
        std::mem::swap(&mut ops, &mut self.ops);
        assert(op_views(self.ops@) =~= Seq::empty());
        ops
    }

    /// Records that the files could not be brought in step with the store.
    pub fn poison(&mut self)
        ensures
            final(self)@ == (StoreView { poisoned: true, ..old(self)@ }),
    {
        self.poisoned = true;
    }

    /// Whether a durability operation failed.
    pub fn is_poisoned(&self) -> (poisoned: bool)
        ensures
            poisoned == self@.poisoned,
    {
        self.poisoned
    }
}

proof fn lemma_push_contains(ids: Seq<u64>, last: u64, other: u64)
    ensures
        ids.push(last).contains(other) <==> ids.contains(other) || other == last,
{
    if ids.contains(other) {
        let i = choose|i: int| 0 <= i < ids.len() && ids[i] == other;
        assert(ids.push(last)[i] == other);
    }
    assert(ids.push(last)[ids.len() as int] == last);
}

} // verus!
