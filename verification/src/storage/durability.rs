//! The order in which a store writes and syncs its files.
use crate::storage::page::PageView;
use crate::storage::store;
use crate::storage::store::{FileOpView, PageWriteView, StoreView};
use crate::storage::wal;
use vstd::prelude::*;

verus! {

/// Whether an operation comes in front of a place.
pub open spec fn comes_before(ops: Seq<FileOpView>, op: FileOpView, end: int) -> bool {
    exists|i: int| 0 <= i < end && #[trigger] ops[i] == op
}

/// Whether an operation writes a page to the data file.
pub open spec fn writes_page(op: FileOpView, id: u64) -> bool {
    op matches FileOpView::DataWrite { page_id, image } && page_id == id
}

/// Whether a page is written to the data file in front of a place.
pub open spec fn page_written(ops: Seq<FileOpView>, id: u64, end: int) -> bool {
    exists|i: int| 0 <= i < end && #[trigger] writes_page(ops[i], id)
}

/// The log has every record of a batch, and is durable, before a page of the batch, or one that waited,
/// reaches the data file. Each of them does, and then the data file is durable.
pub proof fn law_log_is_durable_first(
    held: Seq<PageView>,
    first: u64,
    writes: Seq<PageWriteView>,
    at: int,
    i: int,
)
    ensures
        ({
            let ops = store::batch_ops(held, first, writes);
            let log = FileOpView::WalAppend(wal::wal_log(store::batch_records(first, writes)));
            &&& ops.len() > 0 && ops[0] == log
            &&& 0 <= at < ops.len() && ops[at] is DataWrite ==> comes_before(
                ops,
                FileOpView::WalSync,
                at,
            ) && at > 1
            &&& ops.last() is DataSync
            &&& 0 <= i < writes.len() ==> page_written(ops, writes[i].page_id, ops.len() - 1)
            &&& 0 <= i < held.len() ==> page_written(ops, held[i].id, ops.len() - 1)
        }),
{
    let ops = store::batch_ops(held, first, writes);
    let pages = held + store::batch_pages(first, writes);
    assert(ops[1] == FileOpView::WalSync);
    if 0 <= i < writes.len() {
        let j = 2 + held.len() + i;
        assert(pages[held.len() + i].id == writes[i].page_id);
        assert(ops[j] == store::data_write_op(pages[held.len() + i]));
        assert(writes_page(ops[j], writes[i].page_id));
    }
    if 0 <= i < held.len() {
        assert(pages[i] == held[i]);
        assert(ops[2 + i] == store::data_write_op(pages[i]));
        assert(writes_page(ops[2 + i], held[i].id));
    }
}

/// A batch that waits for the next sync only appends its records to the log.
pub proof fn law_waiting_batches_are_only_logged(
    store: StoreView,
    writes: Seq<PageWriteView>,
)
    ensures
        store::store_relaxed(store, writes).ops == store.ops.push(
            FileOpView::WalAppend(
                wal::wal_log(store::batch_records(store.wal.next_lsn, writes)),
            ),
        ),
        store::store_relaxed(store, writes).held.len() == store.held.len() + writes.len(),
{
}

/// A checkpoint empties the log last: by then every page that waited is in the data file, behind a sync of
/// the log, and the data file is durable.
pub proof fn law_checkpoint_empties_the_log_last(store: StoreView, at: int, i: int)
    ensures
        ({
            let ops = store::store_checkpointed(store).ops.skip(store.ops.len() as int);
            let end = ops.len() - 1;
            &&& ops.last() == (FileOpView::WalTruncate { length: 0 })
            &&& comes_before(ops, FileOpView::DataSync, end)
            &&& 0 <= at < ops.len() && ops[at] is DataWrite ==> {
                &&& comes_before(ops, FileOpView::WalSync, at)
                &&& !comes_before(ops, FileOpView::DataSync, at)
            }
            &&& 0 <= at < end ==> !(ops[at] is WalTruncate)
            &&& 0 <= i < store.held.len() ==> page_written(ops, store.held[i].id, end)
        }),
{
    let all = store::store_checkpointed(store).ops;
    let ops = all.skip(store.ops.len() as int);
    let head = store::held_ops(store.held);
    let end = ops.len() - 1;
    assert forall|j: int| 0 <= j < head.len() implies #[trigger] ops[j] == head[j] by {}
    assert(ops[head.len() as int] == FileOpView::DataSync);
    assert(ops[end] == (FileOpView::WalTruncate { length: 0 }));
    if store.held.len() > 0 {
        assert(ops[0] == head[0]);
        assert(head[0] == FileOpView::WalSync);
        assert forall|j: int| 1 <= j < head.len() implies (#[trigger] head[j]) is DataWrite by {
            assert(head[j] == store::data_write_op(store.held[j - 1]));
        }
    }
    if 0 <= at < ops.len() && ops[at] is DataWrite {
        assert(0 < at < head.len());
        if comes_before(ops, FileOpView::DataSync, at) {
            let j = choose|j: int| 0 <= j < at && #[trigger] ops[j] == FileOpView::DataSync;
            assert(ops[j] == head[j]);
        }
    }
    if 0 <= at < end && at < head.len() {
        assert(ops[at] == head[at]);
    }
    if 0 <= i < store.held.len() {
        assert(head[i + 1] == store::data_write_op(store.held[i]));
        assert(writes_page(ops[i + 1], store.held[i].id));
    }
}

} // verus!
