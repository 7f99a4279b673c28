//! Commit requests gathered into groups that share one log sync.
use crate::bytes::copy_bytes;
use crate::storage::byte_lru;
use crate::storage::error;
use crate::storage::data_file;
use crate::storage::error::{configuration, StorageError, StorageErrorView};
use crate::storage::page;
use crate::storage::page::{Lsn, Page, PageId, PageView, MAX_PAGE_PAYLOAD};
use crate::storage::store;
use crate::storage::store::{DurableStore, FileOp, PageWrite, PageWriteView, StoreView};
use crate::storage::wal;
use vstd::prelude::*;
use vstd::string::*;

verus! {

/// How commit requests are gathered, and when the log starts anew.
#[derive(Debug, Clone, Copy, PartialEq, Eq, Structural)]
pub struct GroupCommitOptions {
    /// How many requests may wait.
    pub queue_depth: usize,
    /// How many pages end a group.
    pub max_batch_pages: usize,
    /// How long the first request of a group waits for others, in microseconds.
    pub max_delay_micros: u64,
    /// The log size from which on a commit is followed by a checkpoint; zero for never.
    pub checkpoint_after_wal_bytes: u64,
}

impl Default for GroupCommitOptions {
    fn default() -> (options: GroupCommitOptions)
        ensures
            options == (GroupCommitOptions {
                queue_depth: 1024,
                max_batch_pages: 256,
                max_delay_micros: 200,
                checkpoint_after_wal_bytes: 0x400_0000,
            }),
    {
        GroupCommitOptions {
            queue_depth: 1024,
            max_batch_pages: 256,
            max_delay_micros: 200,
            checkpoint_after_wal_bytes: 0x400_0000,
        }
    }
}

/// Whether options can be used at all.
pub open spec fn options_usable(options: GroupCommitOptions) -> bool {
    options.queue_depth > 0 && options.max_batch_pages > 0 && options.max_delay_micros > 0
}

/// Why options that cannot be used are refused.
pub open spec fn options_refused(options: GroupCommitOptions) -> StorageErrorView {
    StorageErrorView::Configuration(
        if options.queue_depth == 0 {
            "group commit queue depth must be greater than zero"@
        } else if options.max_batch_pages == 0 {
            "group commit batch size must be greater than zero"@
        } else {
            "group commit delay must be greater than zero"@
        },
    )
}

impl GroupCommitOptions {
    /// Checks that no limit is zero.
    pub fn validate(self) -> (checked: Result<GroupCommitOptions, StorageError>)
        ensures
            match checked {
                Ok(options) => options_usable(self) && options == self,
                Err(error) => !options_usable(self) && error@ == options_refused(self),
            },
    {
        if self.queue_depth == 0 {
            return Err(configuration("group commit queue depth must be greater than zero"));
        }
        if self.max_batch_pages == 0 {
            return Err(configuration("group commit batch size must be greater than zero"));
        }
        if self.max_delay_micros == 0 {
            return Err(configuration("group commit delay must be greater than zero"));
        }
        Ok(self)
    }
}

#[derive(Debug, Clone, Copy, PartialEq, Eq, Structural)]
pub struct GroupCommitStats {
    pub groups: u64,
    pub requests: u64,
    pub pages: u64,
    pub automatic_checkpoints: u64,
}

/// A store behind its commit coordinator.
pub struct GroupCommitHandle {
    store: DurableStore,
    stats: GroupCommitStats,
    options: GroupCommitOptions,
}

#[verifier::ext_equal]
pub struct HandleView {
    pub store: StoreView,
    pub stats: GroupCommitStats,
    pub options: GroupCommitOptions,
}

impl View for GroupCommitHandle {
    type V = HandleView;

    closed spec fn view(&self) -> HandleView {
        HandleView { store: self.store@, stats: self.stats, options: self.options }
    }
}

impl HandleView {
    pub open spec fn wf(self) -> bool {
        self.store.wf()
    }
}

/// The store after the log was looked at: an oversized one starts anew.
pub open spec fn maybe_checkpointed(state: StoreView, threshold: u64) -> StoreView {
    if threshold == 0 || state.wal.size < threshold || state.poisoned {
        state
    } else if wal::wal_has_room(state.wal, 0) {
        store::store_checkpointed(state)
    } else {
        store::checkpoint_failed(state)
    }
}

/// After every durable batch the log is within its limit, unless the store stopped taking writes.
pub proof fn law_log_stays_bounded(state: StoreView, threshold: u64)
    requires
        threshold != 0,
    ensures
        maybe_checkpointed(state, threshold).wal.size < threshold || maybe_checkpointed(
            state,
            threshold,
        ).poisoned,
{
}

/// Whether looking at the log starts it anew.
pub open spec fn checkpoint_due(state: StoreView, threshold: u64) -> bool {
    threshold != 0 && state.wal.size >= threshold && !state.poisoned && wal::wal_has_room(
        state.wal,
        0,
    )
}

/// Requests one behind the other.
pub open spec fn all_writes(requests: Seq<Seq<PageWriteView>>) -> Seq<PageWriteView>
    decreases requests.len(),
{
    if requests.len() == 0 {
        Seq::empty()
    } else {
        all_writes(requests.drop_last()) + requests.last()
    }
}

pub open spec fn request_views(requests: Seq<Vec<PageWrite>>) -> Seq<Seq<PageWriteView>> {
    Seq::new(requests.len(), |i: int| store::write_views(requests[i]@))
}

/// A number modulo two to the sixty-fourth.
pub open spec fn wrapped(value: int) -> u64 {
    (value % 0x1_0000_0000_0000_0000) as u64
}

/// The counts after a group.
pub open spec fn stats_after(stats: GroupCommitStats, requests: nat, pages: nat) -> GroupCommitStats {
    GroupCommitStats {
        groups: wrapped(stats.groups + 1),
        requests: wrapped(stats.requests + requests),
        pages: wrapped(stats.pages + pages),
        ..stats
    }
}

/// The counts after a batch that was one group of one request.
pub open spec fn commit_counted(handle: HandleView, writes: Seq<PageWriteView>) -> GroupCommitStats {
    let written = store::store_written(handle.store, writes);
    let stats = stats_after(handle.stats, 1, writes.len());
    if checkpoint_due(written, handle.options.checkpoint_after_wal_bytes) {
        GroupCommitStats {
            automatic_checkpoints: byte_lru::counted(stats.automatic_checkpoints),
            ..stats
        }
    } else {
        stats
    }
}

/// Whether a store takes a batch.
pub open spec fn batch_taken(state: StoreView, writes: Seq<PageWriteView>) -> bool {
    &&& !state.poisoned
    &&& store::payloads_fit(writes)
    &&& writes.len() > 0 ==> store::batch_logs(state.wal, writes) && store::batch_placed(writes)
}

/// What the requests of a batch that the store does not take are told.
pub open spec fn batch_refused(state: StoreView, writes: Seq<PageWriteView>) -> StorageErrorView {
    StorageErrorView::GroupCommit(error::storage_message(store::write_refused(state, writes)))
}

/// The store after it took a batch.
pub open spec fn batch_result(state: StoreView, writes: Seq<PageWriteView>) -> StoreView {
    if writes.len() == 0 {
        state
    } else {
        store::store_written(state, writes)
    }
}

fn copy_write(write: &PageWrite) -> (copy: PageWrite)
    ensures
        copy@ == write@,
{
    PageWrite { page_id: write.page_id, payload: copy_bytes(write.payload.as_slice()) }
}

fn add_wrapping(count: u64, more: u64) -> (sum: u64)
    ensures
        sum == wrapped(count + more),
{
    if count > u64::MAX - more {
        let over: u64 = count - (u64::MAX - more);
        over - 1
    } else {
        count + more
    }
}

/// Refuses the first write whose payload does not fit in a page.
fn misfit(writes: &Vec<PageWrite>) -> (refused: Option<StorageError>)
    ensures
        match refused {
            Some(error) => !store::payloads_fit(store::write_views(writes@)) && error@
                == store::misfit_refused(store::write_views(writes@)),
            None => store::payloads_fit(store::write_views(writes@)),
        },
{
    let ghost views = store::write_views(writes@);
    let mut index: usize = 0;
    while index < writes.len()
        invariant
            index <= writes@.len(),
            views == store::write_views(writes@),
            forall|i: int| 0 <= i < index ==> page::fits_page((#[trigger] views[i]).payload),
        decreases writes@.len() - index,
    {
        if writes[index].payload.len() > MAX_PAGE_PAYLOAD {
            proof {
                assert(!page::fits_page(views[index as int].payload));
                store::lemma_misfit(views, index as int);
            }
            return Some(
                StorageError::PageTooLarge {
                    actual: writes[index].payload.len(),
                    maximum: MAX_PAGE_PAYLOAD,
                },
            );
        }
        index = index + 1;
    }
    None
}

/// The writes of all requests, one request behind the other.
fn gather_writes(requests: &Vec<Vec<PageWrite>>) -> (writes: Vec<PageWrite>)
    ensures
        store::write_views(writes@) == all_writes(request_views(requests@)),
{
    let ghost views = request_views(requests@);
    let mut writes: Vec<PageWrite> = Vec::new();
    let mut index: usize = 0;
    proof {
        assert(views.take(0) =~= Seq::empty());
        assert(store::write_views(writes@) =~= Seq::empty());
    }
    while index < requests.len()
        invariant
            index <= requests@.len(),
            views == request_views(requests@),
            store::write_views(writes@) == all_writes(views.take(index as int)),
        decreases requests@.len() - index,
    {
        let request = &requests[index];
        let mut inner: usize = 0;
        let ghost done = store::write_views(writes@);
        assert(done + views[index as int].take(0) =~= done);
        while inner < request.len()
            invariant
                inner <= request@.len(),
                index < requests@.len(),
                views == request_views(requests@),
                request@ == requests@[index as int]@,
                store::write_views(writes@) == done + views[index as int].take(inner as int),
            decreases request@.len() - inner,
        {
            let ghost before = store::write_views(writes@);
            let copy = copy_write(&request[inner]);
            writes.push(copy);
            proof {
                assert(store::write_views(writes@) =~= before.push(copy@));
                assert(views[index as int][inner as int] == copy@);
                assert(store::write_views(writes@) =~= done + views[index as int].take(inner + 1));
            }
            inner = inner + 1;
        }
        proof {
            assert(views[index as int].take(inner as int) =~= views[index as int]);
            assert(views.take(index + 1).drop_last() =~= views.take(index as int));
            assert(views.take(index + 1).last() == views[index as int]);
        }
        index = index + 1;
    }
    assert(views.take(index as int) =~= views);
    writes
}

/// Hands each request the LSNs of its own writes.
fn split_lsns(
    requests: &Vec<Vec<PageWrite>>,
    lsns: &Vec<Lsn>,
    Ghost(first): Ghost<u64>,
) -> (answers: Vec<Result<Vec<Lsn>, StorageError>>)
    requires
        lsns@.len() == all_writes(request_views(requests@)).len(),
        forall|i: int| 0 <= i < lsns@.len() ==> (#[trigger] lsns@[i]).0 == first + i,
    ensures
        answers@.len() == requests@.len(),
        forall|k: int|
            0 <= k < requests@.len() ==> ((#[trigger] answers@[k]) matches Ok(own) && own@.len()
                == requests@[k]@.len() && forall|j: int|
                0 <= j < own@.len() ==> (#[trigger] own@[j]).0 == first + all_writes(
                    request_views(requests@).take(k),
                ).len() + j),
{
    let ghost views = request_views(requests@);
    let mut answers: Vec<Result<Vec<Lsn>, StorageError>> = Vec::new();
    let mut start_at: usize = 0;
    let mut next: usize = 0;
    assert(views.take(0) =~= Seq::empty());
    while next < requests.len()
        invariant
            next <= requests@.len(),
            answers@.len() == next,
            views == request_views(requests@),
            start_at == all_writes(views.take(next as int)).len(),
            lsns@.len() == all_writes(views).len(),
            forall|i: int| 0 <= i < lsns@.len() ==> (#[trigger] lsns@[i]).0 == first + i,
            forall|k: int|
                0 <= k < next ==> ((#[trigger] answers@[k]) matches Ok(own) && own@.len()
                    == requests@[k]@.len() && forall|j: int|
                    0 <= j < own@.len() ==> (#[trigger] own@[j]).0 == first + all_writes(
                        views.take(k),
                    ).len() + j),
        decreases requests@.len() - next,
    {
        proof {
            lemma_all_writes_take(views, next + 1);
            assert(views.take(next + 1).drop_last() =~= views.take(next as int));
            assert(views.take(next + 1).last() == views[next as int]);
        }
        let lsn_count: usize = lsns.len();
        let count: usize = requests[next].len();
        let mut own: Vec<Lsn> = Vec::new();
        let mut inner: usize = 0;
        while inner < count
            invariant
                inner <= count,
                own@.len() == inner,
                start_at + count <= lsns@.len() == lsn_count,
                forall|i: int| 0 <= i < lsns@.len() ==> (#[trigger] lsns@[i]).0 == first + i,
                forall|j: int| 0 <= j < inner ==> (#[trigger] own@[j]).0 == first + start_at + j,
            decreases count - inner,
        {
            own.push(lsns[start_at + inner]);
            inner = inner + 1;
        }
        answers.push(Ok(own));
        start_at = start_at + count;
        next = next + 1;
    }
    answers
}

/// Tells every request of a group why the group failed.
fn refuse_all(count: usize, error: &StorageError) -> (answers: Vec<Result<Vec<Lsn>, StorageError>>)
    ensures
        answers@.len() == count,
        forall|k: int|
            0 <= k < count ==> ((#[trigger] answers@[k]) matches Err(answer) && answer@
                == StorageErrorView::GroupCommit(error::storage_message(error@))),
{
    let mut answers: Vec<Result<Vec<Lsn>, StorageError>> = Vec::new();
    let mut next: usize = 0;
    while next < count
        invariant
            next <= count,
            answers@.len() == next,
            forall|k: int|
                0 <= k < next ==> ((#[trigger] answers@[k]) matches Err(answer) && answer@
                    == StorageErrorView::GroupCommit(error::storage_message(error@))),
        decreases count - next,
    {
        answers.push(Err(StorageError::GroupCommit(error.message())));
        next = next + 1;
    }
    answers
}

impl GroupCommitHandle {
    /// Puts a store behind a coordinator.
    pub fn start(store: DurableStore, options: GroupCommitOptions) -> (handle: Result<
        GroupCommitHandle,
        StorageError,
    >)
        requires
            store@.wf(),
        ensures
            match handle {
                Ok(handle) => options_usable(options) && handle@.wf() && handle@ == (HandleView {
                    store: store@,
                    stats: GroupCommitStats {
                        groups: 0,
                        requests: 0,
                        pages: 0,
                        automatic_checkpoints: 0,
                    },
                    options,
                }),
                Err(error) => !options_usable(options) && error@ == options_refused(options),
            },
    {
        match options.validate() {
            Err(error) => Err(error),
            Ok(options) => Ok(
                GroupCommitHandle {
                    store,
                    stats: GroupCommitStats {
                        groups: 0,
                        requests: 0,
                        pages: 0,
                        automatic_checkpoints: 0,
                    },
                    options,
                },
            ),
        }
    }

    /// Starts the log anew once it has outgrown its budget.
    ///
    /// A failed checkpoint poisons the store, so that the next commit fails.
    fn maybe_checkpoint(&mut self)
        requires
            old(self)@.wf(),
        ensures
            final(self)@.wf(),
            final(self)@ == (HandleView {
                store: maybe_checkpointed(
                    old(self)@.store,
                    old(self)@.options.checkpoint_after_wal_bytes,
                ),
                stats: GroupCommitStats {
                    automatic_checkpoints: if checkpoint_due(
                        old(self)@.store,
                        old(self)@.options.checkpoint_after_wal_bytes,
                    ) {
                        byte_lru::counted(old(self)@.stats.automatic_checkpoints)
                    } else {
                        old(self)@.stats.automatic_checkpoints
                    },
                    ..old(self)@.stats
                },
                ..old(self)@
            }),
    {
        if self.options.checkpoint_after_wal_bytes == 0 {
            return;
        }
        if self.store.wal_size_bytes() >= self.options.checkpoint_after_wal_bytes {
            match self.store.checkpoint() {
                Ok(_) => {
                    self.stats.automatic_checkpoints =
                    self.stats.automatic_checkpoints.wrapping_add(1);
                },
                Err(_) => {},
            }
        }
    }

    /// Writes a group of requests as one batch and answers each of them.
    ///
    /// Either every request of the group is durable or none is acknowledged.
    #[verifier::rlimit(50)]
    pub fn execute_group(&mut self, requests: Vec<Vec<PageWrite>>) -> (answers: Vec<
        Result<Vec<Lsn>, StorageError>,
    >)
        requires
            old(self)@.wf(),
        ensures
            final(self)@.wf(),
            answers@.len() == requests@.len(),
            final(self)@.options == old(self)@.options,
            final(self)@.stats == stats_after(
                old(self)@.stats,
                requests@.len(),
                all_writes(request_views(requests@)).len(),
            ),
            final(self)@.store.free == old(self)@.store.free,
            final(self)@.store.next_page_id >= old(self)@.store.next_page_id,
            forall|id: u64|
                (forall|i: int|
                    0 <= i < all_writes(request_views(requests@)).len() ==> (
                    #[trigger] all_writes(request_views(requests@))[i]).page_id != id)
                    ==> #[trigger] final(self)@.store.read(id) == old(self)@.store.read(id),
            if batch_taken(old(self)@.store, all_writes(request_views(requests@))) {
                &&& final(self)@.store == batch_result(
                    old(self)@.store,
                    all_writes(request_views(requests@)),
                )
                &&& forall|k: int|
                    0 <= k < requests@.len() ==> ((#[trigger] answers@[k]) matches Ok(lsns)
                        && lsns@.len() == requests@[k]@.len() && forall|j: int|
                        0 <= j < lsns@.len() ==> (#[trigger] lsns@[j]).0
                            == old(self)@.store.wal.next_lsn + all_writes(
                            request_views(requests@).take(k),
                        ).len() + j)
            } else {
                &&& !old(self)@.store.poisoned && store::payloads_fit(
                    all_writes(request_views(requests@)),
                ) ==> final(self)@.store.poisoned
                &&& forall|k: int|
                    0 <= k < requests@.len() ==> ((#[trigger] answers@[k]) matches Err(error)
                        && error@ == batch_refused(
                        old(self)@.store,
                        all_writes(request_views(requests@)),
                    ))
                &&& old(self)@.store.poisoned ==> final(self)@.store == old(self)@.store
            },
    {
        let ghost start = self@;
        let ghost views = request_views(requests@);
        let writes = gather_writes(&requests);
        let ghost written = writes@;
        let ghost all = all_writes(views);
        let page_count: u64 = writes.len() as u64;
        let request_count: u64 = requests.len() as u64;
        let result = self.store.write_pages(writes);
        self.stats.groups = add_wrapping(self.stats.groups, 1);
        self.stats.requests = add_wrapping(self.stats.requests, request_count);
        self.stats.pages = add_wrapping(self.stats.pages, page_count);
        proof {
            assert(store::write_views(written) == all);
            assert forall|id: u64|
                (forall|i: int|
                    0 <= i < all.len() ==> (#[trigger] all[i]).page_id
                        != id) implies #[trigger] self@.store.read(id) == start.store.read(id) by {
                assert forall|i: int| 0 <= i < written.len() implies (
                #[trigger] written[i]).page_id.0 != id by {
                    assert(all[i] == written[i]@);
                }
            }
        }
        match result {
            Ok(lsns) => split_lsns(&requests, &lsns, Ghost(start.store.wal.next_lsn)),
            Err(error) => refuse_all(requests.len(), &error),
        }
    }

    /// Durably writes pages and waits for them.
    pub fn commit(&mut self, writes: Vec<PageWrite>) -> (lsns: Result<Vec<Lsn>, StorageError>)
        requires
            old(self)@.wf(),
        ensures
            final(self)@.wf(),
            final(self)@.options == old(self)@.options,
            final(self)@.store.free == old(self)@.store.free,
            final(self)@.store.next_page_id >= old(self)@.store.next_page_id,
            forall|id: u64|
                (forall|i: int| 0 <= i < writes@.len() ==> (#[trigger] writes@[i]).page_id.0 != id)
                    ==> #[trigger] final(self)@.store.read(id) == old(self)@.store.read(id),
            match lsns {
                Ok(lsns) => {
                    &&& lsns@.len() == writes@.len()
                    &&& if writes@.len() == 0 {
                        final(self)@ == old(self)@
                    } else {
                        &&& batch_taken(old(self)@.store, store::write_views(writes@))
                        &&& forall|i: int|
                            0 <= i < lsns@.len() ==> (#[trigger] lsns@[i]).0
                                == old(self)@.store.wal.next_lsn + i
                        &&& final(self)@.store == maybe_checkpointed(
                            store::store_written(
                                old(self)@.store,
                                store::write_views(writes@),
                            ),
                            old(self)@.options.checkpoint_after_wal_bytes,
                        )
                        &&& final(self)@.stats == commit_counted(
                            old(self)@,
                            store::write_views(writes@),
                        )
                    }
                },
                Err(error) => {
                    &&& writes@.len() > 0
                    &&& if store::payloads_fit(store::write_views(writes@)) {
                        &&& !batch_taken(old(self)@.store, store::write_views(writes@))
                        &&& error@ == batch_refused(
                            old(self)@.store,
                            store::write_views(writes@),
                        )
                        &&& final(self)@.store.poisoned
                    } else {
                        &&& error@ == store::misfit_refused(store::write_views(writes@))
                        &&& final(self)@ == old(self)@
                    }
                },
            },
    {
        if writes.len() == 0 {
            return Ok(Vec::new());
        }
        let ghost views = store::write_views(writes@);
        let ghost start = self@;
        match misfit(&writes) {
            Some(error) => {
                return Err(error);
            },
            None => {},
        }
        let ghost named = writes@;
        let mut requests: Vec<Vec<PageWrite>> = Vec::new();
        requests.push(writes);
        let ghost request = request_views(requests@);
        proof {
            reveal_with_fuel(all_writes, 2);
            assert(request.drop_last() =~= Seq::empty());
            assert(request.last() == views);
            assert(all_writes(request) =~= views);
            assert(request.take(0) =~= Seq::empty());
        }
        let mut answers = self.execute_group(requests);
        let ghost reached = self@;
        self.maybe_checkpoint();
        proof {
            assert forall|id: u64|
                (forall|i: int|
                    0 <= i < named.len() ==> (#[trigger] named[i]).page_id.0
                        != id) implies #[trigger] self@.store.read(id) == start.store.read(id) by {
                assert forall|i: int| 0 <= i < views.len() implies (#[trigger] views[i]).page_id
                    != id by {
                    assert(views[i] == named[i]@);
                }
                assert(reached.store.read(id) == start.store.read(id));
            }
            assert(answers@[0] == answers@.last());
        }
        match answers.pop() {
            Some(answer) => answer,
            None => {
                assert(false);
                Err(StorageError::CommitCoordinatorStopped)
            },
        }
    }

    /// Writes pages that become durable with the sync of the next commit.
    ///
    /// They read as written at once. No sync is asked for, and the log is not started anew, however
    /// long it is.
    pub fn commit_relaxed(&mut self, writes: Vec<PageWrite>) -> (lsns: Result<
        Vec<Lsn>,
        StorageError,
    >)
        requires
            old(self)@.wf(),
        ensures
            final(self)@.wf(),
            final(self)@.options == old(self)@.options,
            final(self)@.store.free == old(self)@.store.free,
            final(self)@.store.next_page_id >= old(self)@.store.next_page_id,
            forall|id: u64|
                (forall|i: int| 0 <= i < writes@.len() ==> (#[trigger] writes@[i]).page_id.0 != id)
                    ==> #[trigger] final(self)@.store.read(id) == old(self)@.store.read(id),
            match lsns {
                Ok(lsns) => {
                    &&& lsns@.len() == writes@.len()
                    &&& if writes@.len() == 0 {
                        final(self)@ == old(self)@
                    } else {
                        &&& batch_taken(old(self)@.store, store::write_views(writes@))
                        &&& forall|i: int|
                            0 <= i < lsns@.len() ==> (#[trigger] lsns@[i]).0
                                == old(self)@.store.wal.next_lsn + i
                        &&& final(self)@.store == store::store_relaxed(
                            old(self)@.store,
                            store::write_views(writes@),
                        )
                        &&& final(self)@.stats == stats_after(old(self)@.stats, 1, writes@.len())
                    }
                },
                Err(error) => {
                    &&& writes@.len() > 0
                    &&& if store::payloads_fit(store::write_views(writes@)) {
                        &&& !batch_taken(old(self)@.store, store::write_views(writes@))
                        &&& error@ == batch_refused(
                            old(self)@.store,
                            store::write_views(writes@),
                        )
                        &&& final(self)@.store.poisoned
                    } else {
                        &&& error@ == store::misfit_refused(store::write_views(writes@))
                        &&& final(self)@ == old(self)@
                    }
                },
            },
    {
        if writes.len() == 0 {
            return Ok(Vec::new());
        }
        let page_count: u64 = writes.len() as u64;
        match misfit(&writes) {
            Some(error) => {
                return Err(error);
            },
            None => {},
        }
        let result = self.store.write_pages_relaxed(writes);
        self.stats.groups = add_wrapping(self.stats.groups, 1);
        self.stats.requests = add_wrapping(self.stats.requests, 1);
        self.stats.pages = add_wrapping(self.stats.pages, page_count);
        match result {
            Ok(lsns) => Ok(lsns),
            Err(error) => Err(StorageError::GroupCommit(error.message())),
        }
    }

    pub fn read_page(&self, page_id: PageId) -> (found: Result<Option<Page>, StorageError>)
        requires
            self@.wf(),
        ensures
            match found {
                Ok(None) => self@.store.read(page_id.0) == Ok::<Option<PageView>, StorageErrorView>(
                    None,
                ),
                Ok(Some(found)) => self@.store.read(page_id.0) == Ok::<
                    Option<PageView>,
                    StorageErrorView,
                >(Some(found@)) && page::fits_page(found@.payload),
                Err(error) => self@.store.read(page_id.0) == Err::<
                    Option<PageView>,
                    StorageErrorView,
                >(error@),
            },
    {
        self.store.read_page(page_id)
    }

    /// Hands out page numbers: released ones first, then fresh ones.
    pub fn reserve_page_ids(&mut self, count: usize) -> (ids: Result<Vec<PageId>, StorageError>)
        requires
            old(self)@.wf(),
        ensures
            final(self)@.wf(),
            final(self)@ == (HandleView { store: final(self)@.store, ..old(self)@ }),
            match ids {
                Ok(ids) => {
                    &&& !old(self)@.store.poisoned
                    &&& old(self)@.store.next_page_id + (count - store::reused_count(
                        old(self)@.store,
                        count as nat,
                    )) <= u64::MAX
                    &&& store::id_views(ids@) == store::reserved_ids(
                        old(self)@.store,
                        count as nat,
                    )
                    &&& final(self)@.store == store::store_reserved(
                        old(self)@.store,
                        count as nat,
                    )
                },
                Err(error) => if old(self)@.store.poisoned {
                    error@ == StorageErrorView::Poisoned && final(self)@ == old(self)@
                } else {
                    &&& old(self)@.store.next_page_id + (count - store::reused_count(
                        old(self)@.store,
                        count as nat,
                    )) > u64::MAX
                    &&& error@ == StorageErrorView::Configuration("page ID space exhausted"@)
                    &&& final(self)@.store == (StoreView {
                        free: Seq::empty(),
                        ..old(self)@.store
                    })
                },
            },
    {
        self.store.reserve_page_ids(count)
    }

    /// Takes page numbers that nothing refers to back for reuse.
    pub fn release_pages(&mut self, pages: &[PageId])
        requires
            old(self)@.wf(),
        ensures
            final(self)@.wf(),
            final(self)@ == (HandleView {
                store: StoreView { free: final(self)@.store.free, ..old(self)@.store },
                ..old(self)@
            }),
            forall|id: u64| #[trigger]
                final(self)@.store.free.contains(id) <==> old(self)@.store.free.contains(id) || (
                store::id_views(pages@).contains(id) && id < old(self)@.store.next_page_id),
    {
        self.store.release_pages(pages);
    }

    pub fn free_page_count(&self) -> (count: usize)
        ensures
            count == self@.store.free.len(),
    {
        self.store.free_page_count()
    }

    /// Makes everything durable and starts the log anew.
    pub fn checkpoint(&mut self) -> (lsn: Result<Lsn, StorageError>)
        requires
            old(self)@.wf(),
        ensures
            final(self)@.wf(),
            final(self)@ == (HandleView { store: final(self)@.store, ..old(self)@ }),
            forall|id: u64| #[trigger] final(self)@.store.read(id) == old(self)@.store.read(id),
            match lsn {
                Ok(lsn) => {
                    &&& !old(self)@.store.poisoned
                    &&& wal::wal_has_room(old(self)@.store.wal, 0)
                    &&& lsn.0 == old(self)@.store.wal.next_lsn
                    &&& final(self)@.store == store::store_checkpointed(old(self)@.store)
                },
                Err(error) => if old(self)@.store.poisoned {
                    error@ == StorageErrorView::Poisoned && final(self)@ == old(self)@
                } else {
                    &&& !wal::wal_has_room(old(self)@.store.wal, 0)
                    &&& error@ == wal::wal_full(old(self)@.store.wal)
                    &&& final(self)@.store == store::checkpoint_failed(old(self)@.store)
                },
            },
    {
        self.store.checkpoint()
    }

    pub fn stats(&self) -> (stats: GroupCommitStats)
        ensures
            stats == self@.stats,
    {
        self.stats
    }

    /// Takes out what has to be done to the files, in order.
    pub fn take_ops(&mut self) -> (ops: Vec<FileOp>)
        requires
            old(self)@.wf(),
        ensures
            final(self)@.wf(),
            store::op_views(ops@) == old(self)@.store.ops,
            final(self)@ == (HandleView {
                store: StoreView { ops: Seq::empty(), ..old(self)@.store },
                ..old(self)@
            }),
    {
        self.store.take_ops()
    }

    /// Records that the files could not be brought in step with the store.
    pub fn poison(&mut self)
        requires
            old(self)@.wf(),
        ensures
            final(self)@.wf(),
            final(self)@ == (HandleView {
                store: StoreView { poisoned: true, ..old(self)@.store },
                ..old(self)@
            }),
    {
        self.store.poison();
    }
}

proof fn lemma_all_writes_take(requests: Seq<Seq<PageWriteView>>, count: int)
    requires
        0 <= count <= requests.len(),
    ensures
        all_writes(requests.take(count)).len() <= all_writes(requests).len(),
    decreases requests.len() - count,
{
    if count < requests.len() {
        assert(requests.take(count + 1).drop_last() =~= requests.take(count));
        lemma_all_writes_take(requests, count + 1);
    } else {
        assert(requests.take(count) =~= requests);
    }
}

/// The coordinator's side of group commit: requests gather until the group is full or its time is
/// up, and are then written together.
pub struct GroupCommitter {
    handle: GroupCommitHandle,
    waiting: Vec<Vec<PageWrite>>,
    page_count: usize,
}

#[verifier::ext_equal]
pub struct CommitterView {
    pub handle: HandleView,
    /// The requests of the group being gathered.
    pub waiting: Seq<Seq<PageWriteView>>,
}

impl View for GroupCommitter {
    type V = CommitterView;

    closed spec fn view(&self) -> CommitterView {
        CommitterView { handle: self.handle@, waiting: request_views(self.waiting@) }
    }
}

/// A page count that stops at the largest `usize`.
pub open spec fn capped(pages: nat) -> usize {
    if pages > usize::MAX {
        usize::MAX
    } else {
        pages as usize
    }
}

impl GroupCommitter {
    pub closed spec fn wf(&self) -> bool {
        &&& self.handle@.wf()
        &&& self.page_count == capped(all_writes(self@.waiting).len())
    }

    /// Puts a store behind a coordinator with nothing waiting.
    pub fn start(store: DurableStore, options: GroupCommitOptions) -> (committer: Result<
        GroupCommitter,
        StorageError,
    >)
        requires
            store@.wf(),
        ensures
            match committer {
                Ok(committer) => {
                    &&& options_usable(options)
                    &&& committer.wf()
                    &&& committer@.waiting == Seq::<Seq<PageWriteView>>::empty()
                    &&& committer@.handle.store == store@
                    &&& committer@.handle.options == options
                    &&& committer@.handle.stats == (GroupCommitStats {
                        groups: 0,
                        requests: 0,
                        pages: 0,
                        automatic_checkpoints: 0,
                    })
                },
                Err(error) => !options_usable(options) && error@ == options_refused(options),
            },
    {
        match GroupCommitHandle::start(store, options) {
            Err(error) => Err(error),
            Ok(handle) => {
                let committer = GroupCommitter { handle, waiting: Vec::new(), page_count: 0 };
                assert(committer@.waiting =~= Seq::empty());
                Ok(committer)
            },
        }
    }

    /// Adds a request to the group being gathered.
    pub fn enqueue(&mut self, writes: Vec<PageWrite>)
        requires
            old(self).wf(),
        ensures
            final(self).wf(),
            final(self)@.handle == old(self)@.handle,
            final(self)@.waiting == old(self)@.waiting.push(store::write_views(writes@)),
    {
        let ghost before = self@.waiting;
        self.page_count = self.page_count.saturating_add(writes.len());
        self.waiting.push(writes);
        proof {
            assert(self@.waiting =~= before.push(store::write_views(writes@)));
            assert(self@.waiting.drop_last() =~= before);
        }
    }

    /// Whether the group being gathered waits for another request, with so much time left.
    pub fn waits_for_more(&self, remaining_micros: u64) -> (waits: bool)
        requires
            self.wf(),
        ensures
            waits == (remaining_micros > 0 && capped(all_writes(self@.waiting).len())
                < self@.handle.options.max_batch_pages),
    {
        remaining_micros > 0 && self.page_count < self.handle.options.max_batch_pages
    }

    /// Writes the gathered group and answers its requests in order.
    pub fn flush(&mut self) -> (answers: Vec<Result<Vec<Lsn>, StorageError>>)
        requires
            old(self).wf(),
        ensures
            final(self).wf(),
            final(self)@.waiting == Seq::<Seq<PageWriteView>>::empty(),
            answers@.len() == old(self)@.waiting.len(),
            final(self)@.handle.stats.groups == wrapped(old(self)@.handle.stats.groups + 1),
            final(self)@.handle.stats.requests == wrapped(
                old(self)@.handle.stats.requests + old(self)@.waiting.len(),
            ),
            final(self)@.handle.stats.pages == wrapped(
                old(self)@.handle.stats.pages + all_writes(old(self)@.waiting).len(),
            ),
            if batch_taken(old(self)@.handle.store, all_writes(old(self)@.waiting)) {
                &&& final(self)@.handle.store == maybe_checkpointed(
                    batch_result(old(self)@.handle.store, all_writes(old(self)@.waiting)),
                    old(self)@.handle.options.checkpoint_after_wal_bytes,
                )
                &&& forall|k: int|
                    0 <= k < answers@.len() ==> ((#[trigger] answers@[k]) matches Ok(lsns)
                        && lsns@.len() == old(self)@.waiting[k].len() && forall|j: int|
                        0 <= j < lsns@.len() ==> (#[trigger] lsns@[j]).0
                            == old(self)@.handle.store.wal.next_lsn + all_writes(
                            old(self)@.waiting.take(k),
                        ).len() + j)
            } else {
                forall|k: int|
                    0 <= k < answers@.len() ==> ((#[trigger] answers@[k]) matches Err(error)
                        && error@ == batch_refused(
                        old(self)@.handle.store,
                        all_writes(old(self)@.waiting),
                    ))
            },
    {
        let mut requests: Vec<Vec<PageWrite>> = Vec::new();
        std::mem::swap(&mut requests, &mut self.waiting);
        self.page_count = 0;
        assert(self@.waiting =~= Seq::empty());
        let ghost views = request_views(requests@);
        let ghost requested = requests@;
        let answers = self.handle.execute_group(requests);
        self.handle.maybe_checkpoint();
        proof {
            assert forall|k: int| 0 <= k < requested.len() implies requested[k]@.len() == (
            #[trigger] views[k]).len() by {}
            assert forall|k: int| 0 <= k < answers@.len() implies requested[k]@.len()
                == views[k].len() && #[trigger] answers@[k] == answers@[k] by {}
        }
        answers
    }

    /// The store behind the coordinator, once nothing waits any more.
    pub fn shutdown(self) -> (handle: GroupCommitHandle)
        requires
            self.wf(),
            self@.waiting.len() == 0,
        ensures
            handle@ == self@.handle,
            handle@.wf(),
    {
        self.handle
    }
}

/// A committed batch reads back: the last write to a page is what the page holds.
pub proof fn law_commit_reads(state: StoreView, writes: Seq<PageWriteView>, threshold: u64, at: int)
    requires
        state.wf(),
        batch_taken(state, writes),
        0 <= at < writes.len(),
        forall|i: int|
            at < i < writes.len() ==> (#[trigger] writes[i]).page_id != writes[at].page_id,
    ensures
        maybe_checkpointed(store::store_written(state, writes), threshold).read(writes[at].page_id)
            == Ok::<Option<PageView>, StorageErrorView>(
            Some(
                PageView {
                    id: writes[at].page_id,
                    lsn: (state.wal.next_lsn + at) as u64,
                    payload: writes[at].payload,
                },
            ),
        ),
{
    let pages = store::batch_pages(state.wal.next_lsn, writes);
    assert forall|i: int| 0 <= i < pages.len() implies data_file::has_offset(
        (#[trigger] pages[i]).id,
    ) && page::fits_page(pages[i].payload) by {
        assert(pages[i].id == writes[i].page_id);
    }
    store::law_batch_reads(state.data, pages);
    assert forall|i: int| at < i < pages.len() implies (#[trigger] pages[i]).id != pages[at].id by {
        assert(writes[i].page_id != writes[at].page_id);
    }
    store::lemma_batch_last_some(pages, at);
}

/// A batch that waits for the next sync reads back at once: the last write to a page is what the page
/// holds.
pub proof fn law_relaxed_reads(state: StoreView, writes: Seq<PageWriteView>, at: int)
    requires
        state.wf(),
        batch_taken(state, writes),
        0 <= at < writes.len(),
        forall|i: int|
            at < i < writes.len() ==> (#[trigger] writes[i]).page_id != writes[at].page_id,
    ensures
        store::store_relaxed(state, writes).read(writes[at].page_id) == Ok::<
            Option<PageView>,
            StorageErrorView,
        >(
            Some(
                PageView {
                    id: writes[at].page_id,
                    lsn: (state.wal.next_lsn + at) as u64,
                    payload: writes[at].payload,
                },
            ),
        ),
{
    law_commit_reads(state, writes, 0, at);
}

} // verus!
