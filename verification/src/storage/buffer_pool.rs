//! A bounded write-through page cache in front of a store.
use crate::bytes::copy_bytes;
use crate::storage::error::{configuration, StorageError, StorageErrorView};
use crate::storage::page;
use crate::storage::page::{Lsn, Page, PageId, PageView};
use crate::storage::store;
use crate::storage::store::{DurableStore, FileOp, StoreView};
use vstd::prelude::*;
use vstd::string::*;

verus! {

#[derive(Debug, Clone, Copy, PartialEq, Eq, Structural)]
pub struct BufferPoolStats {
    pub hits: u64,
    pub misses: u64,
    pub evictions: u64,
}

/// A bounded write-through page cache that drops its least recently used page.
pub struct BufferPool {
    store: DurableStore,
    capacity: usize,
    frames: Vec<Page>,
    stats: BufferPoolStats,
}

/// The store, the cached pages from the least recently used on, and the counts.
#[verifier::ext_equal]
pub struct PoolView {
    pub store: StoreView,
    pub capacity: usize,
    pub frames: Seq<PageView>,
    pub stats: BufferPoolStats,
}

impl View for BufferPool {
    type V = PoolView;

    closed spec fn view(&self) -> PoolView {
        PoolView {
            store: self.store@,
            capacity: self.capacity,
            frames: store::page_views(self.frames@),
            stats: self.stats,
        }
    }
}

impl PoolView {
    /// The cache is bounded, holds no page twice, and holds what the store holds.
    pub open spec fn wf(self) -> bool {
        &&& self.store.wf()
        &&& self.capacity > 0
        &&& self.frames.len() <= self.capacity
        &&& forall|i: int, j: int|
            0 <= i < j < self.frames.len() ==> (#[trigger] self.frames[i]).id != (
            #[trigger] self.frames[j]).id
        &&& forall|i: int|
            0 <= i < self.frames.len() ==> self.store.read((#[trigger] self.frames[i]).id) == Ok::<
                Option<PageView>,
                StorageErrorView,
            >(Some(self.frames[i]))
    }
}

/// Whether a page is cached.
pub open spec fn is_cached(frames: Seq<PageView>, id: u64) -> bool {
    exists|i: int| 0 <= i < frames.len() && (#[trigger] frames[i]).id == id
}

/// The cached pages after one became the most recently used.
///
/// The page's own frame is replaced; without one, the least recently used page leaves a full cache.
pub open spec fn frames_used(frames: Seq<PageView>, capacity: usize, used: PageView) -> Seq<
    PageView,
> {
    if is_cached(frames, used.id) {
        let at = choose|i: int| 0 <= i < frames.len() && (#[trigger] frames[i]).id == used.id;
        frames.remove(at).push(used)
    } else if frames.len() < capacity {
        frames.push(used)
    } else {
        frames.drop_first().push(used)
    }
}

/// A count that stops at its largest value.
pub open spec fn count_up(count: u64) -> u64 {
    if count == u64::MAX {
        u64::MAX
    } else {
        (count + 1) as u64
    }
}

/// The evictions after a page was cached.
pub open spec fn evictions_after(pool: PoolView, id: u64) -> u64 {
    if is_cached(pool.frames, id) || pool.frames.len() < pool.capacity {
        pool.stats.evictions
    } else {
        count_up(pool.stats.evictions)
    }
}

impl BufferPool {
    pub fn new(store: DurableStore, capacity: usize) -> (pool: Result<BufferPool, StorageError>)
        requires
            store@.wf(),
        ensures
            match pool {
                Ok(pool) => capacity > 0 && pool@.wf() && pool@ == (PoolView {
                    store: store@,
                    capacity,
                    frames: Seq::empty(),
                    stats: BufferPoolStats { hits: 0, misses: 0, evictions: 0 },
                }),
                Err(error) => capacity == 0 && error@ == StorageErrorView::Configuration(
                    "buffer pool capacity must be greater than zero"@,
                ),
            },
    {
        if capacity == 0 {
            return Err(configuration("buffer pool capacity must be greater than zero"));
        }
        let pool = BufferPool {
            store,
            capacity,
            frames: Vec::new(),
            stats: BufferPoolStats { hits: 0, misses: 0, evictions: 0 },
        };
        assert(pool@.frames =~= Seq::empty());
        Ok(pool)
    }

    fn position(&self, id: u64) -> (at: Option<usize>)
        ensures
            match at {
                Some(at) => at < self@.frames.len() && self@.frames[at as int].id == id
                    && is_cached(self@.frames, id),
                None => !is_cached(self@.frames, id),
            },
    {
        let mut index: usize = 0;
        while index < self.frames.len()
            invariant
                index <= self.frames@.len(),
                forall|i: int| 0 <= i < index ==> (#[trigger] self@.frames[i]).id != id,
            decreases self.frames@.len() - index,
        {
            if self.frames[index].id().0 == id {
                assert(self@.frames[index as int].id == id);
                return Some(index);
            }
            index = index + 1;
        }
        None
    }

    /// Puts a page at the most recently used end, dropping the oldest page of a full cache.
    fn insert_frame(&mut self, used: Page)
        requires
            old(self)@.capacity > 0,
            old(self)@.frames.len() <= old(self)@.capacity,
            forall|i: int, j: int|
                0 <= i < j < old(self)@.frames.len() ==> (#[trigger] old(self)@.frames[i]).id != (
                #[trigger] old(self)@.frames[j]).id,
        ensures
            final(self)@ == (PoolView {
                frames: frames_used(old(self)@.frames, old(self)@.capacity, used@),
                stats: BufferPoolStats {
                    evictions: evictions_after(old(self)@, used@.id),
                    ..old(self)@.stats
                },
                ..old(self)@
            }),
    {
        let ghost before = self@.frames;
        match self.position(used.id().0) {
            Some(at) => {
                proof {
                    let chosen = choose|i: int|
                        0 <= i < before.len() && (#[trigger] before[i]).id == used@.id;
                    if chosen < at {
                        assert(before[chosen].id != before[at as int].id);
                    } else if chosen > at {
                        assert(before[at as int].id != before[chosen].id);
                    }
                }
                let _ = self.frames.remove(at);
                self.frames.push(used);
                assert(self@.frames =~= before.remove(at as int).push(used@));
            },
            None => {
                if self.frames.len() < self.capacity {
                    self.frames.push(used);
                    assert(self@.frames =~= before.push(used@));
                } else {
                    let _ = self.frames.remove(0);
                    self.stats.evictions = self.stats.evictions.saturating_add(1);
                    self.frames.push(used);
                    assert(self@.frames =~= before.drop_first().push(used@));
                }
            },
        }
    }

    /// Reads a page through the cache.
    pub fn get(&mut self, page_id: PageId) -> (found: Result<Option<Page>, StorageError>)
        requires
            old(self)@.wf(),
        ensures
            final(self)@.wf(),
            final(self)@.store == old(self)@.store,
            final(self)@.capacity == old(self)@.capacity,
            match found {
                Ok(Some(found)) => old(self)@.store.read(page_id.0) == Ok::<
                    Option<PageView>,
                    StorageErrorView,
                >(Some(found@)) && final(self)@.frames == frames_used(
                    old(self)@.frames,
                    old(self)@.capacity,
                    found@,
                ),
                Ok(None) => old(self)@.store.read(page_id.0) == Ok::<
                    Option<PageView>,
                    StorageErrorView,
                >(None) && final(self)@.frames == old(self)@.frames,
                Err(error) => old(self)@.store.read(page_id.0) == Err::<
                    Option<PageView>,
                    StorageErrorView,
                >(error@) && final(self)@.frames == old(self)@.frames,
            },
            final(self)@.stats == if is_cached(old(self)@.frames, page_id.0) {
                BufferPoolStats {
                    hits: count_up(old(self)@.stats.hits),
                    ..old(self)@.stats
                }
            } else {
                BufferPoolStats {
                    hits: old(self)@.stats.hits,
                    misses: count_up(old(self)@.stats.misses),
                    evictions: if found matches Ok(Some(_)) {
                        evictions_after(old(self)@, page_id.0)
                    } else {
                        old(self)@.stats.evictions
                    },
                }
            },
    {
        let ghost start = self@;
        match self.position(page_id.0) {
            Some(at) => {
                self.stats.hits = self.stats.hits.saturating_add(1);
                let found = self.frames[at].duplicate();
                proof {
                    assert(found@ == start.frames[at as int]);
                    lemma_used_wf(start, found@);
                }
                self.insert_frame(found.duplicate());
                Ok(Some(found))
            },
            None => {
                self.stats.misses = self.stats.misses.saturating_add(1);
                match self.store.read_page(page_id) {
                    Err(error) => Err(error),
                    Ok(None) => Ok(None),
                    Ok(Some(found)) => {
                        proof {
                            lemma_used_wf(start, found@);
                        }
                        self.insert_frame(found.duplicate());
                        Ok(Some(found))
                    },
                }
            },
        }
    }

    /// Writes a page through to the store and caches it.
    pub fn write(&mut self, page_id: PageId, payload: Vec<u8>) -> (lsn: Result<Lsn, StorageError>)
        requires
            old(self)@.wf(),
        ensures
            final(self)@.wf(),
            match lsn {
                Ok(lsn) => {
                    &&& !old(self)@.store.poisoned
                    &&& page::fits_page(payload@)
                    &&& lsn.0 == old(self)@.store.wal.next_lsn
                    &&& final(self)@.store == store::store_written(
                        old(self)@.store,
                        store::one_write(page_id.0, payload@),
                    )
                    &&& final(self)@.frames == frames_used(
                        old(self)@.frames,
                        old(self)@.capacity,
                        PageView { id: page_id.0, lsn: lsn.0, payload: payload@ },
                    )
                },
                Err(error) => {
                    &&& final(self)@.frames == old(self)@.frames
                    &&& error@ == store::write_refused(
                        old(self)@.store,
                        store::one_write(page_id.0, payload@),
                    )
                    &&& old(self)@.store.poisoned || !page::fits_page(payload@) ==> final(self)@.store
                        == old(self)@.store
                    &&& !old(self)@.store.poisoned && page::fits_page(payload@)
                        ==> final(self)@.store.poisoned && !(store::batch_logs(
                        old(self)@.store.wal,
                        store::one_write(page_id.0, payload@),
                    ) && crate::storage::data_file::has_offset(page_id.0))
                },
            },
    {
        let ghost start = self@;
        let kept = copy_bytes(payload.as_slice());
        match self.store.write_page(page_id, payload) {
            Err(error) => {
                proof {
                    lemma_frames_kept(start, self@);
                }
                Err(error)
            },
            Ok(lsn) => {
                match Page::with_lsn(page_id, lsn, kept) {
                    Err(error) => {
                        assert(false);
                        Err(error)
                    },
                    Ok(written) => {
                        proof {
                            lemma_written_wf(start, self@, written@);
                        }
                        self.insert_frame(written);
                        Ok(lsn)
                    },
                }
            },
        }
    }

    /// Writes a page under a new number and caches it.
    pub fn allocate(&mut self, payload: Vec<u8>) -> (page_id: Result<PageId, StorageError>)
        requires
            old(self)@.wf(),
        ensures
            final(self)@.wf(),
            match page_id {
                Ok(page_id) => {
                    &&& page_id.0 == old(self)@.store.next_page_id
                    &&& final(self)@.store == store::store_written(
                        old(self)@.store,
                        store::one_write(page_id.0, payload@),
                    )
                    &&& final(self)@.frames == frames_used(
                        old(self)@.frames,
                        old(self)@.capacity,
                        PageView {
                            id: page_id.0,
                            lsn: old(self)@.store.wal.next_lsn,
                            payload: payload@,
                        },
                    )
                },
                Err(error) => {
                    &&& final(self)@.frames == old(self)@.frames
                    &&& error@ == if old(self)@.store.next_page_id == u64::MAX {
                        StorageErrorView::Configuration("page ID space exhausted"@)
                    } else {
                        store::write_refused(
                            old(self)@.store,
                            store::one_write(old(self)@.store.next_page_id, payload@),
                        )
                    }
                    &&& old(self)@.store.next_page_id == u64::MAX || old(self)@.store.poisoned
                        || !page::fits_page(payload@) ==> final(self)@.store == old(self)@.store
                    &&& old(self)@.store.next_page_id < u64::MAX && !old(self)@.store.poisoned
                        && page::fits_page(payload@) ==> final(self)@.store.poisoned && !(
                    store::batch_logs(
                        old(self)@.store.wal,
                        store::one_write(old(self)@.store.next_page_id, payload@),
                    ) && crate::storage::data_file::has_offset(old(self)@.store.next_page_id))
                },
            },
    {
        let ghost start = self@;
        match self.store.allocate_page(payload) {
            Err(error) => {
                proof {
                    assert forall|id: u64| #[trigger] self@.store.read(id) == start.store.read(
                        id,
                    ) by {}
                    lemma_frames_kept(start, self@);
                }
                Err(error)
            },
            Ok(page_id) => {
                match self.store.read_page(page_id) {
                    Ok(Some(written)) => {
                        proof {
                            lemma_written_wf(start, self@, written@);
                        }
                        self.insert_frame(written);
                        Ok(page_id)
                    },
                    Ok(None) => {
                        assert(false);
                        Err(StorageError::PageNotFound(page_id))
                    },
                    Err(error) => {
                        assert(false);
                        Err(error)
                    },
                }
            },
        }
    }

    /// Starts the log of the store anew.
    pub fn checkpoint(&mut self) -> (lsn: Result<Lsn, StorageError>)
        requires
            old(self)@.wf(),
        ensures
            final(self)@.wf(),
            final(self)@ == (PoolView { store: final(self)@.store, ..old(self)@ }),
            match lsn {
                Ok(lsn) => {
                    &&& !old(self)@.store.poisoned
                    &&& lsn.0 == old(self)@.store.wal.next_lsn
                    &&& final(self)@.store == store::store_checkpointed(old(self)@.store)
                },
                Err(error) => if old(self)@.store.poisoned {
                    error@ == StorageErrorView::Poisoned && final(self)@ == old(self)@
                } else {
                    &&& !crate::storage::wal::wal_has_room(old(self)@.store.wal, 0)
                    &&& error@ == crate::storage::wal::wal_full(old(self)@.store.wal)
                    &&& final(self)@.store.poisoned
                },
            },
    {
        let ghost start = self@;
        let lsn = self.store.checkpoint();
        proof {
            lemma_frames_kept(start, self@);
        }
        lsn
    }

    pub fn stats(&self) -> (stats: BufferPoolStats)
        ensures
            stats == self@.stats,
    {
        self.stats
    }

    /// How many pages are cached.
    pub fn len(&self) -> (count: usize)
        ensures
            count == self@.frames.len(),
    {
        self.frames.len()
    }

    pub fn is_empty(&self) -> (empty: bool)
        ensures
            empty == (self@.frames.len() == 0),
    {
        self.frames.len() == 0
    }

    /// Takes out what has to be done to the files, in order.
    pub fn take_ops(&mut self) -> (ops: Vec<FileOp>)
        requires
            old(self)@.wf(),
        ensures
            final(self)@.wf(),
            store::op_views(ops@) == old(self)@.store.ops,
            final(self)@ == (PoolView {
                store: StoreView { ops: Seq::empty(), ..old(self)@.store },
                ..old(self)@
            }),
    {
        self.store.take_ops()
    }
}

/// Using a page that the store holds keeps the pool well-formed.
proof fn lemma_used_wf(pool: PoolView, used: PageView)
    requires
        pool.wf(),
        pool.store.read(used.id) == Ok::<Option<PageView>, StorageErrorView>(Some(used)),
    ensures
        (PoolView { frames: frames_used(pool.frames, pool.capacity, used), ..pool }).wf(),
{
    let frames = pool.frames;
    let after = frames_used(frames, pool.capacity, used);
    if is_cached(frames, used.id) {
        let at = choose|i: int| 0 <= i < frames.len() && (#[trigger] frames[i]).id == used.id;
        let rest = frames.remove(at);
        assert forall|i: int| 0 <= i < rest.len() implies #[trigger] rest[i] == frames[if i < at {
            i
        } else {
            i + 1
        }] by {}
        assert forall|i: int, j: int| 0 <= i < j < after.len() implies (#[trigger] after[i]).id != (
        #[trigger] after[j]).id by {
            if j < rest.len() {
                assert(after[i] == rest[i] && after[j] == rest[j]);
            } else {
                assert(after[i] == rest[i]);
                if i < at {
                    assert(frames[i].id != frames[at].id);
                } else {
                    assert(frames[at].id != frames[i + 1].id);
                }
            }
        }
        assert forall|i: int| 0 <= i < after.len() implies pool.store.read(
            (#[trigger] after[i]).id,
        ) == Ok::<Option<PageView>, StorageErrorView>(Some(after[i])) by {
            if i < rest.len() {
                assert(after[i] == rest[i]);
            }
        }
    } else {
        let rest = if frames.len() < pool.capacity {
            frames
        } else {
            frames.drop_first()
        };
        let skipped = frames.len() - rest.len();
        assert forall|i: int| 0 <= i < rest.len() implies #[trigger] rest[i] == frames[i
            + skipped] by {}
        assert forall|i: int, j: int| 0 <= i < j < after.len() implies (#[trigger] after[i]).id != (
        #[trigger] after[j]).id by {
            assert(after[i] == rest[i]);
            if j < rest.len() {
                assert(after[j] == rest[j]);
            }
        }
        assert forall|i: int| 0 <= i < after.len() implies pool.store.read(
            (#[trigger] after[i]).id,
        ) == Ok::<Option<PageView>, StorageErrorView>(Some(after[i])) by {
            if i < rest.len() {
                assert(after[i] == rest[i]);
            }
        }
    }
}

/// Whether one page stands in front of another in a cache.
pub open spec fn leaves_before(frames: Seq<PageView>, earlier: PageView, later: PageView) -> bool {
    exists|a: int, b: int|
        0 <= a < b < frames.len() && #[trigger] frames[a] == earlier && #[trigger] frames[b] == later
}

/// A page that is used becomes the last to leave, and the others keep their order. One leaves only where
/// the cache is full and does not hold the page yet: the one that was used longest ago.
pub proof fn law_least_recently_used_leaves(pool: PoolView, used: PageView, i: int, j: int)
    requires
        pool.wf(),
        0 <= i < pool.frames.len(),
        pool.frames[i].id != used.id,
    ensures
        ({
            let frames = pool.frames;
            let after = frames_used(frames, pool.capacity, used);
            let held = exists|n: int| 0 <= n < frames.len() && (#[trigger] frames[n]).id == used.id;
            let stays = i > 0 || held || frames.len() < pool.capacity;
            &&& after.last() == used
            &&& after.len() == frames.len() + (if held || frames.len() == pool.capacity {
                0int
            } else {
                1
            })
            &&& stays <==> leaves_before(after, frames[i], used)
            &&& stays && i < j < frames.len() && frames[j].id != used.id ==> leaves_before(
                after,
                frames[i],
                frames[j],
            )
        }),
{
    let frames = pool.frames;
    let after = frames_used(frames, pool.capacity, used);
    let stays = i > 0 || is_cached(frames, used.id) || frames.len() < pool.capacity;
    if is_cached(frames, used.id) {
        let at = choose|n: int| 0 <= n < frames.len() && (#[trigger] frames[n]).id == used.id;
        let a = if i < at { i } else { i - 1 };
        assert(after[a] == frames[i]);
        assert(after[after.len() - 1] == used);
        if i < j < frames.len() && frames[j].id != used.id {
            let b = if j < at { j } else { j - 1 };
            assert(after[b] == frames[j]);
        }
    } else {
        let skipped: int = if frames.len() < pool.capacity { 0 } else { 1 };
        assert(after[after.len() - 1] == used);
        if stays {
            assert(after[i - skipped] == frames[i]);
            if i < j < frames.len() {
                assert(after[j - skipped] == frames[j]);
            }
        } else if leaves_before(after, frames[0], used) {
            let (a, b) = choose|a: int, b: int|
                0 <= a < b < after.len() && #[trigger] after[a] == frames[0] && #[trigger] after[b]
                    == used;
            assert(after[a] == frames[a + 1]);
            assert(frames[0].id != frames[a + 1].id);
        }
    }
}

/// A cache stays true while the pages that it holds read the same.
proof fn lemma_frames_kept(before: PoolView, after: PoolView)
    requires
        before.wf(),
        after.store.wf(),
        after == (PoolView { store: after.store, ..before }),
        forall|id: u64| #[trigger] after.store.read(id) == before.store.read(id),
    ensures
        after.wf(),
{
    assert forall|i: int| 0 <= i < after.frames.len() implies after.store.read(
        (#[trigger] after.frames[i]).id,
    ) == Ok::<Option<PageView>, StorageErrorView>(Some(after.frames[i])) by {
        assert(before.frames[i] == after.frames[i]);
    }
}

/// A page written to the store and put in the cache.
proof fn lemma_written_wf(before: PoolView, after: PoolView, written: PageView)
    requires
        before.wf(),
        after.store.wf(),
        after == (PoolView { store: after.store, ..before }),
        after.store.read(written.id) == Ok::<Option<PageView>, StorageErrorView>(Some(written)),
        forall|id: u64|
            id != written.id ==> #[trigger] after.store.read(id) == before.store.read(id),
    ensures
        (PoolView {
            frames: frames_used(before.frames, before.capacity, written),
            ..after
        }).wf(),
{
    let frames = before.frames;
    let used = frames_used(frames, before.capacity, written);
    let pool = PoolView { frames: used, ..after };
    assert forall|i: int| 0 <= i < used.len() implies pool.store.read((#[trigger] used[i]).id)
        == Ok::<Option<PageView>, StorageErrorView>(Some(used[i])) by {
        if i < used.len() - 1 {
            let at = choose|i: int|
                0 <= i < frames.len() && (#[trigger] frames[i]).id == written.id;
            if is_cached(frames, written.id) {
                let from = if i < at { i } else { i + 1 };
                assert(used[i] == frames[from]);
                if from < at {
                    assert(frames[from].id != frames[at].id);
                } else {
                    assert(frames[at].id != frames[from].id);
                }
            } else if frames.len() < before.capacity {
                assert(used[i] == frames[i]);
            } else {
                assert(used[i] == frames[i + 1]);
            }
        }
    }
    assert forall|i: int, j: int| 0 <= i < j < used.len() implies (#[trigger] used[i]).id != (
    #[trigger] used[j]).id by {
        let at = choose|i: int| 0 <= i < frames.len() && (#[trigger] frames[i]).id == written.id;
        if is_cached(frames, written.id) {
            let a = if i < at { i } else { i + 1 };
            assert(used[i] == frames[a]);
            if j < used.len() - 1 {
                let b = if j < at { j } else { j + 1 };
                assert(used[j] == frames[b]);
            } else if a < at {
                assert(frames[a].id != frames[at].id);
            } else {
                assert(frames[at].id != frames[a].id);
            }
        } else {
            let skipped: int = if frames.len() < before.capacity { 0 } else { 1 };
            assert(used[i] == frames[i + skipped]);
            if j < used.len() - 1 {
                assert(used[j] == frames[j + skipped]);
            }
        }
    }
}

} // verus!
