//! A cache of values decoded from pages, bounded by the bytes that they account for.
use crate::storage::page::PageId;
use std::sync::Arc;
use vstd::prelude::*;

verus! {

/// `Arc::clone` of the standard library: another handle on the same value.
#[verifier::external_body]
pub(crate) fn share<V>(value: &Arc<V>) -> (shared: Arc<V>)
    ensures
        shared == *value,
{
    Arc::clone(value)
}

/// How a cache has been used and what it holds.
#[derive(Debug, Clone, Copy, PartialEq, Eq, Structural)]
pub struct ByteCacheStats {
    pub hits: u64,
    pub misses: u64,
    pub entries: usize,
    pub bytes: usize,
}

struct LruEntry<V> {
    page_id: u64,
    value: Arc<V>,
    bytes: usize,
}

/// One cached value.
#[verifier::ext_equal]
pub struct LruEntryView<V> {
    pub page_id: u64,
    pub value: V,
    pub bytes: usize,
}

/// What a cache holds, the least recently used value first.
#[verifier::ext_equal]
pub struct LruView<V> {
    pub entries: Seq<LruEntryView<V>>,
    pub capacity: usize,
    pub hits: u64,
    pub misses: u64,
}

/// The bytes that entries account for.
pub open spec fn lru_bytes<V>(entries: Seq<LruEntryView<V>>) -> nat
    decreases entries.len(),
{
    if entries.len() == 0 {
        0
    } else {
        entries[0].bytes as nat + lru_bytes(entries.drop_first())
    }
}

/// The entries without those of one page.
pub open spec fn lru_without<V>(entries: Seq<LruEntryView<V>>, page_id: u64) -> Seq<
    LruEntryView<V>,
>
    decreases entries.len(),
{
    if entries.len() == 0 {
        Seq::empty()
    } else if entries[0].page_id == page_id {
        lru_without(entries.drop_first(), page_id)
    } else {
        seq![entries[0]] + lru_without(entries.drop_first(), page_id)
    }
}

/// The entries that stay when the oldest leave until the rest fit in `capacity` bytes.
pub open spec fn lru_evicted<V>(entries: Seq<LruEntryView<V>>, capacity: nat) -> Seq<
    LruEntryView<V>,
>
    decreases entries.len(),
{
    if entries.len() == 0 || lru_bytes(entries) <= capacity {
        entries
    } else {
        lru_evicted(entries.drop_first(), capacity)
    }
}

/// The value cached for a page.
pub open spec fn lru_find<V>(entries: Seq<LruEntryView<V>>, page_id: u64) -> Option<
    LruEntryView<V>,
>
    decreases entries.len(),
{
    if entries.len() == 0 {
        None
    } else if entries[0].page_id == page_id {
        Some(entries[0])
    } else {
        lru_find(entries.drop_first(), page_id)
    }
}

impl<V> LruView<V> {
    /// No page is cached twice, and the entries fit in the capacity.
    pub open spec fn wf(self) -> bool {
        &&& lru_bytes(self.entries) <= self.capacity
        &&& forall|i: int, j: int|
            0 <= i < j < self.entries.len() ==> (#[trigger] self.entries[i]).page_id != (
            #[trigger] self.entries[j]).page_id
    }
}

/// The cache after a value was put in it.
pub open spec fn lru_inserted<V>(cache: LruView<V>, entry: LruEntryView<V>) -> LruView<V> {
    if entry.bytes > cache.capacity {
        cache
    } else {
        LruView {
            entries: lru_evicted(
                lru_without(cache.entries, entry.page_id).push(entry),
                cache.capacity as nat,
            ),
            ..cache
        }
    }
}

/// One cached value by its view.
pub open spec fn entry_seen<V: View>(entry: LruEntryView<V>) -> LruEntryView<V::V> {
    LruEntryView { page_id: entry.page_id, value: entry.value@, bytes: entry.bytes }
}

/// Cached values by their views.
pub open spec fn entries_seen<V: View>(entries: Seq<LruEntryView<V>>) -> Seq<LruEntryView<V::V>> {
    Seq::new(entries.len(), |i: int| entry_seen(entries[i]))
}

/// A cache with its values by their views.
pub open spec fn cache_seen<V: View>(cache: LruView<V>) -> LruView<V::V> {
    LruView {
        entries: entries_seen(cache.entries),
        capacity: cache.capacity,
        hits: cache.hits,
        misses: cache.misses,
    }
}

pub proof fn lemma_bytes_seen<V: View>(entries: Seq<LruEntryView<V>>)
    ensures
        lru_bytes(entries_seen(entries)) == lru_bytes(entries),
    decreases entries.len(),
{
    if entries.len() > 0 {
        lemma_bytes_seen(entries.drop_first());
        assert(entries_seen(entries).drop_first() =~= entries_seen(entries.drop_first()));
    }
}

proof fn lemma_without_seen<V: View>(entries: Seq<LruEntryView<V>>, page_id: u64)
    ensures
        lru_without(entries_seen(entries), page_id) == entries_seen(lru_without(entries, page_id)),
    decreases entries.len(),
{
    if entries.len() > 0 {
        lemma_without_seen(entries.drop_first(), page_id);
        assert(entries_seen(entries).drop_first() =~= entries_seen(entries.drop_first()));
    }
    assert(lru_without(entries_seen(entries), page_id) =~= entries_seen(
        lru_without(entries, page_id),
    ));
}

proof fn lemma_evicted_seen<V: View>(entries: Seq<LruEntryView<V>>, capacity: nat)
    ensures
        lru_evicted(entries_seen(entries), capacity) == entries_seen(
            lru_evicted(entries, capacity),
        ),
    decreases entries.len(),
{
    lemma_bytes_seen(entries);
    if entries.len() > 0 {
        lemma_evicted_seen(entries.drop_first(), capacity);
        assert(entries_seen(entries).drop_first() =~= entries_seen(entries.drop_first()));
    }
}

/// What an insertion does to a cache does not depend on more of its values than their views.
pub proof fn lemma_inserted_seen<V: View>(cache: LruView<V>, entry: LruEntryView<V>)
    ensures
        cache_seen(lru_inserted(cache, entry)) == lru_inserted(
            cache_seen(cache),
            entry_seen(entry),
        ),
{
    let without = lru_without(cache.entries, entry.page_id);
    lemma_without_seen(cache.entries, entry.page_id);
    lemma_evicted_seen(without.push(entry), cache.capacity as nat);
    assert(entries_seen(without.push(entry)) =~= entries_seen(without).push(entry_seen(entry)));
}

/// A counter that starts again at zero after its largest value.
pub open spec fn counted(count: u64) -> u64 {
    if count == u64::MAX {
        0
    } else {
        (count + 1) as u64
    }
}

/// The cache after a page was looked up: a page found becomes the most recently used.
pub open spec fn lru_looked_up<V>(cache: LruView<V>, page_id: u64) -> LruView<V> {
    match lru_find(cache.entries, page_id) {
        Some(entry) => LruView {
            entries: lru_without(cache.entries, page_id).push(entry),
            hits: counted(cache.hits),
            ..cache
        },
        None => LruView { misses: counted(cache.misses), ..cache },
    }
}

/// A byte-bounded cache that drops its least recently used values.
///
/// A page that a value came from is never written again while the value counts, so a cached value
/// can only become garbage, never stale.
pub struct SharedByteLru<V> {
    entries: Vec<LruEntry<V>>,
    bytes: usize,
    capacity: usize,
    hits: u64,
    misses: u64,
}

spec fn made_view<V>(page_id: u64, value: &Arc<V>, bytes: usize) -> LruEntryView<V> {
    LruEntryView { page_id, value: **value, bytes }
}

spec fn entry_views<V>(entries: Seq<LruEntry<V>>) -> Seq<LruEntryView<V>> {
    Seq::new(
        entries.len(),
        |i: int|
            LruEntryView {
                page_id: entries[i].page_id,
                value: *entries[i].value,
                bytes: entries[i].bytes,
            },
    )
}

impl<V> View for SharedByteLru<V> {
    type V = LruView<V>;

    closed spec fn view(&self) -> LruView<V> {
        LruView {
            entries: entry_views(self.entries@),
            capacity: self.capacity,
            hits: self.hits,
            misses: self.misses,
        }
    }
}

pub proof fn lemma_lru_push<V>(entries: Seq<LruEntryView<V>>, entry: LruEntryView<V>)
    ensures
        lru_bytes(entries.push(entry)) == lru_bytes(entries) + entry.bytes,
    decreases entries.len(),
{
    if entries.len() == 0 {
        assert(entries.push(entry).drop_first() =~= Seq::empty());
        reveal_with_fuel(lru_bytes, 2);
    } else {
        lemma_lru_push(entries.drop_first(), entry);
        assert(entries.push(entry).drop_first() =~= entries.drop_first().push(entry));
    }
}

/// Taking one page's entry out of a cache that holds no page twice.
proof fn lemma_lru_remove<V>(entries: Seq<LruEntryView<V>>, at: int)
    requires
        0 <= at < entries.len(),
        forall|i: int, j: int|
            0 <= i < j < entries.len() ==> (#[trigger] entries[i]).page_id != (
            #[trigger] entries[j]).page_id,
    ensures
        lru_without(entries, entries[at].page_id) == entries.remove(at),
        lru_bytes(entries.remove(at)) + entries[at].bytes == lru_bytes(entries),
        lru_find(entries, entries[at].page_id) == Some(entries[at]),
    decreases entries.len(),
{
    let rest = entries.drop_first();
    if at == 0 {
        assert(entries.remove(0) =~= rest);
        assert forall|i: int| 0 <= i < rest.len() implies (#[trigger] rest[i]).page_id
            != entries[0].page_id by {
            assert(rest[i] == entries[i + 1]);
        }
        lemma_lru_absent(rest, entries[0].page_id);
    } else {
        assert forall|i: int, j: int| 0 <= i < j < rest.len() implies (#[trigger] rest[i]).page_id
            != (#[trigger] rest[j]).page_id by {
            assert(rest[i] == entries[i + 1] && rest[j] == entries[j + 1]);
        }
        lemma_lru_remove(rest, at - 1);
        assert(rest[at - 1] == entries[at]);
        assert(entries.remove(at) =~= seq![entries[0]] + rest.remove(at - 1));
        assert(entries.remove(at).drop_first() =~= rest.remove(at - 1));
    }
}

proof fn lemma_lru_absent<V>(entries: Seq<LruEntryView<V>>, page_id: u64)
    requires
        forall|i: int| 0 <= i < entries.len() ==> (#[trigger] entries[i]).page_id != page_id,
    ensures
        lru_without(entries, page_id) == entries,
        lru_find(entries, page_id) is None,
    decreases entries.len(),
{
    if entries.len() > 0 {
        let rest = entries.drop_first();
        assert forall|i: int| 0 <= i < rest.len() implies (#[trigger] rest[i]).page_id
            != page_id by {
            assert(rest[i] == entries[i + 1]);
        }
        lemma_lru_absent(rest, page_id);
        assert(seq![entries[0]] + rest =~= entries);
    }
}

/// What a lookup finds is in the cache.
pub proof fn lemma_lru_found<V>(entries: Seq<LruEntryView<V>>, page_id: u64)
    ensures
        lru_find(entries, page_id) matches Some(entry) ==> entry.page_id == page_id
            && entries.contains(entry),
        lru_find(entries, page_id) is None ==> forall|i: int|
            0 <= i < entries.len() ==> (#[trigger] entries[i]).page_id != page_id,
    decreases entries.len(),
{
    if entries.len() > 0 {
        let rest = entries.drop_first();
        if entries[0].page_id == page_id {
            assert(entries.contains(entries[0]));
        } else {
            lemma_lru_found(rest, page_id);
            if let Some(entry) = lru_find(rest, page_id) {
                let i = choose|i: int| 0 <= i < rest.len() && rest[i] == entry;
                assert(entries[i + 1] == entry);
            } else {
                assert forall|i: int| 0 <= i < entries.len() implies (
                #[trigger] entries[i]).page_id != page_id by {
                    if i > 0 {
                        assert(rest[i - 1] == entries[i]);
                    }
                }
            }
        }
    }
}

/// What a cache accounts for is the sum over its entries.
pub proof fn law_bytes_add_up<V>(entries: Seq<LruEntryView<V>>, entry: LruEntryView<V>)
    ensures
        lru_bytes(Seq::<LruEntryView<V>>::empty()) == 0,
        lru_bytes(entries.push(entry)) == lru_bytes(entries) + entry.bytes,
{
    lemma_lru_push(entries, entry);
}

/// Whether a place is that of a page among entries; without one it is behind them.
pub open spec fn is_place<V>(entries: Seq<LruEntryView<V>>, page_id: u64, at: int) -> bool {
    if at == entries.len() {
        forall|i: int| 0 <= i < entries.len() ==> (#[trigger] entries[i]).page_id != page_id
    } else {
        0 <= at < entries.len() && entries[at].page_id == page_id
    }
}

/// The entries but for the one at a place.
pub open spec fn all_but<V>(entries: Seq<LruEntryView<V>>, at: int) -> Seq<LruEntryView<V>> {
    if at == entries.len() {
        entries
    } else {
        entries.remove(at)
    }
}

proof fn lemma_all_but<V>(entries: Seq<LruEntryView<V>>, page_id: u64, at: int)
    requires
        is_place(entries, page_id, at),
        forall|i: int, j: int|
            0 <= i < j < entries.len() ==> (#[trigger] entries[i]).page_id != (
            #[trigger] entries[j]).page_id,
    ensures
        lru_without(entries, page_id) == all_but(entries, at),
        lru_find(entries, page_id) == (if at == entries.len() {
            None
        } else {
            Some(entries[at])
        }),
{
    if at == entries.len() {
        lemma_lru_absent(entries, page_id);
    } else {
        lemma_lru_remove(entries, at);
    }
}

/// A lookup gives the entry of the page, makes it the last to leave, and moves no other entry.
pub proof fn law_lookup_refreshes<V>(cache: LruView<V>, page_id: u64, at: int)
    requires
        cache.wf(),
        is_place(cache.entries, page_id, at),
    ensures
        at < cache.entries.len() ==> {
            &&& lru_find(cache.entries, page_id) == Some(cache.entries[at])
            &&& lru_looked_up(cache, page_id).entries == cache.entries.remove(at).push(
                cache.entries[at],
            )
        },
        at == cache.entries.len() ==> {
            &&& lru_find(cache.entries, page_id) is None
            &&& lru_looked_up(cache, page_id).entries == cache.entries
        },
{
    lemma_all_but(cache.entries, page_id, at);
}

proof fn lemma_evicted<V>(entries: Seq<LruEntryView<V>>, capacity: nat) -> (gone: int)
    ensures
        0 <= gone <= entries.len(),
        lru_evicted(entries, capacity) == entries.skip(gone),
        gone > 0 ==> lru_bytes(entries.skip(gone - 1)) > capacity,
    decreases entries.len(),
{
    if entries.len() == 0 || lru_bytes(entries) <= capacity {
        assert(entries.skip(0) =~= entries);
        0
    } else {
        let rest = entries.drop_first();
        let more: int = lemma_evicted(rest, capacity);
        assert(rest.skip(more) =~= entries.skip(more + 1));
        if more > 0 {
            assert(rest.skip(more - 1) =~= entries.skip(more));
        } else {
            assert(entries.skip(0) =~= entries);
        }
        more + 1
    }
}

/// Whether entries are those that stay in front of a new one: the oldest went, and no more of them than
/// had to.
pub open spec fn stay_for<V>(
    others: Seq<LruEntryView<V>>,
    gone: int,
    entry: LruEntryView<V>,
    capacity: usize,
    after: Seq<LruEntryView<V>>,
) -> bool {
    &&& 0 <= gone <= others.len()
    &&& after == others.skip(gone).push(entry)
    &&& lru_bytes(others.skip(gone)) + entry.bytes <= capacity
    &&& gone > 0 ==> lru_bytes(others.skip(gone - 1)) + entry.bytes > capacity
}

/// An insertion puts the new entry last and drops the page's former one. Where they do not all fit, those
/// that were used longest ago leave, and no more of them than have to.
pub proof fn law_insert_drops_the_oldest<V>(cache: LruView<V>, entry: LruEntryView<V>, at: int)
    requires
        cache.wf(),
        is_place(cache.entries, entry.page_id, at),
    ensures
        entry.bytes <= cache.capacity ==> exists|gone: int| #[trigger]
            stay_for(
                all_but(cache.entries, at),
                gone,
                entry,
                cache.capacity,
                lru_inserted(cache, entry).entries,
            ),
        entry.bytes > cache.capacity ==> lru_inserted(cache, entry) == cache,
{
    if entry.bytes <= cache.capacity {
        let others = all_but(cache.entries, at);
        let pushed = others.push(entry);
        lemma_all_but(cache.entries, entry.page_id, at);
        law_insert_keeps_budget(cache, entry);
        lemma_lru_found(lru_inserted(cache, entry).entries, entry.page_id);
        let gone: int = lemma_evicted(pushed, cache.capacity as nat);
        assert(gone <= others.len());
        assert(pushed.skip(gone) =~= others.skip(gone).push(entry));
        lemma_lru_push(others.skip(gone), entry);
        if gone > 0 {
            assert(pushed.skip(gone - 1) =~= others.skip(gone - 1).push(entry));
            lemma_lru_push(others.skip(gone - 1), entry);
        }
        assert(stay_for(
            others,
            gone,
            entry,
            cache.capacity,
            lru_inserted(cache, entry).entries,
        ));
    }
}

/// Inserting keeps what a cache promises: it stays within its budget, a value that fits is found
/// afterwards, and every value in the cache was there before or is the new one.
pub proof fn law_insert_keeps_budget<V>(cache: LruView<V>, entry: LruEntryView<V>)
    requires
        cache.wf(),
    ensures
        lru_inserted(cache, entry).wf(),
        entry.bytes <= cache.capacity ==> lru_find(
            lru_inserted(cache, entry).entries,
            entry.page_id,
        ) == Some(entry),
        forall|other: LruEntryView<V>| #[trigger]
            lru_inserted(cache, entry).entries.contains(other) ==> other == entry
                || cache.entries.contains(other),
{
    if entry.bytes <= cache.capacity {
        let without = lru_without(cache.entries, entry.page_id);
        lemma_without(cache.entries, entry.page_id);
        lemma_lru_push(without, entry);
        let pushed = without.push(entry);
        assert forall|i: int, j: int| 0 <= i < j < pushed.len() implies (
        #[trigger] pushed[i]).page_id != (#[trigger] pushed[j]).page_id by {
            if j == without.len() {
                assert(pushed[i] == without[i]);
            } else {
                assert(pushed[i] == without[i] && pushed[j] == without[j]);
            }
        }
        assert(pushed.last() == entry);
        lemma_evict(pushed, cache.capacity as nat);
        let kept = lru_evicted(pushed, cache.capacity as nat);
        let skipped = pushed.len() - kept.len();
        assert(kept[kept.len() - 1] == entry);
        lemma_lru_remove(kept, kept.len() - 1);
        assert forall|other: LruEntryView<V>| #[trigger] kept.contains(other) implies other == entry
            || cache.entries.contains(other) by {
            let i = choose|i: int| 0 <= i < kept.len() && kept[i] == other;
            assert(pushed[skipped + i] == other);
            if skipped + i < without.len() {
                assert(without[skipped + i] == other);
                assert(without.contains(other));
            }
        }
    }
}

/// A lookup puts nothing into the cache.
pub proof fn lemma_looked_up_members<V>(cache: LruView<V>, page_id: u64)
    requires
        cache.wf(),
    ensures
        forall|other: LruEntryView<V>| #[trigger]
            lru_looked_up(cache, page_id).entries.contains(other) ==> cache.entries.contains(other),
{
    lemma_without(cache.entries, page_id);
    lemma_lru_found(cache.entries, page_id);
    if let Some(entry) = lru_find(cache.entries, page_id) {
        let without = lru_without(cache.entries, page_id);
        assert forall|other: LruEntryView<V>| #[trigger]
            without.push(entry).contains(other) implies cache.entries.contains(other) by {
            let i = choose|i: int|
                0 <= i < without.push(entry).len() && without.push(entry)[i] == other;
            if i < without.len() {
                assert(without[i] == other);
                assert(without.contains(other));
            }
        }
    }
}

pub proof fn lemma_without<V>(entries: Seq<LruEntryView<V>>, page_id: u64)
    requires
        forall|i: int, j: int|
            0 <= i < j < entries.len() ==> (#[trigger] entries[i]).page_id != (
            #[trigger] entries[j]).page_id,
    ensures
        forall|i: int|
            0 <= i < lru_without(entries, page_id).len() ==> (#[trigger] lru_without(
                entries,
                page_id,
            )[i]).page_id != page_id,
        forall|i: int, j: int|
            0 <= i < j < lru_without(entries, page_id).len() ==> (#[trigger] lru_without(
                entries,
                page_id,
            )[i]).page_id != (#[trigger] lru_without(entries, page_id)[j]).page_id,
        forall|entry: LruEntryView<V>| #[trigger]
            lru_without(entries, page_id).contains(entry) ==> entries.contains(entry),
        lru_bytes(lru_without(entries, page_id)) <= lru_bytes(entries),
{
    if exists|at: int| 0 <= at < entries.len() && (#[trigger] entries[at]).page_id == page_id {
        let at = choose|at: int|
            0 <= at < entries.len() && (#[trigger] entries[at]).page_id == page_id;
        lemma_lru_remove(entries, at);
        let rest = entries.remove(at);
        assert forall|i: int| 0 <= i < rest.len() implies (#[trigger] rest[i]).page_id
            != page_id && entries.contains(rest[i]) by {
            if i < at {
                assert(rest[i] == entries[i]);
            } else {
                assert(rest[i] == entries[i + 1]);
            }
        }
        assert forall|i: int, j: int| 0 <= i < j < rest.len() implies (#[trigger] rest[i]).page_id
            != (#[trigger] rest[j]).page_id by {
            let a = if i < at { i } else { i + 1 };
            let b = if j < at { j } else { j + 1 };
            assert(rest[i] == entries[a] && rest[j] == entries[b]);
        }
        assert forall|entry: LruEntryView<V>| #[trigger] rest.contains(
            entry,
        ) implies entries.contains(entry) by {
            let i = choose|i: int| 0 <= i < rest.len() && rest[i] == entry;
            assert(entries.contains(rest[i]));
        }
    } else {
        lemma_lru_absent(entries, page_id);
    }
}

proof fn lemma_evict<V>(entries: Seq<LruEntryView<V>>, capacity: nat)
    requires
        entries.len() > 0,
        entries.last().bytes <= capacity,
        forall|i: int, j: int|
            0 <= i < j < entries.len() ==> (#[trigger] entries[i]).page_id != (
            #[trigger] entries[j]).page_id,
    ensures
        lru_bytes(lru_evicted(entries, capacity)) <= capacity,
        0 < lru_evicted(entries, capacity).len() <= entries.len(),
        lru_evicted(entries, capacity) == entries.skip(
            entries.len() - lru_evicted(entries, capacity).len(),
        ),
        forall|i: int, j: int|
            0 <= i < j < lru_evicted(entries, capacity).len() ==> (#[trigger] lru_evicted(
                entries,
                capacity,
            )[i]).page_id != (#[trigger] lru_evicted(entries, capacity)[j]).page_id,
    decreases entries.len(),
{
    if lru_bytes(entries) <= capacity {
        assert(entries.skip(0) =~= entries);
    } else {
        let rest = entries.drop_first();
        if rest.len() == 0 {
            reveal_with_fuel(lru_bytes, 2);
            assert(entries.last() == entries[0]);
        } else {
            assert(rest.last() == entries.last());
            assert forall|i: int, j: int| 0 <= i < j < rest.len() implies (
            #[trigger] rest[i]).page_id != (#[trigger] rest[j]).page_id by {
                assert(rest[i] == entries[i + 1] && rest[j] == entries[j + 1]);
            }
            lemma_evict(rest, capacity);
            let kept = lru_evicted(rest, capacity);
            assert(rest.skip(rest.len() - kept.len()) =~= entries.skip(entries.len() - kept.len()));
        }
    }
}

impl<V> SharedByteLru<V> {
    /// The budget is kept and counted right, and no page is cached twice.
    pub closed spec fn wf(&self) -> bool {
        &&& self@.wf()
        &&& self.bytes == lru_bytes(self@.entries)
    }

    pub proof fn lemma_wf(&self)
        requires
            self.wf(),
        ensures
            self@.wf(),
    {
    }

    /// An empty cache with a budget of `capacity_bytes`.
    pub fn new(capacity_bytes: usize) -> (cache: SharedByteLru<V>)
        ensures
            cache.wf(),
            cache@ == (LruView::<V> {
                entries: Seq::empty(),
                capacity: capacity_bytes,
                hits: 0,
                misses: 0,
            }),
    {
        let cache = SharedByteLru {
            entries: Vec::new(),
            bytes: 0,
            capacity: capacity_bytes,
            hits: 0,
            misses: 0,
        };
        assert(cache@.entries =~= Seq::empty());
        cache
    }

    pub fn stats(&self) -> (stats: ByteCacheStats)
        requires
            self.wf(),
        ensures
            stats.hits == self@.hits,
            stats.misses == self@.misses,
            stats.entries == self@.entries.len(),
            stats.bytes == lru_bytes(self@.entries),
    {
        ByteCacheStats {
            hits: self.hits,
            misses: self.misses,
            entries: self.entries.len(),
            bytes: self.bytes,
        }
    }

    /// Where a page is cached.
    fn position(&self, page_id: u64) -> (at: Option<usize>)
        ensures
            match at {
                Some(at) => at < self.entries@.len() && self.entries@[at as int].page_id == page_id,
                None => forall|i: int|
                    0 <= i < self.entries@.len() ==> (#[trigger] self.entries@[i]).page_id
                        != page_id,
            },
    {
        let mut index: usize = 0;
        while index < self.entries.len()
            invariant
                index <= self.entries@.len(),
                forall|i: int|
                    0 <= i < index ==> (#[trigger] self.entries@[i]).page_id != page_id,
            decreases self.entries@.len() - index,
        {
            if self.entries[index].page_id == page_id {
                return Some(index);
            }
            index = index + 1;
        }
        None
    }

    /// Takes a page's entry out.
    fn take(&mut self, page_id: u64) -> (entry: Option<LruEntry<V>>)
        requires
            old(self).wf(),
        ensures
            final(self).wf(),
            final(self)@ == (LruView {
                entries: lru_without(old(self)@.entries, page_id),
                ..old(self)@
            }),
            match entry {
                Some(entry) => lru_find(old(self)@.entries, page_id) == Some(
                    LruEntryView {
                        page_id: entry.page_id,
                        value: *entry.value,
                        bytes: entry.bytes,
                    },
                ) && entry.page_id == page_id && lru_bytes(final(self)@.entries) + entry.bytes
                    == lru_bytes(old(self)@.entries),
                None => lru_find(old(self)@.entries, page_id) is None && final(self)@ == old(
                    self,
                )@,
            },
    {
        let ghost before = self@.entries;
        match self.position(page_id) {
            Some(at) => {
                let entry = self.entries.remove(at);
                proof {
                    assert(before[at as int].page_id == page_id);
                    lemma_lru_remove(before, at as int);
                    lemma_without(before, page_id);
                    assert(self@.entries =~= before.remove(at as int));
                }
                self.bytes = self.bytes - entry.bytes;
                Some(entry)
            },
            None => {
                proof {
                    assert forall|i: int| 0 <= i < before.len() implies (
                    #[trigger] before[i]).page_id != page_id by {
                        assert(self.entries@[i].page_id != page_id);
                    }
                    lemma_lru_absent(before, page_id);
                }
                None
            },
        }
    }

    /// Looks a page up; a page found becomes the most recently used.
    pub fn get(&mut self, page_id: PageId) -> (found: Option<Arc<V>>)
        requires
            old(self).wf(),
        ensures
            final(self).wf(),
            final(self)@ == lru_looked_up(old(self)@, page_id.0),
            match lru_find(old(self)@.entries, page_id.0) {
                Some(entry) => found matches Some(value) && *value == entry.value,
                None => found is None,
            },
    {
        let ghost before = self@;
        match self.take(page_id.0) {
            Some(entry) => {
                let value = share(&entry.value);
                let ghost without = self@.entries;
                let ghost pushed = made_view(entry.page_id, &entry.value, entry.bytes);
                proof {
                    lemma_lru_push(without, pushed);
                    lemma_without(before.entries, page_id.0);
                }
                self.bytes = self.bytes + entry.bytes;
                self.entries.push(entry);
                self.hits = self.hits.wrapping_add(1);
                proof {
                    assert(self@.entries =~= without.push(pushed));
                    assert forall|i: int, j: int| 0 <= i < j < self@.entries.len() implies (
                    #[trigger] self@.entries[i]).page_id != (
                    #[trigger] self@.entries[j]).page_id by {
                        if j == without.len() {
                            assert(self@.entries[i] == without[i]);
                        } else {
                            assert(self@.entries[i] == without[i] && self@.entries[j]
                                == without[j]);
                        }
                    }
                }
                Some(value)
            },
            None => {
                self.misses = self.misses.wrapping_add(1);
                None
            },
        }
    }

    /// Caches a value that accounts for `bytes` of the budget.
    ///
    /// A value larger than the whole budget is not cached at all.
    pub fn insert(&mut self, page_id: PageId, value: &Arc<V>, bytes: usize)
        requires
            old(self).wf(),
        ensures
            final(self).wf(),
            final(self)@ == lru_inserted(
                old(self)@,
                LruEntryView { page_id: page_id.0, value: **value, bytes },
            ),
    {
        if bytes > self.capacity {
            return;
        }
        let ghost start = self@;
        let ghost entry = made_view(page_id.0, value, bytes);
        proof {
            law_insert_keeps_budget(start, entry);
        }
        let _ = self.take(page_id.0);
        let ghost without = self@.entries;
        let ghost pushed = without.push(entry);
        proof {
            lemma_lru_push(without, entry);
            assert(without.skip(0) =~= without);
            assert(pushed.skip(0) =~= pushed);
        }
        // Room is made before the value goes in, so the count never exceeds the budget.
        let mut held: usize = self.bytes;
        let mut drop_count: usize = 0;
        let count: usize = self.entries.len();
        while held > self.capacity - bytes
            invariant
                self@.entries == without,
                pushed == without.push(entry),
                entry.bytes == bytes <= self.capacity,
                drop_count <= count == without.len() == self.entries@.len(),
                held == lru_bytes(without.skip(drop_count as int)),
                lru_evicted(pushed, self.capacity as nat) == lru_evicted(
                    pushed.skip(drop_count as int),
                    self.capacity as nat,
                ),
            decreases without.len() - drop_count,
        {
            proof {
                let rest = without.skip(drop_count as int);
                let all = pushed.skip(drop_count as int);
                assert(all =~= rest.push(entry));
                lemma_lru_push(rest, entry);
                if rest.len() == 0 {
                    assert(lru_bytes(rest) == 0);
                }
                assert(all.drop_first() =~= pushed.skip(drop_count + 1));
                assert(rest.drop_first() =~= without.skip(drop_count + 1));
                assert(rest[0] == without[drop_count as int]);
            }
            held = held - self.entries[drop_count].bytes;
            drop_count = drop_count + 1;
        }
        proof {
            let rest = without.skip(drop_count as int);
            assert(pushed.skip(drop_count as int) =~= rest.push(entry));
            lemma_lru_push(rest, entry);
        }
        let kept = self.entries.split_off(drop_count);
        self.entries = kept;
        self.bytes = held + bytes;
        self.entries.push(LruEntry { page_id: page_id.0, value: share(value), bytes });
        proof {
            assert(self@.entries =~= without.skip(drop_count as int).push(entry));
        }
    }

    /// Forgets a page, so that a later use of its number is never served from the cache.
    pub fn remove(&mut self, page_id: PageId)
        requires
            old(self).wf(),
        ensures
            final(self).wf(),
            final(self)@ == (LruView {
                entries: lru_without(old(self)@.entries, page_id.0),
                ..old(self)@
            }),
    {
        let _ = self.take(page_id.0);
    }
}

} // verus!
