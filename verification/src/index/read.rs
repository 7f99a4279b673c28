//! Reading nodes, and following one key through a tree.
use crate::index::cache::NodeCache;
use crate::index::error::{corrupt, IndexError, IndexErrorView};
use crate::index::key;
use crate::index::key::{order_keys, KeyOrder};
use crate::index::model;
use crate::index::node;
use crate::index::node::{EntryView, IndexEntry, Node, NodeView};
use crate::storage::byte_lru;
use crate::storage::byte_lru::{LruEntryView, LruView};
use crate::storage::group_commit::GroupCommitHandle;
use crate::storage::page::PageId;
use crate::storage::store::StoreView;
use crate::text;
use crate::text::text_with_number;
use std::sync::Arc;
use vstd::prelude::*;
use vstd::string::*;

verus! {

/// Whether every cached node is the one on its page.
pub open spec fn cache_true(cache: LruView<Node>, state: StoreView) -> bool {
    forall|i: int|
        0 <= i < cache.entries.len() ==> model::node_read(
            state,
            (#[trigger] cache.entries[i]).page_id,
        ) == Ok::<NodeView, IndexErrorView>(cache.entries[i].value@)
}

/// A cache is as true of a store whose pages read the same.
pub proof fn lemma_cache_true_frame(cache: LruView<Node>, before: StoreView, after: StoreView)
    requires
        cache_true(cache, before),
        forall|i: int|
            0 <= i < cache.entries.len() ==> after.read((#[trigger] cache.entries[i]).page_id)
                == before.read(cache.entries[i].page_id),
    ensures
        cache_true(cache, after),
{
}

/// Reads the node on a page, through the cache.
pub fn read_node(storage: &GroupCommitHandle, cache: &mut NodeCache, page_id: PageId) -> (node:
    Result<Arc<Node>, IndexError>)
    requires
        storage@.wf(),
        old(cache).wf(),
        cache_true(old(cache)@, storage@.store),
    ensures
        final(cache).wf(),
        cache_true(final(cache)@, storage@.store),
        match node {
            Ok(node) => model::node_read(storage@.store, page_id.0) == Ok::<
                NodeView,
                IndexErrorView,
            >(node@),
            Err(error) => model::node_read(storage@.store, page_id.0) == Err::<
                NodeView,
                IndexErrorView,
            >(error@),
        },
{
    let ghost before = cache@;
    proof {
        cache.lemma_wf();
        lemma_true_lookup(before, storage@.store, page_id.0);
    }
    match cache.get(page_id) {
        Some(found) => {
            return Ok(found);
        },
        None => {},
    }
    match storage.read_page(page_id) {
        Err(error) => Err(IndexError::Storage(error)),
        Ok(None) => Err(corrupt(page_id, "referenced page does not exist")),
        Ok(Some(found)) => match Node::decode(page_id, found.payload()) {
            Err(error) => Err(error),
            Ok(decoded) => {
                let shared = Arc::new(decoded);
                proof {
                    cache.lemma_wf();
                    lemma_true_insert(cache@, storage@.store, cached_entry(page_id.0, &shared));
                }
                cache.insert(page_id, &shared);
                Ok(shared)
            },
        },
    }
}

proof fn lemma_true_lookup(cache: LruView<Node>, state: StoreView, page_id: u64)
    requires
        cache.wf(),
        cache_true(cache, state),
    ensures
        cache_true(byte_lru::lru_looked_up(cache, page_id), state),
        byte_lru::lru_find(cache.entries, page_id) matches Some(entry) ==> model::node_read(
            state,
            page_id,
        ) == Ok::<NodeView, IndexErrorView>(entry.value@),
{
    byte_lru::lemma_looked_up_members(cache, page_id);
    byte_lru::lemma_lru_found(cache.entries, page_id);
    let after = byte_lru::lru_looked_up(cache, page_id);
    assert forall|i: int| 0 <= i < after.entries.len() implies model::node_read(
        state,
        (#[trigger] after.entries[i]).page_id,
    ) == Ok::<NodeView, IndexErrorView>(after.entries[i].value@) by {
        assert(after.entries.contains(after.entries[i]));
        let j = choose|j: int| 0 <= j < cache.entries.len() && cache.entries[j] == after.entries[i];
        assert(cache.entries[j] == after.entries[i]);
    }
    if let Some(entry) = byte_lru::lru_find(cache.entries, page_id) {
        let j = choose|j: int| 0 <= j < cache.entries.len() && cache.entries[j] == entry;
        assert(cache.entries[j] == entry);
    }
}

proof fn lemma_true_insert(cache: LruView<Node>, state: StoreView, entry: LruEntryView<Node>)
    requires
        cache.wf(),
        cache_true(cache, state),
        model::node_read(state, entry.page_id) == Ok::<NodeView, IndexErrorView>(entry.value@),
    ensures
        cache_true(byte_lru::lru_inserted(cache, entry), state),
{
    byte_lru::law_insert_keeps_budget(cache, entry);
    let after = byte_lru::lru_inserted(cache, entry);
    assert forall|i: int| 0 <= i < after.entries.len() implies model::node_read(
        state,
        (#[trigger] after.entries[i]).page_id,
    ) == Ok::<NodeView, IndexErrorView>(after.entries[i].value@) by {
        assert(after.entries.contains(after.entries[i]));
        if after.entries[i] != entry {
            let j = choose|j: int|
                0 <= j < cache.entries.len() && cache.entries[j] == after.entries[i];
            assert(cache.entries[j] == after.entries[i]);
        }
    }
}

spec fn cached_entry(page_id: u64, shared: &Arc<Node>) -> LruEntryView<Node> {
    LruEntryView {
        page_id,
        value: **shared,
        bytes: crate::index::cache::cached_size(**shared),
    }
}

/// Where a key stands, or would stand, among entries.
pub fn search(entries: &Vec<IndexEntry>, wanted: &[u8]) -> (found: (usize, bool))
    ensures
        found.0 <= entries@.len(),
        found.1 ==> found.0 < entries@.len() && entries@[found.0 as int]@.key == wanted@,
        node::keys_rise(node::entry_views(entries@)) ==> {
            &&& forall|i: int|
                0 <= i < found.0 ==> key::key_lt((#[trigger] entries@[i])@.key, wanted@)
            &&& forall|i: int|
                found.0 <= i < entries@.len() && !(found.1 && i == found.0) ==> key::key_lt(
                    wanted@,
                    (#[trigger] entries@[i])@.key,
                )
        },
{
    let ghost all = node::entry_views(entries@);
    let mut low: usize = 0;
    let mut high: usize = entries.len();
    while low < high
        invariant
            low <= high <= entries@.len(),
            all == node::entry_views(entries@),
            node::keys_rise(all) ==> forall|i: int|
                0 <= i < low ==> key::key_lt((#[trigger] entries@[i])@.key, wanted@),
            node::keys_rise(all) ==> forall|i: int|
                high <= i < entries@.len() ==> key::key_lt(
                    wanted@,
                    (#[trigger] entries@[i])@.key,
                ),
        decreases high - low,
    {
        let middle: usize = low + (high - low) / 2;
        match order_keys(entries[middle].key.as_slice(), wanted) {
            KeyOrder::Same => {
                proof {
                    if node::keys_rise(all) {
                        assert forall|i: int| 0 <= i < middle implies key::key_lt(
                            (#[trigger] entries@[i])@.key,
                            wanted@,
                        ) by {
                            assert(key::key_lt(all[i].key, all[middle as int].key));
                        }
                        assert forall|i: int| middle < i < entries@.len() implies key::key_lt(
                            wanted@,
                            (#[trigger] entries@[i])@.key,
                        ) by {
                            assert(key::key_lt(all[middle as int].key, all[i].key));
                        }
                    }
                }
                return (middle, true);
            },
            KeyOrder::Before => {
                proof {
                    if node::keys_rise(all) {
                        assert forall|i: int| 0 <= i < middle + 1 implies key::key_lt(
                            (#[trigger] entries@[i])@.key,
                            wanted@,
                        ) by {
                            if i < middle {
                                assert(key::key_lt(all[i].key, all[middle as int].key));
                                key::lemma_key_transitive(
                                    all[i].key,
                                    all[middle as int].key,
                                    wanted@,
                                );
                            }
                        }
                    }
                }
                low = middle + 1;
            },
            KeyOrder::After => {
                proof {
                    if node::keys_rise(all) {
                        assert forall|i: int| middle <= i < entries@.len() implies key::key_lt(
                            wanted@,
                            (#[trigger] entries@[i])@.key,
                        ) by {
                            if i > middle {
                                assert(key::key_lt(all[middle as int].key, all[i].key));
                                key::lemma_key_transitive(
                                    wanted@,
                                    all[middle as int].key,
                                    all[i].key,
                                );
                            }
                        }
                    }
                }
                high = middle;
            },
        }
    }
    (low, false)
}

/// How many of the entries have keys up to `k`, where keys rise.
pub open spec fn rank(entries: Seq<EntryView>, k: Seq<u8>) -> nat
    decreases entries.len(),
{
    if entries.len() == 0 {
        0
    } else if key::key_le(entries.last().key, k) {
        entries.len()
    } else {
        rank(entries.drop_last(), k)
    }
}

/// Everything up to the rank is at most `k`, everything from there on is above it.
pub proof fn lemma_rank(entries: Seq<EntryView>, k: Seq<u8>, split: int)
    requires
        0 <= split <= entries.len(),
        split > 0 ==> key::key_le(entries[split - 1].key, k),
        forall|i: int| split <= i < entries.len() ==> !key::key_le((#[trigger] entries[i]).key, k),
    ensures
        rank(entries, k) == split,
    decreases entries.len(),
{
    if entries.len() > split {
        assert(!key::key_le(entries[entries.len() - 1].key, k));
        let head = entries.drop_last();
        assert forall|i: int| split <= i < head.len() implies !key::key_le(
            (#[trigger] head[i]).key,
            k,
        ) by {
            assert(head[i] == entries[i]);
        }
        lemma_rank(head, k, split);
    }
}

/// How many of the entries have keys up to `wanted`.
pub fn count_up_to(entries: &Vec<IndexEntry>, wanted: &[u8]) -> (count: usize)
    ensures
        count <= entries@.len(),
        node::keys_rise(node::entry_views(entries@)) ==> {
            &&& count == rank(node::entry_views(entries@), wanted@)
            &&& forall|i: int|
                0 <= i < count ==> key::key_le((#[trigger] entries@[i])@.key, wanted@)
            &&& forall|i: int|
                count <= i < entries@.len() ==> key::key_lt(wanted@, (#[trigger] entries@[i])@.key)
        },
{
    let length: usize = entries.len();
    let (at, same) = search(entries, wanted);
    let count: usize = if same {
        at + 1
    } else {
        at
    };
    proof {
        let all = node::entry_views(entries@);
        if node::keys_rise(all) {
            assert forall|i: int| count <= i < all.len() implies !key::key_le(
                (#[trigger] all[i]).key,
                wanted@,
            ) by {
                assert(key::key_lt(wanted@, entries@[i]@.key));
                key::lemma_key_asymmetric(wanted@, all[i].key);
            }
            if count > 0 {
                assert(all[count - 1] == entries@[count - 1]@);
                assert(key::key_le(entries@[count - 1]@.key, wanted@));
            }
            lemma_rank(all, wanted@, count as int);
        }
    }
    count
}

/// The child under which a key belongs.
pub open spec fn child_for(first_child: u64, separators: Seq<EntryView>, k: Seq<u8>) -> u64 {
    let count = rank(separators, k);
    if count == 0 {
        first_child
    } else {
        separators[count - 1].value
    }
}

/// Why a node with a wrong level is refused.
pub open spec fn wrong_level(page: u64, found: u16, expected: nat) -> IndexErrorView {
    IndexErrorView::CorruptNode {
        page_id: page,
        reason: "node level "@ + text::decimal(found as nat) + (
        " does not match expected level "@ + text::decimal(expected) + ""@),
    }
}

/// What following a key from a page down gives.
pub open spec fn looked_up(state: StoreView, page: u64, level: nat, k: Seq<u8>) -> Result<
    Option<u64>,
    IndexErrorView,
>
    decreases level,
{
    match model::node_read(state, page) {
        Err(error) => Err(error),
        Ok(found) => if node::node_level(found) != level {
            Err(wrong_level(page, node::node_level(found), level))
        } else {
            match found {
                NodeView::Leaf { entries, .. } => Ok(model::find(entries, k)),
                NodeView::Internal { first_child, separators, .. } => if level == 0 {
                    Err(
                        IndexErrorView::CorruptNode {
                            page_id: child_for(first_child, separators, k),
                            reason: "internal node below leaf level"@,
                        },
                    )
                } else {
                    looked_up(
                        state,
                        child_for(first_child, separators, k),
                        (level - 1) as nat,
                        k,
                    )
                },
            }
        },
    }
}

/// Following a key through a tree finds exactly what the tree holds for it.
pub proof fn law_lookup_finds(
    state: StoreView,
    live: Set<u64>,
    page: u64,
    level: nat,
    low: Option<Seq<u8>>,
    high: Option<Seq<u8>>,
    k: Seq<u8>,
)
    requires
        model::is_tree(model::store_nodes(state), live, page, level, low, high),
    ensures
        looked_up(state, page, level, k) == Ok::<Option<u64>, IndexErrorView>(
            model::find(model::tree_entries(model::store_nodes(state), page, level), k),
        ),
    decreases level,
{
    let nodes = model::store_nodes(state);
    if let NodeView::Internal { level: own, first_child, separators } = nodes[page] {
        let under = (level - 1) as nat;
        let count = rank(separators, k);
        lemma_rank_splits(separators, k);
        assert(model::are_trees(nodes, live, separators, under, high));
        lemma_find_below(nodes, live, page, level, low, high, k);
        if count == 0 {
            law_lookup_finds(
                state,
                live,
                first_child,
                under,
                low,
                model::bound_at(separators, 0, high),
                k,
            );
        } else {
            law_lookup_finds(
                state,
                live,
                separators[count - 1].value,
                under,
                Some(separators[count - 1].key),
                model::bound_at(separators, count - 1 + 1, high),
                k,
            );
        }
    }
}

/// A key is found under an internal node where it is found under the child for it.
proof fn lemma_find_below(
    nodes: Map<u64, NodeView>,
    live: Set<u64>,
    page: u64,
    level: nat,
    low: Option<Seq<u8>>,
    high: Option<Seq<u8>>,
    k: Seq<u8>,
)
    requires
        model::is_tree(nodes, live, page, level, low, high),
        nodes[page] is Internal,
    ensures
        level > 0,
        model::find(model::tree_entries(nodes, page, level), k) == model::find(
            model::tree_entries(
                nodes,
                child_for(nodes[page]->first_child, nodes[page]->separators, k),
                (level - 1) as nat,
            ),
            k,
        ),
{
    let first_child = nodes[page]->first_child;
    let separators = nodes[page]->separators;
    let under = (level - 1) as nat;
    let count = rank(separators, k);
    lemma_rank_splits(separators, k);
    assert(model::are_trees(nodes, live, separators, under, high));
    let left = model::tree_entries(nodes, first_child, under);
    let right = model::forest_entries(nodes, separators, under);
    model::lemma_find_concat(left, right, k);
    if count == 0 {
        if separators.len() > 0 {
            model::lemma_forest_sorted(nodes, live, separators, under, low, high);
            key::lemma_key_asymmetric(k, separators[0].key);
            model::lemma_find_outside(right, Some(separators[0].key), high, k);
        }
    } else {
        model::lemma_tree_sorted(
            nodes,
            live,
            first_child,
            under,
            low,
            model::bound_at(separators, 0, high),
        );
        if count > 1 {
            assert(key::key_lt(separators[0].key, separators[count - 1].key));
        }
        key::lemma_key_chain(separators[0].key, separators[count - 1].key, k);
        if key::key_lt(k, separators[0].key) {
            key::lemma_key_asymmetric(k, separators[0].key);
            key::lemma_key_irreflexive(k);
        }
        model::lemma_find_outside(left, low, Some(separators[0].key), k);
        lemma_find_in_kid(nodes, live, separators, under, low, high, count - 1, k);
    }
}

/// Among trees side by side, a key is found where it is found in the tree for it.
pub proof fn lemma_find_in_kid(
    nodes: Map<u64, NodeView>,
    live: Set<u64>,
    kids: Seq<EntryView>,
    level: nat,
    low: Option<Seq<u8>>,
    high: Option<Seq<u8>>,
    at: int,
    k: Seq<u8>,
)
    requires
        model::is_grove(nodes, live, kids, level, low, high),
        0 <= at < kids.len(),
        at > 0 ==> key::key_le(kids[at].key, k),
        at + 1 < kids.len() ==> key::key_lt(k, kids[at + 1].key),
    ensures
        model::find(model::forest_entries(nodes, kids.take(at), level), k) is None,
        model::find(model::forest_entries(nodes, kids.skip(at + 1), level), k) is None,
        model::forest_entries(nodes, kids, level) == model::forest_entries(
            nodes,
            kids.take(at),
            level,
        ) + model::tree_entries(nodes, kids[at].value, level) + model::forest_entries(
            nodes,
            kids.skip(at + 1),
            level,
        ),
        model::find(model::forest_entries(nodes, kids, level), k) == model::find(
            model::tree_entries(nodes, kids[at].value, level),
            k,
        ),
{
    let kid = kids[at];
    let before = kids.take(at);
    let after = kids.skip(at + 1);
    assert(kids =~= before + seq![kid] + after);
    model::lemma_forest_concat(nodes, before + seq![kid], after, level);
    model::lemma_forest_concat(nodes, before, seq![kid], level);
    model::lemma_forest_one(nodes, kid, level);
    let middle = model::tree_entries(nodes, kid.value, level);
    let first = model::forest_entries(nodes, before, level);
    let last = model::forest_entries(nodes, after, level);
    model::lemma_find_concat(first + middle, last, k);
    model::lemma_find_concat(first, middle, k);
    if at > 0 {
        model::lemma_trees_take(nodes, live, kids, level, high, at);
        model::lemma_within_take(kids, low, high, at);
        model::lemma_forest_sorted(nodes, live, before, level, low, Some(kid.key));
        if key::key_lt(k, kid.key) {
            key::lemma_key_asymmetric(k, kid.key);
            key::lemma_key_irreflexive(k);
        }
        model::lemma_find_outside(first, Some(before[0].key), Some(kid.key), k);
    }
    if at + 1 < kids.len() {
        model::lemma_trees_skip(nodes, live, kids, level, high, at + 1);
        model::lemma_within_skip(kids, low, high, at + 1);
        assert(after[0] == kids[at + 1]);
        model::lemma_forest_sorted(nodes, live, after, level, low, high);
        key::lemma_key_asymmetric(k, after[0].key);
        model::lemma_find_outside(last, Some(after[0].key), high, k);
    }
}

/// What the rank parts, among rising keys.
pub proof fn lemma_rank_splits(entries: Seq<EntryView>, k: Seq<u8>)
    requires
        node::keys_rise(entries),
    ensures
        rank(entries, k) <= entries.len(),
        rank(entries, k) > 0 ==> key::key_le(entries[rank(entries, k) - 1].key, k),
        forall|i: int|
            rank(entries, k) <= i < entries.len() ==> key::key_lt(k, (#[trigger] entries[i]).key),
    decreases entries.len(),
{
    if entries.len() > 0 {
        let last = entries.len() - 1;
        assert(entries.last() == entries[last]);
        key::lemma_key_total(entries.last().key, k);
        if !key::key_le(entries.last().key, k) {
            let head = entries.drop_last();
            assert forall|i: int, j: int| 0 <= i < j < head.len() implies key::key_lt(
                (#[trigger] head[i]).key,
                (#[trigger] head[j]).key,
            ) by {
                assert(head[i] == entries[i] && head[j] == entries[j]);
            }
            lemma_rank_splits(head, k);
            assert forall|i: int| rank(entries, k) <= i < entries.len() implies key::key_lt(
                k,
                (#[trigger] entries[i]).key,
            ) by {
                if i < last {
                    assert(head[i] == entries[i]);
                }
            }
        }
    }
}

/// Follows a key from a page down to its value.
pub fn follow(
    storage: &GroupCommitHandle,
    cache: &mut NodeCache,
    root: PageId,
    root_level: u16,
    wanted: &[u8],
) -> (value: Result<Option<PageId>, IndexError>)
    requires
        storage@.wf(),
        old(cache).wf(),
        cache_true(old(cache)@, storage@.store),
    ensures
        final(cache).wf(),
        cache_true(final(cache)@, storage@.store),
        match value {
            Ok(value) => looked_up(storage@.store, root.0, root_level as nat, wanted@) == Ok::<
                Option<u64>,
                IndexErrorView,
            >(
                match value {
                    Some(page_id) => Some(page_id.0),
                    None => None,
                },
            ),
            Err(error) => looked_up(storage@.store, root.0, root_level as nat, wanted@) == Err::<
                Option<u64>,
                IndexErrorView,
            >(error@),
        },
{
    let mut page_id = root;
    let mut expected: u16 = root_level;
    loop
        invariant
            storage@.wf(),
            cache.wf(),
            cache_true(cache@, storage@.store),
            looked_up(storage@.store, root.0, root_level as nat, wanted@) == looked_up(
                storage@.store,
                page_id.0,
                expected as nat,
                wanted@,
            ),
        decreases expected,
    {
        let shared = match read_node(storage, cache, page_id) {
            Ok(shared) => shared,
            Err(error) => {
                return Err(error);
            },
        };
        let level: u16 = shared.level();
        if level != expected {
            let tail = text_with_number(" does not match expected level ", expected as u64, "");
            return Err(
                IndexError::CorruptNode {
                    page_id,
                    reason: text_with_number("node level ", level as u64, tail.as_str()),
                },
            );
        }
        proof {
            lemma_read_shape(storage@.store, page_id.0);
        }
        match &*shared {
            Node::Leaf { entries, .. } => {
                let (at, same) = search(entries, wanted);
                let ghost all = node::entry_views(entries@);
                if same {
                    proof {
                        assert(all[at as int] == entries@[at as int]@);
                        model::lemma_find_at(all, at as int);
                    }
                    return Ok(Some(entries[at].value));
                }
                proof {
                    assert forall|i: int| 0 <= i < all.len() implies (#[trigger] all[i]).key
                        != wanted@ by {
                        assert(all[i] == entries@[i]@);
                        if i < at {
                            key::lemma_key_asymmetric(all[i].key, wanted@);
                        } else {
                            key::lemma_key_asymmetric(wanted@, all[i].key);
                        }
                    }
                    model::lemma_find_absent(all, wanted@);
                }
                return Ok(None);
            },
            Node::Internal { first_child, separators, .. } => {
                let count: usize = count_up_to(separators, wanted);
                page_id = if count == 0 {
                    *first_child
                } else {
                    separators[count - 1].value
                };
                expected = expected - 1;
            },
        }
    }
}

/// A node that was read has rising keys, and an internal one is above the leaves.
pub proof fn lemma_read_shape(state: StoreView, page: u64)
    ensures
        model::node_read(state, page) matches Ok(found) ==> node::keys_rise(
            node::node_items(found),
        ) && (found is Internal ==> node::node_level(found) > 0),
{
}

} // verus!
