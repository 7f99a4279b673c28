//! Checking that stored pages form an index.
use crate::index::cache::NodeCache;
use crate::index::key;
use crate::index::key::{order_keys, KeyOrder};
use crate::index::model;
use crate::index::model::MAX_KEY_LENGTH;
use crate::index::node;
use crate::index::node::{EntryView, IndexEntry, Node, NodeView};
use crate::index::plan;
use crate::index::plan::IndexRoot;
use crate::index::range;
use crate::index::read;
use crate::index::read::read_node;
use crate::index::tree::BPlusTree;
use crate::storage::group_commit::GroupCommitHandle;
use crate::storage::page::PageId;
use crate::storage::store;
use crate::storage::store::StoreView;
use vstd::prelude::*;

verus! {

/// Whether every page that holds a node is in use.
pub open spec fn nodes_live(state: StoreView) -> bool {
    forall|id: u64| #[trigger]
        model::store_nodes(state).contains_key(id) ==> store::is_live(state, id)
}

/// Checks the order, the bounds and the lengths of keys.
fn check_within(entries: &Vec<IndexEntry>, low: Option<&[u8]>, high: Option<&[u8]>) -> (fits: bool)
    ensures
        fits == model::within(
            node::entry_views(entries@),
            range::bound_view(low),
            range::bound_view(high),
        ),
{
    let ghost all = node::entry_views(entries@);
    if !node::rises(entries) {
        return false;
    }
    let mut index: usize = 0;
    while index < entries.len()
        invariant
            index <= entries@.len(),
            all == node::entry_views(entries@),
            node::keys_rise(all),
            forall|i: int|
                0 <= i < index ==> model::above((#[trigger] all[i]).key, range::bound_view(low))
                    && model::below(all[i].key, range::bound_view(high)) && all[i].key.len()
                    <= MAX_KEY_LENGTH,
        decreases entries@.len() - index,
    {
        assert(all[index as int] == entries@[index as int]@);
        let current = entries[index].key.as_slice();
        if current.len() > MAX_KEY_LENGTH {
            return false;
        }
        if let Some(bound) = low {
            match order_keys(bound, current) {
                KeyOrder::After => {
                    assert(!model::above(all[index as int].key, range::bound_view(low)));
                    return false;
                },
                _ => {},
            }
        }
        if let Some(bound) = high {
            match order_keys(current, bound) {
                KeyOrder::Before => {},
                _ => {
                    assert(!model::below(all[index as int].key, range::bound_view(high)));
                    return false;
                },
            }
        }
        index = index + 1;
    }
    true
}

/// Checks that a page is the root of a tree.
fn check_tree(
    storage: &GroupCommitHandle,
    cache: &mut NodeCache,
    page_id: PageId,
    level: u16,
    low: Option<&[u8]>,
    high: Option<&[u8]>,
) -> (holds: bool)
    requires
        storage@.wf(),
        nodes_live(storage@.store),
        old(cache).wf(),
        read::cache_true(old(cache)@, storage@.store),
    ensures
        final(cache).wf(),
        read::cache_true(final(cache)@, storage@.store),
        holds == model::is_tree(
            model::store_nodes(storage@.store),
            model::live_pages(storage@.store),
            page_id.0,
            level as nat,
            range::bound_view(low),
            range::bound_view(high),
        ),
    decreases level,
{
    let ghost nodes = model::store_nodes(storage@.store);
    let ghost live = model::live_pages(storage@.store);
    let shared = match read_node(storage, cache, page_id) {
        Ok(shared) => shared,
        Err(_) => {
            return false;
        },
    };
    assert(nodes.contains_key(page_id.0));
    if page_id.0 == u64::MAX {
        return false;
    }
    match &*shared {
        Node::Leaf { entries, .. } => level == 0 && entries.len() > 0 && check_within(
            entries,
            low,
            high,
        ),
        Node::Internal { level: own, first_child, separators } => {
            if level == 0 || *own != level || !check_within(separators, low, high) {
                return false;
            }
            let ghost kids = node::entry_views(separators@);
            let count: usize = separators.len();
            let first_bound: Option<&[u8]> = if count > 0 {
                Some(separators[0].key.as_slice())
            } else {
                high
            };
            assert(range::bound_view(first_bound) == model::bound_at(
                kids,
                0,
                range::bound_view(high),
            )) by {
                if count > 0 {
                    assert(kids[0] == separators@[0]@);
                }
            }
            if !check_tree(storage, cache, *first_child, level - 1, low, first_bound) {
                return false;
            }
            let mut index: usize = 0;
            while index < count
                invariant
                    index <= count == separators@.len(),
                    level > 0,
                    kids == node::entry_views(separators@),
                    nodes == model::store_nodes(storage@.store),
                    live == model::live_pages(storage@.store),
                    storage@.wf(),
                    nodes_live(storage@.store),
                    cache.wf(),
                    read::cache_true(cache@, storage@.store),
                    nodes[page_id.0] == (NodeView::Internal {
                        level,
                        first_child: first_child.0,
                        separators: kids,
                    }),
                    forall|i: int|
                        0 <= i < index ==> model::is_tree(
                            nodes,
                            live,
                            (#[trigger] kids[i]).value,
                            (level - 1) as nat,
                            Some(kids[i].key),
                            model::bound_at(kids, i + 1, range::bound_view(high)),
                        ),
                decreases count - index,
            {
                let bound: Option<&[u8]> = if index + 1 < count {
                    Some(separators[index + 1].key.as_slice())
                } else {
                    high
                };
                proof {
                    assert(kids[index as int] == separators@[index as int]@);
                    if index + 1 < count {
                        assert(kids[index + 1] == separators@[index + 1]@);
                    }
                }
                let from: Option<&[u8]> = Some(separators[index].key.as_slice());
                if !check_tree(storage, cache, separators[index].value, level - 1, from, bound) {
                    proof {
                        if model::is_tree(
                            nodes,
                            live,
                            page_id.0,
                            level as nat,
                            range::bound_view(low),
                            range::bound_view(high),
                        ) {
                            assert(model::are_trees(
                                nodes,
                                live,
                                kids,
                                (level - 1) as nat,
                                range::bound_view(high),
                            ));
                            assert(model::is_tree(
                                nodes,
                                live,
                                kids[index as int].value,
                                (level - 1) as nat,
                                Some(kids[index as int].key),
                                model::bound_at(kids, index + 1, range::bound_view(high)),
                            ));
                        }
                    }
                    return false;
                }
                index = index + 1;
            }
            assert(model::are_trees(
                nodes,
                live,
                kids,
                (level - 1) as nat,
                range::bound_view(high),
            ));
            true
        },
    }
}

impl BPlusTree {
    /// Checks that a root leads to an index, and lists its entries if it does.
    ///
    /// An index with more entries than a list can have is not listed.
    pub fn check(storage: &GroupCommitHandle, cache: &mut NodeCache, root: IndexRoot) -> (entries:
        Option<Vec<IndexEntry>>)
        requires
            storage@.wf(),
            nodes_live(storage@.store),
            old(cache).wf(),
            read::cache_true(old(cache)@, storage@.store),
        ensures
            final(cache).wf(),
            read::cache_true(final(cache)@, storage@.store),
            match entries {
                Some(entries) => {
                    &&& plan::index_holds(storage@.store, Some(root))
                    &&& root.entries < usize::MAX
                    &&& node::entry_views(entries@) == plan::index_entries(
                        storage@.store,
                        Some(root),
                    )
                },
                None => !plan::index_holds(storage@.store, Some(root)) || root.entries
                    >= usize::MAX,
            },
    {
        if root.height == 0 || root.entries >= usize::MAX as u64 {
            return None;
        }
        let ghost all = plan::index_entries(storage@.store, Some(root));
        if !check_tree(storage, cache, root.page_id, root.height - 1, None, None) {
            return None;
        }
        let wanted: usize = root.entries as usize + 1;
        proof {
            model::lemma_tree_sorted(
                model::store_nodes(storage@.store),
                model::live_pages(storage@.store),
                root.page_id.0,
                (root.height - 1) as nat,
                None,
                None,
            );
            lemma_all_selected(all);
        }
        match list_all(storage, cache, root, wanted) {
            None => None,
            Some(entries) => {
                assert(node::entry_views(entries@).len() == entries@.len());
                assert(entries@.len() == range::at_most(all, wanted as nat).len());
                if entries.len() as u64 == root.entries {
                    assert(node::entry_views(entries@) == all);
                    Some(entries)
                } else {
                    None
                }
            },
        }
    }
}

/// Without bounds every entry is selected.
proof fn lemma_all_selected(entries: Seq<EntryView>)
    ensures
        range::selected(entries, None, None) == entries,
    decreases entries.len(),
{
    if entries.len() > 0 {
        lemma_all_selected(entries.drop_last());
        assert(entries.drop_last().push(entries.last()) =~= entries);
    } else {
        assert(entries =~= Seq::empty());
    }
}

/// The first entries of a tree.
fn list_all(
    storage: &GroupCommitHandle,
    cache: &mut NodeCache,
    root: IndexRoot,
    limit: usize,
) -> (entries: Option<Vec<IndexEntry>>)
    requires
        storage@.wf(),
        root.height > 0,
        old(cache).wf(),
        read::cache_true(old(cache)@, storage@.store),
        model::is_tree(
            model::store_nodes(storage@.store),
            model::live_pages(storage@.store),
            root.page_id.0,
            (root.height - 1) as nat,
            None,
            None,
        ),
    ensures
        final(cache).wf(),
        read::cache_true(final(cache)@, storage@.store),
        entries matches Some(entries) && node::entry_views(entries@) == range::at_most(
            plan::index_entries(storage@.store, Some(root)),
            limit as nat,
        ),
{
    proof {
        lemma_all_selected(plan::index_entries(storage@.store, Some(root)));
    }
    match BPlusTree::range(storage, cache, root, None, None, limit) {
        Ok(entries) => Some(entries),
        Err(_) => None,
    }
}

} // verus!
