//! Changing an index by copying the nodes on the path to each change.
use crate::bytes::copy_bytes;
use crate::index::cache::NodeCache;
use crate::index::compact;
use crate::index::error::{corrupt, IndexError, IndexErrorView};
use crate::index::key;
use crate::index::model;
use crate::index::model::MAX_KEY_LENGTH;
use crate::index::node;
use crate::index::node::{copy_entries, EntryView, IndexEntry, Node, NodeView, ENTRY_OVERHEAD, NODE_HEADER_SIZE};
use crate::index::plan;
use crate::index::plan::{IndexMutation, IndexRoot, MutationView};
use crate::index::read;
use crate::index::read::{read_node, search};
use crate::index::steps;
use crate::index::steps::{Desk, EditedView};
use crate::storage::error::StorageErrorView;
use crate::storage::group_commit::GroupCommitHandle;
use crate::storage::page::{PageId, MAX_PAGE_PAYLOAD};
use crate::storage::store;
use crate::storage::store::StoreView;
use std::collections::{HashMap, HashSet};
use vstd::prelude::*;
use vstd::string::*;

verus! {

broadcast use vstd::std_specs::hash::group_hash_axioms;

/// An index being changed: its root, and the new nodes, which no page holds yet.
pub struct Editor {
    pub root: Option<IndexRoot>,
    pub overlay: HashMap<u64, Node>,
    /// The pages of the index as it was.
    pub base: Ghost<Set<u64>>,
}

/// The new nodes by page.
pub open spec fn overlay_nodes(overlay: Map<u64, Node>) -> Map<u64, NodeView> {
    Map::new(|id: u64| overlay.contains_key(id), |id: u64| overlay[id]@)
}

/// The nodes that an internal node leads to.
pub open spec fn children_in(found: NodeView, pages: Set<u64>) -> bool {
    match found {
        NodeView::Leaf { .. } => true,
        NodeView::Internal { first_child, separators, .. } => pages.contains(first_child) && forall|
            i: int,
        |
            0 <= i < separators.len() ==> pages.contains((#[trigger] separators[i]).value),
    }
}

impl Editor {
    /// All nodes: the new ones, and those in the store.
    pub open spec fn nodes(&self, state: StoreView) -> Map<u64, NodeView> {
        model::store_nodes(state).union_prefer_right(overlay_nodes(self.overlay@))
    }

    /// The new nodes, and the store that hands out their pages.
    pub open spec fn desk(&self, state: StoreView) -> Desk {
        Desk { made: overlay_nodes(self.overlay@), store: state }
    }

    /// The pages of the index: those that it had and the new ones.
    pub open spec fn pages(&self) -> Set<u64> {
        self.base@.union(self.overlay@.dom())
    }

    /// The pages are in use; the index as it was is closed and has none of the new ones.
    pub open spec fn wf(&self, state: StoreView) -> bool {
        &&& forall|id: u64| #[trigger]
            self.base@.contains(id) ==> store::is_live(state, id) && !self.overlay@.contains_key(id)
        &&& forall|id: u64| #[trigger]
            self.overlay@.contains_key(id) ==> store::is_live(state, id) && id != u64::MAX
        &&& forall|id: u64| #[trigger]
            self.overlay@.contains_key(id) ==> (self.overlay@[id]@ matches NodeView::Leaf {
                next,
                ..
            } ==> next != Some(u64::MAX))
        &&& forall|id: u64| #[trigger]
            self.base@.contains(id) ==> (model::store_nodes(state).contains_key(id)
                ==> children_in(model::store_nodes(state)[id], self.base@))
    }
}

/// What a step of an edit changes: new nodes on pages that were not in use, and nothing else.
pub open spec fn grown(
    before: &Editor,
    state_before: StoreView,
    after: &Editor,
    state_after: StoreView,
) -> bool {
    &&& state_after.wf()
    &&& state_after.data == state_before.data
    &&& state_after.poisoned == state_before.poisoned
    &&& state_after == (StoreView {
        next_page_id: state_after.next_page_id,
        free: state_after.free,
        ..state_before
    })
    &&& after.base == before.base
    &&& forall|id: u64|
        store::is_live(state_before, id) ==> #[trigger] store::is_live(state_after, id)
    &&& forall|id: u64| #[trigger]
        before.overlay@.contains_key(id) ==> after.overlay@.contains_key(id) && after.overlay@[id]
            == before.overlay@[id]
    &&& forall|id: u64| #[trigger]
        after.overlay@.contains_key(id) ==> before.overlay@.contains_key(id) || !store::is_live(
            state_before,
            id,
        )
}

pub proof fn lemma_grown_trans(
    first: &Editor,
    first_state: StoreView,
    second: &Editor,
    second_state: StoreView,
    third: &Editor,
    third_state: StoreView,
)
    requires
        grown(first, first_state, second, second_state),
        grown(second, second_state, third, third_state),
    ensures
        grown(first, first_state, third, third_state),
{
    assert forall|id: u64| store::is_live(first_state, id) implies #[trigger] store::is_live(
        third_state,
        id,
    ) by {
        assert(store::is_live(second_state, id));
    }
    assert forall|id: u64| #[trigger] third.overlay@.contains_key(
        id,
    ) implies first.overlay@.contains_key(id) || !store::is_live(first_state, id) by {
        if !second.overlay@.contains_key(id) {
            assert(!store::is_live(second_state, id));
            if store::is_live(first_state, id) {
                assert(store::is_live(second_state, id));
            }
        }
    }
    assert forall|id: u64| #[trigger] first.overlay@.contains_key(
        id,
    ) implies third.overlay@.contains_key(id) && third.overlay@[id] == first.overlay@[id] by {
        assert(second.overlay@.contains_key(id));
    }
}

/// A step leaves every node of the index as it was.
pub proof fn lemma_grown_agrees(
    before: &Editor,
    state_before: StoreView,
    after: &Editor,
    state_after: StoreView,
)
    requires
        grown(before, state_before, after, state_after),
        after.wf(state_after),
        before.wf(state_before),
    ensures
        model::agrees(
            before.nodes(state_before),
            before.pages(),
            after.nodes(state_after),
            after.pages(),
        ),
{
    assert forall|id: u64| #[trigger] before.pages().contains(id) implies after.pages().contains(id)
        && (before.nodes(state_before).contains_key(id) ==> after.nodes(state_after).contains_key(
        id,
    ) && after.nodes(state_after)[id] == before.nodes(state_before)[id]) by {
        if before.overlay@.contains_key(id) {
            assert(after.overlay@.contains_key(id));
        } else {
            assert(before.base@.contains(id));
            assert(after.base@.contains(id));
        }
    }
}

/// Whether every new node fits in a page.
pub open spec fn all_fit(overlay: Map<u64, Node>) -> bool {
    forall|id: u64| #[trigger]
        overlay.contains_key(id) ==> node::node_size(overlay[id]@) <= MAX_PAGE_PAYLOAD
}

/// How many levels an index has.
pub open spec fn root_height(root: Option<IndexRoot>) -> nat {
    match root {
        None => 0,
        Some(root) => root.height as nat,
    }
}

/// Why no page could be had.
pub open spec fn out_of_pages(error: IndexErrorView, state: StoreView) -> bool {
    ||| state.poisoned && error == IndexErrorView::Storage(StorageErrorView::Poisoned)
    ||| !state.poisoned && state.next_page_id == u64::MAX && state.free.len() == 0 && error
        == IndexErrorView::Storage(
        StorageErrorView::Configuration("page ID space exhausted"@),
    )
}

/// The outcome of reading a node as plain values.
pub open spec fn node_view(found: Result<Node, IndexError>) -> Result<NodeView, IndexErrorView> {
    match found {
        Ok(found) => Ok(found@),
        Err(error) => Err(error@),
    }
}

/// The outcome of looking for a first key as plain values.
pub open spec fn key_view(first: Result<Vec<u8>, IndexError>) -> Result<Seq<u8>, IndexErrorView> {
    match first {
        Ok(first) => Ok(first@),
        Err(error) => Err(error@),
    }
}

pub open spec fn number_view(page_id: Result<PageId, IndexError>) -> Result<u64, IndexErrorView> {
    match page_id {
        Ok(page_id) => Ok(page_id.0),
        Err(error) => Err(error@),
    }
}

/// What a change came to: the root that it left.
pub open spec fn done_view(done: Result<(), IndexError>, root: Option<IndexRoot>) -> Result<
    Option<IndexRoot>,
    IndexErrorView,
> {
    match done {
        Ok(_) => Ok(root),
        Err(error) => Err(error@),
    }
}

pub open spec fn kids_view(kids: Result<Vec<IndexEntry>, IndexError>) -> Result<
    Seq<EntryView>,
    IndexErrorView,
> {
    match kids {
        Ok(kids) => Ok(node::entry_views(kids@)),
        Err(error) => Err(error@),
    }
}

pub open spec fn edited_view(edited: Result<Edited, IndexError>) -> Result<
    EditedView,
    IndexErrorView,
> {
    match edited {
        Ok(Edited::Unchanged) => Ok(EditedView::Unchanged),
        Ok(Edited::Replaced(kids, delta)) => Ok(
            EditedView::Replaced(node::entry_views(kids@), delta),
        ),
        Ok(Edited::Collapsed(kids, delta)) => Ok(
            EditedView::Collapsed(node::entry_views(kids@), delta),
        ),
        Err(error) => Err(error@),
    }
}

impl Editor {
    /// Puts a new node on a page that was not in use.
    pub fn allocate(&mut self, storage: &mut GroupCommitHandle, made: Node) -> (page_id: Result<
        PageId,
        IndexError,
    >)
        requires
            old(storage)@.wf(),
            old(self).wf(old(storage)@.store),
            made@ matches NodeView::Leaf { next, .. } ==> next != Some(u64::MAX),
        ensures
            final(storage)@.wf(),
            final(storage)@.options == old(storage)@.options,
            final(self).wf(final(storage)@.store),
            grown(old(self), old(storage)@.store, final(self), final(storage)@.store),
            final(self).root == old(self).root,
            (final(self).desk(final(storage)@.store), number_view(page_id)) == steps::allocated(
                old(self).desk(old(storage)@.store),
                made@,
            ),
            match page_id {
                Ok(page_id) => {
                    &&& page_id.0 == store::reserved_ids(old(storage)@.store, 1)[0]
                    &&& final(storage)@.store == store::store_reserved(old(storage)@.store, 1)
                    &&& !old(self).pages().contains(page_id.0)
                    &&& page_id.0 != u64::MAX
                    &&& final(self).overlay@ == old(self).overlay@.insert(page_id.0, made)
                },
                Err(error) => {
                    &&& out_of_pages(error@, final(storage)@.store)
                    &&& final(self).overlay@ == old(self).overlay@
                    &&& final(storage)@.store == old(storage)@.store
                },
            },
    {
        let ghost before = storage@.store;
        match storage.reserve_page_ids(1) {
            Err(error) => {
                assert(storage@.store.free =~= before.free);
                Err(IndexError::Storage(error))
            },
            Ok(ids) => {
                let ghost ids_view = store::id_views(ids@);
                proof {
                    store::law_reserved_are_fresh(before, 1);
                    assert(ids_view.len() == 1);
                    assert(ids_view[0] == ids@[0].0);
                }
                let page_id = ids[0];
                proof {
                    let reached = storage@.store;
                    assert(!store::is_live(before, page_id.0));
                    assert(store::reserved_ids(before, 1).contains(page_id.0));
                    assert(store::is_live(reached, page_id.0));
                    assert forall|id: u64| store::is_live(before, id) implies
                        #[trigger] store::is_live(reached, id) by {}
                    assert(model::store_nodes(reached) =~= model::store_nodes(before));
                    assert(reached == StoreView {
                        next_page_id: reached.next_page_id,
                        free: reached.free,
                        ..before
                    });
                }
                let ghost start = overlay_nodes(self.overlay@);
                self.overlay.insert(page_id.0, made);
                assert(overlay_nodes(self.overlay@) =~= start.insert(page_id.0, made@));
                Ok(page_id)
            },
        }
    }

    /// The node on a page, a new one or one from the store.
    pub fn read(&self, storage: &GroupCommitHandle, cache: &mut NodeCache, page_id: PageId) -> (found:
        Result<Node, IndexError>)
        requires
            storage@.wf(),
            old(cache).wf(),
            read::cache_true(old(cache)@, storage@.store),
        ensures
            final(cache).wf(),
            read::cache_true(final(cache)@, storage@.store),
            match found {
                Ok(found) => self.nodes(storage@.store).contains_key(page_id.0) && self.nodes(
                    storage@.store,
                )[page_id.0] == found@,
                Err(error) => !self.nodes(storage@.store).contains_key(page_id.0)
                    && model::node_read(storage@.store, page_id.0) == Err::<
                    NodeView,
                    IndexErrorView,
                >(error@),
            },
            steps::read_at(self.desk(storage@.store), page_id.0) == node_view(found),
    {
        match self.overlay.get(&page_id.0) {
            Some(found) => Ok(found.duplicate()),
            None => match read_node(storage, cache, page_id) {
                Ok(found) => Ok(found.duplicate()),
                Err(error) => Err(error),
            },
        }
    }
}

/// Where the runs of entries end that are put on a node each: `ends` rises to the number of
/// entries, and every run fits, but would not with the next entry.
pub open spec fn leaf_runs(entries: Seq<EntryView>, ends: Seq<usize>) -> bool {
    &&& forall|g: int, h: int| 0 <= g < h < ends.len() ==> ends[g] < ends[h]
    &&& forall|g: int| 0 <= g < ends.len() ==> #[trigger] run_start(ends, g) < ends[g]
        <= entries.len()
    &&& ends.len() > 0 ==> ends.last() == entries.len()
    &&& entries.len() > 0 ==> ends.len() > 0
    &&& forall|g: int|
        0 <= g < ends.len() ==> NODE_HEADER_SIZE + node::items_size(
            entries.subrange(#[trigger] run_start(ends, g), ends[g] as int),
        ) <= MAX_PAGE_PAYLOAD
    &&& forall|g: int|
        0 <= g < ends.len() - 1 ==> NODE_HEADER_SIZE + node::items_size(
            entries.subrange(#[trigger] run_start(ends, g), ends[g] as int),
        ) + ENTRY_OVERHEAD + entries[ends[g] as int].key.len() > MAX_PAGE_PAYLOAD
}

/// Where a run starts.
pub open spec fn run_start(ends: Seq<usize>, g: int) -> int {
    if g == 0 {
        0
    } else {
        ends[g - 1] as int
    }
}

/// The refusal of an entry that no leaf can hold.
pub open spec fn leaf_refused(long: Seq<u8>) -> IndexErrorView {
    IndexErrorView::KeyTooLarge {
        actual: if long.len() + ENTRY_OVERHEAD > usize::MAX {
            usize::MAX
        } else {
            (long.len() + ENTRY_OVERHEAD) as usize
        },
        maximum: (MAX_PAGE_PAYLOAD - NODE_HEADER_SIZE) as usize,
    }
}

/// Parts entries into runs, each as long as fits on a leaf.
pub fn partition_leaves(entries: &Vec<IndexEntry>) -> (ends: Result<Vec<usize>, IndexError>)
    ensures
        match ends {
            Ok(ends) => leaf_runs(node::entry_views(entries@), ends@),
            Err(error) => exists|i: int|
                0 <= i < entries@.len() && (#[trigger] entries@[i])@.key.len() > MAX_KEY_LENGTH
                    && error@ == leaf_refused(entries@[i]@.key),
        },
{
    let ghost all = node::entry_views(entries@);
    let mut ends: Vec<usize> = Vec::new();
    let mut start: usize = 0;
    while start < entries.len()
        invariant
            start <= entries@.len(),
            all == node::entry_views(entries@),
            start == (if ends@.len() == 0 { 0 } else { ends@.last() as int }),
            start > 0 ==> ends@.len() > 0,
            forall|g: int, h: int| 0 <= g < h < ends@.len() ==> ends@[g] < ends@[h],
            forall|g: int| 0 <= g < ends@.len() ==> #[trigger] run_start(ends@, g) < ends@[g]
                <= entries@.len(),
            forall|g: int|
                0 <= g < ends@.len() ==> NODE_HEADER_SIZE + node::items_size(
                    all.subrange(#[trigger] run_start(ends@, g), ends@[g] as int),
                ) <= MAX_PAGE_PAYLOAD,
            forall|g: int|
                0 <= g < ends@.len() && ends@[g] < entries@.len() ==> NODE_HEADER_SIZE
                    + node::items_size(
                    all.subrange(#[trigger] run_start(ends@, g), ends@[g] as int),
                ) + ENTRY_OVERHEAD + all[ends@[g] as int].key.len() > MAX_PAGE_PAYLOAD,
        decreases entries@.len() - start,
    {
        let mut end: usize = start;
        let mut used: usize = NODE_HEADER_SIZE;
        let mut full = false;
        assert(all.subrange(start as int, start as int) =~= Seq::empty());
        while end < entries.len() && !full
            invariant
                start <= end <= entries@.len(),
                all == node::entry_views(entries@),
                NODE_HEADER_SIZE <= used <= MAX_PAGE_PAYLOAD,
                used == NODE_HEADER_SIZE + node::items_size(
                    all.subrange(start as int, end as int),
                ),
                full ==> end < entries@.len() && used + ENTRY_OVERHEAD + all[end as int].key.len()
                    > MAX_PAGE_PAYLOAD,
            decreases entries@.len() - end, (if full { 0int } else { 1int }),
        {
            let length: usize = entries[end].key.len();
            if length > MAX_PAGE_PAYLOAD || used + ENTRY_OVERHEAD + length > MAX_PAGE_PAYLOAD {
                full = true;
            } else {
                proof {
                    let run = all.subrange(start as int, end + 1);
                    assert(run.drop_last() =~= all.subrange(start as int, end as int));
                    assert(run.last() == all[end as int]);
                }
                used = used + ENTRY_OVERHEAD + length;
                end = end + 1;
            }
        }
        if end == start {
            let length: usize = entries[start].key.len();
            assert(entries@[start as int]@.key.len() > MAX_KEY_LENGTH);
            return Err(
                IndexError::KeyTooLarge {
                    actual: length.saturating_add(ENTRY_OVERHEAD),
                    maximum: MAX_PAGE_PAYLOAD - NODE_HEADER_SIZE,
                },
            );
        }
        let ghost before = ends@;
        ends.push(end);
        proof {
            assert forall|g: int| 0 <= g < ends@.len() implies #[trigger] run_start(ends@, g)
                < ends@[g] <= entries@.len() && NODE_HEADER_SIZE + node::items_size(
                all.subrange(run_start(ends@, g), ends@[g] as int),
            ) <= MAX_PAGE_PAYLOAD && (ends@[g] < entries@.len() ==> NODE_HEADER_SIZE
                + node::items_size(all.subrange(run_start(ends@, g), ends@[g] as int))
                + ENTRY_OVERHEAD + all[ends@[g] as int].key.len() > MAX_PAGE_PAYLOAD) by {
                if g < before.len() {
                    assert(run_start(ends@, g) == run_start(before, g));
                } else {
                    assert(run_start(ends@, g) == start);
                }
            }
        }
        start = end;
    }
    Ok(ends)
}

/// Where the runs of children end that are put under one node each: every run's separators,
/// which leave out the run's first child, fit.
pub open spec fn internal_runs(kids: Seq<EntryView>, ends: Seq<usize>) -> bool {
    &&& forall|g: int, h: int| 0 <= g < h < ends.len() ==> ends[g] < ends[h]
    &&& forall|g: int| 0 <= g < ends.len() ==> #[trigger] run_start(ends, g) < ends[g] <= kids.len()
    &&& forall|g: int|
        0 <= g < ends.len() - 1 ==> #[trigger] run_start(ends, g) + 2 <= ends[g]
    &&& ends.len() > 0 ==> ends.last() == kids.len()
    &&& kids.len() > 0 ==> ends.len() > 0
    &&& forall|g: int|
        0 <= g < ends.len() ==> NODE_HEADER_SIZE + node::items_size(
            kids.subrange(#[trigger] run_start(ends, g) + 1, ends[g] as int),
        ) <= MAX_PAGE_PAYLOAD
    &&& forall|g: int|
        0 <= g < ends.len() - 1 ==> NODE_HEADER_SIZE + node::items_size(
            kids.subrange(#[trigger] run_start(ends, g) + 1, ends[g] as int),
        ) + ENTRY_OVERHEAD + kids[ends[g] as int].key.len() > MAX_PAGE_PAYLOAD
}

/// Parts children into runs, each as long as fits under one node.
pub fn partition_internal(kids: &Vec<IndexEntry>) -> (ends: Result<Vec<usize>, IndexError>)
    ensures
        match ends {
            Ok(ends) => internal_runs(node::entry_views(kids@), ends@),
            Err(error) => exists|i: int|
                0 <= i < kids@.len() && (#[trigger] kids@[i])@.key.len() > MAX_KEY_LENGTH && error@
                    == (IndexErrorView::KeyTooLarge {
                    actual: kids@[i]@.key.len() as usize,
                    maximum: MAX_KEY_LENGTH,
                }),
        },
{
    let ghost all = node::entry_views(kids@);
    let mut ends: Vec<usize> = Vec::new();
    let mut start: usize = 0;
    while start < kids.len()
        invariant
            start <= kids@.len(),
            all == node::entry_views(kids@),
            start == (if ends@.len() == 0 { 0 } else { ends@.last() as int }),
            start > 0 ==> ends@.len() > 0,
            forall|g: int, h: int| 0 <= g < h < ends@.len() ==> ends@[g] < ends@[h],
            forall|g: int| 0 <= g < ends@.len() ==> #[trigger] run_start(ends@, g) < ends@[g]
                <= kids@.len(),
            forall|g: int|
                0 <= g < ends@.len() && ends@[g] < kids@.len() ==> #[trigger] run_start(ends@, g)
                    + 2 <= ends@[g],
            forall|g: int|
                0 <= g < ends@.len() ==> NODE_HEADER_SIZE + node::items_size(
                    all.subrange(#[trigger] run_start(ends@, g) + 1, ends@[g] as int),
                ) <= MAX_PAGE_PAYLOAD,
            forall|g: int|
                0 <= g < ends@.len() && ends@[g] < kids@.len() ==> NODE_HEADER_SIZE
                    + node::items_size(
                    all.subrange(#[trigger] run_start(ends@, g) + 1, ends@[g] as int),
                ) + ENTRY_OVERHEAD + all[ends@[g] as int].key.len() > MAX_PAGE_PAYLOAD,
        decreases kids@.len() - start,
    {
        let mut end: usize = start + 1;
        let mut used: usize = NODE_HEADER_SIZE;
        let mut full = false;
        assert(all.subrange(start + 1, start + 1) =~= Seq::empty());
        while end < kids.len() && !full
            invariant
                start + 1 <= end <= kids@.len(),
                all == node::entry_views(kids@),
                NODE_HEADER_SIZE <= used <= MAX_PAGE_PAYLOAD,
                used == NODE_HEADER_SIZE + node::items_size(
                    all.subrange(start + 1, end as int),
                ),
                full ==> end < kids@.len() && used + ENTRY_OVERHEAD + all[end as int].key.len()
                    > MAX_PAGE_PAYLOAD,
            decreases kids@.len() - end, (if full { 0int } else { 1int }),
        {
            let length: usize = kids[end].key.len();
            if length > MAX_PAGE_PAYLOAD || used + ENTRY_OVERHEAD + length > MAX_PAGE_PAYLOAD {
                full = true;
            } else {
                proof {
                    let run = all.subrange(start + 1, end + 1);
                    assert(run.drop_last() =~= all.subrange(start + 1, end as int));
                    assert(run.last() == all[end as int]);
                }
                used = used + ENTRY_OVERHEAD + length;
                end = end + 1;
            }
        }
        if end == start + 1 && end < kids.len() {
            let length: usize = kids[end].key.len();
            if length > MAX_KEY_LENGTH {
                assert(kids@[end as int]@.key.len() > MAX_KEY_LENGTH);
                return Err(
                    IndexError::KeyTooLarge { actual: length, maximum: MAX_KEY_LENGTH },
                );
            }
        }
        let ghost before = ends@;
        ends.push(end);
        proof {
            assert forall|g: int| 0 <= g < ends@.len() implies #[trigger] run_start(ends@, g)
                < ends@[g] <= kids@.len() && (ends@[g] < kids@.len() ==> run_start(ends@, g) + 2
                <= ends@[g]) && NODE_HEADER_SIZE + node::items_size(
                all.subrange(run_start(ends@, g) + 1, ends@[g] as int),
            ) <= MAX_PAGE_PAYLOAD && (ends@[g] < kids@.len() ==> NODE_HEADER_SIZE
                + node::items_size(all.subrange(run_start(ends@, g) + 1, ends@[g] as int))
                + ENTRY_OVERHEAD + all[ends@[g] as int].key.len() > MAX_PAGE_PAYLOAD) by {
                if g < before.len() {
                    assert(run_start(ends@, g) == run_start(before, g));
                } else {
                    assert(run_start(ends@, g) == start);
                }
            }
        }
        start = end;
    }
    Ok(ends)
}

impl Editor {
    /// Puts entries on new leaves.
    pub fn make_leaves(
        &mut self,
        storage: &mut GroupCommitHandle,
        entries: &Vec<IndexEntry>,
        Ghost(low): Ghost<Option<Seq<u8>>>,
        Ghost(high): Ghost<Option<Seq<u8>>>,
    ) -> (kids: Result<Vec<IndexEntry>, IndexError>)
        requires
            old(storage)@.wf(),
            old(self).wf(old(storage)@.store),
        ensures
            final(storage)@.wf(),
            final(storage)@.options == old(storage)@.options,
            final(self).wf(final(storage)@.store),
            grown(old(self), old(storage)@.store, final(self), final(storage)@.store),
            final(self).root == old(self).root,
            (forall|i: int|
                0 <= i < entries@.len() ==> (#[trigger] entries@[i])@.key.len() <= MAX_KEY_LENGTH)
                ==> (final(self).desk(final(storage)@.store), kids_view(kids))
                == steps::leaves_from(
                old(self).desk(old(storage)@.store),
                node::entry_views(entries@),
                0,
                Seq::empty(),
            ),
            all_fit(old(self).overlay@) ==> all_fit(final(self).overlay@),
            compact::keys_short(node::entry_views(entries@)) ==> {
                &&& compact::overlay_compact(old(self).overlay@) ==> compact::overlay_compact(
                    final(self).overlay@,
                )
                &&& kids matches Ok(kids) ==> compact::keys_short(node::entry_views(kids@))
            },
            node::items_size(node::entry_views(entries@)) <= 2 * compact::NODE_CAPACITY ==> (
            kids matches Ok(kids) ==> kids@.len() <= 3),
            model::within(node::entry_views(entries@), low, high) ==> match kids {
                Ok(kids) => {
                    &&& model::is_grove(
                        final(self).nodes(final(storage)@.store),
                        final(self).pages(),
                        node::entry_views(kids@),
                        0,
                        low,
                        high,
                    )
                    &&& model::forest_entries(
                        final(self).nodes(final(storage)@.store),
                        node::entry_views(kids@),
                        0,
                    ) == node::entry_views(entries@)
                },
                Err(error) => out_of_pages(error@, final(storage)@.store),
            },
    {
        let ghost all = node::entry_views(entries@);
        let ghost fine = model::within(all, low, high);
        let ghost short = compact::keys_short(all);
        let ends = match partition_leaves(entries) {
            Ok(ends) => ends,
            Err(error) => {
                proof {
                    let i = choose|i: int|
                        0 <= i < entries@.len() && (#[trigger] entries@[i])@.key.len()
                            > MAX_KEY_LENGTH;
                    assert(all[i] == entries@[i]@);
                }
                return Err(error);
            },
        };
        let mut kids: Vec<IndexEntry> = Vec::new();
        let mut start: usize = 0;
        let mut group: usize = 0;
        proof {
            assert(node::entry_views(kids@) =~= Seq::empty());
            assert(all.take(0) =~= Seq::empty());
        }
        while group < ends.len()
            invariant
                storage@.wf(),
                storage@.options == old(storage)@.options,
                self.wf(storage@.store),
                old(self).wf(old(storage)@.store),
                grown(old(self), old(storage)@.store, self, storage@.store),
                self.root == old(self).root,
                all == node::entry_views(entries@),
                fine == model::within(all, low, high),
                leaf_runs(all, ends@),
                steps::leaves_from(old(self).desk(old(storage)@.store), all, 0, Seq::empty())
                    == steps::leaves_from(
                    self.desk(storage@.store),
                    all,
                    start as int,
                    node::entry_views(kids@),
                ),
                all_fit(old(self).overlay@) ==> all_fit(self.overlay@),
                short == compact::keys_short(all),
                short && compact::overlay_compact(old(self).overlay@) ==> compact::overlay_compact(
                    self.overlay@,
                ),
                short ==> compact::keys_short(node::entry_views(kids@)),
                kids@.len() == group,
                group <= ends@.len(),
                start == run_start(ends@, group as int),
                fine ==> model::is_grove(
                    self.nodes(storage@.store),
                    self.pages(),
                    node::entry_views(kids@),
                    0,
                    low,
                    model::bound_at(all, start as int, high),
                ),
                fine ==> model::forest_entries(
                    self.nodes(storage@.store),
                    node::entry_views(kids@),
                    0,
                ) == all.take(start as int),
            decreases ends@.len() - group,
        {
            let end: usize = ends[group];
            assert(run_start(ends@, group as int) < ends@[group as int]);
            let run = copy_entries(entries, start, end);
            let ghost run_view = node::entry_views(run@);
            proof {
                assert(run_view =~= all.subrange(start as int, end as int));
                if end < all.len() {
                    let longer = all.subrange(start as int, end + 1);
                    assert(longer.drop_last() =~= all.subrange(start as int, end as int));
                    assert(longer.last() == all[end as int]);
                }
                steps::lemma_leaf_end(all, start as int, end as int, start as int);
                assert(all[start as int] == entries@[start as int]@);
            }
            let first_key = copy_bytes(entries[start].key.as_slice());
            let ghost before = *self;
            let ghost state = storage@.store;
            let page_id = match self.allocate(storage, Node::Leaf { entries: run, next: None }) {
                Ok(page_id) => page_id,
                Err(error) => {
                    proof {
                        lemma_grown_trans(
                            old(self),
                            old(storage)@.store,
                            &before,
                            state,
                            self,
                            storage@.store,
                        );
                    }
                    return Err(error);
                },
            };
            let kid = IndexEntry { key: first_key, value: page_id };
            let ghost kids_before = node::entry_views(kids@);
            kids.push(kid);
            proof {
                if short {
                    lemma_run_compact(
                        &before,
                        self,
                        all,
                        start as int,
                        end as int,
                        page_id.0,
                        kids_before,
                        kid@,
                    );
                }
                lemma_grown_trans(
                    old(self),
                    old(storage)@.store,
                    &before,
                    state,
                    self,
                    storage@.store,
                );
                assert(node::entry_views(kids@) =~= kids_before.push(kid@));
                if fine {
                    lemma_grown_agrees(&before, state, self, storage@.store);
                    lemma_leaf_made(
                        before.nodes(state),
                        before.pages(),
                        self.nodes(storage@.store),
                        self.pages(),
                        all,
                        start as int,
                        end as int,
                        page_id.0,
                        kids_before,
                        low,
                        high,
                    );
                    assert(kid@ == EntryView { key: all[start as int].key, value: page_id.0 });
                }
            }
            start = end;
            group = group + 1;
        }
        proof {
            if all.len() == 0 {
                assert(ends@.len() == 0) by {
                    if ends@.len() > 0 {
                        assert(run_start(ends@, 0) < ends@[0] <= all.len());
                    }
                }
            }
            assert(start == all.len());
            assert(all.take(start as int) =~= all);
            if node::items_size(all) <= 2 * compact::NODE_CAPACITY {
                compact::lemma_few_leaves(all, ends@);
            }
        }
        Ok(kids)
    }
}

/// One more run of entries with short keys on a new leaf.
proof fn lemma_run_compact(
    before: &Editor,
    after: &Editor,
    all: Seq<EntryView>,
    start: int,
    end: int,
    page: u64,
    kids: Seq<EntryView>,
    kid: EntryView,
)
    requires
        compact::keys_short(all),
        compact::keys_short(kids),
        0 <= start < end <= all.len(),
        NODE_HEADER_SIZE + node::items_size(all.subrange(start, end)) <= MAX_PAGE_PAYLOAD,
        after.overlay@.contains_key(page),
        after.overlay@ == before.overlay@.insert(page, after.overlay@[page]),
        after.overlay@[page]@ == (NodeView::Leaf { entries: all.subrange(start, end), next: None }),
        kid.key == all[start].key,
    ensures
        compact::overlay_compact(before.overlay@) ==> compact::overlay_compact(after.overlay@),
        compact::keys_short(kids.push(kid)),
{
    compact::lemma_short_part(all, start, end);
    if compact::overlay_compact(before.overlay@) {
        compact::lemma_overlay_insert(before.overlay@, page, after.overlay@[page]);
    }
}

/// One more run of children with short keys under a new node.
proof fn lemma_level_compact(
    before: &Editor,
    after: &Editor,
    all: Seq<EntryView>,
    start: int,
    end: int,
    page: u64,
    level: u16,
    parents: Seq<EntryView>,
    parent: EntryView,
)
    requires
        compact::keys_short(all),
        compact::keys_short(parents),
        0 <= start < end <= all.len(),
        NODE_HEADER_SIZE + node::items_size(all.subrange(start + 1, end)) <= MAX_PAGE_PAYLOAD,
        after.overlay@.contains_key(page),
        after.overlay@ == before.overlay@.insert(page, after.overlay@[page]),
        after.overlay@[page]@ == (NodeView::Internal {
            level,
            first_child: all[start].value,
            separators: all.subrange(start + 1, end),
        }),
        parent.key == all[start].key,
    ensures
        compact::overlay_compact(before.overlay@) ==> compact::overlay_compact(after.overlay@),
        compact::keys_short(parents.push(parent)),
{
    compact::lemma_short_part(all, start + 1, end);
    if compact::overlay_compact(before.overlay@) {
        compact::lemma_overlay_insert(before.overlay@, page, after.overlay@[page]);
    }
}

/// One more run of entries on a new leaf.
proof fn lemma_leaf_made(
    nodes: Map<u64, NodeView>,
    pages: Set<u64>,
    new_nodes: Map<u64, NodeView>,
    new_pages: Set<u64>,
    all: Seq<EntryView>,
    start: int,
    end: int,
    page: u64,
    kids: Seq<EntryView>,
    low: Option<Seq<u8>>,
    high: Option<Seq<u8>>,
)
    requires
        model::agrees(nodes, pages, new_nodes, new_pages),
        page != u64::MAX,
        new_pages.contains(page),
        new_nodes.contains_key(page),
        new_nodes[page] matches NodeView::Leaf { entries, next } && entries == all.subrange(
            start,
            end,
        ),
        0 <= start < end <= all.len(),
        model::within(all, low, high),
        model::is_grove(nodes, pages, kids, 0, low, model::bound_at(all, start, high)),
        model::forest_entries(nodes, kids, 0) == all.take(start),
    ensures
        model::is_grove(
            new_nodes,
            new_pages,
            kids.push(EntryView { key: all[start].key, value: page }),
            0,
            low,
            model::bound_at(all, end, high),
        ),
        model::forest_entries(
            new_nodes,
            kids.push(EntryView { key: all[start].key, value: page }),
            0,
        ) == all.take(end),
{
    let kid = EntryView { key: all[start].key, value: page };
    let run = all.subrange(start, end);
    let bound = model::bound_at(all, end, high);
    model::lemma_grove_frame(nodes, pages, new_nodes, new_pages, kids, 0, low, Some(kid.key));
    model::lemma_within_take(all, low, high, end);
    model::lemma_within_skip(all.take(end), low, bound, start);
    assert(all.take(end).skip(start) =~= run);
    assert(all.take(end)[start] == all[start]);
    assert(model::is_tree(new_nodes, new_pages, page, 0, Some(kid.key), bound));
    assert(model::above(kid.key, low));
    assert(model::below(kid.key, bound)) by {
        if end < all.len() {
            assert(key::key_lt(all[start].key, all[end].key));
        }
    }
    model::lemma_grove_push(new_nodes, new_pages, kids, kid, 0, low, bound);
    assert(all.take(start) + run =~= all.take(end));
}

impl Editor {
    /// Puts children under new internal nodes.
    pub fn make_internal_level(
        &mut self,
        storage: &mut GroupCommitHandle,
        level: u16,
        kids: &Vec<IndexEntry>,
        Ghost(low): Ghost<Option<Seq<u8>>>,
        Ghost(high): Ghost<Option<Seq<u8>>>,
    ) -> (parents: Result<Vec<IndexEntry>, IndexError>)
        requires
            old(storage)@.wf(),
            old(self).wf(old(storage)@.store),
        ensures
            final(storage)@.wf(),
            final(storage)@.options == old(storage)@.options,
            final(self).wf(final(storage)@.store),
            grown(old(self), old(storage)@.store, final(self), final(storage)@.store),
            final(self).root == old(self).root,
            (forall|i: int|
                0 <= i < kids@.len() ==> (#[trigger] kids@[i])@.key.len() <= MAX_KEY_LENGTH) ==> (
                final(self).desk(final(storage)@.store),
                kids_view(parents),
            ) == steps::parents_from(
                old(self).desk(old(storage)@.store),
                level,
                node::entry_views(kids@),
                0,
                Seq::empty(),
            ),
            all_fit(old(self).overlay@) ==> all_fit(final(self).overlay@),
            parents matches Ok(parents) ==> 2 * parents@.len() <= kids@.len() + 1,
            compact::keys_short(node::entry_views(kids@)) ==> {
                &&& compact::overlay_compact(old(self).overlay@) ==> compact::overlay_compact(
                    final(self).overlay@,
                )
                &&& parents matches Ok(parents) ==> compact::keys_short(
                    node::entry_views(parents@),
                )
            },
            node::items_size(node::entry_views(kids@)) <= 3 * compact::NODE_CAPACITY ==> (
            parents matches Ok(parents) ==> parents@.len() <= 3),
            level > 0 && model::is_grove(
                old(self).nodes(old(storage)@.store),
                old(self).pages(),
                node::entry_views(kids@),
                (level - 1) as nat,
                low,
                high,
            ) ==> match parents {
                Ok(parents) => {
                    &&& model::is_grove(
                        final(self).nodes(final(storage)@.store),
                        final(self).pages(),
                        node::entry_views(parents@),
                        level as nat,
                        low,
                        high,
                    )
                    &&& model::forest_entries(
                        final(self).nodes(final(storage)@.store),
                        node::entry_views(parents@),
                        level as nat,
                    ) == model::forest_entries(
                        old(self).nodes(old(storage)@.store),
                        node::entry_views(kids@),
                        (level - 1) as nat,
                    )
                    &&& kids@.len() > 0 ==> parents@.len() > 0
                },
                Err(error) => out_of_pages(error@, final(storage)@.store),
            },
    {
        let ghost all = node::entry_views(kids@);
        let ghost under = (level - 1) as nat;
        let ghost fine = level > 0 && model::is_grove(
            self.nodes(storage@.store),
            self.pages(),
            all,
            under,
            low,
            high,
        );
        let ghost content = model::forest_entries(self.nodes(storage@.store), all, under);
        let ghost short = compact::keys_short(all);
        let ends = match partition_internal(kids) {
            Ok(ends) => ends,
            Err(error) => {
                proof {
                    let i = choose|i: int|
                        0 <= i < kids@.len() && (#[trigger] kids@[i])@.key.len() > MAX_KEY_LENGTH;
                    assert(all[i] == kids@[i]@);
                }
                return Err(error);
            },
        };
        let mut parents: Vec<IndexEntry> = Vec::new();
        let mut start: usize = 0;
        let mut group: usize = 0;
        proof {
            assert(node::entry_views(parents@) =~= Seq::empty());
            assert(all.take(0) =~= Seq::empty());
        }
        while group < ends.len()
            invariant
                storage@.wf(),
                storage@.options == old(storage)@.options,
                self.wf(storage@.store),
                old(self).wf(old(storage)@.store),
                grown(old(self), old(storage)@.store, self, storage@.store),
                self.root == old(self).root,
                all == node::entry_views(kids@),
                fine ==> level > 0,
                under == (level - 1) as nat,
                internal_runs(all, ends@),
                steps::parents_from(
                    old(self).desk(old(storage)@.store),
                    level,
                    all,
                    0,
                    Seq::empty(),
                ) == steps::parents_from(
                    self.desk(storage@.store),
                    level,
                    all,
                    start as int,
                    node::entry_views(parents@),
                ),
                all_fit(old(self).overlay@) ==> all_fit(self.overlay@),
                short == compact::keys_short(all),
                short && compact::overlay_compact(old(self).overlay@) ==> compact::overlay_compact(
                    self.overlay@,
                ),
                short ==> compact::keys_short(node::entry_views(parents@)),
                2 * group <= start + (if group == ends@.len() { 1int } else { 0 }),
                group <= ends@.len(),
                start == run_start(ends@, group as int),
                parents@.len() == group,
                fine ==> model::is_grove(
                    self.nodes(storage@.store),
                    self.pages(),
                    all,
                    under,
                    low,
                    high,
                ),
                fine ==> content == model::forest_entries(self.nodes(storage@.store), all, under),
                fine ==> model::is_grove(
                    self.nodes(storage@.store),
                    self.pages(),
                    node::entry_views(parents@),
                    level as nat,
                    low,
                    model::bound_at(all, start as int, high),
                ),
                fine ==> model::forest_entries(
                    self.nodes(storage@.store),
                    node::entry_views(parents@),
                    level as nat,
                ) == model::forest_entries(
                    self.nodes(storage@.store),
                    all.take(start as int),
                    under,
                ),
            decreases ends@.len() - group,
        {
            let end: usize = ends[group];
            assert(run_start(ends@, group as int) < ends@[group as int]);
            let separators = copy_entries(kids, start + 1, end);
            proof {
                assert(node::entry_views(separators@) =~= all.subrange(start + 1, end as int));
                if end < all.len() {
                    let longer = all.subrange(start + 1, end + 1);
                    assert(longer.drop_last() =~= all.subrange(start + 1, end as int));
                    assert(longer.last() == all[end as int]);
                }
                steps::lemma_group_end(all, start as int, end as int, start + 1);
                assert(all[start as int] == kids@[start as int]@);
            }
            let first_key = copy_bytes(kids[start].key.as_slice());
            let ghost before = *self;
            let ghost state = storage@.store;
            let made = Node::Internal { level, first_child: kids[start].value, separators };
            let page_id = match self.allocate(storage, made) {
                Ok(page_id) => page_id,
                Err(error) => {
                    proof {
                        lemma_grown_trans(
                            old(self),
                            old(storage)@.store,
                            &before,
                            state,
                            self,
                            storage@.store,
                        );
                    }
                    return Err(error);
                },
            };
            let parent = IndexEntry { key: first_key, value: page_id };
            let ghost parents_before = node::entry_views(parents@);
            parents.push(parent);
            proof {
                if short {
                    assert(all[start as int] == kids@[start as int]@);
                    lemma_level_compact(
                        &before,
                        self,
                        all,
                        start as int,
                        end as int,
                        page_id.0,
                        level,
                        parents_before,
                        parent@,
                    );
                }
                lemma_grown_trans(
                    old(self),
                    old(storage)@.store,
                    &before,
                    state,
                    self,
                    storage@.store,
                );
                assert(node::entry_views(parents@) =~= parents_before.push(parent@));
                if fine {
                    lemma_parent_made(
                        &before,
                        state,
                        self,
                        storage@.store,
                        all,
                        start as int,
                        end as int,
                        page_id.0,
                        parents_before,
                        level,
                        low,
                        high,
                    );
                    assert(parent@ == EntryView { key: all[start as int].key, value: page_id.0 });
                }
            }
            start = end;
            group = group + 1;
        }
        proof {
            if all.len() == 0 {
                assert(ends@.len() == 0) by {
                    if ends@.len() > 0 {
                        assert(run_start(ends@, 0) < ends@[0] <= all.len());
                    }
                }
            }
            assert(start == all.len());
            assert(all.take(start as int) =~= all);
            if node::items_size(all) <= 3 * compact::NODE_CAPACITY {
                compact::lemma_few_parents(all, ends@);
            }
        }
        Ok(parents)
    }
}

#[verifier::rlimit(40)]
#[verifier::spinoff_prover]
proof fn lemma_parent_made(
    before: &Editor,
    state: StoreView,
    after: &Editor,
    reached: StoreView,
    all: Seq<EntryView>,
    start: int,
    end: int,
    page: u64,
    parents: Seq<EntryView>,
    level: u16,
    low: Option<Seq<u8>>,
    high: Option<Seq<u8>>,
)
    requires
        grown(before, state, after, reached),
        before.wf(state),
        after.wf(reached),
        page != u64::MAX,
        level > 0,
        0 <= start < end <= all.len(),
        after.overlay@.contains_key(page),
        after.overlay@[page]@ == (NodeView::Internal {
            level,
            first_child: all[start].value,
            separators: all.subrange(start + 1, end),
        }),
        model::is_grove(before.nodes(state), before.pages(), all, (level - 1) as nat, low, high),
        model::is_grove(
            before.nodes(state),
            before.pages(),
            parents,
            level as nat,
            low,
            model::bound_at(all, start, high),
        ),
        model::forest_entries(before.nodes(state), parents, level as nat) == model::forest_entries(
            before.nodes(state),
            all.take(start),
            (level - 1) as nat,
        ),
    ensures
        model::is_grove(after.nodes(reached), after.pages(), all, (level - 1) as nat, low, high),
        model::forest_entries(after.nodes(reached), all, (level - 1) as nat)
            == model::forest_entries(before.nodes(state), all, (level - 1) as nat),
        model::is_grove(
            after.nodes(reached),
            after.pages(),
            parents.push(EntryView { key: all[start].key, value: page }),
            level as nat,
            low,
            model::bound_at(all, end, high),
        ),
        model::forest_entries(
            after.nodes(reached),
            parents.push(EntryView { key: all[start].key, value: page }),
            level as nat,
        ) == model::forest_entries(after.nodes(reached), all.take(end), (level - 1) as nat),
{
    let parent = EntryView { key: all[start].key, value: page };
    let nodes = after.nodes(reached);
    let pages = after.pages();
    let under = (level - 1) as nat;
    let run = all.subrange(start, end);
    let bound = model::bound_at(all, end, high);
    lemma_grown_agrees(before, state, after, reached);
    model::lemma_grove_frame(
        before.nodes(state),
        before.pages(),
        nodes,
        pages,
        all,
        under,
        low,
        high,
    );
    model::lemma_grove_frame(
        before.nodes(state),
        before.pages(),
        nodes,
        pages,
        parents,
        level as nat,
        low,
        Some(parent.key),
    );
    if start > 0 {
        model::lemma_trees_take(before.nodes(state), before.pages(), all, under, high, start);
        model::lemma_forest_frame(
            before.nodes(state),
            before.pages(),
            nodes,
            pages,
            all.take(start),
            under,
            model::bound_at(all, start, high),
        );
    } else {
        assert(all.take(0) =~= Seq::empty());
    }
    model::lemma_grove_run(nodes, pages, all, under, low, high, start, end);
    assert(run.drop_first() =~= all.subrange(start + 1, end));
    assert(run[0] == all[start]);
    model::lemma_join(nodes, pages, run, page, level as nat, low, bound);
    assert(model::above(parent.key, low));
    assert(model::below(parent.key, bound)) by {
        if end < all.len() {
            assert(key::key_lt(all[start].key, all[end].key));
        }
    }
    model::lemma_grove_push(nodes, pages, parents, parent, level as nat, low, bound);
}

/// Entries after a key got a value, or lost it: every other key has what it had.
pub open spec fn changed(
    old_entries: Seq<EntryView>,
    new_entries: Seq<EntryView>,
    k: Seq<u8>,
    value: Option<u64>,
) -> bool {
    &&& forall|other: Seq<u8>| #[trigger]
        model::find(new_entries, other) == (if other == k {
            value
        } else {
            model::find(old_entries, other)
        })
    &&& new_entries.len() == old_entries.len() + (if value is Some {
        1int
    } else {
        0
    }) - (if model::find(old_entries, k) is Some {
        1int
    } else {
        0
    })
}

/// A change among some entries, seen with entries around them that lack the key.
proof fn lemma_changed_between(
    before: Seq<EntryView>,
    old_entries: Seq<EntryView>,
    new_entries: Seq<EntryView>,
    after: Seq<EntryView>,
    k: Seq<u8>,
    value: Option<u64>,
)
    requires
        changed(old_entries, new_entries, k, value),
        model::find(before, k) is None,
        model::find(after, k) is None,
    ensures
        changed(before + old_entries + after, before + new_entries + after, k, value),
{
    model::lemma_find_concat(before + old_entries, after, k);
    model::lemma_find_concat(before, old_entries, k);
    assert forall|other: Seq<u8>| #[trigger]
        model::find(before + new_entries + after, other) == (if other == k {
            value
        } else {
            model::find(before + old_entries + after, other)
        }) by {
        model::lemma_find_concat(before + old_entries, after, other);
        model::lemma_find_concat(before, old_entries, other);
        model::lemma_find_concat(before + new_entries, after, other);
        model::lemma_find_concat(before, new_entries, other);
    }
}

/// A key's place in a leaf: what is before it and what is behind it.
spec fn leaf_before(entries: Seq<EntryView>, at: int) -> Seq<EntryView> {
    entries.take(at)
}

spec fn leaf_after(entries: Seq<EntryView>, at: int, same: bool) -> Seq<EntryView> {
    entries.skip(if same {
        at + 1
    } else {
        at
    })
}

/// The entries of a leaf after a key got a value, or lost it.
spec fn leaf_changed(
    entries: Seq<EntryView>,
    at: int,
    same: bool,
    k: Seq<u8>,
    value: Option<u64>,
) -> Seq<EntryView> {
    leaf_before(entries, at) + (match value {
        Some(found) => seq![EntryView { key: k, value: found }],
        None => Seq::empty(),
    }) + leaf_after(entries, at, same)
}

proof fn lemma_leaf_changed(
    entries: Seq<EntryView>,
    at: int,
    same: bool,
    k: Seq<u8>,
    value: Option<u64>,
    low: Option<Seq<u8>>,
    high: Option<Seq<u8>>,
)
    requires
        model::within(entries, low, high),
        model::above(k, low),
        model::below(k, high),
        k.len() <= MAX_KEY_LENGTH || value is None,
        0 <= at <= entries.len(),
        same ==> at < entries.len() && entries[at].key == k,
        forall|i: int| 0 <= i < at ==> key::key_lt((#[trigger] entries[i]).key, k),
        forall|i: int|
            at <= i < entries.len() && !(same && i == at) ==> key::key_lt(
                k,
                (#[trigger] entries[i]).key,
            ),
    ensures
        model::within(leaf_changed(entries, at, same, k, value), low, high),
        changed(entries, leaf_changed(entries, at, same, k, value), k, value),
        model::find(entries, k) is Some <==> same,
{
    let before = leaf_before(entries, at);
    let after = leaf_after(entries, at, same);
    let old_middle = if same {
        seq![entries[at]]
    } else {
        Seq::empty()
    };
    let new_middle = match value {
        Some(found) => seq![EntryView { key: k, value: found }],
        None => Seq::empty(),
    };
    let all = leaf_changed(entries, at, same, k, value);
    let skipped = if same {
        at + 1
    } else {
        at
    };
    assert forall|i: int| 0 <= i < before.len() implies (#[trigger] before[i]).key != k by {
        assert(before[i] == entries[i]);
        key::lemma_key_asymmetric(entries[i].key, k);
    }
    assert forall|i: int| 0 <= i < after.len() implies (#[trigger] after[i]).key != k by {
        assert(after[i] == entries[i + skipped]);
        key::lemma_key_asymmetric(k, entries[i + skipped].key);
    }
    model::lemma_find_absent(before, k);
    model::lemma_find_absent(after, k);
    reveal_with_fuel(model::find, 2);
    assert(entries =~= before + old_middle + after);
    assert(changed(old_middle, new_middle, k, value)) by {
        if same {
            assert(old_middle.drop_last() =~= Seq::empty());
        }
        if value is Some {
            assert(new_middle.drop_last() =~= Seq::empty());
        }
    }
    lemma_changed_between(before, old_middle, new_middle, after, k, value);
    model::lemma_find_concat(before + old_middle, after, k);
    model::lemma_find_concat(before, old_middle, k);
    assert(model::find(old_middle, k) is Some <==> same) by {
        if same {
            assert(old_middle.last() == entries[at]);
        }
    }
    let count = new_middle.len() as int;
    assert forall|i: int| 0 <= i < all.len() implies #[trigger] all[i] == (if i < at {
        entries[i]
    } else if i < at + count {
        new_middle[0]
    } else {
        entries[i - at - count + skipped]
    }) by {}
    assert forall|i: int, j: int| 0 <= i < j < all.len() implies key::key_lt(
        (#[trigger] all[i]).key,
        (#[trigger] all[j]).key,
    ) by {
        if i < at && j >= at + count {
            assert(key::key_lt(entries[i].key, entries[j - at - count + skipped].key));
        }
    }
}

/// How a change alters the number of entries.
#[derive(Clone, Copy, PartialEq, Eq, Structural)]
pub enum EntryDelta {
    Same,
    Added,
    Removed,
}

/// How giving a key a value, or taking it away, alters the number of entries.
pub open spec fn entry_delta(entries: Seq<EntryView>, k: Seq<u8>, value: Option<u64>) -> EntryDelta {
    if value is None {
        EntryDelta::Removed
    } else if model::find(entries, k) is Some {
        EntryDelta::Same
    } else {
        EntryDelta::Added
    }
}

/// What became of a subtree.
pub enum Edited {
    /// There was nothing to delete.
    Unchanged,
    /// The trees that take its place, on the same level.
    Replaced(Vec<IndexEntry>, EntryDelta),
    /// The root's only remaining child, which takes its place one level below.
    Collapsed(Vec<IndexEntry>, EntryDelta),
}

/// What an edit of a subtree has to come to.
pub open spec fn edit_result(
    nodes: Map<u64, NodeView>,
    page: u64,
    level: nat,
    edited: Result<Edited, IndexError>,
    after_nodes: Map<u64, NodeView>,
    after_pages: Set<u64>,
    after_state: StoreView,
    k: Seq<u8>,
    value: Option<u64>,
    low: Option<Seq<u8>>,
    high: Option<Seq<u8>>,
) -> bool {
    let entries = model::tree_entries(nodes, page, level);
    match edited {
        Ok(Edited::Unchanged) => value is None && model::find(entries, k) is None,
        Ok(Edited::Replaced(kids, delta)) => {
            &&& model::is_grove(
                after_nodes,
                after_pages,
                node::entry_views(kids@),
                level,
                low,
                high,
            )
            &&& changed(
                entries,
                model::forest_entries(after_nodes, node::entry_views(kids@), level),
                k,
                value,
            )
            &&& value is None ==> model::find(entries, k) is Some
            &&& delta == entry_delta(entries, k, value)
        },
        Ok(Edited::Collapsed(kids, delta)) => {
            &&& level > 0
            &&& model::is_grove(
                after_nodes,
                after_pages,
                node::entry_views(kids@),
                (level - 1) as nat,
                low,
                high,
            )
            &&& changed(
                entries,
                model::forest_entries(
                    after_nodes,
                    node::entry_views(kids@),
                    (level - 1) as nat,
                ),
                k,
                value,
            )
            &&& value is None ==> model::find(entries, k) is Some
            &&& delta == entry_delta(entries, k, value)
        },
        Err(error) => out_of_pages(error@, after_state),
    }
}

/// Whether a subtree and a key are fit to be edited.
pub open spec fn edit_fits(
    nodes: Map<u64, NodeView>,
    pages: Set<u64>,
    page: u64,
    level: nat,
    first_key: Seq<u8>,
    k: Seq<u8>,
    low: Option<Seq<u8>>,
    high: Option<Seq<u8>>,
    value: Option<u64>,
) -> bool {
    &&& model::is_tree(nodes, pages, page, level, Some(first_key), high)
    &&& model::above(first_key, low)
    &&& first_key.len() <= MAX_KEY_LENGTH
    &&& model::above(k, low)
    &&& model::below(k, high)
    &&& k.len() <= MAX_KEY_LENGTH || value is None
}

pub open spec fn optional_id(value: Option<PageId>) -> Option<u64> {
    match value {
        Some(page_id) => Some(page_id.0),
        None => None,
    }
}

impl Editor {
    /// Gives a key a value in a leaf, or takes it away, and puts the entries on new leaves.
    fn edit_leaf(
        &mut self,
        storage: &mut GroupCommitHandle,
        leaf: Vec<IndexEntry>,
        wanted: &Vec<u8>,
        value: Option<PageId>,
        Ghost(low): Ghost<Option<Seq<u8>>>,
        Ghost(high): Ghost<Option<Seq<u8>>>,
    ) -> (edited: Result<Edited, IndexError>)
        requires
            old(storage)@.wf(),
            old(self).wf(old(storage)@.store),
        ensures
            final(storage)@.wf(),
            final(storage)@.options == old(storage)@.options,
            final(self).wf(final(storage)@.store),
            grown(old(self), old(storage)@.store, final(self), final(storage)@.store),
            final(self).root == old(self).root,
            edited matches Ok(edited) ==> !(edited is Collapsed),
            compact::keys_short(node::entry_views(leaf@)) && node::items_size(
                node::entry_views(leaf@),
            ) <= compact::NODE_CAPACITY && (value is Some ==> wanted@.len()
                <= compact::SHORT_KEY_LENGTH) ==> {
                &&& compact::overlay_compact(old(self).overlay@) ==> compact::overlay_compact(
                    final(self).overlay@,
                )
                &&& few_kids(edited)
            },
            model::within(node::entry_views(leaf@), low, high) && model::above(wanted@, low)
                && model::below(wanted@, high) && (wanted@.len() <= MAX_KEY_LENGTH || value is None) ==> (
                final(self).desk(final(storage)@.store),
                edited_view(edited),
            ) == steps::leaf_edited(
                old(self).desk(old(storage)@.store),
                node::entry_views(leaf@),
                wanted@,
                optional_id(value),
            ),
            model::within(node::entry_views(leaf@), low, high) && model::above(wanted@, low)
                && model::below(wanted@, high) && (wanted@.len() <= MAX_KEY_LENGTH || value is None) ==> match edited {
                Ok(Edited::Unchanged) => value is None && model::find(
                    node::entry_views(leaf@),
                    wanted@,
                ) is None,
                Ok(Edited::Replaced(kids, delta)) => {
                    &&& model::is_grove(
                        final(self).nodes(final(storage)@.store),
                        final(self).pages(),
                        node::entry_views(kids@),
                        0,
                        low,
                        high,
                    )
                    &&& changed(
                        node::entry_views(leaf@),
                        model::forest_entries(
                            final(self).nodes(final(storage)@.store),
                            node::entry_views(kids@),
                            0,
                        ),
                        wanted@,
                        optional_id(value),
                    )
                    &&& value is None ==> model::find(node::entry_views(leaf@), wanted@) is Some
                    &&& delta == entry_delta(
                        node::entry_views(leaf@),
                        wanted@,
                        optional_id(value),
                    )
                },
                Ok(Edited::Collapsed(_, _)) => false,
                Err(error) => out_of_pages(error@, final(storage)@.store),
            },
    {
        let ghost all = node::entry_views(leaf@);
        let (at, same) = search(&leaf, wanted.as_slice());
        let ghost fits = model::within(all, low, high) && model::above(wanted@, low)
            && model::below(wanted@, high) && (wanted@.len() <= MAX_KEY_LENGTH || value is None);
        proof {
            if fits {
                assert forall|i: int| 0 <= i < at implies key::key_lt(
                    (#[trigger] all[i]).key,
                    wanted@,
                ) by {
                    assert(all[i] == leaf@[i]@);
                }
                assert forall|i: int|
                    at <= i < all.len() && !(same && i == at) implies key::key_lt(
                    wanted@,
                    (#[trigger] all[i]).key,
                ) by {
                    assert(all[i] == leaf@[i]@);
                }
                assert(same ==> all[at as int] == leaf@[at as int]@);
                lemma_leaf_changed(
                    all,
                    at as int,
                    same,
                    wanted@,
                    optional_id(value),
                    low,
                    high,
                );
            }
        }
        let mut entries = leaf;
        let mut delta = EntryDelta::Removed;
        match value {
            Some(page_id) => {
                delta = if same {
                    EntryDelta::Same
                } else {
                    EntryDelta::Added
                };
                let entry = IndexEntry { key: copy_bytes(wanted.as_slice()), value: page_id };
                if same {
                    let _ = entries.remove(at);
                }
                entries.insert(at, entry);
            },
            None => {
                if !same {
                    return Ok(Edited::Unchanged);
                }
                let _ = entries.remove(at);
            },
        }
        assert(node::entry_views(entries@) =~= leaf_changed(
            all,
            at as int,
            same,
            wanted@,
            optional_id(value),
        ));
        proof {
            if compact::keys_short(all) && node::items_size(all) <= compact::NODE_CAPACITY && (
            value is Some ==> wanted@.len() <= compact::SHORT_KEY_LENGTH) {
                lemma_leaf_size(all, at as int, same, wanted@, optional_id(value));
            }
        }
        proof {
            if fits {
                lemma_leaf_with(all, at as int, same, wanted@, optional_id(value));
                let changed_views = node::entry_views(entries@);
                assert forall|i: int| 0 <= i < entries@.len() implies (
                #[trigger] entries@[i])@.key.len() <= MAX_KEY_LENGTH by {
                    assert(changed_views[i] == entries@[i]@);
                }
            }
        }
        match self.make_leaves(storage, &entries, Ghost(low), Ghost(high)) {
            Err(error) => Err(error),
            Ok(kids) => Ok(Edited::Replaced(kids, delta)),
        }
    }
}

/// The entries of a changed leaf by the place of the key.
proof fn lemma_leaf_with(
    entries: Seq<EntryView>,
    at: int,
    same: bool,
    k: Seq<u8>,
    value: Option<u64>,
)
    requires
        0 <= at <= entries.len(),
        same ==> at < entries.len() && entries[at].key == k,
        model::find(entries, k) is Some <==> same,
        forall|i: int| 0 <= i < at ==> key::key_lt((#[trigger] entries[i]).key, k),
        forall|i: int|
            at <= i < entries.len() && !(same && i == at) ==> key::key_lt(
                k,
                (#[trigger] entries[i]).key,
            ),
    ensures
        steps::leaf_with(entries, k, value) == leaf_changed(entries, at, same, k, value),
{
    let split = if same {
        at + 1
    } else {
        at
    };
    assert forall|i: int| split <= i < entries.len() implies !key::key_le(
        (#[trigger] entries[i]).key,
        k,
    ) by {
        key::lemma_key_asymmetric(k, entries[i].key);
    }
    if split > 0 {
        assert(key::key_le(entries[split - 1].key, k)) by {
            if split - 1 < at {
                assert(key::key_lt(entries[split - 1].key, k));
            }
        }
    }
    read::lemma_rank(entries, k, split);
    assert(steps::leaf_with(entries, k, value) =~= leaf_changed(entries, at, same, k, value));
}

/// Whether what came out of an edit is few trees, with short keys.
pub open spec fn few_kids(edited: Result<Edited, IndexError>) -> bool {
    match edited {
        Ok(Edited::Replaced(kids, _)) | Ok(Edited::Collapsed(kids, _)) => kids@.len() <= 3
            && compact::keys_short(node::entry_views(kids@)),
        _ => true,
    }
}

/// A leaf with short keys stays small when one of them gets a value or loses it.
proof fn lemma_leaf_size(
    entries: Seq<EntryView>,
    at: int,
    same: bool,
    k: Seq<u8>,
    value: Option<u64>,
)
    requires
        0 <= at <= entries.len(),
        same ==> at < entries.len(),
        compact::keys_short(entries),
        node::items_size(entries) <= compact::NODE_CAPACITY,
        value is Some ==> k.len() <= compact::SHORT_KEY_LENGTH,
    ensures
        compact::keys_short(leaf_changed(entries, at, same, k, value)),
        node::items_size(leaf_changed(entries, at, same, k, value)) <= 2 * compact::NODE_CAPACITY,
{
    let head = leaf_before(entries, at);
    let tail = leaf_after(entries, at, same);
    let middle = match value {
        Some(found) => seq![EntryView { key: k, value: found }],
        None => Seq::empty(),
    };
    let all = leaf_changed(entries, at, same, k, value);
    let from = if same {
        at + 1
    } else {
        at
    };
    assert forall|i: int| 0 <= i < all.len() implies (#[trigger] all[i]).key.len()
        <= compact::SHORT_KEY_LENGTH by {
        if i < at {
            assert(all[i] == entries[i]);
        } else if i < at + middle.len() {
            assert(all[i] == middle[i - at]);
        } else {
            assert(all[i] == entries[i - at - middle.len() + from]);
        }
    }
    compact::lemma_size_joined(head + middle, tail);
    compact::lemma_size_joined(head, middle);
    compact::lemma_size_parts(entries, 0, at, from, entries.len() as int);
    assert(entries.subrange(0, at) =~= head);
    assert(entries.subrange(from, entries.len() as int) =~= tail);
    if let Some(found) = value {
        compact::lemma_size_one(EntryView { key: k, value: found });
    }
}

/// Puts trees in the place of the child at `at`.
fn splice_kids(kids: Vec<IndexEntry>, at: usize, fresh: Vec<IndexEntry>) -> (spliced: Vec<IndexEntry>)
    requires
        at < kids@.len(),
    ensures
        node::entry_views(spliced@) == model::spliced(
            node::entry_views(kids@),
            at as int,
            node::entry_views(fresh@),
        ),
        spliced@.len() == kids@.len() - 1 + fresh@.len(),
{
    let length: usize = kids.len();
    let mut spliced = kids;
    let mut middle = fresh;
    let mut tail = spliced.split_off(at + 1);
    let _ = spliced.pop();
    spliced.append(&mut middle);
    spliced.append(&mut tail);
    assert(node::entry_views(spliced@) =~= model::spliced(
        node::entry_views(kids@),
        at as int,
        node::entry_views(fresh@),
    ));
    spliced
}

/// An edit of one child, seen from its parent.
proof fn lemma_child_edited(
    before: &Editor,
    state: StoreView,
    after: &Editor,
    reached: StoreView,
    kids: Seq<EntryView>,
    at: int,
    fresh: Seq<EntryView>,
    level: nat,
    low: Option<Seq<u8>>,
    high: Option<Seq<u8>>,
    k: Seq<u8>,
    value: Option<u64>,
)
    requires
        grown(before, state, after, reached),
        before.wf(state),
        after.wf(reached),
        0 <= at < kids.len(),
        model::is_grove(before.nodes(state), before.pages(), kids, level, low, high),
        at > 0 ==> key::key_le(kids[at].key, k),
        at + 1 < kids.len() ==> key::key_lt(k, kids[at + 1].key),
        model::is_grove(
            after.nodes(reached),
            after.pages(),
            fresh,
            level,
            model::child_low(kids, at, low),
            model::bound_at(kids, at + 1, high),
        ),
        changed(
            model::tree_entries(before.nodes(state), kids[at].value, level),
            model::forest_entries(after.nodes(reached), fresh, level),
            k,
            value,
        ),
    ensures
        model::is_grove(
            after.nodes(reached),
            after.pages(),
            model::spliced(kids, at, fresh),
            level,
            low,
            high,
        ),
        changed(
            model::forest_entries(before.nodes(state), kids, level),
            model::forest_entries(after.nodes(reached), model::spliced(kids, at, fresh), level),
            k,
            value,
        ),
        model::find(model::forest_entries(before.nodes(state), kids, level), k) == model::find(
            model::tree_entries(before.nodes(state), kids[at].value, level),
            k,
        ),
{
    let nodes = before.nodes(state);
    let pages = before.pages();
    let new_nodes = after.nodes(reached);
    let new_pages = after.pages();
    lemma_grown_agrees(before, state, after, reached);
    model::lemma_grove_frame(nodes, pages, new_nodes, new_pages, kids, level, low, high);
    model::lemma_splice(new_nodes, new_pages, kids, at, fresh, level, low, high);
    model::lemma_trees_take(nodes, pages, kids, level, high, at);
    model::lemma_forest_frame(
        nodes,
        pages,
        new_nodes,
        new_pages,
        kids.take(at),
        level,
        model::bound_at(kids, at, high),
    );
    model::lemma_trees_skip(nodes, pages, kids, level, high, at + 1);
    model::lemma_forest_frame(
        nodes,
        pages,
        new_nodes,
        new_pages,
        kids.skip(at + 1),
        level,
        high,
    );
    read::lemma_find_in_kid(nodes, pages, kids, level, low, high, at, k);
    lemma_changed_between(
        model::forest_entries(nodes, kids.take(at), level),
        model::tree_entries(nodes, kids[at].value, level),
        model::forest_entries(new_nodes, fresh, level),
        model::forest_entries(nodes, kids.skip(at + 1), level),
        k,
        value,
    );
}

impl Editor {
    /// Gives a key a value under a page, or takes it away, copying the nodes on the way.
    #[verifier::rlimit(100)]
    #[verifier::spinoff_prover]
    fn edit_node(
        &mut self,
        storage: &mut GroupCommitHandle,
        cache: &mut NodeCache,
        page_id: PageId,
        level: u16,
        first_key: Vec<u8>,
        wanted: &Vec<u8>,
        value: Option<PageId>,
        is_root: bool,
        Ghost(low): Ghost<Option<Seq<u8>>>,
        Ghost(high): Ghost<Option<Seq<u8>>>,
    ) -> (edited: Result<Edited, IndexError>)
        requires
            old(storage)@.wf(),
            old(self).wf(old(storage)@.store),
            old(cache).wf(),
            read::cache_true(old(cache)@, old(storage)@.store),
        ensures
            final(storage)@.wf(),
            final(storage)@.options == old(storage)@.options,
            final(self).wf(final(storage)@.store),
            final(cache).wf(),
            read::cache_true(final(cache)@, final(storage)@.store),
            grown(old(self), old(storage)@.store, final(self), final(storage)@.store),
            final(self).root == old(self).root,
            edited matches Ok(Edited::Collapsed(kids, delta)) ==> is_root && kids@.len() == 1 && level > 0,
            compact::overlay_compact(old(self).overlay@) && compact::store_compact(
                old(storage)@.store,
            ) && first_key@.len() <= compact::SHORT_KEY_LENGTH && (value is Some ==> wanted@.len()
                <= compact::SHORT_KEY_LENGTH) ==> compact::overlay_compact(final(self).overlay@)
                && few_kids(edited),
            edit_fits(
                old(self).nodes(old(storage)@.store),
                old(self).pages(),
                page_id.0,
                level as nat,
                first_key@,
                wanted@,
                low,
                high,
                optional_id(value),
            ) ==> (final(self).desk(final(storage)@.store), edited_view(edited))
                == steps::node_edited(
                old(self).desk(old(storage)@.store),
                page_id.0,
                level as nat,
                first_key@,
                wanted@,
                optional_id(value),
                is_root,
            ),
            edit_fits(
                old(self).nodes(old(storage)@.store),
                old(self).pages(),
                page_id.0,
                level as nat,
                first_key@,
                wanted@,
                low,
                high,
                optional_id(value),
            ) ==> edit_result(
                old(self).nodes(old(storage)@.store),
                page_id.0,
                level as nat,
                edited,
                final(self).nodes(final(storage)@.store),
                final(self).pages(),
                final(storage)@.store,
                wanted@,
                optional_id(value),
                low,
                high,
            ),
            steps::damage_on_way(
                old(self).desk(old(storage)@.store),
                page_id.0,
                level as nat,
                first_key@,
                wanted@,
            ) matches Some(damage) ==> {
                &&& edited_view(edited) == Err::<steps::EditedView, IndexErrorView>(damage)
                &&& final(self).desk(final(storage)@.store) == old(self).desk(old(storage)@.store)
            },
        decreases level,
    {
        let ghost start = *self;
        let ghost start_state = storage@.store;
        let ghost nodes = self.nodes(storage@.store);
        let ghost pages = self.pages();
        let ghost fits = edit_fits(
            nodes,
            pages,
            page_id.0,
            level as nat,
            first_key@,
            wanted@,
            low,
            high,
            optional_id(value),
        );
        proof {
            steps::lemma_damage_on_way(
                self.desk(storage@.store),
                page_id.0,
                level as nat,
                first_key@,
                wanted@,
            );
        }
        let found = match self.read(storage, cache, page_id) {
            Ok(found) => found,
            Err(error) => {
                return Err(error);
            },
        };
        let ghost small = compact::overlay_compact(self.overlay@) && compact::store_compact(
            storage@.store,
        ) && first_key@.len() <= compact::SHORT_KEY_LENGTH && (value is Some ==> wanted@.len()
            <= compact::SHORT_KEY_LENGTH);
        proof {
            if small {
                compact::lemma_found_compact(self.overlay@, storage@.store, nodes, page_id.0);
            }
        }
        let ghost first_desk = self.desk(storage@.store);
        proof {
            if fits {
                assert(steps::node_at(first_desk, page_id.0) == found@);
                steps::lemma_node_edited(
                    first_desk,
                    page_id.0,
                    level as nat,
                    first_key@,
                    wanted@,
                    optional_id(value),
                    is_root,
                );
            }
        }
        let found_level: u16 = found.level();
        if found_level != level {
            return Err(corrupt(page_id, "node level does not match tree height"));
        }
        match found {
            Node::Leaf { entries, next } => {
                proof {
                    if fits {
                        lemma_leaf_bounds(node::entry_views(entries@), first_key@, low, high);
                    }
                }
                self.edit_leaf(storage, entries, wanted, value, Ghost(low), Ghost(high))
            },
            Node::Internal { level: own, first_child, separators } => {
                let ghost separator_views = node::entry_views(separators@);
                let mut tail = separators;
                let ghost first = first_key@;
                let mut kids: Vec<IndexEntry> = Vec::new();
                kids.push(IndexEntry { key: first_key, value: first_child });
                kids.append(&mut tail);
                let ghost all = node::entry_views(kids@);
                let ghost under = (level - 1) as nat;
                proof {
                    assert(all =~= model::kids_of(first, first_child.0, separator_views));
                    if fits {
                        model::lemma_kids(
                            nodes,
                            pages,
                            page_id.0,
                            level as nat,
                            low,
                            high,
                            first,
                        );
                    }
                }
                proof {
                    if small {
                        lemma_kids_short(all, first, first_child.0, separator_views);
                    }
                }
                let count: usize = read::count_up_to(&kids, wanted.as_slice());
                let at: usize = if count == 0 {
                    0
                } else {
                    count - 1
                };
                proof {
                    if fits {
                        assert(node::keys_rise(all));
                    }
                    if node::keys_rise(all) {
                        assert(at == steps::child_number(all, wanted@));
                    }
                }
                let child = kids[at].value;
                if level == 0 {
                    return Err(corrupt(child, "internal node below leaf level"));
                }
                let child_key = copy_bytes(kids[at].key.as_slice());
                let ghost child_low = model::child_low(all, at as int, low);
                let ghost child_high = model::bound_at(all, at + 1, high);
                proof {
                    assert(all[at as int] == kids@[at as int]@);
                    if fits {
                        if at > 0 {
                            assert(key::key_le(kids@[at as int]@.key, wanted@));
                        }
                        if at + 1 < all.len() {
                            assert(all[at + 1] == kids@[at + 1]@);
                            if count == 0 {
                                assert(key::key_lt(wanted@, kids@[0]@.key));
                                assert(key::key_lt(all[0].key, all[1].key));
                                key::lemma_key_transitive(wanted@, all[0].key, all[1].key);
                            } else {
                                assert(key::key_lt(wanted@, kids@[at + 1]@.key));
                            }
                        }
                        assert(edit_fits(
                            nodes,
                            pages,
                            child.0,
                            under,
                            child_key@,
                            wanted@,
                            child_low,
                            child_high,
                            optional_id(value),
                        ));
                    }
                }
                let edited = self.edit_node(
                    storage,
                    cache,
                    child,
                    level - 1,
                    child_key,
                    wanted,
                    value,
                    false,
                    Ghost(child_low),
                    Ghost(child_high),
                );
                match edited {
                    Err(error) => Err(error),
                    Ok(Edited::Unchanged) => {
                        proof {
                            if fits {
                                read::lemma_find_in_kid(
                                    nodes,
                                    pages,
                                    all,
                                    under,
                                    low,
                                    high,
                                    at as int,
                                    wanted@,
                                );
                            }
                        }
                        Ok(Edited::Unchanged)
                    },
                    Ok(Edited::Collapsed(_, _)) => {
                        assert(false);
                        Ok(Edited::Unchanged)
                    },
                    Ok(Edited::Replaced(fresh, delta)) => {
                        let ghost middle = *self;
                        let ghost middle_state = storage@.store;
                        let ghost fresh_views = node::entry_views(fresh@);
                        let spliced = splice_kids(kids, at, fresh);
                        proof {
                            if small {
                                compact::lemma_spliced_size(all, at as int, fresh_views);
                            }
                            if fits {
                                lemma_child_edited(
                                    &start,
                                    start_state,
                                    self,
                                    storage@.store,
                                    all,
                                    at as int,
                                    fresh_views,
                                    under,
                                    low,
                                    high,
                                    wanted@,
                                    optional_id(value),
                                );
                            }
                        }
                        proof {
                            if fits {
                                let views = node::entry_views(spliced@);
                                assert forall|i: int| 0 <= i < spliced@.len() implies (
                                #[trigger] spliced@[i])@.key.len() <= MAX_KEY_LENGTH by {
                                    assert(views[i] == spliced@[i]@);
                                }
                            }
                        }
                        if spliced.len() == 0 {
                            proof {
                                assert(node::entry_views(spliced@) =~= Seq::empty());
                            }
                            return Ok(Edited::Replaced(spliced, delta));
                        }
                        if is_root && spliced.len() == 1 {
                            return Ok(Edited::Collapsed(spliced, delta));
                        }
                        let ghost cache_before = cache@;
                        match self.make_internal_level(
                            storage,
                            level,
                            &spliced,
                            Ghost(low),
                            Ghost(high),
                        ) {
                            Err(error) => {
                                proof {
                                    lemma_grown_trans(
                                        &start,
                                        start_state,
                                        &middle,
                                        middle_state,
                                        self,
                                        storage@.store,
                                    );
                                }
                                Err(error)
                            },
                            Ok(parents) => {
                                proof {
                                    lemma_grown_trans(
                                        &start,
                                        start_state,
                                        &middle,
                                        middle_state,
                                        self,
                                        storage@.store,
                                    );
                                }
                                Ok(Edited::Replaced(parents, delta))
                            },
                        }
                    },
                }
            },
        }
    }
}

/// The children of a compact node under a short key take little room.
proof fn lemma_kids_short(
    all: Seq<EntryView>,
    first: Seq<u8>,
    child: u64,
    separators: Seq<EntryView>,
)
    requires
        all == model::kids_of(first, child, separators),
        first.len() <= compact::SHORT_KEY_LENGTH,
        compact::keys_short(separators),
        NODE_HEADER_SIZE + node::items_size(separators) <= MAX_PAGE_PAYLOAD,
    ensures
        compact::keys_short(all),
        node::items_size(all) <= compact::NODE_CAPACITY + ENTRY_OVERHEAD
            + compact::SHORT_KEY_LENGTH,
{
    let head = EntryView { key: first, value: child };
    assert(all =~= seq![head] + separators);
    compact::lemma_size_joined(seq![head], separators);
    compact::lemma_size_one(head);
    assert forall|i: int| 0 <= i < all.len() implies (#[trigger] all[i]).key.len()
        <= compact::SHORT_KEY_LENGTH by {
        if i > 0 {
            assert(all[i] == separators[i - 1]);
        }
    }
}

/// A leaf above its first key is above every lower bound of that key.
proof fn lemma_leaf_bounds(
    entries: Seq<EntryView>,
    first_key: Seq<u8>,
    low: Option<Seq<u8>>,
    high: Option<Seq<u8>>,
)
    requires
        model::within(entries, Some(first_key), high),
        model::above(first_key, low),
    ensures
        model::within(entries, low, high),
{
    model::lemma_high_reflexive(high);
    model::lemma_within_widen(entries, Some(first_key), high, low, high);
}

/// The pages not yet visited.
pub open spec fn unvisited(visited: Set<u64>) -> Set<u64> {
    Set::new(|id: u64| !visited.contains(id))
}

/// There are finitely many page numbers, so visiting a new one leaves fewer.
pub proof fn lemma_visit(visited: Set<u64>, id: u64)
    requires
        !visited.contains(id),
    ensures
        unvisited(visited.insert(id)).len() < unvisited(visited).len(),
{
    let numbers = vstd::set_lib::set_int_range(0, 0x1_0000_0000_0000_0000);
    let all = numbers.map(|i: int| i as u64);
    vstd::set_lib::lemma_int_range(0, 0x1_0000_0000_0000_0000);
    numbers.lemma_map_finite(|i: int| i as u64);
    assert(unvisited(visited).subset_of(all)) by {
        assert forall|other: u64| unvisited(visited).contains(other) implies all.contains(other) by {
            assert(numbers.contains(other as int));
            assert((other as int) as u64 == other);
        }
    }
    vstd::set_lib::lemma_set_subset_finite(all, unvisited(visited));
    assert(unvisited(visited.insert(id)) =~= unvisited(visited).remove(id));
}

impl Editor {
    /// Whether the editor's root is that of an index.
    pub open spec fn holds(&self, state: StoreView) -> bool {
        plan::root_holds(self.nodes(state), self.pages(), self.root)
    }

    /// The entries of the index.
    pub open spec fn entries(&self, state: StoreView) -> Seq<EntryView> {
        plan::root_entries(self.nodes(state), self.root)
    }

    /// The first key under a page.
    fn first_key(&self, storage: &GroupCommitHandle, cache: &mut NodeCache, root: PageId, Ghost(level): Ghost<nat>) -> (first:
        Result<Vec<u8>, IndexError>)
        requires
            storage@.wf(),
            old(cache).wf(),
            read::cache_true(old(cache)@, storage@.store),
        ensures
            final(cache).wf(),
            read::cache_true(final(cache)@, storage@.store),
            model::is_tree(
                self.nodes(storage@.store),
                self.pages(),
                root.0,
                level,
                None,
                None,
            ) ==> (first matches Ok(first) && first@ == model::tree_entries(
                self.nodes(storage@.store),
                root.0,
                level,
            )[0].key),
            compact::overlay_compact(self.overlay@) && compact::store_compact(storage@.store) ==> (
            first matches Ok(first) ==> first@.len() <= compact::SHORT_KEY_LENGTH),
            steps::first_found(self.desk(storage@.store), root.0, Set::empty()) == key_view(first),
    {
        let ghost desk = self.desk(storage@.store);
        let ghost nodes = self.nodes(storage@.store);
        let ghost pages = self.pages();
        let ghost fits = model::is_tree(nodes, pages, root.0, level, None, None);
        let ghost mut at: nat = level;
        let ghost mut high: Option<Seq<u8>> = None;
        let mut visited: HashSet<u64> = HashSet::new();
        let mut page_id = root;
        loop
            invariant
                storage@.wf(),
                cache.wf(),
                read::cache_true(cache@, storage@.store),
                nodes == self.nodes(storage@.store),
                pages == self.pages(),
                desk == self.desk(storage@.store),
                steps::first_found(desk, page_id.0, visited@) == steps::first_found(
                    desk,
                    root.0,
                    Set::empty(),
                ),
                fits == model::is_tree(nodes, pages, root.0, level, None, None),
                fits ==> model::is_tree(nodes, pages, page_id.0, at, None, high),
                fits ==> model::tree_entries(nodes, page_id.0, at)[0] == model::tree_entries(
                    nodes,
                    root.0,
                    level,
                )[0],
                fits ==> forall|id: u64| #[trigger]
                    visited@.contains(id) ==> node::node_level(nodes[id]) > at,
            decreases unvisited(visited@).len(),
        {
            proof {
                if fits {
                    model::lemma_tree_sorted(nodes, pages, page_id.0, at, None, high);
                    assert(node::node_level(nodes[page_id.0]) == at);
                }
            }
            let ghost seen = visited@;
            if !visited.insert(page_id.0) {
                return Err(corrupt(page_id, "index tree contains a page cycle"));
            }
            proof {
                lemma_visit(seen, page_id.0);
            }
            match self.read(storage, cache, page_id) {
                Err(error) => {
                    return Err(error);
                },
                Ok(Node::Leaf { entries, next }) => {
                    if entries.len() == 0 {
                        return Err(corrupt(page_id, "reachable leaf is empty"));
                    }
                    proof {
                        assert(node::entry_views(entries@)[0] == entries@[0]@);
                        if compact::overlay_compact(self.overlay@) && compact::store_compact(
                            storage@.store,
                        ) {
                            compact::lemma_found_compact(
                                self.overlay@,
                                storage@.store,
                                nodes,
                                page_id.0,
                            );
                        }
                    }
                    return Ok(copy_bytes(entries[0].key.as_slice()));
                },
                Ok(Node::Internal { level: own, first_child, separators }) => {
                    proof {
                        if fits {
                            let under = (at - 1) as nat;
                            let bound = model::bound_at(
                                node::entry_views(separators@),
                                0,
                                high,
                            );
                            model::lemma_tree_sorted(
                                nodes,
                                pages,
                                first_child.0,
                                under,
                                None,
                                bound,
                            );
                            at = under;
                            high = bound;
                        }
                    }
                    page_id = first_child;
                },
            }
        }
    }
}

/// Trees side by side that make up a whole index, brought under one root.
pub proof fn lemma_rooted(
    nodes: Map<u64, NodeView>,
    pages: Set<u64>,
    kids: Seq<EntryView>,
    level: nat,
)
    requires
        kids.len() == 1,
        model::is_grove(nodes, pages, kids, level, None, None),
    ensures
        model::is_tree(nodes, pages, kids[0].value, level, None, None),
        model::tree_entries(nodes, kids[0].value, level) == model::forest_entries(
            nodes,
            kids,
            level,
        ),
{
    assert(model::bound_at(kids, 1, None) == None::<Seq<u8>>);
    model::lemma_tree_widen(
        nodes,
        pages,
        kids[0].value,
        level,
        Some(kids[0].key),
        None,
        None,
        None,
    );
    assert(kids =~= seq![kids[0]]);
    model::lemma_forest_one(nodes, kids[0], level);
}

/// Why a change was refused.
pub open spec fn apply_refused(
    root: Option<IndexRoot>,
    mutation: MutationView,
    error: IndexErrorView,
    state: StoreView,
) -> bool {
    ||| out_of_pages(error, state)
    ||| mutation is Upsert && plan::mutation_key(mutation).len() > MAX_KEY_LENGTH && error == (
    IndexErrorView::KeyTooLarge {
        actual: plan::mutation_key(mutation).len() as usize,
        maximum: MAX_KEY_LENGTH,
    })
    ||| error == IndexErrorView::EntryCountOverflow && root is Some && (root->0.height == u16::MAX
        || root->0.entries == u64::MAX)
}

impl Editor {
    /// Makes the trees that came out of an edit the index.
    fn set_root(
        &mut self,
        storage: &mut GroupCommitHandle,
        kids: &Vec<IndexEntry>,
        height: u16,
        entries: u64,
    ) -> (done: Result<(), IndexError>)
        requires
            old(storage)@.wf(),
            old(self).wf(old(storage)@.store),
            height > 0,
        ensures
            final(storage)@.wf(),
            final(storage)@.options == old(storage)@.options,
            final(self).wf(final(storage)@.store),
            grown(old(self), old(storage)@.store, final(self), final(storage)@.store),
            (final(self).desk(final(storage)@.store), done_view(done, final(self).root))
                == steps::rooted(
                old(self).desk(old(storage)@.store),
                node::entry_views(kids@),
                height,
                entries,
            ),
            done is Err ==> final(self).root == old(self).root,
            done is Ok ==> root_height(final(self).root) <= height + 1,
            compact::overlay_compact(old(self).overlay@) && kids@.len() <= 3 && compact::keys_short(
                node::entry_views(kids@),
            ) ==> compact::overlay_compact(final(self).overlay@),
            model::is_grove(
                old(self).nodes(old(storage)@.store),
                old(self).pages(),
                node::entry_views(kids@),
                (height - 1) as nat,
                None,
                None,
            ) && entries == model::forest_entries(
                old(self).nodes(old(storage)@.store),
                node::entry_views(kids@),
                (height - 1) as nat,
            ).len() ==> match done {
                Ok(_) => final(self).holds(final(storage)@.store) && final(self).entries(
                    final(storage)@.store,
                ) == model::forest_entries(
                    old(self).nodes(old(storage)@.store),
                    node::entry_views(kids@),
                    (height - 1) as nat,
                ),
                Err(error) => out_of_pages(error@, final(storage)@.store) || (error@
                    == IndexErrorView::EntryCountOverflow && height == u16::MAX),
            },
    {
        let ghost all = node::entry_views(kids@);
        let ghost nodes = self.nodes(storage@.store);
        let ghost pages = self.pages();
        let ghost under = (height - 1) as nat;
        let ghost fits = model::is_grove(nodes, pages, all, under, None, None);
        if kids.len() == 0 {
            self.root = None;
            assert(all =~= Seq::empty());
            return Ok(());
        }
        if kids.len() == 1 {
            proof {
                assert(all[0] == kids@[0]@);
                if fits {
                    lemma_rooted(nodes, pages, all, under);
                    assert(all[0] == kids@[0]@);
                }
            }
            self.root = Some(IndexRoot { page_id: kids[0].value, height, entries });
            assert(self.nodes(storage@.store) == nodes);
            assert(self.pages() == pages);
            return Ok(());
        }
        let separators = copy_entries(kids, 1, kids.len());
        let made = Node::Internal { level: height, first_child: kids[0].value, separators };
        proof {
            if kids@.len() <= 3 && compact::keys_short(all) {
                compact::lemma_short_part(all, 1, all.len() as int);
                compact::lemma_short_size(all.subrange(1, all.len() as int));
                assert(compact::compact(made@));
            }
        }
        let ghost root_node = made;
        proof {
            assert(all[0] == kids@[0]@);
            assert(made@ == NodeView::Internal {
                level: height,
                first_child: all[0].value,
                separators: all.subrange(1, all.len() as int),
            });
        }
        let ghost before = *self;
        let ghost state = storage@.store;
        match self.allocate(storage, made) {
            Err(error) => Err(error),
            Ok(page_id) => {
                proof {
                    if compact::overlay_compact(before.overlay@) && compact::compact(root_node@) {
                        compact::lemma_overlay_insert(before.overlay@, page_id.0, root_node);
                    }
                }
                if height == u16::MAX {
                    return Err(IndexError::EntryCountOverflow);
                }
                let ghost reached = *self;
                self.root = Some(IndexRoot { page_id, height: height + 1, entries });
                proof {
                    let new_nodes = self.nodes(storage@.store);
                    let new_pages = self.pages();
                    assert(new_nodes == reached.nodes(storage@.store));
                    assert(new_pages == reached.pages());
                    if fits {
                        lemma_grown_agrees(&before, state, &reached, storage@.store);
                        model::lemma_grove_frame(
                            nodes,
                            pages,
                            new_nodes,
                            new_pages,
                            all,
                            under,
                            None,
                            None,
                        );
                        assert(all[0] == kids@[0]@);
                        assert(all.drop_first() =~= all.subrange(1, all.len() as int));
                        assert(self.overlay@.contains_key(page_id.0));
                        model::lemma_join(
                            new_nodes,
                            new_pages,
                            all,
                            page_id.0,
                            height as nat,
                            None,
                            None,
                        );
                        model::lemma_tree_widen(
                            new_nodes,
                            new_pages,
                            page_id.0,
                            height as nat,
                            Some(all[0].key),
                            None,
                            None,
                            None,
                        );
                    }
                }
                Ok(())
            },
        }
    }

    /// Makes one change.
    #[verifier::rlimit(80)]
    #[verifier::spinoff_prover]
    pub fn apply(
        &mut self,
        storage: &mut GroupCommitHandle,
        cache: &mut NodeCache,
        mutation: IndexMutation,
    ) -> (done: Result<(), IndexError>)
        requires
            old(storage)@.wf(),
            old(self).wf(old(storage)@.store),
            old(cache).wf(),
            read::cache_true(old(cache)@, old(storage)@.store),
        ensures
            final(storage)@.wf(),
            final(storage)@.options == old(storage)@.options,
            final(self).wf(final(storage)@.store),
            final(cache).wf(),
            read::cache_true(final(cache)@, final(storage)@.store),
            grown(old(self), old(storage)@.store, final(self), final(storage)@.store),
            done is Ok ==> root_height(final(self).root) <= root_height(old(self).root) + 1,
            compact::overlay_compact(old(self).overlay@) && compact::store_compact(
                old(storage)@.store,
            ) && (mutation@ is Upsert ==> plan::mutation_key(mutation@).len()
                <= compact::SHORT_KEY_LENGTH) ==> compact::overlay_compact(final(self).overlay@),
            done is Err ==> final(self).root == old(self).root,
            forall|damage: IndexErrorView| #[trigger]
                steps::damage_named(
                    old(self).desk(old(storage)@.store),
                    old(self).root,
                    mutation@,
                    damage,
                ) ==> {
                    &&& done_view(done, final(self).root) == Err::<
                        Option<IndexRoot>,
                        IndexErrorView,
                    >(damage)
                    &&& final(self).desk(final(storage)@.store) == old(self).desk(
                        old(storage)@.store,
                    )
                },
            old(self).holds(old(storage)@.store) ==> (
                final(self).desk(final(storage)@.store),
                done_view(done, final(self).root),
            ) == steps::applied(
                old(self).desk(old(storage)@.store),
                old(self).root,
                mutation@,
            ),
            old(self).holds(old(storage)@.store) ==> match done {
                Ok(_) => {
                    &&& final(self).holds(final(storage)@.store)
                    &&& mutation@ is Upsert ==> plan::mutation_key(mutation@).len()
                        <= MAX_KEY_LENGTH
                    &&& changed(
                        old(self).entries(old(storage)@.store),
                        final(self).entries(final(storage)@.store),
                        plan::mutation_key(mutation@),
                        plan::mutation_value(mutation@),
                    )
                },
                Err(error) => apply_refused(
                    old(self).root,
                    mutation@,
                    error@,
                    final(storage)@.store,
                ),
            },
    {
        let ghost start = *self;
        let ghost state = storage@.store;
        let ghost nodes = self.nodes(state);
        let ghost pages = self.pages();
        let ghost view = mutation@;
        let ghost fits = self.holds(state);
        let (wanted, value): (Vec<u8>, Option<PageId>) = match mutation {
            IndexMutation::Upsert(entry) => {
                if entry.key.len() > MAX_KEY_LENGTH {
                    return Err(
                        IndexError::KeyTooLarge {
                            actual: entry.key.len(),
                            maximum: MAX_KEY_LENGTH,
                        },
                    );
                }
                (entry.key, Some(entry.value))
            },
            IndexMutation::Delete(key) => (key, None),
        };
        let root = match self.root {
            Some(root) => root,
            None => {
                match value {
                    None => {
                        return Ok(());
                    },
                    Some(page_id) => {
                        let mut entries: Vec<IndexEntry> = Vec::new();
                        let entry = IndexEntry { key: wanted, value: page_id };
                        entries.push(entry);
                        let ghost only = node::entry_views(entries@);
                        assert(only =~= seq![entry@]);
                        let made = Node::Leaf { entries, next: None };
                        let ghost leaf_node = made;
                        proof {
                            compact::lemma_size_one(entry@);
                        }
                        match self.allocate(storage, made) {
                            Err(error) => {
                                return Err(error);
                            },
                            Ok(leaf) => {
                                proof {
                                    if compact::overlay_compact(start.overlay@)
                                        && compact::compact(leaf_node@) {
                                        compact::lemma_overlay_insert(
                                            start.overlay@,
                                            leaf.0,
                                            leaf_node,
                                        );
                                    }
                                }
                                let ghost reached = *self;
                                self.root = Some(
                                    IndexRoot { page_id: leaf, height: 1, entries: 1 },
                                );
                                proof {
                                    let new_nodes = self.nodes(storage@.store);
                                    assert(self.overlay@.contains_key(leaf.0));
                                    assert(new_nodes[leaf.0] == NodeView::Leaf {
                                        entries: only,
                                        next: None,
                                    });
                                    assert(model::tree_entries(new_nodes, leaf.0, 0) == only);
                                    reveal_with_fuel(model::find, 2);
                                    assert(only.drop_last() =~= Seq::empty());
                                    assert(changed(Seq::empty(), only, entry@.key, Some(page_id.0)));
                                }
                                return Ok(());
                            },
                        }
                    },
                }
            },
        };
        if root.height == 0 {
            return Err(corrupt(root.page_id, "root height cannot be zero"));
        }
        let level: u16 = root.height - 1;
        let ghost entries = self.entries(state);
        let first_key = match self.first_key(storage, cache, root.page_id, Ghost(level as nat)) {
            Ok(first_key) => first_key,
            Err(error) => {
                return Err(error);
            },
        };
        proof {
            if fits {
                model::lemma_tree_sorted(nodes, pages, root.page_id.0, level as nat, None, None);
                steps::lemma_first_under(
                    self.desk(state),
                    pages,
                    root.page_id.0,
                    level as nat,
                    None,
                );
                model::lemma_tree_raise(
                    nodes,
                    pages,
                    root.page_id.0,
                    level as nat,
                    None,
                    None,
                    first_key@,
                );
            }
        }
        let edited = self.edit_node(
            storage,
            cache,
            root.page_id,
            level,
            first_key,
            &wanted,
            value,
            true,
            Ghost(None),
            Ghost(None),
        );
        let (kids, delta, height): (Vec<IndexEntry>, EntryDelta, u16) = match edited {
            Err(error) => {
                return Err(error);
            },
            Ok(Edited::Unchanged) => {
                proof {
                    if fits {
                        lemma_grown_agrees(&start, state, self, storage@.store);
                        model::lemma_tree_frame(
                            nodes,
                            pages,
                            self.nodes(storage@.store),
                            self.pages(),
                            root.page_id.0,
                            level as nat,
                            None,
                            None,
                        );
                    }
                }
                return Ok(());
            },
            Ok(Edited::Replaced(kids, delta)) => (kids, delta, root.height),
            Ok(Edited::Collapsed(kids, delta)) => (kids, delta, level),
        };
        let ghost middle = *self;
        let ghost middle_state = storage@.store;
        let count: u64 = match delta {
            EntryDelta::Same => root.entries,
            EntryDelta::Added => {
                if root.entries == u64::MAX {
                    return Err(IndexError::EntryCountOverflow);
                }
                root.entries + 1
            },
            EntryDelta::Removed => {
                if root.entries == 0 {
                    proof {
                        if fits {
                            let at = model::lemma_find_some(entries, wanted@);
                        }
                    }
                    return Err(corrupt(root.page_id, "root entry count underflow"));
                }
                root.entries - 1
            },
        };
        let done = self.set_root(storage, &kids, height, count);
        proof {
            lemma_grown_trans(&start, state, &middle, middle_state, self, storage@.store);
        }
        done
    }
}

impl Editor {
    /// An editor of an index that a store holds, with nothing changed yet.
    pub fn open(root: Option<IndexRoot>, Ghost(state): Ghost<StoreView>) -> (editor: Editor)
        ensures
            editor.wf(state),
            editor.root == root,
            editor.overlay@ == Map::<u64, Node>::empty(),
            plan::index_holds(state, root) ==> editor.holds(state) && editor.entries(state)
                == plan::index_entries(state, root),
    {
        let ghost nodes = model::store_nodes(state);
        let ghost own = match root {
            None => Seq::<u64>::empty(),
            Some(root) => model::tree_pages(nodes, root.page_id.0, (root.height - 1) as nat),
        };
        let ghost base = if plan::index_holds(state, root) {
            Set::new(|id: u64| own.contains(id))
        } else {
            Set::empty()
        };
        let editor = Editor { root, overlay: HashMap::new(), base: Ghost(base) };
        proof {
            assert(editor.nodes(state) =~= nodes);
            assert(editor.pages() =~= base);
            if plan::index_holds(state, root) {
                if let Some(found) = root {
                    let level = (found.height - 1) as nat;
                    lemma_own_pages(nodes, model::live_pages(state), found.page_id.0, level, None, None);
                    crate::index::pages::lemma_tree_pages_within(
                        nodes,
                        model::live_pages(state),
                        found.page_id.0,
                        level,
                        None,
                        None,
                    );
                    assert forall|id: u64| #[trigger] base.contains(id) implies store::is_live(
                        state,
                        id,
                    ) && (nodes.contains_key(id) ==> children_in(nodes[id], base)) by {
                        let i = choose|i: int| 0 <= i < own.len() && own[i] == id;
                        assert(crate::index::pages::is_page_within(
                            nodes,
                            model::live_pages(state),
                            own[i],
                            level,
                            None,
                            None,
                        ));
                        assert(has_children_in(nodes[own[i]], own));
                        lemma_children_in_set(nodes[id], own, base);
                    }
                    assert forall|i: int| 0 <= i < own.len() implies base.contains(
                        #[trigger] own[i],
                    ) by {
                        assert(own.contains(own[i]));
                    }
                    crate::index::pages::lemma_tree_restrict(
                        nodes,
                        model::live_pages(state),
                        base,
                        found.page_id.0,
                        level,
                        None,
                        None,
                    );
                }
            }
        }
        editor
    }
}

spec fn has_children_in(found: NodeView, pages: Seq<u64>) -> bool {
    match found {
        NodeView::Leaf { .. } => true,
        NodeView::Internal { first_child, separators, .. } => pages.contains(first_child) && forall|
            i: int,
        |
            0 <= i < separators.len() ==> pages.contains((#[trigger] separators[i]).value),
    }
}

proof fn lemma_children_in_set(found: NodeView, own: Seq<u64>, base: Set<u64>)
    requires
        has_children_in(found, own),
        base == Set::new(|id: u64| own.contains(id)),
    ensures
        children_in(found, base),
{
}

proof fn lemma_has_more(found: NodeView, pages: Seq<u64>, more: Seq<u64>)
    requires
        has_children_in(found, pages),
        forall|id: u64| #[trigger] pages.contains(id) ==> more.contains(id),
    ensures
        has_children_in(found, more),
{
}

/// The children of every page of a tree are pages of the tree.
proof fn lemma_own_pages(
    nodes: Map<u64, NodeView>,
    live: Set<u64>,
    page: u64,
    level: nat,
    low: Option<Seq<u8>>,
    high: Option<Seq<u8>>,
)
    requires
        model::is_tree(nodes, live, page, level, low, high),
    ensures
        model::tree_pages(nodes, page, level).contains(page),
        forall|i: int|
            0 <= i < model::tree_pages(nodes, page, level).len() ==> has_children_in(
                nodes[#[trigger] model::tree_pages(nodes, page, level)[i]],
                model::tree_pages(nodes, page, level),
            ),
    decreases level, 0nat,
{
    let all = model::tree_pages(nodes, page, level);
    assert(all[0] == page);
    if let NodeView::Internal { level: own, first_child, separators } = nodes[page] {
        let under = (level - 1) as nat;
        let left = model::tree_pages(nodes, first_child, under);
        let right = model::forest_pages(nodes, separators, under);
        assert(model::are_trees(nodes, live, separators, under, high));
        lemma_own_pages(nodes, live, first_child, under, low, model::bound_at(separators, 0, high));
        lemma_own_forest(nodes, live, separators, under, high);
        assert forall|id: u64| #[trigger] left.contains(id) implies all.contains(id) by {
            let j = choose|j: int| 0 <= j < left.len() && left[j] == id;
            assert(all[j + 1] == id);
        }
        assert forall|id: u64| #[trigger] right.contains(id) implies all.contains(id) by {
            let j = choose|j: int| 0 <= j < right.len() && right[j] == id;
            assert(all[j + 1 + left.len()] == id);
        }
        assert forall|i: int| 0 <= i < all.len() implies has_children_in(
            nodes[#[trigger] all[i]],
            all,
        ) by {
            if i == 0 {
                assert forall|j: int| 0 <= j < separators.len() implies all.contains(
                    (#[trigger] separators[j]).value,
                ) by {
                    assert(right.contains(separators[j].value));
                }
            } else if i - 1 < left.len() {
                assert(all[i] == left[i - 1]);
                lemma_has_more(nodes[left[i - 1]], left, all);
            } else {
                assert(all[i] == right[i - 1 - left.len()]);
                lemma_has_more(nodes[right[i - 1 - left.len()]], right, all);
            }
        }
    }
}

proof fn lemma_own_forest(
    nodes: Map<u64, NodeView>,
    live: Set<u64>,
    kids: Seq<EntryView>,
    level: nat,
    high: Option<Seq<u8>>,
)
    requires
        model::are_trees(nodes, live, kids, level, high),
    ensures
        forall|i: int|
            0 <= i < kids.len() ==> model::forest_pages(nodes, kids, level).contains(
                (#[trigger] kids[i]).value,
            ),
        forall|i: int|
            0 <= i < model::forest_pages(nodes, kids, level).len() ==> has_children_in(
                nodes[#[trigger] model::forest_pages(nodes, kids, level)[i]],
                model::forest_pages(nodes, kids, level),
            ),
    decreases level, kids.len() + 1,
{
    if kids.len() > 0 {
        let last = kids.len() - 1;
        let head = kids.drop_last();
        let all = model::forest_pages(nodes, kids, level);
        let left = model::forest_pages(nodes, head, level);
        let right = model::tree_pages(nodes, kids.last().value, level);
        assert(kids[last] == kids.last());
        lemma_own_pages(
            nodes,
            live,
            kids[last].value,
            level,
            Some(kids[last].key),
            model::bound_at(kids, last + 1, high),
        );
        model::lemma_trees_take(nodes, live, kids, level, high, last as int);
        assert(kids.take(last as int) =~= head);
        lemma_own_forest(nodes, live, head, level, Some(kids[last].key));
        assert forall|id: u64| #[trigger] left.contains(id) implies all.contains(id) by {
            let j = choose|j: int| 0 <= j < left.len() && left[j] == id;
            assert(all[j] == id);
        }
        assert forall|id: u64| #[trigger] right.contains(id) implies all.contains(id) by {
            let j = choose|j: int| 0 <= j < right.len() && right[j] == id;
            assert(all[j + left.len()] == id);
        }
        assert forall|i: int| 0 <= i < kids.len() implies all.contains(
            (#[trigger] kids[i]).value,
        ) by {
            if i < last {
                assert(head[i] == kids[i]);
                assert(left.contains(head[i].value));
            }
        }
        assert forall|i: int| 0 <= i < all.len() implies has_children_in(
            nodes[#[trigger] all[i]],
            all,
        ) by {
            if i < left.len() {
                assert(all[i] == left[i]);
                lemma_has_more(nodes[left[i]], left, all);
            } else {
                assert(all[i] == right[i - left.len()]);
                lemma_has_more(nodes[right[i - left.len()]], right, all);
            }
        }
    }
}

impl Editor {
    /// Puts entries on new leaves, each of which names the next.
    #[verifier::rlimit(40)]
    pub fn chain_leaves(
        &mut self,
        storage: &mut GroupCommitHandle,
        entries: &Vec<IndexEntry>,
    ) -> (kids: Result<Vec<IndexEntry>, IndexError>)
        requires
            old(storage)@.wf(),
            old(self).wf(old(storage)@.store),
            old(self).overlay@ == Map::<u64, Node>::empty(),
            old(self).base@ == Set::<u64>::empty(),
            model::within(node::entry_views(entries@), None, None),
        ensures
            final(storage)@.wf(),
            final(storage)@.options == old(storage)@.options,
            final(self).wf(final(storage)@.store),
            final(self).root == old(self).root,
            all_fit(final(self).overlay@),
            (final(self).desk(final(storage)@.store), kids_view(kids)) == steps::chained(
                old(storage)@.store,
                node::entry_views(entries@),
            ),
            match kids {
                Ok(kids) => {
                    &&& grown(old(self), old(storage)@.store, final(self), final(storage)@.store)
                    &&& model::is_grove(
                        final(self).nodes(final(storage)@.store),
                        final(self).pages(),
                        node::entry_views(kids@),
                        0,
                        None,
                        None,
                    )
                    &&& model::forest_entries(
                        final(self).nodes(final(storage)@.store),
                        node::entry_views(kids@),
                        0,
                    ) == node::entry_views(entries@)
                    &&& kids@.len() <= entries@.len()
                },
                Err(error) => {
                    &&& final(storage)@.store == (StoreView {
                        free: final(storage)@.store.free,
                        ..old(storage)@.store
                    })
                    &&& forall|id: u64|
                        store::is_live(old(storage)@.store, id) ==> #[trigger] store::is_live(
                            final(storage)@.store,
                            id,
                        )
                    &&& pages_refused(error@, old(storage)@.store, entries@.len())
                },
            },
    {
        let ghost all = node::entry_views(entries@);
        let ends = match partition_leaves(entries) {
            Ok(ends) => ends,
            Err(error) => {
                proof {
                    let i = choose|i: int|
                        0 <= i < entries@.len() && (#[trigger] entries@[i])@.key.len()
                            > MAX_KEY_LENGTH;
                    assert(all[i] == entries@[i]@);
                }
                return Err(error);
            },
        };
        let ghost before = storage@.store;
        proof {
            lemma_run_count(all, ends@);
            steps::lemma_leaf_count(all, ends@, 0);
            assert(overlay_nodes(self.overlay@) =~= Map::empty());
        }
        let ids = match storage.reserve_page_ids(ends.len()) {
            Ok(ids) => ids,
            Err(error) => {
                return Err(IndexError::Storage(error));
            },
        };
        let ghost numbers = store::id_views(ids@);
        let ghost now = storage@.store;
        proof {
            store::law_reserved_are_fresh(before, ends@.len());
            assert(model::store_nodes(now) =~= model::store_nodes(before));
            assert forall|i: int| 0 <= i < ids@.len() implies (#[trigger] numbers[i]) == ids@[i].0
                && store::is_live(now, numbers[i]) && !store::is_live(before, numbers[i])
                && numbers[i] != u64::MAX by {
                assert(numbers.contains(numbers[i]));
            }
            assert forall|id: u64| store::is_live(before, id) implies #[trigger] store::is_live(
                now,
                id,
            ) by {}
        }
        let mut kids: Vec<IndexEntry> = Vec::new();
        let mut start: usize = 0;
        let mut group: usize = 0;
        proof {
            assert(node::entry_views(kids@) =~= Seq::empty());
            assert(all.take(0) =~= Seq::empty());
        }
        while group < ends.len()
            invariant
                storage@.wf(),
                storage@.store == now,
                storage@.options == old(storage)@.options,
                before == old(storage)@.store,
                self.wf(now),
                self.root == old(self).root,
                self.base == old(self).base,
                self.base@ == Set::<u64>::empty(),
                old(self).overlay@ == Map::<u64, Node>::empty(),
                all_fit(self.overlay@),
                all == node::entry_views(entries@),
                model::within(all, None, None),
                leaf_runs(all, ends@),
                group <= ends@.len() == ids@.len(),
                numbers == store::id_views(ids@),
                numbers.no_duplicates(),
                forall|i: int|
                    0 <= i < ids@.len() ==> (#[trigger] numbers[i]) == ids@[i].0 && store::is_live(
                        now,
                        numbers[i],
                    ) && !store::is_live(before, numbers[i]) && numbers[i] != u64::MAX,
                start == run_start(ends@, group as int),
                steps::chain_from(Map::empty(), all, numbers, 0, 0, Seq::empty())
                    == steps::chain_from(
                    overlay_nodes(self.overlay@),
                    all,
                    numbers,
                    start as int,
                    group as int,
                    node::entry_views(kids@),
                ),
                kids@.len() == group,
                forall|id: u64| #[trigger]
                    self.overlay@.contains_key(id) <==> numbers.take(group as int).contains(id),
                model::is_grove(
                    self.nodes(now),
                    self.pages(),
                    node::entry_views(kids@),
                    0,
                    None,
                    model::bound_at(all, start as int, None),
                ),
                model::forest_entries(self.nodes(now), node::entry_views(kids@), 0) == all.take(
                    start as int,
                ),
            decreases ends@.len() - group,
        {
            let end: usize = ends[group];
            assert(run_start(ends@, group as int) < ends@[group as int]);
            let run = copy_entries(entries, start, end);
            let first_key = copy_bytes(entries[start].key.as_slice());
            let next: Option<PageId> = if group + 1 < ids.len() {
                assert(numbers[group + 1] == ids@[group + 1].0);
                Some(ids[group + 1])
            } else {
                None
            };
            let page_id = ids[group];
            let made = Node::Leaf { entries: run, next };
            let ghost before_self = *self;
            let ghost kids_before = node::entry_views(kids@);
            proof {
                assert(numbers[group as int] == page_id.0);
                assert(!numbers.take(group as int).contains(page_id.0)) by {
                    if numbers.take(group as int).contains(page_id.0) {
                        let j = choose|j: int|
                            0 <= j < group && numbers.take(group as int)[j] == page_id.0;
                        assert(numbers[j] == numbers[group as int]);
                    }
                }
            }
            proof {
                steps::lemma_run_end(all, ends@, group as int);
                assert(made@ == NodeView::Leaf {
                    entries: all.subrange(start as int, end as int),
                    next: if group + 1 < numbers.len() {
                        Some(numbers[group + 1])
                    } else {
                        None
                    },
                }) by {
                    assert(node::entry_views(made->entries@) =~= all.subrange(
                        start as int,
                        end as int,
                    ));
                }
                assert(all[start as int] == entries@[start as int]@);
            }
            let ghost overlay_before = overlay_nodes(self.overlay@);
            self.overlay.insert(page_id.0, made);
            assert(overlay_nodes(self.overlay@) =~= overlay_before.insert(page_id.0, made@));
            let kid = IndexEntry { key: first_key, value: page_id };
            kids.push(kid);
            proof {
                assert(node::entry_views(kids@) =~= kids_before.push(kid@));
                assert(model::agrees(
                    before_self.nodes(now),
                    before_self.pages(),
                    self.nodes(now),
                    self.pages(),
                )) by {
                    assert forall|id: u64| #[trigger]
                        before_self.pages().contains(id) implies self.pages().contains(id) && (
                    before_self.nodes(now).contains_key(id) ==> self.nodes(now).contains_key(id)
                        && self.nodes(now)[id] == before_self.nodes(now)[id]) by {
                        assert(before_self.overlay@.contains_key(id));
                        assert(id != page_id.0);
                    }
                }
                assert(self.overlay@.contains_key(page_id.0));
                lemma_leaf_made(
                    before_self.nodes(now),
                    before_self.pages(),
                    self.nodes(now),
                    self.pages(),
                    all,
                    start as int,
                    end as int,
                    page_id.0,
                    kids_before,
                    None,
                    None,
                );
                assert(kid@ == EntryView { key: all[start as int].key, value: page_id.0 });
                assert(numbers.take(group + 1) =~= numbers.take(group as int).push(page_id.0));
                assert forall|id: u64| #[trigger] self.overlay@.contains_key(
                    id,
                ) <==> numbers.take(group + 1).contains(id) by {
                    let shorter = numbers.take(group as int);
                    let longer = numbers.take(group + 1);
                    assert(longer[group as int] == page_id.0);
                    if shorter.contains(id) {
                        let j = choose|j: int| 0 <= j < shorter.len() && shorter[j] == id;
                        assert(longer[j] == id);
                    }
                    if longer.contains(id) && id != page_id.0 {
                        let j = choose|j: int| 0 <= j < longer.len() && longer[j] == id;
                        assert(shorter[j] == id);
                    }
                    assert(before_self.overlay@.contains_key(id) <==> shorter.contains(id));
                }
            }
            start = end;
            group = group + 1;
        }
        proof {
            if all.len() == 0 {
                assert(ends@.len() == 0) by {
                    if ends@.len() > 0 {
                        assert(run_start(ends@, 0) < ends@[0] <= all.len());
                    }
                }
            }
            assert(start == all.len());
            assert(all.take(start as int) =~= all);
            assert(numbers.take(group as int) =~= numbers);
            assert forall|id: u64| #[trigger] self.overlay@.contains_key(
                id,
            ) implies !store::is_live(before, id) by {
                let j = choose|j: int| 0 <= j < numbers.len() && numbers[j] == id;
                assert(!store::is_live(before, numbers[j]));
            }
        }
        Ok(kids)
    }
}

/// Why no pages could be had for up to so many nodes.
pub open spec fn pages_refused(error: IndexErrorView, state: StoreView, most: nat) -> bool {
    ||| state.poisoned && error == IndexErrorView::Storage(StorageErrorView::Poisoned)
    ||| !state.poisoned && state.next_page_id + most > u64::MAX && error == IndexErrorView::Storage(
        StorageErrorView::Configuration("page ID space exhausted"@),
    )
}

/// There are no more runs than entries.
proof fn lemma_run_count(all: Seq<EntryView>, ends: Seq<usize>)
    requires
        leaf_runs(all, ends),
    ensures
        ends.len() <= all.len(),
{
    assert forall|g: int| 0 <= g < ends.len() implies g < #[trigger] ends[g] by {
        lemma_run_above(ends, g);
    }
    if ends.len() > 0 {
        assert(ends.len() - 1 < ends[ends.len() - 1]);
    }
}

proof fn lemma_run_above(ends: Seq<usize>, g: int)
    requires
        forall|g: int, h: int| 0 <= g < h < ends.len() ==> ends[g] < ends[h],
        forall|g: int| 0 <= g < ends.len() ==> #[trigger] run_start(ends, g) < ends[g],
        0 <= g < ends.len(),
    ensures
        g < ends[g],
    decreases g,
{
    assert(run_start(ends, g) < ends[g]);
    if g > 0 {
        lemma_run_above(ends, g - 1);
    }
}

} // verus!
