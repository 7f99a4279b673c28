//! Index roots, changes to an index, and the page writes that bring an index about.
use crate::index::model;
use crate::index::node;
use crate::index::node::{EntryView, IndexEntry, NodeView};
use crate::storage::page::PageId;
use crate::storage::store;
use crate::storage::store::{PageWrite, PageWriteView, StoreView};
use vstd::prelude::*;

verus! {

/// One change to an index.
#[derive(Debug, Clone, PartialEq, Eq)]
pub enum IndexMutation {
    Upsert(IndexEntry),
    Delete(Vec<u8>),
}

#[verifier::ext_equal]
pub enum MutationView {
    Upsert(EntryView),
    Delete(Seq<u8>),
}

impl View for IndexMutation {
    type V = MutationView;

    open spec fn view(&self) -> MutationView {
        match *self {
            IndexMutation::Upsert(entry) => MutationView::Upsert(entry@),
            IndexMutation::Delete(key) => MutationView::Delete(key@),
        }
    }
}

pub open spec fn mutation_views(mutations: Seq<IndexMutation>) -> Seq<MutationView> {
    Seq::new(mutations.len(), |i: int| mutations[i]@)
}

/// The key that a change is about.
pub open spec fn mutation_key(mutation: MutationView) -> Seq<u8> {
    match mutation {
        MutationView::Upsert(entry) => entry.key,
        MutationView::Delete(key) => key,
    }
}

/// The value that the key has afterwards.
pub open spec fn mutation_value(mutation: MutationView) -> Option<u64> {
    match mutation {
        MutationView::Upsert(entry) => Some(entry.value),
        MutationView::Delete(_) => None,
    }
}

/// The value of a key after changes, made one after the other.
pub open spec fn value_after(
    entries: Seq<EntryView>,
    mutations: Seq<MutationView>,
    k: Seq<u8>,
) -> Option<u64>
    decreases mutations.len(),
{
    if mutations.len() == 0 {
        model::find(entries, k)
    } else if mutation_key(mutations.last()) == k {
        mutation_value(mutations.last())
    } else {
        value_after(entries, mutations.drop_last(), k)
    }
}

/// Where an index starts: its root page, its height in levels and how many entries it has.
#[derive(Debug, Clone, Copy, PartialEq, Eq, Structural)]
pub struct IndexRoot {
    pub page_id: PageId,
    pub height: u16,
    pub entries: u64,
}

/// An index over given nodes: a tree of the root's height with as many entries as the root says.
pub open spec fn root_holds(
    nodes: Map<u64, NodeView>,
    live: Set<u64>,
    root: Option<IndexRoot>,
) -> bool {
    match root {
        None => true,
        Some(root) => {
            &&& root.height > 0
            &&& model::is_tree(
                nodes,
                live,
                root.page_id.0,
                (root.height - 1) as nat,
                None,
                None,
            )
            &&& root.entries == root_entries(nodes, Some(root)).len()
        },
    }
}

/// The entries of an index in key order.
pub open spec fn root_entries(nodes: Map<u64, NodeView>, root: Option<IndexRoot>) -> Seq<EntryView> {
    match root {
        None => Seq::empty(),
        Some(root) => model::tree_entries(nodes, root.page_id.0, (root.height - 1) as nat),
    }
}

/// Whether a store holds an index: all its pages are in use and form a tree.
pub open spec fn index_holds(state: StoreView, root: Option<IndexRoot>) -> bool {
    root_holds(model::store_nodes(state), model::live_pages(state), root)
}

/// The entries of an index in a store.
pub open spec fn index_entries(state: StoreView, root: Option<IndexRoot>) -> Seq<EntryView> {
    root_entries(model::store_nodes(state), root)
}

/// The nodes that page writes put down.
pub open spec fn written_nodes(writes: Seq<PageWriteView>) -> Map<u64, NodeView>
    decreases writes.len(),
{
    if writes.len() == 0 {
        Map::empty()
    } else {
        let last = writes.last();
        let before = written_nodes(writes.drop_last());
        match node::node_decoded(last.payload) {
            Ok(found) => before.insert(last.page_id, found),
            Err(_) => before,
        }
    }
}

/// The nodes of a store once page writes are made to it.
pub open spec fn planned_nodes(state: StoreView, writes: Seq<PageWriteView>) -> Map<u64, NodeView> {
    model::store_nodes(state).union_prefer_right(written_nodes(writes))
}

/// The page writes that bring an index about, and its root.
#[derive(Debug)]
pub struct IndexBuildPlan {
    root: Option<IndexRoot>,
    writes: Vec<PageWrite>,
}

#[verifier::ext_equal]
pub struct PlanView {
    pub root: Option<IndexRoot>,
    pub writes: Seq<PageWriteView>,
}

impl View for IndexBuildPlan {
    type V = PlanView;

    closed spec fn view(&self) -> PlanView {
        PlanView { root: self.root, writes: store::write_views(self.writes@) }
    }
}

/// A plan that was made on a store: its writes fit, go to distinct pages that were not in use
/// when the plan was begun but are reserved now, and complete the index.
pub open spec fn plan_holds(before: StoreView, now: StoreView, plan: PlanView) -> bool {
    &&& store::payloads_fit(plan.writes)
    &&& forall|i: int|
        0 <= i < plan.writes.len() ==> node::node_decoded(
            (#[trigger] plan.writes[i]).payload,
        ) is Ok
    &&& forall|i: int|
        0 <= i < plan.writes.len() ==> !store::is_live(
            before,
            (#[trigger] plan.writes[i]).page_id,
        ) && store::is_live(now, plan.writes[i].page_id)
    &&& forall|i: int, j: int|
        0 <= i < j < plan.writes.len() ==> (#[trigger] plan.writes[i]).page_id != (
        #[trigger] plan.writes[j]).page_id
    &&& root_holds(planned_nodes(now, plan.writes), model::live_pages(now), plan.root)
}

/// The entries of the index that a plan brings about.
pub open spec fn plan_entries(now: StoreView, plan: PlanView) -> Seq<EntryView> {
    root_entries(planned_nodes(now, plan.writes), plan.root)
}

impl IndexBuildPlan {
    pub(crate) fn make(root: Option<IndexRoot>, writes: Vec<PageWrite>) -> (plan: IndexBuildPlan)
        ensures
            plan@ == (PlanView { root, writes: store::write_views(writes@) }),
    {
        IndexBuildPlan { root, writes }
    }

    /// The root of the index, once the writes are made.
    pub fn root(&self) -> (root: Option<IndexRoot>)
        ensures
            root == self@.root,
    {
        self.root
    }

    /// How many pages the plan writes.
    pub fn write_count(&self) -> (count: usize)
        ensures
            count == self@.writes.len(),
    {
        self.writes.len()
    }

    /// The page writes.
    pub fn into_writes(self) -> (writes: Vec<PageWrite>)
        ensures
            store::write_views(writes@) == self@.writes,
    {
        self.writes
    }
}

/// A page that no write names keeps what it had.
pub proof fn lemma_written_elsewhere(writes: Seq<PageWriteView>, id: u64)
    requires
        forall|i: int| 0 <= i < writes.len() ==> (#[trigger] writes[i]).page_id != id,
    ensures
        !written_nodes(writes).contains_key(id),
    decreases writes.len(),
{
    if writes.len() > 0 {
        assert(writes.last() == writes[writes.len() - 1]);
        let head = writes.drop_last();
        assert forall|i: int| 0 <= i < head.len() implies (#[trigger] head[i]).page_id != id by {
            assert(head[i] == writes[i]);
        }
        lemma_written_elsewhere(head, id);
    }
}

/// A page that exactly one write names holds that write's node.
pub proof fn lemma_written_at(writes: Seq<PageWriteView>, at: int)
    requires
        0 <= at < writes.len(),
        forall|i: int, j: int|
            0 <= i < j < writes.len() ==> (#[trigger] writes[i]).page_id != (
            #[trigger] writes[j]).page_id,
    ensures
        node::node_decoded(writes[at].payload) matches Ok(found) ==> written_nodes(
            writes,
        ).contains_key(writes[at].page_id) && written_nodes(writes)[writes[at].page_id] == found,
    decreases writes.len(),
{
    if at < writes.len() - 1 {
        assert(writes.last() == writes[writes.len() - 1]);
        let head = writes.drop_last();
        assert(writes[at].page_id != writes[writes.len() - 1].page_id);
        assert forall|i: int, j: int| 0 <= i < j < head.len() implies (#[trigger] head[i]).page_id
            != (#[trigger] head[j]).page_id by {
            assert(head[i] == writes[i] && head[j] == writes[j]);
        }
        lemma_written_at(head, at);
        assert(head[at] == writes[at]);
    }
}

/// Making a plan's writes brings its index about: in every store where the written pages read as
/// written and all other pages in use as before, and where these are all still in use, the index
/// holds, with the planned entries.
pub proof fn law_plan_completes(before: StoreView, now: StoreView, plan: PlanView, after: StoreView)
    requires
        plan_holds(before, now, plan),
        forall|id: u64| store::is_live(now, id) ==> #[trigger] store::is_live(after, id),
        forall|id: u64|
            store::is_live(now, id) && (forall|i: int|
                0 <= i < plan.writes.len() ==> (#[trigger] plan.writes[i]).page_id != id)
                ==> #[trigger] after.read(id) == now.read(id),
        forall|i: int|
            0 <= i < plan.writes.len() ==> (after.read((#[trigger] plan.writes[i]).page_id) matches Ok(
                Some(found),
            ) && found.payload == plan.writes[i].payload),
    ensures
        index_holds(after, plan.root),
        index_entries(after, plan.root) == plan_entries(now, plan),
{
    let nodes = planned_nodes(now, plan.writes);
    let live = model::live_pages(now);
    let reached = model::store_nodes(after);
    let reached_live = model::live_pages(after);
    assert(model::agrees(nodes, live, reached, reached_live)) by {
        assert forall|id: u64| #[trigger] live.contains(id) implies reached_live.contains(id) && (
        nodes.contains_key(id) ==> reached.contains_key(id) && reached[id] == nodes[id]) by {
            assert(store::is_live(after, id));
            if exists|i: int|
                0 <= i < plan.writes.len() && (#[trigger] plan.writes[i]).page_id == id {
                let i = choose|i: int|
                    0 <= i < plan.writes.len() && (#[trigger] plan.writes[i]).page_id == id;
                lemma_written_at(plan.writes, i);
                assert(node::node_decoded(plan.writes[i].payload) is Ok);
            } else {
                lemma_written_elsewhere(plan.writes, id);
                assert(after.read(id) == now.read(id));
            }
        }
    }
    if let Some(root) = plan.root {
        model::lemma_tree_frame(
            nodes,
            live,
            reached,
            reached_live,
            root.page_id.0,
            (root.height - 1) as nat,
            None,
            None,
        );
    }
}

} // verus!
