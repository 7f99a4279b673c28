//! What edits of an index come to once they are committed.
use crate::index::error::IndexErrorView;
use crate::index::model;
use crate::index::node;
use crate::index::node::EntryView;
use crate::index::plan;
use crate::index::plan::{IndexRoot, MutationView, PlanView};
use crate::index::range;
use crate::index::steps;
use crate::storage::group_commit;
use crate::storage::store;
use crate::storage::store::{PageWriteView, StoreView};
use vstd::prelude::*;

verus! {

/// Whether a batch of writes was committed: the store took it, and pages that it does not write
/// read as before.
pub open spec fn is_committed(
    now: StoreView,
    writes: Seq<PageWriteView>,
    threshold: u64,
    after: StoreView,
) -> bool {
    &&& after.free == now.free
    &&& after.next_page_id >= now.next_page_id
    &&& forall|id: u64|
        (forall|i: int| 0 <= i < writes.len() ==> (#[trigger] writes[i]).page_id != id)
            ==> #[trigger] after.read(id) == now.read(id)
    &&& if writes.len() == 0 {
        after == now
    } else {
        group_commit::batch_taken(now, writes) && after == group_commit::maybe_checkpointed(
            store::store_written(now, writes),
            threshold,
        )
    }
}

/// Whether a store differs from another only in the page numbers that it has handed out.
pub open spec fn only_reserved(before: StoreView, now: StoreView) -> bool {
    &&& now == (StoreView { next_page_id: now.next_page_id, free: now.free, ..before })
    &&& forall|id: u64| store::is_live(before, id) ==> #[trigger] store::is_live(now, id)
}

/// Pages that were in use before a plan are left as they are by its writes.
proof fn lemma_old_pages(
    before: StoreView,
    now: StoreView,
    plan: PlanView,
    threshold: u64,
    after: StoreView,
    id: u64,
)
    requires
        only_reserved(before, now),
        plan::plan_holds(before, now, plan),
        is_committed(now, plan.writes, threshold, after),
        store::is_live(before, id),
    ensures
        after.read(id) == before.read(id),
        store::is_live(after, id),
{
    assert forall|i: int| 0 <= i < plan.writes.len() implies (
    #[trigger] plan.writes[i]).page_id != id by {}
    assert(store::is_live(now, id));
    assert(after.read(id) == now.read(id));
}

/// An index has a root only where it has entries, and these rise.
proof fn lemma_root_has_entries(state: StoreView, root: Option<IndexRoot>)
    requires
        plan::index_holds(state, root),
    ensures
        node::keys_rise(plan::index_entries(state, root)),
        root is Some <==> plan::index_entries(state, root).len() > 0,
{
    if let Some(root) = root {
        model::lemma_tree_sorted(
            model::store_nodes(state),
            model::live_pages(state),
            root.page_id.0,
            (root.height - 1) as nat,
            None,
            None,
        );
    }
}

/// All entries are in the range without bounds.
proof fn lemma_all_selected(entries: Seq<EntryView>)
    ensures
        range::selected(entries, None, None) == entries,
    decreases entries.len(),
{
    if entries.len() > 0 {
        lemma_all_selected(entries.drop_last());
        assert(entries =~= entries.drop_last().push(entries.last()));
    }
}

/// An edited index is the ordered map with the changes applied: once a plan is committed, a scan
/// from its root gives the keys in order, each with the value that it has after the changes, made
/// one after the other on what the index had. The root counts the entries, and there is no root
/// where no key has a value. A scan takes the entries that it asks for out of these, by
/// `range::selected` and `range::at_most`; one without bounds takes all.
pub proof fn law_edit_is_an_ordered_map(
    before: StoreView,
    root: Option<IndexRoot>,
    mutations: Seq<MutationView>,
    now: StoreView,
    plan: PlanView,
    threshold: u64,
    after: StoreView,
)
    requires
        now.wf(),
        plan::index_holds(before, root),
        only_reserved(before, now),
        plan::plan_holds(before, now, plan),
        forall|k: Seq<u8>| #[trigger]
            model::find(plan::plan_entries(now, plan), k) == plan::value_after(
                plan::index_entries(before, root),
                mutations,
                k,
            ),
        is_committed(now, plan.writes, threshold, after),
    ensures
        plan::index_holds(after, plan.root),
        plan.root matches Some(root) ==> {
            &&& range::root_is_tree(after, root)
            &&& root.entries == plan::index_entries(after, plan.root).len()
        },
        node::keys_rise(plan::index_entries(after, plan.root)),
        forall|k: Seq<u8>| #[trigger]
            model::find(plan::index_entries(after, plan.root), k) == plan::value_after(
                plan::index_entries(before, root),
                mutations,
                k,
            ),
        range::selected(plan::index_entries(after, plan.root), None, None) == plan::index_entries(
            after,
            plan.root,
        ),
        plan.root is None <==> forall|k: Seq<u8>| #[trigger]
            plan::value_after(plan::index_entries(before, root), mutations, k) is None,
{
    let writes = plan.writes;
    assert forall|i: int| 0 <= i < writes.len() implies (after.read(
        (#[trigger] writes[i]).page_id,
    ) matches Ok(Some(found)) && found.payload == writes[i].payload) by {
        assert forall|j: int| i < j < writes.len() implies (#[trigger] writes[j]).page_id
            != writes[i].page_id by {}
        group_commit::law_commit_reads(now, writes, threshold, i);
    }
    plan::law_plan_completes(before, now, plan, after);
    lemma_root_has_entries(after, plan.root);
    let entries = plan::index_entries(after, plan.root);
    lemma_all_selected(entries);
    assert forall|k: Seq<u8>| #[trigger] model::find(entries, k) == plan::value_after(
        plan::index_entries(before, root),
        mutations,
        k,
    ) by {
        assert(model::find(plan::plan_entries(now, plan), k) == plan::value_after(
            plan::index_entries(before, root),
            mutations,
            k,
        ));
    }
    if plan.root is Some {
        let first = entries[0].key;
        model::lemma_find_at(entries, 0);
        assert(model::find(entries, first) is Some);
        assert(plan::value_after(plan::index_entries(before, root), mutations, first) is Some);
    } else {
        assert forall|k: Seq<u8>| #[trigger]
            plan::value_after(plan::index_entries(before, root), mutations, k) is None by {
            assert(model::find(entries, k) is None);
        }
    }
}

/// An edit leaves every index that was there as it is: committing a plan writes only pages that
/// were not in use, each once and by rising number, so that every scan from an earlier root, that
/// of the edited index too, gives what it gave. Of the nodes that the edit made, it writes exactly
/// those that the new root reaches, and none that only a root in between did.
pub proof fn law_edit_keeps_earlier_roots(
    before: StoreView,
    root: Option<IndexRoot>,
    mutations: Seq<MutationView>,
    now: StoreView,
    plan: PlanView,
    threshold: u64,
    after: StoreView,
    earlier: IndexRoot,
)
    requires
        only_reserved(before, now),
        plan::plan_holds(before, now, plan),
        steps::edit_outcome(before, root, mutations, now, Ok::<PlanView, IndexErrorView>(plan)),
        is_committed(now, plan.writes, threshold, after),
        plan::index_holds(before, Some(earlier)),
    ensures
        forall|i: int, j: int|
            0 <= i < j < plan.writes.len() ==> (#[trigger] plan.writes[i]).page_id < (
            #[trigger] plan.writes[j]).page_id,
        forall|i: int|
            0 <= i < plan.writes.len() ==> !store::is_live(
                before,
                (#[trigger] plan.writes[i]).page_id,
            ) && store::is_live(now, plan.writes[i].page_id),
        steps::writes_reached(
            steps::all_applied(steps::cleared(before), root, mutations).0,
            plan.root,
            plan.writes,
        ),
        forall|id: u64| #[trigger]
            store::is_live(before, id) ==> after.read(id) == before.read(id),
        plan::index_holds(after, Some(earlier)),
        range::root_is_tree(before, earlier) && range::root_is_tree(after, earlier),
        plan::index_entries(after, Some(earlier)) == plan::index_entries(before, Some(earlier)),
{
    assert forall|id: u64| #[trigger] store::is_live(before, id) implies after.read(id)
        == before.read(id) by {
        lemma_old_pages(before, now, plan, threshold, after, id);
    }
    let nodes = model::store_nodes(before);
    let live = model::live_pages(before);
    let reached = model::store_nodes(after);
    let reached_live = model::live_pages(after);
    assert(model::agrees(nodes, live, reached, reached_live)) by {
        assert forall|id: u64| #[trigger] live.contains(id) implies reached_live.contains(id) && (
        nodes.contains_key(id) ==> reached.contains_key(id) && reached[id] == nodes[id]) by {
            lemma_old_pages(before, now, plan, threshold, after, id);
        }
    }
    model::lemma_tree_frame(
        nodes,
        live,
        reached,
        reached_live,
        earlier.page_id.0,
        (earlier.height - 1) as nat,
        None,
        None,
    );
}

} // verus!
