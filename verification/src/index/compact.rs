//! Keys short enough that an edit always finds room for its nodes.
use crate::index::editor;
use crate::index::model;
use crate::index::node;
use crate::index::node::{EntryView, Node, NodeView, ENTRY_OVERHEAD};
use crate::storage::page::MAX_PAGE_PAYLOAD;
use crate::storage::store::StoreView;
use vstd::prelude::*;

verus! {

/// The longest key of which two fit in a node.
pub const SHORT_KEY_LENGTH: usize = 4036;

/// The bytes that the entries of a node can take.
pub const NODE_CAPACITY: usize = 8096;

/// Whether two of each of the keys fit in a node.
pub open spec fn keys_short(entries: Seq<EntryView>) -> bool {
    forall|i: int| 0 <= i < entries.len() ==> (#[trigger] entries[i]).key.len() <= SHORT_KEY_LENGTH
}

/// Whether a node fits in a page and has short keys.
pub open spec fn compact(found: NodeView) -> bool {
    &&& node::node_size(found) <= MAX_PAGE_PAYLOAD
    &&& keys_short(node::node_items(found))
}

/// Whether all new nodes are compact.
#[verifier::opaque]
pub open spec fn overlay_compact(overlay: Map<u64, Node>) -> bool {
    forall|id: u64| #[trigger] overlay.contains_key(id) ==> compact(overlay[id]@)
}

/// Whether all nodes in a store are compact.
#[verifier::opaque]
pub open spec fn store_compact(state: StoreView) -> bool {
    forall|id: u64| #[trigger]
        model::store_nodes(state).contains_key(id) ==> compact(model::store_nodes(state)[id])
}

/// Whether the keys of all index nodes in a store are short.
pub open spec fn nodes_short(state: StoreView) -> bool {
    forall|id: u64| #[trigger]
        model::store_nodes(state).contains_key(id) ==> keys_short(
            node::node_items(model::store_nodes(state)[id]),
        )
}

/// No new nodes are compact.
pub proof fn lemma_no_overlay(overlay: Map<u64, Node>)
    requires
        overlay == Map::<u64, Node>::empty(),
    ensures
        overlay_compact(overlay),
{
    reveal(overlay_compact);
}

/// One more compact node.
pub proof fn lemma_overlay_insert(overlay: Map<u64, Node>, id: u64, made: Node)
    requires
        overlay_compact(overlay),
        compact(made@),
    ensures
        overlay_compact(overlay.insert(id, made)),
{
    reveal(overlay_compact);
}

/// A new node among compact ones fits in a page.
pub proof fn lemma_overlay_at(overlay: Map<u64, Node>, id: u64)
    requires
        overlay_compact(overlay),
        overlay.contains_key(id),
    ensures
        compact(overlay[id]@),
{
    reveal(overlay_compact);
}

/// The nodes of a store do not depend on which pages are in use.
pub proof fn lemma_store_same(first: StoreView, second: StoreView)
    requires
        store_compact(first),
        second.data == first.data,
    ensures
        store_compact(second),
{
    reveal(store_compact);
    assert(model::store_nodes(second) =~= model::store_nodes(first)) by {
        assert forall|id: u64|
            model::node_read(second, id) == model::node_read(first, id) by {}
    }
}

/// A node in a store fits in its page.
pub proof fn lemma_store_compact(state: StoreView)
    requires
        state.wf(),
        nodes_short(state),
    ensures
        store_compact(state),
{
    reveal(store_compact);
    assert forall|id: u64| #[trigger] model::store_nodes(state).contains_key(id) implies compact(
        model::store_nodes(state)[id],
    ) by {
        if let Ok(Some(found)) = state.read(id) {
            crate::storage::data_file::lemma_read_fits(state.data, id);
            node::law_decoded_is_storable(found.payload);
        }
    }
}

/// A node that an edit reads is compact.
pub proof fn lemma_found_compact(
    overlay: Map<u64, Node>,
    state: StoreView,
    nodes: Map<u64, NodeView>,
    id: u64,
)
    requires
        overlay_compact(overlay),
        store_compact(state),
        nodes == model::store_nodes(state).union_prefer_right(editor::overlay_nodes(overlay)),
        nodes.contains_key(id),
    ensures
        compact(nodes[id]),
{
    reveal(overlay_compact);
    reveal(store_compact);
    if overlay.contains_key(id) {
        assert(editor::overlay_nodes(overlay).contains_key(id));
    } else {
        assert(!editor::overlay_nodes(overlay).contains_key(id));
        assert(model::store_nodes(state).contains_key(id));
    }
}

/// The size of entries side by side.
pub proof fn lemma_size_joined(first: Seq<EntryView>, second: Seq<EntryView>)
    ensures
        node::items_size(first + second) == node::items_size(first) + node::items_size(second),
    decreases second.len(),
{
    if second.len() == 0 {
        assert(first + second =~= first);
    } else {
        let all = first + second;
        lemma_size_joined(first, second.drop_last());
        assert(all.drop_last() =~= first + second.drop_last());
        assert(all.last() == second.last());
    }
}

/// The size of one entry.
pub proof fn lemma_size_one(entry: EntryView)
    ensures
        node::items_size(seq![entry]) == ENTRY_OVERHEAD + entry.key.len(),
{
    let one = seq![entry];
    assert(one.drop_last() =~= Seq::empty());
    assert(one.last() == entry);
    assert(node::items_size(one.drop_last()) == 0);
}

/// Two runs of entries that do not overlap are not larger than all of them.
pub proof fn lemma_size_parts(all: Seq<EntryView>, a: int, b: int, c: int, d: int)
    requires
        0 <= a <= b <= c <= d <= all.len(),
    ensures
        node::items_size(all) >= node::items_size(all.subrange(a, b)) + node::items_size(
            all.subrange(c, d),
        ),
{
    let w = all.subrange(0, a);
    let x = all.subrange(a, b);
    let y = all.subrange(b, c);
    let z = all.subrange(c, d);
    let rest = all.subrange(d, all.len() as int);
    assert(all =~= w + (x + (y + (z + rest))));
    lemma_size_joined(z, rest);
    lemma_size_joined(y, z + rest);
    lemma_size_joined(x, y + (z + rest));
    lemma_size_joined(w, x + (y + (z + rest)));
}

/// A run with the entry behind it.
pub proof fn lemma_size_next(all: Seq<EntryView>, a: int, b: int)
    requires
        0 <= a <= b < all.len(),
    ensures
        node::items_size(all.subrange(a, b + 1)) == node::items_size(all.subrange(a, b))
            + ENTRY_OVERHEAD + all[b].key.len(),
{
    let run = all.subrange(a, b + 1);
    assert(run.drop_last() =~= all.subrange(a, b));
    assert(run.last() == all[b]);
}

/// Short keys take little room.
pub proof fn lemma_short_size(entries: Seq<EntryView>)
    requires
        keys_short(entries),
    ensures
        node::items_size(entries) <= entries.len() * (ENTRY_OVERHEAD + SHORT_KEY_LENGTH),
    decreases entries.len(),
{
    if entries.len() > 0 {
        let head = entries.drop_last();
        assert forall|i: int| 0 <= i < head.len() implies (#[trigger] head[i]).key.len()
            <= SHORT_KEY_LENGTH by {
            assert(head[i] == entries[i]);
        }
        lemma_short_size(head);
        assert(entries.last() == entries[entries.len() - 1]);
        assert(entries.len() * (ENTRY_OVERHEAD + SHORT_KEY_LENGTH) == head.len() * (ENTRY_OVERHEAD
            + SHORT_KEY_LENGTH) + (ENTRY_OVERHEAD + SHORT_KEY_LENGTH)) by (nonlinear_arith)
            requires
                entries.len() == head.len() + 1,
        ;
    }
}

/// Entries that take no more room than two leaves are on three leaves at most.
pub proof fn lemma_few_leaves(all: Seq<EntryView>, ends: Seq<usize>)
    requires
        editor::leaf_runs(all, ends),
        node::items_size(all) <= 2 * NODE_CAPACITY,
    ensures
        ends.len() <= 3,
{
    if ends.len() >= 4 {
        assert(editor::run_start(ends, 0) == 0);
        assert(editor::run_start(ends, 1) == ends[0]);
        assert(editor::run_start(ends, 2) == ends[1]);
        assert(editor::run_start(ends, 3) == ends[2]);
        let e0 = ends[0] as int;
        let e1 = ends[1] as int;
        let e2 = ends[2] as int;
        assert(ends[0] < ends[1] && ends[1] < ends[2] && ends[2] < ends[3]);
        lemma_size_next(all, 0, e0);
        lemma_size_next(all, e1, e2);
        lemma_size_parts(all, 0, e0 + 1, e1, e2 + 1);
    }
}

/// Children whose keys take no more room than three nodes are under three nodes at most.
pub proof fn lemma_few_parents(all: Seq<EntryView>, ends: Seq<usize>)
    requires
        editor::internal_runs(all, ends),
        node::items_size(all) <= 3 * NODE_CAPACITY,
    ensures
        ends.len() <= 3,
{
    if ends.len() >= 4 {
        assert(editor::run_start(ends, 0) == 0);
        assert(editor::run_start(ends, 1) == ends[0]);
        assert(editor::run_start(ends, 2) == ends[1]);
        assert(editor::run_start(ends, 3) == ends[2]);
        let e0 = ends[0] as int;
        let e1 = ends[1] as int;
        let e2 = ends[2] as int;
        assert(ends[0] < ends[1] && ends[1] < ends[2] && ends[2] < ends[3]);
        lemma_size_next(all, 1, e0);
        lemma_size_next(all, e0 + 1, e1);
        lemma_size_next(all, e1 + 1, e2);
        lemma_size_parts(all, 1, e0 + 1, e0 + 1, e1 + 1);
        let front = all.subrange(0, e1 + 1);
        lemma_size_parts(front, 1, e0 + 1, e0 + 1, e1 + 1);
        assert(front.subrange(1, e0 + 1) =~= all.subrange(1, e0 + 1));
        assert(front.subrange(e0 + 1, e1 + 1) =~= all.subrange(e0 + 1, e1 + 1));
        lemma_size_parts(all, 0, e1 + 1, e1 + 1, e2 + 1);
    }
}

/// A part of entries with short keys has short keys.
pub proof fn lemma_short_part(all: Seq<EntryView>, a: int, b: int)
    requires
        keys_short(all),
        0 <= a <= b <= all.len(),
    ensures
        keys_short(all.subrange(a, b)),
{
    let part = all.subrange(a, b);
    assert forall|i: int| 0 <= i < part.len() implies (#[trigger] part[i]).key.len()
        <= SHORT_KEY_LENGTH by {
        assert(part[i] == all[a + i]);
    }
}

/// Children with one of them replaced by a few take little more room.
pub proof fn lemma_spliced_size(all: Seq<EntryView>, at: int, fresh: Seq<EntryView>)
    requires
        0 <= at < all.len(),
        keys_short(all),
        keys_short(fresh),
        fresh.len() <= 3,
        node::items_size(all) <= NODE_CAPACITY + ENTRY_OVERHEAD + SHORT_KEY_LENGTH,
    ensures
        keys_short(model::spliced(all, at, fresh)),
        node::items_size(model::spliced(all, at, fresh)) <= 3 * NODE_CAPACITY,
{
    let joined = model::spliced(all, at, fresh);
    let head = all.take(at);
    let tail = all.skip(at + 1);
    assert forall|i: int| 0 <= i < joined.len() implies (#[trigger] joined[i]).key.len()
        <= SHORT_KEY_LENGTH by {
        if i < at {
            assert(joined[i] == all[i]);
        } else if i < at + fresh.len() {
            assert(joined[i] == fresh[i - at]);
        } else {
            assert(joined[i] == all[i - fresh.len() + 1]);
        }
    }
    lemma_size_joined(head + fresh, tail);
    lemma_size_joined(head, fresh);
    lemma_short_size(fresh);
    lemma_size_parts(all, 0, at, at + 1, all.len() as int);
    assert(all.subrange(0, at) =~= head);
    assert(all.subrange(at + 1, all.len() as int) =~= tail);
}

} // verus!
