//! Scanning a range of keys in order.
use crate::index::cache::NodeCache;
use crate::index::editor;
use crate::index::error::{corrupt, IndexError, IndexErrorView};
use crate::index::key;
use crate::index::key::{order_keys, KeyOrder};
use crate::index::model;
use crate::index::node;
use crate::index::node::{EntryView, IndexEntry, Node, NodeView};
use crate::index::pages;
use crate::index::plan;
use crate::index::plan::IndexRoot;
use crate::index::read;
use crate::index::read::{count_up_to, read_node};
use crate::index::tree::BPlusTree;
use crate::storage::group_commit::GroupCommitHandle;
use crate::storage::page::PageId;
use crate::storage::store::StoreView;
use std::collections::HashSet;
use vstd::prelude::*;

verus! {

broadcast use vstd::std_specs::hash::group_hash_axioms;

/// The bytes of an optional bound.
pub open spec fn bound_view(bound: Option<&[u8]>) -> Option<Seq<u8>> {
    match bound {
        None => None,
        Some(bytes) => Some(bytes@),
    }
}

/// Whether a key is in `[start, end)`.
pub open spec fn in_range(k: Seq<u8>, start: Option<Seq<u8>>, end: Option<Seq<u8>>) -> bool {
    model::above(k, start) && model::below(k, end)
}

/// The entries whose keys are in `[start, end)`, in order.
pub open spec fn selected(
    entries: Seq<EntryView>,
    start: Option<Seq<u8>>,
    end: Option<Seq<u8>>,
) -> Seq<EntryView>
    decreases entries.len(),
{
    if entries.len() == 0 {
        Seq::empty()
    } else if in_range(entries.last().key, start, end) {
        selected(entries.drop_last(), start, end).push(entries.last())
    } else {
        selected(entries.drop_last(), start, end)
    }
}

/// At most the first so many.
pub open spec fn at_most(entries: Seq<EntryView>, limit: nat) -> Seq<EntryView> {
    if entries.len() <= limit {
        entries
    } else {
        entries.take(limit as int)
    }
}

/// What a scan makes of one leaf.
pub enum LeafScanView {
    /// The range or the limit ended.
    Over(Seq<EntryView>),
    /// The scan goes on with the next leaf.
    More(Seq<EntryView>),
    /// A key does not follow the one before.
    Disordered,
}

/// What a scan that has found some entries makes of the entries of a leaf.
pub open spec fn leaf_scanned(
    found: Seq<EntryView>,
    entries: Seq<EntryView>,
    start: Option<Seq<u8>>,
    end: Option<Seq<u8>>,
    limit: nat,
) -> LeafScanView
    decreases entries.len(),
{
    if entries.len() == 0 {
        LeafScanView::More(found)
    } else if !model::above(entries[0].key, start) {
        leaf_scanned(found, entries.drop_first(), start, end, limit)
    } else if !model::below(entries[0].key, end) {
        LeafScanView::Over(found)
    } else if found.len() > 0 && !key::key_lt(found.last().key, entries[0].key) {
        LeafScanView::Disordered
    } else if found.len() + 1 == limit {
        LeafScanView::Over(found.push(entries[0]))
    } else {
        leaf_scanned(found.push(entries[0]), entries.drop_first(), start, end, limit)
    }
}

/// The subtrees under an internal node from a given one on, the last first: their pages and levels.
pub open spec fn subtrees_from(
    first_child: u64,
    separators: Seq<EntryView>,
    level: u16,
    from: int,
) -> Seq<(u64, u16)> {
    Seq::new(
        (separators.len() + 1 - from) as nat,
        |i: int|
            if i == separators.len() {
                (first_child, level)
            } else {
                (separators[separators.len() - 1 - i].value, level)
            },
    )
}

/// Why a page ends a scan.
pub open spec fn unfit(page: u64, reason: Seq<char>) -> IndexErrorView {
    IndexErrorView::CorruptNode { page_id: page, reason }
}

/// What a scan comes to, whatever the pages hold, from the subtrees still to be visited (the last
/// is next), the pages visited, whether it has yet to reach its first leaf, and the entries found.
/// It ends at the first page that it cannot go on from.
pub open spec fn walked(
    state: StoreView,
    visits: Seq<(u64, u16)>,
    visited: Set<u64>,
    descending: bool,
    found: Seq<EntryView>,
    start: Option<Seq<u8>>,
    end: Option<Seq<u8>>,
    limit: nat,
) -> Result<Seq<EntryView>, IndexErrorView>
    decreases editor::unvisited(visited).len(),
{
    if visits.len() == 0 {
        Ok(found)
    } else if visited.contains(visits.last().0) {
        Err(unfit(visits.last().0, "index tree contains a page cycle"@))
    } else {
        proof {
            editor::lemma_visit(visited, visits.last().0);
        }
        let (page, level) = visits.last();
        let others = visits.drop_last();
        let seen = visited.insert(page);
        match model::node_read(state, page) {
            Err(error) => Err(error),
            Ok(read) => if node::node_level(read) != level {
                Err(unfit(page, "node level does not match tree height"@))
            } else {
                match read {
                    NodeView::Leaf { entries, .. } => match leaf_scanned(
                        found,
                        entries,
                        start,
                        end,
                        limit,
                    ) {
                        LeafScanView::Over(all) => Ok(all),
                        LeafScanView::More(more) => walked(
                            state,
                            others,
                            seen,
                            false,
                            more,
                            start,
                            end,
                            limit,
                        ),
                        LeafScanView::Disordered => Err(
                            unfit(page, "leaf chain is not strictly ordered"@),
                        ),
                    },
                    NodeView::Internal { first_child, separators, .. } => if level == 0 {
                        Err(unfit(page, "internal node below leaf level"@))
                    } else {
                        let from = if descending {
                            read::rank(separators, lowest(start)) as int
                        } else {
                            0
                        };
                        walked(
                            state,
                            others + subtrees_from(
                                first_child,
                                separators,
                                (level - 1) as u16,
                                from,
                            ),
                            seen,
                            descending,
                            found,
                            start,
                            end,
                            limit,
                        )
                    },
                }
            },
        }
    }
}

/// The least key that a range can hold.
pub open spec fn lowest(start: Option<Seq<u8>>) -> Seq<u8> {
    match start {
        None => Seq::empty(),
        Some(bytes) => bytes,
    }
}

/// What scanning `[start, end)` from a root for at most `limit` entries gives, whatever the pages
/// hold.
pub open spec fn scanned(
    state: StoreView,
    root: IndexRoot,
    start: Option<Seq<u8>>,
    end: Option<Seq<u8>>,
    limit: nat,
) -> Result<Seq<EntryView>, IndexErrorView> {
    if limit == 0 {
        Ok(Seq::empty())
    } else if start is Some && end is Some && !key::key_lt(start->0, end->0) {
        Ok(Seq::empty())
    } else if root.height == 0 {
        Err(unfit(root.page_id.0, "root height cannot be zero"@))
    } else {
        walked(
            state,
            seq![(root.page_id.0, (root.height - 1) as u16)],
            Set::empty(),
            true,
            Seq::empty(),
            start,
            end,
            limit,
        )
    }
}

pub proof fn lemma_selected_concat(
    first: Seq<EntryView>,
    second: Seq<EntryView>,
    start: Option<Seq<u8>>,
    end: Option<Seq<u8>>,
)
    ensures
        selected(first + second, start, end) == selected(first, start, end) + selected(
            second,
            start,
            end,
        ),
    decreases second.len(),
{
    let all = first + second;
    if second.len() == 0 {
        assert(all =~= first);
        assert(selected(first, start, end) + selected(second, start, end) =~= selected(
            first,
            start,
            end,
        ));
    } else {
        assert(all.last() == second.last());
        assert(all.drop_last() =~= first + second.drop_last());
        lemma_selected_concat(first, second.drop_last(), start, end);
        assert(selected(all, start, end) =~= selected(first, start, end) + selected(
            second,
            start,
            end,
        ));
    }
}

pub proof fn lemma_none_selected(
    entries: Seq<EntryView>,
    start: Option<Seq<u8>>,
    end: Option<Seq<u8>>,
)
    requires
        forall|i: int|
            0 <= i < entries.len() ==> !in_range((#[trigger] entries[i]).key, start, end),
    ensures
        selected(entries, start, end) =~= Seq::<EntryView>::empty(),
    decreases entries.len(),
{
    if entries.len() > 0 {
        assert(entries.last() == entries[entries.len() - 1]);
        let head = entries.drop_last();
        assert forall|i: int| 0 <= i < head.len() implies !in_range(
            (#[trigger] head[i]).key,
            start,
            end,
        ) by {
            assert(head[i] == entries[i]);
        }
        lemma_none_selected(head, start, end);
    }
}

pub proof fn lemma_selected_member(
    entries: Seq<EntryView>,
    start: Option<Seq<u8>>,
    end: Option<Seq<u8>>,
    at: int,
) -> (from: int)
    requires
        0 <= at < selected(entries, start, end).len(),
    ensures
        0 <= from < entries.len(),
        selected(entries, start, end)[at] == entries[from],
        in_range(entries[from].key, start, end),
    decreases entries.len(),
{
    let before = selected(entries.drop_last(), start, end);
    if at < before.len() {
        lemma_selected_member(entries.drop_last(), start, end, at)
    } else {
        entries.len() - 1
    }
}

/// A subtree still to be scanned.
struct Visit {
    page_id: PageId,
    level: u16,
}

spec fn visit_views(visits: Seq<Visit>) -> Seq<(u64, u16)> {
    Seq::new(visits.len(), |i: int| (visits[i].page_id.0, visits[i].level))
}

/// The entries of subtrees still to be scanned; the last is next.
spec fn visit_entries(nodes: Map<u64, NodeView>, visits: Seq<Visit>) -> Seq<EntryView>
    decreases visits.len(),
{
    if visits.len() == 0 {
        Seq::empty()
    } else {
        model::tree_entries(nodes, visits.last().page_id.0, visits.last().level as nat)
            + visit_entries(nodes, visits.drop_last())
    }
}

spec fn visit_pages(nodes: Map<u64, NodeView>, visits: Seq<Visit>) -> Seq<u64>
    decreases visits.len(),
{
    if visits.len() == 0 {
        Seq::empty()
    } else {
        model::tree_pages(nodes, visits.last().page_id.0, visits.last().level as nat) + visit_pages(
            nodes,
            visits.drop_last(),
        )
    }
}

spec fn visits_hold(nodes: Map<u64, NodeView>, live: Set<u64>, visits: Seq<Visit>) -> bool {
    forall|i: int|
        0 <= i < visits.len() ==> model::is_tree(
            nodes,
            live,
            (#[trigger] visits[i]).page_id.0,
            visits[i].level as nat,
            None,
            None,
        )
}

/// The subtree with a given number under an internal node.
spec fn child_visit(first_child: PageId, separators: Seq<IndexEntry>, level: u16, at: int) -> Visit {
    Visit {
        page_id: if at == 0 {
            first_child
        } else {
            separators[at - 1].value
        },
        level,
    }
}

/// The subtrees under an internal node from a given one on, the last first.
spec fn row(first_child: PageId, separators: Seq<IndexEntry>, level: u16, from: int) -> Seq<Visit> {
    Seq::new(
        (separators.len() + 1 - from) as nat,
        |i: int| child_visit(first_child, separators, level, separators.len() - i),
    )
}

spec fn later_entries(nodes: Map<u64, NodeView>, kids: Seq<EntryView>, level: nat, from: int) -> Seq<
    EntryView,
>
    decreases kids.len() - from,
{
    if from < 0 || from >= kids.len() {
        Seq::empty()
    } else {
        model::tree_entries(nodes, kids[from].value, level) + later_entries(
            nodes,
            kids,
            level,
            from + 1,
        )
    }
}

spec fn later_pages(nodes: Map<u64, NodeView>, kids: Seq<EntryView>, level: nat, from: int) -> Seq<u64>
    decreases kids.len() - from,
{
    if from < 0 || from >= kids.len() {
        Seq::empty()
    } else {
        model::tree_pages(nodes, kids[from].value, level) + later_pages(
            nodes,
            kids,
            level,
            from + 1,
        )
    }
}

proof fn lemma_forest_split(nodes: Map<u64, NodeView>, kids: Seq<EntryView>, level: nat, from: int)
    requires
        0 <= from <= kids.len(),
    ensures
        model::forest_entries(nodes, kids, level) == model::forest_entries(
            nodes,
            kids.take(from),
            level,
        ) + later_entries(nodes, kids, level, from),
        model::forest_pages(nodes, kids, level) == model::forest_pages(
            nodes,
            kids.take(from),
            level,
        ) + later_pages(nodes, kids, level, from),
    decreases kids.len() - from,
{
    if from == kids.len() {
        assert(kids.take(from) =~= kids);
        assert(model::forest_entries(nodes, kids, level) =~= model::forest_entries(
            nodes,
            kids.take(from),
            level,
        ) + later_entries(nodes, kids, level, from));
        assert(model::forest_pages(nodes, kids, level) =~= model::forest_pages(
            nodes,
            kids.take(from),
            level,
        ) + later_pages(nodes, kids, level, from));
    } else {
        lemma_forest_split(nodes, kids, level, from + 1);
        let more = kids.take(from + 1);
        assert(more.drop_last() =~= kids.take(from));
        assert(more.last() == kids[from]);
        assert(model::forest_entries(nodes, kids, level) =~= model::forest_entries(
            nodes,
            kids.take(from),
            level,
        ) + later_entries(nodes, kids, level, from));
        assert(model::forest_pages(nodes, kids, level) =~= model::forest_pages(
            nodes,
            kids.take(from),
            level,
        ) + later_pages(nodes, kids, level, from));
    }
}

proof fn lemma_row(
    nodes: Map<u64, NodeView>,
    base: Seq<Visit>,
    first_child: PageId,
    separators: Seq<IndexEntry>,
    level: u16,
    from: int,
)
    requires
        1 <= from <= separators.len() + 1,
    ensures
        visit_entries(nodes, base + row(first_child, separators, level, from)) == later_entries(
            nodes,
            node::entry_views(separators),
            level as nat,
            from - 1,
        ) + visit_entries(nodes, base),
        visit_pages(nodes, base + row(first_child, separators, level, from)) == later_pages(
            nodes,
            node::entry_views(separators),
            level as nat,
            from - 1,
        ) + visit_pages(nodes, base),
    decreases separators.len() + 1 - from,
{
    let visits = base + row(first_child, separators, level, from);
    let kids = node::entry_views(separators);
    if from == separators.len() + 1 {
        assert(visits =~= base);
        assert(visit_entries(nodes, visits) =~= later_entries(nodes, kids, level as nat, from - 1)
            + visit_entries(nodes, base));
        assert(visit_pages(nodes, visits) =~= later_pages(nodes, kids, level as nat, from - 1)
            + visit_pages(nodes, base));
    } else {
        lemma_row(nodes, base, first_child, separators, level, from + 1);
        assert(visits.drop_last() =~= base + row(first_child, separators, level, from + 1));
        assert(visits.last() == child_visit(first_child, separators, level, from));
        assert(kids[from - 1].value == separators[from - 1].value.0);
        assert(visit_entries(nodes, visits) =~= later_entries(nodes, kids, level as nat, from - 1)
            + visit_entries(nodes, base));
        assert(visit_pages(nodes, visits) =~= later_pages(nodes, kids, level as nat, from - 1)
            + visit_pages(nodes, base));
    }
}

/// Whether every key is before a bound.
spec fn all_before(entries: Seq<EntryView>, bound: Seq<u8>) -> bool {
    forall|i: int| 0 <= i < entries.len() ==> key::key_lt((#[trigger] entries[i]).key, bound)
}

/// Going from an internal node to its children from one position on leaves out its page and
/// entries that are all before the bound.
proof fn lemma_opened(
    nodes: Map<u64, NodeView>,
    live: Set<u64>,
    base: Seq<Visit>,
    page: u64,
    level: u16,
    first_child: PageId,
    separators: Seq<IndexEntry>,
    position: int,
    bound: Seq<u8>,
) -> (skipped: (Seq<EntryView>, Seq<u64>))
    requires
        level > 0,
        model::is_tree(nodes, live, page, level as nat, None, None),
        nodes[page] == (NodeView::Internal {
            level,
            first_child: first_child.0,
            separators: node::entry_views(separators),
        }),
        visits_hold(nodes, live, base),
        0 <= position <= separators.len(),
        forall|i: int|
            0 <= i < position ==> key::key_le((#[trigger] separators[i])@.key, bound),
    ensures
        visits_hold(nodes, live, base + row(first_child, separators, (level - 1) as u16, position)),
        model::tree_entries(nodes, page, level as nat) + visit_entries(nodes, base) == skipped.0
            + visit_entries(
            nodes,
            base + row(first_child, separators, (level - 1) as u16, position),
        ),
        model::tree_pages(nodes, page, level as nat) + visit_pages(nodes, base) == skipped.1
            + visit_pages(
            nodes,
            base + row(first_child, separators, (level - 1) as u16, position),
        ),
        skipped.1.len() > 0,
        skipped.1[0] == page,
        all_before(skipped.0, bound),
{
    let under = (level - 1) as u16;
    let depth = under as nat;
    let kids = node::entry_views(separators);
    let visits = base + row(first_child, separators, under, position);
    let first_entries = model::tree_entries(nodes, first_child.0, depth);
    let first_pages = model::tree_pages(nodes, first_child.0, depth);
    assert(model::are_trees(nodes, live, kids, depth, None));
    assert forall|i: int| 0 <= i < visits.len() implies model::is_tree(
        nodes,
        live,
        (#[trigger] visits[i]).page_id.0,
        visits[i].level as nat,
        None,
        None,
    ) by {
        if i < base.len() {
            assert(visits[i] == base[i]);
        } else {
            let at = separators.len() - (i - base.len());
            assert(visits[i] == child_visit(first_child, separators, under, at));
            if at == 0 {
                model::lemma_tree_widen(
                    nodes,
                    live,
                    first_child.0,
                    depth,
                    None,
                    model::bound_at(kids, 0, None),
                    None,
                    None,
                );
            } else {
                assert(kids[at - 1].value == separators[at - 1].value.0);
                model::lemma_tree_widen(
                    nodes,
                    live,
                    kids[at - 1].value,
                    depth,
                    Some(kids[at - 1].key),
                    model::bound_at(kids, at, None),
                    None,
                    None,
                );
            }
        }
    }
    if position == 0 {
        lemma_row(nodes, base, first_child, separators, under, 1);
        lemma_forest_split(nodes, kids, depth, 0);
        assert(kids.take(0) =~= Seq::empty());
        assert(visits.drop_last() =~= base + row(first_child, separators, under, 1));
        assert(visits.last() == child_visit(first_child, separators, under, 0));
        let skipped = (Seq::<EntryView>::empty(), seq![page]);
        assert(model::tree_entries(nodes, page, level as nat) + visit_entries(nodes, base)
            =~= skipped.0 + visit_entries(nodes, visits));
        assert(model::tree_pages(nodes, page, level as nat) + visit_pages(nodes, base)
            =~= skipped.1 + visit_pages(nodes, visits));
        skipped
    } else {
        lemma_row(nodes, base, first_child, separators, under, position);
        lemma_forest_split(nodes, kids, depth, position - 1);
        let left = kids.take(position - 1);
        let left_entries = model::forest_entries(nodes, left, depth);
        let skipped = (
            first_entries + left_entries,
            seq![page] + (first_pages + model::forest_pages(nodes, left, depth)),
        );
        assert(model::tree_entries(nodes, page, level as nat) + visit_entries(nodes, base)
            =~= skipped.0 + visit_entries(nodes, visits));
        assert(model::tree_pages(nodes, page, level as nat) + visit_pages(nodes, base)
            =~= skipped.1 + visit_pages(nodes, visits));
        let edge = Some(kids[position - 1].key);
        model::lemma_trees_take(nodes, live, kids, depth, None, position - 1);
        model::lemma_tree_sorted(
            nodes,
            live,
            first_child.0,
            depth,
            None,
            model::bound_at(kids, 0, None),
        );
        assert forall|i: int| 0 <= i < left.len() implies model::above(
            (#[trigger] left[i]).key,
            None,
        ) && model::below(left[i].key, edge) && left[i].key.len() <= model::MAX_KEY_LENGTH by {
            assert(left[i] == kids[i]);
            assert(key::key_lt(kids[i].key, kids[position - 1].key));
        }
        model::lemma_forest_sorted(nodes, live, left, depth, None, edge);
        assert forall|i: int| 0 <= i < skipped.0.len() implies key::key_lt(
            (#[trigger] skipped.0[i]).key,
            bound,
        ) by {
            assert(kids[0] == separators[0]@ && kids[position - 1] == separators[position - 1]@);
            if i < first_entries.len() {
                assert(skipped.0[i] == first_entries[i]);
                key::lemma_key_chain(first_entries[i].key, kids[0].key, bound);
            } else {
                let j = i - first_entries.len();
                assert(skipped.0[i] == left_entries[j]);
                key::lemma_key_chain(left_entries[j].key, kids[position - 1].key, bound);
            }
        }
        skipped
    }
}

/// Puts the children of an internal node from a position on up for scanning.
fn open_children(
    visits: &mut Vec<Visit>,
    first_child: PageId,
    separators: &Vec<IndexEntry>,
    level: u16,
    position: usize,
)
    requires
        position <= separators@.len(),
    ensures
        final(visits)@ == old(visits)@ + row(first_child, separators@, level, position as int),
{
    let count: usize = separators.len();
    let mut at: usize = count;
    assert(visits@ =~= old(visits)@ + row(first_child, separators@, level, at + 1));
    while at > position
        invariant
            position <= at <= count == separators@.len(),
            visits@ == old(visits)@ + row(first_child, separators@, level, at + 1),
        decreases at,
    {
        visits.push(Visit { page_id: separators[at - 1].value, level });
        assert(visits@ =~= old(visits)@ + row(first_child, separators@, level, at as int));
        at = at - 1;
    }
    let page_id = if position == 0 {
        first_child
    } else {
        separators[position - 1].value
    };
    visits.push(Visit { page_id, level });
    assert(visits@ =~= old(visits)@ + row(first_child, separators@, level, position as int));
}

/// What has been scanned of an index, and what is still to come.
spec fn scan_state(
    nodes: Map<u64, NodeView>,
    live: Set<u64>,
    all: Seq<EntryView>,
    all_pages: Seq<u64>,
    done: Seq<EntryView>,
    gone: Seq<u64>,
    visits: Seq<Visit>,
    visited: Set<u64>,
) -> bool {
    &&& visits_hold(nodes, live, visits)
    &&& all == done + visit_entries(nodes, visits)
    &&& all_pages == gone + visit_pages(nodes, visits)
    &&& forall|id: u64| #[trigger] visited.contains(id) ==> gone.contains(id)
}

/// Whether a result so far is as any result must be: no longer than the limit, in order and in
/// the range.
pub open spec fn range_result(
    found: Seq<EntryView>,
    start: Option<Seq<u8>>,
    end: Option<Seq<u8>>,
    limit: nat,
) -> bool {
    &&& found.len() <= limit
    &&& node::keys_rise(found)
    &&& forall|i: int| 0 <= i < found.len() ==> in_range((#[trigger] found[i]).key, start, end)
}

/// A scan that met an entry past the end has found everything.
proof fn lemma_past_end(
    all: Seq<EntryView>,
    done: Seq<EntryView>,
    start: Option<Seq<u8>>,
    end: Seq<u8>,
)
    requires
        node::keys_rise(all),
        done.len() < all.len(),
        done == all.take(done.len() as int),
        !key::key_lt(all[done.len() as int].key, end),
    ensures
        selected(all, start, Some(end)) == selected(done, start, Some(end)),
{
    let rest = all.skip(done.len() as int);
    assert(all =~= done + rest);
    lemma_selected_concat(done, rest, start, Some(end));
    assert forall|i: int| 0 <= i < rest.len() implies !in_range(
        (#[trigger] rest[i]).key,
        start,
        Some(end),
    ) by {
        let at = done.len() as int;
        assert(rest[i] == all[at + i]);
        if i > 0 {
            assert(key::key_lt(all[at].key, all[at + i].key));
            if key::key_lt(all[at + i].key, end) {
                key::lemma_key_transitive(all[at].key, all[at + i].key, end);
            }
        }
    }
    lemma_none_selected(rest, start, Some(end));
    assert(selected(all, start, Some(end)) =~= selected(done, start, Some(end)));
}

/// A scan that reached its limit has the first entries of the range.
proof fn lemma_limit_reached(
    all: Seq<EntryView>,
    done: Seq<EntryView>,
    start: Option<Seq<u8>>,
    end: Option<Seq<u8>>,
)
    requires
        done.len() <= all.len(),
        done == all.take(done.len() as int),
    ensures
        at_most(selected(all, start, end), selected(done, start, end).len()) == selected(
            done,
            start,
            end,
        ),
{
    let rest = all.skip(done.len() as int);
    assert(all =~= done + rest);
    lemma_selected_concat(done, rest, start, end);
    assert(at_most(selected(all, start, end), selected(done, start, end).len()) =~= selected(
        done,
        start,
        end,
    ));
}

/// What came of one leaf.
enum LeafScan {
    Over,
    More,
    Disordered,
}

spec fn leaf_view(scan: LeafScan, found: Seq<EntryView>) -> LeafScanView {
    match scan {
        LeafScan::Over => LeafScanView::Over(found),
        LeafScan::More => LeafScanView::More(found),
        LeafScan::Disordered => LeafScanView::Disordered,
    }
}

/// Whether a leaf comes next in a scan of an index.
spec fn leaf_follows(
    all: Seq<EntryView>,
    done: Seq<EntryView>,
    leaf: Seq<EntryView>,
    found: Seq<EntryView>,
    start: Option<Seq<u8>>,
    end: Option<Seq<u8>>,
) -> bool {
    &&& node::keys_rise(all)
    &&& done.len() + leaf.len() <= all.len()
    &&& done + leaf == all.take((done.len() + leaf.len()) as int)
    &&& found == selected(done, start, end)
}

/// Takes the entries of a leaf that are in the range.
fn scan_leaf(
    found: &mut Vec<IndexEntry>,
    entries: &Vec<IndexEntry>,
    start: Option<&[u8]>,
    end: Option<&[u8]>,
    limit: usize,
    Ghost(all): Ghost<Seq<EntryView>>,
    Ghost(done): Ghost<Seq<EntryView>>,
) -> (scan: LeafScan)
    requires
        old(found)@.len() < limit,
        range_result(
            node::entry_views(old(found)@),
            bound_view(start),
            bound_view(end),
            limit as nat,
        ),
    ensures
        range_result(
            node::entry_views(final(found)@),
            bound_view(start),
            bound_view(end),
            limit as nat,
        ),
        scan is More ==> final(found)@.len() < limit,
        leaf_view(scan, node::entry_views(final(found)@)) == leaf_scanned(
            node::entry_views(old(found)@),
            node::entry_views(entries@),
            bound_view(start),
            bound_view(end),
            limit as nat,
        ),
        leaf_follows(
            all,
            done,
            node::entry_views(entries@),
            node::entry_views(old(found)@),
            bound_view(start),
            bound_view(end),
        ) ==> match scan {
            LeafScan::Over => node::entry_views(final(found)@) == at_most(
                selected(all, bound_view(start), bound_view(end)),
                limit as nat,
            ),
            LeafScan::More => node::entry_views(final(found)@) == selected(
                done + node::entry_views(entries@),
                bound_view(start),
                bound_view(end),
            ),
            LeafScan::Disordered => false,
        },
{
    let ghost leaf = node::entry_views(entries@);
    let ghost low = bound_view(start);
    let ghost high = bound_view(end);
    let ghost fits = leaf_follows(all, done, leaf, node::entry_views(old(found)@), low, high);
    let ghost outcome = leaf_scanned(node::entry_views(found@), leaf, low, high, limit as nat);
    let mut index: usize = 0;
    assert(leaf.skip(0) =~= leaf);
    assert(done + leaf.take(0) =~= done);
    while index < entries.len()
        invariant
            index <= entries@.len(),
            leaf == node::entry_views(entries@),
            low == bound_view(start),
            high == bound_view(end),
            found@.len() < limit,
            range_result(node::entry_views(found@), low, high, limit as nat),
            outcome == leaf_scanned(
                node::entry_views(old(found)@),
                leaf,
                low,
                high,
                limit as nat,
            ),
            outcome == leaf_scanned(
                node::entry_views(found@),
                leaf.skip(index as int),
                low,
                high,
                limit as nat,
            ),
            fits == leaf_follows(all, done, leaf, node::entry_views(old(found)@), low, high),
            fits ==> {
                &&& node::keys_rise(all)
                &&& done + leaf == all.take((done.len() + leaf.len()) as int)
                &&& done.len() + leaf.len() <= all.len()
                &&& node::entry_views(found@) == selected(done + leaf.take(index as int), low, high)
            },
        decreases entries@.len() - index,
    {
        let entry = &entries[index];
        let ghost so_far = done + leaf.take(index as int);
        let ghost taken = done + leaf.take(index + 1);
        proof {
            assert(leaf[index as int] == entry@);
            assert(leaf.skip(index as int)[0] == entry@);
            assert(leaf.skip(index as int).drop_first() =~= leaf.skip(index + 1));
            assert(taken.drop_last() =~= so_far);
            assert(taken.last() == entry@);
            if fits {
                assert(so_far =~= all.take(so_far.len() as int)) by {
                    assert forall|i: int| 0 <= i < so_far.len() implies so_far[i] == all[i] by {
                        assert((done + leaf)[i] == all.take((done.len() + leaf.len()) as int)[i]);
                    }
                }
                assert(taken =~= all.take(taken.len() as int)) by {
                    assert forall|i: int| 0 <= i < taken.len() implies taken[i] == all[i] by {
                        assert((done + leaf)[i] == all.take((done.len() + leaf.len()) as int)[i]);
                    }
                }
                assert(taken[so_far.len() as int] == entry@);
            }
        }
        let before_start = match start {
            None => false,
            Some(bytes) => match order_keys(entry.key.as_slice(), bytes) {
                KeyOrder::Before => true,
                _ => false,
            },
        };
        if before_start {
            proof {
                if let Some(bytes) = low {
                    if key::key_le(bytes, entry@.key) {
                        key::lemma_key_asymmetric(bytes, entry@.key);
                    }
                }
                assert(!model::above(entry@.key, low));
            }
            index = index + 1;
            continue ;
        }
        proof {
            if let Some(bytes) = low {
                key::lemma_key_total(bytes, entry@.key);
            }
            assert(model::above(entry@.key, low));
        }
        let past_end = match end {
            None => false,
            Some(bytes) => match order_keys(entry.key.as_slice(), bytes) {
                KeyOrder::Before => false,
                _ => true,
            },
        };
        if past_end {
            proof {
                if fits {
                    lemma_past_end(all, so_far, low, high->0);
                }
            }
            return LeafScan::Over;
        }
        assert(in_range(entry@.key, low, high));
        let ghost views = node::entry_views(found@);
        if found.len() > 0 {
            let last: usize = found.len() - 1;
            let in_order = match order_keys(found[last].key.as_slice(), entry.key.as_slice()) {
                KeyOrder::Before => true,
                _ => false,
            };
            assert(views[last as int] == found@[last as int]@);
            if !in_order {
                proof {
                    if fits {
                        let from = lemma_selected_member(so_far, low, high, last as int);
                        assert(all[from] == so_far[from]);
                        assert(all[so_far.len() as int] == entry@);
                        assert(key::key_lt(all[from].key, all[so_far.len() as int].key));
                    }
                }
                return LeafScan::Disordered;
            }
        }
        let copy = entry.duplicate();
        found.push(copy);
        proof {
            assert(node::entry_views(found@) =~= views.push(entry@));
            node::lemma_keys_rise_push(views, entry@);
        }
        if found.len() == limit {
            proof {
                if fits {
                    lemma_limit_reached(all, taken, low, high);
                }
            }
            return LeafScan::Over;
        }
        index = index + 1;
    }
    assert(leaf.take(index as int) =~= leaf);
    LeafScan::More
}

/// Whether the root of an index leads to a tree, whatever number of entries it claims.
pub open spec fn root_is_tree(state: StoreView, root: IndexRoot) -> bool {
    &&& root.height > 0
    &&& model::is_tree(
        model::store_nodes(state),
        model::live_pages(state),
        root.page_id.0,
        (root.height - 1) as nat,
        None,
        None,
    )
}

/// A scan for one entry that has come to a tree finds one.
proof fn lemma_walk_finds(
    state: StoreView,
    visits: Seq<(u64, u16)>,
    visited: Set<u64>,
    level: nat,
    low: Option<Seq<u8>>,
    high: Option<Seq<u8>>,
)
    requires
        visits.len() > 0,
        visits.last().1 == level,
        model::is_tree(
            model::store_nodes(state),
            model::live_pages(state),
            visits.last().0,
            level,
            low,
            high,
        ),
        forall|id: u64| #[trigger]
            visited.contains(id) ==> node::node_level(model::store_nodes(state)[id]) > level,
    ensures
        walked(state, visits, visited, true, Seq::empty(), None, None, 1) is Ok,
    decreases level,
{
    let nodes = model::store_nodes(state);
    let live = model::live_pages(state);
    let page = visits.last().0;
    assert(nodes.contains_key(page));
    assert(node::node_level(nodes[page]) == level);
    match nodes[page] {
        NodeView::Leaf { entries, next } => {
            assert(leaf_scanned(Seq::empty(), entries, None, None, 1) is Over);
        },
        NodeView::Internal { level: own, first_child, separators } => {
            let under = (level - 1) as nat;
            let from = read::rank(separators, lowest(None)) as int;
            read::lemma_rank_splits(separators, lowest(None));
            let rest = subtrees_from(first_child, separators, (visits.last().1 - 1) as u16, from);
            let next = visits.drop_last() + rest;
            assert(next.last() == rest.last());
            let seen = visited.insert(page);
            if from == 0 {
                assert(next.last().0 == first_child);
                lemma_walk_finds(
                    state,
                    next,
                    seen,
                    under,
                    low,
                    model::bound_at(separators, 0, high),
                );
            } else {
                assert(next.last().0 == separators[from - 1].value);
                assert(model::are_trees(nodes, live, separators, under, high));
                assert(model::is_tree(
                    nodes,
                    live,
                    separators[from - 1].value,
                    under,
                    Some(separators[from - 1].key),
                    model::bound_at(separators, from, high),
                ));
                lemma_walk_finds(
                    state,
                    next,
                    seen,
                    under,
                    Some(separators[from - 1].key),
                    model::bound_at(separators, from, high),
                );
            }
        },
    }
}

/// The first entry of an index is found.
pub proof fn lemma_first_entry_found(state: StoreView, root: IndexRoot)
    requires
        root_is_tree(state, root),
    ensures
        scanned(state, root, None, None, 1) is Ok,
{
    lemma_walk_finds(
        state,
        seq![(root.page_id.0, (root.height - 1) as u16)],
        Set::empty(),
        (root.height - 1) as nat,
        None,
        None,
    );
}

/// The outcome of a scan as plain values.
pub open spec fn found_view(found: Result<Vec<IndexEntry>, IndexError>) -> Result<
    Seq<EntryView>,
    IndexErrorView,
> {
    match found {
        Ok(found) => Ok(node::entry_views(found@)),
        Err(error) => Err(error@),
    }
}

impl BPlusTree {
    /// The entries with keys in `[start, end)` in key order, at most `limit` of them.
    #[verifier::rlimit(60)]
    pub fn range(
        storage: &GroupCommitHandle,
        cache: &mut NodeCache,
        root: IndexRoot,
        start: Option<&[u8]>,
        end: Option<&[u8]>,
        limit: usize,
    ) -> (found: Result<Vec<IndexEntry>, IndexError>)
        requires
            storage@.wf(),
            old(cache).wf(),
            read::cache_true(old(cache)@, storage@.store),
        ensures
            final(cache).wf(),
            read::cache_true(final(cache)@, storage@.store),
            found matches Ok(found) ==> range_result(
                node::entry_views(found@),
                bound_view(start),
                bound_view(end),
                limit as nat,
            ),
            root_is_tree(storage@.store, root) ==> (found matches Ok(found)
                && node::entry_views(found@) == at_most(
                selected(
                    plan::index_entries(storage@.store, Some(root)),
                    bound_view(start),
                    bound_view(end),
                ),
                limit as nat,
            )),
            scanned(
                storage@.store,
                root,
                bound_view(start),
                bound_view(end),
                limit as nat,
            ) == found_view(found),
    {
        let ghost low = bound_view(start);
        let ghost high = bound_view(end);
        let ghost state = storage@.store;
        let ghost fits = root_is_tree(state, root);
        let ghost nodes = model::store_nodes(state);
        let ghost live = model::live_pages(state);
        let ghost level = (root.height - 1) as nat;
        let ghost all = model::tree_entries(nodes, root.page_id.0, level);
        let ghost all_pages = model::tree_pages(nodes, root.page_id.0, level);
        let mut found: Vec<IndexEntry> = Vec::new();
        assert(node::entry_views(found@) =~= Seq::empty());
        if limit == 0 {
            assert(at_most(selected(all, low, high), 0) =~= Seq::empty());
            return Ok(found);
        }
        if let (Some(from), Some(to)) = (start, end) {
            let empty = match order_keys(from, to) {
                KeyOrder::Before => false,
                _ => true,
            };
            if empty {
                proof {
                    assert forall|i: int| 0 <= i < all.len() implies !in_range(
                        (#[trigger] all[i]).key,
                        low,
                        high,
                    ) by {
                        if in_range(all[i].key, low, high) {
                            key::lemma_key_chain(from@, all[i].key, to@);
                        }
                    }
                    lemma_none_selected(all, low, high);
                }
                return Ok(found);
            }
        }
        if root.height == 0 {
            return Err(corrupt(root.page_id, "root height cannot be zero"));
        }
        let nothing: Vec<u8> = Vec::new();
        let bound: &[u8] = match start {
            Some(bytes) => bytes,
            None => nothing.as_slice(),
        };
        let mut visits: Vec<Visit> = Vec::new();
        visits.push(Visit { page_id: root.page_id, level: root.height - 1 });
        let mut visited: HashSet<u64> = HashSet::new();
        let mut descending = true;
        let ghost outcome = scanned(state, root, low, high, limit as nat);
        assert(visit_views(visits@) =~= seq![(root.page_id.0, (root.height - 1) as u16)]);
        assert(visited@ =~= Set::empty());
        let ghost mut done: Seq<EntryView> = Seq::empty();
        let ghost mut gone: Seq<u64> = Seq::empty();
        proof {
            if fits {
                model::lemma_tree_sorted(nodes, live, root.page_id.0, level, None, None);
                pages::law_tree_pages_distinct(nodes, live, root.page_id.0, level, None, None);
                reveal_with_fuel(visit_entries, 2);
                reveal_with_fuel(visit_pages, 2);
                assert(visits@.drop_last() =~= Seq::empty());
                assert(all =~= done + visit_entries(nodes, visits@));
                assert(all_pages =~= gone + visit_pages(nodes, visits@));
            }
        }
        while visits.len() > 0
            invariant
                storage@.wf(),
                storage@.store == state,
                cache.wf(),
                read::cache_true(cache@, state),
                nodes == model::store_nodes(state),
                live == model::live_pages(state),
                low == bound_view(start),
                high == bound_view(end),
                match start {
                    Some(bytes) => bound@ == bytes@,
                    None => bound@ == Seq::<u8>::empty(),
                },
                found@.len() < limit,
                range_result(node::entry_views(found@), low, high, limit as nat),
                fits == root_is_tree(state, root),
                all == plan::index_entries(state, Some(root)),
                outcome == scanned(state, root, low, high, limit as nat),
                outcome == walked(
                    state,
                    visit_views(visits@),
                    visited@,
                    descending,
                    node::entry_views(found@),
                    low,
                    high,
                    limit as nat,
                ),
                fits ==> {
                    &&& node::keys_rise(all)
                    &&& all_pages.no_duplicates()
                    &&& scan_state(nodes, live, all, all_pages, done, gone, visits@, visited@)
                    &&& node::entry_views(found@) == selected(done, low, high)
                },
            decreases editor::unvisited(visited@).len(),
        {
            let ghost before = visits@;
            let ghost was_visited = visited@;
            let visit = visits.pop().unwrap();
            let page_id = visit.page_id;
            assert(before.drop_last() == visits@);
            assert(before.last() == visit);
            assert(visit_views(before).last() == (page_id.0, visit.level));
            assert(visit_views(before).drop_last() =~= visit_views(visits@));
            if visited.contains(&page_id.0) {
                proof {
                    if fits {
                        assert(gone.contains(page_id.0));
                        let i = choose|i: int| 0 <= i < gone.len() && gone[i] == page_id.0;
                        assert(all_pages[i] == page_id.0);
                        let own = model::tree_pages(nodes, page_id.0, visit.level as nat);
                        assert(own[0] == page_id.0);
                        assert(all_pages[gone.len() as int] == visit_pages(nodes, before)[0]);
                        assert(visit_pages(nodes, before)[0] == own[0]);
                    }
                }
                return Err(corrupt(page_id, "index tree contains a page cycle"));
            }
            visited.insert(page_id.0);
            proof {
                editor::lemma_visit(was_visited, page_id.0);
                if fits {
                    assert(before[before.len() - 1] == visit);
                    assert(model::is_tree(
                        nodes,
                        live,
                        page_id.0,
                        visit.level as nat,
                        None,
                        None,
                    ));
                }
            }
            let shared = match read_node(storage, cache, page_id) {
                Ok(shared) => shared,
                Err(error) => {
                    return Err(error);
                },
            };
            if shared.level() != visit.level {
                return Err(corrupt(page_id, "node level does not match tree height"));
            }
            match &*shared {
                Node::Leaf { entries, .. } => {
                    descending = false;
                    let ghost leaf = node::entry_views(entries@);
                    proof {
                        if fits {
                            let rest = visit_entries(nodes, visits@);
                            assert(all =~= (done + leaf) + rest);
                            assert(done + leaf =~= all.take((done.len() + leaf.len()) as int));
                        }
                    }
                    let scan = scan_leaf(
                        &mut found,
                        entries,
                        start,
                        end,
                        limit,
                        Ghost(all),
                        Ghost(done),
                    );
                    match scan {
                        LeafScan::Over => {
                            return Ok(found);
                        },
                        LeafScan::Disordered => {
                            return Err(corrupt(page_id, "leaf chain is not strictly ordered"));
                        },
                        LeafScan::More => {},
                    }
                    proof {
                        if fits {
                            let own = seq![page_id.0];
                            lemma_gone(gone, own, was_visited, page_id.0);
                            assert(all_pages =~= (gone + own) + visit_pages(nodes, visits@));
                            done = done + leaf;
                            gone = gone + own;
                        }
                    }
                },
                Node::Internal { first_child, separators, .. } => {
                    if visit.level == 0 {
                        return Err(corrupt(page_id, "internal node below leaf level"));
                    }
                    let position: usize = if descending {
                        count_up_to(separators, bound)
                    } else {
                        0
                    };
                    let ghost base = visits@;
                    open_children(&mut visits, *first_child, separators, visit.level - 1, position);
                    proof {
                        lemma_separators_rise(state, page_id.0);
                        assert(visit_views(visits@) =~= visit_views(base) + subtrees_from(
                            first_child.0,
                            node::entry_views(separators@),
                            (visit.level - 1) as u16,
                            position as int,
                        ));
                        if fits {
                            let (skipped, left) = lemma_opened(
                                nodes,
                                live,
                                base,
                                page_id.0,
                                visit.level,
                                *first_child,
                                separators@,
                                position as int,
                                bound@,
                            );
                            lemma_gone(gone, left, was_visited, page_id.0);
                            assert(all =~= (done + skipped) + visit_entries(nodes, visits@));
                            assert(all_pages =~= (gone + left) + visit_pages(nodes, visits@));
                            lemma_skipped(skipped, bound@, low, high);
                            lemma_selected_concat(done, skipped, low, high);
                            assert(selected(done + skipped, low, high) =~= selected(
                                done,
                                low,
                                high,
                            ));
                            done = done + skipped;
                            gone = gone + left;
                        }
                    }
                },
            }
        }
        proof {
            if fits {
                assert(all =~= done);
            }
        }
        Ok(found)
    }
}

/// The keys of a node on a page rise.
proof fn lemma_separators_rise(state: StoreView, page: u64)
    requires
        state.wf(),
    ensures
        model::node_read(state, page) matches Ok(found) ==> node::keys_rise(
            node::node_items(found),
        ),
{
    if let Ok(Some(found)) = state.read(page) {
        crate::storage::data_file::lemma_read_fits(state.data, page);
        node::law_decoded_is_storable(found.payload);
    }
}

/// Pages that are visited or skipped are gone.
proof fn lemma_gone(gone: Seq<u64>, more: Seq<u64>, visited: Set<u64>, page: u64)
    requires
        forall|id: u64| #[trigger] visited.contains(id) ==> gone.contains(id),
        more.len() > 0,
        more[0] == page,
    ensures
        forall|id: u64| #[trigger]
            visited.insert(page).contains(id) ==> (gone + more).contains(id),
{
    let all = gone + more;
    assert forall|id: u64| #[trigger] visited.insert(page).contains(id) implies all.contains(id) by {
        if id == page {
            assert(all[gone.len() as int] == page);
        } else {
            assert(visited.contains(id));
            let i = choose|i: int| 0 <= i < gone.len() && gone[i] == id;
            assert(all[i] == id);
        }
    }
}

/// Entries before the bound are not in the range.
proof fn lemma_skipped(
    skipped: Seq<EntryView>,
    bound: Seq<u8>,
    start: Option<Seq<u8>>,
    end: Option<Seq<u8>>,
)
    requires
        all_before(skipped, bound),
        match start {
            Some(bytes) => bound == bytes,
            None => bound == Seq::<u8>::empty(),
        },
    ensures
        selected(skipped, start, end) == Seq::<EntryView>::empty(),
{
    assert forall|i: int| 0 <= i < skipped.len() implies !in_range(
        (#[trigger] skipped[i]).key,
        start,
        end,
    ) by {
        match start {
            None => {
                assert(key::key_lt(skipped[i].key, bound));
            },
            Some(bytes) => {
                if key::key_le(bytes, skipped[i].key) {
                    key::lemma_key_chain(bytes, skipped[i].key, bytes);
                    key::lemma_key_irreflexive(bytes);
                }
            },
        }
    }
    lemma_none_selected(skipped, start, end);
}

} // verus!
