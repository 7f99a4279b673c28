//! What a tree of nodes means: which nodes form a tree, and the entries that it holds in order.
use crate::index::error::IndexErrorView;
use crate::index::key;
use crate::index::node;
use crate::index::node::{EntryView, NodeView};
use crate::storage::store;
use crate::storage::store::StoreView;
use vstd::prelude::*;

verus! {

/// The longest key that a leaf can hold.
pub const MAX_KEY_LENGTH: usize = 8084;

/// The node on a page, or why there is none.
pub open spec fn node_read(state: StoreView, id: u64) -> Result<NodeView, IndexErrorView> {
    match state.read(id) {
        Err(error) => Err(IndexErrorView::Storage(error)),
        Ok(None) => Err(
            IndexErrorView::CorruptNode { page_id: id, reason: "referenced page does not exist"@ },
        ),
        Ok(Some(found)) => match node::node_decoded(found.payload) {
            Ok(decoded) => Ok(decoded),
            Err(reason) => Err(IndexErrorView::CorruptNode { page_id: id, reason }),
        },
    }
}

/// The nodes of a store by page.
pub open spec fn store_nodes(state: StoreView) -> Map<u64, NodeView> {
    Map::new(|id: u64| node_read(state, id) is Ok, |id: u64| node_read(state, id)->Ok_0)
}

/// The pages of a store that are in use.
pub open spec fn live_pages(state: StoreView) -> Set<u64> {
    Set::new(|id: u64| store::is_live(state, id))
}

/// Whether a key is not below a lower bound.
pub open spec fn above(k: Seq<u8>, low: Option<Seq<u8>>) -> bool {
    match low {
        None => true,
        Some(bound) => key::key_le(bound, k),
    }
}

/// Whether a key is below an upper bound.
pub open spec fn below(k: Seq<u8>, high: Option<Seq<u8>>) -> bool {
    match high {
        None => true,
        Some(bound) => key::key_lt(k, bound),
    }
}

/// Entries in rising key order inside `[low, high)`, with keys that fit in a node.
pub open spec fn within(entries: Seq<EntryView>, low: Option<Seq<u8>>, high: Option<Seq<u8>>) -> bool {
    &&& node::keys_rise(entries)
    &&& forall|i: int|
        0 <= i < entries.len() ==> above((#[trigger] entries[i]).key, low) && below(
            entries[i].key,
            high,
        ) && entries[i].key.len() <= MAX_KEY_LENGTH
}

/// The key of the child at `index`, or the upper bound behind the last child.
pub open spec fn bound_at(kids: Seq<EntryView>, index: int, high: Option<Seq<u8>>) -> Option<
    Seq<u8>,
> {
    if index < kids.len() {
        Some(kids[index].key)
    } else {
        high
    }
}

/// Whether a page is the root of a tree of the given level, all of whose pages are in use and
/// whose keys lie in `[low, high)`.
pub open spec fn is_tree(
    nodes: Map<u64, NodeView>,
    live: Set<u64>,
    page: u64,
    level: nat,
    low: Option<Seq<u8>>,
    high: Option<Seq<u8>>,
) -> bool
    decreases level, 0nat,
{
    &&& live.contains(page)
    &&& nodes.contains_key(page)
    &&& page != u64::MAX
    &&& match nodes[page] {
        NodeView::Leaf { entries, next } => level == 0 && entries.len() > 0 && within(
            entries,
            low,
            high,
        ),
        NodeView::Internal { level: own, first_child, separators } => {
            &&& level > 0
            &&& own == level
            &&& within(separators, low, high)
            &&& is_tree(
                nodes,
                live,
                first_child,
                (level - 1) as nat,
                low,
                bound_at(separators, 0, high),
            )
            &&& are_trees(nodes, live, separators, (level - 1) as nat, high)
        },
    }
}

/// Whether each child leads to a tree whose keys lie between the child's key and the next one's.
pub open spec fn are_trees(
    nodes: Map<u64, NodeView>,
    live: Set<u64>,
    kids: Seq<EntryView>,
    level: nat,
    high: Option<Seq<u8>>,
) -> bool
    decreases level, 1nat,
{
    forall|i: int|
        0 <= i < kids.len() ==> is_tree(
            nodes,
            live,
            (#[trigger] kids[i]).value,
            level,
            Some(kids[i].key),
            bound_at(kids, i + 1, high),
        )
}

/// The entries of a tree in key order.
pub open spec fn tree_entries(nodes: Map<u64, NodeView>, page: u64, level: nat) -> Seq<EntryView>
    decreases level, 0nat,
{
    match nodes[page] {
        NodeView::Leaf { entries, .. } => entries,
        NodeView::Internal { first_child, separators, .. } => if level == 0 {
            Seq::empty()
        } else {
            tree_entries(nodes, first_child, (level - 1) as nat) + forest_entries(
                nodes,
                separators,
                (level - 1) as nat,
            )
        },
    }
}

/// The entries of trees side by side.
pub open spec fn forest_entries(nodes: Map<u64, NodeView>, kids: Seq<EntryView>, level: nat) -> Seq<
    EntryView,
>
    decreases level, kids.len() + 1,
{
    if kids.len() == 0 {
        Seq::empty()
    } else {
        forest_entries(nodes, kids.drop_last(), level) + tree_entries(
            nodes,
            kids.last().value,
            level,
        )
    }
}

/// The pages of a tree, each before the pages under it.
pub open spec fn tree_pages(nodes: Map<u64, NodeView>, page: u64, level: nat) -> Seq<u64>
    decreases level, 0nat,
{
    match nodes[page] {
        NodeView::Leaf { .. } => seq![page],
        NodeView::Internal { first_child, separators, .. } => if level == 0 {
            seq![page]
        } else {
            seq![page] + (tree_pages(nodes, first_child, (level - 1) as nat) + forest_pages(
                nodes,
                separators,
                (level - 1) as nat,
            ))
        },
    }
}

/// The pages of trees side by side.
pub open spec fn forest_pages(nodes: Map<u64, NodeView>, kids: Seq<EntryView>, level: nat) -> Seq<u64>
    decreases level, kids.len() + 1,
{
    if kids.len() == 0 {
        Seq::empty()
    } else {
        forest_pages(nodes, kids.drop_last(), level) + tree_pages(nodes, kids.last().value, level)
    }
}

/// Trees side by side that together hold the keys of `[low, high)`.
pub open spec fn is_grove(
    nodes: Map<u64, NodeView>,
    live: Set<u64>,
    kids: Seq<EntryView>,
    level: nat,
    low: Option<Seq<u8>>,
    high: Option<Seq<u8>>,
) -> bool {
    &&& within(kids, low, high)
    &&& are_trees(nodes, live, kids, level, high)
}

/// The value of a key among entries.
pub open spec fn find(entries: Seq<EntryView>, k: Seq<u8>) -> Option<u64>
    decreases entries.len(),
{
    if entries.len() == 0 {
        None
    } else if entries.last().key == k {
        Some(entries.last().value)
    } else {
        find(entries.drop_last(), k)
    }
}

pub open spec fn low_le(a: Option<Seq<u8>>, b: Option<Seq<u8>>) -> bool {
    match (a, b) {
        (None, _) => true,
        (Some(_), None) => false,
        (Some(x), Some(y)) => key::key_le(x, y),
    }
}

pub open spec fn high_le(a: Option<Seq<u8>>, b: Option<Seq<u8>>) -> bool {
    match (a, b) {
        (_, None) => true,
        (None, Some(_)) => false,
        (Some(x), Some(y)) => key::key_le(x, y),
    }
}

pub proof fn lemma_bounds_widen(
    k: Seq<u8>,
    low: Option<Seq<u8>>,
    high: Option<Seq<u8>>,
    wider_low: Option<Seq<u8>>,
    wider_high: Option<Seq<u8>>,
)
    requires
        low_le(wider_low, low),
        high_le(high, wider_high),
    ensures
        above(k, low) ==> above(k, wider_low),
        below(k, high) ==> below(k, wider_high),
{
    if let (Some(x), Some(y)) = (wider_low, low) {
        key::lemma_key_chain(x, y, k);
    }
    if let (Some(x), Some(y)) = (high, wider_high) {
        key::lemma_key_chain(k, x, y);
    }
}

pub proof fn lemma_within_widen(
    entries: Seq<EntryView>,
    low: Option<Seq<u8>>,
    high: Option<Seq<u8>>,
    wider_low: Option<Seq<u8>>,
    wider_high: Option<Seq<u8>>,
)
    requires
        within(entries, low, high),
        low_le(wider_low, low),
        high_le(high, wider_high),
    ensures
        within(entries, wider_low, wider_high),
{
    assert forall|i: int| 0 <= i < entries.len() implies above(
        (#[trigger] entries[i]).key,
        wider_low,
    ) && below(entries[i].key, wider_high) && entries[i].key.len() <= MAX_KEY_LENGTH by {
        lemma_bounds_widen(entries[i].key, low, high, wider_low, wider_high);
    }
}

/// A tree stays one when its bounds are widened.
pub proof fn lemma_tree_widen(
    nodes: Map<u64, NodeView>,
    live: Set<u64>,
    page: u64,
    level: nat,
    low: Option<Seq<u8>>,
    high: Option<Seq<u8>>,
    wider_low: Option<Seq<u8>>,
    wider_high: Option<Seq<u8>>,
)
    requires
        is_tree(nodes, live, page, level, low, high),
        low_le(wider_low, low),
        high_le(high, wider_high),
    ensures
        is_tree(nodes, live, page, level, wider_low, wider_high),
    decreases level, 0nat,
{
    match nodes[page] {
        NodeView::Leaf { entries, next } => {
            lemma_within_widen(entries, low, high, wider_low, wider_high);
        },
        NodeView::Internal { level: own, first_child, separators } => {
            let under = (level - 1) as nat;
            lemma_within_widen(separators, low, high, wider_low, wider_high);
            lemma_high_reflexive(bound_at(separators, 0, high));
            lemma_tree_widen(
                nodes,
                live,
                first_child,
                under,
                low,
                bound_at(separators, 0, high),
                wider_low,
                bound_at(separators, 0, wider_high),
            );
            lemma_trees_widen(nodes, live, separators, under, high, wider_high);
        },
    }
}

pub proof fn lemma_high_reflexive(bound: Option<Seq<u8>>)
    ensures
        high_le(bound, bound),
        low_le(bound, bound),
{
}

pub proof fn lemma_trees_widen(
    nodes: Map<u64, NodeView>,
    live: Set<u64>,
    kids: Seq<EntryView>,
    level: nat,
    high: Option<Seq<u8>>,
    wider_high: Option<Seq<u8>>,
)
    requires
        are_trees(nodes, live, kids, level, high),
        high_le(high, wider_high),
    ensures
        are_trees(nodes, live, kids, level, wider_high),
    decreases level, 1nat,
{
    assert forall|i: int| 0 <= i < kids.len() implies is_tree(
        nodes,
        live,
        (#[trigger] kids[i]).value,
        level,
        Some(kids[i].key),
        bound_at(kids, i + 1, wider_high),
    ) by {
        lemma_high_reflexive(bound_at(kids, i + 1, high));
        lemma_high_reflexive(Some(kids[i].key));
        lemma_tree_widen(
            nodes,
            live,
            kids[i].value,
            level,
            Some(kids[i].key),
            bound_at(kids, i + 1, high),
            Some(kids[i].key),
            bound_at(kids, i + 1, wider_high),
        );
    }
}

/// Whether two collections of nodes agree on the pages in use in the first.
pub open spec fn agrees(
    nodes: Map<u64, NodeView>,
    live: Set<u64>,
    other: Map<u64, NodeView>,
    other_live: Set<u64>,
) -> bool {
    forall|id: u64| #[trigger]
        live.contains(id) ==> other_live.contains(id) && (nodes.contains_key(id)
            ==> other.contains_key(id) && other[id] == nodes[id])
}

/// A tree is the same tree, with the same entries and pages, among nodes that agree on its pages.
pub proof fn lemma_tree_frame(
    nodes: Map<u64, NodeView>,
    live: Set<u64>,
    other: Map<u64, NodeView>,
    other_live: Set<u64>,
    page: u64,
    level: nat,
    low: Option<Seq<u8>>,
    high: Option<Seq<u8>>,
)
    requires
        is_tree(nodes, live, page, level, low, high),
        agrees(nodes, live, other, other_live),
    ensures
        is_tree(other, other_live, page, level, low, high),
        tree_entries(other, page, level) == tree_entries(nodes, page, level),
        tree_pages(other, page, level) == tree_pages(nodes, page, level),
    decreases level, 0nat,
{
    if let NodeView::Internal { level: own, first_child, separators } = nodes[page] {
        let under = (level - 1) as nat;
        lemma_tree_frame(
            nodes,
            live,
            other,
            other_live,
            first_child,
            under,
            low,
            bound_at(separators, 0, high),
        );
        lemma_forest_frame(nodes, live, other, other_live, separators, under, high);
    }
}

pub proof fn lemma_forest_frame(
    nodes: Map<u64, NodeView>,
    live: Set<u64>,
    other: Map<u64, NodeView>,
    other_live: Set<u64>,
    kids: Seq<EntryView>,
    level: nat,
    high: Option<Seq<u8>>,
)
    requires
        are_trees(nodes, live, kids, level, high),
        agrees(nodes, live, other, other_live),
    ensures
        are_trees(other, other_live, kids, level, high),
        forest_entries(other, kids, level) == forest_entries(nodes, kids, level),
        forest_pages(other, kids, level) == forest_pages(nodes, kids, level),
    decreases level, kids.len() + 1,
{
    if kids.len() > 0 {
        let last = kids.len() - 1;
        let head = kids.drop_last();
        assert(kids[last] == kids.last());
        lemma_tree_frame(
            nodes,
            live,
            other,
            other_live,
            kids[last].value,
            level,
            Some(kids[last].key),
            bound_at(kids, last + 1, high),
        );
        lemma_trees_take(nodes, live, kids, level, high, last as int);
        assert(kids.take(last as int) =~= head);
        lemma_forest_frame(nodes, live, other, other_live, head, level, Some(kids[last].key));
        assert forall|i: int| 0 <= i < kids.len() implies is_tree(
            other,
            other_live,
            (#[trigger] kids[i]).value,
            level,
            Some(kids[i].key),
            bound_at(kids, i + 1, high),
        ) by {
            if i < last {
                assert(head[i] == kids[i]);
                assert(bound_at(head, i + 1, Some(kids[last].key)) == bound_at(kids, i + 1, high));
            }
        }
    }
}

/// The first children alone are trees up to the next child's key.
pub proof fn lemma_trees_take(
    nodes: Map<u64, NodeView>,
    live: Set<u64>,
    kids: Seq<EntryView>,
    level: nat,
    high: Option<Seq<u8>>,
    count: int,
)
    requires
        are_trees(nodes, live, kids, level, high),
        0 <= count <= kids.len(),
    ensures
        are_trees(nodes, live, kids.take(count), level, bound_at(kids, count, high)),
{
    let head = kids.take(count);
    assert forall|i: int| 0 <= i < head.len() implies is_tree(
        nodes,
        live,
        (#[trigger] head[i]).value,
        level,
        Some(head[i].key),
        bound_at(head, i + 1, bound_at(kids, count, high)),
    ) by {
        assert(head[i] == kids[i]);
        assert(bound_at(head, i + 1, bound_at(kids, count, high)) == bound_at(kids, i + 1, high));
    }
}

/// The last children alone are trees.
pub proof fn lemma_trees_skip(
    nodes: Map<u64, NodeView>,
    live: Set<u64>,
    kids: Seq<EntryView>,
    level: nat,
    high: Option<Seq<u8>>,
    count: int,
)
    requires
        are_trees(nodes, live, kids, level, high),
        0 <= count <= kids.len(),
    ensures
        are_trees(nodes, live, kids.skip(count), level, high),
{
    let tail = kids.skip(count);
    assert forall|i: int| 0 <= i < tail.len() implies is_tree(
        nodes,
        live,
        (#[trigger] tail[i]).value,
        level,
        Some(tail[i].key),
        bound_at(tail, i + 1, high),
    ) by {
        assert(tail[i] == kids[i + count]);
        assert(bound_at(tail, i + 1, high) == bound_at(kids, i + count + 1, high));
    }
}

/// Entries side by side are in order when the bounds between them are.
pub proof fn lemma_within_concat(
    first: Seq<EntryView>,
    second: Seq<EntryView>,
    low: Option<Seq<u8>>,
    middle: Seq<u8>,
    high: Option<Seq<u8>>,
)
    requires
        within(first, low, Some(middle)),
        within(second, Some(middle), high),
        above(middle, low),
        first.len() > 0 ==> high_le(Some(middle), high) || second.len() > 0,
    ensures
        within(first + second, low, high),
{
    let all = first + second;
    assert forall|i: int, j: int| 0 <= i < j < all.len() implies key::key_lt(
        (#[trigger] all[i]).key,
        (#[trigger] all[j]).key,
    ) by {
        if j < first.len() {
            assert(all[i] == first[i] && all[j] == first[j]);
        } else if i < first.len() {
            assert(all[i] == first[i] && all[j] == second[j - first.len()]);
            key::lemma_key_chain(first[i].key, middle, second[j - first.len()].key);
        } else {
            assert(all[i] == second[i - first.len()] && all[j] == second[j - first.len()]);
        }
    }
    assert forall|i: int| 0 <= i < all.len() implies above((#[trigger] all[i]).key, low) && below(
        all[i].key,
        high,
    ) && all[i].key.len() <= MAX_KEY_LENGTH by {
        if i < first.len() {
            assert(all[i] == first[i]);
            if let Some(bound) = high {
                if second.len() > 0 {
                    key::lemma_key_chain(middle, second[0].key, bound);
                }
                key::lemma_key_chain(first[i].key, middle, bound);
            }
        } else {
            assert(all[i] == second[i - first.len()]);
            if let Some(bound) = low {
                key::lemma_key_chain(bound, middle, all[i].key);
            }
        }
    }
}

/// A tree holds something, in order, inside its bounds.
pub proof fn lemma_tree_sorted(
    nodes: Map<u64, NodeView>,
    live: Set<u64>,
    page: u64,
    level: nat,
    low: Option<Seq<u8>>,
    high: Option<Seq<u8>>,
)
    requires
        is_tree(nodes, live, page, level, low, high),
    ensures
        tree_entries(nodes, page, level).len() > 0,
        within(tree_entries(nodes, page, level), low, high),
    decreases level, 0nat,
{
    if let NodeView::Internal { level: own, first_child, separators } = nodes[page] {
        let under = (level - 1) as nat;
        lemma_tree_sorted(nodes, live, first_child, under, low, bound_at(separators, 0, high));
        lemma_forest_sorted(nodes, live, separators, under, low, high);
        let left = tree_entries(nodes, first_child, under);
        let right = forest_entries(nodes, separators, under);
        if separators.len() > 0 {
            lemma_within_concat(left, right, low, separators[0].key, high);
        } else {
            assert(left + right =~= left);
        }
    }
}

/// The entries of trees side by side are in order, from the first child's key on.
pub proof fn lemma_forest_sorted(
    nodes: Map<u64, NodeView>,
    live: Set<u64>,
    kids: Seq<EntryView>,
    level: nat,
    low: Option<Seq<u8>>,
    high: Option<Seq<u8>>,
)
    requires
        is_grove(nodes, live, kids, level, low, high),
    ensures
        kids.len() > 0 ==> forest_entries(nodes, kids, level).len() > 0 && within(
            forest_entries(nodes, kids, level),
            Some(kids[0].key),
            high,
        ),
    decreases level, kids.len() + 1,
{
    if kids.len() > 0 {
        let last = kids.len() - 1;
        let head = kids.drop_last();
        assert(kids[last] == kids.last());
        lemma_tree_sorted(
            nodes,
            live,
            kids[last].value,
            level,
            Some(kids[last].key),
            bound_at(kids, last + 1, high),
        );
        let right = tree_entries(nodes, kids.last().value, level);
        if last == 0 {
            assert(head =~= Seq::empty());
            assert(forest_entries(nodes, head, level) + right =~= right);
        } else {
            lemma_trees_take(nodes, live, kids, level, high, last as int);
            assert(kids.take(last as int) =~= head);
            lemma_within_take(kids, low, high, last as int);
            lemma_forest_sorted(nodes, live, head, level, low, Some(kids[last].key));
            assert(head[0] == kids[0]);
            assert(key::key_lt(kids[0].key, kids[last].key));
            lemma_within_concat(
                forest_entries(nodes, head, level),
                right,
                Some(kids[0].key),
                kids[last].key,
                high,
            );
        }
    }
}

/// The first entries lie below the next one's key.
pub proof fn lemma_within_take(
    entries: Seq<EntryView>,
    low: Option<Seq<u8>>,
    high: Option<Seq<u8>>,
    count: int,
)
    requires
        within(entries, low, high),
        0 <= count <= entries.len(),
    ensures
        within(entries.take(count), low, bound_at(entries, count, high)),
{
    let head = entries.take(count);
    assert forall|i: int, j: int| 0 <= i < j < head.len() implies key::key_lt(
        (#[trigger] head[i]).key,
        (#[trigger] head[j]).key,
    ) by {
        assert(head[i] == entries[i] && head[j] == entries[j]);
    }
    assert forall|i: int| 0 <= i < head.len() implies above((#[trigger] head[i]).key, low) && below(
        head[i].key,
        bound_at(entries, count, high),
    ) && head[i].key.len() <= MAX_KEY_LENGTH by {
        assert(head[i] == entries[i]);
        if count < entries.len() {
            assert(key::key_lt(entries[i].key, entries[count].key));
        }
    }
}

/// The last entries lie from the first of them on.
pub proof fn lemma_within_skip(
    entries: Seq<EntryView>,
    low: Option<Seq<u8>>,
    high: Option<Seq<u8>>,
    count: int,
)
    requires
        within(entries, low, high),
        0 <= count <= entries.len(),
    ensures
        within(entries.skip(count), low, high),
        count < entries.len() ==> within(entries.skip(count), Some(entries[count].key), high),
{
    let tail = entries.skip(count);
    assert forall|i: int, j: int| 0 <= i < j < tail.len() implies key::key_lt(
        (#[trigger] tail[i]).key,
        (#[trigger] tail[j]).key,
    ) by {
        assert(tail[i] == entries[i + count] && tail[j] == entries[j + count]);
    }
    assert forall|i: int| 0 <= i < tail.len() implies above((#[trigger] tail[i]).key, low) && below(
        tail[i].key,
        high,
    ) && tail[i].key.len() <= MAX_KEY_LENGTH && (count < entries.len() ==> above(
        tail[i].key,
        Some(entries[count].key),
    )) by {
        assert(tail[i] == entries[i + count]);
        if i > 0 {
            assert(key::key_lt(entries[count].key, entries[i + count].key));
        }
    }
}

/// The lower bound of a tree can be raised to anything up to its first key.
pub proof fn lemma_tree_raise(
    nodes: Map<u64, NodeView>,
    live: Set<u64>,
    page: u64,
    level: nat,
    low: Option<Seq<u8>>,
    high: Option<Seq<u8>>,
    bound: Seq<u8>,
)
    requires
        is_tree(nodes, live, page, level, low, high),
        key::key_le(bound, tree_entries(nodes, page, level)[0].key),
    ensures
        is_tree(nodes, live, page, level, Some(bound), high),
    decreases level,
{
    lemma_tree_sorted(nodes, live, page, level, low, high);
    match nodes[page] {
        NodeView::Leaf { entries, next } => {
            assert forall|i: int| 0 <= i < entries.len() implies above(
                (#[trigger] entries[i]).key,
                Some(bound),
            ) by {
                if i > 0 {
                    assert(key::key_lt(entries[0].key, entries[i].key));
                    key::lemma_key_chain(bound, entries[0].key, entries[i].key);
                }
            }
        },
        NodeView::Internal { level: own, first_child, separators } => {
            let under = (level - 1) as nat;
            let left = tree_entries(nodes, first_child, under);
            lemma_tree_sorted(nodes, live, first_child, under, low, bound_at(separators, 0, high));
            assert(tree_entries(nodes, page, level)[0] == left[0]);
            lemma_tree_raise(
                nodes,
                live,
                first_child,
                under,
                low,
                bound_at(separators, 0, high),
                bound,
            );
            assert forall|i: int| 0 <= i < separators.len() implies above(
                (#[trigger] separators[i]).key,
                Some(bound),
            ) by {
                assert(below(left[0].key, Some(separators[0].key)));
                key::lemma_key_chain(bound, left[0].key, separators[0].key);
                if i > 0 {
                    assert(key::key_lt(separators[0].key, separators[i].key));
                    key::lemma_key_chain(bound, separators[0].key, separators[i].key);
                }
            }
        },
    }
}

/// Trees side by side hold what the ones on the left and those on the right hold.
pub proof fn lemma_forest_concat(
    nodes: Map<u64, NodeView>,
    first: Seq<EntryView>,
    second: Seq<EntryView>,
    level: nat,
)
    ensures
        forest_entries(nodes, first + second, level) == forest_entries(nodes, first, level)
            + forest_entries(nodes, second, level),
        forest_pages(nodes, first + second, level) == forest_pages(nodes, first, level)
            + forest_pages(nodes, second, level),
    decreases second.len(),
{
    let all = first + second;
    if second.len() == 0 {
        assert(all =~= first);
        assert(forest_entries(nodes, first, level) + forest_entries(nodes, second, level)
            =~= forest_entries(nodes, first, level));
        assert(forest_pages(nodes, first, level) + forest_pages(nodes, second, level)
            =~= forest_pages(nodes, first, level));
    } else {
        assert(all.last() == second.last());
        assert(all.drop_last() =~= first + second.drop_last());
        lemma_forest_concat(nodes, first, second.drop_last(), level);
        assert(forest_entries(nodes, all, level) =~= forest_entries(nodes, first, level)
            + forest_entries(nodes, second, level));
        assert(forest_pages(nodes, all, level) =~= forest_pages(nodes, first, level)
            + forest_pages(nodes, second, level));
    }
}

/// One tree alone.
pub proof fn lemma_forest_one(nodes: Map<u64, NodeView>, kid: EntryView, level: nat)
    ensures
        forest_entries(nodes, seq![kid], level) == tree_entries(nodes, kid.value, level),
        forest_pages(nodes, seq![kid], level) == tree_pages(nodes, kid.value, level),
{
    let one = seq![kid];
    reveal_with_fuel(forest_entries, 2);
    reveal_with_fuel(forest_pages, 2);
    assert(one.drop_last() =~= Seq::empty());
    assert(one.last() == kid);
    assert(forest_entries(nodes, one, level) =~= tree_entries(nodes, kid.value, level));
    assert(forest_pages(nodes, one, level) =~= tree_pages(nodes, kid.value, level));
}

/// The children of an internal node, the first of them under a key of its own.
pub open spec fn kids_of(first_key: Seq<u8>, first_child: u64, separators: Seq<EntryView>) -> Seq<
    EntryView,
> {
    seq![EntryView { key: first_key, value: first_child }] + separators
}

/// An internal node's children are trees side by side that hold what the node's tree holds.
pub proof fn lemma_kids(
    nodes: Map<u64, NodeView>,
    live: Set<u64>,
    page: u64,
    level: nat,
    low: Option<Seq<u8>>,
    high: Option<Seq<u8>>,
    first_key: Seq<u8>,
)
    requires
        is_tree(nodes, live, page, level, Some(first_key), high),
        nodes[page] is Internal,
        above(first_key, low),
        first_key.len() <= MAX_KEY_LENGTH,
    ensures
        ({
            let kids = kids_of(
                first_key,
                nodes[page]->first_child,
                nodes[page]->separators,
            );
            &&& level > 0
            &&& is_grove(nodes, live, kids, (level - 1) as nat, low, high)
            &&& forest_entries(nodes, kids, (level - 1) as nat) == tree_entries(nodes, page, level)
        }),
{
    let first_child = nodes[page]->first_child;
    let separators = nodes[page]->separators;
    let under = (level - 1) as nat;
    let first = EntryView { key: first_key, value: first_child };
    let kids = kids_of(first_key, first_child, separators);
    assert(are_trees(nodes, live, separators, under, high));
    lemma_tree_sorted(
        nodes,
        live,
        first_child,
        under,
        Some(first_key),
        bound_at(separators, 0, high),
    );
    let left = tree_entries(nodes, first_child, under);
    assert(above(left[0].key, Some(first_key)));
    assert(below(first_key, bound_at(separators, 0, high))) by {
        if let Some(bound) = bound_at(separators, 0, high) {
            key::lemma_key_chain(first_key, left[0].key, bound);
        }
    }
    assert forall|i: int, j: int| 0 <= i < j < kids.len() implies key::key_lt(
        (#[trigger] kids[i]).key,
        (#[trigger] kids[j]).key,
    ) by {
        assert(kids[j] == separators[j - 1]);
        if i > 0 {
            assert(kids[i] == separators[i - 1]);
        } else if j > 1 {
            assert(key::key_lt(separators[0].key, separators[j - 1].key));
            key::lemma_key_chain(first_key, separators[0].key, separators[j - 1].key);
        }
    }
    assert forall|i: int| 0 <= i < kids.len() implies above((#[trigger] kids[i]).key, low) && below(
        kids[i].key,
        high,
    ) && kids[i].key.len() <= MAX_KEY_LENGTH by {
        if i > 0 {
            assert(kids[i] == separators[i - 1]);
            if let Some(bound) = low {
                key::lemma_key_chain(bound, first_key, kids[i].key);
            }
        } else if separators.len() > 0 {
            if let Some(bound) = high {
                assert(below(separators[0].key, high));
                key::lemma_key_chain(first_key, separators[0].key, bound);
            }
        }
    }
    assert forall|i: int| 0 <= i < kids.len() implies is_tree(
        nodes,
        live,
        (#[trigger] kids[i]).value,
        under,
        Some(kids[i].key),
        bound_at(kids, i + 1, high),
    ) by {
        if i == 0 {
            assert(bound_at(kids, 1, high) == bound_at(separators, 0, high));
        } else {
            assert(kids[i] == separators[i - 1]);
            assert(bound_at(kids, i + 1, high) == bound_at(separators, i, high));
        }
    }
    lemma_forest_concat(nodes, seq![first], separators, under);
    lemma_forest_one(nodes, first, under);
}

/// Trees side by side, made one node's children, make a tree that holds the same.
pub proof fn lemma_join(
    nodes: Map<u64, NodeView>,
    live: Set<u64>,
    kids: Seq<EntryView>,
    page: u64,
    level: nat,
    low: Option<Seq<u8>>,
    high: Option<Seq<u8>>,
)
    requires
        level > 0,
        kids.len() > 0,
        is_grove(nodes, live, kids, (level - 1) as nat, low, high),
        live.contains(page),
        nodes.contains_key(page),
        page != u64::MAX,
        nodes[page] matches NodeView::Internal { level: own, first_child, separators } && own
            == level && first_child == kids[0].value && separators == kids.drop_first(),
    ensures
        is_tree(nodes, live, page, level, Some(kids[0].key), high),
        tree_entries(nodes, page, level) == forest_entries(nodes, kids, (level - 1) as nat),
{
    let under = (level - 1) as nat;
    let separators = kids.drop_first();
    assert(separators =~= kids.skip(1));
    lemma_trees_skip(nodes, live, kids, under, high, 1);
    lemma_within_skip(kids, low, high, 1);
    assert forall|i: int| 0 <= i < separators.len() implies above(
        (#[trigger] separators[i]).key,
        Some(kids[0].key),
    ) by {
        assert(separators[i] == kids[i + 1]);
        assert(key::key_lt(kids[0].key, kids[i + 1].key));
    }
    assert(bound_at(kids, 1, high) == bound_at(separators, 0, high));
    assert(kids =~= seq![kids[0]] + separators);
    lemma_forest_concat(nodes, seq![kids[0]], separators, under);
    lemma_forest_one(nodes, kids[0], under);
}

/// The bounds of one child among several.
pub open spec fn child_low(kids: Seq<EntryView>, at: int, low: Option<Seq<u8>>) -> Option<Seq<u8>> {
    if at == 0 {
        low
    } else {
        Some(kids[at].key)
    }
}

/// Children with one of them replaced by others.
pub open spec fn spliced(kids: Seq<EntryView>, at: int, fresh: Seq<EntryView>) -> Seq<EntryView> {
    kids.take(at) + fresh + kids.skip(at + 1)
}

proof fn lemma_spliced_index(kids: Seq<EntryView>, at: int, fresh: Seq<EntryView>)
    requires
        0 <= at < kids.len(),
    ensures
        spliced(kids, at, fresh).len() == kids.len() - 1 + fresh.len(),
        forall|i: int|
            0 <= i < spliced(kids, at, fresh).len() ==> #[trigger] spliced(kids, at, fresh)[i] == (
            if i < at {
                kids[i]
            } else if i < at + fresh.len() {
                fresh[i - at]
            } else {
                kids[i - fresh.len() + 1]
            }),
{
}

/// Replacing a child by others inside its bounds keeps the keys in order and inside theirs.
proof fn lemma_splice_within(
    kids: Seq<EntryView>,
    at: int,
    fresh: Seq<EntryView>,
    low: Option<Seq<u8>>,
    high: Option<Seq<u8>>,
)
    requires
        0 <= at < kids.len(),
        within(kids, low, high),
        within(fresh, child_low(kids, at, low), bound_at(kids, at + 1, high)),
    ensures
        within(spliced(kids, at, fresh), low, high),
{
    let all = spliced(kids, at, fresh);
    let count = fresh.len() as int;
    lemma_spliced_index(kids, at, fresh);
    assert forall|i: int, j: int| 0 <= i < j < all.len() implies key::key_lt(
        (#[trigger] all[i]).key,
        (#[trigger] all[j]).key,
    ) by {
        if i < at && at <= j < at + count {
            assert(key::key_lt(kids[i].key, kids[at].key));
            assert(above(fresh[j - at].key, Some(kids[at].key)));
            key::lemma_key_chain(kids[i].key, kids[at].key, fresh[j - at].key);
        } else if at <= i < at + count && j >= at + count {
            assert(below(fresh[i - at].key, Some(kids[at + 1].key)));
            if j - count + 1 > at + 1 {
                assert(key::key_lt(kids[at + 1].key, kids[j - count + 1].key));
                key::lemma_key_chain(
                    fresh[i - at].key,
                    kids[at + 1].key,
                    kids[j - count + 1].key,
                );
            }
        } else if i < at && j >= at + count {
            assert(key::key_lt(kids[i].key, kids[j - count + 1].key));
        }
    }
    assert forall|i: int| 0 <= i < all.len() implies above((#[trigger] all[i]).key, low) && below(
        all[i].key,
        high,
    ) && all[i].key.len() <= MAX_KEY_LENGTH by {
        if at <= i < at + count {
            if at > 0 {
                if let Some(bound) = low {
                    assert(above(kids[at].key, low));
                    key::lemma_key_chain(bound, kids[at].key, all[i].key);
                }
            }
            if at + 1 < kids.len() {
                if let Some(bound) = high {
                    assert(below(kids[at + 1].key, high));
                    key::lemma_key_chain(all[i].key, kids[at + 1].key, bound);
                }
            }
        }
    }
}

/// Replacing one of several trees side by side by others in the same bounds.
pub proof fn lemma_splice(
    nodes: Map<u64, NodeView>,
    live: Set<u64>,
    kids: Seq<EntryView>,
    at: int,
    fresh: Seq<EntryView>,
    level: nat,
    low: Option<Seq<u8>>,
    high: Option<Seq<u8>>,
)
    requires
        0 <= at < kids.len(),
        is_grove(nodes, live, kids, level, low, high),
        is_grove(
            nodes,
            live,
            fresh,
            level,
            child_low(kids, at, low),
            bound_at(kids, at + 1, high),
        ),
    ensures
        is_grove(nodes, live, spliced(kids, at, fresh), level, low, high),
        forest_entries(nodes, spliced(kids, at, fresh), level) == forest_entries(
            nodes,
            kids.take(at),
            level,
        ) + forest_entries(nodes, fresh, level) + forest_entries(nodes, kids.skip(at + 1), level),
{
    let left = kids.take(at);
    let right = kids.skip(at + 1);
    let all = spliced(kids, at, fresh);
    let count = fresh.len() as int;
    let child_high = bound_at(kids, at + 1, high);
    lemma_forest_concat(nodes, left + fresh, right, level);
    lemma_forest_concat(nodes, left, fresh, level);
    lemma_splice_within(kids, at, fresh, low, high);
    lemma_spliced_index(kids, at, fresh);
    assert forall|i: int| 0 <= i < all.len() implies is_tree(
        nodes,
        live,
        (#[trigger] all[i]).value,
        level,
        Some(all[i].key),
        bound_at(all, i + 1, high),
    ) by {
        if i < at - 1 {
            assert(all[i] == kids[i]);
            assert(all[i + 1] == kids[i + 1]);
        } else if i == at - 1 {
            lemma_splice_edge(nodes, live, kids, at, fresh, level, low, high);
        } else if i < at + count {
            assert(all[i] == fresh[i - at]);
            if i - at + 1 == count {
                if at + 1 < kids.len() {
                    assert(all[i + 1] == kids[at + 1]);
                }
            } else {
                assert(all[i + 1] == fresh[i - at + 1]);
            }
            assert(bound_at(all, i + 1, high) == bound_at(fresh, i - at + 1, child_high));
        } else {
            let from = i - count + 1;
            assert(all[i] == kids[from]);
            if from + 1 < kids.len() {
                assert(all[i + 1] == kids[from + 1]);
            }
            assert(bound_at(all, i + 1, high) == bound_at(kids, from + 1, high));
        }
    }
}

/// The tree just left of a replaced one has an upper bound that did not shrink.
proof fn lemma_splice_edge(
    nodes: Map<u64, NodeView>,
    live: Set<u64>,
    kids: Seq<EntryView>,
    at: int,
    fresh: Seq<EntryView>,
    level: nat,
    low: Option<Seq<u8>>,
    high: Option<Seq<u8>>,
)
    requires
        0 < at < kids.len(),
        is_grove(nodes, live, kids, level, low, high),
        within(fresh, Some(kids[at].key), bound_at(kids, at + 1, high)),
    ensures
        is_tree(
            nodes,
            live,
            spliced(kids, at, fresh)[at - 1].value,
            level,
            Some(spliced(kids, at, fresh)[at - 1].key),
            bound_at(spliced(kids, at, fresh), at, high),
        ),
{
    let all = spliced(kids, at, fresh);
    let before = bound_at(kids, at, high);
    let after = bound_at(all, at, high);
    lemma_spliced_index(kids, at, fresh);
    assert(all[at - 1] == kids[at - 1]);
    assert(high_le(before, after)) by {
        if fresh.len() > 0 {
            assert(all[at] == fresh[0]);
            assert(above(fresh[0].key, Some(kids[at].key)));
        } else if at + 1 < kids.len() {
            assert(all[at] == kids[at + 1]);
            assert(key::key_lt(kids[at].key, kids[at + 1].key));
        } else if let Some(bound) = high {
            assert(below(kids[at].key, high));
        }
    }
    lemma_high_reflexive(Some(kids[at - 1].key));
    assert(is_tree(
        nodes,
        live,
        kids[at - 1].value,
        level,
        Some(kids[at - 1].key),
        bound_at(kids, at - 1 + 1, high),
    ));
    lemma_tree_widen(
        nodes,
        live,
        kids[at - 1].value,
        level,
        Some(kids[at - 1].key),
        before,
        Some(kids[at - 1].key),
        after,
    );
}

/// A key is found among entries side by side where it is found in one of the parts.
pub proof fn lemma_find_concat(first: Seq<EntryView>, second: Seq<EntryView>, k: Seq<u8>)
    ensures
        find(first + second, k) == (match find(second, k) {
            Some(value) => Some(value),
            None => find(first, k),
        }),
    decreases second.len(),
{
    let all = first + second;
    if second.len() == 0 {
        assert(all =~= first);
    } else {
        assert(all.last() == second.last());
        assert(all.drop_last() =~= first + second.drop_last());
        lemma_find_concat(first, second.drop_last(), k);
    }
}

/// A key that no entry has is not found.
pub proof fn lemma_find_absent(entries: Seq<EntryView>, k: Seq<u8>)
    requires
        forall|i: int| 0 <= i < entries.len() ==> (#[trigger] entries[i]).key != k,
    ensures
        find(entries, k) is None,
    decreases entries.len(),
{
    if entries.len() > 0 {
        assert(entries.last() == entries[entries.len() - 1]);
        assert forall|i: int| 0 <= i < entries.drop_last().len() implies (
        #[trigger] entries.drop_last()[i]).key != k by {
            assert(entries.drop_last()[i] == entries[i]);
        }
        lemma_find_absent(entries.drop_last(), k);
    }
}

/// A key that one entry has, and no later one, is found there.
pub proof fn lemma_find_at(entries: Seq<EntryView>, at: int)
    requires
        0 <= at < entries.len(),
        node::keys_rise(entries),
    ensures
        find(entries, entries[at].key) == Some(entries[at].value),
    decreases entries.len(),
{
    if at < entries.len() - 1 {
        assert(entries.last() == entries[entries.len() - 1]);
        key::lemma_key_asymmetric(entries[at].key, entries.last().key);
        assert(node::keys_rise(entries.drop_last())) by {
            assert forall|i: int, j: int| 0 <= i < j < entries.drop_last().len() implies key::key_lt(
                (#[trigger] entries.drop_last()[i]).key,
                (#[trigger] entries.drop_last()[j]).key,
            ) by {
                assert(entries.drop_last()[i] == entries[i]);
                assert(entries.drop_last()[j] == entries[j]);
            }
        }
        lemma_find_at(entries.drop_last(), at);
    }
}

/// What is found stands somewhere.
pub proof fn lemma_find_some(entries: Seq<EntryView>, k: Seq<u8>) -> (at: int)
    requires
        find(entries, k) is Some,
    ensures
        0 <= at < entries.len(),
        entries[at].key == k,
        find(entries, k) == Some(entries[at].value),
    decreases entries.len(),
{
    if entries.last().key == k {
        entries.len() - 1
    } else {
        lemma_find_some(entries.drop_last(), k)
    }
}

/// A key outside the bounds of entries is not found among them.
pub proof fn lemma_find_outside(
    entries: Seq<EntryView>,
    low: Option<Seq<u8>>,
    high: Option<Seq<u8>>,
    k: Seq<u8>,
)
    requires
        within(entries, low, high),
        !above(k, low) || !below(k, high),
    ensures
        find(entries, k) is None,
{
    if find(entries, k) is Some {
        let at = lemma_find_some(entries, k);
        assert(above(entries[at].key, low));
    }
}

/// One more tree at the right of others.
pub proof fn lemma_grove_push(
    nodes: Map<u64, NodeView>,
    live: Set<u64>,
    kids: Seq<EntryView>,
    kid: EntryView,
    level: nat,
    low: Option<Seq<u8>>,
    high: Option<Seq<u8>>,
)
    requires
        is_grove(nodes, live, kids, level, low, Some(kid.key)),
        is_tree(nodes, live, kid.value, level, Some(kid.key), high),
        above(kid.key, low),
        below(kid.key, high),
        kid.key.len() <= MAX_KEY_LENGTH,
    ensures
        is_grove(nodes, live, kids.push(kid), level, low, high),
        forest_entries(nodes, kids.push(kid), level) == forest_entries(nodes, kids, level)
            + tree_entries(nodes, kid.value, level),
{
    let all = kids.push(kid);
    assert(all.drop_last() =~= kids);
    assert forall|i: int, j: int| 0 <= i < j < all.len() implies key::key_lt(
        (#[trigger] all[i]).key,
        (#[trigger] all[j]).key,
    ) by {
        assert(all[i] == kids[i]);
        if j < kids.len() {
            assert(all[j] == kids[j]);
        }
    }
    assert forall|i: int| 0 <= i < all.len() implies above((#[trigger] all[i]).key, low) && below(
        all[i].key,
        high,
    ) && all[i].key.len() <= MAX_KEY_LENGTH by {
        if i < kids.len() {
            assert(all[i] == kids[i]);
            if let Some(bound) = high {
                key::lemma_key_chain(kids[i].key, kid.key, bound);
            }
        }
    }
    assert forall|i: int| 0 <= i < all.len() implies is_tree(
        nodes,
        live,
        (#[trigger] all[i]).value,
        level,
        Some(all[i].key),
        bound_at(all, i + 1, high),
    ) by {
        if i < kids.len() {
            assert(all[i] == kids[i]);
            assert(bound_at(all, i + 1, high) == bound_at(kids, i + 1, Some(kid.key)));
        }
    }
}

/// A run of trees out of several side by side.
pub proof fn lemma_grove_run(
    nodes: Map<u64, NodeView>,
    live: Set<u64>,
    kids: Seq<EntryView>,
    level: nat,
    low: Option<Seq<u8>>,
    high: Option<Seq<u8>>,
    start: int,
    end: int,
)
    requires
        is_grove(nodes, live, kids, level, low, high),
        0 <= start < end <= kids.len(),
    ensures
        is_grove(
            nodes,
            live,
            kids.subrange(start, end),
            level,
            low,
            bound_at(kids, end, high),
        ),
        forest_entries(nodes, kids.take(end), level) == forest_entries(
            nodes,
            kids.take(start),
            level,
        ) + forest_entries(nodes, kids.subrange(start, end), level),
{
    let run = kids.subrange(start, end);
    lemma_trees_take(nodes, live, kids, level, high, end);
    lemma_within_take(kids, low, high, end);
    let head = kids.take(end);
    lemma_trees_skip(nodes, live, head, level, bound_at(kids, end, high), start);
    lemma_within_skip(head, low, bound_at(kids, end, high), start);
    assert(head.skip(start) =~= run);
    assert(head =~= kids.take(start) + run);
    lemma_forest_concat(nodes, kids.take(start), run, level);
}

/// Trees side by side are the same among nodes that agree on their pages.
pub proof fn lemma_grove_frame(
    nodes: Map<u64, NodeView>,
    live: Set<u64>,
    other: Map<u64, NodeView>,
    other_live: Set<u64>,
    kids: Seq<EntryView>,
    level: nat,
    low: Option<Seq<u8>>,
    high: Option<Seq<u8>>,
)
    requires
        is_grove(nodes, live, kids, level, low, high),
        agrees(nodes, live, other, other_live),
    ensures
        is_grove(other, other_live, kids, level, low, high),
        forest_entries(other, kids, level) == forest_entries(nodes, kids, level),
{
    lemma_forest_frame(nodes, live, other, other_live, kids, level, high);
}

} // verus!
