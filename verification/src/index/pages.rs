//! No page occurs twice in a tree.
use crate::index::key;
use crate::index::model;
use crate::index::node;
use crate::index::node::{EntryView, NodeView};
use vstd::prelude::*;

verus! {

/// The first key under a page.
pub open spec fn first_key_of(nodes: Map<u64, NodeView>, page: u64) -> Seq<u8> {
    model::tree_entries(nodes, page, node::node_level(nodes[page]) as nat)[0].key
}

/// Whether a page is one of a tree with keys in `[low, high)`, at most at the given level.
pub open spec fn is_page_within(
    nodes: Map<u64, NodeView>,
    live: Set<u64>,
    page: u64,
    level: nat,
    low: Option<Seq<u8>>,
    high: Option<Seq<u8>>,
) -> bool {
    &&& live.contains(page)
    &&& nodes.contains_key(page)
    &&& page != u64::MAX
    &&& node::node_level(nodes[page]) <= level
    &&& model::above(first_key_of(nodes, page), low)
    &&& model::below(first_key_of(nodes, page), high)
}

/// Every page of a tree is in use, and the first key under it lies in the tree's bounds.
pub proof fn lemma_tree_pages_within(
    nodes: Map<u64, NodeView>,
    live: Set<u64>,
    page: u64,
    level: nat,
    low: Option<Seq<u8>>,
    high: Option<Seq<u8>>,
)
    requires
        model::is_tree(nodes, live, page, level, low, high),
    ensures
        model::tree_pages(nodes, page, level).len() > 0,
        model::tree_pages(nodes, page, level)[0] == page,
        node::node_level(nodes[page]) == level,
        forall|i: int|
            0 <= i < model::tree_pages(nodes, page, level).len() ==> is_page_within(
                nodes,
                live,
                #[trigger] model::tree_pages(nodes, page, level)[i],
                level,
                low,
                high,
            ),
        forall|i: int|
            1 <= i < model::tree_pages(nodes, page, level).len() ==> node::node_level(
                nodes[#[trigger] model::tree_pages(nodes, page, level)[i]],
            ) < level,
    decreases level, 0nat,
{
    model::lemma_tree_sorted(nodes, live, page, level, low, high);
    let pages = model::tree_pages(nodes, page, level);
    assert(is_page_within(nodes, live, page, level, low, high));
    if let NodeView::Internal { level: own, first_child, separators } = nodes[page] {
        let under = (level - 1) as nat;
        let left = model::tree_pages(nodes, first_child, under);
        let right = model::forest_pages(nodes, separators, under);
        assert(model::are_trees(nodes, live, separators, under, high));
        lemma_tree_pages_within(
            nodes,
            live,
            first_child,
            under,
            low,
            model::bound_at(separators, 0, high),
        );
        lemma_forest_pages_within(nodes, live, separators, under, low, high);
        assert forall|i: int| 1 <= i < pages.len() implies is_page_within(
            nodes,
            live,
            #[trigger] pages[i],
            under,
            low,
            high,
        ) by {
            if i - 1 < left.len() {
                assert(pages[i] == left[i - 1]);
                if separators.len() > 0 {
                    if let Some(bound) = high {
                        assert(model::below(separators[0].key, high));
                        key::lemma_key_chain(
                            first_key_of(nodes, left[i - 1]),
                            separators[0].key,
                            bound,
                        );
                    }
                }
            } else {
                assert(pages[i] == right[i - 1 - left.len()]);
                if separators.len() > 0 {
                    if let Some(bound) = low {
                        assert(model::above(separators[0].key, low));
                        key::lemma_key_chain(bound, separators[0].key, first_key_of(nodes, pages[i]));
                    }
                }
            }
        }
    }
}

/// Every page of trees side by side lies from the first child's key on.
pub proof fn lemma_forest_pages_within(
    nodes: Map<u64, NodeView>,
    live: Set<u64>,
    kids: Seq<EntryView>,
    level: nat,
    low: Option<Seq<u8>>,
    high: Option<Seq<u8>>,
)
    requires
        model::is_grove(nodes, live, kids, level, low, high),
    ensures
        kids.len() == 0 ==> model::forest_pages(nodes, kids, level).len() == 0,
        kids.len() > 0 ==> forall|i: int|
            0 <= i < model::forest_pages(nodes, kids, level).len() ==> is_page_within(
                nodes,
                live,
                #[trigger] model::forest_pages(nodes, kids, level)[i],
                level,
                Some(kids[0].key),
                high,
            ),
    decreases level, kids.len() + 1,
{
    if kids.len() > 0 {
        let last = kids.len() - 1;
        let head = kids.drop_last();
        let pages = model::forest_pages(nodes, kids, level);
        let left = model::forest_pages(nodes, head, level);
        let right = model::tree_pages(nodes, kids.last().value, level);
        assert(kids[last] == kids.last());
        lemma_tree_pages_within(
            nodes,
            live,
            kids[last].value,
            level,
            Some(kids[last].key),
            model::bound_at(kids, last + 1, high),
        );
        model::lemma_trees_take(nodes, live, kids, level, high, last as int);
        model::lemma_within_take(kids, low, high, last as int);
        assert(kids.take(last as int) =~= head);
        lemma_forest_pages_within(nodes, live, head, level, low, Some(kids[last].key));
        assert forall|i: int| 0 <= i < pages.len() implies is_page_within(
            nodes,
            live,
            #[trigger] pages[i],
            level,
            Some(kids[0].key),
            high,
        ) by {
            if i < left.len() {
                assert(pages[i] == left[i]);
                assert(head[0] == kids[0]);
                if let Some(bound) = high {
                    assert(model::below(kids[last].key, high));
                    key::lemma_key_chain(first_key_of(nodes, left[i]), kids[last].key, bound);
                }
            } else {
                assert(pages[i] == right[i - left.len()]);
                if last > 0 {
                    assert(key::key_lt(kids[0].key, kids[last].key));
                    key::lemma_key_chain(
                        kids[0].key,
                        kids[last].key,
                        first_key_of(nodes, pages[i]),
                    );
                }
            }
        }
    }
}

/// No page occurs twice in a tree.
pub proof fn law_tree_pages_distinct(
    nodes: Map<u64, NodeView>,
    live: Set<u64>,
    page: u64,
    level: nat,
    low: Option<Seq<u8>>,
    high: Option<Seq<u8>>,
)
    requires
        model::is_tree(nodes, live, page, level, low, high),
    ensures
        model::tree_pages(nodes, page, level).no_duplicates(),
    decreases level, 0nat,
{
    if let NodeView::Internal { level: own, first_child, separators } = nodes[page] {
        let under = (level - 1) as nat;
        let left = model::tree_pages(nodes, first_child, under);
        let right = model::forest_pages(nodes, separators, under);
        let pages = model::tree_pages(nodes, page, level);
        assert(model::are_trees(nodes, live, separators, under, high));
        law_tree_pages_distinct(
            nodes,
            live,
            first_child,
            under,
            low,
            model::bound_at(separators, 0, high),
        );
        lemma_forest_pages_distinct(nodes, live, separators, under, low, high);
        lemma_tree_pages_within(nodes, live, page, level, low, high);
        lemma_tree_pages_within(
            nodes,
            live,
            first_child,
            under,
            low,
            model::bound_at(separators, 0, high),
        );
        lemma_forest_pages_within(nodes, live, separators, under, low, high);
        assert forall|i: int, j: int| 0 <= i < j < pages.len() implies pages[i] != pages[j] by {
            if i == 0 {
                assert(node::node_level(nodes[pages[j]]) < level);
            } else if j - 1 < left.len() {
                assert(pages[i] == left[i - 1] && pages[j] == left[j - 1]);
            } else if i - 1 < left.len() {
                let other = right[j - 1 - left.len()];
                assert(pages[i] == left[i - 1] && pages[j] == other);
                assert(separators.len() > 0);
                assert(is_page_within(
                    nodes,
                    live,
                    left[i - 1],
                    under,
                    low,
                    Some(separators[0].key),
                ));
                assert(is_page_within(nodes, live, other, under, Some(separators[0].key), high));
                key::lemma_key_chain(
                    first_key_of(nodes, left[i - 1]),
                    separators[0].key,
                    first_key_of(nodes, other),
                );
                key::lemma_key_irreflexive(first_key_of(nodes, other));
            } else {
                assert(pages[i] == right[i - 1 - left.len()] && pages[j] == right[j - 1
                    - left.len()]);
            }
        }
    }
}

/// No page occurs twice in trees side by side.
pub proof fn lemma_forest_pages_distinct(
    nodes: Map<u64, NodeView>,
    live: Set<u64>,
    kids: Seq<EntryView>,
    level: nat,
    low: Option<Seq<u8>>,
    high: Option<Seq<u8>>,
)
    requires
        model::is_grove(nodes, live, kids, level, low, high),
    ensures
        model::forest_pages(nodes, kids, level).no_duplicates(),
    decreases level, kids.len() + 1,
{
    if kids.len() > 0 {
        let last = kids.len() - 1;
        let head = kids.drop_last();
        let pages = model::forest_pages(nodes, kids, level);
        let left = model::forest_pages(nodes, head, level);
        let right = model::tree_pages(nodes, kids.last().value, level);
        let bound = kids[last].key;
        assert(kids[last] == kids.last());
        model::lemma_trees_take(nodes, live, kids, level, high, last as int);
        model::lemma_within_take(kids, low, high, last as int);
        assert(kids.take(last as int) =~= head);
        law_tree_pages_distinct(
            nodes,
            live,
            kids[last].value,
            level,
            Some(bound),
            model::bound_at(kids, last + 1, high),
        );
        lemma_tree_pages_within(
            nodes,
            live,
            kids[last].value,
            level,
            Some(bound),
            model::bound_at(kids, last + 1, high),
        );
        lemma_forest_pages_distinct(nodes, live, head, level, low, Some(bound));
        lemma_forest_pages_within(nodes, live, head, level, low, Some(bound));
        assert forall|i: int, j: int| 0 <= i < j < pages.len() implies pages[i] != pages[j] by {
            if j < left.len() {
                assert(pages[i] == left[i] && pages[j] == left[j]);
            } else if i < left.len() {
                let other = right[j - left.len()];
                assert(pages[i] == left[i] && pages[j] == other);
                assert(model::below(first_key_of(nodes, left[i]), Some(bound)));
                assert(model::above(first_key_of(nodes, other), Some(bound)));
                key::lemma_key_chain(
                    first_key_of(nodes, left[i]),
                    bound,
                    first_key_of(nodes, other),
                );
                key::lemma_key_irreflexive(first_key_of(nodes, other));
            } else {
                assert(pages[i] == right[i - left.len()] && pages[j] == right[j - left.len()]);
            }
        }
    }
}

/// A tree needs no pages in use but its own.
pub proof fn lemma_tree_restrict(
    nodes: Map<u64, NodeView>,
    live: Set<u64>,
    kept: Set<u64>,
    page: u64,
    level: nat,
    low: Option<Seq<u8>>,
    high: Option<Seq<u8>>,
)
    requires
        model::is_tree(nodes, live, page, level, low, high),
        forall|i: int|
            0 <= i < model::tree_pages(nodes, page, level).len() ==> kept.contains(
                #[trigger] model::tree_pages(nodes, page, level)[i],
            ),
    ensures
        model::is_tree(nodes, kept, page, level, low, high),
    decreases level, 0nat,
{
    let pages = model::tree_pages(nodes, page, level);
    assert(pages[0] == page);
    if let NodeView::Internal { level: own, first_child, separators } = nodes[page] {
        let under = (level - 1) as nat;
        let left = model::tree_pages(nodes, first_child, under);
        let right = model::forest_pages(nodes, separators, under);
        assert(model::are_trees(nodes, live, separators, under, high));
        assert forall|i: int| 0 <= i < left.len() implies kept.contains(#[trigger] left[i]) by {
            assert(pages[i + 1] == left[i]);
        }
        assert forall|i: int| 0 <= i < right.len() implies kept.contains(#[trigger] right[i]) by {
            assert(pages[i + 1 + left.len()] == right[i]);
        }
        lemma_tree_restrict(
            nodes,
            live,
            kept,
            first_child,
            under,
            low,
            model::bound_at(separators, 0, high),
        );
        lemma_forest_restrict(nodes, live, kept, separators, under, high);
    }
}

proof fn lemma_forest_restrict(
    nodes: Map<u64, NodeView>,
    live: Set<u64>,
    kept: Set<u64>,
    kids: Seq<EntryView>,
    level: nat,
    high: Option<Seq<u8>>,
)
    requires
        model::are_trees(nodes, live, kids, level, high),
        forall|i: int|
            0 <= i < model::forest_pages(nodes, kids, level).len() ==> kept.contains(
                #[trigger] model::forest_pages(nodes, kids, level)[i],
            ),
    ensures
        model::are_trees(nodes, kept, kids, level, high),
    decreases level, kids.len() + 1,
{
    if kids.len() > 0 {
        let last = kids.len() - 1;
        let head = kids.drop_last();
        let pages = model::forest_pages(nodes, kids, level);
        let left = model::forest_pages(nodes, head, level);
        let right = model::tree_pages(nodes, kids.last().value, level);
        assert(kids[last] == kids.last());
        assert forall|i: int| 0 <= i < left.len() implies kept.contains(#[trigger] left[i]) by {
            assert(pages[i] == left[i]);
        }
        assert forall|i: int| 0 <= i < right.len() implies kept.contains(#[trigger] right[i]) by {
            assert(pages[i + left.len()] == right[i]);
        }
        lemma_tree_restrict(
            nodes,
            live,
            kept,
            kids[last].value,
            level,
            Some(kids[last].key),
            model::bound_at(kids, last + 1, high),
        );
        model::lemma_trees_take(nodes, live, kids, level, high, last as int);
        assert(kids.take(last as int) =~= head);
        lemma_forest_restrict(nodes, live, kept, head, level, Some(kids[last].key));
        assert forall|i: int| 0 <= i < kids.len() implies model::is_tree(
            nodes,
            kept,
            (#[trigger] kids[i]).value,
            level,
            Some(kids[i].key),
            model::bound_at(kids, i + 1, high),
        ) by {
            if i < last {
                assert(head[i] == kids[i]);
                assert(model::bound_at(head, i + 1, Some(kids[last].key)) == model::bound_at(
                    kids,
                    i + 1,
                    high,
                ));
            }
        }
    }
}

} // verus!
