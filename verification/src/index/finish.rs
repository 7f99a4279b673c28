//! What of an edit has to be written: the new nodes that the root leads to.
use crate::index::editor;
use crate::index::editor::Editor;
use crate::index::error::{corrupt, IndexError};
use crate::index::model;
use crate::index::node;
use crate::index::node::{EntryView, Node, NodeView};
use crate::index::pages;
use crate::index::plan;
use crate::index::plan::{IndexBuildPlan, PlanView};
use crate::index::steps;
use crate::storage::page::{PageId, MAX_PAGE_PAYLOAD};
use crate::storage::store;
use crate::storage::store::{insert_rising, PageWrite, PageWriteView, StoreView};
use std::collections::HashSet;
use vstd::prelude::*;

verus! {

broadcast use vstd::std_specs::hash::group_hash_axioms;

/// The pages under pages still to be visited.
pub open spec fn pending_pages(nodes: Map<u64, NodeView>, pending: Seq<u64>) -> Seq<u64>
    decreases pending.len(),
{
    if pending.len() == 0 {
        Seq::empty()
    } else {
        pending_pages(nodes, pending.drop_last()) + model::tree_pages(
            nodes,
            pending.last(),
            node::node_level(nodes[pending.last()]) as nat,
        )
    }
}

/// Whether a page is the root of some tree.
pub open spec fn is_root_page(nodes: Map<u64, NodeView>, pages: Set<u64>, page: u64) -> bool {
    model::is_tree(nodes, pages, page, node::node_level(nodes[page]) as nat, None, None)
}

/// The children of a node in order.
pub open spec fn child_pages(found: NodeView) -> Seq<u64> {
    match found {
        NodeView::Leaf { .. } => Seq::empty(),
        NodeView::Internal { first_child, separators, .. } => seq![first_child] + Seq::new(
            separators.len(),
            |i: int| separators[i].value,
        ),
    }
}

proof fn lemma_pending_concat(nodes: Map<u64, NodeView>, first: Seq<u64>, second: Seq<u64>)
    ensures
        pending_pages(nodes, first + second) == pending_pages(nodes, first) + pending_pages(
            nodes,
            second,
        ),
    decreases second.len(),
{
    let all = first + second;
    if second.len() == 0 {
        assert(all =~= first);
        assert(pending_pages(nodes, first) + pending_pages(nodes, second) =~= pending_pages(
            nodes,
            first,
        ));
    } else {
        assert(all.last() == second.last());
        assert(all.drop_last() =~= first + second.drop_last());
        lemma_pending_concat(nodes, first, second.drop_last());
        assert(pending_pages(nodes, all) =~= pending_pages(nodes, first) + pending_pages(
            nodes,
            second,
        ));
    }
}

/// The children of a tree's root are roots of trees, and hold its other pages.
proof fn lemma_child_pages(
    nodes: Map<u64, NodeView>,
    pages: Set<u64>,
    page: u64,
    level: nat,
    low: Option<Seq<u8>>,
    high: Option<Seq<u8>>,
)
    requires
        model::is_tree(nodes, pages, page, level, low, high),
    ensures
        model::tree_pages(nodes, page, level) == seq![page] + pending_pages(
            nodes,
            child_pages(nodes[page]),
        ),
        forall|i: int|
            0 <= i < child_pages(nodes[page]).len() ==> is_root_page(
                nodes,
                pages,
                #[trigger] child_pages(nodes[page])[i],
            ),
{
    match nodes[page] {
        NodeView::Leaf { .. } => {
            assert(seq![page] + Seq::<u64>::empty() =~= seq![page]);
        },
        NodeView::Internal { level: own, first_child, separators } => {
            let under = (level - 1) as nat;
            let kids = child_pages(nodes[page]);
            let rest = Seq::new(separators.len(), |i: int| separators[i].value);
            assert(model::are_trees(nodes, pages, separators, under, high));
            lemma_root_page(nodes, pages, first_child, under, low, model::bound_at(separators, 0, high));
            lemma_separator_pages(nodes, pages, separators, under, high);
            lemma_pending_concat(nodes, seq![first_child], rest);
            assert(seq![first_child].drop_last() =~= Seq::empty());
            reveal_with_fuel(pending_pages, 2);
            assert(pending_pages(nodes, seq![first_child]) =~= model::tree_pages(
                nodes,
                first_child,
                under,
            ));
            assert forall|i: int| 0 <= i < kids.len() implies is_root_page(
                nodes,
                pages,
                #[trigger] kids[i],
            ) by {
                if i > 0 {
                    assert(kids[i] == rest[i - 1]);
                }
            }
        },
    }
}

proof fn lemma_root_page(
    nodes: Map<u64, NodeView>,
    pages: Set<u64>,
    page: u64,
    level: nat,
    low: Option<Seq<u8>>,
    high: Option<Seq<u8>>,
)
    requires
        model::is_tree(nodes, pages, page, level, low, high),
    ensures
        is_root_page(nodes, pages, page),
        node::node_level(nodes[page]) == level,
{
    model::lemma_tree_widen(nodes, pages, page, level, low, high, None, None);
}

proof fn lemma_separator_pages(
    nodes: Map<u64, NodeView>,
    pages: Set<u64>,
    separators: Seq<EntryView>,
    level: nat,
    high: Option<Seq<u8>>,
)
    requires
        model::are_trees(nodes, pages, separators, level, high),
    ensures
        model::forest_pages(nodes, separators, level) == pending_pages(
            nodes,
            Seq::new(separators.len(), |i: int| separators[i].value),
        ),
        forall|i: int|
            0 <= i < separators.len() ==> is_root_page(nodes, pages, (#[trigger] separators[i]).value),
    decreases separators.len(),
{
    let values = Seq::new(separators.len(), |i: int| separators[i].value);
    if separators.len() > 0 {
        let last = separators.len() - 1;
        let head = separators.drop_last();
        assert(separators[last] == separators.last());
        lemma_root_page(
            nodes,
            pages,
            separators[last].value,
            level,
            Some(separators[last].key),
            model::bound_at(separators, last + 1, high),
        );
        model::lemma_trees_take(nodes, pages, separators, level, high, last as int);
        assert(separators.take(last as int) =~= head);
        lemma_separator_pages(nodes, pages, head, level, Some(separators[last].key));
        assert(values.drop_last() =~= Seq::new(head.len(), |i: int| head[i].value));
        assert forall|i: int| 0 <= i < separators.len() implies is_root_page(
            nodes,
            pages,
            (#[trigger] separators[i]).value,
        ) by {
            if i < last {
                assert(head[i] == separators[i]);
            }
        }
    }
}

/// Below a page of the index as it was there are only such pages.
proof fn lemma_base_closed(
    edit: &Editor,
    state: StoreView,
    page: u64,
    level: nat,
    low: Option<Seq<u8>>,
    high: Option<Seq<u8>>,
)
    requires
        edit.wf(state),
        model::is_tree(edit.nodes(state), edit.pages(), page, level, low, high),
        edit.base@.contains(page),
    ensures
        forall|i: int|
            0 <= i < model::tree_pages(edit.nodes(state), page, level).len()
                ==> edit.base@.contains(
                #[trigger] model::tree_pages(edit.nodes(state), page, level)[i],
            ),
    decreases level, 0nat,
{
    let nodes = edit.nodes(state);
    let pages = edit.pages();
    assert(!edit.overlay@.contains_key(page));
    if let NodeView::Internal { level: own, first_child, separators } = nodes[page] {
        let under = (level - 1) as nat;
        let all = model::tree_pages(nodes, page, level);
        let left = model::tree_pages(nodes, first_child, under);
        let right = model::forest_pages(nodes, separators, under);
        assert(model::store_nodes(state).contains_key(page));
        assert(editor::children_in(model::store_nodes(state)[page], edit.base@));
        assert(model::are_trees(nodes, pages, separators, under, high));
        lemma_base_closed(
            edit,
            state,
            first_child,
            under,
            low,
            model::bound_at(separators, 0, high),
        );
        lemma_base_closed_forest(edit, state, separators, under, high);
        assert forall|i: int| 0 <= i < all.len() implies edit.base@.contains(
            #[trigger] all[i],
        ) by {
            if i > 0 {
                if i - 1 < left.len() {
                    assert(all[i] == left[i - 1]);
                } else {
                    assert(all[i] == right[i - 1 - left.len()]);
                }
            }
        }
    }
}

proof fn lemma_base_closed_forest(
    edit: &Editor,
    state: StoreView,
    kids: Seq<EntryView>,
    level: nat,
    high: Option<Seq<u8>>,
)
    requires
        edit.wf(state),
        model::are_trees(edit.nodes(state), edit.pages(), kids, level, high),
        forall|i: int| 0 <= i < kids.len() ==> edit.base@.contains((#[trigger] kids[i]).value),
    ensures
        forall|i: int|
            0 <= i < model::forest_pages(edit.nodes(state), kids, level).len()
                ==> edit.base@.contains(
                #[trigger] model::forest_pages(edit.nodes(state), kids, level)[i],
            ),
    decreases level, kids.len() + 1,
{
    if kids.len() > 0 {
        let nodes = edit.nodes(state);
        let last = kids.len() - 1;
        let head = kids.drop_last();
        let all = model::forest_pages(nodes, kids, level);
        let left = model::forest_pages(nodes, head, level);
        let right = model::tree_pages(nodes, kids.last().value, level);
        assert(kids[last] == kids.last());
        lemma_base_closed(
            edit,
            state,
            kids[last].value,
            level,
            Some(kids[last].key),
            model::bound_at(kids, last + 1, high),
        );
        model::lemma_trees_take(nodes, edit.pages(), kids, level, high, last as int);
        assert(kids.take(last as int) =~= head);
        assert forall|i: int| 0 <= i < head.len() implies edit.base@.contains(
            (#[trigger] head[i]).value,
        ) by {
            assert(head[i] == kids[i]);
        }
        lemma_base_closed_forest(edit, state, head, level, Some(kids[last].key));
        assert forall|i: int| 0 <= i < all.len() implies edit.base@.contains(
            #[trigger] all[i],
        ) by {
            if i < left.len() {
                assert(all[i] == left[i]);
            } else {
                assert(all[i] == right[i - left.len()]);
            }
        }
    }
}

/// A new node that a page can hold, but for its size.
pub open spec fn is_sound(found: NodeView) -> bool {
    &&& node::keys_rise(node::node_items(found))
    &&& match found {
        NodeView::Leaf { next, .. } => next != Some(u64::MAX),
        NodeView::Internal { level, first_child, separators } => level > 0 && first_child
            != u64::MAX && forall|i: int|
            0 <= i < separators.len() ==> (#[trigger] separators[i]).value != u64::MAX,
    }
}

proof fn lemma_sound(edit: &Editor, state: StoreView, page: u64)
    requires
        edit.wf(state),
        is_root_page(edit.nodes(state), edit.pages(), page),
        edit.overlay@.contains_key(page),
    ensures
        is_sound(edit.overlay@[page]@),
        edit.nodes(state)[page] == edit.overlay@[page]@,
{
    let nodes = edit.nodes(state);
    if let NodeView::Internal { level, first_child, separators } = nodes[page] {
        let under = (level - 1) as nat;
        assert(model::is_tree(
            nodes,
            edit.pages(),
            first_child,
            under,
            None,
            model::bound_at(separators, 0, None),
        ));
        assert(model::are_trees(nodes, edit.pages(), separators, under, None));
        assert forall|i: int| 0 <= i < separators.len() implies (#[trigger] separators[i]).value
            != u64::MAX by {
            assert(model::is_tree(
                nodes,
                edit.pages(),
                separators[i].value,
                under,
                Some(separators[i].key),
                model::bound_at(separators, i + 1, None),
            ));
        }
    }
}

/// The new nodes that can be reached from the root, in rising order of their pages.
pub open spec fn is_reachable_overlay(edit: &Editor, state: StoreView, found: Seq<u64>) -> bool {
    &&& store::rising(found)
    &&& forall|i: int| 0 <= i < found.len() ==> edit.overlay@.contains_key(#[trigger] found[i])
        && is_sound(edit.overlay@[found[i]]@)
    &&& edit.root matches Some(root) ==> forall|i: int|
        0 <= i < model::tree_pages(
            edit.nodes(state),
            root.page_id.0,
            (root.height - 1) as nat,
        ).len() ==> {
            let page = #[trigger] model::tree_pages(
                edit.nodes(state),
                root.page_id.0,
                (root.height - 1) as nat,
            )[i];
            edit.base@.contains(page) || found.contains(page)
        }
}

impl Editor {
    /// Finds the new nodes that can be reached from the root.
    #[verifier::rlimit(60)]
    fn reachable(&self, Ghost(state): Ghost<StoreView>) -> (found: Result<Vec<u64>, IndexError>)
        requires
            self.wf(state),
        ensures
            match found {
                Ok(found) => {
                    &&& store::rising(found@)
                    &&& forall|i: int|
                        0 <= i < found@.len() ==> self.overlay@.contains_key(#[trigger] found@[i])
                    &&& self.holds(state) ==> is_reachable_overlay(self, state, found@)
                    &&& self.holds(state) ==> forall|id: u64| #[trigger]
                        found@.contains(id) <==> steps::reached(
                            self.desk(state),
                            self.root,
                        ).contains(id)
                },
                Err(_) => !self.holds(state),
            },
    {
        let ghost nodes = self.nodes(state);
        let ghost pages_set = self.pages();
        let ghost fits = self.holds(state);
        let mut found: Vec<u64> = Vec::new();
        let mut visited: HashSet<u64> = HashSet::new();
        let mut pending: Vec<u64> = Vec::new();
        let root = match self.root {
            None => {
                return Ok(found);
            },
            Some(root) => root,
        };
        let ghost level = (root.height - 1) as nat;
        let ghost whole = model::tree_pages(nodes, root.page_id.0, level);
        pending.push(root.page_id.0);
        proof {
            assert(pending@.drop_last() =~= Seq::empty());
            reveal_with_fuel(pending_pages, 2);
            if fits {
                lemma_root_page(nodes, pages_set, root.page_id.0, level, None, None);
                pages::law_tree_pages_distinct(
                    nodes,
                    pages_set,
                    root.page_id.0,
                    level,
                    None,
                    None,
                );
                assert(pending_pages(nodes, pending@) =~= whole);
            }
        }
        while pending.len() > 0
            invariant
                self.wf(state),
                nodes == self.nodes(state),
                pages_set == self.pages(),
                fits == self.holds(state),
                self.root == Some(root),
                level == (root.height - 1) as nat,
                whole == model::tree_pages(nodes, root.page_id.0, level),
                store::rising(found@),
                forall|i: int|
                    0 <= i < found@.len() ==> self.overlay@.contains_key(#[trigger] found@[i]),
                fits ==> forall|i: int|
                    0 <= i < found@.len() ==> is_sound(self.overlay@[#[trigger] found@[i]]@),
                fits ==> forall|i: int|
                    0 <= i < pending@.len() ==> is_root_page(
                        nodes,
                        pages_set,
                        #[trigger] pending@[i],
                    ),
                fits ==> forall|i: int|
                    0 <= i < found@.len() ==> whole.contains(#[trigger] found@[i]),
                fits ==> forall|i: int|
                    0 <= i < pending_pages(nodes, pending@).len() ==> whole.contains(
                        #[trigger] pending_pages(nodes, pending@)[i],
                    ),
                fits ==> pending_pages(nodes, pending@).no_duplicates(),
                fits ==> forall|i: int|
                    0 <= i < pending_pages(nodes, pending@).len() ==> !visited@.contains(
                        #[trigger] pending_pages(nodes, pending@)[i],
                    ),
                fits ==> forall|i: int|
                    0 <= i < whole.len() ==> self.base@.contains(#[trigger] whole[i])
                        || found@.contains(whole[i]) || pending_pages(
                        nodes,
                        pending@,
                    ).contains(whole[i]),
            decreases editor::unvisited(visited@).len(), pending@.len(),
        {
            let ghost waiting = pending@;
            let ghost waiting_pages = pending_pages(nodes, waiting);
            let ghost seen = visited@;
            let ghost done = found@;
            let page_id: u64 = match pending.pop() {
                Some(page_id) => page_id,
                None => {
                    assert(false);
                    0
                },
            };
            let ghost own = model::tree_pages(
                nodes,
                page_id,
                node::node_level(nodes[page_id]) as nat,
            );
            let ghost rest = pending_pages(nodes, pending@);
            proof {
                assert(pending@ =~= waiting.drop_last());
                assert(waiting_pages == rest + own);
                if fits {
                    assert(is_root_page(nodes, pages_set, waiting[waiting.len() - 1]));
                    lemma_child_pages(
                        nodes,
                        pages_set,
                        page_id,
                        node::node_level(nodes[page_id]) as nat,
                        None,
                        None,
                    );
                    assert(own[0] == page_id);
                    assert(waiting_pages[rest.len() as int] == page_id);
                    assert(!visited@.contains(page_id));
                }
            }
            if !visited.insert(page_id) {
                return Err(corrupt(PageId(page_id), "copy-on-write plan contains a page cycle"));
            }
            proof {
                editor::lemma_visit(seen, page_id);
            }
            match self.overlay.get(&page_id) {
                None => {
                    proof {
                        if fits {
                            assert(self.base@.contains(page_id));
                            lemma_base_closed(
                                self,
                                state,
                                page_id,
                                node::node_level(nodes[page_id]) as nat,
                                None,
                                None,
                            );
                            lemma_dropped(rest, own, seen, page_id);
                            assert forall|i: int| 0 <= i < rest.len() implies whole.contains(
                                #[trigger] rest[i],
                            ) by {
                                assert(waiting_pages[i] == rest[i]);
                            }
                            assert forall|i: int|
                                0 <= i < whole.len() implies self.base@.contains(
                                #[trigger] whole[i],
                            ) || found@.contains(whole[i]) || rest.contains(whole[i]) by {
                                lemma_contains_concat(rest, own, whole[i]);
                                if own.contains(whole[i]) {
                                    let j = choose|j: int|
                                        0 <= j < own.len() && own[j] == whole[i];
                                    assert(self.base@.contains(own[j]));
                                }
                            }
                            assert forall|i: int| 0 <= i < pending@.len() implies is_root_page(
                                nodes,
                                pages_set,
                                #[trigger] pending@[i],
                            ) by {
                                assert(pending@[i] == waiting[i]);
                            }
                        }
                    }
                },
                Some(made) => {
                    insert_rising(&mut found, page_id);
                    let ghost kids = child_pages(made@);
                    let ghost before = pending@;
                    match made {
                        Node::Leaf { .. } => {
                            assert(before + kids =~= pending@);
                        },
                        Node::Internal { first_child, separators, .. } => {
                            pending.push(first_child.0);
                            let mut index: usize = 0;
                            assert(pending@ =~= before + kids.take(1));
                            while index < separators.len()
                                invariant
                                    index <= separators@.len(),
                                    kids.len() == separators@.len() + 1,
                                    forall|i: int|
                                        0 <= i < separators@.len() ==> kids[i + 1] == (
                                        #[trigger] separators@[i]).value.0,
                                    pending@ == before + kids.take(index + 1),
                                decreases separators@.len() - index,
                            {
                                pending.push(separators[index].value.0);
                                assert(kids[index + 1] == separators@[index as int].value.0);
                                assert(pending@ =~= before + kids.take(index + 2));
                                index = index + 1;
                            }
                            assert(kids.take(index + 1) =~= kids);
                        },
                    }
                    proof {
                        assert(pending@ =~= before + kids);
                        lemma_pending_concat(nodes, before, kids);
                        assert forall|i: int|
                            0 <= i < found@.len() implies self.overlay@.contains_key(
                            #[trigger] found@[i],
                        ) by {
                            assert(found@.contains(found@[i]));
                            if done.contains(found@[i]) {
                                let j = choose|j: int| 0 <= j < done.len() && done[j] == found@[i];
                                assert(self.overlay@.contains_key(done[j]));
                            }
                        }
                        if fits {
                            lemma_sound(self, state, page_id);
                            assert(nodes[page_id] == made@);
                            let under = pending_pages(nodes, kids);
                            assert(own == seq![page_id] + under);
                            lemma_descended(rest, under, seen, page_id);
                            assert forall|i: int|
                                0 <= i < found@.len() implies is_sound(
                                self.overlay@[#[trigger] found@[i]]@,
                            ) by {
                                assert(found@.contains(found@[i]));
                                if done.contains(found@[i]) {
                                    let j = choose|j: int|
                                        0 <= j < done.len() && done[j] == found@[i];
                                    assert(is_sound(self.overlay@[done[j]]@));
                                }
                            }
                            lemma_part_within(waiting_pages, rest, page_id, under, whole);
                            assert forall|i: int| 0 <= i < found@.len() implies whole.contains(
                                #[trigger] found@[i],
                            ) by {
                                assert(found@.contains(found@[i]));
                                if done.contains(found@[i]) {
                                    let j = choose|j: int|
                                        0 <= j < done.len() && done[j] == found@[i];
                                    assert(whole.contains(done[j]));
                                }
                            }
                            assert forall|i: int|
                                0 <= i < whole.len() implies self.base@.contains(
                                #[trigger] whole[i],
                            ) || found@.contains(whole[i]) || (rest + under).contains(whole[i]) by {
                                lemma_contains_concat(rest, own, whole[i]);
                                lemma_contains_concat(seq![page_id], under, whole[i]);
                                lemma_contains_concat(rest, under, whole[i]);
                                if seq![page_id].contains(whole[i]) {
                                    assert(whole[i] == page_id);
                                }
                                if done.contains(whole[i]) {
                                    assert(found@.contains(whole[i]));
                                }
                                assert(found@.contains(page_id));
                            }
                            assert forall|i: int| 0 <= i < pending@.len() implies is_root_page(
                                nodes,
                                pages_set,
                                #[trigger] pending@[i],
                            ) by {
                                if i < before.len() {
                                    assert(pending@[i] == waiting[i]);
                                } else {
                                    assert(pending@[i] == kids[i - before.len()]);
                                }
                            }
                        }
                    }
                },
            }
        }
        proof {
            if fits {
                assert(pending_pages(nodes, pending@) =~= Seq::empty());
                assert forall|i: int| 0 <= i < whole.len() implies self.base@.contains(
                    #[trigger] whole[i],
                ) || found@.contains(whole[i]) by {
                    assert(!pending_pages(nodes, pending@).contains(whole[i]));
                }
                assert forall|id: u64| #[trigger] found@.contains(id) <==> steps::reached(
                    self.desk(state),
                    self.root,
                ).contains(id) by {
                    assert(steps::desk_nodes(self.desk(state)) == nodes);
                    if found@.contains(id) {
                        let i = choose|i: int| 0 <= i < found@.len() && found@[i] == id;
                        assert(whole.contains(found@[i]));
                        assert(self.overlay@.contains_key(found@[i]));
                    }
                    if steps::reached(self.desk(state), self.root).contains(id) {
                        assert(whole.contains(id));
                        let i = choose|i: int| 0 <= i < whole.len() && whole[i] == id;
                        assert(self.base@.contains(whole[i]) || found@.contains(whole[i]));
                        assert(self.overlay@.contains_key(id));
                    }
                }
            }
        }
        Ok(found)
    }
}

proof fn lemma_contains_concat(first: Seq<u64>, second: Seq<u64>, id: u64)
    ensures
        (first + second).contains(id) <==> first.contains(id) || second.contains(id),
{
    let all = first + second;
    if first.contains(id) {
        let i = choose|i: int| 0 <= i < first.len() && first[i] == id;
        assert(all[i] == id);
    }
    if second.contains(id) {
        let i = choose|i: int| 0 <= i < second.len() && second[i] == id;
        assert(all[first.len() + i] == id);
    }
    if all.contains(id) {
        let i = choose|i: int| 0 <= i < all.len() && all[i] == id;
        if i < first.len() {
            assert(first[i] == id);
        } else {
            assert(second[i - first.len()] == id);
        }
    }
}

/// What is left of pages within others is within them.
proof fn lemma_part_within(
    waiting: Seq<u64>,
    rest: Seq<u64>,
    page: u64,
    under: Seq<u64>,
    whole: Seq<u64>,
)
    requires
        waiting == rest + (seq![page] + under),
        forall|i: int| 0 <= i < waiting.len() ==> whole.contains(#[trigger] waiting[i]),
    ensures
        whole.contains(page),
        forall|i: int|
            0 <= i < (rest + under).len() ==> whole.contains(#[trigger] (rest + under)[i]),
{
    assert(waiting[rest.len() as int] == page);
    assert forall|i: int| 0 <= i < (rest + under).len() implies whole.contains(
        #[trigger] (rest + under)[i],
    ) by {
        if i < rest.len() {
            assert(waiting[i] == rest[i]);
        } else {
            assert(waiting[i + 1] == under[i - rest.len()]);
        }
    }
}

/// Leaving a subtree out.
proof fn lemma_dropped(rest: Seq<u64>, own: Seq<u64>, seen: Set<u64>, page: u64)
    requires
        (rest + own).no_duplicates(),
        own.len() > 0,
        own[0] == page,
        forall|i: int| 0 <= i < (rest + own).len() ==> !seen.contains(#[trigger] (rest + own)[i]),
    ensures
        rest.no_duplicates(),
        forall|i: int| 0 <= i < rest.len() ==> !seen.insert(page).contains(#[trigger] rest[i]),
{
    let all = rest + own;
    assert(all[rest.len() as int] == page);
    assert forall|i: int, j: int| 0 <= i < j < rest.len() implies rest[i] != rest[j] by {
        assert(all[i] == rest[i] && all[j] == rest[j]);
    }
    assert forall|i: int| 0 <= i < rest.len() implies !seen.insert(page).contains(
        #[trigger] rest[i],
    ) by {
        assert(all[i] == rest[i]);
        assert(all[i] != all[rest.len() as int]);
    }
}

/// Going on with the pages under a page.
proof fn lemma_descended(rest: Seq<u64>, under: Seq<u64>, seen: Set<u64>, page: u64)
    requires
        (rest + (seq![page] + under)).no_duplicates(),
        forall|i: int|
            0 <= i < (rest + (seq![page] + under)).len() ==> !seen.contains(
                #[trigger] (rest + (seq![page] + under))[i],
            ),
    ensures
        (rest + under).no_duplicates(),
        forall|i: int|
            0 <= i < (rest + under).len() ==> !seen.insert(page).contains(
                #[trigger] (rest + under)[i],
            ),
{
    let all = rest + (seq![page] + under);
    let left = rest + under;
    assert(all[rest.len() as int] == page);
    assert forall|i: int| 0 <= i < left.len() implies #[trigger] left[i] == all[if i < rest.len() {
        i
    } else {
        i + 1
    }] by {}
    assert forall|i: int, j: int| 0 <= i < j < left.len() implies left[i] != left[j] by {
        let a = if i < rest.len() { i } else { i + 1 };
        let b = if j < rest.len() { j } else { j + 1 };
        assert(left[i] == all[a] && left[j] == all[b]);
    }
    assert forall|i: int| 0 <= i < left.len() implies !seen.insert(page).contains(
        #[trigger] left[i],
    ) by {
        let a = if i < rest.len() { i } else { i + 1 };
        assert(left[i] == all[a]);
        assert(!seen.contains(all[a]));
        assert(all[a] != all[rest.len() as int]);
    }
}

/// Whether page writes put down exactly the given new nodes.
spec fn writes_overlay(edit: &Editor, found: Seq<u64>, writes: Seq<PageWriteView>) -> bool {
    &&& writes.len() == found.len()
    &&& forall|i: int|
        0 <= i < writes.len() ==> (#[trigger] writes[i]).page_id == found[i] && writes[i].payload
            == node::node_image(edit.overlay@[found[i]]@) && node::node_size(
            edit.overlay@[found[i]]@,
        ) <= MAX_PAGE_PAYLOAD
}

/// Writing the reachable new nodes brings the index about.
proof fn lemma_writes_complete(
    edit: &Editor,
    before: StoreView,
    now: StoreView,
    found: Seq<u64>,
    plan: PlanView,
)
    requires
        edit.wf(now),
        edit.holds(now),
        is_reachable_overlay(edit, now, found),
        writes_overlay(edit, found, plan.writes),
        plan.root == edit.root,
        forall|id: u64| #[trigger] edit.overlay@.contains_key(id) ==> !store::is_live(before, id),
    ensures
        plan::plan_holds(before, now, plan),
        plan::plan_entries(now, plan) == edit.entries(now),
{
    let writes = plan.writes;
    let nodes = edit.nodes(now);
    let planned = plan::planned_nodes(now, writes);
    let live = model::live_pages(now);
    assert forall|i: int| 0 <= i < writes.len() implies page_written(edit, #[trigger] writes[i]) by {
        let made = edit.overlay@[found[i]]@;
        assert(writes[i].page_id == found[i]);
        assert(node::node_size(made) <= MAX_PAGE_PAYLOAD);
        assert(is_sound(made));
        node::law_node_round_trip(made);
    }
    assert forall|i: int, j: int| 0 <= i < j < writes.len() implies (#[trigger] writes[i]).page_id
        != (#[trigger] writes[j]).page_id by {
        assert(found[i] < found[j]);
    }
    assert(store::payloads_fit(writes)) by {
        assert forall|i: int| 0 <= i < writes.len() implies crate::storage::page::fits_page(
            (#[trigger] writes[i]).payload,
        ) by {
            assert(page_written(edit, writes[i]));
        }
    }
    assert forall|i: int| 0 <= i < writes.len() implies node::node_decoded(
        (#[trigger] writes[i]).payload,
    ) is Ok && !store::is_live(before, writes[i].page_id) && store::is_live(
        now,
        writes[i].page_id,
    ) by {
        assert(page_written(edit, writes[i]));
        assert(edit.overlay@.contains_key(found[i]));
    }
    if let Some(root) = edit.root {
        let level = (root.height - 1) as nat;
        let own = model::tree_pages(nodes, root.page_id.0, level);
        let kept = Set::new(|id: u64| own.contains(id));
        pages::lemma_tree_pages_within(nodes, edit.pages(), root.page_id.0, level, None, None);
        assert forall|i: int| 0 <= i < own.len() implies kept.contains(#[trigger] own[i]) by {
            assert(own.contains(own[i]));
        }
        pages::lemma_tree_restrict(
            nodes,
            edit.pages(),
            kept,
            root.page_id.0,
            level,
            None,
            None,
        );
        assert(model::agrees(nodes, kept, planned, live)) by {
            assert forall|id: u64| #[trigger] kept.contains(id) implies live.contains(id) && (
            nodes.contains_key(id) ==> planned.contains_key(id) && planned[id] == nodes[id]) by {
                let i = choose|i: int| 0 <= i < own.len() && own[i] == id;
                assert(pages::is_page_within(nodes, edit.pages(), own[i], level, None, None));
                assert(edit.pages().contains(id));
                if edit.overlay@.contains_key(id) {
                    assert(!edit.base@.contains(id));
                    assert(edit.base@.contains(own[i]) || found.contains(own[i]));
                    let j = choose|j: int| 0 <= j < found.len() && found[j] == id;
                    assert(writes[j].page_id == id);
                    assert(page_written(edit, writes[j]));
                    plan::lemma_written_at(writes, j);
                } else {
                    assert(edit.base@.contains(id));
                    assert forall|j: int| 0 <= j < writes.len() implies (
                    #[trigger] writes[j]).page_id != id by {
                        assert(edit.overlay@.contains_key(found[j]));
                    }
                    plan::lemma_written_elsewhere(writes, id);
                }
            }
        }
        model::lemma_tree_frame(
            nodes,
            kept,
            planned,
            live,
            root.page_id.0,
            level,
            None,
            None,
        );
    }
}

/// Whether a page write reads back as the new node for its page.
spec fn page_written(edit: &Editor, write: PageWriteView) -> bool {
    &&& write.payload.len() <= MAX_PAGE_PAYLOAD
    &&& node::node_decoded(write.payload) == Ok::<NodeView, Seq<char>>(
        edit.overlay@[write.page_id]@,
    )
}

impl Editor {
    /// The writes that complete the edit: only new nodes that the root leads to.
    pub fn finish(self, Ghost(before): Ghost<StoreView>, Ghost(now): Ghost<StoreView>) -> (plan:
        Result<IndexBuildPlan, IndexError>)
        requires
            self.wf(now),
            forall|id: u64| #[trigger]
                self.overlay@.contains_key(id) ==> !store::is_live(before, id),
        ensures
            self.holds(now) ==> match plan {
                Ok(plan) => {
                    &&& plan@.root == self.root
                    &&& steps::writes_reached(self.desk(now), self.root, plan@.writes)
                    &&& forall|id: u64| #[trigger]
                        steps::reached(self.desk(now), self.root).contains(id) ==> node::node_size(
                            self.desk(now).made[id],
                        ) <= MAX_PAGE_PAYLOAD
                    &&& plan::plan_holds(before, now, plan@)
                    &&& plan::plan_entries(now, plan@) == self.entries(now)
                },
                Err(error) => exists|id: u64| #[trigger]
                    steps::first_unfit(self.desk(now), self.root, id) && error@
                        == node::node_refused(self.desk(now).made[id]),
            },
    {
        let found = match self.reachable(Ghost(now)) {
            Ok(found) => found,
            Err(error) => {
                return Err(error);
            },
        };
        let mut writes: Vec<PageWrite> = Vec::new();
        let mut index: usize = 0;
        assert(store::write_views(writes@) =~= Seq::empty());
        assert(found@.take(0) =~= Seq::empty());
        while index < found.len()
            invariant
                index <= found@.len(),
                self.wf(now),
                store::rising(found@),
                self.holds(now) ==> forall|id: u64| #[trigger]
                    found@.contains(id) <==> steps::reached(self.desk(now), self.root).contains(id),
                forall|i: int|
                    0 <= i < found@.len() ==> self.overlay@.contains_key(#[trigger] found@[i]),
                writes@.len() == index,
                writes_overlay(&self, found@.take(index as int), store::write_views(writes@)),
            decreases found@.len() - index,
        {
            let page_id: u64 = found[index];
            assert(self.overlay@.contains_key(found@[index as int]));
            let encoded = match self.overlay.get(&page_id) {
                None => {
                    assert(false);
                    return Err(IndexError::EntryCountOverflow);
                },
                Some(made) => made.encode(),
            };
            match encoded {
                Err(error) => {
                    proof {
                        if self.holds(now) {
                            let desk = self.desk(now);
                            assert(found@.contains(found@[index as int]));
                            assert forall|other: u64| #[trigger]
                                steps::reached(desk, self.root).contains(other) && other
                                    < page_id implies node::node_size(desk.made[other])
                                <= MAX_PAGE_PAYLOAD by {
                                assert(found@.contains(other));
                                let j = choose|j: int| 0 <= j < found@.len() && found@[j] == other;
                                if j >= index {
                                    assert(found@[j] >= found@[index as int]);
                                }
                                assert(found@.take(index as int)[j] == other);
                                assert(store::write_views(writes@)[j].page_id == other);
                            }
                            assert(steps::first_unfit(desk, self.root, page_id));
                        }
                    }
                    return Err(error);
                },
                Ok(payload) => {
                    let ghost done = store::write_views(writes@);
                    let write = PageWrite { page_id: PageId(page_id), payload };
                    writes.push(write);
                    proof {
                        let all = store::write_views(writes@);
                        assert(all =~= done.push(write@));
                        let part = found@.take(index + 1);
                        assert forall|i: int| 0 <= i < all.len() implies (
                        #[trigger] all[i]).page_id == part[i] && all[i].payload
                            == node::node_image(self.overlay@[part[i]]@) && node::node_size(
                            self.overlay@[part[i]]@,
                        ) <= MAX_PAGE_PAYLOAD by {
                            if i < index {
                                assert(all[i] == done[i]);
                                assert(part[i] == found@.take(index as int)[i]);
                            }
                        }
                    }
                },
            }
            index = index + 1;
        }
        assert(found@.take(index as int) =~= found@);
        let plan = IndexBuildPlan::make(self.root, writes);
        proof {
            if self.holds(now) {
                let desk = self.desk(now);
                let made = plan@.writes;
                assert forall|id: u64| #[trigger] steps::reached(desk, self.root).contains(
                    id,
                ) implies node::node_size(desk.made[id]) <= MAX_PAGE_PAYLOAD && exists|i: int|
                    0 <= i < made.len() && (#[trigger] made[i]).page_id == id by {
                    assert(found@.contains(id));
                    let j = choose|j: int| 0 <= j < found@.len() && found@[j] == id;
                    assert(made[j].page_id == id);
                }
                assert forall|i: int| 0 <= i < made.len() implies steps::reached(
                    desk,
                    self.root,
                ).contains((#[trigger] made[i]).page_id) && made[i].payload == node::node_image(
                    desk.made[made[i].page_id],
                ) by {
                    assert(found@.contains(found@[i]));
                }
                assert forall|i: int, j: int| 0 <= i < j < made.len() implies (
                #[trigger] made[i]).page_id < (#[trigger] made[j]).page_id by {
                    assert(found@[i] < found@[j]);
                }
                lemma_writes_complete(&self, before, now, found@, plan@);
            }
        }
        Ok(plan)
    }
}

} // verus!
