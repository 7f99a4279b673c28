//! What an edit does step by step: which nodes it makes, on which pages, and what root it comes to.
use crate::index::editor;
use crate::index::editor::EntryDelta;
use crate::index::error::IndexErrorView;
use crate::index::model;
use crate::index::model::MAX_KEY_LENGTH;
use crate::index::node;
use crate::index::node::{EntryView, NodeView, NODE_HEADER_SIZE};
use crate::index::plan;
use crate::index::plan::{IndexRoot, MutationView, PlanView};
use crate::index::read;
use crate::storage::error::StorageErrorView;
use crate::storage::page::{PageId, MAX_PAGE_PAYLOAD};
use crate::storage::store;
use crate::storage::store::{PageWriteView, StoreView};
use vstd::prelude::*;
use vstd::string::*;

verus! {

/// What an edit works on: the nodes that it has made, by page, and the store, which has none of them
/// yet and which hands out their page numbers.
#[verifier::ext_equal]
pub struct Desk {
    pub made: Map<u64, NodeView>,
    pub store: StoreView,
}

/// The node on a page, a new one or one from the store.
pub open spec fn node_at(desk: Desk, page: u64) -> NodeView {
    if desk.made.contains_key(page) {
        desk.made[page]
    } else {
        model::store_nodes(desk.store)[page]
    }
}

/// Why the next page number cannot be had, if it cannot.
pub open spec fn number_refused(store: StoreView) -> Option<IndexErrorView> {
    if store.poisoned {
        Some(IndexErrorView::Storage(StorageErrorView::Poisoned))
    } else if store.free.len() == 0 && store.next_page_id == u64::MAX {
        Some(
            IndexErrorView::Storage(StorageErrorView::Configuration("page ID space exhausted"@)),
        )
    } else {
        None
    }
}

/// Putting a new node on the next page.
pub open spec fn allocated(desk: Desk, made: NodeView) -> (Desk, Result<u64, IndexErrorView>) {
    match number_refused(desk.store) {
        Some(error) => (desk, Err(error)),
        None => {
            let page = store::reserved_ids(desk.store, 1)[0];
            (
                Desk {
                    made: desk.made.insert(page, made),
                    store: store::store_reserved(desk.store, 1),
                },
                Ok(page),
            )
        },
    }
}

/// Where the entries end that go on one leaf from `start` on, of which those up to `end` do.
pub open spec fn leaf_end(entries: Seq<EntryView>, start: int, end: int) -> int
    decreases entries.len() - end,
{
    if end < 0 || end >= entries.len() {
        entries.len() as int
    } else if NODE_HEADER_SIZE + node::items_size(entries.subrange(start, end + 1))
        > MAX_PAGE_PAYLOAD {
        end
    } else {
        leaf_end(entries, start, end + 1)
    }
}

/// Putting entries from `start` on on new leaves, each with as many as fit, behind those made.
pub open spec fn leaves_from(
    desk: Desk,
    entries: Seq<EntryView>,
    start: int,
    kids: Seq<EntryView>,
) -> (Desk, Result<Seq<EntryView>, IndexErrorView>)
    decreases entries.len() - start,
{
    if start < 0 || start >= entries.len() {
        (desk, Ok(kids))
    } else {
        let end = leaf_end(entries, start, start);
        match allocated(desk, NodeView::Leaf { entries: entries.subrange(start, end), next: None }) {
            (after, Err(error)) => (after, Err(error)),
            (after, Ok(page)) => if end <= start || end > entries.len() {
                (after, Ok(kids))
            } else {
                leaves_from(
                    after,
                    entries,
                    end,
                    kids.push(EntryView { key: entries[start].key, value: page }),
                )
            },
        }
    }
}

/// Where the children end that go under one node from `start` on, of which those up to `end` do.
pub open spec fn group_end(kids: Seq<EntryView>, start: int, end: int) -> int
    decreases kids.len() - end,
{
    if end < 0 || end >= kids.len() {
        kids.len() as int
    } else if NODE_HEADER_SIZE + node::items_size(kids.subrange(start + 1, end + 1))
        > MAX_PAGE_PAYLOAD {
        end
    } else {
        group_end(kids, start, end + 1)
    }
}

/// Putting children from `start` on under new nodes, each with as many as fit, behind those made.
pub open spec fn parents_from(
    desk: Desk,
    level: u16,
    kids: Seq<EntryView>,
    start: int,
    parents: Seq<EntryView>,
) -> (Desk, Result<Seq<EntryView>, IndexErrorView>)
    decreases kids.len() - start,
{
    if start < 0 || start >= kids.len() {
        (desk, Ok(parents))
    } else {
        let end = group_end(kids, start, start + 1);
        match allocated(
            desk,
            NodeView::Internal {
                level,
                first_child: kids[start].value,
                separators: kids.subrange(start + 1, end),
            },
        ) {
            (after, Err(error)) => (after, Err(error)),
            (after, Ok(page)) => if end <= start || end > kids.len() {
                (after, Ok(parents))
            } else {
                parents_from(
                    after,
                    level,
                    kids,
                    end,
                    parents.push(EntryView { key: kids[start].key, value: page }),
                )
            },
        }
    }
}

/// What became of a subtree.
pub enum EditedView {
    Unchanged,
    Replaced(Seq<EntryView>, EntryDelta),
    Collapsed(Seq<EntryView>, EntryDelta),
}

/// The entries of a leaf after a key got a value, or lost it.
pub open spec fn leaf_with(entries: Seq<EntryView>, k: Seq<u8>, value: Option<u64>) -> Seq<
    EntryView,
> {
    let behind = read::rank(entries, k) as int;
    let at = if model::find(entries, k) is Some {
        behind - 1
    } else {
        behind
    };
    entries.take(at) + (match value {
        Some(found) => seq![EntryView { key: k, value: found }],
        None => Seq::empty(),
    }) + entries.skip(behind)
}

/// The child under which a key belongs, by its number.
pub open spec fn child_number(kids: Seq<EntryView>, k: Seq<u8>) -> int {
    if read::rank(kids, k) == 0 {
        0
    } else {
        read::rank(kids, k) - 1
    }
}

/// What an edit of a leaf comes to.
pub open spec fn leaf_edited(desk: Desk, entries: Seq<EntryView>, k: Seq<u8>, value: Option<u64>) -> (
    Desk,
    Result<EditedView, IndexErrorView>,
) {
    if value is None && model::find(entries, k) is None {
        (desk, Ok(EditedView::Unchanged))
    } else {
        match leaves_from(desk, leaf_with(entries, k, value), 0, Seq::empty()) {
            (after, Err(error)) => (after, Err(error)),
            (after, Ok(kids)) => (
                after,
                Ok(EditedView::Replaced(kids, editor::entry_delta(entries, k, value))),
            ),
        }
    }
}

/// An edit of one child of a node, carried on to the node.
pub open spec fn node_joined(
    edited: (Desk, Result<EditedView, IndexErrorView>),
    kids: Seq<EntryView>,
    at: int,
    level: u16,
    is_root: bool,
) -> (Desk, Result<EditedView, IndexErrorView>) {
    match edited {
        (after, Ok(EditedView::Replaced(fresh, delta))) => {
            let spliced = model::spliced(kids, at, fresh);
            if spliced.len() == 0 {
                (after, Ok(EditedView::Replaced(spliced, delta)))
            } else if is_root && spliced.len() == 1 {
                (after, Ok(EditedView::Collapsed(spliced, delta)))
            } else {
                match parents_from(after, level, spliced, 0, Seq::empty()) {
                    (last, Err(error)) => (last, Err(error)),
                    (last, Ok(parents)) => (last, Ok(EditedView::Replaced(parents, delta))),
                }
            }
        },
        (after, other) => (after, other),
    }
}

/// Giving a key a value under a page, or taking it away, by copying the nodes on the way.
#[verifier::opaque]
pub open spec fn node_edited(
    desk: Desk,
    page: u64,
    level: nat,
    first_key: Seq<u8>,
    k: Seq<u8>,
    value: Option<u64>,
    is_root: bool,
) -> (Desk, Result<EditedView, IndexErrorView>)
    decreases level,
{
    match node_at(desk, page) {
        NodeView::Leaf { entries, .. } => leaf_edited(desk, entries, k, value),
        NodeView::Internal { first_child, separators, .. } => {
            let kids = model::kids_of(first_key, first_child, separators);
            let at = child_number(kids, k);
            if level == 0 {
                (desk, Ok(EditedView::Unchanged))
            } else {
                node_joined(
                    node_edited(
                        desk,
                        kids[at].value,
                        (level - 1) as nat,
                        kids[at].key,
                        k,
                        value,
                        false,
                    ),
                    kids,
                    at,
                    level as u16,
                    is_root,
                )
            }
        },
    }
}

/// What an edit comes to under one page.
pub proof fn lemma_node_edited(
    desk: Desk,
    page: u64,
    level: nat,
    first_key: Seq<u8>,
    k: Seq<u8>,
    value: Option<u64>,
    is_root: bool,
)
    ensures
        node_edited(desk, page, level, first_key, k, value, is_root) == (match node_at(
            desk,
            page,
        ) {
            NodeView::Leaf { entries, .. } => leaf_edited(desk, entries, k, value),
            NodeView::Internal { first_child, separators, .. } => if level == 0 {
                (desk, Ok(EditedView::Unchanged))
            } else {
                let kids = model::kids_of(first_key, first_child, separators);
                let at = child_number(kids, k);
                node_joined(
                    node_edited(
                        desk,
                        kids[at].value,
                        (level - 1) as nat,
                        kids[at].key,
                        k,
                        value,
                        false,
                    ),
                    kids,
                    at,
                    level as u16,
                    is_root,
                )
            },
        }),
{
    reveal_with_fuel(node_edited, 2);
}

/// The node on a page, a new one or one from the store, or why there is none.
pub open spec fn read_at(desk: Desk, page: u64) -> Result<NodeView, IndexErrorView> {
    if desk.made.contains_key(page) {
        Ok(desk.made[page])
    } else {
        model::node_read(desk.store, page)
    }
}

pub open spec fn damaged(page: u64, reason: Seq<char>) -> IndexErrorView {
    IndexErrorView::CorruptNode { page_id: page, reason }
}

/// The first key under a page, or what is wrong with the first page, on the way to the first leaf,
/// that is no part of a tree. Pages that were seen before are part of a cycle.
pub open spec fn first_found(desk: Desk, page: u64, seen: Set<u64>) -> Result<
    Seq<u8>,
    IndexErrorView,
>
    decreases editor::unvisited(seen).len(),
{
    if seen.contains(page) {
        Err(damaged(page, "index tree contains a page cycle"@))
    } else {
        match read_at(desk, page) {
            Err(error) => Err(error),
            Ok(NodeView::Leaf { entries, .. }) => if entries.len() == 0 {
                Err(damaged(page, "reachable leaf is empty"@))
            } else {
                Ok(entries[0].key)
            },
            Ok(NodeView::Internal { first_child, .. }) => {
                proof {
                    editor::lemma_visit(seen, page);
                }
                first_found(desk, first_child, seen.insert(page))
            },
        }
    }
}

/// What is wrong with the first page, on the way to a key, that is no part of a tree; nothing where
/// the way ends at a leaf, or at a node whose first key does not come before the others.
#[verifier::opaque]
pub open spec fn damage_on_way(
    desk: Desk,
    page: u64,
    level: nat,
    first_key: Seq<u8>,
    k: Seq<u8>,
) -> Option<IndexErrorView>
    decreases level,
{
    match read_at(desk, page) {
        Err(error) => Some(error),
        Ok(found) => if node::node_level(found) != level {
            Some(damaged(page, "node level does not match tree height"@))
        } else {
            match found {
                NodeView::Leaf { .. } => None,
                NodeView::Internal { first_child, separators, .. } => {
                    let kids = model::kids_of(first_key, first_child, separators);
                    let at = child_number(kids, k);
                    if level == 0 || !node::keys_rise(kids) {
                        None
                    } else {
                        damage_on_way(
                            desk,
                            kids[at].value,
                            (level - 1) as nat,
                            kids[at].key,
                            k,
                        )
                    }
                },
            }
        },
    }
}

/// What is wrong on the way to a key, page by page.
pub proof fn lemma_damage_on_way(
    desk: Desk,
    page: u64,
    level: nat,
    first_key: Seq<u8>,
    k: Seq<u8>,
)
    ensures
        damage_on_way(desk, page, level, first_key, k) == (match read_at(desk, page) {
            Err(error) => Some(error),
            Ok(found) => if node::node_level(found) != level {
                Some(damaged(page, "node level does not match tree height"@))
            } else {
                match found {
                    NodeView::Leaf { .. } => None,
                    NodeView::Internal { first_child, separators, .. } => {
                        let kids = model::kids_of(first_key, first_child, separators);
                        let at = child_number(kids, k);
                        if level == 0 || !node::keys_rise(kids) {
                            None
                        } else {
                            damage_on_way(
                                desk,
                                kids[at].value,
                                (level - 1) as nat,
                                kids[at].key,
                                k,
                            )
                        }
                    },
                }
            },
        }),
{
    reveal_with_fuel(damage_on_way, 2);
}

/// What is wrong with an index where a change of a key comes upon it: with its root, with the way to
/// its first key, or with the way to the key.
pub open spec fn damage_met(desk: Desk, root: IndexRoot, k: Seq<u8>) -> Option<IndexErrorView> {
    if root.height == 0 {
        Some(damaged(root.page_id.0, "root height cannot be zero"@))
    } else {
        match first_found(desk, root.page_id.0, Set::empty()) {
            Err(error) => Some(error),
            Ok(first) => damage_on_way(
                desk,
                root.page_id.0,
                (root.height - 1) as nat,
                first,
                k,
            ),
        }
    }
}

/// Whether a change is refused because of what is wrong with the index.
pub open spec fn damage_named(
    desk: Desk,
    root: Option<IndexRoot>,
    mutation: MutationView,
    error: IndexErrorView,
) -> bool {
    &&& !(mutation is Upsert && plan::mutation_key(mutation).len() > MAX_KEY_LENGTH)
    &&& root matches Some(root)
    &&& damage_met(desk, root, plan::mutation_key(mutation)) == Some(error)
}

/// Making the trees that came out of an edit the index.
pub open spec fn rooted(desk: Desk, kids: Seq<EntryView>, height: u16, entries: u64) -> (
    Desk,
    Result<Option<IndexRoot>, IndexErrorView>,
) {
    if kids.len() == 0 {
        (desk, Ok(None))
    } else if kids.len() == 1 {
        (desk, Ok(Some(IndexRoot { page_id: PageId(kids[0].value), height, entries })))
    } else {
        match allocated(
            desk,
            NodeView::Internal {
                level: height,
                first_child: kids[0].value,
                separators: kids.subrange(1, kids.len() as int),
            },
        ) {
            (after, Err(error)) => (after, Err(error)),
            (after, Ok(page)) => if height == u16::MAX {
                (after, Err(IndexErrorView::EntryCountOverflow))
            } else {
                (
                    after,
                    Ok(
                        Some(
                            IndexRoot {
                                page_id: PageId(page),
                                height: (height + 1) as u16,
                                entries,
                            },
                        ),
                    ),
                )
            },
        }
    }
}

/// The first key under a page.
pub open spec fn first_under(desk: Desk, page: u64, level: nat) -> Seq<u8>
    decreases level,
{
    match node_at(desk, page) {
        NodeView::Leaf { entries, .. } => entries[0].key,
        NodeView::Internal { first_child, .. } => if level == 0 {
            Seq::empty()
        } else {
            first_under(desk, first_child, (level - 1) as nat)
        },
    }
}

/// Making one change to an index.
pub open spec fn applied(desk: Desk, root: Option<IndexRoot>, mutation: MutationView) -> (
    Desk,
    Result<Option<IndexRoot>, IndexErrorView>,
) {
    let k = plan::mutation_key(mutation);
    let value = plan::mutation_value(mutation);
    if mutation is Upsert && k.len() > MAX_KEY_LENGTH {
        (
            desk,
            Err(
                IndexErrorView::KeyTooLarge { actual: k.len() as usize, maximum: MAX_KEY_LENGTH },
            ),
        )
    } else {
        match root {
            None => match value {
                None => (desk, Ok(None)),
                Some(found) => match allocated(
                    desk,
                    NodeView::Leaf { entries: seq![EntryView { key: k, value: found }], next: None },
                ) {
                    (after, Err(error)) => (after, Err(error)),
                    (after, Ok(page)) => (
                        after,
                        Ok(Some(IndexRoot { page_id: PageId(page), height: 1, entries: 1 })),
                    ),
                },
            },
            Some(root) => {
                let level = (root.height - 1) as nat;
                let first = first_under(desk, root.page_id.0, level);
                match node_edited(desk, root.page_id.0, level, first, k, value, true) {
                    (after, Err(error)) => (after, Err(error)),
                    (after, Ok(EditedView::Unchanged)) => (after, Ok(Some(root))),
                    (after, Ok(EditedView::Replaced(kids, delta))) => counted(
                        after,
                        root,
                        kids,
                        root.height,
                        delta,
                    ),
                    (after, Ok(EditedView::Collapsed(kids, delta))) => counted(
                        after,
                        root,
                        kids,
                        (root.height - 1) as u16,
                        delta,
                    ),
                }
            },
        }
    }
}

/// Making trees the index in place of one with this root, with the entries counted.
pub open spec fn counted(
    desk: Desk,
    root: IndexRoot,
    kids: Seq<EntryView>,
    height: u16,
    delta: EntryDelta,
) -> (Desk, Result<Option<IndexRoot>, IndexErrorView>) {
    match delta {
        EntryDelta::Same => rooted(desk, kids, height, root.entries),
        EntryDelta::Added => if root.entries == u64::MAX {
            (desk, Err(IndexErrorView::EntryCountOverflow))
        } else {
            rooted(desk, kids, height, (root.entries + 1) as u64)
        },
        EntryDelta::Removed => rooted(desk, kids, height, (root.entries - 1) as u64),
    }
}

/// Making changes to an index in order, up to the first that is refused.
pub open spec fn all_applied(desk: Desk, root: Option<IndexRoot>, mutations: Seq<MutationView>) -> (
    Desk,
    Result<Option<IndexRoot>, IndexErrorView>,
)
    decreases mutations.len(),
{
    if mutations.len() == 0 {
        (desk, Ok(root))
    } else {
        match all_applied(desk, root, mutations.drop_last()) {
            (after, Err(error)) => (after, Err(error)),
            (after, Ok(reached)) => applied(after, reached, mutations.last()),
        }
    }
}

/// How many leaves entries from `start` on take.
pub open spec fn leaf_count(entries: Seq<EntryView>, start: int) -> nat
    decreases entries.len() - start,
{
    if start < 0 || start >= entries.len() {
        0
    } else {
        let end = leaf_end(entries, start, start);
        if end <= start || end > entries.len() {
            0
        } else {
            1 + leaf_count(entries, end)
        }
    }
}

/// Putting entries from `start` on on leaves that name the next, on the pages from `group` on.
pub open spec fn chain_from(
    made: Map<u64, NodeView>,
    entries: Seq<EntryView>,
    numbers: Seq<u64>,
    start: int,
    group: int,
    kids: Seq<EntryView>,
) -> (Map<u64, NodeView>, Seq<EntryView>)
    decreases entries.len() - start,
{
    let end = leaf_end(entries, start, start);
    if start < 0 || start >= entries.len() || end <= start || end > entries.len() {
        (made, kids)
    } else {
        let next = if group + 1 < numbers.len() {
            Some(numbers[group + 1])
        } else {
            None
        };
        chain_from(
            made.insert(
                numbers[group],
                NodeView::Leaf { entries: entries.subrange(start, end), next },
            ),
            entries,
            numbers,
            end,
            group + 1,
            kids.push(EntryView { key: entries[start].key, value: numbers[group] }),
        )
    }
}

/// Putting entries on new leaves, whose pages are all reserved at once.
pub open spec fn chained(store: StoreView, entries: Seq<EntryView>) -> (
    Desk,
    Result<Seq<EntryView>, IndexErrorView>,
) {
    let count = leaf_count(entries, 0);
    if store.poisoned {
        (cleared(store), Err(IndexErrorView::Storage(StorageErrorView::Poisoned)))
    } else if store.next_page_id + (count - store::reused_count(store, count)) > u64::MAX {
        (
            cleared(StoreView { free: Seq::empty(), ..store }),
            Err(
                IndexErrorView::Storage(
                    StorageErrorView::Configuration("page ID space exhausted"@),
                ),
            ),
        )
    } else {
        let (made, kids) = chain_from(
            Map::empty(),
            entries,
            store::reserved_ids(store, count),
            0,
            0,
            Seq::empty(),
        );
        (Desk { made, store: store::store_reserved(store, count) }, Ok(kids))
    }
}

/// Putting trees of a level under new nodes, level by level, until one is left: its page and level.
pub open spec fn levels_from(desk: Desk, level: u16, kids: Seq<EntryView>) -> (
    Desk,
    Result<Option<(u64, u16)>, IndexErrorView>,
)
    decreases kids.len(),
{
    if kids.len() == 0 {
        (desk, Ok(None))
    } else if kids.len() == 1 {
        (desk, Ok(Some((kids[0].value, level))))
    } else {
        match parents_from(desk, (level + 1) as u16, kids, 0, Seq::empty()) {
            (after, Err(error)) => (after, Err(error)),
            (after, Ok(parents)) => if parents.len() >= kids.len() {
                (after, Ok(None))
            } else {
                levels_from(after, (level + 1) as u16, parents)
            },
        }
    }
}

/// Building an index of ordered entries.
pub open spec fn built(store: StoreView, entries: Seq<EntryView>) -> (
    Desk,
    Result<Option<IndexRoot>, IndexErrorView>,
) {
    match chained(store, entries) {
        (after, Err(error)) => (after, Err(error)),
        (after, Ok(kids)) => match levels_from(after, 0, kids) {
            (last, Err(error)) => (last, Err(error)),
            (last, Ok(None)) => (last, Ok(None)),
            (last, Ok(Some(top))) => (
                last,
                Ok(
                    Some(
                        IndexRoot {
                            page_id: PageId(top.0),
                            height: (top.1 + 1) as u16,
                            entries: entries.len() as u64,
                        },
                    ),
                ),
            ),
        },
    }
}

/// What building an index comes to: the store, which has handed out the numbers of all nodes, and the
/// plan, or why there is none.
pub open spec fn build_outcome(
    before: StoreView,
    entries: Seq<EntryView>,
    after: StoreView,
    planned: Result<PlanView, IndexErrorView>,
) -> bool {
    let (desk, result) = built(before, entries);
    &&& after == desk.store
    &&& match result {
        Err(error) => planned == Err::<PlanView, IndexErrorView>(error),
        Ok(root) => planned matches Ok(plan) && plan.root == root && writes_reached(
            desk,
            root,
            plan.writes,
        ),
    }
}

/// The leaves of runs that are each as long as fits.
pub proof fn lemma_leaf_count(entries: Seq<EntryView>, ends: Seq<usize>, group: int)
    requires
        editor::leaf_runs(entries, ends),
        0 <= group <= ends.len(),
    ensures
        leaf_count(entries, editor::run_start(ends, group)) == ends.len() - group,
    decreases ends.len() - group,
{
    let start = editor::run_start(ends, group);
    if group < ends.len() {
        let end = ends[group] as int;
        assert(editor::run_start(ends, group) < ends[group]);
        lemma_run_end(entries, ends, group);
        lemma_leaf_count(entries, ends, group + 1);
        assert(editor::run_start(ends, group + 1) == end);
    } else if group > 0 {
        assert(ends.last() == ends[group - 1]);
    } else if entries.len() > 0 {
        assert(ends.len() > 0);
    }
}

/// Where one of the runs ends.
pub proof fn lemma_run_end(entries: Seq<EntryView>, ends: Seq<usize>, group: int)
    requires
        editor::leaf_runs(entries, ends),
        0 <= group < ends.len(),
    ensures
        leaf_end(
            entries,
            editor::run_start(ends, group),
            editor::run_start(ends, group),
        ) == ends[group],
        editor::run_start(ends, group) < ends[group] <= entries.len(),
{
    let start = editor::run_start(ends, group);
    let end = ends[group] as int;
    assert(editor::run_start(ends, group) < ends[group]);
    if group > 0 {
        assert(editor::run_start(ends, group - 1) < ends[group - 1]);
    }
    if end < entries.len() {
        assert(group < ends.len() - 1) by {
            if group == ends.len() - 1 {
                assert(ends.last() == entries.len());
            }
        }
        let longer = entries.subrange(start, end + 1);
        assert(longer.drop_last() =~= entries.subrange(start, end));
        assert(longer.last() == entries[end]);
    }
    lemma_leaf_end(entries, start, end, start);
}

/// The desk at the start of an edit.
pub open spec fn cleared(store: StoreView) -> Desk {
    Desk { made: Map::empty(), store }
}

/// All nodes: the new ones, and those in the store.
pub open spec fn desk_nodes(desk: Desk) -> Map<u64, NodeView> {
    model::store_nodes(desk.store).union_prefer_right(desk.made)
}

/// The new nodes that an index reaches.
pub open spec fn reached(desk: Desk, root: Option<IndexRoot>) -> Set<u64> {
    match root {
        None => Set::empty(),
        Some(root) => Set::new(
            |id: u64|
                desk.made.contains_key(id) && model::tree_pages(
                    desk_nodes(desk),
                    root.page_id.0,
                    (root.height - 1) as nat,
                ).contains(id),
        ),
    }
}

/// Whether a page has the first new node, of those that an index reaches, that does not fit in it.
pub open spec fn first_unfit(desk: Desk, root: Option<IndexRoot>, id: u64) -> bool {
    &&& reached(desk, root).contains(id)
    &&& node::node_size(desk.made[id]) > MAX_PAGE_PAYLOAD
    &&& forall|other: u64| #[trigger]
        reached(desk, root).contains(other) && other < id ==> node::node_size(desk.made[other])
            <= MAX_PAGE_PAYLOAD
}

/// Whether page writes put down exactly the new nodes that an index reaches, by rising page.
pub open spec fn writes_reached(desk: Desk, root: Option<IndexRoot>, writes: Seq<PageWriteView>) -> bool {
    &&& forall|i: int, j: int|
        0 <= i < j < writes.len() ==> (#[trigger] writes[i]).page_id < (#[trigger] writes[j]).page_id
    &&& forall|i: int|
        0 <= i < writes.len() ==> reached(desk, root).contains((#[trigger] writes[i]).page_id)
            && writes[i].payload == node::node_image(desk.made[writes[i].page_id])
    &&& forall|id: u64| #[trigger]
        reached(desk, root).contains(id) ==> exists|i: int|
            0 <= i < writes.len() && (#[trigger] writes[i]).page_id == id
}

/// What an edit of an index comes to: the store, which has handed out the numbers of all new nodes,
/// and the plan, or why there is none.
pub open spec fn edit_outcome(
    before: StoreView,
    root: Option<IndexRoot>,
    mutations: Seq<MutationView>,
    after: StoreView,
    planned: Result<PlanView, IndexErrorView>,
) -> bool {
    let (desk, result) = all_applied(cleared(before), root, mutations);
    &&& after == desk.store
    &&& match result {
        Err(error) => planned == Err::<PlanView, IndexErrorView>(error),
        Ok(edited) => match planned {
            Ok(plan) => plan.root == edited && writes_reached(desk, edited, plan.writes) && forall|
                id: u64,
            | #[trigger]
                reached(desk, edited).contains(id) ==> node::node_size(desk.made[id])
                    <= MAX_PAGE_PAYLOAD,
            Err(error) => exists|id: u64| #[trigger]
                first_unfit(desk, edited, id) && error == node::node_refused(desk.made[id]),
        },
    }
}

/// Changes made after others.
pub proof fn lemma_all_applied(
    desk: Desk,
    root: Option<IndexRoot>,
    mutations: Seq<MutationView>,
    count: int,
)
    requires
        0 <= count <= mutations.len(),
        all_applied(desk, root, mutations.take(count)).1 is Err,
    ensures
        all_applied(desk, root, mutations) == all_applied(desk, root, mutations.take(count)),
    decreases mutations.len(),
{
    if count < mutations.len() {
        assert(mutations.drop_last().take(count) =~= mutations.take(count));
        lemma_all_applied(desk, root, mutations.drop_last(), count);
    } else {
        assert(mutations.take(count) =~= mutations);
    }
}

/// The first key of a tree is that of its first entry.
pub proof fn lemma_first_under(
    desk: Desk,
    pages: Set<u64>,
    page: u64,
    level: nat,
    high: Option<Seq<u8>>,
)
    requires
        model::is_tree(desk_nodes(desk), pages, page, level, None, high),
    ensures
        first_under(desk, page, level) == model::tree_entries(desk_nodes(desk), page, level)[0].key,
    decreases level,
{
    let nodes = desk_nodes(desk);
    assert(node_at(desk, page) == nodes[page]);
    if let NodeView::Internal { first_child, separators, .. } = nodes[page] {
        let under = (level - 1) as nat;
        let bound = model::bound_at(separators, 0, high);
        lemma_first_under(desk, pages, first_child, under, bound);
        model::lemma_tree_sorted(nodes, pages, first_child, under, None, bound);
    }
}

/// Where a run of entries ends that fits, but would not with the next.
pub proof fn lemma_leaf_end(entries: Seq<EntryView>, start: int, end: int, at: int)
    requires
        0 <= start <= at <= end <= entries.len(),
        NODE_HEADER_SIZE + node::items_size(entries.subrange(start, end)) <= MAX_PAGE_PAYLOAD,
        end < entries.len() ==> NODE_HEADER_SIZE + node::items_size(
            entries.subrange(start, end + 1),
        ) > MAX_PAGE_PAYLOAD,
    ensures
        leaf_end(entries, start, at) == end,
    decreases end - at,
{
    if at < end {
        lemma_part_size(entries.subrange(start, end), at + 1 - start);
        assert(entries.subrange(start, end).take(at + 1 - start) =~= entries.subrange(
            start,
            at + 1,
        ));
        lemma_leaf_end(entries, start, end, at + 1);
    }
}

pub proof fn lemma_group_end(kids: Seq<EntryView>, start: int, end: int, at: int)
    requires
        0 <= start < at <= end <= kids.len(),
        NODE_HEADER_SIZE + node::items_size(kids.subrange(start + 1, end)) <= MAX_PAGE_PAYLOAD,
        end < kids.len() ==> NODE_HEADER_SIZE + node::items_size(kids.subrange(start + 1, end + 1))
            > MAX_PAGE_PAYLOAD,
    ensures
        group_end(kids, start, at) == end,
    decreases end - at,
{
    if at < end {
        lemma_part_size(kids.subrange(start + 1, end), at - start);
        assert(kids.subrange(start + 1, end).take(at - start) =~= kids.subrange(
            start + 1,
            at + 1,
        ));
        lemma_group_end(kids, start, end, at + 1);
    }
}

proof fn lemma_part_size(entries: Seq<EntryView>, count: int)
    requires
        0 <= count <= entries.len(),
    ensures
        node::items_size(entries.take(count)) <= node::items_size(entries),
    decreases entries.len(),
{
    if count < entries.len() {
        lemma_part_size(entries.drop_last(), count);
        assert(entries.drop_last().take(count) =~= entries.take(count));
    } else {
        assert(entries.take(count) =~= entries);
    }
}

} // verus!
