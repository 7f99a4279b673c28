//! The tree itself: building it, planning changes to it and looking keys up.
use crate::index::cache::NodeCache;
use crate::index::compact;
use crate::index::editor;
use crate::index::editor::Editor;
use crate::index::error::{corrupt, IndexError, IndexErrorView};
use crate::index::model;
use crate::index::model::MAX_KEY_LENGTH;
use crate::index::node;
use crate::index::node::{rises, EntryView, IndexEntry, Node};
use crate::index::plan;
use crate::index::plan::{IndexBuildPlan, IndexMutation, IndexRoot, MutationView, PlanView};
use crate::index::read;
use crate::index::read::follow;
use crate::index::steps;
use crate::list::reversed;
use crate::storage::group_commit;
use crate::storage::group_commit::GroupCommitHandle;
use crate::storage::page::{PageId, MAX_PAGE_PAYLOAD};
use crate::storage::store;
use crate::storage::store::StoreView;
use std::collections::HashMap;
use vstd::prelude::*;

verus! {

broadcast use vstd::std_specs::hash::group_hash_axioms;

/// An immutable B+ tree over pages; every change makes a new root.
#[derive(Debug, Clone, Copy)]
pub struct BPlusTree;

/// Why entries cannot be put in an index, if they cannot: their keys have to rise, and the first
/// key that is too long is named.
pub open spec fn entries_refused(entries: Seq<EntryView>) -> Option<IndexErrorView> {
    if !node::keys_rise(entries) {
        Some(IndexErrorView::KeysNotStrictlyIncreasing)
    } else {
        long_key(entries)
    }
}

/// The first key that fits in no leaf.
pub open spec fn long_key(entries: Seq<EntryView>) -> Option<IndexErrorView>
    decreases entries.len(),
{
    if entries.len() == 0 {
        None
    } else {
        match long_key(entries.drop_last()) {
            Some(error) => Some(error),
            None => if entries.last().key.len() > MAX_KEY_LENGTH {
                Some(
                    IndexErrorView::KeyTooLarge {
                        actual: entries.last().key.len() as usize,
                        maximum: MAX_KEY_LENGTH,
                    },
                )
            } else {
                None
            },
        }
    }
}

proof fn lemma_long_key_prefix(entries: Seq<EntryView>, count: int)
    requires
        0 <= count <= entries.len(),
    ensures
        long_key(entries.take(count)) is Some ==> long_key(entries) == long_key(entries.take(count)),
    decreases entries.len(),
{
    if count < entries.len() {
        lemma_long_key_prefix(entries.drop_last(), count);
        assert(entries.drop_last().take(count) =~= entries.take(count));
    } else {
        assert(entries.take(count) =~= entries);
    }
}

/// Entries that an index can hold.
pub proof fn lemma_entries_taken(entries: Seq<EntryView>)
    ensures
        entries_refused(entries) is None <==> model::within(entries, None, None),
{
    if entries_refused(entries) is None {
        assert forall|i: int| 0 <= i < entries.len() implies (#[trigger] entries[i]).key.len()
            <= MAX_KEY_LENGTH by {
            lemma_short_at(entries, i);
        }
    }
    if model::within(entries, None, None) {
        lemma_none_long(entries);
    }
}

proof fn lemma_none_long(entries: Seq<EntryView>)
    requires
        forall|i: int| 0 <= i < entries.len() ==> (#[trigger] entries[i]).key.len() <= MAX_KEY_LENGTH,
    ensures
        long_key(entries) is None,
    decreases entries.len(),
{
    if entries.len() > 0 {
        assert(entries.last() == entries[entries.len() - 1]);
        lemma_none_long(entries.drop_last());
    }
}

proof fn lemma_short_at(entries: Seq<EntryView>, i: int)
    requires
        long_key(entries) is None,
        0 <= i < entries.len(),
    ensures
        entries[i].key.len() <= MAX_KEY_LENGTH,
    decreases entries.len(),
{
    if i < entries.len() - 1 {
        lemma_short_at(entries.drop_last(), i);
    }
}

/// Checks that entries can be put in an index.
fn validate_entries(entries: &Vec<IndexEntry>) -> (valid: Result<(), IndexError>)
    ensures
        match valid {
            Ok(_) => entries_refused(node::entry_views(entries@)) is None,
            Err(error) => entries_refused(node::entry_views(entries@)) == Some(error@),
        },
{
    let ghost all = node::entry_views(entries@);
    if !rises(entries) {
        return Err(IndexError::KeysNotStrictlyIncreasing);
    }
    let mut index: usize = 0;
    assert(all.take(0) =~= Seq::empty());
    while index < entries.len()
        invariant
            index <= entries@.len(),
            all == node::entry_views(entries@),
            node::keys_rise(all),
            long_key(all.take(index as int)) is None,
        decreases entries@.len() - index,
    {
        let length: usize = entries[index].key.len();
        proof {
            let more = all.take(index + 1);
            assert(more.drop_last() =~= all.take(index as int));
            assert(more.last() == all[index as int]);
            assert(all[index as int] == entries@[index as int]@);
        }
        if length > MAX_KEY_LENGTH {
            proof {
                lemma_long_key_prefix(all, index + 1);
            }
            return Err(IndexError::KeyTooLarge { actual: length, maximum: MAX_KEY_LENGTH });
        }
        index = index + 1;
    }
    assert(all.take(index as int) =~= all);
    Ok(())
}

/// The number of halvings that leave one of so many.
spec fn room(halvings: nat) -> nat
    decreases halvings,
{
    if halvings == 0 {
        1
    } else {
        2 * room((halvings - 1) as nat)
    }
}

proof fn lemma_room(count: nat)
    requires
        count <= usize::MAX,
    ensures
        count < room(64),
{
    reveal_with_fuel(room, 65);
    assert(room(64) == 0x1_0000_0000_0000_0000);
}

/// Whether two of the keys of every upsert fit in a node.
pub open spec fn upserts_short(mutations: Seq<MutationView>) -> bool {
    forall|i: int|
        0 <= i < mutations.len() ==> ((#[trigger] mutations[i]) is Upsert ==> plan::mutation_key(
            mutations[i],
        ).len() <= compact::SHORT_KEY_LENGTH)
}

/// Why an edit was refused, if it was: no page was left; a key was too long, by itself or together
/// with another for the node that they would be in; or a count would not fit.
pub open spec fn edit_refused(
    before: StoreView,
    root: Option<IndexRoot>,
    mutations: Seq<MutationView>,
    error: IndexErrorView,
    state: StoreView,
) -> bool {
    ||| editor::out_of_pages(error, state)
    ||| exists|i: int| #[trigger] is_first_long(mutations, i) && error == (IndexErrorView::KeyTooLarge {
        actual: plan::mutation_key(mutations[i]).len() as usize,
        maximum: MAX_KEY_LENGTH,
    })
    ||| upserts_fit(mutations) && !(compact::nodes_short(state) && upserts_short(mutations))
        && (steps::all_applied(steps::cleared(before), root, mutations) matches (desk, Ok(edited))
        && exists|id: u64| #[trigger]
        steps::first_unfit(desk, edited, id) && error == node::node_refused(desk.made[id]))
    ||| error == IndexErrorView::EntryCountOverflow && (editor::root_height(root) + mutations.len()
        > u16::MAX || root_count(root) + mutations.len() > u64::MAX)
}

/// Why an index of entries that can be in one could not be put in a store: no pages were left for
/// it, or the store did not take its nodes.
pub open spec fn build_refused(
    before: StoreView,
    after: StoreView,
    entries: Seq<EntryView>,
    error: IndexErrorView,
) -> bool {
    ||| editor::pages_refused(error, before, entries.len())
    ||| editor::out_of_pages(error, after)
    ||| exists|reached: StoreView, planned: PlanView| #[trigger]
        plan::plan_holds(before, reached, planned) && plan::plan_entries(reached, planned)
            == entries && !group_commit::batch_taken(reached, planned.writes) && error
            == IndexErrorView::Storage(group_commit::batch_refused(reached, planned.writes))
}

pub open spec fn plan_view(planned: Result<IndexBuildPlan, IndexError>) -> Result<
    PlanView,
    IndexErrorView,
> {
    match planned {
        Ok(planned) => Ok(planned@),
        Err(error) => Err(error@),
    }
}

/// How many entries an index has.
pub open spec fn root_count(root: Option<IndexRoot>) -> nat {
    match root {
        None => 0,
        Some(root) => root.entries as nat,
    }
}

/// Whether a change is the first upsert whose key fits in no leaf.
pub open spec fn is_first_long(mutations: Seq<MutationView>, at: int) -> bool {
    &&& 0 <= at < mutations.len()
    &&& mutations[at] is Upsert
    &&& plan::mutation_key(mutations[at]).len() > MAX_KEY_LENGTH
    &&& upserts_fit(mutations.take(at))
}

/// Whether every upsert has a key that fits in a leaf.
pub open spec fn upserts_fit(mutations: Seq<MutationView>) -> bool {
    forall|i: int|
        0 <= i < mutations.len() ==> ((#[trigger] mutations[i]) is Upsert ==> plan::mutation_key(
            mutations[i],
        ).len() <= MAX_KEY_LENGTH)
}

impl BPlusTree {
    /// Puts an index of ordered entries in a store, in one batch.
    pub fn build(storage: &mut GroupCommitHandle, entries: Vec<IndexEntry>) -> (root: Result<
        Option<IndexRoot>,
        IndexError,
    >)
        requires
            old(storage)@.wf(),
        ensures
            final(storage)@.wf(),
            final(storage)@.options == old(storage)@.options,
            forall|id: u64|
                store::is_live(old(storage)@.store, id) ==> #[trigger] final(storage)@.store.read(id)
                    == old(storage)@.store.read(id),
            match root {
                Ok(root) => {
                    &&& entries_refused(node::entry_views(entries@)) is None
                    &&& steps::built(old(storage)@.store, node::entry_views(entries@)).1 == Ok::<
                        Option<IndexRoot>,
                        IndexErrorView,
                    >(root)
                    &&& plan::index_holds(final(storage)@.store, root)
                    &&& plan::index_entries(final(storage)@.store, root) == node::entry_views(
                        entries@,
                    )
                    &&& root is None <==> entries@.len() == 0
                },
                Err(error) => match entries_refused(node::entry_views(entries@)) {
                    Some(refusal) => error@ == refusal && final(storage)@ == old(storage)@,
                    None => build_refused(
                        old(storage)@.store,
                        final(storage)@.store,
                        node::entry_views(entries@),
                        error@,
                    ),
                },
            },
    {
        let ghost before = storage@.store;
        let planned = match Self::plan(storage, entries) {
            Ok(planned) => planned,
            Err(error) => {
                return Err(error);
            },
        };
        let root = planned.root();
        let ghost view = planned@;
        let ghost now = storage@.store;
        let ghost threshold = storage@.options.checkpoint_after_wal_bytes;
        let writes = planned.into_writes();
        let ghost given = writes@;
        let committed = storage.commit(writes);
        proof {
            assert(store::write_views(given) == view.writes);
            assert forall|id: u64| store::is_live(before, id) implies #[trigger] storage@.store.read(
                id,
            ) == before.read(id) by {
                assert forall|i: int| 0 <= i < given.len() implies (#[trigger] given[i]).page_id.0
                    != id by {
                    assert(view.writes[i] == given[i]@);
                }
                assert(storage@.store.read(id) == now.read(id));
            }
        }
        match committed {
            Err(error) => {
                Err(IndexError::Storage(error))
            },
            Ok(_) => {
                proof {
                    let after = storage@.store;
                    assert forall|id: u64| store::is_live(now, id) implies #[trigger] store::is_live(
                        after,
                        id,
                    ) by {}
                    assert forall|id: u64|
                        (forall|i: int|
                            0 <= i < view.writes.len() ==> (#[trigger] view.writes[i]).page_id
                                != id) implies #[trigger] after.read(id) == now.read(id) by {
                        assert forall|i: int| 0 <= i < given.len() implies (
                        #[trigger] given[i]).page_id.0 != id by {
                            assert(view.writes[i] == given[i]@);
                        }
                    }
                    assert forall|i: int| 0 <= i < view.writes.len() implies (after.read(
                        (#[trigger] view.writes[i]).page_id,
                    ) matches Ok(Some(found)) && found.payload == view.writes[i].payload) by {
                        group_commit::law_commit_reads(now, view.writes, threshold, i);
                    }
                    plan::law_plan_completes(before, now, view, after);
                }
                Ok(root)
            },
        }
    }

    /// Plans an index of ordered entries: the nodes to write, and the root they make.
    #[verifier::rlimit(80)]
    pub fn plan(storage: &mut GroupCommitHandle, entries: Vec<IndexEntry>) -> (planned: Result<
        IndexBuildPlan,
        IndexError,
    >)
        requires
            old(storage)@.wf(),
        ensures
            final(storage)@.wf(),
            final(storage)@.options == old(storage)@.options,
            final(storage)@.store == (StoreView {
                next_page_id: final(storage)@.store.next_page_id,
                free: final(storage)@.store.free,
                ..old(storage)@.store
            }),
            forall|id: u64|
                store::is_live(old(storage)@.store, id) ==> #[trigger] store::is_live(
                    final(storage)@.store,
                    id,
                ),
            entries_refused(node::entry_views(entries@)) is None ==> steps::build_outcome(
                old(storage)@.store,
                node::entry_views(entries@),
                final(storage)@.store,
                plan_view(planned),
            ),
            match planned {
                Ok(planned) => {
                    &&& entries_refused(node::entry_views(entries@)) is None
                    &&& plan::plan_holds(old(storage)@.store, final(storage)@.store, planned@)
                    &&& plan::plan_entries(final(storage)@.store, planned@) == node::entry_views(
                        entries@,
                    )
                    &&& planned@.root is None <==> entries@.len() == 0
                },
                Err(error) => match entries_refused(node::entry_views(entries@)) {
                    Some(refusal) => error@ == refusal && final(storage)@ == old(storage)@,
                    None => editor::pages_refused(error@, old(storage)@.store, entries@.len())
                        || editor::out_of_pages(error@, final(storage)@.store),
                },
            },
    {
        let ghost all = node::entry_views(entries@);
        let ghost before = storage@.store;
        proof {
            lemma_entries_taken(all);
        }
        match validate_entries(&entries) {
            Ok(_) => {},
            Err(error) => {
                return Err(error);
            },
        }
        let count: u64 = entries.len() as u64;
        let mut editor = Editor { root: None, overlay: HashMap::new(), base: Ghost(Set::empty()) };
        let ghost first = editor;
        let mut kids = match editor.chain_leaves(storage, &entries) {
            Ok(kids) => kids,
            Err(error) => {
                return Err(error);
            },
        };
        let mut level: u16 = 0;
        let ghost leaves = steps::chained(before, all);
        proof {
            lemma_room(kids@.len());
        }
        while kids.len() > 1
            invariant
                storage@.wf(),
                storage@.options == old(storage)@.options,
                before == old(storage)@.store,
                entries_refused(all) is None,
                all == node::entry_views(entries@),
                first.overlay@ == Map::<u64, Node>::empty(),
                editor.root is None,
                editor.wf(storage@.store),
                editor::grown(&first, before, &editor, storage@.store),
                editor::all_fit(editor.overlay@),
                level <= 64,
                leaves == steps::chained(before, all),
                leaves.1 is Ok,
                steps::levels_from(leaves.0, 0, leaves.1->Ok_0) == steps::levels_from(
                    editor.desk(storage@.store),
                    level,
                    node::entry_views(kids@),
                ),
                kids@.len() <= room((64 - level) as nat),
                kids@.len() > 0 <==> entries@.len() > 0,
                model::is_grove(
                    editor.nodes(storage@.store),
                    editor.pages(),
                    node::entry_views(kids@),
                    level as nat,
                    None,
                    None,
                ),
                model::forest_entries(
                    editor.nodes(storage@.store),
                    node::entry_views(kids@),
                    level as nat,
                ) == all,
            decreases kids@.len(),
        {
            assert(level < 64);
            level = level + 1;
            proof {
                let views = node::entry_views(kids@);
                assert forall|i: int| 0 <= i < kids@.len() implies (
                #[trigger] kids@[i])@.key.len() <= MAX_KEY_LENGTH by {
                    assert(views[i] == kids@[i]@);
                }
            }
            let ghost middle = editor;
            let ghost state = storage@.store;
            let made = editor.make_internal_level(storage, level, &kids, Ghost(None), Ghost(None));
            proof {
                editor::lemma_grown_trans(&first, before, &middle, state, &editor, storage@.store);
            }
            match made {
                Err(error) => {
                    return Err(error);
                },
                Ok(parents) => {
                    kids = parents;
                },
            }
        }
        if kids.len() == 1 {
            let height: u16 = level + 1;
            let ghost reached = editor;
            proof {
                editor::lemma_rooted(
                    editor.nodes(storage@.store),
                    editor.pages(),
                    node::entry_views(kids@),
                    level as nat,
                );
                assert(node::entry_views(kids@)[0] == kids@[0]@);
            }
            editor.root = Some(IndexRoot { page_id: kids[0].value, height, entries: count });
            assert(editor.nodes(storage@.store) == reached.nodes(storage@.store));
            assert(editor.pages() == reached.pages());
        } else {
            assert(all =~= Seq::empty());
            assert(editor.root is None ==> editor.entries(storage@.store) =~= all);
        }
        proof {
            assert(node::entry_views(kids@).len() == kids@.len());
            assert(steps::built(before, all) == (
                editor.desk(storage@.store),
                Ok::<Option<IndexRoot>, IndexErrorView>(editor.root),
            ));
        }
        editor.finish(Ghost(before), Ghost(storage@.store))
    }

    /// Plans changes to an index, made in order. Only new nodes that the new root leads to are
    /// written; nodes in use stay as they are.
    pub fn edit_plan(
        storage: &mut GroupCommitHandle,
        cache: &mut NodeCache,
        root: Option<IndexRoot>,
        mutations: Vec<IndexMutation>,
    ) -> (planned: Result<IndexBuildPlan, IndexError>)
        requires
            old(storage)@.wf(),
            old(cache).wf(),
            read::cache_true(old(cache)@, old(storage)@.store),
        ensures
            final(storage)@.wf(),
            final(storage)@.options == old(storage)@.options,
            final(storage)@.store == (StoreView {
                next_page_id: final(storage)@.store.next_page_id,
                free: final(storage)@.store.free,
                ..old(storage)@.store
            }),
            forall|id: u64|
                store::is_live(old(storage)@.store, id) ==> #[trigger] store::is_live(
                    final(storage)@.store,
                    id,
                ),
            final(cache).wf(),
            read::cache_true(final(cache)@, final(storage)@.store),
            forall|damage: IndexErrorView|
                mutations@.len() > 0 && #[trigger] steps::damage_named(
                    steps::cleared(old(storage)@.store),
                    root,
                    plan::mutation_views(mutations@)[0],
                    damage,
                ) ==> {
                    &&& plan_view(planned) == Err::<plan::PlanView, IndexErrorView>(damage)
                    &&& final(storage)@.store == old(storage)@.store
                },
            plan::index_holds(old(storage)@.store, root) ==> steps::edit_outcome(
                old(storage)@.store,
                root,
                plan::mutation_views(mutations@),
                final(storage)@.store,
                plan_view(planned),
            ),
            plan::index_holds(old(storage)@.store, root) ==> match planned {
                Ok(planned) => {
                    &&& upserts_fit(plan::mutation_views(mutations@))
                    &&& plan::plan_holds(old(storage)@.store, final(storage)@.store, planned@)
                    &&& forall|k: Seq<u8>| #[trigger]
                        model::find(plan::plan_entries(final(storage)@.store, planned@), k)
                            == plan::value_after(
                            plan::index_entries(old(storage)@.store, root),
                            plan::mutation_views(mutations@),
                            k,
                        )
                },
                Err(error) => edit_refused(
                    old(storage)@.store,
                    root,
                    plan::mutation_views(mutations@),
                    error@,
                    final(storage)@.store,
                ),
            },
    {
        let ghost before = storage@.store;
        let ghost fits = plan::index_holds(before, root);
        let ghost entries = plan::index_entries(before, root);
        let ghost views = plan::mutation_views(mutations@);
        let mut editor = Editor::open(root, Ghost(before));
        let ghost first = editor;
        let ghost short = compact::nodes_short(before) && upserts_short(views);
        proof {
            compact::lemma_no_overlay(editor.overlay@);
            if short {
                compact::lemma_store_compact(before);
            }
        }
        let mut rest = reversed(mutations);
        let ghost mut done: int = 0;
        proof {
            assert(views.take(0) =~= Seq::empty());
            assert(rest@.len() == mutations@.len());
            assert(editor.desk(before) =~= steps::cleared(before));
        }
        while rest.len() > 0
            invariant
                storage@.wf(),
                storage@.options == old(storage)@.options,
                before == old(storage)@.store,
                fits == plan::index_holds(before, root),
                entries == plan::index_entries(before, root),
                views == plan::mutation_views(mutations@),
                cache.wf(),
                read::cache_true(cache@, storage@.store),
                first.root == root,
                first.overlay@ == Map::<u64, Node>::empty(),
                editor.wf(storage@.store),
                editor::grown(&first, before, &editor, storage@.store),
                short == (compact::nodes_short(before) && upserts_short(views)),
                short ==> compact::store_compact(before) && compact::overlay_compact(
                    editor.overlay@,
                ),
                0 <= done <= views.len(),
                rest@.len() == views.len() - done,
                done == 0 ==> editor.root == root && editor.desk(storage@.store)
                    == steps::cleared(before),
                done > 0 ==> forall|damage: IndexErrorView| !#[trigger]
                    steps::damage_named(steps::cleared(before), root, views[0], damage),
                forall|i: int|
                    0 <= i < rest@.len() ==> (#[trigger] rest@[i])@ == views[views.len() - 1 - i],
                fits ==> {
                    &&& (editor.desk(storage@.store), Ok::<Option<IndexRoot>, IndexErrorView>(
                        editor.root,
                    )) == steps::all_applied(steps::cleared(before), root, views.take(done))
                    &&& editor.holds(storage@.store)
                    &&& upserts_fit(views.take(done))
                    &&& editor::root_height(editor.root) <= editor::root_height(root) + done
                    &&& editor.entries(storage@.store).len() <= entries.len() + done
                    &&& forall|k: Seq<u8>| #[trigger]
                        model::find(editor.entries(storage@.store), k) == plan::value_after(
                            entries,
                            views.take(done),
                            k,
                        )
                },
            decreases rest@.len(),
        {
            let ghost last = rest@[rest@.len() - 1];
            let mutation = rest.pop().unwrap();
            let ghost middle = editor;
            let ghost state = storage@.store;
            assert(mutation@ == views[done]);
            proof {
                if short {
                    compact::lemma_store_same(before, state);
                }
            }
            let applied = editor.apply(storage, cache, mutation);
            proof {
                editor::lemma_grown_trans(&first, before, &middle, state, &editor, storage@.store);
                let more = views.take(done + 1);
                assert(more.drop_last() =~= views.take(done));
                assert(more.last() == views[done]);
                if fits && applied is Ok {
                    assert forall|i: int|
                        0 <= i < more.len() && (#[trigger] more[i]) is Upsert implies plan::mutation_key(
                        more[i],
                    ).len() <= MAX_KEY_LENGTH by {
                        if i < done {
                            assert(views.take(done)[i] == more[i]);
                        }
                    }
                }
                done = done + 1;
            }
            match applied {
                Ok(_) => {},
                Err(error) => {
                    proof {
                        assert(fits ==> entries.len() == root_count(root));
                        if fits {
                            steps::lemma_all_applied(steps::cleared(before), root, views, done);
                        }
                        if fits && plan::mutation_key(views[done - 1]).len() > MAX_KEY_LENGTH
                            && views[done - 1] is Upsert {
                            assert(is_first_long(views, done - 1));
                        }
                    }
                    return Err(error);
                },
            }
        }
        assert(views.take(done) =~= views);
        proof {
            if short {
                assert forall|id: u64| #[trigger] editor.overlay@.contains_key(id) implies
                    node::node_size(editor.overlay@[id]@) <= MAX_PAGE_PAYLOAD by {
                    compact::lemma_overlay_at(editor.overlay@, id);
                }
            }
            assert(model::store_nodes(storage@.store) =~= model::store_nodes(before)) by {
                assert forall|id: u64|
                    model::node_read(storage@.store, id) == model::node_read(before, id) by {}
            }
        }
        editor.finish(Ghost(before), Ghost(storage@.store))
    }

    /// The value of a key.
    pub fn get(
        storage: &GroupCommitHandle,
        cache: &mut NodeCache,
        root: IndexRoot,
        wanted: &[u8],
    ) -> (value: Result<Option<PageId>, IndexError>)
        requires
            storage@.wf(),
            old(cache).wf(),
            read::cache_true(old(cache)@, storage@.store),
        ensures
            final(cache).wf(),
            read::cache_true(final(cache)@, storage@.store),
            root.height == 0 ==> (value matches Err(error) && error@ == (
            IndexErrorView::CorruptNode {
                page_id: root.page_id.0,
                reason: "root height cannot be zero"@,
            })),
            root.height > 0 ==> match value {
                Ok(value) => read::looked_up(
                    storage@.store,
                    root.page_id.0,
                    (root.height - 1) as nat,
                    wanted@,
                ) == Ok::<Option<u64>, IndexErrorView>(editor::optional_id(value)),
                Err(error) => read::looked_up(
                    storage@.store,
                    root.page_id.0,
                    (root.height - 1) as nat,
                    wanted@,
                ) == Err::<Option<u64>, IndexErrorView>(error@),
            },
            plan::index_holds(storage@.store, Some(root)) ==> (value matches Ok(value)
                && editor::optional_id(value) == model::find(
                plan::index_entries(storage@.store, Some(root)),
                wanted@,
            )),
    {
        if root.height == 0 {
            return Err(corrupt(root.page_id, "root height cannot be zero"));
        }
        proof {
            if plan::index_holds(storage@.store, Some(root)) {
                read::law_lookup_finds(
                    storage@.store,
                    model::live_pages(storage@.store),
                    root.page_id.0,
                    (root.height - 1) as nat,
                    None,
                    None,
                    wanted@,
                );
            }
        }
        follow(storage, cache, root.page_id, root.height - 1, wanted)
    }
}

} // verus!
