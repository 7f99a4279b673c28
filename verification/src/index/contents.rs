//! What lookups, scans and changes give, key by key.
use crate::index::key;
use crate::index::model;
use crate::index::node;
use crate::index::node::EntryView;
use crate::index::plan;
use crate::index::plan::MutationView;
use crate::index::range;
use vstd::prelude::*;

verus! {

/// Whether a key is at or behind the start of a range and in front of its end.
pub open spec fn is_between(k: Seq<u8>, start: Option<Seq<u8>>, end: Option<Seq<u8>>) -> bool {
    &&& start matches Some(first) ==> k == first || key::key_lt(first, k)
    &&& end matches Some(last) ==> key::key_lt(k, last)
}

/// A lookup among entries in order gives a value exactly where the key is there with that value.
pub proof fn law_found_is_held(entries: Seq<EntryView>, k: Seq<u8>, value: u64)
    requires
        node::keys_rise(entries),
    ensures
        model::find(entries, k) == Some(value) <==> entries.contains(EntryView { key: k, value }),
{
    if model::find(entries, k) == Some(value) {
        let at: int = model::lemma_find_some(entries, k);
        assert(entries[at] == (EntryView { key: k, value }));
    }
    if entries.contains(EntryView { key: k, value }) {
        let at = entries.index_of(EntryView { key: k, value });
        model::lemma_find_at(entries, at);
    }
}

proof fn lemma_selected(
    entries: Seq<EntryView>,
    start: Option<Seq<u8>>,
    end: Option<Seq<u8>>,
    at: int,
)
    requires
        node::keys_rise(entries),
        0 <= at < entries.len(),
    ensures
        node::keys_rise(range::selected(entries, start, end)),
        is_between(entries[at].key, start, end) ==> range::selected(entries, start, end).contains(
            entries[at],
        ),
    decreases entries.len(),
{
    let front = entries.drop_last();
    let chosen = range::selected(entries, start, end);
    assert(node::keys_rise(front)) by {
        assert forall|i: int, j: int| 0 <= i < j < front.len() implies key::key_lt(
            (#[trigger] front[i]).key,
            (#[trigger] front[j]).key,
        ) by {
            assert(front[i] == entries[i] && front[j] == entries[j]);
        }
    }
    let before = range::selected(front, start, end);
    if front.len() > 0 {
        lemma_selected(front, start, end, if at < front.len() {
            at
        } else {
            0
        });
    }
    assert forall|i: int, j: int| 0 <= i < j < chosen.len() implies key::key_lt(
        (#[trigger] chosen[i]).key,
        (#[trigger] chosen[j]).key,
    ) by {
        assert(chosen[i] == before[i]);
        if j < before.len() {
            assert(chosen[j] == before[j]);
        } else {
            let from: int = range::lemma_selected_member(front, start, end, i);
            assert(front[from] == entries[from]);
            assert(key::key_lt(entries[from].key, entries[entries.len() - 1].key));
        }
    }
    if is_between(entries[at].key, start, end) {
        if at < front.len() {
            assert(front[at] == entries[at]);
            let i = before.index_of(entries[at]);
            assert(chosen[i] == before[i]);
        } else {
            assert(chosen[chosen.len() - 1] == entries[at]);
        }
    }
}

/// A scan gives entries of the index with keys between its bounds, in order and no more than asked for.
/// One that it leaves out, though between the bounds, has a larger key than any that it gives, and is
/// left out for the limit.
pub proof fn law_scans_give_the_first_keys(
    entries: Seq<EntryView>,
    start: Option<Seq<u8>>,
    end: Option<Seq<u8>>,
    limit: nat,
    entry: EntryView,
    i: int,
    j: int,
)
    requires
        node::keys_rise(entries),
    ensures
        ({
            let given = range::at_most(range::selected(entries, start, end), limit);
            &&& given.len() <= limit
            &&& 0 <= i < given.len() ==> entries.contains(given[i]) && is_between(
                given[i].key,
                start,
                end,
            )
            &&& 0 <= i < j < given.len() ==> key::key_lt(given[i].key, given[j].key)
            &&& entries.contains(entry) && is_between(entry.key, start, end) && !given.contains(
                entry,
            ) ==> given.len() == limit && (0 <= i < given.len() ==> key::key_lt(
                given[i].key,
                entry.key,
            ))
        }),
{
    let chosen = range::selected(entries, start, end);
    let given = range::at_most(chosen, limit);
    if entries.len() > 0 {
        lemma_selected(entries, start, end, 0);
    }
    if 0 <= i < given.len() {
        let from: int = range::lemma_selected_member(entries, start, end, i);
        assert(given[i] == entries[from]);
        if i < j < given.len() {
            assert(given[j] == chosen[j]);
        }
    }
    if entries.contains(entry) && is_between(entry.key, start, end) {
        lemma_selected(entries, start, end, entries.index_of(entry));
        let at = chosen.index_of(entry);
        if at < given.len() {
            assert(given[at] == entry);
        } else if 0 <= i < given.len() {
            assert(given[i] == chosen[i]);
        }
    }
}

/// Whether a change is about a key.
pub open spec fn is_about(mutation: MutationView, k: Seq<u8>) -> bool {
    match mutation {
        MutationView::Upsert(entry) => entry.key == k,
        MutationView::Delete(gone) => gone == k,
    }
}

/// The last change about a key decides: what it put is there afterwards, and what it deleted is not. A key
/// that no change is about keeps what it had.
pub proof fn law_last_change_decides(
    entries: Seq<EntryView>,
    mutations: Seq<MutationView>,
    k: Seq<u8>,
    at: int,
)
    requires
        at == -1 || 0 <= at < mutations.len() && is_about(mutations[at], k),
        forall|i: int| at < i < mutations.len() ==> !is_about(#[trigger] mutations[i], k),
    ensures
        at == -1 ==> plan::value_after(entries, mutations, k) == model::find(entries, k),
        at >= 0 ==> plan::value_after(entries, mutations, k) == (match mutations[at] {
            MutationView::Upsert(entry) => Some(entry.value),
            MutationView::Delete(_) => None,
        }),
    decreases mutations.len(),
{
    if mutations.len() > 0 && at < mutations.len() - 1 {
        let front = mutations.drop_last();
        assert(!is_about(mutations[mutations.len() - 1], k));
        assert forall|i: int| at < i < front.len() implies !is_about(#[trigger] front[i], k) by {
            assert(front[i] == mutations[i]);
        }
        law_last_change_decides(entries, front, k, at);
    }
}

} // verus!
