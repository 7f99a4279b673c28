//! What a database keeps in memory: versions, intents, snapshots and index generations.
use crate::bytes::copy_bytes;
use crate::index::model;
use crate::index::node;
use crate::index::node::{EntryView, IndexEntry};
use crate::index::plan;
use crate::index::plan::IndexMutation;
use crate::index::read::search;
use crate::mvcc::error::{TransactionError, TransactionErrorView};
use crate::mvcc::key_map;
use crate::mvcc::key_map::KeyMap;
use crate::mvcc::manifest::IndexGeneration;
use crate::mvcc::prefix;
use crate::mvcc::prefix::{has_prefix, prefix_run};
use crate::mvcc::record;
use crate::mvcc::record::{copy_value, Timestamp, TransactionId};
use crate::storage::page::PageId;
use crate::storage::store;
use std::collections::HashSet;
use vstd::prelude::*;

verus! {

broadcast use vstd::std_specs::hash::group_hash_axioms;

/// One version of a key: its value from a commit on, and the page that records it.
#[derive(Debug)]
pub struct Version {
    pub timestamp: Timestamp,
    pub value: Option<Vec<u8>>,
    pub page_id: PageId,
}

#[verifier::ext_equal]
pub struct VersionView {
    pub timestamp: u64,
    pub value: Option<Seq<u8>>,
    pub page: u64,
}

impl View for Version {
    type V = VersionView;

    open spec fn view(&self) -> VersionView {
        VersionView {
            timestamp: self.timestamp.0,
            value: record::value_view(self.value),
            page: self.page_id.0,
        }
    }
}

pub open spec fn version_views(versions: Seq<Version>) -> Seq<VersionView> {
    Seq::new(versions.len(), |i: int| versions[i]@)
}

/// A running transaction and what it sees.
#[derive(Debug, Clone, Copy)]
pub struct ActiveSnapshot {
    pub id: TransactionId,
    pub snapshot: Timestamp,
}

/// A change to a key: a new value, or none.
#[verifier::ext_equal]
pub struct WriteView {
    pub key: Seq<u8>,
    pub value: Option<Seq<u8>>,
}

pub open spec fn write_views(writes: Seq<(Vec<u8>, Option<Vec<u8>>)>) -> Seq<WriteView> {
    Seq::new(
        writes.len(),
        |i: int| WriteView { key: writes[i].0@, value: record::value_view(writes[i].1) },
    )
}

/// How many of the versions are up to the newest that a snapshot sees.
pub open spec fn visible_count(versions: Seq<VersionView>, snapshot: u64) -> nat
    decreases versions.len(),
{
    if versions.len() == 0 {
        0
    } else if versions.last().timestamp <= snapshot {
        versions.len()
    } else {
        visible_count(versions.drop_last(), snapshot)
    }
}

/// The newest version that a snapshot sees.
pub open spec fn visible_version(versions: Seq<VersionView>, snapshot: u64) -> Option<VersionView> {
    let count = visible_count(versions, snapshot);
    if count == 0 {
        None
    } else {
        Some(versions[count - 1])
    }
}

/// How many of the generations are up to the newest that a snapshot can read.
pub open spec fn cover_count(generations: Seq<IndexGeneration>, snapshot: u64) -> nat
    decreases generations.len(),
{
    if generations.len() == 0 {
        0
    } else if generations.last().timestamp.0 <= snapshot {
        generations.len()
    } else {
        cover_count(generations.drop_last(), snapshot)
    }
}

/// The newest generation that is not newer than a snapshot.
pub open spec fn generation_for(generations: Seq<IndexGeneration>, snapshot: u64) -> Option<
    IndexGeneration,
> {
    let count = cover_count(generations, snapshot);
    if count == 0 {
        None
    } else {
        Some(generations[count - 1])
    }
}

/// The smallest snapshot in use, or what a new transaction would see.
pub open spec fn oldest_snapshot(active: Seq<ActiveSnapshot>, visible: u64) -> u64
    decreases active.len(),
{
    if active.len() == 0 {
        visible
    } else if active.len() == 1 {
        active[0].snapshot.0
    } else {
        let rest = oldest_snapshot(active.drop_last(), visible);
        if active.last().snapshot.0 < rest {
            active.last().snapshot.0
        } else {
            rest
        }
    }
}

/// The state of a database in memory.
pub struct State {
    versions: KeyMap<Vec<Version>>,
    intents: KeyMap<TransactionId>,
    active: Vec<ActiveSnapshot>,
    completed: HashSet<u64>,
    next_transaction_id: u64,
    next_commit_timestamp: u64,
    visible_through: Timestamp,
    generations: Vec<IndexGeneration>,
    dirty_keys: KeyMap<()>,
    reclaimed_versions: u64,
}

#[verifier::ext_equal]
pub struct StateView {
    /// The versions of each key, by rising timestamp.
    pub versions: Map<Seq<u8>, Seq<VersionView>>,
    /// The transactions that are about to write keys.
    pub intents: Map<Seq<u8>, u64>,
    /// The running transactions in the order they began.
    pub active: Seq<ActiveSnapshot>,
    /// Timestamps that are done while an earlier one is not.
    pub completed: Set<u64>,
    pub next_transaction_id: u64,
    pub next_commit_timestamp: u64,
    /// The newest timestamp up to which all commits are done.
    pub visible: u64,
    /// Published index generations by rising timestamp.
    pub generations: Seq<IndexGeneration>,
    /// Keys with versions that the newest generation may not cover.
    pub dirty: Set<Seq<u8>>,
    /// How many versions were dropped from memory.
    pub reclaimed: u64,
}

/// The versions of a key; a key that is not there has none.
pub open spec fn versions_of(versions: Map<Seq<u8>, Seq<VersionView>>, k: Seq<u8>) -> Seq<
    VersionView,
> {
    if versions.contains_key(k) {
        versions[k]
    } else {
        Seq::empty()
    }
}

pub open spec fn version_map(versions: Map<Seq<u8>, Vec<Version>>) -> Map<
    Seq<u8>,
    Seq<VersionView>,
> {
    Map::new(|k: Seq<u8>| versions.contains_key(k), |k: Seq<u8>| version_views(versions[k]@))
}

pub open spec fn owner_map(intents: Map<Seq<u8>, TransactionId>) -> Map<Seq<u8>, u64> {
    Map::new(|k: Seq<u8>| intents.contains_key(k), |k: Seq<u8>| intents[k].0)
}

impl View for State {
    type V = StateView;

    closed spec fn view(&self) -> StateView {
        StateView {
            versions: version_map(self.versions@),
            intents: owner_map(self.intents@),
            active: self.active@,
            completed: self.completed@,
            next_transaction_id: self.next_transaction_id,
            next_commit_timestamp: self.next_commit_timestamp,
            visible: self.visible_through.0,
            generations: self.generations@,
            dirty: self.dirty_keys@.dom(),
            reclaimed: self.reclaimed_versions,
        }
    }
}

impl StateView {
    pub open spec fn oldest(self) -> u64 {
        oldest_snapshot(self.active, self.visible)
    }
}

impl State {
    pub closed spec fn wf(&self) -> bool {
        &&& self.versions.wf()
        &&& self.intents.wf()
        &&& self.dirty_keys.wf()
    }
}

/// The number of versions up to the newest that a snapshot sees.
fn count_visible(versions: &Vec<Version>, snapshot: Timestamp) -> (count: usize)
    ensures
        count == visible_count(version_views(versions@), snapshot.0),
        count <= versions@.len(),
{
    let ghost all = version_views(versions@);
    let mut count: usize = versions.len();
    assert(all.take(count as int) =~= all);
    while count > 0
        invariant
            count <= versions@.len(),
            all == version_views(versions@),
            visible_count(all, snapshot.0) == visible_count(all.take(count as int), snapshot.0),
        decreases count,
    {
        proof {
            let part = all.take(count as int);
            assert(part.last() == versions@[count - 1]@);
            assert(part.drop_last() =~= all.take(count - 1));
        }
        if versions[count - 1].timestamp.0 <= snapshot.0 {
            return count;
        }
        count = count - 1;
    }
    count
}

pub proof fn lemma_visible_count_bound(versions: Seq<VersionView>, snapshot: u64)
    ensures
        visible_count(versions, snapshot) <= versions.len(),
        visible_count(versions, snapshot) > 0 ==> versions[visible_count(versions, snapshot)
            - 1].timestamp <= snapshot,
        forall|i: int|
            visible_count(versions, snapshot) <= i < versions.len() ==> (
            #[trigger] versions[i]).timestamp > snapshot,
    decreases versions.len(),
{
    if versions.len() > 0 && versions.last().timestamp > snapshot {
        lemma_visible_count_bound(versions.drop_last(), snapshot);
        assert forall|i: int|
            visible_count(versions, snapshot) <= i < versions.len() implies (
        #[trigger] versions[i]).timestamp > snapshot by {
            if i < versions.len() - 1 {
                assert(versions[i] == versions.drop_last()[i]);
            }
        }
    }
}

pub proof fn lemma_cover_count_bound(generations: Seq<IndexGeneration>, snapshot: u64)
    ensures
        cover_count(generations, snapshot) <= generations.len(),
        cover_count(generations, snapshot) > 0 ==> generations[cover_count(generations, snapshot)
            - 1].timestamp.0 <= snapshot,
        forall|i: int|
            cover_count(generations, snapshot) <= i < generations.len() ==> (
            #[trigger] generations[i]).timestamp.0 > snapshot,
    decreases generations.len(),
{
    if generations.len() > 0 && generations.last().timestamp.0 > snapshot {
        lemma_cover_count_bound(generations.drop_last(), snapshot);
        assert forall|i: int|
            cover_count(generations, snapshot) <= i < generations.len() implies (
        #[trigger] generations[i]).timestamp.0 > snapshot by {
            if i < generations.len() - 1 {
                assert(generations[i] == generations.drop_last()[i]);
            }
        }
    }
}

/// The value of a key at a snapshot as far as memory knows.
#[derive(Debug)]
pub enum Remembered {
    /// A version in memory answers.
    Known(Option<Vec<u8>>),
    /// No version in memory is old enough; this generation's index may have the key.
    Indexed(IndexGeneration),
    /// Neither a version nor a generation is old enough.
    Absent,
}

impl State {
    /// The state of a database that holds given versions and generations.
    pub(crate) fn make(
        versions: KeyMap<Vec<Version>>,
        generations: Vec<IndexGeneration>,
        dirty_keys: KeyMap<()>,
        next_commit_timestamp: u64,
        visible_through: Timestamp,
    ) -> (state: State)
        requires
            versions.wf(),
            dirty_keys.wf(),
        ensures
            state.wf(),
            state@ == (StateView {
                versions: version_map(versions@),
                intents: Map::empty(),
                active: Seq::empty(),
                completed: Set::empty(),
                next_transaction_id: 1,
                next_commit_timestamp,
                visible: visible_through.0,
                generations: generations@,
                dirty: dirty_keys@.dom(),
                reclaimed: 0,
            }),
    {
        let state = State {
            versions,
            intents: KeyMap::new(),
            active: Vec::new(),
            completed: HashSet::new(),
            next_transaction_id: 1,
            next_commit_timestamp,
            visible_through,
            generations,
            dirty_keys,
            reclaimed_versions: 0,
        };
        assert(state@.intents =~= Map::empty());
        assert(state@.completed =~= Set::empty());
        state
    }

    /// What a new transaction would see.
    pub fn visible_through(&self) -> (visible: Timestamp)
        ensures
            visible.0 == self@.visible,
    {
        self.visible_through
    }

    /// The newest generation.
    pub fn latest_generation(&self) -> (generation: Option<IndexGeneration>)
        ensures
            generation == (if self@.generations.len() == 0 {
                None
            } else {
                Some(self@.generations.last())
            }),
    {
        let count: usize = self.generations.len();
        if count == 0 {
            None
        } else {
            Some(self.generations[count - 1])
        }
    }

    fn count_cover(&self, snapshot: Timestamp) -> (count: usize)
        ensures
            count == cover_count(self@.generations, snapshot.0),
            count <= self@.generations.len(),
    {
        let ghost all = self.generations@;
        let mut count: usize = self.generations.len();
        assert(all.take(count as int) =~= all);
        while count > 0
            invariant
                count <= self.generations@.len(),
                all == self.generations@,
                cover_count(all, snapshot.0) == cover_count(all.take(count as int), snapshot.0),
            decreases count,
        {
            proof {
                let part = all.take(count as int);
                assert(part.last() == all[count - 1]);
                assert(part.drop_last() =~= all.take(count - 1));
            }
            if self.generations[count - 1].timestamp.0 <= snapshot.0 {
                return count;
            }
            count = count - 1;
        }
        count
    }

    /// The newest generation that is not newer than a snapshot.
    pub fn generation_at(&self, snapshot: Timestamp) -> (generation: Option<IndexGeneration>)
        ensures
            generation == generation_for(self@.generations, snapshot.0),
    {
        let count: usize = self.count_cover(snapshot);
        if count == 0 {
            None
        } else {
            Some(self.generations[count - 1])
        }
    }

    /// The smallest snapshot in use, or what a new transaction would see.
    pub fn oldest_active_snapshot(&self) -> (oldest: Timestamp)
        ensures
            oldest.0 == self@.oldest(),
    {
        if self.active.len() == 0 {
            return self.visible_through;
        }
        let ghost all = self.active@;
        let mut oldest: u64 = self.active[0].snapshot.0;
        let mut index: usize = 1;
        assert(all.take(1)[0] == all[0]);
        while index < self.active.len()
            invariant
                1 <= index <= all.len(),
                all == self.active@,
                oldest == oldest_snapshot(all.take(index as int), self@.visible),
            decreases all.len() - index,
        {
            let snapshot: u64 = self.active[index].snapshot.0;
            proof {
                let more = all.take(index + 1);
                assert(more.drop_last() =~= all.take(index as int));
                assert(more.last() == all[index as int]);
            }
            if snapshot < oldest {
                oldest = snapshot;
            }
            index = index + 1;
        }
        assert(all.take(index as int) =~= all);
        Timestamp(oldest)
    }

    /// What memory knows of a key at a snapshot.
    pub fn lookup(&self, wanted: &[u8], snapshot: Timestamp) -> (remembered: Remembered)
        requires
            self.wf(),
        ensures
            match remembered {
                Remembered::Known(value) => visible_version(
                    versions_of(self@.versions, wanted@),
                    snapshot.0,
                ) matches Some(version) && record::value_view(value) == version.value,
                Remembered::Indexed(generation) => visible_version(
                    versions_of(self@.versions, wanted@),
                    snapshot.0,
                ) is None && generation_for(self@.generations, snapshot.0) == Some(generation),
                Remembered::Absent => visible_version(
                    versions_of(self@.versions, wanted@),
                    snapshot.0,
                ) is None && generation_for(self@.generations, snapshot.0) is None,
            },
    {
        match self.versions.get(wanted) {
            Some(versions) => {
                let count: usize = count_visible(versions, snapshot);
                if count > 0 {
                    return Remembered::Known(copy_value(&versions[count - 1].value));
                }
            },
            None => {},
        }
        match self.generation_at(snapshot) {
            Some(generation) => Remembered::Indexed(generation),
            None => Remembered::Absent,
        }
    }

    /// Begins a transaction that sees everything committed so far.
    pub fn begin(&mut self) -> (begun: Result<ActiveSnapshot, TransactionError>)
        requires
            old(self).wf(),
        ensures
            final(self).wf(),
            match begun {
                Ok(begun) => {
                    &&& old(self)@.next_transaction_id < u64::MAX
                    &&& begun.id.0 == old(self)@.next_transaction_id
                    &&& begun.snapshot.0 == old(self)@.visible
                    &&& final(self)@ == (StateView {
                        next_transaction_id: (old(self)@.next_transaction_id + 1) as u64,
                        active: old(self)@.active.push(begun),
                        ..old(self)@
                    })
                },
                Err(error) => {
                    &&& old(self)@.next_transaction_id == u64::MAX
                    &&& error@ == TransactionErrorView::TransactionIdExhausted
                    &&& final(self)@ == old(self)@
                },
            },
    {
        let id: u64 = self.next_transaction_id;
        if id == u64::MAX {
            return Err(TransactionError::TransactionIdExhausted);
        }
        self.next_transaction_id = id + 1;
        let begun = ActiveSnapshot { id: TransactionId(id), snapshot: self.visible_through };
        self.active.push(begun);
        Ok(begun)
    }

    /// Ends a transaction.
    pub fn end(&mut self, id: TransactionId)
        requires
            old(self).wf(),
        ensures
            final(self).wf(),
            final(self)@ == (StateView {
                active: active_without(old(self)@.active, id.0),
                ..old(self)@
            }),
    {
        let mut kept: Vec<ActiveSnapshot> = Vec::new();
        let mut index: usize = 0;
        let ghost all = self.active@;
        assert(all.take(0) =~= Seq::empty());
        while index < self.active.len()
            invariant
                index <= all.len(),
                all == self.active@,
                *self == *old(self),
                kept@ == active_without(all.take(index as int), id.0),
            decreases all.len() - index,
        {
            let entry = self.active[index];
            proof {
                let more = all.take(index + 1);
                assert(more.drop_last() =~= all.take(index as int));
                assert(more.last() == all[index as int]);
            }
            if entry.id.0 != id.0 {
                kept.push(entry);
            }
            index = index + 1;
        }
        assert(all.take(index as int) =~= all);
        self.active = kept;
    }
}

/// The running transactions but one.
pub open spec fn active_without(active: Seq<ActiveSnapshot>, id: u64) -> Seq<ActiveSnapshot>
    decreases active.len(),
{
    if active.len() == 0 {
        Seq::empty()
    } else {
        let rest = active_without(active.drop_last(), id);
        if active.last().id.0 == id {
            rest
        } else {
            rest.push(active.last())
        }
    }
}

/// Whether a transaction may not write a key: another is about to, or a version is newer than its
/// snapshot.
pub open spec fn key_conflicts(state: StateView, id: u64, snapshot: u64, k: Seq<u8>) -> bool {
    ||| state.intents.contains_key(k) && state.intents[k] != id
    ||| versions_of(state.versions, k).len() > 0 && versions_of(state.versions, k).last().timestamp
        > snapshot
}

/// Whether a scanned prefix changed under a transaction: a key under it has a version newer than
/// the snapshot, or another transaction is about to write one.
pub open spec fn prefix_conflicts(state: StateView, id: u64, snapshot: u64, p: Seq<u8>) -> bool {
    ||| exists|k: Seq<u8>| #[trigger]
        state.versions.contains_key(k) && prefix::starts_with(k, p) && state.versions[k].len() > 0
            && state.versions[k].last().timestamp > snapshot
    ||| exists|k: Seq<u8>| #[trigger]
        state.intents.contains_key(k) && state.intents[k] != id && prefix::starts_with(k, p)
}

/// The first of the keys that a transaction may not write.
pub open spec fn first_key_conflict(
    state: StateView,
    id: u64,
    snapshot: u64,
    keys: Seq<Seq<u8>>,
) -> Option<Seq<u8>>
    decreases keys.len(),
{
    if keys.len() == 0 {
        None
    } else {
        match first_key_conflict(state, id, snapshot, keys.drop_last()) {
            Some(k) => Some(k),
            None => if key_conflicts(state, id, snapshot, keys.last()) {
                Some(keys.last())
            } else {
                None
            },
        }
    }
}

/// The first of the prefixes that changed under a transaction.
pub open spec fn first_prefix_conflict(
    state: StateView,
    id: u64,
    snapshot: u64,
    prefixes: Seq<Seq<u8>>,
) -> Option<Seq<u8>>
    decreases prefixes.len(),
{
    if prefixes.len() == 0 {
        None
    } else {
        match first_prefix_conflict(state, id, snapshot, prefixes.drop_last()) {
            Some(p) => Some(p),
            None => if prefix_conflicts(state, id, snapshot, prefixes.last()) {
                Some(prefixes.last())
            } else {
                None
            },
        }
    }
}

/// Why a transaction may not commit, if it may not.
pub open spec fn commit_refused(
    state: StateView,
    id: u64,
    snapshot: u64,
    keys: Seq<Seq<u8>>,
    prefixes: Seq<Seq<u8>>,
) -> Option<TransactionErrorView> {
    match first_key_conflict(state, id, snapshot, keys) {
        Some(key) => Some(TransactionErrorView::WriteConflict { key }),
        None => match first_prefix_conflict(state, id, snapshot, prefixes) {
            Some(prefix) => Some(TransactionErrorView::RangeConflict { prefix }),
            None => if state.next_commit_timestamp == u64::MAX {
                Some(TransactionErrorView::TimestampExhausted)
            } else {
                None
            },
        },
    }
}

/// Intents of one transaction on keys, over those that were there.
pub open spec fn intents_with(intents: Map<Seq<u8>, u64>, keys: Seq<Seq<u8>>, id: u64) -> Map<
    Seq<u8>,
    u64,
>
    decreases keys.len(),
{
    if keys.len() == 0 {
        intents
    } else {
        intents_with(intents, keys.drop_last(), id).insert(keys.last(), id)
    }
}

pub proof fn lemma_intents_with(intents: Map<Seq<u8>, u64>, keys: Seq<Seq<u8>>, id: u64)
    ensures
        forall|k: Seq<u8>| #[trigger]
            intents_with(intents, keys, id).contains_key(k) <==> intents.contains_key(k)
                || keys.contains(k),
        forall|k: Seq<u8>| #[trigger]
            intents_with(intents, keys, id).contains_key(k) ==> intents_with(
                intents,
                keys,
                id,
            )[k] == (if keys.contains(k) {
                id
            } else {
                intents[k]
            }),
    decreases keys.len(),
{
    if keys.len() > 0 {
        let head = keys.drop_last();
        lemma_intents_with(intents, head, id);
        let before = intents_with(intents, head, id);
        let after = intents_with(intents, keys, id);
        assert forall|k: Seq<u8>| #[trigger] after.contains_key(k) <==> intents.contains_key(k)
            || keys.contains(k) by {
            lemma_contains_last(keys, k);
            assert(after.contains_key(k) <==> before.contains_key(k) || k == keys.last());
        }
        assert forall|k: Seq<u8>| #[trigger] after.contains_key(k) implies after[k] == (
        if keys.contains(k) {
            id
        } else {
            intents[k]
        }) by {
            lemma_contains_last(keys, k);
            assert(before.contains_key(k) || k == keys.last());
        }
    }
}

proof fn lemma_contains_last(keys: Seq<Seq<u8>>, k: Seq<u8>)
    requires
        keys.len() > 0,
    ensures
        keys.contains(k) <==> keys.drop_last().contains(k) || k == keys.last(),
{
    let head = keys.drop_last();
    if keys.contains(k) && k != keys.last() {
        let i = choose|i: int| 0 <= i < keys.len() && keys[i] == k;
        assert(head[i] == k);
    }
    if head.contains(k) {
        let i = choose|i: int| 0 <= i < head.len() && head[i] == k;
        assert(keys[i] == k);
    }
    assert(keys[keys.len() - 1] == keys.last());
}

impl State {
    /// Whether a key is under an intent of another transaction or has a newer version.
    fn key_conflict(&self, id: TransactionId, snapshot: Timestamp, wanted: &[u8]) -> (conflict: bool)
        requires
            self.wf(),
        ensures
            conflict == key_conflicts(self@, id.0, snapshot.0, wanted@),
    {
        if let Some(owner) = self.intents.get(wanted) {
            if owner.0 != id.0 {
                return true;
            }
        }
        if let Some(versions) = self.versions.get(wanted) {
            let count: usize = versions.len();
            if count > 0 {
                let ghost views = version_views(versions@);
                assert(views.last() == versions@[count - 1]@);
                if versions[count - 1].timestamp.0 > snapshot.0 {
                    return true;
                }
            }
        }
        false
    }

    /// Whether something under a prefix changed since a snapshot, or is about to.
    fn prefix_conflict(&self, id: TransactionId, snapshot: Timestamp, wanted: &[u8]) -> (conflict:
        bool)
        requires
            self.wf(),
        ensures
            conflict == prefix_conflicts(self@, id.0, snapshot.0, wanted@),
    {
        let ghost order = self.versions.order();
        let run = prefix_run(&self.versions, wanted);
        let mut index: usize = run.first;
        while index < run.end
            invariant
                run.first <= index <= run.end <= order.len(),
                order == self.versions.order(),
                self.wf(),
                forall|i: int|
                    0 <= i < order.len() ==> (run.first <= i < run.end <==> prefix::starts_with(
                        #[trigger] order[i],
                        wanted@,
                    )),
                forall|i: int|
                    run.first <= i < index ==> {
                        let versions = self@.versions[#[trigger] order[i]];
                        versions.len() == 0 || versions.last().timestamp <= snapshot.0
                    },
            decreases run.end - index,
        {
            let current = self.versions.key_at(index);
            let versions = self.versions.value_at(index);
            proof {
                key_map::lemma_at(&self.versions, index as int);
            }
            let length: usize = versions.len();
            if length > 0 {
                assert(version_views(versions@).last() == versions@[length - 1]@);
                if versions[length - 1].timestamp.0 > snapshot.0 {
                    assert(self@.versions.contains_key(current@));
                    assert(prefix::starts_with(order[index as int], wanted@));
                    return true;
                }
            }
            index = index + 1;
        }
        assert forall|k: Seq<u8>| #[trigger] self@.versions.contains_key(k) && prefix::starts_with(
            k,
            wanted@,
        ) && self@.versions[k].len() > 0 implies self@.versions[k].last().timestamp
            <= snapshot.0 by {
            let at = key_map::lemma_placed(&self.versions, k);
            assert(order[at] == k);
        }
        let ghost owners = self.intents.order();
        let mut other: usize = 0;
        while other < self.intents.len()
            invariant
                other <= owners.len(),
                owners == self.intents.order(),
                self.wf(),
                forall|i: int|
                    0 <= i < other ==> self@.intents[#[trigger] owners[i]] == id.0
                        || !prefix::starts_with(owners[i], wanted@),
            decreases owners.len() - other,
        {
            let owner = self.intents.value_at(other);
            let current = self.intents.key_at(other);
            if owner.0 != id.0 && has_prefix(current.as_slice(), wanted) {
                assert(self@.intents.contains_key(current@));
                return true;
            }
            other = other + 1;
        }
        assert forall|k: Seq<u8>| #[trigger] self@.intents.contains_key(k) implies self@.intents[k]
            == id.0 || !prefix::starts_with(k, wanted@) by {
            let at = key_map::lemma_placed(&self.intents, k);
            assert(owners[at] == k);
        }
        false
    }

    /// Takes the keys of a transaction and hands out its timestamp, if nothing conflicts.
    pub fn prepare(
        &mut self,
        id: TransactionId,
        snapshot: Timestamp,
        keys: &Vec<Vec<u8>>,
        prefixes: &Vec<Vec<u8>>,
    ) -> (timestamp: Result<Timestamp, TransactionError>)
        requires
            old(self).wf(),
        ensures
            final(self).wf(),
            match timestamp {
                Ok(timestamp) => {
                    &&& commit_refused(
                        old(self)@,
                        id.0,
                        snapshot.0,
                        key_map::byte_views(keys@),
                        key_map::byte_views(prefixes@),
                    ) is None
                    &&& timestamp.0 == old(self)@.next_commit_timestamp
                    &&& final(self)@ == (StateView {
                        next_commit_timestamp: (old(self)@.next_commit_timestamp + 1) as u64,
                        intents: intents_with(
                            old(self)@.intents,
                            key_map::byte_views(keys@),
                            id.0,
                        ),
                        ..old(self)@
                    })
                },
                Err(error) => {
                    &&& commit_refused(
                        old(self)@,
                        id.0,
                        snapshot.0,
                        key_map::byte_views(keys@),
                        key_map::byte_views(prefixes@),
                    ) == Some(error@)
                    &&& final(self)@ == old(self)@
                },
            },
    {
        let ghost all_keys = key_map::byte_views(keys@);
        let ghost all_prefixes = key_map::byte_views(prefixes@);
        let mut index: usize = 0;
        assert(all_keys.take(0) =~= Seq::empty());
        while index < keys.len()
            invariant
                index <= keys@.len(),
                all_keys == key_map::byte_views(keys@),
                all_prefixes == key_map::byte_views(prefixes@),
                *self == *old(self),
                self.wf(),
                first_key_conflict(self@, id.0, snapshot.0, all_keys.take(index as int)) is None,
            decreases keys@.len() - index,
        {
            proof {
                let more = all_keys.take(index + 1);
                assert(more.drop_last() =~= all_keys.take(index as int));
                assert(more.last() == keys@[index as int]@);
            }
            if self.key_conflict(id, snapshot, keys[index].as_slice()) {
                proof {
                    lemma_first_key(self@, id.0, snapshot.0, all_keys, index + 1);
                }
                return Err(
                    TransactionError::WriteConflict { key: copy_bytes(keys[index].as_slice()) },
                );
            }
            index = index + 1;
        }
        assert(all_keys.take(index as int) =~= all_keys);
        let mut other: usize = 0;
        assert(all_prefixes.take(0) =~= Seq::empty());
        while other < prefixes.len()
            invariant
                other <= prefixes@.len(),
                all_keys == key_map::byte_views(keys@),
                all_prefixes == key_map::byte_views(prefixes@),
                *self == *old(self),
                self.wf(),
                first_key_conflict(self@, id.0, snapshot.0, all_keys) is None,
                first_prefix_conflict(
                    self@,
                    id.0,
                    snapshot.0,
                    all_prefixes.take(other as int),
                ) is None,
            decreases prefixes@.len() - other,
        {
            proof {
                let more = all_prefixes.take(other + 1);
                assert(more.drop_last() =~= all_prefixes.take(other as int));
                assert(more.last() == prefixes@[other as int]@);
            }
            if self.prefix_conflict(id, snapshot, prefixes[other].as_slice()) {
                proof {
                    lemma_first_prefix(self@, id.0, snapshot.0, all_prefixes, other + 1);
                }
                return Err(
                    TransactionError::RangeConflict { prefix: copy_bytes(prefixes[other].as_slice()) },
                );
            }
            other = other + 1;
        }
        assert(all_prefixes.take(other as int) =~= all_prefixes);
        let timestamp: u64 = self.next_commit_timestamp;
        if timestamp == u64::MAX {
            return Err(TransactionError::TimestampExhausted);
        }
        self.next_commit_timestamp = timestamp + 1;
        let ghost middle = *self;
        let mut taken: usize = 0;
        assert(all_keys.take(0) =~= Seq::empty());
        while taken < keys.len()
            invariant
                taken <= keys@.len(),
                all_keys == key_map::byte_views(keys@),
                self.wf(),
                self@ == (StateView {
                    intents: intents_with(middle@.intents, all_keys.take(taken as int), id.0),
                    ..middle@
                }),
            decreases keys@.len() - taken,
        {
            let ghost before = self@;
            let ghost held = self.intents@;
            self.intents.insert(copy_bytes(keys[taken].as_slice()), id);
            proof {
                let more = all_keys.take(taken + 1);
                assert(more.drop_last() =~= all_keys.take(taken as int));
                assert(more.last() == keys@[taken as int]@);
                assert(self@.intents =~= owner_map(held).insert(more.last(), id.0));
            }
            taken = taken + 1;
        }
        assert(all_keys.take(taken as int) =~= all_keys);
        Ok(Timestamp(timestamp))
    }
}

proof fn lemma_first_key(state: StateView, id: u64, snapshot: u64, keys: Seq<Seq<u8>>, count: int)
    requires
        0 <= count <= keys.len(),
    ensures
        first_key_conflict(state, id, snapshot, keys.take(count)) is Some ==> first_key_conflict(
            state,
            id,
            snapshot,
            keys,
        ) == first_key_conflict(state, id, snapshot, keys.take(count)),
    decreases keys.len(),
{
    if count < keys.len() {
        lemma_first_key(state, id, snapshot, keys.drop_last(), count);
        assert(keys.drop_last().take(count) =~= keys.take(count));
    } else {
        assert(keys.take(count) =~= keys);
    }
}

proof fn lemma_first_prefix(
    state: StateView,
    id: u64,
    snapshot: u64,
    prefixes: Seq<Seq<u8>>,
    count: int,
)
    requires
        0 <= count <= prefixes.len(),
    ensures
        first_prefix_conflict(state, id, snapshot, prefixes.take(count)) is Some
            ==> first_prefix_conflict(state, id, snapshot, prefixes) == first_prefix_conflict(
            state,
            id,
            snapshot,
            prefixes.take(count),
        ),
    decreases prefixes.len(),
{
    if count < prefixes.len() {
        lemma_first_prefix(state, id, snapshot, prefixes.drop_last(), count);
        assert(prefixes.drop_last().take(count) =~= prefixes.take(count));
    } else {
        assert(prefixes.take(count) =~= prefixes);
    }
}

/// The versions of all keys after a commit wrote some of them.
pub open spec fn versions_with(
    versions: Map<Seq<u8>, Seq<VersionView>>,
    writes: Seq<WriteView>,
    pages: Seq<u64>,
    timestamp: u64,
) -> Map<Seq<u8>, Seq<VersionView>>
    decreases writes.len(),
{
    if writes.len() == 0 {
        versions
    } else {
        let before = versions_with(versions, writes.drop_last(), pages, timestamp);
        let last = writes.last();
        before.insert(
            last.key,
            versions_of(before, last.key).push(
                VersionView { timestamp, value: last.value, page: pages[writes.len() - 1] },
            ),
        )
    }
}

/// The keys that writes are about.
pub open spec fn write_keys(writes: Seq<WriteView>) -> Seq<Seq<u8>> {
    Seq::new(writes.len(), |i: int| writes[i].key)
}

/// The intents that are left when a transaction gives up those on some keys.
pub open spec fn intents_without(intents: Map<Seq<u8>, u64>, keys: Seq<Seq<u8>>, id: u64) -> Map<
    Seq<u8>,
    u64,
> {
    Map::new(
        |k: Seq<u8>| intents.contains_key(k) && !(keys.contains(k) && intents[k] == id),
        |k: Seq<u8>| intents[k],
    )
}

/// Whether the timestamps from one up to another are done, and no more behind it are.
pub open spec fn is_advance(visible: u64, done: Set<u64>, reached: u64, left: Set<u64>) -> bool {
    &&& visible <= reached
    &&& forall|t: u64| visible < t <= reached ==> #[trigger] done.contains(t)
    &&& reached == u64::MAX || !done.contains((reached + 1) as u64)
    &&& forall|t: u64| #[trigger]
        left.contains(t) <==> done.contains(t) && !(visible < t <= reached)
}

/// What completing a commit does: its intents go, its versions come if it was stored, and what is
/// visible moves up to before the first commit that is not done.
pub open spec fn finished(
    before: StateView,
    after: StateView,
    id: u64,
    timestamp: u64,
    writes: Seq<WriteView>,
    pages: Option<Seq<u64>>,
) -> bool {
    &&& after == (StateView {
        intents: intents_without(before.intents, write_keys(writes), id),
        versions: match pages {
            Some(pages) => versions_with(before.versions, writes, pages, timestamp),
            None => before.versions,
        },
        dirty: match pages {
            Some(_) => before.dirty.union(write_keys(writes).to_set()),
            None => before.dirty,
        },
        visible: after.visible,
        completed: after.completed,
        ..before
    })
    &&& is_advance(
        before.visible,
        before.completed.insert(timestamp),
        after.visible,
        after.completed,
    )
}

pub open spec fn optional_ids(pages: Option<&[PageId]>) -> Option<Seq<u64>> {
    match pages {
        Some(pages) => Some(store::id_views(pages@)),
        None => None,
    }
}

proof fn lemma_versions_with_other(
    versions: Map<Seq<u8>, Seq<VersionView>>,
    writes: Seq<WriteView>,
    pages: Seq<u64>,
    timestamp: u64,
    k: Seq<u8>,
)
    requires
        !write_keys(writes).contains(k),
    ensures
        versions_with(versions, writes, pages, timestamp).contains_key(k)
            == versions.contains_key(k),
        versions.contains_key(k) ==> versions_with(versions, writes, pages, timestamp)[k]
            == versions[k],
    decreases writes.len(),
{
    if writes.len() > 0 {
        let keys = write_keys(writes);
        let head = writes.drop_last();
        assert(keys[writes.len() - 1] == writes.last().key);
        assert(write_keys(head) =~= keys.drop_last());
        assert(!write_keys(head).contains(k)) by {
            if write_keys(head).contains(k) {
                let i = choose|i: int| 0 <= i < head.len() && write_keys(head)[i] == k;
                assert(keys[i] == k);
            }
        }
        lemma_versions_with_other(versions, head, pages, timestamp, k);
    }
}

/// Each key that a commit wrote gets one version more; other keys keep theirs.
pub proof fn law_commit_versions(
    versions: Map<Seq<u8>, Seq<VersionView>>,
    writes: Seq<WriteView>,
    pages: Seq<u64>,
    timestamp: u64,
    k: Seq<u8>,
)
    requires
        write_keys(writes).no_duplicates(),
    ensures
        match write_at(writes, k) {
            Some(at) => {
                &&& versions_with(versions, writes, pages, timestamp).contains_key(k)
                &&& versions_with(versions, writes, pages, timestamp)[k] == versions_of(
                    versions,
                    k,
                ).push(VersionView { timestamp, value: writes[at].value, page: pages[at] })
            },
            None => {
                &&& versions_with(versions, writes, pages, timestamp).contains_key(k)
                    == versions.contains_key(k)
                &&& versions.contains_key(k) ==> versions_with(versions, writes, pages, timestamp)[k]
                    == versions[k]
            },
        },
    decreases writes.len(),
{
    let keys = write_keys(writes);
    match write_at(writes, k) {
        None => {
            lemma_versions_with_other(versions, writes, pages, timestamp, k);
        },
        Some(at) => {
            let head = writes.drop_last();
            assert(write_keys(head) =~= keys.drop_last());
            if at == writes.len() - 1 {
                assert(!write_keys(head).contains(k)) by {
                    if write_keys(head).contains(k) {
                        let i = choose|i: int| 0 <= i < head.len() && write_keys(head)[i] == k;
                        assert(keys[i] == k);
                        assert(keys[at] == k);
                    }
                }
                lemma_versions_with_other(versions, head, pages, timestamp, k);
            } else {
                assert(keys[at] == k);
                assert(write_keys(head)[at] == k);
                law_commit_versions(versions, head, pages, timestamp, k);
                assert(write_at(head, k) == Some(at)) by {
                    let other = write_keys(head).index_of(k);
                    assert(write_keys(head)[other] == k);
                    assert(keys[other] == k);
                }
                assert(keys[writes.len() - 1] == writes.last().key);
                assert(writes.last().key != k);
            }
        },
    }
}

/// Which of the writes is about a key.
pub open spec fn write_at(writes: Seq<WriteView>, k: Seq<u8>) -> Option<int> {
    if write_keys(writes).contains(k) {
        Some(write_keys(writes).index_of(k))
    } else {
        None
    }
}

impl State {
    /// Completes a prepared commit. With pages, its versions become part of the database; without,
    /// it is given up.
    pub fn finish(
        &mut self,
        id: TransactionId,
        timestamp: Timestamp,
        writes: &[(Vec<u8>, Option<Vec<u8>>)],
        pages: Option<&[PageId]>,
    )
        requires
            old(self).wf(),
            pages matches Some(pages) ==> pages@.len() == writes@.len(),
        ensures
            final(self).wf(),
            finished(
                old(self)@,
                final(self)@,
                id.0,
                timestamp.0,
                write_views(writes@),
                optional_ids(pages),
            ),
    {
        let ghost all = write_views(writes@);
        let ghost keys = write_keys(all);
        let ghost start = self@;
        let mut index: usize = 0;
        assert(keys.take(0) =~= Seq::empty());
        assert(self@.intents =~= intents_without(start.intents, keys.take(0), id.0));
        while index < writes.len()
            invariant
                index <= writes@.len(),
                all == write_views(writes@),
                keys == write_keys(all),
                self.wf(),
                self@ == (StateView {
                    intents: intents_without(start.intents, keys.take(index as int), id.0),
                    ..start
                }),
            decreases writes@.len() - index,
        {
            let wanted = writes[index].0.as_slice();
            let ghost held = self.intents@;
            let ghost part = keys.take(index as int);
            let ghost more = keys.take(index + 1);
            proof {
                assert(more.drop_last() =~= part);
                assert(more.last() == wanted@);
                assert(self@.intents == owner_map(held));
            }
            let owned = match self.intents.get(wanted) {
                Some(owner) => owner.0 == id.0,
                None => false,
            };
            if owned {
                let _ = self.intents.remove(wanted);
                assert(self@.intents =~= owner_map(held).remove(wanted@));
            }
            proof {
                assert(self@.intents =~= intents_without(start.intents, more, id.0)) by {
                    assert forall|k: Seq<u8>|
                        self@.intents.contains_key(k) == intents_without(
                            start.intents,
                            more,
                            id.0,
                        ).contains_key(k) by {
                        lemma_contains_last(more, k);
                        let left = intents_without(start.intents, part, id.0);
                        assert(owner_map(held) == left);
                        assert(owner_map(held).contains_key(k) == left.contains_key(k));
                        if left.contains_key(k) {
                            assert(owner_map(held)[k] == start.intents[k]);
                            assert(held[k].0 == start.intents[k]);
                        }
                    }
                }
            }
            index = index + 1;
        }
        assert(keys.take(index as int) =~= keys);
        let ghost middle = self@;
        if let Some(pages) = pages {
            let ghost ids = store::id_views(pages@);
            let mut at: usize = 0;
            assert(all.take(0) =~= Seq::empty());
            assert(self@.dirty =~= start.dirty.union(keys.take(0).to_set()));
            while at < writes.len()
                invariant
                    at <= writes@.len() == pages@.len(),
                    all == write_views(writes@),
                    keys == write_keys(all),
                    ids == store::id_views(pages@),
                    self.wf(),
                    start.dirty == middle.dirty,
                    self@ == (StateView {
                        versions: versions_with(
                            middle.versions,
                            all.take(at as int),
                            ids,
                            timestamp.0,
                        ),
                        dirty: start.dirty.union(keys.take(at as int).to_set()),
                        ..middle
                    }),
                decreases writes@.len() - at,
            {
                let wanted = writes[at].0.as_slice();
                let version = Version {
                    timestamp,
                    value: copy_value(&writes[at].1),
                    page_id: pages[at],
                };
                let ghost view = version@;
                let ghost held = self.versions@;
                let ghost marked = self.dirty_keys@;
                let mut list = match self.versions.remove(wanted) {
                    Some(list) => list,
                    None => Vec::new(),
                };
                let ghost had = version_views(list@);
                list.push(version);
                self.versions.insert(copy_bytes(wanted), list);
                self.dirty_keys.insert(copy_bytes(wanted), ());
                proof {
                    let more = all.take(at + 1);
                    assert(more.drop_last() =~= all.take(at as int));
                    assert(more.last() == all[at as int]);
                    assert(version_views(list@) =~= had.push(view));
                    assert(had =~= versions_of(version_map(held), wanted@));
                    assert(self@.versions =~= version_map(held).insert(wanted@, had.push(view)));
                    let more_keys = keys.take(at + 1);
                    assert(more_keys.drop_last() =~= keys.take(at as int));
                    assert(more_keys.last() == wanted@);
                    assert(self@.dirty =~= start.dirty.union(more_keys.to_set())) by {
                        assert forall|k: Seq<u8>|
                            self@.dirty.contains(k) == start.dirty.union(
                                more_keys.to_set(),
                            ).contains(k) by {
                            lemma_contains_last(more_keys, k);
                            assert(marked.dom().contains(k) == start.dirty.union(
                                keys.take(at as int).to_set(),
                            ).contains(k));
                        }
                    }
                }
                at = at + 1;
            }
            assert(all.take(at as int) =~= all);
            assert(keys.take(at as int) =~= keys);
        }
        let ghost stored = self@;
        self.completed.insert(timestamp.0);
        let ghost done = self.completed@;
        let ghost first = self.visible_through.0;
        while self.visible_through.0 < u64::MAX && self.completed.contains(
            &(self.visible_through.0 + 1),
        )
            invariant
                self.wf(),
                first <= self.visible_through.0,
                done == stored.completed.insert(timestamp.0),
                forall|t: u64|
                    first < t <= self.visible_through.0 ==> #[trigger] done.contains(t),
                forall|t: u64| #[trigger]
                    self.completed@.contains(t) <==> done.contains(t) && !(first < t
                        <= self.visible_through.0),
                self@ == (StateView {
                    visible: self@.visible,
                    completed: self@.completed,
                    ..stored
                }),
            decreases u64::MAX - self.visible_through.0,
        {
            let next: u64 = self.visible_through.0 + 1;
            let ghost was = self.completed@;
            let _ = self.completed.remove(&next);
            self.visible_through = Timestamp(next);
        }
    }
}

/// Whether a generation comes before another or stands on the same page.
pub open spec fn generation_le(first: IndexGeneration, second: IndexGeneration) -> bool {
    first.timestamp.0 < second.timestamp.0 || (first.timestamp.0 == second.timestamp.0
        && first.manifest_page_id.0 <= second.manifest_page_id.0)
}

/// How many generations are up to the last that is not behind a given one.
pub open spec fn generation_rank(generations: Seq<IndexGeneration>, added: IndexGeneration) -> nat
    decreases generations.len(),
{
    if generations.len() == 0 {
        0
    } else if generation_le(generations.last(), added) {
        generations.len()
    } else {
        generation_rank(generations.drop_last(), added)
    }
}

/// The generations with one more, in order; one that is there already is not added again.
pub open spec fn generations_with(
    generations: Seq<IndexGeneration>,
    added: IndexGeneration,
) -> Seq<IndexGeneration> {
    let rank = generation_rank(generations, added);
    if rank > 0 && generations[rank - 1].timestamp == added.timestamp && generations[rank
        - 1].manifest_page_id == added.manifest_page_id {
        generations
    } else {
        generations.insert(rank as int, added)
    }
}

pub proof fn lemma_generation_rank(generations: Seq<IndexGeneration>, added: IndexGeneration)
    ensures
        generation_rank(generations, added) <= generations.len(),
    decreases generations.len(),
{
    if generations.len() > 0 {
        lemma_generation_rank(generations.drop_last(), added);
    }
}

impl State {
    /// Adds a generation whose pages are written.
    pub fn publish_generation(&mut self, added: IndexGeneration)
        requires
            old(self).wf(),
        ensures
            final(self).wf(),
            final(self)@ == (StateView {
                generations: generations_with(old(self)@.generations, added),
                ..old(self)@
            }),
    {
        let ghost all = self.generations@;
        let mut position: usize = self.generations.len();
        proof {
            assert(all.take(position as int) =~= all);
            lemma_generation_rank(all, added);
        }
        while position > 0 && !(self.generations[position - 1].timestamp.0 < added.timestamp.0 || (
        self.generations[position - 1].timestamp.0 == added.timestamp.0
            && self.generations[position - 1].manifest_page_id.0 <= added.manifest_page_id.0))
            invariant
                position <= all.len(),
                all == self.generations@,
                *self == *old(self),
                self.wf(),
                generation_rank(all, added) == generation_rank(all.take(position as int), added),
            decreases position,
        {
            proof {
                let part = all.take(position as int);
                assert(part.last() == all[position - 1]);
                assert(part.drop_last() =~= all.take(position - 1));
            }
            position = position - 1;
        }
        proof {
            let part = all.take(position as int);
            if position > 0 {
                assert(part.last() == all[position - 1]);
            }
            assert(generation_rank(all, added) == position);
        }
        let duplicate = position > 0 && self.generations[position - 1].timestamp.0
            == added.timestamp.0 && self.generations[position - 1].manifest_page_id.0
            == added.manifest_page_id.0;
        if !duplicate {
            self.generations.insert(position, added);
        }
    }

    /// Forgets which keys were changed, but for those with versions behind a timestamp.
    pub fn settle_dirty(&mut self, timestamp: Timestamp)
        requires
            old(self).wf(),
        ensures
            final(self).wf(),
            final(self)@ == (StateView { dirty: final(self)@.dirty, ..old(self)@ }),
            forall|k: Seq<u8>| #[trigger]
                final(self)@.dirty.contains(k) <==> old(self)@.dirty.contains(k) && has_newer(
                    versions_of(old(self)@.versions, k),
                    timestamp.0,
                ),
    {
        let mut kept: KeyMap<()> = KeyMap::new();
        let ghost order = self.dirty_keys.order();
        let mut index: usize = 0;
        while index < self.dirty_keys.len()
            invariant
                index <= order.len(),
                order == self.dirty_keys.order(),
                *self == *old(self),
                self.wf(),
                kept.wf(),
                forall|i: int| 0 <= i < kept.order().len() ==> order.take(index as int).contains(
                    #[trigger] kept.order()[i],
                ),
                forall|k: Seq<u8>| #[trigger]
                    kept@.contains_key(k) <==> order.take(index as int).contains(k) && has_newer(
                        versions_of(self@.versions, k),
                        timestamp.0,
                    ),
            decreases order.len() - index,
        {
            let wanted = self.dirty_keys.key_at(index);
            let newer = match self.versions.get(wanted.as_slice()) {
                Some(versions) => newer_than(versions, timestamp),
                None => false,
            };
            let ghost part = order.take(index as int);
            let ghost more = order.take(index + 1);
            proof {
                assert(more.drop_last() =~= part);
                assert(more.last() == wanted@);
                assert forall|k: Seq<u8>| more.contains(k) <==> #[trigger] part.contains(k) || k
                    == wanted@ by {
                    lemma_contains_last(more, k);
                }
            }
            if newer {
                proof {
                    if kept.order().len() > 0 {
                        let last = kept.order().len() - 1;
                        assert(part.contains(kept.order()[last]));
                        let i = choose|i: int|
                            0 <= i < part.len() && part[i] == kept.order()[last];
                        assert(order[i] == kept.order()[last]);
                        assert(crate::index::key::key_lt(order[i], order[index as int]));
                    }
                }
                let ghost before = kept@;
                kept.push(copy_bytes(wanted.as_slice()), ());
                proof {
                    assert forall|i: int| 0 <= i < kept.order().len() implies more.contains(
                        #[trigger] kept.order()[i],
                    ) by {
                        lemma_contains_last(more, kept.order()[i]);
                    }
                    assert forall|k: Seq<u8>| #[trigger] kept@.contains_key(k) <==> more.contains(k)
                        && has_newer(versions_of(self@.versions, k), timestamp.0) by {
                        lemma_contains_last(more, k);
                        assert(kept@.contains_key(k) <==> before.contains_key(k) || k == wanted@);
                    }
                }
            } else {
                proof {
                    assert forall|i: int| 0 <= i < kept.order().len() implies more.contains(
                        #[trigger] kept.order()[i],
                    ) by {
                        lemma_contains_last(more, kept.order()[i]);
                    }
                    assert forall|k: Seq<u8>| #[trigger] kept@.contains_key(k) <==> more.contains(k)
                        && has_newer(versions_of(self@.versions, k), timestamp.0) by {
                        lemma_contains_last(more, k);
                    }
                }
            }
            index = index + 1;
        }
        proof {
            assert(order.take(index as int) =~= order);
            key_map::lemma_order(&self.dirty_keys);
        }
        self.dirty_keys = kept;
    }
}

/// Whether a key has a version behind a timestamp.
pub open spec fn has_newer(versions: Seq<VersionView>, timestamp: u64) -> bool {
    exists|i: int| 0 <= i < versions.len() && (#[trigger] versions[i]).timestamp > timestamp
}

fn newer_than(versions: &Vec<Version>, timestamp: Timestamp) -> (newer: bool)
    ensures
        newer == has_newer(version_views(versions@), timestamp.0),
{
    let ghost all = version_views(versions@);
    let mut index: usize = 0;
    while index < versions.len()
        invariant
            index <= versions@.len(),
            all == version_views(versions@),
            forall|i: int| 0 <= i < index ==> (#[trigger] all[i]).timestamp <= timestamp.0,
        decreases versions@.len() - index,
    {
        assert(all[index as int] == versions@[index as int]@);
        if versions[index].timestamp.0 > timestamp.0 {
            return true;
        }
        index = index + 1;
    }
    false
}

/// The versions of a key that snapshots from a given one on can see.
pub open spec fn kept_versions(versions: Seq<VersionView>, oldest: u64) -> Seq<VersionView> {
    let count = visible_count(versions, oldest);
    if count == 0 {
        versions
    } else {
        versions.skip(count - 1)
    }
}

/// The generation that the oldest snapshot reads.
pub open spec fn covering(state: StateView) -> Option<IndexGeneration> {
    generation_for(state.generations, state.oldest())
}

/// Whether a key leaves memory: one version is left, the covering generation has it, and nobody is
/// about to write the key or has written it since.
pub open spec fn leaves_memory(state: StateView, k: Seq<u8>) -> bool {
    let kept = kept_versions(versions_of(state.versions, k), state.oldest());
    &&& covering(state) matches Some(cover)
    &&& kept.len() == 1
    &&& kept[0].timestamp <= cover.timestamp.0
    &&& !state.dirty.contains(k)
    &&& !state.intents.contains_key(k)
}

/// The generations that snapshots from the oldest on can read.
pub open spec fn kept_generations(state: StateView) -> Seq<IndexGeneration> {
    let count = cover_count(state.generations, state.oldest());
    if count == 0 {
        state.generations
    } else {
        state.generations.skip(count - 1)
    }
}

/// The versions that stay in memory.
pub open spec fn reclaimed_versions(state: StateView) -> Map<Seq<u8>, Seq<VersionView>> {
    Map::new(
        |k: Seq<u8>| state.versions.contains_key(k) && !leaves_memory(state, k),
        |k: Seq<u8>| kept_versions(state.versions[k], state.oldest()),
    )
}

/// How many versions there are of given keys.
pub open spec fn count_versions(
    versions: Map<Seq<u8>, Seq<VersionView>>,
    keys: Seq<Seq<u8>>,
) -> nat
    decreases keys.len(),
{
    if keys.len() == 0 {
        0
    } else {
        count_versions(versions, keys.drop_last()) + versions_of(versions, keys.last()).len()
    }
}

/// How many versions there are in all.
pub open spec fn total_versions(versions: Map<Seq<u8>, Seq<VersionView>>) -> nat {
    count_versions(versions, key_map::ordered_keys(versions))
}

/// How many versions were dropped once given ones are left, up to the largest count.
pub open spec fn reclaimed_count(
    state: StateView,
    left: Map<Seq<u8>, Seq<VersionView>>,
) -> int {
    let all = state.reclaimed + total_versions(state.versions) - total_versions(left);
    if all > u64::MAX {
        u64::MAX as int
    } else {
        all
    }
}

/// Whether dropping what no snapshot needs gives a page back: it was the manifest of a generation
/// that was dropped, or recorded a version that a newer one hides from all snapshots.
pub open spec fn page_freed(state: StateView, page: u64) -> bool {
    ||| exists|i: int|
        0 <= i < state.generations.len() - kept_generations(state).len() && (
        #[trigger] state.generations[i]).manifest_page_id.0 == page
    ||| exists|k: Seq<u8>| #[trigger] state.versions.contains_key(k) && version_freed(
        state.versions[k],
        state.oldest(),
        page,
    )
}

/// Whether a page records one of the versions that are hidden from a snapshot.
pub open spec fn version_freed(versions: Seq<VersionView>, oldest: u64, page: u64) -> bool {
    exists|i: int|
        0 <= i < versions.len() - kept_versions(versions, oldest).len() && (
        #[trigger] versions[i]).page == page
}

/// The number of versions that stay is at most the number that there were.
pub proof fn lemma_reclaimed_total(
    before: Map<Seq<u8>, Seq<VersionView>>,
    after: Map<Seq<u8>, Seq<VersionView>>,
    keys: Seq<Seq<u8>>,
)
    requires
        forall|k: Seq<u8>| #[trigger]
            versions_of(after, k).len() <= versions_of(before, k).len(),
    ensures
        count_versions(after, keys) <= count_versions(before, keys),
    decreases keys.len(),
{
    if keys.len() > 0 {
        lemma_reclaimed_total(before, after, keys.drop_last());
        assert(versions_of(after, keys.last()).len() <= versions_of(before, keys.last()).len());
    }
}

proof fn lemma_count_same(
    first: Map<Seq<u8>, Seq<VersionView>>,
    second: Map<Seq<u8>, Seq<VersionView>>,
    keys: Seq<Seq<u8>>,
)
    requires
        forall|i: int|
            0 <= i < keys.len() ==> versions_of(first, #[trigger] keys[i]) == versions_of(
                second,
                keys[i],
            ),
    ensures
        count_versions(first, keys) == count_versions(second, keys),
    decreases keys.len(),
{
    if keys.len() > 0 {
        let head = keys.drop_last();
        assert(keys[keys.len() - 1] == keys.last());
        assert forall|i: int| 0 <= i < head.len() implies versions_of(first, #[trigger] head[i])
            == versions_of(second, head[i]) by {
            assert(head[i] == keys[i]);
        }
        lemma_count_same(first, second, head);
    }
}

fn add_saturating(count: u64, more: u64) -> (sum: u64)
    ensures
        sum == if count + more > u64::MAX {
            u64::MAX as int
        } else {
            count + more
        },
{
    if more > u64::MAX - count {
        u64::MAX
    } else {
        count + more
    }
}

/// Whether the versions of one of the first keys give a page back.
spec fn freed_among(state: StateView, keys: Seq<Seq<u8>>, page: u64) -> bool {
    exists|i: int|
        0 <= i < keys.len() && version_freed(
            state.versions[#[trigger] keys[i]],
            state.oldest(),
            page,
        )
}

/// Whether a dropped generation gives a page back.
spec fn manifest_freed(state: StateView, count: int, page: u64) -> bool {
    exists|i: int|
        0 <= i < count && (#[trigger] state.generations[i]).manifest_page_id.0 == page
}

proof fn lemma_freed_step(state: StateView, keys: Seq<Seq<u8>>, page: u64)
    requires
        keys.len() > 0,
    ensures
        freed_among(state, keys, page) <==> freed_among(state, keys.drop_last(), page)
            || version_freed(state.versions[keys.last()], state.oldest(), page),
{
    let head = keys.drop_last();
    if freed_among(state, keys, page) {
        let i = choose|i: int|
            0 <= i < keys.len() && version_freed(
                state.versions[#[trigger] keys[i]],
                state.oldest(),
                page,
            );
        if i < head.len() {
            assert(head[i] == keys[i]);
        }
    }
    if freed_among(state, head, page) {
        let i = choose|i: int|
            0 <= i < head.len() && version_freed(
                state.versions[#[trigger] head[i]],
                state.oldest(),
                page,
            );
        assert(keys[i] == head[i]);
    }
    assert(keys[keys.len() - 1] == keys.last());
}

/// Adds the pages of versions to a list of pages.
fn free_versions(freed: &mut Vec<PageId>, drained: &Vec<Version>)
    ensures
        forall|page: u64| #[trigger]
            store::id_views(final(freed)@).contains(page) <==> store::id_views(
                old(freed)@,
            ).contains(page) || exists|i: int|
                0 <= i < drained@.len() && (#[trigger] drained@[i]).page_id.0 == page,
{
    let mut index: usize = 0;
    let ghost start = store::id_views(freed@);
    while index < drained.len()
        invariant
            index <= drained@.len(),
            start == store::id_views(old(freed)@),
            forall|page: u64| #[trigger]
                store::id_views(freed@).contains(page) <==> start.contains(page) || exists|i: int|
                    0 <= i < index && (#[trigger] drained@[i]).page_id.0 == page,
        decreases drained@.len() - index,
    {
        let page_id = drained[index].page_id;
        let ghost before = store::id_views(freed@);
        freed.push(page_id);
        proof {
            let after = store::id_views(freed@);
            assert(after =~= before.push(page_id.0));
            assert forall|page: u64| #[trigger] after.contains(page) <==> start.contains(page)
                || exists|i: int|
                0 <= i < index + 1 && (#[trigger] drained@[i]).page_id.0 == page by {
                lemma_pushed(before, page_id.0, page);
                if page == page_id.0 {
                    assert(drained@[index as int].page_id.0 == page);
                }
            }
        }
        index = index + 1;
    }
}

proof fn lemma_pushed(ids: Seq<u64>, last: u64, page: u64)
    ensures
        ids.push(last).contains(page) <==> ids.contains(page) || page == last,
{
    let all = ids.push(last);
    if ids.contains(page) {
        let i = choose|i: int| 0 <= i < ids.len() && ids[i] == page;
        assert(all[i] == page);
    }
    if all.contains(page) && page != last {
        let i = choose|i: int| 0 <= i < all.len() && all[i] == page;
        assert(ids[i] == page);
    }
    assert(all[ids.len() as int] == last);
}

impl State {
    /// Drops versions and generations that no running or future transaction can need, and returns
    /// the pages that nothing refers to any more.
    #[verifier::rlimit(60)]
    pub fn reclaim_covered(&mut self) -> (freed: Vec<PageId>)
        requires
            old(self).wf(),
        ensures
            final(self).wf(),
            final(self)@ == (StateView {
                versions: reclaimed_versions(old(self)@),
                generations: kept_generations(old(self)@),
                reclaimed: final(self)@.reclaimed,
                ..old(self)@
            }),
            final(self)@.reclaimed == reclaimed_count(old(self)@, final(self)@.versions),
            forall|page: u64| #[trigger]
                store::id_views(freed@).contains(page) <==> page_freed(old(self)@, page),
    {
        let ghost start = self@;
        let oldest = self.oldest_active_snapshot();
        let count: usize = self.count_cover(oldest);
        let mut freed: Vec<PageId> = Vec::new();
        let mut pruned: usize = 0;
        let cover: Option<Timestamp> = if count > 0 {
            Some(self.generations[count - 1].timestamp)
        } else {
            None
        };
        assert(store::id_views(freed@) =~= Seq::empty());
        while count > 0 && pruned < count - 1
            invariant
                count <= start.generations.len(),
                pruned == 0 || pruned <= count - 1,
                self.wf(),
                *self == *old(self),
                start == self@,
                forall|page: u64| #[trigger]
                    store::id_views(freed@).contains(page) <==> manifest_freed(
                        start,
                        pruned as int,
                        page,
                    ),
            decreases count - pruned,
        {
            let page_id = self.generations[pruned].manifest_page_id;
            let ghost before = store::id_views(freed@);
            freed.push(page_id);
            proof {
                let after = store::id_views(freed@);
                assert(after =~= before.push(page_id.0));
                assert forall|page: u64| #[trigger] after.contains(page) <==> manifest_freed(
                    start,
                    pruned + 1,
                    page,
                ) by {
                    lemma_pushed(before, page_id.0, page);
                    if page == page_id.0 {
                        assert(start.generations[pruned as int].manifest_page_id.0 == page);
                    }
                    assert(before.contains(page) <==> manifest_freed(start, pruned as int, page));
                }
            }
            pruned = pruned + 1;
        }
        let ghost gone = start.generations.len() - kept_generations(start).len();
        proof {
            lemma_cover_count_bound(start.generations, start.oldest());
            assert(pruned == gone);
        }
        if count > 0 {
            let kept = self.generations.split_off(count - 1);
            self.generations = kept;
            assert(self.generations@ =~= kept_generations(start));
        }
        let mut rest: KeyMap<Vec<Version>> = KeyMap::new();
        std::mem::swap(&mut rest, &mut self.versions);
        let ghost order = rest.order();
        let ghost items = rest.items();
        let ghost original = rest@;
        proof {
            assert(version_map(original) == start.versions);
            key_map::lemma_order(&rest);
            assert(key_map::is_order(start.versions, order)) by {
                assert forall|k: Seq<u8>| #[trigger] start.versions.contains_key(k)
                    <==> order.contains(k) by {
                    assert(original.contains_key(k) <==> order.contains(k));
                }
            }
            key_map::lemma_order_unique(start.versions, order);
            assert forall|i: int| 0 <= i < order.len() implies original.contains_key(
                #[trigger] order[i],
            ) && original[order[i]] == items[i] by {
                key_map::lemma_at(&rest, i);
            }
        }
        let mut turned: Vec<(Vec<u8>, Vec<Version>)> = Vec::new();
        while rest.len() > 0
            invariant
                rest.wf(),
                rest.order() == order.take(rest.order().len() as int),
                rest.items() == items.take(rest.order().len() as int),
                rest.order().len() <= order.len() == items.len(),
                turned@.len() + rest.order().len() == order.len(),
                forall|i: int|
                    0 <= i < turned@.len() ==> (#[trigger] turned@[i]).0@ == order[order.len() - 1
                        - i] && turned@[i].1 == items[order.len() - 1 - i],
            decreases rest.order().len(),
        {
            match rest.pop() {
                Some(pair) => {
                    turned.push(pair);
                },
                None => {},
            }
        }
        let ghost result = reclaimed_versions(start);
        let mut kept: KeyMap<Vec<Version>> = KeyMap::new();
        let mut reclaimed: u64 = self.reclaimed_versions;
        let ghost mut at: int = 0;
        proof {
            assert(order.take(0) =~= Seq::empty());
            assert forall|page: u64| #[trigger]
                store::id_views(freed@).contains(page) <==> manifest_freed(start, gone, page)
                    || freed_among(start, order.take(0), page) by {}
        }
        while turned.len() > 0
            invariant
                self.wf(),
                self@ == (StateView {
                    versions: self@.versions,
                    generations: kept_generations(start),
                    ..start
                }),
                self@.versions == Map::<Seq<u8>, Seq<VersionView>>::empty(),
                oldest.0 == start.oldest(),
                cover == (match covering(start) {
                    Some(generation) => Some(generation.timestamp),
                    None => None,
                }),
                result == reclaimed_versions(start),
                key_map::keys_rise(order),
                key_map::is_order(start.versions, order),
                original.dom() =~= start.versions.dom(),
                version_map(original) == start.versions,
                0 <= at <= order.len() == items.len(),
                turned@.len() == order.len() - at,
                forall|i: int|
                    0 <= i < order.len() ==> original.contains_key(#[trigger] order[i])
                        && original[order[i]] == items[i],
                forall|i: int|
                    0 <= i < turned@.len() ==> (#[trigger] turned@[i]).0@ == order[order.len() - 1
                        - i] && turned@[i].1 == items[order.len() - 1 - i],
                kept.wf(),
                forall|i: int|
                    0 <= i < kept.order().len() ==> order.take(at).contains(
                        #[trigger] kept.order()[i],
                    ),
                forall|k: Seq<u8>| #[trigger]
                    kept@.contains_key(k) <==> order.take(at).contains(k) && !leaves_memory(
                        start,
                        k,
                    ),
                forall|k: Seq<u8>| #[trigger]
                    kept@.contains_key(k) ==> version_views(kept@[k]@) == kept_versions(
                        start.versions[k],
                        start.oldest(),
                    ),
                forall|page: u64| #[trigger]
                    store::id_views(freed@).contains(page) <==> manifest_freed(start, gone, page)
                        || freed_among(start, order.take(at), page),
                count_versions(result, kept.order()) == count_versions(result, order.take(at)),
                count_versions(result, order.take(at)) <= count_versions(
                    start.versions,
                    order.take(at),
                ),
                reclaimed == ({
                    let all = start.reclaimed + count_versions(start.versions, order.take(at))
                        - count_versions(result, order.take(at));
                    if all > u64::MAX {
                        u64::MAX as int
                    } else {
                        all
                    }
                }),
            decreases turned@.len(),
        {
            let ghost last = turned@[turned@.len() - 1];
            let (current, mut versions) = match turned.pop() {
                Some(pair) => pair,
                None => {
                    assert(false);
                    return freed;
                },
            };
            let ghost k = order[at];
            let ghost had = version_views(versions@);
            let ghost part = order.take(at);
            let ghost more = order.take(at + 1);
            proof {
                assert(current@ == k);
                assert(had == start.versions[k]);
                assert(more.drop_last() =~= part);
                assert(more.last() == k);
                lemma_visible_count_bound(had, oldest.0);
            }
            let visible: usize = count_visible(&versions, oldest);
            let ghost freed_before = store::id_views(freed@);
            let mut drained: Vec<Version> = Vec::new();
            if visible > 1 {
                let newer = versions.split_off(visible - 1);
                drained = versions;
                versions = newer;
            }
            free_versions(&mut freed, &drained);
            reclaimed = add_saturating(reclaimed, drained.len() as u64);
            proof {
                let now = version_views(versions@);
                assert(now =~= kept_versions(had, oldest.0));
                assert(drained@.len() == had.len() - now.len());
                assert forall|i: int| 0 <= i < drained@.len() implies (
                #[trigger] drained@[i]).page_id.0 == had[i].page by {}
                assert forall|page: u64| #[trigger]
                    store::id_views(freed@).contains(page) <==> manifest_freed(start, gone, page)
                        || freed_among(start, more, page) by {
                    lemma_freed_step(start, more, page);
                    assert(freed_before.contains(page) <==> manifest_freed(start, gone, page)
                        || freed_among(start, part, page));
                    if version_freed(had, oldest.0, page) {
                        let i = choose|i: int|
                            0 <= i < had.len() - kept_versions(had, oldest.0).len() && (
                            #[trigger] had[i]).page == page;
                        assert(drained@[i].page_id.0 == page);
                    }
                    if exists|i: int|
                        0 <= i < drained@.len() && (#[trigger] drained@[i]).page_id.0 == page {
                        let i = choose|i: int|
                            0 <= i < drained@.len() && (#[trigger] drained@[i]).page_id.0 == page;
                        assert(had[i].page == page);
                    }
                }
            }
            let covered = match cover {
                Some(cover) => versions.len() == 1 && versions[0].timestamp.0 <= cover.0,
                None => false,
            };
            let leaves = covered && !self.dirty_keys.contains(current.as_slice())
                && !self.intents.contains(current.as_slice());
            proof {
                assert(versions_of(start.versions, k) == had);
                assert(leaves == leaves_memory(start, k));
                assert(self@.intents.contains_key(k) == start.intents.contains_key(k));
            }
            if leaves {
                reclaimed = add_saturating(reclaimed, 1);
                proof {
                    assert(versions_of(result, k) =~= Seq::empty());
                    assert forall|i: int| 0 <= i < kept.order().len() implies more.contains(
                        #[trigger] kept.order()[i],
                    ) by {
                        lemma_contains_last(more, kept.order()[i]);
                    }
                    assert forall|other: Seq<u8>| #[trigger]
                        kept@.contains_key(other) <==> more.contains(other) && !leaves_memory(
                            start,
                            other,
                        ) by {
                        lemma_contains_last(more, other);
                    }
                }
            } else {
                proof {
                    assert(result.contains_key(k));
                    assert(versions_of(result, k) == version_views(versions@));
                    if kept.order().len() > 0 {
                        let final_key = kept.order().len() - 1;
                        assert(part.contains(kept.order()[final_key]));
                        let i = choose|i: int|
                            0 <= i < part.len() && part[i] == kept.order()[final_key];
                        assert(order[i] == kept.order()[final_key]);
                        assert(crate::index::key::key_lt(order[i], order[at]));
                    }
                }
                let ghost before = kept@;
                let ghost keys_before = kept.order();
                kept.push(current, versions);
                proof {
                    assert(kept.order().drop_last() =~= keys_before);
                    assert forall|i: int| 0 <= i < kept.order().len() implies more.contains(
                        #[trigger] kept.order()[i],
                    ) by {
                        lemma_contains_last(more, kept.order()[i]);
                    }
                    assert forall|other: Seq<u8>| #[trigger]
                        kept@.contains_key(other) <==> more.contains(other) && !leaves_memory(
                            start,
                            other,
                        ) by {
                        lemma_contains_last(more, other);
                        assert(kept@.contains_key(other) <==> before.contains_key(other) || other
                            == k);
                    }
                    assert forall|other: Seq<u8>| #[trigger]
                        kept@.contains_key(other) implies version_views(kept@[other]@)
                        == kept_versions(start.versions[other], start.oldest()) by {
                        if other != k {
                            assert(before.contains_key(other));
                        }
                    }
                }
            }
            proof {
                at = at + 1;
            }
        }
        proof {
            assert(order.take(at) =~= order);
            key_map::lemma_order(&kept);
            assert(version_map(kept@) =~= result) by {
                assert forall|k: Seq<u8>| version_map(kept@).contains_key(k) == result.contains_key(
                    k,
                ) by {
                    assert(kept@.contains_key(k) <==> order.contains(k) && !leaves_memory(start, k));
                    assert(start.versions.contains_key(k) <==> order.contains(k));
                }
            }
            assert(key_map::is_order(result, kept.order())) by {
                assert forall|k: Seq<u8>| #[trigger] result.contains_key(k)
                    <==> kept.order().contains(k) by {
                    assert(version_map(kept@).contains_key(k) == kept@.contains_key(k));
                }
            }
            key_map::lemma_order_unique(result, kept.order());
            assert forall|page: u64| #[trigger] store::id_views(freed@).contains(page)
                <==> page_freed(start, page) by {
                if freed_among(start, order, page) {
                    let i = choose|i: int|
                        0 <= i < order.len() && version_freed(
                            start.versions[#[trigger] order[i]],
                            start.oldest(),
                            page,
                        );
                    assert(order.contains(order[i]));
                    assert(start.versions.contains_key(order[i]));
                }
                if exists|k: Seq<u8>| #[trigger] start.versions.contains_key(k) && version_freed(
                    start.versions[k],
                    start.oldest(),
                    page,
                ) {
                    let k = choose|k: Seq<u8>| #[trigger]
                        start.versions.contains_key(k) && version_freed(
                            start.versions[k],
                            start.oldest(),
                            page,
                        );
                    assert(order.contains(k));
                    let i = choose|i: int| 0 <= i < order.len() && order[i] == k;
                    assert(version_freed(start.versions[order[i]], start.oldest(), page));
                }
            }
        }
        self.versions = kept;
        self.reclaimed_versions = reclaimed;
        freed
    }
}

/// The page of the version that a snapshot sees, if that version has a value.
pub open spec fn live_page(versions: Seq<VersionView>, snapshot: u64) -> Option<u64> {
    match visible_version(versions, snapshot) {
        Some(version) => if version.value is Some {
            Some(version.page)
        } else {
            None
        },
        None => None,
    }
}

/// What has to be done to a key to bring an index from one timestamp to another: nothing, if the
/// key has no version in between, or else set it to the page of its live value or remove it.
pub open spec fn index_change(state: StateView, base: u64, timestamp: u64, k: Seq<u8>) -> Option<
    Option<u64>,
> {
    if state.dirty.contains(k) {
        match visible_version(versions_of(state.versions, k), timestamp) {
            Some(version) => if version.timestamp > base {
                Some(live_page(versions_of(state.versions, k), timestamp))
            } else {
                None
            },
            None => None,
        }
    } else {
        None
    }
}

impl State {
    /// The entries of an index over the values that are live at a timestamp.
    pub fn live_entries(&self, timestamp: Timestamp) -> (entries: Vec<IndexEntry>)
        requires
            self.wf(),
        ensures
            node::keys_rise(node::entry_views(entries@)),
            forall|k: Seq<u8>| #[trigger]
                model::find(node::entry_views(entries@), k) == live_page(
                    versions_of(self@.versions, k),
                    timestamp.0,
                ),
    {
        let ghost order = self.versions.order();
        let mut entries: Vec<IndexEntry> = Vec::new();
        let mut index: usize = 0;
        assert(node::entry_views(entries@) =~= Seq::empty());
        while index < self.versions.len()
            invariant
                index <= order.len(),
                order == self.versions.order(),
                self.wf(),
                node::keys_rise(node::entry_views(entries@)),
                forall|i: int|
                    0 <= i < entries@.len() ==> order.take(index as int).contains(
                        (#[trigger] node::entry_views(entries@)[i]).key,
                    ),
                forall|k: Seq<u8>| #[trigger]
                    model::find(node::entry_views(entries@), k) == (if order.take(
                        index as int,
                    ).contains(k) {
                        live_page(versions_of(self@.versions, k), timestamp.0)
                    } else {
                        None
                    }),
            decreases order.len() - index,
        {
            let current = self.versions.key_at(index);
            let versions = self.versions.value_at(index);
            let count: usize = count_visible(versions, timestamp);
            let ghost part = order.take(index as int);
            let ghost more = order.take(index + 1);
            let ghost views = node::entry_views(entries@);
            proof {
                assert(more.drop_last() =~= part);
                assert(more.last() == current@);
                key_map::lemma_rise_distinct(order);
                assert(!part.contains(current@)) by {
                    if part.contains(current@) {
                        let i = choose|i: int| 0 <= i < part.len() && part[i] == current@;
                        assert(order[i] == order[index as int]);
                    }
                }
                assert(versions_of(self@.versions, current@) == version_views(versions@));
            }
            let live = count > 0 && versions[count - 1].value.is_some();
            if live {
                let entry = IndexEntry {
                    key: copy_bytes(current.as_slice()),
                    value: versions[count - 1].page_id,
                };
                proof {
                    if views.len() > 0 {
                        let last = views.len() - 1;
                        assert(part.contains(views[last].key));
                        let i = choose|i: int| 0 <= i < part.len() && part[i] == views[last].key;
                        assert(order[i] == views[last].key);
                        assert(crate::index::key::key_lt(order[i], order[index as int]));
                    }
                    node::lemma_keys_rise_push(views, entry@);
                }
                entries.push(entry);
                proof {
                    let now = node::entry_views(entries@);
                    assert(now =~= views.push(entry@));
                    assert(now.drop_last() =~= views);
                    assert forall|i: int| 0 <= i < now.len() implies more.contains(
                        (#[trigger] now[i]).key,
                    ) by {
                        lemma_contains_last(more, now[i].key);
                        if i < views.len() {
                            assert(now[i] == views[i]);
                        }
                    }
                }
            } else {
                proof {
                    assert forall|i: int| 0 <= i < views.len() implies more.contains(
                        (#[trigger] views[i]).key,
                    ) by {
                        lemma_contains_last(more, views[i].key);
                    }
                }
            }
            proof {
                let now = node::entry_views(entries@);
                assert forall|k: Seq<u8>| #[trigger] model::find(now, k) == (if more.contains(k) {
                    live_page(versions_of(self@.versions, k), timestamp.0)
                } else {
                    None
                }) by {
                    lemma_contains_last(more, k);
                    assert(model::find(views, k) == (if part.contains(k) {
                        live_page(versions_of(self@.versions, k), timestamp.0)
                    } else {
                        None
                    }));
                }
            }
            index = index + 1;
        }
        proof {
            assert(order.take(index as int) =~= order);
            key_map::lemma_order(&self.versions);
            assert forall|k: Seq<u8>| #[trigger] model::find(node::entry_views(entries@), k)
                == live_page(versions_of(self@.versions, k), timestamp.0) by {
                assert(self.versions@.contains_key(k) <==> order.contains(k));
            }
        }
        entries
    }

    /// The changes that bring an index from one timestamp to another.
    pub fn index_mutations(&self, base: Timestamp, timestamp: Timestamp) -> (mutations: Vec<
        IndexMutation,
    >)
        requires
            self.wf(),
        ensures
            forall|entries: Seq<EntryView>, k: Seq<u8>| #[trigger]
                plan::value_after(entries, plan::mutation_views(mutations@), k) == (
                match index_change(self@, base.0, timestamp.0, k) {
                    Some(value) => value,
                    None => model::find(entries, k),
                }),
    {
        let ghost order = self.dirty_keys.order();
        let mut mutations: Vec<IndexMutation> = Vec::new();
        let mut index: usize = 0;
        assert(plan::mutation_views(mutations@) =~= Seq::empty());
        while index < self.dirty_keys.len()
            invariant
                index <= order.len(),
                order == self.dirty_keys.order(),
                self.wf(),
                forall|entries: Seq<EntryView>, k: Seq<u8>| #[trigger]
                    plan::value_after(entries, plan::mutation_views(mutations@), k) == (if order.take(
                        index as int,
                    ).contains(k) {
                        match index_change(self@, base.0, timestamp.0, k) {
                            Some(value) => value,
                            None => model::find(entries, k),
                        }
                    } else {
                        model::find(entries, k)
                    }),
            decreases order.len() - index,
        {
            let current = self.dirty_keys.key_at(index);
            let ghost part = order.take(index as int);
            let ghost more = order.take(index + 1);
            let ghost views = plan::mutation_views(mutations@);
            proof {
                assert(more.drop_last() =~= part);
                assert(more.last() == current@);
                key_map::lemma_rise_distinct(order);
                assert(!part.contains(current@)) by {
                    if part.contains(current@) {
                        let i = choose|i: int| 0 <= i < part.len() && part[i] == current@;
                        assert(order[i] == order[index as int]);
                    }
                }
            }
            let mut change: Option<IndexMutation> = None;
            if let Some(versions) = self.versions.get(current.as_slice()) {
                let count: usize = count_visible(versions, timestamp);
                if count > 0 && versions[count - 1].timestamp.0 > base.0 {
                    let key = copy_bytes(current.as_slice());
                    if versions[count - 1].value.is_some() {
                        change = Some(
                            IndexMutation::Upsert(
                                IndexEntry { key, value: versions[count - 1].page_id },
                            ),
                        );
                    } else {
                        change = Some(IndexMutation::Delete(key));
                    }
                }
            }
            let ghost wanted = index_change(self@, base.0, timestamp.0, current@);
            proof {
                assert(change is Some <==> wanted is Some);
                assert(change is Some ==> plan::mutation_key(change->0@) == current@
                    && plan::mutation_value(change->0@) == wanted->0);
            }
            if let Some(mutation) = change {
                mutations.push(mutation);
                proof {
                    let now = plan::mutation_views(mutations@);
                    assert(now =~= views.push(mutation@));
                    assert(now.drop_last() =~= views);
                }
            }
            proof {
                let now = plan::mutation_views(mutations@);
                assert forall|entries: Seq<EntryView>, k: Seq<u8>| #[trigger]
                    plan::value_after(entries, now, k) == (if more.contains(k) {
                        match index_change(self@, base.0, timestamp.0, k) {
                            Some(value) => value,
                            None => model::find(entries, k),
                        }
                    } else {
                        model::find(entries, k)
                    }) by {
                    lemma_contains_last(more, k);
                    assert(plan::value_after(entries, views, k) == (if part.contains(k) {
                        match index_change(self@, base.0, timestamp.0, k) {
                            Some(value) => value,
                            None => model::find(entries, k),
                        }
                    } else {
                        model::find(entries, k)
                    }));
                }
            }
            index = index + 1;
        }
        proof {
            assert(order.take(index as int) =~= order);
            key_map::lemma_order(&self.dirty_keys);
            assert forall|entries: Seq<EntryView>, k: Seq<u8>| #[trigger]
                plan::value_after(entries, plan::mutation_views(mutations@), k) == (
                match index_change(self@, base.0, timestamp.0, k) {
                    Some(value) => value,
                    None => model::find(entries, k),
                }) by {
                assert(self.dirty_keys@.contains_key(k) <==> order.contains(k));
            }
        }
        mutations
    }

    /// How many keys are in memory.
    pub fn key_count(&self) -> (count: usize)
        requires
            self.wf(),
        ensures
            count == key_map::ordered_keys(self@.versions).len(),
    {
        proof {
            key_map::lemma_order(&self.versions);
            assert(key_map::is_order(self@.versions, self.versions.order())) by {
                assert forall|k: Seq<u8>| #[trigger] self@.versions.contains_key(k)
                    <==> self.versions.order().contains(k) by {
                    assert(self.versions@.contains_key(k) <==> self.versions.order().contains(k));
                }
            }
            key_map::lemma_order_unique(self@.versions, self.versions.order());
        }
        self.versions.len()
    }

    /// How many versions are in memory, up to the largest `usize`.
    pub fn version_count(&self) -> (count: usize)
        requires
            self.wf(),
        ensures
            count == if total_versions(self@.versions) > usize::MAX {
                usize::MAX as nat
            } else {
                total_versions(self@.versions)
            },
    {
        let ghost order = self.versions.order();
        let mut total: usize = 0;
        let mut index: usize = 0;
        assert(order.take(0) =~= Seq::empty());
        while index < self.versions.len()
            invariant
                index <= order.len(),
                order == self.versions.order(),
                self.wf(),
                total == if count_versions(self@.versions, order.take(index as int)) > usize::MAX {
                    usize::MAX as nat
                } else {
                    count_versions(self@.versions, order.take(index as int))
                },
            decreases order.len() - index,
        {
            let versions = self.versions.value_at(index);
            let length: usize = versions.len();
            proof {
                let more = order.take(index + 1);
                assert(more.drop_last() =~= order.take(index as int));
                assert(more.last() == order[index as int]);
                key_map::lemma_at(&self.versions, index as int);
            }
            if length > usize::MAX - total {
                total = usize::MAX;
            } else {
                total = total + length;
            }
            index = index + 1;
        }
        proof {
            assert(order.take(index as int) =~= order);
            key_map::lemma_order(&self.versions);
            assert(key_map::is_order(self@.versions, order)) by {
                assert forall|k: Seq<u8>| #[trigger] self@.versions.contains_key(k)
                    <==> order.contains(k) by {
                    assert(self.versions@.contains_key(k) <==> order.contains(k));
                }
            }
            key_map::lemma_order_unique(self@.versions, order);
        }
        total
    }

    /// How many transactions are running.
    pub fn active_count(&self) -> (count: usize)
        ensures
            count == self@.active.len(),
    {
        self.active.len()
    }

    /// How many keys transactions are about to write.
    pub fn intent_count(&self) -> (count: usize)
        requires
            self.wf(),
        ensures
            count == key_map::ordered_keys(self@.intents).len(),
    {
        proof {
            key_map::lemma_order(&self.intents);
            assert(key_map::is_order(self@.intents, self.intents.order())) by {
                assert forall|k: Seq<u8>| #[trigger] self@.intents.contains_key(k)
                    <==> self.intents.order().contains(k) by {
                    assert(self.intents@.contains_key(k) <==> self.intents.order().contains(k));
                }
            }
            key_map::lemma_order_unique(self@.intents, self.intents.order());
        }
        self.intents.len()
    }

    /// How many versions were dropped from memory.
    pub fn reclaimed_count(&self) -> (count: u64)
        ensures
            count == self@.reclaimed,
    {
        self.reclaimed_versions
    }
}

impl State {
    /// The keys under a prefix with a version in memory that a snapshot sees, and their values.
    pub fn visible_under(&self, wanted: &[u8], snapshot: Timestamp) -> (found: KeyMap<
        Option<Vec<u8>>,
    >)
        requires
            self.wf(),
        ensures
            found.wf(),
            forall|k: Seq<u8>| #[trigger]
                found@.contains_key(k) <==> prefix::starts_with(k, wanted@) && visible_version(
                    versions_of(self@.versions, k),
                    snapshot.0,
                ) is Some,
            forall|k: Seq<u8>| #[trigger]
                found@.contains_key(k) ==> (visible_version(
                    versions_of(self@.versions, k),
                    snapshot.0,
                ) matches Some(version) && record::value_view(found@[k]) == version.value),
    {
        let ghost order = self.versions.order();
        let run = prefix_run(&self.versions, wanted);
        let mut found: KeyMap<Option<Vec<u8>>> = KeyMap::new();
        let mut index: usize = run.first;
        while index < run.end
            invariant
                self.wf(),
                order == self.versions.order(),
                run.first <= index <= run.end <= order.len(),
                forall|i: int|
                    0 <= i < order.len() ==> (run.first <= i < run.end <==> prefix::starts_with(
                        #[trigger] order[i],
                        wanted@,
                    )),
                found.wf(),
                forall|i: int|
                    0 <= i < found.order().len() ==> order.subrange(
                        run.first as int,
                        index as int,
                    ).contains(#[trigger] found.order()[i]),
                forall|k: Seq<u8>| #[trigger]
                    found@.contains_key(k) <==> order.subrange(
                        run.first as int,
                        index as int,
                    ).contains(k) && visible_version(
                        versions_of(self@.versions, k),
                        snapshot.0,
                    ) is Some,
                forall|k: Seq<u8>| #[trigger]
                    found@.contains_key(k) ==> (visible_version(
                        versions_of(self@.versions, k),
                        snapshot.0,
                    ) matches Some(version) && record::value_view(found@[k]) == version.value),
            decreases run.end - index,
        {
            let current = self.versions.key_at(index);
            let versions = self.versions.value_at(index);
            let count: usize = count_visible(versions, snapshot);
            let ghost part = order.subrange(run.first as int, index as int);
            let ghost more = order.subrange(run.first as int, index + 1);
            let ghost before = found@;
            let ghost keys_before = found.order();
            proof {
                assert(more.drop_last() =~= part);
                assert(more.last() == current@);
                assert(versions_of(self@.versions, current@) == version_views(versions@));
                assert forall|i: int| 0 <= i < keys_before.len() implies more.contains(
                    #[trigger] keys_before[i],
                ) by {
                    lemma_contains_last(more, keys_before[i]);
                }
            }
            if count > 0 {
                proof {
                    if keys_before.len() > 0 {
                        let last = keys_before.len() - 1;
                        assert(part.contains(keys_before[last]));
                        let i = choose|i: int| 0 <= i < part.len() && part[i] == keys_before[last];
                        assert(order[run.first + i] == keys_before[last]);
                        assert(crate::index::key::key_lt(
                            order[run.first + i],
                            order[index as int],
                        ));
                    }
                }
                found.push(copy_bytes(current.as_slice()), copy_value(&versions[count - 1].value));
                proof {
                    assert forall|i: int| 0 <= i < found.order().len() implies more.contains(
                        #[trigger] found.order()[i],
                    ) by {
                        lemma_contains_last(more, found.order()[i]);
                        if i < keys_before.len() {
                            assert(found.order()[i] == keys_before[i]);
                        }
                    }
                }
            }
            proof {
                assert forall|k: Seq<u8>| #[trigger] found@.contains_key(k) <==> more.contains(k)
                    && visible_version(versions_of(self@.versions, k), snapshot.0) is Some by {
                    lemma_contains_last(more, k);
                    assert(found@.contains_key(k) <==> before.contains_key(k) || (k == current@
                        && count > 0));
                    assert(before.contains_key(k) <==> part.contains(k) && visible_version(
                        versions_of(self@.versions, k),
                        snapshot.0,
                    ) is Some);
                }
                assert forall|k: Seq<u8>| #[trigger] found@.contains_key(k) implies (
                visible_version(
                    versions_of(self@.versions, k),
                    snapshot.0,
                ) matches Some(version) && record::value_view(found@[k]) == version.value) by {
                    if k != current@ {
                        assert(before.contains_key(k));
                    }
                }
            }
            index = index + 1;
        }
        proof {
            let all = order.subrange(run.first as int, run.end as int);
            assert forall|k: Seq<u8>| #[trigger] found@.contains_key(k) <==> prefix::starts_with(
                k,
                wanted@,
            ) && visible_version(versions_of(self@.versions, k), snapshot.0) is Some by {
                if all.contains(k) {
                    let i = choose|i: int| 0 <= i < all.len() && all[i] == k;
                    assert(prefix::starts_with(order[run.first + i], wanted@));
                }
                if prefix::starts_with(k, wanted@) && visible_version(
                    versions_of(self@.versions, k),
                    snapshot.0,
                ) is Some {
                    assert(self.versions@.contains_key(k));
                    let at = key_map::lemma_placed(&self.versions, k);
                    assert(prefix::starts_with(order[at], wanted@));
                    assert(all[at - run.first] == k);
                }
            }
        }
        found
    }
}

/// Whether an index at a timestamp agrees with the newest version of a key: it names the version's
/// page if the version is live and not newer, and names nothing for a key without versions.
pub open spec fn key_matches(versions: Seq<VersionView>, found: Option<u64>, timestamp: u64) -> bool {
    if versions.len() == 0 {
        found is None
    } else if versions.last().timestamp <= timestamp {
        found == (if versions.last().value is Some {
            Some(versions.last().page)
        } else {
            None
        })
    } else {
        true
    }
}

/// Whether an index at a timestamp agrees with the newest version of every key.
pub open spec fn index_matches(
    versions: Map<Seq<u8>, Seq<VersionView>>,
    entries: Seq<EntryView>,
    timestamp: u64,
) -> bool {
    forall|k: Seq<u8>|
        key_matches(versions_of(versions, k), #[trigger] model::find(entries, k), timestamp)
}

impl State {
    /// Checks that an index agrees with the newest version of every key.
    pub fn check_index(&self, entries: &Vec<IndexEntry>, timestamp: Timestamp) -> (agrees: bool)
        requires
            self.wf(),
            node::keys_rise(node::entry_views(entries@)),
        ensures
            agrees == index_matches(self@.versions, node::entry_views(entries@), timestamp.0),
    {
        let ghost views = node::entry_views(entries@);
        let mut index: usize = 0;
        while index < entries.len()
            invariant
                index <= entries@.len(),
                views == node::entry_views(entries@),
                node::keys_rise(views),
                self.wf(),
                forall|i: int|
                    0 <= i < index ==> self@.versions.contains_key((#[trigger] views[i]).key),
            decreases entries@.len() - index,
        {
            assert(views[index as int] == entries@[index as int]@);
            if !self.versions.contains(entries[index].key.as_slice()) {
                proof {
                    let k = views[index as int].key;
                    model::lemma_find_at(views, index as int);
                    assert(versions_of(self@.versions, k) =~= Seq::empty());
                    assert(!key_matches(
                        versions_of(self@.versions, k),
                        model::find(views, k),
                        timestamp.0,
                    ));
                }
                return false;
            }
            index = index + 1;
        }
        let ghost order = self.versions.order();
        let mut at: usize = 0;
        while at < self.versions.len()
            invariant
                at <= order.len(),
                order == self.versions.order(),
                views == node::entry_views(entries@),
                node::keys_rise(views),
                self.wf(),
                forall|i: int|
                    0 <= i < at ==> key_matches(
                        versions_of(self@.versions, #[trigger] order[i]),
                        model::find(views, order[i]),
                        timestamp.0,
                    ),
            decreases order.len() - at,
        {
            let current = self.versions.key_at(at);
            let versions = self.versions.value_at(at);
            let count: usize = versions.len();
            let (place, present): (usize, bool) = search(entries, current.as_slice());
            let ghost listed = version_views(versions@);
            proof {
                key_map::lemma_at(&self.versions, at as int);
                assert(versions_of(self@.versions, current@) == listed);
                if present {
                    assert(views[place as int] == entries@[place as int]@);
                    model::lemma_find_at(views, place as int);
                } else {
                    assert forall|i: int| 0 <= i < views.len() implies (#[trigger] views[i]).key
                        != current@ by {
                        assert(views[i] == entries@[i]@);
                        crate::index::key::lemma_key_irreflexive(current@);
                    }
                    model::lemma_find_absent(views, current@);
                }
            }
            let page: Option<PageId> = if present {
                Some(entries[place].value)
            } else {
                None
            };
            let agrees = if count == 0 {
                page.is_none()
            } else {
                let newest = &versions[count - 1];
                assert(listed.last() == newest@);
                if newest.timestamp.0 <= timestamp.0 {
                    match page {
                        Some(page_id) => newest.value.is_some() && newest.page_id.0 == page_id.0,
                        None => newest.value.is_none(),
                    }
                } else {
                    true
                }
            };
            if !agrees {
                assert(!key_matches(listed, model::find(views, current@), timestamp.0));
                return false;
            }
            at = at + 1;
        }
        proof {
            assert forall|k: Seq<u8>|
                key_matches(
                    versions_of(self@.versions, k),
                    #[trigger] model::find(views, k),
                    timestamp.0,
                ) by {
                if self@.versions.contains_key(k) {
                    let i = key_map::lemma_placed(&self.versions, k);
                    assert(order[i] == k);
                } else if model::find(views, k) is Some {
                    let i = model::lemma_find_some(views, k);
                    assert(self@.versions.contains_key(views[i].key));
                }
            }
        }
        true
    }

    /// Gives all index generations up.
    pub(crate) fn forget_generations(&mut self)
        requires
            old(self).wf(),
        ensures
            final(self).wf(),
            final(self)@ == (StateView { generations: Seq::empty(), ..old(self)@ }),
    {
        self.generations = Vec::new();
        assert(self@.generations =~= Seq::empty());
    }

    /// Marks every key as changed.
    pub(crate) fn mark_all_dirty(&mut self)
        requires
            old(self).wf(),
        ensures
            final(self).wf(),
            final(self)@ == (StateView { dirty: old(self)@.versions.dom(), ..old(self)@ }),
    {
        let mut all: KeyMap<()> = KeyMap::new();
        let ghost order = self.versions.order();
        let mut index: usize = 0;
        while index < self.versions.len()
            invariant
                self.wf(),
                *self == *old(self),
                order == self.versions.order(),
                index <= order.len(),
                all.wf(),
                all.order() == order.take(index as int),
            decreases order.len() - index,
        {
            let current = self.versions.key_at(index);
            proof {
                if index > 0 {
                    assert(all.order().last() == order[index - 1]);
                    assert(crate::index::key::key_lt(order[index - 1], order[index as int]));
                }
            }
            all.push(copy_bytes(current.as_slice()), ());
            assert(all.order() =~= order.take(index + 1));
            index = index + 1;
        }
        proof {
            assert(order.take(index as int) =~= order);
            key_map::lemma_order(&self.versions);
            key_map::lemma_order(&all);
            assert(all@.dom() =~= self@.versions.dom()) by {
                assert forall|k: Seq<u8>| all@.dom().contains(k) == self@.versions.dom().contains(
                    k,
                ) by {
                    assert(all@.contains_key(k) <==> order.contains(k));
                    assert(self.versions@.contains_key(k) <==> order.contains(k));
                }
            }
        }
        self.dirty_keys = all;
    }
}

impl State {
    /// Whether some key has versions that the newest generation may not cover.
    pub fn has_dirty_keys(&self) -> (dirty: bool)
        requires
            self.wf(),
        ensures
            dirty == exists|k: Seq<u8>| self@.dirty.contains(k),
    {
        let count: usize = self.dirty_keys.len();
        proof {
            if count > 0 {
                key_map::lemma_at(&self.dirty_keys, 0);
                assert(self@.dirty.contains(self.dirty_keys.order()[0]));
            }
            if exists|k: Seq<u8>| self@.dirty.contains(k) {
                let k = choose|k: Seq<u8>| self@.dirty.contains(k);
                assert(self.dirty_keys@.contains_key(k));
                let at = key_map::lemma_placed(&self.dirty_keys, k);
            }
        }
        count > 0
    }
}

} // verus!
