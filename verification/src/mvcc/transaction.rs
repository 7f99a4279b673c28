//! Transactions: private writes over a snapshot.
use crate::bytes::copy_bytes;
use crate::index::key;
use crate::mvcc::database;
use crate::mvcc::database::{CommitResult, MvccDatabase};
use crate::mvcc::error::{TransactionError, TransactionErrorView};
use crate::mvcc::history;
use crate::mvcc::history::DatabaseView;
use crate::mvcc::isolation;
use crate::mvcc::key_map;
use crate::mvcc::key_map::KeyMap;
use crate::mvcc::prefix;
use crate::mvcc::prefix::{has_prefix, prefix_run};
use crate::mvcc::record;
use crate::mvcc::record::{copy_value, Timestamp, TransactionId, VersionRecord};
use crate::mvcc::restart;
use crate::mvcc::runs;
use crate::mvcc::state;
use crate::mvcc::state::{ActiveSnapshot, StateView, WriteView};
use crate::storage::page::MAX_PAGE_PAYLOAD;
use vstd::prelude::*;

verus! {

/// A transaction: a snapshot of the database, and writes that only it sees until it commits.
pub struct Transaction {
    id: TransactionId,
    snapshot: Timestamp,
    writes: KeyMap<Option<Vec<u8>>>,
    scanned_prefixes: Vec<Vec<u8>>,
    range_protected: bool,
    finished: bool,
}

#[verifier::ext_equal]
pub struct TransactionView {
    pub id: u64,
    pub snapshot: u64,
    /// The keys written so far and their new values.
    pub writes: Map<Seq<u8>, Option<Seq<u8>>>,
    /// The prefixes scanned while scans were protected.
    pub scanned: Seq<Seq<u8>>,
    pub range_protected: bool,
    pub finished: bool,
}

pub open spec fn value_map(writes: Map<Seq<u8>, Option<Vec<u8>>>) -> Map<
    Seq<u8>,
    Option<Seq<u8>>,
> {
    Map::new(|k: Seq<u8>| writes.contains_key(k), |k: Seq<u8>| record::value_view(writes[k]))
}

impl View for Transaction {
    type V = TransactionView;

    closed spec fn view(&self) -> TransactionView {
        TransactionView {
            id: self.id.0,
            snapshot: self.snapshot.0,
            writes: value_map(self.writes@),
            scanned: key_map::byte_views(self.scanned_prefixes@),
            range_protected: self.range_protected,
            finished: self.finished,
        }
    }
}

/// Whether a transaction that is not finished is one of the running ones of a database.
pub open spec fn runs_in(transaction: TransactionView, state: StateView) -> bool {
    transaction.finished || exists|i: int|
        0 <= i < state.active.len() && (#[trigger] state.active[i]).id.0 == transaction.id
            && state.active[i].snapshot.0 == transaction.snapshot
}

/// What a transaction sees of a key: its own write, or else the value at its snapshot.
pub open spec fn seen(transaction: TransactionView, db: DatabaseView, k: Seq<u8>) -> Option<
    Seq<u8>,
> {
    if transaction.writes.contains_key(k) {
        transaction.writes[k]
    } else {
        history::value_at(db.history, k, transaction.snapshot)
    }
}

/// The snapshot of a running transaction is in use.
pub proof fn lemma_snapshot_in_use(transaction: TransactionView, state: StateView)
    requires
        runs_in(transaction, state),
        !transaction.finished,
        history::clock_kept(state),
    ensures
        state.oldest() <= transaction.snapshot <= state.visible,
{
    history::lemma_oldest(state.active, state.visible);
    let i = choose|i: int|
        0 <= i < state.active.len() && (#[trigger] state.active[i]).id.0 == transaction.id
            && state.active[i].snapshot.0 == transaction.snapshot;
    assert(state.oldest() <= state.active[i].snapshot.0);
}

/// A transaction sees the last value that it wrote to a key, nothing where it deleted the key, and of a key
/// that it did not write the value of the last commit that is not newer than its snapshot.
pub proof fn law_own_writes_come_first(
    transaction: TransactionView,
    db: DatabaseView,
    k: Seq<u8>,
    value: Option<Seq<u8>>,
    other: Seq<u8>,
    at: int,
)
    requires
        history::versions_rise(state::versions_of(db.history, k)),
    ensures
        ({
            let wrote = TransactionView {
                writes: transaction.writes.insert(k, value),
                ..transaction
            };
            &&& seen(wrote, db, k) == value
            &&& other != k ==> seen(wrote, db, other) == seen(transaction, db, other)
        }),
        ({
            let versions = state::versions_of(db.history, k);
            &&& !transaction.writes.contains_key(k) && 0 <= at < versions.len()
                && versions[at].timestamp <= transaction.snapshot && (at + 1 == versions.len()
                || versions[at + 1].timestamp > transaction.snapshot) ==> seen(transaction, db, k)
                == versions[at].value
            &&& !transaction.writes.contains_key(k) && (forall|i: int|
                0 <= i < versions.len() ==> (#[trigger] versions[i]).timestamp
                    > transaction.snapshot) ==> seen(transaction, db, k) is None
        }),
{
    isolation::law_snapshots_see_the_last_version(db.history, k, transaction.snapshot, at);
}

/// Reads are repeatable: a commit of another transaction changes nothing for a snapshot before it.
pub proof fn law_reads_are_repeatable(
    before: DatabaseView,
    after: DatabaseView,
    id: u64,
    writes: Seq<WriteView>,
    page_ids: Seq<u64>,
    transaction: TransactionView,
    k: Seq<u8>,
)
    requires
        history::in_order(before),
        history::is_commit(before, after, id, writes, page_ids),
        state::write_keys(writes).no_duplicates(),
        history::writable(before.history, writes, before.state.next_commit_timestamp),
        runs_in(transaction, before.state),
        !transaction.finished,
    ensures
        seen(transaction, after, k) == seen(transaction, before, k),
{
    lemma_snapshot_in_use(transaction, before.state);
    assert(history::key_kept(before, k));
    history::law_commit_is_atomic(
        before.history,
        writes,
        page_ids,
        before.state.next_commit_timestamp,
        k,
        transaction.snapshot,
    );
}

/// The prefixes that a transaction watches once it scanned one more: a prefix that another covers
/// is not added, and one that is added takes the place of those that it covers.
pub open spec fn scanned_with(scanned: Seq<Seq<u8>>, p: Seq<u8>) -> Seq<Seq<u8>> {
    if exists|i: int| 0 <= i < scanned.len() && prefix::starts_with(p, #[trigger] scanned[i]) {
        scanned
    } else {
        not_under(scanned, p).push(p)
    }
}

/// The prefixes that do not start with a given one.
pub open spec fn not_under(scanned: Seq<Seq<u8>>, p: Seq<u8>) -> Seq<Seq<u8>>
    decreases scanned.len(),
{
    if scanned.len() == 0 {
        Seq::empty()
    } else {
        let rest = not_under(scanned.drop_last(), p);
        if prefix::starts_with(scanned.last(), p) {
            rest
        } else {
            rest.push(scanned.last())
        }
    }
}

/// Whether one of the prefixes covers a key.
pub open spec fn watches(scanned: Seq<Seq<u8>>, k: Seq<u8>) -> bool {
    exists|i: int| 0 <= i < scanned.len() && prefix::starts_with(k, #[trigger] scanned[i])
}

proof fn lemma_prefix_transitive(k: Seq<u8>, p: Seq<u8>, q: Seq<u8>)
    requires
        prefix::starts_with(k, p),
        prefix::starts_with(p, q),
    ensures
        prefix::starts_with(k, q),
{
    let head = k.subrange(0, q.len() as int);
    assert forall|i: int| 0 <= i < q.len() implies head[i] == q[i] by {
        assert(k.subrange(0, p.len() as int)[i] == p[i]);
        assert(p.subrange(0, q.len() as int)[i] == q[i]);
    }
    assert(head =~= q);
}

proof fn lemma_not_under(scanned: Seq<Seq<u8>>, p: Seq<u8>, k: Seq<u8>)
    ensures
        watches(scanned, k) ==> watches(not_under(scanned, p), k) || prefix::starts_with(k, p),
        watches(not_under(scanned, p), k) ==> watches(scanned, k),
    decreases scanned.len(),
{
    if scanned.len() > 0 {
        let head = scanned.drop_last();
        let rest = not_under(head, p);
        let all = not_under(scanned, p);
        lemma_not_under(head, p, k);
        if watches(scanned, k) {
            let i = choose|i: int|
                0 <= i < scanned.len() && prefix::starts_with(k, #[trigger] scanned[i]);
            if i < head.len() {
                assert(head[i] == scanned[i]);
                assert(watches(head, k));
                if watches(rest, k) {
                    let j = choose|j: int|
                        0 <= j < rest.len() && prefix::starts_with(k, #[trigger] rest[j]);
                    assert(all[j] == rest[j]);
                }
            } else if prefix::starts_with(scanned.last(), p) {
                lemma_prefix_transitive(k, scanned.last(), p);
            } else {
                assert(all[rest.len() as int] == scanned.last());
            }
        }
        if watches(all, k) {
            let j = choose|j: int| 0 <= j < all.len() && prefix::starts_with(k, #[trigger] all[j]);
            if j < rest.len() {
                assert(rest[j] == all[j]);
                assert(watches(rest, k));
                let i = choose|i: int|
                    0 <= i < head.len() && prefix::starts_with(k, #[trigger] head[i]);
                assert(scanned[i] == head[i]);
            } else {
                assert(scanned[scanned.len() - 1] == all[j]);
            }
        }
    }
}

/// Watching one more prefix watches exactly its keys besides those watched before.
pub proof fn law_scans_are_watched(scanned: Seq<Seq<u8>>, p: Seq<u8>, k: Seq<u8>)
    ensures
        watches(scanned_with(scanned, p), k) <==> watches(scanned, k) || prefix::starts_with(k, p),
{
    let all = scanned_with(scanned, p);
    if exists|i: int| 0 <= i < scanned.len() && prefix::starts_with(p, #[trigger] scanned[i]) {
        let i = choose|i: int|
            0 <= i < scanned.len() && prefix::starts_with(p, #[trigger] scanned[i]);
        if prefix::starts_with(k, p) {
            lemma_prefix_transitive(k, p, scanned[i]);
        }
    } else {
        let rest = not_under(scanned, p);
        lemma_not_under(scanned, p, k);
        if watches(rest, k) {
            let j = choose|j: int|
                0 <= j < rest.len() && prefix::starts_with(k, #[trigger] rest[j]);
            assert(all[j] == rest[j]);
        }
        assert(all[rest.len() as int] == p);
        if watches(all, k) {
            let j = choose|j: int| 0 <= j < all.len() && prefix::starts_with(k, #[trigger] all[j]);
            if j < rest.len() {
                assert(rest[j] == all[j]);
            }
        }
    }
}

impl MvccDatabase {
    /// Begins a transaction on what is visible now.
    pub fn begin(&mut self) -> (begun: Result<Transaction, TransactionError>)
        requires
            old(self).wf(),
        ensures
            final(self).wf(),
            match begun {
                Ok(transaction) => {
                    &&& transaction.wf()
                    &&& old(self)@.state.next_transaction_id < u64::MAX
                    &&& transaction@ == (TransactionView {
                        id: old(self)@.state.next_transaction_id,
                        snapshot: old(self)@.state.visible,
                        writes: Map::empty(),
                        scanned: Seq::empty(),
                        range_protected: false,
                        finished: false,
                    })
                    &&& runs_in(transaction@, final(self)@.state)
                    &&& final(self)@ == (DatabaseView {
                        state: StateView {
                            next_transaction_id: (old(self)@.state.next_transaction_id + 1) as u64,
                            active: old(self)@.state.active.push(
                                ActiveSnapshot {
                                    id: TransactionId(transaction@.id),
                                    snapshot: Timestamp(transaction@.snapshot),
                                },
                            ),
                            ..old(self)@.state
                        },
                        ..old(self)@
                    })
                },
                Err(error) => {
                    &&& old(self)@.state.next_transaction_id == u64::MAX
                    &&& error@ == TransactionErrorView::TransactionIdExhausted
                    &&& final(self)@ == old(self)@
                },
            },
    {
        let ghost before = self@;
        match self.begin_snapshot() {
            Err(error) => Err(error),
            Ok(begun) => {
                let transaction = Transaction {
                    id: begun.id,
                    snapshot: begun.snapshot,
                    writes: KeyMap::new(),
                    scanned_prefixes: Vec::new(),
                    range_protected: false,
                    finished: false,
                };
                proof {
                    assert(transaction@.writes =~= Map::empty());
                    assert(transaction@.scanned =~= Seq::empty());
                    let active = self@.state.active;
                    assert(active[before.state.active.len() as int] == begun);
                }
                Ok(transaction)
            },
        }
    }
}

impl Transaction {
    pub closed spec fn wf(&self) -> bool {
        self.writes.wf()
    }

    /// The transaction's number.
    pub fn id(&self) -> (id: TransactionId)
        ensures
            id.0 == self@.id,
    {
        self.id
    }

    /// The newest commit that the transaction sees.
    pub fn snapshot(&self) -> (snapshot: Timestamp)
        ensures
            snapshot.0 == self@.snapshot,
    {
        self.snapshot
    }

    /// The value of a key: the transaction's own, or the one at its snapshot.
    pub fn get(&self, db: &mut MvccDatabase, wanted: &[u8]) -> (value: Result<
        Option<Vec<u8>>,
        TransactionError,
    >)
        requires
            self.wf(),
            old(db).wf(),
            runs_in(self@, old(db)@.state),
        ensures
            final(db).wf(),
            final(db)@ == old(db)@,
            if self@.finished {
                value matches Err(error) && error@ == TransactionErrorView::Inactive
            } else {
                value matches Ok(value) && record::value_view(value) == seen(
                    self@,
                    old(db)@,
                    wanted@,
                )
            },
    {
        if self.finished {
            return Err(TransactionError::Inactive);
        }
        if let Some(value) = self.writes.get(wanted) {
            return Ok(copy_value(value));
        }
        proof {
            db.lemma_in_order();
            lemma_snapshot_in_use(self@, db@.state);
        }
        db.read(wanted, self.snapshot)
    }

    /// Gives a key a value within the transaction.
    pub fn put(&mut self, new_key: Vec<u8>, value: Vec<u8>) -> (done: Result<(), TransactionError>)
        requires
            old(self).wf(),
        ensures
            final(self).wf(),
            if old(self)@.finished {
                &&& done matches Err(error)
                &&& error@ == TransactionErrorView::Inactive
                &&& final(self)@ == old(self)@
            } else {
                match done {
                    Ok(_) => {
                        &&& record::record_size(new_key@, Some(value@)) <= MAX_PAGE_PAYLOAD
                        &&& final(self)@ == (TransactionView {
                            writes: old(self)@.writes.insert(new_key@, Some(value@)),
                            ..old(self)@
                        })
                    },
                    Err(error) => {
                        &&& record::record_size(new_key@, Some(value@)) > MAX_PAGE_PAYLOAD
                        &&& error@ == record::record_too_large(new_key@, Some(value@))
                        &&& final(self)@ == old(self)@
                    },
                }
            },
    {
        if self.finished {
            return Err(TransactionError::Inactive);
        }
        match VersionRecord::validate_size(new_key.as_slice(), Some(value.as_slice())) {
            Ok(_) => {},
            Err(error) => {
                return Err(error);
            },
        }
        let ghost before = self.writes@;
        let ghost k = new_key@;
        let ghost v = value@;
        self.writes.insert(new_key, Some(value));
        assert(self@.writes =~= value_map(before).insert(k, Some(v)));
        Ok(())
    }

    /// Removes a key within the transaction.
    pub fn delete(&mut self, old_key: Vec<u8>) -> (done: Result<(), TransactionError>)
        requires
            old(self).wf(),
        ensures
            final(self).wf(),
            if old(self)@.finished {
                &&& done matches Err(error)
                &&& error@ == TransactionErrorView::Inactive
                &&& final(self)@ == old(self)@
            } else {
                match done {
                    Ok(_) => {
                        &&& record::record_size(old_key@, None) <= MAX_PAGE_PAYLOAD
                        &&& final(self)@ == (TransactionView {
                            writes: old(self)@.writes.insert(old_key@, None),
                            ..old(self)@
                        })
                    },
                    Err(error) => {
                        &&& record::record_size(old_key@, None) > MAX_PAGE_PAYLOAD
                        &&& error@ == record::record_too_large(old_key@, None)
                        &&& final(self)@ == old(self)@
                    },
                }
            },
    {
        if self.finished {
            return Err(TransactionError::Inactive);
        }
        match VersionRecord::validate_size(old_key.as_slice(), None) {
            Ok(_) => {},
            Err(error) => {
                return Err(error);
            },
        }
        let ghost before = self.writes@;
        let ghost k = old_key@;
        self.writes.insert(old_key, None);
        assert(self@.writes =~= value_map(before).insert(k, None));
        Ok(())
    }

    /// Watches scanned prefixes from now on: the transaction will not commit writes if another
    /// commits anything under one of them first.
    pub fn protect_scans(&mut self)
        requires
            old(self).wf(),
        ensures
            final(self).wf(),
            final(self)@ == (TransactionView { range_protected: true, ..old(self)@ }),
    {
        self.range_protected = true;
    }

    /// Watches a prefix.
    fn watch(&mut self, wanted: &[u8])
        requires
            old(self).wf(),
        ensures
            final(self).wf(),
            final(self)@ == (TransactionView {
                scanned: scanned_with(old(self)@.scanned, wanted@),
                ..old(self)@
            }),
    {
        let ghost all = key_map::byte_views(self.scanned_prefixes@);
        let mut index: usize = 0;
        while index < self.scanned_prefixes.len()
            invariant
                index <= all.len(),
                all == key_map::byte_views(self.scanned_prefixes@),
                *self == *old(self),
                self.wf(),
                forall|i: int| 0 <= i < index ==> !prefix::starts_with(wanted@, #[trigger] all[i]),
            decreases all.len() - index,
        {
            assert(all[index as int] == self.scanned_prefixes@[index as int]@);
            if has_prefix(wanted, self.scanned_prefixes[index].as_slice()) {
                return;
            }
            index = index + 1;
        }
        let mut kept: Vec<Vec<u8>> = Vec::new();
        let mut at: usize = 0;
        assert(all.take(0) =~= Seq::empty());
        assert(key_map::byte_views(kept@) =~= Seq::empty());
        while at < self.scanned_prefixes.len()
            invariant
                at <= all.len(),
                all == key_map::byte_views(self.scanned_prefixes@),
                *self == *old(self),
                self.wf(),
                key_map::byte_views(kept@) == not_under(all.take(at as int), wanted@),
            decreases all.len() - at,
        {
            let ghost before = key_map::byte_views(kept@);
            proof {
                let more = all.take(at + 1);
                assert(more.drop_last() =~= all.take(at as int));
                assert(more.last() == self.scanned_prefixes@[at as int]@);
            }
            if !has_prefix(self.scanned_prefixes[at].as_slice(), wanted) {
                let copy = copy_bytes(self.scanned_prefixes[at].as_slice());
                kept.push(copy);
                assert(key_map::byte_views(kept@) =~= before.push(copy@));
            }
            at = at + 1;
        }
        assert(all.take(at as int) =~= all);
        let ghost before = key_map::byte_views(kept@);
        let copy = copy_bytes(wanted);
        kept.push(copy);
        assert(key_map::byte_views(kept@) =~= before.push(wanted@));
        self.scanned_prefixes = kept;
    }
}

/// A key and its value.
#[verifier::ext_equal]
pub struct RowView {
    pub key: Seq<u8>,
    pub value: Seq<u8>,
}

pub open spec fn row_views(rows: Seq<(Vec<u8>, Vec<u8>)>) -> Seq<RowView> {
    Seq::new(rows.len(), |i: int| RowView { key: rows[i].0@, value: rows[i].1@ })
}

/// Whether rows are the keys under a prefix that a transaction sees, with their values, in order.
pub open spec fn is_scan(
    transaction: TransactionView,
    db: DatabaseView,
    p: Seq<u8>,
    rows: Seq<RowView>,
) -> bool {
    &&& forall|i: int, j: int|
        0 <= i < j < rows.len() ==> key::key_lt(
            (#[trigger] rows[i]).key,
            (#[trigger] rows[j]).key,
        )
    &&& forall|i: int|
        0 <= i < rows.len() ==> prefix::starts_with((#[trigger] rows[i]).key, p) && seen(
            transaction,
            db,
            rows[i].key,
        ) == Some(rows[i].value)
    &&& forall|k: Seq<u8>|
        prefix::starts_with(k, p) && #[trigger] seen(transaction, db, k) is Some ==> exists|i: int|
            0 <= i < rows.len() && (#[trigger] rows[i]).key == k
}

/// The values of a map's keys that have one, in key order.
fn present_rows(map: KeyMap<Option<Vec<u8>>>) -> (rows: Vec<(Vec<u8>, Vec<u8>)>)
    requires
        map.wf(),
    ensures
        forall|i: int, j: int|
            0 <= i < j < rows@.len() ==> key::key_lt(
                (#[trigger] row_views(rows@)[i]).key,
                (#[trigger] row_views(rows@)[j]).key,
            ),
        forall|i: int|
            0 <= i < rows@.len() ==> map@.contains_key((#[trigger] row_views(rows@)[i]).key)
                && record::value_view(map@[row_views(rows@)[i].key]) == Some(
                row_views(rows@)[i].value,
            ),
        forall|k: Seq<u8>| #[trigger]
            map@.contains_key(k) && map@[k] is Some ==> exists|i: int|
                0 <= i < rows@.len() && (#[trigger] row_views(rows@)[i]).key == k,
{
    let ghost order = map.order();
    let mut rows: Vec<(Vec<u8>, Vec<u8>)> = Vec::new();
    let mut index: usize = 0;
    while index < map.len()
        invariant
            map.wf(),
            order == map.order(),
            index <= order.len(),
            forall|i: int|
                0 <= i < rows@.len() ==> order.take(index as int).contains(
                    (#[trigger] row_views(rows@)[i]).key,
                ),
            forall|i: int, j: int|
                0 <= i < j < rows@.len() ==> key::key_lt(
                    (#[trigger] row_views(rows@)[i]).key,
                    (#[trigger] row_views(rows@)[j]).key,
                ),
            forall|i: int|
                0 <= i < rows@.len() ==> map@.contains_key((#[trigger] row_views(rows@)[i]).key)
                    && record::value_view(map@[row_views(rows@)[i].key]) == Some(
                    row_views(rows@)[i].value,
                ),
            forall|j: int|
                0 <= j < index && map@[#[trigger] order[j]] is Some ==> exists|i: int|
                    0 <= i < rows@.len() && (#[trigger] row_views(rows@)[i]).key == order[j],
        decreases order.len() - index,
    {
        let ghost before = row_views(rows@);
        let ghost part = order.take(index as int);
        let ghost more = order.take(index + 1);
        assert(more =~= part.push(order[index as int]));
        let current = map.key_at(index);
        if let Some(value) = map.value_at(index) {
            rows.push((copy_bytes(current.as_slice()), copy_bytes(value.as_slice())));
        }
        proof {
            let after = row_views(rows@);
            assert forall|i: int| 0 <= i < before.len() implies #[trigger] after[i]
                == before[i] by {}
            assert forall|i: int| 0 <= i < after.len() implies more.contains(
                (#[trigger] after[i]).key,
            ) by {
                if i < before.len() {
                    assert(part.contains(before[i].key));
                    let j = choose|j: int| 0 <= j < part.len() && part[j] == before[i].key;
                    assert(more[j] == after[i].key);
                } else {
                    assert(more[index as int] == after[i].key);
                }
            }
            assert forall|i: int, j: int| 0 <= i < j < after.len() implies key::key_lt(
                (#[trigger] after[i]).key,
                (#[trigger] after[j]).key,
            ) by {
                assert(after[i] == before[i]);
                if j < before.len() {
                    assert(after[j] == before[j]);
                } else {
                    assert(part.contains(before[i].key));
                    let m = choose|m: int| 0 <= m < part.len() && part[m] == before[i].key;
                    assert(order[m] == before[i].key);
                    assert(key::key_lt(order[m], order[index as int]));
                }
            }
            assert forall|j: int|
                0 <= j < index + 1 && map@[#[trigger] order[j]] is Some implies exists|i: int|
                0 <= i < after.len() && (#[trigger] after[i]).key == order[j] by {
                if j < index {
                    let i = choose|i: int|
                        0 <= i < before.len() && (#[trigger] before[i]).key == order[j];
                    assert(after[i].key == order[j]);
                } else {
                    assert(after[before.len() as int].key == order[j]);
                }
            }
        }
        index = index + 1;
    }
    proof {
        assert forall|k: Seq<u8>| #[trigger] map@.contains_key(k) && map@[k] is Some implies exists|
            i: int,
        |
            0 <= i < rows@.len() && (#[trigger] row_views(rows@)[i]).key == k by {
            let at = key_map::lemma_placed(&map, k);
            assert(order[at] == k);
        }
    }
    rows
}

impl Transaction {
    /// The keys under a prefix with their values, in key order, as the transaction sees them.
    pub fn scan_prefix(&mut self, db: &mut MvccDatabase, wanted: &[u8]) -> (rows: Result<
        Vec<(Vec<u8>, Vec<u8>)>,
        TransactionError,
    >)
        requires
            old(self).wf(),
            old(db).wf(),
            runs_in(old(self)@, old(db)@.state),
        ensures
            final(self).wf(),
            final(db).wf(),
            final(db)@ == old(db)@,
            if old(self)@.finished {
                &&& rows matches Err(error)
                &&& error@ == TransactionErrorView::Inactive
                &&& final(self)@ == old(self)@
            } else {
                &&& final(self)@ == (TransactionView {
                    scanned: if old(self)@.range_protected {
                        scanned_with(old(self)@.scanned, wanted@)
                    } else {
                        old(self)@.scanned
                    },
                    ..old(self)@
                })
                &&& match rows {
                    Ok(rows) => is_scan(old(self)@, old(db)@, wanted@, row_views(rows@)),
                    Err(error) => database::index_too_long(old(db)@.state) && error@
                        == TransactionErrorView::Index(
                        crate::index::error::IndexErrorView::EntryCountOverflow,
                    ),
                }
            },
    {
        if self.finished {
            return Err(TransactionError::Inactive);
        }
        if self.range_protected {
            self.watch(wanted);
        }
        let ghost view = self@;
        proof {
            db.lemma_in_order();
            lemma_snapshot_in_use(old(self)@, db@.state);
        }
        let mut found = match db.scan(wanted, self.snapshot) {
            Ok(found) => found,
            Err(error) => {
                return Err(error);
            },
        };
        let ghost below = found@;
        let run = prefix_run(&self.writes, wanted);
        let ghost order = self.writes.order();
        let ghost own = self.writes@;
        let mut index: usize = run.first;
        while index < run.end
            invariant
                self.wf(),
                own == self.writes@,
                order == self.writes.order(),
                run.first <= index <= run.end <= order.len(),
                found.wf(),
                forall|i: int|
                    0 <= i < order.len() ==> (run.first <= i < run.end <==> prefix::starts_with(
                        #[trigger] order[i],
                        wanted@,
                    )),
                forall|k: Seq<u8>| #[trigger]
                    found@.contains_key(k) <==> below.contains_key(k) || exists|i: int|
                        run.first <= i < index && #[trigger] order[i] == k,
                forall|k: Seq<u8>| #[trigger]
                    found@.contains_key(k) ==> record::value_view(found@[k]) == (if exists|i: int|
                        run.first <= i < index && #[trigger] order[i] == k {
                        record::value_view(own[k])
                    } else {
                        record::value_view(below[k])
                    }),
            decreases run.end - index,
        {
            let current = self.writes.key_at(index);
            let value = self.writes.value_at(index);
            let ghost before = found@;
            found.insert(copy_bytes(current.as_slice()), copy_value(value));
            proof {
                key_map::lemma_rise_distinct(order);
                assert forall|k: Seq<u8>| #[trigger] found@.contains_key(k)
                    <==> below.contains_key(k) || exists|i: int|
                    run.first <= i < index + 1 && #[trigger] order[i] == k by {
                    assert(found@.contains_key(k) <==> before.contains_key(k) || k == current@);
                    assert(order[index as int] == current@);
                }
                assert forall|k: Seq<u8>| #[trigger]
                    found@.contains_key(k) implies record::value_view(found@[k]) == (if exists|
                    i: int,
                |
                    run.first <= i < index + 1 && #[trigger] order[i] == k {
                    record::value_view(own[k])
                } else {
                    record::value_view(below[k])
                }) by {
                    assert(order[index as int] == current@);
                    if k != current@ {
                        assert(before.contains_key(k));
                    }
                }
            }
            index = index + 1;
        }
        let ghost merged = found@;
        let rows = present_rows(found);
        proof {
            let all = row_views(rows@);
            assert forall|k: Seq<u8>| prefix::starts_with(k, wanted@) implies (
            #[trigger] merged.contains_key(k) ==> record::value_view(merged[k]) == seen(
                old(self)@,
                db@,
                k,
            )) && (!merged.contains_key(k) ==> seen(old(self)@, db@, k) is None) by {
                if own.contains_key(k) {
                    let at = key_map::lemma_placed(&self.writes, k);
                    assert(prefix::starts_with(order[at], wanted@));
                    assert(order[at] == k);
                    assert(merged.contains_key(k));
                } else {
                    assert(!(exists|i: int| run.first <= i < run.end && #[trigger] order[i] == k)) by {
                        if exists|i: int| run.first <= i < run.end && #[trigger] order[i] == k {
                            let i = choose|i: int|
                                run.first <= i < run.end && #[trigger] order[i] == k;
                            key_map::lemma_at(&self.writes, i);
                        }
                    }
                    assert(old(self)@.writes.contains_key(k) == own.contains_key(k));
                }
            }
            assert forall|k: Seq<u8>| #[trigger] merged.contains_key(k) implies prefix::starts_with(
                k,
                wanted@,
            ) by {
                if exists|i: int| run.first <= i < run.end && #[trigger] order[i] == k {
                    let i = choose|i: int| run.first <= i < run.end && #[trigger] order[i] == k;
                    assert(prefix::starts_with(order[i], wanted@));
                } else {
                    assert(below.contains_key(k));
                }
            }
            assert forall|i: int| 0 <= i < all.len() implies prefix::starts_with(
                (#[trigger] all[i]).key,
                wanted@,
            ) && seen(old(self)@, db@, all[i].key) == Some(all[i].value) by {
                assert(merged.contains_key(all[i].key));
            }
            assert forall|k: Seq<u8>|
                prefix::starts_with(k, wanted@) && #[trigger] seen(
                    old(self)@,
                    db@,
                    k,
                ) is Some implies exists|i: int|
                0 <= i < all.len() && (#[trigger] all[i]).key == k by {
                assert(merged.contains_key(k));
            }
        }
        Ok(rows)
    }

    /// The transaction's writes in key order.
    fn into_writes(self) -> (writes: Vec<(Vec<u8>, Option<Vec<u8>>)>)
        requires
            self.wf(),
        ensures
            is_write_list(self@.writes, state::write_views(writes@)),
    {
        let ghost order = self.writes.order();
        let ghost own = self.writes@;
        let mut rest = self.writes;
        let ghost items = rest.items();
        proof {
            key_map::lemma_order(&rest);
            assert forall|i: int| 0 <= i < order.len() implies own.contains_key(
                #[trigger] order[i],
            ) && own[order[i]] == items[i] by {
                key_map::lemma_at(&rest, i);
            }
        }
        let mut turned: Vec<(Vec<u8>, Option<Vec<u8>>)> = Vec::new();
        while rest.len() > 0
            invariant
                rest.wf(),
                rest.order() == order.take(rest.order().len() as int),
                rest.items() == items.take(rest.order().len() as int),
                rest.order().len() <= order.len() == items.len(),
                turned@.len() + rest.order().len() == order.len(),
                forall|i: int|
                    0 <= i < turned@.len() ==> (#[trigger] turned@[i]).0@ == order[order.len() - 1
                        - i] && turned@[i].1 == items[order.len() - 1 - i],
            decreases rest.order().len(),
        {
            match rest.pop() {
                Some(pair) => {
                    turned.push(pair);
                },
                None => {},
            }
        }
        let writes = crate::list::reversed(turned);
        proof {
            let views = state::write_views(writes@);
            assert forall|i: int| 0 <= i < views.len() implies (#[trigger] views[i]).key == order[i]
                && views[i].value == record::value_view(items[i]) by {
                assert(writes@[i] == turned@[order.len() - 1 - i]);
            }
            assert(state::write_keys(views) =~= order);
            key_map::lemma_rise_distinct(order);
            let map = value_map(own);
            assert forall|k: Seq<u8>| #[trigger] map.contains_key(k) <==> order.contains(k) by {
                assert(own.contains_key(k) <==> order.contains(k));
            }
        }
        writes
    }
}

impl Transaction {
    /// The same transaction once more, to go back to.
    pub(crate) fn duplicate(&self) -> (copy: Transaction)
        requires
            self.wf(),
        ensures
            copy.wf(),
            copy@ == self@,
    {
        let ghost own = self.writes@;
        let ghost order = self.writes.order();
        let ghost items = self.writes.items();
        let mut writes: KeyMap<Option<Vec<u8>>> = KeyMap::new();
        let mut index: usize = 0;
        proof {
            assert(writes.order() =~= order.take(0));
            assert(writes.items().len() == 0);
        }
        while index < self.writes.len()
            invariant
                self.writes.wf(),
                order == self.writes.order(),
                items == self.writes.items(),
                index <= order.len() == items.len(),
                writes.wf(),
                writes.order() == order.take(index as int),
                writes.items().len() == index,
                forall|i: int|
                    0 <= i < index ==> record::value_view(#[trigger] writes.items()[i])
                        == record::value_view(items[i]),
            decreases order.len() - index,
        {
            let found = copy_bytes(self.writes.key_at(index).as_slice());
            let value = copy_value(self.writes.value_at(index));
            proof {
                if index > 0 {
                    assert(writes.order().last() == order[index - 1]);
                    assert(key::key_lt(order[index - 1], order[index as int]));
                }
            }
            writes.push(found, value);
            assert(writes.order() =~= order.take(index + 1));
            index = index + 1;
        }
        let mut scanned_prefixes: Vec<Vec<u8>> = Vec::new();
        let mut at: usize = 0;
        while at < self.scanned_prefixes.len()
            invariant
                at <= self.scanned_prefixes@.len(),
                scanned_prefixes@.len() == at,
                forall|i: int|
                    0 <= i < at ==> (#[trigger] scanned_prefixes@[i])@
                        == self.scanned_prefixes@[i]@,
            decreases self.scanned_prefixes@.len() - at,
        {
            scanned_prefixes.push(copy_bytes(self.scanned_prefixes[at].as_slice()));
            at = at + 1;
        }
        proof {
            assert(order.take(index as int) =~= order);
            assert(value_map(writes@) =~= value_map(own)) by {
                assert forall|k: Seq<u8>| #[trigger] own.contains_key(k) implies writes@.contains_key(
                    k,
                ) && record::value_view(writes@[k]) == record::value_view(own[k]) by {
                    let i = key_map::lemma_placed(&self.writes, k);
                    key_map::lemma_at(&self.writes, i);
                    key_map::lemma_at(&writes, i);
                }
                assert forall|k: Seq<u8>| #[trigger] writes@.contains_key(k) implies own.contains_key(
                    k,
                ) by {
                    let i = key_map::lemma_placed(&writes, k);
                    key_map::lemma_at(&self.writes, i);
                }
            }
            assert(key_map::byte_views(scanned_prefixes@) =~= key_map::byte_views(
                self.scanned_prefixes@,
            ));
        }
        Transaction {
            id: self.id,
            snapshot: self.snapshot,
            writes,
            scanned_prefixes,
            range_protected: self.range_protected,
            finished: self.finished,
        }
    }
}

/// Whether writes are those of a map, each key once, in order.
pub open spec fn is_write_list(
    map: Map<Seq<u8>, Option<Seq<u8>>>,
    writes: Seq<WriteView>,
) -> bool {
    &&& key_map::is_order(map, state::write_keys(writes))
    &&& state::write_keys(writes).no_duplicates()
    &&& forall|i: int|
        0 <= i < writes.len() ==> map[(#[trigger] writes[i]).key] == writes[i].value
}

/// What committing a transaction does to a database.
pub open spec fn committed(
    transaction: TransactionView,
    before: DatabaseView,
    after: DatabaseView,
    result: Result<CommitResult, TransactionErrorView>,
) -> bool {
    after.state.active == before.state.active && exists|writes: Seq<WriteView>|
        #![trigger is_write_list(transaction.writes, writes)]
        is_write_list(transaction.writes, writes) && if writes.len() == 0 {
            &&& result == Ok::<CommitResult, TransactionErrorView>(
                CommitResult { timestamp: None, writes: 0 },
            )
            &&& after == before
        } else {
            match state::commit_refused(
                before.state,
                transaction.id,
                transaction.snapshot,
                state::write_keys(writes),
                transaction.scanned,
            ) {
                Some(refusal) => result == Err::<CommitResult, TransactionErrorView>(refusal)
                    && after == before,
                None => match result {
                    Ok(result) => {
                        &&& database::persists(
                            before.store,
                            writes,
                            before.state.next_commit_timestamp,
                        )
                        &&& result.timestamp == Some(
                            Timestamp(before.state.next_commit_timestamp),
                        )
                        &&& result.writes == writes.len()
                        &&& exists|pages: Seq<u64>| #[trigger]
                            history::is_commit(before, after, transaction.id, writes, pages)
                    },
                    Err(error) => {
                        &&& after.history == before.history
                        &&& !database::persists(
                            before.store,
                            writes,
                            before.state.next_commit_timestamp,
                        )
                        &&& database::persist_failed(
                            error,
                            writes,
                            before.state.next_commit_timestamp,
                            before.store,
                        )
                    },
                },
            }
        }
}

pub open spec fn commit_view(result: Result<CommitResult, TransactionError>) -> Result<
    CommitResult,
    TransactionErrorView,
> {
    match result {
        Ok(result) => Ok(result),
        Err(error) => Err(error@),
    }
}

/// A database without one of its running transactions.
pub open spec fn ended(db: DatabaseView, id: u64) -> DatabaseView {
    DatabaseView {
        state: StateView { active: state::active_without(db.state.active, id), ..db.state },
        ..db
    }
}

impl Transaction {
    /// Makes the writes part of the database, all at once, or none of them.
    pub fn commit(self, db: &mut MvccDatabase) -> (result: Result<CommitResult, TransactionError>)
        requires
            self.wf(),
            old(db).wf(),
            runs_in(self@, old(db)@.state),
        ensures
            final(db).wf(),
            if self@.finished {
                &&& commit_view(result) == Err::<CommitResult, TransactionErrorView>(
                    TransactionErrorView::Inactive,
                )
                &&& final(db)@ == old(db)@
            } else {
                exists|after: DatabaseView| #[trigger]
                    committed(self@, old(db)@, after, commit_view(result)) && final(db)@ == ended(
                        after,
                        self@.id,
                    )
            },
            runs::is_step(old(db)@, final(db)@),
            restart::pages_kept(old(db)@) && (result is Ok || !final(db)@.store.poisoned)
                ==> restart::pages_kept(final(db)@),
    {
        if self.finished {
            return Err(TransactionError::Inactive);
        }
        proof {
            db.lemma_in_order();
            lemma_snapshot_in_use(self@, db@.state);
        }
        let ghost view = self@;
        let ghost before = db@;
        let id = self.id;
        let snapshot = self.snapshot;
        let mut prefixes: Vec<Vec<u8>> = Vec::new();
        let mut index: usize = 0;
        while index < self.scanned_prefixes.len()
            invariant
                index <= self.scanned_prefixes@.len(),
                prefixes@.len() == index,
                forall|i: int|
                    0 <= i < index ==> (#[trigger] prefixes@[i])@ == self.scanned_prefixes@[i]@,
            decreases self.scanned_prefixes@.len() - index,
        {
            prefixes.push(copy_bytes(self.scanned_prefixes[index].as_slice()));
            index = index + 1;
        }
        assert(key_map::byte_views(prefixes@) =~= view.scanned);
        let writes = self.into_writes();
        let ghost list = state::write_views(writes@);
        let result = db.commit_writes(id, snapshot, writes, &prefixes);
        proof {
            assert(is_write_list(view.writes, list));
            assert(committed(view, before, db@, commit_view(result)));
        }
        let ghost done = db@;
        db.end_transaction(id);
        proof {
            if done.history != before.history {
                let (writes, pages, timestamp) = choose|
                    writes: Seq<WriteView>,
                    pages: Seq<u64>,
                    timestamp: u64,
                | #[trigger]
                    runs::joins_history(before, done, writes, pages, timestamp);
                assert(runs::joins_history(before, db@, writes, pages, timestamp));
            }
            if restart::pages_kept(done) {
                restart::lemma_pages_stay(done, db@);
            }
        }
        result
    }

    /// Gives the writes up.
    pub fn rollback(self, db: &mut MvccDatabase) -> (done: Result<(), TransactionError>)
        requires
            self.wf(),
            old(db).wf(),
        ensures
            final(db).wf(),
            if self@.finished {
                &&& done matches Err(error)
                &&& error@ == TransactionErrorView::Inactive
                &&& final(db)@ == old(db)@
            } else {
                &&& done is Ok
                &&& final(db)@ == ended(old(db)@, self@.id)
            },
    {
        if self.finished {
            return Err(TransactionError::Inactive);
        }
        db.end_transaction(self.id);
        Ok(())
    }
}

} // verus!
