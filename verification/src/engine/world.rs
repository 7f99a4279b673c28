//! The keys and values that a statement works on: what its transaction sees of the database.
use crate::engine::error::{failed, EngineErrorView, Stop, StopView};
use crate::index::error::IndexErrorView;
use crate::mvcc::database;
use crate::mvcc::database::MvccDatabase;
use crate::mvcc::error::TransactionErrorView;
use crate::mvcc::history::DatabaseView;
use crate::mvcc::key_map;
use crate::mvcc::prefix;
use crate::mvcc::record;
use crate::mvcc::transaction;
use crate::mvcc::transaction::{RowView, Transaction, TransactionView};
use crate::storage::page::MAX_PAGE_PAYLOAD;
use vstd::prelude::*;

verus! {

/// The keys that a transaction sees, with their values.
pub open spec fn world(transaction: TransactionView, db: DatabaseView) -> Map<Seq<u8>, Seq<u8>> {
    Map::new(
        |k: Seq<u8>| transaction::seen(transaction, db, k) is Some,
        |k: Seq<u8>| transaction::seen(transaction, db, k)->Some_0,
    )
}

/// The value of a key, if it has one.
pub open spec fn found(world: Map<Seq<u8>, Seq<u8>>, k: Seq<u8>) -> Option<Seq<u8>> {
    if world.contains_key(k) {
        Some(world[k])
    } else {
        None
    }
}

/// Whether a transaction runs on a database.
pub open spec fn live(transaction: &Transaction, db: &MvccDatabase) -> bool {
    &&& transaction.wf()
    &&& db.wf()
    &&& transaction::runs_in(transaction@, db@.state)
    &&& !transaction@.finished
}

/// Whether a transaction is still the same one, but for what it has written and scanned.
pub open spec fn continues(before: TransactionView, after: TransactionView) -> bool {
    &&& after.id == before.id
    &&& after.snapshot == before.snapshot
    &&& after.finished == before.finished
    &&& after.range_protected == before.range_protected
}

pub open spec fn too_large(k: Seq<u8>, v: Option<Seq<u8>>) -> StopView {
    StopView::Error(EngineErrorView::Transaction(record::record_too_large(k, v)))
}

/// A key given a value.
pub open spec fn put(world: Map<Seq<u8>, Seq<u8>>, k: Seq<u8>, v: Seq<u8>) -> Result<
    Map<Seq<u8>, Seq<u8>>,
    StopView,
> {
    if record::record_size(k, Some(v)) <= MAX_PAGE_PAYLOAD {
        Ok(world.insert(k, v))
    } else {
        Err(too_large(k, Some(v)))
    }
}

/// A key taken away.
pub open spec fn removed(world: Map<Seq<u8>, Seq<u8>>, k: Seq<u8>) -> Result<
    Map<Seq<u8>, Seq<u8>>,
    StopView,
> {
    if record::record_size(k, None) <= MAX_PAGE_PAYLOAD {
        Ok(world.remove(k))
    } else {
        Err(too_large(k, None))
    }
}

/// The keys with a prefix.
pub open spec fn under(world: Map<Seq<u8>, Seq<u8>>, p: Seq<u8>) -> Map<Seq<u8>, Seq<u8>> {
    Map::new(|k: Seq<u8>| world.contains_key(k) && prefix::starts_with(k, p), |k: Seq<u8>| world[k])
}

/// The keys with a prefix and their values, in key order.
pub open spec fn rows_under(world: Map<Seq<u8>, Seq<u8>>, p: Seq<u8>) -> Seq<RowView> {
    let keys = key_map::ordered_keys(under(world, p));
    Seq::new(keys.len(), |i: int| RowView { key: keys[i], value: world[keys[i]] })
}

/// The failure of a scan over an index that is too long for the machine.
pub open spec fn scan_stop() -> StopView {
    StopView::Error(
        EngineErrorView::Transaction(
            TransactionErrorView::Index(IndexErrorView::EntryCountOverflow),
        ),
    )
}

/// Whether a failure is that of a scan over an index that is too long for the machine.
pub open spec fn scan_failed(db: DatabaseView, stop: StopView) -> bool {
    stop == scan_stop() && database::index_too_long(db.state)
}

/// A scan gives the rows under a prefix.
proof fn lemma_scan(
    transaction: TransactionView,
    db: DatabaseView,
    p: Seq<u8>,
    rows: Seq<RowView>,
)
    requires
        transaction::is_scan(transaction, db, p, rows),
    ensures
        rows == rows_under(world(transaction, db), p),
{
    let all = world(transaction, db);
    let map = under(all, p);
    let keys = Seq::new(rows.len(), |i: int| rows[i].key);
    assert(key_map::is_order(map, keys)) by {
        assert forall|i: int, j: int| 0 <= i < j < keys.len() implies crate::index::key::key_lt(
            #[trigger] keys[i],
            #[trigger] keys[j],
        ) by {
            assert(keys[i] == rows[i].key && keys[j] == rows[j].key);
        }
        assert forall|k: Seq<u8>| #[trigger] map.contains_key(k) <==> keys.contains(k) by {
            if map.contains_key(k) {
                assert(transaction::seen(transaction, db, k) is Some);
                let i = choose|i: int| 0 <= i < rows.len() && (#[trigger] rows[i]).key == k;
                assert(keys[i] == k);
            }
            if keys.contains(k) {
                let i = keys.index_of(k);
                assert(rows[i].key == k);
            }
        }
    }
    key_map::lemma_order_unique(map, keys);
    assert(rows =~= rows_under(all, p)) by {
        assert forall|i: int| 0 <= i < rows.len() implies rows[i] == rows_under(all, p)[i] by {
            assert(rows[i].key == keys[i]);
            assert(transaction::seen(transaction, db, rows[i].key) == Some(rows[i].value));
        }
    }
}

/// The value of a key, if it has one.
pub(crate) fn read(transaction: &Transaction, db: &mut MvccDatabase, wanted: &[u8]) -> (value:
    Option<Vec<u8>>)
    requires
        live(transaction, old(db)),
    ensures
        final(db).wf(),
        final(db)@ == old(db)@,
        record::value_view(value) == found(world(transaction@, old(db)@), wanted@),
{
    match transaction.get(db, wanted) {
        Ok(value) => value,
        Err(_) => None,
    }
}

/// Gives a key a value.
pub(crate) fn store(
    transaction: &mut Transaction,
    db: &MvccDatabase,
    new_key: Vec<u8>,
    value: Vec<u8>,
) -> (done: Result<(), Stop>)
    requires
        live(old(transaction), db),
    ensures
        live(final(transaction), db),
        continues(old(transaction)@, final(transaction)@),
        match done {
            Ok(_) => put(world(old(transaction)@, db@), new_key@, value@) == Ok::<
                Map<Seq<u8>, Seq<u8>>,
                StopView,
            >(world(final(transaction)@, db@)),
            Err(stop) => put(world(old(transaction)@, db@), new_key@, value@) == Err::<
                Map<Seq<u8>, Seq<u8>>,
                StopView,
            >(stop@) && !(stop is Needs),
        },
{
    let ghost before = world(transaction@, db@);
    let ghost k = new_key@;
    let ghost v = value@;
    match transaction.put(new_key, value) {
        Ok(_) => {
            assert(world(transaction@, db@) =~= before.insert(k, v));
            Ok(())
        },
        Err(error) => Err(failed(error)),
    }
}

/// Takes a key away.
pub(crate) fn erase(
    transaction: &mut Transaction,
    db: &MvccDatabase,
    old_key: Vec<u8>,
) -> (done: Result<(), Stop>)
    requires
        live(old(transaction), db),
    ensures
        live(final(transaction), db),
        continues(old(transaction)@, final(transaction)@),
        match done {
            Ok(_) => removed(world(old(transaction)@, db@), old_key@) == Ok::<
                Map<Seq<u8>, Seq<u8>>,
                StopView,
            >(world(final(transaction)@, db@)),
            Err(stop) => removed(world(old(transaction)@, db@), old_key@) == Err::<
                Map<Seq<u8>, Seq<u8>>,
                StopView,
            >(stop@) && !(stop is Needs),
        },
{
    let ghost before = world(transaction@, db@);
    let ghost k = old_key@;
    match transaction.delete(old_key) {
        Ok(_) => {
            assert(world(transaction@, db@) =~= before.remove(k));
            Ok(())
        },
        Err(error) => Err(failed(error)),
    }
}

/// The keys with a prefix and their values, in key order.
pub(crate) fn scan(transaction: &mut Transaction, db: &mut MvccDatabase, wanted: &[u8]) -> (rows:
    Result<Vec<(Vec<u8>, Vec<u8>)>, Stop>)
    requires
        live(old(transaction), old(db)),
    ensures
        live(final(transaction), final(db)),
        final(db)@ == old(db)@,
        continues(old(transaction)@, final(transaction)@),
        world(final(transaction)@, final(db)@) == world(old(transaction)@, old(db)@),
        match rows {
            Ok(rows) => transaction::row_views(rows@) == rows_under(
                world(old(transaction)@, old(db)@),
                wanted@,
            ),
            Err(stop) => scan_failed(old(db)@, stop@) && !(stop is Needs),
        },
{
    let ghost before = transaction@;
    match transaction.scan_prefix(db, wanted) {
        Ok(rows) => {
            proof {
                lemma_scan(before, db@, wanted@, transaction::row_views(rows@));
                assert(world(transaction@, db@) =~= world(before, db@));
            }
            Ok(rows)
        },
        Err(error) => {
            assert(world(transaction@, db@) =~= world(before, db@));
            Err(failed(error))
        },
    }
}

} // verus!
