//! Version records, manifests, and transactions over them.
use quantadb::index::error::IndexError;
use quantadb::index::plan::IndexRoot;
use quantadb::mvcc::database::{MvccDatabase, MvccOptions};
use quantadb::mvcc::error::TransactionError;
use quantadb::mvcc::manifest::IndexGeneration;
use quantadb::mvcc::record::{Timestamp, VersionRecord};
use quantadb::mvcc::transaction::Transaction;
use quantadb::storage::page::{PageId, MAX_PAGE_PAYLOAD, PAGE_SIZE};
use quantadb::storage::group_commit::{GroupCommitHandle, GroupCommitOptions};
use quantadb::storage::store::{DurableStore, FileOp, PageWrite};
use std::collections::{BTreeMap, HashMap};

#[test]
fn manifests_round_trip_empty_and_populated_generations() {
    for root in [
        None,
        Some(IndexRoot {
            page_id: PageId(12),
            height: 3,
            entries: 99,
        }),
    ] {
        let generation = IndexGeneration {
            timestamp: Timestamp(7),
            root,
            manifest_page_id: PageId(20),
        };
        assert_eq!(
            IndexGeneration::decode(PageId(20), &generation.encode())
                .expect("decode")
                .expect("manifest"),
            generation
        );
    }
}

#[test]
fn version_record_round_trips_values_and_tombstones() {
    for value in [Some(b"value".to_vec()), None] {
        let record = VersionRecord {
            timestamp: Timestamp(9),
            key: b"key".to_vec(),
            value,
        };
        assert_eq!(
            VersionRecord::decode(PageId(4), &record.encode().expect("encode")).expect("decode"),
            Some(record)
        );
    }
}

#[test]
fn version_record_rejects_oversized_values() {
    let key = b"key";
    let value = vec![0_u8; MAX_PAGE_PAYLOAD];
    assert!(matches!(
        VersionRecord::validate_size(key, Some(&value)),
        Err(TransactionError::RecordTooLarge { .. })
    ));
}

#[test]
fn version_record_rejects_nonzero_reserved_bytes() {
    let record = VersionRecord {
        timestamp: Timestamp(1),
        key: b"key".to_vec(),
        value: Some(b"value".to_vec()),
    };
    let mut encoded = record.encode().expect("encode");
    encoded[RESERVED_OFFSET] = 1;
    assert!(matches!(
        VersionRecord::decode(PageId(8), &encoded),
        Err(TransactionError::CorruptRecord {
            page_id: PageId(8),
            ..
        })
    ));
}

const RESERVED_OFFSET: usize = 24;

/// The two files of a database.
#[derive(Default)]
struct Disk {
    data: Vec<u8>,
    log: Vec<u8>,
}

impl Disk {
    fn apply(&mut self, ops: Vec<FileOp>) {
        for op in ops {
            match op {
                FileOp::DataTruncate { pages } => self.data.resize(pages as usize * PAGE_SIZE, 0),
                FileOp::WalTruncate { length } => self.log.truncate(length as usize),
                FileOp::WalAppend(bytes) => self.log.extend_from_slice(&bytes),
                FileOp::DataWrite { page_id, image } => {
                    let offset = page_id.0 as usize * PAGE_SIZE;
                    if self.data.len() < offset + image.len() {
                        self.data.resize(offset + image.len(), 0);
                    }
                    self.data[offset..offset + image.len()].copy_from_slice(&image);
                }
                FileOp::WalSync | FileOp::DataSync => {}
            }
        }
    }

    fn open(&mut self, options: MvccOptions) -> MvccDatabase {
        let mut database = MvccDatabase::open(&self.data, &self.log, options).expect("open");
        self.apply(database.take_ops());
        database
    }

    fn offline(&mut self) -> MvccDatabase {
        self.open(offline_options())
    }

    fn shutdown(&mut self, mut database: MvccDatabase) {
        self.apply(database.take_ops());
    }
}

fn offline_options() -> MvccOptions {
    MvccOptions {
        online_index: false,
        ..MvccOptions::default()
    }
}

fn open_database() -> MvccDatabase {
    Disk::default().offline()
}

/// Publishes index generations as long as one is due.
fn publish(database: &mut MvccDatabase) {
    while database.needs_publication() {
        database.checkpoint().expect("publish");
    }
}

fn put(database: &mut MvccDatabase, pairs: &[(&[u8], &[u8])]) {
    let mut transaction = database.begin().expect("begin");
    for (key, value) in pairs {
        transaction
            .put(key.to_vec(), value.to_vec())
            .expect("put");
    }
    transaction.commit(database).expect("commit");
}

fn delete(database: &mut MvccDatabase, key: &[u8]) {
    let mut transaction = database.begin().expect("begin");
    transaction.delete(key.to_vec()).expect("delete");
    transaction.commit(database).expect("commit");
}

#[test]
fn committed_values_and_tombstones_survive_restart() {
    let mut disk = Disk::default();
    let mut database = disk.offline();
    let mut transaction = database.begin().expect("begin");
    transaction.put(b"a".to_vec(), b"one".to_vec()).expect("put");
    transaction.put(b"b".to_vec(), b"two".to_vec()).expect("put");
    assert_eq!(
        transaction.commit(&mut database).expect("commit").timestamp,
        Some(Timestamp(1))
    );
    delete(&mut database, b"b");
    disk.shutdown(database);

    let mut database = disk.offline();
    assert_eq!(database.get(b"a").expect("get"), Some(b"one".to_vec()));
    assert_eq!(database.get(b"b").expect("get"), None);
    assert_eq!(database.stats().visible_through, Timestamp(2));
}

#[test]
fn snapshots_are_repeatable_and_new_transactions_see_commits() {
    let mut database = open_database();
    let old_snapshot = database.begin().expect("old snapshot");

    put(&mut database, &[(b"key", b"new")]);

    assert_eq!(
        old_snapshot.get(&mut database, b"key").expect("old read"),
        None
    );
    let new_snapshot = database.begin().expect("new snapshot");
    assert_eq!(
        new_snapshot.get(&mut database, b"key").expect("new read"),
        Some(b"new".to_vec())
    );
}

#[test]
fn first_committer_wins_write_conflicts() {
    let mut database = open_database();
    let mut first = database.begin().expect("first");
    let mut second = database.begin().expect("second");
    first.put(b"key".to_vec(), b"first".to_vec()).expect("put");
    second.put(b"key".to_vec(), b"second".to_vec()).expect("put");

    first.commit(&mut database).expect("first commit");
    assert!(matches!(
        second.commit(&mut database),
        Err(TransactionError::WriteConflict { .. })
    ));
    assert_eq!(database.get(b"key").expect("get"), Some(b"first".to_vec()));
}

#[test]
fn read_your_writes_prefix_scan_and_rollback_work() {
    let mut database = open_database();
    let mut transaction = database.begin().expect("begin");
    transaction.put(b"user:1".to_vec(), b"Ada".to_vec()).expect("put");
    transaction.put(b"user:2".to_vec(), b"Grace".to_vec()).expect("put");
    transaction.put(b"other".to_vec(), b"x".to_vec()).expect("put");
    transaction.delete(b"user:2".to_vec()).expect("delete");

    assert_eq!(
        transaction.get(&mut database, b"user:1").expect("get"),
        Some(b"Ada".to_vec())
    );
    assert_eq!(
        transaction.scan_prefix(&mut database, b"user:").expect("scan"),
        vec![(b"user:1".to_vec(), b"Ada".to_vec())]
    );
    transaction.rollback(&mut database).expect("rollback");
    assert_eq!(database.get(b"user:1").expect("get"), None);
}

#[test]
fn online_publication_converges_without_checkpoints() {
    let mut database = Disk::default().open(MvccOptions::default());
    for round in 0..5_u64 {
        put(
            &mut database,
            &[(format!("user:{round}").as_bytes(), &round.to_be_bytes())],
        );
    }

    publish(&mut database);
    let stats = database.stats();
    assert_eq!(stats.indexed_through, Some(Timestamp(5)));
    assert_eq!(stats.indexed_keys, 5);
    assert_eq!(
        database.get(b"user:3").expect("get"),
        Some(3_u64.to_be_bytes().to_vec())
    );
}

#[test]
fn online_publication_covers_deletes_and_restart_catch_up() {
    let mut disk = Disk::default();
    let mut database = disk.offline();
    put(&mut database, &[(b"keep", b"kept"), (b"drop", b"doomed")]);
    database.rebuild_index().expect("rebuild");
    delete(&mut database, b"drop");
    assert_eq!(
        database.stats().indexed_through,
        Some(Timestamp(1)),
        "offline database must not publish on its own"
    );
    disk.shutdown(database);

    let mut database = disk.open(MvccOptions::default());
    publish(&mut database);
    let stats = database.stats();
    assert_eq!(stats.indexed_through, Some(Timestamp(2)));
    assert_eq!(stats.indexed_keys, 1);
    assert_eq!(database.get(b"keep").expect("get"), Some(b"kept".to_vec()));
    assert_eq!(database.get(b"drop").expect("get"), None);
}

#[test]
fn older_generation_reads_merge_newer_versions() {
    let mut database = open_database();
    put(&mut database, &[(b"row:1", b"one")]);
    database.rebuild_index().expect("rebuild");
    put(&mut database, &[(b"row:1", b"newer"), (b"row:2", b"two")]);
    delete(&mut database, b"row:1");

    assert_eq!(
        database.stats().indexed_through,
        Some(Timestamp(1)),
        "generation must lag the snapshot for this test to mean anything"
    );
    assert_eq!(database.get(b"row:1").expect("get"), None);
    assert_eq!(database.get(b"row:2").expect("get"), Some(b"two".to_vec()));
    let mut transaction = database.begin().expect("begin scan");
    assert_eq!(
        transaction.scan_prefix(&mut database, b"row:").expect("scan"),
        vec![(b"row:2".to_vec(), b"two".to_vec())]
    );
    transaction.rollback(&mut database).expect("rollback");
}

#[test]
fn cold_keys_leave_the_version_map_and_read_from_the_index() {
    let mut database = Disk::default().open(MvccOptions::default());
    for round in 0..20_u64 {
        put(
            &mut database,
            &[(format!("cold:{round:02}").as_bytes(), &round.to_be_bytes())],
        );
    }

    publish(&mut database);
    let stats = database.stats();
    assert_eq!(stats.indexed_through, Some(Timestamp(20)));
    assert_eq!(stats.keys, 0);
    assert_eq!(stats.versions, 0, "no version history should stay resident");
    assert!(stats.reclaimed_versions >= 20, "{stats:?}");
    assert_eq!(stats.indexed_keys, 20);

    assert_eq!(
        database.get(b"cold:07").expect("get"),
        Some(7_u64.to_be_bytes().to_vec())
    );
    let mut transaction = database.begin().expect("begin");
    let scanned = transaction
        .scan_prefix(&mut database, b"cold:")
        .expect("scan");
    assert_eq!(scanned.len(), 20);
    assert_eq!(scanned[3].0, b"cold:03".to_vec());
    transaction.rollback(&mut database).expect("rollback");

    let stats = database.stats();
    assert!(
        stats.record_cache.hits > 0,
        "fall-through reads must be served from the record cache: {stats:?}"
    );
}

#[test]
fn active_snapshots_pin_the_versions_they_can_see() {
    let mut database = Disk::default().open(MvccOptions::default());
    put(&mut database, &[(b"pinned", b"first")]);

    let reader = database.begin().expect("begin reader");
    assert_eq!(
        reader.get(&mut database, b"pinned").expect("get"),
        Some(b"first".to_vec())
    );

    for value in [b"second".as_slice(), b"third".as_slice()] {
        put(&mut database, &[(b"pinned", value)]);
    }
    publish(&mut database);
    assert_eq!(database.stats().indexed_through, Some(Timestamp(3)));

    let stats = database.stats();
    assert!(
        stats.versions >= 2,
        "the reader's snapshot must pin old history: {stats:?}"
    );
    assert_eq!(
        reader.get(&mut database, b"pinned").expect("pinned read"),
        Some(b"first".to_vec()),
        "reclamation must never change what an open snapshot sees"
    );
    reader.rollback(&mut database).expect("rollback reader");

    put(&mut database, &[(b"other", b"value")]);
    publish(&mut database);
    assert_eq!(database.stats().indexed_through, Some(Timestamp(4)));
    assert_eq!(database.stats().keys, 0);
    assert_eq!(
        database.get(b"pinned").expect("get"),
        Some(b"third".to_vec())
    );
}

#[test]
fn tombstones_are_reclaimed_and_stay_dead_after_restart() {
    let mut disk = Disk::default();
    let mut database = disk.open(MvccOptions::default());
    put(&mut database, &[(b"keep", b"kept"), (b"gone", b"doomed")]);
    delete(&mut database, b"gone");

    publish(&mut database);
    assert_eq!(database.stats().indexed_through, Some(Timestamp(2)));
    assert_eq!(database.stats().keys, 0);
    assert_eq!(database.get(b"gone").expect("get"), None);
    disk.shutdown(database);

    let mut database = disk.open(MvccOptions::default());
    let stats = database.stats();
    assert_eq!(
        stats.keys, 0,
        "the open sweep must trim everything the page scan resurrected"
    );
    assert_eq!(database.get(b"gone").expect("get"), None);
    assert_eq!(database.get(b"keep").expect("get"), Some(b"kept".to_vec()));
    let mut transaction = database.begin().expect("begin");
    assert_eq!(
        transaction.scan_prefix(&mut database, b"").expect("scan"),
        vec![(b"keep".to_vec(), b"kept".to_vec())]
    );
    transaction.rollback(&mut database).expect("rollback");
}

#[test]
fn old_snapshots_read_reclaimed_keys_from_an_older_generation() {
    let mut database = open_database();
    put(&mut database, &[(b"racy", b"first")]);
    database.rebuild_index().expect("first rebuild");
    put(&mut database, &[(b"other", b"noise")]);
    database.rebuild_index().expect("second rebuild");
    assert_eq!(
        database.stats().keys,
        0,
        "with no active snapshots both keys must be fully reclaimed"
    );

    let mut reader = database.begin().expect("begin reader");
    assert_eq!(reader.snapshot(), Timestamp(2));

    put(&mut database, &[(b"racy", b"second")]);
    database.rebuild_index().expect("third rebuild");

    assert_eq!(
        reader.get(&mut database, b"racy").expect("pinned read"),
        Some(b"first".to_vec()),
        "the old snapshot must read the reclaimed version from an older generation"
    );
    let scanned = reader.scan_prefix(&mut database, b"").expect("pinned scan");
    assert_eq!(
        scanned,
        vec![
            (b"other".to_vec(), b"noise".to_vec()),
            (b"racy".to_vec(), b"first".to_vec()),
        ],
        "the old snapshot's scan must merge map and older generation correctly"
    );
    reader.rollback(&mut database).expect("end reader");

    put(&mut database, &[(b"other", b"final")]);
    database.rebuild_index().expect("fourth rebuild");
    assert_eq!(
        database.get(b"racy").expect("latest read"),
        Some(b"second".to_vec())
    );
}

#[test]
fn reclaimed_version_pages_are_freed_and_reused() {
    let mut disk = Disk::default();
    let mut database = disk.offline();
    put(&mut database, &[(b"hot", b"v1")]);
    put(&mut database, &[(b"hot", b"v2")]);

    database.rebuild_index().expect("rebuild");
    let stats = database.stats();
    assert!(
        stats.free_pages >= 1,
        "the drained old version's page must be free: {stats:?}"
    );

    let free_before = stats.free_pages;
    put(&mut database, &[(b"hot", b"v3")]);
    let stats = database.stats();
    assert!(
        stats.free_pages < free_before,
        "the new version must have reused a freed page: {stats:?}"
    );
    assert_eq!(database.get(b"hot").expect("get"), Some(b"v3".to_vec()));
    disk.shutdown(database);

    let mut database = disk.offline();
    assert_eq!(
        database.get(b"hot").expect("get after restart"),
        Some(b"v3".to_vec()),
        "reuse must survive a restart"
    );
}

#[test]
fn restart_refrees_stale_pages_the_crash_left_behind() {
    let mut disk = Disk::default();
    let mut database = disk.offline();
    put(&mut database, &[(b"key", b"old")]);
    put(&mut database, &[(b"key", b"new")]);
    database
        .rebuild_index()
        .expect("rebuild frees the old page");
    assert!(database.stats().free_pages >= 1);
    disk.shutdown(database);

    let mut database = disk.offline();
    let stats = database.stats();
    assert!(
        stats.free_pages >= 1,
        "the open sweep must rediscover the stale page as free: {stats:?}"
    );
    assert_eq!(database.get(b"key").expect("get"), Some(b"new".to_vec()));
}

#[test]
fn protected_scans_conflict_with_phantom_inserts() {
    let mut database = open_database();
    put(&mut database, &[(b"acct/1", b"100")]);

    let mut first = database.begin().expect("begin first");
    first.protect_scans();
    let mut second = database.begin().expect("begin second");
    second.protect_scans();

    assert_eq!(first.scan_prefix(&mut database, b"acct/").expect("scan").len(), 1);
    assert_eq!(second.scan_prefix(&mut database, b"acct/").expect("scan").len(), 1);

    first.put(b"acct/2".to_vec(), b"from first".to_vec()).expect("put first");
    second.put(b"acct/3".to_vec(), b"from second".to_vec()).expect("put second");

    first.commit(&mut database).expect("the first committer wins");
    assert!(
        matches!(
            second.commit(&mut database),
            Err(TransactionError::RangeConflict { prefix }) if prefix == b"acct/"
        ),
        "the second writer saw a range that changed under it"
    );
}

#[test]
fn unprotected_scans_keep_plain_snapshot_isolation() {
    let mut database = open_database();

    let mut first = database.begin().expect("begin first");
    let mut second = database.begin().expect("begin second");
    assert_eq!(first.scan_prefix(&mut database, b"acct/").expect("scan").len(), 0);
    assert_eq!(second.scan_prefix(&mut database, b"acct/").expect("scan").len(), 0);
    first.put(b"acct/1".to_vec(), b"one".to_vec()).expect("put first");
    second.put(b"acct/2".to_vec(), b"two".to_vec()).expect("put second");

    first.commit(&mut database).expect("first commits");
    second
        .commit(&mut database)
        .expect("plain snapshot isolation admits the phantom");
}

#[test]
fn protected_scans_ignore_writes_outside_their_range() {
    let mut database = open_database();

    let mut protected = database.begin().expect("begin protected");
    protected.protect_scans();
    assert_eq!(protected.scan_prefix(&mut database, b"acct/").expect("scan").len(), 0);
    protected.put(b"acct/1".to_vec(), b"one".to_vec()).expect("put");

    put(&mut database, &[(b"other/9", b"noise")]);

    protected
        .commit(&mut database)
        .expect("writes outside the scanned range never conflict");
}

#[test]
fn sequential_model_matches_committed_database_state() {
    let mut database = open_database();
    let mut model = HashMap::<Vec<u8>, Vec<u8>>::new();
    let mut random = 0x4d59_5df4_d0f3_3173_u64;

    for step in 0..500_u64 {
        random = random
            .wrapping_mul(6_364_136_223_846_793_005)
            .wrapping_add(1);
        let key = format!("key:{:02}", random % 31).into_bytes();
        let mut transaction = database.begin().expect("begin");
        if random & 3 == 0 {
            transaction.delete(key.clone()).expect("delete");
            if random & 16 == 0 {
                transaction.rollback(&mut database).expect("rollback");
            } else {
                transaction.commit(&mut database).expect("commit");
                model.remove(&key);
            }
        } else {
            let value = format!("value:{step}:{random}").into_bytes();
            transaction.put(key.clone(), value.clone()).expect("put");
            if random & 16 == 0 {
                transaction.rollback(&mut database).expect("rollback");
            } else {
                transaction.commit(&mut database).expect("commit");
                model.insert(key, value);
            }
        }
    }

    for key_number in 0..31 {
        let key = format!("key:{key_number:02}").into_bytes();
        assert_eq!(database.get(&key).expect("get"), model.get(&key).cloned());
    }
}

#[test]
fn dropped_and_rolled_back_transactions_leave_no_active_snapshot() {
    let mut database = open_database();
    let dropped = database.begin().expect("begin dropped transaction");
    assert_eq!(database.stats().active_transactions, 1);
    database.end_transaction(dropped.id());
    assert_eq!(database.stats().active_transactions, 0);

    let rolled_back = database.begin().expect("begin rollback");
    rolled_back.rollback(&mut database).expect("rollback");
    assert_eq!(database.stats().active_transactions, 0);
}

#[test]
fn prepared_write_intents_reject_overlapping_writers() {
    let mut database = open_database();
    let first = database.begin().expect("first");
    let second = database.begin().expect("second");

    let first_timestamp = database
        .prepare_commit(first.id(), first.snapshot(), &vec![b"same".to_vec()], &vec![])
        .expect("prepare first");
    assert!(matches!(
        database.prepare_commit(
            second.id(),
            second.snapshot(),
            &vec![b"same".to_vec()],
            &vec![]
        ),
        Err(TransactionError::WriteConflict { .. })
    ));
    database.finish_prepared(first.id(), first_timestamp, &[(b"same".to_vec(), None)], None);
    assert_eq!(database.stats().write_intents, 0);
}

#[test]
fn visibility_waits_for_earlier_commit_timestamps() {
    let mut database = open_database();
    let first = database.begin().expect("first");
    let second = database.begin().expect("second");
    let first_timestamp = database
        .prepare_commit(first.id(), first.snapshot(), &vec![b"a".to_vec()], &vec![])
        .expect("prepare first");
    let second_timestamp = database
        .prepare_commit(second.id(), second.snapshot(), &vec![b"b".to_vec()], &vec![])
        .expect("prepare second");

    database.finish_prepared(second.id(), second_timestamp, &[(b"b".to_vec(), None)], None);
    assert_eq!(database.stats().visible_through, Timestamp(0));

    database.finish_prepared(first.id(), first_timestamp, &[(b"a".to_vec(), None)], None);
    assert_eq!(database.stats().visible_through, Timestamp(2));
}

#[test]
fn persistent_index_generation_serves_latest_values_after_restart() {
    let mut disk = Disk::default();
    let mut database = disk.offline();
    let mut transaction = database.begin().expect("begin");
    for number in 0..1_500_u64 {
        transaction
            .put(
                format!("key:{number:08}").into_bytes(),
                format!("value:{number}").into_bytes(),
            )
            .expect("put");
    }
    transaction.commit(&mut database).expect("commit");

    let generation = database.rebuild_index().expect("rebuild index");
    assert_eq!(generation.timestamp, Timestamp(1));
    assert!(
        generation.root.expect("nonempty root").height >= 2,
        "{generation:?}"
    );
    let stats = database.stats();
    assert_eq!(stats.indexed_through, Some(Timestamp(1)));
    assert_eq!(stats.indexed_keys, 1_500);
    assert_eq!(
        database.get(b"key:00000777").expect("indexed get"),
        Some(b"value:777".to_vec())
    );
    let mut scan = database.begin().expect("begin indexed scan");
    assert_eq!(
        scan.scan_prefix(&mut database, b"key:0000001")
            .expect("indexed prefix scan")
            .len(),
        10
    );
    scan.rollback(&mut database).expect("end scan");
    disk.shutdown(database);

    let mut database = disk.offline();
    let stats = database.stats();
    assert_eq!(stats.indexed_through, Some(Timestamp(1)));
    assert_eq!(stats.indexed_keys, 1_500);
    assert_eq!(
        database.get(b"key:00001499").expect("indexed get"),
        Some(b"value:1499".to_vec())
    );
    assert_eq!(database.get(b"absent").expect("indexed miss"), None);
}

#[test]
fn stale_index_generation_never_hides_a_newer_commit() {
    let mut disk = Disk::default();
    let mut database = disk.offline();
    put(&mut database, &[(b"key", b"old")]);
    database.rebuild_index().expect("rebuild index");
    put(&mut database, &[(b"key", b"new")]);
    assert_eq!(database.stats().indexed_through, Some(Timestamp(1)));
    assert_eq!(database.get(b"key").expect("get"), Some(b"new".to_vec()));
    disk.shutdown(database);

    let mut database = disk.offline();
    assert_eq!(database.stats().indexed_through, Some(Timestamp(1)));
    assert_eq!(database.get(b"key").expect("get"), Some(b"new".to_vec()));
}

#[test]
fn empty_index_generation_is_durable() {
    let mut disk = Disk::default();
    let mut database = disk.offline();
    assert_eq!(database.checkpoint().expect("checkpoint"), Timestamp(0));
    assert_eq!(database.stats().indexed_through, Some(Timestamp(0)));
    disk.shutdown(database);

    let mut database = disk.offline();
    let stats = database.stats();
    assert_eq!(stats.indexed_through, Some(Timestamp(0)));
    assert_eq!(stats.indexed_keys, 0);
    assert_eq!(database.get(b"missing").expect("get"), None);
}

#[test]
fn checkpoint_updates_only_copy_on_write_index_paths() {
    let mut disk = Disk::default();
    let mut database = disk.offline();
    let mut initial = database.begin().expect("begin initial");
    for number in 0..2_000_u64 {
        initial
            .put(
                format!("key:{number:08}").into_bytes(),
                number.to_le_bytes().to_vec(),
            )
            .expect("put initial");
    }
    initial.commit(&mut database).expect("commit initial");
    database.rebuild_index().expect("initial index");
    let pages_before = database.stats().group_commit.pages;

    let mut delta = database.begin().expect("begin delta");
    delta
        .put(b"key:00001000".to_vec(), b"updated".to_vec())
        .expect("update indexed key");
    delta.delete(b"key:00001001".to_vec()).expect("delete indexed key");
    delta
        .put(b"key:00001000:after".to_vec(), b"inserted".to_vec())
        .expect("insert indexed key");
    delta.commit(&mut database).expect("commit delta");
    database.checkpoint().expect("incremental checkpoint");

    let stats = database.stats();
    let incremental_pages = stats.group_commit.pages - pages_before - 3;
    assert!(
        incremental_pages <= 8,
        "incremental index wrote {incremental_pages} pages: {stats:?}"
    );
    assert_eq!(stats.indexed_through, Some(Timestamp(2)));
    assert_eq!(stats.indexed_keys, 2_000);
    assert_eq!(
        database.get(b"key:00001000").expect("updated get"),
        Some(b"updated".to_vec())
    );
    assert_eq!(database.get(b"key:00001001").expect("deleted get"), None);
    disk.shutdown(database);

    let mut database = disk.offline();
    assert_eq!(database.stats().indexed_through, Some(Timestamp(2)));
    assert_eq!(
        database.get(b"key:00001000:after").expect("inserted get"),
        Some(b"inserted".to_vec())
    );
}

#[test]
fn concurrent_commits_converge_online() {
    let mut database = Disk::default().open(MvccOptions::default());
    for round in 0..4_u64 {
        let mut open = Vec::new();
        for worker in 0..4_u64 {
            let mut transaction = database.begin().expect("begin");
            let key = format!("w{worker}:r{round}").into_bytes();
            transaction.put(key, round.to_be_bytes().to_vec()).expect("put");
            open.push(transaction);
        }
        while let Some(transaction) = open.pop() {
            transaction.commit(&mut database).expect("commit");
        }
    }

    assert_eq!(database.stats().visible_through, Timestamp(16));
    publish(&mut database);
    let stats = database.stats();
    assert_eq!(stats.indexed_through, Some(Timestamp(16)));
    assert_eq!(stats.indexed_keys, 16);
    assert_eq!(
        database.get(b"w2:r3").expect("get"),
        Some(3_u64.to_be_bytes().to_vec())
    );
}

const WORKERS: usize = 8;
const TRANSACTIONS_PER_WORKER: usize = 40;
const KEY_SPACE: u64 = 16;

#[derive(Debug, Clone, PartialEq, Eq)]
enum Outcome {
    Committed(Timestamp),
    Conflicted,
    RolledBack,
    ReadOnly,
}

#[derive(Debug, Clone)]
struct Attempt {
    seed: u64,
    snapshot: Timestamp,
    reads: Vec<(Vec<u8>, Option<Vec<u8>>)>,
    writes: BTreeMap<Vec<u8>, Option<Vec<u8>>>,
    outcome: Outcome,
}

fn key(id: u64) -> Vec<u8> {
    format!("hist:{id:02}").into_bytes()
}

fn next_random(state: &mut u64) -> u64 {
    *state ^= *state << 13;
    *state ^= *state >> 7;
    *state ^= *state << 17;
    *state
}

/// A worker whose operations take turns with those of the others.
struct Worker {
    seed: u64,
    rng: u64,
    round: usize,
    open: Option<(Transaction, Attempt, u64)>,
}

impl Worker {
    /// Does the next thing; false once all is done.
    fn step(&mut self, database: &mut MvccDatabase, history: &mut Vec<Attempt>) -> bool {
        let Some((mut transaction, mut attempt, left)) = self.open.take() else {
            if self.round == TRANSACTIONS_PER_WORKER {
                return false;
            }
            let transaction = database.begin().expect("begin transaction");
            let attempt = Attempt {
                seed: self.seed,
                snapshot: transaction.snapshot(),
                reads: Vec::new(),
                writes: BTreeMap::new(),
                outcome: Outcome::RolledBack,
            };
            let operations = 1 + next_random(&mut self.rng) % 4;
            self.open = Some((transaction, attempt, operations));
            return true;
        };
        if left > 0 {
            let target = key(next_random(&mut self.rng) % KEY_SPACE);
            match next_random(&mut self.rng) % 100 {
                0..=49 => {
                    let observed = transaction.get(database, &target).expect("read");
                    if !attempt.writes.contains_key(&target) {
                        attempt.reads.push((target, observed));
                    }
                }
                50..=84 => {
                    let value = format!(
                        "s{}:r{}:{}",
                        self.seed,
                        self.round,
                        next_random(&mut self.rng)
                    )
                    .into_bytes();
                    transaction.put(target.clone(), value.clone()).expect("put");
                    attempt.writes.insert(target, Some(value));
                }
                _ => {
                    transaction.delete(target.clone()).expect("delete");
                    attempt.writes.insert(target, None);
                }
            }
            self.open = Some((transaction, attempt, left - 1));
            return true;
        }
        if next_random(&mut self.rng) % 100 < 80 {
            match transaction.commit(database) {
                Ok(result) => {
                    attempt.outcome = match result.timestamp {
                        Some(timestamp) => Outcome::Committed(timestamp),
                        None => Outcome::ReadOnly,
                    };
                }
                Err(TransactionError::WriteConflict { .. }) => {
                    attempt.outcome = Outcome::Conflicted;
                }
                Err(error) => panic!("unexpected commit failure: {}", error.message()),
            }
        } else {
            transaction.rollback(database).expect("rollback");
        }
        history.push(attempt);
        self.round += 1;
        true
    }
}

fn committed_writes(history: &[Attempt]) -> Vec<(Timestamp, &Attempt)> {
    let mut committed = history
        .iter()
        .filter_map(|attempt| match attempt.outcome {
            Outcome::Committed(timestamp) => Some((timestamp, attempt)),
            _ => None,
        })
        .collect::<Vec<_>>();
    committed.sort_by_key(|(timestamp, _)| *timestamp);
    committed
}

fn expected_value_at(
    committed: &[(Timestamp, &Attempt)],
    key: &[u8],
    snapshot: Timestamp,
) -> Option<Vec<u8>> {
    committed
        .iter()
        .rev()
        .filter(|(timestamp, _)| *timestamp <= snapshot)
        .find_map(|(_, attempt)| attempt.writes.get(key))
        .and_then(Clone::clone)
}

fn check_history(history: &[Attempt]) -> BTreeMap<Vec<u8>, Vec<u8>> {
    let committed = committed_writes(history);

    for window in committed.windows(2) {
        assert_ne!(
            window[0].0, window[1].0,
            "two transactions share commit timestamp {:?}",
            window[0].0
        );
    }

    for (timestamp, attempt) in &committed {
        for key in attempt.writes.keys() {
            let intruder = committed.iter().find(|(other_timestamp, other_attempt)| {
                *other_timestamp > attempt.snapshot
                    && other_timestamp < timestamp
                    && other_attempt.writes.contains_key(key)
            });
            assert!(
                intruder.is_none(),
                "first-committer-wins violated (seed {}): the commit at {timestamp:?} from \
                 snapshot {:?} overlapped {:?} on key {:?}",
                attempt.seed,
                attempt.snapshot,
                intruder.map(|(other_timestamp, _)| other_timestamp),
                String::from_utf8_lossy(key),
            );
        }
    }

    for attempt in history {
        for (key, observed) in &attempt.reads {
            let expected = expected_value_at(&committed, key, attempt.snapshot);
            assert_eq!(
                observed,
                &expected,
                "read at snapshot {:?} (seed {}) observed the wrong value for {:?}",
                attempt.snapshot,
                attempt.seed,
                String::from_utf8_lossy(key),
            );
        }
    }

    let mut expected_state = BTreeMap::new();
    for (_, attempt) in &committed {
        for (key, value) in &attempt.writes {
            match value {
                Some(value) => {
                    expected_state.insert(key.clone(), value.clone());
                }
                None => {
                    expected_state.remove(key);
                }
            }
        }
    }
    expected_state
}

fn assert_database_matches(
    database: &mut MvccDatabase,
    expected_state: &BTreeMap<Vec<u8>, Vec<u8>>,
    context: &str,
) {
    for id in 0..KEY_SPACE {
        let target = key(id);
        assert_eq!(
            database.get(&target).expect("final read"),
            expected_state.get(&target).cloned(),
            "{context}: key {:?} diverged from the folded history",
            String::from_utf8_lossy(&target),
        );
    }
    let mut transaction = database.begin().expect("begin verification scan");
    let scanned = transaction
        .scan_prefix(database, b"hist:")
        .expect("verification scan")
        .into_iter()
        .collect::<BTreeMap<_, _>>();
    transaction
        .rollback(database)
        .expect("rollback verification scan");
    assert_eq!(
        &scanned, expected_state,
        "{context}: prefix scan diverged from the folded history"
    );
}

fn run_seeded(seed: u64) {
    let mut disk = Disk::default();
    let mut database = disk.open(MvccOptions::default());

    let mut workers = Vec::new();
    for worker in 0..WORKERS {
        let worker_seed = seed
            .wrapping_mul(0x9e37_79b9_7f4a_7c15)
            .wrapping_add(worker as u64 + 1);
        workers.push(Worker {
            seed: worker_seed,
            rng: worker_seed,
            round: 0,
            open: None,
        });
    }
    let mut histories = Vec::new();
    let mut turn = 0;
    loop {
        let mut busy = false;
        for worker in &mut workers {
            if worker.step(&mut database, &mut histories) {
                busy = true;
            }
        }
        turn += 1;
        if turn % 3 == 0 {
            publish(&mut database);
        }
        if !busy {
            break;
        }
    }
    assert!(histories
        .iter()
        .any(|attempt| attempt.outcome == Outcome::Conflicted));

    let expected_state = check_history(&histories);
    assert_database_matches(&mut database, &expected_state, "live database");

    let stats = database.stats();
    assert_eq!(stats.active_transactions, 0, "seed {seed}: {stats:?}");
    assert_eq!(stats.write_intents, 0, "seed {seed}: {stats:?}");
    disk.shutdown(database);

    let mut reopened = disk.open(MvccOptions::default());
    assert_database_matches(&mut reopened, &expected_state, "reopened database");
}

#[test]
fn concurrent_histories_satisfy_snapshot_isolation_seed_a() {
    run_seeded(0x5157_ab1e);
}

#[test]
fn concurrent_histories_satisfy_snapshot_isolation_seed_b() {
    run_seeded(0xdead_f00d);
}

#[test]
fn a_poisoned_database_refuses_commits() {
    let mut database = open_database();
    let mut transaction = database.begin().expect("begin");
    transaction.put(b"k".to_vec(), b"v".to_vec()).expect("put");
    database.poison();
    assert!(transaction.commit(&mut database).is_err());
}

#[test]
fn records_that_do_not_fit_a_page_are_refused_when_put() {
    let mut database = open_database();
    let mut transaction = database.begin().expect("begin");
    assert!(matches!(
        transaction.put(b"k".to_vec(), vec![0; MAX_PAGE_PAYLOAD]),
        Err(TransactionError::RecordTooLarge { .. })
    ));
    transaction.rollback(&mut database).expect("rollback");
}

#[test]
fn a_publication_is_due_after_commits_and_until_a_build() {
    let mut disk = Disk::default();
    let mut database = disk.open(MvccOptions::default());
    assert!(!database.needs_publication(), "nothing is committed");
    put(&mut database, &[(b"a", b"1"), (b"b", b"2")]);
    assert!(database.needs_publication());
    disk.apply(database.take_ops());

    let mut database = disk.open(MvccOptions::default());
    assert!(database.needs_publication(), "no index has the keys yet");
    let built = database.rebuild_index().expect("build");
    assert!(!database.needs_publication());
    assert_eq!(built.root.expect("root").entries, 2);

    disk.apply(database.take_ops());
    let again = database.rebuild_index().expect("second build");
    assert_eq!(again, built);
    assert!(database.take_ops().is_empty(), "nothing is written");

    delete(&mut database, b"a");
    delete(&mut database, b"b");
    assert!(database.needs_publication());
    assert_eq!(database.rebuild_index().expect("third build").root, None);

    let mut quiet = disk.offline();
    put(&mut quiet, &[(b"c", b"3")]);
    assert!(!quiet.needs_publication(), "nobody asked for an index");
}

#[test]
fn a_transaction_reads_the_same_whatever_happens_meanwhile() {
    let mut database = open_database();
    put(&mut database, &[(b"kept", b"1"), (b"gone", b"1")]);
    let reader = database.begin().expect("begin");
    let read = |database: &mut MvccDatabase| {
        (
            reader.get(database, b"kept").expect("get"),
            reader.get(database, b"gone").expect("get"),
            reader.get(database, b"new").expect("get"),
        )
    };
    let seen = read(&mut database);
    put(&mut database, &[(b"kept", b"2"), (b"new", b"2")]);
    assert_eq!(read(&mut database), seen);
    delete(&mut database, b"gone");
    database.rebuild_index().expect("rebuild");
    assert_eq!(read(&mut database), seen);
    let other = database.begin().expect("begin");
    other.rollback(&mut database).expect("rollback");
    put(&mut database, &[(b"kept", b"3")]);
    database.checkpoint().expect("checkpoint");
    assert_eq!(read(&mut database), seen);
    assert_eq!(
        seen,
        (Some(b"1".to_vec()), Some(b"1".to_vec()), None)
    );
    reader.rollback(&mut database).expect("rollback");
}

#[test]
fn dropped_versions_are_counted() {
    let mut database = open_database();
    for value in [b"1", b"2", b"3"] {
        put(&mut database, &[(b"key", value)]);
    }
    let before = database.stats();
    database.rebuild_index().expect("rebuild");
    let after = database.stats();
    assert_eq!(
        after.reclaimed_versions,
        before.reclaimed_versions + 3,
        "the index has the newest, and nobody reads the others"
    );
    assert_eq!(database.get(b"key").expect("get"), Some(b"3".to_vec()));
}

/// The files of a store with one stored version and an index generation that was not built from it.
fn with_generation(root: Option<IndexRoot>) -> Disk {
    let mut disk = Disk::default();
    let store = DurableStore::open(&disk.data, &disk.log).expect("open store");
    let mut handle =
        GroupCommitHandle::start(store, GroupCommitOptions::default()).expect("committer");
    let record = VersionRecord {
        timestamp: Timestamp(1),
        key: b"key".to_vec(),
        value: Some(b"value".to_vec()),
    };
    let generation = IndexGeneration {
        timestamp: Timestamp(1),
        root,
        manifest_page_id: PageId(1),
    };
    handle
        .commit(vec![
            PageWrite {
                page_id: PageId(0),
                payload: record.encode().expect("record"),
            },
            PageWrite {
                page_id: PageId(1),
                payload: generation.encode(),
            },
        ])
        .expect("commit");
    disk.apply(handle.take_ops());
    disk
}

#[test]
fn an_index_that_disagrees_with_the_versions_is_given_up() {
    let mut disk = with_generation(None);
    let mut database = disk.open(MvccOptions::default());
    assert_eq!(
        database.get(b"key").expect("get"),
        Some(b"value".to_vec()),
        "the stored version counts"
    );
    assert_eq!(database.stats().indexed_through, None);
    assert!(database.needs_publication());
    assert_eq!(
        database.rebuild_index().expect("build").root.expect("root").entries,
        1
    );
    assert_eq!(database.get(b"key").expect("get"), Some(b"value".to_vec()));
}

#[test]
fn an_index_whose_first_entry_is_not_found_is_refused() {
    let disk = with_generation(Some(IndexRoot {
        page_id: PageId(9),
        height: 1,
        entries: 1,
    }));
    match MvccDatabase::open(&disk.data, &disk.log, MvccOptions::default()) {
        Err(TransactionError::Index(IndexError::CorruptNode { page_id, reason })) => {
            assert_eq!(page_id, PageId(9));
            assert_eq!(reason, "referenced page does not exist");
        }
        Err(other) => panic!("expected damage, got {other:?}"),
        Ok(_) => panic!("a database opened on a lost index"),
    }
}

#[test]
fn commits_and_caches_are_counted() {
    let mut database = open_database();
    let fresh = database.stats();
    assert_eq!(
        (fresh.group_commit.groups, fresh.group_commit.requests, fresh.group_commit.pages),
        (0, 0, 0)
    );
    assert_eq!((fresh.record_cache.entries, fresh.record_cache.bytes), (0, 0));
    assert_eq!((fresh.index_cache.entries, fresh.index_cache.bytes), (0, 0));
    put(&mut database, &[(b"a", b"1"), (b"b", b"2")]);
    let stats = database.stats();
    assert_eq!(
        (stats.group_commit.groups, stats.group_commit.requests, stats.group_commit.pages),
        (1, 1, 2)
    );
    assert_eq!(stats.record_cache.entries, 2, "what was written is cached");
    assert!(stats.record_cache.bytes > 0);
    delete(&mut database, b"a");
    let stats = database.stats();
    assert_eq!(stats.group_commit.pages, 3);
    assert_eq!(stats.record_cache.entries, 2, "a deletion is not cached");
    database.rebuild_index().expect("rebuild");
    assert_eq!(database.get(b"b").expect("get"), Some(b"2".to_vec()));
    assert!(database.stats().record_cache.hits > stats.record_cache.hits);
}

#[test]
fn an_index_generation_rides_the_next_commit() {
    let mut disk = Disk::default();
    let mut database = disk.offline();
    put(&mut database, &[(b"a", b"1")]);
    database.rebuild_index().expect("rebuild");
    put(&mut database, &[(b"a", b"2"), (b"b", b"3")]);
    disk.apply(database.take_ops());
    let (data, log) = (disk.data.clone(), disk.log.clone());

    let built = database.rebuild_index().expect("rebuild");
    let ops = database.take_ops();
    assert_eq!(ops.len(), 1);
    assert!(matches!(ops[0], FileOp::WalAppend(_)), "no sync is asked for");
    assert_eq!(database.get(b"b").expect("get"), Some(b"3".to_vec()));
    disk.apply(ops);
    assert_eq!(disk.data, data);

    let mut again = disk.offline();
    assert_eq!(again.get(b"a").expect("get"), Some(b"2".to_vec()));
    assert_eq!(again.stats().indexed_through, Some(built.timestamp));

    let mut lost = MvccDatabase::open(&data, &log, offline_options()).expect("open");
    assert_eq!(lost.get(b"a").expect("get"), Some(b"2".to_vec()));
    assert_eq!(lost.get(b"b").expect("get"), Some(b"3".to_vec()));
    assert!(lost.stats().indexed_through < Some(built.timestamp));
    let rebuilt = lost.rebuild_index().expect("rebuild");
    assert_eq!(rebuilt.timestamp, built.timestamp);
    assert_eq!(rebuilt.root.map(|root| root.entries), Some(2));
}
