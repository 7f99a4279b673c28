//! Pages, the log, the store and what stands on it.
use quantadb::storage::buffer_pool::BufferPool;
use quantadb::storage::byte_lru::SharedByteLru;
use quantadb::storage::data_file::DataFile;
use quantadb::storage::error::StorageError;
use quantadb::storage::group_commit::{GroupCommitHandle, GroupCommitOptions, GroupCommitter};
use quantadb::storage::page::{
    Lsn, Page, PageId, MAX_PAGE_PAYLOAD, PAGE_HEADER_SIZE, PAGE_SIZE,
};
use quantadb::storage::store::{DurableStore, FileOp, PageWrite};
use quantadb::storage::wal::{Wal, WalKind, WAL_HEADER_SIZE};
use std::sync::Arc;

/// The two files of a store.
#[derive(Default)]
struct Disk {
    data: Vec<u8>,
    log: Vec<u8>,
}

impl Disk {
    fn apply(&mut self, ops: Vec<FileOp>) {
        for op in ops {
            match op {
                FileOp::DataTruncate { pages } => self.data.resize(pages as usize * PAGE_SIZE, 0),
                FileOp::WalTruncate { length } => self.log.truncate(length as usize),
                FileOp::WalAppend(bytes) => self.log.extend_from_slice(&bytes),
                FileOp::DataWrite { page_id, image } => {
                    let offset = page_id.0 as usize * PAGE_SIZE;
                    if self.data.len() < offset + image.len() {
                        self.data.resize(offset + image.len(), 0);
                    }
                    self.data[offset..offset + image.len()].copy_from_slice(&image);
                }
                FileOp::WalSync | FileOp::DataSync => {}
            }
        }
    }

    fn open(&mut self) -> DurableStore {
        let mut store = DurableStore::open(&self.data, &self.log).expect("open");
        self.apply(store.take_ops());
        store
    }

    fn close(&mut self, mut store: DurableStore) {
        self.apply(store.take_ops());
    }
}

fn open_store() -> DurableStore {
    Disk::default().open()
}

fn value(text: &str) -> Arc<String> {
    Arc::new(text.to_owned())
}

#[test]
fn serves_hits_and_counts_misses() {
    let mut cache = SharedByteLru::new(1 << 20);
    assert!(cache.get(PageId(7)).is_none());
    cache.insert(PageId(7), &value("payload"), 64);
    assert_eq!(cache.get(PageId(7)).as_deref(), Some(&"payload".to_owned()));
    let stats = cache.stats();
    assert_eq!(stats.hits, 1);
    assert_eq!(stats.misses, 1);
    assert_eq!(stats.entries, 1);
    assert_eq!(stats.bytes, 64);
}

#[test]
fn evicts_least_recently_used_within_budget() {
    let mut cache = SharedByteLru::new(128);
    cache.insert(PageId(1), &value("one"), 64);
    cache.insert(PageId(2), &value("two"), 64);
    assert!(cache.get(PageId(1)).is_some(), "page 1 must be hot now");
    cache.insert(PageId(3), &value("three"), 64);

    assert!(cache.get(PageId(1)).is_some(), "recently used survives");
    assert!(cache.get(PageId(2)).is_none(), "least recent is evicted");
    assert!(cache.get(PageId(3)).is_some(), "new entry is resident");
    assert!(cache.stats().bytes <= 128);
}

#[test]
fn reinsert_replaces_accounting() {
    let mut cache = SharedByteLru::new(128);
    cache.insert(PageId(1), &value("first"), 64);
    cache.insert(PageId(1), &value("second"), 32);
    let stats = cache.stats();
    assert_eq!(stats.entries, 1);
    assert_eq!(stats.bytes, 32);
    assert_eq!(cache.get(PageId(1)).as_deref(), Some(&"second".to_owned()));
}

#[test]
fn oversized_values_are_not_cached() {
    let mut cache = SharedByteLru::new(16);
    cache.insert(PageId(1), &value("way too big"), 64);
    assert!(cache.get(PageId(1)).is_none());
    assert_eq!(cache.stats().entries, 0);
}

#[test]
fn page_round_trip_preserves_identity_lsn_and_payload() {
    let page = Page::with_lsn(PageId(19), Lsn(7), b"hello".to_vec()).expect("page");
    let decoded = Page::decode(&page.encode()).expect("decode page");
    assert_eq!(decoded, page);
}

#[test]
fn checksum_detects_single_bit_corruption() {
    let page = Page::new(PageId(3), b"valuable data".to_vec()).expect("page");
    let mut bytes = page.encode();
    bytes[PAGE_HEADER_SIZE + 2] ^= 0b0000_0001;
    assert!(matches!(
        Page::decode(&bytes),
        Err(StorageError::CorruptPage { .. })
    ));
}

#[test]
fn rejects_oversized_payloads() {
    let error = Page::new(PageId(1), vec![0; MAX_PAGE_PAYLOAD + 1])
        .expect_err("oversized page must fail");
    assert!(matches!(error, StorageError::PageTooLarge { .. }));
}

#[test]
fn page_images_carry_a_checksum_of_their_payload() {
    let mut first = Page::new(PageId(1), b"a".to_vec()).expect("page").encode();
    let second = Page::new(PageId(1), b"b".to_vec()).expect("page").encode();
    let differing: Vec<usize> = (0..PAGE_HEADER_SIZE)
        .filter(|at| first[*at] != second[*at])
        .collect();
    assert!(!differing.is_empty(), "the checksum depends on the payload");
    first[PAGE_HEADER_SIZE] = b'b';
    assert!(Page::decode(&first).is_err(), "the old checksum no longer fits");
}

#[test]
fn wal_round_trip_preserves_records_and_lsn_sequence() {
    let mut log = Vec::new();
    {
        let mut wal = Wal::open(&log).expect("open WAL");
        assert_eq!(wal.append_page(PageId(9), b"nine").expect("append"), Lsn(1));
        assert_eq!(wal.append_batch_commit(1).expect("commit"), Lsn(2));
        assert_eq!(wal.append_checkpoint().expect("checkpoint"), Lsn(3));
        log.extend(wal.take_appended());
    }

    let wal = Wal::open(&log).expect("reopen WAL");
    assert_eq!(wal.records().len(), 3);
    assert!(matches!(wal.records()[2].kind, WalKind::Checkpoint));
}

#[test]
fn repairs_a_torn_final_record() {
    let mut log = Vec::new();
    {
        let mut wal = Wal::open(&log).expect("open WAL");
        wal.append_page(PageId(1), b"one").expect("append");
        wal.append_batch_commit(1).expect("commit");
        log.extend(wal.take_appended());
    }
    let valid_length = log.len() as u64;
    log.extend_from_slice(b"QN");

    let wal = Wal::open(&log).expect("repair WAL");
    assert_eq!(wal.records().len(), 2);
    assert_eq!(wal.size_bytes(), valid_length);
}

#[test]
fn every_partial_tail_prefix_is_repaired_deterministically() {
    let mut wal = Wal::open(&[]).expect("open WAL");
    wal.append_page(PageId(1), b"first").expect("first");
    wal.append_batch_commit(1).expect("commit first");
    let mut complete = wal.take_appended();
    let first_record_length = complete.len();
    wal.append_page(PageId(2), b"second").expect("second");
    complete.extend(wal.take_appended());

    for cut in first_record_length..complete.len() {
        let wal = Wal::open(&complete[..cut]).expect("repair partial record");
        assert_eq!(wal.records().len(), 2, "cut at byte {cut}");
        assert_eq!(
            wal.size_bytes(),
            first_record_length as u64,
            "cut at byte {cut}"
        );
    }
}

#[test]
fn rejects_checksum_corruption_before_the_wal_tail() {
    let mut wal = Wal::open(&[]).expect("open WAL");
    wal.append_page(PageId(1), b"first").expect("append first");
    wal.append_batch_commit(1).expect("commit first");
    wal.append_page(PageId(2), b"second")
        .expect("append second");
    wal.append_batch_commit(1).expect("commit second");
    let mut log = wal.take_appended();
    log[WAL_HEADER_SIZE + 1] = b'X';

    assert!(matches!(
        Wal::open(&log),
        Err(StorageError::CorruptWal { .. })
    ));
}

#[test]
fn sparse_pages_round_trip_and_holes_are_absent() {
    let mut data = DataFile::open(&[]);
    let page = Page::new(PageId(4), b"four".to_vec()).expect("page");
    data.write(&page).expect("write");

    assert_eq!(data.read(PageId(4)).expect("read"), Some(page));
    assert_eq!(data.read(PageId(2)).expect("read hole"), None);
}

#[test]
fn lru_cache_is_bounded_and_tracks_hits_and_misses() {
    let mut pool = BufferPool::new(open_store(), 2).expect("pool");

    let first = pool.allocate(b"first".to_vec()).expect("allocate first");
    let second = pool.allocate(b"second".to_vec()).expect("allocate second");
    assert_eq!(
        pool.get(first)
            .expect("get first")
            .expect("first page")
            .payload(),
        b"first"
    );

    let third = pool.allocate(b"third".to_vec()).expect("allocate third");
    assert_eq!(pool.len(), 2);
    assert_eq!(pool.stats().evictions, 1);

    assert_eq!(
        pool.get(second)
            .expect("reload second")
            .expect("second page")
            .payload(),
        b"second"
    );
    assert_eq!(pool.len(), 2);
    assert_eq!(pool.stats().misses, 1);
    assert_eq!(pool.stats().hits, 1);
    assert_ne!(first, third);
}

#[test]
fn a_pool_needs_room_for_a_page() {
    assert!(BufferPool::new(open_store(), 0).is_err());
}

#[test]
fn oversized_logs_trigger_automatic_checkpoints() {
    let mut handle = GroupCommitHandle::start(
        open_store(),
        GroupCommitOptions {
            checkpoint_after_wal_bytes: 4096,
            ..GroupCommitOptions::default()
        },
    )
    .expect("coordinator");

    for page_id in 0..8_u64 {
        handle
            .commit(vec![PageWrite {
                page_id: PageId(page_id),
                payload: vec![0x2b; 2048],
            }])
            .expect("commit");
    }

    let stats = handle.stats();
    assert!(
        stats.automatic_checkpoints > 0,
        "the worker must have checkpointed at least once: {stats:?}"
    );
    for page_id in 0..8_u64 {
        let page = handle
            .read_page(PageId(page_id))
            .expect("read")
            .expect("page");
        assert_eq!(page.payload()[0], 0x2b);
    }
}

#[test]
fn concurrent_requests_are_combined_into_fewer_sync_groups() {
    let mut coordinator = GroupCommitter::start(
        open_store(),
        GroupCommitOptions {
            queue_depth: 32,
            max_batch_pages: 32,
            max_delay_micros: 25_000,
            ..GroupCommitOptions::default()
        },
    )
    .expect("coordinator");

    for page_id in 0..8_u64 {
        coordinator.enqueue(vec![PageWrite {
            page_id: PageId(page_id),
            payload: page_id.to_le_bytes().to_vec(),
        }]);
    }
    let answers = coordinator.flush();
    assert_eq!(answers.len(), 8);
    for answer in answers {
        assert_eq!(answer.expect("commit").len(), 1);
    }

    let mut handle = coordinator.shutdown();
    let stats = handle.stats();
    assert_eq!(stats.requests, 8);
    assert_eq!(stats.pages, 8);
    assert!(stats.groups < stats.requests, "{stats:?}");
    for page_id in 0..8_u64 {
        assert_eq!(
            handle
                .read_page(PageId(page_id))
                .expect("read")
                .expect("page")
                .payload(),
            page_id.to_le_bytes()
        );
    }
    handle.checkpoint().expect("checkpoint barrier");
}

#[test]
fn commit_options_that_cannot_work_are_refused() {
    let options = GroupCommitOptions {
        queue_depth: 0,
        ..GroupCommitOptions::default()
    };
    assert!(matches!(
        options.validate(),
        Err(StorageError::Configuration(_))
    ));
    assert!(GroupCommitHandle::start(open_store(), options).is_err());
}

#[test]
fn a_refused_batch_is_told_why_and_ends_the_writes() {
    let mut handle = GroupCommitHandle::start(open_store(), GroupCommitOptions::default())
        .expect("start");
    let write = |page_id: u64, length: usize| {
        vec![PageWrite {
            page_id: PageId(page_id),
            payload: vec![1; length],
        }]
    };
    assert!(matches!(
        handle.commit(write(0, MAX_PAGE_PAYLOAD + 7)),
        Err(StorageError::PageTooLarge { actual, maximum: MAX_PAGE_PAYLOAD })
            if actual == MAX_PAGE_PAYLOAD + 7
    ));
    match handle.commit(write(u64::MAX, 1)) {
        Err(StorageError::GroupCommit(reason)) => {
            assert_eq!(reason, "corrupt data file: page offset overflow");
        }
        other => panic!("unexpected {other:?}"),
    }
    match handle.commit(write(0, 1)) {
        Err(StorageError::GroupCommit(reason)) => {
            assert_eq!(reason, StorageError::Poisoned.message());
        }
        other => panic!("unexpected {other:?}"),
    }
    assert!(matches!(handle.checkpoint(), Err(StorageError::Poisoned)));
}

#[test]
fn durable_pages_survive_reopen() {
    let mut disk = Disk::default();
    let mut store = disk.open();
    let page_id = store
        .allocate_page(b"committed".to_vec())
        .expect("allocate");
    disk.close(store);

    let reopened = disk.open();
    assert_eq!(
        reopened
            .read_page(page_id)
            .expect("read")
            .expect("page")
            .payload(),
        b"committed"
    );
}

#[test]
fn allocation_uses_contiguous_page_ids() {
    let mut store = open_store();
    assert_eq!(
        store.allocate_page(b"zero".to_vec()).expect("allocate"),
        PageId(0)
    );
    assert_eq!(
        store.allocate_page(b"one".to_vec()).expect("allocate"),
        PageId(1)
    );
    assert_eq!(
        store.allocate_page(b"two".to_vec()).expect("allocate"),
        PageId(2)
    );
}

#[test]
fn reservation_is_contiguous_and_advances_allocation() {
    let mut store = open_store();
    assert_eq!(
        store.reserve_page_ids(3).expect("reserve"),
        vec![PageId(0), PageId(1), PageId(2)]
    );
    assert_eq!(
        store.allocate_page(b"after".to_vec()).expect("allocate"),
        PageId(3)
    );
}

#[test]
fn recovery_replays_a_wal_record_missing_from_the_data_file() {
    let mut disk = Disk::default();
    let mut wal = Wal::open(&disk.log).expect("open WAL");
    wal.append_page(PageId(7), b"redo me").expect("append");
    wal.append_batch_commit(1).expect("commit");
    disk.log.extend(wal.take_appended());

    let store = disk.open();
    let page = store
        .read_page(PageId(7))
        .expect("read")
        .expect("recovered page");
    assert_eq!(page.payload(), b"redo me");
    assert_eq!(page.lsn(), Lsn(1));
}

#[test]
fn recovery_repairs_a_corrupt_page_from_valid_wal() {
    let mut disk = Disk::default();
    let mut store = disk.open();
    store
        .write_page(PageId(0), b"recoverable".to_vec())
        .expect("write");
    disk.close(store);
    disk.data[100] ^= 1;

    let recovered = disk.open();
    assert_eq!(
        recovered
            .read_page(PageId(0))
            .expect("read")
            .expect("page")
            .payload(),
        b"recoverable"
    );
}

#[test]
fn recovery_repairs_sampled_torn_data_page_boundaries() {
    let source_page =
        Page::with_lsn(PageId(0), Lsn(1), b"complete".to_vec()).expect("source page");
    let encoded = source_page.encode();

    for cut in [1_usize, 4, 63, 64, PAGE_SIZE / 2, PAGE_SIZE - 1] {
        let mut disk = Disk::default();
        let mut wal = Wal::open(&disk.log).expect("open WAL");
        wal.append_page(PageId(0), b"complete").expect("append");
        wal.append_batch_commit(1).expect("commit");
        disk.log.extend(wal.take_appended());
        disk.data = encoded[..cut].to_vec();

        let recovered = disk.open();
        assert_eq!(
            recovered
                .read_page(PageId(0))
                .expect("read")
                .expect("page")
                .payload(),
            b"complete",
            "cut at byte {cut}"
        );
    }
}

#[test]
fn recovery_replays_only_records_after_the_last_checkpoint() {
    let mut disk = Disk::default();
    let mut store = disk.open();
    store
        .write_page(PageId(1), b"before".to_vec())
        .expect("write");
    store.checkpoint().expect("checkpoint");
    disk.close(store);
    {
        let mut wal = Wal::open(&disk.log).expect("open WAL");
        wal.ensure_next_lsn_after(1).expect("resume LSNs");
        wal.append_page(PageId(1), b"after").expect("append");
        wal.append_batch_commit(1).expect("commit");
        disk.log.extend(wal.take_appended());
    }

    let store = disk.open();
    assert_eq!(
        store
            .read_page(PageId(1))
            .expect("read")
            .expect("page")
            .payload(),
        b"after"
    );
}

#[test]
fn checkpoints_truncate_the_log_and_recovery_still_works() {
    let mut disk = Disk::default();
    let mut store = disk.open();
    store
        .write_page(PageId(1), b"kept".to_vec())
        .expect("write");
    assert!(
        store.wal_size_bytes() > 0,
        "the log must grow before the checkpoint"
    );
    store.checkpoint().expect("checkpoint");
    assert_eq!(
        store.wal_size_bytes(),
        0,
        "a checkpoint must leave an empty log"
    );
    store
        .write_page(PageId(2), b"later".to_vec())
        .expect("write after checkpoint");
    disk.close(store);
    assert!(
        !disk.log.is_empty(),
        "post-checkpoint writes land in the fresh log"
    );

    let mut store = disk.open();
    assert_eq!(
        store
            .read_page(PageId(1))
            .expect("read kept")
            .expect("page")
            .payload(),
        b"kept"
    );
    assert_eq!(
        store
            .read_page(PageId(2))
            .expect("read later")
            .expect("page")
            .payload(),
        b"later"
    );
    let third = store.allocate_page(b"fresh".to_vec()).expect("allocate");
    assert_eq!(third, PageId(3), "page IDs continue past the truncation");
}

#[test]
fn released_pages_are_reused_before_fresh_ones() {
    let mut store = open_store();
    for fill in 0..3_u8 {
        store.allocate_page(vec![fill; 8]).expect("allocate");
    }
    store.release_pages(&[PageId(1)]);
    assert_eq!(store.free_page_count(), 1);

    let reserved = store.reserve_page_ids(2).expect("reserve");
    assert_eq!(
        reserved,
        vec![PageId(1), PageId(3)],
        "the released page comes back first, then a fresh one"
    );
    assert_eq!(store.free_page_count(), 0);

    store
        .write_page(PageId(1), b"reused".to_vec())
        .expect("write reused page");
    assert_eq!(
        store
            .read_page(PageId(1))
            .expect("read")
            .expect("page")
            .payload(),
        b"reused"
    );
}

#[test]
fn grouped_writes_share_sync_boundaries_and_remain_recoverable() {
    let mut disk = Disk::default();
    let mut store = disk.open();
    let lsns = store
        .write_pages(vec![
            PageWrite {
                page_id: PageId(10),
                payload: b"ten".to_vec(),
            },
            PageWrite {
                page_id: PageId(11),
                payload: b"eleven".to_vec(),
            },
        ])
        .expect("group write");
    assert_eq!(lsns, vec![Lsn(1), Lsn(2)]);
    disk.close(store);

    let reopened = disk.open();
    assert_eq!(
        reopened
            .read_page(PageId(10))
            .expect("read")
            .expect("page")
            .payload(),
        b"ten"
    );
    assert_eq!(
        reopened
            .read_page(PageId(11))
            .expect("read")
            .expect("page")
            .payload(),
        b"eleven"
    );
}

#[test]
fn repaired_wal_tail_never_reuses_a_durable_page_lsn() {
    let mut disk = Disk::default();
    let mut store = disk.open();
    assert_eq!(
        store
            .write_page(PageId(1), b"first".to_vec())
            .expect("write"),
        Lsn(1)
    );
    disk.close(store);
    let last = disk.log.len() - 1;
    disk.log[last] = b'X';

    let mut reopened = disk.open();
    assert_eq!(
        reopened
            .write_page(PageId(1), b"second".to_vec())
            .expect("write after repair"),
        Lsn(2)
    );
}

#[test]
fn recovery_ignores_page_images_without_a_batch_commit() {
    let mut disk = Disk::default();
    let mut wal = Wal::open(&disk.log).expect("open WAL");
    wal.append_page(PageId(5), b"uncommitted").expect("append");
    disk.log.extend(wal.take_appended());

    let store = disk.open();
    assert_eq!(store.read_page(PageId(5)).expect("read"), None);
}

#[test]
fn recovery_replays_all_pages_of_a_committed_batch() {
    let mut disk = Disk::default();
    let mut wal = Wal::open(&disk.log).expect("open WAL");
    wal.append_page(PageId(20), b"twenty").expect("append");
    wal.append_page(PageId(21), b"twenty-one").expect("append");
    wal.append_batch_commit(2).expect("commit");
    disk.log.extend(wal.take_appended());

    let store = disk.open();
    assert_eq!(
        store
            .read_page(PageId(20))
            .expect("read")
            .expect("page")
            .payload(),
        b"twenty"
    );
    assert_eq!(
        store
            .read_page(PageId(21))
            .expect("read")
            .expect("page")
            .payload(),
        b"twenty-one"
    );
}

#[test]
fn a_new_commit_does_not_adopt_an_old_uncommitted_tail() {
    let mut disk = Disk::default();
    {
        let mut wal = Wal::open(&disk.log).expect("open WAL");
        wal.append_page(PageId(30), b"abandoned").expect("append");
        disk.log.extend(wal.take_appended());
    }
    let mut store = disk.open();
    store
        .write_page(PageId(31), b"committed".to_vec())
        .expect("new commit");
    disk.close(store);

    let recovered = disk.open();
    assert_eq!(recovered.read_page(PageId(30)).expect("read"), None);
    assert_eq!(
        recovered
            .read_page(PageId(31))
            .expect("read")
            .expect("page")
            .payload(),
        b"committed"
    );
}

#[test]
fn a_poisoned_store_refuses_to_write() {
    let mut store = open_store();
    store.poison();
    assert!(store.is_poisoned());
    assert!(store.write_page(PageId(0), b"late".to_vec()).is_err());
}

#[test]
fn writes_that_repeat_a_page_or_are_too_large_are_refused() {
    let mut store = open_store();
    let write = |page: u64, length: usize| PageWrite {
        page_id: PageId(page),
        payload: vec![1; length],
    };
    assert!(store.write_pages(vec![write(0, MAX_PAGE_PAYLOAD + 1)]).is_err());
    assert_eq!(store.read_page(PageId(0)).expect("read"), None);
    assert!(store.write_pages(vec![write(0, MAX_PAGE_PAYLOAD)]).is_ok());
}

#[test]
fn every_single_turned_bit_is_detected() {
    let page = Page::new(PageId(3), b"valuable data".to_vec()).expect("page");
    let image = page.encode();
    assert_eq!(Page::decode(&image).expect("page"), page);
    let places = (0..128).chain((128..image.len()).step_by(61)).chain([image.len() - 1]);
    for at in places {
        for bit in 0..8 {
            let mut other = image.clone();
            other[at] ^= 1 << bit;
            assert!(
                matches!(Page::decode(&other), Err(StorageError::CorruptPage { .. })),
                "bit {bit} of byte {at}"
            );
        }
    }
}

fn sized_write(page: u64, length: usize) -> PageWrite {
    PageWrite {
        page_id: PageId(page),
        payload: vec![7; length],
    }
}

#[test]
fn a_relaxed_batch_rides_the_next_sync() {
    let mut disk = Disk::default();
    let store = disk.open();
    let mut handle =
        GroupCommitHandle::start(store, GroupCommitOptions::default()).expect("start");
    handle.commit(vec![sized_write(0, 1)]).expect("commit");
    disk.apply(handle.take_ops());
    let (data, log) = (disk.data.clone(), disk.log.clone());

    assert_eq!(handle.commit_relaxed(Vec::new()).expect("nothing to write"), Vec::<Lsn>::new());
    assert!(handle.take_ops().is_empty());
    let lsns = handle
        .commit_relaxed(vec![sized_write(1, 2), sized_write(0, 3)])
        .expect("commit");
    assert_eq!(lsns, vec![Lsn(3), Lsn(4)]);
    assert_eq!(handle.stats().groups, 2);
    let read = |handle: &GroupCommitHandle, id: u64| {
        let page = handle.read_page(PageId(id)).expect("read").expect("there");
        page.payload().to_vec()
    };
    assert_eq!(read(&handle, 0), sized_write(0, 3).payload, "it reads at once");
    let ops = handle.take_ops();
    assert_eq!(ops.len(), 1, "nothing is synced, and no page is written");
    let appended = match &ops[0] {
        FileOp::WalAppend(bytes) => bytes.clone(),
        _ => panic!("the log is appended to"),
    };
    disk.apply(ops);
    assert_eq!(disk.data, data);

    let reopened = DurableStore::open(&disk.data, &disk.log).expect("open");
    let page = reopened.read_page(PageId(1)).expect("read").expect("there");
    assert_eq!(page.payload(), sized_write(1, 2).payload.as_slice(), "the log has it");
    for cut in [0, appended.len() / 2, appended.len() - 1] {
        let torn = [log.as_slice(), &appended[..cut]].concat();
        let undone = DurableStore::open(&data, &torn).expect("open");
        let page = undone.read_page(PageId(0)).expect("read").expect("there");
        assert_eq!(page.payload(), sized_write(0, 1).payload.as_slice());
        assert!(undone.read_page(PageId(1)).expect("read").is_none());
    }

    handle.commit(vec![sized_write(2, 4)]).expect("commit");
    let written: Vec<u64> = handle
        .take_ops()
        .iter()
        .filter_map(|op| match op {
            FileOp::DataWrite { page_id, .. } => Some(page_id.0),
            _ => None,
        })
        .collect();
    assert_eq!(written, vec![1, 0, 2], "what waited goes first");
}

#[test]
fn a_checkpoint_writes_the_pages_that_wait() {
    let mut disk = Disk::default();
    let mut store = disk.open();
    store
        .write_pages_relaxed(vec![sized_write(0, 5)])
        .expect("write");
    store.checkpoint().expect("checkpoint");
    let ops = store.take_ops();
    let kinds: Vec<&str> = ops
        .iter()
        .map(|op| match op {
            FileOp::DataTruncate { .. } => "cut data",
            FileOp::WalTruncate { .. } => "cut log",
            FileOp::WalAppend(_) => "append",
            FileOp::WalSync => "sync log",
            FileOp::DataWrite { .. } => "write",
            FileOp::DataSync => "sync data",
        })
        .collect();
    assert_eq!(
        kinds,
        vec!["append", "sync log", "write", "sync data", "append", "sync log", "cut log"]
    );
    disk.apply(ops);
    assert!(disk.log.is_empty());
    let reopened = disk.open();
    let page = reopened.read_page(PageId(0)).expect("read").expect("there");
    assert_eq!(page.payload(), sized_write(0, 5).payload.as_slice());
}

#[test]
fn a_relaxed_batch_is_refused_as_others_are() {
    let mut handle = GroupCommitHandle::start(open_store(), GroupCommitOptions::default())
        .expect("start");
    assert!(matches!(
        handle.commit_relaxed(vec![sized_write(0, MAX_PAGE_PAYLOAD + 1)]),
        Err(StorageError::PageTooLarge { .. })
    ));
    assert_eq!(handle.stats().groups, 0);
    assert!(matches!(
        handle.commit_relaxed(vec![sized_write(u64::MAX, 1)]),
        Err(StorageError::GroupCommit(_))
    ));
    assert!(matches!(
        handle.commit_relaxed(vec![sized_write(0, 1)]),
        Err(StorageError::GroupCommit(_))
    ));
}
