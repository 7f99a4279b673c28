//! Index nodes, their cache, and the tree.
use quantadb::index::cache::NodeCache;
use quantadb::index::compact::SHORT_KEY_LENGTH;
use quantadb::index::error::IndexError;
use quantadb::index::model::MAX_KEY_LENGTH;
use quantadb::index::node::{IndexEntry, Node};
use quantadb::index::plan::{IndexMutation, IndexRoot};
use quantadb::index::tree::BPlusTree;
use quantadb::storage::group_commit::{GroupCommitHandle, GroupCommitOptions};
use quantadb::storage::page::{PageId, PAGE_SIZE};
use quantadb::storage::store::{DurableStore, FileOp, PageWrite};
use std::collections::BTreeMap;
use std::sync::Arc;

fn leaf(key: &[u8]) -> Arc<Node> {
    Arc::new(Node::Leaf {
        entries: vec![IndexEntry {
            key: key.to_vec(),
            value: PageId(1),
        }],
        next: None,
    })
}

#[test]
fn cache_serves_hits_and_counts_misses() {
    let mut cache = NodeCache::new(1 << 20);
    assert!(cache.get(PageId(7)).is_none());
    cache.insert(PageId(7), &leaf(b"key"));
    assert!(cache.get(PageId(7)).is_some());
    let stats = cache.stats();
    assert_eq!(stats.hits, 1);
    assert_eq!(stats.misses, 1);
    assert_eq!(stats.entries, 1);
    assert!(stats.bytes > 0);
}

#[test]
fn cache_evicts_least_recently_used_within_budget() {
    let node = leaf(b"0123456789");
    let node_bytes = node.approximate_bytes();
    let mut cache = NodeCache::new(node_bytes * 2);

    cache.insert(PageId(1), &node);
    cache.insert(PageId(2), &leaf(b"0123456789"));
    assert!(cache.get(PageId(1)).is_some(), "page 1 must still be hot");
    cache.insert(PageId(3), &leaf(b"0123456789"));

    assert!(cache.get(PageId(1)).is_some(), "recently used survives");
    assert!(cache.get(PageId(2)).is_none(), "least recent is evicted");
    assert!(cache.get(PageId(3)).is_some(), "new entry is resident");
    assert!(cache.stats().bytes <= node_bytes * 2);
}

#[test]
fn oversized_nodes_are_not_cached() {
    let node = leaf(b"payload");
    let mut cache = NodeCache::new(1);
    cache.insert(PageId(1), &node);
    assert!(cache.get(PageId(1)).is_none());
    assert_eq!(cache.stats().entries, 0);
}

#[test]
fn leaf_and_internal_nodes_round_trip() {
    let nodes = [
        Node::Leaf {
            entries: vec![
                IndexEntry {
                    key: b"a".to_vec(),
                    value: PageId(2),
                },
                IndexEntry {
                    key: b"b".to_vec(),
                    value: PageId(3),
                },
            ],
            next: Some(PageId(8)),
        },
        Node::Internal {
            level: 2,
            first_child: PageId(4),
            separators: vec![IndexEntry {
                key: b"k".to_vec(),
                value: PageId(5),
            }],
        },
    ];

    for node in nodes {
        assert_eq!(
            Node::decode(PageId(1), &node.encode().expect("encode")).expect("decode"),
            node
        );
    }
}

#[test]
fn decoder_rejects_truncated_and_noncanonical_nodes() {
    let node = Node::Leaf {
        entries: vec![IndexEntry {
            key: b"a".to_vec(),
            value: PageId(2),
        }],
        next: None,
    };
    let encoded = node.encode().expect("encode");
    assert!(matches!(
        Node::decode(PageId(7), &encoded[..encoded.len() - 1]),
        Err(IndexError::CorruptNode { .. })
    ));

    let mut reserved = encoded;
    reserved[24] = 1;
    assert!(matches!(
        Node::decode(PageId(7), &reserved),
        Err(IndexError::CorruptNode { .. })
    ));
}

#[derive(Default)]
struct Disk {
    data: Vec<u8>,
    log: Vec<u8>,
}

impl Disk {
    fn apply(&mut self, ops: Vec<FileOp>) {
        for op in ops {
            match op {
                FileOp::DataTruncate { pages } => self.data.resize(pages as usize * PAGE_SIZE, 0),
                FileOp::WalTruncate { length } => self.log.truncate(length as usize),
                FileOp::WalAppend(bytes) => self.log.extend_from_slice(&bytes),
                FileOp::DataWrite { page_id, image } => {
                    let offset = page_id.0 as usize * PAGE_SIZE;
                    if self.data.len() < offset + image.len() {
                        self.data.resize(offset + image.len(), 0);
                    }
                    self.data[offset..offset + image.len()].copy_from_slice(&image);
                }
                FileOp::WalSync | FileOp::DataSync => {}
            }
        }
    }

    fn open(&mut self) -> GroupCommitHandle {
        let store = DurableStore::open(&self.data, &self.log).expect("open store");
        let mut handle =
            GroupCommitHandle::start(store, GroupCommitOptions::default()).expect("committer");
        self.apply(handle.take_ops());
        handle
    }
}

fn open() -> (GroupCommitHandle, NodeCache) {
    (Disk::default().open(), NodeCache::new(1 << 20))
}

fn entries(count: u64) -> Vec<IndexEntry> {
    (0..count)
        .map(|number| IndexEntry {
            key: format!("key:{number:08}").into_bytes(),
            value: PageId(number * 3 + 1),
        })
        .collect()
}

fn built(handle: &mut GroupCommitHandle, source: &[IndexEntry]) -> IndexRoot {
    BPlusTree::build(handle, source.to_vec())
        .expect("build")
        .expect("root")
}

#[test]
fn empty_tree_has_no_root_and_duplicate_keys_are_rejected() {
    let (mut handle, _) = open();
    assert_eq!(
        BPlusTree::build(&mut handle, Vec::<IndexEntry>::new()).expect("empty build"),
        None
    );
    assert!(matches!(
        BPlusTree::build(
            &mut handle,
            vec![
                IndexEntry {
                    key: b"a".to_vec(),
                    value: PageId(1),
                },
                IndexEntry {
                    key: b"a".to_vec(),
                    value: PageId(2),
                },
            ],
        ),
        Err(IndexError::KeysNotStrictlyIncreasing)
    ));
}

#[test]
fn split_tree_supports_point_and_bounded_range_reads() {
    let (mut handle, mut cache) = open();
    let source = entries(5_000);
    let root = built(&mut handle, &source);
    assert!(root.height >= 2, "{root:?}");
    assert_eq!(root.entries, 5_000);

    for position in [0_usize, 1, 400, 4_999] {
        assert_eq!(
            BPlusTree::get(&handle, &mut cache, root, &source[position].key).expect("get"),
            Some(source[position].value)
        );
    }
    assert_eq!(
        BPlusTree::get(&handle, &mut cache, root, b"missing").expect("missing"),
        None
    );

    let range = BPlusTree::range(
        &handle,
        &mut cache,
        root,
        Some(&source[123].key),
        Some(&source[140].key),
        10,
    )
    .expect("range");
    assert_eq!(range, source[123..133]);
}

#[test]
fn durable_generation_survives_storage_restart() {
    let mut disk = Disk::default();
    let source = entries(1_000);
    let mut handle = disk.open();
    let root = built(&mut handle, &source);
    disk.apply(handle.take_ops());

    let handle = disk.open();
    let mut cache = NodeCache::new(1 << 20);
    assert_eq!(
        BPlusTree::range(&handle, &mut cache, root, None, None, usize::MAX).expect("scan"),
        source
    );
}

#[test]
fn randomized_model_matches_point_and_range_reads() {
    let (mut handle, mut cache) = open();
    let mut random = 0x8f3f_73b5_cf1c_9ade_u64;
    let mut source = Vec::new();
    for number in 0..2_000_u64 {
        random = random
            .wrapping_mul(6_364_136_223_846_793_005)
            .wrapping_add(1);
        source.push(IndexEntry {
            key: format!("{random:016x}:{number:08}").into_bytes(),
            value: PageId(number),
        });
    }
    source.sort_by(|left, right| left.key.cmp(&right.key));
    let root = built(&mut handle, &source);

    for position in (0..source.len()).step_by(37) {
        assert_eq!(
            BPlusTree::get(&handle, &mut cache, root, &source[position].key).expect("get"),
            Some(source[position].value)
        );
    }
    for start in (0..source.len() - 20).step_by(113) {
        let actual = BPlusTree::range(
            &handle,
            &mut cache,
            root,
            Some(&source[start].key),
            Some(&source[start + 20].key),
            usize::MAX,
        )
        .expect("range");
        assert_eq!(actual, source[start..start + 20]);
    }
}

#[test]
fn copy_on_write_edits_replace_only_reachable_paths() {
    let (mut handle, mut cache) = open();
    let source = entries(5_000);
    let root = built(&mut handle, &source);
    let plan = BPlusTree::edit_plan(
        &mut handle,
        &mut cache,
        Some(root),
        vec![
            IndexMutation::Upsert(IndexEntry {
                key: source[1_234].key.clone(),
                value: PageId(900_001),
            }),
            IndexMutation::Delete(source[2_345].key.clone()),
            IndexMutation::Upsert(IndexEntry {
                key: b"key:00001234:after".to_vec(),
                value: PageId(900_002),
            }),
        ],
    )
    .expect("edit plan");
    let edited_root = plan.root().expect("edited root");
    assert!(plan.write_count() < 20, "writes: {}", plan.write_count());
    handle.commit(plan.into_writes()).expect("commit edit");

    assert_eq!(
        BPlusTree::get(&handle, &mut cache, edited_root, &source[1_234].key).expect("updated get"),
        Some(PageId(900_001))
    );
    assert_eq!(
        BPlusTree::get(&handle, &mut cache, edited_root, &source[2_345].key).expect("deleted get"),
        None
    );
    assert_eq!(
        BPlusTree::get(&handle, &mut cache, edited_root, b"key:00001234:after")
            .expect("inserted get"),
        Some(PageId(900_002))
    );

    let range = BPlusTree::range(
        &handle,
        &mut cache,
        edited_root,
        Some(b"key:00001233"),
        Some(b"key:00001236"),
        usize::MAX,
    )
    .expect("edited range");
    assert_eq!(
        range,
        vec![
            source[1_233].clone(),
            IndexEntry {
                key: source[1_234].key.clone(),
                value: PageId(900_001),
            },
            IndexEntry {
                key: b"key:00001234:after".to_vec(),
                value: PageId(900_002),
            },
            source[1_235].clone(),
        ]
    );
}

#[test]
fn randomized_copy_on_write_edits_match_ordered_map() {
    let (mut handle, mut cache) = open();
    let source = entries(1_000);
    let root = built(&mut handle, &source);
    let mut model = source
        .into_iter()
        .map(|entry| (entry.key, entry.value))
        .collect::<BTreeMap<_, _>>();
    let mut mutations = Vec::new();
    let mut random = 0xa076_1d64_78bd_642f_u64;

    for step in 0..2_000_u64 {
        random = random
            .wrapping_mul(2_862_933_555_777_941_757)
            .wrapping_add(3_037_000_493);
        let key = format!("key:{:08}", random % 1_500).into_bytes();
        if random & 3 == 0 {
            model.remove(&key);
            mutations.push(IndexMutation::Delete(key));
        } else {
            let value = PageId(100_000 + step);
            model.insert(key.clone(), value);
            mutations.push(IndexMutation::Upsert(IndexEntry { key, value }));
        }
    }

    let plan = BPlusTree::edit_plan(&mut handle, &mut cache, Some(root), mutations)
        .expect("edit plan");
    let edited_root = plan.root().expect("edited root");
    handle.commit(plan.into_writes()).expect("commit edits");
    let actual = BPlusTree::range(&handle, &mut cache, edited_root, None, None, usize::MAX)
        .expect("scan edited tree")
        .into_iter()
        .map(|entry| (entry.key, entry.value))
        .collect::<BTreeMap<_, _>>();
    assert_eq!(actual, model);
    assert_eq!(edited_root.entries, model.len() as u64);
}

#[test]
fn deleting_every_key_leaves_an_empty_tree() {
    let (mut handle, mut cache) = open();
    let source = entries(50);
    let root = built(&mut handle, &source);
    let mutations = source
        .iter()
        .map(|entry| IndexMutation::Delete(entry.key.clone()))
        .collect();
    let plan = BPlusTree::edit_plan(&mut handle, &mut cache, Some(root), mutations)
        .expect("edit plan");
    assert_eq!(plan.root(), None);
    assert_eq!(plan.write_count(), 0);
}

#[test]
fn keys_that_do_not_fit_a_node_are_refused() {
    let (mut handle, _) = open();
    assert!(BPlusTree::build(
        &mut handle,
        vec![IndexEntry {
            key: vec![0; 9_000],
            value: PageId(1),
        }],
    )
    .is_err());
}

#[test]
fn a_page_that_is_no_node_is_reported() {
    let (mut handle, mut cache) = open();
    handle
        .commit(vec![PageWrite {
            page_id: PageId(0),
            payload: b"not a node".to_vec(),
        }])
        .expect("commit");
    let root = IndexRoot {
        page_id: PageId(0),
        height: 1,
        entries: 1,
    };
    assert!(matches!(
        BPlusTree::get(&handle, &mut cache, root, b"k"),
        Err(IndexError::CorruptNode { .. })
    ));
}

fn scan_stops(handle: &GroupCommitHandle, page_id: u64, height: u16) -> (u64, String) {
    let root = IndexRoot {
        page_id: PageId(page_id),
        height,
        entries: 1,
    };
    let mut cache = NodeCache::new(0);
    match BPlusTree::range(handle, &mut cache, root, None, None, usize::MAX) {
        Err(IndexError::CorruptNode { page_id, reason }) => (page_id.0, reason),
        other => panic!("unexpected {other:?}"),
    }
}

fn node_page(page_id: u64, node: &Node) -> PageWrite {
    PageWrite {
        page_id: PageId(page_id),
        payload: node.encode().expect("encode"),
    }
}

#[test]
fn a_scan_stops_at_the_first_page_it_cannot_go_on_from() {
    let (mut handle, mut cache) = open();
    let parent = |first: u64, second: u64| Node::Internal {
        level: 1,
        first_child: PageId(first),
        separators: vec![IndexEntry {
            key: b"m".to_vec(),
            value: PageId(second),
        }],
    };
    handle
        .commit(vec![
            node_page(0, &leaf(b"c")),
            node_page(1, &leaf(b"a")),
            node_page(2, &parent(0, 0)),
            node_page(3, &parent(0, 1)),
            node_page(4, &parent(0, 9)),
        ])
        .expect("commit");

    assert_eq!(
        scan_stops(&handle, 0, 0),
        (0, "root height cannot be zero".to_string())
    );
    assert_eq!(
        scan_stops(&handle, 0, 2),
        (0, "node level does not match tree height".to_string())
    );
    assert_eq!(
        scan_stops(&handle, 2, 2),
        (0, "index tree contains a page cycle".to_string())
    );
    assert_eq!(
        scan_stops(&handle, 3, 2),
        (1, "leaf chain is not strictly ordered".to_string())
    );
    assert_eq!(
        scan_stops(&handle, 4, 2),
        (9, "referenced page does not exist".to_string())
    );

    let root = IndexRoot {
        page_id: PageId(4),
        height: 2,
        entries: 1,
    };
    let found = BPlusTree::range(&handle, &mut cache, root, None, None, 1).expect("first entry");
    assert_eq!(found.len(), 1);
    assert_eq!(found[0].key, b"c");
    assert!(
        BPlusTree::range(&handle, &mut cache, root, Some(b"x"), Some(b"d"), 5)
            .expect("empty range")
            .is_empty()
    );
}

fn upsert(key: Vec<u8>, value: u64) -> IndexMutation {
    IndexMutation::Upsert(IndexEntry {
        key,
        value: PageId(value),
    })
}

#[test]
fn keys_of_half_a_node_always_find_room() {
    let (mut handle, mut cache) = open();
    let mut root = None;
    for step in 0..40_u8 {
        let mut key = vec![step.wrapping_mul(37); SHORT_KEY_LENGTH];
        key[0] = step.wrapping_mul(101);
        let plan = BPlusTree::edit_plan(
            &mut handle,
            &mut cache,
            root,
            vec![upsert(key.clone(), u64::from(step))],
        )
        .expect("edit plan");
        root = plan.root();
        handle.commit(plan.into_writes()).expect("commit edit");
        assert_eq!(
            BPlusTree::get(&handle, &mut cache, root.expect("root"), &key).expect("get"),
            Some(PageId(u64::from(step)))
        );
    }
    assert_eq!(root.expect("root").entries, 40);
}

#[test]
fn a_longest_key_between_others_outgrows_the_root() {
    let (mut handle, mut cache) = open();
    let source = vec![
        IndexEntry {
            key: b"a".to_vec(),
            value: PageId(1),
        },
        IndexEntry {
            key: b"c".to_vec(),
            value: PageId(2),
        },
    ];
    let root = built(&mut handle, &source);
    let refused = BPlusTree::edit_plan(
        &mut handle,
        &mut cache,
        Some(root),
        vec![upsert(vec![b'b'; MAX_KEY_LENGTH], 3)],
    );
    assert!(matches!(refused, Err(IndexError::KeyTooLarge { .. })));
}

#[test]
fn an_edit_of_an_empty_index_takes_one_page_number_a_change() {
    let (mut handle, mut cache) = open();
    let plan = BPlusTree::edit_plan(
        &mut handle,
        &mut cache,
        None,
        vec![upsert(b"b".to_vec(), 1), upsert(b"a".to_vec(), 2), upsert(b"b".to_vec(), 3)],
    )
    .expect("edit plan");
    let root = plan.root().expect("root");
    assert_eq!(
        (root.page_id, root.height, root.entries),
        (PageId(2), 1, 2),
        "the root stays a leaf"
    );
    let writes = plan.into_writes();
    assert_eq!(writes.len(), 1);
    assert_eq!(writes[0].page_id, PageId(2));
    match Node::decode(PageId(2), &writes[0].payload).expect("node") {
        Node::Leaf { entries, next } => {
            assert_eq!(
                entries,
                vec![
                    IndexEntry {
                        key: b"a".to_vec(),
                        value: PageId(2),
                    },
                    IndexEntry {
                        key: b"b".to_vec(),
                        value: PageId(3),
                    },
                ]
            );
            assert_eq!(next, None);
        }
        other => panic!("expected a leaf, got {other:?}"),
    }
}

#[test]
fn a_long_key_that_fits_a_page_is_taken() {
    let (mut handle, mut cache) = open();
    let key = vec![7; 8_000];
    let plan = BPlusTree::edit_plan(&mut handle, &mut cache, None, vec![upsert(key.clone(), 1)])
        .expect("edit plan");
    let root = plan.root().expect("root");
    handle.commit(plan.into_writes()).expect("commit");
    assert_eq!(
        BPlusTree::get(&handle, &mut cache, root, &key).expect("get"),
        Some(PageId(1))
    );
}

#[test]
fn scans_from_an_earlier_root_stay_as_they_were() {
    let (mut handle, mut cache) = open();
    let source = entries(2_000);
    let root = built(&mut handle, &source);
    let plan = BPlusTree::edit_plan(
        &mut handle,
        &mut cache,
        Some(root),
        vec![
            upsert(source[10].key.clone(), 900_001),
            IndexMutation::Delete(source[1_500].key.clone()),
        ],
    )
    .expect("edit plan");
    let edited = plan.root().expect("edited root");
    let writes = plan.into_writes();
    assert!(writes
        .windows(2)
        .all(|pair| pair[0].page_id.0 < pair[1].page_id.0));
    handle.commit(writes).expect("commit");
    assert_eq!(
        BPlusTree::range(&handle, &mut cache, root, None, None, usize::MAX).expect("scan"),
        source
    );
    assert_eq!(edited.entries, 1_999);
}

#[test]
fn a_node_that_was_read_is_written_as_it_was() {
    let (mut handle, mut cache) = open();
    let plan = BPlusTree::edit_plan(
        &mut handle,
        &mut cache,
        None,
        (0..2_000)
            .map(|number| upsert(format!("key:{number:08}").into_bytes(), number))
            .collect(),
    )
    .expect("edit plan");
    let writes = plan.into_writes();
    assert!(writes.len() > 2);
    for write in writes {
        let node = Node::decode(write.page_id, &write.payload).expect("node");
        assert_eq!(node.encode().expect("image"), write.payload);
    }
}

#[test]
fn an_edit_names_the_damage_that_it_meets() {
    let (mut handle, mut cache) = open();
    let source = entries(2_000);
    let root = built(&mut handle, &source);
    let refused = |handle: &mut GroupCommitHandle, root: IndexRoot| {
        let mut cache = NodeCache::new(1 << 20);
        match BPlusTree::edit_plan(
            handle,
            &mut cache,
            Some(root),
            vec![upsert(source[1_999].key.clone(), 5)],
        ) {
            Err(IndexError::CorruptNode { page_id, reason }) => (page_id, reason),
            other => panic!("expected damage, got {other:?}"),
        }
    };
    assert_eq!(
        refused(&mut handle, IndexRoot { height: 0, ..root }),
        (root.page_id, "root height cannot be zero".to_owned())
    );
    assert_eq!(
        refused(
            &mut handle,
            IndexRoot {
                height: root.height + 1,
                ..root
            }
        ),
        (root.page_id, "node level does not match tree height".to_owned())
    );
    let missing = PageId(1_000_000);
    assert_eq!(
        refused(
            &mut handle,
            IndexRoot {
                page_id: missing,
                ..root
            }
        ),
        (missing, "referenced page does not exist".to_owned())
    );
    assert_eq!(
        BPlusTree::range(&handle, &mut cache, root, None, None, usize::MAX).expect("scan"),
        source,
        "a refused edit changes nothing"
    );
}

#[test]
fn deleting_a_key_that_no_node_holds_follows_its_path() {
    let (mut handle, mut cache) = open();
    let source = entries(2_000);
    let root = built(&mut handle, &source);
    let long = || vec![IndexMutation::Delete(vec![b'z'; 9_000])];
    let plan = BPlusTree::edit_plan(&mut handle, &mut cache, Some(root), long()).expect("edit plan");
    assert_eq!(plan.root(), Some(root));
    assert_eq!(plan.write_count(), 0);
    let taller = IndexRoot {
        height: root.height + 1,
        ..root
    };
    match BPlusTree::edit_plan(&mut handle, &mut cache, Some(taller), long()) {
        Err(IndexError::CorruptNode { page_id, reason }) => {
            assert_eq!(page_id, root.page_id);
            assert_eq!(reason, "node level does not match tree height");
        }
        other => panic!("expected damage, got {other:?}"),
    }
}
