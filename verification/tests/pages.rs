use inspace::bytes::{less, order, Order};
use inspace::error::{Error, Fault};
use inspace::page::{Meta, Node, Record};
use inspace::storage::check::check;
use inspace::storage::coordination::{
    count_reader, decode_tx_id, encode_tx_id, payload_block, slot_to_try, token_offset, LockRange, TokenQuery, TokenSearch,
    MAX_READER_SLOTS, PAYLOAD_STRIDE, TOKEN_BASE,
};
use inspace::storage::cursor::{search_leaf, PageCursor, Pages};
use inspace::storage::grow::{grow, needed};
use inspace::storage::inspect::FormatInfo;
use inspace::storage::meta::{
    initial_pages, publish, read_meta, select_meta, write_meta_page, BucketMeta, Meta as PageMeta,
};
use inspace::storage::node::{write_node, LeafEntry, Node as PageNode, NodeData};
use inspace::storage::options::{
    check_capacity, default_page_size, page_size_from, FileAction, OpenOptions, OpenPlan,
};
use inspace::storage::page::{seal_block, Page, RetiredPage, NODE_BUCKET, NODE_DATA};
use inspace::storage::readers::OpenReaders;
use inspace::storage::salvage::{find_bucket, salvage};
use inspace::storage::stats::{collect, Counters};
use inspace::storage::verification::{extract_page_id, infer_page_kind, report, VerifyReport};
use inspace::storage::writer::{
    after_attempt, begin, plan_commit, write_freelist, writer_start, Attempt, Begin, DirtyBlock, WriteMode,
};
use inspace::tree::build_tree;

#[test]
fn bytes() {
    let meta = BucketMeta { root_page: 3, next_int: 1 };
    let bytes = meta.to_bytes();
    assert_eq!(bytes, &[3, 0, 0, 0, 0, 0, 0, 0, 1, 0, 0, 0, 0, 0, 0, 0]);
    assert_eq!(BucketMeta::from_bytes(&bytes), meta);
}

#[test]
fn meta_round_trip_and_checksum() {
    let meta = Meta { page_size: 4096, txid: 7, root: 42, high_water: 99, freelist: 12 };
    let mut encoded = meta.encode().unwrap();
    assert_eq!(Meta::decode(&encoded).unwrap(), meta);
    encoded[24] ^= 1;
    assert!(Meta::decode(&encoded).is_err());
}

#[test]
fn builds_multi_level_tree_with_overflow_values() {
    let records = (0_u32..500)
        .map(|number| Record {
            key: number.to_be_bytes().to_vec(),
            value: if number == 250 { vec![9; 12_000] } else { number.to_le_bytes().repeat(8) },
        })
        .collect::<Vec<_>>();
    let tree = build_tree(&records, 1024, 2).unwrap();
    assert!(tree.pages.len() > 2);
    assert!(tree.high_water > tree.root);
    for (page, bytes) in &tree.pages {
        let node = Node::decode(bytes, 1024).unwrap();
        assert_eq!(node.page(), *page);
        if node.is_leaf() {
            node.leaf_records().unwrap();
        } else {
            node.branches().unwrap();
        }
    }
}

#[test]
fn transaction_ids_round_trip_through_lock_ranges() {
    for tx_id in [0, 1, u32::MAX as u64, u32::MAX as u64 + 1, u64::MAX] {
        let block = payload_block(7);
        let (start, length) = encode_tx_id(7, tx_id);
        assert!(start + length <= block + PAYLOAD_STRIDE);
        assert_eq!(decode_tx_id(block, LockRange { start, length }).unwrap(), tx_id);
    }
}

#[test]
fn test_meta() {
    let mut meta = PageMeta {
        meta_page: 1,
        magic: 1_234_567_890,
        version: 987_654_321,
        pagesize: 4096,
        root: BucketMeta { root_page: 2, next_int: 2020 },
        num_pages: 13,
        freelist_page: 3,
        tx_id: 8,
        hash: 64,
    };
    assert!(!meta.valid());
    meta.hash = meta.hash_self();
    assert_eq!(meta.hash, meta.hash_self());

    meta.tx_id = 88;
    assert_ne!(meta.hash, meta.hash_self());

    meta.hash = meta.hash_self();
    assert_eq!(meta.hash, meta.hash_self());
}

fn created(plan: &OpenPlan) -> u64 {
    match plan.action {
        FileAction::Create { bytes, direct_writes: false } => bytes,
        _ => panic!("a new file is made"),
    }
}

fn opened(options: &OpenOptions, file: &[u8]) -> OpenPlan {
    options.plan(Some(FormatInfo::inspect(file, file.len() as u64))).unwrap()
}

#[test]
fn db_test_open_options() {
    assert_ne!(default_page_size(), Some(5000));
    let options = OpenOptions::new().pagesize(5000).num_pages(100);
    let plan = options.plan(None).unwrap();
    assert_eq!(plan.pagesize, 5000);
    assert_eq!(created(&plan), 500_000);
    let mut file = initial_pages(5000, 2);
    file.resize(500_000, 0);
    let again = opened(&OpenOptions::new().pagesize(5000).num_pages(100), &file);
    assert_eq!(again.pagesize, 5000);
    assert_eq!(again.action, FileAction::Open { direct_writes: false });
}

#[test]
fn db_test_different_pagesizes_are_detected() {
    assert_ne!(default_page_size(), Some(5000));
    let plan = OpenOptions::new().pagesize(5000).num_pages(100).plan(None).unwrap();
    assert_eq!(plan.pagesize, 5000);
    let mut file = initial_pages(plan.pagesize as usize, 2);
    file.resize(created(&plan) as usize, 0);
    assert_eq!(opened(&OpenOptions::new(), &file).pagesize, 5000);
}

#[test]
fn the_machine_tells_its_page_size() {
    let size = default_page_size().unwrap();
    assert!(size >= 1024);
    assert_eq!(size % 1024, 0);
    let plan = OpenOptions::new().plan(None).unwrap();
    assert_eq!(plan.pagesize, size);
    assert_eq!(created(&plan), 32 * size);
}

#[test]
fn page_sizes_of_machines() {
    assert_eq!(page_size_from(1023), None);
    assert_eq!(page_size_from(1024), Some(1024));
    assert_eq!(page_size_from(16384), Some(16384));
    let plan = OpenOptions::new().plan_default(16384).unwrap();
    assert_eq!(plan.pagesize, 16384);
    assert_eq!(created(&plan), 32 * 16384);
    assert!(matches!(
        OpenOptions::new().plan_default(512),
        Err(Error::InvalidDB(Fault::Text("Pagesize must be 1024 bytes minimum")))
    ));
    let options = OpenOptions::default();
    assert_eq!((options.pagesize, options.num_pages, options.max_file_bytes), (None, 32, None));
    assert_eq!(options.growth_increment, 8_388_608);
    assert!(!options.flags.read_only && !options.flags.strict_mode && !options.flags.verify_on_open);
}

#[test]
fn every_damaged_meta_byte_is_noticed() {
    let meta = Meta { page_size: 1024, txid: 7, root: 42, high_water: 99, freelist: 12 };
    let encoded = meta.encode().unwrap();
    for i in 0..56 {
        for byte in [0_u8, 1, 0x80, 0xff] {
            let mut damaged = encoded.clone();
            damaged[i] ^= byte;
            assert_eq!(Meta::decode(&damaged).is_err(), byte != 0);
        }
    }
    let mut longer = encoded[..56].to_vec();
    longer.extend_from_slice(&[9; 4]);
    assert_eq!(Meta::decode(&longer).unwrap(), meta);
}

#[test]
fn nodes_read_back_and_notice_damage() {
    let records: Vec<Record> = (0_u8..40).map(|i| Record { key: vec![i], value: vec![i; 50] }).collect();
    let tree = build_tree(&records, 1024, 2).unwrap();
    let mut seen = Vec::new();
    for (_, bytes) in &tree.pages {
        let mut followed = bytes.clone();
        followed.extend_from_slice(&[3; 5]);
        let node = Node::decode(&followed, 1024).unwrap();
        assert_eq!(node.span() * 1024, bytes.len());
        if node.is_leaf() {
            assert!(matches!(node.branches(), Err(Error::Corrupt("expected branch node"))));
            seen.extend(node.leaf_records().unwrap().iter().map(|r| (r.0.to_vec(), r.1.to_vec())));
        } else {
            assert!(matches!(node.leaf_records(), Err(Error::Corrupt("expected leaf node"))));
            assert_eq!(node.branches().unwrap()[0].0, &[0][..]);
            assert_eq!(node.branches().unwrap()[0].1, 2);
        }
        let mut damaged = bytes.clone();
        damaged[45] ^= 1;
        assert!(matches!(Node::decode(&damaged, 1024), Err(Error::Corrupt("node checksum mismatch"))));
    }
    let want: Vec<(Vec<u8>, Vec<u8>)> = records.iter().map(|r| (r.key.clone(), r.value.clone())).collect();
    assert_eq!(seen, want);
}

#[test]
fn opening_is_refused() {
    let missing = OpenOptions::new().pagesize(4096).read_only().plan(None).unwrap();
    assert_eq!(missing.action, FileAction::OpenReadOnly);
    let small = OpenOptions::new().pagesize(4096).max_file_bytes(8192).plan(None);
    assert!(matches!(small, Err(Error::CapacityExceeded { required: 131_072, maximum: 8192 })));
    assert!(check_capacity(Some(10), 10).is_ok());
    assert!(check_capacity(None, u64::MAX).is_ok());
    let file = initial_pages(2048, 2);
    let detected = || Some(FormatInfo::inspect(&file, file.len() as u64));
    assert!(OpenOptions::new().pagesize(4096).conflicts(&detected()));
    assert!(!OpenOptions::new().pagesize(2048).conflicts(&detected()));
    assert!(!OpenOptions::new().conflicts(&detected()));
    assert!(!OpenOptions::new().pagesize(4096).conflicts(&None));
    assert!(FormatInfo::inspect(&[0; 4096], 4096).is_err());
}

#[test]
fn the_format_is_inspected() {
    let file = initial_pages(2048, 2);
    let info = FormatInfo::inspect(&file, file.len() as u64).unwrap();
    assert_eq!(
        info,
        FormatInfo { page_size: 2048, version: 2, transaction_id: 0, metadata_page: 1, file_bytes: 8192 }
    );
    let old = initial_pages(4096, 1);
    let detected = FormatInfo::inspect(&old, old.len() as u64);
    assert_eq!(
        detected.unwrap(),
        FormatInfo { page_size: 4096, version: 1, transaction_id: 0, metadata_page: 1, file_bytes: 16384 }
    );
    let plan = OpenOptions::new().plan(Some(FormatInfo::inspect(&old, old.len() as u64))).unwrap();
    assert_eq!(plan.pagesize, 4096);
    assert_eq!(plan.action, FileAction::Open { direct_writes: false });
    assert_eq!(select_meta(&old, 4096).unwrap().version, 1);
}

#[test]
fn a_new_file_checks_out() {
    for version in [1, 2] {
        let file = initial_pages(1024, version);
        let meta = select_meta(&file, 1024).unwrap();
        assert!(meta.valid());
        assert_eq!(meta.version, version);
        assert_eq!(meta.num_pages, 4);
        assert_eq!(meta.tx_id, 0);
        assert!(check(&file, 1024, meta).is_ok());
        let (root, manifest) = salvage(&Pages::new(&file, 1024, version), meta.root.root_page, None).unwrap();
        assert_eq!(root.len(), 0);
        assert_eq!(manifest.copied_buckets, 0);
        assert!(manifest.skipped_records.is_empty());
    }
}

#[test]
fn the_newer_meta_is_selected() {
    let mut file = initial_pages(1024, 2);
    let meta = select_meta(&file, 1024).unwrap();
    let next = publish(PageMeta { meta_page: 1, tx_id: 5, ..meta });
    assert!(next.valid());
    let page = write_meta_page(next, 1, 1024);
    assert_eq!(page.len(), 1024);
    file[1024..2048].copy_from_slice(&page);
    assert_eq!(select_meta(&file, 1024).unwrap(), next);
    assert_eq!(read_meta(&file, 1, 1024, 2), Some(next));
    assert_eq!(PageMeta::from_bytes(&next.to_bytes()), next);
    file[1024 + 40] ^= 1;
    assert_eq!(select_meta(&file, 1024).unwrap().tx_id, 0);
    file[40] ^= 1;
    assert!(select_meta(&file, 1024).is_err());
}

/// A file whose root bucket holds a pair and a nested bucket with a pair.
fn small_file() -> Vec<u8> {
    let inner = PageNode {
        page_id: 4,
        data: NodeData::Leaves(vec![LeafEntry {
            node_type: NODE_DATA,
            key: b"key".to_vec(),
            value: b"value".to_vec(),
        }]),
    };
    let outer = PageNode {
        page_id: 3,
        data: NodeData::Leaves(vec![LeafEntry {
            node_type: NODE_BUCKET,
            key: b"legacy".to_vec(),
            value: BucketMeta { root_page: 4, next_int: 1 }.to_bytes(),
        }]),
    };
    let mut file = initial_pages(1024, 2);
    let mut outer_page = write_node(&outer, 0, 1024);
    seal_block(&mut outer_page).unwrap();
    let mut inner_page = write_node(&inner, 0, 1024);
    seal_block(&mut inner_page).unwrap();
    file[3072..4096].copy_from_slice(&outer_page);
    file.extend_from_slice(&inner_page);
    let meta = select_meta(&file, 1024).unwrap();
    let next = publish(PageMeta { meta_page: 1, tx_id: 1, num_pages: 5, ..meta });
    file[1024..2048].copy_from_slice(&write_meta_page(next, 1, 1024));
    file
}

#[test]
fn pages_are_walked_and_salvaged() {
    let file = small_file();
    let meta = select_meta(&file, 1024).unwrap();
    assert!(check(&file, 1024, meta).is_ok());
    let pages = Pages::new(&file, 1024, 2);
    let found = find_bucket(&pages, meta.root.root_page, b"legacy").unwrap();
    assert_eq!(found, BucketMeta { root_page: 4, next_int: 1 });
    assert!(matches!(find_bucket(&pages, meta.root.root_page, b"other"), Err(Error::BucketMissing)));
    let (exact, at) = search_leaf(&pages, b"key", 4).unwrap();
    assert!(exact);
    assert_eq!((at.index, at.id), (0, 4));
    let mut cursor = PageCursor::new(pages, 4);
    assert_eq!(cursor.next().unwrap().unwrap().kv().value(), b"value");
    assert!(cursor.next().unwrap().is_none());
    assert!(!cursor.seek(b"zzz").unwrap());
    cursor.seek_last().unwrap();
    assert_eq!(cursor.previous().unwrap().unwrap().key(), b"key");
    let (root, manifest) = salvage(&Pages::new(&file, 1024, 2), meta.root.root_page, None).unwrap();
    assert_eq!(manifest.copied_buckets, 1);
    assert_eq!(manifest.copied_records, 1);
    assert_eq!(root.child(b"legacy").unwrap().get_kv(b"key").unwrap(), b"value");
    assert_eq!(root.child(b"legacy").unwrap().next_int(), 1);
}

#[test]
fn damage_is_reported() {
    let mut file = small_file();
    let meta = select_meta(&file, 1024).unwrap();
    file[4096 + 80] ^= 1;
    let checked = check(&file, 1024, meta);
    assert!(matches!(checked, Err(Error::InvalidDB(_))));
    let found = report(&file, 1024, checked).unwrap();
    assert!(!found.valid);
    assert_eq!(found.issues.len(), 1);
    assert_eq!(found.issues[0].page_id, Some(4));
    assert_eq!(found.issues[0].offset, Some(4096));
    let (_, manifest) = salvage(&Pages::new(&file, 1024, 2), meta.root.root_page, Some(&found)).unwrap();
    assert_eq!(manifest.skipped_pages, vec![4]);
    assert_eq!(manifest.copied_records, 0);
    assert!(found.into_result().is_err());
    let fine = report(&file, 1024, Ok(())).unwrap();
    assert_eq!(fine, VerifyReport { valid: true, issues: vec![] });
    assert!(fine.into_result().is_ok());
    assert_eq!(extract_page_id("page 17 is odd"), Some(17));
    assert_eq!(extract_page_id("nothing"), None);
    assert_eq!(infer_page_kind("a freelist problem"), Some("freelist"));
}

#[test]
fn unreachable_pages_are_found() {
    let mut file = initial_pages(1024, 2);
    let meta = select_meta(&file, 1024).unwrap();
    let stretched = publish(PageMeta { num_pages: 5, ..meta });
    file.resize(5 * 1024, 0);
    match check(&file, 1024, stretched) {
        Err(Error::InvalidDB(Fault::Unreachable(ids))) => assert_eq!(ids, vec![4]),
        _ => panic!("page 4 is unreachable"),
    }
}

#[test]
fn blocks_are_sealed_with_their_digest() {
    let mut block = write_node(&PageNode { page_id: 3, data: NodeData::Leaves(vec![]) }, 0, 1024);
    assert_eq!(block[992..], [0; 32]);
    seal_block(&mut block).unwrap();
    assert_ne!(block[992..], [0; 32]);
    let mut file = vec![0; 3072];
    file.extend_from_slice(&block);
    assert_eq!(Page::validate_block(&file, 3, 1024).unwrap().header().id, 3);
    for at in [3072, 3072 + 500, 4095] {
        file[at] ^= 1;
        assert!(Page::validate_block(&file, 3, 1024).is_err());
        file[at] ^= 1;
    }
    assert!(seal_block(&mut vec![0; 8]).is_err());
}

#[test]
fn freelists_hold_what_was_retired() {
    let retired = vec![
        RetiredPage { page_id: 4, retired_tx_id: 2 },
        RetiredPage { page_id: 9, retired_tx_id: 3 },
    ];
    let mut block = write_freelist(2, &retired, 0, 1024);
    seal_block(&mut block).unwrap();
    let mut file = vec![0; 2048];
    file.extend_from_slice(&block);
    let page = Page::validate_block(&file, 2, 1024).unwrap();
    assert_eq!(page.header().count, 2);
    assert_eq!(page.retired(0), retired[0]);
    assert_eq!(page.retired(1), retired[1]);
}

#[test]
fn files_grow_by_increments() {
    assert_eq!(needed(10, 1024, None).unwrap(), 10_240);
    assert!(matches!(
        needed(10, 1024, Some(10_000)),
        Err(Error::CapacityExceeded { required: 10_240, maximum: 10_000 })
    ));
    assert_eq!(grow(4096, 4096, 1024, None).unwrap(), None);
    assert_eq!(grow(4096, 5000, 1024, None).unwrap(), Some(5120));
    assert_eq!(grow(4096, 5000, 1024, Some(5001)).unwrap(), Some(5001));
}

#[test]
fn commits_write_data_before_the_other_meta() {
    let file = initial_pages(1024, 2);
    let current = select_meta(&file, 1024).unwrap();
    let (meta, release) = writer_start(current, None);
    assert_eq!(meta.tx_id, 1);
    assert_eq!(meta.meta_page, 1);
    assert_eq!(release, 1);
    assert_eq!(writer_start(current, Some(0)).1, 0);
    let block = write_node(&PageNode { page_id: 4, data: NodeData::Leaves(vec![]) }, 0, 1024);
    let mut changed = meta;
    changed.num_pages = 5;
    let plan = plan_commit(
        changed,
        vec![DirtyBlock { page_id: 4, bytes: block }],
        1024,
        4096,
        1024,
        None,
    )
    .unwrap();
    assert_eq!(plan.new_size, Some(5120));
    assert_eq!(plan.data.len(), 1);
    assert_eq!(plan.data[0].offset, 4096);
    assert_eq!(plan.meta_write.offset, 0);
    assert_eq!(plan.meta.meta_page, 0);
    assert!(plan.meta.valid());
    assert_eq!(plan.bytes_written, 2048);
}

#[test]
fn writers_wait_as_told() {
    assert!(matches!(begin(true, true, WriteMode::Blocking), Begin::Refuse(Error::ReadOnlyDB)));
    assert!(matches!(begin(true, false, WriteMode::Blocking), Begin::Reader));
    assert!(matches!(begin(false, true, WriteMode::Blocking), Begin::WaitForSlot));
    assert!(matches!(begin(false, true, WriteMode::Try), Begin::TrySlot));
    assert!(matches!(after_attempt(WriteMode::Try, true, false), Attempt::Begin));
    assert!(matches!(after_attempt(WriteMode::Try, false, false), Attempt::GiveUp));
    assert!(matches!(after_attempt(WriteMode::Deadline, false, true), Attempt::Fail(Error::WriterTimeout)));
    assert!(matches!(after_attempt(WriteMode::Deadline, false, false), Attempt::Retry { .. }));
}

#[test]
fn readers_are_counted() {
    let mut readers = OpenReaders::new();
    assert_eq!(readers.oldest(), None);
    readers.open(7);
    readers.open(5);
    readers.open(7);
    assert_eq!((readers.count(), readers.oldest()), (3, Some(5)));
    readers.close(5);
    assert_eq!((readers.count(), readers.oldest()), (2, Some(7)));
}

#[test]
fn reader_slots_are_searched_by_halves() {
    assert_eq!(token_offset(3), TOKEN_BASE + 3);
    let held = [2_u64, 70, 65_535];
    let mut search = TokenSearch::new();
    loop {
        match search.query() {
            TokenQuery::Done => break,
            TokenQuery::Probe { start, length } => {
                let hit = held
                    .iter()
                    .map(|slot| token_offset(*slot))
                    .find(|at| start <= *at && *at < start + length)
                    .map(|at| LockRange { start: at, length: 1 });
                search.answer(hit).unwrap();
            }
        }
    }
    let mut slots = search.slots().clone();
    slots.sort();
    assert_eq!(slots, held);
    let (start, length) = encode_tx_id(2, 40);
    let lock = Some(LockRange { start, length });
    assert_eq!(count_reader(1, Some(50), payload_block(2), lock).unwrap(), (2, Some(40)));
    assert!(held.iter().all(|slot| *slot < MAX_READER_SLOTS));
    assert!(decode_tx_id(payload_block(2), LockRange { start: 0, length: 1 }).is_err());
}

#[test]
fn reader_slots_are_tried_in_turn() {
    assert_eq!(slot_to_try(5, 0), Some(5));
    assert_eq!(slot_to_try(65_535, 1), Some(0));
    assert_eq!(slot_to_try(u64::MAX, 65_535), Some(65_534));
    assert_eq!(slot_to_try(5, 65_536), None);
}

#[test]
fn statistics_are_collected() {
    let file = initial_pages(1024, 2);
    let meta = select_meta(&file, 1024).unwrap();
    let stats = collect(
        &meta,
        4096,
        1024,
        3,
        2,
        (1, Some(0)),
        Counters { committed_transactions: 9, bytes_written: 10 },
    );
    assert_eq!(stats.allocated_pages, 4);
    assert_eq!(stats.free_pages, 3);
    assert_eq!(stats.reader_pinned_pages, 2);
    assert_eq!(stats.oldest_reader_tx_id, Some(0));
    assert_eq!(stats.bytes_written, 10);
}

#[test]
fn bytes_are_ordered() {
    assert!(less(b"a", b"ab"));
    assert!(matches!(order(b"b", b"ab"), Order::Greater));
    assert!(matches!(order(b"b", b"b"), Order::Equal));
}
