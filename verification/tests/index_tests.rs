use redlinedb::error::Error;
use redlinedb::format::page::{Page, PageKind, DEFAULT_PAGE_SIZE};
use redlinedb::format::{Lsn, PageGeneration, PageId, RelId, RowId, TuplePtr, TxId};
use redlinedb::index::btree::{BtreeIndex, PageLog};
use redlinedb::index::{
    compare_physical_key, encode_physical_key, IndexDescriptor, IndexId, IndexRowRef, IndexUniqueness,
};
use redlinedb::io::{FileSystem, MemFileSystem};
use redlinedb::storage::buffer::BufferPool;
use redlinedb::txn::{ConcurrentTxStatus, Snapshot, TxState};
use redlinedb::wal::coordinator::WalQueue;
use redlinedb::wal::{WalConfig, WalManager, WalPayload, WalReader, WalRecord, WalRecordKind};

fn row(page: u64, slot: u16) -> IndexRowRef {
    IndexRowRef::new(TuplePtr::new_with_generation(PageId(page), slot, PageGeneration(1)))
}

fn index(page_size: usize, id: u64, uniqueness: IndexUniqueness) -> BtreeIndex {
    let buffer = BufferPool::new(page_size).unwrap();
    BtreeIndex::create(buffer, IndexDescriptor::new(IndexId(id), RelId(1), uniqueness)).unwrap()
}

#[test]
fn page_special_area_round_trips() {
    let mut page = Page::new_with_special(DEFAULT_PAGE_SIZE, PageKind::BtreeLeaf, PageId(9), RelId(3), 128).unwrap();
    page.write_special(0, &1234_u32.to_le_bytes()).unwrap();
    page.set_page_lsn(Lsn::new(1));
    let decoded = Page::from_bytes(page.to_bytes()).unwrap();
    let special = decoded.special_bytes();
    assert_eq!(u32::from_le_bytes(special[0..4].try_into().unwrap()), 1234);
}

#[test]
fn index_insert_lookup() {
    let mut index = index(512, 1, IndexUniqueness::NonUnique);
    index.insert(b"k001", row(42, 1)).unwrap();
    index.insert(b"k001", row(43, 2)).unwrap();
    assert_eq!(index.point_lookup(b"k001").unwrap().len(), 2);
}

#[test]
fn index_split_and_parent_update() {
    let mut index = index(512, 2, IndexUniqueness::NonUnique);
    for i in 0..8_u64 {
        let key = format!("k{i:03}");
        index.insert(key.as_bytes(), row(100 + i, i as u16)).unwrap();
    }

    for i in 0..8_u64 {
        let key = format!("k{i:03}");
        let hits = index.point_lookup(key.as_bytes()).unwrap();
        assert_eq!(hits.len(), 1);
    }

    let range = index.range_scan(b"k000", b"k999").unwrap();
    assert_eq!(range.len(), 8);
    assert!(index.validate().unwrap().errors.is_empty());
}

#[test]
fn index_recursive_split_propagates_beyond_root() {
    let mut index = index(512, 5, IndexUniqueness::NonUnique);
    for i in 0..64_u64 {
        let key = format!("k{i:03}");
        index.insert(key.as_bytes(), row(300 + i, i as u16)).unwrap();
    }

    for i in 0..64_u64 {
        let key = format!("k{i:03}");
        assert_eq!(index.point_lookup(key.as_bytes()).unwrap().len(), 1);
    }

    assert_eq!(index.range_scan(b"k000", b"k999").unwrap().len(), 64);
    let report = index.validate().unwrap();
    assert!(report.errors.is_empty(), "{:?}", report.errors);
    assert!(report.internal_pages >= 2);
}

#[test]
fn index_recovery_replays_page_images_with_torn_tail() {
    let mut source = index(384, 6, IndexUniqueness::NonUnique);
    for i in 0..18_u64 {
        let key = format!("r{i:03}");
        source.insert(key.as_bytes(), row(500 + i, i as u16)).unwrap();
    }

    let mut wal = WalManager::create_with_fs("wal", WalConfig::default(), MemFileSystem::new()).unwrap();
    let buffer = source.into_buffer();
    for page_no in 1..=buffer.page_count() as u64 {
        let page = buffer.pin(PageId(page_no)).unwrap();
        let info = page.info();
        if info.rel_id != RelId(1) || info.kind == PageKind::Heap {
            continue;
        }
        let payload = WalPayload::PageImage {
            page_id: info.page_id,
            page_lsn: info.page_lsn,
            page_bytes: page.to_bytes(),
        }
        .encode()
        .unwrap();
        wal.append(WalRecordKind::PageImage, TxId(0), payload).unwrap();
    }
    wal.flush().unwrap();

    let torn = WalPayload::PageImage {
        page_id: PageId(9_999),
        page_lsn: Lsn::new(1),
        page_bytes: vec![1, 2, 3, 4, 5, 6, 7, 8],
    }
    .encode()
    .unwrap();
    let mut fs = wal.into_fs();
    let torn_path = format!("wal/{:020}.wal", 1_u64);
    let end = fs.file_len(&torn_path).unwrap();
    fs.write_all_at(&torn_path, end, &torn[..torn.len().saturating_sub(7)]).unwrap();

    let reader = WalReader::new_with_fs("wal", WalConfig::default(), fs);
    let scan = reader.scan_report().unwrap();
    assert!(scan.torn_tail);

    let mut recovered = index(384, 6, IndexUniqueness::NonUnique);
    for record in scan.records {
        if let WalPayload::PageImage { page_bytes, .. } = WalPayload::decode(&record.payload).unwrap() {
            recovered.redo_page_image(Page::from_bytes(page_bytes).unwrap()).unwrap();
        }
    }

    let mut reopened = BtreeIndex::open(
        recovered.into_buffer(),
        PageId(1),
        IndexDescriptor::new(IndexId(6), RelId(1), IndexUniqueness::NonUnique),
    )
    .unwrap();
    assert_eq!(reopened.point_lookup(b"r003").unwrap().len(), 1);
    assert_eq!(reopened.range_scan(b"r000", b"r999").unwrap().len(), 18);
    assert!(reopened.validate().unwrap().errors.is_empty());
}

#[test]
fn index_concurrent_writers_and_readers_stress() {
    let mut index = index(512, 7, IndexUniqueness::NonUnique);
    // The writers take turns: every change needs the index to itself.
    for i in 0..16_u64 {
        for writer in 0..4_u64 {
            let key = format!("w{writer}_{i:03}");
            index.insert(key.as_bytes(), row(800 + writer * 100 + i, i as u16)).unwrap();
        }
    }

    for writer in 0..4_u64 {
        for i in 0..16_u64 {
            let key = format!("w{writer}_{i:03}");
            assert_eq!(index.point_lookup(key.as_bytes()).unwrap().len(), 1);
        }
    }
    assert_eq!(index.range_scan(b"w0_000", b"w9_999").unwrap().len(), 64);
    assert!(index.validate().unwrap().errors.is_empty());
}

#[test]
fn index_redo_page_image_restores_corruption() {
    let mut index = index(512, 3, IndexUniqueness::NonUnique);
    index.insert(b"k001", row(77, 1)).unwrap();

    let snapshot = index.buffer().pin(PageId(2)).unwrap().duplicate();
    let mut bytes = snapshot.to_bytes();
    bytes[128] ^= 0xFF;

    let desc = index.descriptor();
    let mut buffer = index.into_buffer();
    buffer.put(PageId(2), Page::from_bytes(bytes).unwrap()).unwrap();
    let mut index = BtreeIndex::open(buffer, PageId(1), desc).unwrap();

    index.redo_page_image(snapshot).unwrap();
    assert_eq!(index.point_lookup(b"k001").unwrap().len(), 1);
}

#[test]
fn unique_lock_waits_and_conflict_checks() {
    let mut index = index(512, 4, IndexUniqueness::Unique);

    let lock_guard = index.lock_unique_key(1, b"k001").unwrap();
    // Another owner has to wait, and goes on once the key is given back.
    assert_eq!(index.insert_unique(2, b"k001", row(88, 1)), Ok(false));
    assert_eq!(index.point_lookup(b"k001").unwrap().len(), 0);
    index.unlock_unique_key(lock_guard);
    let result = index.insert_unique(2, b"k001", row(88, 1));
    assert!(result.is_ok());
    assert_eq!(result, Ok(true));

    index.insert_unique(1, b"k002", row(89, 2)).unwrap();
    let duplicate = index.insert_unique(3, b"k002", row(90, 3));
    assert_eq!(duplicate.unwrap_err(), Error::WriteConflict);
}

#[test]
fn runs_of_one_key_are_found_behind_splits() {
    let mut index = index(512, 19, IndexUniqueness::NonUnique);
    for slot in 0..60_u16 {
        index.insert(b"mm", row(7, slot)).unwrap();
    }
    for i in 0..60_u64 {
        let key = format!("m{i:03}");
        index.insert(key.as_bytes(), row(100 + i, 1)).unwrap();
        let key = format!("n{i:03}");
        index.insert(key.as_bytes(), row(200 + i, 1)).unwrap();
    }
    assert_eq!(index.point_lookup(b"mm").unwrap().len(), 60);
    for i in 0..60_u64 {
        assert_eq!(index.point_lookup(format!("n{i:03}").as_bytes()).unwrap(), vec![row(200 + i, 1)]);
    }
    assert!(index.validate().unwrap().errors.is_empty());
}

#[test]
fn guards_of_several_keys_are_given_back_in_any_order() {
    let mut index = index(512, 11, IndexUniqueness::Unique);
    let a = index.lock_unique_key(1, b"a").unwrap();
    let again = index.lock_unique_key(1, b"a").unwrap();
    let b = index.lock_unique_key(2, b"b").unwrap();
    assert!(index.lock_unique_key(2, b"a").is_none());
    index.unlock_unique_key(a);
    assert!(index.lock_unique_key(2, b"a").is_none());
    index.unlock_unique_key(b);
    index.unlock_unique_key(again);
    assert!(index.lock_unique_key(2, b"a").is_some());
}

#[test]
fn deletes_keep_the_order_of_the_other_rows() {
    let mut index = index(512, 12, IndexUniqueness::NonUnique);
    for slot in 0..12_u16 {
        index.insert(b"key", row(7, slot)).unwrap();
    }
    let mut rows = index.point_lookup(b"key").unwrap();
    let gone = rows.remove(5);
    index.delete_mark(b"key", gone).unwrap();
    assert_eq!(index.point_lookup(b"key").unwrap(), rows);
    index.delete_mark(b"key", gone).unwrap();
    index.delete_mark(b"none", gone).unwrap();
    assert_eq!(index.point_lookup(b"key").unwrap(), rows);
}

#[test]
fn index_delete_mark_and_compact_leaf() {
    let mut index = index(512, 8, IndexUniqueness::NonUnique);
    let row1 = row(200, 1);
    let row2 = row(201, 2);
    index.insert(b"k001", row1).unwrap();
    index.insert(b"k001", row2).unwrap();
    assert_eq!(index.point_lookup(b"k001").unwrap().len(), 2);

    index.delete_mark(b"k001", row1).unwrap();
    assert_eq!(index.point_lookup(b"k001").unwrap().len(), 1);
    index.compact_leaf_page(PageId(2)).unwrap();
    assert_eq!(index.point_lookup(b"k001").unwrap().len(), 1);

    index.delete_mark(b"k001", row2).unwrap();
    assert_eq!(index.point_lookup(b"k001").unwrap().len(), 0);
    index.compact_leaf_page(PageId(2)).unwrap();
    assert!(index.validate().unwrap().errors.is_empty());
}

#[test]
fn lookups_find_exactly_the_rows_of_a_key() {
    let mut index = index(512, 9, IndexUniqueness::NonUnique);
    for i in 0..40_u64 {
        let key = format!("k{:03}", i % 10);
        index.insert(key.as_bytes(), row(1000 + i, i as u16)).unwrap();
    }
    let rows = index.point_lookup(b"k003").unwrap();
    let mut pages: Vec<u64> = rows.iter().map(|r| r.tuple.page_id.0).collect();
    pages.sort();
    assert_eq!(pages, vec![1003, 1013, 1023, 1033]);
    assert!(index.point_lookup(b"k999").unwrap().is_empty());
}

#[test]
fn keys_may_begin_with_other_keys() {
    let mut index = index(512, 10, IndexUniqueness::NonUnique);
    for i in 0..120_u64 {
        let key = format!("k{i}");
        index.insert(key.as_bytes(), row(100 + i, 1)).unwrap();
    }
    for i in 0..120_u64 {
        let key = format!("k{i}");
        assert_eq!(index.point_lookup(key.as_bytes()).unwrap(), vec![row(100 + i, 1)]);
    }
    let hits = index.range_scan(b"k1", b"k11").unwrap();
    assert_eq!(
        hits,
        [1, 10, 100, 101, 102, 103, 104, 105, 106, 107, 108, 109].map(|i| row(100 + i, 1)).to_vec()
    );
}

#[test]
fn the_same_row_fills_leaves() {
    let mut index = index(512, 9, IndexUniqueness::NonUnique);
    for _ in 0..40 {
        index.insert(b"twin", row(7, 3)).unwrap();
    }
    index.insert(b"other", row(8, 1)).unwrap();
    let hits = index.point_lookup(b"twin").unwrap();
    assert_eq!(hits, vec![row(7, 3); 40]);
    assert_eq!(index.point_lookup(b"other").unwrap(), vec![row(8, 1)]);
}

#[test]
fn ranges_stop_before_their_end() {
    let mut index = index(512, 10, IndexUniqueness::NonUnique);
    for i in 0..30_u64 {
        let key = format!("k{i:03}");
        index.insert(key.as_bytes(), row(i + 1, 0)).unwrap();
    }
    assert_eq!(index.range_scan(b"k005", b"k009").unwrap().len(), 4);
    assert_eq!(index.range_scan(b"k009", b"k005").unwrap().len(), 0);
    assert!(index.stats().range_scan_leaves_visited > 0);
}

#[test]
fn every_live_entry_is_listed_once() {
    let mut index = index(512, 11, IndexUniqueness::NonUnique);
    for i in 0..25_u64 {
        let key = format!("k{i:03}");
        index.insert(key.as_bytes(), row(i + 1, 0)).unwrap();
    }
    index.delete_mark(b"k007", row(8, 0)).unwrap();
    let entries = index.iter_all_entries().unwrap();
    assert_eq!(entries.len(), 24);
    assert!(entries.iter().all(|e| e.logical_key != b"k007".to_vec()));
}

#[test]
fn snapshots_see_commits_up_to_their_number() {
    let mut index = index(512, 12, IndexUniqueness::NonUnique);
    let mut txs = ConcurrentTxStatus::new();
    index.insert_tx(TxId(7), b"k001", row(5, 0)).unwrap();
    let early = Snapshot { csn: redlinedb::format::Csn(1) };
    let late = Snapshot { csn: redlinedb::format::Csn(2) };
    assert!(index.point_lookup_visible(&txs, &late, None, b"k001").unwrap().is_empty());
    assert_eq!(index.point_lookup_visible(&txs, &late, Some(TxId(7)), b"k001").unwrap().len(), 1);
    txs.record(TxId(7), TxState::Committed(redlinedb::format::Csn(2)));
    assert!(index.point_lookup_visible(&txs, &early, None, b"k001").unwrap().is_empty());
    assert_eq!(index.point_lookup_visible(&txs, &late, None, b"k001").unwrap().len(), 1);
}

fn logged_index(id: u64, config: WalConfig) -> BtreeIndex {
    let buffer = BufferPool::new(512).unwrap();
    let desc = IndexDescriptor::new(IndexId(id), RelId(1), IndexUniqueness::NonUnique);
    let log = PageLog { config, queue: WalQueue::new(Lsn(0), Lsn(0), Lsn(0)) };
    BtreeIndex::create_with_wal(buffer, desc, Some(log)).unwrap()
}

/// The records that the index has queued.
fn queued(index: &mut BtreeIndex) -> Vec<WalRecord> {
    let mut queue = WalQueue::new(Lsn(0), Lsn(0), Lsn(0));
    index.swap_queue(&mut queue);
    queue.take_batch(usize::MAX, None).iter().map(|record| WalRecord::decode(&record.encoded).unwrap()).collect()
}

#[test]
fn changed_pages_are_logged() {
    let mut index = logged_index(13, WalConfig::default());
    index.insert_tx(TxId(3), b"k001", row(5, 0)).unwrap();
    let records = queued(&mut index);
    assert_eq!(records.len(), 1);
    assert_eq!((records[0].kind, records[0].tx_id), (WalRecordKind::PageImage, TxId(3)));
    match WalPayload::decode(&records[0].payload).unwrap() {
        WalPayload::PageImage { page_id, page_bytes, .. } => {
            assert_eq!(page_id, PageId(2));
            assert_eq!(Page::from_bytes(page_bytes).unwrap().info().page_id, PageId(2));
        }
        other => panic!("not a page image: {other:?}"),
    }
    assert!(queued(&mut index).is_empty());
}

#[test]
fn a_log_that_refuses_stops_a_change() {
    let small = WalConfig { segment_bytes: 200, ..WalConfig::default() };
    let mut index = logged_index(17, small);
    assert_eq!(
        index.insert_tx(TxId(3), b"k001", row(5, 0)),
        Err(Error::CorruptWal("record larger than wal segment"))
    );
    assert!(!index.buffer().flushable(Lsn(1_000)).contains(&PageId(2)));
    let mut index = logged_index(18, WalConfig::default());
    let mut failed = WalQueue::new(Lsn(0), Lsn(0), Lsn(0));
    failed.publish_wal_failure();
    index.swap_queue(&mut failed);
    assert_eq!(index.insert_tx(TxId(3), b"k001", row(5, 0)), Err(Error::CorruptWal("wal writer failed")));
    index.insert(b"k002", row(6, 0)).unwrap();
}

#[test]
fn opening_a_page_that_is_no_index_fails() {
    let buffer = BufferPool::new(512).unwrap();
    let desc = IndexDescriptor::new(IndexId(14), RelId(1), IndexUniqueness::NonUnique);
    assert!(BtreeIndex::open(buffer, PageId(1), desc).is_err());
}

#[test]
fn keys_carry_their_row_behind() {
    let a = encode_physical_key(b"ab", IndexRowRef::with_row_id(RowId(1), row(1, 1).tuple));
    let b = encode_physical_key(b"ab", IndexRowRef::with_row_id(RowId(2), row(1, 1).tuple));
    assert_eq!(a.logical_len(), 2);
    assert_eq!(&a.as_slice()[0..2], b"ab");
    assert!(a.as_slice().len() > 2);
    assert_eq!(compare_physical_key(a.as_slice(), b.as_slice()), std::cmp::Ordering::Less);
    assert_eq!(compare_physical_key(b.as_slice(), a.as_slice()), std::cmp::Ordering::Greater);
    assert_eq!(compare_physical_key(a.as_slice(), a.as_slice()), std::cmp::Ordering::Equal);
    let mut copy = a.clone();
    copy.clear();
    assert_eq!(copy.as_slice().len(), 0);
    copy.extend_logical(b"xyz");
    assert_eq!(copy.as_slice(), b"xyz");
}

#[test]
fn deletes_are_seen_by_snapshots_and_swept_later() {
    let mut index = index(512, 15, IndexUniqueness::NonUnique);
    let mut txs = ConcurrentTxStatus::new();
    index.insert(b"k001", row(5, 0)).unwrap();
    index.insert(b"k002", row(6, 0)).unwrap();
    let now = Snapshot { csn: redlinedb::format::Csn(3) };
    index.delete_mark_tx_visible(&txs, &now, None, TxId(8), b"k001", row(5, 0)).unwrap();
    assert_eq!(index.range_scan_visible(&txs, &now, None, b"k000", b"k999").unwrap().len(), 2);
    assert_eq!(index.range_scan_visible(&txs, &now, Some(TxId(8)), b"k000", b"k999").unwrap().len(), 1);
    txs.record(TxId(8), TxState::Committed(redlinedb::format::Csn(2)));
    assert_eq!(index.range_scan_visible(&txs, &now, None, b"k000", b"k999").unwrap().len(), 1);
    index.prune_committed_deletes_before(PageId(2), &txs, redlinedb::format::Csn(9)).unwrap();
    assert_eq!(index.iter_all_entries().unwrap().len(), 1);
    assert!(index.validate().unwrap().errors.is_empty());
}

#[test]
fn an_index_knows_its_version_and_its_first_pages() {
    let mut index = logged_index(16, WalConfig::default());
    assert!(BtreeIndex::format_version(index.buffer(), index.meta_page_id()).unwrap() > 0);
    assert!(!index.buffer().flushable(Lsn(100_000)).contains(&PageId(1)));
    index.record_initial_page_images(TxId(4)).unwrap();
    let records = queued(&mut index);
    assert_eq!(records.len(), 2);
    assert!(records.iter().all(|record| record.tx_id == TxId(4)));
    assert!(!index.buffer().flushable(Lsn(100)).contains(&PageId(1)));
    assert!(index.buffer().flushable(Lsn(100_000)).contains(&PageId(1)));
}
