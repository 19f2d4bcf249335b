use redlinedb::error::Error;
use redlinedb::format::page::{Page, PageKind};
use redlinedb::format::{Lsn, PageId, RelId, TxId};
use redlinedb::io::{join, join_path, FileSystem, MemFileSystem};
use redlinedb::storage::buffer::BufferPool;
use redlinedb::storage::page_file::PageFile;
use redlinedb::text::{
    chars_of, contains_text, decimal_text, lower_text, parse_i32, parse_u64, push_decimal_i64, to_hex, trim,
};
use redlinedb::wal::segment::{offset_for_lsn, parse_segment_name, segment_for_lsn, segment_name};
use redlinedb::wal::{WalConfig, WalManager, WalReader, WalRecord, WalRecordKind};

fn page(id: u64, cell: &[u8]) -> Page {
    let mut page = Page::new(128, PageKind::Heap, PageId(id), RelId(1)).unwrap();
    page.insert_cell(cell).unwrap();
    page
}

#[test]
fn pages_are_read_back_as_written() {
    let mut file = PageFile::create_with_fs("data", 128, MemFileSystem::new()).unwrap();
    file.write_page(&page(1, b"one")).unwrap();
    file.write_page(&page(3, b"three")).unwrap();
    assert_eq!(file.page_count(), Ok(3));
    assert_eq!(file.read_page(PageId(1)).unwrap().cell(0), b"one");
    assert_eq!(file.read_page(PageId(3)).unwrap().cell(0), b"three");
    assert!(file.read_page(PageId(2)).is_err());
    file.write_page(&page(1, b"uno")).unwrap();
    assert_eq!(file.read_page(PageId(1)).unwrap().cell(0), b"uno");
    assert_eq!(file.read_page(PageId(3)).unwrap().cell(0), b"three");
    file.sync_data().unwrap();
    let reopened = PageFile::open_with_fs("data", 128, file.into_fs()).unwrap();
    assert_eq!(reopened.page_size(), 128);
    assert_eq!(reopened.read_page(PageId(3)).unwrap().cell(0), b"three");
}

#[test]
fn page_files_refuse_what_has_no_place() {
    assert_eq!(
        PageFile::create_with_fs("data", 10, MemFileSystem::new()).err().map(|refused| refused.error),
        Some(Error::BufferTooSmall { needed: 52, actual: 10 })
    );
    assert_eq!(
        PageFile::create_with_fs("data", 70_000, MemFileSystem::new()).err().map(|refused| refused.error),
        Some(Error::CorruptPage("page size exceeds on-page u16 bounds"))
    );
    let mut file = PageFile::create_with_fs("data", 256, MemFileSystem::new()).unwrap();
    assert_eq!(
        file.write_page(&page(1, b"x")),
        Err(Error::BufferTooSmall { needed: 256, actual: 128 })
    );
    assert_eq!(file.read_page(PageId(0)).err(), Some(Error::CorruptPage("page id zero is invalid")));
    assert_eq!(file.read_page(PageId(u64::MAX)).err(), Some(Error::CorruptPage("page offset overflow")));
}

#[test]
fn pages_fill_up() {
    let mut page = Page::new(128, PageKind::Heap, PageId(1), RelId(1)).unwrap();
    page.insert_cell(&[7; 60]).unwrap();
    assert_eq!(page.insert_cell(&[7; 60]), Err(Error::PageFull));
    assert_eq!(page.slot_count(), 1);
    assert!(Page::from_bytes(vec![0; 128]).is_err());
    assert!(Page::from_bytes(vec![0; 10]).is_err());
}

#[test]
fn pools_hand_out_pages_in_order() {
    let mut pool = BufferPool::new(512).unwrap();
    assert_eq!(pool.allocate(PageKind::Heap, RelId(1)), Ok(PageId(1)));
    assert_eq!(pool.allocate(PageKind::Heap, RelId(1)), Ok(PageId(2)));
    assert_eq!(pool.page_count(), 2);
    pool.mark_dirty(PageId(2), Lsn(50)).unwrap();
    assert!(!pool.flushable(Lsn(40)).contains(&PageId(2)));
    assert!(pool.flushable(Lsn(50)).contains(&PageId(2)));
    assert!(pool.pin(PageId(3)).is_err());
}

#[test]
fn files_in_memory_behave_like_files() {
    let mut fs = MemFileSystem::new();
    fs.open_rw_create("d/a").unwrap();
    fs.write_all_at("d/a", 3, b"xyz").unwrap();
    assert_eq!(fs.file_len("d/a"), Ok(6));
    assert_eq!(fs.read_exact_at("d/a", 0, 6).unwrap(), vec![0, 0, 0, b'x', b'y', b'z']);
    assert!(fs.read_exact_at("d/a", 4, 3).is_err());
    fs.set_len("d/a", 4).unwrap();
    assert_eq!(fs.read_exact_at("d/a", 3, 1).unwrap(), b"x".to_vec());
    assert_eq!(fs.read_dir_names("d").unwrap(), vec!["a".to_string()]);
    fs.remove_file("d/a").unwrap();
    assert!(fs.file_len("d/a").is_err());
    assert_eq!(join("d", "a"), "d/a");
    assert_eq!(join_path("", "a"), "a");
    assert_eq!(join_path("d/", "a"), "d/a");
}

#[test]
fn segments_are_named_and_numbered() {
    assert_eq!(segment_name(1), "00000000000000000001.wal");
    assert_eq!(parse_segment_name("00000000000000000042.wal"), Some(42));
    assert_eq!(parse_segment_name("42.wal"), None);
    assert_eq!(parse_segment_name("00000000000000000042.log"), None);
    assert_eq!(segment_for_lsn(Lsn(0), 100), 1);
    assert_eq!(segment_for_lsn(Lsn(250), 100), 3);
    assert_eq!(offset_for_lsn(Lsn(250), 100), 50);
}

fn wal_config() -> WalConfig {
    WalConfig { segment_bytes: 128, ..WalConfig::default() }
}

#[test]
fn a_log_is_read_back_and_reopened() {
    let mut wal = WalManager::create_with_fs("wal", wal_config(), MemFileSystem::new()).unwrap();
    for i in 0..5_u64 {
        let append = wal.append(WalRecordKind::PageDelta, TxId(i), vec![i as u8; 30]).unwrap();
        assert_eq!(append.end_lsn.0 - append.start_lsn.0, 70);
        assert_eq!(append.start_lsn.0, i * 128);
    }
    assert_eq!(wal.flush().unwrap(), wal.written_lsn());
    let report = WalReader::new_with_fs("wal", wal_config(), wal.into_fs());
    let scan = report.scan_report().unwrap();
    assert_eq!(scan.records.len(), 5);
    assert_eq!(scan.records[4].payload, vec![4; 30]);
    assert_eq!(scan.records[4].prev_lsn, Lsn(3 * 128));
    assert_eq!(scan.valid_end_lsn, Lsn(4 * 128 + 70));
    let mut wal = WalManager::open_with_fs("wal", wal_config(), report.into_fs()).unwrap();
    assert_eq!(wal.written_lsn(), Lsn(4 * 128 + 70));
    let append = wal.append(WalRecordKind::Commit, TxId(9), vec![1; 18]).unwrap();
    assert_eq!(append.start_lsn, Lsn(4 * 128 + 70));
    assert_eq!(wal.prune_segments_below_checkpoint_lsn(Lsn(2 * 128)).unwrap(), 2);
}

#[test]
fn a_refused_page_size_leaves_the_file_alone() {
    let mut fs = MemFileSystem::new();
    fs.open_rw_create("data").unwrap();
    fs.write_all_at("data", 0, b"old").unwrap();
    let refused = PageFile::create_with_fs("data", 10, fs).unwrap_err();
    assert_eq!(refused.fs.read_exact_at("data", 0, 3).unwrap(), b"old".to_vec());
    let file = PageFile::create_with_fs("data", 128, refused.fs).unwrap();
    assert_eq!(file.page_count(), Ok(0));
}

#[test]
fn a_directory_that_is_not_there_holds_no_segments() {
    let mut fs = MemFileSystem::new();
    assert_eq!(redlinedb::wal::manager::remove_segments_below(&mut fs, "wal", 9), Ok(0));
    assert!(WalReader::new_with_fs("wal", wal_config(), fs).scan().is_err());
    let wal = WalManager::create_with_fs("wal", wal_config(), MemFileSystem::new()).unwrap();
    assert!(wal.into_fs().dir_exists("wal"));
}

#[test]
fn pruning_leaves_other_files_alone() {
    let mut fs = MemFileSystem::new();
    fs.open_rw_create("wal/notes").unwrap();
    fs.write_all_at("wal/notes", 0, b"kept").unwrap();
    let mut wal = WalManager::create_with_fs("wal", wal_config(), fs).unwrap();
    for i in 0..3_u64 {
        wal.append(WalRecordKind::PageDelta, TxId(i), vec![i as u8; 30]).unwrap();
    }
    assert_eq!(wal.prune_segments_below(0), Ok(0));
    assert_eq!(wal.prune_segments_below(99), Ok(2));
    assert_eq!(wal.prune_segments_below(99), Ok(0));
    assert_eq!(wal.flush(), Ok(wal.written_lsn()));
    let fs = wal.into_fs();
    assert_eq!(fs.read_exact_at("wal/notes", 0, 4).unwrap(), b"kept".to_vec());
    assert_eq!(fs.file_len("wal/00000000000000000003.wal"), Ok(70));
    let scan = WalReader::new_with_fs("wal", wal_config(), fs).scan().unwrap();
    assert_eq!(scan.len(), 1);
}

const FIRST: &str = "wal/00000000000000000001.wal";
const SECOND: &str = "wal/00000000000000000002.wal";

#[test]
fn appends_follow_each_other() {
    let mut wal = WalManager::create_with_fs("wal", wal_config(), MemFileSystem::new()).unwrap();
    let a = wal.append(WalRecordKind::PageDelta, TxId(1), vec![1; 10]).unwrap();
    let b = wal.append(WalRecordKind::PageDelta, TxId(1), vec![2; 10]).unwrap();
    assert_eq!(b.start_lsn, a.end_lsn);
    let c = wal.append(WalRecordKind::PageDelta, TxId(1), vec![3; 10]).unwrap();
    assert_eq!((c.start_lsn, c.end_lsn), (Lsn(128), Lsn(178)));
    assert_eq!(wal.written_lsn(), c.end_lsn);
    assert_eq!(wal.durable_lsn(), Lsn(0));
}

#[test]
fn stray_bytes_are_cut_off_when_a_log_is_opened() {
    let mut wal = WalManager::create_with_fs("wal", wal_config(), MemFileSystem::new()).unwrap();
    wal.append(WalRecordKind::PageDelta, TxId(1), vec![1; 3]).unwrap();
    let last = wal.append(WalRecordKind::PageDelta, TxId(2), vec![2; 3]).unwrap();
    let mut fs = wal.into_fs();
    fs.write_all_at(FIRST, last.end_lsn.0, &[9; 20]).unwrap();
    let reader = WalReader::new_with_fs("wal", wal_config(), fs);
    assert!(reader.scan_report().unwrap().torn_tail);
    let mut wal = WalManager::open_with_fs("wal", wal_config(), reader.into_fs()).unwrap();
    assert_eq!(wal.written_lsn(), last.end_lsn);
    assert_eq!(wal.durable_lsn(), Lsn(0));
    assert_eq!(wal.prev_lsn(), last.start_lsn);
    let next = wal.append(WalRecordKind::Commit, TxId(3), vec![]).unwrap();
    assert_eq!(next.start_lsn, last.end_lsn);
    let scan = WalReader::new_with_fs("wal", wal_config(), wal.into_fs()).scan_report().unwrap();
    assert_eq!(scan.records.len(), 3);
    assert_eq!(scan.records[2].prev_lsn, last.start_lsn);
    assert!(!scan.torn_tail);
}

#[test]
fn a_pruned_log_is_read_back_and_opened_again() {
    let mut wal = WalManager::create_with_fs("wal", wal_config(), MemFileSystem::new()).unwrap();
    for i in 0..5_u64 {
        wal.append(WalRecordKind::PageDelta, TxId(i), vec![i as u8; 30]).unwrap();
    }
    assert_eq!(wal.prune_segments_below_checkpoint_lsn(Lsn(127)), Ok(0));
    assert_eq!(wal.prune_segments_below_checkpoint_lsn(Lsn(3 * 128)), Ok(3));
    let reader = WalReader::new_with_fs("wal", wal_config(), wal.into_fs());
    let kept: Vec<u64> = reader.scan().unwrap().iter().map(|record| record.tx_id.0).collect();
    assert_eq!(kept, vec![3, 4]);
    let mut wal = WalManager::open_with_fs("wal", wal_config(), reader.into_fs()).unwrap();
    assert_eq!(wal.append(WalRecordKind::Commit, TxId(9), vec![]).unwrap().start_lsn, Lsn(4 * 128 + 70));
    let scan = WalReader::new_with_fs("wal", wal_config(), wal.into_fs()).scan().unwrap();
    assert_eq!(scan.len(), 3);
}

#[test]
fn a_log_that_was_cut_off_is_read_back_or_refused() {
    for cut_last in [false, true] {
        let mut wal = WalManager::create_with_fs("wal", wal_config(), MemFileSystem::new()).unwrap();
        for i in 0..2_u64 {
            wal.append(WalRecordKind::PageDelta, TxId(i), vec![i as u8; 30]).unwrap();
        }
        let mut fs = wal.into_fs();
        fs.set_len(if cut_last { SECOND } else { FIRST }, 69).unwrap();
        let scan = WalReader::new_with_fs("wal", wal_config(), fs).scan();
        if cut_last {
            assert_eq!(scan.unwrap().len(), 1);
        } else {
            assert!(matches!(scan, Err(Error::CorruptWal(_))));
        }
    }
}

#[test]
fn a_damaged_record_in_the_middle_is_reported() {
    let mut wal = WalManager::create_with_fs("wal", wal_config(), MemFileSystem::new()).unwrap();
    for i in 0..3_u64 {
        wal.append(WalRecordKind::PageDelta, TxId(i), vec![i as u8; 30]).unwrap();
    }
    let mut fs = wal.into_fs();
    fs.write_all_at("wal/00000000000000000001.wal", 45, &[0xff]).unwrap();
    assert!(WalReader::new_with_fs("wal", wal_config(), fs).scan_report().is_err());
}

#[test]
fn logs_refuse_bad_settings_and_large_records() {
    let small = WalConfig { segment_bytes: 10, ..WalConfig::default() };
    let refused = WalManager::create_with_fs("wal", small, MemFileSystem::new());
    let refused = refused.unwrap_err();
    assert_eq!(refused.error, Error::CorruptWal("wal segment size too small"));
    assert!(!refused.fs.dir_exists("wal"));
    let no_buffer = WalConfig { wal_buffer_bytes: 1, ..WalConfig::default() };
    assert_eq!(no_buffer.validate(), Err(Error::CorruptWal("wal buffer too small")));
    let no_batch = WalConfig { wal_write_batch_bytes: 0, ..WalConfig::default() };
    assert_eq!(no_batch.validate(), Err(Error::CorruptWal("wal write batch must be nonzero")));
    let mut wal = WalManager::create_with_fs("wal", wal_config(), MemFileSystem::new()).unwrap();
    assert_eq!(
        wal.append(WalRecordKind::PageDelta, TxId(1), vec![0; 100]).unwrap_err(),
        Error::CorruptWal("record larger than wal segment")
    );
}

#[test]
fn records_round_trip() {
    let record = WalRecord {
        lsn: Lsn(128),
        prev_lsn: Lsn(0),
        tx_id: TxId(7),
        kind: WalRecordKind::Commit,
        payload: vec![1, 2, 3],
    };
    let bytes = record.encode().unwrap();
    assert_eq!(bytes.len(), record.encoded_len());
    assert_eq!(WalRecord::decode(&bytes).unwrap(), record);
    let mut damaged = bytes.clone();
    damaged[41] ^= 1;
    assert!(WalRecord::decode(&damaged).is_err());
}

#[test]
fn texts_are_built_and_read() {
    assert_eq!(decimal_text(u64::MAX), "18446744073709551615");
    let mut text = String::new();
    push_decimal_i64(&mut text, i64::MIN);
    assert_eq!(text, "-9223372036854775808");
    assert_eq!(parse_u64("+18446744073709551615"), Some(u64::MAX));
    assert_eq!(parse_u64("18446744073709551616"), None);
    assert_eq!(parse_u64(""), None);
    assert_eq!(parse_i32("-2147483648"), Some(i32::MIN));
    assert_eq!(parse_i32("2147483648"), None);
    assert_eq!(parse_i32("-+5"), None);
    assert_eq!(trim(" \t a b \u{a0}"), "a b");
    assert_eq!(lower_text("AbC\u{c4}"), "abc\u{c4}");
    assert!(contains_text("database", "bas"));
    assert!(!contains_text("data", "base"));
    assert_eq!(to_hex(&[0, 0xab, 0xff]), "00abff");
    assert_eq!(chars_of("a\u{e9}"), vec!['a', '\u{e9}']);
}
