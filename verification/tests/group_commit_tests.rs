use redlinedb::format::TxId;
use redlinedb::io::MemFileSystem;
use redlinedb::wal::coordinator::{AppendStep, FlushStep, WalQueue};
use redlinedb::wal::counters::{WalSyncCountersSnapshot, GROUP_COMMIT_BUCKET_COUNT};
use redlinedb::wal::writer::{WalWriter, WriterStep};
use redlinedb::wal::{WalAppend, WalConfig, WalManager, WalReader, WalRecordKind};

fn coordinator(config: WalConfig) -> (WalWriter<MemFileSystem>, WalQueue) {
    let wal = WalManager::create_with_fs("wal", config, MemFileSystem::new()).unwrap();
    WalWriter::new(wal, config)
}

fn append(queue: &mut WalQueue, config: &WalConfig, tx: u64, payload: Vec<u8>) -> WalAppend {
    match queue.append(config, WalRecordKind::Commit, TxId(tx), payload).unwrap() {
        AppendStep::Queued(append) => append,
        AppendStep::Wait => panic!("the queue has room"),
    }
}

fn run(writer: &mut WalWriter<MemFileSystem>, queue: &mut WalQueue) -> WriterStep {
    loop {
        match writer.decide(queue) {
            WriterStep::Perform => writer.perform(),
            WriterStep::SleepFor(_) => {}
            step => return step,
        }
    }
}

#[test]
fn group_commit_telemetry_starts_zeroed() {
    let (writer, _queue) = coordinator(WalConfig::default());
    let snapshot = writer.sync_counters_snapshot();
    assert_eq!(snapshot.group_commits_issued, 0);
    assert_eq!(snapshot.group_commit_batch_record_count_sum, 0);
    assert_eq!(snapshot.group_commit_batch_bytes_sum, 0);
    assert_eq!(snapshot.group_commit_batch_buckets, [0_u64; GROUP_COMMIT_BUCKET_COUNT]);
    assert_eq!(snapshot.batch_record_count_percentile(1, 2), 0);
    assert_eq!(snapshot.batch_record_count_max(), 0);
}

#[test]
fn group_commit_telemetry_singleton_path_lands_in_bucket_zero() {
    let config = WalConfig { group_commit_delay_us: 0, ..WalConfig::default() };
    let (mut writer, mut queue) = coordinator(config);
    let append = append(&mut queue, &config, 1, vec![0_u8; 32]);
    assert_eq!(queue.flush_until(append.end_lsn).unwrap(), FlushStep::Wait);
    assert_eq!(run(&mut writer, &mut queue), WriterStep::Sleep);
    assert_eq!(queue.flush_until(append.end_lsn).unwrap(), FlushStep::Done(append.end_lsn));

    let snap = writer.sync_counters_snapshot();
    assert!(snap.group_commits_issued >= 1, "expected at least one group commit, got {}", snap.group_commits_issued);
    assert!(
        snap.group_commit_batch_record_count_sum >= 1,
        "expected >=1 record covered, got {}",
        snap.group_commit_batch_record_count_sum
    );
    assert!(
        snap.group_commit_batch_buckets[0] >= 1,
        "singleton commit must land in bucket 0; got buckets={:?}",
        snap.group_commit_batch_buckets
    );
    assert_eq!(snap.batch_record_count_percentile(1, 2), 1);
    assert!(snap.batch_record_count_max() >= 1);
}

#[test]
fn group_commit_telemetry_observes_real_batching_under_concurrency() {
    let config = WalConfig { group_commit_delay_us: 2_000, ..WalConfig::default() };
    let (mut writer, mut queue) = coordinator(config);
    let threads = 100_usize;
    // All of them queue their record and ask for durability before the writer runs.
    for idx in 0..threads {
        let append = append(&mut queue, &config, idx as u64 + 1, vec![idx as u8; 16]);
        assert_eq!(queue.flush_until(append.end_lsn).unwrap(), FlushStep::Wait);
    }
    assert_eq!(run(&mut writer, &mut queue), WriterStep::Sleep);
    assert!(matches!(queue.flush_all().unwrap(), FlushStep::Done(_)));

    let snap = writer.sync_counters_snapshot();
    assert!(snap.group_commits_issued > 0);
    assert_eq!(
        snap.group_commit_batch_record_count_sum, threads as u64,
        "telemetry must account for every committed record"
    );
    assert!(
        snap.group_commit_batch_record_count_sum > snap.group_commits_issued,
        "real batching must occur: got {} records over {} group commits",
        snap.group_commit_batch_record_count_sum,
        snap.group_commits_issued
    );
    assert!(
        snap.group_commit_batch_bytes_sum >= snap.group_commit_batch_record_count_sum,
        "every record contributes >= 1 byte"
    );
    let hist_total: u64 = snap.group_commit_batch_buckets.iter().sum();
    assert_eq!(hist_total, snap.group_commits_issued);
    assert!(snap.batch_record_count_max() >= 1);
}

#[test]
fn group_commit_histogram_buckets_cover_powers_of_two() {
    let mut snap = WalSyncCountersSnapshot::new();
    snap.group_commits_issued = 10;
    snap.group_commit_batch_buckets[0] = 2;
    snap.group_commit_batch_buckets[3] = 7;
    snap.group_commit_batch_buckets[6] = 1;

    assert_eq!(snap.batch_record_count_percentile(50, 100), 8);
    assert_eq!(snap.batch_record_count_percentile(99, 100), 64);
    assert_eq!(snap.batch_record_count_max(), 64);
    assert_eq!(snap.batch_record_count_percentile(0, 100), 1);
}

#[test]
fn batches_land_in_their_buckets() {
    let mut snap = WalSyncCountersSnapshot::new();
    for records in [1, 2, 3, 4, 7, 8, 100_000] {
        snap.record_batch(records, 10);
    }
    snap.record_batch(0, 10);
    assert_eq!(snap.group_commits_issued, 7);
    assert_eq!(snap.group_commit_batch_buckets[0], 1);
    assert_eq!(snap.group_commit_batch_buckets[1], 2);
    assert_eq!(snap.group_commit_batch_buckets[2], 2);
    assert_eq!(snap.group_commit_batch_buckets[3], 1);
    assert_eq!(snap.group_commit_batch_buckets[15], 1);
    assert_eq!(snap.group_commit_batch_bytes_sum, 70);
}

#[test]
fn queued_records_are_read_back_in_order() {
    let config = WalConfig { segment_bytes: 256, ..WalConfig::default() };
    let (mut writer, mut queue) = coordinator(config);
    for i in 0..20_u64 {
        append(&mut queue, &config, i + 1, vec![i as u8; 17]);
    }
    queue.flush_all().unwrap();
    queue.request_shutdown();
    assert_eq!(run(&mut writer, &mut queue), WriterStep::Exit);
    let fs = writer.into_wal().into_fs();
    let report = WalReader::new_with_fs("wal", config, fs).scan_report().unwrap();
    assert_eq!(report.records.len(), 20);
    assert!(!report.torn_tail);
    for (i, record) in report.records.iter().enumerate() {
        assert_eq!(record.tx_id, TxId(i as u64 + 1));
        assert_eq!(record.payload, vec![i as u8; 17]);
    }
}

#[test]
fn a_full_queue_makes_appends_wait() {
    let config = WalConfig { wal_buffer_bytes: 100, ..WalConfig::default() };
    let (mut writer, mut queue) = coordinator(config);
    append(&mut queue, &config, 1, vec![0; 40]);
    let waiting = queue.append(&config, WalRecordKind::Commit, TxId(2), vec![0; 40]).unwrap();
    assert_eq!(waiting, AppendStep::Wait);
    assert_eq!(run(&mut writer, &mut queue), WriterStep::Sleep);
    let queued = queue.append(&config, WalRecordKind::Commit, TxId(2), vec![0; 40]).unwrap();
    assert!(matches!(queued, AppendStep::Queued(_)));
}

#[test]
fn records_that_can_never_be_queued_are_refused() {
    let config = WalConfig { wal_buffer_bytes: 100, segment_bytes: 200, ..WalConfig::default() };
    let (_writer, mut queue) = coordinator(config);
    let too_long = queue.append(&config, WalRecordKind::Commit, TxId(1), vec![0; 161]);
    assert_eq!(too_long.unwrap_err(), redlinedb::error::Error::CorruptWal("record larger than wal segment"));
    let too_big = queue.append(&config, WalRecordKind::Commit, TxId(1), vec![0; 61]);
    assert_eq!(too_big.unwrap_err(), redlinedb::error::Error::CorruptWal("record larger than wal buffer"));
    queue.publish_wal_failure();
    let failed = queue.append(&config, WalRecordKind::Commit, TxId(1), vec![0; 10]);
    assert_eq!(failed.unwrap_err(), redlinedb::error::Error::CorruptWal("wal writer failed"));
    assert!(queue.flush_all().is_err());
}

#[test]
fn commits_reserve_their_number_only_once_there_is_room() {
    let config = WalConfig { wal_buffer_bytes: 60, ..WalConfig::default() };
    let (_writer, mut queue) = coordinator(config);
    let (csn, append) = queue.append_commit(&config, TxId(1), || redlinedb::format::Csn(5)).unwrap().unwrap();
    assert_eq!(csn, redlinedb::format::Csn(5));
    assert_eq!(append.end_lsn.0 - append.start_lsn.0, 57);
    let mut asked = false;
    let refused = queue.append_commit(&config, TxId(2), || {
        asked = true;
        redlinedb::format::Csn(6)
    });
    assert_eq!(refused.unwrap(), None);
    assert!(!asked);
}

#[test]
fn a_checkpoint_keeps_its_own_segment() {
    let config = WalConfig { segment_bytes: 128, ..WalConfig::default() };
    let (mut writer, mut queue) = coordinator(config);
    for i in 0..6_u64 {
        append(&mut queue, &config, i + 1, vec![0; 50]);
    }
    queue.flush_all().unwrap();
    run(&mut writer, &mut queue);
    assert_eq!(queue.prune_bound(&config, redlinedb::format::Lsn(300)), 3);
    assert_eq!(queue.prune_bound(&config, redlinedb::format::Lsn(u64::MAX - 1)), 6);
    let mut fs = writer.into_wal().into_fs();
    assert_eq!(redlinedb::wal::manager::remove_segments_below(&mut fs, "wal", 3).unwrap(), 2);
}
