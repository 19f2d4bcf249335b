use redlinedb::engine::lock::{wait_over, LockStep, RowLockManager};
use redlinedb::engine::recovery::{
    open_with_recovery_report, recover_heap, restore_checkpoint, RedoAction, RedoList,
};
use redlinedb::engine::state::{CommitStep, Engine, EngineConfig};
use redlinedb::error::Error;
use redlinedb::format::page::{Page, PageKind};
use redlinedb::format::{Csn, Lsn, PageId, RelId, RowId, TxId};
use redlinedb::io::MemFileSystem;
use redlinedb::storage::buffer::BufferPoolStats;
use redlinedb::storage::control::{ControlFile, TxStatusCheckpoint};
use redlinedb::txn::{ConcurrentTxStatus, Isolation, TxState};
use redlinedb::vector::{check_same_dim, Metric};
use redlinedb::wal::coordinator::WalQueue;
use redlinedb::wal::writer::{WalWriter, WriterStep};
use redlinedb::wal::{WalConfig, WalManager, WalPayload, WalReader, WalRecord, WalRecordKind, WalScanReport};

fn record(lsn: u64, tx: u64, kind: WalRecordKind, payload: WalPayload) -> WalRecord {
    WalRecord { lsn: Lsn(lsn), prev_lsn: Lsn(0), tx_id: TxId(tx), kind, payload: payload.encode().unwrap() }
}

fn commit(lsn: u64, tx: u64, csn: u64) -> WalRecord {
    record(lsn, tx, WalRecordKind::Commit, WalPayload::Commit { tx_id: TxId(tx), csn: Csn(csn) })
}

fn insert(lsn: u64, tx: u64, row: u64) -> WalRecord {
    let payload = WalPayload::HeapInsert {
        tx_id: TxId(tx),
        rel_id: RelId(1),
        row_id: RowId(row),
        payload: vec![row as u8],
    };
    record(lsn, tx, WalRecordKind::PageDelta, payload)
}

fn image(lsn: u64, tx: u64, id: u64) -> WalRecord {
    let page = Page::new(128, PageKind::Heap, PageId(id), RelId(1)).unwrap();
    let payload = WalPayload::PageImage { page_id: PageId(id), page_lsn: Lsn(0), page_bytes: page.to_bytes() };
    record(lsn, tx, WalRecordKind::PageImage, payload)
}

#[test]
fn only_what_committed_is_done_again() {
    let records = vec![insert(0, 1, 10), insert(100, 2, 20), image(200, 1, 3), image(400, 2, 4), commit(600, 1, 5)];
    let mut txs = ConcurrentTxStatus::new();
    let mut heap = RedoList::new();
    let metrics = recover_heap(&records, Lsn(0), &mut txs, &mut heap).unwrap();
    assert_eq!(
        (metrics.page_images_redone, metrics.legacy_mutations_redone, metrics.commits_recovered),
        (1, 1, 1)
    );
    assert_eq!(heap.actions.len(), 2);
    assert!(matches!(heap.actions[0], RedoAction::Insert { row_id: RowId(10), .. }));
    match &heap.actions[1] {
        RedoAction::PageImage { page, end_lsn } => {
            assert_eq!(page.info().page_id, PageId(3));
            assert_eq!(end_lsn.0, 200 + records[2].encoded_len() as u64);
        }
        _ => panic!("a page comes back"),
    }
    assert_eq!(txs.state(TxId(1)), TxState::Committed(Csn(5)));
    assert_eq!(txs.state(TxId(2)), TxState::InProgress);
    assert!(txs.is_tx_visible(TxId(1), &txs.snapshot(), None));
    assert_eq!(txs.next_csn(), Csn(6));
}

#[test]
fn what_lies_before_the_checkpoint_is_not_done_again() {
    let records = vec![insert(0, 1, 10), commit(100, 1, 5), insert(200, 1, 11)];
    let mut heap = RedoList::new();
    let metrics = recover_heap(&records, Lsn(150), &mut ConcurrentTxStatus::new(), &mut heap).unwrap();
    assert_eq!(metrics.legacy_mutations_redone, 1);
    assert!(matches!(heap.actions[0], RedoAction::Insert { row_id: RowId(11), .. }));
}

#[test]
fn damaged_logs_are_refused() {
    let mut heap = RedoList::new();
    let odd = vec![record(
        0,
        1,
        WalRecordKind::Commit,
        WalPayload::HeapDelete { tx_id: TxId(1), rel_id: RelId(1), row_id: RowId(1) },
    )];
    assert_eq!(
        recover_heap(&odd, Lsn(0), &mut ConcurrentTxStatus::new(), &mut heap).unwrap_err(),
        Error::CorruptWal("commit record has non-commit payload")
    );
    let odd = vec![record(
        0,
        1,
        WalRecordKind::PageDelta,
        WalPayload::Commit { tx_id: TxId(1), csn: Csn(1) },
    )];
    assert_eq!(
        recover_heap(&odd, Lsn(0), &mut ConcurrentTxStatus::new(), &mut heap).unwrap_err(),
        Error::CorruptWal("commit payload outside a commit record")
    );
}

fn status(generation: u64) -> TxStatusCheckpoint {
    TxStatusCheckpoint {
        generation,
        next_tx: TxId(9),
        next_csn: Csn(8),
        published_csn: Csn(7),
        entries: vec![(TxId(3), Csn(4))],
    }
}

#[test]
fn checkpoints_bring_transactions_back() {
    let control = ControlFile { generation: 2, checkpoint_lsn: Lsn(77), page_count: 5 };
    let mut txs = ConcurrentTxStatus::new();
    assert_eq!(restore_checkpoint(Some((control, status(2))), &mut txs), Ok(Lsn(77)));
    assert_eq!(txs.state(TxId(3)), TxState::Committed(Csn(4)));
    assert_eq!((txs.next_tx(), txs.next_csn(), txs.published_csn()), (TxId(9), Csn(8), Csn(7)));
    assert_eq!(
        restore_checkpoint(Some((control, status(1))), &mut ConcurrentTxStatus::new()),
        Err(Error::CorruptPage("tx status checkpoint generation mismatch"))
    );
    assert_eq!(restore_checkpoint(None, &mut ConcurrentTxStatus::new()), Ok(Lsn(0)));
    let scan = WalScanReport { records: vec![commit(100, 5, 9)], valid_end_lsn: Lsn(157), torn_tail: true };
    let mut heap = RedoList::new();
    let (txs, report) = open_with_recovery_report(&scan, Some((control, status(2))), &mut heap).unwrap();
    assert_eq!(report.replay_from_lsn, Lsn(77));
    assert_eq!((report.scanned_records, report.commits_recovered), (1, 1));
    assert!(report.torn_tail);
    assert_eq!(txs.state(TxId(5)), TxState::Committed(Csn(9)));
    assert_eq!(txs.committed_states(), vec![(TxId(3), Csn(4)), (TxId(5), Csn(9))]);
}

fn engine() -> (WalWriter<MemFileSystem>, Engine) {
    let config = EngineConfig::for_parallelism(Some(2));
    let wal = WalManager::create_with_fs("wal", config.wal, MemFileSystem::new()).unwrap();
    let (writer, queue) = WalWriter::new(wal, config.wal);
    let engine = Engine::new(&config, 1_000, ConcurrentTxStatus::new(), queue, 1, None).unwrap();
    (writer, engine)
}

fn write_log(writer: &mut WalWriter<MemFileSystem>, engine: &mut Engine) {
    let mut queue = WalQueue::new(Lsn(0), Lsn(0), Lsn(0));
    engine.swap_queue(&mut queue);
    loop {
        match writer.decide(&mut queue) {
            WriterStep::Perform => writer.perform(),
            WriterStep::SleepFor(_) => {}
            _ => break,
        }
    }
    engine.swap_queue(&mut queue);
}

#[test]
fn engines_are_configured_for_the_machine() {
    let config = EngineConfig::for_parallelism(Some(8));
    assert_eq!((config.lock_shards, config.heap_lanes), (32, 8));
    assert_eq!(config.wal, WalConfig::default());
    let config = EngineConfig::for_parallelism(None);
    assert_eq!((config.lock_shards, config.heap_lanes), (16, 4));
    assert_eq!(config.data_file_name, "data.redline");
    assert_eq!(config.buffer_pool_pages, 1024);
}

#[test]
fn a_commit_is_acknowledged_once_it_is_durable() {
    let (mut writer, mut engine) = engine();
    let mut tx = engine.begin(Isolation::Snapshot).unwrap();
    assert_eq!(engine.lock_row(&mut tx, RowId(4), 0, 10), Ok(LockStep::Held));
    let (csn, append) = engine.commit_append(&mut tx).unwrap().unwrap();
    assert_eq!(engine.commit_flush(&mut tx, csn, append.end_lsn), Ok(CommitStep::Wait));
    assert_eq!(engine.tx_state(tx.id()), TxState::InProgress);
    write_log(&mut writer, &mut engine);
    assert_eq!(engine.commit_flush(&mut tx, csn, append.end_lsn), Ok(CommitStep::Done(csn)));
    assert_eq!(engine.tx_state(tx.id()), TxState::Committed(csn));
    assert_eq!(tx.ensure_open(), Err(Error::TransactionClosed));
    let mut other = engine.begin(Isolation::Snapshot).unwrap();
    assert_eq!(engine.lock_row(&mut other, RowId(4), 0, 10), Ok(LockStep::Held));
    let fs = writer.into_wal().into_fs();
    let config = EngineConfig::for_parallelism(Some(2));
    let scan = WalReader::new_with_fs("wal", config.wal, fs).scan_report().unwrap();
    let (txs, _) = open_with_recovery_report(&scan, None, &mut RedoList::new()).unwrap();
    assert_eq!(txs.state(TxId(1)), TxState::Committed(csn));
}

#[test]
fn snapshots_do_not_move_unless_they_should() {
    let (mut writer, mut engine) = engine();
    let mut fixed = engine.begin(Isolation::Snapshot).unwrap();
    let mut fresh = engine.begin(Isolation::ReadCommitted).unwrap();
    let mut tx = engine.begin(Isolation::Snapshot).unwrap();
    let (csn, append) = engine.commit_append(&mut tx).unwrap().unwrap();
    engine.commit_flush(&mut tx, csn, append.end_lsn).unwrap();
    write_log(&mut writer, &mut engine);
    engine.commit_flush(&mut tx, csn, append.end_lsn).unwrap();
    assert_eq!(engine.prepare_read(&mut fixed).unwrap().csn, Csn(0));
    assert_eq!(engine.prepare_read(&mut fresh).unwrap().csn, csn);
    assert_eq!(engine.oldest_active_snapshot_csn(), Csn(0));
    engine.rollback(&mut fixed).unwrap();
    assert_eq!(engine.rollback(&mut fixed), Err(Error::TransactionClosed));
    assert_eq!(engine.tx_state(fixed.id()), TxState::Aborted);
    assert!(engine.prepare_read(&mut fixed).is_err());
}

#[test]
fn a_failed_log_aborts_the_commit() {
    let (_writer, mut engine) = engine();
    let mut tx = engine.begin(Isolation::Snapshot).unwrap();
    let (csn, append) = engine.commit_append(&mut tx).unwrap().unwrap();
    let mut queue = WalQueue::new(Lsn(0), Lsn(0), Lsn(0));
    engine.swap_queue(&mut queue);
    queue.publish_wal_failure();
    engine.swap_queue(&mut queue);
    assert_eq!(
        engine.commit_flush(&mut tx, csn, append.end_lsn),
        Err(Error::CorruptWal("wal writer failed"))
    );
    assert_eq!(engine.tx_state(tx.id()), TxState::Aborted);
    let mut other = engine.begin(Isolation::Snapshot).unwrap();
    assert_eq!(engine.commit_append(&mut other).unwrap_err(), Error::CorruptWal("wal writer failed"));
    assert_eq!(engine.tx_state(other.id()), TxState::Aborted);
}

#[test]
fn schemas_are_published_by_commits() {
    let (mut writer, mut engine) = engine();
    let mut tx = engine.begin(Isolation::Snapshot).unwrap();
    tx.set_pending_schema(2);
    assert_eq!(engine.schema_epoch_for_tx(&tx), 2);
    let (csn, append) = engine.commit_append(&mut tx).unwrap().unwrap();
    engine.commit_flush(&mut tx, csn, append.end_lsn).unwrap();
    write_log(&mut writer, &mut engine);
    assert_eq!(engine.commit_flush(&mut tx, csn, append.end_lsn), Ok(CommitStep::SaveSchema(2)));
    assert_eq!(engine.validate_schema_epoch(2), Err(Error::SchemaChanged));
    assert_eq!(engine.commit_schema(&mut tx, csn, Ok(())), Ok(csn));
    assert_eq!(engine.validate_schema_epoch(2), Ok(()));
    assert_eq!(engine.schema_epoch(), 2);
}

#[test]
fn serializable_is_not_offered() {
    let (_writer, mut engine) = engine();
    assert_eq!(engine.begin(Isolation::Serializable).err(), Some(Error::UnsupportedIsolation));
}

#[test]
fn checkpoints_count_up() {
    let (_writer, mut engine) = engine();
    assert_eq!(engine.checkpoint_info(), None);
    let status = engine.checkpoint_status();
    assert_eq!(status.generation, 1);
    let control = engine.next_control(Lsn(50), 7);
    let stats = engine.finish_checkpoint(control, 3, 1);
    assert_eq!(stats.control, ControlFile { generation: 1, checkpoint_lsn: Lsn(50), page_count: 7 });
    assert_eq!(engine.checkpoint_status().generation, 2);
    let buffer = BufferPoolStats { resident_pages: 5, dirty_pages: 2 };
    let stats = engine.storage_stats(buffer, 4);
    assert_eq!(stats.resident_heap_pages, 4);
    assert_eq!(stats.checkpoint, Some(control));
    assert_eq!(stats.buffer, buffer);
    assert_eq!(stats.tx.active_transactions, 0);
    engine.begin(Isolation::Snapshot).unwrap();
    assert_eq!(engine.tx_status_stats().active_transactions, 1);
    assert_eq!(engine.tx_status_stats().active_snapshots, 1);
}

#[test]
fn rows_are_locked_by_one_transaction_at_a_time() {
    let mut locks = RowLockManager::new(0, 100);
    assert_eq!(locks.shard_count(), 1);
    assert_eq!(locks.deadline(5), 105);
    assert_eq!(locks.lock(RelId(1), RowId(1), TxId(1), 0, 100), Ok(LockStep::Held));
    assert_eq!(locks.lock(RelId(1), RowId(1), TxId(1), 0, 100), Ok(LockStep::Held));
    assert_eq!(locks.lock(RelId(1), RowId(1), TxId(2), 40, 100), Ok(LockStep::Wait(60)));
    assert_eq!(locks.lock(RelId(1), RowId(1), TxId(2), 100, 100), Err(Error::LockTimeout));
    assert_eq!(locks.lock(RelId(2), RowId(1), TxId(2), 0, 100), Ok(LockStep::Held));
    assert!(!locks.unlock(RelId(1), RowId(1), TxId(2)));
    assert!(locks.unlock(RelId(1), RowId(1), TxId(1)));
    assert_eq!(locks.lock(RelId(1), RowId(1), TxId(2), 0, 100), Ok(LockStep::Held));
    locks.set_timeout(7);
    assert_eq!(locks.deadline(1), 8);
    assert_eq!(wait_over(true), Err(Error::LockTimeout));
    assert_eq!(wait_over(false), Ok(()));
}

#[test]
fn commits_are_published_without_gaps() {
    let mut txs = ConcurrentTxStatus::new();
    let a = txs.begin();
    let b = txs.begin();
    let first = txs.reserve_commit_csn();
    let second = txs.reserve_commit_csn();
    txs.publish_commit(b.tx_id, second);
    assert_eq!(txs.published_csn(), Csn(0));
    assert!(!txs.is_tx_visible(b.tx_id, &txs.snapshot(), None));
    txs.publish_commit(a.tx_id, first);
    assert_eq!(txs.published_csn(), second);
    assert!(txs.is_tx_visible(b.tx_id, &txs.snapshot(), None));
    let third = txs.reserve_commit_csn();
    txs.cancel_reserved_csn(third);
    assert_eq!(txs.published_csn(), third);
}

#[test]
fn metrics_have_their_bytes() {
    for metric in [Metric::L2, Metric::Cosine, Metric::InnerProduct] {
        assert_eq!(Metric::from_u8(metric.as_u8()), Ok(metric));
    }
    assert_eq!(Metric::from_u8(3), Err(Error::CorruptPage("unknown vector metric")));
    assert_eq!(check_same_dim(3, 3), Ok(()));
    assert_eq!(check_same_dim(3, 4), Err(Error::CorruptPage("vector dimension mismatch")));
}
