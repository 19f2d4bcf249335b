//! The engine: transactions, row locks, the log and checkpoints together.
//!
//! A commit goes through three steps, between which its owner may have to wait: its record is
//! queued, the log becomes durable up to it, and a new schema is saved. Only then is it over.
use crate::engine::lock::{LockStep, RowKey, RowLockManager};
use crate::engine::tx::{Txn, TxnView};
use crate::error::{Error, Result};
use crate::format::page;
use crate::format::{Csn, Lsn, RelId, RowId, TxId};
use crate::storage::buffer::BufferPoolStats;
use crate::storage::control;
use crate::storage::control::{ControlFile, TxStatusCheckpoint};
use crate::txn;
use crate::txn::{ConcurrentTxStatus, Isolation, Snapshot, TxRecord, TxState, TxStatusStats};
use crate::wal;
use crate::wal::coordinator::{AppendStep, FlushStep, QueueView, WalQueue, COMMIT_RECORD_LEN};
use crate::wal::payload::PayloadView;
use crate::wal::record::WalRecordKind;
use crate::wal::{WalAppend, WalConfig};
use vstd::prelude::*;
use vstd::string::*;

verus! {

/// What a checkpoint did.
#[derive(Clone, Copy, Debug, PartialEq, Eq, Structural)]
pub struct CheckpointStats {
    pub control: ControlFile,
    pub flushed_pages: usize,
    pub flush_batches: usize,
}

/// What the engine holds at a time.
#[derive(Clone, Copy, Debug, PartialEq, Eq, Structural)]
pub struct StorageStatsSnapshot {
    pub buffer: BufferPoolStats,
    pub tx: TxStatusStats,
    pub checkpoint: Option<ControlFile>,
    pub resident_heap_pages: usize,
    pub wal_written_lsn: Lsn,
    pub wal_durable_lsn: Lsn,
    pub vacuum_horizon_csn: Csn,
}

/// The settings of an engine.
#[derive(Clone, Debug, PartialEq, Eq)]
pub struct EngineConfig {
    pub rel_id: RelId,
    pub wal: WalConfig,
    pub lock_shards: usize,
    pub heap_lanes: usize,
    pub page_size: usize,
    pub buffer_pool_pages: usize,
    pub data_file_name: String,
}

impl EngineConfig {
    /// The settings for a machine that runs so many threads at once; four where that is not
    /// known.
    pub fn for_parallelism(parallelism: Option<usize>) -> (config: EngineConfig)
        requires
            parallelism matches Some(p) ==> p * 4 <= usize::MAX,
        ensures
            ({
                let p = if parallelism is Some {
                    parallelism->0
                } else {
                    4
                };
                &&& config.rel_id == RelId(1)
                &&& config.wal == (WalConfig {
                    segment_bytes: wal::DEFAULT_WAL_SEGMENT_BYTES,
                    wal_buffer_bytes: wal::DEFAULT_WAL_BUFFER_BYTES,
                    wal_write_batch_bytes: wal::DEFAULT_WAL_WRITE_BATCH_BYTES,
                    group_commit_delay_us: wal::DEFAULT_GROUP_COMMIT_DELAY_US,
                    group_commit_max_batch_bytes: wal::DEFAULT_GROUP_COMMIT_MAX_BATCH_BYTES,
                })
                &&& config.wal.problem() is None
                &&& config.lock_shards == if p * 4 > 16 {
                    p * 4
                } else {
                    16
                }
                &&& config.heap_lanes == if p > 4 {
                    p
                } else {
                    4
                }
                &&& config.page_size == page::DEFAULT_PAGE_SIZE
                &&& config.buffer_pool_pages == 1024
                &&& config.data_file_name@ == "data.redline"@
            }),
    {
        let parallelism: usize = match parallelism {
            Some(p) => p,
            None => 4,
        };
        EngineConfig {
            rel_id: RelId(1),
            wal: WalConfig::default(),
            lock_shards: if parallelism * 4 > 16 {
                parallelism * 4
            } else {
                16
            },
            heap_lanes: if parallelism > 4 {
                parallelism
            } else {
                4
            },
            page_size: page::DEFAULT_PAGE_SIZE,
            buffer_pool_pages: 1024,
            data_file_name: String::from_str("data.redline"),
        }
    }
}

/// What a commit has to do next.
#[derive(Clone, Copy, Debug, PartialEq, Eq, Structural)]
pub enum CommitStep {
    /// Wait until the log is durable up to the commit.
    Wait,
    /// Save the schema with this epoch, then go on.
    SaveSchema(u64),
    /// The transaction has committed and is over.
    Done(Csn),
}

/// The engine.
pub struct Engine {
    rel_id: RelId,
    wal_config: WalConfig,
    txs: ConcurrentTxStatus,
    locks: RowLockManager,
    queue: WalQueue,
    schema_epoch: u64,
    checkpoint: Option<ControlFile>,
}

/// Whether these are the transactions in numbers.
pub open spec fn stats_of(stats: TxStatusStats, txs: ConcurrentTxStatus) -> bool {
    stats == (TxStatusStats {
        next_tx: TxId(txs.spec_next_tx()),
        next_csn: Csn(txs.spec_next_csn()),
        published_csn: Csn(txs.spec_published_csn()),
        committed_states: txn::committed_in(txs.records()).len() as usize,
        active_transactions: txs.spec_active().len() as usize,
        active_snapshots: txs.spec_active().len() as usize,
    })
}

/// The locks after a transaction gives back some rows of a relation.
pub open spec fn released(before: RowLockManager, after: RowLockManager, rel_id: RelId, rows: Seq<RowId>, tx_id: TxId) -> bool {
    forall|key: RowKey| #[trigger]
        after.owner(key) == (if key.rel_id == rel_id && rows.contains(key.row_id) && before.owner(key) == Some(tx_id) {
            None
        } else {
            before.owner(key)
        })
}

impl Engine {
    pub closed spec fn wf(self) -> bool {
        &&& self.txs.wf()
        &&& self.locks.wf()
        &&& self.queue.wf()
        &&& self.wal_config.problem() is None
    }

    pub closed spec fn spec_rel_id(self) -> RelId {
        self.rel_id
    }

    pub closed spec fn spec_wal_config(self) -> WalConfig {
        self.wal_config
    }

    pub closed spec fn txs(self) -> ConcurrentTxStatus {
        self.txs
    }

    pub closed spec fn locks(self) -> RowLockManager {
        self.locks
    }

    pub closed spec fn queue(self) -> QueueView {
        self.queue@
    }

    pub closed spec fn spec_schema_epoch(self) -> u64 {
        self.schema_epoch
    }

    pub closed spec fn spec_checkpoint(self) -> Option<ControlFile> {
        self.checkpoint
    }

    /// Nothing but transactions, the owners of rows and the queue may differ.
    pub open spec fn same_settings(self, other: Engine) -> bool {
        &&& self.spec_rel_id() == other.spec_rel_id()
        &&& self.spec_wal_config() == other.spec_wal_config()
        &&& self.spec_checkpoint() == other.spec_checkpoint()
        &&& self.locks().spec_timeout_us() == other.locks().spec_timeout_us()
        &&& self.locks().spec_shards() == other.locks().spec_shards()
    }

    /// Every row of the engine's relation that a transaction holds is among those it has noted.
    pub open spec fn tracks(self, tx: TxnView) -> bool {
        forall|row_id: RowId|
            #[trigger] self.locks().owner(RowKey { rel_id: self.spec_rel_id(), row_id }) == Some(tx.id)
                ==> tx.row_locks.contains(row_id)
    }

    /// A transaction holds no row of the engine's relation.
    pub open spec fn holds_nothing(self, tx_id: TxId) -> bool {
        forall|row_id: RowId|
            #[trigger] self.locks().owner(RowKey { rel_id: self.spec_rel_id(), row_id }) != Some(tx_id)
    }

    /// Only transactions that have begun hold rows.
    pub open spec fn known_owners(self) -> bool {
        forall|key: RowKey| #[trigger]
            self.locks().owner(key) matches Some(owner) ==> owner.0 < self.txs().spec_next_tx()
    }

    /// Rows that other transactions hold are theirs in both engines.
    pub open spec fn others_keep_rows(self, before: Engine, tx_id: TxId) -> bool {
        forall|key: RowKey|
            {
                let now = #[trigger] self.locks().owner(key);
                let then = before.locks().owner(key);
                now != then ==> (now is None || now == Some(tx_id)) && (then is None || then == Some(tx_id))
            }
    }

    /// A transaction that is over holds no row of the engine's relation any more, and took none from
    /// others.
    pub open spec fn gave_rows_back(self, before: Engine, tx: TxnView) -> bool {
        &&& before.tracks(tx) ==> self.holds_nothing(tx.id)
        &&& self.others_keep_rows(before, tx.id)
        &&& before.known_owners() ==> self.known_owners()
    }

    /// An engine over transactions that were recovered and a queue to the log.
    pub fn new(
        config: &EngineConfig,
        lock_timeout_us: u64,
        txs: ConcurrentTxStatus,
        queue: WalQueue,
        schema_epoch: u64,
        checkpoint: Option<ControlFile>,
    ) -> (r: Result<Engine>)
        requires
            txs.wf(),
            queue.wf(),
        ensures
            match r {
                Ok(engine) => {
                    &&& config.wal.problem() is None
                    &&& engine.wf()
                    &&& engine.spec_rel_id() == config.rel_id
                    &&& engine.spec_wal_config() == config.wal
                    &&& engine.txs() == txs
                    &&& engine.queue() == queue@
                    &&& engine.spec_schema_epoch() == schema_epoch
                    &&& engine.spec_checkpoint() == checkpoint
                    &&& engine.locks().spec_timeout_us() == lock_timeout_us
                    &&& engine.locks().spec_shards() == if config.lock_shards == 0 {
                        1
                    } else {
                        config.lock_shards
                    }
                    &&& forall|key: RowKey| engine.locks().owner(key) is None
                    &&& engine.known_owners()
                },
                Err(e) => config.wal.problem() == Some(e),
            },
    {
        config.wal.validate()?;
        Ok(
            Engine {
                rel_id: config.rel_id,
                wal_config: config.wal,
                txs,
                locks: RowLockManager::new(config.lock_shards, lock_timeout_us),
                queue,
                schema_epoch,
                checkpoint,
            },
        )
    }

    /// Begins a transaction. Serializable transactions are not offered.
    pub fn begin(&mut self, isolation: Isolation) -> (r: Result<Txn>)
        requires
            old(self).wf(),
            old(self).txs().spec_next_tx() < u64::MAX,
        ensures
            final(self).wf(),
            final(self).same_settings(*old(self)),
            final(self).locks() == old(self).locks(),
            final(self).queue() == old(self).queue(),
            final(self).spec_schema_epoch() == old(self).spec_schema_epoch(),
            match r {
                Ok(tx) => {
                    let begun = txn::ActiveTx {
                        tx_id: TxId(old(self).txs().spec_next_tx()),
                        csn: Csn(old(self).txs().spec_published_csn()),
                    };
                    &&& isolation != Isolation::Serializable
                    &&& tx@ == (TxnView {
                        id: begun.tx_id,
                        isolation,
                        snapshot: Snapshot { csn: begun.csn },
                        row_locks: Seq::empty(),
                        pending_schema: None,
                        open: true,
                    })
                    &&& final(self).txs().spec_next_tx() == old(self).txs().spec_next_tx() + 1
                    &&& final(self).txs().spec_active() == old(self).txs().spec_active().push(begun)
                    &&& final(self).txs().records() == old(self).txs().records()
                    &&& final(self).txs().spec_published_csn() == old(self).txs().spec_published_csn()
                    &&& final(self).txs().spec_next_csn() == old(self).txs().spec_next_csn()
                    &&& final(self).txs().spec_reserved() == old(self).txs().spec_reserved()
                    &&& old(self).known_owners() ==> final(self).known_owners() && final(self).holds_nothing(tx@.id)
                        && final(self).tracks(tx@)
                },
                Err(e) => isolation == Isolation::Serializable && e == Error::UnsupportedIsolation
                    && final(self).txs() == old(self).txs(),
            },
    {
        if isolation == Isolation::Serializable {
            return Err(Error::UnsupportedIsolation);
        }
        let begun = self.txs.begin();
        Ok(Txn::new(begun.tx_id, isolation, Snapshot { csn: begun.csn }))
    }

    fn refresh_read_committed(&self, tx: &mut Txn)
        ensures
            final(tx)@ == old(tx)@.refreshed(Snapshot { csn: Csn(self.txs().spec_published_csn()) }),
    {
        if tx.isolation() == Isolation::ReadCommitted {
            tx.replace_snapshot(self.txs.snapshot());
        }
    }

    /// What a transaction sees when it reads now.
    pub fn prepare_read(&self, tx: &mut Txn) -> (r: Result<Snapshot>)
        ensures
            match r {
                Ok(snapshot) => {
                    &&& old(tx)@.open
                    &&& final(tx)@ == old(tx)@.refreshed(Snapshot { csn: Csn(self.txs().spec_published_csn()) })
                    &&& snapshot == final(tx)@.snapshot
                },
                Err(e) => !old(tx)@.open && e == Error::TransactionClosed && final(tx)@ == old(tx)@,
            },
    {
        tx.ensure_open()?;
        self.refresh_read_committed(tx);
        Ok(tx.snapshot())
    }

    /// Tries to lock a row of a relation for a transaction that is about to change it.
    pub fn lock_row_in_rel(
        &mut self,
        tx: &mut Txn,
        rel_id: RelId,
        row_id: RowId,
        now_us: u64,
        deadline_us: u64,
    ) -> (r: Result<LockStep>)
        requires
            old(self).wf(),
        ensures
            final(self).wf(),
            final(self).same_settings(*old(self)),
            final(self).txs() == old(self).txs(),
            final(self).queue() == old(self).queue(),
            final(self).spec_schema_epoch() == old(self).spec_schema_epoch(),
            old(self).tracks(old(tx)@) ==> final(self).tracks(final(tx)@),
            forall|row: RowId| old(tx)@.row_locks.contains(row) ==> #[trigger] final(tx)@.row_locks.contains(row),
            r == Ok::<LockStep, Error>(LockStep::Held) ==> final(tx)@.row_locks.contains(row_id),
            final(self).others_keep_rows(*old(self), old(tx)@.id),
            old(self).known_owners() && old(tx)@.id.0 < old(self).txs().spec_next_tx() ==> final(self).known_owners(),
            final(tx)@.id == old(tx)@.id,
            ({
                let key = RowKey { rel_id, row_id };
                let owner = old(self).locks().owner(key);
                let held = old(tx)@.row_locks.contains(row_id);
                let free = owner is None || owner == Some(old(tx)@.id);
                let now = Snapshot { csn: Csn(old(self).txs().spec_published_csn()) };
                &&& r == (if !old(tx)@.open {
                    Err(Error::TransactionClosed)
                } else if held || free {
                    Ok(LockStep::Held)
                } else if now_us >= deadline_us {
                    Err(Error::LockTimeout)
                } else {
                    Ok(LockStep::Wait((deadline_us - now_us) as u64))
                })
                &&& final(tx)@ == (if !old(tx)@.open {
                    old(tx)@
                } else if held || free {
                    old(tx)@.refreshed(now).with_lock(row_id)
                } else {
                    old(tx)@.refreshed(now)
                })
                &&& old(tx)@.open && !held && free ==> final(self).locks().owner(key) == Some(old(tx)@.id)
                &&& forall|other: RowKey|
                    (other != key || !(old(tx)@.open && !held && free)) ==> #[trigger] final(self).locks().owner(other)
                        == old(self).locks().owner(other)
            }),
    {
        tx.ensure_open()?;
        self.refresh_read_committed(tx);
        if tx.has_row_lock(row_id) {
            return Ok(LockStep::Held);
        }
        match self.locks.lock(rel_id, row_id, tx.id(), now_us, deadline_us)? {
            LockStep::Held => {
                tx.push_row_lock(row_id);
                self.refresh_read_committed(tx);
                proof {
                    let noted = old(tx)@.row_locks;
                    assert(tx@.row_locks[noted.len() as int] == row_id);
                    assert forall|row: RowId| noted.contains(row) implies #[trigger] tx@.row_locks.contains(row) by {
                        let i = choose|i: int| 0 <= i < noted.len() && noted[i] == row;
                        assert(tx@.row_locks[i] == row);
                    }
                }
                Ok(LockStep::Held)
            },
            LockStep::Wait(left) => Ok(LockStep::Wait(left)),
        }
    }

    /// Tries to lock a row of the engine's own relation.
    pub fn lock_row(&mut self, tx: &mut Txn, row_id: RowId, now_us: u64, deadline_us: u64) -> (r: Result<LockStep>)
        requires
            old(self).wf(),
        ensures
            final(self).wf(),
            final(self).same_settings(*old(self)),
            final(self).txs() == old(self).txs(),
            final(self).queue() == old(self).queue(),
            final(self).spec_schema_epoch() == old(self).spec_schema_epoch(),
            old(self).tracks(old(tx)@) ==> final(self).tracks(final(tx)@),
            forall|row: RowId| old(tx)@.row_locks.contains(row) ==> #[trigger] final(tx)@.row_locks.contains(row),
            r == Ok::<LockStep, Error>(LockStep::Held) ==> final(tx)@.row_locks.contains(row_id),
            final(self).others_keep_rows(*old(self), old(tx)@.id),
            old(self).known_owners() && old(tx)@.id.0 < old(self).txs().spec_next_tx() ==> final(self).known_owners(),
            final(tx)@.id == old(tx)@.id,
            ({
                let key = RowKey { rel_id: old(self).spec_rel_id(), row_id };
                let owner = old(self).locks().owner(key);
                let held = old(tx)@.row_locks.contains(row_id);
                let free = owner is None || owner == Some(old(tx)@.id);
                let now = Snapshot { csn: Csn(old(self).txs().spec_published_csn()) };
                &&& r == (if !old(tx)@.open {
                    Err(Error::TransactionClosed)
                } else if held || free {
                    Ok(LockStep::Held)
                } else if now_us >= deadline_us {
                    Err(Error::LockTimeout)
                } else {
                    Ok(LockStep::Wait((deadline_us - now_us) as u64))
                })
                &&& final(tx)@ == (if !old(tx)@.open {
                    old(tx)@
                } else if held || free {
                    old(tx)@.refreshed(now).with_lock(row_id)
                } else {
                    old(tx)@.refreshed(now)
                })
                &&& old(tx)@.open && !held && free ==> final(self).locks().owner(key) == Some(old(tx)@.id)
                &&& forall|other: RowKey|
                    (other != key || !(old(tx)@.open && !held && free)) ==> #[trigger] final(self).locks().owner(other)
                        == old(self).locks().owner(other)
            }),
    {
        let rel_id = self.rel_id;
        self.lock_row_in_rel(tx, rel_id, row_id, now_us, deadline_us)
    }

    /// Gives back the rows that a transaction has locked.
    fn release_locks(&mut self, tx: &mut Txn)
        requires
            old(self).wf(),
        ensures
            final(self).wf(),
            final(self).same_settings(*old(self)),
            final(self).txs() == old(self).txs(),
            final(self).queue() == old(self).queue(),
            final(self).spec_schema_epoch() == old(self).spec_schema_epoch(),
            final(tx)@ == (TxnView { row_locks: Seq::empty(), ..old(tx)@ }),
            released(
                old(self).locks(),
                final(self).locks(),
                old(self).spec_rel_id(),
                old(tx)@.row_locks,
                old(tx)@.id,
            ),
            final(self).gave_rows_back(*old(self), old(tx)@),
    {
        let tx_id = tx.id();
        let rel_id = self.rel_id;
        let rows: Vec<RowId> = tx.drain_row_locks();
        let ghost before = self.locks;
        for i in 0..rows.len()
            invariant
                self.wf(),
                self.same_settings(*old(self)),
                self.txs() == old(self).txs(),
                self.queue() == old(self).queue(),
                self.spec_schema_epoch() == old(self).spec_schema_epoch(),
                rel_id == old(self).rel_id,
                before == old(self).locks,
                released(before, self.locks, rel_id, rows@.take(i as int), tx_id),
        {
            let ghost mid = self.locks;
            let row_id = rows[i];
            self.locks.unlock(rel_id, row_id, tx_id);
            proof {
                let done = rows@.take(i as int);
                let next = rows@.take(i + 1);
                assert(next =~= done.push(row_id));
                assert forall|row: RowId| next.contains(row) <==> done.contains(row) || row == row_id by {
                    if done.contains(row) {
                        let k = choose|k: int| 0 <= k < done.len() && #[trigger] done[k] == row;
                        assert(next[k] == row);
                    }
                    if row == row_id {
                        assert(next[i as int] == row);
                    }
                    if next.contains(row) && row != row_id {
                        let k = choose|k: int| 0 <= k < next.len() && #[trigger] next[k] == row;
                        assert(done[k] == row);
                    }
                }
                assert forall|key: RowKey| #[trigger] self.locks.owner(key) == (if key.rel_id == rel_id && next.contains(
                    key.row_id,
                ) && before.owner(key) == Some(tx_id) {
                    None
                } else {
                    before.owner(key)
                }) by {
                    assert(mid.owner(key) == mid.owner(key));
                    assert(key.rel_id == rel_id && key.row_id == row_id ==> key == (RowKey { rel_id, row_id }));
                }
            }
        }
        proof {
            assert(rows@.take(rows@.len() as int) =~= rows@);
        }
    }

    /// Ends a transaction that did not commit.
    fn abandon(&mut self, tx: &mut Txn)
        requires
            old(self).wf(),
        ensures
            final(self).wf(),
            final(self).abandoned(*old(self), old(tx)@),
            final(self).gave_rows_back(*old(self), old(tx)@),
            final(tx)@ == old(tx)@.closed(),
    {
        self.txs.abort(tx.id());
        self.release_locks(tx);
        tx.close();
    }

    /// The engine after a transaction ended without a commit.
    pub open spec fn abandoned(self, before: Engine, tx: TxnView) -> bool {
        &&& self.same_settings(before)
        &&& self.queue() == before.queue()
        &&& self.spec_schema_epoch() == before.spec_schema_epoch()
        &&& self.txs().records() == before.txs().records().push(TxRecord { tx_id: tx.id, state: TxState::Aborted })
        &&& self.txs().state_of(tx.id) == TxState::Aborted
        &&& forall|other: TxId| other != tx.id ==> #[trigger] self.txs().state_of(other) == before.txs().state_of(other)
        &&& self.txs().spec_active() == txn::without_tx(before.txs().spec_active(), tx.id)
        &&& self.txs().spec_next_tx() == before.txs().spec_next_tx()
        &&& self.txs().spec_next_csn() == before.txs().spec_next_csn()
        &&& self.txs().spec_reserved() == before.txs().spec_reserved()
        &&& self.txs().spec_published_csn() == before.txs().spec_published_csn()
        &&& released(before.locks(), self.locks(), before.spec_rel_id(), tx.row_locks, tx.id)
    }

    /// Rolls a transaction back.
    pub fn rollback(&mut self, tx: &mut Txn) -> (r: Result<()>)
        requires
            old(self).wf(),
        ensures
            final(self).wf(),
            match r {
                Ok(_) => {
                    &&& old(tx)@.open
                    &&& final(self).abandoned(*old(self), old(tx)@)
                    &&& final(self).gave_rows_back(*old(self), old(tx)@)
                    &&& final(tx)@ == old(tx)@.closed()
                },
                Err(e) => !old(tx)@.open && e == Error::TransactionClosed && *final(self) == *old(self) && final(tx)@
                    == old(tx)@,
            },
    {
        tx.ensure_open()?;
        self.abandon(tx);
        Ok(())
    }

    /// Whether another commit can be numbered and placed in the log.
    pub open spec fn has_room(self) -> bool {
        &&& self.txs().spec_next_csn() < u64::MAX
        &&& self.queue().has_room(self.spec_wal_config())
    }

    /// First step of a commit: reserves a sequence number and queues the record. `None` where the
    /// queue has no room yet. A transaction whose record cannot be queued is over.
    pub fn commit_append(&mut self, tx: &mut Txn) -> (r: Result<Option<(Csn, WalAppend)>>)
        requires
            old(self).wf(),
            old(self).has_room(),
        ensures
            final(self).wf(),
            ({
                let config = old(self).spec_wal_config();
                let len = COMMIT_RECORD_LEN as int;
                let problem = match QueueView::too_large(config, len) {
                    Some(e) => Some(e),
                    None => match old(self).queue().failure {
                        Some(message) => Some(Error::CorruptWal(message)),
                        None => None,
                    },
                };
                match r {
                    Ok(None) => {
                        &&& old(tx)@.open
                        &&& problem is None
                        &&& !old(self).queue().admits(config, len)
                        &&& *final(self) == *old(self)
                        &&& final(tx)@ == old(tx)@
                    },
                    Ok(Some((csn, append))) => {
                        &&& old(tx)@.open
                        &&& problem is None
                        &&& old(self).queue().admits(config, len)
                        &&& final(tx)@ == old(tx)@
                        &&& csn.0 == old(self).txs().spec_next_csn()
                        &&& append == old(self).queue().next_append(config, len)
                        &&& final(self).same_settings(*old(self))
                        &&& final(self).spec_schema_epoch() == old(self).spec_schema_epoch()
                        &&& final(self).locks() == old(self).locks()
                        &&& final(self).queue() == old(self).queue().with_record(
                            config,
                            WalRecordKind::Commit,
                            old(tx)@.id,
                            (PayloadView::Commit { tx_id: old(tx)@.id, csn }).image(),
                        )
                        &&& final(self).txs().spec_next_csn() == old(self).txs().spec_next_csn() + 1
                        &&& final(self).txs().spec_reserved() == old(self).txs().spec_reserved().push(csn.0)
                        &&& final(self).txs().records() == old(self).txs().records()
                        &&& final(self).txs().spec_next_tx() == old(self).txs().spec_next_tx()
                        &&& final(self).txs().spec_active() == old(self).txs().spec_active()
                        &&& final(self).txs().spec_published_csn() == old(self).txs().spec_published_csn()
                    },
                    Err(e) => if !old(tx)@.open {
                        e == Error::TransactionClosed && *final(self) == *old(self) && final(tx)@ == old(tx)@
                    } else {
                        &&& problem == Some(e)
                        &&& final(self).abandoned(*old(self), old(tx)@)
                        &&& final(self).gave_rows_back(*old(self), old(tx)@)
                        &&& final(tx)@ == old(tx)@.closed()
                    },
                }
            }),
    {
        tx.ensure_open()?;
        match self.queue.has_space(&self.wal_config, COMMIT_RECORD_LEN) {
            Err(e) => {
                self.abandon(tx);
                Err(e)
            },
            Ok(false) => Ok(None),
            Ok(true) => {
                let csn = self.txs.reserve_commit_csn();
                match self.queue.append_commit_with_csn(&self.wal_config, tx.id(), csn) {
                    Ok(AppendStep::Queued(append)) => Ok(Some((csn, append))),
                    Ok(AppendStep::Wait) => Ok(None),
                    Err(e) => Err(e),
                }
            },
        }
    }

    /// The engine after a transaction was published as committed, all else unchanged.
    pub open spec fn published(self, before: Engine, tx: TxnView, csn: Csn) -> bool {
        &&& self.txs().records() == before.txs().records().push(
            TxRecord { tx_id: tx.id, state: TxState::Committed(csn) },
        )
        &&& self.txs().state_of(tx.id) == TxState::Committed(csn)
        &&& forall|other: TxId| other != tx.id ==> #[trigger] self.txs().state_of(other) == before.txs().state_of(other)
        &&& self.txs().spec_active() == txn::without_tx(before.txs().spec_active(), tx.id)
        &&& self.txs().spec_reserved() == before.txs().spec_reserved().filter(|n: u64| n != csn.0)
        &&& self.txs().spec_next_tx() == before.txs().spec_next_tx()
        &&& self.txs().spec_next_csn() == before.txs().spec_next_csn()
        &&& self.txs().spec_published_csn() == txn::larger(
            before.txs().spec_published_csn(),
            ConcurrentTxStatus::frontier(self.txs().spec_reserved(), before.txs().spec_next_csn()),
        )
    }

    /// The engine after a transaction whose record could not be made durable ended.
    pub open spec fn cancelled(self, before: Engine, tx: TxnView, csn: Csn) -> bool {
        &&& self.same_settings(before)
        &&& self.queue() == before.queue()
        &&& self.spec_schema_epoch() == before.spec_schema_epoch()
        &&& self.txs().records() == before.txs().records().push(TxRecord { tx_id: tx.id, state: TxState::Aborted })
        &&& self.txs().state_of(tx.id) == TxState::Aborted
        &&& forall|other: TxId| other != tx.id ==> #[trigger] self.txs().state_of(other) == before.txs().state_of(other)
        &&& self.txs().spec_active() == txn::without_tx(before.txs().spec_active(), tx.id)
        &&& self.txs().spec_reserved() == before.txs().spec_reserved().filter(|n: u64| n != csn.0)
        &&& self.txs().spec_next_tx() == before.txs().spec_next_tx()
        &&& self.txs().spec_next_csn() == before.txs().spec_next_csn()
        &&& self.txs().spec_published_csn() == txn::larger(
            before.txs().spec_published_csn(),
            ConcurrentTxStatus::frontier(self.txs().spec_reserved(), before.txs().spec_next_csn()),
        )
        &&& released(before.locks(), self.locks(), before.spec_rel_id(), tx.row_locks, tx.id)
    }

    /// Second step of a commit: once the log is durable up to the record, the commit is
    /// published. A transaction whose record cannot be made durable is over, and its sequence
    /// number is given up.
    pub fn commit_flush(&mut self, tx: &mut Txn, csn: Csn, end_lsn: Lsn) -> (r: Result<CommitStep>)
        requires
            old(self).wf(),
        ensures
            final(self).wf(),
            match r {
                Err(e) => {
                    &&& old(self).queue().failure matches Some(message) && e == Error::CorruptWal(message)
                    &&& final(self).cancelled(*old(self), old(tx)@, csn)
                    &&& final(self).gave_rows_back(*old(self), old(tx)@)
                    &&& final(tx)@ == old(tx)@.closed()
                },
                Ok(CommitStep::Wait) => {
                    &&& old(self).queue().failure is None
                    &&& old(self).queue().durable.0 < end_lsn.0
                    &&& final(tx)@ == old(tx)@
                    &&& final(self).same_settings(*old(self))
                    &&& final(self).txs() == old(self).txs()
                    &&& final(self).locks() == old(self).locks()
                    &&& final(self).spec_schema_epoch() == old(self).spec_schema_epoch()
                    &&& final(self).queue() == (QueueView {
                        flush_requested: if end_lsn.0 > old(self).queue().flush_requested.0 {
                            end_lsn
                        } else {
                            old(self).queue().flush_requested
                        },
                        ..old(self).queue()
                    })
                },
                Ok(CommitStep::SaveSchema(epoch)) => {
                    &&& old(self).queue().failure is None
                    &&& old(self).queue().durable.0 >= end_lsn.0
                    &&& old(tx)@.pending_schema == Some(epoch)
                    &&& final(tx)@ == old(tx)@
                    &&& final(self).same_settings(*old(self))
                    &&& final(self).queue() == old(self).queue()
                    &&& final(self).locks() == old(self).locks()
                    &&& final(self).spec_schema_epoch() == old(self).spec_schema_epoch()
                    &&& final(self).published(*old(self), old(tx)@, csn)
                },
                Ok(CommitStep::Done(done)) => {
                    &&& old(self).queue().failure is None
                    &&& old(self).queue().durable.0 >= end_lsn.0
                    &&& old(tx)@.pending_schema is None
                    &&& done == csn
                    &&& final(tx)@ == old(tx)@.closed()
                    &&& final(self).same_settings(*old(self))
                    &&& final(self).queue() == old(self).queue()
                    &&& final(self).spec_schema_epoch() == old(self).spec_schema_epoch()
                    &&& final(self).published(*old(self), old(tx)@, csn)
                    &&& released(
                        old(self).locks(),
                        final(self).locks(),
                        old(self).spec_rel_id(),
                        old(tx)@.row_locks,
                        old(tx)@.id,
                    )
                    &&& final(self).gave_rows_back(*old(self), old(tx)@)
                },
            },
    {
        match self.queue.flush_until(end_lsn) {
            Err(e) => {
                self.txs.cancel_reserved_csn(csn);
                self.abandon(tx);
                Err(e)
            },
            Ok(FlushStep::Wait) => Ok(CommitStep::Wait),
            Ok(FlushStep::Done(_)) => {
                self.txs.publish_commit(tx.id(), csn);
                match tx.pending_schema() {
                    Some(epoch) => Ok(CommitStep::SaveSchema(epoch)),
                    None => {
                        self.release_locks(tx);
                        tx.close();
                        Ok(CommitStep::Done(csn))
                    },
                }
            },
        }
    }

    /// Third step of a commit with a new schema: publishes it if it could be saved, and ends the
    /// transaction either way.
    pub fn commit_schema(&mut self, tx: &mut Txn, csn: Csn, saved: Result<()>) -> (r: Result<Csn>)
        requires
            old(self).wf(),
        ensures
            final(self).wf(),
            final(self).same_settings(*old(self)),
            final(self).txs() == old(self).txs(),
            final(self).queue() == old(self).queue(),
            final(tx)@ == old(tx)@.closed(),
            released(
                old(self).locks(),
                final(self).locks(),
                old(self).spec_rel_id(),
                old(tx)@.row_locks,
                old(tx)@.id,
            ),
            final(self).gave_rows_back(*old(self), old(tx)@),
            final(self).spec_schema_epoch() == match (saved, old(tx)@.pending_schema) {
                (Ok(_), Some(epoch)) => epoch,
                _ => old(self).spec_schema_epoch(),
            },
            r == (match saved {
                Ok(_) => Ok::<Csn, Error>(csn),
                Err(e) => Err(e),
            }),
    {
        if saved.is_ok() {
            if let Some(epoch) = tx.pending_schema() {
                self.schema_epoch = epoch;
            }
        }
        self.release_locks(tx);
        tx.close();
        match saved {
            Ok(_) => Ok(csn),
            Err(e) => Err(e),
        }
    }

    pub fn tx_state(&self, tx_id: TxId) -> (state: TxState)
        ensures
            state == self.txs().state_of(tx_id),
    {
        self.txs.state(tx_id)
    }

    /// The transactions in numbers.
    pub fn tx_status_stats(&self) -> (stats: TxStatusStats)
        ensures
            stats_of(stats, self.txs()),
    {
        self.txs.stats()
    }

    pub fn schema_epoch(&self) -> (epoch: u64)
        ensures
            epoch == self.spec_schema_epoch(),
    {
        self.schema_epoch
    }

    /// The epoch of the schema that a transaction sees: its own, if it has changed it.
    pub fn schema_epoch_for_tx(&self, tx: &Txn) -> (epoch: u64)
        ensures
            epoch == match tx@.pending_schema {
                Some(own) => own,
                None => self.spec_schema_epoch(),
            },
    {
        match tx.pending_schema() {
            Some(own) => own,
            None => self.schema_epoch,
        }
    }

    /// Notes a change of the schema that a transaction makes; it is published once the transaction has
    /// committed.
    pub fn change_schema(&self, tx: &mut Txn, epoch: u64) -> (r: Result<()>)
        ensures
            r == (if old(tx)@.open {
                Ok(())
            } else {
                Err(Error::TransactionClosed)
            }),
            final(tx)@ == (if old(tx)@.open {
                TxnView { pending_schema: Some(epoch), ..old(tx)@ }
            } else {
                old(tx)@
            }),
    {
        tx.ensure_open()?;
        tx.set_pending_schema(epoch);
        Ok(())
    }

    /// Refuses a plan that was made for another schema.
    pub fn validate_schema_epoch(&self, epoch: u64) -> (r: Result<()>)
        ensures
            r == (if self.spec_schema_epoch() == epoch {
                Ok(())
            } else {
                Err(Error::SchemaChanged)
            }),
    {
        if self.schema_epoch == epoch {
            Ok(())
        } else {
            Err(Error::SchemaChanged)
        }
    }

    pub fn oldest_active_snapshot_csn(&self) -> (csn: Csn)
        ensures
            csn.0 == txn::least_of(txn::active_csns(self.txs().spec_active()), self.txs().spec_published_csn()),
    {
        self.txs.oldest_active_snapshot_csn()
    }

    pub fn storage_stats(&self, buffer: BufferPoolStats, resident_heap_pages: usize) -> (stats: StorageStatsSnapshot)
        ensures
            stats_of(stats.tx, self.txs()),
            stats == (StorageStatsSnapshot {
                buffer,
                tx: stats.tx,
                checkpoint: self.spec_checkpoint(),
                resident_heap_pages,
                wal_written_lsn: self.queue().reserved,
                wal_durable_lsn: self.queue().durable,
                vacuum_horizon_csn: Csn(
                    txn::least_of(txn::active_csns(self.txs().spec_active()), self.txs().spec_published_csn()),
                ),
            }),
    {
        StorageStatsSnapshot {
            buffer,
            tx: self.txs.stats(),
            checkpoint: self.checkpoint,
            resident_heap_pages,
            wal_written_lsn: self.queue.written_lsn(),
            wal_durable_lsn: self.queue.durable_lsn(),
            vacuum_horizon_csn: self.txs.oldest_active_snapshot_csn(),
        }
    }

    pub fn checkpoint_info(&self) -> (checkpoint: Option<ControlFile>)
        ensures
            checkpoint == self.spec_checkpoint(),
    {
        self.checkpoint
    }

    /// What the next checkpoint has to say about the transactions.
    pub fn checkpoint_status(&self) -> (status: TxStatusCheckpoint)
        requires
            control::next_generation_spec(self.spec_checkpoint()) <= u64::MAX,
        ensures
            status.generation == control::next_generation_spec(self.spec_checkpoint()),
            status.next_tx.0 == self.txs().spec_next_tx(),
            status.next_csn.0 == self.txs().spec_next_csn(),
            status.published_csn.0 == self.txs().spec_published_csn(),
            status.entries@ == txn::committed_in(self.txs().records()),
    {
        TxStatusCheckpoint {
            generation: control::next_generation(self.checkpoint),
            next_tx: self.txs.next_tx(),
            next_csn: self.txs.next_csn(),
            published_csn: self.txs.published_csn(),
            entries: self.txs.committed_states(),
        }
    }

    /// The root of the next checkpoint: all pages are on disk up to `durable_lsn`.
    pub fn next_control(&self, durable_lsn: Lsn, page_count: u64) -> (next: ControlFile)
        requires
            control::next_generation_spec(self.spec_checkpoint()) <= u64::MAX,
        ensures
            next.generation == control::next_generation_spec(self.spec_checkpoint()),
            next.checkpoint_lsn == durable_lsn,
            next.page_count == page_count,
    {
        ControlFile {
            generation: control::next_generation(self.checkpoint),
            checkpoint_lsn: durable_lsn,
            page_count,
        }
    }

    /// Takes over a checkpoint that is on disk.
    pub fn finish_checkpoint(&mut self, next: ControlFile, flushed_pages: usize, flush_batches: usize) -> (stats:
        CheckpointStats)
        ensures
            old(self).wf() ==> final(self).wf(),
            stats == (CheckpointStats { control: next, flushed_pages, flush_batches }),
            final(self).spec_checkpoint() == Some(next),
            final(self).spec_rel_id() == old(self).spec_rel_id(),
            final(self).spec_wal_config() == old(self).spec_wal_config(),
            final(self).spec_schema_epoch() == old(self).spec_schema_epoch(),
            final(self).txs() == old(self).txs(),
            final(self).locks() == old(self).locks(),
            final(self).queue() == old(self).queue(),
    {
        self.checkpoint = Some(next);
        CheckpointStats { control: next, flushed_pages, flush_batches }
    }

    /// Access to the queue for the writer of the log, which gives it back afterwards.
    pub fn swap_queue(&mut self, queue: &mut WalQueue)
        requires
            old(self).wf(),
            old(queue).wf(),
        ensures
            final(self).wf(),
            final(queue).wf(),
            final(self).same_settings(*old(self)),
            final(self).txs() == old(self).txs(),
            final(self).locks() == old(self).locks(),
            final(self).spec_schema_epoch() == old(self).spec_schema_epoch(),
            final(self).queue() == old(queue)@,
            final(queue)@ == old(self).queue(),
    {
        std::mem::swap(&mut self.queue, queue);
    }
}

} // verus!
