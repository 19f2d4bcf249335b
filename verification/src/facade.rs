//! The library's own face: how databases are opened and shared, what connections refuse, and how
//! transactions end.
use crate::bench::config::DurabilityKind;
use crate::engine::state::{CheckpointStats as EngineCheckpoint, StorageStatsSnapshot};
use crate::ffi;
use crate::format::Csn;
use crate::io;
use vstd::prelude::*;
use vstd::string::*;

verus! {

/// What kind of thing went wrong.
#[derive(Clone, Copy, Debug, PartialEq, Eq, Structural)]
pub enum ErrorCode {
    Busy,
    Misuse,
    NotFound,
    ReadOnly,
    Interrupt,
    Unsupported,
}

/// What went wrong.
#[derive(Clone, Copy, Debug, PartialEq, Eq)]
pub struct FacadeError {
    pub code: ErrorCode,
    pub message: &'static str,
}

/// How much a commit promises.
#[derive(Clone, Copy, Debug, PartialEq, Eq, Structural)]
pub enum Durability {
    Strict,
    Normal,
    UnsafeDev,
}

/// How queries are planned.
#[derive(Clone, Copy, Debug, PartialEq, Eq, Structural)]
pub struct OptimizerOptions {
    pub enabled: bool,
    pub max_exact_join_tables: usize,
    pub max_join_alternatives: usize,
    pub enable_multi_index_or: bool,
    pub enable_multi_index_and: bool,
    pub enable_covering_index: bool,
}

/// How much memory queries use.
#[derive(Clone, Copy, Debug, PartialEq, Eq, Structural)]
pub struct QueryMemoryOptions {
    pub work_mem_bytes: usize,
    pub max_spill_bytes: usize,
    pub batch_rows: usize,
}

/// How statistics are taken.
#[derive(Clone, Copy, Debug, PartialEq, Eq, Structural)]
pub struct AnalyzeOptions {
    pub exact_analyze_row_threshold: usize,
    pub sample_rows: usize,
    pub mcv_capacity: usize,
    pub histogram_buckets: usize,
}

/// How a database is opened.
#[derive(Clone, Copy, Debug, PartialEq, Eq, Structural)]
pub struct OpenOptions {
    pub create: bool,
    pub read_only: bool,
    pub durability: Durability,
    pub cache_bytes: usize,
    pub optimizer: OptimizerOptions,
    pub query_memory: QueryMemoryOptions,
    pub stats: AnalyzeOptions,
    pub process_owner_lock: bool,
    pub busy_timeout_ms: u64,
}

/// The options of a database that is opened without any.
pub open spec fn usual_options() -> OpenOptions {
    OpenOptions {
        create: false,
        read_only: false,
        durability: Durability::Strict,
        cache_bytes: 16_777_216,
        optimizer: OptimizerOptions {
            enabled: true,
            max_exact_join_tables: 8,
            max_join_alternatives: 64,
            enable_multi_index_or: true,
            enable_multi_index_and: true,
            enable_covering_index: true,
        },
        query_memory: QueryMemoryOptions {
            work_mem_bytes: 4_194_304,
            max_spill_bytes: 268_435_456,
            batch_rows: 1024,
        },
        stats: AnalyzeOptions {
            exact_analyze_row_threshold: 10_000,
            sample_rows: 3_000,
            mcv_capacity: 32,
            histogram_buckets: 64,
        },
        process_owner_lock: true,
        busy_timeout_ms: 5_000,
    }
}

impl Default for OpenOptions {
    fn default() -> (options: OpenOptions)
        ensures
            options == usual_options(),
    {
        OpenOptions {
            create: false,
            read_only: false,
            durability: Durability::Strict,
            cache_bytes: 16_777_216,
            optimizer: OptimizerOptions {
                enabled: true,
                max_exact_join_tables: 8,
                max_join_alternatives: 64,
                enable_multi_index_or: true,
                enable_multi_index_and: true,
                enable_covering_index: true,
            },
            query_memory: QueryMemoryOptions {
                work_mem_bytes: 4_194_304,
                max_spill_bytes: 268_435_456,
                batch_rows: 1024,
            },
            stats: AnalyzeOptions {
                exact_analyze_row_threshold: 10_000,
                sample_rows: 3_000,
                mcv_capacity: 32,
                histogram_buckets: 64,
            },
            process_owner_lock: true,
            busy_timeout_ms: 5_000,
        }
    }
}

/// Sets how much a commit promises.
pub fn apply_durability(options: &mut OpenOptions, durability: DurabilityKind)
    ensures
        *final(options) == (OpenOptions {
            durability: match durability {
                DurabilityKind::Strict => Durability::Strict,
                DurabilityKind::Normal => Durability::Normal,
                DurabilityKind::Unsafe => Durability::UnsafeDev,
            },
            ..*old(options)
        }),
{
    options.durability = match durability {
        DurabilityKind::Strict => Durability::Strict,
        DurabilityKind::Normal => Durability::Normal,
        DurabilityKind::Unsafe => Durability::UnsafeDev,
    };
}

/// The settings of the query engine that a database is opened with.
#[derive(Clone, Copy, Debug, PartialEq, Eq, Structural)]
pub struct SqlOptions {
    pub buffer_pool_pages: usize,
    pub optimizer: OptimizerOptions,
    pub query_memory: QueryMemoryOptions,
    pub stats: AnalyzeOptions,
}

/// The settings of the query engine that a database is opened with.
pub fn sql_options(options: &OpenOptions, page_size: usize) -> (sql: SqlOptions)
    ensures
        sql == (SqlOptions {
            buffer_pool_pages: ffi::cache_pages(options.cache_bytes as int, page_size as int) as usize,
            optimizer: options.optimizer,
            query_memory: options.query_memory,
            stats: options.stats,
        }),
{
    SqlOptions {
        buffer_pool_pages: ffi::pages_of_cache(options.cache_bytes, page_size),
        optimizer: options.optimizer,
        query_memory: options.query_memory,
        stats: options.stats,
    }
}

/// What those who share a database have to agree on.
#[derive(Clone, Copy, Debug, PartialEq, Eq, Structural)]
pub struct OpenFingerprint {
    pub read_only: bool,
    pub durability: Durability,
    pub memory_cache_bytes: usize,
    pub optimizer: OptimizerOptions,
    pub query_memory: QueryMemoryOptions,
    pub stats: AnalyzeOptions,
    pub process_owner_lock: bool,
}

impl OpenFingerprint {
    /// The fingerprint of options.
    pub open spec fn of_options(options: OpenOptions) -> OpenFingerprint {
        OpenFingerprint {
            read_only: options.read_only,
            durability: options.durability,
            memory_cache_bytes: options.cache_bytes,
            optimizer: options.optimizer,
            query_memory: options.query_memory,
            stats: options.stats,
            process_owner_lock: options.process_owner_lock,
        }
    }

    /// The fingerprint of options.
    pub fn from_options(options: &OpenOptions) -> (fingerprint: OpenFingerprint)
        ensures
            fingerprint == OpenFingerprint::of_options(*options),
    {
        OpenFingerprint {
            read_only: options.read_only,
            durability: options.durability,
            memory_cache_bytes: options.cache_bytes,
            optimizer: options.optimizer,
            query_memory: options.query_memory,
            stats: options.stats,
            process_owner_lock: options.process_owner_lock,
        }
    }

    /// Whether two can share a database: they agree on everything but whether they write.
    pub open spec fn agrees(self, other: OpenFingerprint) -> bool {
        self == (OpenFingerprint { read_only: self.read_only, ..other })
    }

    /// Whether two can share a database.
    pub fn compatible_with(&self, other: &OpenFingerprint) -> (r: bool)
        ensures
            r == self.agrees(*other),
    {
        self.durability == other.durability && self.memory_cache_bytes == other.memory_cache_bytes && self.optimizer
            == other.optimizer && self.query_memory == other.query_memory && self.stats == other.stats
            && self.process_owner_lock == other.process_owner_lock
    }
}

/// A database that is open in this process.
#[derive(Clone, Debug, PartialEq, Eq)]
pub struct Database {
    pub path: String,
    pub fingerprint: OpenFingerprint,
    pub busy_timeout_ms: u64,
    pub interrupted: bool,
}

/// The databases that are open in this process.
#[derive(Clone, Debug, PartialEq, Eq)]
pub struct Registry {
    pub entries: Vec<Database>,
}

/// What opening a database comes to.
#[derive(Clone, Copy, Debug, PartialEq, Eq, Structural)]
pub enum OpenPlan {
    /// It is open already: share it.
    Share(usize),
    /// Open it, or make it, with or without a lock that keeps other processes out.
    Open { create: bool, owner_lock: bool },
}

/// The entry of a path.
pub open spec fn entry_of(entries: Seq<Database>, path: Seq<char>) -> Option<int>
    decreases entries.len(),
{
    if entries.len() == 0 {
        None
    } else if entries.last().path@ == path {
        Some(entries.len() - 1)
    } else {
        entry_of(entries.drop_last(), path)
    }
}

impl Registry {
    /// What opening a database comes to.
    pub open spec fn plan(self, path: Seq<char>, options: OpenOptions, exists: bool) -> Result<OpenPlan, FacadeError> {
        match entry_of(self.entries@, path) {
            Some(i) => {
                let open = self.entries@[i].fingerprint;
                if open.read_only && !options.read_only {
                    Err(
                        FacadeError {
                            code: ErrorCode::Busy,
                            message: "database already open read-only in this process",
                        },
                    )
                } else if !open.agrees(OpenFingerprint::of_options(options)) {
                    Err(
                        FacadeError {
                            code: ErrorCode::Misuse,
                            message: "database already open with incompatible options",
                        },
                    )
                } else {
                    Ok(OpenPlan::Share(i as usize))
                }
            },
            None => if !exists && !options.create {
                Err(FacadeError { code: ErrorCode::NotFound, message: "database directory does not exist" })
            } else {
                Ok(
                    OpenPlan::Open {
                        create: options.create,
                        owner_lock: options.process_owner_lock && !options.read_only,
                    },
                )
            },
        }
    }

    /// No database is open.
    pub fn new() -> (registry: Registry)
        ensures
            registry.entries@ == Seq::<Database>::empty(),
    {
        Registry { entries: Vec::new() }
    }

    fn find(&self, path: &str) -> (r: Option<usize>)
        ensures
            match r {
                Some(i) => entry_of(self.entries@, path@) == Some(i as int) && i < self.entries@.len(),
                None => entry_of(self.entries@, path@) is None,
            },
    {
        let mut i: usize = self.entries.len();
        proof {
            assert(self.entries@.take(i as int) =~= self.entries@);
        }
        while i > 0
            invariant
                i <= self.entries@.len(),
                entry_of(self.entries@, path@) == entry_of(self.entries@.take(i as int), path@),
            decreases i,
        {
            i = i - 1;
            proof {
                assert(self.entries@.take(i + 1).drop_last() =~= self.entries@.take(i as int));
            }
            if io::same_text(self.entries[i].path.as_str(), path) {
                return Some(i);
            }
        }
        None
    }

    /// Notes a database that was opened, and says where.
    pub fn add(&mut self, path: &str, options: &OpenOptions) -> (index: usize)
        ensures
            index == old(self).entries@.len(),
            final(self).entries@.len() == old(self).entries@.len() + 1,
            final(self).entries@.take(index as int) == old(self).entries@,
            final(self).entries@[index as int].path@ == path@,
            final(self).entries@[index as int].fingerprint == OpenFingerprint::of_options(*options),
            final(self).entries@[index as int].busy_timeout_ms == options.busy_timeout_ms,
            !final(self).entries@[index as int].interrupted,
            entry_of(final(self).entries@, path@) == Some(index as int),
    {
        let index: usize = self.entries.len();
        let ghost before = self.entries@;
        self.entries.push(
            Database {
                path: String::from_str(path),
                fingerprint: OpenFingerprint::from_options(options),
                busy_timeout_ms: options.busy_timeout_ms,
                interrupted: false,
            },
        );
        proof {
            assert(self.entries@.take(index as int) =~= before);
        }
        index
    }
}

impl Database {
    /// What opening a database with the usual options comes to.
    pub fn open(registry: &Registry, path: &str, exists: bool) -> (r: Result<OpenPlan, FacadeError>)
        ensures
            r == registry.plan(path@, usual_options(), exists),
    {
        let options = OpenOptions::default();
        Database::open_with_options(registry, path, &options, exists)
    }

    /// What making a database with the usual options comes to.
    pub fn create(registry: &Registry, path: &str, exists: bool) -> (r: Result<OpenPlan, FacadeError>)
        ensures
            r == registry.plan(path@, OpenOptions { create: true, ..usual_options() }, exists),
    {
        let mut options = OpenOptions::default();
        options.create = true;
        Database::open_with_options(registry, path, &options, exists)
    }

    /// What opening a database comes to.
    pub fn open_with_options(registry: &Registry, path: &str, options: &OpenOptions, exists: bool) -> (r: Result<
        OpenPlan,
        FacadeError,
    >)
        ensures
            r == registry.plan(path@, *options, exists),
    {
        let fingerprint = OpenFingerprint::from_options(options);
        if let Some(i) = registry.find(path) {
            let open = registry.entries[i].fingerprint;
            if open.read_only && !fingerprint.read_only {
                return Err(
                    FacadeError {
                        code: ErrorCode::Busy,
                        message: "database already open read-only in this process",
                    },
                );
            }
            if !open.compatible_with(&fingerprint) {
                return Err(
                    FacadeError {
                        code: ErrorCode::Misuse,
                        message: "database already open with incompatible options",
                    },
                );
            }
            return Ok(OpenPlan::Share(i));
        }
        if !exists && !options.create {
            return Err(FacadeError { code: ErrorCode::NotFound, message: "database directory does not exist" });
        }
        Ok(
            OpenPlan::Open {
                create: options.create,
                owner_lock: options.process_owner_lock && !options.read_only,
            },
        )
    }

    /// A connection to the database.
    pub fn connect(&self) -> (conn: Connection)
        ensures
            conn == (Connection {
                read_only: self.fingerprint.read_only,
                busy_timeout_ms: self.busy_timeout_ms,
            }),
    {
        Connection { read_only: self.fingerprint.read_only, busy_timeout_ms: self.busy_timeout_ms }
    }

    /// What a checkpoint did, in numbers.
    pub fn checkpoint(&self, done: &EngineCheckpoint) -> (stats: CheckpointStats)
        ensures
            stats == (CheckpointStats {
                generation: done.control.generation,
                checkpoint_lsn: done.control.checkpoint_lsn.0,
                page_count: done.control.page_count,
                flushed_pages: done.flushed_pages,
                flush_batches: done.flush_batches,
            }),
    {
        CheckpointStats {
            generation: done.control.generation,
            checkpoint_lsn: done.control.checkpoint_lsn.0,
            page_count: done.control.page_count,
            flushed_pages: done.flushed_pages,
            flush_batches: done.flush_batches,
        }
    }

    /// What a vacuum removed, in numbers.
    pub fn vacuum(&self, done: &VacuumReport) -> (stats: VacuumStats)
        ensures
            stats == (VacuumStats {
                rows_scanned: done.rows_scanned,
                chains_pruned: done.chains_pruned,
                undo_links_removed: done.undo_links_removed,
                dead_rows_removed: done.dead_rows_removed,
                oldest_active_snapshot_csn: done.oldest_active_snapshot_csn.0,
            }),
    {
        VacuumStats {
            rows_scanned: done.rows_scanned,
            chains_pruned: done.chains_pruned,
            undo_links_removed: done.undo_links_removed,
            dead_rows_removed: done.dead_rows_removed,
            oldest_active_snapshot_csn: done.oldest_active_snapshot_csn.0,
        }
    }

    /// What the database holds, in numbers.
    pub fn stats(&self, schema_epoch: u64, stats: &StorageStatsSnapshot) -> (r: DatabaseStats)
        ensures
            r == (DatabaseStats {
                schema_epoch,
                checkpoint_generation: match stats.checkpoint {
                    Some(control) => Some(control.generation),
                    None => None,
                },
                resident_heap_pages: stats.resident_heap_pages,
                wal_written_lsn: stats.wal_written_lsn.0,
                wal_durable_lsn: stats.wal_durable_lsn.0,
                vacuum_horizon_csn: stats.vacuum_horizon_csn.0,
                table_count: stats.tx.committed_states,
                column_count: stats.tx.active_transactions,
                index_count: stats.tx.active_snapshots,
            }),
    {
        DatabaseStats {
            schema_epoch,
            checkpoint_generation: match stats.checkpoint {
                Some(control) => Some(control.generation),
                None => None,
            },
            resident_heap_pages: stats.resident_heap_pages,
            wal_written_lsn: stats.wal_written_lsn.0,
            wal_durable_lsn: stats.wal_durable_lsn.0,
            vacuum_horizon_csn: stats.vacuum_horizon_csn.0,
            table_count: stats.tx.committed_states,
            column_count: stats.tx.active_transactions,
            index_count: stats.tx.active_snapshots,
        }
    }

    /// Asks everything that runs on the database to stop.
    pub fn interrupt_all(&mut self)
        ensures
            *final(self) == (Database { interrupted: true, ..*old(self) }),
    {
        self.interrupted = true;
    }

    pub fn path(&self) -> (path: &str)
        ensures
            path@ == self.path@,
    {
        self.path.as_str()
    }

    /// Refuses to go on once it was asked to stop.
    pub fn check_interrupt(&self) -> (r: Result<(), FacadeError>)
        ensures
            r == (if self.interrupted {
                Err(FacadeError { code: ErrorCode::Interrupt, message: "interrupted" })
            } else {
                Ok(())
            }),
    {
        check_call(Call::Step, self.interrupted)
    }
}

/// What is asked of a connection, or of a statement that it has prepared.
#[derive(Clone, Copy, Debug, PartialEq, Eq, Structural)]
pub enum Call {
    Prepare,
    Begin,
    Commit,
    Rollback,
    Step,
}

/// Why a call is refused before the SQL layer sees it: once a database was asked to stop, nothing but a
/// rollback goes on.
pub open spec fn refusal(call: Call, interrupted: bool) -> Option<FacadeError> {
    if interrupted && call != Call::Rollback {
        Some(FacadeError { code: ErrorCode::Interrupt, message: "interrupted" })
    } else {
        None
    }
}

/// Refuses a call on a database that was asked to stop.
pub fn check_call(call: Call, interrupted: bool) -> (r: Result<(), FacadeError>)
    ensures
        r == (match refusal(call, interrupted) {
            Some(e) => Err(e),
            None => Ok(()),
        }),
{
    if interrupted && call != Call::Rollback {
        return Err(FacadeError { code: ErrorCode::Interrupt, message: "interrupted" });
    }
    Ok(())
}

/// Once everything on a database was asked to stop, every connection to it, old or new, refuses to
/// prepare, to begin, to commit and to step, and says that it was interrupted. A rollback is not
/// refused.
pub proof fn law_interrupt_stops_all_but_rollback(before: Database, after: Database, conn: Connection, call: Call)
    requires
        after == (Database { interrupted: true, ..before }),
    ensures
        call != Call::Rollback ==> refusal(call, after.interrupted) == Some(
            FacadeError { code: ErrorCode::Interrupt, message: "interrupted" },
        ),
        refusal(Call::Rollback, after.interrupted) is None,
        forall|changes: u64, last: Option<i64>| #[trigger]
            conn.stats_view(changes, last, after.interrupted).interrupted,
{
}

/// A database that was opened is shared with whoever opens it with the same options.
pub proof fn law_same_options_share(registry: Registry, path: Seq<char>, options: OpenOptions, exists: bool)
    requires
        entry_of(registry.entries@, path) matches Some(i) && registry.entries@[i].fingerprint
            == OpenFingerprint::of_options(options),
    ensures
        registry.plan(path, options, exists) is Ok,
        registry.plan(path, options, exists)->Ok_0 is Share,
{
}

/// Nobody writes to a database that this process has open for reading only.
pub proof fn law_read_only_is_not_shared_for_writing(
    registry: Registry,
    path: Seq<char>,
    options: OpenOptions,
    exists: bool,
)
    requires
        entry_of(registry.entries@, path) matches Some(i) && registry.entries@[i].fingerprint.read_only,
        !options.read_only,
    ensures
        registry.plan(path, options, exists) is Err,
        registry.plan(path, options, exists)->Err_0.code == ErrorCode::Busy,
{
}

/// What a checkpoint did, in numbers.
#[derive(Clone, Copy, Debug, PartialEq, Eq, Structural)]
pub struct CheckpointStats {
    pub generation: u64,
    pub checkpoint_lsn: u64,
    pub page_count: u64,
    pub flushed_pages: usize,
    pub flush_batches: usize,
}

/// What the engine says about a vacuum.
#[derive(Clone, Copy, Debug, PartialEq, Eq, Structural)]
pub struct VacuumReport {
    pub rows_scanned: usize,
    pub chains_pruned: usize,
    pub undo_links_removed: usize,
    pub dead_rows_removed: usize,
    pub oldest_active_snapshot_csn: Csn,
}

/// What a vacuum removed, in numbers.
#[derive(Clone, Copy, Debug, PartialEq, Eq, Structural)]
pub struct VacuumStats {
    pub rows_scanned: usize,
    pub chains_pruned: usize,
    pub undo_links_removed: usize,
    pub dead_rows_removed: usize,
    pub oldest_active_snapshot_csn: u64,
}

/// What the database holds, in numbers.
#[derive(Clone, Copy, Debug, PartialEq, Eq, Structural)]
pub struct DatabaseStats {
    pub schema_epoch: u64,
    pub checkpoint_generation: Option<u64>,
    pub resident_heap_pages: usize,
    pub wal_written_lsn: u64,
    pub wal_durable_lsn: u64,
    pub vacuum_horizon_csn: u64,
    pub table_count: usize,
    pub column_count: usize,
    pub index_count: usize,
}

/// A connection to a database.
#[derive(Clone, Copy, Debug, PartialEq, Eq, Structural)]
pub struct Connection {
    pub read_only: bool,
    pub busy_timeout_ms: u64,
}

/// What a connection knows about itself.
#[derive(Clone, Copy, Debug, PartialEq, Eq, Structural)]
pub struct ConnectionStats {
    pub changes: u64,
    pub last_insert_rowid: Option<i64>,
    pub busy_timeout_ms: u64,
    pub interrupted: bool,
}

impl Connection {
    /// Refuses a statement that writes on a connection that only reads.
    pub fn check_statement(&self, readonly: bool) -> (r: Result<(), FacadeError>)
        ensures
            r == (if self.read_only && !readonly {
                Err(FacadeError { code: ErrorCode::ReadOnly, message: "connection is read-only" })
            } else {
                Ok(())
            }),
    {
        if self.read_only && !readonly {
            return Err(FacadeError { code: ErrorCode::ReadOnly, message: "connection is read-only" });
        }
        Ok(())
    }

    pub fn set_busy_timeout(&mut self, timeout_ms: u64)
        ensures
            *final(self) == (Connection { busy_timeout_ms: timeout_ms, ..*old(self) }),
    {
        self.busy_timeout_ms = timeout_ms;
    }

    /// What a connection knows about itself, with what the SQL layer and the database know.
    pub open spec fn stats_view(self, changes: u64, last_insert_rowid: Option<i64>, interrupted: bool) -> ConnectionStats {
        ConnectionStats { changes, last_insert_rowid, busy_timeout_ms: self.busy_timeout_ms, interrupted }
    }

    pub fn stats(&self, changes: u64, last_insert_rowid: Option<i64>, interrupted: bool) -> (stats: ConnectionStats)
        ensures
            stats == self.stats_view(changes, last_insert_rowid, interrupted),
    {
        ConnectionStats { changes, last_insert_rowid, busy_timeout_ms: self.busy_timeout_ms, interrupted }
    }
}

/// Stops whatever runs on a database.
#[derive(Clone, Copy, Debug, PartialEq, Eq, Structural)]
pub struct InterruptHandle {
    pub raised: bool,
}

impl InterruptHandle {
    pub fn interrupt(&mut self)
        ensures
            final(self).raised,
    {
        self.raised = true;
    }
}

/// A transaction that a function runs in.
#[derive(Clone, Copy, Debug, PartialEq, Eq, Structural)]
pub struct Transaction {
    pub committed: bool,
}

/// What has to be done to end a transaction.
#[derive(Clone, Copy, Debug, PartialEq, Eq, Structural)]
pub enum TransactionEnd {
    Nothing,
    Commit,
    Rollback,
}

impl Transaction {
    pub fn new() -> (tx: Transaction)
        ensures
            !tx.committed,
    {
        Transaction { committed: false }
    }

    /// What has to be done once the function has returned: nothing if it ended the transaction
    /// itself, and else a commit if it succeeded and a rollback if it did not.
    pub fn end(&self, succeeded: bool) -> (end: TransactionEnd)
        ensures
            end == if self.committed {
                TransactionEnd::Nothing
            } else if succeeded {
                TransactionEnd::Commit
            } else {
                TransactionEnd::Rollback
            },
    {
        if self.committed {
            TransactionEnd::Nothing
        } else if succeeded {
            TransactionEnd::Commit
        } else {
            TransactionEnd::Rollback
        }
    }

    /// Whether a commit or rollback that is asked for has anything to do.
    pub fn is_pending(&self) -> (pending: bool)
        ensures
            pending == !self.committed,
    {
        !self.committed
    }

    /// Notes that the transaction was committed or rolled back.
    pub fn settle(&mut self)
        ensures
            final(self).committed,
    {
        self.committed = true;
    }
}

} // verus!
