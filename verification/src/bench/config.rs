//! What a benchmark runs.
use crate::io;
use vstd::prelude::*;
use vstd::string::*;

verus! {

/// What the harness can fail with.
#[derive(Clone, Debug, PartialEq, Eq)]
pub enum BenchError {
    /// A comparison lists no workloads, durabilities or threads.
    EmptyCompareConfig,
    /// A certification has nothing to run.
    NoBenchmarkRuns,
    /// No workload has this name.
    UnknownWorkload(String),
}

/// An engine that is measured.
#[derive(Clone, Copy, Debug, PartialEq, Eq, Structural)]
pub enum EngineKind {
    Redline,
    Sqlite,
}

/// The engines that are measured.
#[derive(Clone, Copy, Debug, PartialEq, Eq, Structural)]
pub enum EngineSet {
    Redline,
    Sqlite,
    Both,
}

/// What is measured.
#[derive(Clone, Copy, Debug, PartialEq, Eq, Structural)]
pub enum WorkloadKind {
    SingleRowInsert,
    BatchedInsert100,
    PointReadPk,
    SecondaryIndexRead,
    SecondaryIndexRange,
    WritersDisjoint,
    HotRowUpdate,
    MixedOltp,
    Mixed95Read5Write,
    Mixed80Read20Write,
    Mixed50Read50Write,
}

/// How much a commit promises.
#[derive(Clone, Copy, Debug, PartialEq, Eq, Structural)]
pub enum DurabilityKind {
    Strict,
    Normal,
    Unsafe,
}

/// What is interrupted when recovery is tried.
#[derive(Clone, Copy, Debug, PartialEq, Eq, Structural)]
pub enum RecoveryScenarioKind {
    Wal,
    Catalog,
    Checkpoint,
}

impl EngineKind {
    /// The name of the engine on a command line.
    pub open spec fn name(self) -> &'static str {
        match self {
            EngineKind::Redline => "redline",
            EngineKind::Sqlite => "sqlite",
        }
    }

    /// The name of the engine on a command line.
    pub fn as_str(self) -> (name: &'static str)
        ensures
            name == self.name(),
    {
        match self {
            EngineKind::Redline => "redline",
            EngineKind::Sqlite => "sqlite",
        }
    }

    /// The name of the engine in reports.
    pub open spec fn title(self) -> &'static str {
        match self {
            EngineKind::Redline => "Redline",
            EngineKind::Sqlite => "Sqlite",
        }
    }

    /// The name of the engine in reports.
    pub fn label(self) -> (name: &'static str)
        ensures
            name == self.title(),
    {
        match self {
            EngineKind::Redline => "Redline",
            EngineKind::Sqlite => "Sqlite",
        }
    }
}

impl EngineSet {
    pub open spec fn members(self) -> Seq<EngineKind> {
        match self {
            EngineSet::Redline => seq![EngineKind::Redline],
            EngineSet::Sqlite => seq![EngineKind::Sqlite],
            EngineSet::Both => seq![EngineKind::Redline, EngineKind::Sqlite],
        }
    }

    /// The engines of the set.
    pub fn expand(self) -> (engines: Vec<EngineKind>)
        ensures
            engines@ == self.members(),
    {
        let mut engines: Vec<EngineKind> = Vec::new();
        match self {
            EngineSet::Redline => engines.push(EngineKind::Redline),
            EngineSet::Sqlite => engines.push(EngineKind::Sqlite),
            EngineSet::Both => {
                engines.push(EngineKind::Redline);
                engines.push(EngineKind::Sqlite);
            },
        }
        proof {
            assert(engines@ =~= self.members());
        }
        engines
    }
}

impl WorkloadKind {
    /// The name of the workload.
    pub open spec fn name(self) -> &'static str {
        match self {
            WorkloadKind::SingleRowInsert => "single-row-insert",
            WorkloadKind::BatchedInsert100 => "batched-insert-100",
            WorkloadKind::PointReadPk => "point-read-pk",
            WorkloadKind::SecondaryIndexRead => "secondary-index-read",
            WorkloadKind::SecondaryIndexRange => "secondary-index-range",
            WorkloadKind::WritersDisjoint => "writers-disjoint",
            WorkloadKind::HotRowUpdate => "hot-row-update",
            WorkloadKind::MixedOltp => "mixed-oltp",
            WorkloadKind::Mixed95Read5Write => "mixed-95-5",
            WorkloadKind::Mixed80Read20Write => "mixed-80-20",
            WorkloadKind::Mixed50Read50Write => "mixed-50-50",
        }
    }

    /// The name of the workload.
    pub fn as_str(self) -> (name: &'static str)
        ensures
            name == self.name(),
    {
        match self {
            WorkloadKind::SingleRowInsert => "single-row-insert",
            WorkloadKind::BatchedInsert100 => "batched-insert-100",
            WorkloadKind::PointReadPk => "point-read-pk",
            WorkloadKind::SecondaryIndexRead => "secondary-index-read",
            WorkloadKind::SecondaryIndexRange => "secondary-index-range",
            WorkloadKind::WritersDisjoint => "writers-disjoint",
            WorkloadKind::HotRowUpdate => "hot-row-update",
            WorkloadKind::MixedOltp => "mixed-oltp",
            WorkloadKind::Mixed95Read5Write => "mixed-95-5",
            WorkloadKind::Mixed80Read20Write => "mixed-80-20",
            WorkloadKind::Mixed50Read50Write => "mixed-50-50",
        }
    }

    /// The name of the workload in run ids.
    pub open spec fn title(self) -> &'static str {
        match self {
            WorkloadKind::SingleRowInsert => "SingleRowInsert",
            WorkloadKind::BatchedInsert100 => "BatchedInsert100",
            WorkloadKind::PointReadPk => "PointReadPk",
            WorkloadKind::SecondaryIndexRead => "SecondaryIndexRead",
            WorkloadKind::SecondaryIndexRange => "SecondaryIndexRange",
            WorkloadKind::WritersDisjoint => "WritersDisjoint",
            WorkloadKind::HotRowUpdate => "HotRowUpdate",
            WorkloadKind::MixedOltp => "MixedOltp",
            WorkloadKind::Mixed95Read5Write => "Mixed95Read5Write",
            WorkloadKind::Mixed80Read20Write => "Mixed80Read20Write",
            WorkloadKind::Mixed50Read50Write => "Mixed50Read50Write",
        }
    }

    /// The name of the workload in run ids.
    pub fn label(self) -> (name: &'static str)
        ensures
            name == self.title(),
    {
        match self {
            WorkloadKind::SingleRowInsert => "SingleRowInsert",
            WorkloadKind::BatchedInsert100 => "BatchedInsert100",
            WorkloadKind::PointReadPk => "PointReadPk",
            WorkloadKind::SecondaryIndexRead => "SecondaryIndexRead",
            WorkloadKind::SecondaryIndexRange => "SecondaryIndexRange",
            WorkloadKind::WritersDisjoint => "WritersDisjoint",
            WorkloadKind::HotRowUpdate => "HotRowUpdate",
            WorkloadKind::MixedOltp => "MixedOltp",
            WorkloadKind::Mixed95Read5Write => "Mixed95Read5Write",
            WorkloadKind::Mixed80Read20Write => "Mixed80Read20Write",
            WorkloadKind::Mixed50Read50Write => "Mixed50Read50Write",
        }
    }

    /// The workload that a configuration may name; not every workload can be named so.
    pub open spec fn named(value: Seq<char>) -> Option<WorkloadKind> {
        if value == "single-row-insert"@ {
            Some(WorkloadKind::SingleRowInsert)
        } else if value == "batched-insert-100"@ {
            Some(WorkloadKind::BatchedInsert100)
        } else if value == "point-read-pk"@ {
            Some(WorkloadKind::PointReadPk)
        } else if value == "writers-disjoint"@ {
            Some(WorkloadKind::WritersDisjoint)
        } else if value == "mixed-oltp"@ {
            Some(WorkloadKind::MixedOltp)
        } else {
            None
        }
    }

    /// The workload that a configuration names.
    pub fn parse(value: &str) -> (r: Result<WorkloadKind, BenchError>)
        ensures
            match r {
                Ok(workload) => WorkloadKind::named(value@) == Some(workload),
                Err(e) => WorkloadKind::named(value@) is None && (e matches BenchError::UnknownWorkload(name) && name@
                    == value@),
            },
    {
        if io::same_text(value, "single-row-insert") {
            return Ok(WorkloadKind::SingleRowInsert);
        }
        if io::same_text(value, "batched-insert-100") {
            return Ok(WorkloadKind::BatchedInsert100);
        }
        if io::same_text(value, "point-read-pk") {
            return Ok(WorkloadKind::PointReadPk);
        }
        if io::same_text(value, "writers-disjoint") {
            return Ok(WorkloadKind::WritersDisjoint);
        }
        if io::same_text(value, "mixed-oltp") {
            return Ok(WorkloadKind::MixedOltp);
        }
        Err(BenchError::UnknownWorkload(String::from_str(value)))
    }
}

/// A workload that a configuration can name has that name.
pub proof fn law_workload_names_agree(value: Seq<char>)
    ensures
        WorkloadKind::named(value) matches Some(workload) ==> workload.name()@ == value,
{
}

impl DurabilityKind {
    pub open spec fn name(self) -> &'static str {
        match self {
            DurabilityKind::Strict => "strict",
            DurabilityKind::Normal => "normal",
            DurabilityKind::Unsafe => "unsafe",
        }
    }

    pub fn as_str(self) -> (name: &'static str)
        ensures
            name == self.name(),
    {
        match self {
            DurabilityKind::Strict => "strict",
            DurabilityKind::Normal => "normal",
            DurabilityKind::Unsafe => "unsafe",
        }
    }
}

impl RecoveryScenarioKind {
    pub open spec fn name(self) -> &'static str {
        match self {
            RecoveryScenarioKind::Wal => "wal",
            RecoveryScenarioKind::Catalog => "catalog",
            RecoveryScenarioKind::Checkpoint => "checkpoint",
        }
    }

    pub fn as_str(self) -> (name: &'static str)
        ensures
            name == self.name(),
    {
        match self {
            RecoveryScenarioKind::Wal => "wal",
            RecoveryScenarioKind::Catalog => "catalog",
            RecoveryScenarioKind::Checkpoint => "checkpoint",
        }
    }
}

/// A command line.
#[derive(Clone, Debug, PartialEq, Eq)]
pub struct Cli {
    pub command: Command,
}

/// What the harness is asked to do.
#[derive(Clone, Debug, PartialEq, Eq)]
pub enum Command {
    Run(RunArgs),
    Compare(CompareArgs),
    Certify(CertifyArgs),
    Compat(CompatArgs),
    Recover(RecoverArgs),
    RecoverMatrix(RecoverMatrixArgs),
    Gates(GatesArgs),
    RecoverChild(RecoverChildArgs),
}

/// One measurement.
#[derive(Clone, Debug, PartialEq, Eq)]
pub struct RunArgs {
    pub engine: EngineKind,
    pub workload: WorkloadKind,
    pub durability: DurabilityKind,
    pub threads: usize,
    pub rows: usize,
    pub seconds: u64,
    pub cache_mib: usize,
    pub seed: u64,
    pub out: Option<String>,
}

#[derive(Clone, Debug, PartialEq, Eq)]
pub struct CompareArgs {
    pub config: String,
    pub out: Option<String>,
    pub report: Option<String>,
    pub seed: u64,
}

#[derive(Clone, Debug, PartialEq, Eq)]
pub struct CertifyArgs {
    pub config: String,
    pub out_dir: String,
    pub seed: u64,
    pub repetitions: usize,
    pub warmup: usize,
}

#[derive(Clone, Debug, PartialEq, Eq)]
pub struct CompatArgs {
    pub engine: EngineSet,
    pub test_dir: String,
    pub seed: u64,
    pub out: Option<String>,
}

#[derive(Clone, Debug, PartialEq, Eq)]
pub struct RecoverArgs {
    pub engine: EngineSet,
    pub workload: WorkloadKind,
    pub durability: DurabilityKind,
    pub seconds: u64,
    pub seed: u64,
    pub out: Option<String>,
}

#[derive(Clone, Debug, PartialEq, Eq)]
pub struct RecoverMatrixArgs {
    pub engine: EngineSet,
    pub config: String,
    pub seed: u64,
    pub out: Option<String>,
}

#[derive(Clone, Debug, PartialEq, Eq)]
pub struct GatesArgs {
    pub input: String,
    pub out: Option<String>,
}

#[derive(Clone, Debug, PartialEq, Eq)]
pub struct RecoverChildArgs {
    pub engine: EngineKind,
    pub durability: DurabilityKind,
    pub scenario: RecoveryScenarioKind,
    pub db_dir: String,
    pub ack_log: String,
    pub rows: usize,
    pub checkpoint_every_rows: usize,
}

/// A measurement with everything settled.
#[derive(Clone, Debug, PartialEq, Eq)]
pub struct RunSpec {
    pub engine: EngineKind,
    pub workload: WorkloadKind,
    pub durability: DurabilityKind,
    pub threads: usize,
    pub rows: usize,
    pub duration_secs: u64,
    pub cache_bytes: usize,
    pub seed: u64,
    pub base_dir: String,
}

/// One, or a number that is at least one.
pub open spec fn at_least_one(n: int) -> int {
    if n < 1 {
        1
    } else {
        n
    }
}

/// Bytes of so many mebibytes, and of one at least.
pub open spec fn mib_bytes(mib: usize) -> int {
    at_least_one(mib as int) * 1_048_576
}

fn one_or_more(n: usize) -> (r: usize)
    ensures
        r == at_least_one(n as int),
{
    if n < 1 {
        1
    } else {
        n
    }
}

fn cache_bytes(mib: usize) -> (r: usize)
    requires
        mib_bytes(mib) <= usize::MAX,
    ensures
        r == mib_bytes(mib),
{
    one_or_more(mib) * 1_048_576
}

/// Whether the bytes of so many mebibytes can be counted.
pub fn mib_fits(mib: usize) -> (fits: bool)
    ensures
        fits == (mib_bytes(mib) <= usize::MAX),
{
    one_or_more(mib) <= usize::MAX / 1_048_576
}

/// Whether a measurement is settled by these numbers.
pub open spec fn settled(
    spec: RunSpec,
    engine: EngineKind,
    workload: WorkloadKind,
    durability: DurabilityKind,
    threads: usize,
    rows: usize,
    seconds: u64,
    cache_mib: usize,
    seed: u64,
) -> bool {
    &&& spec.engine == engine
    &&& spec.workload == workload
    &&& spec.durability == durability
    &&& spec.threads == at_least_one(threads as int)
    &&& spec.rows == at_least_one(rows as int)
    &&& spec.duration_secs == at_least_one(seconds as int)
    &&& spec.cache_bytes == mib_bytes(cache_mib)
    &&& spec.seed == seed
}

impl RunArgs {
    /// Settles a measurement; its databases lie under the directory for temporary files.
    pub fn into_run_spec(&self, temp_dir: &str) -> (r: Result<RunSpec, BenchError>)
        requires
            mib_bytes(self.cache_mib) <= usize::MAX,
        ensures
            r is Ok,
            settled(
                r->Ok_0,
                self.engine,
                self.workload,
                self.durability,
                self.threads,
                self.rows,
                self.seconds,
                self.cache_mib,
                self.seed,
            ),
            r->Ok_0.base_dir@ == io::joined(temp_dir@, "redlinedb-bench"@),
    {
        let spec = RunSpec {
            engine: self.engine,
            workload: self.workload,
            durability: self.durability,
            threads: one_or_more(self.threads),
            rows: one_or_more(self.rows),
            duration_secs: if self.seconds < 1 {
                1
            } else {
                self.seconds
            },
            cache_bytes: cache_bytes(self.cache_mib),
            seed: self.seed,
            base_dir: io::join_path(temp_dir, "redlinedb-bench"),
        };
        Ok(spec)
    }
}

/// A comparison: every engine with every workload, durability and number of threads.
#[derive(Clone, Debug, PartialEq, Eq)]
pub struct CompareConfig {
    pub out_dir: String,
    pub engines: Vec<EngineKind>,
    pub workloads: Vec<WorkloadKind>,
    pub durabilities: Vec<DurabilityKind>,
    pub threads: Vec<usize>,
    pub rows: usize,
    pub seconds: u64,
    pub cache_mib: usize,
}

impl CompareConfig {
    /// Whether there is something to compare.
    pub open spec fn is_complete(self) -> bool {
        self.workloads@.len() > 0 && self.durabilities@.len() > 0 && self.threads@.len() > 0
    }

    /// Refuses a comparison without workloads, durabilities or threads.
    pub fn check(self) -> (r: Result<CompareConfig, BenchError>)
        ensures
            r == (if self.is_complete() {
                Ok(self)
            } else {
                Err(BenchError::EmptyCompareConfig)
            }),
    {
        if self.workloads.len() == 0 || self.durabilities.len() == 0 || self.threads.len() == 0 {
            return Err(BenchError::EmptyCompareConfig);
        }
        Ok(self)
    }

    /// Settles one measurement of the comparison.
    pub fn run_spec(
        &self,
        engine: &EngineKind,
        workload: &WorkloadKind,
        durability: &DurabilityKind,
        threads: usize,
        seed: u64,
    ) -> (r: Result<RunSpec, BenchError>)
        requires
            mib_bytes(self.cache_mib) <= usize::MAX,
        ensures
            r is Ok,
            settled(
                r->Ok_0,
                *engine,
                *workload,
                *durability,
                threads,
                self.rows,
                self.seconds,
                self.cache_mib,
                seed,
            ),
            r->Ok_0.base_dir@ == io::joined(self.out_dir@, "dbs"@),
    {
        let spec = RunSpec {
            engine: *engine,
            workload: *workload,
            durability: *durability,
            threads: one_or_more(threads),
            rows: one_or_more(self.rows),
            duration_secs: if self.seconds < 1 {
                1
            } else {
                self.seconds
            },
            cache_bytes: cache_bytes(self.cache_mib),
            seed,
            base_dir: io::join_path(self.out_dir.as_str(), "dbs"),
        };
        Ok(spec)
    }
}

/// Which recoveries are tried.
#[derive(Clone, Debug, PartialEq, Eq)]
pub struct RecoveryMatrixConfig {
    pub durabilities: Vec<DurabilityKind>,
    pub cases: Vec<RecoveryMatrixCase>,
}

/// A recovery that is tried.
#[derive(Clone, Debug, PartialEq, Eq)]
pub struct RecoveryMatrixCase {
    pub name: String,
    pub scenario: RecoveryScenarioKind,
    pub rows: usize,
    pub kill_windows_ms: Vec<u64>,
    pub checkpoint_every_rows: usize,
}

/// Which failpoints are tried.
#[derive(Clone, Debug, PartialEq, Eq)]
pub struct FailpointMatrixConfig {
    pub durabilities: Vec<DurabilityKind>,
    pub cases: Vec<FailpointMatrixCase>,
}

/// A failpoint that is tried.
#[derive(Clone, Debug, PartialEq, Eq)]
pub struct FailpointMatrixCase {
    pub name: String,
    pub failpoint: String,
    pub action: String,
    pub durabilities: Vec<DurabilityKind>,
    pub rows: usize,
    pub kill_after_n_hits: Vec<u64>,
}

/// The engines of a comparison that lists none.
pub fn default_engines() -> (engines: Vec<EngineKind>)
    ensures
        engines@ == seq![EngineKind::Redline, EngineKind::Sqlite],
{
    EngineSet::Both.expand()
}

/// The rows of a comparison that does not say.
pub const DEFAULT_ROWS: usize = 1024;

/// The seconds of a comparison that does not say.
pub const DEFAULT_SECONDS: u64 = 2;

/// The cache of a comparison that does not say.
pub const DEFAULT_CACHE_MIB: usize = 16;

/// How often a recovery case takes a checkpoint if it does not say.
pub const DEFAULT_CHECKPOINT_EVERY_ROWS: usize = 32;

/// The durabilities of a recovery matrix that lists none.
pub fn default_recovery_durabilities() -> (durabilities: Vec<DurabilityKind>)
    ensures
        durabilities@ == seq![DurabilityKind::Strict, DurabilityKind::Normal],
{
    let mut durabilities: Vec<DurabilityKind> = Vec::new();
    durabilities.push(DurabilityKind::Strict);
    durabilities.push(DurabilityKind::Normal);
    proof {
        assert(durabilities@ =~= seq![DurabilityKind::Strict, DurabilityKind::Normal]);
    }
    durabilities
}

/// When a recovery case is interrupted if it does not say.
pub fn default_recovery_kill_windows() -> (windows: Vec<u64>)
    ensures
        windows@ == seq![150u64, 350u64, 700u64],
{
    let mut windows: Vec<u64> = Vec::new();
    windows.push(150);
    windows.push(350);
    windows.push(700);
    proof {
        assert(windows@ =~= seq![150u64, 350u64, 700u64]);
    }
    windows
}

} // verus!
