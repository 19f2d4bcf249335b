//! Certification: a whole comparison, run in children, with hashes of everything it wrote.
use crate::bench::config;
use crate::bench::config::{
    BenchError, CompareConfig, DurabilityKind, EngineKind, RunSpec, WorkloadKind,
};
use crate::bench::report::RunFacts;
use crate::bench::strace::CallCount;
use crate::io;
use crate::text;
use sha2::Digest;
use vstd::prelude::*;
use vstd::string::*;

verus! {

/// The settings that an engine reports.
#[derive(Clone, Debug, PartialEq, Eq)]
pub struct Setting {
    pub name: String,
    pub value: String,
}

/// What a certification wrote, with the hash of each file.
#[derive(Clone, Debug, PartialEq, Eq)]
pub struct CertificationManifest {
    pub out_dir: String,
    pub config_hash: String,
    pub runs_jsonl_hash: String,
    pub summary_csv_hash: String,
    pub report_md_hash: String,
    pub git_sha: Option<String>,
    pub git_dirty: Option<bool>,
    pub with_strace: bool,
    pub sqlite_settings: Option<Vec<Setting>>,
    pub redline_settings: Option<Vec<Setting>>,
    pub pragma_validation: Option<String>,
    pub checksums: Option<Vec<Setting>>,
    pub strace_reason: Option<String>,
    pub strace_syscall_counts: Option<Vec<CallCount>>,
}

/// The digest of bytes, as the SHA-256 function of the `sha2` crate computes it.
pub uninterp spec fn sha256_of(data: Seq<u8>) -> Seq<u8>;

/// `sha2::Sha256::digest`: the SHA-256 digest of bytes, thirty-two bytes long. Which bytes these
/// are is given a name and not spelled out.
#[verifier::external_body]
fn sha256(data: &[u8]) -> (digest: Vec<u8>)
    ensures
        digest@ == sha256_of(data@),
        digest@.len() == 32,
{
    sha2::Sha256::digest(data).to_vec()
}

/// The hash of a file's bytes, in hexadecimal digits.
pub fn hash_bytes(data: &[u8]) -> (hash: String)
    ensures
        hash@ == text::hex_text(sha256_of(data@)),
{
    let digest: Vec<u8> = sha256(data);
    text::to_hex(digest.as_slice())
}

/// The name under which the checksum of a run is listed.
pub open spec fn checksum_key_text(r: RunFacts) -> Seq<char> {
    r.engine.title()@ + seq![':'] + r.workload.name()@ + seq![':'] + r.durability.name()@ + ":t"@ + text::decimal(
        r.threads as nat,
    )
}

/// The entry of a run in the list of checksums: its name, and the hash of its checksum as
/// written in the results.
pub fn checksum_entry(r: &RunFacts, written: &[u8]) -> (entry: Setting)
    ensures
        entry.name@ == checksum_key_text(*r),
        entry.value@ == text::hex_text(sha256_of(written@)),
{
    let mut name = String::from_str(r.engine.label());
    name.push(':');
    name.append(r.workload.as_str());
    name.push(':');
    name.append(r.durability.as_str());
    name.append(":t");
    text::push_decimal(&mut name, r.threads as u64);
    proof {
        assert(name@ =~= checksum_key_text(*r));
    }
    Setting { name, value: hash_bytes(written) }
}

/// The value of a setting; the last one counts.
pub open spec fn setting_of(settings: Seq<Setting>, name: Seq<char>) -> Option<Seq<char>>
    decreases settings.len(),
{
    if settings.len() == 0 {
        None
    } else if settings.last().name@ == name {
        Some(settings.last().value@)
    } else {
        setting_of(settings.drop_last(), name)
    }
}

fn find_setting(settings: &Vec<Setting>, name: &str) -> (value: String)
    ensures
        value@ == match setting_of(settings@, name@) {
            Some(found) => found,
            None => Seq::empty(),
        },
{
    let mut i: usize = settings.len();
    proof {
        assert(settings@.take(i as int) =~= settings@);
    }
    while i > 0
        invariant
            i <= settings@.len(),
            setting_of(settings@, name@) == setting_of(settings@.take(i as int), name@),
        decreases i,
    {
        i = i - 1;
        proof {
            assert(settings@.take(i + 1).drop_last() =~= settings@.take(i as int));
        }
        if io::same_text(settings[i].name.as_str(), name) {
            return settings[i].value.clone();
        }
    }
    let value = String::new();
    proof {
        assert(value@ =~= Seq::empty());
    }
    value
}

/// What is said about the settings of the other engine: its journal has to be a write-ahead log.
pub open spec fn validation_text(settings: Seq<Setting>) -> Seq<char> {
    let journal = match setting_of(settings, "journal_mode"@) {
        Some(mode) => mode,
        None => Seq::empty(),
    };
    if text::lowered(journal) == "wal"@ {
        "ok"@
    } else {
        "journal_mode="@ + journal + " (expected wal)"@
    }
}

/// What is said about the settings of the other engine, if it took part.
pub fn pragma_validation(sqlite: &Option<Vec<Setting>>) -> (r: Option<String>)
    ensures
        match (*sqlite, r) {
            (None, None) => true,
            (Some(settings), Some(said)) => said@ == validation_text(settings@),
            _ => false,
        },
{
    match sqlite {
        None => None,
        Some(settings) => {
            let journal = find_setting(settings, "journal_mode");
            let folded = text::lower_text(journal.as_str());
            if io::same_text(folded.as_str(), "wal") {
                return Some(String::from_str("ok"));
            }
            let mut said = String::from_str("journal_mode=");
            said.append(journal.as_str());
            said.append(" (expected wal)");
            Some(said)
        },
    }
}

/// A run of a certification.
#[derive(Clone, Copy, Debug, PartialEq, Eq, Structural)]
pub struct CertifiedRun {
    pub rep: usize,
    pub engine: EngineKind,
    pub workload: WorkloadKind,
    pub durability: DurabilityKind,
    pub threads: usize,
}

/// The runs with everything but the number of threads settled.
pub open spec fn thread_runs(base: CertifiedRun, threads: Seq<usize>) -> Seq<CertifiedRun> {
    Seq::new(threads.len(), |i: int| CertifiedRun { threads: threads[i], ..base })
}

/// The runs with repetition, engine and workload settled.
pub open spec fn durability_runs(base: CertifiedRun, durabilities: Seq<DurabilityKind>, threads: Seq<usize>) -> Seq<
    CertifiedRun,
>
    decreases durabilities.len(),
{
    if durabilities.len() == 0 {
        Seq::empty()
    } else {
        durability_runs(base, durabilities.drop_last(), threads) + thread_runs(
            CertifiedRun { durability: durabilities.last(), ..base },
            threads,
        )
    }
}

/// The runs with repetition and engine settled.
pub open spec fn workload_runs(base: CertifiedRun, workloads: Seq<WorkloadKind>, config: CompareConfig) -> Seq<
    CertifiedRun,
>
    decreases workloads.len(),
{
    if workloads.len() == 0 {
        Seq::empty()
    } else {
        workload_runs(base, workloads.drop_last(), config) + durability_runs(
            CertifiedRun { workload: workloads.last(), ..base },
            config.durabilities@,
            config.threads@,
        )
    }
}

/// The runs of one repetition.
pub open spec fn engine_runs(base: CertifiedRun, engines: Seq<EngineKind>, config: CompareConfig) -> Seq<CertifiedRun>
    decreases engines.len(),
{
    if engines.len() == 0 {
        Seq::empty()
    } else {
        engine_runs(base, engines.drop_last(), config) + workload_runs(
            CertifiedRun { engine: engines.last(), ..base },
            config.workloads@,
            config,
        )
    }
}

/// A run of which only the repetition counts.
pub open spec fn blank_run(rep: usize) -> CertifiedRun {
    CertifiedRun {
        rep,
        engine: EngineKind::Redline,
        workload: WorkloadKind::SingleRowInsert,
        durability: DurabilityKind::Strict,
        threads: 0,
    }
}

/// The runs of the first repetitions.
pub open spec fn certified_runs(config: CompareConfig, reps: nat) -> Seq<CertifiedRun>
    decreases reps,
{
    if reps == 0 {
        Seq::empty()
    } else {
        certified_runs(config, (reps - 1) as nat) + engine_runs(
            blank_run((reps - 1) as usize),
            config.engines@,
            config,
        )
    }
}

fn push_thread_runs(plan: &mut Vec<CertifiedRun>, base: CertifiedRun, threads: &Vec<usize>)
    ensures
        final(plan)@ == old(plan)@ + thread_runs(base, threads@),
{
    let ghost start = plan@;
    let ghost runs = thread_runs(base, threads@);
    proof {
        assert(plan@ =~= start + runs.take(0));
    }
    for i in 0..threads.len()
        invariant
            runs == thread_runs(base, threads@),
            plan@ == start + runs.take(i as int),
    {
        plan.push(CertifiedRun { threads: threads[i], ..base });
        proof {
            assert(plan@ =~= start + runs.take(i + 1));
        }
    }
    proof {
        assert(runs.take(threads@.len() as int) =~= runs);
    }
}

fn push_durability_runs(
    plan: &mut Vec<CertifiedRun>,
    base: CertifiedRun,
    durabilities: &Vec<DurabilityKind>,
    threads: &Vec<usize>,
)
    ensures
        final(plan)@ == old(plan)@ + durability_runs(base, durabilities@, threads@),
{
    let ghost start = plan@;
    proof {
        assert(plan@ =~= start + durability_runs(base, durabilities@.take(0), threads@));
    }
    for i in 0..durabilities.len()
        invariant
            plan@ == start + durability_runs(base, durabilities@.take(i as int), threads@),
    {
        push_thread_runs(plan, CertifiedRun { durability: durabilities[i], ..base }, threads);
        proof {
            assert(durabilities@.take(i + 1).drop_last() =~= durabilities@.take(i as int));
            assert(plan@ =~= start + durability_runs(base, durabilities@.take(i + 1), threads@));
        }
    }
    proof {
        assert(durabilities@.take(durabilities@.len() as int) =~= durabilities@);
    }
}

fn push_workload_runs(plan: &mut Vec<CertifiedRun>, base: CertifiedRun, config: &CompareConfig)
    ensures
        final(plan)@ == old(plan)@ + workload_runs(base, config.workloads@, *config),
{
    let ghost start = plan@;
    proof {
        assert(plan@ =~= start + workload_runs(base, config.workloads@.take(0), *config));
    }
    for i in 0..config.workloads.len()
        invariant
            plan@ == start + workload_runs(base, config.workloads@.take(i as int), *config),
    {
        push_durability_runs(
            plan,
            CertifiedRun { workload: config.workloads[i], ..base },
            &config.durabilities,
            &config.threads,
        );
        proof {
            assert(config.workloads@.take(i + 1).drop_last() =~= config.workloads@.take(i as int));
            assert(plan@ =~= start + workload_runs(base, config.workloads@.take(i + 1), *config));
        }
    }
    proof {
        assert(config.workloads@.take(config.workloads@.len() as int) =~= config.workloads@);
    }
}

fn push_engine_runs(plan: &mut Vec<CertifiedRun>, base: CertifiedRun, config: &CompareConfig)
    ensures
        final(plan)@ == old(plan)@ + engine_runs(base, config.engines@, *config),
{
    let ghost start = plan@;
    proof {
        assert(plan@ =~= start + engine_runs(base, config.engines@.take(0), *config));
    }
    for i in 0..config.engines.len()
        invariant
            plan@ == start + engine_runs(base, config.engines@.take(i as int), *config),
    {
        push_workload_runs(plan, CertifiedRun { engine: config.engines[i], ..base }, config);
        proof {
            assert(config.engines@.take(i + 1).drop_last() =~= config.engines@.take(i as int));
            assert(plan@ =~= start + engine_runs(base, config.engines@.take(i + 1), *config));
        }
    }
    proof {
        assert(config.engines@.take(config.engines@.len() as int) =~= config.engines@);
    }
}

/// The runs of a certification, in order; there has to be one.
pub fn plan_certification(config: &CompareConfig, repetitions: usize) -> (r: Result<Vec<CertifiedRun>, BenchError>)
    ensures
        ({
            let runs = certified_runs(*config, config::at_least_one(repetitions as int) as nat);
            match r {
                Ok(plan) => runs.len() > 0 && plan@ == runs,
                Err(e) => runs.len() == 0 && e == BenchError::NoBenchmarkRuns,
            }
        }),
{
    let reps: usize = if repetitions < 1 {
        1
    } else {
        repetitions
    };
    let mut plan: Vec<CertifiedRun> = Vec::new();
    for rep in 0..reps
        invariant
            plan@ == certified_runs(*config, rep as nat),
    {
        let base = CertifiedRun {
            rep,
            engine: EngineKind::Redline,
            workload: WorkloadKind::SingleRowInsert,
            durability: DurabilityKind::Strict,
            threads: 0,
        };
        push_engine_runs(&mut plan, base, config);
    }
    if plan.len() == 0 {
        return Err(BenchError::NoBenchmarkRuns);
    }
    Ok(plan)
}

/// The seed of a repetition: they count up, and go on at zero after the largest.
pub open spec fn rep_seed(seed: u64, rep: usize) -> int {
    (seed + rep as u64) % 0x1_0000_0000_0000_0000
}

/// Settles a run of a certification.
pub fn certified_spec(config: &CompareConfig, run: &CertifiedRun, seed: u64) -> (r: Result<RunSpec, BenchError>)
    requires
        config::mib_bytes(config.cache_mib) <= usize::MAX,
    ensures
        r is Ok,
        config::settled(
            r->Ok_0,
            run.engine,
            run.workload,
            run.durability,
            run.threads,
            config.rows,
            config.seconds,
            config.cache_mib,
            rep_seed(seed, run.rep) as u64,
        ),
        r->Ok_0.base_dir@ == io::joined(config.out_dir@, "dbs"@),
{
    let seed: u64 = seed.wrapping_add(run.rep as u64);
    config.run_spec(&run.engine, &run.workload, &run.durability, run.threads, seed)
}

/// The run by which the settings of an engine are looked up: the first of everything, where there
/// is a first.
pub fn probe_run(config: &CompareConfig, engine: EngineKind) -> (run: CertifiedRun)
    ensures
        run.rep == 0,
        run.engine == engine,
        run.workload == if config.workloads@.len() > 0 {
            config.workloads@[0]
        } else {
            WorkloadKind::SingleRowInsert
        },
        run.durability == if config.durabilities@.len() > 0 {
            config.durabilities@[0]
        } else {
            DurabilityKind::Strict
        },
        run.threads == if config.threads@.len() > 0 {
            config.threads@[0]
        } else {
            1
        },
{
    CertifiedRun {
        rep: 0,
        engine,
        workload: if config.workloads.len() > 0 {
            config.workloads[0]
        } else {
            WorkloadKind::SingleRowInsert
        },
        durability: if config.durabilities.len() > 0 {
            config.durabilities[0]
        } else {
            DurabilityKind::Strict
        },
        threads: if config.threads.len() > 0 {
            config.threads[0]
        } else {
            1
        },
    }
}

/// The directory of a run.
pub open spec fn run_dir_text(spec: RunSpec, rep: usize) -> Seq<char> {
    spec.engine.title()@ + seq!['-'] + spec.workload.name()@ + seq!['-'] + spec.durability.name()@ + "-t"@
        + text::decimal(spec.threads as nat) + "-r"@ + text::decimal(rep as nat)
}

/// The directory of a run.
pub fn run_dir_name(spec: &RunSpec, rep: usize) -> (name: String)
    ensures
        name@ == run_dir_text(*spec, rep),
{
    let mut name = String::from_str(spec.engine.label());
    name.push('-');
    name.append(spec.workload.as_str());
    name.push('-');
    name.append(spec.durability.as_str());
    name.append("-t");
    text::push_decimal(&mut name, spec.threads as u64);
    name.append("-r");
    text::push_decimal(&mut name, rep as u64);
    proof {
        assert(name@ =~= run_dir_text(*spec, rep));
    }
    name
}

/// Whether a child is wrapped to count its system calls.
pub fn wraps_child(with_strace: bool, linux: bool, installed: bool) -> (wraps: bool)
    ensures
        wraps == (with_strace && linux && installed),
{
    with_strace && linux && installed
}

/// The words in front of a child's command line that count its system calls.
pub open spec fn wrapper_words(counts: Seq<char>, exe: Seq<char>) -> Seq<Seq<char>> {
    seq!["strace"@, "-c"@, "-o"@, counts, "--"@, exe]
}

/// The command line of a child.
pub open spec fn run_words(spec: RunSpec, out: Seq<char>) -> Seq<Seq<char>> {
    seq![
        "run"@,
        "--engine"@,
        spec.engine.name()@,
        "--workload"@,
        spec.workload.name()@,
        "--durability"@,
        spec.durability.name()@,
        "--threads"@,
        text::decimal(spec.threads as nat),
        "--rows"@,
        text::decimal(spec.rows as nat),
        "--seconds"@,
        text::decimal(spec.duration_secs as nat),
        "--cache-mib"@,
        text::decimal(config::at_least_one(spec.cache_bytes as int / 1_048_576) as nat),
        "--seed"@,
        text::decimal(spec.seed as nat),
        "--out"@,
        out,
    ]
}

/// The whole command line of a child: its program, wrapped or not, and its arguments.
pub fn child_command(spec: &RunSpec, exe: &str, out: &str, counts: Option<&str>) -> (words: Vec<String>)
    ensures
        text::texts(words@) == (match counts {
            Some(path) => wrapper_words(path@, exe@),
            None => seq![exe@],
        }) + run_words(*spec, out@),
{
    let mut words: Vec<String> = Vec::new();
    if let Some(path) = counts {
        words.push(String::from_str("strace"));
        words.push(String::from_str("-c"));
        words.push(String::from_str("-o"));
        words.push(String::from_str(path));
        words.push(String::from_str("--"));
    }
    words.push(String::from_str(exe));
    let ghost front = text::texts(words@);
    proof {
        assert(front =~= match counts {
            Some(path) => wrapper_words(path@, exe@),
            None => seq![exe@],
        });
    }
    words.push(String::from_str("run"));
    words.push(String::from_str("--engine"));
    words.push(String::from_str(spec.engine.as_str()));
    words.push(String::from_str("--workload"));
    words.push(String::from_str(spec.workload.as_str()));
    words.push(String::from_str("--durability"));
    words.push(String::from_str(spec.durability.as_str()));
    words.push(String::from_str("--threads"));
    words.push(text::decimal_text(spec.threads as u64));
    words.push(String::from_str("--rows"));
    words.push(text::decimal_text(spec.rows as u64));
    words.push(String::from_str("--seconds"));
    words.push(text::decimal_text(spec.duration_secs));
    words.push(String::from_str("--cache-mib"));
    let mib: usize = spec.cache_bytes / 1_048_576;
    let mib: u64 = if mib < 1 {
        1
    } else {
        mib as u64
    };
    words.push(text::decimal_text(mib));
    words.push(String::from_str("--seed"));
    words.push(text::decimal_text(spec.seed));
    words.push(String::from_str("--out"));
    words.push(String::from_str(out));
    proof {
        assert(text::texts(words@) =~= front + run_words(*spec, out@));
    }
    words
}

/// The line of a run in a table.
pub open spec fn csv_line(r: RunFacts) -> Seq<char> {
    r.engine.title()@ + ","@ + r.workload.name()@ + ","@ + r.durability.name()@ + ","@ + text::decimal(
        r.threads as nat,
    ) + ","@ + text::decimal(r.operations as nat) + ","@ + text::decimal(r.failures as nat) + ","@ + text::decimal(
        r.busy_errors as nat,
    ) + ","@ + r.throughput_fine@ + ","@ + text::decimal(r.latency.p99_us as nat) + ","@ + text::decimal(
        r.latency.p999_us as nat,
    ) + ","@ + text::decimal(r.data_bytes as nat) + ","@ + text::decimal(r.wal_bytes as nat) + "\n"@
}

pub open spec fn csv_lines(runs: Seq<RunFacts>) -> Seq<char>
    decreases runs.len(),
{
    if runs.len() == 0 {
        Seq::empty()
    } else {
        csv_lines(runs.drop_last()) + csv_line(runs.last())
    }
}

/// The head of the table.
pub open spec fn csv_head() -> Seq<char> {
    "engine,workload,durability,threads,ops,failures,busy_errors,throughput_ops_per_sec,p99_us,p999_us,data_bytes,wal_bytes\n"@
}

fn push_csv_line(out: &mut String, r: &RunFacts)
    ensures
        final(out)@ == old(out)@ + csv_line(*r),
{
    out.append(r.engine.label());
    out.append(",");
    out.append(r.workload.as_str());
    out.append(",");
    out.append(r.durability.as_str());
    out.append(",");
    text::push_decimal(out, r.threads as u64);
    out.append(",");
    text::push_decimal(out, r.operations);
    out.append(",");
    text::push_decimal(out, r.failures);
    out.append(",");
    text::push_decimal(out, r.busy_errors);
    out.append(",");
    out.append(r.throughput_fine.as_str());
    out.append(",");
    text::push_decimal(out, r.latency.p99_us);
    out.append(",");
    text::push_decimal(out, r.latency.p999_us);
    out.append(",");
    text::push_decimal(out, r.data_bytes);
    out.append(",");
    text::push_decimal(out, r.wal_bytes);
    out.append("\n");
    proof {
        assert(out@ =~= old(out)@ + csv_line(*r));
    }
}

/// The table of all runs.
pub fn summary_csv(runs: &Vec<RunFacts>) -> (out: String)
    ensures
        out@ == csv_head() + csv_lines(runs@),
{
    let mut out = String::from_str(
        "engine,workload,durability,threads,ops,failures,busy_errors,throughput_ops_per_sec,p99_us,p999_us,data_bytes,wal_bytes\n",
    );
    proof {
        assert(out@ =~= csv_head() + csv_lines(runs@.take(0)));
    }
    for i in 0..runs.len()
        invariant
            out@ == csv_head() + csv_lines(runs@.take(i as int)),
    {
        push_csv_line(&mut out, &runs[i]);
        proof {
            assert(runs@.take(i + 1).drop_last() =~= runs@.take(i as int));
            assert(out@ =~= csv_head() + csv_lines(runs@.take(i + 1)));
        }
    }
    proof {
        assert(runs@.take(runs@.len() as int) =~= runs@);
    }
    out
}

} // verus!
