//! What plans, gates and matrices guarantee.
use crate::bench::certify;
use crate::bench::certify::{CertifiedRun, Setting};
use crate::bench::config;
use crate::bench::config::{
    CompareConfig, DurabilityKind, EngineKind, EngineSet, FailpointMatrixCase, FailpointMatrixConfig, RunSpec,
    WorkloadKind,
};
use crate::bench::failpoint_matrix;
use crate::bench::failpoint_matrix::{FailpointMatrixRun, PlannedRun};
use crate::bench::gates;
use crate::bench::report::RunFacts;
use crate::text;
use vstd::prelude::*;
use vstd::string::*;

verus! {

proof fn lemma_in_sum<A>(a: Seq<A>, b: Seq<A>, x: A)
    ensures
        (a + b).contains(x) <==> a.contains(x) || b.contains(x),
{
    let all = a + b;
    if a.contains(x) {
        let i = choose|i: int| 0 <= i < a.len() && a[i] == x;
        assert(all[i] == x);
    }
    if b.contains(x) {
        let i = choose|i: int| 0 <= i < b.len() && b[i] == x;
        assert(all[a.len() + i] == x);
    }
    if all.contains(x) {
        let i = choose|i: int| 0 <= i < all.len() && all[i] == x;
        if i < a.len() {
            assert(a[i] == x);
        } else {
            assert(b[i - a.len()] == x);
        }
    }
}

proof fn lemma_in_last<A>(s: Seq<A>, x: A)
    requires
        s.len() > 0,
    ensures
        s.contains(x) <==> s.drop_last().contains(x) || s.last() == x,
{
    lemma_in_sum(s.drop_last(), seq![s.last()], x);
    assert(s.drop_last() + seq![s.last()] =~= s);
    if s.last() == x {
        assert(seq![s.last()][0] == x);
    }
}

proof fn lemma_thread_runs(base: CertifiedRun, threads: Seq<usize>, run: CertifiedRun)
    ensures
        certify::thread_runs(base, threads).contains(run) <==> threads.contains(run.threads) && run == (CertifiedRun {
            threads: run.threads,
            ..base
        }),
        certify::thread_runs(base, threads).len() == threads.len(),
{
    let runs = certify::thread_runs(base, threads);
    if threads.contains(run.threads) {
        let i = choose|i: int| 0 <= i < threads.len() && threads[i] == run.threads;
        assert(runs[i] == (CertifiedRun { threads: run.threads, ..base }));
    }
    if runs.contains(run) {
        let i = choose|i: int| 0 <= i < runs.len() && runs[i] == run;
        assert(threads[i] == run.threads);
    }
}

proof fn lemma_durability_runs(base: CertifiedRun, durabilities: Seq<DurabilityKind>, threads: Seq<usize>, run: CertifiedRun)
    ensures
        certify::durability_runs(base, durabilities, threads).contains(run) <==> durabilities.contains(run.durability)
            && threads.contains(run.threads) && run == (CertifiedRun {
            durability: run.durability,
            threads: run.threads,
            ..base
        }),
        certify::durability_runs(base, durabilities, threads).len() == durabilities.len() * threads.len(),
    decreases durabilities.len(),
{
    if durabilities.len() > 0 {
        let init = durabilities.drop_last();
        let settled = CertifiedRun { durability: durabilities.last(), ..base };
        lemma_durability_runs(base, init, threads, run);
        lemma_thread_runs(settled, threads, run);
        lemma_in_sum(certify::durability_runs(base, init, threads), certify::thread_runs(settled, threads), run);
        lemma_in_last(durabilities, run.durability);
        assert((init.len() + 1) * threads.len() == init.len() * threads.len() + threads.len()) by (nonlinear_arith);
    } else {
        assert(0 * threads.len() == 0) by (nonlinear_arith);
    }
}

proof fn lemma_workload_runs(base: CertifiedRun, workloads: Seq<WorkloadKind>, config: CompareConfig, run: CertifiedRun)
    ensures
        certify::workload_runs(base, workloads, config).contains(run) <==> workloads.contains(run.workload)
            && config.durabilities@.contains(run.durability) && config.threads@.contains(run.threads) && run.rep == base.rep
            && run.engine == base.engine,
        certify::workload_runs(base, workloads, config).len() == workloads.len() * (config.durabilities@.len()
            * config.threads@.len()),
    decreases workloads.len(),
{
    let each = config.durabilities@.len() * config.threads@.len();
    if workloads.len() > 0 {
        let init = workloads.drop_last();
        let settled = CertifiedRun { workload: workloads.last(), ..base };
        lemma_workload_runs(base, init, config, run);
        lemma_durability_runs(settled, config.durabilities@, config.threads@, run);
        lemma_in_sum(
            certify::workload_runs(base, init, config),
            certify::durability_runs(settled, config.durabilities@, config.threads@),
            run,
        );
        lemma_in_last(workloads, run.workload);
        assert((init.len() + 1) * each == init.len() * each + each) by (nonlinear_arith);
    } else {
        assert(0 * each == 0) by (nonlinear_arith);
    }
}

proof fn lemma_engine_runs(base: CertifiedRun, engines: Seq<EngineKind>, config: CompareConfig, run: CertifiedRun)
    ensures
        certify::engine_runs(base, engines, config).contains(run) <==> engines.contains(run.engine)
            && config.workloads@.contains(run.workload) && config.durabilities@.contains(run.durability)
            && config.threads@.contains(run.threads) && run.rep == base.rep,
        certify::engine_runs(base, engines, config).len() == engines.len() * (config.workloads@.len() * (
        config.durabilities@.len() * config.threads@.len())),
    decreases engines.len(),
{
    let each = config.workloads@.len() * (config.durabilities@.len() * config.threads@.len());
    if engines.len() > 0 {
        let init = engines.drop_last();
        let settled = CertifiedRun { engine: engines.last(), ..base };
        lemma_engine_runs(base, init, config, run);
        lemma_workload_runs(settled, config.workloads@, config, run);
        lemma_in_sum(
            certify::engine_runs(base, init, config),
            certify::workload_runs(settled, config.workloads@, config),
            run,
        );
        lemma_in_last(engines, run.engine);
        assert((init.len() + 1) * each == init.len() * each + each) by (nonlinear_arith);
    } else {
        assert(0 * each == 0) by (nonlinear_arith);
    }
}

/// A certification runs every engine with every workload, durability and number of threads in every
/// repetition, nothing else, and each of them once for each time that it is listed.
pub proof fn law_certification_is_complete(config: CompareConfig, reps: nat, run: CertifiedRun)
    requires
        reps <= usize::MAX,
    ensures
        certify::certified_runs(config, reps).contains(run) <==> run.rep < reps && config.engines@.contains(run.engine)
            && config.workloads@.contains(run.workload) && config.durabilities@.contains(run.durability)
            && config.threads@.contains(run.threads),
        certify::certified_runs(config, reps).len() == reps * (config.engines@.len() * (config.workloads@.len() * (
        config.durabilities@.len() * config.threads@.len()))),
    decreases reps,
{
    let each = config.engines@.len() * (config.workloads@.len() * (config.durabilities@.len() * config.threads@.len()));
    if reps > 0 {
        let before = (reps - 1) as nat;
        law_certification_is_complete(config, before, run);
        let base = certify::blank_run(before as usize);
        lemma_engine_runs(base, config.engines@, config, run);
        lemma_in_sum(
            certify::certified_runs(config, before),
            certify::engine_runs(base, config.engines@, config),
            run,
        );
        assert((before + 1) * each == before * each + each) by (nonlinear_arith);
    } else {
        assert(0 * each == 0) by (nonlinear_arith);
    }
}

proof fn lemma_fewer_reps(config: CompareConfig, some: nat, reps: nat)
    requires
        some <= reps,
    ensures
        certify::certified_runs(config, some).len() <= certify::certified_runs(config, reps).len(),
        certify::certified_runs(config, reps).take(certify::certified_runs(config, some).len() as int)
            == certify::certified_runs(config, some),
    decreases reps,
{
    let a = certify::certified_runs(config, some);
    if some < reps {
        lemma_fewer_reps(config, some, (reps - 1) as nat);
        assert(certify::certified_runs(config, reps).take(a.len() as int) =~= certify::certified_runs(
            config,
            (reps - 1) as nat,
        ).take(a.len() as int));
    } else {
        assert(certify::certified_runs(config, reps).take(a.len() as int) =~= a);
    }
}

/// Repetitions come one after the other: the runs of fewer repetitions come first.
pub proof fn law_repetitions_follow_each_other(config: CompareConfig, some: nat, reps: nat)
    requires
        some <= reps,
    ensures
        certify::certified_runs(config, some).len() <= certify::certified_runs(config, reps).len(),
        certify::certified_runs(config, reps).take(certify::certified_runs(config, some).len() as int)
            == certify::certified_runs(config, some),
{
    lemma_fewer_reps(config, some, reps);
}

/// No two repetitions run with the same seed, and the first runs with the seed that was given.
pub proof fn law_repetitions_have_their_own_seeds(seed: u64, a: usize, b: usize)
    requires
        a < b,
    ensures
        certify::rep_seed(seed, 0) == seed,
        certify::rep_seed(seed, a) != certify::rep_seed(seed, b),
        0 <= certify::rep_seed(seed, a) <= u64::MAX,
        b == a + 1 && certify::rep_seed(seed, a) < u64::MAX ==> certify::rep_seed(seed, b) == certify::rep_seed(seed, a)
            + 1,
{
}

/// The last value that is given for a setting counts.
pub proof fn law_last_setting_counts(settings: Seq<Setting>, one: Setting, more: Seq<Setting>)
    requires
        forall|i: int| 0 <= i < more.len() ==> (#[trigger] more[i]).name@ != one.name@,
    ensures
        certify::setting_of(settings.push(one) + more, one.name@) == Some(one.value@),
        certify::setting_of(more, one.name@) is None,
    decreases more.len(),
{
    let all = settings.push(one) + more;
    if more.len() == 0 {
        assert(all =~= settings.push(one));
    } else {
        let init = more.drop_last();
        assert forall|i: int| 0 <= i < init.len() implies (#[trigger] init[i]).name@ != one.name@ by {
            assert(init[i] == more[i]);
        }
        law_last_setting_counts(settings, one, init);
        assert(all.drop_last() =~= settings.push(one) + init);
        assert(more[more.len() - 1].name@ != one.name@);
    }
}

/// Settings are found in order exactly if the journal is a write-ahead log, however that is spelled.
pub proof fn law_journal_has_to_be_a_log(settings: Seq<Setting>)
    ensures
        certify::validation_text(settings) == "ok"@ <==> (certify::setting_of(settings, "journal_mode"@) matches Some(
            mode,
        ) && text::lowered(mode) == "wal"@),
{
    reveal_strlit("ok");
    reveal_strlit("wal");
    reveal_strlit("journal_mode=");
    reveal_strlit(" (expected wal)");
    let none = Seq::<char>::empty();
    assert(text::lowered(none).len() == 0);
    assert("wal"@.len() == 3);
    let bad = match certify::setting_of(settings, "journal_mode"@) {
        Some(mode) => mode,
        None => none,
    };
    assert(("journal_mode="@ + bad + " (expected wal)"@).len() > 2);
    assert("ok"@.len() == 2);
}

/// A measurement that is settled has at least one thread, one row, one second and one mebibyte, and
/// otherwise the numbers that were asked for.
pub proof fn law_settled_measurement(
    spec: RunSpec,
    engine: EngineKind,
    workload: WorkloadKind,
    durability: DurabilityKind,
    threads: usize,
    rows: usize,
    seconds: u64,
    cache_mib: usize,
    seed: u64,
)
    requires
        config::settled(spec, engine, workload, durability, threads, rows, seconds, cache_mib, seed),
    ensures
        spec.engine == engine,
        spec.workload == workload,
        spec.durability == durability,
        spec.seed == seed,
        spec.threads >= 1 && spec.rows >= 1 && spec.duration_secs >= 1 && spec.cache_bytes >= 1_048_576,
        threads >= 1 ==> spec.threads == threads,
        threads == 0 ==> spec.threads == 1,
        rows >= 1 ==> spec.rows == rows,
        rows == 0 ==> spec.rows == 1,
        seconds >= 1 ==> spec.duration_secs == seconds,
        seconds == 0 ==> spec.duration_secs == 1,
        cache_mib >= 1 ==> spec.cache_bytes == cache_mib * 1024 * 1024,
        cache_mib == 0 ==> spec.cache_bytes == 1024 * 1024,
{
}

/// There is something to compare exactly if there is a workload, a durability and a number of threads:
/// then every engine that is listed runs.
pub proof fn law_complete_comparison_runs(config: CompareConfig, reps: nat)
    requires
        0 < reps <= usize::MAX,
    ensures
        config.is_complete() && config.engines@.len() > 0 <==> certify::certified_runs(config, reps).len() > 0,
{
    let e = config.engines@.len();
    let w = config.workloads@.len();
    let d = config.durabilities@.len();
    let n = config.threads@.len();
    law_certification_is_complete(config, reps, certify::blank_run(0));
    assert((e > 0 && w > 0 && d > 0 && n > 0) <==> reps * (e * (w * (d * n))) > 0) by (nonlinear_arith)
        requires
            reps > 0,
            e >= 0,
            w >= 0,
            d >= 0,
            n >= 0,
    ;
}

/// A set of engines stands for the engine it names, or for both.
pub proof fn law_engine_sets(engine: EngineKind)
    ensures
        EngineSet::Redline.members().contains(engine) <==> engine == EngineKind::Redline,
        EngineSet::Sqlite.members().contains(engine) <==> engine == EngineKind::Sqlite,
        EngineSet::Both.members().contains(engine),
        EngineSet::Both.members().no_duplicates(),
{
    assert(EngineSet::Redline.members()[0] == EngineKind::Redline);
    assert(EngineSet::Sqlite.members()[0] == EngineKind::Sqlite);
    assert(EngineSet::Both.members()[0] == EngineKind::Redline);
    assert(EngineSet::Both.members()[1] == EngineKind::Sqlite);
}

proof fn lemma_case_runs(case: usize, durabilities: Seq<DurabilityKind>, hits: Seq<u64>, run: PlannedRun)
    ensures
        failpoint_matrix::case_runs(case, durabilities, hits).contains(run) <==> run.case == case && durabilities.contains(
            run.durability,
        ) && hits.contains(run.kill_after_n_hits),
        failpoint_matrix::case_runs(case, durabilities, hits).len() == durabilities.len() * hits.len(),
    decreases durabilities.len(),
{
    if durabilities.len() > 0 {
        let init = durabilities.drop_last();
        let with = failpoint_matrix::runs_with(case, durabilities.last(), hits);
        lemma_case_runs(case, init, hits, run);
        lemma_in_sum(failpoint_matrix::case_runs(case, init, hits), with, run);
        lemma_in_last(durabilities, run.durability);
        if with.contains(run) {
            let i = choose|i: int| 0 <= i < with.len() && with[i] == run;
            assert(hits[i] == run.kill_after_n_hits);
        }
        if run.case == case && run.durability == durabilities.last() && hits.contains(run.kill_after_n_hits) {
            let i = choose|i: int| 0 <= i < hits.len() && hits[i] == run.kill_after_n_hits;
            assert(with[i] == run);
        }
        assert((init.len() + 1) * hits.len() == init.len() * hits.len() + hits.len()) by (nonlinear_arith);
    } else {
        assert(0 * hits.len() == 0) by (nonlinear_arith);
    }
}

/// A matrix makes a run of every case for each of its durabilities and hit counts, and no other. A case
/// that lists no durabilities has those of the matrix, and one that lists no hit counts is killed at the
/// first hit.
pub proof fn law_matrix_is_complete(config: FailpointMatrixConfig, n: nat, run: PlannedRun)
    requires
        n <= config.cases@.len() <= usize::MAX,
    ensures
        failpoint_matrix::matrix_runs(config, n).contains(run) <==> {
            &&& run.case < n
            &&& if config.cases@[run.case as int].durabilities@.len() == 0 {
                config.durabilities@.contains(run.durability)
            } else {
                config.cases@[run.case as int].durabilities@.contains(run.durability)
            }
            &&& if config.cases@[run.case as int].kill_after_n_hits@.len() == 0 {
                run.kill_after_n_hits == 1
            } else {
                config.cases@[run.case as int].kill_after_n_hits@.contains(run.kill_after_n_hits)
            }
        },
    decreases n,
{
    if n > 0 {
        let m = (n - 1) as nat;
        let case = config.cases@[m as int];
        let durabilities = failpoint_matrix::case_durabilities(config, case);
        let hits = failpoint_matrix::case_hits(case);
        law_matrix_is_complete(config, m, run);
        lemma_case_runs(m as usize, durabilities, hits, run);
        lemma_in_sum(
            failpoint_matrix::matrix_runs(config, m),
            failpoint_matrix::case_runs(m as usize, durabilities, hits),
            run,
        );
        if case.kill_after_n_hits@.len() == 0 {
            assert(hits[0] == 1);
        }
    }
}

/// The runs of a matrix that did not pass are counted one by one.
pub proof fn law_failed_runs_are_counted(runs: Seq<FailpointMatrixRun>)
    ensures
        failpoint_matrix::count_failed(runs) == runs.filter(|r: FailpointMatrixRun| !r.passed).len(),
    decreases runs.len(),
{
    reveal(Seq::filter);
    if runs.len() > 0 {
        law_failed_runs_are_counted(runs.drop_last());
    }
}

/// A run counts for the strict gate exactly if it is a strict run of the engine that is tried.
pub proof fn law_strict_runs_are_gated(run: FailpointMatrixRun)
    ensures
        failpoint_matrix::is_gated(run) <==> run.engine is Redline && run.durability is Strict,
{
}

/// Every word that ends the child is armed as a panic, whatever white space stands round it, and a count
/// stands in front of the action only where it is more than one.
pub proof fn law_ends_are_armed_as_panics(raw: Seq<char>, hits: u64)
    ensures
        text::trimmed(raw) == "panic"@ || text::trimmed(raw) == "abort"@ || text::trimmed(raw) == "return"@
            ==> failpoint_matrix::armed_action(raw, 1) == "panic"@,
        text::trimmed(raw) != "panic"@ && text::trimmed(raw) != "abort"@ && text::trimmed(raw) != "return"@
            ==> failpoint_matrix::armed_action(raw, 1) == text::trimmed(raw),
        failpoint_matrix::armed_action(raw, 0) == failpoint_matrix::armed_action(raw, 1),
        hits > 1 ==> failpoint_matrix::armed_action(raw, hits) == text::decimal(hits as nat) + seq!['*']
            + failpoint_matrix::armed_action(raw, 1),
{
}

proof fn lemma_lines(a: Seq<char>, b: Seq<char>, from: int, open: bool)
    requires
        0 <= from <= a.len(),
    ensures
        failpoint_matrix::filled_lines(a + seq!['\n'] + b, from, open) == failpoint_matrix::filled_lines(a, from, open)
            + failpoint_matrix::filled_lines(b, 0, false),
    decreases a.len() - from,
{
    let all = a + seq!['\n'] + b;
    if from == a.len() {
        assert(all[from] == '\n');
        lemma_lines_behind(a + seq!['\n'], b, 0, false);
    } else {
        assert(all[from] == a[from]);
        if a[from] == '\n' {
            lemma_lines(a, b, from + 1, false);
        } else {
            lemma_lines(a, b, from + 1, open || !text::is_white(a[from]));
        }
    }
}

proof fn lemma_lines_behind(front: Seq<char>, b: Seq<char>, from: int, open: bool)
    requires
        0 <= from <= b.len(),
    ensures
        failpoint_matrix::filled_lines(front + b, front.len() + from, open) == failpoint_matrix::filled_lines(b, from, open),
    decreases b.len() - from,
{
    if from < b.len() {
        assert((front + b)[front.len() + from] == b[from]);
        if b[from] == '\n' {
            lemma_lines_behind(front, b, from + 1, false);
        } else {
            lemma_lines_behind(front, b, from + 1, open || !text::is_white(b[from]));
        }
    }
}

proof fn lemma_one_line(s: Seq<char>, from: int, open: bool)
    requires
        0 <= from <= s.len(),
        forall|i: int| 0 <= i < s.len() ==> #[trigger] s[i] != '\n',
    ensures
        failpoint_matrix::filled_lines(s, from, open) == if open || exists|i: int|
            from <= i < s.len() && !text::is_white(#[trigger] s[i]) {
            1nat
        } else {
            0nat
        },
    decreases s.len() - from,
{
    if from < s.len() {
        lemma_one_line(s, from + 1, open || !text::is_white(s[from]));
    }
}

/// Acknowledgements are counted by lines: those of one log and those of another, one below the other,
/// count together, and a single line counts exactly if something other than white space stands in it.
pub proof fn law_acknowledgements_are_counted_by_lines(a: Seq<char>, b: Seq<char>)
    ensures
        failpoint_matrix::filled_lines(a + seq!['\n'] + b, 0, false) == failpoint_matrix::filled_lines(a, 0, false)
            + failpoint_matrix::filled_lines(b, 0, false),
        (forall|i: int| 0 <= i < a.len() ==> #[trigger] a[i] != '\n') ==> failpoint_matrix::filled_lines(a, 0, false)
            == if exists|i: int| 0 <= i < a.len() && !text::is_white(#[trigger] a[i]) {
            1nat
        } else {
            0nat
        },
{
    lemma_lines(a, b, 0, false);
    if forall|i: int| 0 <= i < a.len() ==> #[trigger] a[i] != '\n' {
        lemma_one_line(a, 0, false);
    }
}

/// All runs are taken to have done something exactly if no run did nothing.
pub proof fn law_idle_run_fails_the_gate(records: Seq<RunFacts>, i: int)
    requires
        0 <= i < records.len(),
        records[i].operations == 0,
    ensures
        !gates::all_ran(records),
{
}

/// Runs with the same workload, durability and number of threads have to leave the same behind, whatever
/// engine made them; others need not.
pub proof fn law_checksums_are_compared(records: Seq<RunFacts>)
    ensures
        gates::checksums_agree(records) <==> forall|i: int, j: int|
            0 <= i < records.len() && 0 <= j < records.len() && (#[trigger] records[i]).workload == (
            #[trigger] records[j]).workload && records[i].durability == records[j].durability && records[i].threads
                == records[j].threads ==> records[i].checksum == records[j].checksum,
{
    if gates::checksums_agree(records) {
        assert forall|i: int, j: int|
            0 <= i < records.len() && 0 <= j < records.len() && (#[trigger] records[i]).workload == (
            #[trigger] records[j]).workload && records[i].durability == records[j].durability && records[i].threads
                == records[j].threads implies records[i].checksum == records[j].checksum by {
            if i < j {
                assert(gates::same_work(records[i], records[j]));
            } else if j < i {
                assert(gates::same_work(records[j], records[i]));
            }
        }
    }
}

proof fn lemma_joined(x: Seq<char>, y: Seq<char>, z: Seq<char>)
    ensures
        (x + y) + z == x + (y + z),
        x + Seq::<char>::empty() == x,
{
    assert((x + y) + z =~= x + (y + z));
    assert(x + Seq::<char>::empty() =~= x);
}

/// A report lists its runs one below the other, in their order.
pub proof fn law_report_lists_runs_in_order(a: Seq<RunFacts>, b: Seq<RunFacts>)
    ensures
        gates::run_lines(a + b) == gates::run_lines(a) + gates::run_lines(b),
    decreases b.len(),
{
    if b.len() == 0 {
        assert(a + b =~= a);
        lemma_joined(gates::run_lines(a), Seq::empty(), Seq::empty());
    } else {
        let init = b.drop_last();
        law_report_lists_runs_in_order(a, init);
        assert((a + b).drop_last() =~= a + init);
        assert((a + b).last() == b.last());
        lemma_joined(gates::run_lines(a), gates::run_lines(init), gates::run_line(b.last()));
    }
}

/// A table lists its runs one below the other, in their order.
pub proof fn law_table_lists_runs_in_order(a: Seq<RunFacts>, b: Seq<RunFacts>)
    ensures
        certify::csv_lines(a + b) == certify::csv_lines(a) + certify::csv_lines(b),
    decreases b.len(),
{
    if b.len() == 0 {
        assert(a + b =~= a);
        lemma_joined(certify::csv_lines(a), Seq::empty(), Seq::empty());
    } else {
        let init = b.drop_last();
        law_table_lists_runs_in_order(a, init);
        assert((a + b).drop_last() =~= a + init);
        assert((a + b).last() == b.last());
        lemma_joined(certify::csv_lines(a), certify::csv_lines(init), certify::csv_line(b.last()));
    }
}

} // verus!
