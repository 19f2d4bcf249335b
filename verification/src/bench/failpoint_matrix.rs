//! The failpoint matrix: every case kills a child at a failpoint and counts which of the commits
//! that it acknowledged are still there afterwards.
use crate::bench::config::{DurabilityKind, EngineKind, FailpointMatrixCase, FailpointMatrixConfig};
use crate::io;
use crate::text;
use vstd::prelude::*;
use vstd::string::*;

verus! {

/// What came of the matrix.
#[derive(Clone, Debug, PartialEq, Eq)]
pub struct FailpointMatrixReport {
    pub seed: u64,
    pub passed: bool,
    pub failed_cases: usize,
    pub runs: Vec<FailpointMatrixRun>,
}

/// What came of one run.
#[derive(Clone, Debug, PartialEq, Eq)]
pub struct FailpointMatrixRun {
    pub case: String,
    pub failpoint: String,
    pub action: String,
    pub engine: EngineKind,
    pub durability: DurabilityKind,
    pub kill_after_n_hits: u64,
    pub child_status: String,
    pub acknowledged: usize,
    pub recovered: usize,
    pub lost_acked_commits: i64,
    pub passed: bool,
}

/// A run that is to be made: which case, how durable, and after how many hits it is killed.
#[derive(Clone, Copy, Debug, PartialEq, Eq, Structural)]
pub struct PlannedRun {
    pub case: usize,
    pub durability: DurabilityKind,
    pub kill_after_n_hits: u64,
}

/// The durabilities of a case: its own, or those of the whole matrix if it lists none.
pub open spec fn case_durabilities(config: FailpointMatrixConfig, case: FailpointMatrixCase) -> Seq<DurabilityKind> {
    if case.durabilities@.len() == 0 {
        config.durabilities@
    } else {
        case.durabilities@
    }
}

/// The hit counts of a case: its own, or one hit if it lists none.
pub open spec fn case_hits(case: FailpointMatrixCase) -> Seq<u64> {
    if case.kill_after_n_hits@.len() == 0 {
        seq![1u64]
    } else {
        case.kill_after_n_hits@
    }
}

/// The runs of a case with one durability, one for each of the first `n` hit counts.
pub open spec fn runs_with(case: usize, durability: DurabilityKind, hits: Seq<u64>) -> Seq<PlannedRun> {
    Seq::new(hits.len(), |i: int| PlannedRun { case, durability, kill_after_n_hits: hits[i] })
}

/// The runs of a case: all hit counts for each durability in turn.
pub open spec fn case_runs(case: usize, durabilities: Seq<DurabilityKind>, hits: Seq<u64>) -> Seq<PlannedRun>
    decreases durabilities.len(),
{
    if durabilities.len() == 0 {
        Seq::empty()
    } else {
        case_runs(case, durabilities.drop_last(), hits) + runs_with(case, durabilities.last(), hits)
    }
}

/// The runs of the first `n` cases, in order.
pub open spec fn matrix_runs(config: FailpointMatrixConfig, n: nat) -> Seq<PlannedRun>
    decreases n,
{
    if n == 0 {
        Seq::empty()
    } else {
        let case = config.cases@[n - 1];
        matrix_runs(config, (n - 1) as nat) + case_runs(
            (n - 1) as usize,
            case_durabilities(config, case),
            case_hits(case),
        )
    }
}

fn push_case_runs(plan: &mut Vec<PlannedRun>, case: usize, durabilities: &Vec<DurabilityKind>, hits: &Vec<u64>)
    ensures
        final(plan)@ == old(plan)@ + case_runs(case, durabilities@, hits@),
{
    let ghost start = plan@;
    proof {
        assert(durabilities@.take(0) =~= Seq::empty());
        assert(plan@ =~= start + case_runs(case, durabilities@.take(0), hits@));
    }
    for d in 0..durabilities.len()
        invariant
            plan@ == start + case_runs(case, durabilities@.take(d as int), hits@),
    {
        let durability = durabilities[d];
        let ghost before = plan@;
        proof {
            assert(durabilities@.take(d + 1).drop_last() =~= durabilities@.take(d as int));
            assert(plan@ =~= before + runs_with(case, durability, hits@).take(0));
        }
        for h in 0..hits.len()
            invariant
                plan@ == before + runs_with(case, durability, hits@).take(h as int),
        {
            let ghost so_far = plan@;
            plan.push(PlannedRun { case, durability, kill_after_n_hits: hits[h] });
            proof {
                let runs = runs_with(case, durability, hits@);
                assert(plan@ =~= before + runs.take(h + 1));
            }
        }
        proof {
            let runs = runs_with(case, durability, hits@);
            assert(runs.take(hits@.len() as int) =~= runs);
            assert(plan@ =~= start + case_runs(case, durabilities@.take(d + 1), hits@));
        }
    }
    proof {
        assert(durabilities@.take(durabilities@.len() as int) =~= durabilities@);
    }
}

/// The runs of the matrix, in order.
pub fn plan_matrix(config: &FailpointMatrixConfig) -> (plan: Vec<PlannedRun>)
    ensures
        plan@ == matrix_runs(*config, config.cases@.len()),
{
    let mut plan: Vec<PlannedRun> = Vec::new();
    for i in 0..config.cases.len()
        invariant
            plan@ == matrix_runs(*config, i as nat),
    {
        let case = &config.cases[i];
        let mut one: Vec<u64> = Vec::new();
        one.push(1);
        proof {
            assert(one@ =~= seq![1u64]);
        }
        let hits = if case.kill_after_n_hits.len() == 0 {
            &one
        } else {
            &case.kill_after_n_hits
        };
        let durabilities = if case.durabilities.len() == 0 {
            &config.durabilities
        } else {
            &case.durabilities
        };
        push_case_runs(&mut plan, i, durabilities, hits);
    }
    plan
}

/// How many runs did not pass.
pub open spec fn count_failed(runs: Seq<FailpointMatrixRun>) -> nat
    decreases runs.len(),
{
    if runs.len() == 0 {
        0
    } else {
        count_failed(runs.drop_last()) + if runs.last().passed {
            0nat
        } else {
            1nat
        }
    }
}

/// The report on all runs: it passes if every run did.
pub fn summarize(seed: u64, runs: Vec<FailpointMatrixRun>) -> (report: FailpointMatrixReport)
    ensures
        report.seed == seed,
        report.runs == runs,
        report.failed_cases == count_failed(runs@),
        report.passed == (count_failed(runs@) == 0),
{
    let mut failed: usize = 0;
    for i in 0..runs.len()
        invariant
            failed == count_failed(runs@.take(i as int)),
            failed <= i,
    {
        proof {
            assert(runs@.take(i + 1).drop_last() =~= runs@.take(i as int));
        }
        if !runs[i].passed {
            failed = failed + 1;
        }
    }
    proof {
        assert(runs@.take(runs@.len() as int) =~= runs@);
    }
    FailpointMatrixReport { seed, passed: failed == 0, failed_cases: failed, runs }
}

/// A matrix passes if and only if each of its runs does.
pub proof fn law_report_passes_if_all_runs_do(runs: Seq<FailpointMatrixRun>)
    ensures
        count_failed(runs) == 0 <==> forall|i: int| 0 <= i < runs.len() ==> (#[trigger] runs[i]).passed,
    decreases runs.len(),
{
    if runs.len() > 0 {
        let shorter = runs.drop_last();
        law_report_passes_if_all_runs_do(shorter);
        if count_failed(runs) == 0 {
            assert forall|i: int| 0 <= i < runs.len() implies (#[trigger] runs[i]).passed by {
                if i < shorter.len() {
                    assert(shorter[i].passed);
                }
            }
        }
        if forall|i: int| 0 <= i < runs.len() ==> (#[trigger] runs[i]).passed {
            assert forall|i: int| 0 <= i < shorter.len() implies (#[trigger] shorter[i]).passed by {
                assert(runs[i].passed);
            }
            assert(runs[runs.len() - 1].passed);
        }
    }
}

/// The action that a failpoint is armed with, without its count.
pub open spec fn action_word(raw: Seq<char>) -> Seq<char> {
    let word = text::trimmed(raw);
    if word == "panic"@ || word == "abort"@ || word == "return"@ {
        "panic"@
    } else {
        word
    }
}

/// The action that a failpoint is armed with: it fires up to as many times as given.
pub open spec fn armed_action(raw: Seq<char>, kill_after_n_hits: u64) -> Seq<char> {
    if kill_after_n_hits <= 1 {
        action_word(raw)
    } else {
        text::decimal(kill_after_n_hits as nat) + seq!['*'] + action_word(raw)
    }
}

/// The action that a failpoint is armed with. Every way to end the child becomes a panic; anything
/// else is passed on as it is.
pub fn translate_action(raw: &str, kill_after_n_hits: u64) -> (action: String)
    ensures
        action@ == armed_action(raw@, kill_after_n_hits),
{
    let word = text::trim(raw);
    let kills = io::same_text(word.as_str(), "panic") || io::same_text(word.as_str(), "abort") || io::same_text(
        word.as_str(),
        "return",
    );
    let suffix = if kills {
        String::from_str("panic")
    } else {
        word
    };
    if kill_after_n_hits <= 1 {
        return suffix;
    }
    let mut action = text::decimal_text(kill_after_n_hits);
    action.push('*');
    action.append(suffix.as_str());
    proof {
        assert(action@ =~= armed_action(raw@, kill_after_n_hits));
    }
    action
}

/// How a child ended, in words.
pub open spec fn status_text(code: Option<i32>, success: bool) -> Seq<char> {
    match code {
        Some(code) => "exit("@ + text::decimal_int(code as int) + seq![')'],
        None => if success {
            "success"@
        } else {
            "signal"@
        },
    }
}

/// How a child ended, in words.
pub fn format_status(code: Option<i32>, success: bool) -> (status: String)
    ensures
        status@ == status_text(code, success),
{
    match code {
        Some(code) => {
            let mut status = String::from_str("exit(");
            text::push_decimal_i64(&mut status, code as i64);
            status.push(')');
            proof {
                assert(status@ =~= status_text(Some(code), success));
            }
            status
        },
        None => if success {
            String::from_str("success")
        } else {
            String::from_str("signal")
        },
    }
}

/// How many lines, from `from` on, have anything but white space in them. `open` says whether the
/// line that is being read has.
pub open spec fn filled_lines(s: Seq<char>, from: int, open: bool) -> nat
    decreases s.len() - from,
{
    if from >= s.len() {
        if open {
            1
        } else {
            0
        }
    } else if s[from] == '\n' {
        filled_lines(s, from + 1, false) + if open {
            1nat
        } else {
            0nat
        }
    } else {
        filled_lines(s, from + 1, open || !text::is_white(s[from]))
    }
}

/// How many commits a log of acknowledgements tells of: one for each line that is not blank.
pub fn count_acknowledged(log: &str) -> (count: usize)
    ensures
        count == filled_lines(log@, 0, false),
{
    let chars = text::chars_of(log);
    let mut count: usize = 0;
    let mut open = false;
    for i in 0..chars.len()
        invariant
            chars@ == log@,
            filled_lines(log@, 0, false) == count + filled_lines(log@, i as int, open),
            count + if open {
                1int
            } else {
                0
            } <= i,
    {
        if chars[i] == '\n' {
            if open {
                count = count + 1;
            }
            open = false;
        } else if !text::white(chars[i]) {
            open = true;
        }
    }
    if open {
        count = count + 1;
    }
    count
}

/// What came of one run: it passes if no commit is missing that was acknowledged.
pub fn judge_case(
    case: &FailpointMatrixCase,
    engine: EngineKind,
    durability: DurabilityKind,
    kill_after_n_hits: u64,
    child_status: String,
    acknowledged: usize,
    recovered: usize,
) -> (run: FailpointMatrixRun)
    requires
        acknowledged <= i64::MAX,
        recovered <= i64::MAX,
    ensures
        run.case@ == case.name@,
        run.failpoint@ == case.failpoint@,
        run.action@ == case.action@,
        run.engine == engine,
        run.durability == durability,
        run.kill_after_n_hits == kill_after_n_hits,
        run.child_status == child_status,
        run.acknowledged == acknowledged,
        run.recovered == recovered,
        run.lost_acked_commits == if acknowledged > recovered {
            acknowledged - recovered
        } else {
            0
        },
        run.passed == (acknowledged <= recovered),
        run.passed <==> run.lost_acked_commits == 0,
{
    let lost: i64 = acknowledged as i64 - recovered as i64;
    FailpointMatrixRun {
        case: case.name.clone(),
        failpoint: case.failpoint.clone(),
        action: case.action.clone(),
        engine,
        durability,
        kill_after_n_hits,
        child_status,
        acknowledged,
        recovered,
        lost_acked_commits: if lost > 0 {
            lost
        } else {
            0
        },
        passed: lost <= 0,
    }
}

/// The command line of a child.
pub open spec fn child_words(
    engine: EngineKind,
    durability: DurabilityKind,
    db_dir: Seq<char>,
    ack_log: Seq<char>,
    case: FailpointMatrixCase,
    kill_after_n_hits: u64,
) -> Seq<Seq<char>> {
    seq![
        "failpoint-child"@,
        "--engine"@,
        engine.name()@,
        "--durability"@,
        durability.name()@,
        "--db-dir"@,
        db_dir,
        "--ack-log"@,
        ack_log,
        "--failpoint"@,
        case.failpoint@,
        "--action"@,
        case.action@,
        "--rows"@,
        text::decimal(
            if case.rows < 1 {
                1
            } else {
                case.rows as nat
            },
        ),
        "--kill-after-n-hits"@,
        text::decimal(kill_after_n_hits as nat),
    ]
}

/// The command line of a child.
pub fn child_arguments(
    engine: EngineKind,
    durability: DurabilityKind,
    db_dir: &str,
    ack_log: &str,
    case: &FailpointMatrixCase,
    kill_after_n_hits: u64,
) -> (words: Vec<String>)
    ensures
        text::texts(words@) == child_words(engine, durability, db_dir@, ack_log@, *case, kill_after_n_hits),
{
    let mut words: Vec<String> = Vec::new();
    words.push(String::from_str("failpoint-child"));
    words.push(String::from_str("--engine"));
    words.push(String::from_str(engine.as_str()));
    words.push(String::from_str("--durability"));
    words.push(String::from_str(durability.as_str()));
    words.push(String::from_str("--db-dir"));
    words.push(String::from_str(db_dir));
    words.push(String::from_str("--ack-log"));
    words.push(String::from_str(ack_log));
    words.push(String::from_str("--failpoint"));
    words.push(case.failpoint.clone());
    words.push(String::from_str("--action"));
    words.push(case.action.clone());
    words.push(String::from_str("--rows"));
    let rows: u64 = if case.rows < 1 {
        1
    } else {
        case.rows as u64
    };
    words.push(text::decimal_text(rows));
    words.push(String::from_str("--kill-after-n-hits"));
    words.push(text::decimal_text(kill_after_n_hits));
    proof {
        assert(text::texts(words@) =~= child_words(
            engine,
            durability,
            db_dir@,
            ack_log@,
            *case,
            kill_after_n_hits,
        ));
    }
    words
}

/// The names of the database and the log of acknowledgements of a case.
pub fn case_names(engine: EngineKind, case: &FailpointMatrixCase) -> (names: (String, String))
    ensures
        names.0@ == engine.title()@ + seq!['-'] + case.name@,
        names.1@ == engine.title()@ + seq!['-'] + case.name@ + ".ack"@,
{
    let mut db = String::from_str(engine.label());
    db.push('-');
    db.append(case.name.as_str());
    let mut log = db.clone();
    log.append(".ack");
    (db, log)
}

/// How many cases the matrix has.
pub fn case_count(config: &FailpointMatrixConfig) -> (count: usize)
    ensures
        count == config.cases@.len(),
{
    config.cases.len()
}

/// Whether a run counts for the strict gate.
pub open spec fn is_gated(run: FailpointMatrixRun) -> bool {
    run.engine == EngineKind::Redline && run.durability == DurabilityKind::Strict
}

/// A matrix that passes has lost no commit that was acknowledged.
pub proof fn law_passing_matrix_loses_nothing(report: FailpointMatrixReport, i: int)
    requires
        report.passed == (count_failed(report.runs@) == 0),
        forall|j: int|
            0 <= j < report.runs@.len() ==> ((#[trigger] report.runs@[j]).passed <==> report.runs@[j].lost_acked_commits
                == 0),
        report.passed,
        0 <= i < report.runs@.len(),
    ensures
        report.runs@[i].lost_acked_commits == 0,
{
    law_report_passes_if_all_runs_do(report.runs@);
}

/// Whether no strict run lost a commit that was acknowledged.
pub fn evaluate_zero_lost_acked_commits(report: &FailpointMatrixReport) -> (r: bool)
    ensures
        r == (forall|i: int|
            0 <= i < report.runs@.len() && is_gated(#[trigger] report.runs@[i])
                ==> report.runs@[i].lost_acked_commits == 0),
{
    for i in 0..report.runs.len()
        invariant
            forall|j: int|
                0 <= j < i && is_gated(#[trigger] report.runs@[j]) ==> report.runs@[j].lost_acked_commits == 0,
    {
        let run = &report.runs[i];
        if run.engine == EngineKind::Redline && run.durability == DurabilityKind::Strict && run.lost_acked_commits
            != 0 {
            proof {
                assert(is_gated(report.runs@[i as int]));
            }
            return false;
        }
    }
    true
}

} // verus!
