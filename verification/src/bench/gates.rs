//! What the results have to show.
use crate::bench::config::{DurabilityKind, EngineKind, WorkloadKind};
use crate::bench::report::RunFacts;
use crate::text;
use vstd::prelude::*;
use vstd::string::*;

verus! {

/// What came of a gate.
#[derive(Clone, Debug, PartialEq, Eq)]
pub struct GateResult {
    pub name: String,
    pub passed: bool,
    pub detail: String,
}

/// What came of all gates.
#[derive(Clone, Debug, PartialEq, Eq)]
pub struct GateSummary {
    pub gates: Vec<GateResult>,
}

/// A gate, what came of it and what it is about.
pub open spec fn is_gate(gate: GateResult, name: Seq<char>, passed: bool, detail: Seq<char>) -> bool {
    gate.name@ == name && gate.passed == passed && gate.detail@ == detail
}

fn gate(name: &str, passed: bool, detail: &str) -> (r: GateResult)
    ensures
        is_gate(r, name@, passed, detail@),
{
    GateResult { name: String::from_str(name), passed, detail: String::from_str(detail) }
}

/// Whether every run did something.
pub open spec fn all_ran(records: Seq<RunFacts>) -> bool {
    forall|i: int| 0 <= i < records.len() ==> (#[trigger] records[i]).operations > 0
}

fn gate_nonzero(records: &Vec<RunFacts>) -> (r: GateResult)
    ensures
        is_gate(
            r,
            "harness_sanity"@,
            all_ran(records@),
            "all runs produced at least one successful operation"@,
        ),
{
    let mut passed = true;
    for i in 0..records.len()
        invariant
            passed == (forall|j: int| 0 <= j < i ==> (#[trigger] records@[j]).operations > 0),
    {
        if records[i].operations == 0 {
            passed = false;
            proof {
                assert(!(records@[i as int].operations > 0));
            }
        }
    }
    gate("harness_sanity", passed, "all runs produced at least one successful operation")
}

/// Whether two runs did the same work.
pub open spec fn same_work(a: RunFacts, b: RunFacts) -> bool {
    a.workload == b.workload && a.durability == b.durability && a.threads == b.threads
}

/// Whether runs that did the same work left the same behind.
pub open spec fn checksums_agree(records: Seq<RunFacts>) -> bool {
    forall|i: int, j: int|
        0 <= i < j < records.len() && same_work(#[trigger] records[i], #[trigger] records[j]) ==> records[i].checksum
            == records[j].checksum
}

fn gate_checksums_match(records: &Vec<RunFacts>) -> (r: GateResult)
    ensures
        is_gate(
            r,
            "checksum_match"@,
            checksums_agree(records@),
            "matching engines agree on final workload checksum"@,
        ),
{
    let mut passed = true;
    for j in 0..records.len()
        invariant
            passed == checksums_agree(records@.take(j as int)),
    {
        let ghost before = records@.take(j as int);
        let ghost after = records@.take(j + 1);
        let ghost was = passed;
        for i in 0..j
            invariant
                j < records@.len(),
                before == records@.take(j as int),
                was == checksums_agree(before),
                passed == (was && forall|k: int|
                    0 <= k < i && same_work(#[trigger] records@[k], records@[j as int]) ==> records@[k].checksum
                        == records@[j as int].checksum),
        {
            let same = records[i].workload == records[j].workload && records[i].durability == records[j].durability
                && records[i].threads == records[j].threads;
            if same && records[i].checksum != records[j].checksum {
                passed = false;
                proof {
                    assert(same_work(records@[i as int], records@[j as int]));
                }
            }
        }
        proof {
            if passed {
                assert forall|a: int, b: int|
                    0 <= a < b < after.len() && same_work(#[trigger] after[a], #[trigger] after[b]) implies after[a].checksum
                    == after[b].checksum by {
                    assert(after[a] == records@[a] && after[b] == records@[b]);
                    if b < j {
                        assert(before[a] == records@[a] && before[b] == records@[b]);
                    }
                }
            } else if was {
                let k = choose|k: int|
                    0 <= k < j && same_work(#[trigger] records@[k], records@[j as int]) && records@[k].checksum
                        != records@[j as int].checksum;
                assert(same_work(after[k], after[j as int]));
            } else {
                let (a, b) = choose|a: int, b: int|
                    0 <= a < b < before.len() && same_work(#[trigger] before[a], #[trigger] before[b])
                        && before[a].checksum != before[b].checksum;
                assert(same_work(after[a], after[b]));
            }
        }
    }
    proof {
        assert(records@.take(records@.len() as int) =~= records@);
    }
    gate("checksum_match", passed, "matching engines agree on final workload checksum")
}

/// Whether a run is a strict one of an engine with so many threads.
pub open spec fn is_strict_run(record: RunFacts, engine: EngineKind, threads: usize, workload: WorkloadKind) -> bool {
    &&& record.engine == engine
    &&& record.threads == threads
    &&& record.durability == DurabilityKind::Strict
    &&& record.workload == workload
}

/// The first strict run of an engine with so many threads.
pub fn find_strict_run(records: &Vec<RunFacts>, engine: EngineKind, threads: usize, workload: WorkloadKind) -> (r:
    Option<usize>)
    ensures
        match r {
            Some(i) => {
                &&& i < records@.len()
                &&& is_strict_run(records@[i as int], engine, threads, workload)
                &&& forall|j: int| 0 <= j < i ==> !is_strict_run(#[trigger] records@[j], engine, threads, workload)
            },
            None => forall|j: int|
                0 <= j < records@.len() ==> !is_strict_run(#[trigger] records@[j], engine, threads, workload),
        },
{
    for i in 0..records.len()
        invariant
            forall|j: int| 0 <= j < i ==> !is_strict_run(#[trigger] records@[j], engine, threads, workload),
    {
        let record = &records[i];
        if record.engine == engine && record.threads == threads && record.durability == DurabilityKind::Strict
            && record.workload == workload {
            return Some(i);
        }
    }
    None
}

/// How many threads the parity gate looks at.
pub const PARITY_THREADS: usize = 1;

/// How many threads the writer gate looks at.
pub const WRITER_THREADS: usize = 8;

/// What came of all gates. Whether the throughputs are far enough apart is measured elsewhere.
pub fn evaluate_records(records: &Vec<RunFacts>, parity: bool, advantage: bool) -> (summary: GateSummary)
    ensures
        summary.gates@.len() == 4,
        is_gate(
            summary.gates@[0],
            "harness_sanity"@,
            all_ran(records@),
            "all runs produced at least one successful operation"@,
        ),
        is_gate(
            summary.gates@[1],
            "checksum_match"@,
            checksums_agree(records@),
            "matching engines agree on final workload checksum"@,
        ),
        is_gate(
            summary.gates@[2],
            "single_thread_parity"@,
            parity,
            "redline point-read throughput stays within 90% of sqlite"@,
        ),
        is_gate(
            summary.gates@[3],
            "concurrent_writer_advantage"@,
            advantage,
            "redline writers-disjoint throughput exceeds sqlite by 1.5x at 8 threads"@,
        ),
{
    let mut gates: Vec<GateResult> = Vec::new();
    gates.push(gate_nonzero(records));
    gates.push(gate_checksums_match(records));
    gates.push(
        gate("single_thread_parity", parity, "redline point-read throughput stays within 90% of sqlite"),
    );
    gates.push(
        gate(
            "concurrent_writer_advantage",
            advantage,
            "redline writers-disjoint throughput exceeds sqlite by 1.5x at 8 threads",
        ),
    );
    GateSummary { gates }
}

/// The line of a run in a report.
pub open spec fn run_line(r: RunFacts) -> Seq<char> {
    "| "@ + r.workload.name()@ + " | "@ + r.engine.title()@ + " | "@ + r.durability.name()@ + " | "@ + text::decimal(
        r.threads as nat,
    ) + " | "@ + r.throughput@ + " | "@ + text::decimal(r.latency.p99_us as nat) + " | "@ + text::decimal(
        r.latency.p999_us as nat,
    ) + " | "@ + text::decimal(r.data_bytes as nat) + " | "@ + text::decimal(r.wal_bytes as nat) + " |\n"@
}

/// The line of a gate in a report.
pub open spec fn gate_line(g: GateResult) -> Seq<char> {
    "- "@ + g.name@ + ": "@ + (if g.passed {
        "PASS"@
    } else {
        "FAIL"@
    }) + " ("@ + g.detail@ + ")\n"@
}

pub open spec fn run_lines(records: Seq<RunFacts>) -> Seq<char>
    decreases records.len(),
{
    if records.len() == 0 {
        Seq::empty()
    } else {
        run_lines(records.drop_last()) + run_line(records.last())
    }
}

pub open spec fn gate_lines(gates: Seq<GateResult>) -> Seq<char>
    decreases gates.len(),
{
    if gates.len() == 0 {
        Seq::empty()
    } else {
        gate_lines(gates.drop_last()) + gate_line(gates.last())
    }
}

fn push_run_line(out: &mut String, r: &RunFacts)
    ensures
        final(out)@ == old(out)@ + run_line(*r),
{
    out.append("| ");
    out.append(r.workload.as_str());
    out.append(" | ");
    out.append(r.engine.label());
    out.append(" | ");
    out.append(r.durability.as_str());
    out.append(" | ");
    text::push_decimal(out, r.threads as u64);
    out.append(" | ");
    out.append(r.throughput.as_str());
    out.append(" | ");
    text::push_decimal(out, r.latency.p99_us);
    out.append(" | ");
    text::push_decimal(out, r.latency.p999_us);
    out.append(" | ");
    text::push_decimal(out, r.data_bytes);
    out.append(" | ");
    text::push_decimal(out, r.wal_bytes);
    out.append(" |\n");
    proof {
        assert(out@ =~= old(out)@ + run_line(*r));
    }
}

fn push_gate_line(out: &mut String, g: &GateResult)
    ensures
        final(out)@ == old(out)@ + gate_line(*g),
{
    out.append("- ");
    out.append(g.name.as_str());
    out.append(": ");
    if g.passed {
        out.append("PASS");
    } else {
        out.append("FAIL");
    }
    out.append(" (");
    out.append(g.detail.as_str());
    out.append(")\n");
    proof {
        assert(out@ =~= old(out)@ + gate_line(*g));
    }
}

/// The head of a report.
pub open spec fn summary_head() -> Seq<char> {
    "| workload | engine | durability | threads | ops/s | p99 us | p999 us | data bytes | wal bytes |\n"@
        + "| --- | --- | --- | ---: | ---: | ---: | ---: | ---: | ---: |\n"@
}

/// The report on runs and gates.
pub fn markdown_summary(records: &Vec<RunFacts>, summary: &GateSummary) -> (out: String)
    ensures
        out@ == summary_head() + run_lines(records@) + "\n## Gates\n"@ + gate_lines(summary.gates@),
{
    let mut out = String::from_str(
        "| workload | engine | durability | threads | ops/s | p99 us | p999 us | data bytes | wal bytes |\n",
    );
    out.append("| --- | --- | --- | ---: | ---: | ---: | ---: | ---: | ---: |\n");
    proof {
        assert(out@ =~= summary_head() + run_lines(records@.take(0)));
    }
    for i in 0..records.len()
        invariant
            out@ == summary_head() + run_lines(records@.take(i as int)),
    {
        push_run_line(&mut out, &records[i]);
        proof {
            assert(records@.take(i + 1).drop_last() =~= records@.take(i as int));
            assert(out@ =~= summary_head() + run_lines(records@.take(i + 1)));
        }
    }
    out.append("\n## Gates\n");
    let ghost head = out@;
    proof {
        assert(records@.take(records@.len() as int) =~= records@);
        assert(out@ =~= head + gate_lines(summary.gates@.take(0)));
    }
    for i in 0..summary.gates.len()
        invariant
            out@ == head + gate_lines(summary.gates@.take(i as int)),
    {
        push_gate_line(&mut out, &summary.gates[i]);
        proof {
            assert(summary.gates@.take(i + 1).drop_last() =~= summary.gates@.take(i as int));
            assert(out@ =~= head + gate_lines(summary.gates@.take(i + 1)));
        }
    }
    proof {
        assert(summary.gates@.take(summary.gates@.len() as int) =~= summary.gates@);
    }
    out
}

} // verus!
