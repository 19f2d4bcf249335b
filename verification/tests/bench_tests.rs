use rand::{Rng, SeedableRng};
use redlinedb::bench::certify::{
    certified_spec, checksum_entry, child_command, hash_bytes, plan_certification, pragma_validation, probe_run,
    run_dir_name, summary_csv, wraps_child, Setting,
};
use redlinedb::bench::config::{
    default_engines, default_recovery_durabilities, default_recovery_kill_windows, mib_fits, BenchError, CompareConfig,
    DurabilityKind, EngineKind, EngineSet, RecoveryScenarioKind, RunArgs, WorkloadKind,
};
use redlinedb::bench::gates::{evaluate_records, find_strict_run, markdown_summary};
use redlinedb::bench::queries::{
    child_insert, counted_rows, escape, family_rows, indexed_insert, mixed_row, number_field, optimizer_queries,
    parent_insert, smoke_queries,
};
use redlinedb::bench::report::{
    dir_wal_bytes, next_run_id, total_memory_mib, Checksum, FileLen, LatencySummary, RunFacts,
};
use redlinedb::bench::strace::{parse_strace_summary, render_calls, strace_summary, total_calls, CallCount};
use redlinedb::bench::workload::{
    blob_for, db_dir_name, is_busy_error, latency_sample, make_hot_update, make_read, make_row, make_tenant_count,
    make_tenant_read, make_update, needs_seed, next_op, statement, worker_rng, writer_keys, BenchOp, Counters,
};

fn config() -> CompareConfig {
    CompareConfig {
        out_dir: "out".to_string(),
        engines: vec![EngineKind::Redline, EngineKind::Sqlite],
        workloads: vec![WorkloadKind::PointReadPk, WorkloadKind::WritersDisjoint],
        durabilities: vec![DurabilityKind::Strict],
        threads: vec![1, 8],
        rows: 0,
        seconds: 0,
        cache_mib: 0,
    }
}

fn facts(engine: EngineKind, workload: WorkloadKind, threads: usize) -> RunFacts {
    RunFacts {
        engine,
        workload,
        durability: DurabilityKind::Strict,
        threads,
        operations: 10,
        failures: 1,
        busy_errors: 0,
        throughput: "95.0".to_string(),
        throughput_fine: "95.00".to_string(),
        latency: LatencySummary { p50_us: 1, p95_us: 2, p99_us: 3, p999_us: 4, max_us: 5 },
        checksum: Checksum::default(),
        data_bytes: 100,
        wal_bytes: 200,
    }
}

#[test]
fn names_are_those_of_the_command_line() {
    assert_eq!(WorkloadKind::Mixed95Read5Write.as_str(), "mixed-95-5");
    assert_eq!(DurabilityKind::Unsafe.as_str(), "unsafe");
    assert_eq!(RecoveryScenarioKind::Checkpoint.as_str(), "checkpoint");
    assert_eq!(EngineKind::Sqlite.as_str(), "sqlite");
    assert_eq!(EngineSet::Both.expand(), vec![EngineKind::Redline, EngineKind::Sqlite]);
    assert_eq!(EngineSet::Sqlite.expand(), vec![EngineKind::Sqlite]);
}

#[test]
fn only_some_workloads_can_be_named() {
    assert_eq!(WorkloadKind::parse("mixed-oltp"), Ok(WorkloadKind::MixedOltp));
    assert_eq!(
        WorkloadKind::parse("hot-row-update"),
        Err(BenchError::UnknownWorkload("hot-row-update".to_string()))
    );
}

#[test]
fn defaults_are_the_documented_ones() {
    assert_eq!(default_engines(), vec![EngineKind::Redline, EngineKind::Sqlite]);
    assert_eq!(default_recovery_durabilities(), vec![DurabilityKind::Strict, DurabilityKind::Normal]);
    assert_eq!(default_recovery_kill_windows(), vec![150, 350, 700]);
}

#[test]
fn runs_have_at_least_one_of_everything() {
    let args = RunArgs {
        engine: EngineKind::Redline,
        workload: WorkloadKind::MixedOltp,
        durability: DurabilityKind::Normal,
        threads: 0,
        rows: 0,
        seconds: 0,
        cache_mib: 0,
        seed: 9,
        out: None,
    };
    let spec = args.into_run_spec("/tmp").unwrap();
    assert_eq!((spec.threads, spec.rows, spec.duration_secs, spec.cache_bytes), (1, 1, 1, 1_048_576));
    assert_eq!(spec.base_dir, "/tmp/redlinedb-bench");
    assert!(mib_fits(16));
    assert!(!mib_fits(usize::MAX));
    let spec = config().run_spec(&EngineKind::Sqlite, &WorkloadKind::PointReadPk, &DurabilityKind::Strict, 3, 4).unwrap();
    assert_eq!(spec.threads, 3);
    assert_eq!(spec.base_dir, "out/dbs");
    assert_eq!(db_dir_name(&spec), "sqlite-point-read-pk-strict-t3-s4");
}

#[test]
fn an_empty_comparison_is_refused() {
    assert!(config().check().is_ok());
    let mut empty = config();
    empty.threads.clear();
    assert_eq!(empty.check(), Err(BenchError::EmptyCompareConfig));
}

#[test]
fn certification_runs_everything_in_order() {
    let config = config();
    let plan = plan_certification(&config, 2).unwrap();
    assert_eq!(plan.len(), 16);
    assert_eq!((plan[0].rep, plan[0].engine, plan[0].threads), (0, EngineKind::Redline, 1));
    assert_eq!(plan[1].threads, 8);
    assert_eq!(plan[2].workload, WorkloadKind::WritersDisjoint);
    assert_eq!(plan[4].engine, EngineKind::Sqlite);
    assert_eq!(plan[8].rep, 1);
    let spec = certified_spec(&config, &plan[8], u64::MAX).unwrap();
    assert_eq!(spec.seed, 0);
    let mut none = config.clone();
    none.engines.clear();
    assert_eq!(plan_certification(&none, 2), Err(BenchError::NoBenchmarkRuns));
    assert_eq!(plan_certification(&config, 0).unwrap().len(), 8);
    assert_eq!(probe_run(&none, EngineKind::Sqlite).workload, WorkloadKind::PointReadPk);
}

#[test]
fn children_are_wrapped_when_asked() {
    let spec = config().run_spec(&EngineKind::Redline, &WorkloadKind::PointReadPk, &DurabilityKind::Strict, 8, 7).unwrap();
    assert_eq!(run_dir_name(&spec, 2), "Redline-point-read-pk-strict-t8-r2");
    assert!(wraps_child(true, true, true));
    assert!(!wraps_child(true, false, true));
    let words = child_command(&spec, "/bin/bench", "/o", Some("/s"));
    assert_eq!(
        words.join(" "),
        "strace -c -o /s -- /bin/bench run --engine redline --workload point-read-pk --durability strict \
         --threads 8 --rows 1 --seconds 1 --cache-mib 1 --seed 7 --out /o"
    );
    assert_eq!(child_command(&spec, "/bin/bench", "/o", None)[0], "/bin/bench");
}

#[test]
fn hashes_are_those_of_sha_256() {
    assert_eq!(
        hash_bytes(b"abc"),
        "ba7816bf8f01cfea414140de5dae2223b00361a396177a9cb410ff61f20015ad"
    );
    assert_eq!(
        hash_bytes(b""),
        "e3b0c44298fc1c149afbf4c8996fb92427ae41e4649b934ca495991b7852b855"
    );
    let entry = checksum_entry(&facts(EngineKind::Redline, WorkloadKind::PointReadPk, 8), b"abc");
    assert_eq!(entry.name, "Redline:point-read-pk:strict:t8");
    assert_eq!(entry.value, hash_bytes(b"abc"));
}

#[test]
fn the_journal_has_to_be_a_log() {
    let setting = |name: &str, value: &str| Setting { name: name.to_string(), value: value.to_string() };
    assert_eq!(pragma_validation(&None), None);
    assert_eq!(pragma_validation(&Some(vec![setting("journal_mode", "WAL")])), Some("ok".to_string()));
    assert_eq!(
        pragma_validation(&Some(vec![setting("journal_mode", "delete")])),
        Some("journal_mode=delete (expected wal)".to_string())
    );
    assert_eq!(pragma_validation(&Some(vec![])), Some("journal_mode= (expected wal)".to_string()));
}

#[test]
fn parity_gate_passes_when_ratio_is_met() {
    let records = vec![
        facts(EngineKind::Sqlite, WorkloadKind::PointReadPk, 1),
        facts(EngineKind::Redline, WorkloadKind::PointReadPk, 1),
    ];
    let sqlite = find_strict_run(&records, EngineKind::Sqlite, 1, WorkloadKind::PointReadPk).unwrap();
    let redline = find_strict_run(&records, EngineKind::Redline, 1, WorkloadKind::PointReadPk).unwrap();
    let throughput = [100.0, 95.0];
    let parity = throughput[redline] / throughput[sqlite] >= 0.90;
    let summary = evaluate_records(&records, parity, false);
    assert_eq!(summary.gates[2].name, "single_thread_parity");
    assert!(summary.gates[2].passed);
    assert!(!summary.gates[3].passed);
    assert_eq!(find_strict_run(&records, EngineKind::Redline, 8, WorkloadKind::PointReadPk), None);
}

#[test]
fn gates_look_at_operations_and_checksums() {
    let mut records = vec![
        facts(EngineKind::Sqlite, WorkloadKind::PointReadPk, 1),
        facts(EngineKind::Redline, WorkloadKind::PointReadPk, 1),
        facts(EngineKind::Redline, WorkloadKind::PointReadPk, 8),
    ];
    records[2].checksum.rows = 7;
    let summary = evaluate_records(&records, true, true);
    assert!(summary.gates.iter().all(|gate| gate.passed));
    records[1].checksum.rows = 7;
    records[2].operations = 0;
    let summary = evaluate_records(&records, true, true);
    assert!(!summary.gates[0].passed);
    assert!(!summary.gates[1].passed);
}

#[test]
fn reports_list_runs_and_gates() {
    let records = vec![facts(EngineKind::Redline, WorkloadKind::PointReadPk, 8)];
    let summary = evaluate_records(&records, true, false);
    let report = markdown_summary(&records, &summary);
    assert!(report.contains("| point-read-pk | Redline | strict | 8 | 95.0 | 3 | 4 | 100 | 200 |\n"));
    assert!(report.contains("\n## Gates\n- harness_sanity: PASS (all runs produced at least one successful operation)\n"));
    assert!(report.ends_with("concurrent_writer_advantage: FAIL (redline writers-disjoint throughput exceeds sqlite by 1.5x at 8 threads)\n"));
    let csv = summary_csv(&records);
    assert!(csv.starts_with("engine,workload,durability,threads,ops,"));
    assert!(csv.ends_with("\nRedline,point-read-pk,strict,8,10,1,0,95.00,3,4,100,200\n"));
}

#[test]
fn system_calls_are_added_up() {
    let call = |name: &str, calls| CallCount { name: name.to_string(), calls };
    let children = vec![
        Some(vec![call("write", 3), call("fsync", 1)]),
        None,
        Some(vec![]),
        Some(vec![call("fsync", 4), call("close", 2)]),
    ];
    let (totals, empties) = total_calls(&children);
    assert_eq!(totals, vec![call("close", 2), call("fsync", 5), call("write", 3)]);
    assert_eq!(empties, 2);
    let text = render_calls(&totals);
    assert!(text.ends_with("   0.00    0.000000           0         3         0 write\n"));
    let capture = strace_summary(true, true, &children);
    assert_eq!(capture.syscall_counts, Some(totals));
    assert_eq!(capture.reason, Some("2 of 4 child strace files were empty or unreadable".to_string()));
    assert_eq!(strace_summary(true, false, &children).reason, Some("linux required".to_string()));
    assert!(strace_summary(false, true, &children).reason.unwrap().starts_with("disabled"));
    assert_eq!(
        strace_summary(true, true, &vec![]).reason,
        Some("no strace output files were produced by children".to_string())
    );
}

#[test]
fn run_ids_name_engine_workload_and_time() {
    assert_eq!(next_run_id(EngineKind::Redline, WorkloadKind::MixedOltp, 1700), "Redline-MixedOltp-1700");
}

#[test]
fn memory_is_read_from_its_line() {
    assert_eq!(total_memory_mib("MemFree: 1 kB\nMemTotal:       16384 kB\n"), Some(16));
    assert_eq!(total_memory_mib("MemTotal: many kB\nMemTotal: 2048 kB\n"), None);
    assert_eq!(total_memory_mib("xMemTotal: 2048 kB"), None);
    assert_eq!(total_memory_mib("MemTotal:"), None);
}

#[test]
fn workers_insert_under_their_own_keys() {
    let row = make_row(1, 5);
    assert_eq!(row.key, (1 << 32) + 5);
    assert_eq!(row.tenant, 5);
    assert_eq!(row.blob, b"value-4294967301".to_vec());
    assert_ne!(make_row(2, 5).key, row.key);
    assert_eq!(blob_for(42), b"value-00000042".to_vec());
}

#[test]
fn writers_update_their_own_keys() {
    assert_eq!(writer_keys(4, 100), 25);
    assert_eq!(make_update(5, 4, 100, 3), BenchOp::Update { key: 28, blob: b"value-00000029".to_vec() });
    assert_eq!(make_update(0, 0, 0, 0), BenchOp::Update { key: 0, blob: b"value-00000001".to_vec() });
    assert_eq!(make_read(9), BenchOp::Read { key: 9 });
    assert_eq!(make_tenant_read(33), BenchOp::ReadTenant { tenant: 1 });
    assert_eq!(make_tenant_count(30), BenchOp::CountTenants { low: 30, high: 31 });
    assert_eq!(make_tenant_count(32), BenchOp::CountTenants { low: 0, high: 3 });
    assert_eq!(make_hot_update(1, 2), BenchOp::Update { key: 0, blob: b"value-16777218".to_vec() });
}

#[test]
fn workers_do_what_their_workload_says() {
    let mut rng = worker_rng(7, 1);
    for _ in 0..50 {
        match next_op(WorkloadKind::PointReadPk, 1, 4, 10, &mut rng) {
            BenchOp::Read { key } => assert!((0..10).contains(&key)),
            other => panic!("not a read: {other:?}"),
        }
        match next_op(WorkloadKind::WritersDisjoint, 1, 4, 100, &mut rng) {
            BenchOp::Update { key, .. } => assert!((25..50).contains(&key)),
            other => panic!("not an update: {other:?}"),
        }
        match next_op(WorkloadKind::BatchedInsert100, 1, 4, 100, &mut rng) {
            BenchOp::InsertBatch(rows) => assert_eq!(rows, 100),
            other => panic!("not a batch: {other:?}"),
        }
        let mixed = next_op(WorkloadKind::Mixed50Read50Write, 1, 4, 100, &mut rng);
        assert!(matches!(mixed, BenchOp::Read { .. } | BenchOp::Update { .. }));
    }
    let op = next_op(WorkloadKind::SecondaryIndexRead, 0, 1, 5, &mut rng);
    assert_eq!(statement(&op), "SELECT k, v FROM kv WHERE tenant = ?1 ORDER BY k LIMIT 1");
    let first = next_op(WorkloadKind::SingleRowInsert, 0, 1, 5, &mut worker_rng(3, 0));
    assert_eq!(first, next_op(WorkloadKind::SingleRowInsert, 0, 1, 5, &mut worker_rng(3, 0)));
    assert_ne!(first, next_op(WorkloadKind::SingleRowInsert, 0, 1, 5, &mut worker_rng(4, 0)));
    assert!(!needs_seed(WorkloadKind::SingleRowInsert));
    assert!(needs_seed(WorkloadKind::PointReadPk));
}

#[test]
fn streams_go_on_where_they_were() {
    let mut direct = rand_chacha::ChaCha8Rng::seed_from_u64(11 ^ 2);
    let mut rng = worker_rng(11, 2);
    for _ in 0..200 {
        let word = direct.random::<u32>();
        let op = next_op(WorkloadKind::SingleRowInsert, 2, 1, 10, &mut rng);
        assert_eq!(op, BenchOp::Insert(make_row(2, word)));
        let pick = direct.random_range(0..10_usize);
        let op = next_op(WorkloadKind::PointReadPk, 2, 1, 10, &mut rng);
        assert_eq!(op, make_read(pick));
        let expected = if direct.random_range(0..10) < 8 {
            make_read(direct.random_range(0..10_usize))
        } else {
            make_update(2, 3, 10, direct.random_range(0..3_usize))
        };
        assert_eq!(next_op(WorkloadKind::MixedOltp, 2, 3, 10, &mut rng), expected);
    }
}

#[test]
fn log_files_are_added_up() {
    let file = |name: &str, len| FileLen { name: name.to_string(), len };
    let files = vec![file("00000000000000000001.wal", 7), file("notes.txt", 9), file(".wal", 5), file("b.wal", 2)];
    assert_eq!(dir_wal_bytes(&files), 9);
}

#[test]
fn busy_errors_are_recognized() {
    assert!(is_busy_error("database is BUSY"));
    assert!(is_busy_error("table Locked"));
    assert!(!is_busy_error("no such table"));
}

#[test]
fn counters_add_up() {
    let mut a = Counters::new();
    a.record_success();
    a.record_failure(true);
    a.record_failure(false);
    let mut b = Counters::new();
    b.record_success();
    b.merge(&a);
    assert_eq!(b, Counters { operations: 2, failures: 2, busy_errors: 1 });
    assert_eq!(latency_sample(0), 1);
    assert_eq!(latency_sample(30), 30);
    assert_eq!(latency_sample(u128::MAX), u64::MAX);
}

#[test]
fn queries_and_statements_are_the_known_ones() {
    assert_eq!(smoke_queries().len(), 3);
    let queries = optimizer_queries();
    assert_eq!(queries.len(), 11);
    assert_eq!(queries[1].query, "SELECT id FROM t WHERE v = 'v128'");
    assert_eq!(parent_insert(7), "INSERT INTO parent VALUES (7, 'p7')");
    assert_eq!(child_insert(7), "INSERT INTO child VALUES (14, 7, 'c14')");
    assert_eq!(indexed_insert(7), "INSERT INTO t VALUES (7, 'v007')");
    assert_eq!(indexed_insert(1234), "INSERT INTO t VALUES (1234, 'v1234')");
    assert_eq!(family_rows(1024), 256);
    assert_eq!(mixed_row(70, 10), (70 * 16 + 10) % 1024);
    assert_eq!(counted_rows(true, 3, 9), 3);
    assert_eq!(counted_rows(false, 3, 9), 9);
}

#[test]
fn number_fields_are_cut_out() {
    let json = "{\"a\": 1.5 ,\"memory_bytes\":42}";
    assert_eq!(number_field(json, "a"), Some("1.5".to_string()));
    assert_eq!(number_field(json, "memory_bytes"), Some("42".to_string()));
    assert_eq!(number_field(json, "b"), None);
    assert_eq!(number_field("\"x\":7", "x"), Some("7".to_string()));
}

#[test]
fn texts_are_escaped() {
    assert_eq!(escape("a\"b\\c\nd\re\tf"), "a\\\"b\\\\c\\nd\\re\\tf");
}

#[test]
fn summaries_of_calls_are_read() {
    let raw = "% time     seconds  usecs/call     calls    errors syscall\n\
------ ----------- ----------- --------- --------- ----------------\n\
 60.00    0.000120          12        10           write\n\
 40.00    0.000080           8        10         2 futex\r\n\
------ ----------- ----------- --------- --------- ----------------\n\
100.00    0.000200                    20         2 total";
    let calls = parse_strace_summary(raw);
    assert_eq!(
        calls,
        vec![
            CallCount { name: "write".to_string(), calls: 10 },
            CallCount { name: "futex".to_string(), calls: 10 },
        ]
    );
    assert_eq!(parse_strace_summary(""), vec![]);
}
