use redlinedb::bench::config::{DurabilityKind, EngineKind, FailpointMatrixCase, FailpointMatrixConfig};
use redlinedb::bench::failpoint_matrix::{
    case_count, case_names, child_arguments, count_acknowledged, evaluate_zero_lost_acked_commits, format_status,
    judge_case, plan_matrix, summarize, translate_action, PlannedRun,
};

fn case(name: &str, durabilities: Vec<DurabilityKind>, hits: Vec<u64>) -> FailpointMatrixCase {
    FailpointMatrixCase {
        name: name.to_string(),
        failpoint: "wal::flush".to_string(),
        action: "panic".to_string(),
        durabilities,
        rows: 16,
        kill_after_n_hits: hits,
    }
}

#[test]
fn translate_action_maps_keywords_to_panic() {
    assert_eq!(translate_action("panic", 1), "panic");
    assert_eq!(translate_action("abort", 1), "panic");
    assert_eq!(translate_action("return", 1), "panic");
    assert_eq!(translate_action("panic", 5), "5*panic");
}

#[test]
fn translate_action_passes_through_unknown_directives() {
    assert_eq!(translate_action("sleep(10)", 1), "sleep(10)");
    assert_eq!(translate_action("50%panic", 1), "50%panic");
}

#[test]
fn translate_action_ignores_blanks_around_the_word() {
    assert_eq!(translate_action("  abort\t\n", 12), "12*panic");
    assert_eq!(translate_action("\u{3000}pause ", 0), "pause");
}

#[test]
fn a_case_without_lists_takes_those_of_the_matrix() {
    let config = FailpointMatrixConfig {
        durabilities: vec![DurabilityKind::Strict, DurabilityKind::Normal],
        cases: vec![
            case("plain", vec![], vec![]),
            case("own", vec![DurabilityKind::Unsafe], vec![2, 3]),
        ],
    };
    assert_eq!(case_count(&config), 2);
    let run = |case, durability, kill_after_n_hits| PlannedRun { case, durability, kill_after_n_hits };
    assert_eq!(
        plan_matrix(&config),
        vec![
            run(0, DurabilityKind::Strict, 1),
            run(0, DurabilityKind::Normal, 1),
            run(1, DurabilityKind::Unsafe, 2),
            run(1, DurabilityKind::Unsafe, 3),
        ]
    );
}

#[test]
fn a_lost_commit_fails_the_run_and_the_matrix() {
    let case = case("c", vec![], vec![]);
    let good = judge_case(&case, EngineKind::Redline, DurabilityKind::Strict, 1, "signal".to_string(), 5, 7);
    assert!(good.passed);
    assert_eq!(good.lost_acked_commits, 0);
    let bad = judge_case(&case, EngineKind::Redline, DurabilityKind::Strict, 1, "signal".to_string(), 9, 7);
    assert!(!bad.passed);
    assert_eq!(bad.lost_acked_commits, 2);
    let report = summarize(7, vec![good.clone()]);
    assert!(report.passed && report.failed_cases == 0 && report.seed == 7);
    assert!(evaluate_zero_lost_acked_commits(&report));
    let report = summarize(7, vec![good, bad.clone()]);
    assert!(!report.passed);
    assert_eq!(report.failed_cases, 1);
    assert!(!evaluate_zero_lost_acked_commits(&report));
    let mut relaxed = bad;
    relaxed.durability = DurabilityKind::Normal;
    assert!(evaluate_zero_lost_acked_commits(&summarize(7, vec![relaxed])));
}

#[test]
fn acknowledgements_are_the_lines_that_are_not_blank() {
    assert_eq!(count_acknowledged(""), 0);
    assert_eq!(count_acknowledged("0\n1\n2\n"), 3);
    assert_eq!(count_acknowledged("0\r\n\r\n  \n7"), 2);
}

#[test]
fn statuses_are_put_into_words() {
    assert_eq!(format_status(Some(101), false), "exit(101)");
    assert_eq!(format_status(Some(-6), false), "exit(-6)");
    assert_eq!(format_status(None, true), "success");
    assert_eq!(format_status(None, false), "signal");
}

#[test]
fn children_are_told_everything() {
    let mut case = case("c", vec![], vec![]);
    case.rows = 0;
    let words = child_arguments(EngineKind::Redline, DurabilityKind::Strict, "/d", "/a", &case, 3);
    assert_eq!(
        words.join(" "),
        "failpoint-child --engine redline --durability strict --db-dir /d --ack-log /a \
         --failpoint wal::flush --action panic --rows 1 --kill-after-n-hits 3"
    );
    assert_eq!(
        case_names(EngineKind::Redline, &case),
        ("Redline-c".to_string(), "Redline-c.ack".to_string())
    );
}
