use swe_reviewer::format::parse_rust_log;
use swe_reviewer::json::Json;
use swe_reviewer::report::generate_analysis_result;
use swe_reviewer::status::{ParsedLog, Status};

fn plog(passed: &[&str], failed: &[&str], ignored: &[&str]) -> ParsedLog {
    let p: Vec<String> = passed.iter().map(|s| s.to_string()).collect();
    let f: Vec<String> = failed.iter().map(|s| s.to_string()).collect();
    let g: Vec<String> = ignored.iter().map(|s| s.to_string()).collect();
    let mut all = p.clone();
    all.extend(f.clone());
    all.extend(g.clone());
    ParsedLog { passed: p, failed: f, ignored: g, all }
}

fn names(v: &[&str]) -> Vec<String> {
    v.iter().map(|s| s.to_string()).collect()
}

#[test]
fn c4_missing_in_base_passing_in_before_is_fine() {
    let base = plog(&[], &[], &[]);
    let before = plog(&["a"], &[], &[]);
    let after = plog(&["a"], &[], &[]);
    let r = generate_analysis_result(
        &base, &before, &after, None,
        &names(&["a"]), &names(&[]),
        "base.log", "before.log", "after.log", None,
        None, "", "", "", None, &Vec::new(),
    );
    assert!(!r.rule_checks.c4_p2p_missing_in_base.has_problem);
}

#[test]
fn c4_missing_in_base_and_before_is_a_problem() {
    let base = plog(&[], &[], &[]);
    let before = plog(&[], &[], &[]);
    let after = plog(&["a"], &[], &[]);
    let r = generate_analysis_result(
        &base, &before, &after, None,
        &names(&["a"]), &names(&[]),
        "base.log", "before.log", "after.log", None,
        None, "", "", "", None, &Vec::new(),
    );
    assert!(r.rule_checks.c4_p2p_missing_in_base.has_problem);
    assert!(r.rule_checks.c4_p2p_missing_in_base.examples[0].contains("a"));
}

#[test]
fn c1_p2p_failed_in_base() {
    let base = parse_rust_log("test a ... FAILED\n");
    let before = plog(&[], &[], &[]);
    let after = plog(&[], &[], &[]);
    let r = generate_analysis_result(
        &base, &before, &after, None,
        &names(&["a"]), &names(&[]),
        "base.log", "before.log", "after.log", None,
        None, "", "", "", None, &Vec::new(),
    );
    assert!(r.rule_checks.c1_failed_in_base.has_problem);
    assert!(r.rule_checks.c1_failed_in_base.examples.iter().any(|e| e == "a"));
}

#[test]
fn end_to_end_all_passing_is_accepted() {
    let text = "test a ... ok\ntest b ... ok\n";
    let base = parse_rust_log(text);
    let before = parse_rust_log(text);
    let after = parse_rust_log(text);
    let r = generate_analysis_result(
        &base, &before, &after, None,
        &names(&["a"]), &names(&["b"]),
        "base.log", "before.log", "after.log", None,
        None, text, text, text, None, &Vec::new(),
    );
    assert!(!r.rejection.satisfied);
    assert_eq!(r.rejection.p2p_ignored, names(&["a"]));
    assert_eq!(r.rejection.f2p_ignored, names(&["b"]));
    assert!(!r.rule_checks.c1_failed_in_base.has_problem);
    assert!(!r.rule_checks.c2_failed_in_after.has_problem);
}

#[test]
fn c2_failure_in_after_is_a_problem() {
    let base = plog(&["a"], &[], &[]);
    let before = plog(&["a"], &[], &[]);
    let after = parse_rust_log("test a ... FAILED\n");
    let r = generate_analysis_result(
        &base, &before, &after, None,
        &names(&["a"]), &names(&[]),
        "base.log", "before.log", "after.log", None,
        None, "", "", "", None, &Vec::new(),
    );
    assert!(r.rule_checks.c2_failed_in_after.has_problem);
}

#[test]
fn c3_f2p_passing_in_before_is_a_problem() {
    let base = plog(&[], &[], &[]);
    let before = plog(&["b"], &[], &[]);
    let after = plog(&["b"], &[], &[]);
    let r = generate_analysis_result(
        &base, &before, &after, None,
        &names(&[]), &names(&["b"]),
        "base.log", "before.log", "after.log", None,
        None, "", "", "", None, &Vec::new(),
    );
    assert!(r.rule_checks.c3_f2p_passed_in_before.has_problem);
}

#[test]
fn c5_contradictory_repeat_is_reported() {
    let mut text = String::new();
    for i in 0..10 {
        text.push_str(&format!("line {}\n", i));
    }
    text.push_str("test a ... ok\n");
    text.push_str("filler\n");
    text.push_str("test a ... FAILED\n");
    let base = parse_rust_log(&text);
    let before = plog(&[], &[], &[]);
    let after = plog(&[], &[], &[]);
    let r = generate_analysis_result(
        &base, &before, &after, None,
        &names(&["a"]), &names(&[]),
        "base.log", "before.log", "after.log", None,
        None, &text, "", "", None, &Vec::new(),
    );
    assert!(r.rule_checks.c5_duplicates.has_problem);
    let base_entry = r
        .rule_checks
        .c5_duplicates
        .per_log
        .iter()
        .find(|p| p.0 == "base")
        .expect("base stage should be listed");
    assert!(base_entry.1.iter().any(|e| e.contains("a")));
}

#[test]
fn c6_report_and_agent_disagreeing_is_a_problem() {
    let base = plog(&["a"], &[], &[]);
    let before = plog(&["a"], &[], &[]);
    let after = plog(&["a"], &[], &[]);
    let agent = plog(&["a"], &[], &[]);
    let report = Json::Obj(vec![(
        "results".to_string(),
        Json::Arr(vec![Json::Obj(vec![
            ("test_name".to_string(), Json::Text("a".to_string())),
            ("status".to_string(), Json::Text("failed".to_string())),
        ])]),
    )]);
    let r = generate_analysis_result(
        &base, &before, &after, Some(&agent),
        &names(&["a"]), &names(&[]),
        "base.log", "before.log", "after.log", None,
        Some(&report), "", "", "", None, &Vec::new(),
    );
    assert!(r.rule_checks.c6_report_agent_mismatch.has_problem);
    assert!(r.rule_checks.c6_report_agent_mismatch.examples[0].contains("a"));
}

#[test]
fn c7_f2p_key_in_golden_diff_without_test_definition() {
    let diffs = vec![
        ("patches/golden_src.diff".to_string(), "+ fn helper() { my_test_case(); }".to_string()),
        ("patches/test_changes.diff".to_string(), "+ unrelated".to_string()),
    ];
    let base = plog(&[], &[], &[]);
    let before = plog(&[], &[], &[]);
    let after = plog(&[], &[], &[]);
    let r = generate_analysis_result(
        &base, &before, &after, None,
        &names(&[]), &names(&["tests::my_test_case"]),
        "base.log", "before.log", "after.log", None,
        None, "", "", "", None, &diffs,
    );
    assert!(r.rule_checks.c7_f2p_in_golden_diff.has_problem);
    assert!(r.rule_checks.c7_f2p_in_golden_diff.examples[0].contains("my_test_case"));
}

#[test]
fn c7_test_defined_in_test_diff_is_fine() {
    let diffs = vec![
        ("patches/golden_src.diff".to_string(), "+ my_test_case".to_string()),
        (
            "patches/test_changes.diff".to_string(),
            "+ #[test]\n+ fn my_test_case() {\n+ }".to_string(),
        ),
    ];
    let base = plog(&[], &[], &[]);
    let before = plog(&[], &[], &[]);
    let after = plog(&[], &[], &[]);
    let r = generate_analysis_result(
        &base, &before, &after, None,
        &names(&[]), &names(&["tests::my_test_case"]),
        "base.log", "before.log", "after.log", None,
        None, "", "", "", None, &diffs,
    );
    assert!(!r.rule_checks.c7_f2p_in_golden_diff.has_problem);
}

#[test]
fn stage_matrix_records_each_stage() {
    let base = plog(&["a"], &[], &[]);
    let before = plog(&[], &["a"], &[]);
    let after = plog(&[], &[], &["a"]);
    let r = generate_analysis_result(
        &base, &before, &after, None,
        &names(&["a"]), &names(&[]),
        "base.log", "before.log", "after.log", None,
        None, "", "", "", None, &Vec::new(),
    );
    assert_eq!(r.p2p_analysis.len(), 1);
    assert_eq!(r.p2p_analysis[0].0, "a");
    assert_eq!(r.p2p_analysis[0].1.base, Status::Passed);
    assert_eq!(r.p2p_analysis[0].1.before, Status::Failed);
    assert_eq!(r.p2p_analysis[0].1.after, Status::Ignored);
    assert_eq!(r.p2p_analysis[0].1.agent, Status::Missing);
}

#[test]
fn c5_scans_the_agent_log_too() {
    let mut text = String::new();
    text.push_str("test a ... ok\n");
    text.push_str("test a ... FAILED\n");
    let base = plog(&[], &[], &[]);
    let before = plog(&[], &[], &[]);
    let after = plog(&[], &[], &[]);
    let agent = plog(&[], &["a"], &[]);
    let r = generate_analysis_result(
        &base, &before, &after, Some(&agent),
        &names(&["a"]), &names(&[]),
        "base.log", "before.log", "after.log", None,
        None, "", "", "", Some(&text), &Vec::new(),
    );
    assert!(r.rule_checks.c5_duplicates.has_problem);
    let agent_entry = r
        .rule_checks
        .c5_duplicates
        .per_log
        .iter()
        .find(|p| p.0 == "agent")
        .expect("agent stage should be listed");
    assert!(agent_entry.1.iter().any(|e| e.contains("a")));
}

#[test]
fn p2p_partition_covers_every_considered_test() {
    let base = plog(&[], &["a"], &[]);
    let before = plog(&[], &[], &[]);
    let after = plog(&["a"], &[], &[]);
    let r = generate_analysis_result(
        &base, &before, &after, None,
        &names(&["a"]), &names(&[]),
        "base.log", "before.log", "after.log", None,
        None, "", "", "", None, &Vec::new(),
    );
    assert_eq!(r.rejection.p2p_considered, names(&["a"]));
    assert!(r.rejection.p2p_rejected.is_empty());
    assert_eq!(r.rejection.p2p_ok, names(&["a"]));
    assert!(!r.rejection.satisfied);
}
