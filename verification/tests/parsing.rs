use swe_reviewer::format::{
    chunk_log_content, classify_log_format, looks_nextest_format, looks_single_line_like,
    parse_rust_log, LogFormat,
};
use swe_reviewer::extract::parse_rust_log_standard;
use swe_reviewer::nextest::{extract_test_name_from_nextest_line, parse_nextest_log};
use swe_reviewer::single_line::{parse_rust_log_single_line, strip_ansi_color_codes};
use swe_reviewer::status::ParsedLog;

fn has(v: &Vec<String>, name: &str) -> bool {
    v.iter().any(|s| s == name)
}

#[test]
fn standard_direct_lines() {
    let log = "test alpha ... ok\ntest beta ... FAILED\ntest gamma ... ignored\n";
    let p = parse_rust_log_standard(log);
    assert!(has(&p.passed, "alpha"));
    assert!(has(&p.failed, "beta"));
    assert!(has(&p.ignored, "gamma"));
    assert_eq!(p.all.len(), 3);
}

#[test]
fn standard_error_normalizes_to_failed() {
    let p = parse_rust_log_standard("test broken ... error\n");
    assert!(has(&p.failed, "broken"));
    assert!(p.passed.is_empty());
}

#[test]
fn standard_deferred_status_line() {
    let log = "test slow::one ...\nsome debug output\nok\n";
    let p = parse_rust_log_standard(log);
    assert!(has(&p.passed, "slow::one"));
}

#[test]
fn standard_split_ok_token() {
    let log = "test wrapped ... o\nk\n";
    let p = parse_rust_log_standard(log);
    assert!(has(&p.passed, "wrapped"));
}

#[test]
fn standard_failures_block() {
    let log = "running 2 tests\nfailures:\n    mod::silent_failure\n\ntest result: FAILED.\n";
    let p = parse_rust_log_standard(log);
    assert!(has(&p.failed, "mod::silent_failure"));
}

#[test]
fn standard_diagnostic_error_not_a_verdict() {
    let log = "test tricky ...\nerror: expected struct, found enum\nok\n";
    let p = parse_rust_log_standard(log);
    assert!(has(&p.passed, "tricky"));
    assert!(!has(&p.failed, "tricky"));
}

#[test]
fn conflicting_signals_resolve_to_failed_either_order() {
    let a = parse_rust_log_standard("test t ... ok\ntest t ... FAILED\n");
    assert!(has(&a.failed, "t"));
    assert!(!has(&a.passed, "t"));
    let b = parse_rust_log_standard("test t ... FAILED\ntest t ... ok\n");
    assert!(has(&b.failed, "t"));
    assert!(!has(&b.passed, "t"));
}

#[test]
fn parsed_log_partition_holds() {
    let p = parse_rust_log_standard("test a ... ok\ntest b ... FAILED\ntest c ... ignored\n");
    assert_eq!(p.all.len(), p.passed.len() + p.failed.len() + p.ignored.len());
    for n in &p.passed {
        assert!(!p.failed.contains(n) && !p.ignored.contains(n));
    }
}

#[test]
fn standard_extractor_idempotent_on_clean_reconstruction() {
    let messy = "test one ...\nnoise here\nok\ntest two ... FAILED\ntest three ... ignored\n";
    let first = parse_rust_log_standard(messy);
    let mut clean = String::new();
    for n in &first.passed {
        clean.push_str(&format!("test {} ... ok\n", n));
    }
    for n in &first.failed {
        clean.push_str(&format!("test {} ... FAILED\n", n));
    }
    for n in &first.ignored {
        clean.push_str(&format!("test {} ... ignored\n", n));
    }
    let second = parse_rust_log_standard(&clean);
    assert_eq!(first.passed.len(), second.passed.len());
    assert_eq!(first.failed.len(), second.failed.len());
    assert_eq!(first.ignored.len(), second.ignored.len());
    for n in &first.passed {
        assert!(has(&second.passed, n.as_str()));
    }
    for n in &first.failed {
        assert!(has(&second.failed, n.as_str()));
    }
    for n in &first.ignored {
        assert!(has(&second.ignored, n.as_str()));
    }
}

#[test]
fn nextest_lines_classify_as_nextest() {
    let log = "PASS [0.01s] crate mod::test_a\nPASS [0.01s] crate mod::test_b\n\
PASS [0.01s] crate mod::test_c\nPASS [0.01s] crate mod::test_d\n\
PASS [0.01s] crate mod::test_e\nPASS [0.01s] crate mod::test_f\n";
    assert!(looks_nextest_format(log));
    assert_eq!(classify_log_format(log), LogFormat::Nextest);
    assert_ne!(classify_log_format(log), LogFormat::Standard);
}

#[test]
fn nextest_parses_pass_fail_skip() {
    let log = "PASS [   0.021s] crate tests::works\nFAIL [   0.100s] crate tests::breaks\n\
SKIP [   0.001s] crate tests::skipped\n";
    let p = parse_nextest_log(log);
    assert!(has(&p.passed, "tests::works"));
    assert!(has(&p.failed, "tests::breaks"));
    assert!(has(&p.ignored, "tests::skipped"));
}

#[test]
fn nextest_name_normalization_rules() {
    assert_eq!(
        extract_test_name_from_nextest_line("miden-tx auth::tx_authenticator::test::serialize_auth_key"),
        "miden-tx auth::tx_authenticator::test::serialize_auth_key"
    );
    assert_eq!(
        extract_test_name_from_nextest_line("grillon::lib assert::json_path::does_not_match"),
        "assert::json_path::does_not_match"
    );
    assert_eq!(
        extract_test_name_from_nextest_line("grillon assertion::impls::is_eq"),
        "assertion::impls::is_eq"
    );
    assert_eq!(
        extract_test_name_from_nextest_line("plain_name_without_path"),
        "plain_name_without_path"
    );
}

#[test]
fn single_line_strategy_reads_compact_results() {
    let log = "test a::one ... ok test a::two ... FAILED test a::three ... ok";
    let p = parse_rust_log_single_line(log);
    assert!(has(&p.passed, "a::one"));
    assert!(has(&p.failed, "a::two"));
    assert!(has(&p.passed, "a::three"));
}

#[test]
fn single_line_strategy_reads_ui_paths() {
    let p = parse_rust_log_single_line("tests/ui/foo.rs ... ok\ntests/ui/bar.rs ... FAILED\n");
    assert!(has(&p.passed, "tests/ui/foo.rs"));
    assert!(has(&p.failed, "tests/ui/bar.rs"));
}

#[test]
fn ansi_text_selects_single_line_strategy() {
    let log = "\u{1b}[32mtest colored ... ok\u{1b}[0m";
    assert!(looks_single_line_like(log));
    assert_eq!(classify_log_format(log), LogFormat::SingleLineAnsi);
    let p: ParsedLog = parse_rust_log(log);
    assert!(has(&p.passed, "colored"));
}

#[test]
fn strip_ansi_removes_escape_sequences() {
    assert_eq!(strip_ansi_color_codes("\u{1b}[31mred\u{1b}[0m"), "red");
    assert_eq!(strip_ansi_color_codes("plain"), "plain");
}

#[test]
fn chunking_prefers_newline_cuts() {
    assert_eq!(chunk_log_content("abc", 10), vec!["abc".to_string()]);
    let chunks = chunk_log_content("aaaa\nbbbb\ncccc", 6);
    assert_eq!(
        chunks,
        vec!["aaaa\n".to_string(), "bbbb\n".to_string(), "cccc".to_string()]
    );
}
