use swe_reviewer::deliverable::{find_file_for_type, validate_folder_listing, DriveEntry};
use swe_reviewer::drive::{extract_drive_file_id, extract_drive_folder_id};
use swe_reviewer::duplicates::{detect_file_boundary, extract_test_info_enhanced, is_true_duplicate, Occur};
use swe_reviewer::grammar::StatusWord;
use swe_reviewer::json::Json;
use swe_reviewer::lists::test_lists_from_json;
use swe_reviewer::resolve::{merge_chunk_results, report_status_lookup};
use swe_reviewer::search::{get_search_terms, search_in_log_text};
use swe_reviewer::format::process_test_status;
use swe_reviewer::status::{status_lookup, Classification, Outcome, ParsedLog, Status};

#[test]
fn drive_file_id_extraction() {
    assert_eq!(
        extract_drive_file_id("https://drive.google.com/file/d/FILE123/view?usp=sharing"),
        Some("FILE123".to_string())
    );
    assert_eq!(
        extract_drive_file_id("https://drive.google.com/open?id=ABC&export=download"),
        Some("ABC".to_string())
    );
    assert_eq!(extract_drive_file_id("https://example.com/nothing"), None);
}

#[test]
fn drive_folder_id_extraction() {
    assert_eq!(
        extract_drive_folder_id("https://drive.google.com/drive/folders/FOLDER9?usp=sharing"),
        Some("FOLDER9".to_string())
    );
    assert_eq!(
        extract_drive_folder_id("https://drive.google.com/drive/u/0/folders/XYZ"),
        Some("XYZ".to_string())
    );
    assert_eq!(extract_drive_folder_id("https://example.com/"), None);
}

#[test]
fn merge_conflict_failed_beats_passed_in_either_order() {
    let all: Vec<(String, String)> = Vec::new();
    let a = merge_chunk_results(
        &vec![
            vec![("t".to_string(), "failed".to_string())],
            vec![("t".to_string(), "passed".to_string())],
        ],
        &all,
    );
    assert_eq!(a.len(), 1);
    assert_eq!(a[0].test_name, "t");
    assert_eq!(a[0].status, "failed");

    let b = merge_chunk_results(
        &vec![
            vec![("t".to_string(), "passed".to_string())],
            vec![("t".to_string(), "failed".to_string())],
        ],
        &all,
    );
    assert_eq!(b[0].status, "failed");
}

#[test]
fn merge_concrete_beats_non_existing() {
    let all: Vec<(String, String)> = Vec::new();
    let a = merge_chunk_results(
        &vec![
            vec![("t".to_string(), "non_existing".to_string())],
            vec![("t".to_string(), "passed".to_string())],
        ],
        &all,
    );
    assert_eq!(a[0].status, "passed");
    let b = merge_chunk_results(
        &vec![
            vec![("t".to_string(), "passed".to_string())],
            vec![("t".to_string(), "non_existing".to_string())],
        ],
        &all,
    );
    assert_eq!(b[0].status, "passed");
}

#[test]
fn merge_attaches_partition_kind() {
    let all = vec![("fail_to_pass".to_string(), "t".to_string())];
    let a = merge_chunk_results(&vec![vec![("t".to_string(), "passed".to_string())]], &all);
    assert_eq!(a[0].kind, "fail_to_pass");
    let b = merge_chunk_results(&vec![vec![("u".to_string(), "passed".to_string())]], &all);
    assert_eq!(b[0].kind, "unknown");
}

#[test]
fn search_terms_include_final_segment() {
    assert_eq!(get_search_terms("plain"), vec!["plain".to_string()]);
    assert_eq!(
        get_search_terms("suite - case_one"),
        vec!["suite - case_one".to_string(), "case_one".to_string()]
    );
}

#[test]
fn search_finds_lines_with_context() {
    let content = "zero\none\ntwo target here\nthree\nfour";
    let rs = search_in_log_text(content, "target");
    assert_eq!(rs.len(), 1);
    assert_eq!(rs[0].line_number, 3);
    assert_eq!(rs[0].line_content, "two target here");
    assert_eq!(rs[0].context_before, vec!["zero".to_string(), "one".to_string()]);
    assert_eq!(rs[0].context_after, vec!["three".to_string(), "four".to_string()]);
}

#[test]
fn report_shapes_resolve_statuses() {
    let names = vec!["a".to_string(), "b".to_string(), "c".to_string()];
    let flat = Json::Obj(vec![(
        "results".to_string(),
        Json::Arr(vec![
            Json::Obj(vec![
                ("test_name".to_string(), Json::Text("a".to_string())),
                ("status".to_string(), Json::Text("failed".to_string())),
            ]),
            Json::Obj(vec![
                ("test_name".to_string(), Json::Text("b".to_string())),
                ("status".to_string(), Json::Text("passed".to_string())),
            ]),
        ]),
    )]);
    let st = report_status_lookup(&names, &flat);
    assert_eq!(st, vec![Status::Failed, Status::Passed, Status::Missing]);

    let nested = Json::Obj(vec![(
        "tests".to_string(),
        Json::Obj(vec![(
            "a".to_string(),
            Json::Obj(vec![("status".to_string(), Json::Text("PASS".to_string()))]),
        )]),
    )]);
    let st2 = report_status_lookup(&names, &nested);
    assert_eq!(st2[0], Status::Passed);

    let swe = Json::Obj(vec![(
        "instance_1".to_string(),
        Json::Obj(vec![(
            "tests_status".to_string(),
            Json::Obj(vec![(
                "FAIL_TO_PASS".to_string(),
                Json::Obj(vec![
                    ("failure".to_string(), Json::Arr(vec![Json::Text("a".to_string())])),
                    ("success".to_string(), Json::Arr(vec![Json::Text("b".to_string())])),
                ]),
            )]),
        )]),
    )]);
    let st3 = report_status_lookup(&names, &swe);
    assert_eq!(st3, vec![Status::Failed, Status::Passed, Status::Missing]);
}

#[test]
fn manifest_lists_are_read() {
    let j = Json::Obj(vec![
        (
            "fail_to_pass".to_string(),
            Json::Arr(vec![Json::Text("f1".to_string()), Json::Text("f2".to_string())]),
        ),
        ("pass_to_pass".to_string(), Json::Arr(vec![Json::Text("p1".to_string())])),
    ]);
    let lists = test_lists_from_json(&j);
    assert_eq!(lists.fail_to_pass, vec!["f1".to_string(), "f2".to_string()]);
    assert_eq!(lists.pass_to_pass, vec!["p1".to_string()]);
}

#[test]
fn file_boundary_banners() {
    assert_eq!(
        detect_file_boundary("   Running tests/ui/foo.rs (revision a)"),
        Some("tests/ui/foo.rs".to_string())
    );
    assert_eq!(detect_file_boundary("nothing here"), None);
}

#[test]
fn enhanced_extraction_reads_compact_and_ui_lines() {
    let a = extract_test_info_enhanced("test mod::one ... ok");
    assert!(matches!(a, Some((ref n, StatusWord::Okay)) if n.as_str() == "mod::one"));
    let b = extract_test_info_enhanced("tests/ui/x.rs ... FAILED");
    assert!(matches!(b, Some((ref n, StatusWord::Failed)) if n.as_str() == "tests/ui/x.rs"));
    assert!(extract_test_info_enhanced("plain text").is_none());
}

#[test]
fn contradictory_occurrences_are_true_duplicates() {
    let occ = vec![
        Occur {
            test_name: "a".to_string(),
            status: StatusWord::Okay,
            line_no: 10,
            context_before: vec![],
            context_after: vec![],
        },
        Occur {
            test_name: "a".to_string(),
            status: StatusWord::Failed,
            line_no: 500,
            context_before: vec![],
            context_after: vec![],
        },
    ];
    assert!(is_true_duplicate(&occ));

    let far_same = vec![
        Occur {
            test_name: "a".to_string(),
            status: StatusWord::Okay,
            line_no: 10,
            context_before: vec!["x".to_string()],
            context_after: vec![],
        },
        Occur {
            test_name: "a".to_string(),
            status: StatusWord::Okay,
            line_no: 500,
            context_before: vec!["y".to_string()],
            context_after: vec![],
        },
    ];
    assert!(!is_true_duplicate(&far_same));
}

#[test]
fn deliverable_validation_plans_downloads() {
    let entry = |name: &str, mime: &str| DriveEntry {
        id: format!("id-{}", name),
        name: name.to_string(),
        mime: mime.to_string(),
    };
    let files = vec![
        entry("inst.json", "application/json"),
        entry("logs", "application/vnd.google-apps.folder"),
    ];
    let logs = vec![
        entry("run_after.log", "text/plain"),
        entry("run_before.log", "text/plain"),
        entry("run_base.log", "text/plain"),
        entry("run_post_agent_patch.log", "text/plain"),
    ];
    let ok = validate_folder_listing("inst deliverable", &files, Some(&logs), None, "FID");
    let v = ok.expect("validation should succeed");
    assert_eq!(v.folder_id, "FID");
    assert_eq!(v.files_to_download.len(), 5);
    assert_eq!(v.files_to_download[0].path, "main/inst.json");
    assert_eq!(v.files_to_download[1].path, "logs/run_after.log");

    let partial_logs = vec![
        entry("run_after.log", "text/plain"),
        entry("run_before.log", "text/plain"),
    ];
    let missing = validate_folder_listing("inst d", &files, Some(&partial_logs), None, "F");
    let e = missing.err().expect("validation should fail");
    assert!(e.contains("Missing required log file ending with: _base.log"));
}

#[test]
fn file_type_pattern_selection() {
    let paths = vec![
        "/tmp/x/logs/run_base.log".to_string(),
        "/tmp/x/logs/run_after.log".to_string(),
        "/tmp/x/main/inst.json".to_string(),
    ];
    let base = find_file_for_type("base", &paths).expect("known type");
    assert_eq!(base, Some("/tmp/x/logs/run_base.log".to_string()));
    let main_json = find_file_for_type("main_json", &paths).expect("known type");
    assert_eq!(main_json, Some("/tmp/x/main/inst.json".to_string()));
    assert!(find_file_for_type("bogus", &paths).is_err());
}

#[test]
fn status_lookup_resolves_each_universe_name() {
    let p = ParsedLog {
        passed: vec!["a".to_string()],
        failed: vec!["b".to_string()],
        ignored: vec!["c".to_string()],
        all: vec!["a".to_string(), "b".to_string(), "c".to_string()],
    };
    let names = vec!["a".to_string(), "b".to_string(), "c".to_string(), "d".to_string()];
    let st = status_lookup(&names, &p);
    assert_eq!(st, vec![Status::Passed, Status::Failed, Status::Ignored, Status::Missing]);
}

#[test]
fn process_test_status_merges_signals() {
    let mut cls = Classification::new();
    process_test_status("ok", "t", &mut cls);
    assert_eq!(cls.get("t"), Some(Outcome::Passed));
    process_test_status("error", "t", &mut cls);
    assert_eq!(cls.get("t"), Some(Outcome::Failed));
    process_test_status("bogus", "t", &mut cls);
    assert_eq!(cls.get("t"), Some(Outcome::Failed));
    process_test_status("ignored", "u", &mut cls);
    assert_eq!(cls.get("u"), Some(Outcome::Ignored));
}

#[test]
fn merge_reports_tests_ascending_by_name() {
    let all: Vec<(String, String)> = Vec::new();
    let r = merge_chunk_results(
        &vec![
            vec![("bb".to_string(), "passed".to_string())],
            vec![("a".to_string(), "failed".to_string())],
            vec![("c".to_string(), "passed".to_string())],
        ],
        &all,
    );
    let order: Vec<&str> = r.iter().map(|t| t.test_name.as_str()).collect();
    assert_eq!(order, vec!["a", "bb", "c"]);
}

#[test]
fn summary_banner_needs_a_passing_result() {
    assert_eq!(
        detect_file_boundary("test result: ok. 3 passed; 0 failed ... for tests/x.rs"),
        Some("tests/x.rs".to_string())
    );
    assert_eq!(
        detect_file_boundary("test result: FAILED. 0 passed; 2 failed ... for tests/x.rs"),
        None
    );
}
