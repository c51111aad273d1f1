use sapvault::scanner::{
    dir_allowed, evaluate, expand_with, file_verdict, find_ci, needed_groups, normalize, redact, text_candidate,
    FileStep, FileVerdict, ScanOptions, ScanRun,
};

#[test]
fn short_system_id_needs_boundaries() {
    assert!(find_ci(b"this device is ready", b"DEV", true).is_none());
    assert!(find_ci(b"SID=DEV;", b"DEV", true).is_some());
}

#[test]
fn secrets_in_excerpts_are_collapsed() {
    assert_eq!(redact("pass=SuperSecretValue1234567890"), "pass=Supe••••••");
    assert_eq!(redact("user=JDOE"), "user=JDOE");
}

#[test]
fn missing_conditions_are_reported() {
    let none: Vec<String> = Vec::new();
    assert!(needed_groups(true, &none, &none, &none).is_err());
}

fn terms() -> (Vec<String>, Vec<String>, Vec<String>) {
    (
        normalize(&vec!["prd.sap.corp.example".to_string()], false),
        normalize(&vec!["PRD".to_string()], true),
        normalize(&vec!["JDOE".to_string()], true),
    )
}

#[test]
fn a_file_with_all_three_tokens_matches() {
    let (hosts, sids, users) = terms();
    let needed = needed_groups(true, &hosts, &sids, &users).unwrap();
    assert_eq!(needed, 3);
    let text = br#"{"systemid":"PRD","server":"prd.sap.corp.example:3200","client":"100","user":"JDOE"}"#;
    let hit = evaluate(text, &hosts, &sids, &users, needed).expect("match");
    assert_eq!(hit.score, 3);
    assert_eq!(hit.first_line, 1);
}

#[test]
fn strict_mode_rejects_partial_matches() {
    let (hosts, sids, users) = terms();
    let text = b"server=prd.sap.corp.example SID=PRD";
    let strict = needed_groups(true, &hosts, &sids, &users).unwrap();
    assert!(evaluate(text, &hosts, &sids, &users, strict).is_none());
    let relaxed = needed_groups(false, &hosts, &sids, &users).unwrap();
    let hit = evaluate(text, &hosts, &sids, &users, relaxed).expect("relaxed match");
    assert_eq!(hit.score, 2);
}

#[test]
fn binary_bytes_are_not_text() {
    assert!(text_candidate(&[0u8, 1, 2, 3, 0]).is_none());
    assert!(text_candidate(&[]).is_none());
    assert_eq!(text_candidate(b"plain").unwrap(), b"plain".to_vec());
    assert_eq!(text_candidate(&[0xFF, 0xFE, b'h', 0, b'i', 0]).unwrap(), b"hi".to_vec());
}

#[test]
fn terms_are_trimmed_cased_and_deduplicated() {
    let values = vec![" jdoe ".to_string(), "JDOE".to_string(), "".to_string()];
    assert_eq!(normalize(&values, true), vec!["JDOE".to_string()]);
}

#[test]
fn environment_templates_expand_with_given_variables() {
    let vars = vec![("SAPVAULT_TEST_ROOT".to_string(), "C:\\demo".to_string())];
    assert_eq!(expand_with(r"%sapvault_test_root%\Temp", &vars), "C:\\demo\\Temp");
    assert_eq!(expand_with(r"%NOPE_NOT_SET%\Temp", &vars), "");
}

#[test]
fn skipped_directories_and_extensions() {
    let prefixes = vec![r"c:\users\me\appdata\local\temp".to_string()];
    assert!(!dir_allowed("node_modules", r"C:\x\node_modules", false, &prefixes));
    assert!(!dir_allowed("Temp", r"C:\Users\me\AppData\Local\Temp\", false, &prefixes));
    assert!(dir_allowed("config", r"C:\x\config", false, &prefixes));
    let none: Vec<String> = Vec::new();
    assert_eq!(file_verdict("exe", &none), FileVerdict::Skip);
    assert_eq!(file_verdict("json", &none), FileVerdict::Read);
    assert_eq!(file_verdict("json", &vec!["ini".to_string()]), FileVerdict::Ignore);
}

fn scan_options() -> ScanOptions {
    ScanOptions {
        roots: Vec::new(),
        hosts: vec![" prd.sap.corp.example ".to_string()],
        system_ids: vec!["prd".to_string()],
        usernames: vec!["jdoe".to_string()],
        strict: false,
        max_file_bytes: 1000,
        max_files: 2,
        max_depth: 8,
        follow_links: false,
        only_extensions: Vec::new(),
        extra_skip_paths: vec!["C:\\\\Vault\\\\".to_string()],
        label: "PRD".to_string(),
    }
}

#[test]
fn a_scan_counts_reads_skips_and_stops_at_the_limit() {
    let mut run = ScanRun::start(&scan_options(), "C:\\\\Users\\\\me".to_string(), vec!["C:\\\\Windows".to_string()], "now".to_string()).unwrap();
    assert_eq!(run.needed, 2);
    assert_eq!(run.report.roots, vec!["C:\\\\Users\\\\me".to_string()]);
    assert_eq!(run.skip_prefixes, vec!["c:\\\\windows".to_string(), "c:\\\\vault".to_string()]);
    assert_eq!(run.file_step("exe", Some(10)), FileStep::Pass);
    assert_eq!(run.report.skipped_files, 1);
    assert_eq!(run.file_step("txt", Some(0)), FileStep::Pass);
    assert_eq!(run.file_step("txt", Some(5000)), FileStep::Pass);
    assert_eq!(run.file_step("txt", None), FileStep::Pass);
    assert_eq!(run.report.skipped_files, 4);
    assert!(run.progress_due());
    assert_eq!(run.file_step("ini", Some(40)), FileStep::Read);
    run.file_content("C:\\\\a.ini".to_string(), "a.ini".to_string(), 40, None, Some(b"server=prd.sap.corp.example SID=PRD".to_vec()));
    assert_eq!(run.file_step("txt", Some(40)), FileStep::Read);
    run.file_content("C:\\\\b.txt".to_string(), "b.txt".to_string(), 40, None, Some(b"nothing here".to_vec()));
    assert_eq!(run.file_step("txt", Some(40)), FileStep::Stop);
    assert!(run.report.truncated);
    run.walk_error("denied".to_string());
    run.missing_root("Z:\\\\");
    let report = run.finish(12);
    assert_eq!(report.scanned_files, 2);
    assert_eq!(report.hits.len(), 1);
    assert_eq!(report.hits[0].score, 2);
    assert_eq!(report.elapsed_ms, 12);
    assert_eq!(report.errors, vec!["denied".to_string(), "目录不存在或不可访问：Z:\\\\".to_string()]);
}

#[test]
fn a_scan_needs_some_terms() {
    let options = ScanOptions { hosts: vec![], system_ids: vec![" ".to_string()], usernames: vec![], ..scan_options() };
    assert!(ScanRun::start(&options, String::new(), vec![], String::new()).is_err());
}

#[test]
fn hits_are_ordered_by_score_then_hosts_then_path() {
    let mut run = ScanRun::start(&scan_options(), String::new(), vec![], String::new()).unwrap();
    run.max_files = 10;
    for (path, text) in [("b", "prd.sap.corp.example PRD"), ("a", "prd.sap.corp.example PRD"), ("c", "prd.sap.corp.example PRD JDOE")] {
        assert_eq!(run.file_step("txt", Some(10)), FileStep::Read);
        run.file_content(path.to_string(), path.to_string(), 10, None, Some(text.as_bytes().to_vec()));
    }
    run.file_content("d".to_string(), "d".to_string(), 10, None, None);
    let report = run.finish(0);
    let order: Vec<&str> = report.hits.iter().map(|h| h.path.as_str()).collect();
    assert_eq!(order, vec!["c", "a", "b"]);
    assert_eq!(report.skipped_files, 1);
}
