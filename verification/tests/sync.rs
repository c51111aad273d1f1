use sapvault::error::AppError;
use sapvault::model::{Entry, FieldLocation, FileBinding, KeyMapping, SyncFile, Vault};
use sapvault::patch::apply;
use sapvault::patch::TextEncoding;
use sapvault::sync::{
    account_title, analyze_for_sync, finish_sync, key_label, plan_all, plan_file, stamp, sync_edits, sync_file, verify,
    FileAnalysis, LocatedValue, SyncOutcome, SyncStep,
};

fn account(id: &str, title: &str, password: &str) -> Entry {
    Entry {
        id: id.to_string(),
        title: title.to_string(),
        category_id: "sap".to_string(),
        username: "u".to_string(),
        use_knox_id: false,
        password: password.to_string(),
        notes: String::new(),
        favorite: false,
        rule: None,
        history_cycle: 0,
        password_history: Vec::new(),
        sap: None,
        created_at: String::new(),
        updated_at: String::new(),
        last_used_at: None,
    }
}

/// The value `value` at `path`, found by its first occurrence after `after`
/// in `text` (inside quotes when `quoted`).
fn located(text: &str, path: &str, value: &str, after: &str, quoted: bool) -> LocatedValue {
    let from = text.find(after).unwrap();
    let start = from + text[from..].find(value).unwrap();
    LocatedValue {
        path: path.to_string(),
        value: value.to_string(),
        location: FieldLocation { start, end: start + value.len(), quoted, xml_attr: false, line: 0 },
    }
}

fn analysis(format: &str, values: Vec<LocatedValue>) -> FileAnalysis {
    FileAnalysis { format: format.to_string(), values, error: None }
}

fn bound_file(path: &str, bindings: &[(&str, &str)]) -> SyncFile {
    let mut file = SyncFile::from_path(path, KeyMapping::default(), None);
    file.bindings = bindings.iter().map(|(key, entry)| FileBinding::new(key, entry)).collect();
    file
}

const TWO: &str = "{\n  \"prd\": { \"password\": \"old-prd\" },\n  \"dev\": { \"password\": \"old-dev\" }\n}\n";

fn two_accounts() -> (Vault, SyncFile, FileAnalysis) {
    let file = bound_file("C:/x/two.json", &[("prd.password", "e1"), ("dev.password", "e2")]);
    let mut vault = Vault::default();
    vault.entries.push(account("e1", "PRD", "new-prd"));
    vault.entries.push(account("e2", "DEV", "new-dev"));
    vault.files.push(file.clone());
    let before = analysis(
        "json",
        vec![
            located(TWO, "prd.password", "old-prd", "prd", true),
            located(TWO, "dev.password", "old-dev", "dev", true),
        ],
    );
    (vault, file, before)
}

/// Syncs a file held in memory as the application syncs one on disk: read,
/// plan, rewrite, read the result again and check it.
fn sync_text(vault: &Vault, file: &SyncFile, text: &str) -> Result<(String, SyncOutcome), AppError> {
    let before = analyze_for_sync(&file.path, &Ok(text.to_string()));
    match sync_file(vault, file, text, &before)? {
        SyncStep::Unchanged(outcome) => Ok((text.to_string(), outcome)),
        SyncStep::Rewrite(updated, expected) => {
            let after = analyze_for_sync(&file.path, &Ok(updated.clone()));
            let (bytes, outcome) = finish_sync(file, &before, &after, &expected, &updated, TextEncoding::Utf8)?;
            Ok((String::from_utf8(bytes).unwrap(), outcome))
        },
    }
}

fn setup(path: &str, bindings: &[(&str, &str)], accounts: &[(&str, &str, &str)]) -> (Vault, SyncFile) {
    let file = bound_file(path, bindings);
    let mut vault = Vault::default();
    for (id, title, password) in accounts {
        vault.entries.push(account(id, title, password));
    }
    vault.files.push(file.clone());
    (vault, file)
}

#[test]
fn one_file_two_keys_two_accounts() {
    let (vault, file) = setup(
        "C:/x/two.json",
        &[("prd.password", "e1"), ("dev.password", "e2")],
        &[("e1", "PRD", "new-prd"), ("e2", "DEV", "new-dev")],
    );
    let plan = plan_file(&vault, &file, &analyze_for_sync(&file.path, &Ok(TWO.to_string())));
    assert_eq!(plan.updates, 2, "{:?}", plan.rows);
    let (updated, outcome) = sync_text(&vault, &file, TWO).unwrap();
    assert!(updated.contains("\"password\": \"new-prd\""), "{updated}");
    assert!(updated.contains("\"password\": \"new-dev\""), "{updated}");
    assert_eq!(updated.matches('\n').count(), TWO.matches('\n').count());
    assert!(updated.starts_with("{\n  \"prd\": { \"password\":"));
    assert!(outcome.changed);
    assert_eq!(outcome.updates, 2);
    assert_eq!(outcome.status, "已更新 2 处密码");
}

#[test]
fn a_deleted_key_is_reported_not_written() {
    let text = "{\"a\":{\"password\":\"x\"}}";
    let (vault, file) = setup("C:/x/gone.json", &[("b.password", "e1")], &[("e1", "A", "new")]);
    let plan = plan_file(&vault, &file, &analyze_for_sync(&file.path, &Ok(text.to_string())));
    assert_eq!(plan.updates, 0);
    assert_eq!(plan.rows[0].action, "missing-key");
    let (updated, outcome) = sync_text(&vault, &file, text).unwrap();
    assert!(!outcome.changed);
    assert_eq!(updated, text);
}

#[test]
fn only_the_bound_key_changes() {
    let original = "SAP_PRD_URL=https://prd.example\nSAP_PRD_PASSWORD=old\nSAP_DEV_PASSWORD=keep-me\n";
    let (vault, file) = setup("C:/x/mixed.env", &[("SAP_PRD_PASSWORD", "e1")], &[("e1", "PRD", "new-pw")]);
    let (updated, _) = sync_text(&vault, &file, original).unwrap();
    assert_eq!(updated, "SAP_PRD_URL=https://prd.example\nSAP_PRD_PASSWORD=new-pw\nSAP_DEV_PASSWORD=keep-me\n");
}

#[test]
fn toml_comments_and_quoting_survive() {
    let original = "# 生产环境\n[prd]\nurl = \"https://prd.example\"\npassword = \"old\" # 每季度轮换\n";
    let (vault, file) = setup("C:/x/app.toml", &[("prd.password", "e1")], &[("e1", "PRD", "has space#and=signs")]);
    let (updated, _) = sync_text(&vault, &file, original).unwrap();
    assert_eq!(updated, "# 生产环境\n[prd]\nurl = \"https://prd.example\"\npassword = \"has space#and=signs\" # 每季度轮换\n");
}

#[test]
fn yaml_nested_keys_are_addressable() {
    let original = "sap:\n  prd:\n    password: old\n  dev:\n    password: old2\n";
    let (vault, file) = setup(
        "C:/x/app.yml",
        &[("sap.prd.password", "e1"), ("sap.dev.password", "e2")],
        &[("e1", "PRD", "p1"), ("e2", "DEV", "p2")],
    );
    let (updated, _) = sync_text(&vault, &file, original).unwrap();
    assert_eq!(updated, "sap:\n  prd:\n    password: p1\n  dev:\n    password: p2\n");
}

#[test]
fn values_may_contain_comment_markers() {
    let original = "PASSWORD=ab#cd\nexport TOKEN=http://host;db=x\n";
    let (mut vault, file) = setup(
        "C:/x/markers.env",
        &[("PASSWORD", "e1"), ("TOKEN", "e2")],
        &[("e1", "PRD", "ab#cd"), ("e2", "TOK", "http://host;db=x")],
    );
    let analysis = analyze_for_sync(&file.path, &Ok(original.to_string()));
    assert_eq!(analysis.value("PASSWORD").map(|value| value.value.as_str()), Some("ab#cd"));
    assert_eq!(analysis.value("TOKEN").map(|value| value.value.as_str()), Some("http://host;db=x"));
    let plan = plan_file(&vault, &file, &analysis);
    assert_eq!(plan.updates, 0, "{:?}", plan.rows);
    vault.entries[0].password = "xy#zw".to_string();
    let (updated, _) = sync_text(&vault, &file, original).unwrap();
    assert!(updated.contains("export TOKEN=http://host;db=x"), "{updated}");
    assert_eq!(updated.lines().count(), original.lines().count(), "{updated}");
}

#[test]
fn a_missing_or_unreadable_file_is_refused() {
    let (vault, mut file) = setup("C:/x/two.json", &[("prd.password", "e1")], &[("e1", "PRD", "x")]);
    let unreadable = analyze_for_sync(&file.path, &Err("拒绝访问".to_string()));
    assert!(matches!(sync_file(&vault, &file, "", &unreadable), Err(AppError::Msg(m)) if m == "拒绝访问"));
    file.exists = false;
    let readable = analyze_for_sync(&file.path, &Ok(TWO.to_string()));
    assert!(matches!(sync_file(&vault, &file, TWO, &readable), Err(AppError::Msg(m)) if m == "文件不存在：C:/x/two.json"));
}

#[test]
fn values_are_located_by_their_key_path() {
    let analysis = analyze_for_sync("C:/x/two.json", &Ok(TWO.to_string()));
    let dev = analysis.value("dev.password").unwrap();
    assert_eq!(&TWO[dev.location.start..dev.location.end], "old-dev");
    assert!(dev.location.quoted);
    assert_eq!(dev.location.line, 3);
}

#[test]
fn a_value_that_needs_quotes_gets_them() {
    let original = "password = old\n";
    let file = bound_file("C:/x/app.toml", &[("password", "e1")]);
    let mut vault = Vault::default();
    vault.entries.push(account("e1", "PRD", "has space#and=signs"));
    let before = analysis("toml", vec![located(original, "password", "old", "=", false)]);
    let plan = plan_file(&vault, &file, &before);
    let (edits, _) = sync_edits(&plan, &before);
    assert_eq!(apply(original, &edits).unwrap(), "password = \"has space#and=signs\"\n");
}

#[test]
fn rows_say_what_will_happen() {
    let text = "{\"a\":\"same\",\"b\":\"x\",\"c\":\"y\"}";
    let file = bound_file("C:/x/rows.json", &[("a", "e1"), ("b", "e2"), ("c", "gone")]);
    let mut vault = Vault::default();
    vault.entries.push(account("e1", "Same", "same"));
    vault.entries.push(account("e2", "Empty", ""));
    let before = analysis(
        "json",
        vec![
            located(text, "a", "same", "\"a\"", true),
            located(text, "b", "x", "\"b\"", true),
            located(text, "c", "y", "\"c\"", true),
        ],
    );
    let plan = plan_file(&vault, &file, &before);
    // The binding of a deleted account makes no row.
    assert_eq!(plan.rows.len(), 2);
    assert_eq!(plan.rows[0].action, "same");
    assert_eq!(plan.rows[0].detail, "文件里的密码已是最新");
    assert_eq!(plan.rows[1].action, "no-password");
    assert_eq!(plan.rows[1].new_password, None);
    assert_eq!(plan.status, "账号缺少密码");
    let nothing = bound_file("C:/x/none.json", &[]);
    assert_eq!(plan_file(&vault, &nothing, &before).status, "尚未选择密码键");
}

#[test]
fn verification_refuses_a_changed_structure_or_a_touched_key() {
    let (_, _, before) = two_accounts();
    let expected = vec![("prd.password".to_string(), "new-prd".to_string())];
    let shorter = analysis("json", vec![before.values[0].clone()]);
    assert!(matches!(verify(&before, &shorter, &expected), Err(AppError::Msg(m)) if m.contains("结构发生变化")));
    let mut touched = before.clone();
    touched.values[0].value = "new-prd".to_string();
    touched.values[1].value = "changed".to_string();
    assert!(matches!(verify(&before, &touched, &expected), Err(AppError::Msg(m)) if m.contains("dev.password")));
    let mut wrong = before.clone();
    wrong.values[0].value = "other".to_string();
    assert!(matches!(verify(&before, &wrong, &expected), Err(AppError::Msg(m)) if m.contains("密码校验失败")));
    let mut reordered = before.clone();
    reordered.values.swap(0, 1);
    assert!(matches!(verify(&before, &reordered, &expected), Err(AppError::Msg(m)) if m.contains("键顺序")));
}

#[test]
fn labels_and_titles() {
    assert_eq!(key_label("config.system@password"), "password");
    assert_eq!(key_label("sap.prd.password"), "password");
    assert_eq!(key_label("PASSWORD"), "PASSWORD");
    let mut vault = Vault::default();
    vault.entries.push(account("e1", "PRD", "x"));
    assert_eq!(account_title(&vault, "e1"), "PRD");
    assert_eq!(account_title(&vault, "nope"), "（已删除的账号）");
}

#[test]
fn every_file_gets_a_plan() {
    let (vault, _, before) = two_accounts();
    let plans = plan_all(&vault, &vec![before]);
    assert_eq!(plans.len(), 1);
    assert_eq!(plans[0].updates, 2);
}

#[test]
fn syncing_refreshes_the_cached_analysis() {
    let original = "{\n  \"a\": { \"password\": \"old\" }\n}\n";
    let (vault, mut file) = setup("C:/x/refresh.json", &[("a.password", "e1")], &[("e1", "PRD", "new")]);
    let (updated, outcome) = sync_text(&vault, &file, original).unwrap();
    assert!(outcome.changed);
    stamp(&mut file, &outcome, Ok(updated.clone()));
    let cached = file.analysis.as_ref().expect("analysis");
    assert!(cached.fields.iter().any(|f| f.path == "a.password" && f.value == "new"), "同步后缓存里还是旧密码");
    assert_eq!(file.last_status.as_deref(), Some("已更新 1 处密码"));
    let plan = plan_file(&vault, &file, &analyze_for_sync(&file.path, &Ok(updated)));
    assert_eq!(plan.updates, 0, "{:?}", plan.rows);
    assert_eq!(plan.status, "已是最新");
    let unchanged = SyncOutcome { changed: false, status: "已是最新".to_string(), ..outcome };
    stamp(&mut file, &unchanged, Ok(String::new()));
    assert_eq!(file.last_status.as_deref(), Some("无变化（已是最新）"));
}

/// A comment that looks like a password is never read as a value (so a sync
/// never overwrites it), and a trailing comment stays as it was.
#[test]
fn comments_are_never_parsed_or_overwritten() {
    let cases: [(&str, &str, &str, &str); 7] = [
        ("toml", "[sap]\n# password = \"COMMENTED\"\npassword = \"old\" # keep me\n", "sap.password", "\"old\""),
        ("ini", "[sap]\n; password = COMMENTED\npassword = old ; keep me\n", "sap.password", "old ;"),
        ("properties", "# password=COMMENTED\npassword=old # keep me\n", "password", "old #"),
        ("hcl", "// password = \"COMMENTED\"\npassword = \"old\" // keep me\n", "password", "\"old\""),
        ("env", "# PASSWORD=COMMENTED\nPASSWORD=old # keep me\n", "PASSWORD", "old #"),
        ("yaml", "sap:\n  # password: COMMENTED\n  password: old # keep me\n", "sap.password", "old #"),
        (
            "json",
            "{\n  // \"password\": \"COMMENTED\",\n  /* \"password\": \"COMMENTED\" */\n  \"password\": \"old\", // keep me\n  \"user\": \"JDOE\"\n}\n",
            "password",
            "\"old\"",
        ),
    ];
    for (format, original, key, old_pair) in cases {
        let path = format!("C:/x/comments.{format}");
        let (vault, file) = setup(&path, &[(key, "e1")], &[("e1", "PRD", "new#value!1")]);
        let analysis = analyze_for_sync(&file.path, &Ok(original.to_string()));
        assert_eq!(analysis.format, format);
        assert!(
            !analysis.values.iter().any(|value| value.value.contains("COMMENTED")),
            "{format}: 注释被当成了值 {:?}",
            analysis.values
        );
        assert_eq!(analysis.value(key).map(|value| value.value.as_str()), Some("old"), "{format}: 真实值没解析出来");
        let (updated, outcome) = sync_text(&vault, &file, original).unwrap();
        assert!(outcome.changed, "{format}: 应当写入");
        assert!(updated.contains("COMMENTED"), "{format}: 注释被删掉了\n{updated}");
        assert!(updated.contains("keep me"), "{format}: 行尾注释被删掉了\n{updated}");
        assert!(!updated.contains(old_pair), "{format}: 旧值没被替换\n{updated}");
        assert!(updated.contains("new") && updated.contains("value!1"), "{format}: 新密码没写进去\n{updated}");
    }
}
