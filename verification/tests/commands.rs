use sapvault::commands::{
    app_bootstrap, category_create, category_delete, category_rename, copy_notice, copy_password,
    copy_sap_credentials, copy_text, copy_username, entry_delete, entry_save, entry_toggle_favorite, file_add,
    file_bind, file_preview, file_reanalyze, file_remove, file_update_keys, forbidden_reuse, history_add,
    history_clear, history_remove, inspect_file, knox_set, launch_for, mark_used, repeated_system_ids, sap_gui_status,
    link_target, sap_export_shortcut, sap_launch, vault_change_password, vault_mode_for, BindingInput, EntryInput, FileDraft,
};
use sapvault::model::KeyMapping;
use sapvault::saplogon;
use sapvault::state::AppState;
use sapvault::store::{create_password_envelope, Settings, VaultMode};
use sapvault::sync::analyze_for_sync;
use sapvault::error::AppError;
use sapvault::model::{PasswordRule, SapLaunch, Vault, DEFAULT_CATEGORY_ID, SAP_CATEGORY_ID};

fn input(title: &str, password: &str) -> EntryInput {
    EntryInput {
        id: None,
        title: title.to_string(),
        category_id: SAP_CATEGORY_ID.to_string(),
        username: "JDOE".to_string(),
        use_knox_id: false,
        password: password.to_string(),
        notes: String::new(),
        favorite: false,
        rule: None,
        history_cycle: 0,
        force: false,
        sap: None,
    }
}

fn vault_with_entry(password: &str) -> (Vault, String) {
    let mut vault = Vault::default();
    let i = entry_save(&mut vault, &input(" PRD ", password)).unwrap();
    let id = vault.entries[i].id.clone();
    (vault, id)
}

#[test]
fn knox_id_is_trimmed() {
    let mut vault = Vault::default();
    knox_set(&mut vault, "  KNOX01 ");
    assert_eq!(vault.knox_id, "KNOX01");
}

#[test]
fn categories_are_added_after_the_others_and_names_stay_unique() {
    let mut vault = Vault::default();
    category_create(&mut vault, " 财务 ").unwrap();
    let added = vault.categories.last().unwrap();
    assert_eq!(added.name, "财务");
    assert!(!added.builtin);
    let top = vault.categories[..vault.categories.len() - 1].iter().map(|c| c.sort).max().unwrap();
    assert_eq!(added.sort, top + 1);
    assert!(matches!(category_create(&mut vault, "财务"), Err(AppError::Msg(m)) if m == "分类「财务」已存在"));
    assert!(matches!(category_create(&mut vault, "   "), Err(AppError::Msg(m)) if m == "分类名称不能为空"));
}

#[test]
fn the_sap_category_is_fixed() {
    let mut vault = Vault::default();
    assert!(matches!(category_rename(&mut vault, SAP_CATEGORY_ID, "x"), Err(AppError::Msg(_))));
    assert!(matches!(category_delete(&mut vault, SAP_CATEGORY_ID), Err(AppError::Msg(m)) if m == "SAP 分类是固定分类，不能删除"));
    assert!(matches!(category_delete(&mut vault, DEFAULT_CATEGORY_ID), Err(AppError::Msg(m)) if m == "默认分类不能删除"));
    assert!(matches!(category_rename(&mut vault, "nope", "x"), Err(AppError::NotFound(_))));
    category_rename(&mut vault, DEFAULT_CATEGORY_ID, " 其他 ").unwrap();
    assert_eq!(vault.categories.iter().find(|c| c.id == DEFAULT_CATEGORY_ID).unwrap().name, "其他");
}

#[test]
fn deleting_a_category_moves_its_entries_to_the_general_one() {
    let mut vault = Vault::default();
    category_create(&mut vault, "临时").unwrap();
    let id = vault.categories.last().unwrap().id.clone();
    let mut form = input("T", "pw");
    form.category_id = id.clone();
    let i = entry_save(&mut vault, &form).unwrap();
    category_delete(&mut vault, &id).unwrap();
    assert!(vault.categories.iter().all(|c| c.id != id));
    assert_eq!(vault.entries[i].category_id, DEFAULT_CATEGORY_ID);
}

#[test]
fn entries_are_created_updated_and_deleted() {
    let (mut vault, id) = vault_with_entry("first");
    assert_eq!(vault.entries[0].title, "PRD");
    assert!(vault.entries[0].password_history.is_empty());
    let mut form = input("PRD", "second");
    form.id = Some(id.clone());
    assert_eq!(entry_save(&mut vault, &form).unwrap(), 0);
    assert_eq!(vault.entries.len(), 1);
    assert_eq!(vault.entries[0].password, "second");
    assert_eq!(vault.entries[0].password_history[0].password, "first");
    assert!(vault.entries[0].password_history[0].automatic);
    entry_toggle_favorite(&mut vault, &id).unwrap();
    assert!(vault.entries[0].favorite);
    entry_delete(&mut vault, &id).unwrap();
    assert!(vault.entries.is_empty());
    assert!(matches!(entry_delete(&mut vault, &id), Err(AppError::NotFound(_))));
}

#[test]
fn saving_is_refused_without_a_title_or_with_an_unknown_category() {
    let mut vault = Vault::default();
    assert!(matches!(entry_save(&mut vault, &input("  ", "pw")), Err(AppError::Msg(m)) if m == "标题不能为空"));
    let mut form = input("X", "pw");
    form.category_id = "missing".to_string();
    assert!(matches!(entry_save(&mut vault, &form), Err(AppError::NotFound(_))));
    let mut form = input("X", "pw");
    form.id = Some("missing".to_string());
    assert!(matches!(entry_save(&mut vault, &form), Err(AppError::NotFound(_))));
    assert!(vault.entries.is_empty());
}

#[test]
fn a_password_that_breaks_the_rule_needs_force() {
    let mut vault = Vault::default();
    let mut form = input("X", "abc");
    form.rule = Some(PasswordRule::default());
    match entry_save(&mut vault, &form) {
        Err(AppError::Validation(kind, _, problems)) => {
            assert_eq!(kind, "password-rule");
            assert!(!problems.is_empty());
        },
        other => panic!("expected a rule violation, got {other:?}"),
    }
    form.force = true;
    assert!(entry_save(&mut vault, &form).is_ok());
}

#[test]
fn a_reused_password_is_caught_by_the_cycle() {
    let (mut vault, id) = vault_with_entry("first");
    let mut form = input("PRD", "second");
    form.id = Some(id.clone());
    entry_save(&mut vault, &form).unwrap();
    form.password = "first".to_string();
    form.history_cycle = 3;
    match entry_save(&mut vault, &form) {
        Err(AppError::Validation(kind, message, problems)) => {
            assert_eq!(kind, "password-cycle");
            assert_eq!(message, "密码与历史密码重复");
            assert_eq!(problems, vec!["该密码在最近 3 次维护中使用过，系统通常会拒绝重复".to_string()]);
        },
        other => panic!("expected a cycle violation, got {other:?}"),
    }
    assert_eq!(vault.entries[0].password, "second");
}

#[test]
fn the_cycle_forbids_the_current_and_the_newest_passwords() {
    let (mut vault, id) = vault_with_entry("p1");
    for next in ["p2", "p3", "p4"] {
        let mut form = input("PRD", next);
        form.id = Some(id.clone());
        entry_save(&mut vault, &form).unwrap();
    }
    let mut entry = vault.entries[0].clone();
    entry.history_cycle = 3;
    assert_eq!(forbidden_reuse(&entry, "p4"), vec!["p4", "p3", "p2"]);
    entry.history_cycle = 0;
    assert!(forbidden_reuse(&entry, "p4").is_empty());
}

#[test]
fn sap_settings_are_normalised_and_blank_ones_dropped() {
    let mut vault = Vault::default();
    let mut form = input("X", "pw");
    form.sap = Some(SapLaunch {
        system_id: " prd ".to_string(),
        client: " 001 ".to_string(),
        language: "zh".to_string(),
        guiparm: String::new(),
        service_uuid: String::new(),
        transaction: " se80 ".to_string(),
        maximize: false,
    });
    let i = entry_save(&mut vault, &form).unwrap();
    let sap = vault.entries[i].sap.as_ref().unwrap();
    assert_eq!(sap.system_id, "PRD");
    assert_eq!(sap.client, "001");
    assert_eq!(sap.language, "ZH");
    assert_eq!(sap.transaction, "se80");
    let mut blank = input("Y", "pw");
    blank.sap = Some(SapLaunch {
        system_id: "  ".to_string(),
        client: String::new(),
        language: String::new(),
        guiparm: String::new(),
        service_uuid: String::new(),
        transaction: String::new(),
        maximize: false,
    });
    let j = entry_save(&mut vault, &blank).unwrap();
    assert!(vault.entries[j].sap.is_none());
}

#[test]
fn history_can_be_added_removed_and_cleared() {
    let (mut vault, id) = vault_with_entry("pw");
    assert!(matches!(history_add(&mut vault, &id, String::new(), None), Err(AppError::Msg(m)) if m == "历史密码不能为空"));
    history_add(&mut vault, &id, "old1".to_string(), Some("note".to_string())).unwrap();
    history_add(&mut vault, &id, "old2".to_string(), None).unwrap();
    let history = &vault.entries[0].password_history;
    assert_eq!(history[0].password, "old2");
    assert_eq!(history[1].note, "note");
    assert!(!history[0].automatic);
    let hid = history[1].id.clone();
    history_remove(&mut vault, &id, &hid).unwrap();
    assert_eq!(vault.entries[0].password_history.len(), 1);
    assert!(matches!(history_remove(&mut vault, &id, &hid), Err(AppError::NotFound(_))));
    history_clear(&mut vault, &id).unwrap();
    assert!(vault.entries[0].password_history.is_empty());
    assert!(matches!(history_clear(&mut vault, "nope"), Err(AppError::NotFound(_))));
}


fn sap_entry(vault: &mut Vault, password: &str, mode_user: &str) -> String {
    let mut form = input("PRD", password);
    form.username = mode_user.to_string();
    form.sap = Some(SapLaunch {
        system_id: "PRD".to_string(),
        client: "1".to_string(),
        language: String::new(),
        guiparm: String::new(),
        service_uuid: String::new(),
        transaction: "se80".to_string(),
        maximize: false,
    });
    let i = entry_save(vault, &form).unwrap();
    vault.entries[i].id.clone()
}

fn logon_system() -> saplogon::SapSystem {
    saplogon::SapSystem {
        service_uuid: "s-prd".to_string(),
        name: "PRD 生产机".to_string(),
        system_id: "PRD".to_string(),
        kind: "applicationServer".to_string(),
        guiparm: "/H/sap-prd.example/S/3200".to_string(),
        language: "ZH".to_string(),
        ..Default::default()
    }
}

#[test]
fn copies_need_something_to_copy() {
    let (mut vault, id) = vault_with_entry("S3cret!");
    assert_eq!(copy_password(&vault, &id).unwrap(), "S3cret!");
    assert_eq!(copy_username(&vault, &id).unwrap(), "JDOE");
    assert_eq!(copy_sap_credentials(&vault, &id, "\r\n").unwrap(), "JDOE\r\nS3cret!");
    vault.knox_id = "KNOX01".to_string();
    vault.entries[0].use_knox_id = true;
    assert_eq!(copy_username(&vault, &id).unwrap(), "KNOX01");
    vault.entries[0].password.clear();
    assert!(matches!(copy_password(&vault, &id), Err(AppError::Msg(m)) if m == "该条目没有保存密码"));
    assert!(matches!(copy_sap_credentials(&vault, &id, "\n"), Err(AppError::Msg(_))));
    assert!(matches!(copy_password(&vault, "nope"), Err(AppError::NotFound(_))));
    assert_eq!(copy_text("x", Some("历史密码".to_string())).unwrap(), "历史密码已复制");
    assert_eq!(copy_text("x", None).unwrap(), "内容已复制");
    assert!(copy_text("", None).is_err());
    assert_eq!(copy_notice("密码已复制", 30), "密码已复制（30 秒后自动清空）");
    assert_eq!(copy_notice("密码已复制", 0), "密码已复制");
}

#[test]
fn marking_an_entry_as_used_stamps_it() {
    let (mut vault, id) = vault_with_entry("pw");
    assert!(vault.entries[0].last_used_at.is_none());
    mark_used(&mut vault, &id).unwrap();
    assert!(vault.entries[0].last_used_at.is_some());
    assert!(mark_used(&mut vault, "nope").is_err());
}

#[test]
fn clipboard_mode_keeps_the_password_off_the_command_line() {
    let mut vault = Vault::default();
    let id = sap_entry(&mut vault, "S3cret!", "USER01");
    let step = sap_launch(&vault, &[logon_system()], &id, "clipboard", Some("C:/SAP/sapshcut.exe".to_string()), 30).unwrap();
    assert_eq!(step.outcome.mode, "clipboard");
    assert!(!step.outcome.password_on_command_line);
    assert!(step.arguments.iter().all(|a| !a.starts_with("-pw=")));
    assert!(step.arguments.contains(&"-guiparm=/H/sap-prd.example/S/3200".to_string()));
    assert!(step.arguments.contains(&"-language=ZH".to_string()));
    assert!(step.arguments.contains(&"-client=001".to_string()));
    assert_eq!(step.clipboard_password.as_deref(), Some("S3cret!"));
    assert_eq!(step.outcome.clipboard_seconds, 30);
    assert_eq!(step.outcome.message, "已启动 SAP GUI（用户名已填好），密码已复制，登录界面出现后按 Ctrl+V 即可");
}

#[test]
fn command_line_mode_masks_the_password_in_the_outcome() {
    let mut vault = Vault::default();
    let id = sap_entry(&mut vault, "S3cret!", "USER01");
    let step = sap_launch(&vault, &[], &id, "commandLine", Some("sapshcut.exe".to_string()), 30).unwrap();
    assert!(step.outcome.password_on_command_line);
    assert!(step.arguments.contains(&"-pw=S3cret!".to_string()));
    assert!(step.outcome.arguments.contains(&"-pw=***".to_string()));
    assert!(step.clipboard_password.is_none());
    assert_eq!(step.outcome.clipboard_seconds, 0);
    // Any other mode behaves like the clipboard mode.
    let other = sap_launch(&vault, &[], &id, "weird", Some("sapshcut.exe".to_string()), 30).unwrap();
    assert_eq!(other.outcome.mode, "clipboard");
    assert!(!other.outcome.password_on_command_line);
}

#[test]
fn launching_needs_sap_settings_and_sapshcut() {
    let (vault, id) = vault_with_entry("pw");
    assert!(matches!(launch_for(&vault, &[], &id), Err(AppError::Msg(m)) if m == "这个条目还没有配置 SAP 登录信息"));
    let mut vault = Vault::default();
    let id = sap_entry(&mut vault, "", "USER01");
    assert!(matches!(sap_launch(&vault, &[], &id, "clipboard", None, 30), Err(AppError::Msg(m)) if m.starts_with("没有找到 sapshcut.exe")));
    let step = sap_launch(&vault, &[], &id, "clipboard", Some("x".to_string()), 30).unwrap();
    assert_eq!(step.outcome.message, "已启动 SAP GUI（该条目没有保存密码）");
}

#[test]
fn sap_gui_status_lists_repeated_ids() {
    let mut second = logon_system();
    second.service_uuid = "s-prd2".to_string();
    second.system_id = "prd".to_string();
    let mut dev = logon_system();
    dev.system_id = "DEV".to_string();
    let systems = vec![logon_system(), second, dev];
    assert_eq!(repeated_system_ids(&systems), vec!["PRD".to_string(), "prd".to_string()]);
    let status = sap_gui_status(&systems, None, vec![], vec!["a.xml".to_string()], "clipboard".to_string());
    assert_eq!(status.system_count, 3);
    assert_eq!(status.landscape_files, vec!["a.xml".to_string()]);
}

#[test]
fn content_files_are_added_bound_and_removed() {
    let text = "{\"sap\": {\"password\": \"x\"}}";
    let (mut vault, id) = vault_with_entry("pw");
    let drafts = vec![
        FileDraft { path: " C:/x/a.json ".to_string(), keys: None },
        FileDraft { path: "   ".to_string(), keys: None },
        FileDraft { path: "c:/X/A.JSON".to_string(), keys: Some(KeyMapping::default()) },
    ];
    let loaded = vec![Ok(text.to_string()), Err("unused".to_string()), Ok(text.to_string())];
    file_add(&mut vault, &drafts, &KeyMapping::default(), &loaded);
    assert_eq!(vault.files.len(), 1);
    assert_eq!(vault.files[0].path, "C:/x/a.json");
    assert_eq!(vault.files[0].label, "a.json");
    let file_id = vault.files[0].id.clone();
    let analysis = analyze_for_sync("C:/x/a.json", &Ok(text.to_string()));
    let requests = vec![
        BindingInput { key_path: " sap.password ".to_string(), entry_id: id.clone() },
        BindingInput { key_path: "sap.password".to_string(), entry_id: id.clone() },
        BindingInput { key_path: "sap.gone".to_string(), entry_id: id.clone() },
        BindingInput { key_path: "sap.password".to_string(), entry_id: "nobody".to_string() },
    ];
    file_bind(&mut vault, &file_id, &requests, &analysis).unwrap();
    assert_eq!(vault.files[0].bindings.len(), 1);
    assert_eq!(vault.files[0].bindings[0].key_path, "sap.password");
    let kept = vault.files[0].bindings[0].id.clone();
    file_bind(&mut vault, &file_id, &requests, &analysis).unwrap();
    assert_eq!(vault.files[0].bindings[0].id, kept, "an existing binding keeps its id");
    file_update_keys(&mut vault, &file_id, KeyMapping { password: vec![], ..KeyMapping::default() }, Ok(text.to_string())).unwrap();
    assert!(!vault.files[0].keys.password.is_empty());
    file_reanalyze(&mut vault, &file_id, Err("拒绝访问".to_string())).unwrap();
    assert_eq!(vault.files[0].analysis.as_ref().unwrap().error.as_deref(), Some("拒绝访问"));
    assert!(matches!(file_bind(&mut vault, "nope", &requests, &analysis), Err(AppError::NotFound(_))));
    file_remove(&mut vault, &file_id).unwrap();
    assert!(vault.files.is_empty());
    assert!(matches!(file_remove(&mut vault, &file_id), Err(AppError::NotFound(m)) if m.starts_with("同步文件")));
}

#[test]
fn inspecting_and_previewing_a_file() {
    let inspection = inspect_file(" C:/x/app.env ", KeyMapping::default(), Ok("PASSWORD=x\n".to_string()), true, 11);
    assert_eq!(inspection.path, "C:/x/app.env");
    assert_eq!(inspection.label, "app.env");
    assert_eq!(inspection.format, "env");
    assert!(inspection.supported);
    assert_eq!(inspection.size, 11);
    let bytes = vec![b'a'; 500];
    let preview = file_preview(" p ", &bytes, 500, Some(10));
    assert!(preview.truncated);
    assert_eq!(preview.content.len(), 200);
    let whole = file_preview("p", &bytes, 500, None);
    assert!(!whole.truncated);
    assert_eq!(whole.content.len(), 500);
}

#[test]
fn creating_and_rekeying_a_vault() {
    assert!(matches!(vault_mode_for(true, "password"), Err(AppError::VaultExists)));
    assert_eq!(vault_mode_for(false, "windows").unwrap(), VaultMode::Windows);
    assert_eq!(vault_mode_for(false, "password").unwrap(), VaultMode::Password);
    assert!(matches!(vault_mode_for(false, "cloud"), Err(AppError::Msg(m)) if m == "未知的保险库模式：cloud"));
    let empty = AppState::new(Settings::default(), None, None, 0);
    assert!(matches!(vault_change_password(&empty, Some("correct horse"), "new password"), Err(AppError::NoVault)));
    let envelope = create_password_envelope(Some("correct horse"), "", b"{}").unwrap();
    let state = AppState::new(Settings::default(), Some(envelope), None, 0);
    assert!(vault_change_password(&state, Some("correct horse"), "short").is_err());
    let (_, params) = vault_change_password(&state, Some("correct horse"), "new password").unwrap();
    assert_eq!(params.m_cost, 19456);
    let boot = app_bootstrap(&state, "D:/d".to_string(), "D:/d/vault.sapvault".to_string(), false, vec![], "1.2.1".to_string());
    assert!(boot.has_vault);
    assert_eq!(boot.mode.as_deref(), Some("password"));
    assert!(!boot.unlocked);
}

#[test]
fn a_shortcut_names_the_logon_entry_and_never_holds_the_password() {
    let mut vault = Vault::default();
    let id = sap_entry(&mut vault, "S3cret!", "USER01");
    let text = sap_export_shortcut(&vault, &[logon_system()], &id, "C:/out/prd.sap", "C:/Docs/SAP/SAP GUI").unwrap();
    assert!(text.contains("Description=PRD 生产机"));
    assert!(text.contains("SystemID=PRD"));
    assert!(text.contains("Client=001"));
    assert!(!text.contains("S3cret!"));
    let plain = sap_export_shortcut(&vault, &[], &id, "C:/out/prd.sap", "").unwrap();
    assert!(plain.contains("Description=PRD"));
    assert!(matches!(
        sap_export_shortcut(&vault, &[], &id, "   ", ""),
        Err(AppError::Msg(m)) if m == "请选择快捷方式的保存位置"
    ));
    assert!(matches!(sap_export_shortcut(&vault, &[], "nope", "x.sap", ""), Err(AppError::NotFound(_))));
}

#[test]
fn only_web_and_mail_links_are_opened() {
    assert_eq!(link_target("  https://sap.example/x  ").as_deref(), Some("https://sap.example/x"));
    assert_eq!(link_target("HTTP://a").as_deref(), Some("HTTP://a"));
    assert_eq!(link_target("mailto:a@b.c").as_deref(), Some("mailto:a@b.c"));
    assert!(link_target("file:///C:/Windows/system32/calc.exe").is_none());
    assert!(link_target("cmd /c calc").is_none());
    assert!(link_target("https://a\u{7}b").is_none());
    assert!(link_target("https://a\u{85}b").is_none());
}

#[test]
fn an_empty_password_on_edit_keeps_the_stored_one() {
    let (mut vault, id) = vault_with_entry("old");
    let mut form = input("T", "");
    form.id = Some(id.clone());
    let i = entry_save(&mut vault, &form).unwrap();
    assert_eq!(vault.entries[i].password, "old");
    assert!(vault.entries[i].password_history.is_empty());
    assert_eq!(vault.entries[i].title, "T");
    let mut form = input("T", "new");
    form.id = Some(id);
    let i = entry_save(&mut vault, &form).unwrap();
    assert_eq!(vault.entries[i].password, "new");
    assert_eq!(vault.entries[i].password_history[0].password, "old");
}
