use sapvault::keys::analyze_text;
use sapvault::model::{
    Entry, FileBinding, HistoryEntry, KeyMapping, LegacyEntryLinks, LegacyLink, PasswordRule,
    SyncFile, Vault, DEFAULT_CATEGORY_ID, MAX_PASSWORD_HISTORY, SAP_CATEGORY_ID, VAULT_SCHEMA,
};
use sapvault::crypto::{derive_key, random_bytes, KEY_LEN};
use sapvault::store::{
    backup_dir, backup_name, backups_to_prune, check_envelope, corrupt_vault, create_password_envelope, create_windows_envelope, data_dir, decrypt_vault, is_portable,
    loaded_envelope, normalize_vault, portable_dir_in, settings_path, unlock_key, vault_path, Settings, UnlockStep, VaultMode, VaultRead,
    PORTABLE_DATA_DIR,
};

fn blank_entry(id: &str, category: &str) -> Entry {
    Entry {
        id: id.to_string(),
        title: id.to_string(),
        category_id: category.to_string(),
        username: String::new(),
        use_knox_id: false,
        password: String::new(),
        notes: String::new(),
        favorite: false,
        rule: None,
        history_cycle: 0,
        password_history: Vec::new(),
        sap: None,
        created_at: String::new(),
        updated_at: String::new(),
        last_used_at: None,
    }
}

#[test]
fn normalize_repairs_an_unknown_category() {
    let mut vault = Vault::default();
    vault.entries.push(blank_entry("orphan", "deleted-category"));
    vault.entries.push(blank_entry("sap-entry", SAP_CATEGORY_ID));
    normalize_vault(&mut vault);
    assert_eq!(vault.entries[0].category_id, DEFAULT_CATEGORY_ID);
    assert_eq!(vault.entries[1].category_id, SAP_CATEGORY_ID);
}

#[test]
fn normalize_caps_history_and_fills_timestamps() {
    let mut vault = Vault::default();
    let mut entry = blank_entry("sap", SAP_CATEGORY_ID);
    for index in 0..(MAX_PASSWORD_HISTORY + 20) {
        entry.password_history.push(HistoryEntry {
            id: format!("h{index}"),
            password: format!("pw{index}"),
            recorded_at: String::new(),
            note: String::new(),
            automatic: true,
        });
    }
    vault.entries.push(entry);
    normalize_vault(&mut vault);
    assert_eq!(
        vault.entries[0].password_history.len(),
        MAX_PASSWORD_HISTORY
    );
    assert!(!vault.entries[0].password_history[0].recorded_at.is_empty());
}

#[test]
fn normalize_migrates_legacy_entry_links_into_shared_files() {
    let mut vault = Vault::default();
    let mut entry = blank_entry("sap", SAP_CATEGORY_ID);
    entry.id = "sap".to_string();
    vault.entries.push(entry);
    vault.entries.push(blank_entry("second", SAP_CATEGORY_ID));
    vault.schema = 1;
    vault.legacy_links = vec![LegacyEntryLinks {
        entry_id: "sap".to_string(),
        links: vec![LegacyLink {
            path: "C:/demo/not-there.json".to_string(),
            keys: KeyMapping::default(),
        }],
    }];

    normalize_vault(&mut vault);
    assert_eq!(vault.schema, VAULT_SCHEMA);
    assert_eq!(vault.files.len(), 1);
    assert!(vault.files[0].bindings.is_empty());
    assert!(vault.legacy_links.is_empty());
}

#[test]
fn normalize_prunes_dangling_bindings() {
    let mut vault = Vault::default();
    vault.entries.push(blank_entry("sap", SAP_CATEGORY_ID));
    let keys = KeyMapping::default();
    let analysis = analyze_text("{\"a\":{\"password\":\"x\"}}", "json", &keys);
    let mut file = SyncFile::from_path("C:/demo/a.json", keys, Some(analysis));
    file.bindings = vec![
        FileBinding::new("a.password", "sap"),
        FileBinding::new("a.password", "deleted"),
        FileBinding::new("a.gone", "sap"),
    ];
    vault.files.push(file);

    normalize_vault(&mut vault);
    assert_eq!(vault.files.len(), 1);
    assert_eq!(vault.files[0].bindings.len(), 1);
    assert_eq!(vault.files[0].bindings[0].entry_id, "sap");
    assert_eq!(vault.files[0].bindings[0].key_path, "a.password");
}

#[test]
fn settings_normalize_clamps_values() {
    let mut settings = Settings {
        theme: "neon".into(),
        sap_line_separator: "\t".into(),
        clipboard_clear_seconds: 100_000,
        auto_lock_minutes: 100_000,
        key_mapping: KeyMapping {
            password: Vec::new(),
            ignore_case: true,
            exact: false,
            ..KeyMapping::default()
        },
        default_rule: Some(PasswordRule {
            min_length: 99,
            max_length: 4,
            ..PasswordRule::default()
        }),
        ..Settings::default()
    };
    settings.normalize();
    assert_eq!(settings.theme, "system");
    assert_eq!(settings.sap_line_separator, "\r\n");
    assert_eq!(settings.clipboard_clear_seconds, 600);
    assert_eq!(settings.auto_lock_minutes, 240);
    assert!(!settings.key_mapping.password.is_empty());
    let rule = settings.default_rule.unwrap();
    assert!(rule.max_length >= rule.min_length);
}

#[test]
fn portable_marker_switches_the_data_directory() {
    let dir = "C:/Apps/SapVault";
    // The shell checks for the marker file and the data folder.
    assert!(portable_dir_in(dir, false, false, '\\').is_none());
    assert_eq!(
        portable_dir_in(dir, true, false, '\\').unwrap(),
        format!("{dir}\\{PORTABLE_DATA_DIR}")
    );
    // An existing data folder is a marker on its own.
    assert_eq!(
        portable_dir_in(dir, false, true, '/').unwrap(),
        format!("{dir}/{PORTABLE_DATA_DIR}")
    );
    // A trailing separator is not doubled.
    assert_eq!(portable_dir_in("C:\\Apps\\", true, false, '\\').unwrap(), "C:\\Apps\\SapVaultData");
}

#[test]
fn data_dir_lives_under_an_expected_folder_name() {
    let dir = data_dir(None, std::path::MAIN_SEPARATOR);
    let name = std::path::Path::new(&dir)
        .file_name()
        .unwrap_or_default()
        .to_string_lossy()
        .to_string();
    assert!(
        name == "SapVault" || name == PORTABLE_DATA_DIR,
        "unexpected data directory: {dir:?}"
    );
    assert_eq!(data_dir(Some("D:/x/SapVaultData".to_string()), '\\'), "D:/x/SapVaultData");
}

#[test]
fn normalize_sorts_categories_and_drops_repeated_paths() {
    let mut vault = Vault::default();
    vault.categories.reverse();
    let keys = KeyMapping::default();
    vault.files.push(SyncFile::from_path("C:/Demo/A.json", keys.clone(), None));
    vault.files.push(SyncFile::from_path("c:/demo/a.JSON", keys, None));
    normalize_vault(&mut vault);
    assert_eq!(vault.categories[0].id, SAP_CATEGORY_ID);
    assert_eq!(vault.categories[1].id, DEFAULT_CATEGORY_ID);
    assert_eq!(vault.files.len(), 1);
    assert_eq!(vault.files[0].path, "C:/Demo/A.json");
    assert_eq!(vault.files[0].label, "A.json");
}

/// The serialised form of a default vault, as the application writes it.
fn default_vault_bytes() -> Vec<u8> {
    let vault = Vault::default();
    let categories: Vec<String> = vault.categories.iter().map(|c| format!("{{\"id\":\"{}\",\"name\":\"{}\"}}", c.id, c.name)).collect();
    format!("{{\"schema\":{},\"knoxId\":\"\",\"categories\":[{}],\"entries\":[]}}", vault.schema, categories.join(",")).into_bytes()
}

fn read_back(bytes: &[u8]) -> serde_json::Value {
    serde_json::from_slice(bytes).unwrap()
}

#[test]
fn password_mode_round_trip() {
    let plaintext = default_vault_bytes();
    let envelope = create_password_envelope(Some("correct horse"), "提示", &plaintext).unwrap();
    let key = match unlock_key(&envelope, Some("correct horse")).unwrap() {
        UnlockStep::Key(key) => key,
        UnlockStep::Unseal(_) => panic!("a password vault derives its key"),
    };
    let restored = read_back(&decrypt_vault(&envelope, &key).unwrap());
    assert_eq!(restored["categories"].as_array().unwrap().len(), 2);
    assert_eq!(restored["schema"].as_u64().unwrap(), VAULT_SCHEMA as u64);
    let wrong = match unlock_key(&envelope, Some("wrong password")).unwrap() {
        UnlockStep::Key(key) => key,
        UnlockStep::Unseal(_) => panic!("a password vault derives its key"),
    };
    assert!(decrypt_vault(&envelope, &wrong).is_err());
}

#[test]
fn password_mode_matches_its_stored_salt() {
    let plaintext = default_vault_bytes();
    let envelope = create_password_envelope(Some("a-long-password"), "", &plaintext).unwrap();
    let params = envelope.kdf.as_ref().unwrap();
    let rederived = derive_key("a-long-password", params).unwrap();
    let from_unlock = match unlock_key(&envelope, Some("a-long-password")).unwrap() {
        UnlockStep::Key(key) => key,
        UnlockStep::Unseal(_) => panic!("a password vault derives its key"),
    };
    assert_eq!(rederived, from_unlock);
    assert!(decrypt_vault(&envelope, &rederived).is_ok());
}

#[test]
fn short_or_missing_password_is_rejected() {
    let plaintext = default_vault_bytes();
    assert!(create_password_envelope(Some("short"), "", &plaintext).is_err());
    assert!(create_password_envelope(None, "", &plaintext).is_err());
}

#[test]
fn windows_envelope_keeps_the_sealed_key_and_opens_with_the_vault_key() {
    let plaintext = default_vault_bytes();
    let key = random_bytes::<KEY_LEN>();
    let envelope = create_windows_envelope(&key, "c2VhbGVk".to_string(), "", &plaintext).unwrap();
    assert_eq!(envelope.mode, VaultMode::Windows);
    assert!(envelope.kdf.is_none());
    match unlock_key(&envelope, None).unwrap() {
        UnlockStep::Unseal(sealed) => assert_eq!(sealed, "c2VhbGVk"),
        UnlockStep::Key(_) => panic!("a Windows vault is unsealed by the account"),
    }
    assert_eq!(decrypt_vault(&envelope, &key).unwrap(), plaintext);
}

#[test]
fn a_password_envelope_needs_its_kdf_parameters() {
    let plaintext = default_vault_bytes();
    let mut envelope = create_password_envelope(Some("correct horse"), "", &plaintext).unwrap();
    assert_eq!(envelope.format, "sapvault");
    assert_eq!(envelope.version, 1);
    envelope.kdf = None;
    assert!(unlock_key(&envelope, Some("correct horse")).is_err());
    let envelope = create_password_envelope(Some("correct horse"), "", &plaintext).unwrap();
    assert!(unlock_key(&envelope, None).is_err());
}

#[test]
fn storage_paths_sit_in_the_data_directory() {
    assert_eq!(vault_path("D:\\data", '\\'), "D:\\data\\vault.sapvault");
    assert_eq!(settings_path("D:\\data", '\\'), "D:\\data\\settings.json");
    assert_eq!(backup_dir("D:/data", '/'), "D:/data/backups");
    assert!(is_portable(&Some("X".to_string())));
    assert!(!is_portable(&None));
}

#[test]
fn only_the_newest_backups_are_kept() {
    let mut names: Vec<String> = (1..=12).map(|d| format!("vault-202601{:02}-120000.sapvault", d)).collect();
    names.reverse();
    names.push("notes.txt".to_string());
    names.push(".sapvault".to_string());
    let gone = backups_to_prune(&names);
    assert_eq!(gone, vec!["vault-20260101-120000.sapvault".to_string(), "vault-20260102-120000.sapvault".to_string()]);
    assert!(backups_to_prune(&names[..5].to_vec()).is_empty());
    assert_eq!(backup_name("20260101-120000"), "vault-20260101-120000.sapvault");
}

#[test]
fn foreign_or_corrupt_envelopes_are_reported() {
    let envelope = create_password_envelope(Some("correct horse"), "", b"{}").unwrap();
    assert!(check_envelope(envelope.clone()).is_ok());
    let mut foreign = envelope;
    foreign.format = "keepass".to_string();
    assert!(matches!(check_envelope(foreign), Err(sapvault::error::AppError::Msg(m)) if m == "无法识别的保险库格式：keepass"));
    assert!(matches!(corrupt_vault("D:/v", "EOF"), sapvault::error::AppError::Msg(m) if m == "保险库文件无法解析，可能已损坏（D:/v）：EOF"));
}

#[test]
fn a_normalized_vault_is_sound() {
    let mut vault = Vault::default();
    vault.categories.clear();
    vault.entries.push(blank_entry("e1", "gone"));
    vault.files.push(SyncFile::from_path("C:/x/App.env", KeyMapping::default(), None));
    vault.files.push(SyncFile::from_path("c:/X/app.ENV", KeyMapping::default(), None));
    normalize_vault(&mut vault);
    assert!(vault.categories.iter().any(|c| c.id == "sap"));
    assert!(vault.categories.iter().any(|c| c.id == "general"));
    assert!(vault.entries.iter().all(|e| vault.categories.iter().any(|c| c.id == e.category_id)));
    assert_eq!(vault.files.len(), 1);
    assert_eq!(vault.files[0].path, "C:/x/App.env");
}

#[test]
fn a_damaged_vault_never_passes_for_no_vault() {
    assert!(matches!(loaded_envelope("D:/v", VaultRead::Missing), Ok(None)));
    assert!(matches!(loaded_envelope("D:/v", VaultRead::Unreadable("denied".to_string())), Err(sapvault::error::AppError::Io(m)) if m == "denied"));
    assert!(matches!(loaded_envelope("D:/v", VaultRead::Unparsable("EOF".to_string())), Err(sapvault::error::AppError::Msg(m)) if m == "保险库文件无法解析，可能已损坏（D:/v）：EOF"));
    let envelope = create_password_envelope(Some("correct horse"), "", b"{}").unwrap();
    let back = loaded_envelope("D:/v", VaultRead::Parsed(envelope.clone())).unwrap().unwrap();
    assert_eq!(back.ciphertext, envelope.ciphertext);
    let mut foreign = envelope;
    foreign.format = "keepass".to_string();
    assert!(loaded_envelope("D:/v", VaultRead::Parsed(foreign)).is_err());
}
