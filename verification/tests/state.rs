use sapvault::error::AppError;
use sapvault::model::{Entry, HistoryEntry, Vault};
use sapvault::state::{AppState, Unlocked};
use sapvault::crypto::{derive_key, new_salt, KdfParams};
use sapvault::store::{create_password_envelope, decrypt_vault, unlock_key, Settings, UnlockStep};

fn entry_with_password(id: &str, password: &str) -> Entry {
    Entry {
        id: id.to_string(),
        title: id.to_string(),
        category_id: "sap".to_string(),
        username: "JDOE".to_string(),
        use_knox_id: false,
        password: password.to_string(),
        notes: String::new(),
        favorite: false,
        rule: None,
        history_cycle: 2,
        password_history: vec![HistoryEntry {
            id: "h1".to_string(),
            password: "older".to_string(),
            recorded_at: String::new(),
            note: String::new(),
            automatic: true,
        }],
        sap: None,
        created_at: String::new(),
        updated_at: String::new(),
        last_used_at: None,
    }
}

fn open_vault() -> Unlocked {
    let mut vault = Vault::default();
    vault.knox_id = "KNOX01".to_string();
    vault.entries.push(entry_with_password("e1", "S3cret!"));
    Unlocked { vault, key: [7u8; 32] }
}

#[test]
fn wiping_clears_the_key_and_every_password() {
    let mut unlocked = open_vault();
    unlocked.wipe();
    assert_eq!(unlocked.key, [0u8; 32]);
    assert_eq!(unlocked.vault.entries.len(), 1);
    assert!(unlocked.vault.entries[0].password.is_empty());
    assert!(unlocked.vault.entries[0].password_history[0].password.is_empty());
    assert_eq!(unlocked.vault.entries[0].username, "JDOE");
}

#[test]
fn a_new_state_is_locked() {
    let state = AppState::new(Settings::default(), None, None, 100);
    assert!(!state.is_unlocked());
    assert!(!state.has_vault());
    assert!(matches!(state.vault(), Err(AppError::Locked)));
    assert_eq!(state.knox_id(), "");
    assert_eq!(state.startup_error(), None);
}

#[test]
fn unlocking_and_locking() {
    let mut state = AppState::new(Settings::default(), None, Some("broken".to_string()), 100);
    assert_eq!(state.startup_error(), Some("broken".to_string()));
    state.set_unlocked(open_vault(), 200);
    assert!(state.is_unlocked());
    assert_eq!(state.knox_id(), "KNOX01");
    assert_eq!(state.vault().unwrap().entries.len(), 1);
    assert_eq!(state.idle_seconds(260), 60);
    assert!(state.lock());
    assert!(!state.is_unlocked());
    assert!(!state.lock());
}

#[test]
fn idle_time_never_goes_negative() {
    let mut state = AppState::new(Settings::default(), None, None, 500);
    assert_eq!(state.idle_seconds(400), 0);
    state.touch(1000);
    assert_eq!(state.idle_seconds(1042), 42);
}

#[test]
fn auto_lock_waits_for_the_configured_minutes() {
    let mut state = AppState::new(Settings::default(), None, None, 0);
    assert!(!state.auto_lock_due(10_000));
    state.set_unlocked(open_vault(), 1000);
    assert!(!state.auto_lock_due(1000 + 10 * 60 - 1));
    assert!(state.auto_lock_due(1000 + 10 * 60));
    let mut settings = Settings::default();
    settings.auto_lock_minutes = 0;
    let mut never = AppState::new(settings, None, None, 0);
    never.set_unlocked(open_vault(), 0);
    assert!(!never.auto_lock_due(1_000_000));
}

#[test]
fn snapshots_copy_the_settings() {
    let state = AppState::new(Settings::default(), None, None, 0);
    let copy = state.settings_snapshot();
    assert_eq!(copy.auto_lock_minutes, 10);
    assert_eq!(copy.sap_line_separator, "\r\n");
    assert!(state.envelope_snapshot().is_none());
}

#[test]
fn persisting_reseals_the_open_vault() {
    let envelope = create_password_envelope(Some("correct horse"), "hint", b"{\"old\":true}").unwrap();
    let key = match unlock_key(&envelope, Some("correct horse")).unwrap() {
        UnlockStep::Key(k) => k,
        UnlockStep::Unseal(_) => panic!("password vault"),
    };
    let mut state = AppState::new(Settings::default(), Some(envelope), None, 0);
    assert!(matches!(state.persist_current(b"{}"), Err(AppError::Locked)));
    state.set_unlocked(Unlocked { vault: Vault::default(), key }, 1);
    state.persist_current(b"{\"new\":true}").unwrap();
    let sealed = state.envelope_snapshot().unwrap();
    assert_eq!(sealed.hint, "hint");
    assert_eq!(decrypt_vault(&sealed, &key).unwrap(), b"{\"new\":true}");

    let params = KdfParams { salt: new_salt(), m_cost: 8, t_cost: 1, p_cost: 1, ..Default::default() };
    let new_key = derive_key("another password", &params).unwrap();
    state.rekey_with_password(&new_key, params, b"{\"rekeyed\":true}").unwrap();
    let rekeyed = state.envelope_snapshot().unwrap();
    assert_eq!(rekeyed.kdf.as_ref().unwrap().m_cost, 8);
    assert_eq!(decrypt_vault(&rekeyed, &new_key).unwrap(), b"{\"rekeyed\":true}");
    assert!(decrypt_vault(&rekeyed, &key).is_err());
    assert_eq!(state.unlocked.as_ref().unwrap().key, new_key);
}

#[test]
fn a_vault_without_envelope_cannot_be_persisted() {
    let mut state = AppState::new(Settings::default(), None, None, 0);
    state.set_unlocked(open_vault(), 0);
    assert!(matches!(state.persist_current(b"{}"), Err(AppError::NoVault)));
}

#[test]
fn saved_settings_are_normalized() {
    let mut state = AppState::new(Settings::default(), None, None, 0);
    let mut settings = Settings::default();
    settings.clipboard_clear_seconds = 100_000;
    settings.auto_lock_minutes = 999;
    settings.theme = "neon".to_string();
    let saved = state.settings_save(settings);
    assert_eq!(saved.clipboard_clear_seconds, 600);
    assert_eq!(saved.auto_lock_minutes, 240);
    assert_eq!(saved.theme, "system");
    assert_eq!(state.settings_snapshot().auto_lock_minutes, 240);
}

#[test]
fn a_failed_change_puts_the_vault_back() {
    let mut state = AppState::new(Settings::default(), None, None, 100);
    assert!(matches!(state.begin_change("now".to_string()), Err(AppError::Locked)));
    state.set_unlocked(open_vault(), 200);
    let before = state.vault().unwrap().clone();
    state.begin_change("2024-05-01T10:00:00+02:00".to_string()).unwrap();
    assert_eq!(state.vault().unwrap().updated_at, "2024-05-01T10:00:00+02:00");
    state.unlocked.as_mut().unwrap().vault.entries.clear();
    state.end_change(before.clone(), None, true);
    assert_eq!(state.vault().unwrap().entries.len(), 1);
    assert_eq!(state.vault().unwrap().updated_at, before.updated_at);

    state.begin_change("later".to_string()).unwrap();
    state.unlocked.as_mut().unwrap().vault.entries.clear();
    state.end_change(before, None, false);
    assert!(state.vault().unwrap().entries.is_empty());
    assert_eq!(state.vault().unwrap().updated_at, "later");
}
