//! What the running application holds: the open vault (if any), the
//! envelope on disk, the settings and the time of the last activity.
//!
//! Time is a count of seconds on a monotonic clock that the caller reads;
//! the caller also serialises access (the state sits behind one lock).

use vstd::prelude::*;
use zeroize::Zeroize;
use crate::crypto::{KdfParams, KEY_LEN};
use crate::error::AppError;
use crate::model::{KeyMapping, PasswordRule, Vault, strings_view};
use crate::store::{Settings, VaultEnvelope};

verus! {

// ---------------------------------------------------------------------------
// Copies whose contents are stated
// ---------------------------------------------------------------------------

pub fn copy_strings(v: &Vec<String>) -> (r: Vec<String>)
    ensures
        r@ == v@,
{
    let mut r: Vec<String> = Vec::new();
    let mut i: usize = 0;
    while i < v.len()
        invariant
            i <= v.len(),
            r@ == v@.take(i as int),
        decreases v.len() - i,
    {
        r.push(v[i].clone());
        i += 1;
        assert(r@ =~= v@.take(i as int));
    }
    assert(v@.take(v.len() as int) =~= v@);
    r
}

pub fn copy_opt_string(s: &Option<String>) -> (r: Option<String>)
    ensures
        r == *s,
{
    match s {
        Some(x) => Some(x.clone()),
        None => None,
    }
}

/// Two key mappings with the same key words and flags.
pub open spec fn mapping_eq(a: KeyMapping, b: KeyMapping) -> bool {
    &&& a.url@ == b.url@
    &&& a.username@ == b.username@
    &&& a.password@ == b.password@
    &&& a.ignore_case == b.ignore_case
    &&& a.exact == b.exact
}

/// Two settings with the same values.
pub open spec fn settings_eq(a: Settings, b: Settings) -> bool {
    &&& a.theme == b.theme
    &&& a.clipboard_clear_seconds == b.clipboard_clear_seconds
    &&& a.auto_lock_minutes == b.auto_lock_minutes
    &&& a.lock_on_session_lock == b.lock_on_session_lock
    &&& a.sap_line_separator == b.sap_line_separator
    &&& a.mask_passwords == b.mask_passwords
    &&& a.confirm_delete == b.confirm_delete
    &&& mapping_eq(a.key_mapping, b.key_mapping)
    &&& a.default_rule == b.default_rule
    &&& a.last_category == b.last_category
}

pub fn copy_mapping(k: &KeyMapping) -> (r: KeyMapping)
    ensures
        mapping_eq(r, *k),
{
    KeyMapping {
        url: copy_strings(&k.url),
        username: copy_strings(&k.username),
        password: copy_strings(&k.password),
        ignore_case: k.ignore_case,
        exact: k.exact,
    }
}

pub fn copy_rule(r: &PasswordRule) -> (c: PasswordRule)
    ensures
        c == *r,
{
    PasswordRule {
        enabled: r.enabled,
        min_length: r.min_length,
        max_length: r.max_length,
        upper: r.upper,
        lower: r.lower,
        digits: r.digits,
        symbols: r.symbols,
        symbols_set: r.symbols_set.clone(),
        forbidden: r.forbidden.clone(),
        start_with_letter: r.start_with_letter,
        avoid_ambiguous: r.avoid_ambiguous,
    }
}

pub fn copy_settings(s: &Settings) -> (r: Settings)
    ensures
        settings_eq(r, *s),
{
    Settings {
        theme: s.theme.clone(),
        clipboard_clear_seconds: s.clipboard_clear_seconds,
        auto_lock_minutes: s.auto_lock_minutes,
        lock_on_session_lock: s.lock_on_session_lock,
        sap_line_separator: s.sap_line_separator.clone(),
        mask_passwords: s.mask_passwords,
        confirm_delete: s.confirm_delete,
        key_mapping: copy_mapping(&s.key_mapping),
        default_rule: match &s.default_rule {
            Some(x) => Some(copy_rule(x)),
            None => None,
        },
        last_category: s.last_category.clone(),
    }
}

pub fn copy_kdf(p: &KdfParams) -> (r: KdfParams)
    ensures
        r == *p,
{
    KdfParams { algo: p.algo.clone(), m_cost: p.m_cost, t_cost: p.t_cost, p_cost: p.p_cost, salt: p.salt.clone() }
}

pub fn copy_envelope(e: &VaultEnvelope) -> (r: VaultEnvelope)
    ensures
        r == *e,
{
    VaultEnvelope {
        format: e.format.clone(),
        version: e.version,
        mode: e.mode,
        kdf: match &e.kdf {
            Some(k) => Some(copy_kdf(k)),
            None => None,
        },
        sealed_key: copy_opt_string(&e.sealed_key),
        nonce: e.nonce.clone(),
        ciphertext: e.ciphertext.clone(),
        hint: e.hint.clone(),
        updated_at: e.updated_at.clone(),
    }
}

// ---------------------------------------------------------------------------
// The open vault
// ---------------------------------------------------------------------------

/// `Zeroize::zeroize` on the key: every byte is overwritten with 0 by a
/// volatile write.
#[verifier::external_body]
fn zeroize_key(key: &mut [u8; KEY_LEN])
    ensures
        forall|i: int| 0 <= i < KEY_LEN ==> final(key)@[i] == 0,
{
    key.zeroize();
}

/// `Zeroize::zeroize` on a `String`: its bytes are overwritten with 0 and it
/// is cleared.
#[verifier::external_body]
fn zeroize_string(s: &mut String)
    ensures
        final(s)@.len() == 0,
{
    s.zeroize();
}

/// Everything that only exists while the vault is open.
pub struct Unlocked {
    pub vault: Vault,
    pub key: [u8; KEY_LEN],
}

/// No secret is left: the key is all zeros, and every password, recorded
/// password and password found in a content file is empty.
pub open spec fn wiped(u: Unlocked) -> bool {
    &&& forall|i: int| 0 <= i < KEY_LEN ==> u.key@[i] == 0
    &&& forall|i: int| 0 <= i < u.vault.entries@.len() ==> (#[trigger] u.vault.entries@[i]).password@.len() == 0
    &&& forall|i: int, j: int|
        0 <= i < u.vault.entries@.len() && 0 <= j < u.vault.entries@[i].password_history@.len() ==> (
        #[trigger] u.vault.entries@[i].password_history@[j]).password@.len() == 0
    &&& forall|i: int, j: int|
        0 <= i < u.vault.files@.len() && u.vault.files@[i].analysis is Some && 0 <= j
            < u.vault.files@[i].analysis->0.fields@.len() && u.vault.files@[i].analysis->0.fields@[j].kind@
            == "password"@ ==> (#[trigger] u.vault.files@[i].analysis->0.fields@[j]).value@.len() == 0
}

impl Unlocked {
    /// Overwrites the key and the passwords before the vault is let go.
    pub fn wipe(&mut self)
        ensures
            wiped(*final(self)),
            final(self).vault.entries@.len() == old(self).vault.entries@.len(),
            final(self).vault.files@.len() == old(self).vault.files@.len(),
    {
        zeroize_key(&mut self.key);
        let mut i: usize = 0;
        while i < self.vault.entries.len()
            invariant
                i <= self.vault.entries.len(),
                self.vault.entries@.len() == old(self).vault.entries@.len(),
                self.vault.files == old(self).vault.files,
                forall|k: int| 0 <= k < KEY_LEN ==> self.key@[k] == 0,
                forall|k: int| 0 <= k < i ==> (#[trigger] self.vault.entries@[k]).password@.len() == 0,
                forall|k: int, j: int|
                    0 <= k < i && 0 <= j < self.vault.entries@[k].password_history@.len() ==> (
                    #[trigger] self.vault.entries@[k].password_history@[j]).password@.len() == 0,
            decreases self.vault.entries.len() - i,
        {
            let ghost before = self.vault.entries@;
            let mut entry = self.vault.entries.remove(i);
            zeroize_string(&mut entry.password);
            let mut j: usize = 0;
            while j < entry.password_history.len()
                invariant
                    j <= entry.password_history.len(),
                    entry.password@.len() == 0,
                    forall|h: int| 0 <= h < j ==> (#[trigger] entry.password_history@[h]).password@.len() == 0,
                decreases entry.password_history.len() - j,
            {
                let ghost hb = entry.password_history@;
                let mut recorded = entry.password_history.remove(j);
                zeroize_string(&mut recorded.password);
                entry.password_history.insert(j, recorded);
                assert(entry.password_history@ =~= hb.update(j as int, recorded));
                j += 1;
            }
            self.vault.entries.insert(i, entry);
            assert(self.vault.entries@ =~= before.update(i as int, entry));
            i += 1;
        }
        let mut f: usize = 0;
        while f < self.vault.files.len()
            invariant
                f <= self.vault.files.len(),
                self.vault.files@.len() == old(self).vault.files@.len(),
                self.vault.entries@.len() == old(self).vault.entries@.len(),
                forall|k: int| 0 <= k < KEY_LEN ==> self.key@[k] == 0,
                forall|k: int| 0 <= k < self.vault.entries@.len() ==> (#[trigger] self.vault.entries@[k]).password@.len() == 0,
                forall|k: int, j: int|
                    0 <= k < self.vault.entries@.len() && 0 <= j < self.vault.entries@[k].password_history@.len() ==> (
                    #[trigger] self.vault.entries@[k].password_history@[j]).password@.len() == 0,
                forall|k: int, j: int|
                    0 <= k < f && self.vault.files@[k].analysis is Some && 0 <= j
                        < self.vault.files@[k].analysis->0.fields@.len()
                        && self.vault.files@[k].analysis->0.fields@[j].kind@ == "password"@ ==> (
                    #[trigger] self.vault.files@[k].analysis->0.fields@[j]).value@.len() == 0,
            decreases self.vault.files.len() - f,
        {
            let ghost before = self.vault.files@;
            let mut file = self.vault.files.remove(f);
            match file.analysis.take() {
                None => {},
                Some(mut analysis) => {
                    let mut j: usize = 0;
                    while j < analysis.fields.len()
                        invariant
                            j <= analysis.fields.len(),
                            forall|h: int|
                                0 <= h < j && analysis.fields@[h].kind@ == "password"@ ==> (
                                #[trigger] analysis.fields@[h]).value@.len() == 0,
                        decreases analysis.fields.len() - j,
                    {
                        let ghost fb = analysis.fields@;
                        let mut field = analysis.fields.remove(j);
                        if crate::text::str_eq(field.kind.as_str(), "password") {
                            zeroize_string(&mut field.value);
                        }
                        analysis.fields.insert(j, field);
                        assert(analysis.fields@ =~= fb.update(j as int, field));
                        j += 1;
                    }
                    file.analysis = Some(analysis);
                },
            }
            self.vault.files.insert(f, file);
            assert(self.vault.files@ =~= before.update(f as int, file));
            f += 1;
        }
    }
}

// ---------------------------------------------------------------------------
// The application state
// ---------------------------------------------------------------------------

pub struct AppState {
    pub unlocked: Option<Unlocked>,
    pub envelope: Option<VaultEnvelope>,
    pub settings: Settings,
    /// Seconds on the monotonic clock of the last user activity.
    pub last_activity: u64,
    /// Set when the vault file exists but could not be read: the user is
    /// shown this instead of being told there is no vault yet.
    pub startup_error: Option<String>,
}

impl AppState {
    pub fn new(settings: Settings, envelope: Option<VaultEnvelope>, startup_error: Option<String>, now: u64) -> (s: Self)
        ensures
            s.unlocked is None,
            s.envelope == envelope,
            s.settings == settings,
            s.startup_error == startup_error,
            s.last_activity == now,
    {
        AppState { unlocked: None, envelope, settings, last_activity: now, startup_error }
    }

    pub fn startup_error(&self) -> (r: Option<String>)
        ensures
            r == self.startup_error,
    {
        copy_opt_string(&self.startup_error)
    }

    /// Records user activity at `now`.
    pub fn touch(&mut self, now: u64)
        ensures
            final(self).last_activity == now,
            final(self).unlocked == old(self).unlocked,
            final(self).envelope == old(self).envelope,
            final(self).settings == old(self).settings,
    {
        self.last_activity = now;
    }

    /// Seconds since the last activity.
    pub fn idle_seconds(&self, now: u64) -> (r: u64)
        ensures
            r == (if now >= self.last_activity { now - self.last_activity } else { 0 }),
    {
        if now >= self.last_activity {
            now - self.last_activity
        } else {
            0
        }
    }

    pub fn is_unlocked(&self) -> (r: bool)
        ensures
            r == self.unlocked is Some,
    {
        self.unlocked.is_some()
    }

    pub fn has_vault(&self) -> (r: bool)
        ensures
            r == self.envelope is Some,
    {
        self.envelope.is_some()
    }

    pub fn envelope_snapshot(&self) -> (r: Option<VaultEnvelope>)
        ensures
            r == self.envelope,
    {
        match &self.envelope {
            Some(e) => Some(copy_envelope(e)),
            None => None,
        }
    }

    pub fn set_envelope(&mut self, envelope: VaultEnvelope)
        ensures
            final(self).envelope == Some(envelope),
            final(self).unlocked == old(self).unlocked,
            final(self).settings == old(self).settings,
            final(self).last_activity == old(self).last_activity,
    {
        self.envelope = Some(envelope);
    }

    pub fn settings_snapshot(&self) -> (r: Settings)
        ensures
            settings_eq(r, self.settings),
    {
        copy_settings(&self.settings)
    }

    /// Opens the vault (the one open before, if any, is wiped) and counts
    /// as activity.
    pub fn set_unlocked(&mut self, unlocked: Unlocked, now: u64)
        ensures
            final(self).unlocked == Some(unlocked),
            final(self).last_activity == now,
            final(self).envelope == old(self).envelope,
            final(self).settings == old(self).settings,
    {
        match self.unlocked.take() {
            Some(mut previous) => previous.wipe(),
            None => {},
        }
        self.unlocked = Some(unlocked);
        self.touch(now);
    }

    /// Closes the vault, wiping the key and the passwords; `true` when a
    /// vault was open.
    pub fn lock(&mut self) -> (r: bool)
        ensures
            r == old(self).unlocked is Some,
            final(self).unlocked is None,
            final(self).envelope == old(self).envelope,
            final(self).settings == old(self).settings,
            final(self).last_activity == old(self).last_activity,
    {
        match self.unlocked.take() {
            Some(mut open) => {
                open.wipe();
                true
            },
            None => false,
        }
    }

    /// Stamps the open vault with `now` as a change begins; `Locked` when no
    /// vault is open.
    pub fn begin_change(&mut self, now: String) -> (r: Result<(), AppError>)
        ensures
            match old(self).unlocked {
                None => r matches Err(AppError::Locked) && *final(self) == *old(self),
                Some(u) => r is Ok && final(self).unlocked == Some(
                    Unlocked { vault: Vault { updated_at: now, ..u.vault }, ..u },
                ),
            },
            final(self).envelope == old(self).envelope,
            final(self).settings == old(self).settings,
            final(self).last_activity == old(self).last_activity,
            final(self).startup_error == old(self).startup_error,
    {
        match &mut self.unlocked {
            None => Err(AppError::Locked),
            Some(u) => {
                u.vault.updated_at = now;
                Ok(())
            },
        }
    }

    /// Ends a change of the open vault. When it failed (the change itself,
    /// or sealing and writing the result) the vault and the envelope as they
    /// were before, `before` and `envelope`, are put back, so the copy in
    /// memory stays the one on disk; otherwise the changed vault stays open.
    pub fn end_change(&mut self, before: Vault, envelope: Option<VaultEnvelope>, failed: bool)
        ensures
            failed && old(self).unlocked is Some ==> final(self).unlocked == Some(
                Unlocked { vault: before, ..old(self).unlocked->0 },
            ) && final(self).envelope == envelope,
            !(failed && old(self).unlocked is Some) ==> final(self).unlocked == old(self).unlocked && final(self).envelope
                == old(self).envelope,
            final(self).settings == old(self).settings,
            final(self).last_activity == old(self).last_activity,
            final(self).startup_error == old(self).startup_error,
    {
        if failed {
            match &mut self.unlocked {
                None => {},
                Some(u) => {
                    u.vault = before;
                    self.envelope = envelope;
                },
            }
        }
    }

    /// The open vault, or `Locked`.
    pub fn vault(&self) -> (r: Result<&Vault, AppError>)
        ensures
            match self.unlocked {
                Some(u) => r matches Ok(v) && *v == u.vault,
                None => r matches Err(AppError::Locked),
            },
    {
        match &self.unlocked {
            Some(u) => Ok(&u.vault),
            None => Err(AppError::Locked),
        }
    }

    /// The Knox ID of the open vault, empty while it is locked.
    pub fn knox_id(&self) -> (r: String)
        ensures
            r@ == (match self.unlocked {
                Some(u) => u.vault.knox_id@,
                None => seq![],
            }),
    {
        match &self.unlocked {
            Some(u) => u.vault.knox_id.clone(),
            None => String::new(),
        }
    }

    /// Seals the open vault again with the key held in memory (`plaintext`
    /// is the vault as serialised) and stamps the envelope; the envelope is
    /// then written by the caller.
    pub fn persist_current(&mut self, plaintext: &[u8]) -> (r: Result<(), AppError>)
        ensures
            final(self).unlocked == old(self).unlocked,
            final(self).settings == old(self).settings,
            final(self).last_activity == old(self).last_activity,
            old(self).unlocked is None ==> (r matches Err(AppError::Locked) && final(self).envelope == old(self).envelope),
            old(self).unlocked is Some && old(self).envelope is None ==> (r matches Err(AppError::NoVault)
                && final(self).envelope == old(self).envelope),
            old(self).unlocked is Some && old(self).envelope is Some && plaintext@.len() <= crate::crypto::aes_plaintext_max()
                ==> (r is Ok && (final(self).envelope matches Some(env) && crate::store::holds_sealed(
                env,
                old(self).unlocked->0.key@,
                plaintext@,
            ) && env == (VaultEnvelope {
                nonce: env.nonce,
                ciphertext: env.ciphertext,
                updated_at: env.updated_at,
                ..old(self).envelope->0
            }))),
            r is Err ==> final(self).envelope == old(self).envelope,
    {
        let key = match &self.unlocked {
            None => {
                return Err(AppError::Locked);
            },
            Some(u) => u.key,
        };
        if self.envelope.is_none() {
            return Err(AppError::NoVault);
        }
        let (nonce, ciphertext) = match crate::crypto::encrypt(&key, plaintext) {
            Ok(p) => p,
            Err(e) => {
                return Err(e);
            },
        };
        match self.envelope.take() {
            Some(mut env) => {
                env.nonce = nonce;
                env.ciphertext = ciphertext;
                env.updated_at = crate::model::now_string();
                self.envelope = Some(env);
            },
            None => {},
        }
        Ok(())
    }

    /// Switches the vault to a new master password: the new key is held in
    /// memory, and the envelope gets the new KDF parameters and the vault
    /// (`plaintext`) sealed with the new key in the same write.
    pub fn rekey_with_password(&mut self, key: &[u8; KEY_LEN], params: KdfParams, plaintext: &[u8]) -> (r: Result<(), AppError>)
        ensures
            final(self).settings == old(self).settings,
            old(self).unlocked is None ==> (r matches Err(AppError::Locked) && *final(self) == *old(self)),
            old(self).unlocked is Some ==> (final(self).unlocked matches Some(u) && u.key == *key && u.vault
                == old(self).unlocked->0.vault),
            old(self).unlocked is Some && old(self).envelope is None && plaintext@.len() <= crate::crypto::aes_plaintext_max()
                ==> (r matches Err(AppError::NoVault) && final(self).envelope is None),
            old(self).unlocked is Some && old(self).envelope is Some && plaintext@.len() <= crate::crypto::aes_plaintext_max()
                ==> (r is Ok && (final(self).envelope matches Some(env) && crate::store::holds_sealed(env, key@, plaintext@)
                && env == (VaultEnvelope {
                kdf: Some(params),
                mode: crate::store::VaultMode::Password,
                sealed_key: None,
                nonce: env.nonce,
                ciphertext: env.ciphertext,
                updated_at: env.updated_at,
                ..old(self).envelope->0
            }))),
            r is Err ==> final(self).envelope == old(self).envelope,
    {
        match self.unlocked.take() {
            None => {
                return Err(AppError::Locked);
            },
            Some(mut u) => {
                u.key = *key;
                self.unlocked = Some(u);
            },
        }
        let (nonce, ciphertext) = match crate::crypto::encrypt(key, plaintext) {
            Ok(p) => p,
            Err(e) => {
                return Err(e);
            },
        };
        match self.envelope.take() {
            None => Err(AppError::NoVault),
            Some(mut env) => {
                env.kdf = Some(params);
                env.mode = crate::store::VaultMode::Password;
                env.sealed_key = None;
                env.nonce = nonce;
                env.ciphertext = ciphertext;
                env.updated_at = crate::model::now_string();
                self.envelope = Some(env);
                Ok(())
            },
        }
    }

    /// Replaces the settings with `settings` normalized (see
    /// [`Settings::normalize`]) and returns them; they are then written by
    /// the caller.
    pub fn settings_save(&mut self, settings: Settings) -> (r: Settings)
        ensures
            settings_eq(r, final(self).settings),
            final(self).unlocked == old(self).unlocked,
            final(self).envelope == old(self).envelope,
            final(self).settings.clipboard_clear_seconds == (if settings.clipboard_clear_seconds > 600 {
                600
            } else {
                settings.clipboard_clear_seconds
            }),
            final(self).settings.auto_lock_minutes == (if settings.auto_lock_minutes > 240 {
                240
            } else {
                settings.auto_lock_minutes
            }),
    {
        let mut s = settings;
        s.normalize();
        self.settings = s;
        copy_settings(&self.settings)
    }

    /// The vault is open, auto-lock is on, and the user has been idle for
    /// at least the configured number of minutes.
    pub fn auto_lock_due(&self, now: u64) -> (r: bool)
        ensures
            r == (self.settings.auto_lock_minutes != 0 && self.unlocked is Some && (if now
                >= self.last_activity {
                now - self.last_activity
            } else {
                0
            }) >= self.settings.auto_lock_minutes as u64 * 60),
    {
        let minutes = self.settings.auto_lock_minutes;
        if minutes == 0 || !self.is_unlocked() {
            return false;
        }
        self.idle_seconds(now) >= (minutes as u64) * 60
    }
}

} // verus!
