//! Where the vault lives, how it is normalized after loading, and the
//! application settings.

use vstd::prelude::*;
use crate::crypto::{self, KdfParams, KEY_LEN, NONCE_LEN, SALT_LEN};
use crate::b64;
use crate::error::AppError;
use crate::model::{
    self, Category, Entry, HistoryEntry, KeyMapping, LegacyEntryLinks, PasswordRule, SyncFile,
    Vault, strings_view, DEFAULT_CATEGORY_ID, MAX_PASSWORD_HISTORY, SAP_CATEGORY_ID, VAULT_SCHEMA,
};
use crate::text;

verus! {

pub const ENVELOPE_FILE: &'static str = "vault.sapvault";
pub const SETTINGS_FILE: &'static str = "settings.json";
pub const ENVELOPE_FORMAT: &'static str = "sapvault";
pub const ENVELOPE_VERSION: u32 = 1;
pub const MAX_VAULT_BACKUPS: usize = 10;

/// Marker file that switches SapVault into portable mode.
pub const PORTABLE_MARKER: &'static str = "portable.txt";
/// Folder used for the vault when running in portable mode.
pub const PORTABLE_DATA_DIR: &'static str = "SapVaultData";
/// Folder inside the user's data directory otherwise.
pub const APP_DIR: &'static str = "SapVault";

#[derive(Debug, Clone, Copy, PartialEq, Eq, Structural)]
pub enum VaultMode {
    /// Master password + Argon2id.
    Password,
    /// Random key sealed with Windows DPAPI for the current Windows user.
    Windows,
}

/// The encrypted vault as stored on disk.
#[derive(Debug, Clone)]
pub struct VaultEnvelope {
    pub format: String,
    pub version: u32,
    pub mode: VaultMode,
    pub kdf: Option<KdfParams>,
    pub sealed_key: Option<String>,
    pub nonce: String,
    pub ciphertext: String,
    pub hint: String,
    pub updated_at: String,
}

#[derive(Debug, Clone)]
pub struct Settings {
    pub theme: String,
    pub clipboard_clear_seconds: u32,
    pub auto_lock_minutes: u32,
    /// Lock the vault as soon as the Windows session is locked (Win+L).
    pub lock_on_session_lock: bool,
    /// SAP GUI fills successive fields when a multi-line text is pasted, so
    /// the user name and password pair is joined with this separator.
    pub sap_line_separator: String,
    pub mask_passwords: bool,
    pub confirm_delete: bool,
    /// Default key words used when a content file is attached.
    pub key_mapping: KeyMapping,
    /// Password policy offered for new entries.
    pub default_rule: Option<PasswordRule>,
    /// The last category filter, so the window reopens where the user left.
    pub last_category: String,
}

impl Default for Settings {
    fn default() -> (s: Self)
        ensures
            s.theme@ == "system"@,
            s.clipboard_clear_seconds == 30,
            s.auto_lock_minutes == 10,
            s.lock_on_session_lock,
            s.sap_line_separator@ == "\r\n"@,
            s.mask_passwords,
            s.confirm_delete,
            s.default_rule is None,
            s.last_category@ == SAP_CATEGORY_ID@,
    {
        Settings {
            theme: "system".to_owned(),
            clipboard_clear_seconds: 30,
            auto_lock_minutes: 10,
            lock_on_session_lock: true,
            sap_line_separator: "\r\n".to_owned(),
            mask_passwords: true,
            confirm_delete: true,
            key_mapping: KeyMapping::default(),
            default_rule: None,
            last_category: SAP_CATEGORY_ID.to_owned(),
        }
    }
}

pub open spec fn known_theme(t: Seq<char>) -> bool {
    t == "system"@ || t == "light"@ || t == "dark"@
}

pub open spec fn known_separator(t: Seq<char>) -> bool {
    t == "\r\n"@ || t == "\n"@ || t == " "@
}

impl Settings {
    /// Unknown themes and separators fall back to the defaults, the clipboard
    /// delay is capped at 600 s and the auto-lock at 240 min, the key mapping
    /// and the default rule are normalized, and an empty category filter
    /// becomes the general category.
    pub fn normalize(&mut self)
        ensures
            final(self).theme@ == (if known_theme(old(self).theme@) {
                old(self).theme@
            } else {
                "system"@
            }),
            final(self).sap_line_separator@ == (if known_separator(old(self).sap_line_separator@) {
                old(self).sap_line_separator@
            } else {
                "\r\n"@
            }),
            final(self).clipboard_clear_seconds == (if old(self).clipboard_clear_seconds > 600 {
                600
            } else {
                old(self).clipboard_clear_seconds
            }),
            final(self).auto_lock_minutes == (if old(self).auto_lock_minutes > 240 {
                240
            } else {
                old(self).auto_lock_minutes
            }),
            strings_view(final(self).key_mapping.password@) == KeyMapping::normalized_list(
                strings_view(old(self).key_mapping.password@),
                model::default_password_keys(),
            ),
            strings_view(final(self).key_mapping.username@) == KeyMapping::normalized_list(
                strings_view(old(self).key_mapping.username@),
                model::default_username_keys(),
            ),
            strings_view(final(self).key_mapping.url@) == KeyMapping::normalized_list(
                strings_view(old(self).key_mapping.url@),
                model::default_url_keys(),
            ),
            match old(self).default_rule {
                Some(r) => final(self).default_rule == Some(model::normalized_spec(r)),
                None => final(self).default_rule is None,
            },
            final(self).last_category@ == (if old(self).last_category@.len() == 0 {
                DEFAULT_CATEGORY_ID@
            } else {
                old(self).last_category@
            }),
            final(self).lock_on_session_lock == old(self).lock_on_session_lock,
            final(self).mask_passwords == old(self).mask_passwords,
            final(self).confirm_delete == old(self).confirm_delete,
    {
        let t = self.theme.as_str();
        if !(text::str_eq(t, "system") || text::str_eq(t, "light") || text::str_eq(t, "dark")) {
            self.theme = "system".to_owned();
        }
        let sep = self.sap_line_separator.as_str();
        if !(text::str_eq(sep, "\r\n") || text::str_eq(sep, "\n") || text::str_eq(sep, " ")) {
            self.sap_line_separator = "\r\n".to_owned();
        }
        if self.clipboard_clear_seconds > 600 {
            self.clipboard_clear_seconds = 600;
        }
        if self.auto_lock_minutes > 240 {
            self.auto_lock_minutes = 240;
        }
        self.key_mapping.normalize();
        match &self.default_rule {
            Some(r) => {
                self.default_rule = Some(r.normalized());
            },
            None => {},
        }
        let c = text::chars_of_string(&self.last_category);
        if c.len() == 0 {
            self.last_category = DEFAULT_CATEGORY_ID.to_owned();
        }
    }
}

// ---------------------------------------------------------------------------
// Locations
// ---------------------------------------------------------------------------

/// `dir` joined with `name` as `Path::join` does it on a platform whose
/// separator is `sep`: nothing is added after a trailing separator (`/`
/// counts as one everywhere), otherwise `sep` goes between them.
pub open spec fn join_path(dir: Seq<char>, name: Seq<char>, sep: char) -> Seq<char> {
    if dir.len() == 0 {
        name
    } else if dir.last() == '/' || dir.last() == sep {
        dir + name
    } else {
        dir + seq![sep] + name
    }
}

/// The last part of `path` is the folder or file `name`: the path ends with
/// it, right after a separator unless it is all of the path.
pub open spec fn last_part_is(path: Seq<char>, name: Seq<char>, sep: char) -> bool {
    &&& path.len() >= name.len()
    &&& path.skip(path.len() - name.len()) == name
    &&& (path.len() == name.len() || path[path.len() - name.len() - 1] == sep || path[path.len() - name.len() - 1] == '/')
}

pub fn join(dir: &str, name: &str, sep: char) -> (p: String)
    ensures
        p@ == join_path(dir@, name@, sep),
        last_part_is(p@, name@, sep),
{
    let mut d = text::chars_of(dir);
    if d.len() == 0 {
        let r = name.to_owned();
        assert(r@.skip(0) =~= name@);
        return r;
    }
    let last = d[d.len() - 1];
    if !(last == '/' || last == sep) {
        d.push(sep);
    }
    text::push_str(&mut d, name);
    let r = text::string_of(&d);
    proof {
        let jp = join_path(dir@, name@, sep);
        assert(jp.skip(jp.len() - name@.len()) =~= name@);
        if dir@.last() == '/' || dir@.last() == sep {
            assert(jp[jp.len() - name@.len() - 1] == dir@[dir@.len() - 1]);
        } else {
            assert(jp[jp.len() - name@.len() - 1] == sep);
        }
        assert(r@ == jp);
        assert(jp.len() >= name@.len());
    }
    r
}

/// Portable mode: a `portable.txt` marker next to the executable, or an
/// existing `SapVaultData` folder, keeps every file beside the application.
/// `sep` is the platform's path separator.
pub fn portable_dir_in(exe_dir: &str, marker_exists: bool, data_is_dir: bool, sep: char) -> (r: Option<String>)
    ensures
        match r {
            Some(p) => (marker_exists || data_is_dir) && p@ == join_path(exe_dir@, PORTABLE_DATA_DIR@, sep) && last_part_is(
                p@,
                PORTABLE_DATA_DIR@,
                sep,
            ),
            None => !(marker_exists || data_is_dir),
        },
{
    if marker_exists || data_is_dir {
        Some(join(exe_dir, PORTABLE_DATA_DIR, sep))
    } else {
        None
    }
}

/// `dirs::data_dir()` as text. It reads the environment, so nothing is
/// claimed about the result.
#[verifier::external_body]
fn dirs_data_dir() -> Option<String> {
    dirs::data_dir().map(|p| p.to_string_lossy().into_owned())
}

/// `dirs::config_dir()` as text. It reads the environment, so nothing is
/// claimed about the result.
#[verifier::external_body]
fn dirs_config_dir() -> Option<String> {
    dirs::config_dir().map(|p| p.to_string_lossy().into_owned())
}

/// The base folder of the user's data: the data directory, else the
/// configuration directory, else the working directory.
pub open spec fn user_base(data: Option<String>, config: Option<String>) -> Seq<char> {
    match data {
        Some(d) => d@,
        None => match config {
            Some(c) => c@,
            None => "."@,
        },
    }
}

/// The folder of the vault: the portable one when there is one, otherwise
/// `SapVault` in the user's data directory (see [`user_base`]).
pub fn data_dir(portable: Option<String>, sep: char) -> (d: String)
    ensures
        portable matches Some(p) ==> d == p,
        portable is None ==> exists|data: Option<String>, config: Option<String>|
            d@ == join_path(#[trigger] user_base(data, config), APP_DIR@, sep),
        portable is None ==> last_part_is(d@, APP_DIR@, sep),
{
    match portable {
        Some(p) => p,
        None => {
            let data = dirs_data_dir();
            let config = match &data {
                Some(_) => None,
                None => dirs_config_dir(),
            };
            let base = match &data {
                Some(b) => b.clone(),
                None => match &config {
                    Some(c) => c.clone(),
                    None => ".".to_owned(),
                },
            };
            let d = join(base.as_str(), APP_DIR, sep);
            assert(d@ == join_path(user_base(data, config), APP_DIR@, sep));
            d
        },
    }
}

} // verus!

verus! {

// ---------------------------------------------------------------------------
// Vault normalization: categories
// ---------------------------------------------------------------------------

pub open spec fn is_sap_category(c: Category) -> bool {
    c.id@ == SAP_CATEGORY_ID@ && c.name@ == "SAP 账号"@ && c.builtin && c.sort == 0
}

pub open spec fn is_general_category(c: Category) -> bool {
    c.id@ == DEFAULT_CATEGORY_ID@ && c.name@ == "通用账号"@ && c.builtin && c.sort == 1
}

/// The built-in categories added where they are missing: the SAP one in
/// front, the general one at the end.
pub open spec fn with_builtins(cats: Seq<Category>, sap: Category, general: Category) -> Seq<Category> {
    let a = if model::find_category(cats, SAP_CATEGORY_ID@) is None {
        seq![sap] + cats
    } else {
        cats
    };
    if model::find_category(a, DEFAULT_CATEGORY_ID@) is None {
        a.push(general)
    } else {
        a
    }
}

/// `c` placed after every category whose `sort` is not greater.
pub open spec fn insert_by_sort(sorted: Seq<Category>, c: Category) -> Seq<Category>
    decreases sorted.len(),
{
    if sorted.len() == 0 {
        seq![c]
    } else if sorted.last().sort <= c.sort {
        sorted.push(c)
    } else {
        insert_by_sort(sorted.drop_last(), c).push(sorted.last())
    }
}

/// A stable sort by `sort` (`slice::sort_by_key`).
pub open spec fn sort_by_sort(cats: Seq<Category>) -> Seq<Category>
    decreases cats.len(),
{
    if cats.len() == 0 {
        seq![]
    } else {
        insert_by_sort(sort_by_sort(cats.drop_last()), cats.last())
    }
}

proof fn lemma_insert_at(sorted: Seq<Category>, c: Category, pos: int)
    requires
        0 <= pos <= sorted.len(),
        forall|k: int| pos <= k < sorted.len() ==> #[trigger] sorted[k].sort > c.sort,
        pos > 0 ==> sorted[pos - 1].sort <= c.sort,
    ensures
        insert_by_sort(sorted, c) == sorted.take(pos).push(c) + sorted.skip(pos),
    decreases sorted.len(),
{
    if sorted.len() == 0 {
        assert(sorted.take(pos).push(c) + sorted.skip(pos) =~= seq![c]);
    } else if pos == sorted.len() {
        assert(sorted.take(pos).push(c) + sorted.skip(pos) =~= sorted.push(c));
    } else {
        lemma_insert_at(sorted.drop_last(), c, pos);
        assert(sorted.drop_last().take(pos) =~= sorted.take(pos));
        assert((sorted.take(pos).push(c) + sorted.drop_last().skip(pos)).push(sorted.last())
            =~= sorted.take(pos).push(c) + sorted.skip(pos));
    }
}

fn sort_categories(cats: Vec<Category>) -> (out: Vec<Category>)
    ensures
        out@ == sort_by_sort(cats@),
{
    let mut out: Vec<Category> = Vec::new();
    let mut i: usize = 0;
    let mut rest = cats;
    let ghost all = rest@;
    let n = rest.len();
    assert(all.take(0) =~= Seq::<Category>::empty());
    assert(all.skip(0) =~= all);
    while rest.len() > 0
        invariant
            i + rest.len() == all.len(),
            all.len() == n,
            rest@ == all.skip(i as int),
            out@ == sort_by_sort(all.take(i as int)),
        decreases rest.len(),
    {
        let c = rest.remove(0);
        assert(c == all[i as int]);
        let mut pos: usize = out.len();
        while pos > 0 && out[pos - 1].sort > c.sort
            invariant
                pos <= out.len(),
                forall|k: int| pos <= k < out.len() ==> #[trigger] out@[k].sort > c.sort,
            decreases pos,
        {
            pos -= 1;
        }
        proof {
            lemma_insert_at(out@, c, pos as int);
            assert(all.take(i + 1).drop_last() =~= all.take(i as int));
        }
        out.insert(pos, c);
        assert(out@ =~= sort_by_sort(all.take(i + 1)));
        i += 1;
        assert(rest@ =~= all.skip(i as int));
    }
    assert(all.take(i as int) =~= all);
    out
}

fn has_category(cats: &Vec<Category>, id: &str) -> (r: bool)
    ensures
        r == (model::find_category(cats@, id@) is Some),
{
    model::category_index(cats, id).is_some()
}

} // verus!

verus! {

// ---------------------------------------------------------------------------
// Vault normalization: entries
// ---------------------------------------------------------------------------

pub open spec fn capped(n: int) -> int {
    if n > MAX_PASSWORD_HISTORY {
        MAX_PASSWORD_HISTORY as int
    } else {
        n
    }
}

/// A history record with an empty time stamp stamped with `now`.
pub open spec fn stamped(h: HistoryEntry, now: String) -> HistoryEntry {
    HistoryEntry {
        recorded_at: if h.recorded_at@.len() == 0 {
            now
        } else {
            h.recorded_at
        },
        ..h
    }
}

/// The first `MAX_PASSWORD_HISTORY` records, an empty time stamp replaced by
/// `now`.
pub open spec fn history_repaired(old: Seq<HistoryEntry>, new: Seq<HistoryEntry>, now: String) -> bool {
    &&& new.len() == capped(old.len() as int)
    &&& forall|i: int|
        0 <= i < new.len() ==> #[trigger] new[i] == stamped(old[i], now)
}

/// An entry of an unknown category moves to the general one; its rule is
/// normalized and its history repaired.
pub open spec fn entry_repaired(old: Entry, new: Entry, cats: Seq<Category>, now: String) -> bool {
    &&& new == Entry {
        category_id: new.category_id,
        rule: new.rule,
        password_history: new.password_history,
        ..old
    }
    &&& new.category_id@ == (if model::find_category(cats, old.category_id@) is Some {
        old.category_id@
    } else {
        DEFAULT_CATEGORY_ID@
    })
    &&& new.rule == match old.rule {
        Some(r) => Some(model::normalized_spec(r)),
        None => None,
    }
    &&& history_repaired(old.password_history@, new.password_history@, now)
}

fn repair_history(history: Vec<HistoryEntry>, now: &String) -> (out: Vec<HistoryEntry>)
    ensures
        history_repaired(history@, out@, *now),
{
    let mut out: Vec<HistoryEntry> = Vec::new();
    let mut rest = history;
    let ghost all = rest@;
    let n = rest.len();
    let limit = if n > MAX_PASSWORD_HISTORY {
        MAX_PASSWORD_HISTORY
    } else {
        n
    };
    let mut i: usize = 0;
    assert(all.skip(0) =~= all);
    while i < limit
        invariant
            i <= limit,
            limit == capped(n as int),
            all.len() == n,
            rest@ == all.skip(i as int),
            out@.len() == i,
            forall|k: int| 0 <= k < i ==> #[trigger] out@[k] == stamped(all[k], *now),
        decreases limit - i,
    {
        let h = rest.remove(0);
        assert(h == all[i as int]);
        let stamp = text::chars_of_string(&h.recorded_at);
        let recorded_at = if stamp.len() == 0 {
            now.clone()
        } else {
            h.recorded_at
        };
        out.push(HistoryEntry { recorded_at, ..h });
        i += 1;
        assert(rest@ =~= all.skip(i as int));
    }
    out
}

fn repair_entry(e: Entry, cats: &Vec<Category>, now: &String) -> (out: Entry)
    ensures
        entry_repaired(e, out, cats@, *now),
{
    let known = model::category_index(cats, e.category_id.as_str()).is_some();
    let category_id = if known {
        e.category_id
    } else {
        DEFAULT_CATEGORY_ID.to_owned()
    };
    let rule = match &e.rule {
        Some(r) => Some(r.normalized()),
        None => None,
    };
    let password_history = repair_history(e.password_history, now);
    Entry { category_id, rule, password_history, ..e }
}

fn repair_entries(entries: Vec<Entry>, cats: &Vec<Category>, now: &String) -> (out: Vec<Entry>)
    ensures
        out@.len() == entries@.len(),
        forall|i: int| 0 <= i < out@.len() ==> entry_repaired(entries@[i], #[trigger] out@[i], cats@, *now),
{
    let mut out: Vec<Entry> = Vec::new();
    let mut rest = entries;
    let ghost all = rest@;
    let n = rest.len();
    let mut i: usize = 0;
    assert(all.skip(0) =~= all);
    while i < n
        invariant
            i <= n,
            all.len() == n,
            rest@ == all.skip(i as int),
            out@.len() == i,
            forall|k: int| 0 <= k < i ==> entry_repaired(all[k], #[trigger] out@[k], cats@, *now),
        decreases n - i,
    {
        let e = rest.remove(0);
        assert(e == all[i as int]);
        out.push(repair_entry(e, cats, now));
        i += 1;
        assert(rest@ =~= all.skip(i as int));
    }
    out
}

} // verus!

verus! {

// ---------------------------------------------------------------------------
// Vault normalization: content files
// ---------------------------------------------------------------------------

pub open spec fn file_paths(files: Seq<SyncFile>) -> Seq<Seq<char>> {
    files.map_values(|f: SyncFile| f.path@)
}

/// Some path equals `p` up to ASCII case.
pub open spec fn path_known(paths: Seq<Seq<char>>, p: Seq<char>) -> bool {
    exists|k: int| 0 <= k < paths.len() && text::eq_ignore_case(#[trigger] paths[k], p)
}

/// The links of all legacy groups, in order.
pub open spec fn legacy_flat(groups: Seq<LegacyEntryLinks>) -> Seq<model::LegacyLink>
    decreases groups.len(),
{
    if groups.len() == 0 {
        seq![]
    } else {
        legacy_flat(groups.drop_last()) + groups.last().links@
    }
}

/// The links whose path is not yet a file (nor an earlier such link).
pub open spec fn new_links(existing: Seq<Seq<char>>, links: Seq<model::LegacyLink>) -> Seq<model::LegacyLink>
    decreases links.len(),
{
    if links.len() == 0 {
        seq![]
    } else {
        let prev = new_links(existing, links.drop_last());
        if path_known(existing + prev.map_values(|l: model::LegacyLink| l.path@), links.last().path@) {
            prev
        } else {
            prev.push(links.last())
        }
    }
}

pub open spec fn keys_normalized(old: KeyMapping, new: KeyMapping) -> bool {
    &&& strings_view(new.url@) == KeyMapping::normalized_list(strings_view(old.url@), model::default_url_keys())
    &&& strings_view(new.username@) == KeyMapping::normalized_list(strings_view(old.username@), model::default_username_keys())
    &&& strings_view(new.password@) == KeyMapping::normalized_list(strings_view(old.password@), model::default_password_keys())
    &&& new.ignore_case == old.ignore_case
    &&& new.exact == old.exact
}

/// The file a legacy link becomes: its path and normalized key words,
/// not yet analysed and bound to nothing.
pub open spec fn migrated_file(f: SyncFile, link: model::LegacyLink) -> bool {
    &&& f.path@ == link.path@
    &&& keys_normalized(link.keys, f.keys)
    &&& f.analysis is None
    &&& f.bindings@.len() == 0
}

pub open spec fn migrated(old: Seq<SyncFile>, links: Seq<model::LegacyLink>, new: Seq<SyncFile>) -> bool {
    let nl = new_links(file_paths(old), links);
    &&& new.len() == old.len() + nl.len()
    &&& new.take(old.len() as int) == old
    &&& forall|k: int| 0 <= k < nl.len() ==> migrated_file(#[trigger] new[old.len() + k], nl[k])
}

fn is_path_known(files: &Vec<SyncFile>, path: &Vec<char>) -> (r: bool)
    ensures
        r == path_known(file_paths(files@), path@),
{
    let ghost ps = file_paths(files@);
    let mut i: usize = 0;
    while i < files.len()
        invariant
            i <= files.len(),
            ps == file_paths(files@),
            forall|k: int| 0 <= k < i ==> !text::eq_ignore_case(#[trigger] ps[k], path@),
        decreases files.len() - i,
    {
        let p = text::chars_of_string(&files[i].path);
        assert(p@ == ps[i as int]);
        if text::eq_ignore_ascii_case(&p, path) {
            return true;
        }
        i += 1;
    }
    false
}

fn migrate_one(files: &mut Vec<SyncFile>, link: model::LegacyLink, Ghost(base): Ghost<Seq<SyncFile>>, Ghost(done): Ghost<Seq<model::LegacyLink>>)
    requires
        migrated(base, done, old(files)@),
    ensures
        migrated(base, done.push(link), final(files)@),
{
    let ghost nl = new_links(file_paths(base), done);
    let ghost all = done.push(link);
    assert(all.drop_last() =~= done);
    assert(file_paths(old(files)@) =~= file_paths(base) + nl.map_values(|l: model::LegacyLink| l.path@)) by {
        assert forall|k: int| 0 <= k < file_paths(old(files)@).len() implies #[trigger] file_paths(old(files)@)[k]
            == (file_paths(base) + nl.map_values(|l: model::LegacyLink| l.path@))[k] by {
            if k < base.len() {
                assert(old(files)@[k] == old(files)@.take(base.len() as int)[k]);
            } else {
                assert(migrated_file(old(files)@[base.len() + (k - base.len())], nl[k - base.len()]));
            }
        }
    }
    let path = text::chars_of_string(&link.path);
    if is_path_known(files, &path) {
        return ;
    }
    let mut keys = link.keys;
    keys.normalize();
    let f = SyncFile::from_path(link.path.as_str(), keys, None);
    let ghost before = files@;
    files.push(f);
    assert(files@.take(base.len() as int) =~= before.take(base.len() as int));
    assert forall|k: int| 0 <= k < new_links(file_paths(base), all).len() implies migrated_file(#[trigger] files@[base.len() + k], new_links(file_paths(base), all)[k]) by {
        if k < nl.len() {
            assert(files@[base.len() + k] == before[base.len() + k]);
        }
    }
}

} // verus!

verus! {

/// Folds the legacy links into the file list: a link whose path (ignoring
/// ASCII case) is already a file is dropped, any other becomes a file.
fn migrate_legacy(files: &mut Vec<SyncFile>, legacy: Vec<LegacyEntryLinks>)
    ensures
        migrated(old(files)@, legacy_flat(legacy@), final(files)@),
{
    let ghost base = files@;
    let mut groups = legacy;
    let ghost all = groups@;
    let n = groups.len();
    let mut g: usize = 0;
    assert(all.take(0) =~= Seq::<LegacyEntryLinks>::empty());
    assert(all.skip(0) =~= all);
    assert(files@.take(base.len() as int) =~= base);
    while g < n
        invariant
            g <= n,
            all.len() == n,
            groups@ == all.skip(g as int),
            migrated(base, legacy_flat(all.take(g as int)), files@),
        decreases n - g,
    {
        let group = groups.remove(0);
        assert(group == all[g as int]);
        let mut links = group.links;
        let ghost ls = links@;
        let ghost head = legacy_flat(all.take(g as int));
        let m = links.len();
        let mut j: usize = 0;
        assert(ls.skip(0) =~= ls);
        assert(head + ls.take(0) =~= head);
        while j < m
            invariant
                j <= m,
                ls.len() == m,
                links@ == ls.skip(j as int),
                migrated(base, head + ls.take(j as int), files@),
            decreases m - j,
        {
            let link = links.remove(0);
            assert(link == ls[j as int]);
            migrate_one(files, link, Ghost(base), Ghost(head + ls.take(j as int)));
            assert((head + ls.take(j as int)).push(ls[j as int]) =~= head + ls.take(j + 1));
            j += 1;
            assert(links@ =~= ls.skip(j as int));
        }
        assert(all.take(g + 1).drop_last() =~= all.take(g as int));
        assert(ls.take(m as int) =~= ls);
        g += 1;
        assert(groups@ =~= all.skip(g as int));
    }
    assert(all.take(n as int) =~= all);
}

} // verus!

verus! {

pub open spec fn has_path(fields: Seq<model::FieldHit>, path: Seq<char>) -> bool {
    exists|k: int| 0 <= k < fields.len() && #[trigger] fields[k].path@ == path
}

/// A binding survives while its account exists and the cached analysis of
/// the file still has a value at its key.
pub open spec fn binding_live(b: model::FileBinding, analysis: Option<model::LinkParse>, entries: Seq<Entry>) -> bool {
    model::find_entry(entries, b.entry_id@) is Some && match analysis {
        Some(a) => has_path(a.fields@, b.key_path@),
        None => false,
    }
}

pub open spec fn live_bindings(bs: Seq<model::FileBinding>, analysis: Option<model::LinkParse>, entries: Seq<Entry>) -> Seq<model::FileBinding>
    decreases bs.len(),
{
    if bs.len() == 0 {
        seq![]
    } else {
        live_bindings(bs.drop_last(), analysis, entries) + (if binding_live(bs.last(), analysis, entries) {
            seq![bs.last()]
        } else {
            seq![]
        })
    }
}

pub open spec fn same_binding(a: model::FileBinding, b: model::FileBinding) -> bool {
    a.key_path@ == b.key_path@ && a.entry_id@ == b.entry_id@
}

/// The first binding of every (key, account) pair.
pub open spec fn dedup_bindings(bs: Seq<model::FileBinding>) -> Seq<model::FileBinding>
    decreases bs.len(),
{
    if bs.len() == 0 {
        seq![]
    } else {
        let prev = dedup_bindings(bs.drop_last());
        if exists|k: int| 0 <= k < prev.len() && same_binding(#[trigger] prev[k], bs.last()) {
            prev
        } else {
            prev.push(bs.last())
        }
    }
}

/// Key words normalized; dangling and repeated bindings dropped.
pub open spec fn file_tidied(old: SyncFile, new: SyncFile, entries: Seq<Entry>) -> bool {
    &&& new == SyncFile { keys: new.keys, bindings: new.bindings, ..old }
    &&& keys_normalized(old.keys, new.keys)
    &&& new.bindings@ == dedup_bindings(live_bindings(old.bindings@, old.analysis, entries))
}

fn analysis_has_path(analysis: &Option<model::LinkParse>, path: &str) -> (r: bool)
    ensures
        r == match *analysis {
            Some(a) => has_path(a.fields@, path@),
            None => false,
        },
{
    match analysis {
        None => false,
        Some(a) => {
            let mut k: usize = 0;
            while k < a.fields.len()
                invariant
                    k <= a.fields.len(),
                    *analysis == Some(*a),
                    forall|j: int| 0 <= j < k ==> #[trigger] a.fields@[j].path@ != path@,
                decreases a.fields.len() - k,
            {
                if text::str_eq(a.fields[k].path.as_str(), path) {
                    return true;
                }
                k += 1;
            }
            false
        },
    }
}

fn tidy_bindings(bs: Vec<model::FileBinding>, analysis: &Option<model::LinkParse>, entries: &Vec<Entry>) -> (out: Vec<model::FileBinding>)
    ensures
        out@ == dedup_bindings(live_bindings(bs@, *analysis, entries@)),
{
    let mut live: Vec<model::FileBinding> = Vec::new();
    let mut rest = bs;
    let ghost all = rest@;
    let n = rest.len();
    let mut i: usize = 0;
    assert(all.skip(0) =~= all);
    assert(all.take(0) =~= Seq::<model::FileBinding>::empty());
    while i < n
        invariant
            i <= n,
            all.len() == n,
            rest@ == all.skip(i as int),
            live@ == live_bindings(all.take(i as int), *analysis, entries@),
        decreases n - i,
    {
        let b = rest.remove(0);
        assert(b == all[i as int]);
        assert(all.take(i + 1).drop_last() =~= all.take(i as int));
        let ok = model::entry_index(entries, b.entry_id.as_str()).is_some() && analysis_has_path(
            analysis,
            b.key_path.as_str(),
        );
        if ok {
            live.push(b);
        }
        i += 1;
        assert(live@ =~= live_bindings(all.take(i as int), *analysis, entries@));
        assert(rest@ =~= all.skip(i as int));
    }
    assert(all.take(n as int) =~= all);
    let mut out: Vec<model::FileBinding> = Vec::new();
    let ghost lv = live@;
    let m = live.len();
    let mut j: usize = 0;
    assert(lv.skip(0) =~= lv);
    assert(lv.take(0) =~= Seq::<model::FileBinding>::empty());
    while j < m
        invariant
            j <= m,
            lv.len() == m,
            live@ == lv.skip(j as int),
            out@ == dedup_bindings(lv.take(j as int)),
        decreases m - j,
    {
        let b = live.remove(0);
        assert(b == lv[j as int]);
        assert(lv.take(j + 1).drop_last() =~= lv.take(j as int));
        let mut seen = false;
        let mut k: usize = 0;
        while k < out.len()
            invariant
                k <= out.len(),
                seen == exists|q: int| 0 <= q < k && same_binding(#[trigger] out@[q], b),
            decreases out.len() - k,
        {
            if text::str_eq(out[k].key_path.as_str(), b.key_path.as_str()) && text::str_eq(
                out[k].entry_id.as_str(),
                b.entry_id.as_str(),
            ) {
                seen = true;
            }
            k += 1;
        }
        if !seen {
            out.push(b);
        }
        j += 1;
        assert(out@ =~= dedup_bindings(lv.take(j as int)));
        assert(live@ =~= lv.skip(j as int));
    }
    assert(lv.take(m as int) =~= lv);
    out
}

fn tidy_file(f: SyncFile, entries: &Vec<Entry>) -> (out: SyncFile)
    ensures
        file_tidied(f, out, entries@),
{
    let mut keys = f.keys;
    keys.normalize();
    let bindings = tidy_bindings(f.bindings, &f.analysis, entries);
    SyncFile { keys, bindings, ..f }
}

/// The first file of every path (ignoring ASCII case).
pub open spec fn dedup_files(files: Seq<SyncFile>) -> Seq<SyncFile>
    decreases files.len(),
{
    if files.len() == 0 {
        seq![]
    } else {
        let prev = dedup_files(files.drop_last());
        if path_known(file_paths(prev), files.last().path@) {
            prev
        } else {
            prev.push(files.last())
        }
    }
}

pub open spec fn files_tidied(old: Seq<SyncFile>, new: Seq<SyncFile>, entries: Seq<Entry>) -> bool {
    &&& new.len() == old.len()
    &&& forall|i: int| 0 <= i < new.len() ==> file_tidied(old[i], #[trigger] new[i], entries)
}

fn tidy_files(files: Vec<SyncFile>, entries: &Vec<Entry>) -> (out: Vec<SyncFile>)
    ensures
        exists|mid: Seq<SyncFile>| files_tidied(files@, mid, entries@) && out@ == dedup_files(mid),
{
    let mut out: Vec<SyncFile> = Vec::new();
    let mut rest = files;
    let ghost all = rest@;
    let ghost mut mid: Seq<SyncFile> = seq![];
    let n = rest.len();
    let mut i: usize = 0;
    assert(all.skip(0) =~= all);
    while i < n
        invariant
            i <= n,
            all.len() == n,
            rest@ == all.skip(i as int),
            files_tidied(all.take(i as int), mid, entries@),
            out@ == dedup_files(mid),
        decreases n - i,
    {
        let f = rest.remove(0);
        assert(f == all[i as int]);
        let t = tidy_file(f, entries);
        let path = text::chars_of_string(&t.path);
        let known = is_path_known(&out, &path);
        let ghost prev_mid = mid;
        proof {
            mid = mid.push(t);
            assert(mid.drop_last() =~= prev_mid);
        }
        if !known {
            out.push(t);
        }
        i += 1;
        assert(rest@ =~= all.skip(i as int));
        assert(all.take(i as int).drop_last() =~= all.take(i - 1));
        assert forall|k: int| 0 <= k < mid.len() implies file_tidied(all.take(i as int)[k], #[trigger] mid[k], entries@) by {
            if k < prev_mid.len() {
                assert(all.take(i as int)[k] == all.take(i - 1)[k]);
            }
        }
    }
    assert(all.take(n as int) =~= all);
    out
}

} // verus!

verus! {

// ---------------------------------------------------------------------------
// Vault normalization
// ---------------------------------------------------------------------------

/// The legacy links a vault of the given schema still has to fold in.
pub open spec fn pending_links(schema: u32, legacy: Seq<LegacyEntryLinks>) -> Seq<model::LegacyLink> {
    if schema >= 3 {
        seq![]
    } else {
        legacy_flat(legacy)
    }
}

/// Categories with the built-in ones added and sorted; entries repaired
/// against them, with `now` as the time stamp of undated history.
pub open spec fn records_repaired(old: Vault, new: Vault, sap: Category, general: Category, now: String) -> bool {
    let cats = with_builtins(old.categories@, sap, general);
    &&& is_sap_category(sap)
    &&& is_general_category(general)
    &&& now@.len() > 0
    &&& new.categories@ == sort_by_sort(cats)
    &&& new.entries@.len() == old.entries@.len()
    &&& forall|i: int|
        0 <= i < old.entries@.len() ==> entry_repaired(old.entries@[i], #[trigger] new.entries@[i], cats, now)
}

/// Legacy links folded in (`all`), every file tidied (`mid`), repeated
/// paths dropped.
pub open spec fn files_normalized(old: Vault, new: Vault, all: Seq<SyncFile>, mid: Seq<SyncFile>) -> bool {
    &&& migrated(old.files@, pending_links(old.schema, old.legacy_links@), all)
    &&& files_tidied(all, mid, new.entries@)
    &&& new.files@ == dedup_files(mid)
}

/// What a vault holds once normalized: the SAP and the general category
/// exist, every entry belongs to an existing category and keeps at most
/// `MAX_PASSWORD_HISTORY` recorded passwords, each with its time, and no
/// path is attached twice (ignoring ASCII case).
pub open spec fn vault_sound(v: Vault) -> bool {
    &&& model::find_category(v.categories@, SAP_CATEGORY_ID@) is Some
    &&& model::find_category(v.categories@, DEFAULT_CATEGORY_ID@) is Some
    &&& forall|i: int|
        0 <= i < v.entries@.len() ==> model::find_category(v.categories@, (#[trigger] v.entries@[i]).category_id@) is Some
    &&& forall|i: int| 0 <= i < v.entries@.len() ==> (#[trigger] v.entries@[i]).password_history@.len() <= MAX_PASSWORD_HISTORY
    &&& forall|i: int, k: int|
        0 <= i < v.entries@.len() && 0 <= k < v.entries@[i].password_history@.len() ==> (#[trigger] v.entries@[i].password_history@[k]).recorded_at@.len() > 0
    &&& forall|a: int, b: int|
        0 <= a < b < v.files@.len() ==> !text::eq_ignore_case(#[trigger] v.files@[a].path@, #[trigger] v.files@[b].path@)
}

proof fn lemma_find_category_exists(cats: Seq<Category>, id: Seq<char>)
    ensures
        model::find_category(cats, id) is Some <==> exists|k: int| 0 <= k < cats.len() && (#[trigger] cats[k]).id@ == id,
    decreases cats.len(),
{
    if cats.len() > 0 {
        lemma_find_category_exists(cats.drop_last(), id);
        if exists|k: int| 0 <= k < cats.len() && (#[trigger] cats[k]).id@ == id {
            let k = choose|k: int| 0 <= k < cats.len() && (#[trigger] cats[k]).id@ == id;
            if k < cats.len() - 1 {
                assert(cats.drop_last()[k] == cats[k]);
            }
        }
        if exists|k: int| 0 <= k < cats.len() - 1 && (#[trigger] cats.drop_last()[k]).id@ == id {
            let k = choose|k: int| 0 <= k < cats.len() - 1 && (#[trigger] cats.drop_last()[k]).id@ == id;
            assert(cats[k] == cats.drop_last()[k]);
        }
    }
}

proof fn lemma_push_contains<T>(s: Seq<T>, y: T, x: T)
    ensures
        s.push(y).contains(x) <==> (s.contains(x) || x == y),
{
    if s.push(y).contains(x) {
        let k = choose|k: int| 0 <= k < s.push(y).len() && s.push(y)[k] == x;
        if k < s.len() {
            assert(s[k] == x);
        }
    }
    if s.contains(x) {
        let k = choose|k: int| 0 <= k < s.len() && s[k] == x;
        assert(s.push(y)[k] == x);
    }
    assert(s.push(y)[s.len() as int] == y);
}

proof fn lemma_insert_by_sort_contains(sorted: Seq<Category>, c: Category, x: Category)
    ensures
        insert_by_sort(sorted, c).contains(x) <==> (sorted.contains(x) || x == c),
    decreases sorted.len(),
{
    if sorted.len() > 0 && !(sorted.last().sort <= c.sort) {
        lemma_insert_by_sort_contains(sorted.drop_last(), c, x);
        lemma_push_contains(insert_by_sort(sorted.drop_last(), c), sorted.last(), x);
        lemma_push_contains(sorted.drop_last(), sorted.last(), x);
        assert(sorted =~= sorted.drop_last().push(sorted.last()));
    } else if sorted.len() > 0 {
        lemma_push_contains(sorted, c, x);
    } else {
        assert(seq![c][0] == c);
    }
}

proof fn lemma_sort_by_sort_contains(cats: Seq<Category>, x: Category)
    ensures
        sort_by_sort(cats).contains(x) <==> cats.contains(x),
    decreases cats.len(),
{
    if cats.len() > 0 {
        lemma_sort_by_sort_contains(cats.drop_last(), x);
        lemma_insert_by_sort_contains(sort_by_sort(cats.drop_last()), cats.last(), x);
        assert(cats =~= cats.drop_last().push(cats.last()));
        if cats.contains(x) {
            let k = choose|k: int| 0 <= k < cats.len() && cats[k] == x;
            if k < cats.len() - 1 {
                assert(cats.drop_last()[k] == x);
            }
        }
        if cats.drop_last().contains(x) {
            let k = choose|k: int| 0 <= k < cats.len() - 1 && cats.drop_last()[k] == x;
            assert(cats[k] == x);
        }
    }
}

/// A category id known among `cats` is known among them sorted.
proof fn lemma_sorted_keeps_ids(cats: Seq<Category>, id: Seq<char>)
    requires
        model::find_category(cats, id) is Some,
    ensures
        model::find_category(sort_by_sort(cats), id) is Some,
{
    lemma_find_category_exists(cats, id);
    let k = choose|k: int| 0 <= k < cats.len() && (#[trigger] cats[k]).id@ == id;
    lemma_sort_by_sort_contains(cats, cats[k]);
    let j = choose|j: int| 0 <= j < sort_by_sort(cats).len() && sort_by_sort(cats)[j] == cats[k];
    lemma_find_category_exists(sort_by_sort(cats), id);
    assert(sort_by_sort(cats)[j].id@ == id);
}

proof fn lemma_with_builtins_ids(cats: Seq<Category>, sap: Category, general: Category)
    requires
        is_sap_category(sap),
        is_general_category(general),
    ensures
        model::find_category(with_builtins(cats, sap, general), SAP_CATEGORY_ID@) is Some,
        model::find_category(with_builtins(cats, sap, general), DEFAULT_CATEGORY_ID@) is Some,
{
    let a = if model::find_category(cats, SAP_CATEGORY_ID@) is None { seq![sap] + cats } else { cats };
    lemma_find_category_exists(cats, SAP_CATEGORY_ID@);
    lemma_find_category_exists(a, SAP_CATEGORY_ID@);
    if model::find_category(cats, SAP_CATEGORY_ID@) is None {
        assert(a[0] == sap);
    } else {
        let k = choose|k: int| 0 <= k < cats.len() && (#[trigger] cats[k]).id@ == SAP_CATEGORY_ID@;
        assert(a[k] == cats[k]);
    }
    let w = with_builtins(cats, sap, general);
    lemma_find_category_exists(w, SAP_CATEGORY_ID@);
    lemma_find_category_exists(w, DEFAULT_CATEGORY_ID@);
    lemma_find_category_exists(a, DEFAULT_CATEGORY_ID@);
    if model::find_category(a, DEFAULT_CATEGORY_ID@) is None {
        assert(w[a.len() as int] == general);
        let k = choose|k: int| 0 <= k < a.len() && (#[trigger] a[k]).id@ == SAP_CATEGORY_ID@;
        assert(w[k] == a[k]);
    }
}

/// No two files of a deduplicated list share a path (ignoring ASCII case).
proof fn lemma_dedup_files_distinct(files: Seq<SyncFile>)
    ensures
        forall|a: int, b: int|
            0 <= a < b < dedup_files(files).len() ==> !text::eq_ignore_case(
                #[trigger] dedup_files(files)[a].path@,
                #[trigger] dedup_files(files)[b].path@,
            ),
    decreases files.len(),
{
    if files.len() > 0 {
        let prev = dedup_files(files.drop_last());
        lemma_dedup_files_distinct(files.drop_last());
        if !path_known(file_paths(prev), files.last().path@) {
            let d = prev.push(files.last());
            assert forall|a: int, b: int| 0 <= a < b < d.len() implies !text::eq_ignore_case(
                #[trigger] d[a].path@,
                #[trigger] d[b].path@,
            ) by {
                if b == prev.len() {
                    assert(file_paths(prev)[a] == prev[a].path@);
                    assert(d[a] == prev[a]);
                } else {
                    assert(d[a] == prev[a] && d[b] == prev[b]);
                }
            }
        }
    }
}

/// Normalization leaves a sound vault (see [`vault_sound`]).
pub proof fn law_normalized_vault_is_sound(
    old: Vault,
    new: Vault,
    sap: Category,
    general: Category,
    now: String,
    all: Seq<SyncFile>,
    mid: Seq<SyncFile>,
)
    requires
        records_repaired(old, new, sap, general, now),
        files_normalized(old, new, all, mid),
    ensures
        vault_sound(new),
{
    let cats = with_builtins(old.categories@, sap, general);
    lemma_with_builtins_ids(old.categories@, sap, general);
    lemma_sorted_keeps_ids(cats, SAP_CATEGORY_ID@);
    lemma_sorted_keeps_ids(cats, DEFAULT_CATEGORY_ID@);
    assert forall|i: int| 0 <= i < new.entries@.len() implies model::find_category(
        new.categories@,
        (#[trigger] new.entries@[i]).category_id@,
    ) is Some by {
        assert(entry_repaired(old.entries@[i], new.entries@[i], cats, now));
        if model::find_category(cats, old.entries@[i].category_id@) is Some {
            lemma_sorted_keeps_ids(cats, old.entries@[i].category_id@);
        }
    }
    assert forall|i: int| 0 <= i < new.entries@.len() implies (#[trigger] new.entries@[i]).password_history@.len()
        <= MAX_PASSWORD_HISTORY by {
        assert(entry_repaired(old.entries@[i], new.entries@[i], cats, now));
    }
    assert forall|i: int, k: int|
        0 <= i < new.entries@.len() && 0 <= k < new.entries@[i].password_history@.len() implies (
        #[trigger] new.entries@[i].password_history@[k]).recorded_at@.len() > 0 by {
        assert(entry_repaired(old.entries@[i], new.entries@[i], cats, now));
        assert(history_repaired(old.entries@[i].password_history@, new.entries@[i].password_history@, now));
    }
    lemma_dedup_files_distinct(mid);
}

/// Normalizes a vault loaded from disk: the built-in categories exist and
/// come in `sort` order, every entry has a known category, a normalized rule
/// and at most `MAX_PASSWORD_HISTORY` time-stamped history records, legacy
/// links are folded into the file list, bindings point at existing accounts
/// and keys, and no path is listed twice. Migrated files are not analysed
/// here: reading them is left to the caller.
pub fn normalize_vault(vault: &mut Vault)
    ensures
        final(vault).schema == VAULT_SCHEMA,
        final(vault).legacy_links@.len() == 0,
        final(vault).knox_id == old(vault).knox_id,
        final(vault).updated_at == old(vault).updated_at,
        exists|sap: Category, general: Category, now: String|
            #[trigger] records_repaired(*old(vault), *final(vault), sap, general, now),
        exists|all: Seq<SyncFile>, mid: Seq<SyncFile>|
            #[trigger] files_normalized(*old(vault), *final(vault), all, mid),
        vault_sound(*final(vault)),
{
    let now = model::now_string();
    // Categories: the built-in ones first.
    let mut cats: Vec<Category> = Vec::new();
    std::mem::swap(&mut cats, &mut vault.categories);
    let ghost old_cats = cats@;
    let sap = Category::sap();
    let general = Category::general();
    let ghost gs = sap;
    let ghost gg = general;
    if model::category_index(&cats, SAP_CATEGORY_ID).is_none() {
        cats.insert(0, sap);
        assert(cats@ =~= seq![gs] + old_cats);
    }
    if model::category_index(&cats, DEFAULT_CATEGORY_ID).is_none() {
        cats.push(general);
    }
    assert(cats@ == with_builtins(old_cats, gs, gg));
    // Entries.
    let mut entries: Vec<Entry> = Vec::new();
    std::mem::swap(&mut entries, &mut vault.entries);
    let entries = repair_entries(entries, &cats, &now);
    // Legacy links.
    let mut legacy: Vec<LegacyEntryLinks> = Vec::new();
    std::mem::swap(&mut legacy, &mut vault.legacy_links);
    let mut files: Vec<SyncFile> = Vec::new();
    std::mem::swap(&mut files, &mut vault.files);
    let ghost old_files = files@;
    if vault.schema < 3 {
        migrate_legacy(&mut files, legacy);
    } else {
        assert(files@.take(old_files.len() as int) =~= old_files);
    }
    let ghost all = files@;
    let files = tidy_files(files, &entries);
    let ghost mid = choose|mid: Seq<SyncFile>| files_tidied(all, mid, entries@) && files@ == dedup_files(mid);
    vault.schema = VAULT_SCHEMA;
    vault.categories = sort_categories(cats);
    vault.entries = entries;
    vault.files = files;
    assert(records_repaired(*old(vault), *vault, gs, gg, now));
    assert(files_normalized(*old(vault), *vault, all, mid));
    proof {
        law_normalized_vault_is_sound(*old(vault), *vault, gs, gg, now, all, mid);
    }
}

} // verus!

verus! {

// ---------------------------------------------------------------------------
// Files in the data directory
// ---------------------------------------------------------------------------

/// Running in portable mode (a portable directory was found).
pub fn is_portable(portable: &Option<String>) -> (r: bool)
    ensures
        r == portable is Some,
{
    portable.is_some()
}

pub fn backup_dir(data_dir: &str, sep: char) -> (p: String)
    ensures
        p@ == join_path(data_dir@, "backups"@, sep),
{
    join(data_dir, "backups", sep)
}

pub fn vault_path(data_dir: &str, sep: char) -> (p: String)
    ensures
        p@ == join_path(data_dir@, ENVELOPE_FILE@, sep),
{
    join(data_dir, ENVELOPE_FILE, sep)
}

pub fn settings_path(data_dir: &str, sep: char) -> (p: String)
    ensures
        p@ == join_path(data_dir@, SETTINGS_FILE@, sep),
{
    join(data_dir, SETTINGS_FILE, sep)
}

// ---------------------------------------------------------------------------
// Creating and opening an envelope
// ---------------------------------------------------------------------------

/// An envelope that seals `plaintext` under `key` with some nonce, in this
/// library's format.
pub open spec fn sealed_under(env: VaultEnvelope, key: Seq<u8>, plaintext: Seq<u8>) -> bool {
    &&& env.format@ == ENVELOPE_FORMAT@
    &&& env.version == ENVELOPE_VERSION
    &&& holds_sealed(env, key, plaintext)
}

/// The envelope's nonce and ciphertext are `plaintext` sealed under `key`.
pub open spec fn holds_sealed(env: VaultEnvelope, key: Seq<u8>, plaintext: Seq<u8>) -> bool {
    exists|nonce: Seq<u8>|
        nonce.len() == NONCE_LEN && env.nonce@ == b64::encode_spec(nonce) && env.ciphertext@ == b64::encode_spec(
            crypto::aes_gcm_seal(key, nonce, plaintext),
        )
}

/// The key Argon2id derives from the password with the envelope's own
/// stored parameters.
pub open spec fn stored_key(env: VaultEnvelope, password: Seq<char>) -> Seq<u8> {
    let kdf = env.kdf->0;
    crypto::argon2id_key(
        vstd::utf8::encode_utf8(password),
        b64::decode_spec(vstd::utf8::encode_utf8(kdf.salt@))->Ok_0,
        kdf.m_cost,
        kdf.t_cost,
        kdf.p_cost,
    )
}

fn finish_envelope(mode: VaultMode, kdf: Option<KdfParams>, sealed_key: Option<String>, key: &[u8; KEY_LEN], hint: &str, plaintext: &[u8]) -> (r: Result<VaultEnvelope, AppError>)
    ensures
        plaintext@.len() <= crypto::aes_plaintext_max() ==> (r matches Ok(env) && sealed_under(env, key@, plaintext@)
            && env.mode == mode && env.kdf == kdf && env.sealed_key == sealed_key && env.hint@ == hint@),
        plaintext@.len() > crypto::aes_plaintext_max() ==> r is Err,
{
    let (nonce, ciphertext) = match crypto::encrypt(key, plaintext) {
        Ok(pair) => pair,
        Err(e) => {
            return Err(e);
        },
    };
    Ok(VaultEnvelope {
        format: ENVELOPE_FORMAT.to_owned(),
        version: ENVELOPE_VERSION,
        mode,
        kdf,
        sealed_key,
        nonce,
        ciphertext,
        hint: hint.to_owned(),
        updated_at: crate::model::now_string(),
    })
}

/// A new master-password envelope: a fresh salt, the key derived with the
/// same parameters that are stored, and the serialised vault sealed with it.
pub fn create_password_envelope(password: Option<&str>, hint: &str, plaintext: &[u8]) -> (r: Result<VaultEnvelope, AppError>)
    ensures
        password is None ==> (r matches Err(AppError::Msg(m)) && m@ == "主密码不能为空"@),
        password matches Some(pw) && pw@.len() < 8 ==> (r matches Err(AppError::Msg(m)) && m@ == "主密码至少需要 8 个字符"@),
        password is Some && password->0@.len() >= 8 ==> (r is Ok <==> (vstd::utf8::encode_utf8(password->0@).len() <= 0xFFFF_FFFF
            && plaintext@.len() <= crypto::aes_plaintext_max())),
        r matches Ok(env) ==> (password matches Some(pw) && env.mode == VaultMode::Password && env.sealed_key is None
            && (env.kdf matches Some(k) && k.algo@ == "argon2id"@ && k.m_cost == 19456 && k.t_cost == 2 && k.p_cost == 1
            && (exists|salt: Seq<u8>| salt.len() == SALT_LEN && k.salt@ == b64::encode_spec(salt)))
            && sealed_under(env, stored_key(env, pw@), plaintext@) && env.hint@ == hint@),
{
    let pw = match password {
        None => {
            return Err(AppError::Msg(text::string_of(&text::chars_of("主密码不能为空"))));
        },
        Some(pw) => pw,
    };
    if text::chars_of(pw).len() < 8 {
        return Err(AppError::Msg(text::string_of(&text::chars_of("主密码至少需要 8 个字符"))));
    }
    let defaults = KdfParams::default();
    let params = KdfParams { salt: crypto::new_salt(), ..defaults };
    let ghost salt_text = params.salt@;
    proof {
        let s = choose|s: Seq<u8>| s.len() == SALT_LEN && salt_text == b64::encode_spec(s);
        b64::law_decode_inverts_encode(s);
    }
    let key = match crypto::derive_key(pw, &params) {
        Ok(k) => k,
        Err(e) => {
            return Err(e);
        },
    };
    let env = match finish_envelope(VaultMode::Password, Some(params), None, &key, hint, plaintext) {
        Ok(env) => env,
        Err(e) => {
            return Err(e);
        },
    };
    Ok(env)
}

/// A new envelope for the Windows-account mode: `key` is the random vault
/// key and `sealed_key` that key as sealed for the Windows user.
pub fn create_windows_envelope(key: &[u8; KEY_LEN], sealed_key: String, hint: &str, plaintext: &[u8]) -> (r: Result<VaultEnvelope, AppError>)
    ensures
        plaintext@.len() <= crypto::aes_plaintext_max() ==> (r matches Ok(env) && sealed_under(env, key@, plaintext@)
            && env.mode == VaultMode::Windows && env.kdf is None && env.sealed_key == Some(sealed_key) && env.hint@ == hint@),
{
    finish_envelope(VaultMode::Windows, None, Some(sealed_key), key, hint, plaintext)
}

/// How the key of an envelope is obtained: derived here, or unsealed by the
/// Windows account.
pub enum UnlockStep {
    Key([u8; KEY_LEN]),
    /// The sealed key, to be unsealed for the current Windows user.
    Unseal(String),
}

/// The vault key of a master-password envelope, or the sealed key of a
/// Windows-account one.
pub fn unlock_key(envelope: &VaultEnvelope, password: Option<&str>) -> (r: Result<UnlockStep, AppError>)
    ensures
        envelope.mode == VaultMode::Password ==> match envelope.kdf {
            None => r matches Err(AppError::Msg(m)) && m@ == "保险库缺少 KDF 参数"@,
            Some(_) => match password {
                None => r matches Err(AppError::Msg(m)) && m@ == "请输入主密码"@,
                Some(pw) => if crypto::derivable(pw@, envelope.kdf->0) {
                    r matches Ok(UnlockStep::Key(k)) && k@ == stored_key(*envelope, pw@)
                } else {
                    r matches Err(AppError::Crypto(_))
                },
            },
        },
        envelope.mode == VaultMode::Windows ==> match envelope.sealed_key {
            None => r matches Err(AppError::Msg(m)) && m@ == "保险库缺少 DPAPI 密钥"@,
            Some(s) => r matches Ok(UnlockStep::Unseal(t)) && t == s,
        },
{
    match envelope.mode {
        VaultMode::Password => {
            let params = match &envelope.kdf {
                None => {
                    return Err(AppError::Msg(text::string_of(&text::chars_of("保险库缺少 KDF 参数"))));
                },
                Some(p) => p,
            };
            let pw = match password {
                None => {
                    return Err(AppError::Msg(text::string_of(&text::chars_of("请输入主密码"))));
                },
                Some(pw) => pw,
            };
            match crypto::derive_key(pw, params) {
                Ok(k) => Ok(UnlockStep::Key(k)),
                Err(e) => Err(e),
            }
        },
        VaultMode::Windows => match &envelope.sealed_key {
            None => Err(AppError::Msg(text::string_of(&text::chars_of("保险库缺少 DPAPI 密钥")))),
            Some(s) => Ok(UnlockStep::Unseal(s.clone())),
        },
    }
}

/// The serialised vault inside an envelope; opening what was sealed under
/// the same key gives back exactly what was sealed.
pub fn decrypt_vault(envelope: &VaultEnvelope, key: &[u8; KEY_LEN]) -> (r: Result<Vec<u8>, AppError>)
    ensures
        crypto::decrypted(key@, envelope.nonce@, envelope.ciphertext@, r),
        forall|p: Seq<u8>|
            p.len() <= crypto::aes_plaintext_max() && #[trigger] sealed_under(*envelope, key@, p) ==> (r matches Ok(v) && v@ == p),
{
    crypto::decrypt(key, envelope.nonce.as_str(), envelope.ciphertext.as_str())
}

/// What a write gives back on a read: an envelope made with a master
/// password opens, with that password, to the vault it sealed — the key
/// re-derived from the stored parameters is the key that sealed it.
pub proof fn law_password_envelope_opens(env: VaultEnvelope, password: Seq<char>, plaintext: Seq<u8>)
    requires
        sealed_under(env, stored_key(env, password), plaintext),
    ensures
        exists|nonce: Seq<u8>|
            nonce.len() == NONCE_LEN && b64::decode_spec(vstd::utf8::encode_utf8(env.nonce@)) == Ok::<Seq<u8>, u8>(nonce)
                && b64::decode_spec(vstd::utf8::encode_utf8(env.ciphertext@)) == Ok::<Seq<u8>, u8>(
                crypto::aes_gcm_seal(stored_key(env, password), nonce, plaintext),
            ),
{
    let nonce = choose|nonce: Seq<u8>|
        nonce.len() == NONCE_LEN && env.nonce@ == b64::encode_spec(nonce) && env.ciphertext@ == b64::encode_spec(
            crypto::aes_gcm_seal(stored_key(env, password), nonce, plaintext),
        );
    b64::law_decode_inverts_encode(nonce);
    b64::law_decode_inverts_encode(crypto::aes_gcm_seal(stored_key(env, password), nonce, plaintext));
}

} // verus!

verus! {

// ---------------------------------------------------------------------------
// Backups and reading the envelope back
// ---------------------------------------------------------------------------

/// The name of the backup taken at `stamp` (`YYYYmmdd-HHMMSS`).
pub fn backup_name(stamp: &str) -> (r: String)
    ensures
        r@ == "vault-"@ + stamp@ + ".sapvault"@,
{
    let mut m = text::chars_of("vault-");
    text::push_str(&mut m, stamp);
    text::push_str(&mut m, ".sapvault");
    text::string_of(&m)
}

/// A file of the backup folder counts as a backup when its extension is
/// `sapvault` (a name with something before `.sapvault`).
pub open spec fn is_backup(name: Seq<char>) -> bool {
    name.len() > 9 && text::ends_with(name, ".sapvault"@)
}

pub open spec fn backups_of(names: Seq<Seq<char>>) -> Seq<Seq<char>>
    decreases names.len(),
{
    if names.len() == 0 {
        seq![]
    } else {
        backups_of(names.drop_last()) + if is_backup(names.last()) {
            seq![names.last()]
        } else {
            seq![]
        }
    }
}

/// `x` placed after every name that does not sort after it.
pub open spec fn insert_name(s: Seq<Seq<char>>, x: Seq<char>) -> Seq<Seq<char>>
    decreases s.len(),
{
    if s.len() == 0 {
        seq![x]
    } else if crate::saplogon::seq_lt(x, s.last()) {
        insert_name(s.drop_last(), x).push(s.last())
    } else {
        s.push(x)
    }
}

/// The names in `String` order.
pub open spec fn sort_names(s: Seq<Seq<char>>) -> Seq<Seq<char>>
    decreases s.len(),
{
    if s.len() == 0 {
        seq![]
    } else {
        insert_name(sort_names(s.drop_last()), s.last())
    }
}

/// The backups to delete so that the newest `MAX_VAULT_BACKUPS` stay: the
/// oldest ones, as the time stamp in the name orders them.
pub open spec fn prune_spec(names: Seq<Seq<char>>) -> Seq<Seq<char>> {
    let sorted = sort_names(backups_of(names));
    if sorted.len() <= MAX_VAULT_BACKUPS {
        seq![]
    } else {
        sorted.take(sorted.len() - MAX_VAULT_BACKUPS)
    }
}

fn insert_name_exec(out: &mut Vec<String>, x: String)
    ensures
        crate::model::strings_view(final(out)@) == insert_name(crate::model::strings_view(old(out)@), x@),
{
    let ghost o = crate::model::strings_view(out@);
    let xc = text::chars_of_string(&x);
    let mut j: usize = out.len();
    let mut stop = false;
    assert(o.take(o.len() as int) =~= o);
    assert(o.skip(o.len() as int) =~= Seq::<Seq<char>>::empty());
    while j > 0 && !stop
        invariant
            j <= out.len(),
            o == crate::model::strings_view(out@),
            xc@ == x@,
            insert_name(o, x@) == insert_name(o.take(j as int), x@) + o.skip(j as int),
            stop ==> j > 0 && !crate::saplogon::seq_lt(x@, o[j - 1]),
        decreases j + (if stop { 0int } else { 1int }),
    {
        if crate::saplogon::seq_lt_exec(&xc, &text::chars_of_string(&out[j - 1])) {
            assert(o.take(j as int).drop_last() =~= o.take(j - 1));
            assert(o.take(j as int).last() == o[j - 1]);
            assert(o.skip(j - 1) =~= seq![o[j - 1]] + o.skip(j as int));
            j -= 1;
        } else {
            stop = true;
        }
    }
    if stop {
        assert(o.take(j as int).last() == o[j - 1]);
    }
    out.insert(j, x);
    assert(crate::model::strings_view(out@) =~= insert_name(o, x@));
}

/// The backups to delete (see [`prune_spec`]), from the file names found in
/// the backup folder.
pub fn backups_to_prune(names: &Vec<String>) -> (r: Vec<String>)
    ensures
        crate::model::strings_view(r@) == prune_spec(crate::model::strings_view(names@)),
{
    let ghost nv = crate::model::strings_view(names@);
    let mut sorted: Vec<String> = Vec::new();
    let ghost mut kept: Seq<Seq<char>> = seq![];
    let mut i: usize = 0;
    assert(nv.take(0) =~= Seq::<Seq<char>>::empty());
    while i < names.len()
        invariant
            i <= names.len(),
            nv == crate::model::strings_view(names@),
            kept == backups_of(nv.take(i as int)),
            crate::model::strings_view(sorted@) == sort_names(kept),
        decreases names.len() - i,
    {
        assert(nv.take(i + 1).drop_last() =~= nv.take(i as int));
        assert(nv.take(i + 1).last() == names@[i as int]@);
        let n = text::chars_of_string(&names[i]);
        if n.len() > 9 && text::ends_with_str(&n, ".sapvault") {
            proof {
                let k2 = kept.push(n@);
                assert(k2.drop_last() =~= kept);
                assert(backups_of(nv.take(i + 1)) =~= k2);
                kept = k2;
            }
            insert_name_exec(&mut sorted, names[i].clone());
        } else {
            assert(backups_of(nv.take(i + 1)) =~= kept);
        }
        i += 1;
    }
    assert(nv.take(names.len() as int) =~= nv);
    if sorted.len() <= MAX_VAULT_BACKUPS {
        let none: Vec<String> = Vec::new();
        assert(crate::model::strings_view(none@) =~= Seq::<Seq<char>>::empty());
        return none;
    }
    let excess = sorted.len() - MAX_VAULT_BACKUPS;
    sorted.truncate(excess);
    assert(crate::model::strings_view(sorted@) =~= sort_names(kept).take(excess as int));
    sorted
}

/// Sorted names stay sorted when one is inserted.
proof fn lemma_insert_name_sorted(s: Seq<Seq<char>>, x: Seq<char>)
    requires
        forall|a: int, b: int| 0 <= a < b < s.len() ==> !crate::saplogon::seq_lt(#[trigger] s[b], #[trigger] s[a]),
    ensures
        forall|a: int, b: int|
            0 <= a < b < insert_name(s, x).len() ==> !crate::saplogon::seq_lt(#[trigger] insert_name(s, x)[b], #[trigger] insert_name(s, x)[a]),
        insert_name(s, x).len() == s.len() + 1,
        forall|k: int| 0 <= k < insert_name(s, x).len() ==> (#[trigger] insert_name(s, x)[k] == x || s.contains(insert_name(s, x)[k])),
    decreases s.len(),
{
    let r = insert_name(s, x);
    if s.len() == 0 {
    } else if crate::saplogon::seq_lt(x, s.last()) {
        let p = s.drop_last();
        lemma_insert_name_sorted(p, x);
        let rp = insert_name(p, x);
        assert forall|k: int| 0 <= k < r.len() implies (#[trigger] r[k] == x || s.contains(r[k])) by {
            if k < rp.len() {
                assert(r[k] == rp[k]);
                if rp[k] != x {
                    let j = choose|j: int| 0 <= j < p.len() && p[j] == rp[k];
                    assert(s[j] == p[j]);
                }
            } else {
                assert(r[k] == s[s.len() - 1]);
            }
        }
        assert forall|a: int, b: int| 0 <= a < b < r.len() implies !crate::saplogon::seq_lt(#[trigger] r[b], #[trigger] r[a]) by {
            if b == r.len() - 1 {
                assert(r[b] == s.last());
                assert(r[a] == rp[a]);
                if rp[a] == x {
                    crate::saplogon::lemma_seq_lt_total(x, s.last());
                } else {
                    let j = choose|j: int| 0 <= j < p.len() && p[j] == rp[a];
                    assert(s[j] == p[j]);
                    assert(!crate::saplogon::seq_lt(s[s.len() - 1], s[j]));
                }
            } else {
                assert(r[a] == rp[a] && r[b] == rp[b]);
            }
        }
    } else {
        assert forall|a: int, b: int| 0 <= a < b < r.len() implies !crate::saplogon::seq_lt(#[trigger] r[b], #[trigger] r[a]) by {
            if b == r.len() - 1 {
                assert(r[b] == x);
                assert(r[a] == s[a]);
                if a < s.len() - 1 {
                    assert(!crate::saplogon::seq_lt(s[s.len() - 1], s[a]));
                    if crate::saplogon::seq_lt(x, s[a]) {
                        crate::saplogon::lemma_seq_lt_total(s[a], s[s.len() - 1]);
                        if s[a] != s[s.len() - 1] {
                            crate::saplogon::lemma_seq_lt_transitive(x, s[a], s[s.len() - 1]);
                        }
                    }
                }
            } else {
                assert(r[a] == s[a] && r[b] == s[b]);
            }
        }
        assert forall|k: int| 0 <= k < r.len() implies (#[trigger] r[k] == x || s.contains(r[k])) by {
            if k < s.len() {
                assert(r[k] == s[k]);
            }
        }
    }
}

proof fn lemma_sort_names_sorted(s: Seq<Seq<char>>)
    ensures
        forall|a: int, b: int|
            0 <= a < b < sort_names(s).len() ==> !crate::saplogon::seq_lt(#[trigger] sort_names(s)[b], #[trigger] sort_names(s)[a]),
        sort_names(s).len() == s.len(),
    decreases s.len(),
{
    if s.len() > 0 {
        lemma_sort_names_sorted(s.drop_last());
        lemma_insert_name_sorted(sort_names(s.drop_last()), s.last());
    }
}

/// Pruning keeps the newest backups: at most `MAX_VAULT_BACKUPS` remain,
/// and no backup that is deleted sorts after one that is kept.
pub proof fn law_pruning_keeps_the_newest(names: Seq<Seq<char>>)
    ensures
        ({
            let all = sort_names(backups_of(names));
            let gone = prune_spec(names);
            &&& all.len() - gone.len() == (if all.len() <= MAX_VAULT_BACKUPS { all.len() as int } else { MAX_VAULT_BACKUPS as int })
            &&& forall|g: int, k: int|
                0 <= g < gone.len() && gone.len() <= k < all.len() ==> !crate::saplogon::seq_lt(#[trigger] all[k], #[trigger] gone[g])
        }),
{
    let all = sort_names(backups_of(names));
    lemma_sort_names_sorted(backups_of(names));
    let gone = prune_spec(names);
    assert forall|g: int, k: int|
        0 <= g < gone.len() && gone.len() <= k < all.len() implies !crate::saplogon::seq_lt(#[trigger] all[k], #[trigger] gone[g]) by {
        assert(gone[g] == all[g]);
    }
}

/// An envelope read back is used only when it is in this library's format.
pub fn check_envelope(envelope: VaultEnvelope) -> (r: Result<VaultEnvelope, AppError>)
    ensures
        envelope.format@ == ENVELOPE_FORMAT@ ==> r == Ok::<VaultEnvelope, AppError>(envelope),
        envelope.format@ != ENVELOPE_FORMAT@ ==> (r matches Err(AppError::Msg(m)) && m@ == "无法识别的保险库格式："@
            + envelope.format@),
{
    if text::str_eq(envelope.format.as_str(), ENVELOPE_FORMAT) {
        Ok(envelope)
    } else {
        let mut m = text::chars_of("无法识别的保险库格式：");
        text::push_str(&mut m, envelope.format.as_str());
        Err(AppError::Msg(text::string_of(&m)))
    }
}

/// The error for a vault file that exists but cannot be read as an
/// envelope: it says so, instead of passing for a missing vault.
pub fn corrupt_vault(path: &str, reason: &str) -> (e: AppError)
    ensures
        e matches AppError::Msg(m) && m@ == "保险库文件无法解析，可能已损坏（"@ + path@ + "）："@ + reason@,
{
    let mut m = text::chars_of("保险库文件无法解析，可能已损坏（");
    text::push_str(&mut m, path);
    text::push_str(&mut m, "）：");
    text::push_str(&mut m, reason);
    AppError::Msg(text::string_of(&m))
}


/// What reading the vault file found: no file, a read error, text that is
/// no envelope (with the parser's reason), or an envelope.
pub enum VaultRead {
    Missing,
    Unreadable(String),
    Unparsable(String),
    Parsed(VaultEnvelope),
}

/// The envelope at `path` as read: `None` only when there is no file; a
/// file that cannot be read, parsed or recognised is an error, so a damaged
/// vault never passes for no vault.
pub fn loaded_envelope(path: &str, read: VaultRead) -> (r: Result<Option<VaultEnvelope>, AppError>)
    ensures
        match read {
            VaultRead::Missing => r matches Ok(None),
            VaultRead::Unreadable(m) => r matches Err(AppError::Io(e)) && e == m,
            VaultRead::Unparsable(m) => r matches Err(AppError::Msg(e)) && e@ == "保险库文件无法解析，可能已损坏（"@ + path@
                + "）："@ + m@,
            VaultRead::Parsed(env) => if env.format@ == ENVELOPE_FORMAT@ {
                r == Ok::<Option<VaultEnvelope>, AppError>(Some(env))
            } else {
                r matches Err(AppError::Msg(e)) && e@ == "无法识别的保险库格式："@ + env.format@
            },
        },
{
    match read {
        VaultRead::Missing => Ok(None),
        VaultRead::Unreadable(m) => Err(AppError::Io(m)),
        VaultRead::Unparsable(m) => Err(corrupt_vault(path, m.as_str())),
        VaultRead::Parsed(env) => match check_envelope(env) {
            Ok(e) => Ok(Some(e)),
            Err(e) => Err(e),
        },
    }
}

} // verus!
