//! The vault's data model: categories, entries, SAP launch settings, content
//! files and their bindings.

use vstd::prelude::*;
use crate::error::AppError;
use crate::text;

verus! {

/// SAP GUI launch settings of one account.
#[derive(Debug, Clone)]
pub struct SapLaunch {
    pub system_id: String,
    pub client: String,
    pub language: String,
    /// Connection string handed to `sapshcut -guiparm`.
    pub guiparm: String,
    /// Pins one SAP Logon entry when a system ID appears several times.
    pub service_uuid: String,
    /// Transaction to start after the login.
    pub transaction: String,
    pub maximize: bool,
}

impl Default for SapLaunch {
    fn default() -> (r: Self)
        ensures
            r.system_id@.len() == 0,
            r.client@.len() == 0,
            r.language@.len() == 0,
            r.guiparm@.len() == 0,
            r.service_uuid@.len() == 0,
            r.transaction@.len() == 0,
            !r.maximize,
    {
        SapLaunch {
            system_id: String::new(),
            client: String::new(),
            language: String::new(),
            guiparm: String::new(),
            service_uuid: String::new(),
            transaction: String::new(),
            maximize: false,
        }
    }
}

} // verus!

verus! {

pub open spec fn strings_view(v: Seq<String>) -> Seq<Seq<char>> {
    v.map_values(|s: String| s@)
}

pub open spec fn default_url_keys() -> Seq<Seq<char>> {
    seq!["url"@, "host"@, "server"@, "endpoint"@]
}

pub open spec fn default_username_keys() -> Seq<Seq<char>> {
    seq!["username"@, "user"@, "login"@, "account"@]
}

pub open spec fn default_password_keys() -> Seq<Seq<char>> {
    seq![
        "password"@,
        "passwd"@,
        "pwd"@,
        "pass"@,
        "secret"@,
        "passwort"@,
        "kennwort"@,
        "token"@,
    ]
}

/// Which key names identify the URL, the user name and the password inside a
/// content file.
#[derive(Debug, Clone)]
pub struct KeyMapping {
    pub url: Vec<String>,
    pub username: Vec<String>,
    pub password: Vec<String>,
    pub ignore_case: bool,
    /// Only whole key names match; otherwise a key containing the word (three
    /// characters or more) matches too.
    pub exact: bool,
}

fn default_url_list() -> (v: Vec<String>)
    ensures
        strings_view(v@) == default_url_keys(),
{
    let mut v: Vec<String> = Vec::new();
    v.push("url".to_owned());
    v.push("host".to_owned());
    v.push("server".to_owned());
    v.push("endpoint".to_owned());
    assert(strings_view(v@) =~= default_url_keys());
    v
}

fn default_username_list() -> (v: Vec<String>)
    ensures
        strings_view(v@) == default_username_keys(),
{
    let mut v: Vec<String> = Vec::new();
    v.push("username".to_owned());
    v.push("user".to_owned());
    v.push("login".to_owned());
    v.push("account".to_owned());
    assert(strings_view(v@) =~= default_username_keys());
    v
}

fn default_password_list() -> (v: Vec<String>)
    ensures
        strings_view(v@) == default_password_keys(),
{
    let mut v: Vec<String> = Vec::new();
    v.push("password".to_owned());
    v.push("passwd".to_owned());
    v.push("pwd".to_owned());
    v.push("pass".to_owned());
    v.push("secret".to_owned());
    v.push("passwort".to_owned());
    v.push("kennwort".to_owned());
    v.push("token".to_owned());
    assert(strings_view(v@) =~= default_password_keys());
    v
}

impl Default for KeyMapping {
    fn default() -> (m: Self)
        ensures
            strings_view(m.url@) == default_url_keys(),
            strings_view(m.username@) == default_username_keys(),
            strings_view(m.password@) == default_password_keys(),
            m.ignore_case,
            !m.exact,
    {
        KeyMapping {
            url: default_url_list(),
            username: default_username_list(),
            password: default_password_list(),
            ignore_case: true,
            exact: false,
        }
    }
}

impl KeyMapping {
    /// A kind whose list was emptied falls back to the built-in key names.
    pub open spec fn normalized_list(list: Seq<Seq<char>>, default: Seq<Seq<char>>) -> Seq<
        Seq<char>,
    > {
        if list.len() == 0 {
            default
        } else {
            list
        }
    }

    pub fn normalize(&mut self)
        ensures
            strings_view(final(self).url@) == Self::normalized_list(
                strings_view(old(self).url@),
                default_url_keys(),
            ),
            strings_view(final(self).username@) == Self::normalized_list(
                strings_view(old(self).username@),
                default_username_keys(),
            ),
            strings_view(final(self).password@) == Self::normalized_list(
                strings_view(old(self).password@),
                default_password_keys(),
            ),
            final(self).ignore_case == old(self).ignore_case,
            final(self).exact == old(self).exact,
    {
        if self.url.len() == 0 {
            self.url = default_url_list();
        }
        if self.username.len() == 0 {
            self.username = default_username_list();
        }
        if self.password.len() == 0 {
            self.password = default_password_list();
        }
    }
}

/// One credential field found in a content file.
#[derive(Debug, Clone)]
pub struct FieldHit {
    pub kind: String,
    pub key: String,
    pub path: String,
    pub value: String,
    /// 1-based line of the value, 0 when it could not be placed.
    pub line: u32,
}

pub struct HitView {
    pub kind: Seq<char>,
    pub key: Seq<char>,
    pub path: Seq<char>,
    pub value: Seq<char>,
    pub line: u32,
}

impl View for FieldHit {
    type V = HitView;

    open spec fn view(&self) -> HitView {
        HitView {
            kind: self.kind@,
            key: self.key@,
            path: self.path@,
            value: self.value@,
            line: self.line,
        }
    }
}

pub open spec fn hit_views(v: Seq<FieldHit>) -> Seq<HitView> {
    v.map_values(|h: FieldHit| h@)
}

/// What the analysis of one content file found.
#[derive(Debug, Clone)]
pub struct LinkParse {
    pub format: String,
    pub fields: Vec<FieldHit>,
    /// Kinds (`url`, `username`, `password`) that were not found.
    pub missing: Vec<String>,
    pub analyzed_at: String,
    pub error: Option<String>,
}

/// Value of the first field of `kind`, or the empty sequence.
pub open spec fn value_of_spec(fields: Seq<FieldHit>, kind: Seq<char>) -> Seq<char>
    decreases fields.len(),
{
    if fields.len() == 0 {
        seq![]
    } else if fields[0].kind@ == kind {
        fields[0].value@
    } else {
        value_of_spec(fields.drop_first(), kind)
    }
}

impl LinkParse {
    pub open spec fn complete(self) -> bool {
        self.error is None && self.missing@.len() == 0
    }

    /// The file was read and every kind was found.
    pub fn is_complete(&self) -> (r: bool)
        ensures
            r == self.complete(),
    {
        self.error.is_none() && self.missing.len() == 0
    }

    pub fn value_of(&self, kind: &str) -> (r: String)
        ensures
            r@ == value_of_spec(self.fields@, kind@),
    {
        let mut i: usize = 0;
        assert(self.fields@.skip(0) =~= self.fields@);
        while i < self.fields.len()
            invariant
                i <= self.fields.len(),
                value_of_spec(self.fields@, kind@) == value_of_spec(
                    self.fields@.skip(i as int),
                    kind@,
                ),
            decreases self.fields.len() - i,
        {
            assert(self.fields@.skip(i as int).drop_first() =~= self.fields@.skip(i + 1));
            if crate::text::str_eq(self.fields[i].kind.as_str(), kind) {
                return self.fields[i].value.clone();
            }
            i += 1;
        }
        String::new()
    }
}

} // verus!

verus! {

/// `chrono::Local::now()` in RFC 3339 with whole seconds. It reads the
/// clock, so only that the text is not empty is claimed (an RFC 3339 time
/// always has a date and a time).
#[verifier::external_body]
pub fn now_string() -> (r: String)
    ensures
        r@.len() > 0,
{
    chrono::Local::now().to_rfc3339_opts(chrono::SecondsFormat::Secs, true)
}

} // verus!

verus! {

/// A password policy attached to an account.
#[derive(Debug, Clone)]
pub struct PasswordRule {
    /// A disabled rule accepts any password.
    pub enabled: bool,
    pub min_length: usize,
    pub max_length: usize,
    pub upper: bool,
    pub lower: bool,
    pub digits: bool,
    pub symbols: bool,
    /// The symbols that may be used when `symbols` is on.
    pub symbols_set: String,
    /// Characters that must never occur.
    pub forbidden: String,
    pub start_with_letter: bool,
    /// Leave out characters that look alike (`O0oIl1|` and quotes).
    pub avoid_ambiguous: bool,
}

/// Shortest and longest length a rule may ask for.
pub const RULE_MIN_LENGTH: usize = 4;
pub const RULE_MAX_LENGTH: usize = 128;

pub open spec fn clamp_length(n: usize) -> usize {
    if n < RULE_MIN_LENGTH {
        RULE_MIN_LENGTH
    } else if n > RULE_MAX_LENGTH {
        RULE_MAX_LENGTH
    } else {
        n
    }
}

pub open spec fn norm_min(r: PasswordRule) -> usize {
    clamp_length(r.min_length)
}

pub open spec fn norm_max(r: PasswordRule) -> usize {
    if clamp_length(r.max_length) < norm_min(r) {
        norm_min(r)
    } else {
        clamp_length(r.max_length)
    }
}

pub open spec fn norm_lower(r: PasswordRule) -> bool {
    r.lower || r.no_class()
}

pub open spec fn norm_digits(r: PasswordRule) -> bool {
    r.digits || r.no_class()
}

/// The rule [`PasswordRule::normalize`] makes of `r`.
pub open spec fn normalized_spec(r: PasswordRule) -> PasswordRule {
    PasswordRule {
        min_length: norm_min(r),
        max_length: norm_max(r),
        lower: norm_lower(r),
        digits: norm_digits(r),
        ..r
    }
}

impl PasswordRule {
    pub open spec fn no_class(self) -> bool {
        !self.upper && !self.lower && !self.digits && !self.symbols
    }

    /// Lengths clamped to 4..=128 with the maximum raised to the minimum; a
    /// rule with no character class falls back to lower case and digits.
    pub open spec fn is_normalized_from(self, old: PasswordRule) -> bool {
        let min = clamp_length(old.min_length);
        let max = clamp_length(old.max_length);
        &&& self.enabled == old.enabled
        &&& self.min_length == min
        &&& self.max_length == (if max < min {
            min
        } else {
            max
        })
        &&& self.upper == old.upper
        &&& self.lower == (old.lower || old.no_class())
        &&& self.digits == (old.digits || old.no_class())
        &&& self.symbols == old.symbols
        &&& self.symbols_set@ == old.symbols_set@
        &&& self.forbidden@ == old.forbidden@
        &&& self.start_with_letter == old.start_with_letter
        &&& self.avoid_ambiguous == old.avoid_ambiguous
    }

    pub open spec fn normal(self) -> bool {
        &&& RULE_MIN_LENGTH <= self.min_length <= self.max_length <= RULE_MAX_LENGTH
        &&& !self.no_class()
    }

    pub fn normalize(&mut self)
        ensures
            *final(self) == normalized_spec(*old(self)),
            final(self).is_normalized_from(*old(self)),
            final(self).normal(),
    {
        let min = if self.min_length < RULE_MIN_LENGTH {
            RULE_MIN_LENGTH
        } else if self.min_length > RULE_MAX_LENGTH {
            RULE_MAX_LENGTH
        } else {
            self.min_length
        };
        let max = if self.max_length < RULE_MIN_LENGTH {
            RULE_MIN_LENGTH
        } else if self.max_length > RULE_MAX_LENGTH {
            RULE_MAX_LENGTH
        } else {
            self.max_length
        };
        self.min_length = min;
        self.max_length = if max < min {
            min
        } else {
            max
        };
        if !self.upper && !self.lower && !self.digits && !self.symbols {
            self.lower = true;
            self.digits = true;
        }
    }

    /// A copy with [`PasswordRule::normalize`] applied.
    pub fn normalized(&self) -> (r: PasswordRule)
        ensures
            r == normalized_spec(*self),
            r.is_normalized_from(*self),
            r.normal(),
    {
        let mut r = PasswordRule {
            enabled: self.enabled,
            min_length: self.min_length,
            max_length: self.max_length,
            upper: self.upper,
            lower: self.lower,
            digits: self.digits,
            symbols: self.symbols,
            symbols_set: self.symbols_set.clone(),
            forbidden: self.forbidden.clone(),
            start_with_letter: self.start_with_letter,
            avoid_ambiguous: self.avoid_ambiguous,
        };
        r.normalize();
        r
    }
}

impl Default for PasswordRule {
    fn default() -> (r: Self)
        ensures
            r.enabled,
            r.min_length == 8,
            r.max_length == 20,
            r.upper && r.lower && r.digits && !r.symbols,
            r.symbols_set@ == "!@#$%^&*()-_=+[]{};:,.?"@,
            r.forbidden@.len() == 0,
            !r.start_with_letter,
            !r.avoid_ambiguous,
    {
        PasswordRule {
            enabled: true,
            min_length: 8,
            max_length: 20,
            upper: true,
            lower: true,
            digits: true,
            symbols: false,
            symbols_set: "!@#$%^&*()-_=+[]{};:,.?".to_owned(),
            forbidden: String::new(),
            start_with_letter: false,
            avoid_ambiguous: false,
        }
    }
}

} // verus!

verus! {

/// Category id reserved for SAP accounts. It can never be renamed or removed.
pub const SAP_CATEGORY_ID: &'static str = "sap";
pub const DEFAULT_CATEGORY_ID: &'static str = "general";

/// How many previous passwords an entry keeps.
pub const MAX_PASSWORD_HISTORY: usize = 20;

/// Version of the vault layout written by this library.
pub const VAULT_SCHEMA: u32 = 3;

impl SapLaunch {
    pub open spec fn blank(self) -> bool {
        text::trim(self.system_id@).len() == 0 && text::trim(self.guiparm@).len() == 0
    }

    /// Settings without a system ID and without a connection string launch
    /// nothing.
    pub fn is_empty(&self) -> (r: bool)
        ensures
            r == self.blank(),
    {
        let a = text::trim_str(self.system_id.as_str());
        let b = text::trim_str(self.guiparm.as_str());
        a.len() == 0 && b.len() == 0
    }
}

// ---------------------------------------------------------------------------
// Identifiers
// ---------------------------------------------------------------------------

pub open spec fn hex_digit(d: u8) -> char {
    if d < 10 {
        ((48 + d) as u32) as char
    } else {
        ((87 + d) as u32) as char
    }
}

/// Lower-case hex of the bytes, two digits per byte.
pub open spec fn hex_of(bytes: Seq<u8>) -> Seq<char>
    decreases bytes.len(),
{
    if bytes.len() == 0 {
        seq![]
    } else {
        hex_of(bytes.drop_last()) + seq![hex_digit(bytes.last() / 16), hex_digit(bytes.last() % 16)]
    }
}

/// 32 hex digits grouped 8-4-4-4-12, as a UUID is written.
pub open spec fn id_of(bytes: Seq<u8>) -> Seq<char> {
    let h = hex_of(bytes);
    h.subrange(0, 8) + seq!['-'] + h.subrange(8, 12) + seq!['-'] + h.subrange(12, 16) + seq!['-']
        + h.subrange(16, 20) + seq!['-'] + h.subrange(20, 32)
}

pub fn hex_digit_exec(d: u8) -> (c: char)
    requires
        d < 16,
    ensures
        c == hex_digit(d),
{
    match d {
        0 => '0',
        1 => '1',
        2 => '2',
        3 => '3',
        4 => '4',
        5 => '5',
        6 => '6',
        7 => '7',
        8 => '8',
        9 => '9',
        10 => 'a',
        11 => 'b',
        12 => 'c',
        13 => 'd',
        14 => 'e',
        _ => 'f',
    }
}

proof fn lemma_hex_len(bytes: Seq<u8>)
    ensures
        hex_of(bytes).len() == 2 * bytes.len(),
    decreases bytes.len(),
{
    if bytes.len() > 0 {
        lemma_hex_len(bytes.drop_last());
    }
}

/// The identifier written for sixteen bytes.
pub fn format_id(bytes: &[u8; 16]) -> (id: String)
    ensures
        id@ == id_of(bytes@),
{
    let mut hex: Vec<char> = Vec::new();
    let mut i: usize = 0;
    assert(bytes@.take(0) =~= Seq::<u8>::empty());
    while i < 16
        invariant
            i <= 16,
            bytes@.len() == 16,
            hex@ == hex_of(bytes@.take(i as int)),
        decreases 16 - i,
    {
        let b = bytes[i];
        assert(bytes@.take(i + 1).drop_last() =~= bytes@.take(i as int));
        hex.push(hex_digit_exec(b / 16));
        hex.push(hex_digit_exec(b % 16));
        i += 1;
        assert(hex@ =~= hex_of(bytes@.take(i as int)));
    }
    assert(bytes@.take(16) =~= bytes@);
    proof {
        lemma_hex_len(bytes@);
    }
    let mut out = text::slice_of(&hex, 0, 8);
    out.push('-');
    text::push_all(&mut out, &text::slice_of(&hex, 8, 12));
    out.push('-');
    text::push_all(&mut out, &text::slice_of(&hex, 12, 16));
    out.push('-');
    text::push_all(&mut out, &text::slice_of(&hex, 16, 20));
    out.push('-');
    text::push_all(&mut out, &text::slice_of(&hex, 20, 32));
    assert(out@ =~= id_of(bytes@));
    text::string_of(&out)
}

/// A fresh random identifier.
pub fn new_id() -> (id: String)
    ensures
        id@.len() == 36,
{
    let bytes = crate::crypto::random_bytes::<16>();
    let id = format_id(&bytes);
    proof {
        lemma_hex_len(bytes@);
    }
    id
}

} // verus!

verus! {

// ---------------------------------------------------------------------------
// Categories and entries
// ---------------------------------------------------------------------------

#[derive(Debug, Clone)]
pub struct Category {
    pub id: String,
    pub name: String,
    pub builtin: bool,
    pub sort: i32,
}

impl Category {
    /// The built-in category for SAP accounts.
    pub fn sap() -> (c: Self)
        ensures
            c.id@ == SAP_CATEGORY_ID@,
            c.name@ == "SAP 账号"@,
            c.builtin,
            c.sort == 0,
    {
        Category { id: SAP_CATEGORY_ID.to_owned(), name: "SAP 账号".to_owned(), builtin: true, sort: 0 }
    }

    /// The built-in category for everything else.
    pub fn general() -> (c: Self)
        ensures
            c.id@ == DEFAULT_CATEGORY_ID@,
            c.name@ == "通用账号"@,
            c.builtin,
            c.sort == 1,
    {
        Category {
            id: DEFAULT_CATEGORY_ID.to_owned(),
            name: "通用账号".to_owned(),
            builtin: true,
            sort: 1,
        }
    }
}

/// A password an entry used before.
#[derive(Debug, Clone)]
pub struct HistoryEntry {
    pub id: String,
    pub password: String,
    pub recorded_at: String,
    pub note: String,
    /// Recorded by a password change rather than by hand.
    pub automatic: bool,
}

#[derive(Debug, Clone)]
pub struct Entry {
    pub id: String,
    pub title: String,
    pub category_id: String,
    pub username: String,
    /// When true the entry uses the global Knox ID as its user name; the
    /// stored `username` is kept so switching back is lossless.
    pub use_knox_id: bool,
    pub password: String,
    pub notes: String,
    pub favorite: bool,
    pub rule: Option<PasswordRule>,
    /// How many previous passwords may not be reused.
    pub history_cycle: u32,
    /// Newest first.
    pub password_history: Vec<HistoryEntry>,
    pub sap: Option<SapLaunch>,
    pub created_at: String,
    pub updated_at: String,
    pub last_used_at: Option<String>,
}

pub open spec fn effective_username_spec(e: Entry, knox_id: Seq<char>) -> Seq<char> {
    if e.use_knox_id && knox_id.len() > 0 {
        knox_id
    } else {
        e.username@
    }
}

pub open spec fn system_id_spec(e: Entry) -> Seq<char> {
    match e.sap {
        Some(s) => text::unicode_upper(text::trim(s.system_id@)),
        None => seq![],
    }
}

impl Entry {
    pub fn effective_username(&self, knox_id: &str) -> (r: String)
        ensures
            r@ == effective_username_spec(*self, knox_id@),
    {
        let k = text::chars_of(knox_id);
        if self.use_knox_id && k.len() > 0 {
            knox_id.to_owned()
        } else {
            self.username.clone()
        }
    }

    /// The SAP system ID, trimmed and in upper case; empty without SAP settings.
    pub fn system_id(&self) -> (r: String)
        ensures
            r@ == system_id_spec(*self),
    {
        match &self.sap {
            Some(s) => {
                let t = text::trim_str(s.system_id.as_str());
                text::to_uppercase(text::string_of(&t).as_str())
            },
            None => String::new(),
        }
    }
}

// ---------------------------------------------------------------------------
// Content files
// ---------------------------------------------------------------------------

/// "Write the password of `entry_id` into the value at `key_path`."
#[derive(Debug, Clone)]
pub struct FileBinding {
    pub id: String,
    pub key_path: String,
    pub entry_id: String,
}

impl FileBinding {
    pub fn new(key_path: &str, entry_id: &str) -> (b: Self)
        ensures
            b.key_path@ == key_path@,
            b.entry_id@ == entry_id@,
            b.id@.len() == 36,
    {
        FileBinding { id: new_id(), key_path: key_path.to_owned(), entry_id: entry_id.to_owned() }
    }
}

/// A content file attached to the vault, with its cached analysis and the
/// accounts bound to its keys.
#[derive(Debug, Clone)]
pub struct SyncFile {
    pub id: String,
    pub path: String,
    pub label: String,
    pub keys: KeyMapping,
    pub analysis: Option<LinkParse>,
    pub bindings: Vec<FileBinding>,
    pub exists: bool,
    pub size: u64,
    pub modified_at: Option<String>,
    pub added_at: String,
    pub last_sync_at: Option<String>,
    pub last_status: Option<String>,
}

impl SyncFile {
    /// A new file entry for `path`, labelled with its file name (or the
    /// whole path when it has none). The file's size and time stamp are
    /// read by the caller.
    pub fn from_path(path: &str, keys: KeyMapping, analysis: Option<LinkParse>) -> (f: Self)
        ensures
            f.path@ == path@,
            f.label@ == (if crate::keys::file_name_spec(path@).len() == 0 {
                path@
            } else {
                crate::keys::file_name_spec(path@)
            }),
            f.keys == keys,
            f.analysis == analysis,
            f.bindings@.len() == 0,
            f.exists,
            f.size == 0,
            f.modified_at is None,
            f.last_sync_at is None,
            f.last_status is None,
    {
        let p = text::chars_of(path);
        let name = crate::keys::file_name(&p);
        let label = if name.len() == 0 {
            path.to_owned()
        } else {
            text::string_of(&name)
        };
        SyncFile {
            id: new_id(),
            path: path.to_owned(),
            label,
            keys,
            analysis,
            bindings: Vec::new(),
            exists: true,
            size: 0,
            modified_at: None,
            added_at: now_string(),
            last_sync_at: None,
            last_status: None,
        }
    }
}

/// A content file of the first vault layout, stored inside its entry.
#[derive(Debug, Clone)]
pub struct LegacyLink {
    pub path: String,
    pub keys: KeyMapping,
}

#[derive(Debug, Clone)]
pub struct LegacyEntryLinks {
    pub entry_id: String,
    pub links: Vec<LegacyLink>,
}

// ---------------------------------------------------------------------------
// The vault
// ---------------------------------------------------------------------------

#[derive(Debug, Clone)]
pub struct Vault {
    pub schema: u32,
    pub knox_id: String,
    pub categories: Vec<Category>,
    pub entries: Vec<Entry>,
    pub files: Vec<SyncFile>,
    /// Content files of the first layout, folded into `files` on load.
    pub legacy_links: Vec<LegacyEntryLinks>,
    pub updated_at: String,
}

impl Default for Vault {
    fn default() -> (v: Self)
        ensures
            v.schema == VAULT_SCHEMA,
            v.knox_id@.len() == 0,
            v.categories@.len() == 2,
            v.categories@[0].id@ == SAP_CATEGORY_ID@,
            v.categories@[1].id@ == DEFAULT_CATEGORY_ID@,
            v.entries@.len() == 0,
            v.files@.len() == 0,
            v.legacy_links@.len() == 0,
    {
        let mut categories: Vec<Category> = Vec::new();
        categories.push(Category::sap());
        categories.push(Category::general());
        Vault {
            schema: VAULT_SCHEMA,
            knox_id: String::new(),
            categories,
            entries: Vec::new(),
            files: Vec::new(),
            legacy_links: Vec::new(),
            updated_at: now_string(),
        }
    }
}

/// The entries of the SAP category, in order.
pub open spec fn sap_entries_spec(entries: Seq<Entry>) -> Seq<Entry> {
    entries.filter(|e: Entry| e.category_id@ == SAP_CATEGORY_ID@)
}

/// Index of the first category with the id.
pub open spec fn find_category(cats: Seq<Category>, id: Seq<char>) -> Option<int>
    decreases cats.len(),
{
    if cats.len() == 0 {
        None
    } else {
        match find_category(cats.drop_last(), id) {
            Some(i) => Some(i),
            None => if cats.last().id@ == id {
                Some(cats.len() - 1)
            } else {
                None
            },
        }
    }
}

/// Index of the first entry with the id.
pub open spec fn find_entry(entries: Seq<Entry>, id: Seq<char>) -> Option<int>
    decreases entries.len(),
{
    if entries.len() == 0 {
        None
    } else {
        match find_entry(entries.drop_last(), id) {
            Some(i) => Some(i),
            None => if entries.last().id@ == id {
                Some(entries.len() - 1)
            } else {
                None
            },
        }
    }
}

pub open spec fn not_found(e: AppError, what: Seq<char>, id: Seq<char>) -> bool {
    e matches AppError::NotFound(m) && m@ == what + id
}

pub fn category_index(cats: &Vec<Category>, id: &str) -> (r: Option<usize>)
    ensures
        match r {
            Some(i) => find_category(cats@, id@) == Some(i as int) && i < cats.len(),
            None => find_category(cats@, id@) is None,
        },
{
    let mut i: usize = 0;
    assert(cats@.take(0) =~= Seq::<Category>::empty());
    while i < cats.len()
        invariant
            i <= cats.len(),
            find_category(cats@.take(i as int), id@) is None,
        decreases cats.len() - i,
    {
        assert(cats@.take(i + 1).drop_last() =~= cats@.take(i as int));
        if text::str_eq(cats[i].id.as_str(), id) {
            proof {
                lemma_find_category_prefix(cats@, id@, i as int + 1, i as int);
            }
            return Some(i);
        }
        i += 1;
    }
    assert(cats@.take(cats.len() as int) =~= cats@);
    None
}

proof fn lemma_find_category_prefix(cats: Seq<Category>, id: Seq<char>, n: int, k: int)
    requires
        0 < n <= cats.len(),
        find_category(cats.take(n), id) == Some(k),
    ensures
        find_category(cats, id) == Some(k),
    decreases cats.len() - n,
{
    if n < cats.len() {
        assert(cats.take(n + 1).drop_last() =~= cats.take(n));
        lemma_find_category_prefix(cats, id, n + 1, k);
    } else {
        assert(cats.take(n) =~= cats);
    }
}

pub fn entry_index(entries: &Vec<Entry>, id: &str) -> (r: Option<usize>)
    ensures
        match r {
            Some(i) => find_entry(entries@, id@) == Some(i as int) && i < entries.len(),
            None => find_entry(entries@, id@) is None,
        },
{
    let mut i: usize = 0;
    assert(entries@.take(0) =~= Seq::<Entry>::empty());
    while i < entries.len()
        invariant
            i <= entries.len(),
            find_entry(entries@.take(i as int), id@) is None,
        decreases entries.len() - i,
    {
        assert(entries@.take(i + 1).drop_last() =~= entries@.take(i as int));
        if text::str_eq(entries[i].id.as_str(), id) {
            proof {
                lemma_find_entry_prefix(entries@, id@, i as int + 1, i as int);
            }
            return Some(i);
        }
        i += 1;
    }
    assert(entries@.take(entries.len() as int) =~= entries@);
    None
}

proof fn lemma_find_entry_prefix(entries: Seq<Entry>, id: Seq<char>, n: int, k: int)
    requires
        0 < n <= entries.len(),
        find_entry(entries.take(n), id) == Some(k),
    ensures
        find_entry(entries, id) == Some(k),
    decreases entries.len() - n,
{
    if n < entries.len() {
        assert(entries.take(n + 1).drop_last() =~= entries.take(n));
        lemma_find_entry_prefix(entries, id, n + 1, k);
    } else {
        assert(entries.take(n) =~= entries);
    }
}

fn not_found_error(what: &str, id: &str) -> (e: AppError)
    ensures
        not_found(e, what@, id@),
{
    let mut m = text::chars_of(what);
    text::push_str(&mut m, id);
    AppError::NotFound(text::string_of(&m))
}

impl Vault {
    pub fn category(&self, id: &str) -> (r: Result<&Category, AppError>)
        ensures
            match find_category(self.categories@, id@) {
                Some(i) => r matches Ok(c) && *c == self.categories@[i],
                None => r matches Err(e) && not_found(e, "分类 "@, id@),
            },
    {
        match category_index(&self.categories, id) {
            Some(i) => Ok(&self.categories[i]),
            None => Err(not_found_error("分类 ", id)),
        }
    }

    pub fn entry(&self, id: &str) -> (r: Result<&Entry, AppError>)
        ensures
            match find_entry(self.entries@, id@) {
                Some(i) => r matches Ok(e) && *e == self.entries@[i],
                None => r matches Err(e) && not_found(e, "条目 "@, id@),
            },
    {
        match entry_index(&self.entries, id) {
            Some(i) => Ok(&self.entries[i]),
            None => Err(not_found_error("条目 ", id)),
        }
    }

    /// The entries of the SAP category, in order.
    pub fn sap_entries(&self) -> (r: Vec<&Entry>)
        ensures
            r@.map_values(|e: &Entry| *e) == self.entries@.filter(|e: Entry| e.category_id@ == SAP_CATEGORY_ID@),
    {
        let mut r: Vec<&Entry> = Vec::new();
        let mut i: usize = 0;
        assert(self.entries@.take(0).filter(|e: Entry| e.category_id@ == SAP_CATEGORY_ID@) =~= Seq::<Entry>::empty());
        while i < self.entries.len()
            invariant
                i <= self.entries.len(),
                r@.map_values(|e: &Entry| *e) == self.entries@.take(i as int).filter(
                    |e: Entry| e.category_id@ == SAP_CATEGORY_ID@,
                ),
            decreases self.entries.len() - i,
        {
            let ghost before = r@.map_values(|e: &Entry| *e);
            let e = &self.entries[i];
            proof {
                reveal(Seq::filter);
                assert(self.entries@.take(i + 1).drop_last() =~= self.entries@.take(i as int));
            }
            if text::str_eq(e.category_id.as_str(), SAP_CATEGORY_ID) {
                r.push(e);
                assert(r@.map_values(|e: &Entry| *e) =~= before.push(*e));
            } else {
                assert(r@.map_values(|e: &Entry| *e) =~= before);
            }
            i += 1;
        }
        assert(self.entries@.take(self.entries.len() as int) =~= self.entries@);
        r
    }
}

} // verus!

verus! {

// ---------------------------------------------------------------------------
// List payloads
// ---------------------------------------------------------------------------

/// Entry payload for list rendering. Passwords never travel in the list; the
/// user interface asks for a single entry when it needs the secret.
#[derive(Debug, Clone)]
pub struct EntrySummary {
    pub id: String,
    pub title: String,
    pub category_id: String,
    pub username: String,
    pub use_knox_id: bool,
    pub has_password: bool,
    pub favorite: bool,
    pub system_id: String,
    pub client: String,
    pub language: String,
    pub has_rule: bool,
    pub history_count: usize,
    pub updated_at: String,
    pub last_used_at: Option<String>,
}

pub open spec fn summary_of(e: Entry, knox_id: Seq<char>) -> (Seq<char>, Seq<char>, Seq<char>, Seq<char>, bool, bool, bool, Seq<char>, Seq<char>, Seq<char>, bool, int) {
    (
        e.id@,
        e.title@,
        e.category_id@,
        effective_username_spec(e, knox_id),
        e.use_knox_id,
        e.password@.len() > 0,
        e.favorite,
        system_id_spec(e),
        match e.sap {
            Some(s) => s.client@,
            None => seq![],
        },
        match e.sap {
            Some(s) => s.language@,
            None => seq![],
        },
        e.rule is Some,
        e.password_history@.len() as int,
    )
}

impl EntrySummary {
    pub open spec fn shape(self) -> (Seq<char>, Seq<char>, Seq<char>, Seq<char>, bool, bool, bool, Seq<char>, Seq<char>, Seq<char>, bool, int) {
        (
            self.id@,
            self.title@,
            self.category_id@,
            self.username@,
            self.use_knox_id,
            self.has_password,
            self.favorite,
            self.system_id@,
            self.client@,
            self.language@,
            self.has_rule,
            self.history_count as int,
        )
    }

    pub fn from(entry: &Entry, knox_id: &str) -> (s: Self)
        ensures
            s.shape() == summary_of(*entry, knox_id@),
            s.updated_at == entry.updated_at,
            s.last_used_at == entry.last_used_at,
    {
        let (client, language) = match &entry.sap {
            Some(sap) => (sap.client.clone(), sap.language.clone()),
            None => (String::new(), String::new()),
        };
        let pw = text::chars_of_string(&entry.password);
        EntrySummary {
            id: entry.id.clone(),
            title: entry.title.clone(),
            category_id: entry.category_id.clone(),
            username: entry.effective_username(knox_id.clone()),
            use_knox_id: entry.use_knox_id,
            has_password: pw.len() > 0,
            favorite: entry.favorite,
            system_id: entry.system_id(),
            client,
            language,
            has_rule: entry.rule.is_some(),
            history_count: entry.password_history.len(),
            updated_at: entry.updated_at.clone(),
            last_used_at: entry.last_used_at.clone(),
        }
    }
}

/// One SAP account and the content files bound to it.
#[derive(Debug, Clone)]
pub struct Association {
    pub entry_id: String,
    pub entry_title: String,
    pub system_id: String,
    pub username: String,
    /// Labels of the files with at least one key bound to the account.
    pub files: Vec<String>,
}

pub open spec fn binds(f: SyncFile, entry_id: Seq<char>) -> bool {
    exists|k: int| 0 <= k < f.bindings@.len() && #[trigger] f.bindings@[k].entry_id@ == entry_id
}

/// Labels of the files bound to the entry, in file order.
pub open spec fn bound_labels(files: Seq<SyncFile>, entry_id: Seq<char>) -> Seq<Seq<char>>
    decreases files.len(),
{
    if files.len() == 0 {
        seq![]
    } else {
        bound_labels(files.drop_last(), entry_id) + (if binds(files.last(), entry_id) {
            seq![files.last().label@]
        } else {
            seq![]
        })
    }
}

fn file_binds(f: &SyncFile, entry_id: &str) -> (r: bool)
    ensures
        r == binds(*f, entry_id@),
{
    let mut k: usize = 0;
    while k < f.bindings.len()
        invariant
            k <= f.bindings.len(),
            forall|j: int| 0 <= j < k ==> #[trigger] f.bindings@[j].entry_id@ != entry_id@,
        decreases f.bindings.len() - k,
    {
        if text::str_eq(f.bindings[k].entry_id.as_str(), entry_id) {
            return true;
        }
        k += 1;
    }
    false
}

fn bound_files(files: &Vec<SyncFile>, entry_id: &str) -> (r: Vec<String>)
    ensures
        strings_view(r@) == bound_labels(files@, entry_id@),
{
    let mut r: Vec<String> = Vec::new();
    let mut i: usize = 0;
    assert(files@.take(0) =~= Seq::<SyncFile>::empty());
    while i < files.len()
        invariant
            i <= files.len(),
            strings_view(r@) == bound_labels(files@.take(i as int), entry_id@),
        decreases files.len() - i,
    {
        assert(files@.take(i + 1).drop_last() =~= files@.take(i as int));
        let ghost before = strings_view(r@);
        if file_binds(&files[i], entry_id) {
            r.push(files[i].label.clone());
        }
        i += 1;
        assert(strings_view(r@) =~= bound_labels(files@.take(i as int), entry_id@));
    }
    assert(files@.take(files.len() as int) =~= files@);
    r
}

#[derive(Debug, Clone)]
pub struct VaultView {
    pub knox_id: String,
    pub categories: Vec<Category>,
    pub entries: Vec<EntrySummary>,
    pub associations: Vec<Association>,
    pub updated_at: String,
}

fn copy_category(c: &Category) -> (r: Category)
    ensures
        r == *c,
{
    Category { id: c.id.clone(), name: c.name.clone(), builtin: c.builtin, sort: c.sort }
}

impl VaultView {
    /// The list payload of a vault: every entry summarised, and one
    /// association per SAP entry.
    pub fn build(vault: &Vault) -> (v: Self)
        ensures
            v.knox_id == vault.knox_id,
            v.categories@ == vault.categories@,
            v.entries@.len() == vault.entries@.len(),
            forall|i: int| 0 <= i < v.entries@.len() ==> #[trigger] v.entries@[i].shape() == summary_of(vault.entries@[i], vault.knox_id@),
            v.associations@.len() == sap_entries_spec(vault.entries@).len(),
            forall|i: int| 0 <= i < v.associations@.len() ==> {
                let e = sap_entries_spec(vault.entries@)[i];
                let a = #[trigger] v.associations@[i];
                &&& a.entry_id == e.id
                &&& a.entry_title == e.title
                &&& a.system_id@ == system_id_spec(e)
                &&& a.username@ == effective_username_spec(e, vault.knox_id@)
                &&& strings_view(a.files@) == bound_labels(vault.files@, e.id@)
            },
            v.updated_at == vault.updated_at,
    {
        let mut categories: Vec<Category> = Vec::new();
        let mut i: usize = 0;
        while i < vault.categories.len()
            invariant
                i <= vault.categories.len(),
                categories@ == vault.categories@.take(i as int),
            decreases vault.categories.len() - i,
        {
            categories.push(copy_category(&vault.categories[i]));
            i += 1;
            assert(categories@ =~= vault.categories@.take(i as int));
        }
        assert(vault.categories@.take(vault.categories.len() as int) =~= vault.categories@);
        let mut entries: Vec<EntrySummary> = Vec::new();
        let mut i: usize = 0;
        while i < vault.entries.len()
            invariant
                i <= vault.entries.len(),
                entries@.len() == i,
                forall|k: int| 0 <= k < i ==> #[trigger] entries@[k].shape() == summary_of(vault.entries@[k], vault.knox_id@),
            decreases vault.entries.len() - i,
        {
            entries.push(EntrySummary::from(&vault.entries[i], vault.knox_id.as_str()));
            i += 1;
        }
        let sap = vault.sap_entries();
        let ghost sv = sap@.map_values(|e: &Entry| *e);
        let mut associations: Vec<Association> = Vec::new();
        let mut i: usize = 0;
        while i < sap.len()
            invariant
                i <= sap.len(),
                sv == sap@.map_values(|e: &Entry| *e),
                associations@.len() == i,
                forall|k: int| 0 <= k < i ==> {
                    let e = #[trigger] sv[k];
                    let a = associations@[k];
                    &&& a.entry_id == e.id
                    &&& a.entry_title == e.title
                    &&& a.system_id@ == system_id_spec(e)
                    &&& a.username@ == effective_username_spec(e, vault.knox_id@)
                    &&& strings_view(a.files@) == bound_labels(vault.files@, e.id@)
                },
            decreases sap.len() - i,
        {
            let e: &Entry = sap[i];
            assert(*e == sv[i as int]);
            let a = Association {
                entry_id: e.id.clone(),
                entry_title: e.title.clone(),
                system_id: e.system_id(),
                username: e.effective_username(vault.knox_id.as_str()),
                files: bound_files(&vault.files, e.id.as_str()),
            };
            associations.push(a);
            i += 1;
        }
        VaultView {
            knox_id: vault.knox_id.clone(),
            categories,
            entries,
            associations,
            updated_at: vault.updated_at.clone(),
        }
    }
}

} // verus!

verus! {

/// Where a value sits in a document: its byte range, whether it is written
/// inside quotes and whether it is an XML attribute value.
#[derive(Debug, Clone, Copy, PartialEq, Eq, Structural)]
pub struct FieldLocation {
    pub start: usize,
    pub end: usize,
    pub quoted: bool,
    pub xml_attr: bool,
    pub line: u32,
}

} // verus!

verus! {

// ---------------------------------------------------------------------------
// Content links of the first layout
// ---------------------------------------------------------------------------

/// Where a linked content file came from.
#[derive(Debug, Clone, Copy, PartialEq, Eq)]
pub enum LinkOrigin {
    Manual,
    Scan,
}

/// Why the scanner considers a file to belong to an SAP account.
#[derive(Debug, Clone)]
pub struct ScanEvidence {
    pub host: String,
    pub system_id: String,
    pub username: String,
    pub matched: Vec<String>,
    pub first_line: u32,
    pub excerpt: String,
}

/// A file associated with an account.
#[derive(Debug, Clone)]
pub struct ContentLink {
    pub id: String,
    pub path: String,
    pub label: String,
    pub origin: LinkOrigin,
    pub evidence: Option<ScanEvidence>,
    pub added_at: String,
    pub exists: bool,
    pub size: u64,
    pub modified_at: Option<String>,
}

impl ContentLink {
    /// A new link for `path`, labelled with its file name (or the whole path
    /// when it has none). The file's size and time stamp are read by the
    /// caller.
    pub fn from_path(path: &str, origin: LinkOrigin, evidence: Option<ScanEvidence>) -> (l: Self)
        ensures
            l.path@ == path@,
            l.label@ == (if crate::keys::file_name_spec(path@).len() == 0 {
                path@
            } else {
                crate::keys::file_name_spec(path@)
            }),
            l.origin == origin,
            l.evidence == evidence,
            l.exists,
            l.size == 0,
            l.modified_at is None,
    {
        let p = text::chars_of(path);
        let name = crate::keys::file_name(&p);
        let label = if name.len() == 0 {
            path.to_owned()
        } else {
            text::string_of(&name)
        };
        ContentLink {
            id: new_id(),
            path: path.to_owned(),
            label,
            origin,
            evidence,
            added_at: now_string(),
            exists: true,
            size: 0,
            modified_at: None,
        }
    }
}

/// SAP details of an account in the first layout: the system ID and the
/// hosts the landscape resolves for it.
#[derive(Debug, Clone, Default)]
pub struct SapAccount {
    pub system_id: String,
    pub client: String,
    pub language: String,
    pub system_name: String,
    pub hosts: Vec<String>,
    pub landscape_source: String,
}

/// A global configuration file the accounts' content is pushed into.
#[derive(Debug, Clone)]
pub struct SyncTarget {
    pub id: String,
    pub name: String,
    /// `mcp` targets are the primary use case.
    pub kind: String,
    pub path: String,
    pub format: String,
    pub enabled: bool,
    pub template: String,
    pub include_files: bool,
    pub backup: bool,
    pub last_sync_at: Option<String>,
    pub last_status: Option<String>,
}

} // verus!
