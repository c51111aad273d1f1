//! What the user interface asks of the vault: the payloads it sends and
//! receives, and the changes each request makes to an open vault.

use vstd::prelude::*;
use crate::error::AppError;
use crate::model::{
    self, Category, Entry, FileBinding, HistoryEntry, KeyMapping, LinkParse, PasswordRule, SapLaunch, SyncFile, Vault,
    find_category, find_entry, category_index, entry_index, not_found, strings_view, MAX_PASSWORD_HISTORY,
    SAP_CATEGORY_ID, DEFAULT_CATEGORY_ID,
};
use crate::rules::{self, validate_spec};
use crate::store::Settings;
use crate::text::{self, trim, upper_seq, lower_seq, starts_with};

verus! {

// ---------------------------------------------------------------------------
// Payloads
// ---------------------------------------------------------------------------

/// A message the backend pushes to the user interface.
#[derive(Debug, Clone)]
pub struct Notice {
    pub kind: String,
    pub message: String,
}

/// What the user interface needs at start.
#[derive(Debug, Clone)]
pub struct Bootstrap {
    pub has_vault: bool,
    pub mode: Option<String>,
    pub hint: String,
    pub unlocked: bool,
    pub settings: Settings,
    pub data_dir: String,
    pub vault_path: String,
    pub portable: bool,
    pub supported_formats: Vec<String>,
    pub version: String,
    pub startup_error: Option<String>,
}

/// An entry as the edit form sends it.
#[derive(Debug, Clone)]
pub struct EntryInput {
    pub id: Option<String>,
    pub title: String,
    pub category_id: String,
    pub username: String,
    pub use_knox_id: bool,
    pub password: String,
    pub notes: String,
    pub favorite: bool,
    /// `None` removes the rule from the entry.
    pub rule: Option<PasswordRule>,
    pub history_cycle: u32,
    /// Set after the user accepted a rule or cycle warning.
    pub force: bool,
    /// SAP GUI launch settings; `None` (or an empty value) clears them.
    pub sap: Option<SapLaunch>,
}

#[derive(Debug, Clone)]
pub struct SapGuiStatus {
    /// `sapshcut.exe` that would be started, when one was found.
    pub executable: Option<String>,
    /// Every path that was probed, so a failed detection can be explained.
    pub candidates: Vec<String>,
    pub landscape_files: Vec<String>,
    pub system_count: usize,
    pub password_mode: String,
    /// System IDs SAP Logon knows more than once: those need the connection
    /// string pinned, otherwise the wrong system could open.
    pub duplicate_system_ids: Vec<String>,
}

/// A file to attach, with its own key words or the default ones.
#[derive(Debug, Clone)]
pub struct FileDraft {
    pub path: String,
    pub keys: Option<KeyMapping>,
}

/// A file as parsed, before it is stored.
#[derive(Debug, Clone)]
pub struct FileInspection {
    pub path: String,
    pub label: String,
    pub format: String,
    pub supported: bool,
    pub exists: bool,
    pub size: u64,
    pub keys: KeyMapping,
    pub analysis: LinkParse,
}

/// "Write the password of this account into this key."
#[derive(Debug, Clone)]
pub struct BindingInput {
    pub key_path: String,
    pub entry_id: String,
}

/// The beginning of a file, for display.
#[derive(Debug, Clone)]
pub struct FilePreview {
    pub path: String,
    pub exists: bool,
    pub size: u64,
    pub content: String,
    pub truncated: bool,
}

// ---------------------------------------------------------------------------
// Small helpers
// ---------------------------------------------------------------------------

pub fn msg(m: &str) -> (e: AppError)
    ensures
        e matches AppError::Msg(s) && s@ == m@,
{
    AppError::Msg(text::string_of(&text::chars_of(m)))
}

fn not_found_error(what: &str, id: &str) -> (e: AppError)
    ensures
        not_found(e, what@, id@),
{
    let mut m = text::chars_of(what);
    text::push_str(&mut m, id);
    AppError::NotFound(text::string_of(&m))
}

// ---------------------------------------------------------------------------
// Knox ID and categories
// ---------------------------------------------------------------------------

/// Sets the Knox ID (trimmed).
pub fn knox_set(vault: &mut Vault, knox_id: &str)
    ensures
        final(vault).knox_id@ == trim(knox_id@),
        final(vault).entries == old(vault).entries,
        final(vault).categories == old(vault).categories,
        final(vault).files == old(vault).files,
{
    vault.knox_id = text::string_of(&text::trim_str(knox_id));
}

pub open spec fn has_category_named(cats: Seq<Category>, name: Seq<char>) -> bool {
    exists|i: int| 0 <= i < cats.len() && (#[trigger] cats[i]).name@ == name
}

/// The highest sort key of the categories, or 0 when there are none.
pub open spec fn max_sort(cats: Seq<Category>) -> int
    decreases cats.len(),
{
    if cats.len() == 0 {
        0
    } else if cats.len() == 1 {
        cats[0].sort as int
    } else {
        let prev = max_sort(cats.drop_last());
        if cats.last().sort > prev {
            cats.last().sort as int
        } else {
            prev
        }
    }
}

/// Adds a category with the trimmed name after the others; an empty name or
/// one already taken is refused.
pub fn category_create(vault: &mut Vault, name: &str) -> (r: Result<(), AppError>)
    requires
        max_sort(old(vault).categories@) < i32::MAX,
    ensures
        trim(name@).len() == 0 ==> (r matches Err(AppError::Msg(m)) && m@ == "分类名称不能为空"@ && *final(vault) == *old(vault)),
        trim(name@).len() > 0 && has_category_named(old(vault).categories@, trim(name@)) ==> (
            r matches Err(AppError::Msg(m)) && m@ == "分类「"@ + trim(name@) + "」已存在"@ && *final(vault) == *old(vault)),
        trim(name@).len() > 0 && !has_category_named(old(vault).categories@, trim(name@)) ==> (r is Ok
            && final(vault).categories@.len() == old(vault).categories@.len() + 1
            && final(vault).categories@.drop_last() == old(vault).categories@
            && final(vault).categories@.last().name@ == trim(name@)
            && !final(vault).categories@.last().builtin
            && final(vault).categories@.last().sort == max_sort(old(vault).categories@) + 1
            && final(vault).entries == old(vault).entries),
{
    let n = text::trim_str(name);
    if n.len() == 0 {
        return Err(msg("分类名称不能为空"));
    }
    let mut i: usize = 0;
    let mut top: i32 = 0;
    while i < vault.categories.len()
        invariant
            i <= vault.categories.len(),
            n@ == trim(name@),
            n@.len() > 0,
            *vault == *old(vault),
            max_sort(vault.categories@) < i32::MAX,
            top == max_sort(vault.categories@.take(i as int)),
            forall|k: int| 0 <= k < i ==> (#[trigger] vault.categories@[k]).name@ != n@,
        decreases vault.categories.len() - i,
    {
        assert(vault.categories@.take(i + 1).drop_last() =~= vault.categories@.take(i as int));
        if text::seq_eq(&text::chars_of_string(&vault.categories[i].name), &n) {
            let mut m = text::chars_of("分类「");
            text::push_all(&mut m, &n);
            text::push_str(&mut m, "」已存在");
            return Err(AppError::Msg(text::string_of(&m)));
        }
        let s = vault.categories[i].sort;
        if i == 0 || s > top {
            top = s;
        }
        i += 1;
    }
    assert(vault.categories@.take(vault.categories.len() as int) =~= vault.categories@);
    vault.categories.push(Category { id: model::new_id(), name: text::string_of(&n), builtin: false, sort: top + 1 });
    assert(vault.categories@.drop_last() =~= old(vault).categories@);
    Ok(())
}

/// Renames a category; the SAP category is fixed.
pub fn category_rename(vault: &mut Vault, id: &str, name: &str) -> (r: Result<(), AppError>)
    ensures
        trim(name@).len() == 0 ==> (r matches Err(AppError::Msg(m)) && m@ == "分类名称不能为空"@ && *final(vault) == *old(vault)),
        trim(name@).len() > 0 && id@ == SAP_CATEGORY_ID@ ==> (r matches Err(AppError::Msg(m)) && m@ == "SAP 分类是固定分类，不能重命名"@
            && *final(vault) == *old(vault)),
        trim(name@).len() > 0 && id@ != SAP_CATEGORY_ID@ ==> match find_category(old(vault).categories@, id@) {
            Some(i) => r is Ok && final(vault).categories@ == old(vault).categories@.update(
                i,
                Category { name: final(vault).categories@[i].name, ..old(vault).categories@[i] },
            ) && final(vault).categories@[i].name@ == trim(name@) && final(vault).entries == old(vault).entries,
            None => (r matches Err(e) && not_found(e, "分类 "@, id@)) && *final(vault) == *old(vault),
        },
{
    let n = text::trim_str(name);
    if n.len() == 0 {
        return Err(msg("分类名称不能为空"));
    }
    if text::str_eq(id, SAP_CATEGORY_ID) {
        return Err(msg("SAP 分类是固定分类，不能重命名"));
    }
    match category_index(&vault.categories, id) {
        None => Err(not_found_error("分类 ", id)),
        Some(i) => {
            let mut c = vault.categories.remove(i);
            c.name = text::string_of(&n);
            vault.categories.insert(i, c);
            assert(vault.categories@ =~= old(vault).categories@.update(i as int, c));
            Ok(())
        },
    }
}

/// Removes a category; its entries move to the general category. The SAP
/// and the general category cannot be removed.
pub fn category_delete(vault: &mut Vault, id: &str) -> (r: Result<(), AppError>)
    ensures
        id@ == SAP_CATEGORY_ID@ ==> (r matches Err(AppError::Msg(m)) && m@ == "SAP 分类是固定分类，不能删除"@ && *final(vault) == *old(vault)),
        id@ == DEFAULT_CATEGORY_ID@ ==> (r matches Err(AppError::Msg(m)) && m@ == "默认分类不能删除"@ && *final(vault) == *old(vault)),
        id@ != SAP_CATEGORY_ID@ && id@ != DEFAULT_CATEGORY_ID@ ==> r is Ok && final(vault).categories@ == old(vault).categories@.filter(
            |c: Category| c.id@ != id@,
        ) && final(vault).entries@.len() == old(vault).entries@.len() && (forall|k: int|
            0 <= k < old(vault).entries@.len() ==> #[trigger] final(vault).entries@[k] == (if old(vault).entries@[k].category_id@ == id@ {
                Entry { category_id: final(vault).entries@[k].category_id, ..old(vault).entries@[k] }
            } else {
                old(vault).entries@[k]
            }) && (old(vault).entries@[k].category_id@ == id@ ==> final(vault).entries@[k].category_id@ == DEFAULT_CATEGORY_ID@)),
{
    proof {
        reveal_strlit("sap");
        reveal_strlit("general");
        assert(SAP_CATEGORY_ID@ == "sap"@);
        assert(DEFAULT_CATEGORY_ID@ == "general"@);
        assert(SAP_CATEGORY_ID@.len() != DEFAULT_CATEGORY_ID@.len());
    }
    if text::str_eq(id, SAP_CATEGORY_ID) {
        return Err(msg("SAP 分类是固定分类，不能删除"));
    }
    if text::str_eq(id, DEFAULT_CATEGORY_ID) {
        return Err(msg("默认分类不能删除"));
    }
    let ghost cats = vault.categories@;
    let count = vault.categories.len();
    assert(cats.len() == count);
    let mut kept: Vec<Category> = Vec::new();
    let mut rest: Vec<Category> = Vec::new();
    std::mem::swap(&mut rest, &mut vault.categories);
    let mut i: usize = 0;
    assert(cats.take(0).filter(|c: Category| c.id@ != id@) =~= Seq::<Category>::empty());
    while rest.len() > 0
        invariant
            i <= cats.len(),
            cats.len() <= usize::MAX,
            rest@ == cats.skip(i as int),
            kept@ == cats.take(i as int).filter(|c: Category| c.id@ != id@),
        decreases rest.len(),
    {
        let c = rest.remove(0);
        assert(cats.take(i + 1).drop_last() =~= cats.take(i as int));
        assert(cats.take(i + 1).last() == c);
        assert(rest@ =~= cats.skip(i + 1));
        proof {
            reveal(Seq::filter);
        }
        if !text::str_eq(c.id.as_str(), id) {
            kept.push(c);
        }
        i += 1;
    }
    assert(cats.take(i as int) =~= cats);
    vault.categories = kept;
    let ghost es = vault.entries@;
    let mut k: usize = 0;
    while k < vault.entries.len()
        invariant
            k <= vault.entries.len(),
            vault.categories@ == cats.filter(|c: Category| c.id@ != id@),
            cats == old(vault).categories@,
            vault.entries@.len() == es.len(),
            es == old(vault).entries@,
            forall|j: int| k <= j < es.len() ==> vault.entries@[j] == es[j],
            forall|j: int|
                0 <= j < k ==> #[trigger] vault.entries@[j] == (if es[j].category_id@ == id@ {
                    Entry { category_id: vault.entries@[j].category_id, ..es[j] }
                } else {
                    es[j]
                }) && (es[j].category_id@ == id@ ==> vault.entries@[j].category_id@ == DEFAULT_CATEGORY_ID@),
        decreases vault.entries.len() - k,
    {
        if text::str_eq(vault.entries[k].category_id.as_str(), id) {
            let ghost before = vault.entries@;
            let mut e = vault.entries.remove(k);
            e.category_id = text::string_of(&text::chars_of(DEFAULT_CATEGORY_ID));
            vault.entries.insert(k, e);
            assert(vault.entries@ =~= before.update(k as int, e));
        }
        k += 1;
    }
    Ok(())
}

// ---------------------------------------------------------------------------
// Entries
// ---------------------------------------------------------------------------

/// Removes the entry with the id.
pub fn entry_delete(vault: &mut Vault, id: &str) -> (r: Result<(), AppError>)
    ensures
        final(vault).entries@ == old(vault).entries@.filter(|e: Entry| e.id@ != id@),
        final(vault).categories == old(vault).categories,
        final(vault).files == old(vault).files,
        (r is Ok) == (final(vault).entries@.len() < old(vault).entries@.len()),
        r matches Err(e) ==> not_found(e, "条目 "@, id@),
{
    let ghost es = vault.entries@;
    let mut kept: Vec<Entry> = Vec::new();
    let mut rest: Vec<Entry> = Vec::new();
    std::mem::swap(&mut rest, &mut vault.entries);
    let before = rest.len();
    let mut i: usize = 0;
    assert(es.take(0).filter(|e: Entry| e.id@ != id@) =~= Seq::<Entry>::empty());
    while rest.len() > 0
        invariant
            i <= es.len(),
            before == es.len(),
            rest@ == es.skip(i as int),
            kept@ == es.take(i as int).filter(|e: Entry| e.id@ != id@),
            kept@.len() <= i,
        decreases rest.len(),
    {
        let e = rest.remove(0);
        assert(es.take(i + 1).drop_last() =~= es.take(i as int));
        assert(es.take(i + 1).last() == e);
        assert(rest@ =~= es.skip(i + 1));
        proof {
            reveal(Seq::filter);
        }
        if !text::str_eq(e.id.as_str(), id) {
            kept.push(e);
        }
        i += 1;
    }
    assert(es.take(i as int) =~= es);
    let after = kept.len();
    vault.entries = kept;
    if after == before {
        return Err(not_found_error("条目 ", id));
    }
    Ok(())
}

/// Flips the favourite flag of the entry.
pub fn entry_toggle_favorite(vault: &mut Vault, id: &str) -> (r: Result<(), AppError>)
    ensures
        match find_entry(old(vault).entries@, id@) {
            Some(i) => r is Ok && final(vault).entries@ == old(vault).entries@.update(
                i,
                Entry { favorite: !old(vault).entries@[i].favorite, ..old(vault).entries@[i] },
            ),
            None => (r matches Err(e) && not_found(e, "条目 "@, id@)) && *final(vault) == *old(vault),
        },
        final(vault).categories == old(vault).categories,
{
    match entry_index(&vault.entries, id) {
        None => Err(not_found_error("条目 ", id)),
        Some(i) => {
            let mut e = vault.entries.remove(i);
            e.favorite = !e.favorite;
            vault.entries.insert(i, e);
            assert(vault.entries@ =~= old(vault).entries@.update(i as int, e));
            Ok(())
        },
    }
}

// ---------------------------------------------------------------------------
// Password history
// ---------------------------------------------------------------------------

/// At most the newest `MAX_PASSWORD_HISTORY` records.
pub open spec fn capped(h: Seq<HistoryEntry>) -> Seq<HistoryEntry> {
    if h.len() > MAX_PASSWORD_HISTORY {
        h.take(MAX_PASSWORD_HISTORY as int)
    } else {
        h
    }
}

fn record(password: String, note: String, automatic: bool) -> (h: HistoryEntry)
    ensures
        h.password == password,
        h.note == note,
        h.automatic == automatic,
{
    HistoryEntry { id: model::new_id(), password, recorded_at: model::now_string(), note, automatic }
}

/// Records a password by hand as the newest of the entry's history.
pub fn history_add(vault: &mut Vault, entry_id: &str, password: String, note: Option<String>) -> (r: Result<usize, AppError>)
    ensures
        password@.len() == 0 ==> (r matches Err(AppError::Msg(m)) && m@ == "历史密码不能为空"@ && *final(vault) == *old(vault)),
        password@.len() > 0 ==> match find_entry(old(vault).entries@, entry_id@) {
            Some(i) => r == Ok::<usize, AppError>(i as usize) && final(vault).entries@.len() == old(vault).entries@.len() && (forall|k: int|
                0 <= k < old(vault).entries@.len() && k != i ==> final(vault).entries@[k] == old(vault).entries@[k]) && {
                let e = final(vault).entries@[i];
                let o = old(vault).entries@[i];
                &&& e.password_history@.len() > 0
                &&& e.password_history@ == capped(seq![e.password_history@[0]] + o.password_history@)
                &&& e.password_history@[0].password == password
                &&& e.password_history@[0].note@ == (match note { Some(n) => n@, None => seq![] })
                &&& !e.password_history@[0].automatic
                &&& e == Entry { password_history: e.password_history, updated_at: e.updated_at, ..o }
            },
            None => (r matches Err(e) && not_found(e, "条目 "@, entry_id@)) && *final(vault) == *old(vault),
        },
{
    if text::chars_of_string(&password).len() == 0 {
        return Err(msg("历史密码不能为空"));
    }
    match entry_index(&vault.entries, entry_id) {
        None => Err(not_found_error("条目 ", entry_id)),
        Some(i) => {
            let mut e = vault.entries.remove(i);
            let n = match note {
                Some(n) => n,
                None => String::new(),
            };
            let h = record(password, n, false);
            let ghost old_h = e.password_history@;
            e.password_history.insert(0, h);
            e.password_history.truncate(MAX_PASSWORD_HISTORY);
            assert(e.password_history@ =~= capped(seq![h] + old_h));
            e.updated_at = model::now_string();
            vault.entries.insert(i, e);
            assert(vault.entries@ =~= old(vault).entries@.update(i as int, e));
            Ok(i)
        },
    }
}

/// Removes one record from the entry's history.
pub fn history_remove(vault: &mut Vault, entry_id: &str, history_id: &str) -> (r: Result<usize, AppError>)
    ensures
        match find_entry(old(vault).entries@, entry_id@) {
            Some(i) => {
                let o = old(vault).entries@[i];
                let kept = o.password_history@.filter(|h: HistoryEntry| h.id@ != history_id@);
                if kept.len() == o.password_history@.len() {
                    (r matches Err(e) && not_found(e, "历史密码 "@, history_id@)) && *final(vault) == *old(vault)
                } else {
                    r == Ok::<usize, AppError>(i as usize) && final(vault).entries@.len() == old(vault).entries@.len()
                        && final(vault).entries@[i].password_history@ == kept && final(vault).entries@[i] == Entry {
                        password_history: final(vault).entries@[i].password_history,
                        updated_at: final(vault).entries@[i].updated_at,
                        ..o
                    } && (forall|k: int|
                        0 <= k < old(vault).entries@.len() && k != i ==> final(vault).entries@[k] == old(vault).entries@[k])
                }
            },
            None => (r matches Err(e) && not_found(e, "条目 "@, entry_id@)) && *final(vault) == *old(vault),
        },
{
    let i = match entry_index(&vault.entries, entry_id) {
        None => {
            return Err(not_found_error("条目 ", entry_id));
        },
        Some(i) => i,
    };
    let ghost hs = vault.entries@[i as int].password_history@;
    let mut kept: Vec<HistoryEntry> = Vec::new();
    let mut j: usize = 0;
    assert(hs.take(0).filter(|h: HistoryEntry| h.id@ != history_id@) =~= Seq::<HistoryEntry>::empty());
    while j < vault.entries[i].password_history.len()
        invariant
            i < vault.entries.len(),
            *vault == *old(vault),
            hs == vault.entries@[i as int].password_history@,
            j <= hs.len(),
            kept@ == hs.take(j as int).filter(|h: HistoryEntry| h.id@ != history_id@),
        decreases hs.len() - j,
    {
        assert(hs.take(j + 1).drop_last() =~= hs.take(j as int));
        proof {
            reveal(Seq::filter);
        }
        let h = &vault.entries[i].password_history[j];
        if !text::str_eq(h.id.as_str(), history_id) {
            kept.push(HistoryEntry {
                id: h.id.clone(),
                password: h.password.clone(),
                recorded_at: h.recorded_at.clone(),
                note: h.note.clone(),
                automatic: h.automatic,
            });
        }
        j += 1;
    }
    assert(hs.take(hs.len() as int) =~= hs);
    if kept.len() == vault.entries[i].password_history.len() {
        return Err(not_found_error("历史密码 ", history_id));
    }
    let mut e = vault.entries.remove(i);
    e.password_history = kept;
    e.updated_at = model::now_string();
    vault.entries.insert(i, e);
    assert(vault.entries@ =~= old(vault).entries@.update(i as int, e));
    Ok(i)
}

/// Empties the entry's history.
pub fn history_clear(vault: &mut Vault, entry_id: &str) -> (r: Result<usize, AppError>)
    ensures
        match find_entry(old(vault).entries@, entry_id@) {
            Some(i) => r == Ok::<usize, AppError>(i as usize) && final(vault).entries@.len() == old(vault).entries@.len()
                && final(vault).entries@[i].password_history@.len() == 0 && final(vault).entries@[i] == Entry {
                password_history: final(vault).entries@[i].password_history,
                updated_at: final(vault).entries@[i].updated_at,
                ..old(vault).entries@[i]
            } && (forall|k: int|
                0 <= k < old(vault).entries@.len() && k != i ==> final(vault).entries@[k] == old(vault).entries@[k]),
            None => (r matches Err(e) && not_found(e, "条目 "@, entry_id@)) && *final(vault) == *old(vault),
        },
{
    match entry_index(&vault.entries, entry_id) {
        None => Err(not_found_error("条目 ", entry_id)),
        Some(i) => {
            let mut e = vault.entries.remove(i);
            e.password_history.clear();
            e.updated_at = model::now_string();
            vault.entries.insert(i, e);
            assert(vault.entries@ =~= old(vault).entries@.update(i as int, e));
            Ok(i)
        },
    }
}

} // verus!

verus! {

// ---------------------------------------------------------------------------
// Saving an entry
// ---------------------------------------------------------------------------

/// The passwords an entry's cycle forbids: the current one and the newest
/// recorded ones, `history_cycle` in all (none without a cycle).
pub open spec fn forbidden_reuse_spec(e: Entry, current: Seq<char>) -> Seq<Seq<char>> {
    if e.history_cycle == 0 {
        seq![]
    } else {
        let n: int = if e.history_cycle - 1 < e.password_history@.len() {
            e.history_cycle - 1
        } else {
            e.password_history@.len() as int
        };
        seq![current] + Seq::new(n as nat, |k: int| e.password_history@[k].password@)
    }
}

pub fn forbidden_reuse(e: &Entry, current: &str) -> (r: Vec<String>)
    ensures
        strings_view(r@) == forbidden_reuse_spec(*e, current@),
{
    let mut out: Vec<String> = Vec::new();
    if e.history_cycle == 0 {
        assert(strings_view(out@) =~= Seq::<Seq<char>>::empty());
        return out;
    }
    out.push(text::string_of(&text::chars_of(current)));
    let limit: usize = if ((e.history_cycle - 1) as usize) < e.password_history.len() {
        (e.history_cycle - 1) as usize
    } else {
        e.password_history.len()
    };
    let mut k: usize = 0;
    while k < limit
        invariant
            k <= limit,
            limit <= e.password_history@.len(),
            out@.len() == k + 1,
            strings_view(out@)[0] == current@,
            forall|j: int| 0 <= j < k ==> strings_view(out@)[j + 1] == e.password_history@[j].password@,
        decreases limit - k,
    {
        out.push(e.password_history[k].password.clone());
        k += 1;
    }
    assert(strings_view(out@) =~= forbidden_reuse_spec(*e, current@));
    out
}

/// SAP settings as stored: system ID and language trimmed and upper case,
/// client, connection string and transaction trimmed.
pub open spec fn sap_normalized(s: SapLaunch, r: SapLaunch) -> bool {
    &&& r.system_id@ == text::unicode_upper(trim(s.system_id@))
    &&& r.client@ == trim(s.client@)
    &&& r.language@ == text::unicode_upper(trim(s.language@))
    &&& r.guiparm@ == trim(s.guiparm@)
    &&& r.transaction@ == trim(s.transaction@)
    &&& r.service_uuid == s.service_uuid
    &&& r.maximize == s.maximize
}

pub open spec fn sap_input_rel(input: Option<SapLaunch>, r: Option<SapLaunch>) -> bool {
    match input {
        None => r is None,
        Some(s) => exists|x: SapLaunch| sap_normalized(s, x) && (if x.blank() { r is None } else { r == Some(x) }),
    }
}

fn normalize_sap(sap: &Option<SapLaunch>) -> (r: Option<SapLaunch>)
    ensures
        sap_input_rel(*sap, r),
{
    match sap {
        None => None,
        Some(s) => {
            let x = SapLaunch {
                system_id: text::to_uppercase(text::string_of(&text::trim_str(s.system_id.as_str())).as_str()),
                client: text::string_of(&text::trim_str(s.client.as_str())),
                language: text::to_uppercase(text::string_of(&text::trim_str(s.language.as_str())).as_str()),
                guiparm: text::string_of(&text::trim_str(s.guiparm.as_str())),
                service_uuid: s.service_uuid.clone(),
                transaction: text::string_of(&text::trim_str(s.transaction.as_str())),
                maximize: s.maximize,
            };
            assert(sap_normalized(*s, x));
            if x.is_empty() {
                None
            } else {
                Some(x)
            }
        },
    }
}

pub open spec fn cycle_of(input: EntryInput) -> u32 {
    if input.history_cycle > MAX_PASSWORD_HISTORY as u32 {
        MAX_PASSWORD_HISTORY as u32
    } else {
        input.history_cycle
    }
}

pub open spec fn rule_of(input: EntryInput) -> Option<PasswordRule> {
    match input.rule {
        Some(r) => Some(model::normalized_spec(r)),
        None => None,
    }
}

/// The id the input names, if it names one.
pub open spec fn input_id(input: EntryInput) -> Option<Seq<char>> {
    match input.id {
        Some(i) => if i@.len() > 0 { Some(i@) } else { None },
        None => None,
    }
}

/// What the password breaks of the entry's rule.
pub open spec fn rule_problems(input: EntryInput) -> Seq<Seq<char>> {
    match rule_of(input) {
        Some(r) => if input.password@.len() > 0 { validate_spec(input.password@, r) } else { seq![] },
        None => seq![],
    }
}

/// Whether the new password repeats one the cycle forbids.
pub open spec fn cycle_problem(vault: Vault, input: EntryInput) -> bool {
    match input_id(input) {
        Some(id) => match find_entry(vault.entries@, id) {
            Some(i) => {
                let existing = vault.entries@[i];
                input.password@.len() > 0 && input.password@ != existing.password@ && forbidden_reuse_spec(
                    Entry { history_cycle: cycle_of(input), ..existing },
                    existing.password@,
                ).contains(input.password@)
            },
            None => false,
        },
        None => false,
    }
}

/// The fields of a saved entry that come from the form.
pub open spec fn entry_from_input(e: Entry, input: EntryInput) -> bool {
    &&& e.title@ == trim(input.title@)
    &&& e.category_id == input.category_id
    &&& e.username == input.username
    &&& e.use_knox_id == input.use_knox_id
    &&& e.notes == input.notes
    &&& e.favorite == input.favorite
    &&& e.rule == rule_of(input)
    &&& e.history_cycle == cycle_of(input)
    &&& sap_input_rel(input.sap, e.sap)
}

/// The password an edit stores: an empty one in the form keeps the stored
/// password.
pub open spec fn kept_password(old: Entry, input: EntryInput) -> String {
    if input.password@.len() == 0 {
        old.password
    } else {
        input.password
    }
}

/// The entry's history after a save: the replaced password recorded first
/// (when a new, different one replaces a non-empty one), at most the newest
/// twenty kept.
pub open spec fn history_after(old: Entry, new_password: Seq<char>, h: Seq<HistoryEntry>) -> bool {
    if new_password.len() > 0 && old.password@ != new_password && old.password@.len() > 0 {
        h.len() > 0 && h == capped(seq![h[0]] + old.password_history@) && h[0].password == old.password
            && h[0].note@ == "密码变更时自动记录"@ && h[0].automatic
    } else {
        h == old.password_history@
    }
}

/// Saves an entry from the edit form: a new one is appended, an existing one
/// (by id) updated in place; an empty password on an edit keeps the stored
/// one. Refused are an empty title, an unknown category
/// or entry, and, unless forced, a password that breaks the entry's rule or
/// repeats one its cycle forbids. The index of the saved entry is returned.
/// The rule and cycle checks of a save (skipped when forced).
#[verifier::spinoff_prover]
#[verifier::rlimit(40)]
fn policy_check(vault: &Vault, input: &EntryInput, existing: Option<usize>, rule: &Option<PasswordRule>, cycle: u32) -> (r: Result<(), AppError>)
    requires
        *rule == rule_of(*input),
        cycle == cycle_of(*input),
        match input_id(*input) {
            Some(id) => existing matches Some(k) && find_entry(vault.entries@, id) == Some(k as int) && k < vault.entries@.len(),
            None => existing is None,
        },
    ensures
        input.force ==> r is Ok,
        !input.force && rule_problems(*input).len() > 0 ==> (r matches Err(AppError::Validation(k, m, p)) && k@ == "password-rule"@
            && m@ == "密码不符合该条目的规则"@ && strings_view(p@) == rule_problems(*input)),
        !input.force && rule_problems(*input).len() == 0 && cycle_problem(*vault, *input) ==> (r matches Err(
            AppError::Validation(k, m, p),
        ) && k@ == "password-cycle"@ && m@ == "密码与历史密码重复"@ && strings_view(p@) == seq![
            "该密码在最近 "@ + text::decimal(cycle_of(*input) as nat) + " 次维护中使用过，系统通常会拒绝重复"@,
        ]),
        !input.force && rule_problems(*input).len() == 0 && !cycle_problem(*vault, *input) ==> r is Ok,
{
    let has_password = text::chars_of_string(&input.password).len() > 0;
    let problems: Vec<String> = match rule {
        Some(r) => if has_password {
            rules::validate(input.password.as_str(), r)
        } else {
            Vec::new()
        },
        None => Vec::new(),
    };
    assert(strings_view(problems@) == rule_problems(*input)) by {
        if !has_password || rule is None {
            assert(strings_view(problems@) =~= Seq::<Seq<char>>::empty());
        }
    }
    let mut reused = false;
    match existing {
        None => {},
        Some(k) => {
            let old_pw = &vault.entries[k].password;
            if has_password && !text::str_eq(input.password.as_str(), old_pw.as_str()) {
                let probe = Entry { history_cycle: cycle, ..copy_for_probe(&vault.entries[k]) };
                let forbidden = forbidden_reuse(&probe, old_pw.as_str());
                let mut j: usize = 0;
                while j < forbidden.len()
                    invariant
                        j <= forbidden.len(),
                        !reused ==> forall|q: int| 0 <= q < j ==> strings_view(forbidden@)[q] != input.password@,
                        reused ==> strings_view(forbidden@).contains(input.password@),
                    decreases forbidden.len() - j,
                {
                    if text::str_eq(forbidden[j].as_str(), input.password.as_str()) {
                        reused = true;
                        assert(strings_view(forbidden@)[j as int] == input.password@);
                    }
                    j += 1;
                }
                assert(forbidden_reuse_spec(probe, old_pw@) == forbidden_reuse_spec(
                    Entry { history_cycle: cycle_of(*input), ..vault.entries@[k as int] },
                    vault.entries@[k as int].password@,
                ));
            }
        },
    }
    assert(reused == cycle_problem(*vault, *input));
    if !input.force {
        if problems.len() > 0 {
            return Err(AppError::Validation(
                text::string_of(&text::chars_of("password-rule")),
                text::string_of(&text::chars_of("密码不符合该条目的规则")),
                problems,
            ));
        }
        if reused {
            let mut m = text::chars_of("该密码在最近 ");
            text::push_decimal(&mut m, cycle as u64);
            text::push_str(&mut m, " 次维护中使用过，系统通常会拒绝重复");
            let mut list: Vec<String> = Vec::new();
            list.push(text::string_of(&m));
            assert(strings_view(list@) =~= seq![m@]);
            return Err(AppError::Validation(
                text::string_of(&text::chars_of("password-cycle")),
                text::string_of(&text::chars_of("密码与历史密码重复")),
                list,
            ));
        }
    }
    Ok(())
}

/// Writes the form into entry `k`.
fn update_entry(vault: &mut Vault, k: usize, input: &EntryInput, title: Vec<char>, rule: Option<PasswordRule>, sap: Option<SapLaunch>, cycle: u32)
    requires
        k < old(vault).entries@.len(),
        title@ == trim(input.title@),
        rule == rule_of(*input),
        sap_input_rel(input.sap, sap),
        cycle == cycle_of(*input),
    ensures
        final(vault).categories == old(vault).categories,
        final(vault).files == old(vault).files,
        final(vault).entries@.len() == old(vault).entries@.len(),
        forall|j: int| 0 <= j < old(vault).entries@.len() && j != k ==> final(vault).entries@[j] == old(vault).entries@[j],
        entry_from_input(final(vault).entries@[k as int], *input),
        final(vault).entries@[k as int].password == kept_password(old(vault).entries@[k as int], *input),
        final(vault).entries@[k as int].id == old(vault).entries@[k as int].id,
        final(vault).entries@[k as int].created_at == old(vault).entries@[k as int].created_at,
        final(vault).entries@[k as int].last_used_at == old(vault).entries@[k as int].last_used_at,
        history_after(old(vault).entries@[k as int], input.password@, final(vault).entries@[k as int].password_history@),
{
    let mut e = vault.entries.remove(k);
    let ghost o = e;
    let keep = text::chars_of_string(&input.password).len() == 0;
    let previous_is_new = text::str_eq(e.password.as_str(), input.password.as_str());
    if !keep && !previous_is_new && text::chars_of_string(&e.password).len() > 0 {
        let previous = e.password.clone();
        let h = HistoryEntry {
            id: model::new_id(),
            password: previous,
            recorded_at: model::now_string(),
            note: text::string_of(&text::chars_of("密码变更时自动记录")),
            automatic: true,
        };
        e.password_history.insert(0, h);
        e.password_history.truncate(MAX_PASSWORD_HISTORY);
        assert(e.password_history@ =~= capped(seq![h] + o.password_history@));
    }
    e.title = text::string_of(&title);
    e.category_id = input.category_id.clone();
    e.username = input.username.clone();
    e.use_knox_id = input.use_knox_id;
    if !keep {
        e.password = input.password.clone();
    }
    e.notes = input.notes.clone();
    e.favorite = input.favorite;
    e.rule = rule;
    e.history_cycle = cycle;
    e.sap = sap;
    e.updated_at = model::now_string();
    vault.entries.insert(k, e);
    assert(vault.entries@ =~= old(vault).entries@.update(k as int, e));
}

/// Appends a new entry made from the form.
fn create_entry(vault: &mut Vault, input: &EntryInput, title: Vec<char>, rule: Option<PasswordRule>, sap: Option<SapLaunch>, cycle: u32) -> (n: usize)
    requires
        title@ == trim(input.title@),
        rule == rule_of(*input),
        sap_input_rel(input.sap, sap),
        cycle == cycle_of(*input),
    ensures
        n == old(vault).entries@.len(),
        final(vault).categories == old(vault).categories,
        final(vault).files == old(vault).files,
        final(vault).entries@.drop_last() == old(vault).entries@,
        final(vault).entries@.len() == n + 1,
        entry_from_input(final(vault).entries@[n as int], *input),
        final(vault).entries@[n as int].password == input.password,
        final(vault).entries@[n as int].password_history@.len() == 0,
        final(vault).entries@[n as int].last_used_at is None,
{
    let now = model::now_string();
    let e = Entry {
        id: model::new_id(),
        title: text::string_of(&title),
        category_id: input.category_id.clone(),
        username: input.username.clone(),
        use_knox_id: input.use_knox_id,
        password: input.password.clone(),
        notes: input.notes.clone(),
        favorite: input.favorite,
        rule,
        history_cycle: cycle,
        password_history: Vec::new(),
        sap,
        created_at: now.clone(),
        updated_at: now,
        last_used_at: None,
    };
    let n = vault.entries.len();
    vault.entries.push(e);
    assert(vault.entries@.drop_last() =~= old(vault).entries@);
    n
}

pub fn entry_save(vault: &mut Vault, input: &EntryInput) -> (r: Result<usize, AppError>)
    ensures
        r is Err ==> *final(vault) == *old(vault),
        trim(input.title@).len() == 0 ==> (r matches Err(AppError::Msg(m)) && m@ == "标题不能为空"@),
        trim(input.title@).len() > 0 && find_category(old(vault).categories@, input.category_id@) is None ==> (
            r matches Err(e) && not_found(e, "分类 "@, input.category_id@)),
        trim(input.title@).len() > 0 && find_category(old(vault).categories@, input.category_id@) is Some && (
            input_id(*input) matches Some(id) && find_entry(old(vault).entries@, id) is None) ==> (r matches Err(e)
            && not_found(e, "条目 "@, input_id(*input)->0)),
        trim(input.title@).len() > 0 && find_category(old(vault).categories@, input.category_id@) is Some && !(input_id(
            *input,
        ) matches Some(id) && find_entry(old(vault).entries@, id) is None) && !input.force && rule_problems(*input).len() > 0
            ==> (r matches Err(AppError::Validation(k, m, p)) && k@ == "password-rule"@ && m@ == "密码不符合该条目的规则"@
            && strings_view(p@) == rule_problems(*input)),
        trim(input.title@).len() > 0 && find_category(old(vault).categories@, input.category_id@) is Some && !(input_id(
            *input,
        ) matches Some(id) && find_entry(old(vault).entries@, id) is None) && !input.force && rule_problems(*input).len() == 0
            && cycle_problem(*old(vault), *input) ==> (r matches Err(AppError::Validation(k, m, p)) && k@
            == "password-cycle"@ && m@ == "密码与历史密码重复"@ && strings_view(p@) == seq![
            "该密码在最近 "@ + text::decimal(cycle_of(*input) as nat) + " 次维护中使用过，系统通常会拒绝重复"@,
        ]),
        trim(input.title@).len() > 0 && find_category(old(vault).categories@, input.category_id@) is Some && !(input_id(
            *input,
        ) matches Some(id) && find_entry(old(vault).entries@, id) is None) && (input.force || (rule_problems(*input).len()
            == 0 && !cycle_problem(*old(vault), *input))) ==> r is Ok,
        r matches Ok(i) ==> final(vault).categories == old(vault).categories && final(vault).files == old(vault).files
            && entry_from_input(final(vault).entries@[i as int], *input) && match input_id(*input) {
            Some(id) => {
                let k = find_entry(old(vault).entries@, id)->0;
                let o = old(vault).entries@[k];
                let e = final(vault).entries@[i as int];
                &&& i == k
                &&& final(vault).entries@.len() == old(vault).entries@.len()
                &&& forall|j: int| 0 <= j < old(vault).entries@.len() && j != k ==> final(vault).entries@[j] == old(vault).entries@[j]
                &&& e.id == o.id && e.created_at == o.created_at && e.last_used_at == o.last_used_at
                &&& e.password == kept_password(o, *input)
                &&& history_after(o, input.password@, e.password_history@)
            },
            None => {
                &&& i == old(vault).entries@.len()
                &&& final(vault).entries@.drop_last() == old(vault).entries@
                &&& final(vault).entries@.last().password == input.password
                &&& final(vault).entries@.last().password_history@.len() == 0
                &&& final(vault).entries@.last().last_used_at is None
            },
        },
{
    let title = text::trim_str(input.title.as_str());
    if title.len() == 0 {
        return Err(msg("标题不能为空"));
    }
    let id: Option<&String> = match &input.id {
        Some(v) => if text::chars_of_string(v).len() > 0 {
            Some(v)
        } else {
            None
        },
        None => None,
    };
    let rule = match &input.rule {
        Some(r) => Some(r.normalized()),
        None => None,
    };
    let sap = normalize_sap(&input.sap);
    let cycle: u32 = if input.history_cycle > MAX_PASSWORD_HISTORY as u32 {
        MAX_PASSWORD_HISTORY as u32
    } else {
        input.history_cycle
    };
    if category_index(&vault.categories, input.category_id.as_str()).is_none() {
        return Err(not_found_error("分类 ", input.category_id.as_str()));
    }
    let existing: Option<usize> = match id {
        Some(v) => match entry_index(&vault.entries, v.as_str()) {
            Some(k) => Some(k),
            None => {
                return Err(not_found_error("条目 ", v.as_str()));
            },
        },
        None => None,
    };
    match policy_check(vault, input, existing, &rule, cycle) {
        Err(e) => {
            return Err(e);
        },
        Ok(()) => {},
    }
    match existing {
        Some(k) => {
            update_entry(vault, k, input, title, rule, sap, cycle);
            Ok(k)
        },
        None => Ok(create_entry(vault, input, title, rule, sap, cycle)),
    }
}

/// The parts of an entry the cycle check reads (its history).
fn copy_for_probe(e: &Entry) -> (r: Entry)
    ensures
        r.password_history@ == e.password_history@,
        r.history_cycle == e.history_cycle,
{
    let mut h: Vec<HistoryEntry> = Vec::new();
    let mut i: usize = 0;
    while i < e.password_history.len()
        invariant
            i <= e.password_history.len(),
            h@ == e.password_history@.take(i as int),
        decreases e.password_history.len() - i,
    {
        let x = &e.password_history[i];
        h.push(HistoryEntry {
            id: x.id.clone(),
            password: x.password.clone(),
            recorded_at: x.recorded_at.clone(),
            note: x.note.clone(),
            automatic: x.automatic,
        });
        i += 1;
        assert(h@ =~= e.password_history@.take(i as int));
    }
    assert(e.password_history@.take(e.password_history.len() as int) =~= e.password_history@);
    Entry {
        id: String::new(),
        title: String::new(),
        category_id: String::new(),
        username: String::new(),
        use_knox_id: false,
        password: String::new(),
        notes: String::new(),
        favorite: false,
        rule: None,
        history_cycle: e.history_cycle,
        password_history: h,
        sap: None,
        created_at: String::new(),
        updated_at: String::new(),
        last_used_at: None,
    }
}

} // verus!

verus! {

// ---------------------------------------------------------------------------
// Copying and starting SAP GUI
// ---------------------------------------------------------------------------

/// The confirmation of a copy, with the auto-clear delay when there is one.
pub open spec fn notice_spec(message: Seq<char>, seconds: u32) -> Seq<char> {
    if seconds == 0 {
        message
    } else {
        message + "（"@ + text::decimal(seconds as nat) + " 秒后自动清空）"@
    }
}

pub fn copy_notice(message: &str, seconds: u32) -> (r: String)
    ensures
        r@ == notice_spec(message@, seconds),
{
    let mut m = text::chars_of(message);
    if seconds != 0 {
        text::push_str(&mut m, "（");
        text::push_decimal(&mut m, seconds as u64);
        text::push_str(&mut m, " 秒后自动清空）");
    }
    text::string_of(&m)
}

/// The entry with the id, or `NotFound`.
fn entry_at(vault: &Vault, id: &str) -> (r: Result<usize, AppError>)
    ensures
        match find_entry(vault.entries@, id@) {
            Some(i) => r matches Ok(k) && k as int == i && i < vault.entries@.len(),
            None => r matches Err(e) && not_found(e, "条目 "@, id@),
        },
{
    match entry_index(&vault.entries, id) {
        Some(i) => Ok(i),
        None => Err(not_found_error("条目 ", id)),
    }
}

/// The password of the entry, to be copied; an entry without one is
/// refused.
pub fn copy_password(vault: &Vault, id: &str) -> (r: Result<String, AppError>)
    ensures
        match find_entry(vault.entries@, id@) {
            Some(i) => if vault.entries@[i].password@.len() == 0 {
                r matches Err(AppError::Msg(m)) && m@ == "该条目没有保存密码"@
            } else {
                r matches Ok(t) && t == vault.entries@[i].password
            },
            None => r matches Err(e) && not_found(e, "条目 "@, id@),
        },
{
    let i = match entry_at(vault, id) {
        Ok(i) => i,
        Err(e) => {
            return Err(e);
        },
    };
    if text::chars_of_string(&vault.entries[i].password).len() == 0 {
        return Err(msg("该条目没有保存密码"));
    }
    Ok(vault.entries[i].password.clone())
}

/// The user name of the entry (the Knox ID when it uses it), to be copied;
/// an empty one is refused.
pub fn copy_username(vault: &Vault, id: &str) -> (r: Result<String, AppError>)
    ensures
        match find_entry(vault.entries@, id@) {
            Some(i) => {
                let u = model::effective_username_spec(vault.entries@[i], vault.knox_id@);
                if u.len() == 0 {
                    r matches Err(AppError::Msg(m)) && m@ == "该条目没有用户名"@
                } else {
                    r matches Ok(t) && t@ == u
                }
            },
            None => r matches Err(e) && not_found(e, "条目 "@, id@),
        },
{
    let i = match entry_at(vault, id) {
        Ok(i) => i,
        Err(e) => {
            return Err(e);
        },
    };
    let u = vault.entries[i].effective_username(vault.knox_id.as_str());
    if text::chars_of_string(&u).len() == 0 {
        return Err(msg("该条目没有用户名"));
    }
    Ok(u)
}

/// User name and password joined by the separator, which SAP GUI spreads
/// over the successive fields of its login screen on paste; both are needed.
pub fn copy_sap_credentials(vault: &Vault, id: &str, separator: &str) -> (r: Result<String, AppError>)
    ensures
        match find_entry(vault.entries@, id@) {
            Some(i) => {
                let e = vault.entries@[i];
                let u = model::effective_username_spec(e, vault.knox_id@);
                if u.len() == 0 || e.password@.len() == 0 {
                    r matches Err(AppError::Msg(m)) && m@ == "需要同时具备用户名和密码才能复制 SAP 凭据"@
                } else {
                    r matches Ok(t) && t@ == u + separator@ + e.password@
                }
            },
            None => r matches Err(e) && not_found(e, "条目 "@, id@),
        },
{
    let i = match entry_at(vault, id) {
        Ok(i) => i,
        Err(e) => {
            return Err(e);
        },
    };
    let u = vault.entries[i].effective_username(vault.knox_id.as_str());
    if text::chars_of_string(&u).len() == 0 || text::chars_of_string(&vault.entries[i].password).len() == 0 {
        return Err(msg("需要同时具备用户名和密码才能复制 SAP 凭据"));
    }
    Ok(crate::clipboard::sap_credentials_payload(u.as_str(), vault.entries[i].password.as_str(), separator))
}

/// Any text, labelled for the confirmation (`内容` without a label); empty
/// text is refused. The confirmation is returned with the text.
pub fn copy_text(text: &str, label: Option<String>) -> (r: Result<String, AppError>)
    ensures
        text@.len() == 0 ==> (r matches Err(AppError::Msg(m)) && m@ == "没有可复制的内容"@),
        text@.len() > 0 ==> (r matches Ok(m) && m@ == (match label {
            Some(l) => l@,
            None => "内容"@,
        }) + "已复制"@),
{
    if text::chars_of(text).len() == 0 {
        return Err(msg("没有可复制的内容"));
    }
    let mut m = match label {
        Some(l) => text::chars_of_string(&l),
        None => text::chars_of("内容"),
    };
    text::push_str(&mut m, "已复制");
    Ok(text::string_of(&m))
}

/// Records that the entry was just used.
pub fn mark_used(vault: &mut Vault, id: &str) -> (r: Result<(), AppError>)
    ensures
        match find_entry(old(vault).entries@, id@) {
            Some(i) => r is Ok && final(vault).entries@.len() == old(vault).entries@.len()
                && final(vault).entries@[i].last_used_at is Some && final(vault).entries@[i] == Entry {
                last_used_at: final(vault).entries@[i].last_used_at,
                ..old(vault).entries@[i]
            } && (forall|k: int|
                0 <= k < old(vault).entries@.len() && k != i ==> final(vault).entries@[k] == old(vault).entries@[k]),
            None => (r matches Err(e) && not_found(e, "条目 "@, id@)) && *final(vault) == *old(vault),
        },
        final(vault).categories == old(vault).categories,
        final(vault).files == old(vault).files,
{
    let i = match entry_at(vault, id) {
        Ok(i) => i,
        Err(e) => {
            return Err(e);
        },
    };
    let mut e = vault.entries.remove(i);
    e.last_used_at = Some(model::now_string());
    vault.entries.insert(i, e);
    assert(vault.entries@ =~= old(vault).entries@.update(i as int, e));
    Ok(())
}

/// The launch settings of an entry, completed from SAP Logon when they
/// carry no connection string: the connection, and the client and language
/// where the entry leaves them empty.
pub open spec fn enriched(launch: SapLaunch, systems: Seq<crate::saplogon::SapSystem>) -> SapLaunch {
    if trim(launch.guiparm@).len() > 0 {
        launch
    } else {
        match crate::saplogon::find_system_spec(systems, launch.service_uuid@, launch.system_id@) {
            None => launch,
            Some(i) => SapLaunch {
                guiparm: systems[i].guiparm,
                client: if trim(launch.client@).len() == 0 {
                    systems[i].client
                } else {
                    launch.client
                },
                language: if trim(launch.language@).len() == 0 {
                    systems[i].language
                } else {
                    launch.language
                },
                ..launch
            },
        }
    }
}

pub fn enrich_from_landscape(systems: &[crate::saplogon::SapSystem], launch: &mut SapLaunch)
    ensures
        *final(launch) == enriched(*old(launch), systems@),
{
    if text::trim_str(launch.guiparm.as_str()).len() > 0 {
        return;
    }
    match crate::saplogon::find_system(systems, launch.service_uuid.as_str(), launch.system_id.as_str()) {
        None => {},
        Some(system) => {
            launch.guiparm = system.guiparm.clone();
            if text::trim_str(launch.client.as_str()).len() == 0 {
                launch.client = system.client.clone();
            }
            if text::trim_str(launch.language.as_str()).len() == 0 {
                launch.language = system.language.clone();
            }
        },
    }
}

fn copy_launch(l: &SapLaunch) -> (r: SapLaunch)
    ensures
        r == *l,
{
    SapLaunch {
        system_id: l.system_id.clone(),
        client: l.client.clone(),
        language: l.language.clone(),
        guiparm: l.guiparm.clone(),
        service_uuid: l.service_uuid.clone(),
        transaction: l.transaction.clone(),
        maximize: l.maximize,
    }
}

/// The entry and its launch settings (completed from SAP Logon); an entry
/// without SAP settings is refused.
pub fn launch_for(vault: &Vault, systems: &[crate::saplogon::SapSystem], id: &str) -> (r: Result<(usize, SapLaunch), AppError>)
    ensures
        match find_entry(vault.entries@, id@) {
            None => r matches Err(e) && not_found(e, "条目 "@, id@),
            Some(i) => if vault.entries@[i].sap is Some && !vault.entries@[i].sap->0.blank() {
                r matches Ok((k, l)) && k == i && k < vault.entries@.len() && l == enriched(vault.entries@[i].sap->0, systems@)
            } else {
                r matches Err(AppError::Msg(m)) && m@ == "这个条目还没有配置 SAP 登录信息"@
            },
        },
{
    let i = match entry_at(vault, id) {
        Ok(i) => i,
        Err(e) => {
            return Err(e);
        },
    };
    match &vault.entries[i].sap {
        Some(s) => {
            if s.is_empty() {
                return Err(msg("这个条目还没有配置 SAP 登录信息"));
            }
            let mut l = copy_launch(s);
            enrich_from_landscape(systems, &mut l);
            Ok((i, l))
        },
        None => Err(msg("这个条目还没有配置 SAP 登录信息")),
    }
}

/// A start of SAP GUI, decided: what to report, the arguments to start
/// `sapshcut.exe` with, and the password to put into the clipboard once it
/// runs.
pub struct LaunchStep {
    pub outcome: crate::sapgui::LaunchOutcome,
    pub arguments: Vec<String>,
    pub clipboard_password: Option<String>,
}

/// The message after a start of SAP GUI.
pub open spec fn launch_message(command_line: bool, has_password: bool) -> Seq<char> {
    if command_line {
        "已启动 SAP GUI（密码随命令行传递）"@
    } else if has_password {
        "已启动 SAP GUI（用户名已填好），密码已复制，登录界面出现后按 Ctrl+V 即可"@
    } else {
        "已启动 SAP GUI（该条目没有保存密码）"@
    }
}

/// Decides how SAP GUI is started for an entry. Only the mode
/// `commandLine` puts the password on the command line; any other mode
/// behaves as `clipboard`, which hands over the user name only and leaves
/// the password for the clipboard.
pub fn sap_launch(
    vault: &Vault,
    systems: &[crate::saplogon::SapSystem],
    id: &str,
    password_mode: &str,
    executable: Option<String>,
    clipboard_seconds: u32,
) -> (r: Result<LaunchStep, AppError>)
    ensures
        match find_entry(vault.entries@, id@) {
            None => r matches Err(e) && not_found(e, "条目 "@, id@),
            Some(i) => {
                let e = vault.entries@[i];
                if !(e.sap is Some && !e.sap->0.blank()) {
                    r matches Err(AppError::Msg(m)) && m@ == "这个条目还没有配置 SAP 登录信息"@
                } else if executable is None {
                    r matches Err(AppError::Msg(m)) && m@
                        == "没有找到 sapshcut.exe。请确认已安装 SAP GUI for Windows，或在设置里手动指定它的位置。"@
                } else {
                    let l = enriched(e.sap->0, systems@);
                    let user = model::effective_username_spec(e, vault.knox_id@);
                    let cmd = password_mode@ == crate::sapgui::PASSWORD_MODE_COMMAND_LINE@;
                    let has_pw = e.password@.len() > 0;
                    let with_pw = cmd && has_pw;
                    r matches Ok(step) && {
                        &&& crate::sapgui::views(step.arguments@) == crate::sapgui::arguments_spec(l, user, e.password@, with_pw)
                        &&& step.outcome.mode@ == (if cmd {
                            crate::sapgui::PASSWORD_MODE_COMMAND_LINE@
                        } else {
                            crate::sapgui::PASSWORD_MODE_CLIPBOARD@
                        })
                        &&& step.outcome.executable == executable->0
                        &&& step.outcome.arguments.len() == step.arguments.len()
                        &&& (forall|k: int|
                            0 <= k < step.arguments.len() ==> (#[trigger] step.outcome.arguments[k])@ == crate::sapgui::mask_spec(
                                step.arguments[k]@,
                            ))
                        &&& step.outcome.password_on_command_line == with_pw
                        &&& step.outcome.clipboard_seconds == (if !cmd && has_pw {
                            clipboard_seconds
                        } else {
                            0
                        })
                        &&& step.outcome.message@ == launch_message(cmd, has_pw)
                        &&& step.clipboard_password == (if !cmd && has_pw {
                            Some(e.password)
                        } else {
                            None
                        })
                    }
                }
            },
        },
{
    let (i, launch) = match launch_for(vault, systems, id) {
        Ok(p) => p,
        Err(e) => {
            return Err(e);
        },
    };
    let exe = match executable {
        Some(x) => x,
        None => {
            return Err(msg("没有找到 sapshcut.exe。请确认已安装 SAP GUI for Windows，或在设置里手动指定它的位置。"));
        },
    };
    let e = &vault.entries[i];
    let username = e.effective_username(vault.knox_id.as_str());
    let cmd = text::str_eq(password_mode, crate::sapgui::PASSWORD_MODE_COMMAND_LINE);
    let has_pw = text::chars_of_string(&e.password).len() > 0;
    let with_pw = cmd && has_pw;
    let arguments = crate::sapgui::build_arguments(&launch, username.as_str(), e.password.as_str(), with_pw);
    let mode = if cmd {
        crate::sapgui::PASSWORD_MODE_COMMAND_LINE.to_owned()
    } else {
        crate::sapgui::PASSWORD_MODE_CLIPBOARD.to_owned()
    };
    let message = if cmd {
        msg_text("已启动 SAP GUI（密码随命令行传递）")
    } else if has_pw {
        msg_text("已启动 SAP GUI（用户名已填好），密码已复制，登录界面出现后按 Ctrl+V 即可")
    } else {
        msg_text("已启动 SAP GUI（该条目没有保存密码）")
    };
    let clip = if !cmd && has_pw {
        Some(e.password.clone())
    } else {
        None
    };
    let outcome = crate::sapgui::LaunchOutcome {
        mode,
        executable: exe,
        arguments: crate::sapgui::mask_password(&arguments),
        password_on_command_line: with_pw,
        clipboard_seconds: if !cmd && has_pw {
            clipboard_seconds
        } else {
            0
        },
        message,
    };
    Ok(LaunchStep { outcome, arguments, clipboard_password: clip })
}

fn msg_text(m: &str) -> (r: String)
    ensures
        r@ == m@,
{
    text::string_of(&text::chars_of(m))
}

/// A control character (`char::is_control`: U+0000–U+001F, U+007F–U+009F).
pub open spec fn is_control(c: char) -> bool {
    (c as u32) <= 0x1f || (0x7f <= (c as u32) && (c as u32) <= 0x9f)
}

/// A link from a note that may be opened: `http`, `https` or `mailto`
/// (ignoring ASCII case), and no control character anywhere in it. A note is
/// user text and must never launch anything else.
pub open spec fn allowed_link(t: Seq<char>) -> bool {
    &&& (starts_with(lower_seq(t), "http://"@) || starts_with(lower_seq(t), "https://"@) || starts_with(
        lower_seq(t),
        "mailto:"@,
    ))
    &&& forall|i: int| 0 <= i < t.len() ==> !is_control(#[trigger] t[i])
}

/// The link to hand to the system's default handler, trimmed; `None` for
/// anything that is not an allowed link.
pub fn link_target(url: &str) -> (r: Option<String>)
    ensures
        r is Some <==> allowed_link(trim(url@)),
        r matches Some(t) ==> t@ == trim(url@),
{
    let t = text::trim_str(url);
    let lower = text::to_lower(&t);
    if !(text::starts_with_str(&lower, "http://") || text::starts_with_str(&lower, "https://")
        || text::starts_with_str(&lower, "mailto:")) {
        return None;
    }
    let mut i: usize = 0;
    while i < t.len()
        invariant
            i <= t.len(),
            t@ == trim(url@),
            forall|k: int| 0 <= k < i ==> !is_control(#[trigger] t@[k]),
        decreases t.len() - i,
    {
        let c = t[i];
        if (c as u32) <= 0x1f || (0x7f <= (c as u32) && (c as u32) <= 0x9f) {
            assert(is_control(t@[i as int]));
            assert(trim(url@)[i as int] == t@[i as int]);
            assert(!allowed_link(trim(url@)));
            return None;
        }
        i += 1;
    }
    Some(text::string_of(&t))
}

/// The description written into a shortcut: the name SAP Logon shows for
/// the connection, or the system ID when there is none.
pub open spec fn shortcut_description(systems: Seq<crate::saplogon::SapSystem>, l: SapLaunch) -> Seq<char> {
    match crate::saplogon::find_system_spec(systems, l.service_uuid@, l.system_id@) {
        Some(i) if trim(systems[i].name@).len() > 0 => systems[i].name@,
        _ => trim(l.system_id@),
    }
}

/// The text of the `.sap` shortcut of an entry (it never holds the
/// password): an entry without SAP settings, one without a system ID (SAP
/// GUI connects a shortcut by it) and an empty target path are refused.
/// `work_dir` is SAP GUI's work folder.
pub fn sap_export_shortcut(
    vault: &Vault,
    systems: &[crate::saplogon::SapSystem],
    id: &str,
    path: &str,
    work_dir: &str,
) -> (r: Result<String, AppError>)
    ensures
        match find_entry(vault.entries@, id@) {
            None => r matches Err(e) && not_found(e, "条目 "@, id@),
            Some(i) => {
                let e = vault.entries@[i];
                if !(e.sap is Some && !e.sap->0.blank()) {
                    r matches Err(AppError::Msg(m)) && m@ == "这个条目还没有配置 SAP 登录信息"@
                } else {
                    let l = enriched(e.sap->0, systems@);
                    if trim(l.system_id@).len() == 0 {
                        r matches Err(AppError::Msg(m)) && m@
                            == ".sap 快捷方式是靠系统 ID 连接的，请先填写系统 ID（SAP Logon 里要有对应系统）"@
                    } else if trim(path@).len() == 0 {
                        r matches Err(AppError::Msg(m)) && m@ == "请选择快捷方式的保存位置"@
                    } else {
                        r matches Ok(t) && t@ == crate::sapgui::shortcut_spec(
                            l,
                            model::effective_username_spec(e, vault.knox_id@),
                            shortcut_description(systems@, l),
                            work_dir@,
                        )
                    }
                }
            },
        },
{
    let (i, launch) = match launch_for(vault, systems, id) {
        Ok(p) => p,
        Err(e) => {
            return Err(e);
        },
    };
    let e = &vault.entries[i];
    let username = e.effective_username(vault.knox_id.as_str());
    let sid = text::trim_str(launch.system_id.as_str());
    if sid.len() == 0 {
        return Err(msg(".sap 快捷方式是靠系统 ID 连接的，请先填写系统 ID（SAP Logon 里要有对应系统）"));
    }
    let description = match crate::saplogon::find_system(systems, launch.service_uuid.as_str(), launch.system_id.as_str()) {
        Some(system) if text::trim_str(system.name.as_str()).len() > 0 => system.name.clone(),
        _ => text::string_of(&sid),
    };
    if text::trim_str(path).len() == 0 {
        return Err(msg("请选择快捷方式的保存位置"));
    }
    Ok(crate::sapgui::shortcut_text(&launch, username.as_str(), description.as_str(), work_dir))
}

} // verus!

verus! {

// ---------------------------------------------------------------------------
// Content files
// ---------------------------------------------------------------------------

/// Index of the file with the id.
pub open spec fn find_file(files: Seq<SyncFile>, id: Seq<char>) -> Option<int>
    decreases files.len(),
{
    if files.len() == 0 {
        None
    } else {
        match find_file(files.drop_last(), id) {
            Some(i) => Some(i),
            None => if files.last().id@ == id {
                Some(files.len() - 1)
            } else {
                None
            },
        }
    }
}

/// Index of the first file at the path (ignoring ASCII case).
pub open spec fn find_path(files: Seq<SyncFile>, path: Seq<char>) -> Option<int>
    decreases files.len(),
{
    if files.len() == 0 {
        None
    } else {
        match find_path(files.drop_last(), path) {
            Some(i) => Some(i),
            None => if text::eq_ignore_case(files.last().path@, path) {
                Some(files.len() - 1)
            } else {
                None
            },
        }
    }
}

proof fn lemma_find_file_bounds(files: Seq<SyncFile>, id: Seq<char>)
    ensures
        find_file(files, id) matches Some(i) ==> 0 <= i < files.len() && files[i].id@ == id,
    decreases files.len(),
{
    if files.len() > 0 {
        lemma_find_file_bounds(files.drop_last(), id);
    }
}

proof fn lemma_find_path_props(files: Seq<SyncFile>, path: Seq<char>)
    ensures
        find_path(files, path) matches Some(i) ==> 0 <= i < files.len() && text::eq_ignore_case(files[i].path@, path),
        find_path(files, path) is None ==> forall|j: int| 0 <= j < files.len() ==> !text::eq_ignore_case(#[trigger] files[j].path@, path),
    decreases files.len(),
{
    if files.len() > 0 {
        lemma_find_path_props(files.drop_last(), path);
        if find_path(files, path) is None {
            assert forall|j: int| 0 <= j < files.len() implies !text::eq_ignore_case(#[trigger] files[j].path@, path) by {
                if j < files.len() - 1 {
                    assert(files[j] == files.drop_last()[j]);
                }
            }
        }
    }
}

fn file_index(files: &Vec<SyncFile>, id: &str) -> (r: Option<usize>)
    ensures
        match r {
            Some(i) => find_file(files@, id@) == Some(i as int) && i < files.len(),
            None => find_file(files@, id@) is None,
        },
{
    let mut i: usize = 0;
    assert(files@.take(0) =~= Seq::<SyncFile>::empty());
    while i < files.len()
        invariant
            i <= files.len(),
            find_file(files@.take(i as int), id@) is None,
        decreases files.len() - i,
    {
        assert(files@.take(i + 1).drop_last() =~= files@.take(i as int));
        if text::str_eq(files[i].id.as_str(), id) {
            proof {
                lemma_find_file_prefix(files@, id@, i + 1, i as int);
            }
            return Some(i);
        }
        i += 1;
    }
    assert(files@.take(files.len() as int) =~= files@);
    None
}

proof fn lemma_find_file_prefix(files: Seq<SyncFile>, id: Seq<char>, n: int, k: int)
    requires
        0 < n <= files.len(),
        find_file(files.take(n), id) == Some(k),
    ensures
        find_file(files, id) == Some(k),
    decreases files.len() - n,
{
    if n < files.len() {
        assert(files.take(n + 1).drop_last() =~= files.take(n));
        lemma_find_file_prefix(files, id, n + 1, k);
    } else {
        assert(files.take(n) =~= files);
    }
}

fn path_index(files: &Vec<SyncFile>, path: &Vec<char>) -> (r: Option<usize>)
    ensures
        match r {
            Some(i) => find_path(files@, path@) == Some(i as int) && i < files.len(),
            None => find_path(files@, path@) is None,
        },
{
    let mut i: usize = 0;
    assert(files@.take(0) =~= Seq::<SyncFile>::empty());
    while i < files.len()
        invariant
            i <= files.len(),
            find_path(files@.take(i as int), path@) is None,
        decreases files.len() - i,
    {
        assert(files@.take(i + 1).drop_last() =~= files@.take(i as int));
        if text::eq_ignore_ascii_case(&text::chars_of_string(&files[i].path), path) {
            proof {
                lemma_find_path_prefix(files@, path@, i + 1, i as int);
            }
            return Some(i);
        }
        i += 1;
    }
    assert(files@.take(files.len() as int) =~= files@);
    None
}

proof fn lemma_find_path_prefix(files: Seq<SyncFile>, path: Seq<char>, n: int, k: int)
    requires
        0 < n <= files.len(),
        find_path(files.take(n), path) == Some(k),
    ensures
        find_path(files, path) == Some(k),
    decreases files.len() - n,
{
    if n < files.len() {
        assert(files.take(n + 1).drop_last() =~= files.take(n));
        lemma_find_path_prefix(files, path, n + 1, k);
    } else {
        assert(files.take(n) =~= files);
    }
}

/// Removes the file with the id (its bindings go with it).
pub fn file_remove(vault: &mut Vault, file_id: &str) -> (r: Result<(), AppError>)
    ensures
        final(vault).files@ == old(vault).files@.filter(|f: SyncFile| f.id@ != file_id@),
        final(vault).entries == old(vault).entries,
        final(vault).categories == old(vault).categories,
        (r is Ok) == (final(vault).files@.len() < old(vault).files@.len()),
        r matches Err(e) ==> not_found(e, "同步文件 "@, file_id@),
{
    let ghost fs = vault.files@;
    let mut kept: Vec<SyncFile> = Vec::new();
    let mut rest: Vec<SyncFile> = Vec::new();
    std::mem::swap(&mut rest, &mut vault.files);
    let before = rest.len();
    let mut i: usize = 0;
    assert(fs.take(0).filter(|f: SyncFile| f.id@ != file_id@) =~= Seq::<SyncFile>::empty());
    while rest.len() > 0
        invariant
            i <= fs.len(),
            before == fs.len(),
            rest@ == fs.skip(i as int),
            kept@ == fs.take(i as int).filter(|f: SyncFile| f.id@ != file_id@),
            kept@.len() <= i,
        decreases rest.len(),
    {
        let f = rest.remove(0);
        assert(fs.take(i + 1).drop_last() =~= fs.take(i as int));
        assert(fs.take(i + 1).last() == f);
        assert(rest@ =~= fs.skip(i + 1));
        proof {
            reveal(Seq::filter);
        }
        if !text::str_eq(f.id.as_str(), file_id) {
            kept.push(f);
        }
        i += 1;
    }
    assert(fs.take(i as int) =~= fs);
    let after = kept.len();
    vault.files = kept;
    if after == before {
        return Err(not_found_error("同步文件 ", file_id));
    }
    Ok(())
}

/// The key words as stored: a kind whose list is empty gets the built-in
/// key names.
pub open spec fn keys_normalized(src: KeyMapping, k: KeyMapping) -> bool {
    &&& strings_view(k.url@) == KeyMapping::normalized_list(strings_view(src.url@), model::default_url_keys())
    &&& strings_view(k.username@) == KeyMapping::normalized_list(strings_view(src.username@), model::default_username_keys())
    &&& strings_view(k.password@) == KeyMapping::normalized_list(strings_view(src.password@), model::default_password_keys())
    &&& k.ignore_case == src.ignore_case
    &&& k.exact == src.exact
}

/// New key words for a file (kinds left empty get the built-in names), and
/// its analysis with them; `loaded` is the file's text as read now.
pub fn file_update_keys(vault: &mut Vault, file_id: &str, keys: KeyMapping, loaded: Result<String, String>) -> (r: Result<(), AppError>)
    requires
        loaded matches Ok(t) ==> crate::keys::fits(t@),
    ensures
        final(vault).entries == old(vault).entries,
        final(vault).categories == old(vault).categories,
        match find_file(old(vault).files@, file_id@) {
            None => (r matches Err(e) && not_found(e, "同步文件 "@, file_id@)) && *final(vault) == *old(vault),
            Some(i) => r is Ok && final(vault).files@.len() == old(vault).files@.len() && (forall|k: int|
                0 <= k < old(vault).files@.len() && k != i ==> final(vault).files@[k] == old(vault).files@[k]) && {
                let f = final(vault).files@[i];
                &&& f == SyncFile { keys: f.keys, analysis: f.analysis, ..old(vault).files@[i] }
                &&& keys_normalized(keys, f.keys)
                &&& f.analysis matches Some(a) && crate::keys::analysis_of(f.path@, loaded, f.keys, a)
            },
        },
{
    let i = match file_index(&vault.files, file_id) {
        Some(i) => i,
        None => {
            return Err(not_found_error("同步文件 ", file_id));
        },
    };
    let mut k = keys;
    k.normalize();
    let mut f = vault.files.remove(i);
    let a = crate::keys::analyze_file(f.path.as_str(), loaded, &k);
    f.keys = k;
    f.analysis = Some(a);
    vault.files.insert(i, f);
    assert(vault.files@ =~= old(vault).files@.update(i as int, f));
    Ok(())
}

/// The file's analysis read again with its own key words; `loaded` is its
/// text as read now.
pub fn file_reanalyze(vault: &mut Vault, file_id: &str, loaded: Result<String, String>) -> (r: Result<(), AppError>)
    requires
        loaded matches Ok(t) ==> crate::keys::fits(t@),
    ensures
        final(vault).entries == old(vault).entries,
        final(vault).categories == old(vault).categories,
        match find_file(old(vault).files@, file_id@) {
            None => (r matches Err(e) && not_found(e, "同步文件 "@, file_id@)) && *final(vault) == *old(vault),
            Some(i) => r is Ok && final(vault).files@.len() == old(vault).files@.len() && (forall|k: int|
                0 <= k < old(vault).files@.len() && k != i ==> final(vault).files@[k] == old(vault).files@[k]) && {
                let f = final(vault).files@[i];
                &&& f == SyncFile { analysis: f.analysis, ..old(vault).files@[i] }
                &&& f.analysis matches Some(a) && crate::keys::analysis_of(f.path@, loaded, f.keys, a)
            },
        },
{
    let i = match file_index(&vault.files, file_id) {
        Some(i) => i,
        None => {
            return Err(not_found_error("同步文件 ", file_id));
        },
    };
    let mut f = vault.files.remove(i);
    let a = crate::keys::analyze_file(f.path.as_str(), loaded, &f.keys);
    f.analysis = Some(a);
    vault.files.insert(i, f);
    assert(vault.files@ =~= old(vault).files@.update(i as int, f));
    Ok(())
}

/// The (key, account) pairs a list of requests binds, in order: key paths
/// trimmed; a request with an empty key, an unknown account, a key the file
/// does not hold, or a pair asked for before is left out.
pub open spec fn bind_pairs(entries: Seq<Entry>, values: Seq<crate::sync::LocatedValue>, inputs: Seq<BindingInput>) -> Seq<(Seq<char>, Seq<char>)>
    decreases inputs.len(),
{
    if inputs.len() == 0 {
        seq![]
    } else {
        let prev = bind_pairs(entries, values, inputs.drop_last());
        let b = inputs.last();
        let key = trim(b.key_path@);
        if key.len() == 0 || find_entry(entries, b.entry_id@) is None || crate::sync::first_value(values, key) is None
            || prev.contains((key, b.entry_id@)) {
            prev
        } else {
            prev.push((key, b.entry_id@))
        }
    }
}

/// Index of the first binding of the key to the account.
pub open spec fn find_binding(bs: Seq<FileBinding>, key: Seq<char>, entry: Seq<char>) -> Option<int>
    decreases bs.len(),
{
    if bs.len() == 0 {
        None
    } else {
        match find_binding(bs.drop_last(), key, entry) {
            Some(i) => Some(i),
            None => if bs.last().key_path@ == key && bs.last().entry_id@ == entry {
                Some(bs.len() - 1)
            } else {
                None
            },
        }
    }
}

fn binding_index(bs: &Vec<FileBinding>, key: &Vec<char>, entry: &String) -> (r: Option<usize>)
    ensures
        match r {
            Some(i) => find_binding(bs@, key@, entry@) == Some(i as int) && i < bs.len(),
            None => find_binding(bs@, key@, entry@) is None,
        },
{
    let mut i: usize = 0;
    assert(bs@.take(0) =~= Seq::<FileBinding>::empty());
    while i < bs.len()
        invariant
            i <= bs.len(),
            find_binding(bs@.take(i as int), key@, entry@) is None,
        decreases bs.len() - i,
    {
        assert(bs@.take(i + 1).drop_last() =~= bs@.take(i as int));
        if text::seq_eq(&text::chars_of_string(&bs[i].key_path), key) && text::str_eq(bs[i].entry_id.as_str(), entry.as_str()) {
            proof {
                lemma_find_binding_prefix(bs@, key@, entry@, i + 1, i as int);
            }
            return Some(i);
        }
        i += 1;
    }
    assert(bs@.take(bs.len() as int) =~= bs@);
    None
}

proof fn lemma_find_binding_prefix(bs: Seq<FileBinding>, key: Seq<char>, entry: Seq<char>, n: int, k: int)
    requires
        0 < n <= bs.len(),
        find_binding(bs.take(n), key, entry) == Some(k),
    ensures
        find_binding(bs, key, entry) == Some(k),
    decreases bs.len() - n,
{
    if n < bs.len() {
        assert(bs.take(n + 1).drop_last() =~= bs.take(n));
        lemma_find_binding_prefix(bs, key, entry, n + 1, k);
    } else {
        assert(bs.take(n) =~= bs);
    }
}

proof fn lemma_find_binding_bounds(bs: Seq<FileBinding>, key: Seq<char>, entry: Seq<char>)
    ensures
        find_binding(bs, key, entry) matches Some(i) ==> 0 <= i < bs.len() && bs[i].key_path@ == key && bs[i].entry_id@ == entry,
    decreases bs.len(),
{
    if bs.len() > 0 {
        lemma_find_binding_bounds(bs.drop_last(), key, entry);
    }
}

/// The bindings of a file after [`file_bind`]: one per pair, the earlier
/// binding of the same pair kept as it was, a new one otherwise.
pub open spec fn bound_as(old: Seq<FileBinding>, pairs: Seq<(Seq<char>, Seq<char>)>, now: Seq<FileBinding>) -> bool {
    &&& now.len() == pairs.len()
    &&& forall|k: int|
        0 <= k < now.len() ==> {
            &&& (#[trigger] now[k]).key_path@ == pairs[k].0
            &&& now[k].entry_id@ == pairs[k].1
            &&& match find_binding(old, pairs[k].0, pairs[k].1) {
                Some(j) => now[k] == old[j],
                None => now[k].id@.len() == 36,
            }
        }
}

fn copy_binding(b: &FileBinding) -> (r: FileBinding)
    ensures
        r == *b,
{
    FileBinding { id: b.id.clone(), key_path: b.key_path.clone(), entry_id: b.entry_id.clone() }
}

/// Replaces the bindings of a file (see [`bind_pairs`] and [`bound_as`]);
/// `analysis` is the file as read now.
pub fn file_bind(vault: &mut Vault, file_id: &str, bindings: &Vec<BindingInput>, analysis: &crate::sync::FileAnalysis) -> (r: Result<(), AppError>)
    ensures
        final(vault).entries == old(vault).entries,
        final(vault).categories == old(vault).categories,
        match find_file(old(vault).files@, file_id@) {
            None => (r matches Err(e) && not_found(e, "同步文件 "@, file_id@)) && *final(vault) == *old(vault),
            Some(i) => r is Ok && final(vault).files@.len() == old(vault).files@.len() && (forall|k: int|
                0 <= k < old(vault).files@.len() && k != i ==> final(vault).files@[k] == old(vault).files@[k]) && {
                let f = final(vault).files@[i];
                &&& f == SyncFile { bindings: f.bindings, ..old(vault).files@[i] }
                &&& bound_as(
                    old(vault).files@[i].bindings@,
                    bind_pairs(old(vault).entries@, analysis.values@, bindings@),
                    f.bindings@,
                )
            },
        },
{
    let i = match file_index(&vault.files, file_id) {
        Some(i) => i,
        None => {
            return Err(not_found_error("同步文件 ", file_id));
        },
    };
    let ghost ob = vault.files@[i as int].bindings@;
    let ghost iv = bindings@;
    let mut next: Vec<FileBinding> = Vec::new();
    let mut k: usize = 0;
    assert(iv.take(0) =~= Seq::<BindingInput>::empty());
    while k < bindings.len()
        invariant
            k <= bindings.len(),
            i < vault.files.len(),
            *vault == *old(vault),
            ob == vault.files@[i as int].bindings@,
            iv == bindings@,
            bound_as(ob, bind_pairs(vault.entries@, analysis.values@, iv.take(k as int)), next@),
        decreases bindings.len() - k,
    {
        assert(iv.take(k + 1).drop_last() =~= iv.take(k as int));
        assert(iv.take(k + 1).last() == bindings@[k as int]);
        let ghost pairs = bind_pairs(vault.entries@, analysis.values@, iv.take(k as int));
        let input = &bindings[k];
        let key = text::trim_str(input.key_path.as_str());
        let known = entry_index(&vault.entries, input.entry_id.as_str()).is_some();
        let key_s = text::string_of(&key);
        let present = analysis.value(key_s.as_str()).is_some();
        if key.len() > 0 && known && present {
            let mut dup = false;
            let mut j: usize = 0;
            while j < next.len()
                invariant
                    j <= next.len(),
                    bound_as(ob, pairs, next@),
                    dup == exists|q: int| 0 <= q < j && pairs[q] == (key@, input.entry_id@),
                decreases next.len() - j,
            {
                if text::seq_eq(&text::chars_of_string(&next[j].key_path), &key) && text::str_eq(
                    next[j].entry_id.as_str(),
                    input.entry_id.as_str(),
                ) {
                    dup = true;
                    assert(pairs[j as int] == (key@, input.entry_id@));
                }
                proof {
                    if !dup && next@[j as int].key_path@ == key@ && next@[j as int].entry_id@ == input.entry_id@ {
                        assert(false);
                    }
                    if (exists|q: int| 0 <= q < j + 1 && pairs[q] == (key@, input.entry_id@)) && !dup {
                        let q = choose|q: int| 0 <= q < j + 1 && pairs[q] == (key@, input.entry_id@);
                        assert(next@[q].key_path@ == pairs[q].0);
                    }
                }
                j += 1;
            }
            assert(dup == pairs.contains((key@, input.entry_id@))) by {
                if pairs.contains((key@, input.entry_id@)) {
                    let q = choose|q: int| 0 <= q < pairs.len() && pairs[q] == (key@, input.entry_id@);
                    assert(0 <= q < j);
                }
            }
            if !dup {
                let nb = match binding_index(&vault.files[i].bindings, &key, &input.entry_id) {
                    Some(b) => copy_binding(&vault.files[i].bindings[b]),
                    None => FileBinding::new(key_s.as_str(), input.entry_id.as_str()),
                };
                proof {
                    lemma_find_binding_bounds(ob, key@, input.entry_id@);
                }
                let ghost before = next@;
                next.push(nb);
                assert(bind_pairs(vault.entries@, analysis.values@, iv.take(k + 1)) == pairs.push((key@, input.entry_id@)));
                assert forall|q: int| 0 <= q < next@.len() implies {
                    &&& (#[trigger] next@[q]).key_path@ == pairs.push((key@, input.entry_id@))[q].0
                    &&& next@[q].entry_id@ == pairs.push((key@, input.entry_id@))[q].1
                    &&& match find_binding(ob, pairs.push((key@, input.entry_id@))[q].0, pairs.push((key@, input.entry_id@))[q].1) {
                        Some(jj) => next@[q] == ob[jj],
                        None => next@[q].id@.len() == 36,
                    }
                } by {
                    let x = (key@, input.entry_id@);
                    if q < before.len() {
                        assert(next@[q] == before[q]);
                        assert(pairs.push(x)[q] == pairs[q]);
                    } else {
                        assert(next@[q] == nb);
                        assert(pairs.push(x)[q] == x);
                    }
                }
            }
        }
        k += 1;
    }
    assert(iv.take(bindings.len() as int) =~= iv);
    let mut f = vault.files.remove(i);
    f.bindings = next;
    vault.files.insert(i, f);
    assert(vault.files@ =~= old(vault).files@.update(i as int, f));
    Ok(())
}

/// A file as parsed before it is stored: the trimmed path, its name (the
/// path as given when it has none), the format, whether the format is one
/// the library reads, the key words (emptied kinds refilled) and what they
/// find; `loaded` is its text as read now, `exists` and `size` its state on
/// disk.
pub fn inspect_file(path: &str, keys: KeyMapping, loaded: Result<String, String>, exists: bool, size: u64) -> (r: FileInspection)
    requires
        loaded matches Ok(t) ==> crate::keys::fits(t@),
    ensures
        r.path@ == trim(path@),
        r.label@ == (if crate::keys::file_name_spec(trim(path@)).len() == 0 {
            path@
        } else {
            crate::keys::file_name_spec(trim(path@))
        }),
        r.format@ == crate::keys::detect_format_spec(trim(path@)),
        r.supported == crate::keys::is_known_format(crate::keys::detect_format_spec(trim(path@))),
        r.exists == exists,
        r.size == size,
        keys_normalized(keys, r.keys),
        crate::keys::analysis_of(trim(path@), loaded, r.keys, r.analysis),
{
    let target = text::string_of(&text::trim_str(path));
    let mut k = keys;
    k.normalize();
    let analysis = crate::keys::analyze_file(target.as_str(), loaded, &k);
    let name = crate::keys::file_name(&text::chars_of_string(&target));
    let label = if name.len() == 0 {
        path.to_owned()
    } else {
        text::string_of(&name)
    };
    let supported = crate::keys::is_supported(target.as_str());
    FileInspection { path: target, label, format: analysis.format.clone(), supported, exists, size, keys: k, analysis }
}

/// The beginning of a file for display: `limit` bytes (4000 when not given,
/// kept between 200 and 40000) read as UTF-8, and whether there was more.
pub fn file_preview(path: &str, bytes: &[u8], size: u64, limit: Option<usize>) -> (r: FilePreview)
    ensures
        ({
            let l: int = match limit {
                Some(n) => if n < 200 { 200 } else if n > 40000 { 40000 } else { n as int },
                None => 4000,
            };
            &&& r.path@ == trim(path@)
            &&& r.exists
            &&& r.size == size
            &&& r.truncated == (bytes@.len() > l)
            &&& r.content@ == text::utf8_lossy(bytes@.take(if bytes@.len() > l { l } else { bytes@.len() as int }))
        }),
{
    let l: usize = match limit {
        Some(n) => if n < 200 {
            200
        } else if n > 40000 {
            40000
        } else {
            n
        },
        None => 4000,
    };
    let end = if bytes.len() > l {
        l
    } else {
        bytes.len()
    };
    let mut head: Vec<u8> = Vec::new();
    let mut i: usize = 0;
    while i < end
        invariant
            i <= end <= bytes.len(),
            head@ == bytes@.take(i as int),
        decreases end - i,
    {
        head.push(bytes[i]);
        i += 1;
        assert(head@ =~= bytes@.take(i as int));
    }
    FilePreview {
        path: text::string_of(&text::trim_str(path)),
        exists: true,
        size,
        content: text::from_utf8_lossy(head.as_slice()),
        truncated: bytes.len() > l,
    }
}

fn copy_loaded(l: &Result<String, String>) -> (r: Result<String, String>)
    ensures
        r == *l,
{
    match l {
        Ok(t) => Ok(t.clone()),
        Err(e) => Err(e.clone()),
    }
}

/// What [`file_add`] does with one draft: an empty path is passed over; a
/// path already attached (ignoring ASCII case) gets the new key words and a
/// fresh analysis; any other is attached as a new file.
pub open spec fn add_step(files: Seq<SyncFile>, d: FileDraft, fallback: KeyMapping, loaded: Result<String, String>, now: Seq<SyncFile>) -> bool {
    let p = trim(d.path@);
    let src = match d.keys {
        Some(k) => k,
        None => fallback,
    };
    if p.len() == 0 {
        now == files
    } else {
        match find_path(files, p) {
            Some(i) => now.len() == files.len() && (forall|k: int| 0 <= k < files.len() && k != i ==> now[k] == files[k]) && {
                let f = now[i];
                &&& f == SyncFile { keys: f.keys, analysis: f.analysis, ..files[i] }
                &&& keys_normalized(src, f.keys)
                &&& f.analysis matches Some(a) && crate::keys::analysis_of(p, loaded, f.keys, a)
            },
            None => now.len() == files.len() + 1 && now.drop_last() == files && {
                let f = now.last();
                &&& f.path@ == p
                &&& f.bindings@.len() == 0
                &&& keys_normalized(src, f.keys)
                &&& f.analysis matches Some(a) && crate::keys::analysis_of(p, loaded, f.keys, a)
            },
        }
    }
}

/// The files after the drafts, one [`add_step`] after the other.
pub open spec fn add_steps(files: Seq<SyncFile>, ds: Seq<FileDraft>, fallback: KeyMapping, loaded: Seq<Result<String, String>>, now: Seq<SyncFile>) -> bool
    decreases ds.len(),
{
    if ds.len() == 0 {
        now == files
    } else {
        exists|mid: Seq<SyncFile>|
            add_steps(files, ds.drop_last(), fallback, loaded.drop_last(), mid) && add_step(
                mid,
                ds.last(),
                fallback,
                loaded.last(),
                now,
            )
    }
}

/// Attaches the drafts in order (see [`add_step`]); `loaded[i]` is the text
/// of draft `i` as read now.
pub fn file_add(vault: &mut Vault, drafts: &Vec<FileDraft>, fallback: &KeyMapping, loaded: &Vec<Result<String, String>>)
    requires
        loaded@.len() == drafts@.len(),
        forall|i: int| 0 <= i < loaded@.len() ==> (#[trigger] loaded@[i] matches Ok(t) ==> crate::keys::fits(t@)),
    ensures
        final(vault).entries == old(vault).entries,
        final(vault).categories == old(vault).categories,
        add_steps(old(vault).files@, drafts@, *fallback, loaded@, final(vault).files@),
{
    let mut i: usize = 0;
    assert(drafts@.take(0) =~= Seq::<FileDraft>::empty());
    assert(loaded@.take(0) =~= Seq::<Result<String, String>>::empty());
    while i < drafts.len()
        invariant
            i <= drafts.len(),
            loaded@.len() == drafts@.len(),
            forall|j: int| 0 <= j < loaded@.len() ==> (#[trigger] loaded@[j] matches Ok(t) ==> crate::keys::fits(t@)),
            vault.entries == old(vault).entries,
            vault.categories == old(vault).categories,
            add_steps(old(vault).files@, drafts@.take(i as int), *fallback, loaded@.take(i as int), vault.files@),
        decreases drafts.len() - i,
    {
        let ghost mid = vault.files@;
        let d = &drafts[i];
        let p = text::trim_str(d.path.as_str());
        if p.len() > 0 {
            let mut k = match &d.keys {
                Some(x) => crate::state::copy_mapping(x),
                None => crate::state::copy_mapping(fallback),
            };
            k.normalize();
            let ps = text::string_of(&p);
            let a = crate::keys::analyze_file(ps.as_str(), copy_loaded(&loaded[i]), &k);
            match path_index(&vault.files, &p) {
                Some(j) => {
                    let mut f = vault.files.remove(j);
                    f.keys = k;
                    f.analysis = Some(a);
                    vault.files.insert(j, f);
                    assert(vault.files@ =~= mid.update(j as int, f));
                },
                None => {
                    let f = SyncFile::from_path(ps.as_str(), k, Some(a));
                    vault.files.push(f);
                    assert(vault.files@.drop_last() =~= mid);
                },
            }
        }
        assert(add_step(mid, drafts@[i as int], *fallback, loaded@[i as int], vault.files@));
        assert(drafts@.take(i + 1).drop_last() =~= drafts@.take(i as int));
        assert(loaded@.take(i + 1).drop_last() =~= loaded@.take(i as int));
        assert(drafts@.take(i + 1).last() == drafts@[i as int]);
        assert(loaded@.take(i + 1).last() == loaded@[i as int]);
        i += 1;
    }
    assert(drafts@.take(drafts.len() as int) =~= drafts@);
    assert(loaded@.take(loaded.len() as int) =~= loaded@);
}

// ---------------------------------------------------------------------------
// The vault's life
// ---------------------------------------------------------------------------

/// The mode a new vault is created in: refused when a vault exists or the
/// mode is unknown.
pub fn vault_mode_for(has_vault: bool, mode: &str) -> (r: Result<crate::store::VaultMode, AppError>)
    ensures
        has_vault ==> r matches Err(AppError::VaultExists),
        !has_vault && mode@ == "windows"@ ==> r == Ok::<crate::store::VaultMode, AppError>(crate::store::VaultMode::Windows),
        !has_vault && mode@ == "password"@ ==> r == Ok::<crate::store::VaultMode, AppError>(crate::store::VaultMode::Password),
        !has_vault && mode@ != "windows"@ && mode@ != "password"@ ==> (r matches Err(AppError::Msg(m)) && m@ == "未知的保险库模式："@ + mode@),
{
    if has_vault {
        return Err(AppError::VaultExists);
    }
    proof {
        reveal_strlit("windows");
        reveal_strlit("password");
        assert("windows"@.len() != "password"@.len());
    }
    if text::str_eq(mode, "windows") {
        Ok(crate::store::VaultMode::Windows)
    } else if text::str_eq(mode, "password") {
        Ok(crate::store::VaultMode::Password)
    } else {
        let mut m = text::chars_of("未知的保险库模式：");
        text::push_str(&mut m, mode);
        Err(AppError::Msg(text::string_of(&m)))
    }
}

/// The key and KDF parameters of a new master password: refused without a
/// vault, when the current secret cannot be used as the vault's mode asks,
/// or when the new password has fewer than eight characters; a fresh salt
/// and the default costs otherwise.
pub fn vault_change_password(state: &crate::state::AppState, current_password: Option<&str>, new_password: &str) -> (r: Result<([u8; crate::crypto::KEY_LEN], crate::crypto::KdfParams), AppError>)
    ensures
        state.envelope is None ==> r matches Err(AppError::NoVault),
        r matches Ok((k, p)) ==> {
            &&& state.envelope is Some
            &&& new_password@.len() >= 8
            &&& p.algo@ == "argon2id"@ && p.m_cost == 19456 && p.t_cost == 2 && p.p_cost == 1
            &&& exists|salt: Seq<u8>|
                salt.len() == crate::crypto::SALT_LEN && p.salt@ == crate::b64::encode_spec(salt) && k@ == crate::crypto::argon2id_key(
                    vstd::utf8::encode_utf8(new_password@),
                    salt,
                    19456,
                    2,
                    1,
                )
        },
        state.envelope is Some && new_password@.len() < 8 ==> r is Err,
{
    let envelope = match &state.envelope {
        None => {
            return Err(AppError::NoVault);
        },
        Some(e) => e,
    };
    match crate::store::unlock_key(envelope, current_password) {
        Err(e) => {
            return Err(e);
        },
        Ok(_) => {},
    }
    if text::chars_of(new_password).len() < 8 {
        return Err(msg("新主密码至少需要 8 个字符"));
    }
    let defaults = crate::crypto::KdfParams::default();
    let params = crate::crypto::KdfParams { salt: crate::crypto::new_salt(), ..defaults };
    let ghost salt_text = params.salt@;
    proof {
        let s = choose|s: Seq<u8>| s.len() == crate::crypto::SALT_LEN && salt_text == crate::b64::encode_spec(s);
        crate::b64::law_decode_inverts_encode(s);
    }
    match crate::crypto::derive_key(new_password, &params) {
        Ok(k) => Ok((k, params)),
        Err(e) => Err(e),
    }
}

/// What the user interface needs at start; the paths, the portable flag,
/// the formats and the version come from the caller.
pub fn app_bootstrap(
    state: &crate::state::AppState,
    data_dir: String,
    vault_path: String,
    portable: bool,
    supported_formats: Vec<String>,
    version: String,
) -> (r: Bootstrap)
    ensures
        r.has_vault == state.envelope is Some,
        match state.envelope {
            Some(e) => r.mode matches Some(m) && m@ == (if e.mode == crate::store::VaultMode::Password {
                "password"@
            } else {
                "windows"@
            }) && r.hint@ == e.hint@,
            None => r.mode is None && r.hint@.len() == 0,
        },
        r.unlocked == state.unlocked is Some,
        crate::state::settings_eq(r.settings, state.settings),
        r.data_dir == data_dir,
        r.vault_path == vault_path,
        r.portable == portable,
        r.supported_formats == supported_formats,
        r.version == version,
        r.startup_error == state.startup_error,
{
    let (mode, hint) = match &state.envelope {
        Some(e) => (
            Some(match e.mode {
                crate::store::VaultMode::Password => "password".to_owned(),
                crate::store::VaultMode::Windows => "windows".to_owned(),
            }),
            e.hint.clone(),
        ),
        None => (None, String::new()),
    };
    Bootstrap {
        has_vault: state.has_vault(),
        mode,
        hint,
        unlocked: state.is_unlocked(),
        settings: state.settings_snapshot(),
        data_dir,
        vault_path,
        portable,
        supported_formats,
        version,
        startup_error: state.startup_error(),
    }
}

// ---------------------------------------------------------------------------
// SAP GUI on this machine
// ---------------------------------------------------------------------------

/// The system IDs (as written) that SAP Logon knows more than once (ignoring
/// surrounding blanks and ASCII case), each once, ascending.
pub open spec fn repeated_ids_rel(systems: Seq<crate::saplogon::SapSystem>, out: Seq<Seq<char>>) -> bool {
    &&& crate::sap::ascending(out)
    &&& forall|k: int|
        0 <= k < out.len() ==> trim(#[trigger] out[k]).len() > 0 && crate::saplogon::count_sid(systems, trim(out[k])) > 1
            && exists|i: int| 0 <= i < systems.len() && systems[i].system_id@ == out[k]
    &&& forall|i: int|
        0 <= i < systems.len() && trim((#[trigger] systems[i]).system_id@).len() > 0 && crate::saplogon::count_sid(
            systems,
            trim(systems[i].system_id@),
        ) > 1 ==> out.contains(systems[i].system_id@)
}

pub fn repeated_system_ids(systems: &[crate::saplogon::SapSystem]) -> (r: Vec<String>)
    ensures
        repeated_ids_rel(systems@, strings_view(r@)),
{
    let mut out: Vec<String> = Vec::new();
    let mut i: usize = 0;
    while i < systems.len()
        invariant
            i <= systems.len(),
            crate::sap::ascending(strings_view(out@)),
            forall|k: int|
                0 <= k < out@.len() ==> trim(#[trigger] strings_view(out@)[k]).len() > 0 && crate::saplogon::count_sid(
                    systems@,
                    trim(strings_view(out@)[k]),
                ) > 1 && exists|q: int| 0 <= q < systems@.len() && systems@[q].system_id@ == strings_view(out@)[k],
            forall|j: int|
                0 <= j < i && trim((#[trigger] systems@[j]).system_id@).len() > 0 && crate::saplogon::count_sid(
                    systems@,
                    trim(systems@[j].system_id@),
                ) > 1 ==> strings_view(out@).contains(systems@[j].system_id@),
        decreases systems.len() - i,
    {
        let id = &systems[i].system_id;
        if text::trim_str(id.as_str()).len() > 0 && crate::saplogon::count_system_id(systems, id.as_str()) > 1 {
            let ghost before = strings_view(out@);
            crate::sap::insert_id(&mut out, id.clone());
            let ghost now = strings_view(out@);
            assert forall|k: int|
                0 <= k < out@.len() implies trim(#[trigger] strings_view(out@)[k]).len() > 0 && crate::saplogon::count_sid(
                systems@,
                trim(strings_view(out@)[k]),
            ) > 1 && exists|q: int| 0 <= q < systems@.len() && systems@[q].system_id@ == strings_view(out@)[k] by {
                assert(now[k] == out@[k]@);
                if out@[k]@ != id@ {
                    let j = choose|j: int| 0 <= j < before.len() && before[j] == out@[k]@;
                    assert(before[j] == before[j]);
                } else {
                    assert(systems@[i as int].system_id@ == now[k]);
                }
            }
            assert forall|j: int|
                0 <= j < i + 1 && trim((#[trigger] systems@[j]).system_id@).len() > 0 && crate::saplogon::count_sid(
                systems@,
                trim(systems@[j].system_id@),
            ) > 1 implies now.contains(systems@[j].system_id@) by {
                if j < i {
                    let q = choose|q: int| 0 <= q < before.len() && before[q] == systems@[j].system_id@;
                    assert(now.contains(before[q]));
                }
            }
        }
        i += 1;
    }
    out
}

pub open spec fn count_launchable(systems: Seq<crate::saplogon::SapSystem>) -> nat
    decreases systems.len(),
{
    if systems.len() == 0 {
        0
    } else {
        count_launchable(systems.drop_last()) + if crate::saplogon::launchable(systems.last()) {
            1nat
        } else {
            0nat
        }
    }
}

/// How SAP GUI stands on this machine: the `sapshcut.exe` found and every
/// path probed (from the caller), the landscape files read, how many
/// entries can be started, the password mode, and the system IDs that need
/// their connection pinned.
pub fn sap_gui_status(
    systems: &[crate::saplogon::SapSystem],
    executable: Option<String>,
    candidates: Vec<String>,
    landscape_files: Vec<String>,
    password_mode: String,
) -> (r: SapGuiStatus)
    ensures
        r.executable == executable,
        r.candidates == candidates,
        r.landscape_files == landscape_files,
        r.system_count == count_launchable(systems@),
        r.password_mode == password_mode,
        repeated_ids_rel(systems@, strings_view(r.duplicate_system_ids@)),
{
    let mut n: usize = 0;
    let mut i: usize = 0;
    assert(systems@.take(0) =~= Seq::<crate::saplogon::SapSystem>::empty());
    while i < systems.len()
        invariant
            i <= systems.len(),
            n <= i,
            n == count_launchable(systems@.take(i as int)),
        decreases systems.len() - i,
    {
        assert(systems@.take(i + 1).drop_last() =~= systems@.take(i as int));
        if systems[i].is_launchable() {
            n += 1;
        }
        i += 1;
    }
    assert(systems@.take(systems.len() as int) =~= systems@);
    SapGuiStatus {
        executable,
        candidates,
        landscape_files,
        system_count: n,
        password_mode,
        duplicate_system_ids: repeated_system_ids(systems),
    }
}

} // verus!
