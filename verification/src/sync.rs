//! Syncing: writing each account's password into the key it is bound to.
//!
//! The binding `(file, key path) → account` is chosen by the user, so nothing
//! is guessed here. Only a bound key's value is replaced; the result must
//! still read as the same keys before anything is written.

use vstd::prelude::*;
use crate::error::AppError;
use crate::keys::{self, fits};
use crate::model::{now_string, find_entry, entry_index, FieldLocation, FileBinding, LinkParse, SyncFile, Vault};
use crate::patch::{self, Edit};
use crate::text;

verus! {

/// One value of a content file and where it is written.
#[derive(Debug, Clone)]
pub struct LocatedValue {
    pub path: String,
    pub value: String,
    pub location: FieldLocation,
}

/// A content file as read for syncing: its format, its values in document
/// order, and why it could not be read, if it could not.
#[derive(Debug, Clone)]
pub struct FileAnalysis {
    pub format: String,
    pub values: Vec<LocatedValue>,
    pub error: Option<String>,
}

/// Index of the first value at the path.
pub open spec fn first_value(values: Seq<LocatedValue>, path: Seq<char>) -> Option<int>
    decreases values.len(),
{
    if values.len() == 0 {
        None
    } else {
        match first_value(values.drop_last(), path) {
            Some(i) => Some(i),
            None => if values.last().path@ == path {
                Some(values.len() - 1)
            } else {
                None
            },
        }
    }
}

proof fn lemma_first_value_prefix(values: Seq<LocatedValue>, path: Seq<char>, n: int, k: int)
    requires
        0 < n <= values.len(),
        first_value(values.take(n), path) == Some(k),
    ensures
        first_value(values, path) == Some(k),
    decreases values.len() - n,
{
    if n < values.len() {
        assert(values.take(n + 1).drop_last() =~= values.take(n));
        lemma_first_value_prefix(values, path, n + 1, k);
    } else {
        assert(values.take(n) =~= values);
    }
}

proof fn lemma_first_value_bounds(values: Seq<LocatedValue>, path: Seq<char>)
    ensures
        first_value(values, path) matches Some(i) ==> 0 <= i < values.len() && values[i].path@ == path,
    decreases values.len(),
{
    if values.len() > 0 {
        lemma_first_value_bounds(values.drop_last(), path);
    }
}

impl FileAnalysis {
    /// The first value at the path.
    pub fn value(&self, path: &str) -> (r: Option<&LocatedValue>)
        ensures
            match first_value(self.values@, path@) {
                Some(i) => r matches Some(v) && *v == self.values@[i],
                None => r is None,
            },
    {
        let mut i: usize = 0;
        assert(self.values@.take(0) =~= Seq::<LocatedValue>::empty());
        while i < self.values.len()
            invariant
                i <= self.values.len(),
                first_value(self.values@.take(i as int), path@) is None,
            decreases self.values.len() - i,
        {
            assert(self.values@.take(i + 1).drop_last() =~= self.values@.take(i as int));
            if text::str_eq(self.values[i].path.as_str(), path) {
                proof {
                    lemma_first_value_prefix(self.values@, path@, i + 1, i as int);
                }
                return Some(&self.values[i]);
            }
            i += 1;
        }
        assert(self.values@.take(self.values.len() as int) =~= self.values@);
        None
    }
}

/// What syncing will do for one binding.
#[derive(Debug, Clone)]
pub struct PlanRow {
    pub binding_id: String,
    pub key_path: String,
    pub key_label: String,
    /// Current value in the file.
    pub file_value: String,
    /// `update` | `same` | `missing-key` | `no-password`
    pub action: String,
    pub account_id: String,
    pub account_title: String,
    pub new_password: Option<String>,
    pub detail: String,
}

pub struct RowView {
    pub binding_id: Seq<char>,
    pub key_path: Seq<char>,
    pub key_label: Seq<char>,
    pub file_value: Seq<char>,
    pub action: Seq<char>,
    pub account_id: Seq<char>,
    pub account_title: Seq<char>,
    pub new_password: Option<Seq<char>>,
    pub detail: Seq<char>,
}

impl View for PlanRow {
    type V = RowView;

    open spec fn view(&self) -> RowView {
        RowView {
            binding_id: self.binding_id@,
            key_path: self.key_path@,
            key_label: self.key_label@,
            file_value: self.file_value@,
            action: self.action@,
            account_id: self.account_id@,
            account_title: self.account_title@,
            new_password: match self.new_password {
                Some(p) => Some(p@),
                None => None,
            },
            detail: self.detail@,
        }
    }
}

pub open spec fn rows_view(v: Seq<PlanRow>) -> Seq<RowView> {
    v.map_values(|r: PlanRow| r@)
}

#[derive(Debug, Clone)]
pub struct FilePlan {
    pub file_id: String,
    pub path: String,
    pub label: String,
    pub format: String,
    pub exists: bool,
    pub rows: Vec<PlanRow>,
    pub updates: usize,
    pub status: String,
    pub error: Option<String>,
}

#[derive(Debug, Clone)]
pub struct SyncOutcome {
    pub file_id: String,
    pub path: String,
    pub changed: bool,
    pub updates: usize,
    pub bytes: usize,
    pub status: String,
}

// ---------------------------------------------------------------------------
// Planning
// ---------------------------------------------------------------------------

/// Index of the last `.` or `@` before `j`.
pub open spec fn rfind_sep_before(s: Seq<char>, j: int) -> Option<int>
    decreases j,
{
    if j <= 0 {
        None
    } else if s[j - 1] == '.' || s[j - 1] == '@' {
        Some(j - 1)
    } else {
        rfind_sep_before(s, j - 1)
    }
}

/// The last segment of a key path (after the last `.` or `@`).
pub open spec fn key_label_spec(path: Seq<char>) -> Seq<char> {
    match rfind_sep_before(path, path.len() as int) {
        Some(i) => path.skip(i + 1),
        None => path,
    }
}

proof fn lemma_rfind_sep_bounds(s: Seq<char>, j: int)
    requires
        0 <= j <= s.len(),
    ensures
        rfind_sep_before(s, j) matches Some(i) ==> 0 <= i < j,
    decreases j,
{
    if j > 0 {
        lemma_rfind_sep_bounds(s, j - 1);
    }
}

pub fn key_label(path: &str) -> (r: String)
    ensures
        r@ == key_label_spec(path@),
{
    let p = text::chars_of(path);
    let mut j: usize = p.len();
    while j > 0
        invariant
            j <= p.len(),
            p@ == path@,
            rfind_sep_before(p@, p@.len() as int) == rfind_sep_before(p@, j as int),
        decreases j,
    {
        if p[j - 1] == '.' || p[j - 1] == '@' {
            assert(rfind_sep_before(p@, j as int) == Some(j - 1));
            let tail = text::slice_of(&p, j, p.len());
            assert(tail@ =~= p@.skip(j as int));
            return text::string_of(&tail);
        }
        j -= 1;
    }
    text::string_of(&p)
}

/// The title of the account, or a placeholder for one that was deleted.
pub open spec fn account_title_spec(vault: Vault, id: Seq<char>) -> Seq<char> {
    match find_entry(vault.entries@, id) {
        Some(i) => vault.entries@[i].title@,
        None => "（已删除的账号）"@,
    }
}

pub fn account_title(vault: &Vault, id: &str) -> (r: String)
    ensures
        r@ == account_title_spec(*vault, id@),
{
    match entry_index(&vault.entries, id) {
        Some(i) => vault.entries[i].title.clone(),
        None => text::string_of(&text::chars_of("（已删除的账号）")),
    }
}

/// The row of one binding: `missing-key` when the file no longer has the
/// key, nothing when the account is gone, otherwise `no-password`, `same`
/// or `update` by the account's password and the value in the file.
pub open spec fn row_spec(vault: Vault, b: FileBinding, a: FileAnalysis) -> Option<RowView> {
    match first_value(a.values@, b.key_path@) {
        None => Some(
            RowView {
                binding_id: b.id@,
                key_path: b.key_path@,
                key_label: key_label_spec(b.key_path@),
                file_value: seq![],
                action: "missing-key"@,
                account_id: b.entry_id@,
                account_title: account_title_spec(vault, b.entry_id@),
                new_password: None,
                detail: "文件里已经没有这个键了"@,
            },
        ),
        Some(vi) => match find_entry(vault.entries@, b.entry_id@) {
            None => None,
            Some(ei) => {
                let acc = vault.entries@[ei];
                let v = a.values@[vi].value@;
                Some(
                    RowView {
                        binding_id: b.id@,
                        key_path: b.key_path@,
                        key_label: key_label_spec(b.key_path@),
                        file_value: v,
                        action: if acc.password@.len() == 0 {
                            "no-password"@
                        } else if v == acc.password@ {
                            "same"@
                        } else {
                            "update"@
                        },
                        account_id: acc.id@,
                        account_title: acc.title@,
                        new_password: if acc.password@.len() == 0 {
                            None
                        } else {
                            Some(acc.password@)
                        },
                        detail: if acc.password@.len() == 0 {
                            "账号没有保存密码"@
                        } else if v == acc.password@ {
                            "文件里的密码已是最新"@
                        } else {
                            seq![]
                        },
                    },
                )
            },
        },
    }
}

pub open spec fn rows_spec(vault: Vault, bs: Seq<FileBinding>, a: FileAnalysis) -> Seq<RowView>
    decreases bs.len(),
{
    if bs.len() == 0 {
        seq![]
    } else {
        rows_spec(vault, bs.drop_last(), a) + match row_spec(vault, bs.last(), a) {
            Some(r) => seq![r],
            None => seq![],
        }
    }
}

pub open spec fn count_action(rows: Seq<RowView>, action: Seq<char>) -> nat
    decreases rows.len(),
{
    if rows.len() == 0 {
        0
    } else {
        count_action(rows.drop_last(), action) + if rows.last().action == action {
            1nat
        } else {
            0nat
        }
    }
}

/// The summary line of a file.
pub open spec fn plan_status(bindings: nat, rows: Seq<RowView>) -> Seq<char> {
    let updates = count_action(rows, "update"@);
    if bindings == 0 {
        "尚未选择密码键"@
    } else if updates > 0 {
        text::decimal(updates) + " 处将更新"@
    } else if count_action(rows, "missing-key"@) > 0 {
        "有绑定失效"@
    } else if count_action(rows, "no-password"@) > 0 {
        "账号缺少密码"@
    } else {
        "已是最新"@
    }
}

/// The plan of a file, as [`plan_from_analysis`] states it.
pub open spec fn plan_rel(vault: Vault, file: SyncFile, a: FileAnalysis, p: FilePlan) -> bool {
    let rows = rows_spec(vault, file.bindings@, a);
    &&& p.file_id@ == file.id@
    &&& p.path@ == file.path@
    &&& p.label@ == file.label@
    &&& p.format@ == a.format@
    &&& p.exists == file.exists
    &&& rows_view(p.rows@) == rows
    &&& p.updates == count_action(rows, "update"@)
    &&& p.status@ == plan_status(file.bindings@.len(), rows)
    &&& p.error == a.error
}

fn row_of(vault: &Vault, b: &FileBinding, a: &FileAnalysis) -> (r: Option<PlanRow>)
    ensures
        match row_spec(*vault, *b, *a) {
            Some(x) => r matches Some(row) && row@ == x,
            None => r is None,
        },
{
    proof {
        lemma_first_value_bounds(a.values@, b.key_path@);
    }
    match a.value(b.key_path.as_str()) {
        None => Some(
            PlanRow {
                binding_id: b.id.clone(),
                key_path: b.key_path.clone(),
                key_label: key_label(b.key_path.as_str()),
                file_value: String::new(),
                action: text::string_of(&text::chars_of("missing-key")),
                account_id: b.entry_id.clone(),
                account_title: account_title(vault, b.entry_id.as_str()),
                new_password: None,
                detail: text::string_of(&text::chars_of("文件里已经没有这个键了")),
            },
        ),
        Some(value) => match entry_index(&vault.entries, b.entry_id.as_str()) {
            None => None,
            Some(ei) => {
                let account = &vault.entries[ei];
                let pw = text::chars_of_string(&account.password);
                let fv = text::chars_of_string(&value.value);
                proof {
                    reveal_strlit("");
                }
                let (action, new_password, detail) = if pw.len() == 0 {
                    ("no-password", None, "账号没有保存密码")
                } else if text::seq_eq(&fv, &pw) {
                    ("same", Some(account.password.clone()), "文件里的密码已是最新")
                } else {
                    ("update", Some(account.password.clone()), "")
                };
                let row = PlanRow {
                        binding_id: b.id.clone(),
                        key_path: b.key_path.clone(),
                        key_label: key_label(b.key_path.as_str()),
                        file_value: value.value.clone(),
                        action: text::string_of(&text::chars_of(action)),
                        account_id: account.id.clone(),
                        account_title: account.title.clone(),
                        new_password,
                        detail: text::string_of(&text::chars_of(detail)),
                    };
                assert(row@.action == row_spec(*vault, *b, *a)->0.action);
                assert(row@.detail == row_spec(*vault, *b, *a)->0.detail);
                assert(row@.new_password == row_spec(*vault, *b, *a)->0.new_password);
                assert(row@.file_value == row_spec(*vault, *b, *a)->0.file_value);
                Some(row)
            },
        },
    }
}

fn status_text(bindings: usize, rows: &Vec<PlanRow>, updates: usize) -> (r: String)
    requires
        updates == count_action(rows_view(rows@), "update"@),
    ensures
        r@ == plan_status(bindings as nat, rows_view(rows@)),
{
    if bindings == 0 {
        return text::string_of(&text::chars_of("尚未选择密码键"));
    }
    if updates > 0 {
        let mut out: Vec<char> = Vec::new();
        text::push_decimal(&mut out, updates as u64);
        text::push_str(&mut out, " 处将更新");
        return text::string_of(&out);
    }
    let ghost rv = rows_view(rows@);
    let mut missing = false;
    let mut no_password = false;
    let mut i: usize = 0;
    assert(rv.take(0) =~= Seq::<RowView>::empty());
    while i < rows.len()
        invariant
            i <= rows.len(),
            rv == rows_view(rows@),
            missing == (count_action(rv.take(i as int), "missing-key"@) > 0),
            no_password == (count_action(rv.take(i as int), "no-password"@) > 0),
        decreases rows.len() - i,
    {
        assert(rv.take(i + 1).drop_last() =~= rv.take(i as int));
        assert(rv.take(i + 1).last() == rows@[i as int]@);
        let a = rows[i].action.as_str();
        if text::str_eq(a, "missing-key") {
            missing = true;
        }
        if text::str_eq(a, "no-password") {
            no_password = true;
        }
        i += 1;
    }
    assert(rv.take(rows.len() as int) =~= rv);
    if missing {
        text::string_of(&text::chars_of("有绑定失效"))
    } else if no_password {
        text::string_of(&text::chars_of("账号缺少密码"))
    } else {
        text::string_of(&text::chars_of("已是最新"))
    }
}

/// What syncing would change in a file, from what the file holds now.
pub fn plan_from_analysis(vault: &Vault, file: &SyncFile, analysis: &FileAnalysis) -> (p: FilePlan)
    ensures
        plan_rel(*vault, *file, *analysis, p),
{
    let ghost bs = file.bindings@;
    let mut rows: Vec<PlanRow> = Vec::new();
    let mut updates: usize = 0;
    let mut i: usize = 0;
    assert(bs.take(0) =~= Seq::<FileBinding>::empty());
    while i < file.bindings.len()
        invariant
            i <= file.bindings.len(),
            bs == file.bindings@,
            rows_view(rows@) == rows_spec(*vault, bs.take(i as int), *analysis),
            updates == count_action(rows_view(rows@), "update"@),
            updates <= rows@.len(),
            rows@.len() <= i,
        decreases file.bindings.len() - i,
    {
        assert(bs.take(i + 1).drop_last() =~= bs.take(i as int));
        assert(bs.take(i + 1).last() == bs[i as int]);
        match row_of(vault, &file.bindings[i], analysis) {
            None => {},
            Some(row) => {
                let ghost before = rows@;
                let is_update = text::str_eq(row.action.as_str(), "update");
                rows.push(row);
                assert(rows_view(rows@) =~= rows_view(before).push(row@));
                assert(rows_view(rows@).drop_last() =~= rows_view(before));
                if is_update {
                    updates += 1;
                }
            },
        }
        i += 1;
        assert(rows_view(rows@) =~= rows_spec(*vault, bs.take(i as int), *analysis));
    }
    assert(bs.take(file.bindings.len() as int) =~= bs);
    let status = status_text(file.bindings.len(), &rows, updates);
    FilePlan {
        file_id: file.id.clone(),
        path: file.path.clone(),
        label: file.label.clone(),
        format: analysis.format.clone(),
        exists: file.exists,
        rows,
        updates,
        status,
        error: analysis.error.clone(),
    }
}

/// The plan of one file; `analysis` is the file as read from disk now.
pub fn plan_file(vault: &Vault, file: &SyncFile, analysis: &FileAnalysis) -> (p: FilePlan)
    ensures
        plan_rel(*vault, *file, *analysis, p),
{
    plan_from_analysis(vault, file, analysis)
}

/// The plans of every file of the vault, `analyses[i]` being file `i` as
/// read now.
pub fn plan_all(vault: &Vault, analyses: &Vec<FileAnalysis>) -> (r: Vec<FilePlan>)
    requires
        analyses.len() == vault.files.len(),
    ensures
        r.len() == vault.files.len(),
        forall|i: int| 0 <= i < r.len() ==> plan_rel(*vault, vault.files@[i], analyses@[i], #[trigger] r@[i]),
{
    let mut r: Vec<FilePlan> = Vec::new();
    let mut i: usize = 0;
    while i < vault.files.len()
        invariant
            i <= vault.files.len(),
            analyses.len() == vault.files.len(),
            r.len() == i,
            forall|k: int| 0 <= k < i ==> plan_rel(*vault, vault.files@[k], analyses@[k], #[trigger] r@[k]),
        decreases vault.files.len() - i,
    {
        r.push(plan_file(vault, &vault.files[i], &analyses[i]));
        i += 1;
    }
    r
}

} // verus!

verus! {

// ---------------------------------------------------------------------------
// Execution
// ---------------------------------------------------------------------------

/// The first password expected at the path.
pub open spec fn expected_at(expected: Seq<(String, String)>, path: Seq<char>) -> Option<Seq<char>>
    decreases expected.len(),
{
    if expected.len() == 0 {
        None
    } else if expected[0].0@ == path {
        Some(expected[0].1@)
    } else {
        expected_at(expected.skip(1), path)
    }
}

/// Why the pair of values at one position fails the check, if it does: the
/// path changed, a bound key does not hold its password, or an unbound key
/// changed.
pub open spec fn pair_failure(was: LocatedValue, now: LocatedValue, expected: Seq<(String, String)>) -> Option<Seq<char>> {
    if was.path@ != now.path@ {
        Some("写入后的键顺序发生变化，已取消（未写入任何内容）"@)
    } else {
        match expected_at(expected, was.path@) {
            Some(v) => if now.value@ == v {
                None
            } else {
                Some("写入后的密码校验失败，已取消（未写入任何内容）"@)
            },
            None => if now.value@ == was.value@ {
                None
            } else {
                Some("写入影响了未绑定的键 "@ + was.path@ + "，已取消（未写入任何内容）"@)
            },
        }
    }
}

/// The first failure from position `i` on.
pub open spec fn first_failure(before: Seq<LocatedValue>, after: Seq<LocatedValue>, expected: Seq<(String, String)>, i: int) -> Option<Seq<char>>
    decreases before.len() - i,
{
    if i < 0 || i >= before.len() {
        None
    } else {
        match pair_failure(before[i], after[i], expected) {
            Some(m) => Some(m),
            None => first_failure(before, after, expected, i + 1),
        }
    }
}

/// The check a rewritten file must pass before it is written: the same keys
/// in the same order, the bound ones holding their passwords and every
/// other value unchanged. `None` when it passes, else the reason.
pub open spec fn verify_spec(before: Seq<LocatedValue>, after: Seq<LocatedValue>, expected: Seq<(String, String)>) -> Option<Seq<char>> {
    if before.len() != after.len() {
        Some("写入后的文件结构发生变化，已取消（未写入任何内容）"@)
    } else {
        first_failure(before, after, expected, 0)
    }
}

proof fn lemma_first_failure_none(before: Seq<LocatedValue>, after: Seq<LocatedValue>, expected: Seq<(String, String)>, i: int, j: int)
    requires
        0 <= i <= j < before.len(),
        before.len() == after.len(),
        first_failure(before, after, expected, i) is None,
    ensures
        pair_failure(before[j], after[j], expected) is None,
    decreases j - i,
{
    if i < j {
        lemma_first_failure_none(before, after, expected, i + 1, j);
    }
}

/// A rewritten file that passes the check kept every key in place: the
/// same paths in the same order, each bound key holding its password and
/// every other value as it was.
pub proof fn law_verified_write_keeps_the_rest(before: Seq<LocatedValue>, after: Seq<LocatedValue>, expected: Seq<(String, String)>)
    requires
        verify_spec(before, after, expected) is None,
    ensures
        before.len() == after.len(),
        forall|i: int|
            0 <= i < before.len() ==> #[trigger] after[i].path@ == before[i].path@ && match expected_at(expected, before[i].path@) {
                Some(v) => after[i].value@ == v,
                None => after[i].value@ == before[i].value@,
            },
{
    assert forall|i: int| 0 <= i < before.len() implies #[trigger] after[i].path@ == before[i].path@ && match expected_at(
        expected,
        before[i].path@,
    ) {
        Some(v) => after[i].value@ == v,
        None => after[i].value@ == before[i].value@,
    } by {
        lemma_first_failure_none(before, after, expected, 0, i);
    }
}

fn expected_at_exec(expected: &Vec<(String, String)>, path: &String) -> (r: Option<String>)
    ensures
        match expected_at(expected@, path@) {
            Some(v) => r matches Some(s) && s@ == v,
            None => r is None,
        },
{
    let mut i: usize = 0;
    assert(expected@.skip(0) =~= expected@);
    while i < expected.len()
        invariant
            i <= expected.len(),
            expected_at(expected@, path@) == expected_at(expected@.skip(i as int), path@),
        decreases expected.len() - i,
    {
        assert(expected@.skip(i as int).skip(1) =~= expected@.skip(i + 1));
        if text::str_eq(expected[i].0.as_str(), path.as_str()) {
            return Some(expected[i].1.clone());
        }
        i += 1;
    }
    None
}

fn msg_error(m: &str) -> (e: AppError)
    ensures
        e matches AppError::Msg(s) && s@ == m@,
{
    AppError::Msg(text::string_of(&text::chars_of(m)))
}

pub fn verify(before: &FileAnalysis, after: &FileAnalysis, expected: &Vec<(String, String)>) -> (r: Result<(), AppError>)
    ensures
        match verify_spec(before.values@, after.values@, expected@) {
            None => r is Ok,
            Some(m) => r matches Err(AppError::Msg(s)) && s@ == m,
        },
{
    if before.values.len() != after.values.len() {
        return Err(msg_error("写入后的文件结构发生变化，已取消（未写入任何内容）"));
    }
    let ghost b = before.values@;
    let ghost a = after.values@;
    let mut i: usize = 0;
    while i < before.values.len()
        invariant
            i <= before.values.len(),
            b == before.values@,
            a == after.values@,
            b.len() == a.len(),
            verify_spec(b, a, expected@) == first_failure(b, a, expected@, i as int),
        decreases before.values.len() - i,
    {
        let was = &before.values[i];
        let now = &after.values[i];
        if !text::str_eq(was.path.as_str(), now.path.as_str()) {
            return Err(msg_error("写入后的键顺序发生变化，已取消（未写入任何内容）"));
        }
        match expected_at_exec(expected, &was.path) {
            Some(v) => {
                if !text::str_eq(now.value.as_str(), v.as_str()) {
                    return Err(msg_error("写入后的密码校验失败，已取消（未写入任何内容）"));
                }
            },
            None => {
                if !text::str_eq(now.value.as_str(), was.value.as_str()) {
                    let mut m = text::chars_of("写入影响了未绑定的键 ");
                    text::push_str(&mut m, was.path.as_str());
                    text::push_str(&mut m, "，已取消（未写入任何内容）");
                    return Err(AppError::Msg(text::string_of(&m)));
                }
            },
        }
        i += 1;
    }
    Ok(())
}

/// The edits of the `update` rows: the bound value replaced by the
/// password, encoded for its place in the document, and the password each
/// bound path must hold afterwards.
pub open spec fn edits_rel(plan: Seq<PlanRow>, a: FileAnalysis, edits: Seq<Edit>, expected: Seq<(String, String)>) -> bool
    decreases plan.len(),
{
    if plan.len() == 0 {
        edits.len() == 0 && expected.len() == 0
    } else {
        let row = plan.last();
        let takes = row.action@ == "update"@ && row.new_password is Some && first_value(a.values@, row.key_path@) is Some;
        if takes {
            let v = a.values@[first_value(a.values@, row.key_path@)->0];
            let pw = row.new_password->0;
            &&& edits.len() > 0
            &&& expected.len() > 0
            &&& edits.last().start == v.location.start
            &&& edits.last().end == v.location.end
            &&& edits.last().text@ == patch::encode_value_spec(a.format@, v.location, pw@)
            &&& expected.last().0@ == row.key_path@
            &&& expected.last().1@ == pw@
            &&& edits_rel(plan.drop_last(), a, edits.drop_last(), expected.drop_last())
        } else {
            edits_rel(plan.drop_last(), a, edits, expected)
        }
    }
}

/// A file whose bound keys already hold their passwords is not written:
/// without an `update` row there is no edit.
pub proof fn law_up_to_date_file_is_not_written(plan: Seq<PlanRow>, a: FileAnalysis, edits: Seq<Edit>, expected: Seq<(String, String)>)
    requires
        edits_rel(plan, a, edits, expected),
        forall|k: int| 0 <= k < plan.len() ==> (#[trigger] plan[k]).action@ != "update"@,
    ensures
        edits.len() == 0,
        expected.len() == 0,
    decreases plan.len(),
{
    if plan.len() > 0 {
        assert(plan.last() == plan[plan.len() - 1]);
        law_up_to_date_file_is_not_written(plan.drop_last(), a, edits, expected);
    }
}

pub fn sync_edits(plan: &FilePlan, analysis: &FileAnalysis) -> (r: (Vec<Edit>, Vec<(String, String)>))
    ensures
        edits_rel(plan.rows@, *analysis, r.0@, r.1@),
{
    let mut edits: Vec<Edit> = Vec::new();
    let mut expected: Vec<(String, String)> = Vec::new();
    let mut i: usize = 0;
    while i < plan.rows.len()
        invariant
            i <= plan.rows.len(),
            edits_rel(plan.rows@.take(i as int), *analysis, edits@, expected@),
        decreases plan.rows.len() - i,
    {
        let row = &plan.rows[i];
        assert(plan.rows@.take(i + 1).drop_last() =~= plan.rows@.take(i as int));
        assert(plan.rows@.take(i + 1).last() == *row);
        proof {
            lemma_first_value_bounds(analysis.values@, row.key_path@);
        }
        if text::str_eq(row.action.as_str(), "update") {
            match &row.new_password {
                None => {},
                Some(password) => {
                    match analysis.value(row.key_path.as_str()) {
                        None => {},
                        Some(value) => {
                            let t = patch::encode_value(analysis.format.as_str(), &value.location, password.as_str());
                            match t {
                                Ok(text) => {
                                    let ghost e0 = edits@;
                                    let ghost x0 = expected@;
                                    edits.push(Edit { start: value.location.start, end: value.location.end, text });
                                    expected.push((row.key_path.clone(), password.clone()));
                                    assert(edits@.drop_last() =~= e0);
                                    assert(expected@.drop_last() =~= x0);
                                },
                                Err(_) => {},
                            }
                        },
                    }
                },
            }
        }
        i += 1;
    }
    assert(plan.rows@.take(plan.rows.len() as int) =~= plan.rows@);
    (edits, expected)
}

/// The status a sync leaves on the file.
pub open spec fn stamp_status(outcome: SyncOutcome) -> Seq<char> {
    if outcome.changed {
        outcome.status@
    } else {
        "无变化（"@ + outcome.status@ + "）"@
    }
}

/// Re-reads the file's analysis, so the values shown are those in the file
/// after a sync; `loaded` is the file's text, or why it could not be read.
pub fn reanalyze(file: &mut SyncFile, loaded: Result<String, String>)
    requires
        loaded matches Ok(t) ==> fits(t@),
    ensures
        final(file).analysis matches Some(a) && keys::analysis_of(old(file).path@, loaded, old(file).keys, a),
        final(file).keys == old(file).keys,
        final(file).path == old(file).path,
        final(file).bindings == old(file).bindings,
        final(file).id == old(file).id,
        final(file).last_sync_at == old(file).last_sync_at,
        final(file).last_status == old(file).last_status,
{
    let a = keys::analyze_file(file.path.as_str(), loaded, &file.keys);
    file.analysis = Some(a);
}

/// Records the outcome of a sync on the file and re-reads its analysis.
pub fn stamp(file: &mut SyncFile, outcome: &SyncOutcome, loaded: Result<String, String>)
    requires
        loaded matches Ok(t) ==> fits(t@),
    ensures
        final(file).last_sync_at is Some,
        final(file).last_status matches Some(s) && s@ == stamp_status(*outcome),
        final(file).analysis matches Some(a) && keys::analysis_of(old(file).path@, loaded, old(file).keys, a),
        final(file).keys == old(file).keys,
        final(file).path == old(file).path,
        final(file).bindings == old(file).bindings,
        final(file).id == old(file).id,
{
    file.last_sync_at = Some(now_string());
    let status = if outcome.changed {
        outcome.status.clone()
    } else {
        let mut m = text::chars_of("无变化（");
        text::push_str(&mut m, outcome.status.as_str());
        text::push_str(&mut m, "）");
        text::string_of(&m)
    };
    file.last_status = Some(status);
    reanalyze(file, loaded);
}

/// A sync of one file, decided: nothing to write, or the new text and the
/// password each bound key must hold once it is read again.
pub enum SyncStep {
    Unchanged(SyncOutcome),
    Rewrite(String, Vec<(String, String)>),
}

/// What syncing a file does, from its text and its values as read now: a
/// file that could not be read or no longer exists is refused; without any
/// update nothing is written; otherwise the edits of the plan are applied
/// to the text.
pub fn sync_file(vault: &Vault, file: &SyncFile, text: &str, analysis: &FileAnalysis) -> (r: Result<SyncStep, AppError>)
    ensures
        analysis.error matches Some(e) ==> (r matches Err(AppError::Msg(m)) && m == e),
        analysis.error is None && !file.exists ==> (r matches Err(AppError::Msg(m)) && m@ == "文件不存在："@ + file.path@),
        analysis.error is None && file.exists ==> exists|p: FilePlan, edits: Seq<Edit>, expected: Seq<(String, String)>|
            plan_rel(*vault, *file, *analysis, p) && edits_rel(p.rows@, *analysis, edits, expected) && (if edits.len() == 0 {
                r matches Ok(SyncStep::Unchanged(o)) && o.file_id == file.id && o.path == file.path && !o.changed
                    && o.updates == 0 && o.bytes == file.size as usize && o.status == p.status
            } else {
                match patch::apply_spec(text@, edits) {
                    Ok(b) => r matches Ok(SyncStep::Rewrite(t, x)) && vstd::utf8::encode_utf8(t@) == b && x@ == expected,
                    Err(m) => r matches Err(e) && patch::is_msg(e, m),
                }
            }),
{
    match &analysis.error {
        Some(e) => {
            return Err(AppError::Msg(e.clone()));
        },
        None => {},
    }
    if !file.exists {
        let mut m = text::chars_of("文件不存在：");
        text::push_str(&mut m, file.path.as_str());
        return Err(AppError::Msg(text::string_of(&m)));
    }
    let plan = plan_from_analysis(vault, file, analysis);
    let (edits, expected) = sync_edits(&plan, analysis);
    if edits.len() == 0 {
        let outcome = SyncOutcome {
            file_id: file.id.clone(),
            path: file.path.clone(),
            changed: false,
            updates: 0,
            bytes: file.size as usize,
            status: plan.status.clone(),
        };
        return Ok(SyncStep::Unchanged(outcome));
    }
    match patch::apply(text, edits.as_slice()) {
        Ok(t) => Ok(SyncStep::Rewrite(t, expected)),
        Err(e) => Err(e),
    }
}

/// The bytes to write and the outcome, once the rewritten text, read
/// again, passes [`verify`]: the same keys in the same order, the bound ones
/// holding their passwords, every other value unchanged. The text is
/// written back in the file's own encoding.
pub fn finish_sync(
    file: &SyncFile,
    before: &FileAnalysis,
    after: &FileAnalysis,
    expected: &Vec<(String, String)>,
    text: &str,
    encoding: patch::TextEncoding,
) -> (r: Result<(Vec<u8>, SyncOutcome), AppError>)
    ensures
        match verify_spec(before.values@, after.values@, expected@) {
            Some(m) => r matches Err(AppError::Msg(s)) && s@ == m,
            None => r matches Ok((b, o)) && b@ == patch::encode_spec(text@, encoding) && o.file_id == file.id
                && o.path == file.path && o.changed && o.updates == expected.len() && o.bytes == b.len()
                && o.status@ == "已更新 "@ + text::decimal(expected.len() as nat) + " 处密码"@,
        },
{
    match verify(before, after, expected) {
        Err(e) => {
            return Err(e);
        },
        Ok(()) => {},
    }
    let bytes = patch::encode(text, encoding);
    let mut status = text::chars_of("已更新 ");
    text::push_decimal(&mut status, expected.len() as u64);
    text::push_str(&mut status, " 处密码");
    let outcome = SyncOutcome {
        file_id: file.id.clone(),
        path: file.path.clone(),
        changed: true,
        updates: expected.len(),
        bytes: bytes.len(),
        status: text::string_of(&status),
    };
    Ok((bytes, outcome))
}

} // verus!

verus! {

// ---------------------------------------------------------------------------
// Where the values of a file are written
// ---------------------------------------------------------------------------

/// A key path cut at `.` and `@`.
pub open spec fn path_segments(path: Seq<char>) -> Seq<Seq<char>> {
    crate::sap::split_on(path.map_values(|c: char| if c == '@' { '.' } else { c }), '.')
}

/// Where the text can hold the value: after each segment of the path in
/// turn, each found from where the previous one ended.
pub open spec fn walk_from(t: Seq<char>, segs: Seq<Seq<char>>, from: int) -> Option<int>
    decreases segs.len(),
{
    if segs.len() == 0 {
        Some(from)
    } else if segs[0].len() == 0 {
        walk_from(t, segs.skip(1), from)
    } else {
        match text::find_from(t, segs[0], from) {
            None => None,
            Some(k) => walk_from(t, segs.skip(1), k + segs[0].len()),
        }
    }
}

/// Position (in characters) of the value: its first occurrence after the
/// segments of its path; an empty value has none.
pub open spec fn value_start(t: Seq<char>, path: Seq<char>, value: Seq<char>) -> Option<int> {
    if value.len() == 0 {
        None
    } else {
        match walk_from(t, path_segments(path), 0) {
            None => None,
            Some(k) => text::find_from(t, value, k),
        }
    }
}

pub open spec fn count_newlines(s: Seq<char>) -> nat
    decreases s.len(),
{
    if s.len() == 0 {
        0
    } else {
        count_newlines(s.drop_last()) + if s.last() == '\n' {
            1nat
        } else {
            0nat
        }
    }
}

/// The place of a value found at character `k`: its byte range, whether it
/// stands in quotes, whether it is an XML attribute, and its line.
pub open spec fn location_at(t: Seq<char>, format: Seq<char>, path: Seq<char>, value: Seq<char>, k: int) -> FieldLocation {
    FieldLocation {
        start: text::byte_len(t.take(k)) as usize,
        end: (text::byte_len(t.take(k)) + text::byte_len(value)) as usize,
        quoted: k > 0 && (t[k - 1] == '"' || t[k - 1] == '\''),
        xml_attr: format == "xml"@ && path.contains('@'),
        line: (count_newlines(t.take(k)) + 1) as u32,
    }
}

pub struct LocatedView {
    pub path: Seq<char>,
    pub value: Seq<char>,
    pub location: FieldLocation,
}

pub open spec fn located_views(v: Seq<LocatedValue>) -> Seq<LocatedView> {
    v.map_values(|l: LocatedValue| LocatedView { path: l.path@, value: l.value@, location: l.location })
}

/// The values that can be placed in the text, in order, each with its
/// place.
pub open spec fn locate_all(t: Seq<char>, format: Seq<char>, vals: Seq<crate::keys::FlatView>) -> Seq<LocatedView>
    decreases vals.len(),
{
    if vals.len() == 0 {
        seq![]
    } else {
        let v = vals.last();
        locate_all(t, format, vals.drop_last()) + match value_start(t, v.path, v.value) {
            Some(k) => seq![LocatedView { path: v.path, value: v.value, location: location_at(t, format, v.path, v.value, k) }],
            None => seq![],
        }
    }
}

proof fn lemma_find_from_in(s: Seq<char>, p: Seq<char>, i: int)
    requires
        0 <= i,
    ensures
        text::find_from(s, p, i) matches Some(k) ==> i <= k && k + p.len() <= s.len() && s.subrange(k, k + p.len()) == p,
{
    text::lemma_find_from_bounds(s, p, i);
}

fn find_from_exec(s: &Vec<char>, p: &Vec<char>, from: usize) -> (r: Option<usize>)
    ensures
        match r {
            Some(k) => text::find_from(s@, p@, from as int) == Some(k as int),
            None => text::find_from(s@, p@, from as int) is None,
        },
{
    if from > s.len() {
        return None;
    }
    let mut i: usize = from;
    while p.len() <= s.len() - i
        invariant
            i <= s.len(),
            text::find_from(s@, p@, from as int) == text::find_from(s@, p@, i as int),
        decreases s.len() - i,
    {
        if text::matches_at_exec(s, p, i) {
            return Some(i);
        }
        if i == s.len() {
            assert(text::find_from(s@, p@, i + 1) is None);
            return None;
        }
        i += 1;
    }
    None
}

proof fn lemma_contains_push(s: Seq<char>, x: char, c: char)
    ensures
        s.push(x).contains(c) == (s.contains(c) || x == c),
{
    if s.push(x).contains(c) && x != c {
        let k = choose|k: int| 0 <= k < s.push(x).len() && s.push(x)[k] == c;
        assert(s[k] == c);
    }
    if s.contains(c) {
        let k = choose|k: int| 0 <= k < s.len() && s[k] == c;
        assert(s.push(x)[k] == c);
    }
    if x == c {
        assert(s.push(x)[s.len() as int] == c);
    }
}

fn walk_exec(t: &Vec<char>, segs: &Vec<Vec<char>>) -> (r: Option<usize>)
    ensures
        match r {
            Some(k) => walk_from(t@, text::line_views(segs@), 0) == Some(k as int) && k <= t.len(),
            None => walk_from(t@, text::line_views(segs@), 0) is None,
        },
{
    let ghost sv = text::line_views(segs@);
    let mut pos: usize = 0;
    let mut i: usize = 0;
    assert(sv.skip(0) =~= sv);
    while i < segs.len()
        invariant
            i <= segs.len(),
            pos <= t.len(),
            sv == text::line_views(segs@),
            walk_from(t@, sv, 0) == walk_from(t@, sv.skip(i as int), pos as int),
        decreases segs.len() - i,
    {
        assert(sv.skip(i as int).skip(1) =~= sv.skip(i + 1));
        assert(sv.skip(i as int)[0] == segs@[i as int]@);
        if segs[i].len() > 0 {
            proof {
                lemma_find_from_in(t@, segs@[i as int]@, pos as int);
            }
            match find_from_exec(t, &segs[i], pos) {
                None => {
                    return None;
                },
                Some(k) => {
                    pos = k + segs[i].len();
                },
            }
        }
        i += 1;
    }
    assert(sv.skip(segs.len() as int) =~= Seq::<Seq<char>>::empty());
    Some(pos)
}

fn count_newlines_exec(s: &Vec<char>, n: usize) -> (r: u32)
    requires
        n <= s.len(),
        s.len() < u32::MAX,
    ensures
        r as nat == count_newlines(s@.take(n as int)) + 1,
{
    let mut c: u32 = 1;
    let mut i: usize = 0;
    assert(s@.take(0) =~= Seq::<char>::empty());
    while i < n
        invariant
            i <= n <= s.len() < u32::MAX,
            c as nat == count_newlines(s@.take(i as int)) + 1,
            c as nat <= i + 1,
        decreases n - i,
    {
        assert(s@.take(i + 1).drop_last() =~= s@.take(i as int));
        if s[i] == '\n' {
            c += 1;
        }
        i += 1;
    }
    c
}

fn path_segments_exec(path: &String) -> (r: Vec<Vec<char>>)
    ensures
        text::line_views(r@) == path_segments(path@),
{
    let p = text::chars_of_string(path);
    let mut q: Vec<char> = Vec::new();
    let mut i: usize = 0;
    while i < p.len()
        invariant
            i <= p.len(),
            p@ == path@,
            q@ == p@.take(i as int).map_values(|c: char| if c == '@' { '.' } else { c }),
        decreases p.len() - i,
    {
        q.push(if p[i] == '@' { '.' } else { p[i] });
        i += 1;
        assert(q@ =~= p@.take(i as int).map_values(|c: char| if c == '@' { '.' } else { c }));
    }
    assert(p@.take(p.len() as int) =~= p@);
    crate::sap::split_on_exec(&q, '.')
}

/// The values of a document, each with the place it is written at (see
/// [`locate_all`]); `values` are the document's values in order.
pub fn locate_values(t: &Vec<char>, format: &str, values: &Vec<crate::keys::FlatValue>) -> (r: Vec<LocatedValue>)
    requires
        crate::keys::fits(t@),
    ensures
        located_views(r@) == locate_all(t@, format@, crate::keys::flat_views(values@)),
{
    let ghost fv = crate::keys::flat_views(values@);
    let is_xml = text::str_eq(format, "xml");
    let mut out: Vec<LocatedValue> = Vec::new();
    let mut i: usize = 0;
    assert(fv.take(0) =~= Seq::<crate::keys::FlatView>::empty());
    assert(located_views(out@) =~= Seq::<LocatedView>::empty());
    while i < values.len()
        invariant
            i <= values.len(),
            crate::keys::fits(t@),
            fv == crate::keys::flat_views(values@),
            is_xml == (format@ == "xml"@),
            located_views(out@) == locate_all(t@, format@, fv.take(i as int)),
        decreases values.len() - i,
    {
        assert(fv.take(i + 1).drop_last() =~= fv.take(i as int));
        assert(fv.take(i + 1).last() == values@[i as int]@);
        let v = &values[i];
        let value = text::chars_of_string(&v.value);
        let ghost before = located_views(out@);
        if value.len() > 0 {
            let segs = path_segments_exec(&v.path);
            match walk_exec(t, &segs) {
                None => {},
                Some(from) => {
                    proof {
                        lemma_find_from_in(t@, value@, from as int);
                    }
                    match find_from_exec(t, &value, from) {
                        None => {},
                        Some(k) => {
                            let prefix = text::slice_of(t, 0, k);
                            assert(prefix@ =~= t@.take(k as int));
                            proof {
                                text::lemma_byte_len_bound(t@);
                                text::lemma_byte_len_prefix(t@, k as int, t@.len() as int);
                                text::lemma_byte_len_split(t@, k as int);
                                assert(t@.skip(k as int).take(value@.len() as int) =~= value@);
                                text::lemma_byte_len_split(t@.skip(k as int), value@.len() as int);
                                assert(t@.take(t@.len() as int) =~= t@);
                            }
                            let start = text::byte_len_exec(&prefix);
                            let width = text::byte_len_exec(&value);
                            let quoted = k > 0 && (t[k - 1] == '"' || t[k - 1] == '\'');
                            let mut has_at = false;
                            let pc = text::chars_of_string(&v.path);
                            let mut j: usize = 0;
                            while j < pc.len()
                                invariant
                                    j <= pc.len(),
                                    pc@ == v.path@,
                                    has_at == pc@.take(j as int).contains('@'),
                                decreases pc.len() - j,
                            {
                                assert(pc@.take(j + 1) =~= pc@.take(j as int).push(pc@[j as int]));
                                proof {
                                    lemma_contains_push(pc@.take(j as int), pc@[j as int], '@');
                                }
                                if pc[j] == '@' {
                                    has_at = true;
                                }
                                j += 1;
                            }
                            assert(pc@.take(pc.len() as int) =~= pc@);
                            let line = count_newlines_exec(t, k);
                            let location = FieldLocation { start, end: start + width, quoted, xml_attr: is_xml && has_at, line };
                            out.push(LocatedValue { path: v.path.clone(), value: v.value.clone(), location });
                            assert(location == location_at(t@, format@, v.path@, v.value@, k as int));
                            assert(located_views(out@) =~= before.push(
                                LocatedView { path: v.path@, value: v.value@, location },
                            ));
                        },
                    }
                },
            }
        }
        i += 1;
    }
    assert(fv.take(values.len() as int) =~= fv);
    out
}

/// A content file as read for syncing: its format (from the path), its
/// values with their places, or why it could not be read.
pub fn analyze_for_sync(path: &str, loaded: &Result<String, String>) -> (r: FileAnalysis)
    requires
        loaded matches Ok(t) ==> crate::keys::fits(t@),
    ensures
        r.format@ == crate::keys::detect_format_spec(path@),
        match loaded {
            Ok(t) => r.error is None && located_views(r.values@) == locate_all(
                t@,
                r.format@,
                crate::keys::extracted(t@, r.format@),
            ),
            Err(e) => r.error == Some(*e) && r.values@.len() == 0,
        },
{
    let format = crate::keys::detect_format(path);
    match loaded {
        Ok(t) => {
            let values = crate::keys::extract(t.as_str(), format.as_str());
            let chars = text::chars_of_string(t);
            let located = locate_values(&chars, format.as_str(), &values);
            FileAnalysis { format, values: located, error: None }
        },
        Err(e) => FileAnalysis { format, values: Vec::new(), error: Some(e.clone()) },
    }
}

} // verus!
