//! Content-file parsing.
//!
//! A content file attached to an account is searched for its URL, user name
//! and password. JSON, `.env`, TOML, YAML, XML and plain text are understood;
//! anything else is read as plain text.

use vstd::prelude::*;
use quick_xml::events::Event;
use serde_json::Value;
use crate::model::{KeyMapping, FieldHit, LinkParse, HitView, strings_view, hit_views};
use crate::text::{
    self, trim, lines, line_views, starts_with, contains, lower_seq, split_once, trim_char,
    trim_start_char, trim_end_char, decimal,
};

verus! {

/// The three kinds of field a content file is searched for.
pub const KIND_URL: &'static str = "url";
pub const KIND_USERNAME: &'static str = "username";
pub const KIND_PASSWORD: &'static str = "password";

/// Guards against pulling a whole database dump into memory.
pub const MAX_ANALYZE_BYTES: u64 = 4194304;

/// One leaf value of a parsed document.
#[derive(Debug, Clone)]
pub struct FlatValue {
    /// Last segment of the path: the key the value is stored under.
    pub key: String,
    /// Dotted path from the document root.
    pub path: String,
    /// The value, trimmed.
    pub value: String,
    /// 1-based line of the value, 0 when it could not be placed.
    pub line: u32,
}

pub struct FlatView {
    pub key: Seq<char>,
    pub path: Seq<char>,
    pub value: Seq<char>,
    pub line: u32,
}

impl View for FlatValue {
    type V = FlatView;

    open spec fn view(&self) -> FlatView {
        FlatView { key: self.key@, path: self.path@, value: self.value@, line: self.line }
    }
}

pub open spec fn flat_views(v: Seq<FlatValue>) -> Seq<FlatView> {
    v.map_values(|f: FlatValue| f@)
}

// ---------------------------------------------------------------------------
// Small text helpers
// ---------------------------------------------------------------------------

/// Appends a value unless the trimmed value or the trimmed key is empty.
pub open spec fn push_spec(
    out: Seq<FlatView>,
    key: Seq<char>,
    path: Seq<char>,
    value: Seq<char>,
    line: u32,
) -> Seq<FlatView> {
    if trim(value).len() == 0 || trim(key).len() == 0 {
        out
    } else {
        out.push(FlatView { key, path, value: trim(value), line })
    }
}

fn push(into: &mut Vec<FlatValue>, key: &Vec<char>, path: &Vec<char>, value: &Vec<char>, line: u32)
    ensures
        flat_views(final(into)@) == push_spec(flat_views(old(into)@), key@, path@, value@, line),
{
    let v = text::trim_vec(value);
    if v.len() == 0 {
        return ;
    }
    let k = text::trim_vec(key);
    if k.len() == 0 {
        return ;
    }
    let item = FlatValue {
        key: text::string_of(key),
        path: text::string_of(path),
        value: text::string_of(&v),
        line,
    };
    into.push(item);
    assert(flat_views(into@) =~= flat_views(old(into)@).push(item@));
}

/// Trims, drops trailing commas and one pair of matching quotes.
pub open spec fn unquote_spec(value: Seq<char>) -> Seq<char> {
    let t = trim(trim_end_char(trim(value), ','));
    if t.len() >= 2 && ((t[0] == '"' && t.last() == '"') || (t[0] == '\'' && t.last() == '\'')) {
        t.subrange(1, t.len() - 1)
    } else {
        t
    }
}

pub fn unquote(value: &Vec<char>) -> (out: Vec<char>)
    ensures
        out@ == unquote_spec(value@),
{
    let a = text::trim_vec(value);
    let b = text::trim_end_char_exec(&a, ',');
    let t = text::trim_vec(&b);
    if t.len() >= 2 {
        let first = t[0];
        let last = t[t.len() - 1];
        if (first == '"' && last == '"') || (first == '\'' && last == '\'') {
            return text::slice_of(&t, 1, t.len() - 1);
        }
    }
    t
}

pub open spec fn is_blank_char(c: char) -> bool {
    c == ' ' || c == '\t'
}

/// Whether a comment starts at `i`. `mode` 0 (TOML, YAML): any `#`. `mode`
/// 1 (.env values): a `#` after a blank. `mode` 2 (INI, properties, HCL): a
/// `#`, `;` or `//` at the start of the line or after a blank.
pub open spec fn starts_comment(s: Seq<char>, i: int, mode: u8) -> bool {
    if mode == 0 {
        s[i] == '#'
    } else if mode == 1 {
        i > 0 && is_blank_char(s[i - 1]) && s[i] == '#'
    } else {
        (i == 0 || is_blank_char(s[i - 1])) && (s[i] == '#' || s[i] == ';' || (s[i] == '/' && i + 1 < s.len()
            && s[i + 1] == '/'))
    }
}

/// Position of the first comment outside single and double quotes,
/// scanning from `i` with the given quote state.
pub open spec fn comment_at(s: Seq<char>, i: int, in_single: bool, in_double: bool, mode: u8) -> Option<int>
    decreases s.len() - i,
{
    if i < 0 || i >= s.len() {
        None
    } else if s[i] == '\'' && !in_double {
        comment_at(s, i + 1, !in_single, in_double, mode)
    } else if s[i] == '"' && !in_single {
        comment_at(s, i + 1, in_single, !in_double, mode)
    } else if !in_single && !in_double && starts_comment(s, i, mode) {
        Some(i)
    } else {
        comment_at(s, i + 1, in_single, in_double, mode)
    }
}

/// Removes a trailing comment (see [`starts_comment`]) while respecting
/// quoted strings.
pub open spec fn strip_comment_mode(line: Seq<char>, mode: u8) -> Seq<char> {
    match comment_at(line, 0, false, false, mode) {
        Some(i) => line.take(i),
        None => line,
    }
}

/// Removes a trailing `#` comment while respecting quoted strings.
pub open spec fn strip_comment_spec(line: Seq<char>) -> Seq<char> {
    strip_comment_mode(line, 0)
}

proof fn lemma_comment_at_bounds(s: Seq<char>, i: int, a: bool, b: bool, mode: u8)
    requires
        0 <= i,
    ensures
        comment_at(s, i, a, b, mode) matches Some(k) ==> i <= k < s.len(),
    decreases s.len() - i,
{
    if i < s.len() {
        lemma_comment_at_bounds(s, i + 1, !a, b, mode);
        lemma_comment_at_bounds(s, i + 1, a, !b, mode);
        lemma_comment_at_bounds(s, i + 1, a, b, mode);
    }
}

fn starts_comment_exec(s: &Vec<char>, i: usize, mode: u8) -> (r: bool)
    requires
        i < s.len(),
    ensures
        r == starts_comment(s@, i as int, mode),
{
    let c = s[i];
    if mode == 0 {
        c == '#'
    } else if mode == 1 {
        i > 0 && (s[i - 1] == ' ' || s[i - 1] == '\t') && c == '#'
    } else {
        (i == 0 || s[i - 1] == ' ' || s[i - 1] == '\t') && (c == '#' || c == ';' || (c == '/' && i + 1 < s.len()
            && s[i + 1] == '/'))
    }
}

pub fn strip_comment_with(line: &Vec<char>, mode: u8) -> (out: Vec<char>)
    ensures
        out@ == strip_comment_mode(line@, mode),
        out@.len() <= line@.len(),
{
    let mut in_single = false;
    let mut in_double = false;
    let mut i: usize = 0;
    proof {
        lemma_comment_at_bounds(line@, 0, false, false, mode);
    }
    while i < line.len()
        invariant
            i <= line.len(),
            comment_at(line@, 0, false, false, mode) == comment_at(line@, i as int, in_single, in_double, mode),
        decreases line.len() - i,
    {
        let c = line[i];
        if c == '\'' && !in_double {
            in_single = !in_single;
        } else if c == '"' && !in_single {
            in_double = !in_double;
        } else if !in_single && !in_double && starts_comment_exec(line, i, mode) {
            return text::slice_of(line, 0, i);
        }
        i += 1;
    }
    line.clone()
}

pub fn strip_comment(line: &Vec<char>) -> (out: Vec<char>)
    ensures
        out@ == strip_comment_spec(line@),
        out@.len() <= line@.len(),
{
    strip_comment_with(line, 0)
}

/// Index of the first line containing `needle`, or -1.
pub open spec fn line_index(ls: Seq<Seq<char>>, needle: Seq<char>, i: int) -> int
    decreases ls.len() - i,
{
    if i < 0 || i >= ls.len() {
        -1
    } else if contains(ls[i], needle) {
        i
    } else {
        line_index(ls, needle, i + 1)
    }
}

/// 1-based line of the first line containing the trimmed needle; 0 for
/// needles under three characters (too unspecific) or when nothing matches.
pub open spec fn line_of_spec(ls: Seq<Seq<char>>, needle: Seq<char>) -> u32 {
    let n = trim(needle);
    if n.len() < 3 {
        0
    } else {
        let k = line_index(ls, n, 0);
        if k < 0 {
            0
        } else {
            (k + 1) as u32
        }
    }
}

proof fn lemma_line_index_bounds(ls: Seq<Seq<char>>, needle: Seq<char>, i: int)
    requires
        0 <= i,
    ensures
        line_index(ls, needle, i) == -1 || i <= line_index(ls, needle, i) < ls.len(),
    decreases ls.len() - i,
{
    if i < ls.len() {
        lemma_line_index_bounds(ls, needle, i + 1);
    }
}

pub fn line_of(ls: &Vec<Vec<char>>, needle: &Vec<char>) -> (r: u32)
    requires
        ls@.len() < u32::MAX,
    ensures
        r == line_of_spec(line_views(ls@), needle@),
{
    let n = text::trim_vec(needle);
    if n.len() < 3 {
        return 0;
    }
    let ghost lv = line_views(ls@);
    proof {
        lemma_line_index_bounds(lv, n@, 0);
    }
    let mut i: usize = 0;
    while i < ls.len()
        invariant
            i <= ls.len() < u32::MAX,
            lv == line_views(ls@),
            n@ == trim(needle@),
            n@.len() >= 3,
            line_index(lv, n@, 0) == line_index(lv, n@, i as int),
        decreases ls.len() - i,
    {
        assert(lv[i as int] == ls@[i as int]@);
        if text::contains_vec(&ls[i], &n) {
            return (i + 1) as u32;
        }
        i += 1;
    }
    0
}

} // verus!

verus! {

/// Longest text the line-based parsers accept (line numbers are `u32`, byte
/// lengths `usize`).
pub open spec fn fits(text: Seq<char>) -> bool {
    text.len() <= 0x3fff_ffff
}

proof fn lemma_push_spec_append(out: Seq<FlatView>, key: Seq<char>, path: Seq<char>, value: Seq<char>, line: u32)
    ensures
        push_spec(out, key, path, value, line) == out + push_spec(seq![], key, path, value, line),
{
    if !(trim(value).len() == 0 || trim(key).len() == 0) {
        assert(out.push(FlatView { key, path, value: trim(value), line }) =~= out + seq![FlatView { key, path, value: trim(value), line }]);
    } else {
        assert(out =~= out + Seq::<FlatView>::empty());
    }
}

// ---------------------------------------------------------------------------
// .env
// ---------------------------------------------------------------------------

pub open spec fn is_comment_line(line: Seq<char>) -> bool {
    line.len() == 0 || line[0] == '#' || starts_with(line, "//"@)
}

/// `KEY=value`, optionally after `export `; a `#` after a blank starts a
/// comment that is not part of the value.
pub open spec fn env_line(raw: Seq<char>, no: u32) -> Seq<FlatView> {
    let line = trim(raw);
    if is_comment_line(line) {
        seq![]
    } else {
        let body = trim(if starts_with(line, "export "@) { line.skip(7) } else { line });
        match split_once(body, '=') {
            Some(kv) => push_spec(seq![], trim(kv.0), trim(kv.0), unquote_spec(trim(strip_comment_mode(kv.1, 1))), no),
            None => seq![],
        }
    }
}

pub open spec fn env_values(ls: Seq<Seq<char>>) -> Seq<FlatView>
    decreases ls.len(),
{
    if ls.len() == 0 {
        seq![]
    } else {
        env_values(ls.drop_last()) + env_line(ls.last(), ls.len() as u32)
    }
}

fn comment_line(line: &Vec<char>) -> (r: bool)
    ensures
        r == is_comment_line(line@),
{
    line.len() == 0 || line[0] == '#' || text::starts_with_str(line, "//")
}

fn env_line_into(out: &mut Vec<FlatValue>, raw: &Vec<char>, no: u32)
    ensures
        flat_views(final(out)@) == flat_views(old(out)@) + env_line(raw@, no),
{
    let line = text::trim_vec(raw);
    if comment_line(&line) {
        assert(flat_views(out@) =~= flat_views(out@) + Seq::<FlatView>::empty());
        return ;
    }
    proof {
        reveal_strlit("export ");
    }
    let body = if text::starts_with_str(&line, "export ") {
        let rest = text::slice_of(&line, 7, line.len());
        assert(rest@ =~= line@.skip(7));
        text::trim_vec(&rest)
    } else {
        text::trim_vec(&line)
    };
    match text::split_once_exec(&body, '=') {
        Some((k, v)) => {
            let key = text::trim_vec(&k);
            let sv = strip_comment_with(&v, 1);
            let tv = text::trim_vec(&sv);
            let value = unquote(&tv);
            proof {
                lemma_push_spec_append(flat_views(out@), key@, key@, value@, no);
            }
            push(out, &key, &key, &value, no);
        },
        None => {
            assert(flat_views(out@) =~= flat_views(out@) + Seq::<FlatView>::empty());
        },
    }
}

pub fn extract_env(text: &Vec<char>) -> (out: Vec<FlatValue>)
    requires
        fits(text@),
    ensures
        flat_views(out@) == env_values(lines(text@)),
{
    let ls = text::split_lines(text);
    proof {
        text::lemma_lines_len(text@);
    }
    let ghost lv = line_views(ls@);
    let mut out: Vec<FlatValue> = Vec::new();
    let mut i: usize = 0;
    assert(lv.take(0) =~= Seq::<Seq<char>>::empty());
    while i < ls.len()
        invariant
            i <= ls.len(),
            lv == line_views(ls@),
            lv == lines(text@),
            lv.len() <= 0x3fff_ffff,
            flat_views(out@) == env_values(lv.take(i as int)),
        decreases ls.len() - i,
    {
        assert(lv.take(i + 1).drop_last() =~= lv.take(i as int));
        assert(lv.take(i + 1).last() == ls@[i as int]@);
        env_line_into(&mut out, &ls[i], (i + 1) as u32);
        i += 1;
    }
    assert(lv.take(ls.len() as int) =~= lv);
    out
}

// ---------------------------------------------------------------------------
// TOML and INI-like files
// ---------------------------------------------------------------------------

/// One line under the current `[section]`: a new section header, a
/// `key = value` pair (arrays are skipped) or nothing; comments are removed
/// as `mode` says (see [`starts_comment`]).
pub open spec fn kv_step(section: Seq<char>, raw: Seq<char>, no: u32, mode: u8) -> (Seq<char>, Seq<FlatView>) {
    let line = trim(strip_comment_mode(raw, mode));
    if line.len() == 0 {
        (section, seq![])
    } else if line[0] == '[' {
        (trim(trim_end_char(trim_start_char(line, '['), ']')), seq![])
    } else {
        match split_once(line, '=') {
            Some(kv) => {
                let key = trim(kv.0);
                let path = if section.len() == 0 {
                    key
                } else {
                    section + seq!['.'] + key
                };
                let value = unquote_spec(trim(kv.1));
                if value.len() > 0 && value[0] == '[' {
                    (section, seq![])
                } else {
                    (section, push_spec(seq![], key, path, value, no))
                }
            },
            None => (section, seq![]),
        }
    }
}

pub open spec fn kv_fold(ls: Seq<Seq<char>>, mode: u8) -> (Seq<char>, Seq<FlatView>)
    decreases ls.len(),
{
    if ls.len() == 0 {
        (seq![], seq![])
    } else {
        let prev = kv_fold(ls.drop_last(), mode);
        let step = kv_step(prev.0, ls.last(), ls.len() as u32, mode);
        (step.0, prev.1 + step.1)
    }
}

/// TOML: `#` comments.
pub open spec fn toml_values(ls: Seq<Seq<char>>) -> Seq<FlatView> {
    kv_fold(ls, 0).1
}

/// INI, Java properties and HCL variable files: `#`, `;` and `//` comments,
/// at the start of a line or after a blank.
pub open spec fn dialect_values(ls: Seq<Seq<char>>) -> Seq<FlatView> {
    kv_fold(ls, 2).1
}

fn kv_line_into(out: &mut Vec<FlatValue>, section: &mut Vec<char>, raw: &Vec<char>, no: u32, mode: u8)
    ensures
        final(section)@ == kv_step(old(section)@, raw@, no, mode).0,
        flat_views(final(out)@) == flat_views(old(out)@) + kv_step(old(section)@, raw@, no, mode).1,
{
    let cleaned = strip_comment_with(raw, mode);
    let line = text::trim_vec(&cleaned);
    if line.len() == 0 {
        assert(flat_views(out@) =~= flat_views(out@) + Seq::<FlatView>::empty());
        return ;
    }
    if line[0] == '[' {
        let a = text::trim_start_char_exec(&line, '[');
        let b = text::trim_end_char_exec(&a, ']');
        *section = text::trim_vec(&b);
        assert(flat_views(out@) =~= flat_views(out@) + Seq::<FlatView>::empty());
        return ;
    }
    match text::split_once_exec(&line, '=') {
        Some((k, v)) => {
            let key = text::trim_vec(&k);
            let path = if section.len() == 0 {
                key.clone()
            } else {
                let mut p = section.clone();
                p.push('.');
                text::push_all(&mut p, &key);
                assert(p@ =~= section@ + seq!['.'] + key@);
                p
            };
            let tv = text::trim_vec(&v);
            let value = unquote(&tv);
            if value.len() > 0 && value[0] == '[' {
                assert(flat_views(out@) =~= flat_views(out@) + Seq::<FlatView>::empty());
                return ;
            }
            proof {
                lemma_push_spec_append(flat_views(out@), key@, path@, value@, no);
            }
            push(out, &key, &path, &value, no);
        },
        None => {
            assert(flat_views(out@) =~= flat_views(out@) + Seq::<FlatView>::empty());
        },
    }
}

pub fn extract_toml(text: &Vec<char>) -> (out: Vec<FlatValue>)
    requires
        fits(text@),
    ensures
        flat_views(out@) == toml_values(lines(text@)),
{
    extract_kv(text, 0)
}

pub fn extract_dialect(text: &Vec<char>) -> (out: Vec<FlatValue>)
    requires
        fits(text@),
    ensures
        flat_views(out@) == dialect_values(lines(text@)),
{
    extract_kv(text, 2)
}

fn extract_kv(text: &Vec<char>, mode: u8) -> (out: Vec<FlatValue>)
    requires
        fits(text@),
    ensures
        flat_views(out@) == kv_fold(lines(text@), mode).1,
{
    let ls = text::split_lines(text);
    proof {
        text::lemma_lines_len(text@);
    }
    let ghost lv = line_views(ls@);
    let mut out: Vec<FlatValue> = Vec::new();
    let mut section: Vec<char> = Vec::new();
    let mut i: usize = 0;
    assert(lv.take(0) =~= Seq::<Seq<char>>::empty());
    while i < ls.len()
        invariant
            i <= ls.len(),
            lv == line_views(ls@),
            lv == lines(text@),
            lv.len() <= 0x3fff_ffff,
            kv_fold(lv.take(i as int), mode) == (section@, flat_views(out@)),
        decreases ls.len() - i,
    {
        assert(lv.take(i + 1).drop_last() =~= lv.take(i as int));
        assert(lv.take(i + 1).last() == ls@[i as int]@);
        kv_line_into(&mut out, &mut section, &ls[i], (i + 1) as u32, mode);
        i += 1;
    }
    assert(lv.take(ls.len() as int) =~= lv);
    out
}

} // verus!

verus! {

// ---------------------------------------------------------------------------
// Plain text
// ---------------------------------------------------------------------------

/// `http://` or `https://`, ignoring ASCII case and surrounding whitespace.
pub open spec fn looks_like_url(value: Seq<char>) -> bool {
    let lower = lower_seq(trim(value));
    starts_with(lower, "http://"@) || starts_with(lower, "https://"@)
}

pub fn looks_like_url_exec(value: &Vec<char>) -> (r: bool)
    ensures
        r == looks_like_url(value@),
{
    let t = text::trim_vec(value);
    let lower = text::to_lower(&t);
    text::starts_with_str(&lower, "http://") || text::starts_with_str(&lower, "https://")
}

/// Key of a `key=value` or `key: value` line: list dashes and quotes removed.
pub open spec fn text_key(k: Seq<char>) -> Seq<char> {
    trim(trim_char(trim_char(trim(trim_start_char(trim(k), '-')), '"'), '\''))
}

pub open spec fn text_pair(line: Seq<char>, sep: char) -> Option<(Seq<char>, Seq<char>)> {
    match split_once(line, sep) {
        Some(kv) => {
            let key = text_key(kv.0);
            let value = unquote_spec(trim(kv.1));
            if key.len() > 0 && value.len() > 0 && text::byte_len(key) < 64 {
                Some((key, value))
            } else {
                None
            }
        },
        None => None,
    }
}

/// The first usable `=` pair, else the first usable `:` pair.
pub open spec fn pair_values(line: Seq<char>, no: u32) -> Seq<FlatView> {
    match text_pair(line, '=') {
        Some(p) => push_spec(seq![], p.0, p.0, p.1, no),
        None => match text_pair(line, ':') {
            Some(p) => push_spec(seq![], p.0, p.0, p.1, no),
            None => seq![],
        },
    }
}

pub open spec fn is_token_sep(c: char) -> bool {
    text::is_space(c) || c == '"' || c == '\'' || c == ','
}

pub open spec fn first_sep(s: Seq<char>, i: int) -> int
    decreases s.len() - i,
{
    if i < 0 || i >= s.len() {
        s.len() as int
    } else if is_token_sep(s[i]) {
        i
    } else {
        first_sep(s, i + 1)
    }
}

proof fn lemma_first_sep_bounds(s: Seq<char>, i: int)
    requires
        0 <= i <= s.len(),
    ensures
        i <= first_sep(s, i) <= s.len(),
    decreases s.len() - i,
{
    if i < s.len() {
        lemma_first_sep_bounds(s, i + 1);
    }
}

pub open spec fn url_item(token: Seq<char>, no: u32) -> Seq<FlatView> {
    if looks_like_url(token) {
        push_spec(seq![], "url"@, "url"@, token, no)
    } else {
        seq![]
    }
}

/// Every token (split at whitespace, quotes and commas) that is a URL.
pub open spec fn url_values(s: Seq<char>, no: u32) -> Seq<FlatView>
    decreases s.len(),
{
    let k = first_sep(s, 0);
    if k < 0 || k >= s.len() {
        url_item(s, no)
    } else {
        url_item(s.take(k), no) + url_values(s.skip(k + 1), no)
    }
}

pub open spec fn text_line(raw: Seq<char>, no: u32) -> Seq<FlatView> {
    let line = trim(raw);
    if is_comment_line(line) {
        seq![]
    } else {
        pair_values(line, no) + url_values(line, no)
    }
}

pub open spec fn text_values(ls: Seq<Seq<char>>) -> Seq<FlatView>
    decreases ls.len(),
{
    if ls.len() == 0 {
        seq![]
    } else {
        text_values(ls.drop_last()) + text_line(ls.last(), ls.len() as u32)
    }
}

fn is_token_sep_exec(c: char) -> (r: bool)
    ensures
        r == is_token_sep(c),
{
    text::char_is_space(c) || c == '"' || c == '\'' || c == ','
}

fn url_item_into(out: &mut Vec<FlatValue>, token: &Vec<char>, no: u32)
    ensures
        flat_views(final(out)@) == flat_views(old(out)@) + url_item(token@, no),
{
    if looks_like_url_exec(token) {
        let key = text::chars_of("url");
        proof {
            lemma_push_spec_append(flat_views(out@), key@, key@, token@, no);
        }
        push(out, &key, &key, token, no);
    } else {
        assert(flat_views(out@) =~= flat_views(out@) + Seq::<FlatView>::empty());
    }
}

fn url_values_into(out: &mut Vec<FlatValue>, line: &Vec<char>, no: u32)
    ensures
        flat_views(final(out)@) == flat_views(old(out)@) + url_values(line@, no),
{
    let ghost base = flat_views(out@);
    let mut start: usize = 0;
    assert(line@.skip(0) =~= line@);
    loop
        invariant_except_break
            start <= line.len(),
            base + url_values(line@, no) == flat_views(out@) + url_values(
                line@.skip(start as int),
                no,
            ),
        ensures
            flat_views(out@) == base + url_values(line@, no),
        decreases line.len() - start,
    {
        let ghost rest = line@.skip(start as int);
        let mut j: usize = start;
        proof {
            lemma_first_sep_bounds(rest, 0);
        }
        while j < line.len() && !is_token_sep_exec(line[j])
            invariant
                start <= j <= line.len(),
                rest == line@.skip(start as int),
                first_sep(rest, 0) == first_sep(rest, (j - start) as int),
            decreases line.len() - j,
        {
            j += 1;
        }
        let token = text::slice_of(line, start, j);
        assert(token@ =~= rest.take((j - start) as int));
        let ghost before = flat_views(out@);
        url_item_into(out, &token, no);
        if j >= line.len() {
            assert(rest.take((j - start) as int) =~= rest);
            assert(base + url_values(line@, no) =~= flat_views(out@));
            break;
        }
        assert(rest.skip((j - start) + 1) =~= line@.skip(j + 1));
        assert(before + url_values(rest, no) =~= flat_views(out@) + url_values(
            line@.skip(j + 1),
            no,
        ));
        start = j + 1;
    }
}

fn text_pair_exec(line: &Vec<char>, sep: char) -> (r: Option<(Vec<char>, Vec<char>)>)
    ensures
        match r {
            Some(p) => text_pair(line@, sep) == Some((p.0@, p.1@)),
            None => text_pair(line@, sep) is None,
        },
{
    match text::split_once_exec(line, sep) {
        Some((k, v)) => {
            let a = text::trim_vec(&k);
            let b = text::trim_start_char_exec(&a, '-');
            let c = text::trim_vec(&b);
            let d = text::trim_char_exec(&c, '"');
            let e = text::trim_char_exec(&d, '\'');
            let key = text::trim_vec(&e);
            let tv = text::trim_vec(&v);
            let value = unquote(&tv);
            if key.len() > 0 && value.len() > 0 && text::byte_len_lt(&key, 64) {
                Some((key, value))
            } else {
                None
            }
        },
        None => None,
    }
}

fn text_line_into(out: &mut Vec<FlatValue>, raw: &Vec<char>, no: u32)
    ensures
        flat_views(final(out)@) == flat_views(old(out)@) + text_line(raw@, no),
{
    let line = text::trim_vec(raw);
    if comment_line(&line) {
        assert(flat_views(out@) =~= flat_views(out@) + Seq::<FlatView>::empty());
        return ;
    }
    let ghost base = flat_views(out@);
    match text_pair_exec(&line, '=') {
        Some((k, v)) => {
            proof {
                lemma_push_spec_append(flat_views(out@), k@, k@, v@, no);
            }
            push(out, &k, &k, &v, no);
        },
        None => match text_pair_exec(&line, ':') {
            Some((k, v)) => {
                proof {
                    lemma_push_spec_append(flat_views(out@), k@, k@, v@, no);
                }
                push(out, &k, &k, &v, no);
            },
            None => {
                assert(flat_views(out@) =~= flat_views(out@) + Seq::<FlatView>::empty());
            },
        },
    }
    assert(flat_views(out@) == base + pair_values(line@, no));
    url_values_into(out, &line, no);
    assert(flat_views(out@) =~= base + (pair_values(line@, no) + url_values(line@, no)));
}

pub fn extract_text(text: &Vec<char>) -> (out: Vec<FlatValue>)
    requires
        fits(text@),
    ensures
        flat_views(out@) == text_values(lines(text@)),
{
    let ls = text::split_lines(text);
    proof {
        text::lemma_lines_len(text@);
    }
    let ghost lv = line_views(ls@);
    let mut out: Vec<FlatValue> = Vec::new();
    let mut i: usize = 0;
    assert(lv.take(0) =~= Seq::<Seq<char>>::empty());
    while i < ls.len()
        invariant
            i <= ls.len(),
            lv == line_views(ls@),
            lv == lines(text@),
            lv.len() <= 0x3fff_ffff,
            flat_views(out@) == text_values(lv.take(i as int)),
        decreases ls.len() - i,
    {
        assert(lv.take(i + 1).drop_last() =~= lv.take(i as int));
        assert(lv.take(i + 1).last() == ls@[i as int]@);
        text_line_into(&mut out, &ls[i], (i + 1) as u32);
        i += 1;
    }
    assert(lv.take(ls.len() as int) =~= lv);
    out
}

} // verus!

verus! {

// ---------------------------------------------------------------------------
// YAML (block mappings)
// ---------------------------------------------------------------------------

/// Open parent keys with the indentation (in bytes) they were found at.
pub open spec fn yaml_keys(stack: Seq<(usize, Seq<char>)>) -> Seq<Seq<char>> {
    stack.map_values(|e: (usize, Seq<char>)| e.1)
}

/// Closes every parent that is not indented less than `indent`.
pub open spec fn pop_to(stack: Seq<(usize, Seq<char>)>, indent: int) -> Seq<(usize, Seq<char>)>
    decreases stack.len(),
{
    if stack.len() > 0 && stack.last().0 >= indent {
        pop_to(stack.drop_last(), indent)
    } else {
        stack
    }
}

pub open spec fn yaml_indent(line: Seq<char>) -> int {
    text::byte_len(line) - text::byte_len(text::trim_start(line))
}

/// `|` or `>` (with an optional `-` or `+`): the value is a block of text on
/// the following, deeper indented lines.
pub open spec fn is_block_marker(value: Seq<char>) -> bool {
    value == "|"@ || value == ">"@ || value == "|-"@ || value == ">-"@ || value == "|+"@ || value == ">+"@
}

/// Inside a block scalar: the innermost open level is a block (its name is
/// empty) and the line is indented deeper than the key that opened it. Such
/// a line is content as a whole; no key is read in it.
pub open spec fn in_block(stack: Seq<(usize, Seq<char>)>, indent: int) -> bool {
    stack.len() > 0 && stack.last().1.len() == 0 && indent > stack.last().0
}

pub open spec fn yaml_step(stack: Seq<(usize, Seq<char>)>, raw: Seq<char>, no: u32) -> (
    Seq<(usize, Seq<char>)>,
    Seq<FlatView>,
) {
    let wc = strip_comment_spec(raw);
    let content = trim(wc);
    if content.len() == 0 || content == "---"@ || content[0] == '%' {
        (stack, seq![])
    } else {
        let indent = yaml_indent(wc);
        if in_block(stack, indent) {
            (stack, seq![])
        } else {
        let item = trim(
            if starts_with(content, "- "@) {
                content.skip(2)
            } else {
                content
            },
        );
        match split_once(item, ':') {
            None => (stack, seq![]),
            Some(kv) => {
                let key = trim(trim_char(trim_char(trim(kv.0), '"'), '\''));
                if key.len() == 0 {
                    (stack, seq![])
                } else {
                    let open = pop_to(stack, indent);
                    let value = trim(kv.1);
                    if value.len() == 0 {
                        (open.push((indent as usize, key)), seq![])
                    } else if is_block_marker(value) {
                        (open.push((indent as usize, seq![])), seq![])
                    } else {
                        (
                            open,
                            push_spec(
                                seq![],
                                key,
                                text::join_dot(yaml_keys(open).push(key)),
                                unquote_spec(value),
                                no,
                            ),
                        )
                    }
                }
            },
        }
        }
    }
}

pub open spec fn yaml_fold(ls: Seq<Seq<char>>) -> (Seq<(usize, Seq<char>)>, Seq<FlatView>)
    decreases ls.len(),
{
    if ls.len() == 0 {
        (seq![], seq![])
    } else {
        let prev = yaml_fold(ls.drop_last());
        let step = yaml_step(prev.0, ls.last(), ls.len() as u32);
        (step.0, prev.1 + step.1)
    }
}

pub open spec fn yaml_values(ls: Seq<Seq<char>>) -> Seq<FlatView> {
    yaml_fold(ls).1
}

pub open spec fn stack_view(v: Seq<(usize, Vec<char>)>) -> Seq<(usize, Seq<char>)> {
    v.map_values(|e: (usize, Vec<char>)| (e.0, e.1@))
}

fn pop_to_exec(stack: &mut Vec<(usize, Vec<char>)>, indent: usize)
    ensures
        stack_view(final(stack)@) == pop_to(stack_view(old(stack)@), indent as int),
{
    while stack.len() > 0 && stack[stack.len() - 1].0 >= indent
        invariant
            pop_to(stack_view(old(stack)@), indent as int) == pop_to(stack_view(stack@), indent as int),
        decreases stack.len(),
    {
        let ghost before = stack_view(stack@);
        stack.pop();
        assert(stack_view(stack@) =~= before.drop_last());
    }
}

fn block_marker(v: &Vec<char>) -> (r: bool)
    ensures
        r == is_block_marker(v@),
{
    is(v, "|") || is(v, ">") || is(v, "|-") || is(v, ">-") || is(v, "|+") || is(v, ">+")
}

fn yaml_line_into(
    out: &mut Vec<FlatValue>,
    stack: &mut Vec<(usize, Vec<char>)>,
    raw: &Vec<char>,
    no: u32,
)
    requires
        raw@.len() <= 0x3fff_ffff,
    ensures
        stack_view(final(stack)@) == yaml_step(stack_view(old(stack)@), raw@, no).0,
        flat_views(final(out)@) == flat_views(old(out)@) + yaml_step(
            stack_view(old(stack)@),
            raw@,
            no,
        ).1,
{
    let wc = strip_comment(raw);
    let content = text::trim_vec(&wc);
    proof {
        reveal_strlit("---");
        reveal_strlit("- ");
        reveal_strlit("|");
        reveal_strlit(">");
    }
    let dashes = text::chars_of("---");
    if content.len() == 0 || text::seq_eq(&content, &dashes) || content[0] == '%' {
        assert(flat_views(out@) =~= flat_views(out@) + Seq::<FlatView>::empty());
        return ;
    }
    let lead = text::lead_count(&wc);
    let trimmed_start = text::slice_of(&wc, lead, wc.len());
    assert(trimmed_start@ =~= text::trim_start(wc@));
    let total = text::byte_len_exec(&wc);
    let rest = text::byte_len_exec(&trimmed_start);
    proof {
        text::lemma_byte_len_split(wc@, text::lead(wc@) as int);
    }
    let indent = total - rest;
    if stack.len() > 0 && stack[stack.len() - 1].1.len() == 0 && indent > stack[stack.len() - 1].0 {
        assert(in_block(stack_view(stack@), indent as int));
        assert(flat_views(out@) =~= flat_views(out@) + Seq::<FlatView>::empty());
        return ;
    }
    let item = if text::starts_with_str(&content, "- ") {
        let r = text::slice_of(&content, 2, content.len());
        assert(r@ =~= content@.skip(2));
        text::trim_vec(&r)
    } else {
        text::trim_vec(&content)
    };
    match text::split_once_exec(&item, ':') {
        None => {
            assert(flat_views(out@) =~= flat_views(out@) + Seq::<FlatView>::empty());
        },
        Some((k, v)) => {
            let a = text::trim_vec(&k);
            let b = text::trim_char_exec(&a, '"');
            let c = text::trim_char_exec(&b, '\'');
            let key = text::trim_vec(&c);
            if key.len() == 0 {
                assert(flat_views(out@) =~= flat_views(out@) + Seq::<FlatView>::empty());
                return ;
            }
            pop_to_exec(stack, indent);
            let value = text::trim_vec(&v);
            if value.len() == 0 {
                let ghost before = stack_view(stack@);
                stack.push((indent, key));
                assert(stack_view(stack@) =~= before.push((indent, key@)));
                assert(flat_views(out@) =~= flat_views(out@) + Seq::<FlatView>::empty());
                return ;
            }
            if block_marker(&value) {
                let ghost before = stack_view(stack@);
                stack.push((indent, Vec::new()));
                assert(stack_view(stack@) =~= before.push((indent, Seq::<char>::empty())));
                assert(flat_views(out@) =~= flat_views(out@) + Seq::<FlatView>::empty());
                return ;
            }
            let mut names: Vec<Vec<char>> = Vec::new();
            let mut i: usize = 0;
            while i < stack.len()
                invariant
                    i <= stack.len(),
                    text::line_views(names@) == yaml_keys(stack_view(stack@)).take(i as int),
                decreases stack.len() - i,
            {
                let name = stack[i].1.clone();
                assert(name@ == yaml_keys(stack_view(stack@))[i as int]);
                let ghost before = text::line_views(names@);
                names.push(name);
                assert(text::line_views(names@) =~= before.push(name@));
                i += 1;
                assert(text::line_views(names@) =~= yaml_keys(stack_view(stack@)).take(i as int));
            }
            assert(yaml_keys(stack_view(stack@)).take(stack.len() as int) =~= yaml_keys(stack_view(stack@)));
            names.push(key.clone());
            assert(text::line_views(names@) =~= yaml_keys(stack_view(stack@)).push(key@));
            let path = text::join_dot_exec(&names);
            let unquoted = unquote(&value);
            proof {
                lemma_push_spec_append(flat_views(out@), key@, path@, unquoted@, no);
            }
            push(out, &key, &path, &unquoted, no);
        },
    }
}

} // verus!

verus! {

pub fn extract_yaml(text: &Vec<char>) -> (out: Vec<FlatValue>)
    requires
        fits(text@),
    ensures
        flat_views(out@) == yaml_values(lines(text@)),
{
    let ls = text::split_lines(text);
    proof {
        text::lemma_lines_len(text@);
        text::lemma_lines_elem_len(text@);
    }
    let ghost lv = line_views(ls@);
    let mut out: Vec<FlatValue> = Vec::new();
    let mut stack: Vec<(usize, Vec<char>)> = Vec::new();
    let mut i: usize = 0;
    assert(lv.take(0) =~= Seq::<Seq<char>>::empty());
    assert(stack_view(stack@) =~= Seq::<(usize, Seq<char>)>::empty());
    while i < ls.len()
        invariant
            i <= ls.len(),
            lv == line_views(ls@),
            lv == lines(text@),
            lv.len() <= 0x3fff_ffff,
            forall|k: int| 0 <= k < lv.len() ==> #[trigger] lv[k].len() <= 0x3fff_ffff,
            yaml_fold(lv.take(i as int)) == (stack_view(stack@), flat_views(out@)),
        decreases ls.len() - i,
    {
        assert(lv.take(i + 1).drop_last() =~= lv.take(i as int));
        assert(lv.take(i + 1).last() == ls@[i as int]@);
        assert(lv[i as int].len() <= 0x3fff_ffff);
        yaml_line_into(&mut out, &mut stack, &ls[i], (i + 1) as u32);
        i += 1;
    }
    assert(lv.take(ls.len() as int) =~= lv);
    out
}

// ---------------------------------------------------------------------------
// JSON
// ---------------------------------------------------------------------------

/// A parsed JSON document. Numbers keep the text `serde_json` renders them
/// as; object members come in the order `serde_json::Map` iterates them.
#[derive(Debug)]
pub enum Json {
    Null,
    Bool(bool),
    Number(String),
    Str(String),
    Array(Vec<Json>),
    Object(Vec<(String, Json)>),
}

/// Last segment of a JSON path: what follows the last `.` or `[` once
/// trailing `]` are removed.
pub open spec fn last_segment(path: Seq<char>) -> Seq<char> {
    let t = trim_end_char(path, ']');
    match last_dot_or_bracket(t, t.len() as int) {
        Some(i) => t.skip(i + 1),
        None => t,
    }
}

pub open spec fn last_dot_or_bracket(s: Seq<char>, j: int) -> Option<int>
    decreases j,
{
    if j <= 0 || j > s.len() {
        None
    } else if s[j - 1] == '.' || s[j - 1] == '[' {
        Some(j - 1)
    } else {
        last_dot_or_bracket(s, j - 1)
    }
}

proof fn lemma_last_dot_bounds(s: Seq<char>, j: int)
    ensures
        last_dot_or_bracket(s, j) matches Some(k) ==> 0 <= k < j <= s.len(),
    decreases j,
{
    if 0 < j <= s.len() {
        lemma_last_dot_bounds(s, j - 1);
    }
}

pub fn last_segment_exec(path: &Vec<char>) -> (out: Vec<char>)
    ensures
        out@ == last_segment(path@),
{
    let t = text::trim_end_char_exec(path, ']');
    let mut j: usize = t.len();
    proof {
        lemma_last_dot_bounds(t@, t@.len() as int);
    }
    while j > 0 && t[j - 1] != '.' && t[j - 1] != '['
        invariant
            j <= t.len(),
            last_dot_or_bracket(t@, t@.len() as int) == last_dot_or_bracket(t@, j as int),
        decreases j,
    {
        j -= 1;
    }
    if j == 0 {
        t
    } else {
        text::slice_of(&t, j, t.len())
    }
}

} // verus!

verus! {

/// A leaf value stored under `path`.
pub open spec fn json_leaf(path: Seq<char>, value: Seq<char>, ls: Seq<Seq<char>>) -> Seq<FlatView> {
    push_spec(seq![], last_segment(path), path, value, line_of_spec(ls, value))
}

pub open spec fn member_path(path: Seq<char>, key: Seq<char>) -> Seq<char> {
    if path.len() == 0 {
        key
    } else {
        path + seq!['.'] + key
    }
}

pub open spec fn item_path(path: Seq<char>, index: nat) -> Seq<char> {
    path + seq!['['] + decimal(index) + seq![']']
}

/// Every string, number and boolean of a JSON document, depth first, with
/// its dotted path (`a.b[0].c`).
pub open spec fn json_flat(j: Json, path: Seq<char>, ls: Seq<Seq<char>>) -> Seq<FlatView>
    decreases j, 0nat,
{
    match j {
        Json::Null => seq![],
        Json::Bool(b) => json_leaf(
            path,
            if b {
                "true"@
            } else {
                "false"@
            },
            ls,
        ),
        Json::Number(n) => json_leaf(path, n@, ls),
        Json::Str(s) => json_leaf(path, s@, ls),
        Json::Array(items) => {
            proof {
                assert(decreases_to!(j => items));
                assert(decreases_to!(items => items@));
            }
            json_items(items@, path, ls, items@.len())
        },
        Json::Object(members) => {
            proof {
                assert(decreases_to!(j => members));
                assert(decreases_to!(members => members@));
            }
            json_members(members@, path, ls, members@.len())
        },
    }
}

pub open spec fn json_items(items: Seq<Json>, path: Seq<char>, ls: Seq<Seq<char>>, n: nat) -> Seq<
    FlatView,
>
    decreases items, n,
{
    if n == 0 || n > items.len() {
        seq![]
    } else {
        json_items(items, path, ls, (n - 1) as nat) + json_flat(
            items[n - 1],
            item_path(path, (n - 1) as nat),
            ls,
        )
    }
}

pub open spec fn json_members(
    members: Seq<(String, Json)>,
    path: Seq<char>,
    ls: Seq<Seq<char>>,
    n: nat,
) -> Seq<FlatView>
    decreases members, n,
{
    if n == 0 || n > members.len() {
        seq![]
    } else {
        proof {
            assert(decreases_to!(members => members[n - 1]));
            assert(decreases_to!(members[n - 1] => members[n - 1].1));
        }
        json_members(members, path, ls, (n - 1) as nat) + json_flat(
            members[n - 1].1,
            member_path(path, members[n - 1].0@),
            ls,
        )
    }
}

} // verus!

verus! {

fn json_leaf_into(out: &mut Vec<FlatValue>, path: &Vec<char>, value: &Vec<char>, ls: &Vec<Vec<char>>)
    requires
        ls@.len() < u32::MAX,
    ensures
        flat_views(final(out)@) == flat_views(old(out)@) + json_leaf(path@, value@, line_views(ls@)),
{
    let key = last_segment_exec(path);
    let line = line_of(ls, value);
    proof {
        lemma_push_spec_append(flat_views(out@), key@, path@, value@, line);
    }
    push(out, &key, path, value, line);
}

fn walk_json(j: &Json, path: &Vec<char>, ls: &Vec<Vec<char>>, out: &mut Vec<FlatValue>)
    requires
        ls@.len() < u32::MAX,
    ensures
        flat_views(final(out)@) == flat_views(old(out)@) + json_flat(*j, path@, line_views(ls@)),
    decreases j,
{
    let ghost lv = line_views(ls@);
    match j {
        Json::Null => {
            assert(flat_views(out@) =~= flat_views(out@) + Seq::<FlatView>::empty());
        },
        Json::Bool(b) => {
            let v = if *b {
                text::chars_of("true")
            } else {
                text::chars_of("false")
            };
            json_leaf_into(out, path, &v, ls);
        },
        Json::Number(n) => {
            let v = text::chars_of_string(n);
            json_leaf_into(out, path, &v, ls);
        },
        Json::Str(s) => {
            let v = text::chars_of_string(s);
            json_leaf_into(out, path, &v, ls);
        },
        Json::Array(items) => {
            let ghost base = flat_views(out@);
            let mut i: usize = 0;
            while i < items.len()
                invariant
                    i <= items.len(),
                    *j == Json::Array(*items),
                    ls@.len() < u32::MAX,
                    lv == line_views(ls@),
                    flat_views(out@) == base + json_items(items@, path@, lv, i as nat),
                decreases items.len() - i,
            {
                let mut p = path.clone();
                p.push('[');
                text::push_decimal(&mut p, i as u64);
                p.push(']');
                assert(p@ =~= item_path(path@, i as nat));
                proof {
                    assert((*j)->Array_0 == *items);
                    assert(decreases_to!(*j => (*j)->Array_0));
                    assert(decreases_to!((*j)->Array_0 => (*j)->Array_0@));
                    assert(decreases_to!((*j)->Array_0@ => (*j)->Array_0@[i as int]));
                }
                let ghost before = flat_views(out@);
                walk_json(&items[i], &p, ls, out);
                i += 1;
                assert(flat_views(out@) =~= base + json_items(items@, path@, lv, i as nat));
            }
        },
        Json::Object(members) => {
            let ghost base = flat_views(out@);
            let mut i: usize = 0;
            while i < members.len()
                invariant
                    i <= members.len(),
                    *j == Json::Object(*members),
                    ls@.len() < u32::MAX,
                    lv == line_views(ls@),
                    flat_views(out@) == base + json_members(members@, path@, lv, i as nat),
                decreases members.len() - i,
            {
                let key = text::chars_of_string(&members[i].0);
                let p = if path.len() == 0 {
                    key
                } else {
                    let mut p = path.clone();
                    p.push('.');
                    text::push_all(&mut p, &key);
                    p
                };
                assert(p@ =~= member_path(path@, members@[i as int].0@));
                proof {
                    assert((*j)->Object_0 == *members);
                    assert(decreases_to!(*j => (*j)->Object_0));
                    assert(decreases_to!((*j)->Object_0 => (*j)->Object_0@));
                    assert(decreases_to!((*j)->Object_0@ => (*j)->Object_0@[i as int]));
                    assert(decreases_to!((*j)->Object_0@[i as int] => (*j)->Object_0@[i as int].1));
                }
                walk_json(&members[i].1, &p, ls, out);
                i += 1;
                assert(flat_views(out@) =~= base + json_members(members@, path@, lv, i as nat));
            }
        },
    }
}

} // verus!

verus! {

// ---------------------------------------------------------------------------
// XML
// ---------------------------------------------------------------------------

/// One event of an XML reader, reduced to what the extraction reads.
#[derive(Debug)]
pub enum XmlItem {
    /// An opening tag, or a self-closing one when the flag is set: local
    /// name and attributes (local name, unescaped value).
    Tag(String, Vec<(String, String)>, bool),
    /// Text content as written in the document; `None` when it is not UTF-8.
    Text(Option<String>),
    End,
    Other,
}

/// Expands the predefined entities `&lt;`, `&gt;`, `&quot;` and `&amp;`, one
/// after the other.
pub open spec fn unescape_spec(v: Seq<char>) -> Seq<char> {
    text::replace_all(
        text::replace_all(
            text::replace_all(text::replace_all(v, "&lt;"@, "<"@), "&gt;"@, ">"@),
            "&quot;"@,
            "\""@,
        ),
        "&amp;"@,
        "&"@,
    )
}

/// No occurrence of `p` can start inside `a`, whatever follows it: each
/// character of `a` differs from the first of `p`, or is followed inside `a`
/// by one that differs from the second.
pub open spec fn no_start_in(a: Seq<char>, p: Seq<char>) -> bool {
    forall|i: int| 0 <= i < a.len() ==> #[trigger] a[i] != p[0] || (i + 1 < a.len() && a[i + 1] != p[1])
}

pub open spec fn shifted(o: Option<int>, by: int) -> Option<int> {
    match o {
        Some(j) => Some(j + by),
        None => None,
    }
}

proof fn lemma_find_in_tail(a: Seq<char>, b: Seq<char>, p: Seq<char>, k: int)
    requires
        0 <= k,
    ensures
        text::find_from(a + b, p, a.len() + k) == shifted(text::find_from(b, p, k), a.len() as int),
    decreases b.len() + 1 - k,
{
    let ab = a + b;
    if a.len() + k + p.len() > ab.len() {
    } else {
        assert(ab.subrange(a.len() + k, a.len() + k + p.len()) =~= b.subrange(k, k + p.len()));
        if !text::matches_at(b, p, k) {
            lemma_find_in_tail(a, b, p, k + 1);
            assert(a.len() + k + 1 == a.len() + (k + 1));
        }
    }
}

proof fn lemma_find_past(a: Seq<char>, b: Seq<char>, p: Seq<char>, i: int)
    requires
        p.len() >= 2,
        0 <= i <= a.len(),
        no_start_in(a, p),
    ensures
        text::find_from(a + b, p, i) == shifted(text::find_from(b, p, 0), a.len() as int),
    decreases a.len() - i,
{
    let ab = a + b;
    if i == a.len() {
        lemma_find_in_tail(a, b, p, 0);
    } else if i + p.len() > ab.len() {
    } else {
        if text::matches_at(ab, p, i) {
            assert(ab.subrange(i, i + p.len())[0] == p[0]);
            assert(ab.subrange(i, i + p.len())[1] == p[1]);
        }
        lemma_find_past(a, b, p, i + 1);
    }
}

/// Replacing in `a + b` leaves `a` alone when no occurrence can start in it.
proof fn lemma_replace_passes(a: Seq<char>, b: Seq<char>, p: Seq<char>, r: Seq<char>)
    requires
        p.len() >= 2,
        no_start_in(a, p),
    ensures
        text::replace_all(a + b, p, r) == a + text::replace_all(b, p, r),
{
    lemma_find_past(a, b, p, 0);
    text::lemma_find_from_bounds(b, p, 0);
    match text::find_from(b, p, 0) {
        Some(j) => {
            let ab = a + b;
            assert(ab.take(a.len() + j) =~= a + b.take(j));
            assert(ab.skip(a.len() + j + p.len()) =~= b.skip(j + p.len()));
            let x = text::replace_all(b.skip(j + p.len()), p, r);
            assert(a + b.take(j) + r + x =~= a + (b.take(j) + r + x));
        },
        None => {},
    }
}

/// Replacing in `p + b` replaces the leading `p`, then goes on in `b`.
proof fn lemma_replace_front(p: Seq<char>, b: Seq<char>, r: Seq<char>)
    requires
        p.len() >= 1,
    ensures
        text::replace_all(p + b, p, r) == r + text::replace_all(b, p, r),
{
    let pb = p + b;
    assert(pb.subrange(0, p.len() as int) =~= p);
    assert(text::matches_at(pb, p, 0));
    assert(text::find_from(pb, p, 0) == Some(0int));
    assert(pb.take(0) + r =~= r);
    assert(pb.skip(p.len() as int) =~= b);
}

proof fn lemma_unescape_piece(c: char, attribute: bool, tail: Seq<char>)
    ensures
        unescape_spec(crate::patch::xml_char(c, attribute) + tail) == seq![c] + unescape_spec(tail),
{
    reveal_strlit("&lt;");
    reveal_strlit("&gt;");
    reveal_strlit("&quot;");
    reveal_strlit("&amp;");
    reveal_strlit("<");
    reveal_strlit(">");
    reveal_strlit("\"");
    reveal_strlit("&");
    let lt = "&lt;"@;
    let gt = "&gt;"@;
    let qu = "&quot;"@;
    let am = "&amp;"@;
    let t1 = text::replace_all(tail, lt, "<"@);
    let t2 = text::replace_all(t1, gt, ">"@);
    let t3 = text::replace_all(t2, qu, "\""@);
    let x = crate::patch::xml_char(c, attribute);
    if c == '&' {
        assert(no_start_in(am, lt) && no_start_in(am, gt) && no_start_in(am, qu));
        lemma_replace_passes(am, tail, lt, "<"@);
        lemma_replace_passes(am, t1, gt, ">"@);
        lemma_replace_passes(am, t2, qu, "\""@);
        lemma_replace_front(am, t3, "&"@);
        assert("&"@ =~= seq![c]);
    } else if c == '<' {
        lemma_replace_front(lt, tail, "<"@);
        assert("<"@ =~= seq![c]);
        assert(no_start_in(seq![c], gt) && no_start_in(seq![c], qu) && no_start_in(seq![c], am));
        lemma_replace_passes(seq![c], t1, gt, ">"@);
        lemma_replace_passes(seq![c], t2, qu, "\""@);
        lemma_replace_passes(seq![c], t3, am, "&"@);
    } else if c == '>' {
        assert(no_start_in(gt, lt));
        lemma_replace_passes(gt, tail, lt, "<"@);
        lemma_replace_front(gt, t1, ">"@);
        assert(">"@ =~= seq![c]);
        assert(no_start_in(seq![c], qu) && no_start_in(seq![c], am));
        lemma_replace_passes(seq![c], t2, qu, "\""@);
        lemma_replace_passes(seq![c], t3, am, "&"@);
    } else if c == '"' && attribute {
        assert(no_start_in(qu, lt) && no_start_in(qu, gt));
        lemma_replace_passes(qu, tail, lt, "<"@);
        lemma_replace_passes(qu, t1, gt, ">"@);
        lemma_replace_front(qu, t2, "\""@);
        assert("\""@ =~= seq![c]);
        assert(no_start_in(seq![c], am));
        lemma_replace_passes(seq![c], t3, am, "&"@);
    } else {
        assert(x == seq![c]);
        assert(no_start_in(x, lt) && no_start_in(x, gt) && no_start_in(x, qu) && no_start_in(x, am));
        lemma_replace_passes(x, tail, lt, "<"@);
        lemma_replace_passes(x, t1, gt, ">"@);
        lemma_replace_passes(x, t2, qu, "\""@);
        lemma_replace_passes(x, t3, am, "&"@);
    }
}

/// What is written as XML text (or, with `attribute`, as an attribute value)
/// reads back unchanged: expanding the entities of the escaped text gives
/// the text itself, every `&lt;`, `&gt;`, `&quot;` and `&amp;` included.
pub proof fn law_xml_text_reads_back(s: Seq<char>, attribute: bool)
    ensures
        unescape_spec(crate::patch::escape_xml_spec(s, attribute)) == s,
    decreases s.len(),
{
    if s.len() == 0 {
        assert(crate::patch::escape_xml_spec(s, attribute) == Seq::<char>::empty());
        assert(text::replace_all(Seq::<char>::empty(), "&lt;"@, "<"@) =~= Seq::<char>::empty()) by {
            assert(text::find_from(Seq::<char>::empty(), "&lt;"@, 0) is None) by {
                reveal_strlit("&lt;");
            }
        }
        assert(text::replace_all(Seq::<char>::empty(), "&gt;"@, ">"@) =~= Seq::<char>::empty()) by {
            reveal_strlit("&gt;");
        }
        assert(text::replace_all(Seq::<char>::empty(), "&quot;"@, "\""@) =~= Seq::<char>::empty()) by {
            reveal_strlit("&quot;");
        }
        assert(text::replace_all(Seq::<char>::empty(), "&amp;"@, "&"@) =~= Seq::<char>::empty()) by {
            reveal_strlit("&amp;");
        }
    } else {
        law_xml_text_reads_back(s.skip(1), attribute);
        crate::patch::lemma_flat_map_front(s, |c: char| crate::patch::xml_char(c, attribute));
        lemma_unescape_piece(s[0], attribute, crate::patch::escape_xml_spec(s.skip(1), attribute));
        assert(seq![s[0]] + s.skip(1) =~= s);
    }
}

pub fn unescape_entities(v: &Vec<char>) -> (out: Vec<char>)
    ensures
        out@ == unescape_spec(v@),
{
    let a = text::replace_exec(v, "&lt;", "<");
    let b = text::replace_exec(&a, "&gt;", ">");
    let c = text::replace_exec(&b, "&quot;", "\"");
    text::replace_exec(&c, "&amp;", "&")
}

pub open spec fn attr_path(stack: Seq<Seq<char>>, name: Seq<char>, key: Seq<char>) -> Seq<char> {
    let tail = name + seq!['@'] + key;
    if stack.len() == 0 {
        tail
    } else {
        text::join_dot(stack) + seq!['.'] + tail
    }
}

pub open spec fn attr_values(
    stack: Seq<Seq<char>>,
    name: Seq<char>,
    attrs: Seq<(String, String)>,
    ls: Seq<Seq<char>>,
    n: nat,
) -> Seq<FlatView>
    decreases n,
{
    if n == 0 || n > attrs.len() {
        seq![]
    } else {
        attr_values(stack, name, attrs, ls, (n - 1) as nat) + push_spec(
            seq![],
            attrs[n - 1].0@,
            attr_path(stack, name, attrs[n - 1].0@),
            attrs[n - 1].1@,
            line_of_spec(ls, attrs[n - 1].1@),
        )
    }
}

/// Attributes become `element@attribute` values; text becomes the value of
/// the element it sits in. `stack` holds the open elements.
pub open spec fn xml_step(stack: Seq<Seq<char>>, item: XmlItem, ls: Seq<Seq<char>>) -> (
    Seq<Seq<char>>,
    Seq<FlatView>,
) {
    match item {
        XmlItem::Tag(name, attrs, empty) => (
            if empty {
                stack
            } else {
                stack.push(name@)
            },
            attr_values(stack, name@, attrs@, ls, attrs@.len()),
        ),
        XmlItem::Text(t) => {
            let value = match t {
                Some(s) => unescape_spec(s@),
                None => seq![],
            };
            if stack.len() > 0 {
                (
                    stack,
                    push_spec(
                        seq![],
                        stack.last(),
                        text::join_dot(stack),
                        value,
                        line_of_spec(ls, value),
                    ),
                )
            } else {
                (stack, seq![])
            }
        },
        XmlItem::End => (
            if stack.len() > 0 {
                stack.drop_last()
            } else {
                stack
            },
            seq![],
        ),
        _ => (stack, seq![]),
    }
}

pub open spec fn xml_fold(items: Seq<XmlItem>, ls: Seq<Seq<char>>) -> (Seq<Seq<char>>, Seq<FlatView>)
    decreases items.len(),
{
    if items.len() == 0 {
        (seq![], seq![])
    } else {
        let prev = xml_fold(items.drop_last(), ls);
        let step = xml_step(prev.0, items.last(), ls);
        (step.0, prev.1 + step.1)
    }
}

/// The values of the events, or the plain-text reading of the document when
/// the events yield none.
pub open spec fn xml_result(items: Seq<XmlItem>, text: Seq<char>) -> Seq<FlatView> {
    let v = xml_fold(items, lines(text)).1;
    if v.len() == 0 {
        text_values(lines(text))
    } else {
        v
    }
}

fn attr_values_into(
    out: &mut Vec<FlatValue>,
    stack: &Vec<Vec<char>>,
    name: &Vec<char>,
    attrs: &Vec<(String, String)>,
    ls: &Vec<Vec<char>>,
)
    requires
        ls@.len() < u32::MAX,
    ensures
        flat_views(final(out)@) == flat_views(old(out)@) + attr_values(
            line_views(stack@),
            name@,
            attrs@,
            line_views(ls@),
            attrs@.len(),
        ),
{
    let ghost base = flat_views(out@);
    let ghost sv = line_views(stack@);
    let ghost lv = line_views(ls@);
    let prefix = if stack.len() == 0 {
        Vec::new()
    } else {
        let mut p = text::join_dot_exec(stack);
        p.push('.');
        p
    };
    let mut i: usize = 0;
    while i < attrs.len()
        invariant
            i <= attrs.len(),
            ls@.len() < u32::MAX,
            sv == line_views(stack@),
            lv == line_views(ls@),
            prefix@ == (if sv.len() == 0 {
                Seq::<char>::empty()
            } else {
                text::join_dot(sv) + seq!['.']
            }),
            flat_views(out@) == base + attr_values(sv, name@, attrs@, lv, i as nat),
        decreases attrs.len() - i,
    {
        let key = text::chars_of_string(&attrs[i].0);
        let value = text::chars_of_string(&attrs[i].1);
        let mut path = prefix.clone();
        text::push_all(&mut path, name);
        path.push('@');
        text::push_all(&mut path, &key);
        assert(path@ =~= attr_path(sv, name@, key@));
        let line = line_of(ls, &value);
        proof {
            lemma_push_spec_append(flat_views(out@), key@, path@, value@, line);
        }
        push(out, &key, &path, &value, line);
        i += 1;
        assert(flat_views(out@) =~= base + attr_values(sv, name@, attrs@, lv, i as nat));
    }
}

fn xml_item_into(
    out: &mut Vec<FlatValue>,
    stack: &mut Vec<Vec<char>>,
    item: &XmlItem,
    ls: &Vec<Vec<char>>,
)
    requires
        ls@.len() < u32::MAX,
    ensures
        line_views(final(stack)@) == xml_step(line_views(old(stack)@), *item, line_views(ls@)).0,
        flat_views(final(out)@) == flat_views(old(out)@) + xml_step(
            line_views(old(stack)@),
            *item,
            line_views(ls@),
        ).1,
{
    match item {
        XmlItem::Tag(name, attrs, empty) => {
            let n = text::chars_of_string(name);
            attr_values_into(out, stack, &n, attrs, ls);
            if !*empty {
                let ghost before = line_views(stack@);
                stack.push(n);
                assert(line_views(stack@) =~= before.push(name@));
            }
        },
        XmlItem::Text(t) => {
            let raw = match t {
                Some(s) => text::chars_of_string(s),
                None => Vec::new(),
            };
            let value = unescape_entities(&raw);
            assert(raw@.len() == 0 ==> unescape_spec(raw@) =~= Seq::<char>::empty()) by {
                if raw@.len() == 0 {
                    reveal_strlit("&lt;");
                    reveal_strlit("&gt;");
                    reveal_strlit("&quot;");
                    reveal_strlit("&amp;");
                    assert(text::replace_all(raw@, "&lt;"@, "<"@) =~= raw@);
                    assert(text::replace_all(raw@, "&gt;"@, ">"@) =~= raw@);
                    assert(text::replace_all(raw@, "&quot;"@, "\""@) =~= raw@);
                    assert(text::replace_all(raw@, "&amp;"@, "&"@) =~= raw@);
                }
            }
            if stack.len() > 0 {
                let key = stack[stack.len() - 1].clone();
                let path = text::join_dot_exec(stack);
                let line = line_of(ls, &value);
                proof {
                    lemma_push_spec_append(flat_views(out@), key@, path@, value@, line);
                }
                push(out, &key, &path, &value, line);
            } else {
                assert(flat_views(out@) =~= flat_views(out@) + Seq::<FlatView>::empty());
            }
        },
        XmlItem::End => {
            if stack.len() > 0 {
                let ghost before = line_views(stack@);
                stack.pop();
                assert(line_views(stack@) =~= before.drop_last());
            }
            assert(flat_views(out@) =~= flat_views(out@) + Seq::<FlatView>::empty());
        },
        _ => {
            assert(flat_views(out@) =~= flat_views(out@) + Seq::<FlatView>::empty());
        },
    }
}

/// The values read from a stream of XML events (see [`xml_result`]).
pub fn xml_values(items: &Vec<XmlItem>, text: &Vec<char>) -> (out: Vec<FlatValue>)
    requires
        fits(text@),
    ensures
        flat_views(out@) == xml_result(items@, text@),
{
    let ls = text::split_lines(text);
    proof {
        text::lemma_lines_len(text@);
    }
    let ghost lv = line_views(ls@);
    let mut out: Vec<FlatValue> = Vec::new();
    let mut stack: Vec<Vec<char>> = Vec::new();
    let mut i: usize = 0;
    assert(items@.take(0) =~= Seq::<XmlItem>::empty());
    assert(line_views(stack@) =~= Seq::<Seq<char>>::empty());
    while i < items.len()
        invariant
            i <= items.len(),
            lv == line_views(ls@),
            lv == lines(text@),
            lv.len() <= 0x3fff_ffff,
            xml_fold(items@.take(i as int), lv) == (line_views(stack@), flat_views(out@)),
        decreases items.len() - i,
    {
        assert(items@.take(i + 1).drop_last() =~= items@.take(i as int));
        assert(items@.take(i + 1).last() == items@[i as int]);
        xml_item_into(&mut out, &mut stack, &items[i], &ls);
        i += 1;
    }
    assert(items@.take(items.len() as int) =~= items@);
    if out.len() == 0 {
        extract_text(text)
    } else {
        out
    }
}

} // verus!

verus! {

// ---------------------------------------------------------------------------
// Calls into quick-xml and serde_json
// ---------------------------------------------------------------------------

#[verifier::external_type_specification]
#[verifier::external_body]
#[verifier::reject_recursive_types(R)]
pub struct ExXmlReader<R>(quick_xml::Reader<R>);

#[verifier::external_type_specification]
#[verifier::external_body]
pub struct ExJsonValue(serde_json::Value);

/// One event as quick-xml reports it, converted: an opening tag (a
/// self-closing one when the flag is set; see [`xml_tag`]), text content
/// as written, a closing tag's local name, the end of input, a syntax error
/// with its message, `Other` for every other event. Names are decoded with
/// `String::from_utf8_lossy`.
pub enum XmlEvent {
    Open(bool),
    Text(Vec<u8>),
    End(String),
    Eof,
    Failed(String),
    Other,
}

/// The event the `n`-th call of `read_event` yields (counting from 0) on a
/// quick-xml reader made from `text` and set to trim the whitespace around
/// text, converted as [`XmlEvent`] says. The reader reads nothing but the
/// text, so this depends on the text and the count alone.
pub uninterp spec fn xml_event(text: Seq<char>, n: nat) -> XmlEvent;

/// The local name (`BytesStart::local_name`) and the attributes
/// (`BytesStart::attributes`) of the tag that is the `n`-th event of the
/// text, the attributes in document order: each its local name and
/// unescaped value (a value that fails to unescape is empty), or quick-xml's
/// message for a malformed one. Names are decoded with
/// `String::from_utf8_lossy`.
pub uninterp spec fn xml_tag_at(text: Seq<char>, n: nat) -> (String, Vec<Result<(String, String), String>>);

/// A quick-xml reader over a text, the last tag it read, and (as ghost
/// values that the contracts speak of) the text and how many events were
/// read.
pub struct XmlCursor<'a> {
    reader: quick_xml::Reader<&'a [u8]>,
    last: Option<quick_xml::events::BytesStart<'static>>,
    text: Ghost<Seq<char>>,
    count: Ghost<nat>,
}

impl<'a> XmlCursor<'a> {
    /// The text the reader reads.
    pub closed spec fn source(&self) -> Seq<char> {
        self.text@
    }

    /// How many events were read.
    pub closed spec fn events_read(&self) -> nat {
        self.count@
    }
}

#[verifier::external_type_specification]
#[verifier::external_body]
pub struct ExBytesStart<'a>(quick_xml::events::BytesStart<'a>);

/// `quick_xml::Reader::from_str`, configured to trim the whitespace around
/// text; no event has been read yet.
#[verifier::external_body]
pub(crate) fn xml_reader<'a>(text: &'a str) -> (c: XmlCursor<'a>)
    ensures
        c.source() == text@,
        c.events_read() == 0,
{
    let mut reader = quick_xml::Reader::from_str(text);
    reader.config_mut().trim_text(true);
    XmlCursor { reader, last: None, text: Ghost(text@), count: Ghost(0) }
}

/// `quick_xml::Reader::read_event`, converted (see [`XmlEvent`]): the next
/// event of the text. A tag is kept for [`xml_tag`].
#[verifier::external_body]
pub(crate) fn xml_next<'a>(c: &mut XmlCursor<'a>) -> (r: XmlEvent)
    ensures
        r == xml_event(old(c).source(), old(c).events_read()),
        final(c).source() == old(c).source(),
        final(c).events_read() == old(c).events_read() + 1,
{
    c.count = Ghost(c.count@ + 1);
    c.last = None;
    let (e, empty) = match c.reader.read_event() {
        Ok(Event::Start(e)) => (e, false),
        Ok(Event::Empty(e)) => (e, true),
        Ok(Event::Text(t)) => return XmlEvent::Text(t.into_inner().into_owned()),
        Ok(Event::End(e)) => return XmlEvent::End(String::from_utf8_lossy(e.local_name().as_ref()).into_owned()),
        Ok(Event::Eof) => return XmlEvent::Eof,
        Err(e) => return XmlEvent::Failed(e.to_string()),
        Ok(_) => return XmlEvent::Other,
    };
    c.last = Some(e.into_owned());
    XmlEvent::Open(empty)
}

/// `BytesStart::local_name` and `BytesStart::attributes` of the tag the
/// last event was, converted (see [`xml_tag_at`]).
#[verifier::external_body]
pub(crate) fn xml_tag<'a>(c: &XmlCursor<'a>) -> (r: (String, Vec<Result<(String, String), String>>))
    requires
        c.events_read() > 0,
        xml_event(c.source(), (c.events_read() - 1) as nat) is Open,
    ensures
        r == xml_tag_at(c.source(), (c.events_read() - 1) as nat),
{
    let s = |b: &[u8]| String::from_utf8_lossy(b).into_owned();
    let e = c.last.as_ref().unwrap();
    let attrs = e.attributes().map(|a| a.map(|a| (s(a.key.local_name().as_ref()), a.unescape_value().unwrap_or_default().into_owned())).map_err(|e| e.to_string()));
    (s(e.local_name().as_ref()), attrs.collect())
}

pub open spec fn ends_stream(e: XmlEvent) -> bool {
    e is Eof || e is Failed
}

/// Index of the first event from `i` on that ends the stream (the end of
/// input or a syntax error), or `fuel` when none does before it.
pub open spec fn xml_stop_from(text: Seq<char>, i: nat, fuel: nat) -> nat
    decreases fuel - i,
{
    if i >= fuel {
        fuel
    } else if ends_stream(xml_event(text, i)) {
        i
    } else {
        xml_stop_from(text, i + 1, fuel)
    }
}

/// The events of a text read with at most `fuel` calls, up to (without) the
/// end of input or the first syntax error, each with its tag.
pub open spec fn xml_events(text: Seq<char>, fuel: nat) -> Seq<(XmlEvent, (String, Vec<Result<(String, String), String>>))> {
    xml_prefix(text, xml_stop_from(text, 0, fuel))
}

/// The first `n` events of a text, each with its tag.
pub open spec fn xml_prefix(text: Seq<char>, n: nat) -> Seq<(XmlEvent, (String, Vec<Result<(String, String), String>>))> {
    Seq::new(n, |i: int| (xml_event(text, i as nat), xml_tag_at(text, i as nat)))
}

/// The syntax error that ended the reading, if one did.
pub open spec fn xml_failure(text: Seq<char>, fuel: nat) -> Option<String> {
    let k = xml_stop_from(text, 0, fuel);
    if k < fuel {
        match xml_event(text, k) {
            XmlEvent::Failed(m) => Some(m),
            _ => None,
        }
    } else {
        None
    }
}

/// Every event but the end of input consumes at least one byte of the text,
/// so a document never has more events than bytes: a reading stops after
/// this many calls at the latest.
pub open spec fn xml_fuel(text: Seq<char>) -> nat {
    (vstd::utf8::encode_utf8(text).len() as usize) as nat + 1
}

pub proof fn lemma_stop_bounds(text: Seq<char>, i: nat, fuel: nat)
    requires
        i <= fuel,
    ensures
        i <= xml_stop_from(text, i, fuel) <= fuel,
        forall|j: nat| i <= j < xml_stop_from(text, i, fuel) ==> !ends_stream(#[trigger] xml_event(text, j)),
        xml_stop_from(text, i, fuel) < fuel ==> ends_stream(xml_event(text, xml_stop_from(text, i, fuel))),
    decreases fuel - i,
{
    if i < fuel && !ends_stream(xml_event(text, i)) {
        lemma_stop_bounds(text, i + 1, fuel);
    }
}

/// The well-formed attributes among `items`, in order.
pub open spec fn ok_attrs_spec(items: Seq<Result<(String, String), String>>) -> Seq<(String, String)>
    decreases items.len(),
{
    if items.len() == 0 {
        seq![]
    } else {
        ok_attrs_spec(items.drop_last()) + match items.last() {
            Ok(a) => seq![a],
            Err(_) => seq![],
        }
    }
}

pub fn ok_attrs(items: &Vec<Result<(String, String), String>>) -> (r: Vec<(String, String)>)
    ensures
        r@ == ok_attrs_spec(items@),
{
    let mut r: Vec<(String, String)> = Vec::new();
    let mut i: usize = 0;
    while i < items.len()
        invariant
            i <= items.len(),
            r@ == ok_attrs_spec(items@.take(i as int)),
        decreases items.len() - i,
    {
        assert(items@.take(i + 1).drop_last() =~= items@.take(i as int));
        match &items[i] {
            Ok(a) => {
                r.push((a.0.clone(), a.1.clone()));
            },
            Err(_) => {},
        }
        i += 1;
        assert(r@ =~= ok_attrs_spec(items@.take(i as int)));
    }
    assert(items@.take(items.len() as int) =~= items@);
    r
}

/// The document `serde_json` parses the text into (`from_str::<Value>`), as
/// a [`Json`] node for node; `None` when it rejects the text. Numbers are
/// rendered with `Number::to_string` and object members come in the map's
/// (sorted) order, so the result depends on the text alone.
pub uninterp spec fn json_doc(text: Seq<char>) -> Option<Json>;

/// `serde_json::from_str::<serde_json::Value>`, converted with [`json_tree`].
#[verifier::external_body]
fn json_document(text: &str) -> (r: Option<Json>)
    ensures
        r == json_doc(text@),
{
    serde_json::from_str::<serde_json::Value>(text).ok().map(|v| json_tree(&v))
}

/// The conversion half of [`json_document`]: a `serde_json::Value` as a
/// [`Json`], node for node. It only changes the type; the value is opaque
/// here, so nothing is claimed on its own.
#[verifier::external_body]
fn json_tree(value: &serde_json::Value) -> Json {
    match value {
        Value::Null => Json::Null,
        Value::Bool(b) => Json::Bool(*b),
        Value::Number(n) => Json::Number(n.to_string()),
        Value::String(s) => Json::Str(s.clone()),
        Value::Array(items) => Json::Array(items.iter().map(json_tree).collect()),
        Value::Object(map) => Json::Object(map.iter().map(|(k, v)| (k.clone(), json_tree(v))).collect()),
    }
}

/// The text with its `//` and `/* */` comments (outside strings) replaced by
/// blanks, character for character, line breaks kept; `state` is 0 in code,
/// 1 in a string, 2 after a backslash in a string, 3 in a line comment, 4 in
/// a block comment.
pub open spec fn blank_from(t: Seq<char>, i: int, state: u8) -> Seq<char>
    decreases t.len() - i,
{
    if i < 0 || i >= t.len() {
        seq![]
    } else {
        let c = t[i];
        let two = i + 1 < t.len();
        if state == 0 {
            if c == '"' {
                seq![c] + blank_from(t, i + 1, 1)
            } else if c == '/' && two && t[i + 1] == '/' {
                seq![' ', ' '] + blank_from(t, i + 2, 3)
            } else if c == '/' && two && t[i + 1] == '*' {
                seq![' ', ' '] + blank_from(t, i + 2, 4)
            } else {
                seq![c] + blank_from(t, i + 1, 0)
            }
        } else if state == 1 {
            if c == '\\' {
                seq![c] + blank_from(t, i + 1, 2)
            } else if c == '"' {
                seq![c] + blank_from(t, i + 1, 0)
            } else {
                seq![c] + blank_from(t, i + 1, 1)
            }
        } else if state == 2 {
            seq![c] + blank_from(t, i + 1, 1)
        } else if state == 3 {
            if c == '\n' {
                seq![c] + blank_from(t, i + 1, 0)
            } else {
                seq![' '] + blank_from(t, i + 1, 3)
            }
        } else {
            if c == '*' && two && t[i + 1] == '/' {
                seq![' ', ' '] + blank_from(t, i + 2, 0)
            } else if c == '\n' {
                seq![c] + blank_from(t, i + 1, 4)
            } else {
                seq![' '] + blank_from(t, i + 1, 4)
            }
        }
    }
}

pub open spec fn blank_comments(t: Seq<char>) -> Seq<char> {
    blank_from(t, 0, 0)
}

pub fn blank_json_comments(t: &Vec<char>) -> (out: Vec<char>)
    ensures
        out@ == blank_comments(t@),
{
    let mut out: Vec<char> = Vec::new();
    let mut i: usize = 0;
    let mut state: u8 = 0;
    while i < t.len()
        invariant
            i <= t.len(),
            state <= 4,
            out@ + blank_from(t@, i as int, state) == blank_comments(t@),
        decreases t.len() - i,
    {
        let ghost before = out@;
        let ghost i0 = i as int;
        let ghost s0 = state;
        let c = t[i];
        let two = i + 1 < t.len();
        let ghost step: Seq<char>;
        if state == 0 {
            if c == '"' {
                out.push(c);
                state = 1;
                i += 1;
                proof { step = seq![c]; assert(blank_from(t@, i0, s0) =~= step + blank_from(t@, i as int, state)); }
            } else if c == '/' && two && t[i + 1] == '/' {
                out.push(' ');
                out.push(' ');
                state = 3;
                i += 2;
                proof { step = seq![' ', ' ']; assert(blank_from(t@, i0, s0) =~= step + blank_from(t@, i as int, state)); }
            } else if c == '/' && two && t[i + 1] == '*' {
                out.push(' ');
                out.push(' ');
                state = 4;
                i += 2;
                proof { step = seq![' ', ' ']; assert(blank_from(t@, i0, s0) =~= step + blank_from(t@, i as int, state)); }
            } else {
                out.push(c);
                i += 1;
                proof { step = seq![c]; assert(blank_from(t@, i0, s0) =~= step + blank_from(t@, i as int, state)); }
            }
        } else if state == 1 {
            out.push(c);
            if c == '\\' {
                state = 2;
            } else if c == '"' {
                state = 0;
            }
            i += 1;
            proof { step = seq![c]; assert(blank_from(t@, i0, s0) =~= step + blank_from(t@, i as int, state)); }
        } else if state == 2 {
            out.push(c);
            state = 1;
            i += 1;
            proof { step = seq![c]; assert(blank_from(t@, i0, s0) =~= step + blank_from(t@, i as int, state)); }
        } else if state == 3 {
            if c == '\n' {
                out.push(c);
                state = 0;
                i += 1;
                proof { step = seq![c]; assert(blank_from(t@, i0, s0) =~= step + blank_from(t@, i as int, state)); }
            } else {
                out.push(' ');
                i += 1;
                proof { step = seq![' ']; assert(blank_from(t@, i0, s0) =~= step + blank_from(t@, i as int, state)); }
            }
        } else {
            if c == '*' && two && t[i + 1] == '/' {
                out.push(' ');
                out.push(' ');
                state = 0;
                i += 2;
                proof { step = seq![' ', ' ']; assert(blank_from(t@, i0, s0) =~= step + blank_from(t@, i as int, state)); }
            } else {
                if c == '\n' {
                    out.push(c);
                    i += 1;
                    proof { step = seq![c]; assert(blank_from(t@, i0, s0) =~= step + blank_from(t@, i as int, state)); }
                } else {
                    out.push(' ');
                    i += 1;
                    proof { step = seq![' ']; assert(blank_from(t@, i0, s0) =~= step + blank_from(t@, i as int, state)); }
                }
            }
        }
        proof {
            assert(blank_from(t@, i0, s0) == step + blank_from(t@, i as int, state));
            assert(out@ =~= before + step);
            assert(out@ + blank_from(t@, i as int, state) =~= before + (step + blank_from(t@, i as int, state)));
        }
    }
    assert(blank_from(t@, i as int, state) =~= Seq::<char>::empty());
    assert(out@ + Seq::<char>::empty() =~= out@);
    out
}

// ---------------------------------------------------------------------------
// Extraction
// ---------------------------------------------------------------------------

/// The values of a parsed JSON document (see [`json_flat`]).
pub fn json_values(tree: &Json, text: &Vec<char>) -> (out: Vec<FlatValue>)
    requires
        fits(text@),
    ensures
        flat_views(out@) == json_flat(*tree, seq![], lines(text@)),
{
    let ls = text::split_lines(text);
    proof {
        text::lemma_lines_len(text@);
    }
    let mut out: Vec<FlatValue> = Vec::new();
    let root: Vec<char> = Vec::new();
    walk_json(tree, &root, &ls, &mut out);
    assert(flat_views(out@) =~= Seq::<FlatView>::empty() + json_flat(*tree, seq![], lines(text@)));
    out
}

/// The values of a JSON text: its document once `//` and `/* */` comments
/// are blanked out; a text `serde_json` still rejects is read as plain text
/// so a slightly broken file still yields something.
pub open spec fn json_result(text: Seq<char>) -> Seq<FlatView> {
    match json_doc(blank_comments(text)) {
        Some(j) => json_flat(j, seq![], lines(text)),
        None => text_values(lines(text)),
    }
}

/// JSON (comments allowed), see [`json_result`].
pub fn extract_json(text: &str) -> (out: Vec<FlatValue>)
    requires
        fits(text@),
    ensures
        flat_views(out@) == json_result(text@),
{
    let chars = text::chars_of(text);
    let blanked = text::string_of(&blank_json_comments(&chars));
    match json_document(blanked.as_str()) {
        None => extract_text(&chars),
        Some(tree) => json_values(&tree, &chars),
    }
}

/// The item an event of the XML reader becomes: a tag with its
/// well-formed attributes, text decoded when it is UTF-8, an end tag, or
/// something else.
pub open spec fn item_rel(item: XmlItem, p: (XmlEvent, (String, Vec<Result<(String, String), String>>))) -> bool {
    match p.0 {
        XmlEvent::Open(empty) => item matches XmlItem::Tag(m, a, f) && m == p.1.0 && a@ == ok_attrs_spec(p.1.1@)
            && f == empty,
        XmlEvent::Text(t) => item matches XmlItem::Text(o) && (o is Some <==> vstd::utf8::valid_utf8(t@)) && (
        o matches Some(s) ==> s@ == vstd::utf8::decode_utf8(t@)),
        XmlEvent::End(_) => item is End,
        _ => item is Other,
    }
}

pub open spec fn items_rel(items: Seq<XmlItem>, evs: Seq<(XmlEvent, (String, Vec<Result<(String, String), String>>))>) -> bool {
    items.len() == evs.len() && forall|i: int| 0 <= i < evs.len() ==> item_rel(#[trigger] items[i], evs[i])
}

proof fn lemma_xml_fold_same(
    a: Seq<XmlItem>,
    b: Seq<XmlItem>,
    evs: Seq<(XmlEvent, (String, Vec<Result<(String, String), String>>))>,
    ls: Seq<Seq<char>>,
)
    requires
        items_rel(a, evs),
        items_rel(b, evs),
    ensures
        xml_fold(a, ls) == xml_fold(b, ls),
    decreases a.len(),
{
    if a.len() > 0 {
        let n = a.len() - 1;
        let e = evs.drop_last();
        assert forall|i: int| 0 <= i < e.len() implies item_rel(#[trigger] a.drop_last()[i], e[i]) by {
            assert(item_rel(a[i], evs[i]));
        }
        assert forall|i: int| 0 <= i < e.len() implies item_rel(#[trigger] b.drop_last()[i], e[i]) by {
            assert(item_rel(b[i], evs[i]));
        }
        lemma_xml_fold_same(a.drop_last(), b.drop_last(), e, ls);
        assert(item_rel(a[n], evs[n]) && item_rel(b[n], evs[n]));
        let st = xml_fold(a.drop_last(), ls).0;
        assert(xml_step(st, a.last(), ls) == xml_step(st, b.last(), ls));
    }
}

/// The values read from a document are fixed by its events: any two item
/// sequences that stand for the reader's events give the same values.
pub proof fn law_xml_values_are_determined(text: Seq<char>, a: Seq<XmlItem>, b: Seq<XmlItem>)
    requires
        items_rel(a, xml_events(text, xml_fuel(text))),
        items_rel(b, xml_events(text, xml_fuel(text))),
    ensures
        xml_result(a, text) == xml_result(b, text),
{
    lemma_xml_fold_same(a, b, xml_events(text, xml_fuel(text)), lines(text));
}

/// The values of an XML document: those of the items that stand for the
/// reader's events on its text (any such items give the same values, see
/// [`law_xml_values_are_determined`]).
pub open spec fn xml_document_values(text: Seq<char>) -> Seq<FlatView> {
    xml_result(choose|items: Seq<XmlItem>| items_rel(items, xml_events(text, xml_fuel(text))), text)
}

/// XML through quick-xml's event reader (see [`xml_document_values`]).
pub fn extract_xml(text: &str) -> (out: Vec<FlatValue>)
    requires
        fits(text@),
    ensures
        flat_views(out@) == xml_document_values(text@),
        exists|items: Seq<XmlItem>|
            items_rel(items, xml_events(text@, xml_fuel(text@))) && flat_views(out@) == xml_result(items, text@),
{
    let mut reader = xml_reader(text);
    let mut items: Vec<XmlItem> = Vec::new();
    let fuel = text.len() as u128 + 1;
    let ghost gf: nat = xml_fuel(text@);
    assert(fuel == gf);
    proof {
        lemma_stop_bounds(text@, 0, gf);
    }
    let mut n: u128 = 0;
    while n < fuel
        invariant_except_break
            reader.events_read() == n,
        invariant
            fuel == gf,
            n <= fuel,
            reader.source() == text@,
            xml_stop_from(text@, 0, gf) == xml_stop_from(text@, n as nat, gf),
            items@.len() == n,
            forall|i: int| 0 <= i < n ==> item_rel(#[trigger] items@[i], xml_prefix(text@, n as nat)[i]),
        ensures
            n == fuel || (n < fuel && ends_stream(xml_event(text@, n as nat))),
        decreases fuel - n,
    {
        let e = xml_next(&mut reader);
        let item = match e {
            XmlEvent::Eof | XmlEvent::Failed(_) => {
                break;
            },
            XmlEvent::Open(empty) => {
                let (name, attrs) = xml_tag(&reader);
                XmlItem::Tag(name, ok_attrs(&attrs), empty)
            },
            XmlEvent::Text(t) => XmlItem::Text(text::utf8_decode(t.as_slice())),
            XmlEvent::End(_) => XmlItem::End,
            XmlEvent::Other => XmlItem::Other,
        };
        items.push(item);
        n += 1;
    }
    proof {
        let k = xml_stop_from(text@, 0, gf);
        assert(k == n);
        assert(items_rel(items@, xml_events(text@, gf)));
    }
    let chars = text::chars_of(text);
    let out = xml_values(&items, &chars);
    proof {
        let c = choose|c: Seq<XmlItem>| items_rel(c, xml_events(text@, xml_fuel(text@)));
        law_xml_values_are_determined(text@, items@, c);
    }
    out
}

/// The values [`extract`] reads from a document in a format.
pub open spec fn extracted(text: Seq<char>, format: Seq<char>) -> Seq<FlatView> {
    if format == "json"@ {
        json_result(text)
    } else if format == "env"@ {
        env_values(lines(text))
    } else if format == "toml"@ {
        toml_values(lines(text))
    } else if format == "ini"@ || format == "properties"@ || format == "hcl"@ {
        dialect_values(lines(text))
    } else if format == "yaml"@ {
        yaml_values(lines(text))
    } else if format == "xml"@ {
        xml_document_values(text)
    } else if format == "text"@ {
        text_values(lines(text))
    } else {
        seq![]
    }
}

/// The values of a document in the given format (`json`, `env`, `toml`,
/// `ini`, `properties`, `hcl`, `yaml`, `xml`, `text`); an unsupported format
/// has none.
pub fn extract(text: &str, format: &str) -> (out: Vec<FlatValue>)
    requires
        fits(text@),
    ensures
        flat_views(out@) == extracted(text@, format@),
{
    let chars = text::chars_of(text);
    if text::str_eq(format, "json") {
        extract_json(text)
    } else if text::str_eq(format, "env") {
        extract_env(&chars)
    } else if text::str_eq(format, "toml") {
        extract_toml(&chars)
    } else if text::str_eq(format, "ini") || text::str_eq(format, "properties") || text::str_eq(format, "hcl") {
        extract_dialect(&chars)
    } else if text::str_eq(format, "yaml") {
        extract_yaml(&chars)
    } else if text::str_eq(format, "xml") {
        extract_xml(text)
    } else if text::str_eq(format, "text") {
        extract_text(&chars)
    } else {
        Vec::new()
    }
}

} // verus!

verus! {

// ---------------------------------------------------------------------------
// Matching
// ---------------------------------------------------------------------------

pub open spec fn key_eq_spec(candidate: Seq<char>, key: Seq<char>, ignore_case: bool) -> bool {
    if ignore_case {
        text::eq_ignore_case(candidate, key)
    } else {
        candidate == key
    }
}

/// Keys under three characters (`pw`) must match whole; longer ones may
/// occur anywhere in the candidate.
pub open spec fn key_contains_spec(candidate: Seq<char>, key: Seq<char>, ignore_case: bool) -> bool {
    if key.len() < 3 {
        key_eq_spec(candidate, key, ignore_case)
    } else if ignore_case {
        contains(lower_seq(candidate), lower_seq(key))
    } else {
        contains(candidate, key)
    }
}

/// Whether `key` selects a value stored under `candidate`.
pub open spec fn hit(candidate: Seq<char>, key: Seq<char>, exact: bool, ignore_case: bool) -> bool {
    if exact {
        key_eq_spec(candidate, key, ignore_case)
    } else {
        key_eq_spec(candidate, key, ignore_case) || key_contains_spec(candidate, key, ignore_case)
    }
}

/// Rank of a hit: exact matches (2) beat partial ones (1), then longer key
/// names beat shorter ones.
pub open spec fn rank(candidate: Seq<char>, key: Seq<char>, exact: bool, ignore_case: bool) -> (
    int,
    int,
) {
    (
        if exact || key_eq_spec(candidate, key, ignore_case) {
            2
        } else {
            1
        },
        key.len() as int,
    )
}

pub open spec fn rank_lt(a: (int, int), b: (int, int)) -> bool {
    a.0 < b.0 || (a.0 == b.0 && a.1 < b.1)
}

pub open spec fn any_hit(values: Seq<FlatView>, keys: Seq<Seq<char>>, exact: bool, ic: bool) -> bool {
    exists|i: int, j: int|
        0 <= i < values.len() && 0 <= j < keys.len() && #[trigger] hit(
            values[i].key,
            keys[j],
            exact,
            ic,
        )
}

/// `i` is the first value that reaches the best rank of all hits.
pub open spec fn is_pick(
    values: Seq<FlatView>,
    keys: Seq<Seq<char>>,
    exact: bool,
    ic: bool,
    i: int,
) -> bool {
    0 <= i < values.len() && (exists|j: int|
        0 <= j < keys.len() && #[trigger] hit(values[i].key, keys[j], exact, ic) && (forall|
            a: int,
            b: int,
        |
            0 <= a < values.len() && 0 <= b < keys.len() && #[trigger] hit(
                values[a].key,
                keys[b],
                exact,
                ic,
            ) ==> !rank_lt(
                rank(values[i].key, keys[j], exact, ic),
                rank(values[a].key, keys[b], exact, ic),
            )) && (forall|a: int, b: int|
            0 <= a < i && 0 <= b < keys.len() && #[trigger] hit(values[a].key, keys[b], exact, ic)
                ==> rank_lt(
                rank(values[a].key, keys[b], exact, ic),
                rank(values[i].key, keys[j], exact, ic),
            )))
}

proof fn lemma_pick_unique(values: Seq<FlatView>, keys: Seq<Seq<char>>, exact: bool, ic: bool, i: int, k: int)
    requires
        is_pick(values, keys, exact, ic, i),
        is_pick(values, keys, exact, ic, k),
    ensures
        i == k,
{
    let ji = choose|j: int|
        0 <= j < keys.len() && #[trigger] hit(values[i].key, keys[j], exact, ic) && (forall|
            a: int,
            b: int,
        |
            0 <= a < values.len() && 0 <= b < keys.len() && #[trigger] hit(
                values[a].key,
                keys[b],
                exact,
                ic,
            ) ==> !rank_lt(
                rank(values[i].key, keys[j], exact, ic),
                rank(values[a].key, keys[b], exact, ic),
            )) && (forall|a: int, b: int|
            0 <= a < i && 0 <= b < keys.len() && #[trigger] hit(values[a].key, keys[b], exact, ic)
                ==> rank_lt(
                rank(values[a].key, keys[b], exact, ic),
                rank(values[i].key, keys[j], exact, ic),
            ));
    let jk = choose|j: int|
        0 <= j < keys.len() && #[trigger] hit(values[k].key, keys[j], exact, ic) && (forall|
            a: int,
            b: int,
        |
            0 <= a < values.len() && 0 <= b < keys.len() && #[trigger] hit(
                values[a].key,
                keys[b],
                exact,
                ic,
            ) ==> !rank_lt(
                rank(values[k].key, keys[j], exact, ic),
                rank(values[a].key, keys[b], exact, ic),
            )) && (forall|a: int, b: int|
            0 <= a < k && 0 <= b < keys.len() && #[trigger] hit(values[a].key, keys[b], exact, ic)
                ==> rank_lt(
                rank(values[a].key, keys[b], exact, ic),
                rank(values[k].key, keys[j], exact, ic),
            ));
    if i < k {
        assert(hit(values[i].key, keys[ji], exact, ic));
        assert(hit(values[k].key, keys[jk], exact, ic));
    } else if k < i {
        assert(hit(values[i].key, keys[ji], exact, ic));
        assert(hit(values[k].key, keys[jk], exact, ic));
    }
}

/// The value a kind's key names select (see [`is_pick`]).
pub open spec fn pick_spec(values: Seq<FlatView>, keys: Seq<Seq<char>>, exact: bool, ic: bool) -> Option<
    int,
> {
    if exists|i: int| is_pick(values, keys, exact, ic, i) {
        Some(choose|i: int| is_pick(values, keys, exact, ic, i))
    } else {
        None
    }
}

fn key_eq(candidate: &Vec<char>, key: &Vec<char>, ignore_case: bool) -> (r: bool)
    ensures
        r == key_eq_spec(candidate@, key@, ignore_case),
{
    if ignore_case {
        text::eq_ignore_ascii_case(candidate, key)
    } else {
        text::seq_eq(candidate, key)
    }
}

fn key_contains(candidate: &Vec<char>, key: &Vec<char>, ignore_case: bool) -> (r: bool)
    ensures
        r == key_contains_spec(candidate@, key@, ignore_case),
{
    if key.len() < 3 {
        return key_eq(candidate, key, ignore_case);
    }
    if ignore_case {
        let c = text::to_lower(candidate);
        let k = text::to_lower(key);
        text::contains_vec(&c, &k)
    } else {
        text::contains_vec(candidate, key)
    }
}

} // verus!

verus! {

spec fn done(a: int, b: int, i: int, j: int) -> bool {
    a < i || (a == i && b < j)
}

/// The running best of the pick loop after the pairs before `(i, j)`.
spec fn best_inv(
    vs: Seq<FlatView>,
    ks: Seq<Seq<char>>,
    exact: bool,
    ic: bool,
    best: Option<(u8, usize, usize)>,
    bj: int,
    i: int,
    j: int,
) -> bool {
    match best {
        None => forall|a: int, b: int|
            0 <= a < vs.len() && 0 <= b < ks.len() && done(a, b, i, j) ==> !#[trigger] hit(
                vs[a].key,
                ks[b],
                exact,
                ic,
            ),
        Some((s, l, bi)) => {
            &&& 0 <= bi < vs.len()
            &&& 0 <= bj < ks.len()
            &&& done(bi as int, bj, i, j)
            &&& hit(vs[bi as int].key, ks[bj], exact, ic)
            &&& rank(vs[bi as int].key, ks[bj], exact, ic) == (s as int, l as int)
            &&& forall|a: int, b: int|
                0 <= a < vs.len() && 0 <= b < ks.len() && done(a, b, i, j) && #[trigger] hit(
                    vs[a].key,
                    ks[b],
                    exact,
                    ic,
                ) ==> !rank_lt((s as int, l as int), rank(vs[a].key, ks[b], exact, ic))
            &&& forall|a: int, b: int|
                0 <= a < bi && 0 <= b < ks.len() && #[trigger] hit(vs[a].key, ks[b], exact, ic)
                    ==> rank_lt(rank(vs[a].key, ks[b], exact, ic), (s as int, l as int))
        },
    }
}

/// Index of the value selected by a kind's key names: the first value reaching
/// the best rank (see [`is_pick`]); `None` when no key name matches.
fn pick(values: &Vec<FlatValue>, keys: &Vec<String>, exact: bool, ic: bool) -> (r: Option<usize>)
    ensures
        match r {
            Some(i) => is_pick(flat_views(values@), crate::model::strings_view(keys@), exact, ic, i as int),
            None => !any_hit(flat_views(values@), crate::model::strings_view(keys@), exact, ic),
        },
{
    let ghost vs = flat_views(values@);
    let ghost ks = crate::model::strings_view(keys@);
    let mut best: Option<(u8, usize, usize)> = None;
    let ghost mut bj: int = 0;
    let mut i: usize = 0;
    while i < values.len()
        invariant
            i <= values.len(),
            vs == flat_views(values@),
            ks == crate::model::strings_view(keys@),
            best_inv(vs, ks, exact, ic, best, bj, i as int, 0),
        decreases values.len() - i,
    {
        let cand = text::chars_of_string(&values[i].key);
        assert(cand@ == vs[i as int].key);
        let mut j: usize = 0;
        while j < keys.len()
            invariant
                i < values.len(),
                j <= keys.len(),
                vs == flat_views(values@),
                ks == crate::model::strings_view(keys@),
                cand@ == vs[i as int].key,
                best_inv(vs, ks, exact, ic, best, bj, i as int, j as int),
            decreases keys.len() - j,
        {
            let k = text::chars_of_string(&keys[j]);
            assert(k@ == ks[j as int]);
            let m = if exact {
                key_eq(&cand, &k, ic)
            } else {
                key_eq(&cand, &k, ic) || key_contains(&cand, &k, ic)
            };
            if m {
                let e = exact || key_eq(&cand, &k, ic);
                let score: u8 = if e {
                    2
                } else {
                    1
                };
                let len = k.len();
                let better = match best {
                    None => true,
                    Some((bs, bl, _)) => score > bs || (score == bs && len > bl),
                };
                if better {
                    best = Some((score, len, i));
                    proof {
                        bj = j as int;
                    }
                }
            }
            j += 1;
        }
        i += 1;
    }
    match best {
        None => None,
        Some((_, _, bi)) => {
            assert(is_pick(vs, ks, exact, ic, bi as int));
            Some(bi)
        },
    }
}

} // verus!

verus! {

// ---------------------------------------------------------------------------
// Analysis
// ---------------------------------------------------------------------------

pub open spec fn hit_of(kind: Seq<char>, v: FlatView) -> HitView {
    HitView { kind, key: v.key, path: v.path, value: v.value, line: v.line }
}

pub open spec fn kind_hit(values: Seq<FlatView>, keys: Seq<Seq<char>>, m: KeyMapping, kind: Seq<char>) -> Option<HitView> {
    match pick_spec(values, keys, m.exact, m.ignore_case) {
        Some(i) => Some(hit_of(kind, values[i])),
        None => None,
    }
}

pub open spec fn opt_seq<A>(o: Option<A>) -> Seq<A> {
    match o {
        Some(a) => seq![a],
        None => seq![],
    }
}

/// First value that is a literal URL.
pub open spec fn first_url(values: Seq<FlatView>, i: int) -> Option<int>
    decreases values.len() - i,
{
    if i < 0 || i >= values.len() {
        None
    } else if looks_like_url(values[i].value) {
        Some(i)
    } else {
        first_url(values, i + 1)
    }
}

proof fn lemma_first_url_bounds(values: Seq<FlatView>, i: int)
    requires
        0 <= i,
    ensures
        first_url(values, i) matches Some(k) ==> i <= k < values.len(),
    decreases values.len() - i,
{
    if i < values.len() {
        lemma_first_url_bounds(values, i + 1);
    }
}

pub open spec fn url_hit(values: Seq<FlatView>, m: KeyMapping) -> Option<HitView> {
    kind_hit(values, strings_view(m.url@), m, "url"@)
}

pub open spec fn user_hit(values: Seq<FlatView>, m: KeyMapping) -> Option<HitView> {
    kind_hit(values, strings_view(m.username@), m, "username"@)
}

pub open spec fn password_hit(values: Seq<FlatView>, m: KeyMapping) -> Option<HitView> {
    kind_hit(values, strings_view(m.password@), m, "password"@)
}

/// The URL, user name and password hits in that order; when no key name
/// finds the URL, the first value that is a literal URL is taken instead and
/// comes last.
pub open spec fn analysis_fields(values: Seq<FlatView>, m: KeyMapping) -> Seq<HitView> {
    let base = opt_seq(url_hit(values, m)) + opt_seq(user_hit(values, m)) + opt_seq(
        password_hit(values, m),
    );
    if url_hit(values, m) is None {
        match first_url(values, 0) {
            Some(i) => base.push(hit_of("url"@, values[i])),
            None => base,
        }
    } else {
        base
    }
}

/// The kinds nothing was found for, in the order url, username, password.
pub open spec fn analysis_missing(values: Seq<FlatView>, m: KeyMapping) -> Seq<Seq<char>> {
    (if url_hit(values, m) is None && first_url(values, 0) is None {
        seq!["url"@]
    } else {
        seq![]
    }) + (if user_hit(values, m) is None {
        seq!["username"@]
    } else {
        seq![]
    }) + (if password_hit(values, m) is None {
        seq!["password"@]
    } else {
        seq![]
    })
}

pub open spec fn field_kinds(fields: Seq<HitView>) -> Seq<Seq<char>> {
    fields.map_values(|h: HitView| h.kind)
}

/// Place of a kind in the order url, username, password.
pub open spec fn kind_rank(k: Seq<char>) -> int {
    if k == "url"@ {
        0
    } else if k == "username"@ {
        1
    } else {
        2
    }
}

/// Each of the three kinds is either found (once) or reported missing,
/// never both; the missing kinds keep the order url, username, password;
/// and every field is a value of the document under its kind.
pub proof fn law_each_kind_found_or_missing(values: Seq<FlatView>, m: KeyMapping)
    ensures
        ({
            let fk = field_kinds(analysis_fields(values, m));
            let ms = analysis_missing(values, m);
            &&& forall|k: Seq<char>| #[trigger] all_kinds().contains(k) ==> (fk.contains(k) <==> !ms.contains(k))
            &&& forall|k: Seq<char>| fk.contains(k) || ms.contains(k) ==> #[trigger] all_kinds().contains(k)
            &&& fk.no_duplicates()
            &&& ms.no_duplicates()
            &&& forall|i: int, j: int| 0 <= i < j < ms.len() ==> kind_rank(#[trigger] ms[i]) < kind_rank(#[trigger] ms[j])
        }),
        forall|i: int|
            0 <= i < analysis_fields(values, m).len() ==> exists|j: int|
                0 <= j < values.len() && #[trigger] analysis_fields(values, m)[i] == hit_of(
                    analysis_fields(values, m)[i].kind,
                    values[j],
                ),
{
    reveal_strlit("url");
    reveal_strlit("username");
    reveal_strlit("password");
    assert("url"@.len() == 3 && "username"@.len() == 8 && "password"@[0] == 'p' && "username"@[0] == 'u');
    lemma_first_url_bounds(values, 0);
    let f = analysis_fields(values, m);
    let fk = field_kinds(f);
    let ms = analysis_missing(values, m);
    let base = opt_seq(url_hit(values, m)) + opt_seq(user_hit(values, m)) + opt_seq(password_hit(values, m));
    assert(all_kinds() =~= seq!["url"@, "username"@, "password"@]);
    if url_hit(values, m) is Some && first_url(values, 0) is Some && user_hit(values, m) is Some && password_hit(values, m) is Some {
        assert(fk =~= seq!["url"@, "username"@, "password"@]);
        assert(ms =~= seq![]);
        assert(fk[0] == "url"@ && !ms.contains("url"@));
        assert(fk[1] == "username"@ && !ms.contains("username"@));
        assert(fk[2] == "password"@ && !ms.contains("password"@));
        assert(fk.no_duplicates() && ms.no_duplicates());
        assert forall|k: Seq<char>| fk.contains(k) || ms.contains(k) implies #[trigger] all_kinds().contains(k) by {
            if k == "url"@ { assert(all_kinds()[0] == k); } else if k == "username"@ { assert(all_kinds()[1] == k); } else { assert(all_kinds()[2] == k); }
        }
    }
    if url_hit(values, m) is Some && first_url(values, 0) is Some && user_hit(values, m) is Some && password_hit(values, m) is None {
        assert(fk =~= seq!["url"@, "username"@]);
        assert(ms =~= seq!["password"@]);
        assert(fk[0] == "url"@ && !ms.contains("url"@));
        assert(fk[1] == "username"@ && !ms.contains("username"@));
        assert(ms[0] == "password"@ && !fk.contains("password"@));
        assert(fk.no_duplicates() && ms.no_duplicates());
        assert forall|k: Seq<char>| fk.contains(k) || ms.contains(k) implies #[trigger] all_kinds().contains(k) by {
            if k == "url"@ { assert(all_kinds()[0] == k); } else if k == "username"@ { assert(all_kinds()[1] == k); } else { assert(all_kinds()[2] == k); }
        }
    }
    if url_hit(values, m) is Some && first_url(values, 0) is Some && user_hit(values, m) is None && password_hit(values, m) is Some {
        assert(fk =~= seq!["url"@, "password"@]);
        assert(ms =~= seq!["username"@]);
        assert(fk[0] == "url"@ && !ms.contains("url"@));
        assert(ms[0] == "username"@ && !fk.contains("username"@));
        assert(fk[1] == "password"@ && !ms.contains("password"@));
        assert(fk.no_duplicates() && ms.no_duplicates());
        assert forall|k: Seq<char>| fk.contains(k) || ms.contains(k) implies #[trigger] all_kinds().contains(k) by {
            if k == "url"@ { assert(all_kinds()[0] == k); } else if k == "username"@ { assert(all_kinds()[1] == k); } else { assert(all_kinds()[2] == k); }
        }
    }
    if url_hit(values, m) is Some && first_url(values, 0) is Some && user_hit(values, m) is None && password_hit(values, m) is None {
        assert(fk =~= seq!["url"@]);
        assert(ms =~= seq!["username"@, "password"@]);
        assert(fk[0] == "url"@ && !ms.contains("url"@));
        assert(ms[0] == "username"@ && !fk.contains("username"@));
        assert(ms[1] == "password"@ && !fk.contains("password"@));
        assert(fk.no_duplicates() && ms.no_duplicates());
        assert forall|k: Seq<char>| fk.contains(k) || ms.contains(k) implies #[trigger] all_kinds().contains(k) by {
            if k == "url"@ { assert(all_kinds()[0] == k); } else if k == "username"@ { assert(all_kinds()[1] == k); } else { assert(all_kinds()[2] == k); }
        }
    }
    if url_hit(values, m) is Some && first_url(values, 0) is None && user_hit(values, m) is Some && password_hit(values, m) is Some {
        assert(fk =~= seq!["url"@, "username"@, "password"@]);
        assert(ms =~= seq![]);
        assert(fk[0] == "url"@ && !ms.contains("url"@));
        assert(fk[1] == "username"@ && !ms.contains("username"@));
        assert(fk[2] == "password"@ && !ms.contains("password"@));
        assert(fk.no_duplicates() && ms.no_duplicates());
        assert forall|k: Seq<char>| fk.contains(k) || ms.contains(k) implies #[trigger] all_kinds().contains(k) by {
            if k == "url"@ { assert(all_kinds()[0] == k); } else if k == "username"@ { assert(all_kinds()[1] == k); } else { assert(all_kinds()[2] == k); }
        }
    }
    if url_hit(values, m) is Some && first_url(values, 0) is None && user_hit(values, m) is Some && password_hit(values, m) is None {
        assert(fk =~= seq!["url"@, "username"@]);
        assert(ms =~= seq!["password"@]);
        assert(fk[0] == "url"@ && !ms.contains("url"@));
        assert(fk[1] == "username"@ && !ms.contains("username"@));
        assert(ms[0] == "password"@ && !fk.contains("password"@));
        assert(fk.no_duplicates() && ms.no_duplicates());
        assert forall|k: Seq<char>| fk.contains(k) || ms.contains(k) implies #[trigger] all_kinds().contains(k) by {
            if k == "url"@ { assert(all_kinds()[0] == k); } else if k == "username"@ { assert(all_kinds()[1] == k); } else { assert(all_kinds()[2] == k); }
        }
    }
    if url_hit(values, m) is Some && first_url(values, 0) is None && user_hit(values, m) is None && password_hit(values, m) is Some {
        assert(fk =~= seq!["url"@, "password"@]);
        assert(ms =~= seq!["username"@]);
        assert(fk[0] == "url"@ && !ms.contains("url"@));
        assert(ms[0] == "username"@ && !fk.contains("username"@));
        assert(fk[1] == "password"@ && !ms.contains("password"@));
        assert(fk.no_duplicates() && ms.no_duplicates());
        assert forall|k: Seq<char>| fk.contains(k) || ms.contains(k) implies #[trigger] all_kinds().contains(k) by {
            if k == "url"@ { assert(all_kinds()[0] == k); } else if k == "username"@ { assert(all_kinds()[1] == k); } else { assert(all_kinds()[2] == k); }
        }
    }
    if url_hit(values, m) is Some && first_url(values, 0) is None && user_hit(values, m) is None && password_hit(values, m) is None {
        assert(fk =~= seq!["url"@]);
        assert(ms =~= seq!["username"@, "password"@]);
        assert(fk[0] == "url"@ && !ms.contains("url"@));
        assert(ms[0] == "username"@ && !fk.contains("username"@));
        assert(ms[1] == "password"@ && !fk.contains("password"@));
        assert(fk.no_duplicates() && ms.no_duplicates());
        assert forall|k: Seq<char>| fk.contains(k) || ms.contains(k) implies #[trigger] all_kinds().contains(k) by {
            if k == "url"@ { assert(all_kinds()[0] == k); } else if k == "username"@ { assert(all_kinds()[1] == k); } else { assert(all_kinds()[2] == k); }
        }
    }
    if url_hit(values, m) is None && first_url(values, 0) is Some && user_hit(values, m) is Some && password_hit(values, m) is Some {
        assert(fk =~= seq!["username"@, "password"@, "url"@]);
        assert(ms =~= seq![]);
        assert(fk[2] == "url"@ && !ms.contains("url"@));
        assert(fk[0] == "username"@ && !ms.contains("username"@));
        assert(fk[1] == "password"@ && !ms.contains("password"@));
        assert(fk.no_duplicates() && ms.no_duplicates());
        assert forall|k: Seq<char>| fk.contains(k) || ms.contains(k) implies #[trigger] all_kinds().contains(k) by {
            if k == "url"@ { assert(all_kinds()[0] == k); } else if k == "username"@ { assert(all_kinds()[1] == k); } else { assert(all_kinds()[2] == k); }
        }
    }
    if url_hit(values, m) is None && first_url(values, 0) is Some && user_hit(values, m) is Some && password_hit(values, m) is None {
        assert(fk =~= seq!["username"@, "url"@]);
        assert(ms =~= seq!["password"@]);
        assert(fk[1] == "url"@ && !ms.contains("url"@));
        assert(fk[0] == "username"@ && !ms.contains("username"@));
        assert(ms[0] == "password"@ && !fk.contains("password"@));
        assert(fk.no_duplicates() && ms.no_duplicates());
        assert forall|k: Seq<char>| fk.contains(k) || ms.contains(k) implies #[trigger] all_kinds().contains(k) by {
            if k == "url"@ { assert(all_kinds()[0] == k); } else if k == "username"@ { assert(all_kinds()[1] == k); } else { assert(all_kinds()[2] == k); }
        }
    }
    if url_hit(values, m) is None && first_url(values, 0) is Some && user_hit(values, m) is None && password_hit(values, m) is Some {
        assert(fk =~= seq!["password"@, "url"@]);
        assert(ms =~= seq!["username"@]);
        assert(fk[1] == "url"@ && !ms.contains("url"@));
        assert(ms[0] == "username"@ && !fk.contains("username"@));
        assert(fk[0] == "password"@ && !ms.contains("password"@));
        assert(fk.no_duplicates() && ms.no_duplicates());
        assert forall|k: Seq<char>| fk.contains(k) || ms.contains(k) implies #[trigger] all_kinds().contains(k) by {
            if k == "url"@ { assert(all_kinds()[0] == k); } else if k == "username"@ { assert(all_kinds()[1] == k); } else { assert(all_kinds()[2] == k); }
        }
    }
    if url_hit(values, m) is None && first_url(values, 0) is Some && user_hit(values, m) is None && password_hit(values, m) is None {
        assert(fk =~= seq!["url"@]);
        assert(ms =~= seq!["username"@, "password"@]);
        assert(fk[0] == "url"@ && !ms.contains("url"@));
        assert(ms[0] == "username"@ && !fk.contains("username"@));
        assert(ms[1] == "password"@ && !fk.contains("password"@));
        assert(fk.no_duplicates() && ms.no_duplicates());
        assert forall|k: Seq<char>| fk.contains(k) || ms.contains(k) implies #[trigger] all_kinds().contains(k) by {
            if k == "url"@ { assert(all_kinds()[0] == k); } else if k == "username"@ { assert(all_kinds()[1] == k); } else { assert(all_kinds()[2] == k); }
        }
    }
    if url_hit(values, m) is None && first_url(values, 0) is None && user_hit(values, m) is Some && password_hit(values, m) is Some {
        assert(fk =~= seq!["username"@, "password"@]);
        assert(ms =~= seq!["url"@]);
        assert(ms[0] == "url"@ && !fk.contains("url"@));
        assert(fk[0] == "username"@ && !ms.contains("username"@));
        assert(fk[1] == "password"@ && !ms.contains("password"@));
        assert(fk.no_duplicates() && ms.no_duplicates());
        assert forall|k: Seq<char>| fk.contains(k) || ms.contains(k) implies #[trigger] all_kinds().contains(k) by {
            if k == "url"@ { assert(all_kinds()[0] == k); } else if k == "username"@ { assert(all_kinds()[1] == k); } else { assert(all_kinds()[2] == k); }
        }
    }
    if url_hit(values, m) is None && first_url(values, 0) is None && user_hit(values, m) is Some && password_hit(values, m) is None {
        assert(fk =~= seq!["username"@]);
        assert(ms =~= seq!["url"@, "password"@]);
        assert(ms[0] == "url"@ && !fk.contains("url"@));
        assert(fk[0] == "username"@ && !ms.contains("username"@));
        assert(ms[1] == "password"@ && !fk.contains("password"@));
        assert(fk.no_duplicates() && ms.no_duplicates());
        assert forall|k: Seq<char>| fk.contains(k) || ms.contains(k) implies #[trigger] all_kinds().contains(k) by {
            if k == "url"@ { assert(all_kinds()[0] == k); } else if k == "username"@ { assert(all_kinds()[1] == k); } else { assert(all_kinds()[2] == k); }
        }
    }
    if url_hit(values, m) is None && first_url(values, 0) is None && user_hit(values, m) is None && password_hit(values, m) is Some {
        assert(fk =~= seq!["password"@]);
        assert(ms =~= seq!["url"@, "username"@]);
        assert(ms[0] == "url"@ && !fk.contains("url"@));
        assert(ms[1] == "username"@ && !fk.contains("username"@));
        assert(fk[0] == "password"@ && !ms.contains("password"@));
        assert(fk.no_duplicates() && ms.no_duplicates());
        assert forall|k: Seq<char>| fk.contains(k) || ms.contains(k) implies #[trigger] all_kinds().contains(k) by {
            if k == "url"@ { assert(all_kinds()[0] == k); } else if k == "username"@ { assert(all_kinds()[1] == k); } else { assert(all_kinds()[2] == k); }
        }
    }
    if url_hit(values, m) is None && first_url(values, 0) is None && user_hit(values, m) is None && password_hit(values, m) is None {
        assert(fk =~= seq![]);
        assert(ms =~= seq!["url"@, "username"@, "password"@]);
        assert(ms[0] == "url"@ && !fk.contains("url"@));
        assert(ms[1] == "username"@ && !fk.contains("username"@));
        assert(ms[2] == "password"@ && !fk.contains("password"@));
        assert(fk.no_duplicates() && ms.no_duplicates());
        assert forall|k: Seq<char>| fk.contains(k) || ms.contains(k) implies #[trigger] all_kinds().contains(k) by {
            if k == "url"@ { assert(all_kinds()[0] == k); } else if k == "username"@ { assert(all_kinds()[1] == k); } else { assert(all_kinds()[2] == k); }
        }
    }
    assert forall|i: int| 0 <= i < f.len() implies exists|j: int| 0 <= j < values.len() && #[trigger] f[i] == hit_of(f[i].kind, values[j]) by {
        if i < base.len() {
            assert(f[i] == base[i]);
        } else {
            assert(f[i] == hit_of("url"@, values[first_url(values, 0)->0]));
        }
    }
}

fn find_url(values: &Vec<FlatValue>) -> (r: Option<usize>)
    ensures
        match r {
            Some(i) => first_url(flat_views(values@), 0) == Some(i as int) && i < values.len(),
            None => first_url(flat_views(values@), 0) is None,
        },
{
    let ghost vs = flat_views(values@);
    let mut i: usize = 0;
    proof {
        lemma_first_url_bounds(vs, 0);
    }
    while i < values.len()
        invariant
            i <= values.len(),
            vs == flat_views(values@),
            first_url(vs, 0) == first_url(vs, i as int),
        decreases values.len() - i,
    {
        let v = text::chars_of_string(&values[i].value);
        if looks_like_url_exec(&v) {
            return Some(i);
        }
        i += 1;
    }
    None
}

fn kind_field(values: &Vec<FlatValue>, keys: &Vec<String>, m: &KeyMapping, kind: &str) -> (r: Option<FieldHit>)
    ensures
        match r {
            Some(h) => kind_hit(flat_views(values@), strings_view(keys@), *m, kind@) == Some(h@),
            None => kind_hit(flat_views(values@), strings_view(keys@), *m, kind@) is None,
        },
{
    let ghost vs = flat_views(values@);
    let ghost ks = strings_view(keys@);
    match pick(values, keys, m.exact, m.ignore_case) {
        Some(i) => {
            proof {
                let c = choose|c: int| is_pick(vs, ks, m.exact, m.ignore_case, c);
                lemma_pick_unique(vs, ks, m.exact, m.ignore_case, i as int, c);
            }
            let v = &values[i];
            let h = FieldHit {
                kind: kind.to_owned(),
                key: v.key.clone(),
                path: v.path.clone(),
                value: v.value.clone(),
                line: v.line,
            };
            assert(h@ == hit_of(kind@, vs[i as int]));
            Some(h)
        },
        None => {
            assert(!exists|c: int| is_pick(vs, ks, m.exact, m.ignore_case, c));
            None
        },
    }
}

/// A value is a password candidate when its key matches one of the password
/// key names, compared as the mapping says.
pub open spec fn password_candidate_spec(key: Seq<char>, m: KeyMapping) -> bool {
    exists|j: int| 0 <= j < m.password@.len() && #[trigger] hit(key, m.password@[j]@, m.exact, m.ignore_case)
}

/// Whether a value under `key` may hold a password (see
/// [`password_candidate_spec`]).
pub fn is_password_candidate(key: &str, mapping: &KeyMapping) -> (r: bool)
    ensures
        r == password_candidate_spec(key@, *mapping),
{
    let cand = text::chars_of(key);
    let mut j: usize = 0;
    while j < mapping.password.len()
        invariant
            j <= mapping.password.len(),
            cand@ == key@,
            forall|a: int| 0 <= a < j ==> !#[trigger] hit(key@, mapping.password@[a]@, mapping.exact, mapping.ignore_case),
        decreases mapping.password.len() - j,
    {
        let k = text::chars_of_string(&mapping.password[j]);
        assert(k@ == mapping.password@[j as int]@);
        let m = if mapping.exact {
            key_eq(&cand, &k, mapping.ignore_case)
        } else {
            key_eq(&cand, &k, mapping.ignore_case) || key_contains(&cand, &k, mapping.ignore_case)
        };
        if m {
            assert(hit(key@, mapping.password@[j as int]@, mapping.exact, mapping.ignore_case));
            return true;
        }
        j += 1;
    }
    false
}

/// The analysis of already extracted values, stamped with `analyzed_at`.
pub fn analyze_values(values: &Vec<FlatValue>, format: &str, mapping: &KeyMapping, analyzed_at: String) -> (r: LinkParse)
    ensures
        r.format@ == format@,
        hit_views(r.fields@) == analysis_fields(flat_views(values@), *mapping),
        strings_view(r.missing@) == analysis_missing(flat_views(values@), *mapping),
        r.analyzed_at == analyzed_at,
        r.error is None,
{
    let ghost vs = flat_views(values@);
    let mut fields: Vec<FieldHit> = Vec::new();
    let mut missing: Vec<String> = Vec::new();
    let u = kind_field(values, &mapping.url, mapping, "url");
    let n = kind_field(values, &mapping.username, mapping, "username");
    let p = kind_field(values, &mapping.password, mapping, "password");
    let url_found = u.is_some();
    let user_found = n.is_some();
    let password_found = p.is_some();
    match u {
        Some(h) => fields.push(h),
        None => {},
    }
    match n {
        Some(h) => fields.push(h),
        None => {},
    }
    match p {
        Some(h) => fields.push(h),
        None => {},
    }
    let ghost base = hit_views(fields@);
    assert(base =~= opt_seq(url_hit(vs, *mapping)) + opt_seq(user_hit(vs, *mapping)) + opt_seq(
        password_hit(vs, *mapping),
    ));
    let mut literal = false;
    if !url_found {
        match find_url(values) {
            Some(i) => {
                let h = FieldHit {
                    kind: "url".to_owned(),
                    key: values[i].key.clone(),
                    path: values[i].path.clone(),
                    value: values[i].value.clone(),
                    line: values[i].line,
                };
                fields.push(h);
                assert(hit_views(fields@) =~= base.push(hit_of("url"@, vs[i as int])));
                literal = true;
            },
            None => {},
        }
    }
    if !url_found && !literal {
        missing.push("url".to_owned());
    }
    if !user_found {
        missing.push("username".to_owned());
    }
    if !password_found {
        missing.push("password".to_owned());
    }
    assert(strings_view(missing@) =~= analysis_missing(vs, *mapping));
    LinkParse { format: format.to_owned(), fields, missing, analyzed_at, error: None }
}

} // verus!

verus! {

/// The error of an analysis in a format the analysis does not read.
pub open spec fn unsupported_message(format: Seq<char>) -> Seq<char> {
    "不支持的文件格式："@ + format
}

/// An analysis that found nothing: every kind missing, and the error.
fn failed_parse(format: String, error: String) -> (r: LinkParse)
    ensures
        r.format == format,
        r.error == Some(error),
        r.fields@.len() == 0,
        strings_view(r.missing@) == all_kinds(),
{
    let mut missing: Vec<String> = Vec::new();
    missing.push("url".to_owned());
    missing.push("username".to_owned());
    missing.push("password".to_owned());
    assert(strings_view(missing@) =~= all_kinds());
    LinkParse { format, fields: Vec::new(), missing, analyzed_at: crate::model::now_string(), error: Some(error) }
}

/// Analyses an already-loaded document: its values as [`extract`] reads
/// them, matched against the key names (see [`analysis_fields`]). A format
/// the analysis does not read is refused.
pub fn analyze_text(text: &str, format: &str, mapping: &KeyMapping) -> (r: LinkParse)
    requires
        fits(text@),
    ensures
        r.format@ == format@,
        !is_known_format(format@) ==> (r.error matches Some(m) && m@ == unsupported_message(format@)
            && r.fields@.len() == 0 && strings_view(r.missing@) == all_kinds()),
        is_known_format(format@) ==> r.error is None && hit_views(r.fields@) == analysis_fields(
            extracted(text@, format@),
            *mapping,
        ) && strings_view(r.missing@) == analysis_missing(extracted(text@, format@), *mapping),
{
    if !known_format(format) {
        let mut m = text::chars_of("不支持的文件格式：");
        text::push_str(&mut m, format);
        return failed_parse(format.to_owned(), text::string_of(&m));
    }
    let values = extract(text, format);
    analyze_values(&values, format, mapping, crate::model::now_string())
}

pub open spec fn all_kinds() -> Seq<Seq<char>> {
    seq!["url"@, "username"@, "password"@]
}

/// What the analysis of a file at `path`, whose content was read as
/// `loaded`, holds: the format from the path; for a readable file in a known
/// format the fields and missing kinds of its values; otherwise the error,
/// with no field and every kind missing.
pub open spec fn analysis_of(path: Seq<char>, loaded: Result<String, String>, m: KeyMapping, r: LinkParse) -> bool {
    &&& r.format@ == detect_format_spec(path)
    &&& match loaded {
        Ok(t) => if is_known_format(r.format@) {
            &&& r.error is None
            &&& hit_views(r.fields@) == analysis_fields(extracted(t@, r.format@), m)
            &&& strings_view(r.missing@) == analysis_missing(extracted(t@, r.format@), m)
        } else {
            &&& r.error matches Some(e) && e@ == unsupported_message(r.format@)
            &&& r.fields@.len() == 0
            &&& strings_view(r.missing@) == all_kinds()
        },
        Err(e) => r.error == Some(e) && r.fields@.len() == 0 && strings_view(r.missing@) == all_kinds(),
    }
}

/// The analysis of a file whose content was read as `loaded`; a read error
/// is reported with every kind missing.
pub fn analyze_file(path: &str, loaded: Result<String, String>, mapping: &KeyMapping) -> (r: LinkParse)
    requires
        loaded matches Ok(t) ==> fits(t@),
    ensures
        analysis_of(path@, loaded, *mapping, r),
{
    let format = detect_format(path);
    match loaded {
        Ok(t) => analyze_text(t.as_str(), format.as_str(), mapping),
        Err(e) => failed_parse(format, e),
    }
}

// ---------------------------------------------------------------------------
// Format detection
// ---------------------------------------------------------------------------

pub open spec fn is_path_sep(c: char) -> bool {
    c == '/' || c == '\\'
}

pub open spec fn trim_end_seps(s: Seq<char>) -> Seq<char>
    decreases s.len(),
{
    if s.len() > 0 && is_path_sep(s.last()) {
        trim_end_seps(s.drop_last())
    } else {
        s
    }
}

pub open spec fn last_sep_before(s: Seq<char>, j: int) -> Option<int>
    decreases j,
{
    if j <= 0 || j > s.len() {
        None
    } else if is_path_sep(s[j - 1]) {
        Some(j - 1)
    } else {
        last_sep_before(s, j - 1)
    }
}

/// The last component of a path (`/` and `\` separate components); empty
/// when there is none or it is `..`.
pub open spec fn file_name_spec(path: Seq<char>) -> Seq<char> {
    let t = trim_end_seps(path);
    let seg = match last_sep_before(t, t.len() as int) {
        Some(i) => t.skip(i + 1),
        None => t,
    };
    if seg == ".."@ {
        seq![]
    } else {
        seg
    }
}

/// What follows the last `.` of a file name, unless that dot starts the name.
pub open spec fn extension_spec(name: Seq<char>) -> Option<Seq<char>> {
    match text::rfind_char(name, '.') {
        Some(i) => if i == 0 {
            None
        } else {
            Some(name.skip(i + 1))
        },
        None => None,
    }
}

/// The format of a file by its extension; the `key = value` dialects keep
/// their own label, and anything unknown is `unsupported`.
pub open spec fn format_of_extension(ext: Seq<char>) -> Seq<char> {
    if ext == "json"@ || ext == "jsonc"@ {
        "json"@
    } else if ext == "env"@ {
        "env"@
    } else if ext == "toml"@ || ext == "lock"@ {
        "toml"@
    } else if ext == "ini"@ || ext == "conf"@ || ext == "cfg"@ {
        "ini"@
    } else if ext == "properties"@ {
        "properties"@
    } else if ext == "tfvars"@ || ext == "hcl"@ {
        "hcl"@
    } else if ext == "yaml"@ || ext == "yml"@ {
        "yaml"@
    } else if ext == "xml"@ || ext == "plist"@ || ext == "config"@ || ext == "resx"@ {
        "xml"@
    } else if ext == "md"@ {
        "text"@
    } else {
        "unsupported"@
    }
}

/// File-name based format detection; `.env` files are recognised by name.
pub open spec fn detect_format_spec(path: Seq<char>) -> Seq<char> {
    let name = lower_seq(file_name_spec(path));
    if name == ".env"@ || starts_with(name, ".env."@) || text::ends_with(name, ".env"@) {
        "env"@
    } else {
        match extension_spec(name) {
            Some(ext) => format_of_extension(ext),
            None => "unsupported"@,
        }
    }
}

proof fn lemma_last_sep_bounds(s: Seq<char>, j: int)
    ensures
        last_sep_before(s, j) matches Some(k) ==> 0 <= k < j <= s.len(),
    decreases j,
{
    if 0 < j <= s.len() {
        lemma_last_sep_bounds(s, j - 1);
    }
}

pub fn file_name(path: &Vec<char>) -> (out: Vec<char>)
    ensures
        out@ == file_name_spec(path@),
{
    let mut end: usize = path.len();
    assert(path@.take(end as int) =~= path@);
    while end > 0 && (path[end - 1] == '/' || path[end - 1] == '\\')
        invariant
            end <= path.len(),
            trim_end_seps(path@) == trim_end_seps(path@.take(end as int)),
        decreases end,
    {
        assert(path@.take(end as int).drop_last() =~= path@.take(end - 1));
        end -= 1;
    }
    let t = text::slice_of(path, 0, end);
    assert(t@ =~= path@.take(end as int));
    let mut j: usize = t.len();
    proof {
        lemma_last_sep_bounds(t@, t@.len() as int);
    }
    while j > 0 && t[j - 1] != '/' && t[j - 1] != '\\'
        invariant
            j <= t.len(),
            last_sep_before(t@, t@.len() as int) == last_sep_before(t@, j as int),
        decreases j,
    {
        j -= 1;
    }
    let seg = if j == 0 {
        t
    } else {
        text::slice_of(&t, j, t.len())
    };
    let dots = text::chars_of("..");
    if text::seq_eq(&seg, &dots) {
        Vec::new()
    } else {
        seg
    }
}

fn is(v: &Vec<char>, lit: &str) -> (r: bool)
    ensures
        r == (v@ == lit@),
{
    let l = text::chars_of(lit);
    text::seq_eq(v, &l)
}

fn format_of_extension_exec(ext: &Vec<char>) -> (r: &'static str)
    ensures
        r@ == format_of_extension(ext@),
{
    if is(ext, "json") || is(ext, "jsonc") {
        "json"
    } else if is(ext, "env") {
        "env"
    } else if is(ext, "toml") || is(ext, "lock") {
        "toml"
    } else if is(ext, "ini") || is(ext, "conf") || is(ext, "cfg") {
        "ini"
    } else if is(ext, "properties") {
        "properties"
    } else if is(ext, "tfvars") || is(ext, "hcl") {
        "hcl"
    } else if is(ext, "yaml") || is(ext, "yml") {
        "yaml"
    } else if is(ext, "xml") || is(ext, "plist") || is(ext, "config") || is(ext, "resx") {
        "xml"
    } else if is(ext, "md") {
        "text"
    } else {
        "unsupported"
    }
}

/// File-name based format detection. `.env` and friends have no extension,
/// so the file name is checked as well.
pub fn detect_format(path: &str) -> (r: String)
    ensures
        r@ == detect_format_spec(path@),
{
    let p = text::chars_of(path);
    let raw = file_name(&p);
    let name = text::to_lower(&raw);
    if is(&name, ".env") || text::starts_with_str(&name, ".env.") || text::ends_with_str(
        &name,
        ".env",
    ) {
        return "env".to_owned();
    }
    proof {
        text::lemma_rfind_char_before_bounds(name@, '.', name@.len() as int);
    }
    match text::rfind_char_exec(&name, '.') {
        Some(i) => {
            if i == 0 {
                "unsupported".to_owned()
            } else {
                let ext = text::slice_of(&name, i + 1, name.len());
                assert(ext@ =~= name@.skip(i + 1));
                format_of_extension_exec(&ext).to_owned()
            }
        },
        None => "unsupported".to_owned(),
    }
}

/// The formats the analysis reads.
pub open spec fn is_known_format(f: Seq<char>) -> bool {
    f == "json"@ || f == "env"@ || f == "toml"@ || f == "ini"@ || f == "properties"@ || f == "hcl"@ || f == "yaml"@
        || f == "xml"@ || f == "text"@
}

/// Whether the format detected for the path is one the analysis reads.
pub fn is_supported(path: &str) -> (r: bool)
    ensures
        r == is_known_format(detect_format_spec(path@)),
{
    let f = detect_format(path);
    known_format(f.as_str())
}

pub fn known_format(f: &str) -> (r: bool)
    ensures
        r == is_known_format(f@),
{
    text::str_eq(f, "json") || text::str_eq(f, "env") || text::str_eq(f, "toml") || text::str_eq(f, "ini")
        || text::str_eq(f, "properties") || text::str_eq(f, "hcl") || text::str_eq(f, "yaml") || text::str_eq(f, "xml")
        || text::str_eq(f, "text")
}

} // verus!

verus! {

// ---------------------------------------------------------------------------
// Decoding
// ---------------------------------------------------------------------------

/// The 16-bit code units of `bytes` taken in pairs (a trailing odd byte is
/// dropped), little- or big-endian.
pub open spec fn utf16_units(bytes: Seq<u8>, little_endian: bool) -> Seq<u16> {
    Seq::new(
        bytes.len() / 2,
        |i: int|
            if little_endian {
                (bytes[2 * i] + 256 * bytes[2 * i + 1]) as u16
            } else {
                (256 * bytes[2 * i] + bytes[2 * i + 1]) as u16
            },
    )
}

pub fn utf16_units_exec(bytes: &[u8], from: usize, little_endian: bool) -> (out: Vec<u16>)
    requires
        from <= bytes@.len(),
    ensures
        out@ == utf16_units(bytes@.skip(from as int), little_endian),
{
    let ghost b = bytes@.skip(from as int);
    let avail = bytes.len() - from;
    let n = avail / 2;
    assert(2 * n <= avail) by (nonlinear_arith)
        requires
            n == avail / 2,
    ;
    let mut out: Vec<u16> = Vec::new();
    let mut i: usize = 0;
    let mut pos: usize = from;
    while i < n
        invariant
            i <= n,
            pos == from + 2 * i,
            n == b.len() / 2,
            from + 2 * n <= bytes@.len(),
            b == bytes@.skip(from as int),
            from <= bytes@.len(),
            out@ =~= utf16_units(b, little_endian).take(i as int),
        decreases n - i,
    {
        let lo = bytes[pos];
        let hi = bytes[pos + 1];
        assert(lo == b[2 * i as int] && hi == b[2 * i + 1]);
        let unit: u16 = if little_endian {
            lo as u16 + 256 * (hi as u16)
        } else {
            256 * (lo as u16) + hi as u16
        };
        out.push(unit);
        i += 1;
        pos += 2;
    }
    out
}

pub open spec fn has_nul(bytes: Seq<u8>) -> bool {
    exists|i: int| 0 <= i < bytes.len() && bytes[i] == 0
}

/// UTF-16 with a byte-order mark is decoded as such; otherwise a NUL byte in
/// the first 8 KiB means binary (`None`); everything else is UTF-8 with any
/// leading BOM removed.
pub open spec fn decode_text_spec(bytes: Seq<u8>) -> Option<Seq<char>> {
    if bytes.len() == 0 {
        Some(seq![])
    } else if bytes.len() >= 2 && bytes[0] == 0xFF && bytes[1] == 0xFE {
        Some(text::utf16_lossy(utf16_units(bytes.skip(2), true)))
    } else if bytes.len() >= 2 && bytes[0] == 0xFE && bytes[1] == 0xFF {
        Some(text::utf16_lossy(utf16_units(bytes.skip(2), false)))
    } else if has_nul(bytes.take(if bytes.len() < 8192 { bytes.len() as int } else { 8192 })) {
        None
    } else {
        Some(trim_start_char(text::utf8_lossy(bytes), '\u{feff}'))
    }
}

pub fn decode_text(bytes: &[u8]) -> (r: Option<String>)
    ensures
        match r {
            Some(s) => decode_text_spec(bytes@) == Some(s@),
            None => decode_text_spec(bytes@) is None,
        },
{
    if bytes.len() == 0 {
        return Some(String::new());
    }
    if bytes.len() >= 2 && bytes[0] == 0xFF && bytes[1] == 0xFE {
        let units = utf16_units_exec(bytes, 2, true);
        return Some(text::from_utf16_lossy(units.as_slice()));
    }
    if bytes.len() >= 2 && bytes[0] == 0xFE && bytes[1] == 0xFF {
        let units = utf16_units_exec(bytes, 2, false);
        return Some(text::from_utf16_lossy(units.as_slice()));
    }
    let sniff = if bytes.len() < 8192 {
        bytes.len()
    } else {
        8192
    };
    let mut i: usize = 0;
    while i < sniff
        invariant
            i <= sniff <= bytes.len(),
            bytes@.len() > 0,
            !(bytes@.len() >= 2 && bytes@[0] == 0xFF && bytes@[1] == 0xFE),
            !(bytes@.len() >= 2 && bytes@[0] == 0xFE && bytes@[1] == 0xFF),
            sniff == (if bytes@.len() < 8192 {
                bytes@.len() as int
            } else {
                8192
            }),
            forall|k: int| 0 <= k < i ==> bytes@[k] != 0,
        decreases sniff - i,
    {
        if bytes[i] == 0 {
            assert(bytes@.take(sniff as int)[i as int] == 0);
            assert(has_nul(bytes@.take(sniff as int)));
            return None;
        }
        i += 1;
    }
    assert(!has_nul(bytes@.take(sniff as int)));
    let text = text::from_utf8_lossy(bytes);
    let chars = text::chars_of_string(&text);
    let trimmed = text::trim_start_char_exec(&chars, '\u{feff}');
    Some(text::string_of(&trimmed))
}

} // verus!
