//! Finding configuration files that belong to an SAP account: a file counts
//! when it mentions enough of the account's host names, system IDs and user
//! names.
//!
//! Walking the directories is the caller's part; this module decides which
//! directories and files to read, what a file's text is, whether it matches,
//! and what snippet of it is shown (with long opaque runs collapsed so a
//! password never reaches the screen).

use vstd::prelude::*;
use crate::error::AppError;
use crate::model::strings_view;
use crate::sap::{push_unique, push_unique_exec};
use crate::text::{self, trim, lower_seq, upper_seq, utf8_lossy, unicode_alphanumeric};

verus! {

/// Bytes looked at to tell a text file from a binary one.
pub const BINARY_SNIFF_BYTES: usize = 8192;
/// Characters of a line shown as a snippet.
pub const EXCERPT_LIMIT: usize = 240;
/// Errors of the directory walk kept in a report.
pub const MAX_WALK_ERRORS: usize = 50;

#[derive(Debug, Clone)]
pub struct ScanOptions {
    /// Directories to walk. Defaults to the current user profile.
    pub roots: Vec<String>,
    /// Candidate host names / domain suffixes from the SAP landscape.
    pub hosts: Vec<String>,
    pub system_ids: Vec<String>,
    pub usernames: Vec<String>,
    /// `true` requires host, system ID and user name in the same file;
    /// `false` accepts one fewer of the kinds given.
    pub strict: bool,
    pub max_file_bytes: u64,
    pub max_files: usize,
    pub max_depth: usize,
    pub follow_links: bool,
    /// When non-empty only these extensions are read.
    pub only_extensions: Vec<String>,
    /// Extra absolute paths to skip, such as the vault's own data directory.
    pub extra_skip_paths: Vec<String>,
    /// Name of the account searched for, echoed in the report.
    pub label: String,
}

#[derive(Debug, Clone)]
pub struct ScanHit {
    pub path: String,
    pub label: String,
    pub size: u64,
    pub modified_at: Option<String>,
    pub matched_hosts: Vec<String>,
    pub matched_system_ids: Vec<String>,
    pub matched_usernames: Vec<String>,
    pub score: u8,
    pub first_line: u32,
    pub excerpt: String,
}

#[derive(Debug, Clone)]
pub struct ScanReport {
    pub label: String,
    pub roots: Vec<String>,
    pub scanned_files: usize,
    pub skipped_files: usize,
    pub hits: Vec<ScanHit>,
    pub elapsed_ms: u64,
    pub cancelled: bool,
    pub truncated: bool,
    pub started_at: String,
    pub errors: Vec<String>,
}

// ---------------------------------------------------------------------------
// Case-insensitive byte search
// ---------------------------------------------------------------------------

pub open spec fn lower_byte(b: u8) -> u8 {
    if 65 <= b <= 90 {
        (b + 32) as u8
    } else {
        b
    }
}

pub open spec fn is_alnum_byte(b: u8) -> bool {
    (48 <= b <= 57) || (65 <= b <= 90) || (97 <= b <= 122)
}

/// `needle` occurs at `s`, ignoring ASCII case.
pub open spec fn matches_ci_at(h: Seq<u8>, n: Seq<u8>, s: int) -> bool {
    0 <= s && s + n.len() <= h.len() && forall|k: int| 0 <= k < n.len() ==> lower_byte(#[trigger] h[s + k]) == lower_byte(n[k])
}

/// With `boundary`, the occurrence is not glued to an ASCII letter or digit
/// on either side.
pub open spec fn hit_at(h: Seq<u8>, n: Seq<u8>, boundary: bool, s: int) -> bool {
    matches_ci_at(h, n, s) && (!boundary || ((s == 0 || !is_alnum_byte(h[s - 1])) && (s + n.len()
        >= h.len() || !is_alnum_byte(h[s + n.len()]))))
}

pub open spec fn first_hit_from(h: Seq<u8>, n: Seq<u8>, boundary: bool, s: int) -> Option<int>
    decreases h.len() - s,
{
    if s < 0 || s >= h.len() || s + n.len() > h.len() {
        None
    } else if hit_at(h, n, boundary, s) {
        Some(s)
    } else {
        first_hit_from(h, n, boundary, s + 1)
    }
}

/// Where the needle first occurs, ignoring ASCII case; an empty needle is
/// never found.
pub open spec fn find_ci_spec(h: Seq<u8>, n: Seq<u8>, boundary: bool) -> Option<int> {
    if n.len() == 0 || n.len() > h.len() {
        None
    } else {
        first_hit_from(h, n, boundary, 0)
    }
}

/// The bytes with every ASCII capital made small (`A`..`Z` are 65..90, the
/// small letters 32 above them).
pub open spec fn ascii_small(h: Seq<u8>) -> Seq<u8> {
    h.map_values(|b: u8| if 65 <= b && b <= 90 { (b + 32) as u8 } else { b })
}

/// An ASCII letter or digit: `0`..`9`, `A`..`Z`, `a`..`z`.
pub open spec fn letter_or_digit(b: u8) -> bool {
    (48 <= b && b <= 57) || (65 <= b && b <= 90) || (97 <= b && b <= 122)
}

/// Two bytes are the same letter in either case, or the same byte.
pub open spec fn same_ignoring_case(a: u8, b: u8) -> bool {
    a == b || (65 <= a <= 90 && b == a + 32) || (65 <= b <= 90 && a == b + 32)
}

proof fn lemma_small_hit(h: Seq<u8>, n: Seq<u8>, boundary: bool, s: int)
    ensures
        hit_at(ascii_small(h), n, boundary, s) == hit_at(h, n, boundary, s),
        hit_at(h, ascii_small(n), boundary, s) == hit_at(h, n, boundary, s),
{
    let lh = ascii_small(h);
    let ln = ascii_small(n);
    assert forall|k: int| 0 <= k < h.len() implies lower_byte(#[trigger] lh[k]) == lower_byte(h[k]) && (is_alnum_byte(lh[k])
        == is_alnum_byte(h[k])) by {}
    assert forall|k: int| 0 <= k < n.len() implies lower_byte(#[trigger] ln[k]) == lower_byte(n[k]) by {}
    if matches_ci_at(h, n, s) {
        assert forall|k: int| 0 <= k < n.len() implies lower_byte(#[trigger] lh[s + k]) == lower_byte(n[k]) by {
            assert(lower_byte(h[s + k]) == lower_byte(n[k]));
        }
        assert forall|k: int| 0 <= k < ln.len() implies lower_byte(#[trigger] h[s + k]) == lower_byte(ln[k]) by {
            assert(lower_byte(h[s + k]) == lower_byte(n[k]));
        }
    }
    if matches_ci_at(lh, n, s) {
        assert forall|k: int| 0 <= k < n.len() implies lower_byte(#[trigger] h[s + k]) == lower_byte(n[k]) by {
            assert(lower_byte(lh[s + k]) == lower_byte(n[k]));
        }
    }
    if matches_ci_at(h, ln, s) {
        assert forall|k: int| 0 <= k < n.len() implies lower_byte(#[trigger] h[s + k]) == lower_byte(n[k]) by {
            assert(lower_byte(h[s + k]) == lower_byte(ln[k]));
        }
    }
}

proof fn lemma_small_first(h: Seq<u8>, n: Seq<u8>, boundary: bool, s: int)
    ensures
        first_hit_from(ascii_small(h), n, boundary, s) == first_hit_from(h, n, boundary, s),
        first_hit_from(h, ascii_small(n), boundary, s) == first_hit_from(h, n, boundary, s),
    decreases h.len() - s,
{
    lemma_small_hit(h, n, boundary, s);
    if !(s < 0 || s >= h.len() || s + n.len() > h.len()) {
        lemma_small_first(h, n, boundary, s + 1);
    }
}

/// Letter case does not matter to the search: making the ASCII capitals of
/// the text or of the needle small gives the same answer; a position found
/// holds the needle byte for byte up to letter case (and, with `boundary`,
/// is not glued to a letter or digit); and a needle that occurs as written
/// (standing apart, with `boundary`) is found there or earlier.
pub proof fn law_search_ignores_letter_case(h: Seq<u8>, n: Seq<u8>, boundary: bool)
    ensures
        find_ci_spec(ascii_small(h), n, boundary) == find_ci_spec(h, n, boundary),
        find_ci_spec(h, ascii_small(n), boundary) == find_ci_spec(h, n, boundary),
        find_ci_spec(h, n, boundary) matches Some(s) ==> 0 <= s && s + n.len() <= h.len() && forall|k: int|
            0 <= k < n.len() ==> same_ignoring_case(#[trigger] h[s + k], n[k]),
        forall|s: int|
            0 <= s && s + n.len() <= h.len() && n.len() > 0 && #[trigger] h.subrange(s, s + n.len()) == n ==> (
            find_ci_spec(h, n, false) matches Some(j) && j <= s),
        boundary ==> (find_ci_spec(h, n, boundary) matches Some(s) ==> (s == 0 || !letter_or_digit(h[s - 1])) && (s
            + n.len() == h.len() || !letter_or_digit(h[s + n.len()]))),
        forall|s: int|
            0 <= s && s + n.len() <= h.len() && n.len() > 0 && #[trigger] h.subrange(s, s + n.len()) == n && (s == 0
                || !letter_or_digit(h[s - 1])) && (s + n.len() == h.len() || !letter_or_digit(h[s + n.len()])) ==> (
            find_ci_spec(h, n, true) matches Some(j) && j <= s),
{
    lemma_small_first(h, n, boundary, 0);
    lemma_first_hit_found(h, n, boundary, 0);
    assert forall|s: int|
        0 <= s && s + n.len() <= h.len() && n.len() > 0 && #[trigger] h.subrange(s, s + n.len()) == n implies (
        find_ci_spec(h, n, false) matches Some(j) && j <= s) by {
        assert forall|k: int| 0 <= k < n.len() implies lower_byte(#[trigger] h[s + k]) == lower_byte(n[k]) by {
            assert(h.subrange(s, s + n.len())[k] == h[s + k]);
        }
        assert(hit_at(h, n, false, s));
        lemma_first_hit_before(h, n, false, 0, s);
    }
    assert forall|s: int|
        0 <= s && s + n.len() <= h.len() && n.len() > 0 && #[trigger] h.subrange(s, s + n.len()) == n && (s == 0
            || !letter_or_digit(h[s - 1])) && (s + n.len() == h.len() || !letter_or_digit(h[s + n.len()])) implies (
        find_ci_spec(h, n, true) matches Some(j) && j <= s) by {
        assert forall|k: int| 0 <= k < n.len() implies lower_byte(#[trigger] h[s + k]) == lower_byte(n[k]) by {
            assert(h.subrange(s, s + n.len())[k] == h[s + k]);
        }
        assert(hit_at(h, n, true, s));
        lemma_first_hit_before(h, n, true, 0, s);
    }
    if find_ci_spec(h, n, boundary) is Some {
        let s = find_ci_spec(h, n, boundary)->0;
        assert forall|k: int| 0 <= k < n.len() implies same_ignoring_case(#[trigger] h[s + k], n[k]) by {
            assert(lower_byte(h[s + k]) == lower_byte(n[k]));
        }
    }
}

proof fn lemma_first_hit_found(h: Seq<u8>, n: Seq<u8>, boundary: bool, s: int)
    ensures
        first_hit_from(h, n, boundary, s) matches Some(j) ==> s <= j && hit_at(h, n, boundary, j),
    decreases h.len() - s,
{
    if !(s < 0 || s >= h.len() || s + n.len() > h.len()) && !hit_at(h, n, boundary, s) {
        lemma_first_hit_found(h, n, boundary, s + 1);
    }
}

proof fn lemma_first_hit_before(h: Seq<u8>, n: Seq<u8>, boundary: bool, s: int, t: int)
    requires
        0 <= s <= t,
        hit_at(h, n, boundary, t),
        n.len() > 0,
    ensures
        first_hit_from(h, n, boundary, s) matches Some(j) && j <= t,
    decreases t - s,
{
    if !hit_at(h, n, boundary, s) {
        lemma_first_hit_before(h, n, boundary, s + 1, t);
    }
}

fn lower_byte_exec(b: u8) -> (r: u8)
    ensures
        r == lower_byte(b),
{
    if 65 <= b && b <= 90 {
        b + 32
    } else {
        b
    }
}

fn is_alnum_byte_exec(b: u8) -> (r: bool)
    ensures
        r == is_alnum_byte(b),
{
    (48 <= b && b <= 57) || (65 <= b && b <= 90) || (97 <= b && b <= 122)
}

pub fn find_ci(haystack: &[u8], needle: &[u8], boundary: bool) -> (r: Option<usize>)
    ensures
        match find_ci_spec(haystack@, needle@, boundary) {
            Some(s) => r matches Some(k) && k as int == s,
            None => r is None,
        },
{
    if needle.len() == 0 || needle.len() > haystack.len() {
        return None;
    }
    let last_index = haystack.len() - needle.len();
    let mut start: usize = 0;
    while start <= last_index
        invariant
            needle.len() > 0,
            last_index == haystack.len() - needle.len(),
            start <= last_index + 1,
            find_ci_spec(haystack@, needle@, boundary) == first_hit_from(haystack@, needle@, boundary, start as int),
        decreases last_index + 1 - start,
    {
        let mut matched = true;
        let mut k: usize = 0;
        while k < needle.len()
            invariant
                k <= needle.len(),
                start + needle.len() <= haystack.len(),
                matched ==> forall|j: int| 0 <= j < k ==> lower_byte(#[trigger] haystack@[start + j]) == lower_byte(needle@[j]),
                !matched ==> !matches_ci_at(haystack@, needle@, start as int),
            decreases needle.len() - k,
        {
            if matched && lower_byte_exec(haystack[start + k]) != lower_byte_exec(needle[k]) {
                matched = false;
                assert(lower_byte(haystack@[start + k]) != lower_byte(needle@[k as int]));
            }
            k += 1;
        }
        let mut hit = matched;
        if hit && boundary {
            if start > 0 && is_alnum_byte_exec(haystack[start - 1]) {
                hit = false;
            }
            let end = start + needle.len();
            if end < haystack.len() && is_alnum_byte_exec(haystack[end]) {
                hit = false;
            }
        }
        if hit {
            return Some(start);
        }
        start += 1;
    }
    None
}

/// The needles that occur in the text (`boundary` as in [`find_ci`]).
pub open spec fn matched_spec(h: Seq<u8>, needles: Seq<Seq<char>>, boundary: bool) -> Seq<Seq<char>>
    decreases needles.len(),
{
    if needles.len() == 0 {
        seq![]
    } else {
        matched_spec(h, needles.drop_last(), boundary) + if find_ci_spec(
            h,
            vstd::utf8::encode_utf8(needles.last()),
            boundary,
        ) is Some {
            seq![needles.last()]
        } else {
            seq![]
        }
    }
}

pub fn matched_values(haystack: &[u8], needles: &Vec<String>, boundary: bool) -> (r: Vec<String>)
    ensures
        strings_view(r@) == matched_spec(haystack@, strings_view(needles@), boundary),
{
    let ghost nv = strings_view(needles@);
    let mut out: Vec<String> = Vec::new();
    let mut i: usize = 0;
    assert(nv.take(0) =~= Seq::<Seq<char>>::empty());
    assert(strings_view(out@) =~= Seq::<Seq<char>>::empty());
    while i < needles.len()
        invariant
            i <= needles.len(),
            nv == strings_view(needles@),
            strings_view(out@) == matched_spec(haystack@, nv.take(i as int), boundary),
        decreases needles.len() - i,
    {
        assert(nv.take(i + 1).drop_last() =~= nv.take(i as int));
        assert(nv.take(i + 1).last() == needles@[i as int]@);
        let ghost before = strings_view(out@);
        if find_ci(haystack, needles[i].as_str().as_bytes(), boundary).is_some() {
            out.push(needles[i].clone());
            assert(strings_view(out@) =~= before.push(needles@[i as int]@));
        }
        i += 1;
        assert(strings_view(out@) =~= matched_spec(haystack@, nv.take(i as int), boundary));
    }
    assert(nv.take(needles.len() as int) =~= nv);
    out
}

// ---------------------------------------------------------------------------
// Search terms
// ---------------------------------------------------------------------------

/// The terms trimmed, blank ones dropped, in ASCII upper (or lower) case,
/// each once.
pub open spec fn normalize_terms(values: Seq<Seq<char>>, uppercase: bool) -> Seq<Seq<char>>
    decreases values.len(),
{
    if values.len() == 0 {
        seq![]
    } else {
        let prev = normalize_terms(values.drop_last(), uppercase);
        let t = trim(values.last());
        if t.len() == 0 {
            prev
        } else {
            push_unique(prev, if uppercase { upper_seq(t) } else { lower_seq(t) })
        }
    }
}

pub fn normalize(values: &Vec<String>, uppercase: bool) -> (r: Vec<String>)
    ensures
        strings_view(r@) == normalize_terms(strings_view(values@), uppercase),
{
    let ghost vv = strings_view(values@);
    let mut out: Vec<String> = Vec::new();
    let mut i: usize = 0;
    assert(vv.take(0) =~= Seq::<Seq<char>>::empty());
    assert(strings_view(out@) =~= Seq::<Seq<char>>::empty());
    while i < values.len()
        invariant
            i <= values.len(),
            vv == strings_view(values@),
            strings_view(out@) == normalize_terms(vv.take(i as int), uppercase),
        decreases values.len() - i,
    {
        assert(vv.take(i + 1).drop_last() =~= vv.take(i as int));
        assert(vv.take(i + 1).last() == values@[i as int]@);
        let t = text::trim_str(values[i].as_str());
        if t.len() > 0 {
            let n = if uppercase {
                text::to_upper(&t)
            } else {
                text::to_lower(&t)
            };
            push_unique_exec(&mut out, text::string_of(&n));
        }
        i += 1;
    }
    assert(vv.take(values.len() as int) =~= vv);
    out
}

/// How many kinds of terms a file must match: all kinds given when strict,
/// one fewer (but at least one) otherwise; an error when no kind is given.
pub open spec fn needed_spec(strict: bool, hosts: nat, sids: nat, users: nat) -> Option<nat> {
    let active = (if hosts > 0 { 1nat } else { 0nat }) + (if sids > 0 { 1nat } else { 0nat }) + (if users > 0 { 1nat } else { 0nat });
    if active == 0 {
        None
    } else if strict {
        Some(active)
    } else if active >= 2 {
        Some((active - 1) as nat)
    } else {
        Some(1)
    }
}

pub fn needed_groups(strict: bool, hosts: &Vec<String>, system_ids: &Vec<String>, usernames: &Vec<String>) -> (r: Result<usize, AppError>)
    ensures
        match needed_spec(strict, hosts.len() as nat, system_ids.len() as nat, usernames.len() as nat) {
            Some(n) => r == Ok::<usize, AppError>(n as usize),
            None => r matches Err(AppError::Msg(m)) && m@ == "没有可用的匹配条件：请至少提供系统 ID、用户名或主机名"@,
        },
{
    let mut active: usize = 0;
    if hosts.len() > 0 {
        active += 1;
    }
    if system_ids.len() > 0 {
        active += 1;
    }
    if usernames.len() > 0 {
        active += 1;
    }
    if active == 0 {
        return Err(AppError::Msg(text::string_of(&text::chars_of("没有可用的匹配条件：请至少提供系统 ID、用户名或主机名"))));
    }
    if strict {
        Ok(active)
    } else if active >= 2 {
        Ok(active - 1)
    } else {
        Ok(1)
    }
}

// ---------------------------------------------------------------------------
// Snippets
// ---------------------------------------------------------------------------

/// Characters that form an opaque run (a possible secret).
pub open spec fn is_run_char(c: char) -> bool {
    unicode_alphanumeric(c) || c == '+' || c == '/'
}

/// A run of 24 characters or more keeps its first four and is collapsed.
pub open spec fn flush(run: Seq<char>) -> Seq<char> {
    if run.len() >= 24 {
        run.take(4) + "••••••"@
    } else {
        run
    }
}

/// The text so far and the open run.
pub open spec fn redact_state(t: Seq<char>) -> (Seq<char>, Seq<char>)
    decreases t.len(),
{
    if t.len() == 0 {
        (seq![], seq![])
    } else {
        let st = redact_state(t.drop_last());
        let c = t.last();
        if is_run_char(c) {
            (st.0, st.1.push(c))
        } else {
            (st.0 + flush(st.1) + seq![c], seq![])
        }
    }
}

/// The text with every run of 24 or more letters, digits, `+` or `/`
/// collapsed to its first four characters and `••••••`.
pub open spec fn redact_spec(t: Seq<char>) -> Seq<char> {
    redact_state(t).0 + flush(redact_state(t).1)
}

fn flush_run(out: &mut Vec<char>, run: &mut Vec<char>)
    ensures
        final(out)@ == old(out)@ + flush(old(run)@),
        final(run)@.len() == 0,
{
    if run.len() >= 24 {
        let head = text::slice_of(run, 0, 4);
        text::push_all(out, &head);
        text::push_str(out, "••••••");
    } else {
        text::push_all(out, run);
    }
    run.clear();
}

pub fn redact_chars(t: &Vec<char>) -> (r: Vec<char>)
    ensures
        r@ == redact_spec(t@),
{
    let mut out: Vec<char> = Vec::new();
    let mut run: Vec<char> = Vec::new();
    let mut i: usize = 0;
    assert(t@.take(0) =~= Seq::<char>::empty());
    while i < t.len()
        invariant
            i <= t.len(),
            (out@, run@) == redact_state(t@.take(i as int)),
        decreases t.len() - i,
    {
        assert(t@.take(i + 1).drop_last() =~= t@.take(i as int));
        assert(t@.take(i + 1).last() == t@[i as int]);
        let c = t[i];
        if text::char_is_alphanumeric(c) || c == '+' || c == '/' {
            run.push(c);
        } else {
            flush_run(&mut out, &mut run);
            out.push(c);
            assert(run@ =~= Seq::<char>::empty());
        }
        i += 1;
    }
    assert(t@.take(t.len() as int) =~= t@);
    flush_run(&mut out, &mut run);
    out
}

/// `redact_spec` of a string.
pub fn redact(text: &str) -> (r: String)
    ensures
        r@ == redact_spec(text@),
{
    text::string_of(&redact_chars(&text::chars_of(text)))
}

/// The snippet of a line: the trimmed text, redacted; a long line is cut to
/// 240 characters starting half that before the needle (the needle's byte
/// offset counted as characters).
pub open spec fn excerpt_spec(line: Seq<u8>, needle: Seq<u8>) -> Seq<char> {
    let t = trim(utf8_lossy(line));
    if t.len() <= EXCERPT_LIMIT {
        redact_spec(t)
    } else {
        let pos: int = match find_ci_spec(line, needle, false) {
            Some(p) => p,
            None => 0,
        };
        let start: int = if pos >= 120 { pos - 120 } else { 0 };
        let rest = if start <= t.len() { t.skip(start) } else { seq![] };
        redact_spec(if rest.len() <= EXCERPT_LIMIT { rest } else { rest.take(EXCERPT_LIMIT as int) })
    }
}

pub fn excerpt_of(line: &[u8], needle: &[u8]) -> (r: Vec<char>)
    ensures
        r@ == excerpt_spec(line@, needle@),
{
    let s = text::from_utf8_lossy(line);
    let t = text::trim_vec(&text::chars_of_string(&s));
    if t.len() <= EXCERPT_LIMIT {
        return redact_chars(&t);
    }
    let pos = match find_ci(line, needle, false) {
        Some(p) => p,
        None => 0,
    };
    let start = if pos >= 120 {
        pos - 120
    } else {
        0
    };
    let rest = if start <= t.len() {
        text::slice_of(&t, start, t.len())
    } else {
        Vec::new()
    };
    assert(start <= t.len() ==> rest@ =~= t@.skip(start as int));
    let cut = if rest.len() <= EXCERPT_LIMIT {
        rest
    } else {
        let c = text::slice_of(&rest, 0, EXCERPT_LIMIT);
        assert(c@ =~= rest@.take(EXCERPT_LIMIT as int));
        c
    };
    assert(t@ == trim(utf8_lossy(line@)));
    assert(pos as int == (match find_ci_spec(line@, needle@, false) {
        Some(p) => p,
        None => 0,
    }));
    redact_chars(&cut)
}

} // verus!

verus! {

// ---------------------------------------------------------------------------
// Which files are text
// ---------------------------------------------------------------------------

pub fn bytes_of(s: &str) -> (r: Vec<u8>)
    ensures
        r@ == vstd::utf8::encode_utf8(s@),
{
    let b = s.as_bytes();
    let mut r: Vec<u8> = Vec::new();
    let mut i: usize = 0;
    while i < b.len()
        invariant
            i <= b.len(),
            r@ == b@.take(i as int),
        decreases b.len() - i,
    {
        r.push(b[i]);
        i += 1;
        assert(r@ =~= b@.take(i as int));
    }
    assert(b@.take(b.len() as int) =~= b@);
    r
}

/// The bytes of a file as text: UTF-16 (by its byte-order mark) re-encoded
/// as UTF-8, other bytes as they are; nothing for an empty file or one with
/// a NUL byte in its first 8 KiB.
pub open spec fn text_candidate_spec(b: Seq<u8>) -> Option<Seq<u8>> {
    if b.len() == 0 {
        None
    } else if b.len() >= 2 && b[0] == 0xFF && b[1] == 0xFE {
        Some(vstd::utf8::encode_utf8(text::utf16_lossy(crate::keys::utf16_units(b.skip(2), true))))
    } else if b.len() >= 2 && b[0] == 0xFE && b[1] == 0xFF {
        Some(vstd::utf8::encode_utf8(text::utf16_lossy(crate::keys::utf16_units(b.skip(2), false))))
    } else if b.take(if b.len() < BINARY_SNIFF_BYTES { b.len() as int } else { BINARY_SNIFF_BYTES as int }).contains(0u8) {
        None
    } else {
        Some(b)
    }
}

pub fn text_candidate(bytes: &[u8]) -> (r: Option<Vec<u8>>)
    ensures
        match text_candidate_spec(bytes@) {
            Some(t) => r matches Some(v) && v@ == t,
            None => r is None,
        },
{
    if bytes.len() == 0 {
        return None;
    }
    if bytes.len() >= 2 && bytes[0] == 0xFF && bytes[1] == 0xFE {
        let units = crate::keys::utf16_units_exec(bytes, 2, true);
        let s = text::from_utf16_lossy(units.as_slice());
        return Some(bytes_of(s.as_str()));
    }
    if bytes.len() >= 2 && bytes[0] == 0xFE && bytes[1] == 0xFF {
        let units = crate::keys::utf16_units_exec(bytes, 2, false);
        let s = text::from_utf16_lossy(units.as_slice());
        return Some(bytes_of(s.as_str()));
    }
    let sniff = if bytes.len() < BINARY_SNIFF_BYTES {
        bytes.len()
    } else {
        BINARY_SNIFF_BYTES
    };
    let ghost head = bytes@.take(sniff as int);
    let mut i: usize = 0;
    while i < sniff
        invariant
            i <= sniff,
            sniff <= bytes.len(),
            bytes.len() > 0,
            !(bytes@.len() >= 2 && bytes@[0] == 0xFF && bytes@[1] == 0xFE),
            !(bytes@.len() >= 2 && bytes@[0] == 0xFE && bytes@[1] == 0xFF),
            sniff == (if bytes@.len() < BINARY_SNIFF_BYTES { bytes@.len() as int } else { BINARY_SNIFF_BYTES as int }),
            head == bytes@.take(sniff as int),
            forall|k: int| 0 <= k < i ==> head[k] != 0u8,
        decreases sniff - i,
    {
        if bytes[i] == 0 {
            assert(head[i as int] == 0u8);
            return None;
        }
        i += 1;
    }
    assert(!head.contains(0u8));
    let mut v: Vec<u8> = Vec::new();
    let mut j: usize = 0;
    while j < bytes.len()
        invariant
            j <= bytes.len(),
            v@ == bytes@.take(j as int),
        decreases bytes.len() - j,
    {
        v.push(bytes[j]);
        j += 1;
        assert(v@ =~= bytes@.take(j as int));
    }
    assert(bytes@.take(bytes.len() as int) =~= bytes@);
    Some(v)
}

// ---------------------------------------------------------------------------
// The first matching line
// ---------------------------------------------------------------------------

/// The lines of the bytes, split at `\n` (a final line is always there,
/// possibly empty).
pub open spec fn byte_lines(b: Seq<u8>) -> Seq<Seq<u8>>
    decreases b.len(),
{
    if b.len() == 0 {
        seq![seq![]]
    } else {
        let p = byte_lines(b.drop_last());
        if b.last() == 10u8 {
            p.push(seq![])
        } else {
            p.update(p.len() - 1, p.last().push(b.last()))
        }
    }
}

proof fn lemma_byte_lines_len(b: Seq<u8>)
    ensures
        1 <= byte_lines(b).len() <= b.len() + 1,
    decreases b.len(),
{
    if b.len() > 0 {
        lemma_byte_lines_len(b.drop_last());
    }
}

pub open spec fn lines_view(v: Seq<Vec<u8>>) -> Seq<Seq<u8>> {
    v.map_values(|l: Vec<u8>| l@)
}

fn byte_lines_exec(b: &[u8]) -> (r: Vec<Vec<u8>>)
    ensures
        lines_view(r@) == byte_lines(b@),
{
    let mut parts: Vec<Vec<u8>> = Vec::new();
    let mut cur: Vec<u8> = Vec::new();
    let mut i: usize = 0;
    assert(b@.take(0) =~= Seq::<u8>::empty());
    while i < b.len()
        invariant
            i <= b.len(),
            lines_view(parts@).push(cur@) == byte_lines(b@.take(i as int)),
        decreases b.len() - i,
    {
        assert(b@.take(i + 1).drop_last() =~= b@.take(i as int));
        assert(b@.take(i + 1).last() == b@[i as int]);
        proof {
            lemma_byte_lines_len(b@.take(i as int));
        }
        let ghost before = lines_view(parts@).push(cur@);
        if b[i] == 10 {
            let done = cur;
            parts.push(done);
            cur = Vec::new();
            assert(lines_view(parts@).push(cur@) =~= before.push(seq![]));
        } else {
            cur.push(b[i]);
            assert(lines_view(parts@).push(cur@) =~= before.update(before.len() - 1, before.last().push(b@[i as int])));
        }
        i += 1;
    }
    assert(b@.take(b.len() as int) =~= b@);
    parts.push(cur);
    parts
}

/// The first token found in the line.
pub open spec fn first_token(line: Seq<u8>, tokens: Seq<Seq<u8>>, t: int) -> Option<int>
    decreases tokens.len() - t,
{
    if t < 0 || t >= tokens.len() {
        None
    } else if find_ci_spec(line, tokens[t], false) is Some {
        Some(t)
    } else {
        first_token(line, tokens, t + 1)
    }
}

/// The 1-based number of the first line that holds a token, with its
/// snippet; `(0, "")` when none does.
pub open spec fn locate_from(lines: Seq<Seq<u8>>, tokens: Seq<Seq<u8>>, i: int) -> (nat, Seq<char>)
    decreases lines.len() - i,
{
    if i < 0 || i >= lines.len() {
        (0, seq![])
    } else {
        match first_token(lines[i], tokens, 0) {
            Some(t) => ((i + 1) as nat, excerpt_spec(lines[i], tokens[t])),
            None => locate_from(lines, tokens, i + 1),
        }
    }
}

pub open spec fn locate_spec(bytes: Seq<u8>, tokens: Seq<Seq<u8>>) -> (nat, Seq<char>) {
    locate_from(byte_lines(bytes), tokens, 0)
}

proof fn lemma_first_token_bounds(line: Seq<u8>, tokens: Seq<Seq<u8>>, t: int)
    requires
        0 <= t,
    ensures
        first_token(line, tokens, t) matches Some(k) ==> t <= k < tokens.len(),
    decreases tokens.len() - t,
{
    if t < tokens.len() {
        lemma_first_token_bounds(line, tokens, t + 1);
    }
}

pub fn locate(bytes: &[u8], tokens: &Vec<Vec<u8>>) -> (r: (u32, Vec<char>))
    requires
        bytes.len() < 0xFFFF_FFFF,
    ensures
        (r.0 as nat, r.1@) == locate_spec(bytes@, lines_view(tokens@)),
{
    let lines = byte_lines_exec(bytes);
    proof {
        lemma_byte_lines_len(bytes@);
    }
    let ghost lv = lines_view(lines@);
    let ghost tv = lines_view(tokens@);
    let mut i: usize = 0;
    while i < lines.len()
        invariant
            i <= lines.len(),
            lines.len() <= bytes.len() + 1,
            bytes.len() < 0xFFFF_FFFF,
            lv == lines_view(lines@),
            lv == byte_lines(bytes@),
            tv == lines_view(tokens@),
            locate_spec(bytes@, tv) == locate_from(lv, tv, i as int),
        decreases lines.len() - i,
    {
        let line = &lines[i];
        assert(lv[i as int] == line@);
        let mut t: usize = 0;
        while t < tokens.len()
            invariant
                t <= tokens.len(),
                i < lines.len(),
                lines.len() <= bytes.len() + 1,
                bytes.len() < 0xFFFF_FFFF,
                lv == lines_view(lines@),
                *line == lines@[i as int],
                tv == lines_view(tokens@),
                locate_spec(bytes@, tv) == locate_from(lv, tv, i as int),
                first_token(line@, tv, 0) == first_token(line@, tv, t as int),
            decreases tokens.len() - t,
        {
            assert(tv[t as int] == tokens@[t as int]@);
            if find_ci(line.as_slice(), tokens[t].as_slice(), false).is_some() {
                let ex = excerpt_of(line.as_slice(), tokens[t].as_slice());
                return ((i + 1) as u32, ex);
            }
            t += 1;
        }
        i += 1;
    }
    (0, Vec::new())
}

// ---------------------------------------------------------------------------
// One file
// ---------------------------------------------------------------------------

/// What a file that counts as a hit matched.
#[derive(Debug, Clone)]
pub struct FileMatch {
    pub matched_hosts: Vec<String>,
    pub matched_system_ids: Vec<String>,
    pub matched_usernames: Vec<String>,
    pub score: u8,
    pub first_line: u32,
    pub excerpt: String,
}

pub open spec fn strings_bytes(v: Seq<Seq<char>>) -> Seq<Seq<u8>> {
    v.map_values(|s: Seq<char>| vstd::utf8::encode_utf8(s))
}

/// A file matches when enough kinds of terms occur in it: hosts anywhere,
/// system IDs and user names not glued to a letter or digit. The snippet is
/// the first line holding any matched term.
pub open spec fn evaluate_rel(bytes: Seq<u8>, hosts: Seq<Seq<char>>, sids: Seq<Seq<char>>, users: Seq<Seq<char>>, needed: nat, r: Option<FileMatch>) -> bool {
    let mh = matched_spec(bytes, hosts, false);
    let ms = matched_spec(bytes, sids, true);
    let mu = matched_spec(bytes, users, true);
    let score = (if mh.len() > 0 { 1nat } else { 0nat }) + (if ms.len() > 0 { 1nat } else { 0nat }) + (if mu.len() > 0 { 1nat } else { 0nat });
    if score < needed {
        r is None
    } else {
        let loc = locate_spec(bytes, strings_bytes(mh + ms + mu));
        r matches Some(m) && strings_view(m.matched_hosts@) == mh && strings_view(m.matched_system_ids@) == ms
            && strings_view(m.matched_usernames@) == mu && m.score == score && m.first_line == loc.0
            && m.excerpt@ == loc.1
    }
}

pub fn evaluate(bytes: &[u8], hosts: &Vec<String>, system_ids: &Vec<String>, usernames: &Vec<String>, needed: usize) -> (r: Option<FileMatch>)
    requires
        bytes.len() < 0xFFFF_FFFF,
    ensures
        evaluate_rel(bytes@, strings_view(hosts@), strings_view(system_ids@), strings_view(usernames@), needed as nat, r),
{
    let mh = matched_values(bytes, hosts, false);
    let ms = matched_values(bytes, system_ids, true);
    let mu = matched_values(bytes, usernames, true);
    let mut score: u8 = 0;
    if mh.len() > 0 {
        score += 1;
    }
    if ms.len() > 0 {
        score += 1;
    }
    if mu.len() > 0 {
        score += 1;
    }
    if (score as usize) < needed {
        return None;
    }
    let ghost all = strings_view(mh@) + strings_view(ms@) + strings_view(mu@);
    let mut tokens: Vec<Vec<u8>> = Vec::new();
    let mut k: usize = 0;
    while k < mh.len()
        invariant
            k <= mh.len(),
            lines_view(tokens@) == strings_bytes(strings_view(mh@)).take(k as int),
        decreases mh.len() - k,
    {
        let ghost before = lines_view(tokens@);
        tokens.push(bytes_of(mh[k].as_str()));
        assert(lines_view(tokens@) =~= before.push(vstd::utf8::encode_utf8(mh@[k as int]@)));
        k += 1;
        assert(lines_view(tokens@) =~= strings_bytes(strings_view(mh@)).take(k as int));
    }
    let mut k: usize = 0;
    while k < ms.len()
        invariant
            k <= ms.len(),
            lines_view(tokens@) == strings_bytes(strings_view(mh@)) + strings_bytes(strings_view(ms@)).take(k as int),
        decreases ms.len() - k,
    {
        let ghost before = lines_view(tokens@);
        tokens.push(bytes_of(ms[k].as_str()));
        assert(lines_view(tokens@) =~= before.push(vstd::utf8::encode_utf8(ms@[k as int]@)));
        k += 1;
        assert(lines_view(tokens@) =~= strings_bytes(strings_view(mh@)) + strings_bytes(strings_view(ms@)).take(k as int));
    }
    let mut k: usize = 0;
    while k < mu.len()
        invariant
            k <= mu.len(),
            lines_view(tokens@) == strings_bytes(strings_view(mh@)) + strings_bytes(strings_view(ms@)) + strings_bytes(strings_view(mu@)).take(k as int),
        decreases mu.len() - k,
    {
        let ghost before = lines_view(tokens@);
        tokens.push(bytes_of(mu[k].as_str()));
        assert(lines_view(tokens@) =~= before.push(vstd::utf8::encode_utf8(mu@[k as int]@)));
        k += 1;
        assert(lines_view(tokens@) =~= strings_bytes(strings_view(mh@)) + strings_bytes(strings_view(ms@)) + strings_bytes(strings_view(mu@)).take(k as int));
    }
    assert(lines_view(tokens@) =~= strings_bytes(all));
    let (first_line, excerpt) = locate(bytes, &tokens);
    Some(FileMatch {
        matched_hosts: mh,
        matched_system_ids: ms,
        matched_usernames: mu,
        score,
        first_line,
        excerpt: text::string_of(&excerpt),
    })
}

} // verus!

verus! {

// ---------------------------------------------------------------------------
// Which directories and files are read
// ---------------------------------------------------------------------------

/// Directories that never hold hand-written credentials but can hold tens of
/// thousands of files, by lower-case name.
pub open spec fn skip_dir_names() -> Seq<Seq<char>> {
    seq![
        "node_modules"@, ".git"@, ".svn"@, ".hg"@, "__pycache__"@, ".venv"@, "venv"@, ".gradle"@, ".m2"@,
        ".nuget"@, ".npm"@, ".cargo"@, ".rustup"@, ".conda"@, "$recycle.bin"@, "system volume information"@,
        "target"@, "crashdumps"@, "webcache"@, "gpucache"@, "code cache"@, "shadercache"@, "d3dscache"@,
    ]
}

fn skip_dir_names_exec() -> (r: Vec<&'static str>)
    ensures
        r@.map_values(|s: &str| s@) == skip_dir_names(),
{
    let r = vec![
        "node_modules", ".git", ".svn", ".hg", "__pycache__", ".venv", "venv", ".gradle", ".m2",
        ".nuget", ".npm", ".cargo", ".rustup", ".conda", "$recycle.bin", "system volume information",
        "target", "crashdumps", "webcache", "gpucache", "code cache", "shadercache", "d3dscache",
    ];
    assert(r@.map_values(|s: &str| s@) =~= skip_dir_names());
    r
}

/// Known binary extensions, skipped unless a list of extensions is given.
pub open spec fn binary_extensions() -> Seq<Seq<char>> {
    seq![
        "exe"@, "dll"@, "sys"@, "msi"@, "cab"@, "zip"@, "7z"@, "rar"@, "gz"@, "tar"@, "bz2"@, "xz"@, "png"@,
        "jpg"@, "jpeg"@, "gif"@, "bmp"@, "ico"@, "webp"@, "tif"@, "tiff"@, "svgz"@, "mp3"@, "mp4"@, "avi"@,
        "mkv"@, "mov"@, "wav"@, "flac"@, "iso"@, "img"@, "vhd"@, "vhdx"@, "bin"@, "dat"@, "db"@, "sqlite"@,
        "sqlite3"@, "ldb"@, "pf"@, "etl"@, "evtx"@, "pak"@, "woff"@, "woff2"@, "ttf"@, "otf"@, "pdf"@, "doc"@,
        "docx"@, "xls"@, "xlsx"@, "ppt"@, "pptx"@, "class"@, "jar"@, "pyc"@, "pyd"@, "so"@, "o"@, "obj"@, "pdb"@,
    ]
}

fn binary_extensions_exec() -> (r: Vec<&'static str>)
    ensures
        r@.map_values(|s: &str| s@) == binary_extensions(),
{
    let r = vec![
        "exe", "dll", "sys", "msi", "cab", "zip", "7z", "rar", "gz", "tar", "bz2", "xz", "png",
        "jpg", "jpeg", "gif", "bmp", "ico", "webp", "tif", "tiff", "svgz", "mp3", "mp4", "avi",
        "mkv", "mov", "wav", "flac", "iso", "img", "vhd", "vhdx", "bin", "dat", "db", "sqlite",
        "sqlite3", "ldb", "pf", "etl", "evtx", "pak", "woff", "woff2", "ttf", "otf", "pdf", "doc",
        "docx", "xls", "xlsx", "ppt", "pptx", "class", "jar", "pyc", "pyd", "so", "o", "obj", "pdb",
    ];
    assert(r@.map_values(|s: &str| s@) =~= binary_extensions());
    r
}

fn in_list(list: &Vec<&'static str>, x: &Vec<char>) -> (r: bool)
    ensures
        r == list@.map_values(|s: &str| s@).contains(x@),
{
    let ghost lv = list@.map_values(|s: &str| s@);
    let mut i: usize = 0;
    while i < list.len()
        invariant
            i <= list.len(),
            lv == list@.map_values(|s: &str| s@),
            forall|k: int| 0 <= k < i ==> lv[k] != x@,
        decreases list.len() - i,
    {
        let item = text::chars_of(list[i]);
        if text::seq_eq(&item, x) {
            assert(lv[i as int] == x@);
            return true;
        }
        i += 1;
    }
    false
}

fn in_strings(list: &Vec<String>, x: &Vec<char>) -> (r: bool)
    ensures
        r == strings_view(list@).contains(x@),
{
    let ghost lv = strings_view(list@);
    let mut i: usize = 0;
    while i < list.len()
        invariant
            i <= list.len(),
            lv == strings_view(list@),
            forall|k: int| 0 <= k < i ==> lv[k] != x@,
        decreases list.len() - i,
    {
        let item = text::chars_of_string(&list[i]);
        if text::seq_eq(&item, x) {
            assert(lv[i as int] == x@);
            return true;
        }
        i += 1;
    }
    false
}

/// Skipped directories, as compared: without trailing `\`, in ASCII lower
/// case, blank ones dropped.
pub open spec fn skip_prefixes_spec(paths: Seq<Seq<char>>) -> Seq<Seq<char>>
    decreases paths.len(),
{
    if paths.len() == 0 {
        seq![]
    } else {
        let p = lower_seq(text::trim_end_char(paths.last(), '\\'));
        skip_prefixes_spec(paths.drop_last()) + if p.len() > 0 { seq![p] } else { seq![] }
    }
}

pub fn skip_prefixes(paths: &Vec<String>) -> (r: Vec<String>)
    ensures
        strings_view(r@) == skip_prefixes_spec(strings_view(paths@)),
{
    let ghost pv = strings_view(paths@);
    let mut out: Vec<String> = Vec::new();
    let mut i: usize = 0;
    assert(pv.take(0) =~= Seq::<Seq<char>>::empty());
    assert(strings_view(out@) =~= Seq::<Seq<char>>::empty());
    while i < paths.len()
        invariant
            i <= paths.len(),
            pv == strings_view(paths@),
            strings_view(out@) == skip_prefixes_spec(pv.take(i as int)),
        decreases paths.len() - i,
    {
        assert(pv.take(i + 1).drop_last() =~= pv.take(i as int));
        assert(pv.take(i + 1).last() == paths@[i as int]@);
        let p = text::to_lower(&text::trim_end_char_exec(&text::chars_of_string(&paths[i]), '\\'));
        let ghost before = strings_view(out@);
        if p.len() > 0 {
            out.push(text::string_of(&p));
            assert(strings_view(out@) =~= before.push(p@));
        }
        i += 1;
        assert(strings_view(out@) =~= skip_prefixes_spec(pv.take(i as int)));
    }
    assert(pv.take(paths.len() as int) =~= pv);
    out
}

/// A directory is walked unless its name is a skipped one, or it is not the
/// root and its path (without trailing `\`, lower case) starts with a
/// skipped prefix.
pub open spec fn dir_allowed_spec(name: Seq<char>, full: Seq<char>, is_root: bool, prefixes: Seq<Seq<char>>) -> bool {
    let f = lower_seq(text::trim_end_char(full, '\\'));
    !skip_dir_names().contains(lower_seq(name)) && (is_root || !(exists|k: int| 0 <= k < prefixes.len() && text::starts_with(f, #[trigger] prefixes[k])))
}

pub fn dir_allowed(name: &str, full: &str, is_root: bool, prefixes: &Vec<String>) -> (r: bool)
    ensures
        r == dir_allowed_spec(name@, full@, is_root, strings_view(prefixes@)),
{
    let n = text::to_lower(&text::chars_of(name));
    if in_list(&skip_dir_names_exec(), &n) {
        return false;
    }
    if is_root {
        return true;
    }
    let f = text::to_lower(&text::trim_end_char_exec(&text::chars_of(full), '\\'));
    let ghost pv = strings_view(prefixes@);
    let mut i: usize = 0;
    while i < prefixes.len()
        invariant
            i <= prefixes.len(),
            pv == strings_view(prefixes@),
            f@ == lower_seq(text::trim_end_char(full@, '\\')),
            !skip_dir_names().contains(lower_seq(name@)),
            !is_root,
            forall|k: int| 0 <= k < i ==> !text::starts_with(f@, #[trigger] pv[k]),
        decreases prefixes.len() - i,
    {
        let p = text::chars_of_string(&prefixes[i]);
        if text::starts_with_vec(&f, &p) {
            assert(text::starts_with(f@, pv[i as int]));
            return false;
        }
        i += 1;
    }
    true
}

/// The extensions a scan is limited to, as compared: leading dots dropped,
/// ASCII lower case, blank ones dropped.
pub open spec fn extensions_spec(exts: Seq<Seq<char>>) -> Seq<Seq<char>>
    decreases exts.len(),
{
    if exts.len() == 0 {
        seq![]
    } else {
        let e = lower_seq(text::trim_start_char(exts.last(), '.'));
        extensions_spec(exts.drop_last()) + if e.len() > 0 { seq![e] } else { seq![] }
    }
}

pub fn only_extensions(exts: &Vec<String>) -> (r: Vec<String>)
    ensures
        strings_view(r@) == extensions_spec(strings_view(exts@)),
{
    let ghost ev = strings_view(exts@);
    let mut out: Vec<String> = Vec::new();
    let mut i: usize = 0;
    assert(ev.take(0) =~= Seq::<Seq<char>>::empty());
    assert(strings_view(out@) =~= Seq::<Seq<char>>::empty());
    while i < exts.len()
        invariant
            i <= exts.len(),
            ev == strings_view(exts@),
            strings_view(out@) == extensions_spec(ev.take(i as int)),
        decreases exts.len() - i,
    {
        assert(ev.take(i + 1).drop_last() =~= ev.take(i as int));
        assert(ev.take(i + 1).last() == exts@[i as int]@);
        let e = text::to_lower(&text::trim_start_char_exec(&text::chars_of_string(&exts[i]), '.'));
        let ghost before = strings_view(out@);
        if e.len() > 0 {
            out.push(text::string_of(&e));
            assert(strings_view(out@) =~= before.push(e@));
        }
        i += 1;
        assert(strings_view(out@) =~= extensions_spec(ev.take(i as int)));
    }
    assert(ev.take(exts.len() as int) =~= ev);
    out
}

/// What happens to a file with the (lower-case) extension.
#[derive(Debug, Clone, Copy, PartialEq, Eq)]
pub enum FileVerdict {
    Read,
    /// Not among the extensions the scan is limited to.
    Ignore,
    /// A known binary format: counted as skipped.
    Skip,
}

pub fn file_verdict(ext: &str, only: &Vec<String>) -> (r: FileVerdict)
    ensures
        only@.len() > 0 ==> (r == (if strings_view(only@).contains(ext@) { FileVerdict::Read } else { FileVerdict::Ignore })),
        only@.len() == 0 ==> (r == (if binary_extensions().contains(ext@) { FileVerdict::Skip } else { FileVerdict::Read })),
{
    let e = text::chars_of(ext);
    if only.len() > 0 {
        if in_strings(only, &e) {
            FileVerdict::Read
        } else {
            FileVerdict::Ignore
        }
    } else if in_list(&binary_extensions_exec(), &e) {
        FileVerdict::Skip
    } else {
        FileVerdict::Read
    }
}

// ---------------------------------------------------------------------------
// Order of the hits
// ---------------------------------------------------------------------------

/// `a` is listed before `b`: higher score, then more matched hosts, then the
/// path in `String` order.
pub open spec fn hit_before(a: ScanHit, b: ScanHit) -> bool {
    a.score > b.score || (a.score == b.score && (a.matched_hosts@.len() > b.matched_hosts@.len() || (
    a.matched_hosts@.len() == b.matched_hosts@.len() && crate::saplogon::seq_lt(a.path@, b.path@))))
}

pub open spec fn insert_hit(s: Seq<ScanHit>, x: ScanHit) -> Seq<ScanHit>
    decreases s.len(),
{
    if s.len() == 0 {
        seq![x]
    } else if hit_before(x, s.last()) {
        insert_hit(s.drop_last(), x).push(s.last())
    } else {
        s.push(x)
    }
}

/// The hits in listing order; equal ones keep their order (a stable sort).
pub open spec fn sort_hits_spec(s: Seq<ScanHit>) -> Seq<ScanHit>
    decreases s.len(),
{
    if s.len() == 0 {
        seq![]
    } else {
        insert_hit(sort_hits_spec(s.drop_last()), s.last())
    }
}

/// The hits are in listing order: none should come before one listed
/// earlier.
pub open spec fn hits_in_order(s: Seq<ScanHit>) -> bool {
    forall|i: int, j: int| 0 <= i < j < s.len() ==> !hit_before(#[trigger] s[j], #[trigger] s[i])
}

/// Of three hits, one listed before a third is listed before the middle one
/// or the middle one before the third.
proof fn lemma_hit_between(x: ScanHit, l: ScanHit, e: ScanHit)
    requires
        hit_before(x, e),
    ensures
        hit_before(x, l) || hit_before(l, e),
{
    crate::saplogon::lemma_seq_lt_total(x.path@, l.path@);
    crate::saplogon::lemma_seq_lt_total(l.path@, e.path@);
    crate::saplogon::lemma_seq_lt_total(x.path@, e.path@);
    if x.path@ != l.path@ && l.path@ != e.path@ && crate::saplogon::seq_lt(l.path@, x.path@) && crate::saplogon::seq_lt(
        e.path@,
        l.path@,
    ) {
        crate::saplogon::lemma_seq_lt_transitive(e.path@, l.path@, x.path@);
    }
}

proof fn lemma_hit_asymmetric(a: ScanHit, b: ScanHit)
    requires
        hit_before(a, b),
    ensures
        !hit_before(b, a),
{
    crate::saplogon::lemma_seq_lt_total(a.path@, b.path@);
}

proof fn lemma_insert_hit(s: Seq<ScanHit>, x: ScanHit)
    requires
        hits_in_order(s),
    ensures
        hits_in_order(insert_hit(s, x)),
        insert_hit(s, x).to_multiset() == s.to_multiset().insert(x),
    decreases s.len(),
{
    broadcast use vstd::seq_lib::group_to_multiset_ensures;
    if s.len() == 0 {
        assert(seq![x] =~= Seq::<ScanHit>::empty().push(x));
    } else {
        let l = s.last();
        let d = s.drop_last();
        assert(d.push(l) =~= s);
        assert(hits_in_order(d));
        if hit_before(x, l) {
            lemma_insert_hit(d, x);
            let t = insert_hit(d, x);
            assert(t.push(l).to_multiset() =~= s.to_multiset().insert(x)) by {
                assert(d.to_multiset().insert(x).insert(l) =~= d.to_multiset().insert(l).insert(x));
            }
            assert forall|i: int, j: int| 0 <= i < j < t.push(l).len() implies !hit_before(#[trigger] t.push(l)[j], #[trigger] t.push(l)[i]) by {
                if j == t.len() {
                    let e = t[i];
                    assert(t.contains(e));
                    assert(t.to_multiset().count(e) > 0);
                    if e == x {
                        lemma_hit_asymmetric(x, l);
                    } else {
                        assert(d.to_multiset().count(e) > 0);
                        assert(d.contains(e));
                        let k = choose|k: int| 0 <= k < d.len() && d[k] == e;
                        assert(s[k] == e && s[s.len() - 1] == l);
                    }
                } else {
                    assert(t.push(l)[i] == t[i] && t.push(l)[j] == t[j]);
                }
            }
        } else {
            assert forall|i: int, j: int| 0 <= i < j < s.push(x).len() implies !hit_before(#[trigger] s.push(x)[j], #[trigger] s.push(x)[i]) by {
                if j == s.len() {
                    if i < s.len() - 1 {
                        assert(!hit_before(s[s.len() - 1], s[i]));
                        if hit_before(x, s[i]) {
                            lemma_hit_between(x, l, s[i]);
                        }
                    }
                } else {
                    assert(s.push(x)[i] == s[i] && s.push(x)[j] == s[j]);
                }
            }
        }
    }
}

/// Listing order: the sorted hits are in order, and they are the same hits,
/// each as often as before.
pub proof fn law_listing_order(s: Seq<ScanHit>)
    ensures
        hits_in_order(sort_hits_spec(s)),
        sort_hits_spec(s).to_multiset() == s.to_multiset(),
    decreases s.len(),
{
    broadcast use vstd::seq_lib::group_to_multiset_ensures;
    if s.len() == 0 {
        assert(s =~= Seq::<ScanHit>::empty());
    } else {
        law_listing_order(s.drop_last());
        lemma_insert_hit(sort_hits_spec(s.drop_last()), s.last());
        assert(s.drop_last().push(s.last()) =~= s);
    }
}

fn hit_before_exec(a: &ScanHit, b: &ScanHit) -> (r: bool)
    ensures
        r == hit_before(*a, *b),
{
    if a.score != b.score {
        return a.score > b.score;
    }
    if a.matched_hosts.len() != b.matched_hosts.len() {
        return a.matched_hosts.len() > b.matched_hosts.len();
    }
    crate::saplogon::seq_lt_exec(&text::chars_of_string(&a.path), &text::chars_of_string(&b.path))
}

fn insert_hit_exec(out: &mut Vec<ScanHit>, x: ScanHit)
    ensures
        final(out)@ == insert_hit(old(out)@, x),
{
    let ghost o = out@;
    let mut j: usize = out.len();
    let mut stop = false;
    assert(o.take(o.len() as int) =~= o);
    assert(o.skip(o.len() as int) =~= Seq::<ScanHit>::empty());
    while j > 0 && !stop
        invariant
            j <= out.len(),
            out@ == o,
            insert_hit(o, x) == insert_hit(o.take(j as int), x) + o.skip(j as int),
            stop ==> j > 0 && !hit_before(x, o[j - 1]),
        decreases j + (if stop { 0int } else { 1int }),
    {
        if hit_before_exec(&x, &out[j - 1]) {
            assert(o.take(j as int).drop_last() =~= o.take(j - 1));
            assert(o.take(j as int).last() == o[j - 1]);
            assert(o.skip(j - 1) =~= seq![o[j - 1]] + o.skip(j as int));
            j -= 1;
        } else {
            stop = true;
        }
    }
    if stop {
        assert(o.take(j as int).last() == o[j - 1]);
    }
    out.insert(j, x);
    assert(out@ =~= insert_hit(o, x));
}

pub fn sort_hits(hits: Vec<ScanHit>) -> (r: Vec<ScanHit>)
    ensures
        r@ == sort_hits_spec(hits@),
{
    let ghost h = hits@;
    let count = hits.len();
    assert(h.len() == count);
    let mut rest = hits;
    let mut out: Vec<ScanHit> = Vec::new();
    let mut i: usize = 0;
    assert(h.take(0) =~= Seq::<ScanHit>::empty());
    assert(h.skip(0) =~= h);
    while rest.len() > 0
        invariant
            i <= h.len(),
            h.len() <= usize::MAX,
            rest@ == h.skip(i as int),
            out@ == sort_hits_spec(h.take(i as int)),
        decreases rest.len(),
    {
        let x = rest.remove(0);
        assert(h.take(i + 1).drop_last() =~= h.take(i as int));
        assert(h.take(i + 1).last() == x);
        assert(rest@ =~= h.skip(i + 1));
        insert_hit_exec(&mut out, x);
        i += 1;
    }
    assert(h.take(i as int) =~= h);
    out
}

// ---------------------------------------------------------------------------
// A scan in progress
// ---------------------------------------------------------------------------

/// A scan in progress: the terms looked for, how many kinds must match,
/// what is skipped, the limits, and the report so far. The walk over the
/// directories hands it each file; it decides what is read and counts.
pub struct ScanRun {
    pub hosts: Vec<String>,
    pub system_ids: Vec<String>,
    pub usernames: Vec<String>,
    pub needed: usize,
    pub skip_prefixes: Vec<String>,
    pub only_extensions: Vec<String>,
    pub max_files: usize,
    pub max_file_bytes: u64,
    pub report: ScanReport,
}

/// What happens to a file the walk reached.
#[derive(Debug, Clone, Copy, PartialEq, Eq)]
pub enum FileStep {
    /// The file limit is reached: the scan ends here.
    Stop,
    /// The file is passed over.
    Pass,
    /// The file is read and handed to [`ScanRun::file_content`].
    Read,
}

/// `n + 1`, staying at the largest count.
pub open spec fn bump(n: usize) -> usize {
    if n < usize::MAX {
        (n + 1) as usize
    } else {
        n
    }
}

/// What holds of a scan at every step: no more files read than the limit,
/// and each listed hit matches at least the needed number of kinds.
pub open spec fn scan_sound(run: ScanRun) -> bool {
    &&& run.report.scanned_files <= run.max_files
    &&& forall|i: int| 0 <= i < run.report.hits@.len() ==> #[trigger] run.report.hits@[i].score >= run.needed
}

impl ScanRun {
    /// Prepares a scan: the roots (the default one when none is given), the
    /// terms normalised, how many kinds must match (an error when no kind is
    /// given), the skipped directories (`default_skips` and the extra ones)
    /// and extensions as compared, and an empty report.
    pub fn start(options: &ScanOptions, default_root: String, default_skips: Vec<String>, started_at: String) -> (r: Result<ScanRun, AppError>)
        ensures
            ({
                let hosts = normalize_terms(strings_view(options.hosts@), false);
                let sids = normalize_terms(strings_view(options.system_ids@), true);
                let users = normalize_terms(strings_view(options.usernames@), true);
                match needed_spec(options.strict, hosts.len(), sids.len(), users.len()) {
                    None => r matches Err(AppError::Msg(m)) && m@ == "没有可用的匹配条件：请至少提供系统 ID、用户名或主机名"@,
                    Some(n) => r matches Ok(run) && {
                        &&& strings_view(run.hosts@) == hosts
                        &&& strings_view(run.system_ids@) == sids
                        &&& strings_view(run.usernames@) == users
                        &&& run.needed == n
                        &&& strings_view(run.skip_prefixes@) == skip_prefixes_spec(strings_view(default_skips@) + strings_view(options.extra_skip_paths@))
                        &&& strings_view(run.only_extensions@) == extensions_spec(strings_view(options.only_extensions@))
                        &&& run.max_files == options.max_files
                        &&& run.max_file_bytes == options.max_file_bytes
                        &&& run.report.label == options.label
                        &&& (if options.roots@.len() == 0 { run.report.roots@ == seq![default_root] } else { strings_view(run.report.roots@) == strings_view(options.roots@) })
                        &&& run.report.scanned_files == 0 && run.report.skipped_files == 0
                        &&& run.report.hits@.len() == 0 && run.report.errors@.len() == 0
                        &&& !run.report.cancelled && !run.report.truncated
                        &&& run.report.elapsed_ms == 0
                        &&& run.report.started_at == started_at
                        &&& scan_sound(run)
                    },
                }
            }),
    {
        let hosts = normalize(&options.hosts, false);
        let system_ids = normalize(&options.system_ids, true);
        let usernames = normalize(&options.usernames, true);
        let needed = match needed_groups(options.strict, &hosts, &system_ids, &usernames) {
            Ok(n) => n,
            Err(e) => {
                return Err(e);
            },
        };
        let mut skips = default_skips;
        let mut extra = crate::state::copy_strings(&options.extra_skip_paths);
        let ghost sv = strings_view(skips@);
        skips.append(&mut extra);
        assert(strings_view(skips@) =~= sv + strings_view(options.extra_skip_paths@));
        let roots = if options.roots.len() == 0 {
            let mut v: Vec<String> = Vec::new();
            v.push(default_root);
            v
        } else {
            crate::state::copy_strings(&options.roots)
        };
        let report = ScanReport {
            label: options.label.clone(),
            roots,
            scanned_files: 0,
            skipped_files: 0,
            hits: Vec::new(),
            elapsed_ms: 0,
            cancelled: false,
            truncated: false,
            started_at,
            errors: Vec::new(),
        };
        Ok(ScanRun {
            hosts,
            system_ids,
            usernames,
            needed,
            skip_prefixes: skip_prefixes(&skips),
            only_extensions: only_extensions(&options.only_extensions),
            max_files: options.max_files,
            max_file_bytes: options.max_file_bytes,
            report,
        })
    }

    /// An error of the walk; only the first fifty are kept.
    pub fn walk_error(&mut self, message: String)
        ensures
            scan_sound(*old(self)) ==> scan_sound(*final(self)),
            final(self).report.errors@ == (if old(self).report.errors@.len() < MAX_WALK_ERRORS {
                old(self).report.errors@.push(message)
            } else {
                old(self).report.errors@
            }),
            final(self).report.hits == old(self).report.hits,
            final(self).report.scanned_files == old(self).report.scanned_files,
            final(self).report.skipped_files == old(self).report.skipped_files,
    {
        if self.report.errors.len() < MAX_WALK_ERRORS {
            self.report.errors.push(message);
        }
    }

    /// A root that is not a readable directory.
    pub fn missing_root(&mut self, root: &str)
        ensures
            scan_sound(*old(self)) ==> scan_sound(*final(self)),
            strings_view(final(self).report.errors@) == strings_view(old(self).report.errors@).push(
                "目录不存在或不可访问："@ + root@,
            ),
            final(self).report.hits == old(self).report.hits,
            final(self).report.scanned_files == old(self).report.scanned_files,
    {
        let mut m = text::chars_of("目录不存在或不可访问：");
        text::push_str(&mut m, root);
        let ghost before = strings_view(self.report.errors@);
        self.report.errors.push(text::string_of(&m));
        assert(strings_view(self.report.errors@) =~= before.push("目录不存在或不可访问："@ + root@));
    }

    /// The user cancelled the scan.
    pub fn cancel(&mut self)
        ensures
            scan_sound(*old(self)) ==> scan_sound(*final(self)),
            final(self).report.cancelled,
            final(self).report.hits == old(self).report.hits,
            final(self).report.scanned_files == old(self).report.scanned_files,
    {
        self.report.cancelled = true;
    }

    /// Progress is reported every two hundred files read.
    pub fn progress_due(&self) -> (r: bool)
        ensures
            r == (self.report.scanned_files % 200 == 0),
    {
        self.report.scanned_files % 200 == 0
    }

    /// A file the walk reached, by its extension (lower case) and size
    /// (`None` when it could not be read): the scan stops at the file limit;
    /// a file outside the extensions looked at is passed over; a binary
    /// format, an unreadable, empty or too large file is passed over and
    /// counted as skipped; any other is read and counted.
    pub fn file_step(&mut self, ext: &str, size: Option<u64>) -> (r: FileStep)
        ensures
            scan_sound(*old(self)) ==> scan_sound(*final(self)),
            final(self).report.hits == old(self).report.hits,
            final(self).report.errors == old(self).report.errors,
            ({
                let o = old(self).report;
                let f = final(self).report;
                let only = strings_view(old(self).only_extensions@);
                if o.scanned_files >= old(self).max_files {
                    r == FileStep::Stop && f.truncated && f.scanned_files == o.scanned_files && f.skipped_files == o.skipped_files
                } else if only.len() > 0 && !only.contains(ext@) {
                    r == FileStep::Pass && f.truncated == o.truncated && f.scanned_files == o.scanned_files && f.skipped_files
                        == o.skipped_files
                } else if (only.len() == 0 && binary_extensions().contains(ext@)) || size is None || size == Some(0u64)
                    || (size matches Some(n) && n > old(self).max_file_bytes) {
                    r == FileStep::Pass && f.truncated == o.truncated && f.scanned_files == o.scanned_files && f.skipped_files
                        == bump(o.skipped_files)
                } else {
                    r == FileStep::Read && f.truncated == o.truncated && f.scanned_files == o.scanned_files + 1
                        && f.skipped_files == o.skipped_files
                }
            }),
    {
        if self.report.scanned_files >= self.max_files {
            self.report.truncated = true;
            return FileStep::Stop;
        }
        match file_verdict(ext, &self.only_extensions) {
            FileVerdict::Ignore => {
                return FileStep::Pass;
            },
            FileVerdict::Skip => {
                self.skip();
                return FileStep::Pass;
            },
            FileVerdict::Read => {},
        }
        match size {
            None => {
                self.skip();
                FileStep::Pass
            },
            Some(n) => {
                if n == 0 || n > self.max_file_bytes {
                    self.skip();
                    FileStep::Pass
                } else {
                    self.report.scanned_files = self.report.scanned_files + 1;
                    FileStep::Read
                }
            },
        }
    }

    fn skip(&mut self)
        ensures
            final(self).report == (ScanReport { skipped_files: bump(old(self).report.skipped_files), ..old(self).report }),
            final(self).hosts == old(self).hosts,
            final(self).system_ids == old(self).system_ids,
            final(self).usernames == old(self).usernames,
            final(self).needed == old(self).needed,
            final(self).only_extensions == old(self).only_extensions,
            final(self).skip_prefixes == old(self).skip_prefixes,
            final(self).max_files == old(self).max_files,
            final(self).max_file_bytes == old(self).max_file_bytes,
    {
        if self.report.skipped_files < usize::MAX {
            self.report.skipped_files = self.report.skipped_files + 1;
        }
    }

    /// The text of a file that was read (`None` when it is not text; a text
    /// of four gigabytes or more is not searched): it is counted as skipped,
    /// or searched, and listed when it matches enough kinds of terms.
    pub fn file_content(&mut self, path: String, label: String, size: u64, modified_at: Option<String>, bytes: Option<Vec<u8>>)
        ensures
            scan_sound(*old(self)) ==> scan_sound(*final(self)),
            final(self).report.scanned_files == old(self).report.scanned_files,
            final(self).report.errors == old(self).report.errors,
            final(self).report.truncated == old(self).report.truncated,
            match bytes {
                Some(b) if b.len() < 0xFFFF_FFFF => final(self).report.skipped_files == old(self).report.skipped_files && exists|m: Option<FileMatch>|
                    evaluate_rel(
                        b@,
                        strings_view(old(self).hosts@),
                        strings_view(old(self).system_ids@),
                        strings_view(old(self).usernames@),
                        old(self).needed as nat,
                        m,
                    ) && match m {
                        None => final(self).report.hits == old(self).report.hits,
                        Some(fm) => final(self).report.hits@ == old(self).report.hits@.push(
                            ScanHit {
                                path,
                                label,
                                size,
                                modified_at,
                                matched_hosts: fm.matched_hosts,
                                matched_system_ids: fm.matched_system_ids,
                                matched_usernames: fm.matched_usernames,
                                score: fm.score,
                                first_line: fm.first_line,
                                excerpt: fm.excerpt,
                            },
                        ),
                    },
                _ => final(self).report.skipped_files == bump(old(self).report.skipped_files) && final(self).report.hits
                    == old(self).report.hits,
            },
    {
        match bytes {
            Some(b) => {
                if b.len() >= 0xFFFF_FFFF {
                    self.skip();
                    return;
                }
                let m = evaluate(b.as_slice(), &self.hosts, &self.system_ids, &self.usernames, self.needed);
                match m {
                    None => {},
                    Some(fm) => {
                        self.report.hits.push(ScanHit {
                            path,
                            label,
                            size,
                            modified_at,
                            matched_hosts: fm.matched_hosts,
                            matched_system_ids: fm.matched_system_ids,
                            matched_usernames: fm.matched_usernames,
                            score: fm.score,
                            first_line: fm.first_line,
                            excerpt: fm.excerpt,
                        });
                    },
                }
            },
            None => {
                self.skip();
            },
        }
    }

    /// The report: the hits in order (see [`hit_before`]) and the time the
    /// scan took.
    pub fn finish(self, elapsed_ms: u64) -> (r: ScanReport)
        ensures
            r == (ScanReport { hits: r.hits, elapsed_ms, ..self.report }),
            r.hits@ == sort_hits_spec(self.report.hits@),
            r.hits@.to_multiset() == self.report.hits@.to_multiset(),
            hits_in_order(r.hits@),
            scan_sound(self) ==> r.scanned_files <= self.max_files && forall|i: int|
                0 <= i < r.hits@.len() ==> #[trigger] r.hits@[i].score >= self.needed,
    {
        proof {
            law_listing_order(self.report.hits@);
            broadcast use vstd::seq_lib::group_to_multiset_ensures;
            let h = self.report.hits@;
            let s = sort_hits_spec(h);
            if scan_sound(self) {
                assert forall|i: int| 0 <= i < s.len() implies #[trigger] s[i].score >= self.needed by {
                    assert(s.contains(s[i]));
                    assert(h.to_multiset().count(s[i]) > 0);
                    assert(h.contains(s[i]));
                }
            }
        }
        let ScanRun { report, .. } = self;
        let ScanReport { label, roots, scanned_files, skipped_files, hits, elapsed_ms: _, cancelled, truncated, started_at, errors } = report;
        let sorted = sort_hits(hits);
        ScanReport { label, roots, scanned_files, skipped_files, hits: sorted, elapsed_ms, cancelled, truncated, started_at, errors }
    }
}

// ---------------------------------------------------------------------------
// `%VAR%` placeholders
// ---------------------------------------------------------------------------

/// Every occurrence of `needle` (ignoring ASCII case), left to right,
/// replaced by `rep`.
pub open spec fn replace_ci(h: Seq<char>, n: Seq<char>, rep: Seq<char>) -> Seq<char>
    decreases h.len(),
{
    if n.len() == 0 {
        h
    } else {
        match text::find(lower_seq(h), lower_seq(n)) {
            Some(i) => if 0 <= i && i + n.len() <= h.len() {
                h.take(i) + rep + replace_ci(h.skip(i + n.len()), n, rep)
            } else {
                h
            },
            None => h,
        }
    }
}

pub fn replace_case_insensitive(h: &Vec<char>, n: &Vec<char>, rep: &Vec<char>) -> (r: Vec<char>)
    ensures
        r@ == replace_ci(h@, n@, rep@),
{
    if n.len() == 0 {
        return text::slice_of(h, 0, h.len());
    }
    let ln = text::to_lower(n);
    let mut out: Vec<char> = Vec::new();
    let mut rest = text::slice_of(h, 0, h.len());
    assert(rest@ =~= h@);
    while rest.len() > 0
        invariant
            n@.len() > 0,
            ln@ == lower_seq(n@),
            replace_ci(h@, n@, rep@) == out@ + replace_ci(rest@, n@, rep@),
        ensures
            replace_ci(h@, n@, rep@) == out@ + rest@,
        decreases rest.len(),
    {
        let lr = text::to_lower(&rest);
        proof {
            text::lemma_find_from_bounds(lr@, ln@, 0);
        }
        match text::find_vec(&lr, &ln) {
            None => {
                break;
            },
            Some(i) => {
                if i + n.len() > rest.len() {
                    break;
                }
                let head = text::slice_of(&rest, 0, i);
                text::push_all(&mut out, &head);
                text::push_all(&mut out, rep);
                let tail = text::slice_of(&rest, i + n.len(), rest.len());
                assert(tail@ =~= rest@.skip(i + n.len()));
                rest = tail;
            },
        }
    }
    proof {
        if rest@.len() == 0 {
            assert(lower_seq(rest@) =~= Seq::<char>::empty());
        }
    }
    text::push_all(&mut out, &rest);
    out
}

/// Each `%NAME%` of the variables (in their order) replaced by its value;
/// empty when a `%` is left over.
pub open spec fn expand_from(t: Seq<char>, vars: Seq<(Seq<char>, Seq<char>)>) -> Seq<char>
    decreases vars.len(),
{
    if vars.len() == 0 {
        t
    } else {
        let prev = expand_from(t, vars.drop_last());
        let token = seq!['%'] + vars.last().0 + seq!['%'];
        if text::contains(lower_seq(prev), lower_seq(token)) {
            replace_ci(prev, token, vars.last().1)
        } else {
            prev
        }
    }
}

pub open spec fn expand_spec(t: Seq<char>, vars: Seq<(Seq<char>, Seq<char>)>) -> Seq<char> {
    let e = expand_from(t, vars);
    if e.contains('%') {
        seq![]
    } else {
        e
    }
}

/// Expands `%VAR%` placeholders with the given variables.
pub fn expand_with(template: &str, vars: &Vec<(String, String)>) -> (r: String)
    ensures
        r@ == expand_spec(template@, crate::landscape::pairs_view(vars@)),
{
    let ghost vv = crate::landscape::pairs_view(vars@);
    let mut out = text::chars_of(template);
    let mut i: usize = 0;
    assert(vv.take(0) =~= Seq::<(Seq<char>, Seq<char>)>::empty());
    while i < vars.len()
        invariant
            i <= vars.len(),
            vv == crate::landscape::pairs_view(vars@),
            out@ == expand_from(template@, vv.take(i as int)),
        decreases vars.len() - i,
    {
        assert(vv.take(i + 1).drop_last() =~= vv.take(i as int));
        assert(vv.take(i + 1).last() == (vars@[i as int].0@, vars@[i as int].1@));
        let mut token: Vec<char> = Vec::new();
        token.push('%');
        text::push_all(&mut token, &text::chars_of_string(&vars[i].0));
        token.push('%');
        assert(token@ =~= seq!['%'] + vars@[i as int].0@ + seq!['%']);
        if text::contains_vec(&text::to_lower(&out), &text::to_lower(&token)) {
            out = replace_case_insensitive(&out, &token, &text::chars_of_string(&vars[i].1));
        }
        i += 1;
    }
    assert(vv.take(vars.len() as int) =~= vv);
    if text::has_char(&out, '%') {
        String::new()
    } else {
        text::string_of(&out)
    }
}

} // verus!
