//! Password rules: generation that satisfies a policy, and validation that
//! explains why a typed password does not.

use vstd::prelude::*;
use crate::model::{PasswordRule, strings_view, norm_min, norm_max, norm_lower, norm_digits, normalized_spec};
use crate::error::AppError;
use crate::crypto::random_index;
use vstd::string::StringSliceAdditionalSpecFns;
use crate::text::{self, decimal, is_lower, is_upper, is_digit, unicode_alphabetic, unicode_alphanumeric};

verus! {

/// Characters that look alike in most fonts (`O0oIl1|` and three quotes),
/// as byte values.
pub open spec fn is_ambiguous_byte(b: u32) -> bool {
    b == 79 || b == 48 || b == 111 || b == 73 || b == 108 || b == 49 || b == 124 || b == 96 || b
        == 39 || b == 34
}

/// The byte a character is compared with: its code point truncated to 8 bits.
pub open spec fn low_byte(c: char) -> u32 {
    (c as u32) % 256
}

pub open spec fn has_lower(pw: Seq<char>) -> bool {
    exists|i: int| 0 <= i < pw.len() && is_lower(#[trigger] pw[i])
}

pub open spec fn has_upper(pw: Seq<char>) -> bool {
    exists|i: int| 0 <= i < pw.len() && is_upper(#[trigger] pw[i])
}

pub open spec fn has_digit(pw: Seq<char>) -> bool {
    exists|i: int| 0 <= i < pw.len() && is_digit(#[trigger] pw[i])
}

pub open spec fn has_symbol(pw: Seq<char>) -> bool {
    exists|i: int| 0 <= i < pw.len() && !unicode_alphanumeric(#[trigger] pw[i])
}

/// The characters of `pw` that occur in `set`, in order.
pub open spec fn kept_in(pw: Seq<char>, set: Seq<char>) -> Seq<char>
    decreases pw.len(),
{
    if pw.len() == 0 {
        seq![]
    } else {
        kept_in(pw.drop_last(), set) + (if set.contains(pw.last()) {
            seq![pw.last()]
        } else {
            seq![]
        })
    }
}

/// The characters of `pw` whose low byte is an ambiguous one, in order.
pub open spec fn ambiguous_in(pw: Seq<char>) -> Seq<char>
    decreases pw.len(),
{
    if pw.len() == 0 {
        seq![]
    } else {
        ambiguous_in(pw.drop_last()) + (if is_ambiguous_byte(low_byte(pw.last())) {
            seq![pw.last()]
        } else {
            seq![]
        })
    }
}

pub open spec fn when(cond: bool, msg: Seq<char>) -> Seq<Seq<char>> {
    if cond {
        seq![msg]
    } else {
        seq![]
    }
}

/// Every problem of `pw` under the (normalized) rule, in a fixed order:
/// length, missing classes, forbidden characters, first character,
/// ambiguous characters.
pub open spec fn validate_spec(pw: Seq<char>, r: PasswordRule) -> Seq<Seq<char>> {
    if !r.enabled {
        seq![]
    } else {
        let n = pw.len();
        let forbidden = kept_in(pw, r.forbidden@);
        let ambiguous = ambiguous_in(pw);
        when(
            n < norm_min(r),
            "长度不足：至少 "@ + decimal(norm_min(r) as nat) + " 位（当前 "@ + decimal(n) + " 位）"@,
        ) + when(
            n > norm_max(r),
            "长度超限：最多 "@ + decimal(norm_max(r) as nat) + " 位（当前 "@ + decimal(n) + " 位）"@,
        ) + when(norm_lower(r) && !has_lower(pw), "缺少小写字母"@) + when(
            r.upper && !has_upper(pw),
            "缺少大写字母"@,
        ) + when(norm_digits(r) && !has_digit(pw), "缺少数字"@) + when(
            r.symbols && !has_symbol(pw),
            "缺少符号"@,
        ) + when(forbidden.len() > 0, "包含禁用字符："@ + forbidden) + when(
            r.start_with_letter && !(pw.len() > 0 && unicode_alphabetic(pw[0])),
            "必须以字母开头"@,
        ) + when(r.avoid_ambiguous && ambiguous.len() > 0, "包含易混淆字符："@ + ambiguous)
    }
}

proof fn lemma_kept_in_none_iff(pw: Seq<char>, set: Seq<char>)
    ensures
        kept_in(pw, set).len() == 0 <==> forall|i: int| 0 <= i < pw.len() ==> !set.contains(#[trigger] pw[i]),
    decreases pw.len(),
{
    if pw.len() > 0 {
        let d = pw.drop_last();
        lemma_kept_in_none_iff(d, set);
        assert forall|i: int| 0 <= i < d.len() implies d[i] == pw[i] by {}
        if forall|i: int| 0 <= i < pw.len() ==> !set.contains(#[trigger] pw[i]) {
            assert(!set.contains(pw[pw.len() - 1]));
        }
    }
}

proof fn lemma_ambiguous_none_iff(pw: Seq<char>)
    ensures
        ambiguous_in(pw).len() == 0 <==> forall|i: int| 0 <= i < pw.len() ==> !is_ambiguous_byte(low_byte(#[trigger] pw[i])),
    decreases pw.len(),
{
    if pw.len() > 0 {
        let d = pw.drop_last();
        lemma_ambiguous_none_iff(d);
        assert forall|i: int| 0 <= i < d.len() implies d[i] == pw[i] by {}
        if forall|i: int| 0 <= i < pw.len() ==> !is_ambiguous_byte(low_byte(#[trigger] pw[i])) {
            assert(!is_ambiguous_byte(low_byte(pw[pw.len() - 1])));
        }
    }
}

/// A password passes a rule exactly when it meets every demand of the rule:
/// a disabled rule passes everything; an enabled one (normalized) wants the
/// length within the bounds, an ASCII lower-case letter, an upper-case one
/// and a digit where those are asked for, a character that is not a letter
/// or digit where symbols are asked for, no forbidden character, a letter
/// first where that is asked for, and no ambiguous character where those
/// are to be avoided.
#[verifier::rlimit(60)]
pub proof fn law_password_passes_exactly_when(pw: Seq<char>, r: PasswordRule)
    ensures
        !r.enabled ==> validate_spec(pw, r).len() == 0,
        r.enabled ==> (validate_spec(pw, r).len() == 0 <==> {
            &&& norm_min(r) <= pw.len() <= norm_max(r)
            &&& norm_lower(r) ==> exists|i: int| 0 <= i < pw.len() && 'a' <= #[trigger] pw[i] && pw[i] <= 'z'
            &&& r.upper ==> exists|i: int| 0 <= i < pw.len() && 'A' <= #[trigger] pw[i] && pw[i] <= 'Z'
            &&& norm_digits(r) ==> exists|i: int| 0 <= i < pw.len() && '0' <= #[trigger] pw[i] && pw[i] <= '9'
            &&& r.symbols ==> exists|i: int| 0 <= i < pw.len() && !unicode_alphanumeric(#[trigger] pw[i])
            &&& forall|i: int| 0 <= i < pw.len() ==> !r.forbidden@.contains(#[trigger] pw[i])
            &&& r.start_with_letter ==> pw.len() > 0 && unicode_alphabetic(pw[0])
            &&& r.avoid_ambiguous ==> forall|i: int| 0 <= i < pw.len() ==> !is_ambiguous_byte(low_byte(#[trigger] pw[i]))
        }),
{
    lemma_kept_in_none_iff(pw, r.forbidden@);
    lemma_ambiguous_none_iff(pw);
}

proof fn lemma_concat_contains(a: Seq<Seq<char>>, b: Seq<Seq<char>>, x: Seq<char>)
    ensures
        (a + b).contains(x) <==> a.contains(x) || b.contains(x),
{
    if (a + b).contains(x) {
        let i = choose|i: int| 0 <= i < (a + b).len() && (a + b)[i] == x;
        if i < a.len() {
            assert(a[i] == x);
        } else {
            assert(b[i - a.len()] == x);
        }
    }
    if a.contains(x) {
        let i = choose|i: int| 0 <= i < a.len() && a[i] == x;
        assert((a + b)[i] == x);
    }
    if b.contains(x) {
        let i = choose|i: int| 0 <= i < b.len() && b[i] == x;
        assert((a + b)[a.len() + i] == x);
    }
}

proof fn lemma_when_contains(cond: bool, msg: Seq<char>, x: Seq<char>)
    ensures
        (when(cond, msg).contains(x) <==> cond && msg == x),
{
    if cond && msg == x {
        assert(when(cond, msg)[0] == x);
    }
}

/// Whether `x` is among the problems, for a message that starts neither
/// like a length message nor like a list of characters.
#[verifier::rlimit(40)]
proof fn lemma_fixed_problem_listed(pw: Seq<char>, r: PasswordRule, x: Seq<char>)
    requires
        r.enabled,
        x.len() > 0,
        x[0] != '长',
        x[0] != '包',
    ensures
        validate_spec(pw, r).contains(x) <==> ((norm_lower(r) && !has_lower(pw) && x == "缺少小写字母"@) || (r.upper
            && !has_upper(pw) && x == "缺少大写字母"@) || (norm_digits(r) && !has_digit(pw) && x == "缺少数字"@) || (r.symbols
            && !has_symbol(pw) && x == "缺少符号"@) || (r.start_with_letter && !(pw.len() > 0 && unicode_alphabetic(pw[0]))
            && x == "必须以字母开头"@)),
{
    reveal_strlit("长度不足：至少 ");
    reveal_strlit("长度超限：最多 ");
    reveal_strlit("包含禁用字符：");
    reveal_strlit("包含易混淆字符：");
    let n = pw.len();
    let forbidden = kept_in(pw, r.forbidden@);
    let ambiguous = ambiguous_in(pw);
    let m0 = "长度不足：至少 "@ + decimal(norm_min(r) as nat) + " 位（当前 "@ + decimal(n) + " 位）"@;
    let m1 = "长度超限：最多 "@ + decimal(norm_max(r) as nat) + " 位（当前 "@ + decimal(n) + " 位）"@;
    let m6 = "包含禁用字符："@ + forbidden;
    let m8 = "包含易混淆字符："@ + ambiguous;
    let w0 = when(n < norm_min(r), m0);
    let w1 = when(n > norm_max(r), m1);
    let w2 = when(norm_lower(r) && !has_lower(pw), "缺少小写字母"@);
    let w3 = when(r.upper && !has_upper(pw), "缺少大写字母"@);
    let w4 = when(norm_digits(r) && !has_digit(pw), "缺少数字"@);
    let w5 = when(r.symbols && !has_symbol(pw), "缺少符号"@);
    let w6 = when(forbidden.len() > 0, m6);
    let w7 = when(r.start_with_letter && !(pw.len() > 0 && unicode_alphabetic(pw[0])), "必须以字母开头"@);
    let w8 = when(r.avoid_ambiguous && ambiguous.len() > 0, m8);
    assert(validate_spec(pw, r) == w0 + w1 + w2 + w3 + w4 + w5 + w6 + w7 + w8);
    assert(m0[0] == '长' && m1[0] == '长' && m6[0] == '包' && m8[0] == '包');
    lemma_concat_contains(w0, w1, x);
    lemma_concat_contains(w0 + w1, w2, x);
    lemma_concat_contains(w0 + w1 + w2, w3, x);
    lemma_concat_contains(w0 + w1 + w2 + w3, w4, x);
    lemma_concat_contains(w0 + w1 + w2 + w3 + w4, w5, x);
    lemma_concat_contains(w0 + w1 + w2 + w3 + w4 + w5, w6, x);
    lemma_concat_contains(w0 + w1 + w2 + w3 + w4 + w5 + w6, w7, x);
    lemma_concat_contains(w0 + w1 + w2 + w3 + w4 + w5 + w6 + w7, w8, x);
    lemma_when_contains(n < norm_min(r), m0, x);
    lemma_when_contains(n > norm_max(r), m1, x);
    lemma_when_contains(norm_lower(r) && !has_lower(pw), "缺少小写字母"@, x);
    lemma_when_contains(r.upper && !has_upper(pw), "缺少大写字母"@, x);
    lemma_when_contains(norm_digits(r) && !has_digit(pw), "缺少数字"@, x);
    lemma_when_contains(r.symbols && !has_symbol(pw), "缺少符号"@, x);
    lemma_when_contains(forbidden.len() > 0, m6, x);
    lemma_when_contains(r.start_with_letter && !(pw.len() > 0 && unicode_alphabetic(pw[0])), "必须以字母开头"@, x);
    lemma_when_contains(r.avoid_ambiguous && ambiguous.len() > 0, m8, x);
}

/// Each missing class, and a first character that is not a letter, is
/// reported under its own message, and only then: `缺少小写字母`,
/// `缺少大写字母`, `缺少数字` and `缺少符号` each appear exactly when the
/// enabled rule asks for an ASCII lower-case letter, an upper-case one, a
/// digit, or a character that is neither letter nor digit, and the password
/// has none; `必须以字母开头` exactly when a leading letter is asked for and
/// the password does not start with one.
pub proof fn law_each_missing_class_is_reported(pw: Seq<char>, r: PasswordRule)
    ensures
        validate_spec(pw, r).contains("缺少小写字母"@) <==> r.enabled && norm_lower(r) && forall|i: int|
            0 <= i < pw.len() ==> !('a' <= #[trigger] pw[i] && pw[i] <= 'z'),
        validate_spec(pw, r).contains("缺少大写字母"@) <==> r.enabled && r.upper && forall|i: int|
            0 <= i < pw.len() ==> !('A' <= #[trigger] pw[i] && pw[i] <= 'Z'),
        validate_spec(pw, r).contains("缺少数字"@) <==> r.enabled && norm_digits(r) && forall|i: int|
            0 <= i < pw.len() ==> !('0' <= #[trigger] pw[i] && pw[i] <= '9'),
        validate_spec(pw, r).contains("缺少符号"@) <==> r.enabled && r.symbols && forall|i: int|
            0 <= i < pw.len() ==> unicode_alphanumeric(#[trigger] pw[i]),
        validate_spec(pw, r).contains("必须以字母开头"@) <==> r.enabled && r.start_with_letter && !(pw.len() > 0
            && unicode_alphabetic(pw[0])),
{
    reveal_strlit("缺少小写字母");
    reveal_strlit("缺少大写字母");
    reveal_strlit("缺少数字");
    reveal_strlit("缺少符号");
    reveal_strlit("必须以字母开头");
    let a = "缺少小写字母"@;
    let b = "缺少大写字母"@;
    let c = "缺少数字"@;
    let d = "缺少符号"@;
    let e = "必须以字母开头"@;
    assert(a[2] != b[2] && a[2] != c[2] && a[2] != d[2] && a[0] != e[0]);
    assert(b[2] != c[2] && b[2] != d[2] && b[0] != e[0]);
    assert(c[2] != d[2] && c[0] != e[0] && d[0] != e[0]);
    if r.enabled {
        lemma_fixed_problem_listed(pw, r, a);
        lemma_fixed_problem_listed(pw, r, b);
        lemma_fixed_problem_listed(pw, r, c);
        lemma_fixed_problem_listed(pw, r, d);
        lemma_fixed_problem_listed(pw, r, e);
    } else {
        assert(validate_spec(pw, r) =~= Seq::<Seq<char>>::empty());
    }
}

fn kept_in_exec(pw: &Vec<char>, set: &Vec<char>) -> (out: Vec<char>)
    ensures
        out@ == kept_in(pw@, set@),
{
    let mut out: Vec<char> = Vec::new();
    let mut i: usize = 0;
    assert(pw@.take(0) =~= Seq::<char>::empty());
    while i < pw.len()
        invariant
            i <= pw.len(),
            out@ == kept_in(pw@.take(i as int), set@),
        decreases pw.len() - i,
    {
        assert(pw@.take(i + 1).drop_last() =~= pw@.take(i as int));
        let c = pw[i];
        if text::has_char(set, c) {
            out.push(c);
        }
        i += 1;
        assert(out@ =~= kept_in(pw@.take(i as int), set@));
    }
    assert(pw@.take(pw.len() as int) =~= pw@);
    out
}

fn is_ambiguous(c: char) -> (r: bool)
    ensures
        r == is_ambiguous_byte(low_byte(c)),
{
    let b = (c as u32) % 256;
    b == 79 || b == 48 || b == 111 || b == 73 || b == 108 || b == 49 || b == 124 || b == 96 || b
        == 39 || b == 34
}

fn ambiguous_exec(pw: &Vec<char>) -> (out: Vec<char>)
    ensures
        out@ == ambiguous_in(pw@),
{
    let mut out: Vec<char> = Vec::new();
    let mut i: usize = 0;
    assert(pw@.take(0) =~= Seq::<char>::empty());
    while i < pw.len()
        invariant
            i <= pw.len(),
            out@ == ambiguous_in(pw@.take(i as int)),
        decreases pw.len() - i,
    {
        assert(pw@.take(i + 1).drop_last() =~= pw@.take(i as int));
        let c = pw[i];
        if is_ambiguous(c) {
            out.push(c);
        }
        i += 1;
        assert(out@ =~= ambiguous_in(pw@.take(i as int)));
    }
    assert(pw@.take(pw.len() as int) =~= pw@);
    out
}

/// Which of lower case, upper case, digit and symbol occur in `pw`.
fn classes_of(pw: &Vec<char>) -> (r: (bool, bool, bool, bool))
    ensures
        r.0 == has_lower(pw@),
        r.1 == has_upper(pw@),
        r.2 == has_digit(pw@),
        r.3 == has_symbol(pw@),
{
    let mut lower = false;
    let mut upper = false;
    let mut digit = false;
    let mut symbol = false;
    let mut i: usize = 0;
    while i < pw.len()
        invariant
            i <= pw.len(),
            lower == exists|k: int| 0 <= k < i && is_lower(#[trigger] pw@[k]),
            upper == exists|k: int| 0 <= k < i && is_upper(#[trigger] pw@[k]),
            digit == exists|k: int| 0 <= k < i && is_digit(#[trigger] pw@[k]),
            symbol == exists|k: int| 0 <= k < i && !unicode_alphanumeric(#[trigger] pw@[k]),
        decreases pw.len() - i,
    {
        let c = pw[i];
        if text::char_is_lower(c) {
            lower = true;
        }
        if text::char_is_upper(c) {
            upper = true;
        }
        if text::char_is_digit(c) {
            digit = true;
        }
        if !text::char_is_alphanumeric(c) {
            symbol = true;
        }
        i += 1;
    }
    (lower, upper, digit, symbol)
}

fn add_when(problems: &mut Vec<String>, cond: bool, msg: &Vec<char>)
    ensures
        strings_view(final(problems)@) == strings_view(old(problems)@) + when(cond, msg@),
{
    if cond {
        let ghost before = strings_view(problems@);
        problems.push(text::string_of(msg));
        assert(strings_view(problems@) =~= before + seq![msg@]);
    } else {
        assert(strings_view(problems@) =~= strings_view(problems@) + Seq::<Seq<char>>::empty());
    }
}

fn length_message(head: &str, limit: usize, n: usize) -> (m: Vec<char>)
    ensures
        m@ == head@ + decimal(limit as nat) + " 位（当前 "@ + decimal(n as nat) + " 位）"@,
{
    let mut m: Vec<char> = Vec::new();
    text::push_str(&mut m, head);
    text::push_decimal(&mut m, limit as u64);
    text::push_str(&mut m, " 位（当前 ");
    text::push_decimal(&mut m, n as u64);
    text::push_str(&mut m, " 位）");
    assert(m@ =~= head@ + decimal(limit as nat) + " 位（当前 "@ + decimal(n as nat) + " 位）"@);
    m
}

fn literal_then(head: &str, tail: &Vec<char>) -> (m: Vec<char>)
    ensures
        m@ == head@ + tail@,
{
    let mut m = text::chars_of(head);
    text::push_all(&mut m, tail);
    m
}

/// Every reason the password violates the rule. An empty result means it
/// passes.
pub fn validate(password: &str, rule: &PasswordRule) -> (problems: Vec<String>)
    ensures
        strings_view(problems@) == validate_spec(password@, *rule),
{
    let mut problems: Vec<String> = Vec::new();
    if !rule.enabled {
        assert(strings_view(problems@) =~= Seq::<Seq<char>>::empty());
        return problems;
    }
    let r = rule.normalized();
    let pw = text::chars_of(password);
    let n = pw.len();
    let (lower, upper, digit, symbol) = classes_of(&pw);
    let forbidden_set = text::chars_of_string(&r.forbidden);
    let forbidden = kept_in_exec(&pw, &forbidden_set);
    let ambiguous = ambiguous_exec(&pw);
    assert(strings_view(problems@) =~= Seq::<Seq<char>>::empty());
    let m = length_message("长度不足：至少 ", r.min_length, n);
    add_when(&mut problems, n < r.min_length, &m);
    let m = length_message("长度超限：最多 ", r.max_length, n);
    add_when(&mut problems, n > r.max_length, &m);
    let m = text::chars_of("缺少小写字母");
    add_when(&mut problems, r.lower && !lower, &m);
    let m = text::chars_of("缺少大写字母");
    add_when(&mut problems, r.upper && !upper, &m);
    let m = text::chars_of("缺少数字");
    add_when(&mut problems, r.digits && !digit, &m);
    let m = text::chars_of("缺少符号");
    add_when(&mut problems, r.symbols && !symbol, &m);
    let m = literal_then("包含禁用字符：", &forbidden);
    add_when(&mut problems, forbidden.len() > 0, &m);
    let starts = pw.len() > 0 && text::char_is_alphabetic(pw[0]);
    let m = text::chars_of("必须以字母开头");
    add_when(&mut problems, r.start_with_letter && !starts, &m);
    let m = literal_then("包含易混淆字符：", &ambiguous);
    add_when(&mut problems, r.avoid_ambiguous && ambiguous.len() > 0, &m);
    problems
}

} // verus!

verus! {

// ---------------------------------------------------------------------------
// Character pools
// ---------------------------------------------------------------------------

/// A byte may be drawn unless it is forbidden or, on request, ambiguous.
pub open spec fn allowed(c: u8, r: PasswordRule) -> bool {
    !r.forbidden@.contains(c as char) && !(r.avoid_ambiguous && is_ambiguous_byte(c as u32))
}

pub open spec fn ascii_alnum_byte(c: u8) -> bool {
    (48 <= c && c <= 57) || (65 <= c && c <= 90) || (97 <= c && c <= 122)
}

pub open spec fn ascii_alpha_byte(c: u8) -> bool {
    (65 <= c && c <= 90) || (97 <= c && c <= 122)
}

pub open spec fn range_bytes(start: u8, n: nat) -> Seq<u8> {
    Seq::new(n, |i: int| (start + i) as u8)
}

pub open spec fn keep_allowed(s: Seq<u8>, r: PasswordRule) -> Seq<u8>
    decreases s.len(),
{
    if s.len() == 0 {
        seq![]
    } else {
        keep_allowed(s.drop_last(), r) + (if allowed(s.last(), r) {
            seq![s.last()]
        } else {
            seq![]
        })
    }
}

/// The bytes of the symbol set that are neither ASCII letters nor digits and
/// are allowed.
pub open spec fn keep_symbols(s: Seq<u8>, r: PasswordRule) -> Seq<u8>
    decreases s.len(),
{
    if s.len() == 0 {
        seq![]
    } else {
        keep_symbols(s.drop_last(), r) + (if !ascii_alnum_byte(s.last()) && allowed(s.last(), r) {
            seq![s.last()]
        } else {
            seq![]
        })
    }
}

/// `Vec::dedup`: runs of equal neighbours collapse to one.
pub open spec fn dedup_bytes(s: Seq<u8>) -> Seq<u8>
    decreases s.len(),
{
    if s.len() <= 1 {
        s
    } else if s.last() == s[s.len() - 2] {
        dedup_bytes(s.drop_last())
    } else {
        dedup_bytes(s.drop_last()).push(s.last())
    }
}

pub open spec fn lower_pool(r: PasswordRule) -> Seq<u8> {
    if r.lower {
        keep_allowed(range_bytes(97, 26), r)
    } else {
        seq![]
    }
}

pub open spec fn upper_pool(r: PasswordRule) -> Seq<u8> {
    if r.upper {
        keep_allowed(range_bytes(65, 26), r)
    } else {
        seq![]
    }
}

pub open spec fn digit_pool(r: PasswordRule) -> Seq<u8> {
    if r.digits {
        keep_allowed(range_bytes(48, 10), r)
    } else {
        seq![]
    }
}

pub open spec fn symbol_pool(r: PasswordRule) -> Seq<u8> {
    if r.symbols {
        dedup_bytes(keep_symbols(vstd::utf8::encode_utf8(r.symbols_set@), r))
    } else {
        seq![]
    }
}

pub open spec fn nonempty_pools(ps: Seq<Seq<u8>>) -> Seq<Seq<u8>>
    decreases ps.len(),
{
    if ps.len() == 0 {
        seq![]
    } else {
        nonempty_pools(ps.drop_last()) + (if ps.last().len() > 0 {
            seq![ps.last()]
        } else {
            seq![]
        })
    }
}

/// Lower case, upper case, digits and symbols of a (normalized) rule, in
/// that order, without the empty ones.
pub open spec fn pools_spec(r: PasswordRule) -> Seq<Seq<u8>> {
    nonempty_pools(seq![lower_pool(r), upper_pool(r), digit_pool(r), symbol_pool(r)])
}

pub open spec fn pool_views(v: Seq<Vec<u8>>) -> Seq<Seq<u8>> {
    v.map_values(|p: Vec<u8>| p@)
}

fn allowed_exec(c: u8, forbidden: &Vec<char>, r: &PasswordRule) -> (b: bool)
    requires
        forbidden@ == r.forbidden@,
    ensures
        b == allowed(c, *r),
{
    let ch = c as char;
    !text::has_char(forbidden, ch) && !(r.avoid_ambiguous && is_ambiguous(ch))
}

fn range_pool(start: u8, n: u8, forbidden: &Vec<char>, r: &PasswordRule) -> (out: Vec<u8>)
    requires
        start + n <= 256,
        forbidden@ == r.forbidden@,
    ensures
        out@ == keep_allowed(range_bytes(start, n as nat), *r),
{
    let ghost full = range_bytes(start, n as nat);
    let mut out: Vec<u8> = Vec::new();
    let mut i: u8 = 0;
    assert(full.take(0) =~= Seq::<u8>::empty());
    while i < n
        invariant
            i <= n,
            start + n <= 256,
            forbidden@ == r.forbidden@,
            full == range_bytes(start, n as nat),
            out@ == keep_allowed(full.take(i as int), *r),
        decreases n - i,
    {
        let c: u8 = start + i;
        assert(full.take(i + 1).drop_last() =~= full.take(i as int));
        assert(full.take(i + 1).last() == c);
        if allowed_exec(c, forbidden, r) {
            out.push(c);
        }
        i += 1;
        assert(out@ =~= keep_allowed(full.take(i as int), *r));
    }
    assert(full.take(n as int) =~= full);
    out
}

fn symbol_pool_exec(forbidden: &Vec<char>, r: &PasswordRule) -> (out: Vec<u8>)
    requires
        forbidden@ == r.forbidden@,
    ensures
        out@ == dedup_bytes(keep_symbols(vstd::utf8::encode_utf8(r.symbols_set@), *r)),
{
    let bytes = r.symbols_set.as_str().as_bytes();
    let ghost all = bytes@;
    let mut kept: Vec<u8> = Vec::new();
    let mut i: usize = 0;
    assert(all.take(0) =~= Seq::<u8>::empty());
    while i < bytes.len()
        invariant
            i <= bytes.len(),
            all == bytes@,
            forbidden@ == r.forbidden@,
            kept@ == keep_symbols(all.take(i as int), *r),
        decreases bytes.len() - i,
    {
        let c = bytes[i];
        assert(all.take(i + 1).drop_last() =~= all.take(i as int));
        let alnum = (48 <= c && c <= 57) || (65 <= c && c <= 90) || (97 <= c && c <= 122);
        if !alnum && allowed_exec(c, forbidden, r) {
            kept.push(c);
        }
        i += 1;
        assert(kept@ =~= keep_symbols(all.take(i as int), *r));
    }
    assert(all.take(bytes.len() as int) =~= all);
    let mut out: Vec<u8> = Vec::new();
    let mut j: usize = 0;
    assert(kept@.take(0) =~= Seq::<u8>::empty());
    while j < kept.len()
        invariant
            j <= kept.len(),
            out@ == dedup_bytes(kept@.take(j as int)),
        decreases kept.len() - j,
    {
        assert(kept@.take(j + 1).drop_last() =~= kept@.take(j as int));
        if j == 0 || kept[j] != kept[j - 1] {
            out.push(kept[j]);
        }
        j += 1;
        assert(out@ =~= dedup_bytes(kept@.take(j as int)));
    }
    assert(kept@.take(kept.len() as int) =~= kept@);
    out
}

/// The non-empty character pools of a rule (see [`pools_spec`]).
pub fn pools(r: &PasswordRule) -> (out: Vec<Vec<u8>>)
    ensures
        pool_views(out@) == pools_spec(*r),
{
    let forbidden = text::chars_of_string(&r.forbidden);
    let lower = if r.lower {
        range_pool(97, 26, &forbidden, r)
    } else {
        Vec::new()
    };
    let upper = if r.upper {
        range_pool(65, 26, &forbidden, r)
    } else {
        Vec::new()
    };
    let digits = if r.digits {
        range_pool(48, 10, &forbidden, r)
    } else {
        Vec::new()
    };
    let symbols = if r.symbols {
        symbol_pool_exec(&forbidden, r)
    } else {
        Vec::new()
    };
    let ghost all = seq![lower@, upper@, digits@, symbols@];
    assert(all =~= seq![lower_pool(*r), upper_pool(*r), digit_pool(*r), symbol_pool(*r)]);
    let mut out: Vec<Vec<u8>> = Vec::new();
    assert(all.take(0) =~= Seq::<Seq<u8>>::empty());
    assert(pool_views(out@) =~= nonempty_pools(all.take(0)));
    if lower.len() > 0 {
        out.push(lower);
    }
    assert(all.take(1).drop_last() =~= all.take(0));
    assert(pool_views(out@) =~= nonempty_pools(all.take(1)));
    if upper.len() > 0 {
        out.push(upper);
    }
    assert(all.take(2).drop_last() =~= all.take(1));
    assert(pool_views(out@) =~= nonempty_pools(all.take(2)));
    if digits.len() > 0 {
        out.push(digits);
    }
    assert(all.take(3).drop_last() =~= all.take(2));
    assert(pool_views(out@) =~= nonempty_pools(all.take(3)));
    if symbols.len() > 0 {
        out.push(symbols);
    }
    assert(all.take(4).drop_last() =~= all.take(3));
    assert(all.take(4) =~= all);
    out
}

} // verus!

verus! {

// ---------------------------------------------------------------------------
// Generation
// ---------------------------------------------------------------------------

pub open spec fn in_some_pool(b: u8, ps: Seq<Seq<u8>>) -> bool {
    exists|p: int| 0 <= p < ps.len() && #[trigger] ps[p].contains(b)
}

#[verifier::opaque]
pub open spec fn all_from_pools(out: Seq<u8>, ps: Seq<Seq<u8>>) -> bool {
    forall|i: int| 0 <= i < out.len() ==> in_some_pool(#[trigger] out[i], ps)
}

/// Some byte of `out` comes from `pool`.
pub open spec fn hits(out: Seq<u8>, pool: Seq<u8>) -> bool {
    exists|i: int| 0 <= i < out.len() && pool.contains(#[trigger] out[i])
}

/// Every pool contributes at least one byte.
#[verifier::opaque]
pub open spec fn covers(out: Seq<u8>, ps: Seq<Seq<u8>>) -> bool {
    forall|p: int| 0 <= p < ps.len() ==> hits(out, #[trigger] ps[p])
}

/// Sixteen characters, kept within the rule's bounds.
pub open spec fn preferred_length(r: PasswordRule) -> int {
    if 16 < r.min_length {
        r.min_length as int
    } else if 16 > r.max_length {
        r.max_length as int
    } else {
        16
    }
}

/// The preferred length, but never fewer characters than pools.
pub open spec fn generated_length(r: PasswordRule) -> int {
    if preferred_length(r) < pools_spec(r).len() {
        pools_spec(r).len() as int
    } else {
        preferred_length(r)
    }
}

/// What every password generated for the (normalized) rule `r` is made of:
/// the generated length, only pool bytes, one byte of every pool at least,
/// and a letter first when one is asked for and there is one.
pub open spec fn generated(out: Seq<u8>, r: PasswordRule) -> bool {
    &&& out.len() == generated_length(r)
    &&& all_from_pools(out, pools_spec(r))
    &&& covers(out, pools_spec(r))
    &&& (r.start_with_letter && (exists|i: int| 0 <= i < out.len() && ascii_alpha_byte(#[trigger] out[i])))
        ==> out.len() > 0 && ascii_alpha_byte(out[0])
}

pub open spec fn is_msg(e: AppError, text: Seq<char>) -> bool {
    e matches AppError::Msg(m) && m@ == text
}

proof fn lemma_nonempty_pools(ps: Seq<Seq<u8>>)
    ensures
        forall|k: int| 0 <= k < nonempty_pools(ps).len() ==> #[trigger] nonempty_pools(ps)[k].len() > 0,
        nonempty_pools(ps).len() <= ps.len(),
    decreases ps.len(),
{
    if ps.len() > 0 {
        lemma_nonempty_pools(ps.drop_last());
    }
}

pub(crate) fn swap_bytes(out: &mut Vec<u8>, a: usize, b: usize)
    requires
        a < old(out).len(),
        b < old(out).len(),
    ensures
        final(out)@ == old(out)@.update(a as int, old(out)@[b as int]).update(b as int, old(out)@[a as int]),
{
    let x = out[a];
    let y = out[b];
    out.set(a, y);
    out.set(b, x);
}

pub(crate) proof fn lemma_swap_keeps(old: Seq<u8>, new: Seq<u8>, a: int, b: int, ps: Seq<Seq<u8>>)
    requires
        0 <= a < old.len(),
        0 <= b < old.len(),
        new == old.update(a, old[b]).update(b, old[a]),
        all_from_pools(old, ps),
        covers(old, ps),
    ensures
        new.len() == old.len(),
        all_from_pools(new, ps),
        covers(new, ps),
{
    reveal(all_from_pools);
    reveal(covers);
    assert forall|i: int| 0 <= i < new.len() implies in_some_pool(#[trigger] new[i], ps) by {
        if i == b {
            assert(in_some_pool(old[a], ps));
        } else if i == a {
            assert(in_some_pool(old[b], ps));
        } else {
            assert(in_some_pool(old[i], ps));
        }
    }
    assert forall|p: int| 0 <= p < ps.len() implies hits(new, #[trigger] ps[p]) by {
        assert(hits(old, ps[p]));
        let w = choose|i: int| 0 <= i < old.len() && ps[p].contains(#[trigger] old[i]);
        if w == a {
            assert(ps[p].contains(new[b]));
        } else if w == b {
            assert(ps[p].contains(new[a]));
        } else {
            assert(ps[p].contains(new[w]));
        }
    }
}

/// Every byte of every pool, one pool after the other.
pub(crate) fn combine(pools: &Vec<Vec<u8>>, Ghost(ps): Ghost<Seq<Seq<u8>>>) -> (combined: Vec<u8>)
    requires
        pool_views(pools@) == ps,
        ps.len() > 0,
        forall|q: int| 0 <= q < ps.len() ==> #[trigger] ps[q].len() > 0,
    ensures
        combined.len() > 0,
        all_from_pools(combined@, ps),
{
    reveal(all_from_pools);
    let mut combined: Vec<u8> = Vec::new();
    let mut k: usize = 0;
    while k < pools.len()
        invariant
            k <= pools.len(),
            pool_views(pools@) == ps,
            forall|q: int| 0 <= q < ps.len() ==> #[trigger] ps[q].len() > 0,
            k > 0 ==> combined.len() > 0,
            all_from_pools(combined@, ps),
        decreases pools.len() - k,
    {
        proof {
            reveal(all_from_pools);
            reveal(covers);
        }
        let pool = &pools[k];
        assert(pool@ == ps[k as int]);
        let mut j: usize = 0;
        while j < pool.len()
            invariant
                j <= pool.len(),
                k < pools.len(),
                pool@ == ps[k as int],
                pool_views(pools@) == ps,
                pool.len() > 0,
                j > 0 ==> combined.len() > 0,
                k > 0 ==> combined.len() > 0,
                all_from_pools(combined@, ps),
            decreases pool.len() - j,
        {
            proof {
                reveal(all_from_pools);
            }
            assert(ps[k as int].contains(pool@[j as int]));
            let ghost before = combined@;
            combined.push(pool[j]);
            assert forall|i: int| 0 <= i < combined@.len() implies in_some_pool(#[trigger] combined@[i], ps) by {
                if i < before.len() {
                    assert(combined@[i] == before[i]);
                }
            }
            j += 1;
        }
        k += 1;
    }
    combined
}

/// One random byte of every pool, then random bytes of all pools up to
/// `length`.
pub(crate) fn draw(pools: &Vec<Vec<u8>>, combined: &Vec<u8>, length: usize, Ghost(ps): Ghost<Seq<Seq<u8>>>) -> (out: Vec<u8>)
    requires
        pool_views(pools@) == ps,
        forall|q: int| 0 <= q < ps.len() ==> #[trigger] ps[q].len() > 0,
        combined.len() > 0,
        all_from_pools(combined@, ps),
        pools.len() <= length,
    ensures
        out.len() == length,
        all_from_pools(out@, ps),
        covers(out@, ps),
{
    reveal(all_from_pools);
    reveal(covers);
    let mut out: Vec<u8> = Vec::new();
    let mut k: usize = 0;
    while k < pools.len()
        invariant
            k <= pools.len(),
            pool_views(pools@) == ps,
            forall|q: int| 0 <= q < ps.len() ==> #[trigger] ps[q].len() > 0,
            out.len() == k,
            forall|q: int| 0 <= q < k ==> #[trigger] ps[q].contains(out@[q]),
            all_from_pools(out@, ps),
        decreases pools.len() - k,
    {
        proof {
            reveal(all_from_pools);
            reveal(covers);
        }
        let pool = &pools[k];
        assert(pool@ == ps[k as int]);
        let b = pool[random_index(pool.len())];
        assert(ps[k as int].contains(b));
        let ghost before = out@;
        out.push(b);
        assert forall|i: int| 0 <= i < out@.len() implies in_some_pool(#[trigger] out@[i], ps) by {
            if i < before.len() {
                assert(out@[i] == before[i]);
            } else {
                assert(ps[k as int].contains(out@[i]));
            }
        }
        k += 1;
    }
    assert(covers(out@, ps)) by {
        assert forall|p: int| 0 <= p < ps.len() implies hits(out@, #[trigger] ps[p]) by {
            assert(ps[p].contains(out@[p]));
        }
    }
    while out.len() < length
        invariant
            combined.len() > 0,
            all_from_pools(combined@, ps),
            all_from_pools(out@, ps),
            covers(out@, ps),
            out.len() <= length,
        decreases length - out.len(),
    {
        proof {
            reveal(all_from_pools);
            reveal(covers);
        }
        let b = combined[random_index(combined.len())];
        assert(in_some_pool(b, ps));
        let ghost before = out@;
        out.push(b);
        assert forall|i: int| 0 <= i < out@.len() implies in_some_pool(#[trigger] out@[i], ps) by {
            if i < before.len() {
                assert(out@[i] == before[i]);
            }
        }
        assert forall|p: int| 0 <= p < ps.len() implies hits(out@, #[trigger] ps[p]) by {
            assert(hits(before, ps[p]));
            let w = choose|i: int| 0 <= i < before.len() && ps[p].contains(#[trigger] before[i]);
            assert(ps[p].contains(out@[w]));
        }
    }
    out
}

proof fn lemma_update_multiset(s: Seq<u8>, i: int, x: u8)
    requires
        0 <= i < s.len(),
    ensures
        s.update(i, x).to_multiset() =~= s.to_multiset().remove(s[i]).insert(x),
{
    broadcast use vstd::seq_lib::group_to_multiset_ensures;
    let t = s.update(i, x);
    assert(t.remove(i) =~= s.remove(i));
    assert(t.contains(x)) by {
        assert(t[i] == x);
    }
    assert(t.to_multiset().remove(x) =~= s.to_multiset().remove(s[i]));
    assert(t.to_multiset() =~= t.to_multiset().remove(x).insert(x));
}

/// Swapping two places keeps the same bytes, each as often.
proof fn lemma_swap_multiset(s: Seq<u8>, a: int, b: int)
    requires
        0 <= a < s.len(),
        0 <= b < s.len(),
    ensures
        s.update(a, s[b]).update(b, s[a]).to_multiset() =~= s.to_multiset(),
{
    let s1 = s.update(a, s[b]);
    lemma_update_multiset(s, a, s[b]);
    lemma_update_multiset(s1, b, s[a]);
    assert(s1[b] == s[b]);
    broadcast use vstd::seq_lib::group_to_multiset_ensures;
    assert(s.to_multiset().count(s[a]) > 0) by {
        assert(s.contains(s[a]));
    }
    assert(s.to_multiset().remove(s[a]).insert(s[b]).remove(s[b]).insert(s[a]) =~= s.to_multiset());
}

/// Shuffles every position after the first: the bytes are the same, each as
/// often, the first stays in place, and a password of at most two bytes is
/// left as it is.
fn shuffle_tail(out: &mut Vec<u8>, Ghost(ps): Ghost<Seq<Seq<u8>>>)
    requires
        all_from_pools(old(out)@, ps),
        covers(old(out)@, ps),
    ensures
        final(out).len() == old(out).len(),
        all_from_pools(final(out)@, ps),
        covers(final(out)@, ps),
        final(out)@.to_multiset() == old(out)@.to_multiset(),
        old(out)@.len() > 0 ==> final(out)@[0] == old(out)@[0],
        old(out)@.len() <= 2 ==> final(out)@ == old(out)@,
{
    let ghost start = out@;
    let mut index: usize = out.len();
    while index > 2
        invariant
            index <= out.len(),
            out.len() == start.len(),
            all_from_pools(out@, ps),
            covers(out@, ps),
            out@.to_multiset() == start.to_multiset(),
            start.len() > 0 ==> out@[0] == start[0],
            start.len() <= 2 ==> out@ == start,
        decreases index,
    {
        index -= 1;
        let swap = 1 + random_index(index);
        let ghost before = out@;
        swap_bytes(out, index, swap);
        proof {
            lemma_swap_keeps(before, out@, index as int, swap as int, ps);
            lemma_swap_multiset(before, index as int, swap as int);
        }
    }
}

fn first_letter(out: &Vec<u8>) -> (r: Option<usize>)
    ensures
        match r {
            Some(p) => p < out.len() && ascii_alpha_byte(out@[p as int]),
            None => forall|j: int| 0 <= j < out.len() ==> !ascii_alpha_byte(#[trigger] out@[j]),
        },
{
    let mut i: usize = 0;
    while i < out.len()
        invariant
            i <= out.len(),
            forall|j: int| 0 <= j < i ==> !ascii_alpha_byte(#[trigger] out@[j]),
        decreases out.len() - i,
    {
        let c = out[i];
        if (65 <= c && c <= 90) || (97 <= c && c <= 122) {
            return Some(i);
        }
        i += 1;
    }
    None
}

/// Swaps the first ASCII letter, if there is one, to the front.
fn letter_first(out: &mut Vec<u8>, Ghost(ps): Ghost<Seq<Seq<u8>>>)
    requires
        all_from_pools(old(out)@, ps),
        covers(old(out)@, ps),
    ensures
        final(out).len() == old(out).len(),
        all_from_pools(final(out)@, ps),
        covers(final(out)@, ps),
        (exists|i: int| 0 <= i < final(out)@.len() && ascii_alpha_byte(#[trigger] final(out)@[i]))
            ==> ascii_alpha_byte(final(out)@[0]),
{
    match first_letter(out) {
        Some(position) => {
            let ghost before = out@;
            swap_bytes(out, 0, position);
            proof {
                lemma_swap_keeps(before, out@, 0, position as int, ps);
            }
            assert(out@[0] == before[position as int]);
        },
        None => {
            assert(forall|j: int| 0 <= j < out@.len() ==> !ascii_alpha_byte(#[trigger] out@[j]));
        },
    }
}

/// A random password for the rule (normalized first): one character of
/// every pool, the rest from all pools together, shuffled, and a letter
/// moved to the front when the rule asks for it.
pub fn generate(rule: &PasswordRule) -> (res: Result<String, AppError>)
    ensures
        match res {
            Ok(pw) => {
                &&& pools_spec(normalized_spec(*rule)).len() > 0
                &&& !(rule.start_with_letter && !(rule.upper || norm_lower(*rule)))
                &&& exists|out: Seq<u8>|
                    generated(out, normalized_spec(*rule)) && pw@ == text::utf8_lossy(out) && (
                    text::all_ascii_bytes(out) ==> pw@ == text::ascii_chars(out))
            },
            Err(e) => if pools_spec(normalized_spec(*rule)).len() == 0 {
                is_msg(e, "规则中的字符集为空：请检查启用的字符类型与禁用字符"@)
            } else {
                rule.start_with_letter && !(rule.upper || norm_lower(*rule)) && is_msg(
                    e,
                    "规则要求首字符为字母，但没有启用大写或小写字母"@,
                )
            },
        },
{
    let r = rule.normalized();
    let pools = pools(&r);
    let ghost ps = pools_spec(r);
    if pools.len() == 0 {
        return Err(AppError::Msg("规则中的字符集为空：请检查启用的字符类型与禁用字符".to_owned()));
    }
    if r.start_with_letter && !(r.upper || r.lower) {
        return Err(AppError::Msg("规则要求首字符为字母，但没有启用大写或小写字母".to_owned()));
    }
    proof {
        lemma_nonempty_pools(seq![lower_pool(r), upper_pool(r), digit_pool(r), symbol_pool(r)]);
    }
    let combined = combine(&pools, Ghost(ps));
    let target: usize = if 16 < r.min_length {
        r.min_length
    } else if 16 > r.max_length {
        r.max_length
    } else {
        16
    };
    let length: usize = if target < pools.len() {
        pools.len()
    } else {
        target
    };
    let mut out = draw(&pools, &combined, length, Ghost(ps));
    shuffle_tail(&mut out, Ghost(ps));
    if r.start_with_letter {
        letter_first(&mut out, Ghost(ps));
    }
    let pw = text::from_utf8_lossy(out.as_slice());
    assert(generated(out@, r));
    Ok(pw)
}

} // verus!

verus! {

// ---------------------------------------------------------------------------
// A generated password passes validation
// ---------------------------------------------------------------------------

proof fn lemma_keep_allowed_sub(s: Seq<u8>, r: PasswordRule, b: u8)
    requires
        keep_allowed(s, r).contains(b),
    ensures
        s.contains(b) && allowed(b, r),
    decreases s.len(),
{
    if s.len() > 0 {
        let rest = keep_allowed(s.drop_last(), r);
        if rest.contains(b) {
            lemma_keep_allowed_sub(s.drop_last(), r, b);
            let k = choose|k: int| 0 <= k < s.drop_last().len() && s.drop_last()[k] == b;
            assert(s[k] == b);
        } else {
            let k = choose|k: int| 0 <= k < keep_allowed(s, r).len() && keep_allowed(s, r)[k] == b;
            assert(k >= rest.len());
            assert(s[s.len() - 1] == b);
        }
    }
}

proof fn lemma_keep_symbols_sub(s: Seq<u8>, r: PasswordRule, b: u8)
    requires
        keep_symbols(s, r).contains(b),
    ensures
        s.contains(b) && allowed(b, r) && !ascii_alnum_byte(b),
    decreases s.len(),
{
    if s.len() > 0 {
        let rest = keep_symbols(s.drop_last(), r);
        if rest.contains(b) {
            lemma_keep_symbols_sub(s.drop_last(), r, b);
            let k = choose|k: int| 0 <= k < s.drop_last().len() && s.drop_last()[k] == b;
            assert(s[k] == b);
        } else {
            let k = choose|k: int| 0 <= k < keep_symbols(s, r).len() && keep_symbols(s, r)[k] == b;
            assert(k >= rest.len());
            assert(s[s.len() - 1] == b);
        }
    }
}

proof fn lemma_dedup_sub(s: Seq<u8>, b: u8)
    requires
        dedup_bytes(s).contains(b),
    ensures
        s.contains(b),
    decreases s.len(),
{
    if s.len() > 1 {
        let rest = dedup_bytes(s.drop_last());
        if s.last() == s[s.len() - 2] {
            lemma_dedup_sub(s.drop_last(), b);
            let k = choose|k: int| 0 <= k < s.drop_last().len() && s.drop_last()[k] == b;
            assert(s[k] == b);
        } else if rest.contains(b) {
            lemma_dedup_sub(s.drop_last(), b);
            let k = choose|k: int| 0 <= k < s.drop_last().len() && s.drop_last()[k] == b;
            assert(s[k] == b);
        } else {
            assert(s[s.len() - 1] == b);
        }
    }
}

/// Where a pool byte can come from: its class range (or, for symbols, the
/// symbol set), and it is allowed.
proof fn lemma_pool_byte(r: PasswordRule, b: u8)
    requires
        vstd::utf8::is_ascii_chars(r.symbols_set@),
    ensures
        lower_pool(r).contains(b) ==> 97 <= b <= 122 && allowed(b, r),
        upper_pool(r).contains(b) ==> 65 <= b <= 90 && allowed(b, r),
        digit_pool(r).contains(b) ==> 48 <= b <= 57 && allowed(b, r),
        symbol_pool(r).contains(b) ==> b < 128 && !ascii_alnum_byte(b) && allowed(b, r),
{
    if lower_pool(r).contains(b) {
        lemma_keep_allowed_sub(range_bytes(97, 26), r, b);
    }
    if upper_pool(r).contains(b) {
        lemma_keep_allowed_sub(range_bytes(65, 26), r, b);
    }
    if digit_pool(r).contains(b) {
        lemma_keep_allowed_sub(range_bytes(48, 10), r, b);
    }
    if symbol_pool(r).contains(b) {
        let bytes = vstd::utf8::encode_utf8(r.symbols_set@);
        lemma_dedup_sub(keep_symbols(bytes, r), b);
        lemma_keep_symbols_sub(bytes, r, b);
        vstd::utf8::is_ascii_chars_encode_utf8(r.symbols_set@);
        let k = choose|k: int| 0 <= k < bytes.len() && bytes[k] == b;
        assert(r.symbols_set@[k] as u8 == bytes[k]);
        assert('\0' <= r.symbols_set@[k] <= '\u{7f}');
    }
}

proof fn lemma_nonempty_pools_from(ps: Seq<Seq<u8>>, p: int)
    requires
        0 <= p < nonempty_pools(ps).len(),
    ensures
        exists|k: int| 0 <= k < ps.len() && nonempty_pools(ps)[p] == ps[k],
    decreases ps.len(),
{
    let rest = nonempty_pools(ps.drop_last());
    if p < rest.len() {
        lemma_nonempty_pools_from(ps.drop_last(), p);
        let k = choose|k: int| 0 <= k < ps.drop_last().len() && rest[p] == ps.drop_last()[k];
        assert(ps[k] == ps.drop_last()[k]);
    } else {
        assert(nonempty_pools(ps)[p] == ps[ps.len() - 1]);
    }
}

proof fn lemma_nonempty_pools_has(ps: Seq<Seq<u8>>, k: int)
    requires
        0 <= k < ps.len(),
        ps[k].len() > 0,
    ensures
        exists|p: int| 0 <= p < nonempty_pools(ps).len() && nonempty_pools(ps)[p] == ps[k],
    decreases ps.len(),
{
    if k < ps.len() - 1 {
        lemma_nonempty_pools_has(ps.drop_last(), k);
        let rest = nonempty_pools(ps.drop_last());
        let p = choose|p: int| 0 <= p < rest.len() && rest[p] == ps.drop_last()[k];
        assert(nonempty_pools(ps)[p] == rest[p]);
    } else {
        let p = nonempty_pools(ps.drop_last()).len() as int;
        assert(nonempty_pools(ps)[p] == ps[k]);
    }
}

/// A non-empty class pool contributes a byte to every generated password.
proof fn lemma_class_hit(out: Seq<u8>, r: PasswordRule, k: int)
    requires
        generated(out, r),
        0 <= k < 4,
        seq![lower_pool(r), upper_pool(r), digit_pool(r), symbol_pool(r)][k].len() > 0,
    ensures
        hits(out, seq![lower_pool(r), upper_pool(r), digit_pool(r), symbol_pool(r)][k]),
{
    let ps = seq![lower_pool(r), upper_pool(r), digit_pool(r), symbol_pool(r)];
    lemma_nonempty_pools_has(ps, k);
    let p = choose|p: int| 0 <= p < nonempty_pools(ps).len() && nonempty_pools(ps)[p] == ps[k];
    reveal(covers);
    assert(hits(out, pools_spec(r)[p]));
}

/// Every byte of a generated password is an allowed ASCII byte, and a
/// non-alphanumeric one unless it comes from a letter or digit pool.
proof fn lemma_generated_byte(out: Seq<u8>, r: PasswordRule, i: int)
    requires
        generated(out, r),
        vstd::utf8::is_ascii_chars(r.symbols_set@),
        0 <= i < out.len(),
    ensures
        out[i] < 128,
        allowed(out[i], r),
{
    let ps = seq![lower_pool(r), upper_pool(r), digit_pool(r), symbol_pool(r)];
    reveal(all_from_pools);
    assert(in_some_pool(out[i], pools_spec(r)));
    let p = choose|p: int| 0 <= p < pools_spec(r).len() && #[trigger] pools_spec(r)[p].contains(out[i]);
    lemma_nonempty_pools_from(ps, p);
    lemma_pool_byte(r, out[i]);
    let k = choose|k: int| 0 <= k < ps.len() && nonempty_pools(ps)[p] == ps[k];
    assert(k == 0 || k == 1 || k == 2 || k == 3);
}

proof fn lemma_kept_in_empty(pw: Seq<char>, set: Seq<char>)
    requires
        forall|i: int| 0 <= i < pw.len() ==> !set.contains(#[trigger] pw[i]),
    ensures
        kept_in(pw, set) == Seq::<char>::empty(),
    decreases pw.len(),
{
    if pw.len() > 0 {
        lemma_kept_in_empty(pw.drop_last(), set);
        assert(!set.contains(pw[pw.len() - 1]));
    }
}

proof fn lemma_ambiguous_empty(pw: Seq<char>)
    requires
        forall|i: int| 0 <= i < pw.len() ==> !is_ambiguous_byte(low_byte(#[trigger] pw[i])),
    ensures
        ambiguous_in(pw) == Seq::<char>::empty(),
    decreases pw.len(),
{
    if pw.len() > 0 {
        lemma_ambiguous_empty(pw.drop_last());
        assert(!is_ambiguous_byte(low_byte(pw[pw.len() - 1])));
    }
}

/// Law: a password [`generate`] returns for a rule passes [`validate`] under
/// the same rule, provided every character class the rule enables still has
/// characters once forbidden (and, on request, ambiguous) ones are removed
/// and the symbol set is ASCII.
pub proof fn law_generated_password_passes_validation(rule: PasswordRule, out: Seq<u8>, pw: Seq<char>)
    requires
        generated(out, normalized_spec(rule)),
        pw == text::utf8_lossy(out),
        text::all_ascii_bytes(out) ==> pw == text::ascii_chars(out),
        rule.start_with_letter ==> rule.upper || norm_lower(rule),
        vstd::utf8::is_ascii_chars(rule.symbols_set@),
        norm_lower(rule) ==> lower_pool(normalized_spec(rule)).len() > 0,
        rule.upper ==> upper_pool(normalized_spec(rule)).len() > 0,
        norm_digits(rule) ==> digit_pool(normalized_spec(rule)).len() > 0,
        rule.symbols ==> symbol_pool(normalized_spec(rule)).len() > 0,
    ensures
        validate_spec(pw, rule) == Seq::<Seq<char>>::empty(),
{
    let r = normalized_spec(rule);
    let classes = seq![lower_pool(r), upper_pool(r), digit_pool(r), symbol_pool(r)];
    assert forall|i: int| 0 <= i < out.len() implies #[trigger] out[i] < 128 && allowed(out[i], r) by {
        lemma_generated_byte(out, r, i);
    }
    assert(text::all_ascii_bytes(out));
    assert(pw == text::ascii_chars(out));
    assert(pw.len() == out.len());
    // Length: the pools are at most four, never more than the minimum.
    lemma_nonempty_pools(classes);
    assert(pools_spec(r).len() <= 4);
    assert(norm_min(rule) <= pw.len() <= norm_max(rule));
    if norm_lower(rule) {
        lemma_class_hit(out, r, 0);
        let i = choose|i: int| 0 <= i < out.len() && lower_pool(r).contains(#[trigger] out[i]);
        lemma_pool_byte(r, out[i]);
        assert(is_lower(pw[i]));
    }
    if rule.upper {
        lemma_class_hit(out, r, 1);
        let i = choose|i: int| 0 <= i < out.len() && upper_pool(r).contains(#[trigger] out[i]);
        lemma_pool_byte(r, out[i]);
        assert(is_upper(pw[i]));
    }
    if norm_digits(rule) {
        lemma_class_hit(out, r, 2);
        let i = choose|i: int| 0 <= i < out.len() && digit_pool(r).contains(#[trigger] out[i]);
        lemma_pool_byte(r, out[i]);
        assert(is_digit(pw[i]));
    }
    if rule.symbols {
        lemma_class_hit(out, r, 3);
        let i = choose|i: int| 0 <= i < out.len() && symbol_pool(r).contains(#[trigger] out[i]);
        lemma_pool_byte(r, out[i]);
        assert(!unicode_alphanumeric(pw[i]));
    }
    assert forall|i: int| 0 <= i < pw.len() implies !rule.forbidden@.contains(#[trigger] pw[i]) by {
        assert(allowed(out[i], r));
    }
    lemma_kept_in_empty(pw, rule.forbidden@);
    if rule.start_with_letter {
        let k: int = if rule.upper {
            1
        } else {
            0
        };
        lemma_class_hit(out, r, k);
        let i = choose|i: int| 0 <= i < out.len() && classes[k].contains(#[trigger] out[i]);
        lemma_pool_byte(r, out[i]);
        assert(ascii_alpha_byte(out[i]));
        assert(ascii_alpha_byte(out[0]));
        assert(unicode_alphabetic(pw[0]));
    }
    if rule.avoid_ambiguous {
        assert forall|i: int| 0 <= i < pw.len() implies !is_ambiguous_byte(low_byte(#[trigger] pw[i])) by {
            assert(allowed(out[i], r));
            assert(low_byte(pw[i]) == out[i] as u32);
        }
        lemma_ambiguous_empty(pw);
    }
}

} // verus!

verus! {

// ---------------------------------------------------------------------------
// Summary
// ---------------------------------------------------------------------------

pub open spec fn join_with(parts: Seq<Seq<char>>, sep: Seq<char>) -> Seq<char>
    decreases parts.len(),
{
    if parts.len() == 0 {
        seq![]
    } else if parts.len() == 1 {
        parts[0]
    } else {
        join_with(parts.drop_last(), sep) + sep + parts.last()
    }
}

pub open spec fn class_names(r: PasswordRule) -> Seq<Seq<char>> {
    when(r.upper, "大写字母"@) + when(norm_lower(r), "小写字母"@) + when(norm_digits(r), "数字"@)
        + when(r.symbols, "符号"@)
}

/// One line describing the (normalized) rule: length range, character
/// classes and the extra conditions.
pub open spec fn summary_spec(r: PasswordRule) -> Seq<char> {
    if !r.enabled {
        "未设置规则"@
    } else {
        decimal(norm_min(r) as nat) + "-"@ + decimal(norm_max(r) as nat) + " 位，"@ + join_with(
            class_names(r),
            "、"@,
        ) + (if r.start_with_letter {
            "，字母开头"@
        } else {
            seq![]
        }) + (if r.avoid_ambiguous {
            "，不含易混淆字符"@
        } else {
            seq![]
        }) + (if r.forbidden@.len() > 0 {
            "，禁用 "@ + r.forbidden@
        } else {
            seq![]
        })
    }
}

fn push_name(names: &mut Vec<Vec<char>>, cond: bool, name: &str)
    ensures
        text::line_views(final(names)@) == text::line_views(old(names)@) + when(cond, name@),
{
    if cond {
        let ghost before = text::line_views(names@);
        names.push(text::chars_of(name));
        assert(text::line_views(names@) =~= before + seq![name@]);
    } else {
        assert(text::line_views(names@) =~= text::line_views(names@) + Seq::<Seq<char>>::empty());
    }
}

fn join_exec(parts: &Vec<Vec<char>>, sep: &str) -> (out: Vec<char>)
    ensures
        out@ == join_with(text::line_views(parts@), sep@),
{
    let ghost pv = text::line_views(parts@);
    let mut out: Vec<char> = Vec::new();
    let mut i: usize = 0;
    assert(pv.take(0) =~= Seq::<Seq<char>>::empty());
    while i < parts.len()
        invariant
            i <= parts.len(),
            pv == text::line_views(parts@),
            out@ == join_with(pv.take(i as int), sep@),
        decreases parts.len() - i,
    {
        assert(pv.take(i + 1).drop_last() =~= pv.take(i as int));
        assert(pv.take(i + 1).last() == parts@[i as int]@);
        if i > 0 {
            text::push_str(&mut out, sep);
        }
        text::push_all(&mut out, &parts[i]);
        i += 1;
        if i == 1 {
            assert(out@ =~= pv.take(1)[0]);
        } else {
            assert(out@ =~= join_with(pv.take(i - 1), sep@) + sep@ + pv.take(i as int).last());
        }
    }
    assert(pv.take(parts.len() as int) =~= pv);
    out
}

impl PasswordRule {
    /// One line describing the rule, e.g. `8-40 位，大写字母、小写字母、数字`.
    pub fn summary(&self) -> (s: String)
        ensures
            s@ == summary_spec(*self),
    {
        if !self.enabled {
            return "未设置规则".to_owned();
        }
        let r = self.normalized();
        let mut names: Vec<Vec<char>> = Vec::new();
        assert(text::line_views(names@) =~= Seq::<Seq<char>>::empty());
        push_name(&mut names, r.upper, "大写字母");
        push_name(&mut names, r.lower, "小写字母");
        push_name(&mut names, r.digits, "数字");
        push_name(&mut names, r.symbols, "符号");
        let mut out: Vec<char> = Vec::new();
        text::push_decimal(&mut out, r.min_length as u64);
        text::push_str(&mut out, "-");
        text::push_decimal(&mut out, r.max_length as u64);
        text::push_str(&mut out, " 位，");
        let joined = join_exec(&names, "、");
        text::push_all(&mut out, &joined);
        let ghost base = out@;
        if r.start_with_letter {
            text::push_str(&mut out, "，字母开头");
        }
        let ghost b2 = out@;
        if r.avoid_ambiguous {
            text::push_str(&mut out, "，不含易混淆字符");
        }
        let ghost b3 = out@;
        let f = text::chars_of_string(&r.forbidden);
        if f.len() > 0 {
            text::push_str(&mut out, "，禁用 ");
            text::push_all(&mut out, &f);
        }
        assert(out@ =~= summary_spec(*self));
        text::string_of(&out)
    }
}

} // verus!
