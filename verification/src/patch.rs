//! Byte-exact editing of content files.
//!
//! Nothing here re-serializes a document: the original bytes are decoded, the
//! recorded value ranges are spliced, and the result is encoded back with the
//! original encoding and byte-order mark.

use vstd::prelude::*;
use vstd::utf8::{encode_utf8, decode_utf8, valid_utf8};
use vstd::string::StringSliceAdditionalSpecFns;
use crate::keys::{has_nul, utf16_units};
use crate::text::{self, utf16_encode, utf16_of_char, utf16_lossy, utf8_lossy};

verus! {

#[derive(Debug, Clone, Copy, PartialEq, Eq, Structural)]
pub enum TextEncoding {
    Utf8,
    Utf8Bom,
    Utf16Le,
    Utf16Be,
}

/// The bytes of 16-bit units, low byte first or high byte first.
pub open spec fn unit_bytes(units: Seq<u16>, little_endian: bool) -> Seq<u8>
    decreases units.len(),
{
    if units.len() == 0 {
        seq![]
    } else {
        let u = units.last();
        unit_bytes(units.drop_last(), little_endian) + if little_endian {
            seq![(u % 256) as u8, (u / 256) as u8]
        } else {
            seq![(u / 256) as u8, (u % 256) as u8]
        }
    }
}

pub open spec fn encode_spec(text: Seq<char>, encoding: TextEncoding) -> Seq<u8> {
    match encoding {
        TextEncoding::Utf8 => encode_utf8(text),
        TextEncoding::Utf8Bom => seq![0xEFu8, 0xBBu8, 0xBFu8] + encode_utf8(text),
        TextEncoding::Utf16Le => seq![0xFFu8, 0xFEu8] + unit_bytes(utf16_encode(text), true),
        TextEncoding::Utf16Be => seq![0xFEu8, 0xFFu8] + unit_bytes(utf16_encode(text), false),
    }
}

pub open spec fn sniff(bytes: Seq<u8>) -> Seq<u8> {
    bytes.take(if bytes.len() < 8192 { bytes.len() as int } else { 8192 })
}

/// The text of a file and how it was encoded: a byte-order mark selects
/// UTF-16 or UTF-8 with BOM; a NUL byte in the first 8 KiB means binary
/// (`None`); anything else is UTF-8.
pub open spec fn decode_spec(bytes: Seq<u8>) -> Option<(Seq<char>, TextEncoding)> {
    if bytes.len() == 0 {
        Some((seq![], TextEncoding::Utf8))
    } else if bytes.len() >= 2 && bytes[0] == 0xFF && bytes[1] == 0xFE {
        Some((utf16_lossy(utf16_units(bytes.skip(2), true)), TextEncoding::Utf16Le))
    } else if bytes.len() >= 2 && bytes[0] == 0xFE && bytes[1] == 0xFF {
        Some((utf16_lossy(utf16_units(bytes.skip(2), false)), TextEncoding::Utf16Be))
    } else if bytes.len() >= 3 && bytes[0] == 0xEF && bytes[1] == 0xBB && bytes[2] == 0xBF {
        Some((utf8_lossy(bytes.skip(3)), TextEncoding::Utf8Bom))
    } else if has_nul(sniff(bytes)) {
        None
    } else {
        Some((utf8_lossy(bytes), TextEncoding::Utf8))
    }
}

/// Decodes a file, or returns `None` when it looks binary.
pub fn decode(bytes: &[u8]) -> (r: Option<(String, TextEncoding)>)
    ensures
        match r {
            Some((s, e)) => decode_spec(bytes@) == Some((s@, e)),
            None => decode_spec(bytes@) is None,
        },
{
    if bytes.len() == 0 {
        return Some((String::new(), TextEncoding::Utf8));
    }
    if bytes.len() >= 2 && bytes[0] == 0xFF && bytes[1] == 0xFE {
        let units = crate::keys::utf16_units_exec(bytes, 2, true);
        return Some((text::from_utf16_lossy(units.as_slice()), TextEncoding::Utf16Le));
    }
    if bytes.len() >= 2 && bytes[0] == 0xFE && bytes[1] == 0xFF {
        let units = crate::keys::utf16_units_exec(bytes, 2, false);
        return Some((text::from_utf16_lossy(units.as_slice()), TextEncoding::Utf16Be));
    }
    if bytes.len() >= 3 && bytes[0] == 0xEF && bytes[1] == 0xBB && bytes[2] == 0xBF {
        let mut rest: Vec<u8> = Vec::new();
        let mut i: usize = 3;
        while i < bytes.len()
            invariant
                3 <= i <= bytes.len(),
                rest@ == bytes@.subrange(3, i as int),
            decreases bytes.len() - i,
        {
            rest.push(bytes[i]);
            i += 1;
            assert(rest@ =~= bytes@.subrange(3, i as int));
        }
        assert(rest@ =~= bytes@.skip(3));
        return Some((text::from_utf8_lossy(rest.as_slice()), TextEncoding::Utf8Bom));
    }
    let limit = if bytes.len() < 8192 {
        bytes.len()
    } else {
        8192
    };
    let mut i: usize = 0;
    while i < limit
        invariant
            i <= limit <= bytes.len(),
            limit == (if bytes@.len() < 8192 {
                bytes@.len() as int
            } else {
                8192
            }),
            bytes@.len() > 0,
            !(bytes@.len() >= 2 && bytes@[0] == 0xFF && bytes@[1] == 0xFE),
            !(bytes@.len() >= 2 && bytes@[0] == 0xFE && bytes@[1] == 0xFF),
            !(bytes@.len() >= 3 && bytes@[0] == 0xEF && bytes@[1] == 0xBB && bytes@[2] == 0xBF),
            forall|k: int| 0 <= k < i ==> bytes@[k] != 0,
        decreases limit - i,
    {
        if bytes[i] == 0 {
            assert(sniff(bytes@)[i as int] == 0);
            assert(has_nul(sniff(bytes@)));
            return None;
        }
        i += 1;
    }
    assert(!has_nul(sniff(bytes@)));
    Some((text::from_utf8_lossy(bytes), TextEncoding::Utf8))
}

fn push_units(out: &mut Vec<u8>, units: &Vec<u16>, little_endian: bool)
    ensures
        final(out)@ == old(out)@ + unit_bytes(units@, little_endian),
{
    let mut i: usize = 0;
    assert(units@.take(0) =~= Seq::<u16>::empty());
    assert(old(out)@ + unit_bytes(units@.take(0), little_endian) =~= old(out)@);
    while i < units.len()
        invariant
            i <= units.len(),
            out@ == old(out)@ + unit_bytes(units@.take(i as int), little_endian),
        decreases units.len() - i,
    {
        let u = units[i];
        assert(units@.take(i + 1).drop_last() =~= units@.take(i as int));
        let lo = (u % 256) as u8;
        let hi = (u / 256) as u8;
        if little_endian {
            out.push(lo);
            out.push(hi);
        } else {
            out.push(hi);
            out.push(lo);
        }
        i += 1;
        assert(out@ =~= old(out)@ + unit_bytes(units@.take(i as int), little_endian));
    }
    assert(units@.take(units.len() as int) =~= units@);
}

fn push_utf8(out: &mut Vec<u8>, text: &str)
    ensures
        final(out)@ == old(out)@ + encode_utf8(text@),
{
    let bytes = text.as_bytes();
    let mut i: usize = 0;
    while i < bytes.len()
        invariant
            i <= bytes.len(),
            bytes@ == text.spec_bytes(),
            out@ == old(out)@ + bytes@.take(i as int),
        decreases bytes.len() - i,
    {
        out.push(bytes[i]);
        i += 1;
        assert(out@ =~= old(out)@ + bytes@.take(i as int));
    }
    assert(bytes@.take(bytes.len() as int) =~= bytes@);
}

pub fn encode(text: &str, encoding: TextEncoding) -> (out: Vec<u8>)
    ensures
        out@ == encode_spec(text@, encoding),
{
    let mut out: Vec<u8> = Vec::new();
    match encoding {
        TextEncoding::Utf8 => {
            push_utf8(&mut out, text);
            assert(out@ =~= encode_utf8(text@));
        },
        TextEncoding::Utf8Bom => {
            out.push(0xEF);
            out.push(0xBB);
            out.push(0xBF);
            push_utf8(&mut out, text);
        },
        TextEncoding::Utf16Le => {
            out.push(0xFF);
            out.push(0xFE);
            let units = text::encode_utf16(text);
            push_units(&mut out, &units, true);
        },
        TextEncoding::Utf16Be => {
            out.push(0xFE);
            out.push(0xFF);
            let units = text::encode_utf16(text);
            push_units(&mut out, &units, false);
        },
    }
    out
}

} // verus!

verus! {

spec fn pair_ok(units: Seq<u16>, le: bool, i: int) -> bool {
    let b = unit_bytes(units, le);
    let u = units[i];
    if le {
        b[2 * i] == (u % 256) as u8 && b[2 * i + 1] == (u / 256) as u8
    } else {
        b[2 * i] == (u / 256) as u8 && b[2 * i + 1] == (u % 256) as u8
    }
}

proof fn lemma_unit_bytes(units: Seq<u16>, le: bool)
    ensures
        unit_bytes(units, le).len() == 2 * units.len(),
        forall|i: int| 0 <= i < units.len() ==> #[trigger] pair_ok(units, le, i),
    decreases units.len(),
{
    if units.len() > 0 {
        lemma_unit_bytes(units.drop_last(), le);
        let prev = unit_bytes(units.drop_last(), le);
        assert forall|i: int| 0 <= i < units.len() implies #[trigger] pair_ok(units, le, i) by {
            if i < units.len() - 1 {
                assert(pair_ok(units.drop_last(), le, i));
                assert(units.drop_last()[i] == units[i]);
                assert(unit_bytes(units, le)[2 * i] == prev[2 * i]);
                assert(unit_bytes(units, le)[2 * i + 1] == prev[2 * i + 1]);
            }
        }
    }
}

proof fn lemma_units_round_trip(units: Seq<u16>, le: bool)
    ensures
        utf16_units(unit_bytes(units, le), le) == units,
{
    lemma_unit_bytes(units, le);
    let b = unit_bytes(units, le);
    assert forall|i: int| 0 <= i < units.len() implies #[trigger] utf16_units(b, le)[i] == units[i] by {
        assert(pair_ok(units, le, i));
        let u = units[i];
        assert((u % 256) + 256 * (u / 256) == u);
        assert(((u % 256) as u8) as int == u % 256);
        assert(((u / 256) as u8) as int == u / 256);
    }
    assert(utf16_units(b, le) =~= units);
}

proof fn lemma_utf16_len(s: Seq<char>)
    ensures
        utf16_encode(s).len() >= s.len(),
    decreases s.len(),
{
    if s.len() > 0 {
        lemma_utf16_len(s.drop_last());
    }
}

/// Different texts never share a UTF-16 encoding.
proof fn lemma_utf16_injective(a: Seq<char>, b: Seq<char>)
    requires
        utf16_encode(a) == utf16_encode(b),
    ensures
        a == b,
    decreases a.len() + b.len(),
{
    lemma_utf16_len(a);
    lemma_utf16_len(b);
    if a.len() == 0 || b.len() == 0 {
        if a.len() > 0 {
            assert(utf16_of_char(a.last()).len() > 0);
            assert(utf16_encode(a).len() > 0);
        }
        if b.len() > 0 {
            assert(utf16_of_char(b.last()).len() > 0);
            assert(utf16_encode(b).len() > 0);
        }
        assert(a =~= b);
    } else {
        let x = a.last();
        let y = b.last();
        let ea = utf16_encode(a.drop_last());
        let eb = utf16_encode(b.drop_last());
        let ux = utf16_of_char(x);
        let uy = utf16_of_char(y);
        let e = utf16_encode(a);
        assert(e == ea + ux);
        assert(e == eb + uy);
        let vx = x as u32;
        let vy = y as u32;
        vstd::utf8::char_is_scalar(x);
        vstd::utf8::char_is_scalar(y);
        vstd::utf8::char_u32_cast(x, vx);
        vstd::utf8::char_u32_cast(y, vy);
        if vx < 0x10000 && vy < 0x10000 {
            assert(e.last() == vx as u16 && e.last() == vy as u16);
            assert(vx == vy);
            assert(ea =~= e.drop_last());
            assert(eb =~= e.drop_last());
        } else if vx < 0x10000 {
            assert(e.last() == vx as u16);
            assert(e.last() == (0xDC00 + (vy - 0x10000) % 1024) as u16);
            assert(false);
        } else if vy < 0x10000 {
            assert(e.last() == vy as u16);
            assert(e.last() == (0xDC00 + (vx - 0x10000) % 1024) as u16);
            assert(false);
        } else {
            let n = e.len();
            assert(e[n - 1] == (0xDC00 + (vx - 0x10000) % 1024) as u16);
            assert(e[n - 1] == (0xDC00 + (vy - 0x10000) % 1024) as u16);
            assert(e[n - 2] == (0xD800 + (vx - 0x10000) / 1024) as u16);
            assert(e[n - 2] == (0xD800 + (vy - 0x10000) / 1024) as u16);
            assert((vx - 0x10000) / 1024 == (vy - 0x10000) / 1024);
            assert((vx - 0x10000) % 1024 == (vy - 0x10000) % 1024);
            assert(vx == vy) by (nonlinear_arith)
                requires
                    vx >= 0x10000,
                    vy >= 0x10000,
                    (vx - 0x10000) / 1024 == (vy - 0x10000) / 1024,
                    (vx - 0x10000) % 1024 == (vy - 0x10000) % 1024,
            ;
            assert(ea =~= e.take(n - 2));
            assert(eb =~= e.take(n - 2));
        }
        assert(x == y);
        lemma_utf16_injective(a.drop_last(), b.drop_last());
        assert(a =~= a.drop_last().push(x));
        assert(b =~= b.drop_last().push(y));
    }
}

/// Text UTF-8 encoding keeps intact: it does not start with U+FEFF (which
/// would read as a byte-order mark) and has no NUL in its first 8 KiB (which
/// would read as binary).
pub open spec fn utf8_survives(text: Seq<char>) -> bool {
    let b = encode_utf8(text);
    !(b.len() >= 3 && b[0] == 0xEF && b[1] == 0xBB && b[2] == 0xBF) && !has_nul(sniff(b))
}

/// Law: decoding what [`encode`] wrote gives back the text and the encoding
/// (for plain UTF-8, when the text survives it, see [`utf8_survives`]).
pub proof fn law_decode_inverts_encode(text: Seq<char>, encoding: TextEncoding)
    requires
        encoding == TextEncoding::Utf8 ==> utf8_survives(text),
    ensures
        decode_spec(encode_spec(text, encoding)) == Some((text, encoding)),
{
    let bytes = encode_spec(text, encoding);
    match encoding {
        TextEncoding::Utf8 => {
            vstd::utf8::encode_utf8_valid_utf8(text);
            vstd::utf8::encode_utf8_decode_utf8(text);
            if text.len() > 0 {
                vstd::utf8::encode_utf8_first_scalar(text);
                assert(vstd::utf8::valid_leading_and_continuation_bytes_first_codepoint(bytes));
                assert(bytes[0] != 0xFF && bytes[0] != 0xFE);
            } else {
                assert(bytes.len() == 0);
            }
        },
        TextEncoding::Utf8Bom => {
            assert(bytes.skip(3) =~= encode_utf8(text));
            vstd::utf8::encode_utf8_valid_utf8(text);
            vstd::utf8::encode_utf8_decode_utf8(text);
        },
        TextEncoding::Utf16Le => {
            let units = utf16_encode(text);
            assert(bytes.skip(2) =~= unit_bytes(units, true));
            lemma_units_round_trip(units, true);
            let t = choose|t: Seq<char>| utf16_encode(t) == units;
            lemma_utf16_injective(t, text);
        },
        TextEncoding::Utf16Be => {
            let units = utf16_encode(text);
            assert(bytes.skip(2) =~= unit_bytes(units, false));
            lemma_units_round_trip(units, false);
            let t = choose|t: Seq<char>| utf16_encode(t) == units;
            lemma_utf16_injective(t, text);
        },
    }
}

} // verus!

verus! {

// ---------------------------------------------------------------------------
// Encoding a value for the place it is written to
// ---------------------------------------------------------------------------

pub open spec fn flat_map(s: Seq<char>, f: spec_fn(char) -> Seq<char>) -> Seq<char>
    decreases s.len(),
{
    if s.len() == 0 {
        seq![]
    } else {
        flat_map(s.drop_last(), f) + f(s.last())
    }
}

pub open spec fn hex4(v: u32) -> Seq<char> {
    seq![
        crate::model::hex_digit(((v / 4096) % 16) as u8),
        crate::model::hex_digit(((v / 256) % 16) as u8),
        crate::model::hex_digit(((v / 16) % 16) as u8),
        crate::model::hex_digit((v % 16) as u8),
    ]
}

/// JSON string escaping: quotes, backslashes, `\n`, `\r`, `\t`, and other
/// control characters as `\u` with four hex digits.
pub open spec fn json_char(c: char) -> Seq<char> {
    if c == '"' {
        seq!['\\', '"']
    } else if c == '\\' {
        seq!['\\', '\\']
    } else if c == '\n' {
        seq!['\\', 'n']
    } else if c == '\r' {
        seq!['\\', 'r']
    } else if c == '\t' {
        seq!['\\', 't']
    } else if text::is_control(c) {
        seq!['\\', 'u'] + hex4(c as u32)
    } else {
        seq![c]
    }
}

/// Backslash escaping inside double quotes (TOML, YAML, .env, text).
pub open spec fn backslash_char(c: char) -> Seq<char> {
    if c == '\\' {
        seq!['\\', '\\']
    } else if c == '"' {
        seq!['\\', '"']
    } else if c == '\n' {
        seq!['\\', 'n']
    } else if c == '\r' {
        seq!['\\', 'r']
    } else if c == '\t' {
        seq!['\\', 't']
    } else {
        seq![c]
    }
}

/// XML escaping; double quotes only inside attributes.
pub open spec fn xml_char(c: char, attribute: bool) -> Seq<char> {
    if c == '&' {
        "&amp;"@
    } else if c == '<' {
        "&lt;"@
    } else if c == '>' {
        "&gt;"@
    } else if c == '"' && attribute {
        "&quot;"@
    } else {
        seq![c]
    }
}

pub open spec fn escape_json_spec(s: Seq<char>) -> Seq<char> {
    flat_map(s, |c: char| json_char(c))
}

pub open spec fn escape_backslash_spec(s: Seq<char>) -> Seq<char> {
    flat_map(s, |c: char| backslash_char(c))
}

pub open spec fn escape_xml_spec(s: Seq<char>, attribute: bool) -> Seq<char> {
    flat_map(s, |c: char| xml_char(c, attribute))
}

/// The value of a hex digit of either case, or -1.
pub open spec fn hex_value(c: char) -> int {
    let u = c as u32;
    if 48 <= u <= 57 {
        u - 48
    } else if 97 <= u <= 102 {
        u - 87
    } else if 65 <= u <= 70 {
        u - 55
    } else {
        -1
    }
}

/// The character a two-character JSON escape `\x` stands for (`x` is not
/// `u`), if `x` names one.
pub open spec fn json_short_escape(x: char) -> Option<char> {
    if x == '"' {
        Some('"')
    } else if x == '\\' {
        Some('\\')
    } else if x == '/' {
        Some('/')
    } else if x == 'b' {
        Some('\u{8}')
    } else if x == 'f' {
        Some('\u{c}')
    } else if x == 'n' {
        Some('\n')
    } else if x == 'r' {
        Some('\r')
    } else if x == 't' {
        Some('\t')
    } else {
        None
    }
}

/// How a JSON reader reads the text between the quotes of a string (RFC 8259,
/// section 7): `t` reads as `s` when, from the left, each `\x` escape or
/// `\u` with four hex digits gives the next character of `s`, and any other
/// character (not a quote, not a control character below U+0020) stands for
/// itself. A lone quote, a raw control character or an unknown escape reads
/// as nothing.
pub open spec fn json_string_reads(t: Seq<char>, s: Seq<char>) -> bool
    decreases t.len(),
{
    if t.len() == 0 {
        s.len() == 0
    } else if s.len() == 0 {
        false
    } else if t[0] == '\\' {
        if t.len() >= 2 && json_short_escape(t[1]) is Some {
            s[0] == json_short_escape(t[1])->0 && json_string_reads(t.skip(2), s.skip(1))
        } else if t.len() >= 6 && t[1] == 'u' && hex_value(t[2]) >= 0 && hex_value(t[3]) >= 0 && hex_value(t[4]) >= 0
            && hex_value(t[5]) >= 0 {
            s[0] as u32 == 4096 * hex_value(t[2]) + 256 * hex_value(t[3]) + 16 * hex_value(t[4]) + hex_value(t[5])
                && json_string_reads(t.skip(6), s.skip(1))
        } else {
            false
        }
    } else {
        t[0] != '"' && (t[0] as u32) >= 0x20 && s[0] == t[0] && json_string_reads(t.skip(1), s.skip(1))
    }
}

/// `flat_map` read from the front.
pub proof fn lemma_flat_map_front(s: Seq<char>, f: spec_fn(char) -> Seq<char>)
    requires
        s.len() > 0,
    ensures
        flat_map(s, f) == f(s[0]) + flat_map(s.skip(1), f),
    decreases s.len(),
{
    if s.len() == 1 {
        assert(s.drop_last() =~= Seq::<char>::empty());
        assert(s.skip(1) =~= Seq::<char>::empty());
        assert(flat_map(s.skip(1), f) == Seq::<char>::empty());
        assert(f(s[0]) + Seq::<char>::empty() =~= f(s[0]));
    } else {
        let d = s.drop_last();
        lemma_flat_map_front(d, f);
        assert(s.skip(1).drop_last() =~= d.skip(1));
        assert(s.skip(1).last() == s.last());
        assert(d[0] == s[0]);
        assert(flat_map(s.skip(1), f) == flat_map(d.skip(1), f) + f(s.last()));
        assert(f(s[0]) + flat_map(d.skip(1), f) + f(s.last()) =~= f(s[0]) + (flat_map(d.skip(1), f) + f(s.last())));
    }
}

proof fn lemma_hex_digit_value(d: u8)
    requires
        d < 16,
    ensures
        hex_value(crate::model::hex_digit(d)) == d,
{
    if d < 10 {
        assert(((48 + d) as u32) as char as u32 == 48 + d);
    } else {
        assert(((87 + d) as u32) as char as u32 == 87 + d);
    }
}

proof fn lemma_json_reads(s: Seq<char>)
    ensures
        json_string_reads(escape_json_spec(s), s),
    decreases s.len(),
{
    if s.len() == 0 {
        assert(escape_json_spec(s) == Seq::<char>::empty());
    } else {
        let c = s[0];
        let rest = escape_json_spec(s.skip(1));
        lemma_json_reads(s.skip(1));
        lemma_flat_map_front(s, |c: char| json_char(c));
        let piece = json_char(c);
        let t = piece + rest;
        assert(escape_json_spec(s) == t);
        assert(t.skip(piece.len() as int) =~= rest);
        if text::is_control(c) && c != '\n' && c != '\r' && c != '\t' {
            let v = c as u32;
            assert(v < 0x10000);
            let d0 = ((v / 4096) % 16) as u8;
            let d1 = ((v / 256) % 16) as u8;
            let d2 = ((v / 16) % 16) as u8;
            let d3 = (v % 16) as u8;
            lemma_hex_digit_value(d0);
            lemma_hex_digit_value(d1);
            lemma_hex_digit_value(d2);
            lemma_hex_digit_value(d3);
            assert(4096 * ((v / 4096) % 16) + 256 * ((v / 256) % 16) + 16 * ((v / 16) % 16) + v % 16 == v) by (bit_vector)
                requires
                    v < 0x10000u32,
            ;
            assert(t[0] == '\\' && t[1] == 'u');
            assert(t[2] == crate::model::hex_digit(d0) && t[3] == crate::model::hex_digit(d1));
            assert(t[4] == crate::model::hex_digit(d2) && t[5] == crate::model::hex_digit(d3));
        }
    }
}

/// What a password is written as into a JSON string reads back, through the
/// JSON reader, as the password: between the quotes already there (a quoted
/// place), or between the quotes the encoding adds.
pub proof fn law_json_value_reads_back(value: Seq<char>, location: crate::model::FieldLocation)
    requires
        !location.xml_attr,
    ensures
        location.quoted ==> json_string_reads(encode_value_spec("json"@, location, value), value),
        !location.quoted ==> ({
            let e = encode_value_spec("json"@, location, value);
            e.len() >= 2 && e[0] == '"' && e.last() == '"' && json_string_reads(e.subrange(1, e.len() - 1), value)
        }),
{
    lemma_json_reads(value);
    let e = escape_json_spec(value);
    assert(quoted(e).subrange(1, quoted(e).len() - 1) =~= e);
}

/// The character a backslash escape `\x` stands for in a double-quoted
/// TOML, YAML or shell-style value, if `x` names one.
pub open spec fn backslash_escape(x: char) -> Option<char> {
    if x == '\\' {
        Some('\\')
    } else if x == '"' {
        Some('"')
    } else if x == 'n' {
        Some('\n')
    } else if x == 'r' {
        Some('\r')
    } else if x == 't' {
        Some('\t')
    } else {
        None
    }
}

/// How the text between double quotes reads under backslash escaping: from
/// the left, `\x` gives the character it names, any other character but a
/// quote stands for itself; a lone quote or an unknown escape reads as
/// nothing.
pub open spec fn backslash_reads(t: Seq<char>, s: Seq<char>) -> bool
    decreases t.len(),
{
    if t.len() == 0 {
        s.len() == 0
    } else if s.len() == 0 {
        false
    } else if t[0] == '\\' {
        t.len() >= 2 && backslash_escape(t[1]) is Some && s[0] == backslash_escape(t[1])->0 && backslash_reads(
            t.skip(2),
            s.skip(1),
        )
    } else {
        t[0] != '"' && s[0] == t[0] && backslash_reads(t.skip(1), s.skip(1))
    }
}

proof fn lemma_backslash_reads(s: Seq<char>)
    ensures
        backslash_reads(escape_backslash_spec(s), s),
    decreases s.len(),
{
    if s.len() == 0 {
        assert(escape_backslash_spec(s) == Seq::<char>::empty());
    } else {
        lemma_backslash_reads(s.skip(1));
        lemma_flat_map_front(s, |c: char| backslash_char(c));
        let piece = backslash_char(s[0]);
        let t = piece + escape_backslash_spec(s.skip(1));
        assert(escape_backslash_spec(s) == t);
        assert(t.skip(piece.len() as int) =~= escape_backslash_spec(s.skip(1)));
    }
}

/// A password written into a double-quoted value of a TOML, YAML, .env,
/// INI, properties, HCL or text file reads back, under backslash escaping,
/// as the password: between the quotes already there, or between the quotes
/// the encoding adds when the bare value would change the line's meaning.
pub proof fn law_backslash_value_reads_back(format: Seq<char>, value: Seq<char>, location: crate::model::FieldLocation)
    requires
        !location.xml_attr,
        format == "toml"@ || format == "yaml"@ || format == "env"@ || format == "text"@ || format == "ini"@ || format
            == "properties"@ || format == "hcl"@,
    ensures
        location.quoted ==> backslash_reads(encode_value_spec(format, location, value), value),
        !location.quoted && needs_quotes_spec(format, value) ==> ({
            let e = encode_value_spec(format, location, value);
            e.len() >= 2 && e[0] == '"' && e.last() == '"' && backslash_reads(e.subrange(1, e.len() - 1), value)
        }),
        !location.quoted && !needs_quotes_spec(format, value) ==> encode_value_spec(format, location, value) == value,
{
    reveal_strlit("json");
    reveal_strlit("xml");
    reveal_strlit("toml");
    reveal_strlit("yaml");
    reveal_strlit("env");
    reveal_strlit("text");
    reveal_strlit("ini");
    reveal_strlit("properties");
    reveal_strlit("hcl");
    assert(format.len() > 0 && format[0] != 'j' && format[0] != 'x');
    assert("json"@[0] == 'j' && "xml"@[0] == 'x');
    assert(format != "json"@ && format != "xml"@);
    lemma_backslash_reads(value);
    let e = escape_backslash_spec(value);
    assert(quoted(e).subrange(1, quoted(e).len() - 1) =~= e);
}

fn push_hex4(out: &mut Vec<char>, v: u32)
    requires
        v < 0x10000,
    ensures
        final(out)@ == old(out)@ + hex4(v),
{
    out.push(crate::model::hex_digit_exec(((v / 4096) % 16) as u8));
    out.push(crate::model::hex_digit_exec(((v / 256) % 16) as u8));
    out.push(crate::model::hex_digit_exec(((v / 16) % 16) as u8));
    out.push(crate::model::hex_digit_exec((v % 16) as u8));
    assert(final(out)@ =~= old(out)@ + hex4(v));
}

fn escape_json(value: &Vec<char>) -> (out: Vec<char>)
    ensures
        out@ == escape_json_spec(value@),
{
    let mut out: Vec<char> = Vec::new();
    let mut i: usize = 0;
    assert(value@.take(0) =~= Seq::<char>::empty());
    while i < value.len()
        invariant
            i <= value.len(),
            out@ == escape_json_spec(value@.take(i as int)),
        decreases value.len() - i,
    {
        let c = value[i];
        assert(value@.take(i + 1).drop_last() =~= value@.take(i as int));
        let ghost before = out@;
        if c == '"' {
            out.push('\\');
            out.push('"');
        } else if c == '\\' {
            out.push('\\');
            out.push('\\');
        } else if c == '\n' {
            out.push('\\');
            out.push('n');
        } else if c == '\r' {
            out.push('\\');
            out.push('r');
        } else if c == '\t' {
            out.push('\\');
            out.push('t');
        } else if text::char_is_control(c) {
            out.push('\\');
            out.push('u');
            push_hex4(&mut out, c as u32);
        } else {
            out.push(c);
        }
        assert(out@ =~= before + json_char(c));
        i += 1;
    }
    assert(value@.take(value.len() as int) =~= value@);
    out
}

fn escape_backslash(value: &Vec<char>) -> (out: Vec<char>)
    ensures
        out@ == escape_backslash_spec(value@),
{
    let mut out: Vec<char> = Vec::new();
    let mut i: usize = 0;
    assert(value@.take(0) =~= Seq::<char>::empty());
    while i < value.len()
        invariant
            i <= value.len(),
            out@ == escape_backslash_spec(value@.take(i as int)),
        decreases value.len() - i,
    {
        let c = value[i];
        assert(value@.take(i + 1).drop_last() =~= value@.take(i as int));
        let ghost before = out@;
        if c == '\\' {
            out.push('\\');
            out.push('\\');
        } else if c == '"' {
            out.push('\\');
            out.push('"');
        } else if c == '\n' {
            out.push('\\');
            out.push('n');
        } else if c == '\r' {
            out.push('\\');
            out.push('r');
        } else if c == '\t' {
            out.push('\\');
            out.push('t');
        } else {
            out.push(c);
        }
        assert(out@ =~= before + backslash_char(c));
        i += 1;
    }
    assert(value@.take(value.len() as int) =~= value@);
    out
}

fn escape_xml(value: &Vec<char>, attribute: bool) -> (out: Vec<char>)
    ensures
        out@ == escape_xml_spec(value@, attribute),
{
    let mut out: Vec<char> = Vec::new();
    let mut i: usize = 0;
    assert(value@.take(0) =~= Seq::<char>::empty());
    while i < value.len()
        invariant
            i <= value.len(),
            out@ == escape_xml_spec(value@.take(i as int), attribute),
        decreases value.len() - i,
    {
        let c = value[i];
        assert(value@.take(i + 1).drop_last() =~= value@.take(i as int));
        let ghost before = out@;
        if c == '&' {
            text::push_str(&mut out, "&amp;");
        } else if c == '<' {
            text::push_str(&mut out, "&lt;");
        } else if c == '>' {
            text::push_str(&mut out, "&gt;");
        } else if c == '"' && attribute {
            text::push_str(&mut out, "&quot;");
        } else {
            out.push(c);
        }
        assert(out@ =~= before + xml_char(c, attribute));
        i += 1;
    }
    assert(value@.take(value.len() as int) =~= value@);
    out
}

} // verus!

verus! {

pub open spec fn has_c(s: Seq<char>, c: char) -> bool {
    s.contains(c)
}

pub open spec fn any_control(s: Seq<char>) -> bool {
    exists|i: int| 0 <= i < s.len() && text::is_control(#[trigger] s[i])
}

pub open spec fn any_space(s: Seq<char>) -> bool {
    exists|i: int| 0 <= i < s.len() && text::is_space(#[trigger] s[i])
}

/// Whether an unquoted value would change the meaning of the line it is
/// written to (comment markers, separators, quotes, surrounding blanks).
pub open spec fn needs_quotes_spec(format: Seq<char>, value: Seq<char>) -> bool {
    if value.len() == 0 {
        true
    } else if format == "toml"@ || format == "yaml"@ {
        has_c(value, '#') || has_c(value, ':') || has_c(value, '"') || has_c(value, '\'') || value[0]
            == ' ' || value.last() == ' ' || any_control(value)
    } else if format == "env"@ {
        has_c(value, '#') || has_c(value, '=') || has_c(value, '"') || has_c(value, '\'')
            || any_space(value)
    } else {
        has_c(value, '#') || has_c(value, ':') || has_c(value, '=') || has_c(value, '"')
            || any_space(value)
    }
}

pub open spec fn quoted(s: Seq<char>) -> Seq<char> {
    seq!['"'] + s + seq!['"']
}

/// The text that replaces a value so that the file reads back the password,
/// keeping the original quoting style where that is possible.
pub open spec fn encode_value_spec(format: Seq<char>, location: crate::model::FieldLocation, value: Seq<char>) -> Seq<char> {
    if location.xml_attr {
        escape_xml_spec(value, true)
    } else if format == "json"@ {
        if location.quoted {
            escape_json_spec(value)
        } else {
            quoted(escape_json_spec(value))
        }
    } else if format == "xml"@ {
        escape_xml_spec(value, false)
    } else if format == "toml"@ || format == "yaml"@ || format == "env"@ || format == "text"@ || format == "ini"@
        || format == "properties"@ || format == "hcl"@ {
        if location.quoted {
            escape_backslash_spec(value)
        } else if needs_quotes_spec(format, value) {
            quoted(escape_backslash_spec(value))
        } else {
            value
        }
    } else {
        value
    }
}

fn any_control_exec(s: &Vec<char>) -> (r: bool)
    ensures
        r == any_control(s@),
{
    let mut i: usize = 0;
    while i < s.len()
        invariant
            i <= s.len(),
            forall|k: int| 0 <= k < i ==> !text::is_control(#[trigger] s@[k]),
        decreases s.len() - i,
    {
        if text::char_is_control(s[i]) {
            return true;
        }
        i += 1;
    }
    false
}

fn any_space_exec(s: &Vec<char>) -> (r: bool)
    ensures
        r == any_space(s@),
{
    let mut i: usize = 0;
    while i < s.len()
        invariant
            i <= s.len(),
            forall|k: int| 0 <= k < i ==> !text::is_space(#[trigger] s@[k]),
        decreases s.len() - i,
    {
        if text::char_is_space(s[i]) {
            return true;
        }
        i += 1;
    }
    false
}

fn needs_quotes(format: &str, value: &Vec<char>) -> (r: bool)
    ensures
        r == needs_quotes_spec(format@, value@),
{
    if value.len() == 0 {
        return true;
    }
    let has = |c: char| -> (b: bool)
        ensures
            b == has_c(value@, c),
        { text::has_char(value, c) };
    if text::str_eq(format, "toml") || text::str_eq(format, "yaml") {
        has('#') || has(':') || has('"') || has('\'') || value[0] == ' ' || value[value.len() - 1]
            == ' ' || any_control_exec(value)
    } else if text::str_eq(format, "env") {
        has('#') || has('=') || has('"') || has('\'') || any_space_exec(value)
    } else {
        has('#') || has(':') || has('=') || has('"') || any_space_exec(value)
    }
}

fn quote(s: &Vec<char>) -> (out: Vec<char>)
    ensures
        out@ == quoted(s@),
{
    let mut out: Vec<char> = Vec::new();
    out.push('"');
    text::push_all(&mut out, s);
    out.push('"');
    assert(out@ =~= quoted(s@));
    out
}

/// Encodes a password for the exact place it is written to.
pub fn encode_value(format: &str, location: &crate::model::FieldLocation, value: &str) -> (r: crate::error::AppResult<String>)
    ensures
        r matches Ok(s) && s@ == encode_value_spec(format@, *location, value@),
{
    let v = text::chars_of(value);
    let out = if location.xml_attr {
        escape_xml(&v, true)
    } else if text::str_eq(format, "json") {
        if location.quoted {
            escape_json(&v)
        } else {
            quote(&escape_json(&v))
        }
    } else if text::str_eq(format, "xml") {
        escape_xml(&v, false)
    } else if text::str_eq(format, "toml") || text::str_eq(format, "yaml") || text::str_eq(
        format,
        "env",
    ) || text::str_eq(format, "text") || text::str_eq(format, "ini") || text::str_eq(format, "properties")
        || text::str_eq(format, "hcl") {
        if location.quoted {
            escape_backslash(&v)
        } else if needs_quotes(format, &v) {
            quote(&escape_backslash(&v))
        } else {
            v
        }
    } else {
        v
    };
    Ok(text::string_of(&out))
}

} // verus!

verus! {

// ---------------------------------------------------------------------------
// Splicing edits into a document
// ---------------------------------------------------------------------------

/// Replace the bytes `start..end` of the document by `text`.
#[derive(Debug, Clone)]
pub struct Edit {
    pub start: usize,
    pub end: usize,
    pub text: String,
}

/// `e` placed after every edit whose start is not greater.
pub open spec fn insert_by_start(sorted: Seq<Edit>, e: Edit) -> Seq<Edit>
    decreases sorted.len(),
{
    if sorted.len() == 0 {
        seq![e]
    } else if sorted.last().start <= e.start {
        sorted.push(e)
    } else {
        insert_by_start(sorted.drop_last(), e).push(sorted.last())
    }
}

/// A stable sort by start offset.
pub open spec fn sort_edits(es: Seq<Edit>) -> Seq<Edit>
    decreases es.len(),
{
    if es.len() == 0 {
        seq![]
    } else {
        insert_by_start(sort_edits(es.drop_last()), es.last())
    }
}

pub open spec fn overlapping(sorted: Seq<Edit>) -> bool {
    exists|k: int| 0 <= k < sorted.len() - 1 && #[trigger] sorted[k].end > sorted[k + 1].start
}

pub open spec fn out_of_range(e: Edit, bytes: Seq<u8>) -> bool {
    e.start > e.end || e.end > bytes.len()
}

pub open spec fn off_boundary(e: Edit, bytes: Seq<u8>) -> bool {
    !vstd::utf8::is_char_boundary(bytes, e.start as int) || !vstd::utf8::is_char_boundary(bytes, e.end as int)
}

/// The first edit (in sorted order) that cannot be applied: `Some(true)`
/// when its range is out of the document, `Some(false)` when it cuts a
/// character.
pub open spec fn first_problem(sorted: Seq<Edit>, bytes: Seq<u8>) -> Option<bool>
    decreases sorted.len(),
{
    if sorted.len() == 0 {
        None
    } else if out_of_range(sorted[0], bytes) {
        Some(true)
    } else if off_boundary(sorted[0], bytes) {
        Some(false)
    } else {
        first_problem(sorted.drop_first(), bytes)
    }
}

/// The document with every edit's range replaced by its text.
pub open spec fn spliced(bytes: Seq<u8>, sorted: Seq<Edit>, pos: int) -> Seq<u8>
    decreases sorted.len(),
{
    if sorted.len() == 0 {
        bytes.subrange(pos, bytes.len() as int)
    } else {
        bytes.subrange(pos, sorted[0].start as int) + encode_utf8(sorted[0].text@) + spliced(
            bytes,
            sorted.drop_first(),
            sorted[0].end as int,
        )
    }
}

/// What applying the edits to a document gives: the new bytes, or the
/// message that refuses them.
pub open spec fn apply_spec(text: Seq<char>, edits: Seq<Edit>) -> Result<Seq<u8>, Seq<char>> {
    let sorted = sort_edits(edits);
    let bytes = encode_utf8(text);
    if overlapping(sorted) {
        Err("替换范围重叠，已取消写入以保护文件"@)
    } else {
        match first_problem(sorted, bytes) {
            Some(true) => Err("替换范围超出文件内容，已取消写入"@),
            Some(false) => Err("替换范围不在字符边界上，已取消写入"@),
            None => Ok(spliced(bytes, sorted, 0)),
        }
    }
}

/// One edit changes nothing but its own byte range: before `start` and
/// from `end` on, the new document has the bytes of the old one.
pub proof fn law_one_edit_keeps_the_rest(text: Seq<char>, e: Edit)
    ensures
        apply_spec(text, seq![e]) matches Ok(b) ==> b == encode_utf8(text).take(e.start as int) + encode_utf8(e.text@)
            + encode_utf8(text).skip(e.end as int),
{
    let bytes = encode_utf8(text);
    let one = seq![e];
    assert(one.drop_last() =~= Seq::<Edit>::empty());
    assert(one.last() == e);
    assert(sort_edits(Seq::<Edit>::empty()) == Seq::<Edit>::empty());
    assert(insert_by_start(Seq::<Edit>::empty(), e) == one);
    assert(sort_edits(one) == one);
    if apply_spec(text, one) is Ok {
        assert(one.drop_first() =~= Seq::<Edit>::empty());
        assert(one[0] == e);
        assert(spliced(bytes, one.drop_first(), e.end as int) == bytes.subrange(e.end as int, bytes.len() as int));
        assert(spliced(bytes, one, 0) == bytes.subrange(0, e.start as int) + encode_utf8(e.text@) + spliced(
            bytes,
            one.drop_first(),
            e.end as int,
        ));
        assert(apply_spec(text, one) == Ok::<Seq<u8>, Seq<char>>(spliced(bytes, one, 0)));
        assert(bytes.subrange(0, e.start as int) =~= bytes.take(e.start as int));
        assert(bytes.subrange(e.end as int, bytes.len() as int) =~= bytes.skip(e.end as int));
    }
}

pub open spec fn edit_problem(e: Edit, bytes: Seq<u8>) -> bool {
    out_of_range(e, bytes) || off_boundary(e, bytes)
}

proof fn lemma_first_problem(sorted: Seq<Edit>, bytes: Seq<u8>)
    ensures
        first_problem(sorted, bytes) is Some <==> exists|k: int| 0 <= k < sorted.len() && edit_problem(#[trigger] sorted[k], bytes),
    decreases sorted.len(),
{
    if sorted.len() > 0 {
        let rest = sorted.drop_first();
        lemma_first_problem(rest, bytes);
        if first_problem(rest, bytes) is Some {
            let k = choose|k: int| 0 <= k < rest.len() && edit_problem(#[trigger] rest[k], bytes);
            assert(sorted[k + 1] == rest[k]);
        }
        if exists|k: int| 0 <= k < sorted.len() && edit_problem(#[trigger] sorted[k], bytes) {
            let k = choose|k: int| 0 <= k < sorted.len() && edit_problem(#[trigger] sorted[k], bytes);
            if k > 0 {
                assert(rest[k - 1] == sorted[k]);
            }
        }
    }
}

pub open spec fn by_start(s: Seq<Edit>) -> bool {
    forall|k: int| 0 <= k < s.len() - 1 ==> #[trigger] s[k].start <= s[k + 1].start
}

proof fn lemma_insert_by_start(s: Seq<Edit>, e: Edit)
    requires
        by_start(s),
    ensures
        by_start(insert_by_start(s, e)),
        insert_by_start(s, e).to_multiset() == s.to_multiset().insert(e),
        insert_by_start(s, e).len() > 0,
        insert_by_start(s, e).last() == e || (s.len() > 0 && insert_by_start(s, e).last() == s.last()),
    decreases s.len(),
{
    broadcast use vstd::seq_lib::group_to_multiset_ensures;
    if s.len() == 0 {
        assert(seq![e] =~= Seq::<Edit>::empty().push(e));
    } else if s.last().start <= e.start {
        assert forall|k: int| 0 <= k < s.push(e).len() - 1 implies #[trigger] s.push(e)[k].start <= s.push(e)[k + 1].start by {
            if k < s.len() - 1 {
                assert(s.push(e)[k] == s[k] && s.push(e)[k + 1] == s[k + 1]);
            }
        }
    } else {
        let d = s.drop_last();
        let l = s.last();
        assert(d.push(l) =~= s);
        assert(by_start(d)) by {
            assert forall|k: int| 0 <= k < d.len() - 1 implies #[trigger] d[k].start <= d[k + 1].start by {
                assert(s[k] == d[k] && s[k + 1] == d[k + 1]);
            }
        }
        lemma_insert_by_start(d, e);
        let t = insert_by_start(d, e);
        if d.len() > 0 {
            assert(s[d.len() - 1] == d.last());
        }
        assert forall|k: int| 0 <= k < t.push(l).len() - 1 implies #[trigger] t.push(l)[k].start <= t.push(l)[k + 1].start by {
            if k < t.len() - 1 {
                assert(t.push(l)[k] == t[k] && t.push(l)[k + 1] == t[k + 1]);
            }
        }
        assert(d.to_multiset().insert(e).insert(l) =~= d.to_multiset().insert(l).insert(e));
    }
}

proof fn lemma_sort_edits(es: Seq<Edit>)
    ensures
        sort_edits(es).to_multiset() == es.to_multiset(),
        by_start(sort_edits(es)),
    decreases es.len(),
{
    broadcast use vstd::seq_lib::group_to_multiset_ensures;
    if es.len() == 0 {
        assert(es =~= Seq::<Edit>::empty());
    } else {
        lemma_sort_edits(es.drop_last());
        lemma_insert_by_start(sort_edits(es.drop_last()), es.last());
        assert(es.drop_last().push(es.last()) =~= es);
    }
}

/// Edits are refused exactly when, in start order, one runs into the next,
/// or some edit reaches outside the document or cuts a character; the edits
/// are applied in start order, each one once.
pub proof fn law_apply_refuses_exactly(text: Seq<char>, edits: Seq<Edit>)
    ensures
        apply_spec(text, edits) is Err <==> (overlapping(sort_edits(edits)) || exists|i: int|
            0 <= i < edits.len() && edit_problem(#[trigger] edits[i], encode_utf8(text))),
        sort_edits(edits).to_multiset() == edits.to_multiset(),
        by_start(sort_edits(edits)),
{
    broadcast use vstd::seq_lib::group_to_multiset_ensures;
    let bytes = encode_utf8(text);
    let sorted = sort_edits(edits);
    lemma_sort_edits(edits);
    lemma_first_problem(sorted, bytes);
    if exists|k: int| 0 <= k < sorted.len() && edit_problem(#[trigger] sorted[k], bytes) {
        let k = choose|k: int| 0 <= k < sorted.len() && edit_problem(#[trigger] sorted[k], bytes);
        assert(sorted.contains(sorted[k]));
        assert(sorted.to_multiset().count(sorted[k]) > 0);
        assert(edits.to_multiset().count(sorted[k]) > 0);
        assert(edits.contains(sorted[k]));
    }
    if exists|i: int| 0 <= i < edits.len() && edit_problem(#[trigger] edits[i], bytes) {
        let i = choose|i: int| 0 <= i < edits.len() && edit_problem(#[trigger] edits[i], bytes);
        assert(edits.contains(edits[i]));
        assert(edits.to_multiset().count(edits[i]) > 0);
        assert(sorted.to_multiset().count(edits[i]) > 0);
        assert(sorted.contains(edits[i]));
    }
}

proof fn lemma_insert_edit_at(sorted: Seq<Edit>, e: Edit, pos: int)
    requires
        0 <= pos <= sorted.len(),
        forall|k: int| pos <= k < sorted.len() ==> #[trigger] sorted[k].start > e.start,
        pos > 0 ==> sorted[pos - 1].start <= e.start,
    ensures
        insert_by_start(sorted, e) == sorted.take(pos).push(e) + sorted.skip(pos),
    decreases sorted.len(),
{
    if sorted.len() == 0 {
        assert(sorted.take(pos).push(e) + sorted.skip(pos) =~= seq![e]);
    } else if pos == sorted.len() {
        assert(sorted.take(pos).push(e) + sorted.skip(pos) =~= sorted.push(e));
    } else {
        lemma_insert_edit_at(sorted.drop_last(), e, pos);
        assert(sorted.drop_last().take(pos) =~= sorted.take(pos));
        assert((sorted.take(pos).push(e) + sorted.drop_last().skip(pos)).push(sorted.last())
            =~= sorted.take(pos).push(e) + sorted.skip(pos));
    }
}

fn copy_edit(e: &Edit) -> (r: Edit)
    ensures
        r == *e,
{
    Edit { start: e.start, end: e.end, text: e.text.clone() }
}

fn sort_edits_exec(edits: &[Edit]) -> (out: Vec<Edit>)
    ensures
        out@ == sort_edits(edits@),
{
    let mut out: Vec<Edit> = Vec::new();
    let mut i: usize = 0;
    assert(edits@.take(0) =~= Seq::<Edit>::empty());
    while i < edits.len()
        invariant
            i <= edits.len(),
            out@ == sort_edits(edits@.take(i as int)),
        decreases edits.len() - i,
    {
        let e = copy_edit(&edits[i]);
        let mut pos: usize = out.len();
        while pos > 0 && out[pos - 1].start > e.start
            invariant
                pos <= out.len(),
                forall|k: int| pos <= k < out.len() ==> #[trigger] out@[k].start > e.start,
            decreases pos,
        {
            pos -= 1;
        }
        proof {
            lemma_insert_edit_at(out@, e, pos as int);
            assert(edits@.take(i + 1).drop_last() =~= edits@.take(i as int));
        }
        out.insert(pos, e);
        i += 1;
        assert(out@ =~= sort_edits(edits@.take(i as int)));
    }
    assert(edits@.take(edits.len() as int) =~= edits@);
    out
}

proof fn lemma_encode_utf8_concat(a: Seq<char>, b: Seq<char>)
    ensures
        encode_utf8(a + b) == encode_utf8(a) + encode_utf8(b),
    decreases a.len(),
{
    if a.len() == 0 {
        assert(a + b =~= b);
    } else {
        assert((a + b).drop_first() =~= a.drop_first() + b);
        lemma_encode_utf8_concat(a.drop_first(), b);
    }
}

/// A boundary of the document, `pos` bytes in, is a boundary of every
/// suffix that starts at an earlier boundary.
proof fn lemma_suffix_boundary(b: Seq<u8>, pos: int, k: int)
    requires
        valid_utf8(b),
        0 <= pos <= k <= b.len(),
        vstd::utf8::is_char_boundary(b, pos),
        vstd::utf8::is_char_boundary(b, k),
    ensures
        valid_utf8(b.subrange(pos, b.len() as int)),
        vstd::utf8::is_char_boundary(b.subrange(pos, b.len() as int), k - pos),
{
    vstd::utf8::valid_utf8_split(b, pos);
    let s = b.subrange(pos, b.len() as int);
    if k == b.len() {
        vstd::utf8::is_char_boundary_start_end_of_seq(s);
    } else if k == pos {
        vstd::utf8::is_char_boundary_start_end_of_seq(s);
    } else {
        vstd::utf8::is_char_boundary_iff_not_is_continuation_byte(b, k);
        vstd::utf8::is_char_boundary_iff_not_is_continuation_byte(s, k - pos);
        assert(s[k - pos] == b[k]);
    }
}

} // verus!

verus! {

pub open spec fn is_msg(e: crate::error::AppError, text: Seq<char>) -> bool {
    e matches crate::error::AppError::Msg(m) && m@ == text
}

fn msg(text: &str) -> (e: crate::error::AppError)
    ensures
        is_msg(e, text@),
{
    crate::error::AppError::Msg(text.to_owned())
}

/// Applies the edits, sorted by start offset: overlapping edits, ranges
/// outside the document and ranges that cut a character are refused
/// instead of corrupting the file (see [`apply_spec`]).
#[verifier::rlimit(40)]
pub fn apply(text: &str, edits: &[Edit]) -> (r: crate::error::AppResult<String>)
    ensures
        match apply_spec(text@, edits@) {
            Ok(b) => r matches Ok(s) && encode_utf8(s@) == b && s@ == decode_utf8(b),
            Err(m) => r matches Err(e) && is_msg(e, m),
        },
{
    let sorted = sort_edits_exec(edits);
    let ghost bytes = encode_utf8(text@);
    proof {
        vstd::utf8::encode_utf8_valid_utf8(text@);
    }
    let mut k: usize = 0;
    while sorted.len() > 0 && k < sorted.len() - 1
        invariant
            k <= sorted.len(),
            sorted@ == sort_edits(edits@),
            forall|j: int| 0 <= j < k ==> !(#[trigger] sorted@[j].end > sorted@[j + 1].start),
        decreases sorted.len() - k,
    {
        if sorted[k].end > sorted[k + 1].start {
            assert(sorted@[k as int].end > sorted@[k + 1].start);
            assert(overlapping(sorted@));
            return Err(msg("替换范围重叠，已取消写入以保护文件"));
        }
        k += 1;
    }
    assert(!overlapping(sorted@));
    let len = text.as_bytes().len();
    let mut i: usize = 0;
    assert(sorted@.skip(0) =~= sorted@);
    while i < sorted.len()
        invariant
            i <= sorted.len(),
            sorted@ == sort_edits(edits@),
            !overlapping(sorted@),
            len == bytes.len(),
            bytes == text.spec_bytes(),
            first_problem(sorted@, bytes) == first_problem(sorted@.skip(i as int), bytes),
            forall|j: int| 0 <= j < i ==> !out_of_range(#[trigger] sorted@[j], bytes) && !off_boundary(sorted@[j], bytes),
        decreases sorted.len() - i,
    {
        let e = &sorted[i];
        assert(sorted@.skip(i as int).drop_first() =~= sorted@.skip(i + 1));
        if e.start > e.end || e.end > len {
            return Err(msg("替换范围超出文件内容，已取消写入"));
        }
        if !text.is_char_boundary(e.start) || !text.is_char_boundary(e.end) {
            return Err(msg("替换范围不在字符边界上，已取消写入"));
        }
        i += 1;
    }
    assert(first_problem(sorted@.skip(sorted.len() as int), bytes) is None);
    let mut out: Vec<char> = Vec::new();
    let mut rest: &str = text;
    let mut pos: usize = 0;
    let mut i: usize = 0;
    proof {
        vstd::utf8::is_char_boundary_start_end_of_seq(bytes);
        assert(bytes.subrange(0, bytes.len() as int) =~= bytes);
        assert(encode_utf8(out@) =~= Seq::<u8>::empty());
        assert(Seq::<u8>::empty() + spliced(bytes, sorted@.skip(0), 0) =~= spliced(bytes, sorted@, 0));
    }
    while i < sorted.len()
        invariant
            i <= sorted.len(),
            valid_utf8(bytes),
            bytes == text.spec_bytes(),
            pos <= bytes.len(),
            vstd::utf8::is_char_boundary(bytes, pos as int),
            rest.spec_bytes() == bytes.subrange(pos as int, bytes.len() as int),
            i < sorted.len() ==> pos <= sorted@[i as int].start,
            forall|j: int| 0 <= j < sorted.len() ==> !out_of_range(#[trigger] sorted@[j], bytes) && !off_boundary(sorted@[j], bytes),
            forall|j: int| 0 <= j < sorted.len() - 1 ==> !(#[trigger] sorted@[j].end > sorted@[j + 1].start),
            encode_utf8(out@) + spliced(bytes, sorted@.skip(i as int), pos as int) == spliced(bytes, sorted@, 0),
        decreases sorted.len() - i,
    {
        let e = &sorted[i];
        assert(!out_of_range(sorted@[i as int], bytes) && !off_boundary(sorted@[i as int], bytes));
        proof {
            lemma_suffix_boundary(bytes, pos as int, e.start as int);
        }
        let (left, right) = rest.split_at(e.start - pos);
        assert(left.spec_bytes() =~= bytes.subrange(pos as int, e.start as int));
        assert(right.spec_bytes() =~= bytes.subrange(e.start as int, bytes.len() as int));
        proof {
            lemma_suffix_boundary(bytes, e.start as int, e.end as int);
        }
        let (_, after) = right.split_at(e.end - e.start);
        assert(after.spec_bytes() =~= bytes.subrange(e.end as int, bytes.len() as int));
        let ghost before = out@;
        text::push_str(&mut out, left);
        text::push_str(&mut out, e.text.as_str());
        proof {
            lemma_encode_utf8_concat(before, left@);
            lemma_encode_utf8_concat(before + left@, e.text@);
            assert(out@ == before + left@ + e.text@);
            assert(sorted@.skip(i as int)[0] == sorted@[i as int]);
            assert(sorted@.skip(i as int).drop_first() =~= sorted@.skip(i + 1));
            assert(encode_utf8(out@) + spliced(bytes, sorted@.skip(i + 1), e.end as int) =~= encode_utf8(before) + spliced(bytes, sorted@.skip(i as int), pos as int));
        }
        rest = after;
        pos = e.end;
        i += 1;
        assert(i < sorted.len() ==> sorted@[i - 1].end <= sorted@[i as int].start);
    }
    let ghost before = out@;
    text::push_str(&mut out, rest);
    proof {
        lemma_encode_utf8_concat(before, rest@);
        assert(sorted@.skip(sorted.len() as int) =~= Seq::<Edit>::empty());
        vstd::utf8::encode_utf8_decode_utf8(out@);
    }
    Ok(text::string_of(&out))
}

} // verus!
