//! Minimal standard base64 (RFC 4648): padded encoding, and a decoder that
//! skips padding and line breaks.

use vstd::prelude::*;
use crate::text;
use vstd::string::StringSliceAdditionalSpecFns;

verus! {

// ---------------------------------------------------------------------------
// Specification
// ---------------------------------------------------------------------------

/// The RFC 4648 alphabet: `A-Z`, `a-z`, `0-9`, `+`, `/`.
pub open spec fn alphabet(v: u8) -> char {
    if v < 26 {
        (65 + v) as char
    } else if v < 52 {
        (97 + (v - 26)) as char
    } else if v < 62 {
        (48 + (v - 52)) as char
    } else if v == 62 {
        '+'
    } else {
        '/'
    }
}

/// The value of an alphabet byte, or `None` for any other byte.
pub open spec fn sextet_of(b: u8) -> Option<u8> {
    if 65 <= b <= 90 {
        Some((b - 65) as u8)
    } else if 97 <= b <= 122 {
        Some((b - 97 + 26) as u8)
    } else if 48 <= b <= 57 {
        Some((b - 48 + 52) as u8)
    } else if b == 43 {
        Some(62u8)
    } else if b == 47 {
        Some(63u8)
    } else {
        None
    }
}

/// Bytes the decoder passes over: `=`, `\n`, `\r`, space and tab.
pub open spec fn is_skipped(b: u8) -> bool {
    b == 61 || b == 10 || b == 13 || b == 32 || b == 9
}

pub open spec fn sx0(a: u8) -> u8 {
    a >> 2
}

pub open spec fn sx1(a: u8, b: u8) -> u8 {
    ((a & 3) << 4) | (b >> 4)
}

pub open spec fn sx2(b: u8, c: u8) -> u8 {
    ((b & 15) << 2) | (c >> 6)
}

pub open spec fn sx3(c: u8) -> u8 {
    c & 63
}

/// Padded base64 text of `d`, one group of four characters per three bytes.
pub open spec fn encode_spec(d: Seq<u8>) -> Seq<char>
    decreases d.len(),
{
    if d.len() == 0 {
        seq![]
    } else if d.len() == 1 {
        seq![alphabet(sx0(d[0])), alphabet(sx1(d[0], 0)), '=', '=']
    } else if d.len() == 2 {
        seq![alphabet(sx0(d[0])), alphabet(sx1(d[0], d[1])), alphabet(sx2(d[1], 0)), '=']
    } else {
        seq![
            alphabet(sx0(d[0])),
            alphabet(sx1(d[0], d[1])),
            alphabet(sx2(d[1], d[2])),
            alphabet(sx3(d[2])),
        ] + encode_spec(d.skip(3))
    }
}

/// The 6-bit values of `t` with skipped bytes removed, or the first byte that
/// is neither skipped nor part of the alphabet.
pub open spec fn sextets(t: Seq<u8>) -> Result<Seq<u8>, u8>
    decreases t.len(),
{
    if t.len() == 0 {
        Ok(seq![])
    } else if is_skipped(t[0]) {
        sextets(t.drop_first())
    } else {
        match sextet_of(t[0]) {
            None => Err(t[0]),
            Some(v) => match sextets(t.drop_first()) {
                Ok(r) => Ok(seq![v] + r),
                Err(e) => Err(e),
            },
        }
    }
}

pub open spec fn by0(v0: u8, v1: u8) -> u8 {
    (v0 << 2) | (v1 >> 4)
}

pub open spec fn by1(v1: u8, v2: u8) -> u8 {
    (v1 << 4) | (v2 >> 2)
}

pub open spec fn by2(v2: u8, v3: u8) -> u8 {
    (v2 << 6) | v3
}

/// The bytes a stream of 6-bit values carries; leftover bits are dropped.
pub open spec fn bytes_of(v: Seq<u8>) -> Seq<u8>
    decreases v.len(),
{
    if v.len() >= 4 {
        seq![by0(v[0], v[1]), by1(v[1], v[2]), by2(v[2], v[3])] + bytes_of(v.skip(4))
    } else if v.len() == 3 {
        seq![by0(v[0], v[1]), by1(v[1], v[2])]
    } else if v.len() == 2 {
        seq![by0(v[0], v[1])]
    } else {
        seq![]
    }
}

/// What `decode` produces for the UTF-8 bytes `t` of its input.
pub open spec fn decode_spec(t: Seq<u8>) -> Result<Seq<u8>, u8> {
    match sextets(t) {
        Ok(v) => Ok(bytes_of(v)),
        Err(b) => Err(b),
    }
}

pub open spec fn ascii_bytes(s: Seq<char>) -> Seq<u8> {
    s.map_values(|c: char| c as u8)
}

// ---------------------------------------------------------------------------
// Executable code
// ---------------------------------------------------------------------------

fn alphabet_char(v: u8) -> (c: char)
    requires
        v < 64,
    ensures
        c == alphabet(v),
{
    if v < 26 {
        (65u8 + v) as char
    } else if v < 52 {
        (97u8 + (v - 26)) as char
    } else if v < 62 {
        (48u8 + (v - 52)) as char
    } else if v == 62 {
        '+'
    } else {
        '/'
    }
}

proof fn lemma_sextet_bounds(a: u8, b: u8, c: u8)
    ensures
        sx0(a) < 64,
        sx1(a, b) < 64,
        sx2(b, c) < 64,
        sx3(c) < 64,
{
    assert(a >> 2 < 64) by (bit_vector);
    assert(((a & 3) << 4) | (b >> 4) < 64) by (bit_vector);
    assert(((b & 15) << 2) | (c >> 6) < 64) by (bit_vector);
    assert(c & 63 < 64) by (bit_vector);
}

pub fn encode(data: &[u8]) -> (out: String)
    ensures
        out@ == encode_spec(data@),
{
    let mut chars: Vec<char> = Vec::new();
    let mut i: usize = 0;
    assert(data@.skip(0) =~= data@);
    while i < data.len()
        invariant
            i <= data.len(),
            encode_spec(data@) == chars@ + encode_spec(data@.skip(i as int)),
        decreases data.len() - i,
    {
        let rest = data.len() - i;
        let a = data[i];
        let b: u8 = if rest > 1 { data[i + 1] } else { 0 };
        let c: u8 = if rest > 2 { data[i + 2] } else { 0 };
        proof {
            lemma_sextet_bounds(a, b, c);
        }
        let s0 = a >> 2;
        let s1 = ((a & 3) << 4) | (b >> 4);
        let s2 = ((b & 15) << 2) | (c >> 6);
        let s3 = c & 63;
        let ghost before = chars@;
        chars.push(alphabet_char(s0));
        chars.push(alphabet_char(s1));
        if rest > 1 {
            chars.push(alphabet_char(s2));
        } else {
            chars.push('=');
        }
        if rest > 2 {
            chars.push(alphabet_char(s3));
        } else {
            chars.push('=');
        }
        let ghost tail = data@.skip(i as int);
        if rest > 2 {
            assert(tail.skip(3) =~= data@.skip(i + 3));
            i = i + 3;
        } else {
            assert(data@.skip(data.len() as int) =~= Seq::<u8>::empty());
            i = data.len();
        }
        assert(chars@ =~= before + encode_spec(tail).take(4)) by {
            reveal_with_fuel(encode_spec, 2);
        }
        assert(encode_spec(tail) =~= encode_spec(tail).take(4) + encode_spec(data@.skip(i as int)))
            by {
            reveal_with_fuel(encode_spec, 2);
        }
    }
    text::string_of(&chars)
}

fn sextet_value(b: u8) -> (r: Option<u8>)
    ensures
        r == sextet_of(b),
{
    if 65u8 <= b && b <= 90u8 {
        Some(b - 65u8)
    } else if 97u8 <= b && b <= 122u8 {
        Some(b - 97u8 + 26)
    } else if 48u8 <= b && b <= 57u8 {
        Some(b - 48u8 + 52)
    } else if b == 43u8 {
        Some(62)
    } else if b == 47u8 {
        Some(63)
    } else {
        None
    }
}

/// Decodes standard base64. Padding, line breaks, spaces and tabs are
/// skipped; any other byte outside the alphabet is reported.
pub fn decode(text: &str) -> (r: Result<Vec<u8>, String>)
    ensures
        match decode_spec(text.spec_bytes()) {
            Ok(v) => r matches Ok(out) && out@ == v,
            Err(b) => r matches Err(msg) && msg@ == invalid_message(b),
        },
{
    let bytes = text.as_bytes();
    match collect_sextets(bytes) {
        Ok(values) => Ok(bytes_from_sextets(&values)),
        Err(byte) => Err(invalid_char_error(byte)),
    }
}

fn collect_sextets(bytes: &[u8]) -> (r: Result<Vec<u8>, u8>)
    ensures
        match sextets(bytes@) {
            Ok(v) => r matches Ok(out) && out@ == v,
            Err(b) => r == Err::<Vec<u8>, u8>(b),
        },
{
    let ghost t = bytes@;
    let mut values: Vec<u8> = Vec::new();
    let mut i: usize = 0;
    assert(t.skip(0) =~= t);
    assert(values@ + Seq::<u8>::empty() =~= values@);
    while i < bytes.len()
        invariant
            i <= bytes.len(),
            t == bytes@,
            sextets(t) == match sextets(t.skip(i as int)) {
                Ok(r) => Ok(values@ + r),
                Err(e) => Err(e),
            },
        decreases bytes.len() - i,
    {
        let byte = bytes[i];
        assert(t.skip(i as int).drop_first() =~= t.skip(i + 1));
        assert(t.skip(i as int)[0] == byte);
        if byte == 61u8 || byte == 10u8 || byte == 13u8 || byte == 32u8 || byte == 9u8 {
            i += 1;
            continue ;
        }
        match sextet_value(byte) {
            Some(v) => {
                let ghost before = values@;
                values.push(v);
                i += 1;
                proof {
                    match sextets(t.skip(i as int)) {
                        Ok(r) => {
                            assert(before + (seq![v] + r) =~= values@ + r);
                        },
                        Err(_) => {},
                    }
                }
            },
            None => {
                assert(sextets(t.skip(i as int)) == Err::<Seq<u8>, u8>(byte));
                return Err(byte);
            },
        }
    }
    assert(t.skip(bytes.len() as int) =~= Seq::<u8>::empty());
    Ok(values)
}

fn bytes_from_sextets(values: &Vec<u8>) -> (out: Vec<u8>)
    ensures
        out@ == bytes_of(values@),
{
    let mut out: Vec<u8> = Vec::new();
    let mut j: usize = 0;
    assert(values@.skip(0) =~= values@);
    while j < values.len() && values.len() - j >= 4
        invariant
            j <= values.len(),
            bytes_of(values@) == out@ + bytes_of(values@.skip(j as int)),
        decreases values.len() - j,
    {
        let v0 = values[j];
        let v1 = values[j + 1];
        let v2 = values[j + 2];
        let v3 = values[j + 3];
        let ghost before = out@;
        let ghost tail = values@.skip(j as int);
        out.push((v0 << 2) | (v1 >> 4));
        out.push((v1 << 4) | (v2 >> 2));
        out.push((v2 << 6) | v3);
        assert(tail.skip(4) =~= values@.skip(j + 4));
        j = j + 4;
        assert(bytes_of(tail) == seq![by0(tail[0], tail[1]), by1(tail[1], tail[2]), by2(tail[2], tail[3])]
            + bytes_of(values@.skip(j as int)));
        assert(out@ =~= before + seq![by0(tail[0], tail[1]), by1(tail[1], tail[2]), by2(tail[2], tail[3])]);
    }
    let left = values.len() - j;
    let ghost tail = values@.skip(j as int);
    let ghost before = out@;
    if left >= 2 {
        out.push((values[j] << 2) | (values[j + 1] >> 4));
    }
    if left == 3 {
        out.push((values[j + 1] << 4) | (values[j + 2] >> 2));
    }
    assert(out@ =~= before + bytes_of(tail));
    out
}

/// `非法的 base64 字符：` followed by the offending byte read as a character.
pub open spec fn invalid_message(b: u8) -> Seq<char> {
    "非法的 base64 字符："@ + seq![b as char]
}

fn invalid_char_error(b: u8) -> (msg: String)
    ensures
        msg@ == invalid_message(b),
{
    let mut out = text::chars_of("非法的 base64 字符：");
    out.push(b as char);
    text::string_of(&out)
}

// ---------------------------------------------------------------------------
// Round trip
// ---------------------------------------------------------------------------

/// The 6-bit values `encode_spec` writes, without padding.
pub open spec fn enc_sextets(d: Seq<u8>) -> Seq<u8>
    decreases d.len(),
{
    if d.len() == 0 {
        seq![]
    } else if d.len() == 1 {
        seq![sx0(d[0]), sx1(d[0], 0)]
    } else if d.len() == 2 {
        seq![sx0(d[0]), sx1(d[0], d[1]), sx2(d[1], 0)]
    } else {
        seq![sx0(d[0]), sx1(d[0], d[1]), sx2(d[1], d[2]), sx3(d[2])] + enc_sextets(d.skip(3))
    }
}

proof fn lemma_bits(a: u8, b: u8, c: u8)
    ensures
        by0(sx0(a), sx1(a, b)) == a,
        by1(sx1(a, b), sx2(b, c)) == b,
        by2(sx2(b, c), sx3(c)) == c,
{
    assert(((a >> 2) << 2) | ((((a & 3) << 4) | (b >> 4)) >> 4) == a) by (bit_vector);
    assert(((((a & 3) << 4) | (b >> 4)) << 4) | ((((b & 15) << 2) | (c >> 6)) >> 2) == b)
        by (bit_vector);
    assert(((((b & 15) << 2) | (c >> 6)) << 6) | (c & 63) == c) by (bit_vector);
}

proof fn lemma_alphabet(v: u8)
    requires
        v < 64,
    ensures
        (alphabet(v) as u32) < 128,
        sextet_of(alphabet(v) as u8) == Some(v),
        !is_skipped(alphabet(v) as u8),
{
}

proof fn lemma_sextets_append(a: Seq<u8>, b: Seq<u8>)
    ensures
        sextets(a + b) == match sextets(a) {
            Ok(x) => match sextets(b) {
                Ok(y) => Ok(x + y),
                Err(e) => Err(e),
            },
            Err(e) => Err(e),
        },
    decreases a.len(),
{
    if a.len() == 0 {
        assert(a + b =~= b);
        match sextets(b) {
            Ok(y) => {
                assert(Seq::<u8>::empty() + y =~= y);
            },
            Err(_) => {},
        }
    } else {
        assert((a + b).drop_first() =~= a.drop_first() + b);
        assert((a + b)[0] == a[0]);
        lemma_sextets_append(a.drop_first(), b);
        match sextets(a.drop_first()) {
            Ok(x) => match sextets(b) {
                Ok(y) => {
                    if let Some(v) = sextet_of(a[0]) {
                        assert(seq![v] + (x + y) =~= (seq![v] + x) + y);
                    }
                },
                Err(_) => {},
            },
            Err(_) => {},
        }
    }
}

proof fn lemma_group_sextets(g: Seq<u8>, vals: Seq<u8>)
    requires
        forall|k: int| 0 <= k < vals.len() ==> vals[k] < 64,
        vals.len() <= g.len(),
        forall|k: int| 0 <= k < vals.len() ==> g[k] == alphabet(vals[k]) as u8,
        forall|k: int| vals.len() <= k < g.len() ==> g[k] == 61u8,
    ensures
        sextets(g) == Ok::<Seq<u8>, u8>(vals),
    decreases g.len(),
{
    if g.len() == 0 {
        assert(vals =~= Seq::<u8>::empty());
    } else if vals.len() == 0 {
        lemma_group_sextets(g.drop_first(), vals);
    } else {
        lemma_alphabet(vals[0]);
        lemma_group_sextets(g.drop_first(), vals.drop_first());
        assert(seq![vals[0]] + vals.drop_first() =~= vals);
    }
}

proof fn lemma_encoding_is_ascii(d: Seq<u8>)
    ensures
        vstd::utf8::is_ascii_chars(encode_spec(d)),
        sextets(ascii_bytes(encode_spec(d))) == Ok::<Seq<u8>, u8>(enc_sextets(d)),
    decreases d.len(),
{
    let e = encode_spec(d);
    if d.len() == 0 {
        assert(ascii_bytes(e) =~= Seq::<u8>::empty());
    } else {
        let a = d[0];
        let b: u8 = if d.len() > 1 { d[1] } else { 0 };
        let c: u8 = if d.len() > 2 { d[2] } else { 0 };
        lemma_sextet_bounds(a, b, c);
        lemma_alphabet(sx0(a));
        lemma_alphabet(sx1(a, b));
        lemma_alphabet(sx2(b, c));
        lemma_alphabet(sx3(c));
        let head = e.take(4);
        let g = ascii_bytes(head);
        let vals = enc_sextets(d).take(if d.len() == 1 { 2 } else if d.len() == 2 { 3 } else { 4 });
        lemma_group_sextets(g, vals);
        if d.len() <= 2 {
            assert(head =~= e);
            assert(vals =~= enc_sextets(d));
        } else {
            let rest = d.skip(3);
            lemma_encoding_is_ascii(rest);
            assert(e =~= head + encode_spec(rest));
            assert(ascii_bytes(e) =~= g + ascii_bytes(encode_spec(rest)));
            lemma_sextets_append(g, ascii_bytes(encode_spec(rest)));
            assert(enc_sextets(d) =~= vals + enc_sextets(rest));
        }
    }
}

proof fn lemma_bytes_of_enc(d: Seq<u8>)
    ensures
        bytes_of(enc_sextets(d)) == d,
    decreases d.len(),
{
    if d.len() == 0 {
    } else {
        let a = d[0];
        let b: u8 = if d.len() > 1 { d[1] } else { 0 };
        let c: u8 = if d.len() > 2 { d[2] } else { 0 };
        lemma_bits(a, b, c);
        lemma_bits(a, b, 0);
        lemma_bits(a, 0, 0);
        if d.len() == 1 {
            assert(bytes_of(enc_sextets(d)) =~= d);
        } else if d.len() == 2 {
            assert(bytes_of(enc_sextets(d)) =~= d);
        } else {
            let v = enc_sextets(d);
            lemma_bytes_of_enc(d.skip(3));
            assert(v.skip(4) =~= enc_sextets(d.skip(3)));
            assert(d =~= seq![a, b, c] + d.skip(3));
        }
    }
}

/// Decoding what `encode` wrote gives back the original bytes: `decode`
/// applied to the text of `encode(data)` is `Ok(data)`.
pub proof fn law_decode_inverts_encode(data: Seq<u8>)
    ensures
        decode_spec(vstd::utf8::encode_utf8(encode_spec(data))) == Ok::<Seq<u8>, u8>(data),
{
    let e = encode_spec(data);
    lemma_encoding_is_ascii(data);
    vstd::utf8::is_ascii_chars_encode_utf8(e);
    assert(vstd::utf8::encode_utf8(e) =~= ascii_bytes(e));
    lemma_bytes_of_enc(data);
}

} // verus!
