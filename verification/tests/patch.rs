use sapvault::model::FieldLocation;
use sapvault::patch::{apply, decode, encode, encode_value, Edit, TextEncoding};

fn location(start: usize, end: usize, quoted: bool, xml_attr: bool) -> FieldLocation {
    FieldLocation {
        start,
        end,
        quoted,
        xml_attr,
        line: 1,
    }
}

#[test]
fn applies_edits_from_the_end() {
    let text = "{\"a\":\"111\",\"b\":\"2222\"}";
    let edits = vec![
        Edit { start: 6, end: 9, text: "X".to_string() },
        Edit { start: 16, end: 20, text: "YY".to_string() },
    ];
    assert_eq!(apply(text, &edits).unwrap(), "{\"a\":\"X\",\"b\":\"YY\"}");
}

#[test]
fn refuses_overlapping_or_out_of_range_edits() {
    let text = "abcdef";
    let overlapping = vec![
        Edit { start: 0, end: 3, text: "x".into() },
        Edit { start: 2, end: 4, text: "y".into() },
    ];
    assert!(apply(text, &overlapping).is_err());
    let outside = vec![Edit { start: 4, end: 99, text: "y".into() }];
    assert!(apply(text, &outside).is_err());
}

#[test]
fn json_values_keep_their_quoting() {
    let quoted = location(1, 4, true, false);
    assert_eq!(encode_value("json", &quoted, "a\"b").unwrap(), "a\\\"b");
    let bare = location(0, 3, false, false);
    assert_eq!(encode_value("json", &bare, "abc").unwrap(), "\"abc\"");
}

#[test]
fn xml_values_are_escaped() {
    let attribute = location(1, 4, true, true);
    assert_eq!(
        encode_value("xml", &attribute, "a&b<c").unwrap(),
        "a&amp;b&lt;c"
    );
    let element = location(1, 4, false, false);
    assert_eq!(encode_value("xml", &element, "a&b").unwrap(), "a&amp;b");
}

#[test]
fn unquoted_values_are_quoted_only_when_needed() {
    let bare = location(0, 3, false, false);
    assert_eq!(encode_value("env", &bare, "Simple123").unwrap(), "Simple123");
    assert_eq!(encode_value("env", &bare, "has space").unwrap(), "\"has space\"");
    assert_eq!(encode_value("toml", &bare, "a#b").unwrap(), "\"a#b\"");
    assert_eq!(encode_value("text", &bare, "plain").unwrap(), "plain");
}

#[test]
fn round_trips_every_encoding() {
    for encoding in [
        TextEncoding::Utf8,
        TextEncoding::Utf8Bom,
        TextEncoding::Utf16Le,
        TextEncoding::Utf16Be,
    ] {
        let text = "ключ=значение\n中文行\n";
        let bytes = encode(text, encoding);
        let (decoded, detected) = decode(&bytes).unwrap();
        assert_eq!(decoded, text, "encoding {encoding:?}");
        assert_eq!(detected, encoding, "encoding {encoding:?}");
    }
}

#[test]
fn binary_content_is_rejected() {
    assert!(decode(&[0x00, 0x01, 0x02]).is_none());
}

#[test]
fn editing_keeps_every_other_byte() {
    let original = "{\n  \"user\": \"JDOE\",\n  \"password\": \"old\"\n}\n";
    let start = original.find("old").unwrap();
    let edit = Edit {
        start,
        end: start + 3,
        text: "NEW".to_string(),
    };
    let updated = apply(original, &[edit]).unwrap();
    assert_eq!(
        updated,
        "{\n  \"user\": \"JDOE\",\n  \"password\": \"NEW\"\n}\n"
    );
}

#[test]
fn edits_inside_a_character_are_refused() {
    let text = "中文";
    let cut = vec![Edit { start: 1, end: 3, text: "x".into() }];
    assert_eq!(
        apply(text, &cut).unwrap_err().message(),
        "替换范围不在字符边界上，已取消写入"
    );
    let whole = vec![Edit { start: 3, end: 6, text: "国".into() }];
    assert_eq!(apply(text, &whole).unwrap(), "中国");
}

#[test]
fn supplementary_characters_survive_utf16() {
    let text = "𝄞 clef";
    for encoding in [TextEncoding::Utf16Le, TextEncoding::Utf16Be] {
        let (decoded, _) = decode(&encode(text, encoding)).unwrap();
        assert_eq!(decoded, text);
    }
    assert_eq!(
        encode_value("json", &location(0, 0, true, false), "a\u{1}b\tc").unwrap(),
        "a\\u0001b\\tc"
    );
}
