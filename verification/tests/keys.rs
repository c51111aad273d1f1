use sapvault::keys::{
    analyze_file, analyze_text, decode_text, detect_format, extract, is_supported, FlatValue,
    blank_json_comments, is_password_candidate,
    KIND_PASSWORD, KIND_URL, KIND_USERNAME,
};
use sapvault::model::KeyMapping;

fn mapping() -> KeyMapping {
    KeyMapping::default()
}

fn find<'a>(values: &'a [FlatValue], path: &str) -> Option<&'a FlatValue> {
    values.iter().find(|value| value.path == path)
}

#[test]
fn detects_formats_from_name_and_extension() {
    assert_eq!(detect_format("C:/x/.env"), "env");
    assert_eq!(detect_format("C:/x/.env.local"), "env");
    assert_eq!(detect_format("C:/x/a.json"), "json");
    assert_eq!(detect_format("C:/x/a.toml"), "toml");
    assert_eq!(detect_format("C:/x/a.yml"), "yaml");
    assert_eq!(detect_format("C:/x/a.xml"), "xml");
    assert_eq!(detect_format("C:/x/notes.md"), "text");
}

#[test]
fn json_is_flattened_with_paths() {
    let text = "{\n  \"sap\": {\n    \"url\": \"https://prd.corp.example\",\n    \"username\": \"JDOE\",\n    \"password\": \"S3cret\"\n  }\n}";
    let values = extract(text, "json");
    assert_eq!(
        find(&values, "sap.url").unwrap().value,
        "https://prd.corp.example"
    );
    assert_eq!(find(&values, "sap.username").unwrap().value, "JDOE");
    assert_eq!(find(&values, "sap.username").unwrap().line, 4);
    assert_eq!(find(&values, "sap.password").unwrap().value, "S3cret");

    let parse = analyze_text(text, "json", &mapping());
    assert!(parse.is_complete());
    assert_eq!(parse.value_of(KIND_USERNAME), "JDOE");
}

#[test]
fn env_files_are_parsed() {
    let text = "# comment\nSAP_URL=https://dev.corp.example\nexport SAP_USER='JDOE'\nSAP_PASSWORD=\"p@ss=word\"\n";
    let parse = analyze_text(text, "env", &mapping());
    assert_eq!(parse.value_of(KIND_URL), "https://dev.corp.example");
    assert_eq!(parse.value_of(KIND_USERNAME), "JDOE");
    assert_eq!(parse.value_of(KIND_PASSWORD), "p@ss=word");
    assert!(parse.is_complete());
}

#[test]
fn toml_sections_become_paths() {
    let text = "[sap]\nurl = \"https://prd.corp.example\"\nuser = \"JDOE\"\n\n[sap.auth]\npassword = \"S3cret\" # inline\n";
    let values = extract(text, "toml");
    assert_eq!(find(&values, "sap.url").unwrap().value, "https://prd.corp.example");
    assert_eq!(find(&values, "sap.auth.password").unwrap().value, "S3cret");
    let parse = analyze_text(text, "toml", &mapping());
    assert!(parse.is_complete());
}

#[test]
fn yaml_nesting_builds_paths() {
    let text = "sap:\n  production:\n    url: https://prd.corp.example\n    username: JDOE\n    password: S3cret\nother: 1\n";
    let values = extract(text, "yaml");
    assert_eq!(
        find(&values, "sap.production.url").unwrap().value,
        "https://prd.corp.example"
    );
    assert!(find(&values, "other").is_some());
    let parse = analyze_text(text, "yaml", &mapping());
    assert!(parse.is_complete());
}

#[test]
fn xml_elements_and_attributes_are_read() {
    let text = "<?xml version=\"1.0\"?>\n<config>\n  <connection host=\"prd.corp.example\">\n    <user>JDOE</user>\n    <password>S3cret</password>\n  </connection>\n</config>";
    let parse = analyze_text(text, "xml", &mapping());
    assert_eq!(parse.value_of(KIND_URL), "prd.corp.example");
    assert_eq!(parse.value_of(KIND_USERNAME), "JDOE");
    assert_eq!(parse.value_of(KIND_PASSWORD), "S3cret");
    assert!(parse.is_complete());
}

#[test]
fn plain_text_finds_keys_and_bare_urls() {
    let text = "登录信息\nURL: https://prd.corp.example/sap\nUser: JDOE\nPass: S3cret!\n";
    let parse = analyze_text(text, "text", &mapping());
    assert_eq!(parse.value_of(KIND_URL), "https://prd.corp.example/sap");
    assert_eq!(parse.value_of(KIND_USERNAME), "JDOE");
    assert_eq!(parse.value_of(KIND_PASSWORD), "S3cret!");
}

#[test]
fn missing_fields_are_reported() {
    let text = "{\"note\":\"nothing useful here\"}";
    let parse = analyze_text(text, "json", &mapping());
    assert_eq!(
        parse.missing,
        vec![
            KIND_URL.to_string(),
            KIND_USERNAME.to_string(),
            KIND_PASSWORD.to_string()
        ]
    );
    assert!(!parse.is_complete());
    assert!(parse.fields.is_empty());
}

#[test]
fn custom_keys_rescue_unusual_files() {
    let text = "{\"verbindung\":\"https://prd.corp.example\",\"kennung\":\"JDOE\",\"geheim\":\"S3cret\"}";
    let mut mapping = mapping();
    mapping.username = vec!["kennung".into()];
    mapping.password = vec!["geheim".into()];
    mapping.url = vec!["verbindung".into()];
    let parse = analyze_text(text, "json", &mapping);
    assert!(parse.is_complete());
    assert_eq!(parse.value_of(KIND_USERNAME), "JDOE");
}

#[test]
fn exact_matching_can_be_requested() {
    let text = "{\"user_name\":\"A\",\"user\":\"B\"}";
    let mut mapping = mapping();
    mapping.exact = true;
    mapping.username = vec!["user".into()];
    let parse = analyze_text(text, "json", &mapping);
    assert_eq!(parse.value_of(KIND_USERNAME), "B");
}

#[test]
fn more_specific_key_wins() {
    let text = "{\"user\":\"short\",\"username\":\"exact\"}";
    let parse = analyze_text(text, "json", &mapping());
    assert_eq!(parse.value_of(KIND_USERNAME), "exact");
}

#[test]
fn binary_files_are_rejected() {
    assert!(decode_text(&[0u8, 1, 2, 3]).is_none());
    // The file cannot be read, so the shell hands over the read error.
    let read: Result<String, String> = Err("无法读取文件信息：not found".to_string());
    let parse = analyze_file("C:/definitely/not/here.json", read, &mapping());
    assert!(parse.error.is_some());
    assert!(!parse.is_complete());
}

#[test]
fn utf16_files_are_decoded() {
    let mut bytes: Vec<u8> = vec![0xFF, 0xFE];
    for unit in "user=JDOE".encode_utf16() {
        bytes.extend_from_slice(&unit.to_le_bytes());
    }
    assert_eq!(decode_text(&bytes).unwrap(), "user=JDOE");
}

#[test]
fn big_endian_utf16_and_bom_are_handled() {
    let mut bytes: Vec<u8> = vec![0xFE, 0xFF];
    for unit in "pw=1".encode_utf16() {
        bytes.extend_from_slice(&unit.to_be_bytes());
    }
    assert_eq!(decode_text(&bytes).unwrap(), "pw=1");
    assert_eq!(decode_text("\u{feff}abc".as_bytes()).unwrap(), "abc");
    assert_eq!(decode_text(&[]).unwrap(), "");
}

#[test]
fn known_formats_are_supported() {
    for path in ["C:/x/a.json", "C:/x/notes.md", "C:/x/.env", "C:/x/app.properties", "C:/x/app.xml"] {
        assert!(is_supported(path), "{path}");
    }
    assert!(!is_supported("noext"));
    assert_eq!(detect_format("C:\\x\\App.CONFIG"), "xml");
    assert_eq!(detect_format("C:/x/.hidden"), "unsupported");
}

#[test]
fn json_arrays_numbers_and_booleans_are_flattened() {
    let text = "{\"hosts\":[\"a\",\"b\"],\"port\":3200,\"tls\":true,\"none\":null}";
    let values = extract(text, "json");
    assert_eq!(find(&values, "hosts[1]").unwrap().value, "b");
    assert_eq!(find(&values, "hosts[1]").unwrap().key, "1");
    assert_eq!(find(&values, "port").unwrap().value, "3200");
    assert_eq!(find(&values, "tls").unwrap().value, "true");
    assert!(find(&values, "none").is_none());
}

#[test]
fn broken_json_falls_back_to_plain_text() {
    let values = extract("user = JDOE\n{ not json", "json");
    assert_eq!(find(&values, "user").unwrap().value, "JDOE");
}

#[test]
fn xml_entities_are_expanded() {
    let values = extract("<a><password>x&amp;y&lt;z</password></a>", "xml");
    assert_eq!(find(&values, "a.password").unwrap().value, "x&y<z");
}

#[test]
fn toml_arrays_and_comments_are_skipped() {
    let values = extract("hosts = [\"a\"]\nuser = \"J#D\" # note\n", "toml");
    assert!(find(&values, "hosts").is_none());
    assert_eq!(find(&values, "user").unwrap().value, "J#D");
}

#[test]
fn unsupported_formats_are_rejected() {
    let analysis = analyze_text("hello", "unsupported", &mapping());
    assert!(analysis.error.is_some());
    assert!(analysis.fields.is_empty());
    assert!(extract("hello", "unsupported").is_empty());
    assert!(detect_format("C:/x/notes.txt") == "unsupported");
    assert!(is_supported("C:/x/app.properties"));
    assert!(is_supported("C:/x/app.xml"));
    assert!(!is_supported("C:/x/notes.txt"));
}

/// Common configuration files share the `key = value` shape but keep their
/// own label.
#[test]
fn config_dialects_keep_their_own_label() {
    assert_eq!(detect_format("C:/x/app.ini"), "ini");
    assert_eq!(detect_format("C:/x/app.conf"), "ini");
    assert_eq!(detect_format("C:/x/app.properties"), "properties");
    assert_eq!(detect_format("C:/x/main.tfvars"), "hcl");
    assert_eq!(detect_format("C:/x/app.toml"), "toml");
    assert_eq!(detect_format("C:/x/.env"), "env");
    for name in ["C:/x/app.ini", "C:/x/app.properties", "C:/x/main.tfvars"] {
        assert!(is_supported(name), "{name}");
    }
    let text = "[sap]\r\npassword = \"Geheim1!\"\r\n# comment\r\n";
    for format in ["ini", "properties", "hcl"] {
        let analysis = analyze_text(text, format, &mapping());
        assert!(analysis.error.is_none(), "{format}: {:?}", analysis.error);
        let values = extract(text, format);
        let value = find(&values, "sap.password").expect("sap.password");
        assert_eq!(value.value, "Geheim1!");
        assert_eq!(analysis.fields.iter().find(|f| f.kind == KIND_PASSWORD).unwrap().value, "Geheim1!");
        assert!(is_password_candidate(&value.key, &mapping()));
    }
}

#[test]
fn password_candidates_come_from_the_key_names() {
    let text = "{\"sap\":{\"password\":\"x\",\"user\":\"u\",\"token\":\"t\",\"url\":\"https://a\"}}";
    let values = extract(text, "json");
    let candidates: Vec<String> = values
        .iter()
        .filter(|value| is_password_candidate(&value.key, &mapping()))
        .map(|value| value.path.clone())
        .collect();
    assert!(candidates.contains(&"sap.password".to_string()), "{candidates:?}");
    assert!(candidates.contains(&"sap.token".to_string()), "{candidates:?}");
    assert!(!candidates.contains(&"sap.user".to_string()), "{candidates:?}");
    assert_eq!(values.len(), 4);
}

#[test]
fn yaml_block_scalars_are_content() {
    let values = extract("a: |\n  user: x\n  password: y\nb:\n  password: z\n", "yaml");
    assert!(!values.iter().any(|v| v.path == "a.user" || v.path == "a.password"), "{values:?}");
    assert_eq!(find(&values, "b.password").unwrap().value, "z");
}

#[test]
fn env_trailing_comments_are_not_values() {
    let values = extract("PASSWORD=old # keep me\nTOKEN=ab#cd\nQUOTED=\"a # b\"\n", "env");
    assert_eq!(find(&values, "PASSWORD").unwrap().value, "old");
    assert_eq!(find(&values, "TOKEN").unwrap().value, "ab#cd");
    assert_eq!(find(&values, "QUOTED").unwrap().value, "a # b");
}

#[test]
fn json_comments_are_blanked_before_parsing() {
    let text: Vec<char> = "{ // c\n \"a\": \"x//y\", /* z */ \"b\": 1 }".chars().collect();
    let blanked: String = blank_json_comments(&text).into_iter().collect();
    assert_eq!(blanked, "{     \n \"a\": \"x//y\",         \"b\": 1 }");
    let values = extract("{ // c\n \"a\": \"x//y\", /* z */ \"b\": 1 }", "json");
    assert_eq!(find(&values, "a").unwrap().value, "x//y");
}

#[test]
fn each_kind_is_found_or_missing_once() {
    let text = "PASSWORD=S3cret\nNOTE=see https://dev.corp.example\n";
    let parse = analyze_text(text, "env", &mapping());
    let kinds: Vec<&str> = parse.fields.iter().map(|f| f.kind.as_str()).collect();
    assert_eq!(kinds, vec![KIND_PASSWORD]);
    assert_eq!(parse.missing, vec![KIND_URL.to_string(), KIND_USERNAME.to_string()]);

    let text = "PASSWORD=S3cret\nHOME=https://dev.corp.example\n";
    let parse = analyze_text(text, "env", &mapping());
    let kinds: Vec<&str> = parse.fields.iter().map(|f| f.kind.as_str()).collect();
    assert_eq!(kinds, vec![KIND_PASSWORD, KIND_URL]);
    assert_eq!(parse.fields[1].value, "https://dev.corp.example");
    assert_eq!(parse.fields[1].line, 2);
    assert_eq!(parse.missing, vec![KIND_USERNAME.to_string()]);
}
