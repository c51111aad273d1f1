use sapvault::model::PasswordRule;
use sapvault::rules::{generate, validate};

fn sap_rule() -> PasswordRule {
    PasswordRule {
        min_length: 8,
        max_length: 40,
        upper: true,
        lower: true,
        digits: true,
        symbols: false,
        ..PasswordRule::default()
    }
}

#[test]
fn generated_password_satisfies_its_rule() {
    let rule = sap_rule();
    for _ in 0..25 {
        let password = generate(&rule).unwrap();
        assert!(
            validate(&password, &rule).is_empty(),
            "生成的密码不符合规则：{password}"
        );
    }
}

#[test]
fn rule_bounds_are_respected() {
    let rule = PasswordRule {
        min_length: 12,
        max_length: 14,
        ..sap_rule()
    };
    for _ in 0..15 {
        let password = generate(&rule).unwrap();
        let length = password.chars().count();
        assert!((12..=14).contains(&length), "长度 {length} 超出 12-14");
    }
}

#[test]
fn symbols_and_forbidden_characters_are_honoured() {
    let rule = PasswordRule {
        symbols: true,
        forbidden: "@".to_string(),
        avoid_ambiguous: true,
        ..sap_rule()
    };
    for _ in 0..25 {
        let password = generate(&rule).unwrap();
        assert!(!password.contains('@'));
        assert!(validate(&password, &rule).is_empty(), "失败：{password}");
    }
}

#[test]
fn start_with_letter_is_honoured() {
    let rule = PasswordRule {
        start_with_letter: true,
        symbols: true,
        digits: true,
        ..sap_rule()
    };
    for _ in 0..25 {
        let password = generate(&rule).unwrap();
        assert!(
            password.chars().next().unwrap().is_alphabetic(),
            "首字符不是字母：{password}"
        );
        assert!(validate(&password, &rule).is_empty());
    }
}

#[test]
fn start_with_letter_needs_a_letter_class() {
    let rule = PasswordRule {
        start_with_letter: true,
        lower: false,
        upper: false,
        digits: true,
        symbols: false,
        ..PasswordRule::default()
    };
    assert!(generate(&rule).is_err());
}

#[test]
fn validation_reports_each_problem() {
    let rule = sap_rule();
    let problems = validate("abc", &rule);
    assert!(problems.iter().any(|text| text.contains("长度不足")));
    assert!(problems.iter().any(|text| text.contains("大写")));
    assert!(problems.iter().any(|text| text.contains("数字")));

    let uppercase_only = "ABCDEFGHIJ";
    assert!(validate(uppercase_only, &rule)
        .iter()
        .any(|text| text.contains("小写")));
}

#[test]
fn disabled_rules_accept_anything() {
    let rule = PasswordRule {
        enabled: false,
        ..sap_rule()
    };
    assert!(validate("x", &rule).is_empty());
}

#[test]
fn impossible_rule_is_reported() {
    // Every class is disabled, so normalization falls back to lower case +
    // digits; forbidding exactly those leaves nothing to build from.
    let rule = PasswordRule {
        lower: false,
        upper: false,
        digits: false,
        symbols: false,
        forbidden: "abcdefghijklmnopqrstuvwxyz0123456789".to_string(),
        ..PasswordRule::default()
    };
    assert!(generate(&rule).is_err());
}

#[test]
fn summary_mentions_the_shape_of_the_rule() {
    let text = sap_rule().summary();
    assert!(text.contains("8-40"));
    assert!(text.contains("数字"));
    assert_eq!(
        PasswordRule {
            enabled: false,
            ..sap_rule()
        }
        .summary(),
        "未设置规则"
    );
}

#[test]
fn validation_messages_are_exact() {
    let rule = PasswordRule {
        forbidden: "x".to_string(),
        avoid_ambiguous: true,
        start_with_letter: true,
        ..sap_rule()
    };
    let problems = validate("1x0", &rule);
    assert_eq!(
        problems,
        vec![
            "长度不足：至少 8 位（当前 3 位）".to_string(),
            "缺少大写字母".to_string(),
            "包含禁用字符：x".to_string(),
            "必须以字母开头".to_string(),
            "包含易混淆字符：10".to_string(),
        ]
    );
    assert_eq!(sap_rule().summary(), "8-40 位，大写字母、小写字母、数字");
}

#[test]
fn normalization_clamps_and_falls_back() {
    let mut rule = PasswordRule {
        min_length: 1,
        max_length: 500,
        lower: false,
        upper: false,
        digits: false,
        symbols: false,
        ..PasswordRule::default()
    };
    rule.normalize();
    assert_eq!(rule.min_length, 4);
    assert_eq!(rule.max_length, 128);
    assert!(rule.lower && rule.digits);
    let password = generate(&PasswordRule { min_length: 30, max_length: 30, ..sap_rule() }).unwrap();
    assert_eq!(password.len(), 30);
}
