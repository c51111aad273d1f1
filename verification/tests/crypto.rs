use sapvault::crypto::strength_profile;
use sapvault::b64;
use sapvault::crypto::{decrypt, derive_key, encrypt, generate_password, new_salt, random_bytes, GeneratorOptions, KdfParams, KEY_LEN};

#[test]
fn round_trip_encrypt_decrypt() {
    let key = random_bytes::<KEY_LEN>();
    let (nonce, ciphertext) = encrypt(&key, b"secret payload").unwrap();
    assert_eq!(decrypt(&key, &nonce, &ciphertext).unwrap(), b"secret payload");
}

#[test]
fn wrong_key_is_rejected() {
    let key = random_bytes::<KEY_LEN>();
    let other = random_bytes::<KEY_LEN>();
    let (nonce, ciphertext) = encrypt(&key, b"secret payload").unwrap();
    assert!(decrypt(&other, &nonce, &ciphertext).is_err());
}

#[test]
fn tampered_ciphertext_is_rejected() {
    let key = random_bytes::<KEY_LEN>();
    let (nonce, ciphertext) = encrypt(&key, b"secret payload").unwrap();
    let mut bytes = b64::decode(&ciphertext).unwrap();
    bytes[0] ^= 0x01;
    assert!(decrypt(&key, &nonce, &b64::encode(&bytes)).is_err());
}

#[test]
fn derived_key_is_stable() {
    let params = KdfParams { salt: new_salt(), m_cost: 8, t_cost: 1, p_cost: 1, ..Default::default() };
    let a = derive_key("hunter2", &params).unwrap();
    let b = derive_key("hunter2", &params).unwrap();
    let c = derive_key("hunter3", &params).unwrap();
    assert_eq!(a, b);
    assert_ne!(a, c);
}

#[test]
fn generated_password_respects_pools() {
    let options = GeneratorOptions { length: 24, ..GeneratorOptions::default() };
    let password = generate_password(&options).unwrap();
    assert_eq!(password.chars().count(), 24);
    assert!(password.chars().any(|c| c.is_ascii_uppercase()));
    assert!(password.chars().any(|c| c.is_ascii_lowercase()));
    assert!(password.chars().any(|c| c.is_ascii_digit()));
    assert!(password.chars().any(|c| !c.is_alphanumeric()));
}

#[test]
fn generated_password_respects_the_sap_length_cap() {
    let options = GeneratorOptions { length: 64, max_length: Some(40), ..GeneratorOptions::default() };
    assert_eq!(generate_password(&options).unwrap().chars().count(), 40);
}

#[test]
fn rejects_an_empty_character_pool() {
    let options = GeneratorOptions { upper: false, lower: false, digits: false, symbols: false, ..GeneratorOptions::default() };
    assert!(generate_password(&options).is_err());
}

#[test]
fn a_bad_salt_is_reported() {
    let params = KdfParams { salt: "@@@".to_string(), m_cost: 8, t_cost: 1, p_cost: 1, ..Default::default() };
    assert!(derive_key("hunter2", &params).is_err());
}

#[test]
fn a_malformed_nonce_is_reported() {
    let key = random_bytes::<KEY_LEN>();
    let (_, ciphertext) = encrypt(&key, b"secret payload").unwrap();
    assert!(decrypt(&key, "AAAA", &ciphertext).is_err());
}

#[test]
fn ciphertext_differs_from_the_plaintext() {
    let key = random_bytes::<KEY_LEN>();
    let (nonce, ciphertext) = encrypt(&key, b"secret payload").unwrap();
    assert_eq!(b64::decode(&nonce).unwrap().len(), 12);
    let sealed = b64::decode(&ciphertext).unwrap();
    assert_eq!(sealed.len(), b"secret payload".len() + 16);
    assert_ne!(&sealed[..14], b"secret payload");
}

#[test]
fn ambiguous_characters_can_be_avoided() {
    let options = GeneratorOptions { length: 40, avoid_ambiguous: true, ..GeneratorOptions::default() };
    let password = generate_password(&options).unwrap();
    assert!(!password.chars().any(|c| "O0oIl1|`'\"".contains(c)));
}

#[test]
fn strength_counts_classes_and_gives_advice() {
    let (classes, length, hints) = strength_profile("abc");
    assert_eq!((classes, length), (1, 3));
    assert_eq!(hints, vec!["长度建议至少 12 位", "混用大小写、数字和符号", "加入符号可显著提升强度"]);
    let (classes, length, hints) = strength_profile("Abcdef123456!x");
    assert_eq!((classes, length), (4, 14));
    assert!(hints.is_empty());
    let (classes, _, hints) = strength_profile("");
    assert_eq!(classes, 0);
    assert_eq!(hints, vec!["长度建议至少 12 位", "混用大小写、数字和符号"]);
}

#[test]
fn an_absurd_parallelism_is_refused_without_a_panic() {
    let params = KdfParams { salt: new_salt(), p_cost: 0x2000_0000, ..KdfParams::default() };
    match derive_key("password1", &params) {
        Err(e) => assert_eq!(e.message(), "加密操作失败：KDF 参数无效：too many threads"),
        Ok(_) => panic!("accepted"),
    }
}

#[test]
fn a_short_salt_or_weak_costs_are_refused() {
    let short = KdfParams { salt: b64::encode(&[1u8, 2, 3, 4]), ..KdfParams::default() };
    match derive_key("password1", &short) {
        Err(e) => assert!(e.message().starts_with("加密操作失败：密钥派生失败："), "{}", e.message()),
        Ok(_) => panic!("accepted"),
    }
    let eight = KdfParams { salt: b64::encode(&[9u8; 8]), m_cost: 64, t_cost: 1, p_cost: 8, ..KdfParams::default() };
    assert!(derive_key("password1", &eight).is_ok());
    let starved = KdfParams { m_cost: 63, ..eight.clone() };
    match derive_key("password1", &starved) {
        Err(e) => assert!(e.message().starts_with("加密操作失败：KDF 参数无效："), "{}", e.message()),
        Ok(_) => panic!("accepted"),
    }
    let no_pass = KdfParams { t_cost: 0, ..eight.clone() };
    assert!(derive_key("password1", &no_pass).is_err());
    let same = derive_key("password1", &eight).unwrap();
    assert_eq!(derive_key("password1", &eight).unwrap(), same);
    assert_ne!(derive_key("password2", &eight).unwrap(), same);
}
