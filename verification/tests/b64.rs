use sapvault::b64::{decode, encode};

#[test]
fn matches_the_rfc_vectors() {
    assert_eq!(encode(b""), "");
    assert_eq!(encode(b"f"), "Zg==");
    assert_eq!(encode(b"fo"), "Zm8=");
    assert_eq!(encode(b"foo"), "Zm9v");
    assert_eq!(encode(b"foob"), "Zm9vYg==");
    assert_eq!(encode(b"foobar"), "Zm9vYmFy");
}

#[test]
fn round_trips_arbitrary_bytes() {
    let mut data: Vec<u8> = Vec::new();
    for seed in 0..64u32 {
        data.push((seed * 7 + 3) as u8);
        let encoded = encode(&data);
        assert_eq!(decode(&encoded).unwrap(), data);
    }
}

#[test]
fn decodes_embedded_whitespace() {
    assert_eq!(decode("Zm9v\nYmFy").unwrap(), b"foobar");
}

#[test]
fn rejects_invalid_characters() {
    assert!(decode("Zm9v*").is_err());
}

#[test]
fn every_byte_value_survives_a_round_trip() {
    let data: Vec<u8> = (0..=255u8).collect();
    assert_eq!(decode(&encode(&data)).unwrap(), data);
}
