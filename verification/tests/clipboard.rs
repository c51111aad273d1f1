use sapvault::clipboard::{sap_credentials_payload, should_clear};

#[test]
fn sap_payload_uses_the_configured_separator() {
    assert_eq!(sap_credentials_payload("JDOE", "S3cret!", "\r\n"), "JDOE\r\nS3cret!");
    assert_eq!(sap_credentials_payload("JDOE", "S3cret!", "\n"), "JDOE\nS3cret!");
}

#[test]
fn payload_handles_empty_values() {
    assert_eq!(sap_credentials_payload("", "", "\r\n"), "\r\n");
}

#[test]
fn only_the_copied_text_is_cleared() {
    assert!(should_clear("S3cret!", "S3cret!"));
    assert!(!should_clear("something else", "S3cret!"));
}
