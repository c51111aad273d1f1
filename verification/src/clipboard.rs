//! Clipboard payloads. Writing to and clearing the system clipboard happens
//! in the application shell; this module decides what goes there.

use vstd::prelude::*;
use crate::text;

verus! {

/// SAP GUI fills the login fields one after the other when a multi-line text
/// is pasted, so user name and password travel as two lines joined by the
/// configured separator.
pub fn sap_credentials_payload(username: &str, password: &str, separator: &str) -> (out: String)
    ensures
        out@ == username@ + separator@ + password@,
{
    let mut chars = text::chars_of(username);
    text::push_str(&mut chars, separator);
    text::push_str(&mut chars, password);
    text::string_of(&chars)
}

/// Clearing only happens when the clipboard still holds what was copied.
pub fn should_clear(current: &str, expected: &str) -> (r: bool)
    ensures
        r == (current@ == expected@),
{
    let a = text::chars_of(current);
    let b = text::chars_of(expected);
    text::seq_eq(&a, &b)
}

} // verus!
