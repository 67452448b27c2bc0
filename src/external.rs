//! Calls into `http` and into std's UTF-8 decoding.
use vstd::prelude::*;
use vstd::utf8::{decode_utf8, valid_utf8};

verus! {

/// A byte that may appear in a method token.
pub open spec fn is_token_byte(b: u8) -> bool {
    // digits, upper- and lower-case letters, then ! # $ % & ' * + - . ^ _ ` | ~
    (48 <= b <= 57) || (65 <= b <= 90) || (97 <= b <= 122) || b == 33 || (35 <= b <= 39) || b
        == 42 || b == 43 || b == 45 || b == 46 || (94 <= b <= 96) || b == 124 || b == 126
}

/// A non-empty run of token bytes.
pub open spec fn is_method_token(t: Seq<u8>) -> bool {
    t.len() > 0 && forall|i: int| 0 <= i < t.len() ==> is_token_byte(#[trigger] t[i])
}

/// The reason phrase that `http` registers for a status code, if any.
pub uninterp spec fn canonical_reason_of(code: u16) -> Option<Seq<char>>;

/// Relies on http::Method::from_bytes: it accepts exactly the non-empty
/// slices whose every byte is a token character.
#[verifier::external_body]
pub(crate) fn method_accepted(b: &[u8]) -> (r: bool)
    ensures
        r == is_method_token(b@),
{
    http::Method::from_bytes(b).is_ok()
}

/// Relies on http::StatusCode::canonical_reason: the registered phrase of a
/// code, which depends on the code alone. http::StatusCode::from_u16 only
/// turns the code into the crate's type; it accepts every code in 100..=999.
#[verifier::external_body]
pub(crate) fn canonical_reason(code: u16) -> (r: Option<&'static str>)
    requires
        100 <= code <= 999,
    ensures
        r matches Some(p) ==> canonical_reason_of(code) == Some(p@),
        r is None ==> canonical_reason_of(code) is None,
{
    match http::StatusCode::from_u16(code) {
        Ok(status) => status.canonical_reason(),
        Err(_) => None,
    }
}

/// Relies on String::from_utf8: it succeeds exactly on valid UTF-8, and the
/// string then holds the decoded characters.
#[verifier::external_body]
pub(crate) fn string_from_utf8(b: Vec<u8>) -> (r: Option<String>)
    ensures
        r is Some <==> valid_utf8(b@),
        r matches Some(s) ==> s@ == decode_utf8(b@),
{
    String::from_utf8(b).ok()
}

} // verus!
