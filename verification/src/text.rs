//! What the texts of an HTTP message may hold.

use vstd::prelude::*;
use vstd::utf8::valid_utf8;

verus! {

/// A byte that a method may hold.
pub open spec fn is_method_byte(b: u8) -> bool {
    ||| b == 33
    ||| 35 <= b <= 39
    ||| b == 42 || b == 43 || b == 45 || b == 46
    ||| 48 <= b <= 57
    ||| 65 <= b <= 90
    ||| 94 <= b <= 122
    ||| b == 124 || b == 126
}

/// A text that is a method.
pub open spec fn is_method(s: Seq<u8>) -> bool {
    s.len() > 0 && forall|i: int| 0 <= i < s.len() ==> is_method_byte(#[trigger] s[i])
}

/// A byte that the name of a header may hold.
pub open spec fn is_name_byte(b: u8) -> bool {
    ||| 33 <= b <= 39
    ||| b == 42 || b == 43 || b == 45 || b == 46
    ||| 48 <= b <= 57
    ||| 94 <= b <= 122
    ||| b == 124 || b == 126
}

/// A text that is the name of a header, in lower case.
pub open spec fn is_header_name(s: Seq<u8>) -> bool {
    0 < s.len() <= 65535 && forall|i: int| 0 <= i < s.len() ==> is_name_byte(#[trigger] s[i])
}

/// A byte that the value of a header may hold.
pub open spec fn is_value_byte(b: u8) -> bool {
    b >= 32 && b != 127 || b == 9
}

/// A text that is the value of a header.
pub open spec fn is_header_value(s: Seq<u8>) -> bool {
    forall|i: int| 0 <= i < s.len() ==> is_value_byte(#[trigger] s[i])
}

/// The status that a text spells: three digits, the first of them not zero.
pub open spec fn status_of(s: Seq<u8>) -> Option<u16> {
    if s.len() == 3 && 49 <= s[0] <= 57 && 48 <= s[1] <= 57 && 48 <= s[2] <= 57 {
        Some(((s[0] - 48) * 100 + (s[1] - 48) * 10 + (s[2] - 48)) as u16)
    } else {
        None
    }
}

/// `http::Method::from_bytes`: whether it accepts the text. It accepts every
/// text that is not empty and holds only the bytes that a method may hold.
#[verifier::external_body]
pub(crate) fn method_accepts(s: &[u8]) -> (r: bool)
    ensures
        r == is_method(s@),
{
    http::Method::from_bytes(s).is_ok()
}

/// `http::HeaderName::from_lowercase`: whether it accepts the text. It accepts
/// every text of 1 to 65535 bytes that holds only the bytes of a lower-case
/// header name.
#[verifier::external_body]
pub(crate) fn header_name_accepts(s: &[u8]) -> (r: bool)
    ensures
        r == is_header_name(s@),
{
    http::HeaderName::from_lowercase(s).is_ok()
}

/// `http::HeaderValue::from_bytes`: whether it accepts the text. It accepts
/// every text without control bytes, the tab aside.
#[verifier::external_body]
pub(crate) fn header_value_accepts(s: &[u8]) -> (r: bool)
    ensures
        r == is_header_value(s@),
{
    http::HeaderValue::from_bytes(s).is_ok()
}

/// `http::StatusCode::from_bytes`: the number that three digits spell, the
/// first of them not zero; no status for any other text.
#[verifier::external_body]
pub(crate) fn status_from_bytes(s: &[u8]) -> (r: Option<u16>)
    ensures
        r == status_of(s@),
{
    http::StatusCode::from_bytes(s).map(|status| status.as_u16()).ok()
}

/// `std::str::from_utf8`: whether the bytes are UTF-8.
#[verifier::external_body]
pub(crate) fn utf8_accepts(s: &[u8]) -> (r: bool)
    ensures
        r == valid_utf8(s@),
{
    std::str::from_utf8(s).is_ok()
}

} // verus!
