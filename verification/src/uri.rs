//! The parts of a request target.

use crate::frame::block::text_view;
use bytes::Bytes;
use vstd::prelude::*;

verus! {

/// A byte that a scheme may hold.
pub open spec fn is_scheme_byte(b: u8) -> bool {
    ||| b == 43 || b == 45 || b == 46 || b == 126
    ||| 48 <= b <= 57
    ||| 65 <= b <= 90
    ||| 97 <= b <= 122
}

/// A text that is a scheme.
pub open spec fn is_scheme(s: Seq<u8>) -> bool {
    s.len() <= 64 && forall|i: int| 0 <= i < s.len() ==> is_scheme_byte(#[trigger] s[i])
}

/// Whether `http::uri::Authority::from_maybe_shared` accepts a text.
pub uninterp spec fn is_authority(s: Seq<u8>) -> bool;

/// The text of what `http::uri::PathAndQuery::from_maybe_shared` makes of a
/// text, if it accepts it.
pub uninterp spec fn path_of(s: Seq<u8>) -> Option<Seq<u8>>;

/// `http::uri::Authority::from_maybe_shared`: whether it accepts the text. It
/// is a function of the text alone, and keeps a text that it accepts as it is.
#[verifier::external_body]
pub(crate) fn authority_accepts(s: &[u8]) -> (r: bool)
    ensures
        r == is_authority(s@),
{
    http::uri::Authority::from_maybe_shared(Bytes::copy_from_slice(s)).is_ok()
}

/// `http::uri::Scheme::try_from`: whether it accepts the text. It accepts every
/// text of at most 64 bytes that holds only the bytes of a scheme.
#[verifier::external_body]
pub(crate) fn scheme_accepts(s: &[u8]) -> (r: bool)
    ensures
        r == is_scheme(s@),
{
    http::uri::Scheme::try_from(s).is_ok()
}

/// `http::uri::PathAndQuery::from_maybe_shared`: the text of what it makes of
/// the text, if it accepts it. It is a function of the text alone.
#[verifier::external_body]
pub(crate) fn path_from_bytes(s: &[u8]) -> (r: Option<Vec<u8>>)
    ensures
        text_view(r) == path_of(s@),
{
    let path = http::uri::PathAndQuery::from_maybe_shared(Bytes::copy_from_slice(s));
    path.map(|path| path.as_str().as_bytes().to_vec()).ok()
}

} // verus!
