//! Requests and responses.

use crate::frame::block::text_view;
use crate::hpack::field::{fields_view, Field, FieldView};
use crate::names::CONTENT_LENGTH;
use crate::text::{is_method, method_accepts, utf8_accepts};
use crate::uri::{
    authority_accepts, is_authority, is_scheme, path_from_bytes, path_of, scheme_accepts,
};
use crate::wire::same_bytes;
use vstd::prelude::*;
use vstd::utf8::valid_utf8;

verus! {

/// The version of HTTP that a message speaks.
#[allow(non_camel_case_types)]
#[derive(Clone, Copy, Debug, PartialEq, Eq, Structural)]
pub enum Version {
    HTTP_09,
    HTTP_10,
    HTTP_11,
    HTTP_2,
    HTTP_3,
}

/// What a request is for. See [`UriView::valid`] for what it may hold.
#[derive(Debug)]
pub struct Uri {
    pub scheme: Option<Vec<u8>>,
    pub authority: Option<Vec<u8>>,
    pub path_and_query: Option<Vec<u8>>,
}

/// What a request is for, as texts.
#[verifier::ext_equal]
pub struct UriView {
    pub scheme: Option<Seq<u8>>,
    pub authority: Option<Seq<u8>>,
    pub path_and_query: Option<Seq<u8>>,
}

impl View for Uri {
    type V = UriView;

    open spec fn view(&self) -> UriView {
        UriView {
            scheme: text_view(self.scheme),
            authority: text_view(self.authority),
            path_and_query: text_view(self.path_and_query),
        }
    }
}

impl UriView {
    /// The parts go together: a scheme needs both others, and both others need
    /// a scheme.
    pub open spec fn wf(self) -> bool {
        if self.scheme is Some {
            self.authority is Some && self.path_and_query is Some
        } else {
            self.authority is None || self.path_and_query is None
        }
    }

    /// The parts go together, and each of them is one that there can be.
    pub open spec fn valid(self) -> bool {
        &&& self.wf()
        &&& self.scheme matches Some(s) ==> is_scheme(s) && valid_utf8(s)
        &&& self.authority matches Some(a) ==> is_authority(a) && valid_utf8(a)
        &&& self.path_and_query matches Some(p) ==> path_of(p) == Some(p) && valid_utf8(p)
    }
}

impl Uri {
    /// Whether the parts go together, and each of them is one that there can be.
    pub fn is_valid(&self) -> (r: bool)
        ensures
            r == self@.valid(),
    {
        let scheme = match &self.scheme {
            Some(s) => scheme_accepts(s.as_slice()) && utf8_accepts(s.as_slice()),
            None => true,
        };
        let authority = match &self.authority {
            Some(a) => authority_accepts(a.as_slice()) && utf8_accepts(a.as_slice()),
            None => true,
        };
        let path = match &self.path_and_query {
            Some(p) => match path_from_bytes(p.as_slice()) {
                Some(kept) => same_bytes(kept.as_slice(), p.as_slice()) && utf8_accepts(
                    p.as_slice(),
                ),
                None => false,
            },
            None => true,
        };
        self.goes_together() && scheme && authority && path
    }

    /// Whether the parts go together, as `http::Uri::from_parts` has it.
    pub fn goes_together(&self) -> (r: bool)
        ensures
            r == self@.wf(),
    {
        if self.scheme.is_some() {
            self.authority.is_some() && self.path_and_query.is_some()
        } else {
            self.authority.is_none() || self.path_and_query.is_none()
        }
    }
}

/// Every field of a list is one that a message can have.
pub open spec fn fields_wf(fields: Seq<FieldView>) -> bool {
    forall|i: int| 0 <= i < fields.len() ==> (#[trigger] fields[i]).wf()
}

/// Whether every field of a list is one that a message can have.
pub fn all_valid(fields: &Vec<Field>) -> (r: bool)
    ensures
        r == fields_wf(fields_view(fields@)),
{
    let ghost all = fields_view(fields@);
    let mut i: usize = 0;
    while i < fields.len()
        invariant
            i <= fields@.len(),
            all == fields_view(fields@),
            forall|j: int| 0 <= j < i ==> (#[trigger] all[j]).wf(),
        decreases fields.len() - i,
    {
        assert(all[i as int] == fields@[i as int]@);
        if !fields[i].is_valid() {
            return false;
        }
        i = i + 1;
    }
    true
}

/// The head of a request. See [`RequestView::wf`] for what it may hold.
#[derive(Debug)]
pub struct Request {
    pub method: Vec<u8>,
    pub uri: Uri,
    pub version: Version,
    pub protocol: Option<Vec<u8>>,
    pub headers: Vec<Field>,
}

/// The head of a request, as texts.
#[verifier::ext_equal]
pub struct RequestView {
    pub method: Seq<u8>,
    pub uri: UriView,
    pub version: Version,
    pub protocol: Option<Seq<u8>>,
    pub headers: Seq<FieldView>,
}

impl View for Request {
    type V = RequestView;

    open spec fn view(&self) -> RequestView {
        RequestView {
            method: self.method@,
            uri: self.uri@,
            version: self.version,
            protocol: text_view(self.protocol),
            headers: fields_view(self.headers@),
        }
    }
}

impl RequestView {
    /// A request that there can be: its method, its target, its protocol and its
    /// headers are texts of their kinds.
    pub open spec fn wf(self) -> bool {
        &&& is_method(self.method)
        &&& self.uri.valid()
        &&& self.protocol matches Some(p) ==> valid_utf8(p)
        &&& fields_wf(self.headers)
    }
}

impl Request {
    /// Whether there can be such a request.
    pub fn is_valid(&self) -> (r: bool)
        ensures
            r == self@.wf(),
    {
        let protocol = match &self.protocol {
            Some(p) => utf8_accepts(p.as_slice()),
            None => true,
        };
        method_accepts(self.method.as_slice()) && self.uri.is_valid() && protocol && all_valid(
            &self.headers,
        )
    }
}

/// The head of a response. See [`ResponseView::wf`] for what it may hold.
#[derive(Debug)]
pub struct Response {
    pub status: u16,
    pub version: Version,
    pub headers: Vec<Field>,
}

/// The head of a response, as texts.
#[verifier::ext_equal]
pub struct ResponseView {
    pub status: u16,
    pub version: Version,
    pub headers: Seq<FieldView>,
}

impl View for Response {
    type V = ResponseView;

    open spec fn view(&self) -> ResponseView {
        ResponseView {
            status: self.status,
            version: self.version,
            headers: fields_view(self.headers@),
        }
    }
}

/// The value of the first field with this name.
pub open spec fn first_value(fields: Seq<FieldView>, name: Seq<u8>) -> Option<Seq<u8>>
    decreases fields.len(),
{
    if fields.len() == 0 {
        None
    } else if fields[0].name == name {
        Some(fields[0].value)
    } else {
        first_value(fields.skip(1), name)
    }
}

/// The number that a run of decimal digits spells.
pub open spec fn decimal(s: Seq<u8>) -> nat
    decreases s.len(),
{
    if s.len() == 0 {
        0
    } else {
        decimal(s.drop_last()) * 10 + (s.last() - 48) as nat
    }
}

/// A text of decimal digits only.
pub open spec fn is_digits(s: Seq<u8>) -> bool {
    forall|i: int| 0 <= i < s.len() ==> 48 <= #[trigger] s[i] <= 57
}

/// The length that a content-length header gives: at most nineteen digits.
pub open spec fn length_of(s: Seq<u8>) -> Option<nat> {
    if s.len() <= 19 && is_digits(s) {
        Some(decimal(s))
    } else {
        None
    }
}

impl ResponseView {
    /// A response that there can be: its status has three digits, and its headers are
    /// texts of their kinds.
    pub open spec fn wf(self) -> bool {
        100 <= self.status <= 999 && fields_wf(self.headers)
    }
}

impl Response {
    /// Whether there can be such a response.
    pub fn is_valid(&self) -> (r: bool)
        ensures
            r == self@.wf(),
    {
        100 <= self.status && self.status <= 999 && all_valid(&self.headers)
    }
}

/// What the content-length header of a message says.
#[derive(Clone, Copy, Debug, PartialEq, Eq, Structural)]
pub enum ContentLength {
    /// There is none.
    Omitted,
    /// It is no number.
    Invalid,
    /// The length of the body.
    Length(u64),
}

/// What the content-length header among these fields says.
pub open spec fn content_length_of(fields: Seq<FieldView>) -> ContentLength {
    match first_value(fields, CONTENT_LENGTH@) {
        None => ContentLength::Omitted,
        Some(v) => match length_of(v) {
            None => ContentLength::Invalid,
            Some(n) => ContentLength::Length(n as u64),
        },
    }
}

pub(crate) proof fn lemma_decimal_bound(s: Seq<u8>, k: nat)
    requires
        is_digits(s),
        s.len() <= k <= 19,
    ensures
        k == 0 ==> decimal(s) == 0,
        k >= 1 ==> decimal(s) < 10_000_000_000_000_000_000,
        k <= 18 ==> decimal(s) < 1_000_000_000_000_000_000,
{
    lemma_decimal_pow(s);
    vstd::arithmetic::power::lemma_pow_increases(10, s.len(), k);
    assert(vstd::arithmetic::power::pow(10, 19) == 10_000_000_000_000_000_000) by {
        reveal_with_fuel(vstd::arithmetic::power::pow, 20);
    }
    assert(vstd::arithmetic::power::pow(10, 18) == 1_000_000_000_000_000_000) by {
        reveal_with_fuel(vstd::arithmetic::power::pow, 19);
    }
    vstd::arithmetic::power::lemma_pow_increases(10, k, 19);
    if k <= 18 {
        vstd::arithmetic::power::lemma_pow_increases(10, k, 18);
    }
}

proof fn lemma_decimal_pow(s: Seq<u8>)
    requires
        is_digits(s),
    ensures
        decimal(s) < vstd::arithmetic::power::pow(10, s.len()),
    decreases s.len(),
{
    reveal(vstd::arithmetic::power::pow);
    if s.len() > 0 {
        assert(is_digits(s.drop_last()));
        lemma_decimal_pow(s.drop_last());
        assert(48 <= s[s.len() - 1] <= 57);
    }
}

/// Reads the number that a content-length header gives.
pub fn parse_length(s: &[u8]) -> (r: Option<u64>)
    ensures
        match r {
            Some(n) => length_of(s@) == Some(n as nat),
            None => length_of(s@) is None,
        },
{
    if s.len() > 19 {
        return None;
    }
    let mut n: u64 = 0;
    let mut i: usize = 0;
    assert(s@.take(0) =~= Seq::<u8>::empty());
    while i < s.len()
        invariant
            i <= s@.len() <= 19,
            is_digits(s@.take(i as int)),
            n == decimal(s@.take(i as int)),
        decreases s.len() - i,
    {
        let d: u8 = s[i];
        if d < 48 || d > 57 {
            assert(!is_digits(s@)) by {
                assert(s@[i as int] == d);
            }
            return None;
        }
        proof {
            lemma_decimal_bound(s@.take(i as int), 18);
            assert(s@.take(i + 1).drop_last() =~= s@.take(i as int));
            assert(is_digits(s@.take(i + 1)));
        }
        n = n * 10 + (d - 48) as u64;
        i = i + 1;
    }
    assert(s@.take(i as int) =~= s@);
    Some(n)
}

/// The value of the first field with this name.
pub fn find_value<'a>(fields: &'a Vec<Field>, name: &[u8]) -> (r: Option<&'a Vec<u8>>)
    ensures
        first_value(fields_view(fields@), name@) == match r {
            Some(v) => Some(v@),
            None => None,
        },
{
    let ghost all = fields_view(fields@);
    let mut i: usize = 0;
    assert(all.skip(0) =~= all);
    while i < fields.len()
        invariant
            i <= fields@.len(),
            all == fields_view(fields@),
            first_value(all, name@) == first_value(all.skip(i as int), name@),
        decreases fields.len() - i,
    {
        assert(all.skip(i as int)[0] == fields@[i as int]@);
        assert(all.skip(i as int).skip(1) =~= all.skip(i + 1));
        if same_bytes(fields[i].name.as_slice(), name) {
            return Some(&fields[i].value);
        }
        i = i + 1;
    }
    None
}

/// What the content-length header among these fields says.
pub fn content_length(fields: &Vec<Field>) -> (r: ContentLength)
    ensures
        r == content_length_of(fields_view(fields@)),
{
    match find_value(fields, CONTENT_LENGTH.as_slice()) {
        None => ContentLength::Omitted,
        Some(v) => match parse_length(v.as_slice()) {
            None => ContentLength::Invalid,
            Some(n) => {
                proof {
                    lemma_decimal_bound(v@, 19);
                }
                ContentLength::Length(n)
            },
        },
    }
}

/// A copy of an optional text.
pub fn copy_text(text: &Option<Vec<u8>>) -> (r: Option<Vec<u8>>)
    ensures
        text_view(r) == text_view(*text),
{
    match text {
        Some(t) => Some(crate::wire::to_vec(t.as_slice())),
        None => None,
    }
}

/// The first field with a name counts, whatever stands in front of it and behind it.
pub proof fn law_first_value(fields: Seq<FieldView>, name: Seq<u8>)
    ensures
        match first_value(fields, name) {
            None => forall|i: int| 0 <= i < fields.len() ==> (#[trigger] fields[i]).name != name,
            Some(value) => exists|i: int|
                0 <= i < fields.len() && (#[trigger] fields[i]).name == name && fields[i].value
                    == value && forall|j: int| 0 <= j < i ==> (#[trigger] fields[j]).name != name,
        },
    decreases fields.len(),
{
    if fields.len() > 0 {
        let rest = fields.skip(1);
        if fields[0].name == name {
            assert(fields[0].value == first_value(fields, name)->0);
        } else {
            law_first_value(rest, name);
            match first_value(rest, name) {
                None => {
                    assert forall|i: int| 0 <= i < fields.len() implies (
                    #[trigger] fields[i]).name != name by {
                        if i > 0 {
                            assert(rest[i - 1] == fields[i]);
                        }
                    }
                },
                Some(value) => {
                    let k = choose|k: int|
                        0 <= k < rest.len() && (#[trigger] rest[k]).name == name && rest[k].value
                            == value && forall|j: int|
                            0 <= j < k ==> (#[trigger] rest[j]).name != name;
                    assert(fields[k + 1] == rest[k]);
                    assert forall|j: int| 0 <= j < k + 1 implies (#[trigger] fields[j]).name
                        != name by {
                        if j > 0 {
                            assert(rest[j - 1] == fields[j]);
                        }
                    }
                },
            }
        }
    }
}

/// A length is a number of at most nineteen digits: where the header is no such number it is
/// invalid, and where there is none no length is given.
pub proof fn law_lengths(fields: Seq<FieldView>)
    ensures
        ({
            let length = content_length_of(fields);
            match first_value(fields, CONTENT_LENGTH@) {
                None => length == ContentLength::Omitted,
                Some(text) => if text.len() > 19 || !is_digits(text) {
                    length == ContentLength::Invalid
                } else {
                    length matches ContentLength::Length(n) && n == decimal(text)
                },
            }
        }),
{
    if let Some(text) = first_value(fields, CONTENT_LENGTH@) {
        if text.len() <= 19 && is_digits(text) {
            lemma_decimal_bound(text, 19);
        }
    }
}

} // verus!
