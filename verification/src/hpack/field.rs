//! Header fields.

use crate::names::{AUTHORITY, METHOD, PATH, PROTOCOL, SCHEME, STATUS};
use crate::hpack::error::{DecoderError, NeedMore};
use crate::text::{
    header_name_accepts, header_value_accepts, is_header_name, is_header_value, is_method,
    method_accepts, status_from_bytes, status_of, utf8_accepts,
};
use crate::wire::{same_bytes, to_vec};
use vstd::prelude::*;
use vstd::utf8::valid_utf8;

verus! {

/// No text in a header block comes near this many bytes.
pub const TEXT_BOUND: usize = 0x2000_0000;

/// A header field: a name and a value. See [`FieldView::wf`] for what a header of a
/// message may hold.
#[derive(Debug)]
pub struct Field {
    pub name: Vec<u8>,
    pub value: Vec<u8>,
}

/// A header field as two texts.
#[verifier::ext_equal]
pub struct FieldView {
    pub name: Seq<u8>,
    pub value: Seq<u8>,
}

impl View for Field {
    type V = FieldView;

    open spec fn view(&self) -> FieldView {
        FieldView { name: self.name@, value: self.value@ }
    }
}

/// The fields of a list.
pub open spec fn fields_view(fields: Seq<Field>) -> Seq<FieldView> {
    fields.map_values(|f: Field| f@)
}

impl FieldView {
    /// The size that a field counts for.
    pub open spec fn size(self) -> nat {
        self.name.len() + self.value.len() + 32
    }

    /// The texts are ones that a header of a message can have: a name in lower case
    /// that is none of a pseudo-header, and a value without control bytes.
    pub open spec fn wf(self) -> bool {
        is_header_name(self.name) && is_header_value(self.value)
    }

    /// Neither text is out of bounds.
    pub open spec fn bounded(self) -> bool {
        self.name.len() < TEXT_BOUND && self.value.len() < TEXT_BOUND
    }
}

impl Field {
    /// A field with copies of two texts.
    pub fn copied(name: &[u8], value: &[u8]) -> (f: Field)
        ensures
            f@ == (FieldView { name: name@, value: value@ }),
    {
        Field { name: to_vec(name), value: to_vec(value) }
    }

    /// A copy of the field.
    pub fn copy(&self) -> (f: Field)
        ensures
            f@ == self@,
    {
        Field::copied(self.name.as_slice(), self.value.as_slice())
    }

    /// Whether the texts are ones that a header of a message can have.
    pub fn is_valid(&self) -> (r: bool)
        ensures
            r == self@.wf(),
    {
        header_name_accepts(self.name.as_slice()) && header_value_accepts(self.value.as_slice())
    }

    /// The size that the field counts for.
    pub fn size(&self) -> (n: usize)
        requires
            self@.bounded(),
        ensures
            n == self@.size(),
    {
        self.name.len() + self.value.len() + 32
    }
}

/// The names that start with a colon.
#[derive(Clone, Copy, Debug, PartialEq, Eq, Structural)]
pub enum PseudoName {
    Method,
    Scheme,
    Authority,
    Path,
    Protocol,
    Status,
}

/// The pseudo-header that a name is.
pub open spec fn pseudo_name_of(name: Seq<u8>) -> Option<PseudoName> {
    if name == METHOD@ {
        Some(PseudoName::Method)
    } else if name == SCHEME@ {
        Some(PseudoName::Scheme)
    } else if name == AUTHORITY@ {
        Some(PseudoName::Authority)
    } else if name == PATH@ {
        Some(PseudoName::Path)
    } else if name == PROTOCOL@ {
        Some(PseudoName::Protocol)
    } else if name == STATUS@ {
        Some(PseudoName::Status)
    } else {
        None
    }
}

/// The pseudo-header that a name is.
pub fn pseudo_name(name: &[u8]) -> (r: Option<PseudoName>)
    ensures
        r == pseudo_name_of(name@),
{
    if same_bytes(name, METHOD.as_slice()) {
        Some(PseudoName::Method)
    } else if same_bytes(name, SCHEME.as_slice()) {
        Some(PseudoName::Scheme)
    } else if same_bytes(name, AUTHORITY.as_slice()) {
        Some(PseudoName::Authority)
    } else if same_bytes(name, PATH.as_slice()) {
        Some(PseudoName::Path)
    } else if same_bytes(name, PROTOCOL.as_slice()) {
        Some(PseudoName::Protocol)
    } else if same_bytes(name, STATUS.as_slice()) {
        Some(PseudoName::Status)
    } else {
        None
    }
}

/// What is wrong with a field, if anything is.
pub open spec fn field_fault(f: FieldView) -> Option<DecoderError> {
    if f.name.len() == 0 {
        Some(DecoderError::NeedMore(NeedMore::UnexpectedEndOfStream))
    } else if f.name[0] == 58 {
        match pseudo_name_of(f.name) {
            None => Some(DecoderError::InvalidPseudoheader),
            Some(PseudoName::Method) => if is_method(f.value) {
                None
            } else {
                Some(DecoderError::InvalidUtf8)
            },
            Some(PseudoName::Status) => if status_of(f.value) is Some {
                None
            } else {
                Some(DecoderError::InvalidUtf8)
            },
            Some(_) => if valid_utf8(f.value) {
                None
            } else {
                Some(DecoderError::InvalidUtf8)
            },
        }
    } else if is_header_name(f.name) && is_header_value(f.value) {
        None
    } else {
        Some(DecoderError::InvalidUtf8)
    }
}

/// What is wrong with a field, if anything is.
pub fn check_field(name: &[u8], value: &[u8]) -> (r: Option<DecoderError>)
    ensures
        r == field_fault(FieldView { name: name@, value: value@ }),
{
    if name.len() == 0 {
        return Some(DecoderError::NeedMore(NeedMore::UnexpectedEndOfStream));
    }
    let ok = if name[0] == 58 {
        match pseudo_name(name) {
            None => {
                return Some(DecoderError::InvalidPseudoheader);
            },
            Some(PseudoName::Method) => method_accepts(value),
            Some(PseudoName::Status) => status_from_bytes(value).is_some(),
            Some(_) => utf8_accepts(value),
        }
    } else {
        header_name_accepts(name) && header_value_accepts(value)
    };
    if ok {
        None
    } else {
        Some(DecoderError::InvalidUtf8)
    }
}

} // verus!
