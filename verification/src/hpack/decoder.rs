//! The decoder of header blocks.

use crate::hpack::error::{DecoderError, NeedMore};
use crate::hpack::field::{check_field, field_fault, Field, FieldView};
use crate::hpack::huffman;
use crate::hpack::huffman::huffman_of;
use crate::hpack::integer::{integer_of, lemma_integer_shrinks, read_integer};
use crate::hpack::table::{Table, TableView};
use crate::wire::to_vec;
use vstd::prelude::*;
use vstd::slice::slice_subrange;

verus! {

/// The string at the start of `s`, and what stands behind it.
pub open spec fn string_of(s: Seq<u8>) -> Result<(Seq<u8>, Seq<u8>), DecoderError> {
    if s.len() == 0 {
        Err(DecoderError::NeedMore(NeedMore::UnexpectedEndOfStream))
    } else {
        match integer_of(s, 128) {
            Err(e) => Err(e),
            Ok((len, rest)) => if len > rest.len() {
                Err(DecoderError::NeedMore(NeedMore::StringUnderflow))
            } else if s[0] >= 128 {
                match huffman_of(rest.take(len)) {
                    Some(text) => Ok((text, rest.skip(len))),
                    None => Err(DecoderError::InvalidHuffmanCode),
                }
            } else {
                Ok((rest.take(len), rest.skip(len)))
            },
        }
    }
}

/// What a decoder knows between two header blocks: its table, the table size
/// that it last allowed, and one that it allows from the next block on.
#[verifier::ext_equal]
pub struct DecoderView {
    pub table: TableView,
    pub allowed: int,
    pub pending: Option<int>,
}

/// What one representation amounts to: the field in it, if there is one, the
/// table after it, and what stands behind it.
#[verifier::ext_equal]
pub struct StepView {
    pub field: Option<FieldView>,
    pub table: TableView,
    pub rest: Seq<u8>,
}

/// The field of a literal representation, whose index has a prefix that holds
/// numbers up to `limit`, and what stands behind it.
pub open spec fn literal_of(table: TableView, s: Seq<u8>, limit: int) -> Result<
    (FieldView, Seq<u8>),
    DecoderError,
> {
    match integer_of(s, limit) {
        Err(e) => Err(e),
        Ok((index, rest)) => {
            let name = if index == 0 {
                string_of(rest)
            } else {
                match table.get(index) {
                    Ok(entry) => Ok((entry.name, rest)),
                    Err(e) => Err(e),
                }
            };
            match name {
                Err(e) => Err(e),
                Ok((name, rest)) => match string_of(rest) {
                    Err(e) => Err(e),
                    Ok((value, rest)) => {
                        let field = FieldView { name, value };
                        match field_fault(field) {
                            Some(e) => Err(e),
                            None => Ok((field, rest)),
                        }
                    },
                },
            }
        },
    }
}

/// What the representation at the start of `s` amounts to. A size update is in
/// place only where `can_resize` says so.
#[verifier::opaque]
pub open spec fn step_of(d: DecoderView, s: Seq<u8>, can_resize: bool) -> Result<
    StepView,
    DecoderError,
> {
    if s[0] >= 128 {
        match integer_of(s, 128) {
            Err(e) => Err(e),
            Ok((index, rest)) => match d.table.get(index) {
                Ok(field) => Ok(StepView { field: Some(field), table: d.table, rest }),
                Err(e) => Err(e),
            },
        }
    } else if s[0] >= 64 {
        match literal_of(d.table, s, 64) {
            Ok((field, rest)) => Ok(
                StepView { field: Some(field), table: d.table.inserted(field), rest },
            ),
            Err(e) => Err(e),
        }
    } else if s[0] >= 32 {
        if !can_resize {
            Err(DecoderError::InvalidMaxDynamicSize)
        } else {
            match integer_of(s, 32) {
                Err(e) => Err(e),
                Ok((size, rest)) => if size > d.allowed {
                    Err(DecoderError::InvalidMaxDynamicSize)
                } else {
                    Ok(StepView { field: None, table: d.table.resized(size), rest })
                },
            }
        }
    } else {
        match literal_of(d.table, s, 16) {
            Ok((field, rest)) => Ok(StepView { field: Some(field), table: d.table, rest }),
            Err(e) => Err(e),
        }
    }
}

proof fn lemma_string_shrinks(s: Seq<u8>)
    ensures
        string_of(s) matches Ok((_, rest)) ==> rest.len() <= s.len(),
{
    lemma_integer_shrinks(s, 128);
}

proof fn lemma_literal_shrinks(table: TableView, s: Seq<u8>, limit: int)
    requires
        limit > 0,
    ensures
        literal_of(table, s, limit) matches Ok((_, rest)) ==> rest.len() < s.len(),
{
    lemma_integer_shrinks(s, limit);
    if let Ok((index, rest)) = integer_of(s, limit) {
        lemma_string_shrinks(rest);
        if index == 0 {
            if let Ok((_, rest)) = string_of(rest) {
                lemma_string_shrinks(rest);
            }
        }
    }
}

/// Reading a representation takes at least one byte.
pub proof fn lemma_step_shrinks(d: DecoderView, s: Seq<u8>, can_resize: bool)
    ensures
        step_of(d, s, can_resize) matches Ok(step) ==> step.rest.len() < s.len(),
{
    reveal(step_of);
    lemma_integer_shrinks(s, 128);
    lemma_integer_shrinks(s, 32);
    lemma_literal_shrinks(d.table, s, 64);
    lemma_literal_shrinks(d.table, s, 16);
}

/// Reads header blocks.
#[derive(Debug)]
pub struct Decoder {
    max_size_update: Option<usize>,
    last_max_update: usize,
    table: Table,
}

impl View for Decoder {
    type V = DecoderView;

    closed spec fn view(&self) -> DecoderView {
        DecoderView {
            table: self.table@,
            allowed: self.last_max_update as int,
            pending: match self.max_size_update {
                Some(n) => Some(n as int),
                None => None,
            },
        }
    }
}

/// What `Decoder::next` gave: the field of the representation, if there is one,
/// and where the representation ends.
#[derive(Debug)]
pub struct Step {
    pub field: Option<Field>,
    pub end: usize,
}

fn read_string(src: &[u8], at: usize) -> (r: Result<(Vec<u8>, usize), DecoderError>)
    requires
        at <= src@.len(),
    ensures
        match r {
            Ok((text, end)) => {
                &&& at < end <= src@.len()
                &&& text@.len() < crate::hpack::field::TEXT_BOUND
                &&& string_of(src@.skip(at as int)) == Ok::<(Seq<u8>, Seq<u8>), DecoderError>(
                    (text@, src@.skip(end as int)),
                )
            },
            Err(e) => string_of(src@.skip(at as int)) == Err::<(Seq<u8>, Seq<u8>), DecoderError>(e),
        },
{
    if at >= src.len() {
        return Err(DecoderError::NeedMore(NeedMore::UnexpectedEndOfStream));
    }
    let coded: bool = src[at] >= 128;
    match read_integer(src, at, 128) {
        Err(e) => Err(e),
        Ok((len, start)) => {
            if len > src.len() - start {
                return Err(DecoderError::NeedMore(NeedMore::StringUnderflow));
            }
            let end: usize = start + len;
            let raw = slice_subrange(src, start, end);
            assert(src@.skip(start as int).take(len as int) =~= raw@);
            assert(src@.skip(start as int).skip(len as int) =~= src@.skip(end as int));
            if coded {
                match huffman::decode(raw) {
                    Some(text) => Ok((text, end)),
                    None => Err(DecoderError::InvalidHuffmanCode),
                }
            } else {
                Ok((to_vec(raw), end))
            }
        },
    }
}

impl Decoder {
    /// The table is in order.
    pub closed spec fn wf(self) -> bool {
        self.table.wf()
    }

    /// A decoder with an empty table of this size.
    pub fn new(size: usize) -> (d: Decoder)
        ensures
            d.wf(),
            d@ == (DecoderView {
                table: TableView { entries: Seq::empty(), max_size: size as int },
                allowed: size as int,
                pending: None,
            }),
    {
        Decoder { max_size_update: None, last_max_update: size, table: Table::new(size) }
    }

    /// Allows another table size from the next header block on. Of several, the
    /// largest counts.
    pub fn queue_size_update(&mut self, size: usize)
        requires
            old(self).wf(),
        ensures
            final(self).wf(),
            final(self)@ == (DecoderView {
                pending: Some(
                    match old(self)@.pending {
                        Some(n) if n > size => n,
                        _ => size as int,
                    },
                ),
                ..old(self)@
            }),
    {
        let size: usize = match self.max_size_update {
            Some(n) if n > size => n,
            _ => size,
        };
        self.max_size_update = Some(size);
    }

    /// Gets ready for a header block, or for the next part of one.
    pub fn start(&mut self)
        requires
            old(self).wf(),
        ensures
            final(self).wf(),
            final(self)@ == (DecoderView {
                allowed: match old(self)@.pending {
                    Some(n) => n,
                    None => old(self)@.allowed,
                },
                pending: None,
                ..old(self)@
            }),
    {
        match self.max_size_update.take() {
            Some(n) => {
                self.last_max_update = n;
            },
            None => {},
        }
    }

    fn literal(&self, src: &[u8], at: usize, limit: u8) -> (r: Result<(Field, usize), DecoderError>)
        requires
            self.wf(),
            at < src@.len(),
            limit == 16 || limit == 64,
        ensures
            match r {
                Ok((f, end)) => {
                    &&& at < end <= src@.len()
                    &&& f@.bounded()
                    &&& literal_of(self@.table, src@.skip(at as int), limit as int) == Ok::<
                        (FieldView, Seq<u8>),
                        DecoderError,
                    >((f@, src@.skip(end as int)))
                },
                Err(e) => literal_of(self@.table, src@.skip(at as int), limit as int) == Err::<
                    (FieldView, Seq<u8>),
                    DecoderError,
                >(e),
            },
    {
        let (index, start) = match read_integer(src, at, limit) {
            Ok(r) => r,
            Err(e) => {
                return Err(e);
            },
        };
        let (name, start) = if index == 0 {
            match read_string(src, start) {
                Ok(r) => r,
                Err(e) => {
                    return Err(e);
                },
            }
        } else {
            match self.table.get(index) {
                Ok(entry) => (entry.name, start),
                Err(e) => {
                    return Err(e);
                },
            }
        };
        let (value, end) = match read_string(src, start) {
            Ok(r) => r,
            Err(e) => {
                return Err(e);
            },
        };
        match check_field(name.as_slice(), value.as_slice()) {
            Some(e) => Err(e),
            None => Ok((Field { name, value }, end)),
        }
    }

    /// Reads the representation that stands at `at`.
    pub fn next(&mut self, src: &[u8], at: usize, can_resize: bool) -> (r: Result<
        Step,
        DecoderError,
    >)
        requires
            old(self).wf(),
            at < src@.len(),
        ensures
            final(self).wf(),
            match step_of(old(self)@, src@.skip(at as int), can_resize) {
                Ok(step) => {
                    &&& r matches Ok(s) && at < s.end <= src@.len() && step.rest == src@.skip(
                        s.end as int,
                    ) && match s.field {
                        Some(f) => step.field == Some(f@) && f@.bounded(),
                        None => step.field is None,
                    }
                    &&& final(self)@ == (DecoderView { table: step.table, ..old(self)@ })
                },
                Err(e) => r == Err::<Step, DecoderError>(e) && final(self)@ == old(self)@,
            },
    {
        reveal(step_of);
        let first: u8 = src[at];
        if first >= 128 {
            let (index, end) = match read_integer(src, at, 128) {
                Ok(r) => r,
                Err(e) => {
                    return Err(e);
                },
            };
            match self.table.get(index) {
                Ok(field) => Ok(Step { field: Some(field), end }),
                Err(e) => Err(e),
            }
        } else if first >= 64 {
            match self.literal(src, at, 64) {
                Ok((field, end)) => {
                    self.table.insert(field.copy());
                    Ok(Step { field: Some(field), end })
                },
                Err(e) => Err(e),
            }
        } else if first >= 32 {
            if !can_resize {
                return Err(DecoderError::InvalidMaxDynamicSize);
            }
            let (size, end) = match read_integer(src, at, 32) {
                Ok(r) => r,
                Err(e) => {
                    return Err(e);
                },
            };
            if size > self.last_max_update {
                return Err(DecoderError::InvalidMaxDynamicSize);
            }
            self.table.set_max_size(size);
            Ok(Step { field: None, end })
        } else {
            match self.literal(src, at, 16) {
                Ok((field, end)) => Ok(Step { field: Some(field), end }),
                Err(e) => Err(e),
            }
        }
    }
}

} // verus!
