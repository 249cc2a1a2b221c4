//! The encoder of header blocks.
//!
//! Every field is written as a literal that enters no table, so that a block
//! can be read whatever the peer's table holds.

use crate::buf::{contents, put_u8, room};
use crate::hpack::decoder::{step_of, string_of, DecoderView, StepView};
use crate::hpack::error::DecoderError;
use crate::hpack::field::{field_fault, fields_view, Field, FieldView};
use crate::hpack::integer::{
    integer_bytes, integer_of, lemma_integer_cut, lemma_integer_round_trip, write_integer,
};
use bytes::BytesMut;
use vstd::prelude::*;

verus! {

/// A text as it stands in a header block.
pub open spec fn string_bytes(text: Seq<u8>) -> Seq<u8> {
    integer_bytes(0, 128, text.len() as int) + text
}

/// A field as it stands in a header block.
pub open spec fn field_bytes(f: FieldView) -> Seq<u8> {
    seq![0u8] + (string_bytes(f.name) + string_bytes(f.value))
}

/// A run of fields as it stands in a header block.
pub open spec fn fields_bytes(fields: Seq<FieldView>) -> Seq<u8>
    decreases fields.len(),
{
    if fields.len() == 0 {
        Seq::empty()
    } else {
        field_bytes(fields[0]) + fields_bytes(fields.skip(1))
    }
}

/// Table sizes that the peer has to be told of at the start of the next block:
/// one, or the smallest and the last of several.
#[derive(Clone, Copy, Debug, PartialEq, Eq, Structural)]
pub enum SizeUpdate {
    One(usize),
    Two(usize, usize),
}

/// The table sizes that stand in front of a block.
pub open spec fn updates_bytes(update: Option<SizeUpdate>) -> Seq<u8> {
    match update {
        None => Seq::empty(),
        Some(SizeUpdate::One(n)) => integer_bytes(32, 32, n as int),
        Some(SizeUpdate::Two(a, b)) => integer_bytes(32, 32, a as int) + integer_bytes(
            32,
            32,
            b as int,
        ),
    }
}

/// Writes header blocks.
#[derive(Debug)]
pub struct Encoder {
    pub max_size: usize,
    pub size_update: Option<SizeUpdate>,
}

impl Encoder {
    /// The encoder after a block: nothing is left to be told.
    pub open spec fn told(self) -> Encoder {
        Encoder {
            max_size: match self.size_update {
                None => self.max_size,
                Some(SizeUpdate::One(n)) => n,
                Some(SizeUpdate::Two(_, n)) => n,
            },
            size_update: None,
        }
    }

    /// The encoder after the peer has allowed a table size.
    pub open spec fn allowed(self, val: usize) -> Encoder {
        Encoder {
            size_update: match self.size_update {
                Some(SizeUpdate::One(old)) => if val > old {
                    if old > self.max_size {
                        if val == self.max_size {
                            None
                        } else {
                            Some(SizeUpdate::One(val))
                        }
                    } else {
                        Some(SizeUpdate::Two(old, val))
                    }
                } else {
                    Some(SizeUpdate::One(val))
                },
                Some(SizeUpdate::Two(min, _)) => if val < min {
                    Some(SizeUpdate::One(val))
                } else {
                    Some(SizeUpdate::Two(min, val))
                },
                None => if val != self.max_size {
                    Some(SizeUpdate::One(val))
                } else {
                    None
                },
            },
            ..self
        }
    }

    /// An encoder for a peer with the table size that everyone starts with.
    pub fn new() -> (e: Encoder)
        ensures
            e == (Encoder { max_size: 4096, size_update: None }),
    {
        Encoder { max_size: 4096, size_update: None }
    }

    /// Takes note of a table size that the peer allows.
    pub fn update_max_size(&mut self, val: usize)
        ensures
            *final(self) == old(self).allowed(val),
    {
        match self.size_update {
            Some(SizeUpdate::One(old)) => {
                if val > old {
                    if old > self.max_size {
                        if val == self.max_size {
                            self.size_update = None;
                        } else {
                            self.size_update = Some(SizeUpdate::One(val));
                        }
                    } else {
                        self.size_update = Some(SizeUpdate::Two(old, val));
                    }
                } else {
                    self.size_update = Some(SizeUpdate::One(val));
                }
            },
            Some(SizeUpdate::Two(min, _)) => {
                if val < min {
                    self.size_update = Some(SizeUpdate::One(val));
                } else {
                    self.size_update = Some(SizeUpdate::Two(min, val));
                }
            },
            None => {
                if val != self.max_size {
                    self.size_update = Some(SizeUpdate::One(val));
                }
            },
        }
    }

    /// Appends a header block.
    pub fn encode(&mut self, fields: &Vec<Field>, dst: &mut BytesMut)
        ensures
            *final(self) == old(self).told(),
            contents(*final(dst)) == contents(*old(dst)) + (updates_bytes(old(self).size_update)
                + fields_bytes(fields_view(fields@))),
            room(*final(dst)) == room(*old(dst)),
    {
        match self.size_update.take() {
            None => {},
            Some(SizeUpdate::One(n)) => {
                self.max_size = n;
                write_integer(dst, 32, 32, n);
            },
            Some(SizeUpdate::Two(a, b)) => {
                self.max_size = b;
                write_integer(dst, 32, 32, a);
                write_integer(dst, 32, 32, b);
            },
        }
        let ghost all = fields_view(fields@);
        let ghost before = contents(*old(dst)) + updates_bytes(old(self).size_update);
        assert(contents(*dst) =~= before);
        assert(all.skip(0) =~= all);
        let mut i: usize = 0;
        while i < fields.len()
            invariant
                i <= fields@.len(),
                all == fields_view(fields@),
                room(*dst) == room(*old(dst)),
                contents(*dst) + fields_bytes(all.skip(i as int)) =~= before + fields_bytes(all),
            decreases fields.len() - i,
        {
            let ghost start = contents(*dst);
            let field = &fields[i];
            put_u8(dst, 0);
            write_integer(dst, 0, 128, field.name.len());
            dst.extend_from_slice(field.name.as_slice());
            write_integer(dst, 0, 128, field.value.len());
            dst.extend_from_slice(field.value.as_slice());
            proof {
                let rest = all.skip(i as int);
                assert(rest[0] == fields@[i as int]@);
                assert(rest.skip(1) =~= all.skip(i + 1));
                assert(contents(*dst) =~= start + field_bytes(rest[0]));
                assert(contents(*dst) + fields_bytes(all.skip(i + 1)) =~= start + (field_bytes(
                    rest[0],
                ) + fields_bytes(rest.skip(1))));
            }
            i = i + 1;
        }
        assert(contents(*dst) =~= contents(*dst) + fields_bytes(all.skip(i as int)));
        assert(contents(*dst) =~= contents(*old(dst)) + (updates_bytes(old(self).size_update)
            + fields_bytes(all)));
    }
}

proof fn lemma_string_round_trip(text: Seq<u8>, rest: Seq<u8>)
    requires
        text.len() < 0x1000_0000,
    ensures
        string_of(string_bytes(text) + rest) == Ok::<(Seq<u8>, Seq<u8>), DecoderError>(
            (text, rest),
        ),
{
    let len = text.len() as int;
    let s = string_bytes(text) + rest;
    lemma_integer_round_trip(0, 128, len, text + rest);
    assert(s =~= integer_bytes(0, 128, len) + (text + rest));
    assert(s[0] == integer_bytes(0, 128, len)[0]);
    assert((text + rest).take(len) =~= text);
    assert((text + rest).skip(len) =~= rest);
}

/// A field that was written reads back as it was, and leaves the decoder as it
/// was.
pub proof fn lemma_field_round_trip(d: DecoderView, f: FieldView, rest: Seq<u8>, can_resize: bool)
    requires
        f.name.len() < 0x1000_0000,
        f.value.len() < 0x1000_0000,
        field_fault(f) is None,
    ensures
        step_of(d, field_bytes(f) + rest, can_resize) == Ok::<StepView, DecoderError>(
            StepView { field: Some(f), table: d.table, rest },
        ),
{
    reveal(step_of);
    let s = field_bytes(f) + rest;
    let tail = string_bytes(f.name) + (string_bytes(f.value) + rest);
    assert(s[0] == 0);
    assert(s.skip(1) =~= tail);
    assert(integer_of(s, 16) == Ok::<(int, Seq<u8>), DecoderError>((0, tail)));
    lemma_string_round_trip(f.name, string_bytes(f.value) + rest);
    lemma_string_round_trip(f.value, rest);
    assert((FieldView { name: f.name, value: f.value }) == f);
}

/// A table size that was written reads back as it was.
pub proof fn lemma_update_round_trip(d: DecoderView, n: int, rest: Seq<u8>)
    requires
        0 <= n < 0x1000_0000,
        n <= d.allowed,
    ensures
        step_of(d, integer_bytes(32, 32, n) + rest, true) == Ok::<StepView, DecoderError>(
            StepView { field: None, table: d.table.resized(n), rest },
        ),
{
    reveal(step_of);
    let s = integer_bytes(32, 32, n) + rest;
    lemma_integer_round_trip(32, 32, n, rest);
    assert(s[0] == integer_bytes(32, 32, n)[0]);
}

proof fn lemma_string_cut(text: Seq<u8>, j: int)
    requires
        text.len() < 0x1000_0000,
        0 <= j < string_bytes(text).len(),
    ensures
        string_of(string_bytes(text).take(j)) matches Err(DecoderError::NeedMore(_)),
{
    let len = text.len() as int;
    let p = integer_bytes(0, 128, len);
    let s = string_bytes(text).take(j);
    if 0 < j < p.len() {
        assert(s =~= p.take(j));
        lemma_integer_cut(len, j);
    } else if j > 0 {
        let rest = text.take(j - p.len());
        assert(s =~= p + rest);
        lemma_integer_round_trip(0, 128, len, rest);
    }
}

/// A field that is cut short asks for more.
pub proof fn lemma_field_cut(d: DecoderView, f: FieldView, k: int, can_resize: bool)
    requires
        f.name.len() < 0x1000_0000,
        f.value.len() < 0x1000_0000,
        0 < k < field_bytes(f).len(),
    ensures
        step_of(d, field_bytes(f).take(k), can_resize) matches Err(DecoderError::NeedMore(_)),
{
    reveal(step_of);
    let s = field_bytes(f).take(k);
    let tail = s.skip(1);
    let n = string_bytes(f.name);
    let v = string_bytes(f.value);
    assert(s[0] == 0);
    assert(tail =~= (n + v).take(k - 1));
    assert(integer_of(s, 16) == Ok::<(int, Seq<u8>), DecoderError>((0, tail)));
    if k - 1 < n.len() {
        assert(tail =~= n.take(k - 1));
        lemma_string_cut(f.name, k - 1);
    } else {
        let rest = v.take(k - 1 - n.len());
        assert(tail =~= n + rest);
        lemma_string_round_trip(f.name, rest);
        lemma_string_cut(f.value, k - 1 - n.len());
    }
}

} // verus!
