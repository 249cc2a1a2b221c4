//! Frame heads and stream identifiers.

use crate::buf::{contents, put_u8, room};
use crate::wire::{be24_bytes, be32, be32_bytes, put_u24, put_u32, read_u32};
use bytes::BytesMut;
use vstd::prelude::*;

verus! {

/// The number of bytes in a frame head.
pub const HEADER_LEN: usize = 9;

/// A 31-bit stream identifier as it stands in a frame.
#[derive(Clone, Copy, Debug, PartialEq, Eq, Structural)]
pub struct StreamId {
    pub id: u32,
}

impl StreamId {
    /// The top bit of an identifier is not part of it.
    pub open spec fn wf(self) -> bool {
        self.id < 0x8000_0000
    }

    /// The identifier with this number.
    pub fn new(id: u32) -> (r: StreamId)
        requires
            id < 0x8000_0000,
        ensures
            r.id == id,
            r.wf(),
    {
        StreamId { id }
    }

    /// Zero names the connection itself.
    pub fn is_zero(&self) -> (r: bool)
        ensures
            r == (self.id == 0),
    {
        self.id == 0
    }

    /// Reads an identifier and the bit in front of it.
    pub fn parse(src: &[u8], at: usize) -> (r: (StreamId, bool))
        requires
            at + 4 <= src@.len(),
        ensures
            r.0 == stream_id_at(src@, at as int),
            r.1 == (be32(src@, at as int) >= 0x8000_0000),
            r.0.wf(),
    {
        let n: u32 = read_u32(src, at);
        (StreamId { id: n % 0x8000_0000 }, n >= 0x8000_0000)
    }
}

/// The identifier that stands in `s` at `at`.
pub open spec fn stream_id_at(s: Seq<u8>, at: int) -> StreamId {
    StreamId { id: (be32(s, at) % 0x8000_0000) as u32 }
}

/// What a frame is for.
#[derive(Clone, Copy, Debug, PartialEq, Eq, Structural)]
pub enum Kind {
    Data,
    Headers,
    Priority,
    Reset,
    Settings,
    PushPromise,
    Ping,
    GoAway,
    WindowUpdate,
    Continuation,
    Unknown,
}

/// The kind that a type byte names.
pub open spec fn kind_of(byte: u8) -> Kind {
    match byte {
        0 => Kind::Data,
        1 => Kind::Headers,
        2 => Kind::Priority,
        3 => Kind::Reset,
        4 => Kind::Settings,
        5 => Kind::PushPromise,
        6 => Kind::Ping,
        7 => Kind::GoAway,
        8 => Kind::WindowUpdate,
        9 => Kind::Continuation,
        _ => Kind::Unknown,
    }
}

impl Kind {
    /// The type byte of a kind.
    pub open spec fn spec_byte(self) -> u8 {
        match self {
            Kind::Data => 0,
            Kind::Headers => 1,
            Kind::Priority => 2,
            Kind::Reset => 3,
            Kind::Settings => 4,
            Kind::PushPromise => 5,
            Kind::Ping => 6,
            Kind::GoAway => 7,
            Kind::WindowUpdate => 8,
            Kind::Continuation => 9,
            Kind::Unknown => 10,
        }
    }

    /// The kind that a type byte names.
    pub fn new(byte: u8) -> (k: Kind)
        ensures
            k == kind_of(byte),
    {
        match byte {
            0 => Kind::Data,
            1 => Kind::Headers,
            2 => Kind::Priority,
            3 => Kind::Reset,
            4 => Kind::Settings,
            5 => Kind::PushPromise,
            6 => Kind::Ping,
            7 => Kind::GoAway,
            8 => Kind::WindowUpdate,
            9 => Kind::Continuation,
            _ => Kind::Unknown,
        }
    }

    /// The type byte of a kind.
    pub fn byte(self) -> (b: u8)
        ensures
            b == self.spec_byte(),
    {
        match self {
            Kind::Data => 0,
            Kind::Headers => 1,
            Kind::Priority => 2,
            Kind::Reset => 3,
            Kind::Settings => 4,
            Kind::PushPromise => 5,
            Kind::Ping => 6,
            Kind::GoAway => 7,
            Kind::WindowUpdate => 8,
            Kind::Continuation => 9,
            Kind::Unknown => 10,
        }
    }
}

/// What stands in front of every frame, the length aside.
#[derive(Clone, Copy, Debug, PartialEq, Eq, Structural)]
pub struct Head {
    pub kind: Kind,
    pub flag: u8,
    pub stream_id: StreamId,
}

/// The head at the start of `s`.
pub open spec fn head_of(s: Seq<u8>) -> Head {
    Head { kind: kind_of(s[3]), flag: s[4], stream_id: stream_id_at(s, 5) }
}

/// A head on the wire, in front of `payload_len` bytes.
pub open spec fn head_bytes(head: Head, payload_len: int) -> Seq<u8> {
    be24_bytes(payload_len) + seq![head.kind.spec_byte(), head.flag] + be32_bytes(
        head.stream_id.id as int,
    )
}

/// A frame on the wire: its head, then its payload.
pub open spec fn frame_bytes(head: Head, body: Seq<u8>) -> Seq<u8> {
    head_bytes(head, body.len() as int) + body
}

impl Head {
    /// A head made of its parts.
    pub fn new(kind: Kind, flag: u8, stream_id: StreamId) -> (h: Head)
        ensures
            h == (Head { kind, flag, stream_id }),
    {
        Head { kind, flag, stream_id }
    }

    /// Reads the head at the start of a frame.
    pub fn parse(header: &[u8]) -> (h: Head)
        requires
            header@.len() >= HEADER_LEN,
        ensures
            h == head_of(header@),
            h.stream_id.wf(),
    {
        let (stream_id, _) = StreamId::parse(header, 5);
        Head { kind: Kind::new(header[3]), flag: header[4], stream_id }
    }

    /// Appends the head of a frame with `payload_len` bytes of payload.
    pub fn encode(&self, payload_len: usize, dst: &mut BytesMut)
        ensures
            contents(*final(dst)) == contents(*old(dst)) + head_bytes(*self, payload_len as int),
            room(*final(dst)) == room(*old(dst)),
    {
        put_u24(dst, payload_len);
        put_u8(dst, self.kind.byte());
        put_u8(dst, self.flag);
        put_u32(dst, self.stream_id.id);
        assert(contents(*dst) =~= contents(*old(dst)) + head_bytes(*self, payload_len as int));
    }
}

/// A head that was written reads back as it was, and so does the length in
/// front of it.
pub proof fn lemma_head_round_trip(head: Head, body: Seq<u8>)
    requires
        head.stream_id.wf(),
        head.kind != Kind::Unknown,
        body.len() < 0x100_0000,
    ensures
        head_of(frame_bytes(head, body)) == head,
        crate::wire::be24(frame_bytes(head, body), 0) == body.len(),
        frame_bytes(head, body).len() == HEADER_LEN + body.len(),
        frame_bytes(head, body).skip(HEADER_LEN as int) == body,
{
    let s = frame_bytes(head, body);
    let id = head.stream_id.id as int;
    crate::wire::lemma_be24_round_trip(body.len() as int);
    crate::wire::lemma_be32_round_trip(id);
    assert(s.skip(HEADER_LEN as int) =~= body);
    assert(s[0] == be24_bytes(body.len() as int)[0]);
    assert(s[1] == be24_bytes(body.len() as int)[1]);
    assert(s[2] == be24_bytes(body.len() as int)[2]);
    assert(s[3] == head.kind.spec_byte());
    assert(s[4] == head.flag);
    assert(s[5] == be32_bytes(id)[0]);
    assert(s[6] == be32_bytes(id)[1]);
    assert(s[7] == be32_bytes(id)[2]);
    assert(s[8] == be32_bytes(id)[3]);
}

} // verus!
