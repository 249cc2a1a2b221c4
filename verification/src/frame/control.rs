//! The frames with a payload of a fixed shape, and GOAWAY.

use crate::buf::{bytes_slice, contents, payload, room};
use crate::frame::error::Error;
use crate::frame::head::{frame_bytes, stream_id_at, Head, Kind, StreamId};
use crate::frame::reason::{lemma_reason_round_trip, reason_of, Reason};
use crate::wire::{be32, be32_bytes, lemma_be32_round_trip, put_u32, read_u32};
use bytes::{Bytes, BytesMut};
use vstd::prelude::*;
use vstd::slice::slice_subrange;

verus! {

/// A PING frame: eight bytes that the peer sends back. They are held as the
/// two numbers that they spell.
#[derive(Clone, Copy, Debug, PartialEq, Eq, Structural)]
pub struct Ping {
    pub ack: bool,
    pub high: u32,
    pub low: u32,
}

/// What a PING frame with this head and payload holds.
pub open spec fn ping_of(head: Head, src: Seq<u8>) -> Result<Ping, Error> {
    if head.stream_id.id != 0 {
        Err(Error::InvalidStreamId)
    } else if src.len() != 8 {
        Err(Error::BadFrameSize)
    } else {
        Ok(
            Ping {
                ack: head.flag % 2 == 1,
                high: be32(src, 0) as u32,
                low: be32(src, 4) as u32,
            },
        )
    }
}

impl Ping {
    /// The head of the frame.
    pub open spec fn spec_head(self) -> Head {
        Head {
            kind: Kind::Ping,
            flag: if self.ack {
                1
            } else {
                0
            },
            stream_id: StreamId { id: 0 },
        }
    }

    /// The payload of the frame.
    pub open spec fn body(self) -> Seq<u8> {
        be32_bytes(self.high as int) + be32_bytes(self.low as int)
    }

    /// The frame on the wire.
    pub open spec fn wire(self) -> Seq<u8> {
        frame_bytes(self.spec_head(), self.body())
    }

    /// The answer to a PING frame.
    pub fn pong(&self) -> (r: Ping)
        ensures
            r == (Ping { ack: true, ..*self }),
    {
        Ping { ack: true, high: self.high, low: self.low }
    }

    /// Reads the frame with this head and payload.
    pub fn load(head: Head, src: &[u8]) -> (r: Result<Ping, Error>)
        ensures
            r == ping_of(head, src@),
    {
        if !head.stream_id.is_zero() {
            return Err(Error::InvalidStreamId);
        }
        if src.len() != 8 {
            return Err(Error::BadFrameSize);
        }
        Ok(Ping { ack: head.flag % 2 == 1, high: read_u32(src, 0), low: read_u32(src, 4) })
    }

    /// Appends the frame.
    pub fn encode(&self, dst: &mut BytesMut)
        ensures
            contents(*final(dst)) == contents(*old(dst)) + self.wire(),
            room(*final(dst)) == room(*old(dst)),
    {
        let flag: u8 = if self.ack {
            1
        } else {
            0
        };
        Head::new(Kind::Ping, flag, StreamId::new(0)).encode(8, dst);
        put_u32(dst, self.high);
        put_u32(dst, self.low);
        assert(contents(*dst) =~= contents(*old(dst)) + self.wire());
    }
}

/// A PING frame that was written reads back as it was.
pub proof fn lemma_ping_round_trip(p: Ping)
    ensures
        ping_of(p.spec_head(), p.body()) == Ok::<Ping, Error>(p),
{
    lemma_be32_round_trip(p.high as int);
    lemma_be32_round_trip(p.low as int);
    assert(be32(p.body(), 4) == be32(be32_bytes(p.low as int), 0));
    assert(be32(p.body(), 0) == be32(be32_bytes(p.high as int), 0));
}

/// A WINDOW_UPDATE frame.
#[derive(Clone, Copy, Debug, PartialEq, Eq, Structural)]
pub struct WindowUpdate {
    pub stream_id: StreamId,
    pub size_increment: u32,
}

/// What a WINDOW_UPDATE frame with this head and payload holds.
pub open spec fn window_update_of(head: Head, src: Seq<u8>) -> Result<WindowUpdate, Error> {
    if src.len() != 4 {
        Err(Error::BadFrameSize)
    } else if be32(src, 0) % 0x8000_0000 == 0 {
        Err(Error::InvalidWindowUpdateValue)
    } else {
        Ok(
            WindowUpdate {
                stream_id: head.stream_id,
                size_increment: (be32(src, 0) % 0x8000_0000) as u32,
            },
        )
    }
}

impl WindowUpdate {
    /// The increment is one that a frame can carry.
    pub open spec fn wf(self) -> bool {
        self.stream_id.wf() && 0 < self.size_increment < 0x8000_0000
    }

    /// The head of the frame.
    pub open spec fn spec_head(self) -> Head {
        Head { kind: Kind::WindowUpdate, flag: 0, stream_id: self.stream_id }
    }

    /// The payload of the frame.
    pub open spec fn body(self) -> Seq<u8> {
        be32_bytes(self.size_increment as int)
    }

    /// The frame on the wire.
    pub open spec fn wire(self) -> Seq<u8> {
        frame_bytes(self.spec_head(), self.body())
    }

    /// A frame made of its parts.
    pub fn new(stream_id: StreamId, size_increment: u32) -> (r: WindowUpdate)
        ensures
            r == (WindowUpdate { stream_id, size_increment }),
    {
        WindowUpdate { stream_id, size_increment }
    }

    /// Reads the frame with this head and payload.
    pub fn load(head: Head, src: &[u8]) -> (r: Result<WindowUpdate, Error>)
        ensures
            r == window_update_of(head, src@),
    {
        if src.len() != 4 {
            return Err(Error::BadFrameSize);
        }
        let n: u32 = read_u32(src, 0) % 0x8000_0000;
        if n == 0 {
            return Err(Error::InvalidWindowUpdateValue);
        }
        Ok(WindowUpdate { stream_id: head.stream_id, size_increment: n })
    }

    /// Appends the frame.
    pub fn encode(&self, dst: &mut BytesMut)
        ensures
            contents(*final(dst)) == contents(*old(dst)) + self.wire(),
            room(*final(dst)) == room(*old(dst)),
    {
        Head::new(Kind::WindowUpdate, 0, self.stream_id).encode(4, dst);
        put_u32(dst, self.size_increment);
        assert(contents(*dst) =~= contents(*old(dst)) + self.wire());
    }
}

/// A WINDOW_UPDATE frame that was written reads back as it was.
pub proof fn lemma_window_update_round_trip(w: WindowUpdate)
    requires
        w.wf(),
    ensures
        window_update_of(w.spec_head(), w.body()) == Ok::<WindowUpdate, Error>(w),
{
    lemma_be32_round_trip(w.size_increment as int);
}

/// A RST_STREAM frame.
#[derive(Clone, Copy, Debug, PartialEq, Eq, Structural)]
pub struct Reset {
    pub stream_id: StreamId,
    pub error_code: Reason,
}

/// What a RST_STREAM frame with this head and payload holds.
pub open spec fn reset_of(head: Head, src: Seq<u8>) -> Result<Reset, Error> {
    if src.len() != 4 {
        Err(Error::InvalidPayloadLength)
    } else {
        Ok(Reset { stream_id: head.stream_id, error_code: reason_of(be32(src, 0)) })
    }
}

impl Reset {
    /// The head of the frame.
    pub open spec fn spec_head(self) -> Head {
        Head { kind: Kind::Reset, flag: 0, stream_id: self.stream_id }
    }

    /// The payload of the frame.
    pub open spec fn body(self) -> Seq<u8> {
        be32_bytes(self.error_code.spec_code() as int)
    }

    /// The frame on the wire.
    pub open spec fn wire(self) -> Seq<u8> {
        frame_bytes(self.spec_head(), self.body())
    }

    /// A frame made of its parts.
    pub fn new(stream_id: StreamId, error_code: Reason) -> (r: Reset)
        ensures
            r == (Reset { stream_id, error_code }),
    {
        Reset { stream_id, error_code }
    }

    /// Reads the frame with this head and payload.
    pub fn load(head: Head, src: &[u8]) -> (r: Result<Reset, Error>)
        ensures
            r == reset_of(head, src@),
    {
        if src.len() != 4 {
            return Err(Error::InvalidPayloadLength);
        }
        Ok(Reset { stream_id: head.stream_id, error_code: Reason::from_code(read_u32(src, 0)) })
    }

    /// Appends the frame.
    pub fn encode(&self, dst: &mut BytesMut)
        ensures
            contents(*final(dst)) == contents(*old(dst)) + self.wire(),
            room(*final(dst)) == room(*old(dst)),
    {
        Head::new(Kind::Reset, 0, self.stream_id).encode(4, dst);
        put_u32(dst, self.error_code.code());
        assert(contents(*dst) =~= contents(*old(dst)) + self.wire());
    }
}

/// A RST_STREAM frame that was written reads back as it was.
pub proof fn lemma_reset_round_trip(r: Reset)
    requires
        r.error_code.wf(),
    ensures
        reset_of(r.spec_head(), r.body()) == Ok::<Reset, Error>(r),
{
    lemma_be32_round_trip(r.error_code.spec_code() as int);
    lemma_reason_round_trip(r.error_code);
}

/// What a stream depends on, and how strongly.
#[derive(Clone, Copy, Debug, PartialEq, Eq, Structural)]
pub struct StreamDependency {
    pub dependency_id: StreamId,
    pub weight: u8,
    pub is_exclusive: bool,
}

/// The dependency that five bytes of `s` spell.
pub open spec fn dependency_at(s: Seq<u8>) -> StreamDependency {
    StreamDependency {
        dependency_id: stream_id_at(s, 0),
        weight: s[4],
        is_exclusive: be32(s, 0) >= 0x8000_0000,
    }
}

impl StreamDependency {
    /// Reads the dependency at the start of a slice.
    pub fn load(src: &[u8]) -> (r: StreamDependency)
        requires
            src@.len() >= 5,
        ensures
            r == dependency_at(src@),
    {
        let (dependency_id, is_exclusive) = StreamId::parse(src, 0);
        StreamDependency { dependency_id, weight: src[4], is_exclusive }
    }
}

/// A PRIORITY frame.
#[derive(Clone, Copy, Debug, PartialEq, Eq, Structural)]
pub struct Priority {
    pub stream_id: StreamId,
    pub dependency: StreamDependency,
}

/// What a PRIORITY frame with this head and payload holds.
pub open spec fn priority_of(head: Head, src: Seq<u8>) -> Result<Priority, Error> {
    if src.len() != 5 {
        Err(Error::InvalidPayloadLength)
    } else if dependency_at(src).dependency_id == head.stream_id {
        Err(Error::InvalidDependencyId)
    } else {
        Ok(Priority { stream_id: head.stream_id, dependency: dependency_at(src) })
    }
}

impl Priority {
    /// Reads the frame with this head and payload.
    pub fn load(head: Head, src: &[u8]) -> (r: Result<Priority, Error>)
        ensures
            r == priority_of(head, src@),
    {
        if src.len() != 5 {
            return Err(Error::InvalidPayloadLength);
        }
        let dependency = StreamDependency::load(src);
        if dependency.dependency_id == head.stream_id {
            return Err(Error::InvalidDependencyId);
        }
        Ok(Priority { stream_id: head.stream_id, dependency })
    }
}

/// A GOAWAY frame.
#[derive(Debug)]
pub struct GoAway {
    pub last_stream_id: StreamId,
    pub error_code: Reason,
    pub debug_data: Bytes,
}

/// What a GOAWAY frame holds.
#[verifier::ext_equal]
pub struct GoAwayView {
    pub last_stream_id: StreamId,
    pub error_code: Reason,
    pub debug_data: Seq<u8>,
}

impl View for GoAway {
    type V = GoAwayView;

    open spec fn view(&self) -> GoAwayView {
        GoAwayView {
            last_stream_id: self.last_stream_id,
            error_code: self.error_code,
            debug_data: payload(self.debug_data),
        }
    }
}

/// What a GOAWAY frame with this payload holds.
pub open spec fn go_away_of(src: Seq<u8>) -> Result<GoAwayView, Error> {
    if src.len() < 8 {
        Err(Error::BadFrameSize)
    } else {
        Ok(
            GoAwayView {
                last_stream_id: stream_id_at(src, 0),
                error_code: reason_of(be32(src, 4)),
                debug_data: src.skip(8),
            },
        )
    }
}

impl GoAwayView {
    /// The payload of the frame.
    pub open spec fn body(self) -> Seq<u8> {
        be32_bytes(self.last_stream_id.id as int) + be32_bytes(
            self.error_code.spec_code() as int,
        ) + self.debug_data
    }

    /// The frame on the wire.
    pub open spec fn wire(self) -> Seq<u8> {
        frame_bytes(
            Head { kind: Kind::GoAway, flag: 0, stream_id: StreamId { id: 0 } },
            self.body(),
        )
    }
}

impl GoAway {
    /// A frame without debug data.
    pub fn new(last_stream_id: StreamId, error_code: Reason) -> (r: GoAway)
        ensures
            r@ == (GoAwayView { last_stream_id, error_code, debug_data: Seq::empty() }),
    {
        GoAway { last_stream_id, error_code, debug_data: Bytes::new() }
    }

    /// A frame with debug data.
    pub fn with_debug_data(last_stream_id: StreamId, error_code: Reason, debug_data: Bytes) -> (r:
        GoAway)
        ensures
            r@ == (GoAwayView { last_stream_id, error_code, debug_data: payload(debug_data) }),
    {
        GoAway { last_stream_id, error_code, debug_data }
    }

    /// Reads the frame with this payload.
    pub fn load(src: &[u8]) -> (r: Result<GoAway, Error>)
        ensures
            match r {
                Ok(f) => go_away_of(src@) == Ok::<GoAwayView, Error>(f@),
                Err(e) => go_away_of(src@) == Err::<GoAwayView, Error>(e),
            },
    {
        if src.len() < 8 {
            return Err(Error::BadFrameSize);
        }
        let (last_stream_id, _) = StreamId::parse(src, 0);
        let code: u32 = read_u32(src, 4);
        let debug_data = Bytes::copy_from_slice(slice_subrange(src, 8, src.len()));
        assert(src@.subrange(8, src@.len() as int) =~= src@.skip(8));
        Ok(GoAway { last_stream_id, error_code: Reason::from_code(code), debug_data })
    }

    /// Appends the frame.
    pub fn encode(&self, dst: &mut BytesMut)
        requires
            payload(self.debug_data).len() <= usize::MAX - 8,
        ensures
            contents(*final(dst)) == contents(*old(dst)) + self@.wire(),
            room(*final(dst)) == room(*old(dst)),
    {
        let debug = bytes_slice(&self.debug_data);
        Head::new(Kind::GoAway, 0, StreamId::new(0)).encode(8 + debug.len(), dst);
        put_u32(dst, self.last_stream_id.id);
        put_u32(dst, self.error_code.code());
        dst.extend_from_slice(debug);
        assert(contents(*dst) =~= contents(*old(dst)) + self@.wire());
    }
}

/// A GOAWAY frame that was written reads back as it was.
pub proof fn lemma_go_away_round_trip(g: GoAwayView)
    requires
        g.last_stream_id.wf(),
        g.error_code.wf(),
    ensures
        go_away_of(g.body()) == Ok::<GoAwayView, Error>(g),
{
    let s = g.body();
    let code = g.error_code.spec_code() as int;
    let id = g.last_stream_id.id as int;
    lemma_be32_round_trip(id);
    lemma_be32_round_trip(code);
    lemma_reason_round_trip(g.error_code);
    assert(be32(s, 0) == be32(be32_bytes(id), 0));
    assert(be32(s, 4) == be32(be32_bytes(code), 0));
    assert(s.skip(8) =~= g.debug_data);
}

} // verus!
