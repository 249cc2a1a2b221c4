//! Frames with a header block: HEADERS, PUSH_PROMISE and CONTINUATION.

use crate::buf::{advance, as_slice, contents, room};
use crate::frame::block::{load_block, no_pseudo, BlockView, HeaderBlock};
use crate::frame::control::{dependency_at, StreamDependency};
use crate::frame::error::Error;
use crate::frame::head::{frame_bytes, stream_id_at, Head, Kind, StreamId};
use crate::hpack::decoder::Decoder;
use crate::hpack::encoder::{fields_bytes, updates_bytes, Encoder};
use crate::wire::{be32_bytes, put_u32};
use bytes::BytesMut;
use vstd::prelude::*;
use vstd::slice::slice_subrange;

verus! {

/// The flags of a HEADERS frame. A PUSH_PROMISE frame has two of them.
#[derive(Clone, Copy, Debug, PartialEq, Eq, Structural)]
pub struct HeadersFlag {
    pub end_stream: bool,
    pub end_headers: bool,
    pub padded: bool,
    pub priority: bool,
}

/// The flags of a HEADERS frame in a byte.
pub open spec fn headers_flag_of(flag: u8) -> HeadersFlag {
    HeadersFlag {
        end_stream: flag % 2 == 1,
        end_headers: flag / 4 % 2 == 1,
        padded: flag / 8 % 2 == 1,
        priority: flag / 32 % 2 == 1,
    }
}

/// The flags of a PUSH_PROMISE frame in a byte.
pub open spec fn push_flag_of(flag: u8) -> HeadersFlag {
    HeadersFlag {
        end_stream: false,
        end_headers: flag / 4 % 2 == 1,
        padded: flag / 8 % 2 == 1,
        priority: false,
    }
}

impl HeadersFlag {
    /// The byte that holds the flags.
    pub open spec fn spec_byte(self) -> u8 {
        ((if self.end_stream {
            1int
        } else {
            0
        }) + (if self.end_headers {
            4int
        } else {
            0
        }) + (if self.padded {
            8int
        } else {
            0
        }) + (if self.priority {
            32int
        } else {
            0
        })) as u8
    }

    /// The byte that holds the flags.
    pub fn byte(self) -> (b: u8)
        ensures
            b == self.spec_byte(),
    {
        let mut b: u8 = 0;
        if self.end_stream {
            b = b + 1;
        }
        if self.end_headers {
            b = b + 4;
        }
        if self.padded {
            b = b + 8;
        }
        if self.priority {
            b = b + 32;
        }
        b
    }
}

/// `s` without `pad` bytes at its end.
pub open spec fn unpadded(s: Seq<u8>, pad: int) -> Result<Seq<u8>, Error> {
    if pad > s.len() {
        Err(Error::TooMuchPadding)
    } else {
        Ok(s.take(s.len() - pad))
    }
}

fn strip(src: &mut BytesMut, pad: usize) -> (r: Result<(), Error>)
    ensures
        match r {
            Ok(()) => unpadded(contents(*old(src)), pad as int) == Ok::<Seq<u8>, Error>(
                contents(*final(src)),
            ),
            Err(e) => unpadded(contents(*old(src)), pad as int) == Err::<Seq<u8>, Error>(e),
        },
{
    if pad > src.len() {
        return Err(Error::TooMuchPadding);
    }
    let len: usize = src.len() - pad;
    src.truncate(len);
    Ok(())
}

/// A HEADERS frame.
#[derive(Debug)]
pub struct Headers {
    pub stream_id: StreamId,
    pub stream_dep: Option<StreamDependency>,
    pub header_block: HeaderBlock,
    pub flags: HeadersFlag,
}

/// What a HEADERS frame holds.
#[verifier::ext_equal]
pub struct HeadersView {
    pub stream_id: StreamId,
    pub stream_dep: Option<StreamDependency>,
    pub block: BlockView,
    pub flags: HeadersFlag,
}

impl View for Headers {
    type V = HeadersView;

    open spec fn view(&self) -> HeadersView {
        HeadersView {
            stream_id: self.stream_id,
            stream_dep: self.stream_dep,
            block: self.header_block@,
            flags: self.flags,
        }
    }
}

/// A block with nothing in it.
pub open spec fn no_block() -> BlockView {
    BlockView { pseudo: no_pseudo(), fields: Seq::empty(), is_over_size: false }
}

/// A HEADERS frame with this head and payload, its block still to be read, and
/// the bytes of the block.
pub open spec fn headers_of(head: Head, src: Seq<u8>) -> Result<(HeadersView, Seq<u8>), Error> {
    let flags = headers_flag_of(head.flag);
    let pad = if flags.padded {
        src[0] as int
    } else {
        0
    };
    let s = if flags.padded {
        src.skip(1)
    } else {
        src
    };
    if head.stream_id.id == 0 {
        Err(Error::InvalidStreamId)
    } else if flags.padded && src.len() == 0 {
        Err(Error::MalformedMessage)
    } else if flags.priority && s.len() < 5 {
        Err(Error::MalformedMessage)
    } else if flags.priority && dependency_at(s).dependency_id == head.stream_id {
        Err(Error::InvalidDependencyId)
    } else {
        let rest = if flags.priority {
            s.skip(5)
        } else {
            s
        };
        match unpadded(rest, pad) {
            Err(e) => Err(e),
            Ok(rest) => Ok(
                (
                    HeadersView {
                        stream_id: head.stream_id,
                        stream_dep: if flags.priority {
                            Some(dependency_at(s))
                        } else {
                            None
                        },
                        block: no_block(),
                        flags,
                    },
                    rest,
                ),
            ),
        }
    }
}

impl HeadersView {
    /// The head of the frame.
    pub open spec fn head(self) -> Head {
        Head { kind: Kind::Headers, flag: self.flags.spec_byte(), stream_id: self.stream_id }
    }
}

impl Headers {
    /// A frame that is a whole block.
    pub fn new(stream_id: StreamId, header_block: HeaderBlock, end_stream: bool) -> (r: Headers)
        ensures
            r@ == (HeadersView {
                stream_id,
                stream_dep: None,
                block: header_block@,
                flags: HeadersFlag {
                    end_stream,
                    end_headers: true,
                    padded: false,
                    priority: false,
                },
            }),
    {
        let flags = HeadersFlag { end_stream, end_headers: true, padded: false, priority: false };
        Headers { stream_id, stream_dep: None, header_block, flags }
    }

    /// Reads the frame with this head and payload, but for its block.
    pub fn load(head: Head, src: BytesMut) -> (r: Result<(Headers, BytesMut), Error>)
        ensures
            match r {
                Ok((f, rest)) => headers_of(head, contents(src)) == Ok::<
                    (HeadersView, Seq<u8>),
                    Error,
                >((f@, contents(rest))),
                Err(e) => headers_of(head, contents(src)) == Err::<(HeadersView, Seq<u8>), Error>(
                    e,
                ),
            },
    {
        let mut src = src;
        let flags = HeadersFlag {
            end_stream: head.flag % 2 == 1,
            end_headers: head.flag / 4 % 2 == 1,
            padded: head.flag / 8 % 2 == 1,
            priority: head.flag / 32 % 2 == 1,
        };
        let mut pad: usize = 0;
        if head.stream_id.is_zero() {
            return Err(Error::InvalidStreamId);
        }
        if flags.padded {
            if src.is_empty() {
                return Err(Error::MalformedMessage);
            }
            pad = as_slice(&src)[0] as usize;
            advance(&mut src, 1);
        }
        let mut stream_dep: Option<StreamDependency> = None;
        if flags.priority {
            if src.len() < 5 {
                return Err(Error::MalformedMessage);
            }
            let dep = StreamDependency::load(as_slice(&src));
            if dep.dependency_id == head.stream_id {
                return Err(Error::InvalidDependencyId);
            }
            advance(&mut src, 5);
            stream_dep = Some(dep);
        }
        match strip(&mut src, pad) {
            Ok(()) => {},
            Err(e) => {
                return Err(e);
            },
        }
        let headers = Headers {
            stream_id: head.stream_id,
            stream_dep,
            header_block: HeaderBlock::empty(),
            flags,
        };
        Ok((headers, src))
    }

    /// Reads the next part of the block.
    pub fn load_hpack(&mut self, src: &mut BytesMut, max: usize, decoder: &mut Decoder) -> (r:
        Result<(), Error>)
        requires
            old(decoder).wf(),
        ensures
            final(decoder).wf(),
            ({
                let end = load_block(old(decoder)@, contents(*old(src)), old(self)@.block, max);
                &&& final(decoder)@ == end.decoder
                &&& contents(*final(src)) == end.rest
                &&& final(self)@ == (HeadersView { block: end.state.block, ..old(self)@ })
                &&& r == match end.fault {
                    None => Ok::<(), Error>(()),
                    Some(e) => Err(e),
                }
            }),
    {
        self.header_block.load(src, max, decoder)
    }

    /// Marks the block as whole.
    pub fn set_end_headers(&mut self)
        ensures
            final(self)@ == (HeadersView {
                flags: HeadersFlag { end_headers: true, ..old(self)@.flags },
                ..old(self)@
            }),
    {
        self.flags.end_headers = true;
    }

    /// Appends the frame, as far as it fits in a payload of `max` bytes, and
    /// gives back what has to follow.
    pub fn encode(self, encoder: &mut Encoder, max: usize, dst: &mut BytesMut) -> (r: Option<
        Continuation,
    >)
        requires
            self.flags.end_headers,
            max < 0x100_0000,
        ensures
            *final(encoder) == old(encoder).told(),
            room(*final(dst)) == room(*old(dst)),
            ({
                let block = block_bytes(*old(encoder), self@.block);
                &&& contents(*final(dst)) == contents(*old(dst)) + chunk_bytes(
                    self@.head(),
                    Seq::empty(),
                    block,
                    max as int,
                )
                &&& continues(r, self.stream_id, block, max as int)
            }),
    {
        let head = Head::new(Kind::Headers, self.flags.byte(), self.stream_id);
        let block = self.header_block.into_encoding(encoder);
        encode_chunk(head, None, block, max, dst)
    }
}

/// A PUSH_PROMISE frame.
#[derive(Debug)]
pub struct PushPromise {
    pub stream_id: StreamId,
    pub promised_id: StreamId,
    pub header_block: HeaderBlock,
    pub flags: HeadersFlag,
}

/// What a PUSH_PROMISE frame holds.
#[verifier::ext_equal]
pub struct PushPromiseView {
    pub stream_id: StreamId,
    pub promised_id: StreamId,
    pub block: BlockView,
    pub flags: HeadersFlag,
}

impl View for PushPromise {
    type V = PushPromiseView;

    open spec fn view(&self) -> PushPromiseView {
        PushPromiseView {
            stream_id: self.stream_id,
            promised_id: self.promised_id,
            block: self.header_block@,
            flags: self.flags,
        }
    }
}

/// A PUSH_PROMISE frame with this head and payload, its block still to be read,
/// and the bytes of the block.
pub open spec fn push_promise_of(head: Head, src: Seq<u8>) -> Result<
    (PushPromiseView, Seq<u8>),
    Error,
> {
    let flags = push_flag_of(head.flag);
    let pad = if flags.padded {
        src[0] as int
    } else {
        0
    };
    let s = if flags.padded {
        src.skip(1)
    } else {
        src
    };
    if head.stream_id.id == 0 {
        Err(Error::InvalidStreamId)
    } else if flags.padded && src.len() == 0 {
        Err(Error::MalformedMessage)
    } else if s.len() < 5 {
        Err(Error::MalformedMessage)
    } else {
        match unpadded(s.skip(4), pad) {
            Err(e) => Err(e),
            Ok(rest) => Ok(
                (
                    PushPromiseView {
                        stream_id: head.stream_id,
                        promised_id: stream_id_at(s, 0),
                        block: no_block(),
                        flags,
                    },
                    rest,
                ),
            ),
        }
    }
}

impl PushPromiseView {
    /// The head of the frame.
    pub open spec fn head(self) -> Head {
        Head { kind: Kind::PushPromise, flag: self.flags.spec_byte(), stream_id: self.stream_id }
    }
}

impl PushPromise {
    /// A frame that is a whole block.
    pub fn new(stream_id: StreamId, promised_id: StreamId, header_block: HeaderBlock) -> (r:
        PushPromise)
        ensures
            r@ == (PushPromiseView {
                stream_id,
                promised_id,
                block: header_block@,
                flags: HeadersFlag {
                    end_stream: false,
                    end_headers: true,
                    padded: false,
                    priority: false,
                },
            }),
    {
        let flags = HeadersFlag {
            end_stream: false,
            end_headers: true,
            padded: false,
            priority: false,
        };
        PushPromise { stream_id, promised_id, header_block, flags }
    }

    /// Reads the frame with this head and payload, but for its block.
    pub fn load(head: Head, src: BytesMut) -> (r: Result<(PushPromise, BytesMut), Error>)
        ensures
            match r {
                Ok((f, rest)) => push_promise_of(head, contents(src)) == Ok::<
                    (PushPromiseView, Seq<u8>),
                    Error,
                >((f@, contents(rest))),
                Err(e) => push_promise_of(head, contents(src)) == Err::<
                    (PushPromiseView, Seq<u8>),
                    Error,
                >(e),
            },
    {
        let mut src = src;
        let flags = HeadersFlag {
            end_stream: false,
            end_headers: head.flag / 4 % 2 == 1,
            padded: head.flag / 8 % 2 == 1,
            priority: false,
        };
        let mut pad: usize = 0;
        if head.stream_id.is_zero() {
            return Err(Error::InvalidStreamId);
        }
        if flags.padded {
            if src.is_empty() {
                return Err(Error::MalformedMessage);
            }
            pad = as_slice(&src)[0] as usize;
            advance(&mut src, 1);
        }
        if src.len() < 5 {
            return Err(Error::MalformedMessage);
        }
        let (promised_id, _) = StreamId::parse(as_slice(&src), 0);
        advance(&mut src, 4);
        match strip(&mut src, pad) {
            Ok(()) => {},
            Err(e) => {
                return Err(e);
            },
        }
        let push = PushPromise {
            stream_id: head.stream_id,
            promised_id,
            header_block: HeaderBlock::empty(),
            flags,
        };
        Ok((push, src))
    }

    /// Reads the next part of the block.
    pub fn load_hpack(&mut self, src: &mut BytesMut, max: usize, decoder: &mut Decoder) -> (r:
        Result<(), Error>)
        requires
            old(decoder).wf(),
        ensures
            final(decoder).wf(),
            ({
                let end = load_block(old(decoder)@, contents(*old(src)), old(self)@.block, max);
                &&& final(decoder)@ == end.decoder
                &&& contents(*final(src)) == end.rest
                &&& final(self)@ == (PushPromiseView { block: end.state.block, ..old(self)@ })
                &&& r == match end.fault {
                    None => Ok::<(), Error>(()),
                    Some(e) => Err(e),
                }
            }),
    {
        self.header_block.load(src, max, decoder)
    }

    /// Marks the block as whole.
    pub fn set_end_headers(&mut self)
        ensures
            final(self)@ == (PushPromiseView {
                flags: HeadersFlag { end_headers: true, ..old(self)@.flags },
                ..old(self)@
            }),
    {
        self.flags.end_headers = true;
    }

    /// Appends the frame, as far as it fits in a payload of `max` bytes, and
    /// gives back what has to follow.
    pub fn encode(self, encoder: &mut Encoder, max: usize, dst: &mut BytesMut) -> (r: Option<
        Continuation,
    >)
        requires
            self.flags.end_headers,
            4 <= max < 0x100_0000,
        ensures
            *final(encoder) == old(encoder).told(),
            room(*final(dst)) == room(*old(dst)),
            ({
                let block = block_bytes(*old(encoder), self@.block);
                &&& contents(*final(dst)) == contents(*old(dst)) + chunk_bytes(
                    self@.head(),
                    be32_bytes(self.promised_id.id as int),
                    block,
                    max as int,
                )
                &&& continues(r, self.stream_id, block, max - 4)
            }),
    {
        let head = Head::new(Kind::PushPromise, self.flags.byte(), self.stream_id);
        let block = self.header_block.into_encoding(encoder);
        encode_chunk(head, Some(self.promised_id), block, max, dst)
    }
}

/// A header block in bytes.
pub open spec fn block_bytes(encoder: Encoder, block: BlockView) -> Seq<u8> {
    updates_bytes(encoder.size_update) + fields_bytes(block.all())
}

/// The head of a frame whose block goes on in the next frame.
pub open spec fn unfinished(head: Head) -> Head {
    Head { flag: (head.flag - 4) as u8, ..head }
}

/// A frame with as much of `block` behind `prefix` as fits in a payload of
/// `max` bytes.
pub open spec fn chunk_bytes(head: Head, prefix: Seq<u8>, block: Seq<u8>, max: int) -> Seq<u8> {
    let room = max - prefix.len();
    if block.len() > room {
        frame_bytes(unfinished(head), prefix + block.take(room))
    } else {
        frame_bytes(head, prefix + block)
    }
}

/// What has to follow a frame with room for `room` bytes of `block`.
pub open spec fn continues(
    next: Option<Continuation>,
    stream_id: StreamId,
    block: Seq<u8>,
    room: int,
) -> bool {
    if block.len() > room {
        next matches Some(c) && c.stream_id == stream_id && c@ == block.skip(room)
    } else {
        next is None
    }
}

/// The rest of a header block that did not fit in one frame.
#[derive(Debug)]
pub struct Continuation {
    pub stream_id: StreamId,
    pub block: BytesMut,
}

impl View for Continuation {
    type V = Seq<u8>;

    open spec fn view(&self) -> Seq<u8> {
        contents(self.block)
    }
}

/// The head of a CONTINUATION frame that ends its block.
pub open spec fn continuation_head(stream_id: StreamId) -> Head {
    Head { kind: Kind::Continuation, flag: 4, stream_id }
}

/// The CONTINUATION frames that carry `block`.
pub open spec fn continuation_bytes(stream_id: StreamId, block: Seq<u8>, max: int) -> Seq<u8>
    decreases block.len(),
{
    let head = continuation_head(stream_id);
    if max > 0 && block.len() > max {
        chunk_bytes(head, Seq::empty(), block, max) + continuation_bytes(
            stream_id,
            block.skip(max),
            max,
        )
    } else {
        chunk_bytes(head, Seq::empty(), block, max)
    }
}

fn encode_chunk(
    head: Head,
    promised_id: Option<StreamId>,
    block: BytesMut,
    max: usize,
    dst: &mut BytesMut,
) -> (r: Option<Continuation>)
    requires
        head.flag / 4 % 2 == 1,
        promised_id is Some ==> max >= 4,
        max < 0x100_0000,
    ensures
        room(*final(dst)) == room(*old(dst)),
        ({
            let prefix = match promised_id {
                Some(id) => be32_bytes(id.id as int),
                None => Seq::empty(),
            };
            &&& contents(*final(dst)) == contents(*old(dst)) + chunk_bytes(
                head,
                prefix,
                contents(block),
                max as int,
            )
            &&& continues(r, head.stream_id, contents(block), max - prefix.len())
        }),
{
    let mut block = block;
    let ghost whole = contents(block);
    let ghost prefix = match promised_id {
        Some(id) => be32_bytes(id.id as int),
        None => Seq::empty(),
    };
    let taken: usize = if promised_id.is_some() {
        4
    } else {
        0
    };
    let fit: usize = max - taken;
    let mut head = head;
    let mut len: usize = block.len();
    let mut next: Option<Continuation> = None;
    let over = len > fit;
    if over {
        let rest = block.split_off(fit);
        next = Some(Continuation { stream_id: head.stream_id, block: rest });
        head.flag = head.flag - 4;
        len = fit;
    }
    head.encode(taken + len, dst);
    match promised_id {
        Some(id) => {
            put_u32(dst, id.id);
        },
        None => {},
    }
    dst.extend_from_slice(as_slice(&block));
    proof {
        let body = if over {
            prefix + whole.take(fit as int)
        } else {
            prefix + whole
        };
        assert(contents(*dst) =~= contents(*old(dst)) + frame_bytes(head, body));
    }
    next
}

impl Continuation {
    /// Appends a CONTINUATION frame with as much as fits in a payload of `max`
    /// bytes, and gives back what has to follow.
    pub fn encode(self, max: usize, dst: &mut BytesMut) -> (r: Option<Continuation>)
        requires
            max < 0x100_0000,
        ensures
            contents(*final(dst)) == contents(*old(dst)) + chunk_bytes(
                continuation_head(self.stream_id),
                Seq::empty(),
                self@,
                max as int,
            ),
            continues(r, self.stream_id, self@, max as int),
            room(*final(dst)) == room(*old(dst)),
    {
        let head = Head::new(Kind::Continuation, 4, self.stream_id);
        encode_chunk(head, None, self.block, max, dst)
    }
}

} // verus!
