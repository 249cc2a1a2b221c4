//! The write side of the codec: frames become bytes.

use crate::buf::{as_slice, bytes_slice, contents, room};
use crate::codec::error::UserError;
use crate::frame::head::head_bytes;
use crate::frame::headers::{block_bytes, chunk_bytes, continuation_bytes, continuation_head};
use crate::frame::{
    Continuation, Data, DataView, Frame, FrameView, HeadersView, PushPromiseView, StreamId,
    DEFAULT_MAX_FRAME_SIZE,
    MAX_MAX_FRAME_SIZE,
};
use crate::hpack;
use crate::wire::be32_bytes;
use bytes::BytesMut;
use vstd::prelude::*;

verus! {

/// The room that the write buffer starts with.
pub const DEFAULT_BUFFER_CAPACITY: usize = 16_384;

/// A payload of at least this many bytes is not copied into the write buffer
/// as a whole.
pub const CHAIN_THRESHOLD: usize = 1024;

/// The room that the write buffer has to have before a frame goes in.
pub const MIN_BUFFER_CAPACITY: usize = 1033;

/// What is still to be written of a frame.
#[derive(Debug)]
enum Next {
    Data(Data),
    Continuation(Continuation),
}

/// What is still to be written of a frame: nothing, the rest of a DATA frame's
/// payload, or the rest of a header block.
#[verifier::ext_equal]
pub enum NextView {
    Nothing,
    Data(DataView),
    Continuation(StreamId, Seq<u8>),
}

/// What the write side knows: its header encoder, the bytes that are written,
/// what is still to be written, the last DATA frame that was, and the largest
/// payload that the peer accepts.
#[verifier::ext_equal]
pub struct FramedWriteView {
    pub encoder: hpack::Encoder,
    pub buf: Seq<u8>,
    pub next: NextView,
    pub last_data_frame: Option<DataView>,
    pub max_frame_size: usize,
}

/// The error, or what the write side is after a frame went in.
pub open spec fn buffered(v: FramedWriteView, frame: FrameView) -> Result<
    FramedWriteView,
    UserError,
> {
    let max = v.max_frame_size as int;
    match frame {
        FrameView::Data(d) => if d.data.len() > max {
            Err(UserError::PayloadTooBig)
        } else if d.data.len() >= CHAIN_THRESHOLD {
            let buf = v.buf + head_bytes(d.head(), d.data.len() as int);
            let extra = if buf.len() < CHAIN_THRESHOLD {
                CHAIN_THRESHOLD - buf.len()
            } else {
                0
            };
            Ok(
                FramedWriteView {
                    buf: buf + d.data.take(extra),
                    next: NextView::Data(DataView { data: d.data.skip(extra), ..d }),
                    ..v
                },
            )
        } else {
            Ok(
                FramedWriteView {
                    buf: v.buf + d.wire(),
                    last_data_frame: Some(DataView { data: Seq::empty(), ..d }),
                    ..v
                },
            )
        },
        FrameView::Headers(h) => {
            let block = block_bytes(v.encoder, h.block);
            Ok(
                FramedWriteView {
                    encoder: v.encoder.told(),
                    buf: v.buf + chunk_bytes(h.head(), Seq::empty(), block, max),
                    next: if block.len() > max {
                        NextView::Continuation(h.stream_id, block.skip(max))
                    } else {
                        NextView::Nothing
                    },
                    ..v
                },
            )
        },
        FrameView::PushPromise(p) => {
            let block = block_bytes(v.encoder, p.block);
            Ok(
                FramedWriteView {
                    encoder: v.encoder.told(),
                    buf: v.buf + chunk_bytes(
                        p.head(),
                        be32_bytes(p.promised_id.id as int),
                        block,
                        max,
                    ),
                    next: if block.len() > max - 4 {
                        NextView::Continuation(p.stream_id, block.skip(max - 4))
                    } else {
                        NextView::Nothing
                    },
                    ..v
                },
            )
        },
        FrameView::Settings(f) => Ok(FramedWriteView { buf: v.buf + f.wire(), ..v }),
        FrameView::GoAway(f) => Ok(FramedWriteView { buf: v.buf + f.wire(), ..v }),
        FrameView::Ping(f) => Ok(FramedWriteView { buf: v.buf + f.wire(), ..v }),
        FrameView::WindowUpdate(f) => Ok(FramedWriteView { buf: v.buf + f.wire(), ..v }),
        FrameView::Reset(f) => Ok(FramedWriteView { buf: v.buf + f.wire(), ..v }),
        FrameView::Priority(_) => Ok(v),
    }
}

/// Whether a frame can be written: PRIORITY frames never are, a header block
/// goes in whole, and a PUSH_PROMISE frame needs room for the stream that it
/// promises.
pub open spec fn can_buffer(v: FramedWriteView, frame: FrameView) -> bool {
    match frame {
        FrameView::Priority(_) => false,
        FrameView::Headers(h) => h.flags.end_headers,
        FrameView::PushPromise(p) => p.flags.end_headers && v.max_frame_size >= 4,
        FrameView::GoAway(g) => g.debug_data.len() <= usize::MAX - 8,
        _ => true,
    }
}

/// The bytes that a frame comes to on the wire, CONTINUATION frames included.
pub open spec fn wire_of(v: FramedWriteView, frame: FrameView) -> Seq<u8> {
    let max = v.max_frame_size as int;
    match frame {
        FrameView::Data(d) => d.wire(),
        FrameView::Headers(h) => {
            let block = block_bytes(v.encoder, h.block);
            chunk_bytes(h.head(), Seq::empty(), block, max) + if block.len() > max {
                continuation_bytes(h.stream_id, block.skip(max), max)
            } else {
                Seq::empty()
            }
        },
        FrameView::PushPromise(p) => {
            let block = block_bytes(v.encoder, p.block);
            chunk_bytes(p.head(), be32_bytes(p.promised_id.id as int), block, max)
                + if block.len() > max - 4 {
                continuation_bytes(p.stream_id, block.skip(max - 4), max)
            } else {
                Seq::empty()
            }
        },
        FrameView::Settings(f) => f.wire(),
        FrameView::GoAway(f) => f.wire(),
        FrameView::Ping(f) => f.wire(),
        FrameView::WindowUpdate(f) => f.wire(),
        FrameView::Reset(f) => f.wire(),
        FrameView::Priority(_) => Seq::empty(),
    }
}

impl FramedWriteView {
    /// The bytes that are still to be handed out.
    pub open spec fn pending(self) -> Seq<u8> {
        self.buf + match self.next {
            NextView::Nothing => Seq::empty(),
            NextView::Data(d) => d.data,
            NextView::Continuation(id, block) => continuation_bytes(
                id,
                block,
                self.max_frame_size as int,
            ),
        }
    }

    /// The write side after everything was handed out.
    pub open spec fn flushed(self) -> FramedWriteView {
        FramedWriteView {
            buf: Seq::empty(),
            next: NextView::Nothing,
            last_data_frame: match self.next {
                NextView::Data(d) => Some(DataView { data: Seq::empty(), ..d }),
                _ => self.last_data_frame,
            },
            ..self
        }
    }

    /// Whether anything is still to be handed out.
    pub open spec fn has_pending(self) -> bool {
        self.buf.len() > 0 || !(self.next is Nothing)
    }

    /// The largest payload fits in a frame head, a DATA frame that is not
    /// written out has payload left, and a header block can go on.
    pub open spec fn wf(self) -> bool {
        &&& self.max_frame_size <= MAX_MAX_FRAME_SIZE
        &&& self.next matches NextView::Data(d) ==> d.data.len() > 0
    }

    /// A header block that is not written out can go on.
    pub open spec fn can_flush(self) -> bool {
        self.next is Continuation ==> self.max_frame_size > 0
    }
}

proof fn lemma_data_appends(v: FramedWriteView, d: DataView)
    requires
        v.next is Nothing,
    ensures
        buffered(v, FrameView::Data(d)) matches Ok(after) ==> after.pending() == v.pending()
            + wire_of(v, FrameView::Data(d)),
{
    let max = v.max_frame_size as int;
    assert(v.pending() =~= v.buf);
    if CHAIN_THRESHOLD <= d.data.len() <= max {
        let buf = v.buf + head_bytes(d.head(), d.data.len() as int);
        let extra = if buf.len() < CHAIN_THRESHOLD {
            CHAIN_THRESHOLD - buf.len()
        } else {
            0
        };
        assert(buf + d.data.take(extra) + d.data.skip(extra) =~= v.buf + d.wire());
    } else {
        assert(v.buf + d.wire() + Seq::<u8>::empty() =~= v.buf + d.wire());
    }
}

proof fn lemma_headers_append(v: FramedWriteView, h: HeadersView)
    requires
        v.next is Nothing,
    ensures
        buffered(v, FrameView::Headers(h)) matches Ok(after) ==> after.pending() == v.pending()
            + wire_of(v, FrameView::Headers(h)),
{
    let max = v.max_frame_size as int;
    assert(v.pending() =~= v.buf);
    let block = block_bytes(v.encoder, h.block);
    let chunk = chunk_bytes(h.head(), Seq::empty(), block, max);
    let rest = if block.len() > max {
        continuation_bytes(h.stream_id, block.skip(max), max)
    } else {
        Seq::empty()
    };
    assert(v.buf + chunk + rest =~= v.buf + (chunk + rest));
}

proof fn lemma_promise_appends(v: FramedWriteView, p: PushPromiseView)
    requires
        v.next is Nothing,
    ensures
        buffered(v, FrameView::PushPromise(p)) matches Ok(after) ==> after.pending() == v.pending()
            + wire_of(v, FrameView::PushPromise(p)),
{
    let max = v.max_frame_size as int;
    assert(v.pending() =~= v.buf);
    let block = block_bytes(v.encoder, p.block);
    let chunk = chunk_bytes(p.head(), be32_bytes(p.promised_id.id as int), block, max);
    let rest = if block.len() > max - 4 {
        continuation_bytes(p.stream_id, block.skip(max - 4), max)
    } else {
        Seq::empty()
    };
    assert(v.buf + chunk + rest =~= v.buf + (chunk + rest));
}

proof fn lemma_control_appends(v: FramedWriteView, frame: FrameView)
    requires
        v.next is Nothing,
        !(frame is Data || frame is Headers || frame is PushPromise),
    ensures
        buffered(v, frame) matches Ok(after) ==> after.pending() == v.pending() + wire_of(v, frame),
{
    assert(v.pending() =~= v.buf);
    assert(v.buf + wire_of(v, frame) + Seq::<u8>::empty() =~= v.buf + wire_of(v, frame));
}

/// A frame that goes in adds its bytes to those that are still to be handed
/// out, behind all others.
pub proof fn lemma_buffer_appends(v: FramedWriteView, frame: FrameView)
    requires
        v.next is Nothing,
    ensures
        buffered(v, frame) matches Ok(after) ==> after.pending() == v.pending() + wire_of(v, frame),
{
    match frame {
        FrameView::Data(d) => {
            lemma_data_appends(v, d);
        },
        FrameView::Headers(h) => {
            lemma_headers_append(v, h);
        },
        FrameView::PushPromise(p) => {
            lemma_promise_appends(v, p);
        },
        _ => {
            lemma_control_appends(v, frame);
        },
    }
}

/// After everything was handed out, nothing is left to hand out.
pub proof fn lemma_flushed_is_empty(v: FramedWriteView)
    requires
        v.wf(),
    ensures
        v.flushed().pending() == Seq::<u8>::empty(),
        !v.flushed().has_pending(),
        v.flushed().wf(),
{
    assert(v.flushed().pending() =~= Seq::<u8>::empty());
}

/// Whether a frame can go into a buffer of this capacity that holds this much: nothing
/// is half written, and there is room for the head and the payload of a short frame.
pub fn has_room(idle: bool, capacity: usize, len: usize) -> (r: bool)
    requires
        len <= capacity,
    ensures
        r == (idle && capacity - len >= MIN_BUFFER_CAPACITY),
{
    idle && capacity - len >= MIN_BUFFER_CAPACITY
}

enum ControlFlow {
    Continue,
    Break,
}

/// Writes frames into a buffer.
#[derive(Debug)]
pub struct FramedWrite {
    hpack: hpack::Encoder,
    buf: BytesMut,
    next: Option<Next>,
    last_data_frame: Option<Data>,
    max_frame_size: usize,
}

impl View for FramedWrite {
    type V = FramedWriteView;

    closed spec fn view(&self) -> FramedWriteView {
        FramedWriteView {
            encoder: self.hpack,
            buf: contents(self.buf),
            next: match self.next {
                None => NextView::Nothing,
                Some(Next::Data(d)) => NextView::Data(d@),
                Some(Next::Continuation(c)) => NextView::Continuation(c.stream_id, c@),
            },
            last_data_frame: match self.last_data_frame {
                Some(d) => Some(d@),
                None => None,
            },
            max_frame_size: self.max_frame_size,
        }
    }
}

impl FramedWrite {
    /// The room that the buffer was made with.
    pub closed spec fn room(self) -> nat {
        room(self.buf)
    }

    /// Nothing is half written, and what the buffer was made with leaves room for
    /// the head and the payload of a short frame.
    pub open spec fn is_roomy(self) -> bool {
        &&& self@.next is Nothing
        &&& self.room() - self@.buf.len() >= MIN_BUFFER_CAPACITY
    }

    /// A write side with an empty buffer.
    pub fn new() -> (w: FramedWrite)
        ensures
            w.room() == DEFAULT_BUFFER_CAPACITY,
            w@ == (FramedWriteView {
                encoder: hpack::Encoder { max_size: 4096, size_update: None },
                buf: Seq::empty(),
                next: NextView::Nothing,
                last_data_frame: None,
                max_frame_size: DEFAULT_MAX_FRAME_SIZE as usize,
            }),
            w@.wf(),
    {
        FramedWrite {
            hpack: hpack::Encoder::new(),
            buf: BytesMut::with_capacity(DEFAULT_BUFFER_CAPACITY),
            next: None,
            last_data_frame: None,
            max_frame_size: DEFAULT_MAX_FRAME_SIZE as usize,
        }
    }

    /// Whether a frame can go in: nothing is half written, and the buffer has room,
    /// as [`has_room`] says of its capacity. The allocator may have given more than
    /// was asked for; where what was asked for is enough, the answer is `true`.
    pub fn has_capacity(&self) -> (r: bool)
        ensures
            r ==> self@.next is Nothing,
            self@.next is Nothing && self.room() - self@.buf.len() >= MIN_BUFFER_CAPACITY ==> r,
    {
        has_room(self.next.is_none(), self.buf.capacity(), self.buf.len())
    }

    /// Whether anything is still to be handed out.
    pub fn has_pending(&self) -> (r: bool)
        requires
            self@.wf(),
        ensures
            r == self@.has_pending(),
    {
        !self.is_empty() || self.next.is_some()
    }

    fn is_empty(&self) -> (r: bool)
        requires
            self@.wf(),
        ensures
            r == match self@.next {
                NextView::Data(_) => false,
                _ => self@.buf.len() == 0,
            },
    {
        match &self.next {
            Some(Next::Data(frame)) => frame.data.len() == 0,
            _ => self.buf.len() == 0,
        }
    }

    /// Puts a frame into the buffer. A DATA frame with a larger payload than the
    /// peer accepts is refused, and changes nothing.
    pub fn buffer(&mut self, item: Frame) -> (r: Result<(), UserError>)
        requires
            old(self)@.wf(),
            old(self)@.next is Nothing,
            can_buffer(old(self)@, item@),
        ensures
            final(self)@.wf(),
            final(self).room() == old(self).room(),
            match buffered(old(self)@, item@) {
                Ok(after) => r is Ok && final(self)@ == after,
                Err(e) => r == Err::<(), UserError>(e) && final(self)@ == old(self)@,
            },
    {
        let max: usize = self.max_frame_size;
        match item {
            Frame::Data(v) => {
                let mut v = v;
                // Ensure that the payload is not greater than the max frame.
                let len: usize = v.data.len();
                if len > max {
                    return Err(UserError::PayloadTooBig);
                }
                if len >= CHAIN_THRESHOLD {
                    let ghost whole = v@;
                    // Encode the frame head to the buffer
                    v.head().encode(len, &mut self.buf);
                    if self.buf.len() < CHAIN_THRESHOLD {
                        let extra: usize = CHAIN_THRESHOLD - self.buf.len();
                        let start = v.data.split_to(extra);
                        self.buf.extend_from_slice(bytes_slice(&start));
                    } else {
                        assert(contents(self.buf) + whole.data.take(0) =~= contents(self.buf));
                        assert(whole.data.skip(0) =~= whole.data);
                    }
                    // Save the data frame
                    self.next = Some(Next::Data(v));
                } else {
                    v.encode_chunk(&mut self.buf);
                    // The chunk has been fully encoded; save off the frame
                    self.last_data_frame = Some(v);
                }
            },
            Frame::Headers(v) => {
                let continuation = v.encode(&mut self.hpack, max, &mut self.buf);
                match continuation {
                    Some(continuation) => {
                        self.next = Some(Next::Continuation(continuation));
                    },
                    None => {},
                }
            },
            Frame::PushPromise(v) => {
                let continuation = v.encode(&mut self.hpack, max, &mut self.buf);
                match continuation {
                    Some(continuation) => {
                        self.next = Some(Next::Continuation(continuation));
                    },
                    None => {},
                }
            },
            Frame::Settings(v) => {
                v.encode(&mut self.buf);
            },
            Frame::GoAway(v) => {
                v.encode(&mut self.buf);
            },
            Frame::Ping(v) => {
                v.encode(&mut self.buf);
            },
            Frame::WindowUpdate(v) => {
                v.encode(&mut self.buf);
            },
            Frame::Priority(_) => {},
            Frame::Reset(v) => {
                v.encode(&mut self.buf);
            },
        }
        Ok(())
    }

    fn unset_frame(&mut self) -> (r: ControlFlow)
        requires
            old(self)@.max_frame_size <= MAX_MAX_FRAME_SIZE,
            old(self)@.can_flush(),
        ensures
            final(self)@.wf(),
            final(self).room() == old(self).room(),
            final(self)@.can_flush(),
            match old(self)@.next {
                NextView::Continuation(id, block) => {
                    let max = old(self)@.max_frame_size as int;
                    &&& r is Continue
                    &&& final(self)@ == (FramedWriteView {
                        buf: chunk_bytes(continuation_head(id), Seq::empty(), block, max),
                        next: if block.len() > max {
                            NextView::Continuation(id, block.skip(max))
                        } else {
                            NextView::Nothing
                        },
                        ..old(self)@
                    })
                },
                NextView::Data(d) => r is Break && final(self)@ == (FramedWriteView {
                    buf: Seq::empty(),
                    next: NextView::Nothing,
                    last_data_frame: Some(d),
                    ..old(self)@
                }),
                NextView::Nothing => r is Break && final(self)@ == (FramedWriteView {
                    buf: Seq::empty(),
                    ..old(self)@
                }),
            },
    {
        // Clear internal buffer
        self.buf.clear();
        // The data frame has been written, so unset it
        match self.next.take() {
            Some(Next::Data(frame)) => {
                self.last_data_frame = Some(frame);
                ControlFlow::Break
            },
            Some(Next::Continuation(frame)) => {
                // Buffer the continuation frame, then try to write again
                let max: usize = self.max_frame_size;
                match frame.encode(max, &mut self.buf) {
                    Some(continuation) => {
                        self.next = Some(Next::Continuation(continuation));
                    },
                    None => {},
                }
                assert(Seq::<u8>::empty() + contents(self.buf) =~= contents(self.buf));
                ControlFlow::Continue
            },
            None => ControlFlow::Break,
        }
    }

    /// Hands out everything that is written, in order.
    pub fn flush_into(&mut self, dst: &mut BytesMut)
        requires
            old(self)@.wf(),
            old(self)@.can_flush(),
        ensures
            final(self)@.wf(),
            final(self).room() == old(self).room(),
            final(self)@ == old(self)@.flushed(),
            contents(*final(dst)) == contents(*old(dst)) + old(self)@.pending(),
    {
        let ghost goal = contents(*dst) + self@.pending();
        loop
            invariant
                self@.wf(),
                self.room() == old(self).room(),
                self@.can_flush(),
                contents(*dst) + self@.pending() == goal,
                self@.flushed() == old(self)@.flushed(),
            ensures
                contents(*dst) == goal,
                self@ == old(self)@.flushed(),
                self@.wf(),
                self.room() == old(self).room(),
            decreases
                    match self@.next {
                        NextView::Continuation(_, block) => block.len() + 1,
                        _ => 0,
                    },
        {
            let ghost before = self@;
            let ghost sent = contents(*dst);
            if !self.is_empty() {
                dst.extend_from_slice(as_slice(&self.buf));
                if let Some(Next::Data(frame)) = &mut self.next {
                    // The head, and any prefix of the payload, is followed by
                    // the rest of the payload.
                    let len: usize = frame.data.len();
                    let rest = frame.data.split_to(len);
                    dst.extend_from_slice(bytes_slice(&rest));
                }
            }
            proof {
                match before.next {
                    NextView::Data(d) => {
                        assert(d.data.take(d.data.len() as int) =~= d.data);
                        assert(d.data.skip(d.data.len() as int) =~= Seq::<u8>::empty());
                        assert(contents(*dst) =~= sent + before.pending());
                        assert(self@ == (FramedWriteView {
                            next: NextView::Data(DataView { data: Seq::empty(), ..d }),
                            ..before
                        }));
                    },
                    _ => {
                        assert(contents(*dst) =~= sent + before.buf);
                        assert(self@ == before);
                    },
                }
            }
            let ghost handed = self@;
            match self.unset_frame() {
                ControlFlow::Continue => {
                    proof {
                        if let NextView::Continuation(id, block) = before.next {
                            let max = before.max_frame_size as int;
                            let chunk = chunk_bytes(
                                continuation_head(id),
                                Seq::empty(),
                                block,
                                max,
                            );
                            if block.len() > max {
                                let rest = continuation_bytes(id, block.skip(max), max);
                                assert(before.buf + (chunk + rest) =~= before.pending());
                                assert(sent + before.buf + (chunk + rest) =~= sent + (before.buf + (
                                chunk + rest)));
                            } else {
                                assert(sent + before.buf + (chunk + Seq::<u8>::empty()) =~= sent + (
                                before.buf + chunk));
                            }
                        }
                    }
                },
                ControlFlow::Break => {
                    proof {
                        if before.next is Nothing {
                            assert(sent + before.buf =~= sent + before.pending());
                        }
                    }
                    break ;
                },
            }
        }
    }

    /// The largest payload that the peer accepts.
    pub fn max_frame_size(&self) -> (n: usize)
        ensures
            n == self@.max_frame_size,
    {
        self.max_frame_size
    }

    /// Changes the largest payload that the peer accepts.
    pub fn set_max_frame_size(&mut self, val: usize)
        requires
            old(self)@.wf(),
            val <= MAX_MAX_FRAME_SIZE,
        ensures
            final(self)@.wf(),
            final(self).room() == old(self).room(),
            final(self)@ == (FramedWriteView { max_frame_size: val, ..old(self)@ }),
    {
        self.max_frame_size = val;
    }

    /// Takes note of a header table size that the peer allows.
    pub fn set_header_table_size(&mut self, val: usize)
        requires
            old(self)@.wf(),
        ensures
            final(self)@.wf(),
            final(self).room() == old(self).room(),
            final(self)@ == (FramedWriteView {
                encoder: old(self)@.encoder.allowed(val),
                ..old(self)@
            }),
    {
        self.hpack.update_max_size(val);
    }

    /// Takes the last DATA frame that was written.
    pub fn take_last_data_frame(&mut self) -> (r: Option<Data>)
        requires
            old(self)@.wf(),
        ensures
            final(self)@.wf(),
            final(self).room() == old(self).room(),
            final(self)@ == (FramedWriteView { last_data_frame: None, ..old(self)@ }),
            old(self)@.last_data_frame == match r {
                Some(d) => Some(d@),
                None => None,
            },
    {
        self.last_data_frame.take()
    }
}

} // verus!
