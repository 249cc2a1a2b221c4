//! A connection: a codec and the streams that it carries.

use crate::buf::{contents, payload};
use crate::codec::error::UserError;
use crate::codec::framed_read::{
    frame_ok, lemma_next_frame, lemma_next_frame_shrinks, max_continuations, next_frame_of,
};
use crate::codec::framed_write::buffered;
use crate::codec::{Codec, CodecView, FramedReadView, FramedWriteView};
use crate::frame::{
    Frame, FrameView, Reason, Settings, StreamId, DEFAULT_INITIAL_WINDOW_SIZE,
    DEFAULT_MAX_FRAME_SIZE,
};
use crate::frame::block::HeaderBlock;
use crate::hpack::field::{fields_view, Field};
use crate::hpack::DecoderView;
use crate::proto::control::{
    ack_received, handled, leave_asked, leave_taken, settings_received, settled,
};
use crate::proto::delivery::can_write;
use crate::proto::error::{Error, ErrorView, Initiator};
use crate::proto::flush::flushed;
use crate::proto::recv::{
    data_received, fault_of, go_away_received, headers_received, ping_received, promise_received,
    reset_received, window_update_received, Received,
};
use crate::proto::send::{all_sendable, frames_view, is_sendable};
use crate::proto::output::has_controls;
use crate::proto::pump::{
    accepted, at_end_of, body_events, pumped, read_from, response_of, BodyEvent,
};
use crate::proto::stream::{ResponsePoll, MAX_WINDOW_SIZE};
use crate::proto::streams::{
    local_ok, Accept, Meter, Shutdown, Side, Streams, StreamsView, MAX_STREAM_ID,
};
use crate::proto::user::{
    capacity_reserved, data_sent, forgotten, given_up, let_go, open_fault, request_queued,
    reset_by, response_queued, stream_capacity, time_told, trailers_sent,
};
use bytes::{Bytes, BytesMut};
use std::collections::VecDeque;
use vstd::prelude::*;

verus! {

/// A codec after a frame went in as a whole.
#[verifier::opaque]
pub open spec fn encoded(c: CodecView, f: FrameView) -> CodecView {
    match buffered(c.write, f) {
        Ok(write) => CodecView { write, ..c }.drained(),
        Err(_) => c.drained(),
    }
}

/// A codec after frames went in, in their order.
pub open spec fn all_encoded(c: CodecView, frames: Seq<FrameView>) -> CodecView
    decreases frames.len(),
{
    if frames.len() == 0 {
        c
    } else {
        encoded(all_encoded(c, frames.drop_last()), frames.last())
    }
}

/// What a frame does to the streams.
pub open spec fn frame_received(c: StreamsView, f: FrameView) -> Received {
    match f {
        FrameView::Headers(f) => headers_received(c, f),
        FrameView::Data(f) => data_received(c, f),
        FrameView::Reset(f) => reset_received(c, f),
        FrameView::PushPromise(f) => promise_received(c, f),
        FrameView::Settings(s) => if s.ack {
            ack_received(c)
        } else {
            settings_received(c, s)
        },
        FrameView::GoAway(g) => go_away_received(c, g),
        FrameView::Ping(p) => (ping_received(c, p), None),
        FrameView::WindowUpdate(f) => window_update_received(c, f),
        FrameView::Priority(_) => (c, None),
    }
}

/// A codec after the peer's settings were taken over.
pub open spec fn with_remote(c: CodecView, s: Settings) -> CodecView {
    let c = match s.header_table_size {
        Some(n) => CodecView {
            write: FramedWriteView { encoder: c.write.encoder.allowed(n as usize), ..c.write },
            ..c
        },
        None => c,
    };
    match s.max_frame_size {
        Some(n) => CodecView {
            write: FramedWriteView { max_frame_size: n as usize, ..c.write },
            ..c
        },
        None => c,
    }
}

/// A codec after this side's settings were acknowledged.
pub open spec fn with_local(c: CodecView, s: Settings) -> CodecView {
    let read = c.read;
    let read = match s.max_frame_size {
        Some(n) => FramedReadView {
            max_frame_size: n as usize,
            max_continuations: max_continuations(read.max_header_list_size, n as usize),
            ..read
        },
        None => read,
    };
    let read = match s.max_header_list_size {
        Some(n) => FramedReadView {
            max_header_list_size: n as usize,
            max_continuations: max_continuations(n as usize, read.max_frame_size),
            ..read
        },
        None => read,
    };
    let read = match s.header_table_size {
        Some(n) => FramedReadView {
            decoder: DecoderView {
                pending: Some(
                    match read.decoder.pending {
                        Some(m) if m > n => m,
                        _ => n as int,
                    },
                ),
                ..read.decoder
            },
            ..read
        },
        None => read,
    };
    CodecView { read, ..c }
}

/// A connection: its codec and its streams.
pub struct ConnectionView {
    pub codec: CodecView,
    pub streams: StreamsView,
}

/// A connection after bytes came in from the peer.
pub open spec fn received(v: ConnectionView, src: Seq<u8>) -> ConnectionView {
    let read = FramedReadView { buffer: v.codec.read.buffer + src, ..v.codec.read };
    ConnectionView { codec: CodecView { read, ..v.codec }, ..v }
}

/// A connection whose receive window is meant to have another size.
pub open spec fn with_target(v: ConnectionView, size: u32) -> ConnectionView {
    let m = Meter { recv_target: size, ..v.streams.m };
    ConnectionView { streams: StreamsView { m, ..v.streams }, ..v }
}

/// A connection after a frame of the peer, errors being handled.
#[verifier::opaque]
pub open spec fn stepped(v: ConnectionView, f: FrameView) -> ConnectionView {
    let (streams, fault) = frame_received(v.streams, f);
    match fault {
        Some(e) => ConnectionView { streams: handled(streams, e), ..v },
        None => {
            let codec = match f {
                FrameView::Settings(s) => if s.ack {
                    with_local(v.codec, v.streams.m.local)
                } else {
                    with_remote(v.codec, s)
                },
                _ => v.codec,
            };
            ConnectionView { codec, streams }
        },
    }
}

/// Whether a connection goes on after something that was read: every error on it
/// that is not one of a stream ends it.
pub open spec fn reads_on(v: ConnectionView) -> bool {
    v.streams.m.closed is None
}

/// A connection after everything that was received has been read.
pub open spec fn read_all(v: ConnectionView) -> ConnectionView
    decreases
            v.codec.read.buffer.len(),
            if reads_on(v) {
                1int
            } else {
                0
            },
{
    if !reads_on(v) {
        v
    } else {
        let (read, r) = next_frame_of(v.codec.read);
        let next = ConnectionView { codec: CodecView { read, ..v.codec }, ..v };
        proof {
            lemma_next_frame_shrinks(v.codec.read);
            if let Ok(Some(f)) = r {
                lemma_stepped_buffer(next, f);
            }
            if let Err(e) = r {
                lemma_handled(next.streams, e);
            }
        }
        match r {
            Ok(None) => next,
            Ok(Some(f)) => read_all(stepped(next, f)),
            Err(e) => read_all(ConnectionView { streams: handled(next.streams, e), ..next }),
        }
    }
}

/// A connection after everything that can go out went into the codec.
pub open spec fn written(v: ConnectionView) -> ConnectionView {
    let (streams, frames) = flushed(v.streams);
    ConnectionView { codec: all_encoded(v.codec, frames), streams }
}

/// A connection after it was driven as far as it goes: everything that was
/// received is read, everything that can go out is written, and if both sides
/// are done with each other, the connection ends.
#[verifier::opaque]
pub open spec fn driven(v: ConnectionView) -> ConnectionView {
    let v = written(read_all(v));
    written(ConnectionView { streams: settled(v.streams), ..v })
}

/// How a connection that ended has ended. If both sides had a reason, the peer's
/// counts.
#[verifier::opaque]
pub open spec fn ending(c: StreamsView) -> Option<ErrorView> {
    match c.m.closed {
        None => None,
        Some(closed) => match c.m.remote_error {
            Some(theirs) if theirs != Reason::NO_ERROR => Some(
                ErrorView::GoAway(c.remote_debug, theirs, Initiator::Remote),
            ),
            _ => if closed.reason == Reason::NO_ERROR {
                None
            } else {
                Some(ErrorView::GoAway(Seq::empty(), closed.reason, closed.initiator))
            },
        },
    }
}

/// How far a connection is.
#[derive(Debug)]
pub enum ConnectionPoll {
    /// It goes on once more bytes come in.
    Pending,
    /// It has ended in good order.
    Done,
    /// It has ended with an error.
    Failed(Error),
}

pub(crate) proof fn lemma_max_send_frame(c: StreamsView, f: FrameView)
    ensures
        frame_received(c, f).0.m.max_send_frame == match f {
            FrameView::Settings(s) => match s.max_frame_size {
                Some(n) if !s.ack && frame_received(c, f).1 is None => n as usize,
                _ => c.m.max_send_frame,
            },
            _ => c.m.max_send_frame,
        },
{
    reveal(reset_by);
}

/// An error leaves the largest payload as it is, and one on the connection ends it.
pub proof fn lemma_handled(c: StreamsView, e: ErrorView)
    ensures
        handled(c, e).m.max_send_frame == c.m.max_send_frame,
        e is GoAway ==> handled(c, e).m.closed is Some,
{
    reveal(handled);
    reveal(reset_by);
}

/// A frame leaves the bytes behind it as they are.
pub proof fn lemma_stepped_buffer(v: ConnectionView, f: FrameView)
    ensures
        stepped(v, f).codec.read.buffer == v.codec.read.buffer,
{
    reveal(stepped);
}

/// What a connection is made with.
#[derive(Clone, Copy, Debug)]
pub struct Config {
    pub next_stream_id: StreamId,
    pub initial_max_send_streams: usize,
    pub max_send_buffer_size: usize,
    pub reset_stream_duration: u64,
    pub reset_stream_max: usize,
    pub remote_reset_stream_max: usize,
    pub local_error_reset_streams_max: Option<usize>,
    pub settings: Settings,
}

/// The streams that a connection starts with.
pub open spec fn started(side: Side, config: Config) -> StreamsView {
    StreamsView {
        m: Meter {
            side,
            local: config.settings,
            local_acked: false,
            init_send: DEFAULT_INITIAL_WINDOW_SIZE,
            init_recv: DEFAULT_INITIAL_WINDOW_SIZE,
            max_send_frame: DEFAULT_MAX_FRAME_SIZE as usize,
            max_send_streams: config.initial_max_send_streams,
            max_recv_streams: match config.settings.max_concurrent_streams {
                Some(n) => n as usize,
                None => usize::MAX,
            },
            max_send_buffer: config.max_send_buffer_size,
            send_window: DEFAULT_INITIAL_WINDOW_SIZE,
            free: DEFAULT_INITIAL_WINDOW_SIZE,
            recv_window: DEFAULT_INITIAL_WINDOW_SIZE,
            recv_target: DEFAULT_INITIAL_WINDOW_SIZE,
            in_flight: 0,
            next_id: config.next_stream_id.id,
            last_remote: 0,
            remote_resets: 0,
            remote_reset_max: config.remote_reset_stream_max,
            local_resets: 0,
            local_reset_max: config.local_error_reset_streams_max,
            reset_stream_max: config.reset_stream_max,
            now: 0,
            reset_stream_duration: config.reset_stream_duration,
            shutdown: Shutdown::Off,
            served: MAX_STREAM_ID,
            remote_served: MAX_STREAM_ID,
            remote_error: None,
            closed: None,
        },
        streams: Seq::empty(),
        accept: Seq::empty(),
        control: Seq::empty(),
        remote_debug: Seq::empty(),
    }
}

/// A connection.
#[derive(Debug)]
pub struct Connection {
    pub codec: Codec,
    pub streams: Streams,
}

impl View for Connection {
    type V = ConnectionView;

    open spec fn view(&self) -> ConnectionView {
        ConnectionView { codec: self.codec@, streams: self.streams@ }
    }
}

impl Connection {
    /// The codec and the streams are in order, agree on the largest payload that
    /// the peer accepts, and no frame is half written.
    pub closed spec fn wf(self) -> bool {
        &&& self.codec.wf()
        &&& self.streams@.wf()
        &&& self.codec@.write.max_frame_size == self.streams.m.max_send_frame
        &&& self.codec@.write.next is Nothing
    }

    /// What holds of a connection in order: its streams are, nothing of a frame is left to
    /// be written, the codec and the streams agree on the largest payload that the peer
    /// accepts, and both sides of the codec are in order.
    pub proof fn lemma_wf(&self)
        requires
            self.wf(),
        ensures
            can_write(self@),
            has_controls(self@.streams),
            self@.codec.read.wf(),
            self@.codec.write.wf(),
            local_ok(self@.streams.m.local),
    {
        self.codec.lemma_wf();
    }

    /// A connection over a codec.
    pub fn new(side: Side, codec: Codec, config: Config) -> (c: Connection)
        requires
            codec.wf(),
            codec@.write.max_frame_size == DEFAULT_MAX_FRAME_SIZE,
            codec@.write.next is Nothing,
            local_ok(config.settings),
            config.next_stream_id.wf(),
            config.next_stream_id.id != 0,
        ensures
            c.wf(),
            c@ == (ConnectionView { codec: codec@, streams: started(side, config) }),
    {
        let max_recv_streams: usize = match config.settings.max_concurrent_streams {
            Some(n) => n as usize,
            None => usize::MAX,
        };
        let m = Meter {
            side,
            local: config.settings,
            local_acked: false,
            init_send: DEFAULT_INITIAL_WINDOW_SIZE,
            init_recv: DEFAULT_INITIAL_WINDOW_SIZE,
            max_send_frame: DEFAULT_MAX_FRAME_SIZE as usize,
            max_send_streams: config.initial_max_send_streams,
            max_recv_streams,
            max_send_buffer: config.max_send_buffer_size,
            send_window: DEFAULT_INITIAL_WINDOW_SIZE,
            free: DEFAULT_INITIAL_WINDOW_SIZE,
            recv_window: DEFAULT_INITIAL_WINDOW_SIZE,
            recv_target: DEFAULT_INITIAL_WINDOW_SIZE,
            in_flight: 0,
            next_id: config.next_stream_id.id,
            last_remote: 0,
            remote_resets: 0,
            remote_reset_max: config.remote_reset_stream_max,
            local_resets: 0,
            local_reset_max: config.local_error_reset_streams_max,
            reset_stream_max: config.reset_stream_max,
            now: 0,
            reset_stream_duration: config.reset_stream_duration,
            shutdown: Shutdown::Off,
            served: MAX_STREAM_ID,
            remote_served: MAX_STREAM_ID,
            remote_error: None,
            closed: None,
        };
        let streams = Streams {
            m,
            streams: Vec::new(),
            accept: VecDeque::new(),
            control: VecDeque::new(),
            remote_debug: Vec::new(),
        };
        let c = Connection { codec, streams };
        assert(c@.streams =~= started(side, config));
        c
    }

    /// Takes bytes from the peer.
    pub fn recv_bytes(&mut self, src: &[u8])
        requires
            old(self).wf(),
        ensures
            final(self).wf(),
            final(self)@ == received(old(self)@, src@),
    {
        self.codec.recv(src);
    }

    fn recv_frame(&mut self, f: Frame) -> (r: Result<(), Error>)
        requires
            old(self).wf(),
            frame_ok(f@),
        ensures
            final(self).codec == old(self).codec,
            final(self).streams@.wf(),
            frame_received(old(self)@.streams, f@) == (final(self)@.streams, fault_of(r)),
    {
        match f {
            Frame::Headers(f) => self.streams.recv_headers(f),
            Frame::Data(f) => self.streams.recv_data(f),
            Frame::Reset(f) => self.streams.recv_reset(f),
            Frame::PushPromise(f) => self.streams.recv_push_promise(f),
            Frame::Settings(s) => {
                if s.ack {
                    self.streams.recv_ack()
                } else {
                    self.streams.recv_settings(s)
                }
            },
            Frame::GoAway(g) => self.streams.recv_go_away(g),
            Frame::Ping(p) => {
                self.streams.recv_ping(p);
                Ok(())
            },
            Frame::WindowUpdate(f) => self.streams.recv_window_update(f),
            Frame::Priority(_) => Ok(()),
        }
    }

    fn apply(&mut self, f: Frame)
        requires
            old(self).wf(),
            frame_ok(f@),
        ensures
            final(self).wf(),
            final(self)@ == stepped(old(self)@, f@),
    {
        reveal(stepped);
        let settings = match &f {
            Frame::Settings(s) => Some(*s),
            _ => None,
        };
        let local = self.streams.m.local;
        let ghost before = self@;
        match self.recv_frame(f) {
            Err(e) => {
                proof {
                    lemma_max_send_frame(before.streams, f@);
                    lemma_handled(self@.streams, e@);
                }
                self.streams.handle(e);
            },
            Ok(()) => {
                proof {
                    lemma_max_send_frame(before.streams, f@);
                    self.codec.lemma_wf();
                }
                match settings {
                    None => {},
                    Some(s) => {
                        if s.ack {
                            match local.max_frame_size {
                                Some(n) => {
                                    self.codec.set_max_recv_frame_size(n as usize);
                                },
                                None => {},
                            }
                            match local.max_header_list_size {
                                Some(n) => {
                                    self.codec.set_max_recv_header_list_size(n as usize);
                                },
                                None => {},
                            }
                            match local.header_table_size {
                                Some(n) => {
                                    self.codec.set_recv_header_table_size(n as usize);
                                },
                                None => {},
                            }
                        } else {
                            match s.header_table_size {
                                Some(n) => {
                                    self.codec.set_send_header_table_size(n as usize);
                                },
                                None => {},
                            }
                            match s.max_frame_size {
                                Some(n) => {
                                    self.codec.set_max_send_frame_size(n as usize);
                                },
                                None => {},
                            }
                        }
                    },
                }
            },
        }
    }

    fn read_one(&mut self) -> (more: bool)
        requires
            old(self).wf(),
            reads_on(old(self)@),
        ensures
            final(self).wf(),
            more ==> read_all(final(self)@) == read_all(old(self)@),
            !more ==> final(self)@ == read_all(old(self)@),
            more ==> {
                ||| final(self)@.codec.read.buffer.len() < old(self)@.codec.read.buffer.len()
                ||| final(self)@.codec.read.buffer.len() == old(self)@.codec.read.buffer.len()
                    && !reads_on(final(self)@)
            },
    {
        let ghost before = self@;
        proof {
            self.codec.lemma_wf();
            lemma_next_frame(before.codec.read);
            lemma_next_frame_shrinks(before.codec.read);
        }
        match self.codec.next_frame() {
            Ok(None) => false,
            Ok(Some(frame)) => {
                proof {
                    lemma_stepped_buffer(self@, frame@);
                }
                self.apply(frame);
                true
            },
            Err(e) => {
                proof {
                    lemma_handled(self@.streams, e@);
                }
                self.streams.handle(e);
                true
            },
        }
    }

    fn read_all(&mut self)
        requires
            old(self).wf(),
        ensures
            final(self).wf(),
            final(self)@ == read_all(old(self)@),
    {
        let mut more = true;
        while more && self.streams.m.closed.is_none()
            invariant
                self.wf(),
                more ==> read_all(self@) == read_all(old(self)@),
                !more ==> self@ == read_all(old(self)@),
            decreases
                    if more {
                        1int
                    } else {
                        0
                    },
                    self@.codec.read.buffer.len(),
                    if reads_on(self@) {
                        1int
                    } else {
                        0
                    },
        {
            more = self.read_one();
        }
    }

    fn encode(&mut self, frame: Frame)
        requires
            old(self).wf(),
            is_sendable(frame@, old(self).streams.m.max_send_frame),
        ensures
            final(self).wf(),
            final(self).streams == old(self).streams,
            final(self).codec@ == encoded(old(self).codec@, frame@),
    {
        reveal(encoded);
        proof {
            self.codec.lemma_wf();
        }
        let _ = self.codec.buffer(frame);
        self.codec.flush();
    }

    fn write_all(&mut self)
        requires
            old(self).wf(),
        ensures
            final(self).wf(),
            final(self)@ == written(old(self)@),
    {
        let mut frames = self.streams.flush();
        let ghost all = frames_view(frames@);
        let ghost start = self.codec@;
        let ghost streams = self.streams;
        assert(all.take(0) =~= Seq::<FrameView>::empty());
        assert(all.skip(0) =~= all);
        while frames.len() > 0
            invariant
                self.wf(),
                self.streams == streams,
                frames@.len() <= all.len(),
                frames_view(frames@) == all.skip(all.len() - frames@.len()),
                all_sendable(all, streams.m.max_send_frame),
                self.codec@ == all_encoded(start, all.take(all.len() - frames@.len())),
            decreases frames@.len(),
        {
            let ghost k = all.len() - frames@.len();
            let ghost before = frames@;
            match frames.pop_front() {
                Some(frame) => {
                    proof {
                        assert(frames@ =~= before.skip(1));
                        assert(frames_view(frames@) =~= frames_view(before).skip(1));
                        assert(all.skip(k).skip(1) =~= all.skip(k + 1));
                        assert(frame@ == all.skip(k)[0]);
                        assert(is_sendable(all[k], streams.m.max_send_frame));
                        assert(all.take(k + 1).drop_last() =~= all.take(k));
                        assert(all.take(k + 1).last() == all[k]);
                    }
                    self.encode(frame);
                },
                None => {},
            }
        }
        assert(all.take(all.len() as int) =~= all);
    }

    /// Drives the connection as far as it goes.
    pub fn poll(&mut self) -> (r: ConnectionPoll)
        requires
            old(self).wf(),
        ensures
            final(self).wf(),
            final(self)@ == driven(old(self)@),
            match r {
                ConnectionPoll::Pending => final(self)@.streams.m.closed is None,
                ConnectionPoll::Done => final(self)@.streams.m.closed is Some && ending(
                    final(self)@.streams,
                ) is None,
                ConnectionPoll::Failed(e) => final(self)@.streams.m.closed is Some && ending(
                    final(self)@.streams,
                ) == Some(e@),
            },
    {
        reveal(driven);
        reveal(ending);
        self.read_all();
        self.write_all();
        self.streams.settle();
        self.write_all();
        match self.streams.m.closed {
            None => ConnectionPoll::Pending,
            Some(closed) => {
                match self.streams.m.remote_error {
                    Some(theirs) if theirs != Reason::NO_ERROR => {
                        let debug = crate::wire::to_vec(self.streams.remote_debug.as_slice());
                        return ConnectionPoll::Failed(
                            Error::GoAway(debug, theirs, Initiator::Remote),
                        );
                    },
                    _ => {},
                }
                if closed.reason == Reason::NO_ERROR {
                    ConnectionPoll::Done
                } else {
                    let none: Vec<u8> = Vec::new();
                    assert(none@ =~= Seq::<u8>::empty());
                    ConnectionPoll::Failed(Error::GoAway(none, closed.reason, closed.initiator))
                }
            },
        }
    }

    /// Hands out the bytes for the peer, behind what `dst` holds, and says how
    /// many they are.
    pub fn poll_transmit(&mut self, dst: &mut BytesMut) -> (n: usize)
        requires
            old(self).wf(),
        ensures
            final(self).wf(),
            final(self)@ == (ConnectionView { codec: old(self)@.codec.sent(), ..old(self)@ }),
            contents(*final(dst)) == contents(*old(dst)) + old(self)@.codec.transmit(),
            n == old(self)@.codec.transmit().len(),
    {
        self.codec.flush_into(dst)
    }

    /// Changes the size that the receive window of the connection is meant to
    /// have.
    pub fn set_target_window_size(&mut self, size: u32)
        requires
            old(self).wf(),
            size <= MAX_WINDOW_SIZE,
        ensures
            final(self).wf(),
            final(self)@ == with_target(old(self)@, size),
    {
        let ghost before = self@.streams;
        self.streams.m.recv_target = size;
        proof {
            Streams::lemma_same_streams(before, self@.streams);
        }
    }

    /// Why no stream can be opened, if none can.
    pub fn open_fault(&self) -> (r: Option<UserError>)
        ensures
            r == open_fault(self@.streams.m),
    {
        self.streams.open_fault()
    }

    /// The identifier of the next stream that this side opens.
    pub fn next_stream_id(&self) -> (id: StreamId)
        requires
            self.wf(),
            open_fault(self@.streams.m) is None,
        ensures
            id.id == self@.streams.m.next_id,
            id.wf(),
            id.id != 0,
    {
        StreamId::new(self.streams.m.next_id)
    }

    /// Queues a request.
    pub fn queue_request(&mut self, block: HeaderBlock, end: bool, head: bool) -> (r: Result<
        StreamId,
        UserError,
    >)
        requires
            old(self).wf(),
        ensures
            final(self).wf(),
            match request_queued(old(self)@.streams, block@, end, head) {
                Ok((streams, id)) => {
                    &&& r == Ok::<StreamId, UserError>(id)
                    &&& id.wf()
                    &&& id.id != 0
                    &&& final(self)@ == (ConnectionView { streams, ..old(self)@ })
                },
                Err(e) => r == Err::<StreamId, UserError>(e) && final(self)@ == old(self)@,
            },
    {
        reveal(request_queued);
        self.streams.queue_request(block, end, head)
    }

    /// Queues a response.
    pub fn queue_response(&mut self, id: StreamId, block: HeaderBlock, end: bool) -> (r: Result<
        (),
        UserError,
    >)
        requires
            old(self).wf(),
        ensures
            final(self).wf(),
            match response_queued(old(self)@.streams, id, block@, end) {
                Ok(streams) => r is Ok && final(self)@ == (ConnectionView {
                    streams,
                    ..old(self)@
                }),
                Err(e) => r == Err::<(), UserError>(e) && final(self)@ == old(self)@,
            },
    {
        self.streams.queue_response(id, block, end)
    }

    /// Queues a part of a body.
    pub fn send_data(&mut self, id: StreamId, data: Bytes, end: bool) -> (r: Result<(), UserError>)
        requires
            old(self).wf(),
        ensures
            final(self).wf(),
            match data_sent(old(self)@.streams, id, payload(data), end) {
                Ok(streams) => r is Ok && final(self)@ == (ConnectionView {
                    streams,
                    ..old(self)@
                }),
                Err(e) => r == Err::<(), UserError>(e) && final(self)@ == old(self)@,
            },
    {
        self.streams.send_data(id, data, end)
    }

    /// Queues trailers.
    pub fn send_trailers(&mut self, id: StreamId, fields: Vec<Field>) -> (r: Result<(), UserError>)
        requires
            old(self).wf(),
        ensures
            final(self).wf(),
            match trailers_sent(old(self)@.streams, id, fields_view(fields@)) {
                Ok(streams) => r is Ok && final(self)@ == (ConnectionView {
                    streams,
                    ..old(self)@
                }),
                Err(e) => r == Err::<(), UserError>(e) && final(self)@ == old(self)@,
            },
    {
        self.streams.send_trailers(id, fields)
    }

    /// Gives up an exchange.
    pub fn reset(&mut self, id: StreamId, reason: Reason)
        requires
            old(self).wf(),
        ensures
            final(self).wf(),
            final(self)@ == (ConnectionView {
                streams: given_up(old(self)@.streams, id, reason),
                ..old(self)@
            }),
    {
        self.streams.give_up(id, reason);
    }

    /// Takes note of the time.
    pub fn set_time(&mut self, now: u64)
        requires
            old(self).wf(),
        ensures
            final(self).wf(),
            final(self)@ == (ConnectionView {
                streams: time_told(old(self)@.streams, now),
                ..old(self)@
            }),
    {
        self.streams.tell_time(now);
    }

    /// Lets go of a stream.
    pub fn let_go(&mut self, id: StreamId)
        requires
            old(self).wf(),
        ensures
            final(self).wf(),
            final(self)@ == (ConnectionView {
                streams: let_go(old(self)@.streams, id),
                ..old(self)@
            }),
    {
        self.streams.let_go(id);
    }

    /// Asks for capacity on a stream.
    pub fn reserve_capacity(&mut self, id: StreamId, capacity: u32)
        requires
            old(self).wf(),
        ensures
            final(self).wf(),
            final(self)@ == (ConnectionView {
                streams: capacity_reserved(old(self)@.streams, id, capacity),
                ..old(self)@
            }),
    {
        self.streams.reserve_capacity(id, capacity);
    }

    /// The capacity that a stream can be sent on right away.
    pub fn capacity(&self, id: StreamId) -> (n: usize)
        ensures
            n == stream_capacity(self@.streams, id),
    {
        self.streams.capacity(id)
    }

    /// Asks for the response of a stream.
    pub fn poll_response(&mut self, id: StreamId) -> (r: ResponsePoll)
        requires
            old(self).wf(),
        ensures
            final(self).wf(),
            r@ == response_of(old(self)@.streams, id),
            final(self)@ == if r is Ready {
                ConnectionView { streams: read_from(old(self)@.streams, id), ..old(self)@ }
            } else {
                old(self)@
            },
    {
        self.streams.poll_response(id)
    }

    /// Whether the peer's message on a stream is at its end, and all of it was
    /// read.
    pub fn is_end_stream(&self, id: StreamId) -> (r: bool)
        ensures
            r == at_end_of(self@.streams, id),
    {
        self.streams.is_end_stream(id)
    }

    /// Reads a stream as far as it goes, behind the head of a message, and says
    /// whether nothing more will come.
    pub fn pump_body(&mut self, id: StreamId, events: &mut VecDeque<BodyEvent>) -> (done: bool)
        requires
            old(self).wf(),
        ensures
            final(self).wf(),
            final(self)@ == (ConnectionView {
                streams: pumped(old(self)@.streams, id).0,
                ..old(self)@
            }),
            body_events(final(events)@) == body_events(old(events)@) + pumped(
                old(self)@.streams,
                id,
            ).1,
            done == pumped(old(self)@.streams, id).2,
    {
        self.streams.pump_body(id, events)
    }

    /// Takes note that no one reads from a stream any more.
    pub fn forget(&mut self, id: StreamId)
        requires
            old(self).wf(),
        ensures
            final(self).wf(),
            final(self)@ == (ConnectionView {
                streams: forgotten(old(self)@.streams, id),
                ..old(self)@
            }),
    {
        self.streams.forget(id);
    }

    /// Accepts the request that waits first.
    pub fn next_incoming(&mut self) -> (r: Option<Accept>)
        requires
            old(self).wf(),
        ensures
            final(self).wf(),
            match r {
                Some(a) => {
                    &&& old(self)@.streams.accept.len() > 0
                    &&& a@ == old(self)@.streams.accept[0]
                    &&& final(self)@ == (ConnectionView {
                        streams: accepted(old(self)@.streams),
                        ..old(self)@
                    })
                },
                None => old(self)@.streams.accept.len() == 0 && final(self)@ == old(self)@,
            },
    {
        self.streams.next_incoming()
    }

    /// Asks the peer for leave.
    pub fn go_away_gracefully(&mut self)
        requires
            old(self).wf(),
        ensures
            final(self).wf(),
            final(self)@ == (ConnectionView {
                streams: leave_asked(old(self)@.streams),
                ..old(self)@
            }),
    {
        self.streams.ask_leave();
    }

    /// Takes leave at once.
    pub fn go_away(&mut self, reason: Reason)
        requires
            old(self).wf(),
        ensures
            final(self).wf(),
            final(self)@ == (ConnectionView {
                streams: leave_taken(old(self)@.streams, reason),
                ..old(self)@
            }),
    {
        self.streams.take_leave(reason);
    }
}

} // verus!
