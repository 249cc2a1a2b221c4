//! The client.
//!
//! A connection is a state machine that does no I/O. Bytes from the peer go in
//! with [`Connection::recv`], bytes for the peer come out with
//! [`Connection::poll_transmit`], and what happened comes out with
//! [`Connection::poll_event`]. Requests are sent with
//! [`Connection::send_request`], which hands out a [`SendStream`] for the body.

pub mod laws;
pub mod peer;
pub mod run;

pub use self::peer::Peer;

use crate::buf::{contents, payload};
use crate::client::peer::sent_request;
use crate::client::run::{after, fails, handed_out, opened, told, Call};
use crate::codec::error::UserError;
use crate::codec::framed_read::max_continuations;
use crate::codec::{new_codec, Codec, CodecView, FramedReadView, FramedWriteView};
use crate::error::{Error, ErrorView};
use crate::frame;
use crate::frame::settings::no_settings;
use crate::frame::{Frame, Reason, Settings, DEFAULT_MAX_FRAME_SIZE, MAX_MAX_FRAME_SIZE};
use crate::hpack::field::{fields_view, Field};
use crate::message::{Request, RequestView, Response, ResponseView};
use crate::names::{HEAD, PREFACE};
use crate::proto;
use crate::proto::connection::{driven, ending, received, started, with_target};
use crate::proto::control::leave_taken;
use crate::proto::delivery::can_write;
use crate::proto::output::has_controls;
use crate::proto::pump::{
    at_end_of, body_events, error_reason, pumped, read_from, reason_of_error, response_of,
    BodyEvent, BodyEventView,
};
use crate::proto::stream::{ResponsePoll, ResponsePollView, MAX_WINDOW_SIZE};
use crate::proto::streams::{local_ok, Side, StreamsView};
use crate::proto::user::{
    capacity_reserved, data_sent, forgotten, given_up, let_go, open_fault, request_queued, time_told,
    stream_capacity, trailers_sent,
};
use crate::proto::{Config, ConnectionPoll};
use crate::share::{SendStream, StreamId};
use crate::wire::same_bytes;
use bytes::{Bytes, BytesMut};
use std::collections::VecDeque;
use vstd::prelude::*;

verus! {

/// Something that happened on a connection.
#[derive(Debug)]
pub enum Event {
    /// The head of the response to a request was received.
    Response { stream_id: StreamId, response: Response, end_stream: bool },
    /// A part of the body of a response was received. Its flow-control capacity
    /// is released.
    Data { stream_id: StreamId, data: Bytes },
    /// Trailers were received, with which the response ends.
    Trailers { stream_id: StreamId, trailers: Vec<Field> },
    /// The response ended without trailers.
    StreamEnd { stream_id: StreamId },
    /// The stream was reset, by the peer or here.
    Reset { stream_id: StreamId, reason: Reason },
    /// The connection has ended.
    GoAway,
}

/// Something that happened on a connection.
#[verifier::ext_equal]
pub enum EventView {
    Response(frame::StreamId, ResponseView, bool),
    Body(frame::StreamId, BodyEventView),
    GoAway,
}

impl View for Event {
    type V = EventView;

    open spec fn view(&self) -> EventView {
        match self {
            Event::Response { stream_id, response, end_stream } => EventView::Response(
                crate::share::internal(*stream_id),
                response@,
                *end_stream,
            ),
            Event::Data { stream_id, data } => EventView::Body(
                crate::share::internal(*stream_id),
                BodyEventView::Data(payload(*data)),
            ),
            Event::Trailers { stream_id, trailers } => EventView::Body(
                crate::share::internal(*stream_id),
                BodyEventView::Trailers(fields_view(trailers@)),
            ),
            Event::StreamEnd { stream_id } => EventView::Body(
                crate::share::internal(*stream_id),
                BodyEventView::End,
            ),
            Event::Reset { stream_id, reason } => EventView::Body(
                crate::share::internal(*stream_id),
                BodyEventView::Reset(*reason),
            ),
            Event::GoAway => EventView::GoAway,
        }
    }
}

/// The views of a run of events.
pub open spec fn events_view(s: Seq<Event>) -> Seq<EventView> {
    s.map_values(|e: Event| e@)
}

/// What happened on a stream, as things that happened on a connection.
pub open spec fn on_stream(id: frame::StreamId, events: Seq<BodyEventView>) -> Seq<EventView> {
    events.map_values(|e: BodyEventView| EventView::Body(id, e))
}

/// How far a response was handed out.
#[derive(Clone, Copy, Debug, PartialEq, Eq, Structural)]
pub enum Phase {
    /// The head is awaited.
    Head,
    /// The body is handed out.
    Body,
    /// All of it was handed out.
    Done,
}

/// A request whose response is handed out.
#[derive(Clone, Copy, Debug, PartialEq, Eq, Structural)]
pub struct Exchange {
    pub id: frame::StreamId,
    pub phase: Phase,
}

/// What a client connection is made with.
#[derive(Clone, Copy, Debug, PartialEq, Eq, Structural)]
pub struct Builder {
    /// The number of streams that may be open at once, until the peer sets one.
    pub initial_max_send_streams: usize,
    /// The size that the receive window of the connection is meant to have.
    pub initial_target_connection_window_size: Option<u32>,
    /// The most capacity that a stream shows.
    pub max_send_buffer_size: usize,
    /// The number of reset streams that are remembered.
    pub reset_stream_max: usize,
    /// The time for which they are, in milliseconds.
    pub reset_stream_duration: u64,
    /// The number of resets of requests that wait to be accepted.
    pub pending_accept_reset_stream_max: usize,
    /// The settings of this side.
    pub settings: Settings,
    /// The identifier of the first stream.
    pub stream_id: frame::StreamId,
    /// The number of resets that errors of the peer may make necessary.
    pub local_max_error_reset_streams: Option<usize>,
}

/// The usual values.
pub open spec fn default_builder() -> Builder {
    Builder {
        initial_max_send_streams: usize::MAX,
        initial_target_connection_window_size: None,
        max_send_buffer_size: proto::DEFAULT_MAX_SEND_BUFFER_SIZE,
        reset_stream_max: proto::DEFAULT_RESET_STREAM_MAX,
        reset_stream_duration: proto::DEFAULT_RESET_STREAM_MILLIS,
        pending_accept_reset_stream_max: proto::DEFAULT_REMOTE_RESET_STREAM_MAX,
        settings: no_settings(),
        stream_id: frame::StreamId { id: 1 },
        local_max_error_reset_streams: Some(proto::DEFAULT_LOCAL_RESET_COUNT_MAX),
    }
}

impl Builder {
    /// A connection can be made: the window of the connection is in its range,
    /// and so is the largest payload.
    pub open spec fn wf(self) -> bool {
        &&& self.initial_target_connection_window_size matches Some(n) ==> n <= MAX_WINDOW_SIZE
        &&& local_ok(self.settings)
        &&& self.stream_id.wf()
        &&& self.stream_id.id % 2 == 1
    }

    /// The usual values.
    pub fn new() -> (b: Builder)
        ensures
            b.wf(),
            b == default_builder(),
    {
        Builder {
            initial_max_send_streams: usize::MAX,
            initial_target_connection_window_size: None,
            max_send_buffer_size: proto::DEFAULT_MAX_SEND_BUFFER_SIZE,
            reset_stream_max: proto::DEFAULT_RESET_STREAM_MAX,
            reset_stream_duration: proto::DEFAULT_RESET_STREAM_MILLIS,
            pending_accept_reset_stream_max: proto::DEFAULT_REMOTE_RESET_STREAM_MAX,
            settings: Settings::new(),
            stream_id: frame::StreamId::new(1),
            local_max_error_reset_streams: Some(proto::DEFAULT_LOCAL_RESET_COUNT_MAX),
        }
    }

    /// Sets the window that streams start with for received data.
    pub fn initial_window_size(&mut self, size: u32) -> (b: &mut Self)
        ensures
            *b == (Builder {
                settings: Settings { initial_window_size: Some(size), ..old(self).settings },
                ..*old(self)
            }),
            *final(self) == *final(b),
    {
        self.settings.initial_window_size = Some(size);
        self
    }

    /// Sets the window that the connection starts with for received data.
    pub fn initial_connection_window_size(&mut self, size: u32) -> (b: &mut Self)
        ensures
            *b == (Builder { initial_target_connection_window_size: Some(size), ..*old(self) }),
            *final(self) == *final(b),
    {
        self.initial_target_connection_window_size = Some(size);
        self
    }

    /// Sets the largest payload that is accepted.
    pub fn max_frame_size(&mut self, max: u32) -> (b: &mut Self)
        requires
            DEFAULT_MAX_FRAME_SIZE <= max <= MAX_MAX_FRAME_SIZE,
        ensures
            *b == (Builder {
                settings: Settings { max_frame_size: Some(max), ..old(self).settings },
                ..*old(self)
            }),
            *final(self) == *final(b),
    {
        self.settings.max_frame_size = Some(max);
        self
    }

    /// Sets the size of the header lists that are accepted.
    pub fn max_header_list_size(&mut self, max: u32) -> (b: &mut Self)
        ensures
            *b == (Builder {
                settings: Settings { max_header_list_size: Some(max), ..old(self).settings },
                ..*old(self)
            }),
            *final(self) == *final(b),
    {
        self.settings.max_header_list_size = Some(max);
        self
    }

    /// Sets the number of streams that the peer may have open at once.
    pub fn max_concurrent_streams(&mut self, max: u32) -> (b: &mut Self)
        ensures
            *b == (Builder {
                settings: Settings { max_concurrent_streams: Some(max), ..old(self).settings },
                ..*old(self)
            }),
            *final(self) == *final(b),
    {
        self.settings.max_concurrent_streams = Some(max);
        self
    }

    /// Allows or rules out streams that the server opens.
    pub fn enable_push(&mut self, enabled: bool) -> (b: &mut Self)
        ensures
            *b == (Builder {
                settings: Settings {
                    enable_push: Some(
                        if enabled {
                            1
                        } else {
                            0
                        },
                    ),
                    ..old(self).settings
                },
                ..*old(self)
            }),
            *final(self) == *final(b),
    {
        let value: u32 = if enabled {
            1
        } else {
            0
        };
        self.settings.enable_push = Some(value);
        self
    }

    /// Sets the size of the table for header compression.
    pub fn header_table_size(&mut self, size: u32) -> (b: &mut Self)
        ensures
            *b == (Builder {
                settings: Settings { header_table_size: Some(size), ..old(self).settings },
                ..*old(self)
            }),
            *final(self) == *final(b),
    {
        self.settings.header_table_size = Some(size);
        self
    }

    /// Sets the identifier of the first stream, which is odd.
    pub fn initial_stream_id(&mut self, stream_id: u32) -> (b: &mut Self)
        requires
            stream_id % 2 == 1,
            stream_id < 0x8000_0000,
        ensures
            *b == (Builder { stream_id: frame::StreamId { id: stream_id }, ..*old(self) }),
            *final(self) == *final(b),
    {
        self.stream_id = frame::StreamId::new(stream_id);
        self
    }

    /// Sets the most capacity that a stream shows.
    pub fn max_send_buffer_size(&mut self, max: usize) -> (b: &mut Self)
        requires
            max <= u32::MAX,
        ensures
            *b == (Builder { max_send_buffer_size: max, ..*old(self) }),
            *final(self) == *final(b),
    {
        self.max_send_buffer_size = max;
        self
    }
}

impl Default for Builder {
    fn default() -> (b: Builder)
        ensures
            b == default_builder(),
    {
        Builder::new()
    }
}

/// The codec that a connection starts with: the limits of this side are taken
/// over, and its settings are written.
pub open spec fn codec_started(settings: Settings) -> CodecView {
    let c = new_codec(DEFAULT_MAX_FRAME_SIZE as usize);
    let max_frame_size = match settings.max_frame_size {
        Some(n) => n as usize,
        None => c.read.max_frame_size,
    };
    let max_header_list_size = match settings.max_header_list_size {
        Some(n) => n as usize,
        None => c.read.max_header_list_size,
    };
    CodecView {
        read: FramedReadView {
            max_frame_size,
            max_header_list_size,
            max_continuations: max_continuations(max_header_list_size, max_frame_size),
            ..c.read
        },
        write: FramedWriteView { buf: settings.wire(), ..c.write },
        ..c
    }
}

/// A codec that the settings of this side are written to.
pub(crate) fn start_codec(settings: Settings) -> (codec: Codec)
    requires
        local_ok(settings),
    ensures
        codec.wf(),
        codec@ == codec_started(settings),
{
    let mut codec = Codec::new();
    match settings.max_frame_size {
        Some(max) => {
            codec.set_max_recv_frame_size(max as usize);
        },
        None => {},
    }
    match settings.max_header_list_size {
        Some(max) => {
            codec.set_max_recv_header_list_size(max as usize);
        },
        None => {},
    }
    let _ = codec.buffer(Frame::Settings(settings));
    assert(codec@.write.buf =~= settings.wire());
    codec
}

/// A client connection.
#[derive(Debug)]
pub struct Connection {
    pub(crate) inner: proto::Connection,
    pub(crate) exchanges: Vec<Exchange>,
    pub(crate) events: VecDeque<Event>,
    pub(crate) closed: bool,
    pub(crate) close_err: Option<Error>,
    pub(crate) preface_sent: bool,
}

/// What a client connection knows: the connection below it, the requests whose
/// responses are handed out, the events that are not handed out yet, whether the
/// connection has ended, the error that it ended with if that was not handed out
/// yet, and whether the preface was.
pub struct ConnectionView {
    pub inner: proto::ConnectionView,
    pub exchanges: Seq<Exchange>,
    pub events: Seq<EventView>,
    pub closed: bool,
    pub close_err: Option<ErrorView>,
    pub preface_sent: bool,
}

impl View for Connection {
    type V = ConnectionView;

    closed spec fn view(&self) -> ConnectionView {
        ConnectionView {
            inner: self.inner@,
            exchanges: self.exchanges@,
            events: events_view(self.events@),
            closed: self.closed,
            close_err: match self.close_err {
                Some(e) => Some(e@),
                None => None,
            },
            preface_sent: self.preface_sent,
        }
    }
}

/// A client connection with other streams.
pub open spec fn with_streams(v: ConnectionView, streams: StreamsView) -> ConnectionView {
    ConnectionView { inner: proto::ConnectionView { streams, ..v.inner }, ..v }
}

/// A client connection after it was driven: an end is noted with its error, and
/// is an event. Nothing moves any more after it.
pub open spec fn drive_of(v: ConnectionView) -> ConnectionView {
    if v.closed {
        v
    } else {
        let inner = driven(v.inner);
        if inner.streams.m.closed is None {
            ConnectionView { inner, ..v }
        } else {
            ConnectionView {
                inner,
                closed: true,
                close_err: match ending(inner.streams) {
                    Some(e) => Some(ErrorView::Proto(e)),
                    None => v.close_err,
                },
                events: v.events.push(EventView::GoAway),
                ..v
            }
        }
    }
}

/// What handing out a response as far as it goes gives: the streams after it,
/// the phase that it has come to, and the events.
#[verifier::opaque]
pub open spec fn exchange_pumped(c: StreamsView, x: Exchange) -> (
    StreamsView,
    Phase,
    Seq<EventView>,
) {
    match x.phase {
        Phase::Done => (c, Phase::Done, Seq::empty()),
        Phase::Body => body_pumped(c, x.id, Seq::empty()),
        Phase::Head => match response_of(c, x.id) {
            ResponsePollView::Pending => (c, Phase::Head, Seq::empty()),
            ResponsePollView::Failed(e) => (
                c,
                Phase::Done,
                seq![EventView::Body(x.id, BodyEventView::Reset(reason_of_error(e)))],
            ),
            ResponsePollView::Ready(response) => {
                let c = read_from(c, x.id);
                let end = at_end_of(c, x.id);
                let head = seq![EventView::Response(x.id, response, end)];
                if end {
                    (c, Phase::Done, head)
                } else {
                    body_pumped(c, x.id, head)
                }
            },
        },
    }
}

/// What handing out a body as far as it goes gives, behind `head`.
pub open spec fn body_pumped(c: StreamsView, id: frame::StreamId, head: Seq<EventView>) -> (
    StreamsView,
    Phase,
    Seq<EventView>,
) {
    let (after, events, done) = pumped(c, id);
    (
        after,
        if done {
            Phase::Done
        } else {
            Phase::Body
        },
        head + on_stream(id, events),
    )
}

/// A client connection after the responses from `i` on were handed out as far as
/// they go.
pub open spec fn pump_from(v: ConnectionView, i: nat) -> ConnectionView
    decreases v.exchanges.len() - i,
{
    if i >= v.exchanges.len() {
        v
    } else {
        let x = v.exchanges[i as int];
        let (streams, phase, events) = exchange_pumped(v.inner.streams, x);
        pump_from(
            ConnectionView {
                inner: proto::ConnectionView { streams, ..v.inner },
                exchanges: v.exchanges.update(i as int, Exchange { phase, ..x }),
                events: v.events + events,
                ..v
            },
            i + 1,
        )
    }
}

/// A client connection after the responses that were handed out were forgotten,
/// of those from `i` on.
pub open spec fn reap_from(v: ConnectionView, i: nat) -> ConnectionView
    decreases v.exchanges.len() - i,
{
    if i >= v.exchanges.len() {
        v
    } else {
        let x = v.exchanges[i as int];
        if x.phase == Phase::Done {
            reap_from(
                ConnectionView {
                    inner: proto::ConnectionView {
                        streams: forgotten(v.inner.streams, x.id),
                        ..v.inner
                    },
                    exchanges: v.exchanges.remove(i as int),
                    ..v
                },
                i,
            )
        } else {
            reap_from(v, i + 1)
        }
    }
}

/// A client connection after it was driven and every response was handed out as
/// far as it goes.
pub open spec fn pump_of(v: ConnectionView) -> ConnectionView {
    reap_from(pump_from(drive_of(v), 0), 0)
}

/// A client connection after an event was asked for, and the event.
pub open spec fn event_of(v: ConnectionView) -> (ConnectionView, Option<EventView>) {
    let v = if v.events.len() == 0 {
        pump_of(v)
    } else {
        v
    };
    if v.events.len() == 0 {
        (v, None)
    } else {
        (ConnectionView { events: v.events.skip(1), ..v }, Some(v.events[0]))
    }
}

/// A client connection after the error that it ended with was handed out.
pub open spec fn without_error(v: ConnectionView) -> ConnectionView {
    ConnectionView { close_err: None, ..v }
}

/// A client connection and the stream after a request was sent, or why it was
/// not.
pub open spec fn request_sent(v: ConnectionView, request: RequestView, end: bool) -> Result<
    (ConnectionView, frame::StreamId),
    UserError,
> {
    let c = v.inner.streams;
    let id = frame::StreamId { id: c.m.next_id };
    match open_fault(c.m) {
        Some(e) => Err(e),
        None => if !request.wf() {
            Err(UserError::MalformedHeaders)
        } else {
            match sent_request(id, request, request.protocol, end) {
                Err(e) => Err(e),
                Ok(f) => match request_queued(c, f.block, end, request.method == HEAD@) {
                    Err(e) => Err(e),
                    Ok((streams, id)) => Ok(
                        (
                            ConnectionView {
                                inner: proto::ConnectionView { streams, ..v.inner },
                                exchanges: v.exchanges.push(Exchange { id, phase: Phase::Head }),
                                ..v
                            },
                            id,
                        ),
                    ),
                },
            }
        },
    }
}

/// A client connection that is just made.
pub open spec fn is_new(v: ConnectionView, b: Builder) -> bool {
    let config = b.spec_config();
    let base = started(Side::Client, config);
    &&& v.inner.codec == codec_started(b.settings)
    &&& v.inner.streams == match b.initial_target_connection_window_size {
        Some(n) => StreamsView {
            m: proto::streams::Meter { recv_target: n, ..base.m },
            ..base
        },
        None => base,
    }
    &&& v.exchanges == Seq::<Exchange>::empty()
    &&& v.events == Seq::<EventView>::empty()
    &&& !v.closed
    &&& v.close_err is None
    &&& !v.preface_sent
}

impl Builder {
    /// What the connection below is made with.
    pub open spec fn spec_config(self) -> Config {
        Config {
            next_stream_id: self.stream_id,
            initial_max_send_streams: self.initial_max_send_streams,
            max_send_buffer_size: self.max_send_buffer_size,
            reset_stream_duration: self.reset_stream_duration,
            reset_stream_max: self.reset_stream_max,
            remote_reset_stream_max: self.pending_accept_reset_stream_max,
            local_error_reset_streams_max: self.local_max_error_reset_streams,
            settings: self.settings,
        }
    }

    /// Makes a connection. The preface and the settings of this side are the
    /// first bytes for the peer.
    pub fn handshake(&self) -> (c: Connection)
        requires
            self.wf(),
        ensures
            c.wf(),
            is_new(c@, *self),
    {
        Connection::new(*self)
    }
}

/// Makes a client connection with the usual values.
pub fn handshake() -> (c: Connection)
    ensures
        c.wf(),
        is_new(c@, default_builder()),
{
    Builder::new().handshake()
}

impl Connection {
    /// The connection below is in order.
    pub closed spec fn wf(self) -> bool {
        self.inner.wf()
    }

    /// What holds of a connection in order.
    pub proof fn lemma_wf(&self)
        requires
            self.wf(),
        ensures
            can_write(self@.inner),
            has_controls(self@.inner.streams),
            self@.inner.codec.read.wf(),
            self@.inner.codec.write.wf(),
            local_ok(self@.inner.streams.m.local),
    {
        self.inner.lemma_wf();
    }

    fn new(builder: Builder) -> (c: Connection)
        requires
            builder.wf(),
        ensures
            c.wf(),
            is_new(c@, builder),
    {
        // Create the codec and queue the initial SETTINGS frame, mirroring the
        // values the local endpoint advertises.
        let codec = start_codec(builder.settings);
        let config = Config {
            next_stream_id: builder.stream_id,
            initial_max_send_streams: builder.initial_max_send_streams,
            max_send_buffer_size: builder.max_send_buffer_size,
            reset_stream_duration: builder.reset_stream_duration,
            reset_stream_max: builder.reset_stream_max,
            remote_reset_stream_max: builder.pending_accept_reset_stream_max,
            local_error_reset_streams_max: builder.local_max_error_reset_streams,
            settings: builder.settings,
        };
        let inner = proto::Connection::new(Side::Client, codec, config);
        let mut conn = Connection {
            inner,
            exchanges: Vec::new(),
            events: VecDeque::new(),
            closed: false,
            close_err: None,
            preface_sent: false,
        };
        match builder.initial_target_connection_window_size {
            Some(size) => {
                conn.inner.set_target_window_size(size);
            },
            None => {},
        }
        assert(conn@.events =~= Seq::<EventView>::empty());
        conn
    }

    fn drive(&mut self)
        requires
            old(self).wf(),
        ensures
            final(self).wf(),
            final(self)@ == drive_of(old(self)@),
    {
        if self.closed {
            return ;
        }
        match self.inner.poll() {
            ConnectionPoll::Pending => {},
            ConnectionPoll::Done => {
                self.closed = true;
                self.events.push_back(Event::GoAway);
                assert(self@.events =~= old(self)@.events.push(EventView::GoAway));
            },
            ConnectionPoll::Failed(e) => {
                self.closed = true;
                self.close_err = Some(Error::Proto(e));
                self.events.push_back(Event::GoAway);
                assert(self@.events =~= old(self)@.events.push(EventView::GoAway));
            },
        }
    }

    fn take_closed_err(&mut self) -> (r: Result<(), Error>)
        requires
            old(self).wf(),
        ensures
            final(self).wf(),
            final(self)@ == without_error(old(self)@),
            match old(self)@.close_err {
                Some(e) => r matches Err(err) && err@ == e,
                None => r is Ok,
            },
    {
        match self.close_err.take() {
            Some(e) => Err(e),
            None => Ok(()),
        }
    }

    /// Asks for capacity on a stream.
    pub(crate) fn stream_reserve(&mut self, id: frame::StreamId, capacity: u32)
        requires
            old(self).wf(),
        ensures
            final(self).wf(),
            final(self)@ == with_streams(
                old(self)@,
                capacity_reserved(old(self)@.inner.streams, id, capacity),
            ),
    {
        self.inner.reserve_capacity(id, capacity);
    }

    /// The capacity that a stream can be sent on right away.
    pub(crate) fn stream_capacity(&self, id: frame::StreamId) -> (n: usize)
        ensures
            n == stream_capacity(self@.inner.streams, id),
    {
        self.inner.capacity(id)
    }

    /// Sends a part of a body.
    pub(crate) fn stream_send_data(&mut self, id: frame::StreamId, data: Bytes, end: bool) -> (r:
        Result<(), Error>)
        requires
            old(self).wf(),
        ensures
            final(self).wf(),
            match data_sent(old(self)@.inner.streams, id, payload(data), end) {
                Ok(streams) => r is Ok && final(self)@ == with_streams(old(self)@, streams),
                Err(e) => {
                    &&& r matches Err(err) && err@ == ErrorView::User(e)
                    &&& final(self)@ == old(self)@
                },
            },
    {
        match self.inner.send_data(id, data, end) {
            Ok(()) => Ok(()),
            Err(e) => Err(Error::User(e)),
        }
    }

    /// Sends trailers.
    pub(crate) fn stream_send_trailers(&mut self, id: frame::StreamId, trailers: Vec<Field>) -> (r:
        Result<(), Error>)
        requires
            old(self).wf(),
        ensures
            final(self).wf(),
            match trailers_sent(old(self)@.inner.streams, id, fields_view(trailers@)) {
                Ok(streams) => r is Ok && final(self)@ == with_streams(old(self)@, streams),
                Err(e) => {
                    &&& r matches Err(err) && err@ == ErrorView::User(e)
                    &&& final(self)@ == old(self)@
                },
            },
    {
        match self.inner.send_trailers(id, trailers) {
            Ok(()) => Ok(()),
            Err(e) => Err(Error::User(e)),
        }
    }

    /// Gives up an exchange.
    pub(crate) fn stream_reset(&mut self, id: frame::StreamId, reason: Reason)
        requires
            old(self).wf(),
        ensures
            final(self).wf(),
            final(self)@ == with_streams(
                old(self)@,
                given_up(old(self)@.inner.streams, id, reason),
            ),
    {
        self.inner.reset(id, reason);
    }

    /// Lets go of a stream.
    pub(crate) fn stream_let_go(&mut self, id: frame::StreamId)
        requires
            old(self).wf(),
        ensures
            final(self).wf(),
            final(self)@ == with_streams(old(self)@, let_go(old(self)@.inner.streams, id)),
    {
        self.inner.let_go(id);
    }

    fn push_event(&mut self, e: Event)
        requires
            old(self).wf(),
        ensures
            final(self).wf(),
            final(self)@ == (ConnectionView { events: old(self)@.events.push(e@), ..old(self)@ }),
    {
        let ghost v = e@;
        self.events.push_back(e);
        assert(self@.events =~= old(self)@.events.push(v));
    }

    fn pump_body(&mut self, id: frame::StreamId) -> (phase: Phase)
        requires
            old(self).wf(),
        ensures
            final(self).wf(),
            ({
                let (streams, to, events) = body_pumped(old(self)@.inner.streams, id, Seq::empty());
                &&& phase == to
                &&& final(self)@ == (ConnectionView {
                    events: old(self)@.events + events,
                    ..with_streams(old(self)@, streams)
                })
            }),
    {
        let mut events: VecDeque<BodyEvent> = VecDeque::new();
        assert(body_events(events@) =~= Seq::<BodyEventView>::empty());
        let done = self.inner.pump_body(id, &mut events);
        let ghost all = pumped(old(self)@.inner.streams, id).1;
        let ghost prior = self@.events;
        let stream_id = StreamId::from_internal(id);
        assert(body_events(events@) =~= all);
        assert(all.skip(0) =~= all);
        assert(on_stream(id, all.take(0)) =~= Seq::<EventView>::empty());
        assert(prior + Seq::<EventView>::empty() =~= prior);
        let ghost base = self@;
        while events.len() > 0
            invariant
                self.wf(),
                crate::share::internal(stream_id) == id,
                events@.len() <= all.len(),
                body_events(events@) == all.skip(all.len() - events@.len()),
                self@ == (ConnectionView {
                    events: prior + on_stream(id, all.take(all.len() - events@.len())),
                    ..base
                }),
            decreases events@.len(),
        {
            let ghost before = events@;
            let ghost k = all.len() - events@.len();
            let ghost shown = self@.events;
            match events.pop_front() {
                None => {},
                Some(e) => {
                    proof {
                        assert(events@ =~= before.skip(1));
                        assert(body_events(events@) =~= body_events(before).skip(1));
                        assert(all.skip(k).skip(1) =~= all.skip(k + 1));
                        assert(e@ == all.skip(k)[0]);
                        assert(on_stream(id, all.take(k + 1)) =~= on_stream(id, all.take(k)).push(
                            EventView::Body(id, all[k]),
                        ));
                        assert(prior + on_stream(id, all.take(k + 1)) =~= shown.push(
                            EventView::Body(id, all[k]),
                        ));
                    }
                    let event = match e {
                        BodyEvent::Data(data) => Event::Data { stream_id, data },
                        BodyEvent::Trailers(trailers) => Event::Trailers { stream_id, trailers },
                        BodyEvent::End => Event::StreamEnd { stream_id },
                        BodyEvent::Reset(reason) => Event::Reset { stream_id, reason },
                    };
                    self.push_event(event);
                },
            }
        }
        assert(all.take(all.len() as int) =~= all);
        assert(Seq::<EventView>::empty() + on_stream(id, all) =~= on_stream(id, all));
        if done {
            Phase::Done
        } else {
            Phase::Body
        }
    }

    fn pump_exchange(&mut self, x: Exchange) -> (phase: Phase)
        requires
            old(self).wf(),
        ensures
            final(self).wf(),
            ({
                let (streams, to, events) = exchange_pumped(old(self)@.inner.streams, x);
                &&& phase == to
                &&& final(self)@ == (ConnectionView {
                    events: old(self)@.events + events,
                    ..with_streams(old(self)@, streams)
                })
            }),
    {
        reveal(exchange_pumped);
        let ghost before = self@;
        let stream_id = StreamId::from_internal(x.id);
        match x.phase {
            Phase::Done => {
                assert(before.events + Seq::<EventView>::empty() =~= before.events);
                Phase::Done
            },
            Phase::Body => self.pump_body(x.id),
            Phase::Head => match self.inner.poll_response(x.id) {
                ResponsePoll::Pending => {
                    assert(before.events + Seq::<EventView>::empty() =~= before.events);
                    Phase::Head
                },
                ResponsePoll::Failed(e) => {
                    let reason = error_reason(&e);
                    self.push_event(Event::Reset { stream_id, reason });
                    assert(self@.events =~= before.events + seq![
                        EventView::Body(x.id, BodyEventView::Reset(reason)),
                    ]);
                    Phase::Done
                },
                ResponsePoll::Ready(response) => {
                    let ghost view = response@;
                    let end = self.inner.is_end_stream(x.id);
                    self.push_event(Event::Response { stream_id, response, end_stream: end });
                    let ghost head = seq![EventView::Response(x.id, view, end)];
                    assert(self@.events =~= before.events + head);
                    if end {
                        return Phase::Done;
                    }
                    let ghost c = self@.inner.streams;
                    let phase = self.pump_body(x.id);
                    proof {
                        let events = on_stream(x.id, pumped(c, x.id).1);
                        assert(Seq::<EventView>::empty() + events =~= events);
                        assert(before.events + head + events =~= before.events + (head + events));
                    }
                    phase
                },
            },
        }
    }

    fn reap(&mut self)
        requires
            old(self).wf(),
        ensures
            final(self).wf(),
            final(self)@ == reap_from(old(self)@, 0),
    {
        let mut i: usize = 0;
        while i < self.exchanges.len()
            invariant
                i <= self.exchanges@.len(),
                self.wf(),
                reap_from(self@, i as nat) == reap_from(old(self)@, 0),
            decreases self.exchanges.len() - i,
        {
            let x = self.exchanges[i];
            if x.phase == Phase::Done {
                self.inner.forget(x.id);
                let _ = self.exchanges.remove(i);
            } else {
                i = i + 1;
            }
        }
    }

    fn pump(&mut self)
        requires
            old(self).wf(),
        ensures
            final(self).wf(),
            final(self)@ == pump_of(old(self)@),
    {
        self.drive();
        let ghost start = self@;
        let mut i: usize = 0;
        while i < self.exchanges.len()
            invariant
                i <= self.exchanges@.len(),
                self.wf(),
                pump_from(self@, i as nat) == pump_from(start, 0),
            decreases self.exchanges.len() - i,
        {
            let x = self.exchanges[i];
            let phase = self.pump_exchange(x);
            self.exchanges.set(i, Exchange { id: x.id, phase });
            i = i + 1;
        }
        // Drop finished streams so their state can be reclaimed.
        self.reap();
    }

    /// Sends a request. If `end_stream` is set, it has no body. The
    /// identifier of its stream is handed out, and a handle for the body. A request
    /// that there cannot be is refused.
    pub fn send_request(&mut self, request: Request, end_stream: bool) -> (r: Result<
        (StreamId, SendStream),
        Error,
    >)
        requires
            old(self).wf(),
        ensures
            final(self).wf(),
            match request_sent(old(self)@, request@, end_stream) {
                Ok((after, id)) => {
                    &&& r matches Ok((stream_id, send)) && crate::share::internal(stream_id) == id
                        && send.stream() == id
                    &&& final(self)@ == after
                },
                Err(e) => {
                    &&& r matches Err(err) && err@ == ErrorView::User(e)
                    &&& final(self)@ == old(self)@
                },
            },
            final(self)@ == after(old(self)@, Call::SendRequest(request@, end_stream)),
            opened(old(self)@, Call::SendRequest(request@, end_stream)) == match r {
                Ok((stream_id, _)) => seq![crate::share::internal(stream_id)],
                Err(_) => Seq::empty(),
            },
    {
        reveal(after);
        reveal(opened);
        match self.inner.open_fault() {
            Some(e) => {
                return Err(Error::User(e));
            },
            None => {},
        }
        if !request.is_valid() {
            return Err(Error::User(UserError::MalformedHeaders));
        }
        let id = self.inner.next_stream_id();
        let head = same_bytes(request.method.as_slice(), HEAD.as_slice());
        let protocol = crate::message::copy_text(&request.protocol);
        let frame = match Peer::convert_send_message(id, request, protocol, end_stream) {
            Ok(frame) => frame,
            Err(e) => {
                return Err(Error::User(e));
            },
        };
        match self.inner.queue_request(frame.header_block, end_stream, head) {
            Ok(id) => {
                self.exchanges.push(Exchange { id, phase: Phase::Head });
                Ok((StreamId::from_internal(id), SendStream::new(id)))
            },
            Err(e) => Err(Error::User(e)),
        }
    }

    /// Takes bytes from the peer. An error that ended the connection is handed
    /// out once.
    pub fn recv(&mut self, src: &[u8]) -> (r: Result<(), Error>)
        requires
            old(self).wf(),
        ensures
            final(self).wf(),
            ({
                let v = drive_of(
                    ConnectionView {
                        inner: received(old(self)@.inner, src@),
                        ..old(self)@
                    },
                );
                &&& final(self)@ == without_error(v)
                &&& match v.close_err {
                    Some(e) => r matches Err(err) && err@ == e,
                    None => r is Ok,
                }
            }),
            final(self)@ == after(old(self)@, Call::Recv(src@)),
            fails(old(self)@, Call::Recv(src@)) == if r is Err {
                1nat
            } else {
                0
            },
    {
        reveal(after);
        reveal(fails);
        self.inner.recv_bytes(src);
        self.drive();
        self.take_closed_err()
    }

    /// Hands out the bytes for the peer, behind what `dst` holds, and says how
    /// many they are. The first of them are the preface.
    pub fn poll_transmit(&mut self, dst: &mut BytesMut) -> (n: usize)
        requires
            old(self).wf(),
        ensures
            final(self).wf(),
            ({
                let v = drive_of(ConnectionView { preface_sent: true, ..old(self)@ });
                let preface = if old(self)@.preface_sent {
                    Seq::empty()
                } else {
                    PREFACE@
                };
                let sent = preface + v.inner.codec.transmit();
                &&& final(self)@ == (ConnectionView {
                    inner: proto::ConnectionView { codec: v.inner.codec.sent(), ..v.inner },
                    ..v
                })
                &&& contents(*final(dst)) == contents(*old(dst)) + sent
                &&& n == sent.len()
            }),
            final(self)@ == after(old(self)@, Call::PollTransmit),
            contents(*final(dst)) == contents(*old(dst)) + handed_out(
                old(self)@,
                Call::PollTransmit,
            ),
    {
        reveal(after);
        reveal(handed_out);
        let mut n: usize = 0;
        let ghost start = contents(*dst);
        let ghost preface = if self@.preface_sent {
            Seq::empty()
        } else {
            PREFACE@
        };
        if !self.preface_sent {
            dst.extend_from_slice(PREFACE.as_slice());
            n = 24;
            self.preface_sent = true;
        }
        assert(contents(*dst) =~= start + preface);
        self.drive();
        let ghost rest = self@.inner.codec.transmit();
        assert(start + preface + rest =~= start + (preface + rest));
        let m: usize = self.inner.poll_transmit(dst);
        // What a buffer holds has a length that fits.
        let total: usize = dst.len();
        assert(n + m <= total);
        n + m
    }

    /// Hands out the next event, if there is one.
    pub fn poll_event(&mut self) -> (r: Option<Event>)
        requires
            old(self).wf(),
        ensures
            final(self).wf(),
            event_of(old(self)@) == (
                final(self)@,
                match r {
                    Some(e) => Some(e@),
                    None => None,
                },
            ),
            final(self)@ == after(old(self)@, Call::PollEvent),
            told(old(self)@, Call::PollEvent) == match r {
                Some(e) => seq![e@],
                None => Seq::empty(),
            },
    {
        reveal(after);
        reveal(told);
        if self.events.len() == 0 {
            assert(self@.events.len() == 0);
            self.pump();
        }
        let ghost before = self@;
        let r = self.events.pop_front();
        proof {
            if r is Some {
                assert(self@.events =~= before.events.skip(1));
            } else {
                assert(self@.events =~= before.events);
            }
        }
        r
    }

    /// Tells the connection what time it is, in milliseconds since some fixed moment.
    /// Streams that were reset long enough ago are forgotten. Time does not go back.
    pub fn set_time(&mut self, now: u64)
        requires
            old(self).wf(),
        ensures
            final(self).wf(),
            final(self)@ == with_streams(old(self)@, time_told(old(self)@.inner.streams, now)),
            final(self)@ == after(old(self)@, Call::SetTime(now)),
    {
        reveal(after);
        self.inner.set_time(now);
    }

    /// Whether the connection has ended.
    pub fn is_closed(&self) -> (r: bool)
        ensures
            r == self@.closed,
    {
        self.closed
    }

    /// Sets the size that the receive window of the connection is meant to have.
    pub fn set_target_window_size(&mut self, size: u32)
        requires
            old(self).wf(),
            size <= MAX_WINDOW_SIZE,
        ensures
            final(self).wf(),
            final(self)@ == (ConnectionView {
                inner: with_target(old(self)@.inner, size),
                ..old(self)@
            }),
            final(self)@ == after(old(self)@, Call::SetTargetWindowSize(size)),
    {
        reveal(after);
        self.inner.set_target_window_size(size);
    }

    /// Takes leave: the peer is told with a GOAWAY frame, no more requests can
    /// be sent, and the connection ends once those that were are done.
    pub fn go_away(&mut self, reason: Reason)
        requires
            old(self).wf(),
        ensures
            final(self).wf(),
            final(self)@ == with_streams(
                old(self)@,
                leave_taken(old(self)@.inner.streams, reason),
            ),
            final(self)@ == after(old(self)@, Call::GoAway(reason)),
    {
        reveal(after);
        self.inner.go_away(reason);
    }
}

} // verus!
