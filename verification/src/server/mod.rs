//! The server.
//!
//! A connection is a state machine that does no I/O. Bytes from the peer go in
//! with [`Connection::recv`], bytes for the peer come out with
//! [`Connection::poll_transmit`], and what happened comes out with
//! [`Connection::poll_event`]. Responses are sent with
//! [`Connection::send_response`], [`Connection::send_data`] and
//! [`Connection::send_trailers`].

pub mod laws;
pub mod peer;
pub mod run;

pub use self::peer::Peer;

use crate::buf::{contents, payload};
use crate::client::{codec_started, start_codec};
use crate::codec::error::UserError;
use crate::error::{Error, ErrorView};
use crate::frame;
use crate::frame::settings::no_settings;
use crate::frame::{Reason, Settings, DEFAULT_MAX_FRAME_SIZE, MAX_MAX_FRAME_SIZE};
use crate::hpack::field::{fields_view, Field};
use crate::message::{Request, RequestView, Response};
use crate::names::PREFACE;
use crate::proto;
use crate::proto::connection::{driven, ending, received, started, with_target};
use crate::proto::control::leave_asked;
use crate::proto::delivery::can_write;
use crate::proto::error::go_away_error;
use crate::proto::output::has_controls;
use crate::proto::pump::{accepted, at_end_of, body_events, pumped, BodyEvent, BodyEventView};
use crate::proto::stream::MAX_WINDOW_SIZE;
use crate::proto::streams::{local_ok, Side, StreamsView};
use crate::proto::user::{
    data_sent, forgotten, given_up, response_queued, time_told, stream_capacity, trailers_sent,
};
use crate::proto::{Config, ConnectionPoll};
use crate::server::peer::sent_response;
use crate::server::run::{after, handed_out, told, Call};
use crate::share::{internal, StreamId};
use crate::wire::same_bytes;
use bytes::{Bytes, BytesMut};
use std::collections::VecDeque;
use vstd::prelude::*;
use vstd::slice::slice_subrange;

verus! {

/// Something that happened on a connection.
#[derive(Debug)]
pub enum Event {
    /// The head of a request was received. Its stream is the one to answer on.
    Request { stream_id: StreamId, request: Request, end_stream: bool },
    /// A part of the body of a request was received. Its flow-control capacity
    /// is released.
    Data { stream_id: StreamId, data: Bytes },
    /// Trailers were received, with which the request ends.
    Trailers { stream_id: StreamId, trailers: Vec<Field> },
    /// The request ended without trailers.
    StreamEnd { stream_id: StreamId },
    /// The stream was reset, by the peer or here.
    Reset { stream_id: StreamId, reason: Reason },
    /// The connection has ended.
    GoAway,
}

/// Something that happened on a connection.
#[verifier::ext_equal]
pub enum EventView {
    Request(frame::StreamId, RequestView, bool),
    Body(frame::StreamId, BodyEventView),
    GoAway,
}

impl View for Event {
    type V = EventView;

    open spec fn view(&self) -> EventView {
        match self {
            Event::Request { stream_id, request, end_stream } => EventView::Request(
                internal(*stream_id),
                request@,
                *end_stream,
            ),
            Event::Data { stream_id, data } => EventView::Body(
                internal(*stream_id),
                BodyEventView::Data(payload(*data)),
            ),
            Event::Trailers { stream_id, trailers } => EventView::Body(
                internal(*stream_id),
                BodyEventView::Trailers(fields_view(trailers@)),
            ),
            Event::StreamEnd { stream_id } => EventView::Body(
                internal(*stream_id),
                BodyEventView::End,
            ),
            Event::Reset { stream_id, reason } => EventView::Body(
                internal(*stream_id),
                BodyEventView::Reset(*reason),
            ),
            Event::GoAway => EventView::GoAway,
        }
    }
}

/// The views of a run of events.
pub open spec fn events_view(s: Seq<Event>) -> Seq<EventView> {
    s.map_values(|e: Event| e@)
}

/// What happened on a stream, as things that happened on a connection.
pub open spec fn on_stream(id: frame::StreamId, events: Seq<BodyEventView>) -> Seq<EventView> {
    events.map_values(|e: BodyEventView| EventView::Body(id, e))
}

/// How far a request was handed out.
#[derive(Clone, Copy, Debug, PartialEq, Eq, Structural)]
pub enum Phase {
    /// The body is handed out.
    Body,
    /// All of it was handed out.
    Done,
}

/// A request that is handed out and answered.
#[derive(Clone, Copy, Debug, PartialEq, Eq, Structural)]
pub struct Exchange {
    pub id: frame::StreamId,
    pub phase: Phase,
    /// All of the answer was given.
    pub send_done: bool,
}

/// What a server connection is made with.
#[derive(Clone, Copy, Debug, PartialEq, Eq, Structural)]
pub struct Builder {
    /// The number of reset streams that are remembered.
    pub reset_stream_max: usize,
    /// The time for which they are, in milliseconds.
    pub reset_stream_duration: u64,
    /// The number of resets of requests that wait to be accepted.
    pub pending_accept_reset_stream_max: usize,
    /// The size that the receive window of the connection is meant to have.
    pub initial_target_connection_window_size: Option<u32>,
    /// The most capacity that a stream shows.
    pub max_send_buffer_size: usize,
    /// The settings of this side.
    pub settings: Settings,
    /// The number of resets that errors of the peer may make necessary.
    pub local_max_error_reset_streams: Option<usize>,
}

/// The usual values.
pub open spec fn default_builder() -> Builder {
    Builder {
        reset_stream_max: proto::DEFAULT_RESET_STREAM_MAX,
        reset_stream_duration: proto::DEFAULT_RESET_STREAM_MILLIS,
        pending_accept_reset_stream_max: proto::DEFAULT_REMOTE_RESET_STREAM_MAX,
        initial_target_connection_window_size: None,
        max_send_buffer_size: proto::DEFAULT_MAX_SEND_BUFFER_SIZE,
        settings: no_settings(),
        local_max_error_reset_streams: Some(proto::DEFAULT_LOCAL_RESET_COUNT_MAX),
    }
}

impl Builder {
    /// A connection can be made: the window of the connection is in its range,
    /// and so is the largest payload.
    pub open spec fn wf(self) -> bool {
        &&& self.initial_target_connection_window_size matches Some(n) ==> n <= MAX_WINDOW_SIZE
        &&& local_ok(self.settings)
    }

    /// The usual values.
    pub fn new() -> (b: Builder)
        ensures
            b.wf(),
            b == default_builder(),
    {
        Builder {
            reset_stream_max: proto::DEFAULT_RESET_STREAM_MAX,
            reset_stream_duration: proto::DEFAULT_RESET_STREAM_MILLIS,
            pending_accept_reset_stream_max: proto::DEFAULT_REMOTE_RESET_STREAM_MAX,
            initial_target_connection_window_size: None,
            max_send_buffer_size: proto::DEFAULT_MAX_SEND_BUFFER_SIZE,
            settings: Settings::new(),
            local_max_error_reset_streams: Some(proto::DEFAULT_LOCAL_RESET_COUNT_MAX),
        }
    }

    /// Sets the window that streams start with for received data.
    pub fn initial_window_size(&mut self, size: u32) -> (b: &mut Self)
        ensures
            *b == (Builder {
                settings: Settings { initial_window_size: Some(size), ..old(self).settings },
                ..*old(self)
            }),
            *final(self) == *final(b),
    {
        self.settings.initial_window_size = Some(size);
        self
    }

    /// Sets the window that the connection starts with for received data.
    pub fn initial_connection_window_size(&mut self, size: u32) -> (b: &mut Self)
        ensures
            *b == (Builder { initial_target_connection_window_size: Some(size), ..*old(self) }),
            *final(self) == *final(b),
    {
        self.initial_target_connection_window_size = Some(size);
        self
    }

    /// Sets the largest payload that is accepted.
    pub fn max_frame_size(&mut self, max: u32) -> (b: &mut Self)
        requires
            DEFAULT_MAX_FRAME_SIZE <= max <= MAX_MAX_FRAME_SIZE,
        ensures
            *b == (Builder {
                settings: Settings { max_frame_size: Some(max), ..old(self).settings },
                ..*old(self)
            }),
            *final(self) == *final(b),
    {
        self.settings.max_frame_size = Some(max);
        self
    }

    /// Sets the size of the header lists that are accepted.
    pub fn max_header_list_size(&mut self, max: u32) -> (b: &mut Self)
        ensures
            *b == (Builder {
                settings: Settings { max_header_list_size: Some(max), ..old(self).settings },
                ..*old(self)
            }),
            *final(self) == *final(b),
    {
        self.settings.max_header_list_size = Some(max);
        self
    }

    /// Sets the number of streams that the peer may have open at once.
    pub fn max_concurrent_streams(&mut self, max: u32) -> (b: &mut Self)
        ensures
            *b == (Builder {
                settings: Settings { max_concurrent_streams: Some(max), ..old(self).settings },
                ..*old(self)
            }),
            *final(self) == *final(b),
    {
        self.settings.max_concurrent_streams = Some(max);
        self
    }

    /// Sets the size of the table for header compression.
    pub fn header_table_size(&mut self, size: u32) -> (b: &mut Self)
        ensures
            *b == (Builder {
                settings: Settings { header_table_size: Some(size), ..old(self).settings },
                ..*old(self)
            }),
            *final(self) == *final(b),
    {
        self.settings.header_table_size = Some(size);
        self
    }

    /// Sets the number of resets of requests that wait to be accepted.
    pub fn max_pending_accept_reset_streams(&mut self, max: usize) -> (b: &mut Self)
        ensures
            *b == (Builder { pending_accept_reset_stream_max: max, ..*old(self) }),
            *final(self) == *final(b),
    {
        self.pending_accept_reset_stream_max = max;
        self
    }

    /// What the connection below is made with.
    pub open spec fn spec_config(self) -> Config {
        Config {
            next_stream_id: frame::StreamId { id: 2 },
            initial_max_send_streams: 0,
            max_send_buffer_size: self.max_send_buffer_size,
            reset_stream_duration: self.reset_stream_duration,
            reset_stream_max: self.reset_stream_max,
            remote_reset_stream_max: self.pending_accept_reset_stream_max,
            local_error_reset_streams_max: self.local_max_error_reset_streams,
            settings: self.settings,
        }
    }

    /// Makes a connection. The settings of this side are the first bytes for the
    /// peer.
    pub fn handshake(&self) -> (c: Connection)
        requires
            self.wf(),
        ensures
            c.wf(),
            is_new(c@, *self),
    {
        Connection::new(*self)
    }
}

impl Default for Builder {
    fn default() -> (b: Builder)
        ensures
            b == default_builder(),
    {
        Builder::new()
    }
}

/// Makes a server connection with the usual values.
pub fn handshake() -> (c: Connection)
    ensures
        c.wf(),
        is_new(c@, default_builder()),
{
    Builder::new().handshake()
}

/// A server connection.
#[derive(Debug)]
pub struct Connection {
    inner: proto::Connection,
    exchanges: Vec<Exchange>,
    events: VecDeque<Event>,
    closed: bool,
    close_err: Option<Error>,
    preface_pos: usize,
}

/// What a server connection knows: the connection below it, the requests that are
/// handed out and answered, the events that are not handed out yet, whether the
/// connection has ended, the error that it ended with if that was not handed out
/// yet, and how much of the preface has come in.
pub struct ConnectionView {
    pub inner: proto::ConnectionView,
    pub exchanges: Seq<Exchange>,
    pub events: Seq<EventView>,
    pub closed: bool,
    pub close_err: Option<ErrorView>,
    pub preface_pos: int,
}

impl View for Connection {
    type V = ConnectionView;

    closed spec fn view(&self) -> ConnectionView {
        ConnectionView {
            inner: self.inner@,
            exchanges: self.exchanges@,
            events: events_view(self.events@),
            closed: self.closed,
            close_err: match self.close_err {
                Some(e) => Some(e@),
                None => None,
            },
            preface_pos: self.preface_pos as int,
        }
    }
}

/// A server connection that is just made.
pub open spec fn is_new(v: ConnectionView, b: Builder) -> bool {
    let base = started(Side::Server, b.spec_config());
    &&& v.inner.codec == codec_started(b.settings)
    &&& v.inner.streams == match b.initial_target_connection_window_size {
        Some(n) => StreamsView {
            m: proto::streams::Meter { recv_target: n, ..base.m },
            ..base
        },
        None => base,
    }
    &&& v.exchanges == Seq::<Exchange>::empty()
    &&& v.events == Seq::<EventView>::empty()
    &&& !v.closed
    &&& v.close_err is None
    &&& v.preface_pos == 0
}

/// A server connection with other streams.
pub open spec fn with_streams(v: ConnectionView, streams: StreamsView) -> ConnectionView {
    ConnectionView { inner: proto::ConnectionView { streams, ..v.inner }, ..v }
}

/// A server connection after it was driven: an end is noted with its error, and
/// is an event. Nothing moves any more after it.
pub open spec fn drive_of(v: ConnectionView) -> ConnectionView {
    if v.closed {
        v
    } else {
        let inner = driven(v.inner);
        if inner.streams.m.closed is None {
            ConnectionView { inner, ..v }
        } else {
            ConnectionView {
                inner,
                closed: true,
                close_err: match ending(inner.streams) {
                    Some(e) => Some(ErrorView::Proto(e)),
                    None => v.close_err,
                },
                events: v.events.push(EventView::GoAway),
                ..v
            }
        }
    }
}

/// A server connection after the error that it ended with was handed out.
pub open spec fn without_error(v: ConnectionView) -> ConnectionView {
    ConnectionView { close_err: None, ..v }
}

/// A server connection after bytes came in from the peer, the preface being taken
/// off; none where they are not what the preface goes on with.
pub open spec fn taken_in(v: ConnectionView, src: Seq<u8>) -> Option<ConnectionView> {
    let need = PREFACE@.len() - v.preface_pos;
    let take = if need < 0 {
        0
    } else if need < src.len() {
        need
    } else {
        src.len() as int
    };
    if src.take(take) != PREFACE@.subrange(v.preface_pos, v.preface_pos + take) {
        None
    } else {
        Some(
            ConnectionView {
                inner: received(v.inner, src.skip(take)),
                preface_pos: v.preface_pos + take,
                ..v
            },
        )
    }
}

/// A server connection after every request that waits was accepted.
pub open spec fn accept_all(v: ConnectionView) -> ConnectionView
    decreases v.inner.streams.accept.len(),
{
    let c = v.inner.streams;
    if c.accept.len() == 0 {
        v
    } else {
        let id = c.accept[0].id;
        let request = c.accept[0].request;
        let next = accepted(c);
        let end = at_end_of(next, id);
        let phase = if end {
            Phase::Done
        } else {
            Phase::Body
        };
        proof {
            reveal(accepted);
        }
        accept_all(
            ConnectionView {
                events: v.events.push(EventView::Request(id, request, end)),
                exchanges: v.exchanges.push(Exchange { id, phase, send_done: false }),
                ..with_streams(v, next)
            },
        )
    }
}

/// What handing out a request as far as it goes gives: the streams after it, the
/// phase that it has come to, and the events.
pub open spec fn exchange_pumped(c: StreamsView, x: Exchange) -> (
    StreamsView,
    Phase,
    Seq<EventView>,
) {
    if x.phase == Phase::Done {
        (c, Phase::Done, Seq::empty())
    } else {
        let (after, events, done) = pumped(c, x.id);
        (
            after,
            if done {
                Phase::Done
            } else {
                Phase::Body
            },
            on_stream(x.id, events),
        )
    }
}

/// A server connection after the requests from `i` on were handed out as far as
/// they go.
pub open spec fn pump_from(v: ConnectionView, i: nat) -> ConnectionView
    decreases v.exchanges.len() - i,
{
    if i >= v.exchanges.len() {
        v
    } else {
        let x = v.exchanges[i as int];
        let (streams, phase, events) = exchange_pumped(v.inner.streams, x);
        pump_from(
            ConnectionView {
                exchanges: v.exchanges.update(i as int, Exchange { phase, ..x }),
                events: v.events + events,
                ..with_streams(v, streams)
            },
            i + 1,
        )
    }
}

/// A server connection after the requests that were handed out and answered were
/// forgotten, of those from `i` on.
pub open spec fn reap_from(v: ConnectionView, i: nat) -> ConnectionView
    decreases v.exchanges.len() - i,
{
    if i >= v.exchanges.len() {
        v
    } else {
        let x = v.exchanges[i as int];
        if x.send_done && x.phase == Phase::Done {
            reap_from(
                ConnectionView {
                    exchanges: v.exchanges.remove(i as int),
                    ..with_streams(v, forgotten(v.inner.streams, x.id))
                },
                i,
            )
        } else {
            reap_from(v, i + 1)
        }
    }
}

/// A server connection after it was driven, every request that waits was accepted
/// and every request was handed out as far as it goes.
pub open spec fn pump_of(v: ConnectionView) -> ConnectionView {
    reap_from(pump_from(accept_all(drive_of(v)), 0), 0)
}

/// A server connection after an event was asked for, and the event.
pub open spec fn event_of(v: ConnectionView) -> (ConnectionView, Option<EventView>) {
    let v = if v.events.len() == 0 {
        pump_of(v)
    } else {
        v
    };
    if v.events.len() == 0 {
        (v, None)
    } else {
        (ConnectionView { events: v.events.skip(1), ..v }, Some(v.events[0]))
    }
}

/// The place of the exchange on a stream.
pub open spec fn exchange_at(exchanges: Seq<Exchange>, id: frame::StreamId) -> Option<int>
    decreases exchanges.len(),
{
    if exchanges.len() == 0 {
        None
    } else if exchanges[0].id == id {
        Some(0)
    } else {
        match exchange_at(exchanges.skip(1), id) {
            Some(i) => Some(i + 1),
            None => None,
        }
    }
}

/// A server connection after something was sent on a stream that has an exchange,
/// which made these streams of its streams, or why it was not sent. If the answer
/// ends with it, that is noted.
pub open spec fn answered(
    v: ConnectionView,
    id: frame::StreamId,
    sent: Result<StreamsView, UserError>,
    end: bool,
) -> Result<ConnectionView, UserError> {
    match exchange_at(v.exchanges, id) {
        None => Err(UserError::InactiveStreamId),
        Some(i) => match sent {
            Err(e) => Err(e),
            Ok(streams) => {
                let x = v.exchanges[i];
                let x = Exchange { send_done: x.send_done || end, ..x };
                Ok(
                    ConnectionView {
                        exchanges: v.exchanges.update(i, x),
                        ..with_streams(v, streams)
                    },
                )
            },
        },
    }
}

/// A server connection after a stream that has an exchange was reset.
pub open spec fn stream_reset(v: ConnectionView, id: frame::StreamId, reason: Reason) -> ConnectionView {
    let sent = Ok::<StreamsView, UserError>(given_up(v.inner.streams, id, reason));
    match answered(v, id, sent, true) {
        Ok(after) => after,
        Err(_) => v,
    }
}

impl Connection {
    /// The connection below is in order, and no more than the preface counts as
    /// preface.
    pub closed spec fn wf(self) -> bool {
        self.inner.wf() && self.preface_pos <= PREFACE@.len()
    }

    /// What holds of a connection in order.
    pub proof fn lemma_wf(&self)
        requires
            self.wf(),
        ensures
            can_write(self@.inner),
            has_controls(self@.inner.streams),
            self@.inner.codec.read.wf(),
            self@.inner.codec.write.wf(),
            local_ok(self@.inner.streams.m.local),
            0 <= self@.preface_pos <= PREFACE@.len(),
    {
        self.inner.lemma_wf();
    }

    fn new(builder: Builder) -> (c: Connection)
        requires
            builder.wf(),
        ensures
            c.wf(),
            is_new(c@, builder),
    {
        let codec = start_codec(builder.settings);
        let config = Config {
            next_stream_id: frame::StreamId::new(2),
            initial_max_send_streams: 0,
            max_send_buffer_size: builder.max_send_buffer_size,
            reset_stream_duration: builder.reset_stream_duration,
            reset_stream_max: builder.reset_stream_max,
            remote_reset_stream_max: builder.pending_accept_reset_stream_max,
            local_error_reset_streams_max: builder.local_max_error_reset_streams,
            settings: builder.settings,
        };
        let inner = proto::Connection::new(Side::Server, codec, config);
        let mut conn = Connection {
            inner,
            exchanges: Vec::new(),
            events: VecDeque::new(),
            closed: false,
            close_err: None,
            preface_pos: 0,
        };
        match builder.initial_target_connection_window_size {
            Some(size) => {
                conn.inner.set_target_window_size(size);
            },
            None => {},
        }
        assert(conn@.events =~= Seq::<EventView>::empty());
        conn
    }

    fn drive(&mut self)
        requires
            old(self).wf(),
        ensures
            final(self).wf(),
            final(self)@ == drive_of(old(self)@),
    {
        if self.closed {
            return ;
        }
        // A connection stays open while idle, waiting for the peer to open new
        // streams; it only closes on GOAWAY or on an error.
        match self.inner.poll() {
            ConnectionPoll::Pending => {},
            ConnectionPoll::Done => {
                self.closed = true;
                self.events.push_back(Event::GoAway);
                assert(self@.events =~= old(self)@.events.push(EventView::GoAway));
            },
            ConnectionPoll::Failed(e) => {
                self.closed = true;
                self.close_err = Some(Error::Proto(e));
                self.events.push_back(Event::GoAway);
                assert(self@.events =~= old(self)@.events.push(EventView::GoAway));
            },
        }
    }

    fn take_closed_err(&mut self) -> (r: Result<(), Error>)
        requires
            old(self).wf(),
        ensures
            final(self).wf(),
            final(self)@ == without_error(old(self)@),
            match old(self)@.close_err {
                Some(e) => r matches Err(err) && err@ == e,
                None => r is Ok,
            },
    {
        match self.close_err.take() {
            Some(e) => Err(e),
            None => Ok(()),
        }
    }

    /// Takes bytes from the peer. The preface is taken off before any frame is
    /// read; anything else in its place ends the connection. An error that ended
    /// the connection is handed out once.
    pub fn recv(&mut self, src: &[u8]) -> (r: Result<(), Error>)
        requires
            old(self).wf(),
        ensures
            final(self).wf(),
            match taken_in(old(self)@, src@) {
                None => {
                    &&& final(self)@ == (ConnectionView { closed: true, ..old(self)@ })
                    &&& r matches Err(err) && err@ == ErrorView::Proto(
                        go_away_error(Reason::PROTOCOL_ERROR),
                    )
                },
                Some(v) => {
                    &&& final(self)@ == without_error(drive_of(v))
                    &&& match drive_of(v).close_err {
                        Some(e) => r matches Err(err) && err@ == e,
                        None => r is Ok,
                    }
                },
            },
            final(self)@ == after(old(self)@, Call::Recv(src@)),
    {
        reveal(after);
        let need: usize = PREFACE.len() - self.preface_pos;
        let take: usize = if need < src.len() {
            need
        } else {
            src.len()
        };
        let start = slice_subrange(src, 0, take);
        let want = slice_subrange(PREFACE.as_slice(), self.preface_pos, self.preface_pos + take);
        assert(start@ =~= src@.take(take as int));
        if !same_bytes(start, want) {
            self.closed = true;
            return Err(
                Error::Proto(proto::Error::library_go_away(Reason::PROTOCOL_ERROR)),
            );
        }
        self.preface_pos = self.preface_pos + take;
        let rest = slice_subrange(src, take, src.len());
        assert(rest@ =~= src@.skip(take as int));
        self.inner.recv_bytes(rest);
        self.drive();
        self.take_closed_err()
    }

    /// Hands out the bytes for the peer, behind what `dst` holds, and says how
    /// many they are.
    pub fn poll_transmit(&mut self, dst: &mut BytesMut) -> (n: usize)
        requires
            old(self).wf(),
        ensures
            final(self).wf(),
            ({
                let v = drive_of(old(self)@);
                let sent = v.inner.codec.transmit();
                &&& final(self)@ == (ConnectionView {
                    inner: proto::ConnectionView { codec: v.inner.codec.sent(), ..v.inner },
                    ..v
                })
                &&& contents(*final(dst)) == contents(*old(dst)) + sent
                &&& n == sent.len()
            }),
            final(self)@ == after(old(self)@, Call::PollTransmit),
            contents(*final(dst)) == contents(*old(dst)) + handed_out(
                old(self)@,
                Call::PollTransmit,
            ),
    {
        reveal(after);
        reveal(handed_out);
        self.drive();
        self.inner.poll_transmit(dst)
    }

    fn push_event(&mut self, e: Event)
        requires
            old(self).wf(),
        ensures
            final(self).wf(),
            final(self)@ == (ConnectionView { events: old(self)@.events.push(e@), ..old(self)@ }),
    {
        let ghost v = e@;
        self.events.push_back(e);
        assert(self@.events =~= old(self)@.events.push(v));
    }

    fn accept_all(&mut self)
        requires
            old(self).wf(),
        ensures
            final(self).wf(),
            final(self)@ == accept_all(old(self)@),
    {
        let mut more = true;
        while more
            invariant
                self.wf(),
                more ==> accept_all(self@) == accept_all(old(self)@),
                !more ==> self@ == accept_all(old(self)@),
            decreases
                    self@.inner.streams.accept.len(),
                    if more {
                        1int
                    } else {
                        0
                    },
        {
            let ghost before = self@;
            match self.inner.next_incoming() {
                None => {
                    more = false;
                },
                Some(accept) => {
                    proof {
                        reveal(accepted);
                    }
                    let id = accept.id;
                    let end = self.inner.is_end_stream(id);
                    let phase = if end {
                        Phase::Done
                    } else {
                        Phase::Body
                    };
                    self.push_event(
                        Event::Request {
                            stream_id: StreamId::from_internal(id),
                            request: accept.request,
                            end_stream: end,
                        },
                    );
                    self.exchanges.push(Exchange { id, phase, send_done: false });
                },
            }
        }
    }

    fn pump_exchange(&mut self, x: Exchange) -> (phase: Phase)
        requires
            old(self).wf(),
        ensures
            final(self).wf(),
            ({
                let (streams, to, events) = exchange_pumped(old(self)@.inner.streams, x);
                &&& phase == to
                &&& final(self)@ == (ConnectionView {
                    events: old(self)@.events + events,
                    ..with_streams(old(self)@, streams)
                })
            }),
    {
        let id = x.id;
        let ghost prior = self@.events;
        assert(prior + Seq::<EventView>::empty() =~= prior);
        if x.phase == Phase::Done {
            return Phase::Done;
        }
        let mut events: VecDeque<BodyEvent> = VecDeque::new();
        assert(body_events(events@) =~= Seq::<BodyEventView>::empty());
        let done = self.inner.pump_body(id, &mut events);
        let ghost all = pumped(old(self)@.inner.streams, id).1;
        let stream_id = StreamId::from_internal(id);
        assert(body_events(events@) =~= all);
        assert(all.skip(0) =~= all);
        assert(on_stream(id, all.take(0)) =~= Seq::<EventView>::empty());
        let ghost base = self@;
        while events.len() > 0
            invariant
                self.wf(),
                internal(stream_id) == id,
                events@.len() <= all.len(),
                body_events(events@) == all.skip(all.len() - events@.len()),
                self@ == (ConnectionView {
                    events: prior + on_stream(id, all.take(all.len() - events@.len())),
                    ..base
                }),
            decreases events@.len(),
        {
            let ghost before = events@;
            let ghost k = all.len() - events@.len();
            let ghost shown = self@.events;
            match events.pop_front() {
                None => {},
                Some(e) => {
                    proof {
                        assert(events@ =~= before.skip(1));
                        assert(body_events(events@) =~= body_events(before).skip(1));
                        assert(all.skip(k).skip(1) =~= all.skip(k + 1));
                        assert(e@ == all.skip(k)[0]);
                        assert(on_stream(id, all.take(k + 1)) =~= on_stream(id, all.take(k)).push(
                            EventView::Body(id, all[k]),
                        ));
                        assert(prior + on_stream(id, all.take(k + 1)) =~= shown.push(
                            EventView::Body(id, all[k]),
                        ));
                    }
                    let event = match e {
                        BodyEvent::Data(data) => Event::Data { stream_id, data },
                        BodyEvent::Trailers(trailers) => Event::Trailers { stream_id, trailers },
                        BodyEvent::End => Event::StreamEnd { stream_id },
                        BodyEvent::Reset(reason) => Event::Reset { stream_id, reason },
                    };
                    self.push_event(event);
                },
            }
        }
        assert(all.take(all.len() as int) =~= all);
        if done {
            Phase::Done
        } else {
            Phase::Body
        }
    }

    fn reap(&mut self)
        requires
            old(self).wf(),
        ensures
            final(self).wf(),
            final(self)@ == reap_from(old(self)@, 0),
    {
        let mut i: usize = 0;
        while i < self.exchanges.len()
            invariant
                i <= self.exchanges@.len(),
                self.wf(),
                reap_from(self@, i as nat) == reap_from(old(self)@, 0),
            decreases self.exchanges.len() - i,
        {
            let x = self.exchanges[i];
            if x.send_done && x.phase == Phase::Done {
                self.inner.forget(x.id);
                let _ = self.exchanges.remove(i);
            } else {
                i = i + 1;
            }
        }
    }

    fn pump(&mut self)
        requires
            old(self).wf(),
        ensures
            final(self).wf(),
            final(self)@ == pump_of(old(self)@),
    {
        self.drive();
        // Accept any newly received requests.
        self.accept_all();
        let ghost start = self@;
        let mut i: usize = 0;
        while i < self.exchanges.len()
            invariant
                i <= self.exchanges@.len(),
                self.wf(),
                pump_from(self@, i as nat) == pump_from(start, 0),
            decreases self.exchanges.len() - i,
        {
            let x = self.exchanges[i];
            let phase = self.pump_exchange(x);
            self.exchanges.set(i, Exchange { id: x.id, phase, send_done: x.send_done });
            i = i + 1;
        }
        // Reclaim streams that are fully finished in both directions.
        self.reap();
    }

    /// Hands out the next event, if there is one.
    pub fn poll_event(&mut self) -> (r: Option<Event>)
        requires
            old(self).wf(),
        ensures
            final(self).wf(),
            event_of(old(self)@) == (
                final(self)@,
                match r {
                    Some(e) => Some(e@),
                    None => None,
                },
            ),
            final(self)@ == after(old(self)@, Call::PollEvent),
            told(old(self)@, Call::PollEvent) == match r {
                Some(e) => seq![e@],
                None => Seq::empty(),
            },
    {
        reveal(after);
        reveal(told);
        if self.events.len() == 0 {
            assert(self@.events.len() == 0);
            self.pump();
        }
        let ghost before = self@;
        let r = self.events.pop_front();
        proof {
            if r is Some {
                assert(self@.events =~= before.events.skip(1));
            } else {
                assert(self@.events =~= before.events);
            }
        }
        r
    }

    fn exchange_at(&self, id: frame::StreamId) -> (r: Option<usize>)
        ensures
            exchange_at(self@.exchanges, id) == match r {
                Some(i) => Some(i as int),
                None => None,
            },
            r matches Some(i) ==> i < self.exchanges@.len() && self.exchanges@[i as int].id == id,
    {
        let ghost all = self.exchanges@;
        let mut i: usize = 0;
        assert(all.skip(0) =~= all);
        while i < self.exchanges.len()
            invariant
                i <= self.exchanges@.len(),
                all == self.exchanges@,
                exchange_at(all, id) == match exchange_at(all.skip(i as int), id) {
                    Some(k) => Some(k + i),
                    None => None,
                },
            decreases self.exchanges.len() - i,
        {
            assert(all.skip(i as int)[0] == all[i as int]);
            assert(all.skip(i as int).skip(1) =~= all.skip(i + 1));
            if self.exchanges[i].id == id {
                return Some(i);
            }
            i = i + 1;
        }
        None
    }

    fn note_sent(&mut self, i: usize, end: bool)
        requires
            old(self).wf(),
            i < old(self)@.exchanges.len(),
        ensures
            final(self).wf(),
            ({
                let x = old(self)@.exchanges[i as int];
                final(self)@ == (ConnectionView {
                    exchanges: old(self)@.exchanges.update(
                        i as int,
                        Exchange { send_done: x.send_done || end, ..x },
                    ),
                    ..old(self)@
                })
            }),
    {
        let x = self.exchanges[i];
        let x = Exchange { id: x.id, phase: x.phase, send_done: x.send_done || end };
        self.exchanges.set(i, x);
    }

    /// Sends the head of a response. If `end_stream` is set, it has no body. A response
    /// that there cannot be is refused.
    pub fn send_response(&mut self, stream_id: StreamId, response: Response, end_stream: bool) -> (r:
        Result<(), Error>)
        requires
            old(self).wf(),
        ensures
            final(self).wf(),
            ({
                let id = internal(stream_id);
                let frame = sent_response(id, response@, end_stream);
                let sent = if response@.wf() {
                    response_queued(old(self)@.inner.streams, id, frame.block, end_stream)
                } else {
                    Err(UserError::MalformedHeaders)
                };
                match answered(old(self)@, id, sent, end_stream) {
                    Ok(after) => r is Ok && final(self)@ == after,
                    Err(e) => {
                        &&& r matches Err(err) && err@ == ErrorView::User(e)
                        &&& final(self)@ == old(self)@
                    },
                }
            }),
            final(self)@ == after(
                old(self)@,
                Call::SendResponse(internal(stream_id), response@, end_stream),
            ),
    {
        reveal(after);
        let id = frame::StreamId { id: stream_id.as_u32() };
        match self.exchange_at(id) {
            None => Err(Error::User(UserError::InactiveStreamId)),
            Some(i) => {
                if !response.is_valid() {
                    return Err(Error::User(UserError::MalformedHeaders));
                }
                let frame = Peer::convert_send_message(id, response, end_stream);
                match self.inner.queue_response(id, frame.header_block, end_stream) {
                    Ok(()) => {
                        self.note_sent(i, end_stream);
                        Ok(())
                    },
                    Err(e) => Err(Error::User(e)),
                }
            },
        }
    }

    /// Sends a part of the body of a response, with the word whether the response
    /// ends with it.
    pub fn send_data(&mut self, stream_id: StreamId, data: Bytes, end_stream: bool) -> (r: Result<
        (),
        Error,
    >)
        requires
            old(self).wf(),
        ensures
            final(self).wf(),
            ({
                let id = internal(stream_id);
                let sent = data_sent(old(self)@.inner.streams, id, payload(data), end_stream);
                match answered(old(self)@, id, sent, end_stream) {
                    Ok(after) => r is Ok && final(self)@ == after,
                    Err(e) => {
                        &&& r matches Err(err) && err@ == ErrorView::User(e)
                        &&& final(self)@ == old(self)@
                    },
                }
            }),
            final(self)@ == after(
                old(self)@,
                Call::SendData(internal(stream_id), payload(data), end_stream),
            ),
    {
        reveal(after);
        let id = frame::StreamId { id: stream_id.as_u32() };
        match self.exchange_at(id) {
            None => Err(Error::User(UserError::InactiveStreamId)),
            Some(i) => match self.inner.send_data(id, data, end_stream) {
                Ok(()) => {
                    self.note_sent(i, end_stream);
                    Ok(())
                },
                Err(e) => Err(Error::User(e)),
            },
        }
    }

    /// Sends trailers, with which the response ends.
    pub fn send_trailers(&mut self, stream_id: StreamId, trailers: Vec<Field>) -> (r: Result<
        (),
        Error,
    >)
        requires
            old(self).wf(),
        ensures
            final(self).wf(),
            ({
                let id = internal(stream_id);
                let sent = trailers_sent(old(self)@.inner.streams, id, fields_view(trailers@));
                match answered(old(self)@, id, sent, true) {
                    Ok(after) => r is Ok && final(self)@ == after,
                    Err(e) => {
                        &&& r matches Err(err) && err@ == ErrorView::User(e)
                        &&& final(self)@ == old(self)@
                    },
                }
            }),
            final(self)@ == after(
                old(self)@,
                Call::SendTrailers(internal(stream_id), fields_view(trailers@)),
            ),
    {
        reveal(after);
        let id = frame::StreamId { id: stream_id.as_u32() };
        match self.exchange_at(id) {
            None => Err(Error::User(UserError::InactiveStreamId)),
            Some(i) => match self.inner.send_trailers(id, trailers) {
                Ok(()) => {
                    self.note_sent(i, true);
                    Ok(())
                },
                Err(e) => Err(Error::User(e)),
            },
        }
    }

    /// Resets a stream. One that has no exchange stays as it is.
    pub fn reset_stream(&mut self, stream_id: StreamId, reason: Reason)
        requires
            old(self).wf(),
        ensures
            final(self).wf(),
            final(self)@ == stream_reset(old(self)@, internal(stream_id), reason),
            final(self)@ == after(old(self)@, Call::ResetStream(internal(stream_id), reason)),
    {
        reveal(after);
        let id = frame::StreamId { id: stream_id.as_u32() };
        match self.exchange_at(id) {
            None => {},
            Some(i) => {
                self.inner.reset(id, reason);
                self.note_sent(i, true);
            },
        }
    }

    /// The capacity that data can be sent on right away on a stream; none on one
    /// that has no exchange.
    pub fn stream_capacity(&self, stream_id: StreamId) -> (n: usize)
        ensures
            n == match exchange_at(self@.exchanges, internal(stream_id)) {
                Some(_) => stream_capacity(self@.inner.streams, internal(stream_id)),
                None => 0,
            },
    {
        let id = frame::StreamId { id: stream_id.as_u32() };
        match self.exchange_at(id) {
            None => 0,
            Some(_) => self.inner.capacity(id),
        }
    }

    /// Tells the connection what time it is, in milliseconds since some fixed moment.
    /// Streams that were reset long enough ago are forgotten. Time does not go back.
    pub fn set_time(&mut self, now: u64)
        requires
            old(self).wf(),
        ensures
            final(self).wf(),
            final(self)@ == with_streams(old(self)@, time_told(old(self)@.inner.streams, now)),
            final(self)@ == after(old(self)@, Call::SetTime(now)),
    {
        reveal(after);
        self.inner.set_time(now);
    }

    /// Whether the connection has ended.
    pub fn is_closed(&self) -> (r: bool)
        ensures
            r == self@.closed,
    {
        self.closed
    }

    /// Sets the size that the receive window of the connection is meant to have.
    pub fn set_target_window_size(&mut self, size: u32)
        requires
            old(self).wf(),
            size <= MAX_WINDOW_SIZE,
        ensures
            final(self).wf(),
            final(self)@ == (ConnectionView {
                inner: with_target(old(self)@.inner, size),
                ..old(self)@
            }),
            final(self)@ == after(old(self)@, Call::SetTargetWindowSize(size)),
    {
        reveal(after);
        self.inner.set_target_window_size(size);
    }

    /// Begins to take leave: the peer is told with a GOAWAY frame. Once it has
    /// answered, no more requests are taken, and the connection ends once those
    /// that were are done.
    pub fn go_away(&mut self)
        requires
            old(self).wf(),
        ensures
            final(self).wf(),
            final(self)@ == with_streams(old(self)@, leave_asked(old(self)@.inner.streams)),
            final(self)@ == after(old(self)@, Call::GoAway),
    {
        reveal(after);
        self.inner.go_away_gracefully();
    }
}

} // verus!
