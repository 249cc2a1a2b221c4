//! What the frames of the peer do to the streams of a connection.

use crate::client;
use crate::client::peer::received_response;
use crate::frame::control::{
    GoAway, GoAwayView, Ping, Reset, WindowUpdate,
};
use crate::frame::data::{Data, DataView};
use crate::frame::headers::{Headers, HeadersView, PushPromiseView};
use crate::frame::{FrameView, Reason, StreamId};
use crate::message::{content_length, content_length_of, ContentLength};
use crate::names::TOO_MANY_RESETS;
use crate::proto::error::{
    go_away_data_error, go_away_error, reset_error, Error, ErrorView, Initiator,
};
use crate::proto::send::ended;
use crate::proto::stream::{
    new_stream, Cause, Half, Incoming, IncomingView, Stream, StreamState, StreamView,
    MAX_WINDOW_SIZE,
};
use crate::proto::streams::{
    active_count, all_ended, available, find, is_local, is_local_id, reassigned, Accept, AcceptView,
    Closed, Meter, Shutdown, Side, Streams, StreamsView,
};
use crate::proto::user::{lemma_replaced, lemma_share, replaced, reset_by};
use crate::server;
use crate::server::peer::received_request;
use vstd::prelude::*;

verus! {

/// What a frame leaves behind: the streams, and the error that it is.
pub type Received = (StreamsView, Option<ErrorView>);

/// The error on the connection that breaks the protocol.
pub open spec fn broken() -> Option<ErrorView> {
    Some(go_away_error(Reason::PROTOCOL_ERROR))
}

/// The error on a stream that breaks the protocol.
pub open spec fn malformed(id: StreamId) -> Option<ErrorView> {
    Some(reset_error(id, Reason::PROTOCOL_ERROR))
}

/// Whether a stream was ended by this side, so that what is still on its way for
/// it is to be ignored.
pub open spec fn is_ended_here(st: StreamState) -> bool {
    match st.cause {
        Some(Cause::Stream(_, initiator)) => initiator != Initiator::Remote,
        Some(Cause::Connection(_, initiator)) => initiator != Initiator::Remote,
        None => false,
    }
}

/// The body length that the first headers of a message announce; none where they
/// are malformed: the length is no number, or is not zero though the message
/// ends here. The answer to a HEAD request has no body, whatever its headers
/// say, and neither have some others.
pub open spec fn announced_length(st: StreamState, f: HeadersView) -> Option<Option<u64>> {
    let status = f.block.pseudo.status;
    if st.head {
        Some(None)
    } else {
        match content_length_of(f.block.fields) {
            ContentLength::Omitted => Some(None),
            ContentLength::Invalid => None,
            ContentLength::Length(n) => if f.flags.end_stream && n > 0 && status != Some(204u16)
                && status != Some(304u16) {
                None
            } else {
                Some(Some(n))
            },
        }
    }
}

/// A state after the first headers of the peer's message.
pub open spec fn after_headers(st: StreamState, end: bool, remaining: Option<u64>) -> StreamState {
    StreamState {
        recv: if end {
            Half::Closed
        } else {
            Half::Streaming
        },
        remaining,
        ..st
    }
}

/// What the first headers of the peer's message do. A client gets a response, a
/// preliminary one being passed over; a server gets a request, which waits to be
/// accepted.
pub open spec fn first_headers(c: StreamsView, i: int, f: HeadersView) -> Received {
    let s = c.streams[i];
    let id = s.st.id;
    let end = f.flags.end_stream;
    let pseudo = f.block.pseudo;
    let preliminary = c.m.side == Side::Client && (pseudo.status matches Some(n) && 100 <= n
        < 200);
    if f.block.is_over_size {
        (c, malformed(id))
    } else if preliminary {
        if end {
            (c, malformed(id))
        } else {
            (c, None)
        }
    } else {
        match announced_length(s.st, f) {
            None => (c, malformed(id)),
            Some(remaining) => {
                let st = after_headers(s.st, end, remaining);
                match c.m.side {
                    Side::Client => {
                        let response = IncomingView::Response(
                            received_response(pseudo, f.block.fields),
                        );
                        let after = StreamView { st, inbox: s.inbox.push(response), ..s };
                        (replaced(c, i, after, c.m), None)
                    },
                    Side::Server => match received_request(pseudo, f.block.fields) {
                        None => (c, malformed(id)),
                        Some(request) => {
                            let after = StreamView {
                                st: StreamState { released: false, ..st },
                                ..s
                            };
                            let c = replaced(c, i, after, c.m);
                            (
                                StreamsView {
                                    accept: c.accept.push(AcceptView { id, request }),
                                    ..c
                                },
                                None,
                            )
                        },
                    },
                }
            },
        }
    }
}

/// What the trailers of the peer's message do.
pub open spec fn trailing_headers(c: StreamsView, i: int, f: HeadersView) -> Received {
    let s = c.streams[i];
    let id = s.st.id;
    if !f.flags.end_stream {
        (c, malformed(id))
    } else if s.st.remaining matches Some(n) && n != 0 {
        (c, malformed(id))
    } else {
        let after = StreamView {
            st: StreamState { recv: Half::Closed, ..s.st },
            inbox: s.inbox.push(IncomingView::Trailers(f.block.fields)),
            ..s
        };
        (replaced(c, i, after, c.m), None)
    }
}

/// The streams with a new one that the peer opened. No one waits for it yet.
pub open spec fn opened_by_peer(c: StreamsView, id: StreamId) -> StreamsView {
    let s = new_stream(id, Half::AwaitingHeaders, Half::AwaitingHeaders, true);
    let s = StreamView { st: StreamState { released: true, ..s.st }, ..s };
    StreamsView { streams: c.streams.push(s), ..c }
}

/// What a HEADERS frame does. Only a client opens streams, and a request comes with
/// the frame that opens its stream; one that comes after this side took its leave is
/// ignored, and one too many is refused.
pub open spec fn headers_received(c: StreamsView, f: HeadersView) -> Received {
    let id = f.stream_id;
    match find(c.streams, id) {
        None => if is_local(c.m.side, id) {
            if c.is_idle(id) {
                (c, broken())
            } else {
                (c, Some(reset_error(id, Reason::STREAM_CLOSED)))
            }
        } else if c.m.side == Side::Client || !c.is_idle(id) {
            (c, broken())
        } else if id.id > c.m.served {
            (c, None)
        } else {
            let c = StreamsView { m: Meter { last_remote: id.id, ..c.m }, ..c };
            if active_count(c.streams, c.m.side, false) >= c.m.max_recv_streams {
                (c, Some(reset_error(id, Reason::REFUSED_STREAM)))
            } else {
                first_headers(opened_by_peer(c, id), c.streams.len() as int, f)
            }
        },
        Some(i) => if is_ended_here(c.streams[i].st) {
            (c, None)
        } else {
            match c.streams[i].st.recv {
                Half::AwaitingHeaders => match c.m.side {
                    Side::Client => first_headers(c, i, f),
                    Side::Server => (c, broken()),
                },
                Half::Streaming => trailing_headers(c, i, f),
                Half::Closed => (c, broken()),
            }
        },
    }
}

/// What a DATA frame counts for in the windows: its payload and its padding.
pub open spec fn flow_len(f: DataView) -> int {
    f.data.len() + match f.pad_len {
        Some(n) => n + 1,
        None => 0,
    }
}

/// What a part of the peer's body does on a stream that can take it.
pub open spec fn body_received(c: StreamsView, i: int, f: DataView) -> Received {
    let s = c.streams[i];
    let id = s.st.id;
    let size = flow_len(f);
    let left = match s.st.remaining {
        Some(n) => Some(n - f.data.len()),
        None => None,
    };
    if size > s.st.recv_window(c.m.init_recv) {
        (c, Some(reset_error(id, Reason::FLOW_CONTROL_ERROR)))
    } else if left matches Some(n) && (n < 0 || f.end_stream && n != 0) {
        (c, malformed(id))
    } else {
        let st = StreamState {
            recv: if f.end_stream {
                Half::Closed
            } else {
                Half::Streaming
            },
            owed: (s.st.owed + size) as u32,
            in_flight: (s.st.in_flight + f.data.len()) as u32,
            remaining: match left {
                Some(n) => Some(n as u64),
                None => None,
            },
            ..s.st
        };
        let after = StreamView { st, inbox: s.inbox.push(IncomingView::Data(f.data)), ..s };
        let m = Meter { in_flight: (c.m.in_flight + f.data.len()) as u32, ..c.m };
        (replaced(c, i, after, m), None)
    }
}

/// What a DATA frame does. It counts in the window of the connection, whatever
/// becomes of it.
pub open spec fn data_received(c: StreamsView, f: DataView) -> Received {
    let id = f.stream_id;
    let size = flow_len(f);
    let counted = StreamsView {
        m: Meter { recv_window: (c.m.recv_window - size) as u32, ..c.m },
        ..c
    };
    match find(c.streams, id) {
        None => if c.is_idle(id) {
            (c, broken())
        } else if size > c.m.recv_window {
            (c, Some(go_away_error(Reason::FLOW_CONTROL_ERROR)))
        } else {
            (counted, Some(reset_error(id, Reason::STREAM_CLOSED)))
        },
        Some(i) => if size > c.m.recv_window {
            (c, Some(go_away_error(Reason::FLOW_CONTROL_ERROR)))
        } else if is_ended_here(c.streams[i].st) {
            (counted, None)
        } else if c.streams[i].st.recv != Half::Streaming {
            (counted, broken())
        } else {
            body_received(counted, i, f)
        },
    }
}

/// Whether the request of a stream waits to be accepted.
pub open spec fn waits(accept: Seq<AcceptView>, id: StreamId) -> bool {
    exists|k: int| 0 <= k < accept.len() && (#[trigger] accept[k]).id == id
}

/// What a RST_STREAM frame does. A peer that resets too many of its requests
/// before they are accepted is told to calm down.
pub open spec fn reset_received(c: StreamsView, f: Reset) -> Received {
    let id = f.stream_id;
    match find(c.streams, id) {
        None => if id.id == 0 || c.is_idle(id) {
            (c, broken())
        } else {
            (c, None)
        },
        Some(i) => {
            let s = c.streams[i];
            let waiting = waits(c.accept, id);
            if s.done() || s.st.cause is Some {
                (c, None)
            } else if waiting && c.m.remote_resets >= c.m.remote_reset_max {
                (c, Some(go_away_data_error(Reason::ENHANCE_YOUR_CALM, TOO_MANY_RESETS@)))
            } else {
                let m = Meter {
                    free: (c.m.free + s.st.available) as u32,
                    remote_resets: if waiting {
                        (c.m.remote_resets + 1) as usize
                    } else {
                        c.m.remote_resets
                    },
                    ..c.m
                };
                let after = ended(s, Cause::Stream(f.error_code, Initiator::Remote));
                (reassigned(replaced(c, i, after, m)), None)
            }
        },
    }
}

/// What a WINDOW_UPDATE frame does.
pub open spec fn window_update_received(c: StreamsView, f: WindowUpdate) -> Received {
    let id = f.stream_id;
    let n = f.size_increment;
    if id.id == 0 {
        if c.m.send_window + n > MAX_WINDOW_SIZE {
            (c, Some(go_away_error(Reason::FLOW_CONTROL_ERROR)))
        } else {
            let m = Meter {
                send_window: (c.m.send_window + n) as u32,
                free: (c.m.free + n) as u32,
                ..c.m
            };
            (reassigned(StreamsView { m, ..c }), None)
        }
    } else {
        match find(c.streams, id) {
            None => if c.is_idle(id) {
                (c, broken())
            } else {
                (c, None)
            },
            Some(i) => {
                let s = c.streams[i];
                if s.st.send_window(c.m.init_send) + n > MAX_WINDOW_SIZE {
                    (c, Some(reset_error(id, Reason::FLOW_CONTROL_ERROR)))
                } else {
                    let st = StreamState { send_delta: (s.st.send_delta + n) as i64, ..s.st };
                    (reassigned(replaced(c, i, StreamView { st, ..s }, c.m)), None)
                }
            },
        }
    }
}

/// The payload of the PING frame that goes with taking one's leave.
pub open spec fn is_shutdown_ping(p: Ping) -> bool {
    p.high == 0x0b7b_a2f0 && p.low == 0x8b9b_fe54
}

/// What a PING frame does: it is answered; the answer to the one that goes with
/// taking one's leave is followed by the word which streams are still served.
pub open spec fn ping_received(c: StreamsView, p: Ping) -> StreamsView {
    if !p.ack {
        c.with_control(FrameView::Ping(Ping { ack: true, ..p }))
    } else if c.m.shutdown == Shutdown::Asked && is_shutdown_ping(p) {
        let m = Meter { shutdown: Shutdown::Going, served: c.m.last_remote, ..c.m };
        StreamsView { m, ..c }.with_control(leave_frame(c, Reason::NO_ERROR, Seq::empty()))
    } else {
        c
    }
}

/// The GOAWAY frame that says which streams are still served.
pub open spec fn leave_frame(c: StreamsView, reason: Reason, debug_data: Seq<u8>) -> FrameView {
    FrameView::GoAway(
        GoAwayView {
            last_stream_id: StreamId { id: c.m.last_remote },
            error_code: reason,
            debug_data,
        },
    )
}

/// What a GOAWAY frame does: the streams that the peer does not serve end.
pub open spec fn go_away_received(c: StreamsView, g: GoAwayView) -> Received {
    let last = g.last_stream_id.id;
    if last > c.m.remote_served {
        (c, broken())
    } else {
        let m = Meter { remote_served: last, remote_error: Some(g.error_code), ..c.m };
        let c = StreamsView { m, remote_debug: g.debug_data, ..c };
        (all_ended(c, Some(last), Cause::Connection(g.error_code, Initiator::Remote)), None)
    }
}

/// What a PUSH_PROMISE frame does: a client that has not ruled promises out
/// refuses the promised stream.
pub open spec fn promise_received(c: StreamsView, f: PushPromiseView) -> Received {
    let promised = f.promised_id;
    let ruled_out = c.m.side == Side::Server || c.m.local.enable_push == Some(0u32);
    let misplaced = match find(c.streams, f.stream_id) {
        None => true,
        Some(i) => c.streams[i].st.recv == Half::Closed && !is_ended_here(c.streams[i].st),
    };
    if ruled_out || misplaced || is_local(c.m.side, promised) || promised.id <= c.m.last_remote {
        (c, broken())
    } else {
        let c = StreamsView { m: Meter { last_remote: promised.id, ..c.m }, ..c };
        (reset_by(c, promised, Reason::REFUSED_STREAM, Initiator::Library), None)
    }
}

fn malformed_here(id: StreamId) -> (r: Result<(), Error>)
    ensures
        r matches Err(e) && malformed(id) == Some(e@),
{
    Err(Error::library_reset(id, Reason::PROTOCOL_ERROR))
}

fn broken_here() -> (r: Result<(), Error>)
    ensures
        r matches Err(e) && broken() == Some(e@),
{
    Err(Error::library_go_away(Reason::PROTOCOL_ERROR))
}

/// The error that a result is.
pub open spec fn fault_of(r: Result<(), Error>) -> Option<ErrorView> {
    match r {
        Ok(()) => None,
        Err(e) => Some(e@),
    }
}

/// Whether a stream was ended by this side.
pub fn ended_here(st: &StreamState) -> (r: bool)
    ensures
        r == is_ended_here(*st),
{
    match st.cause {
        Some(Cause::Stream(_, initiator)) => initiator != Initiator::Remote,
        Some(Cause::Connection(_, initiator)) => initiator != Initiator::Remote,
        None => false,
    }
}

fn length_announced(st: &StreamState, f: &Headers) -> (r: Option<Option<u64>>)
    ensures
        r == announced_length(*st, f@),
{
    if st.head {
        return Some(None);
    }
    match content_length(&f.header_block.fields) {
        ContentLength::Omitted => Some(None),
        ContentLength::Invalid => None,
        ContentLength::Length(n) => {
            let bodiless = match f.header_block.pseudo.status {
                Some(status) => status == 204 || status == 304,
                None => false,
            };
            if f.flags.end_stream && n > 0 && !bodiless {
                None
            } else {
                Some(Some(n))
            }
        },
    }
}

impl Streams {
    proof fn lemma_accept_push(before: Streams, after: Streams, a: Accept)
        requires
            after.accept@ == before.accept@.push(a),
        ensures
            after@.accept == before@.accept.push(a@),
    {
        assert(after@.accept =~= before@.accept.push(a@));
    }

    fn first_headers(&mut self, i: usize, f: Headers) -> (r: Result<(), Error>)
        requires
            old(self)@.wf(),
            i < old(self).streams@.len(),
            old(self)@.streams[i as int].st.recv == Half::AwaitingHeaders,
        ensures
            final(self)@.wf(),
            first_headers(old(self)@, i as int, f@) == (final(self)@, fault_of(r)),
    {
        let ghost before = *self;
        proof {
            lemma_share(self@, i as int);
            assert(self@.stream_ok(self@.streams[i as int]));
        }
        let id = self.streams[i].st.id;
        let end = f.flags.end_stream;
        if f.header_block.is_over_size {
            return malformed_here(id);
        }
        if self.m.side == Side::Client {
            match f.header_block.pseudo.status {
                Some(n) if 100 <= n && n < 200 => {
                    if end {
                        return malformed_here(id);
                    }
                    return Ok(());
                },
                _ => {},
            }
        }
        let st = self.streams[i].st;
        let remaining = match length_announced(&st, &f) {
            Some(remaining) => remaining,
            None => {
                return malformed_here(id);
            },
        };
        let recv = if end {
            Half::Closed
        } else {
            Half::Streaming
        };
        let block = f.header_block;
        match self.m.side {
            Side::Client => {
                match client::Peer::convert_poll_message(block.pseudo, block.fields, id) {
                    Ok(response) => {
                        self.streams[i].st.recv = recv;
                        self.streams[i].st.remaining = remaining;
                        self.streams[i].push_inbox(Incoming::Response(response));
                    },
                    Err(e) => {
                        return Err(e);
                    },
                }
            },
            Side::Server => {
                match server::Peer::convert_poll_message(block.pseudo, block.fields, id) {
                    Ok(request) => {
                        self.streams[i].st.recv = recv;
                        self.streams[i].st.remaining = remaining;
                        self.streams[i].st.released = false;
                        let ghost mid = *self;
                        let accept = Accept { id, request };
                        let ghost a = accept;
                        self.accept.push_back(accept);
                        proof {
                            Streams::lemma_accept_push(mid, *self, a);
                        }
                    },
                    Err(e) => {
                        return Err(e);
                    },
                }
            },
        }
        proof {
            let s = self.streams@[i as int]@;
            assert(self.streams@ =~= before.streams@.update(i as int, self.streams@[i as int]));
            Streams::lemma_stream_set(before, *self, i as int);
            lemma_replaced(before@, i as int, s, self.m);
            assert(self@ =~= StreamsView {
                accept: self@.accept,
                ..replaced(before@, i as int, s, self.m)
            });
            assert forall|j: int| 0 <= j < self@.streams.len() implies self@.stream_ok(
                #[trigger] self@.streams[j],
            ) by {
                assert(replaced(before@, i as int, s, self.m).stream_ok(
                    replaced(before@, i as int, s, self.m).streams[j],
                ));
            }
        }
        Ok(())
    }

    fn trailing_headers(&mut self, i: usize, f: Headers) -> (r: Result<(), Error>)
        requires
            old(self)@.wf(),
            i < old(self).streams@.len(),
        ensures
            final(self)@.wf(),
            trailing_headers(old(self)@, i as int, f@) == (final(self)@, fault_of(r)),
    {
        let ghost before = *self;
        proof {
            lemma_share(self@, i as int);
            assert(self@.stream_ok(self@.streams[i as int]));
        }
        let id = self.streams[i].st.id;
        if !f.flags.end_stream {
            return malformed_here(id);
        }
        match self.streams[i].st.remaining {
            Some(n) if n != 0 => {
                return malformed_here(id);
            },
            _ => {},
        }
        self.streams[i].st.recv = Half::Closed;
        self.streams[i].push_inbox(Incoming::Trailers(f.header_block.fields));
        proof {
            let s = self.streams@[i as int]@;
            assert(self.streams@ =~= before.streams@.update(i as int, self.streams@[i as int]));
            Streams::lemma_stream_set(before, *self, i as int);
            lemma_replaced(before@, i as int, s, self.m);
            assert(self@ =~= replaced(before@, i as int, s, self.m));
        }
        Ok(())
    }

    /// Takes a HEADERS frame.
    pub fn recv_headers(&mut self, f: Headers) -> (r: Result<(), Error>)
        requires
            old(self)@.wf(),
            f.stream_id.wf(),
            f.stream_id.id != 0,
        ensures
            final(self)@.wf(),
            headers_received(old(self)@, f@) == (final(self)@, fault_of(r)),
    {
        let id = f.stream_id;
        match self.find(id) {
            None => {
                if is_local_id(self.m.side, id) {
                    if self.is_idle(id) {
                        return broken_here();
                    }
                    return Err(Error::library_reset(id, Reason::STREAM_CLOSED));
                }
                if self.m.side == Side::Client || !self.is_idle(id) {
                    return broken_here();
                }
                if id.id > self.m.served {
                    return Ok(());
                }
                let ghost before = self@;
                self.m.last_remote = id.id;
                proof {
                    assert forall|j: int| 0 <= j < self@.streams.len() implies self@.stream_ok(
                        #[trigger] self@.streams[j],
                    ) by {
                        assert(before.stream_ok(before.streams[j]));
                    }
                }
                if self.active_count(false) >= self.m.max_recv_streams {
                    return Err(Error::library_reset(id, Reason::REFUSED_STREAM));
                }
                let mut s = Stream::new(id, Half::AwaitingHeaders, Half::AwaitingHeaders, true);
                s.st.released = true;
                let i: usize = self.streams.len();
                self.push_stream(s);
                self.first_headers(i, f)
            },
            Some(i) => {
                if ended_here(&self.streams[i].st) {
                    return Ok(());
                }
                match self.streams[i].st.recv {
                    Half::AwaitingHeaders => match self.m.side {
                        Side::Client => self.first_headers(i, f),
                        Side::Server => broken_here(),
                    },
                    Half::Streaming => self.trailing_headers(i, f),
                    Half::Closed => broken_here(),
                }
            },
        }
    }

    fn recv_body(&mut self, i: usize, f: Data) -> (r: Result<(), Error>)
        requires
            old(self)@.wf(),
            i < old(self).streams@.len(),
            old(self)@.streams[i as int].st.recv == Half::Streaming,
            flow_len(f@) + old(self).m.in_flight + old(self).m.recv_window <= MAX_WINDOW_SIZE,
        ensures
            final(self)@.wf(),
            body_received(old(self)@, i as int, f@) == (final(self)@, fault_of(r)),
    {
        let ghost before = *self;
        proof {
            lemma_share(self@, i as int);
            assert(self@.stream_ok(self@.streams[i as int]));
        }
        let st = self.streams[i].st;
        let id = st.id;
        let len: u32 = f.data.len() as u32;
        let size: u32 = len + match f.pad_len {
            Some(n) => n as u32 + 1,
            None => 0,
        };
        if st.owed > self.m.init_recv || size > self.m.init_recv - st.owed {
            return Err(Error::library_reset(id, Reason::FLOW_CONTROL_ERROR));
        }
        let remaining = match st.remaining {
            Some(n) => {
                if len as u64 > n || f.end_stream && len as u64 != n {
                    return malformed_here(id);
                }
                Some(n - len as u64)
            },
            None => None,
        };
        let recv = if f.end_stream {
            Half::Closed
        } else {
            Half::Streaming
        };
        self.streams[i].st =
        StreamState {
            recv,
            owed: st.owed + size,
            in_flight: st.in_flight + len,
            remaining,
            ..st
        };
        self.m.in_flight = self.m.in_flight + len;
        self.streams[i].push_inbox(Incoming::Data(f.data));
        proof {
            let s = self.streams@[i as int]@;
            assert(self.streams@ =~= before.streams@.update(i as int, self.streams@[i as int]));
            Streams::lemma_stream_set(before, *self, i as int);
            lemma_replaced(before@, i as int, s, self.m);
            assert(self@ =~= replaced(before@, i as int, s, self.m));
        }
        Ok(())
    }

    /// Takes a DATA frame.
    pub fn recv_data(&mut self, f: Data) -> (r: Result<(), Error>)
        requires
            old(self)@.wf(),
        ensures
            final(self)@.wf(),
            data_received(old(self)@, f@) == (final(self)@, fault_of(r)),
    {
        let id = f.stream_id;
        let found = self.find(id);
        if found.is_none() && self.is_idle(id) {
            return broken_here();
        }
        let len: usize = f.data.len();
        if len > self.m.recv_window as usize {
            return Err(Error::library_go_away(Reason::FLOW_CONTROL_ERROR));
        }
        let size: u32 = len as u32 + match f.pad_len {
            Some(n) => n as u32 + 1,
            None => 0,
        };
        if size > self.m.recv_window {
            return Err(Error::library_go_away(Reason::FLOW_CONTROL_ERROR));
        }
        let ghost before = self@;
        self.m.recv_window = self.m.recv_window - size;
        proof {
            assert forall|j: int| 0 <= j < self@.streams.len() implies self@.stream_ok(
                #[trigger] self@.streams[j],
            ) by {
                assert(before.stream_ok(before.streams[j]));
            }
        }
        match found {
            None => Err(Error::library_reset(id, Reason::STREAM_CLOSED)),
            Some(i) => {
                if ended_here(&self.streams[i].st) {
                    return Ok(());
                }
                if self.streams[i].st.recv != Half::Streaming {
                    return broken_here();
                }
                self.recv_body(i, f)
            },
        }
    }
}

} // verus!
