//! What the frames of the peer do, one by one.

use crate::frame::block::BlockView;
use crate::frame::control::{GoAwayView, Ping, Priority, Reset, WindowUpdate};
use crate::frame::data::{data_of, DataView};
use crate::frame::head::Head;
use crate::frame::headers::{HeadersView, PushPromiseView};
use crate::frame::settings::Settings;
use crate::frame::{FrameView, Reason, StreamId};
use crate::message::{
    content_length_of, decimal, first_value, is_digits, ContentLength, RequestView, ResponseView,
    Version,
};
use crate::names::{CONTENT_LENGTH, TOO_MANY_RESETS};
use crate::proto::connection::{frame_received, stepped, ConnectionView};
use crate::proto::control::clamp_from;
use crate::proto::error::{ErrorView, Initiator};
use crate::proto::laws::{lemma_assign_from, same_but_available};
use crate::proto::recv::{flow_len, waits};
use crate::proto::send::ended;
use crate::proto::stream::{
    Cause, Half, IncomingView, StreamState, StreamView, MAX_WINDOW_SIZE,
};
use crate::proto::streams::{
    active_count, end_from, find, lemma_find, reassigned, AcceptView, Meter, Shutdown, Side,
    StreamsView,
};
use crate::proto::user::reset_by;
use crate::server::peer::received_request;
use vstd::prelude::*;

verus! {

/// The streams with another one at `i`.
pub open spec fn with_stream(c: StreamsView, i: int, s: StreamView) -> StreamsView {
    StreamsView { streams: c.streams.update(i, s), ..c }
}

/// The error with which a stream is reset that breaks the protocol.
pub open spec fn breach(id: StreamId) -> Option<ErrorView> {
    Some(ErrorView::Reset(id, Reason::PROTOCOL_ERROR, Initiator::Library))
}

/// The error with which a connection ends on which the protocol is broken.
pub open spec fn end_of_all() -> Option<ErrorView> {
    Some(ErrorView::GoAway(Seq::empty(), Reason::PROTOCOL_ERROR, Initiator::Library))
}

/// A stream on which the head of the peer's message is awaited.
pub open spec fn awaits_head(c: StreamsView, id: StreamId, i: int) -> bool {
    &&& find(c.streams, id) == Some(i)
    &&& c.streams[i].st.cause is None
    &&& c.streams[i].st.recv == Half::AwaitingHeaders
}

/// A stream on which the body of the peer's message is awaited.
pub open spec fn awaits_body(c: StreamsView, id: StreamId, i: int) -> bool {
    &&& find(c.streams, id) == Some(i)
    &&& c.streams[i].st.cause is None
    &&& c.streams[i].st.recv == Half::Streaming
}

/// A head that is not the one of the response: its status is one from 100 to 199, and
/// more is to come.
pub open spec fn is_informational(f: HeadersView) -> bool {
    &&& f.block.pseudo.status matches Some(n) && 100 <= n <= 199
    &&& !f.flags.end_stream
    &&& !f.block.is_over_size
}

/// Informational heads are passed over: as long as the head of the response is awaited,
/// they change nothing and are no error.
pub proof fn law_informational_heads_pass(c: StreamsView, f: HeadersView, i: int)
    requires
        c.m.side == Side::Client,
        awaits_head(c, f.stream_id, i),
        is_informational(f),
    ensures
        frame_received(c, FrameView::Headers(f)) == (c, None::<ErrorView>),
{
    lemma_find(c.streams, f.stream_id);
}

/// An informational head cannot be the end of a message.
pub proof fn law_informational_heads_do_not_end(c: StreamsView, f: HeadersView, i: int)
    requires
        c.m.side == Side::Client,
        awaits_head(c, f.stream_id, i),
        f.block.pseudo.status matches Some(n) && 100 <= n <= 199,
        f.flags.end_stream,
    ensures
        frame_received(c, FrameView::Headers(f)) == (c, breach(f.stream_id)),
{
    lemma_find(c.streams, f.stream_id);
}

/// What a run of heads does.
pub open spec fn heads_received(c: StreamsView, heads: Seq<HeadersView>) -> StreamsView
    decreases heads.len(),
{
    if heads.len() == 0 {
        c
    } else {
        frame_received(
            heads_received(c, heads.drop_last()),
            FrameView::Headers(heads.last()),
        ).0
    }
}

/// The response that a client hands out is the first that is not informational, behind
/// however many of those: with its status and its headers, it waits to be read behind what
/// waited already. Nothing else changes but that the body is awaited then, or nothing more
/// where the message ends.
pub proof fn law_the_final_response_counts(
    c: StreamsView,
    heads: Seq<HeadersView>,
    f: HeadersView,
    i: int,
)
    requires
        c.m.side == Side::Client,
        awaits_head(c, f.stream_id, i),
        forall|k: int|
            0 <= k < heads.len() ==> is_informational(#[trigger] heads[k]) && heads[k].stream_id
                == f.stream_id,
        !f.block.is_over_size,
        f.block.pseudo.status matches Some(n) && !(100 <= n <= 199),
        first_value(f.block.fields, CONTENT_LENGTH@) is None,
    ensures
        heads_received(c, heads) == c,
        ({
            let s = c.streams[i];
            let response = ResponseView {
                status: f.block.pseudo.status->0,
                version: Version::HTTP_2,
                headers: f.block.fields,
            };
            let t = StreamView {
                st: StreamState {
                    recv: if f.flags.end_stream {
                        Half::Closed
                    } else {
                        Half::Streaming
                    },
                    remaining: None,
                    ..s.st
                },
                inbox: s.inbox.push(IncomingView::Response(response)),
                ..s
            };
            frame_received(heads_received(c, heads), FrameView::Headers(f)) == (
                with_stream(c, i, t),
                None::<ErrorView>,
            )
        }),
    decreases heads.len(),
{
    lemma_find(c.streams, f.stream_id);
    if heads.len() > 0 {
        let init = heads.drop_last();
        assert forall|k: int| 0 <= k < init.len() implies is_informational(
            #[trigger] init[k],
        ) && init[k].stream_id == f.stream_id by {
            assert(init[k] == heads[k]);
        }
        law_the_final_response_counts(c, init, f, i);
        assert(is_informational(heads[heads.len() - 1]));
        law_informational_heads_pass(c, heads.last(), i);
    }
}

/// A number in decimal digits: each digit behind the others counts for itself, and those
/// in front of it for ten times what they counted for.
pub proof fn law_decimal(s: Seq<u8>, digit: u8)
    requires
        48 <= digit <= 57,
    ensures
        decimal(Seq::<u8>::empty()) == 0,
        decimal(s.push(digit)) == 10 * decimal(s) + (digit - 48),
{
    assert(s.push(digit).drop_last() =~= s);
}

/// The length that a message announces is the number in its first content-length header.
pub proof fn law_content_length(block: BlockView, text: Seq<u8>)
    requires
        first_value(block.fields, CONTENT_LENGTH@) == Some(text),
        text.len() <= 19,
    ensures
        is_digits(text) ==> content_length_of(block.fields) == ContentLength::Length(
            decimal(text) as u64,
        ),
        !is_digits(text) ==> content_length_of(block.fields) == ContentLength::Invalid,
{
}

/// A response announces the length of its body, unless it answers a HEAD request: that
/// much is to come then. One that ends at once must not announce a body, unless its status
/// is one that has none, 204 or 304.
pub proof fn law_announced_bodies(c: StreamsView, f: HeadersView, i: int, n: u64)
    requires
        c.m.side == Side::Client,
        awaits_head(c, f.stream_id, i),
        !f.block.is_over_size,
        f.block.pseudo.status matches Some(status) && status >= 200,
        content_length_of(f.block.fields) == ContentLength::Length(n),
    ensures
        ({
            let s = c.streams[i];
            let (after, fault) = frame_received(c, FrameView::Headers(f));
            let status = f.block.pseudo.status->0;
            if !s.st.head && f.flags.end_stream && n > 0 && status != 204 && status != 304 {
                after == c && fault == breach(f.stream_id)
            } else {
                &&& fault is None
                &&& after.streams[i].inbox.len() == s.inbox.len() + 1
                &&& after.streams[i].st.remaining == if s.st.head {
                    None
                } else {
                    Some(n)
                }
            }
        }),
{
    lemma_find(c.streams, f.stream_id);
}

/// A content-length header that is no number makes the message malformed.
pub proof fn law_bad_lengths(c: StreamsView, f: HeadersView, i: int)
    requires
        c.m.side == Side::Client,
        awaits_head(c, f.stream_id, i),
        !c.streams[i].st.head,
        f.block.pseudo.status matches Some(status) && status >= 200,
        content_length_of(f.block.fields) == ContentLength::Invalid,
    ensures
        frame_received(c, FrameView::Headers(f)) == (c, breach(f.stream_id)),
{
    lemma_find(c.streams, f.stream_id);
}

/// A header list that is larger than what is kept makes the head of a message malformed.
pub proof fn law_heads_over_size(c: StreamsView, f: HeadersView, i: int)
    requires
        c.m.side == Side::Client,
        awaits_head(c, f.stream_id, i),
        f.block.is_over_size,
    ensures
        frame_received(c, FrameView::Headers(f)) == (c, breach(f.stream_id)),
{
    lemma_find(c.streams, f.stream_id);
}

/// Trailers are handed on as they are: behind the body, a header block that ends the
/// message waits to be read behind what waited already, with exactly its fields, and
/// nothing else changes but that nothing more is awaited.
pub proof fn law_trailers_are_received(c: StreamsView, f: HeadersView, i: int)
    requires
        awaits_body(c, f.stream_id, i),
        f.flags.end_stream,
        c.streams[i].st.remaining is None || c.streams[i].st.remaining == Some(0u64),
    ensures
        ({
            let s = c.streams[i];
            let t = StreamView {
                st: StreamState { recv: Half::Closed, ..s.st },
                inbox: s.inbox.push(IncomingView::Trailers(f.block.fields)),
                ..s
            };
            frame_received(c, FrameView::Headers(f)) == (with_stream(c, i, t), None::<ErrorView>)
        }),
{
    lemma_find(c.streams, f.stream_id);
}

/// Behind the body only trailers can come, which end the message, and they can only come
/// once as much of a body has come as was announced.
pub proof fn law_misplaced_trailers(c: StreamsView, f: HeadersView, i: int)
    requires
        awaits_body(c, f.stream_id, i),
        !f.flags.end_stream || (c.streams[i].st.remaining matches Some(n) && n > 0),
    ensures
        frame_received(c, FrameView::Headers(f)) == (c, breach(f.stream_id)),
{
    lemma_find(c.streams, f.stream_id);
}

/// Behind the end of a message nothing can come: headers and data end the connection.
pub proof fn law_nothing_behind_the_end(c: StreamsView, h: HeadersView, d: DataView, i: int)
    requires
        0 <= i < c.streams.len(),
        find(c.streams, h.stream_id) == Some(i),
        d.stream_id == h.stream_id,
        c.streams[i].st.cause is None,
        c.streams[i].st.recv == Half::Closed,
        flow_len(d) <= c.m.recv_window,
    ensures
        frame_received(c, FrameView::Headers(h)) == (c, end_of_all()),
        frame_received(c, FrameView::Data(d)).1 == end_of_all(),
        frame_received(c, FrameView::Data(d)).0.streams == c.streams,
{
}

/// On a stream that this side has ended, headers and data of the peer may still be on
/// their way: they are passed over, and data still counts against the window of the
/// connection.
pub proof fn law_late_frames_pass(c: StreamsView, h: HeadersView, d: DataView, i: int)
    requires
        0 <= i < c.streams.len(),
        find(c.streams, h.stream_id) == Some(i),
        d.stream_id == h.stream_id,
        match c.streams[i].st.cause {
            Some(Cause::Stream(_, by)) => by != Initiator::Remote,
            Some(Cause::Connection(_, by)) => by != Initiator::Remote,
            None => false,
        },
        flow_len(d) <= c.m.recv_window,
    ensures
        frame_received(c, FrameView::Headers(h)) == (c, None::<ErrorView>),
        frame_received(c, FrameView::Data(d)) == (
            StreamsView {
                m: Meter { recv_window: (c.m.recv_window - flow_len(d)) as u32, ..c.m },
                ..c
            },
            None::<ErrorView>,
        ),
{
}

/// A request that a server can take waits to be accepted behind all others, as it is, and
/// its stream is there: one that was not, with an identifier of a client that is higher
/// than all before, and no more of them than this side allows.
pub proof fn law_requests_are_taken(c: StreamsView, f: HeadersView, request: RequestView)
    requires
        c.m.side == Side::Server,
        find(c.streams, f.stream_id) is None,
        f.stream_id.id % 2 == 1,
        c.m.last_remote < f.stream_id.id <= c.m.served,
        active_count(c.streams, Side::Server, false) < c.m.max_recv_streams,
        !f.block.is_over_size,
        received_request(f.block.pseudo, f.block.fields) == Some(request),
        content_length_of(f.block.fields) != ContentLength::Invalid,
        f.flags.end_stream ==> (content_length_of(f.block.fields) matches ContentLength::Length(n)
            ==> n == 0),
    ensures
        ({
            let (after, fault) = frame_received(c, FrameView::Headers(f));
            let s = after.streams.last();
            &&& fault is None
            &&& after.accept == c.accept.push(AcceptView { id: f.stream_id, request })
            &&& after.streams == c.streams.push(s)
            &&& s.st.id == f.stream_id
            &&& s.st.cause is None
            &&& s.st.send == Half::AwaitingHeaders
            &&& s.st.recv == if f.flags.end_stream {
                Half::Closed
            } else {
                Half::Streaming
            }
            &&& s.st.opened
            &&& !s.st.released
            &&& s.st.owed == 0 && s.st.in_flight == 0 && s.st.send_delta == 0
            &&& s.st.remaining == match content_length_of(f.block.fields) {
                ContentLength::Length(n) => Some(n),
                _ => None,
            }
            &&& s.inbox.len() == 0
            &&& s.outbox.len() == 0
            &&& after.control == c.control
            &&& after.m == Meter { last_remote: f.stream_id.id, ..c.m }
        }),
{
    let (after, fault) = frame_received(c, FrameView::Headers(f));
    assert(after.streams =~= c.streams.push(after.streams.last()));
}

/// A request too many is refused: it is not accepted, and its stream is reset with the
/// reason that says so. The identifier counts as used.
pub proof fn law_requests_too_many(c: StreamsView, f: HeadersView)
    requires
        c.m.side == Side::Server,
        find(c.streams, f.stream_id) is None,
        f.stream_id.id % 2 == 1,
        c.m.last_remote < f.stream_id.id <= c.m.served,
        active_count(c.streams, Side::Server, false) >= c.m.max_recv_streams,
    ensures
        frame_received(c, FrameView::Headers(f)) == (
            StreamsView { m: Meter { last_remote: f.stream_id.id, ..c.m }, ..c },
            Some(ErrorView::Reset(f.stream_id, Reason::REFUSED_STREAM, Initiator::Library)),
        ),
{
}

/// A malformed request is not accepted, and its stream is reset; nobody waits for it.
pub proof fn law_malformed_requests(c: StreamsView, f: HeadersView)
    requires
        c.m.side == Side::Server,
        find(c.streams, f.stream_id) is None,
        f.stream_id.id % 2 == 1,
        c.m.last_remote < f.stream_id.id <= c.m.served,
        active_count(c.streams, Side::Server, false) < c.m.max_recv_streams,
        f.block.is_over_size || received_request(f.block.pseudo, f.block.fields) is None || (
        content_length_of(f.block.fields) matches ContentLength::Length(n) && n > 0
            && f.flags.end_stream && f.block.pseudo.status is None) || content_length_of(
            f.block.fields,
        ) == ContentLength::Invalid,
    ensures
        ({
            let (after, fault) = frame_received(c, FrameView::Headers(f));
            let s = after.streams.last();
            &&& fault == breach(f.stream_id)
            &&& after.accept == c.accept
            &&& after.streams == c.streams.push(s)
            &&& s.st.id == f.stream_id && s.st.opened
            &&& s.st.released && s.inbox.len() == 0
        }),
{
}

/// A request that comes after this side has taken its leave is passed over.
pub proof fn law_requests_too_late(c: StreamsView, f: HeadersView)
    requires
        c.m.side == Side::Server,
        find(c.streams, f.stream_id) is None,
        f.stream_id.id % 2 == 1,
        f.stream_id.id > c.m.last_remote,
        f.stream_id.id > c.m.served,
    ensures
        frame_received(c, FrameView::Headers(f)) == (c, None::<ErrorView>),
{
}

/// Headers on a stream that is not there, and that the peer cannot open with them, end the
/// connection: one of this side that is still to be opened, one of the peer that is not
/// higher than all before, and to a client, every one of a server. On a stream of this side
/// that is gone they are an error of the stream.
pub proof fn law_headers_out_of_place(c: StreamsView, f: HeadersView)
    requires
        find(c.streams, f.stream_id) is None,
    ensures
        ({
            let id = f.stream_id;
            let own = (id.id % 2 == 1) == (c.m.side == Side::Client);
            let (after, fault) = frame_received(c, FrameView::Headers(f));
            &&& own && id.id >= c.m.next_id ==> after == c && fault == end_of_all()
            &&& own && id.id < c.m.next_id ==> after == c && fault == Some(
                ErrorView::Reset(id, Reason::STREAM_CLOSED, Initiator::Library),
            )
            &&& !own && (c.m.side == Side::Client || id.id <= c.m.last_remote) ==> after == c
                && fault == end_of_all()
        }),
{
}

/// A DATA frame counts for its whole payload, the padding and its length among it.
pub proof fn law_padding_counts(head: Head, payload: Seq<u8>)
    ensures
        data_of(head, payload) matches Ok(d) ==> flow_len(d) == payload.len(),
{
}

/// A part of a body that the windows allow, and that fits what was announced, waits to be
/// read behind what waited already. It counts against both windows with its whole payload,
/// and its bytes are to be released on both.
pub proof fn law_data_is_received(c: StreamsView, f: DataView, i: int)
    requires
        c.wf(),
        awaits_body(c, f.stream_id, i),
        flow_len(f) <= c.m.recv_window,
        flow_len(f) <= c.m.init_recv - c.streams[i].st.owed,
        c.streams[i].st.remaining matches Some(n) ==> f.data.len() <= n && (f.end_stream
            ==> f.data.len() == n),
    ensures
        ({
            let s = c.streams[i];
            let (after, fault) = frame_received(c, FrameView::Data(f));
            let t = after.streams[i];
            &&& fault is None
            &&& after.streams == c.streams.update(i, t)
            &&& t.inbox == s.inbox.push(IncomingView::Data(f.data))
            &&& t.st.recv == if f.end_stream {
                Half::Closed
            } else {
                Half::Streaming
            }
            &&& t.st.owed == s.st.owed + flow_len(f)
            &&& t.st.in_flight == s.st.in_flight + f.data.len()
            &&& t.st.remaining == match s.st.remaining {
                Some(n) => Some((n - f.data.len()) as u64),
                None => None,
            }
            &&& t.st.send == s.st.send && t.st.cause == s.st.cause && t.outbox == s.outbox
            &&& after.m.recv_window == c.m.recv_window - flow_len(f)
            &&& after.m.in_flight == c.m.in_flight + f.data.len()
            &&& after.control == c.control && after.accept == c.accept
        }),
{
    lemma_find(c.streams, f.stream_id);
    let s = c.streams[i];
    assert(c.stream_ok(s));
}

/// A body that does not come to what was announced is an error of its stream: one that is
/// longer, and one that ends before its time.
pub proof fn law_bodies_of_another_length(c: StreamsView, f: DataView, i: int)
    requires
        awaits_body(c, f.stream_id, i),
        flow_len(f) <= c.m.recv_window,
        flow_len(f) <= c.m.init_recv - c.streams[i].st.owed,
        c.streams[i].st.remaining matches Some(n) && (f.data.len() > n || f.end_stream
            && f.data.len() != n),
    ensures
        frame_received(c, FrameView::Data(f)).1 == breach(f.stream_id),
        frame_received(c, FrameView::Data(f)).0.streams == c.streams,
{
    lemma_find(c.streams, f.stream_id);
}

/// The head of a message comes before its body: data on a stream whose head is awaited ends
/// the connection.
pub proof fn law_no_body_before_the_head(c: StreamsView, f: DataView, i: int)
    requires
        awaits_head(c, f.stream_id, i),
        flow_len(f) <= c.m.recv_window,
    ensures
        frame_received(c, FrameView::Data(f)).1 == end_of_all(),
        frame_received(c, FrameView::Data(f)).0.streams == c.streams,
{
}

/// Data on a stream that is not there ends the connection if the stream was never opened.
/// If it was, it is an error of the stream, and counts against the window of the
/// connection.
pub proof fn law_data_out_of_place(c: StreamsView, f: DataView)
    requires
        find(c.streams, f.stream_id) is None,
        flow_len(f) <= c.m.recv_window,
    ensures
        ({
            let id = f.stream_id;
            let own = (id.id % 2 == 1) == (c.m.side == Side::Client);
            let idle = if own {
                id.id >= c.m.next_id
            } else {
                id.id > c.m.last_remote
            };
            let (after, fault) = frame_received(c, FrameView::Data(f));
            &&& idle ==> after == c && fault == end_of_all()
            &&& !idle ==> {
                &&& after.streams == c.streams
                &&& after.m.recv_window == c.m.recv_window - flow_len(f)
                &&& fault == Some(
                    ErrorView::Reset(id, Reason::STREAM_CLOSED, Initiator::Library),
                )
            }
        }),
{
}

/// A PING frame is answered with its own payload, and nothing else comes of it.
pub proof fn law_pings_are_answered(c: StreamsView, high: u32, low: u32)
    ensures
        frame_received(c, FrameView::Ping(Ping { ack: false, high, low })) == (
            StreamsView {
                control: c.control.push(FrameView::Ping(Ping { ack: true, high, low })),
                ..c
            },
            None::<ErrorView>,
        ),
{
}

/// The answer to a PING frame is itself not answered.
pub proof fn law_answers_are_not_answered(c: StreamsView, high: u32, low: u32)
    requires
        c.m.shutdown != Shutdown::Asked,
    ensures
        frame_received(c, FrameView::Ping(Ping { ack: true, high, low })) == (c, None::<ErrorView>),
{
}

/// Priorities are passed over.
pub proof fn law_priorities_pass(c: StreamsView, f: Priority)
    ensures
        frame_received(c, FrameView::Priority(f)) == (c, None::<ErrorView>),
{
}

/// What a stream has that does not depend on how capacity is shared out.
pub open spec fn same_but_shared(a: StreamView, b: StreamView) -> bool {
    same_but_available(a, b)
}

proof fn lemma_reassigned_same(c: StreamsView)
    ensures
        reassigned(c).streams.len() == c.streams.len(),
        forall|j: int|
            0 <= j < c.streams.len() ==> same_but_shared(
                #[trigger] reassigned(c).streams[j],
                c.streams[j],
            ),
        reassigned(c).control == c.control,
        reassigned(c).accept == c.accept,
        reassigned(c).m == (Meter { free: reassigned(c).m.free, ..c.m }),
{
    lemma_assign_from(c.streams, 0, c.m.init_send, c.m.free);
}

/// A WINDOW_UPDATE frame for the connection widens its window by what stands in it; nothing
/// else changes but how capacity is shared out. One that makes the window too large ends
/// the connection.
pub proof fn law_the_connection_is_widened(c: StreamsView, n: u32)
    ensures
        ({
            let f = WindowUpdate { stream_id: StreamId { id: 0 }, size_increment: n };
            let (after, fault) = frame_received(c, FrameView::WindowUpdate(f));
            if c.m.send_window + n <= 0x7fff_ffff {
                &&& fault is None
                &&& after.m.send_window == c.m.send_window + n
                &&& after.streams.len() == c.streams.len()
                &&& forall|j: int|
                    0 <= j < c.streams.len() ==> same_but_shared(
                        #[trigger] after.streams[j],
                        c.streams[j],
                    )
                &&& after.control == c.control
            } else {
                &&& after == c
                &&& fault == Some(
                    ErrorView::GoAway(Seq::empty(), Reason::FLOW_CONTROL_ERROR, Initiator::Library),
                )
            }
        }),
{
    let m = Meter {
        send_window: (c.m.send_window + n) as u32,
        free: (c.m.free + n) as u32,
        ..c.m
    };
    lemma_reassigned_same(StreamsView { m, ..c });
}

/// A WINDOW_UPDATE frame for a stream widens its window by what stands in it; nothing else
/// changes but how capacity is shared out. One that makes the window too large resets the
/// stream.
pub proof fn law_a_stream_is_widened(c: StreamsView, id: StreamId, n: u32, i: int)
    requires
        c.wf(),
        id.id != 0,
        find(c.streams, id) == Some(i),
        n <= 0x7fff_ffff,
    ensures
        ({
            let s = c.streams[i];
            let f = WindowUpdate { stream_id: id, size_increment: n };
            let (after, fault) = frame_received(c, FrameView::WindowUpdate(f));
            if c.m.init_send + s.st.send_delta + n <= 0x7fff_ffff {
                &&& fault is None
                &&& after.streams.len() == c.streams.len()
                &&& after.streams[i].st.send_delta == s.st.send_delta + n
                &&& forall|j: int|
                    0 <= j < c.streams.len() && j != i ==> same_but_shared(
                        #[trigger] after.streams[j],
                        c.streams[j],
                    )
                &&& after.m.send_window == c.m.send_window
                &&& after.control == c.control
            } else {
                &&& after == c
                &&& fault == Some(
                    ErrorView::Reset(id, Reason::FLOW_CONTROL_ERROR, Initiator::Library),
                )
            }
        }),
{
    lemma_find(c.streams, id);
    let s = c.streams[i];
    assert(c.stream_ok(s));
    let send_delta = (s.st.send_delta + n) as i64;
    let t = StreamView { st: StreamState { send_delta, ..s.st }, ..s };
    let d = with_stream(c, i, t);
    lemma_reassigned_same(d);
    assert(same_but_shared(reassigned(d).streams[i], d.streams[i]));
    assert forall|j: int| 0 <= j < c.streams.len() && j != i implies same_but_shared(
        #[trigger] reassigned(d).streams[j],
        c.streams[j],
    ) by {
        assert(d.streams[j] == c.streams[j]);
    }
}

/// A WINDOW_UPDATE frame for a stream that is gone is passed over; for one that was never
/// opened it ends the connection.
pub proof fn law_nothing_to_widen(c: StreamsView, id: StreamId, n: u32)
    requires
        id.id != 0,
        find(c.streams, id) is None,
    ensures
        ({
            let own = (id.id % 2 == 1) == (c.m.side == Side::Client);
            let idle = if own {
                id.id >= c.m.next_id
            } else {
                id.id > c.m.last_remote
            };
            let f = WindowUpdate { stream_id: id, size_increment: n };
            frame_received(c, FrameView::WindowUpdate(f)) == (c, if idle {
                end_of_all()
            } else {
                None
            })
        }),
{
}

/// A RST_STREAM frame ends its stream with its reason: nothing more is sent or received on
/// it, and what was received already stays to be read. Nothing else changes but how capacity
/// is shared out.
pub proof fn law_resets_end_their_stream(c: StreamsView, f: Reset, i: int)
    requires
        find(c.streams, f.stream_id) == Some(i),
        c.streams[i].st.cause is None,
        !(c.streams[i].st.send == Half::Closed && c.streams[i].st.recv == Half::Closed
            && c.streams[i].outbox.len() == 0),
        !waits(c.accept, f.stream_id) || c.m.remote_resets < c.m.remote_reset_max,
    ensures
        ({
            let s = c.streams[i];
            let (after, fault) = frame_received(c, FrameView::Reset(f));
            let t = after.streams[i];
            &&& fault is None
            &&& after.streams.len() == c.streams.len()
            &&& t.st.cause == Some(Cause::Stream(f.error_code, Initiator::Remote))
            &&& t.st.send == Half::Closed && t.st.recv == Half::Closed
            &&& t.outbox.len() == 0
            &&& t.inbox == s.inbox
            &&& t.st.id == s.st.id
            &&& forall|j: int|
                0 <= j < c.streams.len() && j != i ==> same_but_shared(
                    #[trigger] after.streams[j],
                    c.streams[j],
                )
            &&& after.control == c.control
            &&& after.accept == c.accept
            &&& after.m.remote_resets == c.m.remote_resets + if waits(c.accept, f.stream_id) {
                1int
            } else {
                0
            }
        }),
{
    lemma_find(c.streams, f.stream_id);
    let s = c.streams[i];
    let m = Meter {
        free: (c.m.free + s.st.available) as u32,
        remote_resets: if waits(c.accept, f.stream_id) {
            (c.m.remote_resets + 1) as usize
        } else {
            c.m.remote_resets
        },
        ..c.m
    };
    let t = ended(s, Cause::Stream(f.error_code, Initiator::Remote));
    let d = StreamsView { streams: c.streams.update(i, t), m, ..c };
    lemma_reassigned_same(d);
    assert(same_but_shared(reassigned(d).streams[i], d.streams[i]));
    assert forall|j: int| 0 <= j < c.streams.len() && j != i implies same_but_shared(
        #[trigger] reassigned(d).streams[j],
        c.streams[j],
    ) by {
        assert(d.streams[j] == c.streams[j]);
    }
}

/// A RST_STREAM frame on a stream on which nothing goes on any more is passed over; on one
/// that was never opened it ends the connection. A peer that resets too many of its requests
/// before they are accepted is told to calm down.
pub proof fn law_other_resets(c: StreamsView, f: Reset)
    ensures
        ({
            let id = f.stream_id;
            let own = (id.id % 2 == 1) == (c.m.side == Side::Client);
            let idle = id.id == 0 || if own {
                id.id >= c.m.next_id
            } else {
                id.id > c.m.last_remote
            };
            let (after, fault) = frame_received(c, FrameView::Reset(f));
            match find(c.streams, id) {
                None => after == c && fault == if idle {
                    end_of_all()
                } else {
                    None
                },
                Some(i) => {
                    let s = c.streams[i];
                    let over = s.st.send == Half::Closed && s.st.recv == Half::Closed
                        && s.outbox.len() == 0;
                    &&& over || s.st.cause is Some ==> after == c && fault is None
                    &&& !over && s.st.cause is None && waits(c.accept, id) && c.m.remote_resets
                        >= c.m.remote_reset_max ==> after == c && fault == Some(
                        ErrorView::GoAway(
                            TOO_MANY_RESETS@,
                            Reason::ENHANCE_YOUR_CALM,
                            Initiator::Library,
                        ),
                    )
                },
            }
        }),
{
    lemma_find(c.streams, f.stream_id);
}

pub(crate) proof fn lemma_end_from(
    streams: Seq<StreamView>,
    i: nat,
    side: Side,
    above: Option<u32>,
    cause: Cause,
    free: u32,
)
    ensures
        ({
            let after = end_from(streams, i, side, above, cause, free).0;
            &&& after.len() == streams.len()
            &&& forall|j: int| 0 <= j < streams.len() ==> #[trigger] after[j] == if j >= i
                && is_ended_by(streams[j], side, above) {
                ended(streams[j], cause)
            } else {
                streams[j]
            }
        }),
    decreases streams.len() - i,
{
    if i < streams.len() {
        let s = streams[i as int];
        if is_ended_by(s, side, above) {
            let next = streams.update(i as int, ended(s, cause));
            let left = (free + s.st.available) as u32;
            lemma_end_from(next, i + 1, side, above, cause, left);
            let after = end_from(next, i + 1, side, above, cause, left).0;
            assert forall|j: int| 0 <= j < streams.len() implies #[trigger] after[j] == if j >= i
                && is_ended_by(streams[j], side, above) {
                ended(streams[j], cause)
            } else {
                streams[j]
            } by {
                if j != i {
                    assert(next[j] == streams[j]);
                }
            }
        } else {
            lemma_end_from(streams, i + 1, side, above, cause, free);
        }
    }
}

/// A stream that is not over yet, and that one of this side above an identifier is, if one
/// is given.
pub open spec fn is_ended_by(s: StreamView, side: Side, above: Option<u32>) -> bool {
    &&& s.st.cause is None
    &&& !(s.st.send == Half::Closed && s.st.recv == Half::Closed && s.outbox.len() == 0)
    &&& above matches Some(id) ==> (s.st.id.id % 2 == 1) == (side == Side::Client) && s.st.id.id
        > id
}

/// A GOAWAY frame says which streams of this side the peer still serves: those above that
/// are over, with the peer's reason, and all others go on as they were. The reason is kept.
/// The peer may lower the identifier later, and not raise it.
pub proof fn law_the_peer_takes_its_leave(c: StreamsView, g: GoAwayView)
    ensures
        ({
            let last = g.last_stream_id.id;
            let (after, fault) = frame_received(c, FrameView::GoAway(g));
            if last > c.m.remote_served {
                after == c && fault == end_of_all()
            } else {
                &&& fault is None
                &&& after.m.remote_error == Some(g.error_code)
                &&& after.m.remote_served == last
                &&& after.remote_debug == g.debug_data
                &&& after.control == c.control
                &&& after.accept == c.accept
                &&& after.streams.len() == c.streams.len()
                &&& forall|j: int|
                    0 <= j < c.streams.len() ==> {
                        let s = c.streams[j];
                        let t = #[trigger] after.streams[j];
                        if is_ended_by(s, c.m.side, Some(last)) {
                            &&& t.st.cause == Some(
                                Cause::Connection(g.error_code, Initiator::Remote),
                            )
                            &&& t.st.send == Half::Closed && t.st.recv == Half::Closed
                            &&& t.outbox.len() == 0
                            &&& t.inbox == s.inbox
                        } else {
                            t == s
                        }
                    }
            }
        }),
{
    let last = g.last_stream_id.id;
    let cause = Cause::Connection(g.error_code, Initiator::Remote);
    lemma_end_from(c.streams, 0, c.m.side, Some(last), cause, c.m.free);
}

/// The settings of the peer count at once, each of them and no other, and are acknowledged
/// with one frame. The size that windows start with changes the window of every stream by
/// what it has changed by; what is in use of a window stays in use.
pub proof fn law_settings_are_taken_over(c: StreamsView, s: Settings)
    requires
        !s.ack,
        s.initial_window_size matches Some(n) ==> forall|j: int|
            0 <= j < c.streams.len() ==> n + (#[trigger] c.streams[j]).st.send_delta
                <= 0x7fff_ffff,
    ensures
        ({
            let (after, fault) = frame_received(c, FrameView::Settings(s));
            &&& fault is None
            &&& after.control.len() == c.control.len() + 1
            &&& after.control.take(c.control.len() as int) == c.control
            &&& after.control.last() matches FrameView::Settings(answer) && answer.ack
                && answer.initial_window_size is None && answer.max_frame_size is None
            &&& after.m.max_send_streams == match s.max_concurrent_streams {
                Some(n) => n as usize,
                None => c.m.max_send_streams,
            }
            &&& after.m.max_send_frame == match s.max_frame_size {
                Some(n) => n as usize,
                None => c.m.max_send_frame,
            }
            &&& after.m.init_send == match s.initial_window_size {
                Some(n) => n,
                None => c.m.init_send,
            }
            &&& after.m.send_window == c.m.send_window
            &&& after.m.init_recv == c.m.init_recv
            &&& after.m.recv_window == c.m.recv_window
            &&& after.m.local == c.m.local
            &&& after.accept == c.accept
            &&& after.streams.len() == c.streams.len()
            &&& forall|j: int|
                0 <= j < c.streams.len() ==> same_but_shared(
                    #[trigger] after.streams[j],
                    c.streams[j],
                )
        }),
{
    let (after, fault) = frame_received(c, FrameView::Settings(s));
    assert(after.control.take(c.control.len() as int) =~= c.control);
    match s.initial_window_size {
        None => {},
        Some(n) => {
            lemma_clamped_same(c.streams, 0, n, c.m.free);
            let (streams, free) = clamp_from(c.streams, 0, n, c.m.free);
            let m = Meter {
                max_send_streams: match s.max_concurrent_streams {
                    Some(n) => n as usize,
                    None => c.m.max_send_streams,
                },
                max_send_frame: match s.max_frame_size {
                    Some(n) => n as usize,
                    None => c.m.max_send_frame,
                },
                init_send: n,
                free,
                ..c.m
            };
            let d = StreamsView { streams, m, ..c };
            lemma_reassigned_same(d);
            assert forall|j: int| 0 <= j < c.streams.len() implies same_but_shared(
                #[trigger] reassigned(d).streams[j],
                c.streams[j],
            ) by {
                assert(same_but_shared(d.streams[j], c.streams[j]));
            }
        },
    }
}

proof fn lemma_clamped_same(streams: Seq<StreamView>, i: nat, init: u32, free: u32)
    ensures
        clamp_from(streams, i, init, free).0.len() == streams.len(),
        forall|j: int|
            0 <= j < streams.len() ==> same_but_shared(
                #[trigger] clamp_from(streams, i, init, free).0[j],
                streams[j],
            ),
    decreases streams.len() - i,
{
    if i < streams.len() {
        let s = streams[i as int];
        let window = s.st.send_window(init);
        let most = if window < 0 {
            0
        } else if window < s.st.available {
            window
        } else {
            s.st.available as int
        };
        let t = StreamView { st: StreamState { available: most as u32, ..s.st }, ..s };
        let next = streams.update(i as int, t);
        let left = (free + (s.st.available - most)) as u32;
        lemma_clamped_same(next, i + 1, init, left);
        assert forall|j: int| 0 <= j < streams.len() implies same_but_shared(
            #[trigger] clamp_from(streams, i, init, free).0[j],
            streams[j],
        ) by {
            assert(same_but_shared(clamp_from(next, i + 1, init, left).0[j], next[j]));
        }
    }
}

/// Settings that would make the window of a stream too large end the connection.
pub proof fn law_settings_beyond_the_windows(c: StreamsView, s: Settings, j: int)
    requires
        !s.ack,
        0 <= j < c.streams.len(),
        s.initial_window_size matches Some(n) && n + c.streams[j].st.send_delta > 0x7fff_ffff,
    ensures
        frame_received(c, FrameView::Settings(s)) == (
            c,
            Some(
                ErrorView::GoAway(Seq::empty(), Reason::FLOW_CONTROL_ERROR, Initiator::Library),
            ),
        ),
{
    let n = s.initial_window_size->0;
    assert(!(c.streams[j].st.send_window(n) <= MAX_WINDOW_SIZE));
}

/// The settings of this side count once the peer has acknowledged them, which it does once.
pub proof fn law_own_settings_count_once_acknowledged(c: StreamsView, s: Settings)
    requires
        s.ack,
    ensures
        ({
            let (after, fault) = frame_received(c, FrameView::Settings(s));
            &&& c.m.local_acked ==> after == c && fault == end_of_all()
            &&& !c.m.local_acked && (c.m.local.initial_window_size matches Some(n) ==> n
                <= 0x7fff_ffff) ==> {
                &&& fault is None
                &&& after.m.local_acked
                &&& after.m.init_recv == match c.m.local.initial_window_size {
                    Some(n) => n,
                    None => c.m.init_recv,
                }
                &&& after.streams == c.streams
                &&& after.control == c.control
                &&& after.accept == c.accept
            }
        }),
{
}

/// A promise is refused: the peer is told with a RST_STREAM frame, and nothing is handed
/// out. To a server, and where promises were ruled out, it is an error that ends the
/// connection.
pub proof fn law_promises_are_refused(c: StreamsView, p: PushPromiseView)
    ensures
        ({
            let (after, fault) = frame_received(c, FrameView::PushPromise(p));
            &&& after.accept == c.accept
            &&& c.m.side == Side::Server || c.m.local.enable_push == Some(0u32)
                || p.promised_id.id % 2 == 1 || p.promised_id.id <= c.m.last_remote ==> after == c
                && fault == end_of_all()
            &&& fault is None ==> find(c.streams, p.promised_id) is None ==> after.control
                == c.control.push(
                FrameView::Reset(
                    Reset { stream_id: p.promised_id, error_code: Reason::REFUSED_STREAM },
                ),
            ) && after.m.last_remote == p.promised_id.id
            &&& find(c.streams, p.stream_id) is None ==> fault == end_of_all()
            &&& c.m.side == Side::Client && c.m.local.enable_push != Some(0u32)
                && p.promised_id.id % 2 == 0 && p.promised_id.id > c.m.last_remote && (find(
                c.streams,
                p.stream_id,
            ) matches Some(i) && c.streams[i].st.recv != Half::Closed) ==> fault is None
        }),
{
    reveal(reset_by);
}

/// The settings of the peer bound what this side writes, from the next frame on: its largest
/// payload, and the size of its header table. What this side reads does not change.
pub proof fn law_settings_bound_what_is_written(v: ConnectionView, s: Settings)
    requires
        !s.ack,
        frame_received(v.streams, FrameView::Settings(s)).1 is None,
    ensures
        ({
            let after = stepped(v, FrameView::Settings(s)).codec;
            &&& after.write.max_frame_size == match s.max_frame_size {
                Some(n) => n as usize,
                None => v.codec.write.max_frame_size,
            }
            &&& after.write.encoder == match s.header_table_size {
                Some(n) => v.codec.write.encoder.allowed(n as usize),
                None => v.codec.write.encoder,
            }
            &&& after.write.buf == v.codec.write.buf && after.out == v.codec.out
            &&& after.read == v.codec.read
        }),
{
    reveal(stepped);
}

/// The settings of this side bound what it reads once they were acknowledged: the largest
/// payload, the size of the header lists that are kept, and that of the header table, from
/// the next block on. What it writes does not change.
pub proof fn law_own_settings_bound_what_is_read(v: ConnectionView, s: Settings)
    requires
        s.ack,
        frame_received(v.streams, FrameView::Settings(s)).1 is None,
    ensures
        ({
            let local = v.streams.m.local;
            let after = stepped(v, FrameView::Settings(s)).codec;
            &&& after.read.max_frame_size == match local.max_frame_size {
                Some(n) => n as usize,
                None => v.codec.read.max_frame_size,
            }
            &&& after.read.max_header_list_size == match local.max_header_list_size {
                Some(n) => n as usize,
                None => v.codec.read.max_header_list_size,
            }
            &&& local.header_table_size is None ==> after.read.decoder == v.codec.read.decoder
            &&& local.header_table_size matches Some(n) ==> {
                &&& after.read.decoder.table == v.codec.read.decoder.table
                &&& after.read.decoder.allowed == v.codec.read.decoder.allowed
                &&& after.read.decoder.pending matches Some(m) && m >= n && (
                v.codec.read.decoder.pending is None ==> m == n)
            }
            &&& after.read.buffer == v.codec.read.buffer
            &&& after.write == v.codec.write && after.out == v.codec.out
        }),
{
    reveal(stepped);
}

/// No other frame changes the codec.
pub proof fn law_other_frames_leave_the_codec(v: ConnectionView, f: FrameView)
    requires
        !(f is Settings),
    ensures
        stepped(v, f).codec == v.codec,
{
    reveal(stepped);
}

} // verus!
