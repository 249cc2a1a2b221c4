//! What holds between the two ends of a connection.

use crate::client;
use crate::client::peer::{received_response, sent_request};
use crate::client::request_sent;
use crate::codec::error::UserError;
use crate::codec::framed_read::{next_frame_of, FramedReadView};
use crate::codec::framed_write::{wire_of, FramedWriteView};
use crate::codec::round_trip::{enough_continuations, in_step, law_headers_arrive};
use crate::frame::data::DataView;
use crate::frame::headers::HeadersView;
use crate::frame::block::list_size;
use crate::frame::reload::{block_arrives, law_valid_blocks_arrive};
use crate::frame::{FrameView, StreamId};
use crate::hpack::field::FieldView;
use crate::message::{RequestView, ResponseView, Version};
use crate::names::CONNECT;
use crate::proto;
use crate::proto::connection::{read_all, reads_on, stepped, ConnectionView};
use crate::proto::delivery::{
    after_writing, deliverable, delivered, delivered_one, gets_across, law_frames_are_delivered,
    wires_of, with_buffer,
};
use crate::proto::flush::{sent_from, widened};
use crate::proto::laws::{inbox_of, law_body_is_received, received_bytes};
use crate::proto::pump::{lemma_find_update, pumped, BodyEventView};
use crate::proto::receiving::{awaits_body, law_trailers_are_received};
use crate::proto::recv::{
    announced_length, body_received, flow_len, headers_received, is_ended_here, opened_by_peer,
};
use crate::proto::send::{drain_step, drained};
use crate::proto::sending::{
    data_events, data_items, law_trailers_go_out, law_what_was_received_is_handed_out,
};
use crate::proto::stream::{Half, IncomingView, OutgoingView, StreamState, StreamView};
use crate::proto::streams::{
    active_count, find, is_local, lemma_find, local_ok, AcceptView, Meter, Side, StreamsView,
};
use crate::proto::user::{request_queued, response_queued, trailers_sent};
use crate::server;
use crate::server::peer::{received_request, sent_response};
use crate::uri::{is_authority, is_scheme, path_of};
use vstd::prelude::*;

verus! {

/// A request that arrives as it was sent: a CONNECT request without a protocol
/// names an authority and nothing else; any other has a target with all of its
/// parts. The parts are ones that the server accepts.
pub open spec fn arrives(request: RequestView) -> bool {
    let uri = request.uri;
    &&& request.protocol is Some ==> request.method == CONNECT@
    &&& uri.authority matches Some(a) && is_authority(a)
    &&& if request.method == CONNECT@ && request.protocol is None {
        uri.scheme is None && uri.path_and_query is None
    } else {
        &&& uri.scheme matches Some(s) && is_scheme(s)
        &&& uri.path_and_query matches Some(p) && p.len() > 0 && path_of(p) == Some(p)
    }
}

/// A request with all of its parts: a CONNECT request without a protocol names an
/// authority and nothing else; any other has a target with a scheme and a path too.
pub open spec fn is_whole(request: RequestView) -> bool {
    let uri = request.uri;
    &&& request.protocol is Some ==> request.method == CONNECT@
    &&& uri.authority is Some
    &&& if request.method == CONNECT@ && request.protocol is None {
        uri.scheme is None && uri.path_and_query is None
    } else {
        &&& uri.scheme is Some
        &&& uri.path_and_query matches Some(p) && p.len() > 0
    }
}

/// Every request that a client sends and that has all of its parts arrives as it is, if
/// its header list is not larger than what the server keeps.
pub proof fn law_sent_requests_arrive(
    v: client::ConnectionView,
    request: RequestView,
    end: bool,
    max: usize,
)
    requires
        is_whole(request),
        max <= 0x1000_0000,
    ensures
        request_sent(v, request, end) matches Ok((_, id)) ==> {
            &&& arrives(request)
            &&& sent_request(id, request, request.protocol, end) matches Ok(f) && (list_size(
                f.block.all(),
            ) < max ==> block_arrives(f.block, max))
        },
{
    reveal(request_queued);
    if let Ok((_, id)) = request_sent(v, request, end) {
        let f = sent_request(id, request, request.protocol, end)->Ok_0;
        if list_size(f.block.all()) < max {
            law_valid_blocks_arrive(f.block, max);
        }
    }
}

/// Every response that a server sends arrives as it is, if its header list is not
/// larger than what the client keeps.
pub proof fn law_sent_responses_arrive(
    c: StreamsView,
    id: StreamId,
    response: ResponseView,
    end: bool,
    max: usize,
)
    requires
        response.wf(),
        response_queued(c, id, sent_response(id, response, end).block, end) is Ok,
        list_size(sent_response(id, response, end).block.all()) < max,
        max <= 0x1000_0000,
    ensures
        block_arrives(sent_response(id, response, end).block, max),
{
    reveal(response_queued);
    law_valid_blocks_arrive(sent_response(id, response, end).block, max);
}

/// What a client sends is what the server gets: the header block of a request is
/// read as the request, which speaks HTTP/2 then.
pub proof fn law_request_arrives(id: StreamId, request: RequestView, end: bool)
    requires
        arrives(request),
    ensures
        sent_request(id, request, request.protocol, end) matches Ok(f) && received_request(
            f.block.pseudo,
            f.block.fields,
        ) == Some((RequestView { version: Version::HTTP_2, ..request })) && f.flags.end_stream
            == end && f.stream_id == id,
{
}

/// What a server sends is what the client gets.
pub proof fn law_response_arrives(id: StreamId, response: ResponseView, end: bool)
    ensures
        ({
            let f = sent_response(id, response, end);
            &&& received_response(f.block.pseudo, f.block.fields) == (ResponseView {
                version: Version::HTTP_2,
                ..response
            })
            &&& f.flags.end_stream == end
            &&& f.stream_id == id
        }),
{
}

/// A request with neither scheme nor authority can be sent only for an older
/// version of HTTP, and is given the scheme `http` then.
pub proof fn law_relative_requests(id: StreamId, request: RequestView, end: bool)
    requires
        request.uri.scheme is None,
        request.uri.authority is None,
    ensures
        request.version == Version::HTTP_2 ==> sent_request(id, request, request.protocol, end)
            == Err::<HeadersView, UserError>(UserError::MissingUriSchemeAndAuthority),
        request.version != Version::HTTP_2 ==> (sent_request(id, request, request.protocol, end)
            matches Ok(f) && f.block.pseudo.scheme == Some(crate::names::HTTP@)),
{
}

/// A header block of this frame gets across from a writer to a reader: it is one
/// that arrives, and its CONTINUATION frames are not too many.
pub open spec fn crosses(v: FramedReadView, w: FramedWriteView, f: HeadersView) -> bool {
    &&& f.stream_id.wf()
    &&& f.stream_id.id != 0
    &&& block_arrives(f.block, v.max_header_list_size)
    &&& enough_continuations(v, w, f.block, w.max_frame_size as int)
}

/// The bytes that a client writes for a request are read by the server as that
/// request, and nothing of them is left.
pub proof fn law_request_crosses(
    v: FramedReadView,
    w: FramedWriteView,
    id: StreamId,
    request: RequestView,
    end: bool,
    more: Seq<u8>,
)
    requires
        v.wf(),
        in_step(v, w),
        arrives(request),
        sent_request(id, request, request.protocol, end) matches Ok(f) ==> crosses(v, w, f)
            && v.buffer == wire_of(w, FrameView::Headers(f)) + more,
    ensures
        ({
            let (after, read) = next_frame_of(v);
            &&& after.buffer == more
            &&& after.partial is None
            &&& read matches Ok(Some(FrameView::Headers(f))) && f.stream_id == id
                && f.flags.end_stream == end && received_request(f.block.pseudo, f.block.fields)
                == Some((RequestView { version: Version::HTTP_2, ..request }))
        }),
{
    law_request_arrives(id, request, end);
    let f = sent_request(id, request, request.protocol, end)->Ok_0;
    law_headers_arrive(v, w, f, more);
}

/// The bytes that a server writes for a response are read by the client as that
/// response, and nothing of them is left.
pub proof fn law_response_crosses(
    v: FramedReadView,
    w: FramedWriteView,
    id: StreamId,
    response: ResponseView,
    end: bool,
    more: Seq<u8>,
)
    requires
        v.wf(),
        in_step(v, w),
        crosses(v, w, sent_response(id, response, end)),
        v.buffer == wire_of(w, FrameView::Headers(sent_response(id, response, end))) + more,
    ensures
        ({
            let (after, read) = next_frame_of(v);
            &&& after.buffer == more
            &&& after.partial is None
            &&& read matches Ok(Some(FrameView::Headers(f))) && f.stream_id == id
                && f.flags.end_stream == end && received_response(f.block.pseudo, f.block.fields)
                == (ResponseView { version: Version::HTTP_2, ..response })
        }),
{
    law_headers_arrive(v, w, sent_response(id, response, end), more);
}

/// A client and a server that are just made can read what the other writes.
pub proof fn law_new_connections_are_in_step(
    c: client::ConnectionView,
    s: server::ConnectionView,
    cb: client::Builder,
    sb: server::Builder,
)
    requires
        cb.wf(),
        sb.wf(),
        client::is_new(c, cb),
        server::is_new(s, sb),
    ensures
        in_step(s.inner.codec.read, c.inner.codec.write),
        in_step(c.inner.codec.read, s.inner.codec.write),
        s.inner.codec.read.wf(),
        c.inner.codec.read.wf(),
        reads_on(s.inner),
        reads_on(c.inner),
{
}

/// A request that was sent goes out in its HEADERS frame, and in nothing else, once
/// it is the turn of its stream and one more stream may be open.
pub proof fn law_request_goes_out(
    v: client::ConnectionView,
    request: RequestView,
    end: bool,
    turn: StreamsView,
)
    requires
        request_sent(v, request, end) matches Ok((after, _)) && turn.streams.len()
            == after.inner.streams.streams.len() && turn.streams.last()
            == after.inner.streams.streams.last(),
        active_count(turn.streams, turn.m.side, true) < turn.m.max_send_streams,
    ensures
        request_sent(v, request, end) matches Ok((_, id)) && sent_request(
            id,
            request,
            request.protocol,
            end,
        ) matches Ok(f) && sent_from(turn, turn.streams.len() - 1).1 == seq![
            FrameView::Headers(f),
        ],
{
    reveal(request_queued);
    let c = v.inner.streams;
    let id = StreamId { id: c.m.next_id };
    let f = sent_request(id, request, request.protocol, end)->Ok_0;
    let (s, update) = widened(turn.streams.last(), turn.m.init_recv);
    let s = StreamView { st: StreamState { opened: true, ..s.st }, ..s };
    let max = turn.m.max_send_frame;
    let (next, first) = drain_step(s, max)->0;
    assert(s.outbox.len() == 1);
    assert(s.outbox[0] == OutgoingView::Headers(f.block, end));
    assert(next.outbox.len() == 0);
    assert(first == FrameView::Headers(f));
    assert(drained(next, max).1 =~= Seq::<FrameView>::empty());
    assert(drained(s, max).1 =~= seq![first]);
    assert(update + seq![first] =~= seq![first]);
}

/// A response that was sent goes out in its HEADERS frame once it is the turn of
/// its stream. At most a WINDOW_UPDATE frame for the request goes before it.
pub proof fn law_response_goes_out(c: StreamsView, id: StreamId, response: ResponseView, end: bool)
    requires
        response_queued(c, id, sent_response(id, response, end).block, end) is Ok,
        find(c.streams, id) matches Some(i) && c.streams[i].outbox.len() == 0
            && c.streams[i].st.opened,
    ensures
        ({
            let f = sent_response(id, response, end);
            let after = response_queued(c, id, f.block, end)->Ok_0;
            let i = find(c.streams, id)->0;
            sent_from(after, i).1 == widened(after.streams[i], after.m.init_recv).1 + seq![
                FrameView::Headers(f),
            ]
        }),
{
    reveal(response_queued);
    lemma_find(c.streams, id);
    let f = sent_response(id, response, end);
    let after = response_queued(c, id, f.block, end)->Ok_0;
    let i = find(c.streams, id)->0;
    let (s, update) = widened(after.streams[i], after.m.init_recv);
    let s = StreamView { st: StreamState { opened: true, ..s.st }, ..s };
    let max = after.m.max_send_frame;
    let (next, first) = drain_step(s, max)->0;
    assert(s.outbox[0] == OutgoingView::Headers(f.block, end));
    assert(next.outbox.len() == 0);
    assert(first == FrameView::Headers(f));
    assert(drained(next, max).1 =~= Seq::<FrameView>::empty());
    assert(drained(s, max).1 =~= seq![first]);
}

/// A server takes a request with this HEADERS frame: it is on a new stream of the
/// client, there is room for one more, no leave was taken before it, and the
/// length that its headers announce is one that it can have.
pub open spec fn takes_request(c: StreamsView, f: HeadersView) -> bool {
    let id = f.stream_id;
    &&& c.m.side == Side::Server
    &&& !is_local(c.m.side, id)
    &&& c.is_idle(id)
    &&& find(c.streams, id) is None
    &&& id.id <= c.m.served
    &&& active_count(c.streams, c.m.side, false) < c.m.max_recv_streams
    &&& announced_length(opened_by_peer(c, id).streams.last().st, f) is Some
}

/// A request that a server takes waits to be accepted, behind all that came
/// before it.
pub proof fn law_request_waits(c: StreamsView, id: StreamId, request: RequestView, end: bool)
    requires
        arrives(request),
        sent_request(id, request, request.protocol, end) matches Ok(f) ==> takes_request(c, f),
    ensures
        sent_request(id, request, request.protocol, end) matches Ok(f) && headers_received(c, f)
            matches (after, None) && after.accept == c.accept.push(
            AcceptView { id, request: RequestView { version: Version::HTTP_2, ..request } },
        ),
{
    law_request_arrives(id, request, end);
}

/// What a client sends as a request reaches the server: once the server has read
/// the bytes, the request waits to be accepted there, behind all that came before
/// it.
pub proof fn law_request_reaches_server(
    v: ConnectionView,
    w: FramedWriteView,
    id: StreamId,
    request: RequestView,
    end: bool,
)
    requires
        v.codec.read.wf(),
        local_ok(v.streams.m.local),
        reads_on(v),
        arrives(request),
        sent_request(id, request, request.protocol, end) matches Ok(f) ==> takes_request(
            v.streams,
            f,
        ) && gets_across(v.codec.read, w, FrameView::Headers(f)),
    ensures
        sent_request(id, request, request.protocol, end) matches Ok(f) && read_all(
            with_buffer(v, wire_of(w, FrameView::Headers(f))),
        ).streams.accept == v.streams.accept.push(
            AcceptView { id, request: RequestView { version: Version::HTTP_2, ..request } },
        ),
{
    law_request_waits(v.streams, id, request, end);
    let f = sent_request(id, request, request.protocol, end)->Ok_0;
    lemma_delivers_one(v, w, FrameView::Headers(f));
    reveal(stepped);
}

/// A client takes a response with this HEADERS frame: it is awaited, is no
/// preliminary one, and the length that its headers announce is one that it can
/// have.
pub open spec fn takes_response(c: StreamsView, f: HeadersView) -> bool {
    &&& c.m.side == Side::Client
    &&& find(c.streams, f.stream_id) matches Some(i) && c.streams[i].st.recv
        == Half::AwaitingHeaders && !is_ended_here(c.streams[i].st) && announced_length(
        c.streams[i].st,
        f,
    ) is Some
    &&& f.block.pseudo.status matches Some(n) && n >= 200
}

/// A response that a client takes waits to be read on its stream, behind all that
/// came before it.
pub proof fn law_response_waits(c: StreamsView, id: StreamId, response: ResponseView, end: bool)
    requires
        takes_response(c, sent_response(id, response, end)),
    ensures
        headers_received(c, sent_response(id, response, end)) matches (after, None) && inbox_of(
            after,
            id,
        ) == inbox_of(c, id).push(
            IncomingView::Response(ResponseView { version: Version::HTTP_2, ..response }),
        ),
{
    let f = sent_response(id, response, end);
    lemma_find(c.streams, id);
    let i = find(c.streams, id)->0;
    let after = headers_received(c, f).0;
    lemma_find_update(c.streams, id, i, after.streams[i]);
}

/// What a server sends as a response reaches the client: once the client has read
/// the bytes, the response waits to be read on its stream, behind all that came
/// before it.
pub proof fn law_response_reaches_client(
    v: ConnectionView,
    w: FramedWriteView,
    id: StreamId,
    response: ResponseView,
    end: bool,
)
    requires
        v.codec.read.wf(),
        local_ok(v.streams.m.local),
        reads_on(v),
        takes_response(v.streams, sent_response(id, response, end)),
        gets_across(v.codec.read, w, FrameView::Headers(sent_response(id, response, end))),
    ensures
        ({
            let f = FrameView::Headers(sent_response(id, response, end));
            inbox_of(read_all(with_buffer(v, wire_of(w, f))).streams, id) == inbox_of(
                v.streams,
                id,
            ).push(IncomingView::Response(ResponseView { version: Version::HTTP_2, ..response }))
        }),
{
    law_response_waits(v.streams, id, response, end);
    lemma_delivers_one(v, w, FrameView::Headers(sent_response(id, response, end)));
    reveal(stepped);
}

/// A connection takes a part of a body with this DATA frame: its stream waits for
/// it, both windows allow it, and so does the length that was announced.
pub open spec fn takes_data(c: StreamsView, f: DataView) -> bool {
    find(c.streams, f.stream_id) matches Some(i) && {
        let st = c.streams[i].st;
        &&& st.recv == Half::Streaming
        &&& !is_ended_here(st)
        &&& flow_len(f) <= c.m.recv_window
        &&& flow_len(f) <= st.recv_window(c.m.init_recv)
        &&& st.remaining matches Some(n) ==> f.data.len() <= n && (f.end_stream ==> f.data.len()
            == n)
    }
}

/// What one side sends as a part of a body reaches the other: once it has read the
/// bytes, they wait to be read on their stream, behind all that came before them.
pub proof fn law_body_reaches_peer(v: ConnectionView, w: FramedWriteView, f: DataView)
    requires
        v.codec.read.wf(),
        local_ok(v.streams.m.local),
        reads_on(v),
        takes_data(v.streams, f),
        gets_across(v.codec.read, w, FrameView::Data(f)),
    ensures
        ({
            let after = read_all(with_buffer(v, wire_of(w, FrameView::Data(f)))).streams;
            received_bytes(inbox_of(after, f.stream_id)) == received_bytes(
                inbox_of(v.streams, f.stream_id),
            ) + f.data
        }),
{
    let c = v.streams;
    let id = f.stream_id;
    lemma_delivers_one(v, w, FrameView::Data(f));
    reveal(stepped);
    lemma_find(c.streams, id);
    let i = find(c.streams, id)->0;
    let counted = StreamsView {
        m: Meter { recv_window: (c.m.recv_window - flow_len(f)) as u32, ..c.m },
        ..c
    };
    law_body_is_received(counted, i, f);
    let after = body_received(counted, i, f).0;
    lemma_find_update(c.streams, id, i, after.streams[i]);
}

/// What one side sends as trailers reaches the other: once it has read the bytes of a
/// header block that ends the message, its fields, and exactly those, wait to be read on
/// their stream, behind all that came before them.
pub proof fn law_trailers_reach_peer(v: ConnectionView, w: FramedWriteView, h: HeadersView, i: int)
    requires
        v.codec.read.wf(),
        local_ok(v.streams.m.local),
        reads_on(v),
        awaits_body(v.streams, h.stream_id, i),
        v.streams.streams[i].st.remaining is None || v.streams.streams[i].st.remaining == Some(
            0u64,
        ),
        h.flags.end_stream,
        gets_across(v.codec.read, w, FrameView::Headers(h)),
    ensures
        inbox_of(
            read_all(with_buffer(v, wire_of(w, FrameView::Headers(h)))).streams,
            h.stream_id,
        ) == inbox_of(v.streams, h.stream_id).push(IncomingView::Trailers(h.block.fields)),
{
    let c = v.streams;
    let id = h.stream_id;
    lemma_delivers_one(v, w, FrameView::Headers(h));
    reveal(stepped);
    lemma_find(c.streams, id);
    law_trailers_are_received(c, h, i);
    let after = headers_received(c, h).0;
    lemma_find_update(c.streams, id, i, after.streams[i]);
}

/// Trailers that are sent on a stream are the trailers that the peer hands out: what goes
/// out is one HEADERS frame, and a peer that awaits the body, and to which it gets across,
/// hands out exactly the fields that were sent.
pub proof fn law_trailers_are_delivered(
    c: StreamsView,
    id: StreamId,
    fields: Seq<FieldView>,
    i: int,
    peer: ConnectionView,
    w: FramedWriteView,
    k: int,
)
    requires
        trailers_sent(c, id, fields) is Ok,
        find(c.streams, id) == Some(i),
        c.streams[i].outbox.len() == 0,
        c.streams[i].st.opened,
        peer.codec.read.wf(),
        local_ok(peer.streams.m.local),
        reads_on(peer),
        awaits_body(peer.streams, id, k),
        peer.streams.streams[k].inbox.len() == 0,
        peer.streams.streams[k].st.remaining is None
            || peer.streams.streams[k].st.remaining == Some(0u64),
        gets_across(
            peer.codec.read,
            w,
            sent_from(trailers_sent(c, id, fields)->Ok_0, i).1.last(),
        ),
    ensures
        ({
            let f = sent_from(trailers_sent(c, id, fields)->Ok_0, i).1.last();
            let after = read_all(with_buffer(peer, wire_of(w, f))).streams;
            pumped(after, id).1 == seq![BodyEventView::Trailers(fields)]
        }),
{
    law_trailers_go_out(c, id, fields, i);
    let f = sent_from(trailers_sent(c, id, fields)->Ok_0, i).1.last();
    let h = f->Headers_0;
    law_trailers_reach_peer(peer, w, h, k);
    let after = read_all(with_buffer(peer, wire_of(w, f))).streams;
    lemma_find(peer.streams.streams, id);
    lemma_find(after.streams, id);
    let parts = Seq::<Seq<u8>>::empty();
    assert(inbox_of(after, id) =~= seq![IncomingView::Trailers(fields)]);
    let n = find(after.streams, id)->0;
    assert(after.streams[n].inbox =~= data_items(parts) + seq![IncomingView::Trailers(fields)]);
    law_what_was_received_is_handed_out(after, id, n, parts, Some(fields));
    assert(data_events(parts) + seq![BodyEventView::Trailers(fields)] =~= seq![
        BodyEventView::Trailers(fields),
    ]);
}

proof fn lemma_delivers_one(v: ConnectionView, w: FramedWriteView, f: FrameView)
    requires
        v.codec.read.wf(),
        local_ok(v.streams.m.local),
        reads_on(v),
        gets_across(v.codec.read, w, f),
    ensures
        read_all(with_buffer(v, wire_of(w, f))).streams == delivered_one(v, w, f).streams,
{
    let frames = seq![f];
    let none = Seq::<u8>::empty();
    let next = delivered_one(v, w, f);
    assert(frames.skip(1) =~= Seq::<FrameView>::empty());
    assert(deliverable(next, after_writing(w, f), frames.skip(1)));
    assert(deliverable(v, w, frames));
    assert(delivered(next, after_writing(w, f), frames.skip(1)) == next);
    assert(wires_of(after_writing(w, f), frames.skip(1)) =~= none);
    assert(wires_of(w, frames) + none =~= wire_of(w, f));
    law_frames_are_delivered(v, w, frames, none);
    let end = with_buffer(next, none);
    assert(read_all(end).streams == next.streams) by {
        if reads_on(end) {
            assert(next_frame_of(end.codec.read) == (
                end.codec.read,
                Ok::<Option<FrameView>, proto::ErrorView>(None),
            ));
        }
    }
}

} // verus!
