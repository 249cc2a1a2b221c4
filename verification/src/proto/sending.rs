//! What is queued is what goes out, and what was received is what is handed out.

use crate::codec::error::UserError;
use crate::frame::block::{is_connection_header, no_pseudo, BlockView};
use crate::frame::control::Reset;
use crate::frame::{FrameView, Reason, StreamId};
use crate::hpack::field::FieldView;
use crate::names::{TE, TRAILERS};
use crate::proto::control::{handled, noticed};
use crate::proto::error::{ErrorView, Initiator};
use crate::proto::flush::{sent_from, widened};
use crate::proto::laws::{lemma_assign_from, same_but_available};
use crate::proto::pump::{
    accepted, at_end_of, data_taken, lemma_data_taken, lemma_find_update, pumped, read_from,
    reason_of_error, response_of, BodyEventView,
};
use crate::proto::send::{
    assigned, data_queued, drain_step, drained, ended, fields_ok, reserved, trailers_queued,
};
use crate::proto::stream::{
    Cause, Half, IncomingView, OutgoingView, ResponsePollView, StreamState, StreamView,
};
use crate::proto::streams::{
    assign_from, find, kept_count, lemma_find, reassigned, Meter, Shutdown, Side, StreamsView,
};
use crate::proto::user::{
    capacity_reserved, data_sent, forgotten, given_up, released, replaced, request_queued,
    reset_by, response_queued, stream_capacity, trailers_block, trailers_sent,
};
use vstd::prelude::*;

verus! {

/// Headers that go out as they are: each is one that a message can have, none speaks of
/// the connection, and `te` says nothing but `trailers`.
pub open spec fn can_go_out(fields: Seq<FieldView>) -> bool {
    forall|i: int|
        0 <= i < fields.len() ==> {
            let f = #[trigger] fields[i];
            &&& f.wf()
            &&& !is_connection_header(f.name)
            &&& f.name == TE@ ==> f.value == TRAILERS@
        }
}

/// What sending on one stream leaves as it is: the other streams, but for how capacity is
/// shared out, and what goes out before the frames of streams.
pub open spec fn changes_only(c: StreamsView, d: StreamsView, i: int) -> bool {
    &&& d.streams.len() == c.streams.len()
    &&& forall|j: int|
        0 <= j < c.streams.len() && j != i ==> same_but_available(
            #[trigger] d.streams[j],
            c.streams[j],
        )
    &&& d.control == c.control
    &&& d.accept == c.accept
    &&& d.streams[i].inbox == c.streams[i].inbox
    &&& d.streams[i].st.id == c.streams[i].st.id
    &&& d.streams[i].st.recv == c.streams[i].st.recv
    &&& d.streams[i].st.cause == c.streams[i].st.cause
    &&& d.streams[i].st.opened == c.streams[i].st.opened
    &&& d.streams[i].st.send_delta == c.streams[i].st.send_delta
    &&& d.m.send_window == c.m.send_window
}

proof fn lemma_changes_only(c: StreamsView, i: int, t: StreamView, m: Meter)
    requires
        0 <= i < c.streams.len(),
        t.inbox == c.streams[i].inbox,
        t.st.id == c.streams[i].st.id,
        t.st.recv == c.streams[i].st.recv,
        t.st.cause == c.streams[i].st.cause,
        t.st.opened == c.streams[i].st.opened,
        t.st.send_delta == c.streams[i].st.send_delta,
        m.send_window == c.m.send_window,
    ensures
        changes_only(c, replaced(c, i, t, m), i),
        changes_only(c, reassigned(replaced(c, i, t, m)), i),
        reassigned(replaced(c, i, t, m)).streams[i].outbox == t.outbox,
        reassigned(replaced(c, i, t, m)).streams[i].st.send == t.st.send,
        reassigned(replaced(c, i, t, m)).streams[i].st.buffered == t.st.buffered,
        reassigned(replaced(c, i, t, m)).streams[i].st.requested == t.st.requested,
{
    let d = replaced(c, i, t, m);
    lemma_assign_from(d.streams, 0, d.m.init_send, d.m.free);
    let e = reassigned(d);
    assert(same_but_available(e.streams[i], d.streams[i]));
    assert forall|j: int| 0 <= j < c.streams.len() && j != i implies same_but_available(
        #[trigger] e.streams[j],
        c.streams[j],
    ) by {
        assert(d.streams[j] == c.streams[j]);
    }
}

/// Trailers that are sent wait behind all that waits on the stream: as one header block
/// without pseudo-headers, with exactly their fields, which ends the message.
pub proof fn law_trailers_are_queued(c: StreamsView, id: StreamId, fields: Seq<FieldView>)
    ensures
        trailers_sent(c, id, fields) matches Ok(after) ==> {
            &&& find(c.streams, id) matches Some(i) && {
                &&& 0 <= i < c.streams.len()
                &&& changes_only(c, after, i)
                &&& after.streams[i].st.send == Half::Closed
                &&& after.streams[i].outbox == c.streams[i].outbox.push(
                    OutgoingView::Headers(
                        BlockView { pseudo: no_pseudo(), fields, is_over_size: false },
                        true,
                    ),
                )
            }
        },
{
    reveal(trailers_sent);
    lemma_find(c.streams, id);
    if let Some(i) = find(c.streams, id) {
        let s = c.streams[i];
        let block = trailers_block(fields);
        if let Ok((t, free)) = trailers_queued(s, block, c.m.init_send, c.m.free) {
            lemma_changes_only(c, i, t, Meter { free, ..c.m });
        }
    }
}

/// Trailers are sent exactly where a body is: on a stream on which the head went out and
/// the message has not ended. Ones that cannot go out as they are are refused.
pub proof fn law_when_trailers_are_sent(c: StreamsView, id: StreamId, fields: Seq<FieldView>)
    ensures
        match find(c.streams, id) {
            None => trailers_sent(c, id, fields) == Err::<StreamsView, UserError>(
                UserError::InactiveStreamId,
            ),
            Some(i) => {
                let st = c.streams[i].st;
                if !can_go_out(fields) {
                    trailers_sent(c, id, fields) == Err::<StreamsView, UserError>(
                        UserError::MalformedHeaders,
                    )
                } else if st.send == Half::Streaming {
                    trailers_sent(c, id, fields) is Ok
                } else {
                    trailers_sent(c, id, fields) == Err::<StreamsView, UserError>(
                        if st.send == Half::Closed && st.recv == Half::Closed {
                            UserError::InactiveStreamId
                        } else {
                            UserError::UnexpectedFrameType
                        },
                    )
                }
            },
        },
{
    reveal(trailers_sent);
    lemma_can_go_out(fields);
    assert(trailers_block(fields).fields == fields);
}

proof fn lemma_can_go_out(fields: Seq<FieldView>)
    ensures
        can_go_out(fields) == fields_ok(fields),
{
    if fields_ok(fields) {
        assert forall|i: int| 0 <= i < fields.len() implies {
            let f = #[trigger] fields[i];
            &&& f.wf()
            &&& !is_connection_header(f.name)
            &&& f.name == TE@ ==> f.value == TRAILERS@
        } by {
            assert(fields[i].wf());
        }
    }
    if can_go_out(fields) {
        assert forall|i: int| 0 <= i < fields.len() implies (#[trigger] fields[i]).wf()
            && !is_connection_header(fields[i].name) && (fields[i].name == TE@ ==> fields[i].value
            == TRAILERS@) by {}
    }
}

/// Trailers go out in one HEADERS frame with exactly their fields, which ends the stream,
/// once nothing else waits.
pub proof fn law_trailers_go_out(c: StreamsView, id: StreamId, fields: Seq<FieldView>, i: int)
    requires
        trailers_sent(c, id, fields) is Ok,
        find(c.streams, id) == Some(i),
        c.streams[i].outbox.len() == 0,
        c.streams[i].st.opened,
    ensures
        ({
            let (after, frames) = sent_from(trailers_sent(c, id, fields)->Ok_0, i);
            &&& frames.len() > 0
            &&& frames.last() matches FrameView::Headers(h) && {
                &&& h.stream_id == id
                &&& h.block.fields == fields
                &&& h.block.pseudo == no_pseudo()
                &&& h.flags.end_stream
                &&& h.flags.end_headers
            }
            &&& after.streams[i].outbox.len() == 0
        }),
{
    law_trailers_are_queued(c, id, fields);
    lemma_find(c.streams, id);
    let d = trailers_sent(c, id, fields)->Ok_0;
    let (s, update) = widened(d.streams[i], d.m.init_recv);
    let s = StreamView { st: StreamState { opened: true, ..s.st }, ..s };
    let block = BlockView { pseudo: no_pseudo(), fields, is_over_size: false };
    assert(s.outbox =~= seq![OutgoingView::Headers(block, true)]);
    let (next, f) = drain_step(s, d.m.max_send_frame)->0;
    assert(next.outbox.len() == 0);
    assert(drained(next, d.m.max_send_frame) == (next, Seq::<FrameView>::empty()));
    assert(drained(s, d.m.max_send_frame).1 =~= seq![f]);
    assert(sent_from(d, i).1 =~= update.push(f));
}

/// A part of a body that is sent waits behind all that waits on the stream, as it is, and
/// with the word whether the message ends with it.
pub proof fn law_data_is_queued(c: StreamsView, id: StreamId, data: Seq<u8>, end: bool)
    ensures
        data_sent(c, id, data, end) matches Ok(after) ==> {
            &&& find(c.streams, id) matches Some(i) && {
                &&& 0 <= i < c.streams.len()
                &&& changes_only(c, after, i)
                &&& after.streams[i].st.send == if end {
                    Half::Closed
                } else {
                    Half::Streaming
                }
                &&& after.streams[i].st.buffered == c.streams[i].st.buffered + data.len()
                &&& !end ==> after.streams[i].st.requested >= after.streams[i].st.buffered
                    || after.streams[i].st.requested == u32::MAX
                &&& after.streams[i].outbox == c.streams[i].outbox.push(
                    OutgoingView::Data(data, end),
                )
            }
        },
{
    reveal(data_sent);
    lemma_find(c.streams, id);
    if let Some(i) = find(c.streams, id) {
        let s = c.streams[i];
        if let Ok((t, free)) = data_queued(s, data, end, c.m.init_send, c.m.free) {
            lemma_changes_only(c, i, t, Meter { free, ..c.m });
        }
    }
}

/// A part of a body is sent exactly on a stream on which the head went out and the message
/// has not ended, if it is not larger than any window can be.
pub proof fn law_when_data_is_sent(c: StreamsView, id: StreamId, data: Seq<u8>, end: bool)
    requires
        find(c.streams, id) matches Some(i) ==> c.streams[i].st.buffered + data.len()
            <= usize::MAX,
    ensures
        match find(c.streams, id) {
            None => data_sent(c, id, data, end) == Err::<StreamsView, UserError>(
                UserError::InactiveStreamId,
            ),
            Some(i) => {
                let st = c.streams[i].st;
                if data.len() > 0x7fff_ffff {
                    data_sent(c, id, data, end) == Err::<StreamsView, UserError>(
                        UserError::PayloadTooBig,
                    )
                } else if st.send == Half::Streaming {
                    data_sent(c, id, data, end) is Ok
                } else {
                    data_sent(c, id, data, end) == Err::<StreamsView, UserError>(
                        if st.send == Half::Closed && st.recv == Half::Closed {
                            UserError::InactiveStreamId
                        } else {
                            UserError::UnexpectedFrameType
                        },
                    )
                }
            },
        },
{
    reveal(data_sent);
}

/// The head of a response that is sent waits on its stream as it is, behind nothing but
/// what waited already, with the word whether the message ends with it; nothing else
/// changes. It can be sent once, while no head was.
pub proof fn law_heads_are_queued(c: StreamsView, id: StreamId, block: BlockView, end: bool)
    ensures
        match find(c.streams, id) {
            None => response_queued(c, id, block, end) == Err::<StreamsView, UserError>(
                UserError::InactiveStreamId,
            ),
            Some(i) => {
                let s = c.streams[i];
                if !can_go_out(block.fields) {
                    response_queued(c, id, block, end) == Err::<StreamsView, UserError>(
                        UserError::MalformedHeaders,
                    )
                } else if s.st.send != Half::AwaitingHeaders {
                    response_queued(c, id, block, end) is Err
                } else {
                    &&& response_queued(c, id, block, end) matches Ok(after) && after
                        == StreamsView {
                        streams: c.streams.update(
                            i,
                            StreamView {
                                st: StreamState {
                                    send: if end {
                                        Half::Closed
                                    } else {
                                        Half::Streaming
                                    },
                                    ..s.st
                                },
                                outbox: s.outbox.push(OutgoingView::Headers(block, end)),
                                ..s
                            },
                        ),
                        ..c
                    }
                }
            },
        },
{
    reveal(response_queued);
    lemma_can_go_out(block.fields);
}

/// A request can be sent while neither side has taken its leave, the connection has not
/// ended, and there is an identifier left. It opens a stream on which its head waits, and
/// nothing else changes.
pub proof fn law_requests_are_queued(c: StreamsView, block: BlockView, end: bool, head: bool)
    ensures
        ({
            let open = c.m.closed is None && c.m.remote_error is None && c.m.shutdown
                == Shutdown::Off;
            let r = request_queued(c, block, end, head);
            if !open {
                r == Err::<(StreamsView, StreamId), UserError>(UserError::Rejected)
            } else if c.m.next_id > 0x7fff_ffff {
                r == Err::<(StreamsView, StreamId), UserError>(UserError::OverflowedStreamId)
            } else if !can_go_out(block.fields) {
                r == Err::<(StreamsView, StreamId), UserError>(UserError::MalformedHeaders)
            } else {
                r matches Ok((after, id)) && {
                    let s = after.streams.last();
                    &&& id.id == c.m.next_id
                    &&& after.streams == c.streams.push(s)
                    &&& s.st.id == id
                    &&& s.outbox == seq![OutgoingView::Headers(block, end)]
                    &&& s.inbox.len() == 0
                    &&& s.st.recv == Half::AwaitingHeaders
                    &&& s.st.send == if end {
                        Half::Closed
                    } else {
                        Half::Streaming
                    }
                    &&& s.st.cause is None
                    &&& s.st.head == head
                    &&& !s.st.opened
                    &&& !s.st.released
                    &&& s.st.send_delta == 0 && s.st.owed == 0
                    &&& after.control == c.control
                    &&& after.m == Meter { next_id: (c.m.next_id + 2) as u32, ..c.m }
                }
            }
        }),
{
    reveal(request_queued);
    lemma_can_go_out(block.fields);
    if let Ok((after, id)) = request_queued(c, block, end, head) {
        assert(after.streams =~= c.streams.push(after.streams.last()));
        assert(after.streams.last().outbox =~= seq![OutgoingView::Headers(block, end)]);
    }
}

/// The reason of the end of a stream.
pub open spec fn reason_of_cause(cause: Cause) -> Reason {
    match cause {
        Cause::Stream(reason, _) => reason,
        Cause::Connection(reason, _) => reason,
    }
}

/// The parts of a body, as events.
pub open spec fn data_events(parts: Seq<Seq<u8>>) -> Seq<BodyEventView> {
    parts.map_values(|d: Seq<u8>| BodyEventView::Data(d))
}

/// The parts of a body, as they wait to be read.
pub open spec fn data_items(parts: Seq<Seq<u8>>) -> Seq<IncomingView> {
    parts.map_values(|d: Seq<u8>| IncomingView::Data(d))
}

/// What is handed out of a message behind its head is what was received, part by part and
/// in order. Behind the parts come the trailers, if they were received; or the reason of
/// the end, if the stream ended before its time; or the end of the message, if that was
/// received; or nothing yet.
pub proof fn law_what_was_received_is_handed_out(
    c: StreamsView,
    id: StreamId,
    i: int,
    parts: Seq<Seq<u8>>,
    trailers: Option<Seq<FieldView>>,
)
    requires
        find(c.streams, id) == Some(i),
        c.streams[i].inbox == data_items(parts) + match trailers {
            Some(t) => seq![IncomingView::Trailers(t)],
            None => Seq::empty(),
        },
    ensures
        ({
            let s = c.streams[i];
            let (after, events, done) = pumped(c, id);
            let last = match trailers {
                Some(t) => seq![BodyEventView::Trailers(t)],
                None => match s.st.cause {
                    Some(cause) => seq![BodyEventView::Reset(reason_of_cause(cause))],
                    None => if s.st.recv == Half::Closed {
                        seq![BodyEventView::End]
                    } else {
                        Seq::empty()
                    },
                },
            };
            &&& events == data_events(parts) + last
            &&& done == (last.len() > 0)
        }),
    decreases parts.len(),
{
    reveal(pumped);
    lemma_find(c.streams, id);
    let s = c.streams[i];
    let tail = match trailers {
        Some(t) => seq![IncomingView::Trailers(t)],
        None => Seq::<IncomingView>::empty(),
    };
    if parts.len() == 0 {
        assert(data_items(parts) =~= Seq::<IncomingView>::empty());
        assert(s.inbox =~= tail);
        assert(data_events(parts) =~= Seq::<BodyEventView>::empty());
        assert(pumped(c, id).1 =~= data_events(parts) + match trailers {
            Some(t) => seq![BodyEventView::Trailers(t)],
            None => match s.st.cause {
                Some(cause) => seq![BodyEventView::Reset(reason_of_cause(cause))],
                None => if s.st.recv == Half::Closed {
                    seq![BodyEventView::End]
                } else {
                    Seq::empty()
                },
            },
        });
    } else {
        let d = parts[0];
        assert(s.inbox[0] == IncomingView::Data(d));
        let next = data_taken(c, id, d.len());
        lemma_data_taken(c, id, d.len());
        lemma_taken(c, id, i, d.len());
        let rest = parts.skip(1);
        assert(s.inbox.skip(1) =~= data_items(rest) + tail);
        law_what_was_received_is_handed_out(next, id, i, rest, trailers);
        let all = pumped(c, id).1;
        assert(seq![BodyEventView::Data(d)] + data_events(rest) =~= data_events(parts));
        let last = match trailers {
            Some(t) => seq![BodyEventView::Trailers(t)],
            None => match s.st.cause {
                Some(cause) => seq![BodyEventView::Reset(reason_of_cause(cause))],
                None => if s.st.recv == Half::Closed {
                    seq![BodyEventView::End]
                } else {
                    Seq::empty()
                },
            },
        };
        assert(all =~= data_events(parts) + last);
    }
}

proof fn lemma_taken(c: StreamsView, id: StreamId, i: int, len: nat)
    requires
        find(c.streams, id) == Some(i),
        0 <= i < c.streams.len(),
    ensures
        ({
            let d = data_taken(c, id, len);
            &&& find(d.streams, id) == Some(i)
            &&& d.streams.len() == c.streams.len()
            &&& d.streams[i].inbox == c.streams[i].inbox.skip(1)
            &&& d.streams[i].st.cause == c.streams[i].st.cause
            &&& d.streams[i].st.recv == c.streams[i].st.recv
        }),
{
    reveal(released);
    lemma_find(c.streams, id);
    let s = c.streams[i];
    let read = read_from(c, id);
    lemma_find_update(c.streams, id, i, s.read());
    let t = data_taken(c, id, len).streams[i];
    lemma_find_update(read.streams, id, i, t);
    assert(read.streams.update(i, t) =~= data_taken(c, id, len).streams);
}

/// The head of a response that is awaited is handed out once it is there. If it will not
/// come, because the stream ended before its time, the reason is handed out; and as long as
/// neither is known, nothing is.
pub proof fn law_heads_are_handed_out(c: StreamsView, id: StreamId, i: int)
    requires
        find(c.streams, id) == Some(i),
    ensures
        ({
            let s = c.streams[i];
            &&& s.inbox.len() > 0 && s.inbox[0] is Response ==> response_of(c, id)
                == ResponsePollView::Ready(s.inbox[0]->Response_0)
            &&& s.inbox.len() == 0 && s.st.cause is Some ==> (response_of(c, id) matches
                ResponsePollView::Failed(e) && reason_of_error(e) == reason_of_cause(
                s.st.cause->0,
            ))
            &&& s.inbox.len() == 0 && s.st.cause is None && s.st.recv != Half::Closed
                ==> response_of(c, id) is Pending
        }),
{
    reveal(response_of);
}

/// Nothing is handed out of a stream that is not there but that it is not.
pub proof fn law_nothing_of_missing_streams(c: StreamsView, id: StreamId)
    requires
        find(c.streams, id) is None,
    ensures
        pumped(c, id) == (c, seq![BodyEventView::Reset(Reason::INTERNAL_ERROR)], true),
        response_of(c, id) is Failed,
{
    reveal(pumped);
    reveal(response_of);
}

/// A stream that is no longer read from gives back all that was received on it and not
/// released, to the stream and to the connection.
pub proof fn law_forgotten_data_is_released(c: StreamsView, id: StreamId, i: int)
    requires
        c.wf(),
        find(c.streams, id) == Some(i),
    ensures
        ({
            let after = forgotten(c, id);
            let s = c.streams[i];
            let t = after.streams[i];
            &&& t.st.in_flight == 0
            &&& after.m.in_flight == c.m.in_flight - s.st.in_flight
            &&& t.st.released
            &&& t.inbox.len() == 0
            &&& t.outbox == s.outbox
            &&& t.st.send == s.st.send && t.st.recv == s.st.recv && t.st.cause == s.st.cause
            &&& t.st.owed == s.st.owed
            &&& after.streams == c.streams.update(i, t)
        }),
{
    reveal(forgotten);
    lemma_find(c.streams, id);
    crate::proto::user::lemma_share(c, i);
}

/// Giving up an exchange ends its stream with the reason: nothing more is sent or received
/// on it, and what was received stays to be read. The peer is told if it knows of the
/// stream, and the stream is remembered from now on while there is room for that. On a
/// stream on which nothing goes on any more, and on one that is not there, nothing changes.
pub proof fn law_giving_up(c: StreamsView, id: StreamId, reason: Reason)
    ensures
        ({
            let after = given_up(c, id, reason);
            match find(c.streams, id) {
                None => after == c,
                Some(i) => {
                    let s = c.streams[i];
                    let t = after.streams[i];
                    let over = s.st.send == Half::Closed && s.st.recv == Half::Closed
                        && s.outbox.len() == 0;
                    &&& over || s.st.cause is Some ==> after == c
                    &&& !over && s.st.cause is None ==> {
                        &&& t.st.cause == Some(Cause::Stream(reason, Initiator::User))
                        &&& t.st.send == Half::Closed && t.st.recv == Half::Closed
                        &&& t.outbox.len() == 0
                        &&& t.inbox == s.inbox
                        &&& t.st.id == s.st.id
                        &&& t.st.keep == (kept_count(c.streams) < c.m.reset_stream_max)
                        &&& t.st.keep ==> t.st.kept_at == c.m.now
                        &&& after.accept == c.accept
                        &&& after.streams.len() == c.streams.len()
                        &&& forall|j: int|
                            0 <= j < c.streams.len() && j != i ==> same_but_available(
                                #[trigger] after.streams[j],
                                c.streams[j],
                            )
                        &&& after.control == if s.st.opened {
                            c.control.push(
                                FrameView::Reset(Reset { stream_id: id, error_code: reason }),
                            )
                        } else {
                            c.control
                        }
                    }
                },
            }
        }),
{
    reveal(given_up);
    lemma_reset_by(c, id, reason, Initiator::User);
}

/// An error of a stream that is there ends it in the same way, with the reason of the error.
/// A stream of the peer that was not open yet counts as opened then.
pub proof fn law_errors_end_their_stream(c: StreamsView, id: StreamId, reason: Reason, by: Initiator)
    requires
        0 < id.id <= 0x7fff_ffff,
        c.m.local_reset_max matches Some(max) ==> c.m.local_resets < max,
    ensures
        ({
            let after = handled(c, ErrorView::Reset(id, reason, by));
            let own = (id.id % 2 == 1) == (c.m.side == Side::Client);
            &&& after.m.last_remote == if !own && id.id > c.m.last_remote {
                id.id
            } else {
                c.m.last_remote
            }
            &&& find(c.streams, id) matches Some(i) ==> {
                let s = c.streams[i];
                let t = after.streams[i];
                let over = s.st.send == Half::Closed && s.st.recv == Half::Closed
                    && s.outbox.len() == 0;
                &&& over || s.st.cause is Some ==> after.streams == c.streams && after.control
                    == c.control
                &&& !over && s.st.cause is None ==> {
                    &&& t.st.cause == Some(Cause::Stream(reason, Initiator::Library))
                    &&& t.st.send == Half::Closed && t.st.recv == Half::Closed
                    &&& t.outbox.len() == 0
                    &&& t.inbox == s.inbox
                    &&& forall|j: int|
                        0 <= j < c.streams.len() && j != i ==> same_but_available(
                            #[trigger] after.streams[j],
                            c.streams[j],
                        )
                }
            }
        }),
{
    reveal(handled);
    let m = Meter { local_resets: (c.m.local_resets + 1) as usize, ..c.m };
    lemma_reset_by(noticed(c, id), id, reason, Initiator::Library);
    lemma_reset_by(noticed(StreamsView { m, ..c }, id), id, reason, Initiator::Library);
}

proof fn lemma_reset_by(c: StreamsView, id: StreamId, reason: Reason, by: Initiator)
    ensures
        reset_by(c, id, reason, by).m.last_remote == c.m.last_remote,
        reset_by(c, id, reason, by).accept == c.accept,
        find(c.streams, id) matches Some(i) ==> {
            let s = c.streams[i];
            let after = reset_by(c, id, reason, by);
            let t = after.streams[i];
            let over = s.st.send == Half::Closed && s.st.recv == Half::Closed && s.outbox.len()
                == 0;
            &&& 0 <= i < c.streams.len()
            &&& over || s.st.cause is Some ==> after == c
            &&& !over && s.st.cause is None ==> {
                &&& t.st.cause == Some(Cause::Stream(reason, by))
                &&& t.st.send == Half::Closed && t.st.recv == Half::Closed
                &&& t.outbox.len() == 0
                &&& t.inbox == s.inbox
                &&& t.st.id == s.st.id
                &&& t.st.keep == (kept_count(c.streams) < c.m.reset_stream_max)
                &&& t.st.kept_at == c.m.now
                &&& after.streams.len() == c.streams.len()
                &&& forall|j: int|
                    0 <= j < c.streams.len() && j != i ==> same_but_available(
                        #[trigger] after.streams[j],
                        c.streams[j],
                    )
                &&& after.control == if s.st.opened {
                    c.control.push(
                        FrameView::Reset(Reset { stream_id: id, error_code: reason }),
                    )
                } else {
                    c.control
                }
            }
        },
{
    reveal(reset_by);
    lemma_find(c.streams, id);
    if let Some(i) = find(c.streams, id) {
        let s = c.streams[i];
        if s.st.cause is None && !s.done() {
            let keep = kept_count(c.streams) < c.m.reset_stream_max;
            let after = ended(s, Cause::Stream(reason, by));
            let st = StreamState { keep, kept_at: c.m.now, ..after.st };
            let t = StreamView { st, ..after };
            let m = Meter { free: (c.m.free + s.st.available) as u32, ..c.m };
            let told = if s.st.opened {
                c.with_control(FrameView::Reset(Reset { stream_id: id, error_code: reason }))
            } else {
                c
            };
            let d = replaced(told, i, t, m);
            lemma_assign_from(d.streams, 0, d.m.init_send, d.m.free);
            let e = reassigned(d);
            assert(reset_by(c, id, reason, by) == e);
            assert(same_but_available(e.streams[i], d.streams[i]));
            assert forall|j: int| 0 <= j < c.streams.len() && j != i implies same_but_available(
                #[trigger] e.streams[j],
                c.streams[j],
            ) by {
                assert(d.streams[j] == c.streams[j]);
            }
        }
    }
}

/// Asking for capacity asks for that much on top of what waits, and for no less than before
/// counts; it queues nothing. On a stream that is not there nothing changes, and where the
/// message has ended no more can be asked for.
pub proof fn law_asking_for_capacity(c: StreamsView, id: StreamId, n: u32)
    ensures
        ({
            let after = capacity_reserved(c, id, n);
            match find(c.streams, id) {
                None => after == c,
                Some(i) => {
                    let s = c.streams[i];
                    let t = after.streams[i];
                    let total = n + s.st.buffered;
                    &&& changes_only(c, after, i)
                    &&& t.outbox == s.outbox
                    &&& t.st.send == s.st.send
                    &&& t.st.buffered == s.st.buffered
                    &&& s.st.send != Half::Closed || total <= s.st.requested ==> t.st.requested
                        == if total > u32::MAX {
                        u32::MAX as int
                    } else {
                        total
                    }
                    &&& s.st.send == Half::Closed && total > s.st.requested ==> t.st.requested
                        == s.st.requested
                },
            }
        }),
{
    reveal(capacity_reserved);
    lemma_find(c.streams, id);
    if let Some(i) = find(c.streams, id) {
        let s = c.streams[i];
        let (st, free) = reserved(s.st, n, c.m.init_send, c.m.free);
        lemma_changes_only(c, i, StreamView { st, ..s }, Meter { free, ..c.m });
    }
}

/// The capacity that is shown is what can be sent right away: what is assigned, up to the
/// most that is shown, without what waits already.
pub proof fn law_capacity_shown(c: StreamsView, id: StreamId)
    ensures
        ({
            let shown = stream_capacity(c, id);
            match find(c.streams, id) {
                None => shown == 0,
                Some(i) => {
                    let st = c.streams[i].st;
                    &&& shown >= 0
                    &&& shown > 0 ==> shown + st.buffered <= st.available && shown + st.buffered
                        <= c.m.max_send_buffer
                    &&& st.available >= st.buffered && c.m.max_send_buffer >= st.available ==> shown
                        == st.available - st.buffered
                    &&& st.available >= c.m.max_send_buffer && c.m.max_send_buffer
                        >= st.buffered ==> shown == c.m.max_send_buffer - st.buffered
                },
            }
        }),
{
    reveal(stream_capacity);
}

/// Requests are accepted in the order in which they came. Accepting one whose stream the peer
/// has reset makes room for another such reset.
pub proof fn law_accepting_in_order(c: StreamsView)
    requires
        c.accept.len() > 0,
    ensures
        ({
            let after = accepted(c);
            let reset = find(c.streams, c.accept[0].id) matches Some(i) && (
            c.streams[i].st.cause matches Some(Cause::Stream(_, by)) && by == Initiator::Remote);
            &&& after.accept == c.accept.skip(1)
            &&& after.streams == c.streams
            &&& after.control == c.control
            &&& reset && c.m.remote_resets > 0 ==> after.m.remote_resets == c.m.remote_resets - 1
            &&& !reset ==> after.m == c.m
        }),
{
    reveal(accepted);
}

/// A peer's message is at its end once the end was received, all of it was read, and the
/// stream did not end before its time.
pub proof fn law_at_the_end(c: StreamsView, id: StreamId)
    ensures
        at_end_of(c, id) == (find(c.streams, id) matches Some(i) && c.streams[i].st.recv
            == Half::Closed && c.streams[i].st.cause is None && c.streams[i].inbox.len() == 0),
{
    reveal(at_end_of);
}

/// Once a message has ended, its stream asks for no more than what waits, and holds no more:
/// what was assigned beyond that is there for others.
pub proof fn law_the_end_gives_back(
    c: StreamsView,
    id: StreamId,
    data: Seq<u8>,
    fields: Seq<FieldView>,
    i: int,
)
    requires
        find(c.streams, id) == Some(i),
        c.streams[i].st.available <= c.streams[i].st.requested,
        c.m.free + c.streams[i].st.available <= u32::MAX,
    ensures
        data_sent(c, id, data, true) matches Ok(after) ==> {
            let st = after.streams[i].st;
            st.requested <= st.buffered && st.available <= st.buffered
        },
        trailers_sent(c, id, fields) matches Ok(after) ==> {
            let st = after.streams[i].st;
            &&& st.buffered == c.streams[i].st.buffered
            &&& st.requested <= st.buffered && st.available <= st.buffered
        },
{
    reveal(data_sent);
    reveal(trailers_sent);
    lemma_find(c.streams, id);
    let s = c.streams[i];
    if let Ok((t, free)) = data_queued(s, data, true, c.m.init_send, c.m.free) {
        lemma_share_out(replaced(c, i, t, Meter { free, ..c.m }), i);
    }
    let block = trailers_block(fields);
    if let Ok((t, free)) = trailers_queued(s, block, c.m.init_send, c.m.free) {
        lemma_share_out(replaced(c, i, t, Meter { free, ..c.m }), i);
    }
}

proof fn lemma_share_out(d: StreamsView, i: int)
    requires
        0 <= i < d.streams.len(),
        d.streams[i].st.available <= d.streams[i].st.requested,
    ensures
        reassigned(d).streams[i].st.requested == d.streams[i].st.requested,
        reassigned(d).streams[i].st.buffered == d.streams[i].st.buffered,
        reassigned(d).streams[i].st.available <= d.streams[i].st.requested,
{
    lemma_assign_bounded(d.streams, 0, d.m.init_send, d.m.free, i);
}

proof fn lemma_assign_bounded(streams: Seq<StreamView>, k: nat, init: u32, free: u32, i: int)
    requires
        0 <= i < streams.len(),
        streams[i].st.available <= streams[i].st.requested,
    ensures
        ({
            let after = assign_from(streams, k, init, free).0;
            &&& after.len() == streams.len()
            &&& after[i].st.requested == streams[i].st.requested
            &&& after[i].st.buffered == streams[i].st.buffered
            &&& after[i].st.available <= streams[i].st.requested
        }),
    decreases streams.len() - k,
{
    if k < streams.len() {
        let (st, left) = assigned(streams[k as int].st, init, free);
        lemma_assign_bounded(
            streams.update(k as int, StreamView { st, ..streams[k as int] }),
            k + 1,
            init,
            left,
            i,
        );
    }
}

/// An error on a stream that is gone is remembered like a reset, while there is room for
/// that: what still comes on the stream is passed over then, until it is forgotten in time.
/// Nothing is remembered of a stream that was never opened.
pub proof fn law_gone_streams_are_remembered(
    c: StreamsView,
    id: StreamId,
    reason: Reason,
    by: Initiator,
)
    requires
        0 < id.id <= 0x7fff_ffff,
        find(c.streams, id) is None,
        c.m.local_reset_max matches Some(max) ==> c.m.local_resets < max,
    ensures
        ({
            let after = handled(c, ErrorView::Reset(id, reason, by));
            let own = (id.id % 2 == 1) == (c.m.side == Side::Client);
            let room = kept_count(c.streams) < c.m.reset_stream_max;
            let never = own && id.id >= c.m.next_id;
            &&& room && !never ==> {
                let s = after.streams.last();
                &&& after.streams == c.streams.push(s)
                &&& s.st.id == id
                &&& s.st.cause == Some(Cause::Stream(reason, Initiator::Library))
                &&& s.st.send == Half::Closed && s.st.recv == Half::Closed
                &&& s.inbox.len() == 0 && s.outbox.len() == 0
                &&& s.st.keep && s.st.kept_at == c.m.now && s.st.released
            }
            &&& !room || never ==> after.streams == c.streams
        }),
{
    reveal(handled);
    reveal(reset_by);
}

} // verus!
