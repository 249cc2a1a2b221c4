//! What always holds of a connection, whatever is done with it.

use crate::codec::framed_read::{lemma_next_frame, lemma_next_frame_shrinks, next_frame_of};
use crate::codec::framed_write::wire_of;
use crate::codec::laws::{law_chunks, with_more};
use crate::codec::CodecView;
use crate::frame::block::BlockView;
use crate::frame::control::Reset;
use crate::frame::{FrameView, Reason, StreamId};
use crate::hpack::field::FieldView;
use crate::proto::closed::{
    is_ended, is_numbered, leads_to, lemma_calls_lead, lemma_driving_leads, lemma_leads_trans,
    lemma_reads, lemma_release_leads,
};
use crate::proto::connection::{
    all_encoded, driven, encoded, lemma_handled, lemma_stepped_buffer, read_all, reads_on,
    stepped, written, ConnectionView,
};
use crate::proto::control::{handled, leave_asked, leave_taken, settled};
use crate::proto::delivery::{
    after_all, after_writing, lemma_after_all_max, lemma_all_encoded_wires, lemma_flushed_sendable,
    lemma_wires_around, wires_of,
};
use crate::proto::flush::{conn_widened, flushed, sent_all, sent_from};
use crate::proto::laws::{
    law_output_stays, law_reset_is_told, lemma_driven_next_id, lemma_handled_local,
    lemma_stepped_read, starts_with,
};
use crate::proto::output::{
    has_controls, is_frames, is_sound, law_calls_keep_output_sound, law_output_is_whole_frames,
    lemma_frames_concat, lemma_wires, lemma_written_sound,
};
use crate::proto::pump::{
    accepted, data_of, data_taken, inbox_len, lemma_data_taken, pumped, read_from,
};
use crate::proto::send::{all_sendable, is_sendable};
use crate::proto::stream::DataPollView;
use crate::proto::streams::{find, is_local, local_ok, Meter, StreamsView};
use crate::proto::user::{
    capacity_reserved, data_sent, forgotten, given_up, let_go, released, request_queued, reset_by,
    response_queued, time_told, trailers_block, trailers_sent,
};
use vstd::prelude::*;

verus! {

/// No whole frame of the peer waits to be read.
pub open spec fn has_read_all(v: ConnectionView) -> bool {
    next_frame_of(v.codec.read).1 == Ok::<
        Option<FrameView>,
        crate::proto::error::ErrorView,
    >(None)
}

/// A connection whose two sides are in order: its output is whole frames, its reading side
/// and its settings are in order, and so are the identifiers of its streams.
pub open spec fn is_going(v: ConnectionView) -> bool {
    &&& is_sound(v)
    &&& v.codec.read.wf()
    &&& local_ok(v.streams.m.local)
    &&& is_numbered(v.streams)
}

/// What always holds of a connection between two calls: it is in order, and as long as it
/// has not ended, all that the peer sent was read as far as whole frames go.
pub open spec fn is_kept(v: ConnectionView) -> bool {
    is_going(v) && (reads_on(v) ==> has_read_all(v))
}

/// How the streams of a connection go on as something is done with them that opens none.
pub open spec fn goes_on(c: StreamsView, d: StreamsView) -> bool {
    &&& leads_to(c, d)
    &&& has_controls(d)
    &&& d.m.next_id == c.m.next_id
    &&& d.m.last_remote == c.m.last_remote
    &&& d.m.max_send_frame == c.m.max_send_frame
    &&& d.m.local == c.m.local
    &&& d.m.closed == c.m.closed
    &&& d.accept == c.accept
}

pub(crate) proof fn lemma_goes_on_trans(a: StreamsView, b: StreamsView, c: StreamsView)
    requires
        goes_on(a, b),
        goes_on(b, c),
    ensures
        goes_on(a, c),
{
    lemma_leads_trans(a, b, c);
}

/// Nothing that the user does with a stream that is there opens one.
pub proof fn lemma_calls_go_on(
    c: StreamsView,
    id: StreamId,
    data: Seq<u8>,
    fields: Seq<FieldView>,
    block: BlockView,
    n: u32,
    reason: Reason,
    now: u64,
    end: bool,
)
    requires
        is_numbered(c),
        has_controls(c),
    ensures
        response_queued(c, id, block, end) matches Ok(after) ==> goes_on(c, after),
        data_sent(c, id, data, end) matches Ok(after) ==> goes_on(c, after),
        trailers_sent(c, id, fields) matches Ok(after) ==> goes_on(c, after),
        goes_on(c, capacity_reserved(c, id, n)),
        goes_on(c, given_up(c, id, reason)),
        goes_on(c, let_go(c, id)),
        goes_on(c, time_told(c, now)),
        goes_on(c, leave_asked(c)),
        goes_on(c, leave_taken(c, reason)),
{
    lemma_calls_lead(c, id, data, fields, block, n, reason, now, end, false);
    law_calls_keep_output_sound(c, id, data, fields, block, n, reason, now, end, false);
    lemma_calls_keep_meter(c, id, data, fields, block, n, reason, now, end);
}

proof fn lemma_calls_keep_meter(
    c: StreamsView,
    id: StreamId,
    data: Seq<u8>,
    fields: Seq<FieldView>,
    block: BlockView,
    n: u32,
    reason: Reason,
    now: u64,
    end: bool,
)
    ensures
        response_queued(c, id, block, end) matches Ok(after) ==> same_meter(c, after),
        data_sent(c, id, data, end) matches Ok(after) ==> same_meter(c, after),
        trailers_sent(c, id, fields) matches Ok(after) ==> same_meter(c, after),
        same_meter(c, capacity_reserved(c, id, n)),
        same_meter(c, given_up(c, id, reason)),
        same_meter(c, let_go(c, id)),
        same_meter(c, time_told(c, now)),
        same_meter(c, leave_asked(c)),
        same_meter(c, leave_taken(c, reason)),
{
    reveal(response_queued);
    reveal(data_sent);
    reveal(trailers_sent);
    reveal(capacity_reserved);
    reveal(given_up);
    reveal(let_go);
    reveal(reset_by);
    reveal(time_told);
    reveal(leave_asked);
    reveal(leave_taken);
}

spec fn same_meter(c: StreamsView, d: StreamsView) -> bool {
    &&& d.m.next_id == c.m.next_id
    &&& d.m.last_remote == c.m.last_remote
    &&& d.m.local == c.m.local
    &&& d.m.closed == c.m.closed
    &&& d.accept == c.accept
}

/// A request opens the next stream of this side, and nothing else.
pub proof fn lemma_request_opens(c: StreamsView, block: BlockView, end: bool, head: bool)
    requires
        is_numbered(c),
        has_controls(c),
    ensures
        request_queued(c, block, end, head) matches Ok((d, id)) ==> {
            &&& leads_to(c, d)
            &&& has_controls(d)
            &&& id.id == c.m.next_id
            &&& d.m.next_id == c.m.next_id + 2
            &&& d.m.last_remote == c.m.last_remote
            &&& d.m.max_send_frame == c.m.max_send_frame
            &&& d.m.local == c.m.local
            &&& d.m.closed == c.m.closed
            &&& d.accept == c.accept
        },
{
    let id = StreamId { id: 0 };
    let s = Seq::<FieldView>::empty();
    lemma_calls_lead(c, id, Seq::empty(), s, block, 0, Reason::NO_ERROR, 0, end, head);
    reveal(request_queued);
}

/// Another size for the receive window opens no stream.
pub proof fn lemma_target_goes_on(c: StreamsView, size: u32)
    requires
        is_numbered(c),
        has_controls(c),
    ensures
        goes_on(c, (StreamsView { m: Meter { recv_target: size, ..c.m }, ..c })),
{
    let d = StreamsView { m: Meter { recv_target: size, ..c.m }, ..c };
    assert forall|j: int| 0 <= j < d.streams.len() implies !d.is_idle(
        (#[trigger] d.streams[j]).st.id,
    ) by {
        assert(!c.is_idle(c.streams[j].st.id));
    }
}

/// Reading from a stream opens none.
pub proof fn lemma_reading_goes_on(c: StreamsView, id: StreamId)
    requires
        is_numbered(c),
        has_controls(c),
    ensures
        goes_on(c, c),
        goes_on(c, read_from(c, id)),
        goes_on(c, forgotten(c, id)),
{
    lemma_reads(c, id);
    lemma_calls_lead_nowhere(c);
    reveal(forgotten);
}

proof fn lemma_calls_lead_nowhere(c: StreamsView)
    requires
        is_numbered(c),
    ensures
        leads_to(c, c),
{
}

proof fn lemma_release_goes_on(c: StreamsView, id: StreamId, n: u32)
    requires
        is_numbered(c),
        has_controls(c),
    ensures
        released(c, id, n) matches Ok(after) ==> goes_on(c, after),
{
    lemma_release_leads(c, id, n);
    reveal(released);
}

/// Handing out a body opens no stream.
pub proof fn lemma_pumping_goes_on(c: StreamsView, id: StreamId)
    requires
        is_numbered(c),
        has_controls(c),
    ensures
        goes_on(c, pumped(c, id).0),
    decreases inbox_len(c, id),
{
    reveal(pumped);
    lemma_reading_goes_on(c, id);
    if let DataPollView::Ready(d) = data_of(c, id) {
        let read = read_from(c, id);
        let next = data_taken(c, id, d.len());
        lemma_data_taken(c, id, d.len());
        lemma_release_goes_on(read, id, d.len() as u32);
        if next != read {
            lemma_goes_on_trans(c, read, next);
        }
        lemma_pumping_goes_on(next, id);
        lemma_goes_on_trans(c, next, pumped(next, id).0);
        assert(pumped(c, id).0 == pumped(next, id).0);
    }
}

/// Accepting a request opens no stream, and takes the request from those that wait.
pub proof fn lemma_accepting(c: StreamsView)
    requires
        is_numbered(c),
        has_controls(c),
        c.accept.len() > 0,
    ensures
        ({
            let d = accepted(c);
            &&& is_numbered(d)
            &&& has_controls(d)
            &&& d.accept == c.accept.skip(1)
            &&& d.streams == c.streams
            &&& d.m.side == c.m.side
            &&& d.m.next_id == c.m.next_id
            &&& d.m.last_remote == c.m.last_remote
            &&& d.m.max_send_frame == c.m.max_send_frame
            &&& d.m.local == c.m.local
            &&& d.m.closed == c.m.closed
            &&& forall|id: StreamId| #[trigger] is_ended(c, id) ==> is_ended(d, id)
        }),
{
    reveal(accepted);
    let d = accepted(c);
    assert forall|j: int| 0 <= j < d.streams.len() implies !d.is_idle(
        (#[trigger] d.streams[j]).st.id,
    ) by {
        assert(!c.is_idle(c.streams[j].st.id));
    }
    assert forall|k: int| 0 <= k < d.accept.len() implies !is_local(
        d.m.side,
        (#[trigger] d.accept[k]).id,
    ) && d.accept[k].id.id <= d.m.last_remote by {
        assert(d.accept[k] == c.accept[k + 1]);
    }
    assert forall|k: int, n: int| 0 <= k < n < d.accept.len() implies (
    #[trigger] d.accept[k]).id.id < (#[trigger] d.accept[n]).id.id by {
        assert(c.accept[k + 1].id.id < c.accept[n + 1].id.id);
    }
    assert forall|id: StreamId| #[trigger] is_ended(c, id) implies is_ended(d, id) by {
        assert(d.streams == c.streams);
    }
}

proof fn lemma_read_all_reads(v: ConnectionView)
    requires
        v.codec.read.wf(),
        local_ok(v.streams.m.local),
    ensures
        read_all(v).codec.read.wf(),
        read_all(v).streams.m.local == v.streams.m.local,
        reads_on(read_all(v)) ==> has_read_all(read_all(v)),
    decreases
            v.codec.read.buffer.len(),
            if reads_on(v) {
                1int
            } else {
                0
            },
{
    if reads_on(v) {
        let (read, r) = next_frame_of(v.codec.read);
        let next = ConnectionView { codec: CodecView { read, ..v.codec }, ..v };
        lemma_next_frame(v.codec.read);
        lemma_next_frame_shrinks(v.codec.read);
        match r {
            Ok(None) => {
                law_chunks(v.codec.read, Seq::empty());
                assert(with_more(v.codec.read, Seq::empty()).buffer =~= v.codec.read.buffer);
                assert(with_more(read, Seq::empty()).buffer =~= read.buffer);
            },
            Ok(Some(f)) => {
                lemma_stepped_buffer(next, f);
                lemma_stepped_read(next, f);
                lemma_read_all_reads(stepped(next, f));
            },
            Err(e) => {
                lemma_handled(next.streams, e);
                lemma_handled_local(next.streams, e);
                lemma_read_all_reads(ConnectionView { streams: handled(next.streams, e), ..next });
            },
        }
    }
}

proof fn lemma_sent_all_local(c: StreamsView, i: nat)
    ensures
        sent_all(c, i).0.m.local == c.m.local,
        sent_all(c, i).0.m.closed == c.m.closed,
    decreases c.streams.len() - i,
{
    if i < c.streams.len() {
        lemma_sent_all_local(sent_from(c, i as int).0, i + 1);
    }
}

proof fn lemma_written_reads(v: ConnectionView)
    ensures
        written(v).codec.read == v.codec.read,
        written(v).streams.m.local == v.streams.m.local,
        written(v).streams.m.closed == v.streams.m.closed,
{
    let c = conn_widened(StreamsView { control: Seq::empty(), ..v.streams }).0;
    lemma_sent_all_local(c, 0);
    lemma_all_encoded_read(v.codec, flushed(v.streams).1);
}

pub(crate) proof fn lemma_all_encoded_read(c: CodecView, frames: Seq<FrameView>)
    ensures
        all_encoded(c, frames).read == c.read,
    decreases frames.len(),
{
    reveal(encoded);
    if frames.len() > 0 {
        lemma_all_encoded_read(c, frames.drop_last());
    }
}

/// A connection that is in order is kept once it was driven, and its streams go on.
pub proof fn lemma_driving_keeps(v: ConnectionView)
    requires
        is_going(v),
    ensures
        is_kept(driven(v)),
        leads_to(v.streams, driven(v).streams),
        driven(v).streams.m.next_id == v.streams.m.next_id,
        starts_with(driven(v).codec.transmit(), v.codec.transmit()),
{
    law_output_is_whole_frames(v);
    law_output_stays(v);
    lemma_driving_leads(v);
    lemma_driven_next_id(v);
    reveal(driven);
    lemma_read_all_reads(v);
    let a = read_all(v);
    let b = written(a);
    let c = ConnectionView { streams: settled(b.streams), ..b };
    lemma_written_reads(a);
    lemma_written_reads(c);
}

/// A frame that is one of a run of frames.
pub open spec fn is_among(frame: Seq<u8>, all: Seq<u8>) -> bool {
    exists|before: Seq<u8>, behind: Seq<u8>|
        #[trigger] is_frames(before) && #[trigger] is_frames(behind) && all == before + frame
            + behind
}

pub(crate) proof fn lemma_written_among(v: ConnectionView, n: int)
    requires
        is_sound(v),
        0 <= n < flushed(v.streams).1.len(),
        flushed(v.streams).1[n] is Reset || flushed(v.streams).1[n] is GoAway,
    ensures
        is_among(
            wire_of(v.codec.write, flushed(v.streams).1[n]),
            written(v).codec.transmit(),
        ),
{
    let w = v.codec.write;
    let frames = flushed(v.streams).1;
    let before = frames.take(n);
    let behind = frames.skip(n + 1);
    lemma_flushed_sendable(v.streams);
    lemma_all_encoded_wires(v.codec, frames);
    lemma_wires_around(w, frames, n);
    lemma_after_all_max(w, before);
    let wire = wire_of(w, frames[n]);
    let end = after_writing(after_all(w, before), frames[n]);
    assert(wire_of(after_all(w, before), frames[n]) == wire);
    assert(all_sendable(before, w.max_frame_size)) by {
        assert forall|i: int| 0 <= i < before.len() implies is_sendable(
            #[trigger] before[i],
            w.max_frame_size,
        ) by {
            assert(is_sendable(frames[i], w.max_frame_size));
        }
    }
    assert(all_sendable(behind, w.max_frame_size)) by {
        assert forall|i: int| 0 <= i < behind.len() implies is_sendable(
            #[trigger] behind[i],
            w.max_frame_size,
        ) by {
            assert(is_sendable(frames[i + n + 1], w.max_frame_size));
        }
    }
    lemma_wires(w, before);
    lemma_wires(end, behind);
    let a = v.codec.transmit() + wires_of(w, before);
    let b = wires_of(end, behind);
    lemma_frames_concat(v.codec.transmit(), wires_of(w, before));
    assert(written(v).codec.transmit() =~= a + wire + b);
}

proof fn lemma_stays_among(frame: Seq<u8>, all: Seq<u8>, more: Seq<u8>)
    requires
        is_among(frame, all),
        is_frames(more),
    ensures
        is_among(frame, all + more),
{
    let (before, behind) = choose|before: Seq<u8>, behind: Seq<u8>|
        #[trigger] is_frames(before) && #[trigger] is_frames(behind) && all == before + frame
            + behind;
    lemma_frames_concat(behind, more);
    assert(all + more =~= before + frame + (behind + more));
}

/// A RST_STREAM frame for an open stream goes out with what is handed out next: after the
/// exchange was given up, the frame is among those that the connection has to hand out
/// once it was driven.
pub proof fn law_reset_goes_out(v: ConnectionView, id: StreamId, reason: Reason)
    requires
        is_kept(v),
        reads_on(v),
        find(v.streams.streams, id) matches Some(i) && v.streams.streams[i].st.opened
            && v.streams.streams[i].st.cause is None && !v.streams.streams[i].done(),
    ensures
        is_among(
            (Reset { stream_id: id, error_code: reason }).wire(),
            driven(
                (ConnectionView { streams: given_up(v.streams, id, reason), ..v }),
            ).codec.transmit(),
        ),
{
    let told = ConnectionView { streams: given_up(v.streams, id, reason), ..v };
    let c = v.streams;
    let s = Seq::<FieldView>::empty();
    lemma_calls_go_on(c, id, Seq::empty(), s, trailers_block(s), 0, reason, 0, false);
    law_reset_is_told(c, id, reason);
    reveal(driven);
    let a = read_all(told);
    let read = next_frame_of(v.codec.read).0;
    assert(a == ConnectionView { codec: CodecView { read, ..told.codec }, ..told });
    assert(a.codec.transmit() == v.codec.transmit());
    assert(is_sound(a));
    lemma_written_among(a, c.control.len() as int);
    lemma_written_sound(a);
    let b = written(a);
    let d = ConnectionView { streams: settled(b.streams), ..b };
    assert(is_sound(d));
    let frames = flushed(d.streams).1;
    lemma_flushed_sendable(d.streams);
    lemma_all_encoded_wires(d.codec, frames);
    lemma_wires(d.codec.write, frames);
    lemma_stays_among(
        (Reset { stream_id: id, error_code: reason }).wire(),
        b.codec.transmit(),
        wires_of(d.codec.write, frames),
    );
}

} // verus!
