//! What holds of the streams of a connection as a whole.

use crate::codec::framed_read::{
    frame_ok, lemma_next_frame, lemma_next_frame_shrinks, next_frame_of,
};
use crate::codec::framed_write::{buffered, wire_of};
use crate::codec::CodecView;
use crate::frame::block::BlockView;
use crate::frame::control::{Reset, WindowUpdate};
use crate::frame::data::DataView;
use crate::frame::settings::Settings;
use crate::frame::{FrameView, Reason, StreamId};
use crate::hpack::field::FieldView;
use crate::proto::connection::{
    all_encoded, driven, encoded, frame_received, lemma_handled, lemma_stepped_buffer, read_all,
    reads_on, stepped, written, ConnectionView,
};
use crate::proto::control::{clamp_from, handled, settings_received, settled};
use crate::proto::error::{go_away_error, reset_error, ErrorView, Initiator};
use crate::proto::flush::{conn_widened, flushed, sent_all, sent_from, widened};
use crate::proto::pump::{
    data_of, data_taken, inbox_len, lemma_data_taken, lemma_find_update, pumped, read_from,
    BodyEventView,
};
use crate::proto::recv::{
    body_received, data_received, flow_len, is_ended_here, window_update_received,
};
use crate::proto::send::{
    assigned, data_queued, drain_step, drained, ended, front_len, reserved, trailers_queued,
    within_window,
};
use crate::proto::stream::{
    Cause, DataPollView, Half, IncomingView, OutgoingView, StreamState, StreamView, MAX_WINDOW_SIZE,
};
use crate::proto::streams::{
    active_count, assign_from, available, find, kept_count, lemma_find, local_ok, reassigned, total, Meter,
    Shutdown, StreamsView,
};
use crate::proto::user::{
    capacity_reserved, data_sent, given_up, lemma_share, let_go, released, replaced, reset_by,
    stream_capacity, time_told, trailers_sent,
};
use vstd::prelude::*;

verus! {

/// Once a message has ended, nothing more can be sent on its stream.
pub proof fn law_nothing_after_end(
    v: StreamView,
    data: Seq<u8>,
    more: Seq<u8>,
    end: bool,
    block: BlockView,
    init: u32,
    free: u32,
    later: u32,
)
    ensures
        data_queued(v, data, true, init, free) matches Ok((after, _)) ==> {
            &&& data_queued(after, more, end, init, later) is Err
            &&& trailers_queued(after, block, init, later) is Err
        },
        trailers_queued(v, block, init, free) matches Ok((after, _)) ==> {
            &&& data_queued(after, more, end, init, later) is Err
            &&& trailers_queued(after, block, init, later) is Err
        },
{
}

/// Once a stream has ended before its time, nothing more can be sent on it, and
/// nothing waits to be.
pub proof fn law_nothing_after_reset(
    v: StreamView,
    cause: Cause,
    more: Seq<u8>,
    end: bool,
    block: BlockView,
    init: u32,
    free: u32,
)
    ensures
        data_queued(ended(v, cause), more, end, init, free) is Err,
        trailers_queued(ended(v, cause), block, init, free) is Err,
        ended(v, cause).done(),
        drained(ended(v, cause), usize::MAX).1 == Seq::<FrameView>::empty(),
{
}

/// Two streams that differ at most in what is assigned to them.
pub open spec fn same_but_available(a: StreamView, b: StreamView) -> bool {
    a == (StreamView { st: StreamState { available: a.st.available, ..b.st }, ..b })
}

pub(crate) proof fn lemma_assign_from(streams: Seq<StreamView>, i: nat, init: u32, free: u32)
    ensures
        assign_from(streams, i, init, free).0.len() == streams.len(),
        forall|j: int|
            0 <= j < streams.len() ==> same_but_available(
                #[trigger] assign_from(streams, i, init, free).0[j],
                streams[j],
            ),
    decreases streams.len() - i,
{
    if i < streams.len() {
        let (st, left) = assigned(streams[i as int].st, init, free);
        let next = streams.update(i as int, StreamView { st, ..streams[i as int] });
        lemma_assign_from(next, i + 1, init, left);
        assert forall|j: int| 0 <= j < streams.len() implies same_but_available(
            #[trigger] assign_from(streams, i, init, free).0[j],
            streams[j],
        ) by {
            assert(same_but_available(assign_from(next, i + 1, init, left).0[j], next[j]));
        }
    }
}

proof fn lemma_find_same(a: Seq<StreamView>, b: Seq<StreamView>, id: StreamId)
    requires
        a.len() == b.len(),
        forall|j: int| 0 <= j < a.len() ==> (#[trigger] a[j]).st.id == b[j].st.id,
    ensures
        find(a, id) == find(b, id),
    decreases a.len(),
{
    if a.len() > 0 {
        assert(a[0].st.id == b[0].st.id);
        assert forall|j: int| 0 <= j < a.skip(1).len() implies (#[trigger] a.skip(1)[j]).st.id
            == b.skip(1)[j].st.id by {
            assert(a[j + 1].st.id == b[j + 1].st.id);
        }
        lemma_find_same(a.skip(1), b.skip(1), id);
    }
}

proof fn lemma_reassigned(c: StreamsView, id: StreamId)
    ensures
        find(reassigned(c).streams, id) == find(c.streams, id),
        find(c.streams, id) matches Some(i) ==> 0 <= i < c.streams.len() && same_but_available(
            reassigned(c).streams[i],
            c.streams[i],
        ),
{
    lemma_assign_from(c.streams, 0, c.m.init_send, c.m.free);
    lemma_find_same(reassigned(c).streams, c.streams, id);
    lemma_find(c.streams, id);
}

/// Once a message has ended, sending more on its stream is an error.
pub proof fn law_no_sending_after_end(
    c: StreamsView,
    id: StreamId,
    data: Seq<u8>,
    more: Seq<u8>,
    end: bool,
    fields: Seq<FieldView>,
)
    ensures
        data_sent(c, id, data, true) matches Ok(after) ==> {
            &&& data_sent(after, id, more, end) is Err
            &&& trailers_sent(after, id, fields) is Err
        },
        trailers_sent(c, id, fields) matches Ok(after) ==> {
            &&& data_sent(after, id, more, end) is Err
            &&& trailers_sent(after, id, fields) is Err
        },
{
    reveal(data_sent);
    reveal(trailers_sent);
    lemma_find(c.streams, id);
    if let Some(i) = find(c.streams, id) {
        let s = c.streams[i];
        if let Ok((t, free)) = data_queued(s, data, true, c.m.init_send, c.m.free) {
            let m = Meter { free, ..c.m };
            let mid = replaced(c, i, t, m);
            lemma_find_update(c.streams, id, i, t);
            lemma_reassigned(mid, id);
        }
        let block = crate::proto::user::trailers_block(fields);
        if let Ok((t, free)) = trailers_queued(s, block, c.m.init_send, c.m.free) {
            let m = Meter { free, ..c.m };
            let mid = replaced(c, i, t, m);
            lemma_find_update(c.streams, id, i, t);
            lemma_reassigned(mid, id);
        }
    }
}

proof fn lemma_reset_ends(c: StreamsView, id: StreamId, reason: Reason)
    requires
        c.wf(),
        find(c.streams, id) is Some,
    ensures
        ({
            let after = reset_by(c, id, reason, Initiator::User);
            &&& find(after.streams, id) == find(c.streams, id)
            &&& after.streams[find(c.streams, id)->0].st.send == Half::Closed
        }),
{
    reveal(reset_by);
    lemma_find(c.streams, id);
    let i = find(c.streams, id)->0;
    let s = c.streams[i];
    assert(c.stream_ok(s));
    if s.st.cause is None && !s.done() {
        let keep = kept_count(c.streams) < c.m.reset_stream_max;
        let t = ended(s, Cause::Stream(reason, Initiator::User));
        let t = StreamView { st: StreamState { keep, kept_at: c.m.now, ..t.st }, ..t };
        lemma_find_update(c.streams, id, i, t);
        let m = Meter {
            free: (c.m.free + s.st.available) as u32,
            ..c.m
        };
        let told = c.with_control(
            FrameView::Reset(
                Reset { stream_id: id, error_code: reason },
            ),
        );
        lemma_reassigned(replaced(told, i, t, m), id);
        lemma_reassigned(replaced(c, i, t, m), id);
    }
}

/// Once an exchange was given up, sending on its stream is an error.
pub proof fn law_no_sending_after_reset(
    c: StreamsView,
    id: StreamId,
    reason: Reason,
    more: Seq<u8>,
    end: bool,
    fields: Seq<FieldView>,
)
    requires
        c.wf(),
    ensures
        data_sent(given_up(c, id, reason), id, more, end) is Err,
        trailers_sent(given_up(c, id, reason), id, fields) is Err,
{
    reveal(given_up);
    reveal(data_sent);
    reveal(trailers_sent);
    if find(c.streams, id) is Some {
        lemma_reset_ends(c, id, reason);
    }
}

/// Letting go of a stream closes it for sending: a message that was not ended is
/// given up, and nothing more can be sent.
pub proof fn law_let_go_closes(
    c: StreamsView,
    id: StreamId,
    more: Seq<u8>,
    end: bool,
    fields: Seq<FieldView>,
)
    requires
        c.wf(),
    ensures
        data_sent(let_go(c, id), id, more, end) is Err,
        trailers_sent(let_go(c, id), id, fields) is Err,
        find(c.streams, id) matches Some(i) && c.streams[i].st.send != Half::Closed ==> let_go(
            c,
            id,
        ) == given_up(c, id, Reason::CANCEL),
{
    reveal(let_go);
    reveal(given_up);
    reveal(data_sent);
    reveal(trailers_sent);
    if find(c.streams, id) is Some {
        lemma_reset_ends(c, id, Reason::CANCEL);
    }
}

/// A reset stream is remembered for its time and no longer: after the time was told,
/// only those are left that were reset less than that time ago, and of these all; and
/// nothing else about a stream changes.
pub proof fn law_resets_are_forgotten_in_time(c: StreamsView, now: u64, i: int)
    requires
        0 <= i < c.streams.len(),
        now >= c.m.now,
    ensures
        ({
            let s = c.streams[i];
            let t = time_told(c, now).streams[i];
            &&& t.st.keep == (s.st.keep && s.st.kept_at + c.m.reset_stream_duration > now)
            &&& t == (StreamView { st: StreamState { keep: t.st.keep, ..s.st }, ..s })
        }),
{
    reveal(time_told);
}

/// Asking for capacity is not additive, the last call counts: what a stream asks
/// for is what was asked for last, on top of what waits, however much it asked
/// for before. Nothing is lost or made up: what is assigned to the stream and to
/// none adds up to what it did, and no more is assigned than is asked for.
pub proof fn law_last_reservation_counts(
    st: StreamState,
    first: u32,
    last: u32,
    init: u32,
    free: u32,
)
    requires
        init <= MAX_WINDOW_SIZE,
        st.send != Half::Closed,
        st.available <= st.requested,
        st.available + free <= MAX_WINDOW_SIZE,
    ensures
        ({
            let (once, left) = reserved(st, first, init, free);
            let (twice, rest) = reserved(once, last, init, left);
            let total = last + st.buffered;
            &&& twice.requested == if total > u32::MAX {
                u32::MAX as int
            } else {
                total
            }
            &&& twice.available + rest == st.available + free
            &&& twice.available <= twice.requested
        }),
{
}

proof fn lemma_assign_grows(streams: Seq<StreamView>, i: nat, init: u32, free: u32)
    requires
        forall|j: int|
            0 <= j < streams.len() ==> (#[trigger] streams[j]).st.available
                <= streams[j].st.requested,
    ensures
        assign_from(streams, i, init, free).0.len() == streams.len(),
        forall|j: int|
            0 <= j < streams.len() ==> (#[trigger] assign_from(
                streams,
                i,
                init,
                free,
            ).0[j]).st.available >= streams[j].st.available,
    decreases streams.len() - i,
{
    if i < streams.len() {
        let (st, left) = assigned(streams[i as int].st, init, free);
        let next = streams.update(i as int, StreamView { st, ..streams[i as int] });
        lemma_assign_grows(next, i + 1, init, left);
        assert forall|j: int| 0 <= j < streams.len() implies (#[trigger] assign_from(
            streams,
            i,
            init,
            free,
        ).0[j]).st.available >= streams[j].st.available by {
            assert(next[j].st.available >= streams[j].st.available);
        }
    }
}

/// Capacity that is assigned to a stream is not used by others: whatever is asked
/// for on another stream, it stays.
pub proof fn law_assigned_capacity_stays(c: StreamsView, id: StreamId, capacity: u32, j: int)
    requires
        c.wf(),
        0 <= j < c.streams.len(),
        find(c.streams, id) != Some(j),
    ensures
        capacity_reserved(c, id, capacity).streams[j].st.available >= c.streams[j].st.available,
{
    reveal(capacity_reserved);
    lemma_find(c.streams, id);
    if let Some(i) = find(c.streams, id) {
        let s = c.streams[i];
        let (st, free) = reserved(s.st, capacity, c.m.init_send, c.m.free);
        let mid = replaced(
            c,
            i,
            StreamView { st, ..s },
            Meter { free, ..c.m },
        );
        assert(c.stream_ok(s));
        assert forall|k: int| 0 <= k < mid.streams.len() implies (
        #[trigger] mid.streams[k]).st.available <= mid.streams[k].st.requested by {
            if k != i {
                assert(c.stream_ok(c.streams[k]));
            }
        }
        lemma_assign_grows(mid.streams, 0, mid.m.init_send, mid.m.free);
        assert(mid.streams[j] == c.streams[j]);
    }
}

/// Asking for less than is assigned gives the excess back to the connection.
pub proof fn law_excess_goes_back(st: StreamState, capacity: u32, init: u32, free: u32)
    requires
        capacity + st.buffered < st.available <= st.requested,
        st.available + free <= MAX_WINDOW_SIZE,
    ensures
        ({
            let (after, left) = reserved(st, capacity, init, free);
            &&& after.available == capacity + st.buffered
            &&& left == free + (st.available - (capacity + st.buffered))
        }),
{
}

/// The body bytes in a run of waiting items, in order.
pub open spec fn waiting_bytes(outbox: Seq<OutgoingView>) -> Seq<u8>
    decreases outbox.len(),
{
    if outbox.len() == 0 {
        Seq::empty()
    } else {
        (match outbox[0] {
            OutgoingView::Headers(_, _) => Seq::empty(),
            OutgoingView::Data(d, _) => d,
        }) + waiting_bytes(outbox.skip(1))
    }
}

/// The body bytes in a run of frames, in order.
pub open spec fn sent_bytes(frames: Seq<FrameView>) -> Seq<u8>
    decreases frames.len(),
{
    if frames.len() == 0 {
        Seq::empty()
    } else {
        (match frames[0] {
            FrameView::Data(d) => d.data,
            _ => Seq::empty(),
        }) + sent_bytes(frames.skip(1))
    }
}

/// Nothing of a body is lost, doubled or turned round: what is sent and what
/// still waits, put together, is what waited.
pub proof fn law_body_is_kept(v: StreamView, max: usize)
    ensures
        waiting_bytes(v.outbox) == sent_bytes(drained(v, max).1) + waiting_bytes(
            drained(v, max).0.outbox,
        ),
    decreases v.outbox.len(), front_len(v),
{
    match drain_step(v, max) {
        None => {
            assert(sent_bytes(Seq::empty()) + waiting_bytes(v.outbox) =~= waiting_bytes(v.outbox));
        },
        Some((next, frame)) => {
            law_body_is_kept(next, max);
            let (after, rest) = drained(next, max);
            let frames = seq![frame] + rest;
            assert(frames.skip(1) =~= rest);
            assert(frames[0] == frame);
            let now = match frame {
                FrameView::Data(d) => d.data,
                _ => Seq::empty(),
            };
            assert(next.outbox.skip(1) =~= v.outbox.skip(1) || next.outbox =~= v.outbox.skip(1));
            assert(waiting_bytes(v.outbox) =~= now + waiting_bytes(next.outbox));
            assert(now + (sent_bytes(rest) + waiting_bytes(after.outbox)) =~= (now + sent_bytes(
                rest,
            )) + waiting_bytes(after.outbox));
        },
    }
}

proof fn lemma_drain_step(v: StreamView, init: u32, max: usize)
    requires
        v.wf(),
        init <= MAX_WINDOW_SIZE,
        within_window(v.st, init),
    ensures
        drain_step(v, max) matches Some((next, frame)) ==> {
            let n = sent_bytes(seq![frame]).len();
            &&& next.wf()
            &&& within_window(next.st, init)
            &&& n <= v.st.available
            &&& next.st.available == v.st.available - n
            &&& next.st.send_delta == v.st.send_delta - n
        },
{
    if let Some((next, frame)) = drain_step(v, max) {
        let n = match frame {
            FrameView::Data(d) => d.data,
            _ => Seq::empty(),
        };
        assert(seq![frame].skip(1) =~= Seq::<FrameView>::empty());
        assert(sent_bytes(Seq::<FrameView>::empty()) =~= Seq::<u8>::empty());
        assert(sent_bytes(seq![frame]) =~= n);
        match v.outbox[0] {
            OutgoingView::Headers(_, _) => {},
            OutgoingView::Data(d, _) => {
                if next.outbox.len() == v.outbox.len() {
                    assert(next.outbox.skip(1) =~= v.outbox.skip(1));
                }
            },
        }
    }
}

/// Data is sent within the windows: what is sent is taken from the capacity that
/// is assigned to the stream and from the stream's window, byte for byte, and so
/// is never more than either.
pub proof fn law_within_windows(v: StreamView, init: u32, max: usize)
    requires
        v.wf(),
        init <= MAX_WINDOW_SIZE,
        within_window(v.st, init),
    ensures
        ({
            let (after, frames) = drained(v, max);
            let n = sent_bytes(frames).len();
            &&& n <= v.st.available
            &&& v.st.available > 0 ==> n <= v.st.send_window(init)
            &&& after.st.available == v.st.available - n
            &&& after.st.send_window(init) == v.st.send_window(init) - n
            &&& after.wf()
        }),
    decreases v.outbox.len(), front_len(v),
{
    lemma_drain_step(v, init, max);
    if let Some((next, frame)) = drain_step(v, max) {
        law_within_windows(next, init, max);
        let rest = drained(next, max).1;
        assert((seq![frame] + rest).skip(1) =~= rest);
        assert(seq![frame].skip(1) =~= Seq::<FrameView>::empty());
        assert(sent_bytes(Seq::<FrameView>::empty()) =~= Seq::<u8>::empty());
    }
}

/// Data is sent within the window of the connection, too: what the streams of a
/// connection send is taken from it byte for byte.
pub proof fn law_within_connection_window(c: StreamsView, i: int)
    requires
        c.wf(),
        0 <= i < c.streams.len(),
    ensures
        ({
            let (after, frames) = sent_from(c, i);
            &&& sent_bytes(frames).len() <= c.m.send_window - c.m.free
            &&& after.m.send_window == c.m.send_window - sent_bytes(frames).len()
        }),
{
    lemma_share(c, i);
    let (s, update) = crate::proto::flush::widened(c.streams[i], c.m.init_recv);
    let opened = s.st.opened || crate::proto::streams::active_count(c.streams, c.m.side, true)
        < c.m.max_send_streams;
    let s = StreamView { st: StreamState { opened, ..s.st }, ..s };
    lemma_sent_bytes_update(update, drained(s, c.m.max_send_frame).1);
    lemma_sent_bytes_update(update, Seq::empty());
    assert(update + Seq::<FrameView>::empty() =~= update);
    if opened {
        law_within_windows(s, c.m.init_send, c.m.max_send_frame);
    }
}

proof fn lemma_sent_bytes_update(update: Seq<FrameView>, rest: Seq<FrameView>)
    requires
        update.len() <= 1,
        update.len() == 1 ==> update[0] is WindowUpdate,
    ensures
        sent_bytes(update + rest) == sent_bytes(rest),
{
    if update.len() == 0 {
        assert(update + rest =~= rest);
    } else {
        assert((update + rest).skip(1) =~= rest);
    }
}

/// What a stream gives behind the head of a message is parts of the body, and
/// then at most one thing more, with which it is done.
pub open spec fn body_then_end(events: Seq<BodyEventView>, done: bool) -> bool {
    let n = if done {
        events.len() - 1
    } else {
        events.len() as int
    };
    &&& n >= 0
    &&& forall|i: int| 0 <= i < n ==> (#[trigger] events[i]) is Data
    &&& done ==> !(events[n] is Data)
}

/// A message ends once, and nothing comes behind its end.
pub proof fn law_one_end(c: StreamsView, id: StreamId)
    ensures
        body_then_end(pumped(c, id).1, pumped(c, id).2),
    decreases inbox_len(c, id),
{
    reveal(pumped);
    if let DataPollView::Ready(d) = data_of(c, id) {
        lemma_data_taken(c, id, d.len());
        let next = data_taken(c, id, d.len());
        law_one_end(next, id);
        let (_, rest, done) = pumped(next, id);
        let all = seq![BodyEventView::Data(d)] + rest;
        assert forall|i: int|
            0 <= i < (if done {
                all.len() - 1
            } else {
                all.len() as int
            }) implies (#[trigger] all[i]) is Data by {
            if i > 0 {
                assert(all[i] == rest[i - 1]);
            }
        }
    }
}

/// The number of body bytes in a run of received items.
pub open spec fn inbox_bytes(inbox: Seq<IncomingView>) -> nat
    decreases inbox.len(),
{
    if inbox.len() == 0 {
        0
    } else {
        (match inbox[0] {
            IncomingView::Data(d) => d.len(),
            _ => 0,
        }) + inbox_bytes(inbox.skip(1))
    }
}

/// What was received on a stream and not read yet is not released yet.
pub open spec fn is_covered(s: StreamView) -> bool {
    inbox_bytes(s.inbox) <= s.st.in_flight
}

/// Every part of a body that is read is released, in full, on the stream and on
/// the connection; what is not read yet stays covered.
pub proof fn law_read_data_is_released(c: StreamsView, id: StreamId)
    requires
        c.wf(),
        find(c.streams, id) matches Some(i) ==> is_covered(c.streams[i]),
    ensures
        data_of(c, id) matches DataPollView::Ready(d) ==> {
            let after = data_taken(c, id, d.len());
            let i = find(c.streams, id)->0;
            &&& find(after.streams, id) == Some(i)
            &&& after.streams[i].st.in_flight == c.streams[i].st.in_flight - d.len()
            &&& after.m.in_flight == c.m.in_flight - d.len()
            &&& is_covered(after.streams[i])
        },
{
    reveal(released);
    if let DataPollView::Ready(d) = data_of(c, id) {
        lemma_find(c.streams, id);
        let i = find(c.streams, id)->0;
        let s = c.streams[i];
        lemma_share(c, i);
        lemma_find_update(c.streams, id, i, s.read());
        let c1 = read_from(c, id);
        let n = d.len() as u32;
        let st = StreamState { in_flight: (s.st.in_flight - n) as u32, ..s.st };
        lemma_find_update(c1.streams, id, i, StreamView { st, ..s.read() });
    }
}

proof fn lemma_inbox_push(inbox: Seq<IncomingView>, item: IncomingView)
    ensures
        inbox_bytes(inbox.push(item)) == inbox_bytes(inbox) + match item {
            IncomingView::Data(d) => d.len(),
            _ => 0,
        },
    decreases inbox.len(),
{
    let all = inbox.push(item);
    if inbox.len() == 0 {
        assert(all.skip(1) =~= Seq::<IncomingView>::empty());
        assert(inbox_bytes(Seq::<IncomingView>::empty()) == 0);
        assert(all[0] == item);
    } else {
        assert(all.skip(1) =~= inbox.skip(1).push(item));
        assert(all[0] == inbox[0]);
        lemma_inbox_push(inbox.skip(1), item);
    }
}

/// A part of a body that is received is covered: it counts as not released on the
/// stream and on the connection until it is read.
pub proof fn law_received_data_is_covered(c: StreamsView, i: int, f: DataView)
    requires
        c.wf(),
        0 <= i < c.streams.len(),
        is_covered(c.streams[i]),
        flow_len(f) + c.m.in_flight + c.m.recv_window <= MAX_WINDOW_SIZE,
    ensures
        body_received(c, i, f) matches (after, None) ==> {
            &&& is_covered(after.streams[i])
            &&& after.streams[i].st.in_flight == c.streams[i].st.in_flight + f.data.len()
            &&& after.m.in_flight == c.m.in_flight + f.data.len()
        },
{
    lemma_share(c, i);
    lemma_inbox_push(c.streams[i].inbox, IncomingView::Data(f.data));
}

/// The body bytes in a run of received items, in order.
pub open spec fn received_bytes(inbox: Seq<IncomingView>) -> Seq<u8>
    decreases inbox.len(),
{
    if inbox.len() == 0 {
        Seq::empty()
    } else {
        (match inbox[0] {
            IncomingView::Data(d) => d,
            _ => Seq::empty(),
        }) + received_bytes(inbox.skip(1))
    }
}

/// The body bytes in a run of events, in order.
pub open spec fn event_bytes(events: Seq<BodyEventView>) -> Seq<u8>
    decreases events.len(),
{
    if events.len() == 0 {
        Seq::empty()
    } else {
        (match events[0] {
            BodyEventView::Data(d) => d,
            _ => Seq::empty(),
        }) + event_bytes(events.skip(1))
    }
}

/// What was received on a stream and waits to be read.
pub open spec fn inbox_of(c: StreamsView, id: StreamId) -> Seq<IncomingView> {
    match find(c.streams, id) {
        Some(i) => c.streams[i].inbox,
        None => Seq::empty(),
    }
}

proof fn lemma_data_taken_inbox(c: StreamsView, id: StreamId, len: nat)
    requires
        inbox_of(c, id).len() > 0,
    ensures
        inbox_of(data_taken(c, id, len), id) == inbox_of(c, id).skip(1),
{
    reveal(released);
    lemma_find(c.streams, id);
    let i = find(c.streams, id)->0;
    let s = c.streams[i];
    lemma_find_update(c.streams, id, i, s.read());
    let c1 = read_from(c, id);
    let n = len as u32;
    let st = StreamState { in_flight: (s.st.in_flight - n) as u32, ..s.st };
    lemma_find_update(c1.streams, id, i, StreamView { st, ..s.read() });
}

/// Nothing of a body is lost, doubled or turned round on its way to the user: what
/// is handed out and what still waits to be, put together, is what was received.
pub proof fn law_body_is_handed_out(c: StreamsView, id: StreamId)
    ensures
        ({
            let (after, events, _) = pumped(c, id);
            event_bytes(events) + received_bytes(inbox_of(after, id)) == received_bytes(
                inbox_of(c, id),
            )
        }),
    decreases inbox_len(c, id),
{
    reveal_with_fuel(pumped, 1);
    let inbox = inbox_of(c, id);
    let (after, events, _) = pumped(c, id);
    match data_of(c, id) {
        DataPollView::Ready(d) => {
            let next = data_taken(c, id, d.len());
            lemma_data_taken(c, id, d.len());
            lemma_data_taken_inbox(c, id, d.len());
            law_body_is_handed_out(next, id);
            let later = pumped(next, id).1;
            assert(events[0] == BodyEventView::Data(d));
            assert(events.skip(1) =~= later);
            let rest = received_bytes(inbox_of(after, id));
            assert((d + event_bytes(later)) + rest =~= d + (event_bytes(later) + rest));
        },
        _ => {
            assert(events.len() <= 1);
            assert(event_bytes(events) =~= Seq::<u8>::empty()) by {
                if events.len() == 1 {
                    assert(events.skip(1).len() == 0);
                    assert(event_bytes(events.skip(1)) =~= Seq::<u8>::empty());
                }
            }
            if after != c {
                lemma_find(c.streams, id);
                let i = find(c.streams, id)->0;
                lemma_find_update(c.streams, id, i, c.streams[i].read());
                assert(inbox_of(after, id) == inbox.skip(1));
            }
            assert(Seq::<u8>::empty() + received_bytes(inbox_of(after, id)) =~= received_bytes(
                inbox_of(after, id),
            ));
        },
    }
}

proof fn lemma_received_push(inbox: Seq<IncomingView>, item: IncomingView)
    ensures
        received_bytes(inbox.push(item)) == received_bytes(inbox) + match item {
            IncomingView::Data(d) => d,
            _ => Seq::empty(),
        },
    decreases inbox.len(),
{
    let all = inbox.push(item);
    if inbox.len() == 0 {
        assert(all.skip(1) =~= Seq::<IncomingView>::empty());
        assert(received_bytes(all.skip(1)) =~= Seq::<u8>::empty());
    } else {
        assert(all.skip(1) =~= inbox.skip(1).push(item));
        assert(all[0] == inbox[0]);
        lemma_received_push(inbox.skip(1), item);
    }
    assert(received_bytes(all) =~= received_bytes(inbox) + match item {
        IncomingView::Data(d) => d,
        _ => Seq::empty(),
    });
}

/// A part of a body that is received goes behind what was received before.
pub proof fn law_body_is_received(c: StreamsView, i: int, f: DataView)
    requires
        0 <= i < c.streams.len(),
    ensures
        body_received(c, i, f) matches (after, None) ==> received_bytes(after.streams[i].inbox)
            == received_bytes(c.streams[i].inbox) + f.data,
{
    lemma_received_push(c.streams[i].inbox, IncomingView::Data(f.data));
}

/// The peer may send no more than the windows say: a DATA frame that is larger
/// than what is left of the connection's window ends the connection, and one that
/// is larger than what is left of its stream's window resets the stream.
pub proof fn law_windows_are_enforced(c: StreamsView, f: DataView)
    requires
        find(c.streams, f.stream_id) is Some,
    ensures
        flow_len(f) > c.m.recv_window ==> data_received(c, f).1 == Some(
            go_away_error(Reason::FLOW_CONTROL_ERROR),
        ),
        ({
            let s = c.streams[find(c.streams, f.stream_id)->0];
            flow_len(f) <= c.m.recv_window && s.st.recv == Half::Streaming && !is_ended_here(s.st)
                && flow_len(f) > s.st.recv_window(c.m.init_recv) ==> data_received(c, f).1 == Some(
                reset_error(f.stream_id, Reason::FLOW_CONTROL_ERROR),
            )
        }),
{
    lemma_find(c.streams, f.stream_id);
}

/// A connection stays open while it is idle: it ends of itself only once one of the
/// two sides has taken its leave.
pub proof fn law_idle_stays_open(c: StreamsView)
    requires
        c.m.remote_error is None,
        c.m.shutdown != Shutdown::Going,
    ensures
        settled(c) == c,
{
}

/// A text starts with another.
pub open spec fn starts_with(text: Seq<u8>, start: Seq<u8>) -> bool {
    start.len() <= text.len() && text.take(start.len() as int) == start
}

pub(crate) proof fn lemma_starts_with(a: Seq<u8>, b: Seq<u8>, c: Seq<u8>)
    requires
        starts_with(b, a),
        starts_with(c, b),
    ensures
        starts_with(c, a),
{
    assert(c.take(a.len() as int) =~= b.take(a.len() as int));
}

proof fn lemma_encoded(c: CodecView, f: FrameView)
    requires
        c.write.next is Nothing,
        c.write.wf(),
    ensures
        starts_with(encoded(c, f).transmit(), c.transmit()),
        encoded(c, f).write.next is Nothing,
        encoded(c, f).write.wf(),
{
    reveal(encoded);
    crate::codec::framed_write::lemma_buffer_appends(c.write, f);
    assert(c.drained().transmit() =~= c.transmit());
    assert(c.transmit().take(c.transmit().len() as int) =~= c.transmit());
    if let Ok(write) = buffered(c.write, f) {
        let d = CodecView { write, ..c };
        assert(d.drained().transmit() =~= d.transmit());
        assert(d.transmit() =~= c.transmit() + wire_of(c.write, f));
        assert(d.transmit().take(c.transmit().len() as int) =~= c.transmit());
    }
}

pub(crate) proof fn lemma_all_encoded(c: CodecView, frames: Seq<FrameView>)
    requires
        c.write.next is Nothing,
        c.write.wf(),
    ensures
        starts_with(all_encoded(c, frames).transmit(), c.transmit()),
        all_encoded(c, frames).write.next is Nothing,
        all_encoded(c, frames).write.wf(),
    decreases frames.len(),
{
    if frames.len() == 0 {
        assert(c.transmit().take(c.transmit().len() as int) =~= c.transmit());
    } else {
        lemma_all_encoded(c, frames.drop_last());
        let mid = all_encoded(c, frames.drop_last());
        lemma_encoded(mid, frames.last());
        lemma_starts_with(c.transmit(), mid.transmit(), encoded(mid, frames.last()).transmit());
    }
}

proof fn lemma_stepped(v: ConnectionView, f: FrameView)
    requires
        v.codec.write.next is Nothing,
        v.codec.write.wf(),
        frame_ok(f),
    ensures
        stepped(v, f).codec.transmit() == v.codec.transmit(),
        stepped(v, f).codec.write.next is Nothing,
        stepped(v, f).codec.write.wf(),
{
    reveal(stepped);
}

proof fn lemma_read_all(v: ConnectionView)
    requires
        v.codec.write.next is Nothing,
        v.codec.write.wf(),
        v.codec.read.wf(),
        local_ok(v.streams.m.local),
    ensures
        read_all(v).codec.transmit() == v.codec.transmit(),
        read_all(v).codec.write.next is Nothing,
        read_all(v).codec.write.wf(),
    decreases
            v.codec.read.buffer.len(),
            if reads_on(v) {
                1int
            } else {
                0
            },
{
    if reads_on(v) {
        let (read, r) = next_frame_of(v.codec.read);
        let next = ConnectionView { codec: CodecView { read, ..v.codec }, ..v };
        lemma_next_frame(v.codec.read);
        lemma_next_frame_shrinks(v.codec.read);
        match r {
            Ok(None) => {},
            Ok(Some(f)) => {
                lemma_stepped_buffer(next, f);
                lemma_stepped(next, f);
                lemma_stepped_read(next, f);
                lemma_read_all(stepped(next, f));
            },
            Err(e) => {
                lemma_handled(next.streams, e);
                lemma_handled_local(next.streams, e);
                lemma_read_all(ConnectionView { streams: handled(next.streams, e), ..next });
            },
        }
    }
}

pub(crate) proof fn lemma_handled_local(c: StreamsView, e: ErrorView)
    ensures
        handled(c, e).m.local == c.m.local,
{
    reveal(handled);
    reveal(reset_by);
}

pub(crate) proof fn lemma_stepped_read(v: ConnectionView, f: FrameView)
    requires
        v.codec.read.wf(),
        local_ok(v.streams.m.local),
    ensures
        stepped(v, f).codec.read.wf(),
        stepped(v, f).streams.m.local == v.streams.m.local,
{
    reveal(stepped);
    reveal(reset_by);
    let (streams, fault) = frame_received(v.streams, f);
    if let Some(e) = fault {
        lemma_handled_local(streams, e);
    }
}

/// Bytes for the peer are never taken back or changed: whatever a connection
/// does, those that were there stay in front.
pub proof fn law_output_stays(v: ConnectionView)
    requires
        v.codec.write.next is Nothing,
        v.codec.write.wf(),
        v.codec.read.wf(),
        local_ok(v.streams.m.local),
    ensures
        starts_with(driven(v).codec.transmit(), v.codec.transmit()),
{
    reveal(driven);
    lemma_read_all(v);
    let a = read_all(v);
    lemma_all_encoded(a.codec, flushed(a.streams).1);
    let b = written(a);
    let settled = ConnectionView { streams: settled(b.streams), ..b };
    lemma_all_encoded(b.codec, flushed(settled.streams).1);
    lemma_starts_with(
        v.codec.transmit(),
        b.codec.transmit(),
        written(settled).codec.transmit(),
    );
}

proof fn lemma_sent_all_next_id(c: StreamsView, i: nat)
    ensures
        sent_all(c, i).0.m.next_id == c.m.next_id,
    decreases c.streams.len() - i,
{
    if i < c.streams.len() {
        lemma_sent_all_next_id(sent_from(c, i as int).0, i + 1);
    }
}

proof fn lemma_flushed_next_id(c: StreamsView)
    ensures
        flushed(c).0.m.next_id == c.m.next_id,
{
    lemma_sent_all_next_id(conn_widened(StreamsView { control: Seq::empty(), ..c }).0, 0);
}

proof fn lemma_stepped_next_id(v: ConnectionView, f: FrameView)
    ensures
        stepped(v, f).streams.m.next_id == v.streams.m.next_id,
{
    reveal(stepped);
    reveal(reset_by);
    let (streams, fault) = frame_received(v.streams, f);
    if let Some(e) = fault {
        lemma_handled_next_id(streams, e);
    }
}

proof fn lemma_handled_next_id(c: StreamsView, e: ErrorView)
    ensures
        handled(c, e).m.next_id == c.m.next_id,
{
    reveal(handled);
    reveal(reset_by);
}

proof fn lemma_read_all_next_id(v: ConnectionView)
    ensures
        read_all(v).streams.m.next_id == v.streams.m.next_id,
    decreases
            v.codec.read.buffer.len(),
            if reads_on(v) {
                1int
            } else {
                0
            },
{
    if reads_on(v) {
        let (read, r) = next_frame_of(v.codec.read);
        let next = ConnectionView { codec: CodecView { read, ..v.codec }, ..v };
        lemma_next_frame_shrinks(v.codec.read);
        match r {
            Ok(None) => {},
            Ok(Some(f)) => {
                lemma_stepped_buffer(next, f);
                lemma_stepped_next_id(next, f);
                lemma_read_all_next_id(stepped(next, f));
            },
            Err(e) => {
                lemma_handled(next.streams, e);
                lemma_handled_next_id(next.streams, e);
                lemma_read_all_next_id(
                    ConnectionView { streams: handled(next.streams, e), ..next },
                );
            },
        }
    }
}

/// Driving a connection uses up no identifier.
pub proof fn lemma_driven_next_id(v: ConnectionView)
    ensures
        driven(v).streams.m.next_id == v.streams.m.next_id,
{
    reveal(driven);
    lemma_read_all_next_id(v);
    let a = read_all(v);
    lemma_flushed_next_id(a.streams);
    lemma_flushed_next_id(settled(written(a).streams));
}

/// A stream that asks for no more than `n` on top of what waits, and to which no more
/// is assigned than it asks for.
pub open spec fn asks_at_most(c: StreamsView, id: StreamId, n: int) -> bool {
    find(c.streams, id) matches Some(i) ==> {
        let st = c.streams[i].st;
        &&& st.requested <= n + st.buffered
        &&& st.available <= st.requested
    }
}

/// The capacity of a stream is never more than was asked for last: what was asked for
/// bounds what the stream asks for, whatever the peer grants keeps that bound, and under
/// it the capacity is at most that.
pub proof fn law_capacity_is_bounded(
    c: StreamsView,
    id: StreamId,
    n: u32,
    grant: WindowUpdate,
)
    requires
        c.wf(),
    ensures
        asks_at_most(capacity_reserved(c, id, n), id, n as int),
        asks_at_most(c, id, n as int) ==> asks_at_most(
            window_update_received(c, grant).0,
            id,
            n as int,
        ),
        asks_at_most(c, id, n as int) ==> stream_capacity(c, id) <= n,
{
    reveal(capacity_reserved);
    reveal(stream_capacity);
    lemma_find(c.streams, id);
    assert forall|j: int| 0 <= j < c.streams.len() implies (#[trigger] c.streams[j]).st.available
        <= c.streams[j].st.requested by {
        assert(c.stream_ok(c.streams[j]));
    }
    if let Some(i) = find(c.streams, id) {
        let s = c.streams[i];
        let (st, free) = reserved(s.st, n, c.m.init_send, c.m.free);
        let t = StreamView { st, ..s };
        let mid = replaced(c, i, t, Meter { free, ..c.m });
        lemma_find_update(c.streams, id, i, t);
        lemma_reassigned(mid, id);
        lemma_assign_bounded(mid.streams, 0, mid.m.init_send, mid.m.free);
        assert(mid.streams[i] == t);
    }
    let k = find(c.streams, grant.stream_id);
    lemma_find(c.streams, grant.stream_id);
    if grant.stream_id.id == 0 {
        let m = Meter {
            send_window: (c.m.send_window + grant.size_increment) as u32,
            free: (c.m.free + grant.size_increment) as u32,
            ..c.m
        };
        let mid = StreamsView { m, ..c };
        lemma_reassigned(mid, id);
        lemma_assign_bounded(mid.streams, 0, mid.m.init_send, mid.m.free);
    } else if let Some(k) = k {
        let s = c.streams[k];
        let st = StreamState { send_delta: (s.st.send_delta + grant.size_increment) as i64, ..s.st };
        let t = StreamView { st, ..s };
        let mid = replaced(c, k, t, c.m);
        lemma_find_update(c.streams, id, k, t);
        lemma_reassigned(mid, id);
        lemma_assign_bounded(mid.streams, 0, mid.m.init_send, mid.m.free);
    }
}

proof fn lemma_clamp_bounded(streams: Seq<StreamView>, i: nat, init: u32, free: u32)
    requires
        forall|j: int|
            0 <= j < streams.len() ==> (#[trigger] streams[j]).st.available
                <= streams[j].st.requested,
    ensures
        clamp_from(streams, i, init, free).0.len() == streams.len(),
        forall|j: int|
            0 <= j < streams.len() ==> {
                let t = #[trigger] clamp_from(streams, i, init, free).0[j];
                &&& same_but_available(t, streams[j])
                &&& t.st.available <= streams[j].st.requested
            },
    decreases streams.len() - i,
{
    if i < streams.len() {
        let s = streams[i as int];
        let window = s.st.send_window(init);
        let most = if window < 0 {
            0
        } else if window < s.st.available {
            window
        } else {
            s.st.available as int
        };
        let t = StreamView { st: StreamState { available: most as u32, ..s.st }, ..s };
        let left = (free + (s.st.available - most)) as u32;
        let next = streams.update(i as int, t);
        lemma_clamp_bounded(next, i + 1, init, left);
        let end = clamp_from(next, i + 1, init, left).0;
        assert forall|j: int| 0 <= j < streams.len() implies {
            let t = #[trigger] clamp_from(streams, i, init, free).0[j];
            &&& same_but_available(t, streams[j])
            &&& t.st.available <= streams[j].st.requested
        } by {
            assert(same_but_available(end[j], next[j]));
            assert(end[j].st.available <= next[j].st.requested);
        }
    }
}

/// The capacity of a stream is never more than was asked for last, too, when the peer
/// changes the size that windows start with.
pub proof fn law_capacity_is_bounded_by_settings(
    c: StreamsView,
    id: StreamId,
    n: u32,
    settings: Settings,
)
    requires
        c.wf(),
        asks_at_most(c, id, n as int),
    ensures
        asks_at_most(settings_received(c, settings).0, id, n as int),
{
    lemma_find(c.streams, id);
    assert forall|j: int| 0 <= j < c.streams.len() implies (#[trigger] c.streams[j]).st.available
        <= c.streams[j].st.requested by {
        assert(c.stream_ok(c.streams[j]));
    }
    if let Some(init) = settings.initial_window_size {
        lemma_clamp_bounded(c.streams, 0, init, c.m.free);
        let (streams, free) = clamp_from(c.streams, 0, init, c.m.free);
        let m = Meter {
            max_send_streams: match settings.max_concurrent_streams {
                Some(n) => n as usize,
                None => c.m.max_send_streams,
            },
            max_send_frame: match settings.max_frame_size {
                Some(n) => n as usize,
                None => c.m.max_send_frame,
            },
            ..c.m
        };
        let mid = StreamsView { streams, m: Meter { init_send: init, free, ..m }, ..c };
        assert forall|j: int| 0 <= j < c.streams.len() implies (#[trigger] mid.streams[j]).st.id
            == c.streams[j].st.id && mid.streams[j].st.available
            <= mid.streams[j].st.requested by {
            assert(same_but_available(streams[j], c.streams[j]));
        }
        lemma_find_same(mid.streams, c.streams, id);
        lemma_reassigned(mid, id);
        lemma_assign_bounded(mid.streams, 0, mid.m.init_send, mid.m.free);
        if let Some(i) = find(c.streams, id) {
            assert(same_but_available(streams[i], c.streams[i]));
        }
    }
}

proof fn lemma_assign_bounded(streams: Seq<StreamView>, i: nat, init: u32, free: u32)
    requires
        forall|j: int|
            0 <= j < streams.len() ==> (#[trigger] streams[j]).st.available
                <= streams[j].st.requested,
    ensures
        assign_from(streams, i, init, free).0.len() == streams.len(),
        forall|j: int|
            0 <= j < streams.len() ==> (#[trigger] assign_from(
                streams,
                i,
                init,
                free,
            ).0[j]).st.available <= streams[j].st.requested,
    decreases streams.len() - i,
{
    if i < streams.len() {
        let (st, left) = assigned(streams[i as int].st, init, free);
        let next = streams.update(i as int, StreamView { st, ..streams[i as int] });
        lemma_assign_bounded(next, i + 1, init, left);
        assert forall|j: int| 0 <= j < streams.len() implies (#[trigger] assign_from(
            streams,
            i,
            init,
            free,
        ).0[j]).st.available <= streams[j].st.requested by {
            assert(next[j].st.requested == streams[j].st.requested);
        }
    }
}

/// Whether a frame resets this stream.
pub open spec fn resets(f: FrameView, id: StreamId) -> bool {
    f matches FrameView::Reset(r) && r.stream_id == id
}

proof fn lemma_drained_no_reset(v: StreamView, max: usize)
    ensures
        forall|i: int| 0 <= i < drained(v, max).1.len() ==> !(#[trigger] drained(v, max).1[i] is Reset),
    decreases v.outbox.len(), front_len(v),
{
    if let Some((next, f)) = drain_step(v, max) {
        lemma_drained_no_reset(next, max);
        let all = drained(v, max).1;
        let rest = drained(next, max).1;
        assert forall|i: int| 0 <= i < all.len() implies !(#[trigger] all[i] is Reset) by {
            if i > 0 {
                assert(all[i] == rest[i - 1]);
            }
        }
    }
}

proof fn lemma_sent_no_reset(c: StreamsView, i: nat)
    ensures
        forall|j: int| 0 <= j < sent_all(c, i).1.len() ==> !(#[trigger] sent_all(c, i).1[j] is Reset),
    decreases c.streams.len() - i,
{
    if i < c.streams.len() {
        let (next, frames) = sent_from(c, i as int);
        lemma_sent_no_reset(next, i + 1);
        let (s, update) = widened(c.streams[i as int], c.m.init_recv);
        let opened = s.st.opened || active_count(c.streams, c.m.side, true) < c.m.max_send_streams;
        let s = StreamView { st: StreamState { opened, ..s.st }, ..s };
        lemma_drained_no_reset(s, c.m.max_send_frame);
        let sent = drained(s, c.m.max_send_frame).1;
        let all = sent_all(c, i).1;
        let rest = sent_all(next, i + 1).1;
        assert forall|j: int| 0 <= j < all.len() implies !(#[trigger] all[j] is Reset) by {
            if j < frames.len() {
                assert(all[j] == frames[j]);
                if j >= update.len() {
                    assert(frames[j] == sent[j - update.len()]);
                }
            } else {
                assert(all[j] == rest[j - frames.len()]);
            }
        }
    }
}

/// Giving up an exchange whose stream is open tells the peer once: to the frames that go
/// out next, one RST_STREAM frame for the stream is added, with the reason, and none of
/// the frames behind those that waited already is another.
pub proof fn law_reset_is_told(c: StreamsView, id: StreamId, reason: Reason)
    requires
        find(c.streams, id) matches Some(i) && c.streams[i].st.opened && c.streams[i].st.cause
            is None && !c.streams[i].done(),
    ensures
        ({
            let after = given_up(c, id, reason);
            let told = FrameView::Reset(Reset { stream_id: id, error_code: reason });
            let frames = flushed(after).1;
            let n = c.control.len() as int;
            &&& frames.len() > n
            &&& frames.take(n) == c.control
            &&& frames[n] == told
            &&& forall|j: int| n < j < frames.len() ==> !resets(#[trigger] frames[j], id)
        }),
{
    reveal(given_up);
    reveal(reset_by);
    let after = given_up(c, id, reason);
    let told = FrameView::Reset(Reset { stream_id: id, error_code: reason });
    assert(after.control == c.control.push(told));
    let (widened, update) = conn_widened(StreamsView { control: Seq::empty(), ..after });
    lemma_sent_no_reset(widened, 0);
    let sent = sent_all(widened, 0).1;
    let frames = flushed(after).1;
    let n = c.control.len() as int;
    assert(frames == after.control + update + sent);
    assert(frames.take(n) =~= c.control);
    assert forall|j: int| n < j < frames.len() implies !resets(#[trigger] frames[j], id) by {
        if j >= n + 1 + update.len() {
            assert(frames[j] == sent[j - (n + 1 + update.len())]);
        }
    }
}

/// Time does not go back: a point in time that is past already changes no more than telling
/// the present one again.
pub proof fn law_time_does_not_go_back(c: StreamsView, now: u64)
    ensures
        time_told(c, now).m.now >= c.m.now,
        time_told(c, now).m.now >= now,
        time_told(c, now).m.now == c.m.now || time_told(c, now).m.now == now,
        now <= c.m.now ==> time_told(c, now) == time_told(c, c.m.now),
        time_told(c, now).control == c.control,
        time_told(c, now).accept == c.accept,
{
    reveal(time_told);
}

} // verus!
