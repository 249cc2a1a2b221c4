//! What keeps data moving: windows are opened again as data is handed out, and what can go
//! out goes out.

use crate::frame::block::BlockView;
use crate::frame::control::{Reset, WindowUpdate};
use crate::frame::settings::Settings;
use crate::frame::{FrameView, Reason, StreamId};
use crate::hpack::field::FieldView;
use crate::proto::connection::{with_target, ConnectionView};
use crate::proto::control::{clamp_from, settings_received};
use crate::proto::error::Initiator;
use crate::proto::flush::{conn_widened, flushed, sent_all, sent_from, widened};
use crate::proto::recv::window_update_received;
use crate::proto::send::{
    assigned, data_queued, drain_step, drained, ended, front_len, reserved, trailers_queued,
};
use crate::proto::stream::{
    Cause, Half, OutgoingView, StreamState, StreamView, MAX_WINDOW_SIZE,
};
use crate::proto::streams::{
    active_count, assign_from, find, kept_count, lemma_find, purged, reassigned, Meter, Side,
    StreamsView,
};
use crate::proto::user::{
    capacity_reserved, data_sent, given_up, replaced, reset_by, trailers_block, trailers_sent,
};
use vstd::prelude::*;

verus! {

/// What was released on a stream and not granted to the peer again is less than half of
/// what the peer may still send, if it is anything.
pub open spec fn is_open_wide(s: StreamView, init: u32) -> bool {
    let left = init - s.st.owed;
    let released = s.st.owed - s.st.in_flight;
    released == 0 || 2 * released < left
}

proof fn lemma_drained_receiving(v: StreamView, max: usize)
    ensures
        ({
            let after = drained(v, max).0;
            &&& after.st.recv == v.st.recv
            &&& after.st.owed == v.st.owed
            &&& after.st.in_flight == v.st.in_flight
            &&& after.st.id == v.st.id
            &&& after.st.cause == v.st.cause
            &&& after.st.opened == v.st.opened
            &&& after.st.remaining == v.st.remaining
            &&& after.inbox == v.inbox
        }),
        forall|i: int|
            0 <= i < drained(v, max).1.len() ==> !(#[trigger] drained(v, max).1[i] is WindowUpdate),
    decreases v.outbox.len(), front_len(v),
{
    if let Some((next, f)) = drain_step(v, max) {
        lemma_drained_receiving(next, max);
        let all = drained(v, max).1;
        let rest = drained(next, max).1;
        assert forall|i: int| 0 <= i < all.len() implies !(#[trigger] all[i] is WindowUpdate) by {
            if i > 0 {
                assert(all[i] == rest[i - 1]);
            }
        }
    }
}

proof fn lemma_sent_from(c: StreamsView, i: int)
    requires
        0 <= i < c.streams.len(),
        c.streams[i].st.in_flight <= c.streams[i].st.owed,
    ensures
        ({
            let (after, frames) = sent_from(c, i);
            let s = c.streams[i];
            let t = after.streams[i];
            &&& after.streams.len() == c.streams.len()
            &&& forall|j: int|
                0 <= j < c.streams.len() && j != i ==> #[trigger] after.streams[j] == c.streams[j]
            &&& after.m.init_recv == c.m.init_recv
            &&& after.m.max_send_frame == c.m.max_send_frame
            &&& t.st.id == s.st.id
            &&& t.st.recv == s.st.recv
            &&& t.st.in_flight == s.st.in_flight
            &&& t.st.in_flight <= t.st.owed <= s.st.owed
            &&& t.inbox == s.inbox
            &&& t.st.recv == Half::Streaming ==> is_open_wide(t, c.m.init_recv)
        }),
{
    let (s, update) = widened(c.streams[i], c.m.init_recv);
    let opened = s.st.opened || active_count(c.streams, c.m.side, true) < c.m.max_send_streams;
    let s = StreamView { st: StreamState { opened, ..s.st }, ..s };
    lemma_drained_receiving(s, c.m.max_send_frame);
}

/// The numbers of the streams that count what was received are in order.
pub open spec fn is_counted(streams: Seq<StreamView>) -> bool {
    forall|j: int|
        0 <= j < streams.len() ==> (#[trigger] streams[j]).st.in_flight <= streams[j].st.owed
}

proof fn lemma_sent_all(c: StreamsView, i: nat)
    requires
        is_counted(c.streams),
        forall|j: int|
            0 <= j < i && j < c.streams.len() && (#[trigger] c.streams[j]).st.recv
                == Half::Streaming ==> is_open_wide(c.streams[j], c.m.init_recv),
    ensures
        ({
            let after = sent_all(c, i).0;
            &&& after.m.init_recv == c.m.init_recv
            &&& forall|j: int|
                0 <= j < after.streams.len() && (#[trigger] after.streams[j]).st.recv
                    == Half::Streaming ==> is_open_wide(after.streams[j], c.m.init_recv)
        }),
    decreases c.streams.len() - i,
{
    if i < c.streams.len() {
        let next = sent_from(c, i as int).0;
        lemma_sent_from(c, i as int);
        assert forall|j: int| 0 <= j < next.streams.len() implies (
        #[trigger] next.streams[j]).st.in_flight <= next.streams[j].st.owed by {
            if j != i {
                assert(next.streams[j] == c.streams[j]);
            }
        }
        assert forall|j: int|
            0 <= j < i + 1 && j < next.streams.len() && (#[trigger] next.streams[j]).st.recv
                == Half::Streaming implies is_open_wide(next.streams[j], next.m.init_recv) by {
            if j < i {
                assert(next.streams[j] == c.streams[j]);
            }
        }
        lemma_sent_all(next, i + 1);
    }
}

pub(crate) proof fn lemma_purged_from(streams: Seq<StreamView>)
    ensures
        forall|j: int|
            0 <= j < purged(streams).len() ==> streams.contains(#[trigger] purged(streams)[j]),
    decreases streams.len(),
{
    if streams.len() > 0 {
        let rest = streams.skip(1);
        lemma_purged_from(rest);
        let all = purged(streams);
        let left = purged(rest);
        assert forall|j: int| 0 <= j < all.len() implies streams.contains(#[trigger] all[j]) by {
            let k = if all == left {
                j
            } else {
                j - 1
            };
            if k >= 0 {
                assert(all[j] == left[k]);
                assert(rest.contains(left[k]));
                let i = choose|i: int| 0 <= i < rest.len() && rest[i] == left[k];
                assert(streams[i + 1] == left[k]);
            } else {
                assert(all[0] == streams[0]);
            }
        }
    }
}

/// The windows of the peer are opened again as data is handed out: whatever was received
/// on a stream and is the peer's to go on with, once everything that can go out went out,
/// less than half of what the peer may still send has been released and not granted again.
/// If all of it was handed out, the peer may send at least two thirds of what windows start
/// with, whatever else is known of the message.
pub proof fn law_streams_are_kept_open(c: StreamsView)
    requires
        is_counted(c.streams),
    ensures
        forall|j: int|
            0 <= j < flushed(c).0.streams.len() ==> {
                let s = #[trigger] flushed(c).0.streams[j];
                s.st.recv == Half::Streaming ==> {
                    &&& is_open_wide(s, c.m.init_recv)
                    &&& s.st.in_flight == 0 ==> 3 * (c.m.init_recv - s.st.owed) >= 2
                        * c.m.init_recv
                    &&& s.st.in_flight == 0 && c.m.init_recv > 0 ==> c.m.init_recv - s.st.owed > 0
                }
            },
{
    let start = conn_widened(StreamsView { control: Seq::empty(), ..c }).0;
    lemma_sent_all(start, 0);
    let after = sent_all(start, 0).0;
    lemma_purged_from(after.streams);
    let left = flushed(c).0.streams;
    assert forall|j: int| 0 <= j < left.len() && (#[trigger] left[j]).st.recv
        == Half::Streaming implies is_open_wide(left[j], c.m.init_recv) by {
        assert(after.streams.contains(left[j]));
        let i = choose|i: int| 0 <= i < after.streams.len() && after.streams[i] == left[j];
        assert(is_open_wide(after.streams[i], c.m.init_recv));
    }
}

proof fn lemma_sent_all_tells(c: StreamsView, i: nat, k: int)
    requires
        i <= k < c.streams.len(),
        is_counted(c.streams),
        c.streams[k].st.recv == Half::Streaming,
        c.streams[k].st.owed > c.streams[k].st.in_flight,
        2 * (c.streams[k].st.owed - c.streams[k].st.in_flight) >= c.m.init_recv
            - c.streams[k].st.owed,
    ensures
        sent_all(c, i).1.contains(
            FrameView::WindowUpdate(
                WindowUpdate {
                    stream_id: c.streams[k].st.id,
                    size_increment: (c.streams[k].st.owed - c.streams[k].st.in_flight) as u32,
                },
            ),
        ),
    decreases c.streams.len() - i,
{
    let f = FrameView::WindowUpdate(
        WindowUpdate {
            stream_id: c.streams[k].st.id,
            size_increment: (c.streams[k].st.owed - c.streams[k].st.in_flight) as u32,
        },
    );
    let (next, frames) = sent_from(c, i as int);
    let all = sent_all(c, i).1;
    lemma_sent_from(c, i as int);
    if i == k {
        assert(frames[0] == f);
        assert(all[0] == f);
    } else {
        assert(next.streams[k] == c.streams[k]);
        assert forall|j: int| 0 <= j < next.streams.len() implies (
        #[trigger] next.streams[j]).st.in_flight <= next.streams[j].st.owed by {
            if j != i {
                assert(next.streams[j] == c.streams[j]);
            }
        }
        lemma_sent_all_tells(next, i + 1, k);
        let rest = sent_all(next, i + 1).1;
        assert(rest.contains(f));
        let j = choose|j: int| 0 <= j < rest.len() && rest[j] == f;
        assert(all[frames.len() + j] == f);
    }
}

/// Once what was released on a stream is half of what the peer may still send, the peer is
/// granted it again: a WINDOW_UPDATE frame for the stream, of exactly that, is among the
/// frames that go out next.
pub proof fn law_released_data_is_granted_again(c: StreamsView, k: int)
    requires
        is_counted(c.streams),
        0 <= k < c.streams.len(),
        c.streams[k].st.recv == Half::Streaming,
        c.streams[k].st.owed > c.streams[k].st.in_flight,
        2 * (c.streams[k].st.owed - c.streams[k].st.in_flight) >= c.m.init_recv
            - c.streams[k].st.owed,
    ensures
        flushed(c).1.contains(
            FrameView::WindowUpdate(
                WindowUpdate {
                    stream_id: c.streams[k].st.id,
                    size_increment: (c.streams[k].st.owed - c.streams[k].st.in_flight) as u32,
                },
            ),
        ),
{
    let f = FrameView::WindowUpdate(
        WindowUpdate {
            stream_id: c.streams[k].st.id,
            size_increment: (c.streams[k].st.owed - c.streams[k].st.in_flight) as u32,
        },
    );
    let (start, update) = conn_widened(StreamsView { control: Seq::empty(), ..c });
    lemma_sent_all_tells(start, 0, k);
    let frames = sent_all(start, 0).1;
    assert(frames.contains(f));
    let j = choose|j: int| 0 <= j < frames.len() && frames[j] == f;
    assert(flushed(c).1[c.control.len() + update.len() + j] == f);
}

/// What a run of frames grants to the peer on a stream, or, for 0, on the connection.
pub open spec fn granted(frames: Seq<FrameView>, id: StreamId) -> int
    decreases frames.len(),
{
    if frames.len() == 0 {
        0
    } else {
        granted(frames.drop_last(), id) + match frames.last() {
            FrameView::WindowUpdate(u) => if u.stream_id == id {
                u.size_increment as int
            } else {
                0
            },
            _ => 0,
        }
    }
}

proof fn lemma_granted_none(a: Seq<FrameView>, b: Seq<FrameView>, id: StreamId)
    requires
        forall|i: int| 0 <= i < b.len() ==> !(#[trigger] b[i] is WindowUpdate),
    ensures
        granted(a + b, id) == granted(a, id),
    decreases b.len(),
{
    if b.len() == 0 {
        assert(a + b =~= a);
    } else {
        let init = b.drop_last();
        assert((a + b).drop_last() =~= a + init);
        assert(!(b[b.len() - 1] is WindowUpdate));
        assert forall|i: int| 0 <= i < init.len() implies !(#[trigger] init[i]
            is WindowUpdate) by {
            assert(init[i] == b[i]);
        }
        lemma_granted_none(a, init, id);
    }
}

/// The peer may send what it is told: a stream counts for no more, and no less, than what
/// goes out as a grant for it.
pub proof fn law_grants_are_told(c: StreamsView, i: int)
    requires
        0 <= i < c.streams.len(),
        c.streams[i].st.in_flight <= c.streams[i].st.owed,
    ensures
        ({
            let (after, frames) = sent_from(c, i);
            c.streams[i].st.owed - after.streams[i].st.owed == granted(
                frames,
                c.streams[i].st.id,
            )
        }),
{
    let (s, update) = widened(c.streams[i], c.m.init_recv);
    let opened = s.st.opened || active_count(c.streams, c.m.side, true) < c.m.max_send_streams;
    let s = StreamView { st: StreamState { opened, ..s.st }, ..s };
    lemma_drained_receiving(s, c.m.max_send_frame);
    let id = c.streams[i].st.id;
    let sent = drained(s, c.m.max_send_frame).1;
    lemma_granted_none(update, sent, id);
    reveal_with_fuel(granted, 2);
    if update.len() > 0 {
        assert(update.drop_last() =~= Seq::<FrameView>::empty());
    }
}

/// The window of the connection is opened again as data is handed out on any stream: once
/// everything that can go out went out, what it lacks of the size that it is meant to have
/// is less than half of what is left of it, if it is anything; and what it grew by is what
/// the peer was told.
pub proof fn law_connection_is_kept_open(c: StreamsView)
    requires
        c.m.in_flight + c.m.recv_window <= MAX_WINDOW_SIZE,
        c.m.recv_target <= MAX_WINDOW_SIZE,
    ensures
        ({
            let (after, update) = conn_widened(c);
            let lacks = c.m.recv_target - c.m.in_flight - after.m.recv_window;
            &&& lacks <= 0 || 2 * lacks < after.m.recv_window
            &&& after.m.in_flight == c.m.in_flight
            &&& after.m.recv_window - c.m.recv_window == granted(update, StreamId { id: 0 })
            &&& after.streams == c.streams
            &&& c.m.recv_target - c.m.in_flight <= c.m.recv_window ==> update.len() == 0
        }),
{
    reveal_with_fuel(granted, 2);
    let update = conn_widened(c).1;
    if update.len() > 0 {
        assert(update.drop_last() =~= Seq::<FrameView>::empty());
    }
}

/// Something that goes out on a stream: a byte of a body, a header block, or the end.
pub enum Unit {
    Byte(u8),
    Block(BlockView),
    End,
}

/// The units of a body, with the end behind it if it is the last.
pub open spec fn data_units(d: Seq<u8>, end: bool) -> Seq<Unit> {
    Seq::new(d.len(), |i: int| Unit::Byte(d[i])) + end_units(end)
}

/// The end, if it is one.
pub open spec fn end_units(end: bool) -> Seq<Unit> {
    if end {
        seq![Unit::End]
    } else {
        Seq::empty()
    }
}

/// What waits to be sent, unit by unit.
pub open spec fn waiting_units(outbox: Seq<OutgoingView>) -> Seq<Unit>
    decreases outbox.len(),
{
    if outbox.len() == 0 {
        Seq::empty()
    } else {
        (match outbox[0] {
            OutgoingView::Headers(b, end) => seq![Unit::Block(b)] + end_units(end),
            OutgoingView::Data(d, end) => data_units(d, end),
        }) + waiting_units(outbox.skip(1))
    }
}

/// What goes out in a run of frames, unit by unit.
pub open spec fn frame_units(frames: Seq<FrameView>) -> Seq<Unit>
    decreases frames.len(),
{
    if frames.len() == 0 {
        Seq::empty()
    } else {
        (match frames[0] {
            FrameView::Headers(h) => seq![Unit::Block(h.block)] + end_units(h.flags.end_stream),
            FrameView::Data(d) => data_units(d.data, d.end_stream),
            _ => Seq::empty(),
        }) + frame_units(frames.skip(1))
    }
}

proof fn lemma_step_units(v: StreamView, max: usize)
    ensures
        drain_step(v, max) matches Some((next, f)) ==> waiting_units(v.outbox) == frame_units(
            seq![f],
        ) + waiting_units(next.outbox),
{
    reveal_with_fuel(frame_units, 2);
    if let Some((next, f)) = drain_step(v, max) {
        assert(seq![f].skip(1) =~= Seq::<FrameView>::empty());
        let first = frame_units(seq![f]);
        match v.outbox[0] {
            OutgoingView::Headers(b, end) => {
                assert(first =~= seq![Unit::Block(b)] + end_units(end));
            },
            OutgoingView::Data(d, end) => {
                if next.outbox.len() < v.outbox.len() {
                    assert(first =~= data_units(d, end));
                } else {
                    let most = if v.st.available < max {
                        v.st.available as int
                    } else {
                        max as int
                    };
                    assert(first =~= data_units(d.take(most), false));
                    assert(next.outbox.skip(1) =~= v.outbox.skip(1));
                    assert(next.outbox[0] == OutgoingView::Data(d.skip(most), end));
                    assert(waiting_units(v.outbox) =~= first + waiting_units(next.outbox));
                }
            },
        }
    }
}

/// What waits to be sent goes out in its order, whole, and once: the blocks, the bytes of
/// the bodies and the ends of what is sent and of what still waits, put together, are those
/// of what waited. Every frame is one of the stream, and no payload is larger than `max`.
pub proof fn law_everything_goes_out_in_order(v: StreamView, max: usize)
    ensures
        waiting_units(v.outbox) == frame_units(drained(v, max).1) + waiting_units(
            drained(v, max).0.outbox,
        ),
        forall|i: int|
            0 <= i < drained(v, max).1.len() ==> match #[trigger] drained(v, max).1[i] {
                FrameView::Headers(h) => h.stream_id == v.st.id,
                FrameView::Data(d) => d.stream_id == v.st.id && d.data.len() <= max,
                _ => false,
            },
    decreases v.outbox.len(), front_len(v),
{
    let (after, all) = drained(v, max);
    match drain_step(v, max) {
        None => {
            assert(frame_units(all) + waiting_units(v.outbox) =~= waiting_units(v.outbox));
        },
        Some((next, f)) => {
            law_everything_goes_out_in_order(next, max);
            lemma_step_units(v, max);
            let rest = drained(next, max).1;
            reveal_with_fuel(frame_units, 2);
            assert(all.skip(1) =~= rest);
            assert(seq![f].skip(1) =~= Seq::<FrameView>::empty());
            assert(frame_units(all) =~= frame_units(seq![f]) + frame_units(rest));
            assert(waiting_units(v.outbox) =~= frame_units(all) + waiting_units(after.outbox));
            assert forall|i: int| 0 <= i < all.len() implies match #[trigger] all[i] {
                FrameView::Headers(h) => h.stream_id == v.st.id,
                FrameView::Data(d) => d.stream_id == v.st.id && d.data.len() <= max,
                _ => false,
            } by {
                if i > 0 {
                    assert(all[i] == rest[i - 1]);
                }
            }
        },
    }
}

/// What can go out goes out: a stream is left with nothing to send, or with a body for
/// which no capacity is left. Headers wait for no capacity, and a part of a body never
/// waits for more than there is.
pub proof fn law_nothing_sendable_waits(v: StreamView, max: usize)
    requires
        max > 0,
    ensures
        ({
            let after = drained(v, max).0;
            after.outbox.len() == 0 || (after.outbox[0] matches OutgoingView::Data(d, _) && d.len()
                > 0 && after.st.available == 0)
        }),
    decreases v.outbox.len(), front_len(v),
{
    if let Some((next, _)) = drain_step(v, max) {
        law_nothing_sendable_waits(next, max);
    }
}

/// A stream of this side is opened as soon as one more may be open, and what waits on it
/// goes out then. Until then nothing of it does. A stream that is open stays open.
pub proof fn law_streams_open_within_the_limit(c: StreamsView, i: int)
    requires
        0 <= i < c.streams.len(),
        c.m.max_send_frame > 0,
    ensures
        ({
            let s = c.streams[i];
            let (after, frames) = sent_from(c, i);
            let t = after.streams[i];
            &&& s.st.opened || active_count(c.streams, c.m.side, true) < c.m.max_send_streams ==> {
                &&& t.st.opened
                &&& waiting_units(s.outbox) == frame_units(frames) + waiting_units(t.outbox)
                &&& t.outbox.len() == 0 || t.st.available == 0
            }
            &&& !s.st.opened && active_count(c.streams, c.m.side, true) >= c.m.max_send_streams
                ==> !t.st.opened && t.outbox == s.outbox && frame_units(frames).len() == 0
        }),
{
    let (s, update) = widened(c.streams[i], c.m.init_recv);
    let opened = s.st.opened || active_count(c.streams, c.m.side, true) < c.m.max_send_streams;
    let s = StreamView { st: StreamState { opened, ..s.st }, ..s };
    lemma_drained_receiving(s, c.m.max_send_frame);
    law_everything_goes_out_in_order(s, c.m.max_send_frame);
    law_nothing_sendable_waits(s, c.m.max_send_frame);
    let sent = drained(s, c.m.max_send_frame).1;
    reveal_with_fuel(frame_units, 2);
    assert((update + sent).skip(update.len() as int) =~= sent);
    if update.len() > 0 {
        assert((update + sent).skip(1) =~= sent);
        assert(update.skip(1) =~= Seq::<FrameView>::empty());
        assert(frame_units(update + sent) =~= frame_units(sent));
    } else {
        assert(update + sent =~= sent);
    }
}

/// A stream gets what it asks for, as far as its own window goes.
pub open spec fn is_served(s: StreamView, init: u32) -> bool {
    s.st.available >= s.st.requested || s.st.available >= init + s.st.send_delta
}

/// No capacity of the connection lies idle: what is assigned to no stream is nothing, or
/// no stream could use it.
pub open spec fn is_shared_out(c: StreamsView) -> bool {
    c.m.free == 0 || forall|j: int|
        0 <= j < c.streams.len() ==> is_served(#[trigger] c.streams[j], c.m.init_send)
}

/// No stream has more assigned than it asks for.
pub open spec fn is_within_demand(streams: Seq<StreamView>) -> bool {
    forall|j: int|
        0 <= j < streams.len() ==> (#[trigger] streams[j]).st.available <= streams[j].st.requested
}

proof fn lemma_assign_all(streams: Seq<StreamView>, i: nat, init: u32, free: u32)
    requires
        is_within_demand(streams),
        forall|j: int| 0 <= j < i && j < streams.len() ==> free == 0 || is_served(
            #[trigger] streams[j],
            init,
        ),
    ensures
        ({
            let (after, left) = assign_from(streams, i, init, free);
            left == 0 || forall|j: int|
                0 <= j < after.len() ==> is_served(#[trigger] after[j], init)
        }),
        assign_from(streams, i, init, free).1 <= free,
    decreases streams.len() - i,
{
    if i < streams.len() {
        let s = streams[i as int];
        let (st, left) = assigned(s.st, init, free);
        let next = streams.update(i as int, StreamView { st, ..s });
        assert(s.st.available <= s.st.requested);
        assert(left <= free);
        assert forall|j: int| 0 <= j < next.len() implies (#[trigger] next[j]).st.available
            <= next[j].st.requested by {
            if j != i {
                assert(next[j] == streams[j]);
            }
        }
        assert forall|j: int| 0 <= j < i + 1 && j < next.len() implies left == 0 || is_served(
            #[trigger] next[j],
            init,
        ) by {
            if j < i {
                assert(next[j] == streams[j]);
            }
        }
        lemma_assign_all(next, i + 1, init, left);
    }
}

/// Sharing out the capacity of a connection leaves none idle.
pub proof fn law_capacity_is_shared_out(c: StreamsView)
    requires
        is_within_demand(c.streams),
    ensures
        is_shared_out(reassigned(c)),
{
    lemma_assign_all(c.streams, 0, c.m.init_send, c.m.free);
}

/// Whenever there is more capacity to be had, or more is asked for, it is shared out: after
/// a part of a body or trailers were queued, after capacity was asked for, after the peer
/// widened a window, the size that windows start with has changed, and after a stream was
/// given up or reset, none lies idle.
pub proof fn law_capacity_is_never_idle(
    c: StreamsView,
    id: StreamId,
    data: Seq<u8>,
    end: bool,
    fields: Seq<FieldView>,
    n: u32,
    reason: Reason,
    grant: WindowUpdate,
    settings: Settings,
)
    requires
        is_within_demand(c.streams),
        is_shared_out(c),
    ensures
        data_sent(c, id, data, end) matches Ok(after) ==> is_shared_out(after),
        trailers_sent(c, id, fields) matches Ok(after) ==> is_shared_out(after),
        is_shared_out(capacity_reserved(c, id, n)),
        is_shared_out(given_up(c, id, reason)),
        is_shared_out(window_update_received(c, grant).0),
        is_shared_out(settings_received(c, settings).0),
{
    lemma_find(c.streams, id);
    lemma_find(c.streams, grant.stream_id);
    lemma_sending_shares(c, id, data, end, fields, n);
    lemma_given_up_shares(c, id, reason);
    lemma_settings_share(c, settings);
    let m = Meter {
        send_window: (c.m.send_window + grant.size_increment) as u32,
        free: (c.m.free + grant.size_increment) as u32,
        ..c.m
    };
    law_capacity_is_shared_out(StreamsView { m, ..c });
    if let Some(i) = find(c.streams, grant.stream_id) {
        let s = c.streams[i];
        let send_delta = (s.st.send_delta + grant.size_increment) as i64;
        let t = StreamView { st: StreamState { send_delta, ..s.st }, ..s };
        lemma_replaced_shares(c, i, t, c.m);
    }
}

proof fn lemma_replaced_shares(c: StreamsView, i: int, t: StreamView, m: Meter)
    requires
        is_within_demand(c.streams),
        0 <= i < c.streams.len(),
        t.st.available <= t.st.requested,
    ensures
        is_shared_out(reassigned(replaced(c, i, t, m))),
{
    let d = replaced(c, i, t, m);
    assert forall|j: int| 0 <= j < d.streams.len() implies (#[trigger] d.streams[j]).st.available
        <= d.streams[j].st.requested by {
        if j != i {
            assert(d.streams[j] == c.streams[j]);
        }
    }
    law_capacity_is_shared_out(d);
}

proof fn lemma_sending_shares(
    c: StreamsView,
    id: StreamId,
    data: Seq<u8>,
    end: bool,
    fields: Seq<FieldView>,
    n: u32,
)
    requires
        is_within_demand(c.streams),
        is_shared_out(c),
    ensures
        data_sent(c, id, data, end) matches Ok(after) ==> is_shared_out(after),
        trailers_sent(c, id, fields) matches Ok(after) ==> is_shared_out(after),
        is_shared_out(capacity_reserved(c, id, n)),
{
    reveal(data_sent);
    reveal(trailers_sent);
    reveal(capacity_reserved);
    lemma_find(c.streams, id);
    if let Some(i) = find(c.streams, id) {
        let s = c.streams[i];
        assert(s.st.available <= s.st.requested);
        if let Ok((t, free)) = data_queued(s, data, end, c.m.init_send, c.m.free) {
            lemma_replaced_shares(c, i, t, Meter { free, ..c.m });
        }
        let block = trailers_block(fields);
        if let Ok((t, free)) = trailers_queued(s, block, c.m.init_send, c.m.free) {
            lemma_replaced_shares(c, i, t, Meter { free, ..c.m });
        }
        let (st, free) = reserved(s.st, n, c.m.init_send, c.m.free);
        lemma_replaced_shares(c, i, StreamView { st, ..s }, Meter { free, ..c.m });
    }
}

proof fn lemma_clamped_within_demand(streams: Seq<StreamView>, i: nat, init: u32, free: u32)
    requires
        is_within_demand(streams),
    ensures
        is_within_demand(clamp_from(streams, i, init, free).0),
    decreases streams.len() - i,
{
    if i < streams.len() {
        let s = streams[i as int];
        let window = s.st.send_window(init);
        let most = if window < 0 {
            0
        } else if window < s.st.available {
            window
        } else {
            s.st.available as int
        };
        let t = StreamView { st: StreamState { available: most as u32, ..s.st }, ..s };
        let next = streams.update(i as int, t);
        assert(s.st.available <= s.st.requested);
        assert forall|j: int| 0 <= j < next.len() implies (#[trigger] next[j]).st.available
            <= next[j].st.requested by {
            if j != i {
                assert(next[j] == streams[j]);
            }
        }
        lemma_clamped_within_demand(next, i + 1, init, (free + (s.st.available - most)) as u32);
    }
}

proof fn lemma_settings_share(c: StreamsView, s: Settings)
    requires
        is_within_demand(c.streams),
        is_shared_out(c),
    ensures
        is_shared_out(settings_received(c, s).0),
{
    if let Some(n) = s.initial_window_size {
        lemma_clamped_within_demand(c.streams, 0, n, c.m.free);
        let (streams, free) = clamp_from(c.streams, 0, n, c.m.free);
        let m = Meter {
            max_send_streams: match s.max_concurrent_streams {
                Some(n) => n as usize,
                None => c.m.max_send_streams,
            },
            max_send_frame: match s.max_frame_size {
                Some(n) => n as usize,
                None => c.m.max_send_frame,
            },
            init_send: n,
            free,
            ..c.m
        };
        law_capacity_is_shared_out(StreamsView { streams, m, ..c });
    }
}

proof fn lemma_given_up_shares(c: StreamsView, id: StreamId, reason: Reason)
    requires
        is_within_demand(c.streams),
        is_shared_out(c),
    ensures
        is_shared_out(given_up(c, id, reason)),
{
    reveal(given_up);
    reveal(reset_by);
    lemma_find(c.streams, id);
    if let Some(i) = find(c.streams, id) {
        let s = c.streams[i];
        let keep = kept_count(c.streams) < c.m.reset_stream_max;
        let after = ended(s, Cause::Stream(reason, Initiator::User));
        let st = StreamState { keep, kept_at: c.m.now, ..after.st };
        let t = StreamView { st, ..after };
        let m = Meter { free: (c.m.free + s.st.available) as u32, ..c.m };
        let told = c.with_control(
            FrameView::Reset(Reset { stream_id: id, error_code: reason }),
        );
        lemma_replaced_shares(c, i, t, m);
        lemma_replaced_shares(told, i, t, m);
    }
}

/// What goes out before the frames of streams goes out first, in its order, and once.
pub proof fn law_controls_go_first(c: StreamsView)
    ensures
        flushed(c).1.take(c.control.len() as int) == c.control,
        flushed(c).0.control.len() == 0,
        flushed(c).0.accept == c.accept,
{
    let (start, update) = conn_widened(StreamsView { control: Seq::empty(), ..c });
    assert(flushed(c).1.take(c.control.len() as int) =~= c.control);
    lemma_sent_all_rest(start, 0);
}

proof fn lemma_sent_all_rest(c: StreamsView, i: nat)
    ensures
        sent_all(c, i).0.control == c.control,
        sent_all(c, i).0.accept == c.accept,
    decreases c.streams.len() - i,
{
    if i < c.streams.len() {
        lemma_sent_all_rest(sent_from(c, i as int).0, i + 1);
    }
}

/// A stream stays as long as it is needed: while something is left to be done on it, while
/// someone may still read from it, while it is remembered that it was reset, and while it
/// holds capacity.
pub proof fn law_streams_stay_while_needed(streams: Seq<StreamView>, i: int)
    requires
        0 <= i < streams.len(),
        !(streams[i].st.send == Half::Closed && streams[i].st.recv == Half::Closed
            && streams[i].outbox.len() == 0) || !streams[i].st.released || streams[i].st.keep
            || streams[i].st.available > 0 || streams[i].st.in_flight > 0,
    ensures
        purged(streams).contains(streams[i]),
    decreases streams.len(),
{
    let s = streams[i];
    let rest = streams.skip(1);
    if i == 0 {
        assert(purged(streams)[0] == s);
    } else {
        assert(rest[i - 1] == s);
        law_streams_stay_while_needed(rest, i - 1);
        let left = purged(rest);
        let k = choose|k: int| 0 <= k < left.len() && left[k] == s;
        let all = purged(streams);
        if all == left {
            assert(all[k] == s);
        } else {
            assert(all[k + 1] == s);
        }
    }
}

/// A stream counts against the limit on open streams, for the side that opened it, while it
/// is open and something is left to be done on it.
pub proof fn law_what_counts_as_open(streams: Seq<StreamView>, s: StreamView, side: Side, local: bool)
    ensures
        active_count(Seq::<StreamView>::empty(), side, local) == 0,
        active_count(streams.push(s), side, local) == active_count(streams, side, local) + if {
            let over = s.st.send == Half::Closed && s.st.recv == Half::Closed && s.outbox.len()
                == 0;
            let own = (s.st.id.id % 2 == 1) == (side == Side::Client);
            s.st.opened && !over && own == local
        } {
            1nat
        } else {
            0
        },
{
    assert(streams.push(s).drop_last() =~= streams);
}

/// The number of reset streams that are remembered.
pub proof fn law_what_counts_as_remembered(streams: Seq<StreamView>, s: StreamView)
    ensures
        kept_count(Seq::<StreamView>::empty()) == 0,
        kept_count(streams.push(s)) == kept_count(streams) + if s.st.keep {
            1nat
        } else {
            0
        },
{
    assert(streams.push(s).drop_last() =~= streams);
}

/// The window of the connection is meant to have the size that was set last, and setting it
/// changes nothing else.
pub proof fn law_the_target_counts(v: ConnectionView, size: u32)
    ensures
        with_target(v, size).streams.m.recv_target == size,
        with_target(v, size).codec == v.codec,
        with_target(v, size).streams.streams == v.streams.streams,
        with_target(v, size).streams.accept == v.streams.accept,
        with_target(v, size).streams.control == v.streams.control,
        with_target(v, size).streams.m.recv_window == v.streams.m.recv_window,
        with_target(v, size).streams.m.in_flight == v.streams.m.in_flight,
        with_target(with_target(v, v.streams.m.recv_target), size) == with_target(v, size),
        with_target(v, v.streams.m.recv_target) == v,
{
}

/// Streams that are not needed any more do not stay, and none is made up.
pub proof fn law_streams_go_when_not_needed(streams: Seq<StreamView>, j: int)
    requires
        0 <= j < purged(streams).len(),
    ensures
        ({
            let s = purged(streams)[j];
            let over = s.st.send == Half::Closed && s.st.recv == Half::Closed && s.outbox.len()
                == 0;
            &&& streams.contains(s)
            &&& !(over && s.st.released && !s.st.keep && s.st.available == 0 && s.st.in_flight == 0)
        }),
    decreases streams.len(),
{
    let rest = streams.skip(1);
    let all = purged(streams);
    let left = purged(rest);
    if all == left {
        law_streams_go_when_not_needed(rest, j);
        let k = choose|k: int| 0 <= k < rest.len() && rest[k] == left[j];
        assert(streams[k + 1] == all[j]);
    } else if j == 0 {
        assert(streams[0] == all[0]);
    } else {
        assert(all[j] == left[j - 1]);
        law_streams_go_when_not_needed(rest, j - 1);
        let k = choose|k: int| 0 <= k < rest.len() && rest[k] == left[j - 1];
        assert(streams[k + 1] == all[j]);
    }
}

} // verus!
