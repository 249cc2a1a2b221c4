//! A message that has ended stays ended.

use crate::codec::framed_read::{lemma_next_frame_shrinks, next_frame_of};
use crate::codec::CodecView;
use crate::frame::block::BlockView;
use crate::frame::control::{Reset, WindowUpdate};
use crate::frame::data::DataView;
use crate::frame::headers::{HeadersView, PushPromiseView};
use crate::frame::settings::Settings;
use crate::frame::{FrameView, Reason, StreamId};
use crate::hpack::field::FieldView;
use crate::names::TOO_MANY_INTERNAL_RESETS;
use crate::proto::connection::{
    driven, frame_received, lemma_handled, lemma_stepped_buffer, read_all, reads_on, stepped,
    written, ConnectionView,
};
use crate::proto::control::{
    clamp_from, failed, handled, leave_asked, leave_taken, noticed, settings_received, settled,
};
use crate::proto::error::{ErrorView, Initiator};
use crate::proto::flush::{conn_widened, flushed, sent_all, sent_from, widened};
use crate::proto::laws::{lemma_assign_from, same_but_available};
use crate::proto::pump::read_from;
use crate::proto::recv::{
    data_received, headers_received, ping_received, promise_received, reset_received, waits,
    window_update_received,
};
use crate::proto::send::{
    data_queued, drain_step, drained, ended, front_len, headers_queued, reserved, trailers_queued,
};
use crate::proto::stream::{Cause, Half, StreamState, StreamView};
use crate::proto::streams::{
    active_count, all_ended, end_from, find, is_local, kept_count, lemma_find, purged, reassigned,
    Meter, Side, StreamsView,
};
use crate::proto::user::{
    capacity_reserved, data_sent, forgotten, given_up, let_go, released, replaced, request_queued,
    reset_by, response_queued, time_told, trailers_block, trailers_sent,
};
use vstd::prelude::*;

verus! {

/// A stream on which this side's message has ended, whether the stream is still there or
/// not: it was opened once, and wherever it is, its half is closed.
pub open spec fn is_ended(c: StreamsView, id: StreamId) -> bool {
    &&& !c.is_idle(id)
    &&& forall|j: int|
        0 <= j < c.streams.len() && (#[trigger] c.streams[j]).st.id == id ==> c.streams[j].st.send
            == Half::Closed
}

/// Streams of which no two have the same identifier.
pub open spec fn are_distinct(streams: Seq<StreamView>) -> bool {
    forall|i: int, j: int|
        0 <= i < j < streams.len() ==> (#[trigger] streams[i]).st.id != (
        #[trigger] streams[j]).st.id
}

/// Streams whose identifiers are in order. The next stream of this side is one that this
/// side can open, no stream that is there is still to be opened, and no two have the same
/// identifier. The requests that wait to be accepted are those of streams that the peer
/// opened, one after the other.
pub open spec fn is_numbered(c: StreamsView) -> bool {
    &&& is_local(c.m.side, StreamId { id: c.m.next_id })
    &&& forall|j: int| 0 <= j < c.streams.len() ==> !c.is_idle((#[trigger] c.streams[j]).st.id)
    &&& are_distinct(c.streams)
    &&& forall|k: int|
        0 <= k < c.accept.len() ==> !is_local(c.m.side, (#[trigger] c.accept[k]).id)
            && c.accept[k].id.id <= c.m.last_remote
    &&& forall|k: int, n: int|
        0 <= k < n < c.accept.len() ==> (#[trigger] c.accept[k]).id.id < (
        #[trigger] c.accept[n]).id.id
}

/// Requests that wait to be accepted: those of before, and those of streams that the peer
/// has opened since.
pub open spec fn has_arrivals(c: StreamsView, d: StreamsView) -> bool {
    &&& c.accept.len() <= d.accept.len()
    &&& forall|k: int| 0 <= k < c.accept.len() ==> #[trigger] d.accept[k] == c.accept[k]
    &&& forall|k: int|
        c.accept.len() <= k < d.accept.len() ==> (#[trigger] d.accept[k]).id.id > c.m.last_remote
}

/// How the streams of a connection go on: their identifiers are in order, none has become
/// unused again, what came in is new, and a message that has ended has ended.
pub open spec fn leads_to(c: StreamsView, d: StreamsView) -> bool {
    &&& is_numbered(d)
    &&& d.m.side == c.m.side
    &&& d.m.next_id >= c.m.next_id
    &&& d.m.last_remote >= c.m.last_remote
    &&& has_arrivals(c, d)
    &&& forall|id: StreamId| #[trigger] is_ended(c, id) ==> is_ended(d, id)
}

/// Streams of which none has opened its half again, and none is another.
spec fn keeps(a: Seq<StreamView>, b: Seq<StreamView>) -> bool {
    &&& a.len() == b.len()
    &&& forall|j: int|
        0 <= j < a.len() ==> (#[trigger] b[j]).st.id == a[j].st.id && (a[j].st.send == Half::Closed
            ==> b[j].st.send == Half::Closed)
}

/// No identifier has become unused again, and no request came in.
spec fn moves_on(c: StreamsView, d: StreamsView) -> bool {
    &&& d.m.side == c.m.side
    &&& d.m.next_id == c.m.next_id
    &&& d.m.last_remote >= c.m.last_remote
    &&& d.accept == c.accept
}

pub(crate) proof fn lemma_leads_trans(a: StreamsView, b: StreamsView, c: StreamsView)
    requires
        leads_to(a, b),
        leads_to(b, c),
    ensures
        leads_to(a, c),
{
    assert forall|k: int| a.accept.len() <= k < c.accept.len() implies (
    #[trigger] c.accept[k]).id.id > a.m.last_remote by {
        if k < b.accept.len() {
            assert(c.accept[k] == b.accept[k]);
        }
    }
    assert forall|k: int| 0 <= k < a.accept.len() implies #[trigger] c.accept[k]
        == a.accept[k] by {
        assert(b.accept[k] == a.accept[k]);
    }
    assert forall|id: StreamId| #[trigger] is_ended(a, id) implies is_ended(c, id) by {
        assert(is_ended(b, id));
    }
}

proof fn lemma_keeps(c: StreamsView, d: StreamsView)
    requires
        is_numbered(c),
        keeps(c.streams, d.streams),
        moves_on(c, d),
    ensures
        leads_to(c, d),
{
    assert forall|j: int| 0 <= j < d.streams.len() implies !d.is_idle(
        (#[trigger] d.streams[j]).st.id,
    ) by {
        assert(!c.is_idle(c.streams[j].st.id));
    }
    assert forall|i: int, j: int| 0 <= i < j < d.streams.len() implies (
    #[trigger] d.streams[i]).st.id != (#[trigger] d.streams[j]).st.id by {
        assert(c.streams[i].st.id != c.streams[j].st.id);
    }
    assert forall|id: StreamId| #[trigger] is_ended(c, id) implies is_ended(d, id) by {
        assert forall|j: int|
            0 <= j < d.streams.len() && (#[trigger] d.streams[j]).st.id
                == id implies d.streams[j].st.send == Half::Closed by {
            assert(c.streams[j].st.id == id);
        }
    }
}

/// A stream that was not there has come: a new one, or one whose message has ended.
proof fn lemma_opened(c: StreamsView, d: StreamsView)
    requires
        is_numbered(c),
        d.streams.len() == c.streams.len() + 1,
        forall|j: int| 0 <= j < c.streams.len() ==> #[trigger] d.streams[j] == c.streams[j],
        d.m.side == c.m.side,
        d.m.next_id >= c.m.next_id,
        is_local(d.m.side, StreamId { id: d.m.next_id }),
        d.m.last_remote >= c.m.last_remote,
        ({
            let s = d.streams[c.streams.len() as int].st;
            &&& !d.is_idle(s.id)
            &&& c.is_idle(s.id) || s.send == Half::Closed && find(c.streams, s.id) is None
            &&& d.accept == c.accept || {
                &&& d.accept == c.accept.push(d.accept.last())
                &&& d.accept.last().id == s.id
                &&& c.is_idle(s.id)
                &&& !is_local(c.m.side, s.id)
            }
        }),
    ensures
        leads_to(c, d),
{
    let n = c.streams.len() as int;
    let s = d.streams[n].st;
    lemma_find(c.streams, s.id);
    assert forall|j: int| 0 <= j < d.streams.len() implies !d.is_idle(
        (#[trigger] d.streams[j]).st.id,
    ) by {
        if j < n {
            assert(!c.is_idle(c.streams[j].st.id));
        }
    }
    assert forall|i: int, j: int| 0 <= i < j < d.streams.len() implies (
    #[trigger] d.streams[i]).st.id != (#[trigger] d.streams[j]).st.id by {
        assert(d.streams[i] == c.streams[i]);
        assert(!c.is_idle(c.streams[i].st.id));
        if j < n {
            assert(c.streams[i].st.id != c.streams[j].st.id);
        }
    }
    assert forall|id: StreamId| #[trigger] is_ended(c, id) implies is_ended(d, id) by {
        assert forall|j: int|
            0 <= j < d.streams.len() && (#[trigger] d.streams[j]).st.id
                == id implies d.streams[j].st.send == Half::Closed by {
            if j < n {
                assert(c.streams[j].st.id == id);
            }
        }
    }
}

proof fn lemma_replaced_keeps(a: Seq<StreamView>, i: int, s: StreamView)
    requires
        0 <= i < a.len(),
        s.st.id == a[i].st.id,
        a[i].st.send == Half::Closed ==> s.st.send == Half::Closed,
    ensures
        keeps(a, a.update(i, s)),
{
}

proof fn lemma_reassigned_keeps(c: StreamsView)
    ensures
        keeps(c.streams, reassigned(c).streams),
        moves_on(c, reassigned(c)),
{
    lemma_assign_from(c.streams, 0, c.m.init_send, c.m.free);
    assert forall|j: int| 0 <= j < c.streams.len() implies (
    #[trigger] reassigned(c).streams[j]).st.id == c.streams[j].st.id && (c.streams[j].st.send
        == Half::Closed ==> reassigned(c).streams[j].st.send == Half::Closed) by {
        assert(same_but_available(reassigned(c).streams[j], c.streams[j]));
    }
}

proof fn lemma_keeps_trans(a: Seq<StreamView>, b: Seq<StreamView>, c: Seq<StreamView>)
    requires
        keeps(a, b),
        keeps(b, c),
    ensures
        keeps(a, c),
{
    assert forall|j: int| 0 <= j < a.len() implies (#[trigger] c[j]).st.id == a[j].st.id && (
    a[j].st.send == Half::Closed ==> c[j].st.send == Half::Closed) by {
        assert(b[j].st.id == a[j].st.id);
    }
}

proof fn lemma_changed(c: StreamsView, i: int, s: StreamView, d: StreamsView)
    requires
        is_numbered(c),
        0 <= i < c.streams.len(),
        s.st.id == c.streams[i].st.id,
        c.streams[i].st.send == Half::Closed ==> s.st.send == Half::Closed,
        d.streams == c.streams.update(i, s),
        moves_on(c, d),
    ensures
        leads_to(c, d),
        leads_to(c, reassigned(d)),
{
    lemma_replaced_keeps(c.streams, i, s);
    lemma_keeps(c, d);
    lemma_reassigned_keeps(d);
    lemma_keeps(d, reassigned(d));
    lemma_leads_trans(c, d, reassigned(d));
}

/// How the streams of a connection go on, whatever the user does: sending, reserving,
/// giving up, letting go, telling the time, reading, or taking leave.
pub proof fn lemma_calls_lead(
    c: StreamsView,
    other: StreamId,
    data: Seq<u8>,
    fields: Seq<FieldView>,
    block: BlockView,
    n: u32,
    reason: Reason,
    now: u64,
    end: bool,
    head: bool,
)
    requires
        is_numbered(c),
    ensures
        request_queued(c, block, end, head) matches Ok((after, _)) ==> leads_to(c, after),
        response_queued(c, other, block, end) matches Ok(after) ==> leads_to(c, after),
        data_sent(c, other, data, end) matches Ok(after) ==> leads_to(c, after),
        trailers_sent(c, other, fields) matches Ok(after) ==> leads_to(c, after),
        leads_to(c, capacity_reserved(c, other, n)),
        leads_to(c, given_up(c, other, reason)),
        leads_to(c, let_go(c, other)),
        leads_to(c, time_told(c, now)),
        leads_to(c, leave_asked(c)),
        leads_to(c, leave_taken(c, reason)),
{
    lemma_find(c.streams, other);
    lemma_keeps(c, c);
    lemma_request(c, block, end, head);
    lemma_sends(c, other, data, fields, block, n, end);
    lemma_reset_keeps(c, other, reason, Initiator::User);
    lemma_reset_keeps(c, other, Reason::CANCEL, Initiator::User);
    reveal(given_up);
    reveal(let_go);
    reveal(leave_asked);
    reveal(leave_taken);
    lemma_keeps(c, leave_asked(c));
    lemma_keeps(c, leave_taken(c, reason));
    lemma_time(c, now);
}

/// Once this side's message on a stream has ended, nothing that the user does opens it
/// again: not sending, reserving, giving up, letting go, telling the time, reading, or
/// taking leave.
pub proof fn law_calls_keep_it_ended(
    c: StreamsView,
    id: StreamId,
    other: StreamId,
    data: Seq<u8>,
    fields: Seq<FieldView>,
    block: BlockView,
    n: u32,
    reason: Reason,
    now: u64,
    end: bool,
    head: bool,
)
    requires
        is_numbered(c),
        is_ended(c, id),
    ensures
        request_queued(c, block, end, head) matches Ok((after, _)) ==> is_ended(after, id),
        response_queued(c, other, block, end) matches Ok(after) ==> is_ended(after, id),
        data_sent(c, other, data, end) matches Ok(after) ==> is_ended(after, id),
        trailers_sent(c, other, fields) matches Ok(after) ==> is_ended(after, id),
        is_ended(capacity_reserved(c, other, n), id),
        is_ended(given_up(c, other, reason), id),
        is_ended(let_go(c, other), id),
        is_ended(time_told(c, now), id),
        is_ended(read_from(c, other), id),
        is_ended(forgotten(c, other), id),
        is_ended(leave_asked(c), id),
        is_ended(leave_taken(c, reason), id),
{
    lemma_calls_lead(c, other, data, fields, block, n, reason, now, end, head);
    lemma_reads(c, other);
}

proof fn lemma_time(c: StreamsView, now: u64)
    requires
        is_numbered(c),
    ensures
        leads_to(c, time_told(c, now)),
{
    reveal(time_told);
    lemma_keeps(c, time_told(c, now));
}

/// How the streams of a connection go on as one of them is read from, or no longer read.
pub proof fn lemma_reads(c: StreamsView, other: StreamId)
    requires
        is_numbered(c),
    ensures
        leads_to(c, read_from(c, other)),
        leads_to(c, forgotten(c, other)),
{
    reveal(forgotten);
    lemma_find(c.streams, other);
    lemma_keeps(c, c);
    if let Some(i) = find(c.streams, other) {
        let s = c.streams[i];
        lemma_changed(c, i, s.read(), read_from(c, other));
        let d = forgotten(c, other);
        lemma_changed(c, i, d.streams[i], d);
    }
}

/// How the streams of a connection go on as received bytes of one of them are released.
pub proof fn lemma_release_leads(c: StreamsView, other: StreamId, n: u32)
    requires
        is_numbered(c),
    ensures
        released(c, other, n) matches Ok(after) ==> leads_to(c, after),
{
    reveal(released);
    lemma_find(c.streams, other);
    if let Some(i) = find(c.streams, other) {
        if let Ok(d) = released(c, other, n) {
            lemma_changed(c, i, d.streams[i], d);
        }
    }
}

proof fn lemma_request(c: StreamsView, block: BlockView, end: bool, head: bool)
    requires
        is_numbered(c),
    ensures
        request_queued(c, block, end, head) matches Ok((after, _)) ==> leads_to(c, after),
{
    reveal(request_queued);
    if let Ok((after, new)) = request_queued(c, block, end, head) {
        assert(new.id == c.m.next_id);
        lemma_opened(c, after);
    }
}

proof fn lemma_sends(
    c: StreamsView,
    other: StreamId,
    data: Seq<u8>,
    fields: Seq<FieldView>,
    block: BlockView,
    n: u32,
    end: bool,
)
    requires
        is_numbered(c),
    ensures
        response_queued(c, other, block, end) matches Ok(after) ==> leads_to(c, after),
        data_sent(c, other, data, end) matches Ok(after) ==> leads_to(c, after),
        trailers_sent(c, other, fields) matches Ok(after) ==> leads_to(c, after),
        leads_to(c, capacity_reserved(c, other, n)),
{
    reveal(response_queued);
    reveal(data_sent);
    reveal(trailers_sent);
    reveal(capacity_reserved);
    lemma_find(c.streams, other);
    lemma_keeps(c, c);
    if let Some(i) = find(c.streams, other) {
        let s = c.streams[i];
        if let Ok(t) = headers_queued(s, block, end) {
            lemma_changed(c, i, t, replaced(c, i, t, c.m));
        }
        if let Ok((t, free)) = data_queued(s, data, end, c.m.init_send, c.m.free) {
            let m = Meter { free, ..c.m };
            lemma_changed(c, i, t, replaced(c, i, t, m));
        }
        if let Ok((t, free)) = trailers_queued(
            s,
            trailers_block(fields),
            c.m.init_send,
            c.m.free,
        ) {
            let m = Meter { free, ..c.m };
            lemma_changed(c, i, t, replaced(c, i, t, m));
        }
        let (st, free) = reserved(s.st, n, c.m.init_send, c.m.free);
        let m = Meter { free, ..c.m };
        let t = StreamView { st, ..s };
        lemma_changed(c, i, t, replaced(c, i, t, m));
    }
}

proof fn lemma_reset_keeps(c: StreamsView, other: StreamId, reason: Reason, initiator: Initiator)
    requires
        is_numbered(c),
    ensures
        leads_to(c, reset_by(c, other, reason, initiator)),
{
    reveal(reset_by);
    lemma_find(c.streams, other);
    let d = reset_by(c, other, reason, initiator);
    lemma_keeps(c, c);
    match find(c.streams, other) {
        None => {
            if d.streams == c.streams {
                lemma_keeps(c, d);
            } else {
                lemma_opened(c, d);
            }
        },
        Some(i) => {
            let s = c.streams[i];
            if s.st.cause is None && !s.done() {
                let keep = kept_count(c.streams) < c.m.reset_stream_max;
                let after = ended(s, Cause::Stream(reason, initiator));
                let st = StreamState { keep, kept_at: c.m.now, ..after.st };
                let t = StreamView { st, ..after };
                let m = Meter { free: (c.m.free + s.st.available) as u32, ..c.m };
                let told = c.with_control(
                    FrameView::Reset(Reset { stream_id: other, error_code: reason }),
                );
                lemma_changed(c, i, t, replaced(told, i, t, m));
                lemma_changed(c, i, t, replaced(c, i, t, m));
            }
        },
    }
}

proof fn lemma_end_from(
    streams: Seq<StreamView>,
    i: nat,
    side: Side,
    above: Option<u32>,
    cause: Cause,
    free: u32,
)
    ensures
        keeps(streams, end_from(streams, i, side, above, cause, free).0),
    decreases streams.len() - i,
{
    if i < streams.len() {
        let s = streams[i as int];
        let t = ended(s, cause);
        let next = streams.update(i as int, t);
        let left = (free + s.st.available) as u32;
        lemma_replaced_keeps(streams, i as int, t);
        lemma_end_from(next, i + 1, side, above, cause, left);
        lemma_end_from(streams, i + 1, side, above, cause, free);
        let after = end_from(next, i + 1, side, above, cause, left).0;
        lemma_keeps_trans(streams, next, after);
    }
}

proof fn lemma_clamp_from(streams: Seq<StreamView>, i: nat, init: u32, free: u32)
    ensures
        keeps(streams, clamp_from(streams, i, init, free).0),
    decreases streams.len() - i,
{
    if i < streams.len() {
        let s = streams[i as int];
        let window = s.st.send_window(init);
        let most = if window < 0 {
            0
        } else if window < s.st.available {
            window
        } else {
            s.st.available as int
        };
        let t = StreamView { st: StreamState { available: most as u32, ..s.st }, ..s };
        let left = (free + (s.st.available - most)) as u32;
        let next = streams.update(i as int, t);
        lemma_replaced_keeps(streams, i as int, t);
        lemma_clamp_from(next, i + 1, init, left);
        lemma_keeps_trans(streams, next, clamp_from(next, i + 1, init, left).0);
    }
}

proof fn lemma_all_ended_keeps(c: StreamsView, above: Option<u32>, cause: Cause)
    requires
        is_numbered(c),
    ensures
        leads_to(c, all_ended(c, above, cause)),
{
    lemma_end_from(c.streams, 0, c.m.side, above, cause, c.m.free);
    lemma_keeps(c, all_ended(c, above, cause));
}

proof fn lemma_failed_keeps(c: StreamsView, reason: Reason, debug: Seq<u8>, initiator: Initiator)
    requires
        is_numbered(c),
    ensures
        leads_to(c, failed(c, reason, debug, initiator)),
{
    let cause = Cause::Connection(reason, initiator);
    lemma_end_from(c.streams, 0, c.m.side, None, cause, c.m.free);
    lemma_keeps(c, failed(c, reason, debug, initiator));
}

proof fn lemma_settings_keep(c: StreamsView, s: Settings)
    requires
        is_numbered(c),
    ensures
        leads_to(c, settings_received(c, s).0),
{
    let m = Meter {
        max_send_streams: match s.max_concurrent_streams {
            Some(n) => n as usize,
            None => c.m.max_send_streams,
        },
        max_send_frame: match s.max_frame_size {
            Some(n) => n as usize,
            None => c.m.max_send_frame,
        },
        ..c.m
    };
    let d = settings_received(c, s).0;
    lemma_keeps(c, c);
    if d.streams == c.streams {
        lemma_keeps(c, d);
    }
    if let Some(n) = s.initial_window_size {
        lemma_clamp_from(c.streams, 0, n, c.m.free);
        let (streams, free) = clamp_from(c.streams, 0, n, c.m.free);
        let b = StreamsView { streams, m: Meter { init_send: n, free, ..m }, ..c };
        lemma_reassigned_keeps(b);
        lemma_keeps_trans(c.streams, b.streams, reassigned(b).streams);
        lemma_keeps(c, d);
    }
}

proof fn lemma_headers_keep(c: StreamsView, f: HeadersView)
    requires
        is_numbered(c),
    ensures
        leads_to(c, headers_received(c, f).0),
{
    lemma_find(c.streams, f.stream_id);
    let d = headers_received(c, f).0;
    match find(c.streams, f.stream_id) {
        None => {
            if d.streams.len() == c.streams.len() {
                lemma_keeps(c, d);
            } else {
                lemma_opened(c, d);
            }
        },
        Some(i) => {
            if d.streams == c.streams {
                lemma_keeps(c, d);
            } else {
                lemma_changed(c, i, d.streams[i], d);
            }
        },
    }
}

proof fn lemma_body_keeps(c: StreamsView, f: DataView)
    requires
        is_numbered(c),
    ensures
        leads_to(c, data_received(c, f).0),
{
    lemma_find(c.streams, f.stream_id);
    let d = data_received(c, f).0;
    if d.streams == c.streams {
        lemma_keeps(c, d);
    } else {
        let i = find(c.streams, f.stream_id)->0;
        lemma_changed(c, i, d.streams[i], d);
    }
}

proof fn lemma_reset_received_keeps(c: StreamsView, r: Reset)
    requires
        is_numbered(c),
    ensures
        leads_to(c, reset_received(c, r).0),
{
    lemma_find(c.streams, r.stream_id);
    lemma_keeps(c, c);
    if let Some(i) = find(c.streams, r.stream_id) {
        let s = c.streams[i];
        let t = ended(s, Cause::Stream(r.error_code, Initiator::Remote));
        let m = Meter {
            free: (c.m.free + s.st.available) as u32,
            remote_resets: if waits(c.accept, r.stream_id) {
                (c.m.remote_resets + 1) as usize
            } else {
                c.m.remote_resets
            },
            ..c.m
        };
        lemma_changed(c, i, t, replaced(c, i, t, m));
    }
}

proof fn lemma_promise_keeps(c: StreamsView, p: PushPromiseView)
    requires
        is_numbered(c),
    ensures
        leads_to(c, promise_received(c, p).0),
{
    let m = Meter { last_remote: p.promised_id.id, ..c.m };
    let d = StreamsView { m, ..c };
    lemma_keeps(c, c);
    if p.promised_id.id > c.m.last_remote && !is_local(c.m.side, p.promised_id) {
        lemma_keeps(c, d);
        lemma_reset_keeps(d, p.promised_id, Reason::REFUSED_STREAM, Initiator::Library);
        lemma_leads_trans(
            c,
            d,
            reset_by(d, p.promised_id, Reason::REFUSED_STREAM, Initiator::Library),
        );
    }
}

proof fn lemma_window_keeps(c: StreamsView, u: WindowUpdate)
    requires
        is_numbered(c),
    ensures
        leads_to(c, window_update_received(c, u).0),
{
    lemma_find(c.streams, u.stream_id);
    lemma_keeps(c, c);
    let n = u.size_increment;
    let m = Meter {
        send_window: (c.m.send_window + n) as u32,
        free: (c.m.free + n) as u32,
        ..c.m
    };
    let d = StreamsView { m, ..c };
    lemma_reassigned_keeps(d);
    lemma_keeps(c, reassigned(d));
    if let Some(i) = find(c.streams, u.stream_id) {
        let s = c.streams[i];
        let st = StreamState { send_delta: (s.st.send_delta + n) as i64, ..s.st };
        let t = StreamView { st, ..s };
        lemma_changed(c, i, t, replaced(c, i, t, c.m));
    }
}

proof fn lemma_frame_keeps(c: StreamsView, f: FrameView)
    requires
        is_numbered(c),
    ensures
        leads_to(c, frame_received(c, f).0),
{
    match f {
        FrameView::Headers(h) => {
            lemma_headers_keep(c, h);
        },
        FrameView::Data(d) => {
            lemma_body_keeps(c, d);
        },
        FrameView::Reset(r) => {
            lemma_reset_received_keeps(c, r);
        },
        FrameView::PushPromise(p) => {
            lemma_promise_keeps(c, p);
        },
        FrameView::Settings(s) => {
            lemma_settings_keep(c, s);
        },
        FrameView::GoAway(g) => {
            let m = Meter {
                remote_served: g.last_stream_id.id,
                remote_error: Some(g.error_code),
                ..c.m
            };
            let d = StreamsView { m, remote_debug: g.debug_data, ..c };
            let cause = Cause::Connection(g.error_code, Initiator::Remote);
            lemma_keeps(c, c);
            lemma_keeps(c, d);
            lemma_all_ended_keeps(d, Some(g.last_stream_id.id), cause);
            lemma_leads_trans(c, d, all_ended(d, Some(g.last_stream_id.id), cause));
        },
        FrameView::WindowUpdate(u) => {
            lemma_window_keeps(c, u);
        },
        FrameView::Ping(p) => {
            lemma_keeps(c, ping_received(c, p));
        },
        FrameView::Priority(_) => {
            lemma_keeps(c, c);
        },
    }
}

proof fn lemma_handled_keeps(c: StreamsView, e: ErrorView)
    requires
        is_numbered(c),
    ensures
        leads_to(c, handled(c, e)),
{
    reveal(handled);
    match e {
        ErrorView::GoAway(debug, reason, initiator) => {
            lemma_failed_keeps(c, reason, debug, initiator);
        },
        ErrorView::Reset(at, reason, _) => {
            lemma_failed_keeps(c, Reason::PROTOCOL_ERROR, Seq::empty(), Initiator::Library);
            lemma_failed_keeps(
                c,
                Reason::ENHANCE_YOUR_CALM,
                TOO_MANY_INTERNAL_RESETS@,
                Initiator::Library,
            );
            let m = Meter { local_resets: (c.m.local_resets + 1) as usize, ..c.m };
            let a = noticed(c, at);
            let b = noticed(StreamsView { m, ..c }, at);
            lemma_keeps(c, a);
            lemma_keeps(c, b);
            lemma_reset_keeps(a, at, reason, Initiator::Library);
            lemma_reset_keeps(b, at, reason, Initiator::Library);
            lemma_leads_trans(c, a, reset_by(a, at, reason, Initiator::Library));
            lemma_leads_trans(c, b, reset_by(b, at, reason, Initiator::Library));
        },
    }
}

proof fn lemma_drained_keeps(v: StreamView, max: usize)
    ensures
        drained(v, max).0.st.id == v.st.id,
        drained(v, max).0.st.send == v.st.send,
    decreases v.outbox.len(), front_len(v),
{
    if let Some((next, _)) = drain_step(v, max) {
        lemma_drained_keeps(next, max);
    }
}

proof fn lemma_sent_all_keeps(c: StreamsView, i: nat)
    requires
        is_numbered(c),
    ensures
        leads_to(c, sent_all(c, i).0),
    decreases c.streams.len() - i,
{
    lemma_keeps(c, c);
    if i < c.streams.len() {
        let next = sent_from(c, i as int).0;
        let (s, _) = widened(c.streams[i as int], c.m.init_recv);
        let opened = s.st.opened || active_count(c.streams, c.m.side, true) < c.m.max_send_streams;
        let s = StreamView { st: StreamState { opened, ..s.st }, ..s };
        lemma_drained_keeps(s, c.m.max_send_frame);
        lemma_changed(c, i as int, next.streams[i as int], next);
        lemma_sent_all_keeps(next, i + 1);
        lemma_leads_trans(c, next, sent_all(next, i + 1).0);
    }
}

spec fn is_behind(streams: Seq<StreamView>, s: StreamView) -> bool {
    exists|i: int| 1 <= i < streams.len() && #[trigger] streams[i] == s
}

proof fn lemma_purged_keeps(streams: Seq<StreamView>)
    requires
        are_distinct(streams),
    ensures
        are_distinct(purged(streams)),
        forall|j: int|
            0 <= j < purged(streams).len() ==> streams.contains(#[trigger] purged(streams)[j]),
    decreases streams.len(),
{
    if streams.len() > 0 {
        let rest = streams.skip(1);
        assert forall|i: int, j: int| 0 <= i < j < rest.len() implies (
        #[trigger] rest[i]).st.id != (#[trigger] rest[j]).st.id by {
            assert(streams[i + 1].st.id != streams[j + 1].st.id);
        }
        lemma_purged_keeps(rest);
        let all = purged(streams);
        let left = purged(rest);
        assert forall|j: int| 0 <= j < left.len() implies is_behind(
            streams,
            #[trigger] left[j],
        ) by {
            let i = choose|i: int| 0 <= i < rest.len() && rest[i] == left[j];
            assert(rest.contains(left[j]));
            assert(streams[i + 1] == left[j]);
        }
        assert forall|j: int| 0 <= j < all.len() implies streams.contains(
            #[trigger] all[j],
        ) by {
            if all == left {
                assert(is_behind(streams, left[j]));
            } else if j > 0 {
                assert(is_behind(streams, left[j - 1]));
                assert(all[j] == left[j - 1]);
            } else {
                assert(all[0] == streams[0]);
            }
        }
        if all != left {
            assert forall|i: int, j: int| 0 <= i < j < all.len() implies (
            #[trigger] all[i]).st.id != (#[trigger] all[j]).st.id by {
                assert(all[j] == left[j - 1]);
                if i > 0 {
                    assert(all[i] == left[i - 1]);
                } else {
                    assert(is_behind(streams, left[j - 1]));
                    let k = choose|k: int|
                        1 <= k < streams.len() && #[trigger] streams[k] == left[j - 1];
                    assert(all[0] == streams[0]);
                    assert(streams[0].st.id != streams[k].st.id);
                }
            }
        }
    }
}

proof fn lemma_purging_leads(c: StreamsView, d: StreamsView)
    requires
        is_numbered(c),
        d.streams == purged(c.streams),
        moves_on(c, d),
    ensures
        leads_to(c, d),
{
    lemma_purged_keeps(c.streams);
    assert forall|j: int| 0 <= j < d.streams.len() implies !d.is_idle(
        (#[trigger] d.streams[j]).st.id,
    ) by {
        let i = choose|i: int| 0 <= i < c.streams.len() && c.streams[i] == d.streams[j];
        assert(c.streams.contains(d.streams[j]));
        assert(!c.is_idle(c.streams[i].st.id));
    }
    assert forall|id: StreamId| #[trigger] is_ended(c, id) implies is_ended(d, id) by {
        assert forall|j: int|
            0 <= j < d.streams.len() && (#[trigger] d.streams[j]).st.id
                == id implies d.streams[j].st.send == Half::Closed by {
            let i = choose|i: int| 0 <= i < c.streams.len() && c.streams[i] == d.streams[j];
            assert(c.streams.contains(d.streams[j]));
            assert(c.streams[i].st.id == id);
        }
    }
}

proof fn lemma_flushed_keeps(c: StreamsView)
    requires
        is_numbered(c),
    ensures
        leads_to(c, flushed(c).0),
{
    let a = conn_widened(StreamsView { control: Seq::empty(), ..c }).0;
    lemma_keeps(c, a);
    lemma_sent_all_keeps(a, 0);
    let b = sent_all(a, 0).0;
    lemma_leads_trans(c, a, b);
    lemma_purging_leads(b, flushed(c).0);
    lemma_leads_trans(c, b, flushed(c).0);
}

proof fn lemma_read_all_keeps(v: ConnectionView)
    requires
        is_numbered(v.streams),
    ensures
        leads_to(v.streams, read_all(v).streams),
    decreases
            v.codec.read.buffer.len(),
            if reads_on(v) {
                1int
            } else {
                0
            },
{
    lemma_keeps(v.streams, v.streams);
    if reads_on(v) {
        let (read, r) = next_frame_of(v.codec.read);
        let next = ConnectionView { codec: CodecView { read, ..v.codec }, ..v };
        lemma_next_frame_shrinks(v.codec.read);
        match r {
            Ok(None) => {},
            Ok(Some(f)) => {
                let after = stepped(next, f);
                lemma_stepped_buffer(next, f);
                lemma_stepped_keeps(next, f);
                lemma_read_all_keeps(after);
                lemma_leads_trans(v.streams, after.streams, read_all(after).streams);
            },
            Err(e) => {
                let after = ConnectionView { streams: handled(next.streams, e), ..next };
                lemma_handled(next.streams, e);
                lemma_handled_keeps(next.streams, e);
                lemma_read_all_keeps(after);
                lemma_leads_trans(v.streams, after.streams, read_all(after).streams);
            },
        }
    }
}

proof fn lemma_stepped_keeps(v: ConnectionView, f: FrameView)
    requires
        is_numbered(v.streams),
    ensures
        leads_to(v.streams, stepped(v, f).streams),
{
    reveal(stepped);
    lemma_frame_keeps(v.streams, f);
    let (streams, fault) = frame_received(v.streams, f);
    if let Some(e) = fault {
        lemma_handled_keeps(streams, e);
        lemma_leads_trans(v.streams, streams, handled(streams, e));
    }
}

/// How the streams of a connection go on as it takes in what the peer sent and writes
/// what goes out.
pub proof fn lemma_driving_leads(v: ConnectionView)
    requires
        is_numbered(v.streams),
    ensures
        leads_to(v.streams, driven(v).streams),
{
    reveal(driven);
    let a = read_all(v);
    let b = written(a);
    let c = settled(b.streams);
    let d = driven(v).streams;
    lemma_read_all_keeps(v);
    lemma_flushed_keeps(a.streams);
    lemma_leads_trans(v.streams, a.streams, b.streams);
    lemma_keeps(b.streams, c);
    lemma_leads_trans(v.streams, b.streams, c);
    lemma_flushed_keeps(c);
    lemma_leads_trans(v.streams, c, d);
}

/// Once this side's message on a stream has ended, nothing that the peer sends and
/// nothing that goes out opens it again.
pub proof fn law_driving_keeps_it_ended(v: ConnectionView, id: StreamId)
    requires
        is_numbered(v.streams),
        is_ended(v.streams, id),
    ensures
        is_ended(driven(v).streams, id),
{
    lemma_driving_leads(v);
}

/// On a stream on which this side's message has ended, sending is an error.
pub proof fn law_ended_means_no_sending(
    c: StreamsView,
    id: StreamId,
    data: Seq<u8>,
    end: bool,
    fields: Seq<FieldView>,
)
    requires
        is_ended(c, id),
    ensures
        data_sent(c, id, data, end) is Err,
        trailers_sent(c, id, fields) is Err,
{
    reveal(data_sent);
    reveal(trailers_sent);
    lemma_find(c.streams, id);
}

proof fn lemma_ends(c: StreamsView, i: int, t: StreamView, d: StreamsView, id: StreamId)
    requires
        is_numbered(c),
        0 <= i < c.streams.len(),
        c.streams[i].st.id == id,
        t.st.id == id,
        t.st.send == Half::Closed,
        d.streams == c.streams.update(i, t),
        moves_on(c, d),
    ensures
        is_ended(d, id),
        is_ended(reassigned(d), id),
{
    assert(!c.is_idle(c.streams[i].st.id));
    assert forall|j: int|
        0 <= j < d.streams.len() && (#[trigger] d.streams[j]).st.id
            == id implies d.streams[j].st.send == Half::Closed by {
        if j < i {
            assert(c.streams[j].st.id != c.streams[i].st.id);
        } else if j > i {
            assert(c.streams[i].st.id != c.streams[j].st.id);
        }
    }
    lemma_changed(c, i, t, d);
    lemma_reassigned_keeps(d);
    lemma_keeps(d, reassigned(d));
}

/// A part of the body with which the message ends, and trailers, end it. So do the headers
/// of a message that has nothing else.
pub proof fn law_the_end_ends(
    c: StreamsView,
    id: StreamId,
    data: Seq<u8>,
    fields: Seq<FieldView>,
    block: BlockView,
    head: bool,
)
    requires
        is_numbered(c),
    ensures
        data_sent(c, id, data, true) matches Ok(after) ==> is_ended(after, id),
        trailers_sent(c, id, fields) matches Ok(after) ==> is_ended(after, id),
        response_queued(c, id, block, true) matches Ok(after) ==> is_ended(after, id),
        request_queued(c, block, true, head) matches Ok((after, new)) ==> is_ended(after, new),
{
    reveal(data_sent);
    reveal(trailers_sent);
    reveal(response_queued);
    lemma_find(c.streams, id);
    if let Some(i) = find(c.streams, id) {
        let s = c.streams[i];
        if let Ok((t, free)) = data_queued(s, data, true, c.m.init_send, c.m.free) {
            lemma_ends(c, i, t, replaced(c, i, t, Meter { free, ..c.m }), id);
        }
        let trailers = trailers_block(fields);
        if let Ok((t, free)) = trailers_queued(s, trailers, c.m.init_send, c.m.free) {
            lemma_ends(c, i, t, replaced(c, i, t, Meter { free, ..c.m }), id);
        }
        if let Ok(t) = headers_queued(s, block, true) {
            lemma_ends(c, i, t, replaced(c, i, t, c.m), id);
        }
    }
    lemma_request_ends(c, block, head);
}

proof fn lemma_request_ends(c: StreamsView, block: BlockView, head: bool)
    requires
        is_numbered(c),
    ensures
        request_queued(c, block, true, head) matches Ok((after, new)) ==> is_ended(after, new),
{
    reveal(request_queued);
    if let Ok((after, new)) = request_queued(c, block, true, head) {
        assert forall|j: int|
            0 <= j < after.streams.len() && (#[trigger] after.streams[j]).st.id
                == new implies after.streams[j].st.send == Half::Closed by {
            if j < c.streams.len() {
                assert(!c.is_idle(c.streams[j].st.id));
            }
        }
    }
}

} // verus!
