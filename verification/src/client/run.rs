//! What holds of a client connection over all calls.

use crate::client::laws::{
    ends_in, error_means_closed, follows, law_end_is_told_once, law_identifiers_in_order,
    law_response_events_follow, law_response_in_order, law_runs_of_events, lemma_ends_concat,
    lemma_pump_errors,
};
use crate::client::peer::sent_request;
use crate::client::{
    drive_of, event_of, exchange_pumped, is_new, pump_from, pump_of, reap_from, request_sent,
    with_streams, without_error, Builder, ConnectionView, EventView, Exchange, Phase,
};
use crate::codec::UserError;
use crate::frame::control::Reset;
use crate::frame::{Reason, StreamId};
use crate::hpack::field::FieldView;
use crate::message::RequestView;
use crate::names::{HEAD, PREFACE};
use crate::proto;
use crate::proto::closed::{
    is_ended, is_numbered, law_ended_means_no_sending, law_the_end_ends, leads_to,
    lemma_leads_trans,
};
use crate::proto::connection::{driven, received, with_target};
use crate::proto::control::leave_taken;
use crate::proto::kept::{
    goes_on, is_among, is_going, is_kept, law_reset_goes_out, lemma_calls_go_on,
    lemma_driving_keeps, lemma_goes_on_trans, lemma_pumping_goes_on, lemma_reading_goes_on,
    lemma_request_opens, lemma_target_goes_on,
};
use crate::proto::laws::{lemma_starts_with, starts_with};
use crate::proto::output::{has_controls, is_frames, lemma_frames_concat, lemma_settings_frame};
use crate::proto::pump::{pumped, read_from};
use crate::proto::stream::Half;
use crate::proto::streams::{find, is_local, Side, StreamsView};
use crate::proto::user::{
    capacity_reserved, data_sent, forgotten, given_up, let_go, time_told, trailers_block,
    trailers_sent,
};
use vstd::prelude::*;

verus! {

/// Something that is done with a client connection, or with a stream of it.
pub enum Call {
    SendRequest(RequestView, bool),
    Recv(Seq<u8>),
    PollTransmit,
    PollEvent,
    SetTime(u64),
    SetTargetWindowSize(u32),
    GoAway(Reason),
    ReserveCapacity(StreamId, u32),
    SendData(StreamId, Seq<u8>, bool),
    SendTrailers(StreamId, Seq<FieldView>),
    SendReset(StreamId, Reason),
    Release(StreamId),
}

/// A connection that is about to hand out bytes.
pub open spec fn about_to_hand_out(v: ConnectionView) -> ConnectionView {
    drive_of(ConnectionView { preface_sent: true, ..v })
}

/// A connection with these streams, if there are any.
pub open spec fn sent_on(
    v: ConnectionView,
    sent: Result<StreamsView, UserError>,
) -> ConnectionView {
    match sent {
        Ok(streams) => with_streams(v, streams),
        Err(_) => v,
    }
}

/// A connection after a call.
#[verifier::opaque]
pub open spec fn after(v: ConnectionView, call: Call) -> ConnectionView {
    let c = v.inner.streams;
    match call {
        Call::SendRequest(request, end) => match request_sent(v, request, end) {
            Ok((next, _)) => next,
            Err(_) => v,
        },
        Call::Recv(src) => without_error(
            drive_of(ConnectionView { inner: received(v.inner, src), ..v }),
        ),
        Call::PollTransmit => {
            let d = about_to_hand_out(v);
            ConnectionView {
                inner: proto::ConnectionView { codec: d.inner.codec.sent(), ..d.inner },
                ..d
            }
        },
        Call::PollEvent => event_of(v).0,
        Call::SetTime(now) => with_streams(v, time_told(c, now)),
        Call::SetTargetWindowSize(size) => ConnectionView {
            inner: with_target(v.inner, size),
            ..v
        },
        Call::GoAway(reason) => with_streams(v, leave_taken(c, reason)),
        Call::ReserveCapacity(id, n) => with_streams(v, capacity_reserved(c, id, n)),
        Call::SendData(id, data, end) => sent_on(v, data_sent(c, id, data, end)),
        Call::SendTrailers(id, fields) => sent_on(v, trailers_sent(c, id, fields)),
        Call::SendReset(id, reason) => with_streams(v, given_up(c, id, reason)),
        Call::Release(id) => with_streams(v, let_go(c, id)),
    }
}

/// The bytes that a call hands out.
#[verifier::opaque]
pub open spec fn handed_out(v: ConnectionView, call: Call) -> Seq<u8> {
    match call {
        Call::PollTransmit => (if v.preface_sent {
            Seq::empty()
        } else {
            PREFACE@
        }) + about_to_hand_out(v).inner.codec.transmit(),
        _ => Seq::empty(),
    }
}

/// The event that a call hands out, if it does.
#[verifier::opaque]
pub open spec fn told(v: ConnectionView, call: Call) -> Seq<EventView> {
    match call {
        Call::PollEvent => match event_of(v).1 {
            Some(e) => seq![e],
            None => Seq::empty(),
        },
        _ => Seq::empty(),
    }
}

/// The stream that a call opens, if it does.
#[verifier::opaque]
pub open spec fn opened(v: ConnectionView, call: Call) -> Seq<StreamId> {
    match call {
        Call::SendRequest(request, end) => match request_sent(v, request, end) {
            Ok((_, id)) => seq![id],
            Err(_) => Seq::empty(),
        },
        _ => Seq::empty(),
    }
}

/// A connection after a run of calls.
pub open spec fn run(v: ConnectionView, calls: Seq<Call>) -> ConnectionView
    decreases calls.len(),
{
    if calls.len() == 0 {
        v
    } else {
        after(run(v, calls.drop_last()), calls.last())
    }
}

/// All bytes that a run of calls hands out.
pub open spec fn output(v: ConnectionView, calls: Seq<Call>) -> Seq<u8>
    decreases calls.len(),
{
    if calls.len() == 0 {
        Seq::empty()
    } else {
        let init = calls.drop_last();
        output(v, init) + handed_out(run(v, init), calls.last())
    }
}

/// All events that a run of calls hands out.
pub open spec fn history(v: ConnectionView, calls: Seq<Call>) -> Seq<EventView>
    decreases calls.len(),
{
    if calls.len() == 0 {
        Seq::empty()
    } else {
        let init = calls.drop_last();
        history(v, init) + told(run(v, init), calls.last())
    }
}

/// All streams that a run of calls opens.
pub open spec fn all_opened(v: ConnectionView, calls: Seq<Call>) -> Seq<StreamId>
    decreases calls.len(),
{
    if calls.len() == 0 {
        Seq::empty()
    } else {
        let init = calls.drop_last();
        all_opened(v, init) + opened(run(v, init), calls.last())
    }
}

/// What always holds of a client connection between two calls.
#[verifier::opaque]
pub open spec fn in_order(v: ConnectionView) -> bool {
    &&& is_kept(v.inner)
    &&& v.inner.streams.m.side == Side::Client
    &&& v.closed == (v.inner.streams.m.closed is Some)
    &&& has_exchanges(v.exchanges, v.inner.streams)
}

/// Exchanges on streams that this side opened, each on one of its own.
pub open spec fn has_exchanges(exchanges: Seq<Exchange>, c: StreamsView) -> bool {
    &&& forall|k: int|
        0 <= k < exchanges.len() ==> is_local(c.m.side, (#[trigger] exchanges[k]).id)
            && exchanges[k].id.id < c.m.next_id
    &&& forall|k: int, n: int|
        0 <= k < n < exchanges.len() ==> (#[trigger] exchanges[k]).id != (
        #[trigger] exchanges[n]).id
}

/// A connection that is just made is in order.
pub proof fn lemma_new_in_order(v: ConnectionView, b: Builder)
    requires
        b.wf(),
        is_new(v, b),
    ensures
        in_order(v),
{
    reveal(in_order);
    assert(v.inner.codec.transmit() =~= b.settings.wire());
    lemma_settings_frame(b.settings);
    assert(v.inner.codec.read.buffer.len() == 0);
}

proof fn lemma_driving(v: ConnectionView)
    requires
        is_going(v.inner),
        v.inner.streams.m.side == Side::Client,
        v.closed == (v.inner.streams.m.closed is Some),
        has_exchanges(v.exchanges, v.inner.streams),
    ensures
        in_order(drive_of(v)),
        leads_to(v.inner.streams, drive_of(v).inner.streams),
        drive_of(v).inner.streams.m.next_id == v.inner.streams.m.next_id,
        starts_with(drive_of(v).inner.codec.transmit(), v.inner.codec.transmit()),
{
    reveal(in_order);
    lemma_driving_keeps(v.inner);
    lemma_reading_goes_on(v.inner.streams, StreamId { id: 0 });
    let t = v.inner.codec.transmit();
    assert(t.take(t.len() as int) =~= t);
}

proof fn lemma_went_on(v: ConnectionView, streams: StreamsView)
    requires
        in_order(v),
        goes_on(v.inner.streams, streams),
    ensures
        in_order(with_streams(v, streams)),
{
    reveal(in_order);
}

proof fn lemma_exchange_goes_on(c: StreamsView, x: Exchange)
    requires
        is_numbered(c),
        has_controls(c),
    ensures
        goes_on(c, exchange_pumped(c, x).0),
{
    reveal(exchange_pumped);
    lemma_reading_goes_on(c, x.id);
    lemma_pumping_goes_on(c, x.id);
    let read = read_from(c, x.id);
    lemma_pumping_goes_on(read, x.id);
    lemma_goes_on_trans(c, read, pumped(read, x.id).0);
}

/// A connection after the response at `i` was handed out as far as it goes.
spec fn pumped_at(v: ConnectionView, i: int) -> ConnectionView {
    let x = v.exchanges[i];
    let (streams, phase, events) = exchange_pumped(v.inner.streams, x);
    ConnectionView {
        inner: proto::ConnectionView { streams, ..v.inner },
        exchanges: v.exchanges.update(i, Exchange { phase, ..x }),
        events: v.events + events,
        ..v
    }
}

/// A connection after the response at `i` was forgotten.
spec fn reaped_at(v: ConnectionView, i: int) -> ConnectionView {
    ConnectionView {
        inner: proto::ConnectionView {
            streams: forgotten(v.inner.streams, v.exchanges[i].id),
            ..v.inner
        },
        exchanges: v.exchanges.remove(i),
        ..v
    }
}

/// What handing out responses leaves as it is.
spec fn same_below(v: ConnectionView, w: ConnectionView) -> bool {
    &&& goes_on(v.inner.streams, w.inner.streams)
    &&& w.inner.codec == v.inner.codec
    &&& w.preface_sent == v.preface_sent
}

proof fn lemma_pumped_at(v: ConnectionView, i: int)
    requires
        in_order(v),
        0 <= i < v.exchanges.len(),
    ensures
        in_order(pumped_at(v, i)),
        same_below(v, pumped_at(v, i)),
{
    reveal(in_order);
    let x = v.exchanges[i];
    lemma_exchange_goes_on(v.inner.streams, x);
    let w = pumped_at(v, i);
    assert forall|k: int| 0 <= k < w.exchanges.len() implies is_local(
        w.inner.streams.m.side,
        (#[trigger] w.exchanges[k]).id,
    ) && w.exchanges[k].id.id < w.inner.streams.m.next_id by {
        assert(w.exchanges[k].id == v.exchanges[k].id);
    }
    assert forall|k: int, n: int| 0 <= k < n < w.exchanges.len() implies (
    #[trigger] w.exchanges[k]).id != (#[trigger] w.exchanges[n]).id by {
        assert(v.exchanges[k].id != v.exchanges[n].id);
    }
}

proof fn lemma_reaped_at(v: ConnectionView, i: int)
    requires
        in_order(v),
        0 <= i < v.exchanges.len(),
    ensures
        in_order(reaped_at(v, i)),
        same_below(v, reaped_at(v, i)),
{
    reveal(in_order);
    lemma_reading_goes_on(v.inner.streams, v.exchanges[i].id);
    let w = reaped_at(v, i);
    assert forall|k: int| 0 <= k < w.exchanges.len() implies is_local(
        w.inner.streams.m.side,
        (#[trigger] w.exchanges[k]).id,
    ) && w.exchanges[k].id.id < w.inner.streams.m.next_id by {
        assert(w.exchanges[k] == v.exchanges[if k < i {
            k
        } else {
            k + 1
        }]);
    }
    assert forall|k: int, n: int| 0 <= k < n < w.exchanges.len() implies (
    #[trigger] w.exchanges[k]).id != (#[trigger] w.exchanges[n]).id by {
        let a = if k < i {
            k
        } else {
            k + 1
        };
        let b = if n < i {
            n
        } else {
            n + 1
        };
        assert(v.exchanges[a].id != v.exchanges[b].id);
    }
}

/// An event on this stream.
pub open spec fn concerns(e: EventView, id: StreamId) -> bool {
    match e {
        EventView::Response(at, _, _) => at == id,
        EventView::Body(at, _) => at == id,
        EventView::GoAway => false,
    }
}

/// The events on this stream.
pub open spec fn about(events: Seq<EventView>, id: StreamId) -> Seq<EventView>
    decreases events.len(),
{
    if events.len() == 0 {
        Seq::empty()
    } else {
        let init = about(events.drop_last(), id);
        if concerns(events.last(), id) {
            init.push(events.last())
        } else {
            init
        }
    }
}

/// The events on a stream of two runs are those of the first and those of the second.
pub proof fn lemma_about_concat(a: Seq<EventView>, b: Seq<EventView>, id: StreamId)
    ensures
        about(a + b, id) == about(a, id) + about(b, id),
    decreases b.len(),
{
    if b.len() == 0 {
        assert(a + b =~= a);
        assert(about(a, id) + about(b, id) =~= about(a, id));
    } else {
        assert((a + b).drop_last() =~= a + b.drop_last());
        lemma_about_concat(a, b.drop_last(), id);
        assert(about(a + b, id) =~= about(a, id) + about(b, id));
    }
}

proof fn lemma_about_one(events: Seq<EventView>, at: StreamId, id: StreamId)
    requires
        forall|i: int| 0 <= i < events.len() ==> concerns(#[trigger] events[i], at),
    ensures
        about(events, id) == if id == at {
            events
        } else {
            Seq::empty()
        },
    decreases events.len(),
{
    if events.len() > 0 {
        let init = events.drop_last();
        assert forall|i: int| 0 <= i < init.len() implies concerns(#[trigger] init[i], at) by {
            assert(init[i] == events[i]);
        }
        lemma_about_one(init, at, id);
        assert(concerns(events[events.len() - 1], at));
        assert(init.push(events.last()) =~= events);
    } else {
        assert(about(events, id) =~= events);
    }
}

/// No exchange is on this stream.
pub open spec fn is_apart(exchanges: Seq<Exchange>, id: StreamId) -> bool {
    forall|k: int| 0 <= k < exchanges.len() ==> (#[trigger] exchanges[k]).id != id
}

/// All events that there were so far are in order: those on a stream with an exchange have
/// come to the phase that is noted, those on one without to the end, and there are none on
/// a stream that is still to be opened.
#[verifier::opaque]
spec fn tells(all: Seq<EventView>, exchanges: Seq<Exchange>, c: StreamsView) -> bool {
    &&& forall|k: int|
        0 <= k < exchanges.len() ==> follows(Phase::Head, about(all, (#[trigger] exchanges[k]).id))
            == Some(exchanges[k].phase)
    &&& forall|id: StreamId| c.is_idle(id) ==> (#[trigger] about(all, id)).len() == 0
    &&& forall|id: StreamId|
        is_apart(exchanges, id) ==> (#[trigger] about(all, id)).len() == 0 || follows(
            Phase::Head,
            about(all, id),
        ) == Some(Phase::Done)
}

/// All events are in order: those that were handed out, and those that are not yet.
spec fn is_told(h: Seq<EventView>, v: ConnectionView) -> bool {
    tells(h + v.events, v.exchanges, v.inner.streams)
}

proof fn lemma_tells_later(
    all: Seq<EventView>,
    exchanges: Seq<Exchange>,
    c: StreamsView,
    d: StreamsView,
)
    requires
        tells(all, exchanges, c),
        leads_to(c, d),
    ensures
        tells(all, exchanges, d),
{
    reveal(tells);
    assert forall|id: StreamId| d.is_idle(id) implies (#[trigger] about(all, id)).len() == 0 by {
        assert(c.is_idle(id));
    }
}

proof fn lemma_tells_of_none(
    all: Seq<EventView>,
    e: EventView,
    exchanges: Seq<Exchange>,
    c: StreamsView,
)
    requires
        tells(all, exchanges, c),
        e is GoAway,
    ensures
        tells(all.push(e), exchanges, c),
{
    reveal(tells);
    assert forall|id: StreamId| #[trigger] about(all.push(e), id) == about(all, id) by {
        assert(all.push(e).drop_last() =~= all);
    }
}

proof fn lemma_tells_pumped(all: Seq<EventView>, v: ConnectionView, i: int)
    requires
        in_order(v),
        0 <= i < v.exchanges.len(),
        tells(all, v.exchanges, v.inner.streams),
    ensures
        ({
            let events = exchange_pumped(v.inner.streams, v.exchanges[i]).2;
            let w = pumped_at(v, i);
            tells(all + events, w.exchanges, w.inner.streams)
        }),
{
    lemma_pumped_at(v, i);
    reveal(in_order);
    reveal(tells);
    let x = v.exchanges[i];
    let (streams, phase, events) = exchange_pumped(v.inner.streams, x);
    let w = pumped_at(v, i);
    law_response_in_order(v.inner.streams, x);
    law_response_events_follow(v.inner.streams, x);
    assert forall|id: StreamId| #[trigger] about(all + events, id) == about(all, id) + (if id
        == x.id {
        events
    } else {
        Seq::empty()
    }) by {
        lemma_about_concat(all, events, id);
        lemma_about_one(events, x.id, id);
    }
    assert forall|id: StreamId| id != x.id implies #[trigger] about(all + events, id) == about(
        all,
        id,
    ) by {
        assert(about(all, id) + Seq::<EventView>::empty() =~= about(all, id));
    }
    law_runs_of_events(Phase::Head, about(all, x.id), events);
    assert forall|k: int| 0 <= k < w.exchanges.len() implies follows(
        Phase::Head,
        about(all + events, (#[trigger] w.exchanges[k]).id),
    ) == Some(w.exchanges[k].phase) by {
        assert(w.exchanges[k].id == v.exchanges[k].id);
        if k < i {
            assert(v.exchanges[k].id != v.exchanges[i].id);
        } else if k > i {
            assert(v.exchanges[i].id != v.exchanges[k].id);
        }
    }
    assert(w.exchanges[i].id == x.id);
    assert forall|id: StreamId| w.inner.streams.is_idle(id) implies (
    #[trigger] about(all + events, id)).len() == 0 by {
        assert(v.inner.streams.is_idle(id));
        assert(!v.inner.streams.is_idle(x.id));
    }
    assert forall|id: StreamId| is_apart(w.exchanges, id) implies (
    #[trigger] about(all + events, id)).len() == 0 || follows(Phase::Head, about(all + events, id))
        == Some(Phase::Done) by {
        assert(id != x.id);
        assert(is_apart(v.exchanges, id)) by {
            assert forall|k: int| 0 <= k < v.exchanges.len() implies (
            #[trigger] v.exchanges[k]).id != id by {
                assert(w.exchanges[k].id == v.exchanges[k].id);
            }
        }
    }
}

proof fn lemma_tells_reaped(all: Seq<EventView>, v: ConnectionView, i: int)
    requires
        in_order(v),
        0 <= i < v.exchanges.len(),
        v.exchanges[i].phase == Phase::Done,
        tells(all, v.exchanges, v.inner.streams),
    ensures
        ({
            let w = reaped_at(v, i);
            tells(all, w.exchanges, w.inner.streams)
        }),
{
    let w = reaped_at(v, i);
    lemma_reaped_at(v, i);
    lemma_tells_later(all, v.exchanges, v.inner.streams, w.inner.streams);
    reveal(tells);
    assert forall|k: int| 0 <= k < w.exchanges.len() implies follows(
        Phase::Head,
        about(all, (#[trigger] w.exchanges[k]).id),
    ) == Some(w.exchanges[k].phase) by {
        assert(w.exchanges[k] == v.exchanges[if k < i {
            k
        } else {
            k + 1
        }]);
    }
    assert forall|id: StreamId| is_apart(w.exchanges, id) implies (
    #[trigger] about(all, id)).len() == 0 || follows(Phase::Head, about(all, id)) == Some(
        Phase::Done,
    ) by {
        if id != v.exchanges[i].id {
            assert(is_apart(v.exchanges, id)) by {
                assert forall|k: int| 0 <= k < v.exchanges.len() implies (
                #[trigger] v.exchanges[k]).id != id by {
                    if k < i {
                        assert(w.exchanges[k].id == v.exchanges[k].id);
                    } else if k > i {
                        assert(w.exchanges[k - 1].id == v.exchanges[k].id);
                    }
                }
            }
        }
    }
}

proof fn lemma_pumping(h: Seq<EventView>, v: ConnectionView, i: nat)
    requires
        in_order(v),
    ensures
        ({
            let w = pump_from(v, i);
            &&& in_order(w)
            &&& same_below(v, w)
            &&& is_told(h, v) ==> is_told(h, w)
        }),
    decreases v.exchanges.len() - i,
{
    if i < v.exchanges.len() {
        let next = pumped_at(v, i as int);
        let events = exchange_pumped(v.inner.streams, v.exchanges[i as int]).2;
        lemma_pumped_at(v, i as int);
        if is_told(h, v) {
            lemma_tells_pumped(h + v.events, v, i as int);
        }
        assert(h + v.events + events =~= h + (v.events + events));
        lemma_pumping(h, next, i + 1);
        let w = pump_from(next, i + 1);
        lemma_goes_on_trans(v.inner.streams, next.inner.streams, w.inner.streams);
    } else {
        reveal(in_order);
        lemma_reading_goes_on(v.inner.streams, StreamId { id: 0 });
    }
}

proof fn lemma_reaping(h: Seq<EventView>, v: ConnectionView, i: nat)
    requires
        in_order(v),
    ensures
        ({
            let w = reap_from(v, i);
            &&& in_order(w)
            &&& same_below(v, w)
            &&& is_told(h, v) ==> is_told(h, w)
        }),
    decreases v.exchanges.len() - i,
{
    if i < v.exchanges.len() {
        if v.exchanges[i as int].phase == Phase::Done {
            let next = reaped_at(v, i as int);
            lemma_reaped_at(v, i as int);
            if is_told(h, v) {
                lemma_tells_reaped(h + v.events, v, i as int);
            }
            lemma_reaping(h, next, i);
            let w = reap_from(next, i);
            lemma_goes_on_trans(v.inner.streams, next.inner.streams, w.inner.streams);
        } else {
            lemma_reaping(h, v, i + 1);
        }
    } else {
        reveal(in_order);
        lemma_reading_goes_on(v.inner.streams, StreamId { id: 0 });
    }
}

/// What one call does to what always holds, `h` being the events that were handed out.
spec fn steps(h: Seq<EventView>, v: ConnectionView, call: Call) -> bool {
    let w = after(v, call);
    &&& in_order(w)
    &&& leads_to(v.inner.streams, w.inner.streams)
    &&& w.inner.streams.m.next_id == v.inner.streams.m.next_id + 2 * opened(v, call).len()
    &&& is_told(h, v) ==> is_told(h + told(v, call), w)
}

proof fn lemma_tells_opened(
    all: Seq<EventView>,
    exchanges: Seq<Exchange>,
    id: StreamId,
    c: StreamsView,
    d: StreamsView,
)
    requires
        tells(all, exchanges, c),
        tells(all, exchanges, d),
        c.is_idle(id),
    ensures
        tells(all, exchanges.push(Exchange { id, phase: Phase::Head }), d),
{
    reveal(tells);
    let more = exchanges.push(Exchange { id, phase: Phase::Head });
    assert(about(all, id).len() == 0);
    assert(follows(Phase::Head, about(all, id)) == Some(Phase::Head));
    assert forall|other: StreamId| is_apart(more, other) implies (
    #[trigger] about(all, other)).len() == 0 || follows(Phase::Head, about(all, other)) == Some(
        Phase::Done,
    ) by {
        assert(is_apart(exchanges, other)) by {
            assert forall|k: int| 0 <= k < exchanges.len() implies (
            #[trigger] exchanges[k]).id != other by {
                assert(more[k] == exchanges[k]);
            }
        }
    }
}

proof fn lemma_request_steps(h: Seq<EventView>, v: ConnectionView, request: RequestView, end: bool)
    requires
        in_order(v),
    ensures
        steps(h, v, Call::SendRequest(request, end)),
{
    reveal(after);
    reveal(told);
    reveal(opened);
    let call = Call::SendRequest(request, end);
    let w = after(v, call);
    let all = h + v.events;
    assert(h + told(v, call) + w.events =~= all);
    reveal(in_order);
    let c = v.inner.streams;
    lemma_reading_goes_on(c, StreamId { id: 0 });
    if let Ok((_, id)) = request_sent(v, request, end) {
        let f = sent_request(
            StreamId { id: c.m.next_id },
            request,
            request.protocol,
            end,
        )->Ok_0;
        lemma_request_opens(c, f.block, end, request.method == HEAD@);
        assert(c.is_idle(id));
        assert forall|k: int, n: int| 0 <= k < n < w.exchanges.len() implies (
        #[trigger] w.exchanges[k]).id != (#[trigger] w.exchanges[n]).id by {
            if n < v.exchanges.len() {
                assert(v.exchanges[k].id != v.exchanges[n].id);
            }
        }
        if is_told(h, v) {
            lemma_tells_later(all, v.exchanges, c, w.inner.streams);
            lemma_tells_opened(all, v.exchanges, id, c, w.inner.streams);
        }
    }
}

proof fn lemma_drive_tells(h: Seq<EventView>, v: ConnectionView)
    requires
        is_going(v.inner),
        v.inner.streams.m.side == Side::Client,
        v.closed == (v.inner.streams.m.closed is Some),
        has_exchanges(v.exchanges, v.inner.streams),
    ensures
        ({
            let w = drive_of(v);
            &&& in_order(w)
            &&& leads_to(v.inner.streams, w.inner.streams)
            &&& w.inner.streams.m.next_id == v.inner.streams.m.next_id
            &&& is_told(h, v) ==> is_told(h, w)
        }),
{
    let w = drive_of(v);
    lemma_driving(v);
    if is_told(h, v) {
        lemma_tells_later(h + v.events, v.exchanges, v.inner.streams, w.inner.streams);
        if w.events != v.events {
            lemma_tells_of_none(h + v.events, EventView::GoAway, w.exchanges, w.inner.streams);
            assert((h + v.events).push(EventView::GoAway) =~= h + w.events);
        }
    }
}

proof fn lemma_event_steps(h: Seq<EventView>, v: ConnectionView)
    requires
        in_order(v),
    ensures
        steps(h, v, Call::PollEvent),
{
    reveal(after);
    reveal(told);
    reveal(opened);
    let call = Call::PollEvent;
    assert(is_going(v.inner) && v.inner.streams.m.side == Side::Client && v.closed == (
    v.inner.streams.m.closed is Some) && has_exchanges(v.exchanges, v.inner.streams)
        && leads_to(v.inner.streams, v.inner.streams)) by {
        reveal(in_order);
        lemma_reading_goes_on(v.inner.streams, StreamId { id: 0 });
    }
    let w = if v.events.len() == 0 {
        pump_of(v)
    } else {
        v
    };
    if v.events.len() == 0 {
        let a = drive_of(v);
        lemma_drive_tells(h, v);
        lemma_pumping(h, a, 0);
        let b = pump_from(a, 0);
        lemma_reaping(h, b, 0);
        lemma_goes_on_trans(a.inner.streams, b.inner.streams, w.inner.streams);
        lemma_leads_trans(v.inner.streams, a.inner.streams, w.inner.streams);
    }
    let z = after(v, call);
    assert(in_order(z)) by {
        reveal(in_order);
    }
    assert(h + told(v, call) + z.events =~= h + w.events);
}

proof fn lemma_call_goes_on(v: ConnectionView, call: Call)
    requires
        in_order(v),
        !(call is SendRequest || call is Recv || call is PollTransmit || call is PollEvent),
    ensures
        goes_on(v.inner.streams, after(v, call).inner.streams),
        after(v, call) == with_streams(v, after(v, call).inner.streams),
{
    reveal(in_order);
    reveal(after);
    let c = v.inner.streams;
    let id = StreamId { id: 0 };
    let data = Seq::<u8>::empty();
    let none = Seq::<FieldView>::empty();
    let block = trailers_block(none);
    let reason = Reason::NO_ERROR;
    lemma_reading_goes_on(c, id);
    match call {
        Call::SetTime(now) => {
            lemma_calls_go_on(c, id, data, none, block, 0, reason, now, false);
        },
        Call::SetTargetWindowSize(size) => {
            lemma_target_goes_on(c, size);
        },
        Call::GoAway(reason) => {
            lemma_calls_go_on(c, id, data, none, block, 0, reason, 0, false);
        },
        Call::ReserveCapacity(id, n) => {
            lemma_calls_go_on(c, id, data, none, block, n, reason, 0, false);
        },
        Call::SendData(id, data, end) => {
            lemma_calls_go_on(c, id, data, none, block, 0, reason, 0, end);
        },
        Call::SendTrailers(id, fields) => {
            lemma_calls_go_on(c, id, data, fields, block, 0, reason, 0, false);
        },
        Call::SendReset(id, reason) => {
            lemma_calls_go_on(c, id, data, none, block, 0, reason, 0, false);
        },
        Call::Release(id) => {
            lemma_calls_go_on(c, id, data, none, block, 0, reason, 0, false);
        },
        _ => {},
    }
}

proof fn lemma_recv_steps(h: Seq<EventView>, v: ConnectionView, src: Seq<u8>)
    requires
        in_order(v),
    ensures
        steps(h, v, Call::Recv(src)),
{
    reveal(after);
    reveal(told);
    reveal(opened);
    let call = Call::Recv(src);
    let a = ConnectionView { inner: received(v.inner, src), ..v };
    assert(is_going(a.inner) && a.closed == (a.inner.streams.m.closed is Some)
        && a.inner.streams.m.side == Side::Client && has_exchanges(
        a.exchanges,
        a.inner.streams,
    )) by {
        reveal(in_order);
    }
    lemma_drive_tells(h, a);
    let w = after(v, call);
    assert(in_order(w)) by {
        reveal(in_order);
    }
    assert(h + told(v, call) =~= h);
}

proof fn lemma_transmit_steps(h: Seq<EventView>, v: ConnectionView)
    requires
        in_order(v),
    ensures
        steps(h, v, Call::PollTransmit),
{
    reveal(after);
    reveal(told);
    reveal(opened);
    let call = Call::PollTransmit;
    let a = ConnectionView { preface_sent: true, ..v };
    assert(is_going(a.inner) && a.closed == (a.inner.streams.m.closed is Some)
        && a.inner.streams.m.side == Side::Client && has_exchanges(
        a.exchanges,
        a.inner.streams,
    )) by {
        reveal(in_order);
    }
    lemma_drive_tells(h, a);
    let d = about_to_hand_out(v);
    let w = after(v, call);
    assert(in_order(w)) by {
        reveal(in_order);
        assert(d.inner.codec.sent().transmit() =~= Seq::<u8>::empty());
    }
    assert(h + told(v, call) =~= h);
}

proof fn lemma_other_steps(h: Seq<EventView>, v: ConnectionView, call: Call)
    requires
        in_order(v),
        !(call is SendRequest || call is Recv || call is PollTransmit || call is PollEvent),
    ensures
        steps(h, v, call),
{
    reveal(told);
    reveal(opened);
    let w = after(v, call);
    lemma_call_goes_on(v, call);
    lemma_went_on(v, w.inner.streams);
    if is_told(h, v) {
        lemma_tells_later(h + v.events, v.exchanges, v.inner.streams, w.inner.streams);
    }
    assert(h + told(v, call) =~= h);
}

/// Every call keeps what always holds.
proof fn lemma_steps(h: Seq<EventView>, v: ConnectionView, call: Call)
    requires
        in_order(v),
    ensures
        steps(h, v, call),
{
    match call {
        Call::SendRequest(request, end) => {
            lemma_request_steps(h, v, request, end);
        },
        Call::PollEvent => {
            lemma_event_steps(h, v);
        },
        Call::Recv(src) => {
            lemma_recv_steps(h, v, src);
        },
        Call::PollTransmit => {
            lemma_transmit_steps(h, v);
        },
        _ => {
            lemma_other_steps(h, v, call);
        },
    }
}

/// Every call leaves a connection in order that was in order. So what holds of every
/// connection in order holds of every connection: one that is just made is in order, as
/// `lemma_new_in_order` says.
pub proof fn law_calls_keep_order(v: ConnectionView, call: Call)
    requires
        in_order(v),
    ensures
        in_order(after(v, call)),
        leads_to(v.inner.streams, after(v, call).inner.streams),
{
    lemma_steps(Seq::empty(), v, call);
}

proof fn lemma_run(h: Seq<EventView>, v: ConnectionView, calls: Seq<Call>)
    requires
        in_order(v),
    ensures
        ({
            let w = run(v, calls);
            &&& in_order(w)
            &&& leads_to(v.inner.streams, w.inner.streams)
            &&& w.inner.streams.m.next_id == v.inner.streams.m.next_id + 2 * all_opened(
                v,
                calls,
            ).len()
            &&& is_told(h, v) ==> is_told(h + history(v, calls), w)
        }),
    decreases calls.len(),
{
    if calls.len() == 0 {
        reveal(in_order);
        lemma_reading_goes_on(v.inner.streams, StreamId { id: 0 });
        assert(h + history(v, calls) =~= h);
    } else {
        let init = calls.drop_last();
        let mid = run(v, init);
        lemma_run(h, v, init);
        lemma_steps(h + history(v, init), mid, calls.last());
        lemma_leads_trans(
            v.inner.streams,
            mid.inner.streams,
            run(v, calls).inner.streams,
        );
        let t = told(mid, calls.last());
        assert(h + history(v, init) + t =~= h + (history(v, init) + t));
    }
}

/// Whatever is done with a connection, no stream that is there has the next identifier of
/// this side, or one behind it, and no two have the same.
pub proof fn law_next_identifier_is_free(v: ConnectionView)
    requires
        in_order(v),
    ensures
        forall|j: int|
            0 <= j < v.inner.streams.streams.len() ==> {
                let id = (#[trigger] v.inner.streams.streams[j]).st.id;
                is_local(Side::Client, id) ==> id.id < v.inner.streams.m.next_id
            },
        find(v.inner.streams.streams, StreamId { id: v.inner.streams.m.next_id }) is None,
{
    reveal(in_order);
    let c = v.inner.streams;
    assert forall|j: int| 0 <= j < c.streams.len() implies {
        let id = (#[trigger] c.streams[j]).st.id;
        is_local(Side::Client, id) ==> id.id < c.m.next_id
    } by {
        assert(!c.is_idle(c.streams[j].st.id));
    }
    crate::proto::streams::lemma_find(c.streams, StreamId { id: c.m.next_id });
}

/// The requests that are sent over a connection get every other identifier, from the one
/// that the connection was made with on, in this order: none is used twice, and none is
/// left out.
pub proof fn law_identifiers_over_all_calls(v: ConnectionView, calls: Seq<Call>)
    requires
        in_order(v),
    ensures
        forall|i: int|
            0 <= i < all_opened(v, calls).len() ==> (#[trigger] all_opened(v, calls)[i]).id
                == v.inner.streams.m.next_id + 2 * i,
    decreases calls.len(),
{
    if calls.len() > 0 {
        let init = calls.drop_last();
        let mid = run(v, init);
        lemma_run(Seq::empty(), v, init);
        law_identifiers_over_all_calls(v, init);
        let all = all_opened(v, calls);
        let n = all_opened(v, init).len() as int;
        reveal(opened);
        assert forall|i: int| 0 <= i < all.len() implies (#[trigger] all[i]).id
            == v.inner.streams.m.next_id + 2 * i by {
            if i < n {
                assert(all[i] == all_opened(v, init)[i]);
            } else if let Call::SendRequest(request, end) = calls.last() {
                law_identifiers_in_order(mid, request, end);
                assert(all[i] == opened(mid, calls.last())[i - n]);
            }
        }
    }
}

/// All bytes that a connection ever hands out are the preface, once, and behind it whole
/// frames, the first of which is the SETTINGS frame of this side; whatever is done with
/// the connection, and however often bytes are asked for.
pub proof fn law_output_over_all_calls(v: ConnectionView, b: Builder, calls: Seq<Call>)
    requires
        b.wf(),
        is_new(v, b),
    ensures
        run(v, calls).preface_sent ==> is_preface_then_frames(output(v, calls), b),
        !run(v, calls).preface_sent ==> output(v, calls).len() == 0,
{
    lemma_new_in_order(v, b);
    lemma_output(v, b, calls);
}

/// The preface, and behind it whole frames, of which these settings are the first.
pub open spec fn is_preface_then_frames(bytes: Seq<u8>, b: Builder) -> bool {
    let n = PREFACE@.len() as int;
    &&& starts_with(bytes, PREFACE@)
    &&& is_frames(bytes.skip(n))
    &&& starts_with(bytes.skip(n), b.settings.wire())
}

proof fn lemma_output(v: ConnectionView, b: Builder, calls: Seq<Call>)
    requires
        b.wf(),
        is_new(v, b),
        in_order(v),
    ensures
        ({
            let w = run(v, calls);
            let bytes = output(v, calls);
            &&& w.preface_sent ==> is_preface_then_frames(bytes, b)
            &&& !w.preface_sent ==> bytes.len() == 0 && starts_with(
                w.inner.codec.transmit(),
                b.settings.wire(),
            )
        }),
    decreases calls.len(),
{
    let wire = b.settings.wire();
    if calls.len() == 0 {
        assert(v.inner.codec.transmit() =~= wire);
        assert(wire.take(wire.len() as int) =~= wire);
    } else {
        let init = calls.drop_last();
        let mid = run(v, init);
        lemma_output(v, b, init);
        lemma_run(Seq::empty(), v, init);
        lemma_output_grows(mid, calls.last());
        let bytes = output(v, init);
        let t = about_to_hand_out(mid).inner.codec.transmit();
        reveal(handed_out);
        if calls.last() is PollTransmit {
            if mid.preface_sent {
                lemma_frames_behind(bytes, t, b);
                assert(Seq::<u8>::empty() + t =~= t);
            } else {
                lemma_starts_with(wire, mid.inner.codec.transmit(), t);
                let all = PREFACE@ + t;
                assert(bytes + all =~= all);
                assert(all.take(PREFACE@.len() as int) =~= PREFACE@);
                assert(all.skip(PREFACE@.len() as int) =~= t);
            }
        } else {
            assert(bytes + Seq::<u8>::empty() =~= bytes);
            if !mid.preface_sent {
                lemma_starts_with(
                    wire,
                    mid.inner.codec.transmit(),
                    run(v, calls).inner.codec.transmit(),
                );
            }
        }
    }
}

proof fn lemma_frames_behind(bytes: Seq<u8>, t: Seq<u8>, b: Builder)
    requires
        is_preface_then_frames(bytes, b),
        is_frames(t),
    ensures
        is_preface_then_frames(bytes + t, b),
{
    let n = PREFACE@.len() as int;
    let wire = b.settings.wire();
    lemma_frames_concat(bytes.skip(n), t);
    assert((bytes + t).skip(n) =~= bytes.skip(n) + t);
    assert((bytes + t).take(n) =~= bytes.take(n));
    assert((bytes.skip(n) + t).take(wire.len() as int) =~= bytes.skip(n).take(wire.len() as int));
}

proof fn lemma_output_grows(v: ConnectionView, call: Call)
    requires
        in_order(v),
    ensures
        ({
            let w = after(v, call);
            let t = v.inner.codec.transmit();
            &&& call is PollTransmit ==> {
                &&& w.preface_sent
                &&& is_frames(about_to_hand_out(v).inner.codec.transmit())
                &&& starts_with(about_to_hand_out(v).inner.codec.transmit(), t)
            }
            &&& !(call is PollTransmit) ==> {
                &&& w.preface_sent == v.preface_sent
                &&& starts_with(w.inner.codec.transmit(), t)
            }
        }),
{
    reveal(after);
    let t = v.inner.codec.transmit();
    assert(t.take(t.len() as int) =~= t);
    assert(is_going(v.inner) && v.inner.streams.m.side == Side::Client && v.closed == (
    v.inner.streams.m.closed is Some) && has_exchanges(v.exchanges, v.inner.streams)) by {
        reveal(in_order);
    }
    match call {
        Call::PollTransmit => {
            lemma_driving(ConnectionView { preface_sent: true, ..v });
            assert(is_frames(about_to_hand_out(v).inner.codec.transmit())) by {
                reveal(in_order);
            }
        },
        Call::Recv(src) => {
            let a = ConnectionView { inner: received(v.inner, src), ..v };
            assert(is_going(a.inner));
            lemma_driving(a);
            assert(a.inner.codec.transmit() == t);
        },
        Call::PollEvent => {
            lemma_driving(v);
            let a = drive_of(v);
            lemma_pumping(Seq::empty(), a, 0);
            lemma_reaping(Seq::empty(), pump_from(a, 0), 0);
        },
        Call::SendRequest(_, _) => {},
        _ => {
            lemma_call_goes_on(v, call);
        },
    }
}

/// The events of a stream come in order, over all calls: one head, parts of the body and
/// one end, or as much of that as has come; or an end alone, which is a reset. What
/// [`follows`] says of the events of one response holds of all events on its stream that
/// are ever handed out.
pub proof fn law_events_over_all_calls(
    v: ConnectionView,
    b: Builder,
    calls: Seq<Call>,
    id: StreamId,
)
    requires
        b.wf(),
        is_new(v, b),
    ensures
        follows(Phase::Head, about(history(v, calls), id)) is Some,
{
    lemma_new_in_order(v, b);
    let none = Seq::<EventView>::empty();
    assert(is_told(none, v)) by {
        reveal(tells);
        assert(none + v.events =~= none);
    }
    lemma_run(none, v, calls);
    let h = history(v, calls);
    let w = run(v, calls);
    assert(none + h =~= h);
    lemma_about_concat(h, w.events, id);
    law_runs_of_events(Phase::Head, about(h, id), about(w.events, id));
    reveal(tells);
    let all = about(h + w.events, id);
    if !is_apart(w.exchanges, id) {
        let k = choose|k: int| 0 <= k < w.exchanges.len() && (#[trigger] w.exchanges[k]).id == id;
        assert(follows(Phase::Head, about(h + w.events, w.exchanges[k].id)) is Some);
    }
}

/// The end of a connection is handed out at most once, over all calls, and not before it
/// has ended.
pub proof fn law_end_over_all_calls(v: ConnectionView, b: Builder, calls: Seq<Call>)
    requires
        b.wf(),
        is_new(v, b),
    ensures
        ends_in(history(v, calls)) <= 1,
        !run(v, calls).closed ==> ends_in(history(v, calls)) == 0,
{
    lemma_ends(v, b, calls);
}

proof fn lemma_ends_step(v: ConnectionView, call: Call)
    requires
        !v.closed ==> ends_in(v.events) == 0,
    ensures
        ({
            let w = after(v, call);
            &&& v.closed ==> w.closed
            &&& ends_in(told(v, call)) + ends_in(w.events) <= ends_in(v.events) + if w.closed
                && !v.closed {
                1nat
            } else {
                0
            }
        }),
{
    reveal(after);
    reveal(told);
    law_end_is_told_once(v);
    let t = told(v, call);
    reveal_with_fuel(ends_in, 2);
    assert(ends_in(Seq::<EventView>::empty()) == 0);
    if t.len() > 0 {
        assert(t.drop_last() =~= Seq::<EventView>::empty());
    }
    match call {
        Call::Recv(src) => {
            law_end_is_told_once(ConnectionView { inner: received(v.inner, src), ..v });
        },
        Call::PollTransmit => {
            law_end_is_told_once(ConnectionView { preface_sent: true, ..v });
        },
        _ => {},
    }
}

proof fn lemma_ends(v: ConnectionView, b: Builder, calls: Seq<Call>)
    requires
        b.wf(),
        is_new(v, b),
    ensures
        ({
            let w = run(v, calls);
            ends_in(history(v, calls)) + ends_in(w.events) <= if w.closed {
                1nat
            } else {
                0
            }
        }),
    decreases calls.len(),
{
    if calls.len() > 0 {
        let init = calls.drop_last();
        let mid = run(v, init);
        lemma_ends(v, b, init);
        lemma_ends_concat(history(v, init), told(mid, calls.last()));
        lemma_ends_step(mid, calls.last());
    }
}

/// A call with which this side's message on a stream ends.
pub open spec fn ends_message(v: ConnectionView, call: Call, id: StreamId) -> bool {
    let c = v.inner.streams;
    match call {
        Call::SendRequest(request, last) => match request_sent(v, request, last) {
            Ok((_, new)) => last && new == id,
            Err(_) => false,
        },
        Call::SendData(on, part, last) => last && on == id && data_sent(c, on, part, last) is Ok,
        Call::SendTrailers(on, trailers) => on == id && trailers_sent(c, on, trailers) is Ok,
        _ => false,
    }
}

proof fn lemma_nothing_sent(
    w: ConnectionView,
    id: StreamId,
    data: Seq<u8>,
    end: bool,
    fields: Seq<FieldView>,
)
    requires
        is_ended(w.inner.streams, id),
    ensures
        data_sent(w.inner.streams, id, data, end) is Err,
        trailers_sent(w.inner.streams, id, fields) is Err,
        after(w, Call::SendData(id, data, end)) == w,
        after(w, Call::SendTrailers(id, fields)) == w,
{
    reveal(after);
    law_ended_means_no_sending(w.inner.streams, id, data, end, fields);
}

/// Once this side's message on a stream has ended, whether with the request, with a part
/// of the body or with trailers, sending on the stream is an error that changes nothing,
/// whatever was done with the connection before and whatever is done with it after.
pub proof fn law_no_sending_after_the_end(
    v: ConnectionView,
    call: Call,
    calls: Seq<Call>,
    id: StreamId,
    data: Seq<u8>,
    end: bool,
    fields: Seq<FieldView>,
)
    requires
        in_order(v),
        ends_message(v, call, id),
    ensures
        ({
            let w = run(after(v, call), calls);
            &&& data_sent(w.inner.streams, id, data, end) is Err
            &&& trailers_sent(w.inner.streams, id, fields) is Err
            &&& after(w, Call::SendData(id, data, end)) == w
            &&& after(w, Call::SendTrailers(id, fields)) == w
        }),
{
    lemma_steps(Seq::empty(), v, call);
    let z = after(v, call);
    lemma_end_ends(v, call, id);
    lemma_run(Seq::empty(), z, calls);
    let w = run(z, calls);
    assert(is_ended(w.inner.streams, id));
    lemma_nothing_sent(w, id, data, end, fields);
}

proof fn lemma_end_ends(v: ConnectionView, call: Call, id: StreamId)
    requires
        in_order(v),
        ends_message(v, call, id),
    ensures
        is_ended(after(v, call).inner.streams, id),
{
    reveal(in_order);
    reveal(after);
    let c = v.inner.streams;
    let none = Seq::<FieldView>::empty();
    match call {
        Call::SendRequest(request, last) => {
            let f = sent_request(
                StreamId { id: c.m.next_id },
                request,
                request.protocol,
                last,
            )->Ok_0;
            law_the_end_ends(c, id, Seq::empty(), none, f.block, request.method == HEAD@);
        },
        Call::SendData(_, part, _) => {
            law_the_end_ends(c, id, part, none, trailers_block(none), false);
        },
        Call::SendTrailers(_, trailers) => {
            law_the_end_ends(c, id, Seq::empty(), trailers, trailers_block(none), false);
        },
        _ => {},
    }
}

/// A reset is among the bytes that are handed out next: after an exchange on an open
/// stream was given up, the RST_STREAM frame with its reason is one of the frames that
/// the next call that hands out bytes hands out.
pub proof fn law_reset_is_handed_out(v: ConnectionView, id: StreamId, reason: Reason)
    requires
        in_order(v),
        !v.closed,
        find(v.inner.streams.streams, id) matches Some(i) && v.inner.streams.streams[i].st.opened
            && v.inner.streams.streams[i].st.cause is None
            && !v.inner.streams.streams[i].done(),
    ensures
        ({
            let w = after(v, Call::SendReset(id, reason));
            let bytes = handed_out(w, Call::PollTransmit);
            let frames = if v.preface_sent {
                bytes
            } else {
                bytes.skip(PREFACE@.len() as int)
            };
            is_among((Reset { stream_id: id, error_code: reason }).wire(), frames)
        }),
{
    reveal(in_order);
    reveal(after);
    reveal(handed_out);
    law_reset_goes_out(v.inner, id, reason);
    let w = after(v, Call::SendReset(id, reason));
    let t = about_to_hand_out(w).inner.codec.transmit();
    assert(w.inner == proto::ConnectionView {
        streams: given_up(v.inner.streams, id, reason),
        ..v.inner
    });
    assert(t == driven(w.inner).codec.transmit()) by {
        let none = Seq::<FieldView>::empty();
        lemma_calls_go_on(
            v.inner.streams,
            id,
            Seq::empty(),
            none,
            trailers_block(none),
            0,
            reason,
            0,
            false,
        );
    }
    assert(Seq::<u8>::empty() + t =~= t);
    assert((PREFACE@ + t).skip(PREFACE@.len() as int) =~= t);
}

/// Letting go of a stream on which the request has not ended is giving the exchange up,
/// with the reason CANCEL; letting go of any other changes nothing.
pub proof fn law_release_is_a_reset(v: ConnectionView, id: StreamId)
    ensures
        after(v, Call::Release(id)) == match find(v.inner.streams.streams, id) {
            Some(i) => if v.inner.streams.streams[i].st.send == Half::Closed {
                v
            } else {
                after(v, Call::SendReset(id, Reason::CANCEL))
            },
            None => v,
        },
{
    reveal(after);
    reveal(let_go);
    reveal(given_up);
}

/// The number of errors that a call to take bytes hands out.
#[verifier::opaque]
pub open spec fn fails(v: ConnectionView, call: Call) -> nat {
    match call {
        Call::Recv(src) => {
            let w = drive_of(ConnectionView { inner: received(v.inner, src), ..v });
            if w.close_err is Some {
                1
            } else {
                0
            }
        },
        _ => 0,
    }
}

/// The number of errors that a run of calls hands out as bytes are taken.
pub open spec fn failures(v: ConnectionView, calls: Seq<Call>) -> nat
    decreases calls.len(),
{
    if calls.len() == 0 {
        0
    } else {
        let init = calls.drop_last();
        failures(v, init) + fails(run(v, init), calls.last())
    }
}

/// Taking bytes fails at most once, over all calls, and not before the connection has
/// ended.
pub proof fn law_fails_once_over_all_calls(v: ConnectionView, b: Builder, calls: Seq<Call>)
    requires
        is_new(v, b),
    ensures
        failures(v, calls) <= 1,
        !run(v, calls).closed ==> failures(v, calls) == 0,
{
    lemma_failures(v, b, calls);
}

/// An error that is still to be handed out.
spec fn owed(v: ConnectionView) -> nat {
    if v.close_err is Some {
        1
    } else {
        0
    }
}

proof fn lemma_failures(v: ConnectionView, b: Builder, calls: Seq<Call>)
    requires
        is_new(v, b),
    ensures
        ({
            let w = run(v, calls);
            failures(v, calls) + owed(w) <= if w.closed {
                1nat
            } else {
                0
            }
        }),
    decreases calls.len(),
{
    if calls.len() > 0 {
        let init = calls.drop_last();
        lemma_failures(v, b, init);
        lemma_fails_step(run(v, init), calls.last());
    }
}

proof fn lemma_fails_step(v: ConnectionView, call: Call)
    requires
        error_means_closed(v),
    ensures
        ({
            let w = after(v, call);
            &&& v.closed ==> w.closed
            &&& fails(v, call) + owed(w) <= owed(v) + if w.closed && !v.closed {
                1nat
            } else {
                0
            }
        }),
{
    reveal(after);
    reveal(fails);
    if call is PollEvent {
        lemma_pump_errors(drive_of(v), 0);
        lemma_pump_errors(pump_from(drive_of(v), 0), 0);
    }
}

} // verus!
