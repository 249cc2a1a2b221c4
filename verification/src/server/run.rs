//! What holds of a server connection over all calls.

use crate::codec::UserError;
use crate::frame::control::Reset;
use crate::frame::{Reason, StreamId};
use crate::hpack::field::FieldView;
use crate::message::ResponseView;
use crate::proto;
use crate::proto::closed::{
    is_ended, is_numbered, law_ended_means_no_sending, law_the_end_ends, leads_to,
};
use crate::proto::connection::{driven, reads_on, with_target};
use crate::proto::control::leave_asked;
use crate::proto::kept::{
    goes_on, is_among, is_going, is_kept, law_reset_goes_out, lemma_accepting, lemma_calls_go_on,
    lemma_driving_keeps, lemma_pumping_goes_on, lemma_reading_goes_on, lemma_target_goes_on,
};
use crate::proto::laws::{lemma_starts_with, starts_with};
use crate::proto::output::{has_controls, is_frames, lemma_frames_concat, lemma_settings_frame};
use crate::proto::pump::{accepted, at_end_of};
use crate::proto::streams::{find, is_local, Side, StreamsView};
use crate::proto::user::{
    data_sent, forgotten, given_up, response_queued, time_told, trailers_block, trailers_sent,
};
use crate::server::laws::{
    ends_in, follows, law_end_is_told_once, law_request_events_follow, law_runs_of_events,
    lemma_ends_concat,
};
use crate::server::peer::sent_response;
use crate::server::{
    accept_all, answered, drive_of, event_of, exchange_at, exchange_pumped, is_new, pump_from,
    pump_of, reap_from, stream_reset, taken_in, with_streams, without_error, Builder,
    ConnectionView, EventView, Exchange, Phase,
};
use vstd::prelude::*;

verus! {

/// Something that is done with a server connection.
pub enum Call {
    Recv(Seq<u8>),
    PollTransmit,
    PollEvent,
    SendResponse(StreamId, ResponseView, bool),
    SendData(StreamId, Seq<u8>, bool),
    SendTrailers(StreamId, Seq<FieldView>),
    ResetStream(StreamId, Reason),
    SetTime(u64),
    SetTargetWindowSize(u32),
    GoAway,
}

/// What sending the head of a response does to the streams, or why it is not sent.
pub open spec fn response_sent(
    c: StreamsView,
    id: StreamId,
    response: ResponseView,
    end: bool,
) -> Result<StreamsView, UserError> {
    if response.wf() {
        response_queued(c, id, sent_response(id, response, end).block, end)
    } else {
        Err(UserError::MalformedHeaders)
    }
}

/// What a call that sends something on a stream sends, and whether the answer ends with
/// it; or why it is not sent.
pub open spec fn sending(v: ConnectionView, call: Call) -> Result<ConnectionView, UserError> {
    let c = v.inner.streams;
    match call {
        Call::SendResponse(id, response, end) => answered(
            v,
            id,
            response_sent(c, id, response, end),
            end,
        ),
        Call::SendData(id, data, end) => answered(v, id, data_sent(c, id, data, end), end),
        Call::SendTrailers(id, fields) => answered(v, id, trailers_sent(c, id, fields), true),
        _ => Err(UserError::InactiveStreamId),
    }
}

/// A connection after a call.
#[verifier::opaque]
pub open spec fn after(v: ConnectionView, call: Call) -> ConnectionView {
    let c = v.inner.streams;
    match call {
        Call::Recv(src) => match taken_in(v, src) {
            None => ConnectionView { closed: true, ..v },
            Some(w) => without_error(drive_of(w)),
        },
        Call::PollTransmit => {
            let d = drive_of(v);
            ConnectionView {
                inner: proto::ConnectionView { codec: d.inner.codec.sent(), ..d.inner },
                ..d
            }
        },
        Call::PollEvent => event_of(v).0,
        Call::ResetStream(id, reason) => stream_reset(v, id, reason),
        Call::SetTime(now) => with_streams(v, time_told(c, now)),
        Call::SetTargetWindowSize(size) => ConnectionView {
            inner: with_target(v.inner, size),
            ..v
        },
        Call::GoAway => with_streams(v, leave_asked(c)),
        _ => match sending(v, call) {
            Ok(w) => w,
            Err(_) => v,
        },
    }
}

/// The bytes that a call hands out.
#[verifier::opaque]
pub open spec fn handed_out(v: ConnectionView, call: Call) -> Seq<u8> {
    match call {
        Call::PollTransmit => drive_of(v).inner.codec.transmit(),
        _ => Seq::empty(),
    }
}

/// The event that a call hands out, if it does.
#[verifier::opaque]
pub open spec fn told(v: ConnectionView, call: Call) -> Seq<EventView> {
    match call {
        Call::PollEvent => match event_of(v).1 {
            Some(e) => seq![e],
            None => Seq::empty(),
        },
        _ => Seq::empty(),
    }
}

/// A connection after a run of calls.
pub open spec fn run(v: ConnectionView, calls: Seq<Call>) -> ConnectionView
    decreases calls.len(),
{
    if calls.len() == 0 {
        v
    } else {
        after(run(v, calls.drop_last()), calls.last())
    }
}

/// All bytes that a run of calls hands out.
pub open spec fn output(v: ConnectionView, calls: Seq<Call>) -> Seq<u8>
    decreases calls.len(),
{
    if calls.len() == 0 {
        Seq::empty()
    } else {
        let init = calls.drop_last();
        output(v, init) + handed_out(run(v, init), calls.last())
    }
}

/// All events that a run of calls hands out.
pub open spec fn history(v: ConnectionView, calls: Seq<Call>) -> Seq<EventView>
    decreases calls.len(),
{
    if calls.len() == 0 {
        Seq::empty()
    } else {
        let init = calls.drop_last();
        history(v, init) + told(run(v, init), calls.last())
    }
}

/// No exchange is on this stream.
pub open spec fn is_apart(exchanges: Seq<Exchange>, id: StreamId) -> bool {
    forall|k: int| 0 <= k < exchanges.len() ==> (#[trigger] exchanges[k]).id != id
}

/// Exchanges on streams that the peer opened, each on one of its own, and none on one
/// whose request still waits to be accepted.
pub open spec fn has_exchanges(exchanges: Seq<Exchange>, c: StreamsView) -> bool {
    &&& forall|k: int|
        0 <= k < exchanges.len() ==> !is_local(c.m.side, (#[trigger] exchanges[k]).id)
            && exchanges[k].id.id <= c.m.last_remote
    &&& forall|k: int, n: int|
        0 <= k < n < exchanges.len() ==> (#[trigger] exchanges[k]).id != (
        #[trigger] exchanges[n]).id
    &&& forall|k: int|
        0 <= k < c.accept.len() ==> is_apart(exchanges, (#[trigger] c.accept[k]).id)
}

/// What holds of a server connection before it is driven.
pub open spec fn is_ready(v: ConnectionView) -> bool {
    &&& is_going(v.inner)
    &&& v.inner.streams.m.side == Side::Server
    &&& !v.closed ==> reads_on(v.inner)
    &&& has_exchanges(v.exchanges, v.inner.streams)
}

/// What always holds of a server connection between two calls.
#[verifier::opaque]
pub open spec fn in_order(v: ConnectionView) -> bool {
    is_ready(v) && (!v.closed ==> is_kept(v.inner))
}

/// A connection that is just made is in order.
pub proof fn lemma_new_in_order(v: ConnectionView, b: Builder)
    requires
        b.wf(),
        is_new(v, b),
    ensures
        in_order(v),
{
    reveal(in_order);
    assert(v.inner.codec.transmit() =~= b.settings.wire());
    lemma_settings_frame(b.settings);
    assert(v.inner.codec.read.buffer.len() == 0);
}

proof fn lemma_exchanges_later(exchanges: Seq<Exchange>, c: StreamsView, d: StreamsView)
    requires
        has_exchanges(exchanges, c),
        leads_to(c, d),
    ensures
        has_exchanges(exchanges, d),
{
    assert forall|k: int| 0 <= k < d.accept.len() implies is_apart(
        exchanges,
        (#[trigger] d.accept[k]).id,
    ) by {
        if k < c.accept.len() {
            assert(d.accept[k] == c.accept[k]);
        }
    }
}

proof fn lemma_driving(v: ConnectionView)
    requires
        is_ready(v),
    ensures
        in_order(drive_of(v)),
        leads_to(v.inner.streams, drive_of(v).inner.streams),
        starts_with(drive_of(v).inner.codec.transmit(), v.inner.codec.transmit()),
{
    reveal(in_order);
    lemma_driving_keeps(v.inner);
    lemma_reading_goes_on(v.inner.streams, StreamId { id: 0 });
    let t = v.inner.codec.transmit();
    assert(t.take(t.len() as int) =~= t);
    lemma_exchanges_later(v.exchanges, v.inner.streams, drive_of(v).inner.streams);
}

proof fn lemma_went_on(v: ConnectionView, streams: StreamsView)
    requires
        in_order(v),
        goes_on(v.inner.streams, streams),
    ensures
        in_order(with_streams(v, streams)),
{
    reveal(in_order);
    lemma_exchanges_later(v.exchanges, v.inner.streams, streams);
}

proof fn lemma_exchange_goes_on(c: StreamsView, x: Exchange)
    requires
        is_numbered(c),
        has_controls(c),
    ensures
        goes_on(c, exchange_pumped(c, x).0),
{
    lemma_reading_goes_on(c, x.id);
    lemma_pumping_goes_on(c, x.id);
}

/// A connection after the request that waits first was accepted.
spec fn accepted_first(v: ConnectionView) -> ConnectionView {
    let c = v.inner.streams;
    let id = c.accept[0].id;
    let next = accepted(c);
    let end = at_end_of(next, id);
    let phase = if end {
        Phase::Done
    } else {
        Phase::Body
    };
    ConnectionView {
        events: v.events.push(EventView::Request(id, c.accept[0].request, end)),
        exchanges: v.exchanges.push(Exchange { id, phase, send_done: false }),
        ..with_streams(v, next)
    }
}

/// A connection after the request at `i` was handed out as far as it goes.
spec fn pumped_at(v: ConnectionView, i: int) -> ConnectionView {
    let x = v.exchanges[i];
    let (streams, phase, events) = exchange_pumped(v.inner.streams, x);
    ConnectionView {
        exchanges: v.exchanges.update(i, Exchange { phase, ..x }),
        events: v.events + events,
        ..with_streams(v, streams)
    }
}

/// A connection after the request at `i` was forgotten.
spec fn reaped_at(v: ConnectionView, i: int) -> ConnectionView {
    ConnectionView {
        exchanges: v.exchanges.remove(i),
        ..with_streams(v, forgotten(v.inner.streams, v.exchanges[i].id))
    }
}

/// How what is below goes on as requests are handed out.
spec fn same_below(v: ConnectionView, w: ConnectionView) -> bool {
    &&& w.inner.codec == v.inner.codec
    &&& w.inner.streams.m.next_id == v.inner.streams.m.next_id
    &&& forall|id: StreamId|
        #[trigger] is_ended(v.inner.streams, id) ==> is_ended(w.inner.streams, id)
}

proof fn lemma_same_below_trans(a: ConnectionView, b: ConnectionView, c: ConnectionView)
    requires
        same_below(a, b),
        same_below(b, c),
    ensures
        same_below(a, c),
{
    assert forall|id: StreamId| #[trigger] is_ended(a.inner.streams, id) implies is_ended(
        c.inner.streams,
        id,
    ) by {
        assert(is_ended(b.inner.streams, id));
    }
}

proof fn lemma_accepted_first(v: ConnectionView)
    requires
        in_order(v),
        v.inner.streams.accept.len() > 0,
    ensures
        in_order(accepted_first(v)),
        same_below(v, accepted_first(v)),
{
    reveal(in_order);
    let c = v.inner.streams;
    let w = accepted_first(v);
    let d = w.inner.streams;
    lemma_accepting(c);
    let id = c.accept[0].id;
    assert(is_apart(v.exchanges, c.accept[0].id));
    assert forall|k: int, n: int| 0 <= k < n < w.exchanges.len() implies (
    #[trigger] w.exchanges[k]).id != (#[trigger] w.exchanges[n]).id by {
        assert(w.exchanges[k] == v.exchanges[k]);
        if n < v.exchanges.len() {
            assert(v.exchanges[k].id != v.exchanges[n].id);
        }
    }
    assert forall|k: int| 0 <= k < d.accept.len() implies is_apart(
        w.exchanges,
        (#[trigger] d.accept[k]).id,
    ) by {
        assert(d.accept[k] == c.accept[k + 1]);
        assert(is_apart(v.exchanges, c.accept[k + 1].id));
        assert(c.accept[0].id.id < c.accept[k + 1].id.id);
    }
}

proof fn lemma_pumped_at(v: ConnectionView, i: int)
    requires
        in_order(v),
        0 <= i < v.exchanges.len(),
    ensures
        in_order(pumped_at(v, i)),
        same_below(v, pumped_at(v, i)),
        goes_on(v.inner.streams, pumped_at(v, i).inner.streams),
{
    reveal(in_order);
    let x = v.exchanges[i];
    lemma_exchange_goes_on(v.inner.streams, x);
    let w = pumped_at(v, i);
    lemma_changed_exchange(v.exchanges, w.exchanges, v.inner.streams, w.inner.streams);
}

proof fn lemma_changed_exchange(
    a: Seq<Exchange>,
    b: Seq<Exchange>,
    c: StreamsView,
    d: StreamsView,
)
    requires
        has_exchanges(a, c),
        goes_on(c, d),
        b.len() == a.len(),
        forall|k: int| 0 <= k < a.len() ==> (#[trigger] b[k]).id == a[k].id,
    ensures
        has_exchanges(b, d),
{
    assert forall|k: int, n: int| 0 <= k < n < b.len() implies (#[trigger] b[k]).id != (
    #[trigger] b[n]).id by {
        assert(a[k].id != a[n].id);
    }
    assert forall|k: int| 0 <= k < d.accept.len() implies is_apart(
        b,
        (#[trigger] d.accept[k]).id,
    ) by {
        assert(is_apart(a, c.accept[k].id));
    }
}

proof fn lemma_reaped_at(v: ConnectionView, i: int)
    requires
        in_order(v),
        0 <= i < v.exchanges.len(),
    ensures
        in_order(reaped_at(v, i)),
        same_below(v, reaped_at(v, i)),
        goes_on(v.inner.streams, reaped_at(v, i).inner.streams),
{
    reveal(in_order);
    lemma_reading_goes_on(v.inner.streams, v.exchanges[i].id);
    let w = reaped_at(v, i);
    let d = w.inner.streams;
    assert forall|k: int| 0 <= k < w.exchanges.len() implies !is_local(
        d.m.side,
        (#[trigger] w.exchanges[k]).id,
    ) && w.exchanges[k].id.id <= d.m.last_remote by {
        assert(w.exchanges[k] == v.exchanges[if k < i {
            k
        } else {
            k + 1
        }]);
    }
    assert forall|k: int, n: int| 0 <= k < n < w.exchanges.len() implies (
    #[trigger] w.exchanges[k]).id != (#[trigger] w.exchanges[n]).id by {
        let a = if k < i {
            k
        } else {
            k + 1
        };
        let b = if n < i {
            n
        } else {
            n + 1
        };
        assert(v.exchanges[a].id != v.exchanges[b].id);
    }
    assert forall|k: int| 0 <= k < d.accept.len() implies is_apart(
        w.exchanges,
        (#[trigger] d.accept[k]).id,
    ) by {
        assert(is_apart(v.exchanges, v.inner.streams.accept[k].id));
    }
}

/// An event on this stream.
pub open spec fn concerns(e: EventView, id: StreamId) -> bool {
    match e {
        EventView::Request(at, _, _) => at == id,
        EventView::Body(at, _) => at == id,
        EventView::GoAway => false,
    }
}

/// The events on this stream.
pub open spec fn about(events: Seq<EventView>, id: StreamId) -> Seq<EventView>
    decreases events.len(),
{
    if events.len() == 0 {
        Seq::empty()
    } else {
        let init = about(events.drop_last(), id);
        if concerns(events.last(), id) {
            init.push(events.last())
        } else {
            init
        }
    }
}

/// The events on a stream of two runs are those of the first and those of the second.
pub proof fn lemma_about_concat(a: Seq<EventView>, b: Seq<EventView>, id: StreamId)
    ensures
        about(a + b, id) == about(a, id) + about(b, id),
    decreases b.len(),
{
    if b.len() == 0 {
        assert(a + b =~= a);
        assert(about(a, id) + about(b, id) =~= about(a, id));
    } else {
        assert((a + b).drop_last() =~= a + b.drop_last());
        lemma_about_concat(a, b.drop_last(), id);
        assert(about(a + b, id) =~= about(a, id) + about(b, id));
    }
}

proof fn lemma_about_one(events: Seq<EventView>, at: StreamId, id: StreamId)
    requires
        forall|i: int| 0 <= i < events.len() ==> concerns(#[trigger] events[i], at),
    ensures
        about(events, id) == if id == at {
            events
        } else {
            Seq::empty()
        },
    decreases events.len(),
{
    if events.len() > 0 {
        let init = events.drop_last();
        assert forall|i: int| 0 <= i < init.len() implies concerns(#[trigger] init[i], at) by {
            assert(init[i] == events[i]);
        }
        lemma_about_one(init, at, id);
        assert(concerns(events[events.len() - 1], at));
        assert(init.push(events.last()) =~= events);
    } else {
        assert(about(events, id) =~= events);
    }
}

/// How far a request is once a run of events was handed out that begins with its head, if
/// they can come in this order.
pub open spec fn follows_head(events: Seq<EventView>) -> Option<Phase> {
    if events.len() == 0 {
        None
    } else {
        match events[0] {
            EventView::Request(_, _, end) => follows(
                if end {
                    Phase::Done
                } else {
                    Phase::Body
                },
                events.skip(1),
            ),
            _ => None,
        }
    }
}

proof fn lemma_follows_head(a: Seq<EventView>, b: Seq<EventView>)
    requires
        a.len() > 0,
    ensures
        follows_head(a + b) == match follows_head(a) {
            None => None::<Phase>,
            Some(next) => follows(next, b),
        },
{
    assert((a + b).skip(1) =~= a.skip(1) + b);
    if let EventView::Request(_, _, end) = a[0] {
        law_runs_of_events(
            if end {
                Phase::Done
            } else {
                Phase::Body
            },
            a.skip(1),
            b,
        );
    }
}

/// All events that there were so far are in order: those on a stream with an exchange have
/// come to the phase that is noted, those on one without to the end, and there are none on
/// a stream that is still to be opened or whose request still waits.
#[verifier::opaque]
spec fn tells(all: Seq<EventView>, exchanges: Seq<Exchange>, c: StreamsView) -> bool {
    &&& forall|k: int|
        0 <= k < exchanges.len() ==> follows_head(about(all, (#[trigger] exchanges[k]).id)) == Some(
            exchanges[k].phase,
        )
    &&& forall|id: StreamId| c.is_idle(id) ==> (#[trigger] about(all, id)).len() == 0
    &&& forall|k: int|
        0 <= k < c.accept.len() ==> about(all, (#[trigger] c.accept[k]).id).len() == 0
    &&& forall|id: StreamId|
        is_apart(exchanges, id) ==> (#[trigger] about(all, id)).len() == 0 || follows_head(
            about(all, id),
        ) == Some(Phase::Done)
}

/// All events are in order: those that were handed out, and those that are not yet.
spec fn is_told(h: Seq<EventView>, v: ConnectionView) -> bool {
    tells(h + v.events, v.exchanges, v.inner.streams)
}

proof fn lemma_tells_later(
    all: Seq<EventView>,
    exchanges: Seq<Exchange>,
    c: StreamsView,
    d: StreamsView,
)
    requires
        tells(all, exchanges, c),
        leads_to(c, d),
    ensures
        tells(all, exchanges, d),
{
    reveal(tells);
    assert forall|id: StreamId| d.is_idle(id) implies (#[trigger] about(all, id)).len() == 0 by {
        assert(c.is_idle(id));
    }
    assert forall|k: int| 0 <= k < d.accept.len() implies about(
        all,
        (#[trigger] d.accept[k]).id,
    ).len() == 0 by {
        if k < c.accept.len() {
            assert(d.accept[k] == c.accept[k]);
        } else {
            assert(c.is_idle(d.accept[k].id));
        }
    }
}

proof fn lemma_tells_of_none(
    all: Seq<EventView>,
    e: EventView,
    exchanges: Seq<Exchange>,
    c: StreamsView,
)
    requires
        tells(all, exchanges, c),
        e is GoAway,
    ensures
        tells(all.push(e), exchanges, c),
{
    reveal(tells);
    assert forall|id: StreamId| #[trigger] about(all.push(e), id) == about(all, id) by {
        assert(all.push(e).drop_last() =~= all);
    }
}

proof fn lemma_tells_accepted(all: Seq<EventView>, v: ConnectionView)
    requires
        in_order(v),
        v.inner.streams.accept.len() > 0,
        tells(all, v.exchanges, v.inner.streams),
    ensures
        ({
            let w = accepted_first(v);
            tells(all.push(w.events.last()), w.exchanges, w.inner.streams)
        }),
{
    reveal(in_order);
    reveal(tells);
    let c = v.inner.streams;
    let w = accepted_first(v);
    let d = w.inner.streams;
    lemma_accepting(c);
    let id = c.accept[0].id;
    let e = w.events.last();
    let more = all.push(e);
    assert(more.drop_last() =~= all);
    assert(about(all, c.accept[0].id).len() == 0);
    assert(about(more, id) =~= seq![e]);
    assert(seq![e].skip(1).len() == 0);
    assert(follows_head(about(more, id)) == Some(w.exchanges.last().phase));
    assert forall|other: StreamId| other != id implies #[trigger] about(more, other) == about(
        all,
        other,
    ) by {}
    assert(is_apart(v.exchanges, c.accept[0].id));
    assert forall|k: int| 0 <= k < w.exchanges.len() implies follows_head(
        about(more, (#[trigger] w.exchanges[k]).id),
    ) == Some(w.exchanges[k].phase) by {
        if k < v.exchanges.len() {
            assert(w.exchanges[k] == v.exchanges[k]);
        }
    }
    assert forall|other: StreamId| d.is_idle(other) implies (
    #[trigger] about(more, other)).len() == 0 by {
        assert(c.is_idle(other));
    }
    assert forall|k: int| 0 <= k < d.accept.len() implies about(
        more,
        (#[trigger] d.accept[k]).id,
    ).len() == 0 by {
        assert(d.accept[k] == c.accept[k + 1]);
        assert(c.accept[0].id.id < c.accept[k + 1].id.id);
    }
    assert forall|other: StreamId| is_apart(w.exchanges, other) implies (
    #[trigger] about(more, other)).len() == 0 || follows_head(about(more, other)) == Some(
        Phase::Done,
    ) by {
        assert(w.exchanges[v.exchanges.len() as int].id == id);
        assert(is_apart(v.exchanges, other)) by {
            assert forall|k: int| 0 <= k < v.exchanges.len() implies (
            #[trigger] v.exchanges[k]).id != other by {
                assert(w.exchanges[k] == v.exchanges[k]);
            }
        }
    }
}

proof fn lemma_tells_pumped(all: Seq<EventView>, v: ConnectionView, i: int)
    requires
        in_order(v),
        0 <= i < v.exchanges.len(),
        tells(all, v.exchanges, v.inner.streams),
    ensures
        ({
            let events = exchange_pumped(v.inner.streams, v.exchanges[i]).2;
            let w = pumped_at(v, i);
            tells(all + events, w.exchanges, w.inner.streams)
        }),
{
    lemma_pumped_at(v, i);
    reveal(in_order);
    reveal(tells);
    let x = v.exchanges[i];
    let (streams, phase, events) = exchange_pumped(v.inner.streams, x);
    let w = pumped_at(v, i);
    law_request_events_follow(v.inner.streams, x);
    assert forall|id: StreamId| #[trigger] about(all + events, id) == about(all, id) + (if id
        == x.id {
        events
    } else {
        Seq::empty()
    }) by {
        lemma_about_concat(all, events, id);
        lemma_about_one(events, x.id, id);
    }
    assert forall|id: StreamId| id != x.id implies #[trigger] about(all + events, id) == about(
        all,
        id,
    ) by {
        assert(about(all, id) + Seq::<EventView>::empty() =~= about(all, id));
    }
    assert(follows_head(about(all, v.exchanges[i].id)) == Some(x.phase));
    lemma_follows_head(about(all, x.id), events);
    assert forall|k: int| 0 <= k < w.exchanges.len() implies follows_head(
        about(all + events, (#[trigger] w.exchanges[k]).id),
    ) == Some(w.exchanges[k].phase) by {
        assert(w.exchanges[k].id == v.exchanges[k].id);
        if k < i {
            assert(v.exchanges[k].id != v.exchanges[i].id);
        } else if k > i {
            assert(v.exchanges[i].id != v.exchanges[k].id);
        }
    }
    assert(w.exchanges[i].id == x.id);
    assert forall|id: StreamId| w.inner.streams.is_idle(id) implies (
    #[trigger] about(all + events, id)).len() == 0 by {
        assert(v.inner.streams.is_idle(id));
        assert(!v.inner.streams.is_idle(x.id));
    }
    let c = v.inner.streams;
    assert forall|k: int| 0 <= k < w.inner.streams.accept.len() implies about(
        all + events,
        (#[trigger] w.inner.streams.accept[k]).id,
    ).len() == 0 by {
        assert(is_apart(v.exchanges, c.accept[k].id));
    }
    assert forall|id: StreamId| is_apart(w.exchanges, id) implies (
    #[trigger] about(all + events, id)).len() == 0 || follows_head(about(all + events, id)) == Some(
        Phase::Done,
    ) by {
        assert(id != x.id);
        assert(is_apart(v.exchanges, id)) by {
            assert forall|k: int| 0 <= k < v.exchanges.len() implies (
            #[trigger] v.exchanges[k]).id != id by {
                assert(w.exchanges[k].id == v.exchanges[k].id);
            }
        }
    }
}

proof fn lemma_tells_reaped(all: Seq<EventView>, v: ConnectionView, i: int)
    requires
        in_order(v),
        0 <= i < v.exchanges.len(),
        v.exchanges[i].phase == Phase::Done,
        tells(all, v.exchanges, v.inner.streams),
    ensures
        ({
            let w = reaped_at(v, i);
            tells(all, w.exchanges, w.inner.streams)
        }),
{
    let w = reaped_at(v, i);
    lemma_reaped_at(v, i);
    lemma_tells_later(all, v.exchanges, v.inner.streams, w.inner.streams);
    reveal(tells);
    assert forall|k: int| 0 <= k < w.exchanges.len() implies follows_head(
        about(all, (#[trigger] w.exchanges[k]).id),
    ) == Some(w.exchanges[k].phase) by {
        assert(w.exchanges[k] == v.exchanges[if k < i {
            k
        } else {
            k + 1
        }]);
    }
    assert forall|id: StreamId| is_apart(w.exchanges, id) implies (
    #[trigger] about(all, id)).len() == 0 || follows_head(about(all, id)) == Some(Phase::Done) by {
        if id != v.exchanges[i].id {
            assert(is_apart(v.exchanges, id)) by {
                assert forall|k: int| 0 <= k < v.exchanges.len() implies (
                #[trigger] v.exchanges[k]).id != id by {
                    if k < i {
                        assert(w.exchanges[k].id == v.exchanges[k].id);
                    } else if k > i {
                        assert(w.exchanges[k - 1].id == v.exchanges[k].id);
                    }
                }
            }
        }
    }
}

proof fn lemma_tells_noted(
    all: Seq<EventView>,
    a: Seq<Exchange>,
    b: Seq<Exchange>,
    c: StreamsView,
)
    requires
        tells(all, a, c),
        b.len() == a.len(),
        forall|k: int|
            0 <= k < a.len() ==> (#[trigger] b[k]).id == a[k].id && b[k].phase == a[k].phase,
    ensures
        tells(all, b, c),
{
    reveal(tells);
    assert forall|id: StreamId| is_apart(b, id) implies (#[trigger] about(all, id)).len() == 0
        || follows_head(about(all, id)) == Some(Phase::Done) by {
        assert(is_apart(a, id)) by {
            assert forall|k: int| 0 <= k < a.len() implies (#[trigger] a[k]).id != id by {
                assert(b[k].id == a[k].id);
            }
        }
    }
    assert forall|k: int| 0 <= k < b.len() implies follows_head(
        about(all, (#[trigger] b[k]).id),
    ) == Some(b[k].phase) by {
        assert(b[k].id == a[k].id);
    }
}

proof fn lemma_accept_all(h: Seq<EventView>, v: ConnectionView)
    requires
        in_order(v),
    ensures
        ({
            let w = accept_all(v);
            &&& in_order(w)
            &&& same_below(v, w)
            &&& is_told(h, v) ==> is_told(h, w)
        }),
    decreases v.inner.streams.accept.len(),
{
    let c = v.inner.streams;
    if c.accept.len() > 0 {
        let next = accepted_first(v);
        lemma_accepted_first(v);
        if is_told(h, v) {
            lemma_tells_accepted(h + v.events, v);
            assert((h + v.events).push(next.events.last()) =~= h + next.events);
        }
        reveal(accepted);
        lemma_accept_all(h, next);
        lemma_same_below_trans(v, next, accept_all(next));
    }
}

proof fn lemma_pumping(h: Seq<EventView>, v: ConnectionView, i: nat)
    requires
        in_order(v),
    ensures
        ({
            let w = pump_from(v, i);
            &&& in_order(w)
            &&& same_below(v, w)
            &&& is_told(h, v) ==> is_told(h, w)
        }),
    decreases v.exchanges.len() - i,
{
    if i < v.exchanges.len() {
        let next = pumped_at(v, i as int);
        let events = exchange_pumped(v.inner.streams, v.exchanges[i as int]).2;
        lemma_pumped_at(v, i as int);
        if is_told(h, v) {
            lemma_tells_pumped(h + v.events, v, i as int);
        }
        assert(h + v.events + events =~= h + (v.events + events));
        lemma_pumping(h, next, i + 1);
        lemma_same_below_trans(v, next, pump_from(next, i + 1));
    }
}

proof fn lemma_reaping(h: Seq<EventView>, v: ConnectionView, i: nat)
    requires
        in_order(v),
    ensures
        ({
            let w = reap_from(v, i);
            &&& in_order(w)
            &&& same_below(v, w)
            &&& is_told(h, v) ==> is_told(h, w)
        }),
    decreases v.exchanges.len() - i,
{
    if i < v.exchanges.len() {
        let x = v.exchanges[i as int];
        if x.send_done && x.phase == Phase::Done {
            let next = reaped_at(v, i as int);
            lemma_reaped_at(v, i as int);
            if is_told(h, v) {
                lemma_tells_reaped(h + v.events, v, i as int);
            }
            lemma_reaping(h, next, i);
            lemma_same_below_trans(v, next, reap_from(next, i));
        } else {
            lemma_reaping(h, v, i + 1);
        }
    }
}

/// What one call does to what always holds, `h` being the events that were handed out.
spec fn steps(h: Seq<EventView>, v: ConnectionView, call: Call) -> bool {
    let w = after(v, call);
    &&& in_order(w)
    &&& forall|id: StreamId|
        #[trigger] is_ended(v.inner.streams, id) ==> is_ended(w.inner.streams, id)
    &&& is_told(h, v) ==> is_told(h + told(v, call), w)
}

proof fn lemma_drive_tells(h: Seq<EventView>, v: ConnectionView)
    requires
        is_ready(v),
    ensures
        ({
            let w = drive_of(v);
            &&& in_order(w)
            &&& leads_to(v.inner.streams, w.inner.streams)
            &&& is_told(h, v) ==> is_told(h, w)
        }),
{
    let w = drive_of(v);
    lemma_driving(v);
    if is_told(h, v) {
        lemma_tells_later(h + v.events, v.exchanges, v.inner.streams, w.inner.streams);
        if w.events != v.events {
            lemma_tells_of_none(h + v.events, EventView::GoAway, w.exchanges, w.inner.streams);
            assert((h + v.events).push(EventView::GoAway) =~= h + w.events);
        }
    }
}

proof fn lemma_event_steps(h: Seq<EventView>, v: ConnectionView)
    requires
        in_order(v),
    ensures
        steps(h, v, Call::PollEvent),
{
    reveal(after);
    reveal(told);
    let call = Call::PollEvent;
    assert(is_ready(v)) by {
        reveal(in_order);
    }
    let w = if v.events.len() == 0 {
        pump_of(v)
    } else {
        v
    };
    if v.events.len() == 0 {
        let a = drive_of(v);
        lemma_drive_tells(h, v);
        let b = accept_all(a);
        lemma_accept_all(h, a);
        let c = pump_from(b, 0);
        lemma_pumping(h, b, 0);
        lemma_reaping(h, c, 0);
        lemma_same_below_trans(a, b, c);
        lemma_same_below_trans(a, c, w);
        assert forall|id: StreamId| #[trigger] is_ended(v.inner.streams, id) implies is_ended(
            w.inner.streams,
            id,
        ) by {
            assert(is_ended(a.inner.streams, id));
        }
    }
    let z = after(v, call);
    assert(in_order(z)) by {
        reveal(in_order);
    }
    assert(h + told(v, call) + z.events =~= h + w.events);
}

proof fn lemma_answered(
    h: Seq<EventView>,
    v: ConnectionView,
    id: StreamId,
    sent: Result<StreamsView, UserError>,
    end: bool,
)
    requires
        in_order(v),
        sent matches Ok(d) ==> goes_on(v.inner.streams, d),
    ensures
        answered(v, id, sent, end) matches Ok(w) ==> {
            &&& in_order(w)
            &&& goes_on(v.inner.streams, w.inner.streams)
            &&& w.events == v.events
            &&& w.inner.codec == v.inner.codec
            &&& w.closed == v.closed
            &&& is_told(h, v) ==> is_told(h, w)
        },
{
    if let Ok(w) = answered(v, id, sent, end) {
        let c = v.inner.streams;
        let d = w.inner.streams;
        lemma_exchange_at(v.exchanges, id);
        assert(in_order(w)) by {
            reveal(in_order);
            lemma_changed_exchange(v.exchanges, w.exchanges, c, d);
        }
        if is_told(h, v) {
            lemma_tells_later(h + v.events, v.exchanges, c, d);
            lemma_tells_noted(h + v.events, v.exchanges, w.exchanges, d);
        }
    }
}

proof fn lemma_exchange_at(exchanges: Seq<Exchange>, id: StreamId)
    ensures
        exchange_at(exchanges, id) matches Some(i) ==> 0 <= i < exchanges.len() && exchanges[i].id
            == id,
    decreases exchanges.len(),
{
    if exchanges.len() > 0 && exchanges[0].id != id {
        lemma_exchange_at(exchanges.skip(1), id);
    }
}

proof fn lemma_calls_of(v: ConnectionView, call: Call)
    requires
        in_order(v),
    ensures
        ({
            let c = v.inner.streams;
            match call {
                Call::SendResponse(id, response, end) => response_sent(
                    c,
                    id,
                    response,
                    end,
                ) matches Ok(d) ==> goes_on(c, d),
                Call::SendData(id, data, end) => data_sent(c, id, data, end) matches Ok(d)
                    ==> goes_on(c, d),
                Call::SendTrailers(id, fields) => trailers_sent(c, id, fields) matches Ok(d)
                    ==> goes_on(c, d),
                Call::ResetStream(id, reason) => goes_on(c, given_up(c, id, reason)),
                Call::SetTime(now) => goes_on(c, time_told(c, now)),
                Call::SetTargetWindowSize(size) => goes_on(
                    c,
                    with_target(v.inner, size).streams,
                ),
                Call::GoAway => goes_on(c, leave_asked(c)),
                _ => true,
            }
        }),
{
    reveal(in_order);
    let c = v.inner.streams;
    let fields = match call {
        Call::SendTrailers(_, fields) => fields,
        _ => Seq::empty(),
    };
    let (id, block, end) = match call {
        Call::SendResponse(id, response, end) => (
            id,
            sent_response(id, response, end).block,
            end,
        ),
        Call::SendData(id, _, end) => (id, trailers_block(fields), end),
        Call::SendTrailers(id, _) => (id, trailers_block(fields), true),
        Call::ResetStream(id, _) => (id, trailers_block(fields), true),
        _ => (StreamId { id: 0 }, trailers_block(fields), true),
    };
    let data = match call {
        Call::SendData(_, data, _) => data,
        _ => Seq::empty(),
    };
    let reason = match call {
        Call::ResetStream(_, reason) => reason,
        _ => Reason::NO_ERROR,
    };
    let now = match call {
        Call::SetTime(now) => now,
        _ => 0,
    };
    lemma_calls_go_on(c, id, data, fields, block, 0, reason, now, end);
    if let Call::SetTargetWindowSize(size) = call {
        lemma_target_goes_on(c, size);
    }
}

proof fn lemma_sends_step(h: Seq<EventView>, v: ConnectionView, call: Call)
    requires
        in_order(v),
        call is SendResponse || call is SendData || call is SendTrailers || call is ResetStream,
    ensures
        steps(h, v, call),
        after(v, call).inner.codec == v.inner.codec,
{
    reveal(after);
    reveal(told);
    let c = v.inner.streams;
    let w = after(v, call);
    lemma_calls_of(v, call);
    match call {
        Call::SendResponse(id, response, end) => {
            lemma_answered(h, v, id, response_sent(c, id, response, end), end);
        },
        Call::SendData(id, data, end) => {
            lemma_answered(h, v, id, data_sent(c, id, data, end), end);
        },
        Call::SendTrailers(id, fields) => {
            lemma_answered(h, v, id, trailers_sent(c, id, fields), true);
        },
        Call::ResetStream(id, reason) => {
            lemma_answered(h, v, id, Ok(given_up(c, id, reason)), true);
        },
        _ => {},
    }
    assert(h + told(v, call) =~= h);
}

proof fn lemma_recv_steps(h: Seq<EventView>, v: ConnectionView, src: Seq<u8>)
    requires
        in_order(v),
    ensures
        steps(h, v, Call::Recv(src)),
{
    reveal(after);
    reveal(told);
    let call = Call::Recv(src);
    let w = after(v, call);
    assert(is_ready(v)) by {
        reveal(in_order);
    }
    assert(h + told(v, call) =~= h);
    match taken_in(v, src) {
        None => {
            assert(in_order(w)) by {
                reveal(in_order);
            }
        },
        Some(a) => {
            assert(is_ready(a));
            lemma_drive_tells(h, a);
            assert(in_order(w)) by {
                reveal(in_order);
            }
        },
    }
}

proof fn lemma_transmit_steps(h: Seq<EventView>, v: ConnectionView)
    requires
        in_order(v),
    ensures
        steps(h, v, Call::PollTransmit),
{
    reveal(after);
    reveal(told);
    let call = Call::PollTransmit;
    assert(is_ready(v)) by {
        reveal(in_order);
    }
    assert(h + told(v, call) =~= h);
    lemma_drive_tells(h, v);
    let d = drive_of(v);
    assert(in_order(after(v, call))) by {
        reveal(in_order);
        assert(d.inner.codec.sent().transmit() =~= Seq::<u8>::empty());
    }
}

proof fn lemma_other_steps(h: Seq<EventView>, v: ConnectionView, call: Call)
    requires
        in_order(v),
        call is SetTime || call is SetTargetWindowSize || call is GoAway,
    ensures
        steps(h, v, call),
{
    reveal(after);
    reveal(told);
    let w = after(v, call);
    assert(h + told(v, call) =~= h);
    lemma_calls_of(v, call);
    lemma_went_on(v, w.inner.streams);
    if is_told(h, v) {
        lemma_tells_later(h + v.events, v.exchanges, v.inner.streams, w.inner.streams);
    }
}

/// Every call keeps what always holds.
proof fn lemma_steps(h: Seq<EventView>, v: ConnectionView, call: Call)
    requires
        in_order(v),
    ensures
        steps(h, v, call),
{
    match call {
        Call::PollEvent => {
            lemma_event_steps(h, v);
        },
        Call::Recv(src) => {
            lemma_recv_steps(h, v, src);
        },
        Call::PollTransmit => {
            lemma_transmit_steps(h, v);
        },
        Call::SetTime(_) | Call::SetTargetWindowSize(_) | Call::GoAway => {
            lemma_other_steps(h, v, call);
        },
        _ => {
            lemma_sends_step(h, v, call);
        },
    }
}

/// Every call leaves a connection in order that was in order. So what holds of every
/// connection in order holds of every connection: one that is just made is in order, as
/// `lemma_new_in_order` says.
pub proof fn law_calls_keep_order(v: ConnectionView, call: Call)
    requires
        in_order(v),
    ensures
        in_order(after(v, call)),
{
    lemma_steps(Seq::empty(), v, call);
}

proof fn lemma_run(h: Seq<EventView>, v: ConnectionView, calls: Seq<Call>)
    requires
        in_order(v),
    ensures
        ({
            let w = run(v, calls);
            &&& in_order(w)
            &&& forall|id: StreamId|
                #[trigger] is_ended(v.inner.streams, id) ==> is_ended(w.inner.streams, id)
            &&& is_told(h, v) ==> is_told(h + history(v, calls), w)
        }),
    decreases calls.len(),
{
    if calls.len() == 0 {
        assert(h + history(v, calls) =~= h);
    } else {
        let init = calls.drop_last();
        let mid = run(v, init);
        lemma_run(h, v, init);
        lemma_steps(h + history(v, init), mid, calls.last());
        assert forall|id: StreamId| #[trigger] is_ended(v.inner.streams, id) implies is_ended(
            run(v, calls).inner.streams,
            id,
        ) by {
            assert(is_ended(mid.inner.streams, id));
        }
        let t = told(mid, calls.last());
        assert(h + history(v, init) + t =~= h + (history(v, init) + t));
    }
}

/// All bytes that a connection ever hands out are whole frames, the first of which is the
/// SETTINGS frame of this side; whatever is done with the connection, and however often
/// bytes are asked for.
pub proof fn law_output_over_all_calls(v: ConnectionView, b: Builder, calls: Seq<Call>)
    requires
        b.wf(),
        is_new(v, b),
    ensures
        is_frames(output(v, calls)),
        output(v, calls).len() > 0 ==> starts_with(output(v, calls), b.settings.wire()),
{
    lemma_new_in_order(v, b);
    lemma_output(v, b, calls);
}

proof fn lemma_output(v: ConnectionView, b: Builder, calls: Seq<Call>)
    requires
        b.wf(),
        is_new(v, b),
        in_order(v),
    ensures
        ({
            let w = run(v, calls);
            let bytes = output(v, calls);
            &&& is_frames(bytes)
            &&& bytes.len() > 0 ==> starts_with(bytes, b.settings.wire())
            &&& bytes.len() == 0 ==> starts_with(w.inner.codec.transmit(), b.settings.wire())
        }),
    decreases calls.len(),
{
    let wire = b.settings.wire();
    if calls.len() == 0 {
        assert(v.inner.codec.transmit() =~= wire);
        assert(wire.take(wire.len() as int) =~= wire);
    } else {
        let init = calls.drop_last();
        let mid = run(v, init);
        lemma_output(v, b, init);
        lemma_run(Seq::empty(), v, init);
        lemma_output_grows(mid, calls.last());
        let bytes = output(v, init);
        reveal(handed_out);
        if calls.last() is PollTransmit {
            let t = drive_of(mid).inner.codec.transmit();
            lemma_frames_concat(bytes, t);
            if bytes.len() == 0 {
                assert(bytes + t =~= t);
                lemma_starts_with(wire, mid.inner.codec.transmit(), t);
                assert(wire.len() > 0);
            } else {
                assert((bytes + t).take(wire.len() as int) =~= bytes.take(wire.len() as int));
            }
        } else {
            assert(bytes + Seq::<u8>::empty() =~= bytes);
            if bytes.len() == 0 {
                lemma_starts_with(
                    wire,
                    mid.inner.codec.transmit(),
                    run(v, calls).inner.codec.transmit(),
                );
            }
        }
    }
}

proof fn lemma_output_grows(v: ConnectionView, call: Call)
    requires
        in_order(v),
    ensures
        ({
            let t = v.inner.codec.transmit();
            let sent = drive_of(v).inner.codec.transmit();
            &&& call is PollTransmit ==> is_frames(sent) && starts_with(sent, t)
            &&& !(call is PollTransmit) ==> starts_with(
                after(v, call).inner.codec.transmit(),
                t,
            )
        }),
{
    reveal(after);
    let t = v.inner.codec.transmit();
    assert(t.take(t.len() as int) =~= t);
    assert(is_ready(v)) by {
        reveal(in_order);
    }
    match call {
        Call::PollTransmit => {
            lemma_driving(v);
            assert(is_frames(drive_of(v).inner.codec.transmit())) by {
                reveal(in_order);
            }
        },
        Call::Recv(src) => {
            if let Some(a) = taken_in(v, src) {
                assert(is_ready(a));
                lemma_driving(a);
                assert(a.inner.codec.transmit() == t);
            }
        },
        Call::PollEvent => {
            lemma_driving(v);
            let a = drive_of(v);
            lemma_accept_all(Seq::empty(), a);
            lemma_pumping(Seq::empty(), accept_all(a), 0);
            lemma_reaping(Seq::empty(), pump_from(accept_all(a), 0), 0);
        },
        Call::SetTime(_) | Call::SetTargetWindowSize(_) | Call::GoAway => {},
        _ => {
            lemma_sends_step(Seq::empty(), v, call);
        },
    }
}

/// The events of a stream come in order, over all calls: one head, parts of the body and
/// one end, or as much of that as has come, and nothing before the head. What [`follows`]
/// says of the events of one request holds of all events on its stream that are ever
/// handed out.
pub proof fn law_events_over_all_calls(
    v: ConnectionView,
    b: Builder,
    calls: Seq<Call>,
    id: StreamId,
)
    requires
        b.wf(),
        is_new(v, b),
    ensures
        ({
            let events = about(history(v, calls), id);
            events.len() == 0 || follows_head(events) is Some
        }),
{
    lemma_new_in_order(v, b);
    let none = Seq::<EventView>::empty();
    assert(is_told(none, v)) by {
        reveal(tells);
        assert(none + v.events =~= none);
    }
    lemma_run(none, v, calls);
    let h = history(v, calls);
    let w = run(v, calls);
    assert(none + h =~= h);
    lemma_about_concat(h, w.events, id);
    if about(h, id).len() > 0 {
        lemma_follows_head(about(h, id), about(w.events, id));
        reveal(tells);
        if !is_apart(w.exchanges, id) {
            let k = choose|k: int|
                0 <= k < w.exchanges.len() && (#[trigger] w.exchanges[k]).id == id;
            assert(follows_head(about(h + w.events, w.exchanges[k].id)) is Some);
        }
        assert(about(h + w.events, id).len() > 0);
    }
}

/// The end of a connection is handed out at most once, over all calls, and not before it
/// has ended.
pub proof fn law_end_over_all_calls(v: ConnectionView, b: Builder, calls: Seq<Call>)
    requires
        b.wf(),
        is_new(v, b),
    ensures
        ends_in(history(v, calls)) <= 1,
        !run(v, calls).closed ==> ends_in(history(v, calls)) == 0,
{
    lemma_ends(v, b, calls);
}

proof fn lemma_ends_step(v: ConnectionView, call: Call)
    requires
        !v.closed ==> ends_in(v.events) == 0,
    ensures
        ({
            let w = after(v, call);
            &&& v.closed ==> w.closed
            &&& ends_in(told(v, call)) + ends_in(w.events) <= ends_in(v.events) + if w.closed
                && !v.closed {
                1nat
            } else {
                0
            }
        }),
{
    reveal(after);
    reveal(told);
    law_end_is_told_once(v);
    let t = told(v, call);
    reveal_with_fuel(ends_in, 2);
    assert(ends_in(Seq::<EventView>::empty()) == 0);
    if t.len() > 0 {
        assert(t.drop_last() =~= Seq::<EventView>::empty());
    }
    if let Call::Recv(src) = call {
        if let Some(a) = taken_in(v, src) {
            law_end_is_told_once(a);
        }
    }
}

proof fn lemma_ends(v: ConnectionView, b: Builder, calls: Seq<Call>)
    requires
        b.wf(),
        is_new(v, b),
    ensures
        ({
            let w = run(v, calls);
            ends_in(history(v, calls)) + ends_in(w.events) <= if w.closed {
                1nat
            } else {
                0
            }
        }),
    decreases calls.len(),
{
    if calls.len() > 0 {
        let init = calls.drop_last();
        let mid = run(v, init);
        lemma_ends(v, b, init);
        lemma_ends_concat(history(v, init), told(mid, calls.last()));
        lemma_ends_step(mid, calls.last());
    }
}

/// A call with which this side's message on a stream ends.
pub open spec fn ends_message(v: ConnectionView, call: Call, id: StreamId) -> bool {
    &&& sending(v, call) is Ok
    &&& match call {
        Call::SendResponse(on, _, end) => on == id && end,
        Call::SendData(on, _, end) => on == id && end,
        Call::SendTrailers(on, _) => on == id,
        _ => false,
    }
}

proof fn lemma_nothing_sent(
    w: ConnectionView,
    id: StreamId,
    data: Seq<u8>,
    end: bool,
    fields: Seq<FieldView>,
)
    requires
        is_ended(w.inner.streams, id),
    ensures
        sending(w, Call::SendData(id, data, end)) is Err,
        sending(w, Call::SendTrailers(id, fields)) is Err,
        after(w, Call::SendData(id, data, end)) == w,
        after(w, Call::SendTrailers(id, fields)) == w,
{
    reveal(after);
    law_ended_means_no_sending(w.inner.streams, id, data, end, fields);
}

proof fn lemma_end_ends(v: ConnectionView, call: Call, id: StreamId)
    requires
        in_order(v),
        ends_message(v, call, id),
    ensures
        is_ended(after(v, call).inner.streams, id),
{
    reveal(in_order);
    reveal(after);
    let c = v.inner.streams;
    let none = Seq::<FieldView>::empty();
    let block = trailers_block(none);
    match call {
        Call::SendResponse(_, response, last) => {
            let f = sent_response(id, response, last);
            law_the_end_ends(c, id, Seq::empty(), none, f.block, false);
        },
        Call::SendData(_, part, _) => {
            law_the_end_ends(c, id, part, none, block, false);
        },
        Call::SendTrailers(_, trailers) => {
            law_the_end_ends(c, id, Seq::empty(), trailers, block, false);
        },
        _ => {},
    }
}

/// Once this side's message on a stream has ended, whether with the head of the response,
/// with a part of the body or with trailers, sending on the stream is an error that changes
/// nothing, whatever was done with the connection before and whatever is done with it
/// after.
pub proof fn law_no_sending_after_the_end(
    v: ConnectionView,
    call: Call,
    calls: Seq<Call>,
    id: StreamId,
    data: Seq<u8>,
    end: bool,
    fields: Seq<FieldView>,
)
    requires
        in_order(v),
        ends_message(v, call, id),
    ensures
        ({
            let w = run(after(v, call), calls);
            &&& sending(w, Call::SendData(id, data, end)) is Err
            &&& sending(w, Call::SendTrailers(id, fields)) is Err
            &&& after(w, Call::SendData(id, data, end)) == w
            &&& after(w, Call::SendTrailers(id, fields)) == w
        }),
{
    lemma_steps(Seq::empty(), v, call);
    let z = after(v, call);
    lemma_end_ends(v, call, id);
    lemma_run(Seq::empty(), z, calls);
    let w = run(z, calls);
    assert(is_ended(w.inner.streams, id));
    lemma_nothing_sent(w, id, data, end, fields);
}

/// A reset is among the bytes that are handed out next: after an exchange on an open
/// stream was given up, the RST_STREAM frame with its reason is one of the frames that
/// the next call that hands out bytes hands out.
pub proof fn law_reset_is_handed_out(v: ConnectionView, id: StreamId, reason: Reason)
    requires
        in_order(v),
        !v.closed,
        exchange_at(v.exchanges, id) is Some,
        find(v.inner.streams.streams, id) matches Some(i) && v.inner.streams.streams[i].st.opened
            && v.inner.streams.streams[i].st.cause is None
            && !v.inner.streams.streams[i].done(),
    ensures
        ({
            let w = after(v, Call::ResetStream(id, reason));
            is_among(
                (Reset { stream_id: id, error_code: reason }).wire(),
                handed_out(w, Call::PollTransmit),
            )
        }),
{
    reveal(in_order);
    reveal(after);
    reveal(handed_out);
    law_reset_goes_out(v.inner, id, reason);
    let w = after(v, Call::ResetStream(id, reason));
    assert(w.inner == proto::ConnectionView {
        streams: given_up(v.inner.streams, id, reason),
        ..v.inner
    });
    assert(drive_of(w).inner == driven(w.inner));
}

} // verus!
