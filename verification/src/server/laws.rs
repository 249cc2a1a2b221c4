//! What holds of a server connection as a whole.

use crate::codec::error::UserError;
use crate::frame::StreamId;
use crate::names::PREFACE;
use crate::proto::connection::{driven, read_all, received, written};
use crate::proto::control::settled;
use crate::proto::flush::flushed;
use crate::proto::kept::lemma_all_encoded_read;
use crate::proto::laws::{body_then_end, law_one_end, law_output_stays, starts_with};
use crate::proto::output::{is_sound, lemma_settings_frame};
use crate::proto::pump::{accepted, at_end_of, pumped, BodyEventView};
use crate::proto::streams::{Shutdown, StreamsView};
use crate::proto::user::forgotten;
use crate::server::{
    accept_all, answered, drive_of, event_of, exchange_pumped, is_new, on_stream, pump_from,
    pump_of, reap_from, taken_in, with_streams, without_error, Builder, ConnectionView, EventView,
    Exchange, Phase,
};
use crate::error::ErrorView;
use crate::frame::Reason;
use crate::proto::connection::{ending, reads_on};
use crate::proto::kept::{has_read_all, is_among};
use crate::proto::leaving::{all_over, farewell, is_left, law_nothing_left_to_do};
use crate::server::default_builder;
use crate::proto::streams::{find, Side};
use crate::proto::stream::Half;
use crate::proto::user::given_up;
use crate::server::{exchange_at, stream_reset};
use vstd::prelude::*;

verus! {

/// The first bytes that a server hands out are its settings.
pub proof fn law_settings_first(v: ConnectionView, b: Builder)
    requires
        b.wf(),
        is_new(v, b),
    ensures
        starts_with(drive_of(v).inner.codec.transmit(), b.settings.wire()),
{
    assert(v.inner.codec.transmit() =~= b.settings.wire());
    law_output_stays(v.inner);
}

/// The preface is taken off however it is cut up: taking in two runs of bytes one
/// after the other is taking in both at once.
pub proof fn law_preface_chunks(v: ConnectionView, a: Seq<u8>, b: Seq<u8>)
    requires
        0 <= v.preface_pos <= PREFACE@.len(),
    ensures
        taken_in(v, a + b) == match taken_in(v, a) {
            None => None::<ConnectionView>,
            Some(w) => taken_in(w, b),
        },
{
    let need = PREFACE@.len() - v.preface_pos;
    let pos = v.preface_pos;
    let all = a + b;
    let first = if need < a.len() {
        need
    } else {
        a.len() as int
    };
    let take = if need < all.len() {
        need
    } else {
        all.len() as int
    };
    let second = take - first;
    assert(all.take(take) =~= a.take(first) + b.take(second));
    assert(PREFACE@.subrange(pos, pos + take) =~= PREFACE@.subrange(pos, pos + first)
        + PREFACE@.subrange(pos + first, pos + take));
    if taken_in(v, a) is None {
        let k = choose|k: int|
            0 <= k < first && a.take(first)[k] != PREFACE@.subrange(pos, pos + first)[k];
        if forall|k: int|
            0 <= k < first ==> a.take(first)[k] == PREFACE@.subrange(pos, pos + first)[k] {
            assert(a.take(first) =~= PREFACE@.subrange(pos, pos + first));
        }
        assert(all.take(take)[k] == a.take(first)[k]);
        assert(PREFACE@.subrange(pos, pos + take)[k] == PREFACE@.subrange(pos, pos + first)[k]);
    } else {
        let w = taken_in(v, a)->0;
        if b.take(second) == PREFACE@.subrange(pos + first, pos + take) {
            assert(all.skip(take) =~= a.skip(first) + b.skip(second));
            assert(v.inner.codec.read.buffer + (a.skip(first) + b.skip(second))
                =~= v.inner.codec.read.buffer + a.skip(first) + b.skip(second));
        } else {
            let k = choose|k: int|
                0 <= k < second && b.take(second)[k] != PREFACE@.subrange(
                    pos + first,
                    pos + take,
                )[k];
            if forall|k: int|
                0 <= k < second ==> b.take(second)[k] == PREFACE@.subrange(
                    pos + first,
                    pos + take,
                )[k] {
                assert(b.take(second) =~= PREFACE@.subrange(pos + first, pos + take));
            }
            assert(all.take(take)[first + k] == b.take(second)[k]);
            assert(PREFACE@.subrange(pos, pos + take)[first + k] == PREFACE@.subrange(
                pos + first,
                pos + take,
            )[k]);
        }
    }
}

/// No byte of the preface is taken for a frame, and every byte behind it is.
pub proof fn law_preface_is_not_frames(v: ConnectionView, src: Seq<u8>)
    requires
        v.preface_pos == 0,
    ensures
        taken_in(v, PREFACE@ + src) matches Some(w) && w.inner == received(v.inner, src)
            && w.preface_pos == PREFACE@.len(),
{
    assert((PREFACE@ + src).take(24) =~= PREFACE@);
    assert(PREFACE@.subrange(0, 24) =~= PREFACE@);
    assert((PREFACE@ + src).skip(24) =~= src);
}

/// The end of a connection is final: nothing below it moves any more, and it was
/// an event once, when it came.
pub proof fn law_end_is_final(v: ConnectionView)
    ensures
        v.closed ==> drive_of(v) == v,
        !v.closed && drive_of(v).closed ==> drive_of(v).events == v.events.push(EventView::GoAway),
        !v.closed && !drive_of(v).closed ==> drive_of(v).events == v.events,
{
}

/// The error that ended a connection is handed out once: after that the
/// connection gives none.
pub proof fn law_error_once(v: ConnectionView, src: Seq<u8>)
    requires
        v.closed,
    ensures
        drive_of((ConnectionView { inner: received(v.inner, src), ..without_error(v) })).close_err
            is None,
{
}

/// An event with which a request ends.
pub open spec fn is_end(e: EventView) -> bool {
    match e {
        EventView::Request(_, _, end) => end,
        EventView::Body(_, b) => !(b is Data),
        EventView::GoAway => false,
    }
}

/// The body of a request is handed out in order, and its end once: of the events
/// that handing it out gives, an end can only be the last, and is there exactly
/// when the request is done; and all of them are about its stream.
pub proof fn law_request_in_order(c: StreamsView, x: Exchange)
    ensures
        ({
            let (_, phase, events) = exchange_pumped(c, x);
            let n = events.len() as int;
            &&& x.phase == Phase::Done ==> n == 0 && phase == Phase::Done
            &&& forall|i: int|
                0 <= i < n ==> (#[trigger] events[i] matches EventView::Body(id, _) && id == x.id)
            &&& forall|i: int| 0 <= i < n - 1 ==> !is_end(#[trigger] events[i])
            &&& n > 0 ==> is_end(events[n - 1]) == (phase == Phase::Done)
            &&& x.phase != Phase::Done && phase == Phase::Done ==> n > 0
        }),
{
    law_one_end(c, x.id);
}

/// Whether a peer's message was received to its end and nothing of it waits.
pub open spec fn is_all_read(c: StreamsView, id: StreamId) -> bool {
    find(c.streams, id) matches Some(i) && c.streams[i].st.recv == Half::Closed
        && c.streams[i].st.cause is None && c.streams[i].inbox.len() == 0
}

/// Every request that waits is accepted, in the order in which they came, and is
/// an event behind those that were there. It comes with the end exactly if it was received
/// to its end and nothing else of it waits. Its exchange stands behind the others in the same
/// order, and its answer is still to come.
pub proof fn law_requests_are_handed_out(v: ConnectionView)
    ensures
        ({
            let after = accept_all(v);
            let waiting = v.inner.streams.accept;
            let n = v.events.len() as int;
            let m = v.exchanges.len() as int;
            &&& after.inner.streams.accept.len() == 0
            &&& after.inner.streams.streams == v.inner.streams.streams
            &&& after.events.len() == n + waiting.len()
            &&& forall|k: int| 0 <= k < n ==> #[trigger] after.events[k] == v.events[k]
            &&& forall|k: int|
                0 <= k < waiting.len() ==> #[trigger] after.events[n + k] == EventView::Request(
                    waiting[k].id,
                    waiting[k].request,
                    is_all_read(v.inner.streams, waiting[k].id),
                )
            &&& after.exchanges.len() == m + waiting.len()
            &&& forall|k: int| 0 <= k < m ==> #[trigger] after.exchanges[k] == v.exchanges[k]
            &&& forall|k: int|
                0 <= k < waiting.len() ==> {
                    let x = #[trigger] after.exchanges[m + k];
                    &&& x.id == waiting[k].id
                    &&& (x.phase == Phase::Done) == is_all_read(v.inner.streams, waiting[k].id)
                    &&& !x.send_done
                }
        }),
    decreases v.inner.streams.accept.len(),
{
    let c = v.inner.streams;
    if c.accept.len() > 0 {
        reveal(accepted);
        reveal(at_end_of);
        let id = c.accept[0].id;
        let request = c.accept[0].request;
        let next = accepted(c);
        let end = at_end_of(next, id);
        let phase = if end {
            Phase::Done
        } else {
            Phase::Body
        };
        let mid = ConnectionView {
            events: v.events.push(EventView::Request(id, request, end)),
            exchanges: v.exchanges.push(Exchange { id, phase, send_done: false }),
            ..with_streams(v, next)
        };
        law_requests_are_handed_out(mid);
        let after = accept_all(v);
        let n = v.events.len() as int;
        let m = v.exchanges.len() as int;
        assert(after == accept_all(mid));
        assert forall|k: int| 0 <= k < n implies #[trigger] after.events[k] == v.events[k] by {
            assert(after.events[k] == mid.events[k]);
        }
        assert forall|k: int| 0 <= k < m implies #[trigger] after.exchanges[k]
            == v.exchanges[k] by {
            assert(after.exchanges[k] == mid.exchanges[k]);
        }
        assert forall|k: int| 0 <= k < c.accept.len() implies #[trigger] after.events[n + k]
            == EventView::Request(
            c.accept[k].id,
            c.accept[k].request,
            is_all_read(c, c.accept[k].id),
        ) by {
            if k == 0 {
                assert(after.events[n] == mid.events[n]);
            } else {
                assert(after.events[mid.events.len() + (k - 1)] == after.events[n + k]);
                assert(next.accept[k - 1] == c.accept[k]);
            }
        }
        assert forall|k: int| 0 <= k < c.accept.len() implies {
            let x = #[trigger] after.exchanges[m + k];
            &&& x.id == c.accept[k].id
            &&& (x.phase == Phase::Done) == is_all_read(c, c.accept[k].id)
            &&& !x.send_done
        } by {
            if k == 0 {
                assert(after.exchanges[m] == mid.exchanges[m]);
            } else {
                assert(after.exchanges[mid.exchanges.len() + (k - 1)] == after.exchanges[m + k]);
                assert(next.accept[k - 1] == c.accept[k]);
            }
        }
    }
}

/// What was an event before stays one, and stays in front, while requests are
/// handed out further.
pub proof fn law_events_stay(v: ConnectionView, i: nat)
    ensures
        v.events.is_prefix_of(pump_from(v, i).events),
        reap_from(v, i).events == v.events,
    decreases v.exchanges.len() - i,
{
    if i < v.exchanges.len() {
        let x = v.exchanges[i as int];
        let (streams, phase, events) = exchange_pumped(v.inner.streams, x);
        let next = ConnectionView {
            exchanges: v.exchanges.update(i as int, Exchange { phase, ..x }),
            events: v.events + events,
            ..with_streams(v, streams)
        };
        law_events_stay(next, i + 1);
        if is_over(x) {
            law_events_stay(
                ConnectionView {
                    exchanges: v.exchanges.remove(i as int),
                    ..with_streams(v, forgotten(v.inner.streams, x.id))
                },
                i,
            );
        } else {
            law_events_stay(v, i + 1);
        }
    }
}

/// Whether nothing is left of an exchange in either direction.
pub open spec fn is_over(x: Exchange) -> bool {
    x.send_done && x.phase == Phase::Done
}

proof fn lemma_reap(v: ConnectionView, i: nat)
    requires
        forall|j: int| 0 <= j < i && j < v.exchanges.len() ==> !is_over(
            #[trigger] v.exchanges[j],
        ),
    ensures
        forall|j: int|
            0 <= j < reap_from(v, i).exchanges.len() ==> !is_over(
                #[trigger] reap_from(v, i).exchanges[j],
            ),
        forall|x: Exchange|
            !is_over(x) ==> (#[trigger] reap_from(v, i).exchanges.contains(x)
                == v.exchanges.contains(x)),
    decreases v.exchanges.len() - i,
{
    if i < v.exchanges.len() {
        let x = v.exchanges[i as int];
        if is_over(x) {
            let next = ConnectionView {
                exchanges: v.exchanges.remove(i as int),
                ..with_streams(v, forgotten(v.inner.streams, x.id))
            };
            assert forall|j: int| 0 <= j < i && j < next.exchanges.len() implies !is_over(
                #[trigger] next.exchanges[j],
            ) by {
                assert(next.exchanges[j] == v.exchanges[j]);
            }
            lemma_reap(next, i);
            assert forall|y: Exchange| !is_over(y) implies v.exchanges.contains(y)
                == #[trigger] next.exchanges.contains(y) by {
                if v.exchanges.contains(y) {
                    let k = choose|k: int| 0 <= k < v.exchanges.len() && v.exchanges[k] == y;
                    let m = if k < i {
                        k
                    } else {
                        k - 1
                    };
                    assert(next.exchanges[m] == y);
                }
                if next.exchanges.contains(y) {
                    let k = choose|k: int|
                        0 <= k < next.exchanges.len() && next.exchanges[k] == y;
                    let m = if k < i {
                        k
                    } else {
                        k + 1
                    };
                    assert(v.exchanges[m] == y);
                }
            }
        } else {
            lemma_reap(v, i + 1);
        }
    }
}

/// An exchange is kept until both of its directions are done, and no longer than
/// the next time that events are asked for.
pub proof fn law_kept_until_over(v: ConnectionView)
    ensures
        forall|j: int|
            0 <= j < pump_of(v).exchanges.len() ==> !is_over(#[trigger] pump_of(v).exchanges[j]),
        forall|x: Exchange|
            !is_over(x) ==> (#[trigger] pump_of(v).exchanges.contains(x) == pump_from(
                accept_all(drive_of(v)),
                0,
            ).exchanges.contains(x)),
{
    lemma_reap(pump_from(accept_all(drive_of(v)), 0), 0);
}

/// An error that is kept means that the connection has ended.
pub open spec fn error_means_closed(v: ConnectionView) -> bool {
    v.close_err is Some ==> v.closed
}

/// The connection has ended, and its error was handed out if there was one.
pub open spec fn is_done(v: ConnectionView) -> bool {
    v.closed && v.close_err is None
}

proof fn lemma_pump_errors(v: ConnectionView, i: nat)
    ensures
        pump_from(v, i).closed == v.closed,
        pump_from(v, i).close_err == v.close_err,
        reap_from(v, i).closed == v.closed,
        reap_from(v, i).close_err == v.close_err,
    decreases v.exchanges.len() - i,
{
    if i < v.exchanges.len() {
        let x = v.exchanges[i as int];
        let (streams, phase, events) = exchange_pumped(v.inner.streams, x);
        let next = ConnectionView {
            exchanges: v.exchanges.update(i as int, Exchange { phase, ..x }),
            events: v.events + events,
            ..with_streams(v, streams)
        };
        lemma_pump_errors(next, i + 1);
        lemma_pump_errors(v, i + 1);
        let fewer = ConnectionView {
            exchanges: v.exchanges.remove(i as int),
            ..with_streams(v, forgotten(v.inner.streams, x.id))
        };
        lemma_pump_errors(fewer, i);
    }
}

proof fn lemma_accept_errors(v: ConnectionView)
    ensures
        accept_all(v).closed == v.closed,
        accept_all(v).close_err == v.close_err,
        ends_in(accept_all(v).events) == ends_in(v.events),
    decreases v.inner.streams.accept.len(),
{
    let c = v.inner.streams;
    if c.accept.len() > 0 {
        reveal(accepted);
        let id = c.accept[0].id;
        let next = accepted(c);
        let end = at_end_of(next, id);
        let phase = if end {
            Phase::Done
        } else {
            Phase::Body
        };
        let mid = ConnectionView {
            events: v.events.push(EventView::Request(id, c.accept[0].request, end)),
            exchanges: v.exchanges.push(Exchange { id, phase, send_done: false }),
            ..with_streams(v, next)
        };
        assert(mid.events.drop_last() =~= v.events);
        lemma_accept_errors(mid);
    }
}

/// Taking bytes fails at most once after the preface: the call that hands the error out
/// leaves nothing to be handed out, and whatever is done with the connection after
/// that, no call fails.
pub proof fn law_fails_once(
    v: ConnectionView,
    src: Seq<u8>,
    streams: StreamsView,
    id: StreamId,
    sent: Result<StreamsView, UserError>,
    end: bool,
)
    requires
        error_means_closed(v),
        v.preface_pos == PREFACE@.len(),
    ensures
        taken_in(v, src) matches Some(w) && {
            let taken = drive_of(w);
            &&& error_means_closed(taken)
            &&& taken.preface_pos == PREFACE@.len()
            &&& taken.close_err is Some ==> is_done(without_error(taken))
            &&& is_done(v) ==> taken.close_err is None && is_done(without_error(taken))
        },
        error_means_closed(drive_of(v)),
        is_done(v) ==> is_done(drive_of(v)),
        error_means_closed(event_of(v).0),
        is_done(v) ==> is_done(event_of(v).0),
        error_means_closed(with_streams(v, streams)),
        is_done(v) ==> is_done(with_streams(v, streams)),
        answered(v, id, sent, end) matches Ok(after) ==> error_means_closed(after) && (is_done(v)
            ==> is_done(after)),
{
    assert(src.take(0) =~= Seq::<u8>::empty());
    assert(PREFACE@.subrange(24, 24) =~= Seq::<u8>::empty());
    let d = drive_of(v);
    lemma_accept_errors(d);
    lemma_pump_errors(accept_all(d), 0);
    lemma_pump_errors(pump_from(accept_all(d), 0), 0);
}

/// The number of events that say that the connection has ended.
pub open spec fn ends_in(events: Seq<EventView>) -> nat
    decreases events.len(),
{
    if events.len() == 0 {
        0
    } else {
        ends_in(events.drop_last()) + if events.last() is GoAway {
            1nat
        } else {
            0
        }
    }
}

pub(crate) proof fn lemma_ends_concat(a: Seq<EventView>, b: Seq<EventView>)
    ensures
        ends_in(a + b) == ends_in(a) + ends_in(b),
    decreases b.len(),
{
    if b.len() == 0 {
        assert(a + b =~= a);
    } else {
        assert((a + b).drop_last() =~= a + b.drop_last());
        lemma_ends_concat(a, b.drop_last());
    }
}

proof fn lemma_no_ends(events: Seq<EventView>)
    requires
        forall|i: int| 0 <= i < events.len() ==> !(#[trigger] events[i] is GoAway),
    ensures
        ends_in(events) == 0,
    decreases events.len(),
{
    if events.len() > 0 {
        let init = events.drop_last();
        assert forall|i: int| 0 <= i < init.len() implies !(#[trigger] init[i] is GoAway) by {
            assert(init[i] == events[i]);
        }
        assert(!(events[events.len() - 1] is GoAway));
        lemma_no_ends(init);
    }
}

proof fn lemma_pump_ends(v: ConnectionView, i: nat)
    ensures
        ends_in(pump_from(v, i).events) == ends_in(v.events),
    decreases v.exchanges.len() - i,
{
    if i < v.exchanges.len() {
        let x = v.exchanges[i as int];
        let (streams, phase, events) = exchange_pumped(v.inner.streams, x);
        let next = ConnectionView {
            exchanges: v.exchanges.update(i as int, Exchange { phase, ..x }),
            events: v.events + events,
            ..with_streams(v, streams)
        };
        law_request_in_order(v.inner.streams, x);
        lemma_no_ends(events);
        lemma_ends_concat(v.events, events);
        lemma_pump_ends(next, i + 1);
    }
}

/// The end of a connection is handed out once, and only once it has ended: every call
/// adds such an event exactly when the connection ends in it, and none gets lost.
pub proof fn law_end_is_told_once(v: ConnectionView)
    requires
        !v.closed ==> ends_in(v.events) == 0,
    ensures
        ends_in(drive_of(v).events) == ends_in(v.events) + if drive_of(v).closed && !v.closed {
            1nat
        } else {
            0
        },
        ({
            let (after, e) = event_of(v);
            &&& ends_in(after.events) + (if e matches Some(EventView::GoAway) {
                1nat
            } else {
                0
            }) == ends_in(v.events) + if after.closed && !v.closed {
                1nat
            } else {
                0
            }
            &&& e matches Some(EventView::GoAway) ==> after.closed
            &&& !after.closed ==> ends_in(after.events) == 0
            &&& v.closed ==> after.closed
        }),
{
    let d = drive_of(v);
    if d.events != v.events {
        assert(d.events.drop_last() =~= v.events);
    }
    lemma_accept_errors(d);
    lemma_pump_ends(accept_all(d), 0);
    lemma_pump_errors(accept_all(d), 0);
    lemma_pump_errors(pump_from(accept_all(d), 0), 0);
    law_events_stay(pump_from(accept_all(d), 0), 0);
    let w = if v.events.len() == 0 {
        pump_of(v)
    } else {
        v
    };
    if w.events.len() > 0 {
        let first = w.events.take(1);
        assert(first + w.events.skip(1) =~= w.events);
        lemma_ends_concat(first, w.events.skip(1));
        assert(first.drop_last() =~= Seq::<EventView>::empty());
        assert(ends_in(first.drop_last()) == 0);
    }
}

/// How far a request is once this event was handed out, if it can be handed out now.
pub open spec fn next_phase(phase: Phase, e: EventView) -> Option<Phase> {
    match (phase, e) {
        (Phase::Body, EventView::Body(_, BodyEventView::Data(_))) => Some(Phase::Body),
        (Phase::Body, EventView::Body(_, _)) => Some(Phase::Done),
        _ => None,
    }
}

/// How far a message is once a run of events was handed out, if they can come in this
/// order.
pub open spec fn follows(phase: Phase, events: Seq<EventView>) -> Option<Phase>
    decreases events.len(),
{
    if events.len() == 0 {
        Some(phase)
    } else {
        match next_phase(phase, events[0]) {
            None => None,
            Some(next) => follows(next, events.skip(1)),
        }
    }
}

/// Events that come one run after the other come in order if each run does.
pub proof fn law_runs_of_events(phase: Phase, a: Seq<EventView>, b: Seq<EventView>)
    ensures
        follows(phase, a + b) == match follows(phase, a) {
            None => None::<Phase>,
            Some(next) => follows(next, b),
        },
    decreases a.len(),
{
    if a.len() == 0 {
        assert(a + b =~= b);
    } else {
        assert((a + b)[0] == a[0]);
        assert((a + b).skip(1) =~= a.skip(1) + b);
        if let Some(next) = next_phase(phase, a[0]) {
            law_runs_of_events(next, a.skip(1), b);
        }
    }
}

proof fn lemma_body_follows(id: StreamId, events: Seq<BodyEventView>, done: bool)
    requires
        body_then_end(events, done),
    ensures
        follows(Phase::Body, on_stream(id, events)) == Some(
            if done {
                Phase::Done
            } else {
                Phase::Body
            },
        ),
    decreases events.len(),
{
    reveal_with_fuel(follows, 2);
    let all = on_stream(id, events);
    if events.len() > 0 {
        let rest = events.skip(1);
        assert(all.skip(1) =~= on_stream(id, rest));
        assert(all[0] == EventView::Body(id, events[0]));
        if events.len() == 1 {
            assert(all.skip(1).len() == 0);
        } else {
            assert(events[0] is Data);
            assert forall|i: int| 0 <= i < rest.len() - 1 implies (#[trigger] rest[i]) is Data by {
                assert(rest[i] == events[i + 1]);
            }
            assert(rest[rest.len() - 1] == events[events.len() - 1]);
            lemma_body_follows(id, rest, done);
        }
    }
}

/// The events of a request come in order, over all calls: behind its head, parts of the
/// body and one end. Each time that a request is handed out further, its events go on
/// from the phase that was noted, and the phase that they come to is noted.
pub proof fn law_request_events_follow(c: StreamsView, x: Exchange)
    ensures
        follows(x.phase, exchange_pumped(c, x).2) == Some(exchange_pumped(c, x).1),
{
    if x.phase == Phase::Body {
        law_one_end(c, x.id);
        let (_, events, done) = pumped(c, x.id);
        lemma_body_follows(x.id, events, done);
    }
}

/// A server to which nothing but a part of the preface has come yet.
pub open spec fn awaits_preface(v: ConnectionView) -> bool {
    &&& !v.closed
    &&& v.close_err is None
    &&& 0 <= v.preface_pos <= PREFACE@.len()
    &&& v.inner.codec.read.buffer == Seq::<u8>::empty()
    &&& v.inner.streams.streams.len() == 0
    &&& v.inner.streams.m.closed is None
    &&& v.inner.streams.m.remote_error is None
    &&& v.inner.streams.m.shutdown == Shutdown::Off
}

/// While the bytes that come agree with the preface, however they are cut up, taking
/// them neither fails nor ends the connection.
pub proof fn law_preface_agrees(v: ConnectionView, src: Seq<u8>)
    requires
        awaits_preface(v),
        v.preface_pos + src.len() <= PREFACE@.len(),
        src == PREFACE@.subrange(v.preface_pos, v.preface_pos + src.len()),
    ensures
        taken_in(v, src) matches Some(w) && awaits_preface(drive_of(w)) && drive_of(w).preface_pos
            == v.preface_pos + src.len(),
{
    assert(src.take(src.len() as int) =~= src);
    assert(src.skip(src.len() as int) =~= Seq::<u8>::empty());
    assert(Seq::<u8>::empty() + Seq::<u8>::empty() =~= Seq::<u8>::empty());
    let w = taken_in(v, src)->0;
    assert(w.inner.codec.read.buffer =~= Seq::<u8>::empty());
    reveal(driven);
    let c = read_all(w.inner);
    assert(c.streams == w.inner.streams);
    assert(c.codec.read.buffer =~= Seq::<u8>::empty());
    lemma_all_encoded_read(c.codec, flushed(c.streams).1);
    let b = written(c);
    assert(settled(b.streams) == b.streams);
    lemma_all_encoded_read(b.codec, flushed(b.streams).1);
}

/// The chunk with the first byte that does not agree with the preface is refused.
pub proof fn law_preface_disagrees(v: ConnectionView, src: Seq<u8>, k: int)
    requires
        0 <= v.preface_pos,
        0 <= k < src.len(),
        v.preface_pos + k < PREFACE@.len(),
        src[k] != PREFACE@[v.preface_pos + k],
    ensures
        taken_in(v, src) is None,
{
    let need = PREFACE@.len() - v.preface_pos;
    let take = if need < src.len() {
        need
    } else {
        src.len() as int
    };
    assert(src.take(take)[k] == src[k]);
    assert(PREFACE@.subrange(v.preface_pos, v.preface_pos + take)[k] == PREFACE@[v.preface_pos
        + k]);
}

/// A server that is just made awaits the preface.
pub proof fn law_new_server_awaits_preface(v: ConnectionView, b: Builder)
    requires
        is_new(v, b),
    ensures
        awaits_preface(v),
{
}

/// All of the output of a server is whole frames: what a new connection has to hand
/// out is its SETTINGS frame, and from then on `law_output_is_whole_frames` holds.
pub proof fn law_new_output_is_sound(v: ConnectionView, b: Builder)
    requires
        b.wf(),
        is_new(v, b),
    ensures
        is_sound(v.inner),
        v.inner.codec.transmit() == b.settings.wire(),
{
    assert(v.inner.codec.transmit() =~= b.settings.wire());
    lemma_settings_frame(b.settings);
}

/// A server whose connection one of the two sides has left, and on which nothing is left to
/// be done on any stream, has ended once it was driven: the end is an event, behind all
/// others, it is no error if the peer gave none, and the peer is told.
pub proof fn law_left_connection_is_told_of(v: ConnectionView)
    requires
        !v.closed,
        is_sound(v.inner),
        reads_on(v.inner),
        has_read_all(v.inner),
        is_left(v.inner.streams),
        all_over(v.inner.streams.streams),
    ensures
        drive_of(v).closed,
        drive_of(v).events == v.events.push(EventView::GoAway),
        is_among(
            farewell(v.inner.streams, Reason::NO_ERROR).wire(),
            drive_of(v).inner.codec.transmit(),
        ),
{
    law_nothing_left_to_do(v.inner);
}

/// A server learns that its connection has ended, whatever ended it: as it is driven, the
/// end is an event, and the error that it ended with, if there is one, is kept to be handed
/// out.
pub proof fn law_every_end_is_told(v: ConnectionView)
    requires
        !v.closed,
        driven(v.inner).streams.m.closed is Some,
    ensures
        drive_of(v).closed,
        drive_of(v).events == v.events.push(EventView::GoAway),
        drive_of(v).inner == driven(v.inner),
        ending(driven(v.inner).streams) matches Some(e) ==> drive_of(v).close_err == Some(
            ErrorView::Proto(e),
        ),
        ending(driven(v.inner).streams) is None ==> drive_of(v).close_err == v.close_err,
{
}

/// A server that is just made keeps to what it was made with: its settings go out, and the
/// limits are the ones that were set, or those that everyone starts with. Nothing has
/// happened yet.
pub proof fn law_what_a_server_starts_with(v: ConnectionView, b: Builder)
    requires
        is_new(v, b),
    ensures
        ({
            let c = v.inner.streams;
            let read = v.inner.codec.read;
            let write = v.inner.codec.write;
            &&& c.m.side == Side::Server
            &&& c.m.next_id == 2
            &&& c.m.local == b.settings
            &&& !c.m.local_acked
            &&& c.m.init_send == 65_535 && c.m.init_recv == 65_535
            &&& c.m.send_window == 65_535 && c.m.free == 65_535
            &&& c.m.recv_window == 65_535 && c.m.in_flight == 0
            &&& c.m.recv_target == match b.initial_target_connection_window_size {
                Some(n) => n,
                None => 65_535,
            }
            &&& c.m.max_send_frame == 16_384
            &&& c.m.max_recv_streams == match b.settings.max_concurrent_streams {
                Some(n) => n as usize,
                None => usize::MAX,
            }
            &&& c.m.max_send_buffer == b.max_send_buffer_size
            &&& c.m.reset_stream_max == b.reset_stream_max
            &&& c.m.reset_stream_duration == b.reset_stream_duration
            &&& c.m.remote_reset_max == b.pending_accept_reset_stream_max
            &&& c.m.local_reset_max == b.local_max_error_reset_streams
            &&& c.m.last_remote == 0 && c.m.closed is None && c.m.remote_error is None
            &&& c.m.served == 0x7fff_ffff && c.m.remote_served == 0x7fff_ffff
            &&& c.streams.len() == 0 && c.accept.len() == 0 && c.control.len() == 0
            &&& read.max_frame_size == match b.settings.max_frame_size {
                Some(n) => n as usize,
                None => 16_384,
            }
            &&& read.max_header_list_size == match b.settings.max_header_list_size {
                Some(n) => n as usize,
                None => 16_777_216,
            }
            &&& read.decoder.table.entries.len() == 0
            &&& read.decoder.table.max_size == 4_096 && read.decoder.allowed == 4_096
            &&& write.max_frame_size == 16_384
            &&& write.buf == b.settings.wire()
            &&& v.events.len() == 0 && v.exchanges.len() == 0 && !v.closed
        }),
{
}

/// What a server is made with unless something else is set.
pub proof fn law_defaults()
    ensures
        default_builder().initial_target_connection_window_size is None,
        default_builder().max_send_buffer_size == 409_600,
        default_builder().reset_stream_max == 50,
        default_builder().reset_stream_duration == 1_000,
        default_builder().pending_accept_reset_stream_max == 20,
        default_builder().local_max_error_reset_streams == Some(1_024usize),
        default_builder().settings.header_table_size is None,
        default_builder().settings.enable_push is None,
        default_builder().settings.max_concurrent_streams is None,
        default_builder().settings.initial_window_size is None,
        default_builder().settings.max_frame_size is None,
        default_builder().settings.max_header_list_size is None,
{
}

/// Whether a stream is there on which nothing that was received waits, and on which more can
/// still come.
pub open spec fn is_awaited(c: StreamsView, id: StreamId) -> bool {
    find(c.streams, id) matches Some(i) && c.streams[i].inbox.len() == 0
        && c.streams[i].st.cause is None && c.streams[i].st.recv != Half::Closed
}

proof fn lemma_nothing_pumped(c: StreamsView, x: Exchange)
    requires
        exchange_pumped(c, x).2.len() == 0,
    ensures
        exchange_pumped(c, x).0 == c,
        exchange_pumped(c, x).1 == x.phase,
        x.phase != Phase::Done ==> is_awaited(c, x.id),
{
    reveal(pumped);
}

proof fn lemma_pumped_nothing(v: ConnectionView, i: nat)
    requires
        pump_from(v, i).events.len() == 0,
    ensures
        pump_from(v, i) == v,
        forall|k: int|
            i <= k < v.exchanges.len() && (#[trigger] v.exchanges[k]).phase != Phase::Done
                ==> is_awaited(v.inner.streams, v.exchanges[k].id),
    decreases v.exchanges.len() - i,
{
    if i < v.exchanges.len() {
        let x = v.exchanges[i as int];
        let (streams, phase, events) = exchange_pumped(v.inner.streams, x);
        let next = ConnectionView {
            exchanges: v.exchanges.update(i as int, Exchange { phase, ..x }),
            events: v.events + events,
            ..with_streams(v, streams)
        };
        law_events_stay(next, i + 1);
        lemma_nothing_pumped(v.inner.streams, x);
        assert(next.exchanges =~= v.exchanges);
        assert(next.events =~= v.events);
        assert(next == v);
        lemma_pumped_nothing(v, i + 1);
    }
}

/// Nothing is held back: if there is no event, no request waits, and all that was received on
/// the streams of the exchanges whose requests have not ended was handed out: more can come
/// on each of them.
pub proof fn law_nothing_is_held_back(v: ConnectionView)
    ensures
        event_of(v).1 is None ==> {
            let c = drive_of(v).inner.streams;
            &&& c.accept.len() == 0
            &&& drive_of(v).exchanges == v.exchanges
            &&& forall|k: int|
                0 <= k < v.exchanges.len() && (#[trigger] v.exchanges[k]).phase != Phase::Done
                    ==> is_awaited(c, v.exchanges[k].id)
        },
{
    if event_of(v).1 is None {
        let driven = drive_of(v);
        let all = accept_all(driven);
        let mid = pump_from(all, 0);
        law_events_stay(mid, 0);
        law_events_stay(all, 0);
        law_requests_are_handed_out(driven);
        lemma_pumped_nothing(all, 0);
    }
}

proof fn lemma_exchange_at(exchanges: Seq<Exchange>, id: StreamId)
    ensures
        match exchange_at(exchanges, id) {
            None => forall|k: int|
                0 <= k < exchanges.len() ==> (#[trigger] exchanges[k]).id != id,
            Some(i) => {
                &&& 0 <= i < exchanges.len()
                &&& exchanges[i].id == id
                &&& forall|k: int| 0 <= k < i ==> (#[trigger] exchanges[k]).id != id
            },
        },
    decreases exchanges.len(),
{
    if exchanges.len() > 0 && exchanges[0].id != id {
        let rest = exchanges.skip(1);
        lemma_exchange_at(rest, id);
        match exchange_at(rest, id) {
            None => {
                assert forall|k: int| 0 <= k < exchanges.len() implies (
                #[trigger] exchanges[k]).id != id by {
                    if k > 0 {
                        assert(rest[k - 1] == exchanges[k]);
                    }
                }
            },
            Some(i) => {
                assert forall|k: int| 0 <= k < i + 1 implies (#[trigger] exchanges[k]).id
                    != id by {
                    if k > 0 {
                        assert(rest[k - 1] == exchanges[k]);
                    }
                }
            },
        }
    }
}

/// Something is sent only on the stream of an exchange. What that makes of the streams
/// counts, and the reason is given where it cannot be sent. The answer is done once something
/// that ends it was sent; nothing else changes, neither in this exchange nor in the others.
pub proof fn law_sending_an_answer(
    v: ConnectionView,
    id: StreamId,
    sent: Result<StreamsView, UserError>,
    end: bool,
)
    ensures
        ({
            let known = exists|k: int|
                0 <= k < v.exchanges.len() && (#[trigger] v.exchanges[k]).id == id;
            match answered(v, id, sent, end) {
                Err(e) => if known {
                    sent == Err::<StreamsView, UserError>(e)
                } else {
                    e == UserError::InactiveStreamId
                },
                Ok(after) => {
                    &&& known
                    &&& sent == Ok::<StreamsView, UserError>(after.inner.streams)
                    &&& after.inner.codec == v.inner.codec
                    &&& after.events == v.events
                    &&& after.closed == v.closed && after.close_err == v.close_err
                    &&& after.exchanges.len() == v.exchanges.len()
                    &&& forall|k: int|
                        0 <= k < v.exchanges.len() ==> {
                            let x = v.exchanges[k];
                            let y = #[trigger] after.exchanges[k];
                            let first = x.id == id && forall|j: int|
                                0 <= j < k ==> (#[trigger] v.exchanges[j]).id != id;
                            &&& y.id == x.id && y.phase == x.phase
                            &&& y.send_done == (x.send_done || first && end)
                        }
                },
            }
        }),
{
    lemma_exchange_at(v.exchanges, id);
    if let Ok(after) = answered(v, id, sent, end) {
        let i = exchange_at(v.exchanges, id)->0;
        assert forall|k: int| 0 <= k < v.exchanges.len() implies {
            let x = v.exchanges[k];
            let y = #[trigger] after.exchanges[k];
            let first = x.id == id && forall|j: int|
                0 <= j < k ==> (#[trigger] v.exchanges[j]).id != id;
            &&& y.id == x.id && y.phase == x.phase
            &&& y.send_done == (x.send_done || first && end)
        } by {
            if k > i {
                assert(v.exchanges[i].id == id);
            }
        }
    }
}

/// Resetting the stream of an exchange gives it up, and its answer is done; any other stream
/// is left alone.
pub proof fn law_resetting_an_exchange(v: ConnectionView, id: StreamId, reason: Reason)
    ensures
        ({
            let after = stream_reset(v, id, reason);
            match exchange_at(v.exchanges, id) {
                None => after == v,
                Some(i) => {
                    &&& after.inner.streams == given_up(v.inner.streams, id, reason)
                    &&& after.exchanges[i].send_done
                    &&& after.exchanges[i].phase == v.exchanges[i].phase
                },
            }
        }),
{
    lemma_exchange_at(v.exchanges, id);
}

} // verus!
