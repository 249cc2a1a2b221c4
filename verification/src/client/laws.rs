//! What holds of a client connection as a whole.

use crate::client::{
    drive_of, event_of, exchange_pumped, is_new, on_stream, pump_from, pump_of, reap_from,
    request_sent, with_streams, without_error, Builder, ConnectionView, EventView, Exchange, Phase,
};
use crate::frame::StreamId;
use crate::message::{RequestView, ResponseView};
use crate::names::PREFACE;
use crate::proto;
use crate::proto::connection::received;
use crate::proto::laws::{
    body_then_end, inbox_of, law_one_end, law_output_stays, lemma_driven_next_id, starts_with,
};
use crate::proto::output::{is_sound, lemma_settings_frame};
use crate::proto::pump::{at_end_of, pumped, read_from, response_of, BodyEventView};
use crate::proto::stream::{IncomingView, ResponsePollView};
use crate::proto::streams::StreamsView;
use crate::proto::user::{forgotten, request_queued};
use crate::error::ErrorView;
use crate::frame::Reason;
use crate::proto::connection::{driven, ending, reads_on};
use crate::proto::kept::{has_read_all, is_among};
use crate::proto::leaving::{all_over, farewell, is_left, law_nothing_left_to_do};
use crate::client::default_builder;
use crate::proto::streams::{find, lemma_find, Shutdown, Side};
use crate::codec::error::UserError;
use crate::message::Version;
use crate::names::{CONNECT, HEAD};
use crate::proto::pump::lemma_find_update;
use crate::proto::sending::can_go_out;
use crate::proto::stream::{Cause, Half};
use vstd::prelude::*;

verus! {

/// The first bytes that a client hands out are the preface, and its settings come
/// right behind it.
pub proof fn law_preface_and_settings_first(v: ConnectionView, b: Builder)
    requires
        b.wf(),
        is_new(v, b),
    ensures
        ({
            let driven = drive_of(ConnectionView { preface_sent: true, ..v });
            starts_with(PREFACE@ + driven.inner.codec.transmit(), PREFACE@ + b.settings.wire())
        }),
{
    assert(v.inner.codec.transmit() =~= b.settings.wire());
    law_output_stays(v.inner);
    let driven = drive_of(ConnectionView { preface_sent: true, ..v });
    let out = driven.inner.codec.transmit();
    let wire = b.settings.wire();
    assert((PREFACE@ + out).take((PREFACE@ + wire).len() as int) =~= PREFACE@ + out.take(
        wire.len() as int,
    ));
}

proof fn lemma_pump_keeps(v: ConnectionView, i: nat)
    ensures
        pump_from(v, i).preface_sent == v.preface_sent,
        pump_from(v, i).closed == v.closed,
        pump_from(v, i).close_err == v.close_err,
        pump_from(v, i).exchanges.len() == v.exchanges.len(),
    decreases v.exchanges.len() - i,
{
    if i < v.exchanges.len() {
        let x = v.exchanges[i as int];
        let (streams, phase, events) = exchange_pumped(v.inner.streams, x);
        let next = ConnectionView {
            inner: proto::ConnectionView { streams, ..v.inner },
            exchanges: v.exchanges.update(i as int, Exchange { phase, ..x }),
            events: v.events + events,
            ..v
        };
        lemma_pump_keeps(next, i + 1);
    }
}

proof fn lemma_reap(v: ConnectionView, i: nat)
    requires
        forall|j: int| 0 <= j < i && j < v.exchanges.len() ==> (
        #[trigger] v.exchanges[j]).phase != Phase::Done,
    ensures
        reap_from(v, i).preface_sent == v.preface_sent,
        reap_from(v, i).closed == v.closed,
        reap_from(v, i).close_err == v.close_err,
        reap_from(v, i).events == v.events,
        forall|j: int|
            0 <= j < reap_from(v, i).exchanges.len() ==> (
            #[trigger] reap_from(v, i).exchanges[j]).phase != Phase::Done,
        forall|x: Exchange|
            x.phase != Phase::Done ==> (#[trigger] reap_from(v, i).exchanges.contains(x)
                == v.exchanges.contains(x)),
    decreases v.exchanges.len() - i,
{
    if i < v.exchanges.len() {
        let x = v.exchanges[i as int];
        if x.phase == Phase::Done {
            let next = ConnectionView {
                inner: proto::ConnectionView {
                    streams: crate::proto::user::forgotten(v.inner.streams, x.id),
                    ..v.inner
                },
                exchanges: v.exchanges.remove(i as int),
                ..v
            };
            assert forall|j: int| 0 <= j < i && j < next.exchanges.len() implies (
            #[trigger] next.exchanges[j]).phase != Phase::Done by {
                assert(next.exchanges[j] == v.exchanges[j]);
            }
            lemma_reap(next, i);
            assert forall|y: Exchange| y.phase != Phase::Done implies v.exchanges.contains(y)
                == #[trigger] next.exchanges.contains(y) by {
                if v.exchanges.contains(y) {
                    let k = choose|k: int| 0 <= k < v.exchanges.len() && v.exchanges[k] == y;
                    let m = if k < i {
                        k
                    } else {
                        k - 1
                    };
                    assert(next.exchanges[m] == y);
                }
                if next.exchanges.contains(y) {
                    let k = choose|k: int|
                        0 <= k < next.exchanges.len() && next.exchanges[k] == y;
                    let m = if k < i {
                        k
                    } else {
                        k + 1
                    };
                    assert(v.exchanges[m] == y);
                }
            }
        } else {
            lemma_reap(v, i + 1);
        }
    }
}

/// The preface is handed out once: whatever is done with a connection, it does
/// not come to be owed again.
pub proof fn law_preface_once(v: ConnectionView)
    ensures
        drive_of(v).preface_sent == v.preface_sent,
        without_error(v).preface_sent == v.preface_sent,
        event_of(v).0.preface_sent == v.preface_sent,
{
    lemma_pump_keeps(drive_of(v), 0);
    lemma_reap(pump_from(drive_of(v), 0), 0);
}

/// The end of a connection is final: nothing below it moves any more, and it was
/// an event once, when it came.
pub proof fn law_end_is_final(v: ConnectionView)
    ensures
        v.closed ==> drive_of(v) == v,
        !v.closed && drive_of(v).closed ==> drive_of(v).events == v.events.push(EventView::GoAway),
        !v.closed && !drive_of(v).closed ==> drive_of(v).events == v.events,
{
}

/// The error that ended a connection is handed out once: after that the
/// connection gives none.
pub proof fn law_error_once(v: ConnectionView, src: Seq<u8>)
    requires
        v.closed,
    ensures
        drive_of(
            (ConnectionView {
                inner: crate::proto::connection::received(v.inner, src),
                ..without_error(v)
            }),
        ).close_err is None,
{
}

/// An event with which a response ends.
pub open spec fn is_end(e: EventView) -> bool {
    match e {
        EventView::Response(_, _, end) => end,
        EventView::Body(_, b) => !(b is Data),
        EventView::GoAway => false,
    }
}

/// A response is handed out as head, body and end, in this order: of the events
/// that handing it out gives, only the first can be the head, which comes only
/// while it is awaited; an end can only be the last, and is there exactly when
/// the response is done; and all of them are about its stream.
pub proof fn law_response_in_order(c: StreamsView, x: Exchange)
    ensures
        ({
            let (_, phase, events) = exchange_pumped(c, x);
            let n = events.len() as int;
            &&& x.phase == Phase::Done ==> n == 0 && phase == Phase::Done
            &&& phase == Phase::Head ==> n == 0 && x.phase == Phase::Head
            &&& forall|i: int|
                0 <= i < n ==> match #[trigger] events[i] {
                    EventView::Response(id, _, _) => i == 0 && x.phase == Phase::Head && id == x.id,
                    EventView::Body(id, _) => id == x.id,
                    EventView::GoAway => false,
                }
            &&& forall|i: int| 0 <= i < n - 1 ==> !is_end(#[trigger] events[i])
            &&& n > 0 ==> is_end(events[n - 1]) == (phase == Phase::Done)
            &&& x.phase != Phase::Done && phase == Phase::Done ==> n > 0
        }),
{
    reveal(exchange_pumped);
    law_one_end(c, x.id);
    law_one_end(crate::proto::pump::read_from(c, x.id), x.id);
}

/// A response that was received and is awaited is handed out as it is.
pub proof fn law_response_is_handed_out(c: StreamsView, x: Exchange, response: ResponseView)
    requires
        x.phase == Phase::Head,
        inbox_of(c, x.id).len() > 0,
        inbox_of(c, x.id)[0] == IncomingView::Response(response),
    ensures
        ({
            let (_, phase, events) = exchange_pumped(c, x);
            &&& phase != Phase::Head
            &&& events.len() > 0
            &&& events[0] matches EventView::Response(id, r, _) && id == x.id && r == response
        }),
{
    reveal(exchange_pumped);
    reveal(response_of);
}

/// Once a response is done, it is forgotten: after events were asked for, no
/// exchange is left that is done, and every other stays.
pub proof fn law_done_is_forgotten(v: ConnectionView)
    ensures
        forall|j: int|
            0 <= j < pump_of(v).exchanges.len() ==> (
            #[trigger] pump_of(v).exchanges[j]).phase != Phase::Done,
        forall|x: Exchange|
            x.phase != Phase::Done ==> (#[trigger] pump_of(v).exchanges.contains(x) == pump_from(
                drive_of(v),
                0,
            ).exchanges.contains(x)),
{
    lemma_reap(pump_from(drive_of(v), 0), 0);
}

/// An error that is kept means that the connection has ended.
pub open spec fn error_means_closed(v: ConnectionView) -> bool {
    v.close_err is Some ==> v.closed
}

/// The connection has ended, and its error was handed out if there was one.
pub open spec fn is_done(v: ConnectionView) -> bool {
    v.closed && v.close_err is None
}

pub(crate) proof fn lemma_pump_errors(v: ConnectionView, i: nat)
    ensures
        pump_from(v, i).closed == v.closed,
        pump_from(v, i).close_err == v.close_err,
        reap_from(v, i).closed == v.closed,
        reap_from(v, i).close_err == v.close_err,
    decreases v.exchanges.len() - i,
{
    if i < v.exchanges.len() {
        let x = v.exchanges[i as int];
        let (streams, phase, events) = exchange_pumped(v.inner.streams, x);
        let next = ConnectionView {
            inner: proto::ConnectionView { streams, ..v.inner },
            exchanges: v.exchanges.update(i as int, Exchange { phase, ..x }),
            events: v.events + events,
            ..v
        };
        lemma_pump_errors(next, i + 1);
        lemma_pump_errors(v, i + 1);
        let fewer = ConnectionView {
            exchanges: v.exchanges.remove(i as int),
            ..with_streams(v, forgotten(v.inner.streams, x.id))
        };
        lemma_pump_errors(fewer, i);
    }
}

/// Taking bytes fails at most once: the call that hands the error out leaves nothing to
/// be handed out, and whatever is done with the connection after that, no call fails.
pub proof fn law_fails_once(
    v: ConnectionView,
    src: Seq<u8>,
    streams: StreamsView,
    request: RequestView,
    end: bool,
)
    requires
        error_means_closed(v),
    ensures
        ({
            let taken = drive_of(ConnectionView { inner: received(v.inner, src), ..v });
            &&& error_means_closed(taken)
            &&& taken.close_err is Some ==> is_done(without_error(taken))
            &&& is_done(v) ==> taken.close_err is None && is_done(without_error(taken))
        }),
        error_means_closed(drive_of(v)),
        is_done(v) ==> is_done(drive_of(v)),
        error_means_closed(event_of(v).0),
        is_done(v) ==> is_done(event_of(v).0),
        error_means_closed(with_streams(v, streams)),
        is_done(v) ==> is_done(with_streams(v, streams)),
        request_sent(v, request, end) matches Ok((after, _)) ==> error_means_closed(after) && (
        is_done(v) ==> is_done(after)),
{
    lemma_pump_errors(drive_of(v), 0);
    lemma_pump_errors(pump_from(drive_of(v), 0), 0);
}

/// The number of events that say that the connection has ended.
pub open spec fn ends_in(events: Seq<EventView>) -> nat
    decreases events.len(),
{
    if events.len() == 0 {
        0
    } else {
        ends_in(events.drop_last()) + if events.last() is GoAway {
            1nat
        } else {
            0
        }
    }
}

pub(crate) proof fn lemma_ends_concat(a: Seq<EventView>, b: Seq<EventView>)
    ensures
        ends_in(a + b) == ends_in(a) + ends_in(b),
    decreases b.len(),
{
    if b.len() == 0 {
        assert(a + b =~= a);
    } else {
        assert((a + b).drop_last() =~= a + b.drop_last());
        lemma_ends_concat(a, b.drop_last());
    }
}

proof fn lemma_no_ends(events: Seq<EventView>)
    requires
        forall|i: int| 0 <= i < events.len() ==> !(#[trigger] events[i] is GoAway),
    ensures
        ends_in(events) == 0,
    decreases events.len(),
{
    if events.len() > 0 {
        let init = events.drop_last();
        assert forall|i: int| 0 <= i < init.len() implies !(#[trigger] init[i] is GoAway) by {
            assert(init[i] == events[i]);
        }
        assert(!(events[events.len() - 1] is GoAway));
        lemma_no_ends(init);
    }
}

proof fn lemma_pump_ends(v: ConnectionView, i: nat)
    ensures
        ends_in(pump_from(v, i).events) == ends_in(v.events),
    decreases v.exchanges.len() - i,
{
    if i < v.exchanges.len() {
        let x = v.exchanges[i as int];
        let (streams, phase, events) = exchange_pumped(v.inner.streams, x);
        let next = ConnectionView {
            inner: proto::ConnectionView { streams, ..v.inner },
            exchanges: v.exchanges.update(i as int, Exchange { phase, ..x }),
            events: v.events + events,
            ..v
        };
        law_response_in_order(v.inner.streams, x);
        lemma_no_ends(events);
        lemma_ends_concat(v.events, events);
        lemma_pump_ends(next, i + 1);
    }
}

/// The end of a connection is handed out once, and only once it has ended: every call
/// adds such an event exactly when the connection ends in it, and none gets lost.
pub proof fn law_end_is_told_once(v: ConnectionView)
    requires
        !v.closed ==> ends_in(v.events) == 0,
    ensures
        ends_in(drive_of(v).events) == ends_in(v.events) + if drive_of(v).closed && !v.closed {
            1nat
        } else {
            0
        },
        ({
            let (after, e) = event_of(v);
            &&& ends_in(after.events) + (if e matches Some(EventView::GoAway) {
                1nat
            } else {
                0
            }) == ends_in(v.events) + if after.closed && !v.closed {
                1nat
            } else {
                0
            }
            &&& e matches Some(EventView::GoAway) ==> after.closed
            &&& !after.closed ==> ends_in(after.events) == 0
            &&& v.closed ==> after.closed
        }),
{
    let d = drive_of(v);
    if d.events != v.events {
        assert(d.events.drop_last() =~= v.events);
    }
    lemma_pump_ends(d, 0);
    lemma_pump_errors(d, 0);
    lemma_reap(pump_from(d, 0), 0);
    let w = if v.events.len() == 0 {
        pump_of(v)
    } else {
        v
    };
    if w.events.len() > 0 {
        let first = w.events.take(1);
        assert(first + w.events.skip(1) =~= w.events);
        lemma_ends_concat(first, w.events.skip(1));
        assert(first.drop_last() =~= Seq::<EventView>::empty());
        assert(ends_in(first.drop_last()) == 0);
    }
}

/// How far a response is once this event was handed out, if it can be handed out now.
pub open spec fn next_phase(phase: Phase, e: EventView) -> Option<Phase> {
    match (phase, e) {
        (Phase::Head, EventView::Response(_, _, end)) => Some(
            if end {
                Phase::Done
            } else {
                Phase::Body
            },
        ),
        (Phase::Head, EventView::Body(_, BodyEventView::Reset(_))) => Some(Phase::Done),
        (Phase::Body, EventView::Body(_, BodyEventView::Data(_))) => Some(Phase::Body),
        (Phase::Body, EventView::Body(_, _)) => Some(Phase::Done),
        _ => None,
    }
}

/// How far a message is once a run of events was handed out, if they can come in this
/// order.
pub open spec fn follows(phase: Phase, events: Seq<EventView>) -> Option<Phase>
    decreases events.len(),
{
    if events.len() == 0 {
        Some(phase)
    } else {
        match next_phase(phase, events[0]) {
            None => None,
            Some(next) => follows(next, events.skip(1)),
        }
    }
}

/// Events that come one run after the other come in order if each run does.
pub proof fn law_runs_of_events(phase: Phase, a: Seq<EventView>, b: Seq<EventView>)
    ensures
        follows(phase, a + b) == match follows(phase, a) {
            None => None::<Phase>,
            Some(next) => follows(next, b),
        },
    decreases a.len(),
{
    if a.len() == 0 {
        assert(a + b =~= b);
    } else {
        assert((a + b)[0] == a[0]);
        assert((a + b).skip(1) =~= a.skip(1) + b);
        if let Some(next) = next_phase(phase, a[0]) {
            law_runs_of_events(next, a.skip(1), b);
        }
    }
}

proof fn lemma_body_follows(id: StreamId, events: Seq<BodyEventView>, done: bool)
    requires
        body_then_end(events, done),
    ensures
        follows(Phase::Body, on_stream(id, events)) == Some(
            if done {
                Phase::Done
            } else {
                Phase::Body
            },
        ),
    decreases events.len(),
{
    reveal_with_fuel(follows, 2);
    let all = on_stream(id, events);
    if events.len() > 0 {
        let rest = events.skip(1);
        assert(all.skip(1) =~= on_stream(id, rest));
        assert(all[0] == EventView::Body(id, events[0]));
        if events.len() == 1 {
            assert(all.skip(1).len() == 0);
        } else {
            assert(events[0] is Data);
            assert forall|i: int| 0 <= i < rest.len() - 1 implies (#[trigger] rest[i]) is Data by {
                assert(rest[i] == events[i + 1]);
            }
            assert(rest[rest.len() - 1] == events[events.len() - 1]);
            lemma_body_follows(id, rest, done);
        }
    }
}

/// The events of a response come in order, over all calls: a head, parts of the body,
/// and one end; or an end alone. Each time that a response is handed out further, its
/// events go on from the phase that was noted, and the phase that they come to is
/// noted.
pub proof fn law_response_events_follow(c: StreamsView, x: Exchange)
    ensures
        follows(x.phase, exchange_pumped(c, x).2) == Some(exchange_pumped(c, x).1),
{
    reveal(exchange_pumped);
    reveal_with_fuel(follows, 2);
    match x.phase {
        Phase::Done => {
            assert(exchange_pumped(c, x).2.len() == 0);
        },
        Phase::Body => {
            law_one_end(c, x.id);
            let (_, events, done) = pumped(c, x.id);
            lemma_body_follows(x.id, events, done);
            assert(Seq::<EventView>::empty() + on_stream(x.id, events) =~= on_stream(x.id, events));
        },
        Phase::Head => {
            let all = exchange_pumped(c, x).2;
            match response_of(c, x.id) {
                ResponsePollView::Pending => {},
                ResponsePollView::Failed(_) => {
                    assert(all.skip(1).len() == 0);
                },
                ResponsePollView::Ready(_) => {
                    let c = read_from(c, x.id);
                    if at_end_of(c, x.id) {
                        assert(all.skip(1).len() == 0);
                    } else {
                        law_one_end(c, x.id);
                        let (_, events, done) = pumped(c, x.id);
                        lemma_body_follows(x.id, events, done);
                        assert(all.skip(1) =~= on_stream(x.id, events));
                    }
                },
            }
        },
    }
}

/// Requests get the identifiers of this side one after the other: each gets the next
/// one, and the one after it is two higher.
pub proof fn law_identifiers_in_order(v: ConnectionView, request: RequestView, end: bool)
    ensures
        request_sent(v, request, end) matches Ok((after, id)) ==> {
            &&& id.id == v.inner.streams.m.next_id
            &&& after.inner.streams.m.next_id == id.id + 2
        },
{
    reveal(request_queued);
}

/// Nothing that is received or handed out uses up an identifier.
pub proof fn law_identifiers_stay(v: ConnectionView)
    ensures
        drive_of(v).inner.streams.m.next_id == v.inner.streams.m.next_id,
{
    lemma_driven_next_id(v.inner);
}

/// All of the output of a client is whole frames: behind the preface, what a new
/// connection has to hand out is its SETTINGS frame, and from then on
/// `law_output_is_whole_frames` holds.
pub proof fn law_new_output_is_sound(v: ConnectionView, b: Builder)
    requires
        b.wf(),
        is_new(v, b),
    ensures
        is_sound(v.inner),
        v.inner.codec.transmit() == b.settings.wire(),
{
    assert(v.inner.codec.transmit() =~= b.settings.wire());
    lemma_settings_frame(b.settings);
}

/// A client whose connection one of the two sides has left, and on which nothing is left to
/// be done on any stream, has ended once it was driven: the end is an event, behind all
/// others, it is no error if the peer gave none, and the peer is told.
pub proof fn law_left_connection_is_told_of(v: ConnectionView)
    requires
        !v.closed,
        is_sound(v.inner),
        reads_on(v.inner),
        has_read_all(v.inner),
        is_left(v.inner.streams),
        all_over(v.inner.streams.streams),
    ensures
        drive_of(v).closed,
        drive_of(v).events == v.events.push(EventView::GoAway),
        is_among(
            farewell(v.inner.streams, Reason::NO_ERROR).wire(),
            drive_of(v).inner.codec.transmit(),
        ),
{
    law_nothing_left_to_do(v.inner);
}

/// A client learns that its connection has ended, whatever ended it: as it is driven, the
/// end is an event, and the error that it ended with, if there is one, is kept to be handed
/// out.
pub proof fn law_every_end_is_told(v: ConnectionView)
    requires
        !v.closed,
        driven(v.inner).streams.m.closed is Some,
    ensures
        drive_of(v).closed,
        drive_of(v).events == v.events.push(EventView::GoAway),
        drive_of(v).inner == driven(v.inner),
        ending(driven(v.inner).streams) matches Some(e) ==> drive_of(v).close_err == Some(
            ErrorView::Proto(e),
        ),
        ending(driven(v.inner).streams) is None ==> drive_of(v).close_err == v.close_err,
{
}

/// A client that is just made keeps to what it was made with: its settings go out, and the
/// limits are the ones that were set, or those that everyone starts with. Nothing has
/// happened yet.
pub proof fn law_what_a_client_starts_with(v: ConnectionView, b: Builder)
    requires
        is_new(v, b),
    ensures
        ({
            let c = v.inner.streams;
            let read = v.inner.codec.read;
            let write = v.inner.codec.write;
            &&& c.m.side == Side::Client
            &&& c.m.max_send_streams == b.initial_max_send_streams
            &&& c.m.next_id == b.stream_id.id
            &&& c.m.local == b.settings
            &&& !c.m.local_acked
            &&& c.m.init_send == 65_535 && c.m.init_recv == 65_535
            &&& c.m.send_window == 65_535 && c.m.free == 65_535
            &&& c.m.recv_window == 65_535 && c.m.in_flight == 0
            &&& c.m.recv_target == match b.initial_target_connection_window_size {
                Some(n) => n,
                None => 65_535,
            }
            &&& c.m.max_send_frame == 16_384
            &&& c.m.max_recv_streams == match b.settings.max_concurrent_streams {
                Some(n) => n as usize,
                None => usize::MAX,
            }
            &&& c.m.max_send_buffer == b.max_send_buffer_size
            &&& c.m.reset_stream_max == b.reset_stream_max
            &&& c.m.reset_stream_duration == b.reset_stream_duration
            &&& c.m.remote_reset_max == b.pending_accept_reset_stream_max
            &&& c.m.local_reset_max == b.local_max_error_reset_streams
            &&& c.m.last_remote == 0 && c.m.closed is None && c.m.remote_error is None
            &&& c.m.served == 0x7fff_ffff && c.m.remote_served == 0x7fff_ffff
            &&& c.streams.len() == 0 && c.accept.len() == 0 && c.control.len() == 0
            &&& read.max_frame_size == match b.settings.max_frame_size {
                Some(n) => n as usize,
                None => 16_384,
            }
            &&& read.max_header_list_size == match b.settings.max_header_list_size {
                Some(n) => n as usize,
                None => 16_777_216,
            }
            &&& read.decoder.table.entries.len() == 0
            &&& read.decoder.table.max_size == 4_096 && read.decoder.allowed == 4_096
            &&& write.max_frame_size == 16_384
            &&& write.buf == b.settings.wire()
            &&& v.events.len() == 0 && v.exchanges.len() == 0 && !v.closed
        }),
{
}

/// What a client is made with unless something else is set.
pub proof fn law_defaults()
    ensures
        default_builder().initial_max_send_streams == usize::MAX,
        default_builder().stream_id.id == 1,
        default_builder().initial_target_connection_window_size is None,
        default_builder().max_send_buffer_size == 409_600,
        default_builder().reset_stream_max == 50,
        default_builder().reset_stream_duration == 1_000,
        default_builder().pending_accept_reset_stream_max == 20,
        default_builder().local_max_error_reset_streams == Some(1_024usize),
        default_builder().settings.header_table_size is None,
        default_builder().settings.enable_push is None,
        default_builder().settings.max_concurrent_streams is None,
        default_builder().settings.initial_window_size is None,
        default_builder().settings.max_frame_size is None,
        default_builder().settings.max_header_list_size is None,
{
}

/// Whether a stream is there on which nothing that was received waits, and on which more can
/// still come.
pub open spec fn is_awaited(c: StreamsView, id: StreamId) -> bool {
    find(c.streams, id) matches Some(i) && c.streams[i].inbox.len() == 0
        && c.streams[i].st.cause is None && c.streams[i].st.recv != Half::Closed
}

proof fn lemma_nothing_pumped(c: StreamsView, x: Exchange)
    requires
        exchange_pumped(c, x).2.len() == 0,
    ensures
        exchange_pumped(c, x).0 == c,
        exchange_pumped(c, x).1 == x.phase,
        x.phase != Phase::Done ==> is_awaited(c, x.id),
{
    reveal(exchange_pumped);
    reveal(response_of);
    reveal(pumped);
}

proof fn lemma_pumped_more(v: ConnectionView, i: nat)
    ensures
        pump_from(v, i).events.len() >= v.events.len(),
    decreases v.exchanges.len() - i,
{
    if i < v.exchanges.len() {
        let x = v.exchanges[i as int];
        let (streams, phase, events) = exchange_pumped(v.inner.streams, x);
        let next = ConnectionView {
            inner: proto::ConnectionView { streams, ..v.inner },
            exchanges: v.exchanges.update(i as int, Exchange { phase, ..x }),
            events: v.events + events,
            ..v
        };
        lemma_pumped_more(next, i + 1);
    }
}

proof fn lemma_pumped_nothing(v: ConnectionView, i: nat)
    requires
        pump_from(v, i).events.len() == 0,
        forall|k: int|
            0 <= k < v.exchanges.len() ==> (#[trigger] v.exchanges[k]).phase != Phase::Done,
    ensures
        pump_from(v, i) == v,
        forall|k: int|
            i <= k < v.exchanges.len() ==> is_awaited(
                v.inner.streams,
                (#[trigger] v.exchanges[k]).id,
            ),
    decreases v.exchanges.len() - i,
{
    if i < v.exchanges.len() {
        let x = v.exchanges[i as int];
        let (streams, phase, events) = exchange_pumped(v.inner.streams, x);
        let next = ConnectionView {
            inner: proto::ConnectionView { streams, ..v.inner },
            exchanges: v.exchanges.update(i as int, Exchange { phase, ..x }),
            events: v.events + events,
            ..v
        };
        lemma_pumped_more(next, i + 1);
        lemma_nothing_pumped(v.inner.streams, x);
        assert(next.exchanges =~= v.exchanges);
        assert(next.events =~= v.events);
        assert(next == v);
        lemma_pumped_nothing(v, i + 1);
    }
}

proof fn lemma_reaped_nothing(v: ConnectionView, i: nat)
    requires
        forall|k: int|
            0 <= k < v.exchanges.len() ==> (#[trigger] v.exchanges[k]).phase != Phase::Done,
    ensures
        reap_from(v, i) == v,
    decreases v.exchanges.len() - i,
{
    if i < v.exchanges.len() {
        lemma_reaped_nothing(v, i + 1);
    }
}

/// Nothing is held back: once there is no event, all that was received on the streams of the
/// exchanges was handed out, more can come on each of them, and each of them is still there.
pub proof fn law_nothing_is_held_back(v: ConnectionView)
    requires
        forall|k: int|
            0 <= k < v.exchanges.len() ==> (#[trigger] v.exchanges[k]).phase != Phase::Done,
    ensures
        event_of(v).1 is None ==> {
            let after = event_of(v).0;
            &&& after.exchanges == v.exchanges
            &&& after.closed == v.closed
            &&& forall|k: int|
                0 <= k < v.exchanges.len() ==> is_awaited(
                    after.inner.streams,
                    (#[trigger] v.exchanges[k]).id,
                )
        },
{
    if event_of(v).1 is None {
        let driven = drive_of(v);
        let mid = pump_from(driven, 0);
        lemma_reap_events(mid, 0);
        lemma_pumped_nothing(driven, 0);
        lemma_reaped_nothing(mid, 0);
    }
}

proof fn lemma_reap_events(v: ConnectionView, i: nat)
    ensures
        reap_from(v, i).events == v.events,
    decreases v.exchanges.len() - i,
{
    if i < v.exchanges.len() {
        let x = v.exchanges[i as int];
        if x.phase == Phase::Done {
            lemma_reap_events(
                ConnectionView {
                    inner: proto::ConnectionView {
                        streams: forgotten(v.inner.streams, x.id),
                        ..v.inner
                    },
                    exchanges: v.exchanges.remove(i as int),
                    ..v
                },
                i,
            );
        } else {
            lemma_reap_events(v, i + 1);
        }
    }
}

/// The head of a response comes with the end exactly if the response was received to its end
/// and nothing else of it waits.
pub proof fn law_end_with_the_head(c: StreamsView, x: Exchange, i: int, response: ResponseView)
    requires
        x.phase == Phase::Head,
        find(c.streams, x.id) == Some(i),
        c.streams[i].inbox.len() > 0,
        c.streams[i].inbox[0] == IncomingView::Response(response),
    ensures
        ({
            let s = c.streams[i];
            let end = s.st.recv == Half::Closed && s.st.cause is None && s.inbox.len() == 1;
            let (_, phase, events) = exchange_pumped(c, x);
            &&& events.len() > 0
            &&& events[0] == EventView::Response(x.id, response, end)
            &&& end ==> events.len() == 1 && phase == Phase::Done
        }),
{
    reveal(exchange_pumped);
    reveal(response_of);
    reveal(at_end_of);
    lemma_find(c.streams, x.id);
    lemma_find_update(c.streams, x.id, i, c.streams[i].read());
}

/// A response that will not come is told of: a stream that ended before its time is told of
/// with the reason, one that ended without a response is a violation, and one that is not
/// there is an error of its own. The exchange is done then.
pub proof fn law_responses_that_do_not_come(c: StreamsView, x: Exchange)
    requires
        x.phase == Phase::Head,
        inbox_of(c, x.id).len() == 0,
    ensures
        ({
            let (after, phase, events) = exchange_pumped(c, x);
            let reason = match find(c.streams, x.id) {
                None => Some(Reason::INTERNAL_ERROR),
                Some(i) => match c.streams[i].st.cause {
                    Some(Cause::Stream(reason, _)) => Some(reason),
                    Some(Cause::Connection(reason, _)) => Some(reason),
                    None => if c.streams[i].st.recv == Half::Closed {
                        Some(Reason::PROTOCOL_ERROR)
                    } else {
                        None
                    },
                },
            };
            &&& after == c
            &&& reason is None ==> events.len() == 0 && phase == Phase::Head
            &&& reason matches Some(r) ==> phase == Phase::Done && events == seq![
                EventView::Body(x.id, BodyEventView::Reset(r)),
            ]
        }),
{
    reveal(exchange_pumped);
    reveal(response_of);
}

/// A request is taken if the connection goes on, an identifier is left, there can be such a
/// request, its target says where it goes, and none of its headers speaks of the connection.
/// It opens an exchange behind the others, whose response is awaited; else the reason is
/// given.
pub proof fn law_when_requests_are_sent(v: ConnectionView, request: RequestView, end: bool)
    ensures
        ({
            let m = v.inner.streams.m;
            let leaves = m.closed is Some || m.remote_error is Some || m.shutdown != Shutdown::Off;
            let tunnel = request.method == CONNECT@ && request.protocol is None;
            let scheme = if tunnel {
                None
            } else {
                request.uri.scheme
            };
            let nowhere = scheme is None && request.uri.authority is None && request.version
                == Version::HTTP_2;
            match request_sent(v, request, end) {
                Err(e) => if leaves {
                    e == UserError::Rejected
                } else if m.next_id > 0x7fff_ffff {
                    e == UserError::OverflowedStreamId
                } else if !request.wf() {
                    e == UserError::MalformedHeaders
                } else if nowhere {
                    e == UserError::MissingUriSchemeAndAuthority
                } else {
                    e == UserError::MalformedHeaders && !can_go_out(request.headers)
                },
                Ok((after, id)) => {
                    &&& !leaves && m.next_id <= 0x7fff_ffff && request.wf() && !nowhere
                    &&& can_go_out(request.headers)
                    &&& id.id == m.next_id
                    &&& after.exchanges == v.exchanges.push((Exchange { id, phase: Phase::Head }))
                    &&& after.events == v.events
                    &&& after.closed == v.closed && after.close_err == v.close_err
                    &&& after.preface_sent == v.preface_sent
                    &&& after.inner.codec == v.inner.codec
                    &&& after.inner.streams.streams.len() == v.inner.streams.streams.len() + 1
                    &&& after.inner.streams.streams.last().st.head == (request.method == HEAD@)
                },
            }
        }),
{
    reveal(request_queued);
}

} // verus!
