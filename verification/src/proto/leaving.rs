//! How connections come to their end.

use crate::frame::control::{GoAwayView, Ping, Reset};
use crate::frame::{FrameView, Reason, StreamId};
use crate::names::TOO_MANY_INTERNAL_RESETS;
use crate::proto::connection::{
    driven, ending, frame_received, read_all, reads_on, written, ConnectionView,
};
use crate::proto::control::{handled, leave_asked, leave_taken, settled};
use crate::proto::error::{ErrorView, Initiator};
use crate::proto::flush::{conn_widened, flushed, sent_all, sent_from};
use crate::proto::kept::{has_read_all, is_among, lemma_written_among};
use crate::proto::output::{is_sound, lemma_written_sound};
use crate::proto::receiving::{is_ended_by, lemma_end_from};
use crate::proto::stream::{Cause, Half, StreamView};
use crate::proto::streams::{find, Closed, Meter, Shutdown, StreamsView};
use crate::proto::user::reset_by;
use crate::proto::windows::lemma_purged_from;
use vstd::prelude::*;

verus! {

/// Nothing is left to be done on a stream: both messages have ended, and nothing waits to
/// be sent.
pub open spec fn is_over(s: StreamView) -> bool {
    s.st.send == Half::Closed && s.st.recv == Half::Closed && s.outbox.len() == 0
}

/// Nothing is left to be done on any stream.
pub open spec fn all_over(streams: Seq<StreamView>) -> bool {
    forall|j: int| 0 <= j < streams.len() ==> is_over(#[trigger] streams[j])
}

/// One of the two sides has taken its leave.
pub open spec fn is_left(c: StreamsView) -> bool {
    c.m.remote_error is Some || c.m.shutdown == Shutdown::Going
}

/// The GOAWAY frame with which this side leaves, having served all streams up to the last
/// that the peer opened.
pub open spec fn farewell(c: StreamsView, reason: Reason) -> GoAwayView {
    GoAwayView {
        last_stream_id: StreamId { id: c.m.last_remote },
        error_code: reason,
        debug_data: Seq::empty(),
    }
}

/// A connection that one of the two sides has left ends once nothing is left to be done on
/// any stream, and not before; the peer is told. One that neither has left goes on.
pub proof fn law_left_connections_end(c: StreamsView)
    requires
        c.m.closed is None,
    ensures
        is_left(c) && all_over(c.streams) ==> {
            &&& settled(c).m.closed matches Some(end) && end.reason == Reason::NO_ERROR
            &&& settled(c).control == c.control.push(
                FrameView::GoAway(farewell(c, Reason::NO_ERROR)),
            )
            &&& settled(c).streams == c.streams
        },
        !is_left(c) || !all_over(c.streams) ==> settled(c) == c,
{
    if all_over(c.streams) {
        assert forall|i: int| 0 <= i < c.streams.len() implies (
        #[trigger] c.streams[i]).done() by {
            assert(is_over(c.streams[i]));
        }
    } else {
        let i = choose|i: int| 0 <= i < c.streams.len() && !is_over(#[trigger] c.streams[i]);
        assert(!c.streams[i].done());
    }
}

/// Once everything that was received is read and everything that can go out went out, a
/// connection that one of the two sides has left, and on which nothing is left to be done,
/// has ended.
pub proof fn law_driving_ends_left_connections(v: ConnectionView)
    requires
        ({
            let c = written(read_all(v)).streams;
            is_left(c) && all_over(c.streams)
        }),
    ensures
        driven(v).streams.m.closed is Some,
{
    reveal(driven);
    let b = written(read_all(v));
    if b.streams.m.closed is None {
        law_left_connections_end(b.streams);
    }
    let d = ConnectionView { streams: settled(b.streams), ..b };
    lemma_written_meter(d.streams);
}

proof fn lemma_sent_meter(c: StreamsView, i: nat)
    ensures
        ({
            let m = sent_all(c, i).0.m;
            &&& m.closed == c.m.closed
            &&& m.remote_error == c.m.remote_error
            &&& m.shutdown == c.m.shutdown
            &&& m.last_remote == c.m.last_remote
        }),
        all_over(c.streams) ==> all_over(sent_all(c, i).0.streams),
    decreases c.streams.len() - i,
{
    if i < c.streams.len() {
        let next = sent_from(c, i as int).0;
        lemma_sent_meter(next, i + 1);
        if all_over(c.streams) {
            let s = c.streams[i as int];
            assert(is_over(s));
            assert forall|j: int| 0 <= j < next.streams.len() implies is_over(
                #[trigger] next.streams[j],
            ) by {
                if j != i {
                    assert(next.streams[j] == c.streams[j]);
                }
            }
        }
    }
}

proof fn lemma_written_meter(c: StreamsView)
    ensures
        ({
            let m = flushed(c).0.m;
            &&& m.closed == c.m.closed
            &&& m.remote_error == c.m.remote_error
            &&& m.shutdown == c.m.shutdown
            &&& m.last_remote == c.m.last_remote
        }),
        all_over(c.streams) ==> all_over(flushed(c).0.streams),
{
    let start = conn_widened(StreamsView { control: Seq::empty(), ..c }).0;
    lemma_sent_meter(start, 0);
    let after = sent_all(start, 0).0.streams;
    lemma_purged_from(after);
    if all_over(c.streams) {
        let left = flushed(c).0.streams;
        assert forall|j: int| 0 <= j < left.len() implies is_over(#[trigger] left[j]) by {
            assert(after.contains(left[j]));
        }
    }
}

/// A connection that one of the two sides has left, and on which nothing is left to be done
/// on any stream, has ended once it was driven, and a GOAWAY frame that says so is among
/// the frames that go out.
pub proof fn law_nothing_left_to_do(v: ConnectionView)
    requires
        is_sound(v),
        reads_on(v),
        has_read_all(v),
        is_left(v.streams),
        all_over(v.streams.streams),
    ensures
        driven(v).streams.m.closed matches Some(end) && end.reason == Reason::NO_ERROR,
        is_among(farewell(v.streams, Reason::NO_ERROR).wire(), driven(v).codec.transmit()),
{
    reveal(driven);
    let a = read_all(v);
    assert(a.streams == v.streams);
    assert(a.codec.transmit() == v.codec.transmit());
    lemma_written_meter(a.streams);
    lemma_written_sound(a);
    let b = written(a);
    law_left_connections_end(b.streams);
    let d = ConnectionView { streams: settled(b.streams), ..b };
    lemma_written_meter(d.streams);
    assert(is_sound(d));
    let n = b.streams.control.len() as int;
    let all = flushed(d.streams).1;
    assert(all[n] == d.streams.control[n]);
    lemma_written_among(d, n);
}

/// A connection with an open stream goes on until that is done, though one of the two sides
/// has left.
pub proof fn law_open_streams_finish(c: StreamsView, j: int)
    requires
        0 <= j < c.streams.len(),
        !is_over(c.streams[j]),
    ensures
        settled(c) == c,
{
    assert(!c.streams[j].done());
}

/// A server that begins to take its leave tells the peer that it will go, with a GOAWAY
/// frame that still allows every stream, and asks for an answer; nothing else changes, and
/// nothing at all if it had begun already or the connection has ended.
pub proof fn law_leaving_begins(c: StreamsView)
    ensures
        c.m.shutdown != Shutdown::Off || c.m.closed is Some ==> leave_asked(c) == c,
        c.m.shutdown == Shutdown::Off && c.m.closed is None ==> {
            let after = leave_asked(c);
            let n = c.control.len() as int;
            &&& after.streams == c.streams && after.accept == c.accept
            &&& after.m == Meter { shutdown: Shutdown::Asked, ..c.m }
            &&& after.control.len() == n + 2
            &&& after.control.take(n) == c.control
            &&& after.control[n] == FrameView::GoAway(
                GoAwayView {
                    last_stream_id: StreamId { id: 0x7fff_ffff },
                    error_code: Reason::NO_ERROR,
                    debug_data: Seq::empty(),
                },
            )
            &&& after.control[n + 1] matches FrameView::Ping(p) && !p.ack
        },
{
    reveal(leave_asked);
    assert(leave_asked(c).control.take(c.control.len() as int) =~= c.control);
}

/// Once the peer has answered, the server says which streams it still serves, which are all
/// that came in so far: the question and its answer have the same payload.
pub proof fn law_the_answer_is_awaited(c: StreamsView, p: Ping)
    requires
        c.m.shutdown == Shutdown::Off,
        c.m.closed is None,
        leave_asked(c).control.last() == FrameView::Ping(p),
    ensures
        ({
            let asked = leave_asked(c);
            let (after, fault) = frame_received(
                asked,
                FrameView::Ping(Ping { ack: true, ..p }),
            );
            &&& fault is None
            &&& after.m.shutdown == Shutdown::Going
            &&& after.m.served == c.m.last_remote
            &&& after.streams == c.streams && after.accept == c.accept
            &&& after.control == asked.control.push(
                FrameView::GoAway(farewell(c, Reason::NO_ERROR)),
            )
        }),
        forall|q: Ping|
            q.ack && (q.high != p.high || q.low != p.low) ==> #[trigger] frame_received(
                leave_asked(c),
                FrameView::Ping(q),
            ) == (leave_asked(c), None::<ErrorView>),
{
    reveal(leave_asked);
}

/// A client that takes its leave says which streams it still serves, with its reason; the
/// streams that are there go on. If it had left already or the connection has ended,
/// nothing changes.
pub proof fn law_leave_is_taken(c: StreamsView, reason: Reason)
    ensures
        c.m.shutdown == Shutdown::Going || c.m.closed is Some ==> leave_taken(c, reason) == c,
        c.m.shutdown != Shutdown::Going && c.m.closed is None ==> {
            let after = leave_taken(c, reason);
            &&& after.streams == c.streams && after.accept == c.accept
            &&& after.control == c.control.push(FrameView::GoAway(farewell(c, reason)))
            &&& after.m == Meter { shutdown: Shutdown::Going, served: c.m.last_remote, ..c.m }
        },
{
    reveal(leave_taken);
}

/// An error of the connection ends it: every stream that was not over ends with its reason,
/// what was received on it staying to be read, the peer is told with a GOAWAY frame, and no
/// other stream changes.
pub proof fn law_errors_end_the_connection(
    c: StreamsView,
    debug: Seq<u8>,
    reason: Reason,
    initiator: Initiator,
)
    requires
        debug.len() <= 1024,
    ensures
        ({
            let after = handled(c, ErrorView::GoAway(debug, reason, initiator));
            &&& after.m.closed == Some(Closed { reason, initiator })
            &&& after.accept == c.accept
            &&& after.control == c.control.push(
                FrameView::GoAway(GoAwayView { debug_data: debug, ..farewell(c, reason) }),
            )
            &&& after.streams.len() == c.streams.len()
            &&& forall|j: int|
                0 <= j < c.streams.len() ==> {
                    let s = c.streams[j];
                    let t = #[trigger] after.streams[j];
                    if is_ended_by(s, c.m.side, None) {
                        &&& t.st.cause == Some(Cause::Connection(reason, initiator))
                        &&& is_over(t)
                        &&& t.inbox == s.inbox
                        &&& t.st.id == s.st.id
                    } else {
                        t == s
                    }
                }
        }),
{
    reveal(handled);
    lemma_end_from(
        c.streams,
        0,
        c.m.side,
        None,
        Cause::Connection(reason, initiator),
        c.m.free,
    );
}

/// An error of a stream ends that stream alone: the peer is told with a RST_STREAM frame
/// with the reason, and the connection goes on. That many errors are put up with as this
/// side allows; the next one ends the connection.
pub proof fn law_errors_of_streams(c: StreamsView, id: StreamId, reason: Reason, by: Initiator)
    requires
        0 < id.id <= 0x7fff_ffff,
    ensures
        ({
            let after = handled(c, ErrorView::Reset(id, reason, by));
            let spent = c.m.local_reset_max matches Some(max) && c.m.local_resets >= max;
            &&& spent ==> after.m.closed == Some(
                Closed { reason: Reason::ENHANCE_YOUR_CALM, initiator: Initiator::Library },
            ) && after.control == c.control.push(
                FrameView::GoAway(
                    GoAwayView {
                        debug_data: TOO_MANY_INTERNAL_RESETS@,
                        ..farewell(c, Reason::ENHANCE_YOUR_CALM)
                    },
                ),
            )
            &&& !spent ==> {
                &&& after.m.closed == c.m.closed
                &&& after.accept == c.accept
                &&& c.m.local_reset_max is Some && c.m.local_resets < usize::MAX
                    ==> after.m.local_resets == c.m.local_resets + 1
                &&& find(c.streams, id) is None ==> after.control == c.control.push(
                    FrameView::Reset(Reset { stream_id: id, error_code: reason }),
                )
                &&& find(c.streams, id) matches Some(i) ==> c.streams[i].st.cause is None
                    && !is_over(c.streams[i]) && c.streams[i].st.opened ==> after.control
                    == c.control.push(
                    FrameView::Reset(Reset { stream_id: id, error_code: reason }),
                )
            }
        }),
{
    reveal(handled);
    reveal(reset_by);
}

/// A connection that has ended has ended with an error if one of the two sides gave a
/// reason other than that nothing was wrong; the peer's counts first.
pub proof fn law_what_a_connection_ends_with(c: StreamsView, end: Closed)
    requires
        c.m.closed == Some(end),
    ensures
        match c.m.remote_error {
            Some(theirs) if theirs != Reason::NO_ERROR => ending(c) == Some(
                ErrorView::GoAway(c.remote_debug, theirs, Initiator::Remote),
            ),
            _ => if end.reason == Reason::NO_ERROR {
                ending(c) is None
            } else {
                ending(c) == Some(
                    ErrorView::GoAway(Seq::empty(), end.reason, end.initiator),
                )
            },
        },
{
    reveal(ending);
}

} // verus!
