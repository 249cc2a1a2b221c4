//! What this side does on the streams of a connection.

use crate::buf::payload;
use crate::codec::error::UserError;
use crate::frame::block::{no_pseudo, BlockView, HeaderBlock, Pseudo};
use crate::frame::control::Reset;
use crate::frame::{Frame, FrameView, Reason, StreamId};
use crate::hpack::field::{fields_view, Field, FieldView};
use crate::proto::error::Initiator;
use crate::proto::send::{
    capacity_of, data_queued, ended, headers_queued, reserved, trailers_queued,
};
use crate::proto::stream::{
    new_stream, Cause, Half, Stream, StreamState, StreamView, MAX_WINDOW_SIZE,
};
use crate::proto::streams::{
    all_ended, available, end_from, find, is_local_id, kept_count, lemma_total_push,
    lemma_total_remove, lemma_total_update, purged, reassigned, total, unreleased, Meter, Shutdown,
    Streams, StreamsView, MAX_STREAM_ID,
};
use bytes::Bytes;
use std::collections::VecDeque;
use vstd::prelude::*;

verus! {

/// The streams with one of them and what the connection keeps replaced.
pub open spec fn replaced(c: StreamsView, i: int, s: StreamView, m: Meter) -> StreamsView {
    StreamsView { streams: c.streams.update(i, s), m, ..c }
}

/// Replacing a stream keeps the connection in order, as long as its sums are
/// kept.
pub(crate) proof fn lemma_replaced(c: StreamsView, i: int, s: StreamView, m: Meter)
    requires
        c.wf(),
        0 <= i < c.streams.len(),
        c.stream_ok(s),
        m.init_send == c.m.init_send,
        m.init_recv == c.m.init_recv,
        m.max_send_frame == c.m.max_send_frame,
        m.send_window == c.m.send_window,
        m.recv_target == c.m.recv_target,
        m.next_id == c.m.next_id,
        m.last_remote == c.m.last_remote,
        m.local == c.m.local,
        m.free + s.st.available == c.m.free + c.streams[i].st.available,
        m.in_flight + c.streams[i].st.in_flight == c.m.in_flight + s.st.in_flight,
        m.in_flight + m.recv_window <= MAX_WINDOW_SIZE,
    ensures
        replaced(c, i, s, m).wf(),
        c.streams[i].st.available + c.m.free <= c.m.send_window,
        c.streams[i].st.in_flight <= c.m.in_flight,
{
    let after = replaced(c, i, s, m);
    lemma_total_update(c.streams, available(), i, s);
    lemma_total_update(c.streams, unreleased(), i, s);
    assert forall|j: int| 0 <= j < after.streams.len() implies after.stream_ok(
        #[trigger] after.streams[j],
    ) by {
        if j != i {
            assert(c.stream_ok(c.streams[j]));
        }
    }
}

/// What a stream's share of the sums is at most.
pub(crate) proof fn lemma_share(c: StreamsView, i: int)
    requires
        c.wf(),
        0 <= i < c.streams.len(),
    ensures
        c.stream_ok(c.streams[i]),
        c.streams[i].st.available + c.m.free <= c.m.send_window,
        c.streams[i].st.in_flight <= c.m.in_flight,
{
    lemma_replaced(c, i, c.streams[i], c.m);
}

/// The streams after a stream was reset by this side, and the peer told if it
/// can know of the stream. The stream is remembered while there is room for
/// that, unless it is still to be opened.
#[verifier::opaque]
pub open spec fn reset_by(c: StreamsView, id: StreamId, reason: Reason, initiator: Initiator) -> StreamsView {
    let cause = Cause::Stream(reason, initiator);
    let keep = kept_count(c.streams) < c.m.reset_stream_max;
    let told = c.with_control(
        FrameView::Reset(Reset { stream_id: id, error_code: reason }),
    );
    match find(c.streams, id) {
        None => if keep && !c.is_idle(id) {
            let s = ended(new_stream(id, Half::Closed, Half::Closed, true), cause);
            let st = StreamState { keep: true, kept_at: c.m.now, released: true, ..s.st };
            StreamsView { streams: c.streams.push(StreamView { st, ..s }), ..told }
        } else {
            told
        },
        Some(i) => {
            let s = c.streams[i];
            if s.st.cause is Some || s.done() {
                c
            } else {
                let after = ended(s, cause);
                let st = StreamState { keep, kept_at: c.m.now, ..after.st };
                let after = StreamView { st, ..after };
                let m = Meter { free: (c.m.free + s.st.available) as u32, ..c.m };
                let told = if s.st.opened {
                    told
                } else {
                    c
                };
                reassigned(replaced(told, i, after, m))
            }
        },
    }
}

/// The streams after the user gave an exchange up. A stream that is no longer
/// there has nothing left to be given up.
#[verifier::opaque]
pub open spec fn given_up(c: StreamsView, id: StreamId, reason: Reason) -> StreamsView {
    match find(c.streams, id) {
        None => c,
        Some(_) => reset_by(c, id, reason, Initiator::User),
    }
}

/// The streams after the user let go of one of them: a message that was not ended
/// by then is given up.
#[verifier::opaque]
pub open spec fn let_go(c: StreamsView, id: StreamId) -> StreamsView {
    match find(c.streams, id) {
        None => c,
        Some(i) => if c.streams[i].st.send == Half::Closed {
            c
        } else {
            reset_by(c, id, Reason::CANCEL, Initiator::User)
        },
    }
}

/// Whether a stream that was reset need not be remembered any more: as much time as
/// that has passed.
pub open spec fn is_stale(st: StreamState, now: u64, duration: u64) -> bool {
    st.keep && st.kept_at + duration <= now
}

/// A stream at a point in time.
pub open spec fn aged(s: StreamView, now: u64, duration: u64) -> StreamView {
    if is_stale(s.st, now, duration) {
        StreamView { st: StreamState { keep: false, ..s.st }, ..s }
    } else {
        s
    }
}

/// The streams after the time was told: those that were reset long enough ago are not
/// remembered any more. Time does not go back.
#[verifier::opaque]
pub open spec fn time_told(c: StreamsView, now: u64) -> StreamsView {
    let now = if now < c.m.now {
        c.m.now
    } else {
        now
    };
    StreamsView {
        streams: Seq::new(
            c.streams.len(),
            |i: int| aged(c.streams[i], now, c.m.reset_stream_duration),
        ),
        m: Meter { now, ..c.m },
        ..c
    }
}

/// Why no stream can be opened, if none can: one of the two sides took its leave,
/// or there is no identifier left.
pub open spec fn open_fault(m: Meter) -> Option<UserError> {
    if m.closed is Some || m.remote_error is Some || m.shutdown != Shutdown::Off {
        Some(UserError::Rejected)
    } else if m.next_id > MAX_STREAM_ID {
        Some(UserError::OverflowedStreamId)
    } else {
        None
    }
}

/// The streams after a request was queued, and its stream; or why it was not.
#[verifier::opaque]
pub open spec fn request_queued(c: StreamsView, block: BlockView, end: bool, head: bool) -> Result<
    (StreamsView, StreamId),
    UserError,
> {
    let id = StreamId { id: c.m.next_id };
    match open_fault(c.m) {
        Some(e) => Err(e),
        None => {
            let s = new_stream(id, Half::AwaitingHeaders, Half::AwaitingHeaders, false);
            match headers_queued(s, block, end) {
                Err(e) => Err(e),
                Ok(s) => {
                    let s = StreamView { st: StreamState { head, ..s.st }, ..s };
                    let m = Meter { next_id: (c.m.next_id + 2) as u32, ..c.m };
                    Ok((StreamsView { streams: c.streams.push(s), m, ..c }, id))
                },
            }
        },
    }
}

/// The streams after a response was queued, or why it was not.
#[verifier::opaque]
pub open spec fn response_queued(c: StreamsView, id: StreamId, block: BlockView, end: bool) -> Result<
    StreamsView,
    UserError,
> {
    match find(c.streams, id) {
        None => Err(UserError::InactiveStreamId),
        Some(i) => match headers_queued(c.streams[i], block, end) {
            Ok(s) => Ok(replaced(c, i, s, c.m)),
            Err(e) => Err(e),
        },
    }
}

/// The streams after a part of a body was queued, or why it was not.
#[verifier::opaque]
pub open spec fn data_sent(c: StreamsView, id: StreamId, data: Seq<u8>, end: bool) -> Result<
    StreamsView,
    UserError,
> {
    match find(c.streams, id) {
        None => Err(UserError::InactiveStreamId),
        Some(i) => match data_queued(c.streams[i], data, end, c.m.init_send, c.m.free) {
            Ok((s, free)) => Ok(reassigned(replaced(c, i, s, Meter { free, ..c.m }))),
            Err(e) => Err(e),
        },
    }
}

/// A block of trailers.
pub open spec fn trailers_block(fields: Seq<FieldView>) -> BlockView {
    BlockView { pseudo: no_pseudo(), fields, is_over_size: false }
}

/// The streams after trailers were queued, or why they were not.
#[verifier::opaque]
pub open spec fn trailers_sent(c: StreamsView, id: StreamId, fields: Seq<FieldView>) -> Result<
    StreamsView,
    UserError,
> {
    match find(c.streams, id) {
        None => Err(UserError::InactiveStreamId),
        Some(i) => match trailers_queued(
            c.streams[i],
            trailers_block(fields),
            c.m.init_send,
            c.m.free,
        ) {
            Ok((s, free)) => Ok(reassigned(replaced(c, i, s, Meter { free, ..c.m }))),
            Err(e) => Err(e),
        },
    }
}

/// The streams after capacity was asked for on one of them.
#[verifier::opaque]
pub open spec fn capacity_reserved(c: StreamsView, id: StreamId, capacity: u32) -> StreamsView {
    match find(c.streams, id) {
        None => c,
        Some(i) => {
            let s = c.streams[i];
            let (st, free) = reserved(s.st, capacity, c.m.init_send, c.m.free);
            reassigned(replaced(c, i, StreamView { st, ..s }, Meter { free, ..c.m }))
        },
    }
}

/// The capacity that a stream can be sent on right away; none on a stream that
/// is not there.
#[verifier::opaque]
pub open spec fn stream_capacity(c: StreamsView, id: StreamId) -> int {
    match find(c.streams, id) {
        None => 0,
        Some(i) => capacity_of(c.streams[i].st, c.m.max_send_buffer),
    }
}

/// The streams after received bytes of one of them were released, or why they
/// were not.
#[verifier::opaque]
pub open spec fn released(c: StreamsView, id: StreamId, n: u32) -> Result<StreamsView, UserError> {
    match find(c.streams, id) {
        None => Err(UserError::ReleaseCapacityTooBig),
        Some(i) => {
            let s = c.streams[i];
            if n > s.st.in_flight {
                Err(UserError::ReleaseCapacityTooBig)
            } else {
                let st = StreamState { in_flight: (s.st.in_flight - n) as u32, ..s.st };
                let m = Meter { in_flight: (c.m.in_flight - n) as u32, ..c.m };
                Ok(replaced(c, i, StreamView { st, ..s }, m))
            }
        },
    }
}

/// The streams after no one reads from one of them any more: what was received
/// on it and not read is released.
#[verifier::opaque]
pub open spec fn forgotten(c: StreamsView, id: StreamId) -> StreamsView {
    match find(c.streams, id) {
        None => c,
        Some(i) => {
            let s = c.streams[i];
            let st = StreamState { released: true, in_flight: 0, ..s.st };
            let m = Meter { in_flight: (c.m.in_flight - s.st.in_flight) as u32, ..c.m };
            replaced(c, i, StreamView { st, inbox: Seq::empty(), ..s }, m)
        },
    }
}

impl Streams {
    /// Ends the streams that an error hits.
    pub fn end_all(&mut self, above: Option<u32>, cause: Cause)
        requires
            old(self)@.wf(),
        ensures
            final(self)@.wf(),
            final(self)@ == all_ended(old(self)@, above, cause),
    {
        let ghost goal = all_ended(self@, above, cause);
        let mut i: usize = 0;
        while i < self.streams.len()
            invariant
                i <= self.streams@.len(),
                self@.wf(),
                goal == ({
                    let (streams, free) = end_from(
                        self@.streams,
                        i as nat,
                        self.m.side,
                        above,
                        cause,
                        self.m.free,
                    );
                    StreamsView { streams, m: Meter { free, ..self.m }, ..self@ }
                }),
            decreases self.streams.len() - i,
        {
            let ghost before = *self;
            proof {
                lemma_share(self@, i as int);
            }
            let id = self.streams[i].st.id;
            let hit = !self.streams[i].is_done() && self.streams[i].st.cause.is_none()
                && match above {
                None => true,
                Some(last) => is_local_id(self.m.side, id) && id.id > last,
            };
            if hit {
                let more: u32 = self.streams[i].st.available;
                self.streams[i].end(cause);
                self.m.free = self.m.free + more;
                proof {
                    Streams::lemma_stream_set(before, *self, i as int);
                    lemma_replaced(before@, i as int, self.streams@[i as int]@, self.m);
                    assert(self@ =~= replaced(
                        before@,
                        i as int,
                        self.streams@[i as int]@,
                        self.m,
                    ));
                }
            }
            i = i + 1;
        }
    }

    /// Forgets the streams on which nothing more will happen.
    pub fn purge(&mut self)
        requires
            old(self)@.wf(),
        ensures
            final(self)@.wf(),
            final(self)@ == (StreamsView { streams: purged(old(self)@.streams), ..old(self)@ }),
    {
        let ghost goal = purged(self@.streams);
        let mut i: usize = 0;
        assert(self@.streams.take(0) + purged(self@.streams.skip(0)) =~= goal) by {
            assert(self@.streams.skip(0) =~= self@.streams);
        }
        while i < self.streams.len()
            invariant
                i <= self.streams@.len(),
                self@.wf(),
                self@ == (StreamsView { streams: self@.streams, ..old(self)@ }),
                self@.streams.take(i as int) + purged(self@.streams.skip(i as int)) =~= goal,
            decreases self.streams.len() - i,
        {
            let ghost before = self@;
            let ghost tail = before.streams.skip(i as int);
            assert(tail[0] == self.streams@[i as int]@);
            assert(tail.skip(1) =~= before.streams.skip(i + 1));
            let s = &self.streams[i];
            let spent = s.is_done() && s.st.released && !s.st.keep && s.st.available == 0
                && s.st.in_flight == 0;
            if spent {
                let _ = self.streams.remove(i);
                proof {
                    assert(self@.streams =~= before.streams.remove(i as int));
                    lemma_total_remove(before.streams, available(), i as int);
                    lemma_total_remove(before.streams, unreleased(), i as int);
                    assert(available()(before.streams[i as int]) == 0);
                    assert(unreleased()(before.streams[i as int]) == 0);
                    assert(self@.streams.take(i as int) =~= before.streams.take(i as int));
                    assert(self@.streams.skip(i as int) =~= before.streams.skip(i + 1));
                    assert forall|j: int| 0 <= j < self@.streams.len() implies self@.stream_ok(
                        #[trigger] self@.streams[j],
                    ) by {
                        let k = if j < i {
                            j
                        } else {
                            j + 1
                        };
                        assert(before.stream_ok(before.streams[k]));
                    }
                    assert(self.m == before.m);
                    assert(self@.control == before.control);
                    assert(self.m.free + total(self@.streams, available()) == self.m.send_window);
                    assert(self.m.in_flight == total(self@.streams, unreleased()));
                    assert(self@.wf());
                }
            } else {
                proof {
                    assert(before.streams.take(i + 1) =~= before.streams.take(i as int)
                        + seq![tail[0]]);
                }
                i = i + 1;
            }
        }
        assert(self@.streams.take(i as int) =~= self@.streams);
        assert(purged(self@.streams.skip(i as int)) =~= Seq::<StreamView>::empty());
    }

    /// Adds a stream to which nothing is assigned.
    pub fn push_stream(&mut self, s: Stream)
        requires
            old(self)@.wf(),
            old(self)@.stream_ok(s@),
            s.st.available == 0,
            s.st.in_flight == 0,
        ensures
            final(self)@.wf(),
            final(self)@ == (StreamsView {
                streams: old(self)@.streams.push(s@),
                ..old(self)@
            }),
    {
        let ghost v = s@;
        let ghost before = self@;
        self.streams.push(s);
        proof {
            assert(self@.streams =~= before.streams.push(v));
            lemma_total_push(before.streams, available(), v);
            lemma_total_push(before.streams, unreleased(), v);
            assert forall|j: int| 0 <= j < self@.streams.len() implies self@.stream_ok(
                #[trigger] self@.streams[j],
            ) by {
                if j < before.streams.len() {
                    assert(before.stream_ok(before.streams[j]));
                }
            }
        }
    }

    /// Gives up an exchange.
    pub fn give_up(&mut self, id: StreamId, reason: Reason)
        requires
            old(self)@.wf(),
        ensures
            final(self)@.wf(),
            final(self).m.max_send_frame == old(self).m.max_send_frame,
            final(self)@ == given_up(old(self)@, id, reason),
    {
        reveal(given_up);
        match self.find(id) {
            None => {},
            Some(i) => {
                assert(self@.stream_ok(self@.streams[i as int]));
                self.reset(id, reason, Initiator::User);
            },
        }
    }

    /// Lets go of a stream.
    pub fn let_go(&mut self, id: StreamId)
        requires
            old(self)@.wf(),
        ensures
            final(self)@.wf(),
            final(self).m.max_send_frame == old(self).m.max_send_frame,
            final(self)@ == let_go(old(self)@, id),
    {
        reveal(let_go);
        match self.find(id) {
            None => {},
            Some(i) => {
                assert(self@.stream_ok(self@.streams[i as int]));
                if self.streams[i].st.send != Half::Closed {
                    self.reset(id, Reason::CANCEL, Initiator::User);
                }
            },
        }
    }

    /// Resets a stream.
    pub fn reset(&mut self, id: StreamId, reason: Reason, initiator: Initiator)
        requires
            old(self)@.wf(),
            id.wf(),
            id.id != 0,
        ensures
            final(self)@.wf(),
            final(self).m.max_send_frame == old(self).m.max_send_frame,
            final(self)@ == reset_by(old(self)@, id, reason, initiator),
    {
        reveal(reset_by);
        let cause = Cause::Stream(reason, initiator);
        let keep = self.kept_count() < self.m.reset_stream_max;
        match self.find(id) {
            None => {
                self.push_control(Frame::Reset(Reset::new(id, reason)));
                if keep && !self.is_idle(id) {
                    let mut s = Stream::new(id, Half::Closed, Half::Closed, true);
                    s.end(cause);
                    s.st.keep = true;
                    s.st.kept_at = self.m.now;
                    s.st.released = true;
                    self.push_stream(s);
                }
            },
            Some(i) => {
                if self.streams[i].st.cause.is_some() || self.streams[i].is_done() {
                    return ;
                }
                let ghost before = self@;
                if self.streams[i].st.opened {
                    self.push_control(Frame::Reset(Reset::new(id, reason)));
                }
                let ghost mid = *self;
                proof {
                    lemma_share(self@, i as int);
                }
                let more: u32 = self.streams[i].st.available;
                self.streams[i].end(cause);
                self.streams[i].st.keep = keep;
                self.streams[i].st.kept_at = self.m.now;
                self.m.free = self.m.free + more;
                proof {
                    assert(self.streams@ =~= mid.streams@.update(
                        i as int,
                        self.streams@[i as int],
                    ));
                    Streams::lemma_stream_set(mid, *self, i as int);
                    lemma_replaced(mid@, i as int, self.streams@[i as int]@, self.m);
                    assert(self@ =~= replaced(mid@, i as int, self.streams@[i as int]@, self.m));
                }
                self.reassign();
            },
        }
    }

    /// Takes note of the time.
    pub fn tell_time(&mut self, now: u64)
        requires
            old(self)@.wf(),
        ensures
            final(self)@.wf(),
            final(self).m.max_send_frame == old(self).m.max_send_frame,
            final(self)@ == time_told(old(self)@, now),
    {
        reveal(time_told);
        let ghost c = self@;
        let now: u64 = if now < self.m.now {
            self.m.now
        } else {
            now
        };
        let duration: u64 = self.m.reset_stream_duration;
        self.m.now = now;
        let ghost goal = Seq::new(c.streams.len(), |j: int| aged(c.streams[j], now, duration));
        proof {
            assert forall|j: int| 0 <= j < self@.streams.len() implies self@.stream_ok(
                #[trigger] self@.streams[j],
            ) by {
                assert(c.stream_ok(c.streams[j]));
            }
        }
        let mut i: usize = 0;
        while i < self.streams.len()
            invariant
                i <= self.streams@.len(),
                self@.wf(),
                self.m == (Meter { now, ..c.m }),
                self@ == (StreamsView { streams: self@.streams, m: self.m, ..c }),
                self@.streams.len() == c.streams.len() == goal.len(),
                goal == Seq::new(c.streams.len(), |j: int| aged(c.streams[j], now, duration)),
                forall|j: int| 0 <= j < i ==> #[trigger] self@.streams[j] == goal[j],
                forall|j: int|
                    i <= j < self@.streams.len() ==> #[trigger] self@.streams[j] == c.streams[j],
            decreases self.streams.len() - i,
        {
            let ghost before = *self;
            let st = self.streams[i].st;
            if st.keep && st.kept_at <= now && now - st.kept_at >= duration {
                self.streams[i].st.keep = false;
                proof {
                    let s = self.streams@[i as int]@;
                    assert(before@.stream_ok(before@.streams[i as int]));
                    Streams::lemma_stream_set(before, *self, i as int);
                    lemma_replaced(before@, i as int, s, self.m);
                    assert(self@ =~= replaced(before@, i as int, s, self.m));
                }
            }
            i = i + 1;
        }
        assert(self@.streams =~= goal);
    }

    /// Why no stream can be opened, if none can.
    pub fn open_fault(&self) -> (r: Option<UserError>)
        ensures
            r == open_fault(self.m),
    {
        if self.m.closed.is_some() || self.m.remote_error.is_some() || self.m.shutdown
            != Shutdown::Off {
            return Some(UserError::Rejected);
        }
        if self.m.next_id > MAX_STREAM_ID {
            return Some(UserError::OverflowedStreamId);
        }
        None
    }

    /// Queues a request.
    pub fn queue_request(&mut self, block: HeaderBlock, end: bool, head: bool) -> (r: Result<
        StreamId,
        UserError,
    >)
        requires
            old(self)@.wf(),
        ensures
            final(self)@.wf(),
            final(self).m.max_send_frame == old(self).m.max_send_frame,
            match request_queued(old(self)@, block@, end, head) {
                Ok((after, id)) => r == Ok::<StreamId, UserError>(id) && final(self)@ == after,
                Err(e) => r == Err::<StreamId, UserError>(e) && final(self)@ == old(self)@,
            },
    {
        reveal(request_queued);
        match self.open_fault() {
            Some(e) => {
                return Err(e);
            },
            None => {},
        }
        let id = StreamId::new(self.m.next_id);
        let mut s = Stream::new(id, Half::AwaitingHeaders, Half::AwaitingHeaders, false);
        match s.queue_headers(block, end) {
            Ok(()) => {},
            Err(e) => {
                return Err(e);
            },
        }
        s.st.head = head;
        self.push_stream(s);
        self.m.next_id = self.m.next_id + 2;
        Ok(id)
    }

    /// Queues a response.
    pub fn queue_response(&mut self, id: StreamId, block: HeaderBlock, end: bool) -> (r: Result<
        (),
        UserError,
    >)
        requires
            old(self)@.wf(),
        ensures
            final(self)@.wf(),
            final(self).m.max_send_frame == old(self).m.max_send_frame,
            match response_queued(old(self)@, id, block@, end) {
                Ok(after) => r is Ok && final(self)@ == after,
                Err(e) => r == Err::<(), UserError>(e) && final(self)@ == old(self)@,
            },
    {
        reveal(response_queued);
        match self.find(id) {
            None => Err(UserError::InactiveStreamId),
            Some(i) => {
                let ghost before = *self;
                proof {
                    lemma_share(self@, i as int);
                }
                let r = self.streams[i].queue_headers(block, end);
                proof {
                    Streams::lemma_stream_set(before, *self, i as int);
                    lemma_replaced(before@, i as int, self.streams@[i as int]@, self.m);
                    assert(self@ =~= replaced(before@, i as int, self.streams@[i as int]@, self.m));
                    if r is Err {
                        assert(self@.streams =~= before@.streams);
                    }
                }
                r
            },
        }
    }

    /// Queues a part of a body.
    pub fn send_data(&mut self, id: StreamId, data: Bytes, end: bool) -> (r: Result<(), UserError>)
        requires
            old(self)@.wf(),
        ensures
            final(self)@.wf(),
            final(self).m.max_send_frame == old(self).m.max_send_frame,
            match data_sent(old(self)@, id, payload(data), end) {
                Ok(after) => r is Ok && final(self)@ == after,
                Err(e) => r == Err::<(), UserError>(e) && final(self)@ == old(self)@,
            },
    {
        reveal(data_sent);
        match self.find(id) {
            None => Err(UserError::InactiveStreamId),
            Some(i) => {
                let ghost before = *self;
                proof {
                    lemma_share(self@, i as int);
                }
                let r = self.streams[i].queue_data(data, end, self.m.init_send, self.m.free);
                match r {
                    Ok(free) => {
                        self.m.free = free;
                        proof {
                            Streams::lemma_stream_set(before, *self, i as int);
                            lemma_replaced(before@, i as int, self.streams@[i as int]@, self.m);
                            assert(self@ =~= replaced(
                                before@,
                                i as int,
                                self.streams@[i as int]@,
                                self.m,
                            ));
                        }
                        self.reassign();
                        Ok(())
                    },
                    Err(e) => {
                        proof {
                            Streams::lemma_stream_set(before, *self, i as int);
                            assert(self@.streams =~= before@.streams);
                        }
                        Err(e)
                    },
                }
            },
        }
    }

    /// Queues trailers.
    pub fn send_trailers(&mut self, id: StreamId, fields: Vec<Field>) -> (r: Result<(), UserError>)
        requires
            old(self)@.wf(),
        ensures
            final(self)@.wf(),
            final(self).m.max_send_frame == old(self).m.max_send_frame,
            match trailers_sent(old(self)@, id, fields_view(fields@)) {
                Ok(after) => r is Ok && final(self)@ == after,
                Err(e) => r == Err::<(), UserError>(e) && final(self)@ == old(self)@,
            },
    {
        reveal(trailers_sent);
        let block = HeaderBlock { pseudo: Pseudo::empty(), fields, is_over_size: false };
        match self.find(id) {
            None => Err(UserError::InactiveStreamId),
            Some(i) => {
                let ghost before = *self;
                proof {
                    lemma_share(self@, i as int);
                }
                let r = self.streams[i].queue_trailers(block, self.m.init_send, self.m.free);
                match r {
                    Ok(free) => {
                        self.m.free = free;
                        proof {
                            Streams::lemma_stream_set(before, *self, i as int);
                            lemma_replaced(before@, i as int, self.streams@[i as int]@, self.m);
                            assert(self@ =~= replaced(
                                before@,
                                i as int,
                                self.streams@[i as int]@,
                                self.m,
                            ));
                        }
                        self.reassign();
                        Ok(())
                    },
                    Err(e) => {
                        proof {
                            Streams::lemma_stream_set(before, *self, i as int);
                            assert(self@.streams =~= before@.streams);
                        }
                        Err(e)
                    },
                }
            },
        }
    }

    /// Asks for capacity on a stream.
    pub fn reserve_capacity(&mut self, id: StreamId, capacity: u32)
        requires
            old(self)@.wf(),
        ensures
            final(self)@.wf(),
            final(self).m.max_send_frame == old(self).m.max_send_frame,
            final(self)@ == capacity_reserved(old(self)@, id, capacity),
    {
        reveal(capacity_reserved);
        match self.find(id) {
            None => {},
            Some(i) => {
                let ghost before = *self;
                proof {
                    lemma_share(self@, i as int);
                }
                let mut st = self.streams[i].st;
                let free: u32 = st.reserve(capacity, self.m.init_send, self.m.free);
                self.streams[i].st = st;
                self.m.free = free;
                proof {
                    Streams::lemma_stream_set(before, *self, i as int);
                    lemma_replaced(before@, i as int, self.streams@[i as int]@, self.m);
                    assert(self@ =~= replaced(before@, i as int, self.streams@[i as int]@, self.m));
                }
                self.reassign();
            },
        }
    }

    /// The capacity that a stream can be sent on right away.
    pub fn capacity(&self, id: StreamId) -> (n: usize)
        ensures
            n == stream_capacity(self@, id),
    {
        reveal(stream_capacity);
        match self.find(id) {
            None => 0,
            Some(i) => self.streams[i].st.capacity(self.m.max_send_buffer),
        }
    }

    /// Releases received bytes of a stream.
    pub fn release_capacity(&mut self, id: StreamId, n: u32) -> (r: Result<(), UserError>)
        requires
            old(self)@.wf(),
        ensures
            final(self)@.wf(),
            final(self).m.max_send_frame == old(self).m.max_send_frame,
            match released(old(self)@, id, n) {
                Ok(after) => r is Ok && final(self)@ == after,
                Err(e) => r == Err::<(), UserError>(e) && final(self)@ == old(self)@,
            },
    {
        reveal(released);
        match self.find(id) {
            None => Err(UserError::ReleaseCapacityTooBig),
            Some(i) => {
                let ghost before = *self;
                proof {
                    lemma_share(self@, i as int);
                }
                if n > self.streams[i].st.in_flight {
                    return Err(UserError::ReleaseCapacityTooBig);
                }
                self.streams[i].st.in_flight = self.streams[i].st.in_flight - n;
                self.m.in_flight = self.m.in_flight - n;
                proof {
                    Streams::lemma_stream_set(before, *self, i as int);
                    lemma_replaced(before@, i as int, self.streams@[i as int]@, self.m);
                    assert(self@ =~= replaced(before@, i as int, self.streams@[i as int]@, self.m));
                }
                Ok(())
            },
        }
    }

    /// Takes note that no one reads from a stream any more.
    pub fn forget(&mut self, id: StreamId)
        requires
            old(self)@.wf(),
        ensures
            final(self)@.wf(),
            final(self).m.max_send_frame == old(self).m.max_send_frame,
            final(self)@ == forgotten(old(self)@, id),
    {
        reveal(forgotten);
        match self.find(id) {
            None => {},
            Some(i) => {
                let ghost before = *self;
                proof {
                    lemma_share(self@, i as int);
                }
                let n: u32 = self.streams[i].st.in_flight;
                self.streams[i].st.released = true;
                self.streams[i].st.in_flight = 0;
                self.streams[i].inbox = VecDeque::new();
                self.m.in_flight = self.m.in_flight - n;
                proof {
                    let s = self.streams@[i as int]@;
                    assert(s.inbox =~= Seq::empty());
                    assert(self.streams@ =~= before.streams@.update(
                        i as int,
                        self.streams@[i as int],
                    ));
                    Streams::lemma_stream_set(before, *self, i as int);
                    lemma_replaced(before@, i as int, s, self.m);
                    assert(self@ =~= replaced(before@, i as int, s, self.m));
                }
            },
        }
    }
}

} // verus!
