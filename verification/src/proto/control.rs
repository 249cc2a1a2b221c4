//! What the peer's frames about windows, settings and leave-taking do, and how a
//! connection fails.

use crate::frame::control::{GoAway, GoAwayView, Ping, Reset, WindowUpdate};
use crate::frame::headers::PushPromise;
use crate::frame::settings::no_settings;
use crate::frame::{Frame, FrameView, Reason, Settings, StreamId};
use crate::names::{TOO_MANY_INTERNAL_RESETS, TOO_MANY_RESETS};
use crate::proto::error::{go_away_error, Error, ErrorView, Initiator};
use crate::proto::recv::{
    broken, fault_of, go_away_received, leave_frame, ping_received, promise_received,
    reset_received, waits, window_update_received, Received,
};
use crate::proto::send::within_window;
use crate::proto::stream::{Cause, Half, Stream, StreamState, StreamView, MAX_WINDOW_SIZE};
use crate::proto::streams::{
    all_ended, available, find, is_local, is_local_id, reassigned, Closed, Meter, Shutdown, Side, Streams,
    StreamsView, MAX_STREAM_ID,
};
use crate::proto::user::{lemma_replaced, lemma_share, replaced, reset_by};
use bytes::Bytes;
use vstd::prelude::*;

verus! {

/// The streams from `i` on, and the unassigned capacity, after what is assigned
/// beyond a stream's window went back.
pub open spec fn clamp_from(streams: Seq<StreamView>, i: nat, init: u32, free: u32) -> (
    Seq<StreamView>,
    u32,
)
    decreases streams.len() - i,
{
    if i >= streams.len() {
        (streams, free)
    } else {
        let s = streams[i as int];
        let window = s.st.send_window(init);
        let most = if window < 0 {
            0
        } else if window < s.st.available {
            window
        } else {
            s.st.available as int
        };
        let st = StreamState { available: most as u32, ..s.st };
        clamp_from(
            streams.update(i as int, StreamView { st, ..s }),
            i + 1,
            init,
            (free + (s.st.available - most)) as u32,
        )
    }
}

/// The streams after the size that send windows start with has changed.
pub open spec fn resized(c: StreamsView, init: u32) -> StreamsView {
    let (streams, free) = clamp_from(c.streams, 0, init, c.m.free);
    reassigned(StreamsView { streams, m: Meter { init_send: init, free, ..c.m }, ..c })
}

/// Whether no send window would grow too large if windows started with `init`.
pub open spec fn can_resize(c: StreamsView, init: u32) -> bool {
    forall|i: int|
        0 <= i < c.streams.len() ==> (#[trigger] c.streams[i]).st.send_window(init)
            <= MAX_WINDOW_SIZE
}

/// What the settings of the peer do: they are taken over and acknowledged. Ones
/// that would make a window too large are an error.
pub open spec fn settings_received(c: StreamsView, s: Settings) -> Received {
    let m = Meter {
        max_send_streams: match s.max_concurrent_streams {
            Some(n) => n as usize,
            None => c.m.max_send_streams,
        },
        max_send_frame: match s.max_frame_size {
            Some(n) => n as usize,
            None => c.m.max_send_frame,
        },
        ..c.m
    };
    let taken = StreamsView { m, ..c };
    let ack = FrameView::Settings(Settings { ack: true, ..no_settings() });
    match s.initial_window_size {
        None => (taken.with_control(ack), None),
        Some(n) => if can_resize(c, n) {
            (resized(taken, n).with_control(ack), None)
        } else {
            (c, Some(go_away_error(Reason::FLOW_CONTROL_ERROR)))
        },
    }
}

/// What the peer's acknowledgement of this side's settings does: they count from
/// now on. One that nobody waits for breaks the protocol, and windows that are
/// too large are an error.
pub open spec fn ack_received(c: StreamsView) -> Received {
    if c.m.local_acked {
        (c, broken())
    } else if c.m.local.initial_window_size matches Some(n) && n > MAX_WINDOW_SIZE {
        (c, Some(go_away_error(Reason::FLOW_CONTROL_ERROR)))
    } else {
        let m = Meter {
            local_acked: true,
            init_recv: match c.m.local.initial_window_size {
                Some(n) => n,
                None => c.m.init_recv,
            },
            ..c.m
        };
        (StreamsView { m, ..c }, None)
    }
}

/// The streams after the connection failed: every stream ends, and the peer is
/// told.
pub open spec fn failed(c: StreamsView, reason: Reason, debug: Seq<u8>, initiator: Initiator) -> StreamsView {
    let debug = if debug.len() <= 1024 {
        debug
    } else {
        Seq::empty()
    };
    let c = all_ended(c, None, Cause::Connection(reason, initiator));
    let c = StreamsView { m: Meter { closed: Some(Closed { reason, initiator }), ..c.m }, ..c };
    c.with_control(leave_frame(c, reason, debug))
}

/// The streams after a sign of the peer on one of them: one that the peer had not
/// opened counts as opened.
pub open spec fn noticed(c: StreamsView, id: StreamId) -> StreamsView {
    let last_remote = if !is_local(c.m.side, id) && id.id > c.m.last_remote {
        id.id
    } else {
        c.m.last_remote
    };
    StreamsView { m: Meter { last_remote, ..c.m }, ..c }
}

/// The streams after an error: one on a stream resets it, as long as there were
/// not too many of them; any other ends the connection. A stream of the peer counts as
/// opened then.
#[verifier::opaque]
pub open spec fn handled(c: StreamsView, e: ErrorView) -> StreamsView {
    match e {
        ErrorView::GoAway(debug, reason, initiator) => failed(c, reason, debug, initiator),
        ErrorView::Reset(id, reason, _) => if id.id == 0 || id.id > MAX_STREAM_ID {
            failed(c, Reason::PROTOCOL_ERROR, Seq::empty(), Initiator::Library)
        } else {
            match c.m.local_reset_max {
                Some(max) => if c.m.local_resets >= max {
                    failed(
                        c,
                        Reason::ENHANCE_YOUR_CALM,
                        TOO_MANY_INTERNAL_RESETS@,
                        Initiator::Library,
                    )
                } else {
                    let m = Meter { local_resets: (c.m.local_resets + 1) as usize, ..c.m };
                    let c = noticed(StreamsView { m, ..c }, id);
                    reset_by(c, id, reason, Initiator::Library)
                },
                None => reset_by(noticed(c, id), id, reason, Initiator::Library),
            }
        },
    }
}

/// The streams after this side asked for leave: the peer is told that no more
/// will be served, once it has answered.
#[verifier::opaque]
pub open spec fn leave_asked(c: StreamsView) -> StreamsView {
    if c.m.shutdown != Shutdown::Off || c.m.closed is Some {
        c
    } else {
        let m = Meter { shutdown: Shutdown::Asked, ..c.m };
        let notice = FrameView::GoAway(
            GoAwayView {
                last_stream_id: StreamId { id: MAX_STREAM_ID },
                error_code: Reason::NO_ERROR,
                debug_data: Seq::empty(),
            },
        );
        let ping = FrameView::Ping(Ping { ack: false, high: 0x0b7b_a2f0, low: 0x8b9b_fe54 });
        StreamsView { m, ..c }.with_control(notice).with_control(ping)
    }
}

/// The streams after this side took leave at once: no more streams are served or
/// opened, and those that are there go on.
#[verifier::opaque]
pub open spec fn leave_taken(c: StreamsView, reason: Reason) -> StreamsView {
    if c.m.shutdown == Shutdown::Going || c.m.closed is Some {
        c
    } else {
        let m = Meter { shutdown: Shutdown::Going, served: c.m.last_remote, ..c.m };
        StreamsView { m, ..c }.with_control(leave_frame(c, reason, Seq::empty()))
    }
}

/// Whether nothing is left to be done on any stream.
pub open spec fn is_quiet(streams: Seq<StreamView>) -> bool {
    forall|i: int| 0 <= i < streams.len() ==> (#[trigger] streams[i]).done()
}

/// The streams of a connection that ends because one of the two sides took its
/// leave and nothing is left to be done on any stream.
pub open spec fn settled(c: StreamsView) -> StreamsView {
    if c.m.closed is None && (c.m.remote_error is Some || c.m.shutdown == Shutdown::Going)
        && is_quiet(c.streams) {
        let closed = Closed { reason: Reason::NO_ERROR, initiator: Initiator::Library };
        let m = Meter { closed: Some(closed), ..c.m };
        StreamsView { m, ..c }.with_control(leave_frame(c, Reason::NO_ERROR, Seq::empty()))
    } else {
        c
    }
}

impl Streams {
    pub(crate) proof fn lemma_same_streams(before: StreamsView, after: StreamsView)
        requires
            before.wf(),
            after.streams == before.streams,
            after.control == before.control,
            after.m.init_send == before.m.init_send,
            after.m.init_recv <= MAX_WINDOW_SIZE,
            crate::frame::DEFAULT_MAX_FRAME_SIZE <= after.m.max_send_frame
                <= crate::frame::MAX_MAX_FRAME_SIZE,
            after.m.send_window <= MAX_WINDOW_SIZE,
            after.m.send_window - after.m.free == before.m.send_window - before.m.free,
            after.m.in_flight == before.m.in_flight,
            after.m.recv_window == before.m.recv_window,
            after.m.recv_target <= MAX_WINDOW_SIZE,
            after.m.next_id == before.m.next_id,
            after.m.last_remote <= MAX_STREAM_ID,
            after.m.local == before.m.local,
        ensures
            after.wf(),
    {
        assert forall|j: int| 0 <= j < after.streams.len() implies after.stream_ok(
            #[trigger] after.streams[j],
        ) by {
            assert(before.stream_ok(before.streams[j]));
        }
    }

    fn waits(&self, id: StreamId) -> (r: bool)
        ensures
            r == waits(self@.accept, id),
    {
        let mut k: usize = 0;
        while k < self.accept.len()
            invariant
                k <= self.accept@.len(),
                forall|j: int| 0 <= j < k ==> (#[trigger] self@.accept[j]).id != id,
            decreases self.accept.len() - k,
        {
            if self.accept[k].id == id {
                assert(self@.accept[k as int].id == id);
                return true;
            }
            k = k + 1;
        }
        false
    }

    /// Takes a RST_STREAM frame.
    pub fn recv_reset(&mut self, f: Reset) -> (r: Result<(), Error>)
        requires
            old(self)@.wf(),
        ensures
            final(self)@.wf(),
            reset_received(old(self)@, f) == (final(self)@, fault_of(r)),
    {
        let id = f.stream_id;
        match self.find(id) {
            None => {
                if id.is_zero() || self.is_idle(id) {
                    return Err(Error::library_go_away(Reason::PROTOCOL_ERROR));
                }
                Ok(())
            },
            Some(i) => {
                if self.streams[i].is_done() || self.streams[i].st.cause.is_some() {
                    return Ok(());
                }
                let ghost before = *self;
                proof {
                    lemma_share(self@, i as int);
                }
                if self.waits(id) {
                    if self.m.remote_resets >= self.m.remote_reset_max {
                        return Err(
                            Error::library_go_away_data(
                                Reason::ENHANCE_YOUR_CALM,
                                TOO_MANY_RESETS.as_slice(),
                            ),
                        );
                    }
                    self.m.remote_resets = self.m.remote_resets + 1;
                }
                let more: u32 = self.streams[i].st.available;
                self.streams[i].end(Cause::Stream(f.error_code, Initiator::Remote));
                self.m.free = self.m.free + more;
                proof {
                    let s = self.streams@[i as int]@;
                    Streams::lemma_stream_set(before, *self, i as int);
                    lemma_replaced(before@, i as int, s, self.m);
                    assert(self@ =~= replaced(before@, i as int, s, self.m));
                }
                self.reassign();
                Ok(())
            },
        }
    }

    /// Takes a WINDOW_UPDATE frame.
    pub fn recv_window_update(&mut self, f: WindowUpdate) -> (r: Result<(), Error>)
        requires
            old(self)@.wf(),
            f.size_increment <= MAX_WINDOW_SIZE,
        ensures
            final(self)@.wf(),
            window_update_received(old(self)@, f) == (final(self)@, fault_of(r)),
    {
        let id = f.stream_id;
        let n: u32 = f.size_increment;
        let ghost before = *self;
        if id.is_zero() {
            if n > MAX_WINDOW_SIZE - self.m.send_window {
                return Err(Error::library_go_away(Reason::FLOW_CONTROL_ERROR));
            }
            self.m.send_window = self.m.send_window + n;
            self.m.free = self.m.free + n;
            proof {
                Streams::lemma_same_streams(before@, self@);
            }
            self.reassign();
            return Ok(());
        }
        match self.find(id) {
            None => {
                if self.is_idle(id) {
                    return Err(Error::library_go_away(Reason::PROTOCOL_ERROR));
                }
                Ok(())
            },
            Some(i) => {
                proof {
                    lemma_share(self@, i as int);
                }
                let delta: i64 = self.streams[i].st.send_delta;
                if self.m.init_send as i64 + delta + n as i64 > MAX_WINDOW_SIZE as i64 {
                    return Err(Error::library_reset(id, Reason::FLOW_CONTROL_ERROR));
                }
                self.streams[i].st.send_delta = delta + n as i64;
                proof {
                    let s = self.streams@[i as int]@;
                    Streams::lemma_stream_set(before, *self, i as int);
                    lemma_replaced(before@, i as int, s, self.m);
                    assert(self@ =~= replaced(before@, i as int, s, self.m));
                }
                self.reassign();
                Ok(())
            },
        }
    }

    fn leave(&mut self, reason: Reason, debug: &Vec<u8>)
        requires
            old(self)@.wf(),
            debug@.len() <= 1024,
        ensures
            final(self)@.wf(),
            final(self)@ == old(self)@.with_control(leave_frame(old(self)@, reason, debug@)),
    {
        let last = StreamId::new(self.m.last_remote);
        let data = Bytes::copy_from_slice(debug.as_slice());
        self.push_control(Frame::GoAway(GoAway::with_debug_data(last, reason, data)));
    }

    /// Takes a PING frame.
    pub fn recv_ping(&mut self, p: Ping)
        requires
            old(self)@.wf(),
        ensures
            final(self)@.wf(),
            final(self)@ == ping_received(old(self)@, p),
    {
        if !p.ack {
            self.push_control(Frame::Ping(p.pong()));
        } else if self.m.shutdown == Shutdown::Asked && p.high == 0x0b7b_a2f0 && p.low
            == 0x8b9b_fe54 {
            let ghost before = self@;
            self.m.shutdown = Shutdown::Going;
            self.m.served = self.m.last_remote;
            proof {
                Streams::lemma_same_streams(before, self@);
            }
            let none: Vec<u8> = Vec::new();
            assert(none@ =~= Seq::<u8>::empty());
            self.leave(Reason::NO_ERROR, &none);
        }
    }

    /// Takes a GOAWAY frame.
    pub fn recv_go_away(&mut self, g: GoAway) -> (r: Result<(), Error>)
        requires
            old(self)@.wf(),
        ensures
            final(self)@.wf(),
            go_away_received(old(self)@, g@) == (final(self)@, fault_of(r)),
    {
        let last: u32 = g.last_stream_id.id;
        if last > self.m.remote_served {
            return Err(Error::library_go_away(Reason::PROTOCOL_ERROR));
        }
        let ghost before = self@;
        let reason = g.error_code;
        self.m.remote_served = last;
        self.m.remote_error = Some(reason);
        self.remote_debug = crate::wire::to_vec(crate::buf::bytes_slice(&g.debug_data));
        proof {
            Streams::lemma_same_streams(before, self@);
        }
        self.end_all(Some(last), Cause::Connection(reason, Initiator::Remote));
        Ok(())
    }

    /// Takes a PUSH_PROMISE frame.
    pub fn recv_push_promise(&mut self, f: PushPromise) -> (r: Result<(), Error>)
        requires
            old(self)@.wf(),
            f.promised_id.wf(),
        ensures
            final(self)@.wf(),
            promise_received(old(self)@, f@) == (final(self)@, fault_of(r)),
    {
        let promised = f.promised_id;
        let ruled_out = match self.m.side {
            Side::Server => true,
            Side::Client => match self.m.local.enable_push {
                Some(n) => n == 0,
                None => false,
            },
        };
        let misplaced = match self.find(f.stream_id) {
            None => true,
            Some(i) => self.streams[i].st.recv == Half::Closed && !crate::proto::recv::ended_here(
                &self.streams[i].st,
            ),
        };
        if ruled_out || misplaced || is_local_id(self.m.side, promised) || promised.id
            <= self.m.last_remote {
            return Err(Error::library_go_away(Reason::PROTOCOL_ERROR));
        }
        let ghost before = self@;
        self.m.last_remote = promised.id;
        proof {
            Streams::lemma_same_streams(before, self@);
        }
        self.reset(promised, Reason::REFUSED_STREAM, Initiator::Library);
        Ok(())
    }

    fn can_resize(&self, init: u32) -> (r: bool)
        requires
            self@.wf(),
            init <= MAX_WINDOW_SIZE,
        ensures
            r == can_resize(self@, init),
    {
        let mut i: usize = 0;
        while i < self.streams.len()
            invariant
                i <= self.streams@.len(),
                self@.wf(),
                init <= MAX_WINDOW_SIZE,
                forall|j: int|
                    0 <= j < i ==> (#[trigger] self@.streams[j]).st.send_window(init)
                        <= MAX_WINDOW_SIZE,
            decreases self.streams.len() - i,
        {
            assert(self@.stream_ok(self@.streams[i as int]));
            if init as i64 + self.streams[i].st.send_delta > MAX_WINDOW_SIZE as i64 {
                assert(!(self@.streams[i as int].st.send_window(init) <= MAX_WINDOW_SIZE));
                return false;
            }
            i = i + 1;
        }
        true
    }

    #[verifier::rlimit(30)]
    fn resize(&mut self, init: u32)
        requires
            old(self)@.wf(),
            init <= MAX_WINDOW_SIZE,
            can_resize(old(self)@, init),
        ensures
            final(self)@.wf(),
            final(self)@ == resized(old(self)@, init),
    {
        let ghost goal = resized(self@, init);
        let ghost start = self@;
        let mut i: usize = 0;
        while i < self.streams.len()
            invariant
                i <= self.streams@.len(),
                init <= MAX_WINDOW_SIZE,
                self@.wf(),
                can_resize(self@, init),
                forall|j: int|
                    0 <= j < i ==> within_window((#[trigger] self@.streams[j]).st, init),
                goal == ({
                    let (streams, free) = clamp_from(
                        self@.streams,
                        i as nat,
                        init,
                        self.m.free,
                    );
                    reassigned(
                        StreamsView {
                            streams,
                            m: Meter { init_send: init, free, ..self.m },
                            ..self@
                        },
                    )
                }),
            decreases self.streams.len() - i,
        {
            let ghost before = *self;
            proof {
                lemma_share(self@, i as int);
            }
            let st = self.streams[i].st;
            let window: i64 = init as i64 + st.send_delta;
            let most: u32 = if window < 0 {
                0
            } else if window < st.available as i64 {
                window as u32
            } else {
                st.available
            };
            self.streams[i].st.available = most;
            self.m.free = self.m.free + (st.available - most);
            proof {
                let s = self.streams@[i as int]@;
                Streams::lemma_stream_set(before, *self, i as int);
                lemma_replaced(before@, i as int, s, self.m);
                assert(self@ =~= replaced(before@, i as int, s, self.m));
                assert forall|j: int| 0 <= j < self@.streams.len() implies (
                #[trigger] self@.streams[j]).st.send_window(init) <= MAX_WINDOW_SIZE by {
                    assert(before@.streams[j].st.send_window(init) <= MAX_WINDOW_SIZE);
                }
                assert forall|j: int| 0 <= j < i + 1 implies within_window(
                    (#[trigger] self@.streams[j]).st,
                    init,
                ) by {
                    if j < i {
                        assert(within_window(before@.streams[j].st, init));
                    }
                }
            }
            i = i + 1;
        }
        let ghost before = self@;
        self.m.init_send = init;
        proof {
            assert forall|j: int| 0 <= j < self@.streams.len() implies self@.stream_ok(
                #[trigger] self@.streams[j],
            ) by {
                assert(before.stream_ok(before.streams[j]));
                assert(within_window(before.streams[j].st, init));
                assert(before.streams[j].st.send_window(init) <= MAX_WINDOW_SIZE);
            }
        }
        self.reassign();
    }

    /// Takes the settings of the peer.
    pub fn recv_settings(&mut self, s: Settings) -> (r: Result<(), Error>)
        requires
            old(self)@.wf(),
            s.wf(),
        ensures
            final(self)@.wf(),
            settings_received(old(self)@, s) == (final(self)@, fault_of(r)),
    {
        match s.initial_window_size {
            None => {},
            Some(n) => {
                if !self.can_resize(n) {
                    return Err(Error::library_go_away(Reason::FLOW_CONTROL_ERROR));
                }
            },
        }
        let ghost before = self@;
        match s.max_concurrent_streams {
            Some(n) => {
                self.m.max_send_streams = n as usize;
            },
            None => {},
        }
        match s.max_frame_size {
            Some(n) => {
                self.m.max_send_frame = n as usize;
            },
            None => {},
        }
        proof {
            Streams::lemma_same_streams(before, self@);
        }
        match s.initial_window_size {
            None => {},
            Some(n) => {
                self.resize(n);
            },
        }
        self.push_control(Frame::Settings(Settings::ack()));
        Ok(())
    }

    /// Takes the peer's acknowledgement of this side's settings.
    pub fn recv_ack(&mut self) -> (r: Result<(), Error>)
        requires
            old(self)@.wf(),
        ensures
            final(self)@.wf(),
            ack_received(old(self)@) == (final(self)@, fault_of(r)),
    {
        if self.m.local_acked {
            return Err(Error::library_go_away(Reason::PROTOCOL_ERROR));
        }
        let ghost before = self@;
        match self.m.local.initial_window_size {
            Some(n) => {
                if n > MAX_WINDOW_SIZE {
                    return Err(Error::library_go_away(Reason::FLOW_CONTROL_ERROR));
                }
                self.m.init_recv = n;
            },
            None => {},
        }
        self.m.local_acked = true;
        proof {
            Streams::lemma_same_streams(before, self@);
        }
        Ok(())
    }

    /// Ends the connection with an error.
    pub fn fail(&mut self, reason: Reason, debug: Vec<u8>, initiator: Initiator)
        requires
            old(self)@.wf(),
        ensures
            final(self)@.wf(),
            final(self)@ == failed(old(self)@, reason, debug@, initiator),
    {
        let none: Vec<u8> = Vec::new();
        assert(none@ =~= Seq::<u8>::empty());
        self.end_all(None, Cause::Connection(reason, initiator));
        let ghost before = self@;
        self.m.closed = Some(Closed { reason, initiator });
        proof {
            Streams::lemma_same_streams(before, self@);
        }
        if debug.len() <= 1024 {
            self.leave(reason, &debug);
        } else {
            self.leave(reason, &none);
        }
    }

    /// Handles an error.
    pub fn handle(&mut self, e: Error)
        requires
            old(self)@.wf(),
        ensures
            final(self)@.wf(),
            final(self)@ == handled(old(self)@, e@),
    {
        reveal(handled);
        match e {
            Error::GoAway(debug, reason, initiator) => {
                self.fail(reason, debug, initiator);
            },
            Error::Reset(id, reason, _) => {
                if id.is_zero() || id.id > MAX_STREAM_ID {
                    let none: Vec<u8> = Vec::new();
                    assert(none@ =~= Seq::<u8>::empty());
                    self.fail(Reason::PROTOCOL_ERROR, none, Initiator::Library);
                    return ;
                }
                match self.m.local_reset_max {
                    Some(max) => {
                        if self.m.local_resets >= max {
                            let debug = crate::wire::to_vec(TOO_MANY_INTERNAL_RESETS.as_slice());
                            self.fail(Reason::ENHANCE_YOUR_CALM, debug, Initiator::Library);
                            return ;
                        }
                        let ghost before = self@;
                        self.m.local_resets = self.m.local_resets + 1;
                        proof {
                            Streams::lemma_same_streams(before, self@);
                        }
                    },
                    None => {},
                }
                let ghost before = self@;
                if !is_local_id(self.m.side, id) && id.id > self.m.last_remote {
                    self.m.last_remote = id.id;
                }
                proof {
                    Streams::lemma_same_streams(before, self@);
                    assert(self@ == noticed(before, id));
                }
                self.reset(id, reason, Initiator::Library);
            },
        }
    }

    /// Asks the peer for leave.
    pub fn ask_leave(&mut self)
        requires
            old(self)@.wf(),
        ensures
            final(self)@.wf(),
            final(self).m.max_send_frame == old(self).m.max_send_frame,
            final(self)@ == leave_asked(old(self)@),
    {
        reveal(leave_asked);
        if self.m.shutdown != Shutdown::Off || self.m.closed.is_some() {
            return ;
        }
        let ghost before = self@;
        self.m.shutdown = Shutdown::Asked;
        proof {
            Streams::lemma_same_streams(before, self@);
        }
        let notice = GoAway::new(StreamId::new(MAX_STREAM_ID), Reason::NO_ERROR);
        self.push_control(Frame::GoAway(notice));
        self.push_control(
            Frame::Ping(Ping { ack: false, high: 0x0b7b_a2f0, low: 0x8b9b_fe54 }),
        );
    }

    /// Takes leave at once.
    pub fn take_leave(&mut self, reason: Reason)
        requires
            old(self)@.wf(),
        ensures
            final(self)@.wf(),
            final(self).m.max_send_frame == old(self).m.max_send_frame,
            final(self)@ == leave_taken(old(self)@, reason),
    {
        reveal(leave_taken);
        if self.m.shutdown == Shutdown::Going || self.m.closed.is_some() {
            return ;
        }
        let ghost before = self@;
        self.m.shutdown = Shutdown::Going;
        self.m.served = self.m.last_remote;
        proof {
            Streams::lemma_same_streams(before, self@);
        }
        let none: Vec<u8> = Vec::new();
        assert(none@ =~= Seq::<u8>::empty());
        self.leave(reason, &none);
    }

    fn is_quiet(&self) -> (r: bool)
        ensures
            r == is_quiet(self@.streams),
    {
        let mut i: usize = 0;
        while i < self.streams.len()
            invariant
                i <= self.streams@.len(),
                forall|j: int| 0 <= j < i ==> (#[trigger] self@.streams[j]).done(),
            decreases self.streams.len() - i,
        {
            if !self.streams[i].is_done() {
                assert(!self@.streams[i as int].done());
                return false;
            }
            i = i + 1;
        }
        true
    }

    /// Ends the connection if one of the two sides took its leave and nothing
    /// is left to be done on any stream.
    pub fn settle(&mut self)
        requires
            old(self)@.wf(),
        ensures
            final(self)@.wf(),
            final(self)@ == settled(old(self)@),
    {
        if self.m.closed.is_none() && (self.m.remote_error.is_some() || self.m.shutdown
            == Shutdown::Going) && self.is_quiet() {
            let ghost before = self@;
            self.m.closed =
            Some(Closed { reason: Reason::NO_ERROR, initiator: Initiator::Library });
            proof {
                Streams::lemma_same_streams(before, self@);
            }
            let none: Vec<u8> = Vec::new();
            assert(none@ =~= Seq::<u8>::empty());
            self.leave(Reason::NO_ERROR, &none);
        }
    }
}

} // verus!
