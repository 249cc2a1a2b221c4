//! The streams of a connection, and what the connection keeps for all of them.

use crate::frame::{
    Frame, FrameView, Reason, Settings, StreamId, DEFAULT_MAX_FRAME_SIZE, MAX_MAX_FRAME_SIZE,
};
use crate::message::{Request, RequestView};
use crate::proto::error::Initiator;
use crate::proto::send::{assigned, ended, frames_view, is_control, within_window};
use crate::proto::stream::{Cause, Half, Stream, StreamView, MAX_WINDOW_SIZE};
use std::collections::VecDeque;
use vstd::prelude::*;

verus! {

/// The largest stream identifier.
pub const MAX_STREAM_ID: u32 = 2_147_483_647;

/// The two ends of a connection.
#[derive(Clone, Copy, Debug, PartialEq, Eq, Structural)]
pub enum Side {
    Client,
    Server,
}

/// How far this side has come in taking its leave.
#[derive(Clone, Copy, Debug, PartialEq, Eq, Structural)]
pub enum Shutdown {
    /// It has not begun.
    Off,
    /// The peer was told, and has not answered yet.
    Asked,
    /// The peer knows which streams will still be served.
    Going,
}

/// How a connection came to its end on this side.
#[derive(Clone, Copy, Debug, PartialEq, Eq, Structural)]
pub struct Closed {
    pub reason: Reason,
    pub initiator: Initiator,
}

/// What a connection keeps for all of its streams.
#[derive(Clone, Copy, Debug, PartialEq, Eq, Structural)]
pub struct Meter {
    pub side: Side,
    /// The settings of this side, and whether the peer has acknowledged them.
    pub local: Settings,
    pub local_acked: bool,
    /// The windows that streams start with, for sending and for receiving.
    pub init_send: u32,
    pub init_recv: u32,
    /// The largest payload that the peer accepts.
    pub max_send_frame: usize,
    /// The number of streams that may be open at once, of each side's.
    pub max_send_streams: usize,
    pub max_recv_streams: usize,
    /// The most capacity that a stream shows.
    pub max_send_buffer: usize,
    /// The window of the connection for sending, and what of it is assigned to
    /// no stream.
    pub send_window: u32,
    pub free: u32,
    /// The window of the connection for receiving, the size that it is meant to
    /// have, and the number of received bytes that are not released yet.
    pub recv_window: u32,
    pub recv_target: u32,
    pub in_flight: u32,
    /// The identifier of the next stream that this side opens.
    pub next_id: u32,
    /// The highest identifier of a stream that the peer opened.
    pub last_remote: u32,
    /// The peer's resets of streams that wait to be accepted.
    pub remote_resets: usize,
    pub remote_reset_max: usize,
    /// The resets that errors of the peer made necessary.
    pub local_resets: usize,
    pub local_reset_max: Option<usize>,
    /// The number of reset streams that are remembered.
    pub reset_stream_max: usize,
    /// The time that was last told, and how long reset streams are remembered, in
    /// milliseconds.
    pub now: u64,
    pub reset_stream_duration: u64,
    pub shutdown: Shutdown,
    /// The highest stream of the peer that is still served, and the highest
    /// stream of this side that the peer still serves.
    pub served: u32,
    pub remote_served: u32,
    /// The reason that the peer gave for taking its leave.
    pub remote_error: Option<Reason>,
    pub closed: Option<Closed>,
}

/// A request that waits to be accepted.
#[derive(Debug)]
pub struct Accept {
    pub id: StreamId,
    pub request: Request,
}

/// A request that waits to be accepted.
#[verifier::ext_equal]
pub struct AcceptView {
    pub id: StreamId,
    pub request: RequestView,
}

impl View for Accept {
    type V = AcceptView;

    open spec fn view(&self) -> AcceptView {
        AcceptView { id: self.id, request: self.request@ }
    }
}

/// The views of a run of streams.
pub open spec fn streams_view(s: Seq<Stream>) -> Seq<StreamView> {
    s.map_values(|s: Stream| s@)
}

/// The views of a run of requests that wait to be accepted.
pub open spec fn accepts_view(s: Seq<Accept>) -> Seq<AcceptView> {
    s.map_values(|a: Accept| a@)
}

/// The streams of a connection.
#[derive(Debug)]
pub struct Streams {
    pub m: Meter,
    pub streams: Vec<Stream>,
    pub accept: VecDeque<Accept>,
    pub control: VecDeque<Frame>,
    pub remote_debug: Vec<u8>,
}

/// The streams of a connection, in the order in which they came to be; the
/// requests that wait to be accepted; the frames that go out before all others;
/// and the debug data that the peer gave when it took its leave.
#[verifier::ext_equal]
pub struct StreamsView {
    pub m: Meter,
    pub streams: Seq<StreamView>,
    pub accept: Seq<AcceptView>,
    pub control: Seq<FrameView>,
    pub remote_debug: Seq<u8>,
}

impl View for Streams {
    type V = StreamsView;

    open spec fn view(&self) -> StreamsView {
        StreamsView {
            m: self.m,
            streams: streams_view(self.streams@),
            accept: accepts_view(self.accept@),
            control: frames_view(self.control@),
            remote_debug: self.remote_debug@,
        }
    }
}

/// The sum of a number over a run of streams.
pub open spec fn total(streams: Seq<StreamView>, f: spec_fn(StreamView) -> nat) -> nat
    decreases streams.len(),
{
    if streams.len() == 0 {
        0
    } else {
        total(streams.drop_last(), f) + f(streams.last())
    }
}

/// The capacity that is assigned to a stream.
pub open spec fn available() -> spec_fn(StreamView) -> nat {
    |s: StreamView| s.st.available as nat
}

/// The number of received bytes of a stream that are not released yet.
pub open spec fn unreleased() -> spec_fn(StreamView) -> nat {
    |s: StreamView| s.st.in_flight as nat
}

pub(crate) proof fn lemma_total_update(
    streams: Seq<StreamView>,
    f: spec_fn(StreamView) -> nat,
    i: int,
    s: StreamView,
)
    requires
        0 <= i < streams.len(),
    ensures
        total(streams.update(i, s), f) + f(streams[i]) == total(streams, f) + f(s),
        f(streams[i]) <= total(streams, f),
    decreases streams.len(),
{
    let last = streams.len() - 1;
    if i == last {
        assert(streams.update(i, s).drop_last() =~= streams.drop_last());
    } else {
        assert(streams.update(i, s).drop_last() =~= streams.drop_last().update(i, s));
        lemma_total_update(streams.drop_last(), f, i, s);
    }
}

pub(crate) proof fn lemma_total_push(
    streams: Seq<StreamView>,
    f: spec_fn(StreamView) -> nat,
    s: StreamView,
)
    ensures
        total(streams.push(s), f) == total(streams, f) + f(s),
{
    assert(streams.push(s).drop_last() =~= streams);
}

pub(crate) proof fn lemma_total_remove(streams: Seq<StreamView>, f: spec_fn(StreamView) -> nat, i: int)
    requires
        0 <= i < streams.len(),
    ensures
        total(streams.remove(i), f) + f(streams[i]) == total(streams, f),
    decreases streams.len(),
{
    let last = streams.len() - 1;
    if i == last {
        assert(streams.remove(i) =~= streams.drop_last());
    } else {
        assert(streams.remove(i).drop_last() =~= streams.drop_last().remove(i));
        lemma_total_remove(streams.drop_last(), f, i);
    }
}

/// The place of the stream with this identifier.
pub open spec fn find(streams: Seq<StreamView>, id: StreamId) -> Option<int>
    decreases streams.len(),
{
    if streams.len() == 0 {
        None
    } else if streams[0].st.id == id {
        Some(0)
    } else {
        match find(streams.skip(1), id) {
            Some(i) => Some(i + 1),
            None => None,
        }
    }
}

pub(crate) proof fn lemma_find(streams: Seq<StreamView>, id: StreamId)
    ensures
        find(streams, id) matches Some(i) ==> 0 <= i < streams.len() && streams[i].st.id == id,
        find(streams, id) is None ==> forall|j: int|
            0 <= j < streams.len() ==> (#[trigger] streams[j]).st.id != id,
    decreases streams.len(),
{
    if streams.len() > 0 && streams[0].st.id != id {
        lemma_find(streams.skip(1), id);
        if find(streams, id) is None {
            assert forall|j: int| 0 <= j < streams.len() implies (
            #[trigger] streams[j]).st.id != id by {
                if j > 0 {
                    assert(streams.skip(1)[j - 1] == streams[j]);
                }
            }
        }
    }
}

/// Whether a stream is one that this side opens.
pub open spec fn is_local(side: Side, id: StreamId) -> bool {
    match side {
        Side::Client => id.id % 2 == 1,
        Side::Server => id.id % 2 == 0,
    }
}

/// Settings that this side can have: the largest payload is in its range.
pub open spec fn local_ok(s: Settings) -> bool {
    s.max_frame_size matches Some(n) ==> DEFAULT_MAX_FRAME_SIZE <= n <= MAX_MAX_FRAME_SIZE
}

impl StreamsView {
    /// What holds of each stream of a connection.
    pub open spec fn stream_ok(self, s: StreamView) -> bool {
        &&& s.wf()
        &&& s.st.send_window(self.m.init_send) <= MAX_WINDOW_SIZE
        &&& within_window(s.st, self.m.init_send)
    }

    /// What always holds of the streams of a connection. The capacity that is
    /// assigned to streams and what is assigned to none make up the window of the
    /// connection, and what is not released on the streams is what is not
    /// released on the connection.
    pub open spec fn wf(self) -> bool {
        &&& self.m.init_send <= MAX_WINDOW_SIZE
        &&& self.m.init_recv <= MAX_WINDOW_SIZE
        &&& DEFAULT_MAX_FRAME_SIZE <= self.m.max_send_frame <= MAX_MAX_FRAME_SIZE
        &&& self.m.send_window <= MAX_WINDOW_SIZE
        &&& self.m.free + total(self.streams, available()) == self.m.send_window
        &&& self.m.in_flight == total(self.streams, unreleased())
        &&& self.m.in_flight + self.m.recv_window <= MAX_WINDOW_SIZE
        &&& self.m.recv_target <= MAX_WINDOW_SIZE
        &&& self.m.next_id <= MAX_STREAM_ID + 2
        &&& self.m.next_id >= 1
        &&& self.m.last_remote <= MAX_STREAM_ID
        &&& local_ok(self.m.local)
        &&& forall|i: int|
            0 <= i < self.streams.len() ==> self.stream_ok(#[trigger] self.streams[i])
        &&& forall|i: int| 0 <= i < self.control.len() ==> is_control(#[trigger] self.control[i])
    }

    /// The streams with another frame to go out before the frames of streams.
    pub open spec fn with_control(self, f: FrameView) -> StreamsView {
        StreamsView { control: self.control.push(f), ..self }
    }

    /// Whether a stream was never opened.
    pub open spec fn is_idle(self, id: StreamId) -> bool {
        if is_local(self.m.side, id) {
            id.id >= self.m.next_id
        } else {
            id.id > self.m.last_remote
        }
    }
}

/// The streams from `i` on, and the unassigned capacity, after each of them in
/// turn got what it asks for.
pub open spec fn assign_from(streams: Seq<StreamView>, i: nat, init: u32, free: u32) -> (
    Seq<StreamView>,
    u32,
)
    decreases streams.len() - i,
{
    if i >= streams.len() {
        (streams, free)
    } else {
        let (st, left) = assigned(streams[i as int].st, init, free);
        assign_from(streams.update(i as int, StreamView { st, ..streams[i as int] }), i + 1, init, left)
    }
}

/// The streams of a connection after the unassigned capacity was handed to those
/// that ask for it, in their order.
pub open spec fn reassigned(c: StreamsView) -> StreamsView {
    let (streams, free) = assign_from(c.streams, 0, c.m.init_send, c.m.free);
    StreamsView { streams, m: Meter { free, ..c.m }, ..c }
}

/// Which streams an error ends: all, or only this side's above an identifier.
pub open spec fn is_hit(side: Side, above: Option<u32>, s: StreamView) -> bool {
    &&& !s.done()
    &&& s.st.cause is None
    &&& match above {
        None => true,
        Some(id) => is_local(side, s.st.id) && s.st.id.id > id,
    }
}

/// The streams from `i` on, and the unassigned capacity, after an error has
/// ended those that it hits.
pub open spec fn end_from(
    streams: Seq<StreamView>,
    i: nat,
    side: Side,
    above: Option<u32>,
    cause: Cause,
    free: u32,
) -> (Seq<StreamView>, u32)
    decreases streams.len() - i,
{
    if i >= streams.len() {
        (streams, free)
    } else if is_hit(side, above, streams[i as int]) {
        end_from(
            streams.update(i as int, ended(streams[i as int], cause)),
            i + 1,
            side,
            above,
            cause,
            (free + streams[i as int].st.available) as u32,
        )
    } else {
        end_from(streams, i + 1, side, above, cause, free)
    }
}

/// The streams of a connection after an error has ended those that it hits.
pub open spec fn all_ended(c: StreamsView, above: Option<u32>, cause: Cause) -> StreamsView {
    let (streams, free) = end_from(c.streams, 0, c.m.side, above, cause, c.m.free);
    StreamsView { streams, m: Meter { free, ..c.m }, ..c }
}

/// The number of streams for which something holds.
pub open spec fn count(streams: Seq<StreamView>, p: spec_fn(StreamView) -> bool) -> nat
    decreases streams.len(),
{
    if streams.len() == 0 {
        0
    } else {
        count(streams.drop_last(), p) + if p(streams.last()) {
            1nat
        } else {
            0
        }
    }
}

/// The number of open streams of one of the two sides.
pub open spec fn active_count(streams: Seq<StreamView>, side: Side, local: bool) -> nat {
    count(streams, |s: StreamView| s.active() && is_local(side, s.st.id) == local)
}

/// The number of reset streams that are remembered.
pub open spec fn kept_count(streams: Seq<StreamView>) -> nat {
    count(streams, |s: StreamView| s.st.keep)
}

/// Nothing more will happen on a stream, and no one waits for it.
pub open spec fn is_spent(s: StreamView) -> bool {
    s.done() && s.st.released && !s.st.keep && s.st.available == 0 && s.st.in_flight == 0
}

/// A run of streams without those on which nothing more will happen.
pub open spec fn purged(streams: Seq<StreamView>) -> Seq<StreamView>
    decreases streams.len(),
{
    if streams.len() == 0 {
        streams
    } else if is_spent(streams[0]) {
        purged(streams.skip(1))
    } else {
        seq![streams[0]] + purged(streams.skip(1))
    }
}

/// Whether a stream is one that this side opens.
pub fn is_local_id(side: Side, id: StreamId) -> (r: bool)
    ensures
        r == is_local(side, id),
{
    match side {
        Side::Client => id.id % 2 == 1,
        Side::Server => id.id % 2 == 0,
    }
}

impl Stream {
    /// Whether nothing is left to be done on the stream.
    pub fn is_done(&self) -> (r: bool)
        ensures
            r == self@.done(),
    {
        self.st.send == Half::Closed && self.st.recv == Half::Closed && self.outbox.len() == 0
    }
}

impl Streams {
    /// The place of the stream with this identifier.
    pub fn find(&self, id: StreamId) -> (r: Option<usize>)
        ensures
            find(self@.streams, id) == match r {
                Some(i) => Some(i as int),
                None => None,
            },
            r matches Some(i) ==> i < self.streams@.len() && self@.streams[i as int].st.id == id,
    {
        let ghost all = self@.streams;
        let mut i: usize = 0;
        assert(all.skip(0) =~= all);
        while i < self.streams.len()
            invariant
                i <= self.streams@.len(),
                all == self@.streams,
                find(all, id) == match find(all.skip(i as int), id) {
                    Some(k) => Some(k + i),
                    None => None,
                },
            decreases self.streams.len() - i,
        {
            assert(all.skip(i as int)[0] == self.streams@[i as int]@);
            assert(all.skip(i as int).skip(1) =~= all.skip(i + 1));
            if self.streams[i].st.id == id {
                return Some(i);
            }
            i = i + 1;
        }
        None
    }

    /// Whether a stream was never opened.
    pub fn is_idle(&self, id: StreamId) -> (r: bool)
        ensures
            r == self@.is_idle(id),
    {
        if is_local_id(self.m.side, id) {
            id.id >= self.m.next_id
        } else {
            id.id > self.m.last_remote
        }
    }

    /// Adds a frame that goes out before the frames of streams.
    pub fn push_control(&mut self, f: Frame)
        requires
            old(self)@.wf(),
            is_control(f@),
        ensures
            final(self)@.wf(),
            final(self)@ == old(self)@.with_control(f@),
    {
        let ghost v = f@;
        self.control.push_back(f);
        assert(self@.control =~= old(self)@.control.push(v));
        assert(self@.streams == old(self)@.streams);
        assert forall|i: int| 0 <= i < self@.streams.len() implies self@.stream_ok(
            #[trigger] self@.streams[i],
        ) by {
            assert(old(self)@.stream_ok(old(self)@.streams[i]));
        }
    }

    /// The number of open streams of one of the two sides.
    pub fn active_count(&self, local: bool) -> (n: usize)
        ensures
            n == active_count(self@.streams, self.m.side, local),
    {
        let ghost p = |s: StreamView| s.active() && is_local(self.m.side, s.st.id) == local;
        let mut n: usize = 0;
        let mut i: usize = 0;
        assert(self@.streams.take(0) =~= Seq::<StreamView>::empty());
        while i < self.streams.len()
            invariant
                i <= self.streams@.len(),
                n <= i,
                p == (|s: StreamView| s.active() && is_local(self.m.side, s.st.id) == local),
                n == count(self@.streams.take(i as int), p),
            decreases self.streams.len() - i,
        {
            let ghost prefix = self@.streams.take(i + 1);
            assert(prefix.drop_last() =~= self@.streams.take(i as int));
            assert(prefix.last() == self.streams@[i as int]@);
            let s = &self.streams[i];
            if s.st.opened && !s.is_done() && is_local_id(self.m.side, s.st.id) == local {
                n = n + 1;
            }
            i = i + 1;
        }
        assert(self@.streams.take(i as int) =~= self@.streams);
        n
    }

    /// The number of reset streams that are remembered.
    pub fn kept_count(&self) -> (n: usize)
        ensures
            n == kept_count(self@.streams),
    {
        let ghost p = |s: StreamView| s.st.keep;
        let mut n: usize = 0;
        let mut i: usize = 0;
        assert(self@.streams.take(0) =~= Seq::<StreamView>::empty());
        while i < self.streams.len()
            invariant
                i <= self.streams@.len(),
                n <= i,
                p == (|s: StreamView| s.st.keep),
                n == count(self@.streams.take(i as int), p),
            decreases self.streams.len() - i,
        {
            let ghost prefix = self@.streams.take(i + 1);
            assert(prefix.drop_last() =~= self@.streams.take(i as int));
            assert(prefix.last() == self.streams@[i as int]@);
            if self.streams[i].st.keep {
                n = n + 1;
            }
            i = i + 1;
        }
        assert(self@.streams.take(i as int) =~= self@.streams);
        n
    }

    /// Replaces the views of the streams by those of one stream changed.
    pub(crate) proof fn lemma_stream_set(before: Streams, after: Streams, i: int)
        requires
            0 <= i < before.streams@.len(),
            after.streams@ == before.streams@.update(i, after.streams@[i]),
        ensures
            after@.streams == before@.streams.update(i, after.streams@[i]@),
    {
        assert(after@.streams =~= before@.streams.update(i, after.streams@[i]@));
    }

    /// Hands the unassigned capacity to the streams that ask for it, in their
    /// order.
    pub fn reassign(&mut self)
        requires
            old(self)@.wf(),
        ensures
            final(self)@.wf(),
            final(self)@ == reassigned(old(self)@),
    {
        let ghost goal = reassigned(self@);
        let ghost window = self.m.send_window;
        let mut i: usize = 0;
        while i < self.streams.len()
            invariant
                i <= self.streams@.len(),
                self@.wf(),
                goal == ({
                    let (streams, free) = assign_from(
                        self@.streams,
                        i as nat,
                        self.m.init_send,
                        self.m.free,
                    );
                    StreamsView { streams, m: Meter { free, ..self.m }, ..self@ }
                }),
            decreases self.streams.len() - i,
        {
            let ghost before = *self;
            assert(self@.stream_ok(self@.streams[i as int]));
            let mut st = self.streams[i].st;
            let free: u32 = st.assign(self.m.init_send, self.m.free);
            self.streams[i].st = st;
            self.m.free = free;
            proof {
                Streams::lemma_stream_set(before, *self, i as int);
                let s = self.streams@[i as int]@;
                lemma_total_update(before@.streams, available(), i as int, s);
                lemma_total_update(before@.streams, unreleased(), i as int, s);
                assert forall|j: int| 0 <= j < self@.streams.len() implies self@.stream_ok(
                    #[trigger] self@.streams[j],
                ) by {
                    assert(before@.stream_ok(before@.streams[j]));
                }
            }
            i = i + 1;
        }
    }
}

} // verus!
