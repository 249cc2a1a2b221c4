//! What goes out of a connection.

use crate::frame::control::WindowUpdate;
use crate::frame::{Frame, FrameView, StreamId};
use crate::proto::send::{all_sendable, drained, frames_view};
use crate::proto::stream::{Half, Stream, StreamState, StreamView};
use crate::proto::streams::{
    active_count, available, lemma_total_update, purged, unreleased, Meter, Streams, StreamsView,
};
use crate::proto::user::{lemma_share, replaced};
use std::collections::VecDeque;
use vstd::prelude::*;

verus! {

/// What the window of the connection is to be widened by: what it lacks of the
/// size that it is meant to have, once that is half of what is left of it.
pub open spec fn conn_due(m: Meter) -> Option<u32> {
    let lacks = m.recv_target - m.in_flight - m.recv_window;
    if lacks > 0 && lacks >= m.recv_window / 2 {
        Some(lacks as u32)
    } else {
        None
    }
}

/// What the window of a stream is to be widened by: what was received and
/// released, once that is half of what is left of the window, and while there is
/// more to come.
pub open spec fn stream_due(st: StreamState, init: u32) -> Option<u32> {
    let lacks = st.owed - st.in_flight;
    let window = st.recv_window(init);
    if st.recv == Half::Streaming && lacks > 0 && lacks >= window / 2 {
        Some(lacks as u32)
    } else {
        None
    }
}

/// A stream after its window was widened, and the frame that says so.
pub open spec fn widened(s: StreamView, init: u32) -> (StreamView, Seq<FrameView>) {
    match stream_due(s.st, init) {
        None => (s, Seq::empty()),
        Some(n) => {
            let f = WindowUpdate { stream_id: s.st.id, size_increment: n };
            let st = StreamState { owed: (s.st.owed - n) as u32, ..s.st };
            (StreamView { st, ..s }, seq![FrameView::WindowUpdate(f)])
        },
    }
}

/// The streams after what can go out of one of them went out, and the frames
/// that it went out in. A stream of this side that is not open yet opens if one
/// more may be.
pub open spec fn sent_from(c: StreamsView, i: int) -> (StreamsView, Seq<FrameView>) {
    let (s, update) = widened(c.streams[i], c.m.init_recv);
    let opened = s.st.opened || active_count(c.streams, c.m.side, true) < c.m.max_send_streams;
    let s = StreamView { st: StreamState { opened, ..s.st }, ..s };
    if opened {
        let (after, frames) = drained(s, c.m.max_send_frame);
        let spent = s.st.available - after.st.available;
        let m = Meter { send_window: (c.m.send_window - spent) as u32, ..c.m };
        (replaced(c, i, after, m), update + frames)
    } else {
        (replaced(c, i, s, c.m), update)
    }
}

/// The streams after what can go out of those from `i` on went out, and the
/// frames that it went out in.
pub open spec fn sent_all(c: StreamsView, i: nat) -> (StreamsView, Seq<FrameView>)
    decreases c.streams.len() - i,
{
    if i >= c.streams.len() {
        (c, Seq::empty())
    } else {
        let (next, frames) = sent_from(c, i as int);
        let (after, rest) = sent_all(next, i + 1);
        (after, frames + rest)
    }
}

/// The streams after the window of the connection was widened, and the frame that
/// says so.
pub open spec fn conn_widened(c: StreamsView) -> (StreamsView, Seq<FrameView>) {
    match conn_due(c.m) {
        None => (c, Seq::empty()),
        Some(n) => {
            let f = WindowUpdate { stream_id: StreamId { id: 0 }, size_increment: n };
            let m = Meter { recv_window: (c.m.recv_window + n) as u32, ..c.m };
            (StreamsView { m, ..c }, seq![FrameView::WindowUpdate(f)])
        },
    }
}

/// The streams after everything that can go out went out, and the frames that it
/// went out in: the ones about the connection first, then those of each stream.
pub open spec fn flushed(c: StreamsView) -> (StreamsView, Seq<FrameView>) {
    let (widened, update) = conn_widened(StreamsView { control: Seq::empty(), ..c });
    let (after, frames) = sent_all(widened, 0);
    (StreamsView { streams: purged(after.streams), ..after }, c.control + update + frames)
}

proof fn lemma_drained(v: StreamView, max: usize)
    ensures
        drained(v, max).0.st.in_flight == v.st.in_flight,
        drained(v, max).0.st.id == v.st.id,
    decreases v.outbox.len(), crate::proto::send::front_len(v),
{
    match crate::proto::send::drain_step(v, max) {
        None => {},
        Some((next, _)) => {
            lemma_drained(next, max);
        },
    }
}

proof fn lemma_sent_wf(c: StreamsView, i: int, s: StreamView, m: Meter)
    requires
        c.wf(),
        0 <= i < c.streams.len(),
        c.stream_ok(s),
        s.st.available <= c.streams[i].st.available,
        s.st.in_flight == c.streams[i].st.in_flight,
        m == (Meter {
            send_window: (c.m.send_window - (c.streams[i].st.available - s.st.available)) as u32,
            ..c.m
        }),
    ensures
        replaced(c, i, s, m).wf(),
{
    let after = replaced(c, i, s, m);
    lemma_total_update(c.streams, available(), i, s);
    lemma_total_update(c.streams, unreleased(), i, s);
    assert forall|j: int| 0 <= j < after.streams.len() implies after.stream_ok(
        #[trigger] after.streams[j],
    ) by {
        if j != i {
            assert(c.stream_ok(c.streams[j]));
        }
    }
}

impl Stream {
    fn widen(&mut self, init: u32) -> (r: Option<WindowUpdate>)
        requires
            old(self)@.wf(),
        ensures
            final(self)@.wf(),
            final(self)@ == widened(old(self)@, init).0,
            widened(old(self)@, init).1 == match r {
                Some(f) => seq![FrameView::WindowUpdate(f)],
                None => Seq::empty(),
            },
    {
        let lacks: u32 = self.st.owed - self.st.in_flight;
        let half: u32 = if self.st.owed > init {
            0
        } else {
            (init - self.st.owed) / 2
        };
        if self.st.recv == Half::Streaming && lacks > 0 && lacks >= half {
            self.st.owed = self.st.owed - lacks;
            return Some(WindowUpdate::new(self.st.id, lacks));
        }
        None
    }
}

impl Streams {
    fn send_from(&mut self, i: usize, frames: &mut VecDeque<Frame>)
        requires
            old(self)@.wf(),
            i < old(self).streams@.len(),
            all_sendable(frames_view(old(frames)@), old(self).m.max_send_frame),
        ensures
            final(self)@.wf(),
            final(self)@ == sent_from(old(self)@, i as int).0,
            final(self).streams@.len() == old(self).streams@.len(),
            final(self).m.max_send_frame == old(self).m.max_send_frame,
            frames_view(final(frames)@) == frames_view(old(frames)@) + sent_from(
                old(self)@,
                i as int,
            ).1,
            all_sendable(frames_view(final(frames)@), old(self).m.max_send_frame),
    {
        let ghost before = *self;
        let ghost c = self@;
        proof {
            lemma_share(self@, i as int);
        }
        let more = self.active_count(true) < self.m.max_send_streams;
        let ghost prior = frames_view(frames@);
        let ghost (s1, update) = widened(c.streams[i as int], c.m.init_recv);
        match self.streams[i].widen(self.m.init_recv) {
            Some(f) => {
                frames.push_back(Frame::WindowUpdate(f));
                assert(frames_view(frames@) =~= prior.push(FrameView::WindowUpdate(f)));
                assert(frames_view(frames@) =~= prior + update);
            },
            None => {
                assert(frames_view(frames@) =~= prior + update);
            },
        }
        let opened = self.streams[i].st.opened || more;
        self.streams[i].st.opened = opened;
        let ghost s2 = self.streams@[i as int]@;
        if opened {
            let had: u32 = self.streams[i].st.available;
            self.streams[i].drain(self.m.init_send, self.m.max_send_frame, frames);
            self.m.send_window = self.m.send_window - (had - self.streams[i].st.available);
            proof {
                let sent = drained(s2, c.m.max_send_frame).1;
                assert(prior + update + sent =~= prior + (update + sent));
                lemma_drained(s2, c.m.max_send_frame);
            }
        }
        proof {
            let s = self.streams@[i as int]@;
            assert(self.streams@ =~= before.streams@.update(i as int, self.streams@[i as int]));
            Streams::lemma_stream_set(before, *self, i as int);
            lemma_sent_wf(c, i as int, s, self.m);
        }
    }

    fn send_all(&mut self, frames: &mut VecDeque<Frame>)
        requires
            old(self)@.wf(),
            all_sendable(frames_view(old(frames)@), old(self).m.max_send_frame),
        ensures
            final(self)@.wf(),
            final(self)@ == sent_all(old(self)@, 0).0,
            final(self).m.max_send_frame == old(self).m.max_send_frame,
            frames_view(final(frames)@) == frames_view(old(frames)@) + sent_all(old(self)@, 0).1,
            all_sendable(frames_view(final(frames)@), old(self).m.max_send_frame),
    {
        let ghost (after, all) = sent_all(self@, 0);
        let ghost prior = frames_view(frames@);
        let mut i: usize = 0;
        while i < self.streams.len()
            invariant
                i <= self.streams@.len(),
                self@.wf(),
                self.m.max_send_frame == old(self).m.max_send_frame,
                all_sendable(frames_view(frames@), self.m.max_send_frame),
                sent_all(self@, i as nat).0 == after,
                frames_view(frames@) + sent_all(self@, i as nat).1 =~= prior + all,
            decreases self.streams.len() - i,
        {
            let ghost before = self@;
            let ghost sent = frames_view(frames@);
            self.send_from(i, frames);
            proof {
                let now = sent_from(before, i as int).1;
                let rest = sent_all(self@, (i + 1) as nat).1;
                assert(sent + now + rest =~= sent + (now + rest));
            }
            i = i + 1;
        }
        assert(frames_view(frames@) =~= frames_view(frames@) + Seq::<FrameView>::empty());
    }

    /// Takes out everything that can go out.
    pub fn flush(&mut self) -> (frames: VecDeque<Frame>)
        requires
            old(self)@.wf(),
        ensures
            final(self)@.wf(),
            flushed(old(self)@) == (final(self)@, frames_view(frames@)),
            final(self).m.max_send_frame == old(self).m.max_send_frame,
            all_sendable(frames_view(frames@), old(self).m.max_send_frame),
    {
        let ghost c = self@;
        let mut frames: VecDeque<Frame> = VecDeque::new();
        std::mem::swap(&mut frames, &mut self.control);
        assert(frames_view(frames@) =~= c.control);
        assert(self@.control =~= Seq::<FrameView>::empty());
        let ghost start = StreamsView { control: Seq::empty(), ..c };
        assert(self@ =~= start);
        let ghost (mid, update) = conn_widened(start);
        let have: u32 = self.m.in_flight + self.m.recv_window;
        if self.m.recv_target > have {
            let lacks: u32 = self.m.recv_target - have;
            if lacks >= self.m.recv_window / 2 {
                let f = WindowUpdate::new(StreamId::new(0), lacks);
                self.m.recv_window = self.m.recv_window + lacks;
                frames.push_back(Frame::WindowUpdate(f));
                assert(frames_view(frames@) =~= c.control.push(FrameView::WindowUpdate(f)));
            }
        }
        assert(frames_view(frames@) =~= c.control + update);
        proof {
            assert forall|j: int| 0 <= j < self@.streams.len() implies self@.stream_ok(
                #[trigger] self@.streams[j],
            ) by {
                assert(c.stream_ok(c.streams[j]));
            }
            assert(self@ =~= mid);
        }
        self.send_all(&mut frames);
        self.purge();
        frames
    }
}

} // verus!
