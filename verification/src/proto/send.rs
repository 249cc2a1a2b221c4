//! Sending on a stream: capacity, and what waits for it.

use crate::buf::payload;
use crate::codec::error::UserError;
use crate::frame::block::{is_connection_header, BlockView, HeaderBlock};
use crate::frame::data::{Data, DataView};
use crate::frame::headers::{Headers, HeadersFlag, HeadersView};
use crate::frame::{Frame, FrameView, StreamId};
use crate::hpack::field::{fields_view, Field, FieldView};
use crate::proto::stream::{
    body_len, outbox_view, Cause, Half, Outgoing, OutgoingView, Stream, StreamState, StreamView,
    MAX_WINDOW_SIZE,
};
use bytes::Bytes;
use std::collections::VecDeque;
use vstd::prelude::*;

verus! {

/// A stream's state and the connection's unassigned capacity after the stream
/// got what it asks for, as far as its window and that capacity go.
pub open spec fn assigned(st: StreamState, init: u32, free: u32) -> (StreamState, u32) {
    let window = st.send_window(init);
    let room = if window > st.available {
        window - st.available
    } else {
        0
    };
    let want = st.requested - st.available;
    let most = if want < room {
        want
    } else {
        room
    };
    let n = if most < free {
        most
    } else {
        free as int
    };
    (StreamState { available: (st.available + n) as u32, ..st }, (free - n) as u32)
}

/// A stream's state and the connection's unassigned capacity after `capacity`
/// was asked for, on top of what waits to be sent. What was asked for before no
/// longer counts, and what is assigned beyond the new amount goes back.
pub open spec fn reserved(st: StreamState, capacity: u32, init: u32, free: u32) -> (
    StreamState,
    u32,
) {
    let total = capacity + st.buffered;
    if total == st.requested {
        (st, free)
    } else if total < st.requested {
        let back = if st.available > total {
            st.available - total
        } else {
            0
        };
        (
            StreamState {
                requested: total as u32,
                available: (st.available - back) as u32,
                ..st
            },
            (free + back) as u32,
        )
    } else if st.send == Half::Closed {
        (st, free)
    } else {
        let requested = if total > u32::MAX {
            u32::MAX
        } else {
            total as u32
        };
        assigned(StreamState { requested, ..st }, init, free)
    }
}

/// The capacity that a stream can be sent on right away: what is assigned, at
/// most `max_buffer`, less what waits already.
pub open spec fn capacity_of(st: StreamState, max_buffer: usize) -> int {
    let most = if st.available < max_buffer {
        st.available as int
    } else {
        max_buffer as int
    };
    if most > st.buffered {
        most - st.buffered
    } else {
        0
    }
}

/// Why a body or trailers cannot be sent on a stream, if they cannot.
pub open spec fn send_fault(st: StreamState) -> Option<UserError> {
    if st.send == Half::Streaming {
        None
    } else if st.is_closed() {
        Some(UserError::InactiveStreamId)
    } else {
        Some(UserError::UnexpectedFrameType)
    }
}

/// A stream and the connection's unassigned capacity after a part of the body
/// was queued, or why it was not. Capacity for it is asked for.
pub open spec fn data_queued(
    v: StreamView,
    data: Seq<u8>,
    end: bool,
    init: u32,
    free: u32,
) -> Result<(StreamView, u32), UserError> {
    if data.len() > MAX_WINDOW_SIZE {
        Err(UserError::PayloadTooBig)
    } else {
        match send_fault(v.st) {
            Some(e) => Err(e),
            None => if v.st.buffered + data.len() > usize::MAX {
                Err(UserError::PayloadTooBig)
            } else {
                let st = StreamState { buffered: (v.st.buffered + data.len()) as usize, ..v.st };
                let (st, free) = if st.requested < st.buffered {
                    let requested = if st.buffered > u32::MAX {
                        u32::MAX
                    } else {
                        st.buffered as u32
                    };
                    assigned(StreamState { requested, ..st }, init, free)
                } else {
                    (st, free)
                };
                let (st, free) = if end {
                    reserved(StreamState { send: Half::Closed, ..st }, 0, init, free)
                } else {
                    (st, free)
                };
                Ok((StreamView { st, outbox: v.outbox.push(OutgoingView::Data(data, end)), ..v }, free))
            },
        }
    }
}

/// The headers of a message are texts of their kinds, and none speaks of the
/// connection.
pub open spec fn fields_ok(fields: Seq<FieldView>) -> bool {
    forall|i: int|
        0 <= i < fields.len() ==> (#[trigger] fields[i]).wf() && !is_connection_header(fields[i].name) && (
        fields[i].name == crate::names::TE@ ==> fields[i].value == crate::names::TRAILERS@)
}

/// A stream after a header block was queued, or why it was not.
pub open spec fn headers_queued(v: StreamView, block: BlockView, end: bool) -> Result<
    StreamView,
    UserError,
> {
    if !fields_ok(block.fields) {
        Err(UserError::MalformedHeaders)
    } else if v.st.send == Half::AwaitingHeaders {
        Ok(
            StreamView {
                st: StreamState {
                    send: if end {
                        Half::Closed
                    } else {
                        Half::Streaming
                    },
                    ..v.st
                },
                outbox: v.outbox.push(OutgoingView::Headers(block, end)),
                ..v
            },
        )
    } else if v.st.is_closed() {
        Err(UserError::InactiveStreamId)
    } else {
        Err(UserError::UnexpectedFrameType)
    }
}

/// A stream and the connection's unassigned capacity after trailers were queued,
/// or why they were not.
pub open spec fn trailers_queued(v: StreamView, block: BlockView, init: u32, free: u32) -> Result<
    (StreamView, u32),
    UserError,
> {
    if !fields_ok(block.fields) {
        Err(UserError::MalformedHeaders)
    } else {
        match send_fault(v.st) {
            Some(e) => Err(e),
            None => {
                let (st, free) = reserved(
                    StreamState { send: Half::Closed, ..v.st },
                    0,
                    init,
                    free,
                );
                let outbox = v.outbox.push(OutgoingView::Headers(block, true));
                Ok((StreamView { st, outbox, ..v }, free))
            },
        }
    }
}

/// A stream after it ended before its time: nothing waits to be sent any more.
pub open spec fn ended(v: StreamView, cause: Cause) -> StreamView {
    StreamView {
        st: StreamState {
            send: Half::Closed,
            recv: Half::Closed,
            cause: Some(cause),
            available: 0,
            requested: 0,
            buffered: 0,
            ..v.st
        },
        outbox: Seq::empty(),
        ..v
    }
}

/// The frame that a header block goes out in.
pub open spec fn block_frame(id: StreamId, block: BlockView, end: bool) -> FrameView {
    FrameView::Headers(
        HeadersView {
            stream_id: id,
            stream_dep: None,
            block,
            flags: HeadersFlag {
                end_stream: end,
                end_headers: true,
                padded: false,
                priority: false,
            },
        },
    )
}

/// The frame that a part of a body goes out in.
pub open spec fn data_frame(id: StreamId, data: Seq<u8>, end: bool) -> FrameView {
    FrameView::Data(
        DataView { stream_id: id, data, end_stream: end, padded: false, pad_len: None },
    )
}

/// A stream after one frame of what waits was sent, in a payload of at most
/// `max` bytes, and the frame; none where nothing waits or the capacity does not
/// allow it. A part of a body that does not fit is sent in parts.
pub open spec fn drain_step(v: StreamView, max: usize) -> Option<(StreamView, FrameView)> {
    if v.outbox.len() == 0 {
        None
    } else {
        match v.outbox[0] {
            OutgoingView::Headers(block, end) => Some(
                (
                    StreamView { outbox: v.outbox.skip(1), ..v },
                    block_frame(v.st.id, block, end),
                ),
            ),
            OutgoingView::Data(d, end) => {
                let most = if v.st.available < max {
                    v.st.available as int
                } else {
                    max as int
                };
                if d.len() <= most {
                    Some(
                        (
                            StreamView {
                                st: after_sending(v.st, d.len() as int),
                                outbox: v.outbox.skip(1),
                                ..v
                            },
                            data_frame(v.st.id, d, end),
                        ),
                    )
                } else if most == 0 {
                    None
                } else {
                    Some(
                        (
                            StreamView {
                                st: after_sending(v.st, most),
                                outbox: seq![OutgoingView::Data(d.skip(most), end)]
                                    + v.outbox.skip(1),
                                ..v
                            },
                            data_frame(v.st.id, d.take(most), false),
                        ),
                    )
                }
            },
        }
    }
}

/// The number of bytes in the first item that waits.
pub open spec fn front_len(v: StreamView) -> nat {
    match v.outbox[0] {
        OutgoingView::Data(d, _) => d.len(),
        _ => 0,
    }
}

/// A stream after as much was sent of what waits as its capacity allows, and the
/// frames that it was sent in.
pub open spec fn drained(v: StreamView, max: usize) -> (StreamView, Seq<FrameView>)
    decreases v.outbox.len(), front_len(v),
{
    match drain_step(v, max) {
        None => (v, Seq::empty()),
        Some((next, frame)) => {
            let (after, frames) = drained(next, max);
            (after, seq![frame] + frames)
        },
    }
}

/// A stream's state after `n` bytes of its body were sent.
pub open spec fn after_sending(st: StreamState, n: int) -> StreamState {
    StreamState {
        send_delta: (st.send_delta - n) as i64,
        available: (st.available - n) as u32,
        requested: (st.requested - n) as u32,
        buffered: (st.buffered - n) as usize,
        ..st
    }
}

/// What is assigned to a stream is within its window.
pub open spec fn within_window(st: StreamState, init: u32) -> bool {
    st.available <= st.send_window(init) || st.available == 0
}

/// The views of a run of frames.
pub open spec fn frames_view(frames: Seq<Frame>) -> Seq<FrameView> {
    frames.map_values(|f: Frame| f@)
}

/// A frame that a stream sends: a header block as a whole, or a part of a body of
/// at most `max` bytes.
pub open spec fn is_stream_frame(f: FrameView, max: usize) -> bool {
    match f {
        FrameView::Headers(h) => h.flags.end_headers,
        FrameView::Data(d) => d.data.len() <= max,
        _ => false,
    }
}

/// A frame that goes out before the frames of streams.
pub open spec fn is_control(f: FrameView) -> bool {
    match f {
        FrameView::Settings(_) => true,
        FrameView::Ping(_) => true,
        FrameView::WindowUpdate(_) => true,
        FrameView::Reset(_) => true,
        FrameView::GoAway(g) => g.debug_data.len() <= 1024,
        _ => false,
    }
}

/// A frame that goes out of a connection.
pub open spec fn is_sendable(f: FrameView, max: usize) -> bool {
    is_control(f) || is_stream_frame(f, max)
}

/// Every frame of a run goes out of a connection.
pub open spec fn all_sendable(frames: Seq<FrameView>, max: usize) -> bool {
    forall|i: int| 0 <= i < frames.len() ==> is_sendable(#[trigger] frames[i], max)
}

proof fn lemma_body_len_push(outbox: Seq<OutgoingView>, o: OutgoingView)
    ensures
        body_len(outbox.push(o)) == body_len(outbox) + match o {
            OutgoingView::Headers(_, _) => 0,
            OutgoingView::Data(d, _) => d.len(),
        },
    decreases outbox.len(),
{
    if outbox.len() == 0 {
        assert(outbox.push(o).skip(1) =~= Seq::<OutgoingView>::empty());
        assert(body_len(Seq::<OutgoingView>::empty()) == 0);
        assert(outbox.push(o)[0] == o);
    } else {
        assert(outbox.push(o).skip(1) =~= outbox.skip(1).push(o));
        assert(outbox.push(o)[0] == outbox[0]);
        lemma_body_len_push(outbox.skip(1), o);
    }
}

fn min_u32(a: u32, b: u32) -> (r: u32)
    ensures
        r == if a < b {
            a
        } else {
            b
        },
{
    if a < b {
        a
    } else {
        b
    }
}

impl StreamState {
    /// Assigns what the stream asks for, as far as its window and the
    /// connection's unassigned capacity go, and gives back what is left of that.
    pub fn assign(&mut self, init: u32, free: u32) -> (left: u32)
        requires
            init <= MAX_WINDOW_SIZE,
            -(MAX_WINDOW_SIZE as int) <= old(self).send_delta <= MAX_WINDOW_SIZE,
            old(self).send_window(init) <= MAX_WINDOW_SIZE,
            old(self).available <= old(self).requested,
            old(self).available <= MAX_WINDOW_SIZE,
        ensures
            (*final(self), left) == assigned(*old(self), init, free),
            left <= free,
            final(self).available == old(self).available + (free - left),
            final(self).available <= final(self).requested,
            final(self).available <= MAX_WINDOW_SIZE,
            within_window(*old(self), init) ==> within_window(*final(self), init),
    {
        let window: i64 = init as i64 + self.send_delta;
        let room: u32 = if window > self.available as i64 {
            (window - self.available as i64) as u32
        } else {
            0
        };
        let n: u32 = min_u32(min_u32(self.requested - self.available, room), free);
        self.available = self.available + n;
        free - n
    }

    /// Asks for `capacity` on top of what waits to be sent.
    pub fn reserve(&mut self, capacity: u32, init: u32, free: u32) -> (left: u32)
        requires
            init <= MAX_WINDOW_SIZE,
            -(MAX_WINDOW_SIZE as int) <= old(self).send_delta <= MAX_WINDOW_SIZE,
            old(self).send_window(init) <= MAX_WINDOW_SIZE,
            old(self).available <= old(self).requested,
            old(self).available <= MAX_WINDOW_SIZE,
            free + old(self).available <= MAX_WINDOW_SIZE,
        ensures
            (*final(self), left) == reserved(*old(self), capacity, init, free),
            final(self).available + left == old(self).available + free,
            final(self).available <= final(self).requested,
            final(self).available <= MAX_WINDOW_SIZE,
            within_window(*old(self), init) ==> within_window(*final(self), init),
    {
        let total: usize = if capacity as usize > usize::MAX - self.buffered {
            usize::MAX
        } else {
            self.buffered + capacity as usize
        };
        if total < self.requested as usize {
            let total: u32 = total as u32;
            self.requested = total;
            if self.available > total {
                let back: u32 = self.available - total;
                self.available = total;
                return free + back;
            }
            return free;
        }
        if capacity as usize <= usize::MAX - self.buffered && total == self.requested as usize {
            return free;
        }
        if self.send == Half::Closed {
            return free;
        }
        self.requested =
        if total > u32::MAX as usize {
            u32::MAX
        } else {
            total as u32
        };
        self.assign(init, free)
    }

    /// The capacity that the stream can be sent on right away.
    pub fn capacity(&self, max_buffer: usize) -> (n: usize)
        ensures
            n == capacity_of(*self, max_buffer),
    {
        let most: usize = if (self.available as usize) < max_buffer {
            self.available as usize
        } else {
            max_buffer
        };
        if most > self.buffered {
            most - self.buffered
        } else {
            0
        }
    }

    fn fault(&self) -> (r: Option<UserError>)
        ensures
            r == send_fault(*self),
    {
        if self.send == Half::Streaming {
            None
        } else if self.send == Half::Closed && self.recv == Half::Closed {
            Some(UserError::InactiveStreamId)
        } else {
            Some(UserError::UnexpectedFrameType)
        }
    }

    fn sent(&mut self, n: u32)
        requires
            n <= old(self).available <= old(self).requested,
            n <= old(self).buffered,
            old(self).send_delta - n >= -(MAX_WINDOW_SIZE as int),
            old(self).send_delta <= MAX_WINDOW_SIZE,
        ensures
            *final(self) == after_sending(*old(self), n as int),
    {
        self.send_delta = self.send_delta - n as i64;
        self.available = self.available - n;
        self.requested = self.requested - n;
        self.buffered = self.buffered - n as usize;
    }
}

/// Whether the headers are texts of their kinds, and none speaks of the connection.
pub fn check_fields(fields: &Vec<Field>) -> (r: bool)
    ensures
        r == fields_ok(fields_view(fields@)),
{
    let mut i: usize = 0;
    while i < fields.len()
        invariant
            i <= fields@.len(),
            fields_ok(fields_view(fields@).take(i as int)),
        decreases fields.len() - i,
    {
        let ghost all = fields_view(fields@);
        assert(all[i as int] == fields@[i as int]@);
        if !fields[i].is_valid() {
            return false;
        }
        if crate::frame::block::is_connection_specific(fields[i].name.as_slice()) {
            return false;
        }
        if crate::wire::same_bytes(fields[i].name.as_slice(), crate::names::TE.as_slice())
            && !crate::wire::same_bytes(
            fields[i].value.as_slice(),
            crate::names::TRAILERS.as_slice(),
        ) {
            return false;
        }
        assert forall|j: int| 0 <= j < all.take(i + 1).len() implies (
        #[trigger] all.take(i + 1)[j]).wf() && !is_connection_header(
            all.take(i + 1)[j].name,
        ) && (all.take(i + 1)[j].name == crate::names::TE@ ==> all.take(i + 1)[j].value
            == crate::names::TRAILERS@) by {
            if j < i {
                assert(all.take(i + 1)[j] == all.take(i as int)[j]);
            }
        }
        i = i + 1;
    }
    assert(fields_view(fields@).take(i as int) =~= fields_view(fields@));
    true
}

impl Stream {
    /// Queues a part of the body, and gives back the connection's unassigned
    /// capacity.
    pub fn queue_data(&mut self, data: Bytes, end: bool, init: u32, free: u32) -> (r: Result<
        u32,
        UserError,
    >)
        requires
            old(self)@.wf(),
            init <= MAX_WINDOW_SIZE,
            old(self).st.send_window(init) <= MAX_WINDOW_SIZE,
            within_window(old(self).st, init),
            free + old(self).st.available <= MAX_WINDOW_SIZE,
        ensures
            final(self)@.wf(),
            within_window(final(self).st, init),
            match data_queued(old(self)@, payload(data), end, init, free) {
                Ok((after, left)) => {
                    &&& r == Ok::<u32, UserError>(left)
                    &&& final(self)@ == after
                    &&& final(self).st.available + left == old(self).st.available + free
                },
                Err(e) => r == Err::<u32, UserError>(e) && final(self)@ == old(self)@,
            },
    {
        let len: usize = data.len();
        if len > MAX_WINDOW_SIZE as usize {
            return Err(UserError::PayloadTooBig);
        }
        match self.st.fault() {
            Some(e) => {
                return Err(e);
            },
            None => {},
        }
        if len > usize::MAX - self.st.buffered {
            return Err(UserError::PayloadTooBig);
        }
        let mut free: u32 = free;
        self.st.buffered = self.st.buffered + len;
        if (self.st.requested as usize) < self.st.buffered {
            self.st.requested =
            if self.st.buffered > u32::MAX as usize {
                u32::MAX
            } else {
                self.st.buffered as u32
            };
            free = self.st.assign(init, free);
        }
        if end {
            self.st.send = Half::Closed;
            free = self.st.reserve(0, init, free);
        }
        proof {
            lemma_body_len_push(self@.outbox, OutgoingView::Data(payload(data), end));
        }
        self.push_outbox(Outgoing::Data(data, end));
        Ok(free)
    }

    /// Queues a header block.
    pub fn queue_headers(&mut self, block: HeaderBlock, end: bool) -> (r: Result<(), UserError>)
        requires
            old(self)@.wf(),
        ensures
            final(self)@.wf(),
            match headers_queued(old(self)@, block@, end) {
                Ok(after) => r is Ok && final(self)@ == after,
                Err(e) => r == Err::<(), UserError>(e) && final(self)@ == old(self)@,
            },
    {
        if !check_fields(&block.fields) {
            return Err(UserError::MalformedHeaders);
        }
        if self.st.send == Half::AwaitingHeaders {
            self.st.send =
            if end {
                Half::Closed
            } else {
                Half::Streaming
            };
            proof {
                lemma_body_len_push(self@.outbox, OutgoingView::Headers(block@, end));
            }
            self.push_outbox(Outgoing::Headers(block, end));
            return Ok(());
        }
        if self.st.send == Half::Closed && self.st.recv == Half::Closed {
            Err(UserError::InactiveStreamId)
        } else {
            Err(UserError::UnexpectedFrameType)
        }
    }

    /// Queues trailers, and gives back the connection's unassigned capacity.
    pub fn queue_trailers(&mut self, block: HeaderBlock, init: u32, free: u32) -> (r: Result<
        u32,
        UserError,
    >)
        requires
            old(self)@.wf(),
            init <= MAX_WINDOW_SIZE,
            old(self).st.send_window(init) <= MAX_WINDOW_SIZE,
            within_window(old(self).st, init),
            free + old(self).st.available <= MAX_WINDOW_SIZE,
        ensures
            final(self)@.wf(),
            within_window(final(self).st, init),
            match trailers_queued(old(self)@, block@, init, free) {
                Ok((after, left)) => {
                    &&& r == Ok::<u32, UserError>(left)
                    &&& final(self)@ == after
                    &&& final(self).st.available + left == old(self).st.available + free
                },
                Err(e) => r == Err::<u32, UserError>(e) && final(self)@ == old(self)@,
            },
    {
        if !check_fields(&block.fields) {
            return Err(UserError::MalformedHeaders);
        }
        match self.st.fault() {
            Some(e) => {
                return Err(e);
            },
            None => {},
        }
        self.st.send = Half::Closed;
        let free: u32 = self.st.reserve(0, init, free);
        proof {
            lemma_body_len_push(self@.outbox, OutgoingView::Headers(block@, true));
        }
        self.push_outbox(Outgoing::Headers(block, true));
        Ok(free)
    }

    /// Ends the stream before its time.
    pub fn end(&mut self, cause: Cause)
        requires
            old(self)@.wf(),
        ensures
            final(self)@.wf(),
            final(self)@ == ended(old(self)@, cause),
    {
        self.st.send = Half::Closed;
        self.st.recv = Half::Closed;
        self.st.cause = Some(cause);
        self.st.available = 0;
        self.st.requested = 0;
        self.st.buffered = 0;
        self.outbox = VecDeque::new();
        assert(outbox_view(self.outbox@) =~= Seq::<OutgoingView>::empty());
    }

    fn pop_outbox(&mut self) -> (r: Option<Outgoing>)
        ensures
            match r {
                Some(o) => {
                    &&& old(self)@.outbox.len() > 0
                    &&& o@ == old(self)@.outbox[0]
                    &&& final(self)@ == (StreamView {
                        outbox: old(self)@.outbox.skip(1),
                        ..old(self)@
                    })
                },
                None => old(self)@.outbox.len() == 0 && final(self)@ == old(self)@,
            },
    {
        let r = self.outbox.pop_front();
        proof {
            if r is Some {
                assert(outbox_view(self.outbox@) =~= old(self)@.outbox.skip(1));
            } else {
                assert(outbox_view(self.outbox@) =~= old(self)@.outbox);
            }
        }
        r
    }

    fn unpop_outbox(&mut self, o: Outgoing)
        ensures
            final(self)@ == (StreamView { outbox: seq![o@] + old(self)@.outbox, ..old(self)@ }),
    {
        let ghost v = o@;
        self.outbox.push_front(o);
        assert(outbox_view(self.outbox@) =~= seq![v] + old(self)@.outbox);
    }

    fn drain_one(&mut self, init: u32, max: usize) -> (r: Option<Frame>)
        requires
            old(self)@.wf(),
            init <= MAX_WINDOW_SIZE,
            within_window(old(self).st, init),
        ensures
            final(self)@.wf(),
            within_window(final(self).st, init),
            final(self).st.available <= old(self).st.available,
            final(self).st.send_delta <= old(self).st.send_delta,
            match drain_step(old(self)@, max) {
                None => r is None && final(self)@ == old(self)@,
                Some((next, frame)) => {
                    &&& r matches Some(f) && f@ == frame && is_stream_frame(f@, max)
                    &&& final(self)@ == next
                },
            },
    {
        let ghost before = self@;
        let id = self.st.id;
        match self.pop_outbox() {
            None => None,
            Some(Outgoing::Headers(block, end)) => Some(
                Frame::Headers(Headers::new(id, block, end)),
            ),
            Some(Outgoing::Data(data, end)) => {
                let mut data = data;
                let ghost whole = payload(data);
                let len: usize = data.len();
                let most: usize = if (self.st.available as usize) < max {
                    self.st.available as usize
                } else {
                    max
                };
                if len <= most {
                    self.st.sent(len as u32);
                    let mut frame = Data::new(id, data);
                    frame.end_stream = end;
                    Some(Frame::Data(frame))
                } else if most == 0 {
                    self.unpop_outbox(Outgoing::Data(data, end));
                    assert(self@.outbox =~= before.outbox);
                    None
                } else {
                    let part = data.split_to(most);
                    self.st.sent(most as u32);
                    self.unpop_outbox(Outgoing::Data(data, end));
                    assert(self@.outbox.skip(1) =~= before.outbox.skip(1));
                    Some(Frame::Data(Data::new(id, part)))
                }
            },
        }
    }

    /// Sends as much of what waits as the stream's capacity allows, in payloads
    /// of at most `max` bytes.
    pub fn drain(&mut self, init: u32, max: usize, frames: &mut VecDeque<Frame>)
        requires
            old(self)@.wf(),
            init <= MAX_WINDOW_SIZE,
            within_window(old(self).st, init),
            all_sendable(frames_view(old(frames)@), max),
        ensures
            final(self)@.wf(),
            within_window(final(self).st, init),
            final(self)@ == drained(old(self)@, max).0,
            frames_view(final(frames)@) == frames_view(old(frames)@) + drained(
                old(self)@,
                max,
            ).1,
            final(self).st.available <= old(self).st.available,
            final(self).st.send_delta <= old(self).st.send_delta,
            all_sendable(frames_view(final(frames)@), max),
    {
        let ghost (after, all) = drained(self@, max);
        loop
            invariant
                self@.wf(),
                init <= MAX_WINDOW_SIZE,
                within_window(self.st, init),
                self.st.available <= old(self).st.available,
                self.st.send_delta <= old(self).st.send_delta,
                drained(self@, max).0 == after,
                frames_view(frames@) + drained(self@, max).1 =~= frames_view(old(frames)@) + all,
                all_sendable(frames_view(frames@), max),
            ensures
                self@.wf(),
                within_window(self.st, init),
                self.st.available <= old(self).st.available,
                self.st.send_delta <= old(self).st.send_delta,
                self@ == after,
                frames_view(frames@) =~= frames_view(old(frames)@) + all,
                all_sendable(frames_view(frames@), max),
            decreases self@.outbox.len(), front_len(self@),
        {
            let ghost sent = frames_view(frames@);
            match self.drain_one(init, max) {
                None => {
                    assert(sent + Seq::<FrameView>::empty() =~= sent);
                    break ;
                },
                Some(frame) => {
                    let ghost f = frame@;
                    let ghost next = drained(self@, max).1;
                    frames.push_back(frame);
                    assert(frames_view(frames@) =~= sent.push(f));
                    assert(frames_view(frames@) + next =~= sent + (seq![f] + next));
                },
            }
        }
    }
}

} // verus!
