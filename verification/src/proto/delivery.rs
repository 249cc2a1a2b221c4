//! What goes out of one connection comes into the other.

use crate::codec::framed_read::{next_frame_of, FramedReadView};
use crate::codec::framed_write::{buffered, lemma_buffer_appends, wire_of, FramedWriteView};
use crate::codec::round_trip::{
    enough_continuations, in_step, is_plain, law_headers_arrive, law_plain_frames_arrive,
    law_push_promise_arrives, plain_body,
};
use crate::codec::CodecView;
use crate::frame::headers::{block_bytes, HeadersFlag};
use crate::frame::reload::{block_arrives, ready, with_updates};
use crate::frame::FrameView;
use crate::proto::connection::{
    all_encoded, encoded, read_all, reads_on, received, stepped, written, ConnectionView,
};
use crate::proto::error::ErrorView;
use crate::proto::flush::{conn_widened, flushed, sent_all, sent_from, widened};
use crate::proto::laws::lemma_stepped_read;
use crate::proto::send::{all_sendable, drain_step, drained, front_len, is_control, is_sendable};
use crate::proto::stream::{StreamState, StreamView};
use crate::proto::streams::{active_count, local_ok, StreamsView};
use vstd::prelude::*;

verus! {

/// A write side after a frame: a header block has told of the table sizes.
pub open spec fn after_writing(w: FramedWriteView, f: FrameView) -> FramedWriteView {
    if f is Headers || f is PushPromise {
        FramedWriteView { encoder: w.encoder.told(), ..w }
    } else {
        w
    }
}

/// The bytes of a run of frames, as one write side writes them.
pub open spec fn wires_of(w: FramedWriteView, frames: Seq<FrameView>) -> Seq<u8>
    decreases frames.len(),
{
    if frames.len() == 0 {
        Seq::empty()
    } else {
        wire_of(w, frames[0]) + wires_of(after_writing(w, frames[0]), frames.skip(1))
    }
}

/// A write side after a run of frames.
pub open spec fn after_all(w: FramedWriteView, frames: Seq<FrameView>) -> FramedWriteView
    decreases frames.len(),
{
    if frames.len() == 0 {
        w
    } else {
        after_all(after_writing(w, frames[0]), frames.skip(1))
    }
}

/// Two write sides that write frames in the same way.
pub open spec fn writes_alike(a: FramedWriteView, b: FramedWriteView) -> bool {
    a.encoder == b.encoder && a.max_frame_size == b.max_frame_size
}

proof fn lemma_wires_push(w: FramedWriteView, frames: Seq<FrameView>, f: FrameView)
    ensures
        wires_of(w, frames.push(f)) == wires_of(w, frames) + wire_of(after_all(w, frames), f),
        after_all(w, frames.push(f)) == after_writing(after_all(w, frames), f),
    decreases frames.len(),
{
    let all = frames.push(f);
    if frames.len() == 0 {
        assert(all.skip(1) =~= Seq::<FrameView>::empty());
        assert(wires_of(after_writing(w, f), all.skip(1)) =~= Seq::<u8>::empty());
        assert(wires_of(w, all) =~= wire_of(w, f));
        assert(after_all(after_writing(w, f), all.skip(1)) == after_writing(w, f));
        assert(Seq::<u8>::empty() + wire_of(w, f) =~= wire_of(w, f));
    } else {
        let next = after_writing(w, frames[0]);
        let rest = frames.skip(1);
        assert(all.skip(1) =~= rest.push(f));
        assert(all[0] == frames[0]);
        lemma_wires_push(next, rest, f);
        let a = wire_of(w, frames[0]);
        let b = wires_of(next, rest);
        let c = wire_of(after_all(next, rest), f);
        assert(a + (b + c) =~= (a + b) + c);
    }
}

proof fn lemma_encoded_wire(c: CodecView, f: FrameView)
    requires
        c.write.next is Nothing,
        is_sendable(f, c.write.max_frame_size),
    ensures
        encoded(c, f).transmit() == c.transmit() + wire_of(c.write, f),
        encoded(c, f).write.next is Nothing,
        writes_alike(encoded(c, f).write, after_writing(c.write, f)),
{
    reveal(encoded);
    lemma_buffer_appends(c.write, f);
    let write = buffered(c.write, f)->Ok_0;
    let d = CodecView { write, ..c };
    assert(d.drained().transmit() =~= d.transmit());
    assert(d.transmit() =~= c.transmit() + wire_of(c.write, f));
}

proof fn lemma_same_wire(a: FramedWriteView, b: FramedWriteView, f: FrameView)
    requires
        writes_alike(a, b),
    ensures
        wire_of(a, f) == wire_of(b, f),
        writes_alike(after_writing(a, f), after_writing(b, f)),
{
}

pub(crate) proof fn lemma_wires_concat(
    w: FramedWriteView,
    a: Seq<FrameView>,
    b: Seq<FrameView>,
)
    ensures
        wires_of(w, a + b) == wires_of(w, a) + wires_of(after_all(w, a), b),
        after_all(w, a + b) == after_all(after_all(w, a), b),
    decreases a.len(),
{
    if a.len() == 0 {
        assert(a + b =~= b);
        assert(wires_of(w, b) =~= Seq::<u8>::empty() + wires_of(w, b));
    } else {
        let next = after_writing(w, a[0]);
        assert((a + b)[0] == a[0]);
        assert((a + b).skip(1) =~= a.skip(1) + b);
        lemma_wires_concat(next, a.skip(1), b);
        let x = wire_of(w, a[0]);
        let y = wires_of(next, a.skip(1));
        let z = wires_of(after_all(w, a), b);
        assert(x + (y + z) =~= (x + y) + z);
    }
}

pub(crate) proof fn lemma_wires_around(w: FramedWriteView, frames: Seq<FrameView>, n: int)
    requires
        0 <= n < frames.len(),
    ensures
        ({
            let mid = after_all(w, frames.take(n));
            wires_of(w, frames) == wires_of(w, frames.take(n)) + wire_of(mid, frames[n]) + wires_of(
                after_writing(mid, frames[n]),
                frames.skip(n + 1),
            )
        }),
{
    let rest = frames.skip(n);
    let mid = after_all(w, frames.take(n));
    assert(frames =~= frames.take(n) + rest);
    lemma_wires_concat(w, frames.take(n), rest);
    assert(rest[0] == frames[n]);
    assert(rest.skip(1) =~= frames.skip(n + 1));
    let a = wires_of(w, frames.take(n));
    let b = wire_of(mid, frames[n]);
    let c = wires_of(after_writing(mid, frames[n]), frames.skip(n + 1));
    assert(wires_of(mid, rest) == b + c);
    assert(a + (b + c) =~= a + b + c);
}

pub(crate) proof fn lemma_after_all_max(w: FramedWriteView, frames: Seq<FrameView>)
    ensures
        after_all(w, frames).max_frame_size == w.max_frame_size,
    decreases frames.len(),
{
    if frames.len() > 0 {
        lemma_after_all_max(after_writing(w, frames[0]), frames.skip(1));
    }
}

pub(crate) proof fn lemma_all_encoded_wires(c: CodecView, frames: Seq<FrameView>)
    requires
        c.write.next is Nothing,
        all_sendable(frames, c.write.max_frame_size),
    ensures
        all_encoded(c, frames).transmit() == c.transmit() + wires_of(c.write, frames),
        all_encoded(c, frames).write.next is Nothing,
        writes_alike(all_encoded(c, frames).write, after_all(c.write, frames)),
    decreases frames.len(),
{
    if frames.len() == 0 {
        assert(c.transmit() + Seq::<u8>::empty() =~= c.transmit());
    } else {
        let init = frames.drop_last();
        let f = frames.last();
        assert(init.push(f) =~= frames);
        assert(all_sendable(init, c.write.max_frame_size)) by {
            assert forall|i: int| 0 <= i < init.len() implies is_sendable(
                #[trigger] init[i],
                c.write.max_frame_size,
            ) by {
                assert(is_sendable(frames[i], c.write.max_frame_size));
            }
        }
        assert(is_sendable(frames[frames.len() - 1], c.write.max_frame_size));
        lemma_all_encoded_wires(c, init);
        lemma_after_all_max(c.write, init);
        let mid = all_encoded(c, init);
        lemma_encoded_wire(mid, f);
        lemma_same_wire(mid.write, after_all(c.write, init), f);
        lemma_wires_push(c.write, init, f);
        let a = c.transmit();
        let b = wires_of(c.write, init);
        let d = wire_of(mid.write, f);
        assert((a + b) + d =~= a + (b + d));
    }
}

proof fn lemma_drained_sendable(v: StreamView, max: usize)
    ensures
        all_sendable(drained(v, max).1, max),
    decreases v.outbox.len(), front_len(v),
{
    if let Some((next, f)) = drain_step(v, max) {
        lemma_drained_sendable(next, max);
        assert(is_sendable(f, max));
    }
}

proof fn lemma_sent_all_sendable(c: StreamsView, i: nat)
    ensures
        all_sendable(sent_all(c, i).1, c.m.max_send_frame),
    decreases c.streams.len() - i,
{
    if i < c.streams.len() {
        let (next, frames) = sent_from(c, i as int);
        lemma_sent_all_sendable(next, i + 1);
        let (s, update) = widened(c.streams[i as int], c.m.init_recv);
        let opened = s.st.opened || active_count(c.streams, c.m.side, true) < c.m.max_send_streams;
        lemma_drained_sendable(
            StreamView { st: StreamState { opened, ..s.st }, ..s },
            c.m.max_send_frame,
        );
    }
}

pub(crate) proof fn lemma_flushed_sendable(c: StreamsView)
    requires
        forall|i: int| 0 <= i < c.control.len() ==> is_control(#[trigger] c.control[i]),
    ensures
        all_sendable(flushed(c).1, c.m.max_send_frame),
{
    let (widened, update) = conn_widened(StreamsView { control: Seq::empty(), ..c });
    lemma_sent_all_sendable(widened, 0);
    let frames = sent_all(widened, 0).1;
    let all = c.control + update + frames;
    assert forall|i: int| 0 <= i < all.len() implies is_sendable(
        #[trigger] all[i],
        c.m.max_send_frame,
    ) by {
        if i < c.control.len() {
            assert(is_control(c.control[i]));
        } else if i >= c.control.len() + update.len() {
            assert(is_sendable(frames[i - c.control.len() - update.len()], c.m.max_send_frame));
        }
    }
}

/// Nothing of a frame is left to be written, and the streams know the largest
/// payload that the peer accepts.
pub open spec fn can_write(v: ConnectionView) -> bool {
    &&& v.streams.wf()
    &&& v.codec.write.next is Nothing
    &&& v.codec.write.max_frame_size == v.streams.m.max_send_frame
}

/// What a connection writes is the bytes of the frames that can go out, in their
/// order, behind what was there.
pub proof fn law_output_is_frames(v: ConnectionView)
    requires
        can_write(v),
    ensures
        written(v).codec.transmit() == v.codec.transmit() + wires_of(
            v.codec.write,
            flushed(v.streams).1,
        ),
{
    lemma_flushed_sendable(v.streams);
    lemma_all_encoded_wires(v.codec, flushed(v.streams).1);
}

/// A frame that a reader gets as a writer sends it.
pub open spec fn gets_across(v: FramedReadView, w: FramedWriteView, f: FrameView) -> bool {
    &&& in_step(v, w)
    &&& match f {
        FrameView::Headers(h) => {
            &&& h.stream_id.wf()
            &&& h.stream_id.id != 0
            &&& h.stream_dep is None
            &&& h.flags.end_headers
            &&& !h.flags.padded
            &&& !h.flags.priority
            &&& block_arrives(h.block, v.max_header_list_size)
            &&& enough_continuations(v, w, h.block, w.max_frame_size as int)
        },
        FrameView::PushPromise(p) => {
            &&& p.stream_id.wf()
            &&& p.stream_id.id != 0
            &&& p.promised_id.wf()
            &&& p.flags == (HeadersFlag {
                end_stream: false,
                end_headers: true,
                padded: false,
                priority: false,
            })
            &&& block_bytes(w.encoder, p.block).len() > 0
            &&& block_arrives(p.block, v.max_header_list_size)
            &&& enough_continuations(v, w, p.block, w.max_frame_size - 4)
        },
        _ => is_plain(f) && plain_body(f).len() <= v.max_frame_size,
    }
}

/// A read side after a frame that a writer sent.
pub open spec fn after_reading(v: FramedReadView, w: FramedWriteView, f: FrameView) -> FramedReadView {
    if f is Headers || f is PushPromise {
        FramedReadView {
            admitted: false,
            decoder: with_updates(ready(v.decoder), w.encoder.size_update),
            ..v
        }
    } else {
        FramedReadView { admitted: false, ..v }
    }
}

/// What one codec writes, another reads as it was.
pub proof fn law_frame_arrives(v: FramedReadView, w: FramedWriteView, f: FrameView, more: Seq<u8>)
    requires
        v.wf(),
        gets_across(v, w, f),
        v.buffer == wire_of(w, f) + more,
    ensures
        next_frame_of(v) == (
            (FramedReadView { buffer: more, ..after_reading(v, w, f) }),
            Ok::<Option<FrameView>, ErrorView>(Some(f)),
        ),
{
    match f {
        FrameView::Headers(h) => {
            law_headers_arrive(v, w, h, more);
        },
        FrameView::PushPromise(p) => {
            law_push_promise_arrives(v, w, p, more);
        },
        _ => {
            law_plain_frames_arrive(v, w, f, more);
        },
    }
}

/// A connection with other bytes to be read.
pub open spec fn with_buffer(v: ConnectionView, buffer: Seq<u8>) -> ConnectionView {
    let read = FramedReadView { buffer, ..v.codec.read };
    ConnectionView { codec: CodecView { read, ..v.codec }, ..v }
}

/// A connection after a frame of a peer that writes like `w`.
pub open spec fn delivered_one(v: ConnectionView, w: FramedWriteView, f: FrameView) -> ConnectionView {
    let read = after_reading(v.codec.read, w, f);
    stepped(ConnectionView { codec: CodecView { read, ..v.codec }, ..v }, f)
}

/// A connection after a run of frames of a peer that writes like `w`, as if they
/// had been handed over one by one.
pub open spec fn delivered(v: ConnectionView, w: FramedWriteView, frames: Seq<FrameView>) -> ConnectionView
    decreases frames.len(),
{
    if frames.len() == 0 {
        v
    } else {
        delivered(delivered_one(v, w, frames[0]), after_writing(w, frames[0]), frames.skip(1))
    }
}

/// A run of frames that a connection takes from a peer that writes like `w`: it
/// goes on in between, and each of the frames gets across.
pub open spec fn deliverable(v: ConnectionView, w: FramedWriteView, frames: Seq<FrameView>) -> bool
    decreases frames.len(),
{
    frames.len() > 0 ==> {
        &&& reads_on(v)
        &&& gets_across(v.codec.read, w, frames[0])
        &&& deliverable(
            delivered_one(v, w, frames[0]),
            after_writing(w, frames[0]),
            frames.skip(1),
        )
    }
}

proof fn lemma_stepped_with_buffer(v: ConnectionView, f: FrameView, buffer: Seq<u8>)
    ensures
        stepped(with_buffer(v, buffer), f) == with_buffer(stepped(v, f), buffer),
{
    reveal(stepped);
}

proof fn lemma_first_frame_delivered(
    v: ConnectionView,
    w: FramedWriteView,
    f: FrameView,
    rest: Seq<u8>,
)
    requires
        v.codec.read.wf(),
        local_ok(v.streams.m.local),
        reads_on(v),
        gets_across(v.codec.read, w, f),
    ensures
        read_all(with_buffer(v, wire_of(w, f) + rest)) == read_all(
            with_buffer(delivered_one(v, w, f), rest),
        ),
        delivered_one(v, w, f).codec.read.wf(),
        local_ok(delivered_one(v, w, f).streams.m.local),
{
    let start = with_buffer(v, wire_of(w, f) + rest);
    law_frame_arrives(start.codec.read, w, f, rest);
    let read = after_reading(v.codec.read, w, f);
    let mid = ConnectionView { codec: CodecView { read, ..v.codec }, ..v };
    lemma_stepped_with_buffer(mid, f, rest);
    lemma_stepped_read(mid, f);
}

/// What one connection writes does to the other what the frames would do if they
/// were handed over one by one, and nothing of the bytes is left.
pub proof fn law_frames_are_delivered(
    v: ConnectionView,
    w: FramedWriteView,
    frames: Seq<FrameView>,
    more: Seq<u8>,
)
    requires
        v.codec.read.wf(),
        local_ok(v.streams.m.local),
        deliverable(v, w, frames),
    ensures
        read_all(with_buffer(v, wires_of(w, frames) + more)) == read_all(
            with_buffer(delivered(v, w, frames), more),
        ),
    decreases frames.len(),
{
    if frames.len() == 0 {
        assert(Seq::<u8>::empty() + more =~= more);
    } else {
        let f = frames[0];
        let rest = wires_of(after_writing(w, f), frames.skip(1)) + more;
        assert(wires_of(w, frames) + more =~= wire_of(w, f) + rest);
        lemma_first_frame_delivered(v, w, f, rest);
        law_frames_are_delivered(delivered_one(v, w, f), after_writing(w, f), frames.skip(1), more);
    }
}

/// What one connection writes, the other takes in: after it has received the
/// bytes and read them all, it is where the frames that could go out would have
/// brought it one by one.
pub proof fn law_connections_talk(from: ConnectionView, to: ConnectionView)
    requires
        can_write(from),
        from.codec.transmit() == Seq::<u8>::empty(),
        to.codec.read.wf(),
        to.codec.read.buffer == Seq::<u8>::empty(),
        to.codec.read.partial is None,
        local_ok(to.streams.m.local),
        deliverable(to, from.codec.write, flushed(from.streams).1),
    ensures
        ({
            let frames = flushed(from.streams).1;
            let after = delivered(to, from.codec.write, frames);
            &&& written(from).codec.transmit() == wires_of(from.codec.write, frames)
            &&& read_all(received(to, written(from).codec.transmit())) == with_buffer(
                after,
                Seq::empty(),
            )
        }),
{
    let frames = flushed(from.streams).1;
    let w = from.codec.write;
    law_output_is_frames(from);
    let bytes = wires_of(w, frames);
    assert(Seq::<u8>::empty() + bytes =~= bytes);
    assert(bytes + Seq::<u8>::empty() =~= bytes);
    law_frames_are_delivered(to, w, frames, Seq::empty());
    let end = with_buffer(delivered(to, w, frames), Seq::empty());
    if reads_on(end) {
        assert(next_frame_of(end.codec.read) == (
            end.codec.read,
            Ok::<Option<FrameView>, ErrorView>(None),
        ));
    }
}

} // verus!
