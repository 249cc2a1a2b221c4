//! What goes out of a connection is whole frames.

use crate::codec::framed_read::{
    announced, frame_ok, has_frame, lemma_next_frame, lemma_next_frame_shrinks, next_frame_of,
};
use crate::codec::framed_write::{wire_of, FramedWriteView};
use crate::codec::runs::{
    block_parts, law_blocks_on_the_wire, law_headers_on_the_wire, parts_bytes, Part,
};
use crate::codec::CodecView;
use crate::frame::block::BlockView;
use crate::frame::head::{frame_bytes, Head};
use crate::frame::headers::block_bytes;
use crate::frame::settings::{setting_bytes, settings_payload, Settings};
use crate::frame::{
    FrameView, Kind, Reason, StreamId, DEFAULT_MAX_FRAME_SIZE, HEADER_LEN, MAX_MAX_FRAME_SIZE,
};
use crate::hpack::field::FieldView;
use crate::proto::connection::{
    driven, frame_received, lemma_handled, lemma_max_send_frame, lemma_stepped_buffer, read_all,
    reads_on, stepped, written, ConnectionView,
};
use crate::proto::control::{handled, leave_asked, leave_taken, settled};
use crate::proto::delivery::{
    after_writing, lemma_after_all_max, lemma_all_encoded_wires, lemma_flushed_sendable, wires_of,
};
use crate::proto::error::ErrorView;
use crate::proto::flush::{conn_widened, flushed, sent_all, sent_from};
use crate::proto::laws::{lemma_handled_local, lemma_stepped_read};
use crate::proto::send::{all_sendable, is_control, is_sendable};
use crate::proto::streams::{local_ok, StreamsView};
use crate::proto::user::{
    capacity_reserved, data_sent, given_up, let_go, request_queued, reset_by, response_queued,
    time_told, trailers_sent,
};
use crate::wire::be24;
use vstd::prelude::*;

verus! {

/// Bytes that are a run of whole frames.
pub open spec fn is_frames(bytes: Seq<u8>) -> bool
    decreases bytes.len(),
{
    bytes.len() == 0 || has_frame(bytes) && announced(bytes) >= 0 && is_frames(
        bytes.skip(HEADER_LEN + announced(bytes)),
    )
}

/// Whole frames behind whole frames are whole frames.
pub proof fn lemma_frames_concat(a: Seq<u8>, b: Seq<u8>)
    requires
        is_frames(a),
        is_frames(b),
    ensures
        is_frames(a + b),
    decreases a.len(),
{
    if a.len() == 0 {
        assert(a + b =~= b);
    } else {
        let n = HEADER_LEN + announced(a);
        assert(announced(a + b) == announced(a));
        assert((a + b).skip(n) =~= a.skip(n) + b);
        lemma_frames_concat(a.skip(n), b);
    }
}

pub(crate) proof fn lemma_one_frame(head: Head, body: Seq<u8>)
    requires
        body.len() < 0x100_0000,
    ensures
        is_frames(frame_bytes(head, body)),
{
    reveal_with_fuel(is_frames, 2);
    let bytes = frame_bytes(head, body);
    assert(be24(bytes, 0) == body.len());
    assert(bytes.skip(HEADER_LEN + announced(bytes)).len() == 0);
}

proof fn lemma_parts(parts: Seq<Part>)
    requires
        forall|i: int| 0 <= i < parts.len() ==> (#[trigger] parts[i]).body.len() < 0x100_0000,
    ensures
        is_frames(parts_bytes(parts)),
    decreases parts.len(),
{
    if parts.len() > 0 {
        lemma_one_frame(parts[0].head, parts[0].body);
        let rest = parts.skip(1);
        assert forall|i: int| 0 <= i < rest.len() implies (#[trigger] rest[i]).body.len()
            < 0x100_0000 by {
            assert(rest[i] == parts[i + 1]);
        }
        lemma_parts(rest);
        lemma_frames_concat(frame_bytes(parts[0].head, parts[0].body), parts_bytes(rest));
    }
}

proof fn lemma_settings_are_short(s: Settings)
    ensures
        settings_payload(s).len() <= 42,
{
    reveal(setting_bytes);
}

/// A SETTINGS frame is a whole frame.
pub proof fn lemma_settings_frame(s: Settings)
    ensures
        is_frames(s.wire()),
{
    lemma_settings_are_short(s);
    lemma_one_frame(s.spec_head(), settings_payload(s));
}

proof fn lemma_wire(w: FramedWriteView, f: FrameView)
    requires
        is_sendable(f, w.max_frame_size),
        DEFAULT_MAX_FRAME_SIZE <= w.max_frame_size <= MAX_MAX_FRAME_SIZE,
    ensures
        is_frames(wire_of(w, f)),
{
    match f {
        FrameView::Headers(h) => {
            let block = block_bytes(w.encoder, h.block);
            let max = w.max_frame_size as int;
            law_headers_on_the_wire(w, h);
            law_blocks_on_the_wire(h.stream_id, h.head(), Seq::empty(), block, max);
            lemma_parts(block_parts(h.stream_id, h.head(), Seq::empty(), block, max));
        },
        FrameView::Data(d) => {
            lemma_one_frame(d.head(), d.data);
        },
        FrameView::Settings(s) => {
            lemma_settings_frame(s);
        },
        FrameView::Ping(p) => {
            lemma_one_frame(p.spec_head(), p.body());
        },
        FrameView::WindowUpdate(u) => {
            lemma_one_frame(u.spec_head(), u.body());
        },
        FrameView::Reset(r) => {
            lemma_one_frame(r.spec_head(), r.body());
        },
        FrameView::GoAway(g) => {
            lemma_one_frame(
                Head {
                    kind: Kind::GoAway,
                    flag: 0,
                    stream_id: StreamId { id: 0 },
                },
                g.body(),
            );
        },
        _ => {},
    }
}

pub(crate) proof fn lemma_wires(w: FramedWriteView, frames: Seq<FrameView>)
    requires
        all_sendable(frames, w.max_frame_size),
        DEFAULT_MAX_FRAME_SIZE <= w.max_frame_size <= MAX_MAX_FRAME_SIZE,
    ensures
        is_frames(wires_of(w, frames)),
    decreases frames.len(),
{
    if frames.len() > 0 {
        let f = frames[0];
        let rest = frames.skip(1);
        assert(is_sendable(f, w.max_frame_size));
        assert forall|i: int| 0 <= i < rest.len() implies is_sendable(
            #[trigger] rest[i],
            w.max_frame_size,
        ) by {
            assert(is_sendable(frames[i + 1], w.max_frame_size));
        }
        lemma_wire(w, f);
        lemma_wires(after_writing(w, f), rest);
        lemma_frames_concat(wire_of(w, f), wires_of(after_writing(w, f), rest));
    }
}

/// A connection whose output is in order: what is to be handed out is whole frames, none
/// is half written, and what waits to be written can be.
pub open spec fn is_sound(v: ConnectionView) -> bool {
    &&& v.codec.write.next is Nothing
    &&& v.codec.write.max_frame_size == v.streams.m.max_send_frame
    &&& DEFAULT_MAX_FRAME_SIZE <= v.streams.m.max_send_frame <= MAX_MAX_FRAME_SIZE
    &&& has_controls(v.streams)
    &&& is_frames(v.codec.transmit())
}

/// The frames that go out before those of streams are of the kinds that do.
pub open spec fn has_controls(c: StreamsView) -> bool {
    forall|i: int| 0 <= i < c.control.len() ==> is_control(#[trigger] c.control[i])
}

proof fn lemma_sent_all_keeps(c: StreamsView, i: nat)
    ensures
        sent_all(c, i).0.m.max_send_frame == c.m.max_send_frame,
        sent_all(c, i).0.control == c.control,
    decreases c.streams.len() - i,
{
    if i < c.streams.len() {
        lemma_sent_all_keeps(sent_from(c, i as int).0, i + 1);
    }
}

pub(crate) proof fn lemma_written_sound(v: ConnectionView)
    requires
        is_sound(v),
    ensures
        is_sound(written(v)),
{
    let frames = flushed(v.streams).1;
    lemma_flushed_sendable(v.streams);
    lemma_all_encoded_wires(v.codec, frames);
    lemma_wires(v.codec.write, frames);
    lemma_frames_concat(v.codec.transmit(), wires_of(v.codec.write, frames));
    lemma_after_all_max(v.codec.write, frames);
    lemma_sent_all_keeps(
        conn_widened(StreamsView { control: Seq::empty(), ..v.streams }).0,
        0,
    );
}

proof fn lemma_frame_controls(c: StreamsView, f: FrameView)
    requires
        has_controls(c),
    ensures
        has_controls(frame_received(c, f).0),
{
    reveal(reset_by);
}

proof fn lemma_handled_controls(c: StreamsView, e: ErrorView)
    requires
        has_controls(c),
    ensures
        has_controls(handled(c, e)),
{
    reveal(handled);
    reveal(reset_by);
}

proof fn lemma_stepped_sound(v: ConnectionView, f: FrameView)
    requires
        is_sound(v),
        frame_ok(f),
    ensures
        is_sound(stepped(v, f)),
{
    reveal(stepped);
    lemma_frame_controls(v.streams, f);
    lemma_max_send_frame(v.streams, f);
    let (streams, fault) = frame_received(v.streams, f);
    if let Some(e) = fault {
        lemma_handled(streams, e);
        lemma_handled_controls(streams, e);
    }
}

proof fn lemma_read_all_sound(v: ConnectionView)
    requires
        is_sound(v),
        v.codec.read.wf(),
        local_ok(v.streams.m.local),
    ensures
        is_sound(read_all(v)),
    decreases
            v.codec.read.buffer.len(),
            if reads_on(v) {
                1int
            } else {
                0
            },
{
    if reads_on(v) {
        let (read, r) = next_frame_of(v.codec.read);
        let next = ConnectionView { codec: CodecView { read, ..v.codec }, ..v };
        lemma_next_frame(v.codec.read);
        lemma_next_frame_shrinks(v.codec.read);
        assert(next.codec.transmit() == v.codec.transmit());
        match r {
            Ok(None) => {},
            Ok(Some(f)) => {
                lemma_stepped_buffer(next, f);
                lemma_stepped_sound(next, f);
                lemma_stepped_read(next, f);
                lemma_read_all_sound(stepped(next, f));
            },
            Err(e) => {
                lemma_handled(next.streams, e);
                lemma_handled_controls(next.streams, e);
                lemma_handled_local(next.streams, e);
                lemma_read_all_sound(
                    ConnectionView { streams: handled(next.streams, e), ..next },
                );
            },
        }
    }
}

/// What a connection has to hand out is whole frames, whatever was received and however
/// often it was handed out: with [`lemma_frames_concat`], all of its output is.
pub proof fn law_output_is_whole_frames(v: ConnectionView)
    requires
        is_sound(v),
        v.codec.read.wf(),
        local_ok(v.streams.m.local),
    ensures
        is_sound(driven(v)),
        is_sound(ConnectionView { codec: v.codec.sent(), ..v }),
{
    reveal(driven);
    lemma_read_all_sound(v);
    let a = read_all(v);
    lemma_written_sound(a);
    let b = written(a);
    let c = ConnectionView { streams: settled(b.streams), ..b };
    assert(is_sound(c));
    lemma_written_sound(c);
    assert(v.codec.sent().transmit() =~= Seq::<u8>::empty());
}

/// Nothing that the user does spoils the output: what waits to be written before the
/// frames of streams stays of its kinds, and the largest payload stays the same.
pub proof fn law_calls_keep_output_sound(
    c: StreamsView,
    id: StreamId,
    data: Seq<u8>,
    fields: Seq<FieldView>,
    block: BlockView,
    n: u32,
    reason: Reason,
    now: u64,
    end: bool,
    head: bool,
)
    requires
        has_controls(c),
    ensures
        request_queued(c, block, end, head) matches Ok((after, _)) ==> has_controls(after)
            && after.m.max_send_frame == c.m.max_send_frame,
        response_queued(c, id, block, end) matches Ok(after) ==> has_controls(after)
            && after.m.max_send_frame == c.m.max_send_frame,
        data_sent(c, id, data, end) matches Ok(after) ==> has_controls(after)
            && after.m.max_send_frame == c.m.max_send_frame,
        trailers_sent(c, id, fields) matches Ok(after) ==> has_controls(after)
            && after.m.max_send_frame == c.m.max_send_frame,
        has_controls(capacity_reserved(c, id, n)),
        capacity_reserved(c, id, n).m.max_send_frame == c.m.max_send_frame,
        has_controls(given_up(c, id, reason)),
        given_up(c, id, reason).m.max_send_frame == c.m.max_send_frame,
        has_controls(let_go(c, id)),
        let_go(c, id).m.max_send_frame == c.m.max_send_frame,
        has_controls(time_told(c, now)),
        time_told(c, now).m.max_send_frame == c.m.max_send_frame,
        has_controls(leave_asked(c)),
        leave_asked(c).m.max_send_frame == c.m.max_send_frame,
        has_controls(leave_taken(c, reason)),
        leave_taken(c, reason).m.max_send_frame == c.m.max_send_frame,
{
    reveal(request_queued);
    reveal(response_queued);
    reveal(data_sent);
    reveal(trailers_sent);
    reveal(capacity_reserved);
    reveal(given_up);
    reveal(let_go);
    reveal(reset_by);
    reveal(time_told);
    reveal(leave_asked);
    reveal(leave_taken);
}

} // verus!
