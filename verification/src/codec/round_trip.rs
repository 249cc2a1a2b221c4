//! What one codec writes, another reads as it was.

use crate::codec::framed_read::{
    announced, decode_block, decode_continuation, decode_frame_of, next_frame_of, ContinuableView,
    DecodeEnd, FramedReadView, PartialView,
};
use crate::codec::laws::law_continuations_suffice;
use crate::codec::framed_write::{buffered, lemma_buffer_appends, wire_of, FramedWriteView};
use crate::codec::CodecView;
use crate::frame::control::Reset;
use crate::frame::reason::{reason_of, Reason};
use crate::frame::block::{list_size, load_block, load_field, BlockView, LoadView};
use crate::frame::control::{
    lemma_go_away_round_trip, lemma_ping_round_trip, lemma_reset_round_trip,
    lemma_window_update_round_trip,
};
use crate::frame::data::lemma_data_round_trip;
use crate::frame::head::{frame_bytes, head_of, lemma_head_round_trip, Head};
use crate::frame::headers::{
    block_bytes, chunk_bytes, continuation_bytes, continuation_head, headers_of, no_block,
    push_promise_of, unfinished, HeadersFlag, HeadersView, PushPromiseView,
};
use crate::frame::reload::{
    all_writable, block_arrives, clean_run, is_writable, lemma_block_run, lemma_first_part,
    lemma_next_part, load_all, ready,
    state_of, updates_ok, with_updates,
};
use crate::frame::settings::{lemma_settings_round_trip, settings_payload};
use crate::frame::{FrameView, Kind, StreamId, DEFAULT_MAX_FRAME_SIZE, HEADER_LEN};
use crate::hpack::encoder::{field_bytes, fields_bytes, updates_bytes, SizeUpdate};
use crate::hpack::integer::varint_bytes;
use crate::hpack::{DecoderView, FieldView};
use crate::proto::error::ErrorView;
use crate::wire::{be32, be32_bytes, lemma_be32_round_trip};
use vstd::prelude::*;

verus! {

proof fn lemma_reads(v: FramedReadView, head: Head, body: Seq<u8>, more: Seq<u8>)
    requires
        v.buffer == frame_bytes(head, body) + more,
        body.len() <= v.max_frame_size,
        v.max_frame_size < 0x100_0000,
        head.stream_id.wf(),
        head.kind != Kind::Unknown,
    ensures
        head_of(frame_bytes(head, body)) == head,
        frame_bytes(head, body).skip(HEADER_LEN as int) == body,
        ({
            let end = decode_frame_of(
                v.decoder,
                v.partial,
                v.max_header_list_size,
                v.max_continuations,
                frame_bytes(head, body),
            );
            let after = FramedReadView {
                buffer: more,
                admitted: false,
                decoder: end.decoder,
                partial: end.partial,
                ..v
            };
            next_frame_of(v) == match end.result {
                Ok(None) => next_frame_of(after),
                r => (after, r),
            }
        }),
{
    lemma_head_round_trip(head, body);
    let bytes = frame_bytes(head, body);
    assert(announced(v.buffer) == crate::wire::be24(bytes, 0));
    let len = HEADER_LEN + announced(v.buffer);
    assert(v.buffer.take(len) =~= bytes);
    assert(v.buffer.skip(len) =~= more);
}

/// A frame without a header block that can be sent as it is: its numbers are ones
/// that the wire can carry, and it has no padding.
pub open spec fn is_plain(f: FrameView) -> bool {
    match f {
        FrameView::Settings(s) => s.wf(),
        FrameView::Ping(_) => true,
        FrameView::WindowUpdate(w) => w.wf(),
        FrameView::Reset(r) => r.stream_id.wf() && r.error_code.wf(),
        FrameView::GoAway(g) => g.last_stream_id.wf() && g.error_code.wf(),
        FrameView::Data(d) => d.stream_id.wf() && d.stream_id.id != 0 && !d.padded && d.pad_len
            is None,
        _ => false,
    }
}

/// The head of a frame without a header block.
pub open spec fn plain_head(f: FrameView) -> Head {
    match f {
        FrameView::Settings(s) => s.spec_head(),
        FrameView::Ping(p) => p.spec_head(),
        FrameView::WindowUpdate(w) => w.spec_head(),
        FrameView::Reset(r) => r.spec_head(),
        FrameView::Data(d) => d.head(),
        _ => Head { kind: Kind::GoAway, flag: 0, stream_id: StreamId { id: 0 } },
    }
}

/// The payload of a frame without a header block.
pub open spec fn plain_body(f: FrameView) -> Seq<u8> {
    match f {
        FrameView::Settings(s) => settings_payload(s),
        FrameView::Ping(p) => p.body(),
        FrameView::WindowUpdate(w) => w.body(),
        FrameView::Reset(r) => r.body(),
        FrameView::GoAway(g) => g.body(),
        FrameView::Data(d) => d.data,
        _ => Seq::empty(),
    }
}

/// What one codec writes, another reads as it was: of the frames without a header
/// block. Whatever bytes come behind the frame stay.
pub proof fn law_plain_frames_arrive(
    v: FramedReadView,
    w: FramedWriteView,
    f: FrameView,
    more: Seq<u8>,
)
    requires
        v.wf(),
        v.partial is None,
        v.buffer == wire_of(w, f) + more,
        is_plain(f),
        plain_body(f).len() <= v.max_frame_size,
    ensures
        next_frame_of(v) == (
            (FramedReadView { buffer: more, admitted: false, ..v }),
            Ok::<Option<FrameView>, ErrorView>(Some(f)),
        ),
{
    let head = plain_head(f);
    let body = plain_body(f);
    assert(wire_of(w, f) == frame_bytes(head, body));
    lemma_reads(v, head, body, more);
    match f {
        FrameView::Settings(s) => {
            lemma_settings_round_trip(s);
        },
        FrameView::Ping(p) => {
            lemma_ping_round_trip(p);
        },
        FrameView::WindowUpdate(u) => {
            lemma_window_update_round_trip(u);
        },
        FrameView::Reset(r) => {
            lemma_reset_round_trip(r);
        },
        FrameView::GoAway(g) => {
            lemma_go_away_round_trip(g);
        },
        FrameView::Data(d) => {
            lemma_data_round_trip(d);
        },
        _ => {},
    }
}

/// What goes into one codec comes out of another that reads its bytes, and nothing
/// else does: of the frames without a header block.
pub proof fn law_codecs_talk(a: CodecView, b: CodecView, f: FrameView)
    requires
        a.write.next is Nothing,
        a.transmit() == Seq::<u8>::empty(),
        buffered(a.write, f) is Ok,
        b.read.wf(),
        b.read.partial is None,
        b.read.buffer == Seq::<u8>::empty(),
        is_plain(f),
        plain_body(f).len() <= b.read.max_frame_size,
    ensures
        ({
            let bytes = CodecView { write: buffered(a.write, f)->Ok_0, ..a }.transmit();
            let (after, r) = next_frame_of(
                FramedReadView { buffer: b.read.buffer + bytes, ..b.read },
            );
            &&& r == Ok::<Option<FrameView>, ErrorView>(Some(f))
            &&& next_frame_of(after) == (after, Ok::<Option<FrameView>, ErrorView>(None))
        }),
{
    lemma_buffer_appends(a.write, f);
    let write = buffered(a.write, f)->Ok_0;
    let bytes = CodecView { write, ..a }.transmit();
    let wire = wire_of(a.write, f);
    let none = Seq::<u8>::empty();
    assert(a.out.len() == 0 && a.write.pending().len() == 0) by {
        assert(a.transmit().len() == 0);
    }
    assert(bytes =~= wire);
    let v = FramedReadView { buffer: none + bytes, admitted: false, ..b.read };
    assert(v.buffer =~= wire + none);
    law_plain_frames_arrive(v, a.write, f, none);
}

/// A reason that is not written as its own kind goes out as the one of its code, and
/// arrives as that.
pub proof fn law_reasons_go_by_code(w: FramedWriteView, id: StreamId, reason: Reason)
    ensures
        ({
            let same = reason_of(reason.spec_code() as int);
            &&& same.wf()
            &&& same.spec_code() == reason.spec_code()
            &&& wire_of(w, FrameView::Reset(Reset { stream_id: id, error_code: reason }))
                == wire_of(w, FrameView::Reset(Reset { stream_id: id, error_code: same }))
        }),
{
}

/// The number of CONTINUATION frames that carry this many bytes.
pub open spec fn frame_count(len: nat, max: int) -> nat
    decreases len,
{
    if max > 0 && len > max {
        1 + frame_count((len - max) as nat, max)
    } else {
        1
    }
}

proof fn lemma_decodes_part(
    d: DecoderView,
    p: PartialView,
    fields: Seq<FieldView>,
    body: Seq<u8>,
    list_max: usize,
    max_continuations: int,
) -> (r: (int, PartialView))
    requires
        d.pending is None,
        p.buf.len() + body.len() <= fields_bytes(fields).len(),
        p.buf + body == fields_bytes(fields).take((p.buf.len() + body.len()) as int),
        all_writable(fields),
        clean_run(state_of(p.frame.block()), fields, list_max),
        !p.frame.block().is_over_size,
        p.count < max_continuations,
    ensures
        ({
            let head = unfinished(continuation_head(p.frame.stream_id()));
            let left = fields.skip(r.0);
            let block = p.frame.block();
            &&& 0 <= r.0 <= fields.len()
            &&& decode_continuation(d, Some(p), list_max, max_continuations, head, body) == (
            DecodeEnd { decoder: d, partial: Some(r.1), result: Ok(None) })
            &&& r.1.frame == p.frame.with_block(r.1.frame.block())
            &&& r.1.count == p.count + 1
            &&& r.1.buf + fields_bytes(fields).skip((p.buf.len() + body.len()) as int)
                == fields_bytes(left)
            &&& all_writable(left)
            &&& clean_run(state_of(r.1.frame.block()), left, list_max)
            &&& load_all(state_of(r.1.frame.block()), left, list_max) == load_all(
                state_of(block),
                fields,
                list_max,
            )
            &&& !r.1.frame.block().is_over_size
        }),
{
    let k = (p.buf.len() + body.len()) as int;
    let block = p.frame.block();
    let n = lemma_next_part(d, block, fields, k, list_max);
    let end = load_block(d, p.buf + body, block, list_max);
    lemma_left(fields, n, k, end.rest.len() as int);
    lemma_stays_in_size(state_of(block), fields, list_max);
    lemma_stays_in_size(state_of(end.state.block), fields.skip(n), list_max);
    (
        n,
        PartialView {
            frame: p.frame.with_block(end.state.block),
            buf: end.rest,
            count: p.count + 1,
        },
    )
}

proof fn lemma_decodes_last(
    d: DecoderView,
    p: PartialView,
    fields: Seq<FieldView>,
    body: Seq<u8>,
    list_max: usize,
    max_continuations: int,
)
    requires
        d.pending is None,
        p.buf + body == fields_bytes(fields),
        all_writable(fields),
        clean_run(state_of(p.frame.block()), fields, list_max),
        !p.frame.block().is_over_size,
    ensures
        ({
            let head = continuation_head(p.frame.stream_id());
            let block = load_all(state_of(p.frame.block()), fields, list_max).block;
            decode_continuation(d, Some(p), list_max, max_continuations, head, body) == (
            DecodeEnd {
                decoder: d,
                partial: None,
                result: Ok(Some(p.frame.with_block(block).finished())),
            })
        }),
{
    let all = fields_bytes(fields);
    let k = all.len() as int;
    assert(all.take(k) =~= all);
    let n = lemma_next_part(d, p.frame.block(), fields, k, list_max);
    assert(fields.skip(n).len() == 0);
}

#[verifier::opaque]
spec fn outcome(v: FramedReadView) -> (FramedReadView, Result<Option<FrameView>, ErrorView>) {
    next_frame_of(v)
}

proof fn lemma_reads_continuation(
    v: FramedReadView,
    id: StreamId,
    whole: bool,
    body: Seq<u8>,
    more: Seq<u8>,
    end: DecodeEnd,
)
    requires
        v.max_frame_size < 0x100_0000,
        v.partial is Some,
        id.wf(),
        body.len() <= v.max_frame_size,
        ({
            let head = if whole {
                continuation_head(id)
            } else {
                unfinished(continuation_head(id))
            };
            &&& v.buffer == frame_bytes(head, body) + more
            &&& end == decode_continuation(
                v.decoder,
                v.partial,
                v.max_header_list_size,
                v.max_continuations,
                head,
                body,
            )
        }),
    ensures
        ({
            let after = FramedReadView {
                buffer: more,
                admitted: false,
                decoder: end.decoder,
                partial: end.partial,
                ..v
            };
            outcome(v) == match end.result {
                Ok(None) => outcome(after),
                r => (after, r),
            }
        }),
{
    reveal(outcome);
    let head = if whole {
        continuation_head(id)
    } else {
        unfinished(continuation_head(id))
    };
    lemma_reads(v, head, body, more);
}

proof fn lemma_more(
    v: FramedReadView,
    p: PartialView,
    fields: Seq<FieldView>,
    body: Seq<u8>,
    more: Seq<u8>,
) -> (r: (int, PartialView))
    requires
        v.max_frame_size < 0x100_0000,
        v.partial == Some(p),
        v.decoder.pending is None,
        v.buffer == frame_bytes(unfinished(continuation_head(p.frame.stream_id())), body) + more,
        body.len() <= v.max_frame_size,
        p.buf.len() + body.len() <= fields_bytes(fields).len(),
        p.buf + body == fields_bytes(fields).take((p.buf.len() + body.len()) as int),
        all_writable(fields),
        clean_run(state_of(p.frame.block()), fields, v.max_header_list_size),
        !p.frame.block().is_over_size,
        p.frame.stream_id().wf(),
        p.count < v.max_continuations,
    ensures
        ({
            let left = fields.skip(r.0);
            let list_max = v.max_header_list_size;
            &&& outcome(v) == outcome(FramedReadView { buffer: more, admitted: false, partial: Some(r.1), ..v })
            &&& r.1.frame == p.frame.with_block(r.1.frame.block())
            &&& r.1.count == p.count + 1
            &&& r.1.buf + fields_bytes(fields).skip((p.buf.len() + body.len()) as int)
                == fields_bytes(left)
            &&& all_writable(left)
            &&& clean_run(state_of(r.1.frame.block()), left, list_max)
            &&& load_all(state_of(r.1.frame.block()), left, list_max) == load_all(
                state_of(p.frame.block()),
                fields,
                list_max,
            )
            &&& !r.1.frame.block().is_over_size
        }),
{
    let (n, q) = lemma_decodes_part(
        v.decoder,
        p,
        fields,
        body,
        v.max_header_list_size,
        v.max_continuations,
    );
    let end = DecodeEnd { decoder: v.decoder, partial: Some(q), result: Ok(None) };
    lemma_reads_continuation(v, p.frame.stream_id(), false, body, more, end);
    (n, q)
}

proof fn lemma_last(
    v: FramedReadView,
    p: PartialView,
    fields: Seq<FieldView>,
    body: Seq<u8>,
    more: Seq<u8>,
)
    requires
        v.max_frame_size < 0x100_0000,
        v.partial == Some(p),
        v.decoder.pending is None,
        v.buffer == frame_bytes(continuation_head(p.frame.stream_id()), body) + more,
        body.len() <= v.max_frame_size,
        p.buf + body == fields_bytes(fields),
        all_writable(fields),
        clean_run(state_of(p.frame.block()), fields, v.max_header_list_size),
        !p.frame.block().is_over_size,
        p.frame.stream_id().wf(),
    ensures
        ({
            let st = load_all(state_of(p.frame.block()), fields, v.max_header_list_size);
            outcome(v) == (
                (FramedReadView { buffer: more, admitted: false, partial: None, ..v }),
                Ok::<Option<FrameView>, ErrorView>(Some(p.frame.with_block(st.block).finished())),
            )
        }),
{
    lemma_decodes_last(
        v.decoder,
        p,
        fields,
        body,
        v.max_header_list_size,
        v.max_continuations,
    );
    let st = load_all(state_of(p.frame.block()), fields, v.max_header_list_size);
    let end = DecodeEnd {
        decoder: v.decoder,
        partial: None,
        result: Ok(Some(p.frame.with_block(st.block).finished())),
    };
    lemma_reads_continuation(v, p.frame.stream_id(), true, body, more, end);
}

proof fn lemma_continuations(
    v: FramedReadView,
    p: PartialView,
    fields: Seq<FieldView>,
    queue: Seq<u8>,
    max: int,
    more: Seq<u8>,
)
    requires
        v.max_frame_size < 0x100_0000,
        v.partial == Some(p),
        v.decoder.pending is None,
        v.buffer == continuation_bytes(p.frame.stream_id(), queue, max) + more,
        p.buf + queue == fields_bytes(fields),
        all_writable(fields),
        clean_run(state_of(p.frame.block()), fields, v.max_header_list_size),
        !p.frame.block().is_over_size,
        p.frame.stream_id().wf(),
        0 < max <= v.max_frame_size,
        p.count + frame_count(queue.len(), max) - 1 <= v.max_continuations,
    ensures
        ({
            let st = load_all(state_of(p.frame.block()), fields, v.max_header_list_size);
            outcome(v) == (
                (FramedReadView { buffer: more, admitted: false, partial: None, ..v }),
                Ok::<Option<FrameView>, ErrorView>(Some(p.frame.with_block(st.block).finished())),
            )
        }),
    decreases queue.len(),
{
    let id = p.frame.stream_id();
    let head = continuation_head(id);
    if queue.len() > max {
        let body = queue.take(max);
        let later = continuation_bytes(id, queue.skip(max), max);
        assert(Seq::<u8>::empty() + body =~= body);
        assert(v.buffer =~= frame_bytes(unfinished(head), body) + (later + more));
        let k = (p.buf.len() + max) as int;
        assert(p.buf + body =~= fields_bytes(fields).take(k));
        assert(fields_bytes(fields).skip(k) =~= queue.skip(max));
        assert(frame_count((queue.len() - max) as nat, max) >= 1);
        let (n, q) = lemma_more(v, p, fields, body, later + more);
        let next = FramedReadView {
            buffer: later + more,
            admitted: false,
            partial: Some(q),
            ..v
        };
        lemma_continuations(next, q, fields.skip(n), queue.skip(max), max, more);
    } else {
        assert(Seq::<u8>::empty() + queue =~= queue);
        lemma_last(v, p, fields, queue, more);
    }
}

proof fn lemma_stays_in_size(st: LoadView, fields: Seq<FieldView>, max: usize)
    requires
        clean_run(st, fields, max),
    ensures
        load_all(st, fields, max).block.is_over_size == st.block.is_over_size,
    decreases fields.len(),
{
    if fields.len() > 0 {
        lemma_stays_in_size(load_field(st, fields[0], max), fields.skip(1), max);
    }
}

proof fn lemma_left(fields: Seq<FieldView>, n: int, k: int, r: int)
    requires
        0 <= n <= fields.len(),
        0 <= k <= fields_bytes(fields).len(),
        0 <= r <= fields_bytes(fields.skip(n)).len(),
        k - r == fields_bytes(fields).len() - fields_bytes(fields.skip(n)).len(),
    ensures
        fields_bytes(fields.skip(n)) == fields_bytes(fields.skip(n)).take(r) + fields_bytes(
            fields,
        ).skip(k),
{
    lemma_fields_split(fields, n);
    let left = fields_bytes(fields.skip(n));
    let all = fields_bytes(fields);
    assert(left.skip(r) =~= all.skip(k));
    assert(left =~= left.take(r) + left.skip(r));
}

proof fn lemma_fields_split(fields: Seq<FieldView>, n: int)
    requires
        0 <= n <= fields.len(),
    ensures
        fields_bytes(fields) == fields_bytes(fields.take(n)) + fields_bytes(fields.skip(n)),
    decreases n,
{
    if n == 0 {
        assert(fields.skip(0) =~= fields);
        assert(fields_bytes(fields.take(0)) =~= Seq::<u8>::empty());
        assert(Seq::<u8>::empty() + fields_bytes(fields) =~= fields_bytes(fields));
    } else {
        let tail = fields.skip(1);
        lemma_fields_split(tail, n - 1);
        assert(fields.take(n).skip(1) =~= tail.take(n - 1));
        assert(fields.take(n)[0] == fields[0]);
        assert(tail.skip(n - 1) =~= fields.skip(n));
        let one = field_bytes(fields[0]);
        assert(one + (fields_bytes(tail.take(n - 1)) + fields_bytes(fields.skip(n))) =~= (one
            + fields_bytes(tail.take(n - 1))) + fields_bytes(fields.skip(n)));
    }
}

proof fn lemma_updates_are_short(d: DecoderView, update: Option<SizeUpdate>)
    requires
        updates_ok(d, update),
    ensures
        updates_bytes(update).len() <= 12,
{
    reveal_with_fuel(varint_bytes, 6);
}

#[verifier::opaque]
spec fn block_end(
    d: DecoderView,
    c: ContinuableView,
    src: Seq<u8>,
    whole: bool,
    list_max: usize,
) -> DecodeEnd {
    decode_block(d, c, src, whole, list_max)
}

proof fn lemma_decodes_start(
    d: DecoderView,
    c: ContinuableView,
    update: Option<SizeUpdate>,
    b: BlockView,
    k: int,
    list_max: usize,
) -> (r: (int, PartialView))
    requires
        c.block() == no_block(),
        block_arrives(b, list_max),
        updates_ok(ready(d), update),
        0 <= k <= fields_bytes(b.all()).len(),
    ensures
        ({
            let src = updates_bytes(update) + fields_bytes(b.all()).take(k);
            let left = b.all().skip(r.0);
            &&& block_end(d, c, src, false, list_max) == (DecodeEnd {
                decoder: with_updates(ready(d), update),
                partial: Some(r.1),
                result: Ok(None),
            })
            &&& r.1.frame == c.with_block(r.1.frame.block())
            &&& r.1.count == 0
            &&& r.1.buf + fields_bytes(b.all()).skip(k) == fields_bytes(left)
            &&& all_writable(left)
            &&& clean_run(state_of(r.1.frame.block()), left, list_max)
            &&& load_all(state_of(r.1.frame.block()), left, list_max) == state_of(b)
            &&& !r.1.frame.block().is_over_size
        }),
{
    reveal(block_end);
    let n = lemma_first_part(d, update, b, k, list_max);
    let src = updates_bytes(update) + fields_bytes(b.all()).take(k);
    let end = load_block(d, src, no_block(), list_max);
    lemma_left(b.all(), n, k, end.rest.len() as int);
    lemma_stays_in_size(state_of(end.state.block), b.all().skip(n), list_max);
    (n, PartialView { frame: c.with_block(end.state.block), buf: end.rest, count: 0 })
}

proof fn lemma_decodes_whole(
    d: DecoderView,
    c: ContinuableView,
    update: Option<SizeUpdate>,
    b: BlockView,
    list_max: usize,
)
    requires
        c.block() == no_block(),
        block_arrives(b, list_max),
        updates_ok(ready(d), update),
    ensures
        block_end(d, c, updates_bytes(update) + fields_bytes(b.all()), true, list_max) == (
        DecodeEnd {
            decoder: with_updates(ready(d), update),
            partial: None,
            result: Ok(Some(c.with_block(b).finished())),
        }),
{
    reveal(block_end);
    let all = fields_bytes(b.all());
    let k = all.len() as int;
    assert(all.take(k) =~= all);
    let n = lemma_first_part(d, update, b, k, list_max);
    assert(b.all().skip(n).len() == 0);
}

/// The bytes of a frame with a header block, CONTINUATION frames included.
spec fn block_wire(id: StreamId, head: Head, prefix: Seq<u8>, block: Seq<u8>, max: int) -> Seq<u8> {
    chunk_bytes(head, prefix, block, max) + if block.len() > max - prefix.len() {
        continuation_bytes(id, block.skip(max - prefix.len()), max)
    } else {
        Seq::empty()
    }
}

/// What a reader makes of a first frame with this much of a header block.
#[verifier::opaque]
spec fn starts(v: FramedReadView, bytes: Seq<u8>, c: ContinuableView, src: Seq<u8>, whole: bool)
    -> bool {
    decode_frame_of(
        v.decoder,
        v.partial,
        v.max_header_list_size,
        v.max_continuations,
        bytes,
    ) == decode_block(v.decoder, c, src, whole, v.max_header_list_size)
}

proof fn lemma_reads_start(
    v: FramedReadView,
    c: ContinuableView,
    head: Head,
    body: Seq<u8>,
    src: Seq<u8>,
    whole: bool,
    more: Seq<u8>,
    end: DecodeEnd,
)
    requires
        v.max_frame_size < 0x100_0000,
        v.buffer == frame_bytes(head, body) + more,
        body.len() <= v.max_frame_size,
        head.stream_id.wf(),
        head.kind != Kind::Unknown,
        starts(v, frame_bytes(head, body), c, src, whole),
        end == block_end(v.decoder, c, src, whole, v.max_header_list_size),
    ensures
        ({
            let after = FramedReadView {
                buffer: more,
                admitted: false,
                decoder: end.decoder,
                partial: end.partial,
                ..v
            };
            outcome(v) == match end.result {
                Ok(None) => outcome(after),
                r => (after, r),
            }
        }),
{
    reveal(outcome);
    reveal(block_end);
    reveal(starts);
    lemma_reads(v, head, body, more);
}

proof fn lemma_block_arrives(
    v: FramedReadView,
    c: ContinuableView,
    head: Head,
    prefix: Seq<u8>,
    update: Option<SizeUpdate>,
    b: BlockView,
    max: int,
    more: Seq<u8>,
)
    requires
        v.max_frame_size < 0x100_0000,
        ({
            let block = updates_bytes(update) + fields_bytes(b.all());
            let room = max - prefix.len();
            &&& v.buffer == block_wire(c.stream_id(), head, prefix, block, max) + more
            &&& updates_bytes(update).len() <= room
            &&& block.len() > room ==> {
                &&& starts(
                    v,
                    frame_bytes(unfinished(head), prefix + block.take(room)),
                    c,
                    block.take(room),
                    false,
                )
                &&& frame_count((block.len() - room) as nat, max) <= v.max_continuations + 1
            }
            &&& block.len() <= room ==> starts(
                v,
                frame_bytes(head, prefix + block),
                c,
                block,
                true,
            )
        }),
        c.block() == no_block(),
        c.stream_id().wf(),
        head.stream_id.wf(),
        head.kind != Kind::Unknown,
        block_arrives(b, v.max_header_list_size),
        updates_ok(ready(v.decoder), update),
        0 < max <= v.max_frame_size,
        v.partial is None,
    ensures
        outcome(v) == (
            (FramedReadView {
                buffer: more,
                admitted: false,
                decoder: with_updates(ready(v.decoder), update),
                ..v
            }),
            Ok::<Option<FrameView>, ErrorView>(Some(c.with_block(b).finished())),
        ),
{
    let first = updates_bytes(update);
    let all = fields_bytes(b.all());
    let block = first + all;
    let room = max - prefix.len();
    let d = with_updates(ready(v.decoder), update);
    if block.len() > room {
        let queue = block.skip(room);
        let k = room - first.len();
        let src = block.take(room);
        assert(src =~= first + all.take(k));
        assert(all.skip(k) =~= queue);
        let later = continuation_bytes(c.stream_id(), queue, max) + more;
        assert(v.buffer =~= frame_bytes(unfinished(head), prefix + src) + later);
        let (n, p) = lemma_decodes_start(
            v.decoder,
            c,
            update,
            b,
            k,
            v.max_header_list_size,
        );
        let end = DecodeEnd { decoder: d, partial: Some(p), result: Ok(None) };
        lemma_reads_start(v, c, unfinished(head), prefix + src, src, false, later, end);
        let next = FramedReadView {
            buffer: later,
            admitted: false,
            decoder: d,
            partial: Some(p),
            ..v
        };
        lemma_continuations(next, p, b.all().skip(n), queue, max, more);
    } else {
        assert(v.buffer =~= frame_bytes(head, prefix + block) + more);
        lemma_decodes_whole(v.decoder, c, update, b, v.max_header_list_size);
        let end = DecodeEnd {
            decoder: d,
            partial: None,
            result: Ok(Some(c.with_block(b).finished())),
        };
        lemma_reads_start(v, c, head, prefix + block, block, true, more, end);
    }
}

/// Of what a header block takes on the wire, `room` bytes go in the first frame,
/// and the reader allows for as many CONTINUATION frames as the rest takes.
pub open spec fn enough_continuations(
    v: FramedReadView,
    w: FramedWriteView,
    b: BlockView,
    room: int,
) -> bool {
    let len = block_bytes(w.encoder, b).len();
    len > room ==> frame_count((len - room) as nat, w.max_frame_size as int)
        <= v.max_continuations + 1
}

/// A reader awaits no rest of a frame or of a header block, takes frames as large as a
/// writer sends them, and the table sizes that it is told.
pub open spec fn in_step(v: FramedReadView, w: FramedWriteView) -> bool {
    &&& v.partial is None
    &&& !v.admitted
    &&& DEFAULT_MAX_FRAME_SIZE <= w.max_frame_size <= v.max_frame_size
    &&& updates_ok(ready(v.decoder), w.encoder.size_update)
}

/// What one codec writes, another reads as it was: of a HEADERS frame, whether it
/// takes one frame or many. Its header list is one that arrives.
pub proof fn law_headers_arrive(
    v: FramedReadView,
    w: FramedWriteView,
    h: HeadersView,
    more: Seq<u8>,
)
    requires
        v.wf(),
        in_step(v, w),
        v.buffer == wire_of(w, FrameView::Headers(h)) + more,
        h.stream_id.wf(),
        h.stream_id.id != 0,
        h.stream_dep is None,
        h.flags.end_headers,
        !h.flags.padded,
        !h.flags.priority,
        block_arrives(h.block, v.max_header_list_size),
        enough_continuations(v, w, h.block, w.max_frame_size as int),
    ensures
        next_frame_of(v) == (
            (FramedReadView {
                buffer: more,
                admitted: false,
                decoder: with_updates(ready(v.decoder), w.encoder.size_update),
                ..v
            }),
            Ok::<Option<FrameView>, ErrorView>(Some(FrameView::Headers(h))),
        ),
{
    let update = w.encoder.size_update;
    let block = block_bytes(w.encoder, h.block);
    let room = w.max_frame_size as int;
    let none = Seq::<u8>::empty();
    let whole = block.len() <= room;
    let c = ContinuableView::Headers(
        HeadersView {
            block: no_block(),
            flags: HeadersFlag { end_headers: whole, ..h.flags },
            ..h
        },
    );
    lemma_updates_are_short(ready(v.decoder), update);
    if whole {
        assert(none + block =~= block);
        lemma_headers_start(v, h, h.head(), block, c);
    } else {
        assert(none + block.take(room) =~= block.take(room));
        lemma_headers_start(v, h, unfinished(h.head()), block.take(room), c);
    }
    lemma_block_arrives(v, c, h.head(), none, update, h.block, room, more);
    reveal(outcome);
}

proof fn lemma_headers_of(h: HeadersView, whole: bool, src: Seq<u8>)
    requires
        h.stream_id.id != 0,
        h.stream_dep is None,
        h.flags.end_headers,
        !h.flags.padded,
        !h.flags.priority,
    ensures
        ({
            let head = if whole {
                h.head()
            } else {
                unfinished(h.head())
            };
            headers_of(head, src) == Ok::<(HeadersView, Seq<u8>), crate::frame::Error>(
                (
                    HeadersView {
                        block: no_block(),
                        flags: HeadersFlag { end_headers: whole, ..h.flags },
                        ..h
                    },
                    src,
                ),
            )
        }),
{
    assert(src.take(src.len() as int) =~= src);
}

proof fn lemma_headers_start(
    v: FramedReadView,
    h: HeadersView,
    head: Head,
    src: Seq<u8>,
    c: ContinuableView,
)
    requires
        v.partial is None,
        h.stream_id.wf(),
        h.stream_id.id != 0,
        h.stream_dep is None,
        h.flags.end_headers,
        !h.flags.padded,
        !h.flags.priority,
        src.len() < 0x100_0000,
        ({
            let whole = head == h.head();
            &&& whole || head == unfinished(h.head())
            &&& c == ContinuableView::Headers(
                HeadersView {
                    block: no_block(),
                    flags: HeadersFlag { end_headers: whole, ..h.flags },
                    ..h
                },
            )
        }),
    ensures
        starts(v, frame_bytes(head, src), c, src, head == h.head()),
{
    lemma_headers_of(h, head == h.head(), src);
    lemma_head_round_trip(head, src);
    lemma_starts_headers(v, frame_bytes(head, src), c, src, head == h.head());
}

proof fn lemma_starts_headers(
    v: FramedReadView,
    bytes: Seq<u8>,
    c: ContinuableView,
    src: Seq<u8>,
    whole: bool,
)
    requires
        v.partial is None,
        head_of(bytes).kind == Kind::Headers,
        c matches ContinuableView::Headers(f) && f.flags.end_headers == whole && headers_of(
            head_of(bytes),
            bytes.skip(HEADER_LEN as int),
        ) == Ok::<(HeadersView, Seq<u8>), crate::frame::Error>((f, src)),
    ensures
        starts(v, bytes, c, src, whole),
{
    reveal(starts);
}

/// What one codec writes, another reads as it was: of a PUSH_PROMISE frame with
/// something in its block, whether it takes one frame or many.
pub proof fn law_push_promise_arrives(
    v: FramedReadView,
    w: FramedWriteView,
    p: PushPromiseView,
    more: Seq<u8>,
)
    requires
        v.wf(),
        in_step(v, w),
        v.buffer == wire_of(w, FrameView::PushPromise(p)) + more,
        p.stream_id.wf(),
        p.stream_id.id != 0,
        p.promised_id.wf(),
        p.flags == (HeadersFlag {
            end_stream: false,
            end_headers: true,
            padded: false,
            priority: false,
        }),
        block_bytes(w.encoder, p.block).len() > 0,
        block_arrives(p.block, v.max_header_list_size),
        enough_continuations(v, w, p.block, w.max_frame_size - 4),
    ensures
        next_frame_of(v) == (
            (FramedReadView {
                buffer: more,
                admitted: false,
                decoder: with_updates(ready(v.decoder), w.encoder.size_update),
                ..v
            }),
            Ok::<Option<FrameView>, ErrorView>(Some(FrameView::PushPromise(p))),
        ),
{
    let update = w.encoder.size_update;
    let block = block_bytes(w.encoder, p.block);
    let prefix = be32_bytes(p.promised_id.id as int);
    let max = w.max_frame_size as int;
    let room = max - 4;
    let whole = block.len() <= room;
    let c = ContinuableView::PushPromise(
        PushPromiseView {
            block: no_block(),
            flags: HeadersFlag { end_headers: whole, ..p.flags },
            ..p
        },
    );
    lemma_updates_are_short(ready(v.decoder), update);
    lemma_be32_round_trip(p.promised_id.id as int);
    if whole {
        lemma_push_promise_start(v, p, p.head(), block, c);
    } else {
        lemma_push_promise_start(v, p, unfinished(p.head()), block.take(room), c);
    }
    lemma_block_arrives(v, c, p.head(), prefix, update, p.block, max, more);
    reveal(outcome);
}

proof fn lemma_push_promise_start(
    v: FramedReadView,
    p: PushPromiseView,
    head: Head,
    src: Seq<u8>,
    c: ContinuableView,
)
    requires
        v.partial is None,
        p.stream_id.wf(),
        p.stream_id.id != 0,
        p.promised_id.wf(),
        p.flags == (HeadersFlag {
            end_stream: false,
            end_headers: true,
            padded: false,
            priority: false,
        }),
        0 < src.len() < 0x100_0000 - 4,
        ({
            let whole = head == p.head();
            &&& whole || head == unfinished(p.head())
            &&& c == ContinuableView::PushPromise(
                PushPromiseView {
                    block: no_block(),
                    flags: HeadersFlag { end_headers: whole, ..p.flags },
                    ..p
                },
            )
        }),
    ensures
        starts(
            v,
            frame_bytes(head, be32_bytes(p.promised_id.id as int) + src),
            c,
            src,
            head == p.head(),
        ),
{
    let prefix = be32_bytes(p.promised_id.id as int);
    let body = prefix + src;
    lemma_be32_round_trip(p.promised_id.id as int);
    lemma_head_round_trip(head, body);
    assert(be32(body, 0) == be32(prefix, 0));
    assert(body.skip(4) =~= src);
    assert(src.take(src.len() as int) =~= src);
    let f = PushPromiseView {
        block: no_block(),
        flags: HeadersFlag { end_headers: head == p.head(), ..p.flags },
        ..p
    };
    assert(push_promise_of(head, body) == Ok::<
        (PushPromiseView, Seq<u8>),
        crate::frame::Error,
    >((f, src)));
    lemma_starts_push_promise(v, frame_bytes(head, body), c, src, head == p.head());
}

proof fn lemma_starts_push_promise(
    v: FramedReadView,
    bytes: Seq<u8>,
    c: ContinuableView,
    src: Seq<u8>,
    whole: bool,
)
    requires
        v.partial is None,
        head_of(bytes).kind == Kind::PushPromise,
        c matches ContinuableView::PushPromise(f) && f.flags.end_headers == whole
            && push_promise_of(head_of(bytes), bytes.skip(HEADER_LEN as int)) == Ok::<
            (PushPromiseView, Seq<u8>),
            crate::frame::Error,
        >((f, src)),
    ensures
        starts(v, bytes, c, src, whole),
{
    reveal(starts);
}

proof fn lemma_field_is_short(f: FieldView)
    requires
        is_writable(f),
    ensures
        field_bytes(f).len() <= f.size(),
{
    reveal_with_fuel(varint_bytes, 6);
}

proof fn lemma_fields_are_short(fields: Seq<FieldView>)
    requires
        all_writable(fields),
    ensures
        fields_bytes(fields).len() <= list_size(fields),
    decreases fields.len(),
{
    if fields.len() > 0 {
        let n = fields.len() - 1;
        lemma_fields_split(fields, n);
        assert(fields.take(n) =~= fields.drop_last());
        let last = fields.skip(n);
        assert(last.skip(1).len() == 0);
        assert(last[0] == fields.last());
        assert(fields_bytes(last.skip(1)).len() == 0);
        assert(is_writable(fields.last()));
        assert forall|i: int| 0 <= i < n implies is_writable(#[trigger] fields.drop_last()[i]) by {
            assert(is_writable(fields[i]));
        }
        lemma_field_is_short(fields.last());
        lemma_fields_are_short(fields.drop_last());
    }
}

proof fn lemma_frame_count(len: nat, max: int)
    requires
        max > 0,
    ensures
        frame_count(len, max) * max <= len + max,
    decreases len,
{
    if len > max {
        lemma_frame_count((len - max) as nat, max);
        let n = frame_count((len - max) as nat, max);
        assert((1 + n) * max == max + n * max) by (nonlinear_arith);
        assert(frame_count(len, max) == 1 + n);
    } else {
        assert(frame_count(len, max) == 1);
    }
}

/// A reader allows for the CONTINUATION frames of every header block that
/// arrives, if the writer fills its frames up to the size that the reader takes.
pub proof fn law_enough_continuations(
    v: FramedReadView,
    w: FramedWriteView,
    b: BlockView,
    room: int,
)
    requires
        v.wf(),
        in_step(v, w),
        w.max_frame_size == v.max_frame_size,
        block_arrives(b, v.max_header_list_size),
        w.max_frame_size - 4 <= room <= w.max_frame_size,
    ensures
        enough_continuations(v, w, b, room),
{
    let list_max = v.max_header_list_size as int;
    let max = w.max_frame_size as int;
    let len = block_bytes(w.encoder, b).len();
    lemma_block_run(b, v.max_header_list_size);
    lemma_fields_are_short(b.all());
    lemma_updates_are_short(ready(v.decoder), w.encoder.size_update);
    if len > room {
        let n = frame_count((len - room) as nat, max);
        lemma_frame_count((len - room) as nat, max);
        law_continuations_suffice(v.max_header_list_size, v.max_frame_size);
        let m = v.max_continuations;
        assert(n <= m + 1) by (nonlinear_arith)
            requires
                n * max <= list_max + 15,
                m >= list_max / max,
                max >= 16_384,
                list_max >= 0,
        ;
    }
}

} // verus!
