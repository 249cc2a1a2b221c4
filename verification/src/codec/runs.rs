//! What holds of runs: of chunks, of frames, and of the parts of a header block.

use crate::codec::framed_read::{
    decode_continuation, decode_frame_of, lemma_next_frame_shrinks, max_continuations,
    next_frame_of, FramedReadView, PartialView,
};
use crate::codec::framed_write::{wire_of, FramedWriteView};
use crate::codec::laws::{law_chunks, with_more};
use crate::frame::head::{frame_bytes, head_of, Head};
use crate::frame::headers::{
    block_bytes, chunk_bytes, continuation_bytes, continuation_head, unfinished, HeadersView,
    PushPromiseView,
};
use crate::frame::{FrameView, Kind, Reason, StreamId};
use crate::hpack::DecoderView;
use crate::names::TOO_MANY_CONTINUATIONS;
use crate::proto::error::{go_away_data_error, ErrorView};
use crate::wire::be32_bytes;
use vstd::prelude::*;

verus! {

/// What a run of reads gives: the frames in their order, and the error that it ended
/// with, if it did.
#[verifier::ext_equal]
pub struct RunView {
    pub frames: Seq<FrameView>,
    pub error: Option<ErrorView>,
}

/// Reading frames until more bytes are needed or an error comes.
pub open spec fn read_run(v: FramedReadView) -> RunView
    decreases v.buffer.len(),
{
    let (after, r) = next_frame_of(v);
    proof {
        lemma_next_frame_shrinks(v);
    }
    match r {
        Ok(None) => RunView { frames: Seq::empty(), error: None },
        Err(e) => RunView { frames: Seq::empty(), error: Some(e) },
        Ok(Some(f)) => {
            let rest = read_run(after);
            RunView { frames: seq![f] + rest.frames, error: rest.error }
        },
    }
}

/// Reading at most `n` frames: the read side after it, and what it gives.
pub open spec fn read_some(v: FramedReadView, n: nat) -> (FramedReadView, RunView)
    decreases n,
{
    if n == 0 {
        (v, RunView { frames: Seq::empty(), error: None })
    } else {
        let (after, r) = next_frame_of(v);
        match r {
            Ok(None) => (after, RunView { frames: Seq::empty(), error: None }),
            Err(e) => (after, RunView { frames: Seq::empty(), error: Some(e) }),
            Ok(Some(f)) => {
                let (end, rest) = read_some(after, (n - 1) as nat);
                (end, RunView { frames: seq![f] + rest.frames, error: rest.error })
            },
        }
    }
}

/// A part of the peer's bytes, and how often the next frame is asked for once it is
/// there.
pub struct Chunk {
    pub bytes: Seq<u8>,
    pub reads: nat,
}

/// The bytes of a run of chunks.
pub open spec fn all_bytes(chunks: Seq<Chunk>) -> Seq<u8>
    decreases chunks.len(),
{
    if chunks.len() == 0 {
        Seq::empty()
    } else {
        chunks[0].bytes + all_bytes(chunks.skip(1))
    }
}

/// What is read of a run of chunks: as many frames in between as are asked for, and
/// all that are there in the end.
pub open spec fn read_chunks(v: FramedReadView, chunks: Seq<Chunk>) -> RunView
    decreases chunks.len(),
{
    if chunks.len() == 0 {
        read_run(v)
    } else {
        let (after, first) = read_some(with_more(v, chunks[0].bytes), chunks[0].reads);
        if first.error is Some {
            first
        } else {
            let rest = read_chunks(after, chunks.skip(1));
            RunView { frames: first.frames + rest.frames, error: rest.error }
        }
    }
}

proof fn lemma_read_some(v: FramedReadView, n: nat, more: Seq<u8>)
    ensures
        ({
            let (after, first) = read_some(v, n);
            let rest = read_run(with_more(after, more));
            read_run(with_more(v, more)) == if first.error is Some {
                first
            } else {
                RunView { frames: first.frames + rest.frames, error: rest.error }
            }
        }),
    decreases n,
{
    let whole = read_run(with_more(v, more));
    if n == 0 {
        assert(Seq::<FrameView>::empty() + whole.frames =~= whole.frames);
    } else {
        law_chunks(v, more);
        let (after, r) = next_frame_of(v);
        match r {
            Ok(None) => {
                assert(whole == read_run(with_more(after, more)));
                assert(Seq::<FrameView>::empty() + whole.frames =~= whole.frames);
            },
            Err(_) => {},
            Ok(Some(f)) => {
                lemma_read_some(after, (n - 1) as nat, more);
                let (end, rest) = read_some(after, (n - 1) as nat);
                let last = read_run(with_more(end, more));
                assert(seq![f] + (rest.frames + last.frames) =~= (seq![f] + rest.frames)
                    + last.frames);
            },
        }
    }
}

/// How bytes are cut up is not observable: whatever the chunks are, and however often
/// the next frame is asked for in between, the same frames come out in the same order,
/// and the same error in the end, as of all bytes at once.
pub proof fn law_chunking_is_not_observable(v: FramedReadView, chunks: Seq<Chunk>)
    ensures
        read_chunks(v, chunks) == read_run(with_more(v, all_bytes(chunks))),
    decreases chunks.len(),
{
    if chunks.len() == 0 {
        assert(v.buffer + Seq::<u8>::empty() =~= v.buffer);
    } else {
        let first = chunks[0].bytes;
        let rest = all_bytes(chunks.skip(1));
        let start = with_more(v, first);
        let after = read_some(start, chunks[0].reads).0;
        lemma_read_some(start, chunks[0].reads, rest);
        law_chunking_is_not_observable(after, chunks.skip(1));
        assert(v.buffer + (first + rest) =~= v.buffer + first + rest);
    }
}

proof fn lemma_div_order(a: int, b: int, m: int)
    requires
        0 <= a <= b,
        m > 0,
    ensures
        a / m <= b / m,
        0 <= a / m,
{
    assert(a / m <= b / m && 0 <= a / m) by (nonlinear_arith)
        requires
            0 <= a <= b,
            m > 0,
    ;
}

proof fn lemma_div_shrinks(a: int, m: int, n: int)
    requires
        0 <= a,
        0 < m <= n,
    ensures
        a / n <= a / m,
{
    assert(a / n <= a / m) by (nonlinear_arith)
        requires
            0 <= a,
            0 < m <= n,
    ;
}

/// The limit on CONTINUATION frames does not fall as larger header lists are kept, and
/// does not rise as larger payloads are accepted.
pub proof fn law_continuations_are_monotone(
    header_max: usize,
    more_headers: usize,
    frame_max: usize,
    larger_frames: usize,
)
    requires
        0 < frame_max <= larger_frames,
        header_max <= more_headers,
    ensures
        max_continuations(header_max, frame_max) <= max_continuations(more_headers, frame_max),
        max_continuations(header_max, larger_frames) <= max_continuations(header_max, frame_max),
{
    lemma_div_order(header_max as int, more_headers as int, frame_max as int);
    lemma_div_shrinks(header_max as int, frame_max as int, larger_frames as int);
}

/// Whether a frame with this head leaves its header block open.
pub open spec fn leaves_open(head: Head) -> bool {
    head.flag / 4 % 2 == 0
}

/// A frame with a part of a header block.
pub open spec fn bears_headers(head: Head) -> bool {
    head.kind == Kind::Headers || head.kind == Kind::PushPromise || head.kind
        == Kind::Continuation
}

/// What a read side knows of header blocks after a run of whole frames, if none of them
/// was an error.
pub open spec fn decode_run(
    d: DecoderView,
    partial: Option<PartialView>,
    max_list: usize,
    max_continuations: int,
    frames: Seq<Seq<u8>>,
) -> Option<(DecoderView, Option<PartialView>)>
    decreases frames.len(),
{
    if frames.len() == 0 {
        Some((d, partial))
    } else {
        match decode_run(d, partial, max_list, max_continuations, frames.drop_last()) {
            None => None,
            Some((d, partial)) => {
                let end = decode_frame_of(
                    d,
                    partial,
                    max_list,
                    max_continuations,
                    frames.last(),
                );
                match end.result {
                    Err(_) => None,
                    Ok(_) => Some((end.decoder, end.partial)),
                }
            },
        }
    }
}

/// Whether a header block is open after a run of whole frames: the last of them with a
/// part of a header block did not end it.
pub open spec fn is_open_after(frames: Seq<Seq<u8>>) -> bool
    decreases frames.len(),
{
    if frames.len() == 0 {
        false
    } else {
        let head = head_of(frames.last());
        if bears_headers(head) {
            leaves_open(head)
        } else {
            is_open_after(frames.drop_last())
        }
    }
}

/// A header block is open exactly when the last frame with a part of one did not end
/// it: over every run of frames without an error.
pub proof fn law_open_blocks(
    d: DecoderView,
    max_list: usize,
    max_continuations: int,
    frames: Seq<Seq<u8>>,
)
    ensures
        decode_run(d, None, max_list, max_continuations, frames) matches Some((_, partial)) ==> (
        partial is Some <==> is_open_after(frames)),
    decreases frames.len(),
{
    if frames.len() > 0 {
        law_open_blocks(d, max_list, max_continuations, frames.drop_last());
    }
}

/// A frame comes out only where no header block is left open, and an unknown frame
/// changes nothing.
pub proof fn law_frames_come_whole(
    d: DecoderView,
    partial: Option<PartialView>,
    max_list: usize,
    max_continuations: int,
    bytes: Seq<u8>,
)
    ensures
        ({
            let end = decode_frame_of(d, partial, max_list, max_continuations, bytes);
            &&& end.result matches Ok(Some(_)) ==> end.partial is None
            &&& head_of(bytes).kind == Kind::Unknown && partial is None ==> end.result == Ok::<
                Option<FrameView>,
                ErrorView,
            >(None) && end.decoder == d && end.partial == partial
        }),
{
}

/// The count of CONTINUATION frames decides by itself: of those that do not end their
/// block, one that comes behind fewer than the limit is counted if its bytes are in
/// order, and one that comes behind as many is refused and ends the block. One that
/// ends its block is never refused for the count.
pub proof fn law_continuations_are_counted(
    d: DecoderView,
    p: PartialView,
    max_list: usize,
    limit: int,
    head: Head,
    body: Seq<u8>,
)
    requires
        p.frame.stream_id() == head.stream_id,
    ensures
        ({
            let end = decode_continuation(d, Some(p), max_list, limit, head, body);
            let flood = go_away_data_error(Reason::ENHANCE_YOUR_CALM, TOO_MANY_CONTINUATIONS@);
            let free = decode_continuation(d, Some(p), max_list, p.count + 1, head, body);
            &&& leaves_open(head) && p.count >= limit ==> end.result == Err::<
                Option<FrameView>,
                ErrorView,
            >(flood) && end.partial is None
            &&& !leaves_open(head) || p.count < limit ==> end == free
            &&& leaves_open(head) && p.count < limit && end.result is Ok ==> end.result == Ok::<
                Option<FrameView>,
                ErrorView,
            >(None) && (end.partial matches Some(q) && q.count == p.count + 1 && q.frame.stream_id()
                == p.frame.stream_id())
        }),
{
}

/// Of the CONTINUATION frames of a block that do not end it, as many are taken as the
/// limit allows, and the next one is refused: a run of them without an error counts up
/// by its length, and so is never longer than the limit.
pub proof fn law_limit_is_reached(
    d: DecoderView,
    p: PartialView,
    max_list: usize,
    limit: int,
    frames: Seq<Seq<u8>>,
)
    requires
        forall|i: int|
            0 <= i < frames.len() ==> {
                let head = head_of(#[trigger] frames[i]);
                &&& head.kind == Kind::Continuation
                &&& head.stream_id == p.frame.stream_id()
                &&& leaves_open(head)
            },
    ensures
        decode_run(d, Some(p), max_list, limit, frames) matches Some((_, partial)) ==> (partial
            matches Some(q) && q.count == p.count + frames.len() && q.frame.stream_id()
            == p.frame.stream_id()),
        decode_run(d, Some(p), max_list, limit, frames) is Some && frames.len() > 0 ==> p.count
            + frames.len() <= limit,
    decreases frames.len(),
{
    if frames.len() > 0 {
        let init = frames.drop_last();
        assert forall|i: int| 0 <= i < init.len() implies {
            let head = head_of(#[trigger] init[i]);
            &&& head.kind == Kind::Continuation
            &&& head.stream_id == p.frame.stream_id()
            &&& leaves_open(head)
        } by {
            assert(init[i] == frames[i]);
        }
        law_limit_is_reached(d, p, max_list, limit, init);
        let last = frames[frames.len() - 1];
        assert(head_of(last).kind == Kind::Continuation);
    }
}

/// One frame on the wire: its head and its payload.
pub struct Part {
    pub head: Head,
    pub body: Seq<u8>,
}

/// The bytes of a run of frames.
pub open spec fn parts_bytes(parts: Seq<Part>) -> Seq<u8>
    decreases parts.len(),
{
    if parts.len() == 0 {
        Seq::empty()
    } else {
        frame_bytes(parts[0].head, parts[0].body) + parts_bytes(parts.skip(1))
    }
}

/// The CONTINUATION frames that carry `block`.
pub open spec fn continuation_parts(id: StreamId, block: Seq<u8>, max: int) -> Seq<Part>
    decreases block.len(),
{
    let head = continuation_head(id);
    if max > 0 && block.len() > max {
        seq![Part { head: unfinished(head), body: block.take(max) }] + continuation_parts(
            id,
            block.skip(max),
            max,
        )
    } else {
        seq![Part { head, body: block }]
    }
}

/// A run of CONTINUATION frames of one stream with payloads of at most `max` bytes, of
/// which the last and no other ends the block.
pub open spec fn well_cut(parts: Seq<Part>, id: StreamId, max: int) -> bool {
    &&& parts.len() > 0
    &&& forall|i: int|
        0 <= i < parts.len() ==> {
            let part = #[trigger] parts[i];
            &&& part.head.kind == Kind::Continuation
            &&& part.head.stream_id == id
            &&& part.body.len() <= max
            &&& leaves_open(part.head) == (i < parts.len() - 1)
        }
}

proof fn lemma_continuation_parts(id: StreamId, block: Seq<u8>, max: int)
    requires
        max > 0,
    ensures
        continuation_bytes(id, block, max) == parts_bytes(continuation_parts(id, block, max)),
        well_cut(continuation_parts(id, block, max), id, max),
    decreases block.len(),
{
    let head = continuation_head(id);
    let parts = continuation_parts(id, block, max);
    if block.len() > max {
        let rest = continuation_parts(id, block.skip(max), max);
        lemma_continuation_parts(id, block.skip(max), max);
        assert(parts.skip(1) =~= rest);
        assert(Seq::<u8>::empty() + block.take(max) =~= block.take(max));
        assert forall|i: int| 0 <= i < parts.len() implies {
            let part = #[trigger] parts[i];
            &&& part.head.kind == Kind::Continuation
            &&& part.head.stream_id == id
            &&& part.body.len() <= max
            &&& leaves_open(part.head) == (i < parts.len() - 1)
        } by {
            if i > 0 {
                assert(parts[i] == rest[i - 1]);
            }
        }
    } else {
        assert(parts.skip(1) =~= Seq::<Part>::empty());
        assert(parts_bytes(parts.skip(1)) =~= Seq::<u8>::empty());
        assert(Seq::<u8>::empty() + block =~= block);
        assert(frame_bytes(head, block) + Seq::<u8>::empty() =~= frame_bytes(head, block));
    }
}

/// The frames that a frame with a header block comes to on the wire: the frame itself,
/// with `prefix` in front of its part of the block, and CONTINUATION frames.
pub open spec fn block_parts(
    id: StreamId,
    head: Head,
    prefix: Seq<u8>,
    block: Seq<u8>,
    max: int,
) -> Seq<Part> {
    let room = max - prefix.len();
    if block.len() > room {
        seq![Part { head: unfinished(head), body: prefix + block.take(room) }]
            + continuation_parts(id, block.skip(room), max)
    } else {
        seq![Part { head, body: prefix + block }]
    }
}

/// A frame with a header block of any length goes out as that frame and as many
/// CONTINUATION frames of its stream as it takes, with nothing in between. None has a
/// larger payload than the peer accepts, and the last and no other ends the block.
pub proof fn law_blocks_on_the_wire(
    id: StreamId,
    head: Head,
    prefix: Seq<u8>,
    block: Seq<u8>,
    max: int,
)
    requires
        max > 0,
        prefix.len() <= max,
        head.stream_id == id,
        !leaves_open(head),
    ensures
        ({
            let parts = block_parts(id, head, prefix, block, max);
            let room = max - prefix.len();
            &&& chunk_bytes(head, prefix, block, max) + (if block.len() > room {
                continuation_bytes(id, block.skip(room), max)
            } else {
                Seq::empty()
            }) == parts_bytes(parts)
            &&& parts.len() > 0
            &&& parts[0].head.kind == head.kind
            &&& forall|i: int|
                0 <= i < parts.len() ==> {
                    let part = #[trigger] parts[i];
                    &&& i > 0 ==> part.head.kind == Kind::Continuation
                    &&& part.head.stream_id == id
                    &&& part.body.len() <= max
                    &&& leaves_open(part.head) == (i < parts.len() - 1)
                }
        }),
{
    let room = max - prefix.len();
    let parts = block_parts(id, head, prefix, block, max);
    if block.len() > room {
        let rest = continuation_parts(id, block.skip(room), max);
        lemma_continuation_parts(id, block.skip(room), max);
        assert(parts.skip(1) =~= rest);
        assert forall|i: int| 0 <= i < parts.len() implies {
            let part = #[trigger] parts[i];
            &&& i > 0 ==> part.head.kind == Kind::Continuation
            &&& part.head.stream_id == id
            &&& part.body.len() <= max
            &&& leaves_open(part.head) == (i < parts.len() - 1)
        } by {
            if i > 0 {
                assert(parts[i] == rest[i - 1]);
            }
        }
    } else {
        assert(parts.skip(1) =~= Seq::<Part>::empty());
        assert(parts_bytes(parts.skip(1)) =~= Seq::<u8>::empty());
    }
}

/// A HEADERS frame on the wire is as [`law_blocks_on_the_wire`] says.
pub proof fn law_headers_on_the_wire(w: FramedWriteView, h: HeadersView)
    requires
        w.max_frame_size > 0,
        h.flags.end_headers,
    ensures
        wire_of(w, FrameView::Headers(h)) == parts_bytes(
            block_parts(
                h.stream_id,
                h.head(),
                Seq::empty(),
                block_bytes(w.encoder, h.block),
                w.max_frame_size as int,
            ),
        ),
        !leaves_open(h.head()),
{
    law_blocks_on_the_wire(
        h.stream_id,
        h.head(),
        Seq::empty(),
        block_bytes(w.encoder, h.block),
        w.max_frame_size as int,
    );
}

/// A PUSH_PROMISE frame on the wire is as [`law_blocks_on_the_wire`] says.
pub proof fn law_push_promise_on_the_wire(w: FramedWriteView, p: PushPromiseView)
    requires
        w.max_frame_size >= 4,
        p.flags.end_headers,
    ensures
        wire_of(w, FrameView::PushPromise(p)) == parts_bytes(
            block_parts(
                p.stream_id,
                p.head(),
                be32_bytes(p.promised_id.id as int),
                block_bytes(w.encoder, p.block),
                w.max_frame_size as int,
            ),
        ),
        !leaves_open(p.head()),
{
    law_blocks_on_the_wire(
        p.stream_id,
        p.head(),
        be32_bytes(p.promised_id.id as int),
        block_bytes(w.encoder, p.block),
        w.max_frame_size as int,
    );
}

/// A header block may have as many CONTINUATION frames as a list of full size takes and a
/// quarter more, and five at any rate.
pub proof fn law_continuations_and_a_quarter(header_max: usize, frame_max: usize, n: int)
    requires
        0 < frame_max,
        header_max as int / frame_max as int == n,
        5 * n < 4 * usize::MAX,
    ensures
        n <= 4 ==> max_continuations(header_max, frame_max) == 5,
        n >= 4 ==> max_continuations(header_max, frame_max) == (5 * n) / 4,
{
}

} // verus!
