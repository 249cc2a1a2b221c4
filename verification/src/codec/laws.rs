//! What holds of the codec as a whole.

use crate::codec::framed_read::{
    announced, decode_block, decode_continuation, decode_frame_of, has_frame, lets_through,
    max_continuations, next_frame_of, ContinuableView, FramedReadView, PartialView,
};
use crate::codec::framed_write::{buffered, lemma_buffer_appends, wire_of, FramedWriteView};
use crate::codec::CodecView;
use crate::frame;
use crate::frame::block::load_block;
use crate::frame::control::{go_away_of, ping_of, priority_of, reset_of, window_update_of};
use crate::frame::data::data_of;
use crate::frame::head::{head_of, Head};
use crate::frame::settings::settings_of;
use crate::frame::{FrameView, Kind, Reason, HEADER_LEN};
use crate::hpack::{DecoderError, DecoderView};
use crate::proto::error::{go_away_error, ErrorView, Initiator};
use vstd::prelude::*;

verus! {

/// A read side with more bytes behind those that it has.
pub open spec fn with_more(v: FramedReadView, more: Seq<u8>) -> FramedReadView {
    FramedReadView { buffer: v.buffer + more, ..v }
}

/// How the bytes of the peer are cut up makes no difference: a frame or an error
/// that was read is read the same whatever bytes come behind it, and where more
/// bytes were needed, going on with them is starting over with all of them.
pub proof fn law_chunks(v: FramedReadView, more: Seq<u8>)
    ensures
        ({
            let (after, r) = next_frame_of(v);
            if r is Ok && r->Ok_0 is None {
                next_frame_of(with_more(v, more)) == next_frame_of(with_more(after, more))
            } else {
                next_frame_of(with_more(v, more)) == (with_more(after, more), r)
            }
        }),
    decreases v.buffer.len(),
{
    let w = with_more(v, more);
    if v.buffer.len() < HEADER_LEN {
    } else {
        assert(announced(w.buffer) == announced(v.buffer));
        if !lets_through(v) {
        } else if !has_frame(v.buffer) {
        } else {
            let len = HEADER_LEN + announced(v.buffer);
            assert(w.buffer.take(len) =~= v.buffer.take(len));
            assert(w.buffer.skip(len) =~= v.buffer.skip(len) + more);
            let end = decode_frame_of(
                v.decoder,
                v.partial,
                v.max_header_list_size,
                v.max_continuations,
                v.buffer.take(len),
            );
            let after = FramedReadView {
                buffer: v.buffer.skip(len),
                admitted: false,
                decoder: end.decoder,
                partial: end.partial,
                ..v
            };
            if end.result matches Ok(None) {
                law_chunks(after, more);
            }
        }
    }
}

/// More bytes are needed exactly where the buffer has no whole frame at its start
/// and what it announces is not too large; nothing is lost then, and a head that is
/// there is let through from then on.
pub proof fn law_waits_for_whole_frames(v: FramedReadView)
    requires
        !has_frame(v.buffer),
        v.buffer.len() >= HEADER_LEN ==> lets_through(v),
    ensures
        next_frame_of(v) == (
            (FramedReadView { admitted: v.admitted || v.buffer.len() >= HEADER_LEN, ..v }),
            Ok::<Option<FrameView>, ErrorView>(None),
        ),
{
}

/// A frame whose payload is awaited is not refused for its size, whatever the limit is
/// set to in between: once its payload is there, it is decoded.
pub proof fn law_awaited_frame_is_taken(v: FramedReadView, limit: usize, more: Seq<u8>)
    requires
        next_frame_of(v).1 == Ok::<Option<FrameView>, ErrorView>(None),
        next_frame_of(v).0.buffer.len() >= HEADER_LEN,
        has_frame(next_frame_of(v).0.buffer + more),
    ensures
        ({
            let waiting = next_frame_of(v).0;
            let allowed = max_continuations(waiting.max_header_list_size, limit);
            let lowered = FramedReadView {
                max_frame_size: limit,
                max_continuations: allowed,
                ..waiting
            };
            let bytes = waiting.buffer + more;
            let len = HEADER_LEN + announced(bytes);
            let end = decode_frame_of(
                waiting.decoder,
                waiting.partial,
                waiting.max_header_list_size,
                allowed,
                bytes.take(len),
            );
            let after = FramedReadView {
                buffer: bytes.skip(len),
                admitted: false,
                decoder: end.decoder,
                partial: end.partial,
                ..lowered
            };
            next_frame_of(with_more(lowered, more)) == match end.result {
                Ok(None) => next_frame_of(after),
                r => (after, r),
            }
        }),
{
    lemma_waiting(v);
}

proof fn lemma_waiting(v: FramedReadView)
    ensures
        ({
            let (after, r) = next_frame_of(v);
            r == Ok::<Option<FrameView>, ErrorView>(None) && after.buffer.len() >= HEADER_LEN
                ==> after.admitted && !has_frame(after.buffer)
        }),
    decreases v.buffer.len(),
{
    if has_frame(v.buffer) && lets_through(v) {
        let len = HEADER_LEN + announced(v.buffer);
        let end = decode_frame_of(
            v.decoder,
            v.partial,
            v.max_header_list_size,
            v.max_continuations,
            v.buffer.take(len),
        );
        let after = FramedReadView {
            buffer: v.buffer.skip(len),
            admitted: false,
            decoder: end.decoder,
            partial: end.partial,
            ..v
        };
        if end.result matches Ok(None) {
            lemma_waiting(after);
        }
    }
}

/// A frame that announces a larger payload than is accepted ends the connection,
/// and as soon as its head is there, unless its head was let through before.
pub proof fn law_oversized_frame(v: FramedReadView)
    requires
        v.buffer.len() >= HEADER_LEN,
        announced(v.buffer) > v.max_frame_size,
        !v.admitted,
    ensures
        next_frame_of(v).1 == Err::<Option<FrameView>, ErrorView>(
            go_away_error(Reason::FRAME_SIZE_ERROR),
        ),
{
}

/// Nothing may come between the parts of a header block: while one is not whole,
/// any frame but a CONTINUATION frame of the same stream ends the connection.
pub proof fn law_no_interleaving(
    d: DecoderView,
    p: PartialView,
    max_list: usize,
    max_continuations: int,
    bytes: Seq<u8>,
)
    requires
        head_of(bytes).kind != Kind::Continuation || head_of(bytes).stream_id
            != p.frame.stream_id(),
    ensures
        decode_frame_of(d, Some(p), max_list, max_continuations, bytes).result == Err::<
            Option<FrameView>,
            ErrorView,
        >(go_away_error(Reason::PROTOCOL_ERROR)),
{
}

/// A CONTINUATION frame that goes on with nothing ends the connection.
pub proof fn law_no_stray_continuation(
    d: DecoderView,
    max_list: usize,
    max_continuations: int,
    bytes: Seq<u8>,
)
    requires
        head_of(bytes).kind == Kind::Continuation,
    ensures
        decode_frame_of(d, None, max_list, max_continuations, bytes).result == Err::<
            Option<FrameView>,
            ErrorView,
        >(go_away_error(Reason::PROTOCOL_ERROR)),
{
}

/// A header block never has more CONTINUATION frames than the limit allows: a
/// block that is within it before a frame is within it after the frame.
pub proof fn law_no_continuation_flood(
    d: DecoderView,
    partial: Option<PartialView>,
    max_list: usize,
    max_continuations: int,
    bytes: Seq<u8>,
)
    requires
        max_continuations >= 0,
        partial matches Some(p) ==> p.count <= max_continuations,
    ensures
        decode_frame_of(d, partial, max_list, max_continuations, bytes).partial matches Some(p)
            ==> p.count <= max_continuations,
{
}

/// The limit on CONTINUATION frames leaves room for a header list of full size,
/// and for at least five frames.
pub proof fn law_continuations_suffice(header_max: usize, frame_max: usize)
    requires
        frame_max > 0,
    ensures
        max_continuations(header_max, frame_max) >= 5,
        max_continuations(header_max, frame_max) >= header_max as int / frame_max as int,
{
    assert(header_max as int / frame_max as int <= header_max) by (nonlinear_arith)
        requires
            frame_max > 0,
    ;
}

/// An unknown frame is passed over.
pub proof fn law_unknown_frames_pass(
    d: DecoderView,
    max_list: usize,
    max_continuations: int,
    bytes: Seq<u8>,
)
    requires
        head_of(bytes).kind == Kind::Unknown,
    ensures
        ({
            let end = decode_frame_of(d, None, max_list, max_continuations, bytes);
            &&& end.result == Ok::<Option<FrameView>, ErrorView>(None)
            &&& end.decoder == d
            &&& end.partial is None
        }),
{
}

/// A codec with another write side.
pub open spec fn with_write(c: CodecView, write: FramedWriteView) -> CodecView {
    CodecView { write, ..c }
}

/// What is handed out is what went in, in order and once: the bytes for the peer
/// after a frame went in are those before and then those of the frame, and after
/// they were handed out there are none.
pub proof fn law_written_once(c: CodecView, f: FrameView)
    requires
        c.write.wf(),
        c.write.next is Nothing,
    ensures
        buffered(c.write, f) matches Ok(write) ==> with_write(c, write).transmit() == c.transmit()
            + wire_of(c.write, f),
        c.sent().transmit() == Seq::<u8>::empty(),
{
    lemma_buffer_appends(c.write, f);
    crate::codec::lemma_drain(c);
    if let Ok(write) = buffered(c.write, f) {
        assert(c.out + (c.write.pending() + wire_of(c.write, f)) =~= c.out + c.write.pending()
            + wire_of(c.write, f));
    }
}

/// A DATA frame with a larger payload than the peer accepts is refused, and so is
/// nothing else.
pub proof fn law_refuses_large_payloads(v: FramedWriteView, f: FrameView)
    ensures
        buffered(v, f) is Err <==> (f matches FrameView::Data(d) && d.data.len()
            > v.max_frame_size),
{
}

/// A frame without a header block comes out as the frame of its kind that its payload is. If
/// its payload is none, that ends the connection; only a stream that is to depend on itself
/// is reset alone.
pub proof fn law_plain_frames_come_out(
    d: DecoderView,
    max_list: usize,
    max_continuations: int,
    bytes: Seq<u8>,
)
    requires
        bytes.len() >= 9,
    ensures
        ({
            let head = head_of(bytes);
            let body = bytes.skip(9);
            let end = decode_frame_of(d, None, max_list, max_continuations, bytes);
            let broken = Err::<Option<FrameView>, ErrorView>(
                ErrorView::GoAway(Seq::empty(), Reason::PROTOCOL_ERROR, Initiator::Library),
            );
            let plain = head.kind != Kind::Headers && head.kind != Kind::PushPromise && head.kind
                != Kind::Continuation;
            &&& plain ==> end.decoder == d && end.partial is None
            &&& head.kind == Kind::Data ==> end.result == match data_of(head, body) {
                Ok(f) => Ok(Some(FrameView::Data(f))),
                Err(_) => broken,
            }
            &&& head.kind == Kind::Settings ==> end.result == match settings_of(head, body) {
                Ok(f) => Ok(Some(FrameView::Settings(f))),
                Err(_) => broken,
            }
            &&& head.kind == Kind::Ping ==> end.result == match ping_of(head, body) {
                Ok(f) => Ok(Some(FrameView::Ping(f))),
                Err(_) => broken,
            }
            &&& head.kind == Kind::WindowUpdate ==> end.result == match window_update_of(
                head,
                body,
            ) {
                Ok(f) => Ok(Some(FrameView::WindowUpdate(f))),
                Err(_) => broken,
            }
            &&& head.kind == Kind::Reset ==> end.result == match reset_of(head, body) {
                Ok(f) => Ok(Some(FrameView::Reset(f))),
                Err(_) => broken,
            }
            &&& head.kind == Kind::GoAway ==> end.result == match go_away_of(body) {
                Ok(f) => Ok(Some(FrameView::GoAway(f))),
                Err(_) => broken,
            }
            &&& head.kind == Kind::Priority && head.stream_id.id == 0 ==> end.result == broken
            &&& head.kind == Kind::Priority && head.stream_id.id != 0 ==> match priority_of(
                head,
                body,
            ) {
                Ok(f) => end.result == Ok::<Option<FrameView>, ErrorView>(
                    Some(FrameView::Priority(f)),
                ),
                Err(_) => end.result == if body.len() == 5 {
                    Err(
                        ErrorView::Reset(
                            head.stream_id,
                            Reason::PROTOCOL_ERROR,
                            Initiator::Library,
                        ),
                    )
                } else {
                    broken
                },
            }
        }),
{
}

/// A header block that can be read but is malformed resets its stream alone, and the header
/// table has taken it in all the same, so that it stays in step with the peer's. One whose
/// bytes cannot be read ends the connection, and so does one that nobody would put up with.
pub proof fn law_what_a_bad_block_comes_to(
    d: DecoderView,
    f: ContinuableView,
    src: Seq<u8>,
    max_list: usize,
)
    ensures
        ({
            let end = decode_block(d, f, src, true, max_list);
            let loaded = load_block(d, src, f.block(), max_list);
            &&& end.partial is None
            &&& end.decoder == loaded.decoder
            &&& loaded.fault == Some(frame::Error::MalformedMessage) ==> end.result == Err::<
                Option<FrameView>,
                ErrorView,
            >(ErrorView::Reset(f.stream_id(), Reason::PROTOCOL_ERROR, Initiator::Library))
            &&& loaded.fault matches Some(frame::Error::Hpack(_)) ==> end.result == Err::<
                Option<FrameView>,
                ErrorView,
            >(ErrorView::GoAway(Seq::empty(), Reason::PROTOCOL_ERROR, Initiator::Library))
            &&& loaded.fault == Some(frame::Error::HeaderListWayTooLarge) ==> (end.result matches
                Err(ErrorView::GoAway(_, reason, Initiator::Library)) && reason
                == Reason::ENHANCE_YOUR_CALM)
            &&& loaded.fault is None ==> end.result == Ok::<Option<FrameView>, ErrorView>(
                Some(f.with_block(loaded.state.block).finished()),
            )
        }),
{
}

/// A header block that goes on in other frames comes to nothing yet, unless what there is of
/// it is at fault; that it stops in the middle of a field is none.
pub proof fn law_blocks_that_go_on(
    d: DecoderView,
    f: ContinuableView,
    src: Seq<u8>,
    max_list: usize,
)
    ensures
        ({
            let end = decode_block(d, f, src, false, max_list);
            let loaded = load_block(d, src, f.block(), max_list);
            let stops = loaded.fault matches Some(
                frame::Error::Hpack(DecoderError::NeedMore(_)),
            );
            &&& loaded.fault is None || stops ==> {
                &&& end.result == Ok::<Option<FrameView>, ErrorView>(None)
                &&& end.partial matches Some(p) && p.buf == loaded.rest && p.count == 0
                    && p.frame.stream_id() == f.stream_id()
                &&& end.decoder == loaded.decoder
            }
            &&& !(loaded.fault is None || stops) ==> end.result is Err && end.partial is None
        }),
{
}

/// A header block that is over its size already, and of which a field goes on, is not kept
/// for long: if what is left of it and the next frame are larger than a header list may be,
/// the connection ends. Any other frame that continues the block is read right behind what
/// is left of it.
pub proof fn law_continued_fields(
    d: DecoderView,
    p: PartialView,
    max_list: usize,
    max_continuations: int,
    head: Head,
    body: Seq<u8>,
)
    requires
        p.frame.stream_id() == head.stream_id,
        p.count < max_continuations,
    ensures
        ({
            let end = decode_continuation(d, Some(p), max_list, max_continuations, head, body);
            let whole = head.flag / 4 % 2 == 1;
            let large = p.buf.len() > 0 && p.frame.block().is_over_size && p.buf.len() + 9
                + body.len() > max_list;
            &&& large ==> end.result == Err::<Option<FrameView>, ErrorView>(
                go_away_error(Reason::COMPRESSION_ERROR),
            ) && end.partial is None
            &&& !large ==> {
                let loaded = load_block(d, p.buf + body, p.frame.block(), max_list);
                let stops = loaded.fault matches Some(
                    frame::Error::Hpack(DecoderError::NeedMore(_)),
                );
                &&& end.decoder == loaded.decoder
                &&& loaded.fault is None && whole ==> end.result == Ok::<
                    Option<FrameView>,
                    ErrorView,
                >(Some(p.frame.with_block(loaded.state.block).finished()))
                &&& !whole && (loaded.fault is None || stops) ==> {
                    &&& end.result == Ok::<Option<FrameView>, ErrorView>(None)
                    &&& end.partial matches Some(q) && q.buf == loaded.rest && q.count == p.count
                        + 1 && q.frame == p.frame.with_block(loaded.state.block)
                }
                &&& loaded.fault is Some && (whole || !stops) ==> end.result is Err
                    && end.partial is None
            }
        }),
{
}

} // verus!
