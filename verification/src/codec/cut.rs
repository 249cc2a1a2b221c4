//! Where a header block is cut into frames makes no difference.

use crate::codec::framed_read::{decode_block, decode_continuation, ContinuableView, PartialView};
use crate::frame::block::{
    abuse_limit, list_size, load_block, load_field, load_from, opt_field, BlockView, LoadView,
    PseudoView,
};
use crate::frame::error::Error;
use crate::frame::headers::{
    continuation_head, no_block, unfinished, HeadersFlag, HeadersView, PushPromiseView,
};
use crate::frame::reload::{
    is_clean, lemma_clean_step, lemma_within_abuse_limit, ready, state_of,
};
use crate::frame::FrameView;
use crate::hpack::decoder::step_of;
use crate::hpack::field::FieldView;
use crate::hpack::prefix::{lemma_step_prefix, lemma_step_resize};
use crate::hpack::{DecoderError, DecoderView};
use crate::proto::error::ErrorView;
use vstd::prelude::*;

verus! {

/// A header block that is in order and not too large, however its fields are written:
/// each of its representations can be read, and each field is in its place and is
/// kept.
pub open spec fn is_valid_block(
    d: DecoderView,
    s: Seq<u8>,
    can_resize: bool,
    st: LoadView,
    max: usize,
) -> bool
    decreases s.len(),
{
    s.len() > 0 ==> match step_of(d, s, can_resize) {
        Err(_) => false,
        Ok(step) => {
            let after = DecoderView { table: step.table, ..d };
            step.rest.len() < s.len() && match step.field {
                Some(f) => is_clean(st, f, max) && is_valid_block(
                    after,
                    step.rest,
                    false,
                    load_field(st, f, max),
                    max,
                ),
                None => is_valid_block(after, step.rest, can_resize, st, max),
            }
        },
    }
}

proof fn lemma_resize(d: DecoderView, s: Seq<u8>, st: LoadView, max: usize)
    requires
        is_valid_block(d, s, false, st, max),
    ensures
        is_valid_block(d, s, true, st, max),
        load_from(d, s, true, st, max) == load_from(d, s, false, st, max),
{
    if s.len() > 0 {
        lemma_step_resize(d, s);
    }
}

proof fn lemma_whole(d: DecoderView, s: Seq<u8>, can_resize: bool, block: BlockView, max: usize)
    requires
        is_valid_block(d, s, can_resize, state_of(block), max),
        state_of(block).size <= abuse_limit(max),
    ensures
        ({
            let end = load_from(d, s, can_resize, state_of(block), max);
            &&& end.fault is None
            &&& end.rest.len() == 0
            &&& !end.state.malformed
            &&& end.state.block.is_over_size == block.is_over_size
        }),
    decreases s.len(),
{
    if s.len() > 0 {
        let step = step_of(d, s, can_resize)->Ok_0;
        let after = DecoderView { table: step.table, ..d };
        match step.field {
            Some(f) => {
                lemma_clean_step(block, f, max);
                let next = load_field(state_of(block), f, max);
                lemma_within_abuse_limit(next.size, max);
                lemma_whole(after, step.rest, false, next.block, max);
            },
            None => {
                lemma_whole(after, step.rest, can_resize, block, max);
            },
        }
    }
}

proof fn lemma_cut(
    d: DecoderView,
    s: Seq<u8>,
    can_resize: bool,
    block: BlockView,
    max: usize,
    k: int,
) -> (later: bool)
    requires
        is_valid_block(d, s, can_resize, state_of(block), max),
        state_of(block).size <= abuse_limit(max),
        0 <= k <= s.len(),
    ensures
        ({
            let end = load_from(d, s.take(k), can_resize, state_of(block), max);
            &&& end.state == state_of(end.state.block)
            &&& end.state.size <= abuse_limit(max)
            &&& end.state.block.is_over_size == block.is_over_size
            &&& end.decoder.pending == d.pending
            &&& end.decoder.allowed == d.allowed
            &&& end.rest.len() == 0 ==> end.fault is None
            &&& end.rest.len() > 0 ==> (end.fault matches Some(
                Error::Hpack(DecoderError::NeedMore(_)),
            ))
            &&& is_valid_block(end.decoder, end.rest + s.skip(k), later, end.state, max)
            &&& load_from(end.decoder, end.rest + s.skip(k), later, end.state, max) == load_from(
                d,
                s,
                can_resize,
                state_of(block),
                max,
            )
        }),
    decreases s.len(),
{
    if k == 0 {
        assert(s.take(0) =~= Seq::<u8>::empty());
        assert(s.take(0) + s.skip(0) =~= s);
        can_resize
    } else {
        let step = step_of(d, s, can_resize)->Ok_0;
        let after = DecoderView { table: step.table, ..d };
        let m = lemma_step_prefix(d, s, k, can_resize);
        let cut = s.take(k);
        if k < m {
            assert(cut + s.skip(k) =~= s);
            can_resize
        } else {
            assert(cut.skip(m) =~= step.rest.take(k - m));
            assert(step.rest.skip(k - m) =~= s.skip(k));
            match step.field {
                Some(f) => {
                    lemma_clean_step(block, f, max);
                    let next = load_field(state_of(block), f, max);
                    lemma_within_abuse_limit(next.size, max);
                    lemma_cut(after, step.rest, false, next.block, max, k - m)
                },
                None => lemma_cut(after, step.rest, can_resize, block, max, k - m),
            }
        }
    }
}

/// A frame with a header block as it stands before the end of the block has come.
pub open spec fn still_open(c: ContinuableView) -> ContinuableView {
    match c {
        ContinuableView::Headers(f) => ContinuableView::Headers(
            HeadersView { flags: HeadersFlag { end_headers: false, ..f.flags }, ..f },
        ),
        ContinuableView::PushPromise(f) => ContinuableView::PushPromise(
            PushPromiseView { flags: HeadersFlag { end_headers: false, ..f.flags }, ..f },
        ),
    }
}

/// A header block may be cut anywhere, also inside a field: read as the payload of one
/// frame, or of a frame and a CONTINUATION frame, it gives the same frame and leaves the
/// decoder the same.
pub proof fn law_cut_anywhere(
    d: DecoderView,
    c: ContinuableView,
    src: Seq<u8>,
    k: int,
    max: usize,
    limit: int,
)
    requires
        c.block() == no_block(),
        is_valid_block(ready(d), src, true, state_of(no_block()), max),
        0 <= k <= src.len(),
    ensures
        ({
            let whole = decode_block(d, c, src, true, max);
            let first = decode_block(d, still_open(c), src.take(k), false, max);
            let head = continuation_head(c.stream_id());
            &&& whole.result matches Ok(Some(_))
            &&& first.result == Ok::<Option<FrameView>, ErrorView>(None)
            &&& decode_continuation(first.decoder, first.partial, max, limit, head, src.skip(k))
                == whole
        }),
{
    let d0 = ready(d);
    let none = no_block();
    assert(list_size(none.all()) == 0) by {
        reveal(PseudoView::fields);
        reveal(opt_field);
        assert(none.all() =~= Seq::<FieldView>::empty());
    }
    lemma_whole(d0, src, true, none, max);
    let later = lemma_cut(d0, src, true, none, max, k);
    let end = load_from(d0, src.take(k), true, state_of(none), max);
    if !later {
        lemma_resize(end.decoder, end.rest + src.skip(k), end.state, max);
    }
    assert(ready(end.decoder) == end.decoder);
    let whole = load_block(d, src, none, max);
    let first = load_block(d, src.take(k), none, max);
    assert(first == end);
    let second = load_block(end.decoder, end.rest + src.skip(k), end.state.block, max);
    assert(second == whole);
}

/// A header block that is open, and that the bytes `src` complete in order.
pub open spec fn goes_on(d: DecoderView, p: PartialView, src: Seq<u8>, max: usize) -> bool {
    &&& d.pending is None
    &&& !p.frame.block().is_over_size
    &&& state_of(p.frame.block()).size <= abuse_limit(max)
    &&& is_valid_block(d, p.buf + src, true, state_of(p.frame.block()), max)
}

/// What is left of a header block may be cut again: read as the payload of one
/// CONTINUATION frame, or of two, it gives the same frame and leaves the decoder the
/// same, and in between the block goes on in order.
pub proof fn law_cut_again(
    d: DecoderView,
    p: PartialView,
    src: Seq<u8>,
    k: int,
    max: usize,
    limit: int,
)
    requires
        goes_on(d, p, src, max),
        0 <= k <= src.len(),
        p.count < limit,
    ensures
        ({
            let head = continuation_head(p.frame.stream_id());
            let whole = decode_continuation(d, Some(p), max, limit, head, src);
            let first = decode_continuation(
                d,
                Some(p),
                max,
                limit,
                unfinished(head),
                src.take(k),
            );
            &&& whole.result matches Ok(Some(_))
            &&& first.result == Ok::<Option<FrameView>, ErrorView>(None)
            &&& first.partial matches Some(q) && q.count == p.count + 1 && goes_on(
                first.decoder,
                q,
                src.skip(k),
                max,
            )
            &&& decode_continuation(first.decoder, first.partial, max, limit, head, src.skip(k))
                == whole
        }),
{
    let block = p.frame.block();
    let all = p.buf + src;
    let n = p.buf.len() + k;
    lemma_whole(d, all, true, block, max);
    let later = lemma_cut(d, all, true, block, max, n);
    assert(all.take(n) =~= p.buf + src.take(k));
    assert(all.skip(n) =~= src.skip(k));
    let end = load_from(d, all.take(n), true, state_of(block), max);
    if !later {
        lemma_resize(end.decoder, end.rest + src.skip(k), end.state, max);
    }
    assert(ready(d) == d);
    assert(ready(end.decoder) == end.decoder);
    let whole = load_block(d, all, block, max);
    assert(load_block(d, all.take(n), block, max) == end);
    let second = load_block(end.decoder, end.rest + src.skip(k), end.state.block, max);
    assert(second == whole);
}

} // verus!
