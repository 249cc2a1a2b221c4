//! The read side of the codec: bytes become frames.

use crate::buf::{advance, as_slice, contents, payload};
use crate::frame::block::load_block;
use crate::frame::control::{
    go_away_of, ping_of, priority_of, reset_of, window_update_of,
};
use crate::frame::data::data_of;
use crate::frame::head::head_of;
use crate::frame::headers::{headers_of, push_promise_of};
use crate::frame::settings::settings_of;
use crate::frame::{
    Data, Frame, FrameView, GoAway, Head, Headers, HeadersFlag, HeadersView, Kind, Ping, Priority,
    PushPromise, PushPromiseView, Reason, Reset, Settings, StreamId, WindowUpdate,
    DEFAULT_MAX_FRAME_SIZE, DEFAULT_SETTINGS_HEADER_TABLE_SIZE, HEADER_LEN, MAX_MAX_FRAME_SIZE,
};
use crate::frame;
use crate::hpack::{Decoder, DecoderError, DecoderView};
use crate::hpack::table::TableView;
use crate::names::{HEADER_LIST_WAY_TOO_LARGE, TOO_MANY_CONTINUATIONS};
use crate::proto::error::{
    go_away_data_error, go_away_error, reset_error, Error, ErrorView,
};
use crate::wire::{be24, read_u24};
use bytes::BytesMut;
use vstd::prelude::*;
use vstd::slice::slice_subrange;

verus! {

/// The size of the header lists that are kept, unless another is set: 16 MB.
pub const DEFAULT_SETTINGS_MAX_HEADER_LIST_SIZE: usize = 16_777_216;

/// A frame whose header block goes on in CONTINUATION frames.
#[derive(Debug)]
enum Continuable {
    Headers(Headers),
    PushPromise(PushPromise),
}

/// A frame whose header block goes on in CONTINUATION frames.
#[verifier::ext_equal]
pub enum ContinuableView {
    Headers(HeadersView),
    PushPromise(PushPromiseView),
}

impl ContinuableView {
    /// The stream of the frame.
    pub open spec fn stream_id(self) -> StreamId {
        match self {
            ContinuableView::Headers(f) => f.stream_id,
            ContinuableView::PushPromise(f) => f.stream_id,
        }
    }

    /// The block so far.
    pub open spec fn block(self) -> frame::BlockView {
        match self {
            ContinuableView::Headers(f) => f.block,
            ContinuableView::PushPromise(f) => f.block,
        }
    }

    /// The frame with another block.
    pub open spec fn with_block(self, block: frame::BlockView) -> ContinuableView {
        match self {
            ContinuableView::Headers(f) => ContinuableView::Headers(HeadersView { block, ..f }),
            ContinuableView::PushPromise(f) => ContinuableView::PushPromise(
                PushPromiseView { block, ..f },
            ),
        }
    }

    /// The frame as a whole one.
    pub open spec fn finished(self) -> FrameView {
        match self {
            ContinuableView::Headers(f) => FrameView::Headers(
                HeadersView { flags: HeadersFlag { end_headers: true, ..f.flags }, ..f },
            ),
            ContinuableView::PushPromise(f) => FrameView::PushPromise(
                PushPromiseView { flags: HeadersFlag { end_headers: true, ..f.flags }, ..f },
            ),
        }
    }
}

impl View for Continuable {
    type V = ContinuableView;

    closed spec fn view(&self) -> ContinuableView {
        match self {
            Continuable::Headers(f) => ContinuableView::Headers(f@),
            Continuable::PushPromise(f) => ContinuableView::PushPromise(f@),
        }
    }
}

impl Continuable {
    fn stream_id(&self) -> (id: StreamId)
        ensures
            id == self@.stream_id(),
    {
        match self {
            Continuable::Headers(h) => h.stream_id,
            Continuable::PushPromise(p) => p.stream_id,
        }
    }

    fn is_over_size(&self) -> (r: bool)
        ensures
            r == self@.block().is_over_size,
    {
        match self {
            Continuable::Headers(h) => h.header_block.is_over_size,
            Continuable::PushPromise(p) => p.header_block.is_over_size,
        }
    }

    fn load_hpack(&mut self, src: &mut BytesMut, max: usize, decoder: &mut Decoder) -> (r: Result<
        (),
        frame::Error,
    >)
        requires
            old(decoder).wf(),
        ensures
            final(decoder).wf(),
            ({
                let end = load_block(old(decoder)@, contents(*old(src)), old(self)@.block(), max);
                &&& final(decoder)@ == end.decoder
                &&& contents(*final(src)) == end.rest
                &&& final(self)@ == old(self)@.with_block(end.state.block)
                &&& r == match end.fault {
                    None => Ok::<(), frame::Error>(()),
                    Some(e) => Err(e),
                }
            }),
    {
        match self {
            Continuable::Headers(h) => h.load_hpack(src, max, decoder),
            Continuable::PushPromise(p) => p.load_hpack(src, max, decoder),
        }
    }

    fn finish(self) -> (f: Frame)
        ensures
            f@ == self@.finished(),
    {
        match self {
            Continuable::Headers(headers) => {
                let mut headers = headers;
                headers.set_end_headers();
                Frame::Headers(headers)
            },
            Continuable::PushPromise(push) => {
                let mut push = push;
                push.set_end_headers();
                Frame::PushPromise(push)
            },
        }
    }
}

/// A header block that is not whole yet.
#[derive(Debug)]
struct Partial {
    frame: Continuable,
    buf: BytesMut,
    continuation_frames_count: usize,
}

/// A header block that is not whole yet: the frame that it belongs to, the
/// bytes that could not be read yet, and the number of CONTINUATION frames.
#[verifier::ext_equal]
pub struct PartialView {
    pub frame: ContinuableView,
    pub buf: Seq<u8>,
    pub count: int,
}

impl View for Partial {
    type V = PartialView;

    closed spec fn view(&self) -> PartialView {
        PartialView {
            frame: self.frame@,
            buf: contents(self.buf),
            count: self.continuation_frames_count as int,
        }
    }
}

spec fn partial_view(p: Option<Partial>) -> Option<PartialView> {
    match p {
        Some(p) => Some(p@),
        None => None,
    }
}

/// The error that a fault in a header block comes to. A block that stops too
/// early and goes on in the next frame is at no fault.
pub open spec fn block_error(fault: Option<frame::Error>, whole: bool, id: StreamId) -> Option<
    ErrorView,
> {
    match fault {
        None => None,
        Some(frame::Error::Hpack(DecoderError::NeedMore(_))) if !whole => None,
        Some(frame::Error::MalformedMessage) => Some(reset_error(id, Reason::PROTOCOL_ERROR)),
        Some(frame::Error::HeaderListWayTooLarge) => Some(
            go_away_data_error(Reason::ENHANCE_YOUR_CALM, HEADER_LIST_WAY_TOO_LARGE@),
        ),
        Some(_) => Some(go_away_error(Reason::PROTOCOL_ERROR)),
    }
}

/// What decoding one frame leaves behind, and what it gives: a frame, nothing
/// yet, or an error.
#[verifier::ext_equal]
pub struct DecodeEnd {
    pub decoder: DecoderView,
    pub partial: Option<PartialView>,
    pub result: Result<Option<FrameView>, ErrorView>,
}

/// How a HEADERS or PUSH_PROMISE frame with these bytes of its block ends.
pub open spec fn decode_block(
    d: DecoderView,
    frame: ContinuableView,
    src: Seq<u8>,
    whole: bool,
    max_list: usize,
) -> DecodeEnd {
    let end = load_block(d, src, frame.block(), max_list);
    let frame = frame.with_block(end.state.block);
    match block_error(end.fault, whole, frame.stream_id()) {
        Some(e) => DecodeEnd { decoder: end.decoder, partial: None, result: Err(e) },
        None => if whole {
            DecodeEnd { decoder: end.decoder, partial: None, result: Ok(Some(frame.finished())) }
        } else {
            DecodeEnd {
                decoder: end.decoder,
                partial: Some(PartialView { frame, buf: end.rest, count: 0 }),
                result: Ok(None),
            }
        },
    }
}

/// How a CONTINUATION frame with this head and payload ends.
pub open spec fn decode_continuation(
    d: DecoderView,
    partial: Option<PartialView>,
    max_list: usize,
    max_continuations: int,
    head: Head,
    body: Seq<u8>,
) -> DecodeEnd {
    let whole = head.flag / 4 % 2 == 1;
    let failed = |e: ErrorView| DecodeEnd { decoder: d, partial: None, result: Err(e) };
    match partial {
        None => failed(go_away_error(Reason::PROTOCOL_ERROR)),
        Some(p) => if p.frame.stream_id() != head.stream_id {
            failed(go_away_error(Reason::PROTOCOL_ERROR))
        } else if !whole && p.count >= max_continuations {
            failed(go_away_data_error(Reason::ENHANCE_YOUR_CALM, TOO_MANY_CONTINUATIONS@))
        } else if p.buf.len() > 0 && p.frame.block().is_over_size && p.buf.len() + HEADER_LEN
            + body.len() > max_list {
            failed(go_away_error(Reason::COMPRESSION_ERROR))
        } else {
            let end = load_block(d, p.buf + body, p.frame.block(), max_list);
            let frame = p.frame.with_block(end.state.block);
            match block_error(end.fault, whole, head.stream_id) {
                Some(e) => DecodeEnd { decoder: end.decoder, partial: None, result: Err(e) },
                None => if whole {
                    DecodeEnd {
                        decoder: end.decoder,
                        partial: None,
                        result: Ok(Some(frame.finished())),
                    }
                } else {
                    DecodeEnd {
                        decoder: end.decoder,
                        partial: Some(PartialView { frame, buf: end.rest, count: p.count + 1 }),
                        result: Ok(None),
                    }
                },
            }
        },
    }
}

/// A frame without a header block, or the error that it comes to.
pub open spec fn decode_plain(head: Head, body: Seq<u8>) -> Result<FrameView, ErrorView> {
    let broken = go_away_error(Reason::PROTOCOL_ERROR);
    match head.kind {
        Kind::Settings => match settings_of(head, body) {
            Ok(f) => Ok(FrameView::Settings(f)),
            Err(_) => Err(broken),
        },
        Kind::Ping => match ping_of(head, body) {
            Ok(f) => Ok(FrameView::Ping(f)),
            Err(_) => Err(broken),
        },
        Kind::WindowUpdate => match window_update_of(head, body) {
            Ok(f) => Ok(FrameView::WindowUpdate(f)),
            Err(_) => Err(broken),
        },
        Kind::Data => match data_of(head, body) {
            Ok(f) => Ok(FrameView::Data(f)),
            Err(_) => Err(broken),
        },
        Kind::Reset => match reset_of(head, body) {
            Ok(f) => Ok(FrameView::Reset(f)),
            Err(_) => Err(broken),
        },
        Kind::GoAway => match go_away_of(body) {
            Ok(f) => Ok(FrameView::GoAway(f)),
            Err(_) => Err(broken),
        },
        Kind::Priority => if head.stream_id.id == 0 {
            Err(broken)
        } else {
            match priority_of(head, body) {
                Ok(f) => Ok(FrameView::Priority(f)),
                Err(frame::Error::InvalidDependencyId) => Err(
                    reset_error(head.stream_id, Reason::PROTOCOL_ERROR),
                ),
                Err(_) => Err(broken),
            }
        },
        _ => Err(broken),
    }
}

/// The error that a HEADERS or PUSH_PROMISE frame with a broken frame around
/// its block comes to.
pub open spec fn load_error(e: frame::Error, id: StreamId) -> ErrorView {
    match e {
        frame::Error::InvalidDependencyId => reset_error(id, Reason::PROTOCOL_ERROR),
        _ => go_away_error(Reason::PROTOCOL_ERROR),
    }
}

/// How decoding the frame that `bytes` is ends.
pub open spec fn decode_frame_of(
    d: DecoderView,
    partial: Option<PartialView>,
    max_list: usize,
    max_continuations: int,
    bytes: Seq<u8>,
) -> DecodeEnd {
    let head = head_of(bytes);
    let body = bytes.skip(HEADER_LEN as int);
    if partial is Some && head.kind != Kind::Continuation {
        DecodeEnd { decoder: d, partial, result: Err(go_away_error(Reason::PROTOCOL_ERROR)) }
    } else {
        match head.kind {
            Kind::Headers => match headers_of(head, body) {
                Err(e) => DecodeEnd {
                    decoder: d,
                    partial,
                    result: Err(load_error(e, head.stream_id)),
                },
                Ok((f, src)) => decode_block(
                    d,
                    ContinuableView::Headers(f),
                    src,
                    f.flags.end_headers,
                    max_list,
                ),
            },
            Kind::PushPromise => match push_promise_of(head, body) {
                Err(e) => DecodeEnd {
                    decoder: d,
                    partial,
                    result: Err(load_error(e, head.stream_id)),
                },
                Ok((f, src)) => decode_block(
                    d,
                    ContinuableView::PushPromise(f),
                    src,
                    f.flags.end_headers,
                    max_list,
                ),
            },
            Kind::Continuation => decode_continuation(
                d,
                partial,
                max_list,
                max_continuations,
                head,
                body,
            ),
            Kind::Unknown => DecodeEnd { decoder: d, partial, result: Ok(None) },
            _ => DecodeEnd {
                decoder: d,
                partial,
                result: match decode_plain(head, body) {
                    Ok(f) => Ok(Some(f)),
                    Err(e) => Err(e),
                },
            },
        }
    }
}

/// The outcome of reading a frame.
pub open spec fn outcome(r: Result<Option<Frame>, Error>) -> Result<Option<FrameView>, ErrorView> {
    match r {
        Ok(Some(f)) => Ok(Some(f@)),
        Ok(None) => Ok(None),
        Err(e) => Err(e@),
    }
}

fn fault_error(r: Result<(), frame::Error>, whole: bool, id: StreamId) -> (e: Option<Error>)
    ensures
        block_error(
            match r {
                Ok(()) => None,
                Err(e) => Some(e),
            },
            whole,
            id,
        ) == match e {
            Some(e) => Some(e@),
            None => None,
        },
{
    match r {
        Ok(()) => None,
        Err(frame::Error::Hpack(DecoderError::NeedMore(_))) if !whole => None,
        Err(frame::Error::MalformedMessage) => Some(
            Error::library_reset(id, Reason::PROTOCOL_ERROR),
        ),
        Err(frame::Error::HeaderListWayTooLarge) => Some(
            Error::library_go_away_data(
                Reason::ENHANCE_YOUR_CALM,
                HEADER_LIST_WAY_TOO_LARGE.as_slice(),
            ),
        ),
        Err(_) => Some(Error::library_go_away(Reason::PROTOCOL_ERROR)),
    }
}

fn load_failure(e: frame::Error, id: StreamId) -> (r: Error)
    ensures
        r@ == load_error(e, id),
{
    match e {
        frame::Error::InvalidDependencyId => Error::library_reset(id, Reason::PROTOCOL_ERROR),
        _ => Error::library_go_away(Reason::PROTOCOL_ERROR),
    }
}

fn header_block(
    hpack: &mut Decoder,
    max_header_list_size: usize,
    partial_inout: &mut Option<Partial>,
    frame: Continuable,
    payload: BytesMut,
    is_end_headers: bool,
) -> (r: Result<Option<Frame>, Error>)
    requires
        old(hpack).wf(),
        *old(partial_inout) is None,
    ensures
        final(hpack).wf(),
        decode_block(
            old(hpack)@,
            frame@,
            contents(payload),
            is_end_headers,
            max_header_list_size,
        ) == (DecodeEnd {
            decoder: final(hpack)@,
            partial: partial_view(*final(partial_inout)),
            result: outcome(r),
        }),
{
    let mut frame = frame;
    let mut payload = payload;
    let id = frame.stream_id();
    let loaded = frame.load_hpack(&mut payload, max_header_list_size, hpack);
    match fault_error(loaded, is_end_headers, id) {
        Some(e) => Err(e),
        None => {
            if is_end_headers {
                Ok(Some(frame.finish()))
            } else {
                *partial_inout = Some(
                    Partial { frame, buf: payload, continuation_frames_count: 0 },
                );
                Ok(None)
            }
        },
    }
}

fn broken<T>() -> (r: Result<T, Error>)
    ensures
        r matches Err(e) && e@ == go_away_error(Reason::PROTOCOL_ERROR),
{
    Err(Error::library_go_away(Reason::PROTOCOL_ERROR))
}

fn continuation(
    hpack: &mut Decoder,
    max_header_list_size: usize,
    max_continuation_frames: usize,
    partial_inout: &mut Option<Partial>,
    head: Head,
    bytes: BytesMut,
) -> (r: Result<Option<Frame>, Error>)
    requires
        old(hpack).wf(),
        contents(bytes).len() >= HEADER_LEN,
    ensures
        final(hpack).wf(),
        decode_continuation(
            old(hpack)@,
            partial_view(*old(partial_inout)),
            max_header_list_size,
            max_continuation_frames as int,
            head,
            contents(bytes).skip(HEADER_LEN as int),
        ) == (DecodeEnd {
            decoder: final(hpack)@,
            partial: partial_view(*final(partial_inout)),
            result: outcome(r),
        }),
{
    let mut bytes = bytes;
    let ghost body = contents(bytes).skip(HEADER_LEN as int);
    let is_end_headers = head.flag / 4 % 2 == 1;
    let mut partial = match partial_inout.take() {
        Some(partial) => partial,
        None => {
            return broken();
        },
    };
    // The stream identifiers must match
    if partial.frame.stream_id() != head.stream_id {
        return broken();
    }
    // Check for CONTINUATION flood
    if is_end_headers {
        partial.continuation_frames_count = 0;
    } else {
        if partial.continuation_frames_count >= max_continuation_frames {
            return Err(
                Error::library_go_away_data(
                    Reason::ENHANCE_YOUR_CALM,
                    TOO_MANY_CONTINUATIONS.as_slice(),
                ),
            );
        }
        partial.continuation_frames_count = partial.continuation_frames_count + 1;
    }
    // Extend the buf
    if partial.buf.is_empty() {
        let ghost before = contents(partial.buf);
        partial.buf = bytes.split_off(HEADER_LEN);
        assert(contents(partial.buf) =~= before + body);
    } else {
        if partial.frame.is_over_size() {
            // Bytes that were left over may be needed to keep the decoder in
            // step, though the fields in them are dropped. A string that goes
            // on for longer than a whole header list may is not waited for.
            let len: usize = bytes.len();
            if len > max_header_list_size || partial.buf.len() > max_header_list_size - len {
                return Err(Error::library_go_away(Reason::COMPRESSION_ERROR));
            }
        }
        let rest = as_slice(&bytes);
        let rest = slice_subrange(rest, HEADER_LEN, rest.len());
        assert(rest@ =~= body);
        partial.buf.extend_from_slice(rest);
    }
    let loaded = partial.frame.load_hpack(&mut partial.buf, max_header_list_size, hpack);
    match fault_error(loaded, is_end_headers, head.stream_id) {
        Some(e) => Err(e),
        None => {
            if is_end_headers {
                Ok(Some(partial.frame.finish()))
            } else {
                *partial_inout = Some(partial);
                Ok(None)
            }
        },
    }
}

/// Decodes a frame.
///
/// `bytes` is the whole frame, head included. Of the frames with a header
/// block, only the one that ends the block gives a frame.
fn decode_frame(
    hpack: &mut Decoder,
    max_header_list_size: usize,
    max_continuation_frames: usize,
    partial_inout: &mut Option<Partial>,
    bytes: BytesMut,
) -> (r: Result<Option<Frame>, Error>)
    requires
        old(hpack).wf(),
        contents(bytes).len() >= HEADER_LEN,
    ensures
        final(hpack).wf(),
        decode_frame_of(
            old(hpack)@,
            partial_view(*old(partial_inout)),
            max_header_list_size,
            max_continuation_frames as int,
            contents(bytes),
        ) == (DecodeEnd {
            decoder: final(hpack)@,
            partial: partial_view(*final(partial_inout)),
            result: outcome(r),
        }),
{
    let mut bytes = bytes;
    let head = Head::parse(as_slice(&bytes));
    if partial_inout.is_some() && head.kind != Kind::Continuation {
        return broken();
    }
    let ghost body = contents(bytes).skip(HEADER_LEN as int);
    let len: usize = bytes.len();
    match head.kind {
        Kind::Settings => match Settings::load(
            head,
            slice_subrange(as_slice(&bytes), HEADER_LEN, len),
        ) {
            Ok(frame) => Ok(Some(Frame::Settings(frame))),
            Err(_) => broken(),
        },
        Kind::Ping => match Ping::load(head, slice_subrange(as_slice(&bytes), HEADER_LEN, len)) {
            Ok(frame) => Ok(Some(Frame::Ping(frame))),
            Err(_) => broken(),
        },
        Kind::WindowUpdate => match WindowUpdate::load(
            head,
            slice_subrange(as_slice(&bytes), HEADER_LEN, len),
        ) {
            Ok(frame) => Ok(Some(Frame::WindowUpdate(frame))),
            Err(_) => broken(),
        },
        Kind::Data => {
            advance(&mut bytes, HEADER_LEN);
            match Data::load(head, bytes.freeze()) {
                Ok(frame) => Ok(Some(Frame::Data(frame))),
                Err(_) => broken(),
            }
        },
        Kind::Headers => {
            // Drop the frame header
            advance(&mut bytes, HEADER_LEN);
            // Parse the header frame w/o parsing the payload
            match Headers::load(head, bytes) {
                Ok((frame, payload)) => {
                    let is_end_headers = frame.flags.end_headers;
                    let frame = Continuable::Headers(frame);
                    header_block(
                        hpack,
                        max_header_list_size,
                        partial_inout,
                        frame,
                        payload,
                        is_end_headers,
                    )
                },
                Err(e) => Err(load_failure(e, head.stream_id)),
            }
        },
        Kind::Reset => match Reset::load(head, slice_subrange(as_slice(&bytes), HEADER_LEN, len)) {
            Ok(frame) => Ok(Some(Frame::Reset(frame))),
            Err(_) => broken(),
        },
        Kind::GoAway => match GoAway::load(slice_subrange(as_slice(&bytes), HEADER_LEN, len)) {
            Ok(frame) => Ok(Some(Frame::GoAway(frame))),
            Err(_) => broken(),
        },
        Kind::PushPromise => {
            // Drop the frame header
            advance(&mut bytes, HEADER_LEN);
            // Parse the header frame w/o parsing the payload
            match PushPromise::load(head, bytes) {
                Ok((frame, payload)) => {
                    let is_end_headers = frame.flags.end_headers;
                    let frame = Continuable::PushPromise(frame);
                    header_block(
                        hpack,
                        max_header_list_size,
                        partial_inout,
                        frame,
                        payload,
                        is_end_headers,
                    )
                },
                Err(e) => Err(load_failure(e, head.stream_id)),
            }
        },
        Kind::Priority => {
            if head.stream_id.is_zero() {
                // Invalid stream identifier
                return broken();
            }
            match Priority::load(head, slice_subrange(as_slice(&bytes), HEADER_LEN, len)) {
                Ok(frame) => Ok(Some(Frame::Priority(frame))),
                Err(e) => Err(load_failure(e, head.stream_id)),
            }
        },
        Kind::Continuation => continuation(
            hpack,
            max_header_list_size,
            max_continuation_frames,
            partial_inout,
            head,
            bytes,
        ),
        // Unknown frames are ignored
        Kind::Unknown => Ok(None),
    }
}

/// The number of CONTINUATION frames that a header block may have: what a
/// header list of full size takes and a quarter more, but at least five.
pub open spec fn max_continuations(header_max: usize, frame_max: usize) -> int {
    let whole = header_max as int / frame_max as int;
    let needed = if whole < 1 {
        1
    } else {
        whole
    };
    let padded = needed + needed / 4;
    if padded < 5 {
        5
    } else if padded > usize::MAX {
        usize::MAX as int
    } else {
        padded
    }
}

fn calc_max_continuation_frames(header_max: usize, frame_max: usize) -> (n: usize)
    requires
        frame_max > 0,
    ensures
        n == max_continuations(header_max, frame_max),
{
    // At least this many frames needed to use max header list size
    let whole: usize = header_max / frame_max;
    let needed: usize = if whole < 1 {
        1
    } else {
        whole
    };
    // Some padding for imperfectly packed frames
    let padding: usize = needed / 4;
    let padded: usize = if padding > usize::MAX - needed {
        usize::MAX
    } else {
        needed + padding
    };
    if padded < 5 {
        5
    } else {
        padded
    }
}

/// Reads frames out of the bytes that it is handed.
#[derive(Debug)]
pub struct FramedRead {
    buffer: BytesMut,
    admitted: bool,
    max_frame_size: usize,
    hpack: Decoder,
    max_header_list_size: usize,
    max_continuation_frames: usize,
    partial: Option<Partial>,
}

/// What the read side knows: the bytes that no frame was made of yet, whether the
/// head at their front was let through and its payload is awaited, its limits, its
/// header decoder, and a header block that is not whole yet.
#[verifier::ext_equal]
pub struct FramedReadView {
    pub buffer: Seq<u8>,
    pub admitted: bool,
    pub max_frame_size: usize,
    pub decoder: DecoderView,
    pub max_header_list_size: usize,
    pub max_continuations: int,
    pub partial: Option<PartialView>,
}

impl View for FramedRead {
    type V = FramedReadView;

    closed spec fn view(&self) -> FramedReadView {
        FramedReadView {
            buffer: contents(self.buffer),
            admitted: self.admitted,
            max_frame_size: self.max_frame_size,
            decoder: self.hpack@,
            max_header_list_size: self.max_header_list_size,
            max_continuations: self.max_continuation_frames as int,
            partial: partial_view(self.partial),
        }
    }
}

/// The length of the payload that a buffer's first frame announces.
pub open spec fn announced(buffer: Seq<u8>) -> int {
    be24(buffer, 0)
}

/// Whether a buffer starts with a whole frame.
pub open spec fn has_frame(buffer: Seq<u8>) -> bool {
    buffer.len() >= HEADER_LEN && buffer.len() >= HEADER_LEN + announced(buffer)
}

/// Whether the payload that a read side's first frame announces is not too large: it
/// is within the limit, or was when the head was let through.
pub open spec fn lets_through(v: FramedReadView) -> bool {
    v.admitted || announced(v.buffer) <= v.max_frame_size
}

/// What reading one more frame leaves behind, and what it gives: the frame,
/// nothing where more bytes are needed, or an error. Frames that give nothing
/// of their own are passed over.
pub open spec fn next_frame_of(v: FramedReadView) -> (
    FramedReadView,
    Result<Option<FrameView>, ErrorView>,
)
    decreases v.buffer.len(),
{
    if v.buffer.len() < HEADER_LEN {
        (v, Ok(None))
    } else if !lets_through(v) {
        (v, Err(go_away_error(Reason::FRAME_SIZE_ERROR)))
    } else if !has_frame(v.buffer) {
        (FramedReadView { admitted: true, ..v }, Ok(None))
    } else {
        let len = HEADER_LEN + announced(v.buffer);
        let end = decode_frame_of(
            v.decoder,
            v.partial,
            v.max_header_list_size,
            v.max_continuations,
            v.buffer.take(len),
        );
        let after = FramedReadView {
            buffer: v.buffer.skip(len),
            admitted: false,
            decoder: end.decoder,
            partial: end.partial,
            ..v
        };
        match end.result {
            Ok(None) => next_frame_of(after),
            r => (after, r),
        }
    }
}

/// A frame whose header block goes on has a stream of its own, and promises one
/// that can be.
pub open spec fn continuable_ok(f: ContinuableView) -> bool {
    &&& f.stream_id().wf()
    &&& f.stream_id().id != 0
    &&& f matches ContinuableView::PushPromise(p) ==> p.promised_id.wf()
}

/// What holds of every frame that was read.
pub open spec fn frame_ok(f: FrameView) -> bool {
    match f {
        FrameView::Headers(h) => h.stream_id.wf() && h.stream_id.id != 0,
        FrameView::PushPromise(p) => p.stream_id.wf() && p.stream_id.id != 0
            && p.promised_id.wf(),
        FrameView::WindowUpdate(w) => w.stream_id.wf() && 0 < w.size_increment < 0x8000_0000,
        FrameView::Settings(s) => s.wf(),
        FrameView::Data(d) => d.stream_id.wf() && d.stream_id.id != 0,
        _ => true,
    }
}

proof fn lemma_decode_ok(
    d: DecoderView,
    partial: Option<PartialView>,
    max_list: usize,
    max_continuations: int,
    bytes: Seq<u8>,
)
    requires
        partial matches Some(p) ==> continuable_ok(p.frame),
    ensures
        ({
            let end = decode_frame_of(d, partial, max_list, max_continuations, bytes);
            &&& end.partial matches Some(p) ==> continuable_ok(p.frame)
            &&& end.result matches Ok(Some(f)) ==> frame_ok(f)
        }),
{
    let head = head_of(bytes);
    let body = bytes.skip(HEADER_LEN as int);
    crate::frame::settings::lemma_settings_wf(head, body);
}

/// Reading a frame takes its bytes out of the buffer; only a frame that is too
/// large stays, which is an error of the connection.
pub proof fn lemma_next_frame_shrinks(v: FramedReadView)
    ensures
        next_frame_of(v).0.buffer.len() <= v.buffer.len(),
        next_frame_of(v).1 matches Ok(Some(_)) ==> next_frame_of(v).0.buffer.len()
            < v.buffer.len(),
        next_frame_of(v).1 matches Err(ErrorView::Reset(_, _, _)) ==> next_frame_of(
            v,
        ).0.buffer.len() < v.buffer.len(),
    decreases v.buffer.len(),
{
    if has_frame(v.buffer) && lets_through(v) {
        let len = HEADER_LEN + announced(v.buffer);
        let end = decode_frame_of(
            v.decoder,
            v.partial,
            v.max_header_list_size,
            v.max_continuations,
            v.buffer.take(len),
        );
        let after = FramedReadView {
            buffer: v.buffer.skip(len),
            admitted: false,
            decoder: end.decoder,
            partial: end.partial,
            ..v
        };
        if end.result matches Ok(None) {
            lemma_next_frame_shrinks(after);
        }
    }
}

/// Every frame that was read is in order, and leaves the read side in order.
pub proof fn lemma_next_frame(v: FramedReadView)
    requires
        v.wf(),
    ensures
        next_frame_of(v).0.wf(),
        next_frame_of(v).1 matches Ok(Some(f)) ==> frame_ok(f),
    decreases v.buffer.len(),
{
    if has_frame(v.buffer) && lets_through(v) {
        let len = HEADER_LEN + announced(v.buffer);
        let bytes = v.buffer.take(len);
        lemma_decode_ok(
            v.decoder,
            v.partial,
            v.max_header_list_size,
            v.max_continuations,
            bytes,
        );
        let end = decode_frame_of(
            v.decoder,
            v.partial,
            v.max_header_list_size,
            v.max_continuations,
            bytes,
        );
        let after = FramedReadView {
            buffer: v.buffer.skip(len),
            admitted: false,
            decoder: end.decoder,
            partial: end.partial,
            ..v
        };
        if end.result matches Ok(None) {
            lemma_next_frame(after);
        }
    }
}

impl FramedReadView {
    /// The limits are within their bounds, and so is a header block that is not
    /// whole yet. Only a head that is there was let through.
    pub open spec fn wf(self) -> bool {
        &&& self.admitted ==> self.buffer.len() >= HEADER_LEN
        &&& self.partial matches Some(p) ==> continuable_ok(p.frame)
        &&& DEFAULT_MAX_FRAME_SIZE <= self.max_frame_size <= MAX_MAX_FRAME_SIZE
        &&& self.max_continuations == max_continuations(
            self.max_header_list_size,
            self.max_frame_size,
        )
    }
}

/// A read side with the limits that everyone starts with.
pub open spec fn new_read() -> FramedReadView {
    FramedReadView {
        buffer: Seq::empty(),
        admitted: false,
        max_frame_size: DEFAULT_MAX_FRAME_SIZE as usize,
        decoder: DecoderView {
            table: TableView {
                entries: Seq::empty(),
                max_size: DEFAULT_SETTINGS_HEADER_TABLE_SIZE as int,
            },
            allowed: DEFAULT_SETTINGS_HEADER_TABLE_SIZE as int,
            pending: None,
        },
        max_header_list_size: DEFAULT_SETTINGS_MAX_HEADER_LIST_SIZE,
        max_continuations: max_continuations(
            DEFAULT_SETTINGS_MAX_HEADER_LIST_SIZE,
            DEFAULT_MAX_FRAME_SIZE as usize,
        ),
        partial: None,
    }
}

impl FramedRead {
    /// The header decoder is in order, and so are the limits.
    pub closed spec fn wf(self) -> bool {
        self.hpack.wf() && self@.wf()
    }

    /// The limits of a read side in order are within their bounds.
    pub proof fn lemma_wf(&self)
        requires
            self.wf(),
        ensures
            self@.wf(),
    {
    }

    /// A read side with the limits that everyone starts with.
    pub fn new() -> (r: FramedRead)
        ensures
            r.wf(),
            r@ == new_read(),
    {
        let max_header_list_size: usize = DEFAULT_SETTINGS_MAX_HEADER_LIST_SIZE;
        let max_frame_size: usize = DEFAULT_MAX_FRAME_SIZE as usize;
        let max_continuation_frames: usize = calc_max_continuation_frames(
            max_header_list_size,
            max_frame_size,
        );
        FramedRead {
            buffer: BytesMut::new(),
            admitted: false,
            max_frame_size,
            hpack: Decoder::new(DEFAULT_SETTINGS_HEADER_TABLE_SIZE),
            max_header_list_size,
            max_continuation_frames,
            partial: None,
        }
    }

    /// Takes bytes from the peer.
    pub fn recv(&mut self, src: &[u8])
        requires
            old(self).wf(),
        ensures
            final(self).wf(),
            final(self)@ == (FramedReadView { buffer: old(self)@.buffer + src@, ..old(self)@ }),
    {
        self.buffer.extend_from_slice(src);
    }

    /// Reads the next frame, if it is there as a whole.
    pub fn next_frame(&mut self) -> (r: Result<Option<Frame>, Error>)
        requires
            old(self).wf(),
        ensures
            final(self).wf(),
            next_frame_of(old(self)@) == (final(self)@, outcome(r)),
    {
        loop
            invariant
                self.wf(),
                next_frame_of(old(self)@) == next_frame_of(self@),
            decreases self@.buffer.len(),
        {
            // Need at least the frame header to determine the length.
            if self.buffer.len() < HEADER_LEN {
                return Ok(None);
            }
            // The frame length is the first 3 bytes, covering only the payload.
            let payload_len: usize = read_u24(as_slice(&self.buffer), 0) as usize;
            // Reject frames whose payload exceeds the negotiated max frame size,
            // unless they are in process of being decoded.
            if payload_len > self.max_frame_size && !self.admitted {
                return Err(Error::library_go_away(Reason::FRAME_SIZE_ERROR));
            }
            let frame_len: usize = HEADER_LEN + payload_len;
            if self.buffer.len() < frame_len {
                self.admitted = true;
                return Ok(None);
            }
            let ghost before = self@;
            let bytes = self.buffer.split_to(frame_len);
            self.admitted = false;
            proof {
                lemma_decode_ok(
                    before.decoder,
                    before.partial,
                    before.max_header_list_size,
                    before.max_continuations,
                    contents(bytes),
                );
            }
            match decode_frame(
                &mut self.hpack,
                self.max_header_list_size,
                self.max_continuation_frames,
                &mut self.partial,
                bytes,
            ) {
                Ok(Some(frame)) => {
                    return Ok(Some(frame));
                },
                // Frame consumed but produced no output; try the next one.
                Ok(None) => {},
                Err(e) => {
                    return Err(e);
                },
            }
        }
    }

    /// The largest payload that is accepted.
    pub fn max_frame_size(&self) -> (n: usize)
        ensures
            n == self@.max_frame_size,
    {
        self.max_frame_size
    }

    /// Changes the largest payload that is accepted, from the next frame on: one
    /// whose payload is awaited already is still taken.
    pub fn set_max_frame_size(&mut self, val: usize)
        requires
            old(self).wf(),
            DEFAULT_MAX_FRAME_SIZE <= val <= MAX_MAX_FRAME_SIZE,
        ensures
            final(self).wf(),
            final(self)@ == (FramedReadView {
                max_frame_size: val,
                max_continuations: max_continuations(old(self)@.max_header_list_size, val),
                ..old(self)@
            }),
    {
        self.max_frame_size = val;
        // Update max CONTINUATION frames too, since its based on this
        self.max_continuation_frames =
        calc_max_continuation_frames(self.max_header_list_size, val);
    }

    /// Changes the size of the header lists that are kept.
    pub fn set_max_header_list_size(&mut self, val: usize)
        requires
            old(self).wf(),
        ensures
            final(self).wf(),
            final(self)@ == (FramedReadView {
                max_header_list_size: val,
                max_continuations: max_continuations(val, old(self)@.max_frame_size),
                ..old(self)@
            }),
    {
        self.max_header_list_size = val;
        // Update max CONTINUATION frames too, since its based on this
        self.max_continuation_frames = calc_max_continuation_frames(val, self.max_frame_size());
    }

    /// Allows another header table size from the next block on. Of several
    /// sizes, the largest counts.
    pub fn set_header_table_size(&mut self, val: usize)
        requires
            old(self).wf(),
        ensures
            final(self).wf(),
            final(self)@ == (FramedReadView {
                decoder: DecoderView {
                    pending: Some(
                        match old(self)@.decoder.pending {
                            Some(n) if n > val => n,
                            _ => val as int,
                        },
                    ),
                    ..old(self)@.decoder
                },
                ..old(self)@
            }),
    {
        self.hpack.queue_size_update(val);
    }
}

impl Default for FramedRead {
    fn default() -> (r: FramedRead)
        ensures
            r.wf(),
            r@ == new_read(),
    {
        FramedRead::new()
    }
}

} // verus!
