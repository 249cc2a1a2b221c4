//! What frames mean, whoever wrote them.

use crate::frame::block::{
    abuse_limit, is_connection_header, list_size, load_block, load_field, load_from, BlockView,
    LoadView,
};
use crate::frame::control::{
    dependency_at, go_away_of, ping_of, priority_of, reset_of, window_update_of,
};
use crate::frame::data::data_of;
use crate::frame::error::Error;
use crate::frame::head::{head_of, Head, Kind};
use crate::frame::headers::{headers_of, push_promise_of};
use crate::frame::reason::reason_of;
use crate::frame::settings::{apply_setting, apply_settings, no_settings, settings_of, Settings};
use crate::hpack::decoder::{lemma_step_shrinks, step_of, DecoderView};
use crate::hpack::field::{pseudo_name_of, FieldView, PseudoName};
use crate::hpack::static_table::{
    law_static_headers_from_max_forwards, law_static_pseudo_headers, static_entry,
};
use crate::names::{law_texts, spelled, TE, TRAILERS};
use crate::wire::{be16, be32};
use vstd::prelude::*;

verus! {

/// The number that four bytes spell, the highest first.
pub open spec fn number(a: u8, b: u8, c: u8, d: u8) -> int {
    ((a * 256 + b) * 256 + c) * 256 + d
}

/// The kinds of frames by their type bytes, the flags, and the identifier of the stream,
/// whose highest bit does not count.
pub proof fn law_heads(s: Seq<u8>)
    requires
        s.len() >= 9,
    ensures
        s[3] == 0 ==> head_of(s).kind == Kind::Data,
        s[3] == 1 ==> head_of(s).kind == Kind::Headers,
        s[3] == 2 ==> head_of(s).kind == Kind::Priority,
        s[3] == 3 ==> head_of(s).kind == Kind::Reset,
        s[3] == 4 ==> head_of(s).kind == Kind::Settings,
        s[3] == 5 ==> head_of(s).kind == Kind::PushPromise,
        s[3] == 6 ==> head_of(s).kind == Kind::Ping,
        s[3] == 7 ==> head_of(s).kind == Kind::GoAway,
        s[3] == 8 ==> head_of(s).kind == Kind::WindowUpdate,
        s[3] == 9 ==> head_of(s).kind == Kind::Continuation,
        s[3] >= 10 ==> head_of(s).kind == Kind::Unknown,
        head_of(s).flag == s[4],
        head_of(s).stream_id.id == number(s[5], s[6], s[7], s[8]) % 0x8000_0000,
{
}

/// A DATA frame belongs to a stream. Its payload is the data, or, where it is padded, the
/// length of the padding, the data, and as much padding as that, which leaves room for the
/// length itself. The lowest flag says that the message ends.
pub proof fn law_data_frames(head: Head, src: Seq<u8>)
    ensures
        ({
            let padded = head.flag / 8 % 2 == 1;
            let fits = !padded || src.len() > 0 && src[0] < src.len();
            match data_of(head, src) {
                Ok(d) => {
                    &&& head.stream_id.id != 0 && fits
                    &&& d.stream_id == head.stream_id
                    &&& d.end_stream == (head.flag % 2 == 1)
                    &&& !padded ==> d.data == src && d.pad_len is None
                    &&& padded ==> {
                        &&& d.pad_len == Some(src[0])
                        &&& src.len() == 1 + d.data.len() + src[0]
                        &&& src.skip(1).take(d.data.len() as int) == d.data
                    }
                },
                Err(e) => {
                    &&& head.stream_id.id == 0 || !fits
                    &&& head.stream_id.id == 0 ==> e == Error::InvalidStreamId
                    &&& head.stream_id.id != 0 ==> e == Error::TooMuchPadding
                },
            }
        }),
{
    if let Ok(d) = data_of(head, src) {
        if head.flag / 8 % 2 == 1 {
            assert(src.skip(1).take(d.data.len() as int) =~= d.data);
        }
    }
}

/// A PING frame belongs to no stream and has a payload of eight bytes. The lowest flag says
/// that it is an answer.
pub proof fn law_ping_frames(head: Head, src: Seq<u8>)
    ensures
        match ping_of(head, src) {
            Ok(p) => {
                &&& head.stream_id.id == 0 && src.len() == 8
                &&& p.ack == (head.flag % 2 == 1)
                &&& p.high == number(src[0], src[1], src[2], src[3])
                &&& p.low == number(src[4], src[5], src[6], src[7])
            },
            Err(e) => {
                &&& head.stream_id.id != 0 || src.len() != 8
                &&& head.stream_id.id != 0 ==> e == Error::InvalidStreamId
                &&& head.stream_id.id == 0 ==> e == Error::BadFrameSize
            },
        },
{
}

/// A WINDOW_UPDATE frame has a payload of four bytes, whose highest bit does not count, and
/// widens by at least one.
pub proof fn law_window_update_frames(head: Head, src: Seq<u8>)
    ensures
        ({
            let n = number(src[0], src[1], src[2], src[3]) % 0x8000_0000;
            match window_update_of(head, src) {
                Ok(u) => src.len() == 4 && n > 0 && u.size_increment == n && u.stream_id
                    == head.stream_id,
                Err(e) => {
                    &&& src.len() != 4 || n == 0
                    &&& src.len() != 4 ==> e == Error::BadFrameSize
                    &&& src.len() == 4 ==> e == Error::InvalidWindowUpdateValue
                },
            }
        }),
{
}

/// A RST_STREAM frame has a payload of four bytes, which is the code of its reason.
pub proof fn law_reset_frames(head: Head, src: Seq<u8>)
    ensures
        match reset_of(head, src) {
            Ok(r) => src.len() == 4 && r.stream_id == head.stream_id && r.error_code == reason_of(
                number(src[0], src[1], src[2], src[3]),
            ),
            Err(e) => src.len() != 4 && e == Error::InvalidPayloadLength,
        },
{
}

/// A GOAWAY frame has a payload of at least eight bytes: the last stream that is served,
/// the code of the reason, and debug data.
pub proof fn law_go_away_frames(src: Seq<u8>)
    ensures
        match go_away_of(src) {
            Ok(g) => {
                &&& src.len() >= 8
                &&& g.last_stream_id.id == number(src[0], src[1], src[2], src[3]) % 0x8000_0000
                &&& g.error_code == reason_of(number(src[4], src[5], src[6], src[7]))
                &&& g.debug_data == src.skip(8)
            },
            Err(e) => src.len() < 8 && e == Error::BadFrameSize,
        },
{
}

/// A PRIORITY frame has a payload of five bytes, and no stream depends on itself.
pub proof fn law_priority_frames(head: Head, src: Seq<u8>)
    ensures
        ({
            let on = number(src[0], src[1], src[2], src[3]) % 0x8000_0000;
            match priority_of(head, src) {
                Ok(p) => src.len() == 5 && p.stream_id == head.stream_id && on
                    != head.stream_id.id,
                Err(e) => {
                    &&& src.len() != 5 ==> e == Error::InvalidPayloadLength
                    &&& src.len() == 5 ==> on == head.stream_id.id && e
                        == Error::InvalidDependencyId
                },
            }
        }),
{
    if src.len() == 5 {
        let id = dependency_at(src).dependency_id;
        assert(id.id == be32(src, 0) % 0x8000_0000);
        if id.id == head.stream_id.id {
            assert(id == head.stream_id);
        }
    }
}

/// A SETTINGS frame belongs to no stream. An acknowledgement is empty; any other is made of
/// settings of six bytes each.
pub proof fn law_settings_frames(head: Head, src: Seq<u8>)
    ensures
        ({
            let ack = head.flag % 2 == 1;
            let r = settings_of(head, src);
            if head.stream_id.id != 0 {
                r == Err::<Settings, Error>(Error::InvalidStreamId)
            } else if ack {
                if src.len() == 0 {
                    r matches Ok(s) && s.ack && s.header_table_size is None && s.enable_push
                        is None && s.max_concurrent_streams is None && s.initial_window_size
                        is None && s.max_frame_size is None && s.max_header_list_size is None
                } else {
                    r == Err::<Settings, Error>(Error::InvalidPayloadLength)
                }
            } else {
                &&& src.len() % 6 != 0 ==> r == Err::<Settings, Error>(
                    Error::InvalidPayloadAckSettings,
                )
                &&& src.len() == 0 ==> r == Ok::<Settings, Error>(no_settings())
            }
        }),
{
    reveal(apply_settings);
}

/// Each setting counts for itself: it changes its own value and no other, the first, third
/// and sixth to anything, the second and eighth to 0 or 1, the fourth to what a window can
/// be, and the fifth to a size that frames can have. A setting that nobody knows is passed
/// over.
pub proof fn law_each_setting(acc: Settings, id: int, value: u32)
    ensures
        ({
            let r = apply_setting(acc, id, value);
            let refused = Err::<Settings, Error>(Error::InvalidSettingValue);
            &&& id == 1 ==> r == Ok::<Settings, Error>(
                Settings { header_table_size: Some(value), ..acc },
            )
            &&& id == 2 ==> r == if value <= 1 {
                Ok(Settings { enable_push: Some(value), ..acc })
            } else {
                refused
            }
            &&& id == 3 ==> r == Ok::<Settings, Error>(
                Settings { max_concurrent_streams: Some(value), ..acc },
            )
            &&& id == 4 ==> r == if value <= 0x7fff_ffff {
                Ok(Settings { initial_window_size: Some(value), ..acc })
            } else {
                refused
            }
            &&& id == 5 ==> r == if 16_384 <= value <= 16_777_215 {
                Ok(Settings { max_frame_size: Some(value), ..acc })
            } else {
                refused
            }
            &&& id == 6 ==> r == Ok::<Settings, Error>(
                Settings { max_header_list_size: Some(value), ..acc },
            )
            &&& id == 8 ==> r == if value <= 1 {
                Ok(Settings { enable_connect_protocol: Some(value), ..acc })
            } else {
                refused
            }
            &&& id == 0 || id == 7 || id > 8 ==> r == Ok::<Settings, Error>(acc)
        }),
{
    reveal(apply_setting);
}

/// Settings count in the order in which they stand, so that of several values the last
/// counts: what stands behind others is read on top of them.
pub proof fn law_settings_in_order(acc: Settings, first: Seq<u8>, rest: Seq<u8>)
    requires
        first.len() == 6,
    ensures
        ({
            let id = first[0] * 256 + first[1];
            let value = number(first[2], first[3], first[4], first[5]) as u32;
            apply_settings(acc, first + rest) == match apply_setting(acc, id, value) {
                Ok(next) => apply_settings(next, rest),
                Err(e) => Err(e),
            }
        }),
{
    reveal(apply_settings);
    let all = first + rest;
    assert(all.skip(6) =~= rest);
    assert(be16(all, 0) == first[0] * 256 + first[1]);
    assert(be32(all, 2) == number(first[2], first[3], first[4], first[5]));
}

/// A HEADERS frame belongs to a stream. In front of the header block stand the length of
/// the padding, where there is one, and a priority of five bytes, where there is one; and
/// behind it the padding. No stream depends on itself. The lowest flag says that the message
/// ends, and another that the block does.
pub proof fn law_headers_frames(head: Head, src: Seq<u8>)
    ensures
        ({
            let padded = head.flag / 8 % 2 == 1;
            let priority = head.flag / 32 % 2 == 1;
            match headers_of(head, src) {
                Ok((h, block)) => {
                    let front = (if padded {
                        1int
                    } else {
                        0
                    }) + if priority {
                        5int
                    } else {
                        0
                    };
                    let behind = if padded {
                        src[0] as int
                    } else {
                        0
                    };
                    &&& head.stream_id.id != 0
                    &&& h.stream_id == head.stream_id
                    &&& h.flags.end_stream == (head.flag % 2 == 1)
                    &&& h.flags.end_headers == (head.flag / 4 % 2 == 1)
                    &&& src.len() == front + block.len() + behind
                    &&& src.skip(front).take(block.len() as int) == block
                    &&& priority ==> (h.stream_dep matches Some(d) && d.dependency_id
                        != head.stream_id)
                },
                Err(e) => {
                    &&& head.stream_id.id == 0 ==> e == Error::InvalidStreamId
                    &&& head.stream_id.id != 0 ==> padded || priority
                    &&& head.stream_id.id != 0 && !priority && src.len() > 0 ==> src[0]
                        >= src.len() && e == Error::TooMuchPadding
                    &&& head.stream_id.id != 0 && priority && !padded ==> src.len() < 5
                        || dependency_at(src).dependency_id == head.stream_id
                    &&& head.stream_id.id != 0 && priority && padded ==> src.len() < 6 || src[0]
                        + 6 > src.len() || dependency_at(src.skip(1)).dependency_id
                        == head.stream_id
                },
            }
        }),
{
    if let Ok((h, block)) = headers_of(head, src) {
        let padded = head.flag / 8 % 2 == 1;
        let priority = head.flag / 32 % 2 == 1;
        let front = (if padded {
            1int
        } else {
            0
        }) + if priority {
            5int
        } else {
            0
        };
        assert(src.skip(front).take(block.len() as int) =~= block);
    }
}

/// The fields of a header block are kept in their order, each as it is, while the size of
/// the list allows it: one more field, of whatever kind, leaves those before it as they
/// are.
pub proof fn law_fields_are_kept_in_order(st: LoadView, f: FieldView, max: usize)
    ensures
        ({
            let after = load_field(st, f, max);
            let size = st.size + f.name.len() + f.value.len() + 32;
            let plain = pseudo_name_of(f.name) is None;
            let bad = is_connection_header(f.name) || f.name == TE@ && f.value != TRAILERS@;
            &&& plain && bad ==> after.malformed && after.block == st.block
            &&& plain && !bad ==> {
                &&& after.regular
                &&& after.size == size
                &&& after.malformed == st.malformed
                &&& after.block.pseudo == st.block.pseudo
                &&& size < max ==> after.block.fields == st.block.fields.push(f)
                    && after.block.is_over_size == st.block.is_over_size
                &&& size >= max ==> after.block.fields == st.block.fields
                    && after.block.is_over_size
            }
            &&& !plain ==> after.block.fields == st.block.fields && after.regular == st.regular
            &&& st.malformed ==> after.malformed
            &&& st.block.is_over_size ==> after.block.is_over_size
        }),
{
}

/// A pseudo-header comes before all other fields, and once: any other is malformed. It
/// counts for its own value and no other.
pub proof fn law_pseudo_headers_come_first_and_once(st: LoadView, f: FieldView, max: usize)
    requires
        pseudo_name_of(f.name) is Some,
    ensures
        ({
            let after = load_field(st, f, max);
            let name = pseudo_name_of(f.name)->0;
            let size = st.size + f.name.len() + f.value.len() + 32;
            if st.regular || st.block.pseudo.has(name) {
                after.malformed && after.block == st.block
            } else {
                &&& after.malformed == st.malformed
                &&& after.size == size
                &&& size < max ==> after.block.pseudo == st.block.pseudo.with(name, f.value)
                &&& size >= max ==> after.block.pseudo == st.block.pseudo
                    && after.block.is_over_size
            }
        }),
{
}

/// A header list that nobody would put up with is refused: one that is larger than four
/// times what is kept, and larger than 65536 at any rate.
pub proof fn law_what_nobody_puts_up_with(max: usize)
    ensures
        abuse_limit(max) >= 65_536,
        abuse_limit(max) >= 4 * max || abuse_limit(max) == usize::MAX - 1,
        4 * max < usize::MAX ==> abuse_limit(max) == 65_536 || abuse_limit(max) == 4 * max,
        abuse_limit(max) < usize::MAX,
{
}

/// A header block is read representation by representation: what stands behind one is read
/// as if it stood alone, with the table that the first one has left, and on top of its
/// field.
pub proof fn law_blocks_are_read_one_by_one(
    d: DecoderView,
    s: Seq<u8>,
    can_resize: bool,
    st: LoadView,
    max: usize,
)
    requires
        s.len() > 0,
    ensures
        match step_of(d, s, can_resize) {
            Err(e) => {
                let end = load_from(d, s, can_resize, st, max);
                end.fault == Some(Error::Hpack(e)) && end.decoder == d
            },
            Ok(step) => {
                let next = match step.field {
                    Some(f) => load_field(st, f, max),
                    None => st,
                };
                next.size <= abuse_limit(max) ==> load_from(d, s, can_resize, st, max)
                    == load_from(
                    DecoderView { table: step.table, ..d },
                    step.rest,
                    can_resize && step.field is None,
                    next,
                    max,
                )
            },
        },
{
}

/// A malformed block is malformed, however well its bytes can be read.
pub proof fn law_malformed_blocks(d: DecoderView, s: Seq<u8>, block: BlockView, max: usize)
    ensures
        ({
            let end = load_block(d, s, block, max);
            &&& end.state.malformed ==> end.fault is Some
            &&& end.fault == Some(Error::MalformedMessage) ==> end.state.malformed
            &&& end.fault is None ==> end.rest.len() == 0
        }),
{
    let started = DecoderView {
        allowed: match d.pending {
            Some(n) => n,
            None => d.allowed,
        },
        pending: None,
        ..d
    };
    let st = LoadView {
        block,
        regular: block.fields.len() > 0,
        malformed: false,
        size: list_size(block.all()),
    };
    lemma_read_to_the_end(started, s, true, st, max);
}

proof fn lemma_read_to_the_end(
    d: DecoderView,
    s: Seq<u8>,
    can_resize: bool,
    st: LoadView,
    max: usize,
)
    ensures
        load_from(d, s, can_resize, st, max).fault is None ==> load_from(
            d,
            s,
            can_resize,
            st,
            max,
        ).rest.len() == 0,
        load_from(d, s, can_resize, st, max).fault != Some(Error::MalformedMessage),
    decreases s.len(),
{
    if s.len() > 0 {
        if let Ok(step) = step_of(d, s, can_resize) {
            lemma_step_shrinks(d, s, can_resize);
            let next = match step.field {
                Some(f) => load_field(st, f, max),
                None => st,
            };
            lemma_read_to_the_end(
                DecoderView { table: step.table, ..d },
                step.rest,
                can_resize && step.field is None,
                next,
                max,
            );
        }
    }
}


/// The headers that speak of the connection, and no others.
pub proof fn law_connection_headers(name: Seq<u8>)
    ensures
        is_connection_header(name) == (name == spelled("connection"@) || name == spelled(
            "transfer-encoding"@,
        ) || name == spelled("upgrade"@) || name == spelled("keep-alive"@) || name == spelled(
            "proxy-connection"@,
        )),
{
    law_texts();
    law_static_headers_from_max_forwards();
    reveal(static_entry);
}

/// The pseudo-headers, and no others.
pub proof fn law_pseudo_header_names(name: Seq<u8>)
    ensures
        match pseudo_name_of(name) {
            Some(PseudoName::Method) => name == spelled(":method"@),
            Some(PseudoName::Scheme) => name == spelled(":scheme"@),
            Some(PseudoName::Authority) => name == spelled(":authority"@),
            Some(PseudoName::Path) => name == spelled(":path"@),
            Some(PseudoName::Protocol) => name == spelled(":protocol"@),
            Some(PseudoName::Status) => name == spelled(":status"@),
            None => name != spelled(":method"@) && name != spelled(":scheme"@) && name != spelled(
                ":authority"@,
            ) && name != spelled(":path"@) && name != spelled(":protocol"@) && name != spelled(
                ":status"@,
            ),
        },
{
    law_texts();
    law_static_pseudo_headers();
    reveal(static_entry);
}

/// A PUSH_PROMISE frame belongs to a stream. In front of the header block stand the length
/// of the padding, where there is one, and the promised stream, whose highest bit does not
/// count; and behind it the padding. There is at least one byte behind the promised stream.
pub proof fn law_push_promise_frames(head: Head, src: Seq<u8>)
    ensures
        ({
            let padded = head.flag / 8 % 2 == 1;
            let at = if padded {
                1int
            } else {
                0
            };
            let behind = if padded {
                src[0] as int
            } else {
                0
            };
            match push_promise_of(head, src) {
                Ok((f, block)) => {
                    &&& head.stream_id.id != 0
                    &&& f.stream_id == head.stream_id
                    &&& f.flags.end_headers == (head.flag / 4 % 2 == 1)
                    &&& f.promised_id.id == number(src[at], src[at + 1], src[at + 2], src[at + 3])
                        % 0x8000_0000
                    &&& src.len() == at + 4 + block.len() + behind
                    &&& src.skip(at + 4).take(block.len() as int) == block
                },
                Err(e) => {
                    &&& head.stream_id.id == 0 ==> e == Error::InvalidStreamId
                    &&& head.stream_id.id != 0 && src.len() >= at + 5 ==> e
                        == Error::TooMuchPadding && at + 4 + behind > src.len()
                    &&& head.stream_id.id != 0 && src.len() < at + 5 ==> e
                        == Error::MalformedMessage
                },
            }
        }),
{
    let padded = head.flag / 8 % 2 == 1;
    let at = if padded {
        1int
    } else {
        0
    };
    if let Ok((f, block)) = push_promise_of(head, src) {
        assert(src.skip(at + 4).take(block.len() as int) =~= block);
    }
}

/// A block goes on with what it has: the sizes of the fields that it has count, and once it
/// has one that is no pseudo-header, no pseudo-header may follow. A table size that was
/// allowed meanwhile counts from the start of the block on.
pub proof fn law_blocks_go_on_with_what_they_have(
    d: DecoderView,
    s: Seq<u8>,
    block: BlockView,
    max: usize,
)
    ensures
        ({
            let allowed = match d.pending {
                Some(n) => n,
                None => d.allowed,
            };
            let started = DecoderView { allowed, pending: None, ..d };
            let end = load_block(d, s, block, max);
            &&& end == load_block(started, s, block, max)
            &&& end.decoder.allowed == allowed && end.decoder.pending is None
            &&& end.state.size >= list_size(block.all())
            &&& end.state.block.fields.len() >= block.fields.len()
            &&& end.state.block.fields.take(block.fields.len() as int) == block.fields
            &&& s.len() > 0 && block.fields.len() > 0 && (step_of(started, s, true) matches Ok(step)
                && (step.field matches Some(f) && pseudo_name_of(f.name) is Some))
                ==> end.fault is Some
            &&& s.len() == 0 ==> end.fault is None && end.state.block == block
        }),
{
    let started = DecoderView {
        allowed: match d.pending {
            Some(n) => n,
            None => d.allowed,
        },
        pending: None,
        ..d
    };
    let st = LoadView {
        block,
        regular: block.fields.len() > 0,
        malformed: false,
        size: list_size(block.all()),
    };
    lemma_loading_adds(started, s, true, st, max);
    if let Ok(step) = step_of(started, s, true) {
        if let Some(f) = step.field {
            lemma_loading_adds(
                DecoderView { table: step.table, ..started },
                step.rest,
                false,
                load_field(st, f, max),
                max,
            );
        }
    }
}

proof fn lemma_loading_adds(
    d: DecoderView,
    s: Seq<u8>,
    can_resize: bool,
    st: LoadView,
    max: usize,
)
    ensures
        ({
            let end = load_from(d, s, can_resize, st, max);
            let n = st.block.fields.len() as int;
            &&& end.decoder.allowed == d.allowed && end.decoder.pending == d.pending
            &&& end.state.size >= st.size
            &&& st.malformed ==> end.state.malformed
            &&& end.state.block.fields.len() >= n
            &&& end.state.block.fields.take(n) == st.block.fields
        }),
    decreases s.len(),
{
    let n = st.block.fields.len() as int;
    assert(st.block.fields.take(n) =~= st.block.fields);
    if s.len() > 0 {
        if let Ok(step) = step_of(d, s, can_resize) {
            lemma_step_shrinks(d, s, can_resize);
            let next = match step.field {
                Some(f) => load_field(st, f, max),
                None => st,
            };
            assert(next.block.fields.take(n) =~= st.block.fields);
            let after = DecoderView { table: step.table, ..d };
            let goes_on = can_resize && step.field is None;
            lemma_loading_adds(after, step.rest, goes_on, next, max);
            let end = load_from(after, step.rest, goes_on, next, max);
            let m = next.block.fields.len() as int;
            assert(end.state.block.fields.take(n) =~= end.state.block.fields.take(m).take(n));
        }
    }
}

} // verus!
