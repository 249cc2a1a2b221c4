//! Single frames: what they look like on the wire, and what is refused.

use bytes::{Bytes, BytesMut};
use h2_zero::frame::block::{HeaderBlock, Pseudo};
use h2_zero::frame::control::{GoAway, Ping, Priority, Reset, WindowUpdate};
use h2_zero::frame::data::Data;
use h2_zero::frame::headers::{Headers, HeadersFlag, PushPromise};
use h2_zero::frame::settings::Settings;
use h2_zero::frame::{Error, Head, Kind, Reason, StreamId};
use h2_zero::hpack::decoder::Decoder;
use h2_zero::hpack::field::Field;
use h2_zero::hpack::{DecoderError, Encoder, NeedMore};

fn head(kind: Kind, flag: u8, id: u32) -> Head {
    Head::new(kind, flag, StreamId::new(id))
}

fn settings_payload(list: &[(u16, u32)]) -> Vec<u8> {
    let mut v = Vec::new();
    for (id, value) in list {
        v.extend_from_slice(&id.to_be_bytes());
        v.extend_from_slice(&value.to_be_bytes());
    }
    v
}

fn block_of(src: &[u8], max: usize) -> (HeaderBlock, Result<(), Error>, usize) {
    let mut decoder = Decoder::new(4096);
    let mut block = HeaderBlock::empty();
    let mut buf = BytesMut::from(src);
    let r = block.load(&mut buf, max, &mut decoder);
    (block, r, buf.len())
}

fn literal(name: &str, value: &str) -> Vec<u8> {
    let mut v = vec![0, name.len() as u8];
    v.extend_from_slice(name.as_bytes());
    v.push(value.len() as u8);
    v.extend_from_slice(value.as_bytes());
    v
}

#[test]
fn heads() {
    let bytes = [0, 1, 2, 4, 1, 0x80, 0, 0, 5];
    let h = Head::parse(&bytes);
    assert_eq!(h, head(Kind::Settings, 1, 5));
    let mut dst = BytesMut::new();
    head(Kind::Ping, 1, 0).encode(8, &mut dst);
    assert_eq!(&dst[..], [0, 0, 8, 6, 1, 0, 0, 0, 0]);
    let kinds = [
        Kind::Data,
        Kind::Headers,
        Kind::Priority,
        Kind::Reset,
        Kind::Settings,
        Kind::PushPromise,
        Kind::Ping,
        Kind::GoAway,
        Kind::WindowUpdate,
        Kind::Continuation,
    ];
    for (byte, kind) in kinds.iter().enumerate() {
        assert_eq!(Kind::new(byte as u8), *kind);
        assert_eq!(kind.byte(), byte as u8);
    }
    assert_eq!(Kind::new(10), Kind::Unknown);
}

#[test]
fn stream_numbers() {
    assert_eq!(StreamId::parse(&[0x80, 0, 0, 7], 0), (StreamId::new(7), true));
    assert_eq!(StreamId::parse(&[9, 0, 0, 0, 8], 1), (StreamId::new(8), false));
    assert!(StreamId::new(0).is_zero());
    assert!(!StreamId::new(1).is_zero());
}

#[test]
fn reasons() {
    let codes = [
        (Reason::NO_ERROR, 0),
        (Reason::PROTOCOL_ERROR, 1),
        (Reason::INTERNAL_ERROR, 2),
        (Reason::FLOW_CONTROL_ERROR, 3),
        (Reason::SETTINGS_TIMEOUT, 4),
        (Reason::STREAM_CLOSED, 5),
        (Reason::FRAME_SIZE_ERROR, 6),
        (Reason::REFUSED_STREAM, 7),
        (Reason::CANCEL, 8),
        (Reason::COMPRESSION_ERROR, 9),
        (Reason::CONNECT_ERROR, 10),
        (Reason::ENHANCE_YOUR_CALM, 11),
        (Reason::INADEQUATE_SECURITY, 12),
        (Reason::HTTP_1_1_REQUIRED, 13),
        (Reason::Other(14), 14),
    ];
    for (reason, code) in codes {
        assert_eq!(reason.code(), code);
        assert_eq!(Reason::from_code(code), reason);
    }
}

#[test]
fn settings_on_the_wire() {
    let mut s = Settings::new();
    s.enable_push = Some(0);
    s.initial_window_size = Some(0x0102_0304);
    s.max_frame_size = Some(16_384);
    let mut dst = BytesMut::new();
    s.encode(&mut dst);
    let mut expected = vec![0, 0, 18, 4, 0, 0, 0, 0, 0];
    expected.extend_from_slice(&settings_payload(&[(2, 0), (4, 0x0102_0304), (5, 16_384)]));
    assert_eq!(&dst[..], &expected[..]);
    assert_eq!(Settings::load(head(Kind::Settings, 0, 0), &dst[9..]), Ok(s));

    dst.clear();
    Settings::ack().encode(&mut dst);
    assert_eq!(&dst[..], [0, 0, 0, 4, 1, 0, 0, 0, 0]);
    assert_eq!(
        Settings::load(head(Kind::Settings, 1, 0), &[]),
        Ok(Settings::ack())
    );
}

#[test]
fn settings_of_every_kind() {
    let list = [
        (1, 1),
        (2, 1),
        (3, 3),
        (4, 0x7fff_ffff),
        (5, 0xff_ffff),
        (6, 6),
        (7, 7),
        (8, 1),
        (0x1000, 9),
        (3, 33),
    ];
    let s = Settings::load(head(Kind::Settings, 0, 0), &settings_payload(&list)).unwrap();
    assert_eq!(s.header_table_size, Some(1));
    assert_eq!(s.enable_push, Some(1));
    assert_eq!(s.max_concurrent_streams, Some(33));
    assert_eq!(s.initial_window_size, Some(0x7fff_ffff));
    assert_eq!(s.max_frame_size, Some(0xff_ffff));
    assert_eq!(s.max_header_list_size, Some(6));
    assert_eq!(s.enable_connect_protocol, Some(1));
}

#[test]
fn settings_that_are_refused() {
    for bad in [
        (2, 2),
        (4, 0x8000_0000),
        (5, 16_383),
        (5, 0x100_0000),
        (8, 2),
    ] {
        assert_eq!(
            Settings::load(head(Kind::Settings, 0, 0), &settings_payload(&[bad])),
            Err(Error::InvalidSettingValue)
        );
    }
    assert_eq!(
        Settings::load(head(Kind::Settings, 0, 1), &[]),
        Err(Error::InvalidStreamId)
    );
    assert_eq!(
        Settings::load(head(Kind::Settings, 1, 0), &settings_payload(&[(1, 1)])),
        Err(Error::InvalidPayloadLength)
    );
    assert_eq!(
        Settings::load(head(Kind::Settings, 0, 0), &[0, 1, 0]),
        Err(Error::InvalidPayloadAckSettings)
    );
}

#[test]
fn pings() {
    let ping = Ping {
        ack: false,
        high: 1,
        low: 0x0203_0405,
    };
    let mut dst = BytesMut::new();
    ping.encode(&mut dst);
    assert_eq!(
        &dst[..],
        [0, 0, 8, 6, 0, 0, 0, 0, 0, 0, 0, 0, 1, 2, 3, 4, 5]
    );
    assert_eq!(Ping::load(head(Kind::Ping, 0, 0), &dst[9..]), Ok(ping));
    assert_eq!(
        ping.pong(),
        Ping {
            ack: true,
            high: 1,
            low: 0x0203_0405
        }
    );
    assert_eq!(
        Ping::load(head(Kind::Ping, 0, 0), &dst[10..]),
        Err(Error::BadFrameSize)
    );
    assert_eq!(
        Ping::load(head(Kind::Ping, 0, 1), &dst[9..]),
        Err(Error::InvalidStreamId)
    );
}

#[test]
fn window_updates() {
    let update = WindowUpdate::new(StreamId::new(3), 0x7fff_ffff);
    let mut dst = BytesMut::new();
    update.encode(&mut dst);
    assert_eq!(
        &dst[..],
        [0, 0, 4, 8, 0, 0, 0, 0, 3, 0x7f, 0xff, 0xff, 0xff]
    );
    let h = head(Kind::WindowUpdate, 0, 3);
    assert_eq!(WindowUpdate::load(h, &dst[9..]), Ok(update));
    assert_eq!(
        WindowUpdate::load(h, &[0x80, 0, 0, 0]),
        Err(Error::InvalidWindowUpdateValue)
    );
    assert_eq!(WindowUpdate::load(h, &[0, 0, 1]), Err(Error::BadFrameSize));
}

#[test]
fn resets() {
    let reset = Reset::new(StreamId::new(5), Reason::CANCEL);
    let mut dst = BytesMut::new();
    reset.encode(&mut dst);
    assert_eq!(&dst[..], [0, 0, 4, 3, 0, 0, 0, 0, 5, 0, 0, 0, 8]);
    let h = head(Kind::Reset, 0, 5);
    assert_eq!(Reset::load(h, &dst[9..]), Ok(reset));
    assert_eq!(Reset::load(h, &[0]), Err(Error::InvalidPayloadLength));
}

#[test]
fn priorities() {
    let h = head(Kind::Priority, 0, 5);
    let p = Priority::load(h, &[0x80, 0, 0, 3, 16]).unwrap();
    assert_eq!(p.stream_id, StreamId::new(5));
    assert_eq!(p.dependency.dependency_id, StreamId::new(3));
    assert_eq!(p.dependency.weight, 16);
    assert!(p.dependency.is_exclusive);
    assert_eq!(
        Priority::load(h, &[0, 0, 0, 5, 16]),
        Err(Error::InvalidDependencyId)
    );
    assert_eq!(
        Priority::load(h, &[0, 0, 0, 3]),
        Err(Error::InvalidPayloadLength)
    );
}

#[test]
fn go_aways() {
    let g = GoAway::with_debug_data(
        StreamId::new(7),
        Reason::ENHANCE_YOUR_CALM,
        Bytes::from_static(b"calm"),
    );
    let mut dst = BytesMut::new();
    g.encode(&mut dst);
    assert_eq!(
        &dst[..],
        [0, 0, 12, 7, 0, 0, 0, 0, 0, 0, 0, 0, 7, 0, 0, 0, 11, b'c', b'a', b'l', b'm']
    );
    let back = GoAway::load(&dst[9..]).unwrap();
    assert_eq!(back.last_stream_id, StreamId::new(7));
    assert_eq!(back.error_code, Reason::ENHANCE_YOUR_CALM);
    assert_eq!(&back.debug_data[..], b"calm");
    assert!(GoAway::new(StreamId::new(1), Reason::NO_ERROR)
        .debug_data
        .is_empty());
    assert_eq!(GoAway::load(&dst[14..]).err(), Some(Error::BadFrameSize));
}

#[test]
fn data_frames() {
    let mut d = Data::new(StreamId::new(1), Bytes::from_static(b"abc"));
    d.end_stream = true;
    assert_eq!(d.head(), head(Kind::Data, 1, 1));
    let mut dst = BytesMut::new();
    d.encode_chunk(&mut dst);
    assert_eq!(&dst[..], [0, 0, 3, 0, 1, 0, 0, 0, 1, b'a', b'b', b'c']);

    let back = Data::load(head(Kind::Data, 1, 1), Bytes::from_static(b"abc")).unwrap();
    assert_eq!(&back.data[..], b"abc");
    assert!(back.end_stream);
    assert_eq!(back.pad_len, None);

    let padded = Data::load(head(Kind::Data, 8, 1), Bytes::from_static(b"\x02abc\0\0")).unwrap();
    assert_eq!(&padded.data[..], b"abc");
    assert!(!padded.end_stream);
    assert_eq!(padded.pad_len, Some(2));
    let only = Data::load(head(Kind::Data, 8, 1), Bytes::from_static(b"\x02\0\0")).unwrap();
    assert!(only.data.is_empty());
}

#[test]
fn data_that_is_refused() {
    assert_eq!(
        Data::load(head(Kind::Data, 0, 0), Bytes::new()).err(),
        Some(Error::InvalidStreamId)
    );
    assert_eq!(
        Data::load(head(Kind::Data, 8, 1), Bytes::new()).err(),
        Some(Error::TooMuchPadding)
    );
    assert_eq!(
        Data::load(head(Kind::Data, 8, 1), Bytes::from_static(b"\x03ab")).err(),
        Some(Error::TooMuchPadding)
    );
}

#[test]
fn headers_with_padding_and_priority() {
    let src = BytesMut::from(&b"\x02\x80\0\0\x03\x10\x82\0\0"[..]);
    let (h, rest) = Headers::load(head(Kind::Headers, 0x2d, 5), src).unwrap();
    assert_eq!(&rest[..], [0x82]);
    assert_eq!(
        h.flags,
        HeadersFlag {
            end_stream: true,
            end_headers: true,
            padded: true,
            priority: true
        }
    );
    assert_eq!(h.flags.byte(), 0x2d);
    let dep = h.stream_dep.unwrap();
    assert_eq!(dep.dependency_id, StreamId::new(3));
    assert!(dep.is_exclusive);
    assert_eq!(dep.weight, 16);
}

#[test]
fn headers_that_are_refused() {
    let cases: [(u8, u32, &[u8], Error); 6] = [
        (0, 0, b"", Error::InvalidStreamId),
        (8, 1, b"", Error::MalformedMessage),
        (0x20, 1, b"\0\0\0\x03", Error::MalformedMessage),
        (0x20, 1, b"\0\0\0\x01\x10", Error::InvalidDependencyId),
        (8, 1, b"\x02a", Error::TooMuchPadding),
        (0x28, 1, b"\x01\0\0\0\x03\x10", Error::TooMuchPadding),
    ];
    for (flag, id, src, fault) in cases {
        assert_eq!(
            Headers::load(head(Kind::Headers, flag, id), BytesMut::from(src)).err(),
            Some(fault)
        );
    }
}

#[test]
fn push_promises() {
    let src = BytesMut::from(&b"\x01\x80\0\0\x04\x82\0"[..]);
    let (p, rest) = PushPromise::load(head(Kind::PushPromise, 0x0c, 1), src).unwrap();
    assert_eq!(p.promised_id, StreamId::new(4));
    assert_eq!(&rest[..], [0x82]);
    let cases: [(u8, u32, &[u8], Error); 4] = [
        (0, 0, b"\0\0\0\x02\x82", Error::InvalidStreamId),
        (8, 1, b"", Error::MalformedMessage),
        (0, 1, b"\0\0\0\x02", Error::MalformedMessage),
        (8, 1, b"\x09\0\0\0\x02\x82", Error::TooMuchPadding),
    ];
    for (flag, id, src, fault) in cases {
        assert_eq!(
            PushPromise::load(head(Kind::PushPromise, flag, id), BytesMut::from(src)).err(),
            Some(fault)
        );
    }
}

#[test]
fn headers_split_over_frames() {
    let block = HeaderBlock {
        pseudo: Pseudo::empty(),
        fields: vec![Field::copied(b"ab", b"0123456789")],
        is_over_size: false,
    };
    let mut encoder = Encoder::new();
    let mut dst = BytesMut::new();
    let next = Headers::new(StreamId::new(1), block, true)
        .encode(&mut encoder, 6, &mut dst)
        .expect("more to come");
    assert_eq!(&dst[..], b"\0\0\x06\x01\x01\0\0\0\x01\0\x02ab\x0a0");
    dst.clear();
    let next = next.encode(6, &mut dst).expect("still more to come");
    assert_eq!(&dst[..], b"\0\0\x06\x09\0\0\0\0\x01123456");
    dst.clear();
    assert!(next.encode(6, &mut dst).is_none());
    assert_eq!(&dst[..], b"\0\0\x03\x09\x04\0\0\0\x01789");
}

#[test]
fn header_blocks() {
    let mut src = vec![0x82, 0x84, 0x87];
    src.extend(literal(":authority", "example.com"));
    src.extend(literal("te", "trailers"));
    src.extend(literal("x", "y"));
    let (block, r, left) = block_of(&src, 1000);
    assert_eq!(r, Ok(()));
    assert_eq!(left, 0);
    assert!(!block.is_over_size);
    assert_eq!(block.pseudo.method.as_deref(), Some(&b"GET"[..]));
    assert_eq!(block.pseudo.path.as_deref(), Some(&b"/"[..]));
    assert_eq!(block.pseudo.scheme.as_deref(), Some(&b"https"[..]));
    assert_eq!(block.pseudo.authority.as_deref(), Some(&b"example.com"[..]));
    assert_eq!(block.fields.len(), 2);
    assert_eq!(block.fields[1].name, b"x");
}

#[test]
fn header_blocks_that_make_no_message() {
    let cases: Vec<Vec<Vec<u8>>> = vec![
        vec![literal("connection", "close")],
        vec![literal("transfer-encoding", "chunked")],
        vec![literal("upgrade", "h2c")],
        vec![literal("keep-alive", "1")],
        vec![literal("proxy-connection", "x")],
        vec![literal("te", "gzip")],
        // The same pseudo-header twice.
        vec![vec![0x82], vec![0x83]],
        // A pseudo-header behind a field.
        vec![literal("a", "b"), vec![0x82]],
    ];
    for parts in cases {
        let (_, r, _) = block_of(&parts.concat(), 1000);
        assert_eq!(r, Err(Error::MalformedMessage), "{:?}", parts);
    }
}

#[test]
fn header_blocks_that_are_too_large() {
    // Each field counts 34 octets.
    let two = [literal("a", "b"), literal("c", "d")].concat();
    let (block, r, _) = block_of(&two, 69);
    assert_eq!(r, Ok(()));
    assert!(!block.is_over_size);
    assert_eq!(block.fields.len(), 2);
    let (block, r, _) = block_of(&two, 68);
    assert_eq!(r, Ok(()));
    assert!(block.is_over_size);
    assert_eq!(block.fields.len(), 1);
    // What is far larger ends the connection.
    let many = literal("a", "b").repeat(2000);
    let (_, r, _) = block_of(&many, 68);
    assert_eq!(r, Err(Error::HeaderListWayTooLarge));
}

#[test]
fn header_blocks_that_stop() {
    let mut src = literal("a", "b");
    src.extend_from_slice(&[0, 5, b'c']);
    let (block, r, left) = block_of(&src, 1000);
    assert_eq!(
        r,
        Err(Error::Hpack(DecoderError::NeedMore(
            NeedMore::StringUnderflow
        )))
    );
    assert_eq!(left, 3);
    assert_eq!(block.fields.len(), 1);
}
