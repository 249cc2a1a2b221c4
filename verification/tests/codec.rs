//! The codec: frames to bytes and bytes to frames.

use bytes::{Bytes, BytesMut};
use h2_zero::codec::error::UserError;
use h2_zero::codec::framed_read::FramedRead;
use h2_zero::codec::framed_write::{has_room, FramedWrite};
use h2_zero::codec::Codec;
use h2_zero::frame::block::{HeaderBlock, Pseudo};
use h2_zero::frame::control::{GoAway, Ping, Reset, WindowUpdate};
use h2_zero::frame::data::Data;
use h2_zero::frame::headers::{Headers, PushPromise};
use h2_zero::frame::settings::Settings;
use h2_zero::frame::{Frame, Reason, StreamId};
use h2_zero::hpack::field::Field;
use h2_zero::proto::{Error, Initiator};

fn frame(kind: u8, flag: u8, id: u32, payload: &[u8]) -> Vec<u8> {
    let mut v = (payload.len() as u32).to_be_bytes()[1..].to_vec();
    v.push(kind);
    v.push(flag);
    v.extend_from_slice(&id.to_be_bytes());
    v.extend_from_slice(payload);
    v
}

fn broken(e: Error, reason: Reason, debug: &[u8]) {
    match e {
        Error::GoAway(data, r, Initiator::Library) => {
            assert_eq!(r, reason);
            assert_eq!(data, debug);
        }
        e => panic!("another error: {:?}", e),
    }
}

fn request_block(value: &str) -> HeaderBlock {
    let mut pseudo = Pseudo::empty();
    pseudo.method = Some(b"GET".to_vec());
    pseudo.path = Some(b"/".to_vec());
    HeaderBlock {
        pseudo,
        fields: vec![Field::copied(b"x", value.as_bytes())],
        is_over_size: false,
    }
}

fn read_one(bytes: &[u8]) -> Result<Option<Frame>, Error> {
    let mut codec = Codec::new();
    codec.recv(bytes);
    codec.next_frame()
}

#[test]
fn frames_one_after_the_other() {
    let mut codec = Codec::new();
    codec.buffer(Frame::Settings(Settings::new())).unwrap();
    let ping = Ping {
        ack: true,
        high: 0,
        low: 9,
    };
    codec.buffer(Frame::Ping(ping)).unwrap();
    codec
        .buffer(Frame::Reset(Reset::new(StreamId::new(3), Reason::CANCEL)))
        .unwrap();
    codec
        .buffer(Frame::WindowUpdate(WindowUpdate::new(StreamId::new(0), 5)))
        .unwrap();
    codec
        .buffer(Frame::GoAway(GoAway::new(StreamId::new(1), Reason::NO_ERROR)))
        .unwrap();
    assert!(codec.wants_transmit());
    let expected = [
        frame(4, 0, 0, &[]),
        frame(6, 1, 0, &[0, 0, 0, 0, 0, 0, 0, 9]),
        frame(3, 0, 3, &[0, 0, 0, 8]),
        frame(8, 0, 0, &[0, 0, 0, 5]),
        frame(7, 0, 0, &[0, 0, 0, 1, 0, 0, 0, 0]),
    ]
    .concat();
    let mut out = BytesMut::from(&b"before"[..]);
    assert_eq!(codec.flush_into(&mut out), expected.len());
    assert_eq!(&out[..6], b"before");
    assert_eq!(&out[6..], &expected[..]);
    assert!(!codec.wants_transmit());
    assert!(codec.take_transmit().is_empty());

    let mut reader = Codec::new();
    reader.recv(&expected);
    assert!(matches!(reader.poll_next(), Some(Ok(Frame::Settings(s))) if !s.ack));
    assert!(matches!(reader.poll_next(), Some(Ok(Frame::Ping(p))) if p == ping));
    assert!(
        matches!(reader.poll_next(), Some(Ok(Frame::Reset(r))) if r.error_code == Reason::CANCEL)
    );
    assert!(
        matches!(reader.poll_next(), Some(Ok(Frame::WindowUpdate(w))) if w.size_increment == 5)
    );
    assert!(
        matches!(reader.poll_next(), Some(Ok(Frame::GoAway(g))) if g.last_stream_id.id == 1)
    );
    assert!(reader.poll_next().is_none());
}

#[test]
fn large_and_small_payloads() {
    for len in [0usize, 1, 1000, 1023, 1024, 1025, 5000, 16_384] {
        let mut codec = Codec::new();
        let data = vec![7u8; len];
        let mut d = Data::new(StreamId::new(1), Bytes::from(data.clone()));
        d.end_stream = true;
        codec.buffer(Frame::Data(d)).unwrap();
        codec.flush();
        let last = codec.take_last_data_frame().expect("the frame is written");
        assert!(last.data.is_empty());
        assert!(last.end_stream);
        assert!(codec.take_last_data_frame().is_none());
        assert_eq!(codec.take_transmit()[..], frame(0, 1, 1, &data)[..]);
    }
}

#[test]
fn payload_larger_than_the_peer_accepts() {
    let mut codec = Codec::new();
    let data = Bytes::from(vec![0u8; 16_385]);
    let d = Data::new(StreamId::new(1), data.clone());
    assert_eq!(
        codec.buffer(Frame::Data(d)),
        Err(UserError::PayloadTooBig)
    );
    assert!(!codec.wants_transmit());
    codec.set_max_send_frame_size(16_385);
    assert_eq!(codec.max_send_frame_size(), 16_385);
    let d = Data::new(StreamId::new(1), data);
    assert_eq!(codec.buffer(Frame::Data(d)), Ok(()));
}

#[test]
fn write_side_alone() {
    let mut w = FramedWrite::new();
    assert!(w.has_capacity());
    assert!(!w.has_pending());
    assert_eq!(w.max_frame_size(), 16_384);
    let d = Data::new(StreamId::new(1), Bytes::from(vec![1u8; 2000]));
    w.buffer(Frame::Data(d)).unwrap();
    assert!(w.has_pending());
    // A payload waits behind what is buffered.
    assert!(!w.has_capacity());
    let mut out = BytesMut::new();
    w.flush_into(&mut out);
    assert_eq!(out[..], frame(0, 0, 1, &[1u8; 2000])[..]);
    assert!(!w.has_pending());
}

#[test]
fn poll_ready_makes_room() {
    let mut codec = Codec::new();
    let d = Data::new(StreamId::new(1), Bytes::from(vec![1u8; 2000]));
    codec.buffer(Frame::Data(d)).unwrap();
    assert!(!codec.has_capacity());
    codec.poll_ready();
    codec.buffer(Frame::Settings(Settings::ack())).unwrap();
    codec.shutdown();
    let expected = [frame(0, 0, 1, &[1u8; 2000]), frame(4, 1, 0, &[])].concat();
    assert_eq!(codec.take_transmit()[..], expected[..]);
}

#[test]
fn chunks_make_no_difference() {
    let bytes = [
        frame(4, 0, 0, &[0, 3, 0, 0, 0, 7]),
        frame(0, 0, 1, b"hello"),
    ]
    .concat();
    for size in 1..bytes.len() {
        let mut reader = FramedRead::new();
        let mut frames = Vec::new();
        for chunk in bytes.chunks(size) {
            reader.recv(chunk);
            while let Some(f) = reader.next_frame().unwrap() {
                frames.push(f);
            }
        }
        assert_eq!(frames.len(), 2);
        assert!(
            matches!(&frames[0], Frame::Settings(s) if s.max_concurrent_streams == Some(7))
        );
        assert!(matches!(&frames[1], Frame::Data(d) if &d.data[..] == b"hello"));
    }
}

#[test]
fn oversized_frame() {
    let mut codec = Codec::new();
    assert_eq!(codec.max_recv_frame_size(), 16_384);
    codec.recv(&[0, 0x40, 1, 0, 0, 0, 0, 0, 1]);
    broken(
        codec.next_frame().unwrap_err(),
        Reason::FRAME_SIZE_ERROR,
        b"",
    );
    // With a larger limit the frame is awaited.
    let mut codec = Codec::with_max_recv_frame_size(16_385);
    codec.recv(&[0, 0x40, 1, 0, 0, 0, 0, 0, 1]);
    assert!(codec.next_frame().unwrap().is_none());
    codec.recv(&[0u8; 16_385]);
    assert!(matches!(codec.next_frame(), Ok(Some(Frame::Data(d))) if d.data.len() == 16_385));
    let mut codec = Codec::new();
    codec.set_max_recv_frame_size(20_000);
    assert_eq!(codec.max_recv_frame_size(), 20_000);
}

#[test]
fn frame_in_process_under_a_lower_limit() {
    let mut codec = Codec::with_max_recv_frame_size(32_768);
    codec.recv(&[0, 0x4e, 0x20, 0, 0, 0, 0, 0, 1]);
    assert!(codec.next_frame().unwrap().is_none());
    codec.set_max_recv_frame_size(16_384);
    assert!(codec.next_frame().unwrap().is_none());
    codec.recv(&[0u8; 20_000]);
    match codec.next_frame() {
        Ok(Some(Frame::Data(d))) => {
            assert_eq!(d.stream_id, StreamId::new(1));
            assert_eq!(d.data[..], [0u8; 20_000][..]);
        }
        f => panic!("another frame: {:?}", f),
    }
    // The next one is held to the new limit.
    codec.recv(&[0, 0x4e, 0x20, 0, 0, 0, 0, 0, 1]);
    broken(
        codec.next_frame().unwrap_err(),
        Reason::FRAME_SIZE_ERROR,
        b"",
    );
    // One that nobody has looked at is, too.
    let mut codec = Codec::with_max_recv_frame_size(32_768);
    codec.recv(&[0, 0x4e, 0x20, 0, 0, 0, 0, 0, 1]);
    codec.set_max_recv_frame_size(16_384);
    assert!(codec.next_frame().is_err());
}

#[test]
fn room_for_a_frame() {
    assert!(has_room(true, 1033, 0));
    assert!(has_room(true, 2000, 967));
    assert!(!has_room(true, 2000, 968));
    assert!(!has_room(false, 2000, 0));
}

#[test]
fn unknown_frames_are_passed_over() {
    assert!(!Codec::default().wants_transmit());
    let bytes = [frame(0xfa, 1, 3, b"what"), frame(6, 0, 0, &[0; 8])].concat();
    assert!(matches!(read_one(&bytes), Ok(Some(Frame::Ping(_)))));
}

#[test]
fn frames_that_break_the_connection() {
    let cases = [
        frame(4, 0, 1, &[]),
        frame(6, 0, 0, &[0; 7]),
        frame(8, 0, 1, &[0; 4]),
        frame(0, 0, 0, b"x"),
        frame(3, 0, 1, &[0; 5]),
        frame(7, 0, 0, &[0; 4]),
        frame(2, 0, 0, &[0, 0, 0, 3, 1]),
        frame(2, 0, 1, &[0; 4]),
        frame(1, 4, 0, &[0x82]),
        frame(5, 4, 1, &[0, 0, 0]),
        frame(9, 4, 1, &[]),
        // A header block that points past the tables, and one that stops.
        frame(1, 4, 1, &[0xff, 0xff]),
        frame(1, 4, 1, &[0]),
    ];
    for bytes in cases {
        broken(read_one(&bytes).unwrap_err(), Reason::PROTOCOL_ERROR, b"");
    }
}

#[test]
fn frames_that_break_a_stream() {
    let cases = [
        // A stream that depends on itself, in both kinds of frames that can say
        // so, and a header that speaks of the connection.
        frame(2, 0, 3, &[0, 0, 0, 3, 1]),
        frame(1, 0x24, 3, &[0, 0, 0, 3, 1, 0x82]),
        frame(1, 4, 3, b"\x00\x07upgrade\x00"),
    ];
    for bytes in cases {
        match read_one(&bytes).unwrap_err() {
            Error::Reset(id, reason, Initiator::Library) => {
                assert_eq!(id, StreamId::new(3));
                assert_eq!(reason, Reason::PROTOCOL_ERROR);
            }
            e => panic!("another error: {:?}", e),
        }
    }
}

#[test]
fn header_block_in_many_frames() {
    let mut writer = Codec::new();
    let value = "v".repeat(40_000);
    let headers = Headers::new(StreamId::new(1), request_block(&value), true);
    writer.buffer(Frame::Headers(headers)).unwrap();
    let bytes = writer.take_transmit();
    // Three frames, of which the last ends the block.
    assert_eq!(bytes[3..5], [1, 1]);
    assert_eq!(bytes[9 + 16_384 + 3..][..2], [9, 0]);
    assert_eq!(bytes[2 * (9 + 16_384) + 3..][..2], [9, 4]);
    for size in [1000usize, 16_393, 50_000] {
        let mut reader = Codec::new();
        let mut read = None;
        for chunk in bytes.chunks(size) {
            reader.recv(chunk);
            if let Some(f) = reader.next_frame().unwrap() {
                read = Some(f);
            }
        }
        match read {
            Some(Frame::Headers(h)) => {
                assert!(h.flags.end_stream);
                assert!(h.flags.end_headers);
                assert_eq!(h.stream_id, StreamId::new(1));
                assert_eq!(h.header_block.pseudo.method.as_deref(), Some(&b"GET"[..]));
                assert_eq!(h.header_block.fields.len(), 1);
                assert_eq!(h.header_block.fields[0].value, value.as_bytes());
            }
            f => panic!("another frame: {:?}", f),
        }
    }
}

#[test]
fn push_promise_in_many_frames() {
    let mut writer = Codec::new();
    let value = "v".repeat(20_000);
    let push = PushPromise::new(StreamId::new(1), StreamId::new(2), request_block(&value));
    writer.buffer(Frame::PushPromise(push)).unwrap();
    let bytes = writer.take_transmit();
    assert_eq!(bytes[..13], [0, 0x40, 0, 5, 0, 0, 0, 0, 1, 0, 0, 0, 2]);
    let mut reader = Codec::new();
    reader.recv(&bytes);
    match reader.next_frame() {
        Ok(Some(Frame::PushPromise(p))) => {
            assert_eq!(p.promised_id, StreamId::new(2));
            assert_eq!(p.header_block.fields[0].value, value.as_bytes());
        }
        f => panic!("another frame: {:?}", f),
    }
}

#[test]
fn block_cut_anywhere() {
    // Indexed fields, a Huffman code, and a field that goes into the table.
    let mut block = vec![0x20, 0x3f, 0xe1, 0x1f, 0x82, 0x87, 0x84, 0x41, 0x8c];
    block.extend_from_slice(&[
        0xf1, 0xe3, 0xc2, 0xe5, 0xf2, 0x3a, 0x6b, 0xa0, 0xab, 0x90, 0xf4, 0xff,
    ]);
    block.extend_from_slice(b"\x40\x01a\x02bc\xbe");
    let whole = read_one(&frame(1, 5, 1, &block)).unwrap().unwrap();
    for i in 0..=block.len() {
        for j in i..=block.len() {
            let bytes = [
                frame(1, 1, 1, &block[..i]),
                frame(9, 0, 1, &block[i..j]),
                frame(9, 4, 1, &block[j..]),
            ]
            .concat();
            let cut = read_one(&bytes).unwrap().unwrap();
            assert_eq!(format!("{:?}", cut), format!("{:?}", whole));
        }
    }
    match whole {
        Frame::Headers(h) => {
            assert_eq!(
                h.header_block.pseudo.authority.as_deref(),
                Some(&b"www.example.com"[..])
            );
            assert_eq!(h.header_block.fields.len(), 2);
        }
        f => panic!("another frame: {:?}", f),
    }
}

#[test]
fn nothing_between_the_parts_of_a_block() {
    let bytes = [frame(1, 0, 1, &[0x82]), frame(6, 0, 0, &[0; 8])].concat();
    broken(read_one(&bytes).unwrap_err(), Reason::PROTOCOL_ERROR, b"");
    let bytes = [frame(1, 0, 1, &[0x82]), frame(9, 4, 3, &[])].concat();
    broken(read_one(&bytes).unwrap_err(), Reason::PROTOCOL_ERROR, b"");
}

#[test]
fn too_many_parts_of_a_block() {
    // A small header list leaves room for five CONTINUATION frames that do not
    // end the block.
    let mut codec = Codec::new();
    codec.set_max_recv_header_list_size(16_384);
    codec.recv(&frame(1, 0, 1, &[0x82]));
    for _ in 0..5 {
        codec.recv(&frame(9, 0, 1, &[]));
    }
    assert!(codec.next_frame().unwrap().is_none());
    codec.recv(&frame(9, 0, 1, &[]));
    broken(
        codec.next_frame().unwrap_err(),
        Reason::ENHANCE_YOUR_CALM,
        b"too_many_continuations",
    );
}

#[test]
fn header_list_that_nobody_puts_up_with() {
    let mut codec = Codec::new();
    codec.set_max_recv_header_list_size(100);
    let block = b"\x00\x01a\x01b".repeat(3000);
    codec.recv(&frame(1, 4, 1, &block));
    broken(
        codec.next_frame().unwrap_err(),
        Reason::ENHANCE_YOUR_CALM,
        b"header_list_way_too_large",
    );
}

#[test]
fn block_over_size_goes_on() {
    // The list is over its size, and what is left of the block together with the
    // next part is larger than the list may be.
    let mut codec = Codec::new();
    codec.set_max_recv_header_list_size(40);
    let mut part = b"\x00\x01a\x01b".repeat(2);
    part.extend_from_slice(&[0, 100, b'x']);
    codec.recv(&frame(1, 0, 1, &part));
    codec.recv(&frame(9, 0, 1, &[b'x'; 40]));
    broken(
        codec.next_frame().unwrap_err(),
        Reason::COMPRESSION_ERROR,
        b"",
    );
}

#[test]
fn header_table_sizes() {
    let mut writer = Codec::new();
    writer.set_send_header_table_size(0);
    let headers = Headers::new(StreamId::new(1), request_block("a"), false);
    writer.buffer(Frame::Headers(headers)).unwrap();
    let bytes = writer.take_transmit();
    assert_eq!(bytes[9], 0x20);
    assert!(matches!(read_one(&bytes), Ok(Some(Frame::Headers(_)))));

    // A table of 5000 octets has to be allowed first.
    let update = frame(1, 4, 1, &[0x3f, 0xe9, 0x26, 0x82]);
    broken(read_one(&update).unwrap_err(), Reason::PROTOCOL_ERROR, b"");
    let mut reader = Codec::new();
    reader.set_recv_header_table_size(5000);
    reader.recv(&update);
    assert!(matches!(reader.next_frame(), Ok(Some(Frame::Headers(_)))));
}

#[test]
fn read_side_alone() {
    let mut r = FramedRead::default();
    assert_eq!(r.max_frame_size(), 16_384);
    r.set_max_frame_size(30_000);
    assert_eq!(r.max_frame_size(), 30_000);
    r.set_max_header_list_size(50);
    r.set_header_table_size(100);
    r.recv(&frame(1, 4, 1, &[0x82, 0x84]));
    match r.next_frame() {
        Ok(Some(Frame::Headers(h))) => {
            assert!(h.header_block.is_over_size);
            assert!(h.header_block.pseudo.path.is_none());
        }
        f => panic!("another frame: {:?}", f),
    }
}
