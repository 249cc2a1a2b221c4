//! Connections over many calls: what stays in order whatever is done with them.

use bytes::{Bytes, BytesMut};
use h2_zero::codec::error::UserError;
use h2_zero::codec::{Codec, FramedWrite};
use h2_zero::error::Error;
use h2_zero::frame::{Data, Frame, Ping, Reason};
use h2_zero::hpack::field::Field;
use h2_zero::message::{Request, Response, Uri, Version};
use h2_zero::share::StreamId;
use h2_zero::{client, frame, server};

const PREFACE: &[u8] = b"PRI * HTTP/2.0\r\n\r\nSM\r\n\r\n";

fn wire(kind: u8, flag: u8, id: u32, payload: &[u8]) -> Vec<u8> {
    let mut v = (payload.len() as u32).to_be_bytes()[1..].to_vec();
    v.push(kind);
    v.push(flag);
    v.extend_from_slice(&id.to_be_bytes());
    v.extend_from_slice(payload);
    v
}

/// The kinds and the streams of the frames in `bytes`, which are whole.
fn kinds(bytes: &[u8]) -> Vec<(u8, u32)> {
    let mut at = 0;
    let mut list = Vec::new();
    while at < bytes.len() {
        let len = u32::from_be_bytes([0, bytes[at], bytes[at + 1], bytes[at + 2]]) as usize;
        let id = u32::from_be_bytes([bytes[at + 5], bytes[at + 6], bytes[at + 7], bytes[at + 8]]);
        list.push((bytes[at + 3], id));
        at += 9 + len;
    }
    assert_eq!(at, bytes.len());
    list
}

fn get(path: &str) -> Request {
    Request {
        method: b"GET".to_vec(),
        uri: Uri {
            scheme: Some(b"https".to_vec()),
            authority: Some(b"example.com".to_vec()),
            path_and_query: Some(path.as_bytes().to_vec()),
        },
        version: Version::HTTP_2,
        protocol: None,
        headers: vec![],
    }
}

fn ok() -> Response {
    Response {
        status: 200,
        version: Version::HTTP_2,
        headers: vec![],
    }
}

fn sent(c: &mut client::Connection) -> Vec<u8> {
    let mut out = BytesMut::new();
    c.poll_transmit(&mut out);
    out.to_vec()
}

fn answer(s: &mut server::Connection) -> Vec<u8> {
    let mut out = BytesMut::new();
    s.poll_transmit(&mut out);
    out.to_vec()
}

/// A client and a server, and all bytes that each of them has handed out.
struct Line {
    client: client::Connection,
    server: server::Connection,
    up: Vec<u8>,
    down: Vec<u8>,
}

impl Line {
    fn new() -> Line {
        let mut line = Line {
            client: client::handshake(),
            server: server::handshake(),
            up: vec![],
            down: vec![],
        };
        line.run();
        line
    }

    fn run(&mut self) {
        loop {
            let up = sent(&mut self.client);
            self.server.recv(&up).unwrap();
            let down = answer(&mut self.server);
            self.client.recv(&down).unwrap();
            if up.is_empty() && down.is_empty() {
                break;
            }
            self.up.extend_from_slice(&up);
            self.down.extend_from_slice(&down);
        }
    }

    fn requests(&mut self) -> Vec<StreamId> {
        let mut list = Vec::new();
        while let Some(e) = self.server.poll_event() {
            if let server::Event::Request { stream_id, .. } = e {
                list.push(stream_id);
            }
        }
        list
    }
}

#[test]
fn all_output_is_preface_and_whole_frames() {
    let mut line = Line::new();
    let (_, mut body) = line.client.send_request(get("/"), false).unwrap();
    line.run();
    body.send_data(&mut line.client, Bytes::from_static(b"abc"), false)
        .unwrap();
    line.run();
    let ids = line.requests();
    line.server.send_response(ids[0], ok(), false).unwrap();
    line.server
        .send_data(ids[0], Bytes::from(vec![7; 40_000]), true)
        .unwrap();
    line.run();
    body.send_reset(&mut line.client, Reason::CANCEL);
    line.client.go_away(Reason::NO_ERROR);
    line.run();
    assert!(line.up.starts_with(PREFACE));
    let up = kinds(&line.up[24..]);
    assert_eq!(up[0], (4, 0));
    assert!(up.contains(&(1, 1)) && up.contains(&(0, 1)) && up.contains(&(3, 1)));
    assert!(up.contains(&(7, 0)));
    let down = kinds(&line.down);
    assert_eq!(down[0], (4, 0));
    assert_eq!(down.iter().filter(|f| **f == (0, 1)).count(), 3);
}

#[test]
fn events_of_two_streams_in_turn() {
    let mut line = Line::new();
    line.client.send_request(get("/a"), true).unwrap();
    line.client.send_request(get("/b"), true).unwrap();
    line.run();
    let ids = line.requests();
    assert_eq!(ids.len(), 2);
    let mut seen = [String::new(), String::new()];
    for round in 0..3 {
        for id in ids.iter() {
            match round {
                0 => line.server.send_response(*id, ok(), false).unwrap(),
                1 => line
                    .server
                    .send_data(*id, Bytes::from_static(b"x"), false)
                    .unwrap(),
                _ => line.server.send_trailers(*id, vec![]).unwrap(),
            }
        }
        line.run();
        while let Some(e) = line.client.poll_event() {
            let (id, what) = match e {
                client::Event::Response { stream_id, .. } => (stream_id, 'r'),
                client::Event::Data { stream_id, .. } => (stream_id, 'd'),
                client::Event::Trailers { stream_id, .. } => (stream_id, 't'),
                client::Event::StreamEnd { stream_id } => (stream_id, 'e'),
                client::Event::Reset { stream_id, .. } => (stream_id, 'x'),
                client::Event::GoAway => panic!("the connection goes on"),
            };
            seen[(id.as_u32() / 2) as usize].push(what);
        }
    }
    assert_eq!(seen, ["rdt", "rdt"]);
    assert!(line.client.poll_event().is_none());
}

#[test]
fn events_of_a_request_over_many_calls() {
    let mut line = Line::new();
    let (_, mut body) = line.client.send_request(get("/"), false).unwrap();
    let mut seen = String::new();
    for round in 0..4 {
        match round {
            0 => {}
            1 | 2 => body
                .send_data(&mut line.client, Bytes::from_static(b"x"), false)
                .unwrap(),
            _ => body.send_reset(&mut line.client, Reason::CANCEL),
        }
        line.run();
        while let Some(e) = line.server.poll_event() {
            seen.push(match e {
                server::Event::Request { .. } => 'q',
                server::Event::Data { .. } => 'd',
                server::Event::Trailers { .. } => 't',
                server::Event::StreamEnd { .. } => 'e',
                server::Event::Reset { .. } => 'x',
                server::Event::GoAway => 'g',
            });
        }
    }
    assert_eq!(seen, "qddx");
}

#[test]
fn identifiers_are_odd_and_in_order() {
    let mut line = Line::new();
    let mut ids = Vec::new();
    for _ in 0..4 {
        ids.push(line.client.send_request(get("/"), true).unwrap().0.as_u32());
        line.run();
        while line.client.poll_event().is_some() {}
    }
    assert_eq!(ids, [1, 3, 5, 7]);
}

#[test]
fn nothing_is_sent_behind_the_end() {
    let refused = |r: Result<(), Error>| {
        matches!(
            r,
            Err(Error::User(
                UserError::InactiveStreamId | UserError::UnexpectedFrameType
            ))
        )
    };
    let mut line = Line::new();
    let (_, mut one) = line.client.send_request(get("/"), true).unwrap();
    let (_, mut two) = line.client.send_request(get("/"), false).unwrap();
    let (_, mut three) = line.client.send_request(get("/"), false).unwrap();
    two.send_data(&mut line.client, Bytes::from_static(b"x"), true)
        .unwrap();
    three
        .send_trailers(&mut line.client, vec![Field::copied(b"a", b"b")])
        .unwrap();
    for round in 0..2 {
        if round == 1 {
            line.run();
            for id in line.requests() {
                line.server.send_response(id, ok(), true).unwrap();
                assert!(refused(line.server.send_data(
                    id,
                    Bytes::from_static(b"y"),
                    true
                )));
                assert!(refused(line.server.send_trailers(id, vec![])));
            }
            line.run();
            while line.client.poll_event().is_some() {}
        }
        let before = line.up.len();
        for s in [&mut one, &mut two, &mut three] {
            assert!(refused(s.send_data(
                &mut line.client,
                Bytes::from_static(b"y"),
                false
            )));
            assert!(refused(s.send_trailers(&mut line.client, vec![])));
        }
        if round == 1 {
            line.run();
            assert_eq!(line.up.len(), before);
        }
    }
}

#[test]
fn reset_is_in_the_next_bytes() {
    let mut line = Line::new();
    let (id, mut body) = line.client.send_request(get("/"), false).unwrap();
    line.run();
    body.send_reset(&mut line.client, Reason::CANCEL);
    let bytes = sent(&mut line.client);
    assert_eq!(bytes, wire(3, 0, id.as_u32(), &[0, 0, 0, 8]));

    let mut line = Line::new();
    line.client.send_request(get("/"), true).unwrap();
    line.run();
    let ids = line.requests();
    line.server.reset_stream(ids[0], Reason::REFUSED_STREAM);
    let bytes = answer(&mut line.server);
    assert_eq!(bytes, wire(3, 0, 1, &[0, 0, 0, 7]));
}

#[test]
fn errors_on_streams_that_are_not_open_yet() {
    // A client is still to open stream 5 itself, and can do so after that.
    let mut c = client::handshake();
    sent(&mut c);
    c.recv(&wire(4, 0, 0, &[])).unwrap();
    sent(&mut c);
    let self_dependent = wire(2, 0, 5, &[0, 0, 0, 5, 16]);
    c.recv(&self_dependent).unwrap();
    assert_eq!(sent(&mut c), wire(3, 0, 5, &[0, 0, 0, 1]));
    for id in [1, 3] {
        assert_eq!(c.send_request(get("/"), true).unwrap().0.as_u32(), id);
    }
    let (id, mut body) = c.send_request(get("/"), false).unwrap();
    assert_eq!(id.as_u32(), 5);
    body.send_data(&mut c, Bytes::from_static(b"x"), true)
        .unwrap();
    let out = sent(&mut c);
    assert!(out.ends_with(&wire(0, 1, 5, b"x")));

    // To a server, the stream has come with the error.
    let mut s = server::handshake();
    s.recv(PREFACE).unwrap();
    s.recv(&wire(4, 0, 0, &[])).unwrap();
    answer(&mut s);
    s.recv(&self_dependent).unwrap();
    assert_eq!(answer(&mut s), wire(3, 0, 5, &[0, 0, 0, 1]));
    assert!(s.recv(&wire(1, 5, 3, &[0x82, 0x84, 0x87])).is_err());
    assert!(s.is_closed());
}

#[test]
fn room_that_a_write_side_is_made_with() {
    let mut w = FramedWrite::new();
    let mut written = 0;
    while 16_384 - written >= 1033 {
        assert!(w.has_capacity());
        w.buffer(Frame::Ping(Ping {
            ack: false,
            high: 1,
            low: 2,
        }))
        .unwrap();
        written += 17;
    }
    let mut out = BytesMut::new();
    w.flush_into(&mut out);
    assert_eq!(out.len(), written);
    assert!(w.has_capacity());

    let mut codec = Codec::new();
    let mut data = Data::new(frame::StreamId::new(1), Bytes::from(vec![0; 5000]));
    data.end_stream = true;
    codec.buffer(Frame::Data(data)).unwrap();
    assert!(!codec.has_capacity());
    codec.poll_ready();
    assert!(codec.has_capacity());
    assert_eq!(codec.take_transmit().len(), 5009);
    assert!(codec.has_capacity());
}

#[test]
fn taking_bytes_fails_once() {
    let mut c = client::handshake();
    sent(&mut c);
    let mut failed = 0;
    let mut ends = 0;
    for _ in 0..3 {
        // A SETTINGS frame belongs to no stream.
        if c.recv(&wire(4, 0, 1, &[])).is_err() {
            failed += 1;
        }
        sent(&mut c);
        while let Some(e) = c.poll_event() {
            if matches!(e, client::Event::GoAway) {
                ends += 1;
            }
        }
    }
    assert!(c.is_closed());
    assert_eq!((failed, ends), (1, 1));
}

#[test]
fn releasing_gives_up_what_has_not_ended() {
    let mut line = Line::new();
    let (_, one) = line.client.send_request(get("/"), false).unwrap();
    let (_, two) = line.client.send_request(get("/"), true).unwrap();
    line.run();
    one.release(&mut line.client);
    two.release(&mut line.client);
    assert_eq!(sent(&mut line.client), wire(3, 0, 1, &[0, 0, 0, 8]));
}
