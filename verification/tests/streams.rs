//! Flow control, resets, errors and the end of connections.

use bytes::{Bytes, BytesMut};
use h2_zero::codec::error::UserError;
use h2_zero::error::Error;
use h2_zero::frame::Reason;
use h2_zero::hpack::field::Field;
use h2_zero::message::{Request, Response, Uri, Version};
use h2_zero::share::{SendStream, StreamId};
use h2_zero::{client, server};

const PREFACE: &[u8] = b"PRI * HTTP/2.0\r\n\r\nSM\r\n\r\n";

fn frame(kind: u8, flag: u8, id: u32, payload: &[u8]) -> Vec<u8> {
    let mut v = (payload.len() as u32).to_be_bytes()[1..].to_vec();
    v.push(kind);
    v.push(flag);
    v.extend_from_slice(&id.to_be_bytes());
    v.extend_from_slice(payload);
    v
}

/// The frames in `bytes`: kind, flags, stream and payload.
fn frames(bytes: &[u8]) -> Vec<(u8, u8, u32, Vec<u8>)> {
    let mut at = 0;
    let mut list = Vec::new();
    while at < bytes.len() {
        let len = u32::from_be_bytes([0, bytes[at], bytes[at + 1], bytes[at + 2]]) as usize;
        let id = u32::from_be_bytes([bytes[at + 5], bytes[at + 6], bytes[at + 7], bytes[at + 8]]);
        let payload = bytes[at + 9..at + 9 + len].to_vec();
        list.push((bytes[at + 3], bytes[at + 4], id, payload));
        at += 9 + len;
    }
    list
}

fn request(method: &str, path: &str) -> Request {
    Request {
        method: method.as_bytes().to_vec(),
        uri: Uri {
            scheme: Some(b"https".to_vec()),
            authority: Some(b"example.com".to_vec()),
            path_and_query: Some(path.as_bytes().to_vec()),
        },
        version: Version::HTTP_11,
        protocol: None,
        headers: vec![],
    }
}

fn response(status: u16) -> Response {
    Response {
        status,
        version: Version::HTTP_11,
        headers: vec![],
    }
}

fn field(name: &str, value: &str) -> Field {
    Field::copied(name.as_bytes(), value.as_bytes())
}

fn user_error<T>(r: Result<T, Error>) -> UserError {
    match r {
        Err(Error::User(e)) => e,
        Err(e) => panic!("another error: {:?}", e),
        Ok(_) => panic!("no error"),
    }
}

struct Pair {
    client: client::Connection,
    server: server::Connection,
}

impl Pair {
    fn new() -> Pair {
        let mut pair = Pair {
            client: client::handshake(),
            server: server::handshake(),
        };
        pair.settle();
        pair
    }

    /// Moves bytes until neither side has any.
    fn settle(&mut self) {
        loop {
            let mut out = BytesMut::new();
            let mut n = self.client.poll_transmit(&mut out);
            if !out.is_empty() {
                self.server.recv(&out).unwrap();
            }
            let mut back = BytesMut::new();
            n += self.server.poll_transmit(&mut back);
            if !back.is_empty() {
                self.client.recv(&back).unwrap();
            }
            if n == 0 {
                break;
            }
        }
    }

    fn open(&mut self, request: Request, end: bool) -> (StreamId, SendStream) {
        let opened = self.client.send_request(request, end).unwrap();
        self.settle();
        opened
    }

    fn at_server(&mut self) -> Vec<server::Event> {
        let mut list = Vec::new();
        while let Some(e) = self.server.poll_event() {
            list.push(e);
        }
        list
    }

    fn at_client(&mut self) -> Vec<client::Event> {
        let mut list = Vec::new();
        while let Some(e) = self.client.poll_event() {
            list.push(e);
        }
        list
    }
}

fn out_of(c: &mut client::Connection) -> Vec<(u8, u8, u32, Vec<u8>)> {
    let mut out = BytesMut::new();
    c.poll_transmit(&mut out);
    frames(&out)
}

fn sent_by(s: &mut server::Connection) -> Vec<(u8, u8, u32, Vec<u8>)> {
    let mut out = BytesMut::new();
    s.poll_transmit(&mut out);
    frames(&out)
}

/// A client that has got the preface and the settings out.
fn client() -> client::Connection {
    let mut c = client::handshake();
    let mut out = BytesMut::new();
    c.poll_transmit(&mut out);
    c
}

/// A server that has got the preface and its settings out.
fn server() -> server::Connection {
    let mut s = server::handshake();
    s.recv(PREFACE).unwrap();
    sent_by(&mut s);
    s
}

const GET: &[u8] = b"\x82\x84\x87\0\x0a:authority\x01a";

/// A server with a request on stream 1, whose body goes on.
fn server_with_request() -> (server::Connection, StreamId) {
    let mut s = server();
    s.recv(&frame(1, 4, 1, GET)).unwrap();
    match s.poll_event() {
        Some(server::Event::Request { stream_id, .. }) => (s, stream_id),
        e => panic!("another event: {:?}", e),
    }
}

fn body_len(list: &[(u8, u8, u32, Vec<u8>)], id: u32) -> usize {
    list.iter()
        .filter(|f| f.0 == 0 && f.2 == id)
        .map(|f| f.3.len())
        .sum()
}

#[test]
fn large_body_crosses_whole() {
    let mut pair = Pair::new();
    let body: Vec<u8> = (0..300_000u32).map(|n| (n % 251) as u8).collect();
    let (_, mut send) = pair.open(request("POST", "/"), false);
    send.send_data(&mut pair.client, Bytes::from(body.clone()), true)
        .unwrap();
    let mut got = Vec::new();
    let mut ended = false;
    for _ in 0..40 {
        pair.settle();
        for e in pair.at_server() {
            match e {
                server::Event::Data { data, .. } => {
                    assert!(data.len() <= 16_384);
                    got.extend_from_slice(&data);
                }
                server::Event::StreamEnd { .. } => ended = true,
                server::Event::Request { .. } => {}
                e => panic!("another event: {:?}", e),
            }
        }
    }
    assert!(ended);
    assert_eq!(got, body);
}

#[test]
fn no_more_than_the_windows_allow() {
    let mut c = client();
    let (_, mut one) = c.send_request(request("POST", "/"), false).unwrap();
    one.send_data(&mut c, Bytes::from(vec![0u8; 100_000]), true)
        .unwrap();
    let out = out_of(&mut c);
    assert_eq!(body_len(&out, 1), 65_535);
    assert!(out.iter().all(|f| f.0 != 0 || f.1 == 0));
    // Each window alone lets nothing more out.
    c.recv(&frame(8, 0, 1, &[0, 0, 0, 10])).unwrap();
    assert_eq!(body_len(&out_of(&mut c), 1), 0);
    c.recv(&frame(8, 0, 0, &[0, 0, 0, 6])).unwrap();
    assert_eq!(body_len(&out_of(&mut c), 1), 6);
    c.recv(&frame(8, 0, 0, &[0, 1, 0, 0])).unwrap();
    assert_eq!(body_len(&out_of(&mut c), 1), 4);
    c.recv(&frame(8, 0, 1, &[0, 1, 0, 0])).unwrap();
    let rest = out_of(&mut c);
    assert_eq!(body_len(&rest, 1), 100_000 - 65_545);
    assert_eq!(rest.last().unwrap().1, 1);
}

#[test]
fn smaller_windows_from_the_peer() {
    let mut c = client();
    c.recv(&frame(4, 0, 0, &[0, 4, 0, 0, 0, 10])).unwrap();
    let (_, mut one) = c.send_request(request("POST", "/"), false).unwrap();
    one.send_data(&mut c, Bytes::from(vec![0u8; 50]), true)
        .unwrap();
    assert_eq!(body_len(&out_of(&mut c), 1), 10);
    // A window can become negative, and then has to be made up for.
    c.recv(&frame(4, 0, 0, &[0, 4, 0, 0, 0, 4])).unwrap();
    assert_eq!(body_len(&out_of(&mut c), 1), 0);
    c.recv(&frame(8, 0, 1, &[0, 0, 0, 6])).unwrap();
    assert_eq!(body_len(&out_of(&mut c), 1), 0);
    c.recv(&frame(8, 0, 1, &[0, 0, 0, 1])).unwrap();
    assert_eq!(body_len(&out_of(&mut c), 1), 1);
    c.recv(&frame(4, 0, 0, &[0, 4, 0, 0, 0, 14])).unwrap();
    assert_eq!(body_len(&out_of(&mut c), 1), 10);
}

#[test]
fn larger_frames_from_the_peer() {
    let mut c = client();
    c.recv(&frame(4, 0, 0, &[0, 5, 0, 0, 0x50, 0])).unwrap();
    out_of(&mut c);
    let (_, mut one) = c.send_request(request("POST", "/"), false).unwrap();
    one.send_data(&mut c, Bytes::from(vec![0u8; 30_000]), true)
        .unwrap();
    let sizes: Vec<usize> = out_of(&mut c)
        .iter()
        .filter(|f| f.0 == 0)
        .map(|f| f.3.len())
        .collect();
    assert_eq!(sizes, [0x5000, 30_000 - 0x5000]);
}

#[test]
fn capacity_is_reserved() {
    let mut pair = Pair::new();
    let (_, mut one) = pair.open(request("POST", "/"), false);
    let (_, mut two) = pair.open(request("POST", "/"), false);
    assert_eq!(one.capacity(&pair.client), 0);
    one.reserve_capacity(&mut pair.client, 60_000);
    assert_eq!(one.capacity(&pair.client), 60_000);
    two.reserve_capacity(&mut pair.client, 10_000);
    assert_eq!(two.capacity(&pair.client), 5_535);
    // What is not needed any more goes back, and on to those who wait.
    one.reserve_capacity(&mut pair.client, 20_000);
    assert_eq!(one.capacity(&pair.client), 20_000);
    assert_eq!(two.capacity(&pair.client), 10_000);
    // Data that is sent uses it up.
    one.send_data(&mut pair.client, Bytes::from(vec![0u8; 5_000]), false)
        .unwrap();
    assert_eq!(one.capacity(&pair.client), 15_000);
    one.reserve_capacity(&mut pair.client, 0);
    assert_eq!(one.capacity(&pair.client), 0);
}

#[test]
fn more_capacity_than_fits() {
    let mut c = client();
    let (_, mut one) = c.send_request(request("POST", "/"), false).unwrap();
    one.reserve_capacity(&mut c, usize::MAX);
    assert_eq!(one.capacity(&c), 65_535);
    one.reserve_capacity(&mut c, 0x1_0000_0000);
    assert_eq!(one.capacity(&c), 65_535);
}

#[test]
fn capacity_is_bounded_by_the_buffer() {
    let mut c = client::Builder::new().max_send_buffer_size(100).handshake();
    let (_, mut one) = c.send_request(request("POST", "/"), false).unwrap();
    one.reserve_capacity(&mut c, 1_000);
    assert_eq!(one.capacity(&c), 100);
}

#[test]
fn capacity_of_a_response() {
    let (mut s, id) = server_with_request();
    assert_eq!(s.stream_capacity(id), 0);
    s.send_response(id, response(200), false).unwrap();
    s.send_data(id, Bytes::from(vec![0u8; 70_000]), false)
        .unwrap();
    assert_eq!(body_len(&sent_by(&mut s), 1), 65_535);
    assert_eq!(s.stream_capacity(id), 0);
}

#[test]
fn capacity_is_given_back_as_data_is_read() {
    let (mut s, _) = server_with_request();
    for _ in 0..4 {
        s.recv(&frame(0, 0, 1, &[0u8; 10_000])).unwrap();
    }
    assert!(sent_by(&mut s).iter().all(|f| f.0 != 8));
    for _ in 0..4 {
        assert!(matches!(
            s.poll_event(),
            Some(server::Event::Data { data, .. }) if data.len() == 10_000
        ));
    }
    assert_eq!(
        sent_by(&mut s),
        [
            (8, 0, 0, 40_000u32.to_be_bytes().to_vec()),
            (8, 0, 1, 40_000u32.to_be_bytes().to_vec())
        ]
    );
}

#[test]
fn more_than_the_window_of_the_connection() {
    let mut s = server();
    s.recv(&frame(1, 4, 1, GET)).unwrap();
    s.recv(&frame(1, 4, 3, GET)).unwrap();
    for _ in 0..3 {
        s.recv(&frame(0, 0, 1, &[0u8; 16_384])).unwrap();
    }
    let e = s.recv(&frame(0, 0, 3, &[0u8; 16_384])).unwrap_err();
    assert_eq!(e.reason(), Some(Reason::FLOW_CONTROL_ERROR));
    assert!(s.is_closed());
    let out = sent_by(&mut s);
    assert_eq!(out.last().unwrap(), &(7, 0, 0, vec![0, 0, 0, 3, 0, 0, 0, 3]));
}

#[test]
fn more_than_the_window_of_a_stream() {
    let mut s = server::Builder::new().initial_window_size(10).handshake();
    s.recv(PREFACE).unwrap();
    sent_by(&mut s);
    s.recv(&frame(4, 1, 0, &[])).unwrap();
    s.recv(&frame(1, 4, 1, GET)).unwrap();
    s.recv(&frame(0, 0, 1, &[0u8; 11])).unwrap();
    assert!(!s.is_closed());
    assert_eq!(sent_by(&mut s), [(3, 0, 1, vec![0, 0, 0, 3])]);
}

#[test]
fn windows_that_grow_too_large() {
    let mut s = server();
    let e = s
        .recv(&frame(8, 0, 0, &[0x7f, 0xff, 0xff, 0xff]))
        .unwrap_err();
    assert_eq!(e.reason(), Some(Reason::FLOW_CONTROL_ERROR));

    let (mut s, _) = server_with_request();
    s.recv(&frame(8, 0, 1, &[0x7f, 0xff, 0xff, 0xff])).unwrap();
    assert_eq!(sent_by(&mut s), [(3, 0, 1, vec![0, 0, 0, 3])]);

    let (mut s, _) = server_with_request();
    s.recv(&frame(8, 0, 1, &[0x7f, 0xff, 0, 0])).unwrap();
    let e = s
        .recv(&frame(4, 0, 0, &[0, 4, 0x7f, 0xff, 0xff, 0xff]))
        .unwrap_err();
    assert_eq!(e.reason(), Some(Reason::FLOW_CONTROL_ERROR));
}

#[test]
fn reset_by_the_client() {
    let mut pair = Pair::new();
    let (_, mut send) = pair.open(request("POST", "/"), false);
    assert_eq!(pair.at_server().len(), 1);
    send.send_reset(&mut pair.client, Reason::CANCEL);
    pair.settle();
    match &pair.at_server()[..] {
        [server::Event::Reset { stream_id, reason }] => {
            assert_eq!(stream_id.as_u32(), 1);
            assert_eq!(*reason, Reason::CANCEL);
        }
        e => panic!("other events: {:?}", e),
    }
    match &pair.at_client()[..] {
        [client::Event::Reset { reason, .. }] => assert_eq!(*reason, Reason::CANCEL),
        e => panic!("other events: {:?}", e),
    }
    assert!(send
        .send_data(&mut pair.client, Bytes::new(), true)
        .is_err());
}

#[test]
fn reset_by_the_server() {
    let mut pair = Pair::new();
    pair.open(request("POST", "/"), false);
    let id = match pair.at_server().pop() {
        Some(server::Event::Request { stream_id, .. }) => stream_id,
        e => panic!("another event: {:?}", e),
    };
    pair.server.reset_stream(id, Reason::REFUSED_STREAM);
    pair.settle();
    match &pair.at_client()[..] {
        [client::Event::Reset { stream_id, reason }] => {
            assert_eq!(stream_id.as_u32(), 1);
            assert_eq!(*reason, Reason::REFUSED_STREAM);
        }
        e => panic!("other events: {:?}", e),
    }
    // What still comes for the stream is ignored.
    pair.server.recv(&frame(0, 1, 1, b"late")).unwrap();
    assert!(!pair.server.is_closed());
}

#[test]
fn resets_after_the_end_change_nothing() {
    let mut pair = Pair::new();
    let (_, mut send) = pair.open(request("GET", "/"), true);
    let id = match pair.at_server().pop() {
        Some(server::Event::Request { stream_id, .. }) => stream_id,
        e => panic!("another event: {:?}", e),
    };
    pair.server.send_response(id, response(200), true).unwrap();
    pair.settle();
    assert_eq!(pair.at_client().len(), 1);
    send.send_reset(&mut pair.client, Reason::CANCEL);
    assert_eq!(out_of(&mut pair.client), []);
    pair.server.reset_stream(id, Reason::CANCEL);
    assert_eq!(sent_by(&mut pair.server), []);
}

#[test]
fn letting_go_of_a_request() {
    // One that was not ended is given up.
    let mut pair = Pair::new();
    let (_, mut send) = pair.open(request("POST", "/"), false);
    send.send_data(&mut pair.client, Bytes::from_static(b"a"), false)
        .unwrap();
    pair.settle();
    send.release(&mut pair.client);
    assert_eq!(
        out_of(&mut pair.client),
        [(3, 0, 1, vec![0, 0, 0, 8])]
    );
    // One that was ended goes on.
    let (_, mut send) = pair.client.send_request(request("POST", "/"), false).unwrap();
    send.send_data(&mut pair.client, Bytes::from_static(b"a"), true)
        .unwrap();
    send.release(&mut pair.client);
    assert!(out_of(&mut pair.client).iter().all(|f| f.0 != 3));
    let (_, send) = pair.client.send_request(request("GET", "/"), true).unwrap();
    send.release(&mut pair.client);
    assert!(out_of(&mut pair.client).iter().all(|f| f.0 != 3));
}

#[test]
fn resets_are_forgotten_in_time() {
    // Of more than fifty reset streams, the first fifty are remembered.
    let mut s = server();
    s.set_time(5_000);
    for n in 0..51u32 {
        s.recv(&frame(1, 4, 2 * n + 1, GET)).unwrap();
    }
    let mut ids = Vec::new();
    while let Some(server::Event::Request { stream_id, .. }) = s.poll_event() {
        ids.push(stream_id);
    }
    for id in &ids {
        s.reset_stream(*id, Reason::CANCEL);
    }
    while s.poll_event().is_some() {}
    sent_by(&mut s);
    // What comes late for a remembered stream is ignored, for another it is not.
    s.recv(&frame(0, 0, 1, b"x")).unwrap();
    assert_eq!(sent_by(&mut s), []);
    s.recv(&frame(0, 0, 101, b"x")).unwrap();
    assert_eq!(sent_by(&mut s), [(3, 0, 101, vec![0, 0, 0, 5])]);
    // After a second there is room again.
    s.set_time(5_999);
    s.recv(&frame(0, 0, 1, b"x")).unwrap();
    assert_eq!(sent_by(&mut s), []);
    s.set_time(6_000);
    sent_by(&mut s);
    s.recv(&frame(0, 0, 1, b"x")).unwrap();
    assert_eq!(sent_by(&mut s), [(3, 0, 1, vec![0, 0, 0, 5])]);
    s.recv(&frame(0, 0, 1, b"x")).unwrap();
    assert_eq!(sent_by(&mut s), []);
}

#[test]
fn reset_is_told_once() {
    let mut c = client();
    let (_, mut send) = c.send_request(request("POST", "/"), false).unwrap();
    out_of(&mut c);
    send.send_reset(&mut c, Reason::CANCEL);
    send.send_reset(&mut c, Reason::CANCEL);
    assert_eq!(out_of(&mut c), [(3, 0, 1, vec![0, 0, 0, 8])]);
    assert_eq!(out_of(&mut c), []);
}

#[test]
fn failing_once() {
    let mut c = client();
    // The error is noted where it comes up, and handed out by the next call.
    assert!(c.recv(&frame(0, 0, 0, b"x")).is_err());
    for _ in 0..3 {
        assert!(c.recv(&frame(0, 0, 0, b"x")).is_ok());
        out_of(&mut c);
    }
    let mut ends = 0;
    for _ in 0..5 {
        if let Some(client::Event::GoAway) = c.poll_event() {
            ends += 1;
        }
    }
    assert_eq!(ends, 1);
}

#[test]
fn identifiers_in_order() {
    let mut c = client::Builder::new().initial_stream_id(5).handshake();
    let mut ids = Vec::new();
    for _ in 0..4 {
        ids.push(c.send_request(request("GET", "/"), true).unwrap().0.as_u32());
        let mut out = BytesMut::new();
        c.poll_transmit(&mut out);
    }
    assert_eq!(ids, [5, 7, 9, 11]);
}

#[test]
fn responses_to_nothing() {
    let mut c = client();
    let e = c.recv(&frame(1, 4, 1, &[0x88])).unwrap_err();
    assert_eq!(e.reason(), Some(Reason::PROTOCOL_ERROR));
    assert!(c.is_closed());
    assert!(matches!(c.poll_event(), Some(client::Event::GoAway)));
    assert!(c.poll_event().is_none());
    // The error is handed out once.
    assert!(c.recv(&[]).is_ok());
    assert_eq!(
        out_of(&mut c).last().unwrap(),
        &(7, 0, 0, vec![0, 0, 0, 0, 0, 0, 0, 1])
    );
}

#[test]
fn streams_end_with_the_connection() {
    let mut c = client();
    c.send_request(request("GET", "/"), true).unwrap();
    out_of(&mut c);
    let e = c.recv(&frame(0, 0, 0, b"x")).unwrap_err();
    assert_eq!(e.reason(), Some(Reason::PROTOCOL_ERROR));
    let mut events = Vec::new();
    while let Some(e) = c.poll_event() {
        events.push(e);
    }
    assert!(events
        .iter()
        .any(|e| matches!(e, client::Event::Reset { stream_id, .. } if stream_id.as_u32() == 1)));
    assert!(events.iter().any(|e| matches!(e, client::Event::GoAway)));
    assert_eq!(
        user_error(c.send_request(request("GET", "/"), true)),
        UserError::Rejected
    );
}

#[test]
fn frames_on_streams_that_there_are_not() {
    let cases = [
        frame(0, 0, 5, b"x"),
        frame(8, 0, 5, &[0, 0, 0, 1]),
        frame(3, 0, 5, &[0, 0, 0, 0]),
        frame(3, 0, 0, &[0, 0, 0, 0]),
        frame(1, 4, 2, GET),
        frame(5, 4, 1, b"\0\0\0\x02\x82"),
    ];
    for bytes in cases {
        let mut s = server();
        let e = s.recv(&bytes).unwrap_err();
        assert_eq!(e.reason(), Some(Reason::PROTOCOL_ERROR), "{:?}", bytes);
    }
}

#[test]
fn streams_are_opened_in_order() {
    let mut s = server();
    s.recv(&frame(1, 5, 5, GET)).unwrap();
    let e = s.recv(&frame(1, 5, 3, GET)).unwrap_err();
    assert_eq!(e.reason(), Some(Reason::PROTOCOL_ERROR));
}

#[test]
fn too_many_streams() {
    let mut s = server::Builder::new().max_concurrent_streams(1).handshake();
    s.recv(PREFACE).unwrap();
    sent_by(&mut s);
    s.recv(&frame(1, 4, 1, GET)).unwrap();
    s.recv(&frame(1, 4, 3, GET)).unwrap();
    assert_eq!(sent_by(&mut s), [(3, 0, 3, vec![0, 0, 0, 7])]);
}

#[test]
fn requests_wait_for_their_turn() {
    let mut c = client();
    c.recv(&frame(4, 0, 0, &[0, 3, 0, 0, 0, 1])).unwrap();
    c.send_request(request("GET", "/"), true).unwrap();
    c.send_request(request("GET", "/"), true).unwrap();
    let heads: Vec<u32> = out_of(&mut c)
        .iter()
        .filter(|f| f.0 == 1)
        .map(|f| f.2)
        .collect();
    assert_eq!(heads, [1]);
    c.recv(&frame(1, 5, 1, &[0x88])).unwrap();
    let heads: Vec<u32> = out_of(&mut c)
        .iter()
        .filter(|f| f.0 == 1)
        .map(|f| f.2)
        .collect();
    assert_eq!(heads, [3]);
}

#[test]
fn promises_are_refused() {
    let mut c = client();
    c.send_request(request("GET", "/"), true).unwrap();
    out_of(&mut c);
    c.recv(&frame(5, 4, 1, b"\0\0\0\x02\x82\x84\x87")).unwrap();
    assert_eq!(out_of(&mut c), [(3, 0, 2, vec![0, 0, 0, 7])]);

    let mut c = client::Builder::new().enable_push(false).handshake();
    c.send_request(request("GET", "/"), true).unwrap();
    let mut out = BytesMut::new();
    c.poll_transmit(&mut out);
    let e = c
        .recv(&frame(5, 4, 1, b"\0\0\0\x02\x82\x84\x87"))
        .unwrap_err();
    assert_eq!(e.reason(), Some(Reason::PROTOCOL_ERROR));
}

#[test]
fn preliminary_responses_are_passed_over() {
    let mut c = client();
    c.send_request(request("GET", "/"), true).unwrap();
    out_of(&mut c);
    c.recv(&frame(1, 4, 1, b"\0\x07:status\x03103")).unwrap();
    assert!(c.poll_event().is_none());
    c.recv(&frame(1, 5, 1, &[0x88])).unwrap();
    assert!(matches!(
        c.poll_event(),
        Some(client::Event::Response { response, end_stream: true, .. }) if response.status == 200
    ));
}

#[test]
fn bodies_of_the_announced_length() {
    let head = [GET, b"\0\x0econtent-length\x013"].concat();
    let mut s = server();
    s.recv(&frame(1, 4, 1, &head)).unwrap();
    s.recv(&frame(0, 1, 1, b"abc")).unwrap();
    assert_eq!(sent_by(&mut s), []);
    for body in [&b"ab"[..], b"abcd"] {
        let mut s = server();
        s.recv(&frame(1, 4, 1, &head)).unwrap();
        s.recv(&frame(0, 1, 1, body)).unwrap();
        assert_eq!(sent_by(&mut s), [(3, 0, 1, vec![0, 0, 0, 1])]);
    }
    let mut s = server();
    s.recv(&frame(1, 5, 1, &head)).unwrap();
    assert_eq!(sent_by(&mut s), [(3, 0, 1, vec![0, 0, 0, 1])]);
    let mut s = server();
    s.recv(&frame(1, 4, 1, &[GET, b"\0\x0econtent-length\x01x"].concat()))
        .unwrap();
    assert_eq!(sent_by(&mut s), [(3, 0, 1, vec![0, 0, 0, 1])]);
}

#[test]
fn answers_to_head_have_no_body() {
    let mut c = client();
    c.send_request(request("HEAD", "/"), true).unwrap();
    out_of(&mut c);
    c.recv(&frame(1, 5, 1, b"\x88\0\x0econtent-length\x013"))
        .unwrap();
    assert!(matches!(
        c.poll_event(),
        Some(client::Event::Response {
            end_stream: true,
            ..
        })
    ));
}

#[test]
fn header_lists_that_are_too_large() {
    let mut s = server::Builder::new().max_header_list_size(100).handshake();
    s.recv(PREFACE).unwrap();
    sent_by(&mut s);
    s.recv(&frame(1, 5, 1, GET)).unwrap();
    assert_eq!(sent_by(&mut s), [(3, 0, 1, vec![0, 0, 0, 1])]);
    assert!(!s.is_closed());
}

#[test]
fn server_takes_leave() {
    let (mut s, id) = server_with_request();
    s.go_away();
    let out = sent_by(&mut s);
    assert_eq!(out.len(), 2);
    assert_eq!(out[0], (7, 0, 0, vec![0x7f, 0xff, 0xff, 0xff, 0, 0, 0, 0]));
    assert_eq!((out[1].0, out[1].1), (6, 0));
    // Until the answer comes, requests are taken.
    s.recv(&frame(1, 5, 3, GET)).unwrap();
    s.recv(&frame(6, 1, 0, &out[1].3)).unwrap();
    assert_eq!(
        sent_by(&mut s),
        [(7, 0, 0, vec![0, 0, 0, 3, 0, 0, 0, 0])]
    );
    // Later ones are ignored.
    s.recv(&frame(1, 5, 5, GET)).unwrap();
    let mut others = Vec::new();
    while let Some(server::Event::Request { stream_id, .. }) = s.poll_event() {
        others.push(stream_id);
    }
    assert_eq!(others.len(), 1);
    assert_eq!(others[0].as_u32(), 3);
    assert!(!s.is_closed());
    // Once everything is answered, the connection ends.
    s.recv(&frame(0, 1, 1, b"")).unwrap();
    while s.poll_event().is_some() {}
    s.send_response(id, response(200), true).unwrap();
    s.send_response(others[0], response(200), true).unwrap();
    sent_by(&mut s);
    while s.poll_event().is_some() {}
    sent_by(&mut s);
    assert!(s.is_closed());
}

#[test]
fn client_takes_leave() {
    let mut pair = Pair::new();
    pair.open(request("GET", "/"), true);
    pair.client.go_away(Reason::NO_ERROR);
    assert_eq!(
        user_error(pair.client.send_request(request("GET", "/"), true)),
        UserError::Rejected
    );
    pair.settle();
    let id = match pair.at_server().pop() {
        Some(server::Event::Request { stream_id, .. }) => stream_id,
        e => panic!("another event: {:?}", e),
    };
    pair.server.send_response(id, response(200), true).unwrap();
    pair.settle();
    let events = pair.at_client();
    assert!(events
        .iter()
        .any(|e| matches!(e, client::Event::Response { .. })));
    assert!(events.iter().any(|e| matches!(e, client::Event::GoAway)));
    assert!(pair.client.is_closed());
}

#[test]
fn server_that_goes_away() {
    let mut c = client();
    c.send_request(request("GET", "/"), true).unwrap();
    c.send_request(request("GET", "/"), true).unwrap();
    out_of(&mut c);
    // Only the first request is served.
    c.recv(&frame(7, 0, 0, &[0, 0, 0, 1, 0, 0, 0, 0])).unwrap();
    let mut events = Vec::new();
    while let Some(e) = c.poll_event() {
        events.push(e);
    }
    match &events[..] {
        [client::Event::Reset { stream_id, .. }] => assert_eq!(stream_id.as_u32(), 3),
        e => panic!("other events: {:?}", e),
    }
    // The number of streams that are served does not grow again.
    let e = c
        .recv(&frame(7, 0, 0, &[0, 0, 0, 3, 0, 0, 0, 0]))
        .unwrap_err();
    assert_eq!(e.reason(), Some(Reason::PROTOCOL_ERROR));
}

#[test]
fn too_many_resets_of_waiting_requests() {
    let mut s = server::Builder::new()
        .max_pending_accept_reset_streams(2)
        .handshake();
    s.recv(PREFACE).unwrap();
    for n in 0..2u32 {
        s.recv(&frame(1, 5, 2 * n + 1, GET)).unwrap();
        s.recv(&frame(3, 0, 2 * n + 1, &[0, 0, 0, 8])).unwrap();
    }
    s.recv(&frame(1, 5, 5, GET)).unwrap();
    let e = s.recv(&frame(3, 0, 5, &[0, 0, 0, 8])).unwrap_err();
    assert_eq!(e.reason(), Some(Reason::ENHANCE_YOUR_CALM));
    let out = sent_by(&mut s);
    assert_eq!(&out.last().unwrap().3[8..], b"too_many_resets");
}

#[test]
fn too_many_streams_that_break() {
    let mut s = server();
    for n in 0..1024u32 {
        s.recv(&frame(1, 5, 2 * n + 1, &[0x84])).unwrap();
    }
    let e = s.recv(&frame(1, 5, 2049, &[0x84])).unwrap_err();
    assert_eq!(e.reason(), Some(Reason::ENHANCE_YOUR_CALM));
    let out = sent_by(&mut s);
    assert_eq!(&out.last().unwrap().3[8..], b"too_many_internal_resets");
}
