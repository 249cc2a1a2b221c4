//! Connections as their users see them: what goes out, what comes in, and what
//! happens in between.

use bytes::{Bytes, BytesMut};
use h2_zero::codec::error::UserError;
use h2_zero::error::Error;
use h2_zero::frame::Reason;
use h2_zero::hpack::field::Field;
use h2_zero::message::{Request, Response, Uri, Version};
use h2_zero::share::{SendStream, StreamId};
use h2_zero::{client, server};

const PREFACE: &[u8] = b"PRI * HTTP/2.0\r\n\r\nSM\r\n\r\n";

fn frame(kind: u8, flag: u8, id: u32, payload: &[u8]) -> Vec<u8> {
    let mut v = (payload.len() as u32).to_be_bytes()[1..].to_vec();
    v.push(kind);
    v.push(flag);
    v.extend_from_slice(&id.to_be_bytes());
    v.extend_from_slice(payload);
    v
}

/// The frames in `bytes`: kind, flags, stream and payload.
fn frames(bytes: &[u8]) -> Vec<(u8, u8, u32, Vec<u8>)> {
    let mut at = 0;
    let mut list = Vec::new();
    while at < bytes.len() {
        let len = u32::from_be_bytes([0, bytes[at], bytes[at + 1], bytes[at + 2]]) as usize;
        let id = u32::from_be_bytes([bytes[at + 5], bytes[at + 6], bytes[at + 7], bytes[at + 8]]);
        let payload = bytes[at + 9..at + 9 + len].to_vec();
        list.push((bytes[at + 3], bytes[at + 4], id, payload));
        at += 9 + len;
    }
    list
}

fn request(method: &str, path: &str) -> Request {
    Request {
        method: method.as_bytes().to_vec(),
        uri: Uri {
            scheme: Some(b"https".to_vec()),
            authority: Some(b"example.com".to_vec()),
            path_and_query: Some(path.as_bytes().to_vec()),
        },
        version: Version::HTTP_11,
        protocol: None,
        headers: vec![],
    }
}

fn response(status: u16) -> Response {
    Response {
        status,
        version: Version::HTTP_11,
        headers: vec![],
    }
}

fn field(name: &str, value: &str) -> Field {
    Field::copied(name.as_bytes(), value.as_bytes())
}

fn user_error<T>(r: Result<T, Error>) -> UserError {
    match r {
        Err(Error::User(e)) => e,
        Err(e) => panic!("another error: {:?}", e),
        Ok(_) => panic!("no error"),
    }
}

struct Pair {
    client: client::Connection,
    server: server::Connection,
}

impl Pair {
    fn new() -> Pair {
        let mut pair = Pair {
            client: client::handshake(),
            server: server::handshake(),
        };
        pair.settle();
        pair
    }

    /// Moves bytes until neither side has any.
    fn settle(&mut self) {
        loop {
            let mut out = BytesMut::new();
            let mut n = self.client.poll_transmit(&mut out);
            if !out.is_empty() {
                self.server.recv(&out).unwrap();
            }
            let mut back = BytesMut::new();
            n += self.server.poll_transmit(&mut back);
            if !back.is_empty() {
                self.client.recv(&back).unwrap();
            }
            if n == 0 {
                break;
            }
        }
    }

    fn open(&mut self, request: Request, end: bool) -> (StreamId, SendStream) {
        let opened = self.client.send_request(request, end).unwrap();
        self.settle();
        opened
    }

    fn at_server(&mut self) -> Vec<server::Event> {
        let mut list = Vec::new();
        while let Some(e) = self.server.poll_event() {
            list.push(e);
        }
        list
    }

    fn at_client(&mut self) -> Vec<client::Event> {
        let mut list = Vec::new();
        while let Some(e) = self.client.poll_event() {
            list.push(e);
        }
        list
    }
}

fn out_of(c: &mut client::Connection) -> Vec<(u8, u8, u32, Vec<u8>)> {
    let mut out = BytesMut::new();
    c.poll_transmit(&mut out);
    frames(&out)
}

fn sent_by(s: &mut server::Connection) -> Vec<(u8, u8, u32, Vec<u8>)> {
    let mut out = BytesMut::new();
    s.poll_transmit(&mut out);
    frames(&out)
}

/// A client that has got the preface and the settings out.
fn client() -> client::Connection {
    let mut c = client::handshake();
    let mut out = BytesMut::new();
    c.poll_transmit(&mut out);
    c
}

/// A server that has got the preface and its settings out.
fn server() -> server::Connection {
    let mut s = server::handshake();
    s.recv(PREFACE).unwrap();
    sent_by(&mut s);
    s
}

#[test]
fn client_starts_with_preface_and_settings() {
    let mut c = client::handshake();
    let mut out = BytesMut::from(&b"x"[..]);
    assert_eq!(c.poll_transmit(&mut out), 24 + 9);
    assert_eq!(out[..1], b"x"[..]);
    assert_eq!(&out[1..25], PREFACE);
    assert_eq!(out[25..], frame(4, 0, 0, &[])[..]);
    assert_eq!(c.poll_transmit(&mut out), 0);
    assert!(!c.is_closed());
}

#[test]
fn server_starts_with_settings() {
    let mut s = server::handshake();
    assert_eq!(sent_by(&mut s), [(4, 0, 0, vec![])]);
    assert_eq!(sent_by(&mut s), []);
}

#[test]
fn client_settings() {
    let mut c = client::Builder::new()
        .header_table_size(1)
        .enable_push(false)
        .max_concurrent_streams(10)
        .initial_window_size(1_000_000)
        .max_frame_size(20_000)
        .max_header_list_size(5_000)
        .handshake();
    let mut out = BytesMut::new();
    c.poll_transmit(&mut out);
    let list = [
        (1u16, 1u32),
        (2, 0),
        (3, 10),
        (4, 1_000_000),
        (5, 20_000),
        (6, 5_000),
    ];
    let mut payload = Vec::new();
    for (id, value) in list {
        payload.extend_from_slice(&id.to_be_bytes());
        payload.extend_from_slice(&value.to_be_bytes());
    }
    assert_eq!(out[24..], frame(4, 0, 0, &payload)[..]);
}

#[test]
fn server_settings() {
    let mut s = server::Builder::new()
        .header_table_size(2)
        .max_concurrent_streams(3)
        .initial_window_size(4)
        .max_frame_size(16_777_215)
        .max_header_list_size(6)
        .max_pending_accept_reset_streams(7)
        .handshake();
    let list = [(1u16, 2u32), (3, 3), (4, 4), (5, 16_777_215), (6, 6)];
    let mut payload = Vec::new();
    for (id, value) in list {
        payload.extend_from_slice(&id.to_be_bytes());
        payload.extend_from_slice(&value.to_be_bytes());
    }
    assert_eq!(sent_by(&mut s), [(4, 0, 0, payload)]);
}

#[test]
fn wide_connection_window() {
    let mut c = client::Builder::new()
        .initial_connection_window_size(100_000)
        .handshake();
    let mut out = BytesMut::new();
    c.poll_transmit(&mut out);
    assert_eq!(
        frames(&out[24..]),
        [
            (4, 0, 0, vec![]),
            (8, 0, 0, 34_465u32.to_be_bytes().to_vec())
        ]
    );
    let mut s = server::Builder::default()
        .initial_connection_window_size(1_000_000)
        .handshake();
    s.recv(PREFACE).unwrap();
    assert_eq!(
        sent_by(&mut s),
        [
            (4, 0, 0, vec![]),
            (8, 0, 0, 934_465u32.to_be_bytes().to_vec())
        ]
    );
    let mut s = server();
    s.set_target_window_size(1_000_000);
    assert_eq!(
        sent_by(&mut s),
        [(8, 0, 0, 934_465u32.to_be_bytes().to_vec())]
    );
    let mut c = client();
    c.set_target_window_size(1_000_000);
    assert_eq!(
        out_of(&mut c),
        [(8, 0, 0, 934_465u32.to_be_bytes().to_vec())]
    );
}

#[test]
fn settings_are_acknowledged() {
    let mut s = server();
    s.recv(&frame(4, 0, 0, &[0, 3, 0, 0, 0, 9])).unwrap();
    assert_eq!(sent_by(&mut s), [(4, 1, 0, vec![])]);
    let mut c = client();
    c.recv(&frame(4, 0, 0, &[])).unwrap();
    assert_eq!(out_of(&mut c), [(4, 1, 0, vec![])]);
    // One acknowledgement for one SETTINGS frame; another is one too many.
    c.recv(&frame(4, 1, 0, &[])).unwrap();
    let e = c.recv(&frame(4, 1, 0, &[])).unwrap_err();
    assert_eq!(e.reason(), Some(Reason::PROTOCOL_ERROR));
}

#[test]
fn preface_in_any_chunks() {
    for size in 1..=PREFACE.len() {
        let mut s = server::handshake();
        for chunk in PREFACE.chunks(size) {
            s.recv(chunk).unwrap();
        }
        s.recv(&frame(6, 0, 0, b"12345678")).unwrap();
        assert_eq!(
            sent_by(&mut s),
            [(4, 0, 0, vec![]), (6, 1, 0, b"12345678".to_vec())]
        );
    }
}

#[test]
fn another_preface() {
    let mut s = server::handshake();
    s.recv(b"PRI * HTTP").unwrap();
    let e = s.recv(b"/1.1\r\n").unwrap_err();
    assert_eq!(e.reason(), Some(Reason::PROTOCOL_ERROR));
    assert!(s.is_closed());
    assert!(s.poll_event().is_none());
}

#[test]
fn pings_are_answered() {
    let mut c = client();
    c.recv(&frame(6, 0, 0, b"abcdefgh")).unwrap();
    assert_eq!(out_of(&mut c), [(6, 1, 0, b"abcdefgh".to_vec())]);
    // An answer is not answered.
    c.recv(&frame(6, 1, 0, b"abcdefgh")).unwrap();
    assert_eq!(out_of(&mut c), []);
}

#[test]
fn request_on_the_wire() {
    let mut c = client();
    let (id, _) = c.send_request(request("GET", "/a"), true).unwrap();
    assert_eq!(id.as_u32(), 1);
    assert_eq!(u32::from(id), 1);
    let block = [
        &b"\0\x07:method\x03GET"[..],
        b"\0\x07:scheme\x05https",
        b"\0\x0a:authority\x0bexample.com",
        b"\0\x05:path\x02/a",
    ]
    .concat();
    assert_eq!(out_of(&mut c), [(1, 5, 1, block)]);
    let (second, _) = c.send_request(request("GET", "/b"), true).unwrap();
    assert_eq!(second.as_u32(), 3);
}

#[test]
fn first_stream_can_be_chosen() {
    let mut c = client::Builder::new().initial_stream_id(7).handshake();
    let (id, send) = c.send_request(request("GET", "/"), true).unwrap();
    assert_eq!(id.as_u32(), 7);
    assert_eq!(send.stream_id().as_u32(), 7);
}

#[test]
fn requests_that_cannot_be_sent() {
    let mut c = client();
    let mut relative = request("GET", "/");
    relative.uri.scheme = None;
    relative.uri.authority = None;
    relative.version = Version::HTTP_2;
    assert_eq!(
        user_error(c.send_request(relative, true)),
        UserError::MissingUriSchemeAndAuthority
    );
    let mut hop = request("GET", "/");
    hop.headers = vec![field("connection", "close")];
    assert_eq!(
        user_error(c.send_request(hop, true)),
        UserError::MalformedHeaders
    );
    let mut te = request("GET", "/");
    te.headers = vec![field("te", "gzip")];
    assert_eq!(
        user_error(c.send_request(te, true)),
        UserError::MalformedHeaders
    );
    assert_eq!(out_of(&mut c), []);

    let mut last = client::Builder::new()
        .initial_stream_id(0x7fff_ffff)
        .handshake();
    last.send_request(request("GET", "/"), true).unwrap();
    assert_eq!(
        user_error(last.send_request(request("GET", "/"), true)),
        UserError::OverflowedStreamId
    );
}

#[test]
fn relative_request_of_an_older_version() {
    let mut pair = Pair::new();
    let mut relative = request("GET", "/");
    relative.uri.scheme = None;
    relative.uri.authority = None;
    pair.open(relative, true);
    match &pair.at_server()[..] {
        [server::Event::Request { request, .. }] => {
            assert_eq!(request.uri.scheme, None);
            assert_eq!(request.uri.authority, None);
            assert_eq!(request.uri.path_and_query.as_deref(), Some(&b"/"[..]));
            assert_eq!(request.version, Version::HTTP_2);
        }
        e => panic!("other events: {:?}", e),
    }
}

#[test]
fn targets_of_requests() {
    let mut pair = Pair::new();
    pair.open(request("OPTIONS", "*"), true);
    pair.open(request("GET", "/a?b=c"), true);
    // A tunnel names an authority alone.
    let mut tunnel = request("CONNECT", "/");
    tunnel.uri.scheme = None;
    tunnel.uri.path_and_query = None;
    pair.open(tunnel, true);
    let mut websocket = request("CONNECT", "/chat");
    websocket.protocol = Some(b"websocket".to_vec());
    pair.open(websocket, true);
    let mut seen = Vec::new();
    for e in pair.at_server() {
        match e {
            server::Event::Request { request, .. } => seen.push((
                request.method,
                request.uri.scheme,
                request.uri.authority,
                request.uri.path_and_query,
                request.protocol,
            )),
            e => panic!("another event: {:?}", e),
        }
    }
    let https = || Some(b"https".to_vec());
    let example = || Some(b"example.com".to_vec());
    let text = |s: &str| Some(s.as_bytes().to_vec());
    assert_eq!(
        seen,
        [
            (b"OPTIONS".to_vec(), https(), example(), text("*"), None),
            (b"GET".to_vec(), https(), example(), text("/a?b=c"), None),
            (b"CONNECT".to_vec(), None, example(), None, None),
            (
                b"CONNECT".to_vec(),
                https(),
                example(),
                text("/chat"),
                text("websocket")
            ),
        ]
    );
}

#[test]
fn fragments_are_not_part_of_the_path() {
    let mut s = server();
    s.recv(&frame(1, 5, 1, b"\x82\x87\0\x0a:authority\x01a\0\x05:path\x04/a#b"))
        .unwrap();
    match s.poll_event() {
        Some(server::Event::Request { request, .. }) => {
            assert_eq!(request.uri.path_and_query.as_deref(), Some(&b"/a"[..]));
        }
        e => panic!("another event: {:?}", e),
    }
}

#[test]
fn messages_that_there_cannot_be() {
    let mut c = client();
    let mut cases = Vec::new();
    cases.push(request("GE T", "/"));
    cases.push(request("", "/"));
    cases.push(request("GET", "/ /"));
    cases.push(request("GET", "/a#b"));
    for (name, value) in [("X", "y"), (":path", "/"), ("", "y"), ("x", "a\nb")] {
        let mut r = request("GET", "/");
        r.headers = vec![field(name, value)];
        cases.push(r);
    }
    let mut r = request("GET", "/");
    r.uri.scheme = Some(b"1:2".to_vec());
    cases.push(r);
    let mut r = request("GET", "/");
    r.uri.authority = Some(b"a b".to_vec());
    cases.push(r);
    let mut r = request("GET", "/");
    r.uri.authority = None;
    cases.push(r);
    let mut r = request("CONNECT", "/");
    r.protocol = Some(vec![0xff]);
    cases.push(r);
    for r in cases {
        assert_eq!(
            user_error(c.send_request(r, true)),
            UserError::MalformedHeaders
        );
    }
    assert_eq!(out_of(&mut c), []);

    let mut pair = Pair::new();
    let (_, mut send) = pair.open(request("POST", "/"), false);
    assert_eq!(
        user_error(send.send_trailers(&mut pair.client, vec![field("A", "b")])),
        UserError::MalformedHeaders
    );
    assert_eq!(
        user_error(send.send_trailers(&mut pair.client, vec![field("upgrade", "b")])),
        UserError::MalformedHeaders
    );
    let id = match pair.at_server().pop() {
        Some(server::Event::Request { stream_id, .. }) => stream_id,
        e => panic!("another event: {:?}", e),
    };
    for status in [7, 99, 1000] {
        assert_eq!(
            user_error(pair.server.send_response(id, response(status), true)),
            UserError::MalformedHeaders
        );
    }
    let mut r = response(200);
    r.headers = vec![field("a b", "c")];
    assert_eq!(
        user_error(pair.server.send_response(id, r, true)),
        UserError::MalformedHeaders
    );
    pair.server.send_response(id, response(999), true).unwrap();
}

#[test]
fn malformed_requests_are_reset() {
    let authority = b"\0\x0a:authority\x07a b c d".to_vec();
    let cases: Vec<Vec<u8>> = vec![
        // No method; no scheme; a status; an empty path; a protocol without
        // CONNECT.
        vec![0x84, 0x87],
        vec![0x82, 0x84],
        vec![0x82, 0x84, 0x87, 0x88],
        b"\x82\x87\0\x05:path\0".to_vec(),
        b"\x82\x84\x87\0\x09:protocol\x02ab".to_vec(),
        // Parts of a target that are none.
        [&[0x82, 0x84, 0x87], &authority[..]].concat(),
        b"\x82\x84\0\x07:scheme\x031:2".to_vec(),
        b"\x82\x87\0\x05:path\x03/ /".to_vec(),
        // A tunnel with a scheme, a tunnel with a path, and an extended CONNECT
        // without a path.
        b"\0\x07:method\x07CONNECT\x87\0\x0a:authority\x01a".to_vec(),
        b"\0\x07:method\x07CONNECT\x84\0\x0a:authority\x01a".to_vec(),
        b"\0\x07:method\x07CONNECT\x87\0\x0a:authority\x01a\0\x09:protocol\x02ab".to_vec(),
    ];
    for block in cases {
        let mut s = server();
        s.recv(&frame(1, 5, 1, &block)).unwrap();
        assert!(s.poll_event().is_none(), "{:?}", block);
        assert_eq!(
            sent_by(&mut s),
            [(3, 0, 1, vec![0, 0, 0, 1])],
            "{:?}",
            block
        );
    }
}

#[test]
fn headers_and_trailers_cross() {
    let mut pair = Pair::new();
    let mut r = request("POST", "/t");
    r.headers = vec![field("te", "trailers"), field("a", "1"), field("a", "2")];
    let (_, mut send) = pair.open(r, false);
    send.send_data(&mut pair.client, Bytes::from_static(b"body"), false)
        .unwrap();
    send.send_trailers(&mut pair.client, vec![field("sum", "xyz")])
        .unwrap();
    pair.settle();
    let events = pair.at_server();
    let id = match &events[..] {
        [server::Event::Request {
            stream_id,
            request,
            end_stream: false,
        }, server::Event::Data { data, .. }, server::Event::Trailers { trailers, .. }] => {
            let names: Vec<&[u8]> = request.headers.iter().map(|f| &f.name[..]).collect();
            assert_eq!(names, [&b"te"[..], b"a", b"a"]);
            assert_eq!(request.headers[2].value, b"2");
            assert_eq!(&data[..], b"body");
            assert_eq!(trailers.len(), 1);
            assert_eq!(trailers[0].value, b"xyz");
            *stream_id
        }
        e => panic!("other events: {:?}", e),
    };
    let mut head = response(404);
    head.headers = vec![field("b", "3")];
    pair.server.send_response(id, head, false).unwrap();
    pair.server
        .send_data(id, Bytes::from_static(b"no"), false)
        .unwrap();
    pair.server
        .send_trailers(id, vec![field("t", "u")])
        .unwrap();
    pair.settle();
    match &pair.at_client()[..] {
        [client::Event::Response {
            response,
            end_stream: false,
            ..
        }, client::Event::Data { data, .. }, client::Event::Trailers { trailers, .. }] => {
            assert_eq!(response.status, 404);
            assert_eq!(response.version, Version::HTTP_2);
            assert_eq!(response.headers[0].value, b"3");
            assert_eq!(&data[..], b"no");
            assert_eq!(trailers[0].name, b"t");
        }
        e => panic!("other events: {:?}", e),
    }
}

#[test]
fn sending_in_the_wrong_order() {
    let mut pair = Pair::new();
    let (_, mut done) = pair.open(request("GET", "/"), true);
    assert_eq!(
        user_error(done.send_data(&mut pair.client, Bytes::new(), true)),
        UserError::UnexpectedFrameType
    );
    assert_eq!(
        user_error(done.send_trailers(&mut pair.client, vec![])),
        UserError::UnexpectedFrameType
    );
    let id = match pair.at_server().pop() {
        Some(server::Event::Request { stream_id, .. }) => stream_id,
        e => panic!("another event: {:?}", e),
    };
    // A body needs a head, and there is only one head.
    assert_eq!(
        user_error(pair.server.send_data(id, Bytes::new(), true)),
        UserError::UnexpectedFrameType
    );
    pair.server.send_response(id, response(200), true).unwrap();
    assert!(pair.server.send_response(id, response(200), true).is_err());
    pair.settle();
    assert_eq!(pair.at_client().len(), 1);
    pair.at_server();
    // The exchange is over on both sides.
    assert_eq!(
        user_error(pair.server.send_response(id, response(200), true)),
        UserError::InactiveStreamId
    );
    assert_eq!(
        user_error(pair.server.send_data(id, Bytes::new(), true)),
        UserError::InactiveStreamId
    );
    assert_eq!(
        user_error(pair.server.send_trailers(id, vec![])),
        UserError::InactiveStreamId
    );
    assert_eq!(pair.server.stream_capacity(id), 0);
}

#[test]
fn empty_body() {
    let mut pair = Pair::new();
    let (_, mut send) = pair.open(request("POST", "/"), false);
    send.send_data(&mut pair.client, Bytes::new(), true).unwrap();
    pair.settle();
    match &pair.at_server()[..] {
        [server::Event::Request {
            end_stream: false, ..
        }, rest @ ..] => {
            assert!(matches!(rest.last(), Some(server::Event::StreamEnd { .. })));
        }
        e => panic!("other events: {:?}", e),
    }
}
