//! Messages: what their headers say, and what frames make of them.

use h2_zero::client;
use h2_zero::codec::error::UserError;
use h2_zero::frame::block::Pseudo;
use h2_zero::frame::{Reason, StreamId};
use h2_zero::hpack::field::Field;
use h2_zero::message::{
    content_length, find_value, parse_length, ContentLength, Request, Response, Uri, Version,
};
use h2_zero::proto::{Error, Initiator};
use h2_zero::server;
use h2_zero::server::peer::Target;

fn field(name: &str, value: &str) -> Field {
    Field::copied(name.as_bytes(), value.as_bytes())
}

fn text(s: &str) -> Option<Vec<u8>> {
    Some(s.as_bytes().to_vec())
}

fn request(method: &str) -> Request {
    Request {
        method: method.as_bytes().to_vec(),
        uri: Uri {
            scheme: text("http"),
            authority: text("a"),
            path_and_query: text("/x"),
        },
        version: Version::HTTP_2,
        protocol: None,
        headers: vec![],
    }
}

fn malformed(r: Result<Request, Error>) {
    match r {
        Err(Error::Reset(id, reason, Initiator::Library)) => {
            assert_eq!(id, StreamId::new(1));
            assert_eq!(reason, Reason::PROTOCOL_ERROR);
        }
        r => panic!("another result: {:?}", r),
    }
}

#[test]
fn lengths() {
    assert_eq!(parse_length(b"0"), Some(0));
    assert_eq!(parse_length(b"0012"), Some(12));
    assert_eq!(
        parse_length(b"9999999999999999999"),
        Some(9_999_999_999_999_999_999)
    );
    // More than nineteen digits might not fit.
    assert_eq!(parse_length(b"10000000000000000000"), None);
    assert_eq!(parse_length(b"1 "), None);
    assert_eq!(parse_length(b"-1"), None);
}

#[test]
fn announced_lengths() {
    assert_eq!(content_length(&vec![]), ContentLength::Omitted);
    assert_eq!(
        content_length(&vec![field("a", "b"), field("content-length", "7")]),
        ContentLength::Length(7)
    );
    assert_eq!(
        content_length(&vec![field("content-length", "seven")]),
        ContentLength::Invalid
    );
}

#[test]
fn values_by_name() {
    let list = vec![field("a", "1"), field("b", "2"), field("a", "3")];
    assert_eq!(find_value(&list, b"a").map(|v| &v[..]), Some(&b"1"[..]));
    assert_eq!(find_value(&list, b"c"), None);
}

#[test]
fn parts_of_a_target_that_go_together() {
    let uri = |s: Option<Vec<u8>>, a: Option<Vec<u8>>, p: Option<Vec<u8>>| Uri {
        scheme: s,
        authority: a,
        path_and_query: p,
    };
    assert!(uri(text("http"), text("a"), text("/")).goes_together());
    assert!(uri(None, None, text("/")).goes_together());
    assert!(uri(None, text("a"), None).goes_together());
    assert!(!uri(text("http"), None, text("/")).goes_together());
    assert!(!uri(text("http"), text("a"), None).goes_together());
    assert!(!uri(None, text("a"), text("/")).goes_together());
}

#[test]
fn requests_in_frames() {
    let id = StreamId::new(1);
    let f = client::peer::Peer::convert_send_message(id, request("GET"), None, true).unwrap();
    assert_eq!(f.stream_id, id);
    assert!(f.flags.end_stream);
    assert!(f.flags.end_headers);
    assert_eq!(f.header_block.pseudo.method, text("GET"));
    assert_eq!(f.header_block.pseudo.scheme, text("http"));
    assert_eq!(f.header_block.pseudo.authority, text("a"));
    assert_eq!(f.header_block.pseudo.path, text("/x"));
    // No path is the root.
    let mut rootless = request("GET");
    rootless.uri.path_and_query = None;
    let f = client::peer::Peer::convert_send_message(id, rootless, None, true).unwrap();
    assert_eq!(f.header_block.pseudo.path, text("/"));
    let mut all = request("OPTIONS");
    all.uri.path_and_query = None;
    let f = client::peer::Peer::convert_send_message(id, all, None, true).unwrap();
    assert_eq!(f.header_block.pseudo.path, text("*"));
    let tunnel =
        client::peer::Peer::convert_send_message(id, request("CONNECT"), None, false).unwrap();
    assert_eq!(tunnel.header_block.pseudo.scheme, None);
    assert_eq!(tunnel.header_block.pseudo.path, None);
    assert!(!tunnel.flags.end_stream);
}

#[test]
fn responses_in_frames() {
    let response = Response {
        status: 204,
        version: Version::HTTP_11,
        headers: vec![field("a", "b")],
    };
    let f = server::peer::Peer::convert_send_message(StreamId::new(3), response, true);
    assert_eq!(f.header_block.pseudo.status, Some(204));
    assert_eq!(f.header_block.pseudo.method, None);
    assert!(f.flags.end_stream);
    let back = client::peer::Peer::convert_poll_message(
        f.header_block.pseudo,
        f.header_block.fields,
        StreamId::new(3),
    )
    .unwrap();
    assert_eq!(back.status, 204);
    assert_eq!(back.version, Version::HTTP_2);
    assert_eq!(back.headers[0].value, b"b");
    // A block without a status counts as 200.
    let plain =
        client::peer::Peer::convert_poll_message(Pseudo::empty(), vec![], StreamId::new(3))
            .unwrap();
    assert_eq!(plain.status, 200);
}

#[test]
fn promised_requests() {
    let (one, two) = (StreamId::new(1), StreamId::new(2));
    let p = server::peer::Peer::convert_push_message(one, two, request("GET")).unwrap();
    assert_eq!(p.stream_id, one);
    assert_eq!(p.promised_id, two);
    assert_eq!(p.header_block.pseudo.path, text("/x"));
    let mut empty = request("HEAD");
    empty.headers = vec![field("content-length", "0")];
    assert!(server::peer::Peer::convert_push_message(one, two, empty).is_ok());
    // Neither an unsafe method nor a body can be promised.
    for (method, length) in [("POST", "0"), ("GET", "1"), ("GET", "x")] {
        let mut r = request(method);
        r.headers = vec![field("content-length", length)];
        assert_eq!(
            server::peer::Peer::convert_push_message(one, two, r).err(),
            Some(UserError::MalformedHeaders)
        );
    }
    let mut r = request("GET");
    r.headers = vec![field("Upper", "x")];
    assert_eq!(
        server::peer::Peer::convert_push_message(one, two, r).err(),
        Some(UserError::MalformedHeaders)
    );
}

#[test]
fn messages_that_there_can_be() {
    assert!(request("GET").is_valid());
    assert!(!request("G T").is_valid());
    assert!(field("a-b", "c\td").is_valid());
    assert!(!field("A", "c").is_valid());
    assert!(!field(":a", "c").is_valid());
    let response = |status: u16| Response {
        status,
        version: Version::HTTP_2,
        headers: vec![],
    };
    assert!(response(100).is_valid());
    assert!(response(999).is_valid());
    assert!(!response(99).is_valid());
    assert!(!response(1000).is_valid());
}

#[test]
fn requests_from_their_parts() {
    let pseudo = || Pseudo {
        method: text("GET"),
        scheme: text("http"),
        authority: text("a"),
        path: text("/x#y"),
        protocol: None,
        status: None,
    };
    let good = || Target {
        authority_ok: true,
        scheme_ok: true,
        path: text("/x"),
    };
    let id = StreamId::new(1);
    let r = server::peer::Peer::build_request(pseudo(), vec![field("a", "b")], good(), id).unwrap();
    assert_eq!(r.uri.path_and_query, text("/x"));
    assert_eq!(r.version, Version::HTTP_2);
    assert_eq!(r.headers.len(), 1);

    let mut target = good();
    target.authority_ok = false;
    malformed(server::peer::Peer::build_request(pseudo(), vec![], target, id));
    let mut target = good();
    target.scheme_ok = false;
    malformed(server::peer::Peer::build_request(pseudo(), vec![], target, id));
    let mut target = good();
    target.path = None;
    malformed(server::peer::Peer::build_request(pseudo(), vec![], target, id));

    let mut no_method = pseudo();
    no_method.method = None;
    malformed(server::peer::Peer::convert_poll_message(no_method, vec![], id));
    // A scheme without an authority is dropped.
    let mut lone = pseudo();
    lone.authority = None;
    let r = server::peer::Peer::convert_poll_message(lone, vec![], id).unwrap();
    assert_eq!(r.uri.scheme, None);
    assert_eq!(r.uri.path_and_query, text("/x"));
}
