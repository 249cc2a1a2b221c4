//! A client and a server that talk to each other through byte buffers alone.

use bytes::{Bytes, BytesMut};
use h2_zero::hpack::Field;
use h2_zero::message::{Request, Response, Uri, Version};
use h2_zero::{client, server};

fn request_of(request: http::Request<()>) -> Request {
    let (parts, ()) = request.into_parts();
    let uri = parts.uri.into_parts();
    Request {
        method: parts.method.as_str().as_bytes().to_vec(),
        uri: Uri {
            scheme: uri.scheme.map(|s| s.as_str().as_bytes().to_vec()),
            authority: uri.authority.map(|a| a.as_str().as_bytes().to_vec()),
            path_and_query: uri.path_and_query.map(|p| p.as_str().as_bytes().to_vec()),
        },
        version: if parts.version == http::Version::HTTP_2 {
            Version::HTTP_2
        } else {
            Version::HTTP_11
        },
        protocol: None,
        headers: fields_of(&parts.headers),
    }
}

fn response_of(response: http::Response<()>) -> Response {
    let (parts, ()) = response.into_parts();
    Response {
        status: parts.status.as_u16(),
        version: Version::HTTP_11,
        headers: fields_of(&parts.headers),
    }
}

fn fields_of(headers: &http::HeaderMap) -> Vec<Field> {
    headers
        .iter()
        .map(|(name, value)| Field {
            name: name.as_str().as_bytes().to_vec(),
            value: value.as_bytes().to_vec(),
        })
        .collect()
}

fn client_to_server(from: &mut client::Connection, to: &mut server::Connection) -> usize {
    let mut buf = BytesMut::new();
    from.poll_transmit(&mut buf);
    let n = buf.len();
    if n > 0 {
        to.recv(&buf).expect("recv failed");
    }
    n
}

fn server_to_client(from: &mut server::Connection, to: &mut client::Connection) -> usize {
    let mut buf = BytesMut::new();
    from.poll_transmit(&mut buf);
    let n = buf.len();
    if n > 0 {
        to.recv(&buf).expect("recv failed");
    }
    n
}

#[test]
fn get_request_no_body() {
    let mut client = client::handshake();
    let mut server = server::handshake();

    // Client sends a simple GET with no body.
    let request = http::Request::get("https://example.com/").body(()).unwrap();
    let (_id, _body) = client.send_request(request_of(request), true).unwrap();

    // Exchange bytes until both sides settle.
    for _ in 0..8 {
        client_to_server(&mut client, &mut server);
        server_to_client(&mut server, &mut client);
    }

    // Server should see the request.
    let mut saw_request = None;
    while let Some(ev) = server.poll_event() {
        if let server::Event::Request {
            stream_id,
            request,
            end_stream,
        } = ev
        {
            assert_eq!(request.method, b"GET");
            assert_eq!(request.uri.path_and_query.as_deref(), Some(&b"/"[..]));
            assert!(end_stream);
            saw_request = Some(stream_id);
        }
    }
    let server_stream = saw_request.expect("server did not receive request");

    // Server responds 200, no body.
    let response = http::Response::builder().status(200).body(()).unwrap();
    server
        .send_response(server_stream, response_of(response), true)
        .unwrap();

    for _ in 0..8 {
        server_to_client(&mut server, &mut client);
        client_to_server(&mut client, &mut server);
    }

    // Client should see the response.
    let mut saw_response = false;
    while let Some(ev) = client.poll_event() {
        if let client::Event::Response {
            response,
            end_stream,
            ..
        } = ev
        {
            assert_eq!(response.status, 200);
            assert!(end_stream);
            saw_response = true;
        }
    }
    assert!(saw_response, "client did not receive response");
}

#[test]
fn request_and_response_with_body() {
    let mut client = client::Builder::new().handshake();
    let mut server = server::Builder::new().handshake();

    let request = http::Request::post("https://example.com/echo")
        .body(())
        .unwrap();
    let (cid, mut send_body) = client.send_request(request_of(request), false).unwrap();
    send_body
        .send_data(&mut client, Bytes::from_static(b"ping"), true)
        .unwrap();

    for _ in 0..8 {
        client_to_server(&mut client, &mut server);
        server_to_client(&mut server, &mut client);
    }

    // Collect server events: a request followed by body data.
    let mut server_stream = None;
    let mut server_body = Vec::new();
    let mut server_end = false;
    loop {
        let mut progressed = false;
        while let Some(ev) = server.poll_event() {
            progressed = true;
            match ev {
                server::Event::Request { stream_id, .. } => server_stream = Some(stream_id),
                server::Event::Data { data, .. } => server_body.extend_from_slice(&data),
                server::Event::StreamEnd { .. } => server_end = true,
                _ => {}
            }
        }
        client_to_server(&mut client, &mut server);
        if !progressed {
            break;
        }
    }

    assert_eq!(&server_body, b"ping");
    assert!(server_end);
    let server_stream = server_stream.expect("no request");

    // Server replies with a body.
    let response = http::Response::builder().status(200).body(()).unwrap();
    server
        .send_response(server_stream, response_of(response), false)
        .unwrap();
    server
        .send_data(server_stream, Bytes::from_static(b"pong"), true)
        .unwrap();

    for _ in 0..8 {
        server_to_client(&mut server, &mut client);
        client_to_server(&mut client, &mut server);
    }

    let mut client_body = Vec::new();
    let mut client_status = None;
    while let Some(ev) = client.poll_event() {
        match ev {
            client::Event::Response { response, .. } => client_status = Some(response.status),
            client::Event::Data { data, .. } => client_body.extend_from_slice(&data),
            _ => {}
        }
    }

    assert_eq!(client_status, Some(http::StatusCode::OK.as_u16()));
    assert_eq!(&client_body, b"pong");
    let _ = cid;
}
