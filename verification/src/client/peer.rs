//! How a client's messages stand in frames.

use crate::codec::error::UserError;
use crate::frame::block::{text_view, BlockView, HeaderBlock, Pseudo, PseudoView};
use crate::frame::headers::{Headers, HeadersFlag, HeadersView};
use crate::frame::head::StreamId;
use crate::hpack::field::{fields_view, Field, FieldView};
use crate::message::{Request, RequestView, Response, ResponseView, UriView, Version};
use crate::names::{CONNECT, HTTP, OPTIONS, SLASH};
use crate::proto::error::Error;
use crate::wire::{same_bytes, to_vec};
use vstd::prelude::*;

verus! {

/// The path that a request with this method and target asks for: `*` or `/`
/// where the target has none.
pub open spec fn request_path(method: Seq<u8>, path: Option<Seq<u8>>) -> Seq<u8> {
    match path {
        Some(p) if p.len() > 0 => p,
        _ => if method == OPTIONS@ {
            seq![42u8]
        } else {
            SLASH@
        },
    }
}

/// The pseudo-headers of a request. A plain CONNECT request has neither scheme
/// nor path.
pub open spec fn request_pseudo(method: Seq<u8>, uri: UriView, protocol: Option<Seq<u8>>) -> PseudoView {
    let tunnel = method == CONNECT@ && protocol is None;
    PseudoView {
        method: Some(method),
        scheme: if tunnel {
            None
        } else {
            uri.scheme
        },
        authority: uri.authority,
        path: if tunnel {
            None
        } else {
            Some(request_path(method, uri.path_and_query))
        },
        protocol,
        status: None,
    }
}

impl Pseudo {
    /// The pseudo-headers of a request.
    pub fn request(method: Vec<u8>, uri: crate::message::Uri, protocol: Option<Vec<u8>>) -> (p:
        Pseudo)
        ensures
            p@ == request_pseudo(method@, uri@, text_view(protocol)),
    {
        let tunnel = same_bytes(method.as_slice(), CONNECT.as_slice()) && protocol.is_none();
        if tunnel {
            return Pseudo {
                method: Some(method),
                scheme: None,
                authority: uri.authority,
                path: None,
                protocol,
                status: None,
            };
        }
        let path = match uri.path_and_query {
            Some(path) if path.len() > 0 => path,
            _ => {
                if same_bytes(method.as_slice(), OPTIONS.as_slice()) {
                    let mut star: Vec<u8> = Vec::new();
                    star.push(42);
                    assert(star@ =~= seq![42u8]);
                    star
                } else {
                    to_vec(SLASH.as_slice())
                }
            },
        };
        Pseudo {
            method: Some(method),
            scheme: uri.scheme,
            authority: uri.authority,
            path: Some(path),
            protocol,
            status: None,
        }
    }

    /// The pseudo-headers of a response.
    pub fn response(status: u16) -> (p: Pseudo)
        ensures
            p@ == (PseudoView { status: Some(status), ..crate::frame::block::no_pseudo() }),
    {
        let mut p = Pseudo::empty();
        p.status = Some(status);
        p
    }
}

/// The HEADERS frame that a request goes out in. A target without scheme and
/// authority is for forwarding an older request only, which gets the scheme
/// `http`.
pub open spec fn sent_request(
    id: StreamId,
    request: RequestView,
    protocol: Option<Seq<u8>>,
    end_of_stream: bool,
) -> Result<HeadersView, UserError> {
    let pseudo = request_pseudo(request.method, request.uri, protocol);
    let relative = pseudo.scheme is None && pseudo.authority is None;
    if relative && request.version == Version::HTTP_2 {
        Err(UserError::MissingUriSchemeAndAuthority)
    } else {
        Ok(
            HeadersView {
                stream_id: id,
                stream_dep: None,
                block: BlockView {
                    pseudo: if relative {
                        PseudoView { scheme: Some(HTTP@), ..pseudo }
                    } else {
                        pseudo
                    },
                    fields: request.headers,
                    is_over_size: false,
                },
                flags: HeadersFlag {
                    end_stream: end_of_stream,
                    end_headers: true,
                    padded: false,
                    priority: false,
                },
            },
        )
    }
}

/// The response that a header block is. One without a status counts as 200.
pub open spec fn received_response(pseudo: PseudoView, fields: Seq<FieldView>) -> ResponseView {
    ResponseView {
        status: match pseudo.status {
            Some(status) => status,
            None => 200,
        },
        version: Version::HTTP_2,
        headers: fields,
    }
}

/// The client's side of the conversion between messages and frames.
#[derive(Debug)]
pub struct Peer;

impl Peer {
    /// The HEADERS frame that a request goes out in.
    pub fn convert_send_message(
        id: StreamId,
        request: Request,
        protocol: Option<Vec<u8>>,
        end_of_stream: bool,
    ) -> (r: Result<Headers, UserError>)
        ensures
            match r {
                Ok(frame) => sent_request(id, request@, text_view(protocol), end_of_stream) == Ok::<
                    HeadersView,
                    UserError,
                >(frame@),
                Err(e) => sent_request(id, request@, text_view(protocol), end_of_stream) == Err::<
                    HeadersView,
                    UserError,
                >(e),
            },
    {
        // Build the set pseudo header set. All requests will include `method`
        // and `path`.
        let mut pseudo = Pseudo::request(request.method, request.uri, protocol);
        if pseudo.scheme.is_none() {
            // If the authority is not set either, the request was issued with a
            // relative URI, which is permitted only when forwarding HTTP 1.x
            // requests. Such a request gets the scheme "http".
            if pseudo.authority.is_none() {
                if request.version == Version::HTTP_2 {
                    return Err(UserError::MissingUriSchemeAndAuthority);
                }
                pseudo.scheme = Some(to_vec(HTTP.as_slice()));
            }
        }
        let block = HeaderBlock { pseudo, fields: request.headers, is_over_size: false };
        Ok(Headers::new(id, block, end_of_stream))
    }

    /// The response that a header block is. Every status that a block can hold
    /// is one that a response can have, so that none is refused.
    pub fn convert_poll_message(pseudo: Pseudo, fields: Vec<Field>, stream_id: StreamId) -> (r:
        Result<Response, Error>)
        ensures
            r matches Ok(response) && response@ == received_response(
                pseudo@,
                fields_view(fields@),
            ),
    {
        let status: u16 = match pseudo.status {
            Some(status) => status,
            None => 200,
        };
        Ok(Response { status, version: Version::HTTP_2, headers: fields })
    }
}

/// A request whose target has no path asks for `/`, or, with the method OPTIONS, for `*`;
/// any other asks for the path of its target as it is. A CONNECT request without a protocol
/// asks for no path and has no scheme.
pub proof fn law_paths(id: StreamId, request: RequestView, end: bool)
    ensures
        sent_request(id, request, request.protocol, end) matches Ok(f) ==> {
            let asked = f.block.pseudo;
            let path = request.uri.path_and_query;
            let tunnel = request.method == CONNECT@ && request.protocol is None;
            &&& asked.method == Some(request.method)
            &&& asked.authority == request.uri.authority
            &&& asked.protocol == request.protocol
            &&& asked.status is None
            &&& tunnel ==> asked.path is None
            &&& !tunnel && (path matches Some(p) && p.len() > 0) ==> asked.path == path
            &&& !tunnel && (path is None || path == Some(Seq::<u8>::empty())) ==> asked.path
                == Some(
                if request.method == OPTIONS@ {
                    seq![42u8]
                } else {
                    seq![47u8]
                },
            )
            &&& !tunnel && request.uri.scheme is Some ==> asked.scheme == request.uri.scheme
            &&& tunnel && request.uri.authority is Some ==> asked.scheme is None
            &&& f.block.fields == request.headers
        },
{
    assert(SLASH@ =~= seq![47u8]);
}

/// A response has the status and the headers of its header block, and the status 200 where
/// the block tells none.
pub proof fn law_responses_are_read_as_they_are(pseudo: PseudoView, fields: Seq<FieldView>)
    ensures
        ({
            let response = received_response(pseudo, fields);
            &&& pseudo.status matches Some(status) ==> response.status == status
            &&& pseudo.status is None ==> response.status == 200
            &&& response.headers == fields
            &&& response.version == Version::HTTP_2
        }),
{
}

} // verus!
