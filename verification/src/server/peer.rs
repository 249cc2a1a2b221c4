//! How a server's messages stand in frames.

use crate::client::peer::request_pseudo;
use crate::codec::error::UserError;
use crate::frame::block::{
    no_pseudo, text_view, BlockView, HeaderBlock, Pseudo, PseudoView,
};
use crate::frame::head::StreamId;
use crate::frame::headers::{Headers, HeadersFlag, HeadersView, PushPromise, PushPromiseView};
use crate::frame::reason::Reason;
use crate::hpack::field::{fields_view, Field, FieldView};
use crate::message::{
    content_length, content_length_of, decimal, first_value, is_digits, lemma_decimal_bound,
    ContentLength, Request, RequestView, Response, ResponseView, Uri, UriView, Version,
};
use crate::names::{CONNECT, CONTENT_LENGTH, GET, HEAD};
use crate::proto::error::{reset_error, Error};
use crate::uri::{
    authority_accepts, is_authority, is_scheme, path_from_bytes, path_of, scheme_accepts,
};
use crate::wire::same_bytes;
use vstd::prelude::*;

verus! {

/// The HEADERS frame that a response goes out in.
pub open spec fn sent_response(id: StreamId, response: ResponseView, end_of_stream: bool) -> HeadersView {
    HeadersView {
        stream_id: id,
        stream_dep: None,
        block: BlockView {
            pseudo: PseudoView { status: Some(response.status), ..no_pseudo() },
            fields: response.headers,
            is_over_size: false,
        },
        flags: HeadersFlag {
            end_stream: end_of_stream,
            end_headers: true,
            padded: false,
            priority: false,
        },
    }
}

/// Whether a request may be promised: there can be such a request, it has no body, and its method is safe
/// and its answer cacheable.
pub open spec fn can_promise(request: RequestView) -> bool {
    &&& request.wf()
    &&& request.method == GET@ || request.method == HEAD@
    &&& match content_length_of(request.headers) {
        ContentLength::Omitted => true,
        ContentLength::Invalid => false,
        ContentLength::Length(n) => n == 0,
    }
}

/// The PUSH_PROMISE frame that a promised request goes out in.
pub open spec fn sent_promise(
    stream_id: StreamId,
    promised_id: StreamId,
    request: RequestView,
) -> Result<PushPromiseView, UserError> {
    if can_promise(request) {
        Ok(
            PushPromiseView {
                stream_id,
                promised_id,
                block: BlockView {
                    pseudo: request_pseudo(request.method, request.uri, None),
                    fields: request.headers,
                    is_over_size: false,
                },
                flags: HeadersFlag {
                    end_stream: false,
                    end_headers: true,
                    padded: false,
                    priority: false,
                },
            },
        )
    } else {
        Err(UserError::MalformedHeaders)
    }
}

/// What was found of the target of a request: for each part that the request
/// has, whether it is in order, and the text of the path.
#[derive(Debug)]
pub struct Target {
    pub authority_ok: bool,
    pub scheme_ok: bool,
    pub path: Option<Vec<u8>>,
}

/// The request that a header block is, where its target was found in this
/// order; none where the block is malformed. A plain CONNECT request has
/// neither scheme nor path, every other one has a scheme, and only CONNECT
/// requests have a protocol. A scheme without an authority is dropped.
pub open spec fn request_of(
    pseudo: PseudoView,
    fields: Seq<FieldView>,
    authority_ok: bool,
    scheme_ok: bool,
    path: Option<Seq<u8>>,
) -> Option<RequestView> {
    let is_connect = pseudo.method == Some(CONNECT@);
    let has_protocol = pseudo.protocol is Some;
    let tunnel = is_connect && !has_protocol;
    let uri = UriView {
        scheme: if pseudo.authority is Some {
            pseudo.scheme
        } else {
            None
        },
        authority: pseudo.authority,
        path_and_query: if pseudo.path is Some {
            path
        } else {
            None
        },
    };
    if {
        ||| pseudo.method is None
        ||| has_protocol && !is_connect
        ||| pseudo.status is Some
        ||| pseudo.authority is Some && !authority_ok
        ||| pseudo.scheme is Some && (tunnel || !scheme_ok)
        ||| pseudo.scheme is None && !tunnel
        ||| pseudo.path is Some && (tunnel || pseudo.path->0.len() == 0 || path is None)
        ||| pseudo.path is None && is_connect && has_protocol
        ||| !uri.wf()
    } {
        None
    } else {
        Some(
            RequestView {
                method: pseudo.method->0,
                uri,
                version: Version::HTTP_2,
                protocol: pseudo.protocol,
                headers: fields,
            },
        )
    }
}

/// The request that a header block is; none where the block is malformed.
pub open spec fn received_request(pseudo: PseudoView, fields: Seq<FieldView>) -> Option<RequestView> {
    request_of(
        pseudo,
        fields,
        pseudo.authority is Some && is_authority(pseudo.authority->0),
        pseudo.scheme is Some && is_scheme(pseudo.scheme->0),
        if pseudo.path is Some {
            path_of(pseudo.path->0)
        } else {
            None
        },
    )
}

/// The server's side of the conversion between messages and frames.
#[derive(Debug)]
pub struct Peer;

impl Peer {
    /// The HEADERS frame that a response goes out in.
    pub fn convert_send_message(id: StreamId, response: Response, end_of_stream: bool) -> (r:
        Headers)
        ensures
            r@ == sent_response(id, response@, end_of_stream),
    {
        let pseudo = Pseudo::response(response.status);
        let block = HeaderBlock { pseudo, fields: response.headers, is_over_size: false };
        Headers::new(id, block, end_of_stream)
    }

    /// Whether a request may be promised.
    pub fn validate_request(request: &Request) -> (r: bool)
        ensures
            r == can_promise(request@),
    {
        match content_length(&request.headers) {
            ContentLength::Omitted => {},
            ContentLength::Invalid => {
                return false;
            },
            ContentLength::Length(n) => {
                if n != 0 {
                    return false;
                }
            },
        }
        if !request.is_valid() {
            return false;
        }
        let method = request.method.as_slice();
        same_bytes(method, GET.as_slice()) || same_bytes(method, HEAD.as_slice())
    }

    /// The PUSH_PROMISE frame that a promised request goes out in.
    pub fn convert_push_message(
        stream_id: StreamId,
        promised_id: StreamId,
        request: Request,
    ) -> (r: Result<PushPromise, UserError>)
        ensures
            match r {
                Ok(frame) => sent_promise(stream_id, promised_id, request@) == Ok::<
                    PushPromiseView,
                    UserError,
                >(frame@),
                Err(e) => sent_promise(stream_id, promised_id, request@) == Err::<
                    PushPromiseView,
                    UserError,
                >(e),
            },
    {
        if !Peer::validate_request(&request) {
            return Err(UserError::MalformedHeaders);
        }
        let pseudo = Pseudo::request(request.method, request.uri, None);
        let block = HeaderBlock { pseudo, fields: request.headers, is_over_size: false };
        Ok(PushPromise::new(stream_id, promised_id, block))
    }

    /// The request that a header block is, where its target was found in this
    /// order.
    pub fn build_request(pseudo: Pseudo, fields: Vec<Field>, target: Target, stream_id: StreamId) -> (r:
        Result<Request, Error>)
        ensures
            match request_of(
                pseudo@,
                fields_view(fields@),
                target.authority_ok,
                target.scheme_ok,
                text_view(target.path),
            ) {
                Some(request) => r matches Ok(q) && q@ == request,
                None => r matches Err(e) && e@ == reset_error(stream_id, Reason::PROTOCOL_ERROR),
            },
    {
        let malformed = Err(Error::library_reset(stream_id, Reason::PROTOCOL_ERROR));
        let method = match pseudo.method {
            Some(method) => method,
            None => {
                return malformed;
            },
        };
        let is_connect = same_bytes(method.as_slice(), CONNECT.as_slice());
        let has_protocol = pseudo.protocol.is_some();
        if has_protocol && !is_connect {
            return malformed;
        }
        if pseudo.status.is_some() {
            return malformed;
        }
        let mut uri = Uri { scheme: None, authority: None, path_and_query: None };
        // A request that comes from HTTP/1 must not have the :authority
        // header
        if let Some(authority) = pseudo.authority {
            if !target.authority_ok {
                return malformed;
            }
            uri.authority = Some(authority);
        }
        // A :scheme is required, except CONNECT.
        if let Some(scheme) = pseudo.scheme {
            if is_connect && !has_protocol {
                return malformed;
            }
            if !target.scheme_ok {
                return malformed;
            }
            // It's not possible to build an `Uri` from a scheme and path. So,
            // after validating is was a valid scheme, we just have to drop it
            // if there isn't an :authority.
            if uri.authority.is_some() {
                uri.scheme = Some(scheme);
            }
        } else if !is_connect || has_protocol {
            return malformed;
        }
        if let Some(path) = pseudo.path {
            if is_connect && !has_protocol {
                return malformed;
            }
            // This cannot be empty
            if path.len() == 0 {
                return malformed;
            }
            if target.path.is_none() {
                return malformed;
            }
            uri.path_and_query = target.path;
        } else if is_connect && has_protocol {
            return malformed;
        }
        if !uri.goes_together() {
            return malformed;
        }
        Ok(
            Request {
                method,
                uri,
                version: Version::HTTP_2,
                protocol: pseudo.protocol,
                headers: fields,
            },
        )
    }

    /// The request that a header block is.
    pub fn convert_poll_message(pseudo: Pseudo, fields: Vec<Field>, stream_id: StreamId) -> (r:
        Result<Request, Error>)
        ensures
            match received_request(pseudo@, fields_view(fields@)) {
                Some(request) => r matches Ok(q) && q@ == request,
                None => r matches Err(e) && e@ == reset_error(stream_id, Reason::PROTOCOL_ERROR),
            },
    {
        let authority_ok = match &pseudo.authority {
            Some(authority) => authority_accepts(authority.as_slice()),
            None => false,
        };
        let scheme_ok = match &pseudo.scheme {
            Some(scheme) => scheme_accepts(scheme.as_slice()),
            None => false,
        };
        let path = match &pseudo.path {
            Some(path) => path_from_bytes(path.as_slice()),
            None => None,
        };
        Peer::build_request(pseudo, fields, Target { authority_ok, scheme_ok, path }, stream_id)
    }
}

/// A header block is a request only if it has a method and is no response, and if it has
/// what requests with that method have: a CONNECT request without a protocol has neither
/// scheme nor path, every other request has a scheme, one with a protocol is a CONNECT
/// request with a path, and a path is not empty. Each part is one that there can be.
pub proof fn law_malformed_heads(pseudo: PseudoView, fields: Seq<FieldView>)
    ensures
        received_request(pseudo, fields) is Some ==> {
            let tunnel = pseudo.method == Some(CONNECT@) && pseudo.protocol is None;
            &&& pseudo.method is Some
            &&& pseudo.status is None
            &&& pseudo.protocol is Some ==> pseudo.method == Some(CONNECT@) && pseudo.path is Some
            &&& tunnel ==> pseudo.scheme is None && pseudo.path is None
            &&& !tunnel ==> pseudo.scheme is Some
            &&& pseudo.path matches Some(p) ==> p.len() > 0 && path_of(p) is Some
            &&& pseudo.authority matches Some(a) ==> is_authority(a)
            &&& pseudo.scheme matches Some(s) ==> is_scheme(s)
        },
{
}

/// The request that a header block is has the method, the authority, the path, the protocol
/// and the headers of the block, and its scheme too if there is an authority.
pub proof fn law_heads_are_read_as_they_are(pseudo: PseudoView, fields: Seq<FieldView>)
    ensures
        received_request(pseudo, fields) matches Some(request) ==> {
            &&& pseudo.method == Some(request.method)
            &&& request.uri.authority == pseudo.authority
            &&& request.uri.scheme == if pseudo.authority is Some {
                pseudo.scheme
            } else {
                None
            }
            &&& request.uri.path_and_query == match pseudo.path {
                Some(p) => path_of(p),
                None => None,
            }
            &&& request.protocol == pseudo.protocol
            &&& request.headers == fields
            &&& request.version == Version::HTTP_2
        },
{
}

/// A response goes out with its status and its headers, and no other pseudo-header.
pub proof fn law_responses_go_out_as_they_are(id: StreamId, response: ResponseView, end: bool)
    ensures
        ({
            let f = sent_response(id, response, end);
            &&& f.stream_id == id
            &&& f.block.pseudo.status == Some(response.status)
            &&& f.block.pseudo.method is None && f.block.pseudo.scheme is None
            &&& f.block.pseudo.authority is None && f.block.pseudo.path is None
            &&& f.block.pseudo.protocol is None
            &&& f.block.fields == response.headers
            &&& f.flags.end_stream == end
            &&& f.flags.end_headers
        }),
{
}

/// A header block that has what a request with its method has, each part being one that
/// there can be, is a request; no other is. A request without an authority has a target of
/// its path alone.
pub proof fn law_well_formed_heads(pseudo: PseudoView, fields: Seq<FieldView>)
    ensures
        ({
            let tunnel = pseudo.method == Some(CONNECT@) && pseudo.protocol is None;
            received_request(pseudo, fields) is Some <==> {
                &&& pseudo.method is Some && pseudo.status is None
                &&& tunnel ==> pseudo.scheme is None && pseudo.path is None
                &&& !tunnel ==> (pseudo.scheme matches Some(s) && is_scheme(s))
                &&& pseudo.protocol is Some ==> pseudo.method == Some(CONNECT@) && pseudo.path is Some
                &&& pseudo.path matches Some(p) ==> p.len() > 0 && path_of(p) is Some
                &&& pseudo.authority matches Some(a) ==> is_authority(a)
                &&& !tunnel && pseudo.authority is Some ==> pseudo.path is Some
            }
        }),
{
}

/// A request can be promised if its method is GET or HEAD and it announces no body. The
/// promise tells its method, its target and its headers, and which stream it is for.
pub proof fn law_promises(id: StreamId, promised: StreamId, request: RequestView)
    ensures
        match sent_promise(id, promised, request) {
            Err(e) => {
                &&& e == UserError::MalformedHeaders
                &&& {
                    ||| !request.wf()
                    ||| request.method != GET@ && request.method != HEAD@
                    ||| (first_value(request.headers, CONTENT_LENGTH@) matches Some(text) && !(
                    text.len() <= 19 && is_digits(text) && decimal(text) == 0))
                }
            },
            Ok(f) => {
                &&& request.wf()
                &&& request.method == GET@ || request.method == HEAD@
                &&& first_value(request.headers, CONTENT_LENGTH@) matches Some(text)
                    ==> text.len() <= 19 && is_digits(text) && decimal(text) == 0
                &&& f.stream_id == id && f.promised_id == promised
                &&& f.block.pseudo.method == Some(request.method)
                &&& f.block.pseudo.authority == request.uri.authority
                &&& f.block.pseudo.scheme == request.uri.scheme
                &&& f.block.pseudo.protocol is None && f.block.pseudo.status is None
                &&& (request.uri.path_and_query matches Some(p) && p.len() > 0)
                    ==> f.block.pseudo.path == request.uri.path_and_query
                &&& f.block.fields == request.headers
                &&& f.flags.end_headers && !f.flags.end_stream
            },
        },
{
    if let Some(text) = first_value(request.headers, CONTENT_LENGTH@) {
        if text.len() <= 19 && is_digits(text) {
            lemma_decimal_bound(text, 19);
        }
    }
    assert(GET@ != CONNECT@ && HEAD@ != CONNECT@) by {
        assert(GET@.len() == 3 && HEAD@.len() == 4 && CONNECT@.len() == 7);
    }
}

} // verus!
