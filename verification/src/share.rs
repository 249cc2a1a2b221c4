//! What clients and servers share.

use crate::buf::payload;
use crate::client::run::{after, Call};
use crate::client::{with_streams, Connection};
use crate::error::{Error, ErrorView};
use crate::frame;
use crate::frame::reason::Reason;
use crate::hpack::field::{fields_view, Field};
use crate::proto::user::{
    capacity_reserved, data_sent, given_up, let_go, stream_capacity, trailers_sent,
};
use bytes::Bytes;
use vstd::prelude::*;

verus! {

/// The identifier of a stream: an unsigned 31-bit integer. Clients initiate the
/// odd streams, servers the even ones; zero stands for the connection.
#[derive(Clone, Copy, Debug, PartialEq, Eq, Hash, Structural)]
pub struct StreamId(pub(crate) u32);

impl StreamId {
    /// The number of the stream.
    pub closed spec fn number(self) -> u32 {
        self.0
    }

    /// The identifier of a stream of the protocol.
    pub(crate) fn from_internal(id: frame::StreamId) -> (r: StreamId)
        ensures
            r.number() == id.id,
    {
        StreamId(id.id)
    }

    /// The number of the stream.
    pub fn as_u32(&self) -> (n: u32)
        ensures
            n == self.number(),
            n == <u32 as vstd::std_specs::convert::FromSpec<StreamId>>::from_spec(*self),
    {
        u32::from(*self)
    }
}

/// A stream is known by its number: two identifiers are the same exactly when their
/// numbers are.
pub proof fn law_number_is_identifier(a: StreamId, b: StreamId)
    ensures
        a == b <==> a.number() == b.number(),
{
}

impl vstd::std_specs::convert::FromSpecImpl<StreamId> for u32 {
    open spec fn obeys_from_spec() -> bool {
        true
    }

    open spec fn from_spec(src: StreamId) -> u32 {
        src.number()
    }
}

impl From<StreamId> for u32 {
    fn from(src: StreamId) -> (n: u32) {
        src.0
    }
}

/// The two names that a stream has stand for the same number.
pub open spec fn internal(id: StreamId) -> frame::StreamId {
    frame::StreamId { id: id.number() }
}

/// Sends the body and the trailers of a request to the peer.
///
/// It is handed out when a request is sent, and works on the connection that it
/// was handed out by.
///
/// The request ends with a part of the body that says so, with trailers, or with
/// a reset. Data goes out as far as the windows of the stream and of the
/// connection allow; the rest waits until the peer opens them. There is no bound
/// on how much can wait.
#[derive(Debug)]
pub struct SendStream {
    pub(crate) id: frame::StreamId,
}

impl SendStream {
    /// The stream of the request.
    pub closed spec fn stream(self) -> frame::StreamId {
        self.id
    }

    /// A handle on a stream.
    pub(crate) fn new(id: frame::StreamId) -> (s: SendStream)
        ensures
            s.stream() == id,
    {
        SendStream { id }
    }

    /// Asks for capacity to send data, on top of what waits already. Only the
    /// last call counts; what was assigned beyond it goes back to the connection.
    /// An amount that does not fit in 32 bits counts as the largest that does.
    pub fn reserve_capacity(&mut self, conn: &mut Connection, capacity: usize)
        requires
            old(conn).wf(),
        ensures
            final(conn).wf(),
            *final(self) == *old(self),
            final(conn)@ == with_streams(
                old(conn)@,
                capacity_reserved(
                    old(conn)@.inner.streams,
                    old(self).stream(),
                    if capacity > u32::MAX {
                        u32::MAX
                    } else {
                        capacity as u32
                    },
                ),
            ),
            final(conn)@ == after(
                old(conn)@,
                Call::ReserveCapacity(
                    old(self).stream(),
                    if capacity > u32::MAX {
                        u32::MAX
                    } else {
                        capacity as u32
                    },
                ),
            ),
    {
        reveal(after);
        let most: u32 = if capacity > u32::MAX as usize {
            u32::MAX
        } else {
            capacity as u32
        };
        conn.stream_reserve(self.id, most);
    }

    /// The capacity that data can be sent on right away.
    pub fn capacity(&self, conn: &Connection) -> (n: usize)
        ensures
            n == stream_capacity(conn@.inner.streams, self.stream()),
    {
        conn.stream_capacity(self.id)
    }

    /// Sends a part of the body, with the word whether the request ends with it.
    /// After that nothing more can be sent. Capacity is asked for as it is
    /// needed.
    pub fn send_data(&mut self, conn: &mut Connection, data: Bytes, end_stream: bool) -> (r: Result<
        (),
        Error,
    >)
        requires
            old(conn).wf(),
        ensures
            final(conn).wf(),
            *final(self) == *old(self),
            match data_sent(
                old(conn)@.inner.streams,
                old(self).stream(),
                payload(data),
                end_stream,
            ) {
                Ok(streams) => r is Ok && final(conn)@ == with_streams(old(conn)@, streams),
                Err(e) => {
                    &&& r matches Err(err) && err@ == ErrorView::User(e)
                    &&& final(conn)@ == old(conn)@
                },
            },
            final(conn)@ == after(
                old(conn)@,
                Call::SendData(old(self).stream(), payload(data), end_stream),
            ),
    {
        reveal(after);
        conn.stream_send_data(self.id, data, end_stream)
    }

    /// Sends trailers, with which the request ends.
    pub fn send_trailers(&mut self, conn: &mut Connection, trailers: Vec<Field>) -> (r: Result<
        (),
        Error,
    >)
        requires
            old(conn).wf(),
        ensures
            final(conn).wf(),
            *final(self) == *old(self),
            match trailers_sent(
                old(conn)@.inner.streams,
                old(self).stream(),
                fields_view(trailers@),
            ) {
                Ok(streams) => r is Ok && final(conn)@ == with_streams(old(conn)@, streams),
                Err(e) => {
                    &&& r matches Err(err) && err@ == ErrorView::User(e)
                    &&& final(conn)@ == old(conn)@
                },
            },
            final(conn)@ == after(
                old(conn)@,
                Call::SendTrailers(old(self).stream(), fields_view(trailers@)),
            ),
    {
        reveal(after);
        conn.stream_send_trailers(self.id, trailers)
    }

    /// Resets the stream, which gives up the exchange. If it is over already,
    /// nothing happens.
    pub fn send_reset(&mut self, conn: &mut Connection, reason: Reason)
        requires
            old(conn).wf(),
        ensures
            final(conn).wf(),
            *final(self) == *old(self),
            final(conn)@ == with_streams(
                old(conn)@,
                given_up(old(conn)@.inner.streams, old(self).stream(), reason),
            ),
            final(conn)@ == after(old(conn)@, Call::SendReset(old(self).stream(), reason)),
    {
        reveal(after);
        conn.stream_reset(self.id, reason);
    }

    /// Lets go of the handle. If the request was not ended by then, with its head,
    /// with a part of its body or with trailers, the stream is reset, which gives
    /// up the exchange.
    pub fn release(self, conn: &mut Connection)
        requires
            old(conn).wf(),
        ensures
            final(conn).wf(),
            final(conn)@ == with_streams(
                old(conn)@,
                let_go(old(conn)@.inner.streams, self.stream()),
            ),
            final(conn)@ == after(old(conn)@, Call::Release(self.stream())),
    {
        reveal(after);
        conn.stream_let_go(self.id);
    }

    /// The identifier of the stream.
    pub fn stream_id(&self) -> (id: StreamId)
        ensures
            internal(id) == self.stream(),
    {
        StreamId::from_internal(self.id)
    }
}

} // verus!
