//! One stream: its state, its windows, and what waits in it.

use crate::buf::payload;
use crate::frame::block::{BlockView, HeaderBlock};
use crate::frame::data::Data;
use crate::frame::headers::Headers;
use crate::frame::{Reason, StreamId};
use crate::hpack::field::{fields_view, Field, FieldView};
use crate::message::{Response, ResponseView};
use crate::proto::error::{Error, ErrorView, Initiator};
use bytes::Bytes;
use std::collections::VecDeque;
use vstd::prelude::*;

verus! {

/// The largest flow-control window.
pub const MAX_WINDOW_SIZE: u32 = 2_147_483_647;

/// How far one direction of a stream is.
#[derive(Clone, Copy, Debug, PartialEq, Eq, Structural)]
pub enum Half {
    AwaitingHeaders,
    Streaming,
    Closed,
}

/// Why a stream ended before its time: it was reset, or the connection failed.
#[derive(Clone, Copy, Debug, PartialEq, Eq, Structural)]
pub enum Cause {
    Stream(Reason, Initiator),
    Connection(Reason, Initiator),
}

/// The state of a stream, the frames and messages that wait in it aside.
#[derive(Clone, Copy, Debug, PartialEq, Eq, Structural)]
pub struct StreamState {
    pub id: StreamId,
    /// How far this side's message is.
    pub send: Half,
    /// How far the peer's message is.
    pub recv: Half,
    pub cause: Option<Cause>,
    /// The stream counts as open: its first frame may be sent, or was received.
    pub opened: bool,
    /// No one will read from the stream any more.
    pub released: bool,
    /// The stream is remembered though it was reset, so that what is still on
    /// its way for it can be ignored.
    pub keep: bool,
    /// The time at which the stream was reset.
    pub kept_at: u64,
    /// The request was a HEAD request.
    pub head: bool,
    /// What the send window differs by from its initial size.
    pub send_delta: i64,
    /// The capacity for sending that is assigned to the stream.
    pub available: u32,
    /// The capacity for sending that the stream asks for.
    pub requested: u32,
    /// The number of bytes that wait to be sent.
    pub buffered: usize,
    /// What the receive window has lost of its initial size.
    pub owed: u32,
    /// The number of received bytes that are not released yet.
    pub in_flight: u32,
    /// What the body still lacks of its announced length.
    pub remaining: Option<u64>,
}

/// What was received on a stream and not read yet.
#[derive(Debug)]
pub enum Incoming {
    Response(Response),
    Data(Bytes),
    Trailers(Vec<Field>),
}

/// What was received on a stream and not read yet.
#[verifier::ext_equal]
pub enum IncomingView {
    Response(ResponseView),
    Data(Seq<u8>),
    Trailers(Seq<FieldView>),
}

impl View for Incoming {
    type V = IncomingView;

    open spec fn view(&self) -> IncomingView {
        match self {
            Incoming::Response(r) => IncomingView::Response(r@),
            Incoming::Data(d) => IncomingView::Data(payload(*d)),
            Incoming::Trailers(t) => IncomingView::Trailers(fields_view(t@)),
        }
    }
}

/// What waits to be sent on a stream: a header block or a part of the body,
/// each with the word whether the stream ends with it.
#[derive(Debug)]
pub enum Outgoing {
    Headers(HeaderBlock, bool),
    Data(Bytes, bool),
}

/// What waits to be sent on a stream.
#[verifier::ext_equal]
pub enum OutgoingView {
    Headers(BlockView, bool),
    Data(Seq<u8>, bool),
}

impl View for Outgoing {
    type V = OutgoingView;

    open spec fn view(&self) -> OutgoingView {
        match self {
            Outgoing::Headers(b, end) => OutgoingView::Headers(b@, *end),
            Outgoing::Data(d, end) => OutgoingView::Data(payload(*d), *end),
        }
    }
}

/// A stream.
#[derive(Debug)]
pub struct Stream {
    pub st: StreamState,
    pub inbox: VecDeque<Incoming>,
    pub outbox: VecDeque<Outgoing>,
}

/// A stream: its state, what was received on it and not read yet, and what waits
/// to be sent on it, the oldest first.
#[verifier::ext_equal]
pub struct StreamView {
    pub st: StreamState,
    pub inbox: Seq<IncomingView>,
    pub outbox: Seq<OutgoingView>,
}

/// The views of a run of received items.
pub open spec fn inbox_view(s: Seq<Incoming>) -> Seq<IncomingView> {
    s.map_values(|i: Incoming| i@)
}

/// The views of a run of waiting items.
pub open spec fn outbox_view(s: Seq<Outgoing>) -> Seq<OutgoingView> {
    s.map_values(|o: Outgoing| o@)
}

impl View for Stream {
    type V = StreamView;

    open spec fn view(&self) -> StreamView {
        StreamView {
            st: self.st,
            inbox: inbox_view(self.inbox@),
            outbox: outbox_view(self.outbox@),
        }
    }
}

/// The number of body bytes in a run of waiting items.
pub open spec fn body_len(outbox: Seq<OutgoingView>) -> nat
    decreases outbox.len(),
{
    if outbox.len() == 0 {
        0
    } else {
        (match outbox[0] {
            OutgoingView::Headers(_, _) => 0,
            OutgoingView::Data(d, _) => d.len(),
        }) + body_len(outbox.skip(1))
    }
}

impl StreamState {
    /// Both directions have come to their end, and nothing waits to be sent.
    pub open spec fn is_closed(self) -> bool {
        self.send == Half::Closed && self.recv == Half::Closed
    }

    /// The window that the peer has opened, where windows start with `init`.
    pub open spec fn send_window(self, init: u32) -> int {
        init + self.send_delta
    }

    /// What the peer may still send, where windows start with `init`.
    pub open spec fn recv_window(self, init: u32) -> int {
        init - self.owed
    }
}

impl StreamView {
    /// What the numbers of a stream always keep to.
    pub open spec fn wf(self) -> bool {
        &&& self.st.id.wf()
        &&& self.st.id.id != 0
        &&& -(MAX_WINDOW_SIZE as int) <= self.st.send_delta <= MAX_WINDOW_SIZE
        &&& self.st.available <= self.st.requested
        &&& self.st.available <= MAX_WINDOW_SIZE
        &&& self.st.in_flight <= self.st.owed <= MAX_WINDOW_SIZE
        &&& self.st.buffered == body_len(self.outbox)
        &&& self.st.cause is Some ==> self.st.is_closed()
    }

    /// Nothing is left to be done on the stream.
    pub open spec fn done(self) -> bool {
        self.st.is_closed() && self.outbox.len() == 0
    }

    /// The stream counts against the limit on concurrent streams.
    pub open spec fn active(self) -> bool {
        self.st.opened && !self.done()
    }
}

/// A new stream.
pub open spec fn new_stream(id: StreamId, send: Half, recv: Half, opened: bool) -> StreamView {
    StreamView {
        st: StreamState {
            id,
            send,
            recv,
            cause: None,
            opened,
            released: false,
            keep: false,
            kept_at: 0,
            head: false,
            send_delta: 0,
            available: 0,
            requested: 0,
            buffered: 0,
            owed: 0,
            in_flight: 0,
            remaining: None,
        },
        inbox: Seq::empty(),
        outbox: Seq::empty(),
    }
}

/// The error that reading from a stream gives once it ended before its time.
pub open spec fn cause_error(id: StreamId, cause: Cause) -> ErrorView {
    match cause {
        Cause::Stream(reason, initiator) => ErrorView::Reset(id, reason, initiator),
        Cause::Connection(reason, initiator) => ErrorView::GoAway(
            Seq::empty(),
            reason,
            initiator,
        ),
    }
}

/// What asking for the response gave.
#[derive(Debug)]
pub enum ResponsePoll {
    Ready(Response),
    Failed(Error),
    Pending,
}

/// What asking for the response gives.
#[verifier::ext_equal]
pub enum ResponsePollView {
    Ready(ResponseView),
    Failed(ErrorView),
    Pending,
}

impl View for ResponsePoll {
    type V = ResponsePollView;

    open spec fn view(&self) -> ResponsePollView {
        match self {
            ResponsePoll::Ready(r) => ResponsePollView::Ready(r@),
            ResponsePoll::Failed(e) => ResponsePollView::Failed(e@),
            ResponsePoll::Pending => ResponsePollView::Pending,
        }
    }
}

/// What asking for the next part of the body gave.
#[derive(Debug)]
pub enum DataPoll {
    Ready(Bytes),
    Failed(Error),
    End,
    Pending,
}

/// What asking for the next part of the body gives.
#[verifier::ext_equal]
pub enum DataPollView {
    Ready(Seq<u8>),
    Failed(ErrorView),
    End,
    Pending,
}

impl View for DataPoll {
    type V = DataPollView;

    open spec fn view(&self) -> DataPollView {
        match self {
            DataPoll::Ready(d) => DataPollView::Ready(payload(*d)),
            DataPoll::Failed(e) => DataPollView::Failed(e@),
            DataPoll::End => DataPollView::End,
            DataPoll::Pending => DataPollView::Pending,
        }
    }
}

/// What asking for the trailers gave.
#[derive(Debug)]
pub enum TrailersPoll {
    Ready(Vec<Field>),
    Failed(Error),
    End,
    Pending,
}

/// What asking for the trailers gives.
#[verifier::ext_equal]
pub enum TrailersPollView {
    Ready(Seq<FieldView>),
    Failed(ErrorView),
    End,
    Pending,
}

impl View for TrailersPoll {
    type V = TrailersPollView;

    open spec fn view(&self) -> TrailersPollView {
        match self {
            TrailersPoll::Ready(t) => TrailersPollView::Ready(fields_view(t@)),
            TrailersPoll::Failed(e) => TrailersPollView::Failed(e@),
            TrailersPoll::End => TrailersPollView::End,
            TrailersPoll::Pending => TrailersPollView::Pending,
        }
    }
}

impl StreamView {
    /// The stream without the item that was received first.
    pub open spec fn read(self) -> StreamView {
        StreamView { inbox: self.inbox.skip(1), ..self }
    }

    /// What asking for the response gives: what was received first, if that is a
    /// response; else why there will be none.
    pub open spec fn response(self) -> ResponsePollView {
        if self.inbox.len() > 0 {
            match self.inbox[0] {
                IncomingView::Response(r) => ResponsePollView::Ready(r),
                _ => ResponsePollView::Failed(
                    ErrorView::Reset(self.st.id, Reason::PROTOCOL_ERROR, Initiator::Library),
                ),
            }
        } else {
            match self.st.cause {
                Some(c) => ResponsePollView::Failed(cause_error(self.st.id, c)),
                None => if self.st.recv == Half::Closed {
                    ResponsePollView::Failed(
                        ErrorView::Reset(self.st.id, Reason::PROTOCOL_ERROR, Initiator::Library),
                    )
                } else {
                    ResponsePollView::Pending
                },
            }
        }
    }

    /// What asking for the next part of the body gives: what was received first,
    /// if that is one; the end of the body, if something else was or nothing
    /// more can come; else why there will be none.
    pub open spec fn data(self) -> DataPollView {
        if self.inbox.len() > 0 {
            match self.inbox[0] {
                IncomingView::Data(d) => DataPollView::Ready(d),
                _ => DataPollView::End,
            }
        } else {
            match self.st.cause {
                Some(c) => DataPollView::Failed(cause_error(self.st.id, c)),
                None => if self.st.recv == Half::Closed {
                    DataPollView::End
                } else {
                    DataPollView::Pending
                },
            }
        }
    }

    /// What asking for the trailers gives: what was received first, if that is
    /// trailers; none, if nothing more can come; else why there will be none.
    pub open spec fn trailers(self) -> TrailersPollView {
        if self.inbox.len() > 0 {
            match self.inbox[0] {
                IncomingView::Trailers(t) => TrailersPollView::Ready(t),
                _ => TrailersPollView::Pending,
            }
        } else {
            match self.st.cause {
                Some(c) => TrailersPollView::Failed(cause_error(self.st.id, c)),
                None => if self.st.recv == Half::Closed {
                    TrailersPollView::End
                } else {
                    TrailersPollView::Pending
                },
            }
        }
    }

    /// The peer's message is at its end, and all of it was read.
    pub open spec fn at_end(self) -> bool {
        self.st.recv == Half::Closed && self.st.cause is None && self.inbox.len() == 0
    }
}

fn cause_to_error(id: StreamId, cause: Cause) -> (e: Error)
    ensures
        e@ == cause_error(id, cause),
{
    match cause {
        Cause::Stream(reason, initiator) => Error::Reset(id, reason, initiator),
        Cause::Connection(reason, initiator) => {
            let e = Error::GoAway(Vec::new(), reason, initiator);
            assert(e@ =~= cause_error(id, cause));
            e
        },
    }
}

impl Stream {
    /// A new stream.
    pub fn new(id: StreamId, send: Half, recv: Half, opened: bool) -> (s: Stream)
        ensures
            s@ == new_stream(id, send, recv, opened),
    {
        let s = Stream {
            st: StreamState {
                id,
                send,
                recv,
                cause: None,
                opened,
                released: false,
                keep: false,
                kept_at: 0,
                head: false,
                send_delta: 0,
                available: 0,
                requested: 0,
                buffered: 0,
                owed: 0,
                in_flight: 0,
                remaining: None,
            },
            inbox: VecDeque::new(),
            outbox: VecDeque::new(),
        };
        assert(s@ =~= new_stream(id, send, recv, opened));
        s
    }

    fn pop_inbox(&mut self) -> (r: Option<Incoming>)
        ensures
            match r {
                Some(i) => {
                    &&& old(self)@.inbox.len() > 0
                    &&& i@ == old(self)@.inbox[0]
                    &&& final(self)@ == old(self)@.read()
                },
                None => old(self)@.inbox.len() == 0 && final(self)@ == old(self)@,
            },
    {
        let r = self.inbox.pop_front();
        proof {
            if r is Some {
                assert(inbox_view(self.inbox@) =~= old(self)@.inbox.skip(1));
            } else {
                assert(inbox_view(self.inbox@) =~= old(self)@.inbox);
            }
        }
        r
    }

    fn unpop_inbox(&mut self, i: Incoming)
        ensures
            final(self)@ == (StreamView { inbox: seq![i@] + old(self)@.inbox, ..old(self)@ }),
    {
        let ghost v = i@;
        self.inbox.push_front(i);
        assert(inbox_view(self.inbox@) =~= seq![v] + old(self)@.inbox);
    }

    /// Asks for the response.
    pub fn poll_response(&mut self) -> (r: ResponsePoll)
        ensures
            r@ == old(self)@.response(),
            final(self)@ == if r is Ready {
                old(self)@.read()
            } else {
                old(self)@
            },
    {
        let ghost before = self@;
        match self.pop_inbox() {
            Some(Incoming::Response(response)) => ResponsePoll::Ready(response),
            Some(other) => {
                self.unpop_inbox(other);
                assert(self@.inbox =~= before.inbox);
                ResponsePoll::Failed(Error::library_reset(self.st.id, Reason::PROTOCOL_ERROR))
            },
            None => match self.st.cause {
                Some(cause) => ResponsePoll::Failed(cause_to_error(self.st.id, cause)),
                None => {
                    if self.st.recv == Half::Closed {
                        ResponsePoll::Failed(
                            Error::library_reset(self.st.id, Reason::PROTOCOL_ERROR),
                        )
                    } else {
                        ResponsePoll::Pending
                    }
                },
            },
        }
    }

    /// Asks for the next part of the body.
    pub fn poll_data(&mut self) -> (r: DataPoll)
        ensures
            r@ == old(self)@.data(),
            final(self)@ == if r is Ready {
                old(self)@.read()
            } else {
                old(self)@
            },
    {
        let ghost before = self@;
        match self.pop_inbox() {
            Some(Incoming::Data(data)) => DataPoll::Ready(data),
            Some(other) => {
                self.unpop_inbox(other);
                assert(self@.inbox =~= before.inbox);
                DataPoll::End
            },
            None => match self.st.cause {
                Some(cause) => DataPoll::Failed(cause_to_error(self.st.id, cause)),
                None => {
                    if self.st.recv == Half::Closed {
                        DataPoll::End
                    } else {
                        DataPoll::Pending
                    }
                },
            },
        }
    }

    /// Asks for the trailers.
    pub fn poll_trailers(&mut self) -> (r: TrailersPoll)
        ensures
            r@ == old(self)@.trailers(),
            final(self)@ == if r is Ready {
                old(self)@.read()
            } else {
                old(self)@
            },
    {
        let ghost before = self@;
        match self.pop_inbox() {
            Some(Incoming::Trailers(trailers)) => TrailersPoll::Ready(trailers),
            Some(other) => {
                self.unpop_inbox(other);
                assert(self@.inbox =~= before.inbox);
                TrailersPoll::Pending
            },
            None => match self.st.cause {
                Some(cause) => TrailersPoll::Failed(cause_to_error(self.st.id, cause)),
                None => {
                    if self.st.recv == Half::Closed {
                        TrailersPoll::End
                    } else {
                        TrailersPoll::Pending
                    }
                },
            },
        }
    }

    /// Whether the peer's message is at its end, and all of it was read.
    pub fn is_end_stream(&self) -> (r: bool)
        ensures
            r == self@.at_end(),
    {
        self.st.recv == Half::Closed && self.st.cause.is_none() && self.inbox.len() == 0
    }

    /// Adds an item to what was received.
    pub fn push_inbox(&mut self, i: Incoming)
        ensures
            final(self)@ == (StreamView { inbox: old(self)@.inbox.push(i@), ..old(self)@ }),
    {
        let ghost v = i@;
        self.inbox.push_back(i);
        assert(inbox_view(self.inbox@) =~= old(self)@.inbox.push(v));
    }

    /// Adds an item to what waits to be sent.
    pub fn push_outbox(&mut self, o: Outgoing)
        ensures
            final(self)@ == (StreamView { outbox: old(self)@.outbox.push(o@), ..old(self)@ }),
    {
        let ghost v = o@;
        self.outbox.push_back(o);
        assert(outbox_view(self.outbox@) =~= old(self)@.outbox.push(v));
    }
}

} // verus!
