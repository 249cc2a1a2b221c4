//! Reading from the streams of a connection.

use crate::buf::payload;
use crate::frame::{Reason, StreamId};
use crate::hpack::field::{fields_view, Field, FieldView};
use crate::proto::error::{Error, ErrorView, Initiator};
use crate::proto::stream::{
    Cause, DataPoll, DataPollView, ResponsePoll, ResponsePollView, Stream, StreamState, StreamView,
    TrailersPoll, TrailersPollView,
};
use crate::proto::streams::{find, lemma_find, Accept, Meter, Streams, StreamsView};
use crate::proto::user::{lemma_replaced, lemma_share, released, replaced};
use bytes::Bytes;
use std::collections::VecDeque;
use vstd::prelude::*;

verus! {

/// The error of reading from a stream that is not there.
pub open spec fn missing(id: StreamId) -> ErrorView {
    ErrorView::Reset(id, Reason::INTERNAL_ERROR, Initiator::Library)
}

/// What asking for the response of a stream gives.
#[verifier::opaque]
pub open spec fn response_of(c: StreamsView, id: StreamId) -> ResponsePollView {
    match find(c.streams, id) {
        Some(i) => c.streams[i].response(),
        None => ResponsePollView::Failed(missing(id)),
    }
}

/// What asking for the next part of the body of a stream gives.
pub open spec fn data_of(c: StreamsView, id: StreamId) -> DataPollView {
    match find(c.streams, id) {
        Some(i) => c.streams[i].data(),
        None => DataPollView::Failed(missing(id)),
    }
}

/// What asking for the trailers of a stream gives.
pub open spec fn trailers_of(c: StreamsView, id: StreamId) -> TrailersPollView {
    match find(c.streams, id) {
        Some(i) => c.streams[i].trailers(),
        None => TrailersPollView::Failed(missing(id)),
    }
}

/// Whether the peer's message on a stream is at its end, and all of it was read.
#[verifier::opaque]
pub open spec fn at_end_of(c: StreamsView, id: StreamId) -> bool {
    match find(c.streams, id) {
        Some(i) => c.streams[i].at_end(),
        None => false,
    }
}

/// The streams after what was received first on one of them was read.
pub open spec fn read_from(c: StreamsView, id: StreamId) -> StreamsView {
    match find(c.streams, id) {
        Some(i) => replaced(c, i, c.streams[i].read(), c.m),
        None => c,
    }
}

/// The number of items that wait to be read on a stream.
pub open spec fn inbox_len(c: StreamsView, id: StreamId) -> nat {
    match find(c.streams, id) {
        Some(i) => c.streams[i].inbox.len(),
        None => 0,
    }
}

/// The reason of an error.
pub open spec fn reason_of_error(e: ErrorView) -> Reason {
    match e {
        ErrorView::Reset(_, reason, _) => reason,
        ErrorView::GoAway(_, reason, _) => reason,
    }
}

/// What happened on a stream behind the head of a message.
#[derive(Debug)]
pub enum BodyEvent {
    Data(Bytes),
    Trailers(Vec<Field>),
    End,
    Reset(Reason),
}

/// What happened on a stream behind the head of a message.
#[verifier::ext_equal]
pub enum BodyEventView {
    Data(Seq<u8>),
    Trailers(Seq<FieldView>),
    End,
    Reset(Reason),
}

impl View for BodyEvent {
    type V = BodyEventView;

    open spec fn view(&self) -> BodyEventView {
        match self {
            BodyEvent::Data(d) => BodyEventView::Data(payload(*d)),
            BodyEvent::Trailers(t) => BodyEventView::Trailers(fields_view(t@)),
            BodyEvent::End => BodyEventView::End,
            BodyEvent::Reset(reason) => BodyEventView::Reset(*reason),
        }
    }
}

/// The views of a run of events.
pub open spec fn body_events(s: Seq<BodyEvent>) -> Seq<BodyEventView> {
    s.map_values(|e: BodyEvent| e@)
}

/// The streams after a part of a body was read and its capacity released.
pub open spec fn data_taken(c: StreamsView, id: StreamId, len: nat) -> StreamsView {
    let c = read_from(c, id);
    match released(c, id, len as u32) {
        Ok(after) => after,
        Err(_) => c,
    }
}

pub(crate) proof fn lemma_find_update(streams: Seq<StreamView>, id: StreamId, i: int, s: StreamView)
    requires
        0 <= i < streams.len(),
        s.st.id == streams[i].st.id,
    ensures
        find(streams.update(i, s), id) == find(streams, id),
    decreases streams.len(),
{
    if streams.len() > 0 {
        if i == 0 {
            assert(streams.update(i, s).skip(1) =~= streams.skip(1));
        } else {
            assert(streams.update(i, s).skip(1) =~= streams.skip(1).update(i - 1, s));
            lemma_find_update(streams.skip(1), id, i - 1, s);
        }
    }
}

/// Taking a part of a body leaves one item less to read.
pub proof fn lemma_data_taken(c: StreamsView, id: StreamId, len: nat)
    requires
        inbox_len(c, id) > 0,
    ensures
        inbox_len(data_taken(c, id, len), id) == inbox_len(c, id) - 1,
{
    reveal(released);
    lemma_find(c.streams, id);
    let i = find(c.streams, id)->0;
    let s = c.streams[i];
    lemma_find_update(c.streams, id, i, s.read());
    let c1 = read_from(c, id);
    let n = len as u32;
    if n <= c1.streams[i].st.in_flight {
        let st = StreamState {
            in_flight: (c1.streams[i].st.in_flight - n) as u32,
            ..c1.streams[i].st
        };
        lemma_find_update(c1.streams, id, i, StreamView { st, ..c1.streams[i] });
    }
}

/// What a stream gives behind the head of a message: the streams after it was
/// read as far as it goes, what happened, and whether nothing more will. The
/// capacity of every part of the body that is read is released.
#[verifier::opaque]
pub open spec fn pumped(c: StreamsView, id: StreamId) -> (StreamsView, Seq<BodyEventView>, bool)
    decreases inbox_len(c, id),
{
    match data_of(c, id) {
        DataPollView::Ready(d) => {
            let next = data_taken(c, id, d.len());
            proof {
                lemma_data_taken(c, id, d.len());
            }
            let (after, events, done) = pumped(next, id);
            (after, seq![BodyEventView::Data(d)] + events, done)
        },
        DataPollView::Failed(e) => (c, seq![BodyEventView::Reset(reason_of_error(e))], true),
        DataPollView::End => match trailers_of(c, id) {
            TrailersPollView::Ready(t) => (
                read_from(c, id),
                seq![BodyEventView::Trailers(t)],
                true,
            ),
            _ => (c, seq![BodyEventView::End], true),
        },
        DataPollView::Pending => (c, Seq::empty(), false),
    }
}

/// The streams after the request that waits first was accepted.
#[verifier::opaque]
pub open spec fn accepted(c: StreamsView) -> StreamsView {
    let id = c.accept[0].id;
    let reset = match find(c.streams, id) {
        Some(i) => c.streams[i].st.cause matches Some(Cause::Stream(_, Initiator::Remote)),
        None => false,
    };
    let m = if reset && c.m.remote_resets > 0 {
        Meter { remote_resets: (c.m.remote_resets - 1) as usize, ..c.m }
    } else {
        c.m
    };
    StreamsView { accept: c.accept.skip(1), m, ..c }
}

/// The reason of an error.
pub fn error_reason(e: &Error) -> (r: Reason)
    ensures
        r == reason_of_error(e@),
{
    match e {
        Error::Reset(_, reason, _) => *reason,
        Error::GoAway(_, reason, _) => *reason,
    }
}

fn missing_error(id: StreamId) -> (e: Error)
    ensures
        e@ == missing(id),
{
    Error::library_reset(id, Reason::INTERNAL_ERROR)
}

impl Streams {
    proof fn lemma_read(before: Streams, after: Streams, i: int)
        requires
            before@.wf(),
            0 <= i < before.streams@.len(),
            after == (Streams {
                streams: after.streams,
                ..before
            }),
            after.streams@ == before.streams@.update(i, after.streams@[i]),
            before@.stream_ok(after.streams@[i]@),
            after.streams@[i]@.st.available == before.streams@[i]@.st.available,
            after.streams@[i]@.st.in_flight == before.streams@[i]@.st.in_flight,
        ensures
            after@.wf(),
            after@ == replaced(before@, i, after.streams@[i]@, before@.m),
            after.streams@[i]@ == before.streams@[i]@ ==> after@ == before@,
    {
        let s = after.streams@[i]@;
        Streams::lemma_stream_set(before, after, i);
        lemma_replaced(before@, i, s, after.m);
        assert(after@ =~= replaced(before@, i, s, after.m));
        assert(before@.streams.update(i, before@.streams[i]) =~= before@.streams);
    }

    /// Asks for the response of a stream.
    pub fn poll_response(&mut self, id: StreamId) -> (r: ResponsePoll)
        requires
            old(self)@.wf(),
        ensures
            final(self)@.wf(),
            final(self).m.max_send_frame == old(self).m.max_send_frame,
            r@ == response_of(old(self)@, id),
            final(self)@ == if r is Ready {
                read_from(old(self)@, id)
            } else {
                old(self)@
            },
    {
        reveal(response_of);
        match self.find(id) {
            None => ResponsePoll::Failed(missing_error(id)),
            Some(i) => {
                let ghost before = *self;
                proof {
                    lemma_share(self@, i as int);
                }
                let r = self.streams[i].poll_response();
                proof {
                    Streams::lemma_read(before, *self, i as int);
                }
                r
            },
        }
    }

    /// Asks for the next part of the body of a stream.
    pub fn poll_data(&mut self, id: StreamId) -> (r: DataPoll)
        requires
            old(self)@.wf(),
        ensures
            final(self)@.wf(),
            final(self).m.max_send_frame == old(self).m.max_send_frame,
            r@ == data_of(old(self)@, id),
            final(self)@ == if r is Ready {
                read_from(old(self)@, id)
            } else {
                old(self)@
            },
    {
        match self.find(id) {
            None => DataPoll::Failed(missing_error(id)),
            Some(i) => {
                let ghost before = *self;
                proof {
                    lemma_share(self@, i as int);
                }
                let r = self.streams[i].poll_data();
                proof {
                    Streams::lemma_read(before, *self, i as int);
                }
                r
            },
        }
    }

    /// Asks for the trailers of a stream.
    pub fn poll_trailers(&mut self, id: StreamId) -> (r: TrailersPoll)
        requires
            old(self)@.wf(),
        ensures
            final(self)@.wf(),
            final(self).m.max_send_frame == old(self).m.max_send_frame,
            r@ == trailers_of(old(self)@, id),
            final(self)@ == if r is Ready {
                read_from(old(self)@, id)
            } else {
                old(self)@
            },
    {
        match self.find(id) {
            None => TrailersPoll::Failed(missing_error(id)),
            Some(i) => {
                let ghost before = *self;
                proof {
                    lemma_share(self@, i as int);
                }
                let r = self.streams[i].poll_trailers();
                proof {
                    Streams::lemma_read(before, *self, i as int);
                }
                r
            },
        }
    }

    /// Whether the peer's message on a stream is at its end, and all of it was
    /// read.
    pub fn is_end_stream(&self, id: StreamId) -> (r: bool)
        ensures
            r == at_end_of(self@, id),
    {
        reveal(at_end_of);
        match self.find(id) {
            None => false,
            Some(i) => self.streams[i].is_end_stream(),
        }
    }

    /// Reads a stream as far as it goes, behind the head of a message, and says
    /// whether nothing more will come.
    pub fn pump_body(&mut self, id: StreamId, events: &mut VecDeque<BodyEvent>) -> (done: bool)
        requires
            old(self)@.wf(),
        ensures
            final(self)@.wf(),
            final(self).m.max_send_frame == old(self).m.max_send_frame,
            final(self)@ == pumped(old(self)@, id).0,
            body_events(final(events)@) == body_events(old(events)@) + pumped(
                old(self)@,
                id,
            ).1,
            done == pumped(old(self)@, id).2,
    {
        reveal(pumped);
        let ghost (after, all, fin) = pumped(self@, id);
        let ghost prior = body_events(events@);
        loop
            invariant
                self@.wf(),
                self.m.max_send_frame == old(self).m.max_send_frame,
                (after, all, fin) == pumped(old(self)@, id),
                prior == body_events(old(events)@),
                pumped(self@, id).0 == after,
                pumped(self@, id).2 == fin,
                body_events(events@) + pumped(self@, id).1 =~= prior + all,
            decreases inbox_len(self@, id),
        {
            reveal(pumped);
            let ghost before = self@;
            let ghost sent = body_events(events@);
            match self.poll_data(id) {
                DataPoll::Ready(data) => {
                    let ghost d = payload(data);
                    let len: usize = data.len();
                    let _ = self.release_capacity(id, len as u32);
                    proof {
                        lemma_data_taken(before, id, d.len());
                        let rest = pumped(self@, id).1;
                        assert(sent.push(BodyEventView::Data(d)) + rest =~= sent + (seq![
                            BodyEventView::Data(d),
                        ] + rest));
                    }
                    events.push_back(BodyEvent::Data(data));
                    assert(body_events(events@) =~= sent.push(BodyEventView::Data(d)));
                },
                DataPoll::Failed(e) => {
                    let reason = error_reason(&e);
                    events.push_back(BodyEvent::Reset(reason));
                    assert(body_events(events@) =~= sent + seq![BodyEventView::Reset(reason)]);
                    return true;
                },
                DataPoll::End => {
                    match self.poll_trailers(id) {
                        TrailersPoll::Ready(trailers) => {
                            let ghost t = fields_view(trailers@);
                            events.push_back(BodyEvent::Trailers(trailers));
                            assert(body_events(events@) =~= sent + seq![
                                BodyEventView::Trailers(t),
                            ]);
                        },
                        _ => {
                            events.push_back(BodyEvent::End);
                            assert(body_events(events@) =~= sent + seq![BodyEventView::End]);
                        },
                    }
                    return true;
                },
                DataPoll::Pending => {
                    assert(sent + Seq::<BodyEventView>::empty() =~= sent);
                    return false;
                },
            }
        }
    }

    /// Accepts the request that waits first.
    pub fn next_incoming(&mut self) -> (r: Option<Accept>)
        requires
            old(self)@.wf(),
        ensures
            final(self)@.wf(),
            final(self).m.max_send_frame == old(self).m.max_send_frame,
            match r {
                Some(a) => {
                    &&& old(self)@.accept.len() > 0
                    &&& a@ == old(self)@.accept[0]
                    &&& final(self)@ == accepted(old(self)@)
                },
                None => old(self)@.accept.len() == 0 && final(self)@ == old(self)@,
            },
    {
        reveal(accepted);
        let ghost before = self@;
        match self.accept.pop_front() {
            None => {
                assert(self@.accept =~= before.accept);
                None
            },
            Some(a) => {
                assert(self@.accept =~= before.accept.skip(1));
                let reset = match self.find(a.id) {
                    Some(i) => match self.streams[i].st.cause {
                        Some(Cause::Stream(_, Initiator::Remote)) => true,
                        _ => false,
                    },
                    None => false,
                };
                if reset && self.m.remote_resets > 0 {
                    self.m.remote_resets = self.m.remote_resets - 1;
                }
                proof {
                    Streams::lemma_same_streams(before, self@);
                }
                Some(a)
            },
        }
    }
}

} // verus!
