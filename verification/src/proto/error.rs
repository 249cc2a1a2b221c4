//! Errors on streams and on connections.

use crate::frame::head::StreamId;
use crate::frame::reason::Reason;
use crate::wire::to_vec;
use vstd::prelude::*;

verus! {

/// Who brought an error about.
#[derive(Clone, Copy, Debug, PartialEq, Eq, Structural)]
pub enum Initiator {
    User,
    Library,
    Remote,
}

/// An error on a stream, or on the connection with debug data for the peer.
#[derive(Debug)]
pub enum Error {
    Reset(StreamId, Reason, Initiator),
    GoAway(Vec<u8>, Reason, Initiator),
}

/// What an error says.
#[verifier::ext_equal]
pub enum ErrorView {
    Reset(StreamId, Reason, Initiator),
    GoAway(Seq<u8>, Reason, Initiator),
}

impl View for Error {
    type V = ErrorView;

    open spec fn view(&self) -> ErrorView {
        match self {
            Error::Reset(id, reason, initiator) => ErrorView::Reset(*id, *reason, *initiator),
            Error::GoAway(debug, reason, initiator) => ErrorView::GoAway(
                debug@,
                *reason,
                *initiator,
            ),
        }
    }
}

/// An error on a stream that this side found.
pub open spec fn reset_error(id: StreamId, reason: Reason) -> ErrorView {
    ErrorView::Reset(id, reason, Initiator::Library)
}

/// An error on the connection that this side found.
pub open spec fn go_away_error(reason: Reason) -> ErrorView {
    ErrorView::GoAway(Seq::empty(), reason, Initiator::Library)
}

/// An error on the connection that this side found, with debug data.
pub open spec fn go_away_data_error(reason: Reason, debug: Seq<u8>) -> ErrorView {
    ErrorView::GoAway(debug, reason, Initiator::Library)
}

impl Error {
    /// An error on a stream that this side found.
    pub fn library_reset(id: StreamId, reason: Reason) -> (e: Error)
        ensures
            e@ == reset_error(id, reason),
    {
        Error::Reset(id, reason, Initiator::Library)
    }

    /// An error on the connection that this side found.
    pub fn library_go_away(reason: Reason) -> (e: Error)
        ensures
            e@ == go_away_error(reason),
    {
        let e = Error::GoAway(Vec::new(), reason, Initiator::Library);
        assert(e@ =~= go_away_error(reason));
        e
    }

    /// An error on the connection that this side found, with debug data.
    pub fn library_go_away_data(reason: Reason, debug: &[u8]) -> (e: Error)
        ensures
            e@ == go_away_data_error(reason, debug@),
    {
        Error::GoAway(to_vec(debug), reason, Initiator::Library)
    }
}

} // verus!
