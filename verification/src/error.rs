//! The errors that users of the library get.

use crate::codec::error::UserError;
use crate::frame::reason::Reason;
use crate::proto;
use crate::proto::pump::{error_reason, reason_of_error};
use vstd::prelude::*;

verus! {

/// What went wrong: the protocol was broken, or a stream or the connection was
/// given up; or the library was not used as it can be.
#[derive(Debug)]
pub enum Error {
    Proto(proto::Error),
    User(UserError),
}

/// What an error says.
#[verifier::ext_equal]
pub enum ErrorView {
    Proto(proto::ErrorView),
    User(UserError),
}

impl View for Error {
    type V = ErrorView;

    open spec fn view(&self) -> ErrorView {
        match self {
            Error::Proto(e) => ErrorView::Proto(e@),
            Error::User(e) => ErrorView::User(*e),
        }
    }
}

/// The reason that an error gives the peer or got from it.
pub open spec fn spec_reason(e: ErrorView) -> Option<Reason> {
    match e {
        ErrorView::Proto(e) => Some(reason_of_error(e)),
        ErrorView::User(_) => None,
    }
}

impl Error {
    /// The reason that the error gives the peer or got from it, if the error is
    /// one of the protocol.
    pub fn reason(&self) -> (r: Option<Reason>)
        ensures
            r == spec_reason(self@),
    {
        match self {
            Error::Proto(e) => Some(error_reason(e)),
            Error::User(_) => None,
        }
    }
}

/// An error of the protocol has the reason that it was made with, and a mistake of the user
/// has none.
pub proof fn law_reasons(
    id: crate::frame::StreamId,
    reason: Reason,
    by: crate::proto::error::Initiator,
    debug: Seq<u8>,
    mistake: UserError,
)
    ensures
        spec_reason(ErrorView::Proto(proto::ErrorView::Reset(id, reason, by))) == Some(reason),
        spec_reason(ErrorView::Proto(proto::ErrorView::GoAway(debug, reason, by))) == Some(reason),
        spec_reason(ErrorView::User(mistake)) is None,
{
}

} // verus!
