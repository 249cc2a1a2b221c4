//! What a user of the library can do wrong.

use vstd::prelude::*;

verus! {

/// What a user of the library did wrong.
#[derive(Clone, Copy, Debug, PartialEq, Eq, Structural)]
pub enum UserError {
    /// The stream is no longer active.
    InactiveStreamId,
    /// The stream is not in a state in which this frame may be sent.
    UnexpectedFrameType,
    /// The payload is larger than the peer accepts.
    PayloadTooBig,
    /// The message has headers that speak of the connection.
    MalformedHeaders,
    /// The request has no scheme or no authority.
    MissingUriSchemeAndAuthority,
    /// There is no identifier left for another stream.
    OverflowedStreamId,
    /// The connection takes leave or has ended, so that no stream can be opened.
    Rejected,
    /// The capacity that was released exceeds what was received.
    ReleaseCapacityTooBig,
}

} // verus!
