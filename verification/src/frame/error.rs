//! Why a frame cannot be read.

use crate::hpack::DecoderError;
use vstd::prelude::*;

verus! {

/// Why a frame could not be read.
#[derive(Clone, Copy, Debug, PartialEq, Eq, Structural)]
pub enum Error {
    /// The payload has a length that its kind does not allow.
    BadFrameSize,
    /// The padding is longer than what it pads.
    TooMuchPadding,
    /// A setting has a value out of its range.
    InvalidSettingValue,
    /// A window cannot be widened by zero.
    InvalidWindowUpdateValue,
    /// The payload has a length that its kind does not allow.
    InvalidPayloadLength,
    /// The payload of a SETTINGS frame is not a run of whole settings.
    InvalidPayloadAckSettings,
    /// The frame stands on a stream on which its kind is not allowed.
    InvalidStreamId,
    /// The header block does not make a message.
    MalformedMessage,
    /// A stream depends on itself.
    InvalidDependencyId,
    /// The header block could not be decoded.
    Hpack(DecoderError),
    /// The header list is larger than any that is put up with.
    HeaderListWayTooLarge,
}

} // verus!
