//! Why a stream or a connection was given up.

use vstd::prelude::*;

verus! {

/// The error codes of HTTP/2, carried by RST_STREAM and GOAWAY frames.
///
/// A code without a name of its own is carried as it is in `Other`.
#[allow(non_camel_case_types)]
#[derive(Clone, Copy, Debug, PartialEq, Eq, Structural)]
pub enum Reason {
    NO_ERROR,
    PROTOCOL_ERROR,
    INTERNAL_ERROR,
    FLOW_CONTROL_ERROR,
    SETTINGS_TIMEOUT,
    STREAM_CLOSED,
    FRAME_SIZE_ERROR,
    REFUSED_STREAM,
    CANCEL,
    COMPRESSION_ERROR,
    CONNECT_ERROR,
    ENHANCE_YOUR_CALM,
    INADEQUATE_SECURITY,
    HTTP_1_1_REQUIRED,
    Other(u32),
}

impl Reason {
    /// The 32-bit code of a reason.
    pub open spec fn spec_code(self) -> u32 {
        match self {
            Reason::NO_ERROR => 0,
            Reason::PROTOCOL_ERROR => 1,
            Reason::INTERNAL_ERROR => 2,
            Reason::FLOW_CONTROL_ERROR => 3,
            Reason::SETTINGS_TIMEOUT => 4,
            Reason::STREAM_CLOSED => 5,
            Reason::FRAME_SIZE_ERROR => 6,
            Reason::REFUSED_STREAM => 7,
            Reason::CANCEL => 8,
            Reason::COMPRESSION_ERROR => 9,
            Reason::CONNECT_ERROR => 10,
            Reason::ENHANCE_YOUR_CALM => 11,
            Reason::INADEQUATE_SECURITY => 12,
            Reason::HTTP_1_1_REQUIRED => 13,
            Reason::Other(code) => code,
        }
    }

    /// A reason in the form that reading a code gives: a code with a name is
    /// never held in `Other`.
    pub open spec fn wf(self) -> bool {
        self matches Reason::Other(code) ==> code > 13
    }

    /// The 32-bit code of a reason.
    pub fn code(self) -> (code: u32)
        ensures
            code == self.spec_code(),
    {
        match self {
            Reason::NO_ERROR => 0,
            Reason::PROTOCOL_ERROR => 1,
            Reason::INTERNAL_ERROR => 2,
            Reason::FLOW_CONTROL_ERROR => 3,
            Reason::SETTINGS_TIMEOUT => 4,
            Reason::STREAM_CLOSED => 5,
            Reason::FRAME_SIZE_ERROR => 6,
            Reason::REFUSED_STREAM => 7,
            Reason::CANCEL => 8,
            Reason::COMPRESSION_ERROR => 9,
            Reason::CONNECT_ERROR => 10,
            Reason::ENHANCE_YOUR_CALM => 11,
            Reason::INADEQUATE_SECURITY => 12,
            Reason::HTTP_1_1_REQUIRED => 13,
            Reason::Other(code) => code,
        }
    }

    /// The one well-formed reason with a given code.
    pub fn from_code(code: u32) -> (r: Reason)
        ensures
            r.wf(),
            r.spec_code() == code,
    {
        match code {
            0 => Reason::NO_ERROR,
            1 => Reason::PROTOCOL_ERROR,
            2 => Reason::INTERNAL_ERROR,
            3 => Reason::FLOW_CONTROL_ERROR,
            4 => Reason::SETTINGS_TIMEOUT,
            5 => Reason::STREAM_CLOSED,
            6 => Reason::FRAME_SIZE_ERROR,
            7 => Reason::REFUSED_STREAM,
            8 => Reason::CANCEL,
            9 => Reason::COMPRESSION_ERROR,
            10 => Reason::CONNECT_ERROR,
            11 => Reason::ENHANCE_YOUR_CALM,
            12 => Reason::INADEQUATE_SECURITY,
            13 => Reason::HTTP_1_1_REQUIRED,
            _ => Reason::Other(code),
        }
    }
}

/// The well-formed reason that a code reads as.
pub open spec fn reason_of(code: int) -> Reason {
    if code == 0 {
        Reason::NO_ERROR
    } else if code == 1 {
        Reason::PROTOCOL_ERROR
    } else if code == 2 {
        Reason::INTERNAL_ERROR
    } else if code == 3 {
        Reason::FLOW_CONTROL_ERROR
    } else if code == 4 {
        Reason::SETTINGS_TIMEOUT
    } else if code == 5 {
        Reason::STREAM_CLOSED
    } else if code == 6 {
        Reason::FRAME_SIZE_ERROR
    } else if code == 7 {
        Reason::REFUSED_STREAM
    } else if code == 8 {
        Reason::CANCEL
    } else if code == 9 {
        Reason::COMPRESSION_ERROR
    } else if code == 10 {
        Reason::CONNECT_ERROR
    } else if code == 11 {
        Reason::ENHANCE_YOUR_CALM
    } else if code == 12 {
        Reason::INADEQUATE_SECURITY
    } else if code == 13 {
        Reason::HTTP_1_1_REQUIRED
    } else {
        Reason::Other(code as u32)
    }
}

/// Reading the code of a well-formed reason gives the reason back.
pub proof fn lemma_reason_round_trip(r: Reason)
    requires
        r.wf(),
    ensures
        reason_of(r.spec_code() as int) == r,
{
}

/// The reasons are numbered in the order of their definition, from no error on, and every
/// other number is a reason too.
pub proof fn law_codes(code: u32)
    ensures
        Reason::NO_ERROR.spec_code() == 0,
        Reason::PROTOCOL_ERROR.spec_code() == 1,
        Reason::INTERNAL_ERROR.spec_code() == 2,
        Reason::FLOW_CONTROL_ERROR.spec_code() == 3,
        Reason::SETTINGS_TIMEOUT.spec_code() == 4,
        Reason::STREAM_CLOSED.spec_code() == 5,
        Reason::FRAME_SIZE_ERROR.spec_code() == 6,
        Reason::REFUSED_STREAM.spec_code() == 7,
        Reason::CANCEL.spec_code() == 8,
        Reason::COMPRESSION_ERROR.spec_code() == 9,
        Reason::CONNECT_ERROR.spec_code() == 10,
        Reason::ENHANCE_YOUR_CALM.spec_code() == 11,
        Reason::INADEQUATE_SECURITY.spec_code() == 12,
        Reason::HTTP_1_1_REQUIRED.spec_code() == 13,
        reason_of(code as int).spec_code() == code,
{
}

} // verus!
