//! The protocol: what a connection and its streams do.

pub mod closed;
pub mod connection;
pub mod control;
pub mod delivery;
pub mod error;
pub mod flush;
pub mod kept;
pub mod laws;
pub mod leaving;
pub mod output;
pub mod pump;
pub mod receiving;
pub mod recv;
pub mod send;
pub mod sending;
pub mod stream;
pub mod streams;
pub mod user;
pub mod windows;

pub use self::connection::{Config, Connection, ConnectionPoll, ConnectionView};
pub use self::error::{Error, ErrorView, Initiator};

use vstd::prelude::*;

verus! {

/// The most capacity that a stream shows, unless another is set.
pub const DEFAULT_MAX_SEND_BUFFER_SIZE: usize = 409_600;

/// The time for which reset streams are remembered, in milliseconds.
pub const DEFAULT_RESET_STREAM_MILLIS: u64 = 1_000;

/// The number of reset streams that are remembered at a time.
pub const DEFAULT_RESET_STREAM_MAX: usize = 50;

/// The number of resets of requests that wait to be accepted, unless another is
/// set.
pub const DEFAULT_REMOTE_RESET_STREAM_MAX: usize = 20;

/// The number of resets that errors of the peer may make necessary.
pub const DEFAULT_LOCAL_RESET_COUNT_MAX: usize = 1024;

} // verus!
