//! A sans-I/O HTTP/2 client and server.
//!
//! The library speaks HTTP/2 as a pure state machine. It does no I/O and no
//! cryptography: the caller owns the transport, and drives a connection with
//! three operations:
//!
//! * `recv` takes bytes that came from the peer;
//! * `poll_transmit` hands out bytes that must go to the peer;
//! * `poll_event` hands out what happened: a request or a response, a part of a
//!   body, trailers, a reset, the end of the connection.
//!
//! See [`client`] and [`server`] for the two kinds of connections, and
//! [`SendStream`] for the body of a request.
//!
//! # Layout
//!
//! * [`frame`] and [`hpack`]: frames and header blocks, as bytes and as values.
//! * [`codec`]: the bytes of a connection, cut into frames and put together.
//! * [`proto`]: the streams of a connection, their states and their windows.
//! * [`client`] and [`server`]: messages and events.
//! * [`buf`], [`text`] and [`uri`]: what is taken from `bytes` and `http`.
//!
//! Each operation states what it does to a mathematical view of the connection.
//! What holds across operations stands in [`laws`], and in modules further down:
//! `hpack::laws` and `frame::laws` for bytes and frames, `codec::laws`,
//! `codec::round_trip`, `codec::cut` and `codec::runs` for runs of them, `proto::laws`,
//! `proto::windows`, `proto::receiving`, `proto::sending`, `proto::leaving`,
//! `proto::delivery`, `proto::output`, `proto::closed` and `proto::kept` for the streams,
//! `client::laws` and `server::laws`. What holds of all calls on one connection stands in
//! `client::run` and `server::run`.
//!
//! # Flow control
//!
//! Data that goes out is bounded by the windows of its stream and of the
//! connection. [`SendStream`] shows the capacity and reserves it; data for which
//! there is none waits until the peer grants more. Data that comes in is released
//! as it is handed out, which widens the peer's windows again.

pub mod buf;
pub mod client;
pub mod codec;
pub mod error;
pub mod frame;
pub mod hpack;
pub mod laws;
pub mod message;
pub mod names;
pub mod proto;
pub mod server;
pub mod share;
pub mod text;
pub mod uri;
pub mod wire;

pub use crate::error::Error;
pub use crate::frame::Reason;
pub use crate::share::{SendStream, StreamId};
