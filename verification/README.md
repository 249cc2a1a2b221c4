# h2_zero

A sans-I/O HTTP/2 client and server, verified with Verus.

A connection is a state machine without I/O. The caller owns the transport and
drives the connection with three operations:

* `recv(&[u8])` takes bytes that came from the peer;
* `poll_transmit(&mut BytesMut)` hands out bytes that must go to the peer;
* `poll_event()` hands out what happened: a request or a response, a part of a
  body, trailers, a reset, the end of the connection.

Connections are made with `client::handshake()` and `server::handshake()`, or
with the builders of the two modules.

## Layout

* `src/` is the library. Every operation states what it does to a mathematical
  view of the connection, and is proved to do so.
  * `frame`, `hpack`: frames and header blocks, as bytes and as values.
  * `codec`: the bytes of a connection, cut into frames and put together.
  * `proto`: streams, their states, flow control, and the connection as a whole.
  * `client`, `server`, `share`: messages, events and request bodies.
  * `buf`, `text`, `uri`: what is believed of the `bytes` and `http` crates and of
    the standard library.
  * `laws`, and the modules `laws`, `round_trip`, `cut`, `runs`, `delivery`, `output`,
    `closed`, `kept` and `run` further down: what holds across operations. Header blocks
    and frames are read back as they were written, however they are cut; what one
    connection writes does to the other what its frames would do one by one; bodies are
    neither cut nor reordered; and nothing is sent beyond a window.
  * `client::run` and `server::run` speak of all calls on one connection: what it hands
    out is whole frames, the events of each stream come in order, identifiers are used
    once, and nothing is sent behind the end of a message.
* `tests/` runs the library, with the real `bytes` and `http` crates.
* `app/` turns the messages of the `http` crate into those of the library, and
  holds a demonstration in memory.

## Limits

* Bodies are `bytes::Bytes`, and headers are a list of fields in the order in which
  they are sent. A message that there cannot be is refused when it is sent.
* The exchanges of a connection are a list in the order in which they began, and
  events are handed out in that order.
* A request body is sent with the connection at hand: the methods of `SendStream`
  take it as an argument. Letting go of a body that was not ended is
  `SendStream::release`; the type in `app/` does so when it is dropped.
* Time is told: `set_time` tells a connection how late it is, and streams that were
  reset long enough ago are forgotten then.
* Promised streams are refused.
