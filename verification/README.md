# bevy_quinn

QUIC endpoints for the Bevy game engine, on top of `quinn_proto`, with the logic verified by Verus.

An endpoint holds connections; a connection holds a send buffer and a receive buffer for each of
its streams. An application writes to the one and reads from the other, and learns of what the
peer does through events. The protocol is a state machine that performs no I/O: the library drives
it, and the application crate moves datagrams between it and a socket.

- `src/` is the verified library. `buffer`, `ids` and `streams` are the data; `connection` and
  `endpoint` drive the protocol; `transmit` and `events` convert what goes in and out. `trace`
  states what an update does for everything that the protocol can give, and `laws` what follows
  from it: as long as updates are completed no byte is lost or reordered on a stream that the peer
  does not stop, no more is received than may be, and what is reported has happened.
- What is trusted is marked `external_body` and has a contract that the rest relies on. `src/proto.rs`
  holds the calls into `quinn_proto`, `src/tables.rs` those into Bevy's hash tables, and
  `src/buffer.rs` two conversions of the standard library. Outside types are declared where they
  belong: in `src/proto.rs`, `src/transmit.rs` and `src/events.rs`.
- The protocol's replies depend on the peer. So the contracts speak of a record of the calls that
  were made and the replies that came: an update says which calls it makes, in terms of the replies,
  and what it makes of them.
- `app/` is the Bevy plugin, with the sockets and the clock.
- `tests/` runs the library, among others with two endpoints that talk to each other in memory.

An update does not panic where the protocol gives something unexpected; it stops and says why. The
application crate decides what to do then.
