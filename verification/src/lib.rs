//! QUIC endpoints for the Bevy game engine: connections, their streams and the
//! buffers that carry stream data between an application and the protocol.
//!
//! The protocol itself is `quinn_proto`; this crate keeps, for every connection, a
//! send buffer and a receive buffer per stream, drives the protocol's state machine,
//! and turns what happens into callbacks and events. Sockets, clocks and the Bevy
//! plugin live outside, in the application crate.
//!
//! - [`buffer`]: the byte buffers of a stream;
//! - [`streams`]: the streams of a connection, and what each thing that happens does to them;
//! - [`trace`]: what a whole update does, as a function of what the protocol gave;
//! - [`laws`]: what holds of every update, whatever the protocol gives;
//! - [`records`]: what holds of every update, told from the record of the protocol's calls alone;
//! - [`connection`] and [`endpoint`]: the state machines that drive the protocol;
//! - [`events`]: what an application's systems learn;
//! - [`transmit`]: datagrams between the socket and the protocol;
//! - [`tables`] and [`proto`]: the outside types and functions that the rest relies on.

pub mod buffer;
pub mod connection;
pub mod endpoint;
pub mod events;
pub mod ids;
pub mod laws;
pub mod proto;
pub mod records;
pub mod streams;
pub mod tables;
pub mod trace;
pub mod transmit;

pub use crate::buffer::{ReceiveBuffer, SendBuffer};
pub use crate::connection::{timer_due, Connection, UpdateReport};
pub use crate::endpoint::{
    endpoint_callback, receive_buffer_len, split_datagrams, Endpoint, EndpointCallback,
    EndpointConfig, Message, Response, UnknownConnection,
};
pub use crate::events::{
    world_event, ClosedReceiveStream, ClosedSendStream, Connected, FinishedReceiveStream,
    OpenedReceiveStream, OpenedSendStream, WorldEvent,
};
pub use crate::ids::{ConnectionId, Dir, StreamId};
pub use crate::proto::{DatagramOutcome, ProtoEvent};
pub use crate::streams::{ConnectionCallback, ReadOutcome, StreamTable, WriteAction};
pub use crate::trace::UpdateError;
pub use crate::transmit::{quinn_proto_ecn, quinn_udp_ecn, udp_transmit, Transmit, UdpTransmit};
pub use quinn_proto;
