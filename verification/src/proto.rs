//! The protocol and the socket layer, as far as this crate calls them.
//!
//! `quinn_proto` is a state machine that performs no I/O. Its connections and endpoints
//! are opaque here; what the rest of the crate needs to know of them has names, and every
//! function below that calls into it is trusted to do what its contract says.
//!
//! What the protocol replies depends on peers, on time and on chance. So a call and its reply are
//! put on record: the names for what a connection or an endpoint has been asked so far grow with
//! each call of the function that they are about, and with nothing else.

use quinn_proto::{
    Connection as ProtoConnection, ConnectionHandle, DatagramEvent, Endpoint as ProtoEndpoint,
    EndpointConfig as ProtoEndpointConfig, Event, StreamEvent,
};
use std::sync::Arc;
use std::time::Instant;
use vstd::prelude::*;

use crate::ids::{
    can_receive, can_send, direction, in_range, opened_by, stream_number, Dir, SideView,
};
use crate::streams::ReadOutcome;
use crate::transmit::Transmit;

verus! {

#[verifier::external_type_specification]
#[verifier::external_body]
pub struct ExProtoConnection(ProtoConnection);

#[verifier::external_type_specification]
#[verifier::external_body]
pub struct ExConnectionStats(quinn_proto::ConnectionStats);

#[verifier::external_type_specification]
#[verifier::external_body]
pub struct ExVarInt(quinn_proto::VarInt);

#[verifier::external_type_specification]
#[verifier::external_body]
pub struct ExEndpointEvent(quinn_proto::EndpointEvent);

#[verifier::external_type_specification]
#[verifier::external_body]
pub struct ExConnectionEvent(quinn_proto::ConnectionEvent);

#[verifier::external_type_specification]
#[verifier::external_body]
pub struct ExInstant(std::time::Instant);

#[verifier::external_type_specification]
#[verifier::external_body]
pub struct ExProtoEndpoint(ProtoEndpoint);

#[verifier::external_type_specification]
#[verifier::external_body]
pub struct ExProtoEndpointConfig(ProtoEndpointConfig);

#[verifier::external_type_specification]
#[verifier::external_body]
pub struct ExServerConfig(quinn_proto::ServerConfig);

#[verifier::external_type_specification]
#[verifier::external_body]
pub struct ExClientConfig(quinn_proto::ClientConfig);

#[verifier::external_type_specification]
#[verifier::external_body]
pub struct ExConnectError(quinn_proto::ConnectError);

#[verifier::external_type_specification]
#[verifier::external_body]
pub struct ExIncoming(quinn_proto::Incoming);

#[verifier::external_type_specification]
#[verifier::external_body]
pub struct ExRecvMeta(quinn_udp::RecvMeta);

/// An event of the protocol that concerns the application.
pub enum ProtoEvent {
    Connected,
    ConnectionLost,
    HandshakeDataReady,
    DatagramReceived,
    DatagramsUnblocked,
    StreamOpened,
    StreamReadable(u64),
    StreamWritable,
    StreamFinished,
    StreamStopped(u64, quinn_proto::VarInt),
    StreamAvailable,
}

/// Whether this side is the client of the connection. That is settled when the connection
/// is made.
pub uninterp spec fn is_client(connection: ProtoConnection) -> bool;

/// How many streams of the peer have been accepted in that direction.
pub uninterp spec fn accepted(connection: ProtoConnection, dir: Dir) -> nat;

/// This side of the connection.
pub open spec fn side_of(connection: ProtoConnection) -> SideView {
    SideView {
        client: is_client(connection),
        uni: accepted(connection, Dir::Uni),
        bi: accepted(connection, Dir::Bi),
    }
}

/// The application events that the connection holds, in the order in which polling
/// yields them.
pub uninterp spec fn pending_events(connection: ProtoConnection) -> Seq<ProtoEvent>;

/// The events for the endpoint that the connection holds, in the order in which polling
/// yields them: for each whether it tells that the connection is drained.
pub uninterp spec fn pending_notices(connection: ProtoConnection) -> Seq<bool>;

/// The streams that the peer opened and that have not been accepted, in the order in which
/// they are accepted.
pub uninterp spec fn acceptable(connection: ProtoConnection, dir: Dir) -> Seq<u64>;

/// The stream that this side can open next in that direction: none if the connection is closed,
/// or if the peer allows no more of them.
pub uninterp spec fn next_open(connection: ProtoConnection, dir: Dir) -> Option<u64>;

/// Whether a send stream can be reset: the connection still has it, and it has not been reset.
pub uninterp spec fn resettable(connection: ProtoConnection, id: u64) -> bool;

/// The times that the connection has been asked to open a stream, so far, in order: for each the
/// direction, and the stream, if one could be opened.
pub uninterp spec fn opened(connection: ProtoConnection) -> Seq<(Dir, Option<u64>)>;

/// The streams that the connection has been made to reset, so far, in order: for each its number
/// and the error code.
pub uninterp spec fn resets(connection: ProtoConnection) -> Seq<(u64, quinn_proto::VarInt)>;

/// One time that a connection was asked for datagrams: when, how many were allowed, and what it
/// gave, with the contents.
pub struct TransmitPoll {
    pub now: Instant,
    pub max_datagrams: usize,
    pub outcome: Option<(Transmit, Seq<u8>)>,
}

/// The times that the connection has been asked for datagrams, so far, in order.
pub uninterp spec fn transmit_polls(connection: ProtoConnection) -> Seq<TransmitPoll>;

/// The statistics that the connection holds.
pub uninterp spec fn statistics(
    connection: ProtoConnection,
) -> quinn_proto::ConnectionStats;

/// What polling for application events has given, so far, in order.
pub uninterp spec fn polled(connection: ProtoConnection) -> Seq<Option<ProtoEvent>>;

/// The events for the endpoint that polling has given, so far, in order: for each whether it tells
/// that the connection is drained.
pub uninterp spec fn noticed(connection: ProtoConnection) -> Seq<bool>;

/// Whether the event tells a connection of identifiers that its endpoint has issued for it, and not
/// of a datagram.
pub uninterp spec fn issued(event: quinn_proto::ConnectionEvent) -> bool;

/// Identifiers that a connection was given: how many events for the endpoint polling had given by
/// then, and how often the connection had been polled for application events.
pub struct Renewal {
    pub noticed: nat,
    pub polled: nat,
    pub event: quinn_proto::ConnectionEvent,
}

/// The identifiers that the connection has been given, so far, in order.
pub uninterp spec fn renewed(connection: ProtoConnection) -> Seq<Renewal>;

/// The streams that the connection has been asked to open for reading, without reading, so far, in
/// order: for each why it could not be, if it could not.
pub uninterp spec fn probes(connection: ProtoConnection) -> Seq<(u64, Option<ReadFailure>)>;

/// One attempt to read from a stream: how many bytes were allowed, and what came of it.
pub struct ReadCall {
    pub id: u64,
    pub max_length: usize,
    pub reply: Result<ReadOutcome, ReadFailure>,
}

/// The attempts to read from the connection's streams, so far, in order.
pub uninterp spec fn reads(connection: ProtoConnection) -> Seq<ReadCall>;

/// One attempt to write to a stream: the bytes that were offered, and what came of it.
pub struct Offer {
    pub id: u64,
    pub data: Seq<u8>,
    pub outcome: WriteOutcome,
}

/// The attempts to write to the connection's streams, so far, in order.
pub uninterp spec fn offers(connection: ProtoConnection) -> Seq<Offer>;

/// The streams that the connection has been asked to finish, so far, in order: for each whether
/// that succeeded.
pub uninterp spec fn finishes(connection: ProtoConnection) -> Seq<(u64, bool)>;

/// When the next of the connection's timers runs out, if one is set.
pub uninterp spec fn deadline(connection: ProtoConnection) -> Option<Instant>;

/// One time that a connection was made to handle its timers: when, and how often it had been polled
/// for application events by then.
pub struct Timeout {
    pub now: Instant,
    pub polled: nat,
}

/// The times that the connection has been made to handle its timers, so far, in order.
pub uninterp spec fn timeouts(connection: ProtoConnection) -> Seq<Timeout>;

/// The datagrams that the connection has been given, so far, in order.
pub uninterp spec fn heard(connection: ProtoConnection) -> Seq<quinn_proto::ConnectionEvent>;

/// The handles of the connections that the endpoint holds.
pub uninterp spec fn live_handles(endpoint: ProtoEndpoint) -> Set<usize>;

/// The connection attempts that the endpoint has reported and that wait to be settled.
pub uninterp spec fn awaiting(endpoint: ProtoEndpoint) -> Set<quinn_proto::Incoming>;

/// A datagram that came in: when it was handed over, who sent it, its congestion notification bits
/// and its bytes.
pub struct Datagram {
    pub now: Instant,
    pub origin: quinn_udp::RecvMeta,
    pub ecn: Option<quinn_proto::EcnCodepoint>,
    pub data: Seq<u8>,
}

/// One time that an endpoint was asked for a connection: when, with which configuration, to whom
/// and under which name, and the handle of the connection or why there is none.
pub struct Dial {
    pub now: Instant,
    pub config: quinn_proto::ClientConfig,
    pub remote: quinn_udp::RecvMeta,
    pub server_name: Seq<char>,
    pub outcome: Result<usize, quinn_proto::ConnectError>,
}

/// The times that the endpoint has been asked for a connection, so far, in order.
pub uninterp spec fn dials(endpoint: ProtoEndpoint) -> Seq<Dial>;

/// The datagrams that the endpoint has been given to handle, so far, in order.
pub uninterp spec fn handled(endpoint: ProtoEndpoint) -> Seq<Datagram>;

/// What came of the datagrams that the endpoint has been given to handle, so far, in order, each
/// with the contents of the response.
pub uninterp spec fn outcomes(endpoint: ProtoEndpoint) -> Seq<
    (Option<DatagramOutcome>, Seq<u8>),
>;

/// One attempt to make a connection that an endpoint was asked to accept: the handle of the
/// connection, or the response, if there is one, with its contents.
pub struct Settlement {
    pub incoming: quinn_proto::Incoming,
    pub now: Instant,
    pub outcome: Result<usize, Option<Transmit>>,
    pub contents: Seq<u8>,
}

/// The attempts to make a connection that the endpoint has been asked to accept, so far, in order.
pub uninterp spec fn settlements(endpoint: ProtoEndpoint) -> Seq<Settlement>;

/// One event of a connection that an endpoint was given, and the identifiers that it issued in
/// answer, if it did.
pub struct Told {
    pub handle: usize,
    pub drained: bool,
    pub answer: Option<quinn_proto::ConnectionEvent>,
}

/// The events of connections that the endpoint has been given, so far, in order.
pub uninterp spec fn told(endpoint: ProtoEndpoint) -> Seq<Told>;

/// The configuration of the connections that the endpoint accepts, if it is a server.
pub uninterp spec fn server_setup(endpoint: ProtoEndpoint) -> Option<quinn_proto::ServerConfig>;

/// Whether the endpoint is configured as a server.
pub open spec fn serves(endpoint: ProtoEndpoint) -> bool {
    server_setup(endpoint) is Some
}

/// Whether the endpoint looks for the largest datagram that the path to a peer carries.
pub uninterp spec fn discovers_mtu(endpoint: ProtoEndpoint) -> bool;

/// What a connection has been asked, so far, and what it replied.
#[verifier::ext_equal]
pub struct Record {
    pub polled: Seq<Option<ProtoEvent>>,
    pub noticed: Seq<bool>,
    pub renewed: Seq<Renewal>,
    pub timeouts: Seq<Timeout>,
    pub probes: Seq<(u64, Option<ReadFailure>)>,
    pub reads: Seq<ReadCall>,
    pub offers: Seq<Offer>,
    pub finishes: Seq<(u64, bool)>,
    pub opened: Seq<(Dir, Option<u64>)>,
    pub resets: Seq<(u64, quinn_proto::VarInt)>,
    pub heard: Seq<quinn_proto::ConnectionEvent>,
    pub transmit_polls: Seq<TransmitPoll>,
}

/// What the connection has been asked, so far, and what it replied.
pub open spec fn record_of(connection: ProtoConnection) -> Record {
    Record {
        polled: polled(connection),
        noticed: noticed(connection),
        renewed: renewed(connection),
        timeouts: timeouts(connection),
        probes: probes(connection),
        reads: reads(connection),
        offers: offers(connection),
        finishes: finishes(connection),
        opened: opened(connection),
        resets: resets(connection),
        heard: heard(connection),
        transmit_polls: transmit_polls(connection),
    }
}

/// Whether reading has come to the end of the stream: the peer finished or reset it.
pub open spec fn ended(calls: Seq<ReadCall>, id: u64) -> bool {
    exists|i: int|
        #![trigger calls[i]]
        0 <= i < calls.len() && calls[i].id == id && (calls[i].reply matches Ok(outcome) && (outcome
            is Finished || outcome is Reset))
}

/// The bytes that were taken of what was offered on a stream, in order.
pub open spec fn taken_of(offers: Seq<Offer>, id: u64) -> Seq<u8>
    decreases offers.len(),
{
    if offers.len() == 0 {
        seq![]
    } else {
        let before = taken_of(offers.drop_last(), id);
        match offers.last().outcome {
            WriteOutcome::Written(n) if offers.last().id == id => before
                + offers.last().data.take(n as int),
            _ => before,
        }
    }
}

/// The bytes that the connection has taken, so far, to be sent on a stream, in order.
pub open spec fn taken(connection: ProtoConnection, id: u64) -> Seq<u8> {
    taken_of(offers(connection), id)
}

/// Whether the connection has been asked nothing so far, but to take in datagrams, and accepted no
/// stream.
pub open spec fn unused(connection: ProtoConnection) -> bool {
    &&& record_of(connection) == (Record {
        polled: seq![],
        noticed: seq![],
        renewed: seq![],
        timeouts: seq![],
        probes: seq![],
        reads: seq![],
        offers: seq![],
        finishes: seq![],
        opened: seq![],
        resets: seq![],
        heard: heard(connection),
        transmit_polls: seq![],
    })
    &&& accepted(connection, Dir::Uni) == 0
    &&& accepted(connection, Dir::Bi) == 0
}

/// What an endpoint has been asked, so far, and what it replied.
#[verifier::ext_equal]
pub struct EndpointRecord {
    pub handled: Seq<Datagram>,
    pub outcomes: Seq<(Option<DatagramOutcome>, Seq<u8>)>,
    pub settlements: Seq<Settlement>,
    pub dials: Seq<Dial>,
    pub told: Seq<Told>,
}

/// What the endpoint has been asked, so far, and what it replied.
pub open spec fn endpoint_record(endpoint: ProtoEndpoint) -> EndpointRecord {
    EndpointRecord {
        handled: handled(endpoint),
        outcomes: outcomes(endpoint),
        settlements: settlements(endpoint),
        dials: dials(endpoint),
        told: told(endpoint),
    }
}

/// Whether the endpoint has been asked nothing so far.
pub open spec fn unasked(endpoint: ProtoEndpoint) -> bool {
    &&& handled(endpoint).len() == 0
    &&& outcomes(endpoint).len() == 0
    &&& settlements(endpoint).len() == 0
    &&& dials(endpoint).len() == 0
    &&& told(endpoint).len() == 0
}

/// Whether the endpoint is set up as it was before.
pub open spec fn same_setup(before: ProtoEndpoint, after: ProtoEndpoint) -> bool {
    server_setup(after) == server_setup(before) && discovers_mtu(after) == discovers_mtu(before)
}

/// `Connection::side`, compared with the client side.
#[verifier::external_body]
pub(crate) fn on_client_side(connection: &ProtoConnection) -> (r: bool)
    ensures
        r == is_client(*connection),
{
    connection.side().is_client()
}

/// `Connection::stats`.
#[verifier::external_body]
pub(crate) fn stats(connection: &ProtoConnection) -> (r: quinn_proto::ConnectionStats)
    ensures
        r == statistics(*connection),
{
    connection.stats()
}

/// `Connection::current_mtu`. The size depends on the path to the peer, so nothing is said
/// of it.
#[verifier::external_body]
pub(crate) fn current_mtu(connection: &ProtoConnection) -> (r: u16) {
    connection.current_mtu()
}

/// Whether memory for so many datagrams can be asked for: each has at most 65535 bytes, and a
/// buffer that has to grow may double.
pub open spec fn affordable(max_datagrams: usize) -> bool {
    2 * max_datagrams * 0xffff <= isize::MAX
}

/// `Connection::poll_transmit`, which panics when no datagram is allowed, or so many that the
/// memory that it reserves for them cannot be asked for, and counts on an empty buffer. The size of
/// a transmit is the length of what was written to the buffer. Which bytes these are, and whether
/// there are any, depends on the peer, on time and on chance; what the connection gave is on its
/// record, with the contents of the buffer.
#[verifier::external_body]
pub(crate) fn poll_transmit(
    connection: &mut ProtoConnection,
    now: Instant,
    max_datagrams: usize,
    buffer: &mut Vec<u8>,
) -> (r: Option<Transmit>)
    requires
        max_datagrams > 0,
        affordable(max_datagrams),
        old(buffer)@.len() == 0,
    ensures
        side_of(*final(connection)) == side_of(*old(connection)),
        record_of(*final(connection)) == (Record {
            transmit_polls: transmit_polls(*old(connection)).push(
                TransmitPoll {
                    now,
                    max_datagrams,
                    outcome: match r {
                        Some(transmit) => Some((transmit, final(buffer)@)),
                        None => None,
                    },
                },
            ),
            ..record_of(*old(connection))
        }),
        r matches Some(transmit) ==> transmit.size == final(buffer)@.len(),
{
    connection.poll_transmit(now, max_datagrams, buffer).map(
        |t| Transmit { size: t.size, ecn: t.ecn, segment_size: t.segment_size, route: t },
    )
}

/// `Connection::poll`, which takes the first of the pending application events. The events
/// for the endpoint wait in a queue of their own.
#[verifier::external_body]
pub(crate) fn poll_event(connection: &mut ProtoConnection) -> (r: Option<ProtoEvent>)
    ensures
        side_of(*final(connection)) == side_of(*old(connection)),
        record_of(*final(connection)) == (Record {
            polled: polled(*old(connection)).push(r),
            ..record_of(*old(connection))
        }),
        pending_notices(*final(connection)) == pending_notices(*old(connection)),
        match r {
            Some(event) => pending_events(*old(connection)) == seq![event] + pending_events(
                *final(connection),
            ),
            None => pending_events(*old(connection)).len() == 0 && pending_events(
                *final(connection),
            ).len() == 0,
        },
{
    connection.poll().map(|event| match event {
        Event::Connected => ProtoEvent::Connected,
        Event::ConnectionLost { .. } => ProtoEvent::ConnectionLost,
        Event::HandshakeDataReady => ProtoEvent::HandshakeDataReady,
        Event::DatagramReceived => ProtoEvent::DatagramReceived,
        Event::DatagramsUnblocked => ProtoEvent::DatagramsUnblocked,
        Event::Stream(StreamEvent::Opened { .. }) => ProtoEvent::StreamOpened,
        Event::Stream(StreamEvent::Readable { id }) => ProtoEvent::StreamReadable(id.into()),
        Event::Stream(StreamEvent::Writable { .. }) => ProtoEvent::StreamWritable,
        Event::Stream(StreamEvent::Finished { .. }) => ProtoEvent::StreamFinished,
        Event::Stream(StreamEvent::Stopped { id, error_code }) =>
            ProtoEvent::StreamStopped(id.into(), error_code),
        Event::Stream(StreamEvent::Available { .. }) => ProtoEvent::StreamAvailable,
    })
}

/// `Connection::poll_timeout`, which looks for the earliest deadline and changes nothing.
#[verifier::external_body]
pub(crate) fn poll_timeout(connection: &mut ProtoConnection) -> (r: Option<Instant>)
    ensures
        r == deadline(*old(connection)),
        *final(connection) == *old(connection),
{
    connection.poll_timeout()
}

/// Whether an instant lies before another.
pub open spec fn instant_before(a: Instant, b: Instant) -> bool {
    vstd::std_specs::cmp::PartialOrdSpec::partial_cmp_spec(&a, &b) == Some(
        core::cmp::Ordering::Less,
    )
}

/// `Instant`'s `>=`: the first instant does not lie before the second.
#[verifier::external_body]
pub(crate) fn not_before(a: Instant, b: Instant) -> (r: bool)
    ensures
        r == !instant_before(a, b),
{
    a >= b
}

/// `Connection::handle_timeout`. What a timer that ran out makes the connection do depends
/// on time and on the peer.
#[verifier::external_body]
pub(crate) fn handle_timeout(connection: &mut ProtoConnection, now: Instant)
    ensures
        side_of(*final(connection)) == side_of(*old(connection)),
        record_of(*final(connection)) == (Record {
            timeouts: timeouts(*old(connection)).push(
                Timeout { now, polled: polled(*old(connection)).len() },
            ),
            ..record_of(*old(connection))
        }),
{
    connection.handle_timeout(now)
}

/// An event for the endpoint, as a connection emits it.
pub struct EndpointNotice {
    event: quinn_proto::EndpointEvent,
    drained: bool,
}

impl EndpointNotice {
    /// Whether the event tells that the connection is drained.
    pub closed spec fn drained(&self) -> bool {
        self.drained
    }

    /// Whether the event tells that the connection is drained: it is then the last that
    /// the connection emits, and the connection's state can be freed.
    pub fn is_drained(&self) -> (r: bool)
        ensures
            r == self.drained(),
    {
        self.drained
    }
}

/// `Connection::poll_endpoint_events`, which takes the first of the pending events for the
/// endpoint, and `EndpointEvent::is_drained` of that event.
#[verifier::external_body]
pub(crate) fn poll_notice(connection: &mut ProtoConnection) -> (r: Option<EndpointNotice>)
    ensures
        side_of(*final(connection)) == side_of(*old(connection)),
        record_of(*final(connection)) == (Record {
            noticed: match r {
                Some(notice) => noticed(*old(connection)).push(notice.drained()),
                None => noticed(*old(connection)),
            },
            ..record_of(*old(connection))
        }),
        match r {
            Some(notice) => pending_notices(*old(connection)) == seq![notice.drained()]
                + pending_notices(*final(connection)),
            None => pending_notices(*old(connection)).len() == 0 && pending_notices(
                *final(connection),
            ).len() == 0,
        },
{
    connection.poll_endpoint_events().map(
        |event| EndpointNotice { drained: event.is_drained(), event },
    )
}

/// Connection identifiers that an endpoint has issued for a connection.
pub struct IssuedIdentifiers {
    /// The identifiers as the endpoint passes them on.
    pub event: quinn_proto::ConnectionEvent,
}

/// `Endpoint::handle_event`, which panics on a handle that the endpoint does not hold, unless
/// the event tells that the connection is drained. Such an event makes the endpoint forget the
/// connection. All that an endpoint answers is newly issued identifiers.
#[verifier::external_body]
pub(crate) fn handle_notice(
    endpoint: &mut ProtoEndpoint,
    handle: usize,
    notice: EndpointNotice,
) -> (r: Option<IssuedIdentifiers>)
    requires
        live_handles(*old(endpoint)).contains(handle) || notice.drained(),
    ensures
        live_handles(*final(endpoint)) == if notice.drained() {
            live_handles(*old(endpoint)).remove(handle)
        } else {
            live_handles(*old(endpoint))
        },
        same_setup(*old(endpoint), *final(endpoint)),
        endpoint_record(*final(endpoint)) == (EndpointRecord {
            told: told(*old(endpoint)).push(
                Told {
                    handle,
                    drained: notice.drained(),
                    answer: match r {
                        Some(identifiers) => Some(identifiers.event),
                        None => None,
                    },
                },
            ),
            ..endpoint_record(*old(endpoint))
        }),
        notice.drained() ==> r is None,
        r matches Some(identifiers) ==> issued(identifiers.event),
{
    endpoint.handle_event(ConnectionHandle(handle), notice.event).map(
        |event| IssuedIdentifiers { event },
    )
}

/// `Connection::handle_event`, for identifiers that the endpoint has issued. They are
/// queued for the peer; no event for the endpoint comes of them, as it may of a datagram.
#[verifier::external_body]
pub(crate) fn handle_identifiers(
    connection: &mut ProtoConnection,
    identifiers: IssuedIdentifiers,
)
    requires
        issued(identifiers.event),
    ensures
        side_of(*final(connection)) == side_of(*old(connection)),
        record_of(*final(connection)) == (Record {
            renewed: renewed(*old(connection)).push(
                Renewal {
                    noticed: noticed(*old(connection)).len(),
                    polled: polled(*old(connection)).len(),
                    event: identifiers.event,
                },
            ),
            ..record_of(*old(connection))
        }),
        pending_notices(*final(connection)) == pending_notices(*old(connection)),
{
    connection.handle_event(identifiers.event)
}

/// A datagram that an endpoint has found to belong to one of its connections.
pub struct RoutedDatagram {
    /// The datagram as the endpoint passes it on.
    pub event: quinn_proto::ConnectionEvent,
}

/// `Connection::handle_event`, for a datagram. What comes of it depends on the peer.
#[verifier::external_body]
pub(crate) fn handle_datagram(connection: &mut ProtoConnection, datagram: RoutedDatagram)
    ensures
        side_of(*final(connection)) == side_of(*old(connection)),
        record_of(*final(connection)) == (Record {
            heard: heard(*old(connection)).push(datagram.event),
            ..record_of(*old(connection))
        }),
{
    connection.handle_event(datagram.event)
}

/// `Streams::accept`, which takes the first of the streams in that direction that wait to
/// be accepted. The peer opened it; its streams are accepted in the order of their numbers,
/// without a gap. The streams are kept apart from the events for the endpoint.
#[verifier::external_body]
pub(crate) fn accept_stream(connection: &mut ProtoConnection, dir: Dir) -> (r: Option<u64>)
    ensures
        pending_notices(*final(connection)) == pending_notices(*old(connection)),
        record_of(*final(connection)) == record_of(*old(connection)),
        forall|other: Dir| other != dir ==> #[trigger]
            acceptable(*final(connection), other) == acceptable(*old(connection), other),
        match r {
            Some(id) => {
                &&& acceptable(*old(connection), dir) == seq![id] + acceptable(
                    *final(connection),
                    dir,
                )
                &&& in_range(id)
                &&& id == stream_number(
                    !is_client(*old(connection)),
                    dir,
                    accepted(*old(connection), dir),
                )
                &&& side_of(*final(connection)) == side_of(*old(connection)).accepts(dir, 1)
            },
            None => {
                &&& acceptable(*old(connection), dir).len() == 0
                &&& acceptable(*final(connection), dir).len() == 0
                &&& side_of(*final(connection)) == side_of(*old(connection))
            },
        },
{
    let dir = match dir {
        Dir::Bi => quinn_proto::Dir::Bi,
        Dir::Uni => quinn_proto::Dir::Uni,
    };
    connection.streams().accept(dir).map(|id| id.into())
}

/// `Streams::open`, which opens the next stream, if the connection is not closed and the peer
/// allows one more. The stream has the given direction, this side is the one that opened it, and
/// it can be reset.
#[verifier::external_body]
pub(crate) fn open_stream(connection: &mut ProtoConnection, dir: Dir) -> (r: Option<u64>)
    ensures
        side_of(*final(connection)) == side_of(*old(connection)),
        pending_notices(*final(connection)) == pending_notices(*old(connection)),
        record_of(*final(connection)) == (Record {
            opened: opened(*old(connection)).push((dir, r)),
            ..record_of(*old(connection))
        }),
        r == next_open(*old(connection), dir),
        r matches Some(id) ==> in_range(id) && direction(id) == dir && opened_by(
            is_client(*old(connection)),
            id,
        ) && resettable(*final(connection), id),
{
    let dir = match dir {
        Dir::Bi => quinn_proto::Dir::Bi,
        Dir::Uni => quinn_proto::Dir::Uni,
    };
    connection.streams().open(dir).map(|id| id.into())
}

/// Why a stream cannot be read.
pub enum ReadFailure {
    ClosedStream,
    IllegalOrderedRead,
}

/// `Connection::recv_stream`, which panics on a stream on which this side cannot receive,
/// `RecvStream::read`, in order, and `Chunks::finalize`: opens the stream for reading and reads
/// nothing. Whether it can be opened depends on the peer; a stream of the peer of which reading
/// has come to the end is closed.
#[verifier::external_body]
pub(crate) fn open_for_reading(connection: &mut ProtoConnection, id: u64) -> (r: Result<
    (),
    ReadFailure,
>)
    requires
        can_receive(is_client(*old(connection)), id),
    ensures
        side_of(*final(connection)) == side_of(*old(connection)),
        pending_notices(*final(connection)) == pending_notices(*old(connection)),
        forall|dir: Dir| #[trigger]
            acceptable(*final(connection), dir) == acceptable(*old(connection), dir),
        record_of(*final(connection)) == (Record {
            probes: probes(*old(connection)).push(
                (
                    id,
                    match r {
                        Ok(()) => None,
                        Err(failure) => Some(failure),
                    },
                ),
            ),
            ..record_of(*old(connection))
        }),
        ended(reads(*old(connection)), id) && !opened_by(is_client(*old(connection)), id)
            ==> (r matches Err(failure) && failure is ClosedStream),
{
    let id = quinn_proto::VarInt::from_u64(id).unwrap().into();
    let mut stream = connection.recv_stream(id);
    let chunks = stream.read(true).map_err(|e| match e {
        quinn_proto::ReadableError::ClosedStream => ReadFailure::ClosedStream,
        quinn_proto::ReadableError::IllegalOrderedRead => ReadFailure::IllegalOrderedRead,
    })?;
    let _ = chunks.finalize();
    Ok(())
}

/// `Connection::recv_stream`, which panics on a stream on which this side cannot receive,
/// `RecvStream::read`, in order, `Chunks::next` and `Chunks::finalize`. The bytes come from the
/// peer; there is at least one of them and at most `max_length`. A stream of the peer of which
/// reading has come to the end is closed. Nothing of this writes to a stream, or changes which
/// side this is, which streams wait to be accepted, or which events wait for the endpoint.
#[verifier::external_body]
pub(crate) fn read_chunk(connection: &mut ProtoConnection, id: u64, max_length: usize) -> (r:
    Result<ReadOutcome, ReadFailure>)
    requires
        can_receive(is_client(*old(connection)), id),
        max_length > 0,
    ensures
        side_of(*final(connection)) == side_of(*old(connection)),
        pending_notices(*final(connection)) == pending_notices(*old(connection)),
        forall|dir: Dir| #[trigger]
            acceptable(*final(connection), dir) == acceptable(*old(connection), dir),
        record_of(*final(connection)) == (Record {
            reads: reads(*old(connection)).push(ReadCall { id, max_length, reply: r }),
            ..record_of(*old(connection))
        }),
        r matches Ok(ReadOutcome::Data(data)) ==> 0 < data@.len() <= max_length,
        ended(reads(*old(connection)), id) && !opened_by(is_client(*old(connection)), id)
            ==> (r matches Err(failure) && failure is ClosedStream),
{
    let id = quinn_proto::VarInt::from_u64(id).unwrap().into();
    let mut stream = connection.recv_stream(id);
    let mut chunks = stream.read(true).map_err(|e| match e {
        quinn_proto::ReadableError::ClosedStream => ReadFailure::ClosedStream,
        quinn_proto::ReadableError::IllegalOrderedRead => ReadFailure::IllegalOrderedRead,
    })?;
    let outcome = match chunks.next(max_length) {
        Ok(Some(chunk)) => ReadOutcome::Data(chunk.bytes.to_vec()),
        Ok(None) => ReadOutcome::Finished,
        Err(quinn_proto::ReadError::Reset(code)) => ReadOutcome::Reset(code),
        Err(quinn_proto::ReadError::Blocked) => ReadOutcome::Blocked,
    };
    let _ = chunks.finalize();
    Ok(outcome)
}

/// What one attempt to write to a stream gives.
pub enum WriteOutcome {
    /// So many bytes have been taken.
    Written(usize),
    /// The peer does not take more for now.
    Blocked,
    /// The stream is closed.
    ClosedStream,
    /// The peer stopped the stream, with this error code.
    Stopped(quinn_proto::VarInt),
}

/// `Connection::send_stream`, which panics on a stream on which this side cannot send, and
/// `SendStream::write`. How many of the bytes are taken, from the first on, depends on the
/// peer; a failed attempt takes none. At least one is taken, where a `usize` has 64 bits: the
/// number that the peer allows is cut to the size of a `usize`.
#[verifier::external_body]
pub(crate) fn write(connection: &mut ProtoConnection, id: u64, data: &[u8]) -> (r:
    WriteOutcome)
    requires
        can_send(is_client(*old(connection)), id),
    ensures
        side_of(*final(connection)) == side_of(*old(connection)),
        pending_notices(*final(connection)) == pending_notices(*old(connection)),
        forall|dir: Dir| #[trigger]
            acceptable(*final(connection), dir) == acceptable(*old(connection), dir),
        record_of(*final(connection)) == (Record {
            offers: offers(*old(connection)).push(Offer { id, data: data@, outcome: r }),
            ..record_of(*old(connection))
        }),
        r matches WriteOutcome::Written(n) ==> n <= data@.len() && (usize::BITS == 64
            && data@.len() > 0 ==> n > 0),
{
    let id = quinn_proto::VarInt::from_u64(id).unwrap().into();
    match connection.send_stream(id).write(data) {
        Ok(n) => WriteOutcome::Written(n),
        Err(quinn_proto::WriteError::Blocked) => WriteOutcome::Blocked,
        Err(quinn_proto::WriteError::ClosedStream) => WriteOutcome::ClosedStream,
        Err(quinn_proto::WriteError::Stopped(code)) => WriteOutcome::Stopped(code),
    }
}

/// `Connection::send_stream`, which panics on a stream on which this side cannot send, and
/// `SendStream::finish`. Whether the stream could be finished depends on the peer.
#[verifier::external_body]
pub(crate) fn finish(connection: &mut ProtoConnection, id: u64) -> (finished: bool)
    requires
        can_send(is_client(*old(connection)), id),
    ensures
        side_of(*final(connection)) == side_of(*old(connection)),
        pending_notices(*final(connection)) == pending_notices(*old(connection)),
        record_of(*final(connection)) == (Record {
            finishes: finishes(*old(connection)).push((id, finished)),
            ..record_of(*old(connection))
        }),
        forall|dir: Dir| #[trigger]
            acceptable(*final(connection), dir) == acceptable(*old(connection), dir),
{
    let id = quinn_proto::VarInt::from_u64(id).unwrap().into();
    connection.send_stream(id).finish().is_ok()
}

/// `Connection::send_stream`, which panics on a stream on which this side cannot send, and
/// `SendStream::reset`, which succeeds if the connection still has the stream and it has not been
/// reset. The reset is then queued for the peer, with the error code, and there can be no other.
#[verifier::external_body]
pub(crate) fn reset(
    connection: &mut ProtoConnection,
    id: u64,
    error_code: quinn_proto::VarInt,
) -> (reset: bool)
    requires
        can_send(is_client(*old(connection)), id),
    ensures
        side_of(*final(connection)) == side_of(*old(connection)),
        record_of(*final(connection)) == (Record {
            resets: if reset {
                resets(*old(connection)).push((id, error_code))
            } else {
                resets(*old(connection))
            },
            ..record_of(*old(connection))
        }),
        reset == resettable(*old(connection), id),
        !resettable(*final(connection), id),
{
    let id = quinn_proto::VarInt::from_u64(id).unwrap().into();
    connection.send_stream(id).reset(error_code).is_ok()
}

/// `EndpointConfig::default`, and `EndpointConfig::get_max_udp_payload_size` of it, which is
/// what an Ethernet frame of 1500 bytes has room for.
#[verifier::external_body]
pub(crate) fn endpoint_config() -> (r: (ProtoEndpointConfig, u64))
    ensures
        r.1 == 1472,
{
    let config = ProtoEndpointConfig::default();
    let size = config.get_max_udp_payload_size();
    (config, size)
}

/// `Endpoint::new`: an endpoint that holds no connection, and has been asked nothing. It is a
/// server if it is given a configuration for that, which is then the one for the connections that
/// it accepts. What the configurations hold in detail is not stated; the seed for random numbers
/// comes from the system.
#[verifier::external_body]
pub(crate) fn new_endpoint(
    config: ProtoEndpointConfig,
    server_config: &Option<quinn_proto::ServerConfig>,
    allow_mtud: bool,
) -> (r: ProtoEndpoint)
    ensures
        live_handles(r) == Set::<usize>::empty(),
        server_setup(r) == *server_config,
        discovers_mtu(r) == allow_mtud,
        unasked(r),
{
    let server_config = server_config.clone().map(Arc::new);
    ProtoEndpoint::new(Arc::new(config), server_config, allow_mtud, None)
}

/// What comes of a datagram.
pub enum DatagramOutcome {
    /// It is for the connection with this handle.
    Routed(usize, RoutedDatagram),
    /// It is an attempt to make a connection.
    NewConnection(quinn_proto::Incoming),
    /// It is to be answered.
    Response(Transmit),
}

/// `Endpoint::handle`, with the addresses of `origin`. The response, if there is one, fills
/// the buffer. What comes of a datagram depends on who sent it; it does not change which
/// connections the endpoint holds. A datagram that is for a connection is for one of those, since
/// the endpoint forgets the routes to a connection with the connection. Only a server reports an
/// attempt to make a connection, which then waits to be settled.
#[verifier::external_body]
pub(crate) fn handle(
    endpoint: &mut ProtoEndpoint,
    now: Instant,
    origin: &quinn_udp::RecvMeta,
    ecn: Option<quinn_proto::EcnCodepoint>,
    data: &[u8],
    response: &mut Vec<u8>,
) -> (r: Option<DatagramOutcome>)
    requires
        old(response)@.len() == 0,
    ensures
        live_handles(*final(endpoint)) == live_handles(*old(endpoint)),
        same_setup(*old(endpoint), *final(endpoint)),
        endpoint_record(*final(endpoint)) == (EndpointRecord {
            handled: handled(*old(endpoint)).push(
                Datagram { now, origin: *origin, ecn, data: data@ },
            ),
            outcomes: outcomes(*old(endpoint)).push((r, final(response)@)),
            ..endpoint_record(*old(endpoint))
        }),
        r matches Some(DatagramOutcome::Routed(handle, _)) ==> live_handles(
            *old(endpoint),
        ).contains(handle),
        r matches Some(DatagramOutcome::NewConnection(incoming)) ==> serves(*old(endpoint))
            && awaiting(*final(endpoint)).contains(incoming),
        r matches Some(DatagramOutcome::Response(transmit)) ==> {
            transmit.size == final(response)@.len()
        },
{
    let event = endpoint.handle(now, origin.addr, origin.dst_ip, ecn, data.into(), response);
    event.map(|event| match event {
        DatagramEvent::ConnectionEvent(handle, event) =>
            DatagramOutcome::Routed(handle.0, RoutedDatagram { event }),
        DatagramEvent::NewConnection(incoming) => DatagramOutcome::NewConnection(incoming),
        DatagramEvent::Response(t) => DatagramOutcome::Response(
            Transmit { size: t.size, ecn: t.ecn, segment_size: t.segment_size, route: t },
        ),
    })
}

/// `Endpoint::accept`, which panics on an attempt that does not wait to be settled, and settles
/// it. A connection that is accepted has a handle that the endpoint did not hold, this side is
/// its server, it has been asked nothing, and no stream has been accepted. If the attempt fails
/// the endpoint holds what it held, and the response, if there is one, fills the buffer. Whether
/// it fails depends on the peer.
#[verifier::external_body]
pub(crate) fn accept(
    endpoint: &mut ProtoEndpoint,
    incoming: quinn_proto::Incoming,
    now: Instant,
    response: &mut Vec<u8>,
) -> (r: Result<(usize, ProtoConnection), Option<Transmit>>)
    requires
        awaiting(*old(endpoint)).contains(incoming),
        old(response)@.len() == 0,
    ensures
        same_setup(*old(endpoint), *final(endpoint)),
        endpoint_record(*final(endpoint)) == (EndpointRecord {
            settlements: settlements(*old(endpoint)).push(
                Settlement {
                    incoming,
                    now,
                    outcome: match r {
                        Ok((handle, _)) => Ok(handle),
                        Err(answer) => Err(answer),
                    },
                    contents: final(response)@,
                },
            ),
            ..endpoint_record(*old(endpoint))
        }),
        !awaiting(*final(endpoint)).contains(incoming),
        match r {
            Ok((handle, connection)) => !live_handles(*old(endpoint)).contains(handle)
                && live_handles(*final(endpoint)) == live_handles(*old(endpoint)).insert(handle)
                && !is_client(connection) && unused(connection),
            Err(Some(transmit)) => live_handles(*final(endpoint)) == live_handles(*old(endpoint))
                && transmit.size == final(response)@.len(),
            Err(None) => live_handles(*final(endpoint)) == live_handles(*old(endpoint)),
        },
{
    match endpoint.accept(incoming, now, response, None) {
        Ok((handle, connection)) => Ok((handle.0, connection)),
        Err(error) => Err(error.response.map(
            |t| Transmit { size: t.size, ecn: t.ecn, segment_size: t.segment_size, route: t },
        )),
    }
}

/// `Endpoint::connect`, to the address of `remote`. A new connection has a handle that the
/// endpoint did not hold, this side is its client, it has been asked nothing, and no stream has
/// been accepted. If it fails the endpoint holds what it held. Whether it fails depends on the
/// configuration, the address and the name; what came of it is on the endpoint's record, with
/// what was asked for.
#[verifier::external_body]
pub(crate) fn connect(
    endpoint: &mut ProtoEndpoint,
    now: Instant,
    config: quinn_proto::ClientConfig,
    remote: &quinn_udp::RecvMeta,
    server_name: &str,
) -> (r: Result<(usize, ProtoConnection), quinn_proto::ConnectError>)
    ensures
        same_setup(*old(endpoint), *final(endpoint)),
        endpoint_record(*final(endpoint)) == (EndpointRecord {
            dials: dials(*old(endpoint)).push(
                Dial {
                    now,
                    config,
                    remote: *remote,
                    server_name: server_name@,
                    outcome: match r {
                        Ok((handle, _)) => Ok(handle),
                        Err(error) => Err(error),
                    },
                },
            ),
            ..endpoint_record(*old(endpoint))
        }),
        match r {
            Ok((handle, connection)) => !live_handles(*old(endpoint)).contains(handle)
                && live_handles(*final(endpoint)) == live_handles(*old(endpoint)).insert(handle)
                && is_client(connection) && unused(connection),
            Err(_) => live_handles(*final(endpoint)) == live_handles(*old(endpoint)),
        },
{
    let (handle, connection) = endpoint.connect(now, config, remote.addr, server_name)?;
    Ok((handle.0, connection))
}

} // verus!
