//! An endpoint: the connections that share a socket.

use quinn_proto::Endpoint as ProtoEndpoint;
use std::time::Instant;
use vstd::prelude::*;
use vstd::slice::slice_subrange;

use crate::connection::{explains, updated, Connection, UpdateReport};
use crate::ids::{ConnectionId, StreamId};
use crate::laws::law_reports;
use crate::proto;
use crate::proto::{
    awaiting, dials, discovers_mtu, endpoint_record, handled, live_handles, outcomes, same_setup,
    server_setup, serves, settlements, told, unasked, unused, Datagram, DatagramOutcome, Dial,
    EndpointRecord, Record, RoutedDatagram, Settlement,
};
use crate::streams::{fresh_table, ConnectionCallback};
use crate::tables::Connections;
use crate::trace::UpdateTrace;
use crate::transmit::{proto_ecn, quinn_proto_ecn, Transmit};

verus! {

/// How an endpoint is to be set up.
pub struct EndpointConfig {
    /// The configuration of connections that are accepted. Without it none is.
    pub server_config: Option<quinn_proto::ServerConfig>,
    /// How many bytes each connection may receive.
    pub receive_budget: usize,
}

/// What an endpoint reports while it is updated.
pub enum EndpointCallback {
    /// The connection with this handle has been established.
    SuccessfulConnection(usize),
    /// The peer opened a receive stream.
    OpenedReceiveStream { connection_handle: usize, stream_id: StreamId },
    /// The peer closed a receive stream.
    ClosedReceiveStream { connection_handle: usize, stream_id: StreamId },
    /// The data of a receive stream was entirely read.
    FinishedReceiveStream { connection_handle: usize, stream_id: StreamId },
    /// The peer opened a send stream.
    OpenedSendStream { connection_handle: usize, stream_id: StreamId },
    /// The peer closed a send stream.
    ClosedSendStream {
        connection_handle: usize,
        stream_id: StreamId,
        error_code: quinn_proto::VarInt,
    },
}

/// What an endpoint reports when the connection with that handle does: a connection that is to
/// be removed is not reported.
pub open spec fn callback_of(handle: usize, callback: ConnectionCallback) -> Option<
    EndpointCallback,
> {
    match callback {
        ConnectionCallback::SuccessfulConnection(connection_handle) => Some(
            EndpointCallback::SuccessfulConnection(connection_handle),
        ),
        ConnectionCallback::OpenedReceiveStream(stream_id) => Some(
            EndpointCallback::OpenedReceiveStream { connection_handle: handle, stream_id },
        ),
        ConnectionCallback::ClosedReceiveStream(stream_id, _) => Some(
            EndpointCallback::ClosedReceiveStream { connection_handle: handle, stream_id },
        ),
        ConnectionCallback::FinishedReceiveStream(stream_id) => Some(
            EndpointCallback::FinishedReceiveStream { connection_handle: handle, stream_id },
        ),
        ConnectionCallback::OpenedSendStream(stream_id) => Some(
            EndpointCallback::OpenedSendStream { connection_handle: handle, stream_id },
        ),
        ConnectionCallback::ClosedSendStream(stream_id, error_code) => Some(
            EndpointCallback::ClosedSendStream { connection_handle: handle, stream_id, error_code },
        ),
        ConnectionCallback::CloseConnection => None,
    }
}

/// What an endpoint reports when the connection with that handle reports these things.
pub open spec fn callbacks_of(handle: usize, callbacks: Seq<ConnectionCallback>) -> Seq<
    EndpointCallback,
>
    decreases callbacks.len(),
{
    if callbacks.len() == 0 {
        seq![]
    } else {
        let before = callbacks_of(handle, callbacks.drop_last());
        match callback_of(handle, callbacks.last()) {
            Some(callback) => before.push(callback),
            None => before,
        }
    }
}

/// Whether what the endpoint reports is of the kind of what the connection with that handle
/// reports, and names the same connection, stream and error code. Only that a connection is to be
/// removed is not reported.
pub open spec fn passes_on(
    handle: usize,
    callback: ConnectionCallback,
    report: Option<EndpointCallback>,
) -> bool {
    match report {
        None => callback is CloseConnection,
        Some(EndpointCallback::SuccessfulConnection(connection_handle)) => callback
            == ConnectionCallback::SuccessfulConnection(connection_handle),
        Some(EndpointCallback::OpenedReceiveStream { connection_handle, stream_id }) => callback
            == ConnectionCallback::OpenedReceiveStream(stream_id) && connection_handle == handle,
        Some(EndpointCallback::ClosedReceiveStream { connection_handle, stream_id }) => callback
            is ClosedReceiveStream && callback->ClosedReceiveStream_0 == stream_id
            && connection_handle == handle,
        Some(EndpointCallback::FinishedReceiveStream { connection_handle, stream_id }) => callback
            == ConnectionCallback::FinishedReceiveStream(stream_id) && connection_handle == handle,
        Some(EndpointCallback::OpenedSendStream { connection_handle, stream_id }) => callback
            == ConnectionCallback::OpenedSendStream(stream_id) && connection_handle == handle,
        Some(EndpointCallback::ClosedSendStream { connection_handle, stream_id, error_code })
            => callback == ConnectionCallback::ClosedSendStream(stream_id, error_code)
            && connection_handle == handle,
    }
}

/// An endpoint passes on everything that its connections report, as it is, but that one is to be
/// removed: nothing else is left out, and nothing is taken for something else.
pub proof fn law_reports_are_passed_on_as_they_are(handle: usize, callback: ConnectionCallback)
    ensures
        callback_of(handle, callback) is None <==> callback is CloseConnection,
        callback_of(handle, callback) matches Some(report) ==> match report {
            EndpointCallback::SuccessfulConnection(connection_handle) => callback
                == ConnectionCallback::SuccessfulConnection(connection_handle),
            EndpointCallback::OpenedReceiveStream { connection_handle, stream_id } => callback
                == ConnectionCallback::OpenedReceiveStream(stream_id) && connection_handle
                == handle,
            EndpointCallback::ClosedReceiveStream { connection_handle, stream_id } => callback
                is ClosedReceiveStream && callback->ClosedReceiveStream_0 == stream_id
                && connection_handle == handle,
            EndpointCallback::FinishedReceiveStream { connection_handle, stream_id } => callback
                == ConnectionCallback::FinishedReceiveStream(stream_id) && connection_handle
                == handle,
            EndpointCallback::OpenedSendStream { connection_handle, stream_id } => callback
                == ConnectionCallback::OpenedSendStream(stream_id) && connection_handle == handle,
            EndpointCallback::ClosedSendStream { connection_handle, stream_id, error_code }
                => callback == ConnectionCallback::ClosedSendStream(stream_id, error_code)
                && connection_handle == handle,
        },
{
}

/// What an endpoint makes of a single report is what it makes of it alone.
pub proof fn law_single_reports_are_passed_on(handle: usize, callback: ConnectionCallback)
    ensures
        ({
            let passed = callbacks_of(handle, seq![callback]);
            &&& passed.len() == if callback is CloseConnection {
                0nat
            } else {
                1
            }
            &&& passed.len() > 0 ==> {
                &&& passed[0] is SuccessfulConnection <==> callback is SuccessfulConnection
                &&& passed[0] is OpenedReceiveStream <==> callback is OpenedReceiveStream
                &&& passed[0] is ClosedReceiveStream <==> callback is ClosedReceiveStream
                &&& passed[0] is FinishedReceiveStream <==> callback is FinishedReceiveStream
                &&& passed[0] is OpenedSendStream <==> callback is OpenedSendStream
                &&& passed[0] is ClosedSendStream <==> callback is ClosedSendStream
            }
        }),
{
    assert(seq![callback].drop_last() =~= Seq::<ConnectionCallback>::empty());
    reveal_with_fuel(callbacks_of, 2);
}

/// Turns what the connection with that handle reports into what its endpoint does.
pub fn endpoint_callback(handle: usize, callback: ConnectionCallback) -> (r: Option<
    EndpointCallback,
>)
    ensures
        r == callback_of(handle, callback),
        passes_on(handle, callback, r),
{
    match callback {
        ConnectionCallback::SuccessfulConnection(connection_handle) => Some(
            EndpointCallback::SuccessfulConnection(connection_handle),
        ),
        ConnectionCallback::OpenedReceiveStream(stream_id) => Some(
            EndpointCallback::OpenedReceiveStream { connection_handle: handle, stream_id },
        ),
        ConnectionCallback::ClosedReceiveStream(stream_id, _) => Some(
            EndpointCallback::ClosedReceiveStream { connection_handle: handle, stream_id },
        ),
        ConnectionCallback::FinishedReceiveStream(stream_id) => Some(
            EndpointCallback::FinishedReceiveStream { connection_handle: handle, stream_id },
        ),
        ConnectionCallback::OpenedSendStream(stream_id) => Some(
            EndpointCallback::OpenedSendStream { connection_handle: handle, stream_id },
        ),
        ConnectionCallback::ClosedSendStream(stream_id, error_code) => Some(
            EndpointCallback::ClosedSendStream { connection_handle: handle, stream_id, error_code },
        ),
        ConnectionCallback::CloseConnection => None,
    }
}

/// Turns what the connection with that handle reported into what its endpoint does.
fn report(
    handle: usize,
    reported: Vec<ConnectionCallback>,
    callbacks: &mut Vec<EndpointCallback>,
)
    ensures
        final(callbacks)@ == old(callbacks)@ + callbacks_of(handle, reported@),
{
    let ghost all = reported@;
    assert(all.take(0) == Seq::<ConnectionCallback>::empty());
    for callback in it: reported
        invariant
            it.seq() == all,
            callbacks@ == old(callbacks)@ + callbacks_of(handle, all.take(it.index() as int)),
    {
        assert(all.take(it.index() + 1).drop_last() == all.take(it.index() as int));
        if let Some(callback) = endpoint_callback(handle, callback) {
            callbacks.push(callback);
        }
    }
    assert(all.take(all.len() as int) == all);
}

/// How much memory is needed to receive a batch of messages, each of so many datagrams. A
/// datagram is not expected to exceed 64 KiB.
pub open spec fn batch_memory(max_udp_payload: nat, max_gso_segments: nat, batch_size: nat) -> nat {
    message_memory(max_udp_payload, max_gso_segments) * batch_size
}

/// How much memory is needed to receive a message of so many datagrams.
pub open spec fn message_memory(max_udp_payload: nat, max_gso_segments: nat) -> nat {
    (if max_udp_payload < 64 * 1024 {
        max_udp_payload
    } else {
        64 * 1024
    }) * max_gso_segments
}

/// The memory for a batch is that for a datagram, of at most 64 KiB, as often as there are
/// datagrams in a message and messages in a batch.
pub proof fn law_batch_memory_has_room_for_every_datagram(
    max_udp_payload: nat,
    max_gso_segments: nat,
    batch_size: nat,
)
    ensures
        batch_memory(max_udp_payload, max_gso_segments, batch_size) == (if max_udp_payload < 65536 {
            max_udp_payload
        } else {
            65536
        }) * max_gso_segments * batch_size,
{
}

/// How much memory is needed to receive a batch of messages, if that much can be had at all.
pub fn receive_buffer_len(max_udp_payload: u64, max_gso_segments: usize, batch_size: usize) -> (r:
    Option<usize>)
    requires
        batch_size > 0,
    ensures
        match r {
            Some(len) => len == batch_memory(
                max_udp_payload as nat,
                max_gso_segments as nat,
                batch_size as nat,
            ),
            None => batch_memory(
                max_udp_payload as nat,
                max_gso_segments as nat,
                batch_size as nat,
            ) > usize::MAX,
        },
        r matches Some(len) ==> len == (if max_udp_payload < 65536 {
            max_udp_payload as nat
        } else {
            65536
        }) * max_gso_segments * batch_size,
{
    let datagram: usize = if max_udp_payload < 64 * 1024 {
        max_udp_payload as usize
    } else {
        64 * 1024
    };
    let message: usize = match datagram.checked_mul(max_gso_segments) {
        Some(message) => message,
        None => {
            proof {
                let memory = message_memory(max_udp_payload as nat, max_gso_segments as nat);
                assert(memory * batch_size >= memory) by (nonlinear_arith)
                    requires
                        batch_size > 0,
                ;
            }
            return None;
        },
    };
    message.checked_mul(batch_size)
}

/// The datagrams in a message whose datagrams are `stride` bytes long, but for the last one,
/// which may be shorter.
pub open spec fn datagrams(data: Seq<u8>, stride: nat) -> Seq<Seq<u8>>
    decreases data.len(),
{
    if data.len() == 0 || stride == 0 {
        seq![]
    } else if data.len() <= stride {
        seq![data]
    } else {
        seq![data.take(stride as int)] + datagrams(data.skip(stride as int), stride)
    }
}

/// The contents of slices.
pub open spec fn slice_contents(slices: Seq<&[u8]>) -> Seq<Seq<u8>> {
    slices.map_values(|slice: &[u8]| slice@)
}

/// Splits a message into its datagrams.
pub fn split_datagrams(data: &[u8], stride: usize) -> (r: Vec<&[u8]>)
    requires
        stride > 0 || data@.len() == 0,
    ensures
        slice_contents(r@) == datagrams(data@, stride as nat),
{
    let mut parts: Vec<&[u8]> = Vec::new();
    let mut start: usize = 0;
    assert(data@.skip(0) == data@);
    while start < data.len()
        invariant
            stride > 0 || data@.len() == 0,
            start <= data@.len(),
            slice_contents(parts@) + datagrams(data@.skip(start as int), stride as nat)
                =~= datagrams(data@, stride as nat),
        decreases data@.len() - start,
    {
        let rest: usize = data.len() - start;
        let len: usize = if stride < rest {
            stride
        } else {
            rest
        };
        let part = slice_subrange(data, start, start + len);
        let ghost before = parts@;
        parts.push(part);
        assert(slice_contents(parts@) =~= slice_contents(before).push(part@));
        assert(part@ == data@.skip(start as int).take(len as int));
        assert(data@.skip(start as int).skip(len as int) == data@.skip(start + len));
        assert(data@.skip(start as int).take(rest as int) == data@.skip(start as int));
        start = start + len;
    }
    parts
}

/// A message that came in through the socket.
pub struct Message {
    /// How many bytes it has.
    pub len: usize,
    /// How long its datagrams are, but for the last one, which may be shorter.
    pub stride: usize,
    /// The congestion notification bits that were set.
    pub ecn: Option<quinn_udp::EcnCodepoint>,
    /// The message as the socket described it, which knows the addresses.
    pub origin: quinn_udp::RecvMeta,
}

impl Message {
    /// The congestion notification bits that were set, as the protocol has them.
    pub open spec fn proto_ecn(&self) -> Option<quinn_proto::EcnCodepoint> {
        match self.ecn {
            Some(ecn) => Some(proto_ecn(ecn)),
            None => None,
        }
    }

    /// The datagrams of the message, whose bytes are the first ones of the buffer, when they are
    /// handed over at that time.
    pub open spec fn datagrams(&self, now: Instant, buffer: Seq<u8>) -> Seq<Datagram> {
        datagrams(buffer.take(self.len as int), self.stride as nat).map_values(
            |data: Seq<u8>|
                Datagram { now, origin: self.origin, ecn: self.proto_ecn(), data },
        )
    }
}

/// Whether these datagrams are the message, whose bytes are the first ones of the buffer, when it
/// is handed over at that time: their data, one after the other, is the whole of it; each but the
/// last is as long as the message says, and the last is not longer and not empty; and each comes
/// from where the message came, with the same congestion notification bits.
pub open spec fn handed_over(
    datagrams: Seq<Datagram>,
    now: Instant,
    message: Message,
    buffer: Seq<u8>,
) -> bool {
    &&& datagrams.map_values(|datagram: Datagram| datagram.data).flatten() == buffer.take(
        message.len as int,
    )
    &&& forall|i: int| #![trigger datagrams[i]]
        0 <= i < datagrams.len() ==> {
            &&& 0 < datagrams[i].data.len() <= message.stride
            &&& i < datagrams.len() - 1 ==> datagrams[i].data.len() == message.stride
            &&& datagrams[i].now == now
            &&& datagrams[i].origin == message.origin
            &&& datagrams[i].ecn is Some <==> message.ecn is Some
            &&& datagrams[i].ecn matches Some(ecn) ==> {
                &&& ecn is Ect0 <==> message.ecn->0 is Ect0
                &&& ecn is Ect1 <==> message.ecn->0 is Ect1
                &&& ecn is Ce <==> message.ecn->0 is Ce
            }
        }
}

/// The datagrams of a message are all of it, however many there are.
pub proof fn law_messages_are_handed_over_whole(message: Message, now: Instant, buffer: Seq<u8>)
    requires
        message.len <= buffer.len(),
        message.stride > 0 || message.len == 0,
    ensures
        message.datagrams(now, buffer).map_values(
            |datagram: Datagram| datagram.data,
        ).flatten() == buffer.take(message.len as int),
        forall|i: int| #![trigger message.datagrams(now, buffer)[i]]
            0 <= i < message.datagrams(now, buffer).len() ==> {
                let datagram = message.datagrams(now, buffer)[i];
                &&& 0 < datagram.data.len() <= message.stride
                &&& i < message.datagrams(now, buffer).len() - 1 ==> datagram.data.len()
                    == message.stride
                &&& datagram.now == now
                &&& datagram.origin == message.origin
                &&& datagram.ecn is Some <==> message.ecn is Some
                &&& datagram.ecn matches Some(ecn) ==> {
                    &&& ecn is Ect0 <==> message.ecn->0 is Ect0
                    &&& ecn is Ect1 <==> message.ecn->0 is Ect1
                    &&& ecn is Ce <==> message.ecn->0 is Ce
                }
            },
        handed_over(message.datagrams(now, buffer), now, message, buffer),
{
    let data = buffer.take(message.len as int);
    let parts = datagrams(data, message.stride as nat);
    let all = message.datagrams(now, buffer);
    assert(all.map_values(|datagram: Datagram| datagram.data) =~= parts);
    if message.stride > 0 {
        law_datagrams_make_up_the_message(data, message.stride as nat);
        assert forall|i: int| #![trigger all[i]] 0 <= i < all.len() implies {
            &&& 0 < all[i].data.len() <= message.stride
            &&& i < all.len() - 1 ==> all[i].data.len() == message.stride
        } by {
            law_datagrams_are_as_long_as_the_message_says(data, message.stride as nat, i);
            assert(all[i].data == parts[i]);
        }
    } else {
        assert(parts.flatten() =~= data);
    }
}

/// A datagram that is to be sent in answer to one that came in.
pub struct Response {
    pub transmit: Transmit,
    pub contents: Vec<u8>,
}

impl Response {
    /// Whether all of the contents are to be sent.
    pub open spec fn fits(&self) -> bool {
        self.transmit.size == self.contents@.len()
    }
}

/// Whether at most so many responses have been added, all of whose contents are to be sent.
pub open spec fn responded(before: Seq<Response>, after: Seq<Response>, most: nat) -> bool {
    &&& before.is_prefix_of(after)
    &&& after.len() <= before.len() + most
    &&& forall|i: int| before.len() <= i < after.len() ==> #[trigger] after[i].fits()
}

/// A response that follows others is one more response.
proof fn lemma_responded(
    earlier: Seq<Response>,
    before: Seq<Response>,
    after: Seq<Response>,
    most: nat,
)
    requires
        responded(earlier, before, most),
        after == before || after.len() > 0 && after.drop_last() == before && after.last().fits(),
    ensures
        responded(earlier, after, most + 1),
{
    if after != before {
        assert forall|i: int| 0 <= i < before.len() implies after[i] == before[i] by {
            assert(after.drop_last()[i] == after[i]);
        }
        assert(earlier =~= after.subrange(0, earlier.len() as int));
    }
}

/// A datagram was found to belong to a connection that the endpoint does not hold.
pub struct UnknownConnection(pub ConnectionId);

/// An endpoint.
pub struct Endpoint {
    config: EndpointConfig,
    /// How much memory is needed to receive a batch of messages.
    receive_buffer_len: usize,
    endpoint: ProtoEndpoint,
    connections: Connections,
}

impl View for Endpoint {
    type V = Map<usize, Connection>;

    closed spec fn view(&self) -> Map<usize, Connection> {
        self.connections@
    }
}

/// Whether the connections are the ones from before and a new one with that handle, on which
/// nothing has happened and of which this side is (`client`) or is not the client.
pub open spec fn joined(
    before: Map<usize, Connection>,
    after: Map<usize, Connection>,
    handle: usize,
    budget: nat,
    client: bool,
) -> bool {
    &&& !before.dom().contains(handle)
    &&& after == before.insert(handle, after[handle])
    &&& newcomer(after[handle], handle, budget, client)
}

/// Whether that is a connection on which nothing has happened.
pub open spec fn newcomer(
    connection: Connection,
    handle: usize,
    budget: nat,
    client: bool,
) -> bool {
    &&& connection.handle() == handle
    &&& connection@ == fresh_table(budget)
    &&& connection.client() == client
    &&& connection.wf()
    &&& unused(connection.proto())
}

/// Whether the connections differ only in that one of them has taken in a datagram.
pub open spec fn routed(
    before: Map<usize, Connection>,
    after: Map<usize, Connection>,
    handle: usize,
    datagram: RoutedDatagram,
) -> bool {
    &&& before.dom().contains(handle)
    &&& after[handle].record().heard == before[handle].record().heard.push(datagram.event)
    &&& after == before.insert(handle, after[handle])
    &&& undisturbed(before[handle], after[handle])
}

/// Whether this is the same connection, with the same streams, which has been asked nothing but to
/// take in datagrams.
pub open spec fn undisturbed(before: Connection, after: Connection) -> bool {
    &&& after.keeps(&before)
    &&& after.side() == before.side()
    &&& after@ == before@
    &&& after.record() == (Record { heard: after.record().heard, ..before.record() })
}

/// Whether the connections are those from before, with the same streams, and perhaps some that
/// peers have made, if this is a server.
pub open spec fn grown(
    before: Map<usize, Connection>,
    after: Map<usize, Connection>,
    budget: nat,
    server: bool,
) -> bool {
    &&& forall|handle: usize| #[trigger]
        before.dom().contains(handle) ==> after.dom().contains(handle) && undisturbed(
            before[handle],
            after[handle],
        )
    &&& forall|handle: usize| #[trigger]
        after.dom().contains(handle) && !before.dom().contains(handle) ==> server && newcomer(
            after[handle],
            handle,
            budget,
            false,
        )
}

/// What an endpoint has at some moment: its connections, the responses that are to be sent, and
/// the attempts to make a connection that it has accepted or refused.
#[verifier::ext_equal]
pub struct Moment {
    pub connections: Map<usize, Connection>,
    pub responses: Seq<Response>,
    pub settlements: Seq<Settlement>,
}

impl Moment {
    /// Whether that is a datagram for a connection that the endpoint does not have.
    pub open spec fn misses(self, outcome: Option<DatagramOutcome>) -> bool {
        outcome matches Some(DatagramOutcome::Routed(handle, _))
            && !self.connections.dom().contains(handle)
    }

    /// Whether the only difference is one more response, with these contents.
    pub open spec fn answers(self, after: Moment, transmit: Transmit, contents: Seq<u8>) -> bool {
        &&& after.connections == self.connections
        &&& after.responses.len() == self.responses.len() + 1
        &&& after.responses.drop_last() == self.responses
        &&& after.responses.last().transmit == transmit
        &&& after.responses.last().contents@ == contents
    }

    /// Whether `after` is what that outcome of a datagram makes of this: a datagram goes to the
    /// connection that it is for, if there is one; a response is added to those that are to be
    /// sent; and a server accepts an attempt to make a connection, of which a new connection comes,
    /// or a response, or nothing.
    pub open spec fn takes(
        self,
        outcome: Option<DatagramOutcome>,
        contents: Seq<u8>,
        now: Instant,
        config: EndpointConfig,
        after: Moment,
    ) -> bool {
        match outcome {
            None => after == self,
            Some(DatagramOutcome::Routed(handle, datagram)) => {
                &&& after.responses == self.responses
                &&& after.settlements == self.settlements
                &&& if self.misses(outcome) {
                    after.connections == self.connections
                } else {
                    routed(self.connections, after.connections, handle, datagram)
                }
            },
            Some(DatagramOutcome::Response(transmit)) => {
                &&& after.settlements == self.settlements
                &&& self.answers(after, transmit, contents)
            },
            Some(DatagramOutcome::NewConnection(incoming)) => if config.server_config is None {
                after == self
            } else {
                let settlement = after.settlements.last();
                &&& after.settlements == self.settlements.push(settlement)
                &&& settlement.incoming == incoming
                &&& settlement.now == now
                &&& match settlement.outcome {
                    Ok(handle) => {
                        &&& after.responses == self.responses
                        &&& joined(
                            self.connections,
                            after.connections,
                            handle,
                            config.receive_budget as nat,
                            false,
                        )
                    },
                    Err(Some(transmit)) => {
                        &&& self.answers(after, transmit, settlement.contents)
                        &&& after.responses.last().fits()
                    },
                    Err(None) => {
                        &&& after.connections == self.connections
                        &&& after.responses == self.responses
                    },
                }
            },
        }
    }
}

/// Whether these are the moments of an endpoint before, between and after datagrams with these
/// outcomes, none of which was for a connection that it did not have.
pub open spec fn sequel(
    moments: Seq<Moment>,
    outcomes: Seq<(Option<DatagramOutcome>, Seq<u8>)>,
    now: Instant,
    config: EndpointConfig,
) -> bool {
    &&& moments.len() == outcomes.len() + 1
    &&& forall|i: int|
        #![trigger outcomes[i]]
        0 <= i < outcomes.len() ==> !moments[i].misses(outcomes[i].0) && moments[i].takes(
            outcomes[i].0,
            outcomes[i].1,
            now,
            config,
            moments[i + 1],
        )
}

/// Whether taking in datagrams with these outcomes leads an endpoint from one moment to the other.
pub open spec fn leads(
    moments: Seq<Moment>,
    before: Moment,
    after: Moment,
    outcomes: Seq<(Option<DatagramOutcome>, Seq<u8>)>,
    now: Instant,
    config: EndpointConfig,
) -> bool {
    &&& sequel(moments, outcomes, now, config)
    &&& moments.first() == before
    &&& moments.last() == after
}

/// Whether a connection has just been made: it has that handle, is not established, has no streams,
/// may receive so many bytes, and the protocol has been asked nothing.
pub open spec fn untouched(
    connection: Connection,
    handle: usize,
    budget: nat,
    client: bool,
) -> bool {
    &&& connection.handle() == handle
    &&& connection.client() == client
    &&& !connection@.connected
    &&& connection@.readable == Set::<u64>::empty()
    &&& connection@.receive.dom() == Set::<u64>::empty()
    &&& connection@.send.dom() == Set::<u64>::empty()
    &&& connection@.budget == budget
    &&& connection.record().polled.len() == 0 && connection.record().noticed.len() == 0
    &&& connection.record().renewed.len() == 0 && connection.record().timeouts.len() == 0
    &&& connection.record().probes.len() == 0 && connection.record().reads.len() == 0
    &&& connection.record().offers.len() == 0 && connection.record().finishes.len() == 0
    &&& connection.record().opened.len() == 0 && connection.record().resets.len() == 0
    &&& connection.record().transmit_polls.len() == 0
}

/// A connection joins the others under its handle, which none of them has; they stay as they are,
/// and it is one on which nothing has happened.
pub proof fn law_new_connections_join_the_others(
    before: Map<usize, Connection>,
    after: Map<usize, Connection>,
    handle: usize,
    budget: nat,
    client: bool,
    other: usize,
)
    requires
        joined(before, after, handle, budget, client),
    ensures
        !before.dom().contains(handle),
        after.dom() == before.dom().insert(handle),
        before.dom().contains(other) ==> after[other] == before[other],
        untouched(after[handle], handle, budget, client),
{
    assert(after.dom() =~= before.dom().insert(handle));
    assert(after[handle]@.receive.dom() =~= Set::<u64>::empty());
    assert(after[handle]@.send.dom() =~= Set::<u64>::empty());
}

/// What an endpoint makes of a datagram is what the protocol said of it. One for a connection goes
/// to that connection, which takes it in and is otherwise as it was. A response is to be sent, with
/// its contents, after those that are to be sent already. A server accepts an attempt to make a
/// connection, once: of that comes a new connection, with the handle that the protocol gave, or
/// a response, or nothing. Everything else stays as it was.
#[verifier::rlimit(40)]
pub proof fn law_outcomes_are_acted_on(
    before: Moment,
    outcome: Option<DatagramOutcome>,
    contents: Seq<u8>,
    now: Instant,
    config: EndpointConfig,
    after: Moment,
    other: usize,
)
    requires
        before.takes(outcome, contents, now, config, after),
        !before.misses(outcome),
    ensures
        before.connections.dom().contains(other) ==> after.connections.dom().contains(other)
            && after.connections[other]@ == before.connections[other]@,
        before.responses.is_prefix_of(after.responses),
        before.settlements.is_prefix_of(after.settlements),
        outcome is None ==> after.connections == before.connections && after.responses
            == before.responses && after.settlements == before.settlements,
        outcome matches Some(DatagramOutcome::Routed(handle, datagram)) ==> {
            &&& after.connections.dom() == before.connections.dom()
            &&& after.connections[handle].record() == (Record {
                heard: before.connections[handle].record().heard.push(datagram.event),
                ..before.connections[handle].record()
            })
            &&& after.connections[handle].handle() == before.connections[handle].handle()
            &&& after.connections[handle].side() == before.connections[handle].side()
            &&& after.connections[handle].outgoing() == before.connections[handle].outgoing()
            &&& other != handle && before.connections.dom().contains(other)
                ==> after.connections[other] == before.connections[other]
            &&& after.responses == before.responses && after.settlements == before.settlements
        },
        outcome matches Some(DatagramOutcome::Response(transmit)) ==> {
            &&& after.connections == before.connections && after.settlements == before.settlements
            &&& after.responses.len() == before.responses.len() + 1
            &&& after.responses.last().transmit == transmit
            &&& after.responses.last().contents@ == contents
        },
        outcome matches Some(DatagramOutcome::NewConnection(incoming)) ==> {
            &&& after.settlements.len() == before.settlements.len() + if config.server_config
                is Some {
                1nat
            } else {
                0
            }
            &&& config.server_config is None ==> after.connections == before.connections
                && after.responses == before.responses
            &&& config.server_config is Some ==> {
                let settlement = after.settlements.last();
                &&& settlement.incoming == incoming && settlement.now == now
                &&& settlement.outcome matches Ok(handle) ==> {
                    &&& !before.connections.dom().contains(handle)
                    &&& after.connections.dom() == before.connections.dom().insert(handle)
                    &&& untouched(
                        after.connections[handle],
                        handle,
                        config.receive_budget as nat,
                        false,
                    )
                    &&& after.responses == before.responses
                }
                &&& settlement.outcome is Err ==> after.connections == before.connections
                &&& settlement.outcome matches Err(Some(transmit)) ==> {
                    &&& after.responses.len() == before.responses.len() + 1
                    &&& after.responses.last().transmit == transmit
                    &&& after.responses.last().contents@ == settlement.contents
                }
                &&& settlement.outcome == Err::<usize, Option<Transmit>>(None)
                    ==> after.responses == before.responses
            }
        },
{
    if after.responses != before.responses {
        let n = before.responses.len() as int;
        assert(before.responses =~= after.responses.subrange(0, n)) by {
            assert forall|i: int| 0 <= i < n implies before.responses[i] == after.responses[i] by {
                assert(after.responses.drop_last()[i] == after.responses[i]);
            }
        }
    }
    match outcome {
        Some(DatagramOutcome::Routed(handle, _)) => {
            assert(after.connections.dom() =~= before.connections.dom());
        },
        Some(DatagramOutcome::NewConnection(_)) => {
            if config.server_config is Some {
                if let Ok(handle) = after.settlements.last().outcome {
                    law_new_connections_join_the_others(
                        before.connections,
                        after.connections,
                        handle,
                        config.receive_budget as nat,
                        false,
                        other,
                    );
                }
            }
        },
        _ => {},
    }
}

/// The datagrams that the protocol found to be for the connection with that handle.
pub open spec fn routed_to(
    outcomes: Seq<(Option<DatagramOutcome>, Seq<u8>)>,
    handle: usize,
) -> Seq<quinn_proto::ConnectionEvent>
    decreases outcomes.len(),
{
    if outcomes.len() == 0 {
        seq![]
    } else {
        let before = routed_to(outcomes.drop_last(), handle);
        match outcomes.last().0 {
            Some(DatagramOutcome::Routed(to, datagram)) if to == handle => before.push(
                datagram.event,
            ),
            _ => before,
        }
    }
}

/// The beginning of a sequel is a sequel.
proof fn lemma_sequel(
    moments: Seq<Moment>,
    outcomes: Seq<(Option<DatagramOutcome>, Seq<u8>)>,
    now: Instant,
    config: EndpointConfig,
)
    requires
        sequel(moments, outcomes, now, config),
        outcomes.len() > 0,
    ensures
        sequel(moments.drop_last(), outcomes.drop_last(), now, config),
        moments[outcomes.len() - 1].takes(
            outcomes.last().0,
            outcomes.last().1,
            now,
            config,
            moments.last(),
        ),
        !moments[outcomes.len() - 1].misses(outcomes.last().0),
{
    let earlier = moments.drop_last();
    let previous = outcomes.drop_last();
    assert forall|i: int| #![trigger previous[i]]
        0 <= i < previous.len() implies !earlier[i].misses(previous[i].0) && earlier[i].takes(
        previous[i].0,
        previous[i].1,
        now,
        config,
        earlier[i + 1],
    ) by {
        assert(previous[i] == outcomes[i]);
    }
    assert(outcomes[outcomes.len() - 1] == outcomes.last());
}

/// Every connection that an endpoint has takes in the datagrams of a message that are for it, all
/// of them and in order, and its streams stay as they are.
pub proof fn law_datagrams_reach_their_connections(
    moments: Seq<Moment>,
    outcomes: Seq<(Option<DatagramOutcome>, Seq<u8>)>,
    now: Instant,
    config: EndpointConfig,
    handle: usize,
)
    requires
        sequel(moments, outcomes, now, config),
        moments.first().connections.dom().contains(handle),
    ensures
        moments.last().connections.dom().contains(handle),
        moments.last().connections[handle]@ == moments.first().connections[handle]@,
        moments.last().connections[handle].record().heard
            == moments.first().connections[handle].record().heard + routed_to(outcomes, handle),
    decreases outcomes.len(),
{
    let heard = moments.first().connections[handle].record().heard;
    if outcomes.len() == 0 {
        assert(heard + routed_to(outcomes, handle) =~= heard);
    } else {
        let n = outcomes.len() - 1;
        lemma_sequel(moments, outcomes, now, config);
        law_datagrams_reach_their_connections(
            moments.drop_last(),
            outcomes.drop_last(),
            now,
            config,
            handle,
        );
        law_outcomes_are_acted_on(
            moments[n],
            outcomes.last().0,
            outcomes.last().1,
            now,
            config,
            moments.last(),
            handle,
        );
        assert(moments.drop_last().last() == moments[n]);
        let own = match outcomes.last().0 {
            Some(DatagramOutcome::Routed(to, _)) => to == handle,
            _ => false,
        };
        if !own {
            lemma_others_undisturbed(
                moments[n],
                outcomes.last().0,
                outcomes.last().1,
                now,
                config,
                moments.last(),
                handle,
            );
        }
        assert(moments.last().connections[handle].record().heard =~= heard + routed_to(
            outcomes,
            handle,
        ));
    }
}

/// A datagram that is not for a connection leaves that connection as it is.
proof fn lemma_others_undisturbed(
    before: Moment,
    outcome: Option<DatagramOutcome>,
    contents: Seq<u8>,
    now: Instant,
    config: EndpointConfig,
    after: Moment,
    handle: usize,
)
    requires
        before.takes(outcome, contents, now, config, after),
        !before.misses(outcome),
        before.connections.dom().contains(handle),
        !(outcome matches Some(DatagramOutcome::Routed(to, _)) && to == handle),
    ensures
        after.connections[handle] == before.connections[handle],
{
}

/// How many responses the protocol had when it was handed datagrams with these outcomes.
pub open spec fn responses_in(outcomes: Seq<(Option<DatagramOutcome>, Seq<u8>)>) -> nat
    decreases outcomes.len(),
{
    if outcomes.len() == 0 {
        0
    } else {
        responses_in(outcomes.drop_last()) + match outcomes.last().0 {
            Some(DatagramOutcome::Response(_)) => 1nat,
            _ => 0nat,
        }
    }
}

/// How many responses the protocol had when it was asked to accept these attempts, from the `first`
/// on.
pub open spec fn refusals_in(settlements: Seq<Settlement>, first: nat) -> nat
    decreases settlements.len(),
{
    if settlements.len() <= first {
        0
    } else {
        refusals_in(settlements.drop_last(), first) + match settlements.last().outcome {
            Err(Some(_)) => 1nat,
            _ => 0nat,
        }
    }
}

/// Every response that the protocol has to the datagrams of a message, or to an attempt to make a
/// connection, is to be sent, and no others, after those that were to be sent already.
pub proof fn law_every_response_is_to_be_sent(
    moments: Seq<Moment>,
    outcomes: Seq<(Option<DatagramOutcome>, Seq<u8>)>,
    now: Instant,
    config: EndpointConfig,
)
    requires
        sequel(moments, outcomes, now, config),
    ensures
        moments.first().responses.is_prefix_of(moments.last().responses),
        moments.first().settlements.is_prefix_of(moments.last().settlements),
        moments.last().responses.len() == moments.first().responses.len() + responses_in(outcomes)
            + refusals_in(moments.last().settlements, moments.first().settlements.len()),
    decreases outcomes.len(),
{
    if outcomes.len() > 0 {
        let n = outcomes.len() - 1;
        lemma_sequel(moments, outcomes, now, config);
        law_every_response_is_to_be_sent(moments.drop_last(), outcomes.drop_last(), now, config);
        assert(moments.drop_last().last() == moments[n]);
        law_outcomes_are_acted_on(
            moments[n],
            outcomes.last().0,
            outcomes.last().1,
            now,
            config,
            moments.last(),
            0,
        );
        if moments.last().settlements.len() > moments[n].settlements.len() {
            assert(moments.last().settlements.drop_last() =~= moments[n].settlements);
        } else {
            assert(moments.last().settlements =~= moments[n].settlements);
        }
    }
}

/// Whether the protocol has been asked once, with these arguments, for a connection, and that is
/// what came of it.
pub open spec fn dialed(
    before: ProtoEndpoint,
    after: ProtoEndpoint,
    now: Instant,
    config: quinn_proto::ClientConfig,
    remote: quinn_udp::RecvMeta,
    server_name: Seq<char>,
    outcome: Result<usize, quinn_proto::ConnectError>,
) -> bool {
    endpoint_record(after) == (EndpointRecord {
        dials: dials(before).push(Dial { now, config, remote, server_name, outcome }),
        ..endpoint_record(before)
    })
}

/// One more datagram leads to one more moment.
proof fn lemma_leads(
    moments: Seq<Moment>,
    before: Moment,
    after: Moment,
    outcomes: Seq<(Option<DatagramOutcome>, Seq<u8>)>,
    now: Instant,
    config: EndpointConfig,
    outcome: (Option<DatagramOutcome>, Seq<u8>),
    next: Moment,
)
    requires
        leads(moments, before, after, outcomes, now, config),
        after.takes(outcome.0, outcome.1, now, config, next),
        !after.misses(outcome.0),
    ensures
        leads(moments.push(next), before, next, outcomes.push(outcome), now, config),
{
    let all = outcomes.push(outcome);
    let longer = moments.push(next);
    assert forall|i: int|
        #![trigger all[i]]
        0 <= i < all.len() implies !longer[i].misses(all[i].0) && longer[i].takes(
        all[i].0,
        all[i].1,
        now,
        config,
        longer[i + 1],
    ) by {
        if i < outcomes.len() {
            assert(all[i] == outcomes[i]);
            assert(longer[i] == moments[i] && longer[i + 1] == moments[i + 1]);
        }
    }
}

/// An endpoint stays the one that it is: its configuration stays, with the memory that it needs,
/// and so does how the protocol is set up.
pub proof fn law_endpoints_stay_what_they_are(before: Endpoint, after: Endpoint)
    requires
        after.continues(&before),
    ensures
        after.config() == before.config(),
        after.buffer_len() == before.buffer_len(),
        server_setup(after.proto()) == server_setup(before.proto()),
        discovers_mtu(after.proto()) == discovers_mtu(before.proto()),
{
}

/// The connections of an endpoint are those that the protocol has, each under its own handle, and
/// the protocol accepts connections with the configuration of the endpoint.
pub proof fn law_endpoints_have_the_connections_of_the_protocol(endpoint: Endpoint, handle: usize)
    requires
        endpoint.wf(),
    ensures
        endpoint@.dom().contains(handle) <==> live_handles(endpoint.proto()).contains(handle),
        endpoint@.dom().contains(handle) ==> endpoint@[handle].handle() == handle,
        server_setup(endpoint.proto()) == endpoint.config().server_config,
{
}

/// Connecting asks the protocol once, at that time, with the configuration, the peer and the name
/// that were given, and for nothing else.
pub proof fn law_connecting_asks_for_what_was_given(
    before: ProtoEndpoint,
    after: ProtoEndpoint,
    now: Instant,
    config: quinn_proto::ClientConfig,
    remote: quinn_udp::RecvMeta,
    server_name: Seq<char>,
    outcome: Result<usize, quinn_proto::ConnectError>,
)
    requires
        dialed(before, after, now, config, remote, server_name, outcome),
    ensures
        dials(after).len() == dials(before).len() + 1,
        dials(before).is_prefix_of(dials(after)),
        dials(after).last().now == now,
        dials(after).last().config == config,
        dials(after).last().remote == remote,
        dials(after).last().server_name == server_name,
        dials(after).last().outcome == outcome,
        handled(after) == handled(before),
        outcomes(after) == outcomes(before),
        settlements(after) == settlements(before),
        told(after) == told(before),
{
    assert(endpoint_record(after).dials == dials(after));
    assert(dials(before) =~= dials(after).subrange(0, dials(before).len() as int));
    assert(endpoint_record(after).handled == handled(after));
    assert(endpoint_record(after).outcomes == outcomes(after));
    assert(endpoint_record(after).settlements == settlements(after));
    assert(endpoint_record(after).told == told(after));
}

impl Endpoint {
    /// The protocol's state.
    pub closed spec fn proto(&self) -> ProtoEndpoint {
        self.endpoint
    }

    /// How the endpoint was set up.
    pub closed spec fn config(&self) -> EndpointConfig {
        self.config
    }

    /// How much memory is needed to receive a batch of messages.
    pub closed spec fn buffer_len(&self) -> nat {
        self.receive_buffer_len as nat
    }

    /// What the endpoint has, when these responses are to be sent.
    pub open spec fn moment(&self, responses: Seq<Response>) -> Moment {
        Moment { connections: self@, responses, settlements: settlements(self.proto()) }
    }

    /// The connections are those that the protocol knows, each under its own handle, and the
    /// protocol has the configuration for the connections that are accepted.
    pub open spec fn wf(&self) -> bool {
        &&& self@.dom() == live_handles(self.proto())
        &&& server_setup(self.proto()) == self.config().server_config
        &&& forall|handle: usize| #[trigger]
            self@.dom().contains(handle) ==> self@[handle].handle() == handle && self@[handle].wf()
    }

    /// Whether this is the endpoint that `before` was, at some later time.
    pub open spec fn continues(&self, before: &Endpoint) -> bool {
        &&& self.config() == before.config()
        &&& self.buffer_len() == before.buffer_len()
        &&& same_setup(before.proto(), self.proto())
    }

    /// Makes an endpoint for a socket that may or may not fragment datagrams, sends so many at
    /// once, and receives so many messages at once.
    ///
    /// Returns `None` if a batch of messages would not fit into memory.
    pub fn new(
        config: EndpointConfig,
        may_fragment: bool,
        max_gso_segments: usize,
        batch_size: usize,
    ) -> (r: Option<Endpoint>)
        requires
            batch_size > 0,
        ensures
            match r {
                Some(endpoint) => endpoint.wf() && endpoint@ == Map::<usize, Connection>::empty()
                    && endpoint.config() == config && endpoint.buffer_len() == batch_memory(
                    1472,
                    max_gso_segments as nat,
                    batch_size as nat,
                ) && endpoint.buffer_len() == 1472 * max_gso_segments * batch_size && server_setup(
                    endpoint.proto(),
                ) == config.server_config && discovers_mtu(
                    endpoint.proto(),
                ) == !may_fragment && unasked(endpoint.proto()),
                None => batch_memory(1472, max_gso_segments as nat, batch_size as nat)
                    > usize::MAX,
            },
    {
        let (endpoint_config, max_udp_payload) = proto::endpoint_config();
        let len: usize = match receive_buffer_len(max_udp_payload, max_gso_segments, batch_size) {
            Some(len) => len,
            None => {
                return None;
            },
        };
        let endpoint = proto::new_endpoint(endpoint_config, &config.server_config, !may_fragment);
        Some(
            Endpoint {
                config,
                receive_buffer_len: len,
                endpoint,
                connections: Connections::new(),
            },
        )
    }

    /// How much memory is needed to receive a batch of messages.
    pub fn receive_buffer_len(&self) -> (len: usize)
        ensures
            len == self.buffer_len(),
    {
        self.receive_buffer_len
    }

    /// Takes in a connection that the protocol has just made.
    fn enlist(&mut self, handle: usize, connection: quinn_proto::Connection)
        requires
            !old(self)@.dom().contains(handle),
            live_handles(old(self).proto()) == old(self)@.dom().insert(handle),
            server_setup(old(self).proto()) == old(self).config().server_config,
            forall|other: usize| #[trigger]
                old(self)@.dom().contains(other) ==> old(self)@[other].handle() == other && old(
                    self,
                )@[other].wf(),
            unused(connection),
        ensures
            final(self).wf(),
            final(self).proto() == old(self).proto(),
            final(self).continues(old(self)),
            joined(
                old(self)@,
                final(self)@,
                handle,
                old(self).config().receive_budget as nat,
                proto::is_client(connection),
            ),
    {
        let connection = Connection::new(handle, connection, self.config.receive_budget);
        let _previous = self.connections.insert(handle, connection);
        assert(self@ =~= old(self)@.insert(handle, self@[handle]));
    }

    /// Connects to the peer at the address of `remote`.
    pub fn connect(
        &mut self,
        now: Instant,
        client_config: quinn_proto::ClientConfig,
        remote: &quinn_udp::RecvMeta,
        server_name: &str,
    ) -> (r: Result<(), quinn_proto::ConnectError>)
        requires
            old(self).wf(),
        ensures
            final(self).wf(),
            final(self).continues(old(self)),
            exists|outcome: Result<usize, quinn_proto::ConnectError>|
                {
                    &&& #[trigger] dialed(
                        old(self).proto(),
                        final(self).proto(),
                        now,
                        client_config,
                        *remote,
                        server_name@,
                        outcome,
                    )
                    &&& match outcome {
                        Ok(handle) => {
                            &&& r is Ok
                            &&& joined(
                                old(self)@,
                                final(self)@,
                                handle,
                                old(self).config().receive_budget as nat,
                                true,
                            )
                        },
                        Err(error) => {
                            &&& r == Err::<(), quinn_proto::ConnectError>(error)
                            &&& final(self)@ == old(self)@
                        },
                    }
                },
    {
        let ghost config = client_config;
        match proto::connect(&mut self.endpoint, now, client_config, remote, server_name) {
            Ok((handle, connection)) => {
                self.enlist(handle, connection);
                assert(dialed(
                    old(self).proto(),
                    self.proto(),
                    now,
                    config,
                    *remote,
                    server_name@,
                    Ok(handle),
                ));
                Ok(())
            },
            Err(error) => {
                assert(dialed(
                    old(self).proto(),
                    self.proto(),
                    now,
                    config,
                    *remote,
                    server_name@,
                    Err(error),
                ));
                Err(error)
            },
        }
    }

    /// Gets a connection.
    pub fn connection(&self, connection: ConnectionId) -> (r: Option<&Connection>)
        ensures
            match r {
                Some(found) => self@.dom().contains(connection.0) && *found == self@[connection.0],
                None => !self@.dom().contains(connection.0),
            },
    {
        self.connections.get(connection.0)
    }

    /// Gets a connection.
    pub fn connection_mut(&mut self, connection: ConnectionId) -> (r: Option<&mut Connection>)
        ensures
            final(self).proto() == old(self).proto(),
            final(self).continues(old(self)),
            match r {
                Some(found) => {
                    &&& old(self)@.dom().contains(connection.0)
                    &&& *found == old(self)@[connection.0]
                    &&& final(self)@ == old(self)@.insert(connection.0, *final(found))
                    &&& old(self).wf() && final(found).wf() && final(found).handle()
                        == found.handle() ==> final(self).wf()
                },
                None => !old(self)@.dom().contains(connection.0) && final(self)@ == old(self)@,
            },
    {
        assert forall|changed: Connection| self@.dom().contains(connection.0) implies #[trigger]
            self@.insert(connection.0, changed).dom() == self@.dom() by {
            assert(self@.insert(connection.0, changed).dom() =~= self@.dom());
        }
        self.connections.get_mut(connection.0)
    }

    /// The connections of the endpoint, in no particular order.
    pub fn connection_ids(&self) -> (ids: Vec<ConnectionId>)
        ensures
            ids@.no_duplicates(),
            forall|id: ConnectionId| #[trigger]
                ids@.contains(id) <==> self@.dom().contains(id.0),
    {
        let keys: Vec<usize> = self.connections.keys();
        let mut ids: Vec<ConnectionId> = Vec::new();
        for i in 0..keys.len()
            invariant
                ids@.len() == i,
                forall|j: int| 0 <= j < i ==> #[trigger] ids@[j] == ConnectionId(keys@[j]),
        {
            ids.push(ConnectionId(keys[i]));
        }
        proof {
            assert forall|id: ConnectionId| #[trigger]
                ids@.contains(id) <==> self@.dom().contains(id.0) by {
                if ids@.contains(id) {
                    let j = ids@.index_of(id);
                    assert(keys@[j] == id.0);
                    assert(keys@.to_set().contains(id.0));
                }
                if self@.dom().contains(id.0) {
                    assert(keys@.to_set().contains(id.0));
                    let j = keys@.index_of(id.0);
                    assert(ids@[j] == id);
                }
            }
        }
        ids
    }

    /// Takes in what came of a datagram, with the contents of the response if that is what
    /// came of it. Responses that are to be sent are added to `responses`.
    #[verifier::rlimit(40)]
    pub fn on_datagram(
        &mut self,
        now: Instant,
        outcome: Option<DatagramOutcome>,
        contents: Vec<u8>,
        responses: &mut Vec<Response>,
    ) -> (r: Result<(), UnknownConnection>)
        requires
            old(self).wf(),
            outcome matches Some(DatagramOutcome::NewConnection(incoming)) ==> awaiting(
                old(self).proto(),
            ).contains(incoming),
        ensures
            final(self).wf(),
            final(self).continues(old(self)),
            endpoint_record(final(self).proto()) == (EndpointRecord {
                settlements: settlements(final(self).proto()),
                ..endpoint_record(old(self).proto())
            }),
            old(self).moment(old(responses)@).takes(
                outcome,
                contents@,
                now,
                old(self).config(),
                final(self).moment(final(responses)@),
            ),
            match r {
                Ok(()) => !old(self).moment(old(responses)@).misses(outcome),
                Err(UnknownConnection(id)) => old(self).moment(old(responses)@).misses(outcome)
                    && outcome->0->Routed_0 == id.0,
            },
            outcome matches Some(DatagramOutcome::NewConnection(incoming)) ==> (serves(
                old(self).proto(),
            ) ==> !awaiting(final(self).proto()).contains(incoming)),
    {
        match outcome {
            None => Ok(()),
            Some(DatagramOutcome::Routed(handle, datagram)) => {
                match self.connections.get_mut(handle) {
                    Some(connection) => {
                        connection.handle_datagram(datagram);
                        assert(self@.dom() =~= old(self)@.dom());
                        assert(self@ =~= old(self)@.insert(handle, self@[handle]));
                        Ok(())
                    },
                    None => Err(UnknownConnection(ConnectionId(handle))),
                }
            },
            Some(DatagramOutcome::NewConnection(incoming)) => {
                if self.config.server_config.is_some() {
                    let mut contents: Vec<u8> = Vec::new();
                    match proto::accept(&mut self.endpoint, incoming, now, &mut contents) {
                        Ok((handle, connection)) => {
                            self.enlist(handle, connection);
                        },
                        Err(Some(transmit)) => {
                            responses.push(Response { transmit, contents });
                            assert(responses@.drop_last() =~= old(responses)@);
                        },
                        Err(None) => {},
                    }
                }
                Ok(())
            },
            Some(DatagramOutcome::Response(transmit)) => {
                responses.push(Response { transmit, contents });
                assert(responses@.drop_last() =~= old(responses)@);
                Ok(())
            },
        }
    }

    /// Takes in a message that came in through the socket, whose bytes are the first ones of
    /// the buffer. It may hold many datagrams, each of which is processed individually; none is for
    /// a connection that the endpoint does not have.
    /// Responses that are to be sent are added to `responses`.
    #[verifier::rlimit(40)]
    pub fn handle_message(
        &mut self,
        now: Instant,
        message: &Message,
        buffer: &[u8],
        responses: &mut Vec<Response>,
    )
        requires
            old(self).wf(),
            message.len <= buffer@.len(),
            message.stride > 0 || message.len == 0,
        ensures
            final(self).wf(),
            final(self).continues(old(self)),
            exists|
                news: Seq<(Option<DatagramOutcome>, Seq<u8>)>,
                moments: Seq<Moment>,
            |
                {
                    &&& #[trigger] leads(
                        moments,
                        old(self).moment(old(responses)@),
                        final(self).moment(final(responses)@),
                        news,
                        now,
                        old(self).config(),
                    )
                    &&& news.len() == message.datagrams(now, buffer@).len()
                    &&& endpoint_record(final(self).proto()) == (EndpointRecord {
                        handled: handled(old(self).proto()) + message.datagrams(now, buffer@),
                        outcomes: outcomes(old(self).proto()) + news,
                        settlements: settlements(final(self).proto()),
                        ..endpoint_record(old(self).proto())
                    })
                },
            handled(old(self).proto()).is_prefix_of(handled(final(self).proto())),
            handed_over(
                handled(final(self).proto()).skip(handled(old(self).proto()).len() as int),
                now,
                *message,
                buffer@,
            ),
            outcomes(final(self).proto()).len() - outcomes(old(self).proto()).len() == handled(
                final(self).proto(),
            ).len() - handled(old(self).proto()).len(),
            grown(
                old(self)@,
                final(self)@,
                old(self).config().receive_budget as nat,
                old(self).config().server_config.is_some(),
            ),
            responded(
                old(responses)@,
                final(responses)@,
                message.datagrams(now, buffer@).len(),
            ),
    {
        let ecn = match message.ecn {
            Some(ecn) => Some(quinn_proto_ecn(ecn)),
            None => None,
        };
        let parts: Vec<&[u8]> = split_datagrams(
            slice_subrange(buffer, 0, message.len),
            message.stride,
        );
        let ghost all = message.datagrams(now, buffer@);
        let ghost start = endpoint_record(self.proto());
        let ghost mut news: Seq<(Option<DatagramOutcome>, Seq<u8>)> = Seq::empty();
        let ghost mut moments: Seq<Moment> = seq![self.moment(responses@)];
        assert(start.handled + all.take(0) =~= start.handled);
        assert(start.outcomes + news =~= start.outcomes);
        assert(slice_contents(parts@).len() == parts@.len());
        for i in 0..parts.len()
            invariant
                self.wf(),
                self.continues(old(self)),
                grown(
                    old(self)@,
                    self@,
                    old(self).config().receive_budget as nat,
                    old(self).config().server_config.is_some(),
                ),
                responded(old(responses)@, responses@, i as nat),
                slice_contents(parts@) == datagrams(
                    buffer@.take(message.len as int),
                    message.stride as nat,
                ),
                slice_contents(parts@).len() == parts@.len(),
                ecn == message.proto_ecn(),
                all == message.datagrams(now, buffer@),
                start == endpoint_record(old(self).proto()),
                endpoint_record(self.proto()) =~= (EndpointRecord {
                    handled: start.handled + all.take(i as int),
                    outcomes: start.outcomes + news,
                    settlements: settlements(self.proto()),
                    ..start
                }),
                news.len() == i,
                leads(
                    moments,
                    old(self).moment(old(responses)@),
                    self.moment(responses@),
                    news,
                    now,
                    old(self).config(),
                ),
        {
            let mut contents: Vec<u8> = Vec::new();
            let outcome = proto::handle(
                &mut self.endpoint,
                now,
                &message.origin,
                ecn,
                parts[i],
                &mut contents,
            );
            let ghost before = responses@;
            let ghost given = (outcome, contents@);
            let _ = self.on_datagram(now, outcome, contents, responses);
            proof {
                if responses@.len() > before.len() {
                    assert(responses@.drop_last() =~= before);
                }
                lemma_responded(old(responses)@, before, responses@, i as nat);
            }
            assert(slice_contents(parts@)[i as int] == parts@[i as int]@);
            assert(all.take(i + 1) =~= all.take(i as int).push(all[i as int]));
            proof {
                lemma_leads(
                    moments,
                    old(self).moment(old(responses)@),
                    moments.last(),
                    news,
                    now,
                    old(self).config(),
                    given,
                    self.moment(responses@),
                );
                news = news.push(given);
                moments = moments.push(self.moment(responses@));
                assert(start.outcomes + news =~= endpoint_record(self.proto()).outcomes);
            }
        }
        assert(all.take(all.len() as int) =~= all);
        proof {
            law_messages_are_handed_over_whole(*message, now, buffer@);
            let handled = endpoint_record(self.proto()).handled;
            assert(handled.skip(start.handled.len() as int) =~= all);
            assert(start.handled =~= handled.subrange(0, start.handled.len() as int));
        }
    }

    /// Updates a connection, once everything that it has to transmit has been transmitted, and
    /// removes it if it is drained. What happens is added to `callbacks`.
    ///
    /// Returns `None` if there is no such connection.
    pub fn update_connection(
        &mut self,
        id: ConnectionId,
        now: Instant,
        callbacks: &mut Vec<EndpointCallback>,
    ) -> (r: Option<UpdateReport>)
        requires
            old(self).wf(),
        ensures
            final(self).wf(),
            final(self).continues(old(self)),
            match r {
                None => {
                    &&& !old(self)@.dom().contains(id.0)
                    &&& final(self)@ == old(self)@
                    &&& final(self).proto() == old(self).proto()
                    &&& final(callbacks)@ == old(callbacks)@
                },
                Some(report) => old(self)@.dom().contains(id.0) && exists|
                    after: Connection,
                    reported: Seq<ConnectionCallback>,
                |
                    {
                        &&& #[trigger] updated(
                            old(self)@[id.0],
                            after,
                            old(self).proto(),
                            final(self).proto(),
                            now,
                            report,
                            reported,
                        )
                        &&& final(self)@ == if report.drained {
                            old(self)@.remove(id.0)
                        } else {
                            old(self)@.insert(id.0, after)
                        }
                        &&& final(callbacks)@ == old(callbacks)@ + callbacks_of(id.0, reported)
                    },
            },
    {
        let mut reported: Vec<ConnectionCallback> = Vec::new();
        let result = match self.connections.get_mut(id.0) {
            None => {
                return None;
            },
            Some(connection) => connection.update(now, &mut self.endpoint, &mut reported),
        };
        let ghost after = self@[id.0];
        assert(reported@.skip(0) =~= reported@);
        assert(self@ == old(self)@.insert(id.0, after));
        assert(self@.dom() =~= old(self)@.dom());
        assert(updated(
            old(self)@[id.0],
            after,
            old(self).proto(),
            self.proto(),
            now,
            result,
            reported@,
        ));
        if result.drained {
            self.connections.remove(id.0);
            assert(self@ =~= old(self)@.remove(id.0));
        }
        report(id.0, reported, callbacks);
        Some(result)
    }
}

/// The datagrams of a message are all of it: one after the other they are its bytes.
pub proof fn law_datagrams_make_up_the_message(data: Seq<u8>, stride: nat)
    requires
        stride > 0,
    ensures
        datagrams(data, stride).flatten() == data,
    decreases data.len(),
{
    let all = datagrams(data, stride);
    if data.len() == 0 {
    } else if data.len() <= stride {
        assert(all.drop_first() =~= Seq::<Seq<u8>>::empty());
        assert(all.drop_first().flatten() =~= Seq::<u8>::empty());
        assert(all.flatten() =~= data);
    } else {
        let rest = datagrams(data.skip(stride as int), stride);
        law_datagrams_make_up_the_message(data.skip(stride as int), stride);
        assert(all.drop_first() =~= rest);
        assert(all.first() == data.take(stride as int));
        assert(data.take(stride as int) + data.skip(stride as int) =~= data);
    }
}

/// No datagram of a message is empty, and all but the last are as long as the message says.
pub proof fn law_datagrams_are_as_long_as_the_message_says(data: Seq<u8>, stride: nat, i: int)
    requires
        stride > 0,
        0 <= i < datagrams(data, stride).len(),
    ensures
        0 < datagrams(data, stride)[i].len() <= stride,
        i < datagrams(data, stride).len() - 1 ==> datagrams(data, stride)[i].len() == stride,
    decreases data.len(),
{
    if data.len() > stride && i > 0 {
        let rest = datagrams(data.skip(stride as int), stride);
        law_datagrams_are_as_long_as_the_message_says(data.skip(stride as int), stride, i - 1);
        assert(datagrams(data, stride)[i] == rest[i - 1]);
    }
}

/// An endpoint that is not configured as a server takes in messages without gaining a
/// connection.
pub proof fn law_only_servers_gain_connections(
    before: Map<usize, Connection>,
    after: Map<usize, Connection>,
    budget: nat,
)
    requires
        grown(before, after, budget, false),
    ensures
        after.dom() == before.dom(),
{
    assert(after.dom() =~= before.dom());
}

/// Whether one of the attempts to make a connection, from the `first` on, led to the connection
/// with that handle.
pub open spec fn accepted_as(settlements: Seq<Settlement>, first: nat, handle: usize) -> bool {
    exists|i: int|
        #![trigger settlements[i]]
        first <= i < settlements.len() && settlements[i].outcome == Ok::<usize, Option<Transmit>>(
            handle,
        )
}

/// The connections that an endpoint has after it has taken in datagrams are those that it had
/// before, and those that came of an attempt to make a connection that it accepted meanwhile.
pub proof fn law_new_connections_were_accepted(
    moments: Seq<Moment>,
    outcomes: Seq<(Option<DatagramOutcome>, Seq<u8>)>,
    now: Instant,
    config: EndpointConfig,
    handle: usize,
)
    requires
        sequel(moments, outcomes, now, config),
    ensures
        moments.first().settlements.is_prefix_of(moments.last().settlements),
        moments.last().connections.dom().contains(handle)
            <==> moments.first().connections.dom().contains(handle) || accepted_as(
            moments.last().settlements,
            moments.first().settlements.len(),
            handle,
        ),
    decreases outcomes.len(),
{
    if outcomes.len() > 0 {
        let n = outcomes.len() - 1;
        let first = moments.first();
        let before = moments[n];
        let after = moments.last();
        let earlier = moments.drop_last();
        let previous = outcomes.drop_last();
        assert forall|i: int|
            #![trigger previous[i]]
            0 <= i < previous.len() implies earlier[i].takes(
            previous[i].0,
            previous[i].1,
            now,
            config,
            earlier[i + 1],
        ) && !earlier[i].misses(previous[i].0) by {
            assert(previous[i] == outcomes[i]);
        }
        law_new_connections_were_accepted(earlier, previous, now, config, handle);
        assert(before.takes(outcomes[n].0, outcomes[n].1, now, config, after));
        assert(before.settlements.is_prefix_of(after.settlements));
        let count = first.settlements.len();
        if accepted_as(before.settlements, count, handle) {
            let i = choose|i: int|
                #![trigger before.settlements[i]]
                count <= i < before.settlements.len() && before.settlements[i].outcome == Ok::<
                    usize,
                    Option<Transmit>,
                >(handle);
            assert(after.settlements[i] == before.settlements[i]);
        }
        if accepted_as(after.settlements, count, handle) {
            let i = choose|i: int|
                #![trigger after.settlements[i]]
                count <= i < after.settlements.len() && after.settlements[i].outcome == Ok::<
                    usize,
                    Option<Transmit>,
                >(handle);
            if i < before.settlements.len() {
                assert(after.settlements[i] == before.settlements[i]);
            }
        }
        if after.settlements.len() > before.settlements.len() {
            assert(after.settlements[before.settlements.len() as int] == after.settlements.last());
        }
    }
}

/// The memory for a batch of messages is divided among the messages without remainder, and each
/// of them has room for all of its datagrams.
pub proof fn law_batch_memory_is_divided_evenly(
    max_udp_payload: nat,
    max_gso_segments: nat,
    batch_size: nat,
)
    requires
        batch_size > 0,
    ensures
        batch_memory(max_udp_payload, max_gso_segments, batch_size) / batch_size
            == message_memory(max_udp_payload, max_gso_segments),
        batch_memory(max_udp_payload, max_gso_segments, batch_size) % batch_size == 0,
{
    let memory = message_memory(max_udp_payload, max_gso_segments);
    vstd::arithmetic::div_mod::lemma_div_multiples_vanish(memory as int, batch_size as int);
    vstd::arithmetic::div_mod::lemma_mod_multiples_basic(memory as int, batch_size as int);
    assert(memory * batch_size == batch_size * memory) by (nonlinear_arith);
}

/// An endpoint passes on what its connections report, in order: what it makes of two batches
/// of reports, one after the other, is what it makes of them together.
pub proof fn law_reports_are_passed_on_in_order(
    handle: usize,
    first: Seq<ConnectionCallback>,
    second: Seq<ConnectionCallback>,
)
    ensures
        callbacks_of(handle, first + second) == callbacks_of(handle, first) + callbacks_of(
            handle,
            second,
        ),
    decreases second.len(),
{
    if second.len() == 0 {
        assert(first + second =~= first);
        assert(callbacks_of(handle, first) + callbacks_of(handle, second) =~= callbacks_of(
            handle,
            first,
        ));
    } else {
        assert((first + second).drop_last() =~= first + second.drop_last());
        law_reports_are_passed_on_in_order(handle, first, second.drop_last());
    }
}

/// The connection that a report is about.
pub open spec fn subject(callback: EndpointCallback) -> usize {
    match callback {
        EndpointCallback::SuccessfulConnection(handle) => handle,
        EndpointCallback::OpenedReceiveStream { connection_handle, .. } => connection_handle,
        EndpointCallback::ClosedReceiveStream { connection_handle, .. } => connection_handle,
        EndpointCallback::FinishedReceiveStream { connection_handle, .. } => connection_handle,
        EndpointCallback::OpenedSendStream { connection_handle, .. } => connection_handle,
        EndpointCallback::ClosedSendStream { connection_handle, .. } => connection_handle,
    }
}

/// Everything that an endpoint reports when it updates a connection is about that connection.
pub proof fn law_reports_are_about_the_connection(
    before: Connection,
    after: Connection,
    endpoint_before: ProtoEndpoint,
    endpoint_after: ProtoEndpoint,
    now: Instant,
    outcome: UpdateReport,
    reported: Seq<ConnectionCallback>,
    i: int,
)
    requires
        updated(before, after, endpoint_before, endpoint_after, now, outcome, reported),
        0 <= i < callbacks_of(before.handle(), reported).len(),
    ensures
        subject(callbacks_of(before.handle(), reported)[i]) == before.handle(),
{
    let handle = before.handle();
    let trace = choose|trace: UpdateTrace| #[trigger]
        explains(trace, before, after, now, outcome.failure) && reported == trace.callbacks(
            handle,
        );
    assert forall|k: int| 0 <= k < reported.len() && (#[trigger] reported[k]
        is SuccessfulConnection) implies reported[k]->SuccessfulConnection_0 == handle by {
        law_reports(trace, handle, reported[k]);
        assert(reported.contains(reported[k]));
    }
    lemma_subjects(handle, reported, i);
}

/// Reports that name no other connection are about this one.
proof fn lemma_subjects(handle: usize, reported: Seq<ConnectionCallback>, i: int)
    requires
        forall|k: int|
            0 <= k < reported.len() && (#[trigger] reported[k] is SuccessfulConnection)
                ==> reported[k]->SuccessfulConnection_0 == handle,
        0 <= i < callbacks_of(handle, reported).len(),
    ensures
        subject(callbacks_of(handle, reported)[i]) == handle,
    decreases reported.len(),
{
    if reported.len() > 0 {
        let before = reported.drop_last();
        assert forall|k: int|
            0 <= k < before.len() && (#[trigger] before[k] is SuccessfulConnection) implies {
            before[k]->SuccessfulConnection_0 == handle
        } by {
            assert(before[k] == reported[k]);
        }
        if i < callbacks_of(handle, before).len() {
            lemma_subjects(handle, before, i);
        } else {
            assert(reported[reported.len() - 1] == reported.last());
        }
    }
}

} // verus!
