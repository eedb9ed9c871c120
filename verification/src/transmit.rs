//! Datagrams on their way between the socket and the protocol.

use quinn_proto::Transmit as ProtoTransmit;
use vstd::prelude::*;
use vstd::slice::slice_subrange;

verus! {

#[verifier::external_type_specification]
#[verifier::external_body]
pub struct ExProtoTransmit(ProtoTransmit);

#[verifier::external_type_specification]
pub struct ExProtoEcnCodepoint(quinn_proto::EcnCodepoint);

#[verifier::external_type_specification]
pub struct ExUdpEcnCodepoint(quinn_udp::EcnCodepoint);

/// A transmit of the protocol. Its contents are in the buffer that the protocol was given.
pub struct Transmit {
    /// How many bytes of the buffer are to be sent.
    pub size: usize,
    /// The congestion notification bits to set.
    pub ecn: Option<quinn_proto::EcnCodepoint>,
    /// The size of a datagram, if there is more than one.
    pub segment_size: Option<usize>,
    /// The transmit as the protocol made it, which knows the addresses.
    pub route: ProtoTransmit,
}

/// A transmit as the socket takes it, up to the addresses, which are those of the route.
pub struct UdpTransmit<'a> {
    pub ecn: Option<quinn_udp::EcnCodepoint>,
    pub contents: &'a [u8],
    pub segment_size: Option<usize>,
    pub route: &'a ProtoTransmit,
}

/// The socket's codepoint for one of the protocol.
pub open spec fn udp_ecn(ecn: quinn_proto::EcnCodepoint) -> quinn_udp::EcnCodepoint {
    match ecn {
        quinn_proto::EcnCodepoint::Ect0 => quinn_udp::EcnCodepoint::Ect0,
        quinn_proto::EcnCodepoint::Ect1 => quinn_udp::EcnCodepoint::Ect1,
        quinn_proto::EcnCodepoint::Ce => quinn_udp::EcnCodepoint::Ce,
    }
}

/// The protocol's codepoint for one of the socket.
pub open spec fn proto_ecn(ecn: quinn_udp::EcnCodepoint) -> quinn_proto::EcnCodepoint {
    match ecn {
        quinn_udp::EcnCodepoint::Ect0 => quinn_proto::EcnCodepoint::Ect0,
        quinn_udp::EcnCodepoint::Ect1 => quinn_proto::EcnCodepoint::Ect1,
        quinn_udp::EcnCodepoint::Ce => quinn_proto::EcnCodepoint::Ce,
    }
}

/// Converts from [`quinn_proto::EcnCodepoint`] to [`quinn_udp::EcnCodepoint`].
pub fn quinn_udp_ecn(ecn: quinn_proto::EcnCodepoint) -> (r: quinn_udp::EcnCodepoint)
    ensures
        r == udp_ecn(ecn),
        r is Ect0 <==> ecn is Ect0,
        r is Ect1 <==> ecn is Ect1,
        r is Ce <==> ecn is Ce,
{
    match ecn {
        quinn_proto::EcnCodepoint::Ect0 => quinn_udp::EcnCodepoint::Ect0,
        quinn_proto::EcnCodepoint::Ect1 => quinn_udp::EcnCodepoint::Ect1,
        quinn_proto::EcnCodepoint::Ce => quinn_udp::EcnCodepoint::Ce,
    }
}

/// Converts from [`quinn_udp::EcnCodepoint`] to [`quinn_proto::EcnCodepoint`].
pub fn quinn_proto_ecn(ecn: quinn_udp::EcnCodepoint) -> (r: quinn_proto::EcnCodepoint)
    ensures
        r == proto_ecn(ecn),
        r is Ect0 <==> ecn is Ect0,
        r is Ect1 <==> ecn is Ect1,
        r is Ce <==> ecn is Ce,
{
    match ecn {
        quinn_udp::EcnCodepoint::Ect0 => quinn_proto::EcnCodepoint::Ect0,
        quinn_udp::EcnCodepoint::Ect1 => quinn_proto::EcnCodepoint::Ect1,
        quinn_udp::EcnCodepoint::Ce => quinn_proto::EcnCodepoint::Ce,
    }
}

/// The two conversions of codepoints undo each other.
pub proof fn law_ecn_conversions_are_inverse(
    proto: quinn_proto::EcnCodepoint,
    udp: quinn_udp::EcnCodepoint,
)
    ensures
        proto_ecn(udp_ecn(proto)) == proto,
        udp_ecn(proto_ecn(udp)) == udp,
{
}

/// A codepoint keeps its name, whichever way it is converted.
pub proof fn law_codepoints_keep_their_names(
    proto: quinn_proto::EcnCodepoint,
    udp: quinn_udp::EcnCodepoint,
)
    ensures
        udp_ecn(proto) is Ect0 <==> proto is Ect0,
        udp_ecn(proto) is Ect1 <==> proto is Ect1,
        udp_ecn(proto) is Ce <==> proto is Ce,
        proto_ecn(udp) is Ect0 <==> udp is Ect0,
        proto_ecn(udp) is Ect1 <==> udp is Ect1,
        proto_ecn(udp) is Ce <==> udp is Ce,
{
}

/// Makes what the socket takes out of a transmit of the protocol and the buffer with its
/// contents.
pub fn udp_transmit<'a>(transmit: &'a Transmit, buffer: &'a [u8]) -> (r: UdpTransmit<'a>)
    requires
        transmit.size <= buffer@.len(),
    ensures
        r.ecn == match transmit.ecn {
            Some(ecn) => Some(udp_ecn(ecn)),
            None => None,
        },
        r.ecn is Some <==> transmit.ecn is Some,
        r.contents@ == buffer@.take(transmit.size as int),
        r.segment_size == transmit.segment_size,
        *r.route == transmit.route,
{
    UdpTransmit {
        ecn: match transmit.ecn {
            Some(ecn) => Some(quinn_udp_ecn(ecn)),
            None => None,
        },
        contents: slice_subrange(buffer, 0, transmit.size),
        segment_size: transmit.segment_size,
        route: &transmit.route,
    }
}

} // verus!
