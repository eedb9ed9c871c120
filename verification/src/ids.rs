//! Identifiers of connections and streams.

use vstd::prelude::*;

verus! {

/// The id of a connection belonging to an endpoint.
#[derive(Debug, Copy, Clone, Eq, PartialEq, Hash, Ord, PartialOrd)]
pub struct ConnectionId(pub usize);

/// The id of a stream belonging to a connection.
///
/// It could refer to a send or receive stream, or to both if the stream is
/// bidirectional. The two low bits of the number tell who opened the stream and in
/// which directions its data flows.
#[derive(Debug, Copy, Clone, Eq, PartialEq, Ord, PartialOrd, Hash)]
pub struct StreamId(pub u64);

/// The directions in which the data of a stream flows.
#[derive(Debug, Copy, Clone, Eq, PartialEq)]
pub enum Dir {
    /// Both ways.
    Bi,
    /// From the side that opened the stream only.
    Uni,
}

/// Stream numbers are integers of 62 bits.
pub open spec fn in_range(id: u64) -> bool {
    id < 0x4000_0000_0000_0000
}

/// Whether the client of the connection opened the stream.
pub open spec fn client_opened(id: u64) -> bool {
    id % 2 == 0
}

/// The directions in which data flows on the stream.
pub open spec fn direction(id: u64) -> Dir {
    if (id / 2) % 2 == 0 {
        Dir::Bi
    } else {
        Dir::Uni
    }
}

/// Whether the side that is (`client`) or is not the client opened the stream.
pub open spec fn opened_by(client: bool, id: u64) -> bool {
    client_opened(id) == client
}

/// Whether that side may send on the stream.
pub open spec fn can_send(client: bool, id: u64) -> bool {
    in_range(id) && (direction(id) is Bi || opened_by(client, id))
}

/// Whether that side may receive on the stream.
pub open spec fn can_receive(client: bool, id: u64) -> bool {
    in_range(id) && (direction(id) is Bi || !opened_by(client, id))
}

/// How many streams the side that opened the stream had opened before, in its direction.
pub open spec fn stream_index(id: u64) -> nat {
    (id / 4) as nat
}

/// The number of a stream that the side that is (`client`) or is not the client opened, in that
/// direction, when it had opened so many before.
pub open spec fn stream_number(client: bool, dir: Dir, index: nat) -> nat {
    4 * index + match dir {
        Dir::Bi => 0nat,
        Dir::Uni => 2nat,
    } + if client {
        0nat
    } else {
        1nat
    }
}

/// One side of a connection: whether it is the client, and how many streams of the peer it has
/// accepted in each direction.
pub struct SideView {
    pub client: bool,
    pub uni: nat,
    pub bi: nat,
}

impl SideView {
    /// How many streams of the peer have been accepted in that direction.
    pub open spec fn accepted(self, dir: Dir) -> nat {
        match dir {
            Dir::Uni => self.uni,
            Dir::Bi => self.bi,
        }
    }

    /// The side after it has accepted so many more streams.
    pub open spec fn accepts(self, dir: Dir, count: nat) -> SideView {
        match dir {
            Dir::Uni => SideView { uni: self.uni + count, ..self },
            Dir::Bi => SideView { bi: self.bi + count, ..self },
        }
    }

    /// Whether the stream is one that this side opened, or one of the peer that it accepted.
    pub open spec fn knows(self, id: u64) -> bool {
        opened_by(self.client, id) || stream_index(id) < self.accepted(direction(id))
    }
}

impl StreamId {
    /// Whether the side that is (`client`) or is not the client may send on the stream.
    pub fn may_send(self, client: bool) -> (r: bool)
        ensures
            r == can_send(client, self.0),
            r <==> self.0 < 0x4000_0000_0000_0000 && (self.0 % 4 < 2 || client == (self.0 % 2
                == 0)),
    {
        self.0 < 0x4000_0000_0000_0000 && ((self.0 / 2) % 2 == 0 || (self.0 % 2 == 0) == client)
    }

    /// Whether the side that is (`client`) or is not the client may receive on the stream.
    pub fn may_receive(self, client: bool) -> (r: bool)
        ensures
            r == can_receive(client, self.0),
            r <==> self.0 < 0x4000_0000_0000_0000 && (self.0 % 4 < 2 || client != (self.0 % 2
                == 0)),
    {
        self.0 < 0x4000_0000_0000_0000 && ((self.0 / 2) % 2 == 0 || (self.0 % 2 == 0) != client)
    }
}

/// Every stream carries data from one side to the other, in at least one direction:
/// whenever one side cannot send on it, that side can receive on it, and what one
/// side can send on, the other can receive on.
pub proof fn law_streams_connect_both_sides(client: bool, id: u64)
    requires
        in_range(id),
    ensures
        can_send(client, id) || can_receive(client, id),
        can_send(client, id) == can_receive(!client, id),
        (can_send(client, id) && can_receive(client, id)) == (direction(id) is Bi),
{
}

/// The low bits of a stream's number are as the protocol defines them: the lowest is set if the
/// server opened the stream, the next if data flows one way only. The other bits, of which there
/// are 60, count the streams.
pub proof fn law_low_bits_tell_who_opened_a_stream_and_which_way_it_flows(client: bool, id: u64)
    ensures
        opened_by(client, id) <==> (id & 1 == 0) == client,
        direction(id) is Bi <==> id & 2 == 0,
        stream_index(id) == id >> 2,
        in_range(id) <==> id >> 62 == 0,
        can_send(client, id) <==> id >> 62 == 0 && (id & 2 == 0 || (id & 1 == 0) == client),
        can_receive(client, id) <==> id >> 62 == 0 && (id & 2 == 0 || (id & 1 == 0) != client),
{
    assert(id & 1 == id % 2) by (bit_vector);
    assert((id & 2 == 0) == ((id / 2) % 2 == 0)) by (bit_vector);
    assert(id >> 2 == id / 4) by (bit_vector);
    assert((id >> 62 == 0) == (id < 0x4000_0000_0000_0000)) by (bit_vector);
}

/// Streams of a kind are numbered from the lowest number of that kind on, in steps of four.
pub proof fn law_streams_are_numbered_in_order(client: bool, dir: Dir, index: nat)
    ensures
        stream_number(client, dir, 0) < 4,
        stream_number(client, dir, index + 1) == stream_number(client, dir, index) + 4,
        stream_number(client, dir, index) % 2 == (if client {
            0nat
        } else {
            1
        }),
        (stream_number(client, dir, index) / 2) % 2 == (if dir is Bi {
            0nat
        } else {
            1
        }),
{
}

/// Accepting streams of the peer makes them known: the next ones in that direction, so many of
/// them, and no others. It changes neither which side this is nor the other direction.
pub proof fn law_accepted_streams_become_known(side: SideView, dir: Dir, count: nat, id: u64)
    ensures
        side.accepts(dir, count).knows(id) <==> side.knows(id) || direction(id) == dir
            && side.accepted(dir) <= stream_index(id) < side.accepted(dir) + count,
        side.accepts(dir, count).client == side.client,
        forall|other: Dir| #[trigger]
            side.accepts(dir, count).accepted(other) == side.accepted(other) + if other == dir {
                count
            } else {
                0
            },
{
}

/// The number of a stream tells who opened it, in which direction, and after how many others.
pub proof fn law_stream_numbers_tell_streams_apart(client: bool, dir: Dir, index: nat, id: u64)
    requires
        id == stream_number(client, dir, index),
    ensures
        opened_by(client, id),
        direction(id) == dir,
        stream_index(id) == index,
{
}

} // verus!
