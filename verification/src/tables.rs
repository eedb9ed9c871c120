//! The hash tables of a connection and of an endpoint: streams by number, connections by handle.
//!
//! Each type here holds a `bevy::utils::HashMap` or `bevy::utils::HashSet`. What the
//! table holds has a name, and the methods below are trusted to do to the contents what
//! their contracts say.

use bevy::utils::{HashMap, HashSet};
use vstd::prelude::*;

use crate::buffer::{BufferView, ReceiveBuffer, SendBuffer};
use crate::connection::Connection;

verus! {

/// The receive streams of a connection.
#[verifier::external_body]
pub struct ReceiveStreams {
    map: HashMap<u64, ReceiveBuffer>,
}

/// The buffers in the table, by stream number.
pub uninterp spec fn receive_entries(streams: ReceiveStreams) -> Map<u64, BufferView>;

impl View for ReceiveStreams {
    type V = Map<u64, BufferView>;

    open spec fn view(&self) -> Map<u64, BufferView> {
        receive_entries(*self)
    }
}

impl ReceiveStreams {
    /// `HashMap::default`: an empty table.
    #[verifier::external_body]
    pub(crate) fn new() -> (r: ReceiveStreams)
        ensures
            (receive_entries(r) == Map::<u64, BufferView>::empty()),
    {
        ReceiveStreams { map: HashMap::default() }
    }

    /// `HashMap::insert`: puts the buffer under the number, in place of what was there.
    #[verifier::external_body]
    pub(crate) fn insert(&mut self, id: u64, buffer: ReceiveBuffer)
        ensures
            receive_entries(*final(self)) == receive_entries(*old(self)).insert(id, buffer@),
    {
        self.map.insert(id, buffer);
    }

    /// `HashMap::remove`: takes out what is under the number, if anything is.
    #[verifier::external_body]
    pub(crate) fn remove(&mut self, id: u64)
        ensures
            receive_entries(*final(self)) == receive_entries(*old(self)).remove(id),
    {
        self.map.remove(&id);
    }

    /// `HashMap::get`: the buffer under the number, if there is one.
    #[verifier::external_body]
    pub(crate) fn get(&self, id: u64) -> (r: Option<&ReceiveBuffer>)
        ensures
            match r {
                Some(buffer) => receive_entries(*self).contains_key(id) && buffer@
                    == receive_entries(*self)[id],
                None => !receive_entries(*self).contains_key(id),
            },
    {
        self.map.get(&id)
    }

    /// `HashMap::get_mut`: the buffer under the number, if there is one; what becomes of
    /// it through the reference stays in the table, and nothing else changes.
    #[verifier::external_body]
    pub(crate) fn get_mut(&mut self, id: u64) -> (r: Option<&mut ReceiveBuffer>)
        ensures
            match r {
                Some(buffer) => receive_entries(*old(self)).contains_key(id) && buffer@
                    == receive_entries(*old(self))[id] && receive_entries(*final(self))
                    == receive_entries(*old(self)).insert(id, final(buffer)@),
                None => !receive_entries(*old(self)).contains_key(id) && receive_entries(
                    *final(self),
                ) == receive_entries(*old(self)),
            },
    {
        self.map.get_mut(&id)
    }

    /// `HashMap::keys`: each number in the table once, in no particular order.
    #[verifier::external_body]
    pub(crate) fn keys(&self) -> (r: Vec<u64>)
        ensures
            r@.no_duplicates(),
            r@.to_set() == receive_entries(*self).dom(),
    {
        self.map.keys().copied().collect()
    }
}

/// The send streams of a connection.
#[verifier::external_body]
pub struct SendStreams {
    map: HashMap<u64, SendBuffer>,
}

/// The buffers in the table, by stream number.
pub uninterp spec fn send_entries(streams: SendStreams) -> Map<u64, BufferView>;

impl View for SendStreams {
    type V = Map<u64, BufferView>;

    open spec fn view(&self) -> Map<u64, BufferView> {
        send_entries(*self)
    }
}

impl SendStreams {
    /// `HashMap::default`: an empty table.
    #[verifier::external_body]
    pub(crate) fn new() -> (r: SendStreams)
        ensures
            (send_entries(r) == Map::<u64, BufferView>::empty()),
    {
        SendStreams { map: HashMap::default() }
    }

    /// `HashMap::insert`: puts the buffer under the number, in place of what was there.
    #[verifier::external_body]
    pub(crate) fn insert(&mut self, id: u64, buffer: SendBuffer)
        ensures
            send_entries(*final(self)) == send_entries(*old(self)).insert(id, buffer@),
    {
        self.map.insert(id, buffer);
    }

    /// `HashMap::remove`: takes out what is under the number, if anything is.
    #[verifier::external_body]
    pub(crate) fn remove(&mut self, id: u64)
        ensures
            send_entries(*final(self)) == send_entries(*old(self)).remove(id),
    {
        self.map.remove(&id);
    }

    /// `HashMap::get`: the buffer under the number, if there is one.
    #[verifier::external_body]
    pub(crate) fn get(&self, id: u64) -> (r: Option<&SendBuffer>)
        ensures
            match r {
                Some(buffer) => send_entries(*self).contains_key(id) && buffer@ == send_entries(
                    *self,
                )[id],
                None => !send_entries(*self).contains_key(id),
            },
    {
        self.map.get(&id)
    }

    /// `HashMap::get_mut`: the buffer under the number, if there is one; what becomes of
    /// it through the reference stays in the table, and nothing else changes.
    #[verifier::external_body]
    pub(crate) fn get_mut(&mut self, id: u64) -> (r: Option<&mut SendBuffer>)
        ensures
            match r {
                Some(buffer) => send_entries(*old(self)).contains_key(id) && buffer@
                    == send_entries(*old(self))[id] && send_entries(*final(self)) == send_entries(
                    *old(self),
                ).insert(id, final(buffer)@),
                None => !send_entries(*old(self)).contains_key(id) && send_entries(*final(self))
                    == send_entries(*old(self)),
            },
    {
        self.map.get_mut(&id)
    }

    /// `HashMap::keys`: each number in the table once, in no particular order.
    #[verifier::external_body]
    pub(crate) fn keys(&self) -> (r: Vec<u64>)
        ensures
            r@.no_duplicates(),
            r@.to_set() == send_entries(*self).dom(),
    {
        self.map.keys().copied().collect()
    }
}

/// The streams that have data ready to be read.
#[verifier::external_body]
pub struct ReadableStreams {
    set: HashSet<u64>,
}

/// The stream numbers in the set.
pub uninterp spec fn readable_numbers(streams: ReadableStreams) -> Set<u64>;

impl View for ReadableStreams {
    type V = Set<u64>;

    open spec fn view(&self) -> Set<u64> {
        readable_numbers(*self)
    }
}

impl ReadableStreams {
    /// `HashSet::default`: an empty set.
    #[verifier::external_body]
    pub(crate) fn new() -> (r: ReadableStreams)
        ensures
            readable_numbers(r) == Set::<u64>::empty(),
    {
        ReadableStreams { set: HashSet::default() }
    }

    /// `HashSet::insert`: adds the number to the set.
    #[verifier::external_body]
    pub(crate) fn insert(&mut self, id: u64)
        ensures
            readable_numbers(*final(self)) == readable_numbers(*old(self)).insert(id),
    {
        self.set.insert(id);
    }

    /// `HashSet::drain`: empties the set and gives each of its numbers once, in no
    /// particular order.
    #[verifier::external_body]
    pub(crate) fn drain(&mut self) -> (r: Vec<u64>)
        ensures
            readable_numbers(*final(self)) == Set::<u64>::empty(),
            r@.no_duplicates(),
            r@.to_set() == readable_numbers(*old(self)),
    {
        self.set.drain().collect()
    }
}

/// The connections of an endpoint.
#[verifier::external_body]
pub struct Connections {
    map: HashMap<usize, Connection>,
}

/// The connections in the table, by handle.
pub uninterp spec fn connection_entries(connections: Connections) -> Map<usize, Connection>;

impl View for Connections {
    type V = Map<usize, Connection>;

    open spec fn view(&self) -> Map<usize, Connection> {
        connection_entries(*self)
    }
}

impl Connections {
    /// `HashMap::default`: an empty table.
    #[verifier::external_body]
    pub(crate) fn new() -> (r: Connections)
        ensures
            (connection_entries(r) == Map::<usize, Connection>::empty()),
    {
        Connections { map: HashMap::default() }
    }

    /// `HashMap::insert`: puts the connection under the handle, and gives back what was there.
    #[verifier::external_body]
    pub(crate) fn insert(&mut self, handle: usize, connection: Connection) -> (r: Option<
        Connection,
    >)
        ensures
            connection_entries(*final(self)) == connection_entries(*old(self)).insert(
                handle,
                connection,
            ),
            match r {
                Some(previous) => connection_entries(*old(self)).contains_key(handle) && previous
                    == connection_entries(*old(self))[handle],
                None => !connection_entries(*old(self)).contains_key(handle),
            },
    {
        self.map.insert(handle, connection)
    }

    /// `HashMap::remove`: takes out what is under the handle, if anything is.
    #[verifier::external_body]
    pub(crate) fn remove(&mut self, handle: usize)
        ensures
            connection_entries(*final(self)) == connection_entries(*old(self)).remove(handle),
    {
        self.map.remove(&handle);
    }

    /// `HashMap::get`: the connection under the handle, if there is one.
    #[verifier::external_body]
    pub(crate) fn get(&self, handle: usize) -> (r: Option<&Connection>)
        ensures
            match r {
                Some(connection) => connection_entries(*self).contains_key(handle) && *connection
                    == connection_entries(*self)[handle],
                None => !connection_entries(*self).contains_key(handle),
            },
    {
        self.map.get(&handle)
    }

    /// `HashMap::get_mut`: the connection under the handle, if there is one; what becomes of
    /// it through the reference stays in the table, and nothing else changes.
    #[verifier::external_body]
    pub(crate) fn get_mut(&mut self, handle: usize) -> (r: Option<&mut Connection>)
        ensures
            match r {
                Some(connection) => connection_entries(*old(self)).contains_key(handle)
                    && *connection == connection_entries(*old(self))[handle] && connection_entries(
                    *final(self),
                ) == connection_entries(*old(self)).insert(handle, *final(connection)),
                None => !connection_entries(*old(self)).contains_key(handle) && connection_entries(
                    *final(self),
                ) == connection_entries(*old(self)),
            },
    {
        self.map.get_mut(&handle)
    }

    /// `HashMap::keys`: each handle in the table once, in no particular order.
    #[verifier::external_body]
    pub(crate) fn keys(&self) -> (r: Vec<usize>)
        ensures
            r@.no_duplicates(),
            r@.to_set() == connection_entries(*self).dom(),
    {
        self.map.keys().copied().collect()
    }
}

} // verus!
