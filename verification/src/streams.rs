//! The streams of a connection, and what each thing that happens on the connection
//! does to them.

use vstd::prelude::*;

use crate::buffer::{BufferView, ReceiveBuffer, SendBuffer};
use crate::ids::{Dir, StreamId};
use crate::proto::ProtoEvent;
use crate::tables::{ReadableStreams, ReceiveStreams, SendStreams};

verus! {

/// What a connection reports while it is updated.
pub enum ConnectionCallback {
    /// The connection with this handle has been established.
    SuccessfulConnection(usize),
    /// The peer opened a receive stream.
    OpenedReceiveStream(StreamId),
    /// The peer closed or reset a receive stream, with the error code if it was reset.
    ClosedReceiveStream(StreamId, Option<quinn_proto::VarInt>),
    /// The data of a receive stream was entirely read.
    FinishedReceiveStream(StreamId),
    /// The peer opened a send stream.
    OpenedSendStream(StreamId),
    /// The peer closed a send stream.
    ClosedSendStream(StreamId, quinn_proto::VarInt),
    /// The connection state is to be removed after the update.
    CloseConnection,
}

/// What one attempt to read from a stream gives.
pub enum ReadOutcome {
    /// Some bytes, which follow those that were read before.
    Data(Vec<u8>),
    /// The peer finished the stream, and everything has been read.
    Finished,
    /// The peer reset the stream.
    Reset(quinn_proto::VarInt),
    /// Nothing more is ready to be read.
    Blocked,
}

/// What is to be done next with a send stream.
pub enum WriteAction<'a> {
    /// These bytes are to be sent.
    Send(&'a [u8]),
    /// Everything has been sent and the stream is to be finished.
    Finish,
    /// There is nothing to do.
    Wait,
}

/// The streams of a connection.
pub struct StreamTable {
    connected: bool,
    /// The streams that have data ready to be read.
    readable: ReadableStreams,
    receive: ReceiveStreams,
    send: SendStreams,
    receive_budget: usize,
}

/// What a [`StreamTable`] holds: whether the connection is established, the streams that
/// are ready to be read, the buffers by stream number, and how many more bytes may be
/// received.
#[verifier::ext_equal]
pub struct TableView {
    pub connected: bool,
    pub readable: Set<u64>,
    pub receive: Map<u64, BufferView>,
    pub send: Map<u64, BufferView>,
    pub budget: nat,
}

/// The table of a connection that has just been made.
pub open spec fn fresh_table(budget: nat) -> TableView {
    TableView {
        connected: false,
        readable: Set::empty(),
        receive: Map::empty(),
        send: Map::empty(),
        budget,
    }
}

/// The table after an event of the protocol.
pub open spec fn after_event(table: TableView, event: ProtoEvent) -> TableView {
    match event {
        ProtoEvent::Connected => TableView { connected: true, ..table },
        ProtoEvent::StreamReadable(id) => TableView {
            readable: table.readable.insert(id),
            ..table
        },
        ProtoEvent::StreamStopped(id, _) => TableView { send: table.send.remove(id), ..table },
        _ => table,
    }
}

/// What an event of the protocol makes the connection with that handle report.
pub open spec fn event_callbacks(handle: usize, event: ProtoEvent) -> Seq<ConnectionCallback> {
    match event {
        ProtoEvent::Connected => seq![ConnectionCallback::SuccessfulConnection(handle)],
        ProtoEvent::StreamStopped(id, code) => seq![
            ConnectionCallback::ClosedSendStream(StreamId(id), code),
        ],
        _ => seq![],
    }
}

/// The table after the peer opened a stream: it has a receive buffer, and a send buffer too
/// if data flows both ways, and it is to be looked at for data.
pub open spec fn after_accept(table: TableView, dir: Dir, id: u64) -> TableView {
    TableView {
        readable: table.readable.insert(id),
        receive: table.receive.insert(id, BufferView::fresh()),
        send: match dir {
            Dir::Uni => table.send,
            Dir::Bi => table.send.insert(id, BufferView::fresh()),
        },
        ..table
    }
}

/// What a connection reports when the peer opened a stream.
pub open spec fn accept_callbacks(dir: Dir, id: u64) -> Seq<ConnectionCallback> {
    match dir {
        Dir::Uni => seq![ConnectionCallback::OpenedReceiveStream(StreamId(id))],
        Dir::Bi => seq![
            ConnectionCallback::OpenedReceiveStream(StreamId(id)),
            ConnectionCallback::OpenedSendStream(StreamId(id)),
        ],
    }
}

/// The table after this side opened a stream.
pub open spec fn after_open(table: TableView, id: u64) -> TableView {
    TableView { send: table.send.insert(id, BufferView::fresh()), ..table }
}

/// The table after one attempt to read from a stream.
pub open spec fn after_chunk(table: TableView, id: u64, outcome: ReadOutcome) -> TableView {
    match outcome {
        ReadOutcome::Data(data) => TableView {
            receive: table.receive.insert(id, table.receive[id].append(data@)),
            budget: (table.budget - data@.len()) as nat,
            ..table
        },
        ReadOutcome::Finished | ReadOutcome::Reset(_) => TableView {
            receive: table.receive.insert(id, table.receive[id].close()),
            ..table
        },
        ReadOutcome::Blocked => table,
    }
}

/// What a connection reports after one attempt to read from a stream.
pub open spec fn chunk_callbacks(id: u64, outcome: ReadOutcome) -> Seq<ConnectionCallback> {
    match outcome {
        ReadOutcome::Finished => seq![
            ConnectionCallback::ClosedReceiveStream(StreamId(id), None),
        ],
        ReadOutcome::Reset(code) => seq![
            ConnectionCallback::ClosedReceiveStream(StreamId(id), Some(code)),
        ],
        _ => seq![],
    }
}

/// The receive streams that are closed and have been read to the end.
pub open spec fn finished_streams(table: TableView) -> Set<u64> {
    table.receive.dom().filter(|id: u64| table.receive[id].is_finished())
}

/// The table without the receive streams that are closed and have been read to the end.
pub open spec fn after_finished(table: TableView) -> TableView {
    TableView { receive: table.receive.remove_keys(finished_streams(table)), ..table }
}

/// What a connection reports for receive streams that have been read to the end.
pub open spec fn finished_callbacks(ids: Seq<u64>) -> Seq<ConnectionCallback> {
    ids.map_values(|id: u64| ConnectionCallback::FinishedReceiveStream(StreamId(id)))
}

/// Whether the sequence has each element of the set once and nothing else.
pub open spec fn lists(ids: Seq<u64>, set: Set<u64>) -> bool {
    ids.no_duplicates() && ids.to_set() == set
}

/// What a sequence contains after a push.
pub(crate) proof fn lemma_push_contains(ids: Seq<u64>, id: u64)
    ensures
        forall|other: u64| #[trigger]
            ids.push(id).contains(other) <==> ids.contains(other) || other == id,
        ids.push(id).to_set() == ids.to_set().insert(id),
{
    assert forall|other: u64| #[trigger]
        ids.push(id).contains(other) <==> ids.contains(other) || other == id by {
        let longer = ids.push(id);
        if ids.contains(other) {
            let k = ids.index_of(other);
            assert(longer[k] == other);
        }
        if other == id {
            assert(longer[ids.len() as int] == other);
        }
    }
    assert(ids.push(id).to_set() =~= ids.to_set().insert(id));
}

/// The table after the first `n` bytes of a send stream have been sent.
pub open spec fn after_sent(table: TableView, id: u64, n: int) -> TableView {
    TableView { send: table.send.insert(id, table.send[id].skip(n)), ..table }
}

/// The table without a send stream.
pub open spec fn without_send(table: TableView, id: u64) -> TableView {
    TableView { send: table.send.remove(id), ..table }
}

impl View for StreamTable {
    type V = TableView;

    closed spec fn view(&self) -> TableView {
        TableView {
            connected: self.connected,
            readable: self.readable@,
            receive: self.receive@,
            send: self.send@,
            budget: self.receive_budget as nat,
        }
    }
}

impl StreamTable {
    /// The table of a new connection, which may receive `receive_budget` bytes.
    pub fn new(receive_budget: usize) -> (r: StreamTable)
        ensures
            r@ == fresh_table(receive_budget as nat),
            !r@.connected,
            r@.readable == Set::<u64>::empty(),
            (r@.receive == Map::<u64, BufferView>::empty()),
            (r@.send == Map::<u64, BufferView>::empty()),
            r@.budget == receive_budget,
    {
        StreamTable {
            connected: false,
            readable: ReadableStreams::new(),
            receive: ReceiveStreams::new(),
            send: SendStreams::new(),
            receive_budget,
        }
    }

    /// Whether the connection has been established.
    pub fn connected(&self) -> (r: bool)
        ensures
            r == self@.connected,
    {
        self.connected
    }

    /// How many more bytes may be received.
    pub fn receive_budget(&self) -> (r: usize)
        ensures
            r == self@.budget,
    {
        self.receive_budget
    }

    /// Gets the send buffer of a stream.
    pub fn send_stream(&self, id: StreamId) -> (r: Option<&SendBuffer>)
        ensures
            match r {
                Some(buffer) => self@.send.contains_key(id.0) && buffer@ == self@.send[id.0],
                None => !self@.send.contains_key(id.0),
            },
    {
        self.send.get(id.0)
    }

    /// Gets the send buffer of a stream.
    pub fn send_stream_mut(&mut self, id: StreamId) -> (r: Option<&mut SendBuffer>)
        ensures
            match r {
                Some(buffer) => old(self)@.send.contains_key(id.0) && buffer@
                    == old(self)@.send[id.0] && final(self)@ == (TableView {
                    send: old(self)@.send.insert(id.0, final(buffer)@),
                    ..old(self)@
                }),
                None => !old(self)@.send.contains_key(id.0) && final(self)@ == old(self)@,
            },
    {
        self.send.get_mut(id.0)
    }

    /// Gets the receive buffer of a stream.
    pub fn receive_stream(&self, id: StreamId) -> (r: Option<&ReceiveBuffer>)
        ensures
            match r {
                Some(buffer) => self@.receive.contains_key(id.0) && buffer@ == self@.receive[id.0],
                None => !self@.receive.contains_key(id.0),
            },
    {
        self.receive.get(id.0)
    }

    /// Gets the receive buffer of a stream.
    pub fn receive_stream_mut(&mut self, id: StreamId) -> (r: Option<&mut ReceiveBuffer>)
        ensures
            match r {
                Some(buffer) => old(self)@.receive.contains_key(id.0) && buffer@
                    == old(self)@.receive[id.0] && final(self)@ == (TableView {
                    receive: old(self)@.receive.insert(id.0, final(buffer)@),
                    ..old(self)@
                }),
                None => !old(self)@.receive.contains_key(id.0) && final(self)@ == old(self)@,
            },
    {
        self.receive.get_mut(id.0)
    }

    /// Takes in an event of the protocol.
    pub fn on_event(
        &mut self,
        handle: usize,
        event: ProtoEvent,
        callbacks: &mut Vec<ConnectionCallback>,
    )
        ensures
            final(self)@ == after_event(old(self)@, event),
            final(callbacks)@ == old(callbacks)@ + event_callbacks(handle, event),
            final(self)@.connected == (old(self)@.connected || event is Connected),
            event matches ProtoEvent::StreamReadable(id) ==> final(self)@.readable
                == old(self)@.readable.insert(id),
            !(event is StreamReadable) ==> final(self)@.readable == old(self)@.readable,
            event matches ProtoEvent::StreamStopped(id, _) ==> final(self)@.send
                == old(self)@.send.remove(id),
            !(event is StreamStopped) ==> final(self)@.send == old(self)@.send,
            final(self)@.receive == old(self)@.receive,
            final(self)@.budget == old(self)@.budget,
    {
        match event {
            ProtoEvent::Connected => {
                self.connected = true;
                callbacks.push(ConnectionCallback::SuccessfulConnection(handle));
            },
            ProtoEvent::StreamReadable(id) => {
                self.readable.insert(id);
            },
            ProtoEvent::StreamStopped(id, code) => {
                self.send.remove(id);
                callbacks.push(ConnectionCallback::ClosedSendStream(StreamId(id), code));
            },
            ProtoEvent::ConnectionLost => {},
            ProtoEvent::HandshakeDataReady => {},
            ProtoEvent::DatagramReceived => {},
            ProtoEvent::DatagramsUnblocked => {},
            ProtoEvent::StreamOpened => {},
            ProtoEvent::StreamWritable => {},
            ProtoEvent::StreamFinished => {},
            ProtoEvent::StreamAvailable => {},
        }
    }

    /// Takes in a stream that the peer opened.
    pub fn on_accept(&mut self, dir: Dir, id: StreamId, callbacks: &mut Vec<ConnectionCallback>)
        ensures
            final(self)@ == after_accept(old(self)@, dir, id.0),
            final(callbacks)@ == old(callbacks)@ + accept_callbacks(dir, id.0),
            final(self)@.readable == old(self)@.readable.insert(id.0),
            final(self)@.receive.dom() == old(self)@.receive.dom().insert(id.0),
            final(self)@.receive[id.0].data.len() == 0 && !final(self)@.receive[id.0].closed,
            dir is Bi ==> final(self)@.send.dom() == old(self)@.send.dom().insert(id.0)
                && final(self)@.send[id.0].data.len() == 0 && !final(self)@.send[id.0].closed,
            dir is Uni ==> final(self)@.send == old(self)@.send,
            final(self)@.connected == old(self)@.connected,
            final(self)@.budget == old(self)@.budget,
    {
        self.readable.insert(id.0);
        self.receive.insert(id.0, ReceiveBuffer::default());
        match dir {
            Dir::Uni => {
                callbacks.push(ConnectionCallback::OpenedReceiveStream(id));
            },
            Dir::Bi => {
                self.send.insert(id.0, SendBuffer::default());
                callbacks.push(ConnectionCallback::OpenedReceiveStream(id));
                callbacks.push(ConnectionCallback::OpenedSendStream(id));
            },
        }
    }

    /// Takes in a stream that this side opened.
    pub fn on_open(&mut self, id: StreamId)
        ensures
            final(self)@ == after_open(old(self)@, id.0),
            final(self)@.send.dom() == old(self)@.send.dom().insert(id.0),
            final(self)@.send[id.0].data.len() == 0 && !final(self)@.send[id.0].closed,
            final(self)@.receive == old(self)@.receive,
            final(self)@.readable == old(self)@.readable,
            final(self)@.connected == old(self)@.connected,
            final(self)@.budget == old(self)@.budget,
    {
        self.send.insert(id.0, SendBuffer::default());
    }

    /// Gives the streams that have data ready to be read, and forgets that they have.
    pub(crate) fn take_readable(&mut self) -> (ids: Vec<u64>)
        ensures
            lists(ids@, old(self)@.readable),
            final(self)@ == (TableView { readable: Set::empty(), ..old(self)@ }),
    {
        self.readable.drain()
    }

    /// Takes in what one attempt to read from a stream gave; tells whether to try again.
    pub fn on_chunk(
        &mut self,
        id: StreamId,
        outcome: ReadOutcome,
        callbacks: &mut Vec<ConnectionCallback>,
    ) -> (more: bool)
        requires
            old(self)@.receive.contains_key(id.0),
            outcome matches ReadOutcome::Data(data) ==> data@.len() <= old(self)@.budget,
        ensures
            final(self)@ == after_chunk(old(self)@, id.0, outcome),
            final(callbacks)@ == old(callbacks)@ + chunk_callbacks(id.0, outcome),
            more == (outcome is Data),
            outcome matches ReadOutcome::Data(data) ==> final(self)@.receive[id.0].data
                == old(self)@.receive[id.0].data + data@ && final(self)@.budget + data@.len()
                == old(self)@.budget,
            !(outcome is Data) ==> final(self)@.receive[id.0].data == old(self)@.receive[id.0].data
                && final(self)@.budget == old(self)@.budget,
            final(self)@.receive[id.0].closed == (old(self)@.receive[id.0].closed || outcome
                is Finished || outcome is Reset),
            final(self)@.receive.dom() == old(self)@.receive.dom(),
            final(self)@.send == old(self)@.send,
            final(self)@.readable == old(self)@.readable,
            final(self)@.connected == old(self)@.connected,
    {
        assert(forall|buffer: BufferView|
            (#[trigger] self@.receive.insert(id.0, buffer)).dom() =~= self@.receive.dom());
        match self.receive.get_mut(id.0) {
            None => false,
            Some(stream) => match outcome {
                ReadOutcome::Data(data) => {
                    self.receive_budget = self.receive_budget - data.len();
                    stream.receive(data.as_slice());
                    true
                },
                ReadOutcome::Finished => {
                    stream.close();
                    callbacks.push(ConnectionCallback::ClosedReceiveStream(id, None));
                    false
                },
                ReadOutcome::Reset(code) => {
                    stream.close();
                    callbacks.push(ConnectionCallback::ClosedReceiveStream(id, Some(code)));
                    false
                },
                ReadOutcome::Blocked => false,
            },
        }
    }

    /// Removes the receive streams that are closed and have been read to the end.
    pub fn remove_finished(&mut self, callbacks: &mut Vec<ConnectionCallback>)
        ensures
            final(self)@ == after_finished(old(self)@),
            exists|ids: Seq<u64>| #[trigger]
                lists(ids, finished_streams(old(self)@)) && final(callbacks)@ == old(callbacks)@
                    + finished_callbacks(ids),
            forall|id: u64| #[trigger]
                final(self)@.receive.dom().contains(id) <==> old(self)@.receive.dom().contains(id)
                    && !(old(self)@.receive[id].closed && old(self)@.receive[id].data.len() == 0),
            forall|id: u64| #[trigger]
                final(self)@.receive.dom().contains(id) ==> final(self)@.receive[id]
                    == old(self)@.receive[id],
            final(self)@.send == old(self)@.send,
            final(self)@.readable == old(self)@.readable,
            final(self)@.connected == old(self)@.connected,
            final(self)@.budget == old(self)@.budget,
    {
        let keys: Vec<u64> = self.receive.keys();
        let ghost table = self@;
        let ghost mut ids: Seq<u64> = Seq::empty();
        for i in 0..keys.len()
            invariant
                lists(keys@, table.receive.dom()),
                self@ == (TableView { receive: table.receive.remove_keys(ids.to_set()), ..table }),
                callbacks@ == old(callbacks)@ + finished_callbacks(ids),
                ids.no_duplicates(),
                forall|id: u64| #[trigger]
                    ids.contains(id) <==> finished_streams(table).contains(id) && keys@.take(
                        i as int,
                    ).contains(id),
        {
            let id: u64 = keys[i];
            assert(keys@.contains(id));
            assert(table.receive.dom().contains(id));
            assert(!keys@.take(i as int).contains(id));
            assert(keys@.take(i + 1) == keys@.take(i as int).push(id));
            assert(!ids.contains(id));
            proof {
                lemma_push_contains(keys@.take(i as int), id);
                lemma_push_contains(ids, id);
            }
            let finished: bool = match self.receive.get(id) {
                Some(stream) => stream.is_finished(),
                None => false,
            };
            if finished {
                self.receive.remove(id);
                callbacks.push(ConnectionCallback::FinishedReceiveStream(StreamId(id)));
                proof {
                    let before = ids;
                    ids = before.push(id);
                    assert(finished_callbacks(ids) == finished_callbacks(before).push(
                        ConnectionCallback::FinishedReceiveStream(StreamId(id)),
                    ));
                }
            }
        }
        proof {
            assert(keys@.take(keys@.len() as int) == keys@);
            assert(ids.to_set() == finished_streams(table));
            assert(lists(ids, finished_streams(table)));
        }
    }

    /// The numbers of the send streams.
    pub(crate) fn send_numbers(&self) -> (ids: Vec<u64>)
        ensures
            lists(ids@, self@.send.dom()),
    {
        self.send.keys()
    }

    /// What is to be done next with a send stream, if there is such a stream.
    pub fn next_write(&mut self, id: StreamId) -> (r: Option<WriteAction<'_>>)
        ensures
            final(self)@ == old(self)@,
            match r {
                None => !old(self)@.send.contains_key(id.0),
                Some(WriteAction::Send(bytes)) => old(self)@.send.contains_key(id.0) && bytes@
                    == old(self)@.send[id.0].data && bytes@.len() > 0,
                Some(WriteAction::Finish) => old(self)@.send.contains_key(id.0)
                    && old(self)@.send[id.0].is_finished() && old(self)@.send[id.0].closed
                    && old(self)@.send[id.0].data.len() == 0,
                Some(WriteAction::Wait) => old(self)@.send.contains_key(id.0)
                    && old(self)@.send[id.0] == BufferView::fresh() && !old(self)@.send[id.0].closed
                    && old(self)@.send[id.0].data.len() == 0,
            },
    {
        let ghost send = self.send@;
        assert(forall|id: u64, buffer: BufferView|
            send.dom().contains(id) && send[id] == buffer ==> #[trigger] send.insert(id, buffer)
                =~= send);
        match self.send.get_mut(id.0) {
            None => None,
            Some(stream) => if stream.bytes_buffered() == 0 {
                if stream.is_closed() {
                    Some(WriteAction::Finish)
                } else {
                    assert(stream@ =~= BufferView::fresh());
                    Some(WriteAction::Wait)
                }
            } else {
                Some(WriteAction::Send(stream.unsent()))
            },
        }
    }

    /// Takes in that the first `n` bytes of a send stream have been sent.
    pub fn on_sent(&mut self, id: StreamId, n: usize)
        requires
            old(self)@.send.contains_key(id.0),
            n <= old(self)@.send[id.0].data.len(),
        ensures
            final(self)@ == after_sent(old(self)@, id.0, n as int),
            final(self)@.send.dom() == old(self)@.send.dom(),
            final(self)@.send[id.0].data == old(self)@.send[id.0].data.skip(n as int),
            final(self)@.send[id.0].closed == old(self)@.send[id.0].closed,
            final(self)@.receive == old(self)@.receive,
            final(self)@.readable == old(self)@.readable,
            final(self)@.connected == old(self)@.connected,
            final(self)@.budget == old(self)@.budget,
    {
        assert(forall|buffer: BufferView|
            (#[trigger] self@.send.insert(id.0, buffer)).dom() =~= self@.send.dom());
        if let Some(stream) = self.send.get_mut(id.0) {
            stream.consume(n);
        }
    }

    /// Forgets a send stream, and any unsent data with it.
    pub fn remove_send(&mut self, id: StreamId)
        ensures
            final(self)@ == without_send(old(self)@, id.0),
            final(self)@.send == old(self)@.send.remove(id.0),
            final(self)@.receive == old(self)@.receive,
            final(self)@.readable == old(self)@.readable,
            final(self)@.connected == old(self)@.connected,
            final(self)@.budget == old(self)@.budget,
    {
        self.send.remove(id.0);
    }
}

/// Opening a stream gives it an empty, open send buffer, whatever its number is, and leaves every
/// other buffer, and all else, as it was.
pub proof fn law_opened_streams_have_a_send_buffer(table: TableView, id: u64, other: u64)
    ensures
        ({
            let after = after_open(table, id);
            &&& after.send.dom().contains(id)
            &&& after.send[id].data.len() == 0 && !after.send[id].closed
            &&& other != id ==> (after.send.dom().contains(other) <==> table.send.dom().contains(
                other,
            )) && (table.send.dom().contains(other) ==> after.send[other] == table.send[other])
            &&& after.receive == table.receive
            &&& after.readable == table.readable
            &&& after.connected == table.connected
            &&& after.budget == table.budget
        }),
{
}

/// Accepting a stream of the peer gives it an empty, open receive buffer, and a send buffer
/// likewise if data flows both ways, and makes it one to be read; all other buffers stay as they
/// were.
pub proof fn law_accepted_streams_have_buffers(table: TableView, dir: Dir, id: u64, other: u64)
    ensures
        ({
            let after = after_accept(table, dir, id);
            &&& after.readable.contains(id)
            &&& after.receive.dom().contains(id)
            &&& after.receive[id].data.len() == 0 && !after.receive[id].closed
            &&& dir is Bi ==> after.send.dom().contains(id) && after.send[id].data.len() == 0
                && !after.send[id].closed
            &&& dir is Uni ==> after.send == table.send
            &&& other != id ==> {
                &&& after.readable.contains(other) <==> table.readable.contains(other)
                &&& after.receive.dom().contains(other) <==> table.receive.dom().contains(other)
                &&& table.receive.dom().contains(other) ==> after.receive[other]
                    == table.receive[other]
                &&& after.send.dom().contains(other) <==> table.send.dom().contains(other)
                &&& table.send.dom().contains(other) ==> after.send[other] == table.send[other]
            }
            &&& after.connected == table.connected
            &&& after.budget == table.budget
        }),
{
}

/// A stream that the protocol says is readable is one to be read, whatever stream it is; a send
/// stream that the peer stopped is gone; and no event touches anything else than what it is about.
pub proof fn law_events_touch_what_they_are_about(table: TableView, event: ProtoEvent, id: u64)
    ensures
        ({
            let after = after_event(table, event);
            &&& after.readable.contains(id) <==> table.readable.contains(id) || event
                == ProtoEvent::StreamReadable(id)
            &&& after.send.dom().contains(id) <==> table.send.dom().contains(id) && !(event
                is StreamStopped && event->StreamStopped_0 == id)
            &&& after.send.dom().contains(id) ==> after.send[id] == table.send[id]
            &&& after.receive == table.receive
            &&& after.budget == table.budget
            &&& after.connected <==> table.connected || event is Connected
        }),
{
}

/// Every byte that is read is buffered and paid for; the end of a stream closes it and leaves what
/// is buffered; and reading from one stream touches no other.
pub proof fn law_reading_buffers_every_byte(
    table: TableView,
    id: u64,
    outcome: ReadOutcome,
    other: u64,
)
    requires
        table.receive.dom().contains(id),
        outcome matches ReadOutcome::Data(data) ==> data@.len() <= table.budget,
    ensures
        ({
            let after = after_chunk(table, id, outcome);
            let read = if outcome is Data {
                outcome->Data_0@
            } else {
                Seq::empty()
            };
            &&& after.receive[id].data == table.receive[id].data + read
            &&& after.budget + read.len() == table.budget
            &&& after.receive[id].closed <==> table.receive[id].closed || outcome is Finished
                || outcome is Reset
            &&& after.receive.dom() == table.receive.dom()
            &&& other != id && table.receive.dom().contains(other) ==> after.receive[other]
                == table.receive[other]
            &&& after.send == table.send
            &&& after.readable == table.readable
            &&& after.connected == table.connected
        }),
{
    let after = after_chunk(table, id, outcome);
    assert(after.receive.dom() =~= table.receive.dom());
    if !(outcome is Data) {
        assert(table.receive[id].data + Seq::<u8>::empty() =~= table.receive[id].data);
    }
}

/// What is reported when a stream has been read tells how it ended: that the peer closed it, with
/// the error code if it was reset, and nothing while there may be more.
pub proof fn law_the_end_of_a_stream_is_reported(id: u64, outcome: ReadOutcome)
    ensures
        ({
            let reports = chunk_callbacks(id, outcome);
            let ended = outcome is Finished || outcome is Reset;
            &&& reports.len() == if ended {
                1nat
            } else {
                0
            }
            &&& ended ==> reports[0] is ClosedReceiveStream
                && reports[0]->ClosedReceiveStream_0 == StreamId(id)
                && match reports[0]->ClosedReceiveStream_1 {
                None => outcome is Finished,
                Some(code) => outcome == ReadOutcome::Reset(code),
            }
        }),
{
}

/// A receive stream goes once it is closed and empty, and only then; all others stay as they are.
pub proof fn law_finished_streams_go(table: TableView, id: u64)
    ensures
        ({
            let after = after_finished(table);
            let done = table.receive[id].closed && table.receive[id].data.len() == 0;
            &&& finished_streams(table).contains(id) <==> table.receive.dom().contains(id) && done
            &&& after.receive.dom().contains(id) <==> table.receive.dom().contains(id) && !done
            &&& after.receive.dom().contains(id) ==> after.receive[id] == table.receive[id]
            &&& after.send == table.send
            &&& after.readable == table.readable
            &&& after.connected == table.connected
            &&& after.budget == table.budget
        }),
{
}

/// Sending takes bytes off the front of one send stream, and removing a send stream removes that
/// one; neither touches another.
pub proof fn law_sending_touches_one_stream(table: TableView, id: u64, n: int, other: u64)
    requires
        table.send.dom().contains(id),
        0 <= n <= table.send[id].data.len(),
        other != id,
    ensures
        ({
            let sent = after_sent(table, id, n);
            let removed = without_send(table, id);
            &&& sent.send.dom() == table.send.dom()
            &&& table.send[id].data.take(n) + sent.send[id].data == table.send[id].data
            &&& sent.send[id].closed == table.send[id].closed
            &&& !removed.send.dom().contains(id)
            &&& removed.send.dom().contains(other) <==> table.send.dom().contains(other)
            &&& table.send.dom().contains(other) ==> sent.send[other] == table.send[other]
                && removed.send[other] == table.send[other]
            &&& sent.receive == table.receive && removed.receive == table.receive
            &&& sent.readable == table.readable && removed.readable == table.readable
            &&& sent.connected == table.connected && removed.connected == table.connected
            &&& sent.budget == table.budget && removed.budget == table.budget
        }),
{
    let sent = after_sent(table, id, n);
    assert(sent.send.dom() =~= table.send.dom());
    assert(table.send[id].data.take(n) + sent.send[id].data =~= table.send[id].data);
}

/// A new connection is not established, has no streams, and may receive as many bytes as it was
/// given.
pub proof fn law_new_tables_are_empty(budget: nat, id: u64)
    ensures
        ({
            let table = fresh_table(budget);
            &&& !table.connected
            &&& !table.readable.contains(id)
            &&& !table.receive.dom().contains(id)
            &&& !table.send.dom().contains(id)
            &&& table.budget == budget
        }),
{
}

} // verus!
