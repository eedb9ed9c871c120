//! What an update does to a connection, as a function of what the protocol gave: the
//! events it yielded, the streams it accepted, the data it read and the data it took.

use vstd::prelude::*;

use crate::buffer::BufferView;
use crate::ids::{can_receive, in_range, stream_number, Dir, SideView, StreamId};
use crate::proto::{
    Offer, ProtoEvent, ReadCall, ReadFailure, Record, Renewal, Timeout, Told, WriteOutcome,
};
use crate::streams::{
    accept_callbacks, after_accept, after_event, after_finished, after_sent, event_callbacks,
    finished_callbacks, finished_streams, lists, without_send, ConnectionCallback, ReadOutcome,
    TableView,
};

verus! {

/// The table after a sequence of protocol events.
pub open spec fn after_events(table: TableView, events: Seq<ProtoEvent>) -> TableView
    decreases events.len(),
{
    if events.len() == 0 {
        table
    } else {
        after_events(after_event(table, events[0]), events.drop_first())
    }
}

/// What a sequence of protocol events makes the connection with that handle report.
pub open spec fn events_callbacks(handle: usize, events: Seq<ProtoEvent>) -> Seq<
    ConnectionCallback,
>
    decreases events.len(),
{
    if events.len() == 0 {
        seq![]
    } else {
        event_callbacks(handle, events[0]) + events_callbacks(handle, events.drop_first())
    }
}

/// The table after the peer's streams have been accepted, one after the other.
pub open spec fn after_accepts(table: TableView, dir: Dir, ids: Seq<u64>) -> TableView
    decreases ids.len(),
{
    if ids.len() == 0 {
        table
    } else {
        after_accepts(after_accept(table, dir, ids[0]), dir, ids.drop_first())
    }
}

/// What a connection reports when the peer's streams are accepted.
pub open spec fn accepts_callbacks(dir: Dir, ids: Seq<u64>) -> Seq<ConnectionCallback>
    decreases ids.len(),
{
    if ids.len() == 0 {
        seq![]
    } else {
        accept_callbacks(dir, ids[0]) + accepts_callbacks(dir, ids.drop_first())
    }
}

/// Why an update could not be completed.
pub enum UpdateError {
    /// The protocol emitted an event after the one that was to be its last.
    EventAfterDrained,
    /// A stream on which this side cannot receive was reported to be readable.
    NotReceivable(StreamId),
    /// A stream that was reported to be readable is closed.
    ReadClosedStream(StreamId),
    /// A stream was read out of order before.
    UnorderedRead(StreamId),
    /// A stream that was reported to be readable has no receive buffer.
    MissingReceiveStream(StreamId),
    /// A stream to be finished is closed or stopped.
    FinishFailed(StreamId),
    /// A stream with data to be sent is closed.
    WroteClosedStream(StreamId),
    /// A stream with data to be sent was stopped by the peer.
    WroteStoppedStream(StreamId, quinn_proto::VarInt),
}

/// What polling gives when the connection holds these events, until it gives nothing.
pub open spec fn round(events: Seq<ProtoEvent>) -> Seq<Option<ProtoEvent>> {
    Seq::new(
        events.len() + 1,
        |i: int|
            if i < events.len() {
                Some(events[i])
            } else {
                None
            },
    )
}

/// What came of an event for the endpoint: whether it tells that the connection is drained, the
/// identifiers that the endpoint issued in answer, and the application events that the connection
/// held once it had been given those.
pub struct Relay {
    pub drained: bool,
    pub answer: Option<quinn_proto::ConnectionEvent>,
    pub events: Seq<ProtoEvent>,
}

/// For each of the events for the endpoint, whether it tells that the connection is drained.
pub open spec fn notices_of(relays: Seq<Relay>) -> Seq<bool> {
    Seq::new(relays.len(), |i: int| relays[i].drained)
}

/// What the endpoint is told, and answers, when the connection has that handle.
pub open spec fn told_of(handle: usize, relays: Seq<Relay>) -> Seq<Told> {
    Seq::new(
        relays.len(),
        |i: int| Told { handle, drained: relays[i].drained, answer: relays[i].answer },
    )
}

/// The application events that the connection held after the answers of the endpoint.
pub open spec fn relay_events(relays: Seq<Relay>) -> Seq<ProtoEvent>
    decreases relays.len(),
{
    if relays.len() == 0 {
        seq![]
    } else {
        relay_events(relays.drop_last()) + relays.last().events
    }
}

/// What polling gives after the answers of the endpoint, each time until it gives nothing.
pub open spec fn relay_polls(relays: Seq<Relay>) -> Seq<Option<ProtoEvent>>
    decreases relays.len(),
{
    if relays.len() == 0 {
        seq![]
    } else {
        let before = relay_polls(relays.drop_last());
        match relays.last().answer {
            Some(_) => before + round(relays.last().events),
            None => before,
        }
    }
}

/// The identifiers that go back to the connection: those that the endpoint issued, each before the
/// next event for it is polled, and once polling for application events after the last ones has
/// come to its end. There had been so many events for the endpoint, and polls, before.
pub open spec fn renewals(noticed: nat, polled: nat, relays: Seq<Relay>) -> Seq<Renewal>
    decreases relays.len(),
{
    if relays.len() == 0 {
        seq![]
    } else {
        let before = renewals(noticed, polled, relays.drop_last());
        match relays.last().answer {
            Some(event) => before.push(
                Renewal {
                    noticed: noticed + relays.len(),
                    polled: polled + relay_polls(relays.drop_last()).len(),
                    event,
                },
            ),
            None => before,
        }
    }
}

/// Whether no event follows one that tells that the connection is drained, unless it tells
/// the same.
pub open spec fn orderly(notices: Seq<bool>) -> bool {
    forall|i: int, j: int| 0 <= i < j < notices.len() && notices[i] ==> notices[j]
}

/// Why reading from a stream came to an end.
pub enum ReadEnd {
    /// No more bytes may be received.
    BudgetSpent,
    /// Nothing more was ready to be read.
    Blocked,
    /// The peer finished the stream.
    Finished,
    /// The peer reset the stream.
    Reset(quinn_proto::VarInt),
    /// The stream could not be read.
    Failed(UpdateError),
}

/// What reading from a stream gave: the calls that were made, the bytes, in order, and why there
/// were no more.
pub struct ReadStep {
    pub probes: Seq<(u64, Option<ReadFailure>)>,
    pub calls: Seq<ReadCall>,
    pub data: Seq<u8>,
    pub end: ReadEnd,
}

/// What is to be said of a stream that cannot be read.
pub open spec fn read_error(id: u64, failure: ReadFailure) -> UpdateError {
    match failure {
        ReadFailure::ClosedStream => UpdateError::ReadClosedStream(StreamId(id)),
        ReadFailure::IllegalOrderedRead => UpdateError::UnorderedRead(StreamId(id)),
    }
}

/// The bytes that attempts to read gave, in order.
pub open spec fn data_of(calls: Seq<ReadCall>) -> Seq<u8>
    decreases calls.len(),
{
    if calls.len() == 0 {
        seq![]
    } else {
        let before = data_of(calls.drop_last());
        match calls.last().reply {
            Ok(ReadOutcome::Data(bytes)) => before + bytes@,
            _ => before,
        }
    }
}

/// Why there are no more attempts to read after one with that reply. After one that gave data
/// there is no other only because no more bytes may be received.
pub open spec fn end_of(id: u64, reply: Result<ReadOutcome, ReadFailure>) -> ReadEnd {
    match reply {
        Ok(ReadOutcome::Data(_)) => ReadEnd::BudgetSpent,
        Ok(ReadOutcome::Finished) => ReadEnd::Finished,
        Ok(ReadOutcome::Reset(code)) => ReadEnd::Reset(code),
        Ok(ReadOutcome::Blocked) => ReadEnd::Blocked,
        Err(failure) => ReadEnd::Failed(read_error(id, failure)),
    }
}

/// Whether these are attempts to read from the stream, one after the other: each is allowed as
/// many bytes as may still be received, and follows one that gave data.
pub open spec fn read_run(budget: nat, id: u64, calls: Seq<ReadCall>) -> bool
    decreases calls.len(),
{
    if calls.len() == 0 {
        true
    } else {
        let before = calls.drop_last();
        let last = calls.last();
        &&& read_run(budget, id, before)
        &&& before.len() > 0 ==> (before.last().reply matches Ok(ReadOutcome::Data(_)))
        &&& last.id == id
        &&& last.max_length == budget - data_of(before).len()
        &&& last.max_length > 0
        &&& (last.reply matches Ok(ReadOutcome::Data(bytes)) ==> 0 < bytes@.len()
            <= last.max_length)
    }
}

/// Whether reading from the stream can go that way. It is not read if this side cannot receive on
/// it; only opened if no more bytes may be received; not read if there is no buffer for it; and
/// otherwise read until no more bytes may be received, or an attempt gives none.
pub open spec fn possible_read(table: TableView, client: bool, id: u64, step: ReadStep) -> bool {
    if !can_receive(client, id) {
        &&& step.probes.len() == 0
        &&& step.calls.len() == 0
        &&& step.data.len() == 0
        &&& step.end == ReadEnd::Failed(UpdateError::NotReceivable(StreamId(id)))
    } else if table.budget == 0 {
        &&& step.probes.len() == 1
        &&& step.probes[0].0 == id
        &&& step.calls.len() == 0
        &&& step.data.len() == 0
        &&& step.end == match step.probes[0].1 {
            None => ReadEnd::BudgetSpent,
            Some(failure) => ReadEnd::Failed(read_error(id, failure)),
        }
    } else if !table.receive.dom().contains(id) {
        &&& step.probes.len() == 0
        &&& step.calls.len() == 0
        &&& step.data.len() == 0
        &&& step.end == ReadEnd::Failed(UpdateError::MissingReceiveStream(StreamId(id)))
    } else {
        &&& step.probes.len() == 0
        &&& step.calls.len() > 0
        &&& read_run(table.budget, id, step.calls)
        &&& step.data == data_of(step.calls)
        &&& step.end == end_of(id, step.calls.last().reply)
        &&& step.data.len() <= table.budget
        &&& step.end is BudgetSpent ==> step.data.len() == table.budget
    }
}

/// The buffer of a stream after reading.
pub open spec fn buffer_after_read(buffer: BufferView, step: ReadStep) -> BufferView {
    match step.end {
        ReadEnd::Finished | ReadEnd::Reset(_) => buffer.append(step.data).close(),
        ReadEnd::BudgetSpent | ReadEnd::Blocked | ReadEnd::Failed(_) => buffer.append(step.data),
    }
}

/// The table after reading from a stream.
pub open spec fn after_read(table: TableView, id: u64, step: ReadStep) -> TableView {
    if step.calls.len() == 0 {
        table
    } else {
        TableView {
            receive: table.receive.insert(id, buffer_after_read(table.receive[id], step)),
            budget: (table.budget - step.data.len()) as nat,
            ..table
        }
    }
}

/// What a connection reports after reading from a stream.
pub open spec fn read_callbacks(id: u64, step: ReadStep) -> Seq<ConnectionCallback> {
    match step.end {
        ReadEnd::Finished => seq![ConnectionCallback::ClosedReceiveStream(StreamId(id), None)],
        ReadEnd::Reset(code) => seq![
            ConnectionCallback::ClosedReceiveStream(StreamId(id), Some(code)),
        ],
        ReadEnd::BudgetSpent | ReadEnd::Blocked | ReadEnd::Failed(_) => seq![],
    }
}

/// The table after reading from the first streams of `ids`, as many as there are steps.
pub open spec fn after_reads(table: TableView, ids: Seq<u64>, steps: Seq<ReadStep>) -> TableView
    decreases steps.len(),
{
    if steps.len() == 0 {
        table
    } else {
        after_read(
            after_reads(table, ids, steps.drop_last()),
            ids[steps.len() - 1],
            steps.last(),
        )
    }
}

/// Whether each of the steps is possible where it comes, and none but the last failed.
pub open spec fn possible_reads(
    table: TableView,
    client: bool,
    ids: Seq<u64>,
    steps: Seq<ReadStep>,
) -> bool
    decreases steps.len(),
{
    if steps.len() == 0 {
        true
    } else {
        let before = steps.drop_last();
        &&& possible_reads(table, client, ids, before)
        &&& before.len() > 0 ==> !(before.last().end is Failed)
        &&& possible_read(
            after_reads(table, ids, before),
            client,
            ids[steps.len() - 1],
            steps.last(),
        )
    }
}

/// What a connection reports after reading from the first streams of `ids`.
pub open spec fn reads_callbacks(ids: Seq<u64>, steps: Seq<ReadStep>) -> Seq<ConnectionCallback>
    decreases steps.len(),
{
    if steps.len() == 0 {
        seq![]
    } else {
        reads_callbacks(ids, steps.drop_last()) + read_callbacks(
            ids[steps.len() - 1],
            steps.last(),
        )
    }
}

/// The streams that were opened for reading, without reading.
pub open spec fn probes_of(steps: Seq<ReadStep>) -> Seq<(u64, Option<ReadFailure>)>
    decreases steps.len(),
{
    if steps.len() == 0 {
        seq![]
    } else {
        probes_of(steps.drop_last()) + steps.last().probes
    }
}

/// The attempts to read that were made.
pub open spec fn calls_of(steps: Seq<ReadStep>) -> Seq<ReadCall>
    decreases steps.len(),
{
    if steps.len() == 0 {
        seq![]
    } else {
        calls_of(steps.drop_last()) + steps.last().calls
    }
}

/// Why writing to a stream came to an end.
pub enum WriteEnd {
    /// Everything has been sent. If the stream was closed it has been finished.
    Emptied,
    /// The peer took no more.
    Blocked,
    /// The protocol took an offer without taking a byte of it.
    Stalled,
    /// The stream could not be written, or not be finished.
    Failed(UpdateError),
}

/// What writing to a stream gave: the calls that were made, how many bytes were sent, and why no
/// more were.
pub struct WriteStep {
    pub offers: Seq<Offer>,
    pub finishes: Seq<(u64, bool)>,
    pub sent: nat,
    pub end: WriteEnd,
}

/// How many bytes were taken of what was offered.
pub open spec fn sent_by(offers: Seq<Offer>) -> nat
    decreases offers.len(),
{
    if offers.len() == 0 {
        0
    } else {
        sent_by(offers.drop_last()) + match offers.last().outcome {
            WriteOutcome::Written(n) => n as nat,
            _ => 0nat,
        }
    }
}

/// Whether these are attempts to write `data` to the stream, one after the other: each offers all
/// that is left, which is something, and follows one of which a part was taken.
pub open spec fn write_run(data: Seq<u8>, id: u64, offers: Seq<Offer>) -> bool
    decreases offers.len(),
{
    if offers.len() == 0 {
        true
    } else {
        let before = offers.drop_last();
        let last = offers.last();
        &&& write_run(data, id, before)
        &&& before.len() > 0 ==> (before.last().outcome matches WriteOutcome::Written(n) && n > 0)
        &&& last.id == id
        &&& sent_by(before) < data.len()
        &&& last.data == data.skip(sent_by(before) as int)
        &&& (last.outcome matches WriteOutcome::Written(n) ==> n <= last.data.len())
    }
}

/// Whether writing to the stream can go that way: the buffer is offered until it is empty, or an
/// attempt takes nothing. Once it is empty, a closed stream is finished.
pub open spec fn possible_write(table: TableView, id: u64, step: WriteStep) -> bool {
    let data = table.send[id].data;
    let closed = table.send[id].closed;
    &&& table.send.dom().contains(id)
    &&& write_run(data, id, step.offers)
    &&& step.sent == sent_by(step.offers)
    &&& step.sent <= data.len()
    &&& match step.end {
        WriteEnd::Emptied => {
            &&& step.sent == data.len()
            &&& step.finishes == if closed {
                seq![(id, true)]
            } else {
                seq![]
            }
        },
        WriteEnd::Blocked => {
            &&& step.sent < data.len()
            &&& step.offers.len() > 0
            &&& step.offers.last().outcome is Blocked
            &&& step.finishes.len() == 0
        },
        WriteEnd::Stalled => {
            &&& step.sent < data.len()
            &&& step.offers.len() > 0
            &&& step.offers.last().outcome == WriteOutcome::Written(0)
            &&& usize::BITS != 64
            &&& step.finishes.len() == 0
        },
        WriteEnd::Failed(UpdateError::FinishFailed(stream)) => {
            &&& stream.0 == id
            &&& step.sent == data.len()
            &&& closed
            &&& step.finishes == seq![(id, false)]
        },
        WriteEnd::Failed(UpdateError::WroteClosedStream(stream)) => {
            &&& stream.0 == id
            &&& step.sent < data.len()
            &&& step.offers.len() > 0
            &&& step.offers.last().outcome is ClosedStream
            &&& step.finishes.len() == 0
        },
        WriteEnd::Failed(UpdateError::WroteStoppedStream(stream, code)) => {
            &&& stream.0 == id
            &&& step.sent < data.len()
            &&& step.offers.len() > 0
            &&& step.offers.last().outcome == WriteOutcome::Stopped(code)
            &&& step.finishes.len() == 0
        },
        WriteEnd::Failed(_) => false,
    }
}

/// The table after writing to a stream: the stream goes once it is closed and everything has been
/// sent, and it has been finished.
pub open spec fn after_write(table: TableView, id: u64, step: WriteStep) -> TableView {
    if step.end is Emptied && table.send[id].closed {
        without_send(table, id)
    } else {
        after_sent(table, id, step.sent as int)
    }
}

/// The table after the first send streams of `ids` have been written, as many as there are steps.
pub open spec fn after_writes(table: TableView, ids: Seq<u64>, steps: Seq<WriteStep>) -> TableView
    decreases steps.len(),
{
    if steps.len() == 0 {
        table
    } else {
        after_write(
            after_writes(table, ids, steps.drop_last()),
            ids[steps.len() - 1],
            steps.last(),
        )
    }
}

/// Whether each of the steps is possible where it comes, and none but the last failed.
pub open spec fn possible_writes(table: TableView, ids: Seq<u64>, steps: Seq<WriteStep>) -> bool
    decreases steps.len(),
{
    if steps.len() == 0 {
        true
    } else {
        let before = steps.drop_last();
        &&& possible_writes(table, ids, before)
        &&& before.len() > 0 ==> !(before.last().end is Failed)
        &&& possible_write(after_writes(table, ids, before), ids[steps.len() - 1], steps.last())
    }
}

/// The bytes that were sent on a stream when the first send streams of `ids` were written.
pub open spec fn sent_data(
    table: TableView,
    ids: Seq<u64>,
    steps: Seq<WriteStep>,
    id: u64,
) -> Seq<u8>
    decreases steps.len(),
{
    if steps.len() == 0 {
        seq![]
    } else {
        let before = sent_data(table, ids, steps.drop_last(), id);
        if ids[steps.len() - 1] == id {
            before + after_writes(table, ids, steps.drop_last()).send[id].data.take(
                steps.last().sent as int,
            )
        } else {
            before
        }
    }
}

/// The attempts to write that were made.
pub open spec fn offers_of(steps: Seq<WriteStep>) -> Seq<Offer>
    decreases steps.len(),
{
    if steps.len() == 0 {
        seq![]
    } else {
        offers_of(steps.drop_last()) + steps.last().offers
    }
}

/// The attempts to finish a stream that were made.
pub open spec fn finishes_of(steps: Seq<WriteStep>) -> Seq<(u64, bool)>
    decreases steps.len(),
{
    if steps.len() == 0 {
        seq![]
    } else {
        finishes_of(steps.drop_last()) + steps.last().finishes
    }
}

/// What the protocol gave during an update.
pub struct UpdateTrace {
    /// The application events that the connection held at first, in order.
    pub first: Seq<ProtoEvent>,
    /// The events for the endpoint, in order, and what came of them.
    pub relays: Seq<Relay>,
    /// Whether there was one more event for the endpoint, after one that was to be the last. The
    /// endpoint was not told.
    pub surplus: bool,
    /// The streams from the peer that were accepted, in order.
    pub uni: Seq<u64>,
    /// The streams to and from the peer that were accepted, in order.
    pub bi: Seq<u64>,
    /// The streams that were read, in order.
    pub read: Seq<u64>,
    /// What reading each of them gave.
    pub steps: Seq<ReadStep>,
    /// The receive streams that were found to be finished, in order.
    pub finished: Seq<u64>,
    /// The streams that were written, in order.
    pub written: Seq<u64>,
    /// What writing each of them gave.
    pub writes: Seq<WriteStep>,
}

impl UpdateTrace {
    /// The application events, in order.
    pub open spec fn events(self) -> Seq<ProtoEvent> {
        self.first + relay_events(self.relays)
    }

    /// What polling for application events gave, in order.
    pub open spec fn polls(self) -> Seq<Option<ProtoEvent>> {
        round(self.first) + relay_polls(self.relays)
    }

    /// The events for the endpoint that polling gave, in order: for each whether it tells that the
    /// connection is drained.
    pub open spec fn noticed(self) -> Seq<bool> {
        if self.surplus {
            notices_of(self.relays).push(false)
        } else {
            notices_of(self.relays)
        }
    }

    /// Whether the connection turned out to be drained.
    pub open spec fn drained(self) -> bool {
        notices_of(self.relays).contains(true)
    }

    /// The table once the peer's streams have been accepted.
    pub open spec fn accepted(self, table: TableView) -> TableView {
        after_accepts(
            after_accepts(after_events(table, self.events()), Dir::Uni, self.uni),
            Dir::Bi,
            self.bi,
        )
    }

    /// The table when reading begins.
    pub open spec fn reading(self, table: TableView) -> TableView {
        TableView { readable: Set::empty(), ..self.accepted(table) }
    }

    /// The table once the streams have been read.
    pub open spec fn read_out(self, table: TableView) -> TableView {
        after_reads(self.reading(table), self.read, self.steps)
    }

    /// The table once the finished receive streams are gone.
    pub open spec fn swept(self, table: TableView) -> TableView {
        after_finished(self.read_out(table))
    }

    /// The table after the update.
    pub open spec fn result(self, table: TableView) -> TableView {
        after_writes(self.swept(table), self.written, self.writes)
    }

    /// What the connection with that handle reports until the streams have been read.
    pub open spec fn reading_callbacks(self, handle: usize) -> Seq<ConnectionCallback> {
        events_callbacks(handle, self.events()) + drained_callbacks(self.drained())
            + accepts_callbacks(Dir::Uni, self.uni) + accepts_callbacks(Dir::Bi, self.bi)
            + reads_callbacks(self.read, self.steps)
    }

    /// What the connection with that handle reports during the update.
    pub open spec fn callbacks(self, handle: usize) -> Seq<ConnectionCallback> {
        self.reading_callbacks(handle) + finished_callbacks(self.finished)
    }

    /// The bytes that were sent on a stream.
    pub open spec fn sent_on(self, table: TableView, id: u64) -> Seq<u8> {
        sent_data(self.swept(table), self.written, self.writes, id)
    }

    /// The side of the connection after the update.
    pub open spec fn side_after(self, side: SideView) -> SideView {
        side.accepts(Dir::Uni, self.uni.len()).accepts(Dir::Bi, self.bi.len())
    }

    /// What the connection has been asked after an update in which the timers were handled at
    /// these times.
    pub open spec fn record_after(self, record: Record, timeouts: Seq<Timeout>) -> Record {
        Record {
            polled: record.polled + self.polls(),
            noticed: record.noticed + self.noticed(),
            renewed: record.renewed + renewals(
                record.noticed.len(),
                record.polled.len() + round(self.first).len(),
                self.relays,
            ),
            timeouts,
            probes: record.probes + probes_of(self.steps),
            reads: record.reads + calls_of(self.steps),
            offers: record.offers + offers_of(self.writes),
            finishes: record.finishes + finishes_of(self.writes),
            ..record
        }
    }

    /// Whether events can have gone between the connection and the endpoint that way: the
    /// connection was polled again only after an answer, and the endpoint was told nothing after
    /// the event that tells that the connection is drained, unless it tells the same.
    pub open spec fn possible_relays(self) -> bool {
        &&& orderly(notices_of(self.relays))
        &&& forall|i: int|
            0 <= i < self.relays.len() && (#[trigger] self.relays[i]).answer is None
                ==> self.relays[i].events.len() == 0
    }

    /// Whether the protocol can give a connection with that table what it gave until the
    /// streams were read, as far as they were: the endpoint was told every event, the streams that
    /// were accepted are the peer's, and those that were read are the ones that were ready.
    pub open spec fn possible_reading(self, table: TableView, side: SideView) -> bool {
        &&& self.possible_relays()
        &&& !self.surplus
        &&& remote_streams(side, Dir::Uni, self.uni)
        &&& remote_streams(side, Dir::Bi, self.bi)
        &&& lists(self.read, self.accepted(table).readable)
        &&& self.steps.len() <= self.read.len()
        &&& possible_reads(self.reading(table), side.client, self.read, self.steps)
    }

    /// Whether the protocol can give a connection with that table what it gave until the
    /// streams were written, as far as they were: every stream that was ready was read, and
    /// every finished one was found.
    pub open spec fn possible_writing(self, table: TableView, side: SideView) -> bool {
        &&& self.possible_reading(table, side)
        &&& self.steps.len() == self.read.len()
        &&& self.steps.len() > 0 ==> !(self.steps.last().end is Failed)
        &&& lists(self.finished, finished_streams(self.read_out(table)))
        &&& lists(self.written, self.swept(table).send.dom())
        &&& self.writes.len() <= self.written.len()
        &&& possible_writes(self.swept(table), self.written, self.writes)
    }

    /// Whether the protocol can give all this to a connection with that table: every send
    /// stream was written.
    pub open spec fn possible(self, table: TableView, side: SideView) -> bool {
        &&& self.possible_writing(table, side)
        &&& self.writes.len() == self.written.len()
        &&& self.writes.len() > 0 ==> !(self.writes.last().end is Failed)
    }

    /// Whether an update can fail in that way after the protocol gave this.
    pub open spec fn stopped(self, table: TableView, side: SideView, error: UpdateError) -> bool {
        ||| error is EventAfterDrained && self.stopped_early()
        ||| self.stopped_reading(table, side, error)
        ||| self.stopped_writing(table, side, error)
    }

    /// Whether there was an event for the endpoint after one that was to be the last, so that
    /// nothing else was done.
    pub open spec fn stopped_early(self) -> bool {
        &&& self.possible_relays()
        &&& self.surplus
        &&& self.drained()
        &&& self.uni.len() == 0
        &&& self.bi.len() == 0
        &&& self.read.len() == 0
        &&& self.steps.len() == 0
        &&& self.before_writing()
    }

    /// Whether no stream was found to be finished, and none written.
    pub open spec fn before_writing(self) -> bool {
        self.finished.len() == 0 && self.written.len() == 0 && self.writes.len() == 0
    }

    /// Whether the last stream that was read could not be read, so that nothing else was done.
    pub open spec fn stopped_reading(
        self,
        table: TableView,
        side: SideView,
        error: UpdateError,
    ) -> bool {
        &&& self.possible_reading(table, side)
        &&& self.before_writing()
        &&& self.steps.len() > 0
        &&& self.steps.last().end == ReadEnd::Failed(error)
    }

    /// Whether the last stream that was written could not be written or finished, so that nothing
    /// else was done.
    pub open spec fn stopped_writing(
        self,
        table: TableView,
        side: SideView,
        error: UpdateError,
    ) -> bool {
        &&& self.possible_writing(table, side)
        &&& self.writes.len() > 0
        &&& self.writes.last().end == WriteEnd::Failed(error)
    }

    /// The table that an update leaves behind.
    pub open spec fn left(self, table: TableView, failure: Option<UpdateError>) -> TableView {
        match failure {
            None => self.result(table),
            Some(UpdateError::EventAfterDrained) => after_events(table, self.events()),
            Some(UpdateError::NotReceivable(_)) | Some(UpdateError::ReadClosedStream(_)) | Some(
                UpdateError::UnorderedRead(_),
            ) | Some(UpdateError::MissingReceiveStream(_)) => self.read_out(table),
            Some(UpdateError::FinishFailed(_)) | Some(UpdateError::WroteClosedStream(_)) | Some(
                UpdateError::WroteStoppedStream(_, _),
            ) => self.result(table),
        }
    }
}

/// What a connection reports when it turned out to be drained.
pub open spec fn drained_callbacks(drained: bool) -> Seq<ConnectionCallback> {
    if drained {
        seq![ConnectionCallback::CloseConnection]
    } else {
        seq![]
    }
}

/// Whether these are the next streams that the peer opened, in that direction.
pub open spec fn remote_streams(side: SideView, dir: Dir, ids: Seq<u64>) -> bool {
    forall|i: int|
        0 <= i < ids.len() ==> in_range(#[trigger] ids[i]) && ids[i] == stream_number(
            !side.client,
            dir,
            (side.accepted(dir) + i) as nat,
        )
}

/// Events that come in two batches act as one batch.
pub proof fn lemma_events_concat(
    table: TableView,
    handle: usize,
    a: Seq<ProtoEvent>,
    b: Seq<ProtoEvent>,
)
    ensures
        after_events(table, a + b) == after_events(after_events(table, a), b),
        events_callbacks(handle, a + b) == events_callbacks(handle, a) + events_callbacks(
            handle,
            b,
        ),
    decreases a.len(),
{
    if a.len() == 0 {
        assert(a + b == b);
    } else {
        assert((a + b).drop_first() == a.drop_first() + b);
        lemma_events_concat(after_event(table, a[0]), handle, a.drop_first(), b);
    }
}

/// The first event acts first.
pub proof fn lemma_events_first(
    table: TableView,
    handle: usize,
    first: ProtoEvent,
    rest: Seq<ProtoEvent>,
)
    ensures
        after_events(table, seq![first] + rest) == after_events(after_event(table, first), rest),
        events_callbacks(handle, seq![first] + rest) == event_callbacks(handle, first)
            + events_callbacks(handle, rest),
{
    assert((seq![first] + rest).drop_first() == rest);
}

/// The first stream is accepted first.
pub proof fn lemma_accepts_first(table: TableView, dir: Dir, first: u64, rest: Seq<u64>)
    ensures
        after_accepts(table, dir, seq![first] + rest) == after_accepts(
            after_accept(table, dir, first),
            dir,
            rest,
        ),
        accepts_callbacks(dir, seq![first] + rest) == accept_callbacks(dir, first)
            + accepts_callbacks(dir, rest),
{
    assert((seq![first] + rest).drop_first() == rest);
}

} // verus!
