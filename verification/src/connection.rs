//! A connection: the protocol's state and the buffers of its streams.

use quinn_proto::{Connection as ProtoConnection, Endpoint as ProtoEndpoint};
use std::time::Instant;
use vstd::prelude::*;

use crate::buffer::{ReceiveBuffer, SendBuffer};
use crate::ids::{can_receive, can_send, direction, opened_by, Dir, SideView, StreamId};
use crate::proto;
use crate::proto::{
    acceptable, affordable, deadline, ended, endpoint_record, instant_before, is_client,
    live_handles, next_open, pending_events, pending_notices, polled, reads, record_of,
    resettable, same_setup, side_of, statistics, timeouts, told, EndpointRecord, Offer,
    ProtoEvent, ReadCall, ReadFailure, Record, RoutedDatagram, Timeout, Told, TransmitPoll,
    WriteOutcome,
};
use crate::streams::{
    after_event, after_open, after_sent, finished_callbacks, finished_streams, fresh_table, lists,
    without_send, ConnectionCallback, ReadOutcome, StreamTable, TableView, WriteAction,
};
use crate::trace::{
    accepts_callbacks, after_accepts, after_events, after_read, after_reads, after_write,
    after_writes, calls_of, data_of, end_of, events_callbacks, finishes_of, lemma_accepts_first,
    lemma_events_concat, lemma_events_first, notices_of, offers_of, orderly, possible_read,
    possible_reads, possible_write, possible_writes, probes_of, read_callbacks, read_run,
    reads_callbacks, relay_events, relay_polls, remote_streams, renewals, round, sent_by, told_of,
    write_run, ReadEnd, ReadStep, Relay, UpdateError, UpdateTrace, WriteEnd, WriteStep,
};
use crate::transmit::Transmit;

verus! {

/// Whether buffers are only kept for streams that carry data in their direction, and that this
/// side opened or accepted. Only streams of the peer have receive buffers.
pub open spec fn fits(table: TableView, side: SideView) -> bool {
    &&& forall|id: u64| #[trigger]
        table.send.dom().contains(id) ==> can_send(side.client, id) && side.knows(id)
    &&& forall|id: u64| #[trigger]
        table.receive.dom().contains(id) ==> can_receive(side.client, id) && side.knows(id)
            && !opened_by(side.client, id)
}

/// Events of the protocol add no buffers.
proof fn lemma_events_fit(table: TableView, side: SideView, events: Seq<ProtoEvent>)
    requires
        fits(table, side),
    ensures
        fits(after_events(table, events), side),
    decreases events.len(),
{
    if events.len() > 0 {
        lemma_events_fit(after_event(table, events[0]), side, events.drop_first());
    }
}

/// Events of the protocol leave the receive buffers as they are.
proof fn lemma_events_keep_receive(table: TableView, events: Seq<ProtoEvent>)
    ensures
        after_events(table, events).receive == table.receive,
    decreases events.len(),
{
    if events.len() > 0 {
        lemma_events_keep_receive(after_event(table, events[0]), events.drop_first());
    }
}

/// What a sequence contains after a push.
proof fn lemma_push_true(before: Seq<bool>, last: bool)
    ensures
        before.push(last).contains(true) == (before.contains(true) || last),
{
    let after = before.push(last);
    if before.contains(true) {
        let k = before.index_of(true);
        assert(after[k]);
    }
    if last {
        assert(after[before.len() as int]);
    }
    if after.contains(true) && !last {
        let k = after.index_of(true);
        assert(before[k]);
    }
}

/// One more event is in order, if it tells that the connection is drained, or none did before.
proof fn lemma_push_orderly(before: Seq<bool>, last: bool)
    requires
        orderly(before),
        before.contains(true) ==> last,
    ensures
        orderly(before.push(last)),
{
    let after = before.push(last);
    assert forall|i: int, j: int| 0 <= i < j < after.len() && after[i] implies after[j] by {
        assert(before[i] == after[i]);
        if j < before.len() {
            assert(before[j] == after[j]);
        }
    }
}

/// Reading closes a stream only when it has come to its end.
proof fn lemma_read_marks(
    table: TableView,
    client: bool,
    id: u64,
    step: ReadStep,
    calls: Seq<ReadCall>,
)
    requires
        marked(table, calls),
        possible_read(table, client, id, step),
    ensures
        marked(after_read(table, id, step), calls + step.calls),
{
    let after = after_read(table, id, step);
    assert forall|other: u64| #[trigger]
        after.receive.dom().contains(other) && after.receive[other].closed implies ended(
        calls + step.calls,
        other,
    ) by {
        lemma_ended(calls, step.calls, other);
        if other == id && step.calls.len() > 0 && !table.receive[id].closed {
            assert(step.calls[step.calls.len() - 1] == step.calls.last());
            assert(ended(step.calls, id));
        }
    }
}

/// What was reported comes after what had been reported before.
proof fn lemma_reported(
    earlier: Seq<ConnectionCallback>,
    later: Seq<ConnectionCallback>,
    reported: Seq<ConnectionCallback>,
)
    requires
        later =~= earlier + reported,
    ensures
        later.skip(earlier.len() as int) == reported,
        earlier.is_prefix_of(later),
{
    assert(later.skip(earlier.len() as int) =~= reported);
}

/// How an update went.
pub struct UpdateReport {
    /// Whether the connection is drained, so that its state can be freed.
    pub drained: bool,
    /// What kept the update from being completed, if anything did.
    pub failure: Option<UpdateError>,
}

/// A connection belonging to an endpoint.
pub struct Connection {
    connection: ProtoConnection,
    handle: usize,
    send_buffer: Vec<u8>,
    streams: StreamTable,
}

impl View for Connection {
    type V = TableView;

    closed spec fn view(&self) -> TableView {
        self.streams@
    }
}

/// Whether reading has come to the end of every receive stream that is closed.
pub open spec fn marked(table: TableView, calls: Seq<ReadCall>) -> bool {
    forall|id: u64| #[trigger]
        table.receive.dom().contains(id) && table.receive[id].closed ==> ended(calls, id)
}

/// More attempts to read do not undo that reading has come to the end of a stream.
proof fn lemma_ended(calls: Seq<ReadCall>, more: Seq<ReadCall>, id: u64)
    ensures
        ended(calls, id) ==> ended(calls + more, id),
        ended(more, id) ==> ended(calls + more, id),
{
    if ended(calls, id) {
        let i = choose|i: int|
            #![trigger calls[i]]
            0 <= i < calls.len() && calls[i].id == id && (calls[i].reply matches Ok(outcome) && (
            outcome is Finished || outcome is Reset));
        assert((calls + more)[i] == calls[i]);
    }
    if ended(more, id) {
        let i = choose|i: int|
            #![trigger more[i]]
            0 <= i < more.len() && more[i].id == id && (more[i].reply matches Ok(outcome) && (
            outcome is Finished || outcome is Reset));
        assert((calls + more)[calls.len() + i] == more[i]);
    }
}

/// Whether the protocol is to handle its timers: one is set, and its deadline has been reached.
pub open spec fn is_due(deadline: Option<Instant>, now: Instant) -> bool {
    deadline matches Some(at) && !instant_before(now, at)
}

/// The times that the protocol has been made to handle its timers, after an update: before it is
/// polled, if one is due.
pub open spec fn timeouts_after(before: ProtoConnection, now: Instant) -> Seq<Timeout> {
    if is_due(deadline(before), now) {
        timeouts(before).push(Timeout { now, polled: polled(before).len() })
    } else {
        timeouts(before)
    }
}

/// Tells whether the protocol is to handle its timers.
pub fn timer_due(deadline: Option<Instant>, now: Instant) -> (due: bool)
    ensures
        due == is_due(deadline, now),
        due <==> (deadline matches Some(at) && !instant_before(now, at)),
{
    match deadline {
        Some(at) => proto::not_before(now, at),
        None => false,
    }
}

/// The table after these bytes have been read from a stream.
spec fn so_far(table: TableView, id: u64, data: Seq<u8>) -> TableView {
    TableView {
        receive: table.receive.insert(id, table.receive[id].append(data)),
        budget: (table.budget - data.len()) as nat,
        ..table
    }
}

/// Reads a stream until no more bytes may be received or an attempt gives none.
#[verifier::rlimit(40)]
fn read_chunks(
    connection: &mut ProtoConnection,
    streams: &mut StreamTable,
    id: StreamId,
    callbacks: &mut Vec<ConnectionCallback>,
) -> (r: (Option<UpdateError>, Ghost<ReadStep>))
    requires
        can_receive(is_client(*old(connection)), id.0),
        old(streams)@.budget > 0,
        old(streams)@.receive.dom().contains(id.0),
    ensures
        side_of(*final(connection)) == side_of(*old(connection)),
        pending_notices(*final(connection)) == pending_notices(*old(connection)),
        forall|dir: Dir| #[trigger]
            acceptable(*final(connection), dir) == acceptable(*old(connection), dir),
        record_of(*final(connection)) == (Record {
            reads: reads(*old(connection)) + r.1@.calls,
            ..record_of(*old(connection))
        }),
        possible_read(old(streams)@, is_client(*old(connection)), id.0, r.1@),
        final(streams)@ == after_read(old(streams)@, id.0, r.1@),
        final(callbacks)@ == old(callbacks)@ + read_callbacks(id.0, r.1@),
        fails(r.0, r.1@.end),
        ended(reads(*old(connection)), id.0) && !opened_by(is_client(*old(connection)), id.0)
            ==> r.1@.calls[0].reply is Err,
{
    let ghost table = streams@;
    let ghost mut calls: Seq<ReadCall> = Seq::empty();
    let mut failure: Option<UpdateError> = None;
    assert(table.receive[id.0].append(Seq::empty()) =~= table.receive[id.0]);
    assert(so_far(table, id.0, Seq::empty()).receive =~= table.receive);
    assert(reads(*connection) + calls =~= reads(*connection));
    loop
        invariant_except_break
            failure is None,
            callbacks@ == old(callbacks)@,
            calls.len() > 0 ==> calls.last().reply matches Ok(ReadOutcome::Data(_)),
            streams@ =~= so_far(table, id.0, data_of(calls)),
        invariant
            table == old(streams)@,
            table.budget > 0,
            table.receive.dom().contains(id.0),
            can_receive(is_client(*connection), id.0),
            side_of(*connection) == side_of(*old(connection)),
            pending_notices(*connection) == pending_notices(*old(connection)),
            forall|dir: Dir| #[trigger]
                acceptable(*connection, dir) == acceptable(*old(connection), dir),
            record_of(*connection) =~= (Record {
                reads: reads(*old(connection)) + calls,
                ..record_of(*old(connection))
            }),
            read_run(table.budget, id.0, calls),
            data_of(calls).len() <= table.budget,
            ended(reads(*old(connection)), id.0) && !opened_by(is_client(*old(connection)), id.0)
                && calls.len() > 0 ==> calls[0].reply is Err,
        ensures
            calls.len() > 0,
            end_of(id.0, calls.last().reply) is BudgetSpent ==> data_of(calls).len()
                == table.budget,
            ({
                let step = ReadStep {
                    probes: Seq::empty(),
                    calls,
                    data: data_of(calls),
                    end: end_of(id.0, calls.last().reply),
                };
                &&& streams@ == after_read(table, id.0, step)
                &&& callbacks@ == old(callbacks)@ + read_callbacks(id.0, step)
                &&& fails(failure, step.end)
            }),
        decreases streams@.budget,
    {
        let budget: usize = streams.receive_budget();
        if budget == 0 {
            assert(callbacks@ + Seq::<ConnectionCallback>::empty() =~= callbacks@);
            break;
        }
        let ghost before = calls;
        let reply = proto::read_chunk(connection, id.0, budget);
        proof {
            calls = before.push(ReadCall { id: id.0, max_length: budget, reply });
            assert(calls.drop_last() =~= before);
            assert(before.len() > 0 ==> calls[0] == before[0]);
            lemma_ended(reads(*old(connection)), before, id.0);
            assert(callbacks@ + Seq::<ConnectionCallback>::empty() =~= callbacks@);
        }
        match reply {
            Ok(outcome) => {
                let ghost given = outcome;
                let more: bool = streams.on_chunk(id, outcome, callbacks);
                proof {
                    let buffer = table.receive[id.0];
                    if given is Data {
                        assert(buffer.append(data_of(before)).append(given->Data_0@)
                            =~= buffer.append(data_of(calls)));
                    }
                    assert(streams@.receive =~= after_read(
                        table,
                        id.0,
                        ReadStep {
                            probes: Seq::empty(),
                            calls,
                            data: data_of(calls),
                            end: end_of(id.0, calls.last().reply),
                        },
                    ).receive);
                }
                if !more {
                    break;
                }
            },
            Err(ReadFailure::ClosedStream) => {
                failure = Some(UpdateError::ReadClosedStream(id));
                break;
            },
            Err(ReadFailure::IllegalOrderedRead) => {
                failure = Some(UpdateError::UnorderedRead(id));
                break;
            },
        }
    }
    let ghost step = ReadStep {
        probes: Seq::empty(),
        calls,
        data: data_of(calls),
        end: end_of(id.0, calls.last().reply),
    };
    (failure, Ghost(step))
}

/// Whether that is the failure with which reading came to an end.
pub open spec fn fails(failure: Option<UpdateError>, end: ReadEnd) -> bool {
    match failure {
        None => !(end is Failed),
        Some(error) => end == ReadEnd::Failed(error),
    }
}

/// Reads a stream, if this side can receive on it and there is a buffer for it; if no more bytes
/// may be received it is only opened.
fn read_stream(
    connection: &mut ProtoConnection,
    streams: &mut StreamTable,
    id: StreamId,
    callbacks: &mut Vec<ConnectionCallback>,
) -> (r: (Option<UpdateError>, Ghost<ReadStep>))
    ensures
        side_of(*final(connection)) == side_of(*old(connection)),
        pending_notices(*final(connection)) == pending_notices(*old(connection)),
        forall|dir: Dir| #[trigger]
            acceptable(*final(connection), dir) == acceptable(*old(connection), dir),
        record_of(*final(connection)) == (Record {
            probes: proto::probes(*old(connection)) + r.1@.probes,
            reads: reads(*old(connection)) + r.1@.calls,
            ..record_of(*old(connection))
        }),
        possible_read(old(streams)@, is_client(*old(connection)), id.0, r.1@),
        final(streams)@ == after_read(old(streams)@, id.0, r.1@),
        final(callbacks)@ == old(callbacks)@ + read_callbacks(id.0, r.1@),
        fails(r.0, r.1@.end),
        ended(reads(*old(connection)), id.0) && !opened_by(is_client(*old(connection)), id.0)
            && r.1@.calls.len() > 0 ==> r.1@.calls[0].reply is Err,
{
    let ghost mut step: ReadStep = ReadStep {
        probes: Seq::empty(),
        calls: Seq::empty(),
        data: Seq::empty(),
        end: ReadEnd::BudgetSpent,
    };
    assert(callbacks@ + Seq::<ConnectionCallback>::empty() =~= callbacks@);
    assert(reads(*connection) + step.calls =~= reads(*connection));
    assert(proto::probes(*connection) + step.probes =~= proto::probes(*connection));
    let failure: Option<UpdateError> = if !id.may_receive(proto::on_client_side(connection)) {
        Some(UpdateError::NotReceivable(id))
    } else if streams.receive_budget() == 0 {
        let opened = proto::open_for_reading(connection, id.0);
        proof {
            let reason = if opened is Err {
                Some(opened->Err_0)
            } else {
                None
            };
            step.probes = seq![(id.0, reason)];
            assert(proto::probes(*old(connection)) + step.probes =~= proto::probes(
                *old(connection),
            ).push((id.0, reason)));
        }
        match opened {
            Ok(()) => None,
            Err(ReadFailure::ClosedStream) => Some(UpdateError::ReadClosedStream(id)),
            Err(ReadFailure::IllegalOrderedRead) => Some(UpdateError::UnorderedRead(id)),
        }
    } else if streams.receive_stream(id).is_none() {
        Some(UpdateError::MissingReceiveStream(id))
    } else {
        let (failure, Ghost(taken)) = read_chunks(connection, streams, id, callbacks);
        assert(proto::probes(*old(connection)) + taken.probes =~= proto::probes(*old(connection)));
        return (failure, Ghost(taken));
    };
    proof {
        if failure is Some {
            step.end = ReadEnd::Failed(failure->0);
        }
    }
    (failure, Ghost(step))
}

/// Writes to a stream until nothing is left or the peer takes no more; a closed stream of
/// which nothing is left is finished and removed.
#[verifier::rlimit(40)]
fn write_stream(connection: &mut ProtoConnection, streams: &mut StreamTable, id: StreamId) -> (r: (
    Option<UpdateError>,
    Ghost<WriteStep>,
))
    requires
        can_send(is_client(*old(connection)), id.0),
        old(streams)@.send.dom().contains(id.0),
    ensures
        side_of(*final(connection)) == side_of(*old(connection)),
        pending_notices(*final(connection)) == pending_notices(*old(connection)),
        forall|dir: Dir| #[trigger]
            acceptable(*final(connection), dir) == acceptable(*old(connection), dir),
        record_of(*final(connection)) == (Record {
            offers: proto::offers(*old(connection)) + r.1@.offers,
            finishes: proto::finishes(*old(connection)) + r.1@.finishes,
            ..record_of(*old(connection))
        }),
        possible_write(old(streams)@, id.0, r.1@),
        final(streams)@ == after_write(old(streams)@, id.0, r.1@),
        match r.0 {
            None => !(r.1@.end is Failed),
            Some(error) => r.1@.end == WriteEnd::Failed(error),
        },
{
    let ghost table = streams@;
    let ghost data = table.send[id.0].data;
    let ghost mut step: WriteStep = WriteStep {
        offers: Seq::empty(),
        finishes: Seq::empty(),
        sent: 0,
        end: WriteEnd::Emptied,
    };
    assert(table.send[id.0].skip(0) =~= table.send[id.0]);
    assert(proto::offers(*connection) + step.offers =~= proto::offers(*connection));
    assert(proto::finishes(*connection) + step.finishes =~= proto::finishes(*connection));
    loop
        invariant
            can_send(is_client(*connection), id.0),
            side_of(*connection) == side_of(*old(connection)),
            pending_notices(*connection) == pending_notices(*old(connection)),
            forall|dir: Dir| #[trigger]
                acceptable(*connection, dir) == acceptable(*old(connection), dir),
            record_of(*connection) =~= (Record {
                offers: proto::offers(*old(connection)) + step.offers,
                ..record_of(*old(connection))
            }),
            table == old(streams)@,
            table.send.dom().contains(id.0),
            data == table.send[id.0].data,
            write_run(data, id.0, step.offers),
            step.offers.len() > 0 ==> (step.offers.last().outcome matches WriteOutcome::Written(n)
                && n > 0),
            step.sent == sent_by(step.offers),
            step.sent <= data.len(),
            step.finishes.len() == 0,
            step.end is Emptied,
            streams@ =~= after_sent(table, id.0, step.sent as int),
        decreases data.len() - step.sent,
    {
        assert(proto::finishes(*old(connection)) + step.finishes =~= proto::finishes(
            *old(connection),
        ));
        assert(streams@.send[id.0].data =~= data.skip(step.sent as int));
        let ghost mut rest: Seq<u8> = Seq::empty();
        let outcome = match streams.next_write(id) {
            None => {
                return (None, Ghost(step));
            },
            Some(WriteAction::Wait) => {
                assert(step.finishes =~= Seq::empty());
                return (None, Ghost(step));
            },
            Some(WriteAction::Finish) => {
                if proto::finish(connection, id.0) {
                    streams.remove_send(id);
                    proof {
                        step.finishes = seq![(id.0, true)];
                        assert(proto::finishes(*old(connection)) + step.finishes
                            =~= proto::finishes(*old(connection)).push((id.0, true)));
                    }
                    return (None, Ghost(step));
                }
                proof {
                    step.finishes = seq![(id.0, false)];
                    step.end = WriteEnd::Failed(UpdateError::FinishFailed(id));
                    assert(proto::finishes(*old(connection)) + step.finishes =~= proto::finishes(
                        *old(connection),
                    ).push((id.0, false)));
                }
                return (Some(UpdateError::FinishFailed(id)), Ghost(step));
            },
            Some(WriteAction::Send(bytes)) => {
                proof {
                    rest = bytes@;
                }
                proto::write(connection, id.0, bytes)
            },
        };
        proof {
            let before = step.offers;
            step.offers = before.push(Offer { id: id.0, data: rest, outcome });
            assert(step.offers.drop_last() =~= before);
            step.sent = sent_by(step.offers);
        }
        match outcome {
            WriteOutcome::Written(n) => {
                streams.on_sent(id, n);
                proof {
                    let buffer = table.send[id.0];
                    assert(buffer.skip(step.sent - n).skip(n as int) =~= buffer.skip(
                        step.sent as int,
                    ));
                }
                if n == 0 {
                    proof {
                        step.end = WriteEnd::Stalled;
                    }
                    return (None, Ghost(step));
                }
            },
            WriteOutcome::Blocked => {
                proof {
                    step.end = WriteEnd::Blocked;
                }
                return (None, Ghost(step));
            },
            WriteOutcome::ClosedStream => {
                proof {
                    step.end = WriteEnd::Failed(UpdateError::WroteClosedStream(id));
                }
                return (Some(UpdateError::WroteClosedStream(id)), Ghost(step));
            },
            WriteOutcome::Stopped(code) => {
                proof {
                    step.end = WriteEnd::Failed(UpdateError::WroteStoppedStream(id, code));
                }
                return (Some(UpdateError::WroteStoppedStream(id, code)), Ghost(step));
            },
        }
    }
}

/// Whether opening a stream in that direction takes a connection from `before` to `after`: the
/// protocol is asked for that, once, and for nothing else. The stream is the next one that this
/// side can open, and gets a send buffer. It can be reset. If there is none, the buffers stay
/// as they are.
pub open spec fn opens(
    before: Connection,
    after: Connection,
    dir: Dir,
    opened: Option<StreamId>,
) -> bool {
    &&& after.record() == (Record {
        opened: before.record().opened.push((dir, next_open(before.proto(), dir))),
        ..before.record()
    })
    &&& match next_open(before.proto(), dir) {
        Some(number) => {
            &&& opened == Some(StreamId(number))
            &&& direction(number) == dir
            &&& opened_by(before.client(), number)
            &&& can_send(before.client(), number)
            &&& after@ == after_open(before@, number)
            &&& resettable(after.proto(), number)
        },
        None => opened is None && after@ == before@,
    }
}

/// Opening a stream gives the number that the protocol has for it, of the right kind, and an
/// empty, open send buffer, on either side; every other buffer, and all else, is as before. If the
/// protocol has none, nothing changes. Either way the protocol is asked for one stream, and for
/// nothing else.
pub proof fn law_opening_a_stream_gives_it_a_send_buffer(
    before: Connection,
    after: Connection,
    dir: Dir,
    opened: Option<StreamId>,
    other: u64,
)
    requires
        opens(before, after, dir, opened),
    ensures
        opened is Some <==> next_open(before.proto(), dir) is Some,
        opened matches Some(id) ==> {
            &&& next_open(before.proto(), dir) == Some(id.0)
            &&& direction(id.0) == dir && opened_by(before.client(), id.0)
            &&& after@.send.dom() == before@.send.dom().insert(id.0)
            &&& after@.send[id.0].data.len() == 0 && !after@.send[id.0].closed
            &&& other != id.0 && before@.send.dom().contains(other) ==> after@.send[other]
                == before@.send[other]
        },
        opened is None ==> after@.send == before@.send,
        after@.receive == before@.receive,
        after@.readable == before@.readable,
        after@.connected == before@.connected,
        after@.budget == before@.budget,
        after.record().opened.len() == before.record().opened.len() + 1,
        after.record().opened.last() == (dir, match opened {
            Some(id) => Some(id.0),
            None => None,
        }),
        after.record() == (Record { opened: after.record().opened, ..before.record() }),
        before.record().opened.is_prefix_of(after.record().opened),
{
    let earlier = before.record().opened;
    assert(earlier =~= after.record().opened.subrange(0, earlier.len() as int));
    if let Some(id) = opened {
        assert(after@.send.dom() =~= before@.send.dom().insert(id.0));
    }
}

/// A connection stays the one that it is: the endpoint knows it by the same handle, and this side
/// stays the client, or does not become it. As long as there is no transmit the contents of the
/// last one stay as they are.
pub proof fn law_connections_stay_what_they_are(before: Connection, after: Connection)
    requires
        after.continues(&before),
    ensures
        after.handle() == before.handle(),
        after.client() == before.client(),
        after.keeps(&before) <==> after.outgoing() == before.outgoing(),
{
}

/// Whether the protocol has nothing left for the endpoint, and no stream to be accepted.
pub open spec fn settled(connection: ProtoConnection) -> bool {
    &&& pending_notices(connection).len() == 0
    &&& acceptable(connection, Dir::Uni).len() == 0
    &&& acceptable(connection, Dir::Bi).len() == 0
}

/// Whether an update at that time can take a connection from `before` to `after`, and its endpoint
/// likewise, with that report, and make it report these things: that is what comes of what the
/// protocol gave, as the records of the calls on it show. Unless it stops early it leaves nothing
/// unsettled.
pub open spec fn updated(
    before: Connection,
    after: Connection,
    endpoint_before: ProtoEndpoint,
    endpoint_after: ProtoEndpoint,
    now: Instant,
    report: UpdateReport,
    reported: Seq<ConnectionCallback>,
) -> bool {
    &&& after.wf()
    &&& after.keeps(&before)
    &&& report.failure != Some(UpdateError::EventAfterDrained) ==> settled(after.proto())
    &&& exists|trace: UpdateTrace|
        {
            &&& #[trigger] explains(trace, before, after, now, report.failure)
            &&& informs(trace, before.handle(), endpoint_before, endpoint_after)
            &&& trace.drained() == report.drained
            &&& reported == trace.callbacks(before.handle())
        }
}

/// Whether that is what the protocol gave when an update at that time took a connection from
/// `before` to `after`, and failed if there is a failure.
pub open spec fn explains(
    trace: UpdateTrace,
    before: Connection,
    after: Connection,
    now: Instant,
    failure: Option<UpdateError>,
) -> bool {
    &&& after.record() == trace.record_after(
        before.record(),
        timeouts_after(before.proto(), now),
    )
    &&& after.side() == trace.side_after(before.side())
    &&& after@ == trace.left(before@, failure)
    &&& match failure {
        None => trace.possible(before@, before.side()),
        Some(error) => trace.stopped(before@, before.side(), error),
    }
    &&& respects_ends(trace, before)
}

/// Whether a stream of the peer of which reading had come to the end could not be read again.
pub open spec fn respects_ends(trace: UpdateTrace, before: Connection) -> bool {
    respectful(reads(before.proto()), before.client(), trace.read, trace.steps)
}

/// Whether none of the steps read a stream of the peer of which reading had come to the end after
/// these attempts.
pub open spec fn respectful(
    calls: Seq<ReadCall>,
    client: bool,
    ids: Seq<u64>,
    steps: Seq<ReadStep>,
) -> bool {
    forall|i: int|
        0 <= i < steps.len() && (#[trigger] steps[i]).calls.len() > 0 && ended(calls, ids[i])
            && !opened_by(client, ids[i]) ==> steps[i].calls[0].reply is Err
}

/// One more step does not read such a stream if it cannot after what was read meanwhile.
proof fn lemma_respectful(
    calls: Seq<ReadCall>,
    client: bool,
    ids: Seq<u64>,
    steps: Seq<ReadStep>,
    step: ReadStep,
)
    requires
        respectful(calls, client, ids, steps),
        ended(calls + calls_of(steps), ids[steps.len() as int]) && !opened_by(
            client,
            ids[steps.len() as int],
        ) && step.calls.len() > 0 ==> step.calls[0].reply is Err,
    ensures
        respectful(calls, client, ids, steps.push(step)),
{
    let all = steps.push(step);
    lemma_ended(calls, calls_of(steps), ids[steps.len() as int]);
    assert forall|i: int|
        0 <= i < all.len() && (#[trigger] all[i]).calls.len() > 0 && ended(calls, ids[i])
            && !opened_by(client, ids[i]) implies all[i].calls[0].reply is Err by {
        if i < steps.len() {
            assert(steps[i] == all[i]);
        }
    }
}

/// Whether the endpoint has been told every event of the connection with that handle, and answered
/// so, and nothing else.
pub open spec fn informs(
    trace: UpdateTrace,
    handle: usize,
    before: ProtoEndpoint,
    after: ProtoEndpoint,
) -> bool {
    &&& same_setup(before, after)
    &&& endpoint_record(after) == (EndpointRecord {
        told: told(before) + told_of(handle, trace.relays),
        ..endpoint_record(before)
    })
    &&& live_handles(after) == if trace.drained() {
        live_handles(before).remove(handle)
    } else {
        live_handles(before)
    }
}

impl Connection {
    /// The protocol's state.
    pub closed spec fn proto(&self) -> ProtoConnection {
        self.connection
    }

    /// The handle by which the endpoint knows the connection.
    pub closed spec fn handle(&self) -> usize {
        self.handle
    }

    /// The contents of the last transmit.
    pub closed spec fn outgoing(&self) -> Seq<u8> {
        self.send_buffer@
    }

    /// Whether this side is the client.
    pub open spec fn client(&self) -> bool {
        is_client(self.proto())
    }

    /// This side of the connection.
    pub open spec fn side(&self) -> SideView {
        side_of(self.proto())
    }

    /// What the protocol has been asked, so far, and what it replied.
    pub open spec fn record(&self) -> Record {
        record_of(self.proto())
    }

    /// Buffers are only kept for streams that carry data in their direction, and that this side
    /// opened or accepted; and reading has come to the end of every closed one.
    pub open spec fn wf(&self) -> bool {
        fits(self@, self.side()) && marked(self@, reads(self.proto()))
    }

    /// Whether this is the connection that `before` was, at some later time.
    pub open spec fn continues(&self, before: &Connection) -> bool {
        self.handle() == before.handle() && self.client() == before.client()
    }

    /// Whether this is the connection that `before` was, at some later time, with no transmit in
    /// between.
    pub open spec fn keeps(&self, before: &Connection) -> bool {
        self.continues(before) && self.outgoing() == before.outgoing()
    }

    /// Takes in every application event that the protocol holds.
    fn poll_events(&mut self, callbacks: &mut Vec<ConnectionCallback>)
        requires
            old(self).wf(),
        ensures
            final(self).wf(),
            final(self).side() == old(self).side(),
            final(self).keeps(old(self)),
            final(self).record() == (Record {
                polled: old(self).record().polled + round(pending_events(old(self).proto())),
                ..old(self).record()
            }),
            final(self)@ == after_events(old(self)@, pending_events(old(self).proto())),
            final(callbacks)@ == old(callbacks)@ + events_callbacks(
                old(self).handle(),
                pending_events(old(self).proto()),
            ),
            pending_notices(final(self).proto()) == pending_notices(old(self).proto()),
    {
        let ghost events = pending_events(self.connection);
        let ghost table = self@;
        let ghost mut taken: Seq<ProtoEvent> = Seq::empty();
        loop
            invariant_except_break
                self.record() =~= (Record {
                    polled: old(self).record().polled + round(taken).drop_last(),
                    ..old(self).record()
                }),
            invariant
                self.side() == old(self).side(),
                self.keeps(old(self)),
                pending_notices(self.proto()) == pending_notices(old(self).proto()),
                after_events(self@, pending_events(self.proto())) == after_events(table, events),
                callbacks@ + events_callbacks(self.handle(), pending_events(self.proto()))
                    =~= old(callbacks)@ + events_callbacks(self.handle(), events),
                taken + pending_events(self.proto()) =~= events,
            ensures
                pending_events(self.proto()).len() == 0,
                self.record() =~= (Record {
                    polled: old(self).record().polled + round(taken),
                    ..old(self).record()
                }),
            decreases pending_events(self.proto()).len(),
        {
            let ghost before = self@;
            let ghost earlier = taken;
            let handle: usize = self.handle;
            match proto::poll_event(&mut self.connection) {
                Some(event) => {
                    proof {
                        taken = earlier.push(event);
                        assert(round(taken).drop_last() =~= round(earlier).drop_last().push(
                            Some(event),
                        ));
                        lemma_events_first(before, handle, event, pending_events(self.proto()));
                    }
                    self.streams.on_event(handle, event, callbacks);
                },
                None => {
                    assert(round(taken) =~= round(taken).drop_last().push(None));
                    break;
                },
            }
        }
        proof {
            assert(taken =~= events);
            lemma_events_fit(table, old(self).side(), events);
            lemma_events_keep_receive(table, events);
        }
    }

    /// Lets the protocol handle its timers, if the deadline of one has been reached, and takes in
    /// the events that it holds.
    fn poll_timers(&mut self, now: Instant, callbacks: &mut Vec<ConnectionCallback>) -> (events:
        Ghost<Seq<ProtoEvent>>)
        requires
            old(self).wf(),
        ensures
            final(self).wf(),
            final(self).side() == old(self).side(),
            final(self).keeps(old(self)),
            final(self).record() == (Record {
                polled: old(self).record().polled + round(events@),
                timeouts: timeouts_after(old(self).proto(), now),
                ..old(self).record()
            }),
            final(self)@ == after_events(old(self)@, events@),
            final(callbacks)@ == old(callbacks)@ + events_callbacks(old(self).handle(), events@),
    {
        let deadline: Option<Instant> = proto::poll_timeout(&mut self.connection);
        if timer_due(deadline, now) {
            proto::handle_timeout(&mut self.connection, now);
        }
        let ghost events = pending_events(self.connection);
        self.poll_events(callbacks);
        Ghost(events)
    }

    /// Hands the events for the endpoint to it, and the identifiers that it issues back to
    /// the protocol; tells whether the connection is drained.
    #[verifier::rlimit(40)]
    fn relay_notices(
        &mut self,
        endpoint: &mut ProtoEndpoint,
        callbacks: &mut Vec<ConnectionCallback>,
    ) -> (r: (bool, Option<UpdateError>, Ghost<Seq<Relay>>))
        requires
            old(self).wf(),
            live_handles(*old(endpoint)).contains(old(self).handle()),
        ensures
            final(self).wf(),
            final(self).side() == old(self).side(),
            final(self).keeps(old(self)),
            final(self).record() == (Record {
                polled: old(self).record().polled + relay_polls(r.2@),
                noticed: old(self).record().noticed + if r.1 is Some {
                    notices_of(r.2@).push(false)
                } else {
                    notices_of(r.2@)
                },
                renewed: old(self).record().renewed + renewals(
                    old(self).record().noticed.len(),
                    old(self).record().polled.len(),
                    r.2@,
                ),
                ..old(self).record()
            }),
            final(self)@ == after_events(old(self)@, relay_events(r.2@)),
            final(callbacks)@ == old(callbacks)@ + events_callbacks(
                old(self).handle(),
                relay_events(r.2@),
            ),
            same_setup(*old(endpoint), *final(endpoint)),
            endpoint_record(*final(endpoint)) == (EndpointRecord {
                told: told(*old(endpoint)) + told_of(old(self).handle(), r.2@),
                ..endpoint_record(*old(endpoint))
            }),
            live_handles(*final(endpoint)) == if r.0 {
                live_handles(*old(endpoint)).remove(old(self).handle())
            } else {
                live_handles(*old(endpoint))
            },
            r.0 == notices_of(r.2@).contains(true),
            orderly(notices_of(r.2@)),
            forall|i: int|
                0 <= i < r.2@.len() && (#[trigger] r.2@[i]).answer is None
                    ==> r.2@[i].events.len() == 0,
            match r.1 {
                None => pending_notices(final(self).proto()).len() == 0,
                Some(error) => error is EventAfterDrained && r.0,
            },
    {
        let ghost start = self.record();
        let ghost mut relays: Seq<Relay> = Seq::empty();
        let mut drained: bool = false;
        assert(start.polled + relay_polls(relays) =~= start.polled);
        assert(start.noticed + notices_of(relays) =~= start.noticed);
        assert(start.renewed + renewals(start.noticed.len(), start.polled.len(), relays)
            =~= start.renewed);
        assert(told(*endpoint) + told_of(self.handle(), relays) =~= told(*endpoint));
        loop
            invariant
                self.wf(),
                self.side() == old(self).side(),
                self.keeps(old(self)),
                start == old(self).record(),
                live_handles(*old(endpoint)).contains(self.handle()),
                orderly(notices_of(relays)),
                forall|i: int|
                    0 <= i < relays.len() && (#[trigger] relays[i]).answer is None
                        ==> relays[i].events.len() == 0,
                self.record() =~= (Record {
                    polled: start.polled + relay_polls(relays),
                    noticed: start.noticed + notices_of(relays),
                    renewed: start.renewed + renewals(
                        start.noticed.len(),
                        start.polled.len(),
                        relays,
                    ),
                    ..start
                }),
                drained == notices_of(relays).contains(true),
                same_setup(*old(endpoint), *endpoint),
                endpoint_record(*endpoint) =~= (EndpointRecord {
                    told: told(*old(endpoint)) + told_of(self.handle(), relays),
                    ..endpoint_record(*old(endpoint))
                }),
                live_handles(*endpoint) == if drained {
                    live_handles(*old(endpoint)).remove(self.handle())
                } else {
                    live_handles(*old(endpoint))
                },
                self@ == after_events(old(self)@, relay_events(relays)),
                callbacks@ == old(callbacks)@ + events_callbacks(
                    self.handle(),
                    relay_events(relays),
                ),
            ensures
                pending_notices(self.proto()).len() == 0,
            decreases pending_notices(self.proto()).len(),
        {
            match proto::poll_notice(&mut self.connection) {
                None => {
                    break;
                },
                Some(notice) => {
                    let last: bool = notice.is_drained();
                    if drained && !last {
                        assert(start.noticed + notices_of(relays).push(false) =~= (start.noticed
                            + notices_of(relays)).push(false));
                        return (true, Some(UpdateError::EventAfterDrained), Ghost(relays));
                    }
                    drained = drained || last;
                    let answer = proto::handle_notice(endpoint, self.handle, notice);
                    let ghost before = relays;
                    let ghost mut relay: Relay = Relay {
                        drained: last,
                        answer: if answer is Some {
                            Some(answer->0.event)
                        } else {
                            None
                        },
                        events: Seq::empty(),
                    };
                    if let Some(identifiers) = answer {
                        proto::handle_identifiers(&mut self.connection, identifiers);
                        proof {
                            relay.events = pending_events(self.connection);
                            lemma_events_concat(
                                old(self)@,
                                self.handle(),
                                relay_events(before),
                                relay.events,
                            );
                        }
                        self.poll_events(callbacks);
                    }
                    proof {
                        relays = before.push(relay);
                        assert(relays.drop_last() =~= before);
                        assert(notices_of(relays) =~= notices_of(before).push(last));
                        lemma_push_true(notices_of(before), last);
                        lemma_push_orderly(notices_of(before), last);
                        assert(told_of(self.handle(), relays) =~= told_of(
                            self.handle(),
                            before,
                        ).push(
                            Told { handle: self.handle(), drained: last, answer: relay.answer },
                        ));
                        if relay.answer is None {
                            assert(relay_events(relays) =~= relay_events(before));
                        }
                    }
                },
            }
        }
        (drained, None, Ghost(relays))
    }

    /// Accepts every stream in that direction that the peer opened.
    fn accept_streams(&mut self, dir: Dir, callbacks: &mut Vec<ConnectionCallback>)
        requires
            old(self).wf(),
        ensures
            final(self).wf(),
            pending_notices(final(self).proto()) == pending_notices(old(self).proto()),
            final(self).keeps(old(self)),
            final(self).record() == old(self).record(),
            final(self)@ == after_accepts(old(self)@, dir, acceptable(old(self).proto(), dir)),
            final(callbacks)@ == old(callbacks)@ + accepts_callbacks(
                dir,
                acceptable(old(self).proto(), dir),
            ),
            remote_streams(old(self).side(), dir, acceptable(old(self).proto(), dir)),
            final(self).side() == old(self).side().accepts(
                dir,
                acceptable(old(self).proto(), dir).len(),
            ),
            acceptable(final(self).proto(), dir).len() == 0,
            forall|other: Dir| other != dir ==> #[trigger]
                acceptable(final(self).proto(), other) == acceptable(old(self).proto(), other),
    {
        let ghost ids = acceptable(self.connection, dir);
        let ghost mut accepted: Seq<u64> = Seq::empty();
        loop
            invariant
                self.wf(),
                pending_notices(self.proto()) == pending_notices(old(self).proto()),
                self.keeps(old(self)),
                self.record() == old(self).record(),
                ids == acceptable(old(self).proto(), dir),
                accepted + acceptable(self.proto(), dir) =~= ids,
                remote_streams(old(self).side(), dir, accepted),
                self.side() == old(self).side().accepts(dir, accepted.len()),
                after_accepts(self@, dir, acceptable(self.proto(), dir)) == after_accepts(
                    old(self)@,
                    dir,
                    ids,
                ),
                callbacks@ + accepts_callbacks(dir, acceptable(self.proto(), dir))
                    =~= old(callbacks)@ + accepts_callbacks(dir, ids),
                forall|other: Dir| other != dir ==> #[trigger]
                    acceptable(self.proto(), other) == acceptable(old(self).proto(), other),
            ensures
                acceptable(self.proto(), dir).len() == 0,
            decreases acceptable(self.proto(), dir).len(),
        {
            let ghost before = self@;
            match proto::accept_stream(&mut self.connection, dir) {
                Some(id) => {
                    proof {
                        lemma_accepts_first(before, dir, id, acceptable(self.proto(), dir));
                        accepted = accepted.push(id);
                    }
                    self.streams.on_accept(dir, StreamId(id), callbacks);
                },
                None => {
                    break;
                },
            }
        }
        assert(accepted == ids);
    }

    /// Reads the streams that have data ready to be read.
    #[verifier::rlimit(40)]
    fn read_streams(&mut self, callbacks: &mut Vec<ConnectionCallback>) -> (r: (
        Option<UpdateError>,
        Ghost<Seq<u64>>,
        Ghost<Seq<ReadStep>>,
    ))
        requires
            old(self).wf(),
        ensures
            final(self).wf(),
            pending_notices(final(self).proto()) == pending_notices(old(self).proto()),
            final(self).side() == old(self).side(),
            final(self).keeps(old(self)),
            forall|dir: Dir| #[trigger]
                acceptable(final(self).proto(), dir) == acceptable(old(self).proto(), dir),
            final(self).record() == (Record {
                probes: old(self).record().probes + probes_of(r.2@),
                reads: old(self).record().reads + calls_of(r.2@),
                ..old(self).record()
            }),
            ({
                let table = TableView { readable: Set::empty(), ..old(self)@ };
                &&& lists(r.1@, old(self)@.readable)
                &&& possible_reads(table, old(self).client(), r.1@, r.2@)
                &&& final(self)@ == after_reads(table, r.1@, r.2@)
                &&& final(callbacks)@ == old(callbacks)@ + reads_callbacks(r.1@, r.2@)
            }),
            r.2@.len() <= r.1@.len(),
            match r.0 {
                None => r.2@.len() == r.1@.len() && (r.2@.len() > 0 ==> !(r.2@.last().end
                    is Failed)),
                Some(error) => r.2@.len() > 0 && r.2@.last().end == ReadEnd::Failed(error),
            },
            respectful(reads(old(self).proto()), old(self).client(), r.1@, r.2@),
    {
        let ids: Vec<u64> = self.streams.take_readable();
        let ghost table = self@;
        let ghost start = self.record();
        let ghost mut steps: Seq<ReadStep> = Seq::empty();
        assert(start.probes + probes_of(steps) =~= start.probes);
        assert(start.reads + calls_of(steps) =~= start.reads);
        for i in 0..ids.len()
            invariant
                self.wf(),
                pending_notices(self.proto()) == pending_notices(old(self).proto()),
                self.side() == old(self).side(),
                self.keeps(old(self)),
                forall|dir: Dir| #[trigger]
                    acceptable(self.proto(), dir) == acceptable(old(self).proto(), dir),
                start == old(self).record(),
                self.record() =~= (Record {
                    probes: start.probes + probes_of(steps),
                    reads: start.reads + calls_of(steps),
                    ..start
                }),
                table == (TableView { readable: Set::empty(), ..old(self)@ }),
                lists(ids@, old(self)@.readable),
                steps.len() == i,
                steps.len() > 0 ==> !(steps.last().end is Failed),
                possible_reads(table, old(self).client(), ids@, steps),
                self@ == after_reads(table, ids@, steps),
                callbacks@ == old(callbacks)@ + reads_callbacks(ids@, steps),
                respectful(start.reads, old(self).client(), ids@, steps),
        {
            let ghost earlier = self.record().reads;
            let ghost at = self@;
            let (failure, Ghost(step)) = read_stream(
                &mut self.connection,
                &mut self.streams,
                StreamId(ids[i]),
                callbacks,
            );
            proof {
                let id = ids@[i as int];
                let before = steps;
                steps = before.push(step);
                assert(steps.drop_last() =~= before);
                assert(start.reads + calls_of(steps) =~= earlier + step.calls);
                lemma_respectful(start.reads, old(self).client(), ids@, before, step);
                lemma_read_marks(at, self.client(), id, step, earlier);
                assert(self@.receive.dom() =~= at.receive.dom());
            }
            if failure.is_some() {
                return (failure, Ghost(ids@), Ghost(steps));
            }
        }
        (None, Ghost(ids@), Ghost(steps))
    }

    /// Writes to the streams that have data to be sent, and finishes those that are closed
    /// and have none left.
    #[verifier::rlimit(40)]
    fn write_streams(&mut self) -> (r: (
        Option<UpdateError>,
        Ghost<Seq<u64>>,
        Ghost<Seq<WriteStep>>,
    ))
        requires
            old(self).wf(),
        ensures
            final(self).wf(),
            pending_notices(final(self).proto()) == pending_notices(old(self).proto()),
            final(self).side() == old(self).side(),
            final(self).keeps(old(self)),
            forall|dir: Dir| #[trigger]
                acceptable(final(self).proto(), dir) == acceptable(old(self).proto(), dir),
            final(self).record() == (Record {
                offers: old(self).record().offers + offers_of(r.2@),
                finishes: old(self).record().finishes + finishes_of(r.2@),
                ..old(self).record()
            }),
            lists(r.1@, old(self)@.send.dom()),
            r.2@.len() <= r.1@.len(),
            possible_writes(old(self)@, r.1@, r.2@),
            final(self)@ == after_writes(old(self)@, r.1@, r.2@),
            match r.0 {
                None => r.2@.len() == r.1@.len() && (r.2@.len() > 0 ==> !(r.2@.last().end
                    is Failed)),
                Some(error) => r.2@.len() > 0 && r.2@.last().end == WriteEnd::Failed(error),
            },
    {
        let ids: Vec<u64> = self.streams.send_numbers();
        let ghost start = self.record();
        let ghost mut steps: Seq<WriteStep> = Seq::empty();
        assert(start.offers + offers_of(steps) =~= start.offers);
        assert(start.finishes + finishes_of(steps) =~= start.finishes);
        for i in 0..ids.len()
            invariant
                self.wf(),
                pending_notices(self.proto()) == pending_notices(old(self).proto()),
                self.side() == old(self).side(),
                self.keeps(old(self)),
                forall|dir: Dir| #[trigger]
                    acceptable(self.proto(), dir) == acceptable(old(self).proto(), dir),
                start == old(self).record(),
                self.record() =~= (Record {
                    offers: start.offers + offers_of(steps),
                    finishes: start.finishes + finishes_of(steps),
                    ..start
                }),
                lists(ids@, old(self)@.send.dom()),
                steps.len() == i,
                steps.len() > 0 ==> !(steps.last().end is Failed),
                possible_writes(old(self)@, ids@, steps),
                self@ == after_writes(old(self)@, ids@, steps),
                forall|j: int| i <= j < ids@.len() ==> #[trigger]
                    self@.send.dom().contains(ids@[j]),
        {
            let id: u64 = ids[i];
            let ghost at = self.record();
            assert(self@.send.dom().contains(ids@[i as int]));
            let (failure, Ghost(step)) = write_stream(
                &mut self.connection,
                &mut self.streams,
                StreamId(id),
            );
            proof {
                let before = steps;
                steps = before.push(step);
                assert(steps.drop_last() =~= before);
                assert(start.offers + offers_of(steps) =~= at.offers + step.offers);
                assert(start.finishes + finishes_of(steps) =~= at.finishes + step.finishes);
            }
            if failure.is_some() {
                return (failure, Ghost(ids@), Ghost(steps));
            }
        }
        (None, Ghost(ids@), Ghost(steps))
    }

    /// Lets the protocol handle its timers, passes events between it and the endpoint, and
    /// accepts the streams that the peer opened; tells whether the connection is drained.
    #[verifier::rlimit(40)]
    fn poll(
        &mut self,
        now: Instant,
        endpoint: &mut ProtoEndpoint,
        callbacks: &mut Vec<ConnectionCallback>,
    ) -> (r: (bool, Option<UpdateError>, Ghost<UpdateTrace>))
        requires
            old(self).wf(),
            live_handles(*old(endpoint)).contains(old(self).handle()),
        ensures
            final(self).wf(),
            final(self).side() == r.2@.side_after(old(self).side()),
            final(self).keeps(old(self)),
            final(self).record() == r.2@.record_after(
                old(self).record(),
                timeouts_after(old(self).proto(), now),
            ),
            informs(r.2@, old(self).handle(), *old(endpoint), *final(endpoint)),
            r.2@.drained() == r.0,
            r.2@.read.len() == 0 && r.2@.steps.len() == 0 && r.2@.before_writing(),
            r.2@.possible_relays(),
            final(callbacks)@ == old(callbacks)@ + r.2@.reading_callbacks(old(self).handle()),
            match r.1 {
                None => {
                    &&& !r.2@.surplus
                    &&& remote_streams(old(self).side(), Dir::Uni, r.2@.uni)
                    &&& remote_streams(old(self).side(), Dir::Bi, r.2@.bi)
                    &&& final(self)@ == r.2@.accepted(old(self)@)
                    &&& settled(final(self).proto())
                },
                Some(error) => {
                    &&& error is EventAfterDrained
                    &&& r.2@.stopped_early()
                    &&& final(self)@ == after_events(old(self)@, r.2@.events())
                },
            },
    {
        let ghost start = self.record();
        let Ghost(first) = self.poll_timers(now, callbacks);
        let (drained, failure, Ghost(relays)) = self.relay_notices(endpoint, callbacks);
        if drained {
            callbacks.push(ConnectionCallback::CloseConnection);
        }
        let ghost mut trace: UpdateTrace = UpdateTrace {
            first,
            relays,
            surplus: failure is Some,
            uni: Seq::empty(),
            bi: Seq::empty(),
            read: Seq::empty(),
            steps: Seq::empty(),
            finished: Seq::empty(),
            written: Seq::empty(),
            writes: Seq::empty(),
        };
        proof {
            lemma_events_concat(old(self)@, self.handle(), first, relay_events(relays));
            assert(self.record() =~= trace.record_after(
                start,
                timeouts_after(old(self).proto(), now),
            ));
        }
        if failure.is_some() {
            return (drained, failure, Ghost(trace));
        }
        proof {
            trace.uni = acceptable(self.proto(), Dir::Uni);
        }
        self.accept_streams(Dir::Uni, callbacks);
        proof {
            trace.bi = acceptable(self.proto(), Dir::Bi);
        }
        self.accept_streams(Dir::Bi, callbacks);
        (drained, None, Ghost(trace))
    }

    /// The state of a connection that the protocol has just made.
    pub(crate) fn new(handle: usize, connection: ProtoConnection, receive_budget: usize) -> (r:
        Connection)
        ensures
            r.proto() == connection,
            r.handle() == handle,
            r@ == fresh_table(receive_budget as nat),
            r.wf(),
            !r@.connected,
            r@.readable == Set::<u64>::empty(),
            r@.receive.dom() == Set::<u64>::empty(),
            r@.send.dom() == Set::<u64>::empty(),
            r@.budget == receive_budget,
            r.outgoing().len() == 0,
    {
        Connection {
            connection,
            handle,
            send_buffer: Vec::new(),
            streams: StreamTable::new(receive_budget),
        }
    }

    /// Gives the next datagrams that are to be transmitted, if there are any. Their contents
    /// are then in [`Connection::send_buffer`].
    ///
    /// To be called, before an update, until it gives nothing.
    pub fn poll_transmit(&mut self, now: Instant, max_datagrams: usize) -> (r: Option<Transmit>)
        requires
            max_datagrams > 0,
            affordable(max_datagrams),
        ensures
            final(self)@ == old(self)@,
            final(self).side() == old(self).side(),
            final(self).continues(old(self)),
            final(self).record() == (Record {
                transmit_polls: old(self).record().transmit_polls.push(
                    TransmitPoll {
                        now,
                        max_datagrams,
                        outcome: match r {
                            Some(transmit) => Some((transmit, final(self).outgoing())),
                            None => None,
                        },
                    },
                ),
                ..old(self).record()
            }),
            r matches Some(transmit) ==> transmit.size == final(self).outgoing().len(),
    {
        self.send_buffer.clear();
        self.send_buffer.reserve(proto::current_mtu(&self.connection) as usize);
        proto::poll_transmit(&mut self.connection, now, max_datagrams, &mut self.send_buffer)
    }

    /// The contents of the last transmit.
    pub fn send_buffer(&self) -> (r: &[u8])
        ensures
            r@ == self.outgoing(),
    {
        self.send_buffer.as_slice()
    }

    /// Performs the polls that the protocol asks for, once everything has been transmitted:
    /// handles its timer, passes events between it and the endpoint, accepts the streams that
    /// the peer opened, reads the streams that have data, removes those that have been read to
    /// the end, and writes what is buffered to be sent.
    #[verifier::rlimit(40)]
    pub fn update(
        &mut self,
        now: Instant,
        endpoint: &mut ProtoEndpoint,
        callbacks: &mut Vec<ConnectionCallback>,
    ) -> (report: UpdateReport)
        requires
            old(self).wf(),
            live_handles(*old(endpoint)).contains(old(self).handle()),
        ensures
            updated(
                *old(self),
                *final(self),
                *old(endpoint),
                *final(endpoint),
                now,
                report,
                final(callbacks)@.skip(old(callbacks)@.len() as int),
            ),
            old(callbacks)@.is_prefix_of(final(callbacks)@),
    {
        let (drained, failure, Ghost(polled)) = self.poll(now, endpoint, callbacks);
        let ghost mut trace: UpdateTrace = polled;
        if failure.is_some() {
            proof {
                assert(explains(trace, *old(self), *self, now, failure));
                lemma_reported(old(callbacks)@, callbacks@, trace.callbacks(self.handle()));
            }
            return UpdateReport { drained, failure };
        }
        let (failure, Ghost(read), Ghost(steps)) = self.read_streams(callbacks);
        proof {
            trace.read = read;
            trace.steps = steps;
            assert(self.record() =~= trace.record_after(
                old(self).record(),
                timeouts_after(old(self).proto(), now),
            ));
        }
        if failure.is_some() {
            proof {
                assert(explains(trace, *old(self), *self, now, failure));
                lemma_reported(old(callbacks)@, callbacks@, trace.callbacks(self.handle()));
            }
            return UpdateReport { drained, failure };
        }
        let ghost read_out = self@;
        let ghost reported = callbacks@;
        self.streams.remove_finished(callbacks);
        proof {
            trace.finished = choose|ids: Seq<u64>|
                {
                    &&& #[trigger] lists(ids, finished_streams(read_out))
                    &&& callbacks@ == reported + finished_callbacks(ids)
                };
        }
        let (failure, Ghost(written), Ghost(writes)) = self.write_streams();
        proof {
            trace.written = written;
            trace.writes = writes;
            assert(self.record() =~= trace.record_after(
                old(self).record(),
                timeouts_after(old(self).proto(), now),
            ));
            assert(explains(trace, *old(self), *self, now, failure));
            lemma_reported(old(callbacks)@, callbacks@, trace.callbacks(self.handle()));
        }
        UpdateReport { drained, failure }
    }

    /// Takes in a datagram from the peer.
    pub(crate) fn handle_datagram(&mut self, datagram: RoutedDatagram)
        ensures
            final(self)@ == old(self)@,
            final(self).side() == old(self).side(),
            final(self).keeps(old(self)),
            final(self).record() == (Record {
                heard: old(self).record().heard.push(datagram.event),
                ..old(self).record()
            }),
    {
        proto::handle_datagram(&mut self.connection, datagram);
    }

    /// The protocol's state.
    pub fn protocol(&self) -> (r: &ProtoConnection)
        ensures
            *r == self.proto(),
    {
        &self.connection
    }

    /// Whether this side is the client of the connection.
    pub fn is_client(&self) -> (r: bool)
        ensures
            r == self.client(),
    {
        proto::on_client_side(&self.connection)
    }

    /// Gets connection statistics.
    pub fn get_statistics(&self) -> (r: quinn_proto::ConnectionStats)
        ensures
            r == statistics(self.proto()),
    {
        proto::stats(&self.connection)
    }

    /// Opens a stream in that direction and creates a [`SendBuffer`] for it.
    fn open(&mut self, dir: Dir) -> (r: Option<StreamId>)
        requires
            old(self).wf(),
        ensures
            final(self).wf(),
            final(self).side() == old(self).side(),
            final(self).keeps(old(self)),
            opens(*old(self), *final(self), dir, r),
    {
        match proto::open_stream(&mut self.connection, dir) {
            Some(id) => {
                self.streams.on_open(StreamId(id));
                Some(StreamId(id))
            },
            None => None,
        }
    }

    /// Opens a unidirectional stream and creates a [`SendBuffer`] with the returned [`StreamId`].
    ///
    /// Returns `None` if streams are exhausted.
    pub fn open_uni(&mut self) -> (r: Option<StreamId>)
        requires
            old(self).wf(),
        ensures
            final(self).wf(),
            final(self).side() == old(self).side(),
            final(self).keeps(old(self)),
            opens(*old(self), *final(self), Dir::Uni, r),
    {
        self.open(Dir::Uni)
    }

    /// Opens a bidirectional stream and creates a [`SendBuffer`] with the returned [`StreamId`].
    ///
    /// Returns `None` if streams are exhausted.
    pub fn open_bi(&mut self) -> (r: Option<StreamId>)
        requires
            old(self).wf(),
        ensures
            final(self).wf(),
            final(self).side() == old(self).side(),
            final(self).keeps(old(self)),
            opens(*old(self), *final(self), Dir::Bi, r),
    {
        self.open(Dir::Bi)
    }

    /// Gets the send buffer for a stream.
    pub fn get_send_stream(&self, stream_id: StreamId) -> (r: Option<&SendBuffer>)
        ensures
            match r {
                Some(buffer) => self@.send.contains_key(stream_id.0) && buffer@
                    == self@.send[stream_id.0],
                None => !self@.send.contains_key(stream_id.0),
            },
    {
        self.streams.send_stream(stream_id)
    }

    /// Gets the send buffer for a stream.
    pub fn get_send_stream_mut(&mut self, stream_id: StreamId) -> (r: Option<&mut SendBuffer>)
        ensures
            final(self).proto() == old(self).proto(),
            final(self).keeps(old(self)),
            old(self).wf() ==> final(self).wf(),
            match r {
                Some(buffer) => old(self)@.send.contains_key(stream_id.0) && buffer@
                    == old(self)@.send[stream_id.0] && final(self)@ == (TableView {
                    send: old(self)@.send.insert(stream_id.0, final(buffer)@),
                    ..old(self)@
                }),
                None => !old(self)@.send.contains_key(stream_id.0) && final(self)@ == old(self)@,
            },
    {
        self.streams.send_stream_mut(stream_id)
    }

    /// Gets the receive buffer for a stream.
    pub fn get_receive_stream(&self, stream_id: StreamId) -> (r: Option<&ReceiveBuffer>)
        ensures
            match r {
                Some(buffer) => self@.receive.contains_key(stream_id.0) && buffer@
                    == self@.receive[stream_id.0],
                None => !self@.receive.contains_key(stream_id.0),
            },
    {
        self.streams.receive_stream(stream_id)
    }

    /// Gets the receive buffer for a stream.
    pub fn get_receive_stream_mut(&mut self, stream_id: StreamId) -> (r: Option<
        &mut ReceiveBuffer,
    >)
        ensures
            final(self).proto() == old(self).proto(),
            final(self).keeps(old(self)),
            match r {
                Some(buffer) => (old(self).wf() && final(buffer)@.closed == buffer@.closed
                    ==> final(self).wf()) && old(self)@.receive.contains_key(stream_id.0) && buffer@
                    == old(self)@.receive[stream_id.0] && final(self)@ == (TableView {
                    receive: old(self)@.receive.insert(stream_id.0, final(buffer)@),
                    ..old(self)@
                }),
                None => (old(self).wf() ==> final(self).wf()) && !old(self)@.receive.contains_key(
                    stream_id.0,
                ) && final(self)@ == old(self)@,
            },
    {
        self.streams.receive_stream_mut(stream_id)
    }

    /// Resets a send stream, abandoning transmitting any unsent data.
    ///
    /// Fails if the stream has not been open or is finished and has been closed.
    pub fn reset_stream(&mut self, stream_id: StreamId, error_code: quinn_proto::VarInt) -> (r:
        Result<(), ()>)
        requires
            old(self).wf(),
            can_send(old(self).client(), stream_id.0),
        ensures
            final(self).wf(),
            final(self).side() == old(self).side(),
            final(self).keeps(old(self)),
            final(self).record() == (Record {
                resets: if r is Ok {
                    old(self).record().resets.push((stream_id.0, error_code))
                } else {
                    old(self).record().resets
                },
                ..old(self).record()
            }),
            r is Ok <==> resettable(old(self).proto(), stream_id.0),
            !resettable(final(self).proto(), stream_id.0),
            match r {
                Ok(()) => final(self)@ == without_send(old(self)@, stream_id.0),
                Err(()) => final(self)@ == old(self)@,
            },
            final(self)@ == (TableView {
                send: if r is Ok {
                    old(self)@.send.remove(stream_id.0)
                } else {
                    old(self)@.send
                },
                ..old(self)@
            }),
    {
        if proto::reset(&mut self.connection, stream_id.0, error_code) {
            self.streams.remove_send(stream_id);
            Ok(())
        } else {
            Err(())
        }
    }
}

} // verus!
