//! What holds of every update of a connection, whatever the protocol gives.

use quinn_proto::Endpoint as ProtoEndpoint;
use std::time::Instant;
use vstd::prelude::*;

use crate::buffer::BufferView;
use crate::connection::{explains, fits, marked, respects_ends, updated, Connection, UpdateReport};
use crate::ids::{
    can_receive, can_send, direction, law_stream_numbers_tell_streams_apart, opened_by,
    stream_number, Dir, SideView, StreamId,
};
use crate::proto::{ended, taken, taken_of, Offer, ProtoEvent, ReadCall, WriteOutcome};
use crate::streams::{
    after_accept, after_event, event_callbacks, finished_callbacks, finished_streams,
    ConnectionCallback, ReadOutcome, TableView,
};
use crate::trace::{
    accepts_callbacks, after_accepts, after_events, after_reads, after_writes, buffer_after_read,
    calls_of, data_of, drained_callbacks, events_callbacks, finishes_of, offers_of, possible_read,
    possible_reads, possible_writes, read_callbacks, read_run, reads_callbacks, relay_events,
    relay_polls, round, sent_by, sent_data, write_run, ReadEnd, ReadStep, Relay, UpdateTrace,
    WriteEnd, WriteStep,
};

verus! {

/// What two sequences, one after the other, contain.
proof fn lemma_contains_either(a: Seq<ConnectionCallback>, b: Seq<ConnectionCallback>)
    ensures
        forall|x: ConnectionCallback| #[trigger]
            (a + b).contains(x) <==> a.contains(x) || b.contains(x),
{
    assert forall|x: ConnectionCallback| #[trigger]
        (a + b).contains(x) <==> a.contains(x) || b.contains(x) by {
        if a.contains(x) {
            let i = a.index_of(x);
            assert((a + b)[i] == x);
        }
        if b.contains(x) {
            let i = b.index_of(x);
            assert((a + b)[a.len() + i] == x);
        }
        if (a + b).contains(x) {
            let i = (a + b).index_of(x);
            if i < a.len() {
                assert(a[i] == x);
            } else {
                assert(b[i - a.len()] == x);
            }
        }
    }
}

/// Whether one of the events makes the connection report that.
pub open spec fn event_reports(
    handle: usize,
    events: Seq<ProtoEvent>,
    callback: ConnectionCallback,
) -> bool {
    match callback {
        ConnectionCallback::SuccessfulConnection(reported) => reported == handle
            && events.contains(ProtoEvent::Connected),
        ConnectionCallback::ClosedSendStream(id, code) => events.contains(
            ProtoEvent::StreamStopped(id.0, code),
        ),
        _ => false,
    }
}

/// What events make a connection report.
proof fn lemma_event_reports(
    handle: usize,
    events: Seq<ProtoEvent>,
    callback: ConnectionCallback,
)
    ensures
        events_callbacks(handle, events).contains(callback) <==> event_reports(
            handle,
            events,
            callback,
        ),
    decreases events.len(),
{
    if events.len() > 0 {
        let first = event_callbacks(handle, events[0]);
        let rest = events.drop_first();
        lemma_event_reports(handle, rest, callback);
        lemma_contains_either(first, events_callbacks(handle, rest));
        assert forall|event: ProtoEvent| events.contains(event) <==> event == events[0]
            || rest.contains(event) by {
            if rest.contains(event) {
                let i = rest.index_of(event);
                assert(events[i + 1] == event);
            }
            if events.contains(event) && event != events[0] {
                let i = events.index_of(event);
                assert(rest[i - 1] == event);
            }
        }
        if first.contains(callback) {
            assert(first[0] == callback);
        }
        match events[0] {
            ProtoEvent::Connected => {
                assert(first[0] == ConnectionCallback::SuccessfulConnection(handle));
            },
            ProtoEvent::StreamStopped(id, code) => {
                assert(first[0] == ConnectionCallback::ClosedSendStream(StreamId(id), code));
            },
            _ => {},
        }
    }
}

/// What a connection reports when streams of the peer are accepted.
proof fn lemma_accept_reports(dir: Dir, ids: Seq<u64>, callback: ConnectionCallback)
    ensures
        accepts_callbacks(dir, ids).contains(callback) <==> match callback {
            ConnectionCallback::OpenedReceiveStream(id) => ids.contains(id.0),
            ConnectionCallback::OpenedSendStream(id) => dir is Bi && ids.contains(id.0),
            _ => false,
        },
    decreases ids.len(),
{
    if ids.len() > 0 {
        let first = crate::streams::accept_callbacks(dir, ids[0]);
        let rest = ids.drop_first();
        lemma_accept_reports(dir, rest, callback);
        lemma_contains_either(first, accepts_callbacks(dir, rest));
        assert forall|id: u64| ids.contains(id) <==> id == ids[0] || rest.contains(id) by {
            if rest.contains(id) {
                let i = rest.index_of(id);
                assert(ids[i + 1] == id);
            }
            if ids.contains(id) && id != ids[0] {
                let i = ids.index_of(id);
                assert(rest[i - 1] == id);
            }
        }
        assert(first[0] == ConnectionCallback::OpenedReceiveStream(StreamId(ids[0])));
        if dir is Bi {
            assert(first[1] == ConnectionCallback::OpenedSendStream(StreamId(ids[0])));
        }
        if first.contains(callback) {
            let i = first.index_of(callback);
            assert(i == 0 || i == 1);
        }
    }
}

/// Whether reading one of the streams found that it is closed.
pub open spec fn found_closed(
    ids: Seq<u64>,
    steps: Seq<ReadStep>,
    id: StreamId,
    code: Option<quinn_proto::VarInt>,
) -> bool {
    exists|i: int|
        #![trigger steps[i]]
        0 <= i < steps.len() && ids[i] == id.0 && match code {
            None => steps[i].end is Finished,
            Some(code) => steps[i].end == ReadEnd::Reset(code),
        }
}

/// What a connection reports when streams are read.
proof fn lemma_read_reports(ids: Seq<u64>, steps: Seq<ReadStep>, callback: ConnectionCallback)
    ensures
        reads_callbacks(ids, steps).contains(callback) <==> match callback {
            ConnectionCallback::ClosedReceiveStream(id, code) => found_closed(ids, steps, id, code),
            _ => false,
        },
    decreases steps.len(),
{
    if steps.len() > 0 {
        let k = steps.len() - 1;
        let before = steps.drop_last();
        let last = read_callbacks(ids[k], steps[k]);
        lemma_read_reports(ids, before, callback);
        lemma_contains_either(reads_callbacks(ids, before), last);
        match steps[k].end {
            ReadEnd::Finished => {
                assert(last[0] == ConnectionCallback::ClosedReceiveStream(StreamId(ids[k]), None));
            },
            ReadEnd::Reset(code) => {
                assert(last[0] == ConnectionCallback::ClosedReceiveStream(
                    StreamId(ids[k]),
                    Some(code),
                ));
            },
            _ => {},
        }
        if let ConnectionCallback::ClosedReceiveStream(id, code) = callback {
            if found_closed(ids, before, id, code) {
                let i = choose|i: int|
                    #![trigger before[i]]
                    0 <= i < before.len() && ids[i] == id.0 && match code {
                        None => before[i].end is Finished,
                        Some(code) => before[i].end == ReadEnd::Reset(code),
                    };
                assert(steps[i] == before[i]);
            }
            if found_closed(ids, steps, id, code) {
                let i = choose|i: int|
                    #![trigger steps[i]]
                    0 <= i < steps.len() && ids[i] == id.0 && match code {
                        None => steps[i].end is Finished,
                        Some(code) => steps[i].end == ReadEnd::Reset(code),
                    };
                if i < k {
                    assert(before[i] == steps[i]);
                }
            }
            if last.contains(callback) {
                assert(last[0] == callback);
                assert(steps[k].end is Finished || steps[k].end is Reset);
            }
        }
    }
}

/// What a connection reports for streams that are finished.
proof fn lemma_finished_reports(ids: Seq<u64>, callback: ConnectionCallback)
    ensures
        finished_callbacks(ids).contains(callback) <==> match callback {
            ConnectionCallback::FinishedReceiveStream(id) => ids.contains(id.0),
            _ => false,
        },
{
    let all = finished_callbacks(ids);
    if all.contains(callback) {
        let i = all.index_of(callback);
        assert(ids[i] == ids[i]);
    }
    if let ConnectionCallback::FinishedReceiveStream(id) = callback {
        if ids.contains(id.0) {
            let i = ids.index_of(id.0);
            assert(all[i] == callback);
        }
    }
}

/// Everything that an update makes a connection report, and nothing else: its establishment
/// and the send streams that the peer closed, as the protocol's events tell; that it is
/// drained; the streams that were accepted; the receive streams that were found to be closed;
/// and those that are finished.
pub proof fn law_reports(trace: UpdateTrace, handle: usize, callback: ConnectionCallback)
    ensures
        trace.callbacks(handle).contains(callback) <==> match callback {
            ConnectionCallback::SuccessfulConnection(reported) => reported == handle
                && trace.events().contains(ProtoEvent::Connected),
            ConnectionCallback::ClosedSendStream(id, code) => trace.events().contains(
                ProtoEvent::StreamStopped(id.0, code),
            ),
            ConnectionCallback::CloseConnection => trace.drained(),
            ConnectionCallback::OpenedReceiveStream(id) => trace.uni.contains(id.0)
                || trace.bi.contains(id.0),
            ConnectionCallback::OpenedSendStream(id) => trace.bi.contains(id.0),
            ConnectionCallback::ClosedReceiveStream(id, code) => found_closed(
                trace.read,
                trace.steps,
                id,
                code,
            ),
            ConnectionCallback::FinishedReceiveStream(id) => trace.finished.contains(id.0),
        },
{
    let a = events_callbacks(handle, trace.events());
    let b = drained_callbacks(trace.drained());
    let c = accepts_callbacks(Dir::Uni, trace.uni);
    let d = accepts_callbacks(Dir::Bi, trace.bi);
    let e = reads_callbacks(trace.read, trace.steps);
    let f = finished_callbacks(trace.finished);
    lemma_event_reports(handle, trace.events(), callback);
    lemma_accept_reports(Dir::Uni, trace.uni, callback);
    lemma_accept_reports(Dir::Bi, trace.bi, callback);
    lemma_read_reports(trace.read, trace.steps, callback);
    lemma_finished_reports(trace.finished, callback);
    if trace.drained() {
        assert(b[0] == ConnectionCallback::CloseConnection);
    }
    lemma_contains_either(a, b);
    lemma_contains_either(a + b, c);
    lemma_contains_either(a + b + c, d);
    lemma_contains_either(a + b + c + d, e);
    lemma_contains_either(a + b + c + d + e, f);
}

/// A stream is only reported to have been opened if the peer opened it, never if this side
/// did, and this side can then receive on it, or send on it, as was reported.
pub proof fn law_only_streams_of_the_peer_are_reported_opened(
    trace: UpdateTrace,
    table: TableView,
    side: SideView,
    handle: usize,
    id: StreamId,
)
    requires
        trace.possible(table, side),
    ensures
        ({
            let callbacks = trace.callbacks(handle);
            let receive = ConnectionCallback::OpenedReceiveStream(id);
            let send = ConnectionCallback::OpenedSendStream(id);
            &&& callbacks.contains(receive) ==> !opened_by(side.client, id.0)
                && can_receive(side.client, id.0)
            &&& callbacks.contains(send) ==> callbacks.contains(receive) && can_send(
                side.client,
                id.0,
            )
        }),
{
    law_reports(trace, handle, ConnectionCallback::OpenedReceiveStream(id));
    law_reports(trace, handle, ConnectionCallback::OpenedSendStream(id));
    if trace.uni.contains(id.0) {
        let i = trace.uni.index_of(id.0);
        assert(direction(trace.uni[i]) is Uni);
    }
    if trace.bi.contains(id.0) {
        let i = trace.bi.index_of(id.0);
        assert(direction(trace.bi[i]) is Bi);
    }
}

/// What the protocol's events do to the streams: they remove the send streams that the peer
/// stopped, and nothing else.
pub(crate) proof fn lemma_events_keep(table: TableView, events: Seq<ProtoEvent>, id: u64)
    ensures
        ({
            let after = after_events(table, events);
            &&& after.receive == table.receive
            &&& after.budget == table.budget
            &&& after.send.dom().contains(id) <==> table.send.dom().contains(id) && !stopped(
                events,
                id,
            )
            &&& after.send.dom().contains(id) ==> after.send[id] == table.send[id]
            &&& after.connected == (table.connected || events.contains(ProtoEvent::Connected))
        }),
    decreases events.len(),
{
    if events.len() > 0 {
        let rest = events.drop_first();
        lemma_events_keep(after_event(table, events[0]), rest, id);
        assert(stopped(events, id) <==> stopped(rest, id) || events[0] is StreamStopped
            && events[0]->StreamStopped_0 == id) by {
            if stopped(rest, id) {
                let i = choose|i: int|
                    #![trigger rest[i]]
                    0 <= i < rest.len() && rest[i] is StreamStopped && rest[i]->StreamStopped_0
                        == id;
                assert(events[i + 1] == rest[i]);
            }
            if stopped(events, id) {
                let i = choose|i: int|
                    #![trigger events[i]]
                    0 <= i < events.len() && events[i] is StreamStopped
                        && events[i]->StreamStopped_0 == id;
                if i > 0 {
                    assert(rest[i - 1] == events[i]);
                }
            }
        }
        assert(events.contains(ProtoEvent::Connected) <==> rest.contains(ProtoEvent::Connected)
            || events[0] is Connected) by {
            if rest.contains(ProtoEvent::Connected) {
                let i = rest.index_of(ProtoEvent::Connected);
                assert(events[i + 1] is Connected);
            }
            if events.contains(ProtoEvent::Connected) {
                let i = events.index_of(ProtoEvent::Connected);
                if i > 0 {
                    assert(rest[i - 1] is Connected);
                }
            }
        }
    }
}

/// Whether one of the events tells that the peer stopped the stream.
pub open spec fn stopped(events: Seq<ProtoEvent>, id: u64) -> bool {
    exists|i: int|
        #![trigger events[i]]
        0 <= i < events.len() && events[i] is StreamStopped && events[i]->StreamStopped_0 == id
}

/// What accepting streams does: they get buffers, and the others keep theirs.
pub(crate) proof fn lemma_accepts_keep(table: TableView, dir: Dir, ids: Seq<u64>, id: u64)
    ensures
        ({
            let after = after_accepts(table, dir, ids);
            &&& after.budget == table.budget
            &&& after.connected == table.connected
            &&& after.readable.contains(id) <==> table.readable.contains(id) || ids.contains(id)
            &&& after.receive.dom().contains(id) <==> table.receive.dom().contains(id)
                || ids.contains(id)
            &&& after.send.dom().contains(id) <==> table.send.dom().contains(id) || dir is Bi
                && ids.contains(id)
            &&& ids.contains(id) ==> after.receive[id] == BufferView::fresh()
            &&& !ids.contains(id) ==> after.receive[id] == table.receive[id]
            &&& dir is Bi && ids.contains(id) ==> after.send[id] == BufferView::fresh()
            &&& !(dir is Bi && ids.contains(id)) ==> after.send[id] == table.send[id]
        }),
    decreases ids.len(),
{
    if ids.len() > 0 {
        let rest = ids.drop_first();
        lemma_accepts_keep(after_accept(table, dir, ids[0]), dir, rest, id);
        if rest.contains(id) {
            let i = rest.index_of(id);
            assert(ids[i + 1] == id);
        }
        if ids.contains(id) && id != ids[0] {
            let i = ids.index_of(id);
            assert(rest[i - 1] == id);
        }
        assert(ids.contains(ids[0]));
    }
}

/// How many bytes were read.
pub open spec fn received(steps: Seq<ReadStep>) -> nat
    decreases steps.len(),
{
    if steps.len() == 0 {
        0
    } else {
        received(steps.drop_last()) + steps.last().data.len()
    }
}

/// What reading streams does: it spends the budget, and changes the buffers of these streams
/// only.
pub(crate) proof fn lemma_reads_keep(
    table: TableView,
    client: bool,
    ids: Seq<u64>,
    steps: Seq<ReadStep>,
    id: u64,
)
    requires
        possible_reads(table, client, ids, steps),
        ids.no_duplicates(),
        steps.len() <= ids.len(),
    ensures
        ({
            let after = after_reads(table, ids, steps);
            &&& after.send == table.send
            &&& after.connected == table.connected
            &&& after.readable == table.readable
            &&& after.budget + received(steps) == table.budget
            &&& after.receive.dom() == table.receive.dom()
            &&& !ids.take(steps.len() as int).contains(id) ==> after.receive[id]
                == table.receive[id]
            &&& forall|k: int|
                0 <= k < steps.len() && ids[k] == id && table.receive.dom().contains(id) ==> {
                    after.receive[id] == buffer_after_read(table.receive[id], #[trigger] steps[k])
                }
        }),
    decreases steps.len(),
{
    if steps.len() > 0 {
        let before = steps.drop_last();
        let n = before.len() as int;
        let middle = after_reads(table, ids, before);
        lemma_reads_keep(table, client, ids, before, id);
        assert(ids.take(n + 1) == ids.take(n).push(ids[n]));
        crate::streams::lemma_push_contains(ids.take(n), ids[n]);
        assert(middle.receive.dom().contains(ids[n]) ==> middle.receive.insert(
            ids[n],
            buffer_after_read(middle.receive[ids[n]], steps[n]),
        ).dom() =~= middle.receive.dom());
        if steps[n].calls.len() == 0 {
            assert(buffer_after_read(middle.receive[ids[n]], steps[n])
                =~= middle.receive[ids[n]]);
        }
        assert forall|k: int|
            0 <= k < steps.len() && ids[k] == id && table.receive.dom().contains(
                id,
            ) implies after_reads(table, ids, steps).receive[id] == buffer_after_read(
            table.receive[id],
            #[trigger] steps[k],
        ) by {
            if k < n {
                assert(before[k] == steps[k]);
                assert(ids[n] != id);
            } else {
                assert(!ids.take(n).contains(id)) by {
                    if ids.take(n).contains(id) {
                        let j = ids.take(n).index_of(id);
                        assert(ids[j] == id);
                    }
                }
            }
        }
    }
}

/// What writing streams does: of each of these streams it sends a part, from the front on,
/// and it removes a stream only if that is closed and everything has been sent.
pub(crate) proof fn lemma_writes_keep(
    table: TableView,
    ids: Seq<u64>,
    steps: Seq<WriteStep>,
    id: u64,
)
    requires
        possible_writes(table, ids, steps),
        ids.no_duplicates(),
        steps.len() <= ids.len(),
    ensures
        ({
            let after = after_writes(table, ids, steps);
            let data = sent_data(table, ids, steps, id);
            &&& after.receive == table.receive
            &&& after.budget == table.budget
            &&& after.connected == table.connected
            &&& after.readable == table.readable
            &&& !ids.take(steps.len() as int).contains(id) ==> {
                &&& after.send.dom().contains(id) <==> table.send.dom().contains(id)
                &&& after.send[id] == table.send[id]
                &&& data == Seq::<u8>::empty()
            }
            &&& after.send.dom().contains(id) ==> {
                &&& table.send.dom().contains(id)
                &&& data + after.send[id].data == table.send[id].data
                &&& after.send[id].closed == table.send[id].closed
            }
            &&& table.send.dom().contains(id) && !after.send.dom().contains(id)
                ==> table.send[id].closed && data == table.send[id].data
        }),
    decreases steps.len(),
{
    if steps.len() == 0 {
        assert(Seq::<u8>::empty() + table.send[id].data =~= table.send[id].data);
    } else {
        let before = steps.drop_last();
        let n = before.len() as int;
        lemma_writes_keep(table, ids, before, id);
        assert(ids.take(n + 1) == ids.take(n).push(ids[n]));
        crate::streams::lemma_push_contains(ids.take(n), ids[n]);
        if ids[n] == id {
            assert(!ids.take(n).contains(id)) by {
                if ids.take(n).contains(id) {
                    let j = ids.take(n).index_of(id);
                    assert(ids[j] == id);
                }
            }
            let data = table.send[id].data;
            let taken = data.take(steps[n].sent as int);
            assert(Seq::<u8>::empty() + taken =~= taken);
            assert(taken + data.skip(steps[n].sent as int) =~= data);
            if data.skip(steps[n].sent as int).len() == 0 {
                assert(taken =~= data);
            }
        }
    }
}

/// The streams that are accepted during an update are new: this side did not know them, and has
/// no buffers for them.
pub(crate) proof fn lemma_accepted_streams_are_new(
    trace: UpdateTrace,
    table: TableView,
    side: SideView,
    id: u64,
)
    requires
        trace.possible_reading(table, side),
    ensures
        trace.uni.contains(id) ==> !side.knows(id) && direction(id) is Uni,
        trace.bi.contains(id) ==> !side.knows(id) && direction(id) is Bi,
{
    if trace.uni.contains(id) {
        let i = trace.uni.index_of(id);
        law_stream_numbers_tell_streams_apart(
            !side.client,
            Dir::Uni,
            (side.uni + i) as nat,
            trace.uni[i],
        );
    }
    if trace.bi.contains(id) {
        let i = trace.bi.index_of(id);
        law_stream_numbers_tell_streams_apart(
            !side.client,
            Dir::Bi,
            (side.bi + i) as nat,
            trace.bi[i],
        );
    }
}

/// No stream is accepted twice during an update.
pub(crate) proof fn lemma_accepted_once(
    trace: UpdateTrace,
    table: TableView,
    side: SideView,
    id: u64,
)
    requires
        trace.possible_reading(table, side),
    ensures
        trace.uni.no_duplicates(),
        trace.bi.no_duplicates(),
        !(trace.uni.contains(id) && trace.bi.contains(id)),
{
    lemma_accepted_streams_are_new(trace, table, side, id);
}

/// How often something occurs in a sequence.
pub open spec fn times<T>(all: Seq<T>, item: T) -> nat
    decreases all.len(),
{
    if all.len() == 0 {
        0
    } else {
        times(all.drop_last(), item) + if all.last() == item {
            1nat
        } else {
            0nat
        }
    }
}

/// What occurs in two sequences occurs in both together.
pub(crate) proof fn lemma_times_concat<T>(a: Seq<T>, b: Seq<T>, item: T)
    ensures
        times(a + b, item) == times(a, item) + times(b, item),
    decreases b.len(),
{
    if b.len() == 0 {
        assert(a + b =~= a);
    } else {
        assert((a + b).drop_last() =~= a + b.drop_last());
        lemma_times_concat(a, b.drop_last(), item);
    }
}

/// How often something occurs in a sequence of one or two.
pub(crate) proof fn lemma_times_few<T>(all: Seq<T>, item: T)
    requires
        all.len() <= 2,
    ensures
        times(all, item) == (if all.len() > 0 && all[0] == item {
            1nat
        } else {
            0nat
        }) + (if all.len() > 1 && all[1] == item {
            1nat
        } else {
            0nat
        }),
{
    reveal_with_fuel(times, 3);
}

/// Something occurs in a sequence without duplicates once, if at all.
pub(crate) proof fn lemma_times_once<T>(all: Seq<T>, item: T)
    requires
        all.no_duplicates(),
    ensures
        times(all, item) == if all.contains(item) {
            1nat
        } else {
            0nat
        },
    decreases all.len(),
{
    if all.len() > 0 {
        let before = all.drop_last();
        lemma_times_once(before, item);
        assert(all[all.len() - 1] == all.last());
        if before.contains(item) {
            let i = before.index_of(item);
            assert(all[i] == item);
        }
        if all.contains(item) && all.last() != item {
            let i = all.index_of(item);
            assert(before[i] == item);
        }
    }
}

/// How often events make a connection report something.
proof fn lemma_event_times(handle: usize, events: Seq<ProtoEvent>, callback: ConnectionCallback)
    ensures
        times(events_callbacks(handle, events), callback) == match callback {
            ConnectionCallback::SuccessfulConnection(reported) => if reported == handle {
                times(events, ProtoEvent::Connected)
            } else {
                0
            },
            ConnectionCallback::ClosedSendStream(id, code) => times(
                events,
                ProtoEvent::StreamStopped(id.0, code),
            ),
            _ => 0,
        },
    decreases events.len(),
{
    if events.len() > 0 {
        let first = event_callbacks(handle, events[0]);
        let rest = events.drop_first();
        lemma_event_times(handle, rest, callback);
        lemma_times_concat(first, events_callbacks(handle, rest), callback);
        lemma_times_few(first, callback);
        assert(seq![events[0]] + rest =~= events);
        let event = match callback {
            ConnectionCallback::ClosedSendStream(id, code) => ProtoEvent::StreamStopped(id.0, code),
            _ => ProtoEvent::Connected,
        };
        lemma_times_concat(seq![events[0]], rest, event);
        lemma_times_few(seq![events[0]], event);
    }
}

/// How often accepting streams of the peer makes a connection report something.
proof fn lemma_accept_times(dir: Dir, ids: Seq<u64>, callback: ConnectionCallback)
    ensures
        times(accepts_callbacks(dir, ids), callback) == match callback {
            ConnectionCallback::OpenedReceiveStream(id) => times(ids, id.0),
            ConnectionCallback::OpenedSendStream(id) => if dir is Bi {
                times(ids, id.0)
            } else {
                0
            },
            _ => 0,
        },
    decreases ids.len(),
{
    if ids.len() > 0 {
        let first = crate::streams::accept_callbacks(dir, ids[0]);
        let rest = ids.drop_first();
        lemma_accept_times(dir, rest, callback);
        lemma_times_concat(first, accepts_callbacks(dir, rest), callback);
        lemma_times_few(first, callback);
        assert(seq![ids[0]] + rest =~= ids);
        let id = match callback {
            ConnectionCallback::OpenedReceiveStream(id) => id.0,
            ConnectionCallback::OpenedSendStream(id) => id.0,
            _ => 0,
        };
        lemma_times_concat(seq![ids[0]], rest, id);
        lemma_times_few(seq![ids[0]], id);
    }
}

/// How often streams that are finished make a connection report something.
proof fn lemma_finished_times(ids: Seq<u64>, callback: ConnectionCallback)
    ensures
        times(finished_callbacks(ids), callback) == match callback {
            ConnectionCallback::FinishedReceiveStream(id) => times(ids, id.0),
            _ => 0,
        },
    decreases ids.len(),
{
    if ids.len() > 0 {
        lemma_finished_times(ids.drop_last(), callback);
        assert(finished_callbacks(ids).drop_last() =~= finished_callbacks(ids.drop_last()));
    }
}

/// Reading reports no stream twice.
proof fn lemma_read_times(ids: Seq<u64>, steps: Seq<ReadStep>, callback: ConnectionCallback)
    requires
        ids.no_duplicates(),
        steps.len() <= ids.len(),
    ensures
        times(reads_callbacks(ids, steps), callback) == match callback {
            ConnectionCallback::ClosedReceiveStream(id, code) => if found_closed(
                ids,
                steps,
                id,
                code,
            ) {
                1
            } else {
                0
            },
            _ => 0nat,
        },
    decreases steps.len(),
{
    if steps.len() > 0 {
        let k = steps.len() - 1;
        let before = steps.drop_last();
        let last = read_callbacks(ids[k], steps[k]);
        lemma_read_times(ids, before, callback);
        lemma_times_concat(reads_callbacks(ids, before), last, callback);
        lemma_times_few(last, callback);
        if let ConnectionCallback::ClosedReceiveStream(id, code) = callback {
            if found_closed(ids, before, id, code) {
                let i = choose|i: int|
                    #![trigger before[i]]
                    0 <= i < before.len() && ids[i] == id.0 && match code {
                        None => before[i].end is Finished,
                        Some(code) => before[i].end == ReadEnd::Reset(code),
                    };
                assert(steps[i] == before[i]);
                assert(ids[k] != ids[i]);
            }
            if found_closed(ids, steps, id, code) {
                let i = choose|i: int|
                    #![trigger steps[i]]
                    0 <= i < steps.len() && ids[i] == id.0 && match code {
                        None => steps[i].end is Finished,
                        Some(code) => steps[i].end == ReadEnd::Reset(code),
                    };
                if i < k {
                    assert(before[i] == steps[i]);
                }
            }
        }
    }
}

/// How often an update makes a connection report something: its establishment and that the peer
/// closed a send stream as often as the protocol's events tell; that it is drained, that a stream
/// was opened, that one was found to be closed, and that one is finished, once.
pub proof fn law_reports_are_not_repeated(
    trace: UpdateTrace,
    table: TableView,
    side: SideView,
    handle: usize,
    callback: ConnectionCallback,
)
    requires
        trace.possible(table, side),
    ensures
        times(trace.callbacks(handle), callback) == match callback {
            ConnectionCallback::SuccessfulConnection(reported) => if reported == handle {
                times(trace.events(), ProtoEvent::Connected)
            } else {
                0
            },
            ConnectionCallback::ClosedSendStream(id, code) => times(
                trace.events(),
                ProtoEvent::StreamStopped(id.0, code),
            ),
            _ => if trace.callbacks(handle).contains(callback) {
                1
            } else {
                0nat
            },
        },
{
    let a = events_callbacks(handle, trace.events());
    let b = drained_callbacks(trace.drained());
    let c = accepts_callbacks(Dir::Uni, trace.uni);
    let d = accepts_callbacks(Dir::Bi, trace.bi);
    let e = reads_callbacks(trace.read, trace.steps);
    let f = finished_callbacks(trace.finished);
    lemma_event_times(handle, trace.events(), callback);
    lemma_times_few(b, callback);
    lemma_accept_times(Dir::Uni, trace.uni, callback);
    lemma_accept_times(Dir::Bi, trace.bi, callback);
    lemma_read_times(trace.read, trace.steps, callback);
    lemma_finished_times(trace.finished, callback);
    lemma_times_concat(a, b, callback);
    lemma_times_concat(a + b, c, callback);
    lemma_times_concat(a + b + c, d, callback);
    lemma_times_concat(a + b + c + d, e, callback);
    lemma_times_concat(a + b + c + d + e, f, callback);
    law_reports(trace, handle, callback);
    let id = match callback {
        ConnectionCallback::OpenedReceiveStream(id) => id,
        ConnectionCallback::OpenedSendStream(id) => id,
        ConnectionCallback::FinishedReceiveStream(id) => id,
        _ => StreamId(0),
    };
    lemma_accepted_once(trace, table, side, id.0);
    lemma_times_once(trace.uni, id.0);
    lemma_times_once(trace.bi, id.0);
    lemma_times_once(trace.finished, id.0);
}

/// A stream is reported to have been opened once: not twice in an update, and not again in a
/// later one.
pub proof fn law_streams_are_reported_opened_once(
    trace: UpdateTrace,
    table: TableView,
    side: SideView,
    later_trace: UpdateTrace,
    later_table: TableView,
    later_side: SideView,
    handle: usize,
    id: StreamId,
)
    requires
        trace.possible(table, side),
        later_trace.possible(later_table, later_side),
        later_side.client == side.client,
        later_side.uni >= trace.side_after(side).uni,
        later_side.bi >= trace.side_after(side).bi,
    ensures
        trace.uni.no_duplicates(),
        trace.bi.no_duplicates(),
        !(trace.uni.contains(id.0) && trace.bi.contains(id.0)),
        ({
            let opened = ConnectionCallback::OpenedReceiveStream(id);
            !(trace.callbacks(handle).contains(opened) && later_trace.callbacks(handle).contains(
                opened,
            ))
        }),
{
    lemma_accepted_streams_are_new(trace, table, side, id.0);
    lemma_accepted_streams_are_new(later_trace, later_table, later_side, id.0);
    law_reports(trace, handle, ConnectionCallback::OpenedReceiveStream(id));
    law_reports(later_trace, handle, ConnectionCallback::OpenedReceiveStream(id));
    if trace.uni.contains(id.0) {
        let i = trace.uni.index_of(id.0);
        assert(trace.uni[i] == stream_number(!side.client, Dir::Uni, (side.uni + i) as nat));
    }
    if trace.bi.contains(id.0) {
        let i = trace.bi.index_of(id.0);
        assert(trace.bi[i] == stream_number(!side.client, Dir::Bi, (side.bi + i) as nat));
    }
}

/// What is buffered to be sent on a stream that the peer does not stop is neither lost nor
/// changed, nor sent out of order: what the protocol took during an update, followed by what is
/// still buffered, is what was buffered before. If nothing is buffered any more because the
/// stream is gone, it was to be finished and the protocol took everything.
pub proof fn law_sending_keeps_every_byte(
    trace: UpdateTrace,
    table: TableView,
    side: SideView,
    id: u64,
)
    requires
        trace.possible(table, side),
        fits(table, side),
        table.send.dom().contains(id),
        !stopped(trace.events(), id),
    ensures
        ({
            let after = trace.result(table);
            if after.send.dom().contains(id) {
                &&& trace.sent_on(table, id) + after.send[id].data == table.send[id].data
                &&& after.send[id].closed == table.send[id].closed
            } else {
                &&& trace.sent_on(table, id) == table.send[id].data
                &&& table.send[id].closed
            }
        }),
{
    lemma_accepted_streams_are_new(trace, table, side, id);
    lemma_before_writing(trace, table, side, id);
    lemma_writes_keep(trace.swept(table), trace.written, trace.writes, id);
}

/// What is taken of offers in two batches is what is taken of both.
pub(crate) proof fn lemma_taken_concat(a: Seq<Offer>, b: Seq<Offer>, id: u64)
    ensures
        taken_of(a + b, id) == taken_of(a, id) + taken_of(b, id),
    decreases b.len(),
{
    if b.len() == 0 {
        assert(a + b =~= a);
        assert(taken_of(a, id) + taken_of(b, id) =~= taken_of(a, id));
    } else {
        assert((a + b).drop_last() =~= a + b.drop_last());
        lemma_taken_concat(a, b.drop_last(), id);
        assert(taken_of(a + b, id) =~= taken_of(a, id) + taken_of(b, id));
    }
}

/// What is taken when a buffer is offered, again and again, is the front of the buffer.
pub(crate) proof fn lemma_run_taken(data: Seq<u8>, written: u64, offers: Seq<Offer>, id: u64)
    requires
        write_run(data, written, offers),
    ensures
        sent_by(offers) <= data.len(),
        taken_of(offers, id) == if id == written {
            data.take(sent_by(offers) as int)
        } else {
            Seq::<u8>::empty()
        },
        forall|i: int| 0 <= i < offers.len() ==> (#[trigger] offers[i]).id == written,
    decreases offers.len(),
{
    if offers.len() == 0 {
        assert(data.take(0) =~= Seq::<u8>::empty());
    } else {
        let before = offers.drop_last();
        lemma_run_taken(data, written, before, id);
        assert forall|i: int|
            0 <= i < offers.len() implies (#[trigger] offers[i]).id == written by {
            if i < before.len() {
                assert(before[i] == offers[i]);
            }
        }
        if id == written {
            assert(taken_of(offers, id) =~= data.take(sent_by(offers) as int));
        }
    }
}

/// What the protocol takes while streams are written is what is sent.
pub(crate) proof fn lemma_offers_taken(
    table: TableView,
    ids: Seq<u64>,
    steps: Seq<WriteStep>,
    id: u64,
)
    requires
        possible_writes(table, ids, steps),
    ensures
        taken_of(offers_of(steps), id) == sent_data(table, ids, steps, id),
    decreases steps.len(),
{
    if steps.len() > 0 {
        let before = steps.drop_last();
        let middle = after_writes(table, ids, before);
        let written = ids[steps.len() - 1];
        lemma_offers_taken(table, ids, before, id);
        lemma_taken_concat(offers_of(before), steps.last().offers, id);
        lemma_run_taken(middle.send[written].data, written, steps.last().offers, id);
        assert(sent_data(table, ids, before, id) + Seq::<u8>::empty() =~= sent_data(
            table,
            ids,
            before,
            id,
        ));
    }
}

/// What an application writes reaches the protocol, in order and without a gap: if an update is
/// completed and does not report that the peer closed the send stream, then the bytes that the
/// protocol has taken on the stream so far, followed by those that are buffered, are the same
/// as before the update. When the stream goes it was to be finished, and the protocol has taken
/// everything.
pub proof fn law_written_bytes_reach_the_protocol(
    before: Connection,
    after: Connection,
    endpoint_before: ProtoEndpoint,
    endpoint_after: ProtoEndpoint,
    now: Instant,
    report: UpdateReport,
    reported: Seq<ConnectionCallback>,
    id: StreamId,
)
    requires
        before.wf(),
        updated(before, after, endpoint_before, endpoint_after, now, report, reported),
        report.failure is None,
        before@.send.dom().contains(id.0),
        forall|code: quinn_proto::VarInt|
            !#[trigger] reported.contains(ConnectionCallback::ClosedSendStream(id, code)),
    ensures
        if after@.send.dom().contains(id.0) {
            &&& taken(after.proto(), id.0) + after@.send[id.0].data == taken(before.proto(), id.0)
                + before@.send[id.0].data
            &&& after@.send[id.0].closed == before@.send[id.0].closed
        } else {
            &&& taken(after.proto(), id.0) == taken(before.proto(), id.0) + before@.send[id.0].data
            &&& before@.send[id.0].closed
        },
{
    let side = before.side();
    let handle = before.handle();
    let trace = choose|trace: UpdateTrace| #[trigger]
        explains(trace, before, after, now, report.failure) && reported == trace.callbacks(handle);
    law_stopped_send_streams_are_reported_and_gone(trace, before@, side, handle, id);
    law_sending_keeps_every_byte(trace, before@, side, id.0);
    lemma_offers_taken(trace.swept(before@), trace.written, trace.writes, id.0);
    lemma_taken_concat(before.record().offers, offers_of(trace.writes), id.0);
    if after@.send.dom().contains(id.0) {
        assert(taken(before.proto(), id.0) + trace.sent_on(before@, id.0)
            + after@.send[id.0].data =~= taken(before.proto(), id.0) + (trace.sent_on(
            before@,
            id.0,
        ) + after@.send[id.0].data));
    }
}

/// The send streams when writing begins.
pub(crate) proof fn lemma_before_writing(
    trace: UpdateTrace,
    table: TableView,
    side: SideView,
    id: u64,
)
    requires
        trace.possible_writing(table, side),
    ensures
        ({
            let swept = trace.swept(table);
            &&& swept.send.dom().contains(id) <==> table.send.dom().contains(id) && !stopped(
                trace.events(),
                id,
            ) || trace.bi.contains(id)
            &&& trace.bi.contains(id) ==> swept.send[id] == BufferView::fresh()
            &&& !trace.bi.contains(id) && swept.send.dom().contains(id) ==> swept.send[id]
                == table.send[id]
        }),
{
    let first = after_events(table, trace.events());
    let second = after_accepts(first, Dir::Uni, trace.uni);
    lemma_events_keep(table, trace.events(), id);
    lemma_accepts_keep(first, Dir::Uni, trace.uni, id);
    lemma_accepts_keep(second, Dir::Bi, trace.bi, id);
    lemma_reads_keep(trace.reading(table), side.client, trace.read, trace.steps, id);
}

/// What arrives is appended to what has not been read, and nothing of that is lost: during an
/// update the bytes of a receive stream stay in front, and a closed stream stays closed. A
/// stream goes only when it is closed and no byte is left, and that is then reported.
pub proof fn law_receiving_keeps_every_byte(
    trace: UpdateTrace,
    table: TableView,
    side: SideView,
    handle: usize,
    id: u64,
)
    requires
        trace.possible(table, side),
        fits(table, side),
        table.receive.dom().contains(id),
    ensures
        ({
            let after = trace.result(table);
            if after.receive.dom().contains(id) {
                &&& table.receive[id].data.is_prefix_of(after.receive[id].data)
                &&& table.receive[id].closed ==> after.receive[id].closed
                &&& !after.receive[id].is_finished()
            } else {
                &&& table.receive[id].data.len() == 0
                &&& trace.callbacks(handle).contains(
                    ConnectionCallback::FinishedReceiveStream(StreamId(id)),
                )
            }
        }),
{
    let reading = trace.reading(table);
    let read_out = trace.read_out(table);
    lemma_accepted_streams_are_new(trace, table, side, id);
    lemma_before_reading(trace, table, side, id);
    lemma_reads_keep(reading, side.client, trace.read, trace.steps, id);
    lemma_writes_keep(trace.swept(table), trace.written, trace.writes, id);
    law_reports(trace, handle, ConnectionCallback::FinishedReceiveStream(StreamId(id)));
    assert(trace.read.take(trace.read.len() as int) == trace.read);
    if trace.read.contains(id) {
        let k = trace.read.index_of(id);
        let step = trace.steps[k];
        assert(read_out.receive[id] == buffer_after_read(table.receive[id], step));
        assert(table.receive[id].data =~= read_out.receive[id].data.subrange(
            0,
            table.receive[id].data.len() as int,
        ));
    } else {
        assert(table.receive[id].data =~= table.receive[id].data.subrange(
            0,
            table.receive[id].data.len() as int,
        ));
    }
    assert(finished_streams(read_out).contains(id) <==> read_out.receive[id].is_finished());
    assert(trace.finished.to_set().contains(id) <==> trace.finished.contains(id));
}

/// The receive streams when reading begins.
pub(crate) proof fn lemma_before_reading(
    trace: UpdateTrace,
    table: TableView,
    side: SideView,
    id: u64,
)
    requires
        trace.possible_reading(table, side),
    ensures
        ({
            let reading = trace.reading(table);
            &&& reading.budget == table.budget
            &&& reading.connected == (table.connected || trace.events().contains(
                ProtoEvent::Connected,
            ))
            &&& reading.receive.dom().contains(id) <==> table.receive.dom().contains(id)
                || trace.uni.contains(id) || trace.bi.contains(id)
            &&& trace.uni.contains(id) || trace.bi.contains(id) ==> reading.receive[id]
                == BufferView::fresh()
            &&& !trace.uni.contains(id) && !trace.bi.contains(id) ==> reading.receive[id]
                == table.receive[id]
        }),
{
    let first = after_events(table, trace.events());
    let second = after_accepts(first, Dir::Uni, trace.uni);
    lemma_events_keep(table, trace.events(), id);
    lemma_accepts_keep(first, Dir::Uni, trace.uni, id);
    lemma_accepts_keep(second, Dir::Bi, trace.bi, id);
}

/// A receive stream that is closed and has been read to the end is reported to be finished
/// once, and goes: only such a stream is, and none is left after the update.
pub proof fn law_finished_streams_are_reported_and_gone(
    trace: UpdateTrace,
    table: TableView,
    side: SideView,
    handle: usize,
    id: StreamId,
)
    requires
        trace.possible(table, side),
    ensures
        ({
            let finished = ConnectionCallback::FinishedReceiveStream(id);
            let callbacks = trace.callbacks(handle);
            let read_out = trace.read_out(table);
            let after = trace.result(table);
            &&& callbacks.contains(finished) <==> read_out.receive.dom().contains(id.0)
                && read_out.receive[id.0].is_finished()
            &&& callbacks.contains(finished) ==> !after.receive.dom().contains(id.0)
            &&& after.receive.dom().contains(id.0) ==> !after.receive[id.0].is_finished()
            &&& forall|i: int, j: int|
                0 <= i < callbacks.len() && 0 <= j < callbacks.len() && #[trigger] callbacks[i]
                    == finished && #[trigger] callbacks[j] == finished ==> i == j
        }),
{
    let finished = ConnectionCallback::FinishedReceiveStream(id);
    let callbacks = trace.callbacks(handle);
    let read_out = trace.read_out(table);
    lemma_reads_keep(trace.reading(table), side.client, trace.read, trace.steps, id.0);
    lemma_writes_keep(trace.swept(table), trace.written, trace.writes, id.0);
    law_reports(trace, handle, finished);
    assert(trace.finished.to_set().contains(id.0) <==> trace.finished.contains(id.0));
    assert(finished_streams(read_out).contains(id.0) <==> read_out.receive.dom().contains(id.0)
        && read_out.receive[id.0].is_finished());
    let earlier = trace.reading_callbacks(handle);
    let none = UpdateTrace { finished: Seq::empty(), ..trace };
    law_reports(none, handle, finished);
    assert(none.callbacks(handle) =~= earlier);
    assert forall|i: int, j: int|
        0 <= i < callbacks.len() && 0 <= j < callbacks.len() && #[trigger] callbacks[i] == finished
            && #[trigger] callbacks[j] == finished implies i == j by {
        if i < earlier.len() {
            assert(earlier[i] == finished);
        }
        if j < earlier.len() {
            assert(earlier[j] == finished);
        }
        assert(trace.finished[i - earlier.len()] == id.0);
        assert(trace.finished[j - earlier.len()] == id.0);
    }
}

/// That a receive stream is closed is reported when it happens, and only then: a stream that
/// is found to be closed was closed before, or that has been reported, and one that was reported is
/// closed. Being closed does not mean that its data has been read.
pub proof fn law_closed_receive_streams_are_reported(
    trace: UpdateTrace,
    table: TableView,
    side: SideView,
    handle: usize,
    id: StreamId,
)
    requires
        trace.possible(table, side),
        fits(table, side),
        trace.read_out(table).receive.dom().contains(id.0),
    ensures
        ({
            let reported = exists|code: Option<quinn_proto::VarInt>| #[trigger]
                trace.callbacks(handle).contains(ConnectionCallback::ClosedReceiveStream(id, code));
            trace.read_out(table).receive[id.0].closed <==> table.receive.dom().contains(id.0)
                && table.receive[id.0].closed || reported
        }),
{
    let reading = trace.reading(table);
    let read_out = trace.read_out(table);
    lemma_accepted_streams_are_new(trace, table, side, id.0);
    lemma_before_reading(trace, table, side, id.0);
    lemma_reads_keep(reading, side.client, trace.read, trace.steps, id.0);
    assert(trace.read.take(trace.read.len() as int) == trace.read);
    assert forall|code: Option<quinn_proto::VarInt>| #[trigger]
        trace.callbacks(handle).contains(
            ConnectionCallback::ClosedReceiveStream(id, code),
        ) implies read_out.receive[id.0].closed by {
        law_reports(trace, handle, ConnectionCallback::ClosedReceiveStream(id, code));
        let k = choose|i: int|
            #![trigger trace.steps[i]]
            0 <= i < trace.steps.len() && trace.read[i] == id.0 && match code {
                None => trace.steps[i].end is Finished,
                Some(code) => trace.steps[i].end == ReadEnd::Reset(code),
            };
        assert(read_out.receive[id.0] == buffer_after_read(reading.receive[id.0], trace.steps[k]));
    }
    if read_out.receive[id.0].closed && !reading.receive[id.0].closed {
        assert(trace.read.contains(id.0));
        let k = trace.read.index_of(id.0);
        let step = trace.steps[k];
        assert(read_out.receive[id.0] == buffer_after_read(reading.receive[id.0], step));
        let code = match step.end {
            ReadEnd::Reset(code) => Some(code),
            _ => None,
        };
        law_reports(trace, handle, ConnectionCallback::ClosedReceiveStream(id, code));
        assert(found_closed(trace.read, trace.steps, id, code));
    }
}

/// Whether these are the states of a connection before each of these updates and after the last
/// one. Between updates the application may read what was received, and do with the send streams
/// what it likes.
pub open spec fn history(
    tables: Seq<TableView>,
    traces: Seq<UpdateTrace>,
    sides: Seq<SideView>,
) -> bool {
    &&& tables.len() == traces.len() + 1
    &&& sides.len() == traces.len() + 1
    &&& forall|i: int|
        #![trigger traces[i]]
        0 <= i < traces.len() ==> {
            let after = traces[i].result(tables[i]);
            &&& traces[i].possible(tables[i], sides[i])
            &&& fits(tables[i], sides[i])
            &&& sides[i + 1] == traces[i].side_after(sides[i])
            &&& tables[i + 1].receive.dom() == after.receive.dom()
            &&& forall|id: u64| #[trigger]
                after.receive.dom().contains(id) ==> tables[i + 1].receive[id].closed
                    == after.receive[id].closed
        }
}

/// A receive stream that is gone does not come back.
proof fn lemma_gone(
    tables: Seq<TableView>,
    traces: Seq<UpdateTrace>,
    sides: Seq<SideView>,
    id: u64,
    i: int,
    j: int,
)
    requires
        history(tables, traces, sides),
        0 <= i <= j < tables.len(),
        sides[i].knows(id),
        !tables[i].receive.dom().contains(id),
    ensures
        sides[j].knows(id),
        !tables[j].receive.dom().contains(id),
    decreases j - i,
{
    if i < j {
        lemma_gone(tables, traces, sides, id, i, j - 1);
        let trace = traces[j - 1];
        let table = tables[j - 1];
        let side = sides[j - 1];
        lemma_accepted_streams_are_new(trace, table, side, id);
        lemma_before_reading(trace, table, side, id);
        lemma_reads_keep(trace.reading(table), side.client, trace.read, trace.steps, id);
        lemma_writes_keep(trace.swept(table), trace.written, trace.writes, id);
    }
}

/// A receive stream is reported to be finished at most once, in all the updates of a connection.
pub proof fn law_streams_are_reported_finished_once(
    tables: Seq<TableView>,
    traces: Seq<UpdateTrace>,
    sides: Seq<SideView>,
    handle: usize,
    id: StreamId,
    i: int,
    j: int,
)
    requires
        history(tables, traces, sides),
        0 <= i < j < traces.len(),
        traces[i].callbacks(handle).contains(ConnectionCallback::FinishedReceiveStream(id)),
    ensures
        !traces[j].callbacks(handle).contains(ConnectionCallback::FinishedReceiveStream(id)),
{
    let trace = traces[i];
    let table = tables[i];
    let side = sides[i];
    law_finished_streams_are_reported_and_gone(trace, table, side, handle, id);
    lemma_received_streams_are_known(trace, table, side, id.0);
    lemma_gone(tables, traces, sides, id.0, i + 1, j);
    let later = traces[j];
    law_finished_streams_are_reported_and_gone(later, tables[j], sides[j], handle, id);
    lemma_accepted_streams_are_new(later, tables[j], sides[j], id.0);
    lemma_before_reading(later, tables[j], sides[j], id.0);
    lemma_reads_keep(
        later.reading(tables[j]),
        sides[j].client,
        later.read,
        later.steps,
        id.0,
    );
}

/// A receive stream that is there once the streams have been read is known from then on.
proof fn lemma_received_streams_are_known(
    trace: UpdateTrace,
    table: TableView,
    side: SideView,
    id: u64,
)
    requires
        trace.possible(table, side),
        fits(table, side),
        trace.read_out(table).receive.dom().contains(id),
    ensures
        trace.side_after(side).knows(id),
{
    lemma_before_reading(trace, table, side, id);
    lemma_reads_keep(trace.reading(table), side.client, trace.read, trace.steps, id);
    if trace.uni.contains(id) {
        let k = trace.uni.index_of(id);
        law_stream_numbers_tell_streams_apart(!side.client, Dir::Uni, (side.uni + k) as nat, id);
    }
    if trace.bi.contains(id) {
        let k = trace.bi.index_of(id);
        law_stream_numbers_tell_streams_apart(!side.client, Dir::Bi, (side.bi + k) as nat, id);
    }
}

/// Whether one of the first updates reported that the receive stream is closed.
pub open spec fn closed_by(traces: Seq<UpdateTrace>, handle: usize, id: StreamId, n: int) -> bool {
    exists|i: int, code: Option<quinn_proto::VarInt>|
        0 <= i < n && #[trigger] traces[i].callbacks(handle).contains(
            ConnectionCallback::ClosedReceiveStream(id, code),
        )
}

/// A receive stream that is closed has been reported.
proof fn lemma_closed_by(
    tables: Seq<TableView>,
    traces: Seq<UpdateTrace>,
    sides: Seq<SideView>,
    handle: usize,
    id: StreamId,
    n: int,
)
    requires
        history(tables, traces, sides),
        !(tables[0].receive.dom().contains(id.0) && tables[0].receive[id.0].closed),
        0 <= n < tables.len(),
    ensures
        tables[n].receive.dom().contains(id.0) && tables[n].receive[id.0].closed ==> closed_by(
            traces,
            handle,
            id,
            n,
        ),
        n < traces.len() && traces[n].read_out(tables[n]).receive.dom().contains(id.0)
            && traces[n].read_out(tables[n]).receive[id.0].closed ==> closed_by(
            traces,
            handle,
            id,
            n + 1,
        ),
    decreases n,
{
    if n > 0 {
        lemma_closed_by(tables, traces, sides, handle, id, n - 1);
        let trace = traces[n - 1];
        lemma_writes_keep(trace.swept(tables[n - 1]), trace.written, trace.writes, id.0);
    }
    if n < traces.len() && traces[n].read_out(tables[n]).receive.dom().contains(id.0) {
        law_closed_receive_streams_are_reported(traces[n], tables[n], sides[n], handle, id);
        let closed = tables[n].receive.dom().contains(id.0) && tables[n].receive[id.0].closed;
        if closed {
            let (i, code) = choose|i: int, code: Option<quinn_proto::VarInt>|
                0 <= i < n && #[trigger] traces[i].callbacks(handle).contains(
                    ConnectionCallback::ClosedReceiveStream(id, code),
                );
            assert(closed_by(traces, handle, id, n + 1));
        } else if traces[n].read_out(tables[n]).receive[id.0].closed {
            let code = choose|code: Option<quinn_proto::VarInt>| #[trigger]
                traces[n].callbacks(handle).contains(
                    ConnectionCallback::ClosedReceiveStream(id, code),
                );
            assert(traces[n].callbacks(handle).contains(
                ConnectionCallback::ClosedReceiveStream(id, code),
            ));
        }
    }
}

/// A receive stream is reported to be finished only after it was reported to be closed, in the
/// same update or in an earlier one, if it was not closed at the beginning.
pub proof fn law_finished_streams_were_reported_closed(
    tables: Seq<TableView>,
    traces: Seq<UpdateTrace>,
    sides: Seq<SideView>,
    handle: usize,
    id: StreamId,
    n: int,
)
    requires
        history(tables, traces, sides),
        !(tables[0].receive.dom().contains(id.0) && tables[0].receive[id.0].closed),
        0 <= n < traces.len(),
        traces[n].callbacks(handle).contains(ConnectionCallback::FinishedReceiveStream(id)),
    ensures
        closed_by(traces, handle, id, n + 1),
{
    law_finished_streams_are_reported_and_gone(traces[n], tables[n], sides[n], handle, id);
    lemma_closed_by(tables, traces, sides, handle, id, n);
}

/// A connection is established once that has been reported, with the handle by which the
/// endpoint knows it.
pub proof fn law_established_connections_are_reported(
    trace: UpdateTrace,
    table: TableView,
    side: SideView,
    handle: usize,
    reported: usize,
)
    requires
        trace.possible(table, side),
    ensures
        trace.result(table).connected <==> table.connected || trace.callbacks(handle).contains(
            ConnectionCallback::SuccessfulConnection(handle),
        ),
        trace.callbacks(handle).contains(ConnectionCallback::SuccessfulConnection(reported))
            ==> reported == handle,
{
    lemma_before_reading(trace, table, side, 0);
    lemma_reads_keep(trace.reading(table), side.client, trace.read, trace.steps, 0);
    lemma_writes_keep(trace.swept(table), trace.written, trace.writes, 0);
    law_reports(trace, handle, ConnectionCallback::SuccessfulConnection(handle));
    law_reports(trace, handle, ConnectionCallback::SuccessfulConnection(reported));
}

/// A send stream is reported to be closed exactly when the peer stopped it, and the buffer that
/// it had is then gone. Streams that this side finishes are not reported.
pub proof fn law_stopped_send_streams_are_reported_and_gone(
    trace: UpdateTrace,
    table: TableView,
    side: SideView,
    handle: usize,
    id: StreamId,
)
    requires
        trace.possible(table, side),
        fits(table, side),
    ensures
        stopped(trace.events(), id.0) <==> exists|code: quinn_proto::VarInt| #[trigger]
            trace.callbacks(handle).contains(ConnectionCallback::ClosedSendStream(id, code)),
        stopped(trace.events(), id.0) && table.send.dom().contains(id.0) ==> !trace.result(
            table,
        ).send.dom().contains(id.0),
{
    if stopped(trace.events(), id.0) {
        let i = choose|i: int|
            #![trigger trace.events()[i]]
            0 <= i < trace.events().len() && trace.events()[i] is StreamStopped
                && trace.events()[i]->StreamStopped_0 == id.0;
        let code = trace.events()[i]->StreamStopped_1;
        assert(trace.events()[i] == ProtoEvent::StreamStopped(id.0, code));
        law_reports(trace, handle, ConnectionCallback::ClosedSendStream(id, code));
    }
    assert forall|code: quinn_proto::VarInt| #[trigger]
        trace.callbacks(handle).contains(
            ConnectionCallback::ClosedSendStream(id, code),
        ) implies stopped(trace.events(), id.0) by {
        law_reports(trace, handle, ConnectionCallback::ClosedSendStream(id, code));
        let i = trace.events().index_of(ProtoEvent::StreamStopped(id.0, code));
        assert(trace.events()[i] is StreamStopped);
    }
    lemma_accepted_streams_are_new(trace, table, side, id.0);
    lemma_before_writing(trace, table, side, id.0);
    lemma_writes_keep(trace.swept(table), trace.written, trace.writes, id.0);
}

/// Whether nothing was taken of the last attempt to write to the stream.
pub open spec fn held_up(ids: Seq<u64>, steps: Seq<WriteStep>, id: u64) -> bool {
    exists|k: int|
        #![trigger steps[k]]
        0 <= k < steps.len() && ids[k] == id && steps[k].offers.len() > 0 && match steps[k].end {
            WriteEnd::Blocked => steps[k].offers.last().outcome is Blocked,
            WriteEnd::Stalled => usize::BITS != 64 && steps[k].offers.last().outcome
                == WriteOutcome::Written(0),
            _ => false,
        }
}

/// What writing streams does: each is finished if it goes, and not if it stays; one that stays with
/// something left is held up; and no other stream is offered anything.
pub(crate) proof fn lemma_writes_end(
    table: TableView,
    ids: Seq<u64>,
    steps: Seq<WriteStep>,
    id: u64,
)
    requires
        possible_writes(table, ids, steps),
        ids.no_duplicates(),
        steps.len() <= ids.len(),
        steps.len() > 0 ==> !(steps.last().end is Failed),
    ensures
        ({
            let after = after_writes(table, ids, steps);
            let seen = ids.take(steps.len() as int).contains(id);
            &&& times(finishes_of(steps), (id, false)) == 0
            &&& times(finishes_of(steps), (id, true)) == if seen && !after.send.dom().contains(id) {
                1
            } else {
                0nat
            }
            &&& seen && after.send.dom().contains(id) && after.send[id].data.len() > 0 ==> held_up(
                ids,
                steps,
                id,
            )
            &&& seen && after.send.dom().contains(id) && after.send[id].closed
                ==> after.send[id].data.len() > 0
            &&& !seen ==> forall|i: int|
                0 <= i < offers_of(steps).len() ==> (#[trigger] offers_of(steps)[i]).id != id
        }),
    decreases steps.len(),
{
    if steps.len() > 0 {
        let before = steps.drop_last();
        let n = before.len() as int;
        let last = steps[n];
        let middle = after_writes(table, ids, before);
        lemma_writes_end(table, ids, before, id);
        lemma_writes_keep(table, ids, before, id);
        assert(ids.take(n + 1) == ids.take(n).push(ids[n]));
        crate::streams::lemma_push_contains(ids.take(n), ids[n]);
        lemma_times_concat(finishes_of(before), last.finishes, (id, true));
        lemma_times_concat(finishes_of(before), last.finishes, (id, false));
        lemma_times_few(last.finishes, (id, true));
        lemma_times_few(last.finishes, (id, false));
        lemma_run_taken(middle.send[ids[n]].data, ids[n], last.offers, id);
        if ids[n] == id {
            assert(!ids.take(n).contains(id)) by {
                if ids.take(n).contains(id) {
                    let j = ids.take(n).index_of(id);
                    assert(ids[j] == id);
                }
            }
        } else if held_up(ids, before, id) {
            let k = choose|k: int|
                #![trigger before[k]]
                0 <= k < before.len() && ids[k] == id && before[k].offers.len() > 0
                    && match before[k].end {
                    WriteEnd::Blocked => before[k].offers.last().outcome is Blocked,
                    WriteEnd::Stalled => usize::BITS != 64 && before[k].offers.last().outcome
                        == WriteOutcome::Written(0),
                    _ => false,
                };
            assert(steps[k] == before[k]);
        }
        if !ids.take(n + 1).contains(id) {
            assert forall|i: int| 0 <= i < offers_of(steps).len() implies (#[trigger] offers_of(
                steps,
            )[i]).id != id by {
                let m = offers_of(before).len();
                if i < m {
                    assert(offers_of(steps)[i] == offers_of(before)[i]);
                } else {
                    assert(offers_of(steps)[i] == last.offers[i - m]);
                }
            }
        }
    }
}

/// A send stream is finished once, when it goes because it is closed and everything has been
/// sent, and is not finished as long as it stays. One with something left is held up: nothing
/// was taken of the last attempt to write to it. A closed one stays only as long as something is
/// left.
pub proof fn law_send_streams_are_finished_when_they_go(
    trace: UpdateTrace,
    table: TableView,
    side: SideView,
    id: u64,
)
    requires
        trace.possible(table, side),
    ensures
        ({
            let swept = trace.swept(table);
            let after = trace.result(table);
            let finishes = finishes_of(trace.writes);
            &&& times(finishes, (id, false)) == 0
            &&& times(finishes, (id, true)) == if swept.send.dom().contains(id)
                && !after.send.dom().contains(id) {
                1
            } else {
                0nat
            }
            &&& after.send.dom().contains(id) && after.send[id].data.len() > 0 ==> held_up(
                trace.written,
                trace.writes,
                id,
            )
            &&& after.send.dom().contains(id) && after.send[id].closed ==> after.send[id].data.len()
                > 0
        }),
{
    lemma_writes_end(trace.swept(table), trace.written, trace.writes, id);
    lemma_writes_keep(trace.swept(table), trace.written, trace.writes, id);
    assert(trace.written.take(trace.written.len() as int) == trace.written);
    assert(trace.written.to_set().contains(id) <==> trace.written.contains(id));
}

/// Nothing is offered on a send stream of which there was a buffer, once the peer stopped it.
pub proof fn law_nothing_is_offered_on_stopped_streams(
    trace: UpdateTrace,
    table: TableView,
    side: SideView,
    id: u64,
    i: int,
)
    requires
        trace.possible(table, side),
        fits(table, side),
        table.send.dom().contains(id),
        stopped(trace.events(), id),
        0 <= i < offers_of(trace.writes).len(),
    ensures
        offers_of(trace.writes)[i].id != id,
{
    lemma_accepted_streams_are_new(trace, table, side, id);
    lemma_before_writing(trace, table, side, id);
    lemma_writes_end(trace.swept(table), trace.written, trace.writes, id);
    assert(trace.written.take(trace.written.len() as int) == trace.written);
    assert(trace.written.to_set().contains(id) <==> trace.written.contains(id));
}

/// How often polling gives an event.
pub(crate) proof fn lemma_times_round(events: Seq<ProtoEvent>, event: ProtoEvent)
    ensures
        times(round(events), Some(event)) == times(events, event),
    decreases events.len(),
{
    reveal_with_fuel(times, 3);
    if events.len() > 0 {
        let before = events.drop_last();
        lemma_times_round(before, event);
        assert(round(events).drop_last() =~= round(before).drop_last().push(Some(events.last())));
        assert(round(events).drop_last().drop_last() =~= round(before).drop_last());
    }
}

/// How often polling gives an event after the answers of the endpoint.
pub(crate) proof fn lemma_times_relayed(relays: Seq<Relay>, event: ProtoEvent)
    requires
        forall|i: int|
            0 <= i < relays.len() && (#[trigger] relays[i]).answer is None
                ==> relays[i].events.len() == 0,
    ensures
        times(relay_polls(relays), Some(event)) == times(relay_events(relays), event),
    decreases relays.len(),
{
    if relays.len() > 0 {
        let before = relays.drop_last();
        let last = relays[relays.len() - 1];
        assert forall|i: int|
            0 <= i < before.len() && (#[trigger] before[i]).answer is None implies {
            before[i].events.len() == 0
        } by {
            assert(before[i] == relays[i]);
        }
        lemma_times_relayed(before, event);
        lemma_times_concat(relay_events(before), last.events, event);
        lemma_times_concat(relay_polls(before), round(last.events), Some(event));
        lemma_times_round(last.events, event);
    }
}

/// How often polling gave an event.
pub(crate) proof fn lemma_times_polled(trace: UpdateTrace, event: ProtoEvent)
    requires
        trace.possible_relays(),
    ensures
        times(trace.polls(), Some(event)) == times(trace.events(), event),
{
    lemma_times_round(trace.first, event);
    lemma_times_relayed(trace.relays, event);
    lemma_times_concat(trace.first, relay_events(trace.relays), event);
    lemma_times_concat(round(trace.first), relay_polls(trace.relays), Some(event));
}

/// A connection reports what polling gave: that it is established as often as the protocol told
/// so, that the peer closed a send stream as often as the protocol told that, and that it is
/// drained once, if it is. A send stream that this side closed is not reported on that account.
pub proof fn law_events_are_reported(
    before: Connection,
    after: Connection,
    endpoint_before: ProtoEndpoint,
    endpoint_after: ProtoEndpoint,
    now: Instant,
    report: UpdateReport,
    reported: Seq<ConnectionCallback>,
    id: StreamId,
    code: quinn_proto::VarInt,
)
    requires
        updated(before, after, endpoint_before, endpoint_after, now, report, reported),
        report.failure is None,
    ensures
        ({
            let polls = after.record().polled.skip(before.record().polled.len() as int);
            &&& times(reported, ConnectionCallback::SuccessfulConnection(before.handle())) == times(
                polls,
                Some(ProtoEvent::Connected),
            )
            &&& times(reported, ConnectionCallback::ClosedSendStream(id, code)) == times(
                polls,
                Some(ProtoEvent::StreamStopped(id.0, code)),
            )
            &&& times(reported, ConnectionCallback::CloseConnection) == if report.drained {
                1
            } else {
                0nat
            }
        }),
{
    let handle = before.handle();
    let side = before.side();
    let trace = choose|trace: UpdateTrace| #[trigger]
        explains(trace, before, after, now, report.failure) && trace.drained() == report.drained
            && reported == trace.callbacks(handle);
    let polls = after.record().polled.skip(before.record().polled.len() as int);
    assert(polls =~= trace.polls());
    law_reports_are_not_repeated(
        trace,
        before@,
        side,
        handle,
        ConnectionCallback::SuccessfulConnection(handle),
    );
    law_reports_are_not_repeated(
        trace,
        before@,
        side,
        handle,
        ConnectionCallback::ClosedSendStream(id, code),
    );
    law_reports_are_not_repeated(
        trace,
        before@,
        side,
        handle,
        ConnectionCallback::CloseConnection,
    );
    law_reports(trace, handle, ConnectionCallback::CloseConnection);
    lemma_times_polled(trace, ProtoEvent::Connected);
    lemma_times_polled(trace, ProtoEvent::StreamStopped(id.0, code));
}

/// The bytes that were given when a stream was read, in order.
pub open spec fn given_of(calls: Seq<ReadCall>, id: u64) -> Seq<u8>
    decreases calls.len(),
{
    if calls.len() == 0 {
        seq![]
    } else {
        let before = given_of(calls.drop_last(), id);
        match calls.last().reply {
            Ok(ReadOutcome::Data(bytes)) if calls.last().id == id => before + bytes@,
            _ => before,
        }
    }
}

/// What is given in two batches is what is given in both.
pub(crate) proof fn lemma_given_concat(a: Seq<ReadCall>, b: Seq<ReadCall>, id: u64)
    ensures
        given_of(a + b, id) == given_of(a, id) + given_of(b, id),
    decreases b.len(),
{
    if b.len() == 0 {
        assert(a + b =~= a);
        assert(given_of(a, id) + given_of(b, id) =~= given_of(a, id));
    } else {
        assert((a + b).drop_last() =~= a + b.drop_last());
        lemma_given_concat(a, b.drop_last(), id);
        assert(given_of(a + b, id) =~= given_of(a, id) + given_of(b, id));
    }
}

/// What is given when one stream is read.
proof fn lemma_run_given(budget: nat, read: u64, calls: Seq<ReadCall>, id: u64)
    requires
        read_run(budget, read, calls),
    ensures
        given_of(calls, id) == if id == read {
            data_of(calls)
        } else {
            Seq::<u8>::empty()
        },
    decreases calls.len(),
{
    if calls.len() > 0 {
        lemma_run_given(budget, read, calls.drop_last(), id);
    }
}

/// What is given when streams are read goes to their buffers.
pub(crate) proof fn lemma_reads_given(
    table: TableView,
    client: bool,
    ids: Seq<u64>,
    steps: Seq<ReadStep>,
    id: u64,
)
    requires
        possible_reads(table, client, ids, steps),
        table.receive.dom().contains(id),
    ensures
        after_reads(table, ids, steps).receive.dom().contains(id),
        after_reads(table, ids, steps).receive[id].data == table.receive[id].data + given_of(
            calls_of(steps),
            id,
        ),
    decreases steps.len(),
{
    if steps.len() == 0 {
        assert(table.receive[id].data + Seq::<u8>::empty() =~= table.receive[id].data);
    } else {
        let before = steps.drop_last();
        let last = steps.last();
        let read = ids[steps.len() - 1];
        let middle = after_reads(table, ids, before);
        lemma_reads_given(table, client, ids, before, id);
        lemma_given_concat(calls_of(before), last.calls, id);
        if last.calls.len() == 0 {
            assert(calls_of(before) + last.calls =~= calls_of(before));
        } else {
            lemma_run_given(middle.budget, read, last.calls, id);
        }
        assert(after_reads(table, ids, steps).receive[id].data =~= table.receive[id].data
            + given_of(calls_of(steps), id));
    }
}

/// What the protocol gives when a stream is read reaches the application, in order and without a
/// gap: when an update is completed, a receive stream that is still there has grown by exactly
/// the bytes that the protocol gave, and of one that is gone there were none left, and none were
/// given.
pub proof fn law_received_bytes_reach_the_application(
    before: Connection,
    after: Connection,
    endpoint_before: ProtoEndpoint,
    endpoint_after: ProtoEndpoint,
    now: Instant,
    report: UpdateReport,
    reported: Seq<ConnectionCallback>,
    id: StreamId,
)
    requires
        before.wf(),
        updated(before, after, endpoint_before, endpoint_after, now, report, reported),
        report.failure is None,
        before@.receive.dom().contains(id.0) || after@.receive.dom().contains(id.0),
    ensures
        ({
            let given = given_of(
                after.record().reads.skip(before.record().reads.len() as int),
                id.0,
            );
            let kept = if before@.receive.dom().contains(id.0) {
                before@.receive[id.0].data
            } else {
                Seq::empty()
            };
            if after@.receive.dom().contains(id.0) {
                after@.receive[id.0].data == kept + given
            } else {
                kept.len() == 0 && given.len() == 0
            }
        }),
{
    let side = before.side();
    let trace = choose|trace: UpdateTrace| #[trigger]
        explains(trace, before, after, now, report.failure);
    let table = before@;
    assert(after.record().reads.skip(before.record().reads.len() as int) =~= calls_of(trace.steps));
    let reading = trace.reading(table);
    lemma_accepted_streams_are_new(trace, table, side, id.0);
    lemma_before_reading(trace, table, side, id.0);
    lemma_reads_keep(reading, side.client, trace.read, trace.steps, id.0);
    lemma_writes_keep(trace.swept(table), trace.written, trace.writes, id.0);
    lemma_reads_given(reading, side.client, trace.read, trace.steps, id.0);
    let read_out = trace.read_out(table);
    assert(finished_streams(read_out).contains(id.0) <==> read_out.receive[id.0].is_finished());
}

/// A receive stream that is closed does not grow, and is not reported to be closed again.
pub proof fn law_closed_receive_streams_do_not_grow(
    before: Connection,
    after: Connection,
    endpoint_before: ProtoEndpoint,
    endpoint_after: ProtoEndpoint,
    now: Instant,
    report: UpdateReport,
    reported: Seq<ConnectionCallback>,
    id: StreamId,
    code: Option<quinn_proto::VarInt>,
)
    requires
        before.wf(),
        updated(before, after, endpoint_before, endpoint_after, now, report, reported),
        report.failure is None,
        before@.receive.dom().contains(id.0),
        before@.receive[id.0].closed,
    ensures
        after@.receive.dom().contains(id.0) ==> after@.receive[id.0] == before@.receive[id.0],
        !reported.contains(ConnectionCallback::ClosedReceiveStream(id, code)),
{
    let side = before.side();
    let handle = before.handle();
    let trace = choose|trace: UpdateTrace| #[trigger]
        explains(trace, before, after, now, report.failure) && reported == trace.callbacks(handle);
    let table = before@;
    let reading = trace.reading(table);
    assert(marked(table, before.record().reads));
    assert(ended(before.record().reads, id.0));
    assert(respects_ends(trace, before));
    lemma_accepted_streams_are_new(trace, table, side, id.0);
    lemma_before_reading(trace, table, side, id.0);
    lemma_reads_keep(reading, side.client, trace.read, trace.steps, id.0);
    lemma_writes_keep(trace.swept(table), trace.written, trace.writes, id.0);
    assert(trace.read.take(trace.read.len() as int) == trace.read);
    law_reports(trace, handle, ConnectionCallback::ClosedReceiveStream(id, code));
    assert forall|k: int| 0 <= k < trace.steps.len() && trace.read[k] == id.0 implies {
        (#[trigger] trace.steps[k]).calls.len() == 0 && trace.steps[k].end is BudgetSpent
    } by {
        lemma_read_possible(reading, side.client, trace.read, trace.steps, k);
        let step = trace.steps[k];
        if step.calls.len() > 0 {
            lemma_read_failed(
                after_reads(reading, trace.read, trace.steps.take(k)).budget,
                id.0,
                step.calls,
            );
        }
    }
    if trace.read.contains(id.0) {
        let k = trace.read.index_of(id.0);
        assert(trace.steps[k].calls.len() == 0);
        lemma_read_possible(reading, side.client, trace.read, trace.steps, k);
        assert(buffer_after_read(table.receive[id.0], trace.steps[k]) =~= table.receive[id.0]);
    }
}

/// Each step is possible where it comes, and those before the last did not fail.
pub(crate) proof fn lemma_read_possible(
    table: TableView,
    client: bool,
    ids: Seq<u64>,
    steps: Seq<ReadStep>,
    k: int,
)
    requires
        possible_reads(table, client, ids, steps),
        0 <= k < steps.len(),
    ensures
        possible_read(after_reads(table, ids, steps.take(k)), client, ids[k], steps[k]),
        k < steps.len() - 1 ==> !(steps[k].end is Failed),
    decreases steps.len(),
{
    let before = steps.drop_last();
    if k < before.len() {
        lemma_read_possible(table, client, ids, before, k);
        assert(before.take(k) =~= steps.take(k));
        assert(before[k] == steps[k]);
        assert(before[before.len() - 1] == before.last());
    } else {
        assert(steps.take(k) =~= before);
    }
}

/// An attempt to read that fails is the only one, if it is the first.
proof fn lemma_read_failed(budget: nat, id: u64, calls: Seq<ReadCall>)
    requires
        read_run(budget, id, calls),
        calls.len() > 0,
        calls[0].reply is Err,
    ensures
        calls.last().reply is Err,
    decreases calls.len(),
{
    let before = calls.drop_last();
    if before.len() > 0 {
        assert(before[0] == calls[0]);
        lemma_read_failed(budget, id, before);
    }
}

/// Every byte that is received is paid for from the budget, so that an update receives no more
/// than may be received.
pub proof fn law_receiving_spends_the_budget(trace: UpdateTrace, table: TableView, side: SideView)
    requires
        trace.possible(table, side),
    ensures
        trace.result(table).budget + received(trace.steps) == table.budget,
{
    lemma_before_reading(trace, table, side, 0);
    lemma_reads_keep(trace.reading(table), side.client, trace.read, trace.steps, 0);
    lemma_writes_keep(trace.swept(table), trace.written, trace.writes, 0);
}

/// How many bytes were received during these updates.
pub open spec fn received_in_all(traces: Seq<UpdateTrace>) -> nat
    decreases traces.len(),
{
    if traces.len() == 0 {
        0
    } else {
        received_in_all(traces.drop_last()) + received(traces.last().steps)
    }
}

/// Whatever happens to a connection, it never receives more bytes, in all its updates, than its
/// budget was at the beginning: `tables` are the states before each update and after the last,
/// between which the application may do with the buffers what it likes.
pub proof fn law_the_budget_bounds_what_is_received(
    tables: Seq<TableView>,
    traces: Seq<UpdateTrace>,
    sides: Seq<SideView>,
)
    requires
        tables.len() == traces.len() + 1,
        forall|i: int|
            0 <= i < traces.len() ==> (#[trigger] traces[i]).possible(tables[i], sides[i])
                && traces[i].result(tables[i]).budget == tables[i + 1].budget,
    ensures
        received_in_all(traces) + tables.last().budget == tables[0].budget,
    decreases traces.len(),
{
    if traces.len() > 0 {
        let n = traces.len() - 1;
        let before = traces.drop_last();
        let earlier = tables.drop_last();
        assert forall|i: int| 0 <= i < before.len() implies (#[trigger] before[i]).possible(
            earlier[i],
            sides[i],
        ) && before[i].result(earlier[i]).budget == earlier[i + 1].budget by {
            assert(before[i] == traces[i]);
        }
        law_the_budget_bounds_what_is_received(earlier, before, sides);
        assert(traces[n].possible(tables[n], sides[n]));
        law_receiving_spends_the_budget(traces[n], tables[n], sides[n]);
    }
}

} // verus!
