//! What holds of every update of a connection, told from what the application sees and from the
//! record of the calls on the protocol alone.

use quinn_proto::Endpoint as ProtoEndpoint;
use std::time::Instant;
use vstd::prelude::*;

use crate::connection::{explains, informs, updated, Connection, UpdateReport};
use crate::ids::{
    can_receive, direction, opened_by, stream_index, stream_number, Dir, SideView, StreamId,
};
use crate::laws::{
    found_closed, given_of, law_reports, law_reports_are_not_repeated,
    lemma_accepted_streams_are_new, lemma_accepts_keep, lemma_before_reading,
    lemma_before_writing, lemma_offers_taken, lemma_reads_given, lemma_reads_keep,
    lemma_run_taken, lemma_taken_concat, lemma_times_concat, lemma_times_polled,
    lemma_writes_end, lemma_writes_keep, stopped, times,
};
use crate::proto::{
    acceptable, deadline, dials, discovers_mtu, endpoint_record, handled, instant_before,
    live_handles, outcomes, pending_notices, server_setup, settlements, taken_of, told, Offer,
    ProtoEvent, ReadCall, ReadFailure, Renewal, Told, WriteOutcome,
};
use crate::streams::{
    accept_callbacks, after_event, after_finished, event_callbacks, finished_callbacks,
    law_finished_streams_go, lemma_push_contains, ConnectionCallback, ReadOutcome, TableView,
};
use crate::trace::{
    accepts_callbacks, after_accepts, after_events, after_reads, after_writes, calls_of, data_of,
    drained_callbacks, events_callbacks, finishes_of, lemma_events_concat, notices_of, offers_of,
    possible_read, possible_reads, possible_write, possible_writes, probes_of, read_callbacks,
    read_run, reads_callbacks, relay_events, relay_polls, remote_streams, renewals, round, sent_by,
    told_of, write_run, ReadEnd, ReadStep, Relay, UpdateError, UpdateTrace, WriteEnd, WriteStep,
};

verus! {

/// An update of a connection: how it and its endpoint were before and after, when it was made, how
/// it went and what it reported.
pub struct Update {
    pub before: Connection,
    pub after: Connection,
    pub endpoint_before: ProtoEndpoint,
    pub endpoint_after: ProtoEndpoint,
    pub now: Instant,
    pub report: UpdateReport,
    pub reported: Seq<ConnectionCallback>,
}

/// What has been added to a record.
pub open spec fn since<T>(after: Seq<T>, before: Seq<T>) -> Seq<T> {
    after.skip(before.len() as int)
}

impl Update {
    /// Whether there can be such an update.
    pub open spec fn happened(self) -> bool {
        &&& self.before.wf()
        &&& updated(
            self.before,
            self.after,
            self.endpoint_before,
            self.endpoint_after,
            self.now,
            self.report,
            self.reported,
        )
    }

    /// Whether there can be such an update, and it is completed.
    pub open spec fn completed(self) -> bool {
        self.happened() && self.report.failure is None
    }

    /// What polling for application events gave.
    pub open spec fn polls(self) -> Seq<Option<ProtoEvent>> {
        since(self.after.record().polled, self.before.record().polled)
    }

    /// The events for the endpoint that polling gave.
    pub open spec fn notices(self) -> Seq<bool> {
        since(self.after.record().noticed, self.before.record().noticed)
    }

    /// The identifiers that the protocol was given.
    pub open spec fn renewals(self) -> Seq<Renewal> {
        since(self.after.record().renewed, self.before.record().renewed)
    }

    /// The streams that were opened for reading, without reading.
    pub open spec fn probes(self) -> Seq<(u64, Option<ReadFailure>)> {
        since(self.after.record().probes, self.before.record().probes)
    }

    /// The attempts to read.
    pub open spec fn reads(self) -> Seq<ReadCall> {
        since(self.after.record().reads, self.before.record().reads)
    }

    /// The attempts to write.
    pub open spec fn offers(self) -> Seq<Offer> {
        since(self.after.record().offers, self.before.record().offers)
    }

    /// The attempts to finish a stream.
    pub open spec fn finishes(self) -> Seq<(u64, bool)> {
        since(self.after.record().finishes, self.before.record().finishes)
    }

    /// What the endpoint was told.
    pub open spec fn told(self) -> Seq<Told> {
        since(told(self.endpoint_after), told(self.endpoint_before))
    }

    /// Whether the stream is one of the peer that was accepted during the update.
    pub open spec fn accepts(self, id: u64) -> bool {
        &&& !opened_by(self.before.client(), id)
        &&& self.before.side().accepted(direction(id)) <= stream_index(id)
        &&& stream_index(id) < self.after.side().accepted(direction(id))
    }
}

/// What the protocol gave during an update, and how the records show it.
proof fn lemma_trace(update: Update) -> (trace: UpdateTrace)
    requires
        update.happened(),
    ensures
        explains(trace, update.before, update.after, update.now, update.report.failure),
        informs(trace, update.before.handle(), update.endpoint_before, update.endpoint_after),
        trace.drained() == update.report.drained,
        update.reported == trace.callbacks(update.before.handle()),
        update.polls() == trace.polls(),
        update.notices() == trace.noticed(),
        update.renewals() == renewals(
            update.before.record().noticed.len(),
            update.before.record().polled.len() + round(trace.first).len(),
            trace.relays,
        ),
        update.probes() == probes_of(trace.steps),
        update.reads() == calls_of(trace.steps),
        update.offers() == offers_of(trace.writes),
        update.finishes() == finishes_of(trace.writes),
        update.told() == told_of(update.before.handle(), trace.relays),
{
    let trace = choose|trace: UpdateTrace|
        {
            &&& #[trigger] explains(
                trace,
                update.before,
                update.after,
                update.now,
                update.report.failure,
            )
            &&& informs(
                trace,
                update.before.handle(),
                update.endpoint_before,
                update.endpoint_after,
            )
            &&& trace.drained() == update.report.drained
            &&& update.reported == trace.callbacks(update.before.handle())
        };
    assert(update.polls() =~= trace.polls());
    assert(update.notices() =~= trace.noticed());
    assert(update.renewals() =~= renewals(
        update.before.record().noticed.len(),
        update.before.record().polled.len() + round(trace.first).len(),
        trace.relays,
    ));
    assert(update.probes() =~= probes_of(trace.steps));
    assert(update.reads() =~= calls_of(trace.steps));
    assert(update.offers() =~= offers_of(trace.writes));
    assert(update.finishes() =~= finishes_of(trace.writes));
    assert(update.told() =~= told_of(update.before.handle(), trace.relays));
    trace
}

/// The streams that were accepted are those that the counts tell.
proof fn lemma_accepted(trace: UpdateTrace, side: SideView, id: u64)
    requires
        remote_streams(side, Dir::Uni, trace.uni),
        remote_streams(side, Dir::Bi, trace.bi),
    ensures
        ({
            let after = trace.side_after(side);
            let next = !opened_by(side.client, id) && side.accepted(direction(id)) <= stream_index(
                id,
            ) < after.accepted(direction(id));
            &&& trace.uni.contains(id) <==> next && direction(id) is Uni
            &&& trace.bi.contains(id) <==> next && direction(id) is Bi
        }),
{
    if trace.uni.contains(id) {
        let i = trace.uni.index_of(id);
        assert(trace.uni[i] == stream_number(!side.client, Dir::Uni, (side.uni + i) as nat));
    }
    if trace.bi.contains(id) {
        let i = trace.bi.index_of(id);
        assert(trace.bi[i] == stream_number(!side.client, Dir::Bi, (side.bi + i) as nat));
    }
    let i = stream_index(id) - side.accepted(direction(id));
    if !opened_by(side.client, id) && 0 <= i {
        if direction(id) is Uni && i < trace.uni.len() {
            assert(trace.uni[i] == stream_number(!side.client, Dir::Uni, (side.uni + i) as nat));
            assert(trace.uni[i] == id);
        }
        if direction(id) is Bi && i < trace.bi.len() {
            assert(trace.bi[i] == stream_number(!side.client, Dir::Bi, (side.bi + i) as nat));
            assert(trace.bi[i] == id);
        }
    }
}

/// Something occurs in a sequence if the sequence contains it.
proof fn lemma_times_contains<T>(all: Seq<T>, item: T)
    ensures
        times(all, item) > 0 <==> all.contains(item),
    decreases all.len(),
{
    if all.len() > 0 {
        let before = all.drop_last();
        lemma_times_contains(before, item);
        assert(all[all.len() - 1] == all.last());
        if before.contains(item) {
            let i = before.index_of(item);
            assert(all[i] == item);
        }
        if all.contains(item) && all.last() != item {
            let i = all.index_of(item);
            assert(before[i] == item);
        }
    }
}

/// The events are what polling gave.
proof fn lemma_polled(trace: UpdateTrace, event: ProtoEvent)
    requires
        trace.possible_relays(),
    ensures
        trace.events().contains(event) <==> trace.polls().contains(Some(event)),
{
    lemma_times_polled(trace, event);
    lemma_times_contains(trace.events(), event);
    lemma_times_contains(trace.polls(), Some(event));
}

/// Which streams are to be read after events.
proof fn lemma_events_readable(table: TableView, events: Seq<ProtoEvent>, id: u64)
    ensures
        after_events(table, events).readable.contains(id) <==> table.readable.contains(id)
            || events.contains(ProtoEvent::StreamReadable(id)),
    decreases events.len(),
{
    if events.len() > 0 {
        let rest = events.drop_first();
        let event = ProtoEvent::StreamReadable(id);
        lemma_events_readable(after_event(table, events[0]), rest, id);
        if rest.contains(event) {
            let i = rest.index_of(event);
            assert(events[i + 1] == event);
        }
        if events.contains(event) && events[0] != event {
            let i = events.index_of(event);
            assert(rest[i - 1] == event);
        }
    }
}

/// Whether the protocol was asked for the data of the stream: an attempt was made to read from it,
/// or, if no more bytes may be received, to open it for reading.
pub open spec fn asks(
    reads: Seq<ReadCall>,
    probes: Seq<(u64, Option<ReadFailure>)>,
    id: u64,
) -> bool {
    ||| exists|i: int| #![trigger reads[i]] 0 <= i < reads.len() && reads[i].id == id
    ||| exists|i: int| #![trigger probes[i]] 0 <= i < probes.len() && probes[i].0 == id
}

/// Whether the protocol was asked, in one or the other of two batches.
proof fn lemma_asks_concat(
    reads: Seq<ReadCall>,
    more_reads: Seq<ReadCall>,
    probes: Seq<(u64, Option<ReadFailure>)>,
    more_probes: Seq<(u64, Option<ReadFailure>)>,
    id: u64,
)
    ensures
        asks(reads + more_reads, probes + more_probes, id) <==> asks(reads, probes, id) || asks(
            more_reads,
            more_probes,
            id,
        ),
{
    let all = reads + more_reads;
    let every = probes + more_probes;
    if asks(all, every, id) {
        if exists|i: int| #![trigger all[i]] 0 <= i < all.len() && all[i].id == id {
            let i = choose|i: int| #![trigger all[i]] 0 <= i < all.len() && all[i].id == id;
            if i < reads.len() {
                assert(reads[i] == all[i]);
            } else {
                assert(more_reads[i - reads.len()] == all[i]);
            }
        } else {
            let i = choose|i: int| #![trigger every[i]] 0 <= i < every.len() && every[i].0 == id;
            if i < probes.len() {
                assert(probes[i] == every[i]);
            } else {
                assert(more_probes[i - probes.len()] == every[i]);
            }
        }
    }
    if asks(reads, probes, id) {
        if exists|i: int| #![trigger reads[i]] 0 <= i < reads.len() && reads[i].id == id {
            let i = choose|i: int| #![trigger reads[i]] 0 <= i < reads.len() && reads[i].id == id;
            assert(all[i] == reads[i]);
        } else {
            let i = choose|i: int| #![trigger probes[i]] 0 <= i < probes.len() && probes[i].0 == id;
            assert(every[i] == probes[i]);
        }
    }
    if asks(more_reads, more_probes, id) {
        if exists|i: int| #![trigger more_reads[i]] 0 <= i < more_reads.len() && more_reads[i].id
            == id {
            let i = choose|i: int|
                #![trigger more_reads[i]]
                0 <= i < more_reads.len() && more_reads[i].id == id;
            assert(all[reads.len() + i] == more_reads[i]);
        } else {
            let i = choose|i: int|
                #![trigger more_probes[i]]
                0 <= i < more_probes.len() && more_probes[i].0 == id;
            assert(every[probes.len() + i] == more_probes[i]);
        }
    }
}

/// How many bytes attempts to read gave.
pub open spec fn bytes_in(calls: Seq<ReadCall>) -> nat
    decreases calls.len(),
{
    if calls.len() == 0 {
        0
    } else {
        bytes_in(calls.drop_last()) + match calls.last().reply {
            Ok(ReadOutcome::Data(bytes)) => bytes@.len(),
            _ => 0,
        }
    }
}

/// What two batches of attempts gave.
proof fn lemma_bytes_concat(a: Seq<ReadCall>, b: Seq<ReadCall>)
    ensures
        bytes_in(a + b) == bytes_in(a) + bytes_in(b),
    decreases b.len(),
{
    if b.len() == 0 {
        assert(a + b =~= a);
    } else {
        assert((a + b).drop_last() =~= a + b.drop_last());
        lemma_bytes_concat(a, b.drop_last());
    }
}

/// How attempts to read a stream follow one another.
proof fn lemma_run_follows(budget: nat, id: u64, calls: Seq<ReadCall>)
    requires
        read_run(budget, id, calls),
    ensures
        bytes_in(calls) == data_of(calls).len(),
        forall|i: int| 0 <= i < calls.len() ==> (#[trigger] calls[i]).id == id && 0
            < calls[i].max_length && calls[i].max_length + bytes_in(calls.take(i)) == budget,
        forall|i: int|
            0 <= i < calls.len() ==> ((#[trigger] calls[i]).reply matches Ok(
                ReadOutcome::Data(bytes),
            ) ==> 0 < bytes@.len() <= calls[i].max_length),
        forall|i: int|
            0 <= i < calls.len() - 1 ==> ((#[trigger] calls[i]).reply matches Ok(
                ReadOutcome::Data(_),
            )),
    decreases calls.len(),
{
    if calls.len() > 0 {
        let before = calls.drop_last();
        let n = before.len() as int;
        lemma_run_follows(budget, id, before);
        assert(calls.take(n) =~= before);
        assert forall|i: int| 0 <= i < calls.len() implies (#[trigger] calls[i]).id == id && 0
            < calls[i].max_length && calls[i].max_length + bytes_in(calls.take(i)) == budget by {
            if i < n {
                assert(before[i] == calls[i]);
                assert(before.take(i) =~= calls.take(i));
            }
        }
        assert forall|i: int| 0 <= i < calls.len() implies ((#[trigger] calls[i]).reply matches Ok(
            ReadOutcome::Data(bytes),
        ) ==> 0 < bytes@.len() <= calls[i].max_length) by {
            if i < n {
                assert(before[i] == calls[i]);
            }
        }
        assert forall|i: int| 0 <= i < calls.len() - 1 implies ((
        #[trigger] calls[i]).reply matches Ok(ReadOutcome::Data(_))) by {
            assert(before[i] == calls[i]);
            if i == n - 1 {
                assert(before.last() == before[n - 1]);
            }
        }
    }
}

/// Whether these are attempts to read, one after the other, when so many bytes may be received:
/// each is allowed as many as are left, which is at least one; and one that gives some, but fewer
/// than it was allowed, is followed by another one on the same stream.
pub open spec fn exhaustive(budget: nat, calls: Seq<ReadCall>) -> bool {
    forall|i: int| #![trigger calls[i]]
        0 <= i < calls.len() ==> {
            &&& 0 < calls[i].max_length
            &&& calls[i].max_length + bytes_in(calls.take(i)) == budget
            &&& calls[i].reply matches Ok(ReadOutcome::Data(bytes)) ==> {
                &&& 0 < bytes@.len() <= calls[i].max_length
                &&& bytes@.len() < calls[i].max_length ==> i + 1 < calls.len() && calls[i + 1].id
                    == calls[i].id
            }
        }
}

/// Attempts to read follow attempts to read.
proof fn lemma_exhaustive_concat(budget: nat, first: Seq<ReadCall>, more: Seq<ReadCall>)
    requires
        exhaustive(budget, first),
        bytes_in(first) <= budget,
        exhaustive((budget - bytes_in(first)) as nat, more),
    ensures
        exhaustive(budget, first + more),
{
    let all = first + more;
    let m = first.len() as int;
    assert forall|i: int| #![trigger all[i]] 0 <= i < all.len() implies {
        &&& 0 < all[i].max_length
        &&& all[i].max_length + bytes_in(all.take(i)) == budget
        &&& all[i].reply matches Ok(ReadOutcome::Data(bytes)) ==> {
            &&& 0 < bytes@.len() <= all[i].max_length
            &&& bytes@.len() < all[i].max_length ==> i + 1 < all.len() && all[i + 1].id == all[i].id
        }
    } by {
        if i < m {
            assert(all[i] == first[i]);
            assert(all.take(i) =~= first.take(i));
            if i + 1 < m {
                assert(all[i + 1] == first[i + 1]);
            }
        } else {
            let j = i - m;
            assert(all[i] == more[j]);
            assert(all.take(i) =~= first + more.take(j));
            lemma_bytes_concat(first, more.take(j));
            if j + 1 < more.len() {
                assert(all[i + 1] == more[j + 1]);
            }
        }
    }
}

/// How attempts to read one stream follow one another.
proof fn lemma_step_exhaustive(table: TableView, client: bool, id: u64, step: ReadStep)
    requires
        possible_read(table, client, id, step),
    ensures
        exhaustive(table.budget, step.calls),
        bytes_in(step.calls) == step.data.len(),
{
    let calls = step.calls;
    if calls.len() > 0 {
        lemma_run_follows(table.budget, id, calls);
        assert forall|i: int| #![trigger calls[i]] 0 <= i < calls.len() implies {
            &&& 0 < calls[i].max_length
            &&& calls[i].max_length + bytes_in(calls.take(i)) == table.budget
            &&& calls[i].reply matches Ok(ReadOutcome::Data(bytes)) ==> {
                &&& 0 < bytes@.len() <= calls[i].max_length
                &&& bytes@.len() < calls[i].max_length ==> i + 1 < calls.len() && calls[i + 1].id
                    == calls[i].id
            }
        } by {
            if i + 1 < calls.len() {
                assert(calls[i + 1].id == id);
            } else {
                assert(calls[i] == calls.last());
                assert(calls.take(i) =~= calls.drop_last());
            }
        }
    }
}

/// How attempts to read streams follow one another.
#[verifier::rlimit(40)]
proof fn lemma_reads_follow(table: TableView, client: bool, ids: Seq<u64>, steps: Seq<ReadStep>)
    requires
        possible_reads(table, client, ids, steps),
    ensures
        exhaustive(table.budget, calls_of(steps)),
        after_reads(table, ids, steps).budget + bytes_in(calls_of(steps)) == table.budget,
        probes_of(steps).len() > 0 ==> after_reads(table, ids, steps).budget == 0,
    decreases steps.len(),
{
    if steps.len() > 0 {
        let before = steps.drop_last();
        let last = steps.last();
        let middle = after_reads(table, ids, before);
        lemma_reads_follow(table, client, ids, before);
        lemma_bytes_concat(calls_of(before), last.calls);
        lemma_step_exhaustive(middle, client, ids[steps.len() - 1], last);
        lemma_exhaustive_concat(table.budget, calls_of(before), last.calls);
    }
}

/// Which streams the protocol is asked for.
proof fn lemma_reads_ask(
    table: TableView,
    client: bool,
    ids: Seq<u64>,
    steps: Seq<ReadStep>,
    id: u64,
)
    requires
        possible_reads(table, client, ids, steps),
        steps.len() <= ids.len(),
        steps.len() > 0 ==> !(steps.last().end is Failed),
    ensures
        asks(calls_of(steps), probes_of(steps), id) <==> ids.take(steps.len() as int).contains(id),
    decreases steps.len(),
{
    if steps.len() > 0 {
        let before = steps.drop_last();
        let last = steps.last();
        let n = before.len() as int;
        let middle = after_reads(table, ids, before);
        lemma_reads_ask(table, client, ids, before, id);
        lemma_asks_concat(calls_of(before), last.calls, probes_of(before), last.probes, id);
        assert(ids.take(n + 1) == ids.take(n).push(ids[n]));
        lemma_push_contains(ids.take(n), ids[n]);
        if last.calls.len() > 0 {
            lemma_run_follows(middle.budget, ids[n], last.calls);
            assert(last.calls[0].id == ids[n]);
        } else {
            assert(last.probes[0].0 == ids[n]);
        }
    }
}

/// Every stream that has data ready is read during an update that is completed: those that the
/// protocol said before are readable, those of which polling tells, whatever streams they are, and
/// those that are accepted. No other stream is read, and none is left to be read.
pub proof fn law_ready_streams_are_read(update: Update, id: u64)
    requires
        update.completed(),
    ensures
        asks(update.reads(), update.probes(), id) <==> update.before@.readable.contains(id)
            || update.polls().contains(Some(ProtoEvent::StreamReadable(id))) || update.accepts(id),
        !update.after@.readable.contains(id),
{
    let trace = lemma_trace(update);
    let table = update.before@;
    let side = update.before.side();
    lemma_accepted(trace, side, id);
    lemma_polled(trace, ProtoEvent::StreamReadable(id));
    lemma_events_readable(table, trace.events(), id);
    let first = after_events(table, trace.events());
    let second = after_accepts(first, Dir::Uni, trace.uni);
    lemma_accepts_keep(first, Dir::Uni, trace.uni, id);
    lemma_accepts_keep(second, Dir::Bi, trace.bi, id);
    let reading = trace.reading(table);
    lemma_reads_ask(reading, side.client, trace.read, trace.steps, id);
    lemma_reads_keep(reading, side.client, trace.read, trace.steps, id);
    lemma_writes_keep(trace.swept(table), trace.written, trace.writes, id);
    assert(trace.read.take(trace.read.len() as int) =~= trace.read);
    assert(trace.read.to_set().contains(id) <==> trace.read.contains(id));
}

/// Reading goes on until nothing more is ready or no more bytes may be received: each attempt is
/// allowed as many bytes as are left, and one that gives fewer is followed by another. All that is
/// read is paid for, and a stream is opened without reading only when nothing is left.
pub proof fn law_reading_goes_on_until_nothing_is_left(update: Update)
    requires
        update.completed(),
    ensures
        exhaustive(update.before@.budget, update.reads()),
        update.after@.budget + bytes_in(update.reads()) == update.before@.budget,
        update.probes().len() > 0 ==> update.after@.budget == 0,
{
    let trace = lemma_trace(update);
    let table = update.before@;
    let side = update.before.side();
    let reading = trace.reading(table);
    lemma_before_reading(trace, table, side, 0);
    lemma_reads_follow(reading, side.client, trace.read, trace.steps);
    lemma_writes_keep(trace.swept(table), trace.written, trace.writes, 0);
}

/// Whether reading came to the end of the stream that way: the peer finished it, or reset it with
/// that error code.
pub open spec fn ends_with(
    calls: Seq<ReadCall>,
    id: u64,
    code: Option<quinn_proto::VarInt>,
) -> bool {
    exists|i: int| #![trigger calls[i]]
        0 <= i < calls.len() && calls[i].id == id && match code {
            None => calls[i].reply == Ok::<ReadOutcome, ReadFailure>(ReadOutcome::Finished),
            Some(code) => calls[i].reply == Ok::<ReadOutcome, ReadFailure>(
                ReadOutcome::Reset(code),
            ),
        }
}

/// Whether reading came to the end, in one or the other of two batches.
proof fn lemma_ends_concat(
    a: Seq<ReadCall>,
    b: Seq<ReadCall>,
    id: u64,
    code: Option<quinn_proto::VarInt>,
)
    ensures
        ends_with(a + b, id, code) <==> ends_with(a, id, code) || ends_with(b, id, code),
{
    let all = a + b;
    if ends_with(all, id, code) {
        let i = choose|i: int| #![trigger all[i]]
            0 <= i < all.len() && all[i].id == id && match code {
                None => all[i].reply == Ok::<ReadOutcome, ReadFailure>(ReadOutcome::Finished),
                Some(code) => all[i].reply == Ok::<ReadOutcome, ReadFailure>(
                    ReadOutcome::Reset(code),
                ),
            };
        if i < a.len() {
            assert(a[i] == all[i]);
        } else {
            assert(b[i - a.len()] == all[i]);
        }
    }
    if ends_with(a, id, code) {
        let i = choose|i: int| #![trigger a[i]]
            0 <= i < a.len() && a[i].id == id && match code {
                None => a[i].reply == Ok::<ReadOutcome, ReadFailure>(ReadOutcome::Finished),
                Some(code) => a[i].reply == Ok::<ReadOutcome, ReadFailure>(
                    ReadOutcome::Reset(code),
                ),
            };
        assert(all[i] == a[i]);
    }
    if ends_with(b, id, code) {
        let i = choose|i: int| #![trigger b[i]]
            0 <= i < b.len() && b[i].id == id && match code {
                None => b[i].reply == Ok::<ReadOutcome, ReadFailure>(ReadOutcome::Finished),
                Some(code) => b[i].reply == Ok::<ReadOutcome, ReadFailure>(
                    ReadOutcome::Reset(code),
                ),
            };
        assert(all[a.len() + i] == b[i]);
    }
}

/// All attempts to read a stream but the last gave data, and all are on that stream.
proof fn lemma_run_call(budget: nat, id: u64, calls: Seq<ReadCall>, i: int)
    requires
        read_run(budget, id, calls),
        0 <= i < calls.len(),
    ensures
        calls[i].id == id,
        i < calls.len() - 1 ==> (calls[i].reply matches Ok(ReadOutcome::Data(_))),
{
    lemma_run_follows(budget, id, calls);
}

/// Whether the end of a stream was read shows in how reading it ended.
#[verifier::rlimit(40)]
proof fn lemma_step_ends(
    table: TableView,
    client: bool,
    read: u64,
    step: ReadStep,
    id: u64,
    code: Option<quinn_proto::VarInt>,
)
    requires
        possible_read(table, client, read, step),
    ensures
        ends_with(step.calls, id, code) <==> id == read && match code {
            None => step.end is Finished,
            Some(code) => step.end == ReadEnd::Reset(code),
        },
{
    let calls = step.calls;
    if ends_with(calls, id, code) {
        let i = choose|i: int| #![trigger calls[i]]
            0 <= i < calls.len() && calls[i].id == id && match code {
                None => calls[i].reply == Ok::<ReadOutcome, ReadFailure>(ReadOutcome::Finished),
                Some(code) => calls[i].reply == Ok::<ReadOutcome, ReadFailure>(
                    ReadOutcome::Reset(code),
                ),
            };
        lemma_run_call(table.budget, read, calls, i);
        assert(calls[i] == calls.last());
    }
    if id == read && (step.end is Finished || step.end is Reset) {
        let n = calls.len() - 1;
        lemma_run_call(table.budget, read, calls, n);
        assert(calls[n] == calls.last());
        assert(calls[n].id == id);
    }
}

/// Whether the end of a stream was read when streams were read.
proof fn lemma_reads_end(
    table: TableView,
    client: bool,
    ids: Seq<u64>,
    steps: Seq<ReadStep>,
    id: u64,
    code: Option<quinn_proto::VarInt>,
)
    requires
        possible_reads(table, client, ids, steps),
    ensures
        ends_with(calls_of(steps), id, code) <==> found_closed(ids, steps, StreamId(id), code),
    decreases steps.len(),
{
    if steps.len() > 0 {
        let before = steps.drop_last();
        let k = steps.len() - 1;
        lemma_reads_end(table, client, ids, before, id, code);
        lemma_ends_concat(calls_of(before), steps[k].calls, id, code);
        lemma_step_ends(after_reads(table, ids, before), client, ids[k], steps[k], id, code);
        if found_closed(ids, before, StreamId(id), code) {
            let i = choose|i: int| #![trigger before[i]]
                0 <= i < before.len() && ids[i] == id && match code {
                    None => before[i].end is Finished,
                    Some(code) => before[i].end == ReadEnd::Reset(code),
                };
            assert(steps[i] == before[i]);
        }
        if found_closed(ids, steps, StreamId(id), code) {
            let i = choose|i: int| #![trigger steps[i]]
                0 <= i < steps.len() && ids[i] == id && match code {
                    None => steps[i].end is Finished,
                    Some(code) => steps[i].end == ReadEnd::Reset(code),
                };
            if i < k {
                assert(before[i] == steps[i]);
            }
        }
    }
}

/// Whether a stream is closed after streams have been read.
proof fn lemma_reads_close(
    table: TableView,
    client: bool,
    ids: Seq<u64>,
    steps: Seq<ReadStep>,
    id: u64,
)
    requires
        possible_reads(table, client, ids, steps),
        table.receive.dom().contains(id),
    ensures
        after_reads(table, ids, steps).receive.dom().contains(id),
        after_reads(table, ids, steps).receive[id].closed <==> table.receive[id].closed
            || exists|code: Option<quinn_proto::VarInt>| #[trigger]
            ends_with(calls_of(steps), id, code),
    decreases steps.len(),
{
    if steps.len() > 0 {
        let before = steps.drop_last();
        let k = steps.len() - 1;
        let step = steps[k];
        lemma_reads_close(table, client, ids, before, id);
        assert forall|code: Option<quinn_proto::VarInt>| #[trigger]
            ends_with(calls_of(steps), id, code) <==> ends_with(calls_of(before), id, code) || id
            == ids[k] && match code {
            None => step.end is Finished,
            Some(code) => step.end == ReadEnd::Reset(code),
        } by {
            lemma_ends_concat(calls_of(before), step.calls, id, code);
            lemma_step_ends(after_reads(table, ids, before), client, ids[k], step, id, code);
        }
        if ids[k] == id && (step.end is Finished || step.end is Reset) {
            let code = match step.end {
                ReadEnd::Reset(code) => Some(code),
                _ => None,
            };
            assert(ends_with(calls_of(steps), id, code));
        }
        if after_reads(table, ids, before).receive[id].closed && !table.receive[id].closed {
            let code = choose|code: Option<quinn_proto::VarInt>| #[trigger]
                ends_with(calls_of(before), id, code);
            assert(ends_with(calls_of(steps), id, code));
        }
    } else {
        assert forall|code: Option<quinn_proto::VarInt>| !#[trigger]
            ends_with(calls_of(steps), id, code) by {}
    }
}

impl Update {
    /// Whether there is a receive stream with that number: there was one before, or it was
    /// accepted.
    pub open spec fn receives(self, id: u64) -> bool {
        self.before@.receive.dom().contains(id) || self.accepts(id)
    }

    /// The bytes that were buffered on a receive stream and that reading it gave, in order.
    pub open spec fn arrived(self, id: u64) -> Seq<u8> {
        (if self.before@.receive.dom().contains(id) {
            self.before@.receive[id].data
        } else {
            Seq::empty()
        }) + given_of(self.reads(), id)
    }

    /// Whether a receive stream was closed, or reading it came to its end.
    pub open spec fn ended(self, id: u64) -> bool {
        ||| self.before@.receive.dom().contains(id) && self.before@.receive[id].closed
        ||| exists|code: Option<quinn_proto::VarInt>| #[trigger] ends_with(self.reads(), id, code)
    }
}

/// The receive streams once the streams have been read.
proof fn lemma_receive_streams(update: Update, trace: UpdateTrace, id: u64)
    requires
        update.completed(),
        explains(trace, update.before, update.after, update.now, update.report.failure),
        update.reads() == calls_of(trace.steps),
    ensures
        ({
            let read_out = trace.read_out(update.before@);
            &&& read_out.receive.dom().contains(id) <==> update.receives(id)
            &&& update.receives(id) ==> read_out.receive[id].data == update.arrived(id)
                && read_out.receive[id].closed == update.ended(id)
            &&& update.after@.receive == after_finished(read_out).receive
        }),
{
    let table = update.before@;
    let side = update.before.side();
    let reading = trace.reading(table);
    lemma_accepted(trace, side, id);
    lemma_accepted_streams_are_new(trace, table, side, id);
    lemma_before_reading(trace, table, side, id);
    lemma_reads_keep(reading, side.client, trace.read, trace.steps, id);
    lemma_writes_keep(trace.swept(table), trace.written, trace.writes, id);
    if update.receives(id) {
        lemma_reads_given(reading, side.client, trace.read, trace.steps, id);
        lemma_reads_close(reading, side.client, trace.read, trace.steps, id);
    }
}

/// After a completed update a receive stream holds what it held before and what reading it gave, in
/// order, and is closed if it was, or if reading came to its end. It is gone if that leaves it
/// closed and empty, and only then. Streams that were accepted have joined those from before.
pub proof fn law_receive_streams_hold_what_was_read(update: Update, id: u64)
    requires
        update.completed(),
    ensures
        update.after@.receive.dom().contains(id) <==> update.receives(id) && !(update.ended(id)
            && update.arrived(id).len() == 0),
        update.after@.receive.dom().contains(id) ==> update.after@.receive[id].data
            == update.arrived(id) && update.after@.receive[id].closed == update.ended(id),
{
    let trace = lemma_trace(update);
    lemma_receive_streams(update, trace, id);
    law_finished_streams_go(trace.read_out(update.before@), id);
}

impl Update {
    /// Whether the protocol told that the peer stopped the send stream.
    pub open spec fn stops(self, id: u64) -> bool {
        exists|code: quinn_proto::VarInt| #[trigger]
            self.polls().contains(Some(ProtoEvent::StreamStopped(id, code)))
    }

    /// Whether there is a send stream with that number when writing begins: there was one before
    /// that the peer did not stop, or one on which data flows both ways was accepted.
    pub open spec fn sends(self, id: u64) -> bool {
        ||| self.before@.send.dom().contains(id) && !self.stops(id)
        ||| self.accepts(id) && direction(id) is Bi
    }

    /// The bytes that are to be sent on a send stream when writing begins.
    pub open spec fn outbound(self, id: u64) -> Seq<u8> {
        if self.accepts(id) {
            Seq::empty()
        } else {
            self.before@.send[id].data
        }
    }

    /// Whether a send stream is to be finished once everything has been sent.
    pub open spec fn finishing(self, id: u64) -> bool {
        !self.accepts(id) && self.before@.send[id].closed
    }
}

/// The send streams when writing begins.
proof fn lemma_send_streams(update: Update, trace: UpdateTrace, id: u64)
    requires
        update.happened(),
        explains(trace, update.before, update.after, update.now, update.report.failure),
        trace.possible_writing(update.before@, update.before.side()),
        update.polls() == trace.polls(),
    ensures
        ({
            let swept = trace.swept(update.before@);
            &&& swept.send.dom().contains(id) <==> update.sends(id)
            &&& update.sends(id) ==> swept.send[id].data == update.outbound(id)
                && swept.send[id].closed == update.finishing(id)
        }),
{
    let table = update.before@;
    let side = update.before.side();
    lemma_accepted(trace, side, id);
    lemma_accepted_streams_are_new(trace, table, side, id);
    lemma_before_writing(trace, table, side, id);
    assert(stopped(trace.events(), id) <==> update.stops(id)) by {
        if stopped(trace.events(), id) {
            let i = choose|i: int| #![trigger trace.events()[i]]
                0 <= i < trace.events().len() && trace.events()[i] is StreamStopped
                    && trace.events()[i]->StreamStopped_0 == id;
            let code = trace.events()[i]->StreamStopped_1;
            assert(trace.events()[i] == ProtoEvent::StreamStopped(id, code));
            lemma_polled(trace, ProtoEvent::StreamStopped(id, code));
        }
        if update.stops(id) {
            let code = choose|code: quinn_proto::VarInt| #[trigger]
                update.polls().contains(Some(ProtoEvent::StreamStopped(id, code)));
            lemma_polled(trace, ProtoEvent::StreamStopped(id, code));
            let i = trace.events().index_of(ProtoEvent::StreamStopped(id, code));
            assert(trace.events()[i] is StreamStopped);
        }
    }
}

/// Whether the protocol took nothing of an attempt to write to the stream: the peer allows no more
/// for now.
pub open spec fn refused(offers: Seq<Offer>, id: u64) -> bool {
    exists|i: int| #![trigger offers[i]]
        0 <= i < offers.len() && offers[i].id == id && (offers[i].outcome is Blocked || usize::BITS
            != 64 && offers[i].outcome == WriteOutcome::Written(0))
}

/// What was offered in a step was offered.
proof fn lemma_offered(steps: Seq<WriteStep>, k: int, i: int)
    requires
        0 <= k < steps.len(),
        0 <= i < steps[k].offers.len(),
    ensures
        exists|j: int| #![trigger offers_of(steps)[j]]
            0 <= j < offers_of(steps).len() && offers_of(steps)[j] == steps[k].offers[i],
    decreases steps.len(),
{
    let before = steps.drop_last();
    let m = offers_of(before).len() as int;
    if k < before.len() {
        assert(before[k] == steps[k]);
        lemma_offered(before, k, i);
        let j = choose|j: int| #![trigger offers_of(before)[j]]
            0 <= j < offers_of(before).len() && offers_of(before)[j] == before[k].offers[i];
        assert(offers_of(steps)[j] == offers_of(before)[j]);
    } else {
        assert(offers_of(steps)[m + i] == steps[k].offers[i]);
    }
}

/// After a completed update a send stream holds what it held before without what the protocol
/// took, which is its front. It is finished, once, and gone, if it is to be finished and the
/// protocol took everything, and only then. If something is left, the protocol took nothing of an
/// attempt to write to it. Nothing is taken on other streams, and no attempt to finish one fails.
#[verifier::rlimit(40)]
pub proof fn law_send_streams_hold_what_was_not_taken(update: Update, id: u64)
    requires
        update.completed(),
    ensures
        ({
            let taken = taken_of(update.offers(), id);
            let done = update.finishing(id) && taken == update.outbound(id);
            &&& update.after@.send.dom().contains(id) <==> update.sends(id) && !done
            &&& update.after@.send.dom().contains(id) ==> taken + update.after@.send[id].data
                == update.outbound(id) && update.after@.send[id].closed == update.finishing(id)
            &&& update.after@.send.dom().contains(id) && update.after@.send[id].data.len() > 0
                ==> refused(update.offers(), id)
            &&& times(update.finishes(), (id, true)) == if update.sends(id) && done {
                1nat
            } else {
                0
            }
            &&& times(update.finishes(), (id, false)) == 0
            &&& !update.sends(id) ==> taken.len() == 0 && forall|i: int|
                0 <= i < update.offers().len() ==> (#[trigger] update.offers()[i]).id != id
        }),
{
    let trace = lemma_trace(update);
    let table = update.before@;
    let swept = trace.swept(table);
    lemma_send_streams(update, trace, id);
    lemma_offers_taken(swept, trace.written, trace.writes, id);
    lemma_writes_keep(swept, trace.written, trace.writes, id);
    lemma_writes_end(swept, trace.written, trace.writes, id);
    assert(trace.written.take(trace.written.len() as int) =~= trace.written);
    assert(trace.written.to_set().contains(id) <==> trace.written.contains(id));
    let taken = taken_of(update.offers(), id);
    let after = update.after@;
    if after.send.dom().contains(id) {
        if taken == update.outbound(id) {
            assert(after.send[id].data.len() == 0);
        }
        if after.send[id].data.len() > 0 {
            let k = choose|k: int| #![trigger trace.writes[k]]
                0 <= k < trace.writes.len() && trace.written[k] == id
                    && trace.writes[k].offers.len() > 0 && match trace.writes[k].end {
                    WriteEnd::Blocked => trace.writes[k].offers.last().outcome is Blocked,
                    WriteEnd::Stalled => usize::BITS != 64
                        && trace.writes[k].offers.last().outcome == WriteOutcome::Written(0),
                    _ => false,
                };
            lemma_write_possible(swept, trace.written, trace.writes, k);
            let step = trace.writes[k];
            let middle = after_writes(swept, trace.written, trace.writes.take(k));
            lemma_run_taken(middle.send[id].data, id, step.offers, id);
            lemma_offered(trace.writes, k, step.offers.len() - 1);
            let j = choose|j: int| #![trigger offers_of(trace.writes)[j]]
                0 <= j < offers_of(trace.writes).len() && offers_of(trace.writes)[j]
                    == step.offers[step.offers.len() - 1];
            assert(update.offers()[j].id == id);
        }
    }
}

/// Each step is possible where it comes.
proof fn lemma_write_possible(table: TableView, ids: Seq<u64>, steps: Seq<WriteStep>, k: int)
    requires
        possible_writes(table, ids, steps),
        0 <= k < steps.len(),
    ensures
        possible_write(after_writes(table, ids, steps.take(k)), ids[k], steps[k]),
    decreases steps.len(),
{
    let before = steps.drop_last();
    if k < before.len() {
        lemma_write_possible(table, ids, before, k);
        assert(before.take(k) =~= steps.take(k));
        assert(before[k] == steps[k]);
    } else {
        assert(steps.take(k) =~= before);
    }
}

/// Whether these are attempts to write, one after the other: each offers something, and one of
/// which a part is taken is followed by another one on the same stream, which offers the rest.
pub open spec fn persistent(offers: Seq<Offer>) -> bool {
    forall|i: int| #![trigger offers[i]]
        0 <= i < offers.len() ==> {
            &&& offers[i].data.len() > 0
            &&& offers[i].outcome matches WriteOutcome::Written(n) ==> {
                &&& n <= offers[i].data.len()
                &&& 0 < n < offers[i].data.len() ==> i + 1 < offers.len() && offers[i + 1].id
                    == offers[i].id && offers[i + 1].data == offers[i].data.skip(n as int)
            }
        }
}

/// Attempts to write follow attempts to write.
proof fn lemma_persistent_concat(first: Seq<Offer>, more: Seq<Offer>)
    requires
        persistent(first),
        persistent(more),
    ensures
        persistent(first + more),
{
    let all = first + more;
    let m = first.len() as int;
    assert forall|i: int| #![trigger all[i]] 0 <= i < all.len() implies {
        &&& all[i].data.len() > 0
        &&& all[i].outcome matches WriteOutcome::Written(n) ==> {
            &&& n <= all[i].data.len()
            &&& 0 < n < all[i].data.len() ==> i + 1 < all.len() && all[i + 1].id == all[i].id
                && all[i + 1].data == all[i].data.skip(n as int)
        }
    } by {
        if i < m {
            assert(all[i] == first[i]);
            if i + 1 < m {
                assert(all[i + 1] == first[i + 1]);
            }
        } else {
            assert(all[i] == more[i - m]);
            if i + 1 < all.len() {
                assert(all[i + 1] == more[i + 1 - m]);
            }
        }
    }
}

/// What is offered in a run, and how much was taken before.
proof fn lemma_run_offer(data: Seq<u8>, id: u64, offers: Seq<Offer>, i: int)
    requires
        write_run(data, id, offers),
        0 <= i < offers.len(),
    ensures
        offers[i].id == id,
        sent_by(offers.take(i)) < data.len(),
        offers[i].data == data.skip(sent_by(offers.take(i)) as int),
        offers[i].outcome matches WriteOutcome::Written(n) ==> n <= offers[i].data.len(),
    decreases offers.len(),
{
    let before = offers.drop_last();
    if i < before.len() {
        lemma_run_offer(data, id, before, i);
        assert(before[i] == offers[i]);
        assert(before.take(i) =~= offers.take(i));
    } else {
        assert(offers.take(i) =~= before);
    }
}

/// How an attempt to write to a stream is followed.
#[verifier::rlimit(40)]
proof fn lemma_step_persists(table: TableView, id: u64, step: WriteStep, i: int)
    requires
        possible_write(table, id, step),
        0 <= i < step.offers.len(),
    ensures
        step.offers[i].id == id,
        step.offers[i].data.len() > 0,
        step.offers[i].outcome matches WriteOutcome::Written(n) ==> {
            &&& n <= step.offers[i].data.len()
            &&& 0 < n < step.offers[i].data.len() ==> i + 1 < step.offers.len()
                && step.offers[i + 1].data == step.offers[i].data.skip(n as int)
        },
{
    let offers = step.offers;
    let data = table.send[id].data;
    lemma_run_offer(data, id, offers, i);
    let upto = offers.take(i + 1);
    assert(upto.drop_last() =~= offers.take(i));
    assert(upto.last() == offers[i]);
    if offers[i].outcome is Written {
        let n = offers[i].outcome->Written_0 as int;
        assert(sent_by(upto) == sent_by(offers.take(i)) + n);
        if i + 1 < offers.len() {
            lemma_run_offer(data, id, offers, i + 1);
            assert(offers[i + 1].data =~= offers[i].data.skip(n));
        } else {
            assert(upto =~= offers);
            assert(offers.last() == offers[i]);
        }
    }
}

/// How attempts to write to one stream follow one another.
proof fn lemma_step_persistent(table: TableView, id: u64, step: WriteStep)
    requires
        possible_write(table, id, step),
    ensures
        persistent(step.offers),
{
    let offers = step.offers;
    assert forall|i: int| #![trigger offers[i]] 0 <= i < offers.len() implies {
        &&& offers[i].data.len() > 0
        &&& offers[i].outcome matches WriteOutcome::Written(n) ==> {
            &&& n <= offers[i].data.len()
            &&& 0 < n < offers[i].data.len() ==> i + 1 < offers.len() && offers[i + 1].id
                == offers[i].id && offers[i + 1].data == offers[i].data.skip(n as int)
        }
    } by {
        lemma_step_persists(table, id, step, i);
        if i + 1 < offers.len() {
            lemma_step_persists(table, id, step, i + 1);
        }
    }
}

/// How attempts to write to streams follow one another.
proof fn lemma_writes_persistent(table: TableView, ids: Seq<u64>, steps: Seq<WriteStep>)
    requires
        possible_writes(table, ids, steps),
    ensures
        persistent(offers_of(steps)),
    decreases steps.len(),
{
    if steps.len() > 0 {
        let before = steps.drop_last();
        lemma_writes_persistent(table, ids, before);
        lemma_step_persistent(
            after_writes(table, ids, before),
            ids[steps.len() - 1],
            steps.last(),
        );
        lemma_persistent_concat(offers_of(before), steps.last().offers);
    }
}

/// What is offered is what has not been taken.
proof fn lemma_offers_rest(table: TableView, ids: Seq<u64>, steps: Seq<WriteStep>, i: int)
    requires
        possible_writes(table, ids, steps),
        ids.no_duplicates(),
        steps.len() <= ids.len(),
        0 <= i < offers_of(steps).len(),
    ensures
        ({
            let offer = offers_of(steps)[i];
            &&& table.send.dom().contains(offer.id)
            &&& taken_of(offers_of(steps).take(i), offer.id) + offer.data
                == table.send[offer.id].data
        }),
    decreases steps.len(),
{
    let before = steps.drop_last();
    let n = before.len() as int;
    let first = offers_of(before);
    let m = first.len() as int;
    let all = offers_of(steps);
    if i < m {
        lemma_offers_rest(table, ids, before, i);
        assert(all[i] == first[i]);
        assert(all.take(i) =~= first.take(i));
    } else {
        let step = steps[n];
        let id = ids[n];
        let j = i - m;
        let middle = after_writes(table, ids, before);
        assert(all[i] == step.offers[j]);
        assert(all.take(i) =~= first + step.offers.take(j));
        lemma_writes_keep(table, ids, before, id);
        assert(!ids.take(n).contains(id)) by {
            if ids.take(n).contains(id) {
                let k = ids.take(n).index_of(id);
                assert(ids[k] == id);
            }
        }
        lemma_offers_taken(table, ids, before, id);
        lemma_taken_concat(first, step.offers.take(j), id);
        lemma_run_offer(middle.send[id].data, id, step.offers, j);
        lemma_run_prefix(middle.send[id].data, id, step.offers, j);
        lemma_run_taken(middle.send[id].data, id, step.offers.take(j), id);
        let data = table.send[id].data;
        let sent = sent_by(step.offers.take(j)) as int;
        assert(Seq::<u8>::empty() + data.take(sent) =~= data.take(sent));
        assert(data.take(sent) + data.skip(sent) =~= data);
    }
}

/// The beginning of a run is a run.
proof fn lemma_run_prefix(data: Seq<u8>, id: u64, offers: Seq<Offer>, j: int)
    requires
        write_run(data, id, offers),
        0 <= j <= offers.len(),
    ensures
        write_run(data, id, offers.take(j)),
    decreases offers.len(),
{
    if j < offers.len() {
        lemma_run_prefix(data, id, offers.drop_last(), j);
        assert(offers.drop_last().take(j) =~= offers.take(j));
    } else {
        assert(offers.take(j) =~= offers);
    }
}

/// Writing goes on until everything has been sent or nothing is taken: each attempt offers all that
/// is left of what is to be sent on the stream, and one of which a part is taken is followed by
/// another.
pub proof fn law_writing_goes_on_until_nothing_is_left(update: Update, i: int)
    requires
        update.completed(),
        0 <= i < update.offers().len(),
    ensures
        persistent(update.offers()),
        update.sends(update.offers()[i].id),
        taken_of(update.offers().take(i), update.offers()[i].id) + update.offers()[i].data
            == update.outbound(update.offers()[i].id),
{
    let trace = lemma_trace(update);
    let swept = trace.swept(update.before@);
    lemma_writes_persistent(swept, trace.written, trace.writes);
    lemma_offers_rest(swept, trace.written, trace.writes, i);
    lemma_send_streams(update, trace, update.offers()[i].id);
}

/// What a completed update reports, how often: that the connection is established and that the peer
/// closed a send stream as often as polling told so; that it is drained if an event for the
/// endpoint tells that; the streams that were accepted, each once, to be received on, and to be
/// sent on if data flows both ways; the receive streams of which the end was read, with the error
/// code if they were reset; and those that are closed and empty.
#[verifier::rlimit(40)]
pub proof fn law_reports_are_what_happened(update: Update, callback: ConnectionCallback)
    requires
        update.completed(),
    ensures
        times(update.reported, callback) == match callback {
            ConnectionCallback::SuccessfulConnection(handle) => if handle
                == update.before.handle() {
                times(update.polls(), Some(ProtoEvent::Connected))
            } else {
                0
            },
            ConnectionCallback::ClosedSendStream(id, code) => times(
                update.polls(),
                Some(ProtoEvent::StreamStopped(id.0, code)),
            ),
            ConnectionCallback::CloseConnection => if update.notices().contains(true) {
                1
            } else {
                0
            },
            ConnectionCallback::OpenedReceiveStream(id) => if update.accepts(id.0) {
                1
            } else {
                0
            },
            ConnectionCallback::OpenedSendStream(id) => if update.accepts(id.0) && direction(id.0)
                is Bi {
                1
            } else {
                0
            },
            ConnectionCallback::ClosedReceiveStream(id, code) => if ends_with(
                update.reads(),
                id.0,
                code,
            ) {
                1
            } else {
                0
            },
            ConnectionCallback::FinishedReceiveStream(id) => if update.receives(id.0)
                && update.ended(id.0) && update.arrived(id.0).len() == 0 {
                1
            } else {
                0nat
            },
        },
{
    let trace = lemma_trace(update);
    let table = update.before@;
    let side = update.before.side();
    let handle = update.before.handle();
    law_reports_are_not_repeated(trace, table, side, handle, callback);
    law_reports(trace, handle, callback);
    match callback {
        ConnectionCallback::SuccessfulConnection(_) => {
            lemma_times_polled(trace, ProtoEvent::Connected);
        },
        ConnectionCallback::ClosedSendStream(id, code) => {
            lemma_times_polled(trace, ProtoEvent::StreamStopped(id.0, code));
        },
        ConnectionCallback::CloseConnection => {},
        ConnectionCallback::OpenedReceiveStream(id) => {
            lemma_accepted(trace, side, id.0);
        },
        ConnectionCallback::OpenedSendStream(id) => {
            lemma_accepted(trace, side, id.0);
        },
        ConnectionCallback::ClosedReceiveStream(id, code) => {
            lemma_reads_end(
                trace.reading(table),
                side.client,
                trace.read,
                trace.steps,
                id.0,
                code,
            );
        },
        ConnectionCallback::FinishedReceiveStream(id) => {
            lemma_receive_streams(update, trace, id.0);
            law_finished_streams_go(trace.read_out(table), id.0);
            assert(trace.finished.to_set().contains(id.0) <==> trace.finished.contains(id.0));
        },
    }
}

/// In which part of an update something is reported.
pub open spec fn part(callback: ConnectionCallback) -> nat {
    match callback {
        ConnectionCallback::SuccessfulConnection(_) | ConnectionCallback::ClosedSendStream(
            _,
            _,
        ) => 0,
        ConnectionCallback::CloseConnection => 1,
        ConnectionCallback::OpenedReceiveStream(_) | ConnectionCallback::OpenedSendStream(_) => 2,
        ConnectionCallback::ClosedReceiveStream(_, _) => 3,
        ConnectionCallback::FinishedReceiveStream(_) => 4,
    }
}

/// Whether everything in the sequence is reported between these parts, in order.
spec fn between(callbacks: Seq<ConnectionCallback>, low: nat, high: nat) -> bool {
    &&& forall|i: int| 0 <= i < callbacks.len() ==> low <= part(#[trigger] callbacks[i]) <= high
    &&& forall|i: int, j: int|
        0 <= i <= j < callbacks.len() ==> part(#[trigger] callbacks[i]) <= part(
            #[trigger] callbacks[j],
        )
}

/// Parts that follow one another are in order.
proof fn lemma_between(
    a: Seq<ConnectionCallback>,
    b: Seq<ConnectionCallback>,
    low: nat,
    middle: nat,
    high: nat,
)
    requires
        between(a, low, middle),
        between(b, middle, high),
        low <= middle <= high,
    ensures
        between(a + b, low, high),
{
    let all = a + b;
    assert forall|i: int, j: int| 0 <= i <= j < all.len() implies part(#[trigger] all[i]) <= part(
        #[trigger] all[j],
    ) by {
        if j < a.len() {
            assert(a[i] == all[i] && a[j] == all[j]);
        } else if i < a.len() {
            assert(a[i] == all[i] && b[j - a.len()] == all[j]);
        } else {
            assert(b[i - a.len()] == all[i] && b[j - a.len()] == all[j]);
        }
    }
    assert forall|i: int| 0 <= i < all.len() implies low <= part(#[trigger] all[i]) <= high by {
        if i < a.len() {
            assert(a[i] == all[i]);
        } else {
            assert(b[i - a.len()] == all[i]);
        }
    }
}

/// Events are reported first.
proof fn lemma_events_between(handle: usize, events: Seq<ProtoEvent>)
    ensures
        between(events_callbacks(handle, events), 0, 0),
    decreases events.len(),
{
    if events.len() > 0 {
        lemma_events_between(handle, events.drop_first());
        assert(between(event_callbacks(handle, events[0]), 0, 0));
        lemma_between(
            event_callbacks(handle, events[0]),
            events_callbacks(handle, events.drop_first()),
            0,
            0,
            0,
        );
    }
}

/// Streams that are accepted are reported then.
proof fn lemma_accepts_between(dir: Dir, ids: Seq<u64>)
    ensures
        between(accepts_callbacks(dir, ids), 2, 2),
    decreases ids.len(),
{
    if ids.len() > 0 {
        lemma_accepts_between(dir, ids.drop_first());
        assert(between(accept_callbacks(dir, ids[0]), 2, 2));
        lemma_between(
            accept_callbacks(dir, ids[0]),
            accepts_callbacks(dir, ids.drop_first()),
            2,
            2,
            2,
        );
    }
}

/// Streams that are closed are reported when they are read.
proof fn lemma_reads_between(ids: Seq<u64>, steps: Seq<ReadStep>)
    ensures
        between(reads_callbacks(ids, steps), 3, 3),
    decreases steps.len(),
{
    if steps.len() > 0 {
        let before = steps.drop_last();
        let last = read_callbacks(ids[steps.len() - 1], steps.last());
        lemma_reads_between(ids, before);
        assert(between(last, 3, 3));
        lemma_between(reads_callbacks(ids, before), last, 3, 3, 3);
    }
}

/// An update reports things in order: what polling told comes first, and that the connection is
/// drained; then the streams that were opened, those that were closed, and those that are finished.
/// So a stream is reported opened before it is reported closed, and closed before it is reported
/// finished.
pub proof fn law_reports_come_in_order(update: Update, i: int, j: int)
    requires
        update.happened(),
        0 <= i < j < update.reported.len(),
    ensures
        part(update.reported[i]) <= part(update.reported[j]),
{
    let trace = lemma_trace(update);
    let handle = update.before.handle();
    let a = events_callbacks(handle, trace.events());
    let b = drained_callbacks(trace.drained());
    let c = accepts_callbacks(Dir::Uni, trace.uni);
    let d = accepts_callbacks(Dir::Bi, trace.bi);
    let e = reads_callbacks(trace.read, trace.steps);
    let f = finished_callbacks(trace.finished);
    lemma_events_between(handle, trace.events());
    lemma_accepts_between(Dir::Uni, trace.uni);
    lemma_accepts_between(Dir::Bi, trace.bi);
    lemma_reads_between(trace.read, trace.steps);
    assert(between(b, 1, 1));
    assert(between(b, 0, 2));
    assert(between(f, 3, 4));
    lemma_between(a, b, 0, 0, 2);
    lemma_between(a + b, c, 0, 2, 2);
    lemma_between(a + b + c, d, 0, 2, 3);
    lemma_between(a + b + c + d, e, 0, 3, 3);
    lemma_between(a + b + c + d + e, f, 0, 3, 4);
}

/// An update leaves a connection the one that it is, and the contents of the last transmit.
pub proof fn law_updates_leave_the_last_transmit(update: Update)
    requires
        update.happened(),
    ensures
        update.after.handle() == update.before.handle(),
        update.after.client() == update.before.client(),
        update.after.outgoing() == update.before.outgoing(),
{
}

/// A connection is established once polling told so, and stays so.
pub proof fn law_connections_are_established_when_told(update: Update)
    requires
        update.completed(),
    ensures
        update.after@.connected <==> update.before@.connected || update.polls().contains(
            Some(ProtoEvent::Connected),
        ),
{
    let trace = lemma_trace(update);
    let table = update.before@;
    let side = update.before.side();
    lemma_polled(trace, ProtoEvent::Connected);
    lemma_before_reading(trace, table, side, 0);
    lemma_reads_keep(trace.reading(table), side.client, trace.read, trace.steps, 0);
    lemma_writes_keep(trace.swept(table), trace.written, trace.writes, 0);
}

/// How often polling gave nothing more.
pub open spec fn rounds(polls: Seq<Option<ProtoEvent>>) -> nat {
    times(polls, None)
}

/// How often polling gave nothing more, in a round and after the answers of the endpoint.
proof fn lemma_rounds(events: Seq<ProtoEvent>, relays: Seq<Relay>, noticed: nat, polled: nat)
    ensures
        rounds(round(events)) == 1,
        round(events).last() is None,
        rounds(relay_polls(relays)) == renewals(noticed, polled, relays).len(),
        relay_polls(relays).len() > 0 ==> relay_polls(relays).last() is None,
    decreases events.len() + relays.len(),
{
    reveal_with_fuel(times, 3);
    if events.len() > 0 {
        let before = events.drop_last();
        lemma_rounds(before, relays, noticed, polled);
        assert(round(events).drop_last() =~= round(before).drop_last().push(Some(events.last())));
        assert(round(events).drop_last().drop_last() =~= round(before).drop_last());
    }
    if relays.len() > 0 {
        let before = relays.drop_last();
        lemma_rounds(events, before, noticed, polled);
        if relays.last().answer is Some {
            lemma_rounds_of(relays.last().events);
            lemma_times_concat(relay_polls(before), round(relays.last().events), None);
            let all = relay_polls(before) + round(relays.last().events);
            assert(all.last() == round(relays.last().events).last());
        }
    }
}

/// How often polling gives nothing more, in a round.
proof fn lemma_rounds_of(events: Seq<ProtoEvent>)
    ensures
        rounds(round(events)) == 1,
        round(events).last() is None,
    decreases events.len(),
{
    reveal_with_fuel(times, 3);
    if events.len() > 0 {
        let before = events.drop_last();
        lemma_rounds_of(before);
        assert(round(events).drop_last() =~= round(before).drop_last().push(Some(events.last())));
        assert(round(events).drop_last().drop_last() =~= round(before).drop_last());
    }
}

/// The protocol handles its timers during an update if and only if a deadline is set and has been
/// reached, and does so once, at that time, before it is polled.
pub proof fn law_timers_are_handled_when_due(update: Update)
    requires
        update.happened(),
    ensures
        ({
            let handled = since(update.after.record().timeouts, update.before.record().timeouts);
            match deadline(update.before.proto()) {
                Some(at) if !instant_before(update.now, at) => handled.len() == 1 && handled[0].now
                    == update.now && handled[0].polled == update.before.record().polled.len(),
                _ => handled.len() == 0,
            }
        }),
{
    let trace = lemma_trace(update);
}

/// The protocol is polled until it has nothing more, once the timers have been handled and again
/// each time that it was given identifiers.
pub proof fn law_polling_goes_on_until_nothing_is_left(update: Update)
    requires
        update.happened(),
    ensures
        update.polls().len() > 0,
        update.polls().last() is None,
        rounds(update.polls()) == 1 + update.renewals().len(),
{
    let trace = lemma_trace(update);
    let noticed = update.before.record().noticed.len();
    let polled = update.before.record().polled.len() + round(trace.first).len();
    lemma_rounds(trace.first, trace.relays, noticed, polled);
    lemma_times_concat(round(trace.first), relay_polls(trace.relays), None);
    if relay_polls(trace.relays).len() == 0 {
        assert(trace.polls() =~= round(trace.first));
    } else {
        assert(trace.polls().last() == relay_polls(trace.relays).last());
    }
}

/// The identifiers that an endpoint issued when it was told these things, each with how many it had
/// been told by then.
pub open spec fn issued_in(told: Seq<Told>) -> Seq<(nat, quinn_proto::ConnectionEvent)>
    decreases told.len(),
{
    if told.len() == 0 {
        seq![]
    } else {
        let before = issued_in(told.drop_last());
        match told.last().answer {
            Some(event) => before.push((told.len(), event)),
            None => before,
        }
    }
}

/// The identifiers that go back are those that were issued.
proof fn lemma_issued(handle: usize, relays: Seq<Relay>, noticed: nat, polled: nat)
    ensures
        ({
            let back = renewals(noticed, polled, relays);
            let out = issued_in(told_of(handle, relays));
            &&& back.len() == out.len()
            &&& forall|k: int| 0 <= k < back.len() ==> (#[trigger] back[k]).event == out[k].1
                && back[k].noticed == noticed + out[k].0
        }),
    decreases relays.len(),
{
    if relays.len() > 0 {
        let before = relays.drop_last();
        lemma_issued(handle, before, noticed, polled);
        assert(told_of(handle, relays).drop_last() =~= told_of(handle, before));
    }
}

/// The endpoint is told every event that the connection has for it, in order, unless one follows
/// the event that tells that the connection is drained. The identifiers that it issues go back to
/// the connection, all of them and in order, each before the next event is polled. The connection
/// is said to be drained if one of the events tells that, and the endpoint then forgets it.
pub proof fn law_the_endpoint_is_told_every_event(update: Update)
    requires
        update.happened(),
    ensures
        update.told().len() == update.notices().len() - if update.report.failure == Some(
            UpdateError::EventAfterDrained,
        ) {
            1int
        } else {
            0
        },
        forall|i: int|
            0 <= i < update.told().len() ==> (#[trigger] update.told()[i]).handle
                == update.before.handle() && update.told()[i].drained == update.notices()[i],
        update.renewals().len() == issued_in(update.told()).len(),
        forall|k: int|
            0 <= k < update.renewals().len() ==> (#[trigger] update.renewals()[k]).event
                == issued_in(update.told())[k].1 && update.renewals()[k].noticed
                == update.before.record().noticed.len() + issued_in(update.told())[k].0,
        update.report.drained <==> update.notices().contains(true),
        live_handles(update.endpoint_after) == if update.report.drained {
            live_handles(update.endpoint_before).remove(update.before.handle())
        } else {
            live_handles(update.endpoint_before)
        },
        !(update.report.failure == Some(UpdateError::EventAfterDrained)) ==> pending_notices(
            update.after.proto(),
        ).len() == 0,
{
    let trace = lemma_trace(update);
    let noticed = update.before.record().noticed.len();
    let polled = update.before.record().polled.len() + round(trace.first).len();
    lemma_issued(update.before.handle(), trace.relays, noticed, polled);
    let all = notices_of(trace.relays);
    if trace.surplus {
        assert(all.push(false).contains(true) <==> all.contains(true)) by {
            if all.contains(true) {
                let i = all.index_of(true);
                assert(all.push(false)[i]);
            }
            if all.push(false).contains(true) {
                let i = all.push(false).index_of(true);
                assert(all[i]);
            }
        }
    }
}

/// Every stream that the peer opened has been accepted after a completed update.
pub proof fn law_no_stream_waits_to_be_accepted(update: Update, dir: Dir)
    requires
        update.completed(),
    ensures
        acceptable(update.after.proto(), dir).len() == 0,
        update.after.side().accepted(dir) >= update.before.side().accepted(dir),
{
    let trace = lemma_trace(update);
    match dir {
        Dir::Uni => {},
        Dir::Bi => {},
    }
}

/// None of the attempts to read failed, unless the last stream could not be read.
proof fn lemma_reads_succeed(
    table: TableView,
    client: bool,
    ids: Seq<u64>,
    steps: Seq<ReadStep>,
)
    requires
        possible_reads(table, client, ids, steps),
        steps.len() > 0 ==> !(steps.last().end is Failed),
    ensures
        forall|i: int|
            0 <= i < calls_of(steps).len() ==> (#[trigger] calls_of(steps)[i]).reply is Ok,
        forall|i: int|
            0 <= i < probes_of(steps).len() ==> (#[trigger] probes_of(steps)[i]).1 is None,
    decreases steps.len(),
{
    if steps.len() > 0 {
        let before = steps.drop_last();
        let last = steps.last();
        let middle = after_reads(table, ids, before);
        lemma_reads_succeed(table, client, ids, before);
        if last.calls.len() > 0 {
            lemma_run_follows(middle.budget, ids[steps.len() - 1], last.calls);
        }
        assert forall|i: int| 0 <= i < calls_of(steps).len() implies (#[trigger] calls_of(
            steps,
        )[i]).reply is Ok by {
            let m = calls_of(before).len();
            if i < m {
                assert(calls_of(steps)[i] == calls_of(before)[i]);
            } else {
                assert(calls_of(steps)[i] == last.calls[i - m]);
                if i - m == last.calls.len() - 1 {
                    assert(last.calls[i - m] == last.calls.last());
                }
            }
        }
        assert forall|i: int| 0 <= i < probes_of(steps).len() implies (#[trigger] probes_of(
            steps,
        )[i]).1 is None by {
            let m = probes_of(before).len();
            if i < m {
                assert(probes_of(steps)[i] == probes_of(before)[i]);
            } else {
                assert(probes_of(steps)[i] == last.probes[i - m]);
            }
        }
    }
}

/// None of the attempts to write failed, unless the last stream could not be written.
proof fn lemma_writes_succeed(table: TableView, ids: Seq<u64>, steps: Seq<WriteStep>)
    requires
        possible_writes(table, ids, steps),
        steps.len() > 0 ==> !(steps.last().end is Failed),
    ensures
        forall|i: int|
            0 <= i < offers_of(steps).len() ==> (#[trigger] offers_of(steps)[i]).outcome is Written
                || offers_of(steps)[i].outcome is Blocked,
        forall|i: int| 0 <= i < finishes_of(steps).len() ==> (#[trigger] finishes_of(steps)[i]).1,
    decreases steps.len(),
{
    if steps.len() > 0 {
        let before = steps.drop_last();
        let last = steps.last();
        lemma_writes_succeed(table, ids, before);
        lemma_run_outcomes(
            after_writes(table, ids, before).send[ids[steps.len() - 1]].data,
            ids[steps.len() - 1],
            last.offers,
        );
        assert forall|i: int| 0 <= i < offers_of(steps).len() implies (#[trigger] offers_of(
            steps,
        )[i]).outcome is Written || offers_of(steps)[i].outcome is Blocked by {
            let m = offers_of(before).len();
            if i < m {
                assert(offers_of(steps)[i] == offers_of(before)[i]);
            } else {
                assert(offers_of(steps)[i] == last.offers[i - m]);
                if i - m == last.offers.len() - 1 {
                    assert(last.offers[i - m] == last.offers.last());
                    lemma_run_last(
                        after_writes(table, ids, before).send[ids[steps.len() - 1]].data,
                        ids[steps.len() - 1],
                        last.offers,
                    );
                }
            }
        }
        assert forall|i: int| 0 <= i < finishes_of(steps).len() implies (#[trigger] finishes_of(
            steps,
        )[i]).1 by {
            let m = finishes_of(before).len();
            if i < m {
                assert(finishes_of(steps)[i] == finishes_of(before)[i]);
            } else {
                assert(finishes_of(steps)[i] == last.finishes[i - m]);
            }
        }
    }
}

/// All attempts to write to a stream but the last took something.
proof fn lemma_run_outcomes(data: Seq<u8>, id: u64, offers: Seq<Offer>)
    requires
        write_run(data, id, offers),
    ensures
        forall|i: int| 0 <= i < offers.len() - 1 ==> (#[trigger] offers[i]).outcome is Written,
    decreases offers.len(),
{
    if offers.len() > 0 {
        let before = offers.drop_last();
        lemma_run_outcomes(data, id, before);
        assert forall|i: int| 0 <= i < offers.len() - 1 implies (#[trigger] offers[i]).outcome
            is Written by {
            assert(before[i] == offers[i]);
            if i == before.len() - 1 {
                assert(before.last() == before[i]);
            }
        }
    }
}

/// An attempt to write that took nothing leaves something to be sent.
proof fn lemma_run_last(data: Seq<u8>, id: u64, offers: Seq<Offer>)
    requires
        write_run(data, id, offers),
        offers.len() > 0,
    ensures
        !(offers.last().outcome is Written) ==> sent_by(offers) < data.len(),
{
}

/// An update fails for the reason that it gives, and is completed if there is none: the protocol
/// emitted an event after the last one; or a stream that was to be read is not one to receive on,
/// or has no buffer, or could not be read, which the protocol said last; or a stream could not be
/// finished or written, which the protocol said last.
#[verifier::rlimit(40)]
pub proof fn law_failures_have_a_cause(update: Update)
    requires
        update.happened(),
    ensures
        match update.report.failure {
            None => {
                &&& forall|i: int|
                    0 <= i < update.reads().len() ==> (#[trigger] update.reads()[i]).reply is Ok
                &&& forall|i: int|
                    0 <= i < update.probes().len() ==> (#[trigger] update.probes()[i]).1 is None
                &&& forall|i: int|
                    0 <= i < update.offers().len() ==> (#[trigger] update.offers()[i]).outcome
                        is Written || update.offers()[i].outcome is Blocked
                &&& forall|i: int|
                    0 <= i < update.finishes().len() ==> (#[trigger] update.finishes()[i]).1
                &&& forall|i: int, j: int|
                    0 <= i < j < update.notices().len() && #[trigger] update.notices()[i]
                        ==> #[trigger] update.notices()[j]
            },
            Some(UpdateError::EventAfterDrained) => {
                &&& update.notices().len() > 0 && !update.notices().last()
                &&& update.notices().contains(true)
                &&& update.reads().len() == 0 && update.probes().len() == 0
                &&& update.offers().len() == 0 && update.finishes().len() == 0
                &&& update.after.side() == update.before.side()
            },
            Some(UpdateError::NotReceivable(id)) => {
                &&& !can_receive(update.before.client(), id.0)
                &&& update.offers().len() == 0 && update.finishes().len() == 0
            },
            Some(UpdateError::MissingReceiveStream(id)) => {
                &&& can_receive(update.before.client(), id.0)
                &&& !update.receives(id.0)
                &&& update.after@.budget > 0
                &&& update.offers().len() == 0 && update.finishes().len() == 0
            },
            Some(UpdateError::ReadClosedStream(id)) => {
                &&& failed_to_read(update, id.0, ReadFailure::ClosedStream)
                &&& update.offers().len() == 0 && update.finishes().len() == 0
            },
            Some(UpdateError::UnorderedRead(id)) => {
                &&& failed_to_read(update, id.0, ReadFailure::IllegalOrderedRead)
                &&& update.offers().len() == 0 && update.finishes().len() == 0
            },
            Some(UpdateError::FinishFailed(id)) => {
                &&& update.finishes().len() > 0
                &&& update.finishes().last() == (id.0, false)
            },
            Some(UpdateError::WroteClosedStream(id)) => {
                &&& update.offers().len() > 0
                &&& update.offers().last().id == id.0
                &&& update.offers().last().outcome is ClosedStream
            },
            Some(UpdateError::WroteStoppedStream(id, code)) => {
                &&& update.offers().len() > 0
                &&& update.offers().last().id == id.0
                &&& update.offers().last().outcome == WriteOutcome::Stopped(code)
            },
        },
{
    let trace = lemma_trace(update);
    let table = update.before@;
    let side = update.before.side();
    match update.report.failure {
        None => {
            let swept = trace.swept(table);
            lemma_reads_succeed(trace.reading(table), side.client, trace.read, trace.steps);
            lemma_writes_succeed(swept, trace.written, trace.writes);
        },
        Some(error) => {
            if trace.steps.len() > 0 && trace.stopped_reading(table, side, error) {
                lemma_stopped_reading(update, trace, error);
            } else if trace.stopped_writing(table, side, error) {
                lemma_stopped_writing(trace, table, side, error);
            } else {
                let all = notices_of(trace.relays);
                let i = all.index_of(true);
                assert(all.push(false)[i]);
                assert(trace.noticed().last() == false);
            }
        },
    }
}

/// Whether the last thing that the protocol was asked, while streams were read, was to open that
/// stream, which failed that way.
pub open spec fn failed_to_read(update: Update, id: u64, failure: ReadFailure) -> bool {
    ||| update.reads().len() > 0 && update.reads().last().id == id && update.reads().last().reply
        == Err::<ReadOutcome, ReadFailure>(failure)
    ||| update.probes().len() > 0 && update.probes().last() == (id, Some(failure))
}

/// Why reading stopped.
proof fn lemma_stopped_reading(update: Update, trace: UpdateTrace, error: UpdateError)
    requires
        update.happened(),
        update.report.failure == Some(error),
        explains(trace, update.before, update.after, update.now, update.report.failure),
        update.reads() == calls_of(trace.steps),
        update.probes() == probes_of(trace.steps),
        trace.stopped_reading(update.before@, update.before.side(), error),
    ensures
        match error {
            UpdateError::NotReceivable(id) => !can_receive(update.before.client(), id.0),
            UpdateError::MissingReceiveStream(id) => can_receive(update.before.client(), id.0)
                && !update.receives(id.0) && update.after@.budget > 0,
            UpdateError::ReadClosedStream(id) => failed_to_read(
                update,
                id.0,
                ReadFailure::ClosedStream,
            ),
            UpdateError::UnorderedRead(id) => failed_to_read(
                update,
                id.0,
                ReadFailure::IllegalOrderedRead,
            ),
            _ => false,
        },
{
    let table = update.before@;
    let side = update.before.side();
    let reading = trace.reading(table);
    let steps = trace.steps;
    let k = steps.len() - 1;
    let id = trace.read[k];
    let before = steps.drop_last();
    lemma_accepted(trace, side, id);
    lemma_before_reading(trace, table, side, id);
    lemma_reads_keep(reading, side.client, trace.read, before, id);
    lemma_reads_keep(reading, side.client, trace.read, steps, id);
    if steps[k].calls.len() > 0 {
        lemma_run_follows(
            after_reads(reading, trace.read, before).budget,
            id,
            steps[k].calls,
        );
        assert(calls_of(steps).last() == steps[k].calls.last());
        assert(steps[k].calls[steps[k].calls.len() - 1] == steps[k].calls.last());
    } else if steps[k].probes.len() > 0 {
        assert(probes_of(steps).last() == steps[k].probes.last());
        assert(steps[k].probes[0] == steps[k].probes.last());
    }
}

/// Why writing stopped.
proof fn lemma_stopped_writing(
    trace: UpdateTrace,
    table: TableView,
    side: SideView,
    error: UpdateError,
)
    requires
        trace.stopped_writing(table, side, error),
    ensures
        match error {
            UpdateError::FinishFailed(id) => finishes_of(trace.writes).len() > 0 && finishes_of(
                trace.writes,
            ).last() == (id.0, false),
            UpdateError::WroteClosedStream(id) => offers_of(trace.writes).len() > 0 && offers_of(
                trace.writes,
            ).last().id == id.0 && offers_of(trace.writes).last().outcome is ClosedStream,
            UpdateError::WroteStoppedStream(id, code) => offers_of(trace.writes).len() > 0
                && offers_of(trace.writes).last().id == id.0 && offers_of(
                trace.writes,
            ).last().outcome == WriteOutcome::Stopped(code),
            _ => false,
        },
{
    let steps = trace.writes;
    let k = steps.len() - 1;
    let last = steps[k];
    if last.offers.len() > 0 {
        assert(offers_of(steps).last() == last.offers.last());
    }
    if last.finishes.len() > 0 {
        assert(finishes_of(steps).last() == last.finishes.last());
    }
}

/// An update asks the protocol nothing but what it takes to poll, to read and to write: it opens no
/// stream, resets none, hands over no datagram and asks for none. It asks the endpoint nothing but
/// what it takes to tell it of the connection's events.
pub proof fn law_updates_ask_for_nothing_else(update: Update)
    requires
        update.happened(),
    ensures
        update.after.record().opened == update.before.record().opened,
        update.after.record().resets == update.before.record().resets,
        update.after.record().heard == update.before.record().heard,
        update.after.record().transmit_polls == update.before.record().transmit_polls,
        handled(update.endpoint_after) == handled(update.endpoint_before),
        outcomes(update.endpoint_after) == outcomes(update.endpoint_before),
        settlements(update.endpoint_after) == settlements(update.endpoint_before),
        dials(update.endpoint_after) == dials(update.endpoint_before),
        server_setup(update.endpoint_after) == server_setup(update.endpoint_before),
        discovers_mtu(update.endpoint_after) == discovers_mtu(update.endpoint_before),
{
    let trace = lemma_trace(update);
    let before = endpoint_record(update.endpoint_before);
    let after = endpoint_record(update.endpoint_after);
    assert(after.handled == before.handled);
    assert(after.outcomes == before.outcomes);
    assert(after.settlements == before.settlements);
    assert(after.dials == before.dials);
}

/// An update only adds to what is on record.
pub proof fn law_records_only_grow(update: Update)
    requires
        update.happened(),
    ensures
        update.before.record().polled.is_prefix_of(update.after.record().polled),
        update.before.record().noticed.is_prefix_of(update.after.record().noticed),
        update.before.record().renewed.is_prefix_of(update.after.record().renewed),
        update.before.record().timeouts.is_prefix_of(update.after.record().timeouts),
        update.before.record().probes.is_prefix_of(update.after.record().probes),
        update.before.record().reads.is_prefix_of(update.after.record().reads),
        update.before.record().offers.is_prefix_of(update.after.record().offers),
        update.before.record().finishes.is_prefix_of(update.after.record().finishes),
        told(update.endpoint_before).is_prefix_of(told(update.endpoint_after)),
{
    let trace = lemma_trace(update);
    let before = update.before.record();
    let after = update.after.record();
    let earlier = told(update.endpoint_before);
    let later = told(update.endpoint_after);
    assert(endpoint_record(update.endpoint_after).told == later);
    assert(before.polled =~= after.polled.subrange(0, before.polled.len() as int));
    assert(before.noticed =~= after.noticed.subrange(0, before.noticed.len() as int));
    assert(before.renewed =~= after.renewed.subrange(0, before.renewed.len() as int));
    assert(before.timeouts =~= after.timeouts.subrange(0, before.timeouts.len() as int));
    assert(before.probes =~= after.probes.subrange(0, before.probes.len() as int));
    assert(before.reads =~= after.reads.subrange(0, before.reads.len() as int));
    assert(before.offers =~= after.offers.subrange(0, before.offers.len() as int));
    assert(before.finishes =~= after.finishes.subrange(0, before.finishes.len() as int));
    assert(earlier =~= later.subrange(0, earlier.len() as int));
}

/// What a connection with that handle has to report of what polling told, in order.
pub open spec fn announced(handle: usize, polls: Seq<Option<ProtoEvent>>) -> Seq<ConnectionCallback>
    decreases polls.len(),
{
    if polls.len() == 0 {
        seq![]
    } else {
        let before = announced(handle, polls.drop_last());
        match polls.last() {
            Some(ProtoEvent::Connected) => before.push(
                ConnectionCallback::SuccessfulConnection(handle),
            ),
            Some(ProtoEvent::StreamStopped(id, code)) => before.push(
                ConnectionCallback::ClosedSendStream(StreamId(id), code),
            ),
            _ => before,
        }
    }
}

/// What polling told in two batches is announced batch by batch.
proof fn lemma_announced_concat(
    handle: usize,
    a: Seq<Option<ProtoEvent>>,
    b: Seq<Option<ProtoEvent>>,
)
    ensures
        announced(handle, a + b) == announced(handle, a) + announced(handle, b),
    decreases b.len(),
{
    if b.len() == 0 {
        assert(a + b =~= a);
        assert(announced(handle, a) + announced(handle, b) =~= announced(handle, a));
    } else {
        assert((a + b).drop_last() =~= a + b.drop_last());
        lemma_announced_concat(handle, a, b.drop_last());
        assert(announced(handle, a + b) =~= announced(handle, a) + announced(handle, b));
    }
}

/// A round of polling is announced as its events are reported.
proof fn lemma_announced_round(handle: usize, events: Seq<ProtoEvent>)
    ensures
        announced(handle, round(events)) == events_callbacks(handle, events),
    decreases events.len(),
{
    reveal_with_fuel(announced, 2);
    if events.len() == 0 {
        assert(round(events).drop_last() =~= Seq::<Option<ProtoEvent>>::empty());
    } else {
        let rest = events.drop_first();
        let first = seq![Some(events[0])];
        lemma_announced_round(handle, rest);
        assert(round(events) =~= first + round(rest));
        lemma_announced_concat(handle, first, round(rest));
        assert(first.drop_last() =~= Seq::<Option<ProtoEvent>>::empty());
        assert(announced(handle, first) =~= event_callbacks(handle, events[0]));
    }
}

/// What polling tells after the answers of the endpoint is announced as it is reported.
proof fn lemma_announced_relays(handle: usize, table: TableView, relays: Seq<Relay>)
    requires
        forall|i: int|
            0 <= i < relays.len() && (#[trigger] relays[i]).answer is None
                ==> relays[i].events.len() == 0,
    ensures
        announced(handle, relay_polls(relays)) == events_callbacks(handle, relay_events(relays)),
    decreases relays.len(),
{
    if relays.len() > 0 {
        let before = relays.drop_last();
        let last = relays[relays.len() - 1];
        assert forall|i: int|
            0 <= i < before.len() && (#[trigger] before[i]).answer is None implies {
            before[i].events.len() == 0
        } by {
            assert(before[i] == relays[i]);
        }
        lemma_announced_relays(handle, table, before);
        lemma_events_concat(table, handle, relay_events(before), last.events);
        lemma_announced_concat(handle, relay_polls(before), round(last.events));
        lemma_announced_round(handle, last.events);
        if last.answer is None {
            assert(events_callbacks(handle, relay_events(before)) + events_callbacks(
                handle,
                last.events,
            ) =~= events_callbacks(handle, relay_events(before)));
        }
    }
}

/// What polling told is reported before all else, in the order in which it was told.
pub proof fn law_what_polling_told_is_reported_first(update: Update)
    requires
        update.happened(),
    ensures
        announced(update.before.handle(), update.polls()).is_prefix_of(update.reported),
{
    let trace = lemma_trace(update);
    let handle = update.before.handle();
    let table = update.before@;
    lemma_announced_round(handle, trace.first);
    lemma_announced_relays(handle, table, trace.relays);
    lemma_announced_concat(handle, round(trace.first), relay_polls(trace.relays));
    lemma_events_concat(table, handle, trace.first, relay_events(trace.relays));
    lemma_first_part(
        events_callbacks(handle, trace.events()),
        drained_callbacks(trace.drained()),
        accepts_callbacks(Dir::Uni, trace.uni),
        accepts_callbacks(Dir::Bi, trace.bi),
        reads_callbacks(trace.read, trace.steps),
        finished_callbacks(trace.finished),
    );
}

/// The first of six parts is where all of them begin.
proof fn lemma_first_part(
    a: Seq<ConnectionCallback>,
    b: Seq<ConnectionCallback>,
    c: Seq<ConnectionCallback>,
    d: Seq<ConnectionCallback>,
    e: Seq<ConnectionCallback>,
    f: Seq<ConnectionCallback>,
)
    ensures
        a.is_prefix_of(a + b + c + d + e + f),
{
    assert(a =~= (a + b + c + d + e + f).subrange(0, a.len() as int));
}

/// What is reported of streams that are accepted, one after the other.
proof fn lemma_accept_positions(dir: Dir, ids: Seq<u64>, k: int)
    requires
        0 <= k < ids.len(),
    ensures
        dir is Uni ==> accepts_callbacks(dir, ids).len() == ids.len() && accepts_callbacks(
            dir,
            ids,
        )[k] == ConnectionCallback::OpenedReceiveStream(StreamId(ids[k])),
        dir is Bi ==> accepts_callbacks(dir, ids).len() == 2 * ids.len() && accepts_callbacks(
            dir,
            ids,
        )[2 * k] == ConnectionCallback::OpenedReceiveStream(StreamId(ids[k])) && accepts_callbacks(
            dir,
            ids,
        )[2 * k + 1] == ConnectionCallback::OpenedSendStream(StreamId(ids[k])),
    decreases ids.len(),
{
    let first = accept_callbacks(dir, ids[0]);
    let rest = ids.drop_first();
    let all = accepts_callbacks(dir, ids);
    assert(all == first + accepts_callbacks(dir, rest));
    if rest.len() > 0 {
        lemma_accept_positions(dir, rest, if k > 0 {
            k - 1
        } else {
            0
        });
    } else {
        assert(accepts_callbacks(dir, rest).len() == 0);
    }
    if k > 0 {
        assert(rest[k - 1] == ids[k]);
        if dir is Uni {
            assert(all[k] == accepts_callbacks(dir, rest)[k - 1]);
        } else {
            assert(all[2 * k] == accepts_callbacks(dir, rest)[2 * (k - 1)]);
            assert(all[2 * k + 1] == accepts_callbacks(dir, rest)[2 * (k - 1) + 1]);
        }
    }
}

/// Which stream is reported to be opened at a position.
proof fn lemma_opened_at(dir: Dir, ids: Seq<u64>, i: int)
    requires
        0 <= i < accepts_callbacks(dir, ids).len(),
        accepts_callbacks(dir, ids)[i] is OpenedReceiveStream,
    ensures
        ({
            let k = if dir is Uni {
                i
            } else {
                i / 2
            };
            &&& 0 <= k < ids.len()
            &&& accepts_callbacks(dir, ids)[i]->OpenedReceiveStream_0 == StreamId(ids[k])
            &&& dir is Bi ==> i % 2 == 0 && i + 1 < accepts_callbacks(dir, ids).len()
                && accepts_callbacks(dir, ids)[i + 1] == ConnectionCallback::OpenedSendStream(
                StreamId(ids[k]),
            )
        }),
{
    if ids.len() > 0 {
        lemma_accept_positions(dir, ids, 0);
        if dir is Uni {
            lemma_accept_positions(dir, ids, i);
        } else {
            lemma_accept_positions(dir, ids, i / 2);
        }
    }
}

/// Where the streams that were opened are reported.
proof fn lemma_opened_segment(update: Update, trace: UpdateTrace, i: int) -> (s: (Dir, int))
    requires
        update.happened(),
        update.reported == trace.callbacks(update.before.handle()),
        0 <= i < update.reported.len(),
        update.reported[i] is OpenedReceiveStream,
    ensures
        ({
            let start = events_callbacks(update.before.handle(), trace.events()).len()
                + drained_callbacks(trace.drained()).len();
            let uni = accepts_callbacks(Dir::Uni, trace.uni);
            let bi = accepts_callbacks(Dir::Bi, trace.bi);
            match s.0 {
                Dir::Uni => 0 <= s.1 < uni.len() && uni[s.1] == update.reported[i] && i == start
                    + s.1,
                Dir::Bi => 0 <= s.1 < bi.len() && bi[s.1] == update.reported[i] && i == start
                    + uni.len() + s.1,
            }
        }),
{
    let handle = update.before.handle();
    let a = events_callbacks(handle, trace.events());
    let b = drained_callbacks(trace.drained());
    let c = accepts_callbacks(Dir::Uni, trace.uni);
    let d = accepts_callbacks(Dir::Bi, trace.bi);
    let e = reads_callbacks(trace.read, trace.steps);
    let f = finished_callbacks(trace.finished);
    lemma_events_between(handle, trace.events());
    lemma_reads_between(trace.read, trace.steps);
    let all = a + b + c + d + e + f;
    assert(all == update.reported);
    let x = a.len() as int;
    let y = x + b.len();
    let z = y + c.len();
    let w = z + d.len();
    let v = w + e.len();
    if i < x {
        assert(all[i] == a[i]);
        assert(part(a[i]) == 0);
    } else if i < y {
        assert(all[i] == b[i - x]);
    } else if i >= w && i < v {
        assert(all[i] == e[i - w]);
        assert(part(e[i - w]) == 3);
    } else if i >= v {
        assert(all[i] == f[i - v]);
    }
    if i < z {
        assert(all[i] == c[i - y]);
        (Dir::Uni, i - y)
    } else {
        assert(all[i] == d[i - z]);
        (Dir::Bi, i - z)
    }
}

/// Streams are reported opened in the order in which the peer opened them: first those on which
/// data flows one way, then those on which it flows both ways, and among them by number.
pub proof fn law_opened_streams_are_reported_in_order(update: Update, i: int, j: int)
    requires
        update.completed(),
        0 <= i < j < update.reported.len(),
        update.reported[i] is OpenedReceiveStream,
        update.reported[j] is OpenedReceiveStream,
    ensures
        ({
            let first = update.reported[i]->OpenedReceiveStream_0.0;
            let second = update.reported[j]->OpenedReceiveStream_0.0;
            &&& direction(first) is Bi ==> direction(second) is Bi
            &&& direction(first) == direction(second) ==> first < second
        }),
{
    let trace = lemma_trace(update);
    let side = update.before.side();
    let (dir, k) = lemma_opened_segment(update, trace, i);
    let (other, m) = lemma_opened_segment(update, trace, j);
    let ids = if dir is Uni {
        trace.uni
    } else {
        trace.bi
    };
    let others = if other is Uni {
        trace.uni
    } else {
        trace.bi
    };
    lemma_opened_at(dir, ids, k);
    lemma_opened_at(other, others, m);
    let p = if dir is Uni {
        k
    } else {
        k / 2
    };
    let q = if other is Uni {
        m
    } else {
        m / 2
    };
    assert(ids[p] == stream_number(!side.client, dir, (side.accepted(dir) + p) as nat));
    assert(others[q] == stream_number(!side.client, other, (side.accepted(other) + q) as nat));
}

} // verus!
