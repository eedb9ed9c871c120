use bevy_quinn::{
    timer_due, ConnectionCallback, Dir, ProtoEvent, ReadOutcome, StreamId, StreamTable, WriteAction,
};
use quinn_proto::VarInt;
use std::time::{Duration, Instant};

#[test]
fn a_new_table_is_empty() {
    let mut table = StreamTable::new(17);
    assert!(!table.connected());
    assert_eq!(table.receive_budget(), 17);
    assert!(table.send_stream(StreamId(0)).is_none());
    assert!(table.receive_stream(StreamId(0)).is_none());
    assert!(table.next_write(StreamId(0)).is_none());
}

#[test]
fn the_connected_event_establishes_the_connection() {
    let mut table = StreamTable::new(0);
    let mut callbacks = Vec::new();
    table.on_event(9, ProtoEvent::Connected, &mut callbacks);
    assert!(table.connected());
    assert_eq!(callbacks.len(), 1);
    assert!(matches!(callbacks[0], ConnectionCallback::SuccessfulConnection(9)));
}

#[test]
fn most_events_are_not_reported() {
    let mut table = StreamTable::new(0);
    let mut callbacks = Vec::new();
    table.on_event(9, ProtoEvent::ConnectionLost, &mut callbacks);
    table.on_event(9, ProtoEvent::HandshakeDataReady, &mut callbacks);
    table.on_event(9, ProtoEvent::DatagramReceived, &mut callbacks);
    table.on_event(9, ProtoEvent::DatagramsUnblocked, &mut callbacks);
    table.on_event(9, ProtoEvent::StreamOpened, &mut callbacks);
    table.on_event(9, ProtoEvent::StreamReadable(2), &mut callbacks);
    table.on_event(9, ProtoEvent::StreamWritable, &mut callbacks);
    table.on_event(9, ProtoEvent::StreamFinished, &mut callbacks);
    table.on_event(9, ProtoEvent::StreamAvailable, &mut callbacks);
    assert!(!table.connected());
    assert!(callbacks.is_empty());
}

#[test]
fn a_stopped_stream_is_removed_and_reported() {
    let mut table = StreamTable::new(0);
    let mut callbacks = Vec::new();
    table.on_open(StreamId(0));
    table.on_open(StreamId(4));
    table.on_event(1, ProtoEvent::StreamStopped(0, VarInt::from_u32(7)), &mut callbacks);
    assert!(table.send_stream(StreamId(0)).is_none());
    assert!(table.send_stream(StreamId(4)).is_some());
    assert_eq!(callbacks.len(), 1);
    assert!(matches!(
        callbacks[0],
        ConnectionCallback::ClosedSendStream(StreamId(0), code) if code == VarInt::from_u32(7)
    ));
}

#[test]
fn a_stream_of_the_peer_gets_a_receive_buffer() {
    let mut table = StreamTable::new(0);
    let mut callbacks = Vec::new();
    table.on_accept(Dir::Uni, StreamId(3), &mut callbacks);
    assert_eq!(table.receive_stream(StreamId(3)).unwrap().len(), 0);
    assert!(table.send_stream(StreamId(3)).is_none());
    assert_eq!(callbacks.len(), 1);
    assert!(matches!(callbacks[0], ConnectionCallback::OpenedReceiveStream(StreamId(3))));
}

#[test]
fn a_bidirectional_stream_of_the_peer_gets_both_buffers() {
    let mut table = StreamTable::new(0);
    let mut callbacks = Vec::new();
    table.on_accept(Dir::Bi, StreamId(1), &mut callbacks);
    assert!(table.receive_stream(StreamId(1)).is_some());
    assert!(table.send_stream(StreamId(1)).is_some());
    assert_eq!(callbacks.len(), 2);
    assert!(matches!(callbacks[0], ConnectionCallback::OpenedReceiveStream(StreamId(1))));
    assert!(matches!(callbacks[1], ConnectionCallback::OpenedSendStream(StreamId(1))));
}

#[test]
fn a_stream_of_this_side_gets_a_send_buffer_only() {
    let mut table = StreamTable::new(0);
    table.on_open(StreamId(0));
    assert!(table.send_stream(StreamId(0)).is_some());
    assert!(table.receive_stream(StreamId(0)).is_none());
}

#[test]
fn received_bytes_are_paid_for_from_the_budget() {
    let mut table = StreamTable::new(10);
    let mut callbacks = Vec::new();
    table.on_accept(Dir::Uni, StreamId(3), &mut callbacks);
    assert!(table.on_chunk(StreamId(3), ReadOutcome::Data(vec![1, 2, 3, 4]), &mut callbacks));
    assert_eq!(table.receive_budget(), 6);
    assert!(table.on_chunk(StreamId(3), ReadOutcome::Data(vec![5, 6, 7, 8, 9, 10]), &mut callbacks));
    assert_eq!(table.receive_budget(), 0);
    assert_eq!(table.receive_stream(StreamId(3)).unwrap().len(), 10);

    // reading what arrived gives nothing back to the budget
    table.receive_stream_mut(StreamId(3)).unwrap().read();
    assert_eq!(table.receive_budget(), 0);
}

#[test]
fn reading_stops_when_nothing_more_is_ready() {
    let mut table = StreamTable::new(10);
    let mut callbacks = Vec::new();
    table.on_accept(Dir::Uni, StreamId(3), &mut callbacks);
    callbacks.clear();
    assert!(!table.on_chunk(StreamId(3), ReadOutcome::Blocked, &mut callbacks));
    assert!(callbacks.is_empty());
    assert!(!table.receive_stream(StreamId(3)).unwrap().closed());
}

#[test]
fn a_finished_stream_is_closed_and_reported() {
    let mut table = StreamTable::new(10);
    let mut callbacks = Vec::new();
    table.on_accept(Dir::Uni, StreamId(3), &mut callbacks);
    callbacks.clear();
    assert!(!table.on_chunk(StreamId(3), ReadOutcome::Finished, &mut callbacks));
    assert!(table.receive_stream(StreamId(3)).unwrap().closed());
    assert_eq!(callbacks.len(), 1);
    assert!(matches!(callbacks[0], ConnectionCallback::ClosedReceiveStream(StreamId(3), None)));
}

#[test]
fn a_reset_stream_is_closed_and_reported_with_its_code() {
    let mut table = StreamTable::new(10);
    let mut callbacks = Vec::new();
    table.on_accept(Dir::Uni, StreamId(3), &mut callbacks);
    callbacks.clear();
    let code = VarInt::from_u32(5);
    assert!(!table.on_chunk(StreamId(3), ReadOutcome::Reset(code), &mut callbacks));
    assert!(table.receive_stream(StreamId(3)).unwrap().closed());
    assert!(matches!(
        callbacks[0],
        ConnectionCallback::ClosedReceiveStream(StreamId(3), Some(reason)) if reason == code
    ));
}

#[test]
fn a_closed_stream_is_finished_once_it_has_been_read() {
    let mut table = StreamTable::new(10);
    let mut callbacks = Vec::new();
    table.on_accept(Dir::Uni, StreamId(3), &mut callbacks);
    table.on_accept(Dir::Uni, StreamId(7), &mut callbacks);
    table.on_chunk(StreamId(3), ReadOutcome::Data(vec![1, 2]), &mut callbacks);
    table.on_chunk(StreamId(3), ReadOutcome::Finished, &mut callbacks);
    callbacks.clear();

    // closed, but there is data that has not been read
    table.remove_finished(&mut callbacks);
    assert!(callbacks.is_empty());
    assert!(table.receive_stream(StreamId(3)).is_some());

    table.receive_stream_mut(StreamId(3)).unwrap().read();
    table.remove_finished(&mut callbacks);
    assert_eq!(callbacks.len(), 1);
    assert!(matches!(callbacks[0], ConnectionCallback::FinishedReceiveStream(StreamId(3))));
    assert!(table.receive_stream(StreamId(3)).is_none());

    // empty, but not closed
    assert!(table.receive_stream(StreamId(7)).is_some());

    // reported once
    table.remove_finished(&mut callbacks);
    assert_eq!(callbacks.len(), 1);
}

#[test]
fn all_finished_streams_are_removed_together() {
    let mut table = StreamTable::new(10);
    let mut callbacks = Vec::new();
    for id in [3, 7, 11] {
        table.on_accept(Dir::Uni, StreamId(id), &mut callbacks);
        table.on_chunk(StreamId(id), ReadOutcome::Finished, &mut callbacks);
    }
    callbacks.clear();
    table.remove_finished(&mut callbacks);
    let mut finished = Vec::new();
    for callback in &callbacks {
        match callback {
            ConnectionCallback::FinishedReceiveStream(id) => finished.push(id.0),
            _ => unreachable!(),
        }
    }
    finished.sort();
    assert_eq!(finished, vec![3, 7, 11]);
}

#[test]
fn buffered_bytes_are_to_be_sent_from_the_front() {
    let mut table = StreamTable::new(0);
    let id = StreamId(0);
    table.on_open(id);
    assert!(matches!(table.next_write(id), Some(WriteAction::Wait)));

    table.send_stream_mut(id).unwrap().write(b"abcdef");
    match table.next_write(id) {
        Some(WriteAction::Send(bytes)) => assert_eq!(bytes, b"abcdef"),
        _ => unreachable!(),
    }
    table.on_sent(id, 4);
    assert_eq!(table.send_stream(id).unwrap().bytes_buffered(), 2);
    match table.next_write(id) {
        Some(WriteAction::Send(bytes)) => assert_eq!(bytes, b"ef"),
        _ => unreachable!(),
    }

    table.send_stream_mut(id).unwrap().finish();
    assert!(matches!(table.next_write(id), Some(WriteAction::Send(_))));
    table.on_sent(id, 2);
    assert!(matches!(table.next_write(id), Some(WriteAction::Finish)));
    table.remove_send(id);
    assert!(table.next_write(id).is_none());
}

#[test]
fn every_byte_is_sent_in_order_whatever_is_written_meanwhile() {
    let mut table = StreamTable::new(0);
    let id = StreamId(0);
    table.on_open(id);
    let mut sent: Vec<u8> = Vec::new();
    let mut written: Vec<u8> = Vec::new();
    for round in 0..40u8 {
        let data: Vec<u8> = (0..round).collect();
        table.send_stream_mut(id).unwrap().write(&data);
        written.extend_from_slice(&data);
        let n = match table.next_write(id) {
            Some(WriteAction::Send(bytes)) => {
                let n = bytes.len().min(13);
                sent.extend_from_slice(&bytes[..n]);
                n
            }
            _ => 0,
        };
        table.on_sent(id, n);
        assert_eq!(sent.len() + table.send_stream(id).unwrap().bytes_buffered(), written.len());
    }
    while let Some(WriteAction::Send(bytes)) = table.next_write(id) {
        let n = bytes.len();
        assert!(n > 0);
        sent.extend_from_slice(bytes);
        table.on_sent(id, n);
    }
    assert_eq!(sent, written);
}

#[test]
fn streams_carry_data_from_the_side_that_opened_them() {
    // opened by the client, both ways
    assert!(StreamId(0).may_send(true) && StreamId(0).may_receive(true));
    assert!(StreamId(0).may_send(false) && StreamId(0).may_receive(false));
    // opened by the server, both ways
    assert!(StreamId(1).may_send(true) && StreamId(1).may_receive(true));
    assert!(StreamId(1).may_send(false) && StreamId(1).may_receive(false));
    // opened by the client, one way
    assert!(StreamId(2).may_send(true) && !StreamId(2).may_receive(true));
    assert!(!StreamId(2).may_send(false) && StreamId(2).may_receive(false));
    // opened by the server, one way
    assert!(!StreamId(7).may_send(true) && StreamId(7).may_receive(true));
    assert!(StreamId(7).may_send(false) && !StreamId(7).may_receive(false));
    // no stream has such a number
    assert!(!StreamId(1 << 62).may_send(true) && !StreamId(1 << 62).may_receive(true));
    assert!(StreamId((1 << 62) - 4).may_send(true));
}

#[test]
fn stream_numbers_agree_with_the_protocol() {
    for number in 0..64u64 {
        let id: quinn_proto::StreamId = VarInt::from_u64(number).unwrap().into();
        for side in [quinn_proto::Side::Client, quinn_proto::Side::Server] {
            let both = id.dir() == quinn_proto::Dir::Bi;
            let own = id.initiator() == side;
            assert_eq!(StreamId(number).may_send(side.is_client()), both || own);
            assert_eq!(StreamId(number).may_receive(side.is_client()), both || !own);
        }
    }
}

#[test]
fn all_that_is_buffered_is_offered_at_once() {
    let mut table = StreamTable::new(0);
    let id = StreamId(0);
    table.on_open(id);
    let mut expected: Vec<u8> = Vec::new();
    for round in 0..60u8 {
        let data = vec![round; 7];
        table.send_stream_mut(id).unwrap().write(&data);
        expected.extend_from_slice(&data);
        match table.next_write(id) {
            Some(WriteAction::Send(bytes)) => assert_eq!(bytes, &expected[..]),
            _ => unreachable!(),
        }
        table.on_sent(id, 6);
        expected.drain(..6);
    }
    assert_eq!(table.send_stream(id).unwrap().bytes_buffered(), 60);
}

#[test]
fn a_timer_is_due_once_its_deadline_has_been_reached() {
    let now = Instant::now();
    assert!(!timer_due(None, now));
    assert!(timer_due(Some(now), now));
    assert!(!timer_due(Some(now + Duration::from_millis(1)), now));
    assert!(timer_due(Some(now), now + Duration::from_millis(1)));
}
