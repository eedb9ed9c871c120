use bevy_quinn::{ReadOutcome, ReceiveBuffer, SendBuffer, StreamId, StreamTable};

/// A table with a stream of the peer on which these bytes have arrived.
fn table_with(data: &[u8], budget: usize) -> (StreamTable, StreamId) {
    let id = StreamId(3);
    let mut table = StreamTable::new(budget);
    let mut callbacks = Vec::new();
    table.on_accept(bevy_quinn::Dir::Uni, id, &mut callbacks);
    assert!(table.on_chunk(id, ReadOutcome::Data(data.to_vec()), &mut callbacks));
    (table, id)
}

#[test]
fn a_new_send_buffer_is_empty() {
    let buffer = SendBuffer::default();
    assert_eq!(buffer.bytes_buffered(), 0);
}

#[test]
fn a_new_receive_buffer_is_empty_and_open() {
    let mut buffer = ReceiveBuffer::default();
    assert_eq!(buffer.len(), 0);
    assert!(!buffer.closed());
    assert_eq!(buffer.read().len(), 0);
    assert!(buffer.read_exact(1).is_none());
}

#[test]
fn writes_are_buffered_until_the_stream_is_finished() {
    let mut buffer = SendBuffer::default();
    assert!(buffer.write(b"abc"));
    assert!(buffer.write(b""));
    assert!(buffer.write(b"de"));
    assert_eq!(buffer.bytes_buffered(), 5);

    buffer.finish();
    assert!(!buffer.write(b"f"));
    assert_eq!(buffer.bytes_buffered(), 5);

    buffer.finish();
    assert!(!buffer.write(b""));
    assert_eq!(buffer.bytes_buffered(), 5);
}

#[test]
fn read_gives_every_byte_in_order() {
    let (mut table, id) = table_with(b"hello", 100);
    let buffer = table.receive_stream_mut(id).unwrap();
    assert_eq!(buffer.len(), 5);
    assert_eq!(buffer.read().as_ref(), b"hello");
    assert_eq!(buffer.len(), 0);
    assert_eq!(buffer.read().as_ref(), b"");
}

#[test]
fn read_exact_gives_the_first_bytes_and_leaves_the_remaining() {
    let (mut table, id) = table_with(b"hello world", 100);
    let buffer = table.receive_stream_mut(id).unwrap();
    assert_eq!(buffer.read_exact(5).unwrap().as_ref(), b"hello");
    assert_eq!(buffer.len(), 6);
    assert_eq!(buffer.read().as_ref(), b" world");
}

#[test]
fn read_exact_gives_nothing_if_there_are_too_few_bytes() {
    let (mut table, id) = table_with(b"abc", 100);
    let buffer = table.receive_stream_mut(id).unwrap();
    assert!(buffer.read_exact(4).is_none());
    assert_eq!(buffer.len(), 3);
    assert_eq!(buffer.read_exact(0).unwrap().len(), 0);
    assert_eq!(buffer.read_exact(3).unwrap().as_ref(), b"abc");
    assert!(buffer.read_exact(1).is_none());
}

#[test]
fn two_exact_reads_give_what_one_gives() {
    let (mut one, id) = table_with(b"abcdef", 100);
    let (mut two, _) = table_with(b"abcdef", 100);
    let whole = one.receive_stream_mut(id).unwrap().read_exact(5).unwrap();
    let buffer = two.receive_stream_mut(id).unwrap();
    let first = buffer.read_exact(2).unwrap();
    let second = buffer.read_exact(3).unwrap();
    assert_eq!(whole.as_ref(), [first.as_ref(), second.as_ref()].concat().as_slice());
    assert_eq!(buffer.read().as_ref(), b"f");
    assert_eq!(one.receive_stream_mut(id).unwrap().read().as_ref(), b"f");
}

#[test]
fn bytes_come_out_in_the_order_in_which_they_arrived() {
    let (mut table, id) = table_with(b"abc", 100);
    assert_eq!(table.receive_stream_mut(id).unwrap().read_exact(2).unwrap().as_ref(), b"ab");
    let mut callbacks = Vec::new();
    table.on_chunk(id, ReadOutcome::Data(b"def".to_vec()), &mut callbacks);
    assert_eq!(table.receive_stream_mut(id).unwrap().read().as_ref(), b"cdef");
}
