//! The byte buffers of a stream: one for data on its way out, one for data that came in.

use std::collections::VecDeque;
use vstd::prelude::*;

verus! {

/// What a stream buffer holds: its bytes, oldest first, and whether the stream is closed.
#[verifier::ext_equal]
pub struct BufferView {
    pub data: Seq<u8>,
    pub closed: bool,
}

impl BufferView {
    /// The buffer of a stream on which nothing has happened yet.
    pub open spec fn fresh() -> BufferView {
        BufferView { data: Seq::empty(), closed: false }
    }

    /// The buffer after `more` was appended to it.
    pub open spec fn append(self, more: Seq<u8>) -> BufferView {
        BufferView { data: self.data + more, closed: self.closed }
    }

    /// The buffer after `more` was written to it: a closed one does not take it.
    pub open spec fn written(self, more: Seq<u8>) -> BufferView {
        if self.closed {
            self
        } else {
            self.append(more)
        }
    }

    /// The buffer after its first `n` bytes left it.
    pub open spec fn skip(self, n: int) -> BufferView {
        BufferView { data: self.data.skip(n), closed: self.closed }
    }

    /// The buffer after the stream was closed.
    pub open spec fn close(self) -> BufferView {
        BufferView { data: self.data, closed: true }
    }

    /// Whether the stream is closed and no byte is left.
    pub open spec fn is_finished(self) -> bool {
        self.closed && self.data.len() == 0
    }
}

/// The contents of a ring buffer as one slice.
///
/// Calls `VecDeque::make_contiguous`, of which the contract says that the slice has the
/// contents in order, and that these stay as they are.
#[verifier::external_body]
fn contiguous(buffer: &mut VecDeque<u8>) -> (r: &[u8])
    ensures
        r@ == old(buffer)@,
        final(buffer)@ == old(buffer)@,
{
    buffer.make_contiguous()
}

/// Calls `Vec::into_boxed_slice`, of which the contract says that the slice has the
/// elements of the vector.
#[verifier::external_body]
fn boxed(bytes: Vec<u8>) -> (r: Box<[u8]>)
    ensures
        r@ == bytes@,
{
    bytes.into_boxed_slice()
}

/// Appends `data` to the back of the buffer.
fn push_all(buffer: &mut VecDeque<u8>, data: &[u8])
    ensures
        final(buffer)@ == old(buffer)@ + data@,
{
    buffer.reserve(data.len());
    for i in 0..data.len()
        invariant
            buffer@ == old(buffer)@ + data@.take(i as int),
    {
        buffer.push_back(data[i]);
        assert(data@.take(i + 1) == data@.take(i as int).push(data@[i as int]));
    }
    assert(data@.take(data@.len() as int) == data@);
}

/// Takes the first `n` bytes out of the buffer.
fn take_front(buffer: &mut VecDeque<u8>, n: usize) -> (r: Vec<u8>)
    requires
        n <= old(buffer)@.len(),
    ensures
        r@ == old(buffer)@.take(n as int),
        final(buffer)@ == old(buffer)@.skip(n as int),
{
    let mut taken: Vec<u8> = Vec::with_capacity(n);
    for i in 0..n
        invariant
            n <= old(buffer)@.len(),
            taken@ == old(buffer)@.take(i as int),
            buffer@ == old(buffer)@.skip(i as int),
    {
        if let Some(byte) = buffer.pop_front() {
            taken.push(byte);
        }
    }
    taken
}

/// Data on its way to the peer of a stream.
pub struct SendBuffer {
    buffer: VecDeque<u8>,
    /// When true the stream will be closed after all data has been sent,
    /// and no more data can be written to the stream.
    closed: bool,
}

impl View for SendBuffer {
    type V = BufferView;

    closed spec fn view(&self) -> BufferView {
        BufferView { data: self.buffer@, closed: self.closed }
    }
}

impl Default for SendBuffer {
    fn default() -> (r: SendBuffer)
        ensures
            r@ == BufferView::fresh(),
            r@.data.len() == 0,
            !r@.closed,
    {
        SendBuffer { buffer: VecDeque::new(), closed: false }
    }
}

impl SendBuffer {
    /// Writes some data to the stream.
    ///
    /// Continuing to call write even if the endpoint is congested will cause a memory leak;
    /// use [`SendBuffer::bytes_buffered`] to control how much data you are writing to the buffer.
    ///
    /// This method will return `false` and no data will be written if the stream has been closed.
    pub fn write(&mut self, data: &[u8]) -> (accepted: bool)
        ensures
            accepted == !old(self)@.closed,
            final(self)@ == old(self)@.written(data@),
            accepted ==> final(self)@.data == old(self)@.data + data@,
            !accepted ==> final(self)@.data == old(self)@.data,
            final(self)@.closed == old(self)@.closed,
    {
        if self.closed {
            false
        } else {
            push_all(&mut self.buffer, data);
            true
        }
    }

    /// Returns the number of bytes in the buffer that haven't been sent,
    /// either due to congestion or because the endpoint hasn't been updated yet.
    pub fn bytes_buffered(&self) -> (n: usize)
        ensures
            n == self@.data.len(),
    {
        self.buffer.len()
    }

    /// Closes the stream and prevents any more data from being written.
    pub fn finish(&mut self)
        ensures
            final(self)@ == old(self)@.close(),
            final(self)@.data == old(self)@.data,
            final(self)@.closed,
    {
        self.closed = true;
    }

    /// Whether the stream is to be closed once its data has been sent.
    pub(crate) fn is_closed(&self) -> (r: bool)
        ensures
            r == self@.closed,
    {
        self.closed
    }

    /// The unsent bytes.
    pub(crate) fn unsent(&mut self) -> (r: &[u8])
        ensures
            r@ == old(self)@.data,
            final(self)@ == old(self)@,
    {
        contiguous(&mut self.buffer)
    }

    /// Forgets the first `n` bytes, which have been sent.
    pub(crate) fn consume(&mut self, n: usize)
        requires
            n <= old(self)@.data.len(),
        ensures
            final(self)@ == old(self)@.skip(n as int),
            final(self)@.data == old(self)@.data.skip(n as int),
            final(self)@.closed == old(self)@.closed,
    {
        let _sent: Vec<u8> = take_front(&mut self.buffer, n);
    }
}

/// Data received from the peer of a stream that has not been read yet.
pub struct ReceiveBuffer {
    buffer: VecDeque<u8>,
    closed: bool,
}

impl View for ReceiveBuffer {
    type V = BufferView;

    closed spec fn view(&self) -> BufferView {
        BufferView { data: self.buffer@, closed: self.closed }
    }
}

impl Default for ReceiveBuffer {
    fn default() -> (r: ReceiveBuffer)
        ensures
            r@ == BufferView::fresh(),
            r@.data.len() == 0,
            !r@.closed,
    {
        ReceiveBuffer { buffer: VecDeque::new(), closed: false }
    }
}

impl ReceiveBuffer {
    /// Reads every available byte.
    pub fn read(&mut self) -> (r: Box<[u8]>)
        ensures
            r@ == old(self)@.data,
            final(self)@ == (BufferView { data: Seq::empty(), closed: old(self)@.closed }),
    {
        let n: usize = self.buffer.len();
        boxed(take_front(&mut self.buffer, n))
    }

    /// Tries to read an exact amount of bytes from the buffer,
    /// leaving the remaining in the buffer.
    ///
    /// Will return `None` if there are less than that many bytes available.
    pub fn read_exact(&mut self, bytes: usize) -> (r: Option<Box<[u8]>>)
        ensures
            match r {
                Some(read) => exact_read(old(self)@, bytes as nat) == Some((read@, final(self)@)),
                None => exact_read(old(self)@, bytes as nat) is None && final(self)@ == old(self)@,
            },
            r is Some <==> bytes <= old(self)@.data.len(),
            r matches Some(read) ==> read@.len() == bytes && read@ + final(self)@.data
                == old(self)@.data && final(self)@.closed == old(self)@.closed,
    {
        if self.buffer.len() < bytes {
            return None;
        }
        assert(self@.data.take(bytes as int) + self@.data.skip(bytes as int) =~= self@.data);
        Some(boxed(take_front(&mut self.buffer, bytes)))
    }

    /// Returns the number of available bytes in the buffer.
    pub fn len(&self) -> (n: usize)
        ensures
            n == self@.data.len(),
    {
        self.buffer.len()
    }

    /// Returns whether the stream has been closed and no more data will be received,
    /// however there could still be data in the buffer that hasn't been read.
    pub fn closed(&self) -> (r: bool)
        ensures
            r == self@.closed,
    {
        self.closed
    }

    /// Appends data that arrived.
    pub(crate) fn receive(&mut self, data: &[u8])
        ensures
            final(self)@ == old(self)@.append(data@),
            final(self)@.data == old(self)@.data + data@,
            final(self)@.closed == old(self)@.closed,
    {
        push_all(&mut self.buffer, data);
    }

    /// Notes that no more data will arrive.
    pub(crate) fn close(&mut self)
        ensures
            final(self)@ == old(self)@.close(),
            final(self)@.data == old(self)@.data,
            final(self)@.closed,
    {
        self.closed = true;
    }

    /// Whether no more data will arrive and all that did has been read.
    pub(crate) fn is_finished(&self) -> (r: bool)
        ensures
            r == self@.is_finished(),
            r == (self@.closed && self@.data.len() == 0),
    {
        self.closed && self.buffer.len() == 0
    }
}

/// The result of an exact read of `n` bytes: the bytes and what stays, if there are enough.
pub open spec fn exact_read(buffer: BufferView, n: nat) -> Option<(Seq<u8>, BufferView)> {
    if buffer.data.len() < n {
        None
    } else {
        Some((buffer.data.take(n as int), buffer.skip(n as int)))
    }
}

/// What an application does with a send buffer.
pub enum SendOp {
    Write(Seq<u8>),
    Finish,
}

/// The buffer after an operation.
pub open spec fn after_send_op(buffer: BufferView, op: SendOp) -> BufferView {
    match op {
        SendOp::Write(data) => buffer.written(data),
        SendOp::Finish => buffer.close(),
    }
}

/// The buffer after a sequence of operations.
pub open spec fn after_send_ops(buffer: BufferView, ops: Seq<SendOp>) -> BufferView
    decreases ops.len(),
{
    if ops.len() == 0 {
        buffer
    } else {
        after_send_op(after_send_ops(buffer, ops.drop_last()), ops.last())
    }
}

/// What is written to an open stream is buffered, all of it and nothing else, behind what was
/// there, and the stream stays open. Nothing is written to a closed one.
pub proof fn law_writing_buffers_every_byte(buffer: BufferView, data: Seq<u8>)
    ensures
        !buffer.closed ==> buffer.written(data).data == buffer.data + data,
        buffer.closed ==> buffer.written(data).data == buffer.data,
        buffer.written(data).closed == buffer.closed,
{
}

/// It makes no difference whether data is written at once or in two parts.
pub proof fn law_writes_compose(buffer: BufferView, first: Seq<u8>, second: Seq<u8>)
    ensures
        buffer.written(first).written(second) == buffer.written(first + second),
{
    assert(buffer.written(first).written(second) =~= buffer.written(first + second));
}

/// Finishing a stream closes it and leaves what is buffered.
pub proof fn law_finishing_keeps_what_is_buffered(buffer: BufferView)
    ensures
        buffer.close().data == buffer.data,
        buffer.close().closed,
{
}

/// What arrives comes behind what was there, and what leaves is the front: as many bytes as are
/// to leave, if there are that many. Neither closes the stream.
pub proof fn law_buffers_are_queues(buffer: BufferView, more: Seq<u8>, n: int)
    requires
        0 <= n <= buffer.data.len(),
    ensures
        buffer.append(more).data.len() == buffer.data.len() + more.len(),
        buffer.data.is_prefix_of(buffer.append(more).data),
        more.is_suffix_of(buffer.append(more).data),
        buffer.append(more).closed == buffer.closed,
        buffer.skip(n).data.len() == buffer.data.len() - n,
        buffer.skip(n).data.is_suffix_of(buffer.data),
        buffer.skip(n).closed == buffer.closed,
{
    let all = buffer.append(more).data;
    assert(buffer.data =~= all.subrange(0, buffer.data.len() as int));
    assert(more =~= all.subrange(all.len() - more.len(), all.len() as int));
    let rest = buffer.skip(n).data;
    assert(rest =~= buffer.data.subrange(buffer.data.len() - rest.len(), buffer.data.len() as int));
}

/// A new buffer is empty and open; a buffer is finished when it is closed and empty.
pub proof fn law_new_buffers_are_empty_and_open(buffer: BufferView)
    ensures
        BufferView::fresh().data.len() == 0,
        !BufferView::fresh().closed,
        buffer.is_finished() <==> buffer.closed && buffer.data == BufferView::fresh().data,
{
    if buffer.data.len() == 0 {
        assert(buffer.data =~= BufferView::fresh().data);
    }
}

/// An exact read succeeds if and only if there are that many bytes.
pub proof fn law_exact_reads_succeed_with_enough_bytes(buffer: BufferView, n: nat)
    ensures
        exact_read(buffer, n) is Some <==> n <= buffer.data.len(),
{
}

/// Once a stream is finished no more data can be written to it: whatever the
/// application does after that, the buffer stays as it is.
pub proof fn law_finish_is_final(buffer: BufferView, ops: Seq<SendOp>)
    ensures
        after_send_ops(buffer.close(), ops) == buffer.close(),
    decreases ops.len(),
{
    if ops.len() > 0 {
        law_finish_is_final(buffer, ops.drop_last());
    }
}

/// The bytes that were buffered stay in front, in their order, whatever the application does.
pub proof fn law_send_ops_only_append(buffer: BufferView, ops: Seq<SendOp>)
    ensures
        buffer.data.is_prefix_of(after_send_ops(buffer, ops).data),
        buffer.closed ==> after_send_ops(buffer, ops).closed,
    decreases ops.len(),
{
    if ops.len() > 0 {
        law_send_ops_only_append(buffer, ops.drop_last());
    }
}

/// Reading `a` bytes and then `b` bytes gives what reading `a + b` bytes at once gives,
/// in the same order, and leaves the same bytes behind.
pub proof fn law_exact_reads_compose(buffer: BufferView, a: nat, b: nat)
    ensures
        match exact_read(buffer, a + b) {
            Some((both, rest)) => {
                &&& exact_read(buffer, a) matches Some((first, between))
                &&& exact_read(between, b) == Some((both.skip(a as int), rest))
                &&& first == both.take(a as int)
            },
            None => exact_read(buffer, a) matches Some((_, between)) ==> exact_read(
                between,
                b,
            ) is None,
        },
{
    if buffer.data.len() >= a + b {
        let both = buffer.data.take((a + b) as int);
        assert(both.take(a as int) == buffer.data.take(a as int));
        assert(both.skip(a as int) == buffer.data.skip(a as int).take(b as int));
        assert(buffer.data.skip(a as int).skip(b as int) == buffer.data.skip((a + b) as int));
    }
}

/// An exact read loses nothing: what it returns, followed by what it leaves, is what
/// was there.
pub proof fn law_exact_read_keeps_every_byte(buffer: BufferView, n: nat)
    ensures
        exact_read(buffer, n) matches Some((read, rest)) ==> read + rest.data == buffer.data
            && rest.closed == buffer.closed && read.len() == n,
{
    if buffer.data.len() >= n {
        assert(buffer.data.take(n as int) + buffer.data.skip(n as int) == buffer.data);
    }
}

/// Bytes come out in the order in which they arrived: whatever arrives between an exact
/// read and the next comes after everything that the first read left behind.
pub proof fn law_reads_follow_arrival_order(buffer: BufferView, n: nat, later: Seq<u8>)
    requires
        n <= buffer.data.len(),
    ensures
        exact_read(buffer.append(later), n) == Some(
            (buffer.data.take(n as int), buffer.skip(n as int).append(later)),
        ),
{
    let after = exact_read(buffer.append(later), n)->0;
    assert(after.0 == buffer.data.take(n as int));
    assert(after.1.data == buffer.data.skip(n as int) + later);
    assert(after.1 =~= buffer.skip(n as int).append(later));
}

} // verus!
