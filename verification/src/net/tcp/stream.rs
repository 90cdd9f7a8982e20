//! A TCP stream whose reads and writes go through the ring.

use tokio::io::ReadBuf;
use vstd::prelude::*;
use vstd::slice::{slice_subrange, slice_to_vec};

use crate::net::tcp::read_buf::{buf_capacity, filled_bytes, put_slice};
use crate::net::tcp::write_all::WriteAll;

verus! {

/// A TCP stream between a local and a remote socket.
///
/// A stream polls its reads and writes one at a time: what is in flight is kept until it is
/// ready. `S` is the socket, and `F` an operation on it in flight.
pub struct TcpStream<S, F> {
    pub inner: S,
    read_fut: Option<F>,
    write_fut: Option<F>,
}

/// A stream: its socket, and the read and the write that are in flight.
pub struct Stream<S, F> {
    pub inner: S,
    pub read: Option<F>,
    pub write: Option<F>,
}

/// The operation that a poll goes on with.
pub enum Start<F> {
    /// The one that is in flight already.
    Resume(F),
    /// A new one, on this buffer.
    Fresh(Vec<u8>),
}

/// What polling an operation came to. An operation that failed is not carried on with: its
/// owner panics with the error.
pub enum Polled<F> {
    /// The operation is not ready.
    Pending(F),
    /// The operation is ready: the number of bytes that it moved, and its buffer.
    Ready(usize, Vec<u8>),
}

impl<S, F> View for TcpStream<S, F> {
    type V = Stream<S, F>;

    closed spec fn view(&self) -> Stream<S, F> {
        Stream { inner: self.inner, read: self.read_fut, write: self.write_fut }
    }
}

/// A stream on `socket` with nothing in flight.
pub open spec fn idle<S, F>(socket: S) -> Stream<S, F> {
    Stream { inner: socket, read: None, write: None }
}

/// The stream with `read` as the read in flight.
pub open spec fn with_read<S, F>(stream: Stream<S, F>, read: Option<F>) -> Stream<S, F> {
    Stream { inner: stream.inner, read, write: stream.write }
}

/// The stream with `write` as the write in flight.
pub open spec fn with_write<S, F>(stream: Stream<S, F>, write: Option<F>) -> Stream<S, F> {
    Stream { inner: stream.inner, read: stream.read, write }
}

/// How an operation starts: the one in flight, if there is one, goes on. Otherwise a new one
/// gets the bytes `fresh`.
pub open spec fn starts<F>(start: Start<F>, in_flight: Option<F>, fresh: Seq<u8>) -> bool {
    match in_flight {
        Some(operation) => start == Start::Resume(operation),
        None => start is Fresh && start->Fresh_0@ == fresh,
    }
}

/// The number of bytes that a poll reads at most.
pub const READ_LEN: usize = 4096;

impl<S, F> TcpStream<S, F> {
    /// A stream on `socket`, with nothing in flight.
    pub fn new(socket: S) -> (stream: TcpStream<S, F>)
        ensures
            stream@ == idle::<S, F>(socket),
            stream@.inner == socket,
            stream@.read is None && stream@.write is None,
    {
        TcpStream { inner: socket, read_fut: None, write_fut: None }
    }

    /// A stream on `inner`, with nothing in flight.
    pub fn from_socket(inner: S) -> (stream: TcpStream<S, F>)
        ensures
            stream@ == idle::<S, F>(inner),
            stream@.inner == inner,
            stream@.read is None && stream@.write is None,
    {
        Self::new(inner)
    }

    /// A stream on `socket` once it is connected, or the error with which connecting it came
    /// out.
    pub fn connect<E>(socket: S, connected: Result<(), E>) -> (stream: Result<
        TcpStream<S, F>,
        E,
    >)
        ensures
            match connected {
                Ok(_) => {
                    &&& stream is Ok
                    &&& stream->Ok_0@ == idle::<S, F>(socket)
                    &&& stream->Ok_0@.inner == socket
                    &&& stream->Ok_0@.read is None && stream->Ok_0@.write is None
                },
                Err(error) => stream == Err::<TcpStream<S, F>, E>(error),
            },
    {
        match connected {
            Ok(_) => Ok(Self::new(socket)),
            Err(error) => Err(error),
        }
    }

    /// Begins to write a whole buffer.
    pub fn write_all(&self) -> (write: WriteAll)
        ensures
            write@ == 0,
    {
        WriteAll::new()
    }

    /// Begins to poll for data: takes the read that is in flight, or asks for a new one into
    /// a buffer of zeros.
    pub fn poll_read_start(&mut self) -> (start: Start<F>)
        ensures
            starts(start, old(self)@.read, Seq::new(READ_LEN as nat, |i: int| 0u8)),
            final(self)@ == with_read(old(self)@, None),
            match old(self)@.read {
                Some(read_fut) => start == Start::Resume(read_fut),
                None => {
                    &&& start is Fresh
                    &&& start->Fresh_0@.len() == 4096
                    &&& forall|i: int| 0 <= i < 4096 ==> #[trigger] start->Fresh_0@[i] == 0u8
                },
            },
            final(self)@.read is None,
            final(self)@.write == old(self)@.write,
            final(self)@.inner == old(self)@.inner,
    {
        match self.read_fut.take() {
            Some(read_fut) => Start::Resume(read_fut),
            None => {
                let buf: Vec<u8> = vec![0u8; READ_LEN];
                assert(buf@ =~= Seq::new(READ_LEN as nat, |i: int| 0u8));
                Start::Fresh(buf)
            },
        }
    }

    /// Ends a poll for data, with what polling the read came to. A read that is not ready
    /// stays in flight. One that is ready hands its bytes to `buf`. Returns whether it is
    /// ready.
    ///
    /// A read moves no more bytes than its buffer holds, and they fit into `buf`.
    pub fn poll_read_end(&mut self, polled: Polled<F>, buf: &mut ReadBuf<'_>) -> (ready: bool)
        requires
            polled matches Polled::Ready(bytes_read, data) ==> {
                &&& bytes_read <= data@.len()
                &&& filled_bytes(&*old(buf)).len() + bytes_read <= buf_capacity(&*old(buf))
            },
        ensures
            buf_capacity(&*final(buf)) == buf_capacity(&*old(buf)),
            match polled {
                Polled::Pending(read_fut) => {
                    &&& !ready
                    &&& final(self)@ == with_read(old(self)@, Some(read_fut))
                    &&& final(self)@.read == Some(read_fut)
                    &&& filled_bytes(&*final(buf)) == filled_bytes(&*old(buf))
                },
                Polled::Ready(bytes_read, data) => {
                    &&& ready
                    &&& final(self)@ == old(self)@
                    &&& filled_bytes(&*final(buf)) == filled_bytes(&*old(buf)) + data@.take(
                        bytes_read as int,
                    )
                    &&& final(self)@.read == old(self)@.read
                },
            },
            final(self)@.write == old(self)@.write,
            final(self)@.inner == old(self)@.inner,
    {
        match polled {
            Polled::Pending(read_fut) => {
                self.read_fut = Some(read_fut);
                false
            },
            Polled::Ready(bytes_read, data) => {
                put_slice(buf, slice_subrange(data.as_slice(), 0, bytes_read));
                true
            },
        }
    }

    /// Begins to poll for writing: takes the write that is in flight, or asks for a new one
    /// of a copy of `buf`.
    pub fn poll_write_start(&mut self, buf: &[u8]) -> (start: Start<F>)
        ensures
            starts(start, old(self)@.write, buf@),
            final(self)@ == with_write(old(self)@, None),
            match old(self)@.write {
                Some(write_fut) => start == Start::Resume(write_fut),
                None => {
                    &&& start is Fresh
                    &&& start->Fresh_0@.len() == buf@.len()
                    &&& forall|i: int|
                        0 <= i < buf@.len() ==> #[trigger] start->Fresh_0@[i] == buf@[i]
                },
            },
            final(self)@.write is None,
            final(self)@.read == old(self)@.read,
            final(self)@.inner == old(self)@.inner,
    {
        match self.write_fut.take() {
            Some(write_fut) => Start::Resume(write_fut),
            None => Start::Fresh(slice_to_vec(buf)),
        }
    }

    /// Ends a poll for writing, with what polling the write came to. A write that is not
    /// ready stays in flight. Of one that is ready the number of bytes written is returned.
    pub fn poll_write_end(&mut self, polled: Polled<F>) -> (written: Option<usize>)
        ensures
            match polled {
                Polled::Pending(write_fut) => {
                    &&& written is None
                    &&& final(self)@ == with_write(old(self)@, Some(write_fut))
                    &&& final(self)@.write == Some(write_fut)
                },
                Polled::Ready(bytes_written, _) => {
                    &&& written == Some(bytes_written)
                    &&& final(self)@ == old(self)@
                    &&& final(self)@.write == old(self)@.write
                },
            },
            final(self)@.read == old(self)@.read,
            final(self)@.inner == old(self)@.inner,
    {
        match polled {
            Polled::Pending(write_fut) => {
                self.write_fut = Some(write_fut);
                None
            },
            Polled::Ready(bytes_written, _) => Some(bytes_written),
        }
    }
}

/// An operation that starts with nothing in flight gets a buffer of its own with all of the
/// bytes it is for: as many, and at every place the same. With one in flight, that one goes on,
/// whatever the bytes.
pub proof fn a_new_operation_gets_all_bytes<F>(start: Start<F>, in_flight: Option<F>, bytes: Seq<u8>)
    requires
        starts(start, in_flight, bytes),
    ensures
        in_flight is None ==> {
            &&& start is Fresh
            &&& start->Fresh_0@.len() == bytes.len()
            &&& forall|i: int| 0 <= i < bytes.len() ==> #[trigger] start->Fresh_0@[i] == bytes[i]
        },
        in_flight is Some ==> start is Resume && start->Resume_0 == in_flight->Some_0,
{
}

/// Different bytes never start the same write: what was to be written can be read off the
/// buffer that the write gets.
pub proof fn different_bytes_start_different_writes<F>(
    start: Start<F>,
    first: Seq<u8>,
    second: Seq<u8>,
)
    requires
        starts(start, None, first),
        starts(start, None, second),
    ensures
        first == second,
{
}

/// Putting an operation in flight, or taking it, changes that direction alone.
pub proof fn one_direction_changes<S, F>(stream: Stream<S, F>, operation: Option<F>)
    ensures
        with_read(stream, operation).read == operation,
        with_read(stream, operation).inner == stream.inner,
        with_write(stream, operation).write == operation,
        with_write(stream, operation).inner == stream.inner,
        idle::<S, F>(stream.inner).inner == stream.inner,
        idle::<S, F>(stream.inner).read is None,
        idle::<S, F>(stream.inner).write is None,
{
}

/// A poll that finds its read not ready leaves the stream as it was: the read in flight is
/// taken and put back, and the next poll goes on with it.
pub proof fn unready_read_stays_in_flight<S, F>(stream: Stream<S, F>, read_fut: F)
    requires
        stream.read == Some(read_fut),
    ensures
        with_read(with_read(stream, None), Some(read_fut)) == stream,
        forall|start: Start<F>, fresh: Seq<u8>| #[trigger]
            starts(start, stream.read, fresh) ==> start == Start::Resume(read_fut),
{
}

/// A poll that finds its write not ready leaves the stream as it was: the write in flight is
/// taken and put back, and the next poll goes on with it, whatever bytes it brings.
pub proof fn unready_write_stays_in_flight<S, F>(stream: Stream<S, F>, write_fut: F)
    requires
        stream.write == Some(write_fut),
    ensures
        with_write(with_write(stream, None), Some(write_fut)) == stream,
        forall|start: Start<F>, fresh: Seq<u8>| #[trigger]
            starts(start, stream.write, fresh) ==> start == Start::Resume(write_fut),
{
}

/// Reading and writing do not get in each other's way: what is in flight in one direction is
/// left alone by the other, in whatever order they are polled.
pub proof fn reading_and_writing_are_independent<S, F>(
    stream: Stream<S, F>,
    read: Option<F>,
    write: Option<F>,
)
    ensures
        with_read(stream, read).write == stream.write,
        with_write(stream, write).read == stream.read,
        with_read(with_write(stream, write), read) == with_write(with_read(stream, read), write),
{
}

} // verus!
