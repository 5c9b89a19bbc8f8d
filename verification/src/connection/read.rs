//! Operations that read from a stream.

use bytes::Bytes;
use tokio::io::ReadBuf;
use vstd::prelude::*;

use crate::buf::{bytes_as_slice, bytes_content};
use crate::connection::error::{ReadError, ReadExactError, ReadToEndError, WriteError};
use crate::connection::read_buf::{
    read_buf_capacity, read_buf_contents, read_buf_filled, read_buf_new, read_buf_put,
    read_buf_remaining, read_buf_room, read_buf_size,
};
use crate::connection::stream::{writes, Stream};
use crate::connection::{ends, Connection, Poll};
use crate::error::Error;
use crate::queue::reassembly_queue::{Chunk, Chunks, FragmentSet, ReassemblyState};
use crate::queue::total::{lemma_total_concat, lemma_total_one};
use crate::stream::handle::{
    changed_stream, contents, lemma_changed_again, lemma_unchanged, messages_len, readable,
};
use crate::stream::state::StreamModel;

verus! {

/// The message that reading a stream takes next, if there is one, or why the stream cannot be read:
/// it was stopped, or it has not been finished and the association has no such stream, or has closed
/// it.
pub open spec fn message_at(conn: Connection, stream: Stream) -> Result<
    Option<FragmentSet>,
    ReadError,
> {
    if stream.all_data_read {
        Err(ReadError::UnknownStream)
    } else if readable(conn.inner, stream.stream) {
        Ok(conn.inner.streams@[stream.stream]@.reassembly.next_message())
    } else if conn.finished@.contains(stream.stream) {
        Ok(None)
    } else if !conn.inner.streams@.contains_key(stream.stream) {
        Err(ReadError::Error(Error::ErrStreamNotExisted))
    } else {
        Err(ReadError::Error(Error::ErrStreamClosed))
    }
}

/// Whether `after` is the connection `before` once a message, if there was one, was taken from a
/// stream, and nothing else happened.
pub open spec fn takes_message(before: Connection, stream: Stream, after: Connection) -> bool {
    if !stream.all_data_read && readable(before.inner, stream.stream) {
        let model = before.inner.streams@[stream.stream]@;
        &&& after == (Connection { inner: after.inner, ..before })
        &&& changed_stream(
            before.inner,
            stream.stream,
            StreamModel { reassembly: model.reassembly.after_read(), ..model },
            after.inner,
        )
    } else {
        after == before
    }
}

/// Whether `after` and `r` are what having nothing to read makes of the connection `before`: the
/// reader is told that the association is lost, or else, with `end`, that the stream was finished, or
/// else waits.
pub open spec fn waits<U>(
    before: Connection,
    id: u16,
    after: Connection,
    end: U,
    r: Poll<Result<U, ReadError>>,
) -> bool {
    match before.error {
        Some(x) => {
            &&& r == Poll::<Result<U, ReadError>>::Ready(Err(ReadError::AssociationLost(x)))
            &&& after == before
        },
        None => if before.finished@.contains(id) {
            &&& r == Poll::<Result<U, ReadError>>::Ready(Ok(end))
            &&& after == before
        } else {
            &&& r == Poll::<Result<U, ReadError>>::Pending
            &&& after == (Connection { blocked_readers: after.blocked_readers, ..before })
            &&& after.blocked_readers@ == before.blocked_readers@.insert(id)
        },
    }
}

/// Whether `after` and `r` are what a read makes of the connection `before`: the message that is
/// next is gone and something of it is yielded, or the stream cannot be read, or there is nothing to
/// read, where `end` is what says that the stream was finished.
pub open spec fn reads<U>(
    before: Connection,
    stream: Stream,
    after: Connection,
    end: U,
    r: Poll<Result<U, ReadError>>,
) -> bool {
    match message_at(before, stream) {
        Err(e) => {
            &&& r == Poll::<Result<U, ReadError>>::Ready(Err(e))
            &&& after == before
        },
        Ok(Some(_)) => {
            &&& r matches Poll::Ready(Ok(_))
            &&& takes_message(before, stream, after)
        },
        Ok(None) => exists|mid: Connection| #[trigger]
            takes_message(before, stream, mid) && waits(mid, stream.stream, after, end, r),
    }
}

/// As much of some bytes as fits.
pub open spec fn fitting(data: Seq<u8>, room: int) -> Seq<u8> {
    if data.len() <= room {
        data
    } else {
        data.take(room)
    }
}

/// Operation produced by [`Stream::read`]
#[must_use]
pub struct Read<'a> {
    pub stream: &'a mut Stream,
    pub buf: ReadBuf<'a>,
}

/// Operation produced by [`Stream::read_exact`]
#[must_use]
pub struct ReadExact<'a> {
    pub stream: &'a mut Stream,
    pub buf: ReadBuf<'a>,
}

/// Operation produced by [`Stream::read_chunk`]
#[must_use]
pub struct ReadChunk<'a> {
    pub stream: &'a mut Stream,
    pub max_length: usize,
}

/// Operation produced by [`Stream::read_chunks`]
#[must_use]
pub struct ReadChunks<'a> {
    pub stream: &'a mut Stream,
    pub bufs: &'a mut [Bytes],
}

/// Operation produced by [`Stream::read_to_end`]
#[must_use]
pub struct ReadToEnd {
    pub stream: Stream,
    pub read: Vec<Chunk>,
    pub size: usize,
    pub size_limit: usize,
}

impl Stream {
    /// Read data contiguously from the stream.
    ///
    /// Yields the number of bytes read into `buf` on success, or `None` if the stream was finished.
    pub fn read<'a>(&'a mut self, buf: &'a mut [u8]) -> (r: Read<'a>)
        ensures
            *r.stream == *old(self),
            *final(self) == *final(r.stream),
            read_buf_filled(r.buf).len() == 0,
            read_buf_capacity(r.buf) == old(buf)@.len(),
    {
        Read { stream: self, buf: read_buf_new(buf) }
    }

    /// Read an exact number of bytes contiguously from the stream.
    ///
    /// See [`read()`] for details.
    ///
    /// [`read()`]: Stream::read
    pub fn read_exact<'a>(&'a mut self, buf: &'a mut [u8]) -> (r: ReadExact<'a>)
        ensures
            *r.stream == *old(self),
            *final(self) == *final(r.stream),
            read_buf_filled(r.buf).len() == 0,
            read_buf_capacity(r.buf) == old(buf)@.len(),
    {
        ReadExact { stream: self, buf: read_buf_new(buf) }
    }

    /// Read the next segment of data
    ///
    /// Slightly more efficient than `read` due to not copying. Chunk boundaries do not correspond
    /// to peer writes, and hence cannot be used as framing.
    ///
    /// Yields the segment, or `None` if the stream was finished.
    pub fn read_chunk<'a>(&'a mut self, max_length: usize) -> (r: ReadChunk<'a>)
        ensures
            *r.stream == *old(self),
            *final(self) == *final(r.stream),
            r.max_length == max_length,
    {
        ReadChunk { stream: self, max_length }
    }

    /// Read the next segments of data
    ///
    /// Fills `bufs` with the segments of data beginning immediately after the
    /// last data yielded by `read` or `read_chunk`.
    ///
    /// Slightly more efficient than `read` due to not copying. Chunk boundaries
    /// do not correspond to peer writes, and hence cannot be used as framing.
    ///
    /// Yields the number of segments read, or `None` if the stream was finished.
    pub fn read_chunks<'a>(&'a mut self, bufs: &'a mut [Bytes]) -> (r: ReadChunks<'a>)
        ensures
            *r.stream == *old(self),
            *final(self) == *final(r.stream),
            r.bufs@ == old(bufs)@,
            final(bufs)@ == final(r.bufs)@,
    {
        ReadChunks { stream: self, bufs }
    }

    /// Convenience method to read all remaining data into a buffer
    ///
    /// The operation fails with [`ReadToEndError::TooLong`] if it's longer than `size_limit`
    /// bytes. `size_limit` should be set to limit worst-case memory use.
    pub fn read_to_end(self, size_limit: usize) -> (r: ReadToEnd)
        ensures
            r.stream == self,
            r.read@.len() == 0,
            r.size == 0,
            r.size_limit == size_limit,
            r.wf(),
    {
        ReadToEnd { stream: self, read: Vec::new(), size: 0, size_limit }
    }

    /// Takes the next message from the stream, if there is one.
    fn take_message(&self, conn: &mut Connection) -> (r: Result<Option<Chunks>, ReadError>)
        requires
            old(conn).inner.wf(),
        ensures
            final(conn).inner.wf(),
            takes_message(*old(conn), *self, *final(conn)),
            match (message_at(*old(conn), *self), r) {
                (Err(e), Err(x)) => x == e,
                (Ok(Some(m)), Ok(Some(chunks))) => {
                    &&& chunks@ == m
                    &&& m.wf()
                    &&& m.index < m.chunks.len()
                    &&& m.unread_data().len() + old(
                        conn,
                    ).inner.streams@[self.stream]@.reassembly.after_read().held_bytes() == old(
                        conn,
                    ).inner.streams@[self.stream]@.reassembly.held_bytes() <= usize::MAX
                },
                (Ok(None), Ok(None)) => true,
                _ => false,
            },
    {
        broadcast use vstd::std_specs::hash::group_hash_axioms;

        if self.all_data_read {
            return Err(ReadError::UnknownStream);
        }
        let got: Result<Option<Chunks>, Error> = match conn.inner.stream(self.stream) {
            Ok(s) => {
                let mut s = s;
                s.read()
            },
            Err(e) => {
                if conn.finished.contains(&self.stream) {
                    return Ok(None);
                }
                return Err(ReadError::Error(e));
            },
        };
        proof {
            let a = old(conn).inner;
            if message_at(*old(conn), *self) matches Ok(Some(m)) {
                a.streams@[self.stream].reassembly_queue.lemma_next_message();
            }
        }
        match got {
            Ok(chunks) => Ok(chunks),
            Err(e) => {
                if conn.finished.contains(&self.stream) {
                    return Ok(None);
                }
                Err(ReadError::Error(e))
            },
        }
    }

    /// Ends a read: with what it yielded, or, where it yielded nothing, with the loss of the
    /// association, with `end` where the stream was finished, or with waiting.
    pub fn settle_read<U>(&self, conn: &mut Connection, status: Option<U>, end: U) -> (r: Poll<
        Result<U, ReadError>,
    >)
        ensures
            final(conn).inner == old(conn).inner,
            match status {
                Some(u) => {
                    &&& r == Poll::<Result<U, ReadError>>::Ready(Ok(u))
                    &&& *final(conn) == *old(conn)
                },
                None => waits(*old(conn), self.stream, *final(conn), end, r),
            },
    {
        broadcast use vstd::std_specs::hash::group_hash_axioms;

        match status {
            Some(read) => Poll::Ready(Ok(read)),
            None => {
                if let Some(x) = conn.error {
                    return Poll::Ready(Err(ReadError::AssociationLost(x)));
                }
                if conn.finished.contains(&self.stream) {
                    return Poll::Ready(Ok(end));
                }
                conn.blocked_readers.insert(self.stream);
                Poll::Pending
            },
        }
    }

    /// Reads the next message into a buffer, as far as it fits. What does not fit is dropped.
    pub fn poll_read(&self, conn: &mut Connection, buf: &mut ReadBuf) -> (r: Poll<
        Result<(), ReadError>,
    >)
        requires
            old(conn).inner.wf(),
        ensures
            final(conn).inner.wf(),
            read_buf_capacity(*final(buf)) == read_buf_capacity(*old(buf)),
            if read_buf_room(*old(buf)) == 0 {
                &&& r == Poll::<Result<(), ReadError>>::Ready(Ok(()))
                &&& *final(conn) == *old(conn)
                &&& read_buf_filled(*final(buf)) == read_buf_filled(*old(buf))
            } else {
                &&& reads(*old(conn), *self, *final(conn), (), r)
                &&& read_buf_filled(*final(buf)) == read_buf_filled(*old(buf)) + (match message_at(
                    *old(conn),
                    *self,
                ) {
                    Ok(Some(m)) => fitting(m.unread_data(), read_buf_room(*old(buf))),
                    _ => Seq::<u8>::empty(),
                })
            },
    {
        if read_buf_remaining(buf) == 0 {
            return Poll::Ready(Ok(()));
        }
        let ghost start = *conn;
        let ghost filled = read_buf_filled(*buf);
        let ghost room = read_buf_room(*buf);
        let taken: Option<Chunks> = match self.take_message(conn) {
            Ok(taken) => taken,
            Err(e) => {
                assert(read_buf_filled(*buf) =~= filled + Seq::<u8>::empty());
                return Poll::Ready(Err(e));
            },
        };
        let ghost mid = *conn;
        let mut status: Option<()> = None;
        if let Some(chunks) = taken {
            let mut chunks: Chunks = chunks;
            let ghost data = chunks@.unread_data();
            let ghost want = fitting(data, room);
            assert(data =~= Seq::<u8>::empty() + chunks@.unread_data());
            assert(filled =~= filled + Seq::<u8>::empty());
            while read_buf_remaining(buf) > 0
                invariant_except_break
                    chunks@.wf(),
                    read_buf_capacity(*buf) == read_buf_capacity(*old(buf)),
                    room == read_buf_room(*old(buf)),
                    filled == read_buf_filled(*old(buf)),
                    want == fitting(data, room),
                    room > 0,
                    status is None ==> chunks@.index < chunks@.chunks.len() && read_buf_filled(*buf)
                        == filled && chunks@.unread_data() == data,
                    status is Some ==> read_buf_filled(*buf) == filled + want && (data.len() <= room
                        ==> chunks@.index == chunks@.chunks.len()),
                    status is Some && data.len() > room ==> read_buf_room(*buf) == 0,
                ensures
                    status is Some,
                    read_buf_capacity(*buf) == read_buf_capacity(*old(buf)),
                    read_buf_filled(*buf) == filled + want,
                decreases
                        if status is None {
                            1int
                        } else {
                            0int
                        },
            {
                match chunks.next(read_buf_remaining(buf)) {
                    Some(chunk) => {
                        assert(bytes_content(chunk.bytes) =~= want);
                        read_buf_put(buf, bytes_as_slice(&chunk.bytes));
                        status = Some(());
                    },
                    None => {
                        break;
                    },
                }
            }
        }
        assert(status is None ==> read_buf_filled(*buf) =~= filled + Seq::<u8>::empty());
        assert(takes_message(start, *self, mid));
        self.settle_read(conn, status, ())
    }
}

impl ReadToEnd {
    /// Whether the size is that of what has been read.
    pub open spec fn wf(&self) -> bool {
        self.size == messages_len(chunk_contents(self.read@))
    }
}

/// The contents of a list of chunks.
pub open spec fn chunk_contents(chunks: Seq<Chunk>) -> Seq<Seq<u8>> {
    chunks.map_values(|c: Chunk| bytes_content(c.bytes))
}

impl Stream {
    /// Reads the next message, and yields its first bytes, at most `max_length` of them. The rest
    /// is dropped.
    pub fn poll_read_chunk(&self, conn: &mut Connection, max_length: usize) -> (r: Poll<
        Result<Option<Chunk>, ReadError>,
    >)
        requires
            old(conn).inner.wf(),
        ensures
            final(conn).inner.wf(),
            reads(*old(conn), *self, *final(conn), None, r),
            message_at(*old(conn), *self) matches Ok(Some(m)) ==> (
            r matches Poll::Ready(Ok(Some(chunk))) && bytes_content(chunk.bytes) == fitting(
                m.unread_data(),
                max_length as int,
            )),
    {
        let ghost start = *conn;
        let taken: Option<Chunks> = match self.take_message(conn) {
            Ok(taken) => taken,
            Err(e) => {
                return Poll::Ready(Err(e));
            },
        };
        let ghost mid = *conn;
        let mut status: Option<Option<Chunk>> = None;
        if let Some(chunks) = taken {
            let mut chunks: Chunks = chunks;
            let ghost data = chunks@.unread_data();
            let chunk: Option<Chunk> = chunks.next(max_length);
            assert(bytes_content(chunk->0.bytes) =~= fitting(data, max_length as int));
            status = Some(chunk);
        }
        assert(takes_message(start, *self, mid));
        self.settle_read(conn, status, None)
    }

    /// Reads the next message into the first of some buffers. A message is one segment, so that the
    /// others are left alone.
    pub fn poll_read_chunks(&self, conn: &mut Connection, bufs: &mut [Bytes]) -> (r: Poll<
        Result<Option<usize>, ReadError>,
    >)
        requires
            old(conn).inner.wf(),
        ensures
            final(conn).inner.wf(),
            final(bufs)@.len() == old(bufs)@.len(),
            if old(bufs)@.len() == 0 {
                &&& r == Poll::<Result<Option<usize>, ReadError>>::Ready(Ok(Some(0)))
                &&& *final(conn) == *old(conn)
            } else {
                &&& reads(*old(conn), *self, *final(conn), None, r)
                &&& match message_at(*old(conn), *self) {
                    Ok(Some(m)) => {
                        &&& r == Poll::<Result<Option<usize>, ReadError>>::Ready(Ok(Some(1)))
                        &&& contents(final(bufs)@) == contents(old(bufs)@).update(
                            0,
                            m.unread_data(),
                        )
                    },
                    _ => final(bufs)@ == old(bufs)@,
                }
            },
    {
        if bufs.len() == 0 {
            return Poll::Ready(Ok(Some(0)));
        }
        let ghost start = *conn;
        let ghost empty_bufs = bufs@;
        let taken: Option<Chunks> = match self.take_message(conn) {
            Ok(taken) => taken,
            Err(e) => {
                return Poll::Ready(Err(e));
            },
        };
        let ghost mid = *conn;
        let mut status: Option<Option<usize>> = None;
        if let Some(chunks) = taken {
            let mut chunks: Chunks = chunks;
            let ghost data = chunks@.unread_data();
            let mut read: usize = 0;
            while read < bufs.len()
                invariant_except_break
                    chunks@.wf(),
                    read <= 1,
                    bufs@.len() == empty_bufs.len() > 0,
                    data.len() <= usize::MAX,
                    read == 0 ==> chunks@.index < chunks@.chunks.len() && chunks@.unread_data()
                        == data && bufs@ == empty_bufs,
                    read == 1 ==> chunks@.index == chunks@.chunks.len() && contents(bufs@)
                        == contents(empty_bufs).update(0, data),
                ensures
                    read == 1,
                    bufs@.len() == empty_bufs.len(),
                    contents(bufs@) == contents(empty_bufs).update(0, data),
                decreases 1 - read,
            {
                match chunks.next(usize::MAX) {
                    Some(chunk) => {
                        assert(bytes_content(chunk.bytes) =~= data);
                        bufs[read] = chunk.bytes;
                        read += 1;
                        assert(contents(bufs@) =~= contents(empty_bufs).update(0, data));
                    },
                    None => {
                        break;
                    },
                }
            }
            status = Some(Some(read));
        }
        assert(takes_message(start, *self, mid));
        self.settle_read(conn, status, None)
    }
}

impl<'a> Read<'a> {
    /// Gets on with the operation.
    pub fn poll(&mut self, conn: &mut Connection) -> (r: Poll<Result<Option<usize>, ReadError>>)
        requires
            old(conn).inner.wf(),
        ensures
            final(conn).inner.wf(),
            *final(self).stream == *old(self).stream,
            *final(final(self).stream) == *final(old(self).stream),
            read_buf_capacity(final(self).buf) == read_buf_capacity(old(self).buf),
            r matches Poll::Ready(Ok(n)) ==> n == amount_read(final(self).buf),
            if read_buf_room(old(self).buf) == 0 {
                &&& r matches Poll::Ready(Ok(_))
                &&& *final(conn) == *old(conn)
                &&& read_buf_filled(final(self).buf) == read_buf_filled(old(self).buf)
            } else {
                &&& reads(
                    *old(conn),
                    *old(self).stream,
                    *final(conn),
                    amount_read(final(self).buf),
                    r,
                )
                &&& read_buf_filled(final(self).buf) == read_buf_filled(old(self).buf) + (
                match message_at(*old(conn), *old(self).stream) {
                    Ok(Some(m)) => fitting(m.unread_data(), read_buf_room(old(self).buf)),
                    _ => Seq::<u8>::empty(),
                })
            },
    {
        match self.stream.poll_read(conn, &mut self.buf) {
            Poll::Ready(Ok(_)) => {},
            Poll::Ready(Err(e)) => {
                return Poll::Ready(Err(e));
            },
            Poll::Pending => {
                return Poll::Pending;
            },
        }
        let n: usize = read_buf_contents(&self.buf).len();
        if n == 0 && read_buf_size(&self.buf) != 0 {
            Poll::Ready(Ok(None))
        } else {
            Poll::Ready(Ok(Some(n)))
        }
    }
}

/// How much was read into a buffer, and `None` where that is nothing although there was room.
pub open spec fn amount_read(buf: ReadBuf) -> Option<usize> {
    if read_buf_filled(buf).len() == 0 && read_buf_capacity(buf) > 0 {
        None
    } else {
        Some(read_buf_filled(buf).len() as usize)
    }
}

impl<'a> ReadChunk<'a> {
    /// Gets on with the operation.
    pub fn poll(&mut self, conn: &mut Connection) -> (r: Poll<Result<Option<Chunk>, ReadError>>)
        requires
            old(conn).inner.wf(),
        ensures
            final(conn).inner.wf(),
            *final(self) == *old(self),
            reads(*old(conn), *old(self).stream, *final(conn), None, r),
            message_at(*old(conn), *old(self).stream) matches Ok(Some(m)) ==> (
            r matches Poll::Ready(Ok(Some(chunk))) && bytes_content(chunk.bytes) == fitting(
                m.unread_data(),
                old(self).max_length as int,
            )),
    {
        self.stream.poll_read_chunk(conn, self.max_length)
    }
}

impl<'a> ReadChunks<'a> {
    /// Gets on with the operation.
    pub fn poll(&mut self, conn: &mut Connection) -> (r: Poll<Result<Option<usize>, ReadError>>)
        requires
            old(conn).inner.wf(),
        ensures
            final(conn).inner.wf(),
            *final(self).stream == *old(self).stream,
            *final(final(self).stream) == *final(old(self).stream),
            final(final(self).bufs)@ == final(old(self).bufs)@,
            final(self).bufs@.len() == old(self).bufs@.len(),
            if old(self).bufs@.len() == 0 {
                &&& r == Poll::<Result<Option<usize>, ReadError>>::Ready(Ok(Some(0)))
                &&& *final(conn) == *old(conn)
            } else {
                &&& reads(*old(conn), *old(self).stream, *final(conn), None, r)
                &&& match message_at(*old(conn), *old(self).stream) {
                    Ok(Some(m)) => {
                        &&& r == Poll::<Result<Option<usize>, ReadError>>::Ready(Ok(Some(1)))
                        &&& contents(final(self).bufs@) == contents(old(self).bufs@).update(
                            0,
                            m.unread_data(),
                        )
                    },
                    _ => final(self).bufs@ == old(self).bufs@,
                }
            },
    {
        self.stream.poll_read_chunks(conn, self.bufs)
    }
}

/// How many messages, whole or not, wait in a queue, not counting unordered fragments.
pub open spec fn message_count(q: ReassemblyState) -> nat {
    q.ordered.len() + q.unordered.len()
}

/// How far a buffer is filled from the messages in a queue.
#[verifier::ext_equal]
pub struct Filling {
    /// What is in the buffer.
    pub filled: Seq<u8>,
    /// Whether a message without data was met.
    pub finished_early: bool,
    /// What is left in the queue.
    pub left: ReassemblyState,
}

/// What comes of filling a buffer of that capacity, which holds `filled`, with message after message
/// until it is full, a message without data is met, or there are no more. Of the message that fills
/// the buffer, what does not fit is dropped.
pub open spec fn filling(q: ReassemblyState, filled: Seq<u8>, capacity: nat) -> Filling
    decreases message_count(q),
{
    if filled.len() >= capacity || q.next_message() is None {
        Filling { filled, finished_early: false, left: q }
    } else {
        let data = q.next_message()->0.unread_data();
        if data.len() == 0 {
            Filling { filled, finished_early: true, left: q.after_read() }
        } else {
            filling(q.after_read(), filled + fitting(data, capacity - filled.len()), capacity)
        }
    }
}

/// What there is to read on a stream: nothing where it is not there or was closed.
pub open spec fn queue_at(conn: Connection, id: u16) -> ReassemblyState {
    if readable(conn.inner, id) {
        conn.inner.streams@[id]@.reassembly
    } else {
        ReassemblyState::fresh(id)
    }
}

/// Whether `after` is the connection `before` with only the queue of one stream changed, into `q`, if
/// there is one to read from.
pub open spec fn queue_changed(
    before: Connection,
    id: u16,
    q: ReassemblyState,
    after: Connection,
) -> bool {
    if readable(before.inner, id) {
        &&& after == (Connection { inner: after.inner, ..before })
        &&& changed_stream(
            before.inner,
            id,
            StreamModel { reassembly: q, ..before.inner.streams@[id]@ },
            after.inner,
        )
    } else {
        after == before
    }
}

/// Whether `after` is the connection `before` once the queue of one stream was emptied down to `q`,
/// and then the reader was told that the association is lost or that the stream was finished, or
/// waits.
pub open spec fn ran_dry<U>(
    before: Connection,
    id: u16,
    q: ReassemblyState,
    after: Connection,
    end: U,
    r: Poll<Result<U, ReadError>>,
) -> bool {
    exists|mid: Connection| #[trigger]
        queue_changed(before, id, q, mid) && waits(mid, id, after, end, r)
}

/// The answer of a read of an exact number of bytes to the answer of a single read that read nothing.
pub open spec fn exact_answer(r: Poll<Result<(), ReadError>>) -> Poll<Result<(), ReadExactError>> {
    match r {
        Poll::Ready(Ok(_)) => Poll::Ready(Err(ReadExactError::FinishedEarly)),
        Poll::Ready(Err(e)) => Poll::Ready(Err(ReadExactError::ReadError(e))),
        Poll::Pending => Poll::Pending,
    }
}

/// Whether `after`, `filled` and `r` are what filling a buffer makes of the connection `before`.
pub open spec fn reads_exact(
    before: Connection,
    stream: Stream,
    filled_before: Seq<u8>,
    capacity: nat,
    after: Connection,
    filled: Seq<u8>,
    r: Poll<Result<(), ReadExactError>>,
) -> bool {
    if filled_before.len() >= capacity {
        &&& r == Poll::<Result<(), ReadExactError>>::Ready(Ok(()))
        &&& after == before
        &&& filled == filled_before
    } else {
        match message_at(before, stream) {
            Err(e) => {
                &&& r == exact_answer(Poll::Ready(Err(e)))
                &&& after == before
                &&& filled == filled_before
            },
            Ok(_) => {
                let f = filling(queue_at(before, stream.stream), filled_before, capacity);
                &&& filled == f.filled
                &&& if f.finished_early {
                    &&& r == Poll::<Result<(), ReadExactError>>::Ready(
                        Err(ReadExactError::FinishedEarly),
                    )
                    &&& queue_changed(before, stream.stream, f.left, after)
                } else if f.filled.len() >= capacity {
                    &&& r == Poll::<Result<(), ReadExactError>>::Ready(Ok(()))
                    &&& queue_changed(before, stream.stream, f.left, after)
                } else {
                    exists|x: Poll<Result<(), ReadError>>| #[trigger]
                        exact_answer(x) == r && ran_dry(before, stream.stream, f.left, after, (), x)
                }
            },
        }
    }
}

/// One message less is one change of the queue.
proof fn lemma_queue_changed_again(
    before: Connection,
    stream: Stream,
    q: ReassemblyState,
    mid: Connection,
    after: Connection,
)
    requires
        message_at(before, stream) is Ok,
        readable(before.inner, stream.stream) || q == ReassemblyState::fresh(stream.stream),
        queue_changed(before, stream.stream, q, mid),
        takes_message(mid, stream, after),
    ensures
        message_at(mid, stream) == Ok::<Option<FragmentSet>, ReadError>(q.next_message()),
        queue_changed(before, stream.stream, q.after_read(), after),
{
    let id = stream.stream;
    if readable(before.inner, id) {
        let model = before.inner.streams@[id]@;
        lemma_changed_again(
            before.inner,
            id,
            StreamModel { reassembly: q, ..model },
            mid.inner,
            StreamModel { reassembly: q.after_read(), ..model },
            after.inner,
        );
    }
}

impl<'a> ReadExact<'a> {
    /// Gets on with the operation.
    pub fn poll(&mut self, conn: &mut Connection) -> (r: Poll<Result<(), ReadExactError>>)
        requires
            old(conn).inner.wf(),
        ensures
            final(conn).inner.wf(),
            *final(self).stream == *old(self).stream,
            *final(final(self).stream) == *final(old(self).stream),
            read_buf_capacity(final(self).buf) == read_buf_capacity(old(self).buf),
            reads_exact(
                *old(conn),
                *old(self).stream,
                read_buf_filled(old(self).buf),
                read_buf_capacity(old(self).buf),
                *final(conn),
                read_buf_filled(final(self).buf),
                r,
            ),
    {
        let ghost start = *conn;
        let ghost stream = *self.stream;
        let ghost id = stream.stream;
        let ghost capacity = read_buf_capacity(self.buf);
        let ghost first = read_buf_filled(self.buf);
        let ghost q0 = queue_at(start, id);
        let ghost mut q = q0;
        let mut remaining: usize = read_buf_remaining(&self.buf);
        proof {
            if readable(start.inner, id) {
                lemma_unchanged(start.inner, id);
            }
        }
        while remaining > 0
            invariant
                conn.inner.wf(),
                *self.stream == *old(self).stream,
                *final(self.stream) == *final(old(self).stream),
                stream == *self.stream,
                id == stream.stream,
                start == *old(conn),
                capacity == read_buf_capacity(self.buf) == read_buf_capacity(old(self).buf),
                first == read_buf_filled(old(self).buf),
                q0 == queue_at(start, id),
                readable(start.inner, id) || q == q0,
                remaining == read_buf_room(self.buf),
                message_at(start, stream) is Err ==> *conn == start && read_buf_filled(self.buf)
                    == first,
                message_at(start, stream) is Ok ==> queue_changed(start, id, q, *conn),
                read_buf_filled(self.buf).len() == first.len() ==> read_buf_filled(self.buf)
                    == first && *conn == start && q == q0,
                filling(q, read_buf_filled(self.buf), capacity) == filling(q0, first, capacity),
                first.len() <= read_buf_filled(self.buf).len(),
            decreases remaining,
        {
            let ghost before = *conn;
            let ghost filled = read_buf_filled(self.buf);
            let answer: Poll<Result<(), ReadError>> = self.stream.poll_read(conn, &mut self.buf);
            let new: usize = read_buf_remaining(&self.buf);
            proof {
                if message_at(start, stream) is Ok {
                    assert(message_at(before, stream) == Ok::<Option<FragmentSet>, ReadError>(
                        q.next_message(),
                    ));
                    if q.next_message() is Some {
                        lemma_queue_changed_again(start, stream, q, before, *conn);
                    } else {
                        assert(read_buf_filled(self.buf) =~= filled);
                        let mid = choose|mid: Connection| #[trigger]
                            takes_message(before, stream, mid) && waits(mid, id, *conn, (), answer);
                        lemma_queue_changed_again(start, stream, q, before, mid);
                        assert(q.after_read() == q);
                        assert(queue_changed(start, id, q, mid));
                        assert(ran_dry(start, id, q, *conn, (), answer));
                    }
                } else {
                    assert(read_buf_filled(self.buf) =~= filled);
                }
            }
            match answer {
                Poll::Ready(Ok(_)) => {},
                Poll::Ready(Err(e)) => {
                    assert(exact_answer(answer) == Poll::<Result<(), ReadExactError>>::Ready(
                        Err(ReadExactError::ReadError(e)),
                    ));
                    return Poll::Ready(Err(ReadExactError::ReadError(e)));
                },
                Poll::Pending => {
                    assert(exact_answer(answer) == Poll::<Result<(), ReadExactError>>::Pending);
                    return Poll::Pending;
                },
            }
            if new == remaining {
                proof {
                    assert(read_buf_filled(self.buf) =~= filled);
                    assert(exact_answer(answer) == Poll::<Result<(), ReadExactError>>::Ready(
                        Err(ReadExactError::FinishedEarly),
                    ));
                }
                return Poll::Ready(Err(ReadExactError::FinishedEarly));
            }
            proof {
                q = q.after_read();
            }
            remaining = new;
        }
        Poll::Ready(Ok(()))
    }
}

/// What has been gathered of the messages in a queue.
#[verifier::ext_equal]
pub struct Gathering {
    /// The messages.
    pub read: Seq<Seq<u8>>,
    /// How many bytes were read.
    pub size: int,
    /// Whether a message was met that made it too long.
    pub too_long: bool,
    /// What is left in the queue.
    pub left: ReassemblyState,
}

/// What comes of gathering message after message until there are no more, or together they are
/// longer than `limit`. The message that makes them too long is counted, but not kept.
pub open spec fn gathering(
    q: ReassemblyState,
    read: Seq<Seq<u8>>,
    size: int,
    limit: int,
) -> Gathering
    decreases message_count(q),
{
    if q.next_message() is None {
        Gathering { read, size, too_long: false, left: q }
    } else {
        let data = q.next_message()->0.unread_data();
        if size + data.len() > limit {
            Gathering { read, size: size + data.len(), too_long: true, left: q.after_read() }
        } else {
            gathering(q.after_read(), read.push(data), size + data.len(), limit)
        }
    }
}

/// Whether `r` is the answer of a read to the end that has gathered those messages to the answer `x`
/// of a single read that read nothing: what was gathered, once the stream was finished.
pub open spec fn answers_end(
    read: Seq<Seq<u8>>,
    x: Poll<Result<Option<Chunk>, ReadError>>,
    r: Poll<Result<Vec<u8>, ReadToEndError>>,
) -> bool {
    match x {
        Poll::Ready(Ok(_)) => r matches Poll::Ready(Ok(buffer)) && buffer@ == joined(read),
        Poll::Ready(Err(e)) => r == Poll::<Result<Vec<u8>, ReadToEndError>>::Ready(
            Err(ReadToEndError::Read(e)),
        ),
        Poll::Pending => r == Poll::<Result<Vec<u8>, ReadToEndError>>::Pending,
    }
}

/// Whether `after`, `op_after` and `r` are what reading a stream to its end makes of the connection
/// `before` and the operation `op`.
pub open spec fn reads_to_end(
    before: Connection,
    op: ReadToEnd,
    after: Connection,
    op_after: ReadToEnd,
    r: Poll<Result<Vec<u8>, ReadToEndError>>,
) -> bool {
    let id = op.stream.stream;
    &&& op_after.stream == op.stream
    &&& op_after.size_limit == op.size_limit
    &&& match message_at(before, op.stream) {
        Err(e) => {
            &&& r == Poll::<Result<Vec<u8>, ReadToEndError>>::Ready(
                Err(ReadToEndError::Read(e)),
            )
            &&& after == before
            &&& op_after == op
        },
        Ok(_) => {
            let g = gathering(
                queue_at(before, id),
                chunk_contents(op.read@),
                op.size as int,
                op.size_limit as int,
            );
            &&& op_after.size == g.size
            &&& chunk_contents(op_after.read@) == (if r matches Poll::Ready(Ok(_)) && g.size != 0 {
                Seq::<Seq<u8>>::empty()
            } else {
                g.read
            })
            &&& if g.too_long {
                &&& r == Poll::<Result<Vec<u8>, ReadToEndError>>::Ready(
                    Err(ReadToEndError::TooLong),
                )
                &&& queue_changed(before, id, g.left, after)
            } else {
                exists|x: Poll<Result<Option<Chunk>, ReadError>>| #[trigger]
                    answers_end(g.read, x, r) && ran_dry(before, id, g.left, after, None, x)
            }
        },
    }
}

impl ReadToEnd {
    /// Takes in what a read yielded: a chunk, or the end of the stream. Yields the result once there
    /// is one.
    pub fn gather(&mut self, next: Option<Chunk>) -> (r: Option<Result<Vec<u8>, ReadToEndError>>)
        requires
            old(self).wf(),
            next matches Some(chunk) ==> old(self).size + bytes_content(chunk.bytes).len()
                <= usize::MAX,
        ensures
            final(self).stream == old(self).stream,
            final(self).size_limit == old(self).size_limit,
            match next {
                Some(chunk) => {
                    let data = bytes_content(chunk.bytes);
                    &&& final(self).size == old(self).size + data.len()
                    &&& if final(self).size > final(self).size_limit {
                        &&& r == Some(
                            Err::<Vec<u8>, ReadToEndError>(ReadToEndError::TooLong),
                        )
                        &&& final(self).read@ == old(self).read@
                    } else {
                        &&& r is None
                        &&& final(self).wf()
                        &&& chunk_contents(final(self).read@) == chunk_contents(
                            old(self).read@,
                        ).push(data)
                    }
                },
                None => {
                    &&& r matches Some(Ok(buffer)) && buffer@ == joined(
                        chunk_contents(old(self).read@),
                    )
                    &&& final(self).size == old(self).size
                    &&& final(self).read@ == (if old(self).size == 0 {
                        old(self).read@
                    } else {
                        Seq::<Chunk>::empty()
                    })
                },
            },
    {
        match next {
            Some(chunk) => {
                let ghost data = bytes_content(chunk.bytes);
                let ghost before = chunk_contents(self.read@);
                let ghost size = |m: Seq<u8>| m.len();
                self.size += chunk.bytes.len();
                if self.size > self.size_limit {
                    return Some(Err(ReadToEndError::TooLong));
                }
                self.read.push(chunk);
                proof {
                    assert(chunk_contents(self.read@) =~= before.push(data));
                    assert(before.push(data) =~= before + seq![data]);
                    lemma_total_concat(before, seq![data], size);
                    lemma_total_one(data, size);
                }
                None
            },
            None => {
                if self.size == 0 {
                    // Never received anything
                    proof {
                        lemma_joined_size(chunk_contents(self.read@));
                    }
                    return Some(Ok(Vec::new()));
                }
                let mut buffer: Vec<u8> = Vec::with_capacity(self.size);
                let mut read: Vec<Chunk> = Vec::new();
                std::mem::swap(&mut read, &mut self.read);
                let ghost all = chunk_contents(read@);
                let mut i: usize = 0;
                assert(all.take(0) =~= Seq::<Seq<u8>>::empty());
                while i < read.len()
                    invariant
                        i <= read@.len(),
                        all == chunk_contents(read@),
                        buffer@ == joined(all.take(i as int)),
                    decreases read@.len() - i,
                {
                    assert(all.take(i + 1).drop_last() =~= all.take(i as int));
                    assert(all.take(i + 1).last() == bytes_content(read@[i as int].bytes));
                    buffer.extend_from_slice(bytes_as_slice(&read[i].bytes));
                    assert(buffer@ =~= joined(all.take(i + 1)));
                    i += 1;
                }
                assert(all.take(all.len() as int) =~= all);
                Some(Ok(buffer))
            },
        }
    }

    /// Gets on with the operation.
    pub fn poll(&mut self, conn: &mut Connection) -> (r: Poll<Result<Vec<u8>, ReadToEndError>>)
        requires
            old(conn).inner.wf(),
            old(self).wf(),
            readable(old(conn).inner, old(self).stream.stream) ==> old(self).size + old(
                conn,
            ).inner.streams@[old(self).stream.stream]@.reassembly.held_bytes() <= usize::MAX,
        ensures
            final(conn).inner.wf(),
            reads_to_end(*old(conn), *old(self), *final(conn), *final(self), r),
    {
        let ghost start = *conn;
        let ghost op = *self;
        let ghost id = self.stream.stream;
        let ghost limit = self.size_limit as int;
        let ghost q0 = queue_at(start, id);
        let ghost mut q = q0;
        let ghost g = gathering(q0, chunk_contents(op.read@), op.size as int, limit);
        proof {
            if readable(start.inner, id) {
                lemma_unchanged(start.inner, id);
            }
        }
        loop
            invariant
                conn.inner.wf(),
                self.wf(),
                start == *old(conn),
                op == *old(self),
                id == self.stream.stream == op.stream.stream,
                self.stream == op.stream,
                limit == self.size_limit == op.size_limit,
                q0 == queue_at(start, id),
                readable(start.inner, id) || q == q0,
                g == gathering(q0, chunk_contents(op.read@), op.size as int, limit),
                message_at(start, op.stream) is Err ==> *conn == start && *self == op,
                message_at(start, op.stream) is Ok ==> {
                    &&& queue_changed(start, id, q, *conn)
                    &&& self.size + q.held_bytes() <= usize::MAX
                    &&& gathering(q, chunk_contents(self.read@), self.size as int, limit) == g
                },
            decreases message_count(q),
        {
            let ghost before = *conn;
            proof {
                if message_at(start, op.stream) is Ok && q.next_message() is Some {
                    before.inner.streams@[id].reassembly_queue.lemma_next_message();
                }
            }
            let answer: Poll<Result<Option<Chunk>, ReadError>> = self.stream.poll_read_chunk(
                conn,
                usize::MAX,
            );
            proof {
                if message_at(start, op.stream) is Ok {
                    assert(message_at(before, op.stream) == Ok::<Option<FragmentSet>, ReadError>(
                        q.next_message(),
                    ));
                    if q.next_message() is Some {
                        lemma_queue_changed_again(start, op.stream, q, before, *conn);
                        let data = q.next_message()->0.unread_data();
                        assert(fitting(data, usize::MAX as int) == data);
                    } else {
                        let mid = choose|mid: Connection| #[trigger]
                            takes_message(before, op.stream, mid) && waits(mid, id, *conn, None, answer);
                        lemma_queue_changed_again(start, op.stream, q, before, mid);
                        assert(q.after_read() == q);
                        assert(ran_dry(start, id, q, *conn, None, answer));
                        assert(g.read == chunk_contents(self.read@) && g.left == q && !g.too_long);
                    }
                }
            }
            let next: Option<Chunk> = match answer {
                Poll::Ready(Ok(next)) => next,
                Poll::Ready(Err(e)) => {
                    let r = Poll::Ready(Err(ReadToEndError::Read(e)));
                    assert(message_at(start, op.stream) is Ok ==> answers_end(g.read, answer, r));
                    return r;
                },
                Poll::Pending => {
                    let r = Poll::Pending;
                    assert(message_at(start, op.stream) is Ok ==> answers_end(g.read, answer, r));
                    return r;
                },
            };
            if let Some(done) = self.gather(next) {
                let r = Poll::Ready(done);
                assert(answer matches Poll::Ready(Ok(None)) ==> answers_end(g.read, answer, r));
                assert(chunk_contents(Seq::<Chunk>::empty()) =~= Seq::<Seq<u8>>::empty());
                return r;
            }
            proof {
                q = q.after_read();
            }
        }
    }
}

/// Some messages, joined.
pub open spec fn joined(messages: Seq<Seq<u8>>) -> Seq<u8>
    decreases messages.len(),
{
    if messages.len() == 0 {
        Seq::empty()
    } else {
        joined(messages.drop_last()) + messages.last()
    }
}

proof fn lemma_joined_size(messages: Seq<Seq<u8>>)
    ensures
        joined(messages).len() == messages_len(messages),
    decreases messages.len(),
{
    if messages.len() > 0 {
        lemma_joined_size(messages.drop_last());
    }
}

/// Once a stream was stopped, attempts to operate on it yield that it is unknown, and change nothing.
pub proof fn law_stopped_stream_is_unknown(
    before: Connection,
    stream: Stream,
    raw: Seq<u8>,
    written: Connection,
    w: Poll<Result<usize, WriteError>>,
    read: Connection,
    r: Poll<Result<(), ReadError>>,
)
    requires
        stream.all_data_read,
        writes(before, stream, raw, written, w),
        reads(before, stream, read, (), r),
    ensures
        w == Poll::<Result<usize, WriteError>>::Ready(Err(WriteError::UnknownStream)),
        written == before,
        r == Poll::<Result<(), ReadError>>::Ready(Err(ReadError::UnknownStream)),
        read == before,
{
}

/// What a stream holds when the association is lost can still be read: the loss is told only where
/// there is nothing to read.
pub proof fn law_messages_count_before_lost(
    before: Connection,
    stream: Stream,
    after: Connection,
    r: Poll<Result<(), ReadError>>,
)
    requires
        reads(before, stream, after, (), r),
    ensures
        message_at(before, stream) matches Ok(Some(_)) ==> (r matches Poll::Ready(Ok(_))),
        message_at(before, stream) matches Ok(None) ==> (before.error is Some ==> r == Poll::<
            Result<(), ReadError>,
        >::Ready(Err(ReadError::AssociationLost(before.error->0)))),
{
}

/// A stream that was finished is read to its end: where nothing is left to read on it and the
/// association is there, a read says so with `end`, changes nothing but the queue that it looked
/// through, and nobody waits.
pub proof fn law_finished_stream_ends<U>(
    before: Connection,
    stream: Stream,
    mid: Connection,
    after: Connection,
    end: U,
    r: Poll<Result<U, ReadError>>,
)
    requires
        ends(before, stream.stream, mid),
        before.error is None,
        message_at(mid, stream) matches Ok(None),
        reads(mid, stream, after, end, r),
    ensures
        r == Poll::<Result<U, ReadError>>::Ready(Ok(end)),
        takes_message(mid, stream, after),
        !after.blocked_readers@.contains(stream.stream),
{
}

/// Reading a stream that was finished to its end yields all that is left to read on it, joined,
/// unless it is too long.
pub proof fn law_finished_stream_is_read_whole(
    before: Connection,
    op: ReadToEnd,
    after: Connection,
    op_after: ReadToEnd,
    r: Poll<Result<Vec<u8>, ReadToEndError>>,
)
    requires
        before.error is None,
        before.finished@.contains(op.stream.stream),
        !op.stream.all_data_read,
        reads_to_end(before, op, after, op_after, r),
    ensures
        ({
            let g = gathering(
                queue_at(before, op.stream.stream),
                chunk_contents(op.read@),
                op.size as int,
                op.size_limit as int,
            );
            if g.too_long {
                r == Poll::<Result<Vec<u8>, ReadToEndError>>::Ready(Err(ReadToEndError::TooLong))
            } else {
                r matches Poll::Ready(Ok(buffer)) && buffer@ == joined(g.read)
            }
        }),
{
}

} // verus!
