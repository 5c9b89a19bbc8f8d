//! Operations that write to a stream, finish it, or wait for it to be stopped.

use bytes::Bytes;
use vstd::prelude::*;
use vstd::slice::slice_subrange;

use crate::association::Association;
use crate::buf::bytes_content;
use crate::chunk::{chunk_views, joined_data, DataChunk};
use crate::connection::error::{ErrorCauseCode, StoppedError, WriteError};
use crate::connection::stream::{
    awaits_stop, may_write, may_write_each, polls_finish, write_answer, write_obstacle, writes, writes_some, Stream,
};
use crate::connection::{Connection, Poll};
use crate::error::Error;
use crate::stream::delivery::lemma_fragments_are_message;
use crate::stream::handle::{
    contents, emptied, gets_to, lemma_room_for_rest, lemma_wrote_all_keeps, written_by_default,
    wrote_all, wrote_some,
};
use crate::queue::total::lemma_total_one;

verus! {

/// Operation produced by [`Stream::finish`]
#[must_use]
pub struct Finish<'a> {
    pub stream: &'a mut Stream,
}

/// Operation produced by [`Stream::stopped`]
#[must_use]
pub struct Stopped<'a> {
    pub stream: &'a mut Stream,
}

/// Operation produced by [`Stream::write`]
#[must_use]
pub struct Write<'a> {
    pub stream: &'a mut Stream,
    pub buf: &'a [u8],
}

/// Operation produced by [`Stream::write_all`]
#[must_use]
pub struct WriteAll<'a> {
    pub stream: &'a mut Stream,
    pub buf: &'a [u8],
}

/// Operation produced by [`Stream::write_chunks`]
#[must_use]
pub struct WriteChunks<'a> {
    pub stream: &'a mut Stream,
    pub bufs: &'a mut [Bytes],
}

/// Operation produced by [`Stream::write_chunk`]
#[must_use]
pub struct WriteChunk<'a> {
    pub stream: &'a mut Stream,
    pub buf: Vec<Bytes>,
}

/// Operation produced by [`Stream::write_all_chunks`]
#[must_use]
pub struct WriteAllChunks<'a> {
    pub stream: &'a mut Stream,
    pub bufs: &'a mut [Bytes],
    pub offset: usize,
}

impl Stream {
    /// Write bytes to the stream
    ///
    /// Yields the number of bytes written on success.
    pub fn write<'a>(&'a mut self, buf: &'a [u8]) -> (r: Write<'a>)
        ensures
            *r.stream == *old(self),
            *final(self) == *final(r.stream),
            r.buf == buf,
    {
        Write { stream: self, buf }
    }

    /// Convenience method to write an entire buffer to the stream
    pub fn write_all<'a>(&'a mut self, buf: &'a [u8]) -> (r: WriteAll<'a>)
        ensures
            *r.stream == *old(self),
            *final(self) == *final(r.stream),
            r.buf == buf,
    {
        WriteAll { stream: self, buf }
    }

    /// Write chunks to the stream
    ///
    /// Yields the number of chunks written on success. It may be less than `bufs.len()`,
    /// indicating that only a prefix of `bufs` was written
    pub fn write_chunks<'a>(&'a mut self, bufs: &'a mut [Bytes]) -> (r: WriteChunks<'a>)
        ensures
            *r.stream == *old(self),
            *final(self) == *final(r.stream),
            r.bufs@ == old(bufs)@,
            final(bufs)@ == final(r.bufs)@,
    {
        WriteChunks { stream: self, bufs }
    }

    /// Convenience method to write a single chunk in its entirety to the stream
    pub fn write_chunk<'a>(&'a mut self, buf: Bytes) -> (r: WriteChunk<'a>)
        ensures
            *r.stream == *old(self),
            *final(self) == *final(r.stream),
            r.buf@ == seq![buf],
    {
        let mut bufs: Vec<Bytes> = Vec::new();
        bufs.push(buf);
        WriteChunk { stream: self, buf: bufs }
    }

    /// Convenience method to write an entire list of chunks to the stream
    pub fn write_all_chunks<'a>(&'a mut self, bufs: &'a mut [Bytes]) -> (r: WriteAllChunks<'a>)
        ensures
            *r.stream == *old(self),
            *final(self) == *final(r.stream),
            r.bufs@ == old(bufs)@,
            final(bufs)@ == final(r.bufs)@,
            r.offset == 0,
    {
        WriteAllChunks { stream: self, bufs, offset: 0 }
    }

    /// Shut down the send stream gracefully.
    ///
    /// No new data may be written after calling this method. Completes when the peer has
    /// acknowledged all sent data, retransmitting data as needed.
    pub fn finish<'a>(&'a mut self) -> (r: Finish<'a>)
        ensures
            *r.stream == *old(self),
            *final(self) == *final(r.stream),
    {
        Finish { stream: self }
    }

    /// Completes if/when the peer stops the stream, yielding the error code
    pub fn stopped<'a>(&'a mut self) -> (r: Stopped<'a>)
        ensures
            *r.stream == *old(self),
            *final(self) == *final(r.stream),
    {
        Stopped { stream: self }
    }
}

impl<'a> Finish<'a> {
    /// Gets on with the operation: `outcome` is what has been heard of the shutdown so far.
    pub fn poll(&mut self, conn: &mut Connection, outcome: Poll<Option<WriteError>>) -> (r: Poll<
        Result<(), WriteError>,
    >)
        requires
            old(conn).inner.wf(),
        ensures
            final(conn).inner.wf(),
            *final(final(self).stream) == *final(old(self).stream),
            polls_finish(
                *old(conn),
                *old(self).stream,
                outcome,
                *final(conn),
                *final(self).stream,
                r,
            ),
    {
        self.stream.poll_finish(conn, outcome)
    }
}

impl<'a> Stopped<'a> {
    /// Gets on with the operation.
    pub fn poll(&mut self, conn: &mut Connection) -> (r: Poll<
        Result<ErrorCauseCode, StoppedError>,
    >)
        ensures
            *final(final(self).stream) == *final(old(self).stream),
            *final(self).stream == *old(self).stream,
            awaits_stop(*old(conn), *old(self).stream, *final(conn), r),
    {
        self.stream.poll_stopped(conn)
    }
}

impl<'a> Write<'a> {
    /// Gets on with the operation.
    pub fn poll(&mut self, conn: &mut Connection) -> (r: Poll<Result<usize, WriteError>>)
        requires
            old(conn).inner.wf(),
            may_write(*old(conn), *old(self).stream, old(self).buf@.len()),
        ensures
            final(conn).inner.wf(),
            *final(self) == *old(self),
            writes(*old(conn), *old(self).stream, old(self).buf@, *final(conn), r),
    {
        self.stream.execute_poll(conn, self.buf)
    }
}

/// Whether `after`, `left` and `r` are what writing all of a buffer makes of the connection `before`
/// and of the buffer: nothing is written where it is empty, and else it is written as one message.
pub open spec fn writes_whole(
    before: Connection,
    stream: Stream,
    buf: Seq<u8>,
    after: Connection,
    left: Seq<u8>,
    r: Poll<Result<(), WriteError>>,
) -> bool {
    if buf.len() == 0 {
        &&& r == Poll::<Result<(), WriteError>>::Ready(Ok(()))
        &&& after == before
        &&& left == buf
    } else {
        match r {
            Poll::Ready(Ok(_)) => {
                &&& writes(before, stream, buf, after, Poll::Ready(Ok(buf.len() as usize)))
                &&& left.len() == 0
            },
            Poll::Ready(Err(e)) => {
                &&& writes(before, stream, buf, after, Poll::Ready(Err(e)))
                &&& left == buf
            },
            Poll::Pending => false,
        }
    }
}

/// Writing all of a buffer succeeds with the whole of it queued, in order, and nothing left; where it
/// fails, nothing of it is queued and the error is that of the write that failed. With an empty
/// buffer it succeeds without a write, even where the association is lost.
pub proof fn law_write_all_queues_all_or_nothing(
    before: Connection,
    stream: Stream,
    buf: Seq<u8>,
    after: Connection,
    left: Seq<u8>,
    r: Poll<Result<(), WriteError>>,
)
    requires
        may_write(before, stream, buf.len()),
        writes_whole(before, stream, buf, after, left, r),
    ensures
        buf.len() == 0 ==> (r matches Poll::Ready(Ok(_))) && after == before,
        r matches Poll::Ready(Ok(_)) ==> {
            &&& left.len() == 0
            &&& joined_data(
                chunk_views(after.inner.pending_queue@).skip(
                    before.inner.pending_queue@.len() as int,
                ),
            ) == buf
        },
        r matches Poll::Ready(Err(e)) ==> {
            &&& left == buf
            &&& writes(before, stream, buf, after, Poll::Ready(Err(e)))
            &&& after.inner.pending_queue == before.inner.pending_queue
        },
{
    let had = chunk_views(before.inner.pending_queue@);
    let now = chunk_views(after.inner.pending_queue@);
    if buf.len() == 0 {
        assert(now.skip(had.len() as int) =~= Seq::<DataChunk>::empty());
        assert(joined_data(Seq::<DataChunk>::empty()) =~= buf);
    } else if write_obstacle(before, stream) is None {
        let answer = match r {
            Poll::Ready(Ok(_)) => Poll::Ready(Ok(buf.len() as usize)),
            Poll::Ready(Err(e)) => Poll::Ready(Err(e)),
            Poll::Pending => Poll::Pending,
        };
        let w = choose|w: Result<usize, Error>|
            #![trigger write_answer(w)]
            write_answer(w) == answer && written_by_default(
                before.inner,
                stream.stream,
                buf,
                after.inner,
                w,
            );
        if w is Ok {
            let sender = before.inner.streams@[stream.stream]@;
            let queued = sender.fragments(buf, sender.default_payload_type);
            lemma_fragments_are_message(sender, buf, sender.default_payload_type);
            assert(now.skip(had.len() as int) =~= queued);
        }
    }
}

impl<'a> WriteAll<'a> {
    /// Gets on with the operation.
    ///
    /// A write takes a message or leaves it: once one has been taken, nothing is left of the buffer.
    pub fn poll(&mut self, conn: &mut Connection) -> (r: Poll<Result<(), WriteError>>)
        requires
            old(conn).inner.wf(),
            may_write(*old(conn), *old(self).stream, old(self).buf@.len()),
        ensures
            final(conn).inner.wf(),
            *final(self).stream == *old(self).stream,
            *final(final(self).stream) == *final(old(self).stream),
            r is Ready,
            writes_whole(
                *old(conn),
                *old(self).stream,
                old(self).buf@,
                *final(conn),
                final(self).buf@,
                r,
            ),
    {
        let ghost start = *conn;
        let ghost whole = self.buf;
        while self.buf.len() > 0
            invariant
                conn.inner.wf(),
                *self.stream == *old(self).stream,
                *final(self.stream) == *final(old(self).stream),
                start == *old(conn),
                whole == old(self).buf,
                may_write(start, *self.stream, whole@.len()),
                self.buf@.len() > 0 ==> *conn == start && self.buf == whole,
                self.buf@.len() == 0 ==> if whole@.len() == 0 {
                    *conn == start && self.buf == whole
                } else {
                    writes(
                        start,
                        *self.stream,
                        whole@,
                        *conn,
                        Poll::Ready(Ok(whole@.len() as usize)),
                    )
                },
            decreases self.buf@.len(),
        {
            let buf: &[u8] = self.buf;
            match self.stream.execute_poll(conn, buf) {
                Poll::Ready(Ok(n)) => {
                    assert(n == buf@.len()) by {
                        assert(write_obstacle(start, *self.stream) is None);
                        let w = choose|w: Result<usize, Error>|
                            #![trigger write_answer(w)]
                            write_answer(w) == Poll::<Result<usize, WriteError>>::Ready(Ok(n))
                                && written_by_default(
                                start.inner,
                                self.stream.stream,
                                buf@,
                                conn.inner,
                                w,
                            );
                        assert(w == Ok::<usize, Error>(n));
                    }
                    self.buf = slice_subrange(buf, n, buf.len());
                },
                Poll::Ready(Err(e)) => {
                    return Poll::Ready(Err(e));
                },
                Poll::Pending => {
                    return Poll::Pending;
                },
            }
        }
        Poll::Ready(Ok(()))
    }
}

impl<'a> WriteChunks<'a> {
    /// Gets on with the operation.
    pub fn poll(&mut self, conn: &mut Connection) -> (r: Poll<Result<usize, WriteError>>)
        requires
            old(conn).inner.wf(),
            may_write_each(*old(conn), *old(self).stream, contents(old(self).bufs@)),
        ensures
            final(conn).inner.wf(),
            *final(self).stream == *old(self).stream,
            *final(final(self).stream) == *final(old(self).stream),
            final(final(self).bufs)@ == final(old(self).bufs)@,
            writes_some(
                *old(conn),
                *old(self).stream,
                contents(old(self).bufs@),
                *final(conn),
                r,
            ),
            contents(final(self).bufs@) == emptied(
                contents(old(self).bufs@),
                0,
                match r {
                    Poll::Ready(Ok(k)) => k as int,
                    _ => 0,
                },
            ),
    {
        assert(contents(self.bufs@).skip(0) =~= contents(self.bufs@));
        self.stream.execute_poll_chunks(conn, self.bufs, 0)
    }
}

/// Whether `after` and `r` are what writing messages, the first `k` of them with success, makes of
/// the connection `before`: the answer is success where that is all of them, else what stopped the
/// next one.
pub open spec fn writes_all(
    before: Connection,
    stream: Stream,
    messages: Seq<Seq<u8>>,
    k: int,
    after: Connection,
    r: Poll<Result<(), WriteError>>,
) -> bool {
    if messages.len() == 0 {
        r == Poll::<Result<(), WriteError>>::Ready(Ok(())) && after == before && k == 0
    } else {
        match write_obstacle(before, stream) {
            Some(e) => {
                &&& r == Poll::<Result<(), WriteError>>::Ready(Err(e))
                &&& after == before
                &&& k == 0
            },
            None => {
                &&& after == (Connection {
                    inner: after.inner,
                    awake: k > 0 || before.awake,
                    ..before
                })
                &&& match r {
                    Poll::Ready(Ok(_)) => k == messages.len() && wrote_all(
                        before.inner,
                        stream.stream,
                        messages,
                        k as nat,
                        after.inner,
                    ),
                    Poll::Ready(Err(WriteError::Error(e))) => 0 <= k < messages.len() && exists|
                        mid: Association,
                    |
                        wrote_all(before.inner, stream.stream, messages, k as nat, mid)
                            && #[trigger] written_by_default(
                            mid,
                            stream.stream,
                            messages[k],
                            after.inner,
                            Err(e),
                        ),
                    _ => false,
                }
            },
        }
    }
}

impl<'a> WriteChunk<'a> {
    /// Gets on with the operation.
    pub fn poll(&mut self, conn: &mut Connection) -> (r: Poll<Result<(), WriteError>>)
        requires
            old(conn).inner.wf(),
            old(self).buf@.len() == 1,
            may_write(*old(conn), *old(self).stream, bytes_content(old(self).buf@[0]).len()),
        ensures
            final(conn).inner.wf(),
            *final(self).stream == *old(self).stream,
            *final(final(self).stream) == *final(old(self).stream),
            final(self).buf@.len() == 1,
            bytes_content(old(self).buf@[0]).len() == 0 ==> {
                &&& r == Poll::<Result<(), WriteError>>::Ready(Ok(()))
                &&& *final(conn) == *old(conn)
                &&& final(self).buf@ == old(self).buf@
            },
            bytes_content(old(self).buf@[0]).len() > 0 ==> {
                let k: int = if r == Poll::<Result<(), WriteError>>::Ready(Ok(())) {
                    1
                } else {
                    0
                };
                &&& writes_all(
                    *old(conn),
                    *old(self).stream,
                    contents(old(self).buf@),
                    k,
                    *final(conn),
                    r,
                )
                &&& contents(final(self).buf@) == emptied(contents(old(self).buf@), 0, k)
            },
    {
        let ghost raw = bytes_content(self.buf@[0]);
        let ghost messages = contents(self.buf@);
        let ghost size = |m: Seq<u8>| m.len();
        let ghost start = *conn;
        let ghost id = self.stream.stream;
        if self.buf[0].len() == 0 {
            return Poll::Ready(Ok(()));
        }
        proof {
            assert(messages =~= seq![raw]);
            assert(messages.skip(0) =~= messages);
            lemma_total_one(raw, size);
            assert(messages.take(1) =~= messages);
            assert(forall|k: int| #[trigger] gets_to(start.inner, id, messages, k) ==> messages[k]
                == raw);
            assert(emptied(messages, 0, 0) =~= messages);
        }
        let answer: Poll<Result<usize, WriteError>> = self.stream.execute_poll_chunks(
            conn,
            self.buf.as_mut_slice(),
            0,
        );
        assert(self.buf@.len() == contents(self.buf@).len());
        match answer {
            Poll::Ready(Ok(n)) => {
                assert(n == 1 && wrote_all(
                    start.inner,
                    self.stream.stream,
                    messages,
                    1,
                    conn.inner,
                )) by {
                    let w = choose|w: Result<usize, Error>|
                        #![trigger write_answer(w)]
                        write_answer(w) == Poll::<Result<usize, WriteError>>::Ready(Ok(n))
                            && wrote_some(
                            start.inner,
                            self.stream.stream,
                            messages,
                            conn.inner,
                            w,
                        );
                    assert(w == Ok::<usize, Error>(n));
                }
                Poll::Ready(Ok(()))
            },
            Poll::Ready(Err(e)) => {
                proof {
                    if write_obstacle(start, *self.stream) is None {
                        let w = choose|w: Result<usize, Error>|
                            #![trigger write_answer(w)]
                            write_answer(w) == Poll::<Result<usize, WriteError>>::Ready(Err(e))
                                && wrote_some(
                                start.inner,
                                self.stream.stream,
                                messages,
                                conn.inner,
                                w,
                            );
                        assert(wrote_all(
                            start.inner,
                            self.stream.stream,
                            messages,
                            0,
                            start.inner,
                        ));
                    }
                }
                Poll::Ready(Err(e))
            },
            Poll::Pending => Poll::Pending,
        }
    }
}

impl<'a> WriteAllChunks<'a> {
    /// Gets on with the operation.
    pub fn poll(&mut self, conn: &mut Connection) -> (r: Poll<Result<(), WriteError>>)
        requires
            old(conn).inner.wf(),
            old(self).offset <= old(self).bufs@.len(),
            may_write_each(
                *old(conn),
                *old(self).stream,
                contents(old(self).bufs@).skip(old(self).offset as int),
            ),
        ensures
            final(conn).inner.wf(),
            *final(self).stream == *old(self).stream,
            *final(final(self).stream) == *final(old(self).stream),
            final(final(self).bufs)@ == final(old(self).bufs)@,
            old(self).offset <= final(self).offset <= old(self).bufs@.len(),
            writes_all(
                *old(conn),
                *old(self).stream,
                contents(old(self).bufs@).skip(old(self).offset as int),
                final(self).offset - old(self).offset,
                *final(conn),
                r,
            ),
            contents(final(self).bufs@) == emptied(
                contents(old(self).bufs@),
                old(self).offset as int,
                final(self).offset - old(self).offset,
            ),
    {
        let ghost id = self.stream.stream;
        let ghost all = contents(self.bufs@);
        let ghost from = self.offset as int;
        let ghost messages = all.skip(from);
        let ghost start = *conn;
        assert(emptied(all, from, 0) =~= all);
        assert(messages.skip(0) =~= messages);
        while self.offset < self.bufs.len()
            invariant
                conn.inner.wf(),
                *self.stream == *old(self).stream,
                *final(self.stream) == *final(old(self).stream),
                final(self.bufs)@ == final(old(self).bufs)@,
                id == self.stream.stream,
                from == old(self).offset,
                start == *old(conn),
                all == contents(old(self).bufs@),
                messages == all.skip(from),
                may_write_each(start, *self.stream, messages),
                from <= self.offset <= all.len() == self.bufs@.len(),
                contents(self.bufs@) == emptied(all, from, self.offset - from),
                self.offset == from ==> *conn == start,
                self.offset > from ==> {
                    &&& write_obstacle(start, *self.stream) is None
                    &&& *conn == (Connection { inner: conn.inner, awake: true, ..start })
                    &&& wrote_all(
                        start.inner,
                        id,
                        messages,
                        (self.offset - from) as nat,
                        conn.inner,
                    )
                    &&& self.offset < all.len() ==> messages[self.offset - from].len()
                        > conn.inner.max_message_size
                },
            decreases self.bufs@.len() - self.offset,
        {
            let ghost k = self.offset - from;
            let ghost then = *conn;
            let ghost left = contents(self.bufs@).skip(self.offset as int);
            proof {
                assert(left =~= messages.skip(k));
                if write_obstacle(start, *self.stream) is None {
                    lemma_room_for_rest(start.inner, id, messages, k as nat, then.inner);
                    lemma_wrote_all_keeps(start.inner, id, messages, k as nat, then.inner);
                }
            }
            match self.stream.execute_poll_chunks(conn, self.bufs, self.offset) {
                Poll::Ready(Ok(written)) => {
                    proof {
                        let w = choose|w: Result<usize, Error>|
                            #![trigger write_answer(w)]
                            write_answer(w) == Poll::<Result<usize, WriteError>>::Ready(
                                Ok(written),
                            ) && wrote_some(then.inner, id, left, conn.inner, w);
                        assert(w == Ok::<usize, Error>(written));
                        lemma_some_written(then.inner, id, left, conn.inner, written);
                        assert(k == 0);
                        assert(left =~= messages);
                        assert(contents(self.bufs@) =~= emptied(all, from, written as int));
                    }
                    self.offset += written;
                },
                Poll::Ready(Err(e)) => {
                    proof {
                        assert(emptied(all, from, k) =~= contents(self.bufs@));
                        if write_obstacle(then, *self.stream) is None {
                            let w = choose|w: Result<usize, Error>|
                                #![trigger write_answer(w)]
                                write_answer(w) == Poll::<Result<usize, WriteError>>::Ready(Err(e))
                                    && wrote_some(then.inner, id, left, conn.inner, w);
                            assert(w is Err);
                            assert(left[0] == messages[k]);
                            assert(wrote_all(start.inner, id, messages, k as nat, then.inner));
                            assert(written_by_default(
                                then.inner,
                                id,
                                messages[k],
                                conn.inner,
                                Err(w->Err_0),
                            ));
                        }
                    }
                    return Poll::Ready(Err(e));
                },
                Poll::Pending => {
                    return Poll::Pending;
                },
            }
        }
        Poll::Ready(Ok(()))
    }
}

/// Where messages were written, the first was not too large; and where not all of them were, the
/// next one was, and left everything as it was.
proof fn lemma_some_written(
    before: Association,
    id: u16,
    messages: Seq<Seq<u8>>,
    after: Association,
    k: usize,
)
    requires
        messages.len() > 0,
        before.streams@.contains_key(id),
        wrote_some(before, id, messages, after, Ok(k)),
    ensures
        0 < k <= messages.len(),
        messages[0].len() <= before.max_message_size,
        wrote_all(before, id, messages, k as nat, after),
        k < messages.len() ==> messages[k as int].len() > after.max_message_size,
{
    if k == messages.len() {
        lemma_wrote_all_keeps(before, id, messages, k as nat, after);
    } else {
        let (mid, e) = choose|mid: Association, e: Error|
            wrote_all(before, id, messages, k as nat, mid) && #[trigger] written_by_default(
                mid,
                id,
                messages[k as int],
                after,
                Err(e),
            );
        lemma_wrote_all_keeps(before, id, messages, k as nat, mid);
    }
}

} // verus!
