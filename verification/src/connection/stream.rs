//! Streams of a connection.

use bytes::Bytes;
use vstd::prelude::*;

use crate::association::abandon::gave_up_stream;
use crate::connection::error::{ErrorCauseCode, StoppedError, UnknownStream, WriteError};
use crate::connection::{hears, Connection, Poll};
use crate::error::Error;
use crate::stream::handle::{
    changed_stream, closed, contents, emptied, has_room, has_room_for_each, written_by_default,
    wrote_some,
};
use crate::stream::state::{StreamEvent, StreamModel};

verus! {

/// A stream that can be used to send/receive data
#[derive(Debug)]
pub struct Stream {
    pub stream: u16,
    /// Whether the stream is being finished.
    pub finishing: bool,
    /// Whether the stream was stopped: there is nothing more to read.
    pub all_data_read: bool,
}

/// Whether `after` and `r` are what closing a stream makes of the connection `before`.
pub open spec fn closes(
    before: Connection,
    id: u16,
    after: Connection,
    r: Result<(), Error>,
) -> bool {
    if !before.inner.streams@.contains_key(id) {
        r == Err::<(), Error>(Error::ErrStreamNotExisted) && after == before
    } else {
        &&& closed(before.inner, id, after.inner, r)
        &&& after == (Connection { inner: after.inner, awake: r is Ok || before.awake, ..before })
    }
}

/// Whether `after` is the connection `before` once what a stream holds that was not read was
/// discarded.
pub open spec fn discards(before: Connection, id: u16, after: Connection) -> bool {
    let model = before.inner.streams@[id]@;
    &&& after == (Connection { inner: after.inner, ..before })
    &&& changed_stream(
        before.inner,
        id,
        StreamModel { reassembly: model.reassembly.discarded(), ..model },
        after.inner,
    )
}

/// The answer to a write that the protocol answered.
pub open spec fn write_answer(r: Result<usize, Error>) -> Poll<Result<usize, WriteError>> {
    match r {
        Ok(n) => Poll::Ready(Ok(n)),
        Err(e) => Poll::Ready(Err(WriteError::Error(e))),
    }
}

/// Why a write on a stream is turned away before the association sees it, if it is: the stream was
/// stopped from this side, the association is lost, the peer stopped the stream, or the association
/// has no such stream.
pub open spec fn write_obstacle(conn: Connection, stream: Stream) -> Option<WriteError> {
    if stream.all_data_read {
        Some(WriteError::UnknownStream)
    } else {
        match conn.error {
            Some(x) => Some(WriteError::AssociationLost(x)),
            None => if conn.stop_codes@.contains_key(stream.stream) {
                Some(WriteError::Stopped(conn.stop_codes@[stream.stream]))
            } else if !conn.inner.streams@.contains_key(stream.stream) {
                Some(WriteError::Error(Error::ErrStreamNotExisted))
            } else {
                None
            },
        }
    }
}

/// Whether a message of that length can be written: there is room for it, where nothing else stands
/// in the way.
pub open spec fn may_write(conn: Connection, stream: Stream, len: nat) -> bool {
    write_obstacle(conn, stream) is None ==> has_room(conn.inner, stream.stream, len)
}

/// Whether messages can be written one after the other: there is room for as many of them as are
/// taken, where nothing else stands in the way.
pub open spec fn may_write_each(conn: Connection, stream: Stream, messages: Seq<Seq<u8>>) -> bool {
    write_obstacle(conn, stream) is None ==> has_room_for_each(
        conn.inner,
        stream.stream,
        messages,
    )
}

/// Whether `after` and `r` are what writing the message `raw` makes of the connection `before`.
pub open spec fn writes(
    before: Connection,
    stream: Stream,
    raw: Seq<u8>,
    after: Connection,
    r: Poll<Result<usize, WriteError>>,
) -> bool {
    match write_obstacle(before, stream) {
        Some(e) => r == Poll::<Result<usize, WriteError>>::Ready(Err(e)) && after == before,
        None => exists|w: Result<usize, Error>| #[trigger]
            write_answer(w) == r && written_by_default(
                before.inner,
                stream.stream,
                raw,
                after.inner,
                w,
            )
                && after == (Connection {
                inner: after.inner,
                awake: w is Ok || before.awake,
                ..before
            }),
    }
}

/// Whether `after` and `r` are what writing messages up to the first that fails makes of the
/// connection `before`.
pub open spec fn writes_some(
    before: Connection,
    stream: Stream,
    messages: Seq<Seq<u8>>,
    after: Connection,
    r: Poll<Result<usize, WriteError>>,
) -> bool {
    match write_obstacle(before, stream) {
        Some(e) => r == Poll::<Result<usize, WriteError>>::Ready(Err(e)) && after == before,
        None => exists|w: Result<usize, Error>| #[trigger]
            write_answer(w) == r && wrote_some(
                before.inner,
                stream.stream,
                messages,
                after.inner,
                w,
            ) && after
                == (Connection { inner: after.inner, awake: w is Ok || before.awake, ..before }),
    }
}

/// What comes of waiting for a stream to be finished, from what has been heard of it so far.
pub open spec fn finish_answer(
    conn: Connection,
    outcome: Poll<Option<WriteError>>,
) -> Poll<Result<(), WriteError>> {
    match outcome {
        Poll::Ready(None) => Poll::Ready(Ok(())),
        Poll::Ready(Some(e)) => Poll::Ready(Err(e)),
        Poll::Pending => match conn.error {
            Some(x) => Poll::Ready(Err(WriteError::AssociationLost(x))),
            None => Poll::Pending,
        },
    }
}

/// Whether `(after, stream_after)` and `r` are what starting to finish a stream makes of
/// `(before, stream)`. A stream that is being finished is left alone, and one that was stopped cannot
/// be finished any more.
pub open spec fn begins_finish(
    before: Connection,
    stream: Stream,
    after: Connection,
    stream_after: Stream,
    r: Result<(), WriteError>,
) -> bool {
    if stream.all_data_read {
        &&& r == Err::<(), WriteError>(WriteError::UnknownStream)
        &&& after == before
        &&& stream_after == stream
    } else if stream.finishing {
        r == Ok::<(), WriteError>(()) && after == before && stream_after == stream
    } else {
        match r {
            Ok(_) => {
                &&& closes(
                    before,
                    stream.stream,
                    (Connection { finishing: before.finishing, ..after }),
                    Ok(()),
                )
                &&& after.finishing@ == before.finishing@.insert(stream.stream)
                &&& stream_after == (Stream { finishing: true, ..stream })
            },
            Err(e) => {
                &&& e matches WriteError::Error(e) && closes(before, stream.stream, after, Err(e))
                &&& stream_after == stream
            },
        }
    }
}

/// Whether `(after, stream_after)` and `r` are what a shutdown of a stream makes of
/// `(before, stream)`, where `outcome` is what has been heard of a shutdown started before.
pub open spec fn polls_finish(
    before: Connection,
    stream: Stream,
    outcome: Poll<Option<WriteError>>,
    after: Connection,
    stream_after: Stream,
    r: Poll<Result<(), WriteError>>,
) -> bool {
    exists|b: Result<(), WriteError>| #[trigger]
        begins_finish(before, stream, after, stream_after, b) && r == (match b {
            Ok(_) => finish_answer(
                after,
                if stream.finishing {
                    outcome
                } else {
                    Poll::Pending
                },
            ),
            Err(e) => Poll::Ready(Err(e)),
        })
}

/// Whether `after` and `r` are what waiting for the peer to stop a stream makes of the connection
/// `before`: it is over once the peer has done so, and nothing is waited for where the stream was
/// stopped from this side or the association has no such stream.
pub open spec fn awaits_stop(
    before: Connection,
    stream: Stream,
    after: Connection,
    r: Poll<Result<ErrorCauseCode, StoppedError>>,
) -> bool {
    if stream.all_data_read {
        &&& r == Poll::<Result<ErrorCauseCode, StoppedError>>::Ready(
            Err(StoppedError::UnknownStream),
        )
        &&& after == before
    } else if before.stop_codes@.contains_key(stream.stream) {
        &&& r == Poll::<Result<ErrorCauseCode, StoppedError>>::Ready(
            Ok(before.stop_codes@[stream.stream]),
        )
        &&& after == before
    } else if !before.inner.streams@.contains_key(stream.stream) {
        &&& r == Poll::<Result<ErrorCauseCode, StoppedError>>::Ready(
            Err(StoppedError::Error(Error::ErrStreamNotExisted)),
        )
        &&& after == before
    } else {
        &&& r == Poll::<Result<ErrorCauseCode, StoppedError>>::Pending
        &&& after == (Connection { stopped: after.stopped, ..before })
        &&& after.stopped@ == before.stopped@.insert(stream.stream)
    }
}

impl Connection {
    /// Closes a stream, and says that there is something to do.
    pub fn close_stream(&mut self, id: u16) -> (r: Result<(), Error>)
        requires
            old(self).inner.wf(),
        ensures
            final(self).inner.wf(),
            closes(*old(self), id, *final(self), r),
    {
        match self.inner.stream(id) {
            Ok(s) => {
                let mut s = s;
                if let Err(e) = s.close() {
                    return Err(e);
                }
            },
            Err(e) => {
                return Err(e);
            },
        }
        self.wake();
        Ok(())
    }
}

impl Stream {
    /// A stream of a connection.
    pub fn new(stream: u16) -> (r: Self)
        ensures
            r == (Stream { stream, finishing: false, all_data_read: false }),
    {
        Stream { stream, finishing: false, all_data_read: false }
    }

    /// Get the identity of this stream
    pub fn id(&self) -> (r: u16)
        ensures
            r == self.stream,
    {
        self.stream
    }

    /// Writes a message, unless the association is lost or the peer stopped the stream.
    pub fn execute_poll(&self, conn: &mut Connection, buf: &[u8]) -> (r: Poll<
        Result<usize, WriteError>,
    >)
        requires
            old(conn).inner.wf(),
            may_write(*old(conn), *self, buf@.len()),
        ensures
            final(conn).inner.wf(),
            writes(*old(conn), *self, buf@, *final(conn), r),
    {
        broadcast use vstd::std_specs::hash::group_hash_axioms;

        if self.all_data_read {
            return Poll::Ready(Err(WriteError::UnknownStream));
        }
        if let Some(x) = conn.error {
            return Poll::Ready(Err(WriteError::AssociationLost(x)));
        }
        if let Some(code) = conn.stop_codes.get(&self.stream) {
            return Poll::Ready(Err(WriteError::Stopped(*code)));
        }
        let p: Bytes = Bytes::copy_from_slice(buf);
        let w: Result<usize, Error> = match conn.inner.stream(self.stream) {
            Ok(s) => {
                let mut s = s;
                s.write(&p)
            },
            Err(e) => {
                return Poll::Ready(Err(WriteError::Error(e)));
            },
        };
        match w {
            Ok(n) => {
                conn.wake();
                assert(write_answer(w) == Poll::<Result<usize, WriteError>>::Ready(Ok(n)));
                Poll::Ready(Ok(n))
            },
            Err(e) => {
                assert(write_answer(w) == Poll::<Result<usize, WriteError>>::Ready(
                    Err(WriteError::Error(e)),
                ));
                Poll::Ready(Err(WriteError::Error(e)))
            },
        }
    }

    /// Writes the chunks from `offset` on up to the first that cannot be written, unless the
    /// association is lost or the peer stopped the stream.
    pub fn execute_poll_chunks(
        &self,
        conn: &mut Connection,
        bufs: &mut [Bytes],
        offset: usize,
    ) -> (r: Poll<Result<usize, WriteError>>)
        requires
            old(conn).inner.wf(),
            offset <= old(bufs)@.len(),
            may_write_each(*old(conn), *self, contents(old(bufs)@).skip(offset as int)),
        ensures
            final(conn).inner.wf(),
            writes_some(
                *old(conn),
                *self,
                contents(old(bufs)@).skip(offset as int),
                *final(conn),
                r,
            ),
            contents(final(bufs)@) == emptied(
                contents(old(bufs)@),
                offset as int,
                match r {
                    Poll::Ready(Ok(k)) => k as int,
                    _ => 0,
                },
            ),
    {
        broadcast use vstd::std_specs::hash::group_hash_axioms;

        assert(contents(bufs@) =~= emptied(contents(bufs@), offset as int, 0));
        if self.all_data_read {
            return Poll::Ready(Err(WriteError::UnknownStream));
        }
        if let Some(x) = conn.error {
            return Poll::Ready(Err(WriteError::AssociationLost(x)));
        }
        if let Some(code) = conn.stop_codes.get(&self.stream) {
            return Poll::Ready(Err(WriteError::Stopped(*code)));
        }
        let w: Result<usize, Error> = match conn.inner.stream(self.stream) {
            Ok(s) => {
                let mut s = s;
                s.write_chunks(bufs, offset)
            },
            Err(e) => {
                return Poll::Ready(Err(WriteError::Error(e)));
            },
        };
        match w {
            Ok(n) => {
                conn.wake();
                assert(write_answer(w) == Poll::<Result<usize, WriteError>>::Ready(Ok(n)));
                Poll::Ready(Ok(n))
            },
            Err(e) => {
                assert(write_answer(w) == Poll::<Result<usize, WriteError>>::Ready(
                    Err(WriteError::Error(e)),
                ));
                Poll::Ready(Err(WriteError::Error(e)))
            },
        }
    }

    /// Starts to shut down the send stream, unless that has been started before.
    pub fn begin_finish(&mut self, conn: &mut Connection) -> (r: Result<(), WriteError>)
        requires
            old(conn).inner.wf(),
        ensures
            final(conn).inner.wf(),
            begins_finish(*old(conn), *old(self), *final(conn), *final(self), r),
    {
        broadcast use vstd::std_specs::hash::group_hash_axioms;

        if self.all_data_read {
            return Err(WriteError::UnknownStream);
        }
        if self.finishing {
            return Ok(());
        }
        if let Err(e) = conn.close_stream(self.stream) {
            return Err(WriteError::Error(e));
        }
        let ghost mid = *conn;
        self.finishing = true;
        conn.finishing.insert(self.stream);
        assert(Connection { finishing: old(conn).finishing, ..*conn } == mid);
        Ok(())
    }

    /// What comes of waiting for the stream to be finished: `outcome` is what has been heard of it.
    ///
    /// To ensure that finished streams can be detected even after the association is closed, the
    /// loss of the association counts only while the stream has not been finished.
    pub fn settle_finish(&self, conn: &Connection, outcome: Poll<Option<WriteError>>) -> (r: Poll<
        Result<(), WriteError>,
    >)
        ensures
            r == finish_answer(*conn, outcome),
    {
        match outcome {
            Poll::Ready(None) => Poll::Ready(Ok(())),
            Poll::Ready(Some(e)) => Poll::Ready(Err(e)),
            Poll::Pending => {
                if let Some(x) = conn.error {
                    return Poll::Ready(Err(WriteError::AssociationLost(x)));
                }
                Poll::Pending
            },
        }
    }

    /// Shuts down the send stream gracefully: `outcome` is what has been heard of a shutdown that
    /// was started before.
    pub fn poll_finish(&mut self, conn: &mut Connection, outcome: Poll<Option<WriteError>>) -> (r:
        Poll<Result<(), WriteError>>)
        requires
            old(conn).inner.wf(),
        ensures
            final(conn).inner.wf(),
            polls_finish(*old(conn), *old(self), outcome, *final(conn), *final(self), r),
    {
        let heard: Poll<Option<WriteError>> = if self.finishing {
            outcome
        } else {
            Poll::Pending
        };
        if let Err(e) = self.begin_finish(conn) {
            return Poll::Ready(Err(e));
        }
        assert(begins_finish(*old(conn), *old(self), *conn, *self, Ok(())));
        self.settle_finish(conn, heard)
    }

    /// Close the send stream immediately.
    ///
    /// No new data can be written after calling this method. Locally buffered data is dropped, and
    /// previously transmitted data will no longer be retransmitted if lost. If an attempt has
    /// already been made to finish the stream, all written data is left to reach the peer.
    pub fn close(&mut self, conn: &mut Connection, error_code: ErrorCauseCode) -> (r: Result<
        (),
        UnknownStream,
    >)
        requires
            old(conn).inner.wf(),
        ensures
            final(conn).inner.wf(),
            *final(self) == *old(self),
            match r {
                Ok(_) => {
                    &&& !old(self).all_data_read
                    &&& exists|mid: Connection| #[trigger]
                        closes(*old(conn), old(self).stream, mid, Ok(())) && if old(
                            self,
                        ).finishing {
                            *final(conn) == mid
                        } else {
                            &&& *final(conn) == (Connection { inner: final(conn).inner, ..mid })
                            &&& gave_up_stream(mid.inner, old(self).stream, final(conn).inner)
                        }
                },
                Err(_) => if old(self).all_data_read {
                    *final(conn) == *old(conn)
                } else {
                    exists|e: Error| #[trigger]
                        closes(*old(conn), old(self).stream, *final(conn), Err(e))
                },
            },
    {
        if self.all_data_read {
            return Err(UnknownStream {  });
        }
        match conn.close_stream(self.stream) {
            Ok(_) => {
                let ghost mid = *conn;
                if !self.finishing {
                    conn.inner.give_up_stream(self.stream);
                }
                assert(closes(*old(conn), self.stream, mid, Ok(())));
                Ok(())
            },
            Err(e) => Err(UnknownStream::from(e)),
        }
    }

    /// Stop accepting data
    ///
    /// Discards unread data and notifies the peer to stop transmitting. Once stopped, further
    /// attempts to operate on a stream will yield `UnknownStream` errors.
    pub fn stop(&mut self, conn: &mut Connection, error_code: ErrorCauseCode) -> (r: Result<
        (),
        UnknownStream,
    >)
        requires
            old(conn).inner.wf(),
        ensures
            final(conn).inner.wf(),
            match r {
                Ok(_) => {
                    &&& !old(self).all_data_read
                    &&& exists|mid: Connection| #[trigger]
                        closes(*old(conn), old(self).stream, mid, Ok(())) && discards(
                            mid,
                            old(self).stream,
                            *final(conn),
                        )
                    &&& *final(self) == (Stream { all_data_read: true, ..*old(self) })
                },
                Err(_) => {
                    &&& if old(self).all_data_read {
                        *final(conn) == *old(conn)
                    } else {
                        exists|e: Error| #[trigger]
                            closes(*old(conn), old(self).stream, *final(conn), Err(e))
                    }
                    &&& *final(self) == *old(self)
                },
            },
    {
        if self.all_data_read {
            return Err(UnknownStream {  });
        }
        match conn.close_stream(self.stream) {
            Ok(_) => {
                let ghost mid = *conn;
                conn.inner.discard_unread(self.stream);
                self.all_data_read = true;
                assert(closes(*old(conn), self.stream, mid, Ok(())));
                assert(discards(mid, self.stream, *conn));
                Ok(())
            },
            Err(e) => Err(UnknownStream::from(e)),
        }
    }

    /// Completes if/when the peer stops the stream, with the code that it gave; until then, whoever
    /// waits for that is noted.
    pub fn poll_stopped(&mut self, conn: &mut Connection) -> (r: Poll<
        Result<ErrorCauseCode, StoppedError>,
    >)
        ensures
            *final(self) == *old(self),
            awaits_stop(*old(conn), *old(self), *final(conn), r),
    {
        broadcast use vstd::std_specs::hash::group_hash_axioms;

        if self.all_data_read {
            return Poll::Ready(Err(StoppedError::UnknownStream));
        }
        if let Some(code) = conn.stop_codes.get(&self.stream) {
            return Poll::Ready(Ok(*code));
        }
        if let Err(e) = conn.inner.stream(self.stream) {
            return Poll::Ready(Err(StoppedError::Error(e)));
        }
        conn.stopped.insert(self.stream);
        Poll::Pending
    }

    /// Lets go of the stream. Where it has not been both read to its end and finished, and the
    /// association is there, it is closed as far as it can be, and there is something to do.
    pub fn release(self, conn: &mut Connection)
        requires
            old(conn).inner.wf(),
        ensures
            final(conn).inner.wf(),
            if old(conn).error is Some || (self.all_data_read && self.finishing) {
                *final(conn) == *old(conn)
            } else {
                &&& *final(conn) == (Connection {
                    inner: final(conn).inner,
                    awake: true,
                    ..*old(conn)
                })
                &&& if old(conn).inner.streams@.contains_key(self.stream) {
                    exists|r: Result<(), Error>| #[trigger]
                        closed(old(conn).inner, self.stream, final(conn).inner, r)
                } else {
                    final(conn).inner == old(conn).inner
                }
            },
    {
        if conn.error.is_some() {
            return;
        }
        if !self.all_data_read || !self.finishing {
            let _ = conn.close_stream(self.stream);
            conn.wake();
        }
    }
}

/// Once the peer has stopped a stream, whoever waits for that gets the code that the peer gave, and
/// nobody is noted as waiting.
pub proof fn law_stop_of_the_peer_is_told(
    before: Connection,
    stream: Stream,
    error_code: u16,
    mid: Connection,
    told: Option<Option<WriteError>>,
    after: Connection,
    r: Poll<Result<ErrorCauseCode, StoppedError>>,
)
    requires
        !stream.all_data_read,
        hears(before, StreamEvent::Stopped { id: stream.stream, error_code }, mid, told),
        awaits_stop(mid, stream, after, r),
    ensures
        r == Poll::<Result<ErrorCauseCode, StoppedError>>::Ready(Ok(ErrorCauseCode(error_code))),
        after == mid,
        !after.stopped@.contains(stream.stream),
{
}

/// No new data can be written to a stream that was closed or is being finished: each attempt fails
/// and leaves the connection as it is.
pub proof fn law_nothing_is_written_after_close(
    before: Connection,
    stream: Stream,
    mid: Connection,
    raw: Seq<u8>,
    after: Connection,
    r: Poll<Result<usize, WriteError>>,
)
    requires
        closes(before, stream.stream, mid, Ok(())),
        writes(mid, stream, raw, after, r),
    ensures
        r matches Poll::Ready(Err(_)),
        after == mid,
{
    if write_obstacle(mid, stream) is None {
        let w = choose|w: Result<usize, Error>|
            #![trigger write_answer(w)]
            write_answer(w) == r && written_by_default(
                mid.inner,
                stream.stream,
                raw,
                after.inner,
                w,
            ) && after == (Connection { inner: after.inner, awake: w is Ok || mid.awake, ..mid });
        assert(w is Err);
    }
}

/// Once the peer has stopped a stream, a write fails with the code that the peer gave, and changes
/// nothing.
pub proof fn law_stopped_peer_takes_no_data(
    before: Connection,
    stream: Stream,
    error_code: u16,
    mid: Connection,
    told: Option<Option<WriteError>>,
    raw: Seq<u8>,
    after: Connection,
    r: Poll<Result<usize, WriteError>>,
)
    requires
        before.error is None,
        !stream.all_data_read,
        hears(before, StreamEvent::Stopped { id: stream.stream, error_code }, mid, told),
        writes(mid, stream, raw, after, r),
    ensures
        r == Poll::<Result<usize, WriteError>>::Ready(
            Err(WriteError::Stopped(ErrorCauseCode(error_code))),
        ),
        after == mid,
{
}

/// Once the association is lost, a write fails with the reason and changes nothing.
pub proof fn law_lost_association_takes_no_data(
    before: Connection,
    stream: Stream,
    raw: Seq<u8>,
    after: Connection,
    r: Poll<Result<usize, WriteError>>,
)
    requires
        before.error is Some,
        !stream.all_data_read,
        writes(before, stream, raw, after, r),
    ensures
        r == Poll::<Result<usize, WriteError>>::Ready(
            Err(WriteError::AssociationLost(before.error->0)),
        ),
        after == before,
{
}

/// Whether a stream was finished can be told even after the association is lost: what has been heard
/// of it counts first.
pub proof fn law_finished_counts_before_lost(
    conn: Connection,
    outcome: Poll<Option<WriteError>>,
)
    ensures
        outcome matches Poll::Ready(None) ==> finish_answer(conn, outcome) == Poll::<
            Result<(), WriteError>,
        >::Ready(Ok(())),
        conn.error is Some && outcome is Pending ==> finish_answer(conn, outcome) == Poll::<
            Result<(), WriteError>,
        >::Ready(Err(WriteError::AssociationLost(conn.error->0))),
{
}

} // verus!
