//! What holds of the operations on the streams of a connection, in terms of the fields of the
//! connection and of what waits to be sent and to be read.

use tokio::io::ReadBuf;
use vstd::prelude::*;

use crate::association::abandon::gave_up_stream;
use crate::association::laws::law_other_streams_keep_their_data;
use crate::association::state::AssociationState;
use crate::association::Association;
use crate::buf::bytes_content;
use crate::chunk::{chunk_views, joined_data, DataChunk};
use crate::connection::error::{
    ErrorCauseCode, ReadError, ReadExactError, ReadToEndError, StoppedError, WriteError,
};
use crate::connection::read::{
    amount_read, chunk_contents, filling, fitting, gathering, joined, message_at, message_count, reads,
    reads_exact, reads_to_end, takes_message, waits, ReadToEnd,
};
use crate::connection::read_buf::{read_buf_capacity, read_buf_filled, read_buf_room};
use crate::connection::stream::{
    awaits_stop, begins_finish, closes, discards, finish_answer, polls_finish, write_answer,
    write_obstacle, writes, writes_some, Stream,
};
use crate::connection::write::writes_all;
use crate::connection::{ends, hears, Connection, Poll};
use crate::error::Error;
use crate::queue::reassembly_queue::{Chunk, ReassemblyState};
use crate::stream::delivery::after_reads;
use crate::stream::handle::{written_by_default, wrote_all, wrote_some};
use crate::stream::laws::{
    law_close_outcome, law_taken_message_is_queued, law_write_outcome,
    law_writing_stops_at_the_first_failure, law_written_messages_are_queued_in_order, takes_data,
};
use crate::stream::state::{StreamEvent, StreamModel};

verus! {

/// What events about streams lead to: where there is something to read, nobody is left waiting to
/// read from the stream; where a stream is finished, the same, and no more is expected on it, and
/// whoever waits for it to be finished hears that it is; where the peer stops it, its code is kept,
/// and whoever waits for the stream to be stopped or finished hears of it. Other streams are not
/// concerned, and the association is left alone.
pub proof fn law_events_concern_their_stream(
    before: Connection,
    event: StreamEvent,
    after: Connection,
    r: Option<Option<WriteError>>,
    id: u16,
    code: u16,
    other: u16,
)
    requires
        hears(before, event, after, r),
        other != id,
        event == (StreamEvent::Readable { id }) || event == (StreamEvent::Finished { id }) || event
            == (StreamEvent::Stopped { id, error_code: code }),
    ensures
        after.inner == before.inner && after.error == before.error && after.awake == before.awake,
        after.blocked_readers@.contains(id) == (before.blocked_readers@.contains(id) && event
            == (StreamEvent::Stopped { id, error_code: code })),
        after.finished@.contains(id) == (before.finished@.contains(id) || event
            == (StreamEvent::Finished { id })),
        after.finishing@.contains(id) == (before.finishing@.contains(id) && event
            == (StreamEvent::Readable { id })),
        after.stopped@.contains(id) == (before.stopped@.contains(id) && event
            != (StreamEvent::Stopped { id, error_code: code })),
        event == (StreamEvent::Stopped { id, error_code: code }) ==> after.stop_codes@.contains_key(
            id,
        ) && after.stop_codes@[id] == ErrorCauseCode(code),
        event != (StreamEvent::Stopped { id, error_code: code }) ==> after.stop_codes@
            == before.stop_codes@,
        r is Some == (before.finishing@.contains(id) && event != (StreamEvent::Readable { id })),
        event == (StreamEvent::Finished { id }) && before.finishing@.contains(id) ==> r == Some(
            None::<WriteError>,
        ),
        event == (StreamEvent::Stopped { id, error_code: code }) && before.finishing@.contains(id)
            ==> r == Some(Some(WriteError::Stopped(ErrorCauseCode(code)))),
        after.blocked_readers@.contains(other) == before.blocked_readers@.contains(other),
        after.finished@.contains(other) == before.finished@.contains(other),
        after.finishing@.contains(other) == before.finishing@.contains(other),
        after.stopped@.contains(other) == before.stopped@.contains(other),
        after.stop_codes@.contains_key(other) == before.stop_codes@.contains_key(other),
        before.stop_codes@.contains_key(other) ==> after.stop_codes@[other]
            == before.stop_codes@[other],
{
}

/// The other events change nothing, and a stream that ends is finished with nobody waiting to read
/// from it.
pub proof fn law_streams_end(
    before: Connection,
    event: StreamEvent,
    after: Connection,
    r: Option<Option<WriteError>>,
    id: u16,
    ended: Connection,
    other: u16,
)
    requires
        other != id,
    ensures
        hears(before, event, after, r) && (event == StreamEvent::Opened || event
            == StreamEvent::Available || event is Writable) ==> after == before && r is None,
        ends(before, id, ended) ==> {
            &&& ended.finished@.contains(id)
            &&& !ended.blocked_readers@.contains(id)
            &&& ended.finished@.contains(other) == before.finished@.contains(other)
            &&& ended.blocked_readers@.contains(other) == before.blocked_readers@.contains(other)
            &&& ended == (Connection {
                finished: ended.finished,
                blocked_readers: ended.blocked_readers,
                ..before
            })
        },
{
}

/// The reasons to turn a write away before the association sees it are looked at in turn: the stream
/// was stopped from this side, the association is lost, the peer stopped the stream, there is no such
/// stream. A write that is turned away changes nothing.
pub proof fn law_writes_are_turned_away(
    before: Connection,
    stream: Stream,
    raw: Seq<u8>,
    after: Connection,
    r: Poll<Result<usize, WriteError>>,
)
    requires
        writes(before, stream, raw, after, r),
        stream.all_data_read || before.error is Some || before.stop_codes@.contains_key(
            stream.stream,
        ) || !before.inner.streams@.contains_key(stream.stream),
    ensures
        after == before,
        stream.all_data_read ==> (r matches Poll::Ready(Err(e)) && e == WriteError::UnknownStream),
        !stream.all_data_read && before.error is Some ==> (r matches Poll::Ready(Err(e)) && e
            == WriteError::AssociationLost(before.error->0)),
        !stream.all_data_read && before.error is None && before.stop_codes@.contains_key(
            stream.stream,
        ) ==> (r matches Poll::Ready(Err(e)) && e == WriteError::Stopped(
            before.stop_codes@[stream.stream],
        )),
        !stream.all_data_read && before.error is None && !before.stop_codes@.contains_key(
            stream.stream,
        ) ==> (r matches Poll::Ready(Err(e)) && e == WriteError::Error(
            Error::ErrStreamNotExisted,
        )),
{
}

/// A write that nothing stands in the way of fails where the message is too large, where the stream
/// does not take data, or where the association is not established, with nothing queued. Else it
/// queues the message as a whole, and wakes whoever sends. Nothing but the association changes.
pub proof fn law_connection_write_outcome(
    before: Connection,
    stream: Stream,
    raw: Seq<u8>,
    after: Connection,
    r: Poll<Result<usize, WriteError>>,
)
    requires
        writes(before, stream, raw, after, r),
        !stream.all_data_read,
        before.error is None,
        !before.stop_codes@.contains_key(stream.stream),
        before.inner.streams@.contains_key(stream.stream),
        before.inner.streams@[stream.stream].max_payload_size > 0,
    ensures
        ({
            let fits = raw.len() <= before.inner.max_message_size;
            let open = takes_data(before.inner, stream.stream);
            let taken = fits && open && before.inner.state == AssociationState::Established;
            &&& !fits ==> (r matches Poll::Ready(Err(e)) && e == WriteError::Error(
                Error::ErrOutboundPacketTooLarge,
            ))
            &&& fits && !open ==> (r matches Poll::Ready(Err(e)) && e == WriteError::Error(
                Error::ErrStreamClosed,
            ))
            &&& fits && open && !taken ==> (r matches Poll::Ready(Err(e)) && e == WriteError::Error(
                Error::ErrPayloadDataStateNotExist,
            ))
            &&& taken ==> (r matches Poll::Ready(Ok(n)) && n == raw.len()) && after.awake
                && joined_data(
                chunk_views(after.inner.pending_queue@).skip(
                    before.inner.pending_queue@.len() as int,
                ),
            ) == raw
            &&& !taken ==> after.inner.pending_queue == before.inner.pending_queue && after.awake
                == before.awake
        }),
        after == (Connection { inner: after.inner, awake: after.awake, ..before }),
{
    let id = stream.stream;
    let w = choose|w: Result<usize, Error>|
        #![trigger write_answer(w)]
        write_answer(w) == r && written_by_default(before.inner, id, raw, after.inner, w) && after
            == (Connection { inner: after.inner, awake: w is Ok || before.awake, ..before });
    lemma_default_write(before.inner, id, raw, after.inner, w);
}

proof fn lemma_default_write(
    before: Association,
    id: u16,
    raw: Seq<u8>,
    after: Association,
    w: Result<usize, Error>,
)
    requires
        written_by_default(before, id, raw, after, w),
        before.streams@.contains_key(id),
        before.streams@[id].max_payload_size > 0,
    ensures
        ({
            let fits = raw.len() <= before.max_message_size;
            let open = takes_data(before, id);
            let taken = fits && open && before.state == AssociationState::Established;
            &&& !fits ==> w == Err::<usize, Error>(Error::ErrOutboundPacketTooLarge)
            &&& fits && !open ==> w == Err::<usize, Error>(Error::ErrStreamClosed)
            &&& fits && open && !taken ==> w == Err::<usize, Error>(
                Error::ErrPayloadDataStateNotExist,
            )
            &&& taken ==> (w matches Ok(n) && n == raw.len()) && joined_data(
                chunk_views(after.pending_queue@).skip(before.pending_queue@.len() as int),
            ) == raw
            &&& !taken ==> after.pending_queue == before.pending_queue
        }),
{
    let ppi = before.streams@[id]@.default_payload_type;
    law_write_outcome(before, id, raw, ppi, after, w);
    if let Ok(n) = w {
        law_taken_message_is_queued(before, id, raw, ppi, after, n, 0);
    }
}

/// Writing a list of messages queues as many of them as it says, from the first on and in order, and
/// nothing where it fails; it is turned away for the same reasons as a single write.
pub proof fn law_connection_writes_in_order(
    before: Connection,
    stream: Stream,
    messages: Seq<Seq<u8>>,
    after: Connection,
    r: Poll<Result<usize, WriteError>>,
)
    requires
        writes_some(before, stream, messages, after, r),
        before.inner.streams@.contains_key(stream.stream) ==> before.inner.streams@[stream.stream].max_payload_size
            > 0,
    ensures
        r is Ready,
        r->Ready_0 is Err ==> after.inner.pending_queue == before.inner.pending_queue,
        r->Ready_0 matches Ok(k) ==> {
            &&& !stream.all_data_read && before.error is None && !before.stop_codes@.contains_key(
                stream.stream,
            )
            &&& k <= messages.len()
            &&& k < messages.len() ==> k > 0 && messages[k as int].len()
                > before.inner.max_message_size
            &&& after.awake
            &&& joined_data(
                chunk_views(after.inner.pending_queue@).skip(
                    before.inner.pending_queue@.len() as int,
                ),
            ) == messages.take(k as int).flatten_alt()
        },
        after == (Connection { inner: after.inner, awake: after.awake, ..before }),
{
    if write_obstacle(before, stream) is None {
        let w = choose|w: Result<usize, Error>|
            #![trigger write_answer(w)]
            write_answer(w) == r && wrote_some(
                before.inner,
                stream.stream,
                messages,
                after.inner,
                w,
            ) && after == (Connection {
                inner: after.inner,
                awake: w is Ok || before.awake,
                ..before
            });
        law_writing_stops_at_the_first_failure(
            before.inner,
            stream.stream,
            messages,
            after.inner,
            w,
        );
    }
}

/// Writing all of some messages succeeds with all of them queued, in order.
pub proof fn law_all_messages_are_queued(
    before: Connection,
    stream: Stream,
    messages: Seq<Seq<u8>>,
    k: int,
    after: Connection,
    r: Poll<Result<(), WriteError>>,
)
    requires
        writes_all(before, stream, messages, k, after, r),
        r matches Poll::Ready(Ok(_)),
        before.inner.streams@.contains_key(stream.stream) ==> before.inner.streams@[stream.stream].max_payload_size
            > 0,
    ensures
        k == messages.len(),
        messages.len() > 0 ==> joined_data(
            chunk_views(after.inner.pending_queue@).skip(before.inner.pending_queue@.len() as int),
        ) == messages.flatten_alt(),
        messages.len() == 0 ==> after == before,
{
    if messages.len() > 0 {
        law_written_messages_are_queued_in_order(
            before.inner,
            stream.stream,
            messages,
            k as nat,
            after.inner,
        );
        assert(messages.take(k) =~= messages);
    }
}

proof fn lemma_others_filter_push(chunks: Seq<DataChunk>, id: u16, c: DataChunk)
    requires
        c.stream_identifier == id,
    ensures
        chunks.push(c).filter(|x: DataChunk| x.stream_identifier != id) == chunks.filter(
            |x: DataChunk| x.stream_identifier != id,
        ),
{
    reveal(Seq::filter);
    assert(chunks.push(c).drop_last() =~= chunks);
}

/// Closing a stream, whether it gives up its data or leaves it to reach the peer, spares the other
/// streams: what waits to be sent of them, what is in flight of them, and they themselves.
pub proof fn law_closing_a_stream_spares_the_others(
    before: Connection,
    id: u16,
    mid: Connection,
    r: Result<(), Error>,
    after: Connection,
    i: int,
    other: u16,
)
    requires
        closes(before, id, mid, r),
        after == mid || gave_up_stream(mid.inner, id, after.inner),
        other != id,
    ensures
        chunk_views(after.inner.pending_queue@).filter(
            |c: DataChunk| c.stream_identifier != id,
        ) == chunk_views(before.inner.pending_queue@).filter(
            |c: DataChunk| c.stream_identifier != id,
        ),
        0 <= i < before.inner.inflight_queue@.len()
            && before.inner.inflight_queue@[i].stream_identifier != id
            ==> after.inner.inflight_queue@[i] == before.inner.inflight_queue@[i],
        before.inner.streams@.contains_key(other) ==> after.inner.streams@.contains_key(other)
            && after.inner.streams@[other] == before.inner.streams@[other],
        r is Ok ==> before.inner.streams@.contains_key(id) && after.inner.streams@[id].closed,
{
    if before.inner.streams@.contains_key(id) {
        let had = chunk_views(before.inner.pending_queue@);
        let has = chunk_views(mid.inner.pending_queue@);
        law_close_outcome(before.inner, id, mid.inner, r, 0);
        assert(before.inner.streams@.contains_key(other) ==> mid.inner.streams@.contains_key(other));
        if mid.inner.pending_queue@.len() == before.inner.pending_queue@.len() + 1 {
            let c = has.last();
            assert(has.len() == had.len() + 1);
            assert(c == mid.inner.pending_queue@.last()@);
            assert(has =~= had.push(c));
            lemma_others_filter_push(had, id, c);
        }
    }
    if after != mid {
        law_other_streams_keep_their_data(mid.inner, id, after.inner, i, other);
    }
}

/// Stopping a stream leaves nothing to read on it, whole or not, and changes nothing else: the other
/// streams, what waits to be sent and what is in flight are as they were.
pub proof fn law_discarding_leaves_nothing_to_read(
    before: Connection,
    id: u16,
    after: Connection,
    other: u16,
)
    requires
        discards(before, id, after),
        before.inner.streams@.contains_key(id),
        other != id,
    ensures
        after.inner.streams@[id]@.reassembly.ordered.len() == 0,
        after.inner.streams@[id]@.reassembly.unordered.len() == 0,
        after.inner.streams@[id]@.reassembly.fragments.len() == 0,
        after.inner.streams@[id]@.reassembly.next_message() is None,
        after.inner.streams@[id]@ == (StreamModel {
            reassembly: after.inner.streams@[id]@.reassembly,
            ..before.inner.streams@[id]@
        }),
        before.inner.streams@.contains_key(other) ==> after.inner.streams@.contains_key(other)
            && after.inner.streams@[other] == before.inner.streams@[other],
        after.inner.pending_queue == before.inner.pending_queue,
        after.inner.inflight_queue == before.inner.inflight_queue,
        after.error == before.error,
{
}

/// What comes of a read: a stream that was stopped is unknown. On one that is open, a message that is
/// there is taken, even where the association is lost. Where there is none, the loss of the
/// association is told, then the end of a stream that was finished; else the reader waits. One that is
/// not open cannot be read unless it was finished.
pub proof fn law_connection_read_outcome<U>(
    before: Connection,
    stream: Stream,
    after: Connection,
    end: U,
    r: Poll<Result<U, ReadError>>,
)
    requires
        reads(before, stream, after, end, r),
    ensures
        stream.all_data_read ==> r == Poll::<Result<U, ReadError>>::Ready(
            Err(ReadError::UnknownStream),
        ) && after == before,
        ({
            let id = stream.stream;
            let there = before.inner.streams@.contains_key(id);
            let open = there && !before.inner.streams@[id].closed;
            let q = before.inner.streams@[id]@.reassembly;
            let some = open && q.next_message() is Some;
            let over = before.finished@.contains(id);
            &&& !stream.all_data_read && !open && !over && !there ==> r == Poll::<
                Result<U, ReadError>,
            >::Ready(Err(ReadError::Error(Error::ErrStreamNotExisted))) && after == before
            &&& !stream.all_data_read && !open && !over && there ==> r == Poll::<
                Result<U, ReadError>,
            >::Ready(Err(ReadError::Error(Error::ErrStreamClosed))) && after == before
            &&& !stream.all_data_read && some ==> (r matches Poll::Ready(Ok(_)))
                && after.inner.streams@[id]@ == (StreamModel {
                reassembly: q.after_read(),
                ..before.inner.streams@[id]@
            })
            &&& !stream.all_data_read && !some && (open || over) && before.error is Some ==> r
                == Poll::<Result<U, ReadError>>::Ready(
                Err(ReadError::AssociationLost(before.error->0)),
            )
            &&& !stream.all_data_read && !some && before.error is None && over ==> r == Poll::<
                Result<U, ReadError>,
            >::Ready(Ok(end))
            &&& !stream.all_data_read && !some && open && before.error is None && !over ==> r
                == Poll::<Result<U, ReadError>>::Pending && after.blocked_readers@
                == before.blocked_readers@.insert(id)
            &&& r is Ready ==> after.blocked_readers == before.blocked_readers
            &&& forall|other: u16|
                other != id ==> #[trigger] after.inner.streams@.contains_key(other)
                    == before.inner.streams@.contains_key(other)
                    && (before.inner.streams@.contains_key(other) ==> after.inner.streams@[other]
                    == before.inner.streams@[other])
        }),
        after.error == before.error && after.finished == before.finished && after.awake
            == before.awake && after.finishing == before.finishing && after.stopped
            == before.stopped && after.stop_codes == before.stop_codes,
        after.inner.pending_queue == before.inner.pending_queue,
        after.inner.inflight_queue == before.inner.inflight_queue,
{
    if message_at(before, stream) matches Ok(None) {
        let mid = choose|mid: Connection| #[trigger]
            takes_message(before, stream, mid) && waits(
                mid,
                stream.stream,
                after,
                end,
                r,
            );
        assert(mid == (Connection { inner: mid.inner, ..before }));
    }
}

/// As much of some bytes as fits is all of them, or as many from the front on as there is room for.
pub proof fn law_what_fits(data: Seq<u8>, room: int, i: int)
    requires
        room >= 0,
    ensures
        data.len() <= room ==> fitting(data, room) == data,
        data.len() > room ==> fitting(data, room).len() == room,
        0 <= i < fitting(data, room).len() ==> fitting(data, room)[i] == data[i],
{
}

/// The data of the first messages that are read from a queue, joined.
pub open spec fn data_of(q: ReassemblyState, n: nat) -> Seq<u8>
    decreases n,
{
    if n == 0 {
        Seq::empty()
    } else {
        data_of(q, (n - 1) as nat) + after_reads(q, (n - 1) as nat).next_message()->0.unread_data()
    }
}

proof fn lemma_reads_shift(q: ReassemblyState, n: nat)
    requires
        q.next_message() is Some,
    ensures
        after_reads(q, n + 1) == after_reads(q.after_read(), n),
        data_of(q, n + 1) == q.next_message()->0.unread_data() + data_of(q.after_read(), n),
    decreases n,
{
    reveal_with_fuel(after_reads, 3);
    reveal_with_fuel(data_of, 3);
    if n == 0 {
        assert(data_of(q, 1) =~= q.next_message()->0.unread_data() + data_of(q.after_read(), 0));
    } else {
        lemma_reads_shift(q, (n - 1) as nat);
        assert(data_of(q, n + 1) =~= q.next_message()->0.unread_data() + data_of(
            q.after_read(),
            n,
        ));
    }
}

/// Filling a buffer reads message after message, each with data, while there is room and something to
/// read, and joins their data behind what is in the buffer; of the last one, what does not fit is
/// dropped. It ends early only at a message without data, which it has read as well.
pub proof fn law_buffer_is_filled_in_order(q: ReassemblyState, filled: Seq<u8>, capacity: nat) -> (n:
    nat)
    requires
        filled.len() <= capacity,
    ensures
        ({
            let f = filling(q, filled, capacity);
            &&& f.left == after_reads(q, n)
            &&& f.filled == fitting(filled + data_of(q, n), capacity as int)
            &&& f.finished_early ==> n > 0 && f.filled.len() < capacity && after_reads(
                q,
                (n - 1) as nat,
            ).next_message()->0.unread_data().len() == 0
            &&& !f.finished_early ==> f.filled.len() == capacity || f.left.next_message() is None
            &&& n > 0 ==> after_reads(q, (n - 1) as nat).next_message() is Some && filled.len()
                + data_of(q, (n - 1) as nat).len() < capacity
        }),
    decreases message_count(q),
{
    reveal_with_fuel(after_reads, 2);
    reveal_with_fuel(data_of, 2);
    if filled.len() >= capacity || q.next_message() is None {
        assert(filled + data_of(q, 0) =~= filled);
        0
    } else {
        let data = q.next_message()->0.unread_data();
        if data.len() == 0 {
            assert(filled + data_of(q, 1) =~= filled);
            assert(data_of(q, 0) =~= Seq::<u8>::empty());
            1
        } else {
            let next = q.after_read();
            let more = filled + fitting(data, capacity - filled.len());
            let m = law_buffer_is_filled_in_order(next, more, capacity);
            lemma_reads_shift(q, m);
            if data.len() > capacity - filled.len() {
                assert(m == 0) by {
                    if m > 0 {
                        assert(more.len() == capacity);
                    }
                }
                assert(data_of(next, 0) =~= Seq::<u8>::empty());
                assert(fitting(filled + data_of(q, 1), capacity as int) =~= more);
                assert(fitting(more + data_of(next, 0), capacity as int) =~= more);
            } else {
                assert(filled + data_of(q, m + 1) =~= more + data_of(next, m));
                if m > 0 {
                    lemma_reads_shift(q, (m - 1) as nat);
                } else {
                    assert(data_of(q, 0) =~= Seq::<u8>::empty());
                }
            }
            m + 1
        }
    }
}

/// Gathering reads message after message to the last one that is there, or to the one with which they
/// are longer than the limit together, and keeps all but that one, in order.
pub proof fn law_messages_are_gathered_in_order(
    q: ReassemblyState,
    read: Seq<Seq<u8>>,
    size: int,
    limit: int,
) -> (n: nat)
    ensures
        ({
            let g = gathering(q, read, size, limit);
            &&& g.left == after_reads(q, n)
            &&& g.size == size + data_of(q, n).len()
            &&& !g.too_long ==> g.left.next_message() is None && g.read.flatten_alt()
                == read.flatten_alt() + data_of(q, n) && (n > 0 ==> g.size <= limit)
            &&& g.too_long ==> n > 0 && g.size > limit && g.read.flatten_alt()
                == read.flatten_alt() + data_of(q, (n - 1) as nat)
        }),
    decreases message_count(q),
{
    reveal_with_fuel(after_reads, 2);
    reveal_with_fuel(data_of, 2);
    if q.next_message() is None {
        assert(read.flatten_alt() + data_of(q, 0) =~= read.flatten_alt());
        0
    } else {
        let data = q.next_message()->0.unread_data();
        if size + data.len() > limit {
            assert(read.flatten_alt() + data_of(q, 0) =~= read.flatten_alt());
            assert(data_of(q, 1) =~= data);
            1
        } else {
            let next = q.after_read();
            let m = law_messages_are_gathered_in_order(
                next,
                read.push(data),
                size + data.len(),
                limit,
            );
            lemma_reads_shift(q, m);
            assert(read.push(data).drop_last() =~= read);
            assert(read.push(data).flatten_alt() =~= read.flatten_alt() + data);
            if m > 0 {
                lemma_reads_shift(q, (m - 1) as nat);
                assert(read.flatten_alt() + data_of(q, m) =~= read.push(data).flatten_alt()
                    + data_of(next, (m - 1) as nat));
            }
            assert(read.flatten_alt() + data_of(q, m + 1) =~= read.push(data).flatten_alt()
                + data_of(next, m));
            m + 1
        }
    }
}

/// Messages are joined in order.
pub proof fn law_messages_are_joined_in_order(messages: Seq<Seq<u8>>)
    ensures
        joined(messages) == messages.flatten_alt(),
    decreases messages.len(),
{
    if messages.len() > 0 {
        law_messages_are_joined_in_order(messages.drop_last());
    }
}

/// What comes of waiting for a stream to be finished: what has been heard of it counts first, and the
/// loss of the association only where nothing has been heard.
pub proof fn law_finish_outcome(
    before: Connection,
    stream: Stream,
    outcome: Poll<Option<WriteError>>,
    after: Connection,
    stream_after: Stream,
    r: Poll<Result<(), WriteError>>,
)
    requires
        polls_finish(before, stream, outcome, after, stream_after, r),
    ensures
        stream.all_data_read ==> r == Poll::<Result<(), WriteError>>::Ready(
            Err(WriteError::UnknownStream),
        ) && after == before && stream_after == stream,
        !stream.all_data_read && stream.finishing ==> after == before && stream_after == stream && (
        outcome matches Poll::Ready(None) ==> (r matches Poll::Ready(Ok(_)))) && (
        outcome matches Poll::Ready(Some(e)) ==> (r matches Poll::Ready(Err(x)) && x == e)) && (
        outcome is Pending && before.error is Some ==> (r matches Poll::Ready(Err(x)) && x
            == WriteError::AssociationLost(before.error->0))) && (outcome is Pending
            && before.error is None ==> r is Pending),
        !stream.all_data_read && !stream.finishing && !before.inner.streams@.contains_key(
            stream.stream,
        ) ==> (r matches Poll::Ready(Err(x)) && x == WriteError::Error(Error::ErrStreamNotExisted))
            && after == before && stream_after == stream,
        !stream.all_data_read && !stream.finishing && before.inner.streams@.contains_key(
            stream.stream,
        ) && (before.inner.streams@[stream.stream].closed || before.inner.state
            == AssociationState::Established) ==> {
            &&& stream_after.finishing
            &&& after.finishing@ == before.finishing@.insert(stream.stream)
            &&& after.inner.streams@[stream.stream].closed
            &&& after.awake
            &&& before.error is None ==> r is Pending
            &&& before.error is Some ==> (r matches Poll::Ready(Err(x)) && x
                == WriteError::AssociationLost(before.error->0))
        },
        !stream.all_data_read && !stream.finishing && before.inner.streams@.contains_key(
            stream.stream,
        ) && !before.inner.streams@[stream.stream].closed && before.inner.state
            != AssociationState::Established ==> (r matches Poll::Ready(Err(x)) && x
            == WriteError::Error(Error::ErrResetPacketInStateNotExist)) && stream_after == stream
            && after.finishing == before.finishing,
        stream_after.stream == stream.stream && stream_after.all_data_read
            == stream.all_data_read,
{
    let b = choose|b: Result<(), WriteError>| #[trigger]
        begins_finish(before, stream, after, stream_after, b) && r == (match b {
            Ok(_) => finish_answer(
                after,
                if stream.finishing {
                    outcome
                } else {
                    Poll::Pending
                },
            ),
            Err(e) => Poll::Ready(Err(e)),
        });
    if !stream.all_data_read && !stream.finishing && b is Ok {
        let mid = Connection { finishing: before.finishing, ..after };
        law_close_outcome(before.inner, stream.stream, mid.inner, Ok(()), 0);
    }
    if !stream.all_data_read && !stream.finishing && before.inner.streams@.contains_key(
        stream.stream,
    ) && b is Err {
        let e = b->Err_0->Error_0;
        law_close_outcome(before.inner, stream.stream, after.inner, Err(e), 0);
    }
}

/// What comes of waiting for the peer to stop a stream: its code once it has, an error where there is
/// nothing to wait for, and else the wait is noted; nothing else changes.
pub proof fn law_await_stop_outcome(
    before: Connection,
    stream: Stream,
    after: Connection,
    r: Poll<Result<ErrorCauseCode, StoppedError>>,
)
    requires
        awaits_stop(before, stream, after, r),
    ensures
        stream.all_data_read ==> (r matches Poll::Ready(Err(x)) && x == StoppedError::UnknownStream),
        !stream.all_data_read && before.stop_codes@.contains_key(stream.stream) ==> (
        r matches Poll::Ready(Ok(code)) && code == before.stop_codes@[stream.stream]),
        !stream.all_data_read && !before.stop_codes@.contains_key(stream.stream)
            && !before.inner.streams@.contains_key(stream.stream) ==> (
        r matches Poll::Ready(Err(x)) && x == StoppedError::Error(Error::ErrStreamNotExisted)),
        !stream.all_data_read && !before.stop_codes@.contains_key(stream.stream)
            && before.inner.streams@.contains_key(stream.stream) ==> r is Pending && after.stopped@
            == before.stopped@.insert(stream.stream),
        r is Ready ==> after == before,
        after == (Connection { stopped: after.stopped, ..before }),
{
}

/// What comes of reading an exact number of bytes from a stream that can be read: success where the
/// buffer is full, a premature end at a message without data or where the stream was finished, the
/// loss of the association where it is lost, and else a wait.
pub proof fn law_read_exact_outcome(
    before: Connection,
    stream: Stream,
    filled_before: Seq<u8>,
    capacity: nat,
    after: Connection,
    filled: Seq<u8>,
    r: Poll<Result<(), ReadExactError>>,
)
    requires
        reads_exact(before, stream, filled_before, capacity, after, filled, r),
        filled_before.len() < capacity,
        !stream.all_data_read,
        before.inner.streams@.contains_key(stream.stream),
        !before.inner.streams@[stream.stream].closed,
    ensures
        ({
            let q = before.inner.streams@[stream.stream]@.reassembly;
            let f = filling(q, filled_before, capacity);
            &&& filled == f.filled
            &&& f.finished_early ==> (r matches Poll::Ready(Err(e)) && e
                == ReadExactError::FinishedEarly)
            &&& !f.finished_early && f.filled.len() >= capacity ==> (r matches Poll::Ready(Ok(_)))
            &&& !f.finished_early && f.filled.len() < capacity && before.error is Some ==> (
            r matches Poll::Ready(Err(e)) && e == ReadExactError::ReadError(
                ReadError::AssociationLost(before.error->0),
            ))
            &&& !f.finished_early && f.filled.len() < capacity && before.error is None
                && before.finished@.contains(stream.stream) ==> (r matches Poll::Ready(Err(e)) && e
                == ReadExactError::FinishedEarly)
            &&& !f.finished_early && f.filled.len() < capacity && before.error is None
                && !before.finished@.contains(stream.stream) ==> r is Pending
                && after.blocked_readers@ == before.blocked_readers@.insert(stream.stream)
            &&& after.inner.streams@[stream.stream]@.reassembly == f.left
        }),
{
}

/// What comes of reading a stream that can be read to its end: what was gathered, joined, where the
/// stream was finished; that it is too long as soon as it is; the loss of the association where it is
/// lost; and else a wait. What was gathered is kept until then.
pub proof fn law_read_to_end_outcome(
    before: Connection,
    op: ReadToEnd,
    after: Connection,
    op_after: ReadToEnd,
    r: Poll<Result<Vec<u8>, ReadToEndError>>,
)
    requires
        reads_to_end(before, op, after, op_after, r),
        !op.stream.all_data_read,
        before.inner.streams@.contains_key(op.stream.stream),
        !before.inner.streams@[op.stream.stream].closed,
    ensures
        ({
            let q = before.inner.streams@[op.stream.stream]@.reassembly;
            let g = gathering(
                q,
                chunk_contents(op.read@),
                op.size as int,
                op.size_limit as int,
            );
            let over = before.finished@.contains(op.stream.stream);
            &&& g.too_long ==> (r matches Poll::Ready(Err(e)) && e == ReadToEndError::TooLong)
            &&& !g.too_long && before.error is Some ==> (r matches Poll::Ready(Err(e)) && e
                == ReadToEndError::Read(ReadError::AssociationLost(before.error->0)))
            &&& !g.too_long && before.error is None && over ==> (r matches Poll::Ready(Ok(v)) && v@
                == g.read.flatten_alt())
            &&& !g.too_long && before.error is None && !over ==> r is Pending
                && after.blocked_readers@ == before.blocked_readers@.insert(op.stream.stream)
            &&& r is Pending ==> chunk_contents(op_after.read@) == g.read
            &&& op_after.size == g.size
            &&& after.inner.streams@[op.stream.stream]@.reassembly == g.left
        }),
{
    let q = before.inner.streams@[op.stream.stream]@.reassembly;
    let g = gathering(q, chunk_contents(op.read@), op.size as int, op.size_limit as int);
    law_messages_are_joined_in_order(g.read);
}

/// How much was read into a buffer is how much is in it; nothing where there was room for something.
pub proof fn law_amount_read(buf: ReadBuf)
    requires
        read_buf_filled(buf).len() <= usize::MAX,
    ensures
        read_buf_filled(buf).len() > 0 ==> amount_read(buf) is Some && amount_read(buf)->0
            == read_buf_filled(buf).len(),
        read_buf_filled(buf).len() == 0 && read_buf_capacity(buf) > 0 ==> amount_read(buf) is None,
        read_buf_filled(buf).len() == 0 && read_buf_capacity(buf) == 0 ==> amount_read(buf) == Some(
            0usize,
        ),
        read_buf_room(buf) + read_buf_filled(buf).len() == read_buf_capacity(buf),
{
}

/// The contents of chunks, one by one.
pub proof fn law_chunk_contents(chunks: Seq<Chunk>, i: int)
    ensures
        chunk_contents(chunks).len() == chunks.len(),
        0 <= i < chunks.len() ==> chunk_contents(chunks)[i] == bytes_content(chunks[i].bytes),
{
}

/// However far writing all of some messages got, just the first ones are queued, in order, and where
/// it did not get to the end it says why.
pub proof fn law_first_messages_are_queued(
    before: Connection,
    stream: Stream,
    messages: Seq<Seq<u8>>,
    k: int,
    after: Connection,
    r: Poll<Result<(), WriteError>>,
)
    requires
        writes_all(before, stream, messages, k, after, r),
        before.inner.streams@.contains_key(stream.stream) ==> before.inner.streams@[stream.stream].max_payload_size
            > 0,
        0 <= k <= messages.len(),
    ensures
        r is Ready,
        r matches Poll::Ready(Err(_)) ==> k < messages.len() || messages.len() == 0,
        k == 0 ==> after.inner.pending_queue == before.inner.pending_queue,
        k > 0 ==> joined_data(
            chunk_views(after.inner.pending_queue@).skip(before.inner.pending_queue@.len() as int),
        ) == messages.take(k).flatten_alt(),
        k > 0 ==> after.awake,
        after == (Connection { inner: after.inner, awake: after.awake, ..before }),
{
    if messages.len() > 0 && write_obstacle(before, stream) is None {
        match r {
            Poll::Ready(Ok(_)) => {
                law_written_messages_are_queued_in_order(
                    before.inner,
                    stream.stream,
                    messages,
                    k as nat,
                    after.inner,
                );
            },
            _ => {
                let (mid, e) = choose|mid: Association, e: Error|
                    wrote_all(before.inner, stream.stream, messages, k as nat, mid)
                        && #[trigger] written_by_default(
                        mid,
                        stream.stream,
                        messages[k],
                        after.inner,
                        Err(e),
                    );
                law_written_messages_are_queued_in_order(
                    before.inner,
                    stream.stream,
                    messages,
                    k as nat,
                    mid,
                );
            },
        }
    }
}

/// What comes of closing a stream of a connection: it fails where there is no such stream, and changes
/// nothing then. Else the stream is closed. Where that succeeds, which it does on an established
/// association and on a stream that was closed before, whoever sends is woken. Nothing else about the
/// connection changes.
pub proof fn law_connection_close_outcome(
    before: Connection,
    id: u16,
    after: Connection,
    r: Result<(), Error>,
)
    requires
        closes(before, id, after, r),
    ensures
        !before.inner.streams@.contains_key(id) ==> r == Err::<(), Error>(
            Error::ErrStreamNotExisted,
        ) && after == before,
        before.inner.streams@.contains_key(id) ==> after.inner.streams@.contains_key(id)
            && after.inner.streams@[id].closed,
        before.inner.streams@.contains_key(id) && (before.inner.streams@[id].closed
            || before.inner.state == AssociationState::Established) ==> r == Ok::<(), Error>(())
            && after.awake,
        before.inner.streams@.contains_key(id) && !before.inner.streams@[id].closed
            && before.inner.state != AssociationState::Established ==> r == Err::<(), Error>(
            Error::ErrResetPacketInStateNotExist,
        ) && after.awake == before.awake,
        after == (Connection { inner: after.inner, awake: after.awake, ..before }),
{
    if before.inner.streams@.contains_key(id) {
        law_close_outcome(before.inner, id, after.inner, r, 0);
    }
}

} // verus!
