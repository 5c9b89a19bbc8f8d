//! What holds of streams, in terms of their fields and of the chunks that they queue.

use bytes::Bytes;
use vstd::prelude::*;

use crate::association::state::AssociationState;
use crate::association::Association;
use crate::buf::bytes_content;
use crate::chunk::{chunk_views, joined_data, PayloadProtocolIdentifier};
use crate::error::Error;
use crate::queue::laws::law_data_is_joined_in_order;
use crate::queue::reassembly_queue::Chunks;
use crate::shared::Side;
use crate::stream::delivery::lemma_fragments_are_message;
use crate::stream::handle::{
    closed, contents, emptied, lemma_wrote_all_keeps, messages_len, was_read, written,
    written_by_default, wrote_all, wrote_some,
};
use crate::stream::state::{
    lemma_fragment_bounds, reliability_of, ReliabilityType, StreamModel,
    StreamState,
};

verus! {

/// Whether a stream is there and takes data: it was not closed, and the association is not on its
/// way down.
pub open spec fn takes_data(a: Association, id: u16) -> bool {
    &&& a.streams@.contains_key(id)
    &&& !a.streams@[id].closed
    &&& a.state != AssociationState::ShutdownPending
    &&& a.state != AssociationState::ShutdownSent
    &&& a.state != AssociationState::ShutdownReceived
    &&& a.state != AssociationState::ShutdownAckSent
}

/// Each fragment of a message belongs to its stream and to its place among the messages, says what the
/// message carries, and may be delivered out of order just where the stream is set up so, whatever
/// its reliability; messages that set up data channels never may. Nothing has happened to it yet.
pub proof fn law_fragments_carry_the_settings(
    s: StreamModel,
    raw: Seq<u8>,
    ppi: PayloadProtocolIdentifier,
    i: int,
)
    requires
        0 <= i < s.fragments(raw, ppi).len(),
    ensures
        ppi == PayloadProtocolIdentifier::Dcep ==> !s.fragments(raw, ppi)[i].unordered,
        ppi != PayloadProtocolIdentifier::Dcep ==> s.fragments(raw, ppi)[i].unordered
            == s.unordered,
        s.fragments(raw, ppi)[i].stream_identifier == s.stream_identifier,
        s.fragments(raw, ppi)[i].stream_sequence_number == s.sequence_number,
        s.fragments(raw, ppi)[i].payload_type == ppi,
        s.fragments(raw, ppi)[i].tsn == 0,
        !s.fragments(raw, ppi)[i].immediate_sack,
        !s.fragments(raw, ppi)[i].acked,
        s.fragments(raw, ppi)[i].miss_indicator == 0,
        s.fragments(raw, ppi)[i].since is None,
        s.fragments(raw, ppi)[i].nsent == 0,
        !s.fragments(raw, ppi)[i].abandoned,
        !s.fragments(raw, ppi)[i].all_inflight,
        !s.fragments(raw, ppi)[i].retransmit,
{
}

/// A message is cut from the front on: fragment `i` has the bytes from `i` times the maximal payload
/// size on, all fragments but the last are full, and the last has the rest, at least one byte. The
/// first one begins the message and the last one ends it, and no other does. There are just as many
/// as that takes.
pub proof fn law_message_is_cut_from_the_front_on(
    s: StreamModel,
    raw: Seq<u8>,
    ppi: PayloadProtocolIdentifier,
    i: int,
    j: int,
)
    requires
        s.max_payload_size > 0,
    ensures
        raw.len() == 0 ==> s.fragments(raw, ppi).len() == 0,
        raw.len() > 0 ==> s.fragments(raw, ppi).len() > 0,
        0 <= i < s.fragments(raw, ppi).len() ==> {
            let c = s.fragments(raw, ppi)[i];
            let last = i == s.fragments(raw, ppi).len() - 1;
            &&& 0 < c.user_data.len() <= s.max_payload_size
            &&& !last ==> c.user_data.len() == s.max_payload_size
            &&& last ==> i * s.max_payload_size + c.user_data.len() == raw.len()
            &&& 0 <= j < c.user_data.len() ==> 0 <= i * s.max_payload_size + j < raw.len()
                && c.user_data[j] == raw[i * s.max_payload_size + j]
            &&& c.beginning_fragment == (i == 0)
            &&& c.ending_fragment == last
        },
{
    let max = s.max_payload_size as nat;
    if 0 <= i < s.fragments(raw, ppi).len() {
        assert(i <= (raw.len() - 1) / (max as int) ==> i * max <= raw.len() - 1)
            by (nonlinear_arith)
            requires
                max > 0,
                raw.len() > 0,
                i >= 0,
        ;
        assert(0 <= i * max) by (nonlinear_arith)
            requires
                i >= 0,
        ;
        lemma_fragment_bounds(raw.len(), max, i as nat);
    }
}

/// A message that is handed over takes up a sequence number just where it goes out in order, and its
/// bytes are buffered. Nothing else changes about the stream.
pub proof fn law_handing_over_a_message(s: StreamModel, raw: Seq<u8>, ppi: PayloadProtocolIdentifier)
    ensures
        s.unordered && ppi != PayloadProtocolIdentifier::Dcep ==> s.after_packetize(
            raw,
            ppi,
        ).sequence_number == s.sequence_number,
        !s.unordered || ppi == PayloadProtocolIdentifier::Dcep ==> s.after_packetize(
            raw,
            ppi,
        ).sequence_number == (s.sequence_number + 1) % 0x1_0000,
        s.after_packetize(raw, ppi).buffered_amount == s.buffered_amount + raw.len(),
        s.after_packetize(raw, ppi) == (StreamModel {
            sequence_number: s.after_packetize(raw, ppi).sequence_number,
            buffered_amount: s.after_packetize(raw, ppi).buffered_amount,
            ..s
        }),
{
}

/// Bytes that were delivered are not buffered any more: as many as were delivered, or all where more
/// were delivered than are buffered. Nothing else changes about the stream.
pub proof fn law_delivered_bytes_are_released(s: StreamModel, n: int)
    ensures
        0 <= n <= s.buffered_amount ==> s.after_release(n).buffered_amount + n
            == s.buffered_amount,
        n > s.buffered_amount ==> s.after_release(n).buffered_amount == 0,
        n <= 0 ==> s.after_release(n) == s,
        s.after_release(n) == (StreamModel {
            buffered_amount: s.after_release(n).buffered_amount,
            ..s
        }),
{
}

/// A stream that has just been opened sends in order and reliably, counts its messages from zero, and
/// has nothing buffered and nothing to read.
pub proof fn law_opened_stream(
    side: Side,
    id: u16,
    max_payload_size: u32,
    ppi: PayloadProtocolIdentifier,
)
    ensures
        ({
            let s = StreamModel::opened(side, id, max_payload_size, ppi);
            &&& s.side == side
            &&& s.stream_identifier == id
            &&& s.max_payload_size == max_payload_size
            &&& s.default_payload_type == ppi
            &&& s.sequence_number == 0
            &&& !s.closed
            &&& !s.unordered
            &&& s.reliability_type == ReliabilityType::Reliable
            &&& s.reliability_value == 0
            &&& s.buffered_amount == 0
            &&& s.buffered_amount_low == 0
            &&& s.reassembly.si == id
            &&& s.reassembly.next_ssn == 0
            &&& s.reassembly.ordered.len() == 0
            &&& s.reassembly.unordered.len() == 0
            &&& s.reassembly.fragments.len() == 0
        }),
{
}

/// The numbers of the reliability types, and their names.
pub proof fn law_reliability_types(v: u8)
    ensures
        reliability_of(0) == ReliabilityType::Reliable,
        reliability_of(1) == ReliabilityType::Rexmit,
        reliability_of(2) == ReliabilityType::Timed,
        v > 2 ==> reliability_of(v) == ReliabilityType::Reliable,
        ReliabilityType::Reliable.code() == 0,
        ReliabilityType::Rexmit.code() == 1,
        ReliabilityType::Timed.code() == 2,
        ReliabilityType::Reliable.name() == "Reliable"@,
        ReliabilityType::Rexmit.name() == "Rexmit"@,
        ReliabilityType::Timed.name() == "Timed"@,
{
}

/// What comes of a write: a message that is too large is refused first, whatever else holds; then one
/// on a stream that does not take data. Both leave everything as it was. Else an established
/// association takes the message as a whole, and any other refuses it with nothing queued.
pub proof fn law_write_outcome(
    before: Association,
    id: u16,
    raw: Seq<u8>,
    ppi: PayloadProtocolIdentifier,
    after: Association,
    r: Result<usize, Error>,
)
    requires
        written(before, id, raw, ppi, after, r),
    ensures
        raw.len() > before.max_message_size ==> r == Err::<usize, Error>(
            Error::ErrOutboundPacketTooLarge,
        ) && after == before,
        raw.len() <= before.max_message_size && !takes_data(before, id) ==> r == Err::<
            usize,
            Error,
        >(Error::ErrStreamClosed) && after == before,
        raw.len() <= before.max_message_size && takes_data(before, id) && before.state
            == AssociationState::Established ==> r == Ok::<usize, Error>(raw.len() as usize),
        raw.len() <= before.max_message_size && takes_data(before, id) && before.state
            != AssociationState::Established ==> r == Err::<usize, Error>(
            Error::ErrPayloadDataStateNotExist,
        ) && after.pending_queue == before.pending_queue,
        raw.len() <= before.max_message_size && takes_data(before, id)
            ==> after.streams@.contains_key(id) && after.streams@[id]@ == (StreamModel {
            sequence_number: after.streams@[id].sequence_number,
            buffered_amount: before.streams@[id]@.buffered_amount + raw.len(),
            ..before.streams@[id]@
        }) && after.streams@[id].sequence_number == (if before.streams@[id].unordered && ppi
            != PayloadProtocolIdentifier::Dcep {
            before.streams@[id].sequence_number as int
        } else {
            (before.streams@[id].sequence_number + 1) % 0x1_0000
        }),
        forall|other: u16|
            other != id ==> #[trigger] after.streams@.contains_key(other)
                == before.streams@.contains_key(other) && (before.streams@.contains_key(other)
                ==> after.streams@[other] == before.streams@[other]),
        after == (Association {
            pending_queue: after.pending_queue,
            awake_write_loop_ch: after.awake_write_loop_ch,
            streams: after.streams,
            ..before
        }),
{
}

/// A message that was taken is queued behind all that waited before, in chunks that are its fragments;
/// each of them may be delivered out of order just where the stream is set up so and the message does
/// not set up a data channel. The sequence number of the stream goes up just where they may not. The
/// bytes are buffered, and there is work to do.
pub proof fn law_taken_message_is_queued(
    before: Association,
    id: u16,
    raw: Seq<u8>,
    ppi: PayloadProtocolIdentifier,
    after: Association,
    n: usize,
    i: int,
)
    requires
        written(before, id, raw, ppi, after, Ok(n)),
        before.streams@[id].max_payload_size > 0,
    ensures
        n == raw.len(),
        after.pending_queue@.len() >= before.pending_queue@.len(),
        0 <= i < before.pending_queue@.len() ==> after.pending_queue@[i]@
            == before.pending_queue@[i]@,
        before.pending_queue@.len() <= i < after.pending_queue@.len() ==> {
            let c = after.pending_queue@[i];
            &&& c.unordered == (before.streams@[id].unordered && ppi
                != PayloadProtocolIdentifier::Dcep)
            &&& c.stream_identifier == before.streams@[id].stream_identifier
            &&& c.stream_sequence_number == before.streams@[id].sequence_number
            &&& c.payload_type == ppi
            &&& c.beginning_fragment == (i == before.pending_queue@.len())
            &&& c.ending_fragment == (i == after.pending_queue@.len() - 1)
            &&& 0 < bytes_content(c.user_data).len() <= before.streams@[id].max_payload_size
            &&& !c.acked && !c.abandoned && !c.all_inflight && !c.retransmit
        },
        joined_data(
            chunk_views(after.pending_queue@).skip(before.pending_queue@.len() as int),
        ) == raw,
        after.streams@[id].sequence_number == (if before.streams@[id].unordered && ppi
            != PayloadProtocolIdentifier::Dcep {
            before.streams@[id].sequence_number as int
        } else {
            (before.streams@[id].sequence_number + 1) % 0x1_0000
        }),
        after.streams@[id].buffered_amount == before.streams@[id].buffered_amount + raw.len(),
        before.awake_write_loop_ch is Some ==> after.awake_write_loop_ch == Some(true),
{
    let s = before.streams@[id]@;
    let had = chunk_views(before.pending_queue@);
    let queued = s.fragments(raw, ppi);
    let has = chunk_views(after.pending_queue@);
    let m = before.pending_queue@.len() as int;
    assert(has == had + queued);
    assert(had.len() == m && has.len() == after.pending_queue@.len());
    if 0 <= i < m {
        assert(has[i] == had[i]);
        assert(has[i] == after.pending_queue@[i]@ && had[i] == before.pending_queue@[i]@);
    }
    if m <= i < after.pending_queue@.len() {
        assert(has[i] == queued[i - m]);
        assert(has[i] == after.pending_queue@[i]@);
        law_fragments_carry_the_settings(s, raw, ppi, i - m);
        law_message_is_cut_from_the_front_on(s, raw, ppi, i - m, 0);
    }
    assert(has.skip(m) =~= queued);
    if raw.len() > 0 {
        lemma_fragments_are_message(s, raw, ppi);
    } else {
        assert(queued =~= Seq::empty());
        assert(joined_data(queued) =~= raw);
    }
    law_handing_over_a_message(s, raw, ppi);
    assert(after.streams@[id]@ == s.after_packetize(raw, ppi));
}

/// Closing a stream that is open marks it as closed, and where the association is established queues
/// one chunk without data that ends it behind all that waits. A stream that is not there or was closed
/// is left alone. Nothing else changes but that there is work to do.
pub proof fn law_close_outcome(
    before: Association,
    id: u16,
    after: Association,
    r: Result<(), Error>,
    i: int,
)
    requires
        closed(before, id, after, r),
    ensures
        !before.streams@.contains_key(id) || before.streams@[id].closed ==> r == Ok::<(), Error>(())
            && after == before,
        before.streams@.contains_key(id) && !before.streams@[id].closed ==> {
            &&& after.streams@.contains_key(id)
            &&& after.streams@[id]@ == (StreamModel { closed: true, ..before.streams@[id]@ })
            &&& before.state == AssociationState::Established ==> {
                &&& r == Ok::<(), Error>(())
                &&& after.pending_queue@.len() == before.pending_queue@.len() + 1
                &&& after.pending_queue@.last().stream_identifier == id
                &&& bytes_content(after.pending_queue@.last().user_data).len() == 0
                &&& after.pending_queue@.last().beginning_fragment
                &&& after.pending_queue@.last().ending_fragment
                &&& !after.pending_queue@.last().unordered
                &&& !after.pending_queue@.last().immediate_sack
                &&& after.pending_queue@.last().tsn == 0
                &&& after.pending_queue@.last().stream_sequence_number == 0
                &&& after.pending_queue@.last().payload_type == PayloadProtocolIdentifier::Unknown
                &&& !after.pending_queue@.last().acked && !after.pending_queue@.last().abandoned
                &&& !after.pending_queue@.last().all_inflight
                &&& !after.pending_queue@.last().retransmit
                &&& before.awake_write_loop_ch is Some ==> after.awake_write_loop_ch == Some(true)
            }
            &&& before.state != AssociationState::Established ==> {
                &&& r == Err::<(), Error>(Error::ErrResetPacketInStateNotExist)
                &&& after.pending_queue == before.pending_queue
            }
        },
        0 <= i < before.pending_queue@.len() ==> after.pending_queue@[i]@
            == before.pending_queue@[i]@,
        forall|other: u16|
            other != id ==> #[trigger] after.streams@.contains_key(other)
                == before.streams@.contains_key(other) && (before.streams@.contains_key(other)
                ==> after.streams@[other] == before.streams@[other]),
        after == (Association {
            pending_queue: after.pending_queue,
            awake_write_loop_ch: after.awake_write_loop_ch,
            streams: after.streams,
            ..before
        }),
{
    let had = chunk_views(before.pending_queue@);
    let has = chunk_views(after.pending_queue@);
    assert(had.len() == before.pending_queue@.len() && has.len() == after.pending_queue@.len());
    if 0 <= i < before.pending_queue@.len() {
        assert(has[i] == had[i]);
        assert(has[i] == after.pending_queue@[i]@ && had[i] == before.pending_queue@[i]@);
    }
    if has.len() == had.len() + 1 {
        assert(has.last() == after.pending_queue@.last()@);
    }
}

/// What comes of a read: a stream that is not there or was closed is not read. Else what is next in its
/// queue is taken, if there is anything, and nothing else changes.
pub proof fn law_read_outcome(
    before: Association,
    id: u16,
    after: Association,
    r: Result<Option<Chunks>, Error>,
)
    requires
        was_read(before, id, after, r),
    ensures
        !before.streams@.contains_key(id) || before.streams@[id].closed ==> r == Err::<
            Option<Chunks>,
            Error,
        >(Error::ErrStreamClosed) && after == before,
        before.streams@.contains_key(id) && !before.streams@[id].closed ==> {
            let q = before.streams@[id]@.reassembly;
            &&& r is Ok
            &&& r->Ok_0 is Some == q.next_message() is Some
            &&& r->Ok_0 is Some ==> r->Ok_0->0@ == q.next_message()->0
            &&& after.streams@.contains_key(id)
            &&& after.streams@[id]@ == (StreamModel {
                reassembly: q.after_read(),
                ..before.streams@[id]@
            })
        },
        forall|other: u16|
            other != id ==> #[trigger] after.streams@.contains_key(other)
                == before.streams@.contains_key(other) && (before.streams@.contains_key(other)
                ==> after.streams@[other] == before.streams@[other]),
        after == (Association { streams: after.streams, ..before }),
{
}

/// Messages that were written one after the other are queued in that order, each as a whole, behind
/// all that waited before; and none of them was too large.
pub proof fn law_written_messages_are_queued_in_order(
    before: Association,
    id: u16,
    messages: Seq<Seq<u8>>,
    k: nat,
    after: Association,
)
    requires
        before.streams@.contains_key(id),
        before.streams@[id].max_payload_size > 0,
        k <= messages.len(),
        wrote_all(before, id, messages, k, after),
    ensures
        after.pending_queue@.len() >= before.pending_queue@.len(),
        chunk_views(after.pending_queue@).take(before.pending_queue@.len() as int) == chunk_views(
            before.pending_queue@,
        ),
        joined_data(
            chunk_views(after.pending_queue@).skip(before.pending_queue@.len() as int),
        ) == messages.take(k as int).flatten_alt(),
        after.streams@[id].buffered_amount == before.streams@[id].buffered_amount
            + messages.take(k as int).flatten_alt().len(),
        forall|j: int| 0 <= j < k ==> (#[trigger] messages[j]).len() <= before.max_message_size,
    decreases k,
{
    reveal_with_fuel(wrote_all, 2);
    let n = before.pending_queue@.len() as int;
    let had = chunk_views(before.pending_queue@);
    assert(had.len() == n);
    lemma_wrote_all_keeps(before, id, messages, k, after);
    if k == 0 {
        assert(had.take(n) =~= had);
        assert(had.skip(n) =~= Seq::empty());
        assert(messages.take(0) =~= Seq::<Seq<u8>>::empty());
        assert(joined_data(had.skip(n)) =~= messages.take(0).flatten_alt());
    } else {
        let j = (k - 1) as nat;
        let mid = choose|mid: Association|
            wrote_all(before, id, messages, j, mid) && #[trigger] written_by_default(
                mid,
                id,
                messages[j as int],
                after,
                Ok(messages[j as int].len() as usize),
            );
        law_written_messages_are_queued_in_order(before, id, messages, j, mid);
        lemma_wrote_all_keeps(before, id, messages, j, mid);
        let ppi = mid.streams@[id]@.default_payload_type;
        law_taken_message_is_queued(
            mid,
            id,
            messages[j as int],
            ppi,
            after,
            messages[j as int].len() as usize,
            0,
        );
        let then = chunk_views(mid.pending_queue@);
        let now = chunk_views(after.pending_queue@);
        let queued = mid.streams@[id]@.fragments(messages[j as int], ppi);
        assert(now == then + queued);
        assert(then.len() == mid.pending_queue@.len());
        assert(now.take(n) =~= then.take(n));
        assert(now.skip(n) =~= then.skip(n) + queued);
        assert(now.skip(then.len() as int) =~= queued);
        if queued.len() > 0 {
            law_data_is_joined_in_order(then.skip(n), queued, queued[0]);
        } else {
            assert(now.skip(n) =~= then.skip(n));
            assert(joined_data(queued) =~= Seq::<u8>::empty());
        }
        assert(messages.take(k as int).drop_last() =~= messages.take(j as int));
        assert(messages.take(k as int).last() == messages[j as int]);
        assert(joined_data(now.skip(n)) =~= messages.take(k as int).flatten_alt());
    }
}

/// Writing a list of messages goes on up to the first one that cannot be written: either all of them
/// were, or the next one was too large for an association that takes messages, or not even the first
/// one was, and nothing is queued.
pub proof fn law_writing_stops_at_the_first_failure(
    before: Association,
    id: u16,
    messages: Seq<Seq<u8>>,
    after: Association,
    r: Result<usize, Error>,
)
    requires
        before.streams@.contains_key(id),
        before.streams@[id].max_payload_size > 0,
        wrote_some(before, id, messages, after, r),
    ensures
        r matches Ok(k) ==> {
            &&& k <= messages.len()
            &&& k < messages.len() ==> k > 0 && messages[k as int].len() > before.max_message_size
            &&& joined_data(
                chunk_views(after.pending_queue@).skip(before.pending_queue@.len() as int),
            ) == messages.take(k as int).flatten_alt()
        },
        r is Err ==> messages.len() > 0 && after.pending_queue == before.pending_queue,
{
    if let Ok(k) = r {
        if k == messages.len() && wrote_all(before, id, messages, k as nat, after) {
            law_written_messages_are_queued_in_order(before, id, messages, k as nat, after);
        } else {
            let (mid, e) = choose|mid: Association, e: Error|
                wrote_all(before, id, messages, k as nat, mid) && #[trigger] written_by_default(
                    mid,
                    id,
                    messages[k as int],
                    after,
                    Err(e),
                );
            law_written_messages_are_queued_in_order(before, id, messages, k as nat, mid);
            lemma_wrote_all_keeps(before, id, messages, k as nat, mid);
        }
    }
}

/// The contents of buffers, how many bytes they have together, and what is left of them once some are
/// emptied.
pub proof fn law_buffers(bufs: Seq<Bytes>, messages: Seq<Seq<u8>>, offset: int, k: int, i: int)
    ensures
        contents(bufs).len() == bufs.len(),
        0 <= i < bufs.len() ==> contents(bufs)[i] == bytes_content(bufs[i]),
        messages_len(messages) == messages.flatten_alt().len(),
        emptied(messages, offset, k).len() == messages.len(),
        0 <= i < messages.len() && offset <= i < offset + k ==> emptied(messages, offset, k)[i]
            == Seq::<u8>::empty(),
        0 <= i < messages.len() && !(offset <= i < offset + k) ==> emptied(messages, offset, k)[i]
            == messages[i],
{
    lemma_messages_len(messages);
    if 0 <= i < messages.len() && offset <= i < offset + k {
        assert(emptied(messages, offset, k)[i] =~= Seq::<u8>::empty());
    }
}

proof fn lemma_messages_len(messages: Seq<Seq<u8>>)
    ensures
        messages_len(messages) == messages.flatten_alt().len(),
    decreases messages.len(),
{
    if messages.len() > 0 {
        lemma_messages_len(messages.drop_last());
    }
}

/// The value of a stream is that of its parts.
pub proof fn law_value_of_a_stream(s: StreamState)
    ensures
        s@ == (StreamModel {
            side: s.side,
            max_payload_size: s.max_payload_size,
            stream_identifier: s.stream_identifier,
            default_payload_type: s.default_payload_type,
            reassembly: s.reassembly_queue@,
            sequence_number: s.sequence_number,
            closed: s.closed,
            unordered: s.unordered,
            reliability_type: s.reliability_type,
            reliability_value: s.reliability_value,
            buffered_amount: s.buffered_amount as nat,
            buffered_amount_low: s.buffered_amount_low as nat,
        }),
{
}

} // verus!
