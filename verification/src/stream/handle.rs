//! Operations on a stream of an association.

use std::collections::hash_map::Entry;

use bytes::Bytes;
use vstd::prelude::*;

use crate::association::internal::woken;
use crate::association::state::AssociationState;
use crate::association::streams::end_of_stream;
use crate::association::Association;
use crate::buf::bytes_content;
use crate::chunk::{chunk_views, ChunkPayloadData, PayloadProtocolIdentifier};
use crate::error::Error;
use crate::queue::reassembly_queue::Chunks;
use crate::queue::total::{lemma_total_concat, lemma_total_one, total};
use crate::stream::state::{StreamModel, StreamState};

verus! {

/// Stream represents an SCTP stream
pub struct Stream<'a> {
    pub stream_identifier: u16,
    pub association: &'a mut Association,
}

/// Whether `after` is the association `before` with one of its streams changed into `model`, and
/// nothing else.
pub open spec fn changed_stream(
    before: Association,
    id: u16,
    model: StreamModel,
    after: Association,
) -> bool {
    &&& after == (Association { streams: after.streams, ..before })
    &&& after.streams@.dom() == before.streams@.dom().insert(id)
    &&& forall|other: u16| #[trigger]
        before.streams@.contains_key(other) && other != id ==> after.streams@[other]
            == before.streams@[other]
    &&& after.streams@[id]@ == model
}

/// Two changes of a stream, one after the other, are one change.
pub proof fn lemma_changed_again(
    before: Association,
    id: u16,
    model1: StreamModel,
    mid: Association,
    model2: StreamModel,
    after: Association,
)
    requires
        changed_stream(before, id, model1, mid),
        changed_stream(mid, id, model2, after),
    ensures
        changed_stream(before, id, model2, after),
{
    assert(after.streams@.dom() =~= before.streams@.dom().insert(id));
    assert forall|other: u16| #[trigger]
        before.streams@.contains_key(other) && other != id implies after.streams@[other]
        == before.streams@[other] by {
        assert(mid.streams@.contains_key(other));
    }
}

/// A stream that is there is what it is.
pub proof fn lemma_unchanged(a: Association, id: u16)
    requires
        a.streams@.contains_key(id),
    ensures
        changed_stream(a, id, a.streams@[id]@, a),
{
    assert(a.streams@.dom() =~= a.streams@.dom().insert(id));
}

/// Whether a stream is there and has not been closed.
pub open spec fn readable(a: Association, id: u16) -> bool {
    a.streams@.contains_key(id) && !a.streams@[id]@.closed
}

/// The reason, if there is one, why a message of that length is turned away before anything is
/// done with it.
pub open spec fn write_refusal(a: Association, id: u16, len: nat) -> Option<Error> {
    if len > a.max_message_size {
        Some(Error::ErrOutboundPacketTooLarge)
    } else if a.state.shutting_down() || !readable(a, id) {
        Some(Error::ErrStreamClosed)
    } else {
        None
    }
}

/// Whether `after` and `r` are what writing the message `raw` makes of the association `before`.
pub open spec fn written(
    before: Association,
    id: u16,
    raw: Seq<u8>,
    ppi: PayloadProtocolIdentifier,
    after: Association,
    r: Result<usize, Error>,
) -> bool {
    match write_refusal(before, id, raw.len()) {
        Some(e) => r == Err::<usize, Error>(e) && after == before,
        None => {
            let stream = before.streams@[id]@;
            let model = stream.after_packetize(raw, ppi);
            if before.state == AssociationState::Established {
                &&& r == Ok::<usize, Error>(raw.len() as usize)
                &&& changed_stream(
                    Association {
                        pending_queue: after.pending_queue,
                        awake_write_loop_ch: woken(before.awake_write_loop_ch),
                        ..before
                    },
                    id,
                    model,
                    after,
                )
                &&& chunk_views(after.pending_queue@) == chunk_views(before.pending_queue@)
                    + stream.fragments(raw, ppi)
            } else {
                &&& r == Err::<usize, Error>(Error::ErrPayloadDataStateNotExist)
                &&& changed_stream(before, id, model, after)
            }
        },
    }
}

/// Whether `after` and `r` are what writing the message `raw`, with the default payload protocol
/// identifier of the stream, makes of the association `before`.
pub open spec fn written_by_default(
    before: Association,
    id: u16,
    raw: Seq<u8>,
    after: Association,
    r: Result<usize, Error>,
) -> bool {
    if before.streams@.contains_key(id) {
        written(before, id, raw, before.streams@[id]@.default_payload_type, after, r)
    } else {
        r == Err::<usize, Error>(Error::ErrStreamClosed) && after == before
    }
}

/// Whether `after` is what writing the first `k` of the messages, one after the other and each with
/// success, makes of the association `before`.
pub open spec fn wrote_all(
    before: Association,
    id: u16,
    messages: Seq<Seq<u8>>,
    k: nat,
    after: Association,
) -> bool
    decreases k,
{
    if k == 0 {
        after == before
    } else {
        exists|mid: Association|
            wrote_all(before, id, messages, (k - 1) as nat, mid) && #[trigger] written_by_default(
                mid,
                id,
                messages[k - 1],
                after,
                Ok(messages[k - 1].len() as usize),
            )
    }
}

proof fn lemma_wrote_all_next(
    before: Association,
    id: u16,
    messages: Seq<Seq<u8>>,
    k: nat,
    mid: Association,
    after: Association,
)
    requires
        wrote_all(before, id, messages, k, mid),
        written_by_default(
            mid,
            id,
            messages[k as int],
            after,
            Ok(messages[k as int].len() as usize),
        ),
    ensures
        wrote_all(before, id, messages, k + 1, after),
{
    reveal_with_fuel(wrote_all, 2);
    assert(messages[(k + 1) - 1] == messages[k as int]);
}

/// Messages are written to a stream that is there.
proof fn lemma_wrote_to_stream(
    before: Association,
    id: u16,
    messages: Seq<Seq<u8>>,
    k: nat,
    after: Association,
)
    requires
        k > 0,
        wrote_all(before, id, messages, k, after),
    ensures
        before.streams@.contains_key(id),
    decreases k,
{
    reveal_with_fuel(wrote_all, 2);
    let j = (k - 1) as nat;
    let mid = choose|mid: Association|
        wrote_all(before, id, messages, j, mid) && #[trigger] written_by_default(
            mid,
            id,
            messages[j as int],
            after,
            Ok(messages[j as int].len() as usize),
        );
    if j > 0 {
        lemma_wrote_to_stream(before, id, messages, j, mid);
    }
}

/// What stays the same while messages are written, and how much more the stream buffers.
pub proof fn lemma_wrote_all_keeps(
    before: Association,
    id: u16,
    messages: Seq<Seq<u8>>,
    k: nat,
    after: Association,
)
    requires
        wrote_all(before, id, messages, k, after),
        before.streams@.contains_key(id),
        k <= messages.len(),
    ensures
        after.state == before.state,
        after.max_message_size == before.max_message_size,
        after.streams@.contains_key(id),
        after.streams@[id]@.closed == before.streams@[id]@.closed,
        after.streams@[id]@.max_payload_size == before.streams@[id]@.max_payload_size,
        after.streams@[id]@.buffered_amount == before.streams@[id]@.buffered_amount + messages_len(
            messages.take(k as int),
        ),
        k > 0 ==> before.state == AssociationState::Established && readable(before, id),
        forall|j: int|
            0 <= j < k ==> write_refusal(before, id, (#[trigger] messages[j]).len()) is None,
    decreases k,
{
    reveal_with_fuel(wrote_all, 2);
    let size = |m: Seq<u8>| m.len();
    if k > 0 {
        let j = (k - 1) as nat;
        let mid = choose|mid: Association|
            wrote_all(before, id, messages, j, mid) && #[trigger] written_by_default(
                mid,
                id,
                messages[j as int],
                after,
                Ok(messages[j as int].len() as usize),
            );
        lemma_wrote_all_keeps(before, id, messages, j, mid);
        assert(messages.take(k as int) =~= messages.take(j as int) + seq![messages[j as int]]);
        lemma_total_concat(messages.take(j as int), seq![messages[j as int]], size);
        lemma_total_one(messages[j as int], size);
        assert(messages =~= messages.take(k as int) + messages.skip(k as int));
        lemma_total_concat(messages.take(k as int), messages.skip(k as int), size);
    }
}

/// Whether `after` and `r` are what writing messages up to the first that fails makes of the
/// association `before`: how many were written, or why the first one was not.
pub open spec fn wrote_some(
    before: Association,
    id: u16,
    messages: Seq<Seq<u8>>,
    after: Association,
    r: Result<usize, Error>,
) -> bool {
    match r {
        Ok(k) => {
            ||| k == messages.len() && wrote_all(before, id, messages, k as nat, after)
            ||| 0 < k < messages.len() && exists|mid: Association, e: Error|
                wrote_all(before, id, messages, k as nat, mid) && #[trigger] written_by_default(
                    mid,
                    id,
                    messages[k as int],
                    after,
                    Err(e),
                )
        },
        Err(e) => messages.len() > 0 && written_by_default(before, id, messages[0], after, Err(e)),
    }
}

/// The contents of a list of buffers.
pub open spec fn contents(bufs: Seq<Bytes>) -> Seq<Seq<u8>> {
    bufs.map_values(|b: Bytes| bytes_content(b))
}

/// The messages with `k` of them emptied from `offset` on.
pub open spec fn emptied(messages: Seq<Seq<u8>>, offset: int, k: int) -> Seq<Seq<u8>> {
    Seq::new(
        messages.len(),
        |i: int|
            if offset <= i < offset + k {
                Seq::<u8>::empty()
            } else {
                messages[i]
            },
    )
}

/// The number of bytes in a list of messages.
pub open spec fn messages_len(messages: Seq<Seq<u8>>) -> nat {
    total(messages, |m: Seq<u8>| m.len())
}

/// Whether `after` and `r` are what closing the stream makes of the association `before`.
pub open spec fn closed(
    before: Association,
    id: u16,
    after: Association,
    r: Result<(), Error>,
) -> bool {
    if !readable(before, id) {
        r == Ok::<(), Error>(()) && after == before
    } else {
        let model = StreamModel { closed: true, ..before.streams@[id]@ };
        if before.state == AssociationState::Established {
            &&& r == Ok::<(), Error>(())
            &&& changed_stream(
                Association {
                    pending_queue: after.pending_queue,
                    awake_write_loop_ch: woken(before.awake_write_loop_ch),
                    ..before
                },
                id,
                model,
                after,
            )
            &&& chunk_views(after.pending_queue@) == chunk_views(before.pending_queue@).push(
                end_of_stream(id),
            )
        } else {
            &&& r == Err::<(), Error>(Error::ErrResetPacketInStateNotExist)
            &&& changed_stream(before, id, model, after)
        }
    }
}

/// Whether `after` and `r` are what reading from the stream makes of the association `before`.
pub open spec fn was_read(
    before: Association,
    id: u16,
    after: Association,
    r: Result<Option<Chunks>, Error>,
) -> bool {
    if !readable(before, id) {
        r == Err::<Option<Chunks>, Error>(Error::ErrStreamClosed) && after == before
    } else {
        let stream = before.streams@[id]@;
        &&& match r {
            Ok(Some(m)) => stream.reassembly.next_message() == Some(m@),
            Ok(None) => stream.reassembly.next_message() is None,
            Err(_) => false,
        }
        &&& changed_stream(
            before,
            id,
            StreamModel { reassembly: stream.reassembly.after_read(), ..stream },
            after,
        )
    }
}

/// Whether the stream, if it takes a message of that length at all, has room for it, and cuts it into
/// fragments that are not empty.
pub open spec fn has_room(a: Association, id: u16, len: nat) -> bool {
    write_refusal(a, id, len) is None ==> {
        &&& a.streams@[id]@.buffered_amount + len <= usize::MAX
        &&& a.streams@[id]@.max_payload_size > 0 || len == 0
    }
}

/// Whether writing messages up to the first that fails gets to the one at `k`, and that one is not
/// turned away.
pub open spec fn gets_to(a: Association, id: u16, messages: Seq<Seq<u8>>, k: int) -> bool {
    &&& 0 <= k < messages.len()
    &&& forall|j: int|
        0 <= j <= k ==> write_refusal(a, id, (#[trigger] messages[j]).len()) is None
    &&& k > 0 ==> a.state == AssociationState::Established
}

/// Whether the stream has room for as many of the messages as it takes when they are written one
/// after the other up to the first that fails.
pub open spec fn has_room_for_each(a: Association, id: u16, messages: Seq<Seq<u8>>) -> bool {
    forall|k: int| #[trigger]
        gets_to(a, id, messages, k) ==> {
            &&& a.streams@[id]@.buffered_amount + messages_len(messages.take(k + 1)) <= usize::MAX
            &&& a.streams@[id]@.max_payload_size > 0 || messages[k].len() == 0
        }
}

/// After some of the messages were written, there is room for the rest.
pub proof fn lemma_room_for_rest(
    before: Association,
    id: u16,
    messages: Seq<Seq<u8>>,
    n: nat,
    after: Association,
)
    requires
        n <= messages.len(),
        has_room_for_each(before, id, messages),
        wrote_all(before, id, messages, n, after),
    ensures
        has_room_for_each(after, id, messages.skip(n as int)),
        n < messages.len() ==> has_room(after, id, messages[n as int].len()),
{
    let rest = messages.skip(n as int);
    let size = |m: Seq<u8>| m.len();
    if n > 0 {
        lemma_wrote_to_stream(before, id, messages, n, after);
        lemma_wrote_all_keeps(before, id, messages, n, after);
    } else {
        assert(messages.take(0) =~= Seq::<Seq<u8>>::empty());
        assert(rest =~= messages);
    }
    assert forall|k: int| #[trigger] gets_to(after, id, rest, k) implies {
        &&& after.streams@[id]@.buffered_amount + messages_len(rest.take(k + 1)) <= usize::MAX
        &&& after.streams@[id]@.max_payload_size > 0 || rest[k].len() == 0
    } by {
        assert forall|j: int| 0 <= j <= n + k implies write_refusal(
            before,
            id,
            (#[trigger] messages[j]).len(),
        ) is None by {
            if j >= n {
                assert(rest[j - n] == messages[j]);
            }
        }
        assert(gets_to(before, id, messages, n + k));
        assert(messages.take(n + k + 1) =~= messages.take(n as int) + rest.take(k + 1));
        lemma_total_concat(messages.take(n as int), rest.take(k + 1), size);
    }
    if n < messages.len() && write_refusal(after, id, messages[n as int].len()) is None {
        assert(gets_to(after, id, rest, 0)) by {
            assert(rest[0] == messages[n as int]);
        }
        assert(rest.take(1) =~= seq![messages[n as int]]);
        lemma_total_one(messages[n as int], size);
    }
}

/// That the parts of an association fit together.
#[verifier::opaque]
spec fn sound(a: Association) -> bool {
    a.wf()
}

impl<'a> Stream<'a> {
    /// read reads a message, dropping the Payload Protocol Identifier. There is none where the
    /// stream has no whole message that is next in order.
    pub fn read(&mut self) -> (r: Result<Option<Chunks>, Error>)
        requires
            readable(*old(self).association, old(self).stream_identifier) ==> old(
                self,
            ).association.streams@[old(self).stream_identifier].wf(),
        ensures
            final(self).stream_identifier == old(self).stream_identifier,
            *final(final(self).association) == *final(old(self).association),
            old(self).association.wf() ==> final(self).association.wf(),
            was_read(
                *old(self).association,
                old(self).stream_identifier,
                *final(self).association,
                r,
            ),
    {
        self.read_sctp()
    }

    /// read_sctp reads a message with its Payload Protocol Identifier. There is none where the
    /// stream has no whole message that is next in order.
    pub fn read_sctp(&mut self) -> (r: Result<Option<Chunks>, Error>)
        requires
            readable(*old(self).association, old(self).stream_identifier) ==> old(
                self,
            ).association.streams@[old(self).stream_identifier].wf(),
        ensures
            final(self).stream_identifier == old(self).stream_identifier,
            *final(final(self).association) == *final(old(self).association),
            old(self).association.wf() ==> final(self).association.wf(),
            was_read(
                *old(self).association,
                old(self).stream_identifier,
                *final(self).association,
                r,
            ),
    {
        if !self.association.is_readable(self.stream_identifier) {
            return Err(Error::ErrStreamClosed);
        }
        Ok(self.association.read_message(self.stream_identifier))
    }

    /// write writes the bytes from p with the default Payload Protocol Identifier
    pub fn write(&mut self, p: &Bytes) -> (r: Result<usize, Error>)
        requires
            has_room(
                *old(self).association,
                old(self).stream_identifier,
                bytes_content(*p).len(),
            ),
        ensures
            final(self).stream_identifier == old(self).stream_identifier,
            *final(final(self).association) == *final(old(self).association),
            old(self).association.wf() ==> final(self).association.wf(),
            written_by_default(
                *old(self).association,
                old(self).stream_identifier,
                bytes_content(*p),
                *final(self).association,
                r,
            ),
    {
        broadcast use vstd::std_specs::hash::group_hash_axioms;

        let default_payload_type: PayloadProtocolIdentifier =
            match self.association.streams.get(&self.stream_identifier) {
            Some(s) => s.default_payload_type,
            None => {
                return Err(Error::ErrStreamClosed);
            },
        };
        self.write_sctp(p, default_payload_type)
    }

    /// write_sctp writes the bytes from p to the DTLS connection
    pub fn write_sctp(&mut self, p: &Bytes, ppi: PayloadProtocolIdentifier) -> (r: Result<
        usize,
        Error,
    >)
        requires
            has_room(
                *old(self).association,
                old(self).stream_identifier,
                bytes_content(*p).len(),
            ),
        ensures
            final(self).stream_identifier == old(self).stream_identifier,
            *final(final(self).association) == *final(old(self).association),
            old(self).association.wf() ==> final(self).association.wf(),
            written(
                *old(self).association,
                old(self).stream_identifier,
                bytes_content(*p),
                ppi,
                *final(self).association,
                r,
            ),
    {
        if p.len() > self.association.max_message_size() as usize {
            return Err(Error::ErrOutboundPacketTooLarge);
        }
        match self.association.get_state() {
            AssociationState::ShutdownSent
            | AssociationState::ShutdownAckSent
            | AssociationState::ShutdownPending
            | AssociationState::ShutdownReceived => {
                return Err(Error::ErrStreamClosed);
            },
            _ => {},
        }
        self.association.write_message(self.stream_identifier, p, ppi)
    }

    /// Writes one of some chunks as a message, and empties it where it was written.
    fn write_chunk(&mut self, bufs: &mut [Bytes], at: usize) -> (r: Result<(), Error>)
        requires
            at < old(bufs)@.len(),
            has_room(
                *old(self).association,
                old(self).stream_identifier,
                contents(old(bufs)@)[at as int].len(),
            ),
        ensures
            final(self).stream_identifier == old(self).stream_identifier,
            *final(final(self).association) == *final(old(self).association),
            sound(*old(self).association) ==> sound(*final(self).association),
            written_by_default(
                *old(self).association,
                old(self).stream_identifier,
                contents(old(bufs)@)[at as int],
                *final(self).association,
                match r {
                    Ok(_) => Ok(contents(old(bufs)@)[at as int].len() as usize),
                    Err(e) => Err(e),
                },
            ),
            contents(final(bufs)@) == (match r {
                Ok(_) => contents(old(bufs)@).update(at as int, Seq::empty()),
                Err(_) => contents(old(bufs)@),
            }),
    {
        reveal(sound);
        match self.write(&bufs[at]) {
            Ok(_) => {
                let blank: Bytes = Bytes::new();
                bufs[at] = blank;
                assert(contents(bufs@) =~= contents(old(bufs)@).update(at as int, Seq::empty()));
                Ok(())
            },
            Err(e) => Err(e),
        }
    }

    /// Writes the chunks from `offset` on, each as a message, up to the first that cannot be
    /// written, and empties those that it wrote.
    ///
    /// Yields how many chunks it wrote, or, where it wrote none, what stopped it.
    pub fn write_chunks(&mut self, bufs: &mut [Bytes], offset: usize) -> (r: Result<usize, Error>)
        requires
            offset <= old(bufs)@.len(),
            has_room_for_each(
                *old(self).association,
                old(self).stream_identifier,
                contents(old(bufs)@).skip(offset as int),
            ),
        ensures
            final(self).stream_identifier == old(self).stream_identifier,
            *final(final(self).association) == *final(old(self).association),
            old(self).association.wf() ==> final(self).association.wf(),
            wrote_some(
                *old(self).association,
                old(self).stream_identifier,
                contents(old(bufs)@).skip(offset as int),
                *final(self).association,
                r,
            ),
            contents(final(bufs)@) == emptied(
                contents(old(bufs)@),
                offset as int,
                match r {
                    Ok(k) => k as int,
                    Err(_) => 0,
                },
            ),
    {
        let ghost all = contents(bufs@);
        let ghost id = self.stream_identifier;
        let ghost messages = all.skip(offset as int);
        let ghost start = *self.association;
        reveal(sound);
        let n: usize = bufs.len();
        let mut k: usize = 0;
        assert(messages.skip(0) =~= messages);
        assert(contents(bufs@) =~= emptied(all, offset as int, 0));
        while k < n - offset
            invariant
                id == self.stream_identifier == old(self).stream_identifier,
                *final(self.association) == *final(old(self).association),
                start == *old(self).association,
                sound(start) ==> sound(*self.association),
                n == bufs@.len() == all.len(),
                offset <= n,
                k <= n - offset,
                messages == all.skip(offset as int),
                all == contents(old(bufs)@),
                contents(bufs@) == emptied(all, offset as int, k as int),
                wrote_all(start, id, messages, k as nat, *self.association),
                has_room_for_each(start, id, messages),
            decreases n - offset - k,
        {
            let ghost before = *self.association;
            proof {
                assert(contents(bufs@)[offset + k] == messages[k as int]);
                lemma_room_for_rest(start, id, messages, k as nat, before);
            }
            match self.write_chunk(bufs, offset + k) {
                Ok(_) => {
                    proof {
                        lemma_wrote_all_next(
                            start,
                            id,
                            messages,
                            k as nat,
                            before,
                            *self.association,
                        );
                        assert(contents(bufs@) =~= emptied(all, offset as int, k + 1));
                    }
                },
                Err(e) => {
                    assert(start.wf() ==> self.association.wf()) by {
                        reveal(sound);
                    }
                    if k == 0 {
                        return Err(e);
                    }
                    assert(contents(bufs@) =~= emptied(all, offset as int, k as int));
                    return Ok(k);
                },
            }
            k += 1;
        }
        Ok(k)
    }

    /// Whether the stream is closed, or not there at all.
    pub fn is_closed(&self) -> (r: bool)
        ensures
            r == !readable(*old(self.association), self.stream_identifier),
    {
        !self.association.is_readable(self.stream_identifier)
    }

    /// The state of the stream.
    pub fn state(&self) -> (r: &StreamState)
        requires
            self.association.streams@.contains_key(self.stream_identifier),
        ensures
            *r == old(self.association).streams@[self.stream_identifier],
    {
        broadcast use vstd::std_specs::hash::group_hash_axioms;

        self.association.streams.get(&self.stream_identifier).unwrap()
    }

    /// The state of the stream, to be changed.
    pub fn state_mut<'b>(&'b mut self) -> (r: &'b mut StreamState)
        requires
            old(self).association.streams@.contains_key(old(self).stream_identifier),
        ensures
            final(self).stream_identifier == old(self).stream_identifier,
            *final(final(self).association) == *final(old(self).association),
            *r == old(self).association.streams@[old(self).stream_identifier],
            *final(self).association == (Association {
                streams: final(self).association.streams,
                ..*old(self).association
            }),
            final(self).association.streams@ == old(self).association.streams@.insert(
                old(self).stream_identifier,
                *final(r),
            ),
    {
        broadcast use vstd::std_specs::hash::group_hash_axioms;

        match self.association.streams.entry(self.stream_identifier) {
            Entry::Occupied(e) => e.into_mut(),
            Entry::Vacant(e) => {
                assert(false);
                e.insert(StreamState::default())
            },
        }
    }

    /// Close closes the write-direction of the stream.
    /// Future calls to write are not permitted after calling Close.
    pub fn close(&mut self) -> (r: Result<(), Error>)
        ensures
            final(self).stream_identifier == old(self).stream_identifier,
            *final(final(self).association) == *final(old(self).association),
            old(self).association.wf() ==> final(self).association.wf(),
            closed(
                *old(self).association,
                old(self).stream_identifier,
                *final(self).association,
                r,
            ),
    {
        if !self.association.is_readable(self.stream_identifier) {
            return Ok(());
        }
        // Reset the outgoing stream
        // https://tools.ietf.org/html/rfc6525
        self.association.close_stream(self.stream_identifier)
    }
}

impl Association {
    /// Whether a stream is there and has not been closed.
    pub fn is_readable(&self, id: u16) -> (r: bool)
        ensures
            r == readable(*self, id),
    {
        broadcast use vstd::std_specs::hash::group_hash_axioms;

        match self.streams.get(&id) {
            Some(s) => !s.closed,
            None => false,
        }
    }

    /// Takes the next message of a stream that is open for reading.
    fn read_message(&mut self, id: u16) -> (r: Option<Chunks>)
        requires
            old(self).streams@[id].wf(),
            readable(*old(self), id),
        ensures
            old(self).wf() ==> final(self).wf(),
            was_read(*old(self), id, *final(self), Ok(r)),
    {
        broadcast use vstd::std_specs::hash::group_hash_axioms;

        let mut r: Option<Chunks> = None;
        let removed: Option<StreamState> = self.streams.remove(&id);
        if let Some(s) = removed {
            let mut s: StreamState = s;
            r = s.reassembly_queue.read();
            self.streams.insert(id, s);
            assert(self.streams@ =~= old(self).streams@.insert(id, s));
        }
        assert(*self == (Association { streams: self.streams, ..*old(self) }));
        r
    }

    /// Discards what a stream holds that was not read.
    pub fn discard_unread(&mut self, id: u16)
        requires
            old(self).streams@.contains_key(id),
        ensures
            old(self).wf() ==> final(self).wf(),
            changed_stream(
                *old(self),
                id,
                StreamModel {
                    reassembly: old(self).streams@[id]@.reassembly.discarded(),
                    ..old(self).streams@[id]@
                },
                *final(self),
            ),
    {
        broadcast use vstd::std_specs::hash::group_hash_axioms;

        let removed: Option<StreamState> = self.streams.remove(&id);
        if let Some(s) = removed {
            let mut s: StreamState = s;
            s.reassembly_queue.discard();
            self.streams.insert(id, s);
            assert(self.streams@ =~= old(self).streams@.insert(id, s));
        }
        assert(*self == (Association { streams: self.streams, ..*old(self) }));
    }

    /// Hands a message to a stream, and its fragments to the queue of what is to be sent.
    fn write_message(&mut self, id: u16, p: &Bytes, ppi: PayloadProtocolIdentifier) -> (r: Result<
        usize,
        Error,
    >)
        requires
            has_room(*old(self), id, bytes_content(*p).len()),
            bytes_content(*p).len() <= old(self).max_message_size,
            !old(self).state.shutting_down(),
        ensures
            old(self).wf() ==> final(self).wf(),
            written(*old(self), id, bytes_content(*p), ppi, *final(self), r),
    {
        if !self.is_readable(id) {
            return Err(Error::ErrStreamClosed);
        }
        let chunks: Vec<ChunkPayloadData> = self.packetize_message(id, p, ppi);
        let ghost sent = chunk_views(chunks@);
        let ghost before = *self;
        match self.send_payload_data(chunks) {
            Ok(_) => {
                assert(chunk_views(self.pending_queue@) =~= chunk_views(before.pending_queue@) + sent);
                Ok(p.len())
            },
            Err(e) => Err(e),
        }
    }

    /// Hands a message to a stream.
    fn packetize_message(&mut self, id: u16, p: &Bytes, ppi: PayloadProtocolIdentifier) -> (r: Vec<
        ChunkPayloadData,
    >)
        requires
            write_refusal(*old(self), id, bytes_content(*p).len()) is None,
            has_room(*old(self), id, bytes_content(*p).len()),
        ensures
            old(self).wf() ==> final(self).wf(),
            changed_stream(
                *old(self),
                id,
                old(self).streams@[id]@.after_packetize(bytes_content(*p), ppi),
                *final(self),
            ),
            chunk_views(r@) == old(self).streams@[id]@.fragments(bytes_content(*p), ppi),
    {
        broadcast use vstd::std_specs::hash::group_hash_axioms;

        let mut chunks: Vec<ChunkPayloadData> = Vec::new();
        let removed: Option<StreamState> = self.streams.remove(&id);
        if let Some(s) = removed {
            let mut s: StreamState = s;
            chunks = s.packetize(p, ppi);
            self.streams.insert(id, s);
            assert(self.streams@ =~= old(self).streams@.insert(id, s));
        }
        assert(*self == (Association { streams: self.streams, ..*old(self) }));
        chunks
    }

    /// Marks a stream as closed.
    fn mark_closed(&mut self, id: u16)
        requires
            old(self).streams@.contains_key(id),
        ensures
            old(self).wf() ==> final(self).wf(),
            changed_stream(
                *old(self),
                id,
                StreamModel { closed: true, ..old(self).streams@[id]@ },
                *final(self),
            ),
    {
        broadcast use vstd::std_specs::hash::group_hash_axioms;

        let removed: Option<StreamState> = self.streams.remove(&id);
        if let Some(s) = removed {
            let mut s: StreamState = s;
            s.closed = true;
            self.streams.insert(id, s);
            assert(self.streams@ =~= old(self).streams@.insert(id, s));
        }
        assert(*self == (Association { streams: self.streams, ..*old(self) }));
    }

    /// Closes a stream that is open, and asks for its reset.
    fn close_stream(&mut self, id: u16) -> (r: Result<(), Error>)
        requires
            readable(*old(self), id),
        ensures
            old(self).wf() ==> final(self).wf(),
            closed(*old(self), id, *final(self), r),
    {
        self.mark_closed(id);
        self.send_reset_request(id)
    }
}

/// Closing a stream that was closed before has no effect.
pub proof fn law_close_is_idempotent(
    before: Association,
    id: u16,
    mid: Association,
    r1: Result<(), Error>,
    after: Association,
    r2: Result<(), Error>,
)
    requires
        closed(before, id, mid, r1),
        closed(mid, id, after, r2),
    ensures
        after == mid,
        r2 == Ok::<(), Error>(()),
{
}

/// Nothing is read from a stream that was closed, even where the peer could not be told.
pub proof fn law_closed_stream_is_not_read(
    before: Association,
    id: u16,
    mid: Association,
    r1: Result<(), Error>,
    after: Association,
    r2: Result<Option<Chunks>, Error>,
)
    requires
        closed(before, id, mid, r1),
        was_read(mid, id, after, r2),
    ensures
        after == mid,
        r2 == Err::<Option<Chunks>, Error>(Error::ErrStreamClosed),
{
}

/// A message that is turned away, for whatever reason, sends nothing: what waits to be sent stays
/// as it is.
pub proof fn law_refused_write_sends_nothing(
    before: Association,
    id: u16,
    raw: Seq<u8>,
    ppi: PayloadProtocolIdentifier,
    after: Association,
    e: Error,
)
    requires
        written(before, id, raw, ppi, after, Err(e)),
    ensures
        after.pending_queue == before.pending_queue,
        after.awake_write_loop_ch == before.awake_write_loop_ch,
{
}

/// A write is taken just where the message is not too large, the association is established and the
/// stream is there and has not been closed.
pub proof fn law_when_writes_are_taken(
    before: Association,
    id: u16,
    raw: Seq<u8>,
    ppi: PayloadProtocolIdentifier,
    after: Association,
    r: Result<usize, Error>,
)
    requires
        written(before, id, raw, ppi, after, r),
    ensures
        r is Ok <==> raw.len() <= before.max_message_size && before.state
            == AssociationState::Established && readable(before, id),
{
}

/// Writing is not permitted any more once a stream was closed, even where the peer could not be
/// told.
pub proof fn law_closed_stream_is_not_written(
    before: Association,
    id: u16,
    mid: Association,
    r1: Result<(), Error>,
    raw: Seq<u8>,
    ppi: PayloadProtocolIdentifier,
    after: Association,
    r2: Result<usize, Error>,
)
    requires
        closed(before, id, mid, r1),
        written(mid, id, raw, ppi, after, r2),
    ensures
        after == mid,
        r2 is Err,
        raw.len() <= mid.max_message_size ==> r2 == Err::<usize, Error>(Error::ErrStreamClosed),
{
}

/// Future writes are not permitted after closing a stream, whatever the payload protocol identifier
/// that they go by: the association stays as it is.
pub proof fn law_closed_stream_takes_no_message(
    before: Association,
    id: u16,
    mid: Association,
    r1: Result<(), Error>,
    raw: Seq<u8>,
    after: Association,
    r2: Result<usize, Error>,
)
    requires
        closed(before, id, mid, r1),
        written_by_default(mid, id, raw, after, r2),
    ensures
        after == mid,
        r2 is Err,
        raw.len() <= mid.max_message_size ==> r2 == Err::<usize, Error>(Error::ErrStreamClosed),
{
}

/// A write goes by the default payload protocol identifier of the stream: it does what a write with
/// that identifier does, and all that it queues carries it. Where there is no such stream, it fails
/// whatever the size of the message.
pub proof fn law_write_goes_by_the_default(
    before: Association,
    id: u16,
    raw: Seq<u8>,
    after: Association,
    r: Result<usize, Error>,
)
    requires
        written_by_default(before, id, raw, after, r),
    ensures
        before.streams@.contains_key(id) ==> written(
            before,
            id,
            raw,
            before.streams@[id]@.default_payload_type,
            after,
            r,
        ),
        !before.streams@.contains_key(id) ==> r == Err::<usize, Error>(Error::ErrStreamClosed)
            && after == before,
        forall|i: int|
            before.pending_queue@.len() <= i < after.pending_queue@.len() ==> (
            #[trigger] chunk_views(after.pending_queue@)[i]).payload_type
                == before.streams@[id]@.default_payload_type,
{
    if r is Ok {
        let ppi = before.streams@[id]@.default_payload_type;
        let queued = before.streams@[id]@.fragments(raw, ppi);
        let had = chunk_views(before.pending_queue@);
        assert forall|i: int|
            before.pending_queue@.len() <= i < after.pending_queue@.len() implies (
        #[trigger] chunk_views(after.pending_queue@)[i]).payload_type == ppi by {
            assert(chunk_views(after.pending_queue@) == had + queued);
            assert(chunk_views(after.pending_queue@).len() == after.pending_queue@.len());
            assert((had + queued)[i] == queued[i - had.len()]);
        }
    }
}

} // verus!
