//! Giving up what a stream has sent.

use std::collections::VecDeque;
use vstd::prelude::*;

use crate::association::Association;
use crate::chunk::{chunk_views, ChunkPayloadData, DataChunk};
use crate::queue::payload_queue::{given_up_with, marked_to_retransmit};
use crate::queue::reassembly_queue::lemma_filter_take;
use crate::queue::total::total;
use crate::stream::handle::changed_stream;
use crate::stream::state::StreamState;

verus! {

/// Whether a chunk is kept when the data of a stream is dropped: it belongs to another stream, or
/// it has no data.
pub open spec fn is_kept(c: DataChunk, id: u16) -> bool {
    c.stream_identifier != id || c.user_data.len() == 0
}

/// The chunks that are kept when the data of a stream is dropped.
pub open spec fn kept_chunks(chunks: Seq<DataChunk>, id: u16) -> Seq<DataChunk> {
    chunks.filter(keeps(id))
}

/// Whether a chunk is kept, as a function.
pub open spec fn keeps(id: u16) -> spec_fn(DataChunk) -> bool {
    |c: DataChunk| is_kept(c, id)
}

/// How much of the data of a stream is dropped with some chunks.
pub open spec fn dropped_bytes(chunks: Seq<DataChunk>, id: u16) -> nat {
    total(chunks, drops(id))
}

/// How much is dropped with a chunk, as a function.
pub open spec fn drops(id: u16) -> spec_fn(DataChunk) -> nat {
    |c: DataChunk|
        if is_kept(c, id) {
            0
        } else {
            c.user_data.len()
        }
}

/// Whether `after` is the association `before` once it gave up the data of a stream: what waits to
/// be sent is dropped and not buffered any more, and what is in flight is not sent again. A chunk
/// that ends the stream stays.
pub open spec fn gave_up_stream(before: Association, id: u16, after: Association) -> bool {
    let stream = before.streams@[id]@;
    &&& chunk_views(after.pending_queue@) == kept_chunks(chunk_views(before.pending_queue@), id)
    &&& after.inflight_queue@ == before.inflight_queue@.map_values(
        |c: DataChunk| given_up_with(c, id),
    )
    &&& changed_stream(
        Association {
            pending_queue: after.pending_queue,
            inflight_queue: after.inflight_queue,
            ..before
        },
        id,
        stream.after_release(dropped_bytes(chunk_views(before.pending_queue@), id) as int),
        after,
    )
}

/// The number, or the greatest that there is where it is greater.
pub open spec fn capped(n: nat) -> nat {
    if n <= usize::MAX {
        n
    } else {
        usize::MAX as nat
    }
}

/// Drops the data of a stream from what waits to be sent. Yields how much that was, or as much of
/// that as can be counted.
fn drop_chunks(pending: &mut VecDeque<ChunkPayloadData>, id: u16) -> (r: usize)
    ensures
        chunk_views(final(pending)@) == kept_chunks(chunk_views(old(pending)@), id),
        r == capped(dropped_bytes(chunk_views(old(pending)@), id)),
{
    let ghost chunks = pending@;
    let ghost all = chunk_views(chunks);
    let mut kept: VecDeque<ChunkPayloadData> = VecDeque::new();
    let mut dropped: usize = 0;
    let ghost mut k: int = 0;
    proof {
        reveal(Seq::filter);
        assert(all.take(0).filter(keeps(id)) =~= Seq::<DataChunk>::empty());
        assert(chunk_views(kept@) =~= Seq::<DataChunk>::empty());
        assert(chunks.skip(0) =~= chunks);
        assert(total(all.take(0), drops(id)) == 0);
    }
    loop
        invariant
            chunks == old(pending)@,
            all == chunk_views(chunks),
            0 <= k <= all.len(),
            pending@ == chunks.skip(k),
            chunk_views(kept@) == all.take(k).filter(keeps(id)),
            dropped == capped(total(all.take(k), drops(id))),
        decreases pending@.len(),
    {
        match pending.pop_front() {
            Some(chunk) => {
                proof {
                    assert(chunk == chunks[k]);
                    assert(all[k] == chunk@);
                    assert(pending@ =~= chunks.skip(k + 1));
                    lemma_filter_take(all, k, keeps(id));
                    assert(all.take(k + 1).drop_last() =~= all.take(k));
                    assert(all.take(k + 1).last() == chunk@);
                }
                if chunk.stream_identifier != id || chunk.user_data.len() == 0 {
                    let ghost before = chunk_views(kept@);
                    kept.push_back(chunk);
                    assert(chunk_views(kept@) =~= before.push(chunk@));
                } else {
                    dropped = dropped.saturating_add(chunk.user_data.len());
                }
                proof {
                    k = k + 1;
                }
            },
            None => {
                assert(all.take(k) =~= all);
                *pending = kept;
                return dropped;
            },
        }
    }
}

impl Association {
    /// Gives up the data of a stream.
    pub fn give_up_stream(&mut self, id: u16)
        requires
            old(self).inflight_queue.wf(),
            old(self).streams@.contains_key(id),
        ensures
            final(self).inflight_queue.wf(),
            old(self).wf() ==> final(self).wf(),
            gave_up_stream(*old(self), id, *final(self)),
    {
        let dropped: usize = drop_chunks(&mut self.pending_queue, id);
        assert(*self == (Association { pending_queue: self.pending_queue, ..*old(self) }));
        let ghost mid = *self;
        self.inflight_queue.give_up_stream(id);
        assert(*self == (Association { inflight_queue: self.inflight_queue, ..mid }));
        self.release_buffer(id, dropped);
    }

    /// Notes that a stream does not buffer that many bytes any more.
    fn release_buffer(&mut self, id: u16, n: usize)
        requires
            old(self).streams@.contains_key(id),
        ensures
            old(self).wf() ==> final(self).wf(),
            changed_stream(
                *old(self),
                id,
                old(self).streams@[id]@.after_release(n as int),
                *final(self),
            ),
    {
        broadcast use vstd::std_specs::hash::group_hash_axioms;

        let removed: Option<StreamState> = self.streams.remove(&id);
        if let Some(s) = removed {
            let mut s: StreamState = s;
            s.buffered_amount = if s.buffered_amount <= n {
                0
            } else {
                s.buffered_amount - n
            };
            self.streams.insert(id, s);
            assert(self.streams@ =~= old(self).streams@.insert(id, s));
            assert(s@ =~= old(self).streams@[id]@.after_release(n as int));
        }
        assert(*self == (Association { streams: self.streams, ..*old(self) }));
    }
}

/// Once the data of a stream was given up, nothing of it waits to be sent, and nothing of it is sent
/// again: not even when the retransmission timer expires.
pub proof fn law_given_up_data_is_not_sent(before: Association, id: u16, after: Association, i: int)
    requires
        gave_up_stream(before, id, after),
    ensures
        0 <= i < after.pending_queue@.len() ==> is_kept(chunk_views(after.pending_queue@)[i], id),
        0 <= i < after.inflight_queue@.len() && after.inflight_queue@[i].stream_identifier == id
            ==> !after.inflight_queue@[i].retransmit && marked_to_retransmit(
            after.inflight_queue@[i],
        ) == after.inflight_queue@[i],
{
    let pending = chunk_views(before.pending_queue@);
    if 0 <= i < after.pending_queue@.len() {
        pending.lemma_filter_pred(keeps(id), i);
    }
}

} // verus!
