//! The queue of chunks that are in flight.

use vstd::prelude::*;
use vstd::set_lib::*;

use crate::chunk::{chunk_views, ChunkPayloadData, DataChunk};

verus! {

/// The transmission sequence number `k` places after `tsn`, wrapping at the end of the number
/// space.
pub open spec fn tsn_after(tsn: u32, k: int) -> u32 {
    ((tsn + k) % 0x1_0000_0000) as u32
}

/// Whether no two chunks have the same transmission sequence number.
pub open spec fn distinct_tsns(chunks: Seq<DataChunk>) -> bool {
    forall|i: int, j: int|
        0 <= i < j < chunks.len() ==> (#[trigger] chunks[i]).tsn != (#[trigger] chunks[j]).tsn
}

/// Whether a chunk with that transmission sequence number is queued whose sender has given up on
/// it.
pub open spec fn given_up_at(chunks: Seq<DataChunk>, tsn: u32) -> bool {
    exists|i: int| 0 <= i < chunks.len() && (#[trigger] chunks[i]).tsn == tsn && chunks[i].given_up()
}

/// Whether exactly the `k` chunks that follow `point` without a gap are given up.
pub open spec fn is_given_up_run(chunks: Seq<DataChunk>, point: u32, k: nat) -> bool {
    &&& forall|j: int| 1 <= j <= k ==> given_up_at(chunks, #[trigger] tsn_after(point, j))
    &&& !given_up_at(chunks, tsn_after(point, k + 1int))
}

/// How many chunks that follow `point` without a gap are given up.
pub open spec fn given_up_run(chunks: Seq<DataChunk>, point: u32) -> nat {
    choose|k: nat| is_given_up_run(chunks, point, k)
}

/// The chunk as it is once it is marked for retransmission: chunks that arrived, and chunks that
/// the sender has given up on, are left alone.
pub open spec fn marked_to_retransmit(c: DataChunk) -> DataChunk {
    if c.acked || c.given_up() {
        c
    } else {
        DataChunk { retransmit: true, ..c }
    }
}

/// The chunk as it is once the data of a stream is given up: a chunk of that stream is not sent again.
pub open spec fn given_up_with(c: DataChunk, stream_identifier: u16) -> DataChunk {
    if c.stream_identifier == stream_identifier {
        DataChunk { abandoned: true, all_inflight: true, retransmit: false, ..c }
    } else {
        c
    }
}

/// There is only one number of given up chunks.
proof fn lemma_run_unique(chunks: Seq<DataChunk>, point: u32, k: nat)
    requires
        is_given_up_run(chunks, point, k),
    ensures
        given_up_run(chunks, point) == k,
{
    let r = given_up_run(chunks, point);
    assert(is_given_up_run(chunks, point, r));
    if r < k {
        assert(given_up_at(chunks, tsn_after(point, r + 1int)));
    }
    if k < r {
        assert(given_up_at(chunks, tsn_after(point, k + 1int)));
    }
}

/// A run of given up chunks is no longer than the queue.
proof fn lemma_run_bound(chunks: Seq<DataChunk>, point: u32, m: nat)
    requires
        m <= 0x1_0000_0000,
        forall|j: int| 1 <= j <= m ==> given_up_at(chunks, #[trigger] tsn_after(point, j)),
    ensures
        m <= chunks.len(),
{
    let indices = Set::<int>::range(0, chunks.len() as int);
    let tsn_at = |i: int| chunks[i].tsn;
    let queued = indices.map(tsn_at);
    let places = Set::<int>::range(1, m + 1int);
    let visit = |j: int| tsn_after(point, j);
    let visited = places.map(visit);
    range_set_properties::<int>(0, chunks.len() as int);
    range_set_properties::<int>(1, m + 1int);
    lemma_map_size_bound(indices, queued, tsn_at);
    assert(vstd::relations::injective_on(visit, places));
    lemma_map_size(places, visited, visit);
    assert(visited.subset_of(queued)) by {
        assert forall|t: u32| visited.contains(t) implies queued.contains(t) by {
            let j = choose|j: int| places.contains(j) && visit(j) == t;
            assert(given_up_at(chunks, tsn_after(point, j)));
            let i = choose|i: int|
                0 <= i < chunks.len() && (#[trigger] chunks[i]).tsn == t && chunks[i].given_up();
            assert(indices.contains(i) && tsn_at(i) == t);
        }
    }
    lemma_len_subset(visited, queued);
}

/// There is a number of given up chunks that follow a point without a gap.
pub proof fn lemma_run_exists(chunks: Seq<DataChunk>, point: u32, k: nat)
    requires
        chunks.len() < 0x1_0000_0000,
        k <= chunks.len(),
        forall|j: int| 1 <= j <= k ==> given_up_at(chunks, #[trigger] tsn_after(point, j)),
    ensures
        is_given_up_run(chunks, point, given_up_run(chunks, point)),
    decreases chunks.len() - k,
{
    if given_up_at(chunks, tsn_after(point, k + 1int)) {
        lemma_run_bound(chunks, point, k + 1);
        lemma_run_exists(chunks, point, k + 1);
    } else {
        assert(is_given_up_run(chunks, point, k));
        lemma_run_unique(chunks, point, k);
    }
}

/// Chunks that were sent and are not yet acknowledged for good.
#[derive(Debug)]
pub struct PayloadQueue {
    /// The chunks, in the order in which they were queued.
    pub chunks: Vec<ChunkPayloadData>,
}

impl View for PayloadQueue {
    type V = Seq<DataChunk>;

    open spec fn view(&self) -> Seq<DataChunk> {
        chunk_views(self.chunks@)
    }
}

impl PayloadQueue {
    /// Whether the queue holds each transmission sequence number once at most, and not all of them.
    pub open spec fn wf(&self) -> bool {
        &&& distinct_tsns(self@)
        &&& self@.len() < 0x1_0000_0000
    }

    /// An empty queue.
    pub fn new() -> (r: Self)
        ensures
            r.wf(),
            r@ == Seq::<DataChunk>::empty(),
    {
        let r = PayloadQueue { chunks: Vec::new() };
        assert(r@ =~= Seq::<DataChunk>::empty());
        r
    }

    /// The position of the chunk with that transmission sequence number.
    fn position(&self, tsn: u32) -> (r: Option<usize>)
        ensures
            match r {
                Some(i) => i < self@.len() && self@[i as int].tsn == tsn,
                None => forall|i: int| 0 <= i < self@.len() ==> (#[trigger] self@[i]).tsn != tsn,
            },
    {
        let mut i: usize = 0;
        while i < self.chunks.len()
            invariant
                i <= self.chunks.len(),
                forall|j: int| 0 <= j < i ==> (#[trigger] self@[j]).tsn != tsn,
            decreases self.chunks.len() - i,
        {
            if self.chunks[i].tsn == tsn {
                assert(self@[i as int].tsn == tsn);
                return Some(i);
            }
            i += 1;
        }
        None
    }

    /// Queues a chunk, unless one with its transmission sequence number is queued already.
    pub fn push(&mut self, chunk: ChunkPayloadData) -> (r: bool)
        requires
            old(self).wf(),
            old(self)@.len() + 1 < 0x1_0000_0000,
        ensures
            final(self).wf(),
            r == forall|i: int|
                0 <= i < old(self)@.len() ==> (#[trigger] old(self)@[i]).tsn != chunk.tsn,
            final(self)@ == (if r {
                old(self)@.push(chunk@)
            } else {
                old(self)@
            }),
    {
        if self.position(chunk.tsn).is_some() {
            return false;
        }
        let ghost before = self@;
        self.chunks.push(chunk);
        assert(self@ =~= before.push(chunk@));
        true
    }

    /// The chunk with that transmission sequence number.
    pub fn get(&self, tsn: u32) -> (r: Option<&ChunkPayloadData>)
        ensures
            match r {
                Some(c) => self@.contains(c@) && c@.tsn == tsn,
                None => forall|i: int| 0 <= i < self@.len() ==> (#[trigger] self@[i]).tsn != tsn,
            },
    {
        match self.position(tsn) {
            Some(i) => {
                assert(self@[i as int] == self.chunks[i as int]@);
                Some(&self.chunks[i])
            },
            None => None,
        }
    }

    /// Marks every chunk for retransmission that has not arrived and is not given up.
    pub fn mark_all_to_retrasmit(&mut self)
        requires
            old(self).wf(),
        ensures
            final(self).wf(),
            final(self)@ == old(self)@.map_values(|c: DataChunk| marked_to_retransmit(c)),
    {
        let n: usize = self.chunks.len();
        let mut i: usize = 0;
        while i < n
            invariant
                n == self.chunks.len() == old(self).chunks.len(),
                i <= n,
                forall|j: int| 0 <= j < i ==> #[trigger] self@[j] == marked_to_retransmit(old(self)@[j]),
                forall|j: int| i <= j < n ==> #[trigger] self@[j] == old(self)@[j],
            decreases n - i,
        {
            assert(self@[i as int] == self.chunks[i as int]@);
            let ghost before = self@;
            if !self.chunks[i].acked && !self.chunks[i].abandoned() {
                self.chunks[i].retransmit = true;
            }
            assert(self@ =~= before.update(i as int, self.chunks[i as int]@));
            i += 1;
        }
        assert(self@ =~= old(self)@.map_values(|c: DataChunk| marked_to_retransmit(c)));
    }

    /// Gives up the chunks of a stream.
    pub fn give_up_stream(&mut self, stream_identifier: u16)
        requires
            old(self).wf(),
        ensures
            final(self).wf(),
            final(self)@ == old(self)@.map_values(
                |c: DataChunk| given_up_with(c, stream_identifier),
            ),
    {
        let n: usize = self.chunks.len();
        let mut i: usize = 0;
        while i < n
            invariant
                n == self.chunks.len() == old(self).chunks.len(),
                i <= n,
                forall|j: int|
                    0 <= j < i ==> #[trigger] self@[j] == given_up_with(
                        old(self)@[j],
                        stream_identifier,
                    ),
                forall|j: int| i <= j < n ==> #[trigger] self@[j] == old(self)@[j],
            decreases n - i,
        {
            assert(self@[i as int] == self.chunks[i as int]@);
            let ghost before = self@;
            if self.chunks[i].stream_identifier == stream_identifier {
                self.chunks[i].abandoned = true;
                self.chunks[i].all_inflight = true;
                self.chunks[i].retransmit = false;
            }
            assert(self@ =~= before.update(i as int, self.chunks[i as int]@));
            i += 1;
        }
        assert(self@ =~= old(self)@.map_values(
            |c: DataChunk| given_up_with(c, stream_identifier),
        ));
    }

    /// The last transmission sequence number of the given up chunks that follow `point` without a
    /// gap, or `point` itself where there is none.
    pub fn skip_given_up(&self, point: u32) -> (r: u32)
        requires
            self.wf(),
        ensures
            r == tsn_after(point, given_up_run(self@, point) as int),
            is_given_up_run(self@, point, given_up_run(self@, point)),
    {
        let mut last: u32 = point;
        let ghost mut k: nat = 0;
        loop
            invariant
                self.wf(),
                k <= self@.len(),
                last == tsn_after(point, k as int),
                forall|j: int| 1 <= j <= k ==> given_up_at(self@, #[trigger] tsn_after(point, j)),
            decreases self@.len() - k,
        {
            let next: u32 = last.wrapping_add(1);
            assert(next == tsn_after(point, k + 1int));
            let advance: bool = match self.get(next) {
                Some(c) => {
                    proof {
                        let i = choose|i: int| 0 <= i < self@.len() && self@[i] == c@;
                        assert(self@[i].tsn == next);
                        assert(given_up_at(self@, next) ==> c@.given_up());
                    }
                    c.abandoned()
                },
                None => false,
            };
            if !advance {
                proof {
                    lemma_run_unique(self@, point, k);
                }
                return last;
            }
            last = next;
            proof {
                k = k + 1;
                lemma_run_bound(self@, point, k);
            }
        }
    }
}

} // verus!
