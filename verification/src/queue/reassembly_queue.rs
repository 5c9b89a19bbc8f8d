//! The queue in which the fragments of incoming messages wait until they can be read.

use bytes::Bytes;
use vstd::prelude::*;

use crate::buf::{bytes_as_slice, bytes_content, bytes_from_vec};
use crate::chunk::{
    chunk_views, joined_data, ChunkPayloadData, DataChunk, PayloadProtocolIdentifier,
};
use crate::queue::payload_queue::tsn_after;
use crate::queue::total::{
    lemma_total_concat, lemma_total_insert, lemma_total_remove, lemma_total_update, total,
};
use crate::util::{serial16_before, serial32_before, sna16gt, sna16lt, sna16lte, sna32gt, sna32lt};

verus! {

/// The number of bytes of user data in a list of fragments.
pub open spec fn data_len(chunks: Seq<DataChunk>) -> nat {
    total(chunks, |c: DataChunk| c.user_data.len())
}

/// Whether `p` is where a fragment with that transmission sequence number belongs: behind every
/// fragment that it does not precede, up to the first one that it does precede.
pub open spec fn is_chunk_place(chunks: Seq<DataChunk>, tsn: u32, p: int) -> bool {
    &&& 0 <= p <= chunks.len()
    &&& forall|i: int| 0 <= i < p ==> !serial32_before(tsn, (#[trigger] chunks[i]).tsn)
    &&& p < chunks.len() ==> serial32_before(tsn, chunks[p].tsn)
}

/// The fragments with one more put in its place.
pub open spec fn with_chunk(chunks: Seq<DataChunk>, c: DataChunk) -> Seq<DataChunk> {
    chunks.insert(choose|p: int| is_chunk_place(chunks, c.tsn, p), c)
}

/// Whether the fragment at `i` follows the one before it without a gap.
pub open spec fn follows(chunks: Seq<DataChunk>, i: int) -> bool {
    chunks[i].tsn == tsn_after(chunks[i - 1].tsn, 1)
}

/// Whether a list of fragments makes up a message: it begins with a first fragment, ends with a
/// last one, and misses none in between.
pub open spec fn is_whole(chunks: Seq<DataChunk>) -> bool {
    &&& chunks.len() > 0
    &&& chunks.first().beginning_fragment
    &&& chunks.last().ending_fragment
    &&& forall|i: int| 0 < i < chunks.len() ==> #[trigger] follows(chunks, i)
}

/// Whether the fragments from `s` up to, not including, `e` are the start of a message: a first
/// fragment and what follows it without a gap, with no last fragment among them.
pub open spec fn is_open_run(chunks: Seq<DataChunk>, s: int, e: int) -> bool {
    &&& 0 <= s < e <= chunks.len()
    &&& chunks[s].beginning_fragment
    &&& forall|i: int| s < i < e ==> !(#[trigger] chunks[i]).beginning_fragment
    &&& forall|i: int| s < i < e ==> #[trigger] follows(chunks, i)
    &&& forall|i: int| s <= i < e ==> !(#[trigger] chunks[i]).ending_fragment
}

/// Whether the fragments from `s` up to, not including, `e` make up a message, and no fewer of
/// them do.
pub open spec fn is_message(chunks: Seq<DataChunk>, s: int, e: int) -> bool {
    &&& 0 <= s < e <= chunks.len()
    &&& chunks[s].beginning_fragment
    &&& chunks[e - 1].ending_fragment
    &&& forall|i: int| s < i < e ==> !(#[trigger] chunks[i]).beginning_fragment
    &&& forall|i: int| s < i < e ==> #[trigger] follows(chunks, i)
    &&& forall|i: int| s <= i < e - 1 ==> !(#[trigger] chunks[i]).ending_fragment
}

/// Whether that message is the first to end among all messages in the list.
pub open spec fn is_first_message(chunks: Seq<DataChunk>, s: int, e: int) -> bool {
    &&& is_message(chunks, s, e)
    &&& forall|s2: int, e2: int| is_message(chunks, s2, e2) ==> e <= e2
}

/// Whether some of the fragments make up a message.
pub open spec fn has_message(chunks: Seq<DataChunk>) -> bool {
    exists|s: int, e: int| is_message(chunks, s, e)
}

/// The mathematical value of [`Chunks`].
#[verifier::ext_equal]
pub struct FragmentSet {
    pub ssn: u16,
    pub ppi: PayloadProtocolIdentifier,
    pub chunks: Seq<DataChunk>,
    pub index: nat,
    pub offset: nat,
}

impl FragmentSet {
    /// A set of which nothing has been taken yet.
    pub open spec fn unread(
        ssn: u16,
        ppi: PayloadProtocolIdentifier,
        chunks: Seq<DataChunk>,
    ) -> FragmentSet {
        FragmentSet { ssn, ppi, chunks, index: 0, offset: 0 }
    }

    /// Whether the set has a fragment with that transmission sequence number.
    pub open spec fn has_tsn(self, tsn: u32) -> bool {
        exists|i: int| 0 <= i < self.chunks.len() && (#[trigger] self.chunks[i]).tsn == tsn
    }

    /// The set with one more fragment, unless it is there already.
    pub open spec fn with_fragment(self, c: DataChunk) -> FragmentSet {
        if self.has_tsn(c.tsn) {
            self
        } else {
            FragmentSet { chunks: with_chunk(self.chunks, c), ..self }
        }
    }

    /// What is left to take out of the set.
    pub open spec fn unread_data(self) -> Seq<u8> {
        joined_data(self.chunks.skip(self.index as int)).skip(self.offset as int)
    }

    /// Whether the read position lies within the set.
    pub open spec fn wf(self) -> bool {
        &&& self.index <= self.chunks.len()
        &&& self.index < self.chunks.len() ==> self.offset
            <= self.chunks[self.index as int].user_data.len()
        &&& self.index == self.chunks.len() ==> self.offset == 0
    }
}

/// A piece of what was received on a stream.
#[derive(Debug)]
pub struct Chunk {
    /// The contents.
    pub bytes: Bytes,
}

/// Fragments of one message, with the position up to which they have been taken.
#[derive(Debug)]
pub struct Chunks {
    /// Position of the message among the ordered messages of its stream.
    pub ssn: u16,
    /// What the message carries.
    pub ppi: PayloadProtocolIdentifier,
    /// The fragments, by transmission sequence number.
    pub chunks: Vec<ChunkPayloadData>,
    /// Bytes already taken of the fragment at `index`.
    pub offset: usize,
    /// Fragments already taken.
    pub index: usize,
}

impl View for Chunks {
    type V = FragmentSet;

    open spec fn view(&self) -> FragmentSet {
        FragmentSet {
            ssn: self.ssn,
            ppi: self.ppi,
            chunks: chunk_views(self.chunks@),
            index: self.index as nat,
            offset: self.offset as nat,
        }
    }
}

/// A fragment has one place.
pub proof fn lemma_chunk_place_unique(chunks: Seq<DataChunk>, tsn: u32, p: int)
    requires
        is_chunk_place(chunks, tsn, p),
    ensures
        p == choose|q: int| is_chunk_place(chunks, tsn, q),
{
    let q = choose|q: int| is_chunk_place(chunks, tsn, q);
    if p < q {
        assert(serial32_before(tsn, chunks[p].tsn));
    }
    if q < p {
        assert(serial32_before(tsn, chunks[q].tsn));
    }
}

/// Puts a fragment in its place.
fn insert_chunk(chunks: &mut Vec<ChunkPayloadData>, chunk: ChunkPayloadData)
    ensures
        chunk_views(final(chunks)@) == with_chunk(chunk_views(old(chunks)@), chunk@),
{
    let ghost before = chunk_views(chunks@);
    let mut p: usize = 0;
    while p < chunks.len() && !sna32lt(chunk.tsn, chunks[p].tsn)
        invariant
            p <= chunks.len(),
            *chunks == *old(chunks),
            before == chunk_views(chunks@),
            forall|i: int| 0 <= i < p ==> !serial32_before(chunk.tsn, (#[trigger] before[i]).tsn),
        decreases chunks.len() - p,
    {
        assert(before[p as int].tsn == chunks[p as int].tsn);
        p += 1;
    }
    assert(p < chunks.len() ==> before[p as int].tsn == chunks[p as int].tsn);
    proof {
        lemma_chunk_place_unique(before, chunk.tsn, p as int);
    }
    chunks.insert(p, chunk);
    assert(chunk_views(chunks@) =~= before.insert(p as int, chunk@));
}

impl Chunks {
    /// A set of which nothing has been taken yet.
    pub fn new(ssn: u16, ppi: PayloadProtocolIdentifier, chunks: Vec<ChunkPayloadData>) -> (r: Self)
        ensures
            r@ == FragmentSet::unread(ssn, ppi, chunk_views(chunks@)),
    {
        Chunks { ssn, ppi, chunks, offset: 0, index: 0 }
    }

    /// Adds a fragment, unless one with its transmission sequence number is there already. Tells
    /// whether it was added and the message is now whole.
    pub fn push(&mut self, chunk: ChunkPayloadData) -> (r: bool)
        ensures
            final(self)@ == old(self)@.with_fragment(chunk@),
            r == (!old(self)@.has_tsn(chunk.tsn) && is_whole(final(self)@.chunks)),
    {
        let mut i: usize = 0;
        while i < self.chunks.len()
            invariant
                i <= self.chunks.len(),
                forall|j: int| 0 <= j < i ==> (#[trigger] self@.chunks[j]).tsn != chunk.tsn,
            decreases self.chunks.len() - i,
        {
            if self.chunks[i].tsn == chunk.tsn {
                assert(self@.chunks[i as int].tsn == chunk.tsn);
                return false;
            }
            i += 1;
        }
        insert_chunk(&mut self.chunks, chunk);
        self.is_complete()
    }

    /// Whether the fragments make up a message.
    pub fn is_complete(&self) -> (r: bool)
        ensures
            r == is_whole(self@.chunks),
    {
        let n: usize = self.chunks.len();
        let ghost v = self@.chunks;
        if n == 0 {
            return false;
        }
        assert(v[0] == self.chunks[0]@ && v[n - 1] == self.chunks[n - 1]@);
        if !self.chunks[0].beginning_fragment || !self.chunks[n - 1].ending_fragment {
            return false;
        }
        let mut i: usize = 1;
        while i < n
            invariant
                n == self.chunks.len(),
                v == self@.chunks,
                1 <= i <= n,
                forall|j: int| 0 < j < i ==> #[trigger] follows(v, j),
            decreases n - i,
        {
            assert(v[i as int] == self.chunks[i as int]@ && v[i - 1] == self.chunks[i - 1]@);
            if self.chunks[i].tsn != self.chunks[i - 1].tsn.wrapping_add(1) {
                assert(!follows(v, i as int));
                return false;
            }
            i += 1;
        }
        true
    }

    /// The number of bytes of user data in the set.
    pub fn len(&self) -> (r: usize)
        requires
            data_len(self@.chunks) <= usize::MAX,
        ensures
            r == data_len(self@.chunks),
    {
        let n: usize = self.chunks.len();
        let ghost v = self@.chunks;
        let ghost size = |c: DataChunk| c.user_data.len();
        let mut sum: usize = 0;
        let mut i: usize = 0;
        while i < n
            invariant
                n == self.chunks.len(),
                v == self@.chunks,
                size == |c: DataChunk| c.user_data.len(),
                data_len(v) <= usize::MAX,
                i <= n,
                sum == total(v.take(i as int), size),
            decreases n - i,
        {
            proof {
                assert(v.take(i + 1).drop_last() =~= v.take(i as int));
                assert(v =~= v.take(i + 1) + v.skip(i + 1));
                lemma_total_concat(v.take(i + 1), v.skip(i + 1), size);
                assert(v[i as int] == self.chunks[i as int]@);
            }
            sum += self.chunks[i].user_data.len();
            i += 1;
        }
        assert(v.take(n as int) =~= v);
        sum
    }

    /// Takes the next bytes of the message, at most `max_length` of them. There is nothing more to
    /// take once every fragment has been passed.
    pub fn next(&mut self, max_length: usize) -> (r: Option<Chunk>)
        requires
            old(self)@.wf(),
        ensures
            final(self)@.wf(),
            final(self)@.ssn == old(self)@.ssn,
            final(self)@.ppi == old(self)@.ppi,
            final(self)@.chunks == old(self)@.chunks,
            r is None <==> old(self)@.index == old(self)@.chunks.len(),
            r is None ==> final(self)@ == old(self)@,
            r matches Some(chunk) ==> {
                let all = old(self)@.unread_data();
                let n = if all.len() <= max_length {
                    all.len() as int
                } else {
                    max_length as int
                };
                &&& bytes_content(chunk.bytes) == all.take(n)
                &&& final(self)@.unread_data() == all.skip(n)
            },
            r is Some && old(self)@.unread_data().len() <= max_length ==> final(self)@.index
                == final(self)@.chunks.len(),
    {
        if self.index >= self.chunks.len() {
            return None;
        }
        let ghost all = self@.unread_data();
        let mut buf: Vec<u8> = Vec::new();
        assert(buf@ + self@.unread_data() =~= all);
        while self.index < self.chunks.len()
            invariant
                self@.wf(),
                self@.ssn == old(self)@.ssn,
                self@.ppi == old(self)@.ppi,
                self@.chunks == old(self)@.chunks,
                old(self)@.index < old(self)@.chunks.len(),
                all == old(self)@.unread_data(),
                buf@.len() <= max_length,
                buf@ + self@.unread_data() == all,
            decreases self.chunks.len() - self.index,
        {
            let ghost before = buf@;
            let ghost rest = joined_data(self@.chunks.skip(self.index + 1));
            let ghost left = self@.unread_data();
            proof {
                lemma_unread_head(self@);
            }
            assert(self@.chunks[self.index as int] == self.chunks[self.index as int]@);
            let fragment: &[u8] = bytes_as_slice(&self.chunks[self.index].user_data);
            let have: usize = fragment.len();
            let to_copy: usize = have - self.offset;
            let room: usize = max_length - buf.len();
            let n: usize = if to_copy <= room {
                to_copy
            } else {
                room
            };
            let ghost cut = fragment@.skip(self.offset as int);
            let mut i: usize = 0;
            while i < n
                invariant
                    i <= n,
                    self.offset + n <= have == fragment@.len(),
                    cut == fragment@.skip(self.offset as int),
                    buf@ == before + cut.take(i as int),
                decreases n - i,
            {
                buf.push(fragment[self.offset + i]);
                i += 1;
                assert(buf@ =~= before + cut.take(i as int));
            }
            if n < to_copy {
                self.offset = self.offset + n;
                proof {
                    lemma_unread_head(self@);
                    assert(left =~= cut + rest);
                    assert(self@.unread_data() =~= cut.skip(n as int) + rest);
                    assert(all =~= before + (cut + rest));
                    assert(buf@ =~= all.take(max_length as int));
                    assert(self@.unread_data() =~= all.skip(max_length as int));
                }
                return Some(Chunk { bytes: bytes_from_vec(buf) });
            }
            self.index += 1;
            self.offset = 0;
            proof {
                assert(cut.take(n as int) =~= cut);
                assert(self@.unread_data() =~= rest);
                assert(buf@ + self@.unread_data() =~= before + (cut + rest));
            }
        }
        proof {
            assert(self@.chunks.skip(self@.index as int) =~= Seq::<DataChunk>::empty());
            assert(self@.unread_data() =~= Seq::<u8>::empty());
            assert(buf@ =~= all);
            assert(all.take(all.len() as int) =~= all);
            assert(all.skip(all.len() as int) =~= Seq::<u8>::empty());
        }
        Some(Chunk { bytes: bytes_from_vec(buf) })
    }
}

/// The data of two lists of fragments, one after the other.
pub proof fn lemma_joined_concat(a: Seq<DataChunk>, b: Seq<DataChunk>)
    ensures
        joined_data(a + b) == joined_data(a) + joined_data(b),
    decreases b.len(),
{
    if b.len() == 0 {
        assert(a + b =~= a);
        assert(joined_data(a) + joined_data(b) =~= joined_data(a));
    } else {
        assert((a + b).drop_last() =~= a + b.drop_last());
        lemma_joined_concat(a, b.drop_last());
        assert(joined_data(a + b) =~= joined_data(a) + joined_data(b));
    }
}

/// What is left to take starts with the rest of the current fragment.
proof fn lemma_unread_head(set: FragmentSet)
    requires
        set.wf(),
        set.index < set.chunks.len(),
    ensures
        set.unread_data() == set.chunks[set.index as int].user_data.skip(set.offset as int)
            + joined_data(set.chunks.skip(set.index + 1int)),
{
    let here = set.chunks[set.index as int];
    let rest = set.chunks.skip(set.index + 1int);
    assert(set.chunks.skip(set.index as int) =~= seq![here] + rest);
    lemma_joined_concat(seq![here], rest);
    assert(seq![here].drop_last() =~= Seq::<DataChunk>::empty());
    assert(joined_data(seq![here].drop_last()) =~= Seq::<u8>::empty());
    assert(joined_data(seq![here]) =~= here.user_data);
    assert(set.unread_data() =~= here.user_data.skip(set.offset as int) + joined_data(rest));
}

/// The values of a list of fragment sets.
pub open spec fn set_views(sets: Seq<Chunks>) -> Seq<FragmentSet> {
    sets.map_values(|c: Chunks| c@)
}

/// The number of bytes of user data in a list of fragment sets.
pub open spec fn sets_len(sets: Seq<FragmentSet>) -> nat {
    total(sets, |x: FragmentSet| data_len(x.chunks))
}

/// Whether nothing has been taken of any of the sets.
pub open spec fn all_unread(sets: Seq<FragmentSet>) -> bool {
    forall|i: int| 0 <= i < sets.len() ==> (#[trigger] sets[i]).index == 0 && sets[i].offset == 0
}

/// Whether each of the sets makes up a message.
pub open spec fn all_whole(sets: Seq<FragmentSet>) -> bool {
    forall|i: int| 0 <= i < sets.len() ==> is_whole((#[trigger] sets[i]).chunks)
}

/// Whether the first set with that stream sequence number is at `i`.
pub open spec fn is_set_of(sets: Seq<FragmentSet>, ssn: u16, i: int) -> bool {
    &&& 0 <= i < sets.len()
    &&& sets[i].ssn == ssn
    &&& forall|j: int| 0 <= j < i ==> (#[trigger] sets[j]).ssn != ssn
}

/// Whether there is a set with that stream sequence number.
pub open spec fn has_set(sets: Seq<FragmentSet>, ssn: u16) -> bool {
    exists|i: int| is_set_of(sets, ssn, i)
}

/// Whether `p` is where a set with that stream sequence number belongs: behind every set that it
/// does not precede, up to the first one that it does precede.
pub open spec fn is_set_place(sets: Seq<FragmentSet>, ssn: u16, p: int) -> bool {
    &&& 0 <= p <= sets.len()
    &&& forall|i: int| 0 <= i < p ==> !serial16_before(ssn, (#[trigger] sets[i]).ssn)
    &&& p < sets.len() ==> serial16_before(ssn, sets[p].ssn)
}

/// The mathematical value of a [`ReassemblyQueue`].
#[verifier::ext_equal]
pub struct ReassemblyState {
    pub si: u16,
    pub next_ssn: u16,
    pub ordered: Seq<FragmentSet>,
    pub unordered: Seq<FragmentSet>,
    pub fragments: Seq<DataChunk>,
}

impl ReassemblyState {
    /// The queue of a stream on which nothing has arrived.
    pub open spec fn fresh(si: u16) -> ReassemblyState {
        ReassemblyState {
            si,
            next_ssn: 0,
            ordered: Seq::empty(),
            unordered: Seq::empty(),
            fragments: Seq::empty(),
        }
    }

    /// The queue without anything that was not read.
    pub open spec fn discarded(self) -> ReassemblyState {
        ReassemblyState {
            ordered: Seq::empty(),
            unordered: Seq::empty(),
            fragments: Seq::empty(),
            ..self
        }
    }

    /// Whether the queue stores the chunk: it belongs to the stream, and its message has not been
    /// passed already.
    pub open spec fn takes(self, c: DataChunk) -> bool {
        &&& c.stream_identifier == self.si
        &&& c.unordered || !serial16_before(c.stream_sequence_number, self.next_ssn)
        &&& !c.unordered && has_set(self.ordered, c.stream_sequence_number) ==> !self.ordered[self.set_of(
            c.stream_sequence_number,
        )].has_tsn(c.tsn)
    }

    /// The place of the set with that stream sequence number.
    pub open spec fn set_of(self, ssn: u16) -> int {
        choose|i: int| is_set_of(self.ordered, ssn, i)
    }

    /// The queue with a chunk of an unordered message added; a message that thereby becomes whole
    /// moves to the messages that can be read.
    pub open spec fn with_unordered(self, c: DataChunk) -> ReassemblyState {
        let all = with_chunk(self.fragments, c);
        if has_message(all) {
            let (s, e) = choose|s: int, e: int| is_first_message(all, s, e);
            ReassemblyState {
                unordered: self.unordered.push(
                    FragmentSet::unread(0, all[s].payload_type, all.subrange(s, e)),
                ),
                fragments: all.subrange(0, s) + all.subrange(e, all.len() as int),
                ..self
            }
        } else {
            ReassemblyState { fragments: all, ..self }
        }
    }

    /// The queue with a chunk of an ordered message added to the set of its message.
    pub open spec fn with_ordered(self, c: DataChunk) -> ReassemblyState {
        let ssn = c.stream_sequence_number;
        if has_set(self.ordered, ssn) {
            let i = self.set_of(ssn);
            ReassemblyState {
                ordered: self.ordered.update(i, self.ordered[i].with_fragment(c)),
                ..self
            }
        } else {
            let p = choose|p: int| is_set_place(self.ordered, ssn, p);
            ReassemblyState {
                ordered: self.ordered.insert(
                    p,
                    FragmentSet::unread(ssn, c.payload_type, seq![c]),
                ),
                ..self
            }
        }
    }

    /// The queue after a chunk has arrived.
    pub open spec fn pushed(self, c: DataChunk) -> ReassemblyState {
        if !self.takes(c) {
            self
        } else if c.unordered {
            self.with_unordered(c)
        } else {
            self.with_ordered(c)
        }
    }

    /// Whether the arrival of the chunk makes its message whole.
    pub open spec fn completes(self, c: DataChunk) -> bool {
        &&& self.takes(c)
        &&& if c.unordered {
            has_message(with_chunk(self.fragments, c))
        } else {
            let ssn = c.stream_sequence_number;
            if has_set(self.ordered, ssn) {
                is_whole(self.ordered[self.set_of(ssn)].with_fragment(c).chunks)
            } else {
                is_whole(seq![c])
            }
        }
    }

    /// Whether the first ordered message can be read: it is whole, and none is expected before it.
    pub open spec fn ordered_readable(self) -> bool {
        &&& self.ordered.len() > 0
        &&& is_whole(self.ordered[0].chunks)
        &&& self.ordered[0].ssn == self.next_ssn || serial16_before(
            self.ordered[0].ssn,
            self.next_ssn,
        )
    }

    /// The message that is read next: unordered messages go first.
    pub open spec fn next_message(self) -> Option<FragmentSet> {
        if self.unordered.len() > 0 {
            Some(self.unordered[0])
        } else if self.ordered_readable() {
            Some(self.ordered[0])
        } else {
            None
        }
    }

    /// The queue after a message was read.
    pub open spec fn after_read(self) -> ReassemblyState {
        if self.unordered.len() > 0 {
            ReassemblyState { unordered: self.unordered.remove(0), ..self }
        } else if self.ordered_readable() {
            ReassemblyState {
                ordered: self.ordered.remove(0),
                next_ssn: if self.ordered[0].ssn == self.next_ssn {
                    ((self.next_ssn + 1) % 0x1_0000) as u16
                } else {
                    self.next_ssn
                },
                ..self
            }
        } else {
            self
        }
    }

    /// The queue after the sender has skipped the ordered messages up to `last_ssn`: those among
    /// them that are not whole are dropped, and none of them is waited for any more.
    pub open spec fn after_forward_ordered(self, last_ssn: u16) -> ReassemblyState {
        ReassemblyState {
            ordered: self.ordered.filter(|x: FragmentSet| outlives_forward(x, last_ssn)),
            next_ssn: if self.next_ssn == last_ssn || serial16_before(self.next_ssn, last_ssn) {
                ((last_ssn + 1) % 0x1_0000) as u16
            } else {
                self.next_ssn
            },
            ..self
        }
    }

    /// The queue after the sender has skipped the unordered chunks up to `new_cumulative_tsn`.
    pub open spec fn after_forward_unordered(self, new_cumulative_tsn: u32) -> ReassemblyState {
        ReassemblyState {
            fragments: self.fragments.filter(|c: DataChunk| tsn_is_newer(c, new_cumulative_tsn)),
            ..self
        }
    }

    /// The number of bytes of user data in the queue.
    pub open spec fn held_bytes(self) -> nat {
        sets_len(self.ordered) + sets_len(self.unordered) + data_len(self.fragments)
    }
}

/// Whether a set stays when the ordered messages up to `last_ssn` are skipped.
pub open spec fn outlives_forward(x: FragmentSet, last_ssn: u16) -> bool {
    !(x.ssn == last_ssn || serial16_before(x.ssn, last_ssn)) || is_whole(x.chunks)
}

/// Whether a chunk is newer than that transmission sequence number.
pub open spec fn tsn_is_newer(c: DataChunk, tsn: u32) -> bool {
    c.tsn != tsn && !serial32_before(c.tsn, tsn)
}

/// The queue of a stream in which fragments wait for the rest of their message, and messages wait
/// to be read.
#[derive(Debug)]
pub struct ReassemblyQueue {
    /// The stream.
    pub si: u16,
    /// The stream sequence number of the ordered message that is read next.
    pub next_ssn: u16,
    /// The ordered messages, whole or not.
    pub ordered: Vec<Chunks>,
    /// The whole unordered messages.
    pub unordered: Vec<Chunks>,
    /// The fragments of unordered messages that are not whole.
    pub unordered_chunks: Vec<ChunkPayloadData>,
    /// The number of bytes of user data in the queue.
    pub n_bytes: usize,
}

impl View for ReassemblyQueue {
    type V = ReassemblyState;

    open spec fn view(&self) -> ReassemblyState {
        ReassemblyState {
            si: self.si,
            next_ssn: self.next_ssn,
            ordered: set_views(self.ordered@),
            unordered: set_views(self.unordered@),
            fragments: chunk_views(self.unordered_chunks@),
        }
    }
}

/// There is one first set with a stream sequence number.
pub proof fn lemma_set_of_unique(sets: Seq<FragmentSet>, ssn: u16, i: int)
    requires
        is_set_of(sets, ssn, i),
    ensures
        i == choose|j: int| is_set_of(sets, ssn, j),
{
    let j = choose|j: int| is_set_of(sets, ssn, j);
    if i < j {
        assert(sets[i].ssn != ssn);
    }
    if j < i {
        assert(sets[j].ssn != ssn);
    }
}

/// A set has one place.
pub proof fn lemma_set_place_unique(sets: Seq<FragmentSet>, ssn: u16, p: int)
    requires
        is_set_place(sets, ssn, p),
    ensures
        p == choose|q: int| is_set_place(sets, ssn, q),
{
    let q = choose|q: int| is_set_place(sets, ssn, q);
    if p < q {
        assert(serial16_before(ssn, sets[p].ssn));
    }
    if q < p {
        assert(serial16_before(ssn, sets[q].ssn));
    }
}

/// Two messages that end at the same place are the same.
proof fn lemma_message_start(chunks: Seq<DataChunk>, s1: int, s2: int, e: int)
    requires
        is_message(chunks, s1, e),
        is_message(chunks, s2, e),
    ensures
        s1 == s2,
{
    if s1 < s2 {
        assert(!chunks[s2].beginning_fragment);
    }
    if s2 < s1 {
        assert(!chunks[s1].beginning_fragment);
    }
}

/// There is one message that is the first to end.
pub proof fn lemma_first_message_unique(chunks: Seq<DataChunk>, s: int, e: int)
    requires
        is_first_message(chunks, s, e),
    ensures
        (s, e) == (choose|s2: int, e2: int| is_first_message(chunks, s2, e2)),
{
    let (s2, e2) = choose|s2: int, e2: int| is_first_message(chunks, s2, e2);
    assert(is_first_message(chunks, s2, e2));
    assert(e == e2);
    lemma_message_start(chunks, s, s2, e);
}

/// Finds the first message to end among the fragments.
fn find_message(chunks: &Vec<ChunkPayloadData>) -> (r: Option<(usize, usize)>)
    ensures
        match r {
            Some((s, e)) => is_first_message(chunk_views(chunks@), s as int, e as int),
            None => !has_message(chunk_views(chunks@)),
        },
{
    let ghost v = chunk_views(chunks@);
    let mut start: Option<usize> = None;
    let mut i: usize = 0;
    while i < chunks.len()
        invariant
            i <= chunks.len(),
            v == chunk_views(chunks@),
            forall|s: int, e: int| e <= i ==> !is_message(v, s, e),
            match start {
                Some(s) => is_open_run(v, s as int, i as int),
                None => forall|s: int| !is_open_run(v, s, i as int),
            },
        decreases chunks.len() - i,
    {
        let ghost prior = start;
        let ghost end: int = i + 1;
        assert(v[i as int] == chunks[i as int]@);
        let c: &ChunkPayloadData = &chunks[i];
        let mut from: Option<usize> = None;
        if c.beginning_fragment {
            from = Some(i);
        } else {
            match start {
                Some(s) => {
                    assert(v[i - 1] == chunks[i - 1]@);
                    if c.tsn == chunks[i - 1].tsn.wrapping_add(1) {
                        assert(follows(v, i as int));
                        from = Some(s);
                    } else {
                        assert(!follows(v, i as int));
                    }
                },
                None => {},
            }
        }
        proof {
            assert forall|s: int| is_message(v, s, end) implies from == Some(s as usize) && s
                <= i by {
                if s < i {
                    assert(!v[i as int].beginning_fragment);
                    assert(follows(v, i as int));
                    assert(is_open_run(v, s, i as int));
                    lemma_open_run_start(v, s, prior->0 as int, i as int);
                }
            }
            assert forall|s: int| is_open_run(v, s, end) implies from == Some(s as usize) && s
                <= i by {
                if s < i {
                    assert(!v[i as int].beginning_fragment);
                    assert(follows(v, i as int));
                    assert(is_open_run(v, s, i as int));
                    lemma_open_run_start(v, s, prior->0 as int, i as int);
                }
            }
        }
        if c.ending_fragment {
            if let Some(s) = from {
                assert(is_message(v, s as int, end));
                return Some((s, i + 1));
            }
            start = None;
        } else {
            start = from;
        }
        proof {
            assert forall|s: int, e: int| e <= end implies !is_message(v, s, e) by {
                if e == end {
                    if is_message(v, s, e) {
                        assert(v[e - 1].ending_fragment);
                    }
                }
            }
            match start {
                Some(s) => {
                    assert(is_open_run(v, s as int, end));
                },
                None => {
                    assert forall|s: int| !is_open_run(v, s, end) by {
                        if is_open_run(v, s, end) {
                            assert(!v[i as int].ending_fragment);
                        }
                    }
                },
            }
        }
        i += 1;
    }
    assert forall|s: int, e: int| !is_message(v, s, e) by {
        if is_message(v, s, e) {
            assert(e <= i);
        }
    }
    None
}

/// Two starts of messages that reach up to the same place are the same.
proof fn lemma_open_run_start(chunks: Seq<DataChunk>, s1: int, s2: int, e: int)
    requires
        is_open_run(chunks, s1, e),
        is_open_run(chunks, s2, e),
    ensures
        s1 == s2,
{
    if s1 < s2 {
        assert(!chunks[s2].beginning_fragment);
    }
    if s2 < s1 {
        assert(!chunks[s1].beginning_fragment);
    }
}

/// The place where a fragment belongs exists.
pub proof fn lemma_chunk_place_exists(chunks: Seq<DataChunk>, tsn: u32) -> (p: int)
    ensures
        is_chunk_place(chunks, tsn, p),
    decreases chunks.len(),
{
    if chunks.len() == 0 {
        0
    } else {
        let q = lemma_chunk_place_exists(chunks.drop_last(), tsn);
        if q < chunks.len() - 1 {
            assert(chunks.drop_last()[q] == chunks[q]);
            assert(forall|i: int| 0 <= i < q ==> chunks.drop_last()[i] == chunks[i]);
            q
        } else {
            assert(forall|i: int| 0 <= i < q ==> chunks.drop_last()[i] == chunks[i]);
            if serial32_before(tsn, chunks[q].tsn) {
                q
            } else {
                q + 1
            }
        }
    }
}

/// A fragment put in its place adds its bytes.
pub proof fn lemma_with_chunk_len(chunks: Seq<DataChunk>, c: DataChunk)
    ensures
        data_len(with_chunk(chunks, c)) == data_len(chunks) + c.user_data.len(),
{
    let p = lemma_chunk_place_exists(chunks, c.tsn);
    lemma_chunk_place_unique(chunks, c.tsn, p);
    lemma_total_insert(chunks, p, c, |c: DataChunk| c.user_data.len());
}

/// Takes the fragments from `s` up to, not including, `e` out of a list.
fn extract(chunks: &mut Vec<ChunkPayloadData>, s: usize, e: usize) -> (r: Vec<ChunkPayloadData>)
    requires
        s <= e <= old(chunks)@.len(),
    ensures
        r@ == old(chunks)@.subrange(s as int, e as int),
        final(chunks)@ == old(chunks)@.subrange(0, s as int) + old(chunks)@.subrange(
            e as int,
            old(chunks)@.len() as int,
        ),
{
    let mut r: Vec<ChunkPayloadData> = chunks.split_off(s);
    let mut rest: Vec<ChunkPayloadData> = r.split_off(e - s);
    chunks.append(&mut rest);
    r
}

/// The joined data of fragments is as long as the fragments together.
pub proof fn lemma_joined_len(chunks: Seq<DataChunk>)
    ensures
        joined_data(chunks).len() == data_len(chunks),
    decreases chunks.len(),
{
    if chunks.len() > 0 {
        lemma_joined_len(chunks.drop_last());
    }
}

impl ReassemblyQueue {
    /// The message that is read next is whole and untouched, and its data leave the queue with it.
    pub proof fn lemma_next_message(&self)
        requires
            self.wf(),
            self@.next_message() is Some,
        ensures
            ({
                let m = self@.next_message()->0;
                &&& m.wf()
                &&& m.index == 0
                &&& is_whole(m.chunks)
                &&& m.unread_data() == joined_data(m.chunks)
                &&& self@.held_bytes() == self@.after_read().held_bytes() + m.unread_data().len()
                &&& self@.held_bytes() <= usize::MAX
            }),
    {
        let q = self@;
        let m = q.next_message()->0;
        let set_size = |x: FragmentSet| data_len(x.chunks);
        if q.unordered.len() > 0 {
            lemma_total_remove(q.unordered, 0, set_size);
        } else {
            lemma_total_remove(q.ordered, 0, set_size);
        }
        lemma_joined_len(m.chunks);
        assert(m.chunks.skip(0) =~= m.chunks);
        assert(m.unread_data() =~= joined_data(m.chunks));
    }

    /// Whether the byte count is right, nothing has been taken of any message, and the unordered
    /// messages are whole.
    pub open spec fn wf(&self) -> bool {
        &&& self.n_bytes == self@.held_bytes()
        &&& all_unread(self@.ordered)
        &&& all_unread(self@.unordered)
        &&& all_whole(self@.unordered)
    }

    /// The queue of a stream on which nothing has arrived.
    pub fn new(si: u16) -> (r: Self)
        ensures
            r.wf(),
            r@ == ReassemblyState::fresh(si),
    {
        let r = ReassemblyQueue {
            si,
            next_ssn: 0,
            ordered: Vec::new(),
            unordered: Vec::new(),
            unordered_chunks: Vec::new(),
            n_bytes: 0,
        };
        assert(r@ =~= ReassemblyState::fresh(si));
        r
    }

    /// Discards what was not read.
    pub fn discard(&mut self)
        ensures
            final(self).wf(),
            final(self)@ == old(self)@.discarded(),
    {
        self.ordered = Vec::new();
        self.unordered = Vec::new();
        self.unordered_chunks = Vec::new();
        self.n_bytes = 0;
        assert(self@ =~= old(self)@.discarded());
    }

    /// The place of the set with that stream sequence number.
    fn find_set(&self, ssn: u16) -> (r: Option<usize>)
        ensures
            match r {
                Some(i) => has_set(self@.ordered, ssn) && i == self@.set_of(ssn) && is_set_of(
                    self@.ordered,
                    ssn,
                    i as int,
                ),
                None => !has_set(self@.ordered, ssn),
            },
    {
        let ghost v = self@.ordered;
        let mut i: usize = 0;
        while i < self.ordered.len()
            invariant
                i <= self.ordered.len(),
                v == self@.ordered,
                forall|j: int| 0 <= j < i ==> (#[trigger] v[j]).ssn != ssn,
            decreases self.ordered.len() - i,
        {
            assert(v[i as int] == self.ordered[i as int]@);
            if self.ordered[i].ssn == ssn {
                assert(is_set_of(v, ssn, i as int));
                proof {
                    lemma_set_of_unique(v, ssn, i as int);
                }
                return Some(i);
            }
            i += 1;
        }
        None
    }

    /// The place where a set with that stream sequence number belongs.
    fn find_set_place(&self, ssn: u16) -> (p: usize)
        ensures
            is_set_place(self@.ordered, ssn, p as int),
            p == choose|q: int| is_set_place(self@.ordered, ssn, q),
    {
        let ghost v = self@.ordered;
        let mut p: usize = 0;
        while p < self.ordered.len() && !sna16lt(ssn, self.ordered[p].ssn)
            invariant
                p <= self.ordered.len(),
                v == self@.ordered,
                forall|i: int| 0 <= i < p ==> !serial16_before(ssn, (#[trigger] v[i]).ssn),
            decreases self.ordered.len() - p,
        {
            assert(v[p as int] == self.ordered[p as int]@);
            p += 1;
        }
        assert(p < self.ordered.len() ==> v[p as int] == self.ordered[p as int]@);
        proof {
            lemma_set_place_unique(v, ssn, p as int);
        }
        p
    }

    /// Stores a chunk that has arrived, unless it is of another stream, was passed already or is
    /// there already. Tells whether its message is now whole.
    pub fn push(&mut self, chunk: ChunkPayloadData) -> (r: bool)
        requires
            old(self).wf(),
            old(self)@.held_bytes() + chunk@.user_data.len() <= usize::MAX,
        ensures
            final(self).wf(),
            final(self)@ == old(self)@.pushed(chunk@),
            r == old(self)@.completes(chunk@),
    {
        if chunk.stream_identifier != self.si {
            return false;
        }
        if chunk.unordered {
            self.push_unordered(chunk)
        } else if sna16lt(chunk.stream_sequence_number, self.next_ssn) {
            false
        } else {
            self.push_ordered(chunk)
        }
    }

    fn push_unordered(&mut self, chunk: ChunkPayloadData) -> (r: bool)
        requires
            old(self).wf(),
            old(self)@.held_bytes() + chunk@.user_data.len() <= usize::MAX,
        ensures
            final(self).wf(),
            final(self)@ == old(self)@.with_unordered(chunk@),
            r == has_message(with_chunk(old(self)@.fragments, chunk@)),
    {
        let ghost c = chunk@;
        let ghost size = |c: DataChunk| c.user_data.len();
        let ghost set_size = |x: FragmentSet| data_len(x.chunks);
        let ghost all = with_chunk(self@.fragments, c);
        proof {
            lemma_with_chunk_len(self@.fragments, c);
        }
        self.n_bytes += chunk.user_data.len();
        insert_chunk(&mut self.unordered_chunks, chunk);
        match find_message(&self.unordered_chunks) {
            Some((s, e)) => {
                let ghost unordered = self@.unordered;
                proof {
                    lemma_first_message_unique(all, s as int, e as int);
                }
                let ppi: PayloadProtocolIdentifier = self.unordered_chunks[s].payload_type;
                assert(all[s as int].payload_type == ppi) by {
                    assert(all[s as int] == self.unordered_chunks[s as int]@);
                }
                let chunks: Vec<ChunkPayloadData> = extract(&mut self.unordered_chunks, s, e);
                assert(chunk_views(chunks@) =~= all.subrange(s as int, e as int));
                let set = Chunks::new(0, ppi, chunks);
                self.unordered.push(set);
                proof {
                    let a = all.subrange(0, s as int);
                    let m = all.subrange(s as int, e as int);
                    let b = all.subrange(e as int, all.len() as int);
                    assert(self@.unordered =~= unordered.push(set@));
                    assert(self@.fragments =~= a + b);
                    assert(all =~= (a + m) + b);
                    lemma_total_concat(a + m, b, size);
                    lemma_total_concat(a, m, size);
                    lemma_total_concat(a, b, size);
                    assert(self@.unordered.drop_last() =~= unordered);
                    assert(is_whole(m)) by {
                        assert forall|i: int| 0 < i < m.len() implies #[trigger] follows(m, i) by {
                            assert(follows(all, s + i));
                        }
                    }
                    assert forall|i: int| 0 <= i < self@.unordered.len() implies is_whole(
                        (#[trigger] self@.unordered[i]).chunks,
                    ) by {
                        if i < unordered.len() {
                            assert(self@.unordered[i] == unordered[i]);
                        }
                    }
                    assert forall|i: int| 0 <= i < self@.unordered.len() implies (
                    #[trigger] self@.unordered[i]).index == 0 && self@.unordered[i].offset == 0 by {
                        if i < unordered.len() {
                            assert(self@.unordered[i] == unordered[i]);
                        }
                    }
                    assert(has_message(all));
                }
                true
            },
            None => false,
        }
    }

    fn push_ordered(&mut self, chunk: ChunkPayloadData) -> (r: bool)
        requires
            old(self).wf(),
            old(self)@.held_bytes() + chunk@.user_data.len() <= usize::MAX,
            chunk.stream_identifier == old(self).si,
            !chunk.unordered,
            !serial16_before(chunk.stream_sequence_number, old(self).next_ssn),
        ensures
            final(self).wf(),
            final(self)@ == old(self)@.pushed(chunk@),
            r == old(self)@.completes(chunk@),
    {
        let ghost c = chunk@;
        let ghost before = self@;
        let ghost set_size = |x: FragmentSet| data_len(x.chunks);
        let ssn: u16 = chunk.stream_sequence_number;
        let n: usize = chunk.user_data.len();
        match self.find_set(ssn) {
            Some(i) => {
                let known: usize = self.ordered[i].chunks.len();
                assert(before.ordered[i as int] == self.ordered[i as int]@);
                let whole: bool = self.ordered[i].push(chunk);
                let ghost set = before.ordered[i as int];
                assert(self@.ordered =~= before.ordered.update(i as int, set.with_fragment(c)));
                proof {
                    lemma_total_update(before.ordered, i as int, set.with_fragment(c), set_size);
                    lemma_with_chunk_len(set.chunks, c);
                    let p = lemma_chunk_place_exists(set.chunks, c.tsn);
                    lemma_chunk_place_unique(set.chunks, c.tsn, p);
                }
                if self.ordered[i].chunks.len() != known {
                    self.n_bytes += n;
                } else {
                    assert(before.ordered.update(i as int, set) =~= before.ordered);
                }
                whole
            },
            None => {
                let p: usize = self.find_set_place(ssn);
                let mut set = Chunks::new(ssn, chunk.payload_type, Vec::new());
                assert(set@.chunks =~= Seq::<DataChunk>::empty());
                let whole: bool = set.push(chunk);
                proof {
                    assert(is_chunk_place(Seq::<DataChunk>::empty(), c.tsn, 0));
                    lemma_chunk_place_unique(Seq::<DataChunk>::empty(), c.tsn, 0);
                    assert(set@.chunks =~= seq![c]);
                    assert(set@ =~= FragmentSet::unread(ssn, c.payload_type, seq![c]));
                    lemma_total_insert(before.ordered, p as int, set@, set_size);
                    lemma_with_chunk_len(Seq::<DataChunk>::empty(), c);
                }
                self.ordered.insert(p, set);
                assert(self@.ordered =~= before.ordered.insert(p as int, set@));
                self.n_bytes += n;
                whole
            },
        }
    }

    /// Takes the message that is to be read next, if there is one.
    pub fn read(&mut self) -> (r: Option<Chunks>)
        requires
            old(self).wf(),
        ensures
            final(self).wf(),
            final(self)@ == old(self)@.after_read(),
            match r {
                Some(set) => old(self)@.next_message() == Some(set@),
                None => old(self)@.next_message() is None,
            },
    {
        let ghost before = self@;
        let ghost set_size = |x: FragmentSet| data_len(x.chunks);
        let set: Chunks = if self.unordered.len() > 0 {
            assert(before.unordered[0] == self.unordered[0]@);
            let set: Chunks = self.unordered.remove(0);
            proof {
                assert(self@.unordered =~= before.unordered.remove(0));
                lemma_total_remove(before.unordered, 0, set_size);
            }
            set
        } else if self.ordered.len() > 0 {
            assert(before.ordered[0] == self.ordered[0]@);
            if !self.ordered[0].is_complete() || sna16gt(self.ordered[0].ssn, self.next_ssn) {
                return None;
            }
            if self.ordered[0].ssn == self.next_ssn {
                self.next_ssn = self.next_ssn.wrapping_add(1);
            }
            let set: Chunks = self.ordered.remove(0);
            proof {
                assert(self@.ordered =~= before.ordered.remove(0));
                lemma_total_remove(before.ordered, 0, set_size);
            }
            set
        } else {
            return None;
        };
        self.n_bytes -= set.len();
        Some(set)
    }

    /// Gives up the ordered messages up to `last_ssn` that are not whole, and waits for none of
    /// them any more.
    pub fn forward_tsn_for_ordered(&mut self, last_ssn: u16)
        requires
            old(self).wf(),
        ensures
            final(self).wf(),
            final(self)@ == old(self)@.after_forward_ordered(last_ssn),
    {
        let ghost sets = self@.ordered;
        let ghost keep = |x: FragmentSet| outlives_forward(x, last_ssn);
        let ghost set_size = |x: FragmentSet| data_len(x.chunks);
        let ghost mut done: int = 0;
        let mut i: usize = 0;
        assert(sets.take(0).filter(keep) =~= Seq::<FragmentSet>::empty()) by {
            reveal(Seq::filter);
        }
        assert(sets.take(0).filter(keep) + sets.skip(0) =~= sets);
        while i < self.ordered.len()
            invariant
                0 <= done <= sets.len(),
                i == sets.take(done).filter(keep).len(),
                self@.ordered == sets.take(done).filter(keep) + sets.skip(done),
                self@ == (ReassemblyState { ordered: self@.ordered, ..old(self)@ }),
                self.wf(),
                keep == |x: FragmentSet| outlives_forward(x, last_ssn),
                set_size == |x: FragmentSet| data_len(x.chunks),
            decreases self.ordered.len() - i,
        {
            let ghost before = self@.ordered;
            proof {
                assert(before[i as int] == sets[done]);
                assert(before[i as int] == self.ordered[i as int]@);
                lemma_filter_take(sets, done, keep);
                lemma_total_remove(before, i as int, set_size);
            }
            if !sna16lte(self.ordered[i].ssn, last_ssn) || self.ordered[i].is_complete() {
                i += 1;
                assert(before =~= sets.take(done + 1).filter(keep) + sets.skip(done + 1));
            } else {
                let set: Chunks = self.ordered.remove(i);
                assert(self@.ordered =~= before.remove(i as int));
                self.n_bytes -= set.len();
                assert(self@.ordered =~= sets.take(done + 1).filter(keep) + sets.skip(done + 1));
            }
            proof {
                done = done + 1;
            }
        }
        assert(done == sets.len());
        assert(sets.take(done) =~= sets);
        assert(self@.ordered =~= sets.filter(keep));
        if sna16lte(self.next_ssn, last_ssn) {
            self.next_ssn = last_ssn.wrapping_add(1);
        }
    }

    /// Gives up the fragments of unordered messages up to `new_cumulative_tsn`.
    pub fn forward_tsn_for_unordered(&mut self, new_cumulative_tsn: u32)
        requires
            old(self).wf(),
        ensures
            final(self).wf(),
            final(self)@ == old(self)@.after_forward_unordered(new_cumulative_tsn),
    {
        let ghost all = self@.fragments;
        let ghost keep = |c: DataChunk| tsn_is_newer(c, new_cumulative_tsn);
        let ghost size = |c: DataChunk| c.user_data.len();
        let ghost mut done: int = 0;
        let mut i: usize = 0;
        assert(all.take(0).filter(keep) =~= Seq::<DataChunk>::empty()) by {
            reveal(Seq::filter);
        }
        assert(all.take(0).filter(keep) + all.skip(0) =~= all);
        while i < self.unordered_chunks.len()
            invariant
                0 <= done <= all.len(),
                i == all.take(done).filter(keep).len(),
                self@.fragments == all.take(done).filter(keep) + all.skip(done),
                self@ == (ReassemblyState { fragments: self@.fragments, ..old(self)@ }),
                self.wf(),
                keep == |c: DataChunk| tsn_is_newer(c, new_cumulative_tsn),
                size == |c: DataChunk| c.user_data.len(),
            decreases self.unordered_chunks.len() - i,
        {
            let ghost before = self@.fragments;
            proof {
                assert(before[i as int] == all[done]);
                assert(before[i as int] == self.unordered_chunks[i as int]@);
                lemma_filter_take(all, done, keep);
                lemma_total_remove(before, i as int, size);
            }
            if sna32gt(self.unordered_chunks[i].tsn, new_cumulative_tsn) {
                i += 1;
                assert(before =~= all.take(done + 1).filter(keep) + all.skip(done + 1));
            } else {
                let chunk: ChunkPayloadData = self.unordered_chunks.remove(i);
                assert(self@.fragments =~= before.remove(i as int));
                self.n_bytes -= chunk.user_data.len();
                assert(self@.fragments =~= all.take(done + 1).filter(keep) + all.skip(done + 1));
            }
            proof {
                done = done + 1;
            }
        }
        assert(done == all.len());
        assert(all.take(done) =~= all);
        assert(self@.fragments =~= all.filter(keep));
    }

    /// The number of bytes of user data in the queue.
    pub fn get_num_bytes(&self) -> (r: usize)
        requires
            self.wf(),
        ensures
            r == self@.held_bytes(),
    {
        self.n_bytes
    }
}

/// One more element passes through a filter or does not.
pub proof fn lemma_filter_take<A>(s: Seq<A>, i: int, keep: spec_fn(A) -> bool)
    requires
        0 <= i < s.len(),
    ensures
        s.take(i + 1).filter(keep) == (if keep(s[i]) {
            s.take(i).filter(keep).push(s[i])
        } else {
            s.take(i).filter(keep)
        }),
{
    reveal(Seq::filter);
    assert(s.take(i + 1).drop_last() =~= s.take(i));
}

} // verus!
