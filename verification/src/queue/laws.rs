//! What holds of the queues, in terms of the chunks that go in and come out.

use vstd::prelude::*;

use crate::buf::bytes_content;
use crate::chunk::{joined_data, ChunkPayloadData, DataChunk, PayloadProtocolIdentifier};
use crate::queue::payload_queue::{given_up_with, marked_to_retransmit, PayloadQueue};
use crate::queue::reassembly_queue::{
    data_len, follows, has_message, has_set, is_first_message, is_message, is_set_of,
    is_set_place, is_whole, lemma_chunk_place_exists, lemma_chunk_place_unique,
    lemma_joined_concat, lemma_set_of_unique, lemma_set_place_unique,
    lemma_with_chunk_len, outlives_forward, tsn_is_newer, with_chunk, Chunks, FragmentSet,
    ReassemblyQueue, ReassemblyState,
};
use crate::queue::total::{
    lemma_total_concat, lemma_total_insert, lemma_total_one, lemma_total_remove,
    lemma_total_update,
};
use crate::util::serial16_before;

verus! {

/// Whether chunks are all fragments of a message in turn: the first one begins it, the last one ends
/// it, and each one has the transmission sequence number after that of the one before it.
pub open spec fn unbroken(chunks: Seq<DataChunk>) -> bool {
    &&& chunks.len() > 0
    &&& chunks[0].beginning_fragment
    &&& chunks[chunks.len() - 1].ending_fragment
    &&& forall|i: int, j: int|
        0 <= i < j < chunks.len() && j == i + 1 ==> (#[trigger] chunks[j]).tsn == ((
        #[trigger] chunks[i]).tsn + 1) % 0x1_0000_0000
}

/// Whether a list of chunks has all fragments of a message, one behind the other: from one that
/// begins a message to one that ends it, with neither in between.
pub open spec fn has_message_at(chunks: Seq<DataChunk>, s: int, e: int) -> bool {
    &&& 0 <= s < e <= chunks.len()
    &&& unbroken(chunks.subrange(s, e))
    &&& forall|i: int| s < i < e ==> !(#[trigger] chunks[i]).beginning_fragment
    &&& forall|i: int| s <= i < e - 1 ==> !(#[trigger] chunks[i]).ending_fragment
}

/// Whether a fragment is in one of some sets, under that stream sequence number.
pub open spec fn holds(sets: Seq<FragmentSet>, ssn: u16, c: DataChunk) -> bool {
    exists|i: int| 0 <= i < sets.len() && (#[trigger] sets[i]).ssn == ssn && sets[i].chunks.contains(c)
}

proof fn lemma_unbroken(chunks: Seq<DataChunk>)
    ensures
        unbroken(chunks) == is_whole(chunks),
{
    if unbroken(chunks) {
        assert forall|i: int| 0 < i < chunks.len() implies #[trigger] follows(chunks, i) by {
            assert(chunks[i].tsn == (chunks[i - 1].tsn + 1) % 0x1_0000_0000);
        }
    }
    if is_whole(chunks) {
        assert forall|i: int, j: int| 0 <= i < j < chunks.len() && j == i + 1 implies (
        #[trigger] chunks[j]).tsn == ((#[trigger] chunks[i]).tsn + 1) % 0x1_0000_0000 by {
            assert(follows(chunks, j));
        }
    }
}

proof fn lemma_message_at(chunks: Seq<DataChunk>, s: int, e: int)
    ensures
        has_message_at(chunks, s, e) == is_message(chunks, s, e),
{
    if 0 <= s < e <= chunks.len() {
        let run = chunks.subrange(s, e);
        lemma_unbroken(run);
        if is_message(chunks, s, e) {
            assert forall|i: int| 0 < i < run.len() implies #[trigger] follows(run, i) by {
                assert(follows(chunks, s + i));
            }
        }
        if has_message_at(chunks, s, e) {
            assert(run[0] == chunks[s] && run[run.len() - 1] == chunks[e - 1]);
            assert forall|i: int| s < i < e implies #[trigger] follows(chunks, i) by {
                assert(follows(run, i - s));
            }
        }
    }
}

proof fn lemma_first_message_exists(chunks: Seq<DataChunk>, s: int, e: int)
    requires
        is_message(chunks, s, e),
    ensures
        exists|s2: int, e2: int| is_first_message(chunks, s2, e2),
    decreases e,
{
    if exists|s2: int, e2: int| is_message(chunks, s2, e2) && e2 < e {
        let (s2, e2) = choose|s2: int, e2: int| is_message(chunks, s2, e2) && e2 < e;
        lemma_first_message_exists(chunks, s2, e2);
    } else {
        assert(is_first_message(chunks, s, e));
    }
}

proof fn lemma_set_place_exists(sets: Seq<FragmentSet>, ssn: u16) -> (p: int)
    ensures
        is_set_place(sets, ssn, p),
    decreases sets.len(),
{
    if sets.len() == 0 {
        0
    } else {
        let p = lemma_set_place_exists(sets.drop_last(), ssn);
        assert(forall|i: int| 0 <= i < sets.len() - 1 ==> sets.drop_last()[i] == sets[i]);
        if p < sets.len() - 1 {
            p
        } else if serial16_before(ssn, sets[p].ssn) {
            p
        } else {
            p + 1
        }
    }
}

proof fn lemma_has_set(sets: Seq<FragmentSet>, ssn: u16, i: int) -> (j: int)
    requires
        0 <= i < sets.len(),
        sets[i].ssn == ssn,
    ensures
        is_set_of(sets, ssn, j),
        has_set(sets, ssn),
    decreases i,
{
    if exists|k: int| 0 <= k < i && sets[k].ssn == ssn {
        let k = choose|k: int| 0 <= k < i && sets[k].ssn == ssn;
        lemma_has_set(sets, ssn, k)
    } else {
        assert(is_set_of(sets, ssn, i));
        i
    }
}

/// A fragment of an ordered message that was not passed already is kept when it arrives, however far
/// ahead its message is: the queue has its bytes more, it is there under the number of its message
/// next to all that was there, in the order of transmission, and nothing else changes.
pub proof fn law_fragment_is_held(q: ReassemblyState, c: DataChunk, ahead: int)
    requires
        c.stream_identifier == q.si,
        !c.unordered,
        0 <= ahead <= 0x8000,
        c.stream_sequence_number == (q.next_ssn + ahead) % 0x1_0000,
        forall|i: int, j: int|
            0 <= i < q.ordered.len() && 0 <= j < q.ordered[i].chunks.len() && q.ordered[i].ssn
                == c.stream_sequence_number ==> (#[trigger] q.ordered[i].chunks[j]).tsn != c.tsn,
    ensures
        q.pushed(c).held_bytes() == q.held_bytes() + c.user_data.len(),
        q.pushed(c) == (ReassemblyState { ordered: q.pushed(c).ordered, ..q }),
        holds(q.pushed(c).ordered, c.stream_sequence_number, c),
        forall|ssn: u16, x: DataChunk|
            holds(q.ordered, ssn, x) ==> #[trigger] holds(q.pushed(c).ordered, ssn, x),
        forall|ssn: u16, x: DataChunk| #[trigger]
            holds(q.pushed(c).ordered, ssn, x) ==> holds(q.ordered, ssn, x) || (x == c && ssn
                == c.stream_sequence_number),
        forall|i: int|
            0 <= i < q.ordered.len() && (#[trigger] q.ordered[i]).ssn != c.stream_sequence_number
                ==> q.pushed(c).ordered.contains(q.ordered[i]),
{
    let ssn = c.stream_sequence_number;
    let after = q.pushed(c);
    let size = |x: FragmentSet| data_len(x.chunks);
    assert(!serial16_before(ssn, q.next_ssn));
    if has_set(q.ordered, ssn) {
        let i = q.set_of(ssn);
        assert(is_set_of(q.ordered, ssn, i));
        let set = q.ordered[i];
        assert(!set.has_tsn(c.tsn)) by {
            if set.has_tsn(c.tsn) {
                let j = choose|j: int|
                    0 <= j < set.chunks.len() && (#[trigger] set.chunks[j]).tsn == c.tsn;
                assert(q.ordered[i].chunks[j].tsn != c.tsn);
            }
        }
        let more = set.with_fragment(c);
        let p = lemma_chunk_place_exists(set.chunks, c.tsn);
        lemma_chunk_place_unique(set.chunks, c.tsn, p);
        lemma_with_chunk_len(set.chunks, c);
        lemma_total_update(q.ordered, i, more, size);
        assert(after.ordered == q.ordered.update(i, more));
        assert(after.ordered[i] == more);
        assert(more.chunks == set.chunks.insert(p, c));
        assert(more.chunks[p] == c);
        assert forall|s: u16, x: DataChunk| holds(q.ordered, s, x) implies #[trigger] holds(
            after.ordered,
            s,
            x,
        ) by {
            let k = choose|k: int|
                0 <= k < q.ordered.len() && (#[trigger] q.ordered[k]).ssn == s
                    && q.ordered[k].chunks.contains(x);
            assert(after.ordered[k].ssn == s);
            if k == i {
                let j = choose|j: int| 0 <= j < set.chunks.len() && set.chunks[j] == x;
                if j < p {
                    assert(more.chunks[j] == x);
                } else {
                    assert(more.chunks[j + 1] == x);
                }
            }
        }
        assert forall|s: u16, x: DataChunk| #[trigger] holds(after.ordered, s, x) implies holds(
            q.ordered,
            s,
            x,
        ) || (x == c && s == ssn) by {
            let k = choose|k: int|
                0 <= k < after.ordered.len() && (#[trigger] after.ordered[k]).ssn == s
                    && after.ordered[k].chunks.contains(x);
            assert(q.ordered[k].ssn == s);
            if k == i && x != c {
                let j = choose|j: int| 0 <= j < more.chunks.len() && more.chunks[j] == x;
                if j < p {
                    assert(set.chunks[j] == x);
                } else {
                    assert(set.chunks[j - 1] == x);
                }
            }
        }
        assert forall|k: int|
            0 <= k < q.ordered.len() && (#[trigger] q.ordered[k]).ssn != ssn implies after.ordered.contains(
            q.ordered[k],
        ) by {
            assert(after.ordered[k] == q.ordered[k]);
        }
    } else {
        let p = lemma_set_place_exists(q.ordered, ssn);
        lemma_set_place_unique(q.ordered, ssn, p);
        let set = FragmentSet::unread(ssn, c.payload_type, seq![c]);
        assert(after.ordered == q.ordered.insert(p, set));
        lemma_total_insert(q.ordered, p, set, size);
        lemma_total_one(c, |x: DataChunk| x.user_data.len());
        assert(after.ordered[p] == set);
        assert(set.chunks[0] == c);
        assert forall|s: u16, x: DataChunk| holds(q.ordered, s, x) implies #[trigger] holds(
            after.ordered,
            s,
            x,
        ) by {
            let k = choose|k: int|
                0 <= k < q.ordered.len() && (#[trigger] q.ordered[k]).ssn == s
                    && q.ordered[k].chunks.contains(x);
            let to = if k < p {
                k
            } else {
                k + 1
            };
            assert(after.ordered[to] == q.ordered[k]);
        }
        assert forall|s: u16, x: DataChunk| #[trigger] holds(after.ordered, s, x) implies holds(
            q.ordered,
            s,
            x,
        ) || (x == c && s == ssn) by {
            let k = choose|k: int|
                0 <= k < after.ordered.len() && (#[trigger] after.ordered[k]).ssn == s
                    && after.ordered[k].chunks.contains(x);
            if k < p {
                assert(q.ordered[k] == after.ordered[k]);
            } else if k > p {
                assert(q.ordered[k - 1] == after.ordered[k]);
            }
        }
        assert forall|k: int|
            0 <= k < q.ordered.len() && (#[trigger] q.ordered[k]).ssn != ssn implies after.ordered.contains(
            q.ordered[k],
        ) by {
            let to = if k < p {
                k
            } else {
                k + 1
            };
            assert(after.ordered[to] == q.ordered[k]);
        }
    }
}

/// A fragment of another stream, of an ordered message that was passed already, or that is there
/// already, changes nothing, and completes nothing.
pub proof fn law_stray_fragment_changes_nothing(q: ReassemblyState, c: DataChunk, behind: int, i: int)
    requires
        0 < behind < 0x8000,
        c.stream_identifier != q.si || (!c.unordered && q.next_ssn == (c.stream_sequence_number
            + behind) % 0x1_0000) || (!c.unordered && 0 <= i < q.ordered.len() && q.ordered[i].ssn
            == c.stream_sequence_number && q.ordered[i].chunks.contains(c) && (forall|j: int|
            0 <= j < i ==> (#[trigger] q.ordered[j]).ssn != c.stream_sequence_number)),
    ensures
        q.pushed(c) == q,
        !q.completes(c),
{
    let ssn = c.stream_sequence_number;
    if !c.unordered && 0 <= i < q.ordered.len() && q.ordered[i].ssn == ssn
        && q.ordered[i].chunks.contains(c) && (forall|j: int|
        0 <= j < i ==> (#[trigger] q.ordered[j]).ssn != ssn) {
        assert(is_set_of(q.ordered, ssn, i));
        lemma_set_of_unique(q.ordered, ssn, i);
        let j = choose|j: int| 0 <= j < q.ordered[i].chunks.len() && q.ordered[i].chunks[j] == c;
        assert(q.ordered[i].chunks[j].tsn == c.tsn);
        assert(q.ordered[i].has_tsn(c.tsn));
    }
}

/// An ordered message is reported whole with the arrival of the fragment that was missing: then all
/// of its fragments are there in turn.
pub proof fn law_whole_ordered_message_is_reported(q: ReassemblyState, c: DataChunk, i: int)
    requires
        !c.unordered,
        q.pushed(c) != q,
        0 <= i < q.pushed(c).ordered.len(),
        q.pushed(c).ordered[i].ssn == c.stream_sequence_number,
        forall|j: int|
            0 <= j < i ==> (#[trigger] q.pushed(c).ordered[j]).ssn != c.stream_sequence_number,
    ensures
        q.completes(c) == unbroken(q.pushed(c).ordered[i].chunks),
{
    let ssn = c.stream_sequence_number;
    let after = q.pushed(c);
    lemma_unbroken(after.ordered[i].chunks);
    if has_set(q.ordered, ssn) {
        let k = q.set_of(ssn);
        assert(is_set_of(q.ordered, ssn, k));
        assert(after.ordered[k].ssn == ssn);
        if i < k {
            assert(q.ordered[i].ssn != ssn);
            assert(after.ordered[i] == q.ordered[i]);
        }
        assert(i == k);
    } else {
        let p = lemma_set_place_exists(q.ordered, ssn);
        lemma_set_place_unique(q.ordered, ssn, p);
        assert forall|j: int| 0 <= j < q.ordered.len() implies (#[trigger] q.ordered[j]).ssn != ssn by {
            if q.ordered[j].ssn == ssn {
                let k = lemma_has_set(q.ordered, ssn, j);
            }
        }
        assert(after.ordered[p].ssn == ssn);
        if i < p {
            assert(after.ordered[i] == q.ordered[i]);
        } else if i > p {
            assert(after.ordered[i] == q.ordered[i - 1]);
        }
        assert(i == p);
    }
}

/// A fragment of an unordered message is kept when it arrives, whatever its stream sequence number.
/// No fragment is lost: either all wait for the rest of their messages, and no message is there as a
/// whole; or just the fragments of one message, in turn, have become a message that can be read
/// behind those that could be read before.
pub proof fn law_unordered_fragment_is_held(q: ReassemblyState, c: DataChunk)
    requires
        c.stream_identifier == q.si,
        c.unordered,
    ensures
        ({
            let after = q.pushed(c);
            let there = q.fragments.to_multiset().insert(c);
            &&& after.held_bytes() == q.held_bytes() + c.user_data.len()
            &&& after == (ReassemblyState {
                unordered: after.unordered,
                fragments: after.fragments,
                ..q
            })
            &&& if q.completes(c) {
                &&& after.unordered.len() == q.unordered.len() + 1
                &&& after.unordered.drop_last() == q.unordered
                &&& unbroken(after.unordered.last().chunks)
                &&& after.unordered.last().index == 0 && after.unordered.last().offset == 0
                &&& after.unordered.last().ppi == after.unordered.last().chunks[0].payload_type
                &&& after.fragments.to_multiset().add(
                    after.unordered.last().chunks.to_multiset(),
                ) == there
            } else {
                &&& after.unordered == q.unordered
                &&& after.fragments.to_multiset() == there
                &&& forall|s: int, e: int| !#[trigger] has_message_at(after.fragments, s, e)
            }
        }),
{
    let after = q.pushed(c);
    let all = with_chunk(q.fragments, c);
    let p = lemma_chunk_place_exists(q.fragments, c.tsn);
    let size = |x: DataChunk| x.user_data.len();
    lemma_chunk_place_unique(q.fragments, c.tsn, p);
    lemma_with_chunk_len(q.fragments, c);
    vstd::seq_lib::to_multiset_insert(q.fragments, p, c);
    if has_message(all) {
        let (s0, e0) = choose|s: int, e: int| is_message(all, s, e);
        lemma_first_message_exists(all, s0, e0);
        let (s, e) = choose|s: int, e: int| is_first_message(all, s, e);
        lemma_message_at(all, s, e);
        let a = all.subrange(0, s);
        let m = all.subrange(s, e);
        let b = all.subrange(e, all.len() as int);
        let set = FragmentSet::unread(0, all[s].payload_type, m);
        assert(all =~= (a + m) + b);
        lemma_total_concat(a + m, b, size);
        lemma_total_concat(a, m, size);
        lemma_total_concat(a, b, size);
        assert(after.unordered =~= q.unordered.push(set));
        assert(after.unordered.drop_last() =~= q.unordered);
        assert(after.fragments == a + b);
        vstd::seq_lib::lemma_multiset_commutative(a + m, b);
        vstd::seq_lib::lemma_multiset_commutative(a, m);
        vstd::seq_lib::lemma_multiset_commutative(a, b);
        assert((a + b).to_multiset().add(m.to_multiset()) =~= all.to_multiset());
    } else {
        assert forall|s: int, e: int| !#[trigger] has_message_at(after.fragments, s, e) by {
            lemma_message_at(all, s, e);
        }
    }
}

/// What is read next: whole unordered messages go first, in the order in which they became whole;
/// then the first ordered message, provided that all of its fragments are there in turn and that it
/// is the one that is expected or one before it. Only that message goes, with its bytes; the message
/// that is expected is the next one where the expected one went.
pub proof fn law_read_takes_what_is_next(q: ReassemblyState, behind: int)
    requires
        q.unordered.len() == 0 && q.ordered.len() > 0 ==> 0 <= behind < 0x1_0000 && q.next_ssn == (
        q.ordered[0].ssn + behind) % 0x1_0000,
    ensures
        q.unordered.len() > 0 ==> {
            &&& q.next_message() == Some(q.unordered[0])
            &&& q.after_read() == (ReassemblyState { unordered: q.unordered.skip(1), ..q })
        },
        q.unordered.len() == 0 && q.ordered.len() > 0 && unbroken(q.ordered[0].chunks) && behind
            < 0x8000 ==> {
            &&& q.next_message() == Some(q.ordered[0])
            &&& q.after_read() == (ReassemblyState {
                ordered: q.ordered.skip(1),
                next_ssn: if behind == 0 {
                    ((q.next_ssn + 1) % 0x1_0000) as u16
                } else {
                    q.next_ssn
                },
                ..q
            })
        },
        q.unordered.len() == 0 && (q.ordered.len() == 0 || !unbroken(q.ordered[0].chunks) || behind
            >= 0x8000) ==> q.next_message() is None && q.after_read() == q,
        q.next_message() matches Some(m) ==> q.after_read().held_bytes() + data_len(m.chunks)
            == q.held_bytes(),
{
    let size = |x: FragmentSet| data_len(x.chunks);
    if q.unordered.len() > 0 {
        assert(q.unordered.remove(0) =~= q.unordered.skip(1));
        lemma_total_remove(q.unordered, 0, size);
    } else if q.ordered.len() > 0 {
        lemma_unbroken(q.ordered[0].chunks);
        assert(q.ordered.remove(0) =~= q.ordered.skip(1));
        lemma_total_remove(q.ordered, 0, size);
    }
}

/// The bytes that a queue holds are those of the fragments in it: none where there are none.
pub proof fn law_empty_queue_holds_nothing(q: ReassemblyState, si: u16)
    ensures
        q.ordered.len() == 0 && q.unordered.len() == 0 && q.fragments.len() == 0 ==> q.held_bytes()
            == 0,
        ReassemblyState::fresh(si) == (ReassemblyState {
            si,
            next_ssn: 0,
            ordered: Seq::empty(),
            unordered: Seq::empty(),
            fragments: Seq::empty(),
        }),
        q.discarded().held_bytes() == 0,
        q.discarded().next_message() is None,
        q.discarded().si == q.si,
        q.discarded().next_ssn == q.next_ssn,
        q.discarded().ordered.len() == 0,
        q.discarded().unordered.len() == 0,
        q.discarded().fragments.len() == 0,
{
}

/// Once the sender has skipped the ordered messages up to `last`, those among them that are not whole
/// are gone, all others stay in their order, and the first that is expected is one behind `last`,
/// unless it was already.
pub proof fn law_skipped_messages_are_given_up(q: ReassemblyState, last: u16)
    ensures
        q.after_forward_ordered(last).ordered == q.ordered.filter(
            |x: FragmentSet| (last - x.ssn) % 0x1_0000 >= 0x8000 || unbroken(x.chunks),
        ),
        q.after_forward_ordered(last).next_ssn == (if (last - q.next_ssn) % 0x1_0000 < 0x8000 {
            (last + 1) % 0x1_0000
        } else {
            q.next_ssn as int
        }),
        q.after_forward_ordered(last).si == q.si,
        q.after_forward_ordered(last).unordered == q.unordered,
        q.after_forward_ordered(last).fragments == q.fragments,
{
    let stays = |x: FragmentSet| (last - x.ssn) % 0x1_0000 >= 0x8000 || unbroken(x.chunks);
    let keep = |x: FragmentSet| outlives_forward(x, last);
    assert forall|x: FragmentSet| #[trigger] stays(x) == keep(x) by {
        lemma_unbroken(x.chunks);
    }
    lemma_filter_same(q.ordered, stays, keep);
}

/// Once the sender has skipped the unordered chunks up to a transmission sequence number, the waiting
/// fragments up to it are gone, and all others stay in their order.
pub proof fn law_skipped_fragments_are_given_up(q: ReassemblyState, tsn: u32)
    ensures
        q.after_forward_unordered(tsn).fragments == q.fragments.filter(
            |c: DataChunk| 0 < (c.tsn - tsn) % 0x1_0000_0000 <= 0x8000_0000,
        ),
        q.after_forward_unordered(tsn) == (ReassemblyState {
            fragments: q.after_forward_unordered(tsn).fragments,
            ..q
        }),
{
    let stays = |c: DataChunk| 0 < (c.tsn - tsn) % 0x1_0000_0000 <= 0x8000_0000;
    let keep = |c: DataChunk| tsn_is_newer(c, tsn);
    assert forall|c: DataChunk| #[trigger] stays(c) == keep(c) by {}
    lemma_filter_same(q.fragments, stays, keep);
}

/// Two ways to choose that agree choose the same.
pub proof fn lemma_filter_same<A>(s: Seq<A>, f: spec_fn(A) -> bool, g: spec_fn(A) -> bool)
    requires
        forall|x: A| #[trigger] f(x) == g(x),
    ensures
        s.filter(f) == s.filter(g),
    decreases s.len(),
{
    reveal(Seq::filter);
    if s.len() > 0 {
        lemma_filter_same(s.drop_last(), f, g);
        assert(f(s.last()) == g(s.last()));
    }
}

/// The data of chunks is the data of the first ones followed by that of the others, and the data of
/// one chunk is its own.
pub proof fn law_data_is_joined_in_order(a: Seq<DataChunk>, b: Seq<DataChunk>, c: DataChunk)
    ensures
        joined_data(a + b) == joined_data(a) + joined_data(b),
        joined_data(seq![c]) == c.user_data,
        joined_data(Seq::<DataChunk>::empty()) == Seq::<u8>::empty(),
{
    lemma_joined_concat(a, b);
    assert(seq![c].drop_last() =~= Seq::<DataChunk>::empty());
    assert(joined_data(seq![c].drop_last()) =~= Seq::<u8>::empty());
    assert(joined_data(seq![c]) =~= c.user_data);
}

/// What has been taken of a message is gone from what is left of it, from the front on; of a message
/// of which nothing was taken, all is left.
pub proof fn law_unread_data_is_the_rest(set: FragmentSet)
    ensures
        set.index == 0 && set.offset == 0 ==> set.unread_data() == joined_data(set.chunks),
        set.wf() ==> set.unread_data() == joined_data(set.chunks).skip(
            joined_data(set.chunks.take(set.index as int)).len() as int + set.offset as int,
        ),
        set.index == set.chunks.len() && set.offset == 0 ==> set.unread_data()
            == Seq::<u8>::empty(),
{
    if set.index <= set.chunks.len() {
        let head = set.chunks.take(set.index as int);
        let tail = set.chunks.skip(set.index as int);
        assert(set.chunks =~= head + tail);
        lemma_joined_concat(head, tail);
        if set.wf() {
            if set.index < set.chunks.len() {
                let here = set.chunks[set.index as int];
                assert(tail =~= seq![here] + tail.skip(1));
                lemma_joined_concat(seq![here], tail.skip(1));
                law_data_is_joined_in_order(seq![here], tail.skip(1), here);
            }
            assert(set.unread_data() =~= joined_data(set.chunks).skip(
                joined_data(head).len() as int + set.offset as int,
            ));
        }
        if set.index == 0 && set.offset == 0 {
            assert(tail =~= set.chunks);
            assert(set.unread_data() =~= joined_data(set.chunks));
        }
        if set.index == set.chunks.len() {
            assert(tail =~= Seq::<DataChunk>::empty());
        }
    }
}

/// Whether `after` are the chunks `before` with one more, in the order of transmission: behind every
/// chunk that it is not sent before, up to the first that it is sent before.
pub open spec fn put_in(before: Seq<DataChunk>, c: DataChunk, after: Seq<DataChunk>, p: int) -> bool {
    &&& 0 <= p <= before.len()
    &&& after == before.insert(p, c)
    &&& forall|i: int|
        0 <= i < p ==> !(0 < ((#[trigger] before[i]).tsn - c.tsn) % 0x1_0000_0000 < 0x8000_0000)
    &&& p < before.len() ==> 0 < (before[p].tsn - c.tsn) % 0x1_0000_0000 < 0x8000_0000
}

/// Where a fragment of an ordered message goes: to the other fragments of its message, in the order of
/// transmission; or, where it is the first to arrive, it begins a set of its own in the order of the
/// messages.
pub proof fn law_fragment_goes_to_its_message(q: ReassemblyState, c: DataChunk, ahead: int, i: int) -> (p:
    int)
    requires
        c.stream_identifier == q.si,
        !c.unordered,
        0 <= ahead <= 0x8000,
        c.stream_sequence_number == (q.next_ssn + ahead) % 0x1_0000,
        (forall|k: int|
            0 <= k < q.ordered.len() ==> (#[trigger] q.ordered[k]).ssn != c.stream_sequence_number)
            || (0 <= i < q.ordered.len() && q.ordered[i].ssn == c.stream_sequence_number && (forall|
            k: int,
        |
            0 <= k < i ==> (#[trigger] q.ordered[k]).ssn != c.stream_sequence_number) && (forall|
            j: int,
        |
            0 <= j < q.ordered[i].chunks.len() ==> (#[trigger] q.ordered[i].chunks[j]).tsn
                != c.tsn)),
    ensures
        ({
            let after = q.pushed(c).ordered;
            let ssn = c.stream_sequence_number;
            if forall|k: int| 0 <= k < q.ordered.len() ==> (#[trigger] q.ordered[k]).ssn != ssn {
                &&& 0 <= p <= q.ordered.len()
                &&& after == q.ordered.insert(
                    p,
                    FragmentSet {
                        ssn,
                        ppi: c.payload_type,
                        chunks: seq![c],
                        index: 0,
                        offset: 0,
                    },
                )
                &&& forall|k: int|
                    0 <= k < p ==> !(0 < ((#[trigger] q.ordered[k]).ssn - ssn) % 0x1_0000 < 0x8000)
                &&& p < q.ordered.len() ==> 0 < (q.ordered[p].ssn - ssn) % 0x1_0000 < 0x8000
            } else {
                &&& after.len() == q.ordered.len()
                &&& put_in(q.ordered[i].chunks, c, after[i].chunks, p)
                &&& after == q.ordered.update(
                    i,
                    FragmentSet { chunks: after[i].chunks, ..q.ordered[i] },
                )
            }
        }),
{
    let ssn = c.stream_sequence_number;
    assert(!serial16_before(ssn, q.next_ssn));
    if forall|k: int| 0 <= k < q.ordered.len() ==> (#[trigger] q.ordered[k]).ssn != ssn {
        assert(!has_set(q.ordered, ssn));
        let p = lemma_set_place_exists(q.ordered, ssn);
        lemma_set_place_unique(q.ordered, ssn, p);
        p
    } else {
        assert(is_set_of(q.ordered, ssn, i));
        lemma_set_of_unique(q.ordered, ssn, i);
        let set = q.ordered[i];
        assert(!set.has_tsn(c.tsn)) by {
            if set.has_tsn(c.tsn) {
                let j = choose|j: int|
                    0 <= j < set.chunks.len() && (#[trigger] set.chunks[j]).tsn == c.tsn;
                assert(q.ordered[i].chunks[j].tsn != c.tsn);
            }
        }
        let p = lemma_chunk_place_exists(set.chunks, c.tsn);
        lemma_chunk_place_unique(set.chunks, c.tsn, p);
        p
    }
}

/// Where a fragment of an unordered message goes: to the fragments that wait, in the order of
/// transmission. Where the fragments of a message are then there one behind the other, those of the
/// first message to be there so leave for the messages that can be read, and the others stay in their
/// order.
pub proof fn law_unordered_fragment_goes_in_order(q: ReassemblyState, c: DataChunk) -> (r: (
    int,
    int,
    int,
))
    requires
        c.stream_identifier == q.si,
        c.unordered,
    ensures
        ({
            let after = q.pushed(c);
            let (p, s, e) = r;
            let all = q.fragments.insert(p, c);
            &&& put_in(q.fragments, c, all, p)
            &&& q.completes(c) == (exists|b: int, d: int| has_message_at(all, b, d))
            &&& !q.completes(c) ==> after.fragments == all && after.unordered == q.unordered
            &&& q.completes(c) ==> {
                &&& has_message_at(all, s, e)
                &&& forall|b: int, d: int| #[trigger] has_message_at(all, b, d) ==> e <= d
                &&& after.fragments == all.take(s) + all.skip(e)
                &&& after.unordered == q.unordered.push(
                    FragmentSet {
                        ssn: 0,
                        ppi: all[s].payload_type,
                        chunks: all.subrange(s, e),
                        index: 0,
                        offset: 0,
                    },
                )
            }
        }),
{
    let all = with_chunk(q.fragments, c);
    let p = lemma_chunk_place_exists(q.fragments, c.tsn);
    lemma_chunk_place_unique(q.fragments, c.tsn, p);
    assert(all == q.fragments.insert(p, c));
    assert forall|b: int, d: int| #[trigger] has_message_at(all, b, d) == is_message(all, b, d) by {
        lemma_message_at(all, b, d);
    }
    if has_message(all) {
        let (s0, e0) = choose|s: int, e: int| is_message(all, s, e);
        lemma_first_message_exists(all, s0, e0);
        let (s, e) = choose|s: int, e: int| is_first_message(all, s, e);
        lemma_message_at(all, s, e);
        assert(has_message_at(all, s, e));
        assert(all.take(s) =~= all.subrange(0, s));
        assert(all.skip(e) =~= all.subrange(e, all.len() as int));
        assert forall|b: int, d: int| #[trigger] has_message_at(all, b, d) implies e <= d by {
            lemma_message_at(all, b, d);
        }
        (p, s, e)
    } else {
        (p, 0, 0)
    }
}

/// A chunk in flight as it is marked to be sent again, and as it is given up with its stream.
pub proof fn law_marked_chunk(c: DataChunk, id: u16)
    ensures
        marked_to_retransmit(c).retransmit == (c.retransmit || (!c.acked && !(c.abandoned
            && c.all_inflight))),
        marked_to_retransmit(c) == (DataChunk {
            retransmit: marked_to_retransmit(c).retransmit,
            ..c
        }),
        c.stream_identifier != id ==> given_up_with(c, id) == c,
        c.stream_identifier == id ==> given_up_with(c, id) == (DataChunk {
            abandoned: true,
            all_inflight: true,
            retransmit: false,
            ..c
        }),
        c.given_up() == (c.abandoned && c.all_inflight),
{
}

/// A blank chunk has nothing in it, and nothing has happened to it.
pub proof fn law_blank_chunk()
    ensures
        DataChunk::blank() == (DataChunk {
            unordered: false,
            beginning_fragment: false,
            ending_fragment: false,
            immediate_sack: false,
            tsn: 0,
            stream_identifier: 0,
            stream_sequence_number: 0,
            payload_type: PayloadProtocolIdentifier::Unknown,
            user_data: Seq::empty(),
            acked: false,
            miss_indicator: 0,
            since: None,
            nsent: 0,
            abandoned: false,
            all_inflight: false,
            retransmit: false,
        }),
{
}

/// The values of chunks, of sets of fragments and of the queues are those of their parts.
pub proof fn law_values_of_queues(
    c: ChunkPayloadData,
    set: Chunks,
    q: ReassemblyQueue,
    p: PayloadQueue,
    i: int,
)
    ensures
        c@ == (DataChunk {
            unordered: c.unordered,
            beginning_fragment: c.beginning_fragment,
            ending_fragment: c.ending_fragment,
            immediate_sack: c.immediate_sack,
            tsn: c.tsn,
            stream_identifier: c.stream_identifier,
            stream_sequence_number: c.stream_sequence_number,
            payload_type: c.payload_type,
            user_data: bytes_content(c.user_data),
            acked: c.acked,
            miss_indicator: c.miss_indicator,
            since: c.since,
            nsent: c.nsent,
            abandoned: c.abandoned,
            all_inflight: c.all_inflight,
            retransmit: c.retransmit,
        }),
        set@.ssn == set.ssn && set@.ppi == set.ppi && set@.index == set.index && set@.offset
            == set.offset,
        set@.chunks.len() == set.chunks@.len(),
        0 <= i < set.chunks@.len() ==> set@.chunks[i] == set.chunks@[i]@,
        q@.si == q.si && q@.next_ssn == q.next_ssn,
        q@.ordered.len() == q.ordered@.len(),
        0 <= i < q.ordered@.len() ==> q@.ordered[i] == q.ordered@[i]@,
        q@.unordered.len() == q.unordered@.len(),
        0 <= i < q.unordered@.len() ==> q@.unordered[i] == q.unordered@[i]@,
        q@.fragments.len() == q.unordered_chunks@.len(),
        0 <= i < q.unordered_chunks@.len() ==> q@.fragments[i] == q.unordered_chunks@[i]@,
        q.wf() ==> q.n_bytes == q@.held_bytes(),
        p@.len() == p.chunks@.len(),
        0 <= i < p.chunks@.len() ==> p@[i] == p.chunks@[i]@,
{
}

} // verus!
