//! What becomes of a message between the stream that sends it and the stream that receives it.

use vstd::prelude::*;

use crate::association::Association;
use crate::chunk::{chunk_views, joined_data, DataChunk, PayloadProtocolIdentifier};
use crate::error::Error;
use crate::queue::payload_queue::tsn_after;
use crate::queue::reassembly_queue::{
    follows, has_message, has_set, is_chunk_place, is_first_message, is_message, is_set_of, is_set_place,
    is_whole, lemma_chunk_place_unique, lemma_first_message_unique, lemma_set_of_unique,
    lemma_set_place_unique, with_chunk, Chunks, FragmentSet, ReassemblyState,
};
use crate::queue::total::total;
use crate::stream::handle::{readable, was_read, written};
use crate::stream::state::{
    fragment_count, lemma_fragment_bounds, min_of, ReliabilityType, StreamModel,
};
use crate::util::{serial16_before, serial32_before};

verus! {

/// Fragments as they are sent: with transmission sequence numbers that count up from `first`.
pub open spec fn numbered(fragments: Seq<DataChunk>, first: u32) -> Seq<DataChunk> {
    Seq::new(
        fragments.len(),
        |i: int| DataChunk { tsn: tsn_after(first, i), ..fragments[i] },
    )
}

/// The queue after chunks have arrived in some order, by their places.
pub open spec fn arrived(
    q: ReassemblyState,
    chunks: Seq<DataChunk>,
    order: Seq<int>,
) -> ReassemblyState
    decreases order.len(),
{
    if order.len() == 0 {
        q
    } else {
        arrived(q, chunks, order.drop_last()).pushed(chunks[order.last()])
    }
}

/// Whether each of the first `n` places occurs, and nothing else.
pub open spec fn covers(order: Seq<int>, n: nat) -> bool {
    &&& forall|k: int| 0 <= k < order.len() ==> 0 <= #[trigger] order[k] < n
    &&& forall|i: int| 0 <= i < n ==> #[trigger] order.contains(i)
}

/// The members of a set below `n`, in ascending order.
spec fn ascending(n: nat, s: Set<int>) -> Seq<int>
    decreases n,
{
    if n == 0 {
        Seq::empty()
    } else {
        let below = ascending((n - 1) as nat, s);
        if s.contains(n - 1) {
            below.push(n - 1)
        } else {
            below
        }
    }
}

spec fn picked(chunks: Seq<DataChunk>, places: Seq<int>) -> Seq<DataChunk> {
    places.map_values(|i: int| chunks[i])
}

proof fn lemma_ascending(n: nat, s: Set<int>)
    ensures
        ascending(n, s).len() <= n,
        forall|k: int|
            0 <= k < ascending(n, s).len() ==> 0 <= #[trigger] ascending(n, s)[k] < n && s.contains(
                ascending(n, s)[k],
            ),
        forall|k: int, l: int|
            0 <= k < l < ascending(n, s).len() ==> #[trigger] ascending(n, s)[k]
                < #[trigger] ascending(n, s)[l],
    decreases n,
{
    if n > 0 {
        lemma_ascending((n - 1) as nat, s);
    }
}

/// A new member goes behind the smaller ones and before the greater ones.
proof fn lemma_ascending_insert(n: nat, s: Set<int>, j: int)
    requires
        0 <= j < n,
        !s.contains(j),
    ensures
        ({
            let p = ascending(j as nat, s).len() as int;
            &&& p <= ascending(n, s).len()
            &&& ascending(n, s.insert(j)) == ascending(n, s).insert(p, j)
            &&& forall|k: int| 0 <= k < p ==> #[trigger] ascending(n, s)[k] < j
            &&& forall|k: int|
                p <= k < ascending(n, s).len() ==> #[trigger] ascending(n, s)[k] > j
        }),
    decreases n,
{
    let m = (n - 1) as nat;
    let p = ascending(j as nat, s).len() as int;
    lemma_ascending(m, s);
    if j == m {
        lemma_ascending_same(m, s, j);
        assert(ascending(n, s.insert(j)) =~= ascending(n, s).insert(p, j));
    } else {
        lemma_ascending_insert(m, s, j);
        assert(ascending(n, s.insert(j)) =~= ascending(n, s).insert(p, j));
    }
}

/// A member that is not below `n` does not matter.
proof fn lemma_ascending_same(n: nat, s: Set<int>, j: int)
    requires
        j >= n,
    ensures
        ascending(n, s.insert(j)) == ascending(n, s),
    decreases n,
{
    if n > 0 {
        lemma_ascending_same((n - 1) as nat, s, j);
    }
}

proof fn lemma_ascending_all(n: nat, s: Set<int>)
    requires
        forall|i: int| 0 <= i < n ==> s.contains(i),
    ensures
        ascending(n, s) == Seq::new(n, |i: int| i),
    decreases n,
{
    if n > 0 {
        lemma_ascending_all((n - 1) as nat, s);
    }
    assert(ascending(n, s) =~= Seq::new(n, |i: int| i));
}

/// The order of transmission sequence numbers is that of the fragments, as long as there are no
/// more than half as many as there are numbers.
proof fn lemma_tsn_order(first: u32, i: int, j: int)
    requires
        0 <= i < j <= 0x8000_0000,
    ensures
        tsn_after(first, i) != tsn_after(first, j),
        !serial32_before(tsn_after(first, j), tsn_after(first, i)),
        j - i < 0x8000_0000 ==> serial32_before(tsn_after(first, i), tsn_after(first, j)),
{
}

/// The data of the first `k` fragments is the message up to where they end.
proof fn lemma_fragments_join(
    sender: StreamModel,
    raw: Seq<u8>,
    ppi: PayloadProtocolIdentifier,
    first: u32,
    k: nat,
)
    requires
        sender.max_payload_size > 0,
        k <= fragment_count(raw.len(), sender.max_payload_size as nat),
    ensures
        joined_data(numbered(sender.fragments(raw, ppi), first).take(k as int)) == raw.take(
            min_of(k * sender.max_payload_size, raw.len() as int),
        ),
    decreases k,
{
    let max = sender.max_payload_size as nat;
    let all = numbered(sender.fragments(raw, ppi), first);
    if k == 0 {
        assert(all.take(0) =~= Seq::<DataChunk>::empty());
        assert(raw.take(0) =~= Seq::<u8>::empty());
        assert(joined_data(all.take(0)) =~= raw.take(0));
    } else {
        let j = (k - 1) as nat;
        lemma_fragments_join(sender, raw, ppi, first, j);
        lemma_place_in_message(raw.len(), max, j);
        lemma_fragment_bounds(raw.len(), max, j);
        assert(all.take(k as int).drop_last() =~= all.take(j as int));
        assert(all.take(k as int).last() == all[j as int]);
        let begin = j * max;
        let end = min_of((begin + max) as int, raw.len() as int);
        assert(raw.take(begin as int) + raw.subrange(begin as int, end) =~= raw.take(end));
    }
}

/// A fragment begins within the message.
proof fn lemma_place_in_message(len: nat, max: nat, k: nat)
    requires
        max > 0,
        k < fragment_count(len, max),
    ensures
        k * max < len,
{
    assert(k <= (len - 1) / (max as int) ==> k * max <= len - 1) by (nonlinear_arith)
        requires
            max > 0,
            len > 0,
    ;
}

/// The first fragment alone begins a message, and the last alone ends it.
proof fn lemma_fragment_ends(
    sender: StreamModel,
    raw: Seq<u8>,
    ppi: PayloadProtocolIdentifier,
    i: int,
)
    requires
        sender.max_payload_size > 0,
        raw.len() > 0,
        0 <= i < fragment_count(raw.len(), sender.max_payload_size as nat),
    ensures
        sender.fragment(raw, ppi, i).beginning_fragment == (i == 0),
        sender.fragment(raw, ppi, i).ending_fragment == (i == fragment_count(
            raw.len(),
            sender.max_payload_size as nat,
        ) - 1),
{
    let max = sender.max_payload_size as nat;
    lemma_place_in_message(raw.len(), max, i as nat);
    lemma_fragment_bounds(raw.len(), max, i as nat);
}

/// Together the fragments of a message hold its data.
proof fn lemma_fragments_hold(
    sender: StreamModel,
    raw: Seq<u8>,
    ppi: PayloadProtocolIdentifier,
    first: u32,
)
    requires
        sender.max_payload_size > 0,
        raw.len() > 0,
    ensures
        joined_data(numbered(sender.fragments(raw, ppi), first)) == raw,
{
    let max = sender.max_payload_size as nat;
    let all = numbered(sender.fragments(raw, ppi), first);
    let n = fragment_count(raw.len(), max);
    lemma_place_in_message(raw.len(), max, (n - 1) as nat);
    lemma_fragment_bounds(raw.len(), max, (n - 1) as nat);
    lemma_fragments_join(sender, raw, ppi, first, n);
    assert(all.take(n as int) =~= all);
    assert(raw.take(raw.len() as int) =~= raw);
}

/// The fragments of a message make it up.
proof fn lemma_fragments_whole(
    sender: StreamModel,
    raw: Seq<u8>,
    ppi: PayloadProtocolIdentifier,
    first: u32,
)
    requires
        sender.max_payload_size > 0,
        raw.len() > 0,
    ensures
        ({
            let all = numbered(sender.fragments(raw, ppi), first);
            &&& all.len() > 0
            &&& is_whole(all)
            &&& is_message(all, 0, all.len() as int)
        }),
{
    let all = numbered(sender.fragments(raw, ppi), first);
    let n = all.len() as int;
    assert forall|i: int| 0 <= i < n implies {
        &&& (#[trigger] all[i]).beginning_fragment == (i == 0)
        &&& all[i].ending_fragment == (i == n - 1)
    } by {
        lemma_fragment_ends(sender, raw, ppi, i);
    }
    assert forall|i: int| 0 < i < n implies #[trigger] follows(all, i) by {
        assert(all[i].tsn == tsn_after(first, i));
        assert(all[i - 1].tsn == tsn_after(first, i - 1));
    }
}

/// Where the next fragment goes among those that are there.
proof fn lemma_fragment_place(chunks: Seq<DataChunk>, first: u32, s: Set<int>, j: int)
    requires
        chunks.len() <= 0x8000_0000,
        forall|i: int|
            0 <= i < chunks.len() ==> (#[trigger] chunks[i]).tsn == tsn_after(first, i),
        0 <= j < chunks.len(),
        !s.contains(j),
    ensures
        with_chunk(picked(chunks, ascending(chunks.len(), s)), chunks[j]) == picked(
            chunks,
            ascending(chunks.len(), s.insert(j)),
        ),
        forall|k: int|
            0 <= k < ascending(chunks.len(), s).len() ==> (#[trigger] picked(
                chunks,
                ascending(chunks.len(), s),
            )[k]).tsn != chunks[j].tsn,
{
    let n = chunks.len();
    let places = ascending(n, s);
    let have = picked(chunks, places);
    let p = ascending(j as nat, s).len() as int;
    lemma_ascending(n, s);
    lemma_ascending_insert(n, s, j);
    assert forall|k: int| 0 <= k < p implies !serial32_before(
        chunks[j].tsn,
        (#[trigger] have[k]).tsn,
    ) by {
        assert(places[k] < j);
        lemma_tsn_order(first, places[k], j);
    }
    if p < have.len() {
        assert(places[p] > j);
        lemma_tsn_order(first, j, places[p]);
    }
    assert forall|k: int| 0 <= k < places.len() implies (#[trigger] have[k]).tsn
        != chunks[j].tsn by {
        if places[k] < j {
            lemma_tsn_order(first, places[k], j);
        } else {
            assert(places[k] > j) by {
                assert(s.contains(places[k]));
            }
            lemma_tsn_order(first, j, places[k]);
        }
    }
    assert(is_chunk_place(have, chunks[j].tsn, p));
    lemma_chunk_place_unique(have, chunks[j].tsn, p);
    assert(have.insert(p, chunks[j]) =~= picked(chunks, places.insert(p, j)));
}

/// The queue with a message, as far as it is there, before the others.
spec fn with_message(
    q: ReassemblyState,
    ssn: u16,
    ppi: PayloadProtocolIdentifier,
    chunks: Seq<DataChunk>,
) -> ReassemblyState {
    ReassemblyState {
        ordered: seq![FragmentSet::unread(ssn, ppi, chunks)] + q.ordered,
        ..q
    }
}

/// One fragment of an ordered message more, or once more.
proof fn lemma_ordered_fragment(
    q: ReassemblyState,
    ssn: u16,
    ppi: PayloadProtocolIdentifier,
    chunks: Seq<DataChunk>,
    first: u32,
    s: Set<int>,
    j: int,
)
    requires
        chunks.len() <= 0x8000_0000,
        forall|i: int|
            0 <= i < chunks.len() ==> {
                &&& (#[trigger] chunks[i]).tsn == tsn_after(first, i)
                &&& !chunks[i].unordered
                &&& chunks[i].stream_identifier == q.si
                &&& chunks[i].stream_sequence_number == ssn
                &&& chunks[i].payload_type == ppi
            },
        q.next_ssn == ssn,
        forall|i: int|
            0 <= i < q.ordered.len() ==> serial16_before(ssn, (#[trigger] q.ordered[i]).ssn),
        0 <= j < chunks.len(),
        forall|i: int| #[trigger] s.contains(i) ==> 0 <= i < chunks.len(),
    ensures
        ({
            let n = chunks.len();
            let before = if s.is_empty() {
                q
            } else {
                with_message(q, ssn, ppi, picked(chunks, ascending(n, s)))
            };
            before.pushed(chunks[j]) == with_message(
                q,
                ssn,
                ppi,
                picked(chunks, ascending(n, s.insert(j))),
            )
        }),
{
    let n = chunks.len();
    let c = chunks[j];
    let have = picked(chunks, ascending(n, s));
    assert forall|i: int| 0 <= i < q.ordered.len() implies (#[trigger] q.ordered[i]).ssn != ssn by {
        assert(serial16_before(ssn, q.ordered[i].ssn));
    }
    if s.is_empty() {
        assert(!has_set(q.ordered, ssn));
        assert(is_set_place(q.ordered, ssn, 0));
        lemma_set_place_unique(q.ordered, ssn, 0);
        lemma_ascending_insert(n, s, j);
        lemma_ascending(n, s);
        if ascending(n, s).len() > 0 {
            assert(s.contains(ascending(n, s)[0]));
        }
        assert(picked(chunks, ascending(n, s.insert(j))) =~= seq![c]);
        let set = FragmentSet::unread(ssn, ppi, seq![c]);
        assert(q.ordered.insert(0, set) =~= seq![set] + q.ordered);
    } else {
        let before = with_message(q, ssn, ppi, have);
        assert(before.ordered[0].ssn == ssn);
        assert(is_set_of(before.ordered, ssn, 0));
        lemma_set_of_unique(before.ordered, ssn, 0);
        if s.contains(j) {
            assert(s.insert(j) =~= s);
            lemma_ascending_has(n, s, j);
            let k = choose|k: int| 0 <= k < ascending(n, s).len() && ascending(n, s)[k] == j;
            assert(have[k] == c);
            assert(before.ordered[0].has_tsn(c.tsn));
        } else {
            lemma_fragment_place(chunks, first, s, j);
            assert(!before.ordered[0].has_tsn(c.tsn));
            let set = FragmentSet::unread(
                ssn,
                ppi,
                picked(chunks, ascending(n, s.insert(j))),
            );
            assert(before.ordered.update(0, set) =~= seq![set] + q.ordered);
        }
    }
}

proof fn lemma_ascending_has(n: nat, s: Set<int>, j: int)
    requires
        0 <= j < n,
        s.contains(j),
    ensures
        exists|k: int| 0 <= k < ascending(n, s).len() && ascending(n, s)[k] == j,
    decreases n,
{
    if j == n - 1 {
        let k = ascending(n, s).len() - 1;
        assert(ascending(n, s)[k] == j);
    } else {
        lemma_ascending_has((n - 1) as nat, s, j);
        let m = (n - 1) as nat;
        let k = choose|k: int| 0 <= k < ascending(m, s).len() && ascending(m, s)[k] == j;
        assert(ascending(n, s)[k] == j);
    }
}

/// Some fragments of an ordered message, in the order of their arrival.
proof fn lemma_ordered_arrival(
    q: ReassemblyState,
    ssn: u16,
    ppi: PayloadProtocolIdentifier,
    chunks: Seq<DataChunk>,
    first: u32,
    order: Seq<int>,
)
    requires
        chunks.len() <= 0x8000_0000,
        forall|i: int|
            0 <= i < chunks.len() ==> {
                &&& (#[trigger] chunks[i]).tsn == tsn_after(first, i)
                &&& !chunks[i].unordered
                &&& chunks[i].stream_identifier == q.si
                &&& chunks[i].stream_sequence_number == ssn
                &&& chunks[i].payload_type == ppi
            },
        q.next_ssn == ssn,
        forall|i: int|
            0 <= i < q.ordered.len() ==> serial16_before(ssn, (#[trigger] q.ordered[i]).ssn),
        forall|k: int| 0 <= k < order.len() ==> 0 <= #[trigger] order[k] < chunks.len(),
    ensures
        order.len() > 0 ==> arrived(q, chunks, order) == with_message(
            q,
            ssn,
            ppi,
            picked(chunks, ascending(chunks.len(), order.to_set())),
        ),
    decreases order.len(),
{
    if order.len() > 0 {
        let rest = order.drop_last();
        let s = rest.to_set();
        let j = order.last();
        assert(j == order[order.len() - 1]);
        assert forall|k: int| 0 <= k < rest.len() implies 0 <= #[trigger] rest[k]
            < chunks.len() by {
            assert(rest[k] == order[k]);
        }
        lemma_ordered_arrival(q, ssn, ppi, chunks, first, rest);
        assert(order.to_set() =~= s.insert(j)) by {
            assert forall|i: int| order.to_set().contains(i) == s.insert(j).contains(i) by {
                if order.to_set().contains(i) && i != j {
                    let k = choose|k: int| 0 <= k < order.len() && order[k] == i;
                    assert(rest[k] == i);
                }
                if s.contains(i) {
                    let k = choose|k: int| 0 <= k < rest.len() && rest[k] == i;
                    assert(order[k] == i);
                }
            }
        }
        assert forall|i: int| #[trigger] s.contains(i) implies 0 <= i < chunks.len() by {
            let k = choose|k: int| 0 <= k < rest.len() && rest[k] == i;
            assert(rest[k] == i);
        }
        if rest.len() == 0 {
            assert(s =~= Set::<int>::empty());
        } else {
            assert(s.contains(rest[0]));
        }
        lemma_ordered_fragment(q, ssn, ppi, chunks, first, s, j);
        let before = if s.is_empty() {
            q
        } else {
            with_message(q, ssn, ppi, picked(chunks, ascending(chunks.len(), s)))
        };
        assert(arrived(q, chunks, rest) == before) by {
            if rest.len() > 0 {
                assert(!s.is_empty());
            } else {
                assert(s.is_empty());
            }
        }
        assert(arrived(q, chunks, order) == before.pushed(chunks[j]));
    }
}

/// What is written is what is read. The fragments of an ordered message may arrive in any order, and
/// more than once: once all of them have, a receiver that waits for that message, and has nothing
/// unordered to read first, reads the bytes that were written, and then waits for the next message
/// with everything else as it was.
///
/// A message without bytes has no fragments, so that there is nothing to arrive of it. The message
/// has at most half as many fragments as there are transmission sequence numbers.
pub proof fn law_written_is_read(
    sender: StreamModel,
    raw: Seq<u8>,
    ppi: PayloadProtocolIdentifier,
    first: u32,
    q: ReassemblyState,
    order: Seq<int>,
)
    requires
        sender.max_payload_size > 0,
        raw.len() > 0,
        fragment_count(raw.len(), sender.max_payload_size as nat) <= 0x8000_0000,
        !sender.sends_unordered(ppi),
        q.si == sender.stream_identifier,
        q.next_ssn == sender.sequence_number,
        q.unordered.len() == 0,
        forall|i: int|
            0 <= i < q.ordered.len() ==> serial16_before(
                sender.sequence_number,
                (#[trigger] q.ordered[i]).ssn,
            ),
        covers(order, fragment_count(raw.len(), sender.max_payload_size as nat)),
    ensures
        ({
            let got = arrived(q, numbered(sender.fragments(raw, ppi), first), order);
            &&& got.next_message() matches Some(m) && m.unread_data() == raw && m.ppi == ppi
            &&& got.after_read() == (ReassemblyState {
                next_ssn: sender.after_packetize(raw, ppi).sequence_number,
                ..q
            })
        }),
{
    let chunks = numbered(sender.fragments(raw, ppi), first);
    let ssn = sender.sequence_number;
    let n = chunks.len();
    lemma_fragments_whole(sender, raw, ppi, first);
    lemma_fragments_hold(sender, raw, ppi, first);
    lemma_ordered_arrival(q, ssn, ppi, chunks, first, order);
    assert forall|i: int| 0 <= i < n implies order.to_set().contains(i) by {
        assert(order.contains(i));
    }
    assert(order.contains(0));
    lemma_ascending_all(n, order.to_set());
    assert(picked(chunks, Seq::new(n, |i: int| i)) =~= chunks);
    let got = arrived(q, chunks, order);
    let m = FragmentSet::unread(ssn, ppi, chunks);
    assert(got.ordered[0] == m);
    assert(chunks.skip(0) =~= chunks);
    assert(m.unread_data() =~= raw);
    assert(got.ordered.remove(0) =~= q.ordered);
}

proof fn lemma_ascending_misses(n: nat, s: Set<int>, j: int)
    requires
        0 <= j < n,
        !s.contains(j),
    ensures
        ascending(n, s).len() < n,
    decreases n,
{
    lemma_ascending((n - 1) as nat, s);
    if j < n - 1 {
        lemma_ascending_misses((n - 1) as nat, s, j);
    }
}

/// Whether chunks are the fragments of one unordered message, with their transmission sequence
/// numbers.
spec fn is_unordered_message(
    chunks: Seq<DataChunk>,
    si: u16,
    ppi: PayloadProtocolIdentifier,
    first: u32,
) -> bool {
    &&& 0 < chunks.len() <= 0x8000_0000
    &&& forall|i: int|
        0 <= i < chunks.len() ==> {
            &&& (#[trigger] chunks[i]).tsn == tsn_after(first, i)
            &&& chunks[i].unordered
            &&& chunks[i].stream_identifier == si
            &&& chunks[i].payload_type == ppi
            &&& chunks[i].beginning_fragment == (i == 0)
            &&& chunks[i].ending_fragment == (i == chunks.len() - 1)
        }
}

/// Fragments of a message of which one is missing make up no message.
proof fn lemma_no_message_yet(
    chunks: Seq<DataChunk>,
    si: u16,
    ppi: PayloadProtocolIdentifier,
    first: u32,
    s: Set<int>,
    j: int,
)
    requires
        is_unordered_message(chunks, si, ppi, first),
        0 <= j < chunks.len(),
        !s.contains(j),
    ensures
        !has_message(picked(chunks, ascending(chunks.len(), s))),
{
    let n = chunks.len();
    let places = ascending(n, s);
    let have = picked(chunks, places);
    lemma_ascending(n, s);
    lemma_ascending_misses(n, s, j);
    if has_message(have) {
        let (b, e) = choose|b: int, e: int| is_message(have, b, e);
        assert(have[b] == chunks[places[b]]);
        assert(places[b] == 0);
        assert(have[e - 1] == chunks[places[e - 1]]);
        assert(places[e - 1] == n - 1);
        lemma_consecutive(chunks, si, ppi, first, s, b, e, e - 1);
    }
}

/// Fragments of a message that follow each other without a gap have places that do.
proof fn lemma_consecutive(
    chunks: Seq<DataChunk>,
    si: u16,
    ppi: PayloadProtocolIdentifier,
    first: u32,
    s: Set<int>,
    b: int,
    e: int,
    k: int,
)
    requires
        is_unordered_message(chunks, si, ppi, first),
        is_message(picked(chunks, ascending(chunks.len(), s)), b, e),
        b <= k < e,
    ensures
        ascending(chunks.len(), s)[k] == ascending(chunks.len(), s)[b] + (k - b),
    decreases k - b,
{
    let n = chunks.len();
    let places = ascending(n, s);
    let have = picked(chunks, places);
    lemma_ascending(n, s);
    if k > b {
        lemma_consecutive(chunks, si, ppi, first, s, b, e, k - 1);
        assert(follows(have, k));
        assert(have[k] == chunks[places[k]] && have[k - 1] == chunks[places[k - 1]]);
        assert(places[k - 1] < places[k]);
        let u = places[k - 1];
        let v = places[k];
        assert(tsn_after(first, v) == tsn_after(tsn_after(first, u), 1));
        lemma_numbers_follow(first, u, v);
    }
}

/// A number that follows another has the place after it.
proof fn lemma_numbers_follow(first: u32, u: int, v: int)
    requires
        0 <= u < v <= 0x8000_0000,
        tsn_after(first, v) == tsn_after(tsn_after(first, u), 1),
    ensures
        v == u + 1,
{
}

/// Some fragments of an unordered message, in the order of their arrival.
proof fn lemma_unordered_arrival(
    q: ReassemblyState,
    ppi: PayloadProtocolIdentifier,
    chunks: Seq<DataChunk>,
    first: u32,
    order: Seq<int>,
)
    requires
        is_unordered_message(chunks, q.si, ppi, first),
        q.fragments.len() == 0,
        order.no_duplicates(),
        forall|k: int| 0 <= k < order.len() ==> 0 <= #[trigger] order[k] < chunks.len(),
        exists|i: int| 0 <= i < chunks.len() && !#[trigger] order.contains(i),
    ensures
        arrived(q, chunks, order) == (ReassemblyState {
            fragments: picked(chunks, ascending(chunks.len(), order.to_set())),
            ..q
        }),
    decreases order.len(),
{
    let n = chunks.len();
    let missing = choose|i: int| 0 <= i < n && !#[trigger] order.contains(i);
    if order.len() == 0 {
        lemma_ascending(n, order.to_set());
        if ascending(n, order.to_set()).len() > 0 {
            assert(order.to_set().contains(ascending(n, order.to_set())[0]));
        }
        assert(picked(chunks, ascending(n, order.to_set())) =~= q.fragments);
    } else {
        let (rest, s, j) = lemma_last_arrival(order, n);
        assert(!rest.contains(missing)) by {
            if rest.contains(missing) {
                let k = choose|k: int| 0 <= k < rest.len() && rest[k] == missing;
                assert(order[k] == missing);
            }
        }
        lemma_unordered_arrival(q, ppi, chunks, first, rest);
        lemma_fragment_place(chunks, first, s, j);
        lemma_no_message_yet(chunks, q.si, ppi, first, order.to_set(), missing);
    }
}

/// The last of some arrivals, apart from those before it.
proof fn lemma_last_arrival(order: Seq<int>, n: nat) -> (r: (Seq<int>, Set<int>, int))
    requires
        order.len() > 0,
        order.no_duplicates(),
        forall|k: int| 0 <= k < order.len() ==> 0 <= #[trigger] order[k] < n,
    ensures
        r.0 == order.drop_last(),
        r.1 == r.0.to_set(),
        r.2 == order.last(),
        0 <= r.2 < n,
        !r.1.contains(r.2),
        r.0.no_duplicates(),
        order.to_set() == r.1.insert(r.2),
        forall|k: int| 0 <= k < r.0.len() ==> 0 <= #[trigger] r.0[k] < n,
{
    let rest = order.drop_last();
    let s = rest.to_set();
    let j = order.last();
    assert(j == order[order.len() - 1]);
    assert forall|k: int| 0 <= k < rest.len() implies 0 <= #[trigger] rest[k] < n by {
        assert(rest[k] == order[k]);
    }
    assert forall|i: int| order.to_set().contains(i) == s.insert(j).contains(i) by {
        if order.to_set().contains(i) && i != j {
            let k = choose|k: int| 0 <= k < order.len() && order[k] == i;
            assert(rest[k] == i);
        }
        if s.contains(i) {
            let k = choose|k: int| 0 <= k < rest.len() && rest[k] == i;
            assert(order[k] == i);
        }
    }
    assert(order.to_set() =~= s.insert(j));
    if s.contains(j) {
        let k = choose|k: int| 0 <= k < rest.len() && rest[k] == j;
        assert(order[k] == order[order.len() - 1]);
    }
    (rest, s, j)
}

/// What is written is what is read, out of turn as well. The fragments of an unordered message may
/// arrive in any order: once all of them have, a receiver that has nothing else to read first, and
/// no fragments of other unordered messages, reads the bytes that were written, with everything
/// else as it was.
///
/// A message without bytes has no fragments, so that there is nothing to arrive of it. The message
/// has at most half as many fragments as there are transmission sequence numbers.
pub proof fn law_written_is_read_unordered(
    sender: StreamModel,
    raw: Seq<u8>,
    ppi: PayloadProtocolIdentifier,
    first: u32,
    q: ReassemblyState,
    order: Seq<int>,
)
    requires
        sender.max_payload_size > 0,
        raw.len() > 0,
        fragment_count(raw.len(), sender.max_payload_size as nat) <= 0x8000_0000,
        sender.sends_unordered(ppi),
        q.si == sender.stream_identifier,
        q.unordered.len() == 0,
        q.fragments.len() == 0,
        covers(order, fragment_count(raw.len(), sender.max_payload_size as nat)),
        order.no_duplicates(),
    ensures
        ({
            let got = arrived(q, numbered(sender.fragments(raw, ppi), first), order);
            &&& got.next_message() matches Some(m) && m.unread_data() == raw && m.ppi == ppi
            &&& got.after_read() == q
        }),
{
    let chunks = numbered(sender.fragments(raw, ppi), first);
    let n = chunks.len();
    lemma_fragments_whole(sender, raw, ppi, first);
    lemma_fragments_hold(sender, raw, ppi, first);
    assert forall|i: int| 0 <= i < n implies (#[trigger] chunks[i]).ending_fragment == (i == n
        - 1) by {
        lemma_fragment_ends(sender, raw, ppi, i);
    }
    assert(is_unordered_message(chunks, q.si, ppi, first));
    assert(order.contains(0));
    let (rest, s, j) = lemma_last_arrival(order, n);
    assert(!rest.contains(j)) by {
        assert(rest.to_set().contains(j) == rest.contains(j));
    }
    lemma_unordered_arrival(q, ppi, chunks, first, rest);
    lemma_fragment_place(chunks, first, s, j);
    assert forall|i: int| 0 <= i < n implies order.to_set().contains(i) by {
        assert(order.contains(i));
    }
    lemma_ascending_all(n, order.to_set());
    assert(picked(chunks, Seq::new(n, |i: int| i)) =~= chunks);
    let all = with_chunk(arrived(q, chunks, rest).fragments, chunks[j]);
    assert(all == chunks);
    assert(is_message(chunks, 0, n as int));
    assert(has_message(chunks));
    assert forall|b: int, e: int| is_message(chunks, b, e) implies n <= e by {
        assert(chunks[e - 1].ending_fragment);
    }
    assert(is_first_message(chunks, 0, n as int));
    lemma_first_message_unique(chunks, 0, n as int);
    let got = arrived(q, chunks, order);
    let m = FragmentSet::unread(0, ppi, chunks);
    assert(chunks.subrange(0, n as int) =~= chunks);
    assert(got.unordered =~= seq![m]);
    assert(got.fragments =~= q.fragments);
    assert(chunks.skip(0) =~= chunks);
    assert(m.unread_data() =~= raw);
    assert(got.unordered.remove(0) =~= q.unordered);
}

/// An ordered message waits for its turn: while only messages behind the next one are there, nothing
/// is read, and reading changes nothing.
pub proof fn law_messages_wait_for_their_turn(q: ReassemblyState)
    requires
        q.unordered.len() == 0,
        forall|i: int|
            0 <= i < q.ordered.len() ==> serial16_before(q.next_ssn, (#[trigger] q.ordered[i]).ssn),
    ensures
        q.next_message() is None,
        q.after_read() == q,
{
}

/// Fragments fit their packets: each of them has at least one byte, and at most as many as the
/// stream allows. Together they are the message.
pub proof fn law_fragments_fit(
    sender: StreamModel,
    raw: Seq<u8>,
    ppi: PayloadProtocolIdentifier,
    i: int,
)
    requires
        sender.max_payload_size > 0,
        0 <= i < sender.fragments(raw, ppi).len(),
    ensures
        0 < sender.fragments(raw, ppi)[i].user_data.len() <= sender.max_payload_size,
        joined_data(numbered(sender.fragments(raw, ppi), 0)) == raw,
{
    let max = sender.max_payload_size as nat;
    lemma_place_in_message(raw.len(), max, i as nat);
    lemma_fragment_bounds(raw.len(), max, i as nat);
    lemma_fragments_hold(sender, raw, ppi, 0);
}

/// What a stream buffers when it is handed a message, it lets go of when the message is delivered.
pub proof fn law_delivery_frees_buffer(
    s: StreamModel,
    raw: Seq<u8>,
    ppi: PayloadProtocolIdentifier,
)
    ensures
        s.after_packetize(raw, ppi).after_release(raw.len() as int).buffered_amount
            == s.buffered_amount,
{
}

/// What can happen to a stream while it is used.
pub enum StreamStep {
    /// A message is handed over for sending.
    Packetize(Seq<u8>, PayloadProtocolIdentifier),
    /// So many bytes are delivered.
    Release(int),
    /// The default payload protocol identifier is set.
    SetDefaultPayloadType(PayloadProtocolIdentifier),
    /// The reliability parameters are set.
    SetReliability(bool, ReliabilityType, u32),
    /// The threshold for a low amount of buffered data is set.
    SetLowThreshold(nat),
    /// A chunk arrives.
    HandleData(DataChunk),
    /// Ordered messages are given up.
    ForwardOrdered(u16),
    /// Fragments of unordered messages are given up.
    ForwardUnordered(u32),
    /// A message is read.
    Read,
}

/// A stream after such a step.
pub open spec fn stepped(s: StreamModel, step: StreamStep) -> StreamModel {
    match step {
        StreamStep::Packetize(raw, ppi) => s.after_packetize(raw, ppi),
        StreamStep::Release(n) => s.after_release(n),
        StreamStep::SetDefaultPayloadType(ppi) => StreamModel { default_payload_type: ppi, ..s },
        StreamStep::SetReliability(unordered, rel_type, rel_val) => StreamModel {
            unordered,
            reliability_type: rel_type,
            reliability_value: rel_val,
            ..s
        },
        StreamStep::SetLowThreshold(th) => StreamModel { buffered_amount_low: th, ..s },
        StreamStep::HandleData(c) => StreamModel { reassembly: s.reassembly.pushed(c), ..s },
        StreamStep::ForwardOrdered(ssn) => if s.unordered {
            s
        } else {
            StreamModel { reassembly: s.reassembly.after_forward_ordered(ssn), ..s }
        },
        StreamStep::ForwardUnordered(tsn) => if !s.unordered {
            s
        } else {
            StreamModel { reassembly: s.reassembly.after_forward_unordered(tsn), ..s }
        },
        StreamStep::Read => StreamModel { reassembly: s.reassembly.after_read(), ..s },
    }
}

/// A stream after some steps, one after the other.
pub open spec fn stepped_through(s: StreamModel, steps: Seq<StreamStep>) -> StreamModel
    decreases steps.len(),
{
    if steps.len() == 0 {
        s
    } else {
        stepped(stepped_through(s, steps.drop_last()), steps.last())
    }
}

/// How many bytes some steps hand over for sending.
pub open spec fn bytes_queued(steps: Seq<StreamStep>) -> nat {
    total(
        steps,
        |step: StreamStep|
            match step {
                StreamStep::Packetize(raw, _) => raw.len(),
                _ => 0,
            },
    )
}

/// How many bytes some steps deliver.
pub open spec fn bytes_released(steps: Seq<StreamStep>) -> nat {
    total(
        steps,
        |step: StreamStep|
            match step {
                StreamStep::Release(n) => if n > 0 {
                    n as nat
                } else {
                    0
                },
                _ => 0,
            },
    )
}

/// Whether none of some steps delivers more than is buffered when it comes.
pub open spec fn releases_what_is_there(s: StreamModel, steps: Seq<StreamStep>) -> bool {
    forall|i: int|
        0 <= i < steps.len() ==> ((#[trigger] steps[i]) matches StreamStep::Release(n) ==> n
            <= stepped_through(s, steps.take(i)).buffered_amount)
}

/// However the uses of a stream follow each other, it buffers what it did before and what was handed
/// over since, less what was delivered since.
pub proof fn law_buffered_amount_balances(s: StreamModel, steps: Seq<StreamStep>)
    requires
        releases_what_is_there(s, steps),
    ensures
        stepped_through(s, steps).buffered_amount + bytes_released(steps) == s.buffered_amount
            + bytes_queued(steps),
    decreases steps.len(),
{
    if steps.len() > 0 {
        let rest = steps.drop_last();
        let last = steps.len() - 1;
        assert(rest =~= steps.take(last));
        assert forall|i: int| 0 <= i < rest.len() implies ((#[trigger] rest[i]) matches
            StreamStep::Release(n) ==> n <= stepped_through(s, rest.take(i)).buffered_amount) by {
            assert(rest[i] == steps[i]);
            assert(rest.take(i) =~= steps.take(i));
        }
        law_buffered_amount_balances(s, rest);
        assert(steps[last] == steps.last());
    }
}

proof fn lemma_numbers_are_not_data(fragments: Seq<DataChunk>, first: u32)
    ensures
        joined_data(numbered(fragments, first)) == joined_data(fragments),
    decreases fragments.len(),
{
    if fragments.len() > 0 {
        lemma_numbers_are_not_data(fragments.drop_last(), first);
        assert(numbered(fragments, first).drop_last() =~= numbered(fragments.drop_last(), first));
    }
}

/// The fragments of a message, joined, are the message.
pub proof fn lemma_fragments_are_message(
    sender: StreamModel,
    raw: Seq<u8>,
    ppi: PayloadProtocolIdentifier,
)
    requires
        sender.max_payload_size > 0,
        raw.len() > 0,
    ensures
        joined_data(sender.fragments(raw, ppi)) == raw,
{
    lemma_fragments_hold(sender, raw, ppi, 0);
    lemma_numbers_are_not_data(sender.fragments(raw, ppi), 0);
}

/// A queue after fragments of several messages have arrived in some order, each by the place of its
/// message and its own place in it.
pub open spec fn delivered(
    q: ReassemblyState,
    messages: Seq<Seq<DataChunk>>,
    order: Seq<(int, int)>,
) -> ReassemblyState
    decreases order.len(),
{
    if order.len() == 0 {
        q
    } else {
        delivered(q, messages, order.drop_last()).pushed(
            messages[order.last().0][order.last().1],
        )
    }
}

/// A queue after that many messages were read.
pub open spec fn after_reads(q: ReassemblyState, n: nat) -> ReassemblyState
    decreases n,
{
    if n == 0 {
        q
    } else {
        after_reads(q, (n - 1) as nat).after_read()
    }
}

/// Whether the chunks are the fragments of one message each, and the messages follow each other on
/// the stream from that stream sequence number on.
pub open spec fn follow_each_other(
    messages: Seq<Seq<DataChunk>>,
    stream_identifier: u16,
    ssn: u16,
) -> bool {
    forall|i: int, j: int|
        0 <= i < messages.len() && 0 <= j < messages[i].len() ==> {
            let c = #[trigger] messages[i][j];
            &&& c.stream_identifier == stream_identifier
            &&& !c.unordered
            &&& c.stream_sequence_number == (ssn + i) % 0x1_0000
            &&& c.tsn == (messages[i][0].tsn + j) % 0x1_0000_0000
            &&& c.payload_type == messages[i][0].payload_type
            &&& c.beginning_fragment == (j == 0)
            &&& c.ending_fragment == (j == messages[i].len() - 1)
        }
}

/// Whether that is the place of a fragment in one of the messages.
pub open spec fn is_place(messages: Seq<Seq<DataChunk>>, at: (int, int)) -> bool {
    0 <= at.0 < messages.len() && 0 <= at.1 < messages[at.0].len()
}

spec fn rows(there: Set<(int, int)>) -> Set<int> {
    Set::new(|i: int| exists|j: int| #[trigger] there.contains((i, j)))
}

spec fn columns(there: Set<(int, int)>, i: int) -> Set<int> {
    Set::new(|j: int| there.contains((i, j)))
}

/// The set of those fragments of a message that are there.
spec fn held_set(
    messages: Seq<Seq<DataChunk>>,
    ssn: u16,
    there: Set<(int, int)>,
    i: int,
) -> FragmentSet {
    FragmentSet::unread(
        ((ssn + i) % 0x1_0000) as u16,
        messages[i][0].payload_type,
        picked(messages[i], ascending(messages[i].len(), columns(there, i))),
    )
}

/// The queue with those fragments of the messages that are there.
spec fn holding(
    q: ReassemblyState,
    messages: Seq<Seq<DataChunk>>,
    there: Set<(int, int)>,
) -> ReassemblyState {
    ReassemblyState {
        ordered: ascending(messages.len(), rows(there)).map_values(
            |i: int| held_set(messages, q.next_ssn, there, i),
        ),
        ..q
    }
}

proof fn lemma_ascending_none(n: nat, s: Set<int>)
    requires
        forall|i: int| 0 <= i < n ==> !s.contains(i),
    ensures
        ascending(n, s) == Seq::<int>::empty(),
    decreases n,
{
    if n > 0 {
        lemma_ascending_none((n - 1) as nat, s);
    }
    assert(ascending(n, s) =~= Seq::<int>::empty());
}

/// One fragment of one of the messages more, or once more.
proof fn lemma_one_delivered(
    q: ReassemblyState,
    messages: Seq<Seq<DataChunk>>,
    there: Set<(int, int)>,
    i: int,
    j: int,
)
    requires
        messages.len() <= 0x8000,
        forall|x: int| 0 <= x < messages.len() ==> (#[trigger] messages[x]).len() <= 0x8000_0000,
        follow_each_other(messages, q.si, q.next_ssn),
        is_place(messages, (i, j)),
        forall|at: (int, int)| #[trigger] there.contains(at) ==> is_place(messages, at),
    ensures
        holding(q, messages, there).pushed(messages[i][j]) == holding(
            q,
            messages,
            there.insert((i, j)),
        ),
{
    let k = messages.len();
    let c = messages[i][j];
    let n = messages[i].len();
    let now = there.insert((i, j));
    let before = holding(q, messages, there);
    let after = holding(q, messages, now);
    let in_rows = ascending(k, rows(there));
    let ssn = c.stream_sequence_number;
    lemma_ascending(k, rows(there));
    assert(columns(now, i) =~= columns(there, i).insert(j));
    assert forall|x: int| x != i implies #[trigger] columns(now, x) == columns(there, x) by {
        assert(columns(now, x) =~= columns(there, x));
    }
    assert(rows(now) =~= rows(there).insert(i)) by {
        assert forall|x: int| rows(now).contains(x) == rows(there).insert(i).contains(x) by {
            if rows(now).contains(x) && x != i {
                let y = choose|y: int| #[trigger] now.contains((x, y));
                assert(there.contains((x, y)));
            }
            if rows(there).contains(x) {
                let y = choose|y: int| #[trigger] there.contains((x, y));
                assert(now.contains((x, y)));
            }
            if x == i {
                assert(now.contains((i, j)));
            }
        }
    }
    assert forall|l: int| 0 <= l < in_rows.len() implies {
        &&& (#[trigger] before.ordered[l]).ssn == (q.next_ssn + in_rows[l]) % 0x1_0000
        &&& (before.ordered[l].ssn == ssn <==> in_rows[l] == i)
        &&& in_rows[l] > i ==> serial16_before(ssn, before.ordered[l].ssn)
        &&& in_rows[l] < i ==> !serial16_before(ssn, before.ordered[l].ssn)
    } by {
        assert(0 <= in_rows[l] < k);
    }
    assert(!serial16_before(ssn, q.next_ssn));
    assert forall|x: int| 0 <= x < n implies (#[trigger] messages[i][x]).tsn == tsn_after(
        messages[i][0].tsn,
        x,
    ) by {}
    if rows(there).contains(i) {
        lemma_ascending_has(k, rows(there), i);
        let p = choose|p: int| 0 <= p < in_rows.len() && in_rows[p] == i;
        assert(is_set_of(before.ordered, ssn, p)) by {
            assert forall|l: int| 0 <= l < p implies (#[trigger] before.ordered[l]).ssn != ssn by {
                assert(in_rows[l] < in_rows[p]);
            }
        }
        lemma_set_of_unique(before.ordered, ssn, p);
        assert(rows(now) =~= rows(there));
        let set = before.ordered[p];
        assert(set == held_set(messages, q.next_ssn, there, i));
        if there.contains((i, j)) {
            assert(now =~= there);
            assert(columns(there, i).contains(j));
            lemma_ascending_has(n, columns(there, i), j);
            let places = ascending(n, columns(there, i));
            let l = choose|l: int| 0 <= l < places.len() && places[l] == j;
            assert(set.chunks[l] == c);
            assert(set.has_tsn(c.tsn));
        } else {
            lemma_fragment_place(messages[i], messages[i][0].tsn, columns(there, i), j);
            assert(!set.has_tsn(c.tsn));
            assert(set.with_fragment(c) == held_set(messages, q.next_ssn, now, i));
            assert(before.ordered.update(p, set.with_fragment(c)) =~= after.ordered) by {
                assert forall|l: int| 0 <= l < in_rows.len() implies before.ordered.update(
                    p,
                    set.with_fragment(c),
                )[l] == #[trigger] after.ordered[l] by {
                    if l != p {
                        assert(in_rows[l] != i);
                        assert(columns(now, in_rows[l]) == columns(there, in_rows[l]));
                    }
                }
            }
        }
    } else {
        lemma_ascending_insert(k, rows(there), i);
        let p = ascending(i as nat, rows(there)).len() as int;
        assert forall|l: int| 0 <= l < in_rows.len() implies (#[trigger] before.ordered[l]).ssn
            != ssn by {
            assert(rows(there).contains(in_rows[l]));
        }
        assert(!has_set(before.ordered, ssn));
        assert(is_set_place(before.ordered, ssn, p)) by {
            assert forall|l: int| 0 <= l < p implies !serial16_before(
                ssn,
                (#[trigger] before.ordered[l]).ssn,
            ) by {
                assert(in_rows[l] < i);
            }
            if p < in_rows.len() {
                assert(in_rows[p] > i);
                assert(serial16_before(ssn, before.ordered[p].ssn));
            }
        }
        lemma_set_place_unique(before.ordered, ssn, p);
        assert(columns(there, i) =~= Set::<int>::empty()) by {
            assert forall|x: int| !columns(there, i).contains(x) by {
                if columns(there, i).contains(x) {
                    assert(there.contains((i, x)));
                }
            }
        }
        lemma_ascending_none(n, columns(there, i));
        lemma_ascending_insert(n, columns(there, i), j);
        assert(ascending(n, columns(now, i)) =~= seq![j]);
        assert(picked(messages[i], seq![j]) =~= seq![c]);
        let set = FragmentSet::unread(ssn, c.payload_type, seq![c]);
        assert(set == held_set(messages, q.next_ssn, now, i));
        assert(before.ordered.insert(p, set) =~= after.ordered) by {
            let more = in_rows.insert(p, i);
            assert(ascending(k, rows(now)) == more);
            assert forall|l: int| 0 <= l < more.len() implies before.ordered.insert(p, set)[l]
                == #[trigger] after.ordered[l] by {
                if l < p {
                    assert(more[l] == in_rows[l]);
                    assert(columns(now, in_rows[l]) == columns(there, in_rows[l]));
                } else if l > p {
                    assert(more[l] == in_rows[l - 1]);
                    assert(columns(now, in_rows[l - 1]) == columns(there, in_rows[l - 1]));
                }
            }
        }
    }
}

/// Fragments of several messages, in the order of their arrival.
proof fn lemma_delivered(
    q: ReassemblyState,
    messages: Seq<Seq<DataChunk>>,
    order: Seq<(int, int)>,
)
    requires
        messages.len() <= 0x8000,
        forall|x: int| 0 <= x < messages.len() ==> (#[trigger] messages[x]).len() <= 0x8000_0000,
        follow_each_other(messages, q.si, q.next_ssn),
        q.ordered.len() == 0,
        forall|x: int| 0 <= x < order.len() ==> is_place(messages, #[trigger] order[x]),
    ensures
        delivered(q, messages, order) == holding(q, messages, order.to_set()),
    decreases order.len(),
{
    if order.len() == 0 {
        assert forall|i: int| !rows(order.to_set()).contains(i) by {
            if rows(order.to_set()).contains(i) {
                let j = choose|j: int| #[trigger] order.to_set().contains((i, j));
                assert(order.contains((i, j)));
            }
        }
        lemma_ascending_none(messages.len(), rows(order.to_set()));
        assert(holding(q, messages, order.to_set()).ordered =~= q.ordered);
    } else {
        let rest = order.drop_last();
        let at = order.last();
        assert(at == order[order.len() - 1]);
        assert forall|x: int| 0 <= x < rest.len() implies is_place(
            messages,
            #[trigger] rest[x],
        ) by {
            assert(rest[x] == order[x]);
        }
        lemma_delivered(q, messages, rest);
        assert forall|a: (int, int)| #[trigger] rest.to_set().contains(a) implies is_place(
            messages,
            a,
        ) by {
            let x = choose|x: int| 0 <= x < rest.len() && rest[x] == a;
            assert(rest[x] == a);
        }
        lemma_one_delivered(q, messages, rest.to_set(), at.0, at.1);
        assert(order.to_set() =~= rest.to_set().insert((at.0, at.1))) by {
            assert forall|a: (int, int)|
                order.to_set().contains(a) == rest.to_set().insert(at).contains(a) by {
                if order.to_set().contains(a) && a != at {
                    let x = choose|x: int| 0 <= x < order.len() && order[x] == a;
                    assert(rest[x] == a);
                }
                if rest.to_set().contains(a) {
                    let x = choose|x: int| 0 <= x < rest.len() && rest[x] == a;
                    assert(order[x] == a);
                }
            }
        }
    }
}

/// Fragments that follow each other make up a message.
proof fn lemma_message_is_whole(
    messages: Seq<Seq<DataChunk>>,
    stream_identifier: u16,
    ssn: u16,
    i: int,
)
    requires
        follow_each_other(messages, stream_identifier, ssn),
        0 <= i < messages.len(),
        messages[i].len() > 0,
    ensures
        is_whole(messages[i]),
{
    let m = messages[i];
    assert(messages[i][0].beginning_fragment);
    assert(messages[i][m.len() - 1].ending_fragment);
    assert forall|j: int| 0 < j < m.len() implies #[trigger] follows(m, j) by {
        assert(messages[i][j].tsn == (m[0].tsn + j) % 0x1_0000_0000);
        assert(messages[i][j - 1].tsn == (m[0].tsn + (j - 1)) % 0x1_0000_0000);
    }
}

/// All fragments of several messages.
proof fn lemma_all_delivered(
    q: ReassemblyState,
    messages: Seq<Seq<DataChunk>>,
    order: Seq<(int, int)>,
)
    requires
        messages.len() <= 0x8000,
        forall|x: int|
            0 <= x < messages.len() ==> 0 < (#[trigger] messages[x]).len() <= 0x8000_0000,
        follow_each_other(messages, q.si, q.next_ssn),
        q.ordered.len() == 0,
        forall|x: int| 0 <= x < order.len() ==> is_place(messages, #[trigger] order[x]),
        forall|at: (int, int)| is_place(messages, at) ==> #[trigger] order.contains(at),
    ensures
        delivered(q, messages, order) == (ReassemblyState {
            ordered: delivered(q, messages, order).ordered,
            ..q
        }),
        delivered(q, messages, order).ordered.len() == messages.len(),
        forall|x: int|
            0 <= x < messages.len() ==> (#[trigger] delivered(q, messages, order).ordered[x])
                == FragmentSet::unread(
                ((q.next_ssn + x) % 0x1_0000) as u16,
                messages[x][0].payload_type,
                messages[x],
            ),
{
    let k = messages.len();
    let there = order.to_set();
    let got = delivered(q, messages, order);
    lemma_delivered(q, messages, order);
    assert forall|i: int| 0 <= i < k implies rows(there).contains(i) by {
        assert(is_place(messages, (i, 0)));
        assert(order.contains((i, 0)));
        assert(there.contains((i, 0)));
    }
    lemma_ascending_all(k, rows(there));
    assert forall|x: int| 0 <= x < k implies (#[trigger] got.ordered[x]) == FragmentSet::unread(
        ((q.next_ssn + x) % 0x1_0000) as u16,
        messages[x][0].payload_type,
        messages[x],
    ) by {
        let m = messages[x];
        assert(got.ordered[x] == held_set(messages, q.next_ssn, there, x));
        assert forall|j: int| 0 <= j < m.len() implies columns(there, x).contains(j) by {
            assert(is_place(messages, (x, j)));
            assert(order.contains((x, j)));
        }
        lemma_ascending_all(m.len(), columns(there, x));
        assert(picked(m, Seq::new(m.len(), |i: int| i)) =~= m);
    }
}

/// Reading whole messages that are next in order, one after the other.
proof fn lemma_reads_in_order(q: ReassemblyState, messages: Seq<Seq<DataChunk>>, n: nat)
    requires
        n <= messages.len() <= 0x8000,
        q.unordered.len() == 0,
        q.ordered.len() == messages.len(),
        forall|x: int|
            0 <= x < messages.len() ==> {
                &&& (#[trigger] q.ordered[x]).ssn == (q.next_ssn + x) % 0x1_0000
                &&& is_whole(q.ordered[x].chunks)
            },
    ensures
        after_reads(q, n) == (ReassemblyState {
            ordered: q.ordered.skip(n as int),
            next_ssn: ((q.next_ssn + n) % 0x1_0000) as u16,
            ..q
        }),
        n < messages.len() ==> after_reads(q, n).next_message() == Some(q.ordered[n as int]),
        n == messages.len() ==> after_reads(q, n).next_message() is None,
    decreases n,
{
    if n == 0 {
        assert(q.ordered.skip(0) =~= q.ordered);
    } else {
        let m = (n - 1) as nat;
        lemma_reads_in_order(q, messages, m);
        let then = after_reads(q, m);
        assert(then.ordered[0] == q.ordered[m as int]);
        assert(then.ordered.remove(0) =~= q.ordered.skip(n as int));
        assert((((q.next_ssn + m) % 0x1_0000) + 1) % 0x1_0000 == (q.next_ssn + n) % 0x1_0000);
    }
    if n < messages.len() {
        assert(q.ordered.skip(n as int)[0] == q.ordered[n as int]);
    }
}

/// Messages are read as they follow each other on the stream, however their fragments arrived: once
/// all fragments of the messages that are next in order are there, in any order, mixed and more than
/// once, and with nothing read in between, as many reads yield just these messages, one after the
/// other, and then there is nothing to read until the next one.
///
/// There are at most half as many messages as there are stream sequence numbers.
pub proof fn law_messages_are_read_in_a_row(
    q: ReassemblyState,
    messages: Seq<Seq<DataChunk>>,
    order: Seq<(int, int)>,
    n: nat,
)
    requires
        messages.len() <= 0x8000,
        forall|x: int|
            0 <= x < messages.len() ==> 0 < (#[trigger] messages[x]).len() <= 0x8000_0000,
        follow_each_other(messages, q.si, q.next_ssn),
        q.ordered.len() == 0,
        q.unordered.len() == 0,
        forall|x: int| 0 <= x < order.len() ==> is_place(messages, #[trigger] order[x]),
        forall|at: (int, int)| is_place(messages, at) ==> #[trigger] order.contains(at),
        n <= messages.len(),
    ensures
        ({
            let left = after_reads(delivered(q, messages, order), n);
            &&& n < messages.len() ==> {
                &&& left.next_message() matches Some(m) && m.unread_data() == joined_data(
                    messages[n as int],
                ) && m.ppi == messages[n as int][0].payload_type
            }
            &&& n == messages.len() ==> {
                &&& left.next_message() is None
                &&& left == (ReassemblyState {
                    next_ssn: ((q.next_ssn + n) % 0x1_0000) as u16,
                    ..q
                })
            }
        }),
{
    let got = delivered(q, messages, order);
    lemma_all_delivered(q, messages, order);
    assert forall|x: int| 0 <= x < messages.len() implies {
        &&& (#[trigger] got.ordered[x]).ssn == (q.next_ssn + x) % 0x1_0000
        &&& is_whole(got.ordered[x].chunks)
    } by {
        lemma_message_is_whole(messages, q.si, q.next_ssn, x);
    }
    lemma_reads_in_order(got, messages, n);
    if n < messages.len() {
        let m = got.ordered[n as int];
        assert(m.chunks.skip(0) =~= m.chunks);
        assert(m.unread_data() =~= joined_data(messages[n as int]));
    } else {
        assert(got.ordered.skip(n as int) =~= q.ordered);
    }
}

/// A stream after it was handed the first `n` of some messages.
pub open spec fn after_messages(
    s: StreamModel,
    messages: Seq<Seq<u8>>,
    ppi: PayloadProtocolIdentifier,
    n: nat,
) -> StreamModel
    decreases n,
{
    if n == 0 {
        s
    } else {
        after_messages(s, messages, ppi, (n - 1) as nat).after_packetize(messages[n - 1], ppi)
    }
}

proof fn lemma_after_messages(
    s: StreamModel,
    messages: Seq<Seq<u8>>,
    ppi: PayloadProtocolIdentifier,
    n: nat,
)
    requires
        !s.unordered || ppi == PayloadProtocolIdentifier::Dcep,
    ensures
        after_messages(s, messages, ppi, n) == (StreamModel {
            sequence_number: ((s.sequence_number + n) % 0x1_0000) as u16,
            buffered_amount: after_messages(s, messages, ppi, n).buffered_amount,
            ..s
        }),
    decreases n,
{
    if n > 0 {
        lemma_after_messages(s, messages, ppi, (n - 1) as nat);
        assert((((s.sequence_number + (n - 1)) % 0x1_0000) + 1) % 0x1_0000 == (s.sequence_number
            + n) % 0x1_0000);
    }
}

/// What is written is what is read, message after message. Messages that a stream is handed one after
/// the other, each cut into fragments that are sent with transmission sequence numbers that count up
/// from its first one, are read as they were written, in order, once all fragments are there: in
/// whatever order these arrive, mixed and more than once, and with nothing read in between.
pub proof fn law_written_messages_are_read(
    sender: StreamModel,
    messages: Seq<Seq<u8>>,
    ppi: PayloadProtocolIdentifier,
    sent: Seq<Seq<DataChunk>>,
    q: ReassemblyState,
    order: Seq<(int, int)>,
    n: nat,
)
    requires
        sender.max_payload_size > 0,
        !sender.unordered || ppi == PayloadProtocolIdentifier::Dcep,
        messages.len() <= 0x8000,
        sent.len() == messages.len(),
        forall|i: int|
            0 <= i < messages.len() ==> 0 < (#[trigger] messages[i]).len() && sent[i].len()
                <= 0x8000_0000 && sent[i] == numbered(
                after_messages(sender, messages, ppi, i as nat).fragments(messages[i], ppi),
                sent[i][0].tsn,
            ),
        q.si == sender.stream_identifier,
        q.next_ssn == sender.sequence_number,
        q.ordered.len() == 0,
        q.unordered.len() == 0,
        forall|x: int| 0 <= x < order.len() ==> is_place(sent, #[trigger] order[x]),
        forall|at: (int, int)| is_place(sent, at) ==> #[trigger] order.contains(at),
        n < messages.len(),
    ensures
        after_reads(delivered(q, sent, order), n).next_message() matches Some(m) && m.unread_data()
            == messages[n as int] && m.ppi == ppi,
{
    assert forall|i: int| 0 <= i < messages.len() implies {
        &&& 0 < (#[trigger] sent[i]).len() <= 0x8000_0000
        &&& joined_data(sent[i]) == messages[i]
        &&& forall|j: int|
            0 <= j < sent[i].len() ==> {
                let c = #[trigger] sent[i][j];
                &&& c.stream_identifier == q.si
                &&& !c.unordered
                &&& c.stream_sequence_number == (q.next_ssn + i) % 0x1_0000
                &&& c.tsn == (sent[i][0].tsn + j) % 0x1_0000_0000
                &&& c.payload_type == ppi
                &&& c.beginning_fragment == (j == 0)
                &&& c.ending_fragment == (j == sent[i].len() - 1)
            }
    } by {
        assert(messages[i].len() > 0);
        let s = after_messages(sender, messages, ppi, i as nat);
        lemma_after_messages(sender, messages, ppi, i as nat);
        lemma_fragments_whole(s, messages[i], ppi, sent[i][0].tsn);
        lemma_fragments_hold(s, messages[i], ppi, sent[i][0].tsn);
        assert forall|j: int| 0 <= j < sent[i].len() implies {
            let c = #[trigger] sent[i][j];
            &&& c.stream_identifier == q.si
            &&& !c.unordered
            &&& c.stream_sequence_number == (q.next_ssn + i) % 0x1_0000
            &&& c.tsn == (sent[i][0].tsn + j) % 0x1_0000_0000
            &&& c.payload_type == ppi
            &&& c.beginning_fragment == (j == 0)
            &&& c.ending_fragment == (j == sent[i].len() - 1)
        } by {
            lemma_fragment_ends(s, messages[i], ppi, j);
        }
    }
    assert(follow_each_other(sent, q.si, q.next_ssn)) by {
        assert forall|i: int, j: int|
            0 <= i < sent.len() && 0 <= j < sent[i].len() implies {
            let c = #[trigger] sent[i][j];
            &&& c.stream_identifier == q.si
            &&& !c.unordered
            &&& c.stream_sequence_number == (q.next_ssn + i) % 0x1_0000
            &&& c.tsn == (sent[i][0].tsn + j) % 0x1_0000_0000
            &&& c.payload_type == sent[i][0].payload_type
            &&& c.beginning_fragment == (j == 0)
            &&& c.ending_fragment == (j == sent[i].len() - 1)
        } by {
            assert(0 < sent[i].len());
            assert(sent[i][0].payload_type == ppi);
        }
    }
    law_messages_are_read_in_a_row(q, sent, order, n);
    assert(joined_data(sent[n as int]) == messages[n as int]);
    assert(sent[n as int][0].payload_type == ppi);
}

/// A message crosses from one association to another: what a write has queued, once it has arrived
/// in any order on a stream that waits for it, is what a read yields.
///
/// The write is one of an ordered message with at least one byte. The chunks that it queued are sent
/// with transmission sequence numbers that count up from `first`.
pub proof fn law_message_crosses(
    a: Association,
    id: u16,
    raw: Seq<u8>,
    ppi: PayloadProtocolIdentifier,
    a2: Association,
    n: usize,
    first: u32,
    order: Seq<int>,
    q: ReassemblyState,
    b: Association,
    b2: Association,
    r: Result<Option<Chunks>, Error>,
)
    requires
        written(a, id, raw, ppi, a2, Ok(n)),
        raw.len() > 0,
        a.streams@[id]@.max_payload_size > 0,
        a.streams@[id]@.stream_identifier == id,
        !a.streams@[id]@.sends_unordered(ppi),
        fragment_count(raw.len(), a.streams@[id]@.max_payload_size as nat) <= 0x8000_0000,
        covers(order, fragment_count(raw.len(), a.streams@[id]@.max_payload_size as nat)),
        q.si == id,
        q.next_ssn == a.streams@[id]@.sequence_number,
        q.unordered.len() == 0,
        forall|i: int|
            0 <= i < q.ordered.len() ==> serial16_before(
                q.next_ssn,
                (#[trigger] q.ordered[i]).ssn,
            ),
        readable(b, id),
        b.streams@[id]@.reassembly == arrived(
            q,
            numbered(
                chunk_views(a2.pending_queue@).skip(a.pending_queue@.len() as int),
                first,
            ),
            order,
        ),
        was_read(b, id, b2, r),
    ensures
        n == raw.len(),
        r matches Ok(Some(m)) && m@.unread_data() == raw && m@.ppi == ppi,
        b2.streams@[id]@.reassembly == (ReassemblyState {
            next_ssn: a2.streams@[id]@.sequence_number,
            ..q
        }),
{
    let sender = a.streams@[id]@;
    let had = chunk_views(a.pending_queue@);
    let sent = sender.fragments(raw, ppi);
    assert(had.len() == a.pending_queue@.len());
    assert((had + sent).skip(had.len() as int) =~= sent);
    law_written_is_read(sender, raw, ppi, first, q, order);
}

} // verus!
