//! Sums over sequences.

use vstd::prelude::*;

verus! {

/// The sum of `f` over a sequence.
pub open spec fn total<A>(s: Seq<A>, f: spec_fn(A) -> nat) -> nat
    decreases s.len(),
{
    if s.len() == 0 {
        0
    } else {
        total(s.drop_last(), f) + f(s.last())
    }
}

/// The sum over two sequences, one after the other.
pub proof fn lemma_total_concat<A>(a: Seq<A>, b: Seq<A>, f: spec_fn(A) -> nat)
    ensures
        total(a + b, f) == total(a, f) + total(b, f),
    decreases b.len(),
{
    if b.len() == 0 {
        assert(a + b =~= a);
    } else {
        assert((a + b).drop_last() =~= a + b.drop_last());
        lemma_total_concat(a, b.drop_last(), f);
    }
}

/// The sum over one element.
pub proof fn lemma_total_one<A>(x: A, f: spec_fn(A) -> nat)
    ensures
        total(seq![x], f) == f(x),
{
    assert(seq![x].drop_last() =~= Seq::<A>::empty());
    assert(total(seq![x].drop_last(), f) == 0);
}

/// An inserted element adds its share.
pub proof fn lemma_total_insert<A>(s: Seq<A>, i: int, x: A, f: spec_fn(A) -> nat)
    requires
        0 <= i <= s.len(),
    ensures
        total(s.insert(i, x), f) == total(s, f) + f(x),
{
    let head = s.subrange(0, i);
    let tail = s.subrange(i, s.len() as int);
    assert(s =~= head + tail);
    assert(s.insert(i, x) =~= (head + seq![x]) + tail);
    lemma_total_concat(head, tail, f);
    lemma_total_concat(head + seq![x], tail, f);
    lemma_total_concat(head, seq![x], f);
    lemma_total_one(x, f);
}

/// A removed element takes its share away.
pub proof fn lemma_total_remove<A>(s: Seq<A>, i: int, f: spec_fn(A) -> nat)
    requires
        0 <= i < s.len(),
    ensures
        total(s, f) == total(s.remove(i), f) + f(s[i]),
{
    assert(s.remove(i).insert(i, s[i]) =~= s);
    lemma_total_insert(s.remove(i), i, s[i], f);
}

/// A replaced element changes its share.
pub proof fn lemma_total_update<A>(s: Seq<A>, i: int, x: A, f: spec_fn(A) -> nat)
    requires
        0 <= i < s.len(),
    ensures
        total(s.update(i, x), f) + f(s[i]) == total(s, f) + f(x),
{
    lemma_total_remove(s, i, f);
    lemma_total_remove(s.update(i, x), i, f);
    assert(s.update(i, x).remove(i) =~= s.remove(i));
}

} // verus!
