//! The tables in which an endpoint keeps its associations: maps of the `fxhash` crate and slabs of
//! the `slab` crate, what they hold, and what their operations do to it.

use std::hash::Hash;
use vstd::prelude::*;
use vstd::std_specs::hash::obeys_key_model;

use crate::endpoint::AssociationMeta;

verus! {

/// Declares `fxhash::FxHasher`, a fast hasher without a seed.
#[verifier::external_type_specification]
#[verifier::external_body]
pub struct ExFxHasher(fxhash::FxHasher);

/// Declares `std::hash::BuildHasherDefault`, which sets up hashers by their `Default`.
#[verifier::external_type_specification]
#[verifier::external_body]
#[verifier::reject_recursive_types(H)]
pub struct ExBuildHasherDefault<H>(std::hash::BuildHasherDefault<H>);

/// Declares `slab::Slab`, which stores values under keys that it chooses.
#[verifier::external_type_specification]
#[verifier::external_body]
#[verifier::reject_recursive_types(T)]
pub struct ExSlab<T>(slab::Slab<T>);

/// What a slab holds, by key.
pub uninterp spec fn slab_entries(s: slab::Slab<AssociationMeta>) -> Map<usize, AssociationMeta>;

/// `HashMap::len` on an `FxHashMap`: the number of entries.
#[verifier::external_body]
pub(crate) fn fx_len<K: Eq + Hash, V>(m: &fxhash::FxHashMap<K, V>) -> (n: usize)
    requires
        obeys_key_model::<K>(),
    ensures
        n == m@.len(),
{
    m.len()
}

/// `HashMap::contains_key` on an `FxHashMap`: whether there is an entry with that key.
#[verifier::external_body]
pub(crate) fn fx_contains<K: Eq + Hash, V>(m: &fxhash::FxHashMap<K, V>, k: &K) -> (r: bool)
    requires
        obeys_key_model::<K>(),
    ensures
        r == m@.contains_key(*k),
{
    m.contains_key(k)
}

/// `HashMap::insert` on an `FxHashMap`: the entry is there afterwards, in place of one with the
/// same key if there was one.
#[verifier::external_body]
pub(crate) fn fx_insert<K: Eq + Hash, V>(m: &mut fxhash::FxHashMap<K, V>, k: K, v: V)
    requires
        obeys_key_model::<K>(),
    ensures
        final(m)@ == old(m)@.insert(k, v),
{
    m.insert(k, v);
}

/// `HashMap::remove` on an `FxHashMap`: there is no entry with that key afterwards. Yields the value
/// that it had.
#[verifier::external_body]
pub(crate) fn fx_remove<K: Eq + Hash, V>(m: &mut fxhash::FxHashMap<K, V>, k: &K) -> (r: Option<V>)
    requires
        obeys_key_model::<K>(),
    ensures
        final(m)@ == old(m)@.remove(*k),
        r == (if old(m)@.contains_key(*k) {
            Some(old(m)@[*k])
        } else {
            None
        }),
{
    m.remove(k)
}

/// `HashMap::into_values` on an `FxHashMap`: the values, in any order.
#[verifier::external_body]
pub(crate) fn fx_into_values<K: Eq + Hash, V>(m: fxhash::FxHashMap<K, V>) -> (r: Vec<V>)
    requires
        obeys_key_model::<K>(),
    ensures
        r@.to_set() == m@.values(),
{
    m.into_values().collect()
}

/// `Slab::new`: a slab that holds nothing.
#[verifier::external_body]
pub(crate) fn slab_new() -> (r: slab::Slab<AssociationMeta>)
    ensures
        slab_entries(r).dom() == Set::<usize>::empty(),
{
    slab::Slab::new()
}

/// `Slab::insert`: stores the value under a key that was not in use. Which one that is depends on
/// what was stored and taken out before, and is left open.
#[verifier::external_body]
pub(crate) fn slab_insert(s: &mut slab::Slab<AssociationMeta>, v: AssociationMeta) -> (k: usize)
    ensures
        !slab_entries(*old(s)).contains_key(k),
        slab_entries(*final(s)) == slab_entries(*old(s)).insert(k, v),
{
    s.insert(v)
}

/// `Slab::remove`: takes out the value with that key. It panics where there is none.
#[verifier::external_body]
pub(crate) fn slab_remove(s: &mut slab::Slab<AssociationMeta>, k: usize) -> (v: AssociationMeta)
    requires
        slab_entries(*old(s)).contains_key(k),
    ensures
        v == slab_entries(*old(s))[k],
        slab_entries(*final(s)) == slab_entries(*old(s)).remove(k),
{
    s.remove(k)
}

/// `IndexMut::index_mut` on a `Slab`: access to the value with that key. It panics where there is
/// none.
#[verifier::external_body]
pub(crate) fn slab_get_mut(s: &mut slab::Slab<AssociationMeta>, k: usize) -> (v:
    &mut AssociationMeta)
    requires
        slab_entries(*old(s)).contains_key(k),
    ensures
        *v == slab_entries(*old(s))[k],
        slab_entries(*final(s)) == slab_entries(*old(s)).insert(k, *final(v)),
{
    &mut s[k]
}

} // verus!
