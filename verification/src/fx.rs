//! The `fxhash` collections used by the genome operators and the world step,
//! behind trusted wrappers.
//!
//! `FxHashMap` and `FxHashSet` are std's `HashMap` and `HashSet` with the
//! `fxhash` hasher, which is a deterministic function of the bytes written to
//! it. vstd's specifications of std's hash tables only apply to hashers that it
//! knows to be deterministic, so each operation used here gets a wrapper whose
//! contract states the usual map/set behaviour over vstd's view of the table.

use fxhash::{FxHashMap, FxHashSet, FxHasher};
use std::hash::BuildHasherDefault;
use vstd::prelude::*;

verus! {

/// `fxhash::FxHasher`, carried opaquely as the hasher of the tables below.
#[verifier::external_type_specification]
#[verifier::external_body]
pub struct ExFxHasher(FxHasher);

/// `std::hash::BuildHasherDefault`, the hasher builder of `FxHashMap` and
/// `FxHashSet`.
#[verifier::external_type_specification]
#[verifier::external_body]
#[verifier::reject_recursive_types(H)]
pub struct ExBuildHasherDefault<H>(BuildHasherDefault<H>);

/// `FxHashMap::default()`: an empty map.
#[verifier::external_body]
pub(crate) fn fx_map_new() -> (m: FxHashMap<u64, usize>)
    ensures
        m@.dom() == Set::<u64>::empty(),
{
    FxHashMap::default()
}

/// `HashMap::insert` on an `FxHashMap`: afterwards `k` maps to `v` and every
/// other key is unchanged.
#[verifier::external_body]
pub(crate) fn fx_map_insert(m: &mut FxHashMap<u64, usize>, k: u64, v: usize)
    ensures
        final(m)@ == old(m)@.insert(k, v),
{
    m.insert(k, v);
}

/// `HashMap::get` on an `FxHashMap`, with the value copied out: the value
/// stored under `k`, if any.
#[verifier::external_body]
pub(crate) fn fx_map_get(m: &FxHashMap<u64, usize>, k: u64) -> (r: Option<usize>)
    ensures
        r == (if m@.contains_key(k) {
            Some(m@[k])
        } else {
            None
        }),
{
    m.get(&k).copied()
}

/// `FxHashSet::default()`: an empty set.
#[verifier::external_body]
pub(crate) fn fx_set_new() -> (s: FxHashSet<usize>)
    ensures
        s@ == Set::<usize>::empty(),
{
    FxHashSet::default()
}

/// `HashSet::insert` on an `FxHashSet`: afterwards `v` is a member, and the
/// result says whether it was absent before.
#[verifier::external_body]
pub(crate) fn fx_set_insert(s: &mut FxHashSet<usize>, v: usize) -> (added: bool)
    ensures
        final(s)@ == old(s)@.insert(v),
        added == !old(s)@.contains(v),
{
    s.insert(v)
}

/// `HashSet::contains` on an `FxHashSet`.
#[verifier::external_body]
pub(crate) fn fx_set_contains(s: &FxHashSet<usize>, v: usize) -> (b: bool)
    ensures
        b == s@.contains(v),
{
    s.contains(&v)
}

/// `HashSet::len` on an `FxHashSet`: the number of members.
#[verifier::external_body]
pub(crate) fn fx_set_len(s: &FxHashSet<usize>) -> (n: usize)
    ensures
        n == s@.len(),
{
    s.len()
}

/// `FxHashSet::default()` for a set of index pairs: an empty set.
#[verifier::external_body]
pub(crate) fn fx_pair_set_new() -> (s: FxHashSet<(usize, usize)>)
    ensures
        s@ == Set::<(usize, usize)>::empty(),
{
    FxHashSet::default()
}

/// `HashSet::insert` on an `FxHashSet` of index pairs: afterwards `v` is a
/// member, and the result says whether it was absent before.
#[verifier::external_body]
pub(crate) fn fx_pair_set_insert(s: &mut FxHashSet<(usize, usize)>, v: (usize, usize)) -> (added: bool)
    ensures
        final(s)@ == old(s)@.insert(v),
        added == !old(s)@.contains(v),
{
    s.insert(v)
}

/// `HashSet::contains` on an `FxHashSet` of index pairs.
#[verifier::external_body]
pub(crate) fn fx_pair_set_contains(s: &FxHashSet<(usize, usize)>, v: (usize, usize)) -> (b: bool)
    ensures
        b == s@.contains(v),
{
    s.contains(&v)
}

} // verus!
