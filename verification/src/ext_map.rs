//! Trusted boundary to `multimap::MultiMap`, the multi-valued hash map
//! that backs the store.
//!
//! The map's contents are named by the uninterpreted `mm_view`: the map
//! from each present key to the sequence of values resting at it, in the
//! order they were appended.  Every wrapper below states, over `mm_view`,
//! what its one `MultiMap` call does, as the crate's source shows it; the
//! order in which the map hands its keys out is left open, since it hashes
//! its keys.

use crate::model::empty_store;
use crate::model::entries_view;
use crate::model::LevelModel;
use vstd::prelude::*;

verus! {

#[verifier::external_type_specification]
#[verifier::external_body]
#[verifier::reject_recursive_types(K)]
#[verifier::reject_recursive_types(V)]
#[verifier::reject_recursive_types(S)]
pub struct ExMultiMap<K, V, S>(multimap::MultiMap<K, V, S>);

/// Relies on `MultiMap`'s derived `Clone`; nothing is claimed of the
/// copy here, the derived code is only made callable.
pub assume_specification<K, V, S>[ <multimap::MultiMap<K, V, S> as Clone>::clone ](
    m: &multimap::MultiMap<K, V, S>,
) -> multimap::MultiMap<K, V, S>
    where
        K: Clone,
        V: Clone,
        S: Clone,
;

/// What a backing map holds: each present price key, mapped to the level
/// resting at it in insertion order.
pub uninterp spec fn mm_view(m: multimap::MultiMap<u64, (u64, String)>) -> Map<u64, LevelModel>;

/// Relies on `MultiMap::new`: the new map holds no keys.
#[verifier::external_body]
pub(crate) fn mm_new() -> (r: multimap::MultiMap<u64, (u64, String)>)
    ensures
        mm_view(r) == empty_store(),
{
    multimap::MultiMap::new()
}

/// Relies on `MultiMap::insert`: the value is pushed onto the key's
/// vector, the vector being created first when the key is absent.
#[verifier::external_body]
pub(crate) fn mm_insert(
    m: &mut multimap::MultiMap<u64, (u64, String)>,
    p: u64,
    sz: u64,
    meta: String,
)
    ensures
        mm_view(*final(m)) == (if mm_view(*old(m)).dom().contains(p) {
            mm_view(*old(m)).insert(p, mm_view(*old(m))[p].push((sz, meta@)))
        } else {
            mm_view(*old(m)).insert(p, seq![(sz, meta@)])
        }),
{
    m.insert(p, (sz, meta));
}

/// Relies on `MultiMap::keys`: it visits every present key once, in
/// arbitrary order.
#[verifier::external_body]
pub(crate) fn mm_keys(m: &multimap::MultiMap<u64, (u64, String)>) -> (r: Vec<u64>)
    ensures
        r@.no_duplicates(),
        r@.to_set() == mm_view(*m).dom(),
{
    m.keys().copied().collect()
}

/// Relies on `MultiMap::get_vec`: it returns the key's vector exactly
/// when the key is present.
#[verifier::external_body]
pub(crate) fn mm_get_level(m: &multimap::MultiMap<u64, (u64, String)>, p: u64) -> (r: Option<
    Vec<(u64, String)>,
>)
    ensures
        r is Some <==> mm_view(*m).dom().contains(p),
        r is Some ==> entries_view(r->Some_0@) == mm_view(*m)[p],
{
    m.get_vec(&p).cloned()
}

/// Relies on `MultiMap::get_vec_mut`: it hands out the key's vector,
/// which is replaced whole; an absent key leaves the map unchanged.
#[verifier::external_body]
pub(crate) fn mm_set_level(
    m: &mut multimap::MultiMap<u64, (u64, String)>,
    p: u64,
    v: Vec<(u64, String)>,
)
    requires
        mm_view(*old(m)).dom().contains(p),
    ensures
        mm_view(*final(m)) == mm_view(*old(m)).insert(p, entries_view(v@)),
{
    if let Some(slot) = m.get_vec_mut(&p) {
        *slot = v;
    }
}

/// Relies on `Entry::or_insert_vec`: a vacant key receives the given
/// vector; an occupied key keeps what it holds.
#[verifier::external_body]
pub(crate) fn mm_insert_level(
    m: &mut multimap::MultiMap<u64, (u64, String)>,
    p: u64,
    v: Vec<(u64, String)>,
)
    ensures
        mm_view(*final(m)) == (if mm_view(*old(m)).dom().contains(p) {
            mm_view(*old(m))
        } else {
            mm_view(*old(m)).insert(p, entries_view(v@))
        }),
{
    m.entry(p).or_insert_vec(v);
}

} // verus!
