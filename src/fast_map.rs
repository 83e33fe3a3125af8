//! The hash map of the `ahash` crate, keyed and valued by `u64`, as the
//! library sees it.
use ahash::AHashMap;
use vstd::prelude::*;

verus! {

#[verifier::external_type_specification]
#[verifier::external_body]
#[verifier::reject_recursive_types(K)]
#[verifier::reject_recursive_types(V)]
#[verifier::reject_recursive_types(S)]
pub struct ExAHashMap<K, V, S>(AHashMap<K, V, S>);

#[verifier::external_type_specification]
#[verifier::external_body]
pub struct ExAHashRandomState(ahash::RandomState);

/// A map from `u64` to `u64`.
pub type U64Map = AHashMap<u64, u64>;

/// The entries of a map.
pub uninterp spec fn entries_of(m: U64Map) -> Map<u64, u64>;

/// Relies on `AHashMap::new`: an empty map.
#[verifier::external_body]
pub(crate) fn map_new() -> (r: U64Map)
    ensures
        entries_of(r).dom() == Set::<u64>::empty(),
{
    AHashMap::new()
}

/// Relies on `AHashMap::get`: the value under `k`, if any.
#[verifier::external_body]
pub(crate) fn map_get(m: &U64Map, k: u64) -> (r: Option<u64>)
    ensures
        r == (if entries_of(*m).contains_key(k) {
            Some(entries_of(*m)[k])
        } else {
            None
        }),
{
    m.get(&k).copied()
}

/// Relies on `AHashMap::insert`: `k` maps to `v` afterwards, the other
/// entries stay.
#[verifier::external_body]
pub(crate) fn map_insert(m: &mut U64Map, k: u64, v: u64)
    ensures
        entries_of(*final(m)) == entries_of(*old(m)).insert(k, v),
{
    m.insert(k, v);
}

} // verus!
