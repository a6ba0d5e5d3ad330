//! Hash maps with the `rustc_hash` hasher, keyed by integers.
//!
//! Each function below hands one call to the map of `rustc_hash` and states
//! what that call does to the contents of the map, its view.

use rustc_hash::FxHashMap;
use std::hash::Hash;
use vstd::prelude::*;

verus! {

/// The hasher of `rustc_hash`, carried as an opaque value inside a map's type.
#[verifier::external_type_specification]
#[verifier::external_body]
pub struct ExFxBuildHasher(rustc_hash::FxBuildHasher);

/// Key types of the maps of this crate: integers and tuples of integers, whose
/// `Eq` and `Hash` agree with equality of the value.
pub(crate) trait MapKey: Sized {

}

impl MapKey for u32 {

}

impl MapKey for usize {

}

impl MapKey for (u32, u32, u32, bool) {

}

impl MapKey for (u32, i64, i64, i64, i64, i64, i64) {

}

/// What a map holds under a key, if anything.
pub open spec fn lookup<K, V>(map: Map<K, V>, key: K) -> Option<V> {
    if map.contains_key(key) {
        Some(map[key])
    } else {
        None
    }
}

/// `pairs` lists every entry of `map` once.
pub open spec fn lists<K, V>(pairs: Seq<(K, V)>, map: Map<K, V>) -> bool {
    &&& forall|i: int| #![trigger pairs[i]] 0 <= i < pairs.len() ==> map.contains_key(pairs[i].0) && map[pairs[i].0] == pairs[i].1
    &&& forall|i: int, j: int| #![trigger pairs[i], pairs[j]] 0 <= i < j < pairs.len() ==> pairs[i].0 != pairs[j].0
    &&& forall|k: K| #[trigger] map.contains_key(k) ==> exists|i: int| 0 <= i < pairs.len() && #[trigger] pairs[i] == (k, map[k])
}

/// `HashMap::get`: the value stored under the key, copied out.
#[verifier::external_body]
pub(crate) fn fx_get<K: MapKey + Copy + Eq + Hash, V: Copy>(map: &FxHashMap<K, V>, key: &K) -> (value: Option<V>)
    ensures
        value == lookup(map@, *key),
{
    map.get(key).copied()
}

/// `HashMap::insert`: stores the value under the key and hands back the value
/// that was stored there before.
#[verifier::external_body]
pub(crate) fn fx_insert<K: MapKey + Copy + Eq + Hash, V>(map: &mut FxHashMap<K, V>, key: K, value: V) -> (previous: Option<V>)
    ensures
        final(map)@ == old(map)@.insert(key, value),
        previous == lookup(old(map)@, key),
{
    map.insert(key, value)
}

/// `HashMap::len`: the number of entries.
#[verifier::external_body]
pub(crate) fn fx_len<K: MapKey + Copy + Eq + Hash, V>(map: &FxHashMap<K, V>) -> (len: usize)
    ensures
        len == map@.dom().len(),
{
    map.len()
}

/// `HashMap::iter`: every entry once, in an order that is left open.
#[verifier::external_body]
pub(crate) fn fx_entries<K: MapKey + Copy + Eq + Hash, V: Copy>(map: &FxHashMap<K, V>) -> (pairs: Vec<(K, V)>)
    ensures
        lists(pairs@, map@),
{
    map.iter().map(|(key, value)| (*key, *value)).collect()
}

} // verus!
