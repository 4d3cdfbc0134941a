//! Hash maps and hash sets with the Fx hasher, keyed by integers or tuples
//! of integers.
//!
//! The collections are std's `HashMap` and `HashSet` built with
//! `rustc_hash`'s hasher. What a collection holds is its view, a `Map` or a
//! `Set`; each operation below states what it does to that view.

use rustc_hash::{FxHashMap, FxHashSet, FxHasher};
use std::hash::{BuildHasherDefault, Hash};
use vstd::prelude::*;

verus! {

/// `rustc_hash::FxHasher`, the hasher of the collections.
#[verifier::external_type_specification]
#[verifier::external_body]
pub struct ExFxHasher(FxHasher);

/// `std::hash::BuildHasherDefault`, which makes the hasher of a collection.
#[verifier::external_type_specification]
#[verifier::external_body]
#[verifier::reject_recursive_types(H)]
pub struct ExBuildHasherDefault<H>(BuildHasherDefault<H>);

/// Keys whose equality and hash std defines field by field: integers and
/// tuples of integers. Two keys are the same entry of a collection exactly
/// when they are equal values.
pub(crate) trait PlainKey: Eq + Hash {

}

impl PlainKey for i32 {

}

impl PlainKey for i64 {

}

impl PlainKey for (usize, i64, i64) {

}

/// `FxHashMap::default()`: a map without entries.
#[verifier::external_body]
pub(crate) fn map_new<K: PlainKey, V>() -> (r: FxHashMap<K, V>)
    ensures
        (r@ == Map::<K, V>::empty()),
{
    FxHashMap::default()
}

/// `HashMap::get`: the value stored under the key, if there is one.
#[verifier::external_body]
pub(crate) fn map_get<'a, K: PlainKey, V>(m: &'a FxHashMap<K, V>, k: K) -> (r: Option<&'a V>)
    ensures
        m@.contains_key(k) ==> r == Some(&m@[k]),
        !m@.contains_key(k) ==> r is None,
{
    m.get(&k)
}

/// `HashMap::contains_key`: whether a value is stored under the key.
#[verifier::external_body]
pub(crate) fn map_contains<K: PlainKey, V>(m: &FxHashMap<K, V>, k: K) -> (r: bool)
    ensures
        r == m@.contains_key(k),
{
    m.contains_key(&k)
}

/// `HashMap::insert`: afterwards the key holds the value, whatever it held
/// before; the other entries stay.
#[verifier::external_body]
pub(crate) fn map_insert<K: PlainKey, V>(m: &mut FxHashMap<K, V>, k: K, v: V)
    ensures
        final(m)@ == old(m)@.insert(k, v),
{
    m.insert(k, v);
}

/// `HashMap::remove`: takes the key's value out of the map and returns it;
/// the other entries stay.
#[verifier::external_body]
pub(crate) fn map_remove<K: PlainKey, V>(m: &mut FxHashMap<K, V>, k: K) -> (r: Option<V>)
    ensures
        final(m)@ == old(m)@.remove(k),
        old(m)@.contains_key(k) ==> r == Some(old(m)@[k]),
        !old(m)@.contains_key(k) ==> r is None,
{
    m.remove(&k)
}

/// `HashMap::keys`, copied into a vector: every key once, in an order that
/// is not specified.
#[verifier::external_body]
pub(crate) fn map_keys<K: PlainKey + Copy, V>(m: &FxHashMap<K, V>) -> (r: Vec<K>)
    ensures
        r@.no_duplicates(),
        r@.to_set() == m@.dom(),
{
    m.keys().copied().collect()
}

/// `FxHashSet::default()`: a set without elements.
#[verifier::external_body]
pub(crate) fn set_new<K: PlainKey>() -> (r: FxHashSet<K>)
    ensures
        r@ == Set::<K>::empty(),
{
    FxHashSet::default()
}

/// `HashSet::insert`: afterwards the set holds the key too.
#[verifier::external_body]
pub(crate) fn set_insert<K: PlainKey>(s: &mut FxHashSet<K>, k: K)
    ensures
        final(s)@ == old(s)@.insert(k),
{
    s.insert(k);
}

/// `HashSet::contains`: whether the set holds the key.
#[verifier::external_body]
pub(crate) fn set_contains<K: PlainKey>(s: &FxHashSet<K>, k: K) -> (r: bool)
    ensures
        r == s@.contains(k),
{
    s.contains(&k)
}

} // verus!
