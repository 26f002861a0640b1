//! The insertion-ordered map that carries a frequency distribution, and what
//! is taken on trust about it.

use vstd::prelude::*;
use ordered_hash_map::OrderedHashMap;

verus! {

/// `ordered_hash_map::OrderedHashMap`, a hash map that keeps its entries in
/// insertion order. Nothing inside it is visible to the verifier.
#[verifier::external_type_specification]
#[verifier::external_body]
#[verifier::reject_recursive_types(K)]
#[verifier::reject_recursive_types(V)]
#[verifier::reject_recursive_types(S)]
pub struct ExOrderedHashMap<K, V, S>(OrderedHashMap<K, V, S>);

/// The state of the hasher that an `OrderedHashMap` uses unless it is given
/// another one (`ordered_hash_map::ordered_map::DefaultHashBuilder`).
#[verifier::external_type_specification]
#[verifier::external_body]
pub struct ExDefaultHashBuilder(ordered_hash_map::ordered_map::DefaultHashBuilder);

/// The entries of a map from characters to weights, in the order in which
/// `OrderedHashMap::iter` yields them: the order of insertion.
pub uninterp spec fn entries(map: OrderedHashMap<char, u32>) -> Seq<(char, u32)>;

/// A list of entries as a frequency distribution: the same keys in the same
/// order, the weights as natural numbers.
pub open spec fn weighted(entries: Seq<(char, u32)>) -> Seq<(char, nat)> {
    Seq::new(entries.len(), |i: int| (entries[i].0, entries[i].1 as nat))
}

/// The frequency distribution that a map holds.
pub open spec fn distribution(map: OrderedHashMap<char, u32>) -> Seq<(char, nat)> {
    weighted(entries(map))
}

/// Whether one of the entries has the key `key`.
pub open spec fn has_key(entries: Seq<(char, u32)>, key: char) -> bool {
    exists|i: int| 0 <= i < entries.len() && (#[trigger] entries[i]).0 == key
}

/// Calls `OrderedHashMap::new`, which makes a map without entries.
#[verifier::external_body]
pub(crate) fn new_map() -> (map: OrderedHashMap<char, u32>)
    ensures
        entries(map) == Seq::<(char, u32)>::empty(),
{
    OrderedHashMap::new()
}

/// Calls `OrderedHashMap::insert`. A key that the map does not hold is
/// appended with its value and `None` comes back. For a key that the map
/// holds, the old value comes back and the entry moves to the end with the
/// new value.
#[verifier::external_body]
pub(crate) fn map_insert(map: &mut OrderedHashMap<char, u32>, key: char, value: u32) -> (old_value:
    Option<u32>)
    ensures
        !has_key(entries(*old(map)), key) ==> old_value is None && entries(*final(map))
            == entries(*old(map)).push((key, value)),
        forall|i: int|
            0 <= i < entries(*old(map)).len() && (#[trigger] entries(*old(map))[i]).0 == key
                ==> old_value == Some(entries(*old(map))[i].1) && entries(*final(map))
                == entries(*old(map)).remove(i).push((key, value)),
{
    map.insert(key, value)
}

/// Calls `OrderedHashMap::iter` and copies each entry out, in the order in
/// which the iterator yields them.
#[verifier::external_body]
pub(crate) fn map_entries(map: &OrderedHashMap<char, u32>) -> (list: Vec<(char, u32)>)
    ensures
        list@ == entries(*map),
{
    map.iter().map(|(key, value)| (*key, *value)).collect()
}

} // verus!
