//! The ordered map that backs the token dictionary: `indexmap::IndexMap`
//! from a token length to the tokens of that length.
//!
//! The map is opaque to the verifier. Its contents are named by
//! [`map_entries`], and every contract in this file is taken on trust from
//! the map's documented behaviour; the dictionary's own logic is proved
//! against these contracts.

use indexmap::IndexMap;
use vstd::prelude::*;

verus! {

/// `indexmap::IndexMap`, taken as an opaque type.
#[verifier::external_type_specification]
#[verifier::external_body]
#[verifier::reject_recursive_types(K)]
#[verifier::reject_recursive_types(V)]
#[verifier::reject_recursive_types(S)]
pub struct ExIndexMap<K, V, S>(indexmap::IndexMap<K, V, S>);

/// The key-value pairs that a map holds, in the map's iteration order, each
/// value taken as the sequence of byte strings it stores.
pub uninterp spec fn map_entries(map: IndexMap<usize, Vec<Vec<u8>>>) -> Seq<(usize, Seq<Seq<u8>>)>;

/// `IndexMap::default`: the map it returns holds no pair.
#[verifier::external_body]
pub(crate) fn map_default() -> (map: IndexMap<usize, Vec<Vec<u8>>>)
    ensures
        map_entries(map) == Seq::<(usize, Seq<Seq<u8>>)>::empty(),
{
    IndexMap::default()
}

/// `IndexMap::clone`: a map with the same pairs in the same order.
#[verifier::external_body]
pub(crate) fn map_clone(map: &IndexMap<usize, Vec<Vec<u8>>>) -> (copy: IndexMap<
    usize,
    Vec<Vec<u8>>,
>)
    ensures
        map_entries(copy) == map_entries(*map),
{
    map.clone()
}

/// `IndexMap::len`: the number of pairs held.
#[verifier::external_body]
pub(crate) fn map_len(map: &IndexMap<usize, Vec<Vec<u8>>>) -> (n: usize)
    ensures
        n == map_entries(*map).len(),
{
    map.len()
}

/// `IndexMap::is_empty`: whether the map holds no pair.
#[verifier::external_body]
pub(crate) fn map_is_empty(map: &IndexMap<usize, Vec<Vec<u8>>>) -> (empty: bool)
    ensures
        empty == (map_entries(*map).len() == 0),
{
    map.is_empty()
}

/// `IndexMap::get_index`: the pair at position `index` of the iteration
/// order, or `None` when the map holds no more than `index` pairs.
#[verifier::external_body]
pub(crate) fn map_get_index<'a>(map: &'a IndexMap<usize, Vec<Vec<u8>>>, index: usize) -> (pair:
    Option<(&'a usize, &'a Vec<Vec<u8>>)>)
    ensures
        index >= map_entries(*map).len() ==> pair is None,
        index < map_entries(*map).len() ==> pair is Some && *pair.unwrap().0 == map_entries(
            *map,
        )[index as int].0 && pair.unwrap().1.deep_view() == map_entries(*map)[index as int].1,
{
    map.get_index(index)
}

/// `IndexMap::get_mut`: a mutable borrow of the value stored under `key`, or
/// `None` when no pair has that key. Whatever is written through the borrow
/// replaces the value in place; every other pair, and the order, stay.
#[verifier::external_body]
pub(crate) fn map_get_mut<'a>(map: &'a mut IndexMap<usize, Vec<Vec<u8>>>, key: &usize) -> (value:
    Option<&'a mut Vec<Vec<u8>>>)
    ensures
        match value {
            Some(bucket) => exists|i: int|
                0 <= i < map_entries(*old(map)).len() && (#[trigger] map_entries(*old(map))[i]).0
                    == *key && bucket.deep_view() == map_entries(*old(map))[i].1 && map_entries(
                    *final(map),
                ) == map_entries(*old(map)).update(i, (*key, final(bucket).deep_view())),
            None => map_entries(*final(map)) == map_entries(*old(map)) && forall|i: int|
                0 <= i < map_entries(*old(map)).len() ==> (#[trigger] map_entries(
                    *old(map),
                )[i]).0 != *key,
        },
{
    map.get_mut(key)
}

/// `IndexMap::insert`: under a key that the map already holds the value is
/// replaced in place and the earlier value handed back; under a new key the
/// pair is appended last in order and `None` is returned.
#[verifier::external_body]
pub(crate) fn map_insert(
    map: &mut IndexMap<usize, Vec<Vec<u8>>>,
    key: usize,
    value: Vec<Vec<u8>>,
) -> (earlier: Option<Vec<Vec<u8>>>)
    ensures
        match earlier {
            Some(prev) => exists|i: int|
                0 <= i < map_entries(*old(map)).len() && (#[trigger] map_entries(*old(map))[i]).0
                    == key && prev.deep_view() == map_entries(*old(map))[i].1 && map_entries(
                    *final(map),
                ) == map_entries(*old(map)).update(i, (key, value.deep_view())),
            None => map_entries(*final(map)) == map_entries(*old(map)).push(
                (key, value.deep_view()),
            ) && forall|i: int|
                0 <= i < map_entries(*old(map)).len() ==> (#[trigger] map_entries(
                    *old(map),
                )[i]).0 != key,
        },
{
    map.insert(key, value)
}

/// `IndexMap::sort_keys`: the same pairs, rearranged so that the keys ascend.
#[verifier::external_body]
pub(crate) fn map_sort_keys(map: &mut IndexMap<usize, Vec<Vec<u8>>>)
    ensures
        map_entries(*final(map)).to_multiset() == map_entries(*old(map)).to_multiset(),
        forall|i: int, j: int|
            0 <= i < j < map_entries(*final(map)).len() ==> (#[trigger] map_entries(
                *final(map),
            )[i]).0 <= (#[trigger] map_entries(*final(map))[j]).0,
{
    map.sort_keys()
}

} // verus!
