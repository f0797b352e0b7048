//! Concurrent hash maps from a key to a position in a vector. Everything here
//! that carries a contract without a proof calls `dashmap`.

use vstd::prelude::*;

use dashmap::{DashMap, DashSet};
use std::collections::hash_map::RandomState;

verus! {

#[verifier::external_type_specification]
#[verifier::external_body]
#[verifier::reject_recursive_types(K)]
#[verifier::reject_recursive_types(V)]
#[verifier::reject_recursive_types(S)]
pub struct ExDashMap<K, V, S>(DashMap<K, V, S>);

#[verifier::external_type_specification]
#[verifier::external_body]
#[verifier::reject_recursive_types(K)]
#[verifier::reject_recursive_types(S)]
pub struct ExDashSet<K, S>(DashSet<K, S>);

/// What a map from market indexes to positions holds.
pub uninterp spec fn market_positions(index: DashMap<u16, usize, RandomState>) -> Map<u16, usize>;

/// What a map from texts to positions holds.
pub uninterp spec fn text_positions(index: DashMap<String, usize, RandomState>) -> Map<
    Seq<char>,
    usize,
>;

/// What a set of texts holds.
pub uninterp spec fn texts(set: DashSet<String, RandomState>) -> Set<Seq<char>>;

/// Whether `walk` names every key of `positions` once.
pub open spec fn walks<V>(walk: Seq<u16>, positions: Map<u16, V>) -> bool {
    &&& walk.no_duplicates()
    &&& forall|key: u16| #[trigger] walk.contains(key) <==> positions.contains_key(key)
}

/// Whether `walk` spells every key of `positions` once.
pub open spec fn spells<V>(walk: Seq<String>, positions: Map<Seq<char>, V>) -> bool {
    &&& forall|i: int, j: int|
        0 <= i < j < walk.len() ==> (#[trigger] walk[i])@ != (#[trigger] walk[j])@
    &&& forall|i: int| 0 <= i < walk.len() ==> positions.contains_key((#[trigger] walk[i])@)
    &&& forall|key: Seq<char>| #[trigger]
        positions.contains_key(key) ==> exists|i: int|
            0 <= i < walk.len() && (#[trigger] walk[i])@ == key
}

/// Makes an empty map, by `DashMap::new`.
///
/// Trusted: the map holds nothing.
#[verifier::external_body]
pub(crate) fn market_index_new() -> (index: DashMap<u16, usize, RandomState>)
    ensures
        (market_positions(index) == Map::<u16, usize>::empty()),
{
    DashMap::new()
}

/// Sets the position of a market, by `DashMap::insert`.
///
/// Trusted: the key has the new position and the others keep theirs.
#[verifier::external_body]
pub(crate) fn market_index_insert(
    index: &mut DashMap<u16, usize, RandomState>,
    key: u16,
    position: usize,
)
    ensures
        market_positions(*final(index)) == market_positions(*old(index)).insert(key, position),
{
    index.insert(key, position);
}

/// Finds the position of a market, by `DashMap::get`.
///
/// Trusted: it is found where the map has the key, and only there.
#[verifier::external_body]
pub(crate) fn market_index_get(index: &DashMap<u16, usize, RandomState>, key: u16) -> (position:
    Option<usize>)
    ensures
        match position {
            Some(p) => market_positions(*index).contains_key(key) && market_positions(*index)[key]
                == p,
            None => !market_positions(*index).contains_key(key),
        },
{
    index.get(&key).map(|entry| *entry.value())
}

/// Lists the keys of a map, by `DashMap::iter`.
///
/// Trusted: every key is listed once. In which order is left open: it hangs on
/// a hasher that is seeded anew for each map.
#[verifier::external_body]
pub(crate) fn market_index_keys(index: &DashMap<u16, usize, RandomState>) -> (keys: Vec<u16>)
    ensures
        walks(keys@, market_positions(*index)),
{
    index.iter().map(|entry| *entry.key()).collect()
}

/// Removes every key of a map, by `DashMap::clear`.
///
/// Trusted: the map holds nothing afterwards.
#[verifier::external_body]
pub(crate) fn market_index_clear(index: &mut DashMap<u16, usize, RandomState>)
    ensures
        (market_positions(*final(index)) == Map::<u16, usize>::empty()),
{
    index.clear();
}

/// Copies a map, by the `clone` of `DashMap`.
///
/// Trusted: the copy holds what the map holds.
#[verifier::external_body]
pub(crate) fn market_index_clone(index: &DashMap<u16, usize, RandomState>) -> (copy: DashMap<
    u16,
    usize,
    RandomState,
>)
    ensures
        market_positions(copy) == market_positions(*index),
{
    index.clone()
}

/// Makes an empty map, by `DashMap::new`.
///
/// Trusted: the map holds nothing.
#[verifier::external_body]
pub(crate) fn text_index_new() -> (index: DashMap<String, usize, RandomState>)
    ensures
        (text_positions(index) == Map::<Seq<char>, usize>::empty()),
{
    DashMap::new()
}

/// Sets the position of a text, by `DashMap::insert`.
///
/// Trusted: the key has the new position and the others keep theirs.
#[verifier::external_body]
pub(crate) fn text_index_insert(
    index: &mut DashMap<String, usize, RandomState>,
    key: String,
    position: usize,
)
    ensures
        text_positions(*final(index)) == text_positions(*old(index)).insert(key@, position),
{
    index.insert(key, position);
}

/// Finds the position of a text, by `DashMap::get`.
///
/// Trusted: it is found where the map has the key, and only there.
#[verifier::external_body]
pub(crate) fn text_index_get(index: &DashMap<String, usize, RandomState>, key: &str) -> (position:
    Option<usize>)
    ensures
        match position {
            Some(p) => text_positions(*index).contains_key(key@) && text_positions(*index)[key@]
                == p,
            None => !text_positions(*index).contains_key(key@),
        },
{
    index.get(key).map(|entry| *entry.value())
}

/// Says whether a map has a text, by `DashMap::contains_key`.
///
/// Trusted: exactly the keys that the map holds.
#[verifier::external_body]
pub(crate) fn text_index_contains(index: &DashMap<String, usize, RandomState>, key: &str) -> (found:
    bool)
    ensures
        found == text_positions(*index).contains_key(key@),
{
    index.contains_key(key)
}

/// Counts the keys of a map, by `DashMap::len`.
///
/// Trusted: every key counts once.
#[verifier::external_body]
pub(crate) fn text_index_len(index: &DashMap<String, usize, RandomState>) -> (len: usize)
    ensures
        len == text_positions(*index).len(),
{
    index.len()
}

/// Lists the keys of a map, by `DashMap::iter`.
///
/// Trusted: every key is listed once. In which order is left open: it hangs on
/// a hasher that is seeded anew for each map.
#[verifier::external_body]
pub(crate) fn text_index_keys(index: &DashMap<String, usize, RandomState>) -> (keys: Vec<String>)
    ensures
        spells(keys@, text_positions(*index)),
{
    index.iter().map(|entry| entry.key().clone()).collect()
}

/// Removes every key of a map, by `DashMap::clear`.
///
/// Trusted: the map holds nothing afterwards.
#[verifier::external_body]
pub(crate) fn text_index_clear(index: &mut DashMap<String, usize, RandomState>)
    ensures
        (text_positions(*final(index)) == Map::<Seq<char>, usize>::empty()),
{
    index.clear();
}

/// Copies a map, by the `clone` of `DashMap`.
///
/// Trusted: the copy holds what the map holds.
#[verifier::external_body]
pub(crate) fn text_index_clone(index: &DashMap<String, usize, RandomState>) -> (copy: DashMap<
    String,
    usize,
    RandomState,
>)
    ensures
        text_positions(copy) == text_positions(*index),
{
    index.clone()
}

/// Makes an empty set, by `DashSet::new`.
///
/// Trusted: the set holds nothing.
#[verifier::external_body]
pub(crate) fn text_set_new() -> (set: DashSet<String, RandomState>)
    ensures
        texts(set) == Set::<Seq<char>>::empty(),
{
    DashSet::new()
}

/// Copies a set, by the `clone` of `DashSet`.
///
/// Trusted: the copy holds what the set holds.
#[verifier::external_body]
pub(crate) fn text_set_clone(set: &DashSet<String, RandomState>) -> (copy: DashSet<
    String,
    RandomState,
>)
    ensures
        texts(copy) == texts(*set),
{
    set.clone()
}

} // verus!
