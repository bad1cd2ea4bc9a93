//! The hash maps that the path search keeps: bevy's `HashMap`, keyed by
//! axial coordinates, seen through what each of them holds.
use vstd::prelude::*;
use bevy::platform::collections::HashMap;

verus! {

#[verifier::external_type_specification]
#[verifier::external_body]
#[verifier::reject_recursive_types(K)]
#[verifier::reject_recursive_types(V)]
#[verifier::reject_recursive_types(S)]
pub struct ExHashMap<K, V, S>(HashMap<K, V, S>);

#[verifier::external_type_specification]
#[verifier::external_body]
pub struct ExFixedHasher(bevy::platform::hash::FixedHasher);

/// A map from a cell to the cell that the search reached it from.
pub type LinkMap = HashMap<(i32, i32), (i32, i32)>;

/// A map from a cell to the cost of the best way found to it.
pub type CostMap = HashMap<(i32, i32), u64>;

/// The entries of a map from a cell to the cell that the search reached it
/// from.
pub uninterp spec fn link_entries(m: LinkMap) -> Map<(i32, i32), (i32, i32)>;

/// The entries of a map from a cell to the cost of the best way found to it.
pub uninterp spec fn cost_entries(m: CostMap) -> Map<(i32, i32), u64>;

/// `HashMap::default`: a new map holds no entry.
#[verifier::external_body]
pub(crate) fn new_link_map() -> (fresh: LinkMap)
    ensures
        link_entries(fresh).dom().is_empty(),
{
    HashMap::default()
}

/// `HashMap::insert`: afterwards `key` maps to `value`, every other entry
/// is unchanged.
#[verifier::external_body]
pub(crate) fn link_map_insert(m: &mut LinkMap, key: (i32, i32), value: (i32, i32))
    ensures
        link_entries(*final(m)) == link_entries(*old(m)).insert(key, value),
{
    m.insert(key, value);
}

/// `HashMap::contains_key`: whether the map has an entry for `key`.
#[verifier::external_body]
pub(crate) fn link_map_contains(m: &LinkMap, key: &(i32, i32)) -> (b: bool)
    ensures
        b == link_entries(*m).dom().contains(*key),
{
    m.contains_key(key)
}

/// `HashMap`'s indexing: the value stored for `key`, which must be present
/// (indexing panics otherwise).
#[verifier::external_body]
pub(crate) fn link_map_get(m: &LinkMap, key: &(i32, i32)) -> (v: (i32, i32))
    requires
        link_entries(*m).dom().contains(*key),
    ensures
        v == link_entries(*m)[*key],
{
    m[key]
}

/// `HashMap::default`: a new map holds no entry.
#[verifier::external_body]
pub(crate) fn new_cost_map() -> (fresh: CostMap)
    ensures
        cost_entries(fresh) =~= Map::empty(),
{
    HashMap::default()
}

/// `HashMap::insert`: afterwards `key` maps to `value`, every other entry
/// is unchanged.
#[verifier::external_body]
pub(crate) fn cost_map_insert(m: &mut CostMap, key: (i32, i32), value: u64)
    ensures
        cost_entries(*final(m)) == cost_entries(*old(m)).insert(key, value),
{
    m.insert(key, value);
}

/// `HashMap::contains_key`: whether the map has an entry for `key`.
#[verifier::external_body]
pub(crate) fn cost_map_contains(m: &CostMap, key: &(i32, i32)) -> (b: bool)
    ensures
        b == cost_entries(*m).dom().contains(*key),
{
    m.contains_key(key)
}

/// `HashMap`'s indexing: the value stored for `key`, which must be present
/// (indexing panics otherwise).
#[verifier::external_body]
pub(crate) fn cost_map_get(m: &CostMap, key: &(i32, i32)) -> (v: u64)
    requires
        cost_entries(*m).dom().contains(*key),
    ensures
        v == cost_entries(*m)[*key],
{
    m[key]
}

} // verus!
