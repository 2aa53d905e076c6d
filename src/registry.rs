//! The concurrent map that holds pool states, keyed by string.
use vstd::prelude::*;
use dashmap::DashMap;
use crate::model::{PoolKey, PoolState, key_view};

verus! {

#[verifier::external_type_specification]
#[verifier::external_body]
#[verifier::reject_recursive_types(K)]
#[verifier::reject_recursive_types(V)]
#[verifier::reject_recursive_types(S)]
pub struct ExDashMap<K, V, S>(DashMap<K, V, S>);

/// Pool states keyed by their identity.
pub type PoolMap = DashMap<PoolKey, PoolState>;

/// Pool states keyed by the joined form of their identity.
pub type JoinedMap = DashMap<String, PoolState>;

/// Positions in a snapshot keyed by a token pair.
pub type PairIndex = DashMap<(String, String), usize>;

/// The entries that a pair index holds.
pub uninterp spec fn pair_index_map(m: PairIndex) -> Map<(Seq<char>, Seq<char>), usize>;

/// The entries that a pool map holds.
pub uninterp spec fn pool_map(m: PoolMap) -> Map<(Seq<char>, Seq<char>, Seq<char>), PoolState>;

/// The entries that a joined-key map holds.
pub uninterp spec fn joined_map(m: JoinedMap) -> Map<Seq<char>, PoolState>;

/// Relies on `DashMap::new`: a new map holds no entry.
#[verifier::external_body]
pub(crate) fn map_new() -> (r: PoolMap)
    ensures
        pool_map(r) =~= Map::empty(),
{
    DashMap::new()
}

/// Relies on `DashMap::insert`: the key now maps to the value, replacing any
/// earlier value under an equal key; the other entries stay.
#[verifier::external_body]
pub(crate) fn map_insert(m: &mut PoolMap, key: PoolKey, value: PoolState)
    ensures
        pool_map(*final(m)) == pool_map(*old(m)).insert(key_view(key), value),
{
    m.insert(key, value);
}

/// Relies on `DashMap::get`: the value under an equal key, if any, copied by
/// the verified `PoolState::duplicate`.
#[verifier::external_body]
pub(crate) fn map_get(m: &PoolMap, key: &PoolKey) -> (r: Option<PoolState>)
    ensures
        r == pool_map(*m).get(key_view(*key)),
{
    m.get(key).map(|e| e.value().duplicate())
}

/// Relies on `DashMap::len`: the number of entries.
#[verifier::external_body]
pub(crate) fn map_len(m: &PoolMap) -> (r: usize)
    ensures
        r == pool_map(*m).len(),
{
    m.len()
}

/// Relies on `DashMap::iter`: each entry once, in an order that the map's
/// hashing decides; keys are cloned and values copied by the verified
/// `PoolState::duplicate`.
#[verifier::external_body]
pub(crate) fn map_entries(m: &PoolMap) -> (r: Vec<(PoolKey, PoolState)>)
    ensures
        r@.len() == pool_map(*m).len(),
        forall|i: int| #![trigger r@[i]] 0 <= i < r@.len() ==>
            pool_map(*m).contains_key(key_view(r@[i].0)) && pool_map(*m)[key_view(r@[i].0)] == r@[i].1,
        forall|i: int, j: int| 0 <= i < j < r@.len() ==> key_view(r@[i].0) != key_view(r@[j].0),
        forall|k: (Seq<char>, Seq<char>, Seq<char>)| #[trigger] pool_map(*m).contains_key(k) ==>
            exists|i: int| 0 <= i < r@.len() && key_view(r@[i].0) == k,
{
    m.iter().map(|e| (e.key().clone(), e.value().duplicate())).collect()
}

/// Relies on `DashMap::new`: a new map holds no entry.
#[verifier::external_body]
pub(crate) fn joined_new() -> (r: JoinedMap)
    ensures
        joined_map(r) =~= Map::empty(),
{
    DashMap::new()
}

/// Relies on `DashMap::insert`: the key now maps to the value, replacing any
/// earlier value under an equal key; the other entries stay.
#[verifier::external_body]
pub(crate) fn joined_insert(m: &mut JoinedMap, key: String, value: PoolState)
    ensures
        joined_map(*final(m)) == joined_map(*old(m)).insert(key@, value),
{
    m.insert(key, value);
}

/// Relies on `DashMap::get`: the value under an equal key, if any, copied by
/// the verified `PoolState::duplicate`.
#[verifier::external_body]
pub(crate) fn joined_get(m: &JoinedMap, key: &String) -> (r: Option<PoolState>)
    ensures
        r == joined_map(*m).get(key@),
{
    m.get(key).map(|e| e.value().duplicate())
}

/// Relies on `DashMap::new`: a new map holds no entry.
#[verifier::external_body]
pub(crate) fn index_new() -> (r: PairIndex)
    ensures
        pair_index_map(r) =~= Map::empty(),
{
    DashMap::new()
}

/// Relies on `DashMap::insert`: the key now maps to the value, replacing any
/// earlier value under an equal key; the other entries stay.
#[verifier::external_body]
pub(crate) fn index_insert(m: &mut PairIndex, key: (String, String), value: usize)
    ensures
        pair_index_map(*final(m)) == pair_index_map(*old(m)).insert((key.0@, key.1@), value),
{
    m.insert(key, value);
}

/// Relies on `DashMap::get`: the value under an equal key, if any.
#[verifier::external_body]
pub(crate) fn index_get(m: &PairIndex, key: &(String, String)) -> (r: Option<usize>)
    ensures
        r == pair_index_map(*m).get((key.0@, key.1@)),
{
    m.get(key).map(|e| *e.value())
}

} // verus!
