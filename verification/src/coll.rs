//! Trusted boundary around the persistent maps of the `im` crate.
//!
//! The graph store keeps its nodes and edges in `im::HashMap`, whose clone is
//! O(1) thanks to structural sharing; that is what makes snapshots cheap
//! enough to stack up as undo/redo history.  Verus does not read `im`, so the
//! maps are declared opaque here, their contents are named by two
//! uninterpreted view functions, and each operation the library calls is
//! wrapped in a function whose contract states, over those views, what the
//! `im` source shows the operation does.

use vstd::prelude::*;

use crate::node::{EntityNode, NodeView, Relation};

verus! {

#[verifier::external_type_specification]
#[verifier::external_body]
#[verifier::reject_recursive_types(K)]
#[verifier::reject_recursive_types(V)]
#[verifier::reject_recursive_types(S)]
pub struct ExImHashMap<K, V, S>(im::HashMap<K, V, S>);

/// The entries of a node map, each node abstracted to its mathematical value.
pub uninterp spec fn node_map_view(m: im::HashMap<u64, EntityNode>) -> Map<u64, NodeView>;

/// The entries of an edge map, keyed by the ordered `(from, to)` pair.
pub uninterp spec fn edge_map_view(m: im::HashMap<(u64, u64), Relation>) -> Map<
    (u64, u64),
    Relation,
>;

/// The empty node map value.
pub open spec fn no_nodes() -> Map<u64, NodeView> {
    Map::empty()
}

/// The empty edge map value.
pub open spec fn no_edges() -> Map<(u64, u64), Relation> {
    Map::empty()
}

/// Relies on `im::HashMap::new`: the new map is empty.
#[verifier::external_body]
pub(crate) fn node_map_new() -> (r: im::HashMap<u64, EntityNode>)
    ensures
        node_map_view(r) == no_nodes(),
{
    im::HashMap::new()
}

/// Relies on `im::HashMap::contains_key`: whether the key is present.
#[verifier::external_body]
pub(crate) fn node_map_contains_key(m: &im::HashMap<u64, EntityNode>, k: u64) -> (r: bool)
    ensures
        r == node_map_view(*m).dom().contains(k),
{
    m.contains_key(&k)
}

/// Relies on `im::HashMap::get`: the value stored under the key, if any.
#[verifier::external_body]
pub(crate) fn node_map_get(m: &im::HashMap<u64, EntityNode>, k: u64) -> (r: Option<&EntityNode>)
    ensures
        r is Some <==> node_map_view(*m).dom().contains(k),
        r matches Some(n) ==> n@ == node_map_view(*m)[k],
{
    m.get(&k)
}

/// Relies on `im::HashMap::insert`: the map maps the key to the new value and
/// is otherwise unchanged.
#[verifier::external_body]
pub(crate) fn node_map_insert(m: &mut im::HashMap<u64, EntityNode>, k: u64, v: EntityNode)
    ensures
        node_map_view(*final(m)) == node_map_view(*old(m)).insert(k, v@),
{
    m.insert(k, v);
}

/// Relies on `im::HashMap::remove`: the key is gone, the rest is unchanged,
/// and the old value, if any, comes back.
#[verifier::external_body]
pub(crate) fn node_map_remove(m: &mut im::HashMap<u64, EntityNode>, k: u64) -> (r: Option<
    EntityNode,
>)
    ensures
        node_map_view(*final(m)) == node_map_view(*old(m)).remove(k),
        r is Some <==> node_map_view(*old(m)).dom().contains(k),
        r matches Some(n) ==> n@ == node_map_view(*old(m))[k],
{
    m.remove(&k)
}

/// Relies on `im::HashMap::len`: the number of entries, which is finite.
#[verifier::external_body]
pub(crate) fn node_map_len(m: &im::HashMap<u64, EntityNode>) -> (r: usize)
    ensures
        r == node_map_view(*m).dom().len(),
{
    m.len()
}

/// Relies on `im::HashMap::iter`: every key is visited exactly once, with the
/// value stored under it.
#[verifier::external_body]
pub(crate) fn node_map_entries(m: &im::HashMap<u64, EntityNode>) -> (r: Vec<(u64, EntityNode)>)
    ensures
        r@.len() == node_map_view(*m).dom().len(),
        forall|i: int|
            0 <= i < r@.len() ==> node_map_view(*m).dom().contains(#[trigger] r@[i].0) && r@[i].1@
                == node_map_view(*m)[r@[i].0],
        forall|i: int, j: int| 0 <= i < j < r@.len() ==> r@[i].0 != r@[j].0,
        forall|k: u64| #[trigger]
            node_map_view(*m).dom().contains(k) ==> exists|i: int|
                0 <= i < r@.len() && #[trigger] r@[i].0 == k,
{
    m.iter().map(|(k, v)| (*k, v.clone())).collect()
}

/// Relies on `im::HashMap::clone`: the clone holds the same entries; it is an
/// O(1) operation thanks to structural sharing.
#[verifier::external_body]
pub(crate) fn node_map_clone(m: &im::HashMap<u64, EntityNode>) -> (r: im::HashMap<u64, EntityNode>)
    ensures
        node_map_view(r) == node_map_view(*m),
{
    m.clone()
}

/// Relies on `im::HashMap::new`: the new map is empty.
#[verifier::external_body]
pub(crate) fn edge_map_new() -> (r: im::HashMap<(u64, u64), Relation>)
    ensures
        edge_map_view(r) == no_edges(),
{
    im::HashMap::new()
}

/// Relies on `im::HashMap::contains_key`: whether the key is present.
#[verifier::external_body]
pub(crate) fn edge_map_contains_key(m: &im::HashMap<(u64, u64), Relation>, k: (u64, u64)) -> (r:
    bool)
    ensures
        r == edge_map_view(*m).dom().contains(k),
{
    m.contains_key(&k)
}

/// Relies on `im::HashMap::get`: the value stored under the key, if any.
#[verifier::external_body]
pub(crate) fn edge_map_get(m: &im::HashMap<(u64, u64), Relation>, k: (u64, u64)) -> (r: Option<
    Relation,
>)
    ensures
        r is Some <==> edge_map_view(*m).dom().contains(k),
        r matches Some(rel) ==> rel == edge_map_view(*m)[k],
{
    m.get(&k).copied()
}

/// Relies on `im::HashMap::insert`: the map maps the key to the new value and
/// is otherwise unchanged.
#[verifier::external_body]
pub(crate) fn edge_map_insert(m: &mut im::HashMap<(u64, u64), Relation>, k: (u64, u64), v: Relation)
    ensures
        edge_map_view(*final(m)) == edge_map_view(*old(m)).insert(k, v),
{
    m.insert(k, v);
}

/// Relies on `im::HashMap::remove`: the key is gone, the rest is unchanged,
/// and the old value, if any, comes back.
#[verifier::external_body]
pub(crate) fn edge_map_remove(m: &mut im::HashMap<(u64, u64), Relation>, k: (u64, u64)) -> (r:
    Option<Relation>)
    ensures
        edge_map_view(*final(m)) == edge_map_view(*old(m)).remove(k),
        r is Some <==> edge_map_view(*old(m)).dom().contains(k),
        r matches Some(rel) ==> rel == edge_map_view(*old(m))[k],
{
    m.remove(&k)
}

/// Relies on `im::HashMap::len`: the number of entries, which is finite.
#[verifier::external_body]
pub(crate) fn edge_map_len(m: &im::HashMap<(u64, u64), Relation>) -> (r: usize)
    ensures
        r == edge_map_view(*m).dom().len(),
{
    m.len()
}

/// Relies on `im::HashMap::iter`: every key is visited exactly once, with the
/// value stored under it.
#[verifier::external_body]
pub(crate) fn edge_map_entries(m: &im::HashMap<(u64, u64), Relation>) -> (r: Vec<
    ((u64, u64), Relation),
>)
    ensures
        r@.len() == edge_map_view(*m).dom().len(),
        forall|i: int|
            0 <= i < r@.len() ==> edge_map_view(*m).dom().contains(#[trigger] r@[i].0) && r@[i].1
                == edge_map_view(*m)[r@[i].0],
        forall|i: int, j: int| 0 <= i < j < r@.len() ==> r@[i].0 != r@[j].0,
        forall|k: (u64, u64)| #[trigger]
            edge_map_view(*m).dom().contains(k) ==> exists|i: int|
                0 <= i < r@.len() && #[trigger] r@[i].0 == k,
{
    m.iter().map(|(k, v)| (*k, *v)).collect()
}

/// The submap of `m` whose keys neither start nor end at `id`.
pub open spec fn edges_not_touching(m: Map<(u64, u64), Relation>, id: u64) -> Map<
    (u64, u64),
    Relation,
> {
    Map::new(|k: (u64, u64)| m.dom().contains(k) && k.0 != id && k.1 != id, |k: (u64, u64)| m[k])
}

/// Whether an edge keyed `k` survives the removal of the entity `id`: it
/// does exactly when it neither starts nor ends there.
pub(crate) fn edge_survives(k: (u64, u64), id: u64) -> (r: bool)
    ensures
        r == (k.0 != id && k.1 != id),
{
    k.0 != id && k.1 != id
}

/// Relies on `im::HashMap::retain`, handing it the verified
/// [`edge_survives`] predicate: exactly the edges that touch `id` leave.
#[verifier::external_body]
pub(crate) fn edge_map_remove_touching(m: &mut im::HashMap<(u64, u64), Relation>, id: u64)
    ensures
        edge_map_view(*final(m)) == edges_not_touching(edge_map_view(*old(m)), id),
{
    m.retain(|k, _| edge_survives(*k, id));
}

/// Relies on `im::HashMap::clone`: the clone holds the same entries; it is an
/// O(1) operation thanks to structural sharing.
#[verifier::external_body]
pub(crate) fn edge_map_clone(m: &im::HashMap<(u64, u64), Relation>) -> (r: im::HashMap<
    (u64, u64),
    Relation,
>)
    ensures
        edge_map_view(r) == edge_map_view(*m),
{
    m.clone()
}

} // verus!
