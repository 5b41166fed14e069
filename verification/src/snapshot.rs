//! The immutable snapshot: the whole graph state at one point in time.
//!
//! A snapshot holds a node map, an edge map and the id counter.  Cloning one
//! is O(1) because the maps are structurally shared, which is what lets the
//! store stack snapshots up as history without copying the graph.

use vstd::prelude::*;

use crate::coll::{
    edge_map_clone, edge_map_contains_key, edge_map_entries, edge_map_get, edge_map_len,
    edge_map_new, node_map_clone, node_map_contains_key, node_map_entries, node_map_get,
    node_map_len, node_map_new,
};
use crate::coll::{edge_map_view, node_map_view};
use crate::node::{EntityNode, NodeView, Relation};

verus! {

/// The mathematical value of a snapshot: both maps with every node abstracted
/// to its [`NodeView`], and the id counter.
#[verifier::ext_equal]
pub ghost struct SnapView {
    /// The nodes, keyed by id.
    pub nodes: Map<u64, NodeView>,
    /// The edges, keyed by the ordered `(from, to)` pair.
    pub edges: Map<(u64, u64), Relation>,
    /// The id the next created entity will get.
    pub latest_id: u64,
}

impl SnapView {
    /// The empty graph; the id counter starts at 1.
    pub open spec fn empty() -> SnapView {
        SnapView { nodes: Map::empty(), edges: Map::empty(), latest_id: 1 }
    }

    /// Both maps hold finitely many entries.  Every snapshot value the
    /// library builds satisfies this.
    pub open spec fn finite(self) -> bool {
        self.nodes.dom().finite() && self.edges.dom().finite()
    }

    /// Every node sits under its own id as key.  Construction, decoding and
    /// every mutation keep this.
    pub open spec fn well_keyed(self) -> bool {
        forall|k: u64| #[trigger] self.nodes.dom().contains(k) ==> self.nodes[k].id == k
    }
}

/// An immutable snapshot of the whole graph: nodes, edges and the id counter.
///
/// Snapshots are the unit of undo/redo history.  Cloning one is O(1).
#[derive(Debug)]
pub struct Snapshot {
    /// The nodes, keyed by id.
    pub nodes: im::HashMap<u64, EntityNode>,
    /// The edges, keyed by the ordered `(from, to)` pair.
    pub edges: im::HashMap<(u64, u64), Relation>,
    /// The id the next created entity will get.
    pub latest_id: u64,
}

impl View for Snapshot {
    type V = SnapView;

    open spec fn view(&self) -> SnapView {
        SnapView {
            nodes: node_map_view(self.nodes),
            edges: edge_map_view(self.edges),
            latest_id: self.latest_id,
        }
    }
}

impl Clone for Snapshot {
    /// The clone holds the same graph; the maps are shared, not copied.
    fn clone(&self) -> (r: Self)
        ensures
            r@ == self@,
    {
        Snapshot {
            nodes: node_map_clone(&self.nodes),
            edges: edge_map_clone(&self.edges),
            latest_id: self.latest_id,
        }
    }
}

impl Default for Snapshot {
    /// The empty snapshot; the id counter starts at 1 so that no entity ever
    /// gets id 0.
    fn default() -> (r: Self)
        ensures
            r@ == SnapView::empty(),
    {
        Snapshot { nodes: node_map_new(), edges: edge_map_new(), latest_id: 1 }
    }
}

impl Snapshot {
    /// Whether an entity with this id exists.
    pub fn contains_entity(&self, id: u64) -> (r: bool)
        ensures
            r == self@.nodes.dom().contains(id),
    {
        node_map_contains_key(&self.nodes, id)
    }

    /// The entity stored under this id, if any.
    pub fn get_entity(&self, id: u64) -> (r: Option<&EntityNode>)
        ensures
            r is Some <==> self@.nodes.dom().contains(id),
            r matches Some(n) ==> n@ == self@.nodes[id],
    {
        node_map_get(&self.nodes, id)
    }

    /// The number of entities.
    pub fn entity_count(&self) -> (r: usize)
        ensures
            r == self@.nodes.dom().len(),
    {
        node_map_len(&self.nodes)
    }

    /// Whether an edge with this ordered `(from, to)` key exists.
    pub fn contains_edge(&self, from: u64, to: u64) -> (r: bool)
        ensures
            r == self@.edges.dom().contains((from, to)),
    {
        edge_map_contains_key(&self.edges, (from, to))
    }

    /// The relation stored under this ordered `(from, to)` key, if any.
    pub fn get_relation(&self, from: u64, to: u64) -> (r: Option<Relation>)
        ensures
            r is Some <==> self@.edges.dom().contains((from, to)),
            r matches Some(rel) ==> rel == self@.edges[(from, to)],
    {
        edge_map_get(&self.edges, (from, to))
    }

    /// The number of edges.
    pub fn edge_count(&self) -> (r: usize)
        ensures
            r == self@.edges.dom().len(),
    {
        edge_map_len(&self.edges)
    }

    /// The id the next created entity will get.
    pub fn next_id(&self) -> (r: u64)
        ensures
            r == self@.latest_id,
    {
        self.latest_id
    }

    /// Every node, as `(id, node)` pairs in ascending id order.
    pub fn entities(&self) -> (r: Vec<(u64, EntityNode)>)
        ensures
            node_entries_sorted(r@),
            node_entries_represent(r@, self@.nodes),
    {
        sorted_node_list(&self.nodes)
    }

    /// Every edge, as `((from, to), relation)` triples in ascending key order
    /// (ordered pairs compared lexicographically).
    pub fn edges(&self) -> (r: Vec<((u64, u64), Relation)>)
        ensures
            edge_entries_sorted(r@),
            edge_entries_represent(r@, self@.edges),
    {
        sorted_edge_list(&self.edges)
    }
}

/// Lexicographic order on ordered edge keys.
pub open spec fn edge_key_lt(a: (u64, u64), b: (u64, u64)) -> bool {
    a.0 < b.0 || (a.0 == b.0 && a.1 < b.1)
}

/// The lexicographic order on edge keys is total.
pub proof fn lemma_edge_key_total(a: (u64, u64), b: (u64, u64))
    ensures
        edge_key_lt(a, b) || edge_key_lt(b, a) || a == b,
{
}

/// The lexicographic order on edge keys is transitive.
pub proof fn lemma_edge_key_trans(a: (u64, u64), b: (u64, u64), c: (u64, u64))
    requires
        edge_key_lt(a, b),
        edge_key_lt(b, c),
    ensures
        edge_key_lt(a, c),
{
}

/// The ids in `s` are strictly ascending.
pub open spec fn node_entries_sorted(s: Seq<(u64, EntityNode)>) -> bool {
    forall|i: int, j: int| 0 <= i < j < s.len() ==> s[i].0 < s[j].0
}

/// The keys in `s` are strictly ascending in lexicographic order.
pub open spec fn edge_entries_sorted(s: Seq<((u64, u64), Relation)>) -> bool {
    forall|i: int, j: int| 0 <= i < j < s.len() ==> edge_key_lt(s[i].0, s[j].0)
}

/// `s` lists exactly the entries of `m`: each pair stands in `m`, no id twice,
/// and every key of `m` occurs.
pub open spec fn node_entries_represent(s: Seq<(u64, EntityNode)>, m: Map<u64, NodeView>) -> bool {
    &&& forall|i: int|
        0 <= i < s.len() ==> m.dom().contains(#[trigger] s[i].0) && s[i].1@ == m[s[i].0]
    &&& forall|i: int, j: int| 0 <= i < j < s.len() ==> s[i].0 != s[j].0
    &&& forall|k: u64| #[trigger]
        m.dom().contains(k) ==> exists|i: int| 0 <= i < s.len() && #[trigger] s[i].0 == k
}

/// `s` lists exactly the entries of `m`: each pair stands in `m`, no key
/// twice, and every key of `m` occurs.
pub open spec fn edge_entries_represent(
    s: Seq<((u64, u64), Relation)>,
    m: Map<(u64, u64), Relation>,
) -> bool {
    &&& forall|i: int|
        0 <= i < s.len() ==> m.dom().contains(#[trigger] s[i].0) && s[i].1 == m[s[i].0]
    &&& forall|i: int, j: int| 0 <= i < j < s.len() ==> s[i].0 != s[j].0
    &&& forall|k: (u64, u64)| #[trigger]
        m.dom().contains(k) ==> exists|i: int| 0 <= i < s.len() && #[trigger] s[i].0 == k
}

/// Sorts a list of distinct ids into strictly ascending order.
fn sort_ids(input: Vec<u64>) -> (r: Vec<u64>)
    requires
        forall|i: int, j: int| 0 <= i < j < input@.len() ==> input@[i] != input@[j],
    ensures
        forall|i: int, j: int| 0 <= i < j < r@.len() ==> r@[i] < r@[j],
        forall|x: u64| r@.contains(x) <==> input@.contains(x),
        r@.len() == input@.len(),
{
    let mut out: Vec<u64> = Vec::new();
    let mut n: usize = 0;
    while n < input.len()
        invariant
            0 <= n <= input@.len(),
            forall|i: int, j: int| 0 <= i < j < input@.len() ==> input@[i] != input@[j],
            forall|i: int, j: int| 0 <= i < j < out@.len() ==> out@[i] < out@[j],
            out@.len() == n,
            forall|i: int|
                0 <= i < out@.len() ==> exists|j: int| 0 <= j < n && input@[j] == #[trigger] out@[i],
            forall|j: int| 0 <= j < n ==> out@.contains(#[trigger] input@[j]),
        decreases input@.len() - n,
    {
        let k = input[n];
        let mut pos: usize = 0;
        while pos < out.len() && out[pos] < k
            invariant
                0 <= pos <= out@.len(),
                forall|i: int| 0 <= i < pos ==> out@[i] < k,
            decreases out@.len() - pos,
        {
            pos = pos + 1;
        }
        proof {
            assert forall|i: int| 0 <= i < out@.len() implies out@[i] != k by {
                let j = choose|j: int| 0 <= j < n && input@[j] == out@[i];
                assert(input@[j] != input@[n as int]);
            }
        }
        let ghost old_out = out@;
        out.insert(pos, k);
        proof {
            assert forall|i: int, j: int| 0 <= i < j < out@.len() implies out@[i] < out@[j] by {
                if j < pos {
                } else if j == pos {
                    assert(out@[i] == old_out[i]);
                } else {
                    assert(out@[j] == old_out[j - 1]);
                    if i < pos {
                        assert(out@[i] == old_out[i]);
                    } else if i > pos {
                        assert(out@[i] == old_out[i - 1]);
                    }
                }
            }
            assert forall|j: int| 0 <= j < n + 1 implies out@.contains(#[trigger] input@[j]) by {
                if j == n {
                    assert(out@[pos as int] == input@[j]);
                } else {
                    let i = choose|i: int| 0 <= i < old_out.len() && old_out[i] == input@[j];
                    if i < pos {
                        assert(out@[i] == input@[j]);
                    } else {
                        assert(out@[i + 1] == input@[j]);
                    }
                }
            }
            assert forall|i: int|
                0 <= i < out@.len() implies exists|j: int|
                    0 <= j < n + 1 && input@[j] == #[trigger] out@[i] by {
                if i == pos {
                    assert(input@[n as int] == out@[i]);
                } else {
                    let h = if i < pos {
                        i
                    } else {
                        i - 1
                    };
                    assert(old_out[h] == out@[i]);
                }
            }
        }
        n = n + 1;
    }
    proof {
        assert forall|x: u64| out@.contains(x) implies input@.contains(x) by {
            let i = choose|i: int| 0 <= i < out@.len() && out@[i] == x;
            let j = choose|j: int| 0 <= j < n && input@[j] == out@[i];
            assert(input@[j] == x);
        }
    }
    out
}

/// Sorts a list of distinct edge keys into strictly ascending lexicographic
/// order.
fn sort_edge_keys(input: Vec<(u64, u64)>) -> (r: Vec<(u64, u64)>)
    requires
        forall|i: int, j: int| 0 <= i < j < input@.len() ==> input@[i] != input@[j],
    ensures
        forall|i: int, j: int| 0 <= i < j < r@.len() ==> edge_key_lt(r@[i], r@[j]),
        forall|x: (u64, u64)| r@.contains(x) <==> input@.contains(x),
        r@.len() == input@.len(),
{
    let mut out: Vec<(u64, u64)> = Vec::new();
    let mut n: usize = 0;
    while n < input.len()
        invariant
            0 <= n <= input@.len(),
            forall|i: int, j: int| 0 <= i < j < input@.len() ==> input@[i] != input@[j],
            forall|i: int, j: int|
                0 <= i < j < out@.len() ==> edge_key_lt(#[trigger] out@[i], #[trigger] out@[j]),
            out@.len() == n,
            forall|i: int|
                0 <= i < out@.len() ==> exists|j: int| 0 <= j < n && input@[j] == #[trigger] out@[i],
            forall|j: int| 0 <= j < n ==> out@.contains(#[trigger] input@[j]),
        decreases input@.len() - n,
    {
        let k = input[n];
        let mut pos: usize = 0;
        while pos < out.len() && (out[pos].0 < k.0 || (out[pos].0 == k.0 && out[pos].1 < k.1))
            invariant
                0 <= pos <= out@.len(),
                forall|i: int| 0 <= i < pos ==> edge_key_lt(#[trigger] out@[i], k),
            decreases out@.len() - pos,
        {
            pos = pos + 1;
        }
        proof {
            assert forall|i: int| 0 <= i < out@.len() implies out@[i] != k by {
                let j = choose|j: int| 0 <= j < n && input@[j] == out@[i];
                assert(input@[j] != input@[n as int]);
            }
        }
        let ghost old_out = out@;
        out.insert(pos, k);
        proof {
            assert forall|i: int, j: int| 0 <= i < j < out@.len() implies edge_key_lt(
                out@[i],
                out@[j],
            ) by {
                if j > pos {
                    assert(out@[j] == old_out[j - 1]);
                    assert(!edge_key_lt(old_out[j - 1], k) && old_out[j - 1] != k) by {
                        assert(!edge_key_lt(old_out[pos as int], k));
                        assert(old_out[pos as int] != k);
                        if j - 1 > pos {
                            assert(edge_key_lt(old_out[pos as int], old_out[j - 1]));
                            lemma_edge_key_total(old_out[j - 1], k);
                            if edge_key_lt(old_out[j - 1], k) {
                                lemma_edge_key_trans(old_out[pos as int], old_out[j - 1], k);
                            }
                        }
                    }
                    lemma_edge_key_total(old_out[j - 1], k);
                    if i < pos {
                        assert(out@[i] == old_out[i]);
                        assert(edge_key_lt(old_out[i], k));
                        lemma_edge_key_trans(old_out[i], k, old_out[j - 1]);
                    } else if i > pos {
                        assert(out@[i] == old_out[i - 1]);
                    }
                } else if j == pos {
                    assert(out@[i] == old_out[i]);
                } else {
                    assert(out@[i] == old_out[i] && out@[j] == old_out[j]);
                }
            }
            assert forall|j: int| 0 <= j < n + 1 implies out@.contains(#[trigger] input@[j]) by {
                if j == n {
                    assert(out@[pos as int] == input@[j]);
                } else {
                    let i = choose|i: int| 0 <= i < old_out.len() && old_out[i] == input@[j];
                    if i < pos {
                        assert(out@[i] == input@[j]);
                    } else {
                        assert(out@[i + 1] == input@[j]);
                    }
                }
            }
            assert forall|i: int|
                0 <= i < out@.len() implies exists|j: int|
                    0 <= j < n + 1 && input@[j] == #[trigger] out@[i] by {
                if i == pos {
                    assert(input@[n as int] == out@[i]);
                } else {
                    let h = if i < pos {
                        i
                    } else {
                        i - 1
                    };
                    assert(old_out[h] == out@[i]);
                }
            }
        }
        n = n + 1;
    }
    proof {
        assert forall|x: (u64, u64)| out@.contains(x) implies input@.contains(x) by {
            let i = choose|i: int| 0 <= i < out@.len() && out@[i] == x;
            let j = choose|j: int| 0 <= j < n && input@[j] == out@[i];
            assert(input@[j] == x);
        }
    }
    out
}

/// Lists the node map in ascending id order: collects the keys, sorts them,
/// and looks each node up again.
fn sorted_node_list(m: &im::HashMap<u64, EntityNode>) -> (r: Vec<(u64, EntityNode)>)
    ensures
        node_entries_sorted(r@),
        node_entries_represent(r@, node_map_view(*m)),
{
    let raw = node_map_entries(m);
    let ghost mv = node_map_view(*m);
    let mut keys: Vec<u64> = Vec::new();
    let mut i: usize = 0;
    while i < raw.len()
        invariant
            0 <= i <= raw@.len(),
            keys@.len() == i,
            forall|j: int| 0 <= j < i ==> keys@[j] == #[trigger] raw@[j].0,
            forall|i2: int, j2: int| 0 <= i2 < j2 < raw@.len() ==> raw@[i2].0 != raw@[j2].0,
        decreases raw@.len() - i,
    {
        keys.push(raw[i].0);
        i = i + 1;
    }
    proof {
        assert forall|a: int, b: int| 0 <= a < b < keys@.len() implies keys@[a] != keys@[b] by {
            assert(keys@[a] == raw@[a].0);
            assert(keys@[b] == raw@[b].0);
        }
    }
    let ghost keysv = keys@;
    let sk = sort_ids(keys);
    let mut out: Vec<(u64, EntityNode)> = Vec::new();
    let mut j: usize = 0;
    while j < sk.len()
        invariant
            mv == node_map_view(*m),
            0 <= j <= sk@.len(),
            out@.len() == j,
            forall|i2: int, j2: int| 0 <= i2 < j2 < sk@.len() ==> sk@[i2] < sk@[j2],
            keysv.len() == raw@.len(),
            forall|j2: int| 0 <= j2 < keysv.len() ==> keysv[j2] == #[trigger] raw@[j2].0,
            forall|x: u64| sk@.contains(x) <==> keysv.contains(x),
            forall|i2: int|
                0 <= i2 < raw@.len() ==> mv.dom().contains(#[trigger] raw@[i2].0),
            forall|k: u64| #[trigger]
                mv.dom().contains(k) ==> exists|i2: int|
                    0 <= i2 < raw@.len() && #[trigger] raw@[i2].0 == k,
            forall|i2: int|
                0 <= i2 < j ==> (#[trigger] out@[i2]).0 == sk@[i2] && mv.dom().contains(sk@[i2])
                    && out@[i2].1@ == mv[sk@[i2]],
        decreases sk@.len() - j,
    {
        let k = sk[j];
        proof {
            assert(sk@.contains(k));
            assert(keysv.contains(k));
            let j2 = choose|j2: int| 0 <= j2 < keysv.len() && keysv[j2] == k;
            assert(raw@[j2].0 == k);
            assert(mv.dom().contains(k));
        }
        let node = node_map_get(m, k).unwrap();
        let node2 = node.clone();
        let ghost old_out = out@;
        out.push((k, node2));
        proof {
            assert(out@ == old_out.push((k, node2)));
            assert(out@[j as int].0 == k && out@[j as int].1@ == mv[k]);
        }
        j = j + 1;
    }
    proof {
        assert forall|k: u64| #[trigger]
            mv.dom().contains(k) implies exists|i2: int|
            0 <= i2 < out@.len() && #[trigger] out@[i2].0 == k by {
            let i2 = choose|i2: int| 0 <= i2 < raw@.len() && #[trigger] raw@[i2].0 == k;
            assert(keysv[i2] == k);
            assert(keysv.contains(k));
            assert(sk@.contains(k));
            let i3 = choose|i3: int| 0 <= i3 < sk@.len() && sk@[i3] == k;
            assert(out@[i3].0 == k);
        }
    }
    out
}

/// Lists the edge map in ascending lexicographic key order: collects the
/// keys, sorts them, and looks each relation up again.
fn sorted_edge_list(m: &im::HashMap<(u64, u64), Relation>) -> (r: Vec<((u64, u64), Relation)>)
    ensures
        edge_entries_sorted(r@),
        edge_entries_represent(r@, edge_map_view(*m)),
{
    let raw = edge_map_entries(m);
    let ghost mv = edge_map_view(*m);
    let mut keys: Vec<(u64, u64)> = Vec::new();
    let mut i: usize = 0;
    while i < raw.len()
        invariant
            0 <= i <= raw@.len(),
            keys@.len() == i,
            forall|j: int| 0 <= j < i ==> keys@[j] == #[trigger] raw@[j].0,
            forall|i2: int, j2: int| 0 <= i2 < j2 < raw@.len() ==> raw@[i2].0 != raw@[j2].0,
        decreases raw@.len() - i,
    {
        keys.push(raw[i].0);
        i = i + 1;
    }
    proof {
        assert forall|a: int, b: int| 0 <= a < b < keys@.len() implies keys@[a] != keys@[b] by {
            assert(keys@[a] == raw@[a].0);
            assert(keys@[b] == raw@[b].0);
        }
    }
    let ghost keysv = keys@;
    let sk = sort_edge_keys(keys);
    let mut out: Vec<((u64, u64), Relation)> = Vec::new();
    let mut j: usize = 0;
    while j < sk.len()
        invariant
            mv == edge_map_view(*m),
            0 <= j <= sk@.len(),
            out@.len() == j,
            forall|i2: int, j2: int|
                0 <= i2 < j2 < sk@.len() ==> edge_key_lt(#[trigger] sk@[i2], #[trigger] sk@[j2]),
            keysv.len() == raw@.len(),
            forall|j2: int| 0 <= j2 < keysv.len() ==> keysv[j2] == #[trigger] raw@[j2].0,
            forall|x: (u64, u64)| sk@.contains(x) <==> keysv.contains(x),
            forall|i2: int|
                0 <= i2 < raw@.len() ==> mv.dom().contains(#[trigger] raw@[i2].0),
            forall|k: (u64, u64)| #[trigger]
                mv.dom().contains(k) ==> exists|i2: int|
                    0 <= i2 < raw@.len() && #[trigger] raw@[i2].0 == k,
            forall|i2: int|
                0 <= i2 < j ==> (#[trigger] out@[i2]).0 == sk@[i2] && mv.dom().contains(sk@[i2])
                    && out@[i2].1 == mv[sk@[i2]],
        decreases sk@.len() - j,
    {
        let k = sk[j];
        proof {
            assert(sk@.contains(k));
            assert(keysv.contains(k));
            let j2 = choose|j2: int| 0 <= j2 < keysv.len() && keysv[j2] == k;
            assert(raw@[j2].0 == k);
            assert(mv.dom().contains(k));
        }
        let rel = edge_map_get(m, k).unwrap();
        let ghost old_out = out@;
        out.push((k, rel));
        proof {
            assert(out@ == old_out.push((k, rel)));
            assert(out@[j as int].0 == k && out@[j as int].1 == mv[k]);
        }
        j = j + 1;
    }
    proof {
        assert forall|k: (u64, u64)| #[trigger]
            mv.dom().contains(k) implies exists|i2: int|
            0 <= i2 < out@.len() && #[trigger] out@[i2].0 == k by {
            let i2 = choose|i2: int| 0 <= i2 < raw@.len() && #[trigger] raw@[i2].0 == k;
            assert(keysv[i2] == k);
            assert(keysv.contains(k));
            assert(sk@.contains(k));
            let i3 = choose|i3: int| 0 <= i3 < sk@.len() && sk@[i3] == k;
            assert(out@[i3].0 == k);
        }
    }
    out
}


/// Whether two nodes hold the same value.
fn node_eq(a: &EntityNode, b: &EntityNode) -> (r: bool)
    ensures
        r == (a@ == b@),
{
    let r = a.id == b.id && a.content == b.content && a.distinct_type == b.distinct_type
        && a.addon_types == b.addon_types && a.coor.0 == b.coor.0 && a.coor.1 == b.coor.1;
    proof {
        if r {
            assert(a@ =~= b@);
        }
    }
    r
}

impl PartialEq for Snapshot {
    /// Two snapshots are equal exactly when their node maps, edge maps and id
    /// counters are equal by value.
    fn eq(&self, other: &Snapshot) -> (r: bool)
        ensures
            r == (self@ == other@),
    {
        if self.latest_id != other.latest_id {
            return false;
        }
        let se = self.entities();
        let mut i: usize = 0;
        while i < se.len()
            invariant
                0 <= i <= se@.len(),
                node_entries_represent(se@, self@.nodes),
                forall|j: int|
                    0 <= j < i ==> other@.nodes.dom().contains((#[trigger] se@[j]).0)
                        && other@.nodes[se@[j].0] == self@.nodes[se@[j].0],
            decreases se@.len() - i,
        {
            let k = se[i].0;
            match other.get_entity(k) {
                None => {
                    proof {
                        assert(self@.nodes.dom().contains(k));
                    }
                    return false;
                },
                Some(n2) => {
                    if !node_eq(&se[i].1, n2) {
                        proof {
                            assert(self@.nodes[k] != other@.nodes[k]);
                        }
                        return false;
                    }
                },
            }
            i = i + 1;
        }
        let oe = other.entities();
        let mut i2: usize = 0;
        while i2 < oe.len()
            invariant
                0 <= i2 <= oe@.len(),
                node_entries_represent(oe@, other@.nodes),
                forall|j: int| 0 <= j < i2 ==> self@.nodes.dom().contains((#[trigger] oe@[j]).0),
            decreases oe@.len() - i2,
        {
            let k = oe[i2].0;
            if !self.contains_entity(k) {
                proof {
                    assert(other@.nodes.dom().contains(k));
                }
                return false;
            }
            i2 = i2 + 1;
        }
        let sed = self.edges();
        let mut i3: usize = 0;
        while i3 < sed.len()
            invariant
                0 <= i3 <= sed@.len(),
                edge_entries_represent(sed@, self@.edges),
                forall|j: int|
                    0 <= j < i3 ==> other@.edges.dom().contains((#[trigger] sed@[j]).0)
                        && other@.edges[sed@[j].0] == self@.edges[sed@[j].0],
            decreases sed@.len() - i3,
        {
            let k = sed[i3].0;
            match other.get_relation(k.0, k.1) {
                None => {
                    proof {
                        assert(self@.edges.dom().contains(k));
                    }
                    return false;
                },
                Some(rel2) => {
                    if !(sed[i3].1 == rel2) {
                        proof {
                            assert(self@.edges[k] != other@.edges[k]);
                        }
                        return false;
                    }
                },
            }
            i3 = i3 + 1;
        }
        let oed = other.edges();
        let mut i4: usize = 0;
        while i4 < oed.len()
            invariant
                0 <= i4 <= oed@.len(),
                edge_entries_represent(oed@, other@.edges),
                forall|j: int| 0 <= j < i4 ==> self@.edges.dom().contains((#[trigger] oed@[j]).0),
            decreases oed@.len() - i4,
        {
            let k = oed[i4].0;
            if !self.contains_edge(k.0, k.1) {
                proof {
                    assert(other@.edges.dom().contains(k));
                }
                return false;
            }
            i4 = i4 + 1;
        }
        proof {
            assert(self@.nodes =~= other@.nodes) by {
                assert forall|k: u64| self@.nodes.dom().contains(k) implies other@.nodes.dom().contains(
                    k,
                ) && other@.nodes[k] == self@.nodes[k] by {
                    let j = choose|j: int| 0 <= j < se@.len() && (#[trigger] se@[j]).0 == k;
                }
                assert forall|k: u64| other@.nodes.dom().contains(k) implies self@.nodes.dom().contains(
                    k,
                ) by {
                    let j = choose|j: int| 0 <= j < oe@.len() && (#[trigger] oe@[j]).0 == k;
                }
            }
            assert(self@.edges =~= other@.edges) by {
                assert forall|k: (u64, u64)| self@.edges.dom().contains(k) implies other@.edges.dom().contains(
                    k,
                ) && other@.edges[k] == self@.edges[k] by {
                    let j = choose|j: int| 0 <= j < sed@.len() && (#[trigger] sed@[j]).0 == k;
                }
                assert forall|k: (u64, u64)| other@.edges.dom().contains(k) implies self@.edges.dom().contains(
                    k,
                ) by {
                    let j = choose|j: int| 0 <= j < oed@.len() && (#[trigger] oed@[j]).0 == k;
                }
            }
            assert(self@ =~= other@);
        }
        true
    }
}

impl vstd::std_specs::cmp::PartialEqSpecImpl for Snapshot {
    open spec fn obeys_eq_spec() -> bool {
        true
    }

    open spec fn eq_spec(&self, other: &Snapshot) -> bool {
        self@ == other@
    }
}

} // verus!
