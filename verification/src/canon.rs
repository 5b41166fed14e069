//! The canonical listing of a snapshot's maps: entries in ascending key
//! order.  The encoder emits entities and relations in this order, so the
//! document text is a function of the snapshot's mathematical value alone.

use vstd::prelude::*;

use crate::node::NodeView;
use crate::node::Relation;
use crate::snapshot::edge_key_lt;

verus! {

/// `k` is the least element of `s`.
pub open spec fn is_min_key(s: Set<u64>, k: u64) -> bool {
    s.contains(k) && forall|j: u64| s.contains(j) ==> k <= j
}

/// The least element of `s`.
pub open spec fn min_key(s: Set<u64>) -> u64 {
    choose|k: u64| is_min_key(s, k)
}

/// A finite nonempty set of ids has a least element.
pub proof fn lemma_min_key_exists(s: Set<u64>)
    requires
        s.finite(),
        s.len() > 0,
    ensures
        is_min_key(s, min_key(s)),
    decreases s.len(),
{
    let a = s.choose();
    assert(s.contains(a));
    let rest = s.remove(a);
    if rest.len() == 0 {
        assert forall|j: u64| s.contains(j) implies a <= j by {
            if j != a {
                assert(rest.contains(j));
                assert(rest.len() > 0) by {
                    if rest.len() == 0 {
                        assert(rest =~= Set::empty());
                    }
                }
            }
        }
        assert(is_min_key(s, a));
    } else {
        lemma_min_key_exists(rest);
        let m = min_key(rest);
        if a <= m {
            assert forall|j: u64| s.contains(j) implies a <= j by {
                if j != a {
                    assert(rest.contains(j));
                }
            }
            assert(is_min_key(s, a));
        } else {
            assert forall|j: u64| s.contains(j) implies m <= j by {
                if j != a {
                    assert(rest.contains(j));
                }
            }
            assert(is_min_key(s, m));
        }
    }
}

/// `k` is the least edge key of `s` in lexicographic order.
pub open spec fn is_min_edge_key(s: Set<(u64, u64)>, k: (u64, u64)) -> bool {
    s.contains(k) && forall|j: (u64, u64)| s.contains(j) && j != k ==> edge_key_lt(k, j)
}

/// The least edge key of `s`.
pub open spec fn min_edge_key(s: Set<(u64, u64)>) -> (u64, u64) {
    choose|k: (u64, u64)| is_min_edge_key(s, k)
}

/// A finite nonempty set of edge keys has a least element.
pub proof fn lemma_min_edge_key_exists(s: Set<(u64, u64)>)
    requires
        s.finite(),
        s.len() > 0,
    ensures
        is_min_edge_key(s, min_edge_key(s)),
    decreases s.len(),
{
    let a = s.choose();
    assert(s.contains(a));
    let rest = s.remove(a);
    if rest.len() == 0 {
        assert forall|j: (u64, u64)| s.contains(j) && j != a implies edge_key_lt(a, j) by {
            assert(rest.contains(j));
            assert(rest.len() > 0) by {
                if rest.len() == 0 {
                    assert(rest =~= Set::empty());
                }
            }
        }
        assert(is_min_edge_key(s, a));
    } else {
        lemma_min_edge_key_exists(rest);
        let m = min_edge_key(rest);
        if edge_key_lt(a, m) || a == m {
            assert forall|j: (u64, u64)| s.contains(j) && j != a implies edge_key_lt(a, j) by {
                assert(rest.contains(j));
                if j != m {
                    crate::snapshot::lemma_edge_key_trans(a, m, j);
                }
            }
            assert(is_min_edge_key(s, a));
        } else {
            crate::snapshot::lemma_edge_key_total(a, m);
            assert(edge_key_lt(m, a));
            assert forall|j: (u64, u64)| s.contains(j) && j != m implies edge_key_lt(m, j) by {
                if j != a {
                    assert(rest.contains(j));
                }
            }
            assert(is_min_edge_key(s, m));
        }
    }
}

/// The entries of a node map in ascending id order.
pub open spec fn sorted_node_kvs(m: Map<u64, NodeView>) -> Seq<(u64, NodeView)>
    decreases m.dom().len(),
    via sorted_node_kvs_dec
{
    if m.dom().finite() && m.dom().len() > 0 {
        let k = min_key(m.dom());
        seq![(k, m[k])] + sorted_node_kvs(m.remove(k))
    } else {
        Seq::empty()
    }
}

#[via_fn]
proof fn sorted_node_kvs_dec(m: Map<u64, NodeView>) {
    if m.dom().finite() && m.dom().len() > 0 {
        lemma_min_key_exists(m.dom());
    }
}

/// The entries of an edge map in ascending lexicographic key order.
pub open spec fn sorted_edge_kvs(m: Map<(u64, u64), Relation>) -> Seq<((u64, u64), Relation)>
    decreases m.dom().len(),
    via sorted_edge_kvs_dec
{
    if m.dom().finite() && m.dom().len() > 0 {
        let k = min_edge_key(m.dom());
        seq![(k, m[k])] + sorted_edge_kvs(m.remove(k))
    } else {
        Seq::empty()
    }
}

#[via_fn]
proof fn sorted_edge_kvs_dec(m: Map<(u64, u64), Relation>) {
    if m.dom().finite() && m.dom().len() > 0 {
        lemma_min_edge_key_exists(m.dom());
    }
}

/// Any strictly ascending listing of exactly the entries of a node map is
/// the canonical one: the sorted order is unique.
pub proof fn lemma_node_kvs_canonical(s: Seq<(u64, NodeView)>, m: Map<u64, NodeView>)
    requires
        m.dom().finite(),
        forall|i: int, j: int| 0 <= i < j < s.len() ==> s[i].0 < s[j].0,
        forall|i: int|
            0 <= i < s.len() ==> m.dom().contains(#[trigger] s[i].0) && s[i].1 == m[s[i].0],
        forall|k: u64| #[trigger]
            m.dom().contains(k) ==> exists|i: int| 0 <= i < s.len() && #[trigger] s[i].0 == k,
    ensures
        s == sorted_node_kvs(m),
    decreases s.len(),
{
    if s.len() == 0 {
        assert(m.dom() =~= Set::empty());
        assert(s =~= sorted_node_kvs(m));
    } else {
        assert(m.dom().contains(s[0].0));
        assert(m.dom().len() > 0) by {
            if m.dom().len() == 0 {
                assert(m.dom() =~= Set::empty());
            }
        }
        lemma_min_key_exists(m.dom());
        let k0 = min_key(m.dom());
        assert(is_min_key(m.dom(), s[0].0)) by {
            assert forall|j: u64| m.dom().contains(j) implies s[0].0 <= j by {
                let i = choose|i: int| 0 <= i < s.len() && #[trigger] s[i].0 == j;
            }
        }
        assert(k0 == s[0].0);
        let s2 = s.skip(1);
        let m2 = m.remove(k0);
        assert forall|k: u64| #[trigger]
            m2.dom().contains(k) implies exists|i: int|
            0 <= i < s2.len() && #[trigger] s2[i].0 == k by {
            let i = choose|i: int| 0 <= i < s.len() && #[trigger] s[i].0 == k;
            assert(i != 0);
            assert(s2[i - 1].0 == k);
        }
        assert(forall|i: int|
            0 <= i < s2.len() ==> m2.dom().contains(#[trigger] s2[i].0) && s2[i].1 == m2[s2[i].0]);
        lemma_node_kvs_canonical(s2, m2);
        assert(s =~= seq![(k0, m[k0])] + sorted_node_kvs(m2));
    }
}

/// Any strictly ascending listing of exactly the entries of an edge map is
/// the canonical one.
pub proof fn lemma_edge_kvs_canonical(
    s: Seq<((u64, u64), Relation)>,
    m: Map<(u64, u64), Relation>,
)
    requires
        m.dom().finite(),
        forall|i: int, j: int|
            0 <= i < j < s.len() ==> edge_key_lt(#[trigger] s[i].0, #[trigger] s[j].0),
        forall|i: int|
            0 <= i < s.len() ==> m.dom().contains(#[trigger] s[i].0) && s[i].1 == m[s[i].0],
        forall|k: (u64, u64)| #[trigger]
            m.dom().contains(k) ==> exists|i: int| 0 <= i < s.len() && #[trigger] s[i].0 == k,
    ensures
        s == sorted_edge_kvs(m),
    decreases s.len(),
{
    if s.len() == 0 {
        assert(m.dom() =~= Set::empty());
        assert(s =~= sorted_edge_kvs(m));
    } else {
        assert(m.dom().contains(s[0].0));
        assert(m.dom().len() > 0) by {
            if m.dom().len() == 0 {
                assert(m.dom() =~= Set::empty());
            }
        }
        lemma_min_edge_key_exists(m.dom());
        let k0 = min_edge_key(m.dom());
        assert(is_min_edge_key(m.dom(), s[0].0)) by {
            assert forall|j: (u64, u64)| m.dom().contains(j) && j != s[0].0 implies edge_key_lt(
                s[0].0,
                j,
            ) by {
                let i = choose|i: int| 0 <= i < s.len() && #[trigger] s[i].0 == j;
                assert(i != 0);
            }
        }
        assert(k0 == s[0].0) by {
            if k0 != s[0].0 {
                assert(edge_key_lt(k0, s[0].0));
                assert(edge_key_lt(s[0].0, k0));
            }
        }
        let s2 = s.skip(1);
        let m2 = m.remove(k0);
        assert forall|k: (u64, u64)| #[trigger]
            m2.dom().contains(k) implies exists|i: int|
            0 <= i < s2.len() && #[trigger] s2[i].0 == k by {
            let i = choose|i: int| 0 <= i < s.len() && #[trigger] s[i].0 == k;
            assert(i != 0);
            assert(s2[i - 1].0 == k);
        }
        assert(forall|i: int|
            0 <= i < s2.len() ==> m2.dom().contains(#[trigger] s2[i].0) && s2[i].1 == m2[s2[i].0]);
        lemma_edge_kvs_canonical(s2, m2);
        assert(s =~= seq![(k0, m[k0])] + sorted_edge_kvs(m2));
    }
}

} // verus!
