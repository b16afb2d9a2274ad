//! Incidence lists of an indexed triangle list: for each key (a vertex or an
//! edge), the triangles that carry it.
use vstd::prelude::*;
use std::collections::HashMap;
use crate::edges::{edge_of, make_edge};
use crate::island::{cell_key, key_of, lemma_cell_key_injective};

verus! {

broadcast use vstd::std_specs::hash::group_hash_axioms;

/// Vertex `j` (0, 1 or 2) of triangle `t`.
pub open spec fn corner(indices: Seq<u32>, t: int, j: int) -> u32 {
    indices[3 * t + j]
}

/// Triangle `t` uses vertex `v`.
pub open spec fn has_vertex(indices: Seq<u32>, t: int, v: u32) -> bool {
    corner(indices, t, 0) == v || corner(indices, t, 1) == v || corner(indices, t, 2) == v
}

/// Triangles `t1` and `t2` have a vertex in common.
pub open spec fn share_vertex(indices: Seq<u32>, t1: int, t2: int) -> bool {
    has_vertex(indices, t2, corner(indices, t1, 0)) || has_vertex(indices, t2, corner(indices, t1, 1))
        || has_vertex(indices, t2, corner(indices, t1, 2))
}

/// The vertex-to-triangles map holds exactly the first `f` triangles.
pub open spec fn vertex_lists_exact(
    indices: Seq<u32>,
    f: int,
    adj: Map<u32, Vec<usize>>,
) -> bool {
    &&& forall|v: u32, i: int|
        #![trigger adj[v]@[i]]
        adj.contains_key(v) && 0 <= i < adj[v]@.len() ==> 0 <= adj[v]@[i] < f && has_vertex(
            indices,
            adj[v]@[i] as int,
            v,
        )
    &&& forall|t: int, j: int|
        0 <= t < f && 0 <= j < 3 ==> adj.contains_key(#[trigger] corner(indices, t, j))
            && adj[corner(indices, t, j)]@.contains(t as usize)
}

pub(crate) fn push_vertex_entry(adj: &mut HashMap<u32, Vec<usize>>, v: u32, t: usize)
    ensures
        final(adj)@.contains_key(v),
        final(adj)@[v]@ == (if old(adj)@.contains_key(v) {
            old(adj)@[v]@
        } else {
            Seq::empty()
        }).push(t),
        forall|w: u32| w != v ==> (#[trigger] final(adj)@.contains_key(w) == old(adj)@.contains_key(w)),
        forall|w: u32| w != v && old(adj)@.contains_key(w) ==> #[trigger] final(adj)@[w] == old(adj)@[w],
{
    let mut list = match adj.remove(&v) {
        Some(l) => l,
        None => Vec::new(),
    };
    list.push(t);
    adj.insert(v, list);
}

/// For each vertex, the triangles (by number) that use it.
pub fn build_vertex_lists(indices: &Vec<u32>) -> (adj: HashMap<u32, Vec<usize>>)
    ensures
        vertex_lists_exact(indices@, (indices.len() / 3) as int, adj@),
{
    let f = indices.len() / 3;
    let mut adj: HashMap<u32, Vec<usize>> = HashMap::new();
    for t in 0..f
        invariant
            f == indices.len() / 3,
            vertex_lists_exact(indices@, t as int, adj@),
    {
        let ghost before = adj@;
        for j in 0..3
            invariant
                f == indices.len() / 3,
                t < f,
                forall|v: u32, i: int|
                    #![trigger adj@[v]@[i]]
                    adj@.contains_key(v) && 0 <= i < adj@[v]@.len() ==> 0 <= adj@[v]@[i] < t + 1
                        && has_vertex(indices@, adj@[v]@[i] as int, v),
                forall|t2: int, j2: int|
                    0 <= t2 < t && 0 <= j2 < 3 ==> adj@.contains_key(
                        #[trigger] corner(indices@, t2, j2),
                    ) && adj@[corner(indices@, t2, j2)]@.contains(t2 as usize),
                forall|j2: int|
                    0 <= j2 < j ==> adj@.contains_key(#[trigger] corner(indices@, t as int, j2))
                        && adj@[corner(indices@, t as int, j2)]@.contains(t),
        {
            let v = indices[3 * t + j];
            let ghost prev = adj@;
            push_vertex_entry(&mut adj, v, t);
            proof {
                assert forall|w: u32, i: int|
                    #![trigger adj@[w]@[i]]
                    adj@.contains_key(w) && 0 <= i < adj@[w]@.len() implies 0 <= adj@[w]@[i] < t
                        + 1 && has_vertex(indices@, adj@[w]@[i] as int, w) by {
                    if w == v {
                        if i == adj@[w]@.len() - 1 {
                            assert(corner(indices@, t as int, j as int) == v);
                        } else {
                            assert(adj@[w]@[i] == prev[w]@[i]);
                        }
                    }
                }
                assert forall|t2: int, j2: int|
                    0 <= t2 < t && 0 <= j2 < 3 implies adj@.contains_key(
                        #[trigger] corner(indices@, t2, j2),
                    ) && adj@[corner(indices@, t2, j2)]@.contains(t2 as usize) by {
                    let w = corner(indices@, t2, j2);
                    if w == v {
                        let i = choose|i: int| 0 <= i < prev[w]@.len() && prev[w]@[i] == t2 as usize;
                        assert(adj@[w]@[i] == t2 as usize);
                    }
                }
                assert forall|j2: int|
                    0 <= j2 < j + 1 implies adj@.contains_key(#[trigger] corner(indices@, t as int, j2))
                        && adj@[corner(indices@, t as int, j2)]@.contains(t) by {
                    let w = corner(indices@, t as int, j2);
                    if w == v {
                        assert(adj@[w]@[adj@[w]@.len() - 1] == t);
                    } else {
                        assert(j2 < j);
                    }
                }
            }
        }
    }
    adj
}

/// Side `j` of triangle `t`, from corner `j` to the next corner.
pub open spec fn side(indices: Seq<u32>, t: int, j: int) -> (u32, u32) {
    (corner(indices, t, j), corner(indices, t, (j + 1) % 3))
}

/// Triangle `t` has an undirected edge `e` among its sides.
pub open spec fn has_edge(indices: Seq<u32>, t: int, e: (u32, u32)) -> bool {
    edge_of(side(indices, t, 0).0, side(indices, t, 0).1) == e || edge_of(
        side(indices, t, 1).0,
        side(indices, t, 1).1,
    ) == e || edge_of(side(indices, t, 2).0, side(indices, t, 2).1) == e
}

/// The undirected edge of side `j` of triangle `t`.
pub open spec fn side_edge(indices: Seq<u32>, t: int, j: int) -> (u32, u32) {
    edge_of(side(indices, t, j).0, side(indices, t, j).1)
}

/// Triangles `t1` and `t2` have an undirected edge in common.
pub open spec fn share_edge(indices: Seq<u32>, t1: int, t2: int) -> bool {
    has_edge(indices, t2, side_edge(indices, t1, 0)) || has_edge(indices, t2, side_edge(indices, t1, 1))
        || has_edge(indices, t2, side_edge(indices, t1, 2))
}

/// The edge-to-triangles map holds exactly the first `f` triangles, keyed by edge key.
pub open spec fn edge_lists_exact(indices: Seq<u32>, f: int, adj: Map<u64, Vec<usize>>) -> bool {
    &&& forall|k: u64, i: int|
        #![trigger adj[k]@[i]]
        adj.contains_key(k) && 0 <= i < adj[k]@.len() ==> 0 <= adj[k]@[i] < f && exists|e: (u32, u32)|
            cell_key(e) == k && #[trigger] has_edge(indices, adj[k]@[i] as int, e)
    &&& forall|t: int, j: int|
        0 <= t < f && 0 <= j < 3 ==> adj.contains_key(#[trigger] cell_key(side_edge(indices, t, j)))
            && adj[cell_key(side_edge(indices, t, j))]@.contains(t as usize)
}

pub(crate) fn push_edge_entry(adj: &mut HashMap<u64, Vec<usize>>, k: u64, t: usize)
    ensures
        final(adj)@.contains_key(k),
        final(adj)@[k]@ == (if old(adj)@.contains_key(k) {
            old(adj)@[k]@
        } else {
            Seq::empty()
        }).push(t),
        forall|w: u64| w != k ==> (#[trigger] final(adj)@.contains_key(w) == old(adj)@.contains_key(w)),
        forall|w: u64| w != k && old(adj)@.contains_key(w) ==> #[trigger] final(adj)@[w] == old(adj)@[w],
{
    let mut list = match adj.remove(&k) {
        Some(l) => l,
        None => Vec::new(),
    };
    list.push(t);
    adj.insert(k, list);
}

/// Each list of the edge-to-triangles map is in increasing triangle order
/// (a triangle with the same edge on two sides is listed twice in a row).
pub open spec fn edge_lists_sorted(adj: Map<u64, Vec<usize>>) -> bool {
    forall|k: u64, i1: int, i2: int|
        #![trigger adj[k]@[i1], adj[k]@[i2]]
        adj.contains_key(k) && 0 <= i1 <= i2 < adj[k]@.len() ==> adj[k]@[i1] <= adj[k]@[i2]
}

/// For each undirected edge (by key), the triangles (by number) that have
/// it, in the order of the triangles.
pub fn build_edge_lists(indices: &Vec<u32>) -> (adj: HashMap<u64, Vec<usize>>)
    ensures
        edge_lists_exact(indices@, (indices.len() / 3) as int, adj@),
        edge_lists_sorted(adj@),
{
    let f = indices.len() / 3;
    let mut adj: HashMap<u64, Vec<usize>> = HashMap::new();
    for t in 0..f
        invariant
            f == indices.len() / 3,
            edge_lists_exact(indices@, t as int, adj@),
            edge_lists_sorted(adj@),
    {
        for j in 0..3
            invariant
                f == indices.len() / 3,
                t < f,
                edge_lists_sorted(adj@),
                forall|k: u64, i: int|
                    #![trigger adj@[k]@[i]]
                    adj@.contains_key(k) && 0 <= i < adj@[k]@.len() ==> 0 <= adj@[k]@[i] < t + 1
                        && exists|e: (u32, u32)|
                        cell_key(e) == k && #[trigger] has_edge(indices@, adj@[k]@[i] as int, e),
                forall|t2: int, j2: int|
                    0 <= t2 < t && 0 <= j2 < 3 ==> adj@.contains_key(
                        #[trigger] cell_key(side_edge(indices@, t2, j2)),
                    ) && adj@[cell_key(side_edge(indices@, t2, j2))]@.contains(t2 as usize),
                forall|j2: int|
                    0 <= j2 < j ==> adj@.contains_key(
                        #[trigger] cell_key(side_edge(indices@, t as int, j2)),
                    ) && adj@[cell_key(side_edge(indices@, t as int, j2))]@.contains(t),
        {
            let a = indices[3 * t + j];
            let b = indices[3 * t + (j + 1) % 3];
            let e = make_edge(a, b);
            let k = key_of(e);
            proof {
                assert(side(indices@, t as int, j as int) == (a, b));
                assert(e == side_edge(indices@, t as int, j as int));
            }
            let ghost prev = adj@;
            push_edge_entry(&mut adj, k, t);
            proof {
                assert forall|k2: u64, i1: int, i2: int|
                    #![trigger adj@[k2]@[i1], adj@[k2]@[i2]]
                    adj@.contains_key(k2) && 0 <= i1 <= i2 < adj@[k2]@.len() implies adj@[k2]@[i1]
                        <= adj@[k2]@[i2] by {
                    if k2 == k {
                        if i2 == adj@[k2]@.len() - 1 {
                            if i1 < i2 {
                                assert(adj@[k2]@[i1] == prev[k2]@[i1]);
                                assert(prev[k2]@[i1] < t + 1);
                            }
                        } else {
                            assert(adj@[k2]@[i1] == prev[k2]@[i1]);
                            assert(adj@[k2]@[i2] == prev[k2]@[i2]);
                        }
                    } else {
                        assert(adj@[k2] == prev[k2]);
                    }
                }
                assert forall|k2: u64, i: int|
                    #![trigger adj@[k2]@[i]]
                    adj@.contains_key(k2) && 0 <= i < adj@[k2]@.len() implies 0 <= adj@[k2]@[i] < t
                        + 1 && exists|e2: (u32, u32)|
                        cell_key(e2) == k2 && #[trigger] has_edge(indices@, adj@[k2]@[i] as int, e2) by {
                    if k2 == k && i == adj@[k2]@.len() - 1 {
                        assert(adj@[k2]@[i] == t);
                        assert(side_edge(indices@, t as int, j as int) == e);
                        assert(has_edge(indices@, t as int, e)) by {
                            if j == 0 {
                            } else if j == 1 {
                            } else {
                            }
                        }
                    } else {
                        assert(adj@[k2]@[i] == prev[k2]@[i]);
                        assert(prev.contains_key(k2) && 0 <= i < prev[k2]@.len());
                        let e2 = choose|e2: (u32, u32)|
                            cell_key(e2) == k2 && #[trigger] has_edge(indices@, prev[k2]@[i] as int, e2);
                        assert(has_edge(indices@, adj@[k2]@[i] as int, e2));
                    }
                }
                assert forall|t2: int, j2: int|
                    0 <= t2 < t && 0 <= j2 < 3 implies adj@.contains_key(
                        #[trigger] cell_key(side_edge(indices@, t2, j2)),
                    ) && adj@[cell_key(side_edge(indices@, t2, j2))]@.contains(t2 as usize) by {
                    let w = cell_key(side_edge(indices@, t2, j2));
                    if w == k {
                        let i = choose|i: int| 0 <= i < prev[w]@.len() && prev[w]@[i] == t2 as usize;
                        assert(adj@[w]@[i] == t2 as usize);
                    }
                }
                assert forall|j2: int|
                    0 <= j2 < j + 1 implies adj@.contains_key(
                        #[trigger] cell_key(side_edge(indices@, t as int, j2)),
                    ) && adj@[cell_key(side_edge(indices@, t as int, j2))]@.contains(t) by {
                    let w = cell_key(side_edge(indices@, t as int, j2));
                    if w == k {
                        assert(adj@[w]@[adj@[w]@.len() - 1] == t);
                    } else {
                        assert(j2 < j);
                    }
                }
            }
        }
    }
    adj
}

} // verus!
