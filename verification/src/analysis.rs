//! Topological analysis of an indexed triangle mesh.
use vstd::prelude::*;
use crate::edges::{edge_set, boundary_edge_set, build_edge_table, boundary_of_table};
use crate::adjacency::{share_vertex, has_vertex, corner, vertex_lists_exact, build_vertex_lists};
use std::collections::HashMap;

verus! {

/// Integer division by two rounding toward zero, as 32-bit signed division does.
pub open spec fn half_toward_zero(x: int) -> int {
    if x >= 0 {
        x / 2
    } else {
        -((-x) / 2)
    }
}

/// The genus that the Euler characteristic `euler` gives a closed surface: `(2 - euler) / 2`.
pub open spec fn genus_from_euler(euler: int) -> int {
    half_toward_zero(2 - euler)
}

/// The genus given by the Euler characteristic meets the Euler relation of a
/// closed surface, `V - E + F == 2 - 2 * g` (exactly when `V - E + F` is even).
/// For an odd `V - E + F`, `2 * g` is `2 - (V - E + F)` rounded by one toward
/// zero, so `g` is never negative when `V - E + F <= 2` and never positive
/// when `V - E + F >= 2`.
pub proof fn lemma_genus_meets_euler(euler: int)
    ensures
        euler % 2 == 0 ==> euler == 2 - 2 * genus_from_euler(euler),
        euler % 2 != 0 && euler < 2 ==> 2 * genus_from_euler(euler) == 1 - euler,
        euler % 2 != 0 && euler > 2 ==> 2 * genus_from_euler(euler) == 3 - euler,
        euler <= 2 ==> genus_from_euler(euler) >= 0,
        euler >= 2 ==> genus_from_euler(euler) <= 0,
{
}

/// The topological facts about a mesh that need no vertex positions.
pub struct MeshTopology {
    pub face_count: usize,
    pub edge_count: usize,
    pub boundary_edges: u32,
    pub genus: i32,
    pub is_watertight: bool,
}

/// Counts faces, distinct edges and boundary edges of an indexed mesh, and,
/// when it is watertight, its genus from the Euler characteristic `V - E + F`.
pub fn mesh_topology(vertex_count: usize, indices: &Vec<u32>) -> (r: MeshTopology)
    requires
        indices.len() % 3 == 0,
        vertex_count + indices.len() <= i32::MAX,
    ensures
        r.face_count == indices.len() / 3,
        r.edge_count == edge_set(indices@).len(),
        r.boundary_edges == boundary_edge_set(indices@).len() as u32,
        r.is_watertight == (r.boundary_edges == 0),
        r.genus == (if r.is_watertight {
            genus_from_euler(vertex_count - edge_set(indices@).len() + indices.len() / 3)
        } else {
            0
        }),
        !r.is_watertight ==> r.genus == 0,
        r.is_watertight && (vertex_count - r.edge_count + r.face_count) % 2 == 0 ==> vertex_count
            - r.edge_count + r.face_count == 2 - 2 * r.genus,
        r.is_watertight && (vertex_count - r.edge_count + r.face_count) % 2 != 0 && vertex_count
            - r.edge_count + r.face_count < 2 ==> 2 * r.genus == 1 - (vertex_count - r.edge_count
            + r.face_count),
        r.is_watertight && (vertex_count - r.edge_count + r.face_count) % 2 != 0 && vertex_count
            - r.edge_count + r.face_count > 2 ==> 2 * r.genus == 3 - (vertex_count - r.edge_count
            + r.face_count),
        r.is_watertight && vertex_count - r.edge_count + r.face_count <= 2 ==> r.genus >= 0,
{
    let face_count = indices.len() / 3;
    let table = build_edge_table(indices);
    let boundary = boundary_of_table(&table, Ghost(indices@));
    proof {
        table.edges@.unique_seq_to_set();
        boundary@.unique_seq_to_set();
    }
    let edge_count = table.edges.len();
    let boundary_edges = boundary.len() as u32;
    let is_watertight = boundary_edges == 0;
    proof {
        assert(edge_count <= indices.len()) by {
            assert(edge_set(indices@).len() <= crate::edges::mesh_edges(indices@).len()) by {
                crate::edges::mesh_edges(indices@).lemma_cardinality_of_set();
            }
            crate::edges::lemma_mesh_edges_len(indices@);
        }
    }
    let genus: i32 = if is_watertight {
        let euler: i64 = vertex_count as i64 - edge_count as i64 + face_count as i64;
        let num: i64 = 2 - euler;
        let g: i64 = if num >= 0 {
            num / 2
        } else {
            -((-num) / 2)
        };
        assert(g == genus_from_euler(vertex_count - edge_set(indices@).len() + indices.len() / 3));
        assert(-0x4000_0000 <= g <= 0x4000_0000);
        g as i32
    } else {
        0
    };
    proof {
        lemma_genus_meets_euler(vertex_count - edge_set(indices@).len() + indices.len() / 3);
    }
    MeshTopology { face_count, edge_count, boundary_edges, genus, is_watertight }
}

broadcast use vstd::std_specs::hash::group_hash_axioms;

/// `cid` numbers the connected components of the `f` triangles `0..count`, and
/// `rank` orders the triangles so that every triangle but the first of its
/// component shares a vertex with an earlier one of the same component.
/// Triangles sharing a vertex always have the same number.
pub open spec fn is_component_labelling(
    indices: Seq<u32>,
    f: int,
    count: int,
    cid: Seq<int>,
    rank: Seq<int>,
) -> bool {
    &&& cid.len() == f
    &&& rank.len() == f
    &&& forall|t: int| 0 <= t < f ==> 0 <= #[trigger] cid[t] < count
    &&& forall|c: int| 0 <= c < count ==> #[trigger] label_used(cid, f, c)
    &&& forall|t1: int, t2: int|
        0 <= t1 < f && 0 <= t2 < f && #[trigger] share_vertex(indices, t1, t2) ==> cid[t1] == cid[t2]
    &&& forall|t1: int, t2: int|
        0 <= t1 < f && 0 <= t2 < f && t1 != t2 ==> #[trigger] rank[t1] != #[trigger] rank[t2]
    &&& forall|t: int|
        #![trigger rank[t]]
        0 <= t < f && (exists|t2: int| 0 <= t2 < f && cid[t2] == cid[t] && #[trigger] rank[t2] < rank[t])
            ==> exists|t2: int|
            0 <= t2 < f && cid[t2] == cid[t] && rank[t2] < rank[t] && #[trigger] share_vertex(
                indices,
                t2,
                t,
            )
}

/// Some triangle among the first `f` carries label `c`.
pub open spec fn label_used(cid: Seq<int>, f: int, c: int) -> bool {
    exists|t: int| 0 <= t < f && #[trigger] cid[t] == c
}

proof fn lemma_share_symmetric(indices: Seq<u32>, t1: int, t2: int)
    ensures
        share_vertex(indices, t1, t2) == share_vertex(indices, t2, t1),
{
}

/// The bookkeeping of the component search: `visited`, the visiting order,
/// the labels and ranks given so far, and the first triangle of each label.
#[verifier::opaque]
pub open spec fn search_ok(
    indices: Seq<u32>,
    f: int,
    visited: Seq<bool>,
    order: Seq<usize>,
    cid: Seq<int>,
    rank: Seq<int>,
    first: Seq<int>,
    count: int,
) -> bool {
    &&& visited.len() == f
    &&& cid.len() == f
    &&& rank.len() == f
    &&& first.len() == count
    &&& order.len() <= f
    &&& forall|t: int|
        0 <= t < f ==> (#[trigger] visited[t] <==> cid[t] >= 0) && (visited[t] ==> 0 <= cid[t]
            < count && 0 <= rank[t] < order.len() && order[rank[t]] == t)
    &&& forall|p: int|
        0 <= p < order.len() ==> #[trigger] order[p] < f && rank[order[p] as int] == p
            && visited[order[p] as int]
    &&& forall|c: int|
        0 <= c < count ==> 0 <= #[trigger] first[c] < f && visited[first[c]] && cid[first[c]] == c
    &&& forall|t: int| 0 <= t < f && visited[t] ==> rank[first[cid[t]]] <= #[trigger] rank[t]
    &&& forall|t: int|
        0 <= t < f && #[trigger] visited[t] && t != first[cid[t]] ==> exists|t2: int|
            0 <= t2 < f && visited[t2] && cid[t2] == cid[t] && rank[t2] < rank[t] && share_vertex(
                indices,
                t2,
                t,
            )
}

/// Every neighbour of a triangle ranked before `head` is visited, with its label.
pub open spec fn search_closed(
    indices: Seq<u32>,
    f: int,
    visited: Seq<bool>,
    cid: Seq<int>,
    rank: Seq<int>,
    head: int,
) -> bool {
    forall|t1: int, t2: int|
        0 <= t1 < f && 0 <= t2 < f && visited[t1] && rank[t1] < head && #[trigger] share_vertex(
            indices,
            t1,
            t2,
        ) ==> visited[t2] && cid[t2] == cid[t1]
}

proof fn lemma_search_facts(
    indices: Seq<u32>,
    f: int,
    visited: Seq<bool>,
    order: Seq<usize>,
    cid: Seq<int>,
    rank: Seq<int>,
    first: Seq<int>,
    count: int,
    x: usize,
)
    requires
        search_ok(indices, f, visited, order, cid, rank, first, count),
        0 <= x < f,
        !visited[x as int],
    ensures
        order.len() < f,
        cid[x as int] < 0,
        forall|p: int| 0 <= p < order.len() ==> order[p] != x,
{
    reveal(search_ok);
    assert forall|p: int| 0 <= p < order.len() implies #[trigger] order[p] != x by {
        assert(visited[order[p] as int]);
    }
    assert(order.no_duplicates()) by {
        assert forall|p1: int, p2: int|
            0 <= p1 < order.len() && 0 <= p2 < order.len() && p1 != p2 implies order[p1]
            != order[p2] by {
            assert(rank[order[p1] as int] == p1);
            assert(rank[order[p2] as int] == p2);
        }
    }
    let full = order.push(x);
    assert(full.no_duplicates()) by {
        assert forall|p1: int, p2: int|
            0 <= p1 < full.len() && 0 <= p2 < full.len() && p1 != p2 implies full[p1] != full[p2] by {
            if p1 < order.len() && p2 < order.len() {
                assert(full[p1] == order[p1] && full[p2] == order[p2]);
            } else if p1 < order.len() {
                assert(full[p1] == order[p1]);
                assert(order[p1] != x);
                assert(full[p2] == x);
            } else {
                assert(full[p2] == order[p2]);
                assert(order[p2] != x);
                assert(full[p1] == x);
            }
        }
    }
    let all = Seq::new(f as nat, |t: int| t as usize);
    assert forall|p: int| 0 <= p < full.len() implies all.contains(#[trigger] full[p]) by {
        if p < order.len() {
            assert(order[p] < f);
        }
        assert(all[full[p] as int] == full[p]);
    }
    lemma_distinct_usize_within(full, all);
}

/// Visits triangle `x` under the current label: either as the first triangle of
/// a new label (`parent < 0`) or as a neighbour of the visited triangle `parent`.
fn visit(
    visited: &mut Vec<bool>,
    order: &mut Vec<usize>,
    x: usize,
    Ghost(indices): Ghost<Seq<u32>>,
    Ghost(cid): Ghost<Seq<int>>,
    Ghost(rank): Ghost<Seq<int>>,
    Ghost(first): Ghost<Seq<int>>,
    Ghost(count): Ghost<int>,
    Ghost(parent): Ghost<int>,
) -> (r: (Ghost<Seq<int>>, Ghost<Seq<int>>, Ghost<Seq<int>>))
    requires
        search_ok(indices, old(visited).len() as int, old(visited)@, old(order)@, cid, rank, first, count),
        x < old(visited).len(),
        !old(visited)@[x as int],
        parent < 0 ==> count >= 0,
        parent >= 0 ==> {
            &&& parent < old(visited).len()
            &&& count >= 1
            &&& old(visited)@[parent]
            &&& cid[parent] == count - 1
            &&& share_vertex(indices, parent, x as int)
        },
    ensures
        final(visited).len() == old(visited).len(),
        final(visited)@ == old(visited)@.update(x as int, true),
        final(order)@ == old(order)@.push(x),
        r.0@ == cid.update(x as int, if parent < 0 { count } else { count - 1 }),
        r.1@ == rank.update(x as int, old(order).len() as int),
        r.2@ == (if parent < 0 { first.push(x as int) } else { first }),
        search_ok(
            indices,
            old(visited).len() as int,
            final(visited)@,
            final(order)@,
            r.0@,
            r.1@,
            r.2@,
            if parent < 0 { count + 1 } else { count },
        ),
{
    let ghost f = visited.len() as int;
    proof {
        lemma_search_facts(indices, f, visited@, order@, cid, rank, first, count, x);
    }
    let ghost p = order.len() as int;
    visited.set(x, true);
    order.push(x);
    let ghost label = if parent < 0 { count } else { count - 1 };
    let ghost cid2 = cid.update(x as int, label);
    let ghost rank2 = rank.update(x as int, p);
    let ghost first2 = if parent < 0 { first.push(x as int) } else { first };
    let ghost count2 = if parent < 0 { count + 1 } else { count };
    proof {
        reveal(search_ok);
        let v = visited@;
        let o = order@;
        assert forall|t: int| 0 <= t < f implies (#[trigger] v[t] <==> cid2[t] >= 0) && (v[t] ==> 0
            <= cid2[t] < count2 && 0 <= rank2[t] < o.len() && o[rank2[t]] == t) by {
            if t != x {
                if v[t] {
                    assert(o[rank2[t]] == old(order)@[rank[t]]);
                }
            }
        }
        assert forall|q: int| 0 <= q < o.len() implies #[trigger] o[q] < f && rank2[o[q] as int] == q
            && v[o[q] as int] by {
            if q < p {
                assert(o[q] == old(order)@[q]);
                assert(old(order)@[q] != x);
            }
        }
        assert forall|c: int| 0 <= c < count2 implies 0 <= #[trigger] first2[c] < f && v[first2[c]]
            && cid2[first2[c]] == c by {
            if c < count {
                assert(first2[c] == first[c]);
                assert(old(visited)@[first[c]]);
            }
        }
        assert forall|t: int| 0 <= t < f && v[t] implies rank2[first2[cid2[t]]] <= #[trigger] rank2[t] by {
            if t != x {
                assert(old(visited)@[t]);
                assert(first2[cid2[t]] == first[cid[t]]);
                assert(old(visited)@[first[cid[t]]]);
            } else if parent >= 0 {
                assert(old(visited)@[first[count - 1]]);
                assert(rank[first[count - 1]] < p);
            }
        }
        assert forall|t: int| 0 <= t < f && #[trigger] v[t] && t != first2[cid2[t]] implies exists|t2: int|
            0 <= t2 < f && v[t2] && cid2[t2] == cid2[t] && rank2[t2] < rank2[t] && share_vertex(
                indices,
                t2,
                t,
            ) by {
            if t == x {
                assert(parent >= 0);
                assert(rank[parent] < p);
                assert(cid2[parent] == cid2[t]);
                assert(v[parent]);
            } else {
                assert(old(visited)@[t]);
                assert(first2[cid2[t]] == first[cid[t]]);
                let t2 = choose|t2: int|
                    0 <= t2 < f && old(visited)@[t2] && cid[t2] == cid[t] && rank[t2] < rank[t]
                        && share_vertex(indices, t2, t);
                assert(t2 != x);
                assert(v[t2] && cid2[t2] == cid2[t] && rank2[t2] < rank2[t]);
            }
        }
    }
    (Ghost(cid2), Ghost(rank2), Ghost(first2))
}

proof fn lemma_distinct_usize_within(s: Seq<usize>, t: Seq<usize>)
    requires
        s.no_duplicates(),
        forall|j: int| 0 <= j < s.len() ==> t.contains(#[trigger] s[j]),
    ensures
        s.len() <= t.len(),
{
    s.unique_seq_to_set();
    t.lemma_cardinality_of_set();
    vstd::seq_lib::seq_to_set_is_finite(t);
    assert(s.to_set().subset_of(t.to_set()));
    vstd::set_lib::lemma_len_subset(s.to_set(), t.to_set());
}

/// The search state `1` extends the search state `0`: nothing visited is
/// forgotten or relabelled, and newly visited triangles come after the old
/// order under label `label`.
pub open spec fn search_grows(
    f: int,
    v0: Seq<bool>,
    cid0: Seq<int>,
    rank0: Seq<int>,
    o0: Seq<usize>,
    v1: Seq<bool>,
    cid1: Seq<int>,
    rank1: Seq<int>,
    o1: Seq<usize>,
    label: int,
) -> bool {
    &&& o0.len() <= o1.len()
    &&& forall|p: int| 0 <= p < o0.len() ==> #[trigger] o1[p] == o0[p]
    &&& forall|t: int|
        0 <= t < f && #[trigger] v0[t] ==> v1[t] && cid1[t] == cid0[t] && rank1[t] == rank0[t]
    &&& forall|t: int|
        0 <= t < f && #[trigger] v1[t] && !v0[t] ==> rank1[t] >= o0.len() && cid1[t] == label
}

/// Visits, under the current label, every unvisited triangle of `list`; each
/// of them shares vertex `v` with the visited triangle `cur`.
#[verifier::loop_isolation(false)]
fn visit_list(
    visited: &mut Vec<bool>,
    order: &mut Vec<usize>,
    list: &Vec<usize>,
    cur: usize,
    v: u32,
    Ghost(indices): Ghost<Seq<u32>>,
    Ghost(cid): Ghost<Seq<int>>,
    Ghost(rank): Ghost<Seq<int>>,
    Ghost(first): Ghost<Seq<int>>,
    Ghost(count): Ghost<int>,
    Ghost(head): Ghost<int>,
) -> (r: (Ghost<Seq<int>>, Ghost<Seq<int>>))
    requires
        search_ok(indices, old(visited).len() as int, old(visited)@, old(order)@, cid, rank, first, count),
        search_closed(indices, old(visited).len() as int, old(visited)@, cid, rank, head),
        forall|t: int|
            0 <= t < old(visited).len() && #[trigger] old(visited)@[t] && rank[t] >= head ==> cid[t]
                == count - 1,
        count >= 1,
        cid.len() == old(visited).len(),
        rank.len() == old(visited).len(),
        cur < old(visited).len(),
        old(visited)@[cur as int],
        cid[cur as int] == count - 1,
        has_vertex(indices, cur as int, v),
        forall|i: int|
            0 <= i < list.len() ==> #[trigger] list@[i] < old(visited).len() && has_vertex(
                indices,
                list@[i] as int,
                v,
            ),
    ensures
        search_ok(indices, old(visited).len() as int, final(visited)@, final(order)@, r.0@, r.1@, first, count),
        search_grows(
            old(visited).len() as int,
            old(visited)@,
            cid,
            rank,
            old(order)@,
            final(visited)@,
            r.0@,
            r.1@,
            final(order)@,
            count - 1,
        ),
        forall|i: int|
            0 <= i < list.len() ==> final(visited)@[#[trigger] list@[i] as int] && r.0@[list@[i] as int]
                == count - 1,
{
    let ghost f = visited.len() as int;
    let ghost v0 = visited@;
    let ghost o0 = order@;
    let ghost mut cid1 = cid;
    let ghost mut rank1 = rank;
    let m = list.len();
    for i in 0..m
        invariant
            m == list.len(),
            visited.len() == f,
            cur < f,
            count >= 1,
            search_ok(indices, f, visited@, order@, cid1, rank1, first, count),
            cid1.len() == f,
            rank1.len() == f,
            visited@[cur as int],
            cid1[cur as int] == count - 1,
            search_grows(f, v0, cid, rank, o0, visited@, cid1, rank1, order@, count - 1),
            forall|i2: int|
                0 <= i2 < i ==> visited@[#[trigger] list@[i2] as int] && cid1[list@[i2] as int] == count
                    - 1,
    {
        let nb = list[i];
        if !visited[nb] {
            proof {
                assert(share_vertex(indices, cur as int, nb as int));
            }
            let ghost vb = visited@;
            let ghost ob = order@;
            let ghost cb = cid1;
            let ghost rb = rank1;
            assert(search_grows(f, v0, cid, rank, o0, vb, cb, rb, ob, count - 1));
            assert(forall|i2: int| 0 <= i2 < i ==> vb[#[trigger] list@[i2] as int] && cb[list@[i2] as int] == count - 1);
            let (Ghost(c2), Ghost(r2), Ghost(f2)) = visit(
                visited,
                order,
                nb,
                Ghost(indices),
                Ghost(cid1),
                Ghost(rank1),
                Ghost(first),
                Ghost(count),
                Ghost(cur as int),
            );
            proof {
                cid1 = c2;
                rank1 = r2;
                assert(search_grows(f, v0, cid, rank, o0, visited@, cid1, rank1, order@, count - 1)) by {
                    assert forall|p: int| 0 <= p < o0.len() implies #[trigger] order@[p] == o0[p] by {
                        assert(ob[p] == o0[p]);
                    }
                    assert forall|t: int| 0 <= t < f && #[trigger] v0[t] implies visited@[t] && cid1[t]
                        == cid[t] && rank1[t] == rank[t] by {
                        assert(vb[t]);
                        assert(t != nb);
                        assert(cb[t] == cid[t] && rb[t] == rank[t]);
                    }
                    assert forall|t: int| 0 <= t < f && #[trigger] visited@[t] && !v0[t] implies rank1[t]
                        >= o0.len() && cid1[t] == count - 1 by {
                        if t != nb {
                            assert(vb[t]);
                            assert(rb[t] >= o0.len() && cb[t] == count - 1);
                        } else {
                            assert(ob.len() >= o0.len());
                        }
                    }
                }
                assert forall|i2: int| 0 <= i2 < i + 1 implies visited@[#[trigger] list@[i2] as int]
                    && cid1[list@[i2] as int] == count - 1 by {
                    if list@[i2] != nb {
                        if i2 < i {
                            assert(vb[list@[i2] as int]);
                        }
                    }
                }
            }
        } else {
            proof {
                if v0[nb as int] {
                    assert(cid1[nb as int] == cid[nb as int]);
                    if rank[nb as int] < head {
                        lemma_share_symmetric(indices, cur as int, nb as int);
                        assert(share_vertex(indices, nb as int, cur as int));
                        assert(v0[cur as int]);
                    }
                }
            }
        }
    }
    (Ghost(cid1), Ghost(rank1))
}

proof fn lemma_grows_keeps_closed(
    indices: Seq<u32>,
    f: int,
    v0: Seq<bool>,
    c0: Seq<int>,
    r0: Seq<int>,
    o0: Seq<usize>,
    v1: Seq<bool>,
    c1: Seq<int>,
    r1: Seq<int>,
    o1: Seq<usize>,
    head: int,
    label: int,
)
    requires
        search_closed(indices, f, v0, c0, r0, head),
        head <= o0.len(),
        forall|t: int| 0 <= t < f && #[trigger] v0[t] && r0[t] >= head ==> c0[t] == label,
        search_grows(f, v0, c0, r0, o0, v1, c1, r1, o1, label),
    ensures
        search_closed(indices, f, v1, c1, r1, head),
        forall|t: int| 0 <= t < f && #[trigger] v1[t] && r1[t] >= head ==> c1[t] == label,
{
    assert forall|t1: int, t2: int|
        0 <= t1 < f && 0 <= t2 < f && v1[t1] && r1[t1] < head && #[trigger] share_vertex(
            indices,
            t1,
            t2,
        ) implies v1[t2] && c1[t2] == c1[t1] by {
        if !v0[t1] {
            assert(r1[t1] >= o0.len());
        }
        assert(v0[t1]);
        assert(v0[t2]);
    }
    assert forall|t: int| 0 <= t < f && #[trigger] v1[t] && r1[t] >= head implies c1[t] == label by {
        if v0[t] {
            assert(r0[t] == r1[t]);
        }
    }
}

proof fn lemma_grows_trans(
    f: int,
    v0: Seq<bool>,
    c0: Seq<int>,
    r0: Seq<int>,
    o0: Seq<usize>,
    v1: Seq<bool>,
    c1: Seq<int>,
    r1: Seq<int>,
    o1: Seq<usize>,
    v2: Seq<bool>,
    c2: Seq<int>,
    r2: Seq<int>,
    o2: Seq<usize>,
    label: int,
)
    requires
        search_grows(f, v0, c0, r0, o0, v1, c1, r1, o1, label),
        search_grows(f, v1, c1, r1, o1, v2, c2, r2, o2, label),
    ensures
        search_grows(f, v0, c0, r0, o0, v2, c2, r2, o2, label),
{
    assert forall|p: int| 0 <= p < o0.len() implies #[trigger] o2[p] == o0[p] by {
        assert(o1[p] == o0[p]);
    }
    assert forall|t: int| 0 <= t < f && #[trigger] v0[t] implies v2[t] && c2[t] == c0[t] && r2[t]
        == r0[t] by {
        assert(v1[t]);
    }
    assert forall|t: int| 0 <= t < f && #[trigger] v2[t] && !v0[t] implies r2[t] >= o0.len() && c2[t]
        == label by {
        if v1[t] {
        }
    }
}

/// Visits every unvisited triangle that shares a vertex with the visited triangle `cur`.
#[verifier::loop_isolation(false)]
fn visit_neighbors(
    visited: &mut Vec<bool>,
    order: &mut Vec<usize>,
    adj: &HashMap<u32, Vec<usize>>,
    indices: &Vec<u32>,
    cur: usize,
    Ghost(cid): Ghost<Seq<int>>,
    Ghost(rank): Ghost<Seq<int>>,
    Ghost(first): Ghost<Seq<int>>,
    Ghost(count): Ghost<int>,
    Ghost(head): Ghost<int>,
) -> (r: (Ghost<Seq<int>>, Ghost<Seq<int>>))
    requires
        old(visited).len() == indices.len() / 3,
        vertex_lists_exact(indices@, (indices.len() / 3) as int, adj@),
        search_ok(indices@, old(visited).len() as int, old(visited)@, old(order)@, cid, rank, first, count),
        search_closed(indices@, old(visited).len() as int, old(visited)@, cid, rank, head),
        head <= old(order).len(),
        forall|t: int|
            0 <= t < old(visited).len() && #[trigger] old(visited)@[t] && rank[t] >= head ==> cid[t]
                == count - 1,
        count >= 1,
        cid.len() == old(visited).len(),
        rank.len() == old(visited).len(),
        cur < old(visited).len(),
        old(visited)@[cur as int],
        cid[cur as int] == count - 1,
    ensures
        final(visited).len() == old(visited).len(),
        r.0@.len() == old(visited).len(),
        r.1@.len() == old(visited).len(),
        search_ok(indices@, old(visited).len() as int, final(visited)@, final(order)@, r.0@, r.1@, first, count),
        search_grows(
            old(visited).len() as int,
            old(visited)@,
            cid,
            rank,
            old(order)@,
            final(visited)@,
            r.0@,
            r.1@,
            final(order)@,
            count - 1,
        ),
        forall|t2: int|
            0 <= t2 < old(visited).len() && #[trigger] share_vertex(indices@, cur as int, t2)
                ==> final(visited)@[t2] && r.0@[t2] == count - 1,
{
    let ghost f = visited.len() as int;
    let ghost v0 = visited@;
    let ghost o0 = order@;
    let ghost mut cid1 = cid;
    let ghost mut rank1 = rank;
    proof {
        assert(search_grows(f, v0, cid, rank, o0, v0, cid, rank, o0, count - 1));
    }
    for j in 0..3
        invariant
            visited.len() == f,
            f == indices.len() / 3,
            cid1.len() == f,
            rank1.len() == f,
            search_ok(indices@, f, visited@, order@, cid1, rank1, first, count),
            search_grows(f, v0, cid, rank, o0, visited@, cid1, rank1, order@, count - 1),
            visited@[cur as int],
            cid1[cur as int] == count - 1,
            forall|t2: int, j2: int|
                0 <= t2 < f && 0 <= j2 < j && #[trigger] has_vertex(
                    indices@,
                    t2,
                    corner(indices@, cur as int, j2),
                ) ==> visited@[t2] && cid1[t2] == count - 1,
    {
        let v = indices[3 * cur + j];
        proof {
            assert(corner(indices@, cur as int, j as int) == v);
            assert(adj@.contains_key(v));
        }
        let list = adj.get(&v).unwrap();
        let ghost vb = visited@;
        let ghost ob = order@;
        let ghost cb = cid1;
        let ghost rb = rank1;
        proof {
            lemma_grows_keeps_closed(indices@, f, v0, cid, rank, o0, vb, cb, rb, ob, head, count - 1);
            reveal(search_ok);
            assert forall|i: int| 0 <= i < list.len() implies #[trigger] list@[i] < visited.len()
                && has_vertex(indices@, list@[i] as int, v) by {
                assert(0 <= adj@[v]@[i] < f);
            }
        }
        let (Ghost(c2), Ghost(r2)) = visit_list(
            visited,
            order,
            list,
            cur,
            v,
            Ghost(indices@),
            Ghost(cid1),
            Ghost(rank1),
            Ghost(first),
            Ghost(count),
            Ghost(head),
        );
        proof {
            lemma_grows_trans(f, v0, cid, rank, o0, vb, cb, rb, ob, visited@, c2, r2, order@, count - 1);
            cid1 = c2;
            rank1 = r2;
            reveal(search_ok);
            assert forall|t2: int, j2: int|
                0 <= t2 < f && 0 <= j2 < j + 1 && #[trigger] has_vertex(
                    indices@,
                    t2,
                    corner(indices@, cur as int, j2),
                ) implies visited@[t2] && cid1[t2] == count - 1 by {
                if j2 == j {
                    assert(adj@[v]@.contains(t2 as usize)) by {
                        let jj = choose|jj: int| 0 <= jj < 3 && corner(indices@, t2, jj) == v;
                        assert(corner(indices@, t2, jj) == v);
                    }
                    let i2 = choose|i2: int| 0 <= i2 < list.len() && list@[i2] == t2 as usize;
                    assert(visited@[list@[i2] as int]);
                } else {
                    assert(vb[t2] && cb[t2] == count - 1);
                }
            }
        }
    }
    proof {
        assert forall|t2: int|
            0 <= t2 < f && #[trigger] share_vertex(indices@, cur as int, t2) implies visited@[t2]
                && cid1[t2] == count - 1 by {
            if has_vertex(indices@, t2, corner(indices@, cur as int, 0)) {
            } else if has_vertex(indices@, t2, corner(indices@, cur as int, 1)) {
            } else {
            }
        }
    }
    (Ghost(cid1), Ghost(rank1))
}

/// The connected components of a triangle list, two triangles being
/// connected when a chain of triangles, each sharing a vertex with the next,
/// joins them: each component lists its triangles in the order of a breadth
/// first search from its smallest triangle, and the components come in the
/// order of their smallest triangles. Indices after the last complete
/// triangle take no part.
#[verifier::loop_isolation(false)]
pub fn surface_components(indices: &Vec<u32>) -> (comps: Vec<Vec<u32>>)
    requires
        indices.len() / 3 <= u32::MAX,
        forall|p: int, q: int|
            3 * (indices.len() / 3) <= p < indices.len() && 0 <= q < 3 * (indices.len() / 3)
                ==> #[trigger] indices@[p] != #[trigger] indices@[q],
    ensures
        exists|cid: Seq<int>, rank: Seq<int>|
            #[trigger] is_component_labelling(
                indices@,
                (indices.len() / 3) as int,
                comps.len() as int,
                cid,
                rank,
            ) && components_listed(comps@, (indices.len() / 3) as int, cid, rank),
        comps.len() <= indices.len() / 3,
{
    let f = indices.len() / 3;
    let adj = build_vertex_lists(indices);
    let mut visited: Vec<bool> = Vec::new();
    for q in 0..f
        invariant
            visited.len() == q,
            forall|j: int| 0 <= j < q ==> !visited@[j],
    {
        visited.push(false);
    }
    let ghost mut cid: Seq<int> = Seq::new(f as nat, |t: int| -1int);
    let ghost mut rank: Seq<int> = Seq::new(f as nat, |t: int| -1int);
    let ghost mut first: Seq<int> = Seq::empty();
    let mut order: Vec<usize> = Vec::new();
    let mut bounds: Vec<usize> = Vec::new();
    let mut count: u32 = 0;
    let mut head: usize = 0;
    proof {
        reveal(search_ok);
    }
    for start in 0..f
        invariant
            visited.len() == f,
            cid.len() == f,
            rank.len() == f,
            count <= start,
            head == order.len(),
            search_ok(indices@, f as int, visited@, order@, cid, rank, first, count as int),
            search_closed(indices@, f as int, visited@, cid, rank, head as int),
            forall|t: int| 0 <= t < start ==> #[trigger] visited@[t],
            blocks_ok(bounds@, order.len() as int, f as int, visited@, cid, rank, count as int),
    {
        if !visited[start] {
            let ghost v0 = visited@;
            let ghost o0 = order@;
            let ghost c0 = cid;
            let ghost r0 = rank;
            let olen0 = order.len();
            let (Ghost(c1), Ghost(r1), Ghost(f1)) = visit(
                &mut visited,
                &mut order,
                start,
                Ghost(indices@),
                Ghost(cid),
                Ghost(rank),
                Ghost(first),
                Ghost(count as int),
                Ghost(-1int),
            );
            proof {
                reveal(search_ok);
                lemma_block_start(bounds@, o0.len() as int, f as int, v0, cid, rank, count as int, start as int);
            }
            bounds.push(olen0);
            proof {
                cid = c1;
                rank = r1;
                first = f1;
                reveal(search_ok);
                assert(search_grows(f as int, v0, c0, r0, o0, visited@, cid, rank, order@, count as int));
                assert forall|t: int| 0 <= t < f && #[trigger] v0[t] && r0[t] >= head implies c0[t] == count as int by {
                    assert(r0[t] < o0.len());
                }
                lemma_grows_keeps_closed(indices@, f as int, v0, c0, r0, o0, visited@, cid, rank, order@, head as int, count as int);
            }
            count = count + 1;
            while head < order.len()
                invariant
                    visited.len() == f,
                    cid.len() == f,
                    rank.len() == f,
                    count >= 1,
                    count <= start + 1,
                    head <= order.len(),
                    search_ok(indices@, f as int, visited@, order@, cid, rank, first, count as int),
                    search_closed(indices@, f as int, visited@, cid, rank, head as int),
                    forall|t: int|
                        0 <= t < f && #[trigger] visited@[t] && rank[t] >= head ==> cid[t] == count - 1,
                    forall|t: int| 0 <= t < start + 1 ==> #[trigger] visited@[t],
                    blocks_ok(bounds@, order.len() as int, f as int, visited@, cid, rank, count as int),
                decreases f - head,
            {
                let cur = order[head];
                let ghost v0 = visited@;
                let ghost o0 = order@;
                let ghost c0 = cid;
                let ghost r0 = rank;
                proof {
                    reveal(search_ok);
                    assert(order@[head as int] < f);
                    assert(rank[cur as int] == head);
                    assert(visited@[cur as int]);
                }
                let (Ghost(c1), Ghost(r1)) = visit_neighbors(
                    &mut visited,
                    &mut order,
                    &adj,
                    indices,
                    cur,
                    Ghost(cid),
                    Ghost(rank),
                    Ghost(first),
                    Ghost(count as int),
                    Ghost(head as int),
                );
                proof {
                    reveal(search_ok);
                    lemma_block_grow(bounds@, f as int, v0, c0, r0, o0, visited@, c1, r1, order@, count as int);
                    cid = c1;
                    rank = r1;
                    lemma_grows_keeps_closed(indices@, f as int, v0, c0, r0, o0, visited@, cid, rank, order@, head as int, count - 1);
                    reveal(search_ok);
                    assert(order.len() <= f);
                    assert forall|t1: int, t2: int|
                        0 <= t1 < f && 0 <= t2 < f && visited@[t1] && rank[t1] < head + 1
                            && #[trigger] share_vertex(indices@, t1, t2) implies visited@[t2] && cid[t2]
                            == cid[t1] by {
                        if rank[t1] == head {
                            assert(order@[rank[t1]] == t1);
                            assert(o0[head as int] == cur);
                            assert(t1 == cur);
                        }
                    }
                    assert forall|t: int| 0 <= t < start + 1 implies #[trigger] visited@[t] by {
                        assert(v0[t]);
                    }
                }
                head = head + 1;
            }
        }
    }
    proof {
        lemma_search_done(indices@, f as int, visited@, order@, cid, rank, first, count as int, head as int);
        reveal(search_ok);
    }
    let comps = cut_blocks(&order, &bounds, Ghost(f as int), Ghost(visited@), Ghost(cid), Ghost(rank));
    proof {
        assert(is_component_labelling(indices@, f as int, comps.len() as int, cid, rank));
    }
    comps
}

/// Counts the connected components of a triangle list, two triangles being
/// connected when a chain of triangles, each sharing a vertex with the next,
/// joins them. Indices after the last complete triangle take no part.
pub fn count_connected_components(indices: &Vec<u32>) -> (count: u32)
    requires
        indices.len() / 3 <= u32::MAX,
        forall|p: int, q: int|
            3 * (indices.len() / 3) <= p < indices.len() && 0 <= q < 3 * (indices.len() / 3)
                ==> #[trigger] indices@[p] != #[trigger] indices@[q],
    ensures
        exists|cid: Seq<int>, rank: Seq<int>|
            #[trigger] is_component_labelling(
                indices@,
                (indices.len() / 3) as int,
                count as int,
                cid,
                rank,
            ),
{
    let comps = surface_components(indices);
    proof {
        let (cid, rank) = choose|cid: Seq<int>, rank: Seq<int>|
            #[trigger] is_component_labelling(
                indices@,
                (indices.len() / 3) as int,
                comps.len() as int,
                cid,
                rank,
            ) && components_listed(comps@, (indices.len() / 3) as int, cid, rank);
        assert(is_component_labelling(indices@, (indices.len() / 3) as int, comps.len() as u32 as int, cid, rank));
    }
    comps.len() as u32
}


/// The components are the blocks of the visiting order that start at
/// `bounds`: label `c` holds exactly the triangles ranked from `bounds[c]` up
/// to the next bound.
pub open spec fn blocks_ok(
    bounds: Seq<usize>,
    olen: int,
    f: int,
    visited: Seq<bool>,
    cid: Seq<int>,
    rank: Seq<int>,
    count: int,
) -> bool {
    &&& bounds.len() == count
    &&& forall|c1: int, c2: int| 0 <= c1 < c2 < count ==> bounds[c1] < bounds[c2]
    &&& forall|c: int| 0 <= c < count ==> c <= #[trigger] bounds[c] < olen
    &&& forall|t: int|
        0 <= t < f && #[trigger] visited[t] ==> 0 <= cid[t] < count && rank[t] < olen
            && bounds[cid[t]] <= rank[t] && (cid[t] + 1 < count ==> rank[t] < bounds[cid[t] + 1])
}

/// Starting label `count` at triangle `x`, ranked `olen`, opens a new block.
proof fn lemma_block_start(
    b: Seq<usize>,
    olen: int,
    f: int,
    v: Seq<bool>,
    cid: Seq<int>,
    rank: Seq<int>,
    count: int,
    x: int,
)
    requires
        blocks_ok(b, olen, f, v, cid, rank, count),
        0 <= x < f,
        v.len() == f,
        cid.len() == f,
        rank.len() == f,
        !v[x],
        0 <= olen <= usize::MAX,
    ensures
        blocks_ok(
            b.push(olen as usize),
            olen + 1,
            f,
            v.update(x, true),
            cid.update(x, count),
            rank.update(x, olen),
            count + 1,
        ),
{
    let b2 = b.push(olen as usize);
    let v2 = v.update(x, true);
    let c2 = cid.update(x, count);
    let r2 = rank.update(x, olen);
    assert forall|c1: int, c3: int| 0 <= c1 < c3 < count + 1 implies b2[c1] < b2[c3] by {
        assert(b2[c1] == b[c1]);
        if c3 < count {
            assert(b2[c3] == b[c3]);
        }
    }
    assert forall|c: int| 0 <= c < count + 1 implies c <= #[trigger] b2[c] < olen + 1 by {
        if c < count {
            assert(b2[c] == b[c]);
        } else if c > 0 {
            assert(b[c - 1] >= c - 1 && b[c - 1] < olen);
        }
    }
    assert forall|t: int| 0 <= t < f && #[trigger] v2[t] implies 0 <= c2[t] < count + 1 && r2[t] < olen + 1
        && b2[c2[t]] <= r2[t] && (c2[t] + 1 < count + 1 ==> r2[t] < b2[c2[t] + 1]) by {
        if t != x {
            assert(v[t]);
            assert(b2[cid[t]] == b[cid[t]]);
            if cid[t] + 1 < count {
                assert(b2[cid[t] + 1] == b[cid[t] + 1]);
            }
        }
    }
}

/// Visits under the last label stay in its block.
proof fn lemma_block_grow(
    b: Seq<usize>,
    f: int,
    v0: Seq<bool>,
    c0: Seq<int>,
    r0: Seq<int>,
    o0: Seq<usize>,
    v1: Seq<bool>,
    c1: Seq<int>,
    r1: Seq<int>,
    o1: Seq<usize>,
    count: int,
)
    requires
        blocks_ok(b, o0.len() as int, f, v0, c0, r0, count),
        count >= 1,
        search_grows(f, v0, c0, r0, o0, v1, c1, r1, o1, count - 1),
        forall|t: int| 0 <= t < f && #[trigger] v1[t] ==> r1[t] < o1.len(),
    ensures
        blocks_ok(b, o1.len() as int, f, v1, c1, r1, count),
{
    assert forall|t: int| 0 <= t < f && #[trigger] v1[t] implies 0 <= c1[t] < count && r1[t] < o1.len()
        && b[c1[t]] <= r1[t] && (c1[t] + 1 < count ==> r1[t] < b[c1[t] + 1]) by {
        if v0[t] {
        } else {
            assert(b[count - 1] < o0.len());
        }
    }
}

/// Each component lists triangles of its own label, in increasing rank, and
/// every triangle is listed.
pub open spec fn components_listed(comps: Seq<Vec<u32>>, f: int, cid: Seq<int>, rank: Seq<int>) -> bool {
    &&& forall|c: int, i: int|
        0 <= c < comps.len() && 0 <= i < comps[c]@.len() ==> (#[trigger] comps[c]@[i]) < f
            && cid[comps[c]@[i] as int] == c
    &&& forall|c: int, i: int, j: int|
        0 <= c < comps.len() && 0 <= i < j < comps[c]@.len() ==> rank[#[trigger] comps[c]@[i] as int]
            < rank[#[trigger] comps[c]@[j] as int]
    &&& forall|t: int|
        0 <= t < f ==> 0 <= #[trigger] cid[t] < comps.len() && exists|i: int|
            0 <= i < comps[cid[t]]@.len() && comps[cid[t]]@[i] == t
}

/// Cuts the visiting order into the blocks of the labels.
fn cut_blocks(
    order: &Vec<usize>,
    bounds: &Vec<usize>,
    Ghost(f): Ghost<int>,
    Ghost(visited): Ghost<Seq<bool>>,
    Ghost(cid): Ghost<Seq<int>>,
    Ghost(rank): Ghost<Seq<int>>,
) -> (comps: Vec<Vec<u32>>)
    requires
        f <= u32::MAX,
        order.len() <= f,
        blocks_ok(bounds@, order.len() as int, f, visited, cid, rank, bounds.len() as int),
        forall|t: int| 0 <= t < f ==> #[trigger] visited[t],
        forall|t: int|
            0 <= t < f && #[trigger] visited[t] ==> 0 <= rank[t] < order.len() && order@[rank[t]] == t,
        forall|q: int|
            0 <= q < order.len() ==> #[trigger] order@[q] < f && rank[order@[q] as int] == q,
    ensures
        comps.len() == bounds.len(),
        comps.len() <= f,
        components_listed(comps@, f, cid, rank),
{
    let k = bounds.len();
    let mut comps: Vec<Vec<u32>> = Vec::new();
    for c in 0..k
        invariant
            k == bounds.len(),
            f <= u32::MAX,
            blocks_ok(bounds@, order.len() as int, f, visited, cid, rank, k as int),
            forall|t: int| 0 <= t < f ==> #[trigger] visited[t],
            forall|t: int|
                0 <= t < f && #[trigger] visited[t] ==> 0 <= rank[t] < order.len() && order@[rank[t]] == t,
            forall|q: int|
                0 <= q < order.len() ==> #[trigger] order@[q] < f && rank[order@[q] as int] == q,
            comps.len() == c,
            forall|c2: int, i: int|
                0 <= c2 < c && 0 <= i < comps@[c2]@.len() ==> {
                    &&& 0 <= bounds@[c2] + i < order.len()
                    &&& (#[trigger] comps@[c2]@[i]) as int == order@[bounds@[c2] + i]
                    &&& (c2 + 1 < k ==> bounds@[c2] + i < bounds@[c2 + 1])
                },
            forall|c2: int|
                0 <= c2 < c ==> bounds@[c2] + (#[trigger] comps@[c2]@.len()) == if c2 + 1 < k {
                    bounds@[c2 + 1] as int
                } else {
                    order.len() as int
                },
    {
        let start = bounds[c];
        let end = if c + 1 < k {
            bounds[c + 1]
        } else {
            order.len()
        };
        let mut comp: Vec<u32> = Vec::new();
        for q in start..end
            invariant
                start <= end <= order.len(),
                f <= u32::MAX,
                forall|q2: int| 0 <= q2 < order.len() ==> #[trigger] order@[q2] < f,
                comp.len() == q - start,
                forall|i: int| 0 <= i < comp.len() ==> (#[trigger] comp@[i]) as int == order@[start + i],
        {
            comp.push(order[q] as u32);
        }
        comps.push(comp);
        proof {
            assert forall|c2: int, i: int|
                0 <= c2 < c + 1 && 0 <= i < comps@[c2]@.len() implies {
                    &&& 0 <= bounds@[c2] + i < order.len()
                    &&& (#[trigger] comps@[c2]@[i]) as int == order@[bounds@[c2] + i]
                    &&& (c2 + 1 < k ==> bounds@[c2] + i < bounds@[c2 + 1])
                } by {
            }
        }
    }
    proof {
        assert(k <= f) by {
            if k > 0 {
                assert(bounds@[k - 1] >= k - 1);
                assert(bounds@[k - 1] < order.len());
                assert(order@[bounds@[k - 1] as int] < f);
                assert(rank[order@[bounds@[k - 1] as int] as int] == bounds@[k - 1]);
                assert(visited[order@[bounds@[k - 1] as int] as int]);
            }
        }
        assert forall|c: int, i: int|
            0 <= c < comps.len() && 0 <= i < comps@[c]@.len() implies (#[trigger] comps@[c]@[i]) < f
            && cid[comps@[c]@[i] as int] == c by {
            let q = bounds@[c] + i;
            let t = order@[q] as int;
            assert(rank[t] == q);
            assert(visited[t]);
            let d = cid[t];
            if d < c {
                assert(bounds@[d + 1] <= bounds@[c]);
            } else if d > c {
                assert(bounds@[c + 1] <= bounds@[d]);
            }
        }
        assert forall|c: int, i: int, j: int|
            0 <= c < comps.len() && 0 <= i < j < comps@[c]@.len() implies rank[#[trigger] comps@[c]@[i] as int]
            < rank[#[trigger] comps@[c]@[j] as int] by {
            assert(rank[order@[bounds@[c] + i] as int] == bounds@[c] + i);
            assert(rank[order@[bounds@[c] + j] as int] == bounds@[c] + j);
        }
        assert forall|t: int| 0 <= t < f implies 0 <= #[trigger] cid[t] < comps.len() && exists|i: int|
            0 <= i < comps@[cid[t]]@.len() && comps@[cid[t]]@[i] == t by {
            assert(visited[t]);
            let c = cid[t];
            let i = rank[t] - bounds@[c];
            assert(comps@[c]@[i] as int == order@[rank[t]]);
        }
    }
    comps
}

proof fn lemma_search_done(
    indices: Seq<u32>,
    f: int,
    visited: Seq<bool>,
    order: Seq<usize>,
    cid: Seq<int>,
    rank: Seq<int>,
    first: Seq<int>,
    count: int,
    head: int,
)
    requires
        search_ok(indices, f, visited, order, cid, rank, first, count),
        search_closed(indices, f, visited, cid, rank, head),
        head == order.len(),
        forall|t: int| 0 <= t < f ==> #[trigger] visited[t],
    ensures
        is_component_labelling(indices, f, count, cid, rank),
{
    reveal(search_ok);
        assert(is_component_labelling(indices, f, count, cid, rank)) by {
            assert forall|t: int| 0 <= t < f implies 0 <= #[trigger] cid[t] < count by {
                assert(visited[t]);
            }
            assert forall|c: int| 0 <= c < count implies #[trigger] label_used(cid, f, c) by {
                assert(cid[first[c]] == c);
            }
            assert forall|t1: int, t2: int|
                0 <= t1 < f && 0 <= t2 < f && t1 != t2 implies #[trigger] rank[t1] != #[trigger] rank[t2] by {
                assert(visited[t1] && visited[t2]);
                assert(order[rank[t1]] == t1);
                assert(order[rank[t2]] == t2);
            }
            assert forall|t1: int, t2: int|
                0 <= t1 < f && 0 <= t2 < f && #[trigger] share_vertex(indices, t1, t2) implies cid[t1] == cid[t2] by {
                assert(visited[t1]);
                assert(rank[t1] < head);
            }
            assert forall|t: int|
                #![trigger rank[t]]
                0 <= t < f && (exists|t2: int| 0 <= t2 < f && cid[t2] == cid[t] && #[trigger] rank[t2] < rank[t])
                implies exists|t2: int|
                0 <= t2 < f && cid[t2] == cid[t] && rank[t2] < rank[t] && #[trigger] share_vertex(
                    indices,
                    t2,
                    t,
                ) by {
                assert(visited[t]);
                if t == first[cid[t]] {
                    let t2 = choose|t2: int| 0 <= t2 < f && cid[t2] == cid[t] && #[trigger] rank[t2] < rank[t];
                    assert(visited[t2]);
                    assert(rank[first[cid[t2]]] <= rank[t2]);
                }
            }
        }
}

} // verus!
