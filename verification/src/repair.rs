//! Index-level mesh repair: consistent triangle winding and boundary-hole filling.
use vstd::prelude::*;
use std::collections::HashMap;
use crate::edges::{edge_of, make_edge, boundary_sequence, build_edge_table, boundary_of_table};
use crate::holes::{
    marked, incidence_exact, loops_from, boundary_loops, fan, fans, build_incidence, trace_loop,
    append_fan,
};
use crate::island::{cell_key, key_of, lemma_cell_key_injective};
use crate::adjacency::{
    corner, side, side_edge, has_edge, share_edge, edge_lists_exact, edge_lists_sorted, build_edge_lists,
};

verus! {

broadcast use vstd::std_specs::hash::group_hash_axioms;

/// Triangle `t` of a flat index list.
pub open spec fn tri_at(s: Seq<u32>, t: int) -> (u32, u32, u32) {
    (s[3 * t], s[3 * t + 1], s[3 * t + 2])
}

/// A triangle with its winding reversed by exchanging its last two corners.
pub open spec fn reversed(tri: (u32, u32, u32)) -> (u32, u32, u32) {
    (tri.0, tri.2, tri.1)
}

/// The triangle traverses the directed edge `u -> v` along one of its sides.
pub open spec fn has_directed(tri: (u32, u32, u32), u: u32, v: u32) -> bool {
    (tri.0 == u && tri.1 == v) || (tri.1 == u && tri.2 == v) || (tri.2 == u && tri.0 == v)
}

/// How many entries of `s` are true.
pub open spec fn count_true(s: Seq<bool>) -> nat
    decreases s.len(),
{
    if s.len() == 0 {
        0
    } else {
        count_true(s.drop_last()) + if s.last() { 1nat } else { 0nat }
    }
}

/// Triangle `t` in orientation `flip`.
pub open spec fn oriented(orig: Seq<u32>, t: int, flip: bool) -> (u32, u32, u32) {
    if flip {
        reversed(tri_at(orig, t))
    } else {
        tri_at(orig, t)
    }
}

/// `new` is `orig` with the winding of the triangles marked in `flipped`
/// reversed, and with `flips` of them; `rank` and `parent` record the
/// propagation: a triangle with no parent keeps its winding and shares no edge
/// with any triangle ranked before it, comes after every triangle of lower
/// index (so each group starts from its lowest-index triangle), and every
/// edge neighbour of a triangle ranked before it is ranked before it too;
/// a triangle's parent is the first triangle in that order to share an edge
/// with it; every other triangle shares an edge
/// `u - v` with an earlier-ranked parent that traverses it as `u -> v`, and is
/// reversed exactly when it traversed `u -> v` as well; and the order is
/// breadth first, with that edge the first side of the parent that the
/// triangle shares (see `propagation_in_order`).
pub open spec fn is_winding_propagation(
    orig: Seq<u32>,
    new: Seq<u32>,
    flips: int,
    flipped: Seq<bool>,
    rank: Seq<int>,
    parent: Seq<int>,
) -> bool {
    let f = orig.len() / 3;
    &&& new.len() == orig.len()
    &&& flipped.len() == f
    &&& rank.len() == f
    &&& parent.len() == f
    &&& forall|p: int| 3 * f <= p < orig.len() ==> #[trigger] new[p] == orig[p]
    &&& forall|t: int| 0 <= t < f ==> #[trigger] tri_at(new, t) == oriented(orig, t, flipped[t])
    &&& count_true(flipped) == flips
    &&& forall|t1: int, t2: int|
        0 <= t1 < f && 0 <= t2 < f && t1 != t2 ==> #[trigger] rank[t1] != #[trigger] rank[t2]
    &&& forall|t: int| 0 <= t < f ==> 0 <= #[trigger] rank[t] < f
    &&& forall|r: int, t1: int, t2: int|
        #![trigger share_edge(orig, t1, t2), parent[r]]
        0 <= r < f && 0 <= t1 < f && 0 <= t2 < f && parent[r] < 0 && rank[t1] < rank[r] && share_edge(
            orig,
            t1,
            t2,
        ) ==> rank[t2] < rank[r]
    &&& forall|r: int, t: int|
        #![trigger parent[r], rank[t]]
        0 <= t < r < f && parent[r] < 0 ==> rank[t] < rank[r]
    &&& forall|t: int, t2: int|
        #![trigger share_edge(orig, t2, t), parent[t]]
        0 <= t < f && 0 <= t2 < f && parent[t] >= 0 && rank[t2] < rank[parent[t]] ==> !share_edge(
            orig,
            t2,
            t,
        )
    &&& forall|t: int|
        0 <= t < f && #[trigger] parent[t] < 0 ==> !flipped[t] && forall|t2: int|
            0 <= t2 < f && #[trigger] rank[t2] < rank[t] ==> !share_edge(orig, t2, t)
    &&& forall|t: int|
        0 <= t < f && #[trigger] parent[t] >= 0 ==> parent[t] < f && rank[parent[t]] < rank[t]
            && exists|j: int|
            0 <= j < 3 && #[trigger] has_edge(
                orig,
                t,
                edge_of(side(new, parent[t], j).0, side(new, parent[t], j).1),
            ) && flipped[t] == has_directed(
                tri_at(orig, t),
                side(new, parent[t], j).0,
                side(new, parent[t], j).1,
            )
    &&& propagation_in_order(orig, new, Seq::new(f as nat, |t: int| true), flipped, rank, parent)
}

proof fn lemma_count_true_set(s: Seq<bool>, i: int)
    requires
        0 <= i < s.len(),
        !s[i],
    ensures
        count_true(s.update(i, true)) == count_true(s) + 1,
    decreases s.len(),
{
    let u = s.update(i, true);
    if i == s.len() - 1 {
        assert(u.drop_last() =~= s.drop_last());
    } else {
        lemma_count_true_set(s.drop_last(), i);
        assert(u.drop_last() =~= s.drop_last().update(i, true));
    }
}

proof fn lemma_count_true_bound(s: Seq<bool>)
    ensures
        count_true(s) <= s.len(),
    decreases s.len(),
{
    if s.len() > 0 {
        lemma_count_true_bound(s.drop_last());
    }
}

/// Side `j` (0, 1 or 2) of a triangle, as the corners it runs between.
pub open spec fn tri_side(tri: (u32, u32, u32), j: int) -> (u32, u32) {
    if j == 0 {
        (tri.0, tri.1)
    } else if j == 1 {
        (tri.1, tri.2)
    } else {
        (tri.2, tri.0)
    }
}

/// The undirected edge of side `j` of a triangle.
pub open spec fn tri_edge(tri: (u32, u32, u32), j: int) -> (u32, u32) {
    edge_of(tri_side(tri, j).0, tri_side(tri, j).1)
}

/// The first side of the triangle `ptri` whose edge triangle `t` of `orig`
/// also has (`2` when neither of the first two is).
pub open spec fn first_shared_side(orig: Seq<u32>, ptri: (u32, u32, u32), t: int) -> int {
    if has_edge(orig, t, tri_edge(ptri, 0)) {
        0
    } else if has_edge(orig, t, tri_edge(ptri, 1)) {
        1
    } else {
        2
    }
}

/// From a parent wound as `ptri`, triangle `t1` is reached before `t2`:
/// across an earlier side, or across the same side with a lower index.
pub open spec fn reached_before(orig: Seq<u32>, ptri: (u32, u32, u32), t1: int, t2: int) -> bool {
    let s1 = first_shared_side(orig, ptri, t1);
    let s2 = first_shared_side(orig, ptri, t2);
    s1 < s2 || (s1 == s2 && t1 < t2)
}

/// The visited triangles were reached breadth first, each parent's sides
/// taken in order and the triangles along one edge in index order: a
/// triangle is reached across the first side of its parent (as wound in
/// `cur`) whose edge it has, and is reversed exactly when it traverses that
/// side in the same direction; children of an earlier-ranked parent come
/// first; and children of one parent come in the order they are reached.
pub open spec fn propagation_in_order(
    orig: Seq<u32>,
    cur: Seq<u32>,
    visited: Seq<bool>,
    flipped: Seq<bool>,
    rank: Seq<int>,
    parent: Seq<int>,
) -> bool {
    let f = orig.len() / 3;
    &&& forall|t: int|
        0 <= t < f && visited[t] && #[trigger] parent[t] >= 0 ==> {
            let ptri = tri_at(cur, parent[t]);
            let j = first_shared_side(orig, ptri, t);
            &&& has_edge(orig, t, tri_edge(ptri, j))
            &&& flipped[t] == has_directed(tri_at(orig, t), tri_side(ptri, j).0, tri_side(ptri, j).1)
        }
    &&& forall|t1: int, t2: int|
        #![trigger parent[t1], parent[t2]]
        0 <= t1 < f && 0 <= t2 < f && visited[t1] && visited[t2] && parent[t1] >= 0 && parent[t2]
            >= 0 && rank[parent[t1]] < rank[parent[t2]] ==> rank[t1] < rank[t2]
    &&& forall|t1: int, t2: int|
        #![trigger parent[t1], parent[t2]]
        0 <= t1 < f && 0 <= t2 < f && visited[t1] && visited[t2] && parent[t1] >= 0 && parent[t1]
            == parent[t2] && reached_before(orig, tri_at(cur, parent[t1]), t1, t2) ==> rank[t1] < rank[t2]
}

/// Side `j` of triangle `q` read from the list is side `j` of its triple.
proof fn lemma_side_tri(s: Seq<u32>, q: int, j: int)
    requires
        0 <= q,
        3 * q + 2 < s.len(),
        0 <= j < 3,
    ensures
        side(s, q, j) == tri_side(tri_at(s, q), j),
        side_edge(s, q, j) == tri_edge(tri_at(s, q), j),
{
    assert(corner(s, q, 0) == s[3 * q]);
    assert(corner(s, q, 1) == s[3 * q + 1]);
    assert(corner(s, q, 2) == s[3 * q + 2]);
}

/// Visiting `x`, as a root when `par` is `-1`, else across side `j` of the
/// visited triangle `par`, the first side of `par` whose edge `x` has, after
/// every visited child of `par` that is reached before `x`, keeps the order.
proof fn lemma_in_order_visit(
    orig: Seq<u32>,
    c0: Seq<u32>,
    c1: Seq<u32>,
    v0: Seq<bool>,
    fl0: Seq<bool>,
    fl1: Seq<bool>,
    r0: Seq<int>,
    p0: Seq<int>,
    x: int,
    k: int,
    par: int,
    j: int,
)
    requires
        propagation_in_order(orig, c0, v0, fl0, r0, p0),
        v0.len() == orig.len() / 3,
        fl0.len() == orig.len() / 3,
        fl1.len() == orig.len() / 3,
        r0.len() == orig.len() / 3,
        p0.len() == orig.len() / 3,
        0 <= x < orig.len() / 3,
        !v0[x],
        forall|t: int| 0 <= t < orig.len() / 3 && v0[t] ==> #[trigger] r0[t] < k,
        forall|t: int|
            0 <= t < orig.len() / 3 && v0[t] && #[trigger] p0[t] >= 0 ==> 0 <= p0[t] < orig.len() / 3
                && v0[p0[t]],
        forall|t: int|
            0 <= t < orig.len() / 3 && t != x ==> #[trigger] tri_at(c1, t) == tri_at(c0, t) && fl1[t]
                == fl0[t],
        par >= -1,
        par >= 0 ==> {
            &&& par < orig.len() / 3
            &&& v0[par]
            &&& 0 <= j < 3
            &&& has_edge(orig, x, tri_edge(tri_at(c0, par), j))
            &&& forall|j2: int| 0 <= j2 < j ==> !has_edge(orig, x, #[trigger] tri_edge(tri_at(c0, par), j2))
            &&& fl1[x] == has_directed(
                tri_at(orig, x),
                tri_side(tri_at(c0, par), j).0,
                tri_side(tri_at(c0, par), j).1,
            )
            &&& forall|t: int|
                0 <= t < orig.len() / 3 && v0[t] && #[trigger] p0[t] >= 0 ==> r0[p0[t]] < r0[par] || (p0[t]
                    == par && reached_before(orig, tri_at(c0, par), t, x))
        },
    ensures
        par >= 0 ==> first_shared_side(orig, tri_at(c0, par), x) == j,
        propagation_in_order(orig, c1, v0.update(x, true), fl1, r0.update(x, k), p0.update(x, par)),
{
    let f = orig.len() / 3;
    let v1 = v0.update(x, true);
    let r1 = r0.update(x, k);
    let p1 = p0.update(x, par);
    if par >= 0 {
        assert(first_shared_side(orig, tri_at(c0, par), x) == j) by {
            if j > 0 {
                assert(!has_edge(orig, x, tri_edge(tri_at(c0, par), 0)));
            }
            if j > 1 {
                assert(!has_edge(orig, x, tri_edge(tri_at(c0, par), 1)));
            }
        }
        assert(par != x);
        assert(tri_at(c1, par) == tri_at(c0, par));
    }
    assert forall|t: int| 0 <= t < f && v1[t] && #[trigger] p1[t] >= 0 implies {
        let ptri = tri_at(c1, p1[t]);
        let jj = first_shared_side(orig, ptri, t);
        &&& has_edge(orig, t, tri_edge(ptri, jj))
        &&& fl1[t] == has_directed(tri_at(orig, t), tri_side(ptri, jj).0, tri_side(ptri, jj).1)
    } by {
        if t != x {
            assert(v0[t] && p0[t] >= 0);
            assert(v0[p0[t]] && p0[t] != x);
            assert(tri_at(c1, p0[t]) == tri_at(c0, p0[t]));
            assert(tri_at(c1, t) == tri_at(c0, t));
            assert(fl1[t] == fl0[t]);
        } else {
            assert(par >= 0 && p1[t] == par);
            assert(tri_at(c1, par) == tri_at(c0, par));
        }
    }
    assert forall|t1: int, t2: int|
        #![trigger p1[t1], p1[t2]]
        0 <= t1 < f && 0 <= t2 < f && v1[t1] && v1[t2] && p1[t1] >= 0 && p1[t2] >= 0 && r1[p1[t1]]
            < r1[p1[t2]] implies r1[t1] < r1[t2] by {
        if t1 == x {
            if t2 != x {
                assert(v0[t2] && p0[t2] >= 0 && v0[p0[t2]] && p0[t2] != x);
                assert(r0[p0[t2]] <= r0[par]);
            }
        } else if t2 == x {
            assert(v0[t1]);
        } else {
            assert(v0[p0[t1]] && v0[p0[t2]] && p0[t1] != x && p0[t2] != x);
        }
    }
    assert forall|t1: int, t2: int|
        #![trigger p1[t1], p1[t2]]
        0 <= t1 < f && 0 <= t2 < f && v1[t1] && v1[t2] && p1[t1] >= 0 && p1[t1] == p1[t2]
            && reached_before(orig, tri_at(c1, p1[t1]), t1, t2) implies r1[t1] < r1[t2] by {
        if t1 == x {
            if t2 != x {
                assert(v0[t2] && p0[t2] == par);
                assert(tri_at(c1, par) == tri_at(c0, par));
                assert(reached_before(orig, tri_at(c0, par), t2, x));
            }
        } else if t2 == x {
            assert(v0[t1]);
        } else {
            assert(v0[p0[t1]] && p0[t1] != x);
            assert(tri_at(c1, p0[t1]) == tri_at(c0, p0[t1]));
        }
    }
}

/// The bookkeeping of winding propagation over the current index list `cur`.
#[verifier::opaque]
pub open spec fn wind_ok(
    orig: Seq<u32>,
    cur: Seq<u32>,
    visited: Seq<bool>,
    order: Seq<usize>,
    flipped: Seq<bool>,
    rank: Seq<int>,
    parent: Seq<int>,
    flips: int,
) -> bool {
    let f = orig.len() / 3;
    &&& cur.len() == orig.len()
    &&& visited.len() == f
    &&& flipped.len() == f
    &&& rank.len() == f
    &&& parent.len() == f
    &&& order.len() <= f
    &&& forall|p: int| 3 * f <= p < orig.len() ==> #[trigger] cur[p] == orig[p]
    &&& forall|t: int| 0 <= t < f ==> #[trigger] tri_at(cur, t) == oriented(orig, t, flipped[t])
    &&& forall|t: int| 0 <= t < f && #[trigger] flipped[t] ==> visited[t]
    &&& count_true(flipped) == flips
    &&& forall|t: int|
        0 <= t < f && #[trigger] visited[t] ==> 0 <= rank[t] < order.len() && order[rank[t]] == t
    &&& forall|p: int|
        0 <= p < order.len() ==> #[trigger] order[p] < f && rank[order[p] as int] == p
            && visited[order[p] as int]
    &&& forall|t: int|
        0 <= t < f && #[trigger] visited[t] && parent[t] < 0 ==> !flipped[t] && forall|t2: int|
            0 <= t2 < f && visited[t2] && #[trigger] rank[t2] < rank[t] ==> !share_edge(orig, t2, t)
    &&& forall|t: int|
        0 <= t < f && #[trigger] visited[t] && parent[t] >= 0 ==> parent[t] < f && visited[parent[t]]
            && rank[parent[t]] < rank[t] && exists|j: int|
            0 <= j < 3 && #[trigger] has_edge(
                orig,
                t,
                edge_of(side(cur, parent[t], j).0, side(cur, parent[t], j).1),
            ) && flipped[t] == has_directed(
                tri_at(orig, t),
                side(cur, parent[t], j).0,
                side(cur, parent[t], j).1,
            )
}

proof fn lemma_room(orig: Seq<u32>, visited: Seq<bool>, order: Seq<usize>, rank: Seq<int>, x: usize)
    requires
        visited.len() == orig.len() / 3,
        order.len() <= orig.len() / 3,
        forall|t: int|
            0 <= t < orig.len() / 3 && #[trigger] visited[t] ==> 0 <= rank[t] < order.len()
                && order[rank[t]] == t,
        forall|p: int|
            0 <= p < order.len() ==> #[trigger] order[p] < orig.len() / 3 && rank[order[p] as int] == p
                && visited[order[p] as int],
        x < orig.len() / 3,
        !visited[x as int],
    ensures
        order.len() < orig.len() / 3,
        forall|p: int| 0 <= p < order.len() ==> order[p] != x,
{
    let f = orig.len() / 3;
    assert forall|p: int| 0 <= p < order.len() implies #[trigger] order[p] != x by {
        assert(visited[order[p] as int]);
    }
    let full = order.push(x);
    assert(full.no_duplicates()) by {
        assert forall|p1: int, p2: int|
            0 <= p1 < full.len() && 0 <= p2 < full.len() && p1 != p2 implies full[p1] != full[p2] by {
            if p1 < order.len() && p2 < order.len() {
                assert(rank[order[p1] as int] == p1);
                assert(rank[order[p2] as int] == p2);
            } else if p1 < order.len() {
                assert(full[p1] == order[p1]);
                assert(order[p1] != x);
            } else {
                assert(full[p2] == order[p2]);
                assert(order[p2] != x);
            }
        }
    }
    let all = Seq::new(f as nat, |t: int| t as usize);
    assert forall|p: int| 0 <= p < full.len() implies all.contains(#[trigger] full[p]) by {
        if p < order.len() {
            assert(order[p] < f);
        }
        assert(all[full[p] as int] == full[p]);
    }
    full.unique_seq_to_set();
    all.lemma_cardinality_of_set();
    vstd::seq_lib::seq_to_set_is_finite(all);
    assert(full.to_set().subset_of(all.to_set()));
    vstd::set_lib::lemma_len_subset(full.to_set(), all.to_set());
}

/// Visits triangle `x`: as the start of a new propagation when `link` is `None`,
/// or across the side `u -> v` (side `j` of the visited triangle `par`), reversing
/// `x` when it traverses `u -> v` too.
fn visit_tri(
    indices: &mut Vec<u32>,
    visited: &mut Vec<bool>,
    order: &mut Vec<usize>,
    flips: &mut u32,
    x: usize,
    link: Option<(u32, u32)>,
    Ghost(orig): Ghost<Seq<u32>>,
    Ghost(flipped): Ghost<Seq<bool>>,
    Ghost(rank): Ghost<Seq<int>>,
    Ghost(parent): Ghost<Seq<int>>,
    Ghost(par): Ghost<int>,
    Ghost(j): Ghost<int>,
) -> (r: (Ghost<Seq<bool>>, Ghost<Seq<int>>, Ghost<Seq<int>>))
    requires
        wind_ok(orig, old(indices)@, old(visited)@, old(order)@, flipped, rank, parent, *old(flips) as int),
        old(visited).len() == orig.len() / 3,
        orig.len() / 3 <= u32::MAX,
        x < orig.len() / 3,
        !old(visited)@[x as int],
        link is None ==> forall|t2: int|
            0 <= t2 < orig.len() / 3 && #[trigger] old(visited)@[t2] ==> !share_edge(orig, t2, x as int),
        link matches Some(uv) ==> {
            &&& 0 <= par < orig.len() / 3
            &&& old(visited)@[par]
            &&& 0 <= j < 3
            &&& uv == side(old(indices)@, par, j)
            &&& has_edge(orig, x as int, edge_of(uv.0, uv.1))
            &&& forall|j2: int|
                0 <= j2 < j ==> !has_edge(orig, x as int, #[trigger] tri_edge(tri_at(old(indices)@, par), j2))
            &&& forall|t: int|
                0 <= t < orig.len() / 3 && old(visited)@[t] && #[trigger] parent[t] >= 0 ==> rank[parent[t]]
                    < rank[par] || (parent[t] == par && reached_before(
                    orig,
                    tri_at(old(indices)@, par),
                    t,
                    x as int,
                ))
        },
        propagation_in_order(orig, old(indices)@, old(visited)@, flipped, rank, parent),
    ensures
        propagation_in_order(orig, final(indices)@, final(visited)@, r.0@, r.1@, r.2@),
        final(visited)@ == old(visited)@.update(x as int, true),
        final(order)@ == old(order)@.push(x),
        r.1@ == rank.update(x as int, old(order).len() as int),
        r.2@ == parent.update(x as int, if link is None { -1 } else { par }),
        r.0@.len() == flipped.len(),
        forall|t: int| 0 <= t < orig.len() / 3 && t != x ==> #[trigger] r.0@[t] == flipped[t],
        forall|t: int|
            0 <= t < orig.len() / 3 && t != x ==> #[trigger] tri_at(final(indices)@, t) == tri_at(
                old(indices)@,
                t,
            ),
        wind_ok(orig, final(indices)@, final(visited)@, final(order)@, r.0@, r.1@, r.2@, *final(flips) as int),
{
    let ghost f = orig.len() / 3;
    let ghost cur0 = indices@;
    let ghost v0 = visited@;
    let ghost o0 = order@;
    let ghost fl0 = *flips;
    proof {
        reveal(wind_ok);
        lemma_room(orig, visited@, order@, rank, x);
        lemma_count_true_bound(flipped);
        assert(!flipped[x as int]);
        assert(tri_at(indices@, x as int) == tri_at(orig, x as int));
        assert(indices@.len() == orig.len());
        assert(3 * x + 2 < indices.len());
        lemma_count_true_set(flipped, x as int);
        lemma_count_true_bound(flipped.update(x as int, true));
        assert(*flips < u32::MAX);
    }
    let base = 3 * x;
    let a = indices[base];
    let b = indices[base + 1];
    let c = indices[base + 2];
    let same = match link {
        Some((u, v)) => (a == u && b == v) || (b == u && c == v) || (c == u && a == v),
        None => false,
    };
    if same {
        indices.set(base + 1, c);
        indices.set(base + 2, b);
        proof {
            lemma_count_true_set(flipped, x as int);
        }
        *flips = *flips + 1;
    }
    let ghost flipped2 = if same { flipped.update(x as int, true) } else { flipped };
    let ghost p = order.len() as int;
    visited.set(x, true);
    order.push(x);
    let ghost rank2 = rank.update(x as int, p);
    let ghost parent2 = parent.update(x as int, if link is None { -1 } else { par });
    proof {
        reveal(wind_ok);
        let cur = indices@;
        let vis = visited@;
        let ord = order@;
        assert forall|t: int| 0 <= t < f && t != x implies #[trigger] tri_at(cur, t) == tri_at(cur0, t) by {
            assert(cur[3 * t] == cur0[3 * t]);
            assert(cur[3 * t + 1] == cur0[3 * t + 1]);
            assert(cur[3 * t + 2] == cur0[3 * t + 2]);
        }
        assert forall|q: int| 3 * f <= q < orig.len() implies #[trigger] cur[q] == orig[q] by {
            assert(cur[q] == cur0[q]);
        }
        assert forall|t: int| 0 <= t < f implies #[trigger] tri_at(cur, t) == oriented(orig, t, flipped2[t]) by {
            if t != x {
                assert(tri_at(cur, t) == tri_at(cur0, t));
            }
        }
        assert forall|t: int| 0 <= t < f && #[trigger] vis[t] implies 0 <= rank2[t] < ord.len()
            && ord[rank2[t]] == t by {
            if t != x {
                assert(v0[t]);
            }
        }
        assert forall|q: int| 0 <= q < ord.len() implies #[trigger] ord[q] < f && rank2[ord[q] as int]
            == q && vis[ord[q] as int] by {
            if q < p {
                assert(ord[q] == o0[q]);
            }
        }
        assert forall|t: int| 0 <= t < f && #[trigger] vis[t] && parent2[t] < 0 implies !flipped2[t]
            && forall|t2: int|
            0 <= t2 < f && vis[t2] && #[trigger] rank2[t2] < rank2[t] ==> !share_edge(orig, t2, t) by {
            if t != x {
                assert(v0[t]);
                assert forall|t2: int| 0 <= t2 < f && vis[t2] && #[trigger] rank2[t2] < rank2[t] implies !share_edge(
                    orig,
                    t2,
                    t,
                ) by {
                    if t2 == x {
                        assert(rank[t] < p);
                    } else {
                        assert(v0[t2]);
                    }
                }
            } else {
                assert forall|t2: int| 0 <= t2 < f && vis[t2] && #[trigger] rank2[t2] < rank2[t] implies !share_edge(
                    orig,
                    t2,
                    t,
                ) by {
                    assert(v0[t2]);
                }
            }
        }
        assert forall|t: int| 0 <= t < f && #[trigger] vis[t] && parent2[t] >= 0 implies parent2[t] < f
            && vis[parent2[t]] && rank2[parent2[t]] < rank2[t] && exists|jj: int|
            0 <= jj < 3 && #[trigger] has_edge(
                orig,
                t,
                edge_of(side(cur, parent2[t], jj).0, side(cur, parent2[t], jj).1),
            ) && flipped2[t] == has_directed(
                tri_at(orig, t),
                side(cur, parent2[t], jj).0,
                side(cur, parent2[t], jj).1,
            ) by {
            if t != x {
                assert(v0[t]);
                let pt = parent[t];
                assert(v0[pt]);
                assert(pt != x);
                assert(tri_at(cur, pt) == tri_at(cur0, pt));
                let jj = choose|jj: int|
                    0 <= jj < 3 && #[trigger] has_edge(
                        orig,
                        t,
                        edge_of(side(cur0, pt, jj).0, side(cur0, pt, jj).1),
                    ) && flipped[t] == has_directed(
                        tri_at(orig, t),
                        side(cur0, pt, jj).0,
                        side(cur0, pt, jj).1,
                    );
                assert(side(cur, pt, jj) == side(cur0, pt, jj));
            } else {
                assert(link is Some);
                assert(par != x);
                assert(tri_at(cur, par) == tri_at(cur0, par));
                assert(side(cur, par, j) == side(cur0, par, j));
                assert(has_edge(orig, t, edge_of(side(cur, par, j).0, side(cur, par, j).1)));
            }
        }
        let lpar = if link is None { -1int } else { par };
        if link is Some {
            lemma_side_tri(cur0, par, j);
            assert(tri_at(cur0, x as int) == tri_at(orig, x as int));
        }
        assert forall|t: int| 0 <= t < f && v0[t] implies #[trigger] rank[t] < p by {
        }
        assert forall|t: int| 0 <= t < f && t != x implies #[trigger] tri_at(cur, t) == tri_at(cur0, t)
            && flipped2[t] == flipped[t] by {
        }
        lemma_in_order_visit(orig, cur0, cur, v0, flipped, flipped2, rank, parent, x as int, p, lpar, j);
    }
    (Ghost(flipped2), Ghost(rank2), Ghost(parent2))
}

/// State `1` extends state `0`: visited triangles keep their visit data and
/// winding, and newly visited ones come after the old order.
pub open spec fn wind_grows(
    f: int,
    v0: Seq<bool>,
    fl0: Seq<bool>,
    r0: Seq<int>,
    p0: Seq<int>,
    o0: Seq<usize>,
    c0: Seq<u32>,
    v1: Seq<bool>,
    fl1: Seq<bool>,
    r1: Seq<int>,
    p1: Seq<int>,
    o1: Seq<usize>,
    c1: Seq<u32>,
) -> bool {
    &&& o0.len() <= o1.len()
    &&& forall|q: int| 0 <= q < o0.len() ==> #[trigger] o1[q] == o0[q]
    &&& forall|t: int|
        0 <= t < f && #[trigger] v0[t] ==> v1[t] && fl1[t] == fl0[t] && r1[t] == r0[t] && p1[t]
            == p0[t] && tri_at(c1, t) == tri_at(c0, t)
    &&& forall|t: int| 0 <= t < f && #[trigger] v1[t] && !v0[t] ==> r1[t] >= o0.len()
}

/// Every triangle sharing an edge with a triangle ranked before `head` is visited.
pub open spec fn wind_closed(orig: Seq<u32>, f: int, visited: Seq<bool>, rank: Seq<int>, head: int) -> bool {
    forall|t1: int, t2: int|
        0 <= t1 < f && 0 <= t2 < f && visited[t1] && rank[t1] < head && #[trigger] share_edge(
            orig,
            t1,
            t2,
        ) ==> visited[t2]
}

proof fn lemma_wind_grows_trans(
    f: int,
    v0: Seq<bool>,
    fl0: Seq<bool>,
    r0: Seq<int>,
    p0: Seq<int>,
    o0: Seq<usize>,
    c0: Seq<u32>,
    v1: Seq<bool>,
    fl1: Seq<bool>,
    r1: Seq<int>,
    p1: Seq<int>,
    o1: Seq<usize>,
    c1: Seq<u32>,
    v2: Seq<bool>,
    fl2: Seq<bool>,
    r2: Seq<int>,
    p2: Seq<int>,
    o2: Seq<usize>,
    c2: Seq<u32>,
)
    requires
        wind_grows(f, v0, fl0, r0, p0, o0, c0, v1, fl1, r1, p1, o1, c1),
        wind_grows(f, v1, fl1, r1, p1, o1, c1, v2, fl2, r2, p2, o2, c2),
    ensures
        wind_grows(f, v0, fl0, r0, p0, o0, c0, v2, fl2, r2, p2, o2, c2),
{
    assert forall|q: int| 0 <= q < o0.len() implies #[trigger] o2[q] == o0[q] by {
        assert(o1[q] == o0[q]);
    }
    assert forall|t: int| 0 <= t < f && #[trigger] v0[t] implies v2[t] && fl2[t] == fl0[t] && r2[t]
        == r0[t] && p2[t] == p0[t] && tri_at(c2, t) == tri_at(c0, t) by {
        assert(v1[t]);
    }
    assert forall|t: int| 0 <= t < f && #[trigger] v2[t] && !v0[t] implies r2[t] >= o0.len() by {
        if v1[t] {
        }
    }
}

/// Every triangle visited before a root has all its edge neighbours visited
/// before that root too: a new root starts only once the groups before it
/// are closed.
pub open spec fn roots_closed(orig: Seq<u32>, f: int, visited: Seq<bool>, rank: Seq<int>, parent: Seq<int>) -> bool {
    forall|r: int, t1: int, t2: int|
        #![trigger share_edge(orig, t1, t2), parent[r]]
        0 <= r < f && 0 <= t1 < f && 0 <= t2 < f && visited[r] && parent[r] < 0 && visited[t1] && rank[t1]
            < rank[r] && share_edge(orig, t1, t2) ==> visited[t2] && rank[t2] < rank[r]
}

/// Visiting only children of a visited triangle keeps the roots closed.
proof fn lemma_roots_closed_children(
    orig: Seq<u32>,
    f: int,
    v0: Seq<bool>,
    r0: Seq<int>,
    o0: Seq<usize>,
    fl0: Seq<bool>,
    p0: Seq<int>,
    c0: Seq<u32>,
    v1: Seq<bool>,
    fl1: Seq<bool>,
    r1: Seq<int>,
    p1: Seq<int>,
    o1: Seq<usize>,
    c1: Seq<u32>,
    cur: int,
)
    requires
        roots_closed(orig, f, v0, r0, p0),
        forall|t: int| 0 <= t < f && #[trigger] v0[t] ==> r0[t] < o0.len(),
        wind_grows(f, v0, fl0, r0, p0, o0, c0, v1, fl1, r1, p1, o1, c1),
        children_of(f, v0, v1, p1, cur),
        cur >= 0,
    ensures
        roots_closed(orig, f, v1, r1, p1),
{
    assert forall|r: int, t1: int, t2: int|
        #![trigger share_edge(orig, t1, t2), p1[r]]
        0 <= r < f && 0 <= t1 < f && 0 <= t2 < f && v1[r] && p1[r] < 0 && v1[t1] && r1[t1] < r1[r]
            && share_edge(orig, t1, t2) implies v1[t2] && r1[t2] < r1[r] by {
        assert(v0[r]);
        if !v0[t1] {
            assert(r1[t1] >= o0.len());
        }
        assert(p0[r] < 0 && v0[t1] && r0[t1] < r0[r]);
        assert(v0[t2] && r0[t2] < r0[r]);
    }
}

/// A visited root comes after every triangle of lower index.
pub open spec fn roots_after_lower(f: int, visited: Seq<bool>, rank: Seq<int>, parent: Seq<int>) -> bool {
    forall|r: int, t: int|
        #![trigger parent[r], rank[t]]
        0 <= t < r < f && visited[r] && parent[r] < 0 ==> visited[t] && rank[t] < rank[r]
}

/// The order of the search: a root comes after every triangle of lower index,
/// and a triangle's parent is the first triangle in search order that shares
/// an edge with it.
pub open spec fn search_order(orig: Seq<u32>, f: int, visited: Seq<bool>, rank: Seq<int>, parent: Seq<int>) -> bool {
    &&& roots_after_lower(f, visited, rank, parent)
    &&& forall|t: int, t2: int|
        #![trigger share_edge(orig, t2, t), parent[t]]
        0 <= t < f && 0 <= t2 < f && visited[t] && parent[t] >= 0 && visited[t2] && rank[t2]
            < rank[parent[t]] ==> !share_edge(orig, t2, t)
}

/// Visiting only children of `cur`, whose earlier-ranked neighbours are all
/// visited, keeps the search order.
proof fn lemma_search_order_children(
    orig: Seq<u32>,
    f: int,
    v0: Seq<bool>,
    r0: Seq<int>,
    o0: Seq<usize>,
    fl0: Seq<bool>,
    p0: Seq<int>,
    c0: Seq<u32>,
    v1: Seq<bool>,
    fl1: Seq<bool>,
    r1: Seq<int>,
    p1: Seq<int>,
    o1: Seq<usize>,
    c1: Seq<u32>,
    cur: int,
)
    requires
        search_order(orig, f, v0, r0, p0),
        forall|t: int| 0 <= t < f && #[trigger] v0[t] ==> r0[t] < o0.len(),
        forall|t: int| 0 <= t < f && #[trigger] v0[t] && p0[t] >= 0 ==> 0 <= p0[t] < f && v0[p0[t]],
        wind_grows(f, v0, fl0, r0, p0, o0, c0, v1, fl1, r1, p1, o1, c1),
        children_of(f, v0, v1, p1, cur),
        0 <= cur < f,
        v0[cur],
        wind_closed(orig, f, v0, r0, r0[cur]),
    ensures
        search_order(orig, f, v1, r1, p1),
{
    assert forall|r: int, t: int|
        0 <= t < r < f && v1[r] && p1[r] < 0 implies v1[t] && r1[t] < r1[r] by {
        if !v0[r] {
            assert(p1[r] == cur);
        }
        assert(v0[r]);
        assert(p0[r] < 0);
        assert(0 <= t < r < f);
        assert(v0[t]);
        assert(r0[t] < r0[r]);
        assert(v1[t]);
        assert(r1[t] == r0[t] && r1[r] == r0[r]);
    }
    assert forall|t: int, t2: int|
        #![trigger share_edge(orig, t2, t), p1[t]]
        0 <= t < f && 0 <= t2 < f && v1[t] && p1[t] >= 0 && v1[t2] && r1[t2] < r1[p1[t]] implies !share_edge(
            orig,
            t2,
            t,
        ) by {
        if v0[t] {
            assert(p1[t] == p0[t]);
            assert(v0[p0[t]] && r1[p0[t]] == r0[p0[t]] && r0[p0[t]] < o0.len());
            if !v0[t2] {
                assert(r1[t2] >= o0.len());
            }
            assert(r1[t2] == r0[t2]);
        } else {
            assert(p1[t] == cur);
            assert(r1[cur] == r0[cur]);
            if !v0[t2] {
                assert(r1[t2] >= o0.len());
                assert(r0[cur] < o0.len());
            }
            assert(v0[t2] && r0[t2] < r0[cur]);
        }
    }
}

/// Starting a new root, when every triangle of lower index is visited, keeps
/// the search order.
proof fn lemma_search_order_root(
    orig: Seq<u32>,
    f: int,
    v0: Seq<bool>,
    r0: Seq<int>,
    p0: Seq<int>,
    o0: Seq<usize>,
    x: int,
)
    requires
        search_order(orig, f, v0, r0, p0),
        forall|t: int| 0 <= t < f && #[trigger] v0[t] ==> r0[t] < o0.len(),
        forall|t: int| 0 <= t < f && #[trigger] v0[t] && p0[t] >= 0 ==> 0 <= p0[t] < f && v0[p0[t]],
        forall|t: int| 0 <= t < x ==> #[trigger] v0[t],
        0 <= x < f,
        !v0[x],
        v0.len() == f,
        r0.len() == f,
        p0.len() == f,
    ensures
        search_order(orig, f, v0.update(x, true), r0.update(x, o0.len() as int), p0.update(x, -1)),
{
    let v1 = v0.update(x, true);
    let r1 = r0.update(x, o0.len() as int);
    let p1 = p0.update(x, -1);
    assert forall|r: int, t: int|
        0 <= t < r < f && v1[r] && p1[r] < 0 implies v1[t] && r1[t] < r1[r] by {
        if r == x {
            assert(0 <= t < x);
            assert(v0[t]);
            assert(r0[t] < o0.len());
        } else {
            assert(v0[r] && p0[r] < 0);
            assert(v0[t] && r0[t] < r0[r]);
            assert(t != x);
        }
    }
    assert forall|t: int, t2: int|
        0 <= t < f && 0 <= t2 < f && v1[t] && p1[t] >= 0 && v1[t2] && r1[t2] < r1[p1[t]] implies !share_edge(
            orig,
            t2,
            t,
        ) by {
        assert(t != x);
        assert(v0[t] && p1[t] == p0[t]);
        assert(v0[p0[t]] && p0[t] != x && r1[p0[t]] == r0[p0[t]]);
        if t2 == x {
            assert(r0[p0[t]] < o0.len());
        } else {
            assert(v0[t2]);
        }
    }
}

/// Starting a new root once every visited triangle is closed keeps the roots closed.
proof fn lemma_roots_closed_root(
    orig: Seq<u32>,
    f: int,
    v0: Seq<bool>,
    r0: Seq<int>,
    p0: Seq<int>,
    o0: Seq<usize>,
    x: int,
)
    requires
        roots_closed(orig, f, v0, r0, p0),
        wind_closed(orig, f, v0, r0, o0.len() as int),
        forall|t: int| 0 <= t < f && #[trigger] v0[t] ==> r0[t] < o0.len(),
        0 <= x < f,
        !v0[x],
        v0.len() == f,
        r0.len() == f,
        p0.len() == f,
    ensures
        roots_closed(
            orig,
            f,
            v0.update(x, true),
            r0.update(x, o0.len() as int),
            p0.update(x, -1),
        ),
{
    let v1 = v0.update(x, true);
    let r1 = r0.update(x, o0.len() as int);
    let p1 = p0.update(x, -1);
    assert forall|r: int, t1: int, t2: int|
        #![trigger share_edge(orig, t1, t2), p1[r]]
        0 <= r < f && 0 <= t1 < f && 0 <= t2 < f && v1[r] && p1[r] < 0 && v1[t1] && r1[t1] < r1[r]
            && share_edge(orig, t1, t2) implies v1[t2] && r1[t2] < r1[r] by {
        if t1 == x {
            assert(r1[t1] == o0.len());
            if r != x {
                assert(r0[r] < o0.len());
            }
        } else if r == x {
            assert(v0[t1] && r0[t1] < o0.len());
            assert(v0[t2]);
            assert(t2 != x);
        } else {
            assert(p0[r] < 0 && v0[t1] && r0[t1] < r0[r]);
            assert(v0[t2] && r0[t2] < r0[r]);
        }
    }
}

proof fn lemma_wind_grows_closed(
    orig: Seq<u32>,
    f: int,
    v0: Seq<bool>,
    r0: Seq<int>,
    o0: Seq<usize>,
    fl0: Seq<bool>,
    p0: Seq<int>,
    c0: Seq<u32>,
    v1: Seq<bool>,
    fl1: Seq<bool>,
    r1: Seq<int>,
    p1: Seq<int>,
    o1: Seq<usize>,
    c1: Seq<u32>,
    head: int,
)
    requires
        wind_closed(orig, f, v0, r0, head),
        head <= o0.len(),
        wind_grows(f, v0, fl0, r0, p0, o0, c0, v1, fl1, r1, p1, o1, c1),
    ensures
        wind_closed(orig, f, v1, r1, head),
{
    assert forall|t1: int, t2: int|
        0 <= t1 < f && 0 <= t2 < f && v1[t1] && r1[t1] < head && #[trigger] share_edge(orig, t1, t2)
        implies v1[t2] by {
        if !v0[t1] {
            assert(r1[t1] >= o0.len());
        }
        assert(v0[t2]);
    }
}

/// The sides of a triangle in either winding cover the same undirected edges.
proof fn lemma_sides_cover(orig: Seq<u32>, cur: Seq<u32>, t: int, flip: bool, jj: int)
    requires
        0 <= t,
        3 * t + 2 < orig.len(),
        3 * t + 2 < cur.len(),
        tri_at(cur, t) == oriented(orig, t, flip),
        0 <= jj < 3,
    ensures
        exists|j: int| 0 <= j < 3 && #[trigger] side_edge(cur, t, j) == side_edge(orig, t, jj),
{
    assert(corner(cur, t, 0) == cur[3 * t]);
    assert(corner(cur, t, 1) == cur[3 * t + 1]);
    assert(corner(cur, t, 2) == cur[3 * t + 2]);
    assert(corner(orig, t, 0) == orig[3 * t]);
    assert(corner(orig, t, 1) == orig[3 * t + 1]);
    assert(corner(orig, t, 2) == orig[3 * t + 2]);
    if flip {
        if jj == 0 {
            assert(side_edge(cur, t, 2) == side_edge(orig, t, jj));
        } else if jj == 1 {
            assert(side_edge(cur, t, 1) == side_edge(orig, t, jj));
        } else {
            assert(side_edge(cur, t, 0) == side_edge(orig, t, jj));
        }
    } else {
        assert(side_edge(cur, t, jj) == side_edge(orig, t, jj));
    }
}

/// Every triangle visited between `v0` and `v1` has `cur` as its parent.
pub open spec fn children_of(f: int, v0: Seq<bool>, v1: Seq<bool>, p1: Seq<int>, cur: int) -> bool {
    forall|t: int| 0 <= t < f && #[trigger] v1[t] && !v0[t] ==> p1[t] == cur
}

/// Visits every unvisited triangle of `list`, each of which has the edge of
/// side `j` (`u -> v`) of the visited triangle `cur`.
#[verifier::loop_isolation(false)]
fn visit_edge_list(
    indices: &mut Vec<u32>,
    visited: &mut Vec<bool>,
    order: &mut Vec<usize>,
    flips: &mut u32,
    list: &Vec<usize>,
    cur: usize,
    j: usize,
    u: u32,
    v: u32,
    Ghost(orig): Ghost<Seq<u32>>,
    Ghost(flipped): Ghost<Seq<bool>>,
    Ghost(rank): Ghost<Seq<int>>,
    Ghost(parent): Ghost<Seq<int>>,
) -> (r: (Ghost<Seq<bool>>, Ghost<Seq<int>>, Ghost<Seq<int>>))
    requires
        wind_ok(orig, old(indices)@, old(visited)@, old(order)@, flipped, rank, parent, *old(flips) as int),
        old(visited).len() == orig.len() / 3,
        old(indices).len() == orig.len(),
        flipped.len() == orig.len() / 3,
        orig.len() / 3 <= u32::MAX,
        cur < orig.len() / 3,
        j < 3,
        old(visited)@[cur as int],
        (u, v) == side(old(indices)@, cur as int, j as int),
        forall|i: int|
            0 <= i < list.len() ==> #[trigger] list@[i] < orig.len() / 3 && has_edge(
                orig,
                list@[i] as int,
                edge_of(u, v),
            ),
        forall|i1: int, i2: int| 0 <= i1 <= i2 < list.len() ==> list@[i1] <= list@[i2],
        propagation_in_order(orig, old(indices)@, old(visited)@, flipped, rank, parent),
        forall|t2: int, j2: int|
            0 <= t2 < orig.len() / 3 && 0 <= j2 < j && #[trigger] has_edge(
                orig,
                t2,
                tri_edge(tri_at(old(indices)@, cur as int), j2),
            ) ==> old(visited)@[t2],
        forall|t: int|
            0 <= t < orig.len() / 3 && old(visited)@[t] && #[trigger] parent[t] >= 0 ==> rank[parent[t]]
                < rank[cur as int] || (parent[t] == cur && first_shared_side(
                orig,
                tri_at(old(indices)@, cur as int),
                t,
            ) < j),
    ensures
        propagation_in_order(orig, final(indices)@, final(visited)@, r.0@, r.1@, r.2@),
        tri_at(final(indices)@, cur as int) == tri_at(old(indices)@, cur as int),
        forall|t: int|
            0 <= t < orig.len() / 3 && final(visited)@[t] && #[trigger] r.2@[t] >= 0 ==> r.1@[r.2@[t]]
                < rank[cur as int] || (r.2@[t] == cur && first_shared_side(
                orig,
                tri_at(old(indices)@, cur as int),
                t,
            ) <= j),
        final(visited).len() == old(visited).len(),
        final(indices).len() == old(indices).len(),
        r.0@.len() == flipped.len(),
        wind_ok(orig, final(indices)@, final(visited)@, final(order)@, r.0@, r.1@, r.2@, *final(flips) as int),
        wind_grows(
            (orig.len() / 3) as int,
            old(visited)@,
            flipped,
            rank,
            parent,
            old(order)@,
            old(indices)@,
            final(visited)@,
            r.0@,
            r.1@,
            r.2@,
            final(order)@,
            final(indices)@,
        ),
        forall|i: int| 0 <= i < list.len() ==> final(visited)@[#[trigger] list@[i] as int],
        children_of((orig.len() / 3) as int, old(visited)@, final(visited)@, r.2@, cur as int),
{
    let ghost f = (orig.len() / 3) as int;
    let ghost v0 = visited@;
    let ghost o0 = order@;
    let ghost c0 = indices@;
    let ghost mut fl1 = flipped;
    let ghost mut r1 = rank;
    let ghost mut p1 = parent;
    proof {
        assert(wind_grows(f, v0, flipped, rank, parent, o0, c0, v0, flipped, rank, parent, o0, c0));
    }
    let m = list.len();
    for i in 0..m
        invariant
            visited.len() == f,
            indices.len() == orig.len(),
            fl1.len() == f,
            m == list@.len(),
            (u, v) == side(indices@, cur as int, j as int),
            wind_ok(orig, indices@, visited@, order@, fl1, r1, p1, *flips as int),
            wind_grows(f, v0, flipped, rank, parent, o0, c0, visited@, fl1, r1, p1, order@, indices@),
            visited@[cur as int],
            forall|i2: int| 0 <= i2 < i ==> visited@[#[trigger] list@[i2] as int],
            children_of(f, v0, visited@, p1, cur as int),
            propagation_in_order(orig, indices@, visited@, fl1, r1, p1),
            tri_at(indices@, cur as int) == tri_at(c0, cur as int),
            r1[cur as int] == rank[cur as int],
            forall|t: int|
                0 <= t < f && visited@[t] && #[trigger] p1[t] >= 0 ==> r1[p1[t]] < rank[cur as int] || (
                p1[t] == cur && (first_shared_side(orig, tri_at(c0, cur as int), t) < j || (
                first_shared_side(orig, tri_at(c0, cur as int), t) == j && i > 0 && t <= list@[i - 1]))),
    {
        let nb = list[i];
        if !visited[nb] {
            let ghost vb = visited@;
            let ghost ob = order@;
            let ghost cb = indices@;
            let ghost flb = fl1;
            let ghost rb = r1;
            let ghost pb = p1;
            proof {
                reveal(wind_ok);
                lemma_side_tri(indices@, cur as int, j as int);
                assert forall|j2: int|
                    0 <= j2 < j implies !has_edge(orig, nb as int, #[trigger] tri_edge(tri_at(indices@, cur as int), j2)) by {
                    if has_edge(orig, nb as int, tri_edge(tri_at(indices@, cur as int), j2)) {
                        assert(v0[nb as int]);
                    }
                }
                assert(has_edge(orig, nb as int, tri_edge(tri_at(indices@, cur as int), j as int)));
                assert(first_shared_side(orig, tri_at(c0, cur as int), nb as int) == j) by {
                    if j > 0 {
                        assert(!has_edge(orig, nb as int, tri_edge(tri_at(indices@, cur as int), 0)));
                    }
                    if j > 1 {
                        assert(!has_edge(orig, nb as int, tri_edge(tri_at(indices@, cur as int), 1)));
                    }
                }
                assert forall|t: int|
                    0 <= t < f && visited@[t] && #[trigger] p1[t] >= 0 implies r1[p1[t]] < r1[cur as int] || (
                    p1[t] == cur && reached_before(orig, tri_at(indices@, cur as int), t, nb as int)) by {
                    if r1[p1[t]] >= rank[cur as int] {
                        if first_shared_side(orig, tri_at(c0, cur as int), t) == j {
                            assert(list@[i - 1] <= list@[i as int]);
                            assert(t != nb as int);
                        }
                    }
                }
            }
            let (Ghost(a2), Ghost(b2), Ghost(c2)) = visit_tri(
                indices,
                visited,
                order,
                flips,
                nb,
                Some((u, v)),
                Ghost(orig),
                Ghost(fl1),
                Ghost(r1),
                Ghost(p1),
                Ghost(cur as int),
                Ghost(j as int),
            );
            proof {
                fl1 = a2;
                r1 = b2;
                p1 = c2;
                reveal(wind_ok);
                assert(wind_grows(f, vb, flb, rb, pb, ob, cb, visited@, fl1, r1, p1, order@, indices@)) by {
                    assert forall|t: int| 0 <= t < f && #[trigger] vb[t] implies visited@[t] && fl1[t] == flb[t]
                        && r1[t] == rb[t] && p1[t] == pb[t] && tri_at(indices@, t) == tri_at(cb, t) by {
                        assert(t != nb);
                    }
                    assert forall|t: int| 0 <= t < f && #[trigger] visited@[t] && !vb[t] implies r1[t] >= ob.len() by {
                        assert(t == nb);
                    }
                }
                lemma_wind_grows_trans(f, v0, flipped, rank, parent, o0, c0, vb, flb, rb, pb, ob, cb, visited@, fl1, r1, p1, order@, indices@);
                assert(tri_at(indices@, cur as int) == tri_at(cb, cur as int));
                assert(side(indices@, cur as int, j as int) == side(cb, cur as int, j as int));
                assert forall|i2: int| 0 <= i2 < i + 1 implies visited@[#[trigger] list@[i2] as int] by {
                    if i2 < i {
                        assert(vb[list@[i2] as int]);
                    }
                }
                assert forall|t: int| 0 <= t < f && #[trigger] visited@[t] && !v0[t] implies p1[t] == cur as int by {
                    if t != nb as int {
                        assert(vb[t]);
                        assert(p1[t] == pb[t]);
                    }
                }
                assert(r1[cur as int] == rb[cur as int]);
                assert forall|t: int|
                    0 <= t < f && visited@[t] && #[trigger] p1[t] >= 0 implies r1[p1[t]] < rank[cur as int] || (
                    p1[t] == cur && (first_shared_side(orig, tri_at(c0, cur as int), t) < j || (
                    first_shared_side(orig, tri_at(c0, cur as int), t) == j && i + 1 > 0 && t <= list@[i as int]))) by {
                    if t != nb as int {
                        assert(vb[t] && pb[t] >= 0 && p1[t] == pb[t]);
                        assert(vb[pb[t]] && pb[t] != nb as int);
                        assert(r1[pb[t]] == rb[pb[t]]);
                        if pb[t] == cur && first_shared_side(orig, tri_at(c0, cur as int), t) == j {
                            assert(list@[i - 1] <= list@[i as int]);
                        }
                    }
                }
            }
        } else {
            proof {
                assert forall|t: int|
                    0 <= t < f && visited@[t] && #[trigger] p1[t] >= 0 implies r1[p1[t]] < rank[cur as int] || (
                    p1[t] == cur && (first_shared_side(orig, tri_at(c0, cur as int), t) < j || (
                    first_shared_side(orig, tri_at(c0, cur as int), t) == j && i + 1 > 0 && t <= list@[i as int]))) by {
                    if p1[t] == cur && first_shared_side(orig, tri_at(c0, cur as int), t) == j && r1[p1[t]] >= rank[cur as int] {
                        assert(list@[i - 1] <= list@[i as int]);
                    }
                }
            }
        }
    }
    (Ghost(fl1), Ghost(r1), Ghost(p1))
}

/// A triangle having edge `e` has it on one of its three sides.
proof fn lemma_has_edge_side(orig: Seq<u32>, t: int, e: (u32, u32))
    requires
        has_edge(orig, t, e),
    ensures
        exists|jt: int| 0 <= jt < 3 && #[trigger] side_edge(orig, t, jt) == e,
{
    if side_edge(orig, t, 0) == e {
        assert(side_edge(orig, t, 0) == e);
    } else if side_edge(orig, t, 1) == e {
        assert(side_edge(orig, t, 1) == e);
    } else {
        assert(side_edge(orig, t, 2) == e);
    }
}

/// Visits every unvisited triangle that shares an edge with the visited triangle `cur`.
#[verifier::loop_isolation(false)]
fn visit_across_sides(
    indices: &mut Vec<u32>,
    visited: &mut Vec<bool>,
    order: &mut Vec<usize>,
    flips: &mut u32,
    adj: &HashMap<u64, Vec<usize>>,
    cur: usize,
    Ghost(orig): Ghost<Seq<u32>>,
    Ghost(flipped): Ghost<Seq<bool>>,
    Ghost(rank): Ghost<Seq<int>>,
    Ghost(parent): Ghost<Seq<int>>,
) -> (r: (Ghost<Seq<bool>>, Ghost<Seq<int>>, Ghost<Seq<int>>))
    requires
        wind_ok(orig, old(indices)@, old(visited)@, old(order)@, flipped, rank, parent, *old(flips) as int),
        edge_lists_exact(orig, (orig.len() / 3) as int, adj@),
        old(visited).len() == orig.len() / 3,
        old(indices).len() == orig.len(),
        flipped.len() == orig.len() / 3,
        orig.len() / 3 <= u32::MAX,
        cur < orig.len() / 3,
        old(visited)@[cur as int],
        edge_lists_sorted(adj@),
        propagation_in_order(orig, old(indices)@, old(visited)@, flipped, rank, parent),
        forall|t: int|
            0 <= t < orig.len() / 3 && old(visited)@[t] && #[trigger] parent[t] >= 0 ==> rank[parent[t]]
                < rank[cur as int],
    ensures
        propagation_in_order(orig, final(indices)@, final(visited)@, r.0@, r.1@, r.2@),
        forall|t: int|
            0 <= t < orig.len() / 3 && final(visited)@[t] && #[trigger] r.2@[t] >= 0 ==> r.1@[r.2@[t]]
                <= rank[cur as int],
        final(visited).len() == old(visited).len(),
        final(indices).len() == old(indices).len(),
        r.0@.len() == flipped.len(),
        wind_ok(orig, final(indices)@, final(visited)@, final(order)@, r.0@, r.1@, r.2@, *final(flips) as int),
        wind_grows(
            (orig.len() / 3) as int,
            old(visited)@,
            flipped,
            rank,
            parent,
            old(order)@,
            old(indices)@,
            final(visited)@,
            r.0@,
            r.1@,
            r.2@,
            final(order)@,
            final(indices)@,
        ),
        forall|t2: int|
            0 <= t2 < orig.len() / 3 && #[trigger] share_edge(orig, cur as int, t2) ==> final(visited)@[t2],
        children_of((orig.len() / 3) as int, old(visited)@, final(visited)@, r.2@, cur as int),
{
    let ghost f = (orig.len() / 3) as int;
    let ghost v0 = visited@;
    let ghost o0 = order@;
    let ghost c0 = indices@;
    let ghost mut fl1 = flipped;
    let ghost mut r1 = rank;
    let ghost mut p1 = parent;
    proof {
        assert(wind_grows(f, v0, flipped, rank, parent, o0, c0, v0, flipped, rank, parent, o0, c0));
    }
    for j in 0..3
        invariant
            visited.len() == f,
            indices.len() == orig.len(),
            fl1.len() == f,
            wind_ok(orig, indices@, visited@, order@, fl1, r1, p1, *flips as int),
            wind_grows(f, v0, flipped, rank, parent, o0, c0, visited@, fl1, r1, p1, order@, indices@),
            visited@[cur as int],
            tri_at(indices@, cur as int) == tri_at(c0, cur as int),
            forall|t2: int, j2: int|
                0 <= t2 < f && 0 <= j2 < j && #[trigger] has_edge(
                    orig,
                    t2,
                    side_edge(indices@, cur as int, j2),
                ) ==> visited@[t2],
            children_of(f, v0, visited@, p1, cur as int),
            propagation_in_order(orig, indices@, visited@, fl1, r1, p1),
            r1[cur as int] == rank[cur as int],
            forall|t: int|
                0 <= t < f && visited@[t] && #[trigger] p1[t] >= 0 ==> r1[p1[t]] < rank[cur as int] || (
                p1[t] == cur && first_shared_side(orig, tri_at(c0, cur as int), t) < j),
    {
        let u = indices[3 * cur + j];
        let v = indices[3 * cur + (j + 1) % 3];
        let e = make_edge(u, v);
        let k = key_of(e);
        proof {
            assert(side(indices@, cur as int, j as int) == (u, v));
            reveal(wind_ok);
            assert(tri_at(indices@, cur as int) == oriented(orig, cur as int, fl1[cur as int]));
            assert(exists|jj: int| 0 <= jj < 3 && side_edge(orig, cur as int, jj) == e) by {
                assert(e == side_edge(indices@, cur as int, j as int));
                if fl1[cur as int] {
                    if j == 0 {
                        assert(side_edge(orig, cur as int, 2) == e);
                    } else if j == 1 {
                        assert(side_edge(orig, cur as int, 1) == e);
                    } else {
                        assert(side_edge(orig, cur as int, 0) == e);
                    }
                } else {
                    assert(side_edge(orig, cur as int, j as int) == e);
                }
            }
            let jj = choose|jj: int| 0 <= jj < 3 && side_edge(orig, cur as int, jj) == e;
            assert(adj@.contains_key(cell_key(side_edge(orig, cur as int, jj))));
        }
        let list = adj.get(&k).unwrap();
        proof {
            assert forall|i: int| 0 <= i < list.len() implies #[trigger] list@[i] < f && has_edge(
                orig,
                list@[i] as int,
                edge_of(u, v),
            ) by {
                assert(0 <= adj@[k]@[i] < f);
                let e2 = choose|e2: (u32, u32)| cell_key(e2) == k && #[trigger] has_edge(orig, adj@[k]@[i] as int, e2);
                lemma_cell_key_injective(e2, e);
            }
        }
        let ghost vb = visited@;
        let ghost ob = order@;
        let ghost cb = indices@;
        let ghost flb = fl1;
        let ghost rb = r1;
        let ghost pb = p1;
        proof {
            assert forall|i1: int, i2: int| 0 <= i1 <= i2 < list.len() implies list@[i1] <= list@[i2] by {
                assert(adj@[k]@[i1] <= adj@[k]@[i2]);
            }
            assert forall|t2: int, j2: int|
                0 <= t2 < f && 0 <= j2 < j && #[trigger] has_edge(
                    orig,
                    t2,
                    tri_edge(tri_at(indices@, cur as int), j2),
                ) implies visited@[t2] by {
                lemma_side_tri(indices@, cur as int, j2);
                assert(has_edge(orig, t2, side_edge(indices@, cur as int, j2)));
            }
        }
        let (Ghost(a2), Ghost(b2), Ghost(c2)) = visit_edge_list(
            indices,
            visited,
            order,
            flips,
            list,
            cur,
            j,
            u,
            v,
            Ghost(orig),
            Ghost(fl1),
            Ghost(r1),
            Ghost(p1),
        );
        proof {
            fl1 = a2;
            r1 = b2;
            p1 = c2;
            lemma_wind_grows_trans(f, v0, flipped, rank, parent, o0, c0, vb, flb, rb, pb, ob, cb, visited@, fl1, r1, p1, order@, indices@);
            assert(r1[cur as int] == rb[cur as int]);
            assert forall|t: int|
                0 <= t < f && visited@[t] && #[trigger] p1[t] >= 0 implies r1[p1[t]] < rank[cur as int] || (
                p1[t] == cur && first_shared_side(orig, tri_at(c0, cur as int), t) < j + 1) by {
            }
            assert forall|t: int| 0 <= t < f && #[trigger] visited@[t] && !v0[t] implies p1[t] == cur as int by {
                if vb[t] {
                    assert(pb[t] == cur as int);
                }
            }
            assert(tri_at(indices@, cur as int) == tri_at(cb, cur as int));
            assert forall|t2: int, j2: int|
                0 <= t2 < f && 0 <= j2 < j + 1 && #[trigger] has_edge(
                    orig,
                    t2,
                    side_edge(indices@, cur as int, j2),
                ) implies visited@[t2] by {
                assert(side_edge(indices@, cur as int, j2) == side_edge(cb, cur as int, j2));
                if j2 == j {
                    assert(side_edge(cb, cur as int, j as int) == e);
                    lemma_has_edge_side(orig, t2, e);
                    let jt = choose|jt: int| 0 <= jt < 3 && #[trigger] side_edge(orig, t2, jt) == e;
                    assert(adj@[cell_key(side_edge(orig, t2, jt))]@.contains(t2 as usize));
                    let i2 = choose|i2: int| 0 <= i2 < list@.len() && list@[i2] == t2 as usize;
                    assert(visited@[list@[i2] as int]);
                } else {
                    assert(vb[t2]);
                }
            }
        }
    }
    proof {
        reveal(wind_ok);
        assert(tri_at(indices@, cur as int) == oriented(orig, cur as int, fl1[cur as int]));
        assert forall|t2: int|
            0 <= t2 < f && #[trigger] share_edge(orig, cur as int, t2) implies visited@[t2] by {
            let jj = if has_edge(orig, t2, side_edge(orig, cur as int, 0)) {
                0int
            } else if has_edge(orig, t2, side_edge(orig, cur as int, 1)) {
                1int
            } else {
                2int
            };
            lemma_sides_cover(orig, indices@, cur as int, fl1[cur as int], jj);
            let j = choose|j: int| 0 <= j < 3 && #[trigger] side_edge(indices@, cur as int, j) == side_edge(orig, cur as int, jj);
            assert(has_edge(orig, t2, side_edge(indices@, cur as int, j)));
        }
    }
    (Ghost(fl1), Ghost(r1), Ghost(p1))
}

proof fn lemma_count_true_none(n: nat)
    ensures
        count_true(Seq::new(n, |t: int| false)) == 0,
    decreases n,
{
    if n > 0 {
        lemma_count_true_none((n - 1) as nat);
        assert(Seq::new(n, |t: int| false).drop_last() =~= Seq::new((n - 1) as nat, |t: int| false));
    }
}

/// No two triangles traverse the same directed edge: every edge two of them
/// share is run through in opposite directions.
pub open spec fn consistently_wound(indices: Seq<u32>) -> bool {
    forall|t1: int, t2: int, u: u32, v: u32|
        0 <= t1 < indices.len() / 3 && 0 <= t2 < indices.len() / 3 && t1 != t2 && #[trigger] has_directed(
            tri_at(indices, t1),
            u,
            v,
        ) ==> !#[trigger] has_directed(tri_at(indices, t2), u, v)
}

proof fn lemma_unflipped_below(
    orig: Seq<u32>,
    new: Seq<u32>,
    flips: int,
    flipped: Seq<bool>,
    rank: Seq<int>,
    parent: Seq<int>,
    k: int,
)
    requires
        consistently_wound(orig),
        is_winding_propagation(orig, new, flips, flipped, rank, parent),
        0 <= k,
    ensures
        forall|t: int| 0 <= t < orig.len() / 3 && #[trigger] rank[t] < k ==> !flipped[t],
    decreases k,
{
    let f = orig.len() / 3;
    if k > 0 {
        lemma_unflipped_below(orig, new, flips, flipped, rank, parent, k - 1);
        assert forall|t: int| 0 <= t < f && #[trigger] rank[t] < k implies !flipped[t] by {
            if rank[t] == k - 1 && parent[t] >= 0 {
                let p = parent[t];
                assert(rank[p] < rank[t]);
                assert(!flipped[p]);
                assert(tri_at(new, p) == tri_at(orig, p));
                let j = choose|j: int|
                    0 <= j < 3 && #[trigger] has_edge(
                        orig,
                        t,
                        edge_of(side(new, p, j).0, side(new, p, j).1),
                    ) && flipped[t] == has_directed(
                        tri_at(orig, t),
                        side(new, p, j).0,
                        side(new, p, j).1,
                    );
                let u = side(new, p, j).0;
                let v = side(new, p, j).1;
                assert(has_directed(tri_at(orig, p), u, v)) by {
                    assert(new[3 * p] == tri_at(new, p).0);
                    assert(new[3 * p + 1] == tri_at(new, p).1);
                    assert(new[3 * p + 2] == tri_at(new, p).2);
                }
                assert(p != t);
            }
        }
    }
}

/// Propagation over a triangle list that is already consistently wound
/// reverses no triangle and leaves the list as it was.
pub proof fn lemma_consistent_winding_kept(
    orig: Seq<u32>,
    new: Seq<u32>,
    flips: int,
    flipped: Seq<bool>,
    rank: Seq<int>,
    parent: Seq<int>,
)
    requires
        consistently_wound(orig),
        is_winding_propagation(orig, new, flips, flipped, rank, parent),
    ensures
        flips == 0,
        new == orig,
{
    let f = (orig.len() / 3) as int;
    lemma_unflipped_below(orig, new, flips, flipped, rank, parent, f as int);
    assert(flipped =~= Seq::new(f as nat, |t: int| false)) by {
        assert forall|t: int| 0 <= t < f implies !flipped[t] by {
            assert(rank[t] < f);
        }
    }
    lemma_count_true_none(f as nat);
    assert forall|q: int| 0 <= q < orig.len() implies new[q] == orig[q] by {
        if q < 3 * f {
            let t = q / 3;
            assert(!flipped[t]);
            assert(tri_at(new, t) == tri_at(orig, t));
            assert(q == 3 * t || q == 3 * t + 1 || q == 3 * t + 2);
        }
    }
    assert(new =~= orig);
}

/// The list with triangle `t` reversed where `sigma[t]` holds.
pub open spec fn reoriented(orig: Seq<u32>, sigma: Seq<bool>) -> Seq<u32> {
    Seq::new(
        orig.len(),
        |q: int|
            if q < 3 * (orig.len() / 3) {
                let tri = oriented(orig, q / 3, sigma[q / 3]);
                if q % 3 == 0 {
                    tri.0
                } else if q % 3 == 1 {
                    tri.1
                } else {
                    tri.2
                }
            } else {
                orig[q]
            },
    )
}

/// The triangles can be turned so that the list is consistently wound.
pub open spec fn orientable(orig: Seq<u32>) -> bool {
    exists|sigma: Seq<bool>| sigma.len() == orig.len() / 3 && #[trigger] consistently_wound(reoriented(orig, sigma))
}

/// The root reached from `t` by following parents, at most `fuel` times.
pub open spec fn chain_root(parent: Seq<int>, t: int, fuel: nat) -> int
    decreases fuel,
{
    if fuel == 0 || parent[t] < 0 {
        t
    } else {
        chain_root(parent, parent[t], (fuel - 1) as nat)
    }
}

proof fn lemma_reversed_directed(tri: (u32, u32, u32), u: u32, v: u32)
    ensures
        has_directed(reversed(tri), u, v) == has_directed(tri, v, u),
        reversed(reversed(tri)) == tri,
{
}

proof fn lemma_oriented_directed(orig: Seq<u32>, t: int, a: bool, b: bool, u: u32, v: u32)
    ensures
        has_directed(oriented(orig, t, a), u, v) == if a == b {
            has_directed(oriented(orig, t, b), u, v)
        } else {
            has_directed(oriented(orig, t, b), v, u)
        },
{
    lemma_reversed_directed(tri_at(orig, t), u, v);
    lemma_reversed_directed(tri_at(orig, t), v, u);
}

proof fn lemma_side_directed(s: Seq<u32>, t: int, j: int)
    requires
        0 <= j < 3,
    ensures
        has_directed(tri_at(s, t), side(s, t, j).0, side(s, t, j).1),
{
    assert(corner(s, t, 0) == s[3 * t]);
    assert(corner(s, t, 1) == s[3 * t + 1]);
    assert(corner(s, t, 2) == s[3 * t + 2]);
}

proof fn lemma_edge_directed(s: Seq<u32>, t: int, u: u32, v: u32)
    requires
        has_edge(s, t, edge_of(u, v)),
    ensures
        has_directed(tri_at(s, t), u, v) || has_directed(tri_at(s, t), v, u),
{
    assert(corner(s, t, 0) == s[3 * t]);
    assert(corner(s, t, 1) == s[3 * t + 1]);
    assert(corner(s, t, 2) == s[3 * t + 2]);
}

proof fn lemma_directed_edge(s: Seq<u32>, t: int, u: u32, v: u32)
    requires
        has_directed(tri_at(s, t), u, v),
    ensures
        exists|k: int| 0 <= k < 3 && #[trigger] side_edge(s, t, k) == edge_of(u, v),
{
    assert(corner(s, t, 0) == s[3 * t]);
    assert(corner(s, t, 1) == s[3 * t + 1]);
    assert(corner(s, t, 2) == s[3 * t + 2]);
    if tri_at(s, t).0 == u && tri_at(s, t).1 == v {
        assert(side_edge(s, t, 0) == edge_of(u, v));
    } else if tri_at(s, t).1 == u && tri_at(s, t).2 == v {
        assert(side_edge(s, t, 1) == edge_of(u, v));
    } else {
        assert(side_edge(s, t, 2) == edge_of(u, v));
    }
}

proof fn lemma_has_edge_directed(s: Seq<u32>, t: int, u: u32, v: u32)
    requires
        has_directed(tri_at(s, t), u, v) || has_directed(tri_at(s, t), v, u),
    ensures
        has_edge(s, t, edge_of(u, v)),
{
    assert(corner(s, t, 0) == s[3 * t]);
    assert(corner(s, t, 1) == s[3 * t + 1]);
    assert(corner(s, t, 2) == s[3 * t + 2]);
}

proof fn lemma_reoriented_tri(orig: Seq<u32>, sigma: Seq<bool>, t: int)
    requires
        0 <= t < orig.len() / 3,
    ensures
        tri_at(reoriented(orig, sigma), t) == oriented(orig, t, sigma[t]),
{
    let g = reoriented(orig, sigma);
    assert((3 * t) / 3 == t && (3 * t + 1) / 3 == t && (3 * t + 2) / 3 == t);
    assert((3 * t) % 3 == 0 && (3 * t + 1) % 3 == 1 && (3 * t + 2) % 3 == 2);
    assert(3 * t + 2 < 3 * (orig.len() / 3));
}

/// A child's discrepancy from `sigma` is its parent's.
proof fn lemma_child_follows(
    orig: Seq<u32>,
    new: Seq<u32>,
    flips: int,
    flipped: Seq<bool>,
    rank: Seq<int>,
    parent: Seq<int>,
    sigma: Seq<bool>,
    t: int,
)
    requires
        is_winding_propagation(orig, new, flips, flipped, rank, parent),
        sigma.len() == orig.len() / 3,
        consistently_wound(reoriented(orig, sigma)),
        0 <= t < orig.len() / 3,
        parent[t] >= 0,
    ensures
        (flipped[t] != sigma[t]) == (flipped[parent[t]] != sigma[parent[t]]),
        share_edge(orig, parent[t], t),
{
    let f = orig.len() / 3;
    let g = reoriented(orig, sigma);
    let p = parent[t];
    assert(0 <= p < f && rank[p] < rank[t]);
    let j = choose|j: int|
        0 <= j < 3 && #[trigger] has_edge(orig, t, edge_of(side(new, p, j).0, side(new, p, j).1))
            && flipped[t] == has_directed(tri_at(orig, t), side(new, p, j).0, side(new, p, j).1);
    let u = side(new, p, j).0;
    let v = side(new, p, j).1;
    lemma_side_directed(new, p, j);
    assert(tri_at(new, p) == oriented(orig, p, flipped[p]));
    lemma_reoriented_tri(orig, sigma, p);
    lemma_reoriented_tri(orig, sigma, t);
    lemma_oriented_directed(orig, p, flipped[p], sigma[p], u, v);
    lemma_oriented_directed(orig, t, false, sigma[t], u, v);
    lemma_oriented_directed(orig, t, false, sigma[t], v, u);
    lemma_edge_directed(orig, t, u, v);
    assert(p != t);
    // The sides of `p` in `g` and in `orig` are the same undirected edges.
    lemma_directed_edge(orig, p, if flipped[p] { v } else { u }, if flipped[p] { u } else { v });
    lemma_oriented_directed(orig, p, flipped[p], false, u, v);
    let k = choose|k: int| 0 <= k < 3 && #[trigger] side_edge(orig, p, k) == edge_of(
        if flipped[p] { v } else { u },
        if flipped[p] { u } else { v },
    );
    assert(edge_of(v, u) == edge_of(u, v));
    assert(has_edge(orig, t, side_edge(orig, p, k)));
}

proof fn lemma_chain_root(
    orig: Seq<u32>,
    new: Seq<u32>,
    flips: int,
    flipped: Seq<bool>,
    rank: Seq<int>,
    parent: Seq<int>,
    sigma: Seq<bool>,
    t: int,
    fuel: nat,
)
    requires
        is_winding_propagation(orig, new, flips, flipped, rank, parent),
        sigma.len() == orig.len() / 3,
        consistently_wound(reoriented(orig, sigma)),
        0 <= t < orig.len() / 3,
        fuel > rank[t],
    ensures
        ({
            let r = chain_root(parent, t, fuel);
            &&& 0 <= r < orig.len() / 3
            &&& parent[r] < 0
            &&& rank[r] <= rank[t]
            &&& (flipped[r] != sigma[r]) == (flipped[t] != sigma[t])
            &&& forall|r2: int|
                0 <= r2 < orig.len() / 3 && #[trigger] parent[r2] < 0 && rank[r] < rank[r2] ==> rank[t]
                    < rank[r2]
        }),
    decreases fuel,
{
    let f = orig.len() / 3;
    if parent[t] >= 0 {
        let p = parent[t];
        assert(0 <= p < f && rank[p] < rank[t]);
        assert(rank[p] >= 0);
        lemma_child_follows(orig, new, flips, flipped, rank, parent, sigma, t);
        lemma_chain_root(orig, new, flips, flipped, rank, parent, sigma, p, (fuel - 1) as nat);
        let r = chain_root(parent, t, fuel);
        assert(r == chain_root(parent, p, (fuel - 1) as nat));
        assert forall|r2: int|
            0 <= r2 < f && #[trigger] parent[r2] < 0 && rank[r] < rank[r2] implies rank[t] < rank[r2] by {
            assert(rank[p] < rank[r2]);
            assert(share_edge(orig, p, t));
        }
    }
}

/// When the triangles can be turned so that the list is consistently wound,
/// propagation winds it consistently: no two triangles of the result run
/// through the same directed edge.
pub proof fn lemma_orientable_becomes_consistent(
    orig: Seq<u32>,
    new: Seq<u32>,
    flips: int,
    flipped: Seq<bool>,
    rank: Seq<int>,
    parent: Seq<int>,
)
    requires
        is_winding_propagation(orig, new, flips, flipped, rank, parent),
        orientable(orig),
    ensures
        consistently_wound(new),
{
    let f = orig.len() / 3;
    let sigma = choose|sigma: Seq<bool>| sigma.len() == orig.len() / 3 && #[trigger] consistently_wound(
        reoriented(orig, sigma),
    );
    let g = reoriented(orig, sigma);
    assert forall|t1: int, t2: int, u: u32, v: u32|
        0 <= t1 < new.len() / 3 && 0 <= t2 < new.len() / 3 && t1 != t2 && #[trigger] has_directed(
            tri_at(new, t1),
            u,
            v,
        ) implies !#[trigger] has_directed(tri_at(new, t2), u, v) by {
        if has_directed(tri_at(new, t2), u, v) {
            assert(tri_at(new, t1) == oriented(orig, t1, flipped[t1]));
            assert(tri_at(new, t2) == oriented(orig, t2, flipped[t2]));
            lemma_reoriented_tri(orig, sigma, t1);
            lemma_reoriented_tri(orig, sigma, t2);
            lemma_oriented_directed(orig, t1, flipped[t1], sigma[t1], u, v);
            lemma_oriented_directed(orig, t2, flipped[t2], sigma[t2], u, v);
            // t1 and t2 share an edge in `orig`.
            lemma_oriented_directed(orig, t1, flipped[t1], false, u, v);
            lemma_oriented_directed(orig, t2, flipped[t2], false, u, v);
            let (a1, b1) = if flipped[t1] { (v, u) } else { (u, v) };
            lemma_directed_edge(orig, t1, a1, b1);
            let k = choose|k: int| 0 <= k < 3 && #[trigger] side_edge(orig, t1, k) == edge_of(a1, b1);
            assert(edge_of(v, u) == edge_of(u, v));
            lemma_has_edge_directed(orig, t2, u, v);
            assert(share_edge(orig, t1, t2));
            let (a2, b2) = if flipped[t2] { (v, u) } else { (u, v) };
            lemma_directed_edge(orig, t2, a2, b2);
            let k2 = choose|k2: int| 0 <= k2 < 3 && #[trigger] side_edge(orig, t2, k2) == edge_of(a2, b2);
            lemma_has_edge_directed(orig, t1, u, v);
            assert(share_edge(orig, t2, t1));
            // Both lie under one root, so both differ from `sigma` alike.
            lemma_chain_root(orig, new, flips, flipped, rank, parent, sigma, t1, f as nat);
            lemma_chain_root(orig, new, flips, flipped, rank, parent, sigma, t2, f as nat);
            let r1 = chain_root(parent, t1, f as nat);
            let r2 = chain_root(parent, t2, f as nat);
            if rank[t1] < rank[t2] {
                if rank[t1] < rank[r2] {
                    assert(rank[t2] < rank[r2]);
                }
                if r1 != r2 {
                    assert(rank[r1] != rank[r2]);
                }
            } else {
                assert(rank[t1] != rank[t2]);
                if rank[t2] < rank[r1] {
                    assert(rank[t1] < rank[r1]);
                }
                if r1 != r2 {
                    assert(rank[r1] != rank[r2]);
                }
            }
            assert(r1 == r2);
            assert(consistently_wound(g));
            if flipped[t1] != sigma[t1] {
                assert(has_directed(tri_at(g, t1), v, u));
                assert(has_directed(tri_at(g, t2), v, u));
            } else {
                assert(has_directed(tri_at(g, t1), u, v));
                assert(has_directed(tri_at(g, t2), u, v));
            }
        }
    }
}

proof fn lemma_wind_done(
    orig: Seq<u32>,
    cur: Seq<u32>,
    visited: Seq<bool>,
    order: Seq<usize>,
    flipped: Seq<bool>,
    rank: Seq<int>,
    parent: Seq<int>,
    flips: int,
)
    requires
        wind_ok(orig, cur, visited, order, flipped, rank, parent, flips),
        roots_closed(orig, (orig.len() / 3) as int, visited, rank, parent),
        search_order(orig, (orig.len() / 3) as int, visited, rank, parent),
        propagation_in_order(orig, cur, visited, flipped, rank, parent),
        forall|t: int| 0 <= t < orig.len() / 3 ==> #[trigger] visited[t],
    ensures
        is_winding_propagation(orig, cur, flips, flipped, rank, parent),
{
    reveal(wind_ok);
    let f = orig.len() / 3;
    assert(visited =~= Seq::new(f as nat, |t: int| true));
    assert forall|r: int, t: int| 0 <= t < r < f && parent[r] < 0 implies rank[t] < rank[r] by {
        assert(visited[r]);
    }
    assert forall|t: int, t2: int|
        0 <= t < f && 0 <= t2 < f && parent[t] >= 0 && rank[t2] < rank[parent[t]] implies !share_edge(
            orig,
            t2,
            t,
        ) by {
        assert(visited[t] && visited[t2]);
    }
    assert forall|r: int, t1: int, t2: int|
        #![trigger share_edge(orig, t1, t2), parent[r]]
        0 <= r < f && 0 <= t1 < f && 0 <= t2 < f && parent[r] < 0 && rank[t1] < rank[r] && share_edge(
            orig,
            t1,
            t2,
        ) implies rank[t2] < rank[r] by {
        assert(visited[r] && visited[t1]);
    }
    assert forall|t1: int, t2: int|
        0 <= t1 < f && 0 <= t2 < f && t1 != t2 implies #[trigger] rank[t1] != #[trigger] rank[t2] by {
        assert(visited[t1] && visited[t2]);
        assert(order[rank[t1]] == t1);
        assert(order[rank[t2]] == t2);
    }
    assert forall|t: int| 0 <= t < f implies 0 <= #[trigger] rank[t] < f by {
        assert(visited[t]);
    }
    assert forall|t: int|
        0 <= t < f && #[trigger] parent[t] < 0 implies !flipped[t] && forall|t2: int|
            0 <= t2 < f && #[trigger] rank[t2] < rank[t] ==> !share_edge(orig, t2, t) by {
        assert(visited[t]);
        assert forall|t2: int| 0 <= t2 < f && #[trigger] rank[t2] < rank[t] implies !share_edge(orig, t2, t) by {
            assert(visited[t2]);
        }
    }
    assert forall|t: int|
        0 <= t < f && #[trigger] parent[t] >= 0 implies parent[t] < f && rank[parent[t]] < rank[t]
            && exists|j: int|
            0 <= j < 3 && #[trigger] has_edge(
                orig,
                t,
                edge_of(side(cur, parent[t], j).0, side(cur, parent[t], j).1),
            ) && flipped[t] == has_directed(
                tri_at(orig, t),
                side(cur, parent[t], j).0,
                side(cur, parent[t], j).1,
            ) by {
        assert(visited[t]);
    }
}

/// Makes triangle windings consistent by propagating orientation, breadth
/// first, from the first triangle of each edge-connected group: a triangle
/// reached across an edge that it traverses in the same direction as the
/// triangle it was reached from has its winding reversed. Returns the number
/// of reversed triangles.
#[verifier::loop_isolation(false)]
pub fn fix_normals(indices: &mut Vec<u32>) -> (flips: u32)
    requires
        old(indices).len() < 3 || old(indices).len() % 3 == 0,
        old(indices).len() / 3 <= u32::MAX,
    ensures
        exists|flipped: Seq<bool>, rank: Seq<int>, parent: Seq<int>|
            #[trigger] is_winding_propagation(old(indices)@, final(indices)@, flips as int, flipped, rank, parent),
{
    let ghost orig = indices@;
    if indices.len() < 3 {
        proof {
            let e: Seq<bool> = Seq::empty();
            let z: Seq<int> = Seq::empty();
            assert(is_winding_propagation(orig, indices@, 0, e, z, z));
        }
        return 0;
    }
    let f = indices.len() / 3;
    let adj = build_edge_lists(indices);
    let mut visited: Vec<bool> = Vec::new();
    for q in 0..f
        invariant
            visited.len() == q,
            forall|j: int| 0 <= j < q ==> !visited@[j],
    {
        visited.push(false);
    }
    let ghost mut flipped: Seq<bool> = Seq::new(f as nat, |t: int| false);
    let ghost mut rank: Seq<int> = Seq::new(f as nat, |t: int| -1int);
    let ghost mut parent: Seq<int> = Seq::new(f as nat, |t: int| -1int);
    let mut order: Vec<usize> = Vec::new();
    let mut flips: u32 = 0;
    let mut head: usize = 0;
    proof {
        lemma_count_true_none(f as nat);
        reveal(wind_ok);
        assert forall|t: int| 0 <= t < f implies #[trigger] tri_at(indices@, t) == oriented(orig, t, flipped[t]) by {
        }
    }
    for start in 0..f
        invariant
            f == orig.len() / 3,
            visited.len() == f,
            indices.len() == orig.len(),
            flipped.len() == f,
            head == order.len(),
            wind_ok(orig, indices@, visited@, order@, flipped, rank, parent, flips as int),
            wind_closed(orig, f as int, visited@, rank, head as int),
            roots_closed(orig, f as int, visited@, rank, parent),
            search_order(orig, f as int, visited@, rank, parent),
            propagation_in_order(orig, indices@, visited@, flipped, rank, parent),
            forall|t: int| 0 <= t < f && visited@[t] && #[trigger] parent[t] >= 0 ==> rank[parent[t]] < head,
            forall|t: int| 0 <= t < start ==> #[trigger] visited@[t],
    {
        if !visited[start] {
            let ghost v0 = visited@;
            let ghost o0 = order@;
            let ghost c0 = indices@;
            let ghost fl0 = flipped;
            let ghost r0 = rank;
            let ghost p0 = parent;
            proof {
                reveal(wind_ok);
                assert forall|t2: int| 0 <= t2 < f && #[trigger] visited@[t2] implies !share_edge(orig, t2, start as int) by {
                    assert(rank[t2] < head);
                }
            }
            let (Ghost(a1), Ghost(b1), Ghost(c1)) = visit_tri(
                indices,
                &mut visited,
                &mut order,
                &mut flips,
                start,
                None,
                Ghost(orig),
                Ghost(flipped),
                Ghost(rank),
                Ghost(parent),
                Ghost(-1int),
                Ghost(0int),
            );
            proof {
                flipped = a1;
                rank = b1;
                parent = c1;
                reveal(wind_ok);
                lemma_roots_closed_root(orig, f as int, v0, r0, p0, o0, start as int);
                lemma_search_order_root(orig, f as int, v0, r0, p0, o0, start as int);
                assert(wind_grows(f as int, v0, fl0, r0, p0, o0, c0, visited@, flipped, rank, parent, order@, indices@)) by {
                    assert forall|t: int| 0 <= t < f && #[trigger] v0[t] implies visited@[t] && flipped[t] == fl0[t]
                        && rank[t] == r0[t] && parent[t] == p0[t] && tri_at(indices@, t) == tri_at(c0, t) by {
                        assert(t != start);
                    }
                }
                lemma_wind_grows_closed(orig, f as int, v0, r0, o0, fl0, p0, c0, visited@, flipped, rank, parent, order@, indices@, head as int);
                assert forall|t: int| 0 <= t < f && visited@[t] && #[trigger] parent[t] >= 0 implies rank[parent[t]]
                    < head by {
                    assert(t != start && v0[t] && p0[t] >= 0);
                    assert(v0[p0[t]] && p0[t] != start);
                }
            }
            while head < order.len()
                invariant
                    f == orig.len() / 3,
                    visited.len() == f,
                    indices.len() == orig.len(),
                    flipped.len() == f,
                    head <= order.len(),
                    wind_ok(orig, indices@, visited@, order@, flipped, rank, parent, flips as int),
                    wind_closed(orig, f as int, visited@, rank, head as int),
                    roots_closed(orig, f as int, visited@, rank, parent),
                    search_order(orig, f as int, visited@, rank, parent),
                    propagation_in_order(orig, indices@, visited@, flipped, rank, parent),
                    forall|t: int| 0 <= t < f && visited@[t] && #[trigger] parent[t] >= 0 ==> rank[parent[t]] < head,
                    forall|t: int| 0 <= t < start + 1 ==> #[trigger] visited@[t],
                decreases f - head,
            {
                let cur = order[head];
                let ghost v0 = visited@;
                let ghost o0 = order@;
                let ghost c0 = indices@;
                let ghost fl0 = flipped;
                let ghost r0 = rank;
                let ghost p0 = parent;
                proof {
                    reveal(wind_ok);
                    assert(order@[head as int] < f);
                    assert(rank[cur as int] == head);
                    assert(visited@[cur as int]);
                }
                let (Ghost(a1), Ghost(b1), Ghost(c1)) = visit_across_sides(
                    indices,
                    &mut visited,
                    &mut order,
                    &mut flips,
                    &adj,
                    cur,
                    Ghost(orig),
                    Ghost(flipped),
                    Ghost(rank),
                    Ghost(parent),
                );
                proof {
                    flipped = a1;
                    rank = b1;
                    parent = c1;
                    lemma_wind_grows_closed(orig, f as int, v0, r0, o0, fl0, p0, c0, visited@, flipped, rank, parent, order@, indices@, head as int);
                    assert forall|t: int| 0 <= t < f && #[trigger] v0[t] implies r0[t] < o0.len() by {
                        reveal(wind_ok);
                    }
                    lemma_roots_closed_children(orig, f as int, v0, r0, o0, fl0, p0, c0, visited@, flipped, rank, parent, order@, indices@, cur as int);
                    assert forall|t: int| 0 <= t < f && #[trigger] v0[t] && p0[t] >= 0 implies 0 <= p0[t] < f && v0[p0[t]] by {
                        reveal(wind_ok);
                    }
                    lemma_search_order_children(orig, f as int, v0, r0, o0, fl0, p0, c0, visited@, flipped, rank, parent, order@, indices@, cur as int);
                    reveal(wind_ok);
                    assert forall|t1: int, t2: int|
                        0 <= t1 < f && 0 <= t2 < f && visited@[t1] && rank[t1] < head + 1
                            && #[trigger] share_edge(orig, t1, t2) implies visited@[t2] by {
                        if rank[t1] == head {
                            assert(order@[rank[t1]] == t1);
                            assert(o0[head as int] == cur);
                            assert(t1 == cur);
                        }
                    }
                    assert forall|t: int| 0 <= t < start + 1 implies #[trigger] visited@[t] by {
                        assert(v0[t]);
                    }
                    assert forall|t: int| 0 <= t < f && visited@[t] && #[trigger] parent[t] >= 0 implies rank[parent[t]]
                        < head + 1 by {
                    }
                }
                head = head + 1;
            }
        }
    }
    proof {
        lemma_wind_done(orig, indices@, visited@, order@, flipped, rank, parent, flips as int);
    }
    flips
}

/// Closes the boundary holes of a mesh: the boundary edges (those on exactly
/// one triangle side), in order of first occurrence, are traced into loops,
/// at most `max_groups` of them, and each loop of `n` vertices is closed by a
/// fan of `n - 2` triangles appended to the index list. Returns the number of
/// holes filled.
pub fn fill_boundary_holes(indices: &mut Vec<u32>, max_groups: u32) -> (filled: u32)
    requires
        old(indices).len() < 3 || old(indices).len() % 3 == 0,
    ensures
        final(indices)@ == old(indices)@ + fans(boundary_loops(old(indices)@, max_groups as nat)),
        filled == boundary_loops(old(indices)@, max_groups as nat).len(),
{
    let ghost orig = indices@;
    let table = build_edge_table(indices);
    let b = boundary_of_table(&table, Ghost(orig));
    let n = b.len();
    let m = build_incidence(&b);
    let mut used: Vec<bool> = Vec::new();
    for q in 0..n
        invariant
            used.len() == q,
            forall|j: int| 0 <= j < q ==> !used@[j],
    {
        used.push(false);
    }
    let ghost mut found: Seq<Seq<u32>> = Seq::empty();
    let mut groups: u32 = 0;
    proof {
        assert(b@ == boundary_sequence(orig));
        assert(marked(used@) =~= Set::<int>::empty());
        assert(found + boundary_loops(orig, max_groups as nat) =~= boundary_loops(orig, max_groups as nat));
        assert(orig + fans(found) =~= orig);
    }
    for s in 0..n
        invariant
            n == b.len(),
            b@ == boundary_sequence(orig),
            incidence_exact(b@, n as int, m@),
            used.len() == n,
            groups == found.len(),
            groups <= max_groups,
            indices@ == orig + fans(found),
            boundary_loops(orig, max_groups as nat) == found + loops_from(
                b@,
                marked(used@),
                groups as nat,
                max_groups as nat,
                s as int,
            ),
    {
        let ghost u = marked(used@);
        let ghost rest = loops_from(b@, u, groups as nat, max_groups as nat, s + 1);
        if !used[s] && groups < max_groups {
            let start = b[s].0;
            let verts = trace_loop(&b, &m, &mut used, start);
            if verts.len() >= 3 {
                let ghost before = indices@;
                append_fan(indices, &verts);
                proof {
                    assert(found.push(verts@).drop_last() =~= found);
                    let nf = found.push(verts@);
                    assert(fans(nf) == fans(found) + fan(verts@));
                    assert(indices@ =~= orig + fans(nf));
                    assert(nf + loops_from(b@, marked(used@), (groups + 1) as nat, max_groups as nat, s + 1)
                        =~= found + (seq![verts@] + loops_from(b@, marked(used@), (groups + 1) as nat, max_groups as nat, s + 1)));
                    found = nf;
                }
                groups = groups + 1;
            }
        } else {
            proof {
                assert(u.contains(s as int) == used@[s as int]);
            }
        }
    }
    proof {
        assert(found + Seq::<Seq<u32>>::empty() =~= found);
    }
    groups
}

/// The index list after up to `passes` rounds of hole filling, each closing
/// up to `max_groups` holes and the rounds stopping after one that closes
/// none, and the number of holes closed in all.
pub open spec fn fill_passes(indices: Seq<u32>, max_groups: nat, passes: nat) -> (Seq<u32>, nat)
    decreases passes,
{
    if passes == 0 {
        (indices, 0)
    } else {
        let loops = boundary_loops(indices, max_groups);
        if loops.len() == 0 {
            (indices, 0)
        } else {
            let rest = fill_passes(indices + fans(loops), max_groups, (passes - 1) as nat);
            (rest.0, loops.len() + rest.1)
        }
    }
}

proof fn lemma_fans_whole(loops: Seq<Seq<u32>>)
    ensures
        fans(loops).len() % 3 == 0,
    decreases loops.len(),
{
    if loops.len() > 0 {
        lemma_fans_whole(loops.drop_last());
        let vs = loops.last();
        if vs.len() >= 3 {
            assert(fan(vs).len() == 3 * (vs.len() - 2));
        }
    }
}

proof fn lemma_short_list_has_no_holes(indices: Seq<u32>, max_groups: nat)
    requires
        indices.len() < 3,
    ensures
        boundary_loops(indices, max_groups).len() == 0,
{
    assert(crate::edges::mesh_edges(indices) =~= Seq::empty());
    assert(crate::edges::edge_set(indices) =~= Set::empty());
    assert(crate::edges::boundary_edge_set(indices) =~= Set::empty());
    crate::holes::lemma_closed_mesh_has_no_holes(indices, max_groups);
}

proof fn lemma_fill_keeps_whole(indices: Seq<u32>, max_groups: nat)
    requires
        indices.len() < 3 || indices.len() % 3 == 0,
    ensures
        ({
            let after = indices + fans(boundary_loops(indices, max_groups));
            after.len() < 3 || after.len() % 3 == 0
        }),
{
    lemma_fans_whole(boundary_loops(indices, max_groups));
    if indices.len() < 3 {
        lemma_short_list_has_no_holes(indices, max_groups);
    }
}

/// Repeated filling closes at most `max_groups` holes a round, and the list
/// only grows: what was there stays, the new fans come after it.
pub proof fn lemma_fill_passes_bounded(indices: Seq<u32>, max_groups: nat, passes: nat)
    ensures
        fill_passes(indices, max_groups, passes).1 <= passes * max_groups,
        fill_passes(indices, max_groups, passes).0.len() >= indices.len(),
        fill_passes(indices, max_groups, passes).0.subrange(0, indices.len() as int) == indices,
    decreases passes,
{
    if passes > 0 {
        let loops = boundary_loops(indices, max_groups);
        if loops.len() > 0 {
            let next = indices + fans(loops);
            crate::holes::lemma_fill_at_most_max_groups(indices, max_groups);
            lemma_fill_passes_bounded(next, max_groups, (passes - 1) as nat);
            let fin = fill_passes(next, max_groups, (passes - 1) as nat).0;
            assert(fin.subrange(0, indices.len() as int) =~= fin.subrange(0, next.len() as int).subrange(
                0,
                indices.len() as int,
            ));
            assert(next.subrange(0, indices.len() as int) =~= indices);
            assert(passes * max_groups == (passes - 1) * max_groups + max_groups) by (nonlinear_arith)
                requires
                    passes > 0,
            ;
        } else {
            assert(indices.subrange(0, indices.len() as int) =~= indices);
        }
    } else {
        assert(indices.subrange(0, indices.len() as int) =~= indices);
    }
}

/// Runs hole filling up to `max_passes` times, stopping after a pass that
/// closes no hole; returns the number of holes closed in all.
pub fn fill_holes_in_passes(indices: &mut Vec<u32>, max_passes: u32, max_groups: u32) -> (total: u32)
    requires
        old(indices).len() < 3 || old(indices).len() % 3 == 0,
        max_passes as nat * max_groups as nat <= u32::MAX as nat,
    ensures
        final(indices)@ == fill_passes(old(indices)@, max_groups as nat, max_passes as nat).0,
        total == fill_passes(old(indices)@, max_groups as nat, max_passes as nat).1,
{
    let ghost start = indices@;
    let ghost g = max_groups as nat;
    let mut total: u32 = 0;
    let mut pass: u32 = 0;
    while pass < max_passes
        invariant_except_break
            pass <= max_passes,
            g == max_groups as nat,
            indices.len() < 3 || indices.len() % 3 == 0,
            max_passes as nat * max_groups as nat <= u32::MAX as nat,
            total as nat <= pass as nat * max_groups as nat,
            fill_passes(start, g, max_passes as nat) == (
                fill_passes(indices@, g, (max_passes - pass) as nat).0,
                total as nat + fill_passes(indices@, g, (max_passes - pass) as nat).1,
            ),
        ensures
            indices@ == fill_passes(start, g, max_passes as nat).0,
            total == fill_passes(start, g, max_passes as nat).1,
        decreases max_passes - pass,
    {
        let ghost before = indices@;
        proof {
            lemma_fill_keeps_whole(before, g);
            crate::holes::lemma_fill_at_most_max_groups(before, g);
        }
        let filled = fill_boundary_holes(indices, max_groups);
        proof {
            assert((pass as nat + 1) * max_groups as nat == pass as nat * max_groups as nat
                + max_groups as nat) by (nonlinear_arith);
            assert((pass as nat + 1) * (max_groups as nat) <= (max_passes as nat) * (max_groups as nat))
                by (nonlinear_arith)
                requires
                    pass + 1 <= max_passes,
            ;
        }
        total = total + filled;
        pass = pass + 1;
        if filled == 0 {
            proof {
                assert(fans(boundary_loops(before, g)) =~= Seq::<u32>::empty());
                assert(indices@ =~= before);
            }
            break;
        }
    }
    total
}

/// The first `m` triangles of a flat index list that `keep` marks, in order.
pub open spec fn kept_indices(s: Seq<u32>, keep: Seq<bool>, m: int) -> Seq<u32>
    decreases m,
{
    if m <= 0 {
        Seq::empty()
    } else if keep[m - 1] {
        kept_indices(s, keep, m - 1) + s.subrange(3 * (m - 1), 3 * m)
    } else {
        kept_indices(s, keep, m - 1)
    }
}

/// `tri` is one of the first `m` triangles of `s` that are marked in `keep`.
pub open spec fn marked_triangle(s: Seq<u32>, keep: Seq<bool>, m: int, tri: (u32, u32, u32)) -> bool {
    exists|t: int| 0 <= t < m && keep[t] && #[trigger] tri_at(s, t) == tri
}

/// The triangles kept from the first `m`: three indices per triangle marked
/// in `keep`; each marked triangle is among them and each of them is a marked
/// triangle.
pub proof fn lemma_kept_triangles(s: Seq<u32>, keep: Seq<bool>, m: int)
    requires
        0 <= m <= keep.len(),
        3 * keep.len() <= s.len(),
    ensures
        kept_indices(s, keep, m).len() == 3 * count_true(keep.take(m)),
        forall|t: int|
            #![trigger tri_at(s, t)]
            0 <= t < m && keep[t] ==> exists|u: int|
                #![trigger tri_at(kept_indices(s, keep, m), u)]
                0 <= u && 3 * u + 3 <= kept_indices(s, keep, m).len() && tri_at(kept_indices(s, keep, m), u)
                    == tri_at(s, t),
        forall|u: int|
            0 <= u && 3 * u + 3 <= kept_indices(s, keep, m).len() ==> marked_triangle(
                s,
                keep,
                m,
                #[trigger] tri_at(kept_indices(s, keep, m), u),
            ),
    decreases m,
{
    if m > 0 {
        lemma_kept_triangles(s, keep, m - 1);
        let prev = kept_indices(s, keep, m - 1);
        let cur = kept_indices(s, keep, m);
        assert(keep.take(m).drop_last() =~= keep.take(m - 1));
        assert(keep.take(m).last() == keep[m - 1]);
        if keep[m - 1] {
            let piece = s.subrange(3 * (m - 1), 3 * m);
            assert(cur == prev + piece);
            assert forall|u: int| 0 <= u && 3 * u + 3 <= prev.len() implies #[trigger] tri_at(cur, u) == tri_at(
                prev,
                u,
            ) by {
                assert(cur[3 * u] == prev[3 * u]);
                assert(cur[3 * u + 1] == prev[3 * u + 1]);
                assert(cur[3 * u + 2] == prev[3 * u + 2]);
            }
            let last: int = (prev.len() / 3) as int;
            assert(3 * last == prev.len());
            assert(tri_at(cur, last) == tri_at(s, m - 1)) by {
                assert(cur[3 * last] == s[3 * (m - 1)]);
                assert(cur[3 * last + 1] == s[3 * (m - 1) + 1]);
                assert(cur[3 * last + 2] == s[3 * (m - 1) + 2]);
            }
            assert forall|t: int| 0 <= t < m && keep[t] implies exists|u: int|
                0 <= u && 3 * u + 3 <= cur.len() && #[trigger] tri_at(cur, u) == tri_at(s, t) by {
                if t < m - 1 {
                    let u = choose|u: int| 0 <= u && 3 * u + 3 <= prev.len() && #[trigger] tri_at(prev, u) == tri_at(s, t);
                    assert(tri_at(cur, u) == tri_at(prev, u));
                } else {
                    assert(tri_at(cur, last) == tri_at(s, t));
                }
            }
            assert forall|u: int|
                0 <= u && 3 * u + 3 <= kept_indices(s, keep, m).len() implies marked_triangle(
                s,
                keep,
                m,
                #[trigger] tri_at(kept_indices(s, keep, m), u),
            ) by {
                if 3 * u + 3 <= prev.len() {
                    assert(tri_at(cur, u) == tri_at(prev, u));
                    assert(marked_triangle(s, keep, m - 1, tri_at(prev, u)));
                    let t = choose|t: int| 0 <= t < m - 1 && keep[t] && #[trigger] tri_at(s, t) == tri_at(prev, u);
                    assert(tri_at(s, t) == tri_at(cur, u));
                } else {
                    assert(u == last);
                    assert(tri_at(s, m - 1) == tri_at(cur, u));
                }
            }
        } else {
            assert(cur == prev);
            assert forall|u: int|
                0 <= u && 3 * u + 3 <= kept_indices(s, keep, m).len() implies marked_triangle(
                s,
                keep,
                m,
                #[trigger] tri_at(kept_indices(s, keep, m), u),
            ) by {
                assert(0 <= u && 3 * u + 3 <= prev.len());
                assert(marked_triangle(s, keep, m - 1, tri_at(prev, u)));
                let t = choose|t: int| 0 <= t < m - 1 && keep[t] && #[trigger] tri_at(s, t) == tri_at(prev, u);
                assert(tri_at(s, t) == tri_at(cur, u));
            }
            assert forall|t: int| 0 <= t < m && keep[t] implies exists|u: int|
                0 <= u && 3 * u + 3 <= cur.len() && #[trigger] tri_at(cur, u) == tri_at(s, t) by {
                assert(t < m - 1);
                let u = choose|u: int| 0 <= u && 3 * u + 3 <= prev.len() && #[trigger] tri_at(prev, u) == tri_at(s, t);
                assert(tri_at(cur, u) == tri_at(s, t));
            }
        }
    } else {
        assert(kept_indices(s, keep, m).len() == 0);
    }
}

/// Keeps the triangles marked in `keep`, in order, and the indices after the
/// last complete triangle; returns how many triangles were dropped.
pub fn retain_triangles(indices: &mut Vec<u32>, keep: &Vec<bool>) -> (removed: u32)
    requires
        keep.len() == old(indices).len() / 3,
        old(indices).len() / 3 <= u32::MAX,
    ensures
        final(indices)@ == kept_indices(old(indices)@, keep@, keep.len() as int) + old(
            indices,
        )@.subrange(3 * keep.len(), old(indices).len() as int),
        removed == keep.len() - count_true(keep@),
        final(indices)@.len() + 3 * removed == old(indices)@.len(),
        forall|t: int|
            #![trigger tri_at(old(indices)@, t)]
            0 <= t < keep.len() && keep@[t] ==> exists|u: int|
                #![trigger tri_at(final(indices)@, u)]
                0 <= u && 3 * u + 3 <= final(indices)@.len() && tri_at(final(indices)@, u) == tri_at(
                    old(indices)@,
                    t,
                ),
        forall|u: int|
            0 <= u && 3 * u + 3 <= final(indices)@.len() - (old(indices)@.len() - 3 * keep.len())
                ==> marked_triangle(old(indices)@, keep@, keep.len() as int, #[trigger] tri_at(final(indices)@, u)),
{
    let ghost s = indices@;
    let n = keep.len();
    let mut out: Vec<u32> = Vec::new();
    let mut removed: u32 = 0;
    for t in 0..n
        invariant
            n == keep.len(),
            n == s.len() / 3,
            n == indices.len() / 3,
            n <= u32::MAX,
            indices@ == s,
            out@ == kept_indices(s, keep@, t as int),
            removed + count_true(keep@.take(t as int)) == t,
    {
        proof {
            assert(keep@.take(t + 1).drop_last() =~= keep@.take(t as int));
            assert(keep@.take(t + 1).last() == keep@[t as int]);
            lemma_count_true_bound(keep@.take(t as int));
        }
        assert(3 * t + 3 <= indices.len()) by (nonlinear_arith)
            requires
                t < n,
                n == indices.len() / 3,
        ;
        if keep[t] {
            let ghost before = out@;
            out.push(indices[3 * t]);
            out.push(indices[3 * t + 1]);
            out.push(indices[3 * t + 2]);
            proof {
                assert(out@ =~= before + s.subrange(3 * t, 3 * t + 3));
            }
        } else {
            removed = removed + 1;
        }
    }
    let len = indices.len();
    for q in 3 * n..len
        invariant
            n == keep.len(),
            len == s.len(),
            3 * n <= len,
            indices@ == s,
            out@ == kept_indices(s, keep@, n as int) + s.subrange(3 * n, q as int),
    {
        out.push(indices[q]);
        proof {
            assert(out@ =~= kept_indices(s, keep@, n as int) + s.subrange(3 * n, q + 1));
        }
    }
    proof {
        assert(keep@.take(n as int) =~= keep@);
        lemma_kept_triangles(s, keep@, n as int);
        let k = kept_indices(s, keep@, n as int);
        assert forall|u: int| 0 <= u && 3 * u + 3 <= k.len() implies #[trigger] tri_at(out@, u) == tri_at(k, u) by {
            assert(out@[3 * u] == k[3 * u]);
            assert(out@[3 * u + 1] == k[3 * u + 1]);
            assert(out@[3 * u + 2] == k[3 * u + 2]);
        }
        assert forall|t: int| 0 <= t < keep.len() && keep@[t] implies exists|u: int|
            0 <= u && 3 * u + 3 <= out@.len() && #[trigger] tri_at(out@, u) == tri_at(s, t) by {
            let u = choose|u: int| 0 <= u && 3 * u + 3 <= k.len() && #[trigger] tri_at(k, u) == tri_at(s, t);
            assert(tri_at(out@, u) == tri_at(k, u));
        }
        assert(out@.len() == k.len() + (s.len() - 3 * keep.len()));
        assert forall|u: int|
            0 <= u && 3 * u + 3 <= out@.len() - (s.len() - 3 * keep.len()) implies marked_triangle(
            s,
            keep@,
            keep.len() as int,
            #[trigger] tri_at(out@, u),
        ) by {
            assert(3 * u + 3 <= k.len());
            assert(tri_at(out@, u) == tri_at(k, u));
            assert(marked_triangle(s, keep@, n as int, tri_at(k, u)));
        }
    }
    *indices = out;
    removed
}

} // verus!
