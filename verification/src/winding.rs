//! Consistent winding of a triangle soup: breadth-first spreading of
//! orientation across edges that exactly two sides share.
use vstd::prelude::*;
use crate::repair::{count_true, chain_root};
use crate::flat::{
    SideTable, side_table_exact, side_count, triangle_count, mate_of, agrees, side_key, side_ok,
    build_side_table, mate_side, sides_agree, lemma_mate_symmetric, Point, same_point, f32_eq,
    side_start, side_end, corner_point,
};

verus! {

/// No segment bound lies after the smaller of two ranks and at or before the
/// larger: the two ranks fall in one segment.
pub open spec fn no_bound_between(bounds: Seq<usize>, r1: int, r2: int) -> bool {
    forall|c: int|
        0 <= c < bounds.len() ==> !(r1 < #[trigger] bounds[c] <= r2) && !(r2 < bounds[c] <= r1)
}

/// Triangle `t` was reached from its parent `parent[t]` across side `e` of
/// the parent, paired with a side `m` of `t`; `t` is reversed exactly when the
/// parent's side, in the parent's final orientation, does not run against `m`.
pub open spec fn parent_link(
    p: Seq<u32>,
    flip: Seq<bool>,
    bounds: Seq<usize>,
    rank: Seq<int>,
    parent: Seq<int>,
    t: int,
) -> bool {
    let q = parent[t];
    &&& 0 <= q < triangle_count(p)
    &&& rank[q] < rank[t]
    &&& no_bound_between(bounds, rank[q], rank[t])
    &&& exists|e: int|
        0 <= e < 3 && #[trigger] mate_of(p, 3 * q + e) is Some && mate_of(p, 3 * q + e)->0 / 3 == t
            && flip[t] == !agrees(p, 3 * q + e, flip[q], mate_of(p, 3 * q + e)->0)
}

/// Every triangle paired with `t` across an edge lies in the segment of `t`.
pub open spec fn mates_within(p: Seq<u32>, bounds: Seq<usize>, rank: Seq<int>, t: int) -> bool {
    forall|e: int|
        0 <= e < 3 && #[trigger] mate_of(p, 3 * t + e) is Some ==> no_bound_between(
            bounds,
            rank[t],
            rank[mate_of(p, 3 * t + e)->0 / 3],
        )
}

/// The segments of `order` that start at the positions in `bounds`, the last
/// running to the end.
pub open spec fn segments(order: Seq<usize>, bounds: Seq<usize>) -> Seq<Seq<usize>> {
    Seq::new(
        bounds.len(),
        |c: int|
            order.subrange(
                bounds[c] as int,
                if c + 1 < bounds.len() {
                    bounds[c + 1] as int
                } else {
                    order.len() as int
                },
            ),
    )
}

/// `flip` marks the triangles to reverse, and the segments of `order` at
/// `bounds` are the groups of triangles joined by paired sides: `order`
/// lists every triangle once (`rank` is its inverse); each segment starts with
/// its smallest triangle, which no earlier segment holds, keeps its winding
/// and has no parent; every other triangle has an earlier parent in its
/// segment (see `parent_link`), the first triangle in `order` with a side
/// paired to one of its own (see `parents_first`); within a segment the
/// order is breadth first, each parent's sides taken in order, and the
/// reversal follows the first side of the parent that reaches the triangle
/// (see `spread_in_order`); and paired triangles share a segment.
pub open spec fn is_winding_spread(
    p: Seq<u32>,
    flip: Seq<bool>,
    order: Seq<usize>,
    bounds: Seq<usize>,
    rank: Seq<int>,
    parent: Seq<int>,
) -> bool {
    let n = triangle_count(p);
    &&& flip.len() == n
    &&& rank.len() == n
    &&& parent.len() == n
    &&& forall|t: int| 0 <= t < n ==> 0 <= #[trigger] rank[t] < order.len() && order[rank[t]] == t
    &&& forall|q: int| 0 <= q < order.len() ==> (#[trigger] order[q]) < n && rank[order[q] as int] == q
    &&& forall|c1: int, c2: int| 0 <= c1 < c2 < bounds.len() ==> bounds[c1] < bounds[c2]
    &&& forall|c: int| 0 <= c < bounds.len() ==> #[trigger] bounds[c] < order.len()
    &&& order.len() > 0 ==> bounds.len() > 0 && bounds[0] == 0
    &&& forall|t: int|
        0 <= t < n ==> (#[trigger] parent[t] < 0 <==> exists|c: int|
            0 <= c < bounds.len() && bounds[c] == rank[t])
    &&& forall|t: int| 0 <= t < n && #[trigger] parent[t] < 0 ==> !flip[t]
    &&& forall|t: int|
        0 <= t < n && #[trigger] parent[t] >= 0 ==> parent_link(p, flip, bounds, rank, parent, t)
    &&& forall|t: int| 0 <= t < n ==> #[trigger] mates_within(p, bounds, rank, t)
    &&& forall|c: int, t: int|
        #![trigger bounds[c], rank[t]]
        0 <= c < bounds.len() && 0 <= t < order[bounds[c] as int] ==> rank[t] < bounds[c]
    &&& parents_first(p, Seq::new(n as nat, |t: int| true), rank, parent)
    &&& spread_in_order(p, Seq::new(n as nat, |t: int| true), flip, rank, parent)
}

/// A triangle's parent is the first triangle, in the order of the spreading,
/// with a side paired to one of its own: no visited triangle ranked before the
/// parent has a side paired with a side of it.
pub open spec fn parents_first(p: Seq<u32>, visited: Seq<bool>, rank: Seq<int>, parent: Seq<int>) -> bool {
    forall|t: int, t2: int, e: int|
        #![trigger parent[t], mate_of(p, 3 * t2 + e)]
        0 <= t < triangle_count(p) && 0 <= t2 < triangle_count(p) && visited[t] && parent[t] >= 0
            && visited[t2] && rank[t2] < rank[parent[t]] && 0 <= e < 3 && mate_of(p, 3 * t2 + e) is Some
            ==> mate_of(p, 3 * t2 + e)->0 / 3 != t
}

proof fn lemma_parents_first_root(
    p: Seq<u32>,
    v: Seq<bool>,
    fl: Seq<bool>,
    o: Seq<usize>,
    b: Seq<usize>,
    r: Seq<int>,
    par: Seq<int>,
    x: int,
)
    requires
        spread_ok(p, v, fl, o, b, r, par, o.len() as int),
        parents_first(p, v, r, par),
        0 <= x < triangle_count(p),
        !v[x],
    ensures
        parents_first(p, v.update(x, true), r.update(x, o.len() as int), par.update(x, -1)),
{
    reveal(spread_ok);
    let v1 = v.update(x, true);
    let r1 = r.update(x, o.len() as int);
    let p1 = par.update(x, -1);
    assert forall|t: int, t2: int, e: int|
        #![trigger p1[t], mate_of(p, 3 * t2 + e)]
        0 <= t < triangle_count(p) && 0 <= t2 < triangle_count(p) && v1[t] && p1[t] >= 0 && v1[t2]
            && r1[t2] < r1[p1[t]] && 0 <= e < 3 && mate_of(p, 3 * t2 + e) is Some
            implies mate_of(p, 3 * t2 + e)->0 / 3 != t by {
        assert(t != x);
        assert(parent_link(p, fl, b, r, par, t) && v[par[t]]);
        assert(par[t] != x);
        assert(r[par[t]] < o.len());
        assert(t2 != x);
    }
}

proof fn lemma_parents_first_mate(
    p: Seq<u32>,
    v: Seq<bool>,
    fl: Seq<bool>,
    o: Seq<usize>,
    b: Seq<usize>,
    r: Seq<int>,
    par: Seq<int>,
    head: int,
    u: int,
)
    requires
        spread_ok(p, v, fl, o, b, r, par, head),
        parents_first(p, v, r, par),
        head < o.len(),
        0 <= u < triangle_count(p),
        !v[u],
    ensures
        parents_first(p, v.update(u, true), r.update(u, o.len() as int), par.update(u, o[head] as int)),
{
    reveal(spread_ok);
    let v1 = v.update(u, true);
    let r1 = r.update(u, o.len() as int);
    let p1 = par.update(u, o[head] as int);
    let tri = o[head] as int;
    assert(tri < triangle_count(p) && r[tri] == head && v[tri]);
    assert(tri != u);
    assert forall|t: int, t2: int, e: int|
        #![trigger p1[t], mate_of(p, 3 * t2 + e)]
        0 <= t < triangle_count(p) && 0 <= t2 < triangle_count(p) && v1[t] && p1[t] >= 0 && v1[t2]
            && r1[t2] < r1[p1[t]] && 0 <= e < 3 && mate_of(p, 3 * t2 + e) is Some
            implies mate_of(p, 3 * t2 + e)->0 / 3 != t by {
        if t == u {
            assert(p1[t] == tri && r1[tri] == head);
            if t2 == u {
                assert(r1[t2] == o.len());
            }
            assert(t2 != u && v[t2] && r[t2] < head);
            assert(visited_mates(p, v, t2, e));
        } else {
            assert(v[t] && p1[t] == par[t]);
            assert(parent_link(p, fl, b, r, par, t) && v[par[t]]);
            assert(par[t] != u && r1[par[t]] == r[par[t]] && r[par[t]] < o.len());
            assert(t2 != u);
        }
    }
}

/// Side `e` of triangle `q` is paired with a side of triangle `t`.
pub open spec fn reaches(p: Seq<u32>, q: int, e: int, t: int) -> bool {
    mate_of(p, 3 * q + e) is Some && mate_of(p, 3 * q + e)->0 / 3 == t
}

/// The first side of triangle `q` that is paired with a side of `t` (`2`
/// when neither of the first two is).
pub open spec fn first_side_to(p: Seq<u32>, q: int, t: int) -> int {
    if reaches(p, q, 0, t) {
        0
    } else if reaches(p, q, 1, t) {
        1
    } else {
        2
    }
}

/// The visited triangles were reached breadth first, each parent's sides
/// taken in order: a triangle is reached across the first side of its parent
/// paired with one of its own, and is reversed exactly when that side, in
/// the parent's final orientation, does not run against its mate; children
/// of an earlier-ranked parent come first; and children of one parent come
/// in the order of the parent's sides that reach them.
pub open spec fn spread_in_order(
    p: Seq<u32>,
    visited: Seq<bool>,
    flip: Seq<bool>,
    rank: Seq<int>,
    parent: Seq<int>,
) -> bool {
    let n = triangle_count(p);
    &&& forall|t: int|
        0 <= t < n && visited[t] && #[trigger] parent[t] >= 0 ==> reaches(
            p,
            parent[t],
            first_side_to(p, parent[t], t),
            t,
        ) && flip[t] == !agrees(
            p,
            3 * parent[t] + first_side_to(p, parent[t], t),
            flip[parent[t]],
            mate_of(p, 3 * parent[t] + first_side_to(p, parent[t], t))->0,
        )
    &&& forall|t1: int, t2: int|
        #![trigger parent[t1], parent[t2]]
        0 <= t1 < n && 0 <= t2 < n && visited[t1] && visited[t2] && parent[t1] >= 0 && parent[t2]
            >= 0 && rank[parent[t1]] < rank[parent[t2]] ==> rank[t1] < rank[t2]
    &&& forall|t1: int, t2: int|
        #![trigger parent[t1], parent[t2]]
        0 <= t1 < n && 0 <= t2 < n && visited[t1] && visited[t2] && parent[t1] >= 0 && parent[t1]
            == parent[t2] && first_side_to(p, parent[t1], t1) < first_side_to(p, parent[t2], t2)
            ==> rank[t1] < rank[t2]
}

/// Starting a new segment adds a triangle with no parent.
proof fn lemma_in_order_root(
    p: Seq<u32>,
    v: Seq<bool>,
    fl: Seq<bool>,
    r: Seq<int>,
    par: Seq<int>,
    x: int,
    k: int,
)
    requires
        spread_in_order(p, v, fl, r, par),
        forall|t: int| 0 <= t < triangle_count(p) && v[t] && #[trigger] par[t] >= 0 ==> 0 <= par[t]
            < triangle_count(p) && v[par[t]],
        0 <= x < triangle_count(p),
        !v[x],
        v.len() == triangle_count(p),
        par.len() == triangle_count(p),
        r.len() == triangle_count(p),
    ensures
        spread_in_order(p, v.update(x, true), fl, r.update(x, k), par.update(x, -1)),
{
    let n = triangle_count(p);
    let v1 = v.update(x, true);
    let r1 = r.update(x, k);
    let p1 = par.update(x, -1);
    assert forall|t: int| 0 <= t < n && v1[t] && #[trigger] p1[t] >= 0 implies reaches(
        p,
        p1[t],
        first_side_to(p, p1[t], t),
        t,
    ) && fl[t] == !agrees(
        p,
        3 * p1[t] + first_side_to(p, p1[t], t),
        fl[p1[t]],
        mate_of(p, 3 * p1[t] + first_side_to(p, p1[t], t))->0,
    ) by {
        assert(t != x && v[t] && par[t] >= 0);
    }
    assert forall|t1: int, t2: int|
        #![trigger p1[t1], p1[t2]]
        0 <= t1 < n && 0 <= t2 < n && v1[t1] && v1[t2] && p1[t1] >= 0 && p1[t2] >= 0 && r1[p1[t1]]
            < r1[p1[t2]] implies r1[t1] < r1[t2] by {
        assert(t1 != x && t2 != x && par[t1] >= 0 && par[t2] >= 0);
        assert(v[par[t1]] && v[par[t2]]);
        assert(par[t1] != x && par[t2] != x);
        assert(r[par[t1]] < r[par[t2]]);
    }
    assert forall|t1: int, t2: int|
        #![trigger p1[t1], p1[t2]]
        0 <= t1 < n && 0 <= t2 < n && v1[t1] && v1[t2] && p1[t1] >= 0 && p1[t1] == p1[t2]
            && first_side_to(p, p1[t1], t1) < first_side_to(p, p1[t2], t2) implies r1[t1] < r1[t2] by {
        assert(t1 != x && t2 != x && par[t1] >= 0 && par[t1] == par[t2]);
    }
}

/// Visiting `u` across side `e` of the triangle `tri` being processed, when
/// the earlier sides of `tri` lead to visited triangles only and every
/// visited child of `tri` was reached across an earlier side.
proof fn lemma_in_order_mate(
    p: Seq<u32>,
    v: Seq<bool>,
    fl: Seq<bool>,
    r: Seq<int>,
    par: Seq<int>,
    tri: int,
    e: int,
    u: int,
    k: int,
    fu: bool,
)
    requires
        spread_in_order(p, v, fl, r, par),
        0 <= tri < triangle_count(p),
        v[tri],
        0 <= u < triangle_count(p),
        !v[u],
        0 <= e < 3,
        reaches(p, tri, e, u),
        forall|e2: int| 0 <= e2 < e && #[trigger] reaches(p, tri, e2, u) ==> v[u],
        fu == !agrees(p, 3 * tri + e, fl[tri], mate_of(p, 3 * tri + e)->0),
        forall|t: int| 0 <= t < triangle_count(p) && v[t] ==> #[trigger] r[t] < k,
        forall|t: int| 0 <= t < triangle_count(p) && v[t] && #[trigger] par[t] >= 0 ==> 0 <= par[t]
            < triangle_count(p) && v[par[t]] && (r[par[t]] < r[tri] || (par[t] == tri && first_side_to(
            p,
            tri,
            t,
        ) < e)),
        v.len() == triangle_count(p),
        par.len() == triangle_count(p),
        r.len() == triangle_count(p),
        fl.len() == triangle_count(p),
    ensures
        first_side_to(p, tri, u) == e,
        spread_in_order(p, v.update(u, true), fl.update(u, fu), r.update(u, k), par.update(u, tri)),
{
    let n = triangle_count(p);
    let v1 = v.update(u, true);
    let f1 = fl.update(u, fu);
    let r1 = r.update(u, k);
    let p1 = par.update(u, tri);
    assert(tri != u);
    assert(first_side_to(p, tri, u) == e) by {
        if e > 0 {
            assert(!reaches(p, tri, 0, u));
        }
        if e > 1 {
            assert(!reaches(p, tri, 1, u));
        }
    }
    assert forall|t: int| 0 <= t < n && v1[t] && #[trigger] p1[t] >= 0 implies reaches(
        p,
        p1[t],
        first_side_to(p, p1[t], t),
        t,
    ) && f1[t] == !agrees(
        p,
        3 * p1[t] + first_side_to(p, p1[t], t),
        f1[p1[t]],
        mate_of(p, 3 * p1[t] + first_side_to(p, p1[t], t))->0,
    ) by {
        if t != u {
            assert(v[t] && par[t] >= 0);
            assert(v[par[t]] && par[t] != u);
        }
    }
    assert forall|t1: int, t2: int|
        #![trigger p1[t1], p1[t2]]
        0 <= t1 < n && 0 <= t2 < n && v1[t1] && v1[t2] && p1[t1] >= 0 && p1[t2] >= 0 && r1[p1[t1]]
            < r1[p1[t2]] implies r1[t1] < r1[t2] by {
        if t1 == u {
            if t2 != u {
                assert(v[t2] && par[t2] >= 0 && v[par[t2]] && par[t2] != u);
                assert(r[par[t2]] <= r[tri]);
            }
        } else if t2 == u {
            assert(v[t1]);
        } else {
            assert(v[par[t1]] && v[par[t2]] && par[t1] != u && par[t2] != u);
        }
    }
    assert forall|t1: int, t2: int|
        #![trigger p1[t1], p1[t2]]
        0 <= t1 < n && 0 <= t2 < n && v1[t1] && v1[t2] && p1[t1] >= 0 && p1[t1] == p1[t2]
            && first_side_to(p, p1[t1], t1) < first_side_to(p, p1[t2], t2) implies r1[t1] < r1[t2] by {
        if t1 == u {
            if t2 != u {
                assert(v[t2] && par[t2] == tri);
                assert(first_side_to(p, tri, t2) < e);
            }
        } else if t2 == u {
            assert(v[t1]);
        } else {
            assert(par[t1] == par[t2]);
        }
    }
}

/// Side `e` of triangle `t2` has its mate, if any, on a visited triangle.
spec fn visited_mates(p: Seq<u32>, v: Seq<bool>, t2: int, e: int) -> bool {
    mate_of(p, 3 * t2 + e) is Some ==> v[mate_of(p, 3 * t2 + e)->0 / 3]
}

/// The bookkeeping of the spreading: visited triangles in `order`, segments
/// started at `bounds`, triangles ranked before `head` processed.
#[verifier::opaque]
pub open spec fn spread_ok(
    p: Seq<u32>,
    visited: Seq<bool>,
    flip: Seq<bool>,
    order: Seq<usize>,
    bounds: Seq<usize>,
    rank: Seq<int>,
    parent: Seq<int>,
    head: int,
) -> bool {
    let n = triangle_count(p);
    &&& p.len() <= usize::MAX
    &&& visited.len() == n
    &&& flip.len() == n
    &&& rank.len() == n
    &&& parent.len() == n
    &&& order.len() <= n
    &&& 0 <= head <= order.len()
    &&& forall|t: int|
        0 <= t < n && #[trigger] visited[t] ==> 0 <= rank[t] < order.len() && order[rank[t]] == t
    &&& forall|q: int|
        0 <= q < order.len() ==> (#[trigger] order[q]) < n && rank[order[q] as int] == q
            && visited[order[q] as int]
    &&& forall|t: int| 0 <= t < n && #[trigger] flip[t] ==> visited[t]
    &&& forall|c1: int, c2: int| 0 <= c1 < c2 < bounds.len() ==> bounds[c1] < bounds[c2]
    &&& forall|c: int| 0 <= c < bounds.len() ==> #[trigger] bounds[c] <= head && bounds[c] < order.len()
    &&& order.len() > 0 ==> bounds.len() > 0 && bounds[0] == 0
    &&& forall|t: int|
        0 <= t < n && #[trigger] visited[t] ==> (parent[t] < 0 <==> exists|c: int|
            0 <= c < bounds.len() && bounds[c] == rank[t])
    &&& forall|t: int| 0 <= t < n && visited[t] && #[trigger] parent[t] < 0 ==> !flip[t]
    &&& forall|t: int|
        0 <= t < n && visited[t] && #[trigger] parent[t] >= 0 ==> parent_link(
            p,
            flip,
            bounds,
            rank,
            parent,
            t,
        ) && visited[parent[t]]
    &&& forall|t: int|
        0 <= t < n && visited[t] && #[trigger] rank[t] < head ==> mates_within(p, bounds, rank, t)
            && forall|e: int|
            0 <= e < 3 && #[trigger] mate_of(p, 3 * t + e) is Some ==> visited[mate_of(
                p,
                3 * t + e,
            )->0 / 3]
    &&& forall|c: int, t: int|
        #![trigger bounds[c], rank[t]]
        #![trigger bounds[c], visited[t]]
        0 <= c < bounds.len() && 0 <= t < order[bounds[c] as int] ==> visited[t] && rank[t]
            < bounds[c]
}

/// Three sides per complete triangle, no more sides than coordinates.
proof fn lemma_side_count_bound(p: Seq<u32>)
    ensures
        side_count(p) == 3 * triangle_count(p),
        side_count(p) <= p.len(),
{
    assert(side_count(p) <= p.len()) by (nonlinear_arith)
        requires
            side_count(p) == 3 * (p.len() / 9) as int,
    ;
}

/// While a triangle is still unvisited, the order has room for it.
proof fn lemma_spread_room(
    p: Seq<u32>,
    v: Seq<bool>,
    fl: Seq<bool>,
    o: Seq<usize>,
    b: Seq<usize>,
    r: Seq<int>,
    par: Seq<int>,
    head: int,
    x: int,
)
    requires
        spread_ok(p, v, fl, o, b, r, par, head),
        0 <= x < triangle_count(p),
        !v[x],
    ensures
        o.len() < triangle_count(p),
{
    reveal(spread_ok);
    let n = triangle_count(p);
    let full = o.push(x as usize);
    assert forall|q: int| 0 <= q < o.len() implies #[trigger] o[q] != x as usize by {
        assert(v[o[q] as int]);
    }
    assert(full.no_duplicates()) by {
        assert forall|q1: int, q2: int|
            0 <= q1 < full.len() && 0 <= q2 < full.len() && q1 != q2 implies full[q1] != full[q2] by {
            if q1 < o.len() && q2 < o.len() {
                assert(r[o[q1] as int] == q1);
                assert(r[o[q2] as int] == q2);
            } else if q1 < o.len() {
                assert(full[q1] == o[q1]);
            } else {
                assert(full[q2] == o[q2]);
            }
        }
    }
    let all = Seq::new(n as nat, |t: int| t as usize);
    assert forall|q: int| 0 <= q < full.len() implies all.contains(#[trigger] full[q]) by {
        if q < o.len() {
            assert(o[q] < n);
        }
        assert(all[full[q] as int] == full[q]);
    }
    full.unique_seq_to_set();
    all.lemma_cardinality_of_set();
    vstd::seq_lib::seq_to_set_is_finite(all);
    assert(full.to_set().subset_of(all.to_set()));
    vstd::set_lib::lemma_len_subset(full.to_set(), all.to_set());
}

/// Starting a new segment at the smallest unvisited triangle.
#[verifier::rlimit(60)]
#[verifier::spinoff_prover]
proof fn lemma_visit_root(
    p: Seq<u32>,
    v: Seq<bool>,
    fl: Seq<bool>,
    o: Seq<usize>,
    b: Seq<usize>,
    r: Seq<int>,
    par: Seq<int>,
    x: int,
)
    requires
        spread_ok(p, v, fl, o, b, r, par, o.len() as int),
        0 <= x < triangle_count(p),
        !v[x],
        forall|t: int| 0 <= t < x ==> v[t],
        o.len() < triangle_count(p),
    ensures
        spread_ok(
            p,
            v.update(x, true),
            fl,
            o.push(x as usize),
            b.push(o.len() as usize),
            r.update(x, o.len() as int),
            par.update(x, -1),
            o.len() as int,
        ),
{
    reveal(spread_ok);
    let n = triangle_count(p);
    let head = o.len() as int;
    let v2 = v.update(x, true);
    let o2 = o.push(x as usize);
    let b2 = b.push(o.len() as usize);
    let r2 = r.update(x, o.len() as int);
    let par2 = par.update(x, -1);
    assert(!fl[x]);
    assert forall|t: int| 0 <= t < n && #[trigger] v2[t] implies 0 <= r2[t] < o2.len() && o2[r2[t]] == t by {
        if t != x {
            assert(v[t]);
        }
    }
    assert forall|q: int| 0 <= q < o2.len() implies (#[trigger] o2[q]) < n && r2[o2[q] as int] == q
        && v2[o2[q] as int] by {
        if q < o.len() {
            assert(o2[q] == o[q]);
            assert(v[o[q] as int]);
        }
    }
    assert forall|t: int| 0 <= t < n && #[trigger] v2[t] implies (par2[t] < 0 <==> exists|c: int|
        0 <= c < b2.len() && b2[c] == r2[t]) by {
        if t == x {
            assert(b2[b.len() as int] == r2[t]);
        } else {
            assert(v[t]);
            if exists|c: int| 0 <= c < b2.len() && b2[c] == r2[t] {
                let c = choose|c: int| 0 <= c < b2.len() && b2[c] == r2[t];
                assert(c < b.len());
                assert(b[c] == r[t]);
            }
            if exists|c: int| 0 <= c < b.len() && b[c] == r[t] {
                let c = choose|c: int| 0 <= c < b.len() && b[c] == r[t];
                assert(b2[c] == r2[t]);
            }
        }
    }
    assert forall|t: int| 0 <= t < n && v2[t] && #[trigger] par2[t] >= 0 implies parent_link(
        p,
        fl,
        b2,
        r2,
        par2,
        t,
    ) && v2[par2[t]] by {
        assert(t != x);
        assert(parent_link(p, fl, b, r, par, t));
        let q = par[t];
        assert(v[q]);
        assert(q != x);
        assert forall|c: int| 0 <= c < b2.len() implies !(r2[q] < #[trigger] b2[c] <= r2[t]) && !(r2[t]
            < b2[c] <= r2[q]) by {
            if c < b.len() {
                assert(b2[c] == b[c]);
            }
        }
    }
    assert forall|t: int| 0 <= t < n && v2[t] && #[trigger] r2[t] < head implies mates_within(
        p,
        b2,
        r2,
        t,
    ) && forall|e: int|
        0 <= e < 3 && #[trigger] mate_of(p, 3 * t + e) is Some ==> v2[mate_of(p, 3 * t + e)->0 / 3] by {
        assert(t != x);
        assert(v[t]);
        assert(mates_within(p, b, r, t));
        assert forall|e: int| 0 <= e < 3 && #[trigger] mate_of(p, 3 * t + e) is Some implies v2[mate_of(
            p,
            3 * t + e,
        )->0 / 3] by {
            lemma_side_count_bound(p);
            lemma_mate_symmetric(p, 3 * t + e);
            assert(v[mate_of(p, 3 * t + e)->0 / 3]);
        }
        assert forall|e: int| 0 <= e < 3 && #[trigger] mate_of(p, 3 * t + e) is Some implies no_bound_between(
            b2,
            r2[t],
            r2[mate_of(p, 3 * t + e)->0 / 3],
        ) by {
            let u = mate_of(p, 3 * t + e)->0 / 3;
            lemma_side_count_bound(p);
            lemma_mate_symmetric(p, 3 * t + e);
            assert(v[u]);
            assert(u != x);
            assert(0 <= r[u] < o.len());
            assert(0 <= r[t] < o.len());
            assert(no_bound_between(b, r[t], r[u]));
            assert forall|c: int| 0 <= c < b2.len() implies !(r2[t] < #[trigger] b2[c] <= r2[u]) && !(r2[u]
                < b2[c] <= r2[t]) by {
                if c < b.len() {
                    assert(b2[c] == b[c]);
                    assert(!(r[t] < b[c] <= r[u]) && !(r[u] < b[c] <= r[t]));
                }
            }
        }
    }
    assert forall|c: int, t: int|
        #![trigger b2[c], r2[t]]
        #![trigger b2[c], v2[t]]
        0 <= c < b2.len() && 0 <= t < o2[b2[c] as int] implies v2[t] && r2[t] < b2[c] by {
        if c < b.len() {
            assert(b2[c] == b[c]);
            assert(o2[b[c] as int] == o[b[c] as int]);
            assert(o[b[c] as int] < n);
            assert(v[t] && r[t] < b[c]);
            assert(t != x);
            assert(v2[t]);
        } else {
            assert(o2[b2[c] as int] == x);
            assert(v[t]);
            assert(t != x);
            assert(v2[t]);
        }
    }
    assert forall|c: int| 0 <= c < b2.len() implies #[trigger] b2[c] <= head && b2[c] < o2.len() by {
        if c < b.len() {
            assert(b2[c] == b[c]);
        }
    }
    assert forall|c1: int, c2: int| 0 <= c1 < c2 < b2.len() implies b2[c1] < b2[c2] by {
        if c2 < b.len() {
            assert(b2[c1] == b[c1] && b2[c2] == b[c2]);
        } else {
            assert(b2[c1] == b[c1]);
        }
    }
    assert forall|t: int| 0 <= t < n && #[trigger] fl[t] implies v2[t] by {
        assert(v[t]);
    }
    assert forall|t: int| 0 <= t < n && v2[t] && #[trigger] par2[t] < 0 implies !fl[t] by {
        if t != x {
            assert(v[t]);
        }
    }
    if b.len() == 0 {
        assert(o.len() == 0);
        assert(b2[0] == 0);
    } else {
        assert(b2[0] == b[0]);
    }
}

/// Visiting `u`, the triangle of side `m` paired with side `e` of the triangle
/// `tri` being processed: `u` is reversed when `tri`'s side does not run
/// against `m`.
#[verifier::rlimit(60)]
#[verifier::spinoff_prover]
proof fn lemma_visit_mate(
    p: Seq<u32>,
    v: Seq<bool>,
    fl: Seq<bool>,
    o: Seq<usize>,
    b: Seq<usize>,
    r: Seq<int>,
    par: Seq<int>,
    head: int,
    e: int,
    m: int,
    agree: bool,
)
    requires
        spread_ok(p, v, fl, o, b, r, par, head),
        head < o.len(),
        0 <= e < 3,
        mate_of(p, 3 * o[head] + e) == Some(m),
        !v[m / 3],
        agree == agrees(p, 3 * o[head] + e, fl[o[head] as int], m),
    ensures
        0 <= m / 3 < triangle_count(p),
        o[head] != m / 3,
        no_bound_between(b, head, o.len() as int),
        spread_ok(
            p,
            v.update(m / 3, true),
            fl.update(m / 3, !agree),
            o.push((m / 3) as usize),
            b,
            r.update(m / 3, o.len() as int),
            par.update(m / 3, o[head] as int),
            head,
        ),
{
    reveal(spread_ok);
    let n = triangle_count(p);
    let tri = o[head] as int;
    let u = m / 3;
    assert(tri < n && v[tri] && r[tri] == head);
    lemma_side_count_bound(p);
    lemma_mate_symmetric(p, 3 * tri + e);
    lemma_spread_room(p, v, fl, o, b, r, par, head, u);
    let v2 = v.update(u, true);
    let fl2 = fl.update(u, !agree);
    let o2 = o.push(u as usize);
    let r2 = r.update(u, o.len() as int);
    let par2 = par.update(u, tri);
    assert(!fl[u]);
    assert forall|c: int| 0 <= c < b.len() implies !(head < #[trigger] b[c] <= o.len()) && !(o.len()
        < b[c] <= head) by {
    }
    assert forall|t: int| 0 <= t < n && #[trigger] v2[t] implies 0 <= r2[t] < o2.len() && o2[r2[t]] == t by {
        if t != u {
            assert(v[t]);
        }
    }
    assert forall|q: int| 0 <= q < o2.len() implies (#[trigger] o2[q]) < n && r2[o2[q] as int] == q
        && v2[o2[q] as int] by {
        if q < o.len() {
            assert(o2[q] == o[q]);
            assert(v[o[q] as int]);
        }
    }
    assert forall|t: int| 0 <= t < n && #[trigger] fl2[t] implies v2[t] by {
        if t != u {
            assert(v[t]);
        }
    }
    assert forall|c: int| 0 <= c < b.len() implies #[trigger] b[c] <= head && b[c] < o2.len() by {
    }
    assert forall|t: int| 0 <= t < n && #[trigger] v2[t] implies (par2[t] < 0 <==> exists|c: int|
        0 <= c < b.len() && b[c] == r2[t]) by {
        if t != u {
            assert(v[t]);
        } else {
            assert forall|c: int| 0 <= c < b.len() implies b[c] != r2[t] by {
            }
        }
    }
    assert forall|t: int| 0 <= t < n && v2[t] && #[trigger] par2[t] < 0 implies !fl2[t] by {
        assert(t != u);
        assert(v[t]);
    }
    assert forall|t: int| 0 <= t < n && v2[t] && #[trigger] par2[t] >= 0 implies parent_link(
        p,
        fl2,
        b,
        r2,
        par2,
        t,
    ) && v2[par2[t]] by {
        if t == u {
            assert(mate_of(p, 3 * tri + e) is Some);
            assert(parent_link(p, fl2, b, r2, par2, t));
        } else {
            assert(v[t]);
            assert(parent_link(p, fl, b, r, par, t));
            let q = par[t];
            assert(v[q]);
            assert(q != u);
            let e2 = choose|e2: int|
                0 <= e2 < 3 && #[trigger] mate_of(p, 3 * q + e2) is Some && mate_of(p, 3 * q + e2)->0
                    / 3 == t && fl[t] == !agrees(p, 3 * q + e2, fl[q], mate_of(p, 3 * q + e2)->0);
            assert(fl2[t] == fl[t] && fl2[q] == fl[q]);
        }
    }
    assert forall|t: int| 0 <= t < n && v2[t] && #[trigger] r2[t] < head implies mates_within(
        p,
        b,
        r2,
        t,
    ) && forall|e2: int|
        0 <= e2 < 3 && #[trigger] mate_of(p, 3 * t + e2) is Some ==> v2[mate_of(p, 3 * t + e2)->0 / 3] by {
        assert(t != u);
        assert(v[t]);
        assert(mates_within(p, b, r, t));
        assert forall|e2: int| 0 <= e2 < 3 && #[trigger] mate_of(p, 3 * t + e2) is Some implies v2[mate_of(
            p,
            3 * t + e2,
        )->0 / 3] && no_bound_between(b, r2[t], r2[mate_of(p, 3 * t + e2)->0 / 3]) by {
            lemma_mate_symmetric(p, 3 * t + e2);
            let w = mate_of(p, 3 * t + e2)->0 / 3;
            assert(v[w]);
            assert(w != u);
        }
    }
    assert forall|c: int, t: int|
        #![trigger b[c], r2[t]]
        #![trigger b[c], v2[t]]
        0 <= c < b.len() && 0 <= t < o2[b[c] as int] implies v2[t] && r2[t] < b[c] by {
        assert(o2[b[c] as int] == o[b[c] as int]);
        assert(o[b[c] as int] < n);
        assert(v[t] && r[t] < b[c]);
        assert(t != u);
    }
}

/// The side `e` of the triangle being processed is paired with a visited
/// triangle of the same segment.
proof fn lemma_close_side(
    p: Seq<u32>,
    v: Seq<bool>,
    fl: Seq<bool>,
    o: Seq<usize>,
    b: Seq<usize>,
    r: Seq<int>,
    par: Seq<int>,
    head: int,
    e: int,
)
    requires
        spread_ok(p, v, fl, o, b, r, par, head),
        head < o.len(),
        0 <= e < 3,
        mate_of(p, 3 * o[head] + e) is Some,
        v[mate_of(p, 3 * o[head] + e)->0 / 3],
    ensures
        no_bound_between(b, r[o[head] as int], r[mate_of(p, 3 * o[head] + e)->0 / 3]),
{
    reveal(spread_ok);
    let tri = o[head] as int;
    let s = 3 * tri + e;
    let m = mate_of(p, s)->0;
    let u = m / 3;
    lemma_side_count_bound(p);
    lemma_mate_symmetric(p, s);
    assert(r[tri] == head);
    if r[u] < head {
        assert(mates_within(p, b, r, u));
        let e2 = m % 3;
        assert(3 * u + e2 == m);
        assert(mate_of(p, 3 * u + e2) is Some);
        assert(mate_of(p, 3 * u + e2)->0 / 3 == tri);
        assert(no_bound_between(b, r[u], r[tri]));
    } else {
        assert forall|c: int| 0 <= c < b.len() implies !(r[tri] < #[trigger] b[c] <= r[u]) && !(r[u]
            < b[c] <= r[tri]) by {
        }
    }
}

/// Once every side of the triangle at `head` is closed, it counts as processed.
proof fn lemma_advance_head(
    p: Seq<u32>,
    v: Seq<bool>,
    fl: Seq<bool>,
    o: Seq<usize>,
    b: Seq<usize>,
    r: Seq<int>,
    par: Seq<int>,
    head: int,
)
    requires
        spread_ok(p, v, fl, o, b, r, par, head),
        head < o.len(),
        forall|e: int|
            0 <= e < 3 && #[trigger] mate_of(p, 3 * o[head] + e) is Some ==> v[mate_of(
                p,
                3 * o[head] + e,
            )->0 / 3] && no_bound_between(b, r[o[head] as int], r[mate_of(p, 3 * o[head] + e)->0 / 3]),
    ensures
        spread_ok(p, v, fl, o, b, r, par, head + 1),
{
    reveal(spread_ok);
    let n = triangle_count(p);
    assert forall|t: int| 0 <= t < n && v[t] && #[trigger] r[t] < head + 1 implies mates_within(
        p,
        b,
        r,
        t,
    ) && forall|e: int|
        0 <= e < 3 && #[trigger] mate_of(p, 3 * t + e) is Some ==> v[mate_of(p, 3 * t + e)->0 / 3] by {
        if r[t] == head {
            assert(o[head] == t);
        }
    }
    assert forall|c: int| 0 <= c < b.len() implies #[trigger] b[c] <= head + 1 && b[c] < o.len() by {
    }
}

/// When every triangle is visited and processed, the spreading is complete.
proof fn lemma_spread_done(
    p: Seq<u32>,
    v: Seq<bool>,
    fl: Seq<bool>,
    o: Seq<usize>,
    b: Seq<usize>,
    r: Seq<int>,
    par: Seq<int>,
)
    requires
        spread_ok(p, v, fl, o, b, r, par, o.len() as int),
        parents_first(p, v, r, par),
        spread_in_order(p, v, fl, r, par),
        forall|t: int| 0 <= t < triangle_count(p) ==> v[t],
    ensures
        is_winding_spread(p, fl, o, b, r, par),
{
    reveal(spread_ok);
    let n = triangle_count(p);
    assert(v =~= Seq::new(n as nat, |t: int| true));
    assert forall|t: int| 0 <= t < n implies 0 <= #[trigger] r[t] < o.len() && o[r[t]] == t by {
        assert(v[t]);
    }
    assert forall|t: int| 0 <= t < n implies (#[trigger] par[t] < 0 <==> exists|c: int|
        0 <= c < b.len() && b[c] == r[t]) by {
        assert(v[t]);
    }
    assert forall|t: int| 0 <= t < n && #[trigger] par[t] < 0 implies !fl[t] by {
        assert(v[t]);
    }
    assert forall|t: int| 0 <= t < n && #[trigger] par[t] >= 0 implies parent_link(p, fl, b, r, par, t) by {
        assert(v[t]);
    }
    assert forall|t: int| 0 <= t < n implies #[trigger] mates_within(p, b, r, t) by {
        assert(v[t]);
        assert(r[t] < o.len());
    }
}

/// One visit of the spreading, seen from `spread_in_order`: the triangle `u`
/// reached across side `e` of the triangle at `head`.
proof fn lemma_in_order_step(
    p: Seq<u32>,
    v: Seq<bool>,
    fl: Seq<bool>,
    o: Seq<usize>,
    b: Seq<usize>,
    r: Seq<int>,
    par: Seq<int>,
    head: int,
    e: int,
    u: int,
    fu: bool,
)
    requires
        spread_ok(p, v, fl, o, b, r, par, head),
        spread_in_order(p, v, fl, r, par),
        head < o.len(),
        0 <= e < 3,
        0 <= u < triangle_count(p),
        !v[u],
        reaches(p, o[head] as int, e, u),
        fu == !agrees(p, 3 * o[head] + e, fl[o[head] as int], mate_of(p, 3 * o[head] + e)->0),
        forall|e2: int|
            0 <= e2 < e && #[trigger] mate_of(p, 3 * o[head] + e2) is Some ==> v[mate_of(
                p,
                3 * o[head] + e2,
            )->0 / 3],
        forall|t: int|
            0 <= t < triangle_count(p) && v[t] && #[trigger] par[t] >= 0 ==> r[par[t]] < head || (par[t]
                == o[head] && first_side_to(p, o[head] as int, t) < e),
    ensures
        spread_in_order(
            p,
            v.update(u, true),
            fl.update(u, fu),
            r.update(u, o.len() as int),
            par.update(u, o[head] as int),
        ),
        forall|t: int|
            0 <= t < triangle_count(p) && v.update(u, true)[t] && #[trigger] par.update(u, o[head] as int)[t]
                >= 0 ==> r.update(u, o.len() as int)[par.update(u, o[head] as int)[t]] < head || (par.update(
                u,
                o[head] as int,
            )[t] == o[head] && first_side_to(p, o[head] as int, t) < e + 1),
{
    reveal(spread_ok);
    let n = triangle_count(p);
    let tri = o[head] as int;
    assert(tri < n && v[tri] && r[tri] == head);
    assert forall|e2: int| 0 <= e2 < e && #[trigger] reaches(p, tri, e2, u) implies v[u] by {
        assert(mate_of(p, 3 * tri + e2) is Some);
    }
    assert forall|t: int| 0 <= t < n && v[t] implies #[trigger] r[t] < o.len() by {
    }
    assert forall|t: int| 0 <= t < n && v[t] && #[trigger] par[t] >= 0 implies 0 <= par[t] < n && v[par[t]]
        && (r[par[t]] < r[tri] || (par[t] == tri && first_side_to(p, tri, t) < e)) by {
        assert(parent_link(p, fl, b, r, par, t));
    }
    lemma_in_order_mate(p, v, fl, r, par, tri, e, u, o.len() as int, fu);
    let v1 = v.update(u, true);
    let r1 = r.update(u, o.len() as int);
    let p1 = par.update(u, tri);
    assert forall|t: int| 0 <= t < n && v1[t] && #[trigger] p1[t] >= 0 implies r1[p1[t]] < head || (p1[t]
        == tri && first_side_to(p, tri, t) < e + 1) by {
        if t != u {
            assert(v[t] && par[t] >= 0);
            assert(parent_link(p, fl, b, r, par, t));
            assert(v[par[t]] && par[t] != u);
        }
    }
}

/// The views of a list of lists.
pub open spec fn lists_view(v: Seq<Vec<usize>>) -> Seq<Seq<usize>> {
    v.map_values(|l: Vec<usize>| l@)
}

/// Cuts `order` into its segments at `bounds`.
fn cut_segments(order: &Vec<usize>, bounds: &Vec<usize>) -> (comps: Vec<Vec<usize>>)
    requires
        forall|c1: int, c2: int| 0 <= c1 < c2 < bounds.len() ==> bounds@[c1] < bounds@[c2],
        forall|c: int| 0 <= c < bounds.len() ==> #[trigger] bounds@[c] < order.len(),
    ensures
        lists_view(comps@) == segments(order@, bounds@),
{
    let k = bounds.len();
    let mut comps: Vec<Vec<usize>> = Vec::new();
    for c in 0..k
        invariant
            k == bounds.len(),
            forall|c1: int, c2: int| 0 <= c1 < c2 < bounds.len() ==> bounds@[c1] < bounds@[c2],
            forall|c: int| 0 <= c < bounds.len() ==> #[trigger] bounds@[c] < order.len(),
            lists_view(comps@) == segments(order@, bounds@).take(c as int),
    {
        let start = bounds[c];
        let end = if c + 1 < k {
            bounds[c + 1]
        } else {
            order.len()
        };
        let mut comp: Vec<usize> = Vec::new();
        for q in start..end
            invariant
                start <= end <= order.len(),
                comp@ == order@.subrange(start as int, q as int),
        {
            comp.push(order[q]);
            proof {
                assert(comp@ =~= order@.subrange(start as int, q + 1));
            }
        }
        let ghost before = lists_view(comps@);
        comps.push(comp);
        proof {
            assert(lists_view(comps@) =~= before.push(comp@));
            assert(segments(order@, bounds@).take(c + 1) =~= segments(order@, bounds@).take(
                c as int,
            ).push(comp@));
        }
    }
    proof {
        assert(segments(order@, bounds@).take(k as int) =~= segments(order@, bounds@));
    }
    comps
}

/// Spreads a consistent winding over the triangles of a soup, breadth first
/// from the smallest triangle not yet reached: a triangle reached across an
/// edge that exactly two sides share is marked for reversal when the side it
/// was reached across, in the orientation of the triangle it was reached
/// from, does not run against its own. Returns the reversal marks and the
/// groups of triangles so reached, each in the order reached.
#[verifier::rlimit(100)]
#[verifier::spinoff_prover]
pub fn propagate_winding(positions: &Vec<u32>) -> (r: (Vec<bool>, Vec<Vec<usize>>))
    ensures
        exists|order: Seq<usize>, bounds: Seq<usize>, rank: Seq<int>, parent: Seq<int>|
            #[trigger] is_winding_spread(positions@, r.0@, order, bounds, rank, parent) && lists_view(
                r.1@,
            ) == segments(order, bounds),
{
    let ghost p = positions@;
    let n = positions.len() / 9;
    let table = build_side_table(positions);
    let mut visited: Vec<bool> = Vec::new();
    let mut flip: Vec<bool> = Vec::new();
    for q in 0..n
        invariant
            visited.len() == q,
            flip.len() == q,
            forall|j: int| 0 <= j < q ==> !visited@[j] && !flip@[j],
    {
        visited.push(false);
        flip.push(false);
    }
    let mut order: Vec<usize> = Vec::new();
    let mut bounds: Vec<usize> = Vec::new();
    let ghost mut rank: Seq<int> = Seq::new(n as nat, |t: int| -1int);
    let ghost mut parent: Seq<int> = Seq::new(n as nat, |t: int| -1int);
    let mut head: usize = 0;
    proof {
        reveal(spread_ok);
        lemma_side_count_bound(p);
    }
    for seed in 0..n
        invariant
            p == positions@,
            n == triangle_count(p),
            side_count(p) <= positions.len(),
            side_table_exact(p, side_count(p), table.keys@, table.sides@),
            head == order.len(),
            visited.len() == n,
            flip.len() == n,
            spread_ok(p, visited@, flip@, order@, bounds@, rank, parent, head as int),
            parents_first(p, visited@, rank, parent),
            spread_in_order(p, visited@, flip@, rank, parent),
            forall|t: int| 0 <= t < n && visited@[t] && #[trigger] parent[t] >= 0 ==> rank[parent[t]] < head,
            forall|t: int| 0 <= t < seed ==> visited@[t],
    {
        if !visited[seed] {
            proof {
                lemma_spread_room(p, visited@, flip@, order@, bounds@, rank, parent, head as int, seed as int);
                lemma_visit_root(p, visited@, flip@, order@, bounds@, rank, parent, seed as int);
                lemma_parents_first_root(p, visited@, flip@, order@, bounds@, rank, parent, seed as int);
                reveal(spread_ok);
                lemma_in_order_root(p, visited@, flip@, rank, parent, seed as int, order.len() as int);
                assert forall|t: int| 0 <= t < n && visited@[t] && #[trigger] parent[t] >= 0 implies parent[t] != seed
                    && t != seed by {
                    assert(visited@[parent[t]]);
                }
                rank = rank.update(seed as int, order.len() as int);
                parent = parent.update(seed as int, -1);
            }
            bounds.push(order.len());
            visited.set(seed, true);
            order.push(seed);
            while head < order.len()
                invariant
                    p == positions@,
                    n == triangle_count(p),
                    side_count(p) <= positions.len(),
                    side_table_exact(p, side_count(p), table.keys@, table.sides@),
                    head <= order.len(),
                    visited.len() == n,
                    flip.len() == n,
                    spread_ok(p, visited@, flip@, order@, bounds@, rank, parent, head as int),
                    parents_first(p, visited@, rank, parent),
                    spread_in_order(p, visited@, flip@, rank, parent),
                    forall|t: int| 0 <= t < n && visited@[t] && #[trigger] parent[t] >= 0 ==> rank[parent[t]] < head,
                    forall|t: int| 0 <= t < seed + 1 ==> visited@[t],
                decreases n - head,
            {
                proof {
                    reveal(spread_ok);
                }
                let tri = order[head];
                for e in 0..3
                    invariant
                        p == positions@,
                        n == triangle_count(p),
                        side_count(p) <= positions.len(),
                        side_table_exact(p, side_count(p), table.keys@, table.sides@),
                        head < order.len(),
                        tri == order@[head as int],
                        tri < n,
                        visited.len() == n,
                        flip.len() == n,
                        spread_ok(p, visited@, flip@, order@, bounds@, rank, parent, head as int),
                        parents_first(p, visited@, rank, parent),
                        spread_in_order(p, visited@, flip@, rank, parent),
                        forall|t: int|
                            0 <= t < n && visited@[t] && #[trigger] parent[t] >= 0 ==> rank[parent[t]] < head
                                || (parent[t] == tri && first_side_to(p, tri as int, t) < e),
                        forall|t: int| 0 <= t < seed + 1 ==> visited@[t],
                        forall|e2: int|
                            0 <= e2 < e && #[trigger] mate_of(p, 3 * tri + e2) is Some ==> visited@[mate_of(
                                p,
                                3 * tri + e2,
                            )->0 / 3] && no_bound_between(
                                bounds@,
                                rank[tri as int],
                                rank[mate_of(p, 3 * tri + e2)->0 / 3],
                            ),
                {
                    let s = 3 * tri + e;
                    match mate_side(positions, &table, s) {
                        None => {},
                        Some(m) => {
                            let u = m / 3;
                            proof {
                                lemma_mate_symmetric(p, s as int);
                            }
                            if !visited[u] {
                                let agree = sides_agree(positions, s, flip[tri], m);
                                let ghost v0 = visited@;
                                let ghost r0 = rank;
                                proof {
                                    reveal(spread_ok);
                                    lemma_visit_mate(
                                        p,
                                        visited@,
                                        flip@,
                                        order@,
                                        bounds@,
                                        rank,
                                        parent,
                                        head as int,
                                        e as int,
                                        m as int,
                                        agree,
                                    );
                                    lemma_parents_first_mate(p, visited@, flip@, order@, bounds@, rank, parent, head as int, u as int);
                                    lemma_in_order_step(
                                        p,
                                        visited@,
                                        flip@,
                                        order@,
                                        bounds@,
                                        rank,
                                        parent,
                                        head as int,
                                        e as int,
                                        u as int,
                                        !agree,
                                    );
                                    rank = rank.update(u as int, order.len() as int);
                                    parent = parent.update(u as int, tri as int);
                                }
                                flip.set(u, !agree);
                                visited.set(u, true);
                                order.push(u);
                                proof {
                                    reveal(spread_ok);
                                    assert forall|e2: int|
                                        0 <= e2 < e + 1 && #[trigger] mate_of(p, 3 * tri + e2) is Some
                                            implies visited@[mate_of(p, 3 * tri + e2)->0 / 3]
                                        && no_bound_between(
                                        bounds@,
                                        rank[tri as int],
                                        rank[mate_of(p, 3 * tri + e2)->0 / 3],
                                    ) by {
                                        lemma_mate_symmetric(p, 3 * tri + e2);
                                        if e2 < e {
                                            let w = mate_of(p, 3 * tri + e2)->0 / 3;
                                            assert(v0[w]);
                                            assert(w != u);
                                            assert(rank[w] == r0[w]);
                                        }
                                    }
                                }
                            } else {
                                proof {
                                    lemma_close_side(
                                        p,
                                        visited@,
                                        flip@,
                                        order@,
                                        bounds@,
                                        rank,
                                        parent,
                                        head as int,
                                        e as int,
                                    );
                                }
                            }
                        },
                    }
                }
                proof {
                    lemma_advance_head(p, visited@, flip@, order@, bounds@, rank, parent, head as int);
                    reveal(spread_ok);
                    assert(rank[tri as int] == head);
                }
                head = head + 1;
            }
        }
    }
    proof {
        reveal(spread_ok);
        lemma_spread_done(p, visited@, flip@, order@, bounds@, rank, parent);
    }
    let comps = cut_segments(&order, &bounds);
    proof {
        assert(is_winding_spread(positions@, flip@, order@, bounds@, rank, parent));
        assert(lists_view(comps@) =~= segments(order@, bounds@));
    }
    let ghost fv = flip@;
    let ghost cv = comps@;
    let r = (flip, comps);
    proof {
        assert(r.0@ == fv && r.1@ == cv);
        assert(is_winding_spread(positions@, r.0@, order@, bounds@, rank, parent));
        assert(lists_view(r.1@) =~= segments(order@, bounds@));
    }
    r
}

/// Coordinate `i` after reversing the triangles marked in `flip`: a marked
/// triangle has its second and third corners exchanged.
pub open spec fn flipped_coord(p: Seq<u32>, flip: Seq<bool>, i: int) -> u32 {
    let t = i / 9;
    let k = i % 9;
    if t < triangle_count(p) && flip[t] && 3 <= k < 6 {
        p[i + 3]
    } else if t < triangle_count(p) && flip[t] && 6 <= k {
        p[i - 3]
    } else {
        p[i]
    }
}

/// The smallest group of triangles whose orientation is settled by a vote.
pub const MIN_COMPONENT_VOTE: usize = 4;

/// `flip` with the marks of the first `k` triangles listed in `g` inverted,
/// one after the other.
pub open spec fn toggled(flip: Seq<bool>, g: Seq<usize>, k: int) -> Seq<bool>
    decreases k,
{
    if k <= 0 {
        flip
    } else {
        let f = toggled(flip, g, k - 1);
        f.update(g[k - 1] as int, !f[g[k - 1] as int])
    }
}

/// `flip` after the first `k` groups have been voted on: a group of at least
/// `MIN_COMPONENT_VOTE` triangles whose outward votes are negative (more of
/// its triangles face its centroid than face away) has all its marks inverted.
pub open spec fn voted(flip: Seq<bool>, groups: Seq<Seq<usize>>, votes: Seq<i64>, k: int) -> Seq<bool>
    decreases k,
{
    if k <= 0 {
        flip
    } else {
        let f = voted(flip, groups, votes, k - 1);
        let g = groups[k - 1];
        if g.len() >= MIN_COMPONENT_VOTE && votes[k - 1] < 0 {
            toggled(f, g, g.len() as int)
        } else {
            f
        }
    }
}

/// Groups with no triangle twice and no triangle in two groups.
pub open spec fn groups_disjoint(groups: Seq<Seq<usize>>) -> bool {
    &&& forall|g: int| 0 <= g < groups.len() ==> (#[trigger] groups[g]).no_duplicates()
    &&& forall|g1: int, g2: int, t: usize|
        0 <= g1 < groups.len() && 0 <= g2 < groups.len() && g1 != g2 && #[trigger] groups[g1].contains(t)
            ==> !#[trigger] groups[g2].contains(t)
}

/// Inverting the marks of the first `k` triangles of `g`, none of them twice,
/// inverts exactly the marks of those triangles.
proof fn lemma_toggled_at(flip: Seq<bool>, g: Seq<usize>, k: int, t: usize)
    requires
        0 <= k <= g.len(),
        g.no_duplicates(),
        forall|i: int| 0 <= i < g.len() ==> (#[trigger] g[i]) < flip.len(),
        t < flip.len(),
    ensures
        toggled(flip, g, k).len() == flip.len(),
        toggled(flip, g, k)[t as int] == (flip[t as int] != g.take(k).contains(t)),
    decreases k,
{
    if k > 0 {
        lemma_toggled_at(flip, g, k - 1, t);
        let f = toggled(flip, g, k - 1);
        let x = g[k - 1];
        lemma_toggled_at(flip, g, k - 1, x);
        assert(g.take(k) =~= g.take(k - 1).push(x));
        if g.take(k - 1).contains(x) {
            let q = choose|q: int| 0 <= q < k - 1 && #[trigger] g.take(k - 1)[q] == x;
            assert(g[q] == g[k - 1]);
        }
        assert(g.take(k)[k - 1] == x);
        if t != x {
            if g.take(k).contains(t) {
                let q = choose|q: int| 0 <= q < k && #[trigger] g.take(k)[q] == t;
                assert(q < k - 1);
                assert(g.take(k - 1)[q] == t);
            }
        }
    } else {
        assert(g.take(0) =~= Seq::<usize>::empty());
    }
}

proof fn lemma_voted_upto(flip: Seq<bool>, groups: Seq<Seq<usize>>, votes: Seq<i64>, k: int, t: usize)
    requires
        0 <= k <= groups.len(),
        groups_disjoint(groups),
        forall|g: int, i: int| 0 <= g < groups.len() && 0 <= i < groups[g].len() ==> (#[trigger] groups[g][i]) < flip.len(),
        t < flip.len(),
    ensures
        voted(flip, groups, votes, k).len() == flip.len(),
        voted(flip, groups, votes, k)[t as int] == (flip[t as int] != exists|g: int|
            0 <= g < k && groups[g].len() >= 4 && votes[g] < 0 && #[trigger] groups[g].contains(t)),
    decreases k,
{
    if k > 0 {
        lemma_voted_upto(flip, groups, votes, k - 1, t);
        let f = voted(flip, groups, votes, k - 1);
        let g = groups[k - 1];
        if g.len() >= MIN_COMPONENT_VOTE && votes[k - 1] < 0 {
            assert(g.no_duplicates());
            assert forall|i: int| 0 <= i < g.len() implies (#[trigger] g[i]) < f.len() by {
                assert(groups[k - 1][i] < flip.len());
            }
            lemma_toggled_at(f, g, g.len() as int, t);
            assert(g.take(g.len() as int) =~= g);
            if g.contains(t) {
                assert forall|g2: int| 0 <= g2 < k - 1 implies !#[trigger] groups[g2].contains(t) by {
                }
            }
        }
    }
}

/// When no triangle is in two groups, or twice in one, voting inverts the
/// mark of exactly the triangles of the groups of at least four triangles
/// whose outward vote is negative, and leaves every other mark as it was.
pub proof fn lemma_voted_turns(flip: Seq<bool>, groups: Seq<Seq<usize>>, votes: Seq<i64>, t: usize)
    requires
        groups_disjoint(groups),
        forall|g: int, i: int| 0 <= g < groups.len() && 0 <= i < groups[g].len() ==> (#[trigger] groups[g][i]) < flip.len(),
        t < flip.len(),
    ensures
        voted(flip, groups, votes, groups.len() as int).len() == flip.len(),
        voted(flip, groups, votes, groups.len() as int)[t as int] == (flip[t as int] != exists|g: int|
            0 <= g < groups.len() && groups[g].len() >= 4 && votes[g] < 0 && #[trigger] groups[g].contains(t)),
{
    lemma_voted_upto(flip, groups, votes, groups.len() as int, t);
}

/// Applying the marks reverses exactly the marked triangles, each by
/// exchanging its second and third corners: the first corner stays, and an
/// unmarked triangle keeps all three.
pub proof fn lemma_flip_swaps_last_corners(p: Seq<u32>, flip: Seq<bool>, t: int)
    requires
        0 <= t < triangle_count(p),
    ensures
        ({
            let q = Seq::new(p.len(), |i: int| flipped_coord(p, flip, i));
            &&& corner_point(q, t, 0) == corner_point(p, t, 0)
            &&& corner_point(q, t, 1) == (if flip[t] {
                corner_point(p, t, 2)
            } else {
                corner_point(p, t, 1)
            })
            &&& corner_point(q, t, 2) == (if flip[t] {
                corner_point(p, t, 1)
            } else {
                corner_point(p, t, 2)
            })
        }),
{
    let q = Seq::new(p.len(), |i: int| flipped_coord(p, flip, i));
    assert(9 * t + 8 < p.len());
    assert((9 * t + 0) / 9 == t && (9 * t + 0) % 9 == 0);
    assert((9 * t + 1) / 9 == t && (9 * t + 1) % 9 == 1);
    assert((9 * t + 2) / 9 == t && (9 * t + 2) % 9 == 2);
    assert((9 * t + 3) / 9 == t && (9 * t + 3) % 9 == 3);
    assert((9 * t + 4) / 9 == t && (9 * t + 4) % 9 == 4);
    assert((9 * t + 5) / 9 == t && (9 * t + 5) % 9 == 5);
    assert((9 * t + 6) / 9 == t && (9 * t + 6) % 9 == 6);
    assert((9 * t + 7) / 9 == t && (9 * t + 7) % 9 == 7);
    assert((9 * t + 8) / 9 == t && (9 * t + 8) % 9 == 8);
    assert(q[9 * t] == flipped_coord(p, flip, 9 * t));
    assert(q[9 * t + 1] == flipped_coord(p, flip, 9 * t + 1));
    assert(q[9 * t + 2] == flipped_coord(p, flip, 9 * t + 2));
    assert(q[9 * t + 3] == flipped_coord(p, flip, 9 * t + 3));
    assert(q[9 * t + 4] == flipped_coord(p, flip, 9 * t + 4));
    assert(q[9 * t + 5] == flipped_coord(p, flip, 9 * t + 5));
    assert(q[9 * t + 6] == flipped_coord(p, flip, 9 * t + 6));
    assert(q[9 * t + 7] == flipped_coord(p, flip, 9 * t + 7));
    assert(q[9 * t + 8] == flipped_coord(p, flip, 9 * t + 8));
}

/// Turns around the groups that voted to face inward: each group of at least
/// `MIN_COMPONENT_VOTE` triangles whose outward vote count is negative has
/// the reversal marks of its triangles inverted.
pub fn turn_voted_groups(flip: &mut Vec<bool>, groups: &Vec<Vec<usize>>, outward_votes: &Vec<i64>)
    requires
        groups.len() == outward_votes.len(),
        forall|g: int, i: int|
            0 <= g < groups.len() && 0 <= i < groups@[g].len() ==> (#[trigger] groups@[g]@[i]) < old(
                flip,
            ).len(),
    ensures
        final(flip)@ == voted(old(flip)@, lists_view(groups@), outward_votes@, groups.len() as int),
        groups_disjoint(lists_view(groups@)) ==> forall|t: usize|
            t < old(flip).len() ==> #[trigger] final(flip)@[t as int] == (old(flip)@[t as int] != exists|g: int|
                0 <= g < groups.len() && groups@[g].len() >= 4 && outward_votes@[g] < 0
                    && #[trigger] groups@[g]@.contains(t)),
{
    let ghost start = flip@;
    proof {
        if groups_disjoint(lists_view(groups@)) {
            let gv = lists_view(groups@);
            assert forall|g: int, i: int| 0 <= g < gv.len() && 0 <= i < gv[g].len() implies (#[trigger] gv[g][i])
                < start.len() by {
                assert(gv[g] == groups@[g]@);
                assert(groups@[g]@[i] < start.len());
            }
            assert forall|t: usize| t < start.len() implies #[trigger] voted(start, gv, outward_votes@, gv.len() as int)[t as int]
                == (start[t as int] != exists|g: int|
                0 <= g < groups.len() && groups@[g].len() >= 4 && outward_votes@[g] < 0
                    && #[trigger] groups@[g]@.contains(t)) by {
                lemma_voted_turns(start, gv, outward_votes@, t);
                let a = exists|g: int|
                    0 <= g < gv.len() && gv[g].len() >= 4 && outward_votes@[g] < 0 && #[trigger] gv[g].contains(t);
                let b = exists|g: int|
                    0 <= g < groups.len() && groups@[g].len() >= 4 && outward_votes@[g] < 0
                        && #[trigger] groups@[g]@.contains(t);
                if a {
                    let g = choose|g: int|
                        0 <= g < gv.len() && gv[g].len() >= 4 && outward_votes@[g] < 0 && #[trigger] gv[g].contains(t);
                    assert(gv[g] == groups@[g]@);
                    assert(groups@[g]@.contains(t));
                }
                if b {
                    let g = choose|g: int|
                        0 <= g < groups.len() && groups@[g].len() >= 4 && outward_votes@[g] < 0
                            && #[trigger] groups@[g]@.contains(t);
                    assert(gv[g] == groups@[g]@);
                    assert(gv[g].contains(t));
                }
            }
        }
    }
    let ng = groups.len();
    let mut g: usize = 0;
    while g < ng
        invariant
            ng == groups.len(),
            ng == outward_votes.len(),
            0 <= g <= ng,
            flip.len() == start.len(),
            forall|g2: int, i: int|
                0 <= g2 < groups.len() && 0 <= i < groups@[g2].len() ==> (#[trigger] groups@[g2]@[i])
                    < start.len(),
            flip@ == voted(start, lists_view(groups@), outward_votes@, g as int),
        decreases ng - g,
    {
        let comp = &groups[g];
        assert(lists_view(groups@)[g as int] == comp@);
        if comp.len() >= MIN_COMPONENT_VOTE && outward_votes[g] < 0 {
            let ghost before = flip@;
            let m = comp.len();
            let mut i: usize = 0;
            while i < m
                invariant
                    m == comp.len(),
                    0 <= i <= m,
                    flip.len() == start.len(),
                    forall|q: int| 0 <= q < m ==> (#[trigger] comp@[q]) < start.len(),
                    flip@ == toggled(before, comp@, i as int),
                decreases m - i,
            {
                assert(comp@[i as int] < start.len());
                let t = comp[i];
                let cur = flip[t];
                flip.set(t, !cur);
                i += 1;
            }
        }
        g += 1;
    }
}

/// Reverses the triangles marked in `flip` by exchanging their second and
/// third corners. Returns the number of triangles reversed.
pub fn apply_winding_flips(positions: &mut Vec<u32>, flip: &Vec<bool>) -> (flipped: u32)
    requires
        flip.len() == old(positions).len() / 9,
        old(positions).len() / 9 <= u32::MAX,
    ensures
        final(positions)@ == Seq::new(
            old(positions)@.len(),
            |i: int| flipped_coord(old(positions)@, flip@, i),
        ),
        flipped == count_true(flip@),
{
    let ghost p = positions@;
    let n = positions.len() / 9;
    let mut flipped: u32 = 0;
    for t in 0..n
        invariant
            n == p.len() / 9,
            flip.len() == n,
            n <= u32::MAX,
            positions@.len() == p.len(),
            forall|i: int|
                0 <= i < p.len() ==> #[trigger] positions@[i] == if i < 9 * t {
                    flipped_coord(p, flip@, i)
                } else {
                    p[i]
                },
            flipped == count_true(flip@.take(t as int)),
            flipped <= t,
    {
        assert(9 * t + 9 <= positions.len()) by (nonlinear_arith)
            requires
                t < n,
                n == positions.len() / 9,
        ;
        let base = 9 * t;
        let ghost before = positions@;
        if flip[t] {
            for k in 0..3
                invariant
                    base == 9 * t,
                    9 * t + 9 <= positions.len(),
                    t < n,
                    n == p.len() / 9,
                    flip.len() == n,
                    flip@[t as int],
                    positions@.len() == p.len(),
                    forall|i: int|
                        0 <= i < p.len() ==> #[trigger] positions@[i] == if base + 3 <= i < base + 3 + k
                            || base + 6 <= i < base + 6 + k {
                            flipped_coord(p, flip@, i)
                        } else {
                            before[i]
                        },
                    forall|i: int|
                        base <= i < base + 9 ==> before[i] == p[i],
            {
                let a = positions[base + 3 + k];
                let b = positions[base + 6 + k];
                positions.set(base + 3 + k, b);
                positions.set(base + 6 + k, a);
                proof {
                    let i1 = base + 3 + k;
                    let i2 = base + 6 + k;
                    assert(i1 / 9 == t && i1 % 9 == 3 + k);
                    assert(i2 / 9 == t && i2 % 9 == 6 + k);
                }
            }
            flipped = flipped + 1;
        }
        proof {
            assert(flip@.take(t + 1).drop_last() =~= flip@.take(t as int));
            assert(flip@.take(t + 1).last() == flip@[t as int]);
            assert forall|i: int| 0 <= i < p.len() implies #[trigger] positions@[i] == if i < 9 * (t + 1) {
                flipped_coord(p, flip@, i)
            } else {
                p[i]
            } by {
                if 9 * t <= i < 9 * t + 9 {
                    assert(i / 9 == t);
                }
            }
        }
    }
    proof {
        assert(flip@.take(n as int) =~= flip@);
        assert forall|i: int| 0 <= i < p.len() implies #[trigger] positions@[i] == flipped_coord(
            p,
            flip@,
            i,
        ) by {
            if i >= 9 * n {
                assert(i / 9 >= n);
            }
        }
        assert(positions@ =~= Seq::new(p.len(), |i: int| flipped_coord(p, flip@, i)));
    }
    flipped
}

/// Reversing the same triangles twice gives back the soup as it was.
pub proof fn lemma_flips_involution(p: Seq<u32>, flip: Seq<bool>)
    requires
        flip.len() == triangle_count(p),
    ensures
        Seq::new(
            p.len(),
            |i: int| flipped_coord(Seq::new(p.len(), |j: int| flipped_coord(p, flip, j)), flip, i),
        ) == p,
{
    let q = Seq::new(p.len(), |j: int| flipped_coord(p, flip, j));
    assert(triangle_count(q) == triangle_count(p));
    assert forall|i: int| 0 <= i < p.len() implies #[trigger] flipped_coord(q, flip, i) == p[i] by {
        let t = i / 9;
        let k = i % 9;
        if t < triangle_count(p) && flip[t] && 3 <= k < 6 {
            assert((i + 3) / 9 == t && (i + 3) % 9 == k + 3);
            assert(i + 3 < p.len()) by (nonlinear_arith)
                requires
                    t == i / 9,
                    t < p.len() / 9,
                    k == i % 9,
                    k < 6,
                    0 <= i,
            ;
        } else if t < triangle_count(p) && flip[t] && 6 <= k {
            assert((i - 3) / 9 == t && (i - 3) % 9 == k - 3);
        }
    }
    assert(Seq::new(p.len(), |i: int| flipped_coord(q, flip, i)) =~= p);
}

/// Every side paired across an edge already runs against its mate.
pub open spec fn soup_consistent(p: Seq<u32>) -> bool {
    forall|s: int|
        0 <= s < 3 * triangle_count(p) && #[trigger] mate_of(p, s) is Some ==> agrees(
            p,
            s,
            false,
            mate_of(p, s)->0,
        )
}

proof fn lemma_spread_unflipped_below(
    p: Seq<u32>,
    flip: Seq<bool>,
    order: Seq<usize>,
    bounds: Seq<usize>,
    rank: Seq<int>,
    parent: Seq<int>,
    k: int,
)
    requires
        soup_consistent(p),
        is_winding_spread(p, flip, order, bounds, rank, parent),
        0 <= k,
    ensures
        forall|t: int| 0 <= t < triangle_count(p) && #[trigger] rank[t] < k ==> !flip[t],
    decreases k,
{
    if k > 0 {
        lemma_spread_unflipped_below(p, flip, order, bounds, rank, parent, k - 1);
        assert forall|t: int| 0 <= t < triangle_count(p) && #[trigger] rank[t] < k implies !flip[t] by {
            if rank[t] == k - 1 && parent[t] >= 0 {
                assert(parent_link(p, flip, bounds, rank, parent, t));
                let q = parent[t];
                assert(!flip[q]);
                let e = choose|e: int|
                    0 <= e < 3 && #[trigger] mate_of(p, 3 * q + e) is Some && mate_of(p, 3 * q + e)->0
                        / 3 == t && flip[t] == !agrees(p, 3 * q + e, flip[q], mate_of(p, 3 * q + e)->0);
                assert(0 <= 3 * q + e < 3 * triangle_count(p));
            }
        }
    }
}

/// Spreading windings over a soup whose paired sides already run against
/// each other reverses no triangle, so applying the flips leaves the soup as
/// it was.
pub proof fn lemma_consistent_soup_kept(
    p: Seq<u32>,
    flip: Seq<bool>,
    order: Seq<usize>,
    bounds: Seq<usize>,
    rank: Seq<int>,
    parent: Seq<int>,
)
    requires
        soup_consistent(p),
        is_winding_spread(p, flip, order, bounds, rank, parent),
    ensures
        count_true(flip) == 0,
        Seq::new(p.len(), |i: int| flipped_coord(p, flip, i)) == p,
{
    lemma_spread_unflipped_below(p, flip, order, bounds, rank, parent, order.len() as int);
    assert forall|t: int| 0 <= t < triangle_count(p) implies !flip[t] by {
        assert(rank[t] < order.len());
    }
    lemma_count_true_zero(flip);
    assert(Seq::new(p.len(), |i: int| flipped_coord(p, flip, i)) =~= p) by {
        assert forall|i: int| 0 <= i < p.len() implies flipped_coord(p, flip, i) == p[i] by {
            let t = i / 9;
            if t < triangle_count(p) {
                assert(!flip[t]);
            }
        }
    }
}

proof fn lemma_count_true_zero(s: Seq<bool>)
    requires
        forall|i: int| 0 <= i < s.len() ==> !s[i],
    ensures
        count_true(s) == 0,
    decreases s.len(),
{
    if s.len() > 0 {
        assert forall|i: int| 0 <= i < s.drop_last().len() implies !s.drop_last()[i] by {
            assert(s.drop_last()[i] == s[i]);
        }
        lemma_count_true_zero(s.drop_last());
        assert(!s[s.len() - 1]);
    }
}

/// Side `s` as a pair of points, run backwards when its triangle is turned.
pub open spec fn dir_side(p: Seq<u32>, s: int, turned: bool) -> (Point, Point) {
    if turned {
        (side_end(p, s), side_start(p, s))
    } else {
        (side_start(p, s), side_end(p, s))
    }
}

/// Side `s` of a triangle turned by `ts` and side `m` of a triangle turned by
/// `tm` run against each other.
pub open spec fn run_against(p: Seq<u32>, s: int, ts: bool, m: int, tm: bool) -> bool {
    same_point(dir_side(p, s, ts).0, dir_side(p, m, tm).1) && same_point(
        dir_side(p, s, ts).1,
        dir_side(p, m, tm).0,
    )
}

/// With triangle `t` turned where `turn[t]` holds, every two paired sides
/// run against each other.
pub open spec fn mates_agree(p: Seq<u32>, turn: Seq<bool>) -> bool {
    forall|s: int|
        0 <= s < 3 * triangle_count(p) && #[trigger] mate_of(p, s) is Some ==> run_against(
            p,
            s,
            turn[s / 3],
            mate_of(p, s)->0,
            turn[mate_of(p, s)->0 / 3],
        )
}

/// Some choice of triangles to turn makes every two paired sides run
/// against each other.
pub open spec fn soup_orientable(p: Seq<u32>) -> bool {
    exists|sigma: Seq<bool>| sigma.len() == triangle_count(p) && #[trigger] mates_agree(p, sigma)
}

proof fn lemma_f32_eq_per(a: u32, b: u32, c: u32)
    ensures
        f32_eq(a, b) ==> f32_eq(b, a),
        f32_eq(a, b) && f32_eq(b, c) ==> f32_eq(a, c),
{
    reveal(f32_eq);
}

proof fn lemma_same_point_per(a: Point, b: Point, c: Point)
    ensures
        same_point(a, b) ==> same_point(b, a),
        same_point(a, b) && same_point(b, c) ==> same_point(a, c),
{
    lemma_f32_eq_per(a.0, b.0, c.0);
    lemma_f32_eq_per(a.1, b.1, c.1);
    lemma_f32_eq_per(a.2, b.2, c.2);
}

/// Turning both triangles keeps two sides running against each other, and a
/// proper side runs against a side in at most one of its two directions.
proof fn lemma_run_against(p: Seq<u32>, s: int, ts: bool, m: int, tm: bool)
    ensures
        run_against(p, s, ts, m, tm) == run_against(p, s, !ts, m, !tm),
        side_ok(p, s) ==> !(run_against(p, s, ts, m, tm) && run_against(p, s, ts, m, !tm)),
{
    let a = side_start(p, s);
    let b = side_end(p, s);
    let c = side_start(p, m);
    let d = side_end(p, m);
    lemma_same_point_per(a, c, b);
    lemma_same_point_per(a, d, b);
    lemma_same_point_per(b, c, a);
    lemma_same_point_per(b, d, a);
    lemma_same_point_per(c, b, a);
    lemma_same_point_per(d, b, a);
    lemma_same_point_per(c, a, b);
    lemma_same_point_per(d, a, b);
    lemma_same_point_per(b, a, b);
    lemma_same_point_per(a, b, a);
}

proof fn lemma_spread_child(
    p: Seq<u32>,
    flip: Seq<bool>,
    order: Seq<usize>,
    bounds: Seq<usize>,
    rank: Seq<int>,
    parent: Seq<int>,
    sigma: Seq<bool>,
    t: int,
)
    requires
        is_winding_spread(p, flip, order, bounds, rank, parent),
        p.len() <= usize::MAX,
        sigma.len() == triangle_count(p),
        mates_agree(p, sigma),
        0 <= t < triangle_count(p),
        parent[t] >= 0,
    ensures
        (flip[t] != sigma[t]) == (flip[parent[t]] != sigma[parent[t]]),
{
    assert(parent_link(p, flip, bounds, rank, parent, t));
    let q = parent[t];
    let e = choose|e: int|
        0 <= e < 3 && #[trigger] mate_of(p, 3 * q + e) is Some && mate_of(p, 3 * q + e)->0 / 3 == t
            && flip[t] == !agrees(p, 3 * q + e, flip[q], mate_of(p, 3 * q + e)->0);
    let s = 3 * q + e;
    let m = mate_of(p, s)->0;
    assert(s / 3 == q);
    assert(0 <= s < 3 * triangle_count(p));
    assert(run_against(p, s, sigma[q], m, sigma[t]));
    assert(side_ok(p, s));
    lemma_run_against(p, s, sigma[q], m, sigma[t]);
    lemma_run_against(p, s, flip[q], m, false);
    assert(agrees(p, s, flip[q], m) == run_against(p, s, flip[q], m, false));
}

proof fn lemma_spread_root(
    p: Seq<u32>,
    flip: Seq<bool>,
    order: Seq<usize>,
    bounds: Seq<usize>,
    rank: Seq<int>,
    parent: Seq<int>,
    sigma: Seq<bool>,
    t: int,
    fuel: nat,
)
    requires
        is_winding_spread(p, flip, order, bounds, rank, parent),
        p.len() <= usize::MAX,
        sigma.len() == triangle_count(p),
        mates_agree(p, sigma),
        0 <= t < triangle_count(p),
        fuel > rank[t],
    ensures
        ({
            let r = chain_root(parent, t, fuel);
            &&& 0 <= r < triangle_count(p)
            &&& parent[r] < 0
            &&& rank[r] <= rank[t]
            &&& (flip[r] != sigma[r]) == (flip[t] != sigma[t])
            &&& no_bound_between(bounds, rank[r], rank[t])
        }),
    decreases fuel,
{
    if parent[t] >= 0 {
        assert(parent_link(p, flip, bounds, rank, parent, t));
        let q = parent[t];
        assert(0 <= rank[q] < order.len());
        lemma_spread_child(p, flip, order, bounds, rank, parent, sigma, t);
        lemma_spread_root(p, flip, order, bounds, rank, parent, sigma, q, (fuel - 1) as nat);
        let r = chain_root(parent, t, fuel);
        assert(r == chain_root(parent, q, (fuel - 1) as nat));
        assert forall|c: int| 0 <= c < bounds.len() implies !(rank[r] < #[trigger] bounds[c] <= rank[t])
            && !(rank[t] < bounds[c] <= rank[r]) by {
            assert(!(rank[r] < bounds[c] <= rank[q]));
            assert(!(rank[q] < bounds[c] <= rank[t]));
        }
    }
}

/// When some choice of triangles to turn makes every two paired sides of a
/// soup run against each other, the spread windings do so as well.
pub proof fn lemma_orientable_soup_consistent(
    p: Seq<u32>,
    flip: Seq<bool>,
    order: Seq<usize>,
    bounds: Seq<usize>,
    rank: Seq<int>,
    parent: Seq<int>,
)
    requires
        is_winding_spread(p, flip, order, bounds, rank, parent),
        soup_orientable(p),
        p.len() <= usize::MAX,
    ensures
        mates_agree(p, flip),
{
    let n = triangle_count(p);
    let sigma = choose|sigma: Seq<bool>| sigma.len() == triangle_count(p) && #[trigger] mates_agree(p, sigma);
    assert forall|s: int| 0 <= s < 3 * n && #[trigger] mate_of(p, s) is Some implies run_against(
        p,
        s,
        flip[s / 3],
        mate_of(p, s)->0,
        flip[mate_of(p, s)->0 / 3],
    ) by {
        let m = mate_of(p, s)->0;
        lemma_mate_symmetric(p, s);
        let t1 = s / 3;
        let t2 = m / 3;
        assert(0 <= t1 < n && 0 <= t2 < n);
        assert(s == 3 * t1 + s % 3);
        assert(mates_within(p, bounds, rank, t1));
        assert(mate_of(p, 3 * t1 + s % 3) is Some);
        assert(no_bound_between(bounds, rank[t1], rank[t2]));
        lemma_spread_root(p, flip, order, bounds, rank, parent, sigma, t1, order.len() as nat);
        lemma_spread_root(p, flip, order, bounds, rank, parent, sigma, t2, order.len() as nat);
        let r1 = chain_root(parent, t1, order.len() as nat);
        let r2 = chain_root(parent, t2, order.len() as nat);
        let c1 = choose|c: int| 0 <= c < bounds.len() && bounds[c] == rank[r1];
        let c2 = choose|c: int| 0 <= c < bounds.len() && bounds[c] == rank[r2];
        if rank[r1] < rank[r2] {
            if rank[r2] <= rank[t1] {
                assert(rank[r1] < bounds[c2] <= rank[t1]);
            } else if rank[t1] < rank[t2] {
                assert(rank[t1] < bounds[c2] <= rank[t2]);
            } else {
                assert(rank[t2] < bounds[c2] <= rank[t1]);
            }
        }
        if rank[r2] < rank[r1] {
            if rank[r1] <= rank[t2] {
                assert(rank[r2] < bounds[c1] <= rank[t2]);
            } else if rank[t2] < rank[t1] {
                assert(rank[t2] < bounds[c1] <= rank[t1]);
            } else {
                assert(rank[t1] < bounds[c1] <= rank[t2]);
            }
        }
        assert(order[rank[r1]] == r1 && order[rank[r2]] == r2);
        assert(r1 == r2);
        assert(run_against(p, s, sigma[t1], m, sigma[t2]));
        lemma_run_against(p, s, sigma[t1], m, sigma[t2]);
    }
}

} // verus!
