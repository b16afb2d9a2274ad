//! Integer core of the raft under a support structure: the spanning tree of
//! its line connections, the cavity step of its Delaunay triangulation, and
//! the list of its lines.
use vstd::prelude::*;

verus! {

/// One more than the largest endpoint of `edges`, or 0 when there is none.
pub open spec fn vertex_count(edges: Seq<(usize, usize)>) -> nat
    decreases edges.len(),
{
    if edges.len() == 0 {
        0
    } else {
        let rest = vertex_count(edges.drop_last());
        let e = edges.last();
        let top = if e.0 >= e.1 {
            e.0 as nat + 1
        } else {
            e.1 as nat + 1
        };
        if top > rest {
            top
        } else {
            rest
        }
    }
}

/// Every vertex in a component of its own, labelled by itself.
pub open spec fn singletons(n: nat) -> Seq<usize> {
    Seq::new(n, |i: int| i as usize)
}

/// Every vertex labelled `from` takes the label `to`.
pub open spec fn relabel(lab: Seq<usize>, from: usize, to: usize) -> Seq<usize> {
    lab.map_values(|l: usize| if l == from { to } else { l })
}

/// The component labels and the tree edges after Kruskal's greedy pass over
/// the first `k` edges, which come in order of weight: an edge joins the
/// tree exactly when its ends lie in different components so far.
pub open spec fn kruskal(n: nat, edges: Seq<(usize, usize)>, k: int) -> (Seq<usize>, Seq<(usize, usize)>)
    decreases k,
{
    if k <= 0 {
        (singletons(n), Seq::empty())
    } else {
        let prev = kruskal(n, edges, k - 1);
        let e = edges[k - 1];
        let la = prev.0[e.0 as int];
        let lb = prev.0[e.1 as int];
        if la == lb {
            prev
        } else {
            (relabel(prev.0, lb, la), prev.1.push(e))
        }
    }
}

/// Each label names a vertex that carries its own label.
pub open spec fn labels_ok(lab: Seq<usize>) -> bool {
    forall|x: int|
        0 <= x < lab.len() ==> (#[trigger] lab[x]) < lab.len() && lab[lab[x] as int] == lab[x]
}

/// The number of vertices below `m` that label themselves: one per component.
pub open spec fn root_count(lab: Seq<usize>, m: int) -> nat
    decreases m,
{
    if m <= 0 {
        0
    } else {
        root_count(lab, m - 1) + if lab[m - 1] == (m - 1) as usize {
            1nat
        } else {
            0nat
        }
    }
}

proof fn lemma_vertex_count_bounds(edges: Seq<(usize, usize)>)
    ensures
        vertex_count(edges) <= usize::MAX as nat + 1,
        forall|j: int|
            0 <= j < edges.len() ==> (#[trigger] edges[j]).0 < vertex_count(edges) && edges[j].1
                < vertex_count(edges),
    decreases edges.len(),
{
    if edges.len() > 0 {
        lemma_vertex_count_bounds(edges.drop_last());
        assert forall|j: int| 0 <= j < edges.len() implies (#[trigger] edges[j]).0 < vertex_count(
            edges,
        ) && edges[j].1 < vertex_count(edges) by {
            if j < edges.len() - 1 {
                assert(edges[j] == edges.drop_last()[j]);
            }
        }
    }
}

proof fn lemma_relabel_ok(lab: Seq<usize>, from: usize, to: usize)
    requires
        labels_ok(lab),
        to < lab.len(),
        lab[to as int] == to,
        from != to,
    ensures
        labels_ok(relabel(lab, from, to)),
{
    let nl = relabel(lab, from, to);
    assert forall|x: int| 0 <= x < nl.len() implies (#[trigger] nl[x]) < nl.len() && nl[nl[x] as int]
        == nl[x] by {
        assert(lab[x] < lab.len());
        assert(lab[lab[x] as int] == lab[x]);
    }
}

proof fn lemma_relabel_roots(lab: Seq<usize>, from: usize, to: usize, m: int)
    requires
        labels_ok(lab),
        from < lab.len(),
        to < lab.len(),
        lab[from as int] == from,
        lab[to as int] == to,
        from != to,
        0 <= m <= lab.len(),
        lab.len() <= usize::MAX as nat + 1,
    ensures
        root_count(relabel(lab, from, to), m) + (if (from as int) < m {
            1int
        } else {
            0int
        }) == root_count(lab, m),
    decreases m,
{
    if m > 0 {
        lemma_relabel_roots(lab, from, to, m - 1);
        let x = m - 1;
        let nl = relabel(lab, from, to);
        assert((x as usize) as int == x);
        assert(lab[x] < lab.len());
        assert(lab[lab[x] as int] == lab[x]);
        assert(nl[x] == (if lab[x] == from {
            to
        } else {
            lab[x]
        }));
        if x == from as int {
            assert(nl[x] != x as usize);
        } else if lab[x] == from {
            assert(lab[x] != x as usize);
            assert(nl[x] != x as usize);
        } else {
            assert(nl[x] == lab[x]);
        }
        assert(root_count(nl, m) == root_count(nl, m - 1) + if nl[x] == x as usize {
            1nat
        } else {
            0nat
        });
    }
}

proof fn lemma_singleton_roots(n: nat, m: int)
    requires
        n <= usize::MAX as nat + 1,
        0 <= m <= n,
    ensures
        root_count(singletons(n), m) == m,
    decreases m,
{
    if m > 0 {
        lemma_singleton_roots(n, m - 1);
    }
}

proof fn lemma_root_exists(lab: Seq<usize>, r: int, m: int)
    requires
        0 <= r < m <= lab.len(),
        lab[r] == r as usize,
    ensures
        root_count(lab, m) >= 1,
    decreases m,
{
    if r < m - 1 {
        lemma_root_exists(lab, r, m - 1);
    }
}

proof fn lemma_kruskal_steps(n: nat, edges: Seq<(usize, usize)>, k: int)
    requires
        n <= usize::MAX as nat + 1,
        0 <= k <= edges.len(),
        forall|j: int| 0 <= j < edges.len() ==> (#[trigger] edges[j]).0 < n && edges[j].1 < n,
    ensures
        kruskal(n, edges, k).0.len() == n,
        labels_ok(kruskal(n, edges, k).0),
        kruskal(n, edges, k).1.len() + root_count(kruskal(n, edges, k).0, n as int) == n,
        forall|j: int|
            0 <= j < k ==> kruskal(n, edges, k).0[(#[trigger] edges[j]).0 as int] == kruskal(
                n,
                edges,
                k,
            ).0[edges[j].1 as int],
        forall|i: int|
            0 <= i < kruskal(n, edges, k).1.len() ==> exists|j: int|
                0 <= j < k && #[trigger] kruskal(n, edges, k).1[i] == edges[j],
    decreases k,
{
    if k == 0 {
        lemma_singleton_roots(n, n as int);
    } else {
        lemma_kruskal_steps(n, edges, k - 1);
        let prev = kruskal(n, edges, k - 1);
        let e = edges[k - 1];
        let la = prev.0[e.0 as int];
        let lb = prev.0[e.1 as int];
        assert(la < n && prev.0[la as int] == la);
        assert(lb < n && prev.0[lb as int] == lb);
        if la != lb {
            lemma_relabel_ok(prev.0, lb, la);
            lemma_relabel_roots(prev.0, lb, la, n as int);
            let cur = kruskal(n, edges, k);
            assert forall|j: int| 0 <= j < k implies cur.0[(#[trigger] edges[j]).0 as int]
                == cur.0[edges[j].1 as int] by {
                if j < k - 1 {
                    assert(prev.0[edges[j].0 as int] == prev.0[edges[j].1 as int]);
                }
            }
            assert forall|i: int| 0 <= i < cur.1.len() implies exists|j: int|
                0 <= j < k && #[trigger] cur.1[i] == edges[j] by {
                if i < prev.1.len() {
                    let j = choose|j: int| 0 <= j < k - 1 && #[trigger] prev.1[i] == edges[j];
                    assert(cur.1[i] == edges[j]);
                } else {
                    assert(cur.1[i] == edges[k - 1]);
                }
            }
        } else {
            let cur = kruskal(n, edges, k);
            assert forall|i: int| 0 <= i < cur.1.len() implies exists|j: int|
                0 <= j < k && #[trigger] cur.1[i] == edges[j] by {
                let j = choose|j: int| 0 <= j < k - 1 && #[trigger] prev.1[i] == edges[j];
            }
        }
    }
}

/// Kruskal's pass keeps one edge per merge of two components: the tree has
/// as many edges as there are vertices less the components left (so at most
/// one fewer than the vertices, and exactly one fewer when all of them end
/// up connected), every tree edge is an input edge, and the two ends of every
/// input edge end up in one component.
pub proof fn lemma_spanning_forest(edges: Seq<(usize, usize)>)
    ensures
        ({
            let n = vertex_count(edges);
            let (lab, tree) = kruskal(n, edges, edges.len() as int);
            &&& tree.len() + root_count(lab, n as int) == n
            &&& n > 0 ==> root_count(lab, n as int) >= 1
            &&& forall|i: int|
                0 <= i < tree.len() ==> exists|j: int|
                    0 <= j < edges.len() && #[trigger] tree[i] == edges[j]
            &&& forall|j: int|
                0 <= j < edges.len() ==> lab[(#[trigger] edges[j]).0 as int] == lab[edges[j].1 as int]
        }),
{
    let n = vertex_count(edges);
    lemma_vertex_count_bounds(edges);
    lemma_kruskal_steps(n, edges, edges.len() as int);
    let lab = kruskal(n, edges, edges.len() as int).0;
    if n > 0 {
        assert(lab[0] < n && lab[lab[0] as int] == lab[0]);
        lemma_root_exists(lab, lab[0] as int, n as int);
    }
}

fn relabel_in_place(lab: &mut Vec<usize>, from: usize, to: usize)
    ensures
        final(lab)@ == relabel(old(lab)@, from, to),
{
    let ghost before = lab@;
    let n = lab.len();
    let mut x: usize = 0;
    while x < n
        invariant
            n == lab.len(),
            before.len() == n,
            0 <= x <= n,
            forall|i: int|
                0 <= i < x ==> lab@[i] == (if before[i] == from {
                    to
                } else {
                    before[i]
                }),
            forall|i: int| x <= i < n ==> lab@[i] == before[i],
        decreases n - x,
    {
        if lab[x] == from {
            lab.set(x, to);
        }
        x += 1;
    }
    assert(lab@ =~= relabel(before, from, to));
}

/// The edges that Kruskal's algorithm keeps from `edges`, which come sorted
/// by ascending weight: each edge whose ends are not yet connected by the
/// edges kept before it.
pub fn minimum_spanning_tree(edges: &Vec<(usize, usize)>) -> (tree: Vec<(usize, usize)>)
    requires
        forall|j: int|
            0 <= j < edges.len() ==> (#[trigger] edges@[j]).0 < usize::MAX && edges@[j].1 < usize::MAX,
    ensures
        tree@ == kruskal(vertex_count(edges@), edges@, edges.len() as int).1,
{
    let m = edges.len();
    proof {
        lemma_vertex_count_bounds(edges@);
    }
    if m == 0 {
        return Vec::new();
    }
    let mut n: usize = 0;
    let mut k: usize = 0;
    while k < m
        invariant
            m == edges.len(),
            0 <= k <= m,
            n as nat == vertex_count(edges@.take(k as int)),
            forall|j: int|
                0 <= j < edges.len() ==> (#[trigger] edges@[j]).0 < usize::MAX && edges@[j].1
                    < usize::MAX,
        decreases m - k,
    {
        proof {
            lemma_vertex_count_bounds(edges@.take(k as int + 1));
            assert(edges@.take(k as int + 1).drop_last() =~= edges@.take(k as int));
            assert(edges@.take(k as int + 1)[k as int] == edges@[k as int]);
        }
        let (a, b) = edges[k];
        let top = if a >= b {
            a + 1
        } else {
            b + 1
        };
        if top > n {
            n = top;
        }
        k += 1;
    }
    assert(edges@.take(m as int) =~= edges@);
    let ghost nv = vertex_count(edges@);
    let mut lab: Vec<usize> = Vec::new();
    let mut i: usize = 0;
    while i < n
        invariant
            0 <= i <= n,
            lab@ =~= singletons(i as nat),
        decreases n - i,
    {
        lab.push(i);
        i += 1;
    }
    let mut tree: Vec<(usize, usize)> = Vec::new();
    let mut k: usize = 0;
    while k < m
        invariant
            m == edges.len(),
            0 <= k <= m,
            n as nat == nv,
            nv == vertex_count(edges@),
            forall|j: int| 0 <= j < edges.len() ==> (#[trigger] edges@[j]).0 < nv && edges@[j].1 < nv,
            lab.len() == n,
            lab@ == kruskal(nv, edges@, k as int).0,
            tree@ == kruskal(nv, edges@, k as int).1,
        decreases m - k,
    {
        let (a, b) = edges[k];
        let la = lab[a];
        let lb = lab[b];
        if la != lb {
            relabel_in_place(&mut lab, lb, la);
            tree.push((a, b));
        }
        k += 1;
    }
    tree
}

/// A triangle of the triangulation, by the indices of its corners.
pub type Tri = (usize, usize, usize);

/// `v` is a corner of `t`.
pub open spec fn has_corner(t: Tri, v: usize) -> bool {
    t.0 == v || t.1 == v || t.2 == v
}

/// The edge from `a` to `b` of the `i`-th triangle is also an edge of another
/// triangle marked `bad`, so it lies inside the cavity.
pub open spec fn edge_shared(tris: Seq<Tri>, bad: Seq<bool>, i: int, a: usize, b: usize) -> bool {
    exists|j: int|
        0 <= j < tris.len() && j != i && #[trigger] bad[j] && has_corner(tris[j], a) && has_corner(
            tris[j],
            b,
        )
}

/// The edge, unless another bad triangle shares it.
pub open spec fn open_edge(tris: Seq<Tri>, bad: Seq<bool>, i: int, a: usize, b: usize) -> Seq<
    (usize, usize),
> {
    if edge_shared(tris, bad, i, a, b) {
        Seq::empty()
    } else {
        seq![(a, b)]
    }
}

/// The edges of the `i`-th triangle, in its winding order, that no other bad
/// triangle shares.
pub open spec fn open_edges(tris: Seq<Tri>, bad: Seq<bool>, i: int) -> Seq<(usize, usize)> {
    let t = tris[i];
    open_edge(tris, bad, i, t.0, t.1) + open_edge(tris, bad, i, t.1, t.2) + open_edge(
        tris,
        bad,
        i,
        t.2,
        t.0,
    )
}

/// The boundary of the cavity left by the bad triangles among the first `k`.
pub open spec fn cavity_edges(tris: Seq<Tri>, bad: Seq<bool>, k: int) -> Seq<(usize, usize)>
    decreases k,
{
    if k <= 0 {
        Seq::empty()
    } else if bad[k - 1] {
        cavity_edges(tris, bad, k - 1) + open_edges(tris, bad, k - 1)
    } else {
        cavity_edges(tris, bad, k - 1)
    }
}

/// The triangles among the first `k` that are not bad, in order.
pub open spec fn survivors(tris: Seq<Tri>, bad: Seq<bool>, k: int) -> Seq<Tri>
    decreases k,
{
    if k <= 0 {
        Seq::empty()
    } else if bad[k - 1] {
        survivors(tris, bad, k - 1)
    } else {
        survivors(tris, bad, k - 1).push(tris[k - 1])
    }
}

/// The triangles that join each cavity edge to `point`.
pub open spec fn fan_to(edges: Seq<(usize, usize)>, point: usize) -> Seq<Tri> {
    edges.map_values(|e: (usize, usize)| (e.0, e.1, point))
}

/// `a -> b` is one of the three sides of `t`, in its winding order.
pub open spec fn is_side(t: Tri, a: usize, b: usize) -> bool {
    (t.0 == a && t.1 == b) || (t.1 == a && t.2 == b) || (t.2 == a && t.0 == b)
}

proof fn lemma_survivors_complete(tris: Seq<Tri>, bad: Seq<bool>, k: int, i: int)
    requires
        0 <= i < k <= tris.len(),
        k <= bad.len(),
        !bad[i],
    ensures
        survivors(tris, bad, k).contains(tris[i]),
    decreases k,
{
    if i == k - 1 {
        let s = survivors(tris, bad, k);
        assert(s[s.len() - 1] == tris[i]);
    } else {
        lemma_survivors_complete(tris, bad, k - 1, i);
        let s0 = survivors(tris, bad, k - 1);
        let q = choose|q: int| 0 <= q < s0.len() && s0[q] == tris[i];
        if !bad[k - 1] {
            assert(survivors(tris, bad, k)[q] == tris[i]);
        }
    }
}

proof fn lemma_survivors_sound(tris: Seq<Tri>, bad: Seq<bool>, k: int, q: int)
    requires
        0 <= k <= tris.len(),
        k <= bad.len(),
        0 <= q < survivors(tris, bad, k).len(),
    ensures
        exists|i: int| 0 <= i < k && !bad[i] && tris[i] == survivors(tris, bad, k)[q],
    decreases k,
{
    if k > 0 {
        let s0 = survivors(tris, bad, k - 1);
        if bad[k - 1] || q < s0.len() {
            lemma_survivors_sound(tris, bad, k - 1, q);
            let i = choose|i: int| 0 <= i < k - 1 && !bad[i] && tris[i] == s0[q];
            assert(tris[i] == survivors(tris, bad, k)[q]);
        } else {
            assert(tris[k - 1] == survivors(tris, bad, k)[q]);
        }
    }
}

proof fn lemma_cavity_complete(tris: Seq<Tri>, bad: Seq<bool>, k: int, i: int, a: usize, b: usize)
    requires
        0 <= i < k <= tris.len(),
        tris.len() == bad.len(),
        bad[i],
        is_side(tris[i], a, b),
        forall|j: int|
            0 <= j < tris.len() && j != i && #[trigger] bad[j] ==> !(has_corner(tris[j], a) && has_corner(
                tris[j],
                b,
            )),
    ensures
        cavity_edges(tris, bad, k).contains((a, b)),
    decreases k,
{
    let c0 = cavity_edges(tris, bad, k - 1);
    if i == k - 1 {
        assert(!edge_shared(tris, bad, i, a, b));
        let t = tris[i];
        let o = open_edges(tris, bad, i);
        assert(o.contains((a, b))) by {
            if t.0 == a && t.1 == b {
                assert(o[0] == (a, b));
            } else if t.1 == a && t.2 == b {
                assert(o[open_edge(tris, bad, i, t.0, t.1).len() as int] == (a, b));
            } else {
                assert(o[o.len() - 1] == (a, b));
            }
        }
        let q = choose|q: int| 0 <= q < o.len() && o[q] == (a, b);
        assert(cavity_edges(tris, bad, k)[c0.len() + q] == (a, b));
    } else {
        lemma_cavity_complete(tris, bad, k - 1, i, a, b);
        let q = choose|q: int| 0 <= q < c0.len() && c0[q] == (a, b);
        assert(cavity_edges(tris, bad, k)[q] == (a, b));
    }
}

proof fn lemma_cavity_sound(tris: Seq<Tri>, bad: Seq<bool>, k: int, q: int)
    requires
        0 <= k <= tris.len(),
        tris.len() == bad.len(),
        0 <= q < cavity_edges(tris, bad, k).len(),
    ensures
        exists|i: int|
            0 <= i < k && bad[i] && is_side(
                tris[i],
                cavity_edges(tris, bad, k)[q].0,
                cavity_edges(tris, bad, k)[q].1,
            ) && forall|j: int|
                0 <= j < tris.len() && j != i && #[trigger] bad[j] ==> !(has_corner(
                    tris[j],
                    cavity_edges(tris, bad, k)[q].0,
                ) && has_corner(tris[j], cavity_edges(tris, bad, k)[q].1)),
    decreases k,
{
    if k > 0 {
        let c0 = cavity_edges(tris, bad, k - 1);
        let c = cavity_edges(tris, bad, k);
        if q < c0.len() {
            lemma_cavity_sound(tris, bad, k - 1, q);
            assert(c[q] == c0[q]);
        } else {
            let i = k - 1;
            let t = tris[i];
            let e0 = open_edge(tris, bad, i, t.0, t.1);
            let e1 = open_edge(tris, bad, i, t.1, t.2);
            let e2 = open_edge(tris, bad, i, t.2, t.0);
            let r = q - c0.len();
            assert(c[q] == open_edges(tris, bad, i)[r]);
            if r < e0.len() {
                assert(c[q] == (t.0, t.1));
                assert(!edge_shared(tris, bad, i, t.0, t.1));
            } else if r < e0.len() + e1.len() {
                assert(c[q] == (t.1, t.2));
                assert(!edge_shared(tris, bad, i, t.1, t.2));
            } else {
                assert(c[q] == (t.2, t.0));
                assert(!edge_shared(tris, bad, i, t.2, t.0));
            }
        }
    }
}

/// What one Bowyer-Watson insertion leaves: every triangle not marked bad is
/// kept; every side `a -> b` of a bad triangle that no other bad triangle
/// also has (both `a` and `b` among its corners) is joined to `point`; and
/// nothing else is there: each triangle is a kept one, or joins to `point` a
/// side of a bad triangle that no other bad triangle shares.
pub proof fn lemma_insertion_result(tris: Seq<Tri>, bad: Seq<bool>, point: usize)
    requires
        tris.len() == bad.len(),
    ensures
        ({
            let r = survivors(tris, bad, tris.len() as int) + fan_to(
                cavity_edges(tris, bad, tris.len() as int),
                point,
            );
            &&& forall|i: int| 0 <= i < tris.len() && !bad[i] ==> r.contains(#[trigger] tris[i])
            &&& forall|i: int, a: usize, b: usize|
                0 <= i < tris.len() && bad[i] && #[trigger] is_side(tris[i], a, b) && (forall|j: int|
                    0 <= j < tris.len() && j != i && #[trigger] bad[j] ==> !(has_corner(tris[j], a)
                        && has_corner(tris[j], b))) ==> r.contains((a, b, point))
            &&& forall|q: int|
                0 <= q < r.len() ==> (exists|i: int|
                    0 <= i < tris.len() && !bad[i] && #[trigger] tris[i] == r[q]) || (r[q].2 == point
                    && exists|i: int|
                    0 <= i < tris.len() && bad[i] && #[trigger] is_side(tris[i], r[q].0, r[q].1)
                        && forall|j: int|
                        0 <= j < tris.len() && j != i && #[trigger] bad[j] ==> !(has_corner(
                            tris[j],
                            r[q].0,
                        ) && has_corner(tris[j], r[q].1)))
        }),
{
    let n = tris.len() as int;
    let sv = survivors(tris, bad, n);
    let cav = cavity_edges(tris, bad, n);
    let fan = fan_to(cav, point);
    let r = sv + fan;
    assert forall|i: int| 0 <= i < n && !bad[i] implies r.contains(#[trigger] tris[i]) by {
        lemma_survivors_complete(tris, bad, n, i);
        let q = choose|q: int| 0 <= q < sv.len() && sv[q] == tris[i];
        assert(r[q] == tris[i]);
    }
    assert forall|i: int, a: usize, b: usize|
        0 <= i < n && bad[i] && #[trigger] is_side(tris[i], a, b) && (forall|j: int|
            0 <= j < n && j != i && #[trigger] bad[j] ==> !(has_corner(tris[j], a) && has_corner(
                tris[j],
                b,
            ))) implies r.contains((a, b, point)) by {
        lemma_cavity_complete(tris, bad, n, i, a, b);
        let q = choose|q: int| 0 <= q < cav.len() && cav[q] == (a, b);
        assert(fan[q] == (a, b, point));
        assert(r[sv.len() + q] == (a, b, point));
    }
    assert forall|q: int| 0 <= q < r.len() implies (exists|i: int|
        0 <= i < n && !bad[i] && #[trigger] tris[i] == r[q]) || (r[q].2 == point && exists|i: int|
        0 <= i < n && bad[i] && #[trigger] is_side(tris[i], r[q].0, r[q].1) && forall|j: int|
            0 <= j < n && j != i && #[trigger] bad[j] ==> !(has_corner(tris[j], r[q].0) && has_corner(
                tris[j],
                r[q].1,
            ))) by {
        if q < sv.len() {
            lemma_survivors_sound(tris, bad, n, q);
            assert(r[q] == sv[q]);
            let i = choose|i: int| 0 <= i < n && !bad[i] && tris[i] == sv[q];
            assert(tris[i] == r[q]);
        } else {
            let w = q - sv.len();
            lemma_cavity_sound(tris, bad, n, w);
            assert(r[q] == fan[w]);
            assert(fan[w] == (cav[w].0, cav[w].1, point));
            let i = choose|i: int|
                0 <= i < n && bad[i] && is_side(tris[i], cav[w].0, cav[w].1) && forall|j: int|
                    0 <= j < n && j != i && #[trigger] bad[j] ==> !(has_corner(tris[j], cav[w].0)
                        && has_corner(tris[j], cav[w].1));
            assert(r[q].0 == cav[w].0 && r[q].1 == cav[w].1 && r[q].2 == point);
            assert(is_side(tris[i], r[q].0, r[q].1));
        }
    }
}

fn edge_is_shared(tris: &Vec<Tri>, bad: &Vec<bool>, i: usize, a: usize, b: usize) -> (r: bool)
    requires
        tris.len() == bad.len(),
    ensures
        r == edge_shared(tris@, bad@, i as int, a, b),
{
    let n = tris.len();
    let mut j: usize = 0;
    while j < n
        invariant
            n == tris.len(),
            n == bad.len(),
            0 <= j <= n,
            forall|q: int|
                0 <= q < j ==> !(q != i && #[trigger] bad@[q] && has_corner(tris@[q], a)
                    && has_corner(tris@[q], b)),
        decreases n - j,
    {
        if j != i && bad[j] {
            let t = tris[j];
            if (t.0 == a || t.1 == a || t.2 == a) && (t.0 == b || t.1 == b || t.2 == b) {
                assert(bad@[j as int] && has_corner(tris@[j as int], a));
                return true;
            }
        }
        j += 1;
    }
    false
}

/// One Bowyer-Watson insertion: the triangles marked `bad` (those whose
/// circumcircle holds the new point) are taken out, keeping the order of the
/// rest, and each edge of the cavity they leave, taken in the order of the
/// bad triangles and their corners, is joined to `point` by a new triangle.
pub fn insert_point(triangles: &mut Vec<Tri>, bad: &Vec<bool>, point: usize)
    requires
        old(triangles).len() == bad.len(),
    ensures
        final(triangles)@ == survivors(old(triangles)@, bad@, bad.len() as int) + fan_to(
            cavity_edges(old(triangles)@, bad@, bad.len() as int),
            point,
        ),
        forall|i: int|
            0 <= i < bad.len() && !bad@[i] ==> final(triangles)@.contains(#[trigger] old(triangles)@[i]),
        forall|i: int, a: usize, b: usize|
            0 <= i < bad.len() && bad@[i] && #[trigger] is_side(old(triangles)@[i], a, b) && (forall|j: int|
                0 <= j < bad.len() && j != i && #[trigger] bad@[j] ==> !(has_corner(old(triangles)@[j], a)
                    && has_corner(old(triangles)@[j], b))) ==> final(triangles)@.contains((a, b, point)),
        forall|q: int|
            0 <= q < final(triangles)@.len() ==> (exists|i: int|
                0 <= i < bad.len() && !bad@[i] && #[trigger] old(triangles)@[i] == final(triangles)@[q]) || (
            final(triangles)@[q].2 == point && exists|i: int|
                0 <= i < bad.len() && bad@[i] && #[trigger] is_side(
                    old(triangles)@[i],
                    final(triangles)@[q].0,
                    final(triangles)@[q].1,
                ) && forall|j: int|
                    0 <= j < bad.len() && j != i && #[trigger] bad@[j] ==> !(has_corner(
                        old(triangles)@[j],
                        final(triangles)@[q].0,
                    ) && has_corner(old(triangles)@[j], final(triangles)@[q].1))),
{
    proof {
        lemma_insertion_result(triangles@, bad@, point);
    }
    let n = triangles.len();
    let mut polygon: Vec<(usize, usize)> = Vec::new();
    let mut kept: Vec<Tri> = Vec::new();
    let mut i: usize = 0;
    while i < n
        invariant
            n == triangles.len(),
            n == bad.len(),
            0 <= i <= n,
            polygon@ == cavity_edges(triangles@, bad@, i as int),
            kept@ == survivors(triangles@, bad@, i as int),
        decreases n - i,
    {
        let t = triangles[i];
        if bad[i] {
            let ghost before = polygon@;
            let s0 = edge_is_shared(triangles, bad, i, t.0, t.1);
            if !s0 {
                polygon.push((t.0, t.1));
            }
            let s1 = edge_is_shared(triangles, bad, i, t.1, t.2);
            if !s1 {
                polygon.push((t.1, t.2));
            }
            let s2 = edge_is_shared(triangles, bad, i, t.2, t.0);
            if !s2 {
                polygon.push((t.2, t.0));
            }
            assert(polygon@ =~= before + open_edges(triangles@, bad@, i as int));
        } else {
            kept.push(t);
        }
        i += 1;
    }
    let ghost base = kept@;
    let m = polygon.len();
    let mut k: usize = 0;
    while k < m
        invariant
            m == polygon.len(),
            0 <= k <= m,
            kept@ =~= base + fan_to(polygon@.take(k as int), point),
        decreases m - k,
    {
        let e = polygon[k];
        kept.push((e.0, e.1, point));
        assert(polygon@.take(k as int + 1) =~= polygon@.take(k as int).push(e));
        k += 1;
    }
    assert(polygon@.take(m as int) =~= polygon@);
    *triangles = kept;
}

/// The triangles among the first `k` none of whose corners is one of the
/// three that start the vertex list, with every corner moved down by three.
pub open spec fn without_super(tris: Seq<Tri>, k: int) -> Seq<(u32, u32, u32)>
    decreases k,
{
    if k <= 0 {
        Seq::empty()
    } else {
        let prev = without_super(tris, k - 1);
        let t = tris[k - 1];
        if t.0 < 3 || t.1 < 3 || t.2 < 3 {
            prev
        } else {
            prev.push(((t.0 - 3) as u32, (t.1 - 3) as u32, (t.2 - 3) as u32))
        }
    }
}

/// The triangle `t` with its corners moved down by three.
pub open spec fn shifted_down(t: Tri) -> (u32, u32, u32) {
    ((t.0 - 3) as u32, (t.1 - 3) as u32, (t.2 - 3) as u32)
}

/// Stripping the super triangle keeps, moved down by three, exactly the
/// triangles with no corner among the first three vertices: each such
/// triangle is in the result, and everything in the result is such a
/// triangle; the result is no longer than the input.
pub proof fn lemma_strip_keeps_inner(tris: Seq<Tri>, k: int)
    requires
        0 <= k <= tris.len(),
    ensures
        without_super(tris, k).len() <= k,
        forall|i: int|
            0 <= i < k && tris[i].0 >= 3 && tris[i].1 >= 3 && tris[i].2 >= 3 ==> without_super(
                tris,
                k,
            ).contains(shifted_down(#[trigger] tris[i])),
        forall|q: int|
            #![trigger without_super(tris, k)[q]]
            0 <= q < without_super(tris, k).len() ==> exists|i: int|
                0 <= i < k && tris[i].0 >= 3 && tris[i].1 >= 3 && tris[i].2 >= 3 && shifted_down(
                    #[trigger] tris[i],
                ) == without_super(tris, k)[q],
    decreases k,
{
    if k > 0 {
        lemma_strip_keeps_inner(tris, k - 1);
        let prev = without_super(tris, k - 1);
        let cur = without_super(tris, k);
        let t = tris[k - 1];
        assert forall|i: int|
            0 <= i < k && tris[i].0 >= 3 && tris[i].1 >= 3 && tris[i].2 >= 3 implies cur.contains(
            shifted_down(#[trigger] tris[i]),
        ) by {
            if i < k - 1 {
                let q = choose|q: int| 0 <= q < prev.len() && prev[q] == shifted_down(tris[i]);
                assert(cur[q] == prev[q]);
            } else {
                assert(cur[cur.len() - 1] == shifted_down(tris[i]));
            }
        }
        assert forall|q: int|
            #![trigger cur[q]]
            0 <= q < cur.len() implies exists|i: int|
            0 <= i < k && tris[i].0 >= 3 && tris[i].1 >= 3 && tris[i].2 >= 3 && shifted_down(
                #[trigger] tris[i],
            ) == cur[q] by {
            if q < prev.len() {
                assert(cur[q] == prev[q]);
                let i = choose|i: int|
                    0 <= i < k - 1 && tris[i].0 >= 3 && tris[i].1 >= 3 && tris[i].2 >= 3 && shifted_down(
                        #[trigger] tris[i],
                    ) == prev[q];
                assert(shifted_down(tris[i]) == cur[q]);
            } else {
                assert(shifted_down(tris[k - 1]) == cur[q]);
            }
        }
    }
}

/// Drops the triangles that touch the enclosing super triangle, whose corners
/// are the first three vertices, and renumbers the rest to the input points.
pub fn strip_super_triangle(triangles: &Vec<Tri>) -> (result: Vec<(u32, u32, u32)>)
    ensures
        result@ == without_super(triangles@, triangles.len() as int),
{
    let n = triangles.len();
    let mut result: Vec<(u32, u32, u32)> = Vec::new();
    let mut i: usize = 0;
    while i < n
        invariant
            n == triangles.len(),
            0 <= i <= n,
            result@ == without_super(triangles@, i as int),
        decreases n - i,
    {
        let t = triangles[i];
        if !(t.0 < 3 || t.1 < 3 || t.2 < 3) {
            result.push(((t.0 - 3) as u32, (t.1 - 3) as u32, (t.2 - 3) as u32));
        }
        i += 1;
    }
    result
}

/// The pairs laid end to end: `a0, b0, a1, b1, ...`.
pub open spec fn pair_flat(pairs: Seq<(u32, u32)>) -> Seq<u32>
    decreases pairs.len(),
{
    if pairs.len() == 0 {
        Seq::empty()
    } else {
        pair_flat(pairs.drop_last()) + seq![pairs.last().0, pairs.last().1]
    }
}

/// The pair with its smaller end first, which names the undirected edge.
pub open spec fn undirected(e: (u32, u32)) -> (u32, u32) {
    if e.0 <= e.1 {
        e
    } else {
        (e.1, e.0)
    }
}

/// The tree edges with their ends as `u32`.
pub open spec fn tree_pairs(tree: Seq<(usize, usize)>) -> Seq<(u32, u32)> {
    tree.map_values(|e: (usize, usize)| (e.0 as u32, e.1 as u32))
}

/// The edges of the first `k` triangles, three to a triangle in its winding order.
pub open spec fn mesh_edges(tris: Seq<(u32, u32, u32)>, k: int) -> Seq<(u32, u32)>
    decreases k,
{
    if k <= 0 {
        Seq::empty()
    } else {
        let t = tris[k - 1];
        mesh_edges(tris, k - 1) + seq![(t.0, t.1), (t.1, t.2), (t.2, t.0)]
    }
}

/// The undirected edges known after the first `k` of `edges`, starting from
/// `seen`, and those of the `k` that were new when they came.
pub open spec fn fresh_edges(seen: Set<(u32, u32)>, edges: Seq<(u32, u32)>, k: int) -> (Set<
    (u32, u32),
>, Seq<(u32, u32)>)
    decreases k,
{
    if k <= 0 {
        (seen, Seq::empty())
    } else {
        let prev = fresh_edges(seen, edges, k - 1);
        let key = undirected(edges[k - 1]);
        if prev.0.contains(key) {
            prev
        } else {
            (prev.0.insert(key), prev.1.push(edges[k - 1]))
        }
    }
}

/// The lines of a raft: the tree edges, then each triangle edge whose
/// undirected edge is neither a tree edge nor came before.
pub open spec fn raft_line_pairs(tree: Seq<(usize, usize)>, tris: Seq<(u32, u32, u32)>) -> Seq<
    (u32, u32),
> {
    let tp = tree_pairs(tree);
    let keys = tp.map_values(|e: (u32, u32)| undirected(e)).to_set();
    tp + fresh_edges(keys, mesh_edges(tris, tris.len() as int), mesh_edges(tris, tris.len() as int).len() as int).1
}

proof fn lemma_pair_flat_push(pairs: Seq<(u32, u32)>, e: (u32, u32))
    ensures
        pair_flat(pairs.push(e)) == pair_flat(pairs) + seq![e.0, e.1],
{
    assert(pairs.push(e).drop_last() =~= pairs);
}

proof fn lemma_pair_flat_append(a: Seq<(u32, u32)>, b: Seq<(u32, u32)>)
    ensures
        pair_flat(a + b) == pair_flat(a) + pair_flat(b),
    decreases b.len(),
{
    if b.len() == 0 {
        assert(a + b =~= a);
        assert(pair_flat(b) =~= Seq::<u32>::empty());
        assert(pair_flat(a) + pair_flat(b) =~= pair_flat(a));
    } else {
        lemma_pair_flat_append(a, b.drop_last());
        assert(a + b =~= (a + b.drop_last()).push(b.last()));
        lemma_pair_flat_push(a + b.drop_last(), b.last());
        assert(b =~= b.drop_last().push(b.last()));
        lemma_pair_flat_push(b.drop_last(), b.last());
        assert(pair_flat(a) + pair_flat(b) =~= pair_flat(a) + pair_flat(b.drop_last()) + seq![
            b.last().0,
            b.last().1,
        ]);
    }
}

fn list_contains(list: &Vec<(u32, u32)>, key: (u32, u32)) -> (r: bool)
    ensures
        r == list@.contains(key),
{
    let n = list.len();
    let mut i: usize = 0;
    while i < n
        invariant
            n == list.len(),
            0 <= i <= n,
            forall|q: int| 0 <= q < i ==> list@[q] != key,
        decreases n - i,
    {
        let e = list[i];
        if e.0 == key.0 && e.1 == key.1 {
            assert(list@[i as int] == key);
            return true;
        }
        i += 1;
    }
    false
}

fn undirected_of(a: u32, b: u32) -> (r: (u32, u32))
    ensures
        r == undirected((a, b)),
{
    if a <= b {
        (a, b)
    } else {
        (b, a)
    }
}

fn add_if_fresh(seen: &mut Vec<(u32, u32)>, out: &mut Vec<(u32, u32)>, lines: &mut Vec<u32>, e: (u32, u32))
    ensures
        old(seen)@.contains(undirected(e)) ==> final(seen)@ == old(seen)@ && final(out)@ == old(out)@
            && final(lines)@ == old(lines)@,
        !old(seen)@.contains(undirected(e)) ==> final(seen)@ == old(seen)@.push(undirected(e))
            && final(out)@ == old(out)@.push(e) && final(lines)@ == old(lines)@ + seq![e.0, e.1],
{
    let key = undirected_of(e.0, e.1);
    if !list_contains(seen, key) {
        seen.push(key);
        out.push(e);
        lines.push(e.0);
        lines.push(e.1);
        assert(lines@ =~= old(lines)@ + seq![e.0, e.1]);
    }
}

proof fn lemma_mesh_edges_take(tris: Seq<(u32, u32, u32)>, k: int, n: int)
    requires
        0 <= k <= n,
    ensures
        mesh_edges(tris, n).len() == 3 * n,
        mesh_edges(tris, n).take(3 * k) == mesh_edges(tris, k),
    decreases n,
{
    if n > 0 {
        lemma_mesh_edges_take(tris, if k < n { k } else { n - 1 }, n - 1);
        if k < n {
            assert(mesh_edges(tris, n).take(3 * k) =~= mesh_edges(tris, n - 1).take(3 * k));
        } else {
            assert(mesh_edges(tris, n).take(3 * k) =~= mesh_edges(tris, n));
        }
    }
}

proof fn lemma_fresh_step(
    seen: Seq<(u32, u32)>,
    out: Seq<(u32, u32)>,
    seen2: Seq<(u32, u32)>,
    out2: Seq<(u32, u32)>,
    keys: Set<(u32, u32)>,
    edges: Seq<(u32, u32)>,
    j: int,
)
    requires
        0 <= j < edges.len(),
        seen.to_set() == fresh_edges(keys, edges, j).0,
        out == fresh_edges(keys, edges, j).1,
        seen.contains(undirected(edges[j])) ==> seen2 == seen && out2 == out,
        !seen.contains(undirected(edges[j])) ==> seen2 == seen.push(undirected(edges[j])) && out2
            == out.push(edges[j]),
    ensures
        seen2.to_set() == fresh_edges(keys, edges, j + 1).0,
        out2 == fresh_edges(keys, edges, j + 1).1,
{
    broadcast use vstd::seq_lib::lemma_seq_contains_after_push;

    let key = undirected(edges[j]);
    assert(seen.to_set().contains(key) == seen.contains(key));
    if !seen.contains(key) {
        assert(seen2.to_set() =~= seen.to_set().insert(key));
    }
}

/// The raft's line list, two indices to a line: the spanning-tree edges
/// first, then each edge of the triangulation, triangle by triangle and in
/// winding order, whose undirected edge is not yet a line.
pub fn raft_lines(tree: &Vec<(usize, usize)>, triangles: &Vec<(u32, u32, u32)>) -> (lines: Vec<u32>)
    ensures
        lines@ == pair_flat(raft_line_pairs(tree@, triangles@)),
{
    let ghost tp = tree_pairs(tree@);
    let mut lines: Vec<u32> = Vec::new();
    let mut seen: Vec<(u32, u32)> = Vec::new();
    let nt = tree.len();
    let mut i: usize = 0;
    while i < nt
        invariant
            nt == tree.len(),
            tp == tree_pairs(tree@),
            0 <= i <= nt,
            lines@ == pair_flat(tp.take(i as int)),
            seen@ == tp.take(i as int).map_values(|e: (u32, u32)| undirected(e)),
        decreases nt - i,
    {
        let (a, b) = tree[i];
        let a32 = a as u32;
        let b32 = b as u32;
        proof {
            assert(tp.take(i as int + 1) =~= tp.take(i as int).push((a32, b32)));
            lemma_pair_flat_push(tp.take(i as int), (a32, b32));
        }
        seen.push(undirected_of(a32, b32));
        lines.push(a32);
        lines.push(b32);
        assert(lines@ =~= pair_flat(tp.take(i as int)) + seq![a32, b32]);
        assert(seen@ =~= tp.take(i as int + 1).map_values(|e: (u32, u32)| undirected(e)));
        i += 1;
    }
    assert(tp.take(nt as int) =~= tp);
    let ghost keys = tp.map_values(|e: (u32, u32)| undirected(e)).to_set();
    let ghost edges = mesh_edges(triangles@, triangles.len() as int);
    let ghost head = lines@;
    let mut out: Vec<(u32, u32)> = Vec::new();
    let n = triangles.len();
    proof {
        lemma_mesh_edges_take(triangles@, 0, n as int);
    }
    let mut k: usize = 0;
    while k < n
        invariant
            n == triangles.len(),
            0 <= k <= n,
            edges == mesh_edges(triangles@, n as int),
            edges.len() == 3 * n,
            seen@.to_set() == fresh_edges(keys, edges, 3 * k).0,
            out@ == fresh_edges(keys, edges, 3 * k).1,
            head == pair_flat(tp),
            lines@ == head + pair_flat(out@),
        decreases n - k,
    {
        let t = triangles[k];
        proof {
            lemma_mesh_edges_take(triangles@, k as int + 1, n as int);
            lemma_mesh_edges_take(triangles@, k as int, n as int);
            let me = mesh_edges(triangles@, k as int);
            assert(mesh_edges(triangles@, k as int + 1) == me + seq![(t.0, t.1), (t.1, t.2), (t.2, t.0)]);
            assert(me.len() == 3 * k);
            assert(edges[3 * k] == edges.take(3 * k + 3)[3 * k]);
            assert(edges[3 * k + 1] == edges.take(3 * k + 3)[3 * k + 1]);
            assert(edges[3 * k + 2] == edges.take(3 * k + 3)[3 * k + 2]);
            assert(edges[3 * k] == (t.0, t.1));
            assert(edges[3 * k + 1] == (t.1, t.2));
            assert(edges[3 * k + 2] == (t.2, t.0));
        }
        let ghost (s0, o0) = (seen@, out@);
        add_if_fresh(&mut seen, &mut out, &mut lines, (t.0, t.1));
        proof {
            lemma_fresh_step(s0, o0, seen@, out@, keys, edges, 3 * k);
            if out@ != o0 {
                lemma_pair_flat_push(o0, (t.0, t.1));
            }
        }
        let ghost (s1, o1) = (seen@, out@);
        add_if_fresh(&mut seen, &mut out, &mut lines, (t.1, t.2));
        proof {
            lemma_fresh_step(s1, o1, seen@, out@, keys, edges, 3 * k + 1);
            if out@ != o1 {
                lemma_pair_flat_push(o1, (t.1, t.2));
            }
        }
        let ghost (s2, o2) = (seen@, out@);
        add_if_fresh(&mut seen, &mut out, &mut lines, (t.2, t.0));
        proof {
            lemma_fresh_step(s2, o2, seen@, out@, keys, edges, 3 * k + 2);
            if out@ != o2 {
                lemma_pair_flat_push(o2, (t.2, t.0));
            }
        }
        k += 1;
    }
    proof {
        lemma_pair_flat_append(tp, out@);
    }
    lines
}

/// The pairs `(i, j)` with `i < j < n`, for one row `i`, in order of `j`.
pub open spec fn row_pairs(n: nat, i: nat) -> Seq<(u32, u32)> {
    if i + 1 >= n {
        Seq::empty()
    } else {
        Seq::new((n - i - 1) as nat, |k: int| (i as u32, (i + 1 + k) as u32))
    }
}

/// The pairs `(i, j)` with `i < j < n` and `i < r`, row by row.
pub open spec fn point_pairs(n: nat, r: nat) -> Seq<(u32, u32)>
    decreases r,
{
    if r == 0 {
        Seq::empty()
    } else {
        point_pairs(n, (r - 1) as nat) + row_pairs(n, (r - 1) as nat)
    }
}

/// The lines of a raft whose points span no area: one line between every two
/// of the `count` points, `(0, 1), (0, 2), ..., (1, 2), ...`.
pub fn all_pairs_lines(count: usize) -> (lines: Vec<u32>)
    ensures
        lines@ == pair_flat(point_pairs(count as nat, count as nat)),
{
    let mut lines: Vec<u32> = Vec::new();
    let ghost mut pairs: Seq<(u32, u32)> = Seq::empty();
    let mut i: usize = 0;
    while i < count
        invariant
            0 <= i <= count,
            pairs == point_pairs(count as nat, i as nat),
            lines@ == pair_flat(pairs),
        decreases count - i,
    {
        let ghost row_start = pairs;
        let mut j: usize = i + 1;
        while j < count
            invariant
                i < count,
                i + 1 <= j <= count,
                pairs == row_start + row_pairs(count as nat, i as nat).take(j - i - 1),
                lines@ == pair_flat(pairs),
            decreases count - j,
        {
            let e = (i as u32, j as u32);
            proof {
                lemma_pair_flat_push(pairs, e);
                assert(row_pairs(count as nat, i as nat).take(j - i) =~= row_pairs(
                    count as nat,
                    i as nat,
                ).take(j - i - 1).push(e));
                pairs = pairs.push(e);
            }
            lines.push(e.0);
            lines.push(e.1);
            assert(lines@ =~= pair_flat(pairs));
            j += 1;
        }
        assert(row_pairs(count as nat, i as nat).take(count - i - 1) =~= row_pairs(
            count as nat,
            i as nat,
        ));
        i += 1;
    }
    lines
}

proof fn lemma_fresh_facts(seen: Set<(u32, u32)>, edges: Seq<(u32, u32)>, k: int)
    requires
        0 <= k <= edges.len(),
    ensures
        ({
            let (known, extra) = fresh_edges(seen, edges, k);
            &&& forall|x: (u32, u32)|
                #![trigger known.contains(x)]
                known.contains(x) <==> (seen.contains(x) || exists|i: int|
                    0 <= i < extra.len() && undirected(#[trigger] extra[i]) == x)
            &&& forall|i: int| 0 <= i < extra.len() ==> !seen.contains(undirected(#[trigger] extra[i]))
            &&& forall|i: int, j: int|
                0 <= i < j < extra.len() ==> undirected(#[trigger] extra[i]) != undirected(
                    #[trigger] extra[j],
                )
            &&& forall|q: int| 0 <= q < k ==> known.contains(undirected(#[trigger] edges[q]))
        }),
    decreases k,
{
    if k > 0 {
        lemma_fresh_facts(seen, edges, k - 1);
        let (known, extra) = fresh_edges(seen, edges, k - 1);
        let e = edges[k - 1];
        let key = undirected(e);
        if !known.contains(key) {
            let (known2, extra2) = fresh_edges(seen, edges, k);
            assert(extra2 == extra.push(e));
            assert(extra2[extra.len() as int] == e);
            assert forall|x: (u32, u32)| #![trigger known2.contains(x)] known2.contains(x) <==> (
            seen.contains(x) || exists|i: int|
                0 <= i < extra2.len() && undirected(#[trigger] extra2[i]) == x) by {
                if known.contains(x) && !seen.contains(x) {
                    let i = choose|i: int| 0 <= i < extra.len() && undirected(#[trigger] extra[i]) == x;
                    assert(extra2[i] == extra[i]);
                }
                if exists|i: int| 0 <= i < extra2.len() && undirected(#[trigger] extra2[i]) == x {
                    let i = choose|i: int| 0 <= i < extra2.len() && undirected(#[trigger] extra2[i]) == x;
                    if i < extra.len() {
                        assert(extra2[i] == extra[i]);
                    }
                }
            }
            assert forall|i: int, j: int| 0 <= i < j < extra2.len() implies undirected(
                #[trigger] extra2[i],
            ) != undirected(#[trigger] extra2[j]) by {
                assert(extra2[i] == extra[i]);
                if j < extra.len() {
                    assert(extra2[j] == extra[j]);
                } else {
                    assert(known.contains(undirected(extra[i])));
                }
            }
            assert forall|i: int| 0 <= i < extra2.len() implies !seen.contains(
                undirected(#[trigger] extra2[i]),
            ) by {
                if i < extra.len() {
                    assert(extra2[i] == extra[i]);
                }
            }
        }
    }
}

/// The lines of a raft draw every edge of its triangulation, and each line
/// that the triangulation adds to the tree is a new undirected edge: none
/// repeats a tree edge, and no two of them join the same two points.
pub proof fn lemma_raft_lines_distinct(tree: Seq<(usize, usize)>, tris: Seq<(u32, u32, u32)>)
    ensures
        ({
            let tp = tree_pairs(tree);
            let keys = tp.map_values(|e: (u32, u32)| undirected(e)).to_set();
            let lines = raft_line_pairs(tree, tris);
            let extra = lines.subrange(tp.len() as int, lines.len() as int);
            &&& lines.subrange(0, tp.len() as int) == tp
            &&& forall|i: int| 0 <= i < extra.len() ==> !keys.contains(undirected(#[trigger] extra[i]))
            &&& forall|i: int, j: int|
                0 <= i < j < extra.len() ==> undirected(#[trigger] extra[i]) != undirected(
                    #[trigger] extra[j],
                )
            &&& forall|q: int|
                0 <= q < mesh_edges(tris, tris.len() as int).len() ==> exists|i: int|
                    0 <= i < lines.len() && undirected(#[trigger] lines[i]) == undirected(
                        #[trigger] mesh_edges(tris, tris.len() as int)[q],
                    )
        }),
{
    let tp = tree_pairs(tree);
    let keys = tp.map_values(|e: (u32, u32)| undirected(e)).to_set();
    let edges = mesh_edges(tris, tris.len() as int);
    let lines = raft_line_pairs(tree, tris);
    let fr = fresh_edges(keys, edges, edges.len() as int);
    lemma_fresh_facts(keys, edges, edges.len() as int);
    assert(lines == tp + fr.1);
    let extra = lines.subrange(tp.len() as int, lines.len() as int);
    assert(extra =~= fr.1);
    assert(lines.subrange(0, tp.len() as int) =~= tp);
    let tk = tp.map_values(|e: (u32, u32)| undirected(e));
    assert forall|q: int| 0 <= q < edges.len() implies exists|i: int|
        0 <= i < lines.len() && undirected(#[trigger] lines[i]) == undirected(#[trigger] edges[q]) by {
        let x = undirected(edges[q]);
        assert(fr.0.contains(x));
        if keys.contains(x) {
            assert(tk.contains(x));
            let i = choose|i: int| 0 <= i < tk.len() && #[trigger] tk[i] == x;
            assert(lines[i] == tp[i]);
        } else {
            let i = choose|i: int| 0 <= i < fr.1.len() && undirected(#[trigger] fr.1[i]) == x;
            assert(lines[tp.len() + i] == fr.1[i]);
        }
    }
}

proof fn lemma_point_pairs_len(n: nat, r: nat)
    requires
        r <= n,
    ensures
        2 * point_pairs(n, r).len() == r * (2 * n - r - 1),
    decreases r,
{
    if r == 0 {
        assert(r * (2 * n - r - 1) == 0) by (nonlinear_arith)
            requires
                r == 0,
        ;
    } else {
        lemma_point_pairs_len(n, (r - 1) as nat);
        let a = r - 1;
        assert(row_pairs(n, a as nat).len() == n - a - 1);
        assert(point_pairs(n, r).len() == point_pairs(n, a as nat).len() + row_pairs(n, a as nat).len());
        assert(r * (2 * n - r - 1) == a * (2 * n - a - 1) + 2 * (n - a - 1)) by (nonlinear_arith)
            requires
                r == a + 1,
        ;
    }
}

proof fn lemma_pair_flat_len(pairs: Seq<(u32, u32)>)
    ensures
        pair_flat(pairs).len() == 2 * pairs.len(),
    decreases pairs.len(),
{
    if pairs.len() > 0 {
        lemma_pair_flat_len(pairs.drop_last());
    }
}

/// Between `n` points that span no area the raft draws one line per pair of
/// points: `n * (n - 1) / 2` lines, two indices each.
pub proof fn lemma_all_pairs_count(n: nat)
    ensures
        pair_flat(point_pairs(n, n)).len() == n * (n - 1),
{
    lemma_point_pairs_len(n, n);
    lemma_pair_flat_len(point_pairs(n, n));
    if n > 0 {
        assert(n * (2 * n - n - 1) == n * (n - 1)) by (nonlinear_arith) requires n > 0;
    }
}

} // verus!
