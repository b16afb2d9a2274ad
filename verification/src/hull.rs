//! The combinatorial step of the 3D convex hull: the horizon of the faces
//! that a new point sees.
use vstd::prelude::*;

verus! {

/// A hull face by the indices of its corners, in winding order.
pub type Face = (usize, usize, usize);

/// The directed edges of the faces, three to a face in its winding order.
pub open spec fn face_edges(faces: Seq<Face>) -> Seq<(usize, usize)>
    decreases faces.len(),
{
    if faces.len() == 0 {
        Seq::empty()
    } else {
        let f = faces.last();
        face_edges(faces.drop_last()) + seq![(f.0, f.1), (f.1, f.2), (f.2, f.0)]
    }
}

/// The two ends of an edge, smaller first.
pub open spec fn edge_key(e: (usize, usize)) -> (usize, usize) {
    if e.0 < e.1 {
        e
    } else {
        (e.1, e.0)
    }
}

/// How many of `edges` join the same two points as `e`, in either direction.
pub open spec fn key_count(edges: Seq<(usize, usize)>, e: (usize, usize)) -> nat
    decreases edges.len(),
{
    if edges.len() == 0 {
        0
    } else {
        key_count(edges.drop_last(), e) + if edge_key(edges.last()) == edge_key(e) {
            1nat
        } else {
            0nat
        }
    }
}

/// The edges among the first `k` of `edges` that no other of `edges` joins
/// the same two points, in order.
pub open spec fn lone_edges(edges: Seq<(usize, usize)>, k: int) -> Seq<(usize, usize)>
    decreases k,
{
    if k <= 0 {
        Seq::empty()
    } else if key_count(edges, edges[k - 1]) == 1 {
        lone_edges(edges, k - 1).push(edges[k - 1])
    } else {
        lone_edges(edges, k - 1)
    }
}

/// The horizon of a set of visible faces: the edges that only one of them
/// has, in the direction that face winds them.
pub open spec fn horizon(visible: Seq<Face>) -> Seq<(usize, usize)> {
    lone_edges(face_edges(visible), face_edges(visible).len() as int)
}

proof fn lemma_face_edges_len(faces: Seq<Face>)
    ensures
        face_edges(faces).len() == 3 * faces.len(),
    decreases faces.len(),
{
    if faces.len() > 0 {
        lemma_face_edges_len(faces.drop_last());
    }
}

proof fn lemma_face_edges_push(faces: Seq<Face>, f: Face)
    ensures
        face_edges(faces.push(f)) == face_edges(faces) + seq![(f.0, f.1), (f.1, f.2), (f.2, f.0)],
{
    assert(faces.push(f).drop_last() =~= faces);
}

proof fn lemma_key_count_push(edges: Seq<(usize, usize)>, x: (usize, usize), e: (usize, usize))
    ensures
        key_count(edges.push(x), e) == key_count(edges, e) + if edge_key(x) == edge_key(e) {
            1nat
        } else {
            0nat
        },
{
    assert(edges.push(x).drop_last() =~= edges);
}

fn key_of(a: usize, b: usize) -> (k: (usize, usize))
    ensures
        k == edge_key((a, b)),
{
    if a < b {
        (a, b)
    } else {
        (b, a)
    }
}

/// How many of `edges` join the same two points as `e`.
fn count_key(edges: &Vec<(usize, usize)>, e: (usize, usize)) -> (c: usize)
    ensures
        c == key_count(edges@, e),
{
    let n = edges.len();
    let k = key_of(e.0, e.1);
    let mut c: usize = 0;
    let mut i: usize = 0;
    while i < n
        invariant
            n == edges.len(),
            0 <= i <= n,
            k == edge_key(e),
            c == key_count(edges@.take(i as int), e),
            c <= i,
        decreases n - i,
    {
        let x = edges[i];
        proof {
            assert(edges@.take(i as int + 1) =~= edges@.take(i as int).push(x));
            lemma_key_count_push(edges@.take(i as int), x, e);
        }
        let kx = key_of(x.0, x.1);
        if kx.0 == k.0 && kx.1 == k.1 {
            c = c + 1;
        }
        i += 1;
    }
    assert(edges@.take(n as int) =~= edges@);
    c
}

/// The horizon seen from a new point: the edges of the visible faces that no
/// other visible face shares, each in its face's winding direction, in the
/// order of the faces and their corners.
pub fn horizon_edges(visible: &Vec<Face>) -> (h: Vec<(usize, usize)>)
    ensures
        h@ == horizon(visible@),
{
    let mut edges: Vec<(usize, usize)> = Vec::new();
    let nf = visible.len();
    let mut i: usize = 0;
    while i < nf
        invariant
            nf == visible.len(),
            0 <= i <= nf,
            edges@ == face_edges(visible@.take(i as int)),
        decreases nf - i,
    {
        let f = visible[i];
        proof {
            assert(visible@.take(i as int + 1) =~= visible@.take(i as int).push(f));
            lemma_face_edges_push(visible@.take(i as int), f);
        }
        edges.push((f.0, f.1));
        edges.push((f.1, f.2));
        edges.push((f.2, f.0));
        assert(edges@ =~= face_edges(visible@.take(i as int)) + seq![(f.0, f.1), (f.1, f.2), (f.2, f.0)]);
        i += 1;
    }
    assert(visible@.take(nf as int) =~= visible@);
    let m = edges.len();
    let mut h: Vec<(usize, usize)> = Vec::new();
    let mut k: usize = 0;
    while k < m
        invariant
            m == edges.len(),
            0 <= k <= m,
            edges@ == face_edges(visible@),
            h@ == lone_edges(edges@, k as int),
        decreases m - k,
    {
        let e = edges[k];
        if count_key(&edges, e) == 1 {
            h.push(e);
        }
        k += 1;
    }
    h
}

proof fn lemma_key_count_pos(edges: Seq<(usize, usize)>, i: int)
    requires
        0 <= i < edges.len(),
    ensures
        key_count(edges, edges[i]) >= 1,
    decreases edges.len(),
{
    if i < edges.len() - 1 {
        lemma_key_count_pos(edges.drop_last(), i);
        assert(edges.drop_last()[i] == edges[i]);
    }
}

proof fn lemma_key_count_two(edges: Seq<(usize, usize)>, i: int, j: int)
    requires
        0 <= i < j < edges.len(),
        edge_key(edges[i]) == edge_key(edges[j]),
    ensures
        key_count(edges, edges[i]) >= 2,
    decreases edges.len(),
{
    if j < edges.len() - 1 {
        lemma_key_count_two(edges.drop_last(), i, j);
        assert(edges.drop_last()[i] == edges[i]);
        assert(edges.drop_last()[j] == edges[j]);
    } else {
        lemma_key_count_pos(edges.drop_last(), i);
        assert(edges.drop_last()[i] == edges[i]);
    }
}

proof fn lemma_lone_edges_facts(edges: Seq<(usize, usize)>, k: int)
    requires
        0 <= k <= edges.len(),
    ensures
        forall|i: int|
            0 <= i < lone_edges(edges, k).len() ==> key_count(
                edges,
                #[trigger] lone_edges(edges, k)[i],
            ) == 1 && edges.contains(lone_edges(edges, k)[i]),
        forall|q: int|
            0 <= q < k && key_count(edges, #[trigger] edges[q]) == 1 ==> lone_edges(
                edges,
                k,
            ).contains(edges[q]),
    decreases k,
{
    if k > 0 {
        lemma_lone_edges_facts(edges, k - 1);
        let prev = lone_edges(edges, k - 1);
        let cur = lone_edges(edges, k);
        assert forall|i: int| 0 <= i < cur.len() implies key_count(edges, #[trigger] cur[i]) == 1
            && edges.contains(cur[i]) by {
            if i < prev.len() {
                assert(cur[i] == prev[i]);
            } else {
                assert(cur[i] == edges[k - 1]);
            }
        }
        assert forall|q: int| 0 <= q < k && key_count(edges, #[trigger] edges[q]) == 1 implies cur.contains(
            edges[q],
        ) by {
            if q < k - 1 {
                let p = choose|p: int| 0 <= p < prev.len() && prev[p] == edges[q];
                assert(cur[p] == prev[p]);
            } else {
                assert(cur[prev.len() as int] == edges[q]);
            }
        }
    }
}

/// The horizon is made of the visible faces' edges that exactly one of them
/// has, every such edge is on it, and no two horizon edges join the same two
/// points.
pub proof fn lemma_horizon_edges_are_lone(visible: Seq<Face>)
    ensures
        ({
            let edges = face_edges(visible);
            let h = horizon(visible);
            &&& forall|i: int| 0 <= i < h.len() ==> key_count(edges, #[trigger] h[i]) == 1
                && edges.contains(h[i])
            &&& forall|q: int|
                0 <= q < edges.len() && key_count(edges, #[trigger] edges[q]) == 1 ==> h.contains(
                    edges[q],
                )
            &&& forall|i: int, j: int|
                0 <= i < j < h.len() ==> edge_key(#[trigger] h[i]) != edge_key(#[trigger] h[j])
        }),
{
    let edges = face_edges(visible);
    let h = horizon(visible);
    lemma_lone_edges_facts(edges, edges.len() as int);
    assert forall|i: int, j: int| 0 <= i < j < h.len() implies edge_key(#[trigger] h[i]) != edge_key(
        #[trigger] h[j],
    ) by {
        lemma_lone_indices(edges, edges.len() as int, i, j);
    }
}

proof fn lemma_lone_indices(edges: Seq<(usize, usize)>, k: int, i: int, j: int)
    requires
        0 <= k <= edges.len(),
        0 <= i < j < lone_edges(edges, k).len(),
    ensures
        edge_key(lone_edges(edges, k)[i]) != edge_key(lone_edges(edges, k)[j]),
    decreases k,
{
    let prev = lone_edges(edges, k - 1);
    let cur = lone_edges(edges, k);
    if j < prev.len() {
        assert(cur[i] == prev[i] && cur[j] == prev[j]);
        lemma_lone_indices(edges, k - 1, i, j);
    } else {
        lemma_lone_positions(edges, k - 1, i);
        lemma_lone_edges_facts(edges, k - 1);
        assert(key_count(edges, prev[i]) == 1);
        let q = choose|q: int| 0 <= q < k - 1 && edges[q] == prev[i];
        assert(cur[i] == prev[i]);
        assert(cur[j] == edges[k - 1]);
        if edge_key(edges[q]) == edge_key(edges[k - 1]) {
            lemma_key_count_two(edges, q, k - 1);
        }
    }
}

proof fn lemma_lone_positions(edges: Seq<(usize, usize)>, k: int, i: int)
    requires
        0 <= k <= edges.len(),
        0 <= i < lone_edges(edges, k).len(),
    ensures
        exists|q: int| 0 <= q < k && edges[q] == lone_edges(edges, k)[i],
    decreases k,
{
    let prev = lone_edges(edges, k - 1);
    if i < prev.len() {
        lemma_lone_positions(edges, k - 1, i);
        assert(lone_edges(edges, k)[i] == prev[i]);
    } else {
        assert(edges[k - 1] == lone_edges(edges, k)[i]);
    }
}

} // verus!
