//! Undirected edges of an indexed triangle list and how often each is used.
use vstd::prelude::*;
use std::collections::HashMap;
use crate::island::{cell_key, lemma_cell_key_injective, key_of};

verus! {

broadcast use vstd::std_specs::hash::group_hash_axioms;

/// An undirected edge, stored with its smaller vertex first.
pub type Edge = (u32, u32);

/// The undirected edge joining `a` and `b`.
pub open spec fn edge_of(a: u32, b: u32) -> Edge {
    if a < b {
        (a, b)
    } else {
        (b, a)
    }
}

/// The three edges of triangle `(a, b, c)`: `a-b`, `b-c`, `c-a`.
pub open spec fn tri_edges(a: u32, b: u32, c: u32) -> Seq<Edge> {
    seq![edge_of(a, b), edge_of(b, c), edge_of(c, a)]
}

/// The edges of all triangles of a flat index list, three per triangle, in order.
/// Indices after the last complete triangle are ignored.
pub open spec fn mesh_edges(indices: Seq<u32>) -> Seq<Edge>
    decreases indices.len(),
{
    if indices.len() < 3 {
        Seq::empty()
    } else {
        let n = indices.len() as int;
        let rest = indices.subrange(0, n - 3 - (n % 3));
        if n % 3 == 0 {
            mesh_edges(indices.subrange(0, n - 3)) + tri_edges(
                indices[n - 3],
                indices[n - 2],
                indices[n - 1],
            )
        } else {
            mesh_edges(indices.subrange(0, n - (n % 3)))
        }
    }
}

/// The distinct elements of `s` in order of first occurrence.
pub open spec fn first_occurrences<A>(s: Seq<A>) -> Seq<A>
    decreases s.len(),
{
    if s.len() == 0 {
        Seq::empty()
    } else {
        let r = first_occurrences(s.drop_last());
        if r.contains(s.last()) {
            r
        } else {
            r.push(s.last())
        }
    }
}

/// The test that an edge is used by exactly one triangle side.
pub open spec fn is_boundary_in(indices: Seq<u32>) -> spec_fn(Edge) -> bool {
    |e: Edge| edge_uses(indices, e) == 1
}

/// The boundary edges of the mesh in order of first occurrence.
pub open spec fn boundary_sequence(indices: Seq<u32>) -> Seq<Edge> {
    first_occurrences(mesh_edges(indices)).filter(is_boundary_in(indices))
}

/// How many times edge `e` occurs in `edges`.
pub open spec fn occurrences(edges: Seq<Edge>, e: Edge) -> nat {
    edges.filter(|x: Edge| x == e).len()
}

/// How many triangle sides of the mesh lie on edge `e`.
pub open spec fn edge_uses(indices: Seq<u32>, e: Edge) -> nat {
    occurrences(mesh_edges(indices), e)
}

/// The distinct undirected edges of the mesh.
pub open spec fn edge_set(indices: Seq<u32>) -> Set<Edge> {
    mesh_edges(indices).to_set()
}

/// The boundary edges of the mesh: edges used by exactly one triangle side.
pub open spec fn boundary_edge_set(indices: Seq<u32>) -> Set<Edge> {
    edge_set(indices).filter(|e: Edge| edge_uses(indices, e) == 1)
}

/// The mesh edges of a whole number of leading triangles, one triangle more.
proof fn lemma_mesh_edges_step(indices: Seq<u32>, t: int)
    requires
        0 <= t,
        3 * t + 3 <= indices.len(),
    ensures
        mesh_edges(indices.take(3 * t + 3)) == mesh_edges(indices.take(3 * t)) + tri_edges(
            indices[3 * t],
            indices[3 * t + 1],
            indices[3 * t + 2],
        ),
{
    let s = indices.take(3 * t + 3);
    assert(s.subrange(0, 3 * t) =~= indices.take(3 * t));
}

/// Ignoring a trailing partial triangle.
proof fn lemma_mesh_edges_whole(indices: Seq<u32>)
    ensures
        mesh_edges(indices) == mesh_edges(indices.take(3 * (indices.len() / 3) as int)),
{
    let n = indices.len() as int;
    if n >= 3 && n % 3 != 0 {
        assert(indices.subrange(0, n - (n % 3)) =~= indices.take(3 * (n / 3)));
        let m = indices.take(3 * (n / 3));
        assert(m.len() % 3 == 0);
        if m.len() >= 3 {
        }
    } else if n < 3 {
        assert(indices.take(3 * (n / 3)).len() < 3);
    } else {
        assert(indices.take(3 * (n / 3)) =~= indices);
    }
}

/// Counting an edge in a sequence with one more element.
proof fn lemma_occurrences_push(edges: Seq<Edge>, x: Edge, e: Edge)
    ensures
        occurrences(edges.push(x), e) == occurrences(edges, e) + (if x == e { 1nat } else { 0nat }),
{
    reveal(Seq::filter);
    assert(edges.push(x).drop_last() =~= edges);
}

/// An edge absent from a sequence occurs zero times in it.
proof fn lemma_occurrences_absent(edges: Seq<Edge>, e: Edge)
    requires
        !edges.contains(e),
    ensures
        occurrences(edges, e) == 0,
    decreases edges.len(),
{
    reveal(Seq::filter);
    if edges.len() > 0 {
        assert(!edges.drop_last().contains(e)) by {
            if edges.drop_last().contains(e) {
                let i = choose|i: int| 0 <= i < edges.drop_last().len() && edges.drop_last()[i] == e;
                assert(edges[i] == e);
            }
        }
        lemma_occurrences_absent(edges.drop_last(), e);
        assert(edges.last() != e) by {
            assert(edges[edges.len() - 1] == edges.last());
        }
    }
}

/// The distinct edges of a mesh, in order of first occurrence, with the
/// number of triangle sides on each.
pub struct EdgeTable {
    pub edges: Vec<Edge>,
    pub uses: Vec<usize>,
}

/// The normalised edge joining `a` and `b`.
pub fn make_edge(a: u32, b: u32) -> (e: Edge)
    ensures
        e == edge_of(a, b),
        e.0 <= e.1,
{
    if a < b {
        (a, b)
    } else {
        (b, a)
    }
}

/// Records one triangle side on edge `e`.
fn record_edge(
    table: &mut EdgeTable,
    slots: &mut HashMap<u64, usize>,
    e: Edge,
    Ghost(seen): Ghost<Seq<Edge>>,
    limit: usize,
)
    requires
        old(table).edges@.no_duplicates(),
        old(table).edges@.to_set() == seen.to_set(),
        old(table).edges@ == first_occurrences(seen),
        old(table).uses.len() == old(table).edges.len(),
        forall|s: int|
            0 <= s < old(table).edges.len() ==> #[trigger] old(table).uses@[s] == occurrences(
                seen,
                old(table).edges@[s],
            ),
        forall|k: u64|
            #![trigger old(slots)@[k]]
            old(slots)@.contains_key(k) ==> 0 <= old(slots)@[k] < old(table).edges.len() && cell_key(
                old(table).edges@[old(slots)@[k] as int],
            ) == k,
        forall|s: int|
            0 <= s < old(table).edges.len() ==> old(slots)@.contains_key(
                #[trigger] cell_key(old(table).edges@[s]),
            ),
        seen.len() < limit,
    ensures
        final(table).edges@.no_duplicates(),
        final(table).edges@.to_set() == seen.push(e).to_set(),
        final(table).edges@ == first_occurrences(seen.push(e)),
        final(table).uses.len() == final(table).edges.len(),
        forall|s: int|
            0 <= s < final(table).edges.len() ==> #[trigger] final(table).uses@[s] == occurrences(
                seen.push(e),
                final(table).edges@[s],
            ),
        forall|k: u64|
            #![trigger final(slots)@[k]]
            final(slots)@.contains_key(k) ==> 0 <= final(slots)@[k] < final(table).edges.len()
                && cell_key(final(table).edges@[final(slots)@[k] as int]) == k,
        forall|s: int|
            0 <= s < final(table).edges.len() ==> final(slots)@.contains_key(
                #[trigger] cell_key(final(table).edges@[s]),
            ),
        forall|s: int|
            0 <= s < old(table).edges.len() ==> final(table).edges@[s] == old(table).edges@[s],
        old(table).edges.len() <= final(table).edges.len(),
{
    let k = key_of(e);
    let ghost old_edges = table.edges@;
    let ghost old_uses = table.uses@;
    assert forall|s: int| 0 <= s < old_edges.len() implies #[trigger] old_uses[s] <= seen.len() by {
        seen.filter(|x: Edge| x == old_edges[s]).lemma_filter_len(|x: Edge| x == old_edges[s]);
    }
    match slots.get(&k) {
        Some(s) => {
            let s = *s;
            proof {
                lemma_cell_key_injective(table.edges@[s as int], e);
                seen.filter(|x: Edge| x == e).lemma_filter_len(|x: Edge| x == e);
            }
            let u = table.uses[s];
            table.uses.set(s, u + 1);
            proof {
                assert forall|s2: int| 0 <= s2 < table.edges.len() implies #[trigger] table.uses@[s2]
                    == occurrences(seen.push(e), table.edges@[s2]) by {
                    lemma_occurrences_push(seen, e, table.edges@[s2]);
                    if s2 != s {
                        assert(table.edges@[s2] != e);
                    }
                }
                seen.lemma_push_to_set_commute(e);
                assert(seen.push(e).drop_last() =~= seen);
                assert(table.edges@.contains(e)) by {
                    assert(table.edges@[s as int] == e);
                }
                assert(seen.to_set().contains(e)) by {
                    assert(table.edges@.to_set().contains(e)) by {
                        assert(table.edges@[s as int] == e);
                    }
                }
            }
        },
        None => {
            proof {
                if table.edges@.contains(e) {
                    let s2 = choose|s2: int| 0 <= s2 < table.edges.len() && table.edges@[s2] == e;
                    assert(slots@.contains_key(cell_key(table.edges@[s2])));
                }
                assert(!seen.contains(e)) by {
                    if seen.contains(e) {
                        assert(seen.to_set().contains(e));
                        assert(table.edges@.to_set().contains(e));
                    }
                }
                lemma_occurrences_absent(seen, e);
                lemma_occurrences_push(seen, e, e);
            }
            assert(seen.push(e).drop_last() =~= seen);
            let slot = table.edges.len();
            table.edges.push(e);
            table.uses.push(1);
            slots.insert(k, slot);
            proof {
                assert(table.edges@ == old_edges.push(e));
                assert forall|s2: int| 0 <= s2 < table.edges.len() implies #[trigger] table.uses@[s2]
                    == occurrences(seen.push(e), table.edges@[s2]) by {
                    lemma_occurrences_push(seen, e, table.edges@[s2]);
                    if s2 < old_edges.len() {
                        assert(table.edges@[s2] == old_edges[s2]);
                        assert(old_edges[s2] != e);
                    }
                }
                seen.lemma_push_to_set_commute(e);
                old_edges.lemma_push_to_set_commute(e);
                assert(table.edges@.no_duplicates()) by {
                    assert forall|i: int, j: int|
                        0 <= i < table.edges.len() && 0 <= j < table.edges.len() && i != j implies
                        table.edges@[i] != table.edges@[j] by {
                        if i == old_edges.len() as int {
                            assert(old_edges.to_set().contains(table.edges@[j]) || j == i);
                        } else if j == old_edges.len() as int {
                            assert(old_edges.to_set().contains(table.edges@[i]));
                        }
                    }
                }
                assert forall|k2: u64|
                    #![trigger slots@[k2]]
                    slots@.contains_key(k2) implies 0 <= slots@[k2] < table.edges.len() && cell_key(
                        table.edges@[slots@[k2] as int],
                    ) == k2 by {
                    if k2 != k {
                        assert(table.edges@[slots@[k2] as int] == old_edges[slots@[k2] as int]);
                    }
                }
                assert forall|s2: int| 0 <= s2 < table.edges.len() implies slots@.contains_key(
                    #[trigger] cell_key(table.edges@[s2]),
                ) by {
                    if s2 < old_edges.len() {
                        assert(table.edges@[s2] == old_edges[s2]);
                    }
                }
            }
        },
    }
}

/// Builds the edge table of the complete triangles of a flat index list.
pub fn build_edge_table(indices: &Vec<u32>) -> (table: EdgeTable)
    ensures
        table.edges@.no_duplicates(),
        table.edges@.to_set() == edge_set(indices@),
        table.edges@ == first_occurrences(mesh_edges(indices@)),
        table.uses.len() == table.edges.len(),
        forall|s: int|
            0 <= s < table.edges.len() ==> #[trigger] table.uses@[s] == edge_uses(
                indices@,
                table.edges@[s],
            ),
{
    let tri_count = indices.len() / 3;
    let mut table = EdgeTable { edges: Vec::new(), uses: Vec::new() };
    let mut slots: HashMap<u64, usize> = HashMap::new();
    proof {
        assert(indices@.take(0).len() < 3);
        assert(table.edges@.to_set() =~= mesh_edges(indices@.take(0)).to_set());
    }
    for t in 0..tri_count
        invariant
            tri_count == indices.len() / 3,
            table.edges@.no_duplicates(),
            table.edges@.to_set() == mesh_edges(indices@.take(3 * t)).to_set(),
            table.edges@ == first_occurrences(mesh_edges(indices@.take(3 * t))),
            table.uses.len() == table.edges.len(),
            mesh_edges(indices@.take(3 * t)).len() == 3 * t,
            forall|s: int|
                0 <= s < table.edges.len() ==> #[trigger] table.uses@[s] == occurrences(
                    mesh_edges(indices@.take(3 * t)),
                    table.edges@[s],
                ),
            forall|k: u64|
                #![trigger slots@[k]]
                slots@.contains_key(k) ==> 0 <= slots@[k] < table.edges.len() && cell_key(
                    table.edges@[slots@[k] as int],
                ) == k,
            forall|s: int|
                0 <= s < table.edges.len() ==> slots@.contains_key(
                    #[trigger] cell_key(table.edges@[s]),
                ),
    {
        let a = indices[3 * t];
        let b = indices[3 * t + 1];
        let c = indices[3 * t + 2];
        let ghost prefix = mesh_edges(indices@.take(3 * t));
        proof {
            lemma_mesh_edges_step(indices@, t as int);
        }
        let e0 = make_edge(a, b);
        let e1 = make_edge(b, c);
        let e2 = make_edge(c, a);
        record_edge(&mut table, &mut slots, e0, Ghost(prefix), usize::MAX);
        record_edge(&mut table, &mut slots, e1, Ghost(prefix.push(e0)), usize::MAX);
        record_edge(&mut table, &mut slots, e2, Ghost(prefix.push(e0).push(e1)), usize::MAX);
        proof {
            assert(prefix.push(e0).push(e1).push(e2) =~= mesh_edges(indices@.take(3 * t + 3)));
        }
    }
    proof {
        lemma_mesh_edges_whole(indices@);
    }
    table
}

/// The boundary edges recorded in an edge table, in table order.
#[verifier::loop_isolation(false)]
pub fn boundary_of_table(table: &EdgeTable, Ghost(indices): Ghost<Seq<u32>>) -> (b: Vec<Edge>)
    requires
        table.edges@.no_duplicates(),
        table.edges@.to_set() == edge_set(indices),
        table.uses.len() == table.edges.len(),
        forall|s: int|
            0 <= s < table.edges.len() ==> #[trigger] table.uses@[s] == edge_uses(
                indices,
                table.edges@[s],
            ),
    ensures
        b@.no_duplicates(),
        b@.to_set() == boundary_edge_set(indices),
        b@ == table.edges@.filter(is_boundary_in(indices)),
        forall|j: int| 0 <= j < b.len() ==> table.edges@.contains(#[trigger] b@[j]),
{
    let mut b: Vec<Edge> = Vec::new();
    let n = table.edges.len();
    for s in 0..n
        invariant
            n == table.edges.len(),
            b@ == table.edges@.take(s as int).filter(is_boundary_in(indices)),
            b@.no_duplicates(),
            forall|j: int|
                0 <= j < b.len() ==> exists|s2: int|
                    0 <= s2 < s && #[trigger] table.edges@[s2] == #[trigger] b@[j],
            forall|e: Edge|
                #![trigger b@.contains(e)]
                b@.contains(e) <==> (exists|s2: int|
                    0 <= s2 < s && table.edges@[s2] == e && table.uses@[s2] == 1),
    {
        proof {
            reveal(Seq::filter);
            assert(table.edges@.take(s + 1).drop_last() =~= table.edges@.take(s as int));
            assert(table.edges@.take(s + 1).last() == table.edges@[s as int]);
            assert(is_boundary_in(indices)(table.edges@[s as int]) == (table.uses@[s as int] == 1));
        }
        if table.uses[s] == 1 {
            let e = table.edges[s];
            proof {
                assert forall|j: int| 0 <= j < b.len() implies b@[j] != e by {
                    let s2 = choose|s2: int|
                        0 <= s2 < s && #[trigger] table.edges@[s2] == #[trigger] b@[j];
                    assert(table.edges@[s2] != table.edges@[s as int]);
                }
            }
            let ghost old_b = b@;
            assert(forall|x: Edge| #[trigger] old_b.contains(x) <==> (exists|s2: int|
                0 <= s2 < s && table.edges@[s2] == x && table.uses@[s2] == 1));
            b.push(e);
            proof {
                assert(b@ == old_b.push(e));
                assert forall|j: int| 0 <= j < b.len() implies exists|s2: int|
                    0 <= s2 < s + 1 && #[trigger] table.edges@[s2] == #[trigger] b@[j] by {
                    if j == b.len() - 1 {
                        assert(table.edges@[s as int] == b@[j]);
                    } else {
                        assert(old_b[j] == b@[j]);
                        let s2 = choose|s2: int|
                            0 <= s2 < s && #[trigger] table.edges@[s2] == #[trigger] old_b[j];
                        assert(table.edges@[s2] == b@[j]);
                    }
                }
                assert forall|x: Edge| #[trigger] b@.contains(x) <==> (exists|s2: int|
                    0 <= s2 < s + 1 && table.edges@[s2] == x && table.uses@[s2] == 1) by {
                    if b@.contains(x) && x != e {
                        let j = choose|j: int| 0 <= j < b.len() && b@[j] == x;
                        assert(old_b[j] == x);
                        assert(old_b.contains(x));
                        let s2 = choose|s2: int| 0 <= s2 < s && table.edges@[s2] == x && table.uses@[s2] == 1;
                        assert(0 <= s2 < s + 1 && table.edges@[s2] == x && table.uses@[s2] == 1);
                    }
                    if x == e {
                        assert(b@[b.len() - 1] == x);
                        assert(table.edges@[s as int] == x && table.uses@[s as int] == 1);
                    }
                    if (exists|s2: int| 0 <= s2 < s + 1 && table.edges@[s2] == x && table.uses@[s2] == 1) {
                        let s2 = choose|s2: int| 0 <= s2 < s + 1 && table.edges@[s2] == x && table.uses@[s2] == 1;
                        if s2 < s {
                            assert(old_b.contains(x));
                            let j = choose|j: int| 0 <= j < old_b.len() && old_b[j] == x;
                            assert(b@[j] == x);
                        } else {
                            assert(b@[b.len() - 1] == x);
                        }
                    }
                }
            }
        } else {
            proof {
                assert forall|x: Edge| #[trigger] b@.contains(x) <==> (exists|s2: int|
                    0 <= s2 < s + 1 && table.edges@[s2] == x && table.uses@[s2] == 1) by {
                    if (exists|s2: int| 0 <= s2 < s + 1 && table.edges@[s2] == x && table.uses@[s2] == 1) {
                        let s2 = choose|s2: int| 0 <= s2 < s + 1 && table.edges@[s2] == x && table.uses@[s2] == 1;
                        assert(s2 != s);
                    }
                }
            }
        }
    }
    proof {
        assert(table.edges@.take(n as int) =~= table.edges@);
        assert forall|e: Edge| b@.to_set().contains(e) <==> boundary_edge_set(indices).contains(e) by {
            if b@.contains(e) {
                let s2 = choose|s2: int| 0 <= s2 < n && table.edges@[s2] == e && table.uses@[s2] == 1;
                assert(table.edges@.to_set().contains(e));
            }
            if boundary_edge_set(indices).contains(e) {
                assert(table.edges@.to_set().contains(e));
                let s2 = choose|s2: int| 0 <= s2 < n && table.edges@[s2] == e;
                assert(table.uses@[s2] == 1);
            }
        }
        assert(b@.to_set() =~= boundary_edge_set(indices));
        assert forall|j: int| 0 <= j < b.len() implies table.edges@.contains(#[trigger] b@[j]) by {
            let s2 = choose|s2: int| 0 <= s2 < n && #[trigger] table.edges@[s2] == #[trigger] b@[j];
        }
    }
    b
}

/// A flat index list whose length is a multiple of three has one edge per index.
pub proof fn lemma_mesh_edges_len(indices: Seq<u32>)
    requires
        indices.len() % 3 == 0,
    ensures
        mesh_edges(indices).len() == indices.len(),
    decreases indices.len(),
{
    if indices.len() >= 3 {
        lemma_mesh_edges_len(indices.subrange(0, indices.len() - 3));
    }
}

/// `e` is the undirected edge between `a` and `b`: those two vertices, the
/// smaller first.
pub open spec fn joins(e: Edge, a: u32, b: u32) -> bool {
    e.0 <= e.1 && ((e.0 == a && e.1 == b) || (e.0 == b && e.1 == a))
}

/// The vertex that triangle side `k` (side `k % 3` of triangle `k / 3`)
/// starts from.
pub open spec fn side_from(indices: Seq<u32>, k: int) -> u32 {
    indices[k]
}

/// The vertex that triangle side `k` (side `k % 3` of triangle `k / 3`) runs
/// to: the next corner of the same triangle.
pub open spec fn side_to(indices: Seq<u32>, k: int) -> u32 {
    indices[3 * (k / 3) + (k % 3 + 1) % 3]
}

/// Entry `k` of the mesh edges is the edge of triangle side `k`.
proof fn lemma_mesh_edges_at(indices: Seq<u32>)
    requires
        indices.len() % 3 == 0,
    ensures
        mesh_edges(indices).len() == indices.len(),
        forall|k: int|
            0 <= k < indices.len() ==> joins(
                #[trigger] mesh_edges(indices)[k],
                side_from(indices, k),
                side_to(indices, k),
            ),
    decreases indices.len(),
{
    lemma_mesh_edges_len(indices);
    let n = indices.len() as int;
    if n >= 3 {
        let r = indices.subrange(0, n - 3);
        lemma_mesh_edges_at(r);
        let t = tri_edges(indices[n - 3], indices[n - 2], indices[n - 1]);
        assert forall|k: int| 0 <= k < n implies joins(
            #[trigger] mesh_edges(indices)[k],
            side_from(indices, k),
            side_to(indices, k),
        ) by {
            if k >= n - 3 {
                assert(mesh_edges(indices)[k] == t[k - (n - 3)]);
                assert(k / 3 == (n - 3) / 3 && 3 * ((n - 3) / 3) == n - 3);
            } else {
                assert(mesh_edges(indices)[k] == mesh_edges(r)[k]);
                assert(k / 3 < (n - 3) / 3 + 1);
                assert(3 * (k / 3) + 2 < n - 3);
                assert(side_from(r, k) == side_from(indices, k));
                assert(side_to(r, k) == side_to(indices, k));
            }
        }
    }
}

/// `e` is at entry `q` of `edges` and at no other.
pub open spec fn only_at(edges: Seq<Edge>, e: Edge, q: int) -> bool {
    0 <= q < edges.len() && edges[q] == e && forall|q2: int|
        0 <= q2 < edges.len() && q2 != q ==> #[trigger] edges[q2] != e
}

/// An edge that occurs once is at exactly one entry.
proof fn lemma_once_at(edges: Seq<Edge>, e: Edge)
    requires
        occurrences(edges, e) == 1,
    ensures
        exists|q: int| #[trigger] only_at(edges, e, q),
    decreases edges.len(),
{
    let rest = edges.drop_last();
    let x = edges.last();
    assert(edges == rest.push(x));
    lemma_occurrences_push(rest, x, e);
    let last = edges.len() - 1;
    if x == e {
        if rest.contains(e) {
            let q3 = choose|q3: int| 0 <= q3 < rest.len() && rest[q3] == e;
            lemma_occ_pos(rest, e, q3);
        }
        assert forall|q2: int| 0 <= q2 < edges.len() && q2 != last implies #[trigger] edges[q2] != e by {
            assert(edges[q2] == rest[q2]);
        }
        assert(only_at(edges, e, last));
    } else {
        lemma_once_at(rest, e);
        let q = choose|q: int| #[trigger] only_at(rest, e, q);
        assert forall|q2: int| 0 <= q2 < edges.len() && q2 != q implies #[trigger] edges[q2] != e by {
            if q2 < rest.len() {
                assert(rest[q2] != e);
            }
        }
        assert(only_at(edges, e, q));
    }
}

/// An edge at exactly one entry occurs once.
proof fn lemma_at_once(edges: Seq<Edge>, e: Edge, q: int)
    requires
        only_at(edges, e, q),
    ensures
        occurrences(edges, e) == 1,
    decreases edges.len(),
{
    let rest = edges.drop_last();
    let x = edges.last();
    assert(edges == rest.push(x));
    lemma_occurrences_push(rest, x, e);
    if q == edges.len() - 1 {
        assert(!rest.contains(e)) by {
            if rest.contains(e) {
                let q3 = choose|q3: int| 0 <= q3 < rest.len() && rest[q3] == e;
                assert(edges[q3] == e);
            }
        }
        lemma_occurrences_absent(rest, e);
    } else {
        assert(edges[edges.len() - 1] != e);
        assert forall|q2: int| 0 <= q2 < rest.len() && q2 != q implies #[trigger] rest[q2] != e by {
            assert(edges[q2] != e);
        }
        assert(only_at(rest, e, q));
        lemma_at_once(rest, e, q);
    }
}

/// An edge found at an entry occurs at least once.
proof fn lemma_occ_pos(edges: Seq<Edge>, e: Edge, q: int)
    requires
        0 <= q < edges.len(),
        edges[q] == e,
    ensures
        occurrences(edges, e) > 0,
    decreases edges.len(),
{
    let rest = edges.drop_last();
    let x = edges.last();
    assert(edges == rest.push(x));
    lemma_occurrences_push(rest, x, e);
    if q < rest.len() {
        assert(rest[q] == e);
        lemma_occ_pos(rest, e, q);
    }
}

/// The edges of a mesh are exactly the undirected edges of its triangle
/// sides, and its boundary edges exactly those that one side, and no other,
/// lies on.
pub proof fn lemma_edges_are_sides(indices: Seq<u32>)
    requires
        indices.len() % 3 == 0,
    ensures
        forall|e: Edge|
            #[trigger] edge_set(indices).contains(e) <==> exists|k: int|
                0 <= k < indices.len() && joins(e, side_from(indices, k), side_to(indices, k)),
        forall|e: Edge|
            #[trigger] boundary_edge_set(indices).contains(e) <==> exists|k: int|
                0 <= k < indices.len() && joins(e, side_from(indices, k), side_to(indices, k)) && forall|k2: int|
                    0 <= k2 < indices.len() && k2 != k ==> !joins(
                        e,
                        #[trigger] side_from(indices, k2),
                        side_to(indices, k2),
                    ),
{
    lemma_mesh_edges_at(indices);
    let me = mesh_edges(indices);
    assert forall|e: Edge, k: int| 0 <= k < indices.len() implies (me[k] == e <==> joins(
        e,
        side_from(indices, k),
        side_to(indices, k),
    )) by {
        assert(joins(me[k], side_from(indices, k), side_to(indices, k)));
    }
    assert forall|e: Edge| #[trigger] edge_set(indices).contains(e) <==> exists|k: int|
        0 <= k < indices.len() && joins(e, side_from(indices, k), side_to(indices, k)) by {
        if edge_set(indices).contains(e) {
            let k = choose|k: int| 0 <= k < me.len() && me[k] == e;
            assert(joins(e, side_from(indices, k), side_to(indices, k)));
        }
        if exists|k: int| 0 <= k < indices.len() && joins(e, side_from(indices, k), side_to(indices, k)) {
            let k = choose|k: int| 0 <= k < indices.len() && joins(e, side_from(indices, k), side_to(indices, k));
            assert(me[k] == e);
            assert(me.contains(e));
        }
    }
    assert forall|e: Edge| #[trigger] boundary_edge_set(indices).contains(e) <==> exists|k: int|
        0 <= k < indices.len() && joins(e, side_from(indices, k), side_to(indices, k)) && forall|k2: int|
            0 <= k2 < indices.len() && k2 != k ==> !joins(e, #[trigger] side_from(indices, k2), side_to(indices, k2)) by {
        if boundary_edge_set(indices).contains(e) {
            assert(edge_uses(indices, e) == 1);
            lemma_once_at(me, e);
            let q = choose|q: int| #[trigger] only_at(me, e, q);
            assert forall|k2: int| 0 <= k2 < indices.len() && k2 != q implies !joins(e, #[trigger] side_from(indices, k2), side_to(indices, k2)) by {
                assert(me[k2] != e);
            }
            assert(joins(e, side_from(indices, q), side_to(indices, q)));
        }
        if exists|k: int|
            0 <= k < indices.len() && joins(e, side_from(indices, k), side_to(indices, k)) && forall|k2: int|
                0 <= k2 < indices.len() && k2 != k ==> !joins(e, #[trigger] side_from(indices, k2), side_to(indices, k2)) {
            let k = choose|k: int|
                0 <= k < indices.len() && joins(e, side_from(indices, k), side_to(indices, k)) && forall|k2: int|
                    0 <= k2 < indices.len() && k2 != k ==> !joins(e, #[trigger] side_from(indices, k2), side_to(indices, k2));
            assert(me[k] == e);
            assert forall|q2: int| 0 <= q2 < me.len() && q2 != k implies #[trigger] me[q2] != e by {
                assert(!joins(e, side_from(indices, q2), side_to(indices, q2)));
            }
            assert(only_at(me, e, k));
            lemma_at_once(me, e, k);
            assert(edge_uses(indices, e) == 1);
            assert(me.contains(e));
            assert(edge_set(indices).contains(e));
        }
    }
}

/// Every mesh edge is stored with its smaller vertex first.
pub proof fn lemma_mesh_edges_ordered(indices: Seq<u32>)
    ensures
        forall|k: int| 0 <= k < mesh_edges(indices).len() ==> (#[trigger] mesh_edges(indices)[k]).0
            <= mesh_edges(indices)[k].1,
    decreases indices.len(),
{
    let n = indices.len() as int;
    if n >= 3 {
        if n % 3 == 0 {
            let r = indices.subrange(0, n - 3);
            lemma_mesh_edges_ordered(r);
            let t = tri_edges(indices[n - 3], indices[n - 2], indices[n - 1]);
            assert forall|k: int| 0 <= k < mesh_edges(indices).len() implies (
            #[trigger] mesh_edges(indices)[k]).0 <= mesh_edges(indices)[k].1 by {
                if k >= mesh_edges(r).len() {
                    assert(mesh_edges(indices)[k] == t[k - mesh_edges(r).len()]);
                } else {
                    assert(mesh_edges(indices)[k] == mesh_edges(r)[k]);
                }
            }
        } else {
            let r = indices.subrange(0, n - (n % 3));
            lemma_mesh_edges_ordered(r);
            assert(mesh_edges(indices) == mesh_edges(r));
        }
    }
}

/// What the first occurrences keep comes from the sequence.
pub proof fn lemma_first_occurrences_within<A>(s: Seq<A>)
    ensures
        forall|k: int| 0 <= k < first_occurrences(s).len() ==> s.contains(
            #[trigger] first_occurrences(s)[k],
        ),
    decreases s.len(),
{
    if s.len() > 0 {
        let r = first_occurrences(s.drop_last());
        lemma_first_occurrences_within(s.drop_last());
        assert forall|k: int| 0 <= k < first_occurrences(s).len() implies s.contains(
            #[trigger] first_occurrences(s)[k],
        ) by {
            if k < r.len() {
                assert(first_occurrences(s)[k] == r[k]);
                let j = choose|j: int| 0 <= j < s.drop_last().len() && s.drop_last()[j] == r[k];
                assert(s[j] == r[k]);
            } else {
                assert(first_occurrences(s)[k] == s.last());
                assert(s[s.len() - 1] == s.last());
            }
        }
    }
}

/// What a filter keeps comes from the sequence.
pub proof fn lemma_filter_within<A>(s: Seq<A>, pred: spec_fn(A) -> bool)
    ensures
        forall|k: int| 0 <= k < s.filter(pred).len() ==> s.contains(#[trigger] s.filter(pred)[k]),
    decreases s.len(),
{
    reveal(Seq::filter);
    if s.len() > 0 {
        let r = s.drop_last().filter(pred);
        lemma_filter_within(s.drop_last(), pred);
        assert forall|k: int| 0 <= k < s.filter(pred).len() implies s.contains(
            #[trigger] s.filter(pred)[k],
        ) by {
            if k < r.len() {
                assert(s.filter(pred)[k] == r[k]);
                let j = choose|j: int| 0 <= j < s.drop_last().len() && s.drop_last()[j] == r[k];
                assert(s[j] == r[k]);
            } else {
                assert(s.filter(pred)[k] == s.last());
                assert(s[s.len() - 1] == s.last());
            }
        }
    }
}

/// Each entry of the boundary sequence is a boundary edge, stored with its
/// smaller vertex first.
pub proof fn lemma_boundary_sequence_edges(indices: Seq<u32>)
    ensures
        forall|k: int| 0 <= k < boundary_sequence(indices).len() ==> {
            let e = #[trigger] boundary_sequence(indices)[k];
            e.0 <= e.1 && boundary_edge_set(indices).contains(e)
        },
{
    let me = mesh_edges(indices);
    let fo = first_occurrences(me);
    lemma_mesh_edges_ordered(indices);
    lemma_first_occurrences_within(me);
    lemma_filter_within(fo, is_boundary_in(indices));
    broadcast use Seq::lemma_filter_pred;
    assert forall|k: int| 0 <= k < boundary_sequence(indices).len() implies {
        let e = #[trigger] boundary_sequence(indices)[k];
        e.0 <= e.1 && boundary_edge_set(indices).contains(e)
    } by {
        let e = boundary_sequence(indices)[k];
        assert(fo.contains(e));
        let j = choose|j: int| 0 <= j < fo.len() && fo[j] == e;
        assert(me.contains(fo[j]));
        let i = choose|i: int| 0 <= i < me.len() && me[i] == e;
        assert(me[i].0 <= me[i].1);
        assert(is_boundary_in(indices)(e));
        assert(edge_set(indices).contains(e));
    }
}

} // verus!
