//! Boundary loops of an indexed triangle list, traced edge by edge, and the
//! fan triangulation that closes them.
use vstd::prelude::*;
use std::collections::HashMap;
use crate::edges::{
    Edge, edge_of, boundary_sequence, boundary_edge_set, edge_set, edge_uses, mesh_edges,
    lemma_boundary_sequence_edges,
};
use crate::adjacency::push_vertex_entry;

verus! {

broadcast use vstd::std_specs::hash::group_hash_axioms;

/// Edge `e` has `v` as one of its ends.
pub open spec fn touches(e: Edge, v: u32) -> bool {
    e.0 == v || e.1 == v
}

/// The end of `e` reached from `v` (`v` itself for an edge from `v` to `v`).
pub open spec fn other_end(e: Edge, v: u32) -> u32 {
    if e.0 == v {
        e.1
    } else {
        e.0
    }
}

/// Position `i` of `b` holds an edge at `v` that is not in `used`.
pub open spec fn free_at(b: Seq<Edge>, used: Set<int>, v: u32, i: int) -> bool {
    0 <= i < b.len() && touches(b[i], v) && !used.contains(i)
}

/// Position `i` is the first of `b` that is free at `v`.
pub open spec fn first_free_at(b: Seq<Edge>, used: Set<int>, v: u32, i: int) -> bool {
    free_at(b, used, v, i) && forall|j: int| 0 <= j < i ==> !#[trigger] free_at(b, used, v, j)
}

/// The first position of `b` whose edge is at `v` and not in `used`, if any.
pub open spec fn first_free(b: Seq<Edge>, used: Set<int>, v: u32) -> Option<int> {
    if exists|i: int| #[trigger] free_at(b, used, v, i) {
        Some(choose|i: int| #[trigger] first_free_at(b, used, v, i))
    } else {
        None
    }
}

/// A walk along the boundary edges `b` from vertex `cur`, heading back to
/// `start`: at each vertex the first free edge there is taken and marked
/// used; the walk ends on arriving at `start`, at a vertex with no free edge,
/// or after `fuel` edges.  The result is the vertices left, in order, and the
/// set of used positions afterwards.
pub open spec fn walk(b: Seq<Edge>, used: Set<int>, start: u32, cur: u32, fuel: nat) -> (
    Seq<u32>,
    Set<int>,
)
    decreases fuel,
{
    if fuel == 0 {
        (Seq::empty(), used)
    } else {
        match first_free(b, used, cur) {
            None => (Seq::empty(), used),
            Some(i) => {
                let next = other_end(b[i], cur);
                if next == start {
                    (seq![cur], used.insert(i))
                } else {
                    let rest = walk(b, used.insert(i), start, next, (fuel - 1) as nat);
                    (seq![cur] + rest.0, rest.1)
                }
            },
        }
    }
}

/// The loops traced from the boundary edges at positions `s..` of `b`: each
/// edge not yet used starts a walk from its smaller end, while fewer than
/// `max_groups` loops are kept; a walk of three or more vertices is a loop.
pub open spec fn loops_from(b: Seq<Edge>, used: Set<int>, groups: nat, max_groups: nat, s: int) -> Seq<
    Seq<u32>,
>
    decreases b.len() - s,
{
    if s < 0 || s >= b.len() {
        Seq::empty()
    } else if used.contains(s) || groups >= max_groups {
        loops_from(b, used, groups, max_groups, s + 1)
    } else {
        let w = walk(b, used, b[s].0, b[s].0, b.len());
        if w.0.len() >= 3 {
            seq![w.0] + loops_from(b, w.1, groups + 1, max_groups, s + 1)
        } else {
            loops_from(b, w.1, groups, max_groups, s + 1)
        }
    }
}

/// The boundary loops of a mesh, at most `max_groups` of them, traced in the
/// order in which their edges first occur.
pub open spec fn boundary_loops(indices: Seq<u32>, max_groups: nat) -> Seq<Seq<u32>> {
    loops_from(boundary_sequence(indices), Set::empty(), 0, max_groups, 0)
}

/// Entry `k` of the fan over a loop: triangle `k / 3` is
/// `(vs[0], vs[k / 3 + 1], vs[k / 3 + 2])`.
pub open spec fn fan_entry(vs: Seq<u32>, k: int) -> u32 {
    if k % 3 == 0 {
        vs[0]
    } else if k % 3 == 1 {
        vs[k / 3 + 1]
    } else {
        vs[k / 3 + 2]
    }
}

/// The first `t` triangles of the fan over a loop, as a flat index list.
pub open spec fn fan_prefix(vs: Seq<u32>, t: int) -> Seq<u32> {
    Seq::new((3 * t) as nat, |k: int| fan_entry(vs, k))
}

/// The fan triangulation of a loop of `n >= 3` vertices: `n - 2` triangles,
/// each made of the first vertex and two consecutive others.
pub open spec fn fan(vs: Seq<u32>) -> Seq<u32> {
    if vs.len() < 3 {
        Seq::empty()
    } else {
        fan_prefix(vs, vs.len() - 2)
    }
}

/// The fans over all loops, one after the other.
pub open spec fn fans(loops: Seq<Seq<u32>>) -> Seq<u32>
    decreases loops.len(),
{
    if loops.len() == 0 {
        Seq::empty()
    } else {
        fans(loops.drop_last()) + fan(loops.last())
    }
}

/// Entries of a list in strictly increasing order.
pub open spec fn increasing(s: Seq<usize>) -> bool {
    forall|p: int, q: int| 0 <= p < q < s.len() ==> s[p] < s[q]
}

/// `m` maps each end of the first `k` edges of `b` to the positions of the
/// edges at it, in increasing order.
pub open spec fn incidence_exact(b: Seq<Edge>, k: int, m: Map<u32, Vec<usize>>) -> bool {
    &&& forall|v: u32| #[trigger] m.contains_key(v) ==> increasing(m[v]@)
    &&& forall|v: u32, p: int|
        #![trigger m[v]@[p]]
        m.contains_key(v) && 0 <= p < m[v]@.len() ==> m[v]@[p] < k && touches(
            b[m[v]@[p] as int],
            v,
        )
    &&& forall|i: int|
        0 <= i < k ==> m.contains_key((#[trigger] b[i]).0) && m[b[i].0]@.contains(i as usize)
            && m.contains_key(b[i].1) && m[b[i].1]@.contains(i as usize)
}

/// For each end of an edge of `b`, the positions of the edges there.
pub(crate) fn build_incidence(b: &Vec<Edge>) -> (m: HashMap<u32, Vec<usize>>)
    ensures
        incidence_exact(b@, b.len() as int, m@),
{
    let n = b.len();
    let mut m: HashMap<u32, Vec<usize>> = HashMap::new();
    for i in 0..n
        invariant
            n == b.len(),
            incidence_exact(b@, i as int, m@),
    {
        let e = b[i];
        let ghost m0 = m@;
        push_vertex_entry(&mut m, e.0, i);
        let ghost m1 = m@;
        if e.1 != e.0 {
            push_vertex_entry(&mut m, e.1, i);
        }
        proof {
            assert forall|v: u32| #[trigger] m@.contains_key(v) implies increasing(m@[v]@) by {
                if v == e.0 || v == e.1 {
                    let prev = if m0.contains_key(v) { m0[v]@ } else { Seq::empty() };
                    assert(m@[v]@ == prev.push(i));
                    assert forall|p: int, q: int| 0 <= p < q < m@[v]@.len() implies m@[v]@[p]
                        < m@[v]@[q] by {
                        if q == m@[v]@.len() - 1 {
                            assert(m0[v]@[p] < i);
                        } else {
                            assert(m0[v]@[p] == m@[v]@[p]);
                        }
                    }
                } else {
                    assert(m@[v] == m0[v]);
                }
            }
            assert forall|v: u32, p: int|
                #![trigger m@[v]@[p]]
                m@.contains_key(v) && 0 <= p < m@[v]@.len() implies m@[v]@[p] < i + 1 && touches(
                    b@[m@[v]@[p] as int],
                    v,
                ) by {
                if v == e.0 || v == e.1 {
                    if p < m@[v]@.len() - 1 {
                        assert(m@[v]@[p] == m0[v]@[p]);
                    }
                } else {
                    assert(m@[v] == m0[v]);
                }
            }
            assert forall|j: int| 0 <= j < i + 1 implies m@.contains_key((#[trigger] b@[j]).0)
                && m@[b@[j].0]@.contains(j as usize) && m@.contains_key(b@[j].1)
                && m@[b@[j].1]@.contains(j as usize) by {
                if j == i {
                    assert(m@[e.0]@.last() == i);
                    assert(m@[e.1]@.last() == i);
                } else {
                    let w0 = b@[j].0;
                    let w1 = b@[j].1;
                    assert(m0.contains_key(w0) && m0[w0]@.contains(j as usize));
                    assert(m0.contains_key(w1) && m0[w1]@.contains(j as usize));
                    let p0 = choose|p: int| 0 <= p < m0[w0]@.len() && m0[w0]@[p] == j as usize;
                    let p1 = choose|p: int| 0 <= p < m0[w1]@.len() && m0[w1]@[p] == j as usize;
                    assert(m@[w0]@[p0] == j as usize);
                    assert(m@[w1]@[p1] == j as usize);
                }
            }
        }
    }
    m
}

/// The positions marked true in `used`.
pub open spec fn marked(used: Seq<bool>) -> Set<int> {
    Set::new(|i: int| 0 <= i < used.len() && used[i])
}

/// The first position of `b` whose edge is at `v` and not marked in `used`.
fn first_free_edge(
    m: &HashMap<u32, Vec<usize>>,
    used: &Vec<bool>,
    v: u32,
    Ghost(b): Ghost<Seq<Edge>>,
) -> (r: Option<usize>)
    requires
        incidence_exact(b, b.len() as int, m@),
        used.len() == b.len(),
    ensures
        match r {
            Some(i) => first_free(b, marked(used@), v) == Some(i as int) && first_free_at(
                b,
                marked(used@),
                v,
                i as int,
            ),
            None => first_free(b, marked(used@), v) is None,
        },
{
    let ghost uset = marked(used@);
    match m.get(&v) {
        None => {
            proof {
                assert forall|i: int| !#[trigger] free_at(b, uset, v, i) by {
                    if free_at(b, uset, v, i) {
                        assert(m@.contains_key(b[i].0) && m@.contains_key(b[i].1));
                    }
                }
            }
            None
        },
        Some(list) => {
            let len = list.len();
            for p in 0..len
                invariant
                    len == list@.len(),
                    m@.contains_key(v),
                    list@ == m@[v]@,
                    incidence_exact(b, b.len() as int, m@),
                    used.len() == b.len(),
                    uset == marked(used@),
                    forall|q: int| 0 <= q < p ==> uset.contains(#[trigger] list@[q] as int),
            {
                let i = list[p];
                if !used[i] {
                    proof {
                        assert(list@[p as int] == i);
                        assert(free_at(b, uset, v, i as int));
                        assert forall|j: int| 0 <= j < i implies !#[trigger] free_at(b, uset, v, j) by {
                            if free_at(b, uset, v, j) {
                                assert(m@[v]@.contains(j as usize));
                                let q = choose|q: int| 0 <= q < list@.len() && list@[q] == j as usize;
                                assert(increasing(list@));
                                if q >= p {
                                    if q > p {
                                        assert(list@[p as int] < list@[q]);
                                    }
                                }
                                assert(q < p);
                            }
                        }
                        assert(first_free_at(b, uset, v, i as int));
                        let c = choose|c: int| #[trigger] first_free_at(b, uset, v, c);
                        assert(first_free_at(b, uset, v, c));
                        if c < i {
                            assert(!free_at(b, uset, v, c));
                        } else if c > i {
                            assert(free_at(b, uset, v, i as int));
                        }
                    }
                    return Some(i);
                }
            }
            proof {
                assert forall|i: int| !#[trigger] free_at(b, uset, v, i) by {
                    if free_at(b, uset, v, i) {
                        assert(m@[v]@.contains(i as usize));
                        let q = choose|q: int| 0 <= q < list@.len() && list@[q] == i as usize;
                        assert(uset.contains(list@[q] as int));
                    }
                }
            }
            None
        },
    }
}

/// Marking one more unmarked position adds it to the marked set, which stays
/// smaller than the whole list.
pub(crate) proof fn lemma_mark_one(used: Seq<bool>, i: int)
    requires
        0 <= i < used.len(),
        !used[i],
    ensures
        marked(used).finite(),
        marked(used).len() < used.len(),
        marked(used.update(i, true)) == marked(used).insert(i),
        marked(used.update(i, true)).len() == marked(used).len() + 1,
{
    vstd::set_lib::lemma_int_range(0, used.len() as int);
    let range = vstd::set_lib::set_int_range(0, used.len() as int);
    assert(marked(used).subset_of(range.remove(i)));
    vstd::set_lib::lemma_len_subset(marked(used), range.remove(i));
    assert(marked(used.update(i, true)) =~= marked(used).insert(i));
}

/// Traces one boundary walk from `start`, marking the edges it takes.
pub(crate) fn trace_loop(b: &Vec<Edge>, m: &HashMap<u32, Vec<usize>>, used: &mut Vec<bool>, start: u32) -> (verts:
    Vec<u32>)
    requires
        incidence_exact(b@, b.len() as int, m@),
        old(used).len() == b.len(),
    ensures
        final(used).len() == b.len(),
        walk(b@, marked(old(used)@), start, start, b.len() as nat) == (verts@, marked(final(used)@)),
{
    let n = b.len();
    let ghost u0 = marked(used@);
    let mut verts: Vec<u32> = Vec::new();
    let mut cur = start;
    let mut done = false;
    proof {
        vstd::set_lib::lemma_int_range(0, n as int);
        vstd::set_lib::lemma_len_subset(u0, vstd::set_lib::set_int_range(0, n as int));
    }
    while !done
        invariant
            n == b.len(),
            incidence_exact(b@, n as int, m@),
            used.len() == n,
            verts.len() <= n,
            marked(used@).finite(),
            marked(used@).len() == u0.len() + verts.len(),
            !done ==> walk(b@, u0, start, start, n as nat) == (
                verts@ + walk(b@, marked(used@), start, cur, (n - verts.len()) as nat).0,
                walk(b@, marked(used@), start, cur, (n - verts.len()) as nat).1,
            ),
            done ==> walk(b@, u0, start, start, n as nat) == (verts@, marked(used@)),
        decreases (if done { 0int } else { 1int }) + n - verts.len(),
    {
        let ghost fuel = (n - verts.len()) as nat;
        let ghost w = walk(b@, marked(used@), start, cur, fuel);
        match first_free_edge(m, used, cur, Ghost(b@)) {
            None => {
                proof {
                    if fuel > 0 {
                        assert(w == (Seq::<u32>::empty(), marked(used@)));
                    } else {
                        assert(w == (Seq::<u32>::empty(), marked(used@)));
                    }
                    assert(verts@ + Seq::<u32>::empty() =~= verts@);
                }
                done = true;
            },
            Some(i) => {
                let ghost before = used@;
                proof {
                    lemma_mark_one(before, i as int);
                }
                used.set(i, true);
                let e = b[i];
                let next = if e.0 == cur {
                    e.1
                } else {
                    e.0
                };
                proof {
                    assert(fuel > 0);
                    assert(used@ == before.update(i as int, true));
                    assert(next == other_end(b@[i as int], cur));
                }
                let ghost vs0 = verts@;
                verts.push(cur);
                proof {
                    if next == start {
                        assert(w == (seq![cur], marked(used@)));
                        assert(vs0 + seq![cur] =~= verts@);
                    } else {
                        let rest = walk(b@, marked(used@), start, next, (fuel - 1) as nat);
                        assert(w == (seq![cur] + rest.0, rest.1));
                        assert(vs0 + (seq![cur] + rest.0) =~= verts@ + rest.0);
                    }
                }
                cur = next;
                if next == start {
                    done = true;
                }
            },
        }
    }
    verts
}

/// Appends the fan triangulation of the loop `vs`.
pub(crate) fn append_fan(indices: &mut Vec<u32>, vs: &Vec<u32>)
    requires
        vs.len() >= 3,
    ensures
        final(indices)@ == old(indices)@ + fan(vs@),
{
    let ghost base = indices@;
    let count = vs.len() - 2;
    proof {
        assert(fan_prefix(vs@, 0) =~= Seq::<u32>::empty());
        assert(base + fan_prefix(vs@, 0) =~= base);
    }
    for t in 0..count
        invariant
            count == vs.len() - 2,
            vs.len() >= 3,
            indices@ == base + fan_prefix(vs@, t as int),
    {
        let ghost before = indices@;
        indices.push(vs[0]);
        indices.push(vs[t + 1]);
        indices.push(vs[t + 2]);
        proof {
            let k0 = 3 * t as int;
            assert(k0 % 3 == 0 && k0 / 3 == t);
            assert((k0 + 1) % 3 == 1 && (k0 + 1) / 3 == t);
            assert((k0 + 2) % 3 == 2 && (k0 + 2) / 3 == t);
            assert(fan_prefix(vs@, t + 1) =~= fan_prefix(vs@, t as int).push(vs@[0]).push(
                vs@[t + 1],
            ).push(vs@[t + 2]));
            assert(indices@ =~= base + fan_prefix(vs@, t + 1));
        }
    }
}

/// Where some position is free at `v`, a first one is.
proof fn lemma_first_free_exists(b: Seq<Edge>, used: Set<int>, v: u32, x: int)
    requires
        free_at(b, used, v, x),
    ensures
        exists|i: int| #[trigger] first_free_at(b, used, v, i),
    decreases x,
{
    if exists|j: int| 0 <= j < x && #[trigger] free_at(b, used, v, j) {
        let j = choose|j: int| 0 <= j < x && #[trigger] free_at(b, used, v, j);
        lemma_first_free_exists(b, used, v, j);
    } else {
        assert(first_free_at(b, used, v, x));
    }
}

/// A walk starts at `cur` and steps along edges of `b`.
proof fn lemma_walk_steps(b: Seq<Edge>, used: Set<int>, start: u32, cur: u32, fuel: nat)
    requires
        forall|k: int| 0 <= k < b.len() ==> (#[trigger] b[k]).0 <= b[k].1,
    ensures
        walk(b, used, start, cur, fuel).0.len() > 0 ==> walk(b, used, start, cur, fuel).0[0] == cur,
        forall|j: int|
            0 <= j < walk(b, used, start, cur, fuel).0.len() - 1 ==> b.contains(
                edge_of(
                    #[trigger] walk(b, used, start, cur, fuel).0[j],
                    walk(b, used, start, cur, fuel).0[j + 1],
                ),
            ),
    decreases fuel,
{
    if fuel > 0 {
        if let Some(i) = first_free(b, used, cur) {
            let x = choose|x: int| #[trigger] free_at(b, used, cur, x);
            lemma_first_free_exists(b, used, cur, x);
            assert(first_free_at(b, used, cur, i));
            let next = other_end(b[i], cur);
            if next != start {
                let rest = walk(b, used.insert(i), start, next, (fuel - 1) as nat);
                lemma_walk_steps(b, used.insert(i), start, next, (fuel - 1) as nat);
                let w = walk(b, used, start, cur, fuel).0;
                assert(w == seq![cur] + rest.0);
                assert(edge_of(cur, next) == b[i]);
                assert forall|j: int| 0 <= j < w.len() - 1 implies b.contains(
                    edge_of(#[trigger] w[j], w[j + 1]),
                ) by {
                    if j == 0 {
                        assert(w[0] == cur && w[1] == rest.0[0]);
                    } else {
                        assert(w[j] == rest.0[j - 1] && w[j + 1] == rest.0[j]);
                    }
                }
            }
        }
    }
}

/// The loops traced from position `s` on: no more than the groups left, each
/// of three or more vertices, each stepping along edges of `b`.
proof fn lemma_loops_from_facts(b: Seq<Edge>, used: Set<int>, groups: nat, max_groups: nat, s: int)
    requires
        groups <= max_groups,
        forall|k: int| 0 <= k < b.len() ==> (#[trigger] b[k]).0 <= b[k].1,
    ensures
        loops_from(b, used, groups, max_groups, s).len() + groups <= max_groups,
        forall|k: int|
            0 <= k < loops_from(b, used, groups, max_groups, s).len() ==> (
            #[trigger] loops_from(b, used, groups, max_groups, s)[k]).len() >= 3,
        forall|k: int, j: int|
            0 <= k < loops_from(b, used, groups, max_groups, s).len() && 0 <= j < loops_from(
                b,
                used,
                groups,
                max_groups,
                s,
            )[k].len() - 1 ==> b.contains(
                edge_of(
                    #[trigger] loops_from(b, used, groups, max_groups, s)[k][j],
                    loops_from(b, used, groups, max_groups, s)[k][j + 1],
                ),
            ),
    decreases b.len() - s,
{
    if 0 <= s < b.len() {
        if used.contains(s) || groups >= max_groups {
            lemma_loops_from_facts(b, used, groups, max_groups, s + 1);
        } else {
            let w = walk(b, used, b[s].0, b[s].0, b.len());
            lemma_walk_steps(b, used, b[s].0, b[s].0, b.len());
            if w.0.len() >= 3 {
                lemma_loops_from_facts(b, w.1, groups + 1, max_groups, s + 1);
                let rest = loops_from(b, w.1, groups + 1, max_groups, s + 1);
                let all = loops_from(b, used, groups, max_groups, s);
                assert(all == seq![w.0] + rest);
                assert forall|k: int, j: int|
                    0 <= k < all.len() && 0 <= j < all[k].len() - 1 implies b.contains(
                        edge_of(#[trigger] all[k][j], all[k][j + 1]),
                    ) by {
                    if k == 0 {
                        assert(all[0] == w.0);
                    } else {
                        assert(all[k] == rest[k - 1]);
                    }
                }
                assert forall|k: int| 0 <= k < all.len() implies (#[trigger] all[k]).len() >= 3 by {
                    if k > 0 {
                        assert(all[k] == rest[k - 1]);
                    }
                }
            } else {
                lemma_loops_from_facts(b, w.1, groups, max_groups, s + 1);
            }
        }
    }
}

/// The fans over loops of three or more vertices hold at least one triangle
/// per loop.
proof fn lemma_fans_len(loops: Seq<Seq<u32>>)
    requires
        forall|k: int| 0 <= k < loops.len() ==> (#[trigger] loops[k]).len() >= 3,
    ensures
        fans(loops).len() >= 3 * loops.len(),
    decreases loops.len(),
{
    if loops.len() > 0 {
        assert forall|k: int| 0 <= k < loops.drop_last().len() implies (
        #[trigger] loops.drop_last()[k]).len() >= 3 by {
            assert(loops.drop_last()[k] == loops[k]);
        }
        lemma_fans_len(loops.drop_last());
        assert(loops.last() == loops[loops.len() - 1]);
    }
}

/// Filling closes at most `max_groups` holes.
pub proof fn lemma_fill_at_most_max_groups(indices: Seq<u32>, max_groups: nat)
    ensures
        boundary_loops(indices, max_groups).len() <= max_groups,
{
    lemma_boundary_sequence_edges(indices);
    lemma_loops_from_facts(boundary_sequence(indices), Set::empty(), 0, max_groups, 0);
}

/// Every hole that is filled has at least three corners, so the fans that
/// close the holes add at least one triangle per hole.
pub proof fn lemma_filled_holes_add_triangles(indices: Seq<u32>, max_groups: nat)
    ensures
        forall|k: int|
            0 <= k < boundary_loops(indices, max_groups).len() ==> (#[trigger] boundary_loops(
                indices,
                max_groups,
            )[k]).len() >= 3,
        fans(boundary_loops(indices, max_groups)).len() >= 3 * boundary_loops(
            indices,
            max_groups,
        ).len(),
{
    lemma_boundary_sequence_edges(indices);
    lemma_loops_from_facts(boundary_sequence(indices), Set::empty(), 0, max_groups, 0);
    lemma_fans_len(boundary_loops(indices, max_groups));
}

/// Consecutive corners of a filled hole are joined by a boundary edge of the
/// mesh.
pub proof fn lemma_holes_follow_boundary(indices: Seq<u32>, max_groups: nat)
    ensures
        forall|k: int, j: int|
            0 <= k < boundary_loops(indices, max_groups).len() && 0 <= j < boundary_loops(
                indices,
                max_groups,
            )[k].len() - 1 ==> boundary_edge_set(indices).contains(
                edge_of(
                    #[trigger] boundary_loops(indices, max_groups)[k][j],
                    boundary_loops(indices, max_groups)[k][j + 1],
                ),
            ),
{
    let b = boundary_sequence(indices);
    let loops = boundary_loops(indices, max_groups);
    lemma_boundary_sequence_edges(indices);
    lemma_loops_from_facts(b, Set::empty(), 0, max_groups, 0);
    assert forall|k: int, j: int|
        0 <= k < loops.len() && 0 <= j < loops[k].len() - 1 implies boundary_edge_set(
            indices,
        ).contains(edge_of(#[trigger] loops[k][j], loops[k][j + 1])) by {
        let e = edge_of(loops[k][j], loops[k][j + 1]);
        assert(b.contains(e));
        let p = choose|p: int| 0 <= p < b.len() && b[p] == e;
        assert(boundary_edge_set(indices).contains(b[p]));
    }
}

/// A mesh without boundary edges has no holes to fill.
pub proof fn lemma_closed_mesh_has_no_holes(indices: Seq<u32>, max_groups: nat)
    requires
        boundary_edge_set(indices).len() == 0,
    ensures
        boundary_loops(indices, max_groups).len() == 0,
{
    let b = boundary_sequence(indices);
    lemma_boundary_sequence_edges(indices);
    if b.len() > 0 {
        let e = b[0];
        assert(boundary_edge_set(indices).contains(e));
        vstd::seq_lib::seq_to_set_is_finite(mesh_edges(indices));
        edge_set(indices).lemma_len_filter(|x: Edge| edge_uses(indices, x) == 1);
        assert(boundary_edge_set(indices).remove(e).len() == boundary_edge_set(indices).len() - 1);
    }
}

} // verus!
