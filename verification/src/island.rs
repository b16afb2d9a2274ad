//! Grid-cell connectivity used by overhang island detection.
//!
//! Cells are `(x, y)` grid coordinates. Neighbours are found the way the
//! detector does it: each coordinate is read as a signed 32-bit value, shifted
//! by one step in one of four directions, and kept only when both resulting
//! coordinates are non-negative.
use vstd::prelude::*;
use std::collections::HashMap;
use crate::placement::has_neighbor_in;

verus! {

broadcast use vstd::std_specs::hash::group_hash_axioms;

/// A grid cell `(x, y)`.
pub type Cell = (u32, u32);

/// A coordinate read as a signed 32-bit value.
pub open spec fn signed_coord(v: u32) -> int {
    if v < 0x8000_0000 {
        v as int
    } else {
        v as int - 0x1_0000_0000
    }
}

/// The step taken in direction `k`: +x, -x, +y, -y.
pub open spec fn step_offset(k: int) -> (int, int) {
    if k == 0 {
        (1, 0)
    } else if k == 1 {
        (-1, 0)
    } else if k == 2 {
        (0, 1)
    } else {
        (0, -1)
    }
}

/// The neighbour of `c` in direction `k`, if both of its coordinates are non-negative.
pub open spec fn neighbor(c: Cell, k: int) -> Option<Cell> {
    let nx = signed_coord(c.0) + step_offset(k).0;
    let ny = signed_coord(c.1) + step_offset(k).1;
    if nx >= 0 && ny >= 0 {
        Some((nx as u32, ny as u32))
    } else {
        None
    }
}

/// `b` is a neighbour of `a` in one of the four directions.
pub open spec fn steps_to(a: Cell, b: Cell) -> bool {
    ||| neighbor(a, 0) == Some(b)
    ||| neighbor(a, 1) == Some(b)
    ||| neighbor(a, 2) == Some(b)
    ||| neighbor(a, 3) == Some(b)
}

/// A coordinate whose signed step in either direction stays within 32 bits.
pub open spec fn coord_steppable(v: u32) -> bool {
    v != 0x7FFF_FFFF && v != 0x8000_0000
}

/// Both coordinates of a cell can be stepped.
pub open spec fn cell_steppable(c: Cell) -> bool {
    coord_steppable(c.0) && coord_steppable(c.1)
}

/// `c` occurs in one of the first `upto` components.
pub open spec fn placed_before(cs: Seq<Seq<Cell>>, upto: int, c: Cell) -> bool {
    exists|i: int, j: int|
        0 <= i < upto && i < cs.len() && 0 <= j < cs[i].len() && #[trigger] cs[i][j] == c
}

/// Every component has at least one cell.
pub open spec fn components_nonempty(cs: Seq<Seq<Cell>>) -> bool {
    forall|i: int| 0 <= i < cs.len() ==> #[trigger] cs[i].len() > 0
}

/// Every cell of every component is one of the input cells.
pub open spec fn components_within(cells: Seq<Cell>, cs: Seq<Seq<Cell>>) -> bool {
    forall|i: int, j: int|
        0 <= i < cs.len() && 0 <= j < cs[i].len() ==> cells.contains(#[trigger] cs[i][j])
}

/// Every input cell lies in some component.
pub open spec fn components_cover(cells: Seq<Cell>, cs: Seq<Seq<Cell>>) -> bool {
    forall|q: int| 0 <= q < cells.len() ==> placed_before(cs, cs.len() as int, #[trigger] cells[q])
}

/// No cell occurs twice across all components.
pub open spec fn components_disjoint(cs: Seq<Seq<Cell>>) -> bool {
    forall|i1: int, j1: int, i2: int, j2: int|
        0 <= i1 < cs.len() && 0 <= j1 < cs[i1].len() && 0 <= i2 < cs.len() && 0 <= j2 < cs[i2].len()
            && (i1 != i2 || j1 != j2) ==> #[trigger] cs[i1][j1] != #[trigger] cs[i2][j2]
}

/// Each component starts at the first input cell that no earlier component holds.
pub open spec fn components_start_in_order(cells: Seq<Cell>, cs: Seq<Seq<Cell>>) -> bool {
    forall|i: int, q: int|
        #![trigger cells[q], cs[i]]
        0 <= i < cs.len() && 0 <= q < cells.len() && cs[i].len() > 0 && cells[q] == cs[i][0]
            ==> forall|q2: int| 0 <= q2 < q ==> placed_before(cs, i, #[trigger] cells[q2])
}

/// Each cell of `s` after the first is a neighbour of an earlier cell of `s`.
pub open spec fn cell_list_connected(s: Seq<Cell>) -> bool {
    forall|j: int|
        0 < j < s.len() ==> exists|j2: int| 0 <= j2 < j && steps_to(#[trigger] s[j2], #[trigger] s[j])
}

/// Every component is connected in the sense of [`cell_list_connected`].
pub open spec fn components_connected(cs: Seq<Seq<Cell>>) -> bool {
    forall|i: int| 0 <= i < cs.len() ==> cell_list_connected(#[trigger] cs[i])
}

/// Every input cell that neighbours `c` lies in one of the first `upto` components.
pub open spec fn cell_closed(cells: Seq<Cell>, cs: Seq<Seq<Cell>>, upto: int, c: Cell) -> bool {
    forall|k: int|
        0 <= k < 4 && (#[trigger] neighbor(c, k)) is Some && cells.contains(neighbor(c, k)->0)
            ==> placed_before(cs, upto, neighbor(c, k)->0)
}

/// The first `m` cells of `s` are closed in the sense of [`cell_closed`].
pub open spec fn cell_list_closed(
    cells: Seq<Cell>,
    cs: Seq<Seq<Cell>>,
    upto: int,
    s: Seq<Cell>,
    m: int,
) -> bool {
    forall|j: int| 0 <= j < m && j < s.len() ==> cell_closed(cells, cs, upto, #[trigger] s[j])
}

/// Every input cell that neighbours a cell of component `i` lies in component `i`
/// or an earlier one.
pub open spec fn components_closed(cells: Seq<Cell>, cs: Seq<Seq<Cell>>) -> bool {
    forall|i: int|
        0 <= i < cs.len() ==> cell_list_closed(cells, cs, i + 1, #[trigger] cs[i], cs[i].len() as int)
}

/// `cs` is the breadth-first decomposition of `cells` into connected components.
pub open spec fn is_component_decomposition(cells: Seq<Cell>, cs: Seq<Seq<Cell>>) -> bool {
    &&& components_nonempty(cs)
    &&& components_within(cells, cs)
    &&& components_cover(cells, cs)
    &&& components_disjoint(cs)
    &&& components_start_in_order(cells, cs)
    &&& components_connected(cs)
    &&& components_closed(cells, cs)
}

/// The contents of a list of cell lists.
pub open spec fn seqs_of(v: Seq<Vec<Cell>>) -> Seq<Seq<Cell>> {
    v.map_values(|c: Vec<Cell>| c@)
}

/// The key under which a cell is looked up: `x * 2^32 + y`.
pub open spec fn cell_key(c: Cell) -> u64 {
    (c.0 as int * 0x1_0000_0000 + c.1 as int) as u64
}

pub(crate) proof fn lemma_cell_key_injective(a: Cell, b: Cell)
    requires
        cell_key(a) == cell_key(b),
    ensures
        a == b,
{
    assert(a.0 as int * 0x1_0000_0000 + (a.1 as int) < 0x1_0000_0000_0000_0000) by (nonlinear_arith);
    assert(b.0 as int * 0x1_0000_0000 + (b.1 as int) < 0x1_0000_0000_0000_0000) by (nonlinear_arith);
    assert(a.0 == b.0 && a.1 == b.1) by (nonlinear_arith)
        requires
            a.0 as int * 0x1_0000_0000 + a.1 as int == b.0 as int * 0x1_0000_0000 + b.1 as int,
            a.1 < 0x1_0000_0000,
            b.1 < 0x1_0000_0000,
    ;
}

pub(crate) fn key_of(c: Cell) -> (k: u64)
    ensures
        k == cell_key(c),
{
    proof {
        assert(c.0 as int * 0x1_0000_0000 + (c.1 as int) < 0x1_0000_0000_0000_0000) by (nonlinear_arith);
    }
    (c.0 as u64) * 0x1_0000_0000u64 + (c.1 as u64)
}

fn signed_of(v: u32) -> (r: i64)
    ensures
        r == signed_coord(v),
{
    if v < 0x8000_0000u32 {
        v as i64
    } else {
        v as i64 - 0x1_0000_0000i64
    }
}

/// The neighbour of `c` in direction `k`.
pub(crate) fn neighbor_of(c: Cell, k: usize) -> (r: Option<Cell>)
    requires
        k < 4,
        cell_steppable(c),
    ensures
        r == neighbor(c, k as int),
{
    let (dx, dy): (i64, i64) = if k == 0 {
        (1, 0)
    } else if k == 1 {
        (-1, 0)
    } else if k == 2 {
        (0, 1)
    } else {
        (0, -1)
    };
    let nx = signed_of(c.0) + dx;
    let ny = signed_of(c.1) + dy;
    if nx >= 0 && ny >= 0 {
        Some((nx as u32, ny as u32))
    } else {
        None
    }
}

proof fn lemma_distinct_within_len(s: Seq<Cell>, t: Seq<Cell>)
    requires
        s.no_duplicates(),
        forall|j: int| 0 <= j < s.len() ==> t.contains(#[trigger] s[j]),
    ensures
        s.len() <= t.len(),
{
    s.unique_seq_to_set();
    t.lemma_cardinality_of_set();
    vstd::seq_lib::seq_to_set_is_finite(t);
    assert(s.to_set().subset_of(t.to_set()));
    vstd::set_lib::lemma_len_subset(s.to_set(), t.to_set());
}

/// Placement among the first `upto` components is unaffected by appending a component.
proof fn lemma_placed_prefix(cs: Seq<Seq<Cell>>, x: Seq<Cell>, upto: int, c: Cell)
    requires
        0 <= upto <= cs.len(),
    ensures
        placed_before(cs, upto, c) <==> placed_before(cs.push(x), upto, c),
{
    let full = cs.push(x);
    if placed_before(cs, upto, c) {
        let (i, j) = choose|i: int, j: int|
            0 <= i < upto && i < cs.len() && 0 <= j < cs[i].len() && #[trigger] cs[i][j] == c;
        assert(full[i][j] == c);
    }
    if placed_before(full, upto, c) {
        let (i, j) = choose|i: int, j: int|
            0 <= i < upto && i < full.len() && 0 <= j < full[i].len() && #[trigger] full[i][j] == c;
        assert(cs[i][j] == c);
    }
}

/// Placement among fewer components implies placement among more.
proof fn lemma_placed_upto(cs: Seq<Seq<Cell>>, u1: int, u2: int, c: Cell)
    requires
        u1 <= u2,
        placed_before(cs, u1, c),
    ensures
        placed_before(cs, u2, c),
{
    let (i, j) = choose|i: int, j: int|
        0 <= i < u1 && i < cs.len() && 0 <= j < cs[i].len() && #[trigger] cs[i][j] == c;
    assert(cs[i][j] == c);
}

/// Placement when the last component grows by one cell.
proof fn lemma_placed_grow(cs: Seq<Seq<Cell>>, s: Seq<Cell>, x: Cell, c: Cell)
    ensures
        placed_before(cs.push(s.push(x)), cs.len() + 1int, c) <==> (placed_before(
            cs.push(s),
            cs.len() + 1int,
            c,
        ) || c == x),
{
    let a = cs.push(s);
    let b = cs.push(s.push(x));
    let n = cs.len() as int;
    if placed_before(a, n + 1, c) {
        let (i, j) = choose|i: int, j: int|
            0 <= i < n + 1 && i < a.len() && 0 <= j < a[i].len() && #[trigger] a[i][j] == c;
        assert(b[i][j] == c);
    }
    if c == x {
        assert(b[n][s.len() as int] == c);
    }
    if placed_before(b, n + 1, c) && c != x {
        let (i, j) = choose|i: int, j: int|
            0 <= i < n + 1 && i < b.len() && 0 <= j < b[i].len() && #[trigger] b[i][j] == c;
        assert(a[i][j] == c);
    }
}

/// Looks a cell up in the key index; `Some(p)` gives its position in `cells`.
pub(crate) fn lookup(index: &HashMap<u64, usize>, c: Cell, Ghost(cells): Ghost<Seq<Cell>>) -> (r: Option<usize>)
    requires
        forall|k: u64|
            #![trigger index@[k]]
            index@.contains_key(k) ==> 0 <= index@[k] < cells.len() && cell_key(
                cells[index@[k] as int],
            ) == k,
        forall|q: int| 0 <= q < cells.len() ==> index@.contains_key(#[trigger] cell_key(cells[q])),
    ensures
        r matches Some(p) ==> p < cells.len() && cells[p as int] == c,
        r is None ==> !cells.contains(c),
{
    let k = key_of(c);
    match index.get(&k) {
        Some(p) => {
            proof {
                lemma_cell_key_injective(cells[*p as int], c);
            }
            Some(*p)
        },
        None => {
            proof {
                if cells.contains(c) {
                    let q = choose|q: int| 0 <= q < cells.len() && cells[q] == c;
                    assert(index@.contains_key(cell_key(cells[q])));
                }
            }
            None
        },
    }
}

/// Builds the key index of a list of distinct cells.
pub(crate) fn build_index(cells: &Vec<Cell>) -> (index: HashMap<u64, usize>)
    ensures
        forall|k: u64|
            #![trigger index@[k]]
            index@.contains_key(k) ==> 0 <= index@[k] < cells.len() && cell_key(
                cells@[index@[k] as int],
            ) == k,
        forall|q: int| 0 <= q < cells.len() ==> index@.contains_key(#[trigger] cell_key(cells@[q])),
{
    let n = cells.len();
    let mut index: HashMap<u64, usize> = HashMap::new();
    for p in 0..n
        invariant
            n == cells.len(),
            forall|k: u64|
                #![trigger index@[k]]
                index@.contains_key(k) ==> 0 <= index@[k] < p && cell_key(cells@[index@[k] as int])
                    == k,
            forall|q: int| 0 <= q < p ==> index@.contains_key(#[trigger] cell_key(cells@[q])),
    {
        index.insert(key_of(cells[p]), p);
    }
    index
}

/// Appending a cell that no component holds keeps the components disjoint.
proof fn lemma_disjoint_grow(cs: Seq<Seq<Cell>>, s: Seq<Cell>, x: Cell)
    requires
        components_disjoint(cs.push(s)),
        !placed_before(cs.push(s), cs.len() + 1int, x),
    ensures
        components_disjoint(cs.push(s.push(x))),
{
    let a = cs.push(s);
    let b = cs.push(s.push(x));
    let n = cs.len() as int;
    assert forall|i1: int, j1: int, i2: int, j2: int|
        0 <= i1 < b.len() && 0 <= j1 < b[i1].len() && 0 <= i2 < b.len() && 0 <= j2 < b[i2].len()
            && (i1 != i2 || j1 != j2) implies #[trigger] b[i1][j1] != #[trigger] b[i2][j2] by {
        let last = s.len() as int;
        if i1 == n && j1 == last {
            assert(a[i2][j2] == b[i2][j2]);
        } else if i2 == n && j2 == last {
            assert(a[i1][j1] == b[i1][j1]);
        } else {
            assert(a[i1][j1] == b[i1][j1]);
            assert(a[i2][j2] == b[i2][j2]);
        }
    }
}

/// Starting a new component with a cell that no component holds keeps them disjoint.
proof fn lemma_disjoint_start(cs: Seq<Seq<Cell>>, x: Cell)
    requires
        components_disjoint(cs),
        !placed_before(cs, cs.len() as int, x),
    ensures
        components_disjoint(cs.push(seq![x])),
{
    let b = cs.push(seq![x]);
    let n = cs.len() as int;
    assert forall|i1: int, j1: int, i2: int, j2: int|
        0 <= i1 < b.len() && 0 <= j1 < b[i1].len() && 0 <= i2 < b.len() && 0 <= j2 < b[i2].len()
            && (i1 != i2 || j1 != j2) implies #[trigger] b[i1][j1] != #[trigger] b[i2][j2] by {
        if i1 == n {
            assert(cs[i2][j2] == b[i2][j2]);
        } else if i2 == n {
            assert(cs[i1][j1] == b[i1][j1]);
        } else {
            assert(cs[i1][j1] == b[i1][j1]);
            assert(cs[i2][j2] == b[i2][j2]);
        }
    }
}

/// Explores, breadth first, the component that starts at `cells[p]`, marking
/// every cell it reaches as visited.
#[verifier::loop_isolation(false)]
fn grow_component(
    cells: &Vec<Cell>,
    index: &HashMap<u64, usize>,
    visited: &mut Vec<bool>,
    p: usize,
    Ghost(cs): Ghost<Seq<Seq<Cell>>>,
) -> (comp: Vec<Cell>)
    requires
        cells@.no_duplicates(),
        forall|q: int| 0 <= q < cells.len() ==> cell_steppable(#[trigger] cells@[q]),
        forall|k: u64|
            #![trigger index@[k]]
            index@.contains_key(k) ==> 0 <= index@[k] < cells.len() && cell_key(
                cells@[index@[k] as int],
            ) == k,
        forall|q: int| 0 <= q < cells.len() ==> index@.contains_key(#[trigger] cell_key(cells@[q])),
        old(visited).len() == cells.len(),
        forall|q: int|
            0 <= q < cells.len() ==> (old(visited)@[q] <==> placed_before(
                cs,
                cs.len() as int,
                #[trigger] cells@[q],
            )),
        components_within(cells@, cs),
        components_disjoint(cs),
        p < cells.len(),
        !old(visited)@[p as int],
    ensures
        comp@.len() >= 1,
        comp@[0] == cells@[p as int],
        components_within(cells@, cs.push(comp@)),
        components_disjoint(cs.push(comp@)),
        cell_list_connected(comp@),
        cell_list_closed(cells@, cs.push(comp@), cs.len() + 1int, comp@, comp@.len() as int),
        final(visited).len() == cells.len(),
        forall|q: int|
            0 <= q < cells.len() ==> (final(visited)@[q] <==> placed_before(
                cs.push(comp@),
                cs.len() + 1int,
                #[trigger] cells@[q],
            )),
{
    let n = cells.len();
    let ghost top = cs.len() + 1int;
    let start = cells[p];
    let mut comp: Vec<Cell> = Vec::new();
    comp.push(start);
    visited.set(p, true);
    proof {
        lemma_disjoint_start(cs, start);
        assert(cs.push(seq![start]) == cs.push(comp@));
        assert forall|q: int| 0 <= q < cells.len() implies (visited@[q] <==> placed_before(
            cs.push(comp@),
            top,
            #[trigger] cells@[q],
        )) by {
            lemma_placed_prefix(cs, comp@, cs.len() as int, cells@[q]);
            if q == p {
                assert(cs.push(comp@)[cs.len() as int][0] == cells@[q]);
            } else {
                if placed_before(cs.push(comp@), top, cells@[q]) {
                    let (i, j) = choose|i: int, j: int|
                        0 <= i < top && i < cs.push(comp@).len() && 0 <= j < cs.push(comp@)[i].len()
                            && #[trigger] cs.push(comp@)[i][j] == cells@[q];
                    if i == cs.len() {
                        assert(cells@[q] == cells@[p as int]);
                    }
                    assert(placed_before(cs.push(comp@), cs.len() as int, cells@[q]));
                }
            }
        }
        assert(cells@.contains(start));
        assert(components_within(cells@, cs.push(comp@)));
        lemma_distinct_within_len(comp@, cells@);
    }
    let mut head: usize = 0;
    while head < comp.len()
        invariant
            visited.len() == n,
            1 <= comp@.len() <= n,
            comp@[0] == start,
            head <= comp@.len(),
            comp@.no_duplicates(),
            components_within(cells@, cs.push(comp@)),
            components_disjoint(cs.push(comp@)),
            cell_list_connected(comp@),
            cell_list_closed(cells@, cs.push(comp@), top, comp@, head as int),
            forall|q: int|
                0 <= q < cells.len() ==> (visited@[q] <==> placed_before(
                    cs.push(comp@),
                    top,
                    #[trigger] cells@[q],
                )),
        decreases n - head,
    {
        let c = comp[head];
        let ghost comp_before = comp@;
        for k in 0..4
            invariant
                visited.len() == n,
                head < comp@.len() <= n,
                comp@[0] == start,
                comp@[head as int] == c,
                comp@.no_duplicates(),
                comp_before.len() <= comp@.len(),
                forall|j: int| 0 <= j < comp_before.len() ==> comp@[j] == comp_before[j],
                components_within(cells@, cs.push(comp@)),
                components_disjoint(cs.push(comp@)),
                cell_list_connected(comp@),
                cell_list_closed(cells@, cs.push(comp@), top, comp@, head as int),
                forall|k2: int|
                    0 <= k2 < k && (#[trigger] neighbor(c, k2)) is Some && cells@.contains(
                        neighbor(c, k2)->0,
                    ) ==> placed_before(cs.push(comp@), top, neighbor(c, k2)->0),
                forall|q: int|
                    0 <= q < cells.len() ==> (visited@[q] <==> placed_before(
                        cs.push(comp@),
                        top,
                        #[trigger] cells@[q],
                    )),
        {
            proof {
                assert(cells@.contains(c)) by {
                    assert(cs.push(comp@)[cs.len() as int][head as int] == c);
                }
            }
            if let Some(nb) = neighbor_of(c, k) {
                if let Some(q) = lookup(index, nb, Ghost(cells@)) {
                    if !visited[q] {
                        let ghost old_comp = comp@;
                        let ghost old_full = cs.push(comp@);
                        visited.set(q, true);
                        comp.push(nb);
                        proof {
                            assert(!placed_before(old_full, top, nb));
                            lemma_disjoint_grow(cs, old_comp, nb);
                            assert forall|d: Cell|
                                placed_before(old_full, top, d) implies placed_before(
                                    cs.push(comp@),
                                    top,
                                    d,
                                ) by {
                                lemma_placed_grow(cs, old_comp, nb, d);
                            }
                            lemma_placed_grow(cs, old_comp, nb, nb);
                            assert forall|q2: int|
                                0 <= q2 < cells.len() implies (visited@[q2] <==> placed_before(
                                    cs.push(comp@),
                                    top,
                                    #[trigger] cells@[q2],
                                )) by {
                                lemma_placed_grow(cs, old_comp, nb, cells@[q2]);
                            }
                            assert forall|i: int, j: int|
                                0 <= i < cs.push(comp@).len() && 0 <= j < cs.push(comp@)[i].len()
                                    implies cells@.contains(#[trigger] cs.push(comp@)[i][j]) by {
                                if i < cs.len() {
                                    assert(cs.push(comp@)[i] == old_full[i]);
                                    assert(old_full[i][j] == cs.push(comp@)[i][j]);
                                } else if j < old_comp.len() {
                                    assert(old_full[i][j] == cs.push(comp@)[i][j]);
                                }
                            }
                            assert forall|j: int| 0 < j < comp@.len() implies exists|j2: int|
                                0 <= j2 < j && steps_to(#[trigger] comp@[j2], #[trigger] comp@[j]) by {
                                if j == old_comp.len() {
                                    assert(steps_to(comp@[head as int], comp@[j]));
                                } else {
                                    let j2 = choose|j2: int|
                                        0 <= j2 < j && steps_to(
                                            #[trigger] old_comp[j2],
                                            #[trigger] old_comp[j],
                                        );
                                    assert(steps_to(comp@[j2], comp@[j]));
                                }
                            }
                            assert(comp@.no_duplicates()) by {
                                assert forall|j: int|
                                    0 <= j < old_comp.len() implies #[trigger] old_comp[j] != nb by {
                                    assert(old_full[cs.len() as int][j] == old_comp[j]);
                                }
                            }
                            lemma_distinct_within_len(comp@, cells@);
                        }
                    }
                }
            }
            proof {
                assert(cell_list_closed(cells@, cs.push(comp@), top, comp@, head as int));
            }
        }
        head = head + 1;
    }
    comp
}

/// Groups grid cells into 4-connected components by breadth-first search.
///
/// Components are found in the order of `cells`: each one starts at the first
/// cell that no earlier component holds, and lists its cells in the order the
/// search reaches them.
#[verifier::loop_isolation(false)]
pub fn connected_components(cells: &Vec<Cell>) -> (comps: Vec<Vec<Cell>>)
    requires
        cells@.no_duplicates(),
        forall|q: int| 0 <= q < cells.len() ==> cell_steppable(#[trigger] cells@[q]),
    ensures
        is_component_decomposition(cells@, seqs_of(comps@)),
{
    let n = cells.len();
    let index = build_index(cells);
    let mut visited: Vec<bool> = Vec::new();
    for q in 0..n
        invariant
            visited.len() == q,
            forall|j: int| 0 <= j < q ==> !visited@[j],
    {
        visited.push(false);
    }
    let mut comps: Vec<Vec<Cell>> = Vec::new();
    let ghost mut cs: Seq<Seq<Cell>> = Seq::empty();
    proof {
        assert(seqs_of(comps@) =~= cs);
    }
    for p in 0..n
        invariant
            visited.len() == n,
            cs == seqs_of(comps@),
            components_nonempty(cs),
            components_within(cells@, cs),
            components_disjoint(cs),
            components_start_in_order(cells@, cs),
            components_connected(cs),
            components_closed(cells@, cs),
            forall|q: int| 0 <= q < p ==> placed_before(cs, cs.len() as int, #[trigger] cells@[q]),
            forall|q: int|
                0 <= q < cells.len() ==> (visited@[q] <==> placed_before(
                    cs,
                    cs.len() as int,
                    #[trigger] cells@[q],
                )),
    {
        if !visited[p] {
            let comp = grow_component(cells, &index, &mut visited, p, Ghost(cs));
            let ghost old_cs = cs;
            let ghost full = cs.push(comp@);
            comps.push(comp);
            proof {
                cs = full;
                assert(seqs_of(comps@) =~= cs);
                let i = old_cs.len() as int;
                assert forall|d: Cell, u: int| 0 <= u <= i implies (placed_before(old_cs, u, d)
                    <==> #[trigger] placed_before(cs, u, d)) by {
                    lemma_placed_prefix(old_cs, cs[i], u, d);
                }
                assert(components_nonempty(cs)) by {
                    assert forall|i2: int| 0 <= i2 < cs.len() implies #[trigger] cs[i2].len() > 0 by {
                        if i2 < i {
                            assert(cs[i2] == old_cs[i2]);
                        }
                    }
                }
                assert(components_connected(cs)) by {
                    assert forall|i2: int| 0 <= i2 < cs.len() implies cell_list_connected(
                        #[trigger] cs[i2],
                    ) by {
                        if i2 < i {
                            assert(cs[i2] == old_cs[i2]);
                        }
                    }
                }
                assert(components_closed(cells@, cs)) by {
                    assert forall|i2: int| 0 <= i2 < cs.len() implies cell_list_closed(
                        cells@,
                        cs,
                        i2 + 1,
                        #[trigger] cs[i2],
                        cs[i2].len() as int,
                    ) by {
                        if i2 < i {
                            assert(cs[i2] == old_cs[i2]);
                            assert(cell_list_closed(
                                cells@,
                                old_cs,
                                i2 + 1,
                                old_cs[i2],
                                old_cs[i2].len() as int,
                            ));
                            assert forall|j: int|
                                0 <= j < cs[i2].len() implies cell_closed(
                                cells@,
                                cs,
                                i2 + 1,
                                #[trigger] cs[i2][j],
                            ) by {
                                assert(cell_closed(cells@, old_cs, i2 + 1, old_cs[i2][j]));
                            }
                        }
                    }
                }
                assert(components_start_in_order(cells@, cs)) by {
                    assert forall|i2: int, q: int|
                        #![trigger cells@[q], cs[i2]]
                        0 <= i2 < cs.len() && 0 <= q < cells.len() && cs[i2].len() > 0 && cells@[q]
                            == cs[i2][0] implies forall|q2: int|
                        0 <= q2 < q ==> placed_before(cs, i2, #[trigger] cells@[q2]) by {
                        if i2 < i {
                            assert(cs[i2] == old_cs[i2]);
                        } else {
                            assert(cells@[q] == cells@[p as int]);
                            assert(q == p);
                        }
                    }
                }
                assert forall|q: int| 0 <= q < p + 1 implies placed_before(
                    cs,
                    cs.len() as int,
                    #[trigger] cells@[q],
                ) by {
                    if q == p {
                        assert(cs[i][0] == cells@[q]);
                    } else {
                        assert(placed_before(old_cs, i, cells@[q]));
                        assert(placed_before(cs, i, cells@[q]));
                        lemma_placed_upto(cs, i, cs.len() as int, cells@[q]);
                    }
                }
            }
        }
    }
    comps
}

/// Cell `c` of one layer rests on the layer `above`: `c` itself, or one of its
/// four neighbours, is filled there.
pub open spec fn rests_on(above: Seq<Cell>, c: Cell) -> bool {
    above.contains(c) || has_neighbor_in(above, c, 0) || has_neighbor_in(above, c, 1)
        || has_neighbor_in(above, c, 2) || has_neighbor_in(above, c, 3)
}

/// The test that a cell of `layer` floats over `above` and is not yet in `acc`.
pub open spec fn newly_floating(above: Seq<Cell>, acc: Seq<Cell>) -> spec_fn(Cell) -> bool {
    |c: Cell| !rests_on(above, c) && !acc.contains(c)
}

/// Adds to `acc` the island pixels of one layer: the cells of `layer` that
/// rest on nothing in the layer `above`, each once. Returns whether the
/// layer has any island pixel, new or not.
pub fn add_island_pixels(acc: &mut Vec<Cell>, layer: &Vec<Cell>, above: &Vec<Cell>) -> (found: bool)
    requires
        layer@.no_duplicates(),
        forall|q: int| 0 <= q < layer.len() ==> cell_steppable(#[trigger] layer@[q]),
    ensures
        final(acc)@ == old(acc)@ + layer@.filter(newly_floating(above@, old(acc)@)),
        found == exists|q: int| 0 <= q < layer.len() && !rests_on(above@, #[trigger] layer@[q]),
{
    let ghost acc0 = acc@;
    let acc_index = build_index(acc);
    let above_index = build_index(above);
    let n = layer.len();
    let mut found = false;
    for i in 0..n
        invariant
            n == layer.len(),
            forall|q: int| 0 <= q < layer.len() ==> cell_steppable(#[trigger] layer@[q]),
            forall|k: u64|
                #![trigger acc_index@[k]]
                acc_index@.contains_key(k) ==> 0 <= acc_index@[k] < acc0.len() && cell_key(
                    acc0[acc_index@[k] as int],
                ) == k,
            forall|q: int| 0 <= q < acc0.len() ==> acc_index@.contains_key(#[trigger] cell_key(acc0[q])),
            forall|k: u64|
                #![trigger above_index@[k]]
                above_index@.contains_key(k) ==> 0 <= above_index@[k] < above.len() && cell_key(
                    above@[above_index@[k] as int],
                ) == k,
            forall|q: int| 0 <= q < above.len() ==> above_index@.contains_key(#[trigger] cell_key(above@[q])),
            acc@ == acc0 + layer@.take(i as int).filter(newly_floating(above@, acc0)),
            found == exists|q: int| 0 <= q < i && !rests_on(above@, #[trigger] layer@[q]),
    {
        let c = layer[i];
        let mut rests = lookup(&above_index, c, Ghost(above@)).is_some();
        for k in 0..4
            invariant
                i < layer.len(),
                c == layer@[i as int],
                cell_steppable(c),
                forall|k: u64|
                    #![trigger above_index@[k]]
                    above_index@.contains_key(k) ==> 0 <= above_index@[k] < above.len() && cell_key(
                        above@[above_index@[k] as int],
                    ) == k,
                forall|q: int| 0 <= q < above.len() ==> above_index@.contains_key(#[trigger] cell_key(above@[q])),
                rests == (above@.contains(c) || (k > 0 && has_neighbor_in(above@, c, 0)) || (k > 1
                    && has_neighbor_in(above@, c, 1)) || (k > 2 && has_neighbor_in(above@, c, 2)) || (k > 3
                    && has_neighbor_in(above@, c, 3))),
        {
            if let Some(nb) = neighbor_of(c, k) {
                if lookup(&above_index, nb, Ghost(above@)).is_some() {
                    rests = true;
                }
            }
        }
        proof {
            assert(rests == rests_on(above@, c));
            reveal(Seq::filter);
            assert(layer@.take(i + 1).drop_last() =~= layer@.take(i as int));
            assert(layer@.take(i + 1).last() == c);
        }
        if !rests {
            found = true;
            if lookup(&acc_index, c, Ghost(acc0)).is_none() {
                acc.push(c);
                proof {
                    assert(acc@ =~= acc0 + layer@.take(i + 1).filter(newly_floating(above@, acc0)));
                }
            }
        }
    }
    proof {
        assert(layer@.take(n as int) =~= layer@);
    }
    found
}

} // verus!
