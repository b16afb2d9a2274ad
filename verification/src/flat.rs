//! Combinatorial core of the repairs on flat triangle soups: nine coordinates
//! per triangle, each given by the bit pattern of its `f32`. Points are told
//! apart by IEEE 754 equality of their coordinates and keyed by an FNV-1a
//! hash of their bytes.
use vstd::prelude::*;
use std::collections::HashMap;
use vstd::wrapping::u64_specs::wrapping_mul;
use crate::edges::{first_occurrences, lemma_filter_within};
use crate::adjacency::push_edge_entry;
use crate::holes::{increasing, marked, lemma_mark_one};

verus! {

broadcast use vstd::std_specs::hash::group_hash_axioms;

/// A point: the bit patterns of its three `f32` coordinates.
pub type Point = (u32, u32, u32);

/// The FNV-1a offset basis.
pub const FNV_OFFSET: u64 = 14695981039346656037u64;

/// The FNV-1a prime.
pub const FNV_PRIME: u64 = 1099511628211u64;

/// The multiplier that mixes the larger point hash into an edge key.
pub const EDGE_MIX: u64 = 0x9e37_79b9_7f4a_7c15u64;

/// The bit pattern of an `f32` NaN: all exponent bits set, fraction nonzero.
pub open spec fn is_nan_bits(x: u32) -> bool {
    (x & 0x7F80_0000u32) == 0x7F80_0000u32 && (x & 0x007F_FFFFu32) != 0
}

/// Two `f32` values, by bit pattern, are equal as IEEE 754 numbers: neither
/// is a NaN, and the patterns agree or both are zeros, of either sign.
#[verifier::opaque]
pub open spec fn f32_eq(a: u32, b: u32) -> bool {
    !is_nan_bits(a) && !is_nan_bits(b) && (a == b || ((a & 0x7FFF_FFFFu32) == 0 && (b
        & 0x7FFF_FFFFu32) == 0))
}

/// Two points with equal coordinates.
pub open spec fn same_point(a: Point, b: Point) -> bool {
    f32_eq(a.0, b.0) && f32_eq(a.1, b.1) && f32_eq(a.2, b.2)
}

/// One FNV-1a step on a byte.
pub open spec fn fnv_byte(h: u64, b: u32) -> u64 {
    wrapping_mul(h ^ (b as u64), FNV_PRIME)
}

/// FNV-1a over the four little-endian bytes of a word.
#[verifier::opaque]
pub open spec fn fnv_word(h: u64, w: u32) -> u64 {
    fnv_byte(
        fnv_byte(fnv_byte(fnv_byte(h, w & 0xffu32), (w >> 8u32) & 0xffu32), (w >> 16u32) & 0xffu32),
        (w >> 24u32) & 0xffu32,
    )
}

/// The FNV-1a hash of a point's twelve bytes, coordinate after coordinate.
pub open spec fn point_hash(v: Point) -> u64 {
    fnv_word(fnv_word(fnv_word(FNV_OFFSET, v.0), v.1), v.2)
}

/// The FNV-1a hash of a triangle's thirty-six bytes, point after point.
pub open spec fn triangle_hash(a: Point, b: Point, c: Point) -> u64 {
    let h1 = fnv_word(fnv_word(fnv_word(FNV_OFFSET, a.0), a.1), a.2);
    let h2 = fnv_word(fnv_word(fnv_word(h1, b.0), b.1), b.2);
    fnv_word(fnv_word(fnv_word(h2, c.0), c.1), c.2)
}

/// The key of the undirected edge between points hashed `ha` and `hb`: the
/// smaller hash mixed with a multiple of the larger.
#[verifier::opaque]
pub open spec fn edge_key(ha: u64, hb: u64) -> u64 {
    if ha <= hb {
        ha ^ wrapping_mul(hb, EDGE_MIX)
    } else {
        hb ^ wrapping_mul(ha, EDGE_MIX)
    }
}

/// IEEE 754 equality of two `f32` values given by their bit patterns.
pub fn f32_bits_eq(a: u32, b: u32) -> (r: bool)
    ensures
        r == f32_eq(a, b),
{
    reveal(f32_eq);
    let a_nan = (a & 0x7F80_0000u32) == 0x7F80_0000u32 && (a & 0x007F_FFFFu32) != 0;
    let b_nan = (b & 0x7F80_0000u32) == 0x7F80_0000u32 && (b & 0x007F_FFFFu32) != 0;
    !a_nan && !b_nan && (a == b || ((a & 0x7FFF_FFFFu32) == 0 && (b & 0x7FFF_FFFFu32) == 0))
}

/// Whether two points have equal coordinates.
pub fn points_equal(a: Point, b: Point) -> (r: bool)
    ensures
        r == same_point(a, b),
{
    f32_bits_eq(a.0, b.0) && f32_bits_eq(a.1, b.1) && f32_bits_eq(a.2, b.2)
}

/// Feeds the four little-endian bytes of `w` to an FNV-1a state.
fn fnv_feed_word(h: u64, w: u32) -> (r: u64)
    ensures
        r == fnv_word(h, w),
{
    reveal(fnv_word);
    let mut h = (h ^ ((w & 0xffu32) as u64)).wrapping_mul(FNV_PRIME);
    h = (h ^ (((w >> 8u32) & 0xffu32) as u64)).wrapping_mul(FNV_PRIME);
    h = (h ^ (((w >> 16u32) & 0xffu32) as u64)).wrapping_mul(FNV_PRIME);
    (h ^ (((w >> 24u32) & 0xffu32) as u64)).wrapping_mul(FNV_PRIME)
}

/// The FNV-1a hash of a point given by its coordinates' bit patterns.
pub fn vertex_hash(x: u32, y: u32, z: u32) -> (h: u64)
    ensures
        h == point_hash((x, y, z)),
{
    let h = fnv_feed_word(FNV_OFFSET, x);
    let h = fnv_feed_word(h, y);
    fnv_feed_word(h, z)
}

/// The order-independent key of the edge between two points.
pub fn edge_hash(ax: u32, ay: u32, az: u32, bx: u32, by: u32, bz: u32) -> (k: u64)
    ensures
        k == edge_key(point_hash((ax, ay, az)), point_hash((bx, by, bz))),
        k == edge_key(point_hash((bx, by, bz)), point_hash((ax, ay, az))),
{
    reveal(edge_key);
    let ha = vertex_hash(ax, ay, az);
    let hb = vertex_hash(bx, by, bz);
    if ha <= hb {
        ha ^ hb.wrapping_mul(EDGE_MIX)
    } else {
        hb ^ ha.wrapping_mul(EDGE_MIX)
    }
}

/// The FNV-1a hash of a triangle given by its three points, in order.
pub fn hash_tri(tri: &[Point; 3]) -> (h: u64)
    ensures
        h == triangle_hash(tri@[0], tri@[1], tri@[2]),
{
    let mut h = FNV_OFFSET;
    let a = tri[0];
    let b = tri[1];
    let c = tri[2];
    h = fnv_feed_word(h, a.0);
    h = fnv_feed_word(h, a.1);
    h = fnv_feed_word(h, a.2);
    h = fnv_feed_word(h, b.0);
    h = fnv_feed_word(h, b.1);
    h = fnv_feed_word(h, b.2);
    h = fnv_feed_word(h, c.0);
    h = fnv_feed_word(h, c.1);
    fnv_feed_word(h, c.2)
}

/// Corner `j` of triangle `t`.
pub open spec fn corner_point(p: Seq<u32>, t: int, j: int) -> Point {
    (p[9 * t + 3 * j], p[9 * t + 3 * j + 1], p[9 * t + 3 * j + 2])
}

/// Side `s` runs from corner `s % 3` of triangle `s / 3` to its next corner.
pub open spec fn side_start(p: Seq<u32>, s: int) -> Point {
    corner_point(p, s / 3, s % 3)
}

/// Where side `s` ends.
pub open spec fn side_end(p: Seq<u32>, s: int) -> Point {
    corner_point(p, s / 3, (s % 3 + 1) % 3)
}

/// Side `s` joins two different points.
pub open spec fn side_ok(p: Seq<u32>, s: int) -> bool {
    !same_point(side_start(p, s), side_end(p, s))
}

/// The edge key of side `s`.
pub open spec fn side_key(p: Seq<u32>, s: int) -> u64 {
    edge_key(point_hash(side_start(p, s)), point_hash(side_end(p, s)))
}

/// The keys of the proper sides among the first `m`, in order.
pub open spec fn side_keys(p: Seq<u32>, m: int) -> Seq<u64>
    decreases m,
{
    if m <= 0 {
        Seq::empty()
    } else if side_ok(p, m - 1) {
        side_keys(p, m - 1).push(side_key(p, m - 1))
    } else {
        side_keys(p, m - 1)
    }
}

/// The proper sides among the first `m` whose key is `k`, in order.
pub open spec fn sides_with_key(p: Seq<u32>, m: int, k: u64) -> Seq<usize>
    decreases m,
{
    if m <= 0 {
        Seq::empty()
    } else if side_ok(p, m - 1) && side_key(p, m - 1) == k {
        sides_with_key(p, m - 1, k).push((m - 1) as usize)
    } else {
        sides_with_key(p, m - 1, k)
    }
}

/// The number of sides of a flat list of coordinates: three per complete triangle.
pub open spec fn side_count(p: Seq<u32>) -> int {
    3 * (p.len() / 9) as int
}

/// The edge keys of the proper sides, each once, in order of first
/// occurrence, and for each the proper sides that carry it.
pub struct SideTable {
    pub keys: Vec<u64>,
    pub sides: HashMap<u64, Vec<usize>>,
}

/// `keys` and `sides` describe the first `m` sides of `p`.
pub open spec fn side_table_exact(
    p: Seq<u32>,
    m: int,
    keys: Seq<u64>,
    sides: Map<u64, Vec<usize>>,
) -> bool {
    &&& keys == first_occurrences(side_keys(p, m))
    &&& keys.no_duplicates()
    &&& forall|k: u64| #[trigger] sides.contains_key(k) <==> keys.contains(k)
    &&& forall|k: u64| #[trigger] sides.contains_key(k) ==> sides[k]@ == sides_with_key(p, m, k)
    &&& forall|k: u64| !sides.contains_key(k) ==> #[trigger] sides_with_key(p, m, k).len() == 0
}

/// Corner `j` of triangle `t`, read from the coordinate list.
fn corner_of(p: &Vec<u32>, t: usize, j: usize) -> (v: Point)
    requires
        t < p.len() / 9,
        j < 3,
    ensures
        v == corner_point(p@, t as int, j as int),
{
    let base = 9 * t + 3 * j;
    (p[base], p[base + 1], p[base + 2])
}

/// Records proper side `s`, whose key is `k`, in the side table.
fn record_side(
    keys: &mut Vec<u64>,
    sides: &mut HashMap<u64, Vec<usize>>,
    k: u64,
    s: usize,
    Ghost(p): Ghost<Seq<u32>>,
)
    requires
        side_table_exact(p, s as int, old(keys)@, old(sides)@),
        side_ok(p, s as int),
        side_key(p, s as int) == k,
    ensures
        side_table_exact(p, s + 1, final(keys)@, final(sides)@),
{
    let ghost prev_keys = side_keys(p, s as int);
    let had = sides.contains_key(&k);
    let ghost old_sides = sides@;
    let ghost old_keys = keys@;
    push_edge_entry(sides, k, s);
    if !had {
        keys.push(k);
    }
    proof {
        assert(side_keys(p, s + 1) == prev_keys.push(k));
        assert(prev_keys.push(k).drop_last() =~= prev_keys);
        assert(first_occurrences(prev_keys).contains(k) == had);
        assert forall|w: u64| #[trigger] sides@.contains_key(w) <==> keys@.contains(w) by {
            if w != k {
                assert(sides@.contains_key(w) == old_sides.contains_key(w));
                if !had {
                    assert(keys@ == old_keys.push(k));
                    if keys@.contains(w) {
                        let q = choose|q: int| 0 <= q < keys@.len() && keys@[q] == w;
                        assert(old_keys[q] == w);
                    }
                    if old_keys.contains(w) {
                        let q = choose|q: int| 0 <= q < old_keys.len() && old_keys[q] == w;
                        assert(keys@[q] == w);
                    }
                }
            } else {
                if !had {
                    assert(keys@[keys@.len() - 1] == k);
                }
            }
        }
        assert forall|w: u64| #[trigger] sides@.contains_key(w) implies sides@[w]@ == sides_with_key(
            p,
            s + 1,
            w,
        ) by {
            if w != k {
                assert(sides@[w] == old_sides[w]);
            } else {
                assert(sides_with_key(p, s + 1, w) == sides_with_key(p, s as int, w).push(s));
            }
        }
        assert forall|w: u64| !sides@.contains_key(w) implies #[trigger] sides_with_key(
            p,
            s + 1,
            w,
        ).len() == 0 by {
            assert(w != k);
            assert(!old_sides.contains_key(w));
            assert(sides_with_key(p, s as int, w).len() == 0);
        }
    }
}

/// Skipping a side that joins a point to itself leaves the table as it is.
proof fn lemma_skip_side(p: Seq<u32>, s: int, keys: Seq<u64>, sides: Map<u64, Vec<usize>>)
    requires
        0 <= s,
        side_table_exact(p, s, keys, sides),
        !side_ok(p, s),
    ensures
        side_table_exact(p, s + 1, keys, sides),
{
    assert(side_keys(p, s + 1) == side_keys(p, s));
    assert forall|w: u64| #[trigger] sides.contains_key(w) implies sides[w]@ == sides_with_key(
        p,
        s + 1,
        w,
    ) by {
    }
    assert forall|w: u64| !sides.contains_key(w) implies #[trigger] sides_with_key(p, s + 1, w).len()
        == 0 by {
        assert(sides_with_key(p, s, w).len() == 0);
    }
}

/// Groups the proper sides of the complete triangles by edge key.
pub fn build_side_table(p: &Vec<u32>) -> (table: SideTable)
    ensures
        side_table_exact(p@, side_count(p@), table.keys@, table.sides@),
{
    let m = 3 * (p.len() / 9);
    let mut keys: Vec<u64> = Vec::new();
    let mut sides: HashMap<u64, Vec<usize>> = HashMap::new();
    for s in 0..m
        invariant
            m == side_count(p@),
            side_table_exact(p@, s as int, keys@, sides@),
    {
        let t = s / 3;
        let e = s % 3;
        let a = corner_of(p, t, e);
        let b = corner_of(p, t, (e + 1) % 3);
        assert(a == side_start(p@, s as int) && b == side_end(p@, s as int));
        if !points_equal(a, b) {
            let k = edge_hash(a.0, a.1, a.2, b.0, b.1, b.2);
            record_side(&mut keys, &mut sides, k, s, Ghost(p@));
        } else {
            proof {
                lemma_skip_side(p@, s as int, keys@, sides@);
            }
        }
    }
    SideTable { keys, sides }
}

/// The test that a key is carried by exactly one of the first `m` proper sides.
pub open spec fn single_side_key(p: Seq<u32>, m: int) -> spec_fn(u64) -> bool {
    |k: u64| sides_with_key(p, m, k).len() == 1
}

/// The distinct edge keys carried by exactly one proper side, in order of
/// first occurrence.
pub open spec fn boundary_keys(p: Seq<u32>) -> Seq<u64> {
    first_occurrences(side_keys(p, side_count(p))).filter(single_side_key(p, side_count(p)))
}

/// The list of a key of the side table.
fn sides_of(table: &SideTable, k: u64, Ghost(p): Ghost<Seq<u32>>) -> (list: &Vec<usize>)
    requires
        side_table_exact(p, side_count(p), table.keys@, table.sides@),
        table.keys@.contains(k),
    ensures
        list@ == sides_with_key(p, side_count(p), k),
{
    assert(table.sides@.contains_key(k));
    table.sides.get(&k).unwrap()
}

/// Counts the boundary edges of a triangle soup: the distinct edge keys that
/// exactly one proper side carries.
pub fn count_boundary_edges(positions: &Vec<u32>) -> (count: u32)
    ensures
        count == boundary_keys(positions@).len() as u32,
{
    let ghost p = positions@;
    let table = build_side_table(positions);
    let n = table.keys.len();
    let mut count: usize = 0;
    for i in 0..n
        invariant
            n == table.keys.len(),
            side_table_exact(p, side_count(p), table.keys@, table.sides@),
            count <= i,
            count == table.keys@.take(i as int).filter(single_side_key(p, side_count(p))).len(),
    {
        let k = table.keys[i];
        let list = sides_of(&table, k, Ghost(p));
        proof {
            reveal(Seq::filter);
            assert(table.keys@.take(i + 1).drop_last() =~= table.keys@.take(i as int));
            assert(table.keys@.take(i + 1).last() == k);
        }
        if list.len() == 1 {
            count = count + 1;
        }
    }
    proof {
        assert(table.keys@.take(n as int) =~= table.keys@);
    }
    count as u32
}

/// The number of complete triangles in a flat coordinate list.
pub open spec fn triangle_count(p: Seq<u32>) -> int {
    (p.len() / 9) as int
}

/// The key of triangle `t`: the hash of its corners taken in the order
/// `order[t]`, which lists them from least to greatest.
pub open spec fn sorted_key(p: Seq<u32>, order: Seq<(u8, u8, u8)>, t: int) -> u64 {
    triangle_hash(
        corner_point(p, t, order[t].0 as int),
        corner_point(p, t, order[t].1 as int),
        corner_point(p, t, order[t].2 as int),
    )
}

/// No triangle before `t` has the key of `t`.
pub open spec fn first_of_key(p: Seq<u32>, order: Seq<(u8, u8, u8)>, t: int) -> bool {
    forall|j: int| 0 <= j < t ==> sorted_key(p, order, j) != sorted_key(p, order, t)
}

/// The coordinates of the first `m` triangles, leaving out each triangle
/// whose key an earlier one has.
pub open spec fn kept_triangles(p: Seq<u32>, order: Seq<(u8, u8, u8)>, m: int) -> Seq<u32>
    decreases m,
{
    if m <= 0 {
        Seq::empty()
    } else if first_of_key(p, order, m - 1) {
        kept_triangles(p, order, m - 1) + p.subrange(9 * (m - 1), 9 * m)
    } else {
        kept_triangles(p, order, m - 1)
    }
}

/// How many of the first `m` triangles repeat the key of an earlier one.
pub open spec fn duplicate_count(p: Seq<u32>, order: Seq<(u8, u8, u8)>, m: int) -> nat
    decreases m,
{
    if m <= 0 {
        0
    } else if first_of_key(p, order, m - 1) {
        duplicate_count(p, order, m - 1)
    } else {
        duplicate_count(p, order, m - 1) + 1
    }
}

/// Removes duplicate triangles: a triangle whose corners, each taken in the
/// order given for it in `order`, hash like those of an earlier triangle is
/// dropped. Fewer than two triangles are left as they are, and so is the
/// whole list when nothing is dropped. Returns the number of triangles removed.
pub fn repair_mesh(positions: &mut Vec<u32>, order: &Vec<(u8, u8, u8)>) -> (removed: u32)
    requires
        order.len() == old(positions).len() / 9,
        old(positions).len() / 9 <= u32::MAX,
        forall|t: int|
            0 <= t < order.len() ==> (#[trigger] order@[t]).0 < 3 && order@[t].1 < 3 && order@[t].2
                < 3,
    ensures
        triangle_count(old(positions)@) < 2 ==> removed == 0 && final(positions)@ == old(
            positions,
        )@,
        triangle_count(old(positions)@) >= 2 ==> removed == duplicate_count(
            old(positions)@,
            order@,
            triangle_count(old(positions)@),
        ) && final(positions)@ == if removed == 0 {
            old(positions)@
        } else {
            kept_triangles(old(positions)@, order@, triangle_count(old(positions)@))
        },
{
    let n = positions.len() / 9;
    if n < 2 {
        return 0;
    }
    let ghost p = positions@;
    let mut seen: std::collections::HashSet<u64> = std::collections::HashSet::new();
    let mut kept: Vec<u32> = Vec::new();
    let mut removed: u32 = 0;
    for t in 0..n
        invariant
            n == p.len() / 9,
            positions@ == p,
            order.len() == n,
            n <= u32::MAX,
            forall|t: int|
                0 <= t < order.len() ==> (#[trigger] order@[t]).0 < 3 && order@[t].1 < 3
                    && order@[t].2 < 3,
            forall|k: u64|
                #[trigger] seen@.contains(k) <==> exists|j: int|
                    0 <= j < t && sorted_key(p, order@, j) == k,
            kept@ == kept_triangles(p, order@, t as int),
            removed == duplicate_count(p, order@, t as int),
            removed <= t,
    {
        let o = order[t];
        let tri = [
            corner_of(positions, t, o.0 as usize),
            corner_of(positions, t, o.1 as usize),
            corner_of(positions, t, o.2 as usize),
        ];
        let key = hash_tri(&tri);
        assert(key == sorted_key(p, order@, t as int));
        let ghost seen0 = seen@;
        if seen.insert(key) {
            proof {
                assert(first_of_key(p, order@, t as int)) by {
                    assert forall|j: int| 0 <= j < t implies sorted_key(p, order@, j) != sorted_key(
                        p,
                        order@,
                        t as int,
                    ) by {
                        if sorted_key(p, order@, j) == key {
                            assert(seen0.contains(key));
                        }
                    }
                }
            }
            let ghost kept0 = kept@;
            assert(9 * t + 9 <= positions.len()) by (nonlinear_arith)
                requires
                    t < n,
                    n == positions.len() / 9,
            ;
            let base = 9 * t;
            for q in 0..9
                invariant
                    base == 9 * t,
                    9 * t + 9 <= positions.len(),
                    t < n,
                    n == p.len() / 9,
                    positions@ == p,
                    kept@ == kept0 + p.subrange(base as int, base + q),
            {
                kept.push(positions[base + q]);
                proof {
                    assert(kept@ =~= kept0 + p.subrange(base as int, base + q + 1));
                }
            }
        } else {
            proof {
                let j = choose|j: int| 0 <= j < t && sorted_key(p, order@, j) == key;
                assert(!first_of_key(p, order@, t as int));
            }
            removed = removed + 1;
        }
        proof {
            assert forall|k: u64| #[trigger] seen@.contains(k) <==> exists|j: int|
                0 <= j < t + 1 && sorted_key(p, order@, j) == k by {
                if k != key && seen@.contains(k) {
                    assert(seen0.contains(k));
                    let j = choose|j: int| 0 <= j < t && sorted_key(p, order@, j) == k;
                    assert(0 <= j < t + 1 && sorted_key(p, order@, j) == k);
                }
                if exists|j: int| 0 <= j < t + 1 && sorted_key(p, order@, j) == k {
                    let j = choose|j: int| 0 <= j < t + 1 && sorted_key(p, order@, j) == k;
                    if j < t {
                        assert(seen0.contains(k));
                    }
                }
            }
        }
    }
    if removed > 0 {
        *positions = kept;
    }
    removed
}

/// The side that alone carries key `k`, as its pair of end points.
pub open spec fn single_side_of(p: Seq<u32>, k: u64) -> (Point, Point) {
    let s = sides_with_key(p, side_count(p), k)[0] as int;
    (side_start(p, s), side_end(p, s))
}

/// The boundary sides, from start to end, in order of first occurrence of
/// their keys.
pub open spec fn boundary_sides(p: Seq<u32>) -> Seq<(Point, Point)> {
    boundary_keys(p).map_values(|k: u64| single_side_of(p, k))
}

/// The hashes of a side's end points.
pub open spec fn hash_pair(e: (Point, Point)) -> (u64, u64) {
    (point_hash(e.0), point_hash(e.1))
}

/// The sides listed under key `k` are proper sides with that key, in range.
proof fn lemma_sides_with_key_facts(p: Seq<u32>, m: int, k: u64)
    requires
        m <= usize::MAX,
    ensures
        forall|q: int|
            0 <= q < sides_with_key(p, m, k).len() ==> {
                let s = #[trigger] sides_with_key(p, m, k)[q] as int;
                0 <= s < m && side_ok(p, s) && side_key(p, s) == k
            },
    decreases m,
{
    if m > 0 {
        lemma_sides_with_key_facts(p, m - 1, k);
        let r = sides_with_key(p, m - 1, k);
        assert forall|q: int| 0 <= q < sides_with_key(p, m, k).len() implies {
            let s = #[trigger] sides_with_key(p, m, k)[q] as int;
            0 <= s < m && side_ok(p, s) && side_key(p, s) == k
        } by {
            if q < r.len() {
                assert(sides_with_key(p, m, k)[q] == r[q]);
            }
        }
    }
}

/// A filter of a list without repeats has no repeats.
proof fn lemma_filter_no_duplicates<A>(s: Seq<A>, pred: spec_fn(A) -> bool)
    requires
        s.no_duplicates(),
    ensures
        s.filter(pred).no_duplicates(),
    decreases s.len(),
{
    reveal(Seq::filter);
    if s.len() > 0 {
        lemma_filter_no_duplicates(s.drop_last(), pred);
        lemma_filter_within(s.drop_last(), pred);
        let r = s.drop_last().filter(pred);
        if pred(s.last()) {
            assert forall|i: int, j: int|
                0 <= i < j < r.push(s.last()).len() implies r.push(s.last())[i] != r.push(
                    s.last(),
                )[j] by {
                if j == r.len() {
                    assert(s.drop_last().contains(r[i]));
                    let q = choose|q: int| 0 <= q < s.drop_last().len() && s.drop_last()[q] == r[i];
                    assert(s[q] == r[i]);
                    assert(s[s.len() - 1] == s.last());
                }
            }
        }
    }
}

/// Distinct boundary keys give boundary sides with distinct end-point hashes.
proof fn lemma_boundary_sides_distinct(p: Seq<u32>)
    requires
        first_occurrences(side_keys(p, side_count(p))).no_duplicates(),
        side_count(p) <= usize::MAX,
    ensures
        forall|i: int, j: int|
            0 <= i < boundary_sides(p).len() && 0 <= j < boundary_sides(p).len() && i != j
                ==> hash_pair(#[trigger] boundary_sides(p)[i]) != hash_pair(
                #[trigger] boundary_sides(p)[j],
            ),
{
    let m = side_count(p);
    let ks = boundary_keys(p);
    let pred = single_side_key(p, m);
    lemma_filter_no_duplicates(first_occurrences(side_keys(p, m)), pred);
    broadcast use Seq::lemma_filter_pred;
    assert forall|q: int| 0 <= q < ks.len() implies edge_key(
        hash_pair(#[trigger] boundary_sides(p)[q]).0,
        hash_pair(boundary_sides(p)[q]).1,
    ) == ks[q] by {
        assert(pred(ks[q]));
        lemma_sides_with_key_facts(p, m, ks[q]);
        assert(sides_with_key(p, m, ks[q]).len() == 1);
        let s = sides_with_key(p, m, ks[q])[0] as int;
        assert(side_key(p, s) == ks[q]);
    }
    assert forall|i: int, j: int|
        0 <= i < boundary_sides(p).len() && 0 <= j < boundary_sides(p).len() && i != j implies hash_pair(
            #[trigger] boundary_sides(p)[i],
        ) != hash_pair(#[trigger] boundary_sides(p)[j]) by {
        assert(edge_key(hash_pair(boundary_sides(p)[i]).0, hash_pair(boundary_sides(p)[i]).1) == ks[i]);
        assert(edge_key(hash_pair(boundary_sides(p)[j]).0, hash_pair(boundary_sides(p)[j]).1) == ks[j]);
    }
}

/// Lists the boundary sides of a soup, from its side table.
fn collect_boundary_sides(positions: &Vec<u32>, table: &SideTable) -> (bs: Vec<(Point, Point)>)
    requires
        side_table_exact(positions@, side_count(positions@), table.keys@, table.sides@),
    ensures
        bs@ == boundary_sides(positions@),
        forall|i: int, j: int|
            0 <= i < bs.len() && 0 <= j < bs.len() && i != j ==> hash_pair(#[trigger] bs@[i])
                != hash_pair(#[trigger] bs@[j]),
{
    let ghost p = positions@;
    let n = table.keys.len();
    let mut bs: Vec<(Point, Point)> = Vec::new();
    let ghost m = side_count(p);
    assert(m <= positions.len()) by (nonlinear_arith)
        requires
            m == 3 * (positions.len() / 9) as int,
    ;
    for i in 0..n
        invariant
            n == table.keys.len(),
            p == positions@,
            m <= positions.len(),
            m == side_count(p),
            side_table_exact(p, m, table.keys@, table.sides@),
            bs@ == table.keys@.take(i as int).filter(single_side_key(p, m)).map_values(
                |k: u64| single_side_of(p, k),
            ),
    {
        let k = table.keys[i];
        let list = sides_of(table, k, Ghost(p));
        let ghost kept0 = table.keys@.take(i as int).filter(single_side_key(p, m));
        proof {
            reveal(Seq::filter);
            assert(table.keys@.take(i + 1).drop_last() =~= table.keys@.take(i as int));
            assert(table.keys@.take(i + 1).last() == k);
        }
        if list.len() == 1 {
            let s = list[0];
            proof {
                lemma_sides_with_key_facts(p, m, k);
                assert(0 <= s < m && side_key(p, s as int) == k);
            }
            let t = s / 3;
            let e = s % 3;
            let a = corner_of(positions, t, e);
            let b = corner_of(positions, t, (e + 1) % 3);
            bs.push((a, b));
            proof {
                assert(a == side_start(p, s as int) && b == side_end(p, s as int));
                let kept1 = table.keys@.take(i + 1).filter(single_side_key(p, m));
                assert(kept1 == kept0.push(k));
                assert(bs@ =~= kept1.map_values(|k: u64| single_side_of(p, k)));
            }
        } else {
            proof {
                let kept1 = table.keys@.take(i + 1).filter(single_side_key(p, m));
                assert(kept1 == kept0);
            }
        }
    }
    proof {
        assert(table.keys@.take(n as int) =~= table.keys@);
        assert(bs@ == boundary_sides(p));
        lemma_boundary_sides_distinct(p);
        assert forall|i: int, j: int|
            0 <= i < bs.len() && 0 <= j < bs.len() && i != j implies hash_pair(#[trigger] bs@[i])
                != hash_pair(#[trigger] bs@[j]) by {
            assert(bs@[i] == boundary_sides(p)[i] && bs@[j] == boundary_sides(p)[j]);
        }
    }
    bs
}

/// Boundary side `i` starts at a point hashed `ch`, and its pair of end-point
/// hashes is not in `visited`.
pub open spec fn open_at(bs: Seq<(Point, Point)>, visited: Set<(u64, u64)>, ch: u64, i: int) -> bool {
    0 <= i < bs.len() && point_hash(bs[i].0) == ch && !visited.contains(hash_pair(bs[i]))
}

/// Boundary side `i` is the first open at `ch`.
pub open spec fn first_open_at(bs: Seq<(Point, Point)>, visited: Set<(u64, u64)>, ch: u64, i: int) -> bool {
    open_at(bs, visited, ch, i) && forall|j: int| 0 <= j < i ==> !#[trigger] open_at(bs, visited, ch, j)
}

/// The first boundary side open at `ch`, if any.
pub open spec fn first_open(bs: Seq<(Point, Point)>, visited: Set<(u64, u64)>, ch: u64) -> Option<int> {
    if exists|i: int| #[trigger] open_at(bs, visited, ch, i) {
        Some(choose|i: int| #[trigger] first_open_at(bs, visited, ch, i))
    } else {
        None
    }
}

/// Continues the hole loop `pts`, now at point `cur`: the first open
/// boundary side from `cur` is taken and its hash pair visited; the loop is
/// done on reaching a point hashed like its start (`sh`), when no side is
/// open, when it has grown past `cap` points, or after `fuel` sides. The
/// result is the loop's points and the visited pairs afterwards.
pub open spec fn trace(
    bs: Seq<(Point, Point)>,
    visited: Set<(u64, u64)>,
    sh: u64,
    cur: Point,
    pts: Seq<Point>,
    cap: int,
    fuel: nat,
) -> (Seq<Point>, Set<(u64, u64)>)
    decreases fuel,
{
    if fuel == 0 {
        (pts, visited)
    } else {
        match first_open(bs, visited, point_hash(cur)) {
            None => (pts, visited),
            Some(i) => {
                let next = bs[i].1;
                let v2 = visited.insert(hash_pair(bs[i]));
                if point_hash(next) == sh {
                    (pts, v2)
                } else if pts.len() + 1 > cap {
                    (pts.push(next), v2)
                } else {
                    trace(bs, v2, sh, next, pts.push(next), cap, (fuel - 1) as nat)
                }
            },
        }
    }
}

/// The hole loops traced from the boundary sides at positions `s..`: each
/// side whose hash pair is not yet visited starts a loop with its two end
/// points; a loop of three or more points is kept.
pub open spec fn hole_loops_from(bs: Seq<(Point, Point)>, visited: Set<(u64, u64)>, cap: int, s: int) -> Seq<
    Seq<Point>,
>
    decreases bs.len() - s,
{
    if s < 0 || s >= bs.len() {
        Seq::empty()
    } else if visited.contains(hash_pair(bs[s])) {
        hole_loops_from(bs, visited, cap, s + 1)
    } else {
        let t = trace(
            bs,
            visited.insert(hash_pair(bs[s])),
            point_hash(bs[s].0),
            bs[s].1,
            seq![bs[s].0, bs[s].1],
            cap,
            bs.len(),
        );
        if t.0.len() >= 3 {
            seq![t.0] + hole_loops_from(bs, t.1, cap, s + 1)
        } else {
            hole_loops_from(bs, t.1, cap, s + 1)
        }
    }
}

/// The test that a loop has at most `max_edges` points.
pub open spec fn small_loop(max_edges: nat) -> spec_fn(Seq<Point>) -> bool {
    |l: Seq<Point>| l.len() <= max_edges
}

/// The hole loops of a triangle soup to be filled: those traced from its
/// boundary sides, tracing stopping past `max_edges + 4` points, that have at
/// most `max_edges` points.
pub open spec fn fillable_loops(p: Seq<u32>, max_edges: nat) -> Seq<Seq<Point>> {
    hole_loops_from(boundary_sides(p), Set::empty(), max_edges + 4int, 0).filter(small_loop(max_edges))
}

/// The hash pairs of the boundary sides marked in `used`.
pub open spec fn visited_pairs(bs: Seq<(Point, Point)>, used: Seq<bool>) -> Set<(u64, u64)> {
    Set::new(
        |x: (u64, u64)| exists|j: int| 0 <= j < bs.len() && j < used.len() && used[j] && hash_pair(bs[j]) == x,
    )
}

/// Boundary sides with pairwise different hash pairs.
pub open spec fn pairs_distinct(bs: Seq<(Point, Point)>) -> bool {
    forall|i: int, j: int|
        0 <= i < bs.len() && 0 <= j < bs.len() && i != j ==> hash_pair(#[trigger] bs[i]) != hash_pair(
            #[trigger] bs[j],
        )
}

/// With distinct hash pairs, a side's pair is visited exactly when it is marked.
proof fn lemma_visited_marked(bs: Seq<(Point, Point)>, used: Seq<bool>, i: int)
    requires
        pairs_distinct(bs),
        used.len() == bs.len(),
        0 <= i < bs.len(),
    ensures
        visited_pairs(bs, used).contains(hash_pair(bs[i])) == used[i],
{
    if visited_pairs(bs, used).contains(hash_pair(bs[i])) {
        let j = choose|j: int|
            0 <= j < bs.len() && j < used.len() && used[j] && hash_pair(bs[j]) == hash_pair(bs[i]);
        assert(j == i);
    }
}

/// Marking side `i` visits its hash pair.
proof fn lemma_visit_one(bs: Seq<(Point, Point)>, used: Seq<bool>, i: int)
    requires
        used.len() == bs.len(),
        0 <= i < bs.len(),
    ensures
        visited_pairs(bs, used.update(i, true)) == visited_pairs(bs, used).insert(hash_pair(bs[i])),
{
    let a = visited_pairs(bs, used.update(i, true));
    let b = visited_pairs(bs, used).insert(hash_pair(bs[i]));
    assert forall|x: (u64, u64)| a.contains(x) <==> b.contains(x) by {
        if a.contains(x) && x != hash_pair(bs[i]) {
            let j = choose|j: int|
                0 <= j < bs.len() && j < used.len() && used.update(i, true)[j] && hash_pair(bs[j]) == x;
            assert(j != i);
            assert(used[j]);
        }
        if b.contains(x) {
            if x == hash_pair(bs[i]) {
                assert(used.update(i, true)[i]);
            } else {
                let j = choose|j: int|
                    0 <= j < bs.len() && j < used.len() && used[j] && hash_pair(bs[j]) == x;
                assert(used.update(i, true)[j]);
            }
        }
    }
    assert(a =~= b);
}

/// `m` maps each start hash to the positions of the boundary sides starting
/// there, in increasing order, for the first `k` sides.
pub open spec fn starts_exact(bs: Seq<(Point, Point)>, k: int, m: Map<u64, Vec<usize>>) -> bool {
    &&& forall|h: u64| #[trigger] m.contains_key(h) ==> increasing(m[h]@)
    &&& forall|h: u64, q: int|
        #![trigger m[h]@[q]]
        m.contains_key(h) && 0 <= q < m[h]@.len() ==> m[h]@[q] < k && point_hash(
            bs[m[h]@[q] as int].0,
        ) == h
    &&& forall|i: int|
        0 <= i < k ==> m.contains_key(point_hash((#[trigger] bs[i]).0)) && m[point_hash(
            bs[i].0,
        )]@.contains(i as usize)
}

/// For each start hash, the positions of the boundary sides starting there.
fn build_starts(bs: &Vec<(Point, Point)>) -> (m: HashMap<u64, Vec<usize>>)
    ensures
        starts_exact(bs@, bs.len() as int, m@),
{
    let n = bs.len();
    let mut m: HashMap<u64, Vec<usize>> = HashMap::new();
    for i in 0..n
        invariant
            n == bs.len(),
            starts_exact(bs@, i as int, m@),
    {
        let a = bs[i].0;
        let h = vertex_hash(a.0, a.1, a.2);
        let ghost m0 = m@;
        push_edge_entry(&mut m, h, i);
        proof {
            assert forall|w: u64| #[trigger] m@.contains_key(w) implies increasing(m@[w]@) by {
                if w == h {
                    let prev = if m0.contains_key(w) { m0[w]@ } else { Seq::empty() };
                    assert(m@[w]@ == prev.push(i));
                    assert forall|p1: int, p2: int| 0 <= p1 < p2 < m@[w]@.len() implies m@[w]@[p1]
                        < m@[w]@[p2] by {
                        if p2 == m@[w]@.len() - 1 {
                            assert(m0[w]@[p1] < i);
                        } else {
                            assert(m0[w]@[p1] == m@[w]@[p1]);
                        }
                    }
                } else {
                    assert(m@[w] == m0[w]);
                }
            }
            assert forall|w: u64, q: int|
                #![trigger m@[w]@[q]]
                m@.contains_key(w) && 0 <= q < m@[w]@.len() implies m@[w]@[q] < i + 1 && point_hash(
                    bs@[m@[w]@[q] as int].0,
                ) == w by {
                if w == h {
                    if q < m@[w]@.len() - 1 {
                        assert(m@[w]@[q] == m0[w]@[q]);
                    }
                } else {
                    assert(m@[w] == m0[w]);
                }
            }
            assert forall|j: int| 0 <= j < i + 1 implies m@.contains_key(
                point_hash((#[trigger] bs@[j]).0),
            ) && m@[point_hash(bs@[j].0)]@.contains(j as usize) by {
                if j == i {
                    assert(m@[h]@.last() == i);
                } else {
                    let w = point_hash(bs@[j].0);
                    assert(m0.contains_key(w) && m0[w]@.contains(j as usize));
                    let q = choose|q: int| 0 <= q < m0[w]@.len() && m0[w]@[q] == j as usize;
                    assert(m@[w]@[q] == j as usize);
                }
            }
        }
    }
    m
}

/// Where some side is open at `ch`, a first one is.
proof fn lemma_first_open_exists(bs: Seq<(Point, Point)>, visited: Set<(u64, u64)>, ch: u64, x: int)
    requires
        open_at(bs, visited, ch, x),
    ensures
        exists|i: int| #[trigger] first_open_at(bs, visited, ch, i),
    decreases x,
{
    if exists|j: int| 0 <= j < x && #[trigger] open_at(bs, visited, ch, j) {
        let j = choose|j: int| 0 <= j < x && #[trigger] open_at(bs, visited, ch, j);
        lemma_first_open_exists(bs, visited, ch, j);
    } else {
        assert(first_open_at(bs, visited, ch, x));
    }
}

/// The first boundary side that starts at a point hashed `ch` and is not marked.
fn first_open_side(
    m: &HashMap<u64, Vec<usize>>,
    used: &Vec<bool>,
    ch: u64,
    Ghost(bs): Ghost<Seq<(Point, Point)>>,
) -> (r: Option<usize>)
    requires
        starts_exact(bs, bs.len() as int, m@),
        pairs_distinct(bs),
        used.len() == bs.len(),
    ensures
        match r {
            Some(i) => i < bs.len() && first_open(bs, visited_pairs(bs, used@), ch) == Some(i as int)
                && first_open_at(bs, visited_pairs(bs, used@), ch, i as int),
            None => first_open(bs, visited_pairs(bs, used@), ch) is None,
        },
{
    let ghost vis = visited_pairs(bs, used@);
    match m.get(&ch) {
        None => {
            proof {
                assert forall|i: int| !#[trigger] open_at(bs, vis, ch, i) by {
                    if open_at(bs, vis, ch, i) {
                        assert(m@.contains_key(point_hash(bs[i].0)));
                    }
                }
            }
            None
        },
        Some(list) => {
            let len = list.len();
            for q in 0..len
                invariant
                    len == list@.len(),
                    m@.contains_key(ch),
                    list@ == m@[ch]@,
                    starts_exact(bs, bs.len() as int, m@),
                    pairs_distinct(bs),
                    used.len() == bs.len(),
                    vis == visited_pairs(bs, used@),
                    forall|q2: int| 0 <= q2 < q ==> used@[#[trigger] list@[q2] as int],
            {
                let i = list[q];
                if !used[i] {
                    proof {
                        assert(list@[q as int] == i);
                        lemma_visited_marked(bs, used@, i as int);
                        assert(open_at(bs, vis, ch, i as int));
                        assert forall|j: int| 0 <= j < i implies !#[trigger] open_at(bs, vis, ch, j) by {
                            if open_at(bs, vis, ch, j) {
                                assert(m@[ch]@.contains(j as usize));
                                let q2 = choose|q2: int| 0 <= q2 < list@.len() && list@[q2] == j as usize;
                                assert(increasing(list@));
                                if q2 > q {
                                    assert(list@[q as int] < list@[q2]);
                                }
                                assert(q2 < q);
                                lemma_visited_marked(bs, used@, j);
                            }
                        }
                        assert(first_open_at(bs, vis, ch, i as int));
                        let c = choose|c: int| #[trigger] first_open_at(bs, vis, ch, c);
                        assert(first_open_at(bs, vis, ch, c));
                        if c < i {
                            assert(!open_at(bs, vis, ch, c));
                        } else if c > i {
                            assert(open_at(bs, vis, ch, i as int));
                        }
                    }
                    return Some(i);
                }
            }
            proof {
                assert forall|i: int| !#[trigger] open_at(bs, vis, ch, i) by {
                    if open_at(bs, vis, ch, i) {
                        assert(m@[ch]@.contains(i as usize));
                        let q2 = choose|q2: int| 0 <= q2 < list@.len() && list@[q2] == i as usize;
                        assert(used@[list@[q2] as int]);
                        lemma_visited_marked(bs, used@, i);
                    }
                }
            }
            None
        },
    }
}

/// Traces the hole loop that starts with boundary side `s`, marking the sides
/// it takes.
fn trace_hole(
    bs: &Vec<(Point, Point)>,
    starts: &HashMap<u64, Vec<usize>>,
    used: &mut Vec<bool>,
    s: usize,
    max_edges: u32,
) -> (pts: Vec<Point>)
    requires
        starts_exact(bs@, bs.len() as int, starts@),
        pairs_distinct(bs@),
        old(used).len() == bs.len(),
        s < bs.len(),
        !old(used)@[s as int],
    ensures
        final(used).len() == bs.len(),
        trace(
            bs@,
            visited_pairs(bs@, old(used)@).insert(hash_pair(bs@[s as int])),
            point_hash(bs@[s as int].0),
            bs@[s as int].1,
            seq![bs@[s as int].0, bs@[s as int].1],
            max_edges + 4int,
            bs.len() as nat,
        ) == (pts@, visited_pairs(bs@, final(used)@)),
{
    let ghost b = bs@;
    let n = bs.len();
    let ghost cap = max_edges + 4int;
    let (a, e) = bs[s];
    let sh = vertex_hash(a.0, a.1, a.2);
    proof {
        lemma_visit_one(b, used@, s as int);
        vstd::set_lib::lemma_int_range(0, n as int);
        lemma_mark_one(used@, s as int);
    }
    used.set(s, true);
    let mut pts: Vec<Point> = Vec::new();
    pts.push(a);
    pts.push(e);
    let ghost t0 = trace(b, visited_pairs(b, used@), sh, e, pts@, cap, n as nat);
    proof {
        assert(pts@ =~= seq![b[s as int].0, b[s as int].1]);
    }
    let mut cur = e;
    let mut steps: usize = 0;
    let mut done = false;
    while !done
        invariant
            b == bs@,
            n == bs.len(),
            starts_exact(b, n as int, starts@),
            pairs_distinct(b),
            used.len() == n,
            cap == max_edges + 4int,
            marked(used@).finite(),
            marked(used@).len() >= steps + 1,
            steps < n,
            !done ==> t0 == trace(b, visited_pairs(b, used@), sh, cur, pts@, cap, (n - steps) as nat),
            done ==> t0 == (pts@, visited_pairs(b, used@)),
        decreases (if done { 0int } else { 1int }) + n - steps,
    {
        let ch = vertex_hash(cur.0, cur.1, cur.2);
        let ghost fuel = (n - steps) as nat;
        let ghost vis = visited_pairs(b, used@);
        match first_open_side(starts, used, ch, Ghost(b)) {
            None => {
                done = true;
            },
            Some(i) => {
                let ghost before = used@;
                proof {
                    lemma_visited_marked(b, before, i as int);
                    lemma_mark_one(before, i as int);
                    lemma_visit_one(b, before, i as int);
                    assert(fuel > 0);
                }
                used.set(i, true);
                let next = bs[i].1;
                let nh = vertex_hash(next.0, next.1, next.2);
                let ghost pts0 = pts@;
                if nh == sh {
                    done = true;
                } else {
                    pts.push(next);
                    cur = next;
                    if pts.len() > 4 && pts.len() - 4 > max_edges as usize {
                        done = true;
                    }
                }
                proof {
                    assert(used@ == before.update(i as int, true));
                    assert(visited_pairs(b, used@) == vis.insert(hash_pair(b[i as int])));
                }
                steps = steps + 1;
            },
        }
    }
    pts
}

/// The hole loops of a triangle soup that are to be filled: traced from its
/// boundary sides, each a list of at least three and at most `max_edges`
/// points.
pub fn hole_loops(positions: &Vec<u32>, max_edges: u32) -> (loops: Vec<Vec<Point>>)
    ensures
        loops@.map_values(|l: Vec<Point>| l@) == fillable_loops(positions@, max_edges as nat),
{
    let ghost p = positions@;
    let ghost cap = max_edges + 4int;
    let table = build_side_table(positions);
    let bs = collect_boundary_sides(positions, &table);
    let starts = build_starts(&bs);
    let n = bs.len();
    let mut used: Vec<bool> = Vec::new();
    for q in 0..n
        invariant
            used.len() == q,
            forall|j: int| 0 <= j < q ==> !used@[j],
    {
        used.push(false);
    }
    let mut loops: Vec<Vec<Point>> = Vec::new();
    proof {
        assert(visited_pairs(bs@, used@) =~= Set::<(u64, u64)>::empty());
        assert(pairs_distinct(bs@));
        assert(loops@.map_values(|l: Vec<Point>| l@) =~= Seq::<Seq<Point>>::empty());
    }
    for s in 0..n
        invariant
            n == bs.len(),
            bs@ == boundary_sides(p),
            starts_exact(bs@, n as int, starts@),
            pairs_distinct(bs@),
            used.len() == n,
            cap == max_edges + 4int,
            fillable_loops(p, max_edges as nat) == loops@.map_values(|l: Vec<Point>| l@)
                + hole_loops_from(bs@, visited_pairs(bs@, used@), cap, s as int).filter(
                small_loop(max_edges as nat),
            ),
    {
        let ghost vis = visited_pairs(bs@, used@);
        let ghost l0 = loops@.map_values(|l: Vec<Point>| l@);
        proof {
            lemma_visited_marked(bs@, used@, s as int);
        }
        if !used[s] {
            let pts = trace_hole(&bs, &starts, &mut used, s, max_edges);
            let ghost rest = hole_loops_from(bs@, visited_pairs(bs@, used@), cap, s + 1);
            proof {
                broadcast use Seq::filter_distributes_over_add;
                reveal(Seq::filter);
                if pts@.len() >= 3 {
                    assert(seq![pts@].drop_last() =~= Seq::<Seq<Point>>::empty());
                    assert((seq![pts@] + rest).filter(small_loop(max_edges as nat)) == seq![pts@].filter(
                        small_loop(max_edges as nat),
                    ) + rest.filter(small_loop(max_edges as nat)));
                }
            }
            if pts.len() >= 3 && pts.len() <= max_edges as usize {
                loops.push(pts);
                proof {
                    assert(loops@.map_values(|l: Vec<Point>| l@) =~= l0.push(pts@));
                    assert(seq![pts@].filter(small_loop(max_edges as nat)) =~= seq![pts@]);
                    assert(l0 + (seq![pts@] + rest.filter(small_loop(max_edges as nat))) =~= l0.push(
                        pts@,
                    ) + rest.filter(small_loop(max_edges as nat)));
                }
            } else if pts.len() >= 3 {
                proof {
                    reveal(Seq::filter);
                    assert(!small_loop(max_edges as nat)(pts@));
                    assert(seq![pts@].drop_last() =~= Seq::<Seq<Point>>::empty());
                    assert(seq![pts@].last() == pts@);
                    assert(Seq::<Seq<Point>>::empty().filter(small_loop(max_edges as nat)).len() == 0);
                    assert(seq![pts@].filter(small_loop(max_edges as nat)) =~= Seq::<Seq<Point>>::empty());
                    assert(Seq::<Seq<Point>>::empty() + rest.filter(small_loop(max_edges as nat))
                        =~= rest.filter(small_loop(max_edges as nat)));
                }
            }
        }
    }
    proof {
        assert(hole_loops_from(bs@, visited_pairs(bs@, used@), cap, n as int) =~= Seq::<Seq<Point>>::empty());
        reveal(Seq::filter);
        assert(Seq::<Seq<Point>>::empty().filter(small_loop(max_edges as nat)) =~= Seq::<Seq<Point>>::empty());
        assert(loops@.map_values(|l: Vec<Point>| l@) + Seq::<Seq<Point>>::empty() =~= loops@.map_values(
            |l: Vec<Point>| l@,
        ));
    }
    loops
}

/// The side paired with proper side `s` across its edge: its key is carried
/// by exactly two sides, and this is the first of them on another triangle.
pub open spec fn mate_of(p: Seq<u32>, s: int) -> Option<int> {
    let l = sides_with_key(p, side_count(p), side_key(p, s));
    if !side_ok(p, s) || l.len() != 2 {
        None
    } else if l[0] / 3 != s / 3 {
        Some(l[0] as int)
    } else if l[1] / 3 != s / 3 {
        Some(l[1] as int)
    } else {
        None
    }
}

/// Side `s`, reversed when `flip_s`, runs against side `m`: it starts where
/// `m` ends and ends where `m` starts.
pub open spec fn agrees(p: Seq<u32>, s: int, flip_s: bool, m: int) -> bool {
    let (a, b) = if flip_s {
        (side_end(p, s), side_start(p, s))
    } else {
        (side_start(p, s), side_end(p, s))
    };
    same_point(a, side_end(p, m)) && same_point(b, side_start(p, m))
}

/// A proper side is listed under its own key.
proof fn lemma_side_listed(p: Seq<u32>, m: int, s: int)
    requires
        0 <= s < m <= usize::MAX,
        side_ok(p, s),
    ensures
        sides_with_key(p, m, side_key(p, s)).contains(s as usize),
    decreases m,
{
    let k = side_key(p, s);
    if s == m - 1 {
        let l = sides_with_key(p, m, k);
        assert(l[l.len() - 1] == s as usize);
    } else {
        lemma_side_listed(p, m - 1, s);
        let r = sides_with_key(p, m - 1, k);
        let q = choose|q: int| 0 <= q < r.len() && r[q] == s as usize;
        assert(sides_with_key(p, m, k)[q] == s as usize);
    }
}

/// Pairing across edges is symmetric, and pairs sides of two different
/// triangles with the same key.
pub(crate) proof fn lemma_mate_symmetric(p: Seq<u32>, s: int)
    requires
        0 <= s < side_count(p),
        side_count(p) <= usize::MAX,
        mate_of(p, s) is Some,
    ensures
        0 <= mate_of(p, s)->0 < side_count(p),
        mate_of(p, s)->0 / 3 != s / 3,
        side_key(p, mate_of(p, s)->0) == side_key(p, s),
        side_ok(p, mate_of(p, s)->0),
        mate_of(p, mate_of(p, s)->0) == Some(s),
{
    let mm = side_count(p);
    let k = side_key(p, s);
    let l = sides_with_key(p, mm, k);
    lemma_sides_with_key_facts(p, mm, k);
    lemma_side_listed(p, mm, s);
    let m = mate_of(p, s)->0;
    assert(l[0] as int == s || l[1] as int == s);
    if l[0] as int == s {
        assert(l[0] / 3 == s / 3);
        assert(m == l[1] as int);
    } else {
        assert(m == l[0] as int);
    }
    let sk0 = l[0] as int;
    let sk1 = l[1] as int;
    assert(side_key(p, sk0) == k && side_key(p, sk1) == k);
}

/// Side `s` of the soup: where it starts and where it ends.
fn side_points(positions: &Vec<u32>, s: usize) -> (r: (Point, Point))
    requires
        s < side_count(positions@),
    ensures
        r == (side_start(positions@, s as int), side_end(positions@, s as int)),
{
    let t = s / 3;
    let e = s % 3;
    (corner_of(positions, t, e), corner_of(positions, t, (e + 1) % 3))
}

/// The side paired with side `s` across its edge, if any.
pub(crate) fn mate_side(positions: &Vec<u32>, table: &SideTable, s: usize) -> (r: Option<usize>)
    requires
        side_table_exact(positions@, side_count(positions@), table.keys@, table.sides@),
        s < side_count(positions@),
    ensures
        match r {
            Some(m) => mate_of(positions@, s as int) == Some(m as int),
            None => mate_of(positions@, s as int) is None,
        },
{
    let ghost p = positions@;
    let (a, b) = side_points(positions, s);
    if points_equal(a, b) {
        return None;
    }
    let k = edge_hash(a.0, a.1, a.2, b.0, b.1, b.2);
    assert(k == side_key(p, s as int));
    proof {
        assert(side_count(p) <= positions.len()) by (nonlinear_arith)
            requires
                side_count(p) == 3 * (positions.len() / 9) as int,
        ;
        lemma_side_listed(p, side_count(p), s as int);
        if !table.sides@.contains_key(k) {
            assert(sides_with_key(p, side_count(p), k).len() == 0);
        }
    }
    let list = sides_of(table, k, Ghost(p));
    if list.len() != 2 {
        return None;
    }
    let t = s / 3;
    if list[0] / 3 != t {
        Some(list[0])
    } else if list[1] / 3 != t {
        Some(list[1])
    } else {
        None
    }
}

/// Whether side `s`, reversed when `flip_s`, runs against side `m`.
pub(crate) fn sides_agree(positions: &Vec<u32>, s: usize, flip_s: bool, m: usize) -> (r: bool)
    requires
        s < side_count(positions@),
        m < side_count(positions@),
    ensures
        r == agrees(positions@, s as int, flip_s, m as int),
{
    let (a0, b0) = side_points(positions, s);
    let (a, b) = if flip_s {
        (b0, a0)
    } else {
        (a0, b0)
    };
    let (ma, mb) = side_points(positions, m);
    points_equal(a, mb) && points_equal(b, ma)
}

} // verus!
