//! Stride decimation of per-triangle data for cheaper scoring.
use vstd::prelude::*;

verus! {

/// The stride that keeps about `target` of `count` triangles.
pub open spec fn stride(count: int, target: int) -> int {
    count / target
}

/// How many triangles a stride of `step` keeps out of `count`.
pub open spec fn kept_count(count: int, step: int) -> int {
    (count + step - 1) / step
}

/// The data of every `step`-th triangle, `width` entries per triangle, for
/// the first `m` kept triangles.
pub open spec fn strided<T>(data: Seq<T>, width: int, step: int, m: int) -> Seq<T> {
    Seq::new((width * m) as nat, |k: int| data[width * ((k / width) * step) + k % width])
}

/// One more kept triangle appends its block.
proof fn lemma_strided_step<T>(d: Seq<T>, w: int, step: int, i: int)
    requires
        w >= 1,
        i >= 0,
        step >= 0,
        w * (i * step) + w <= d.len(),
    ensures
        strided(d, w, step, i + 1) == strided(d, w, step, i) + d.subrange(
            w * (i * step),
            w * (i * step) + w,
        ),
{
    let lhs = strided(d, w, step, i + 1);
    let rhs = strided(d, w, step, i) + d.subrange(w * (i * step), w * (i * step) + w);
    assert(w * (i + 1) == w * i + w) by (nonlinear_arith);
    assert(w * i >= 0 && w * (i * step) >= 0) by (nonlinear_arith)
        requires
            w >= 1,
            i >= 0,
            step >= 0,
    ;
    assert forall|k: int| 0 <= k < lhs.len() implies lhs[k] == rhs[k] by {
        if k >= w * i {
            let r = k - w * i;
            assert(k / w == i && k % w == r) by (nonlinear_arith)
                requires
                    r == k - w * i,
                    0 <= r < w,
                    w >= 1,
            ;
            assert(lhs[k] == d[w * (i * step) + r]);
            assert(rhs[k] == d.subrange(w * (i * step), w * (i * step) + w)[r]);
        } else {
            assert(k / w < i) by (nonlinear_arith)
                requires
                    0 <= k < w * i,
                    w >= 1,
            ;
        }
    }
    assert(lhs =~= rhs);
}

/// `step` is the largest positive whole number that fits `target` times in
/// `count`.
pub open spec fn fits_times(step: int, target: int, count: int) -> bool {
    step >= 1 && step * target <= count < (step + 1) * target
}

/// Entry `j` of block `i` of `data`, blocks being `width` entries long.
pub open spec fn block_entry<T>(data: Seq<T>, width: int, i: int, j: int) -> T {
    data[width * i + j]
}

/// The stride is the largest step that `target` times still fits in
/// `count`, and the kept triangles `0, step, 2 * step, ...` are exactly those
/// below `count`.
pub proof fn lemma_stride_spacing(count: int, target: int)
    requires
        0 < target < count,
    ensures
        stride(count, target) >= 1,
        stride(count, target) * target <= count < (stride(count, target) + 1) * target,
        (kept_count(count, stride(count, target)) - 1) * stride(count, target) < count <= kept_count(
            count,
            stride(count, target),
        ) * stride(count, target),
{
    let st = stride(count, target);
    assert(st * target <= count < (st + 1) * target && st >= 1) by (nonlinear_arith)
        requires
            st == count / target,
            0 < target < count,
    ;
    let m = kept_count(count, st);
    assert((m - 1) * st < count <= m * st) by (nonlinear_arith)
        requires
            m == (count + st - 1) / st,
            st >= 1,
            count >= 1,
    ;
}

/// Entry `j` of kept block `i` is entry `j` of block `i * step` of the data.
proof fn lemma_strided_entry<T>(data: Seq<T>, w: int, step: int, m: int, i: int, j: int)
    requires
        w >= 1,
        0 <= i < m,
        0 <= j < w,
    ensures
        strided(data, w, step, m).len() == w * m,
        block_entry(strided(data, w, step, m), w, i, j) == block_entry(data, w, i * step, j),
{
    assert(w * m >= 0 && 0 <= w * i + j < w * m) by (nonlinear_arith)
        requires
            w >= 1,
            0 <= i < m,
            0 <= j < w,
    ;
    assert((w * i + j) / w == i && (w * i + j) % w == j) by (nonlinear_arith)
        requires
            w >= 1,
            0 <= j < w,
    ;
}

/// Copies the entries `width * t .. width * (t + 1)` of `data` onto `out`.
fn push_block<T: Copy>(out: &mut Vec<T>, data: &Vec<T>, width: usize, t: usize)
    requires
        width * t + width <= data.len(),
    ensures
        final(out)@ == old(out)@ + data@.subrange((width * t) as int, (width * t + width) as int),
{
    let base = width * t;
    let ghost start = old(out)@;
    for q in 0..width
        invariant
            base == width * t,
            base + width <= data.len(),
            out@ == start + data@.subrange(base as int, (base + q) as int),
    {
        out.push(data[base + q]);
        proof {
            assert(out@ =~= start + data@.subrange(base as int, (base + q + 1) as int));
        }
    }
}

/// Keeps every `step`-th triangle's data, `step` being the triangle count
/// over `target`, when there are more than `target` triangles; otherwise
/// keeps all. The triangle count is that of `normals` (three entries per
/// triangle); `positions` has nine entries per triangle and `areas` one.
pub fn decimate_for_score<T: Copy>(
    positions: &Vec<T>,
    normals: &Vec<T>,
    areas: &Vec<T>,
    target: usize,
) -> (r: (Vec<T>, Vec<T>, Vec<T>))
    requires
        target > 0 || normals.len() < 3,
        positions.len() >= 9 * (normals.len() / 3),
        areas.len() >= normals.len() / 3,
    ensures
        normals.len() / 3 <= target ==> r.0@ == positions@ && r.1@ == normals@ && r.2@ == areas@,
        normals.len() / 3 > target ==> {
            let count = (normals.len() / 3) as int;
            let step = stride(count, target as int);
            let m = kept_count(count, step);
            &&& r.0@ == strided(positions@, 9, step, m)
            &&& r.1@ == strided(normals@, 3, step, m)
            &&& r.2@ == strided(areas@, 1, step, m)
        },
        normals.len() / 3 > target ==> r.0@.len() == 9 * r.2@.len() && r.1@.len() == 3 * r.2@.len()
            && exists|step: int|
            #[trigger] fits_times(step, target as int, (normals.len() / 3) as int) && (r.2@.len() - 1)
                * step < normals.len() / 3 <= r.2@.len() * step && (forall|i: int, j: int|
                0 <= i < r.2@.len() && 0 <= j < 9 ==> #[trigger] block_entry(r.0@, 9, i, j)
                    == block_entry(positions@, 9, i * step, j)) && (forall|i: int, j: int|
                0 <= i < r.2@.len() && 0 <= j < 3 ==> #[trigger] block_entry(r.1@, 3, i, j)
                    == block_entry(normals@, 3, i * step, j)) && forall|i: int|
                0 <= i < r.2@.len() ==> #[trigger] r.2@[i] == areas@[i * step],
{
    let tri_count = normals.len() / 3;
    if tri_count <= target {
        let mut p: Vec<T> = Vec::new();
        let mut n: Vec<T> = Vec::new();
        let mut a: Vec<T> = Vec::new();
        for i in 0..positions.len()
            invariant
                p@ == positions@.take(i as int),
        {
            p.push(positions[i]);
            proof {
                assert(p@ =~= positions@.take(i + 1));
            }
        }
        for i in 0..normals.len()
            invariant
                n@ == normals@.take(i as int),
        {
            n.push(normals[i]);
            proof {
                assert(n@ =~= normals@.take(i + 1));
            }
        }
        for i in 0..areas.len()
            invariant
                a@ == areas@.take(i as int),
        {
            a.push(areas[i]);
            proof {
                assert(a@ =~= areas@.take(i + 1));
            }
        }
        proof {
            assert(p@ =~= positions@);
            assert(n@ =~= normals@);
            assert(a@ =~= areas@);
        }
        return (p, n, a);
    }
    let step = tri_count / target;
    assert(step >= 1) by (nonlinear_arith)
        requires
            step == tri_count / target,
            tri_count > target,
            target > 0,
    ;
    let new_count = (tri_count - 1) / step + 1;
    assert(new_count == kept_count(tri_count as int, step as int)) by (nonlinear_arith)
        requires
            new_count == (tri_count - 1) / (step as int) + 1,
            step >= 1,
            tri_count >= 1,
    ;
    let mut new_pos: Vec<T> = Vec::new();
    let mut new_norm: Vec<T> = Vec::new();
    let mut new_area: Vec<T> = Vec::new();
    for i in 0..new_count
        invariant
            tri_count == normals.len() / 3,
            step >= 1,
            new_count == (tri_count - 1) / (step as int) + 1,
            tri_count >= 1,
            positions.len() >= 9 * tri_count,
            areas.len() >= tri_count,
            new_pos@ == strided(positions@, 9, step as int, i as int),
            new_norm@ == strided(normals@, 3, step as int, i as int),
            new_area@ == strided(areas@, 1, step as int, i as int),
    {
        assert(i * step < tri_count) by (nonlinear_arith)
            requires
                i < new_count,
                new_count == (tri_count - 1) / (step as int) + 1,
                step >= 1,
                tri_count >= 1,
        ;
        let src = i * step;
        assert(normals.len() >= 3 * tri_count) by (nonlinear_arith)
            requires
                tri_count == normals.len() / 3,
        ;
        push_block(&mut new_norm, normals, 3, src);
        push_block(&mut new_area, areas, 1, src);
        push_block(&mut new_pos, positions, 9, src);
        proof {
            lemma_strided_step(positions@, 9, step as int, i as int);
            lemma_strided_step(normals@, 3, step as int, i as int);
            lemma_strided_step(areas@, 1, step as int, i as int);
        }
    }
    proof {
        let count = tri_count as int;
        let st = step as int;
        let m = new_count as int;
        lemma_stride_spacing(count, target as int);
        assert forall|i: int, j: int| 0 <= i < m && 0 <= j < 9 implies #[trigger] block_entry(new_pos@, 9, i, j)
            == block_entry(positions@, 9, i * st, j) by {
            lemma_strided_entry(positions@, 9, st, m, i, j);
        }
        assert forall|i: int, j: int| 0 <= i < m && 0 <= j < 3 implies #[trigger] block_entry(new_norm@, 3, i, j)
            == block_entry(normals@, 3, i * st, j) by {
            lemma_strided_entry(normals@, 3, st, m, i, j);
        }
        assert forall|i: int| 0 <= i < m implies #[trigger] new_area@[i] == areas@[i * st] by {
            lemma_strided_entry(areas@, 1, st, m, i, 0);
        }
        lemma_strided_entry(areas@, 1, st, m, 0, 0);
        lemma_strided_entry(normals@, 3, st, m, 0, 0);
        lemma_strided_entry(positions@, 9, st, m, 0, 0);
        assert(fits_times(st, target as int, count));
    }
    (new_pos, new_norm, new_area)
}

/// `picked`, followed by each of `cands` in turn that is not yet picked, as
/// long as fewer than `cap` are picked.
pub open spec fn pick_new(picked: Seq<usize>, cands: Seq<usize>, cap: nat) -> Seq<usize>
    decreases cands.len(),
{
    if cands.len() == 0 {
        picked
    } else {
        let p = pick_new(picked, cands.drop_last(), cap);
        let c = cands.last();
        if p.len() >= cap || p.contains(c) {
            p
        } else {
            p.push(c)
        }
    }
}

/// The indices `0, 1, ..., n - 1`.
pub open spec fn index_range(n: nat) -> Seq<usize> {
    Seq::new(n, |i: int| i as usize)
}

/// No index occurs twice, and each is below `n`.
pub open spec fn distinct_below(s: Seq<usize>, n: nat) -> bool {
    &&& forall|i: int| 0 <= i < s.len() ==> (#[trigger] s[i]) < n
    &&& forall|i: int, j: int| 0 <= i < j < s.len() ==> #[trigger] s[i] != #[trigger] s[j]
}

proof fn lemma_pick_new_facts(picked: Seq<usize>, cands: Seq<usize>, cap: nat, n: nat)
    requires
        distinct_below(picked, n),
        forall|i: int| 0 <= i < cands.len() ==> (#[trigger] cands[i]) < n,
    ensures
        distinct_below(pick_new(picked, cands, cap), n),
        picked.len() <= cap ==> pick_new(picked, cands, cap).len() <= cap,
        pick_new(picked, cands, cap).len() >= picked.len(),
        pick_new(picked, cands, cap).subrange(0, picked.len() as int) == picked,
        pick_new(picked, cands, cap).len() < cap ==> forall|i: int|
            0 <= i < cands.len() ==> pick_new(picked, cands, cap).contains(#[trigger] cands[i]),
    decreases cands.len(),
{
    if cands.len() == 0 {
        assert(picked.subrange(0, picked.len() as int) =~= picked);
    } else {
        let rest = cands.drop_last();
        assert forall|i: int| 0 <= i < rest.len() implies (#[trigger] rest[i]) < n by {
            assert(rest[i] == cands[i]);
        }
        lemma_pick_new_facts(picked, rest, cap, n);
        let p = pick_new(picked, rest, cap);
        let c = cands.last();
        let q = pick_new(picked, cands, cap);
        assert(c == cands[cands.len() - 1]);
        if !(p.len() >= cap || p.contains(c)) {
            assert(q == p.push(c));
            assert forall|i: int, j: int| 0 <= i < j < q.len() implies #[trigger] q[i] != #[trigger] q[j] by {
                if j == p.len() {
                    assert(q[i] == p[i]);
                    assert(p.contains(p[i]));
                } else {
                    assert(q[i] == p[i] && q[j] == p[j]);
                }
            }
            assert(q.subrange(0, picked.len() as int) =~= p.subrange(0, picked.len() as int));
            assert forall|i: int| 0 <= i < cands.len() implies q.contains(#[trigger] cands[i]) by {
                if i < rest.len() {
                    assert(rest[i] == cands[i]);
                    assert(p.contains(rest[i]));
                    let k = choose|k: int| 0 <= k < p.len() && p[k] == rest[i];
                    assert(q[k] == p[k]);
                } else {
                    assert(q[p.len() as int] == c);
                }
            }
        } else {
            assert forall|i: int| 0 <= i < cands.len() && q.len() < cap implies q.contains(
                #[trigger] cands[i],
            ) by {
                if i < rest.len() {
                    assert(rest[i] == cands[i]);
                }
            }
        }
    }
}

proof fn lemma_pick_new_from(picked: Seq<usize>, cands: Seq<usize>, cap: nat)
    ensures
        forall|i: int|
            0 <= i < pick_new(picked, cands, cap).len() ==> picked.contains(
                #[trigger] pick_new(picked, cands, cap)[i],
            ) || cands.contains(pick_new(picked, cands, cap)[i]),
    decreases cands.len(),
{
    if cands.len() > 0 {
        let rest = cands.drop_last();
        lemma_pick_new_from(picked, rest, cap);
        let p = pick_new(picked, rest, cap);
        let q = pick_new(picked, cands, cap);
        assert forall|i: int| 0 <= i < q.len() implies picked.contains(#[trigger] q[i]) || cands.contains(q[i]) by {
            if i < p.len() {
                assert(q[i] == p[i]);
                if !picked.contains(p[i]) {
                    let k = choose|k: int| 0 <= k < rest.len() && rest[k] == p[i];
                    assert(cands[k] == rest[k]);
                }
            } else {
                assert(q[i] == cands[cands.len() - 1]);
            }
        }
    }
}

proof fn lemma_full_range_count(s: Seq<usize>, n: nat)
    requires
        n <= usize::MAX as nat + 1,
        distinct_below(s, n),
        forall|i: int| 0 <= i < n ==> s.contains(#[trigger] index_range(n)[i]),
    ensures
        s.len() >= n,
{
    let ints = s.map_values(|x: usize| x as int);
    assert(ints.no_duplicates()) by {
        assert forall|i: int, j: int| 0 <= i < ints.len() && 0 <= j < ints.len() && i != j implies ints[i]
            != ints[j] by {
            if i < j {
                assert(s[i] != s[j]);
            } else {
                assert(s[j] != s[i]);
            }
        }
    }
    ints.unique_seq_to_set();
    vstd::set_lib::lemma_int_range(0, n as int);
    let range = vstd::set_lib::set_int_range(0, n as int);
    assert(range.subset_of(ints.to_set())) by {
        assert forall|x: int| range.contains(x) implies ints.to_set().contains(x) by {
            assert((x as usize) as int == x);
            assert(index_range(n)[x] == x as usize);
            assert(s.contains(index_range(n)[x]));
            let k = choose|k: int| 0 <= k < s.len() && s[k] == index_range(n)[x];
            assert(ints[k] == x);
        }
    }
    vstd::seq_lib::seq_to_set_is_finite(ints);
    vstd::set_lib::lemma_len_subset(range, ints.to_set());
}

/// The hull sample of a mesh of `n > target` vertices: the distinct extreme
/// vertices `first`, then the stride picks, then the lowest-numbered vertices
/// not yet taken, up to `target` vertices in all.
pub open spec fn hull_sample(n: nat, first: Seq<usize>, stride: Seq<usize>, target: nat) -> Seq<usize> {
    pick_new(pick_new(first, stride, target), index_range(n), target)
}

/// The extreme vertices with repeats dropped, in order of first occurrence.
pub fn distinct_extremes(extremes: &Vec<usize>) -> (first: Vec<usize>)
    ensures
        first@ == pick_new(Seq::empty(), extremes@, extremes.len() as nat),
        forall|i: int, j: int| 0 <= i < j < first.len() ==> #[trigger] first@[i] != #[trigger] first@[j],
        forall|i: int| 0 <= i < first.len() ==> extremes@.contains(#[trigger] first@[i]),
{
    proof {
        lemma_pick_new_facts(Seq::empty(), extremes@, extremes.len() as nat, usize::MAX as nat + 1);
        lemma_pick_new_from(Seq::empty(), extremes@, extremes.len() as nat);
    }
    let m = extremes.len();
    let mut first: Vec<usize> = Vec::new();
    let mut k: usize = 0;
    while k < m
        invariant
            m == extremes.len(),
            0 <= k <= m,
            first@ == pick_new(Seq::empty(), extremes@.take(k as int), m as nat),
            first.len() <= k,
        decreases m - k,
    {
        let c = extremes[k];
        assert(extremes@.take(k as int + 1).drop_last() =~= extremes@.take(k as int));
        let mut found = false;
        let mut j: usize = 0;
        while j < first.len()
            invariant
                0 <= j <= first.len(),
                found == exists|q: int| 0 <= q < j && first@[q] == c,
            decreases first.len() - j,
        {
            if first[j] == c {
                found = true;
            }
            j += 1;
        }
        if !found {
            first.push(c);
        }
        k += 1;
    }
    assert(extremes@.take(m as int) =~= extremes@);
    first
}

fn take_unseen(picked: &mut Vec<usize>, seen: &mut Vec<bool>, cands: &Vec<usize>, cap: usize, Ghost(n): Ghost<nat>)
    requires
        old(seen).len() == n,
        forall|i: int| 0 <= i < cands.len() ==> (#[trigger] cands@[i]) < n,
        forall|i: int| 0 <= i < n ==> (old(seen)@[i] <==> old(picked)@.contains(i as usize)),
        distinct_below(old(picked)@, n),
    ensures
        final(picked)@ == pick_new(old(picked)@, cands@, cap as nat),
        final(seen).len() == n,
        forall|i: int| 0 <= i < n ==> (final(seen)@[i] <==> final(picked)@.contains(i as usize)),
        distinct_below(final(picked)@, n),
{
    let m = cands.len();
    let ghost start = picked@;
    let mut k: usize = 0;
    while k < m
        invariant
            m == cands.len(),
            0 <= k <= m,
            seen.len() == n,
            forall|i: int| 0 <= i < cands.len() ==> (#[trigger] cands@[i]) < n,
            picked@ == pick_new(start, cands@.take(k as int), cap as nat),
            forall|i: int| 0 <= i < n ==> (seen@[i] <==> picked@.contains(i as usize)),
            distinct_below(start, n),
            distinct_below(picked@, n),
        decreases m - k,
    {
        let c = cands[k];
        proof {
            assert(cands@.take(k as int + 1).drop_last() =~= cands@.take(k as int));
            assert(cands@.take(k as int + 1).last() == c);
            assert forall|i: int| 0 <= i < cands@.take(k as int + 1).len() implies (
            #[trigger] cands@.take(k as int + 1)[i]) < n by {
                assert(cands@.take(k as int + 1)[i] == cands@[i]);
            }
            lemma_pick_new_facts(start, cands@.take(k as int + 1), cap as nat, n);
            assert((c as int) < n);
            assert(((c as int) as usize) == c);
        }
        if picked.len() < cap && !seen[c] {
            let ghost pb = picked@;
            let ghost sb = seen@;
            picked.push(c);
            seen.set(c, true);
            proof {
                assert forall|i: int| 0 <= i < n implies (seen@[i] <==> picked@.contains(i as usize)) by {
                    if i == c as int {
                        assert(picked@[picked@.len() - 1] == c);
                    } else {
                        assert(seen@[i] == sb[i]);
                        if picked@.contains(i as usize) {
                            let q = choose|q: int| 0 <= q < picked@.len() && picked@[q] == i as usize;
                            assert(q < pb.len());
                            assert(pb[q] == i as usize);
                        }
                        if pb.contains(i as usize) {
                            let q = choose|q: int| 0 <= q < pb.len() && pb[q] == i as usize;
                            assert(picked@[q] == i as usize);
                        }
                    }
                }
            }
        }
        k += 1;
    }
    assert(cands@.take(m as int) =~= cands@);
}

/// Completes a hull sample over `n` vertices: after the distinct extremes
/// `first`, the stride picks `stride` not yet taken, then the lowest-numbered
/// vertices not yet taken, until `target` vertices are picked.
pub fn complete_hull_sample(n: usize, first: &Vec<usize>, stride: &Vec<usize>, target: usize) -> (sample: Vec<usize>)
    requires
        distinct_below(first@, n as nat),
        forall|i: int| 0 <= i < stride.len() ==> (#[trigger] stride@[i]) < n,
    ensures
        sample@ == hull_sample(n as nat, first@, stride@, target as nat),
{
    let mut seen: Vec<bool> = Vec::new();
    let mut i: usize = 0;
    while i < n
        invariant
            0 <= i <= n,
            seen.len() == i,
            forall|q: int| 0 <= q < i ==> !seen@[q],
        decreases n - i,
    {
        seen.push(false);
        i += 1;
    }
    let mut picked: Vec<usize> = Vec::new();
    let mut k: usize = 0;
    while k < first.len()
        invariant
            0 <= k <= first.len(),
            distinct_below(first@, n as nat),
            seen.len() == n,
            picked@ == first@.take(k as int),
            forall|q: int| 0 <= q < n ==> (seen@[q] <==> picked@.contains(q as usize)),
        decreases first.len() - k,
    {
        let c = first[k];
        assert(first@.take(k as int + 1) =~= picked@.push(c));
        proof {
            assert((c as int) < n);
            if picked@.contains(c) {
                let q = choose|q: int| 0 <= q < picked@.len() && picked@[q] == c;
                assert(first@[q] == first@[k as int]);
            }
        }
        picked.push(c);
        seen.set(c, true);
        proof {
            assert forall|q: int| 0 <= q < n implies (seen@[q] <==> picked@.contains(q as usize)) by {
                if q == c as int {
                    assert(picked@[k as int] == c);
                } else if picked@.contains(q as usize) {
                    let r = choose|r: int| 0 <= r < picked@.len() && picked@[r] == q as usize;
                    assert(r < k);
                    assert(picked@.take(k as int)[r] == q as usize);
                }
            }
        }
        k += 1;
    }
    assert(first@.take(first.len() as int) =~= first@);
    take_unseen(&mut picked, &mut seen, stride, target, Ghost(n as nat));
    let mut all: Vec<usize> = Vec::new();
    let mut i: usize = 0;
    while i < n
        invariant
            0 <= i <= n,
            all@ =~= index_range(i as nat),
        decreases n - i,
    {
        all.push(i);
        i += 1;
    }
    assert(all@ =~= index_range(n as nat));
    take_unseen(&mut picked, &mut seen, &all, target, Ghost(n as nat));
    picked
}

/// A hull sample of a mesh with at least `target` vertices holds exactly
/// `target` distinct vertices, as long as the extremes do not exceed it.
pub proof fn lemma_hull_sample_size(n: nat, first: Seq<usize>, stride: Seq<usize>, target: nat)
    requires
        distinct_below(first, n),
        forall|i: int| 0 <= i < stride.len() ==> (#[trigger] stride[i]) < n,
        first.len() <= target,
        target <= n,
        n <= usize::MAX as nat + 1,
    ensures
        hull_sample(n, first, stride, target).len() == target,
        distinct_below(hull_sample(n, first, stride, target), n),
        hull_sample(n, first, stride, target).subrange(0, first.len() as int) == first,
{
    lemma_pick_new_facts(first, stride, target, n);
    let p = pick_new(first, stride, target);
    assert forall|i: int| 0 <= i < index_range(n).len() implies (#[trigger] index_range(n)[i]) < n by {}
    lemma_pick_new_facts(p, index_range(n), target, n);
    let s = hull_sample(n, first, stride, target);
    if s.len() < target {
        lemma_full_range_count(s, n);
    }
    assert(s.subrange(0, first.len() as int) =~= s.subrange(0, p.len() as int).subrange(
        0,
        first.len() as int,
    ));
}

} // verus!
