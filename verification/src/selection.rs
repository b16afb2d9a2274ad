//! Greedy selection of a diverse subset of ranked candidates.
use vstd::prelude::*;

verus! {

/// Candidate `idx` is too close to one of those already picked.
pub open spec fn near_picked(close: Seq<Vec<bool>>, picked: Seq<usize>, idx: usize) -> bool {
    exists|k: int| 0 <= k < picked.len() && #[trigger] close[idx as int]@[picked[k] as int]
}

/// The candidates picked from the first `m` of `order`: a candidate is
/// picked when fewer than `max` are picked so far, it is stable or unstable
/// ones are allowed, and it is not too close to any already picked.
pub open spec fn diverse_pick(
    order: Seq<usize>,
    stable: Seq<bool>,
    exclude_unstable: bool,
    max: nat,
    close: Seq<Vec<bool>>,
    m: int,
) -> Seq<usize>
    decreases m,
{
    if m <= 0 {
        Seq::empty()
    } else {
        let prev = diverse_pick(order, stable, exclude_unstable, max, close, m - 1);
        let idx = order[m - 1];
        if prev.len() >= max || (exclude_unstable && !stable[idx as int]) || near_picked(
            close,
            prev,
            idx,
        ) {
            prev
        } else {
            prev.push(idx)
        }
    }
}

/// Picks, in the ranked `order`, up to `max_candidates` candidates, leaving
/// out unstable ones when `exclude_unstable` holds and any candidate that
/// `too_close` marks as too close to one already picked.
pub fn merge_candidates(
    order: &Vec<usize>,
    stable: &Vec<bool>,
    exclude_unstable: bool,
    max_candidates: usize,
    too_close: &Vec<Vec<bool>>,
) -> (picked: Vec<usize>)
    requires
        stable.len() == too_close.len(),
        forall|i: int| 0 <= i < too_close.len() ==> (#[trigger] too_close@[i]).len() == too_close.len(),
        forall|i: int| 0 <= i < order.len() ==> (#[trigger] order@[i]) < too_close.len(),
    ensures
        picked@ == diverse_pick(
            order@,
            stable@,
            exclude_unstable,
            max_candidates as nat,
            too_close@,
            order.len() as int,
        ),
{
    let n = order.len();
    let mut picked: Vec<usize> = Vec::new();
    for i in 0..n
        invariant
            n == order.len(),
            stable.len() == too_close.len(),
            forall|j: int| 0 <= j < too_close.len() ==> (#[trigger] too_close@[j]).len() == too_close.len(),
            forall|j: int| 0 <= j < order.len() ==> (#[trigger] order@[j]) < too_close.len(),
            picked@ == diverse_pick(
                order@,
                stable@,
                exclude_unstable,
                max_candidates as nat,
                too_close@,
                i as int,
            ),
            forall|k: int| 0 <= k < picked.len() ==> (#[trigger] picked@[k]) < too_close.len(),
    {
        let idx = order[i];
        if picked.len() < max_candidates && !(exclude_unstable && !stable[idx]) {
            let row = &too_close[idx];
            let mut near = false;
            let count = picked.len();
            for k in 0..count
                invariant
                    count == picked.len(),
                    row@ == too_close@[idx as int]@,
                    row.len() == too_close.len(),
                    forall|k2: int| 0 <= k2 < picked.len() ==> (#[trigger] picked@[k2]) < too_close.len(),
                    near == exists|k2: int| 0 <= k2 < k && #[trigger] row@[picked@[k2] as int],
            {
                if row[picked[k]] {
                    near = true;
                }
            }
            proof {
                assert(near == near_picked(too_close@, picked@, idx));
            }
            if !near {
                picked.push(idx);
            }
        }
    }
    picked
}

/// The picked candidates are at most `max`, stable when unstable ones are
/// left out, and none is too close to one picked before it; each comes from
/// `order`; and a candidate of `order` is passed over only when `max` are
/// picked, when it is unstable and unstable ones are left out, or when it is
/// too close to one that is picked.
pub proof fn lemma_diverse_pick_facts(
    order: Seq<usize>,
    stable: Seq<bool>,
    exclude_unstable: bool,
    max: nat,
    close: Seq<Vec<bool>>,
    m: int,
)
    ensures
        diverse_pick(order, stable, exclude_unstable, max, close, m).len() <= max,
        forall|k: int|
            0 <= k < diverse_pick(order, stable, exclude_unstable, max, close, m).len()
                && exclude_unstable ==> stable[(#[trigger] diverse_pick(
                order,
                stable,
                exclude_unstable,
                max,
                close,
                m,
            )[k]) as int],
        forall|i: int, j: int|
            0 <= i < j < diverse_pick(order, stable, exclude_unstable, max, close, m).len() ==> !close[(
            #[trigger] diverse_pick(order, stable, exclude_unstable, max, close, m)[j]) as int]@[(
            #[trigger] diverse_pick(order, stable, exclude_unstable, max, close, m)[i]) as int],
        forall|q: int|
            #![trigger diverse_pick(order, stable, exclude_unstable, max, close, m)[q]]
            0 <= q < diverse_pick(order, stable, exclude_unstable, max, close, m).len() ==> exists|k: int|
                0 <= k < m && #[trigger] order[k] == diverse_pick(
                    order,
                    stable,
                    exclude_unstable,
                    max,
                    close,
                    m,
                )[q],
        forall|k: int|
            0 <= k < m && !diverse_pick(order, stable, exclude_unstable, max, close, m).contains(
                #[trigger] order[k],
            ) ==> diverse_pick(order, stable, exclude_unstable, max, close, m).len() >= max || (
            exclude_unstable && !stable[order[k] as int]) || exists|q: int|
                0 <= q < diverse_pick(order, stable, exclude_unstable, max, close, m).len()
                    && close[order[k] as int]@[#[trigger] diverse_pick(
                    order,
                    stable,
                    exclude_unstable,
                    max,
                    close,
                    m,
                )[q] as int],
    decreases m,
{
    if m > 0 {
        lemma_diverse_pick_facts(order, stable, exclude_unstable, max, close, m - 1);
        let prev = diverse_pick(order, stable, exclude_unstable, max, close, m - 1);
        let cur = diverse_pick(order, stable, exclude_unstable, max, close, m);
        let idx = order[m - 1];
        assert forall|q: int|
            #![trigger cur[q]]
            0 <= q < cur.len() implies exists|k: int| 0 <= k < m && #[trigger] order[k] == cur[q] by {
            if q < prev.len() {
                assert(cur[q] == prev[q]);
                let k = choose|k: int| 0 <= k < m - 1 && #[trigger] order[k] == prev[q];
                assert(order[k] == cur[q]);
            } else {
                assert(order[m - 1] == cur[q]);
            }
        }
        assert forall|k: int|
            0 <= k < m && !cur.contains(#[trigger] order[k]) implies cur.len() >= max || (exclude_unstable
            && !stable[order[k] as int]) || exists|q: int|
            0 <= q < cur.len() && close[order[k] as int]@[#[trigger] cur[q] as int] by {
            if k < m - 1 {
                if prev.contains(order[k]) {
                    let q = choose|q: int| 0 <= q < prev.len() && prev[q] == order[k];
                    assert(cur[q] == prev[q]);
                }
                if exists|q: int| 0 <= q < prev.len() && close[order[k] as int]@[#[trigger] prev[q] as int] {
                    let q = choose|q: int| 0 <= q < prev.len() && close[order[k] as int]@[#[trigger] prev[q] as int];
                    assert(cur[q] == prev[q]);
                }
            } else {
                if cur == prev {
                    if near_picked(close, prev, idx) {
                        let q = choose|q: int| 0 <= q < prev.len() && #[trigger] close[idx as int]@[prev[q] as int];
                        assert(close[order[k] as int]@[cur[q] as int]);
                    }
                } else {
                    assert(cur == prev.push(idx));
                    assert(cur[cur.len() - 1] == order[k]);
                }
            }
        }
        if cur != prev {
            assert(cur == prev.push(idx));
            assert forall|i: int, j: int| 0 <= i < j < cur.len() implies !close[(#[trigger] cur[j]) as int]@[(
            #[trigger] cur[i]) as int] by {
                if j == cur.len() - 1 {
                    if close[idx as int]@[prev[i] as int] {
                        assert(near_picked(close, prev, idx));
                    }
                } else {
                    assert(cur[i] == prev[i] && cur[j] == prev[j]);
                }
            }
            assert forall|k: int| 0 <= k < cur.len() && exclude_unstable implies stable[(
            #[trigger] cur[k]) as int] by {
                if k < prev.len() {
                    assert(cur[k] == prev[k]);
                }
            }
        }
    }
}

} // verus!
