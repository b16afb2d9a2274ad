//! Integer parts of contact-point placement on an overhang island.
use vstd::prelude::*;
use std::collections::HashMap;
use crate::island::{
    Cell, neighbor, cell_steppable, cell_key, build_index, lookup, neighbor_of, newly_floating, rests_on,
};
use crate::rng::xorshift_step;

verus! {

/// Whether the neighbour of `c` in direction `k` is one of `set`.
pub open spec fn has_neighbor_in(set: Seq<Cell>, c: Cell, k: int) -> bool {
    neighbor(c, k) is Some && set.contains(neighbor(c, k)->0)
}

/// How many of the four neighbours of `c` are in `set`.
pub open spec fn neighbor_count(set: Seq<Cell>, c: Cell) -> int {
    (if has_neighbor_in(set, c, 0) { 1int } else { 0int }) + (if has_neighbor_in(set, c, 1) {
        1int
    } else {
        0int
    }) + (if has_neighbor_in(set, c, 2) { 1int } else { 0int }) + (if has_neighbor_in(set, c, 3) {
        1int
    } else {
        0int
    })
}

/// The pixels of `pixels` that have fewer than four neighbours among `pixels`, in order.
pub open spec fn edge_pixels_of(pixels: Seq<Cell>) -> Seq<Cell> {
    pixels.filter(is_edge_in(pixels))
}

/// The test that a pixel has fewer than four neighbours in `pixels`.
pub open spec fn is_edge_in(pixels: Seq<Cell>) -> spec_fn(Cell) -> bool {
    |c: Cell| neighbor_count(pixels, c) < 4
}

/// The edge pixels are exactly the pixels with a neighbour missing: each of
/// them is a pixel of the island, one of whose four neighbours is not, and
/// every pixel of the island one of whose neighbours is not in it is among
/// them.
pub proof fn lemma_edge_pixels_missing_neighbor(pixels: Seq<Cell>)
    ensures
        forall|q: int|
            0 <= q < edge_pixels_of(pixels).len() ==> pixels.contains(#[trigger] edge_pixels_of(pixels)[q])
                && exists|k: int|
                0 <= k < 4 && !(neighbor(edge_pixels_of(pixels)[q], k) is Some && pixels.contains(
                    neighbor(edge_pixels_of(pixels)[q], k)->0,
                )),
        forall|i: int|
            0 <= i < pixels.len() && (exists|k: int|
                0 <= k < 4 && !(neighbor(pixels[i], k) is Some && pixels.contains(
                    neighbor(pixels[i], k)->0,
                ))) ==> edge_pixels_of(pixels).contains(#[trigger] pixels[i]),
{
    broadcast use vstd::seq_lib::group_filter_ensures;

    let ep = edge_pixels_of(pixels);
    let pred = is_edge_in(pixels);
    assert forall|q: int| 0 <= q < ep.len() implies pixels.contains(#[trigger] ep[q]) && exists|k: int|
        0 <= k < 4 && !(neighbor(ep[q], k) is Some && pixels.contains(neighbor(ep[q], k)->0)) by {
        pixels.lemma_filter_pred(pred, q);
        assert(ep.contains(ep[q]));
        pixels.lemma_filter_contains_rev(pred, ep[q]);
        let c = ep[q];
        assert(neighbor_count(pixels, c) < 4);
        if has_neighbor_in(pixels, c, 0) && has_neighbor_in(pixels, c, 1) && has_neighbor_in(pixels, c, 2) {
            assert(!has_neighbor_in(pixels, c, 3));
        }
    }
    assert forall|i: int|
        0 <= i < pixels.len() && (exists|k: int|
            0 <= k < 4 && !(neighbor(pixels[i], k) is Some && pixels.contains(neighbor(pixels[i], k)->0)))
        implies ep.contains(#[trigger] pixels[i]) by {
        let c = pixels[i];
        let k = choose|k: int| 0 <= k < 4 && !(neighbor(c, k) is Some && pixels.contains(neighbor(c, k)->0));
        assert(!has_neighbor_in(pixels, c, k));
        assert(neighbor_count(pixels, c) < 4);
        assert(pred(c));
        pixels.lemma_filter_contains(pred, i);
    }
}

/// After adding a layer's island pixels, a cell is gathered exactly when it
/// was gathered before, or it is a cell of the layer that is not filled in
/// the layer above and none of whose four neighbours is.
pub proof fn lemma_island_pixels_gathered(acc: Seq<Cell>, layer: Seq<Cell>, above: Seq<Cell>, c: Cell)
    ensures
        (acc + layer.filter(newly_floating(above, acc))).contains(c) <==> acc.contains(c) || (
        layer.contains(c) && !above.contains(c) && forall|k: int|
            0 <= k < 4 ==> !(#[trigger] neighbor(c, k) is Some && above.contains(neighbor(c, k)->0))),
{
    broadcast use vstd::seq_lib::group_filter_ensures;

    let pred = newly_floating(above, acc);
    let f = layer.filter(pred);
    let r = acc + f;
    let floats = layer.contains(c) && !above.contains(c) && forall|k: int|
        0 <= k < 4 ==> !(#[trigger] neighbor(c, k) is Some && above.contains(neighbor(c, k)->0));
    if r.contains(c) {
        let q = choose|q: int| 0 <= q < r.len() && r[q] == c;
        if q >= acc.len() {
            assert(f[q - acc.len()] == c);
            layer.lemma_filter_pred(pred, q - acc.len());
            assert(f.contains(c));
            layer.lemma_filter_contains_rev(pred, c);
            assert(!rests_on(above, c));
            assert forall|k: int| 0 <= k < 4 implies !(#[trigger] neighbor(c, k) is Some && above.contains(
                neighbor(c, k)->0,
            )) by {
                assert(!has_neighbor_in(above, c, k));
            }
        } else {
            assert(acc[q] == c);
        }
    }
    if acc.contains(c) {
        let q = choose|q: int| 0 <= q < acc.len() && acc[q] == c;
        assert(r[q] == c);
    } else if floats {
        let i = choose|i: int| 0 <= i < layer.len() && layer[i] == c;
        assert(!has_neighbor_in(above, c, 0) && !has_neighbor_in(above, c, 1) && !has_neighbor_in(above, c, 2)
            && !has_neighbor_in(above, c, 3)) by {
            assert(!(neighbor(c, 0) is Some && above.contains(neighbor(c, 0)->0)));
            assert(!(neighbor(c, 1) is Some && above.contains(neighbor(c, 1)->0)));
            assert(!(neighbor(c, 2) is Some && above.contains(neighbor(c, 2)->0)));
            assert(!(neighbor(c, 3) is Some && above.contains(neighbor(c, 3)->0)));
        }
        assert(pred(layer[i]));
        layer.lemma_filter_contains(pred, i);
        let w = choose|w: int| 0 <= w < f.len() && f[w] == c;
        assert(r[acc.len() + w] == c);
    }
}

/// Finds the edge pixels of an island: those with fewer than four of their
/// four neighbours inside the island.
pub fn find_edge_pixels(pixels: &Vec<Cell>) -> (edges: Vec<Cell>)
    requires
        forall|q: int| 0 <= q < pixels.len() ==> cell_steppable(#[trigger] pixels@[q]),
    ensures
        edges@ == edge_pixels_of(pixels@),
{
    let n = pixels.len();
    let index = build_index(pixels);
    let mut edges: Vec<Cell> = Vec::new();
    for i in 0..n
        invariant
            n == pixels.len(),
            forall|q: int| 0 <= q < pixels.len() ==> cell_steppable(#[trigger] pixels@[q]),
            forall|k: u64|
                #![trigger index@[k]]
                index@.contains_key(k) ==> 0 <= index@[k] < pixels.len() && cell_key(
                    pixels@[index@[k] as int],
                ) == k,
            forall|q: int| 0 <= q < pixels.len() ==> index@.contains_key(#[trigger] cell_key(pixels@[q])),
            edges@ == pixels@.take(i as int).filter(is_edge_in(pixels@)),
    {
        let c = pixels[i];
        let mut count: u32 = 0;
        for k in 0..4
            invariant
                i < pixels.len(),
                c == pixels@[i as int],
                cell_steppable(c),
                forall|k: u64|
                    #![trigger index@[k]]
                    index@.contains_key(k) ==> 0 <= index@[k] < pixels.len() && cell_key(
                        pixels@[index@[k] as int],
                    ) == k,
                forall|q: int| 0 <= q < pixels.len() ==> index@.contains_key(#[trigger] cell_key(pixels@[q])),
                count == (if k > 0 && has_neighbor_in(pixels@, c, 0) { 1int } else { 0int }) + (if k
                    > 1 && has_neighbor_in(pixels@, c, 1) {
                    1int
                } else {
                    0int
                }) + (if k > 2 && has_neighbor_in(pixels@, c, 2) { 1int } else { 0int }) + (if k > 3
                    && has_neighbor_in(pixels@, c, 3) {
                    1int
                } else {
                    0int
                }),
        {
            if let Some(nb) = neighbor_of(c, k) {
                if let Some(_q) = lookup(&index, nb, Ghost(pixels@)) {
                    count = count + 1;
                }
            }
        }
        proof {
            assert(count == neighbor_count(pixels@, c));
            assert(is_edge_in(pixels@)(c) == (count < 4));
            reveal(Seq::filter);
            assert(pixels@.take(i + 1).drop_last() =~= pixels@.take(i as int));
            assert(pixels@.take(i + 1).last() == c);
        }
        if count < 4 {
            edges.push(c);
        }
    }
    proof {
        assert(pixels@.take(n as int) =~= pixels@);
    }
    edges
}

/// Xorshift32 generator used for Poisson-disk sampling of contact points.
/// Unlike the refinement generator it keeps a zero seed as it is.
pub struct Rng {
    state: u32,
}

impl View for Rng {
    type V = u32;

    closed spec fn view(&self) -> u32 {
        self.state
    }
}

impl Rng {
    /// Creates a generator whose state is the seed.
    pub fn new(seed: u32) -> (r: Self)
        ensures
            r@ == seed,
    {
        Rng { state: seed }
    }

    /// Advances the state by one xorshift32 step and returns the new state.
    pub fn next_u32(&mut self) -> (out: u32)
        ensures
            out == xorshift_step(old(self)@),
            final(self)@ == out,
    {
        self.state = self.state ^ (self.state << 13u32);
        self.state = self.state ^ (self.state >> 17u32);
        self.state = self.state ^ (self.state << 5u32);
        self.state
    }
}

} // verus!
