//! Deterministic xorshift32 pseudo-random number generator.
//!
//! The same seed always yields the same sequence; a zero seed, which would be
//! an absorbing state for xorshift, is mapped to a fixed nonzero constant.
use vstd::prelude::*;
use vstd::wrapping::u32_specs::{wrapping_add, wrapping_mul};

verus! {

/// The state that replaces a zero seed.
pub const ZERO_SEED_STATE: u32 = 0xDEAD_BEEFu32;

/// One xorshift32 step (shifts 13, 17, 5) on a 32-bit state.
pub open spec fn xorshift_step(x: u32) -> u32 {
    let a = x ^ (x << 13u32);
    let b = a ^ (a >> 17u32);
    b ^ (b << 5u32)
}

/// The state a generator starts from for a given seed.
pub open spec fn initial_state(seed: u32) -> u32 {
    if seed == 0 {
        ZERO_SEED_STATE
    } else {
        seed
    }
}

/// The state after `n` steps from `state`.
pub open spec fn state_after(state: u32, n: nat) -> u32
    decreases n,
{
    if n == 0 {
        state
    } else {
        xorshift_step(state_after(state, (n - 1) as nat))
    }
}

/// The `k`-th value (counting from 0) that a generator seeded with `seed` yields.
pub open spec fn nth_output(seed: u32, k: nat) -> u32 {
    state_after(initial_state(seed), k + 1)
}

/// The mixing of three quantised direction components and a salt into a seed.
pub open spec fn spec_seed_from_quantized(qx: u32, qy: u32, qz: u32, salt: u32) -> u32 {
    let h1 = wrapping_mul(wrapping_add(salt, qx), 0x9E37_79B1u32);
    let h2 = wrapping_mul(wrapping_add(h1, qy), 0x85EB_CA77u32);
    let h3 = wrapping_mul(wrapping_add(h2, qz), 0xC2B2_AE3Du32);
    let h = h3 ^ (h3 >> 16u32);
    if h == 0 {
        ZERO_SEED_STATE
    } else {
        h
    }
}

/// A xorshift32 step maps a nonzero state to a nonzero state.
pub proof fn lemma_step_nonzero(x: u32)
    requires
        x != 0,
    ensures
        xorshift_step(x) != 0,
{
    let a = x ^ (x << 13u32);
    let b = a ^ (a >> 17u32);
    assert(x != 0 ==> x ^ (x << 13u32) != 0) by (bit_vector);
    assert(a != 0 ==> a ^ (a >> 17u32) != 0) by (bit_vector);
    assert(b != 0 ==> b ^ (b << 5u32) != 0) by (bit_vector);
}

/// A xorshift32 step is injective: distinct states have distinct successors,
/// so two generators whose states differ yield different next values.
pub proof fn lemma_step_injective(x: u32, y: u32)
    requires
        x != y,
    ensures
        xorshift_step(x) != xorshift_step(y),
{
    let ax = x ^ (x << 13u32);
    let ay = y ^ (y << 13u32);
    let bx = ax ^ (ax >> 17u32);
    let by_ = ay ^ (ay >> 17u32);
    assert(x != y ==> x ^ (x << 13u32) != y ^ (y << 13u32)) by (bit_vector);
    assert(ax != ay ==> ax ^ (ax >> 17u32) != ay ^ (ay >> 17u32)) by (bit_vector);
    assert(bx != by_ ==> bx ^ (bx << 5u32) != by_ ^ (by_ << 5u32)) by (bit_vector);
}

/// Every state reached from a nonzero state is nonzero: zero never absorbs
/// a generator, whatever its seed.
pub proof fn lemma_state_after_nonzero(state: u32, n: nat)
    requires
        state != 0,
    ensures
        state_after(state, n) != 0,
    decreases n,
{
    if n > 0 {
        lemma_state_after_nonzero(state, (n - 1) as nat);
        lemma_step_nonzero(state_after(state, (n - 1) as nat));
    }
}

proof fn lemma_state_after_injective(x: u32, y: u32, n: nat)
    requires
        x != y,
    ensures
        state_after(x, n) != state_after(y, n),
    decreases n,
{
    if n > 0 {
        lemma_state_after_injective(x, y, (n - 1) as nat);
        lemma_step_injective(state_after(x, (n - 1) as nat), state_after(y, (n - 1) as nat));
    }
}

/// Two generators whose seeds start them in different states never yield the
/// same value at the same step; all that the seed `0` shares a start with is
/// the seed it is replaced by.
pub proof fn lemma_distinct_seeds_never_meet(seed1: u32, seed2: u32, k: nat)
    requires
        initial_state(seed1) != initial_state(seed2),
    ensures
        nth_output(seed1, k) != nth_output(seed2, k),
{
    lemma_state_after_injective(initial_state(seed1), initial_state(seed2), k + 1);
}

proof fn lemma_state_after_add(x: u32, a: nat, b: nat)
    ensures
        state_after(x, a + b) == state_after(state_after(x, a), b),
    decreases b,
{
    if b > 0 {
        lemma_state_after_add(x, a, (b - 1) as nat);
        assert(a + b - 1 == a + (b - 1) as nat);
    }
}

/// Some two of the first 2^32 states from a nonzero state coincide.
proof fn lemma_states_repeat(x: u32)
    requires
        x != 0,
    ensures
        exists|i: nat, j: nat| i < j < 0x1_0000_0000 && state_after(x, i) == state_after(x, j),
{
    let big: int = 0x1_0000_0000;
    let dom = vstd::set_lib::set_int_range(0, big);
    let f = |k: int| state_after(x, k as nat) as int;
    vstd::set_lib::lemma_int_range(0, big);
    vstd::set_lib::lemma_int_range(1, big);
    let img = dom.map(f);
    assert(img.subset_of(vstd::set_lib::set_int_range(1, big))) by {
        assert forall|y: int| img.contains(y) implies vstd::set_lib::set_int_range(1, big).contains(y) by {
            let k = choose|k: int| dom.contains(k) && f(k) == y;
            lemma_state_after_nonzero(x, k as nat);
        }
    }
    vstd::set_lib::lemma_map_size_bound(dom, img, f);
    vstd::set_lib::lemma_len_subset(img, vstd::set_lib::set_int_range(1, big));
    if forall|i: nat, j: nat| i < j < 0x1_0000_0000 ==> state_after(x, i) != state_after(x, j) {
        assert(vstd::relations::injective_on(f, dom)) by {
            assert forall|a: int, b: int| dom.contains(a) && dom.contains(b) && #[trigger] f(a) == #[trigger] f(b)
                implies a == b by {
                if a < b {
                    assert(state_after(x, a as nat) != state_after(x, b as nat));
                } else if b < a {
                    assert(state_after(x, b as nat) != state_after(x, a as nat));
                }
            }
        }
        vstd::set_lib::lemma_map_size(dom, img, f);
    }
}

/// The values drawn from `seed` repeat every `period` draws.
pub open spec fn repeats_every(seed: u32, period: nat) -> bool {
    &&& 1 <= period
    &&& forall|k: nat| #[trigger] nth_output(seed, k + period) == nth_output(seed, k)
}

/// A generator's values repeat with a period of at most 2^32 - 1 steps and
/// are never zero: the state comes back to where it started.
pub proof fn lemma_outputs_periodic(seed: u32)
    ensures
        exists|period: nat| period < 0x1_0000_0000 && #[trigger] repeats_every(seed, period),
        forall|k: nat| #[trigger] nth_output(seed, k) != 0,
{
    let x = initial_state(seed);
    assert forall|k: nat| #[trigger] nth_output(seed, k) != 0 by {
        lemma_state_after_nonzero(x, k + 1);
    }
    lemma_states_repeat(x);
    let (i, j) = choose|i: nat, j: nat| i < j < 0x1_0000_0000 && state_after(x, i) == state_after(x, j);
    let period = (j - i) as nat;
    lemma_state_after_add(x, period, i);
    assert(period + i == j);
    if state_after(x, period) != x {
        lemma_state_after_injective(state_after(x, period), x, i);
    }
    assert forall|k: nat| #[trigger] nth_output(seed, k + period) == nth_output(seed, k) by {
        lemma_state_after_add(x, period, k + 1);
        assert(k + period + 1 == period + (k + 1));
    }
    assert(repeats_every(seed, period));
}

/// Xorshift32 generator. Its state is never zero.
pub struct Rng {
    state: u32,
}

impl View for Rng {
    type V = u32;

    closed spec fn view(&self) -> u32 {
        self.state
    }
}

impl Rng {
    #[verifier::type_invariant]
    closed spec fn state_nonzero(self) -> bool {
        self.state != 0
    }

    /// Creates a generator from a seed; a zero seed is replaced by a nonzero constant.
    pub fn new(seed: u32) -> (r: Self)
        ensures
            r@ == initial_state(seed),
            r@ != 0,
    {
        Rng { state: if seed == 0 { ZERO_SEED_STATE } else { seed } }
    }

    /// Advances the state by one xorshift32 step and returns the new state.
    pub fn next_u32(&mut self) -> (out: u32)
        ensures
            out == xorshift_step(old(self)@),
            final(self)@ == out,
            out != 0,
    {
        proof {
            use_type_invariant(&*self);
            lemma_step_nonzero(self.state);
        }
        let mut x = self.state;
        x = x ^ (x << 13u32);
        x = x ^ (x >> 17u32);
        x = x ^ (x << 5u32);
        self.state = x;
        x
    }
}

/// Hashes three quantised direction components and a salt into a nonzero seed,
/// so each (direction, salt) pair maps to a reproducible seed.
pub fn seed_from_quantized(qx: u32, qy: u32, qz: u32, salt: u32) -> (seed: u32)
    ensures
        seed == spec_seed_from_quantized(qx, qy, qz, salt),
        seed != 0,
{
    let mut h = salt.wrapping_add(qx).wrapping_mul(0x9E37_79B1u32);
    h = h.wrapping_add(qy).wrapping_mul(0x85EB_CA77u32);
    h = h.wrapping_add(qz).wrapping_mul(0xC2B2_AE3Du32);
    h = h ^ (h >> 16u32);
    if h == 0 {
        ZERO_SEED_STATE
    } else {
        h
    }
}

} // verus!
