use orient_core::placement::Rng as ContactRng;
use orient_core::rng::{seed_from_quantized, Rng};

#[test]
fn same_seed_same_sequence() {
    let mut a = Rng::new(42);
    let mut b = Rng::new(42);
    for _ in 0..100 {
        assert_eq!(a.next_u32(), b.next_u32(), "sequences diverged");
    }
}

#[test]
fn different_seeds_different_sequence() {
    let mut a = Rng::new(1);
    let mut b = Rng::new(2);
    let mut differ = 0;
    for _ in 0..10 {
        if a.next_u32() != b.next_u32() {
            differ += 1;
        }
    }
    assert!(differ > 5, "different seeds should produce mostly-different sequences");
}

#[test]
fn zero_seed_does_not_absorb() {
    let mut r = Rng::new(0);
    let v1 = r.next_u32();
    let v2 = r.next_u32();
    assert_ne!(v1, 0, "zero seed must not produce zero state");
    assert_ne!(v1, v2, "sequence must progress");
}

#[test]
fn xorshift_step_of_seed_one() {
    let mut r = Rng::new(1);
    assert_eq!(r.next_u32(), 270369);
}

#[test]
fn zero_seed_starts_from_fixed_constant() {
    let mut r = Rng::new(0);
    assert_eq!(r.next_u32(), 1199382711);
    assert_eq!(r.next_u32(), 2384302402);
}

#[test]
fn generator_never_yields_zero() {
    for seed in [0u32, 1, 7, 0xFFFF_FFFF, 0x8000_0000] {
        let mut r = Rng::new(seed);
        for _ in 0..1000 {
            assert_ne!(r.next_u32(), 0);
        }
    }
}

#[test]
fn seed_mixing_exact_value() {
    assert_eq!(seed_from_quantized(1, 2, 3, 0), 579112924);
}

#[test]
fn seed_mixing_never_zero() {
    assert_eq!(seed_from_quantized(0, 0, 0, 0), 0xDEAD_BEEF);
}

#[test]
fn seed_mixing_differs_by_salt_and_direction() {
    assert_ne!(seed_from_quantized(0, 0, 1000, 0), seed_from_quantized(0, 0, 1000, 1));
    assert_ne!(seed_from_quantized(0, 0, 1000, 0), seed_from_quantized(1000, 0, 0, 0));
}

#[test]
fn contact_generator_keeps_zero_seed() {
    let mut r = ContactRng::new(0);
    assert_eq!(r.next_u32(), 0);
    let mut s = ContactRng::new(1);
    assert_eq!(s.next_u32(), 270369);
}
