use fly_on_the_wall::noise::{Hiss, Whim, HISS_SEED, WHIM_SEED};

#[test]
fn whims_follow_numerical_recipes() {
    let mut w = Whim::new(0);
    assert_eq!(w.draw(), 1_013_904_223 >> 8);
    assert_eq!(w.state, 1_013_904_223);
    let mut s = Whim::seeded();
    assert_eq!(s.state, WHIM_SEED);
    let expected = WHIM_SEED.wrapping_mul(1_664_525).wrapping_add(1_013_904_223);
    assert_eq!(s.draw(), expected >> 8);
    for _ in 0..1000 {
        assert!(s.draw() < 1 << 24);
    }
}

#[test]
fn the_hiss_is_xorshift() {
    let mut h = Hiss::new();
    assert_eq!(h.state, HISS_SEED);
    let mut x = HISS_SEED;
    for _ in 0..1000 {
        x ^= x << 13;
        x ^= x >> 17;
        x ^= x << 5;
        assert_eq!(h.next_bits(), x);
        assert_ne!(x, 0);
    }
    let mut silent = Hiss { state: 0 };
    assert_eq!(silent.next_bits(), 0);
}
