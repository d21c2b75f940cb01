use aipo::poppy::PoppyRng;

fn reference_next(state: u64) -> (u64, u64) {
    let mut x = state;
    x ^= x >> 12;
    x ^= x << 25;
    x ^= x >> 27;
    (x, x.wrapping_mul(0x2545_F491_4F6C_DD1D))
}

#[test]
fn rng_draws_are_deterministic() {
    let mut rng1 = PoppyRng::new(42);
    let mut rng2 = PoppyRng::new(42);
    for _ in 0..100 {
        assert_eq!(rng1.next_u64(), rng2.next_u64());
        assert_eq!(rng1.random_int(-10, 10), rng2.random_int(-10, 10));
    }
}

#[test]
fn zero_seed_becomes_one() {
    assert_eq!(PoppyRng::new(0).state(), 1);
    assert_eq!(PoppyRng::new(7).state(), 7);
}

#[test]
fn next_u64_is_xorshift_star() {
    let mut rng = PoppyRng::new(12345);
    let (state, value) = reference_next(12345);
    assert_eq!(rng.next_u64(), value);
    assert_eq!(rng.state(), state);
}

#[test]
fn random_int_stays_in_range_and_degenerate_range_draws_nothing() {
    let mut rng = PoppyRng::new(99);
    for _ in 0..1000 {
        let v = rng.random_int(-3, 4);
        assert!((-3..=4).contains(&v));
    }
    let before = rng.state();
    assert_eq!(rng.random_int(5, 5), 5);
    assert_eq!(rng.random_int(9, 2), 9);
    assert_eq!(rng.state(), before);
    let mut wide = PoppyRng::new(3);
    let v = wide.random_int(i64::MIN + 1, i64::MAX);
    assert!(v >= i64::MIN + 1);
}
