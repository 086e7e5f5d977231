use propsim::node::Rng;
use propsim::SimRng;

#[test]
fn deterministic_from_seed() {
    let mut a = SimRng::new(0xC0FFEE);
    let mut b = SimRng::new(0xC0FFEE);
    for _ in 0..1000 {
        assert_eq!(a.next_u64(), b.next_u64());
    }
}

#[test]
fn different_seeds_diverge() {
    let mut a = SimRng::new(1);
    let mut b = SimRng::new(2);
    assert_ne!(a.next_u64(), b.next_u64());
}

#[test]
fn splitmix_reference_values() {
    let mut r = SimRng::new(0);
    assert_eq!(r.next_u64(), 0xe220a8397b1dcdaf);
    assert_eq!(r.next_u64(), 0x6e789e6aa1b965f4);
    assert_eq!(r.next_u64(), 0x06c45d188009454f);
}

#[test]
fn range_is_half_open_and_empty_range_returns_low() {
    let mut r = SimRng::new(7);
    assert_eq!(r.range_u64(10, 20), 17);
    let mut e = SimRng::new(7);
    assert_eq!(e.range_u64(5, 5), 5);
    assert_eq!(e.range_u64(9, 3), 9);
    // an empty range draws nothing: the stream continues as a fresh one
    let mut fresh = SimRng::new(7);
    assert_eq!(e.next_u64(), fresh.next_u64());
    for seed in 0..200u64 {
        let mut g = SimRng::new(seed);
        let x = g.range_u64(3, 8);
        assert!((3..8).contains(&x));
    }
}

#[test]
fn chance_never_and_always_do_not_draw() {
    let mut r = SimRng::new(11);
    assert!(!r.chance(propsim::Prob::never()));
    assert!(r.chance(propsim::Prob::always()));
    let mut fresh = SimRng::new(11);
    assert_eq!(r.next_u64(), fresh.next_u64());
    // one half draws once and compares the top 53 bits against 2^52
    let mut h = SimRng::new(7);
    assert!(h.chance(propsim::Prob::from_bits(0.5f64.to_bits())));
    let mut fresh = SimRng::new(7);
    fresh.next_u64();
    assert_eq!(h.next_u64(), fresh.next_u64());
}

#[test]
fn duration_ms_picks_in_range() {
    let mut r = SimRng::new(7);
    let d = r.duration_ms(10..20);
    assert_eq!(d, std::time::Duration::from_millis(17));
    let mut e = SimRng::new(7);
    assert_eq!(e.duration_ms(30..30), std::time::Duration::from_millis(30));
}
