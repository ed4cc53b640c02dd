use typr::rng::Rng;

#[test]
fn the_same_seed_gives_the_same_sequence() {
    let mut one = Rng::seeded(42);
    let mut two = Rng::seeded(42);

    let first: Vec<usize> = (0..20).map(|_| one.below(1000)).collect();
    let second: Vec<usize> = (0..20).map(|_| two.below(1000)).collect();

    assert_eq!(first, second);
}

#[test]
fn different_seeds_diverge() {
    let mut one = Rng::seeded(1);
    let mut two = Rng::seeded(2);

    let first: Vec<usize> = (0..20).map(|_| one.below(1000)).collect();
    let second: Vec<usize> = (0..20).map(|_| two.below(1000)).collect();

    assert_ne!(first, second);
}

#[test]
fn below_stays_in_range_and_reaches_both_ends() {
    let mut rng = Rng::seeded(7);
    let mut seen = [false; 4];

    for _ in 0..500 {
        let value = rng.below(4);
        assert!(value < 4);
        seen[value] = true;
    }

    assert!(seen.iter().all(|hit| *hit), "some values were never drawn");
}

#[test]
fn fractions_stay_within_the_unit_interval() {
    let mut rng = Rng::seeded(9);

    for _ in 0..500 {
        let value = rng.fraction_bits() as f64 / (1u64 << 53) as f64;
        assert!((0.0..1.0).contains(&value), "{value} is out of range");
    }
}

#[test]
fn between_covers_an_inclusive_range() {
    let mut rng = Rng::seeded(11);
    let mut low = false;
    let mut high = false;

    for _ in 0..500 {
        let value = rng.between(1, 4);
        assert!((1..=4).contains(&value));
        low |= value == 1;
        high |= value == 4;
    }

    assert!(low && high, "the range ends were never drawn");
}

#[test]
fn the_first_draw_of_seed_zero_is_the_splitmix_reference_value() {
    // SplitMix64 seeded with 0 first yields 0xE220A8397B1DCDAF.
    let mut rng = Rng::seeded(0);

    assert_eq!(rng.next_u64(), 0xE220_A839_7B1D_CDAF);
}

#[test]
fn pick_returns_an_element_of_the_slice() {
    let mut rng = Rng::seeded(3);
    let items = ["a", "b", "c"];

    for _ in 0..50 {
        assert!(items.contains(rng.pick(&items)));
    }
}

#[test]
fn below_one_is_always_zero() {
    let mut rng = Rng::seeded(5);

    for _ in 0..20 {
        assert_eq!(rng.below(1), 0);
    }
}
