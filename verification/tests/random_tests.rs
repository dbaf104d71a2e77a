use dungeon_crawl::random::RandomSource;

#[test]
fn in_range_stays_in_the_half_open_range() {
    let mut rng = RandomSource::from_seed(1);
    let mut seen = [false; 4];
    for _ in 0..500 {
        let value = rng.in_range(3, 7);
        assert!(3 <= value && value < 7);
        seen[value - 3] = true;
    }
    assert!(seen.iter().all(|&s| s));
}

#[test]
fn in_range_of_one_value_gives_it() {
    let mut rng = RandomSource::from_seed(2);
    for _ in 0..20 {
        assert_eq!(rng.in_range(5, 6), 5);
    }
}

#[test]
fn in_range_inclusive_stays_in_the_closed_range() {
    let mut rng = RandomSource::from_seed(3);
    let mut seen = [false; 3];
    for _ in 0..500 {
        let value = rng.in_range_inclusive(0, 2);
        assert!(value <= 2);
        seen[value] = true;
    }
    assert!(seen.iter().all(|&s| s));
    assert_eq!(rng.in_range_inclusive(9, 9), 9);
}

#[test]
fn coin_flip_gives_both_sides() {
    let mut rng = RandomSource::from_seed(4);
    let mut heads = 0;
    for _ in 0..1000 {
        if rng.coin_flip() {
            heads += 1;
        }
    }
    assert!(300 < heads && heads < 700);
}

#[test]
fn equal_seeds_give_equal_draws() {
    let mut a = RandomSource::from_seed(99);
    let mut b = RandomSource::from_seed(99);
    for _ in 0..100 {
        assert_eq!(a.in_range(0, 1000), b.in_range(0, 1000));
        assert_eq!(a.coin_flip(), b.coin_flip());
    }
}

#[test]
fn a_source_from_entropy_draws_in_range() {
    if let Some(mut rng) = RandomSource::from_entropy() {
        for _ in 0..100 {
            let value = rng.in_range(10, 20);
            assert!(10 <= value && value < 20);
        }
    }
}

#[test]
fn a_source_with_a_fallback_always_comes_back() {
    let mut rng = RandomSource::from_entropy_or(5);
    let mut seen = [false; 10];
    for _ in 0..1000 {
        let value = rng.in_range(10, 20);
        assert!(10 <= value && value < 20);
        seen[value - 10] = true;
    }
    assert!(seen.iter().all(|&s| s));
}
