use rust_hnsw::level::{draw_climbs, level_from_draws, sample_level, MAX_LEVEL};

#[test]
fn level_cap_is_32() {
    assert_eq!(MAX_LEVEL, 32);
}

#[test]
fn draw_climbs_below_one_over_m() {
    // m = 16: a draw climbs when draw / 2^32 < 1/16, that is draw < 2^28.
    assert!(draw_climbs(16, 0));
    assert!(draw_climbs(16, (1u32 << 28) - 1));
    assert!(!draw_climbs(16, 1u32 << 28));
    assert!(!draw_climbs(16, u32::MAX));
}

#[test]
fn draw_climbs_for_m_three() {
    // 3 * 1431655765 = 4294967295 < 2^32 <= 3 * 1431655766.
    assert!(draw_climbs(3, 1_431_655_765));
    assert!(!draw_climbs(3, 1_431_655_766));
}

#[test]
fn every_draw_climbs_for_m_zero_and_one() {
    assert!(draw_climbs(0, u32::MAX));
    assert!(draw_climbs(1, u32::MAX));
    assert!(draw_climbs(1, 0));
}

#[test]
fn only_zero_climbs_for_huge_m() {
    assert!(draw_climbs(usize::MAX, 0));
    assert!(!draw_climbs(usize::MAX, 1));
}

#[test]
fn level_counts_leading_climbs() {
    let low = 5u32;
    let high = u32::MAX;
    assert_eq!(level_from_draws(16, &vec![]), 0);
    assert_eq!(level_from_draws(16, &vec![high]), 0);
    assert_eq!(level_from_draws(16, &vec![low, high]), 1);
    assert_eq!(level_from_draws(16, &vec![low, low, low, high, low]), 3);
    assert_eq!(level_from_draws(16, &vec![high, low, low]), 0);
    assert_eq!(level_from_draws(16, &vec![low, low]), 2);
}

#[test]
fn level_stops_at_the_cap() {
    let draws = vec![0u32; 40];
    assert_eq!(level_from_draws(16, &draws), 32);
    let exactly = vec![0u32; 32];
    assert_eq!(level_from_draws(16, &exactly), 32);
    let below = vec![0u32; 31];
    assert_eq!(level_from_draws(16, &below), 31);
}

#[test]
fn sampled_level_stays_within_the_cap() {
    for m in [2usize, 3, 16, 1000] {
        for _ in 0..200 {
            assert!(sample_level(m) <= 32);
        }
    }
}

#[test]
fn sampled_level_is_the_cap_when_every_draw_climbs() {
    assert_eq!(sample_level(0), 32);
    assert_eq!(sample_level(1), 32);
}

#[test]
fn sampled_levels_vary_for_branching_factor_two() {
    // With m = 2 a level of 0 has chance 1/2: 400 samples that all agree
    // would need a generator that repeats itself.
    let first = sample_level(2);
    let mut differs = false;
    for _ in 0..400 {
        if sample_level(2) != first {
            differs = true;
        }
    }
    assert!(differs);
}
