use aksim::prob::{times, UNIT};
use aksim::rates::{pity_rate, PITY_LEVELS, RATE_STEP};
use aksim::simple::banner_pdist;

const TABLE: [f64; 99] = [
    0.02, 0.02, 0.02, 0.02, 0.02, 0.02, 0.02, 0.02, 0.02, 0.02, 0.02, 0.02, 0.02, 0.02, 0.02,
    0.02, 0.02, 0.02, 0.02, 0.02, 0.02, 0.02, 0.02, 0.02, 0.02, 0.02, 0.02, 0.02, 0.02, 0.02,
    0.02, 0.02, 0.02, 0.02, 0.02, 0.02, 0.02, 0.02, 0.02, 0.02, 0.02, 0.02, 0.02, 0.02, 0.02,
    0.02, 0.02, 0.02, 0.02, 0.02, 0.04, 0.06, 0.08, 0.10, 0.12, 0.14, 0.16, 0.18, 0.20, 0.22,
    0.24, 0.26, 0.28, 0.30, 0.32, 0.34, 0.36, 0.38, 0.40, 0.42, 0.44, 0.46, 0.48, 0.50, 0.52,
    0.54, 0.56, 0.58, 0.60, 0.62, 0.64, 0.66, 0.68, 0.70, 0.72, 0.74, 0.76, 0.78, 0.80, 0.82,
    0.84, 0.86, 0.88, 0.90, 0.92, 0.94, 0.96, 0.98, 1.00,
];

fn ratio(x: u64) -> f64 {
    x as f64 / UNIT as f64
}

fn fixed(x: f64) -> u64 {
    (x * 100.0).round() as u64 * (UNIT / 100)
}

#[test]
fn times_rounds_the_product_down() {
    assert_eq!(times(UNIT, UNIT), UNIT);
    assert_eq!(times(UNIT / 2, UNIT / 2), UNIT / 4);
    assert_eq!(times(3, UNIT / 2), 1);
    assert_eq!(times(1, UNIT - 1), 0);
    assert_eq!(times(0, UNIT), 0);
    assert_eq!(times(980_000_000_000_000_000, RATE_STEP), 19_600_000_000_000_000);
}

#[test]
fn rate_table_has_its_values() {
    assert_eq!(PITY_LEVELS, TABLE.len());
    for (level, expected) in TABLE.iter().enumerate() {
        assert_eq!(pity_rate(level), fixed(*expected), "level {}", level);
    }
}

#[test]
fn rate_table_never_falls_and_ends_in_certainty() {
    for level in 1..PITY_LEVELS {
        assert!(pity_rate(level - 1) <= pity_rate(level));
    }
    assert_eq!(pity_rate(0), RATE_STEP);
    assert_eq!(pity_rate(PITY_LEVELS - 1), UNIT);
}

#[test]
fn certain_target_follows_the_pity_distribution() {
    let pdist = banner_pdist(1, 120, UNIT);
    assert_eq!(pdist.len(), 120);
    let mut spared = 1.0f64;
    for n in 1..=99usize {
        let expected = TABLE[n - 1] * spared;
        assert!((ratio(pdist[n - 1]) - expected).abs() < 1e-15, "pull {}", n);
        spared *= 1.0 - TABLE[n - 1];
    }
    for n in 100..=120usize {
        assert_eq!(pdist[n - 1], 0);
    }
}

#[test]
fn certain_target_has_exact_first_entries() {
    let pdist = banner_pdist(1, 3, UNIT);
    assert_eq!(pdist, vec![20_000_000_000_000_000, 19_600_000_000_000_000, 19_208_000_000_000_000]);
}

#[test]
fn certain_target_is_the_rounded_product_at_every_pull() {
    let pdist = banner_pdist(1, 99, UNIT);
    let mut spared = UNIT;
    for n in 1..=99usize {
        let rate = pity_rate(n - 1);
        assert_eq!(pdist[n - 1], times(spared, rate));
        spared = times(spared, UNIT - rate);
    }
    assert_eq!(spared, 0);
}

#[test]
fn half_subrate_has_exact_first_entries() {
    let pdist = banner_pdist(1, 2, UNIT / 2);
    assert_eq!(pdist, vec![10_000_000_000_000_000, 9_900_000_000_000_000]);
}

#[test]
fn two_targets_need_two_pulls() {
    let pdist = banner_pdist(2, 3, UNIT);
    assert_eq!(pdist[0], 0);
    assert_eq!(pdist[1], 400_000_000_000_000);
    assert_eq!(pdist[2], 2 * 392_000_000_000_000);
}

#[test]
fn no_target_gives_all_zeros() {
    assert_eq!(banner_pdist(0, 5, UNIT / 2), vec![0, 0, 0, 0, 0]);
}

#[test]
fn no_pulls_give_an_empty_distribution() {
    assert!(banner_pdist(3, 0, UNIT / 2).is_empty());
}

#[test]
fn a_larger_budget_extends_the_distribution() {
    let short = banner_pdist(2, 150, 350_000_000_000_000_000);
    let long = banner_pdist(2, 400, 350_000_000_000_000_000);
    assert_eq!(&long[..150], &short[..]);
}

#[test]
fn cumulative_mass_grows_and_stays_within_one() {
    for (target, subrate) in [(1usize, UNIT), (1, UNIT / 2), (3, 350_000_000_000_000_000), (6, 1)] {
        let pdist = banner_pdist(target, 1200, subrate);
        let mut sum: u64 = 0;
        for p in pdist {
            let next = sum + p;
            assert!(next >= sum);
            assert!(next <= UNIT);
            sum = next;
        }
    }
}

#[test]
fn cumulative_mass_comes_close_to_one() {
    let pdist = banner_pdist(1, 99, UNIT);
    let sum: u64 = pdist.iter().sum();
    assert!(sum <= UNIT);
    assert!(UNIT - sum < 200);
    let pdist = banner_pdist(2, 3000, UNIT / 2);
    let sum: u64 = pdist.iter().sum();
    assert!(sum <= UNIT);
    assert!(ratio(UNIT - sum) < 1e-9);
}
