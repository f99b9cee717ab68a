use aksim::combiner::{spectrum_len, Prepared, Rejection};
use aksim::compare::SLACK;
use aksim::focus::{banner_pdist, prepare, Banner};
use aksim::prob::UNIT;
use aksim::rates::pity_rate;
use aksim::waits::{
    focus_table, rare_table, unmet_table, FOCUS_LOSS, FOCUS_SPAN, FOCUS_WINDOW, RARE_SPAN,
};
use realfft::num_complex::Complex;
use realfft::RealFftPlanner;

fn ratio(x: u64) -> f64 {
    x as f64 / UNIT as f64
}

fn float_rates() -> Vec<f64> {
    (0..99).map(|level| ratio(pity_rate(level))).collect()
}

fn float_waits() -> Vec<f64> {
    let rates = float_rates();
    let mut reached = vec![1.0f64; 99];
    for i in 1..99 {
        reached[i] = reached[i - 1] * (1.0 - rates[i - 1]);
    }
    let mut waits = vec![0.0f64; 99];
    for i in 1..99 {
        waits[i] = reached[i - 1] - reached[i];
    }
    waits
}

fn float_pdist(target: usize, pulls: usize, subrate: f64, focus: bool) -> Vec<f64> {
    let waits = float_waits();
    let mut pdist = Vec::new();
    if focus {
        let mut no_target = vec![0.0f64; 249];
        no_target[0] = 1.0;
        let mut with_focus = vec![0.0f64; 249];
        for i in 0..151 {
            for j in 1..99 {
                let x = no_target[i] * waits[j];
                if i + j > 150 {
                    with_focus[i + j] += x;
                } else {
                    with_focus[i + j] += x * subrate;
                    no_target[i + j] += x * (1.0 - subrate);
                }
            }
        }
        let mut probs = vec![vec![[0.0f64; 2]; target + 1]; pulls + 1];
        probs[0][0][0] = 1.0;
        for p in 0..pulls {
            for t in 0..target {
                for next in 1..151 {
                    if p + next > pulls {
                        break;
                    }
                    probs[p + next][t + 1][0] += probs[p][t][0] * with_focus[next];
                }
                for next in 151..249 {
                    if p + next > pulls {
                        break;
                    }
                    probs[p + next][t + 1][1] += probs[p][t][0] * with_focus[next];
                }
                for next in 1..99 {
                    if p + next > pulls {
                        break;
                    }
                    probs[p + next][t + 1][1] += probs[p][t][1] * waits[next] * subrate;
                    probs[p + next][t][1] += probs[p][t][1] * waits[next] * (1.0 - subrate);
                }
            }
        }
        for p in 1..=pulls {
            pdist.push(probs[p][target][0] + probs[p][target][1]);
        }
    } else {
        let rates = float_rates();
        let mut probs = vec![[0.0f64; 100]; target + 1];
        probs[0][0] = 1.0;
        for _ in 0..pulls {
            let mut new_probs = vec![[0.0f64; 100]; target + 1];
            for (pity, rate) in rates.iter().enumerate() {
                for count in 0..target {
                    let old = probs[count][pity];
                    new_probs[count][pity + 1] += old * (1.0 - rate);
                    new_probs[count][0] += old * rate * (1.0 - subrate);
                    new_probs[count + 1][0] += old * rate * subrate;
                }
            }
            probs = new_probs;
            pdist.push(probs[target][0]);
        }
    }
    pdist
}

fn combined(prepared: &Prepared) -> f64 {
    let len = prepared.conv_size;
    let mut planner = RealFftPlanner::<f64>::new();
    let fft = planner.plan_fft_forward(len);
    let mut product = vec![Complex::new(1.0, 0.0); spectrum_len(len)];
    for pdist in &prepared.pdists {
        let mut samples: Vec<f64> = pdist.iter().map(|x| ratio(*x)).collect();
        let mut dft = fft.make_output_vec();
        fft.process(&mut samples, &mut dft).unwrap();
        for (sample, slot) in dft.iter().zip(product.iter_mut()) {
            *slot *= *sample;
        }
    }
    let ifft = planner.plan_fft_inverse(len);
    let mut seq = ifft.make_output_vec();
    ifft.process(&mut product, &mut seq).unwrap();
    seq.iter().take(prepared.window).sum::<f64>() / len as f64
}

#[test]
fn rare_table_has_the_waits_for_a_rare_outcome() {
    let tab = rare_table();
    assert_eq!(tab.len(), RARE_SPAN + 1);
    assert_eq!(tab[0], 0);
    assert_eq!(
        &tab[1..4],
        &[20_000_000_000_000_000, 19_600_000_000_000_000, 19_208_000_000_000_000]
    );
    assert_eq!(tab[98], 0);
    assert_eq!(tab.iter().sum::<u64>(), UNIT);
    let waits = float_waits();
    for d in 0..=RARE_SPAN {
        assert!((ratio(tab[d]) - waits[d]).abs() < 1e-15, "wait {}", d);
    }
}

#[test]
fn unmet_table_follows_the_rare_outcomes_that_miss() {
    let rare = rare_table();
    let tab = unmet_table(UNIT / 2, &rare);
    assert_eq!(tab.len(), FOCUS_WINDOW + 1);
    assert_eq!(
        &tab[..4],
        &[UNIT, 10_000_000_000_000_000, 9_900_000_000_000_000, 9_801_000_000_000_000]
    );
    assert_eq!(tab[150], 1_452_344_442_773_820);
}

#[test]
fn unmet_table_is_empty_where_every_rare_outcome_is_the_target() {
    let rare = rare_table();
    let tab = unmet_table(UNIT, &rare);
    assert_eq!(tab[0], UNIT);
    assert!(tab[1..].iter().all(|x| *x == 0));
}

#[test]
fn focus_table_has_the_waits_for_the_target() {
    let rare = rare_table();
    let unmet = unmet_table(UNIT / 2, &rare);
    let tab = focus_table(UNIT / 2, &unmet, &rare);
    assert_eq!(tab.len(), FOCUS_SPAN + 1);
    assert_eq!(
        &tab[..4],
        &[0, 10_000_000_000_000_000, 9_900_000_000_000_000, 9_801_000_000_000_000]
    );
    assert_eq!(tab[150], 1_452_344_442_773_820);
    assert_eq!(tab[151], 2_860_967_125_967_651);
    assert_eq!(tab[248], 0);
    assert_eq!(tab.iter().sum::<u64>(), 999_999_999_999_988_091);
}

#[test]
fn focus_table_equals_the_rare_table_where_every_rare_outcome_is_the_target() {
    let rare = rare_table();
    let unmet = unmet_table(UNIT, &rare);
    let tab = focus_table(UNIT, &unmet, &rare);
    assert_eq!(&tab[..99], &rare[..]);
    assert!(tab[99..].iter().all(|x| *x == 0));
}

#[test]
fn focus_pdist_of_one_target_is_the_focus_table() {
    let pdist = banner_pdist(1, 260, UNIT / 2, true);
    assert_eq!(pdist.len(), 260);
    let rare = rare_table();
    let unmet = unmet_table(UNIT / 2, &rare);
    let tab = focus_table(UNIT / 2, &unmet, &rare);
    assert_eq!(&pdist[..248], &tab[1..]);
    assert!(pdist[248..].iter().all(|x| *x == 0));
    assert_eq!(pdist[149], 1_452_344_442_773_820);
    assert_eq!(pdist[150], 2_860_967_125_967_651);
}

#[test]
fn focus_pdist_of_two_targets_has_exact_entries() {
    let pdist = banner_pdist(2, 400, 350_000_000_000_000_000, true);
    assert_eq!(&pdist[..3], &[0, 49_000_000_000_000, 97_314_000_000_000]);
    assert_eq!(pdist[199], 4_203_778_075_220_742);
    assert_eq!(pdist[399], 201_541_440_192_877);
    assert_eq!(pdist.iter().sum::<u64>(), 982_757_260_375_080_368);
}

#[test]
fn focus_pdist_of_three_targets_has_exact_entries() {
    let pdist = banner_pdist(3, 1000, 350_000_000_000_000_000, true);
    assert_eq!(pdist[2], 343_000_000_000);
    assert_eq!(pdist[3], 1_021_797_000_000);
    assert_eq!(pdist[500], 367_106_341_333_133);
    assert_eq!(pdist.iter().sum::<u64>(), 999_774_791_525_475_621);
}

#[test]
fn focus_pdist_matches_the_recurrence_in_floats() {
    for (target, pulls, subrate) in [(1usize, 300usize, 0.5f64), (2, 500, 0.35), (4, 700, 0.2)] {
        let fixed = banner_pdist(target, pulls, (subrate * 1e18).round() as u64, true);
        let float = float_pdist(target, pulls, subrate, true);
        for n in 0..pulls {
            assert!((ratio(fixed[n]) - float[n]).abs() < 1e-12, "pull {}", n + 1);
        }
    }
}

#[test]
fn plain_pdist_matches_the_recurrence_in_floats() {
    for (target, pulls, subrate) in [(1usize, 300usize, 0.5f64), (2, 500, 0.35), (4, 700, 0.2)] {
        let fixed = banner_pdist(target, pulls, (subrate * 1e18).round() as u64, false);
        let float = float_pdist(target, pulls, subrate, false);
        for n in 0..pulls {
            assert!((ratio(fixed[n]) - float[n]).abs() < 1e-12, "pull {}", n + 1);
        }
    }
}

#[test]
fn plain_cumulative_mass_stays_near_the_exact_one() {
    for (target, pulls, subrate) in [(1usize, 400usize, 0.5f64), (3, 900, 0.35), (6, 1500, 0.2)] {
        let fixed = banner_pdist(target, pulls, (subrate * 1e18).round() as u64, false);
        let float = float_pdist(target, pulls, subrate, false);
        let mut held: u64 = 0;
        let mut exact = 0.0f64;
        for n in 0..pulls {
            held += fixed[n];
            exact += float[n];
            let lost = (2 * 99 * target * (n + 1)) as f64 / 1e18;
            assert!(ratio(held) <= exact + 1e-13, "pull {}", n + 1);
            assert!(exact <= ratio(held) + lost + 1e-13, "pull {}", n + 1);
        }
    }
}

#[test]
fn without_focus_the_distribution_is_the_plain_one() {
    let plain = aksim::simple::banner_pdist(3, 400, 350_000_000_000_000_000);
    assert_eq!(banner_pdist(3, 400, 350_000_000_000_000_000, false), plain);
}

#[test]
fn focus_pdist_of_no_target_is_all_zeros() {
    assert_eq!(banner_pdist(0, 4, UNIT / 2, true), vec![0, 0, 0, 0]);
}

#[test]
fn focus_pdist_of_no_pulls_is_empty() {
    assert!(banner_pdist(2, 0, UNIT / 2, true).is_empty());
}

#[test]
fn focus_pdist_extends_with_the_budget() {
    let short = banner_pdist(2, 170, UNIT / 2, true);
    let long = banner_pdist(2, 420, UNIT / 2, true);
    assert_eq!(&long[..170], &short[..]);
}

#[test]
fn focus_cumulative_mass_grows_and_stays_within_one() {
    for (target, subrate) in [(1usize, UNIT), (1, UNIT / 2), (3, 350_000_000_000_000_000), (5, 1)] {
        let pdist = banner_pdist(target, 1300, subrate, true);
        let mut sum: u64 = 0;
        for p in pdist {
            let next = sum + p;
            assert!(next >= sum);
            assert!(next <= UNIT);
            sum = next;
        }
    }
}

#[test]
fn focus_forces_one_target_within_its_span() {
    for subrate in [1, UNIT / 1000, 350_000_000_000_000_000, UNIT / 2, UNIT] {
        let pdist = banner_pdist(1, 300, subrate, true);
        let sum: u64 = pdist[..FOCUS_SPAN].iter().sum();
        assert!(sum <= UNIT);
        assert!(UNIT - sum <= FOCUS_LOSS);
        assert!(pdist[FOCUS_SPAN..].iter().all(|x| *x == 0));
    }
}

#[test]
fn focus_is_no_worse_than_none_within_the_window() {
    for subrate in [UNIT, UNIT / 2, 350_000_000_000_000_000, UNIT / 3, 100_000_000_000_000_000, 1] {
        let with = banner_pdist(1, 150, subrate, true);
        let without = banner_pdist(1, 150, subrate, false);
        let mut sum_with: u64 = 0;
        let mut sum_without: u64 = 0;
        for n in 0..150 {
            sum_with += with[n];
            sum_without += without[n];
            assert!(sum_with >= sum_without, "pull {}", n + 1);
            assert!(ratio(sum_with - sum_without) < 1e-12);
        }
    }
}

#[test]
fn focus_is_behind_none_by_less_than_the_slack() {
    for subrate in [UNIT, 700_000_000_000_000_001, 207_664_569_318_280_002, 3] {
        let with = banner_pdist(1, 150, subrate, true);
        let without = banner_pdist(1, 150, subrate, false);
        let mut sum_with: u64 = 0;
        let mut sum_without: u64 = 0;
        for n in 0..150u64 {
            sum_with += with[n as usize];
            sum_without += without[n as usize];
            assert!(sum_without <= sum_with + SLACK * (n + 1) * (n + 1), "pull {}", n + 1);
        }
    }
}

#[test]
fn focus_is_better_than_none_after_the_window() {
    let with: u64 = banner_pdist(1, 200, UNIT / 2, true).iter().sum();
    let without: u64 = banner_pdist(1, 200, UNIT / 2, false).iter().sum();
    assert!((ratio(with) - 0.995_631_011_711_895_6).abs() < 1e-12);
    assert!((ratio(without) - 0.964_736_849_143_712_7).abs() < 1e-12);
}

#[test]
fn focus_prepare_pads_each_distribution_to_the_convolution() {
    let banners = vec![
        Banner { target: 1, subrate: 350_000_000_000_000_000, bonus_pulls: 24, has_focus: false },
        Banner { target: 1, subrate: UNIT / 2, bonus_pulls: 0, has_focus: true },
    ];
    let prepared = prepare(&banners, 170).unwrap();
    assert_eq!(prepared.conv_size, 362);
    assert_eq!(prepared.window, 193);
    let first = banner_pdist(1, 193, 350_000_000_000_000_000, false);
    let second = banner_pdist(1, 169, UNIT / 2, true);
    assert_eq!(&prepared.pdists[0][..193], &first[..]);
    assert!(prepared.pdists[0][193..].iter().all(|x| *x == 0));
    assert_eq!(&prepared.pdists[1][..169], &second[..]);
    assert!(prepared.pdists[1][169..].iter().all(|x| *x == 0));
    assert_eq!(prepared.pdists[1].len(), 362);
}

#[test]
fn focus_prepare_rejects_what_cannot_be_combined() {
    assert!(matches!(prepare(&vec![], 10), Err(Rejection::NoBanners)));
    let zero = vec![Banner { target: 1, subrate: 0, bonus_pulls: 0, has_focus: true }];
    assert!(matches!(prepare(&zero, 10), Err(Rejection::Subrate)));
    let short = vec![
        Banner { target: 1, subrate: UNIT, bonus_pulls: 0, has_focus: true },
        Banner { target: 1, subrate: UNIT, bonus_pulls: 0, has_focus: false },
        Banner { target: 1, subrate: UNIT, bonus_pulls: 0, has_focus: false },
    ];
    assert!(matches!(prepare(&short, 1), Err(Rejection::Underflow)));
    let large = vec![Banner { target: usize::MAX, subrate: UNIT, bonus_pulls: 0, has_focus: true }];
    assert!(matches!(prepare(&large, 1), Err(Rejection::Overflow)));
    let wide = vec![Banner { target: 1, subrate: UNIT, bonus_pulls: usize::MAX, has_focus: true }];
    assert!(matches!(prepare(&wide, 1), Err(Rejection::Overflow)));
}

#[test]
fn two_banners_one_with_focus_within_170_pulls() {
    let banners = vec![
        Banner { target: 1, subrate: 350_000_000_000_000_000, bonus_pulls: 24, has_focus: false },
        Banner { target: 1, subrate: UNIT / 2, bonus_pulls: 0, has_focus: true },
    ];
    let prob = combined(&prepare(&banners, 170).unwrap());
    assert!((prob - 0.686_630_281_994_6).abs() < 1e-9, "{}", prob);
}

#[test]
fn two_banners_both_with_focus_within_170_pulls() {
    let banners = vec![
        Banner { target: 1, subrate: 350_000_000_000_000_000, bonus_pulls: 24, has_focus: true },
        Banner { target: 1, subrate: UNIT / 2, bonus_pulls: 0, has_focus: true },
    ];
    let prob = combined(&prepare(&banners, 170).unwrap());
    assert!((prob - 0.709_863_236_045_0).abs() < 1e-9, "{}", prob);
}

#[test]
fn two_banners_without_focus_within_170_pulls() {
    let banners = vec![
        Banner { target: 1, subrate: 350_000_000_000_000_000, bonus_pulls: 24, has_focus: false },
        Banner { target: 1, subrate: UNIT / 2, bonus_pulls: 0, has_focus: false },
    ];
    let prob = combined(&prepare(&banners, 170).unwrap());
    assert!((prob - 0.682_163_104_8).abs() < 1e-9, "{}", prob);
}
