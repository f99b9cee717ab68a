use aksim::combiner::{padded, spectrum_len, Prepared, Rejection};
use aksim::prob::UNIT;
use aksim::simple::{banner_pdist, prepare, Banner};
use realfft::num_complex::Complex;
use realfft::RealFftPlanner;

fn ratio(x: u64) -> f64 {
    x as f64 / UNIT as f64
}

fn convolved(pdists: &[Vec<u64>], len: usize) -> Vec<f64> {
    let mut planner = RealFftPlanner::<f64>::new();
    let fft = planner.plan_fft_forward(len);
    let mut combined = vec![Complex::new(1.0, 0.0); spectrum_len(len)];
    for pdist in pdists {
        let mut samples: Vec<f64> = pdist.iter().map(|x| ratio(*x)).collect();
        samples.resize(len, 0.0);
        let mut dft = fft.make_output_vec();
        fft.process(&mut samples, &mut dft).unwrap();
        for (sample, slot) in dft.iter().zip(combined.iter_mut()) {
            *slot *= *sample;
        }
    }
    let ifft = planner.plan_fft_inverse(len);
    let mut seq = ifft.make_output_vec();
    ifft.process(&mut combined, &mut seq).unwrap();
    seq.iter().map(|x| x / len as f64).collect()
}

fn combined(prepared: &Prepared) -> f64 {
    convolved(&prepared.pdists, prepared.conv_size).iter().take(prepared.window).sum()
}

#[test]
fn padded_keeps_the_entries_and_adds_zeros() {
    assert_eq!(padded(vec![3, 1, 4], 6), vec![3, 1, 4, 0, 0, 0]);
    assert_eq!(padded(vec![3, 1, 4], 3), vec![3, 1, 4]);
    assert_eq!(padded(vec![], 2), vec![0, 0]);
}

#[test]
fn spectrum_len_is_half_the_length_and_one() {
    assert_eq!(spectrum_len(0), 1);
    assert_eq!(spectrum_len(7), 4);
    assert_eq!(spectrum_len(362), 182);
}

#[test]
fn prepare_pads_each_distribution_to_the_convolution() {
    let banners = vec![
        Banner { target: 1, subrate: 350_000_000_000_000_000, bonus_pulls: 24 },
        Banner { target: 1, subrate: UNIT / 2, bonus_pulls: 0 },
    ];
    let prepared = prepare(&banners, 170).unwrap();
    assert_eq!(prepared.conv_size, 362);
    assert_eq!(prepared.window, 193);
    assert_eq!(prepared.pdists.len(), 2);
    let first = banner_pdist(1, 193, 350_000_000_000_000_000);
    let second = banner_pdist(1, 169, UNIT / 2);
    assert_eq!(prepared.pdists[0], padded(first, 362));
    assert_eq!(prepared.pdists[1], padded(second, 362));
    assert!(prepared.pdists[0][192] > 0);
    assert!(prepared.pdists[0][193..].iter().all(|x| *x == 0));
}

#[test]
fn prepare_rejects_no_banners() {
    assert!(matches!(prepare(&vec![], 10), Err(Rejection::NoBanners)));
}

#[test]
fn prepare_rejects_a_subrate_out_of_range() {
    let zero = vec![Banner { target: 1, subrate: 0, bonus_pulls: 0 }];
    assert!(matches!(prepare(&zero, 10), Err(Rejection::Subrate)));
    let more = vec![
        Banner { target: 1, subrate: UNIT, bonus_pulls: 0 },
        Banner { target: 1, subrate: UNIT + 1, bonus_pulls: 0 },
    ];
    assert!(matches!(prepare(&more, 10), Err(Rejection::Subrate)));
}

#[test]
fn prepare_rejects_a_banner_without_pulls() {
    let banners = vec![
        Banner { target: 1, subrate: UNIT, bonus_pulls: 0 },
        Banner { target: 1, subrate: UNIT, bonus_pulls: 9 },
        Banner { target: 1, subrate: UNIT, bonus_pulls: 9 },
    ];
    assert!(matches!(prepare(&banners, 1), Err(Rejection::Underflow)));
}

#[test]
fn prepare_rejects_sizes_beyond_the_machine_word() {
    let pulls = vec![Banner { target: 1, subrate: UNIT, bonus_pulls: usize::MAX }];
    assert!(matches!(prepare(&pulls, 1), Err(Rejection::Overflow)));
    let target = vec![Banner { target: usize::MAX, subrate: UNIT, bonus_pulls: 0 }];
    assert!(matches!(prepare(&target, 1), Err(Rejection::Overflow)));
}

#[test]
fn one_banner_passes_through_the_transform_unchanged() {
    let cases = [(1usize, UNIT / 2, 60usize), (2, 350_000_000_000_000_000, 301), (1, UNIT, 99)];
    for (target, subrate, pulls) in cases {
        let banners = vec![Banner { target, subrate, bonus_pulls: 0 }];
        let prepared = prepare(&banners, pulls).unwrap();
        let direct: f64 = banner_pdist(target, pulls, subrate).iter().map(|x| ratio(*x)).sum();
        let through = combined(&prepared);
        assert!((through - direct).abs() <= 1e-4 * direct, "{} against {}", through, direct);
    }
}

#[test]
fn two_banners_within_170_pulls() {
    let banners = vec![
        Banner { target: 1, subrate: 350_000_000_000_000_000, bonus_pulls: 24 },
        Banner { target: 1, subrate: UNIT / 2, bonus_pulls: 0 },
    ];
    let prepared = prepare(&banners, 170).unwrap();
    let prob = combined(&prepared);
    assert!((prob - 0.682_163_104_8).abs() < 1e-9, "{}", prob);
}

#[test]
fn ten_targets_within_4000_pulls() {
    let banners = vec![Banner { target: 10, subrate: 350_000_000_000_000_000, bonus_pulls: 0 }];
    let prepared = prepare(&banners, 4000).unwrap();
    let prob = combined(&prepared);
    assert!((prob - 1.0).abs() < 1e-6, "{}", prob);
}

#[test]
fn a_shorter_transform_wraps_around() {
    let banners = vec![
        Banner { target: 1, subrate: UNIT / 2, bonus_pulls: 0 },
        Banner { target: 1, subrate: UNIT / 2, bonus_pulls: 0 },
    ];
    let prepared = prepare(&banners, 40).unwrap();
    assert_eq!(prepared.conv_size, 78);
    let own: Vec<Vec<u64>> = prepared.pdists.iter().map(|p| p[..39].to_vec()).collect();
    let full = convolved(&own, 78);
    let short = convolved(&own, 39);
    let mut direct = vec![0.0f64; 78];
    for (i, a) in own[0].iter().enumerate() {
        for (j, b) in own[1].iter().enumerate() {
            direct[i + j] += ratio(*a) * ratio(*b);
        }
    }
    for k in 0..78 {
        assert!((full[k] - direct[k]).abs() < 1e-12, "entry {}", k);
    }
    for k in 0..38 {
        assert!((short[k] - (direct[k] + direct[k + 39])).abs() < 1e-12, "entry {}", k);
    }
    assert!((short[0] - direct[0]).abs() > 1e-6);
}
