use aksim::budget::{max_pulls, plan, BudgetError};

#[test]
fn max_pulls_leaves_one_pull_for_each_other_banner() {
    assert_eq!(max_pulls(170, 24, 2), Some(193));
    assert_eq!(max_pulls(170, 0, 2), Some(169));
    assert_eq!(max_pulls(4000, 480, 4), Some(4477));
    assert_eq!(max_pulls(0, 0, 1), Some(0));
}

#[test]
fn max_pulls_is_none_below_zero() {
    assert_eq!(max_pulls(1, 0, 3), None);
    assert_eq!(max_pulls(0, 2, 4), None);
    assert_eq!(max_pulls(1, 1, 3), Some(0));
}

#[test]
fn max_pulls_is_none_beyond_the_machine_word() {
    assert_eq!(max_pulls(usize::MAX, 1, 1), None);
    assert_eq!(max_pulls(usize::MAX, 1, 2), Some(usize::MAX));
    assert_eq!(max_pulls(usize::MAX, 0, 3), Some(usize::MAX - 2));
}

#[test]
fn plan_of_two_banners() {
    let laid = plan(&vec![24, 0], 170).unwrap();
    assert_eq!(laid.max_pulls, vec![193, 169]);
    assert_eq!(laid.conv_size, 362);
    assert_eq!(laid.window, 193);
}

#[test]
fn plan_of_four_banners() {
    let laid = plan(&vec![240, 0, 480, 0], 4000).unwrap();
    assert_eq!(laid.max_pulls, vec![4237, 3997, 4477, 3997]);
    assert_eq!(laid.conv_size, 4237 + 3997 + 4477 + 3997);
    assert_eq!(laid.window, 4000 + 720 - 3);
}

#[test]
fn plan_conv_size_is_the_sum_of_max_pulls() {
    for pulls in [3usize, 10, 99, 1000] {
        let bonus = vec![5, 0, 17, 2];
        let laid = plan(&bonus, pulls).unwrap();
        assert_eq!(laid.conv_size, laid.max_pulls.iter().sum::<usize>());
        for (m, b) in laid.max_pulls.iter().zip(bonus.iter()) {
            assert_eq!(*m, pulls + b - 3);
        }
    }
}

#[test]
fn plan_of_one_banner_counts_every_entry() {
    let laid = plan(&vec![7], 50).unwrap();
    assert_eq!(laid.max_pulls, vec![57]);
    assert_eq!(laid.conv_size, 57);
    assert_eq!(laid.window, 57);
}

#[test]
fn plan_rejects_no_banners() {
    assert!(matches!(plan(&vec![], 10), Err(BudgetError::NoBanners)));
}

#[test]
fn plan_rejects_a_banner_without_pulls() {
    assert!(matches!(plan(&vec![0, 0, 0], 1), Err(BudgetError::Underflow)));
    assert!(matches!(plan(&vec![5, 0, 5], 1), Err(BudgetError::Underflow)));
    assert!(matches!(plan(&vec![usize::MAX, 0, 0], 1), Err(BudgetError::Underflow)));
}

#[test]
fn plan_rejects_sizes_beyond_the_machine_word() {
    assert!(matches!(plan(&vec![usize::MAX], 1), Err(BudgetError::Overflow)));
    assert!(matches!(plan(&vec![usize::MAX / 2, usize::MAX / 2], 10), Err(BudgetError::Overflow)));
}

#[test]
fn plan_window_may_exceed_conv_size_when_pulls_are_few() {
    let laid = plan(&vec![1, 1], 0).unwrap();
    assert_eq!(laid.max_pulls, vec![0, 0]);
    assert_eq!(laid.conv_size, 0);
    assert_eq!(laid.window, 1);
}
