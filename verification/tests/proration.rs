use bluechips::money::Currency;
use bluechips::prorate::{distribute_remainder, nonzero_splits, prorate, Mutation, SplitsError};

fn c(v: i64) -> Currency {
    Currency::from_minor(v)
}

#[test]
fn equal_weights_spread_the_odd_cent() {
    let weights = vec![(1, c(1)), (2, c(1)), (3, c(1))];
    let shares = prorate(c(100), &weights);
    assert_eq!(3, shares.len());
    let total: i64 = shares.iter().map(|(_, v)| v.as_minor()).sum();
    assert_eq!(100, total);
    let mut values: Vec<i64> = shares.iter().map(|(_, v)| v.as_minor()).collect();
    values.sort();
    assert_eq!(vec![33, 33, 34], values);
}

#[test]
fn shares_sum_exactly_and_match_sign() {
    let weights = vec![(1, c(1)), (2, c(1))];
    let shares = prorate(c(101), &weights);
    let total: i64 = shares.iter().map(|(_, v)| v.as_minor()).sum();
    assert_eq!(101, total);
    for (_, v) in &shares {
        assert!(v.as_minor() >= 0);
        assert!((v.as_minor() - 50).abs() <= 1);
    }
}

#[test]
fn single_full_weight_takes_the_whole_amount() {
    let weights = vec![(9, c(100))];
    let shares = prorate(c(777), &weights);
    assert_eq!(vec![(9, c(777))], shares);
}

#[test]
fn zero_weights_are_dropped() {
    let weights = vec![(1, c(0)), (2, c(1)), (3, c(0))];
    let shares = prorate(c(100), &weights);
    assert_eq!(vec![(2, c(100))], shares);
}

#[test]
fn negative_totals_prorate_downward() {
    let weights = vec![(1, c(1)), (2, c(1)), (3, c(1))];
    let shares = prorate(c(-100), &weights);
    let total: i64 = shares.iter().map(|(_, v)| v.as_minor()).sum();
    assert_eq!(-100, total);
    for (_, v) in &shares {
        assert!(v.as_minor() <= 0);
        assert!(v.as_minor() == -33 || v.as_minor() == -34);
    }
}

#[test]
fn proportional_weights_get_proportional_shares() {
    let weights = vec![(1, c(75)), (2, c(25))];
    let shares = prorate(c(1000), &weights);
    assert_eq!(vec![(1, c(750)), (2, c(250))], shares);
}

#[test]
fn remainder_distribution_is_deterministic() {
    let provisional = vec![(1, c(33)), (2, c(33)), (3, c(33))];
    let adjusted = distribute_remainder(provisional, &vec![2usize], true);
    assert_eq!(vec![(1, c(33)), (2, c(33)), (3, c(34))], adjusted);

    let provisional = vec![(1, c(-33)), (2, c(-33)), (3, c(-33))];
    let adjusted = distribute_remainder(provisional, &vec![0usize, 1usize], false);
    assert_eq!(vec![(1, c(-34)), (2, c(-34)), (3, c(-33))], adjusted);
}

#[test]
fn zero_sum_weight_maps_are_rejected() {
    assert!(matches!(
        nonzero_splits(&vec![(1, c(5)), (2, c(-5))]),
        Err(SplitsError::ZeroWeightTotal)
    ));
    assert!(nonzero_splits(&vec![(1, c(5))]).is_ok());
    assert!(matches!(
        nonzero_splits(&vec![]),
        Err(SplitsError::ZeroWeightTotal)
    ));
}

#[test]
fn set_splits_validates_and_prorates() {
    let weights = vec![(1, c(1)), (2, c(1)), (3, c(2))];
    let shares = Mutation::set_splits(c(1000), &weights).unwrap();
    assert_eq!(vec![(1, c(250)), (2, c(250)), (3, c(500))], shares);

    assert_eq!(
        Err(SplitsError::ZeroWeightTotal),
        Mutation::set_splits(c(1000), &vec![(1, c(3)), (2, c(-3))]).map(|_| ())
    );
    assert_eq!(
        Err(SplitsError::NegativeWeight),
        Mutation::set_splits(c(1000), &vec![(1, c(3)), (2, c(-1))]).map(|_| ())
    );
}
