use tok::fixed::Fx;
use tok::pow_subsidy::pow_subsidy_shares;

fn h(b: u8) -> [u8; 32] {
    let mut x = [0u8; 32];
    x[0] = b;
    x
}

fn to_f64(x: Fx) -> f64 {
    x.raw() as f64 / 4294967296.0
}

#[test]
fn splits_proportional_to_work_only() {
    let work = vec![(h(1), Fx::from_int(3)), (h(2), Fx::from_int(1))];
    let shares = pow_subsidy_shares(Fx::from_int(4), &work);
    assert!((to_f64(shares[0].1) - 3.0).abs() < 1e-6);
    assert!((to_f64(shares[1].1) - 1.0).abs() < 1e-6);
}

#[test]
fn zero_work_earns_zero_regardless_of_stake_or_karma() {
    // No karma/stake input exists in this function's signature at all —
    // a neuron with w=0 draws nothing no matter how large its stake is.
    let work = vec![(h(1), Fx::from_int(5)), (h(2), Fx::zero())];
    let shares = pow_subsidy_shares(Fx::from_int(10), &work);
    assert!((to_f64(shares[0].1) - 10.0).abs() < 1e-6);
    assert_eq!(shares[1].1, Fx::zero());
}

#[test]
fn no_positive_work_leaves_pool_unclaimed() {
    let work = vec![(h(1), Fx::zero()), (h(2), Fx::zero())];
    let shares = pow_subsidy_shares(Fx::from_int(10), &work);
    assert!(shares.iter().all(|(_, s)| *s == Fx::zero()));
}

#[test]
fn conserves_the_pool_across_active_workers() {
    let work = vec![(h(1), Fx::from_int(2)), (h(2), Fx::from_int(5)), (h(3), Fx::from_int(3))];
    let pool = Fx::from_int(1000);
    let shares = pow_subsidy_shares(pool, &work);
    let sum: f64 = shares.iter().map(|(_, s)| to_f64(*s)).sum();
    assert!((sum - 1000.0).abs() < 1e-3);
}

#[test]
fn negative_work_is_treated_as_ineligible() {
    let work = vec![(h(1), Fx::zero().sub(Fx::from_int(1))), (h(2), Fx::from_int(1))];
    let shares = pow_subsidy_shares(Fx::from_int(10), &work);
    assert_eq!(shares[0].1, Fx::zero());
    assert!((to_f64(shares[1].1) - 10.0).abs() < 1e-6);
}

#[test]
fn empty_work_list_returns_empty() {
    let shares = pow_subsidy_shares(Fx::from_int(10), &[]);
    assert!(shares.is_empty());
}

#[test]
fn a_non_positive_pool_pays_nothing() {
    let work = vec![(h(1), Fx::from_int(2))];
    assert_eq!(pow_subsidy_shares(Fx::zero(), &work), vec![(h(1), Fx::zero())]);
    assert_eq!(pow_subsidy_shares(Fx::from_int(-5), &work), vec![(h(1), Fx::zero())]);
}

#[test]
fn each_share_is_pool_times_work_over_total() {
    // 1:3 of a pool of 8: the work ratios 1/4 and 3/4 are exact in fixed point.
    let work = vec![(h(1), Fx::from_int(1)), (h(2), Fx::from_int(3))];
    let shares = pow_subsidy_shares(Fx::from_int(8), &work);
    assert_eq!(shares, vec![(h(1), Fx::from_int(2)), (h(2), Fx::from_int(6))]);
}
