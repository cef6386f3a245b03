use tok::fixed::Fx;
use tok::ids::NeuronId;
use tok::service_fee::{service_fee_shares, ServedQuery};

fn n(b: u8) -> NeuronId {
    let mut x = [0u8; 32];
    x[0] = b;
    x
}

fn q(servicer: NeuronId, fee: i64) -> ServedQuery {
    ServedQuery { servicer, fee: Fx::from_int(fee) }
}

fn to_f64(x: Fx) -> f64 {
    x.raw() as f64 / 4294967296.0
}

#[test]
fn single_query_pays_gamma_times_one_minus_beta() {
    // gamma = 0.5, beta = 0.2 -> rate = 0.4; fee = 10 -> share = 4,
    // up to the rounding two chained fixed-point multiplies carry.
    let gamma = Fx::from_ratio(1, 2);
    let beta = Fx::from_ratio(1, 5);
    let shares = service_fee_shares(&[q(n(1), 10)], gamma, beta);
    assert_eq!(shares.len(), 1);
    assert_eq!(shares[0].0, n(1));
    assert!((to_f64(shares[0].1) - 4.0).abs() < 1e-6);
}

#[test]
fn multiple_queries_from_one_servicer_sum() {
    let gamma = Fx::one();
    let beta = Fx::zero();
    let shares = service_fee_shares(&[q(n(1), 3), q(n(1), 5)], gamma, beta);
    assert_eq!(shares, vec![(n(1), Fx::from_int(8))]);
}

#[test]
fn distinct_servicers_stay_separate() {
    let gamma = Fx::one();
    let beta = Fx::zero();
    let shares = service_fee_shares(&[q(n(1), 3), q(n(2), 5)], gamma, beta);
    assert_eq!(shares, vec![(n(1), Fx::from_int(3)), (n(2), Fx::from_int(5))]);
}

#[test]
fn gamma_zero_pays_nothing() {
    let shares = service_fee_shares(&[q(n(1), 10)], Fx::zero(), Fx::zero());
    assert_eq!(shares, vec![(n(1), Fx::zero())]);
}

#[test]
fn beta_one_burns_the_whole_fee() {
    let shares = service_fee_shares(&[q(n(1), 10)], Fx::one(), Fx::one());
    assert_eq!(shares, vec![(n(1), Fx::zero())]);
}

#[test]
fn beta_above_one_clips_to_zero_payout_not_negative() {
    let shares = service_fee_shares(&[q(n(1), 10)], Fx::one(), Fx::from_int(2));
    assert_eq!(shares, vec![(n(1), Fx::zero())]);
}

#[test]
fn gamma_above_one_clips_to_one() {
    let a = service_fee_shares(&[q(n(1), 10)], Fx::from_int(2), Fx::zero());
    let b = service_fee_shares(&[q(n(1), 10)], Fx::one(), Fx::zero());
    assert_eq!(a, b);
}

#[test]
fn negative_beta_clips_to_zero_burn() {
    let a = service_fee_shares(&[q(n(1), 10)], Fx::one(), Fx::zero().sub(Fx::from_int(1)));
    let b = service_fee_shares(&[q(n(1), 10)], Fx::one(), Fx::zero());
    assert_eq!(a, b);
}

#[test]
fn empty_served_list_returns_empty() {
    assert!(service_fee_shares(&[], Fx::one(), Fx::zero()).is_empty());
}

#[test]
fn sum_of_shares_never_exceeds_sum_of_fees() {
    let gamma = Fx::from_ratio(7, 10);
    let beta = Fx::from_ratio(3, 10);
    let served = [q(n(1), 4), q(n(2), 9), q(n(1), 2)];
    let total_fee: f64 = served.iter().map(|q| to_f64(q.fee)).sum();
    let shares = service_fee_shares(&served, gamma, beta);
    let total_share: f64 = shares.iter().map(|(_, s)| to_f64(*s)).sum();
    assert!(total_share <= total_fee + 1e-9);
}

#[test]
fn servicers_keep_first_seen_order() {
    let served = [q(n(2), 1), q(n(1), 2), q(n(2), 3)];
    let shares = service_fee_shares(&served, Fx::one(), Fx::zero());
    assert_eq!(shares, vec![(n(2), Fx::from_int(4)), (n(1), Fx::from_int(2))]);
}

#[test]
fn half_rate_halves_each_fee() {
    // gamma = 1/2, beta = 0: rate 1/2 exactly; 6 + 2 → 4.
    let served = [q(n(1), 6), q(n(1), 2)];
    let shares = service_fee_shares(&served, Fx::from_ratio(1, 2), Fx::zero());
    assert_eq!(shares, vec![(n(1), Fx::from_int(4))]);
}
