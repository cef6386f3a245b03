use tok::conservation::{allocate, clip_shares, conserve_shares, ConserveError, ConserveResult};
use tok::fixed::Fx;

fn h(b: u8) -> [u8; 32] {
    let mut x = [0u8; 32];
    x[0] = b;
    x
}

fn to_f64(x: Fx) -> f64 {
    x.raw() as f64 / 4294967296.0
}

/// Tokens corresponding to a field mass: `round(fx * emission_scale)`.
fn fx_to_tokens(x: Fx, emission_scale: u64) -> u64 {
    if x.le(&Fx::zero()) || emission_scale == 0 {
        return 0;
    }
    let f = to_f64(x);
    if f <= 0.0 {
        return 0;
    }
    let t = f * emission_scale as f64;
    if t >= u64::MAX as f64 {
        return u64::MAX;
    }
    t.round().max(0.0) as u64
}

fn fx_weight(x: Fx) -> u128 {
    if x.le(&Fx::zero()) {
        return 0;
    }
    let f = to_f64(x);
    if f <= 0.0 {
        return 0;
    }
    let w = (f * 1_000_000_000_000.0) as u128;
    w.max(1)
}

fn conserve_and_allocate(
    raw: &[([u8; 32], Fx)],
    directed_total: Fx,
    emission_scale: u64,
    budget: u64,
) -> Result<Vec<ConserveResult>, ConserveError> {
    let (conserved, sum_fx) = conserve_shares(raw, directed_total, budget)?;
    let uncapped = fx_to_tokens(sum_fx, emission_scale);
    let weights: Vec<u128> = conserved.iter().map(|(_, s)| fx_weight(*s)).collect();
    allocate(&conserved, uncapped, &weights, budget)
}

#[test]
fn clip_when_vstar_exceeds_delta() {
    // Lottery over-claim: sum shares 2.0, Δφ⁺ = 1.0 → clip to 1.0
    let raw = vec![(h(1), Fx::one()), (h(2), Fx::one())];
    let clipped = clip_shares(&raw, Fx::one()).unwrap();
    let sum: f64 = clipped.iter().map(|(_, s)| to_f64(*s)).sum();
    assert!((sum - 1.0).abs() < 1e-6, "sum={sum}");
    assert!((to_f64(clipped[0].1) - 0.5).abs() < 1e-6);
}

#[test]
fn no_clip_when_under_delta() {
    let raw = vec![(h(1), Fx::from_ratio(1, 2))];
    let clipped = clip_shares(&raw, Fx::one()).unwrap();
    assert!((to_f64(clipped[0].1) - 0.5).abs() < 1e-6);
}

#[test]
fn zero_rho_style_share_gets_nothing() {
    let raw = vec![(h(1), Fx::one()), (h(2), Fx::zero())];
    let out = conserve_and_allocate(&raw, Fx::one(), 1000, 1000).unwrap();
    assert_eq!(out[0].amount, 1000);
    assert_eq!(out[1].amount, 0);
    let paid: u64 = out.iter().map(|r| r.amount).sum();
    assert_eq!(paid, 1000);
}

#[test]
fn budget_caps_emission() {
    // Large emission_scale but budget 10
    let raw = vec![(h(1), Fx::one())];
    let out = conserve_and_allocate(&raw, Fx::one(), 1_000_000, 10).unwrap();
    assert_eq!(out[0].amount, 10);
}

#[test]
fn conservation_of_token_sum() {
    let raw = vec![(h(1), Fx::from_ratio(3, 4)), (h(2), Fx::from_ratio(1, 4))];
    let out = conserve_and_allocate(&raw, Fx::one(), 1000, 1000).unwrap();
    let paid: u64 = out.iter().map(|r| r.amount).sum();
    assert_eq!(paid, out.iter().map(|r| r.amount).sum::<u64>());
    assert!(paid <= 1000);
    assert_eq!(paid, 1000.min(fx_to_tokens(Fx::one(), 1000)));
}

#[test]
fn clip_rejects_empty_and_non_positive_shares() {
    assert_eq!(clip_shares(&[], Fx::one()).unwrap_err(), ConserveError::Empty);
    let raw = vec![(h(1), Fx::zero()), (h(2), Fx::from_int(-1))];
    assert_eq!(clip_shares(&raw, Fx::one()).unwrap_err(), ConserveError::NoPositiveShare);
    assert_eq!(conserve_shares(&raw, Fx::one(), 0).unwrap_err(), ConserveError::BudgetZero);
}

#[test]
fn clip_zeroes_negative_shares_and_keeps_order() {
    let raw = vec![(h(3), Fx::from_int(-2)), (h(1), Fx::from_int(3)), (h(2), Fx::one())];
    let out = clip_shares(&raw, Fx::from_int(2)).unwrap();
    assert_eq!(out.len(), 3);
    assert_eq!(out[0], (h(3), Fx::zero()));
    assert_eq!(out[1].0, h(1));
    assert_eq!(out[2].0, h(2));
    // ceiling 2 over a positive mass of 4: each positive share halves
    assert_eq!(out[1].1, Fx::from_ratio(3, 2));
    assert_eq!(out[2].1, Fx::from_ratio(1, 2));
}

#[test]
fn zero_directed_total_keeps_the_positive_mass() {
    let raw = vec![(h(1), Fx::from_int(3))];
    let out = clip_shares(&raw, Fx::zero()).unwrap();
    assert_eq!(out[0].1, Fx::from_int(3));
}

#[test]
fn conserve_shares_sums_the_conserved_mass() {
    let raw = vec![(h(1), Fx::one()), (h(2), Fx::one())];
    let (out, mass) = conserve_shares(&raw, Fx::one(), 5).unwrap();
    assert_eq!(out.len(), 2);
    assert_eq!(mass, Fx::one());
}

#[test]
fn allocate_splits_by_weight_with_the_residual_last() {
    let shares = vec![(h(1), Fx::one()), (h(2), Fx::one()), (h(3), Fx::one())];
    let out = allocate(&shares, 10, &[1, 1, 1], 100).unwrap();
    let amounts: Vec<u64> = out.iter().map(|r| r.amount).collect();
    assert_eq!(amounts, vec![3, 3, 4]);
    assert_eq!(out[2].neuron, h(3));
    assert_eq!(out[2].share, Fx::one());
}

#[test]
fn allocate_caps_at_budget_and_rehomes_a_weightless_residual() {
    let shares = vec![(h(1), Fx::one()), (h(2), Fx::one()), (h(3), Fx::zero())];
    let out = allocate(&shares, 1000, &[1, 2, 0], 10).unwrap();
    let amounts: Vec<u64> = out.iter().map(|r| r.amount).collect();
    // floor(10/3) = 3, floor(20/3) = 6, the last has no weight; 1 left → first weighted
    assert_eq!(amounts, vec![4, 6, 0]);
}

#[test]
fn allocate_dust_goes_to_the_first_largest_positive_share() {
    let shares = vec![(h(1), Fx::one()), (h(2), Fx::from_int(2)), (h(3), Fx::from_int(2))];
    let out = allocate(&shares, 0, &[1, 2, 2], 5).unwrap();
    let amounts: Vec<u64> = out.iter().map(|r| r.amount).collect();
    assert_eq!(amounts, vec![0, 1, 0]);
    let none = vec![(h(1), Fx::zero())];
    assert_eq!(allocate(&none, 0, &[0], 5).unwrap_err(), ConserveError::NoPositiveShare);
    assert_eq!(allocate(&shares, 7, &[0, 0, 0], 5).unwrap_err(), ConserveError::NoPositiveShare);
}
