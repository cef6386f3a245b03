use tok::conservation::{allocate, conserve_shares, ConserveError, ConserveResult};
use tok::fixed::Fx;
use tok::sybil::{referral_payout_finish, referral_payout_start, PayoutStep, ReferralPayout};

fn h(b: u8) -> [u8; 32] {
    let mut x = [0u8; 32];
    x[0] = b;
    x
}

fn to_f64(x: Fx) -> f64 {
    x.raw() as f64 / 4294967296.0
}

/// Tokens corresponding to a field mass: `round(fx * emission_scale)`.
fn fx_to_tokens(x: Fx, emission_scale: u64) -> u64 {
    if x.le(&Fx::zero()) || emission_scale == 0 {
        return 0;
    }
    let f = to_f64(x);
    if f <= 0.0 {
        return 0;
    }
    let t = f * emission_scale as f64;
    if t >= u64::MAX as f64 {
        return u64::MAX;
    }
    t.round().max(0.0) as u64
}

fn fx_weight(x: Fx) -> u128 {
    if x.le(&Fx::zero()) {
        return 0;
    }
    let f = to_f64(x);
    if f <= 0.0 {
        return 0;
    }
    let w = (f * 1_000_000_000_000.0) as u128;
    w.max(1)
}

fn conserve_and_allocate(
    raw: &[([u8; 32], Fx)],
    directed_total: Fx,
    emission_scale: u64,
    budget: u64,
) -> Result<Vec<ConserveResult>, ConserveError> {
    let (conserved, sum_fx) = conserve_shares(raw, directed_total, budget)?;
    let uncapped = fx_to_tokens(sum_fx, emission_scale);
    let weights: Vec<u128> = conserved.iter().map(|(_, s)| fx_weight(*s)).collect();
    allocate(&conserved, uncapped, &weights, budget)
}

fn referral_payout(referrer: [u8; 32], newcomer: [u8; 32], r: Fx, book_activity: u64) -> ReferralPayout {
    match referral_payout_start(referrer, newcomer, r, book_activity) {
        PayoutStep::Done(p) => p,
        PayoutStep::Allocate(raw) => {
            referral_payout_finish(conserve_and_allocate(&raw, Fx::one(), book_activity, book_activity))
        },
    }
}

#[test]
fn inactive_book_pays_nothing_at_any_share() {
    for r in [Fx::zero(), Fx::from_ratio(1, 10), Fx::from_ratio(1, 2), Fx::one()] {
        let out = referral_payout(h(1), h(2), r, 0);
        assert_eq!(out, ReferralPayout { referrer: 0, newcomer: 0 }, "r={r:?}");
    }
}

#[test]
fn sybil_swarm_of_fake_books_yields_zero_aggregate_payout() {
    let r = Fx::from_ratio(1, 10);
    let total: u64 = (0..500u32)
        .map(|i| {
            let out = referral_payout(h(1), h((i % 255) as u8), r, 0);
            out.referrer + out.newcomer
        })
        .sum();
    assert_eq!(total, 0);
}

#[test]
fn genuine_book_splits_by_share_under_conservation() {
    // r = 1/10, total = 1000: 100 to the referrer, 900 home, reached through
    // the shared conservation primitive.
    let out = referral_payout(h(1), h(2), Fx::from_ratio(1, 10), 1000);
    assert_eq!(out.referrer, 100);
    assert_eq!(out.newcomer, 900);
    assert_eq!(out.referrer + out.newcomer, 1000);
}

#[test]
fn full_share_and_zero_share_are_still_conserved() {
    let full = referral_payout(h(1), h(2), Fx::one(), 1000);
    assert_eq!(full, ReferralPayout { referrer: 1000, newcomer: 0 });

    let none = referral_payout(h(1), h(2), Fx::zero(), 1000);
    assert_eq!(none, ReferralPayout { referrer: 0, newcomer: 1000 });
}

#[test]
fn tiny_activity_still_conserves_no_leakage() {
    // A one-token book (e.g. a single spam registration) still conserves
    // exactly — no rounding leak that could be farmed at scale.
    for activity in [1u64, 2, 3, 7] {
        let out = referral_payout(h(1), h(2), Fx::from_ratio(1, 3), activity);
        assert_eq!(out.referrer + out.newcomer, activity, "activity={activity}");
    }
}

#[test]
fn start_clips_the_share_into_the_unit_interval() {
    match referral_payout_start(h(1), h(2), Fx::from_int(3), 10) {
        PayoutStep::Allocate(raw) => {
            assert_eq!(raw, vec![(h(1), Fx::one()), (h(2), Fx::zero())]);
        },
        PayoutStep::Done(_) => panic!("an active book allocates"),
    }
    match referral_payout_start(h(1), h(2), Fx::from_int(-3), 10) {
        PayoutStep::Allocate(raw) => {
            assert_eq!(raw, vec![(h(1), Fx::zero()), (h(2), Fx::one())]);
        },
        PayoutStep::Done(_) => panic!("an active book allocates"),
    }
}

#[test]
fn finish_pays_nothing_when_the_allocation_failed() {
    assert_eq!(
        referral_payout_finish(Err(ConserveError::NoPositiveShare)),
        ReferralPayout { referrer: 0, newcomer: 0 }
    );
    let out = vec![
        ConserveResult { neuron: h(1), share: Fx::one(), amount: 3 },
        ConserveResult { neuron: h(2), share: Fx::zero(), amount: 4 },
    ];
    assert_eq!(referral_payout_finish(Ok(out)), ReferralPayout { referrer: 3, newcomer: 4 });
}
