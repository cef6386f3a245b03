use tok::conservation::{allocate, conserve_shares, ConserveError, ConserveResult};
use tok::fixed::Fx;
use tok::ids::TokenId;
use tok::ledger::{LedgerError, MintLedger};
use tok::mint::{settle_mints, MintError, MintReceipt};

fn h(b: u8) -> [u8; 32] {
    let mut x = [0u8; 32];
    x[0] = b;
    x
}

fn to_f64(x: Fx) -> f64 {
    x.raw() as f64 / 4294967296.0
}

/// Tokens corresponding to a field mass: `round(fx * emission_scale)`.
fn fx_to_tokens(x: Fx, emission_scale: u64) -> u64 {
    if x.le(&Fx::zero()) || emission_scale == 0 {
        return 0;
    }
    let f = to_f64(x);
    if f <= 0.0 {
        return 0;
    }
    let t = f * emission_scale as f64;
    if t >= u64::MAX as f64 {
        return u64::MAX;
    }
    t.round().max(0.0) as u64
}

fn fx_weight(x: Fx) -> u128 {
    if x.le(&Fx::zero()) {
        return 0;
    }
    let f = to_f64(x);
    if f <= 0.0 {
        return 0;
    }
    let w = (f * 1_000_000_000_000.0) as u128;
    w.max(1)
}

fn conserve_and_allocate(
    raw: &[([u8; 32], Fx)],
    directed_total: Fx,
    emission_scale: u64,
    budget: u64,
) -> Result<Vec<ConserveResult>, ConserveError> {
    let (conserved, sum_fx) = conserve_shares(raw, directed_total, budget)?;
    let uncapped = fx_to_tokens(sum_fx, emission_scale);
    let weights: Vec<u128> = conserved.iter().map(|(_, s)| fx_weight(*s)).collect();
    allocate(&conserved, uncapped, &weights, budget)
}

fn execute_settle_mints(
    ledger: &mut MintLedger,
    token: TokenId,
    raw_shares: &[([u8; 32], Fx)],
    directed_total: Fx,
    emission_scale: u64,
    budget: u64,
    reason: &[u8; 32],
) -> Result<MintReceipt, MintError> {
    let conserved =
        conserve_and_allocate(raw_shares, directed_total, emission_scale, budget).map_err(MintError::from)?;
    settle_mints(ledger, token, &conserved, reason)
}

#[test]
fn execute_mints_under_clip() {
    let mut led = MintLedger::new();
    let token = h(7);
    // Over-claim lottery vs Δφ⁺
    let raw = vec![(h(1), Fx::one()), (h(2), Fx::one())];
    let rec = execute_settle_mints(
        &mut led,
        token,
        &raw,
        Fx::one(), // directed = 1, v★≈2 → clip
        1000,
        1000,
        &h(0xAA),
    )
    .unwrap();
    assert!(led.check_token(token));
    assert_eq!(rec.total, led.supply(&token));
    // conserved mass ≈ 1.0 → 1000 tokens split
    assert_eq!(rec.total, 1000);
    assert_eq!(rec.legs.len(), 2);
}

#[test]
fn propagates_conserve_error_on_empty_shares() {
    let mut led = MintLedger::new();
    let err = execute_settle_mints(&mut led, h(7), &[], Fx::one(), 1000, 1000, &h(0xAA)).unwrap_err();
    assert_eq!(err, MintError::Conserve(ConserveError::Empty));
    assert_eq!(led.supply(&h(7)), 0);
}

#[test]
fn propagates_conserve_error_on_zero_budget() {
    let mut led = MintLedger::new();
    let raw = vec![(h(1), Fx::one())];
    let err = execute_settle_mints(&mut led, h(7), &raw, Fx::one(), 1000, 0, &h(0xAA)).unwrap_err();
    assert_eq!(err, MintError::Conserve(ConserveError::BudgetZero));
}

#[test]
fn propagates_conserve_error_on_no_positive_share() {
    let mut led = MintLedger::new();
    let raw = vec![(h(1), Fx::zero()), (h(2), Fx::zero())];
    let err = execute_settle_mints(&mut led, h(7), &raw, Fx::one(), 1000, 1000, &h(0xAA)).unwrap_err();
    assert_eq!(err, MintError::Conserve(ConserveError::NoPositiveShare));
}

#[test]
fn intent_hash_is_order_independent() {
    let raw_forward = vec![(h(1), Fx::one()), (h(2), Fx::one()), (h(3), Fx::one())];
    let raw_reversed: Vec<_> = raw_forward.iter().rev().cloned().collect();

    let mut led_a = MintLedger::new();
    let rec_a = execute_settle_mints(&mut led_a, h(7), &raw_forward, Fx::one(), 1000, 900, &h(0xAA)).unwrap();
    let mut led_b = MintLedger::new();
    let rec_b = execute_settle_mints(&mut led_b, h(7), &raw_reversed, Fx::one(), 1000, 900, &h(0xAA)).unwrap();

    assert_eq!(rec_a.intent_hash, rec_b.intent_hash);
    assert_eq!(rec_a.total, rec_b.total);
}

#[test]
fn dust_path_always_yields_exactly_one_leg() {
    // emission_scale = 0 forces fx_to_tokens's uncapped mass to 0,
    // driving the sub-scale dust branch.
    let mut led = MintLedger::new();
    let raw = vec![(h(1), Fx::one()), (h(2), Fx::from_int(2))];
    let rec = execute_settle_mints(&mut led, h(7), &raw, Fx::one(), 0, 5, &h(0xAA)).unwrap();
    assert_eq!(rec.total, 1);
    assert_eq!(rec.legs.len(), 1);
    assert_eq!(rec.legs[0].amount, 1);
}

fn result(n: u8, share: Fx, amount: u64) -> ConserveResult {
    ConserveResult { neuron: h(n), share, amount }
}

#[test]
fn settle_mints_skips_zero_amounts_and_sums_the_shares() {
    let mut led = MintLedger::new();
    let alloc = vec![result(1, Fx::one(), 5), result(2, Fx::from_ratio(1, 2), 0), result(3, Fx::one(), 7)];
    let rec = settle_mints(&mut led, h(7), &alloc, &h(0xAA)).unwrap();
    assert_eq!(rec.total, 12);
    assert_eq!(rec.legs.len(), 2);
    assert_eq!(rec.legs[0].to, h(1));
    assert_eq!(rec.legs[1].amount, 7);
    assert_eq!(rec.conserved_fx, Fx::from_ratio(5, 2));
    assert_eq!(led.balance(&h(3), &h(7)), 7);
    assert!(led.check_token(h(7)));
}

#[test]
fn settle_mints_with_no_positive_amount_is_empty_legs() {
    let mut led = MintLedger::new();
    let alloc = vec![result(1, Fx::one(), 0)];
    let err = settle_mints(&mut led, h(7), &alloc, &h(0xAA)).unwrap_err();
    assert_eq!(err, MintError::EmptyLegs);
    assert_eq!(led.supply(&h(7)), 0);
}

#[test]
fn settle_mints_after_a_burn_that_would_saturate_is_a_ledger_error() {
    let mut led = MintLedger::new();
    led.mint_batch(h(7), &[(h(1), u64::MAX)]).unwrap();
    led.burn(h(1), h(7), 1).unwrap();
    let alloc = vec![result(2, Fx::one(), 1)];
    let err = settle_mints(&mut led, h(7), &alloc, &h(0xAA)).unwrap_err();
    assert_eq!(err, MintError::Ledger(LedgerError::BurnExceedsMint));
    assert_eq!(led.balance(&h(2), &h(7)), 0);
}

#[test]
fn intent_hash_binds_the_reason() {
    let alloc = vec![result(1, Fx::one(), 5)];
    let mut a = MintLedger::new();
    let mut b = MintLedger::new();
    let ra = settle_mints(&mut a, h(7), &alloc, &h(0xAA)).unwrap();
    let rb = settle_mints(&mut b, h(7), &alloc, &h(0xAB)).unwrap();
    assert_ne!(ra.intent_hash, rb.intent_hash);
}

#[test]
fn permuted_allocations_settle_to_equal_receipts() {
    let forward = vec![result(1, Fx::one(), 5), result(2, Fx::one(), 0), result(3, Fx::one(), 7)];
    let reversed: Vec<ConserveResult> = forward.iter().rev().cloned().collect();
    let mut a = MintLedger::new();
    let mut b = MintLedger::new();
    let ra = settle_mints(&mut a, h(7), &forward, &h(0xAA)).unwrap();
    let rb = settle_mints(&mut b, h(7), &reversed, &h(0xAA)).unwrap();
    assert_eq!(ra.total, rb.total);
    assert_eq!(ra.intent_hash, rb.intent_hash);
}
