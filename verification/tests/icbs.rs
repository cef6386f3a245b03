use tok::fixed::Fx;
use tok::icbs::{cost, Market, MarketError, Position};
use tok::ids::NeuronId;
use tok::ledger::{LedgerError, MintLedger};

fn h(b: u8) -> [u8; 32] {
    let mut x = [0u8; 32];
    x[0] = b;
    x
}

fn to_f64(x: Fx) -> f64 {
    x.raw() as f64 / 4294967296.0
}

/// Tokens corresponding to a field mass: `round(fx * emission_scale)`.
fn fx_to_tokens(x: Fx, emission_scale: u64) -> u64 {
    if x.le(&Fx::zero()) || emission_scale == 0 {
        return 0;
    }
    let f = to_f64(x);
    if f <= 0.0 {
        return 0;
    }
    let t = f * emission_scale as f64;
    if t >= u64::MAX as f64 {
        return u64::MAX;
    }
    t.round().max(0.0) as u64
}

fn buy(
    mkt: &mut Market,
    ledger: &mut MintLedger,
    neuron: NeuronId,
    d_yes: Fx,
    d_no: Fx,
    emission_scale: u64,
) -> Result<u64, MarketError> {
    let (pos, delta) = mkt.quote_buy(neuron, d_yes, d_no)?;
    let price = fx_to_tokens(delta, emission_scale);
    mkt.settle_buy(ledger, neuron, pos, price)
}

fn sell(
    mkt: &mut Market,
    ledger: &mut MintLedger,
    neuron: NeuronId,
    d_yes: Fx,
    d_no: Fx,
    emission_scale: u64,
) -> Result<u64, MarketError> {
    let (pos, delta) = mkt.quote_sell(neuron, d_yes, d_no)?;
    let refund = fx_to_tokens(delta, emission_scale);
    mkt.settle_sell(ledger, neuron, pos, refund)
}

fn market() -> (Market, MintLedger) {
    let m = Market::new(h(0xA), h(0xE), h(0xF), Fx::one());
    (m, MintLedger::new())
}

#[test]
fn cost_matches_pythagorean_triple() {
    // 3-4-5: λ=1, s_Y=3, s_N=4 → cost = 5 exactly.
    let c = cost(Fx::one(), Fx::from_int(3), Fx::from_int(4));
    assert!((to_f64(c) - 5.0).abs() < 1e-9, "cost={}", to_f64(c));
}

#[test]
fn cost_is_zero_at_origin() {
    assert_eq!(cost(Fx::one(), Fx::zero(), Fx::zero()), Fx::zero());
}

#[test]
fn buy_debits_trader_and_credits_reserve_by_the_same_amount() {
    let (mut mkt, mut ledger) = market();
    ledger.mint_batch(mkt.escrow_token, &[(h(1), 1_000)]).unwrap();

    let price = buy(&mut mkt, &mut ledger, h(1), Fx::from_int(3), Fx::from_int(4), 1).unwrap();

    assert!(price > 0);
    assert_eq!(ledger.balance(&h(1), &mkt.escrow_token), 1_000 - price);
    assert_eq!(mkt.reserve(&ledger), price);
    assert!(ledger.check_token(mkt.escrow_token));
}

#[test]
fn sell_refunds_from_reserve_and_shrinks_position() {
    let (mut mkt, mut ledger) = market();
    ledger.mint_batch(mkt.escrow_token, &[(h(1), 1_000)]).unwrap();
    buy(&mut mkt, &mut ledger, h(1), Fx::from_int(3), Fx::from_int(4), 1).unwrap();

    let refund = sell(&mut mkt, &mut ledger, h(1), Fx::from_int(3), Fx::from_int(4), 1).unwrap();

    assert_eq!(mkt.position(&h(1)), Position::default());
    assert_eq!(mkt.reserve(&ledger), 0);
    assert_eq!(refund, 5); // round trip on an exact Pythagorean triple is lossless
    assert_eq!(ledger.balance(&h(1), &mkt.escrow_token), 1_000);
    assert!(ledger.check_token(mkt.escrow_token));
}

#[test]
fn partial_sell_leaves_a_smaller_position_and_a_smaller_refund() {
    let (mut mkt, mut ledger) = market();
    ledger.mint_batch(mkt.escrow_token, &[(h(1), 1_000)]).unwrap();
    buy(&mut mkt, &mut ledger, h(1), Fx::from_int(6), Fx::from_int(8), 1).unwrap(); // cost 10

    let refund = sell(&mut mkt, &mut ledger, h(1), Fx::from_int(3), Fx::from_int(4), 1).unwrap();

    // cost(3,4) = 5, so selling half the shares (which is not half the cost,
    // since cost is not linear) refunds cost(6,8) - cost(3,4) = 10 - 5 = 5.
    assert_eq!(refund, 5);
    assert_eq!(mkt.position(&h(1)), Position { s_yes: Fx::from_int(3), s_no: Fx::from_int(4) });
    assert!(ledger.check_token(mkt.escrow_token));
}

#[test]
fn buy_rejects_negative_shares() {
    let (mut mkt, mut ledger) = market();
    assert_eq!(
        buy(&mut mkt, &mut ledger, h(1), Fx::from_int(-1), Fx::zero(), 1),
        Err(MarketError::NegativeShares)
    );
}

#[test]
fn sell_rejects_more_than_the_held_position() {
    let (mut mkt, mut ledger) = market();
    ledger.mint_batch(mkt.escrow_token, &[(h(1), 1_000)]).unwrap();
    buy(&mut mkt, &mut ledger, h(1), Fx::from_int(1), Fx::zero(), 1).unwrap();

    assert_eq!(
        sell(&mut mkt, &mut ledger, h(1), Fx::from_int(2), Fx::zero(), 1),
        Err(MarketError::InsufficientPosition)
    );
}

#[test]
fn two_traders_share_one_market_and_stay_conserved() {
    let (mut mkt, mut ledger) = market();
    ledger.mint_batch(mkt.escrow_token, &[(h(1), 1_000), (h(2), 1_000)]).unwrap();

    buy(&mut mkt, &mut ledger, h(1), Fx::from_int(3), Fx::from_int(4), 1).unwrap();
    buy(&mut mkt, &mut ledger, h(2), Fx::from_int(6), Fx::from_int(8), 1).unwrap();

    assert!(ledger.check_token(mkt.escrow_token));
    assert_eq!(mkt.reserve(&ledger), ledger.total_minted(&mkt.escrow_token) - 2_000);
}

#[test]
fn quote_buy_prices_the_cost_increase() {
    let (mkt, _) = market();
    let (pos, delta) = mkt.quote_buy(h(1), Fx::from_int(3), Fx::from_int(4)).unwrap();
    assert_eq!(pos, Position { s_yes: Fx::from_int(3), s_no: Fx::from_int(4) });
    assert_eq!(delta, Fx::from_int(5));
    assert_eq!(mkt.quote_buy(h(1), Fx::zero(), Fx::from_int(-1)), Err(MarketError::NegativeShares));
}

#[test]
fn settle_buy_without_funds_changes_nothing() {
    let (mut mkt, mut ledger) = market();
    ledger.mint_batch(mkt.escrow_token, &[(h(1), 3)]).unwrap();
    let pos = Position { s_yes: Fx::from_int(3), s_no: Fx::from_int(4) };
    assert_eq!(
        mkt.settle_buy(&mut ledger, h(1), pos, 5),
        Err(MarketError::Ledger(LedgerError::Insufficient { have: 3, need: 5 }))
    );
    assert_eq!(mkt.position(&h(1)), Position::default());
    assert_eq!(ledger.balance(&h(1), &mkt.escrow_token), 3);
}

#[test]
fn a_free_trade_only_moves_the_position() {
    let (mut mkt, mut ledger) = market();
    let pos = Position { s_yes: Fx::from_ratio(1, 1000), s_no: Fx::zero() };
    assert_eq!(mkt.settle_buy(&mut ledger, h(1), pos, 0), Ok(0));
    assert_eq!(mkt.position(&h(1)), pos);
    assert_eq!(mkt.reserve(&ledger), 0);
    assert_eq!(mkt.settle_sell(&mut ledger, h(1), Position::default(), 0), Ok(0));
    assert_eq!(mkt.position(&h(1)), Position::default());
}

#[test]
fn a_refund_the_reserve_cannot_cover_is_refused() {
    let (mut mkt, mut ledger) = market();
    assert_eq!(
        mkt.settle_sell(&mut ledger, h(1), Position::default(), 2),
        Err(MarketError::Ledger(LedgerError::Insufficient { have: 0, need: 2 }))
    );
}

#[test]
fn cost_never_falls_as_a_position_grows() {
    let lambda = Fx::from_ratio(3, 2);
    let mut prev = cost(lambda, Fx::zero(), Fx::zero());
    for k in 1..20i64 {
        let c = cost(lambda, Fx::from_int(k), Fx::from_ratio(k, 3));
        assert!(prev.le(&c), "k={k}");
        prev = c;
    }
    assert!(cost(lambda, Fx::from_int(3), Fx::from_int(4)).le(&cost(lambda, Fx::from_int(3), Fx::from_int(5))));
}
