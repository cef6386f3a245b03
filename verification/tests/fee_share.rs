use tok::fee_share::{distribute_fees, FeeShare, FeeShareError};
use tok::ids::{NeuronId, TokenId};
use tok::ledger::MintLedger;

fn t() -> TokenId {
    [9u8; 32]
}
fn n(b: u8) -> NeuronId {
    let mut x = [0u8; 32];
    x[0] = b;
    x
}

#[test]
fn no_supply_is_an_error() {
    let ledger = MintLedger::new();
    assert_eq!(distribute_fees(&ledger, t(), 100), Err(FeeShareError::NoSupply));
}

#[test]
fn zero_fees_is_an_error() {
    let mut ledger = MintLedger::new();
    ledger.mint_batch(t(), &[(n(1), 100)]).unwrap();
    assert_eq!(distribute_fees(&ledger, t(), 0), Err(FeeShareError::FeesZero));
}

#[test]
fn sole_holder_takes_everything() {
    let mut ledger = MintLedger::new();
    ledger.mint_batch(t(), &[(n(1), 100)]).unwrap();
    let out = distribute_fees(&ledger, t(), 777).unwrap();
    assert_eq!(out, vec![FeeShare { holder: n(1), amount: 777 }]);
}

#[test]
fn splits_exactly_by_balance_ratio() {
    let mut ledger = MintLedger::new();
    ledger.mint_batch(t(), &[(n(1), 75), (n(2), 25)]).unwrap();
    let out = distribute_fees(&ledger, t(), 1000).unwrap();
    let by = |h| out.iter().find(|s| s.holder == h).unwrap().amount;
    assert_eq!(by(n(1)), 750);
    assert_eq!(by(n(2)), 250);
}

#[test]
fn sum_of_shares_conserves_fees_under_uneven_division() {
    let mut ledger = MintLedger::new();
    ledger.mint_batch(t(), &[(n(1), 7), (n(2), 11), (n(3), 13)]).unwrap();
    for fees in [1u64, 2, 3, 10, 31, 999, 1_000_003] {
        let out = distribute_fees(&ledger, t(), fees).unwrap();
        let paid: u64 = out.iter().map(|s| s.amount).sum();
        assert_eq!(paid, fees, "fees={fees}");
    }
}

#[test]
fn a_holder_with_zero_balance_is_excluded() {
    let mut ledger = MintLedger::new();
    ledger.mint_batch(t(), &[(n(1), 100)]).unwrap();
    ledger.burn(n(1), t(), 100).unwrap();
    ledger.mint_batch(t(), &[(n(2), 50)]).unwrap();
    let out = distribute_fees(&ledger, t(), 900).unwrap();
    assert_eq!(out, vec![FeeShare { holder: n(2), amount: 900 }]);
}

#[test]
fn different_token_holders_are_not_mixed_in() {
    let mut ledger = MintLedger::new();
    ledger.mint_batch(t(), &[(n(1), 100)]).unwrap();
    ledger.mint_batch([8u8; 32], &[(n(2), 900)]).unwrap();
    let out = distribute_fees(&ledger, t(), 50).unwrap();
    assert_eq!(out, vec![FeeShare { holder: n(1), amount: 50 }]);
}
