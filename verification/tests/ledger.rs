use tok::ids::{NeuronId, TokenId};
use tok::ledger::{LedgerError, MintLedger};

fn t() -> TokenId {
    [7u8; 32]
}
fn a() -> NeuronId {
    [1u8; 32]
}
fn b() -> NeuronId {
    [2u8; 32]
}

#[test]
fn mint_preserves_conservation() {
    let mut led = MintLedger::new();
    led.mint_batch(t(), &[(a(), 100), (b(), 50)]).unwrap();
    assert!(led.check_token(t()));
    assert_eq!(led.supply(&t()), 150);
    assert_eq!(led.balance(&a(), &t()), 100);
}

#[test]
fn burn_preserves_conservation() {
    let mut led = MintLedger::new();
    led.mint_batch(t(), &[(a(), 100)]).unwrap();
    led.burn(a(), t(), 40).unwrap();
    assert!(led.check_token(t()));
    assert_eq!(led.supply(&t()), 60);
}

#[test]
fn lock_does_not_change_supply_or_balance() {
    let mut led = MintLedger::new();
    led.mint_batch(t(), &[(a(), 100)]).unwrap();
    led.lock(a(), t(), 60).unwrap();
    assert!(led.check_token(t()));
    assert_eq!(led.supply(&t()), 100);
    assert_eq!(led.balance(&a(), &t()), 100);
    assert_eq!(led.locked_balance(&a(), &t()), 60);
}

#[test]
fn lock_exceeding_balance_is_rejected() {
    let mut led = MintLedger::new();
    led.mint_batch(t(), &[(a(), 100)]).unwrap();
    let err = led.lock(a(), t(), 101).unwrap_err();
    assert_eq!(err, LedgerError::LockExceedsBalance { have: 100, locked: 0, need: 101 });
    assert_eq!(led.locked_balance(&a(), &t()), 0);
}

#[test]
fn lock_is_additive_across_calls() {
    let mut led = MintLedger::new();
    led.mint_batch(t(), &[(a(), 100)]).unwrap();
    led.lock(a(), t(), 30).unwrap();
    led.lock(a(), t(), 30).unwrap();
    assert_eq!(led.locked_balance(&a(), &t()), 60);
    let err = led.lock(a(), t(), 41).unwrap_err();
    assert_eq!(err, LedgerError::LockExceedsBalance { have: 100, locked: 60, need: 41 });
}

#[test]
fn unlock_returns_to_liquid() {
    let mut led = MintLedger::new();
    led.mint_batch(t(), &[(a(), 100)]).unwrap();
    led.lock(a(), t(), 60).unwrap();
    led.unlock(a(), t(), 25).unwrap();
    assert_eq!(led.locked_balance(&a(), &t()), 35);
    // now burnable up to the newly-unlocked amount
    led.burn(a(), t(), 65).unwrap();
    assert!(led.check_token(t()));
    assert_eq!(led.supply(&t()), 35);
}

#[test]
fn unlock_exceeding_locked_is_rejected() {
    let mut led = MintLedger::new();
    led.mint_batch(t(), &[(a(), 100)]).unwrap();
    led.lock(a(), t(), 40).unwrap();
    let err = led.unlock(a(), t(), 41).unwrap_err();
    assert_eq!(err, LedgerError::UnlockExceedsLocked { locked: 40, need: 41 });
    assert_eq!(led.locked_balance(&a(), &t()), 40);
}

#[test]
fn burn_cannot_touch_locked_balance() {
    let mut led = MintLedger::new();
    led.mint_batch(t(), &[(a(), 100)]).unwrap();
    led.lock(a(), t(), 70).unwrap();
    // only 30 is unlocked; a burn of 31 must fail even though the raw
    // balance (100) would cover it
    let err = led.burn(a(), t(), 31).unwrap_err();
    assert_eq!(err, LedgerError::Insufficient { have: 30, need: 31 });
    assert!(led.check_token(t()));
    assert_eq!(led.balance(&a(), &t()), 100);
    assert_eq!(led.locked_balance(&a(), &t()), 70);
}

#[test]
fn locked_balance_is_per_neuron_and_per_token() {
    let mut led = MintLedger::new();
    led.mint_batch(t(), &[(a(), 100), (b(), 100)]).unwrap();
    led.lock(a(), t(), 50).unwrap();
    assert_eq!(led.locked_balance(&a(), &t()), 50);
    assert_eq!(led.locked_balance(&b(), &t()), 0);
}

#[test]
fn mint_batch_of_nothing_changes_nothing() {
    let mut led = MintLedger::new();
    assert_eq!(led.mint_batch(t(), &[]), Ok(0));
    assert_eq!(led.mint_batch(t(), &[(a(), 0)]), Ok(0));
    assert_eq!(led.supply(&t()), 0);
    assert_eq!(led.total_minted(&t()), 0);
}

#[test]
fn mint_batch_returns_the_minted_total_and_tracks_totals() {
    let mut led = MintLedger::new();
    assert_eq!(led.mint_batch(t(), &[(a(), 10), (b(), 5), (a(), 1)]), Ok(16));
    assert_eq!(led.balance(&a(), &t()), 11);
    assert_eq!(led.total_minted(&t()), 16);
    led.burn(b(), t(), 5).unwrap();
    assert_eq!(led.total_burned(&t()), 5);
    assert_eq!(led.supply(&t()), 11);
    assert!(led.check_token(t()));
}

#[test]
fn burn_more_than_balance_is_insufficient() {
    let mut led = MintLedger::new();
    led.mint_batch(t(), &[(a(), 10)]).unwrap();
    assert_eq!(led.burn(a(), t(), 11), Err(LedgerError::Insufficient { have: 10, need: 11 }));
    assert_eq!(led.balance(&a(), &t()), 10);
}

#[test]
fn transfer_moves_liquid_balance_and_keeps_supply() {
    let mut led = MintLedger::new();
    led.mint_batch(t(), &[(a(), 100)]).unwrap();
    led.transfer(a(), b(), t(), 30).unwrap();
    assert_eq!(led.balance(&a(), &t()), 70);
    assert_eq!(led.balance(&b(), &t()), 30);
    assert_eq!(led.supply(&t()), 100);
    assert!(led.check_token(t()));
    led.lock(a(), t(), 60).unwrap();
    assert_eq!(led.transfer(a(), b(), t(), 11), Err(LedgerError::Insufficient { have: 10, need: 11 }));
    assert_eq!(led.balance(&a(), &t()), 70);
    led.transfer(a(), a(), t(), 10).unwrap();
    assert_eq!(led.balance(&a(), &t()), 70);
}

#[test]
fn holders_are_ascending_and_positive() {
    let mut led = MintLedger::new();
    led.mint_batch(t(), &[(b(), 5), (a(), 7)]).unwrap();
    led.mint_batch([9u8; 32], &[(a(), 1)]).unwrap();
    led.burn(b(), t(), 5).unwrap();
    assert_eq!(led.holders_of(&t()), vec![(a(), 7)]);
    led.mint_batch(t(), &[(b(), 2)]).unwrap();
    assert_eq!(led.holders_of(&t()), vec![(a(), 7), (b(), 2)]);
}

#[test]
fn a_cloned_ledger_is_independent_and_default_is_empty() {
    let mut led = MintLedger::default();
    assert_eq!(led.supply(&t()), 0);
    led.mint_batch(t(), &[(a(), 10)]).unwrap();
    let copy = led.clone();
    led.burn(a(), t(), 4).unwrap();
    assert_eq!(copy.balance(&a(), &t()), 10);
    assert_eq!(led.balance(&a(), &t()), 6);
    assert!(copy.check_token(t()));
}
