use tok::fixed::Fx;
use tok::ids::{NeuronId, TokenId};
use tok::ledger::{LedgerError, MintLedger};
use tok::referral::{birth_mint, BirthMintReceipt, ReferralError};

fn t() -> TokenId {
    [9u8; 32]
}
fn newcomer() -> NeuronId {
    [3u8; 32]
}
fn referrer() -> NeuronId {
    [4u8; 32]
}

#[test]
fn birth_mint_splits_by_referral_share() {
    let mut led = MintLedger::new();
    let rec = birth_mint(&mut led, t(), newcomer(), Some(referrer()), 1000, Fx::from_ratio(1, 10)).unwrap();
    assert_eq!(rec.referrer_amount, 100);
    assert_eq!(rec.neuron_amount, 900);
    assert!(led.check_token(t()));
    assert_eq!(led.supply(&t()), 1000);
    assert_eq!(led.balance(&referrer(), &t()), 100);
    assert_eq!(led.balance(&newcomer(), &t()), 900);
}

#[test]
fn birth_mint_with_no_referrer_pays_home_in_full() {
    let mut led = MintLedger::new();
    let rec = birth_mint(&mut led, t(), newcomer(), None, 1000, Fx::from_ratio(1, 10)).unwrap();
    assert_eq!(rec.referrer_amount, 0);
    assert_eq!(rec.neuron_amount, 1000);
    assert_eq!(led.balance(&newcomer(), &t()), 1000);
}

#[test]
fn self_referral_is_rejected_and_mints_nothing() {
    let mut led = MintLedger::new();
    let err = birth_mint(&mut led, t(), newcomer(), Some(newcomer()), 1000, Fx::from_ratio(1, 10)).unwrap_err();
    assert_eq!(err, ReferralError::SelfReferral);
    assert_eq!(led.supply(&t()), 0);
}

#[test]
fn zero_share_pays_the_referrer_nothing() {
    let mut led = MintLedger::new();
    let rec = birth_mint(&mut led, t(), newcomer(), Some(referrer()), 1000, Fx::zero()).unwrap();
    assert_eq!(rec.referrer_amount, 0);
    assert_eq!(rec.neuron_amount, 1000);
}

#[test]
fn full_share_pays_the_referrer_everything() {
    let mut led = MintLedger::new();
    let rec = birth_mint(&mut led, t(), newcomer(), Some(referrer()), 1000, Fx::one()).unwrap();
    assert_eq!(rec.referrer_amount, 1000);
    assert_eq!(rec.neuron_amount, 0);
    assert!(led.check_token(t()));
}

#[test]
fn share_above_one_is_clamped_to_the_whole_mint() {
    let mut led = MintLedger::new();
    let rec = birth_mint(&mut led, t(), newcomer(), Some(referrer()), 1000, Fx::from_int(3)).unwrap();
    assert_eq!(rec, BirthMintReceipt { neuron_amount: 0, referrer_amount: 1000 });
    assert!(led.check_token(t()));
}

#[test]
fn split_is_conserved_and_floored_across_a_sweep() {
    // Every (total, r) pair mints exactly `total`, the referrer's leg is
    // floor(total · r) — never more than the share promised — and the
    // ledger's own conservation check holds after the batch.
    for total in [1u64, 2, 3, 7, 99, 1000, 123_456_789, u64::MAX / 4] {
        for (num, den) in [(1, 10), (1, 3), (2, 3), (1, 7), (999, 1000), (1, 1_000_000)] {
            let r = Fx::from_ratio(num, den);
            let mut led = MintLedger::new();
            let rec = birth_mint(&mut led, t(), newcomer(), Some(referrer()), total, r).unwrap();
            assert_eq!(rec.neuron_amount + rec.referrer_amount, total, "total={total} r={num}/{den}");
            assert_eq!(led.supply(&t()), total);
            assert!(led.check_token(t()));
            // floor(total·num/den) up to r's own 2^-32 rounding, which
            // scales with total: tolerance (total >> 32) + 1.
            let exact = (total as u128 * num as u128 / den as u128) as u64;
            let tol = (total >> 32) + 1;
            assert!(
                rec.referrer_amount + tol >= exact && rec.referrer_amount <= exact + tol,
                "total={total} r={num}/{den} got={} exact={exact}",
                rec.referrer_amount
            );
        }
    }
}

#[test]
fn referral_share_is_floor_of_total_times_r() {
    // r = 1/4 is exact in fixed point: floor(10 · 1/4) = 2.
    let mut led = MintLedger::new();
    let rec = birth_mint(&mut led, t(), newcomer(), Some(referrer()), 10, Fx::from_ratio(1, 4)).unwrap();
    assert_eq!(rec, BirthMintReceipt { neuron_amount: 8, referrer_amount: 2 });
    let mut led = MintLedger::new();
    let rec = birth_mint(&mut led, t(), newcomer(), Some(referrer()), 10, Fx::from_int(-1)).unwrap();
    assert_eq!(rec, BirthMintReceipt { neuron_amount: 10, referrer_amount: 0 });
}

#[test]
fn a_birth_mint_that_breaks_conservation_is_a_ledger_error() {
    let mut led = MintLedger::new();
    led.mint_batch(t(), &[(newcomer(), u64::MAX)]).unwrap();
    led.burn(newcomer(), t(), 1).unwrap();
    let err = birth_mint(&mut led, t(), referrer(), None, 5, Fx::zero()).unwrap_err();
    assert_eq!(err, ReferralError::Ledger(LedgerError::BurnExceedsMint));
    assert_eq!(led.balance(&referrer(), &t()), 0);
}
