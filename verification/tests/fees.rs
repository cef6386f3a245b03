use tok::book::{BookError, BookRegistry};
use tok::fees::{distribute_fees, fee_pool, FeeReceipt};
use tok::fixed::Fx;
use tok::ids::{NeuronId, TokenId};
use tok::ledger::{LedgerError, MintLedger};
use tok::referral::birth_mint;

fn n(b: u8) -> NeuronId {
    let mut x = [0u8; 32];
    x[0] = b;
    x[1] = 0xEE;
    x
}
fn n2(i: u32) -> NeuronId {
    let mut x = [0u8; 32];
    x[..4].copy_from_slice(&i.to_le_bytes());
    x[4] = 0xFA;
    x
}
fn r() -> Fx {
    Fx::from_ratio(1, 10)
}

/// Root `newcomer`'s book with `referrer` linking the name; birth mint 1000.
fn refer(ledger: &mut MintLedger, reg: &mut BookRegistry, referrer: NeuronId, newcomer: NeuronId) -> TokenId {
    let token = reg.root(newcomer).unwrap();
    birth_mint(ledger, token, newcomer, Some(referrer), 1000, r()).unwrap();
    token
}

/// A client acquires `amount` of the book's token and pays it as fees.
fn pay_fees(ledger: &mut MintLedger, token: TokenId, client: NeuronId, amount: u64) {
    ledger.mint_batch(token, &[(client, amount)]).unwrap();
    ledger.transfer(client, fee_pool(&token), token, amount).unwrap();
}

#[test]
fn inactive_book_pays_the_referrer_nothing() {
    let (mut led, mut reg) = (MintLedger::new(), BookRegistry::new());
    let token = refer(&mut led, &mut reg, n(1), n(2));
    assert_eq!(led.balance(&n(1), &token), 100); // birth share held, worth its fees: none
    let rec = distribute_fees(&mut led, token).unwrap();
    assert_eq!(rec, FeeReceipt { distributed: 0, payouts: vec![] });
    assert_eq!(led.balance(&n(1), &token), 100);
    assert!(led.check_token(token));
}

#[test]
fn sybil_swarm_of_fake_books_yields_zero_fee_income() {
    // One referrer links 500 fake names. Every book is rooted and birth-
    // minted, so the referrer holds r of 500 tokens — and collects nothing,
    // because none of the 500 books ever earns a fee.
    let (mut led, mut reg) = (MintLedger::new(), BookRegistry::new());
    let referrer = n(1);
    let tokens: Vec<TokenId> = (0..500u32).map(|i| refer(&mut led, &mut reg, referrer, n2(i))).collect();
    let mut income = 0u64;
    for token in &tokens {
        let before = led.balance(&referrer, token);
        let rec = distribute_fees(&mut led, *token).unwrap();
        income += rec.distributed;
        assert_eq!(led.balance(&referrer, token), before);
        assert!(led.check_token(*token));
    }
    assert_eq!(income, 0);
}

#[test]
fn genuine_book_pays_holders_pro_rata_under_conservation() {
    let (mut led, mut reg) = (MintLedger::new(), BookRegistry::new());
    let token = refer(&mut led, &mut reg, n(1), n(2)); // referrer 100, newcomer 900
    pay_fees(&mut led, token, n(3), 500);
    let supply = led.supply(&token);
    let rec = distribute_fees(&mut led, token).unwrap();
    assert_eq!(rec.distributed, 500);
    assert_eq!(led.balance(&n(1), &token), 100 + 50); // r · fees
    assert_eq!(led.balance(&n(2), &token), 900 + 450);
    assert_eq!(led.balance(&fee_pool(&token), &token), 0);
    assert_eq!(led.supply(&token), supply);
    assert!(led.check_token(token));
}

#[test]
fn payout_scales_with_fees_collected_not_heads_referred() {
    // The referrer's income from 200 fake books plus one genuine book equals
    // its income from the genuine book alone.
    let income = |fakes: u32| {
        let (mut led, mut reg) = (MintLedger::new(), BookRegistry::new());
        let referrer = n(1);
        for i in 0..fakes {
            refer(&mut led, &mut reg, referrer, n2(i));
        }
        let real = refer(&mut led, &mut reg, referrer, n(7));
        pay_fees(&mut led, real, n(8), 12_340);
        let mut got = 0u64;
        for (_, t) in (0..fakes).map(|i| (i, BookRegistry::book_token(&n2(i)))).chain([(0, real)]) {
            let before = led.balance(&referrer, &t);
            distribute_fees(&mut led, t).unwrap();
            got += led.balance(&referrer, &t) - before;
        }
        got
    };
    let alone = income(0);
    assert_eq!(alone, 1_234); // r · fees at r = 1/10, holders 100:900
    assert_eq!(income(200), alone);
}

#[test]
fn distribution_is_exact_across_a_sweep() {
    // Random holder balances and fee sizes: Σ payouts == fees, the pool
    // empties, each payout is within one unit of floor(fees · b / Σb), and
    // the ledger's own conservation check holds after every distribution.
    let token = [0xCCu8; 32];
    let mut x: u64 = 0x2545_F491_4F6C_DD1D;
    let mut next = || {
        x = x.wrapping_mul(6364136223846793005).wrapping_add(1442695040888963407);
        x >> 33
    };
    for _ in 0..300 {
        let mut led = MintLedger::new();
        let k = 1 + (next() % 9) as u32;
        let holders: Vec<(NeuronId, u64)> = (0..k).map(|i| (n2(i), 1 + next() % 100_000)).collect();
        led.mint_batch(token, &holders).unwrap();
        let fees = next() % 1_000_000;
        pay_fees(&mut led, token, n(0x55), fees);
        let total: u128 = holders.iter().map(|(_, b)| *b as u128).sum();
        let rec = distribute_fees(&mut led, token).unwrap();
        assert_eq!(rec.distributed, fees);
        assert_eq!(rec.payouts.iter().map(|(_, a)| *a).sum::<u64>(), fees);
        assert_eq!(led.balance(&fee_pool(&token), &token), 0);
        assert!(led.check_token(token));
        for (h, b) in &holders {
            let got = led.balance(h, &token) - b;
            let floor = (fees as u128 * *b as u128 / total) as u64;
            assert!(got == floor || got == floor + 1, "got={got} floor={floor}");
        }
    }
}

#[test]
fn a_pool_with_no_holders_keeps_its_fees() {
    let token = [0xDDu8; 32];
    let mut led = MintLedger::new();
    pay_fees(&mut led, token, n(9), 77);
    // the client spent its whole balance; only the pool holds the token
    let rec = distribute_fees(&mut led, token).unwrap();
    assert_eq!(rec.distributed, 0);
    assert_eq!(led.balance(&fee_pool(&token), &token), 77);
    assert!(led.check_token(token));
}

#[test]
fn fee_pool_is_deterministic_and_distinct_per_token() {
    assert_eq!(fee_pool(&[1u8; 32]), fee_pool(&[1u8; 32]));
    assert_ne!(fee_pool(&[1u8; 32]), fee_pool(&[2u8; 32]));
    assert_ne!(fee_pool(&[1u8; 32]), BookRegistry::book_token(&[1u8; 32]));
}

#[test]
fn fee_pool_is_not_its_token() {
    assert_ne!(fee_pool(&[3u8; 32]), [3u8; 32]);
}

#[test]
fn leftover_units_go_to_the_largest_remainders_ties_to_the_smaller_id() {
    // Three equal holders and 10 fees: floors 3, 3, 3, one unit left; the
    // remainders tie, so the smallest id takes it.
    let token = [0xABu8; 32];
    let mut led = MintLedger::new();
    led.mint_batch(token, &[(n2(2), 5), (n2(1), 5), (n2(3), 5)]).unwrap();
    pay_fees(&mut led, token, n(0x55), 10);
    let rec = distribute_fees(&mut led, token).unwrap();
    assert_eq!(rec.payouts, vec![(n2(1), 4), (n2(2), 3), (n2(3), 3)]);
    // 1:2 split of 5 fees: floors 1 and 3, remainders 2 and 1 (over 3)
    let token2 = [0xACu8; 32];
    led.mint_batch(token2, &[(n(1), 1), (n(2), 2)]).unwrap();
    pay_fees(&mut led, token2, n(0x55), 5);
    let rec = distribute_fees(&mut led, token2).unwrap();
    assert_eq!(rec.payouts, vec![(n(1), 2), (n(2), 3)]);
}

#[test]
fn a_locked_pool_refuses_and_leaves_the_ledger_unchanged() {
    let token = [0xAEu8; 32];
    let mut led = MintLedger::new();
    led.mint_batch(token, &[(n(1), 1), (n(2), 3)]).unwrap();
    pay_fees(&mut led, token, n(0x55), 8);
    led.lock(fee_pool(&token), token, 3).unwrap();
    // legs: n(1) 2, n(2) 6; liquid 5 covers the first, not the second
    let err = distribute_fees(&mut led, token).unwrap_err();
    assert_eq!(err, LedgerError::Insufficient { have: 3, need: 6 });
    assert_eq!(led.balance(&fee_pool(&token), &token), 8);
    assert_eq!(led.balance(&n(1), &token), 1);
}

#[test]
fn root_once_then_refuse() {
    let mut reg = BookRegistry::new();
    assert!(!reg.is_rooted(&n(1)));
    assert_eq!(reg.book_of(&n(1)), None);
    let t = reg.root(n(1)).unwrap();
    assert_eq!(t, BookRegistry::book_token(&n(1)));
    assert!(reg.is_rooted(&n(1)));
    assert_eq!(reg.book_of(&n(1)), Some(t));
    assert_eq!(reg.root(n(1)), Err(BookError::AlreadyRooted));
    assert!(!reg.is_rooted(&n(2)));
    assert_ne!(reg.root(n(2)).unwrap(), t);
}
