use tok::fixed::Fx;
use tok::ids::NeuronId;
use tok::stake::{stake_yield_shares, StakePosition};

fn n(b: u8) -> NeuronId {
    [b; 32]
}

fn passive(neuron: u8, amount: u128) -> StakePosition {
    StakePosition { neuron: n(neuron), amount, valence: 0, karma: Fx::one() }
}

fn active(neuron: u8, amount: u128, karma: Fx) -> StakePosition {
    StakePosition { neuron: n(neuron), amount, valence: 1, karma }
}

fn sum(shares: &[(NeuronId, Fx)]) -> Fx {
    shares.iter().fold(Fx::zero(), |acc, (_, s)| acc.add(*s))
}

#[test]
fn idle_capital_earns_nothing() {
    // A single, enormous passive stake — pure rank purchase, no risk.
    let positions = [passive(1, 1_000_000_000_000)];
    let shares = stake_yield_shares(&positions, Fx::from_int(1000));
    assert_eq!(shares, vec![(n(1), Fx::zero())]);
}

#[test]
fn sybil_split_earns_nothing() {
    // The same idle capital split across many identities stays passive in
    // every piece — Sybil-splitting a purchase does not turn it into risk.
    let positions: Vec<StakePosition> = (1..=50).map(|i| passive(i, 10_000)).collect();
    let shares = stake_yield_shares(&positions, Fx::from_int(1000));
    assert!(shares.iter().all(|(_, s)| s.is_zero()));
}

#[test]
fn no_active_stake_leaves_the_pool_unclaimed() {
    let positions = [passive(1, 500), passive(2, 500)];
    let shares = stake_yield_shares(&positions, Fx::from_int(1000));
    assert!(shares.iter().all(|(_, s)| s.is_zero()));
}

#[test]
fn active_stake_shares_proportionally_by_amount_and_karma() {
    // Equal karma, amounts 300:100 → a 3:1 split of the pool.
    let positions = [active(1, 300, Fx::one()), active(2, 100, Fx::one())];
    let shares = stake_yield_shares(&positions, Fx::from_int(100));
    assert_eq!(shares[0], (n(1), Fx::from_int(75)));
    assert_eq!(shares[1], (n(2), Fx::from_int(25)));
}

#[test]
fn karma_weights_active_stake_within_the_active_pool() {
    // Equal amounts, karma 3:1 → still a 3:1 split — reputation matters
    // as much as capital for the active share.
    let positions = [active(1, 100, Fx::from_int(3)), active(2, 100, Fx::from_int(1))];
    let shares = stake_yield_shares(&positions, Fx::from_int(100));
    assert_eq!(shares[0], (n(1), Fx::from_int(75)));
    assert_eq!(shares[1], (n(2), Fx::from_int(25)));
}

#[test]
fn passive_stake_is_excluded_even_when_mixed_with_active() {
    // A large passive position sits alongside two equal active ones — the
    // passive stake must not dilute or claim any part of the pool.
    let positions = [passive(9, 10_000_000), active(1, 50, Fx::one()), active(2, 50, Fx::one())];
    let shares = stake_yield_shares(&positions, Fx::from_int(100));
    assert_eq!(shares[0], (n(9), Fx::zero()));
    assert_eq!(shares[1], (n(1), Fx::from_int(50)));
    assert_eq!(shares[2], (n(2), Fx::from_int(50)));
}

#[test]
fn shares_conserve_the_pool() {
    let positions = [active(1, 30, Fx::one()), active(2, 50, Fx::one()), active(3, 20, Fx::one())];
    let pool = Fx::from_int(1000);
    let shares = stake_yield_shares(&positions, pool);
    assert_eq!(sum(&shares), pool);
}

#[test]
fn shares_conserve_the_pool_across_a_sweep() {
    // Rounded fixed-point quotients do not sum exactly on their own
    // (a=1, b=1, c=30 misses by dust without the residual rule); every
    // combination here must conserve the pool exactly.
    for a in 1..=13u128 {
        for b in 1..=13u128 {
            for c in [1u128, 7, 30, 1_000_000] {
                let positions = [
                    passive(9, 5_000),
                    active(1, a, Fx::one()),
                    active(2, b, Fx::from_ratio(1, 3)),
                    active(3, c, Fx::one()),
                ];
                let pool = Fx::from_int(1000);
                let shares = stake_yield_shares(&positions, pool);
                assert_eq!(sum(&shares), pool, "a={a} b={b} c={c}");
                assert!(shares.iter().all(|(_, s)| s.ge(&Fx::zero())), "a={a} b={b} c={c}");
                assert_eq!(shares[0].1, Fx::zero());
            }
        }
    }
}

#[test]
fn splitting_active_stake_across_identities_is_reward_neutral() {
    // Stake-weighting makes identity-splitting reward-neutral. One active
    // position of 600 against a rival of 400 earns the same total as the
    // same 600 split into six identities of 100.
    let pool = Fx::from_int(1000);
    let whole = [active(1, 600, Fx::one()), active(2, 400, Fx::one())];
    let whole_share = stake_yield_shares(&whole, pool)[0].1;
    let mut split: Vec<StakePosition> = (10..16).map(|i| active(i, 100, Fx::one())).collect();
    split.push(active(2, 400, Fx::one()));
    let shares = stake_yield_shares(&split, pool);
    let split_total = sum(&shares[..6]);
    // Equal up to fixed-point dust: six rounded quotients against one,
    // each off by at most 2^-32 — bounded here at one millionth of a token.
    let gap = if split_total.gt(&whole_share) { split_total.sub(whole_share) } else { whole_share.sub(split_total) };
    assert!(gap.lt(&Fx::from_ratio(1, 1_000_000)), "gap={gap:?}");
    let six_hundred = Fx::from_int(600);
    let gap600 = if whole_share.gt(&six_hundred) { whole_share.sub(six_hundred) } else { six_hundred.sub(whole_share) };
    assert!(gap600.lt(&Fx::from_ratio(1, 1_000_000)), "whole={whole_share:?}");
}

#[test]
fn no_positions_no_shares() {
    assert!(stake_yield_shares(&[], Fx::from_int(10)).is_empty());
}

#[test]
fn negative_valence_is_active_too() {
    let short = StakePosition { neuron: n(1), amount: 100, valence: -1, karma: Fx::one() };
    let shares = stake_yield_shares(&[short, active(2, 100, Fx::one())], Fx::from_int(10));
    assert_eq!(shares, vec![(n(1), Fx::from_int(5)), (n(2), Fx::from_int(5))]);
}
