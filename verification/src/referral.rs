//! Referral birth allocation: a share `r` of a book's birth mint goes to the
//! referrer whose cyberlink named the newcomer; the rest mints home to the
//! neuron the book belongs to. `r` is a genesis parameter, not fixed here.

use vstd::prelude::*;

use crate::fixed::{scale, Fx};
use crate::ids::{id_eq, NeuronId, TokenId};
use crate::ledger::{legs_to, legs_total, sat_add, LedgerError, MintLedger};

verus! {

#[derive(Debug, PartialEq, Eq, Structural)]
pub enum ReferralError {
    /// A neuron cannot be its own referrer.
    SelfReferral,
    Ledger(LedgerError),
}

impl From<LedgerError> for ReferralError {
    fn from(e: LedgerError) -> (r: Self) {
        ReferralError::Ledger(e)
    }
}

impl vstd::std_specs::convert::FromSpecImpl<LedgerError> for ReferralError {
    open spec fn obeys_from_spec() -> bool {
        true
    }

    open spec fn from_spec(v: LedgerError) -> ReferralError {
        ReferralError::Ledger(v)
    }
}

/// Split of a book's birth mint between the neuron and its referrer.
#[derive(Clone, Copy, Debug, PartialEq, Eq, Structural)]
pub struct BirthMintReceipt {
    pub neuron_amount: u64,
    pub referrer_amount: u64,
}

/// `floor(total · r)` with `r` taken as its scaled integer; nothing for
/// `r ≤ 0`, everything for `r ≥ 1`.
pub open spec fn referral_share_spec(total: int, r: int) -> int {
    if r <= 0 {
        0
    } else if r >= scale() {
        total
    } else {
        (total * r) / scale()
    }
}

/// The referrer's cut: the share for a referrer, nothing without one.
pub open spec fn referrer_cut(referrer: Option<NeuronId>, total: int, r: int) -> int {
    if referrer is Some {
        referral_share_spec(total, r)
    } else {
        0
    }
}

/// The mint legs of a birth: the neuron's part, then the referrer's, each
/// only when positive.
pub open spec fn birth_legs(
    neuron: NeuronId,
    referrer: Option<NeuronId>,
    neuron_amount: int,
    referrer_amount: int,
) -> Seq<(NeuronId, u64)> {
    let home = if neuron_amount > 0 {
        seq![(neuron, neuron_amount as u64)]
    } else {
        Seq::empty()
    };
    if referrer is Some && referrer_amount > 0 {
        home.push((referrer->0, referrer_amount as u64))
    } else {
        home
    }
}

/// Mint a book's birth supply of `total` tokens. With a referrer, a share
/// `r` of `total` mints to the referrer and the rest to the neuron; with no
/// referrer the whole amount mints home. Both legs commit atomically.
pub fn birth_mint(
    ledger: &mut MintLedger,
    token: TokenId,
    neuron: NeuronId,
    referrer: Option<NeuronId>,
    total: u64,
    r: Fx,
) -> (res: Result<BirthMintReceipt, ReferralError>)
    ensures
        referrer == Some(neuron) ==> res == Err::<BirthMintReceipt, ReferralError>(
            ReferralError::SelfReferral,
        ) && *final(ledger) == *old(ledger),
        ({
            let ra = referrer_cut(referrer, total as int, r@);
            let na = total - ra;
            let legs = birth_legs(neuron, referrer, na, ra);
            &&& referrer != Some(neuron) ==> 0 <= ra <= total
            &&& referrer != Some(neuron) && old(ledger).mint_conserves(token, legs) ==> {
                &&& res == Ok::<BirthMintReceipt, ReferralError>(
                    BirthMintReceipt { neuron_amount: na as u64, referrer_amount: ra as u64 },
                )
                &&& final(ledger).minted_of(token) == sat_add(old(ledger).minted_of(token) as int, total as int)
                &&& forall|n: NeuronId|
                    #[trigger] final(ledger).balance_of(n, token) == sat_add(
                        old(ledger).balance_of(n, token) as int,
                        legs_to(legs, n),
                    )
                &&& final(ledger).same_except(*old(ledger), token)
            }
            &&& referrer != Some(neuron) && !old(ledger).mint_conserves(token, legs) ==> res == Err::<
                BirthMintReceipt,
                ReferralError,
            >(ReferralError::Ledger(LedgerError::BurnExceedsMint)) && *final(ledger) == *old(ledger)
            &&& referrer != Some(neuron) && old(ledger).minted_of(token) + total <= u64::MAX
                ==> old(ledger).mint_conserves(token, legs)
        }),
{
    ledger.conservation_holds();
    let self_referral = match referrer {
        Some(rn) => id_eq(&rn, &neuron),
        None => false,
    };
    if self_referral {
        return Err(ReferralError::SelfReferral);
    }
    let referrer_amount = match referrer {
        Some(_) => referral_share(total, r),
        None => 0,
    };
    let neuron_amount = total - referrer_amount;
    let mut legs: Vec<(NeuronId, u64)> = Vec::new();
    if neuron_amount > 0 {
        legs.push((neuron, neuron_amount));
    }
    match referrer {
        Some(ref_neuron) => {
            if referrer_amount > 0 {
                legs.push((ref_neuron, referrer_amount));
            }
        },
        None => {},
    }
    proof {
        let na = neuron_amount as int;
        let ra = referrer_amount as int;
        assert(legs@ =~= birth_legs(neuron, referrer, na, ra));
        let home: Seq<(NeuronId, u64)> = if na > 0 {
            seq![(neuron, na as u64)]
        } else {
            Seq::empty()
        };
        assert(legs_total(Seq::<(NeuronId, u64)>::empty()) == 0);
        assert(home.len() == 0 ==> legs_total(home) == 0);
        assert(home.len() == 1 ==> home.drop_last() =~= Seq::<(NeuronId, u64)>::empty());
        assert(legs_total(home) == na);
        if referrer is Some && ra > 0 {
            assert(home.push((referrer->0, ra as u64)).drop_last() =~= home);
        }
        assert(legs_total(legs@) == total);
        if total == 0 {
            assert(legs@.len() == 0);
            assert(crate::ledger::credit_gain(
                |n: NeuronId| ledger.balance_of(n, token) as int,
                legs@,
            ) == 0);
            assert(ledger.token_total(token) == ledger.minted_of(token) - ledger.burned_of(token));
            assert(ledger.mint_conserves(token, legs@));
            assert forall|n: NeuronId| legs_to(legs@, n) == 0 by {}
        }
    }
    match ledger.mint_batch(token, legs.as_slice()) {
        Ok(_) => {},
        Err(e) => {
            return Err(ReferralError::Ledger(e));
        },
    }
    Ok(BirthMintReceipt { neuron_amount, referrer_amount })
}

/// `floor(total · r)` in fixed point: `r` is carried as `round(r · 2^32)`,
/// so the product is an exact u128 multiply and a shift, no float on the
/// path. `r ≤ 0` pays nothing; `r ≥ 1` is clamped so the referrer never
/// receives more than the birth mint itself.
fn referral_share(total: u64, r: Fx) -> (s: u64)
    ensures
        s == referral_share_spec(total as int, r@),
        s <= total,
{
    if r.le(&Fx::zero()) {
        return 0;
    }
    if r.ge(&Fx::one()) {
        return total;
    }
    let scaled = r.raw() as u128;
    proof {
        assert(total * scaled <= total * scale()) by (nonlinear_arith)
            requires
                scaled <= scale(),
        ;
        assert((total * scaled) / scale() <= total) by (nonlinear_arith)
            requires
                0 <= total * scaled <= total * scale(),
                scale() == 4294967296,
        ;
    }
    ((total as u128 * scaled) / 4294967296u128) as u64
}

} // verus!
