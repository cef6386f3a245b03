//! Referring an inactive or Sybil account yields zero.
//!
//! A referral payout is a conserved two-way split of a book's
//! activity-derived budget, made by the same conservation + allocation path
//! as settle mints, so the split inherits its conservation guarantee. An
//! inactive or fake book has zero activity by definition, so referring it
//! pays nothing. The allocation itself prices mass in tokens in floating
//! point, so a payout is planned here, allocated by the caller through
//! conservation + allocation, and read back here.

use vstd::prelude::*;

use crate::conservation::{amount_sum, ConserveError, ConserveResult};
use crate::fixed::{fx_sub, scale, Fx};
use crate::service_fee::clip_unit_spec;

verus! {

/// Referral payout split for one book: `referrer + newcomer == book_activity`
/// whenever `book_activity > 0`; both zero when it is not.
#[derive(Clone, Copy, Debug, PartialEq, Eq, Structural)]
pub struct ReferralPayout {
    pub referrer: u64,
    pub newcomer: u64,
}

/// The next step of a referral payout.
#[derive(Debug)]
pub enum PayoutStep {
    /// Settled without an allocation.
    Done(ReferralPayout),
    /// Allocate `book_activity` tokens over these raw shares (referrer first,
    /// newcomer second), ceiling one, then read the result back with
    /// [`referral_payout_finish`].
    Allocate(Vec<([u8; 32], Fx)>),
}

/// Plan the split of `book_activity` tokens between referrer (share `r`,
/// clipped to `[0, 1]`) and newcomer (share `1 − r`). `book_activity == 0` —
/// an inactive or Sybil book — always yields zero to both sides, for any `r`.
pub fn referral_payout_start(referrer: [u8; 32], newcomer: [u8; 32], r: Fx, book_activity: u64) -> (s: PayoutStep)
    ensures
        book_activity == 0 ==> s == PayoutStep::Done((ReferralPayout { referrer: 0, newcomer: 0 })),
        book_activity != 0 ==> (s matches PayoutStep::Allocate(raw) && raw@.len() == 2 && raw@[0].0 == referrer
            && raw@[0].1@ == clip_unit_spec(r@) && raw@[1].0 == newcomer && raw@[1].1@ == fx_sub(
            scale(),
            clip_unit_spec(r@),
        )),
{
    if book_activity == 0 {
        return PayoutStep::Done(ReferralPayout { referrer: 0, newcomer: 0 });
    }
    let r = if r.lt(&Fx::zero()) {
        Fx::zero()
    } else if r.gt(&Fx::one()) {
        Fx::one()
    } else {
        r
    };
    let raw = vec![(referrer, r), (newcomer, Fx::one().sub(r))];
    PayoutStep::Allocate(raw)
}

/// Read a referral payout back from the allocation of its two shares: the
/// referrer's amount first, the newcomer's second; nothing to either side
/// when the allocation failed.
pub fn referral_payout_finish(alloc: Result<Vec<ConserveResult>, ConserveError>) -> (p: ReferralPayout)
    requires
        (alloc matches Ok(out) ==> out@.len() == 2),
    ensures
        alloc is Err ==> p == (ReferralPayout { referrer: 0, newcomer: 0 }),
        (alloc matches Ok(out) ==> p.referrer == out@[0].amount && p.newcomer == out@[1].amount
            && p.referrer + p.newcomer == amount_sum(out@)),
{
    match alloc {
        Ok(out) => {
            proof {
                let s = out@;
                assert(s.drop_last().drop_last() =~= Seq::<ConserveResult>::empty());
                assert(amount_sum(s.drop_last().drop_last()) == 0);
                assert(s.drop_last().last() == s[0]);
                assert(amount_sum(s.drop_last()) == s[0].amount);
                assert(amount_sum(s) == s[0].amount + s[1].amount);
            }
            ReferralPayout { referrer: out[0].amount, newcomer: out[1].amount }
        },
        Err(_) => ReferralPayout { referrer: 0, newcomer: 0 },
    }
}

} // verus!
