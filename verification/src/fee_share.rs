//! Pro-rata distribution of a personal book's fees to its $ν holders.
//!
//! Every current holder of a book's $ν token is owed `balance / supply` of
//! the fee budget the book collected; this module computes that split as an
//! exact integer partition of `fees`.

use vstd::prelude::*;

use crate::conservation::{
    floor_share, lemma_prefix_alloc_le_total, lemma_weight_le_sum, lemma_weights_nonneg,
    lemma_weights_prefix, prefix_alloc, weights_sum,
};
use crate::ids::{NeuronId, TokenId};
use crate::ledger::MintLedger;
use crate::slots::holders_sum;

verus! {

#[derive(Debug, PartialEq, Eq, Structural)]
pub enum FeeShareError {
    /// `nu_token` has no holders with a positive balance (supply is zero).
    NoSupply,
    /// Nothing to distribute.
    FeesZero,
}

/// One holder's pro-rata share of a book's fee budget.
#[derive(Clone, Copy, Debug, PartialEq, Eq)]
pub struct FeeShare {
    pub holder: NeuronId,
    pub amount: u64,
}

/// The holders' balances as split weights.
pub open spec fn balance_weights(h: Seq<(NeuronId, u64)>) -> Seq<u128> {
    h.map_values(|x: (NeuronId, u64)| x.1 as u128)
}

/// Holder `i`'s part of `fees`: `floor(fees · b_i / supply)`, the last
/// holder taking what flooring left over.
pub open spec fn fee_split(h: Seq<(NeuronId, u64)>, fees: int, i: int) -> int {
    let ws = balance_weights(h);
    let supply = weights_sum(ws);
    if i < h.len() - 1 {
        floor_share(ws[i] as int, fees, supply)
    } else {
        fees - prefix_alloc(ws, fees, supply, h.len() - 1)
    }
}

/// Σ of the amounts of a list of fee shares.
pub open spec fn shares_total(s: Seq<FeeShare>) -> int
    decreases s.len(),
{
    if s.len() == 0 {
        0
    } else {
        shares_total(s.drop_last()) + s.last().amount as int
    }
}

proof fn lemma_weights_match(h: Seq<(NeuronId, u64)>)
    ensures
        weights_sum(balance_weights(h)) == holders_sum(h),
    decreases h.len(),
{
    if h.len() > 0 {
        lemma_weights_match(h.drop_last());
        assert(balance_weights(h).drop_last() =~= balance_weights(h.drop_last()));
    }
}

proof fn lemma_positive_holders_sum(h: Seq<(NeuronId, u64)>)
    requires
        h.len() > 0,
        forall|i: int| 0 <= i < h.len() ==> #[trigger] h[i].1 > 0,
    ensures
        holders_sum(h) > 0,
    decreases h.len(),
{
    if h.len() > 1 {
        lemma_positive_holders_sum(h.drop_last());
    }
    let w = balance_weights(h.drop_last());
    lemma_weights_match(h.drop_last());
    lemma_weights_nonneg(w);
    assert(h[h.len() - 1].1 > 0);
}

/// Split `fees` (token units already collected by a book) pro rata across
/// every current holder of `nu_token`, weighted by ledger balance. Holders
/// come from the ledger in ascending neuron order; each gets the floor of
/// its share and the last holder the remainder, so `Σ amount == fees`.
pub fn distribute_fees(ledger: &MintLedger, nu_token: TokenId, fees: u64) -> (r: Result<Vec<FeeShare>, FeeShareError>)
    ensures
        fees == 0 ==> r == Err::<Vec<FeeShare>, FeeShareError>(FeeShareError::FeesZero),
        fees > 0 && ledger.holders_view(nu_token).len() == 0 ==> r == Err::<Vec<FeeShare>, FeeShareError>(
            FeeShareError::NoSupply,
        ),
        fees > 0 && ledger.holders_view(nu_token).len() > 0 ==> (r matches Ok(out) && {
            let h = ledger.holders_view(nu_token);
            &&& out@.len() == h.len()
            &&& forall|i: int|
                0 <= i < h.len() ==> (#[trigger] out@[i]).holder == h[i].0 && out@[i].amount == fee_split(
                    h,
                    fees as int,
                    i,
                )
            &&& shares_total(out@) == fees
        }),
{
    if fees == 0 {
        return Err(FeeShareError::FeesZero);
    }
    ledger.conservation_holds();
    let holders = ledger.holders_of(&nu_token);
    if holders.len() == 0 {
        return Err(FeeShareError::NoSupply);
    }
    let ghost h = holders@;
    let ghost ws = balance_weights(h);
    proof {
        lemma_weights_match(h);
        lemma_positive_holders_sum(h);
    }
    let n = holders.len();
    let mut supply: u128 = 0;
    let mut i: usize = 0;
    while i < n
        invariant
            i <= n,
            n == h.len(),
            h == holders@,
            ws == balance_weights(h),
            supply == weights_sum(ws.subrange(0, i as int)),
            weights_sum(ws) == holders_sum(h),
            holders_sum(h) <= u64::MAX,
        decreases n - i,
    {
        proof {
            lemma_weights_prefix(ws, i as int);
        }
        supply = supply + holders[i].1 as u128;
        i = i + 1;
    }
    assert(ws.subrange(0, i as int) =~= ws);
    if supply == 0 {
        return Err(FeeShareError::NoSupply);
    }
    let ghost total = fees as int;
    let ghost a_all = prefix_alloc(ws, total, supply as int, n - 1);
    proof {
        lemma_prefix_alloc_le_total(ws, total, n - 1);
    }
    let mut out: Vec<FeeShare> = Vec::new();
    let mut allocated: u64 = 0;
    let last = n - 1;
    let mut k: usize = 0;
    while k < n
        invariant
            k <= n,
            last == n - 1,
            n == h.len(),
            h == holders@,
            ws == balance_weights(h),
            supply == weights_sum(ws),
            supply > 0,
            supply <= u64::MAX,
            total == fees,
            a_all == prefix_alloc(ws, total, supply as int, n - 1),
            0 <= a_all <= total,
            k <= last ==> allocated == prefix_alloc(ws, total, supply as int, k as int),
            out@.len() == k,
            forall|j: int|
                0 <= j < k ==> (#[trigger] out@[j]).holder == h[j].0 && out@[j].amount == fee_split(h, total, j),
            forall|j: int|
                0 <= j <= k && j <= last ==> shares_total(#[trigger] out@.subrange(0, j)) == prefix_alloc(
                    ws,
                    total,
                    supply as int,
                    j,
                ),
        decreases n - k,
    {
        let (holder, balance) = holders[k];
        proof {
            lemma_prefix_alloc_le_total(ws, total, k as int);
            if k < last {
                lemma_prefix_alloc_le_total(ws, total, k + 1);
            }
            lemma_weight_le_sum(ws, k as int);
            assert(out@.push(FeeShare { holder, amount: 0 }).subrange(0, k as int) =~= out@);
        }
        let amount = if k == last {
            fees.saturating_sub(allocated)
        } else {
            proof {
                let f = floor_share(balance as int, total, supply as int);
                assert(f <= total) by (nonlinear_arith)
                    requires
                        f == (balance * total) / (supply as int),
                        0 <= balance <= supply,
                        supply > 0,
                        total >= 0,
                ;
                assert(balance * fees <= u64::MAX * u64::MAX) by (nonlinear_arith)
                    requires
                        balance <= u64::MAX,
                        fees <= u64::MAX,
                ;
            }
            let a = ((balance as u128) * (fees as u128) / supply) as u64;
            allocated = allocated.saturating_add(a);
            a
        };
        let ghost before = out@;
        out.push(FeeShare { holder, amount });
        proof {
            assert(out@.subrange(0, k + 1).drop_last() =~= before);
            assert(out@.subrange(0, k as int) =~= before);
            assert forall|j: int|
                0 <= j <= k + 1 && j <= last implies shares_total(#[trigger] out@.subrange(0, j)) == prefix_alloc(
                ws,
                total,
                supply as int,
                j,
            ) by {
                if j <= k {
                    assert(out@.subrange(0, j) =~= before.subrange(0, j));
                } else {
                    assert(before.subrange(0, k as int) =~= before);
                    assert(shares_total(before) == prefix_alloc(ws, total, supply as int, k as int));
                    assert(ws[k as int] == balance as u128);
                    assert(prefix_alloc(ws, total, supply as int, k + 1) == prefix_alloc(ws, total, supply as int, k as int)
                        + floor_share(ws[k as int] as int, total, supply as int));
                }
            }
        }
        k = k + 1;
    }
    proof {
        assert(out@.drop_last() =~= out@.subrange(0, last as int));
        assert(out@.subrange(0, last as int) =~= out@.subrange(0, last as int));
    }
    Ok(out)
}

} // verus!
