//! The service-fee term of the reward equation: `Σ_{q ∈ Q_ν} γ(1−β) fee_q`.
//! A neuron answering a query is paid directly by the asker: γ is the
//! servicer's share of the fee, β the fraction burned, so `γ(1−β)` of each
//! fee reaches the servicer. Paid per query answered, summed per servicer.

use vstd::prelude::*;

use crate::fixed::{fx_add, fx_mul, fx_sub, in_range, lemma_balanced_id, rescale, scale, Fx};
use crate::ids::{id_eq, NeuronId};

verus! {

/// One query's fee, credited to the neuron that served it.
#[derive(Clone, Copy, Debug)]
pub struct ServedQuery {
    pub servicer: NeuronId,
    pub fee: Fx,
}

/// `x` clipped to `[0, 1]`.
pub open spec fn clip_unit_spec(x: int) -> int {
    if x < 0 {
        0
    } else if x > scale() {
        scale()
    } else {
        x
    }
}

/// The servicer's rate `γ(1−β)` with both clipped to `[0, 1]`.
pub open spec fn fee_rate(gamma: int, beta: int) -> int {
    fx_mul(clip_unit_spec(gamma), fx_sub(scale(), clip_unit_spec(beta)))
}

/// Index of `n` in a list of per-servicer totals, if present.
pub open spec fn servicer_index(t: Seq<(NeuronId, int)>, n: NeuronId) -> Option<int> {
    if exists|k: int| 0 <= k < t.len() && t[k].0 == n {
        Some(choose|k: int| 0 <= k < t.len() && t[k].0 == n)
    } else {
        None
    }
}

/// Per-servicer totals of `rate · fee`, servicers in order of first query.
pub open spec fn fee_totals(served: Seq<ServedQuery>, rate: int) -> Seq<(NeuronId, int)>
    decreases served.len(),
{
    if served.len() == 0 {
        Seq::empty()
    } else {
        let p = fee_totals(served.drop_last(), rate);
        let q = served.last();
        let share = fx_mul(rate, q.fee@);
        match servicer_index(p, q.servicer) {
            Some(k) => p.update(k, (q.servicer, fx_add(p[k].1, share))),
            None => p.push((q.servicer, share)),
        }
    }
}

/// Servicers appear once each in the totals.
pub open spec fn distinct_servicers(t: Seq<(NeuronId, int)>) -> bool {
    forall|i: int, j: int| 0 <= i < t.len() && 0 <= j < t.len() && t[i].0 == t[j].0 ==> i == j
}

proof fn lemma_fee_totals_distinct(served: Seq<ServedQuery>, rate: int)
    ensures
        distinct_servicers(fee_totals(served, rate)),
    decreases served.len(),
{
    if served.len() > 0 {
        lemma_fee_totals_distinct(served.drop_last(), rate);
        let p = fee_totals(served.drop_last(), rate);
        let q = served.last();
        if let Some(k) = servicer_index(p, q.servicer) {
            let u = fee_totals(served, rate);
            assert forall|i: int, j: int|
                0 <= i < u.len() && 0 <= j < u.len() && u[i].0 == u[j].0 implies i == j by {
                assert(p[i].0 == u[i].0 && p[j].0 == u[j].0);
            }
        } else {
            let u = fee_totals(served, rate);
            assert forall|i: int, j: int|
                0 <= i < u.len() && 0 <= j < u.len() && u[i].0 == u[j].0 implies i == j by {
                if i < p.len() && j == p.len() {
                    assert(p[i].0 == q.servicer);
                } else if j < p.len() && i == p.len() {
                    assert(p[j].0 == q.servicer);
                }
            }
        }
    }
}

/// Rescaling a product `a · b` with `0 ≤ a ≤ 1` never exceeds `b`.
proof fn lemma_scaled_product_le(a: int, b: int)
    requires
        0 <= a <= scale(),
        0 <= b,
        in_range(b),
    ensures
        0 <= rescale(a * b) <= b,
        in_range(rescale(a * b)),
{
    let prod = a * b;
    assert(0 <= prod <= b * scale()) by (nonlinear_arith)
        requires
            prod == a * b,
            0 <= a <= scale(),
            0 <= b,
    ;
    let m = (prod + scale() / 2) / scale();
    assert(0 <= m <= b) by (nonlinear_arith)
        requires
            m == (prod + scale() / 2) / scale(),
            0 <= prod <= b * scale(),
            scale() == 4294967296,
    ;
    assert(rescale(prod) == m);
}

/// Law: a fee split only moves value out of a fee, never manufactures more
/// of it. The rate `γ(1−β)` lies in `[0, 1]`, and the servicer's share of a
/// non-negative fee lies between zero and the fee.
pub proof fn lemma_share_within_fee(gamma: int, beta: int, fee: int)
    requires
        0 <= fee,
        in_range(fee),
    ensures
        0 <= fee_rate(gamma, beta) <= scale(),
        0 <= fx_mul(fee_rate(gamma, beta), fee) <= fee,
{
    let c1 = clip_unit_spec(gamma);
    let c2 = clip_unit_spec(beta);
    lemma_balanced_id(scale());
    lemma_balanced_id(c1);
    lemma_balanced_id(c2);
    lemma_balanced_id(scale() - c2);
    assert(fx_sub(scale(), c2) == scale() - c2);
    lemma_scaled_product_le(c1, scale() - c2);
    lemma_balanced_id(rescale(c1 * (scale() - c2)));
    let rate = fee_rate(gamma, beta);
    assert(rate == rescale(c1 * (scale() - c2)));
    lemma_balanced_id(rate);
    lemma_balanced_id(fee);
    lemma_scaled_product_le(rate, fee);
    lemma_balanced_id(rescale(rate * fee));
}

/// Sum `γ(1−β)·fee_q` over every query a neuron served, aggregated per
/// servicer. `gamma` and `beta` are clipped to `[0,1]` first.
pub fn service_fee_shares(served: &[ServedQuery], gamma: Fx, beta: Fx) -> (r: Vec<(NeuronId, Fx)>)
    ensures
        r@.len() == fee_totals(served@, fee_rate(gamma@, beta@)).len(),
        forall|i: int|
            0 <= i < r@.len() ==> (#[trigger] r@[i]).0 == fee_totals(served@, fee_rate(gamma@, beta@))[i].0
                && r@[i].1@ == fee_totals(served@, fee_rate(gamma@, beta@))[i].1,
{
    let rate = clip_unit(gamma).mul(Fx::one().sub(clip_unit(beta)));
    let mut totals: Vec<(NeuronId, Fx)> = Vec::new();
    let mut i: usize = 0;
    while i < served.len()
        invariant
            i <= served.len(),
            rate@ == fee_rate(gamma@, beta@),
            totals@.len() == fee_totals(served@.subrange(0, i as int), rate@).len(),
            forall|j: int|
                0 <= j < totals@.len() ==> (#[trigger] totals@[j]).0 == fee_totals(
                    served@.subrange(0, i as int),
                    rate@,
                )[j].0 && totals@[j].1@ == fee_totals(served@.subrange(0, i as int), rate@)[j].1,
        decreases served.len() - i,
    {
        let ghost p = fee_totals(served@.subrange(0, i as int), rate@);
        proof {
            assert(served@.subrange(0, i + 1).drop_last() =~= served@.subrange(0, i as int));
            lemma_fee_totals_distinct(served@.subrange(0, i as int), rate@);
        }
        let q = served[i];
        let share = rate.mul(q.fee);
        let mut k: usize = 0;
        while k < totals.len() && !id_eq(&totals[k].0, &q.servicer)
            invariant
                k <= totals@.len(),
                forall|j: int| 0 <= j < k ==> (#[trigger] totals@[j]).0 != q.servicer,
            decreases totals@.len() - k,
        {
            k = k + 1;
        }
        if k < totals.len() {
            proof {
                let m = servicer_index(p, q.servicer);
                assert(p[k as int].0 == q.servicer);
                let c = choose|c: int| 0 <= c < p.len() && p[c].0 == q.servicer;
                assert(c == k);
            }
            let updated = (q.servicer, totals[k].1.add(share));
            totals.set(k, updated);
        } else {
            proof {
                assert forall|c: int| !(0 <= c < p.len() && p[c].0 == q.servicer) by {
                    if 0 <= c < p.len() && p[c].0 == q.servicer {
                        assert(totals@[c].0 == q.servicer);
                    }
                }
            }
            totals.push((q.servicer, share));
        }
        i = i + 1;
    }
    assert(served@.subrange(0, i as int) =~= served@);
    totals
}

fn clip_unit(x: Fx) -> (r: Fx)
    ensures
        r@ == clip_unit_spec(x@),
{
    if x.lt(&Fx::zero()) {
        Fx::zero()
    } else if x.gt(&Fx::one()) {
        Fx::one()
    } else {
        x
    }
}

} // verus!
