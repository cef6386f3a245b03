//! The PoW-subsidy term of the reward equation: `R_PoW · w_ν / Σ_μ w_μ`,
//! where `w_ν` is a neuron's proven settlement work this epoch. The split is
//! karma- and stake-blind: shared strictly in proportion to work done.

use vstd::prelude::*;

use crate::conservation::pos_sum;
use crate::fixed::{fx_div, fx_mul, in_range, lemma_balanced_id, rescale, round_div, scale, Fx};

verus! {

/// A neuron's subsidy: `pool · (w / total)` for positive work, otherwise
/// nothing; nothing at all when no work is positive or the pool is empty.
pub open spec fn subsidy_share(pool: int, total: int, w: int) -> int {
    if total <= 0 || pool <= 0 || w <= 0 {
        0
    } else {
        fx_mul(pool, fx_div(w, total))
    }
}

/// Σ of the positive work, as a plain integer.
pub open spec fn plain_work(work: Seq<([u8; 32], Fx)>) -> int
    decreases work.len(),
{
    if work.len() == 0 {
        0
    } else {
        plain_work(work.drop_last()) + (if work.last().1@ > 0 {
            work.last().1@
        } else {
            0
        })
    }
}

/// How many entries carry positive work.
pub open spec fn workers(work: Seq<([u8; 32], Fx)>) -> int
    decreases work.len(),
{
    if work.len() == 0 {
        0
    } else {
        workers(work.drop_last()) + (if work.last().1@ > 0 {
            1int
        } else {
            0int
        })
    }
}

/// Σ of the subsidies paid out of `pool` against total work `total`.
pub open spec fn subsidy_total(pool: int, total: int, work: Seq<([u8; 32], Fx)>) -> int
    decreases work.len(),
{
    if work.len() == 0 {
        0
    } else {
        subsidy_total(pool, total, work.drop_last()) + subsidy_share(pool, total, work.last().1@)
    }
}

/// Σ of the rounded work fractions `w / total` of the positive entries.
spec fn fraction_total(total: int, work: Seq<([u8; 32], Fx)>) -> int
    decreases work.len(),
{
    if work.len() == 0 {
        0
    } else {
        fraction_total(total, work.drop_last()) + (if work.last().1@ > 0 {
            fx_div(work.last().1@, total)
        } else {
            0
        })
    }
}

proof fn lemma_work_le_total(work: Seq<([u8; 32], Fx)>)
    ensures
        plain_work(work) >= 0,
        workers(work) >= 0,
        forall|i: int| 0 <= i < work.len() && work[i].1@ > 0 ==> #[trigger] work[i].1@ <= plain_work(work),
    decreases work.len(),
{
    if work.len() > 0 {
        let d = work.drop_last();
        lemma_work_le_total(d);
        assert forall|i: int| 0 <= i < work.len() && work[i].1@ > 0 implies #[trigger] work[i].1@ <= plain_work(
            work,
        ) by {
            if i < work.len() - 1 {
                assert(work[i] == d[i]);
            }
        }
    }
}

/// One worker's rounding: the fraction `q = w / total` and the share
/// `pool · q` are each within half a unit of exact.
proof fn lemma_subsidy_step(pool: int, total: int, w: int)
    requires
        0 < pool,
        in_range(pool),
        0 < w <= total,
        in_range(total),
    ensures
        0 <= fx_div(w, total) <= scale(),
        fx_div(w, total) == (w * scale() + total / 2) / total,
        subsidy_share(pool, total, w) == rescale(pool * fx_div(w, total)),
        2 * total * fx_div(w, total) <= 2 * scale() * w + total,
        2 * total * fx_div(w, total) >= 2 * scale() * w - total,
        2 * scale() * subsidy_share(pool, total, w) <= 2 * pool * fx_div(w, total) + scale(),
        2 * scale() * subsidy_share(pool, total, w) >= 2 * pool * fx_div(w, total) - scale(),
{
    lemma_balanced_id(w);
    lemma_balanced_id(total);
    lemma_balanced_id(pool);
    let x = w * scale() + total / 2;
    assert(x >= 0) by (nonlinear_arith)
        requires
            x == w * scale() + total / 2,
            w > 0,
            total > 0,
            scale() > 0,
    ;
    assert(round_div(w * scale(), total) == x / total);
    let q = x / total;
    vstd::arithmetic::div_mod::lemma_fundamental_div_mod(x, total);
    vstd::arithmetic::div_mod::lemma_mod_bound(x, total);
    assert(0 <= q <= scale()) by (nonlinear_arith)
        requires
            x == total * q + x % total,
            0 <= x % total < total,
            x == w * scale() + total / 2,
            0 < w <= total,
            scale() == 4294967296,
    ;
    lemma_balanced_id(q);
    assert(fx_div(w, total) == q);
    assert(2 * total * q <= 2 * scale() * w + total && 2 * total * q >= 2 * scale() * w - total) by (nonlinear_arith)
        requires
            x == total * q + x % total,
            0 <= x % total < total,
            x == w * scale() + total / 2,
            total > 0,
    ;
    let y = pool * q;
    assert(y >= 0) by (nonlinear_arith)
        requires
            y == pool * q,
            pool > 0,
            q >= 0,
    ;
    let u = (y + scale() / 2) / scale();
    vstd::arithmetic::div_mod::lemma_fundamental_div_mod(y + scale() / 2, scale());
    vstd::arithmetic::div_mod::lemma_mod_bound(y + scale() / 2, scale());
    assert(0 <= u <= pool) by (nonlinear_arith)
        requires
            y + scale() / 2 == scale() * u + (y + scale() / 2) % scale(),
            0 <= (y + scale() / 2) % scale() < scale(),
            y == pool * q,
            0 <= q <= scale(),
            pool > 0,
            scale() == 4294967296,
    ;
    assert(rescale(y) == u);
    lemma_balanced_id(u);
    assert(subsidy_share(pool, total, w) == u);
    assert(2 * scale() * u <= 2 * y + scale() && 2 * scale() * u >= 2 * y - scale()) by (nonlinear_arith)
        requires
            y + scale() / 2 == scale() * u + (y + scale() / 2) % scale(),
            0 <= (y + scale() / 2) % scale() < scale(),
            scale() == 4294967296,
    ;
    assert(2 * pool * q == 2 * y) by (nonlinear_arith)
        requires
            y == pool * q,
    ;
    assert(2 * scale() * subsidy_share(pool, total, w) == 2 * scale() * u);
}

proof fn lemma_subsidy_bounds(pool: int, total: int, work: Seq<([u8; 32], Fx)>)
    requires
        0 < pool,
        in_range(pool),
        0 < total,
        in_range(total),
        forall|i: int| 0 <= i < work.len() && work[i].1@ > 0 ==> #[trigger] work[i].1@ <= total,
    ensures
        2 * total * fraction_total(total, work) <= 2 * scale() * plain_work(work) + workers(work) * total,
        2 * total * fraction_total(total, work) >= 2 * scale() * plain_work(work) - workers(work) * total,
        2 * scale() * subsidy_total(pool, total, work) <= 2 * pool * fraction_total(total, work) + workers(work)
            * scale(),
        2 * scale() * subsidy_total(pool, total, work) >= 2 * pool * fraction_total(total, work) - workers(work)
            * scale(),
    decreases work.len(),
{
    if work.len() > 0 {
        let d = work.drop_last();
        assert forall|i: int| 0 <= i < d.len() && d[i].1@ > 0 implies #[trigger] d[i].1@ <= total by {
            assert(d[i] == work[i]);
        }
        lemma_subsidy_bounds(pool, total, d);
        let w = work.last().1@;
        if w > 0 {
            assert(work[work.len() - 1].1@ <= total);
            lemma_subsidy_step(pool, total, w);
            let q = fx_div(w, total);
            let q0 = fraction_total(total, d);
            let u0 = subsidy_total(pool, total, d);
            let c0 = workers(d);
            let w0 = plain_work(d);
            assert(2 * total * (q0 + q) == 2 * total * q0 + 2 * total * q) by (nonlinear_arith);
            assert(2 * scale() * (w0 + w) == 2 * scale() * w0 + 2 * scale() * w) by (nonlinear_arith);
            assert((c0 + 1) * total == c0 * total + total) by (nonlinear_arith);
            assert(2 * pool * (q0 + q) == 2 * pool * q0 + 2 * pool * q) by (nonlinear_arith);
            assert((c0 + 1) * scale() == c0 * scale() + scale()) by (nonlinear_arith);
            assert(2 * scale() * (u0 + subsidy_share(pool, total, w)) == 2 * scale() * u0 + 2 * scale()
                * subsidy_share(pool, total, w)) by (nonlinear_arith);
        } else {
            assert(subsidy_share(pool, total, w) == 0);
        }
    }
}

/// Law: the subsidy pays out the pool. With a positive pool and positive
/// total work (summed without wrapping the field), the shares add up to
/// the pool within the rounding of one quotient and one product per
/// worker: `2·2^32·|Σ shares − pool| ≤ workers · (pool + 2^32)`, that is
/// at most `(pool + 1) / 2` units of `2^-32` per worker.
pub proof fn lemma_subsidy_pays_the_pool(pool: int, work: Seq<([u8; 32], Fx)>)
    requires
        0 < pool,
        in_range(pool),
        pos_sum(work) == plain_work(work),
        plain_work(work) > 0,
        in_range(plain_work(work)),
    ensures
        2 * scale() * (subsidy_total(pool, pos_sum(work), work) - pool) <= workers(work) * (pool + scale()),
        2 * scale() * (pool - subsidy_total(pool, pos_sum(work), work)) <= workers(work) * (pool + scale()),
{
    let t = plain_work(work);
    lemma_work_le_total(work);
    lemma_subsidy_bounds(pool, t, work);
    let q = fraction_total(t, work);
    let u = subsidy_total(pool, t, work);
    let c = workers(work);
    let sc = scale();
    assert(2 * q <= 2 * sc + c && 2 * q >= 2 * sc - c) by (nonlinear_arith)
        requires
            2 * t * q <= 2 * sc * t + c * t,
            2 * t * q >= 2 * sc * t - c * t,
            t > 0,
    ;
    assert(2 * pool * q <= 2 * pool * sc + pool * c && 2 * pool * q >= 2 * pool * sc - pool * c) by (nonlinear_arith)
        requires
            2 * q <= 2 * sc + c,
            2 * q >= 2 * sc - c,
            pool > 0,
    ;
    assert(2 * sc * (u - pool) <= c * (pool + sc) && 2 * sc * (pool - u) <= c * (pool + sc)) by (nonlinear_arith)
        requires
            2 * sc * u <= 2 * pool * q + c * sc,
            2 * sc * u >= 2 * pool * q - c * sc,
            2 * pool * q <= 2 * pool * sc + pool * c,
            2 * pool * q >= 2 * pool * sc - pool * c,
    ;
}

/// Law: more work never earns less. Against the same pool and total, a
/// share grows (weakly) with the work behind it; no work earns nothing.
pub proof fn lemma_subsidy_monotone(pool: int, total: int, w1: int, w2: int)
    requires
        0 < pool,
        in_range(pool),
        0 < total,
        in_range(total),
        w1 <= w2 <= total,
    ensures
        w1 <= 0 ==> subsidy_share(pool, total, w1) == 0,
        0 <= subsidy_share(pool, total, w1) <= subsidy_share(pool, total, w2),
{
    if w2 > 0 {
        lemma_subsidy_step(pool, total, w2);
    }
    if w1 > 0 {
        lemma_subsidy_step(pool, total, w1);
        lemma_balanced_id(w1);
        lemma_balanced_id(w2);
        lemma_balanced_id(total);
        lemma_balanced_id(pool);
        let x1 = w1 * scale() + total / 2;
        let x2 = w2 * scale() + total / 2;
        assert(0 <= x1 <= x2) by (nonlinear_arith)
            requires
                x1 == w1 * scale() + total / 2,
                x2 == w2 * scale() + total / 2,
                0 < w1 <= w2,
                total > 0,
                scale() > 0,
        ;
        vstd::arithmetic::div_mod::lemma_div_is_ordered(x1, x2, total);
        let q1 = fx_div(w1, total);
        let q2 = fx_div(w2, total);
        assert(q1 <= q2);
        assert(0 <= pool * q1 <= pool * q2) by (nonlinear_arith)
            requires
                0 <= q1 <= q2,
                pool > 0,
        ;
        vstd::arithmetic::div_mod::lemma_div_is_ordered(pool * q1 + scale() / 2, pool * q2 + scale() / 2, scale());
        assert(rescale(pool * q1) <= rescale(pool * q2));
    }
}

/// Proportional split of a PoW-subsidy pool by proven settlement work.
///
/// - `pool`: this epoch's `R_PoW` budget.
/// - `work`: (neuron, `w_ν`); non-positive entries earn nothing and do not
///   count toward the total.
/// - If no neuron has positive work, every share is zero and the pool goes
///   unclaimed this epoch.
pub fn pow_subsidy_shares(pool: Fx, work: &[([u8; 32], Fx)]) -> (r: Vec<([u8; 32], Fx)>)
    ensures
        r@.len() == work@.len(),
        forall|i: int|
            0 <= i < work@.len() ==> (#[trigger] r@[i]).0 == work@[i].0 && r@[i].1@ == subsidy_share(
                pool@,
                pos_sum(work@),
                work@[i].1@,
            ),
{
    let mut total = Fx::zero();
    let mut i: usize = 0;
    while i < work.len()
        invariant
            i <= work.len(),
            total@ == pos_sum(work@.subrange(0, i as int)),
        decreases work.len() - i,
    {
        proof {
            assert(work@.subrange(0, i + 1).drop_last() =~= work@.subrange(0, i as int));
        }
        let w = work[i].1;
        if w.gt(&Fx::zero()) {
            total = total.add(w);
        }
        i = i + 1;
    }
    assert(work@.subrange(0, i as int) =~= work@);
    let idle = total.le(&Fx::zero()) || pool.le(&Fx::zero());
    let mut out: Vec<([u8; 32], Fx)> = Vec::new();
    let mut k: usize = 0;
    while k < work.len()
        invariant
            k <= work.len(),
            total@ == pos_sum(work@),
            idle == (total@ <= 0 || pool@ <= 0),
            out@.len() == k,
            forall|j: int|
                0 <= j < k ==> (#[trigger] out@[j]).0 == work@[j].0 && out@[j].1@ == subsidy_share(
                    pool@,
                    total@,
                    work@[j].1@,
                ),
        decreases work.len() - k,
    {
        let (n, w) = work[k];
        if !idle && w.gt(&Fx::zero()) {
            out.push((n, pool.mul(w.div(total))));
        } else {
            out.push((n, Fx::zero()));
        }
        k = k + 1;
    }
    out
}

} // verus!
