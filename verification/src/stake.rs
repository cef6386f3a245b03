//! Stake yield — the fourth term of the reward equation:
//! `R_PoS · (a_ν κ(ν)) / Σ_μ (a_μ κ(μ))`.
//!
//! Any real stake, including passive (`valence == 0`), moves rank; only
//! correct risk under `valence != 0` earns a reward. [`stake_yield_shares`]
//! excludes every passive position from both numerator and denominator, so
//! passive or Sybil-split stake draws zero from the PoS pool no matter how
//! large it is, while active stake shares the pool in proportion to
//! `amount · karma`.

use vstd::prelude::*;

use crate::fixed::{
    balanced, field_p, fx_add, fx_div, fx_mul, fx_ratio_u128, fx_sub, lemma_balanced_congruent,
    lemma_balanced_id, lemma_balanced_same_residue, lemma_fx_add_is_sum, in_range, ratio_fits, ratio_reduce, rescale, round_div, scale, Fx,
};
use crate::ids::NeuronId;

verus! {

/// One neuron's staking position for an epoch's stake-yield pass.
#[derive(Clone, Copy, Debug)]
pub struct StakePosition {
    pub neuron: NeuronId,
    /// Staked amount, in token base units.
    pub amount: u128,
    /// Risk exposure: `0` passive (rank only), `±1` active (risk, earns).
    pub valence: i8,
    /// Karma weight on active stake — reputation, not stake itself.
    pub karma: Fx,
}

impl StakePosition {
    fn is_active(&self) -> (r: bool)
        ensures
            r == (self.valence != 0),
    {
        self.valence != 0
    }
}

/// The largest active amount, zero when there is none.
pub open spec fn active_max(s: Seq<StakePosition>) -> int
    decreases s.len(),
{
    if s.len() == 0 {
        0
    } else {
        let m = active_max(s.drop_last());
        if s.last().valence != 0 && s.last().amount > m {
            s.last().amount as int
        } else {
            m
        }
    }
}

/// The normalizer: the largest active amount, at least one.
pub open spec fn stake_norm(s: Seq<StakePosition>) -> int {
    if active_max(s) >= 1 {
        active_max(s)
    } else {
        1
    }
}

/// A position's weight: `(amount / norm) · karma` when active, else zero.
pub open spec fn stake_weight(p: StakePosition, norm: int) -> int {
    if p.valence != 0 {
        fx_mul(fx_ratio_u128(p.amount as nat, norm as nat), p.karma@)
    } else {
        0
    }
}

pub open spec fn stake_weights(s: Seq<StakePosition>) -> Seq<int> {
    s.map_values(|p: StakePosition| stake_weight(p, stake_norm(s)))
}

/// Left-to-right fixed-point sum.
pub open spec fn fx_fold(s: Seq<int>) -> int
    decreases s.len(),
{
    if s.len() == 0 {
        0
    } else {
        fx_add(fx_fold(s.drop_last()), s.last())
    }
}

/// Left-to-right fixed-point sum skipping index `r`.
pub open spec fn fx_fold_except(s: Seq<int>, r: int) -> int
    decreases s.len(),
{
    if s.len() == 0 {
        0
    } else if s.len() - 1 == r {
        fx_fold_except(s.drop_last(), r)
    } else {
        fx_add(fx_fold_except(s.drop_last(), r), s.last())
    }
}

/// Plain integer sum.
pub open spec fn int_sum(s: Seq<int>) -> int
    decreases s.len(),
{
    if s.len() == 0 {
        0
    } else {
        int_sum(s.drop_last()) + s.last()
    }
}

/// `r` is the last index holding the largest weight.
pub open spec fn last_max(w: Seq<int>, r: int) -> bool {
    &&& 0 <= r < w.len()
    &&& forall|i: int| 0 <= i < w.len() ==> #[trigger] w[i] <= w[r]
    &&& forall|i: int| r < i < w.len() ==> #[trigger] w[i] < w[r]
}

/// Each position's rounded share `pool · (w / total)` before the residual.
pub open spec fn raw_yield(w: Seq<int>, pool: int) -> Seq<int> {
    w.map_values(|x: int| fx_mul(pool, fx_div(x, fx_fold(w))))
}

/// The shares: rounded quotients, the last largest weight taking the
/// residual `pool − Σ others` instead of its own quotient; all zero when the
/// total weight is zero.
pub open spec fn yield_shares(w: Seq<int>, pool: int, r: int) -> Seq<int> {
    if fx_fold(w) == 0 {
        w.map_values(|x: int| 0int)
    } else {
        raw_yield(w, pool).update(r, fx_sub(pool, fx_fold_except(raw_yield(w, pool), r)))
    }
}

proof fn lemma_fx_fold_is_sum(s: Seq<int>)
    ensures
        fx_fold(s) == balanced(int_sum(s)),
    decreases s.len(),
{
    if s.len() == 0 {
        lemma_balanced_id(0);
    } else {
        lemma_fx_fold_is_sum(s.drop_last());
        let p = int_sum(s.drop_last());
        lemma_fx_add_is_sum(balanced(p), s.last());
        lemma_balanced_congruent(p);
        vstd::arithmetic::div_mod::lemma_add_mod_noop(balanced(p), s.last(), field_p());
        vstd::arithmetic::div_mod::lemma_add_mod_noop(p, s.last(), field_p());
        lemma_balanced_same_residue(balanced(p) + s.last(), p + s.last());
    }
}

proof fn lemma_fx_fold_except_is_sum(s: Seq<int>, r: int)
    requires
        0 <= r < s.len(),
    ensures
        fx_fold_except(s, r) == balanced(int_sum(s) - s[r]),
    decreases s.len(),
{
    let p = s.drop_last();
    if s.len() - 1 == r {
        lemma_fx_fold_is_sum(p);
        lemma_fold_except_past_end(p, r);
    } else {
        lemma_fx_fold_except_is_sum(p, r);
        let q = int_sum(p) - p[r];
        lemma_fx_add_is_sum(balanced(q), s.last());
        lemma_balanced_congruent(q);
        vstd::arithmetic::div_mod::lemma_add_mod_noop(balanced(q), s.last(), field_p());
        vstd::arithmetic::div_mod::lemma_add_mod_noop(q, s.last(), field_p());
        lemma_balanced_same_residue(balanced(q) + s.last(), q + s.last());
    }
}

proof fn lemma_fold_except_past_end(s: Seq<int>, r: int)
    requires
        r >= s.len(),
    ensures
        fx_fold_except(s, r) == fx_fold(s),
    decreases s.len(),
{
    if s.len() > 0 {
        lemma_fold_except_past_end(s.drop_last(), r);
    }
}

proof fn lemma_int_sum_update(s: Seq<int>, r: int, x: int)
    requires
        0 <= r < s.len(),
    ensures
        int_sum(s.update(r, x)) == int_sum(s) - s[r] + x,
    decreases s.len(),
{
    let u = s.update(r, x);
    if r == s.len() - 1 {
        assert(u.drop_last() =~= s.drop_last());
    } else {
        assert(u.drop_last() =~= s.drop_last().update(r, x));
        lemma_int_sum_update(s.drop_last(), r, x);
    }
}

/// Law: the shares conserve the pool exactly — their fixed-point sum is the
/// pool whenever some active weight is positive.
pub proof fn lemma_yield_conserves_pool(w: Seq<int>, pool: int, r: int)
    requires
        last_max(w, r),
        fx_fold(w) != 0,
        balanced(pool) == pool,
    ensures
        fx_fold(yield_shares(w, pool, r)) == pool,
{
    let raw = raw_yield(w, pool);
    let others = fx_fold_except(raw, r);
    let fin = raw.update(r, fx_sub(pool, others));
    lemma_fx_fold_is_sum(fin);
    lemma_int_sum_update(raw, r, fx_sub(pool, others));
    lemma_fx_fold_except_is_sum(raw, r);
    let s_oth = int_sum(raw) - raw[r];
    lemma_fx_add_is_sum(pool, others);
    lemma_balanced_congruent(pool - others);
    lemma_balanced_congruent(s_oth);
    let total = s_oth + fx_sub(pool, others);
    vstd::arithmetic::div_mod::lemma_add_mod_noop(s_oth, fx_sub(pool, others), field_p());
    vstd::arithmetic::div_mod::lemma_add_mod_noop(s_oth, pool - others, field_p());
    vstd::arithmetic::div_mod::lemma_sub_mod_noop(pool, others, field_p());
    vstd::arithmetic::div_mod::lemma_sub_mod_noop(pool, s_oth, field_p());
    vstd::arithmetic::div_mod::lemma_add_mod_noop(s_oth, pool - s_oth, field_p());
    lemma_balanced_same_residue(total, pool);
}

proof fn lemma_int_sum_zeros(s: Seq<int>)
    requires
        forall|i: int| 0 <= i < s.len() ==> s[i] == 0,
    ensures
        int_sum(s) == 0,
    decreases s.len(),
{
    if s.len() > 0 {
        lemma_int_sum_zeros(s.drop_last());
    }
}

/// Law: passive stake earns nothing. A position with `valence == 0` receives
/// a zero share whenever some active position carries a positive weight, or
/// when no position is active at all (the pool then goes unclaimed).
pub proof fn lemma_passive_earns_nothing(s: Seq<StakePosition>, pool: int, m: int, i: int)
    requires
        last_max(stake_weights(s), m),
        0 <= i < s.len(),
        s[i].valence == 0,
        (exists|j: int| 0 <= j < s.len() && #[trigger] stake_weights(s)[j] > 0) || (forall|j: int|
            0 <= j < s.len() ==> #[trigger] s[j].valence == 0),
    ensures
        yield_shares(stake_weights(s), pool, m)[i] == 0,
{
    let w = stake_weights(s);
    assert(w[i] == 0);
    if forall|j: int| 0 <= j < s.len() ==> #[trigger] s[j].valence == 0 {
        assert forall|j: int| 0 <= j < w.len() implies w[j] == 0 by {
            assert(s[j].valence == 0);
        }
        lemma_int_sum_zeros(w);
        lemma_fx_fold_is_sum(w);
        lemma_balanced_id(0);
    }
    if fx_fold(w) != 0 {
        let j = choose|j: int| 0 <= j < s.len() && #[trigger] stake_weights(s)[j] > 0;
        assert(w[m] >= w[j]);
        assert(i != m);
        let t = fx_fold(w);
        lemma_fx_fold_is_sum(w);
        lemma_balanced_id(t);
        assert(fx_div(0, t) == 0) by {
            lemma_balanced_id(0);
            assert(balanced(0) == 0);
            let a = crate::fixed::abs(t);
            assert(a >= 1);
            assert(0 <= a / 2 < a);
            vstd::arithmetic::div_mod::lemma_basic_div(a / 2, a);
            assert(round_div(0 * scale(), t) == 0);
        }
        assert(fx_mul(pool, 0) == 0) by {
            lemma_balanced_id(0);
            assert(balanced(pool) * balanced(0) == 0);
            assert(rescale(0) == 0);
        }
        assert(raw_yield(w, pool)[i] == 0);
    }
}

proof fn lemma_active_max(s: Seq<StakePosition>)
    ensures
        active_max(s) >= 0,
        forall|i: int| 0 <= i < s.len() && s[i].valence != 0 ==> #[trigger] s[i].amount <= active_max(s),
        active_max(s) > 0 ==> exists|i: int|
            0 <= i < s.len() && s[i].valence != 0 && #[trigger] s[i].amount == active_max(s),
    decreases s.len(),
{
    if s.len() > 0 {
        let d = s.drop_last();
        lemma_active_max(d);
        assert forall|i: int| 0 <= i < s.len() && s[i].valence != 0 implies #[trigger] s[i].amount <= active_max(s) by {
            if i < s.len() - 1 {
                assert(s[i] == d[i]);
            }
        }
        if active_max(s) > 0 {
            if s.last().valence != 0 && s.last().amount > active_max(d) {
                assert(s[s.len() - 1].amount == active_max(s));
            } else {
                let i = choose|i: int| 0 <= i < d.len() && d[i].valence != 0 && #[trigger] d[i].amount == active_max(d);
                assert(s[i] == d[i]);
            }
        }
    }
}

/// Law: the normalizer is the largest active amount (one when no active
/// amount is positive); passive amounts play no part in it.
pub proof fn lemma_norm_is_largest_active(s: Seq<StakePosition>)
    ensures
        stake_norm(s) >= 1,
        forall|i: int| 0 <= i < s.len() && s[i].valence != 0 ==> #[trigger] s[i].amount <= stake_norm(s),
        (exists|i: int| 0 <= i < s.len() && #[trigger] s[i].valence != 0 && s[i].amount >= 1) ==> exists|i: int|
            0 <= i < s.len() && s[i].valence != 0 && #[trigger] s[i].amount == stake_norm(s),
        (forall|i: int| 0 <= i < s.len() && #[trigger] s[i].valence != 0 ==> s[i].amount == 0) ==> stake_norm(s) == 1,
{
    lemma_active_max(s);
    if exists|i: int| 0 <= i < s.len() && #[trigger] s[i].valence != 0 && s[i].amount >= 1 {
        let i = choose|i: int| 0 <= i < s.len() && #[trigger] s[i].valence != 0 && s[i].amount >= 1;
        assert(s[i].amount <= active_max(s));
    }
    if forall|i: int| 0 <= i < s.len() && #[trigger] s[i].valence != 0 ==> s[i].amount == 0 {
        if active_max(s) > 0 {
            let i = choose|i: int| 0 <= i < s.len() && s[i].valence != 0 && #[trigger] s[i].amount == active_max(s);
            assert(s[i].valence != 0);
        }
    }
}

proof fn lemma_fold_in_range(s: Seq<int>, r: int)
    ensures
        in_range(fx_fold(s)),
        in_range(fx_fold_except(s, r)),
    decreases s.len(),
{
    if s.len() > 0 {
        lemma_fold_in_range(s.drop_last(), r);
        crate::fixed::lemma_balanced_in_range(balanced(fx_fold(s.drop_last())) + balanced(s.last()));
        crate::fixed::lemma_balanced_in_range(balanced(fx_fold_except(s.drop_last(), r)) + balanced(s.last()));
    }
}

proof fn lemma_add_zero(x: int)
    requires
        in_range(x),
    ensures
        fx_add(x, 0) == x,
{
    lemma_balanced_id(x);
    lemma_balanced_id(0);
}

/// A zero weight draws a zero share from a nonzero total.
proof fn lemma_zero_share(pool: int, t: int)
    requires
        t != 0,
        in_range(t),
    ensures
        fx_mul(pool, fx_div(0, t)) == 0,
{
    lemma_balanced_id(t);
    lemma_balanced_id(0);
    let a = crate::fixed::abs(t);
    assert(0 <= a / 2 < a);
    vstd::arithmetic::div_mod::lemma_basic_div(a / 2, a);
    assert(round_div(0 * scale(), t) == 0);
    assert(fx_div(0, t) == 0);
    assert(balanced(pool) * balanced(0) == 0);
    assert(rescale(0) == 0);
}

/// Law: passive stake does not touch the active split. Adding a passive
/// position, of any amount, leaves the normalizer, every weight and every
/// existing share as they were, and the new position gets nothing.
pub proof fn lemma_passive_is_neutral(s: Seq<StakePosition>, p: StakePosition, pool: int, m: int)
    requires
        p.valence == 0,
        last_max(stake_weights(s), m),
        exists|j: int| 0 <= j < s.len() && #[trigger] stake_weights(s)[j] > 0,
    ensures
        stake_norm(s.push(p)) == stake_norm(s),
        last_max(stake_weights(s.push(p)), m),
        forall|i: int|
            0 <= i < s.len() ==> #[trigger] yield_shares(stake_weights(s.push(p)), pool, m)[i] == yield_shares(
                stake_weights(s),
                pool,
                m,
            )[i],
        yield_shares(stake_weights(s.push(p)), pool, m)[s.len() as int] == 0,
{
    let t = s.push(p);
    assert(t.drop_last() =~= s);
    assert(active_max(t) == active_max(s));
    let w = stake_weights(s);
    let w2 = stake_weights(t);
    assert(w2 =~= w.push(0));
    let j = choose|j: int| 0 <= j < s.len() && #[trigger] stake_weights(s)[j] > 0;
    assert(w[m] >= w[j]);
    assert(w2.drop_last() =~= w);
    lemma_fold_in_range(w, m);
    lemma_add_zero(fx_fold(w));
    assert(fx_fold(w2) == fx_fold(w));
    if fx_fold(w) != 0 {
        let f = fx_fold(w);
        let raw = raw_yield(w, pool);
        let raw2 = raw_yield(w2, pool);
        lemma_zero_share(pool, f);
        assert(raw2 =~= raw.push(0));
        assert(raw2.drop_last() =~= raw);
        lemma_fold_in_range(raw, m);
        lemma_add_zero(fx_fold_except(raw, m));
        assert(fx_fold_except(raw2, m) == fx_fold_except(raw, m));
    }
}

proof fn lemma_reduce(a1: nat, a2: nat, d: nat)
    requires
        a1 <= a2 <= d,
        d >= 1,
    ensures
        ratio_reduce(a1, d).1 == ratio_reduce(a2, d).1,
        ratio_reduce(a1, d).0 <= ratio_reduce(a2, d).0 <= ratio_reduce(a2, d).1,
        ratio_reduce(a2, d).1 >= 1,
        a2 == d ==> ratio_reduce(a2, d).0 == ratio_reduce(a2, d).1,
    decreases d,
{
    if d >= 0x1_0000_0000_0000_0000_0000_0000 {
        vstd::arithmetic::div_mod::lemma_div_is_ordered(a1 as int, a2 as int, 2);
        vstd::arithmetic::div_mod::lemma_div_is_ordered(a2 as int, d as int, 2);
        lemma_reduce(a1 / 2, a2 / 2, d / 2);
    }
}

/// The fixed-point product `r · k` for `0 ≤ r ≤ 1`, exactly and in range.
proof fn lemma_scaled_weight(r: int, k: int)
    requires
        0 <= r <= scale(),
        0 <= k,
        in_range(k),
    ensures
        fx_mul(r, k) == rescale(r * k),
        0 <= rescale(r * k) <= k,
{
    lemma_balanced_id(r);
    lemma_balanced_id(k);
    assert(0 <= r * k <= scale() * k) by (nonlinear_arith)
        requires
            0 <= r <= scale(),
            0 <= k,
    ;
    assert(0 <= (r * k + scale() / 2) / scale() <= k) by (nonlinear_arith)
        requires
            0 <= r * k <= scale() * k,
            scale() == 4294967296,
    ;
    lemma_balanced_id(rescale(r * k));
}

proof fn lemma_ratio_value(a: nat, d: nat)
    requires
        a <= d,
        d >= 1,
    ensures
        0 <= fx_ratio_u128(a, d) <= scale(),
        fx_ratio_u128(a, d) == (ratio_reduce(a, d).0 * scale() + ratio_reduce(a, d).1 / 2) / (ratio_reduce(a, d).1 as int),
        a == d ==> fx_ratio_u128(a, d) == scale(),
{
    lemma_reduce(a, a, d);
    if a < d {
        lemma_reduce(a, d, d);
    }
    let n = ratio_reduce(a, d).0 as int;
    let e = ratio_reduce(a, d).1 as int;
    let v = (n * scale() + e / 2) / e;
    assert(0 <= v <= scale()) by (nonlinear_arith)
        requires
            v == (n * scale() + e / 2) / e,
            0 <= n <= e,
            e >= 1,
            scale() == 4294967296,
    ;
    lemma_balanced_id(v);
    if a == d {
        lemma_reduce(d, d, d);
        assert(v == scale()) by (nonlinear_arith)
            requires
                v == (e * scale() + e / 2) / e,
                e >= 1,
                scale() == 4294967296,
        ;
    }
}

/// Law: the largest active position weighs exactly its karma, so shares
/// follow karma as well as amount.
pub proof fn lemma_top_weight_is_karma(s: Seq<StakePosition>, i: int)
    requires
        0 <= i < s.len(),
        s[i].valence != 0,
        s[i].amount == stake_norm(s),
        in_range(s[i].karma@),
    ensures
        stake_weight(s[i], stake_norm(s)) == s[i].karma@,
{
    let k = s[i].karma@;
    let d = stake_norm(s) as nat;
    lemma_ratio_value(d, d);
    lemma_balanced_id(scale());
    lemma_balanced_id(k);
    if k >= 0 {
        assert((scale() * k + scale() / 2) / scale() == k) by (nonlinear_arith)
            requires
                k >= 0,
                scale() == 4294967296,
        ;
    } else {
        assert((-(scale() * k) + scale() / 2) / scale() == -k) by (nonlinear_arith)
            requires
                k < 0,
                scale() == 4294967296,
        ;
    }
}

/// Law: at equal non-negative karma, a larger active amount never weighs
/// less.
pub proof fn lemma_weight_monotone(p1: StakePosition, p2: StakePosition, norm: int)
    requires
        p1.valence != 0,
        p2.valence != 0,
        p1.karma == p2.karma,
        0 <= p1.karma@,
        in_range(p1.karma@),
        p1.amount <= p2.amount <= norm,
        norm >= 1,
    ensures
        0 <= stake_weight(p1, norm) <= stake_weight(p2, norm),
{
    let d = norm as nat;
    let k = p1.karma@;
    lemma_reduce(p1.amount as nat, p2.amount as nat, d);
    lemma_ratio_value(p1.amount as nat, d);
    lemma_ratio_value(p2.amount as nat, d);
    let r1 = fx_ratio_u128(p1.amount as nat, d);
    let r2 = fx_ratio_u128(p2.amount as nat, d);
    let n1 = ratio_reduce(p1.amount as nat, d).0 as int;
    let n2 = ratio_reduce(p2.amount as nat, d).0 as int;
    let e = ratio_reduce(p2.amount as nat, d).1 as int;
    assert(n1 * scale() + e / 2 <= n2 * scale() + e / 2) by (nonlinear_arith)
        requires
            n1 <= n2,
            scale() > 0,
    ;
    vstd::arithmetic::div_mod::lemma_div_is_ordered(n1 * scale() + e / 2, n2 * scale() + e / 2, e);
    assert(r1 <= r2);
    lemma_scaled_weight(r1, k);
    lemma_scaled_weight(r2, k);
    assert(r1 * k <= r2 * k) by (nonlinear_arith)
        requires
            0 <= r1 <= r2,
            0 <= k,
    ;
    vstd::arithmetic::div_mod::lemma_div_is_ordered(r1 * k + scale() / 2, r2 * k + scale() / 2, scale());
}

/// Split `pos_pool` (this epoch's `R_PoS`) across `positions` by the
/// stake-yield term. A passive position always receives zero, regardless of
/// its amount. Returns one share per input position, same order. If no
/// position carries weight, the whole pool goes unclaimed (every share zero).
/// Each active amount is scaled against the largest one in `u128`, which
/// must not overflow (`ratio_fits`; it can only fail for amounts near 2^96).
pub fn stake_yield_shares(positions: &[StakePosition], pos_pool: Fx) -> (r: Vec<(NeuronId, Fx)>)
    requires
        forall|i: int|
            0 <= i < positions@.len() && #[trigger] positions@[i].valence != 0 ==> ratio_fits(
                positions@[i].amount as nat,
                stake_norm(positions@) as nat,
            ),
    ensures
        positions@.len() == 0 ==> r@.len() == 0,
        positions@.len() > 0 ==> exists|m: int|
            last_max(stake_weights(positions@), m) && r@.len() == positions@.len() && forall|i: int|
                0 <= i < positions@.len() ==> (#[trigger] r@[i]).0 == positions@[i].neuron && r@[i].1@
                    == yield_shares(stake_weights(positions@), pos_pool@, m)[i],
{
    let n = positions.len();
    if n == 0 {
        return Vec::new();
    }
    // Normalize by the largest active amount so the weight stays in (0,1];
    // the normalization cancels in the ratio.
    let mut max_amount: u128 = 0;
    let mut i: usize = 0;
    while i < n
        invariant
            i <= n,
            n == positions@.len(),
            max_amount == active_max(positions@.subrange(0, i as int)),
            forall|j: int| 0 <= j < i && positions@[j].valence != 0 ==> positions@[j].amount <= max_amount,
        decreases n - i,
    {
        proof {
            assert(positions@.subrange(0, i + 1).drop_last() =~= positions@.subrange(0, i as int));
        }
        let p = positions[i];
        if p.is_active() && p.amount > max_amount {
            max_amount = p.amount;
        }
        i = i + 1;
    }
    assert(positions@.subrange(0, i as int) =~= positions@);
    let norm = if max_amount < 1 {
        1
    } else {
        max_amount
    };
    let ghost ws = stake_weights(positions@);
    let mut weights: Vec<(NeuronId, Fx)> = Vec::new();
    let mut k: usize = 0;
    while k < n
        invariant
            k <= n,
            n == positions@.len(),
            norm == stake_norm(positions@),
            ws == stake_weights(positions@),
            forall|j: int| 0 <= j < n && positions@[j].valence != 0 ==> positions@[j].amount <= norm,
            forall|j: int|
                0 <= j < n && #[trigger] positions@[j].valence != 0 ==> ratio_fits(
                    positions@[j].amount as nat,
                    stake_norm(positions@) as nat,
                ),
            weights@.len() == k,
            forall|j: int|
                0 <= j < k ==> (#[trigger] weights@[j]).0 == positions@[j].neuron && weights@[j].1@ == ws[j],
        decreases n - k,
    {
        let p = positions[k];
        let w = if p.is_active() {
            Fx::ratio_u128(p.amount, norm).mul(p.karma)
        } else {
            Fx::zero()
        };
        weights.push((p.neuron, w));
        k = k + 1;
    }
    let mut total = Fx::zero();
    let mut t: usize = 0;
    while t < n
        invariant
            t <= n,
            n == weights@.len(),
            ws.len() == n,
            forall|j: int| 0 <= j < n ==> (#[trigger] weights@[j]).1@ == ws[j],
            total@ == fx_fold(ws.subrange(0, t as int)),
        decreases n - t,
    {
        proof {
            assert(ws.subrange(0, t + 1).drop_last() =~= ws.subrange(0, t as int));
        }
        total = total.add(weights[t].1);
        t = t + 1;
    }
    assert(ws.subrange(0, t as int) =~= ws);
    // The largest weight takes the residual; ties go to the last of them.
    let mut best: usize = 0;
    let mut b: usize = 1;
    while b < n
        invariant
            1 <= b <= n,
            best < b,
            n == weights@.len(),
            ws.len() == n,
            forall|j: int| 0 <= j < n ==> (#[trigger] weights@[j]).1@ == ws[j],
            forall|j: int| 0 <= j < b ==> #[trigger] ws[j] <= ws[best as int],
            forall|j: int| best < j < b ==> #[trigger] ws[j] < ws[best as int],
        decreases n - b,
    {
        if weights[b].1.ge(&weights[best].1) {
            best = b;
        }
        b = b + 1;
    }
    assert(last_max(ws, best as int));
    if total.is_zero() {
        let mut out: Vec<(NeuronId, Fx)> = Vec::new();
        let mut z: usize = 0;
        while z < n
            invariant
                z <= n,
                n == weights@.len(),
                n == positions@.len(),
                forall|j: int| 0 <= j < n ==> (#[trigger] weights@[j]).0 == positions@[j].neuron,
                out@.len() == z,
                forall|j: int| 0 <= j < z ==> (#[trigger] out@[j]).0 == positions@[j].neuron && out@[j].1@ == 0,
            decreases n - z,
        {
            out.push((weights[z].0, Fx::zero()));
            z = z + 1;
        }
        return out;
    }
    let ghost raw = raw_yield(ws, pos_pool@);
    let mut shares: Vec<(NeuronId, Fx)> = Vec::new();
    let mut s: usize = 0;
    while s < n
        invariant
            s <= n,
            n == weights@.len(),
            n == positions@.len(),
            ws.len() == n,
            total@ == fx_fold(ws),
            raw == raw_yield(ws, pos_pool@),
            forall|j: int|
                0 <= j < n ==> (#[trigger] weights@[j]).1@ == ws[j] && weights@[j].0 == positions@[j].neuron,
            shares@.len() == s,
            forall|j: int| 0 <= j < s ==> (#[trigger] shares@[j]).0 == positions@[j].neuron && shares@[j].1@ == raw[j],
        decreases n - s,
    {
        shares.push((weights[s].0, pos_pool.mul(weights[s].1.div(total))));
        s = s + 1;
    }
    let mut others = Fx::zero();
    let mut o: usize = 0;
    while o < n
        invariant
            o <= n,
            n == shares@.len(),
            raw.len() == n,
            best < n,
            forall|j: int| 0 <= j < n ==> (#[trigger] shares@[j]).1@ == raw[j],
            others@ == fx_fold_except(raw.subrange(0, o as int), best as int),
        decreases n - o,
    {
        proof {
            assert(raw.subrange(0, o + 1).drop_last() =~= raw.subrange(0, o as int));
        }
        if o != best {
            others = others.add(shares[o].1);
        }
        o = o + 1;
    }
    assert(raw.subrange(0, o as int) =~= raw);
    let residual = (shares[best].0, pos_pool.sub(others));
    shares.set(best, residual);
    shares
}

} // verus!
