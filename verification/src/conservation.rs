//! Conservation clip: `Σ mint = min(v★, Δφ⁺)` then map to token units.
//!
//! tok renormalizes the settled shares to `min(v★(N), Δφ⁺(N))` at
//! settlement, the proportional clip of impulse, so `Σ mint(ν) ≤ Δφ⁺`.
//!
//! The mass-to-token conversion (`round(mass · emission_scale)`) and the
//! integer weights of the split are floating-point computations; they are
//! taken here as arguments, and everything around them is this module's.

use vstd::prelude::*;

use crate::fixed::{
    balanced, fx_add, fx_div, fx_mul, in_range, lemma_balanced_id, lemma_balanced_in_range, rescale,
    round_div, scale, trunc_div, Fx,
};

verus! {

broadcast use {lemma_balanced_in_range, lemma_balanced_id};

/// One neuron's share after conservation (field units) and its token amount.
#[derive(Clone, Copy, Debug)]
pub struct ConserveResult {
    pub neuron: [u8; 32],
    /// Conserved field share (sums to min(v★, Δφ⁺)).
    pub share: Fx,
    /// Token units after scale + budget cap (sums to ≤ budget).
    pub amount: u64,
}

#[derive(Debug, PartialEq, Eq, Structural)]
pub enum ConserveError {
    Empty,
    NoPositiveShare,
    BudgetZero,
}

/// Left-to-right fixed-point sum of the positive raw shares.
pub open spec fn pos_sum(raw: Seq<([u8; 32], Fx)>) -> int
    decreases raw.len(),
{
    if raw.len() == 0 {
        0
    } else {
        let acc = pos_sum(raw.drop_last());
        if raw.last().1@ > 0 {
            fx_add(acc, raw.last().1@)
        } else {
            acc
        }
    }
}

/// Left-to-right fixed-point sum of all shares.
pub open spec fn fx_sum(s: Seq<([u8; 32], Fx)>) -> int
    decreases s.len(),
{
    if s.len() == 0 {
        0
    } else {
        fx_add(fx_sum(s.drop_last()), s.last().1@)
    }
}

/// `min(v★, Δφ⁺)`: the directed total when it is positive and below the
/// positive mass, the positive mass otherwise.
pub open spec fn clip_ceiling(sum_pos: int, directed_total: int) -> int {
    if directed_total > 0 && directed_total < sum_pos {
        directed_total
    } else {
        sum_pos
    }
}

/// The conserved share of one raw share under `scale = ceiling / sum_pos`.
pub open spec fn clipped(raw_share: int, scale_fx: int) -> int {
    if raw_share <= 0 {
        0
    } else {
        fx_mul(raw_share, scale_fx)
    }
}

/// The scale every positive raw share is multiplied by.
pub open spec fn clip_scale(raw: Seq<([u8; 32], Fx)>, directed_total: int) -> int {
    fx_div(clip_ceiling(pos_sum(raw), directed_total), pos_sum(raw))
}

/// `out` is `raw` with each share clipped under `clip_scale(raw, directed_total)`.
pub open spec fn is_clip_of(
    out: Seq<([u8; 32], Fx)>,
    raw: Seq<([u8; 32], Fx)>,
    directed_total: int,
) -> bool {
    &&& out.len() == raw.len()
    &&& forall|i: int|
        0 <= i < raw.len() ==> (#[trigger] out[i]).0 == raw[i].0 && out[i].1@ == clipped(
            raw[i].1@,
            clip_scale(raw, directed_total),
        )
}

/// Proportional clip of raw Shapley shares to `min(v_star, directed_total)`.
///
/// - `raw`: (neuron, shapley share) — may not sum exactly (MC estimate)
/// - `directed_total`: realized Δφ⁺ of the full coalition
/// - If the positive shares sum to ≤ 0 → error
/// - Conserved share_i = raw_i * ceiling / sum_raw (only positive raw)
/// - Negative / zero raw → zero conserved share
pub fn clip_shares(raw: &[([u8; 32], Fx)], directed_total: Fx) -> (r: Result<
    Vec<([u8; 32], Fx)>,
    ConserveError,
>)
    ensures
        raw@.len() == 0 ==> r == Err::<Vec<([u8; 32], Fx)>, ConserveError>(ConserveError::Empty),
        raw@.len() > 0 && pos_sum(raw@) <= 0 ==> r == Err::<Vec<([u8; 32], Fx)>, ConserveError>(
            ConserveError::NoPositiveShare,
        ),
        raw@.len() > 0 && pos_sum(raw@) > 0 ==> (r matches Ok(out) && is_clip_of(
            out@,
            raw@,
            directed_total@,
        )),
{
    if raw.len() == 0 {
        return Err(ConserveError::Empty);
    }
    let mut sum_pos = Fx::zero();
    let mut i: usize = 0;
    while i < raw.len()
        invariant
            i <= raw.len(),
            sum_pos@ == pos_sum(raw@.subrange(0, i as int)),
        decreases raw.len() - i,
    {
        proof {
            assert(raw@.subrange(0, i + 1).drop_last() =~= raw@.subrange(0, i as int));
        }
        let s = raw[i].1;
        if s.gt(&Fx::zero()) {
            sum_pos = sum_pos.add(s);
        }
        i = i + 1;
    }
    assert(raw@.subrange(0, i as int) =~= raw@);
    if sum_pos.le(&Fx::zero()) {
        return Err(ConserveError::NoPositiveShare);
    }
    // v★ ≈ sum of positive lottery shares; ceiling = min(v★, Δφ⁺)
    let mut ceiling = sum_pos;
    if directed_total.gt(&Fx::zero()) && directed_total.lt(&ceiling) {
        ceiling = directed_total;
    }
    // If directed_total is zero but shares positive (edge path), keep sum_pos
    // so propose-path mints still work; pure zero-value fails above.
    let scale_fx = ceiling.div(sum_pos);
    let mut out: Vec<([u8; 32], Fx)> = Vec::new();
    let mut k: usize = 0;
    while k < raw.len()
        invariant
            k <= raw.len(),
            scale_fx@ == clip_scale(raw@, directed_total@),
            out@.len() == k,
            forall|j: int|
                0 <= j < k ==> (#[trigger] out@[j]).0 == raw@[j].0 && out@[j].1@ == clipped(
                    raw@[j].1@,
                    scale_fx@,
                ),
        decreases raw.len() - k,
    {
        let (n, s) = raw[k];
        if s.le(&Fx::zero()) {
            out.push((n, Fx::zero()));
        } else {
            out.push((n, s.mul(scale_fx)));
        }
        k = k + 1;
    }
    Ok(out)
}

/// Law: clipping never raises a share. With a positive ceiling no larger
/// than the positive mass, the scale is at most one, so every conserved
/// share lies between zero and its raw share.
pub proof fn lemma_clip_never_grows(raw_share: int, ceiling: int, sum_pos: int)
    requires
        0 < ceiling <= sum_pos,
        in_range(sum_pos),
        0 < raw_share,
        in_range(raw_share),
    ensures
        0 <= fx_div(ceiling, sum_pos) <= scale(),
        0 <= clipped(raw_share, fx_div(ceiling, sum_pos)) <= raw_share,
{
    let num = ceiling * scale();
    let half = sum_pos / 2;
    assert(num >= 0) by (nonlinear_arith)
        requires
            ceiling > 0,
            num == ceiling * scale(),
            scale() == 4294967296,
    ;
    assert(trunc_div(num + half, sum_pos) == (num + half) / sum_pos);
    assert(num + half <= sum_pos * scale() + sum_pos - 1) by (nonlinear_arith)
        requires
            num == ceiling * scale(),
            ceiling <= sum_pos,
            half == sum_pos / 2,
            sum_pos > 0,
            scale() == 4294967296,
    ;
    let q = (num + half) / sum_pos;
    assert(0 <= q <= scale()) by (nonlinear_arith)
        requires
            q == (num + half) / sum_pos,
            num + half >= 0,
            num + half <= sum_pos * scale() + sum_pos - 1,
            sum_pos > 0,
            scale() == 4294967296,
    ;
    assert(round_div(num, sum_pos) == q);
    assert(in_range(q));
    assert(fx_div(ceiling, sum_pos) == q);
    let prod = raw_share * q;
    assert(0 <= prod <= raw_share * scale()) by (nonlinear_arith)
        requires
            prod == raw_share * q,
            0 <= q <= scale(),
            raw_share > 0,
            scale() == 4294967296,
    ;
    let m = (prod + scale() / 2) / scale();
    assert(0 <= m <= raw_share) by (nonlinear_arith)
        requires
            m == (prod + scale() / 2) / scale(),
            0 <= prod <= raw_share * scale(),
            scale() == 4294967296,
    ;
    assert(rescale(prod) == m);
    assert(in_range(m));
}

/// Budget check and clip, the first half of conservation + allocation:
/// the conserved shares and their fixed-point sum (the conserved mass).
pub fn conserve_shares(raw: &[([u8; 32], Fx)], directed_total: Fx, budget: u64) -> (r: Result<
    (Vec<([u8; 32], Fx)>, Fx),
    ConserveError,
>)
    ensures
        budget == 0 ==> r == Err::<(Vec<([u8; 32], Fx)>, Fx), ConserveError>(ConserveError::BudgetZero),
        budget != 0 && raw@.len() == 0 ==> r == Err::<(Vec<([u8; 32], Fx)>, Fx), ConserveError>(
            ConserveError::Empty,
        ),
        budget != 0 && raw@.len() > 0 && pos_sum(raw@) <= 0 ==> r == Err::<
            (Vec<([u8; 32], Fx)>, Fx),
            ConserveError,
        >(ConserveError::NoPositiveShare),
        budget != 0 && raw@.len() > 0 && pos_sum(raw@) > 0 ==> (r matches Ok(c) && is_clip_of(
            c.0@,
            raw@,
            directed_total@,
        ) && c.1@ == fx_sum(c.0@)),
{
    if budget == 0 {
        return Err(ConserveError::BudgetZero);
    }
    let conserved = match clip_shares(raw, directed_total) {
        Ok(c) => c,
        Err(e) => {
            return Err(e);
        },
    };
    let mut sum_fx = Fx::zero();
    let mut i: usize = 0;
    while i < conserved.len()
        invariant
            i <= conserved.len(),
            sum_fx@ == fx_sum(conserved@.subrange(0, i as int)),
        decreases conserved.len() - i,
    {
        proof {
            assert(conserved@.subrange(0, i + 1).drop_last() =~= conserved@.subrange(0, i as int));
        }
        sum_fx = sum_fx.add(conserved[i].1);
        i = i + 1;
    }
    assert(conserved@.subrange(0, i as int) =~= conserved@);
    Ok((conserved, sum_fx))
}

/// Σ of a list of weights.
pub open spec fn weights_sum(ws: Seq<u128>) -> int
    decreases ws.len(),
{
    if ws.len() == 0 {
        0
    } else {
        weights_sum(ws.drop_last()) + ws.last() as int
    }
}

/// `floor(w · total / sum_w)`.
pub open spec fn floor_share(w: int, total: int, sum_w: int) -> int {
    (w * total) / sum_w
}

/// Σ of the floored shares of the first `k` weights.
pub open spec fn prefix_alloc(ws: Seq<u128>, total: int, sum_w: int, k: int) -> int
    decreases k,
{
    if k <= 0 {
        0
    } else {
        prefix_alloc(ws, total, sum_w, k - 1) + floor_share(ws[k - 1] as int, total, sum_w)
    }
}

/// `j` is the first index with a positive weight.
pub open spec fn first_weighted(ws: Seq<u128>, j: int) -> bool {
    0 <= j < ws.len() && ws[j] > 0 && forall|i: int| 0 <= i < j ==> ws[i] == 0
}

/// The amount index `i` receives when `total` tokens are split by `ws`:
/// every entry but the last gets its floored share, the last the residual;
/// when the last has no weight the residual goes to the first weighted entry.
pub open spec fn split_amount(ws: Seq<u128>, total: int, i: int) -> int {
    let n = ws.len() as int;
    let w_sum = weights_sum(ws);
    let a = prefix_alloc(ws, total, w_sum, n - 1);
    let base = if i < n - 1 {
        floor_share(ws[i] as int, total, w_sum)
    } else if ws[n - 1] > 0 {
        total - a
    } else {
        0
    };
    base + (if ws[n - 1] == 0 && first_weighted(ws, i) {
        total - a
    } else {
        0
    })
}

/// `b` is the first largest positive share among the first `k`.
pub open spec fn dust_winner(s: Seq<([u8; 32], Fx)>, b: int, k: int) -> bool {
    &&& 0 <= b < k
    &&& s[b].1@ > 0
    &&& forall|i: int| 0 <= i < b ==> s[i].1@ <= 0 || s[i].1@ < s[b].1@
    &&& forall|i: int| b < i < k ==> #[trigger] s[i].1@ <= s[b].1@
}

pub open spec fn has_positive(s: Seq<([u8; 32], Fx)>) -> bool {
    exists|i: int| 0 <= i < s.len() && s[i].1@ > 0
}

/// Σ of the token amounts of an allocation.
pub open spec fn amount_sum(out: Seq<ConserveResult>) -> int
    decreases out.len(),
{
    if out.len() == 0 {
        0
    } else {
        amount_sum(out.drop_last()) + out.last().amount as int
    }
}

pub open spec fn min_int(a: int, b: int) -> int {
    if a <= b {
        a
    } else {
        b
    }
}

/// `out` carries the neurons and shares of `shares` in order.
pub open spec fn carries(out: Seq<ConserveResult>, shares: Seq<([u8; 32], Fx)>) -> bool {
    &&& out.len() == shares.len()
    &&& forall|i: int|
        0 <= i < shares.len() ==> (#[trigger] out[i]).neuron == shares[i].0 && out[i].share == shares[i].1
}

pub proof fn lemma_weights_prefix(ws: Seq<u128>, k: int)
    requires
        0 <= k < ws.len(),
    ensures
        weights_sum(ws.subrange(0, k + 1)) == weights_sum(ws.subrange(0, k)) + ws[k],
        0 <= weights_sum(ws.subrange(0, k)),
        weights_sum(ws.subrange(0, k + 1)) <= weights_sum(ws),
    decreases ws.len() - k,
{
    assert(ws.subrange(0, k + 1).drop_last() =~= ws.subrange(0, k));
    lemma_weights_nonneg(ws.subrange(0, k));
    if k + 1 < ws.len() {
        lemma_weights_prefix(ws, k + 1);
    } else {
        assert(ws.subrange(0, k + 1) =~= ws);
    }
}

pub proof fn lemma_weights_nonneg(ws: Seq<u128>)
    ensures
        weights_sum(ws) >= 0,
    decreases ws.len(),
{
    if ws.len() > 0 {
        lemma_weights_nonneg(ws.drop_last());
    }
}

/// The floored shares of a prefix never exceed its exact share of `total`.
proof fn lemma_prefix_alloc_bound(ws: Seq<u128>, total: int, sum_w: int, k: int)
    requires
        0 <= k <= ws.len(),
        total >= 0,
        sum_w > 0,
    ensures
        0 <= prefix_alloc(ws, total, sum_w, k),
        prefix_alloc(ws, total, sum_w, k) * sum_w <= weights_sum(ws.subrange(0, k)) * total,
    decreases k,
{
    if k == 0 {
        assert(ws.subrange(0, 0).len() == 0);
    } else {
        lemma_prefix_alloc_bound(ws, total, sum_w, k - 1);
        lemma_weights_prefix(ws, k - 1);
        let w = ws[k - 1] as int;
        let f = floor_share(w, total, sum_w);
        assert(0 <= f && f * sum_w <= w * total) by (nonlinear_arith)
            requires
                f == (w * total) / sum_w,
                w >= 0,
                total >= 0,
                sum_w > 0,
        ;
        let p = prefix_alloc(ws, total, sum_w, k - 1);
        let wp = weights_sum(ws.subrange(0, k - 1));
        assert((p + f) * sum_w <= (wp + w) * total) by (nonlinear_arith)
            requires
                p * sum_w <= wp * total,
                f * sum_w <= w * total,
        ;
    }
}

pub proof fn lemma_prefix_alloc_le_total(ws: Seq<u128>, total: int, k: int)
    requires
        0 <= k <= ws.len(),
        total >= 0,
        weights_sum(ws) > 0,
    ensures
        0 <= prefix_alloc(ws, total, weights_sum(ws), k) <= total,
{
    let w_sum = weights_sum(ws);
    lemma_prefix_alloc_bound(ws, total, w_sum, k);
    if k < ws.len() {
        lemma_weights_prefix(ws, k);
    } else {
        assert(ws.subrange(0, k) =~= ws);
    }
    let p = prefix_alloc(ws, total, w_sum, k);
    let wp = weights_sum(ws.subrange(0, k));
    lemma_weights_nonneg(ws.subrange(0, k));
    assert(p <= total) by (nonlinear_arith)
        requires
            p * w_sum <= wp * total,
            0 <= wp <= w_sum,
            w_sum > 0,
            total >= 0,
    ;
}

proof fn lemma_amount_sum_update(out: Seq<ConserveResult>, k: int, x: ConserveResult)
    requires
        0 <= k < out.len(),
    ensures
        amount_sum(out.update(k, x)) == amount_sum(out) - out[k].amount + x.amount,
    decreases out.len(),
{
    let u = out.update(k, x);
    if k == out.len() - 1 {
        assert(u.drop_last() =~= out.drop_last());
    } else {
        assert(u.drop_last() =~= out.drop_last().update(k, x));
        lemma_amount_sum_update(out.drop_last(), k, x);
    }
}

proof fn lemma_amount_sum_prefix(out: Seq<ConserveResult>, k: int)
    requires
        0 <= k < out.len(),
    ensures
        amount_sum(out.subrange(0, k + 1)) == amount_sum(out.subrange(0, k)) + out[k].amount,
{
    assert(out.subrange(0, k + 1).drop_last() =~= out.subrange(0, k));
}

/// Token allocation under the budget cap, the second half of conservation +
/// allocation: `uncapped` is the conserved mass in tokens, `weights` the
/// integer weight of each conserved share; total = min(uncapped, budget)
/// is split proportionally, the residual to the last share (or, when it has
/// no weight, to the first weighted one). A total of zero (sub-scale dust)
/// mints one token to the first largest positive share.
pub fn allocate(shares: &[([u8; 32], Fx)], uncapped: u64, weights: &[u128], budget: u64) -> (r: Result<
    Vec<ConserveResult>,
    ConserveError,
>)
    requires
        weights@.len() == shares@.len(),
        weights_sum(weights@) <= u128::MAX,
        forall|i: int|
            0 <= i < weights@.len() ==> #[trigger] weights@[i] * min_int(uncapped as int, budget as int)
                <= u128::MAX,
    ensures
        ({
            let total = min_int(uncapped as int, budget as int);
            &&& total == 0 && !has_positive(shares@) ==> r == Err::<Vec<ConserveResult>, ConserveError>(
                ConserveError::NoPositiveShare,
            )
            &&& total == 0 && has_positive(shares@) ==> (r matches Ok(out) && carries(out@, shares@)
                && forall|i: int|
                0 <= i < out@.len() ==> (#[trigger] out@[i]).amount == (if dust_winner(
                    shares@,
                    i,
                    shares@.len() as int,
                ) {
                    min_int(1, budget as int)
                } else {
                    0
                }))
            &&& total > 0 && weights_sum(weights@) == 0 ==> r == Err::<Vec<ConserveResult>, ConserveError>(
                ConserveError::NoPositiveShare,
            )
            &&& total > 0 && weights_sum(weights@) > 0 ==> (r matches Ok(out) && carries(out@, shares@)
                && forall|i: int|
                0 <= i < out@.len() ==> (#[trigger] out@[i]).amount == split_amount(weights@, total, i))
            &&& r matches Ok(out) ==> carries(out@, shares@)
            &&& total > 0 ==> (r matches Ok(out) ==> amount_sum(out@) == total)
            &&& total > 0 ==> (r matches Ok(out) ==> forall|i: int|
                0 <= i < out@.len() && weights@[i] == 0 ==> (#[trigger] out@[i]).amount == 0)
        }),
{
    let total_tokens = if uncapped <= budget {
        uncapped
    } else {
        budget
    };
    let n = shares.len();
    if total_tokens == 0 {
        // Sub-scale dust: mint 1 token to the largest positive share.
        let mut best: Option<usize> = None;
        let mut i: usize = 0;
        while i < n
            invariant
                i <= n,
                n == shares@.len(),
                best is None ==> forall|j: int| 0 <= j < i ==> shares@[j].1@ <= 0,
                best matches Some(b) ==> dust_winner(shares@, b as int, i as int),
            decreases n - i,
        {
            let s = shares[i].1;
            let take = match best {
                None => s.gt(&Fx::zero()),
                Some(b) => s.gt(&Fx::zero()) && s.gt(&shares[b].1),
            };
            if take {
                best = Some(i);
            }
            i = i + 1;
        }
        let bi = match best {
            None => {
                return Err(ConserveError::NoPositiveShare);
            },
            Some(b) => b,
        };
        let mut out: Vec<ConserveResult> = Vec::new();
        let mut k: usize = 0;
        while k < n
            invariant
                k <= n,
                n == shares@.len(),
                out@.len() == k,
                forall|j: int|
                    0 <= j < k ==> (#[trigger] out@[j]).neuron == shares@[j].0 && out@[j].share
                        == shares@[j].1 && out@[j].amount == 0,
            decreases n - k,
        {
            out.push(ConserveResult { neuron: shares[k].0, share: shares[k].1, amount: 0 });
            k = k + 1;
        }
        let one = if budget < 1 {
            budget
        } else {
            1
        };
        let winner = ConserveResult { neuron: out[bi].neuron, share: out[bi].share, amount: one };
        out.set(bi, winner);
        proof {
            assert forall|j: int| 0 <= j < out@.len() implies (#[trigger] out@[j]).amount == (if dust_winner(
                shares@,
                j,
                n as int,
            ) {
                min_int(1, budget as int)
            } else {
                0
            }) by {
                if j != bi && dust_winner(shares@, j, n as int) {
                    if j < bi {
                        assert(shares@[bi as int].1@ <= shares@[j].1@);
                    } else {
                        assert(shares@[j].1@ <= shares@[bi as int].1@);
                    }
                }
            }
        }
        return Ok(out);
    }
    // Weights for the integer split
    let mut sum_w: u128 = 0;
    let mut i: usize = 0;
    while i < n
        invariant
            i <= n,
            n == weights@.len(),
            sum_w == weights_sum(weights@.subrange(0, i as int)),
            weights_sum(weights@) <= u128::MAX,
        decreases n - i,
    {
        proof {
            lemma_weights_prefix(weights@, i as int);
        }
        sum_w = sum_w + weights[i];
        i = i + 1;
    }
    assert(weights@.subrange(0, i as int) =~= weights@);
    if sum_w == 0 {
        return Err(ConserveError::NoPositiveShare);
    }
    let ghost ws = weights@;
    let ghost total = total_tokens as int;
    let ghost a_all = prefix_alloc(ws, total, sum_w as int, n - 1);
    proof {
        lemma_prefix_alloc_le_total(ws, total, n - 1);
    }
    let mut out: Vec<ConserveResult> = Vec::new();
    let mut allocated: u64 = 0;
    let mut k: usize = 0;
    while k < n
        invariant
            k <= n,
            n == shares@.len(),
            n == ws.len(),
            ws == weights@,
            total == total_tokens,
            sum_w == weights_sum(ws),
            sum_w > 0,
            total > 0,
            a_all == prefix_alloc(ws, total, sum_w as int, n - 1),
            0 <= a_all <= total,
            forall|j: int| 0 <= j < ws.len() ==> #[trigger] ws[j] * total <= u128::MAX,
            k < n ==> allocated == prefix_alloc(ws, total, sum_w as int, k as int),
            k == n ==> allocated == a_all,
            out@.len() == k,
            forall|j: int|
                0 <= j < k ==> (#[trigger] out@[j]).neuron == shares@[j].0 && out@[j].share
                    == shares@[j].1 && out@[j].amount == (if j < n - 1 {
                    floor_share(ws[j] as int, total, sum_w as int)
                } else if ws[n - 1] > 0 {
                    total - a_all
                } else {
                    0
                }),
        decreases n - k,
    {
        proof {
            lemma_prefix_alloc_le_total(ws, total, k as int);
            lemma_prefix_alloc_le_total(ws, total, k + 1);
            lemma_weight_le_sum(ws, k as int);
            lemma_floor_zero(total, sum_w as int);
        }
        let w = weights[k];
        let amt = if k + 1 == n {
            total_tokens.saturating_sub(allocated)
        } else {
            proof {
                assert(w * total_tokens <= u128::MAX);
                let f = floor_share(w as int, total, sum_w as int);
                assert(f <= total) by (nonlinear_arith)
                    requires
                        f == (w * total) / (sum_w as int),
                        0 <= w <= sum_w,
                        sum_w > 0,
                        total >= 0,
                ;
            }
            let a = ((w * total_tokens as u128) / sum_w) as u64;
            allocated = allocated.saturating_add(a);
            a
        };
        out.push(
            ConserveResult {
                neuron: shares[k].0,
                share: shares[k].1,
                amount: if w == 0 {
                    0
                } else {
                    amt
                },
            },
        );
        k = k + 1;
    }
    // Zero zero-weight; rehome remainder
    let mut z: usize = 0;
    while z < n
        invariant
            z <= n,
            n == weights@.len(),
            n == shares@.len(),
            out@.len() == n,
            sum_w > 0,
            forall|j: int| 0 <= j < z ==> weights@[j] == 0 ==> (#[trigger] out@[j]).amount == 0,
            forall|j: int|
                0 <= j < n ==> (#[trigger] out@[j]).neuron == shares@[j].0 && out@[j].share
                    == shares@[j].1 && out@[j].amount == (if j < n - 1 {
                    floor_share(ws[j] as int, total, sum_w as int)
                } else if ws[n - 1] > 0 {
                    total - a_all
                } else {
                    0
                }),
            ws == weights@,
        decreases n - z,
    {
        if weights[z] == 0 {
            proof {
                lemma_floor_zero(total, sum_w as int);
            }
            let cleared = ConserveResult { neuron: out[z].neuron, share: out[z].share, amount: 0 };
            out.set(z, cleared);
        }
        z = z + 1;
    }
    let mut paid: u64 = 0;
    let mut p: usize = 0;
    proof {
        assert forall|j: int| 0 <= j <= n - 1 implies amount_sum(#[trigger] out@.subrange(0, j)) == prefix_alloc(
            ws,
            total,
            sum_w as int,
            j,
        ) by {
            lemma_out_prefix_sum(out@, ws, total, sum_w as int, j);
        }
    }
    while p < n
        invariant
            p <= n,
            n == out@.len(),
            n == ws.len(),
            paid == amount_sum(out@.subrange(0, p as int)),
            paid <= total,
            total == total_tokens,
            0 <= a_all <= total,
            forall|j: int| 0 <= j <= n - 1 ==> amount_sum(#[trigger] out@.subrange(0, j)) == prefix_alloc(
                ws,
                total,
                sum_w as int,
                j,
            ),
            a_all == prefix_alloc(ws, total, sum_w as int, n - 1),
            forall|j: int|
                0 <= j < n ==> (#[trigger] out@[j]).neuron == shares@[j].0 && out@[j].share
                    == shares@[j].1 && out@[j].amount == (if j < n - 1 {
                    floor_share(ws[j] as int, total, sum_w as int)
                } else if ws[n - 1] > 0 {
                    total - a_all
                } else {
                    0
                }),
            n == shares@.len(),
            total > 0,
            sum_w > 0,
            sum_w == weights_sum(ws),
        decreases n - p,
    {
        proof {
            lemma_amount_sum_prefix(out@, p as int);
            assert(amount_sum(out@.subrange(0, p as int)) == prefix_alloc(ws, total, sum_w as int, p as int));
            if p + 1 < n {
                lemma_prefix_alloc_le_total(ws, total, p + 1);
                assert(prefix_alloc(ws, total, sum_w as int, p + 1) == prefix_alloc(ws, total, sum_w as int, p as int)
                    + floor_share(ws[p as int] as int, total, sum_w as int));
            }
            let x = out@[p as int];
            assert(paid + x.amount <= total);
        }
        paid = paid + out[p].amount;
        p = p + 1;
    }
    assert(out@.subrange(0, p as int) =~= out@);
    let ghost before = out@;
    proof {
        // paid is the floored prefix plus the last entry's amount
        lemma_out_prefix_sum(out@, ws, total, sum_w as int, n - 1);
        lemma_amount_sum_prefix(out@, n - 1);
        assert(out@.subrange(0, n as int) =~= out@);
        assert(paid == a_all + before[n - 1].amount);
        assert forall|i: int| 0 <= i < n && ws[i] == 0 implies (#[trigger] before[i]).amount == 0 by {
            lemma_floor_zero(total, sum_w as int);
        }
    }
    if paid < total_tokens {
        let mut j: usize = 0;
        while j < n && weights[j] == 0
            invariant
                j <= n,
                n == weights@.len(),
                forall|q: int| 0 <= q < j ==> weights@[q] == 0,
            decreases n - j,
        {
            j = j + 1;
        }
        if j < n {
            proof {
                assert(ws[n - 1] == 0);
                assert(j < n - 1);
                lemma_floor_le_prefix(ws, total, sum_w as int, j as int, n - 1);
            }
            let bumped = ConserveResult {
                neuron: out[j].neuron,
                share: out[j].share,
                amount: out[j].amount.saturating_add(total_tokens - paid),
            };
            out.set(j, bumped);
            proof {
                lemma_amount_sum_update(before, j as int, bumped);
                assert(first_weighted(ws, j as int));
                assert forall|i: int| 0 <= i < n implies (#[trigger] out@[i]).amount == split_amount(
                    ws,
                    total,
                    i,
                ) by {
                    if i != j {
                        if first_weighted(ws, i) {
                            if i < j {
                            } else {
                                assert(ws[j as int] == 0);
                            }
                        }
                    }
                }
            }
        } else {
            proof {
                lemma_weights_all_zero(ws, j as int);
            }
        }
    } else {
        proof {
            assert forall|i: int| 0 <= i < n implies (#[trigger] out@[i]).amount == split_amount(
                ws,
                total,
                i,
            ) by {
                if ws[n - 1] == 0 {
                    assert(a_all == total);
                }
            }
        }
    }
    Ok(out)
}

/// One floored share is at most the floored prefix that contains it.
proof fn lemma_floor_le_prefix(ws: Seq<u128>, total: int, sum_w: int, j: int, k: int)
    requires
        0 <= j < k <= ws.len(),
        total >= 0,
        sum_w > 0,
    ensures
        floor_share(ws[j] as int, total, sum_w) <= prefix_alloc(ws, total, sum_w, k),
    decreases k,
{
    lemma_prefix_alloc_bound(ws, total, sum_w, k - 1);
    if j < k - 1 {
        lemma_floor_le_prefix(ws, total, sum_w, j, k - 1);
    }
    let w = ws[k - 1] as int;
    assert(0 <= (w * total) / sum_w) by (nonlinear_arith)
        requires
            w >= 0,
            total >= 0,
            sum_w > 0,
    ;
}

proof fn lemma_floor_zero(total: int, sum_w: int)
    requires
        sum_w > 0,
    ensures
        floor_share(0, total, sum_w) == 0,
{
    assert(0 * total == 0);
}

pub proof fn lemma_weight_le_sum(ws: Seq<u128>, k: int)
    requires
        0 <= k < ws.len(),
    ensures
        ws[k] <= weights_sum(ws),
    decreases ws.len(),
{
    if k == ws.len() - 1 {
        lemma_weights_nonneg(ws.drop_last());
    } else {
        lemma_weight_le_sum(ws.drop_last(), k);
    }
}

proof fn lemma_weights_all_zero(ws: Seq<u128>, j: int)
    requires
        0 <= j <= ws.len(),
        forall|q: int| 0 <= q < j ==> ws[q] == 0,
        j == ws.len(),
    ensures
        weights_sum(ws) == 0,
    decreases ws.len(),
{
    if ws.len() > 0 {
        lemma_weights_all_zero(ws.drop_last(), j - 1);
    }
}

proof fn lemma_out_prefix_sum(out: Seq<ConserveResult>, ws: Seq<u128>, total: int, sum_w: int, j: int)
    requires
        0 <= j <= out.len() - 1,
        out.len() == ws.len(),
        forall|q: int|
            0 <= q < out.len() - 1 ==> (#[trigger] out[q]).amount == floor_share(ws[q] as int, total, sum_w),
    ensures
        amount_sum(out.subrange(0, j)) == prefix_alloc(ws, total, sum_w, j),
    decreases j,
{
    if j > 0 {
        lemma_out_prefix_sum(out, ws, total, sum_w, j - 1);
        lemma_amount_sum_prefix(out, j - 1);
    }
}

} // verus!
