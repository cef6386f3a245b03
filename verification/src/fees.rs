//! Fee distribution of a home book.
//!
//! Holding $ν is the right to a pro-rata share of the fees ν's book collects
//! for as long as the book lives. A book's fees accumulate, in the book's own
//! token, in its fee pool — the account [`fee_pool`] derives from the token
//! id. [`distribute_fees`] pays the pool out to every holder of the token pro
//! rata by balance, by `MintLedger::transfer`, so supply is untouched and
//! conservation holds on every leg. Nothing is minted here.
//!
//! A referrer's income from a book is then `r · fees` when it holds `r` of
//! $ν; a book with no fees pays nothing however many such books are
//! referred, and the payout is a function of fees collected, never of heads
//! referred.

use vstd::prelude::*;

use crate::hashing::{hemera_digest, hemera_hash};
use crate::ids::{id_eq, id_less, id_lt, NeuronId, TokenId};
use crate::ledger::{LedgerError, MintLedger};
use crate::slots::holders_sum;

verus! {

/// Receipt of one distribution: what left the pool and who received it.
#[derive(Clone, Debug, PartialEq, Eq)]
pub struct FeeReceipt {
    /// Fees paid out this call; equals the sum of `payouts`.
    pub distributed: u64,
    /// (holder, amount) for every holder that received a nonzero amount,
    /// ascending by neuron id.
    pub payouts: Vec<(NeuronId, u64)>,
}

/// The domain tag `"oikos-fees-v0"`.
pub open spec fn fees_tag() -> Seq<u8> {
    seq![111u8, 105u8, 107u8, 111u8, 115u8, 45u8, 102u8, 101u8, 101u8, 115u8, 45u8, 118u8, 48u8]
}

/// The fee pool account of `token`: `hemera("oikos-fees-v0" ‖ token)`.
pub open spec fn fee_pool_spec(token: TokenId) -> Seq<u8> {
    hemera_digest(fees_tag() + token@)
}

/// The fee pool account of `token` as an id.
pub open spec fn fee_pool_id(token: TokenId) -> NeuronId {
    choose|a: NeuronId| a@ == fee_pool_spec(token)
}

/// The account a book's fees accumulate in: `hemera("oikos-fees-v0" ‖ token)`.
/// A pure function of the token id, no state read.
pub fn fee_pool(token: &TokenId) -> (r: NeuronId)
    ensures
        r@ == fee_pool_spec(*token),
        r == fee_pool_id(*token),
{
    let mut buf: Vec<u8> = Vec::new();
    let tag: [u8; 13] = [111, 105, 107, 111, 115, 45, 102, 101, 101, 115, 45, 118, 48];
    assert(tag@ =~= fees_tag());
    let mut i: usize = 0;
    while i < 13
        invariant
            i <= 13,
            buf@ == tag@.subrange(0, i as int),
        decreases 13 - i,
    {
        buf.push(tag[i]);
        i = i + 1;
        proof {
            assert(buf@ =~= tag@.subrange(0, i as int));
        }
    }
    assert(tag@.subrange(0, 13) =~= tag@);
    crate::hashing::push_id(&mut buf, token);
    let r = hemera_hash(buf.as_slice());
    proof {
        assert(buf@ =~= fees_tag() + token@);
        let c = fee_pool_id(*token);
        assert(c@ == r@);
        assert(c@ =~= r@);
        vstd::array::axiom_array_ext_equal(c, r);
    }
    r
}

/// The holders of a token other than `pool`, in order.
pub open spec fn without(h: Seq<(NeuronId, u64)>, pool: NeuronId) -> Seq<(NeuronId, u64)>
    decreases h.len(),
{
    if h.len() == 0 {
        Seq::empty()
    } else {
        let p = without(h.drop_last(), pool);
        if h.last().0 == pool {
            p
        } else {
            p.push(h.last())
        }
    }
}

/// `floor(fees · b / total)`.
pub open spec fn floor_part(fees: int, b: int, total: int) -> int {
    (fees * b) / total
}

/// `fees · b mod total`, what flooring dropped.
pub open spec fn rem_part(fees: int, b: int, total: int) -> int {
    (fees * b) % total
}

/// Σ of the floored parts of the first `k` holders.
pub open spec fn floors_sum(h: Seq<(NeuronId, u64)>, fees: int, total: int, k: int) -> int
    decreases k,
{
    if k <= 0 {
        0
    } else {
        floors_sum(h, fees, total, k - 1) + floor_part(fees, h[k - 1].1 as int, total)
    }
}

/// Σ of the dropped remainders of the first `k` holders.
pub open spec fn rems_sum(h: Seq<(NeuronId, u64)>, fees: int, total: int, k: int) -> int
    decreases k,
{
    if k <= 0 {
        0
    } else {
        rems_sum(h, fees, total, k - 1) + rem_part(fees, h[k - 1].1 as int, total)
    }
}

/// Holder `j` comes before holder `i` for the leftover units: larger
/// remainder first, ties to the smaller neuron id.
pub open spec fn rem_before(h: Seq<(NeuronId, u64)>, fees: int, total: int, j: int, i: int) -> bool {
    let rj = rem_part(fees, h[j].1 as int, total);
    let ri = rem_part(fees, h[i].1 as int, total);
    rj > ri || (rj == ri && id_lt(h[j].0, h[i].0))
}

/// Where a stable insertion puts index `x` into `order`.
pub open spec fn rank_pos(h: Seq<(NeuronId, u64)>, fees: int, total: int, order: Seq<int>, x: int) -> int
    decreases order.len(),
{
    if order.len() == 0 {
        0
    } else if rem_before(h, fees, total, x, order.last()) {
        rank_pos(h, fees, total, order.drop_last(), x)
    } else {
        order.len() as int
    }
}

/// Holder indices `0..k` sorted by largest remainder, ties to the smaller id.
pub open spec fn rank_order(h: Seq<(NeuronId, u64)>, fees: int, total: int, k: int) -> Seq<int>
    decreases k,
{
    if k <= 0 {
        Seq::empty()
    } else {
        let o = rank_order(h, fees, total, k - 1);
        o.insert(rank_pos(h, fees, total, o, k - 1), k - 1)
    }
}

/// Whether `i` is among the first `m` entries of `order`.
pub open spec fn marked(order: Seq<int>, m: int, i: int) -> bool {
    exists|q: int| 0 <= q < m && q < order.len() && order[q] == i
}

/// For each of `n` holders, whether it is among the first `m` of `order`.
pub open spec fn marks(order: Seq<int>, m: int, n: int) -> Seq<bool> {
    Seq::new(n as nat, |i: int| marked(order, m, i))
}

/// How many of the first `k` flags are set.
pub open spec fn count_true(s: Seq<bool>, k: int) -> int
    decreases k,
{
    if k <= 0 {
        0
    } else {
        count_true(s, k - 1) + (if s[k - 1] {
            1int
        } else {
            0int
        })
    }
}

/// The units left over after flooring every share.
pub open spec fn leftover_of(h: Seq<(NeuronId, u64)>, fees: int) -> int {
    fees - floors_sum(h, fees, holders_sum(h), h.len() as int)
}

/// Holder indices in the order the leftover units are handed out.
pub open spec fn order_of(h: Seq<(NeuronId, u64)>, fees: int) -> Seq<int> {
    rank_order(h, fees, holders_sum(h), h.len() as int)
}

/// What holder `i` receives: its floored part, plus one unit when it is
/// among the first `fees − Σ floors` in remainder order.
pub open spec fn fee_amount(h: Seq<(NeuronId, u64)>, fees: int, i: int) -> int {
    floor_part(fees, h[i].1 as int, holders_sum(h)) + (if marked(order_of(h, fees), leftover_of(h, fees), i) {
        1int
    } else {
        0int
    })
}

/// Σ of what the first `k` holders receive.
pub open spec fn amounts_sum(h: Seq<(NeuronId, u64)>, fees: int, k: int) -> int
    decreases k,
{
    if k <= 0 {
        0
    } else {
        amounts_sum(h, fees, k - 1) + fee_amount(h, fees, k - 1)
    }
}

/// The `(holder, amount)` payouts with a positive amount, in holder order.
pub open spec fn payouts_spec(h: Seq<(NeuronId, u64)>, fees: int, k: int) -> Seq<(NeuronId, u64)>
    decreases k,
{
    if k <= 0 {
        Seq::empty()
    } else {
        let p = payouts_spec(h, fees, k - 1);
        let a = fee_amount(h, fees, k - 1);
        if a > 0 {
            p.push((h[k - 1].0, a as u64))
        } else {
            p
        }
    }
}

/// Σ of a list of payouts.
pub open spec fn payout_sum(p: Seq<(NeuronId, u64)>) -> int
    decreases p.len(),
{
    if p.len() == 0 {
        0
    } else {
        payout_sum(p.drop_last()) + p.last().1 as int
    }
}

/// The amount of the payouts that goes to `n`.
pub open spec fn paid_to(p: Seq<(NeuronId, u64)>, n: NeuronId) -> int
    decreases p.len(),
{
    if p.len() == 0 {
        0
    } else {
        paid_to(p.drop_last(), n) + (if p.last().0 == n {
            p.last().1 as int
        } else {
            0
        })
    }
}

/// Paying `p` out of a pool with `unlocked` liquid units one leg at a time:
/// the first leg the pool cannot cover, with what it had left at that point.
pub open spec fn first_short(p: Seq<(NeuronId, u64)>, unlocked: int) -> Option<(int, int)>
    decreases p.len(),
{
    if p.len() == 0 {
        None
    } else {
        match first_short(p.drop_last(), unlocked) {
            Some(x) => Some(x),
            None => {
                let left = unlocked - payout_sum(p.drop_last());
                if left < p.last().1 {
                    Some((left, p.last().1 as int))
                } else {
                    None
                }
            },
        }
    }
}

/// Σ floors · total + Σ remainders = fees · Σ balances.
proof fn lemma_floor_rem(h: Seq<(NeuronId, u64)>, fees: int, total: int, k: int)
    requires
        0 <= k <= h.len(),
        total > 0,
        fees >= 0,
    ensures
        floors_sum(h, fees, total, k) * total + rems_sum(h, fees, total, k) == fees * holders_sum(
            h.subrange(0, k),
        ),
        0 <= rems_sum(h, fees, total, k) < k * total || k == 0,
        0 <= floors_sum(h, fees, total, k),
    decreases k,
{
    if k > 0 {
        lemma_floor_rem(h, fees, total, k - 1);
        assert(h.subrange(0, k).drop_last() =~= h.subrange(0, k - 1));
        let b = h[k - 1].1 as int;
        vstd::arithmetic::div_mod::lemma_fundamental_div_mod(fees * b, total);
        vstd::arithmetic::div_mod::lemma_mod_bound(fees * b, total);
        assert(fees * b >= 0) by (nonlinear_arith)
            requires
                fees >= 0,
                b >= 0,
        ;
        vstd::arithmetic::div_mod::lemma_div_pos_is_pos(fees * b, total);
        let f0 = floors_sum(h, fees, total, k - 1);
        let r0 = rems_sum(h, fees, total, k - 1);
        let s0 = holders_sum(h.subrange(0, k - 1));
        let f = floor_part(fees, b, total);
        let r = rem_part(fees, b, total);
        assert((f0 + f) * total + (r0 + r) == fees * (s0 + b)) by (nonlinear_arith)
            requires
                f0 * total + r0 == fees * s0,
                total * f + r == fees * b,
        ;
        assert(k * total == (k - 1) * total + total) by (nonlinear_arith);
    }
}

/// The units flooring leaves over are fewer than the holders.
proof fn lemma_leftover_bound(h: Seq<(NeuronId, u64)>, fees: int)
    requires
        h.len() > 0,
        holders_sum(h) > 0,
        fees >= 0,
    ensures
        0 <= fees - floors_sum(h, fees, holders_sum(h), h.len() as int) < h.len(),
{
    let total = holders_sum(h);
    let n = h.len() as int;
    lemma_floor_rem(h, fees, total, n);
    assert(h.subrange(0, n) =~= h);
    let f = floors_sum(h, fees, total, n);
    let r = rems_sum(h, fees, total, n);
    assert(0 <= fees - f < n) by (nonlinear_arith)
        requires
            f * total + r == fees * total,
            0 <= r < n * total,
            total > 0,
            n > 0,
    ;
}

proof fn lemma_rank_order_perm(h: Seq<(NeuronId, u64)>, fees: int, total: int, k: int)
    requires
        k >= 0,
    ensures
        rank_order(h, fees, total, k).len() == k,
        forall|a: int| 0 <= a < k ==> 0 <= #[trigger] rank_order(h, fees, total, k)[a] < k,
        forall|a: int, b: int|
            0 <= a < b < k ==> #[trigger] rank_order(h, fees, total, k)[a] != #[trigger] rank_order(
                h,
                fees,
                total,
                k,
            )[b],
    decreases k,
{
    if k > 0 {
        lemma_rank_order_perm(h, fees, total, k - 1);
        let o = rank_order(h, fees, total, k - 1);
        lemma_rank_pos_bound(h, fees, total, o, k - 1);
    }
}

proof fn lemma_rank_pos_bound(h: Seq<(NeuronId, u64)>, fees: int, total: int, order: Seq<int>, x: int)
    ensures
        0 <= rank_pos(h, fees, total, order, x) <= order.len(),
    decreases order.len(),
{
    if order.len() > 0 {
        lemma_rank_pos_bound(h, fees, total, order.drop_last(), x);
    }
}


proof fn lemma_rem_before_order(h: Seq<(NeuronId, u64)>, fees: int, total: int, a: int, b: int, c: int)
    requires
        forall|i: int, j: int| 0 <= i < j < h.len() ==> id_lt(#[trigger] h[i].0, #[trigger] h[j].0),
        0 <= a < h.len(),
        0 <= b < h.len(),
        0 <= c < h.len(),
    ensures
        !rem_before(h, fees, total, a, a),
        a != b ==> (rem_before(h, fees, total, a, b) || rem_before(h, fees, total, b, a)),
        rem_before(h, fees, total, a, b) && rem_before(h, fees, total, b, c) ==> rem_before(h, fees, total, a, c),
{
    crate::ids::lemma_id_lt_irreflexive(h[a].0);
    if a != b {
        if a < b {
            assert(id_lt(h[a].0, h[b].0));
        } else {
            assert(id_lt(h[b].0, h[a].0));
        }
    }
    if id_lt(h[a].0, h[b].0) && id_lt(h[b].0, h[c].0) {
        crate::ids::lemma_id_lt_transitive(h[a].0, h[b].0, h[c].0);
    }
}

/// Where `rank_pos` puts `x`: every entry from there on comes after `x`,
/// the one before it does not.
proof fn lemma_rank_pos(h: Seq<(NeuronId, u64)>, fees: int, total: int, order: Seq<int>, x: int)
    ensures
        0 <= rank_pos(h, fees, total, order, x) <= order.len(),
        forall|j: int|
            rank_pos(h, fees, total, order, x) <= j < order.len() ==> rem_before(h, fees, total, x, #[trigger] order[j]),
        rank_pos(h, fees, total, order, x) > 0 ==> !rem_before(
            h,
            fees,
            total,
            x,
            order[rank_pos(h, fees, total, order, x) - 1],
        ),
    decreases order.len(),
{
    if order.len() > 0 && rem_before(h, fees, total, x, order.last()) {
        lemma_rank_pos(h, fees, total, order.drop_last(), x);
        assert forall|j: int|
            rank_pos(h, fees, total, order, x) <= j < order.len() implies rem_before(
            h,
            fees,
            total,
            x,
            #[trigger] order[j],
        ) by {
            if j < order.len() - 1 {
                assert(order[j] == order.drop_last()[j]);
            }
        }
    }
}

/// The leftover order lists every holder once, larger remainders first and
/// ties by the smaller id.
pub proof fn lemma_rank_order_sorted(h: Seq<(NeuronId, u64)>, fees: int, total: int, k: int)
    requires
        0 <= k <= h.len(),
        forall|i: int, j: int| 0 <= i < j < h.len() ==> id_lt(#[trigger] h[i].0, #[trigger] h[j].0),
    ensures
        rank_order(h, fees, total, k).len() == k,
        forall|a: int| 0 <= a < k ==> 0 <= #[trigger] rank_order(h, fees, total, k)[a] < k,
        forall|a: int, b: int|
            0 <= a < b < k ==> rem_before(
                h,
                fees,
                total,
                #[trigger] rank_order(h, fees, total, k)[a],
                #[trigger] rank_order(h, fees, total, k)[b],
            ),
    decreases k,
{
    lemma_rank_order_perm(h, fees, total, k);
    if k > 0 {
        lemma_rank_order_sorted(h, fees, total, k - 1);
        let o = rank_order(h, fees, total, k - 1);
        let x = k - 1;
        let p = rank_pos(h, fees, total, o, x);
        lemma_rank_pos(h, fees, total, o, x);
        let q = o.insert(p, x);
        assert(q == rank_order(h, fees, total, k));
        assert forall|a: int, b: int| 0 <= a < b < k implies rem_before(h, fees, total, #[trigger] q[a], #[trigger] q[b]) by {
            if b < p {
                assert(q[a] == o[a] && q[b] == o[b]);
            } else if b == p {
                assert(q[b] == x);
                assert(q[a] == o[a]);
                assert(o[p - 1] != x);
                lemma_rem_before_order(h, fees, total, x, o[p - 1], x);
                if a < p - 1 {
                    lemma_rem_before_order(h, fees, total, o[a], o[p - 1], x);
                }
            } else if a == p {
                assert(q[a] == x);
                assert(q[b] == o[b - 1]);
            } else if a < p {
                assert(q[a] == o[a] && q[b] == o[b - 1]);
            } else {
                assert(q[a] == o[a - 1] && q[b] == o[b - 1]);
            }
        }
    }
}

proof fn lemma_count_update(s: Seq<bool>, i: int, k: int)
    requires
        0 <= i < s.len(),
        !s[i],
        0 <= k <= s.len(),
    ensures
        count_true(s.update(i, true), k) == count_true(s, k) + (if i < k {
            1int
        } else {
            0int
        }),
    decreases k,
{
    if k > 0 {
        lemma_count_update(s, i, k - 1);
    }
}

proof fn lemma_count_none(s: Seq<bool>, k: int)
    requires
        0 <= k <= s.len(),
        forall|i: int| 0 <= i < s.len() ==> !s[i],
    ensures
        count_true(s, k) == 0,
    decreases k,
{
    if k > 0 {
        lemma_count_none(s, k - 1);
    }
}

/// Marking the first `m` entries of a permutation of `0..n` sets `m` flags.
proof fn lemma_marks_count(order: Seq<int>, m: int, n: int)
    requires
        order.len() == n,
        0 <= m <= n,
        forall|a: int| 0 <= a < n ==> 0 <= #[trigger] order[a] < n,
        forall|a: int, b: int| 0 <= a < b < n ==> #[trigger] order[a] != #[trigger] order[b],
    ensures
        count_true(marks(order, m, n), n) == m,
    decreases m,
{
    if m == 0 {
        lemma_count_none(marks(order, 0, n), n);
    } else {
        lemma_marks_count(order, m - 1, n);
        let prev = marks(order, m - 1, n);
        let x = order[m - 1];
        assert(!prev[x]) by {
            if marked(order, m - 1, x) {
                let q = choose|q: int| 0 <= q < m - 1 && q < order.len() && order[q] == x;
                assert(order[q] != order[m - 1]);
            }
        }
        assert forall|i: int| 0 <= i < n implies #[trigger] marks(order, m, n)[i] == prev.update(x, true)[i] by {
            if i == x {
                assert(marked(order, m, i));
            } else {
                if marked(order, m, i) {
                    let q = choose|q: int| 0 <= q < m && q < order.len() && order[q] == i;
                    assert(q != m - 1);
                    assert(marked(order, m - 1, i));
                }
            }
        }
        assert(marks(order, m, n) =~= prev.update(x, true));
        lemma_count_update(prev, x, n);
    }
}

/// Σ of what the first `k` holders receive is their floors plus the marks.
proof fn lemma_amounts_sum(h: Seq<(NeuronId, u64)>, fees: int, k: int)
    requires
        0 <= k <= h.len(),
    ensures
        amounts_sum(h, fees, k) == floors_sum(h, fees, holders_sum(h), k) + count_true(
            marks(order_of(h, fees), leftover_of(h, fees), h.len() as int),
            k,
        ),
    decreases k,
{
    if k > 0 {
        lemma_amounts_sum(h, fees, k - 1);
    }
}

proof fn lemma_floor_nonneg(fees: int, b: int, total: int)
    requires
        fees >= 0,
        b >= 0,
        total > 0,
    ensures
        0 <= floor_part(fees, b, total),
{
    assert(fees * b >= 0) by (nonlinear_arith)
        requires
            fees >= 0,
            b >= 0,
    ;
    vstd::arithmetic::div_mod::lemma_div_pos_is_pos(fees * b, total);
}

proof fn lemma_amounts_nonneg(h: Seq<(NeuronId, u64)>, fees: int, k: int)
    requires
        0 <= k <= h.len(),
        fees >= 0,
        holders_sum(h) > 0,
    ensures
        forall|i: int| 0 <= i < k ==> 0 <= #[trigger] fee_amount(h, fees, i) <= amounts_sum(h, fees, k),
        amounts_sum(h, fees, k) >= 0,
    decreases k,
{
    if k > 0 {
        lemma_amounts_nonneg(h, fees, k - 1);
        lemma_floor_nonneg(fees, h[k - 1].1 as int, holders_sum(h));
        assert(fee_amount(h, fees, k - 1) >= 0);
    }
}

/// Every holder receives `floor(fees · b / Σb)` or one unit more, and
/// together they receive exactly `fees`.
pub proof fn lemma_fee_split_exact(h: Seq<(NeuronId, u64)>, fees: int)
    requires
        h.len() > 0,
        holders_sum(h) > 0,
        fees >= 0,
    ensures
        amounts_sum(h, fees, h.len() as int) == fees,
        forall|i: int|
            0 <= i < h.len() ==> {
                let f = floor_part(fees, h[i].1 as int, holders_sum(h));
                &&& (#[trigger] fee_amount(h, fees, i) == f || fee_amount(h, fees, i) == f + 1)
                &&& 0 <= fee_amount(h, fees, i) <= fees
            },
{
    let n = h.len() as int;
    let total = holders_sum(h);
    lemma_leftover_bound(h, fees);
    lemma_rank_order_perm(h, fees, total, n);
    lemma_marks_count(order_of(h, fees), leftover_of(h, fees), n);
    lemma_amounts_sum(h, fees, n);
    lemma_amounts_nonneg(h, fees, n);
}

proof fn lemma_payouts_sum(h: Seq<(NeuronId, u64)>, fees: int, k: int)
    requires
        0 <= k <= h.len(),
        forall|i: int| 0 <= i < h.len() ==> 0 <= #[trigger] fee_amount(h, fees, i) <= u64::MAX,
    ensures
        payout_sum(payouts_spec(h, fees, k)) == amounts_sum(h, fees, k),
        forall|j: int|
            0 <= j < payouts_spec(h, fees, k).len() ==> #[trigger] payouts_spec(h, fees, k)[j].1 > 0,
    decreases k,
{
    if k > 0 {
        lemma_payouts_sum(h, fees, k - 1);
        let p = payouts_spec(h, fees, k - 1);
        let a = fee_amount(h, fees, k - 1);
        if a > 0 {
            assert(p.push((h[k - 1].0, a as u64)).drop_last() =~= p);
        }
    }
}

/// Over holders with distinct, ascending ids, each holder is paid exactly
/// its amount, and a neuron that is no holder is paid nothing.
proof fn lemma_paid_to_holders(h: Seq<(NeuronId, u64)>, fees: int, k: int)
    requires
        0 <= k <= h.len(),
        forall|i: int, j: int| 0 <= i < j < h.len() ==> id_lt(#[trigger] h[i].0, #[trigger] h[j].0),
        forall|i: int| 0 <= i < h.len() ==> 0 <= #[trigger] fee_amount(h, fees, i) <= u64::MAX,
    ensures
        forall|i: int| 0 <= i < k ==> paid_to(payouts_spec(h, fees, k), #[trigger] h[i].0) == fee_amount(h, fees, i),
        forall|n: NeuronId|
            (forall|i: int| 0 <= i < k ==> #[trigger] h[i].0 != n) ==> paid_to(payouts_spec(h, fees, k), n) == 0,
    decreases k,
{
    if k > 0 {
        lemma_paid_to_holders(h, fees, k - 1);
        let p = payouts_spec(h, fees, k - 1);
        let a = fee_amount(h, fees, k - 1);
        let x = h[k - 1].0;
        assert forall|i: int| 0 <= i < k - 1 implies #[trigger] h[i].0 != x by {
            assert(id_lt(h[i].0, h[k - 1].0));
            crate::ids::lemma_id_lt_irreflexive(h[i].0);
        }
        if a > 0 {
            let q = p.push((x, a as u64));
            assert(q.drop_last() =~= p);
            assert(0 <= fee_amount(h, fees, k - 1) <= u64::MAX);
            assert(q.last() == (x, a as u64));
            assert(paid_to(p, x) == 0);
            assert(paid_to(q, x) == a);
            assert forall|i: int| 0 <= i < k implies paid_to(q, #[trigger] h[i].0) == fee_amount(h, fees, i) by {
                if i < k - 1 {
                    assert(h[i].0 != x);
                    assert(paid_to(q, h[i].0) == paid_to(p, h[i].0));
                }
            }
            assert forall|n: NeuronId| (forall|i: int| 0 <= i < k ==> #[trigger] h[i].0 != n) implies paid_to(q, n)
                == 0 by {
                assert(h[k - 1].0 != n);
                assert forall|i: int| 0 <= i < k - 1 implies #[trigger] h[i].0 != n by {
                    assert(h[i].0 != n);
                }
                assert(paid_to(p, n) == 0);
            }
        } else {
            assert forall|n: NeuronId| (forall|i: int| 0 <= i < k ==> #[trigger] h[i].0 != n) implies paid_to(
                payouts_spec(h, fees, k),
                n,
            ) == 0 by {
                assert forall|i: int| 0 <= i < k - 1 implies #[trigger] h[i].0 != n by {
                    assert(h[i].0 != n);
                }
                assert(paid_to(p, n) == 0);
            }
        }
    }
}

/// Without `first_short`, the legs together fit in what was liquid.
proof fn lemma_no_short_fits(p: Seq<(NeuronId, u64)>, u: int)
    requires
        first_short(p, u) is None,
        u >= 0,
    ensures
        payout_sum(p) <= u,
        forall|j: int| 0 <= j < p.len() ==> payout_sum(#[trigger] p.subrange(0, j)) + p[j].1 <= u,
    decreases p.len(),
{
    if p.len() > 0 {
        assert(first_short(p.drop_last(), u) is None);
        lemma_no_short_fits(p.drop_last(), u);
        assert(u - payout_sum(p.drop_last()) >= p.last().1);
        assert forall|j: int| 0 <= j < p.len() implies payout_sum(#[trigger] p.subrange(0, j)) + p[j].1 <= u by {
            if j < p.len() - 1 {
                assert(p.subrange(0, j) =~= p.drop_last().subrange(0, j));
            } else {
                assert(p.subrange(0, j) =~= p.drop_last());
            }
        }
    }
}

/// Legs that together fit in what is liquid are all covered.
proof fn lemma_fits_no_short(p: Seq<(NeuronId, u64)>, u: int)
    requires
        payout_sum(p) <= u,
    ensures
        first_short(p, u) is None,
    decreases p.len(),
{
    if p.len() > 0 {
        lemma_fits_no_short(p.drop_last(), u);
    }
}

/// A shortfall found on a prefix of the plan stays the plan's shortfall.
proof fn lemma_short_sticks(h: Seq<(NeuronId, u64)>, fees: int, u: int, k: int, k2: int)
    requires
        0 <= k <= k2,
        first_short(payouts_spec(h, fees, k), u) is Some,
    ensures
        first_short(payouts_spec(h, fees, k2), u) == first_short(payouts_spec(h, fees, k), u),
    decreases k2 - k,
{
    if k2 > k {
        lemma_short_sticks(h, fees, u, k, k2 - 1);
        let p = payouts_spec(h, fees, k2 - 1);
        let a = fee_amount(h, fees, k2 - 1);
        if a > 0 {
            assert(p.push((h[k2 - 1].0, a as u64)).drop_last() =~= p);
        }
    }
}

/// No holder left in `without(h, pool)` is the pool, and their balances
/// sum to no more than all of `h`.
proof fn lemma_without(h: Seq<(NeuronId, u64)>, pool: NeuronId)
    requires
        forall|i: int| 0 <= i < h.len() ==> #[trigger] h[i].1 > 0,
        forall|i: int, j: int| 0 <= i < j < h.len() ==> id_lt(#[trigger] h[i].0, #[trigger] h[j].0),
    ensures
        forall|i: int| 0 <= i < without(h, pool).len() ==> #[trigger] without(h, pool)[i].0 != pool,
        forall|i: int| 0 <= i < without(h, pool).len() ==> #[trigger] without(h, pool)[i].1 > 0,
        forall|i: int, j: int|
            0 <= i < j < without(h, pool).len() ==> id_lt(#[trigger] without(h, pool)[i].0, #[trigger] without(h, pool)[j].0),
        forall|i: int|
            0 <= i < without(h, pool).len() ==> exists|j: int| 0 <= j < h.len() && h[j] == #[trigger] without(h, pool)[i],
        holders_sum(without(h, pool)) <= holders_sum(h),
        without(h, pool).len() <= h.len(),
    decreases h.len(),
{
    if h.len() > 0 {
        let d = h.drop_last();
        lemma_without(d, pool);
        let w = without(d, pool);
        if h.last().0 != pool {
            assert forall|i: int| 0 <= i < w.len() implies id_lt(#[trigger] w[i].0, h.last().0) by {
                let j = choose|j: int| 0 <= j < d.len() && d[j] == w[i];
                assert(h[j] == d[j]);
            }
            assert(w.push(h.last()).drop_last() =~= w);
            assert forall|i: int| 0 <= i < w.push(h.last()).len() implies exists|j: int|
                0 <= j < h.len() && h[j] == #[trigger] w.push(h.last())[i] by {
                if i < w.len() {
                    let j = choose|j: int| 0 <= j < d.len() && d[j] == w[i];
                    assert(h[j] == d[j]);
                } else {
                    assert(h[h.len() - 1] == w.push(h.last())[i]);
                }
            }
        } else {
            assert forall|i: int| 0 <= i < w.len() implies exists|j: int|
                0 <= j < h.len() && h[j] == #[trigger] w[i] by {
                let j = choose|j: int| 0 <= j < d.len() && d[j] == w[i];
                assert(h[j] == d[j]);
            }
        }
    }
}

/// Each amount is at most the sum, and prefix sums grow.
proof fn lemma_holders_bound(h: Seq<(NeuronId, u64)>, k: int)
    requires
        0 <= k <= h.len(),
    ensures
        0 <= holders_sum(h.subrange(0, k)) <= holders_sum(h),
        forall|i: int| 0 <= i < h.len() ==> #[trigger] h[i].1 <= holders_sum(h),
    decreases h.len(),
{
    if h.len() > 0 {
        if k == h.len() {
            assert(h.subrange(0, k) =~= h);
            lemma_holders_bound(h.drop_last(), 0);
            assert(h.drop_last().subrange(0, 0) =~= h.subrange(0, 0));
        } else {
            lemma_holders_bound(h.drop_last(), k);
            assert(h.drop_last().subrange(0, k) =~= h.subrange(0, k));
        }
        assert forall|i: int| 0 <= i < h.len() implies #[trigger] h[i].1 <= holders_sum(h) by {
            if i < h.len() - 1 {
                assert(h[i] == h.drop_last()[i]);
            }
        }
    } else {
        assert(h.subrange(0, k) =~= h);
    }
}

proof fn lemma_floor_le_fees(fees: int, b: int, total: int)
    requires
        fees >= 0,
        0 <= b <= total,
        total > 0,
    ensures
        0 <= floor_part(fees, b, total) <= fees,
{
    lemma_floor_nonneg(fees, b, total);
    vstd::arithmetic::mul::lemma_mul_inequality(b, total, fees);
    assert(fees * b <= fees * total) by (nonlinear_arith)
        requires
            b * fees <= total * fees,
    ;
    vstd::arithmetic::div_mod::lemma_div_is_ordered(fees * b, fees * total, total);
    vstd::arithmetic::div_mod::lemma_div_by_multiple(fees, total);
}


proof fn lemma_floors_le_fees(h: Seq<(NeuronId, u64)>, fees: int, k: int)
    requires
        holders_sum(h) > 0,
        fees >= 0,
        0 <= k <= h.len(),
    ensures
        0 <= floors_sum(h, fees, holders_sum(h), k) <= fees,
{
    let total = holders_sum(h);
    lemma_floor_rem(h, fees, total, k);
    lemma_holders_bound(h, k);
    let f = floors_sum(h, fees, total, k);
    let r = rems_sum(h, fees, total, k);
    let s = holders_sum(h.subrange(0, k));
    assert(f <= fees) by (nonlinear_arith)
        requires
            f * total + r == fees * s,
            r >= 0,
            0 <= s <= total,
            total > 0,
            fees >= 0,
    ;
}

proof fn lemma_payouts_avoid(h: Seq<(NeuronId, u64)>, fees: int, k: int, pool: NeuronId)
    requires
        0 <= k <= h.len(),
        forall|i: int| 0 <= i < h.len() ==> #[trigger] h[i].0 != pool,
    ensures
        forall|j: int| 0 <= j < payouts_spec(h, fees, k).len() ==> #[trigger] payouts_spec(h, fees, k)[j].0 != pool,
    decreases k,
{
    if k > 0 {
        lemma_payouts_avoid(h, fees, k - 1, pool);
        assert(h[k - 1].0 != pool);
        let p = payouts_spec(h, fees, k - 1);
        let a = fee_amount(h, fees, k - 1);
        if a > 0 {
            let q = p.push((h[k - 1].0, a as u64));
            assert forall|j: int| 0 <= j < q.len() implies #[trigger] q[j].0 != pool by {
                if j < p.len() {
                    assert(q[j] == p[j]);
                }
            }
        }
    }
}

/// The holders of `all` other than `pool`.
fn drop_pool(all: &Vec<(NeuronId, u64)>, pool: &NeuronId) -> (r: Vec<(NeuronId, u64)>)
    ensures
        r@ == without(all@, *pool),
{
    let mut r: Vec<(NeuronId, u64)> = Vec::new();
    let mut i: usize = 0;
    while i < all.len()
        invariant
            i <= all.len(),
            r@ == without(all@.subrange(0, i as int), *pool),
        decreases all.len() - i,
    {
        let (n, b) = all[i];
        proof {
            assert(all@.subrange(0, i + 1).drop_last() =~= all@.subrange(0, i as int));
        }
        if !id_eq(&n, pool) {
            r.push((n, b));
        }
        i = i + 1;
    }
    proof {
        assert(all@.subrange(0, all.len() as int) =~= all@);
    }
    r
}

/// Σ of the balances of `h`.
fn balances_total(h: &Vec<(NeuronId, u64)>) -> (r: u128)
    requires
        holders_sum(h@) <= u64::MAX,
    ensures
        r == holders_sum(h@),
{
    let mut t: u128 = 0;
    let mut i: usize = 0;
    while i < h.len()
        invariant
            i <= h.len(),
            holders_sum(h@) <= u64::MAX,
            t == holders_sum(h@.subrange(0, i as int)),
        decreases h.len() - i,
    {
        proof {
            lemma_holders_bound(h@, i + 1);
            assert(h@.subrange(0, i + 1).drop_last() =~= h@.subrange(0, i as int));
        }
        t = t + h[i].1 as u128;
        i = i + 1;
    }
    proof {
        assert(h@.subrange(0, h.len() as int) =~= h@);
    }
    t
}

/// Floor each holder's share of `fees`, keep what flooring dropped, and
/// return Σ floors.
fn floor_shares(h: &Vec<(NeuronId, u64)>, fees: u64, total: u128) -> (r: (Vec<u64>, Vec<u128>, u64))
    requires
        total == holders_sum(h@),
        total > 0,
    ensures
        r.0.len() == h.len(),
        r.1.len() == h.len(),
        forall|i: int|
            0 <= i < h.len() ==> #[trigger] r.0@[i] == floor_part(fees as int, h@[i].1 as int, total as int),
        forall|i: int|
            0 <= i < h.len() ==> #[trigger] r.1@[i] == rem_part(fees as int, h@[i].1 as int, total as int),
        r.2 == floors_sum(h@, fees as int, total as int, h.len() as int),
{
    let mut floors: Vec<u64> = Vec::new();
    let mut rems: Vec<u128> = Vec::new();
    let mut acc: u64 = 0;
    let mut i: usize = 0;
    while i < h.len()
        invariant
            i <= h.len(),
            total == holders_sum(h@),
            total > 0,
            floors.len() == i,
            rems.len() == i,
            forall|j: int|
                0 <= j < i ==> #[trigger] floors@[j] == floor_part(fees as int, h@[j].1 as int, total as int),
            forall|j: int|
                0 <= j < i ==> #[trigger] rems@[j] == rem_part(fees as int, h@[j].1 as int, total as int),
            acc == floors_sum(h@, fees as int, total as int, i as int),
        decreases h.len() - i,
    {
        let b = h[i].1;
        proof {
            lemma_holders_bound(h@, 0);
            lemma_floor_le_fees(fees as int, b as int, total as int);
            lemma_floors_le_fees(h@, fees as int, i + 1);
            assert((fees as int) * (b as int) <= 0xffff_ffff_ffff_ffffu64 as int * 0xffff_ffff_ffff_ffffu64 as int)
                by (nonlinear_arith)
                requires
                    fees <= 0xffff_ffff_ffff_ffffu64,
                    b <= 0xffff_ffff_ffff_ffffu64,
            ;
        }
        let num: u128 = (fees as u128) * (b as u128);
        let f: u64 = (num / total) as u64;
        floors.push(f);
        rems.push(num % total);
        acc = acc + f;
        i = i + 1;
    }
    (floors, rems, acc)
}

/// Whether holder `j` takes a leftover unit before holder `i`.
fn comes_before(h: &Vec<(NeuronId, u64)>, rems: &Vec<u128>, j: usize, i: usize, Ghost(fees): Ghost<int>, Ghost(total): Ghost<int>) -> (r: bool)
    requires
        j < h.len(),
        i < h.len(),
        rems.len() == h.len(),
        forall|k: int| 0 <= k < h.len() ==> #[trigger] rems@[k] == rem_part(fees, h@[k].1 as int, total),
    ensures
        r == rem_before(h@, fees, total, j as int, i as int),
{
    rems[j] > rems[i] || (rems[j] == rems[i] && id_less(&h[j].0, &h[i].0))
}

/// Holder indices ordered by largest remainder, ties to the smaller id.
fn rank_by_remainder(h: &Vec<(NeuronId, u64)>, rems: &Vec<u128>, Ghost(fees): Ghost<int>, Ghost(total): Ghost<int>) -> (order: Vec<usize>)
    requires
        rems.len() == h.len(),
        forall|k: int| 0 <= k < h.len() ==> #[trigger] rems@[k] == rem_part(fees, h@[k].1 as int, total),
    ensures
        order.len() == h.len(),
        forall|a: int| 0 <= a < h.len() ==> #[trigger] order@[a] as int == rank_order(h@, fees, total, h.len() as int)[a],
{
    let n = h.len();
    let mut order: Vec<usize> = Vec::new();
    let mut k: usize = 0;
    while k < n
        invariant
            k <= n,
            n == h.len(),
            rems.len() == n,
            forall|j: int| 0 <= j < n ==> #[trigger] rems@[j] == rem_part(fees, h@[j].1 as int, total),
            order.len() == k,
            forall|a: int| 0 <= a < k ==> #[trigger] order@[a] as int == rank_order(h@, fees, total, k as int)[a],
        decreases n - k,
    {
        let ghost o = rank_order(h@, fees, total, k as int);
        proof {
            lemma_rank_order_perm(h@, fees, total, k as int);
        }
        let mut pos: usize = k;
        proof {
            assert(o.subrange(0, k as int) =~= o);
        }
        loop
            invariant
                pos <= k,
                k < n,
                n == h.len(),
                rems.len() == n,
                forall|j: int| 0 <= j < n ==> #[trigger] rems@[j] == rem_part(fees, h@[j].1 as int, total),
                order.len() == k,
                o.len() == k,
                forall|a: int| 0 <= a < k ==> #[trigger] order@[a] as int == o[a],
                forall|a: int| 0 <= a < k ==> 0 <= #[trigger] o[a] < k,
                rank_pos(h@, fees, total, o, k as int) == rank_pos(h@, fees, total, o.subrange(0, pos as int), k as int),
            ensures
                pos <= k,
                rank_pos(h@, fees, total, o, k as int) == pos,
            decreases pos,
        {
            if pos == 0 {
                break;
            }
            let prev = order[pos - 1];
            proof {
                assert(prev as int == o[pos - 1]);
                assert(o.subrange(0, pos as int).drop_last() =~= o.subrange(0, pos - 1));
            }
            if comes_before(h, rems, k, prev, Ghost(fees), Ghost(total)) {
                pos = pos - 1;
            } else {
                break;
            }
        }
        let ghost before = order@;
        order.insert(pos, k);
        proof {
            assert(rank_order(h@, fees, total, k + 1) == o.insert(pos as int, k as int));
            assert forall|a: int| 0 <= a < k + 1 implies #[trigger] order@[a] as int == rank_order(h@, fees, total, k + 1)[a] by {
                if a < pos {
                    assert(order@[a] == before[a]);
                } else if a > pos {
                    assert(order@[a] == before[a - 1]);
                }
            }
        }
        k = k + 1;
    }
    order
}


/// Hand the leftover units out one apiece in `order`, on top of the floors.
fn add_leftover(floors: Vec<u64>, order: &Vec<usize>, leftover: u64, Ghost(h): Ghost<Seq<(NeuronId, u64)>>, Ghost(fees): Ghost<int>) -> (r: Vec<u64>)
    requires
        h.len() > 0,
        holders_sum(h) > 0,
        0 <= fees <= u64::MAX,
        floors.len() == h.len(),
        order.len() == h.len(),
        forall|i: int| 0 <= i < h.len() ==> #[trigger] floors@[i] == floor_part(fees, h[i].1 as int, holders_sum(h)),
        forall|a: int| 0 <= a < h.len() ==> #[trigger] order@[a] as int == order_of(h, fees)[a],
        leftover == leftover_of(h, fees),
    ensures
        r.len() == h.len(),
        forall|i: int| 0 <= i < h.len() ==> #[trigger] r@[i] == fee_amount(h, fees, i),
{
    let n = floors.len();
    let ghost o = order_of(h, fees);
    proof {
        lemma_leftover_bound(h, fees);
        lemma_rank_order_perm(h, fees, holders_sum(h), n as int);
        lemma_fee_split_exact(h, fees);
    }
    let m: usize = leftover as usize;
    let mut amounts = floors;
    let mut q: usize = 0;
    while q < m
        invariant
            q <= m,
            m == leftover_of(h, fees),
            m < n,
            n == h.len(),
            amounts.len() == n,
            order.len() == n,
            o == order_of(h, fees),
            o.len() == n,
            forall|a: int| 0 <= a < n ==> #[trigger] order@[a] as int == o[a],
            forall|a: int| 0 <= a < n ==> 0 <= #[trigger] o[a] < n,
            forall|a: int, b: int| 0 <= a < b < n ==> #[trigger] o[a] != #[trigger] o[b],
            forall|i: int|
                0 <= i < n ==> #[trigger] amounts@[i] == floor_part(fees, h[i].1 as int, holders_sum(h)) + (if marked(o, q as int, i) {
                    1int
                } else {
                    0int
                }),
            forall|i: int| 0 <= i < n ==> 0 <= #[trigger] fee_amount(h, fees, i) <= fees,
            fees <= u64::MAX,
        decreases m - q,
    {
        let i = order[q];
        proof {
            assert(i as int == o[q as int]);
            if marked(o, q as int, i as int) {
                let w = choose|w: int| 0 <= w < q && w < o.len() && o[w] == i as int;
                assert(o[w] != o[q as int]);
            }
            assert(marked(o, leftover_of(h, fees), i as int));
            assert(fee_amount(h, fees, i as int) <= fees);
        }
        let cur = amounts[i];
        amounts.set(i, cur + 1);
        proof {
            assert forall|j: int| 0 <= j < n implies marked(o, q + 1, j) == (marked(o, q as int, j) || j == i as int) by {
                if marked(o, q + 1, j) && j != i as int {
                    let w = choose|w: int| 0 <= w < q + 1 && w < o.len() && o[w] == j;
                    assert(w != q);
                    assert(marked(o, q as int, j));
                }
                if marked(o, q as int, j) {
                    let w = choose|w: int| 0 <= w < q && w < o.len() && o[w] == j;
                    assert(0 <= w < q + 1 && w < o.len() && o[w] == j);
                }
                if j == i as int {
                    assert(0 <= q < q + 1 && q < o.len() && o[q as int] == j);
                }
            }
        }
        q = q + 1;
    }
    amounts
}

/// The payouts in holder order, or the first one that `unlocked` cannot cover.
fn plan_payouts(h: &Vec<(NeuronId, u64)>, amounts: &Vec<u64>, unlocked: u64, Ghost(fees): Ghost<int>) -> (r: Result<Vec<(NeuronId, u64)>, LedgerError>)
    requires
        amounts.len() == h.len(),
        forall|i: int| 0 <= i < h.len() ==> #[trigger] amounts@[i] == fee_amount(h@, fees, i),
    ensures
        match first_short(payouts_spec(h@, fees, h.len() as int), unlocked as int) {
            Some((have, need)) => r == Err::<Vec<(NeuronId, u64)>, LedgerError>(
                LedgerError::Insufficient { have: have as u64, need: need as u64 },
            ),
            None => (r matches Ok(v) && v@ == payouts_spec(h@, fees, h.len() as int)),
        },
{
    let mut payouts: Vec<(NeuronId, u64)> = Vec::new();
    let mut paid: u64 = 0;
    let mut i: usize = 0;
    while i < h.len()
        invariant
            i <= h.len(),
            amounts.len() == h.len(),
            forall|j: int| 0 <= j < h.len() ==> #[trigger] amounts@[j] == fee_amount(h@, fees, j),
            payouts@ == payouts_spec(h@, fees, i as int),
            paid == payout_sum(payouts@),
            first_short(payouts@, unlocked as int) is None,
            paid <= unlocked,
        decreases h.len() - i,
    {
        let a = amounts[i];
        if a > 0 {
            if unlocked - paid < a {
                proof {
                    assert(payouts_spec(h@, fees, i + 1) == payouts@.push((h@[i as int].0, a)));
                    assert(payouts@.push((h@[i as int].0, a)).drop_last() =~= payouts@);
                    lemma_short_sticks(h@, fees, unlocked as int, i + 1, h.len() as int);
                }
                return Err(LedgerError::Insufficient { have: unlocked - paid, need: a });
            }
            proof {
                assert(payouts@.push((h@[i as int].0, a)).drop_last() =~= payouts@);
            }
            payouts.push((h[i].0, a));
            paid = paid + a;
        }
        i = i + 1;
    }
    Ok(payouts)
}

/// `l1` is `l0` after the legs `p` were paid out of `pool`'s `token` balance.
pub open spec fn paid_out(l1: MintLedger, l0: MintLedger, pool: NeuronId, token: TokenId, p: Seq<(NeuronId, u64)>) -> bool {
    &&& l1.balance_of(pool, token) == l0.balance_of(pool, token) - payout_sum(p)
    &&& forall|n: NeuronId| n != pool ==> #[trigger] l1.balance_of(n, token) == l0.balance_of(n, token) + paid_to(p, n)
    &&& forall|n: NeuronId, t: TokenId| t != token ==> #[trigger] l1.balance_of(n, t) == l0.balance_of(n, t)
    &&& forall|t: TokenId| #[trigger] l1.minted_of(t) == l0.minted_of(t)
    &&& forall|t: TokenId| #[trigger] l1.burned_of(t) == l0.burned_of(t)
    &&& forall|n: NeuronId, t: TokenId| #[trigger] l1.locked_of(n, t) == l0.locked_of(n, t)
}

/// Transfer every leg of `p` out of `pool`.
fn pay_out(ledger: &mut MintLedger, pool: NeuronId, token: TokenId, p: &Vec<(NeuronId, u64)>)
    requires
        first_short(p@, old(ledger).balance_of(pool, token) - old(ledger).locked_of(pool, token)) is None,
        forall|j: int| 0 <= j < p.len() ==> #[trigger] p@[j].0 != pool,
    ensures
        paid_out(*final(ledger), *old(ledger), pool, token, p@),
{
    ledger.conservation_holds();
    let ghost l0 = *ledger;
    let ghost u = l0.balance_of(pool, token) - l0.locked_of(pool, token);
    proof {
        lemma_no_short_fits(p@, u);
    }
    let mut j: usize = 0;
    while j < p.len()
        invariant
            j <= p.len(),
            u == l0.balance_of(pool, token) - l0.locked_of(pool, token),
            u >= 0,
            forall|k: int| 0 <= k < p.len() ==> payout_sum(#[trigger] p@.subrange(0, k)) + p@[k].1 <= u,
            forall|k: int| 0 <= k < p.len() ==> #[trigger] p@[k].0 != pool,
            paid_out(*ledger, l0, pool, token, p@.subrange(0, j as int)),
        decreases p.len() - j,
    {
        let (to, amount) = p[j];
        proof {
            assert(p@.subrange(0, j + 1).drop_last() =~= p@.subrange(0, j as int));
            assert(payout_sum(p@.subrange(0, j as int)) + p@[j as int].1 <= u);
        }
        let res = ledger.transfer(pool, to, token, amount);
        proof {
            assert(res is Ok);
        }
        j = j + 1;
    }
    proof {
        assert(p@.subrange(0, p.len() as int) =~= p@);
    }
}

/// The holders of `token` that share its fees: every holder but the pool.
pub open spec fn fee_holders(l: MintLedger, token: TokenId) -> Seq<(NeuronId, u64)> {
    without(l.holders_view(token), fee_pool_id(token))
}

/// The fees waiting in `token`'s pool.
pub open spec fn pool_fees(l: MintLedger, token: TokenId) -> int {
    l.balance_of(fee_pool_id(token), token) as int
}

/// There is nothing to pay: no fees, or no holder to pay them to.
pub open spec fn nothing_to_pay(l: MintLedger, token: TokenId) -> bool {
    pool_fees(l, token) == 0 || holders_sum(fee_holders(l, token)) == 0
}

/// The `(holder, amount)` legs a distribution of `token`'s pool pays.
pub open spec fn fee_plan(l: MintLedger, token: TokenId) -> Seq<(NeuronId, u64)> {
    let h = fee_holders(l, token);
    payouts_spec(h, pool_fees(l, token), h.len() as int)
}

/// The first leg of the plan the pool's liquid balance cannot cover.
pub open spec fn fee_shortfall(l: MintLedger, token: TokenId) -> Option<(int, int)> {
    first_short(fee_plan(l, token), pool_fees(l, token) - l.locked_of(fee_pool_id(token), token))
}

/// After a distribution of `token`'s pool: every fee holder gained its
/// amount, the pool is empty, and every other account kept its balance.
pub open spec fn fees_received(l1: MintLedger, l0: MintLedger, token: TokenId) -> bool {
    let h = fee_holders(l0, token);
    let fees = pool_fees(l0, token);
    &&& forall|i: int|
        0 <= i < h.len() ==> #[trigger] l1.balance_of(h[i].0, token) == l0.balance_of(h[i].0, token) + fee_amount(
            h,
            fees,
            i,
        )
    &&& l1.balance_of(fee_pool_id(token), token) == 0
    &&& forall|n: NeuronId|
        n != fee_pool_id(token) && (forall|i: int| 0 <= i < h.len() ==> #[trigger] h[i].0 != n) ==> l1.balance_of(
            n,
            token,
        ) == l0.balance_of(n, token)
}

/// Pay the whole balance of `fee_pool(token)` to the token's holders pro rata
/// by balance (the pool itself excluded). Integer split by largest remainder:
/// `floor(fees · b_i / Σb)` each, the leftover units one apiece to the largest
/// fractional parts (ties to the smaller neuron id), so `Σ payouts == fees`
/// exactly. Every leg is a transfer; when the pool cannot cover a leg (part
/// of it is locked) the ledger is left as it was and the error returned. An
/// empty pool or no holders distributes nothing.
pub fn distribute_fees(ledger: &mut MintLedger, token: TokenId) -> (r: Result<FeeReceipt, LedgerError>)
    ensures
        nothing_to_pay(*old(ledger), token) ==> (r matches Ok(rec) && rec.distributed == 0 && rec.payouts@.len() == 0
            && *final(ledger) == *old(ledger)),
        !nothing_to_pay(*old(ledger), token) ==> match fee_shortfall(*old(ledger), token) {
            Some((have, need)) => r == Err::<FeeReceipt, LedgerError>(
                LedgerError::Insufficient { have: have as u64, need: need as u64 },
            ) && *final(ledger) == *old(ledger),
            None => (r matches Ok(rec) && rec.distributed == pool_fees(*old(ledger), token) && rec.payouts@ == fee_plan(
                *old(ledger),
                token,
            ) && paid_out(*final(ledger), *old(ledger), fee_pool_id(token), token, rec.payouts@) && fees_received(
                *final(ledger),
                *old(ledger),
                token,
            )),
        },
        r is Ok <==> (nothing_to_pay(*old(ledger), token) || old(ledger).locked_of(fee_pool_id(token), token) == 0),
        r matches Ok(rec) ==> (payout_sum(rec.payouts@) == rec.distributed && final(ledger).balance_of(
            fee_pool_id(token),
            token,
        ) == old(ledger).balance_of(fee_pool_id(token), token) - rec.distributed),
{
    ledger.conservation_holds();
    let ghost l0 = *ledger;
    let pool = fee_pool(&token);
    let fees = ledger.balance(&pool, &token);
    let all = ledger.holders_of(&token);
    let h = drop_pool(&all, &pool);
    proof {
        lemma_without(all@, pool);
    }
    let total = balances_total(&h);
    if fees == 0 || total == 0 {
        return Ok(FeeReceipt { distributed: 0, payouts: Vec::new() });
    }
    let ghost fi = fees as int;
    let (floors, rems, floored) = floor_shares(&h, fees, total);
    let order = rank_by_remainder(&h, &rems, Ghost(fi), Ghost(total as int));
    proof {
        lemma_floors_le_fees(h@, fi, h.len() as int);
    }
    let leftover = fees - floored;
    let amounts = add_leftover(floors, &order, leftover, Ghost(h@), Ghost(fi));
    let locked = ledger.locked_balance(&pool, &token);
    let unlocked = fees - locked;
    proof {
        lemma_fee_split_exact(h@, fi);
        lemma_payouts_sum(h@, fi, h.len() as int);
        lemma_payouts_avoid(h@, fi, h.len() as int, pool);
        let p = payouts_spec(h@, fi, h.len() as int);
        if locked == 0 {
            lemma_fits_no_short(p, unlocked as int);
        } else if first_short(p, unlocked as int) is None {
            lemma_no_short_fits(p, unlocked as int);
        }
    }
    match plan_payouts(&h, &amounts, unlocked, Ghost(fi)) {
        Err(e) => Err(e),
        Ok(payouts) => {
            pay_out(ledger, pool, token, &payouts);
            proof {
                lemma_paid_to_holders(h@, fi, h.len() as int);
            }
            Ok(FeeReceipt { distributed: fees, payouts })
        },
    }
}

} // verus!
