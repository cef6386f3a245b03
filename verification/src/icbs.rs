//! ICBS market state — reserves and positions under conservation.
//!
//! Cost function of the truth market core: `C(s_Y, s_N) = λ·√(s_Y² + s_N²)`,
//! the self-scaling liquidity that prices a position and doubles as its spam
//! cost. Every trade settles through [`MintLedger`] as a burn from the trader
//! paired with a mint to the market's reserve account (or the reverse on
//! sell), so the ledger's conservation check holds before and after every
//! trade. Pricing a cost delta in tokens is a floating-point step, so a trade
//! is quoted here, priced by the caller, then settled here.

use vstd::prelude::*;

use crate::fixed::{
    fx_add, fx_mul, fx_sqrt, fx_sub, half_p, in_range, lemma_balanced_id, lemma_fx_sqrt_monotone, rescale, scale, Fx,
};
use crate::ids::{id_eq, NeuronId, TokenId};
use crate::ledger::{u64_max, LedgerError, MintLedger};

verus! {

/// One neuron's YES/NO exposure on one cyberlink's ICBS market.
#[derive(Clone, Copy, Debug, PartialEq, Eq, Structural)]
pub struct Position {
    pub s_yes: Fx,
    pub s_no: Fx,
}

impl View for Position {
    type V = (int, int);

    open spec fn view(&self) -> (int, int) {
        (self.s_yes@, self.s_no@)
    }
}

impl Default for Position {
    fn default() -> (r: Self)
        ensures
            r@ == (0int, 0int),
    {
        Position { s_yes: Fx::zero(), s_no: Fx::zero() }
    }
}

#[derive(Debug, PartialEq, Eq, Structural)]
pub enum MarketError {
    Ledger(LedgerError),
    NegativeShares,
    InsufficientPosition,
}

impl From<LedgerError> for MarketError {
    fn from(e: LedgerError) -> (r: Self) {
        MarketError::Ledger(e)
    }
}

impl vstd::std_specs::convert::FromSpecImpl<LedgerError> for MarketError {
    open spec fn obeys_from_spec() -> bool {
        true
    }

    open spec fn from_spec(v: LedgerError) -> MarketError {
        MarketError::Ledger(v)
    }
}

/// `λ·√(s_Y² + s_N²)` in fixed point.
pub open spec fn cost_spec(lambda: int, s_yes: int, s_no: int) -> int {
    fx_mul(lambda, fx_sqrt(fx_add(fx_mul(s_yes, s_yes), fx_mul(s_no, s_no))))
}

/// ICBS cost: `C(s_Y, s_N) = λ·√(s_Y² + s_N²)` — the escrow a position's
/// current shares require, in field units.
pub fn cost(lambda: Fx, s_yes: Fx, s_no: Fx) -> (r: Fx)
    ensures
        r@ == cost_spec(lambda@, s_yes@, s_no@),
{
    let sum_sq = s_yes.mul(s_yes).add(s_no.mul(s_no));
    lambda.mul(sum_sq.sqrt())
}

/// Law: an empty position costs nothing, whatever the liquidity.
pub proof fn lemma_cost_zero_at_origin(lambda: int)
    ensures
        cost_spec(lambda, 0, 0) == 0,
{
    crate::fixed::lemma_balanced_id(0);
    assert(crate::fixed::rescale(0) == 0);
    assert(fx_mul(0, 0) == 0);
    assert(fx_add(0, 0) == 0);
    assert(fx_sqrt(0) == 0);
    assert(crate::fixed::balanced(lambda) * 0 == 0);
    assert(fx_mul(lambda, 0) == 0);
}

proof fn lemma_rescale_monotone(x: int, y: int)
    requires
        0 <= x <= y,
    ensures
        0 <= rescale(x) <= rescale(y),
{
    vstd::arithmetic::div_mod::lemma_div_is_ordered(x + scale() / 2, y + scale() / 2, scale());
    vstd::arithmetic::div_mod::lemma_div_pos_is_pos(x + scale() / 2, scale());
}

/// The fixed-point square of a non-negative value, kept in range.
proof fn lemma_square(a0: int, a1: int)
    requires
        0 <= a0 <= a1,
        in_range(a1),
    ensures
        fx_mul(a0, a0) == crate::fixed::balanced(rescale(a0 * a0)),
        0 <= rescale(a0 * a0) <= rescale(a1 * a1),
{
    lemma_balanced_id(a0);
    assert(a0 * a0 <= a1 * a1) by (nonlinear_arith)
        requires
            0 <= a0 <= a1,
    ;
    assert(0 <= a0 * a0) by (nonlinear_arith);
    lemma_rescale_monotone(a0 * a0, a1 * a1);
}

/// Law: cost never falls as a non-negative position grows. With `λ ≥ 0`
/// and no wrap past the field's range, adding YES or NO shares to a
/// non-negative position never lowers its cost, so a buy's price and a
/// sell's refund are never negative.
pub proof fn lemma_cost_monotone(lambda: int, a0: int, b0: int, a1: int, b1: int)
    requires
        0 <= a0 <= a1,
        0 <= b0 <= b1,
        in_range(a1),
        in_range(b1),
        0 <= lambda,
        in_range(lambda),
        rescale(a1 * a1) + rescale(b1 * b1) <= half_p(),
        rescale(lambda * fx_sqrt(rescale(a1 * a1) + rescale(b1 * b1))) <= half_p(),
    ensures
        0 <= cost_spec(lambda, a0, b0) <= cost_spec(lambda, a1, b1),
{
    lemma_square(a0, a1);
    lemma_square(a1, a1);
    lemma_square(b0, b1);
    lemma_square(b1, b1);
    let s0 = rescale(a0 * a0) + rescale(b0 * b0);
    let s1 = rescale(a1 * a1) + rescale(b1 * b1);
    lemma_balanced_id(rescale(a0 * a0));
    lemma_balanced_id(rescale(b0 * b0));
    lemma_balanced_id(rescale(a1 * a1));
    lemma_balanced_id(rescale(b1 * b1));
    lemma_balanced_id(s0);
    lemma_balanced_id(s1);
    assert(fx_add(fx_mul(a0, a0), fx_mul(b0, b0)) == s0);
    assert(fx_add(fx_mul(a1, a1), fx_mul(b1, b1)) == s1);
    lemma_fx_sqrt_monotone(s0, s1);
    let r0 = fx_sqrt(s0);
    let r1 = fx_sqrt(s1);
    assert(r1 <= half_p()) by {
        if r1 > half_p() {
            assert(r1 * r1 > half_p() * scale()) by (nonlinear_arith)
                requires
                    r1 > half_p(),
                    half_p() > scale(),
            ;
        }
    }
    lemma_balanced_id(lambda);
    lemma_balanced_id(r0);
    lemma_balanced_id(r1);
    assert(0 <= lambda * r0 <= lambda * r1) by (nonlinear_arith)
        requires
            0 <= lambda,
            0 <= r0 <= r1,
    ;
    lemma_rescale_monotone(lambda * r0, lambda * r1);
    lemma_balanced_id(rescale(lambda * r0));
    lemma_balanced_id(rescale(lambda * r1));
}

/// `k` is the first entry held by `n`.
pub open spec fn first_held(s: Seq<(NeuronId, Position)>, n: NeuronId, k: int) -> bool {
    0 <= k < s.len() && s[k].0 == n && forall|j: int| 0 <= j < k ==> s[j].0 != n
}

/// `n`'s position: its first entry, empty when it has none.
pub open spec fn held(s: Seq<(NeuronId, Position)>, n: NeuronId) -> (int, int) {
    if exists|k: int| first_held(s, n, k) {
        s[choose|k: int| first_held(s, n, k)].1@
    } else {
        (0, 0)
    }
}

/// Two lists whose entries are held by the same neurons at the same places
/// give `m` the same position when they agree on `m`'s first entry.
proof fn lemma_held_same(u: Seq<(NeuronId, Position)>, s: Seq<(NeuronId, Position)>, m: NeuronId)
    requires
        u.len() == s.len(),
        forall|j: int| 0 <= j < u.len() ==> (u[j].0 == m <==> s[j].0 == m),
        forall|j: int| 0 <= j < u.len() && u[j].0 == m ==> u[j].1 == s[j].1,
    ensures
        held(u, m) == held(s, m),
{
    assert forall|c: int| first_held(u, m, c) <==> first_held(s, m, c) by {
        if first_held(u, m, c) {
            assert forall|j: int| 0 <= j < c implies s[j].0 != m by {
                assert(u[j].0 != m);
            }
        }
        if first_held(s, m, c) {
            assert forall|j: int| 0 <= j < c implies u[j].0 != m by {
                assert(s[j].0 != m);
            }
        }
    }
    if exists|c: int| first_held(u, m, c) {
        let c = choose|c: int| first_held(u, m, c);
        let c2 = choose|c2: int| first_held(s, m, c2);
        lemma_first_held_unique(s, m, c, c2);
    }
}

proof fn lemma_first_held_unique(s: Seq<(NeuronId, Position)>, n: NeuronId, a: int, b: int)
    requires
        first_held(s, n, a),
        first_held(s, n, b),
    ensures
        a == b,
{
}

/// A cyberlink's ICBS market: positions escrowed against a reserve account
/// under `escrow_token`, both held in the same [`MintLedger`] the mint path
/// conserves.
pub struct Market {
    pub link: TokenId,
    pub escrow_token: TokenId,
    pub reserve_neuron: NeuronId,
    pub lambda: Fx,
    positions: Vec<(NeuronId, Position)>,
}

/// Change in a ledger when `p` of `t` leaves `from` by burn and arrives at
/// `to` by mint.
pub open spec fn burned_and_minted(
    new: MintLedger,
    old: MintLedger,
    t: TokenId,
    from: NeuronId,
    to: NeuronId,
    p: int,
) -> bool {
    &&& forall|n: NeuronId|
        #[trigger] new.balance_of(n, t) == old.balance_of(n, t) - (if n == from {
            p
        } else {
            0
        }) + (if n == to {
            p
        } else {
            0
        })
    &&& new.minted_of(t) == old.minted_of(t) + p
    &&& new.burned_of(t) == old.burned_of(t) + p
    &&& new.same_other_tokens(old, t)
}

/// Change in a ledger when `p` of `t` is burned from `from` and nothing is
/// minted back.
pub open spec fn burned_only(new: MintLedger, old: MintLedger, t: TokenId, from: NeuronId, p: int) -> bool {
    &&& forall|n: NeuronId|
        #[trigger] new.balance_of(n, t) == old.balance_of(n, t) - (if n == from {
            p
        } else {
            0
        })
    &&& new.minted_of(t) == old.minted_of(t)
    &&& new.burned_of(t) == old.burned_of(t) + p
    &&& new.same_other_tokens(old, t)
}

impl Market {
    pub closed spec fn link_id(&self) -> TokenId {
        self.link
    }

    pub closed spec fn escrow(&self) -> TokenId {
        self.escrow_token
    }

    pub closed spec fn reserve_account(&self) -> NeuronId {
        self.reserve_neuron
    }

    pub closed spec fn liquidity(&self) -> int {
        self.lambda@
    }

    pub closed spec fn pos_of(&self, n: NeuronId) -> (int, int) {
        held(self.positions@, n)
    }

    /// `self` is `old` with `n`'s position set to `pos`.
    pub open spec fn placed(&self, old: Market, n: NeuronId, pos: (int, int)) -> bool {
        &&& self.pos_of(n) == pos
        &&& forall|m: NeuronId| m != n ==> #[trigger] self.pos_of(m) == old.pos_of(m)
        &&& self.link_id() == old.link_id()
        &&& self.escrow() == old.escrow()
        &&& self.reserve_account() == old.reserve_account()
        &&& self.liquidity() == old.liquidity()
    }

    pub fn new(link: TokenId, escrow_token: TokenId, reserve_neuron: NeuronId, lambda: Fx) -> (r: Self)
        ensures
            r.link_id() == link,
            r.escrow() == escrow_token,
            r.reserve_account() == reserve_neuron,
            r.liquidity() == lambda@,
            forall|n: NeuronId| #[trigger] r.pos_of(n) == (0int, 0int),
    {
        Market { link, escrow_token, reserve_neuron, lambda, positions: Vec::new() }
    }

    pub fn position(&self, neuron: &NeuronId) -> (r: Position)
        ensures
            r@ == self.pos_of(*neuron),
    {
        match self.find(neuron) {
            Some(k) => self.positions[k].1,
            None => Position::default(),
        }
    }

    fn find(&self, neuron: &NeuronId) -> (r: Option<usize>)
        ensures
            r matches Some(k) ==> first_held(self.positions@, *neuron, k as int) && self.pos_of(*neuron)
                == self.positions@[k as int].1@,
            r is None ==> forall|k: int| 0 <= k < self.positions@.len() ==> self.positions@[k].0 != *neuron,
            r is None ==> self.pos_of(*neuron) == (0int, 0int),
    {
        let mut k: usize = 0;
        while k < self.positions.len()
            invariant
                k <= self.positions@.len(),
                forall|j: int| 0 <= j < k ==> self.positions@[j].0 != *neuron,
            decreases self.positions@.len() - k,
        {
            if id_eq(&self.positions[k].0, neuron) {
                proof {
                    let c = choose|c: int| first_held(self.positions@, *neuron, c);
                    assert(first_held(self.positions@, *neuron, k as int));
                    lemma_first_held_unique(self.positions@, *neuron, c, k as int);
                }
                return Some(k);
            }
            k = k + 1;
        }
        None
    }

    fn place(&mut self, neuron: NeuronId, pos: Position)
        ensures
            final(self).placed(*old(self), neuron, pos@),
    {
        let ghost s = self.positions@;
        match self.find(&neuron) {
            Some(k) => {
                self.positions.set(k, (neuron, pos));
                proof {
                    let u = self.positions@;
                    assert(first_held(u, neuron, k as int));
                    assert forall|m: NeuronId| m != neuron implies #[trigger] held(u, m) == held(s, m) by {
                        assert forall|j: int| 0 <= j < u.len() implies (u[j].0 == m <==> s[j].0 == m) by {
                            if j == k {
                                assert(s[j].0 == neuron);
                            }
                        }
                        lemma_held_same(u, s, m);
                    }
                }
            },
            None => {
                self.positions.push((neuron, pos));
                proof {
                    let u = self.positions@;
                    assert(first_held(u, neuron, s.len() as int));
                    assert forall|m: NeuronId| m != neuron implies #[trigger] held(u, m) == held(s, m) by {
                        if exists|c: int| first_held(u, m, c) {
                            let c = choose|c: int| first_held(u, m, c);
                            assert(c < s.len());
                            assert forall|j: int| 0 <= j < c implies s[j].0 != m by {
                                assert(u[j] == s[j]);
                            }
                            assert(first_held(s, m, c));
                            let c2 = choose|c2: int| first_held(s, m, c2);
                            lemma_first_held_unique(s, m, c, c2);
                        } else {
                            assert forall|c: int| !first_held(s, m, c) by {
                                if first_held(s, m, c) {
                                    assert(first_held(u, m, c));
                                }
                            }
                        }
                    }
                }
            },
        }
    }

    /// The reserve is a ledger balance, not shadow state — it is always
    /// exactly what the trades moved into `reserve_neuron`.
    pub fn reserve(&self, ledger: &MintLedger) -> (r: u64)
        ensures
            r == ledger.balance_of(self.reserve_account(), self.escrow()),
    {
        ledger.balance(&self.reserve_neuron, &self.escrow_token)
    }

    /// Quote a buy of `d_yes`/`d_no` shares (either may be zero, neither
    /// negative): the position after it and the cost increase to be paid.
    pub fn quote_buy(&self, neuron: NeuronId, d_yes: Fx, d_no: Fx) -> (r: Result<(Position, Fx), MarketError>)
        ensures
            d_yes@ < 0 || d_no@ < 0 ==> r == Err::<(Position, Fx), MarketError>(MarketError::NegativeShares),
            d_yes@ >= 0 && d_no@ >= 0 ==> (r matches Ok(q) && {
                let p = self.pos_of(neuron);
                let after = (fx_add(p.0, d_yes@), fx_add(p.1, d_no@));
                &&& q.0@ == after
                &&& q.1@ == fx_sub(cost_spec(self.liquidity(), after.0, after.1), cost_spec(self.liquidity(), p.0, p.1))
            }),
    {
        if d_yes.lt(&Fx::zero()) || d_no.lt(&Fx::zero()) {
            return Err(MarketError::NegativeShares);
        }
        let pos = self.position(&neuron);
        let before = cost(self.lambda, pos.s_yes, pos.s_no);
        let after_yes = pos.s_yes.add(d_yes);
        let after_no = pos.s_no.add(d_no);
        let after = cost(self.lambda, after_yes, after_no);
        Ok((Position { s_yes: after_yes, s_no: after_no }, after.sub(before)))
    }

    /// Settle a quoted buy at `price` tokens: burn the price from the
    /// trader's escrow-token balance, mint the same amount to the market's
    /// reserve, record the new position. Returns the price paid.
    pub fn settle_buy(&mut self, ledger: &mut MintLedger, neuron: NeuronId, pos: Position, price: u64) -> (r: Result<u64, MarketError>)
        ensures
            ({
                let t = old(self).escrow();
                let unlocked = old(ledger).balance_of(neuron, t) - old(ledger).locked_of(neuron, t);
                &&& price == 0 ==> r == Ok::<u64, MarketError>(0) && *final(ledger) == *old(ledger)
                    && final(self).placed(*old(self), neuron, pos@)
                &&& price > 0 && unlocked < price ==> r == Err::<u64, MarketError>(
                    MarketError::Ledger(LedgerError::Insufficient { have: unlocked as u64, need: price }),
                ) && *final(ledger) == *old(ledger) && *final(self) == *old(self)
                &&& price > 0 && unlocked >= price && old(ledger).minted_of(t) + price <= u64_max() ==> r
                    == Ok::<u64, MarketError>(price) && final(self).placed(*old(self), neuron, pos@)
                    && burned_and_minted(*final(ledger), *old(ledger), t, neuron, old(self).reserve_account(), price as int)
                &&& price > 0 && unlocked >= price && old(ledger).minted_of(t) + price > u64_max() ==> r
                    == Err::<u64, MarketError>(MarketError::Ledger(LedgerError::BurnExceedsMint))
                    && *final(self) == *old(self)
                    && burned_only(*final(ledger), *old(ledger), t, neuron, price as int)
            }),
    {
        if price > 0 {
            let t = self.escrow_token;
            let reserve = self.reserve_neuron;
            ledger.conservation_holds();
            match ledger.burn(neuron, t, price) {
                Ok(()) => {},
                Err(e) => {
                    return Err(MarketError::Ledger(e));
                },
            }
            ledger.conservation_holds();
            let minted = transfer_mint(ledger, t, reserve, price);
            ledger.conservation_holds();
            if minted.is_err() {
                return Err(MarketError::Ledger(LedgerError::BurnExceedsMint));
            }
        }
        self.place(neuron, pos);
        Ok(price)
    }

    /// Quote a sell of `d_yes`/`d_no` shares (neither negative, neither
    /// exceeding the held position): the position after it and the cost
    /// decrease to be refunded.
    pub fn quote_sell(&self, neuron: NeuronId, d_yes: Fx, d_no: Fx) -> (r: Result<(Position, Fx), MarketError>)
        ensures
            d_yes@ < 0 || d_no@ < 0 ==> r == Err::<(Position, Fx), MarketError>(MarketError::NegativeShares),
            d_yes@ >= 0 && d_no@ >= 0 && (d_yes@ > self.pos_of(neuron).0 || d_no@ > self.pos_of(neuron).1) ==> r
                == Err::<(Position, Fx), MarketError>(MarketError::InsufficientPosition),
            d_yes@ >= 0 && d_no@ >= 0 && d_yes@ <= self.pos_of(neuron).0 && d_no@ <= self.pos_of(neuron).1 ==> (
            r matches Ok(q) && {
                let p = self.pos_of(neuron);
                let after = (fx_sub(p.0, d_yes@), fx_sub(p.1, d_no@));
                &&& q.0@ == after
                &&& q.1@ == fx_sub(cost_spec(self.liquidity(), p.0, p.1), cost_spec(self.liquidity(), after.0, after.1))
            }),
    {
        if d_yes.lt(&Fx::zero()) || d_no.lt(&Fx::zero()) {
            return Err(MarketError::NegativeShares);
        }
        let pos = self.position(&neuron);
        if d_yes.gt(&pos.s_yes) || d_no.gt(&pos.s_no) {
            return Err(MarketError::InsufficientPosition);
        }
        let before = cost(self.lambda, pos.s_yes, pos.s_no);
        let after_yes = pos.s_yes.sub(d_yes);
        let after_no = pos.s_no.sub(d_no);
        let after = cost(self.lambda, after_yes, after_no);
        Ok((Position { s_yes: after_yes, s_no: after_no }, before.sub(after)))
    }

    /// Settle a quoted sell at `refund` tokens: burn the refund from the
    /// reserve, mint it back to the trader, record the new position.
    pub fn settle_sell(&mut self, ledger: &mut MintLedger, neuron: NeuronId, pos: Position, refund: u64) -> (r: Result<u64, MarketError>)
        ensures
            ({
                let t = old(self).escrow();
                let res = old(self).reserve_account();
                let unlocked = old(ledger).balance_of(res, t) - old(ledger).locked_of(res, t);
                &&& refund == 0 ==> r == Ok::<u64, MarketError>(0) && *final(ledger) == *old(ledger)
                    && final(self).placed(*old(self), neuron, pos@)
                &&& refund > 0 && unlocked < refund ==> r == Err::<u64, MarketError>(
                    MarketError::Ledger(LedgerError::Insufficient { have: unlocked as u64, need: refund }),
                ) && *final(ledger) == *old(ledger) && *final(self) == *old(self)
                &&& refund > 0 && unlocked >= refund && old(ledger).minted_of(t) + refund <= u64_max() ==> r
                    == Ok::<u64, MarketError>(refund) && final(self).placed(*old(self), neuron, pos@)
                    && burned_and_minted(*final(ledger), *old(ledger), t, res, neuron, refund as int)
                &&& refund > 0 && unlocked >= refund && old(ledger).minted_of(t) + refund > u64_max() ==> r
                    == Err::<u64, MarketError>(MarketError::Ledger(LedgerError::BurnExceedsMint))
                    && *final(self) == *old(self)
                    && burned_only(*final(ledger), *old(ledger), t, res, refund as int)
            }),
    {
        if refund > 0 {
            let t = self.escrow_token;
            let reserve = self.reserve_neuron;
            ledger.conservation_holds();
            match ledger.burn(reserve, t, refund) {
                Ok(()) => {},
                Err(e) => {
                    return Err(MarketError::Ledger(e));
                },
            }
            ledger.conservation_holds();
            let minted = transfer_mint(ledger, t, neuron, refund);
            ledger.conservation_holds();
            if minted.is_err() {
                return Err(MarketError::Ledger(LedgerError::BurnExceedsMint));
            }
        }
        self.place(neuron, pos);
        Ok(refund)
    }
}

/// The mint half of a trade: `p` of `t` to `to`, right after a burn of `p`.
fn transfer_mint(ledger: &mut MintLedger, t: TokenId, to: NeuronId, p: u64) -> (r: Result<(), MarketError>)
    requires
        p > 0,
        old(ledger).burned_of(t) >= p,
    ensures
        old(ledger).minted_of(t) + p <= u64_max() ==> r == Ok::<(), MarketError>(()) && final(ledger).minted_of(t)
            == old(ledger).minted_of(t) + p && (forall|n: NeuronId|
            #[trigger] final(ledger).balance_of(n, t) == old(ledger).balance_of(n, t) + (if n == to {
                p as int
            } else {
                0
            })) && final(ledger).same_except(*old(ledger), t),
        old(ledger).minted_of(t) + p > u64_max() ==> r == Err::<(), MarketError>(
            MarketError::Ledger(LedgerError::BurnExceedsMint),
        ) && *final(ledger) == *old(ledger),
{
    ledger.conservation_holds();
    ledger.single_mint_conserves(t, to, p);
    ledger.balance_le_total(to, t);
    let legs: Vec<(NeuronId, u64)> = vec![(to, p)];
    proof {
        let s = seq![(to, p)];
        assert(legs@ =~= s);
        assert(s.drop_last() =~= Seq::<(NeuronId, u64)>::empty());
        assert(crate::ledger::legs_total(s.drop_last()) == 0);
        assert(crate::ledger::legs_total(s) == p);
        assert forall|n: NeuronId| #[trigger] crate::ledger::legs_to(s, n) == (if n == to {
            p as int
        } else {
            0
        }) by {
            assert(crate::ledger::legs_to(s.drop_last(), n) == 0);
        }
        assert(ledger.token_total(t) == ledger.minted_of(t) - ledger.burned_of(t));
    }
    match ledger.mint_batch(t, legs.as_slice()) {
        Ok(_) => Ok(()),
        Err(e) => Err(MarketError::Ledger(e)),
    }
}

} // verus!
