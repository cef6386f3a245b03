//! Mint ledger — token conservation: Σ balances = mints − burns per Coin class.

use vstd::prelude::*;

pub use crate::ids::{NeuronId, TokenId};
use crate::ids::{id_eq, id_lt};
use crate::slots::{
    holders_spec, holders_sum, lemma_holders_complete, lemma_holders_props, lemma_holders_sum,
    lemma_lookup_le_sum, lemma_token_sum_nonneg, lookup, sorted, token_sum, SlotList,
};

verus! {

pub open spec fn u64_max() -> int {
    0xffff_ffff_ffff_ffff
}

/// `a + b` clamped at `u64::MAX` (`u64::saturating_add`).
pub open spec fn sat_add(a: int, b: int) -> int {
    if a + b > u64_max() {
        u64_max()
    } else {
        a + b
    }
}

/// `a − b` clamped at zero (`u64::saturating_sub`).
pub open spec fn sat_sub(a: int, b: int) -> int {
    if a >= b {
        a - b
    } else {
        0
    }
}

/// Sum of the amounts of a batch of mint legs.
pub open spec fn legs_total(legs: Seq<(NeuronId, u64)>) -> int
    decreases legs.len(),
{
    if legs.len() == 0 {
        0
    } else {
        legs_total(legs.drop_last()) + legs.last().1 as int
    }
}

/// Sum of the amounts the batch credits to neuron `n`.
pub open spec fn legs_to(legs: Seq<(NeuronId, u64)>, n: NeuronId) -> int
    decreases legs.len(),
{
    if legs.len() == 0 {
        0
    } else {
        legs_to(legs.drop_last(), n) + (if legs.last().0 == n {
            legs.last().1 as int
        } else {
            0
        })
    }
}

/// What crediting the legs one by one, each with `saturating_add`, adds to
/// the sum of balances that start at `b`.
pub open spec fn credit_gain(b: spec_fn(NeuronId) -> int, legs: Seq<(NeuronId, u64)>) -> int
    decreases legs.len(),
{
    if legs.len() == 0 {
        0
    } else {
        let p = legs.drop_last();
        let n = legs.last().0;
        credit_gain(b, p) + sat_add(b(n), legs_to(legs, n)) - sat_add(b(n), legs_to(p, n))
    }
}

#[derive(Debug, PartialEq, Eq, Structural)]
pub enum LedgerError {
    Insufficient { have: u64, need: u64 },
    BurnExceedsMint,
    LockExceedsBalance { have: u64, locked: u64, need: u64 },
    UnlockExceedsLocked { locked: u64, need: u64 },
}

/// One per-token running total.
#[derive(Clone, Copy, Debug)]
pub struct TokenAmount {
    pub token: TokenId,
    pub amount: u64,
}

pub open spec fn tally_has(s: Seq<TokenAmount>, i: int, t: TokenId) -> bool {
    0 <= i < s.len() && s[i].token == t
}

pub open spec fn tally_unique(s: Seq<TokenAmount>) -> bool {
    forall|i: int, j: int| 0 <= i < s.len() && 0 <= j < s.len() && s[i].token == s[j].token ==> i == j
}

/// The total stored for token `t`, zero when absent.
pub open spec fn tally_get(s: Seq<TokenAmount>, t: TokenId) -> nat {
    if exists|i: int| tally_has(s, i, t) {
        s[choose|i: int| tally_has(s, i, t)].amount as nat
    } else {
        0
    }
}

/// Per-token totals, one entry per token.
#[derive(Debug)]
pub struct Tally {
    entries: Vec<TokenAmount>,
}

impl View for Tally {
    type V = Seq<TokenAmount>;

    closed spec fn view(&self) -> Seq<TokenAmount> {
        self.entries@
    }
}

impl Tally {
    #[verifier::type_invariant]
    spec fn tally_inv(self) -> bool {
        tally_unique(self.entries@)
    }

    pub fn new() -> (r: Tally)
        ensures
            forall|t: TokenId| tally_get(r@, t) == 0,
    {
        Tally { entries: Vec::new() }
    }

    pub fn copy(&self) -> (r: Tally)
        ensures
            r@ == self@,
    {
        proof {
            use_type_invariant(self);
        }
        let mut v: Vec<TokenAmount> = Vec::new();
        let mut i: usize = 0;
        while i < self.entries.len()
            invariant
                i <= self.entries.len(),
                v@ =~= self.entries@.subrange(0, i as int),
            decreases self.entries.len() - i,
        {
            v.push(self.entries[i]);
            i = i + 1;
        }
        assert(v@ =~= self.entries@);
        Tally { entries: v }
    }

    fn find(&self, t: &TokenId) -> (r: Option<usize>)
        ensures
            r matches Some(i) ==> tally_has(self@, i as int, *t),
            r is None ==> forall|i: int| !tally_has(self@, i, *t),
    {
        let mut i: usize = 0;
        while i < self.entries.len()
            invariant
                i <= self.entries.len(),
                forall|j: int| 0 <= j < i ==> !tally_has(self.entries@, j, *t),
            decreases self.entries.len() - i,
        {
            if id_eq(&self.entries[i].token, t) {
                return Some(i);
            }
            i = i + 1;
        }
        None
    }

    pub fn get(&self, t: &TokenId) -> (r: u64)
        ensures
            r == tally_get(self@, *t),
    {
        proof {
            use_type_invariant(self);
        }
        match self.find(t) {
            Some(i) => {
                proof {
                    let j = choose|j: int| tally_has(self@, j, *t);
                }
                self.entries[i].amount
            },
            None => 0,
        }
    }

    pub fn set(&mut self, t: &TokenId, v: u64)
        ensures
            tally_get(final(self)@, *t) == v,
            forall|t2: TokenId| t2 != *t ==> #[trigger] tally_get(final(self)@, t2) == tally_get(old(self)@, t2),
    {
        proof {
            use_type_invariant(&*self);
        }
        let ghost s = self.entries@;
        assert(tally_unique(s));
        let x = TokenAmount { token: *t, amount: v };
        assert(s == self@);
        let found = self.find(t);
        assert(found is None ==> forall|i: int| !tally_has(self@, i, *t));
        assert(found is None ==> forall|i: int| !tally_has(s, i, *t));
        match found {
            Some(i) => {
                let mut tmp: Vec<TokenAmount> = Vec::new();
                std::mem::swap(&mut tmp, &mut self.entries);
                tmp.set(i, x);
                proof {
                    let u = tmp@;
                    assert forall|a: int, b: int|
                        0 <= a < u.len() && 0 <= b < u.len() && u[a].token == u[b].token implies a == b by {
                        if a != i && b != i {
                            assert(s[a].token == s[b].token);
                        } else if a != i {
                            assert(s[a].token == s[i as int].token);
                        } else if b != i {
                            assert(s[b].token == s[i as int].token);
                        }
                    }
                }
                self.entries = tmp;
                proof {
                    let u = self.entries@;
                    assert(tally_has(u, i as int, *t));
                    let k = choose|k: int| tally_has(u, k, *t);
                    assert(k == i);
                    assert forall|t2: TokenId| t2 != *t implies #[trigger] tally_get(u, t2) == tally_get(s, t2) by {
                        assert forall|j: int| tally_has(u, j, t2) <==> tally_has(s, j, t2) by {}
                    }
                }
            },
            None => {
                let mut tmp: Vec<TokenAmount> = Vec::new();
                std::mem::swap(&mut tmp, &mut self.entries);
                tmp.push(x);
                proof {
                    let u = tmp@;
                    assert(u =~= s.push(x));
                    assert forall|i: int, j: int|
                        0 <= i < u.len() && 0 <= j < u.len() && u[i].token == u[j].token implies i == j by {
                        if i < s.len() && j < s.len() {
                            assert(u[i] == s[i] && u[j] == s[j]);
                            assert(s[i].token == s[j].token);
                            assert(i == j);
                        } else if i < s.len() {
                            assert(u[j] == x);
                            assert(tally_has(s, i, *t));
                        } else if j < s.len() {
                            assert(u[i] == x);
                            assert(tally_has(s, j, *t));
                        }
                    }
                }
                self.entries = tmp;
                proof {
                    let u = self.entries@;
                    assert(tally_has(u, s.len() as int, *t));
                    let k = choose|k: int| tally_has(u, k, *t);
                    assert(k == s.len());
                    assert forall|t2: TokenId| t2 != *t implies #[trigger] tally_get(u, t2) == tally_get(s, t2) by {
                        assert forall|j: int| tally_has(u, j, t2) <==> tally_has(s, j, t2) by {}
                    }
                }
            },
        }
    }
}


proof fn lemma_legs_prefix(legs: Seq<(NeuronId, u64)>, k: int)
    requires
        0 <= k < legs.len(),
    ensures
        legs_total(legs.subrange(0, k + 1)) == legs_total(legs.subrange(0, k)) + legs[k].1,
        forall|n: NeuronId|
            #[trigger] legs_to(legs.subrange(0, k + 1), n) == legs_to(legs.subrange(0, k), n) + (if legs[k].0
                == n {
                legs[k].1 as int
            } else {
                0
            }),
        forall|b: spec_fn(NeuronId) -> int|
            #[trigger] credit_gain(b, legs.subrange(0, k + 1)) == credit_gain(b, legs.subrange(0, k))
                + sat_add(b(legs[k].0), legs_to(legs.subrange(0, k + 1), legs[k].0)) - sat_add(
                b(legs[k].0),
                legs_to(legs.subrange(0, k), legs[k].0),
            ),
{
    assert(legs.subrange(0, k + 1).drop_last() =~= legs.subrange(0, k));
}

proof fn lemma_legs_total_nonneg(legs: Seq<(NeuronId, u64)>)
    ensures
        legs_total(legs) >= 0,
        forall|n: NeuronId| 0 <= #[trigger] legs_to(legs, n) <= legs_total(legs),
    decreases legs.len(),
{
    if legs.len() > 0 {
        lemma_legs_total_nonneg(legs.drop_last());
        assert forall|n: NeuronId| 0 <= #[trigger] legs_to(legs, n) <= legs_total(legs) by {
            assert(legs_to(legs.drop_last(), n) <= legs_total(legs.drop_last()));
        }
    }
}

proof fn lemma_legs_prefix_le(legs: Seq<(NeuronId, u64)>, k: int)
    requires
        0 <= k <= legs.len(),
    ensures
        legs_total(legs.subrange(0, k)) <= legs_total(legs),
    decreases legs.len() - k,
{
    if k < legs.len() {
        lemma_legs_prefix(legs, k);
        lemma_legs_prefix_le(legs, k + 1);
    } else {
        assert(legs.subrange(0, k) =~= legs);
    }
}

/// Without saturation, crediting the legs adds exactly their total.
proof fn lemma_credit_exact(b: spec_fn(NeuronId) -> int, legs: Seq<(NeuronId, u64)>, cap: int)
    requires
        forall|n: NeuronId| 0 <= #[trigger] b(n) <= cap,
        cap + legs_total(legs) <= u64_max(),
    ensures
        credit_gain(b, legs) == legs_total(legs),
    decreases legs.len(),
{
    if legs.len() > 0 {
        let p = legs.drop_last();
        let n = legs.last().0;
        lemma_legs_total_nonneg(legs);
        lemma_legs_total_nonneg(p);
        lemma_credit_exact(b, p, cap);
        assert(b(n) + legs_to(legs, n) <= u64_max());
    }
}

/// Tracks global mint/burn and per-holder balances for conservation checks.
#[derive(Debug)]
pub struct MintLedger {
    /// token → total minted
    minted: Tally,
    /// token → total burned
    burned: Tally,
    /// (neuron, token) → balance
    balances: SlotList,
    /// (neuron, token) → locked amount, always <= balance
    locked: SlotList,
}

impl Clone for MintLedger {
    /// An independent ledger holding the same totals, balances and locks.
    fn clone(&self) -> (r: MintLedger)
        ensures
            forall|t: TokenId| #[trigger] r.minted_of(t) == self.minted_of(t),
            forall|t: TokenId| #[trigger] r.burned_of(t) == self.burned_of(t),
            forall|n: NeuronId, t: TokenId| #[trigger] r.balance_of(n, t) == self.balance_of(n, t),
            forall|n: NeuronId, t: TokenId| #[trigger] r.locked_of(n, t) == self.locked_of(n, t),
            forall|t: TokenId| #[trigger] r.token_total(t) == self.token_total(t),
            forall|t: TokenId| #[trigger] r.holders_view(t) == self.holders_view(t),
    {
        proof {
            use_type_invariant(self);
        }
        let minted = self.minted.copy();
        let burned = self.burned.copy();
        let balances = self.balances.copy();
        let locked = self.locked.copy();
        proof {
            assert forall|t: TokenId| #[trigger] tally_get(minted@, t) <= u64_max() by {
                assert(self.minted_of(t) <= u64_max());
            }
            assert forall|n: NeuronId, t: TokenId| #[trigger] lookup(balances@, n, t) <= u64_max() by {
                assert(self.balance_of(n, t) <= u64_max());
            }
            assert forall|t: TokenId| #[trigger] tally_get(minted@, t) >= tally_get(burned@, t) by {
                assert(self.minted_of(t) >= self.burned_of(t));
            }
            assert forall|t: TokenId| #[trigger] token_sum(balances@, t) == tally_get(minted@, t) - tally_get(burned@, t) by {
                assert(self.token_total(t) == self.minted_of(t) - self.burned_of(t));
            }
            assert forall|n: NeuronId, t: TokenId| #[trigger] lookup(locked@, n, t) <= lookup(balances@, n, t) by {
                assert(self.locked_of(n, t) <= self.balance_of(n, t));
            }
        }
        let r = MintLedger { minted, burned, balances, locked };
        assert(r.minted@ == self.minted@ && r.burned@ == self.burned@);
        assert(r.balances@ == self.balances@ && r.locked@ == self.locked@);
        assert forall|t: TokenId| #[trigger] r.minted_of(t) == self.minted_of(t) by {}
        assert forall|t: TokenId| #[trigger] r.burned_of(t) == self.burned_of(t) by {}
        assert forall|n: NeuronId, t: TokenId| #[trigger] r.balance_of(n, t) == self.balance_of(n, t) by {}
        assert forall|n: NeuronId, t: TokenId| #[trigger] r.locked_of(n, t) == self.locked_of(n, t) by {}
        assert forall|t: TokenId| #[trigger] r.token_total(t) == self.token_total(t) by {}
        r
    }
}

impl Default for MintLedger {
    /// The empty ledger, as `new` gives it.
    fn default() -> (r: MintLedger)
        ensures
            forall|t: TokenId| #[trigger] r.minted_of(t) == 0,
            forall|t: TokenId| #[trigger] r.burned_of(t) == 0,
            forall|n: NeuronId, t: TokenId| #[trigger] r.balance_of(n, t) == 0,
            forall|n: NeuronId, t: TokenId| #[trigger] r.locked_of(n, t) == 0,
            forall|t: TokenId| #[trigger] r.token_total(t) == 0,
            forall|t: TokenId| #[trigger] r.holders_view(t).len() == 0,
    {
        MintLedger::new()
    }
}

impl MintLedger {
    pub closed spec fn minted_of(&self, t: TokenId) -> nat {
        tally_get(self.minted@, t)
    }

    pub closed spec fn burned_of(&self, t: TokenId) -> nat {
        tally_get(self.burned@, t)
    }

    pub closed spec fn balance_of(&self, n: NeuronId, t: TokenId) -> nat {
        lookup(self.balances@, n, t)
    }

    pub closed spec fn locked_of(&self, n: NeuronId, t: TokenId) -> nat {
        lookup(self.locked@, n, t)
    }

    /// Σ balances held in `t`.
    pub closed spec fn token_total(&self, t: TokenId) -> int {
        token_sum(self.balances@, t)
    }

    /// The holders of `t` with a positive balance, ascending by neuron.
    pub closed spec fn holders_view(&self, t: TokenId) -> Seq<(NeuronId, u64)> {
        holders_spec(self.balances@, t)
    }

    /// Whether `(n, t)` has a balance entry (possibly zero).
    pub closed spec fn has_entry(&self, n: NeuronId, t: TokenId) -> bool {
        exists|i: int| crate::slots::has_key(self.balances@, i, n, t)
    }

    /// The ledger's own conservation check for `t`: Σ balances = minted − burned.
    pub open spec fn conserved(&self, t: TokenId) -> bool {
        self.token_total(t) == sat_sub(self.minted_of(t) as int, self.burned_of(t) as int)
    }

    /// Token conservation and the lock bound, for every token and holder.
    pub open spec fn sound(&self) -> bool {
        &&& forall|t: TokenId| #[trigger] self.minted_of(t) <= u64_max()
        &&& forall|n: NeuronId, t: TokenId| #[trigger] self.balance_of(n, t) <= u64_max()
        &&& forall|t: TokenId| #[trigger] self.minted_of(t) >= self.burned_of(t)
        &&& forall|t: TokenId| #[trigger] self.token_total(t) == self.minted_of(t) - self.burned_of(t)
        &&& forall|n: NeuronId, t: TokenId| #[trigger] self.locked_of(n, t) <= self.balance_of(n, t)
    }

    /// Whether minting `legs` of `t` would leave the ledger's conservation
    /// check passing, each addition saturating as the ledger computes it.
    pub open spec fn mint_conserves(&self, t: TokenId, legs: Seq<(NeuronId, u64)>) -> bool {
        self.token_total(t) + credit_gain(|n: NeuronId| self.balance_of(n, t) as int, legs) == sat_sub(
            sat_add(self.minted_of(t) as int, legs_total(legs)),
            self.burned_of(t) as int,
        )
    }

    /// `self` and `old` agree on everything but the balances and mint total of `t`.
    pub open spec fn same_except(&self, old: MintLedger, t: TokenId) -> bool {
        &&& forall|t2: TokenId| t2 != t ==> #[trigger] self.minted_of(t2) == old.minted_of(t2)
        &&& forall|t2: TokenId| #[trigger] self.burned_of(t2) == old.burned_of(t2)
        &&& forall|n: NeuronId, t2: TokenId| #[trigger] self.locked_of(n, t2) == old.locked_of(n, t2)
        &&& forall|n: NeuronId, t2: TokenId|
            t2 != t ==> #[trigger] self.balance_of(n, t2) == old.balance_of(n, t2)
        &&& forall|t2: TokenId| t2 != t ==> #[trigger] self.token_total(t2) == old.token_total(t2)
    }

    /// `self` and `old` hold the same balances, mint and burn totals.
    pub open spec fn same_balances(&self, old: MintLedger) -> bool {
        &&& forall|t: TokenId| #[trigger] self.minted_of(t) == old.minted_of(t)
        &&& forall|t: TokenId| #[trigger] self.burned_of(t) == old.burned_of(t)
        &&& forall|n: NeuronId, t: TokenId| #[trigger] self.balance_of(n, t) == old.balance_of(n, t)
        &&& forall|t: TokenId| #[trigger] self.token_total(t) == old.token_total(t)
        &&& forall|t: TokenId| #[trigger] self.holders_view(t) == old.holders_view(t)
    }

    /// `self` and `old` agree on every token other than `t`, and on every lock.
    pub open spec fn same_other_tokens(&self, old: MintLedger, t: TokenId) -> bool {
        &&& forall|t2: TokenId| t2 != t ==> #[trigger] self.minted_of(t2) == old.minted_of(t2)
        &&& forall|t2: TokenId| t2 != t ==> #[trigger] self.burned_of(t2) == old.burned_of(t2)
        &&& forall|n: NeuronId, t2: TokenId| #[trigger] self.locked_of(n, t2) == old.locked_of(n, t2)
        &&& forall|n: NeuronId, t2: TokenId|
            t2 != t ==> #[trigger] self.balance_of(n, t2) == old.balance_of(n, t2)
        &&& forall|t2: TokenId| t2 != t ==> #[trigger] self.token_total(t2) == old.token_total(t2)
    }

    #[verifier::type_invariant]
    spec fn ledger_inv(self) -> bool {
        self.sound()
    }

    /// Every ledger conserves every token and never locks more than a holder has.
    pub fn conservation_holds(&self)
        ensures
            self.sound(),
    {
        proof {
            use_type_invariant(self);
        }
    }

    pub fn new() -> (r: MintLedger)
        ensures
            forall|t: TokenId| #[trigger] r.minted_of(t) == 0,
            forall|t: TokenId| #[trigger] r.burned_of(t) == 0,
            forall|n: NeuronId, t: TokenId| #[trigger] r.balance_of(n, t) == 0,
            forall|n: NeuronId, t: TokenId| #[trigger] r.locked_of(n, t) == 0,
            forall|t: TokenId| #[trigger] r.token_total(t) == 0,
            forall|t: TokenId| #[trigger] r.holders_view(t).len() == 0,
    {
        let r = MintLedger {
            minted: Tally::new(),
            burned: Tally::new(),
            balances: SlotList::new(),
            locked: SlotList::new(),
        };
        assert forall|t: TokenId| #[trigger] r.token_total(t) == 0 by {
            reveal_with_fuel(token_sum, 1);
        }
        assert forall|t: TokenId| #[trigger] r.holders_view(t).len() == 0 by {
            reveal_with_fuel(holders_spec, 1);
        }
        r
    }

    pub fn locked_balance(&self, neuron: &NeuronId, token: &TokenId) -> (r: u64)
        ensures
            r == self.locked_of(*neuron, *token),
    {
        self.locked.get(neuron, token)
    }

    pub fn balance(&self, neuron: &NeuronId, token: &TokenId) -> (r: u64)
        ensures
            r == self.balance_of(*neuron, *token),
    {
        self.balances.get(neuron, token)
    }

    pub fn total_minted(&self, token: &TokenId) -> (r: u64)
        ensures
            r == self.minted_of(*token),
    {
        self.minted.get(token)
    }

    pub fn total_burned(&self, token: &TokenId) -> (r: u64)
        ensures
            r == self.burned_of(*token),
    {
        self.burned.get(token)
    }

    /// Σ balances == minted − burned.
    pub fn check_token(&self, token: TokenId) -> (r: bool)
        ensures
            r == self.conserved(token),
            r,
    {
        proof {
            use_type_invariant(self);
        }
        let m = self.minted.get(&token);
        let b = self.burned.get(&token);
        match self.balances.token_total(&token) {
            Some(sum_bal) => sum_bal == m.saturating_sub(b),
            None => false,
        }
    }

    pub fn supply(&self, token: &TokenId) -> (r: u64)
        ensures
            r == sat_sub(self.minted_of(*token) as int, self.burned_of(*token) as int),
            r == self.token_total(*token),
    {
        proof {
            use_type_invariant(self);
        }
        self.minted.get(token).saturating_sub(self.burned.get(token))
    }

    /// Apply mint legs atomically. All succeed or none.
    pub fn mint_batch(&mut self, token: TokenId, legs: &[(NeuronId, u64)]) -> (r: Result<u64, LedgerError>)
        requires
            legs_total(legs@) <= u64_max(),
        ensures
            legs_total(legs@) == 0 ==> r == Ok::<u64, LedgerError>(0) && *final(self) == *old(self),
            legs_total(legs@) != 0 && old(self).mint_conserves(token, legs@) ==> {
                &&& r == Ok::<u64, LedgerError>(legs_total(legs@) as u64)
                &&& final(self).minted_of(token) == sat_add(old(self).minted_of(token) as int, legs_total(legs@))
                &&& forall|n: NeuronId|
                    #[trigger] final(self).balance_of(n, token) == sat_add(
                        old(self).balance_of(n, token) as int,
                        legs_to(legs@, n),
                    )
                &&& final(self).same_except(*old(self), token)
            },
            legs_total(legs@) != 0 && !old(self).mint_conserves(token, legs@) ==> r == Err::<
                u64,
                LedgerError,
            >(LedgerError::BurnExceedsMint) && *final(self) == *old(self),
            old(self).minted_of(token) + legs_total(legs@) <= u64_max() ==> old(self).mint_conserves(
                token,
                legs@,
            ),
    {
        proof {
            use_type_invariant(&*self);
        }
        self.balances.sorted_view();
        let ghost s0 = *self;
        proof {
            if self.minted_of(token) + legs_total(legs@) <= u64_max() {
                let b0 = |n: NeuronId| self.balance_of(n, token) as int;
                assert forall|n: NeuronId| 0 <= #[trigger] b0(n) <= self.token_total(token) by {
                    lemma_lookup_le_sum(self.balances@, n, token);
                }
                lemma_credit_exact(b0, legs@, self.token_total(token));
            }
        }
        let mut total: u64 = 0;
        let mut i: usize = 0;
        while i < legs.len()
            invariant
                i <= legs.len(),
                total == legs_total(legs@.subrange(0, i as int)),
                legs_total(legs@) <= u64_max(),
            decreases legs.len() - i,
        {
            proof {
                lemma_legs_prefix(legs@, i as int);
                lemma_legs_prefix_le(legs@, i + 1);
                lemma_legs_total_nonneg(legs@.subrange(0, i as int));
            }
            total = total + legs[i].1;
            i = i + 1;
        }
        assert(legs@.subrange(0, i as int) =~= legs@);
        if total == 0 {
            return Ok(0);
        }
        let ghost b0 = |n: NeuronId| self.balance_of(n, token) as int;
        let ghost m0 = self.minted_of(token) as int;
        let ghost t0 = self.token_total(token);
        let mut minted = self.minted.copy();
        let mut bal = self.balances.copy();
        let mut k: usize = 0;
        assert(legs@.subrange(0, 0) =~= Seq::<(NeuronId, u64)>::empty());
        while k < legs.len()
            invariant
                k <= legs.len(),
                b0 == (|n: NeuronId| self.balance_of(n, token) as int),
                tally_get(minted@, token) == sat_add(m0, legs_total(legs@.subrange(0, k as int))),
                0 <= m0 <= u64_max(),
                forall|t2: TokenId| t2 != token ==> #[trigger] tally_get(minted@, t2) == tally_get(self.minted@, t2),
                forall|n: NeuronId|
                    #[trigger] lookup(bal@, n, token) == sat_add(b0(n), legs_to(legs@.subrange(0, k as int), n)),
                forall|n: NeuronId, t2: TokenId|
                    t2 != token ==> #[trigger] lookup(bal@, n, t2) == lookup(self.balances@, n, t2),
                token_sum(bal@, token) == t0 + credit_gain(b0, legs@.subrange(0, k as int)),
                forall|t2: TokenId| t2 != token ==> #[trigger] token_sum(bal@, t2) == token_sum(self.balances@, t2),
            decreases legs.len() - k,
        {
            proof {
                lemma_legs_prefix(legs@, k as int);
                lemma_legs_total_nonneg(legs@.subrange(0, k as int));
            }
            let (n, a) = legs[k];
            if a != 0 {
                let m = minted.get(&token);
                minted.set(&token, m.saturating_add(a));
                let b = bal.get(&n, &token);
                bal.set(&n, &token, b.saturating_add(a));
                proof {
                    assert(b0(n) >= 0);
                }
            }
            k = k + 1;
        }
        assert(legs@.subrange(0, k as int) =~= legs@);
        let burned = self.burned.get(&token);
        let m = minted.get(&token);
        let ok = match bal.token_total(&token) {
            Some(sum_bal) => sum_bal == m.saturating_sub(burned),
            None => false,
        };
        if !ok {
            return Err(LedgerError::BurnExceedsMint);
        }
        let mut cur = MintLedger::new();
        std::mem::swap(&mut cur, self);
        let MintLedger { minted: _, burned, balances: _, locked } = cur;
        proof {
            assert(burned@ == s0.burned@ && locked@ == s0.locked@);
            lemma_legs_total_nonneg(legs@);
            assert forall|t2: TokenId| #[trigger] tally_get(minted@, t2) >= tally_get(burned@, t2) by {
                assert(s0.minted_of(t2) >= s0.burned_of(t2));
            }
            assert forall|n: NeuronId, t2: TokenId| #[trigger] lookup(locked@, n, t2) <= lookup(bal@, n, t2) by {
                assert(s0.locked_of(n, t2) <= s0.balance_of(n, t2));
                assert(legs_to(legs@, n) >= 0);
            }
            assert forall|t2: TokenId| #[trigger] token_sum(bal@, t2) == tally_get(minted@, t2) - tally_get(burned@, t2) by {
                if t2 != token {
                    assert(s0.token_total(t2) == s0.minted_of(t2) - s0.burned_of(t2));
                }
            }
        }
        *self = MintLedger { minted, burned, balances: bal, locked };
        Ok(total)
    }

    /// Destroy `amount` of `neuron`'s liquid (unlocked) balance in `token`.
    pub fn burn(&mut self, neuron: NeuronId, token: TokenId, amount: u64) -> (r: Result<(), LedgerError>)
        requires
            amount > 0 || old(self).has_entry(neuron, token),
        ensures
            old(self).balance_of(neuron, token) - old(self).locked_of(neuron, token) < amount ==> r
                == Err::<(), LedgerError>(
                LedgerError::Insufficient {
                    have: (old(self).balance_of(neuron, token) - old(self).locked_of(neuron, token)) as u64,
                    need: amount,
                },
            ) && *final(self) == *old(self),
            old(self).balance_of(neuron, token) - old(self).locked_of(neuron, token) >= amount ==> {
                &&& r == Ok::<(), LedgerError>(())
                &&& final(self).balance_of(neuron, token) == old(self).balance_of(neuron, token) - amount
                &&& forall|n: NeuronId, t: TokenId|
                    !(n == neuron && t == token) ==> #[trigger] final(self).balance_of(n, t) == old(
                        self,
                    ).balance_of(n, t)
                &&& final(self).burned_of(token) == old(self).burned_of(token) + amount
                &&& forall|t: TokenId| t != token ==> #[trigger] final(self).burned_of(t) == old(self).burned_of(t)
                &&& forall|t: TokenId| #[trigger] final(self).minted_of(t) == old(self).minted_of(t)
                &&& forall|n: NeuronId, t: TokenId| #[trigger] final(self).locked_of(n, t) == old(self).locked_of(n, t)
            },
    {
        proof {
            use_type_invariant(&*self);
        }
        self.balances.sorted_view();
        let ghost s0 = *self;
        let have = self.balances.get(&neuron, &token);
        let locked = self.locked.get(&neuron, &token);
        proof {
            assert(s0.locked_of(neuron, token) <= s0.balance_of(neuron, token));
            assert(s0.token_total(token) == s0.minted_of(token) - s0.burned_of(token));
        }
        let unlocked = have - locked;
        if unlocked < amount {
            return Err(LedgerError::Insufficient { have: unlocked, need: amount });
        }
        proof {
            lemma_lookup_le_sum(s0.balances@, neuron, token);
        }
        let mut cur = MintLedger::new();
        std::mem::swap(&mut cur, self);
        let MintLedger { minted, mut burned, mut balances, locked: lk } = cur;
        balances.set(&neuron, &token, have - amount);
        let b = burned.get(&token);
        burned.set(&token, b.saturating_add(amount));
        let m = minted.get(&token);
        let ok = match balances.token_total(&token) {
            Some(sum_bal) => sum_bal == m.saturating_sub(burned.get(&token)),
            None => false,
        };
        proof {
            assert(minted@ == s0.minted@ && lk@ == s0.locked@);
            assert forall|t2: TokenId| #[trigger] tally_get(minted@, t2) >= tally_get(burned@, t2) by {
                assert(s0.minted_of(t2) >= s0.burned_of(t2));
            }
            assert forall|n: NeuronId, t2: TokenId| #[trigger] lookup(lk@, n, t2) <= lookup(balances@, n, t2) by {
                assert(s0.locked_of(n, t2) <= s0.balance_of(n, t2));
            }
            assert forall|t2: TokenId| #[trigger] token_sum(balances@, t2) == tally_get(minted@, t2) - tally_get(burned@, t2) by {
                assert(s0.token_total(t2) == s0.minted_of(t2) - s0.burned_of(t2));
            }
        }
        if !ok {
            balances.set(&neuron, &token, have);
            let nb = burned.get(&token);
            burned.set(&token, nb - amount);
            *self = MintLedger { minted, burned, balances, locked: lk };
            return Err(LedgerError::BurnExceedsMint);
        }
        *self = MintLedger { minted, burned, balances, locked: lk };
        Ok(())
    }

    /// Move `amount` of `neuron`'s balance in `token` from liquid to locked.
    /// Locking never mints, burns or moves balance between holders; it only
    /// shrinks what `burn` may touch.
    pub fn lock(&mut self, neuron: NeuronId, token: TokenId, amount: u64) -> (r: Result<(), LedgerError>)
        ensures
            sat_add(old(self).locked_of(neuron, token) as int, amount as int) > old(self).balance_of(
                neuron,
                token,
            ) ==> r == Err::<(), LedgerError>(
                LedgerError::LockExceedsBalance {
                    have: old(self).balance_of(neuron, token) as u64,
                    locked: old(self).locked_of(neuron, token) as u64,
                    need: amount,
                },
            ) && *final(self) == *old(self),
            sat_add(old(self).locked_of(neuron, token) as int, amount as int) <= old(self).balance_of(
                neuron,
                token,
            ) ==> {
                &&& r == Ok::<(), LedgerError>(())
                &&& final(self).locked_of(neuron, token) == sat_add(
                    old(self).locked_of(neuron, token) as int,
                    amount as int,
                )
                &&& forall|n: NeuronId, t: TokenId|
                    !(n == neuron && t == token) ==> #[trigger] final(self).locked_of(n, t) == old(
                        self,
                    ).locked_of(n, t)
                &&& final(self).same_balances(*old(self))
            },
    {
        proof {
            use_type_invariant(&*self);
        }
        let ghost s0 = *self;
        let have = self.balances.get(&neuron, &token);
        let locked = self.locked.get(&neuron, &token);
        let new_locked = locked.saturating_add(amount);
        if new_locked > have {
            return Err(LedgerError::LockExceedsBalance { have, locked, need: amount });
        }
        let mut cur = MintLedger::new();
        std::mem::swap(&mut cur, self);
        let MintLedger { minted, burned, balances, locked: mut lk } = cur;
        lk.set(&neuron, &token, new_locked);
        proof {
            assert(balances@ == s0.balances@ && minted@ == s0.minted@ && burned@ == s0.burned@);
            assert forall|n: NeuronId, t2: TokenId| #[trigger] lookup(lk@, n, t2) <= lookup(balances@, n, t2) by {
                assert(s0.locked_of(n, t2) <= s0.balance_of(n, t2));
            }
            assert forall|t2: TokenId| #[trigger] token_sum(balances@, t2) == tally_get(minted@, t2) - tally_get(burned@, t2) by {
                assert(s0.token_total(t2) == s0.minted_of(t2) - s0.burned_of(t2));
            }
            assert forall|t2: TokenId| #[trigger] tally_get(minted@, t2) >= tally_get(burned@, t2) by {
                assert(s0.minted_of(t2) >= s0.burned_of(t2));
            }
        }
        *self = MintLedger { minted, burned, balances, locked: lk };
        Ok(())
    }

    /// Move `amount` back from locked to liquid.
    pub fn unlock(&mut self, neuron: NeuronId, token: TokenId, amount: u64) -> (r: Result<(), LedgerError>)
        ensures
            amount > old(self).locked_of(neuron, token) ==> r == Err::<(), LedgerError>(
                LedgerError::UnlockExceedsLocked {
                    locked: old(self).locked_of(neuron, token) as u64,
                    need: amount,
                },
            ) && *final(self) == *old(self),
            amount <= old(self).locked_of(neuron, token) ==> {
                &&& r == Ok::<(), LedgerError>(())
                &&& final(self).locked_of(neuron, token) == old(self).locked_of(neuron, token) - amount
                &&& forall|n: NeuronId, t: TokenId|
                    !(n == neuron && t == token) ==> #[trigger] final(self).locked_of(n, t) == old(
                        self,
                    ).locked_of(n, t)
                &&& final(self).same_balances(*old(self))
            },
    {
        proof {
            use_type_invariant(&*self);
        }
        let ghost s0 = *self;
        let locked = self.locked.get(&neuron, &token);
        if amount > locked {
            return Err(LedgerError::UnlockExceedsLocked { locked, need: amount });
        }
        let remaining = locked - amount;
        let mut cur = MintLedger::new();
        std::mem::swap(&mut cur, self);
        let MintLedger { minted, burned, balances, locked: mut lk } = cur;
        if remaining == 0 {
            lk.remove(&neuron, &token);
        } else {
            lk.set(&neuron, &token, remaining);
        }
        proof {
            assert(balances@ == s0.balances@ && minted@ == s0.minted@ && burned@ == s0.burned@);
            assert forall|n: NeuronId, t2: TokenId| #[trigger] lookup(lk@, n, t2) <= lookup(balances@, n, t2) by {
                assert(s0.locked_of(n, t2) <= s0.balance_of(n, t2));
            }
            assert forall|t2: TokenId| #[trigger] token_sum(balances@, t2) == tally_get(minted@, t2) - tally_get(burned@, t2) by {
                assert(s0.token_total(t2) == s0.minted_of(t2) - s0.burned_of(t2));
            }
            assert forall|t2: TokenId| #[trigger] tally_get(minted@, t2) >= tally_get(burned@, t2) by {
                assert(s0.minted_of(t2) >= s0.burned_of(t2));
            }
        }
        *self = MintLedger { minted, burned, balances, locked: lk };
        Ok(())
    }

    /// Pay `amount` of `token` from `from`'s liquid balance to `to`. Supply is
    /// untouched; a payment to oneself changes nothing.
    pub fn transfer(&mut self, from: NeuronId, to: NeuronId, token: TokenId, amount: u64) -> (r: Result<(), LedgerError>)
        ensures
            old(self).balance_of(from, token) - old(self).locked_of(from, token) < amount ==> r
                == Err::<(), LedgerError>(
                LedgerError::Insufficient {
                    have: (old(self).balance_of(from, token) - old(self).locked_of(from, token)) as u64,
                    need: amount,
                },
            ) && *final(self) == *old(self),
            old(self).balance_of(from, token) - old(self).locked_of(from, token) >= amount ==> {
                &&& r == Ok::<(), LedgerError>(())
                &&& from != to ==> final(self).balance_of(from, token) == old(self).balance_of(from, token) - amount
                &&& from != to ==> final(self).balance_of(to, token) == old(self).balance_of(to, token) + amount
                &&& from == to ==> final(self).balance_of(from, token) == old(self).balance_of(from, token)
                &&& forall|n: NeuronId, t: TokenId|
                    !(t == token && (n == from || n == to)) ==> #[trigger] final(self).balance_of(n, t)
                        == old(self).balance_of(n, t)
                &&& forall|t: TokenId| #[trigger] final(self).minted_of(t) == old(self).minted_of(t)
                &&& forall|t: TokenId| #[trigger] final(self).burned_of(t) == old(self).burned_of(t)
                &&& forall|n: NeuronId, t: TokenId| #[trigger] final(self).locked_of(n, t) == old(self).locked_of(n, t)
            },
    {
        proof {
            use_type_invariant(&*self);
        }
        self.balances.sorted_view();
        let ghost s0 = *self;
        let have = self.balances.get(&from, &token);
        let locked = self.locked.get(&from, &token);
        proof {
            assert(s0.locked_of(from, token) <= s0.balance_of(from, token));
            assert(s0.token_total(token) == s0.minted_of(token) - s0.burned_of(token));
        }
        let unlocked = have - locked;
        if unlocked < amount {
            return Err(LedgerError::Insufficient { have: unlocked, need: amount });
        }
        if id_eq(&from, &to) {
            return Ok(());
        }
        let dest = self.balances.get(&to, &token);
        proof {
            crate::slots::lemma_two_le_sum(s0.balances@, from, to, token);
        }
        let mut cur = MintLedger::new();
        std::mem::swap(&mut cur, self);
        let MintLedger { minted, burned, mut balances, locked: lk } = cur;
        balances.set(&from, &token, have - amount);
        balances.set(&to, &token, dest + amount);
        proof {
            assert(minted@ == s0.minted@ && burned@ == s0.burned@ && lk@ == s0.locked@);
            assert forall|n: NeuronId, t2: TokenId| #[trigger] lookup(lk@, n, t2) <= lookup(balances@, n, t2) by {
                assert(s0.locked_of(n, t2) <= s0.balance_of(n, t2));
            }
            assert forall|t2: TokenId| #[trigger] token_sum(balances@, t2) == tally_get(minted@, t2) - tally_get(burned@, t2) by {
                assert(s0.token_total(t2) == s0.minted_of(t2) - s0.burned_of(t2));
            }
            assert forall|t2: TokenId| #[trigger] tally_get(minted@, t2) >= tally_get(burned@, t2) by {
                assert(s0.minted_of(t2) >= s0.burned_of(t2));
            }
        }
        *self = MintLedger { minted, burned, balances, locked: lk };
        Ok(())
    }

    /// A holder's balance never exceeds the token's Σ balances.
    pub fn balance_le_total(&self, n: NeuronId, t: TokenId)
        ensures
            self.balance_of(n, t) <= self.token_total(t),
    {
        self.balances.sorted_view();
        proof {
            lemma_lookup_le_sum(self.balances@, n, t);
        }
    }

    /// A single positive mint leg of `t` passes the conservation check
    /// exactly when the mint total does not saturate, once anything of `t`
    /// has been burned.
    pub fn single_mint_conserves(&self, t: TokenId, n: NeuronId, p: u64)
        requires
            p > 0,
            self.burned_of(t) > 0,
        ensures
            self.mint_conserves(t, seq![(n, p)]) <==> self.minted_of(t) + p <= u64_max(),
    {
        proof {
            use_type_invariant(self);
        }
        self.balances.sorted_view();
        proof {
            let legs = seq![(n, p)];
            let b = |m: NeuronId| self.balance_of(m, t) as int;
            lemma_lookup_le_sum(self.balances@, n, t);
            assert(legs.drop_last() =~= Seq::<(NeuronId, u64)>::empty());
            assert(legs.last() == (n, p));
            assert(legs_to(legs.drop_last(), n) == 0);
            assert(legs_total(legs.drop_last()) == 0);
            assert(credit_gain(b, legs.drop_last()) == 0);
            assert(legs_to(legs, n) == p);
            assert(legs_total(legs) == p);
            assert(credit_gain(b, legs) == sat_add(b(n), p as int) - b(n));
            assert(self.token_total(t) == self.minted_of(t) - self.burned_of(t));
            assert(self.balance_of(n, t) <= u64_max());
        }
    }

    /// The holders of `token` with a positive balance, ascending by neuron id.
    pub fn holders_of(&self, token: &TokenId) -> (r: Vec<(NeuronId, u64)>)
        ensures
            r@ == self.holders_view(*token),
            forall|i: int| 0 <= i < r@.len() ==> #[trigger] r@[i].1 > 0 && self.balance_of(r@[i].0, *token) == r@[i].1,
            forall|i: int, j: int| 0 <= i < j < r@.len() ==> id_lt(#[trigger] r@[i].0, #[trigger] r@[j].0),
            forall|n: NeuronId|
                #[trigger] self.balance_of(n, *token) > 0 ==> exists|i: int| 0 <= i < r@.len() && r@[i].0 == n,
            holders_sum(r@) == self.token_total(*token),
            holders_sum(r@) == sat_sub(self.minted_of(*token) as int, self.burned_of(*token) as int),
    {
        proof {
            use_type_invariant(self);
        }
        self.balances.sorted_view();
        let r = self.balances.holders(token);
        proof {
            lemma_holders_props(self.balances@, *token);
            lemma_holders_sum(self.balances@, *token);
            assert forall|n: NeuronId| #[trigger] self.balance_of(n, *token) > 0 implies exists|i: int|
                0 <= i < r@.len() && r@[i].0 == n by {
                lemma_holders_complete(self.balances@, *token, n);
            }
        }
        r
    }
}

} // verus!
