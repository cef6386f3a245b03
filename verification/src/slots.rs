//! A map from `(neuron, token)` to an amount, kept as a vector sorted
//! strictly by key: the order a `BTreeMap<(NeuronId, TokenId), u64>` walks.

use vstd::prelude::*;

use crate::ids::{
    id_eq, id_less, id_lt, lemma_id_lt_asymmetric, lemma_id_lt_irreflexive, lemma_id_lt_total,
    lemma_id_lt_transitive, NeuronId, TokenId,
};

verus! {

/// One `(neuron, token) → amount` entry.
#[derive(Clone, Copy, Debug)]
pub struct Slot {
    pub neuron: NeuronId,
    pub token: TokenId,
    pub amount: u64,
}

/// Key order: by neuron, then by token.
pub open spec fn key_lt(n1: NeuronId, t1: TokenId, n2: NeuronId, t2: TokenId) -> bool {
    id_lt(n1, n2) || (n1 == n2 && id_lt(t1, t2))
}

pub open spec fn slot_lt(a: Slot, b: Slot) -> bool {
    key_lt(a.neuron, a.token, b.neuron, b.token)
}

pub open spec fn sorted(s: Seq<Slot>) -> bool {
    forall|i: int, j: int| 0 <= i < j < s.len() ==> slot_lt(#[trigger] s[i], #[trigger] s[j])
}

pub open spec fn has_key(s: Seq<Slot>, i: int, n: NeuronId, t: TokenId) -> bool {
    0 <= i < s.len() && s[i].neuron == n && s[i].token == t
}

/// The amount stored under `(n, t)`, zero when absent.
pub open spec fn lookup(s: Seq<Slot>, n: NeuronId, t: TokenId) -> nat {
    if exists|i: int| has_key(s, i, n, t) {
        s[choose|i: int| has_key(s, i, n, t)].amount as nat
    } else {
        0
    }
}

/// Sum of the amounts held in token `t`.
pub open spec fn token_sum(s: Seq<Slot>, t: TokenId) -> int
    decreases s.len(),
{
    if s.len() == 0 {
        0
    } else {
        token_sum(s.drop_last(), t) + (if s.last().token == t {
            s.last().amount as int
        } else {
            0
        })
    }
}

/// The `(neuron, amount)` pairs of token `t` with a positive amount, in key
/// order.
pub open spec fn holders_spec(s: Seq<Slot>, t: TokenId) -> Seq<(NeuronId, u64)>
    decreases s.len(),
{
    if s.len() == 0 {
        Seq::empty()
    } else {
        let h = holders_spec(s.drop_last(), t);
        if s.last().token == t && s.last().amount > 0 {
            h.push((s.last().neuron, s.last().amount))
        } else {
            h
        }
    }
}

/// Sum of the amounts of a list of holders.
pub open spec fn holders_sum(h: Seq<(NeuronId, u64)>) -> int
    decreases h.len(),
{
    if h.len() == 0 {
        0
    } else {
        holders_sum(h.drop_last()) + h.last().1 as int
    }
}

proof fn lemma_key_lt_irreflexive(n: NeuronId, t: TokenId)
    ensures
        !key_lt(n, t, n, t),
{
    lemma_id_lt_irreflexive(n);
    lemma_id_lt_irreflexive(t);
}

proof fn lemma_key_lt_transitive(a: Slot, b: Slot, c: Slot)
    requires
        slot_lt(a, b),
        slot_lt(b, c),
    ensures
        slot_lt(a, c),
{
    if id_lt(a.neuron, b.neuron) {
        if id_lt(b.neuron, c.neuron) {
            lemma_id_lt_transitive(a.neuron, b.neuron, c.neuron);
        }
    } else {
        if id_lt(b.neuron, c.neuron) {
        } else {
            lemma_id_lt_transitive(a.token, b.token, c.token);
        }
    }
}

proof fn lemma_key_lt_total(n1: NeuronId, t1: TokenId, n2: NeuronId, t2: TokenId)
    requires
        !(n1 == n2 && t1 == t2),
    ensures
        key_lt(n1, t1, n2, t2) || key_lt(n2, t2, n1, t1),
{
    if n1 != n2 {
        lemma_id_lt_total(n1, n2);
    } else {
        lemma_id_lt_total(t1, t2);
    }
}

/// In a sorted list a key sits at one index at most.
pub proof fn lemma_key_unique(s: Seq<Slot>, i: int, j: int)
    requires
        sorted(s),
        0 <= i < s.len(),
        0 <= j < s.len(),
        s[i].neuron == s[j].neuron,
        s[i].token == s[j].token,
    ensures
        i == j,
{
    lemma_key_lt_irreflexive(s[i].neuron, s[i].token);
    if i < j {
        assert(slot_lt(s[i], s[j]));
    } else if j < i {
        assert(slot_lt(s[j], s[i]));
    }
}

pub proof fn lemma_lookup_at(s: Seq<Slot>, i: int)
    requires
        sorted(s),
        0 <= i < s.len(),
    ensures
        lookup(s, s[i].neuron, s[i].token) == s[i].amount,
{
    assert(has_key(s, i, s[i].neuron, s[i].token));
    let j = choose|j: int| has_key(s, j, s[i].neuron, s[i].token);
    lemma_key_unique(s, i, j);
}

pub proof fn lemma_token_sum_nonneg(s: Seq<Slot>, t: TokenId)
    ensures
        token_sum(s, t) >= 0,
    decreases s.len(),
{
    if s.len() > 0 {
        lemma_token_sum_nonneg(s.drop_last(), t);
    }
}

/// Each amount in token `t` is at most the token's sum.
pub proof fn lemma_amount_le_sum(s: Seq<Slot>, i: int)
    requires
        0 <= i < s.len(),
    ensures
        s[i].amount <= token_sum(s, s[i].token),
    decreases s.len(),
{
    let t = s[i].token;
    if i == s.len() - 1 {
        lemma_token_sum_nonneg(s.drop_last(), t);
    } else {
        lemma_amount_le_sum(s.drop_last(), i);
    }
}

pub proof fn lemma_lookup_le_sum(s: Seq<Slot>, n: NeuronId, t: TokenId)
    requires
        sorted(s),
    ensures
        lookup(s, n, t) <= token_sum(s, t),
{
    lemma_token_sum_nonneg(s, t);
    if exists|i: int| has_key(s, i, n, t) {
        let i = choose|i: int| has_key(s, i, n, t);
        lemma_amount_le_sum(s, i);
    }
}

/// Two distinct holders' amounts of `t` together fit in the token's sum.
pub proof fn lemma_two_le_sum(s: Seq<Slot>, a: NeuronId, b: NeuronId, t: TokenId)
    requires
        sorted(s),
        a != b,
    ensures
        lookup(s, a, t) + lookup(s, b, t) <= token_sum(s, t),
    decreases s.len(),
{
    lemma_token_sum_nonneg(s, t);
    if s.len() > 0 {
        let p = s.drop_last();
        assert(sorted(p));
        lemma_two_le_sum(p, a, b, t);
        lemma_lookup_le_sum(p, a, t);
        lemma_lookup_le_sum(p, b, t);
        lemma_lookup_drop_last(s, a, t);
        lemma_lookup_drop_last(s, b, t);
    }
}

/// Looking a key up in a sorted list: the last slot, or the rest.
pub proof fn lemma_lookup_drop_last(s: Seq<Slot>, n: NeuronId, t: TokenId)
    requires
        sorted(s),
        s.len() > 0,
    ensures
        s.last().neuron == n && s.last().token == t ==> lookup(s, n, t) == s.last().amount && lookup(
            s.drop_last(),
            n,
            t,
        ) == 0,
        !(s.last().neuron == n && s.last().token == t) ==> lookup(s, n, t) == lookup(s.drop_last(), n, t),
{
    let p = s.drop_last();
    let last = s.len() - 1;
    if s.last().neuron == n && s.last().token == t {
        lemma_lookup_at(s, last);
        assert forall|j: int| !has_key(p, j, n, t) by {
            if has_key(p, j, n, t) {
                lemma_key_unique(s, j, last);
            }
        }
    } else {
        if exists|j: int| has_key(p, j, n, t) {
            let j = choose|j: int| has_key(p, j, n, t);
            assert(sorted(p));
            lemma_lookup_at(p, j);
            lemma_lookup_at(s, j);
        } else {
            assert forall|j: int| !has_key(s, j, n, t) by {
                if has_key(s, j, n, t) {
                    assert(has_key(p, j, n, t));
                }
            }
        }
    }
}

pub proof fn lemma_token_sum_update(s: Seq<Slot>, k: int, x: Slot, t: TokenId)
    requires
        0 <= k < s.len(),
    ensures
        token_sum(s.update(k, x), t) == token_sum(s, t) - (if s[k].token == t {
            s[k].amount as int
        } else {
            0
        }) + (if x.token == t {
            x.amount as int
        } else {
            0
        }),
    decreases s.len(),
{
    let u = s.update(k, x);
    if k == s.len() - 1 {
        assert(u.drop_last() =~= s.drop_last());
    } else {
        assert(u.drop_last() =~= s.drop_last().update(k, x));
        lemma_token_sum_update(s.drop_last(), k, x, t);
    }
}

pub proof fn lemma_token_sum_insert(s: Seq<Slot>, k: int, x: Slot, t: TokenId)
    requires
        0 <= k <= s.len(),
    ensures
        token_sum(s.insert(k, x), t) == token_sum(s, t) + (if x.token == t {
            x.amount as int
        } else {
            0
        }),
    decreases s.len(),
{
    let u = s.insert(k, x);
    if k == s.len() {
        assert(u.drop_last() =~= s);
    } else {
        assert(u.drop_last() =~= s.drop_last().insert(k, x));
        lemma_token_sum_insert(s.drop_last(), k, x, t);
    }
}

/// The holders' amounts add up to the token's sum.
pub proof fn lemma_holders_sum(s: Seq<Slot>, t: TokenId)
    ensures
        holders_sum(holders_spec(s, t)) == token_sum(s, t),
    decreases s.len(),
{
    if s.len() > 0 {
        lemma_holders_sum(s.drop_last(), t);
        let h = holders_spec(s.drop_last(), t);
        if s.last().token == t && s.last().amount > 0 {
            assert(h.push((s.last().neuron, s.last().amount)).drop_last() =~= h);
        }
    }
}

/// Some slot of token `t` belongs to neuron `n`.
pub open spec fn holds_token(s: Seq<Slot>, t: TokenId, n: NeuronId) -> bool {
    exists|k: int| 0 <= k < s.len() && s[k].token == t && s[k].neuron == n
}

/// Every listed holder is a slot of token `t` with that positive amount, and
/// the neurons come in strictly ascending order.
pub proof fn lemma_holders_props(s: Seq<Slot>, t: TokenId)
    requires
        sorted(s),
    ensures
        forall|i: int|
            0 <= i < holders_spec(s, t).len() ==> #[trigger] holders_spec(s, t)[i].1 > 0 && lookup(
                s,
                holders_spec(s, t)[i].0,
                t,
            ) == holders_spec(s, t)[i].1,
        forall|i: int, j: int|
            0 <= i < j < holders_spec(s, t).len() ==> id_lt(
                #[trigger] holders_spec(s, t)[i].0,
                #[trigger] holders_spec(s, t)[j].0,
            ),
        forall|i: int|
            0 <= i < holders_spec(s, t).len() ==> holds_token(s, t, #[trigger] holders_spec(s, t)[i].0),
    decreases s.len(),
{
    let h = holders_spec(s, t);
    if s.len() > 0 {
        let p = s.drop_last();
        assert(sorted(p));
        lemma_holders_props(p, t);
        let hp = holders_spec(p, t);
        assert forall|i: int| 0 <= i < hp.len() implies lookup(s, #[trigger] hp[i].0, t)
            == lookup(p, hp[i].0, t) by {
            let k = choose|k: int| 0 <= k < p.len() && p[k].token == t && p[k].neuron == hp[i].0;
                assert(holds_token(p, t, hp[i].0));
            lemma_lookup_at(p, k);
            lemma_lookup_at(s, k);
        }
        if s.last().token == t && s.last().amount > 0 {
            let last = s.len() - 1;
            lemma_lookup_at(s, last);
            assert forall|i: int| 0 <= i < hp.len() implies id_lt(#[trigger] hp[i].0, s.last().neuron) by {
                let k = choose|k: int| 0 <= k < p.len() && p[k].token == t && p[k].neuron == hp[i].0;
                assert(holds_token(p, t, hp[i].0));
                assert(slot_lt(s[k], s[last]));
                lemma_id_lt_irreflexive(t);
            }
            assert(h =~= hp.push((s.last().neuron, s.last().amount)));
            assert forall|i: int| 0 <= i < h.len() implies holds_token(s, t, #[trigger] h[i].0) by {
                if i == h.len() - 1 {
                    assert(s[last].token == t && s[last].neuron == h[i].0);
                } else {
                    assert(holds_token(p, t, hp[i].0));
                    let k = choose|k: int|
                        0 <= k < p.len() && p[k].token == t && p[k].neuron == hp[i].0;
                    assert(s[k].token == t && s[k].neuron == h[i].0);
                }
            }
        } else {
            assert forall|i: int| 0 <= i < h.len() implies holds_token(s, t, #[trigger] h[i].0) by {
                assert(holds_token(p, t, hp[i].0));
                let k = choose|k: int|
                    0 <= k < p.len() && p[k].token == t && p[k].neuron == hp[i].0;
                assert(s[k].token == t && s[k].neuron == h[i].0);
            }
        }
    } else {
        assert(h.len() == 0);
    }
}

/// A neuron with a positive amount of token `t` is listed among its holders.
pub proof fn lemma_holders_complete(s: Seq<Slot>, t: TokenId, n: NeuronId)
    requires
        sorted(s),
        lookup(s, n, t) > 0,
    ensures
        exists|i: int| 0 <= i < holders_spec(s, t).len() && holders_spec(s, t)[i].0 == n,
    decreases s.len(),
{
    let i = choose|i: int| has_key(s, i, n, t);
    let last = s.len() - 1;
    lemma_lookup_at(s, i);
    let p = s.drop_last();
    if i == last {
        let h = holders_spec(s, t);
        assert(h[h.len() - 1].0 == n);
    } else {
        assert(sorted(p));
        lemma_lookup_at(p, i);
        lemma_holders_complete(p, t, n);
        let hp = holders_spec(p, t);
        let j = choose|j: int| 0 <= j < hp.len() && hp[j].0 == n;
        assert(holders_spec(s, t)[j] == hp[j]);
    }
}

/// A key-sorted `(neuron, token) → amount` map.
#[derive(Debug)]
pub struct SlotList {
    slots: Vec<Slot>,
}

impl View for SlotList {
    type V = Seq<Slot>;

    closed spec fn view(&self) -> Seq<Slot> {
        self.slots@
    }
}

impl SlotList {
    #[verifier::type_invariant]
    spec fn slots_inv(self) -> bool {
        sorted(self.slots@)
    }

    pub fn new() -> (r: SlotList)
        ensures
            r@ == Seq::<Slot>::empty(),
    {
        SlotList { slots: Vec::new() }
    }

    pub fn sorted_view(&self)
        ensures
            sorted(self@),
    {
        proof {
            use_type_invariant(self);
        }
    }

    pub fn copy(&self) -> (r: SlotList)
        ensures
            r@ == self@,
    {
        proof {
            use_type_invariant(self);
        }
        let mut v: Vec<Slot> = Vec::new();
        let mut i: usize = 0;
        while i < self.slots.len()
            invariant
                i <= self.slots.len(),
                v@ =~= self.slots@.subrange(0, i as int),
            decreases self.slots.len() - i,
        {
            v.push(self.slots[i]);
            i = i + 1;
        }
        assert(v@ =~= self.slots@);
        SlotList { slots: v }
    }

    /// First index whose key is not below `(n, t)`, and whether it holds
    /// exactly that key.
    fn find(&self, n: &NeuronId, t: &TokenId) -> (r: (bool, usize))
        ensures
            r.1 <= self@.len(),
            forall|i: int| 0 <= i < r.1 ==> key_lt(self@[i].neuron, self@[i].token, *n, *t),
            r.0 ==> r.1 < self@.len() && self@[r.1 as int].neuron == *n && self@[r.1 as int].token
                == *t,
            !r.0 ==> forall|i: int| r.1 <= i < self@.len() ==> key_lt(*n, *t, self@[i].neuron, self@[i].token),
    {
        proof {
            use_type_invariant(self);
        }
        let mut i: usize = 0;
        while i < self.slots.len()
            invariant
                i <= self.slots.len(),
                sorted(self.slots@),
                forall|j: int| 0 <= j < i ==> key_lt(self.slots@[j].neuron, self.slots@[j].token, *n, *t),
            decreases self.slots.len() - i,
        {
            let s = self.slots[i];
            let same_n = id_eq(&s.neuron, n);
            let same_t = id_eq(&s.token, t);
            if same_n && same_t {
                return (true, i);
            }
            let below = id_less(&s.neuron, n) || (same_n && id_less(&s.token, t));
            if !below {
                proof {
                    lemma_key_lt_total(s.neuron, s.token, *n, *t);
                    assert forall|j: int| i <= j < self.slots@.len() implies key_lt(
                        *n,
                        *t,
                        self.slots@[j].neuron,
                        self.slots@[j].token,
                    ) by {
                        if j > i {
                            let x = Slot { neuron: *n, token: *t, amount: 0 };
                            assert(slot_lt(self.slots@[i as int], self.slots@[j]));
                            lemma_key_lt_transitive(x, self.slots@[i as int], self.slots@[j]);
                        }
                    }
                }
                return (false, i);
            }
            i = i + 1;
        }
        (false, i)
    }

    pub fn get(&self, n: &NeuronId, t: &TokenId) -> (r: u64)
        ensures
            r == lookup(self@, *n, *t),
    {
        proof {
            use_type_invariant(self);
        }
        let (found, i) = self.find(n, t);
        if found {
            proof {
                lemma_lookup_at(self@, i as int);
            }
            self.slots[i].amount
        } else {
            proof {
                assert forall|j: int| !has_key(self@, j, *n, *t) by {
                    if has_key(self@, j, *n, *t) {
                        lemma_key_lt_irreflexive(*n, *t);
                    }
                }
            }
            0
        }
    }

    /// Store `v` under `(n, t)`, leaving every other key as it was.
    pub fn set(&mut self, n: &NeuronId, t: &TokenId, v: u64)
        ensures
            lookup(final(self)@, *n, *t) == v,
            forall|n2: NeuronId, t2: TokenId|
                !(n2 == *n && t2 == *t) ==> #[trigger] lookup(final(self)@, n2, t2) == lookup(
                    old(self)@,
                    n2,
                    t2,
                ),
            forall|t2: TokenId|
                #[trigger] token_sum(final(self)@, t2) == token_sum(old(self)@, t2) - (if t2 == *t {
                    lookup(old(self)@, *n, *t) as int
                } else {
                    0
                }) + (if t2 == *t {
                    v as int
                } else {
                    0
                }),
    {
        proof {
            use_type_invariant(&*self);
        }
        let ghost s = self.slots@;
        let (found, i) = self.find(n, t);
        let x = Slot { neuron: *n, token: *t, amount: v };
        if found {
            proof {
                lemma_lookup_at(s, i as int);
                let u = s.update(i as int, x);
                assert forall|a: int, b: int| 0 <= a < b < u.len() implies slot_lt(
                    #[trigger] u[a],
                    #[trigger] u[b],
                ) by {
                    assert(slot_lt(s[a], s[b]));
                }
                assert(sorted(u));
            }
            let mut tmp: Vec<Slot> = Vec::new();
            std::mem::swap(&mut tmp, &mut self.slots);
            tmp.set(i, x);
            self.slots = tmp;
            proof {
                let u = self.slots@;
                lemma_lookup_at(u, i as int);
                assert forall|n2: NeuronId, t2: TokenId|
                    !(n2 == *n && t2 == *t) implies #[trigger] lookup(u, n2, t2) == lookup(
                        s,
                        n2,
                        t2,
                    ) by {
                    assert forall|j: int| has_key(u, j, n2, t2) <==> has_key(s, j, n2, t2) by {}
                    if exists|j: int| has_key(s, j, n2, t2) {
                        let j = choose|j: int| has_key(s, j, n2, t2);
                        lemma_lookup_at(s, j);
                        lemma_lookup_at(u, j);
                    }
                }
                assert forall|t2: TokenId| #[trigger] token_sum(u, t2) == token_sum(s, t2) - (if t2
                    == *t {
                    lookup(s, *n, *t) as int
                } else {
                    0
                }) + (if t2 == *t {
                    v as int
                } else {
                    0
                }) by {
                    lemma_token_sum_update(s, i as int, x, t2);
                }
            }
        } else {
            proof {
                let u = s.insert(i as int, x);
                assert forall|a: int, b: int| 0 <= a < b < u.len() implies slot_lt(
                    #[trigger] u[a],
                    #[trigger] u[b],
                ) by {
                    if b < i {
                        assert(slot_lt(s[a], s[b]));
                    } else if b == i {
                    } else if a < i {
                        assert(slot_lt(u[a], x));
                        assert(slot_lt(x, s[b - 1]));
                        lemma_key_lt_transitive(u[a], x, u[b]);
                    } else if a == i {
                    } else {
                        assert(slot_lt(s[a - 1], s[b - 1]));
                    }
                }
                assert(sorted(u));
                assert forall|j: int| !has_key(s, j, *n, *t) by {
                    if has_key(s, j, *n, *t) {
                        lemma_key_lt_irreflexive(*n, *t);
                    }
                }
            }
            let mut tmp: Vec<Slot> = Vec::new();
            std::mem::swap(&mut tmp, &mut self.slots);
            tmp.insert(i, x);
            self.slots = tmp;
            proof {
                let u = self.slots@;
                lemma_lookup_at(u, i as int);
                assert forall|n2: NeuronId, t2: TokenId|
                    !(n2 == *n && t2 == *t) implies #[trigger] lookup(u, n2, t2) == lookup(
                        s,
                        n2,
                        t2,
                    ) by {
                    if exists|j: int| has_key(s, j, n2, t2) {
                        let j = choose|j: int| has_key(s, j, n2, t2);
                        lemma_lookup_at(s, j);
                        if j < i {
                            assert(u[j] == s[j]);
                            lemma_lookup_at(u, j);
                        } else {
                            assert(u[j + 1] == s[j]);
                            lemma_lookup_at(u, j + 1);
                        }
                    } else {
                        assert forall|j: int| !has_key(u, j, n2, t2) by {
                            if has_key(u, j, n2, t2) {
                                if j < i {
                                    assert(has_key(s, j, n2, t2));
                                } else if j > i {
                                    assert(has_key(s, j - 1, n2, t2));
                                }
                            }
                        }
                    }
                }
                assert forall|t2: TokenId| #[trigger] token_sum(u, t2) == token_sum(s, t2) - (if t2
                    == *t {
                    lookup(s, *n, *t) as int
                } else {
                    0
                }) + (if t2 == *t {
                    v as int
                } else {
                    0
                }) by {
                    lemma_token_sum_insert(s, i as int, x, t2);
                }
            }
        }
    }

    /// Drop the entry under `(n, t)`, if any.
    pub fn remove(&mut self, n: &NeuronId, t: &TokenId)
        ensures
            lookup(final(self)@, *n, *t) == 0,
            forall|n2: NeuronId, t2: TokenId|
                !(n2 == *n && t2 == *t) ==> #[trigger] lookup(final(self)@, n2, t2) == lookup(
                    old(self)@,
                    n2,
                    t2,
                ),
    {
        proof {
            use_type_invariant(&*self);
        }
        let ghost s = self.slots@;
        let (found, i) = self.find(n, t);
        if found {
            proof {
                let u = s.remove(i as int);
                assert forall|a: int, b: int| 0 <= a < b < u.len() implies slot_lt(
                    #[trigger] u[a],
                    #[trigger] u[b],
                ) by {
                    if b < i {
                        assert(slot_lt(s[a], s[b]));
                    } else if a < i {
                        assert(slot_lt(s[a], s[b + 1]));
                    } else {
                        assert(slot_lt(s[a + 1], s[b + 1]));
                    }
                }
            }
            let mut tmp: Vec<Slot> = Vec::new();
            std::mem::swap(&mut tmp, &mut self.slots);
            tmp.remove(i);
            self.slots = tmp;
            proof {
                let u = self.slots@;
                assert forall|j: int| !has_key(u, j, *n, *t) by {
                    if has_key(u, j, *n, *t) {
                        if j < i {
                            lemma_key_unique(s, j, i as int);
                        } else {
                            lemma_key_unique(s, j + 1, i as int);
                        }
                    }
                }
                assert forall|n2: NeuronId, t2: TokenId|
                    !(n2 == *n && t2 == *t) implies #[trigger] lookup(u, n2, t2) == lookup(
                        s,
                        n2,
                        t2,
                    ) by {
                    if exists|j: int| has_key(s, j, n2, t2) {
                        let j = choose|j: int| has_key(s, j, n2, t2);
                        lemma_lookup_at(s, j);
                        if j < i {
                            lemma_lookup_at(u, j);
                        } else {
                            lemma_lookup_at(u, j - 1);
                        }
                    } else {
                        assert forall|j: int| !has_key(u, j, n2, t2) by {
                            if has_key(u, j, n2, t2) {
                                if j < i {
                                    assert(has_key(s, j, n2, t2));
                                } else {
                                    assert(has_key(s, j + 1, n2, t2));
                                }
                            }
                        }
                    }
                }
            }
        } else {
            proof {
                assert forall|j: int| !has_key(s, j, *n, *t) by {
                    if has_key(s, j, *n, *t) {
                        lemma_key_lt_irreflexive(*n, *t);
                    }
                }
            }
        }
    }

    /// Sum of the amounts held in `t`, or `None` past `u64::MAX`.
    pub fn token_total(&self, t: &TokenId) -> (r: Option<u64>)
        ensures
            r matches Some(v) ==> v == token_sum(self@, *t),
            r is None ==> token_sum(self@, *t) > u64::MAX,
    {
        let mut acc: u64 = 0;
        let mut i: usize = 0;
        while i < self.slots.len()
            invariant
                i <= self.slots.len(),
                acc == token_sum(self.slots@.subrange(0, i as int), *t),
            decreases self.slots.len() - i,
        {
            let ghost pre = self.slots@.subrange(0, i as int);
            let s = self.slots[i];
            proof {
                assert(self.slots@.subrange(0, i + 1).drop_last() =~= pre);
            }
            if id_eq(&s.token, t) {
                if acc > u64::MAX - s.amount {
                    proof {
                        lemma_token_sum_prefix_le(self.slots@, *t, i + 1);
                    }
                    return None;
                }
                acc = acc + s.amount;
            }
            i = i + 1;
        }
        assert(self.slots@.subrange(0, i as int) =~= self.slots@);
        Some(acc)
    }

    /// The positive holders of `t`, in ascending neuron order.
    pub fn holders(&self, t: &TokenId) -> (r: Vec<(NeuronId, u64)>)
        ensures
            r@ == holders_spec(self@, *t),
    {
        let mut out: Vec<(NeuronId, u64)> = Vec::new();
        let mut i: usize = 0;
        while i < self.slots.len()
            invariant
                i <= self.slots.len(),
                out@ == holders_spec(self.slots@.subrange(0, i as int), *t),
            decreases self.slots.len() - i,
        {
            let s = self.slots[i];
            proof {
                assert(self.slots@.subrange(0, i + 1).drop_last() =~= self.slots@.subrange(
                    0,
                    i as int,
                ));
            }
            if id_eq(&s.token, t) && s.amount > 0 {
                out.push((s.neuron, s.amount));
            }
            i = i + 1;
        }
        assert(self.slots@.subrange(0, i as int) =~= self.slots@);
        out
    }
}

/// A prefix's token sum is at most the whole sequence's.
pub proof fn lemma_token_sum_prefix_le(s: Seq<Slot>, t: TokenId, k: int)
    requires
        0 <= k <= s.len(),
    ensures
        token_sum(s.subrange(0, k), t) <= token_sum(s, t),
    decreases s.len() - k,
{
    if k < s.len() {
        lemma_token_sum_prefix_le(s, t, k + 1);
        assert(s.subrange(0, k + 1).drop_last() =~= s.subrange(0, k));
    } else {
        assert(s.subrange(0, k) =~= s);
    }
}

} // verus!
