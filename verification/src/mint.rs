//! Execute settle → PLUMB mint legs under conservation.

use vstd::prelude::*;

use crate::conservation::{amount_sum, ConserveError, ConserveResult};
use crate::fixed::{fx_add, Fx};
use crate::hashing::{
    hemera_digest, hemera_hash, le_bytes, lemma_le_bytes_injective, lemma_le_bytes_len, pow256, push_id, push_le_u64,
};
use crate::ids::{
    id_eq, id_less, id_lt, lemma_id_lt_asymmetric, lemma_id_lt_irreflexive, lemma_id_lt_total, lemma_id_lt_transitive,
    NeuronId, TokenId,
};
use crate::ledger::{legs_to, legs_total, sat_add, LedgerError, MintLedger};

verus! {

/// One PLUMB mint leg (create Coin units to a holder Card/neuron).
#[derive(Clone, Copy, Debug, PartialEq, Eq)]
pub struct MintLeg {
    pub to: NeuronId,
    pub token: TokenId,
    pub amount: u64,
}

/// Result of executing a conserved settle mint.
#[derive(Clone, Debug)]
pub struct MintReceipt {
    /// Hemera over (reason ‖ sorted legs).
    pub intent_hash: [u8; 32],
    pub legs: Vec<MintLeg>,
    /// Total minted this intent.
    pub total: u64,
    /// Conserved field mass (min(v★, Δφ⁺)).
    pub conserved_fx: Fx,
}

#[derive(Debug, PartialEq, Eq, Structural)]
pub enum MintError {
    Conserve(ConserveError),
    Ledger(LedgerError),
    EmptyLegs,
}

impl From<ConserveError> for MintError {
    fn from(e: ConserveError) -> (r: Self) {
        MintError::Conserve(e)
    }
}

impl vstd::std_specs::convert::FromSpecImpl<ConserveError> for MintError {
    open spec fn obeys_from_spec() -> bool {
        true
    }

    open spec fn from_spec(v: ConserveError) -> MintError {
        MintError::Conserve(v)
    }
}

impl From<LedgerError> for MintError {
    fn from(e: LedgerError) -> (r: Self) {
        MintError::Ledger(e)
    }
}

impl vstd::std_specs::convert::FromSpecImpl<LedgerError> for MintError {
    open spec fn obeys_from_spec() -> bool {
        true
    }

    open spec fn from_spec(v: LedgerError) -> MintError {
        MintError::Ledger(v)
    }
}

/// Leg order of the intent hash: by recipient, then by amount.
pub open spec fn leg_lt(a: MintLeg, b: MintLeg) -> bool {
    id_lt(a.to, b.to) || (a.to == b.to && a.amount < b.amount)
}

/// Where a stable insertion puts `x` into `s`: after every leg not above it.
pub open spec fn insert_pos(s: Seq<MintLeg>, x: MintLeg) -> int
    decreases s.len(),
{
    if s.len() == 0 {
        0
    } else if leg_lt(x, s.last()) {
        insert_pos(s.drop_last(), x)
    } else {
        s.len() as int
    }
}

/// The legs stably sorted by (recipient, amount).
pub open spec fn sort_legs(s: Seq<MintLeg>) -> Seq<MintLeg>
    decreases s.len(),
{
    if s.len() == 0 {
        Seq::empty()
    } else {
        let p = sort_legs(s.drop_last());
        p.insert(insert_pos(p, s.last()), s.last())
    }
}

/// Legs in non-decreasing (recipient, amount) order.
pub open spec fn legs_sorted(s: Seq<MintLeg>) -> bool {
    forall|i: int, j: int| 0 <= i < j < s.len() ==> !leg_lt(#[trigger] s[j], #[trigger] s[i])
}

proof fn lemma_leg_lt_asym(a: MintLeg, b: MintLeg)
    ensures
        !(leg_lt(a, b) && leg_lt(b, a)),
        !leg_lt(a, a),
{
    lemma_id_lt_asymmetric(a.to, b.to);
    lemma_id_lt_irreflexive(a.to);
}

/// Not-above is transitive: `a ≤ b ≤ c` gives `a ≤ c`.
proof fn lemma_leg_le_trans(a: MintLeg, b: MintLeg, c: MintLeg)
    requires
        !leg_lt(b, a),
        !leg_lt(c, b),
    ensures
        !leg_lt(c, a),
{
    if a.to != b.to {
        lemma_id_lt_total(a.to, b.to);
    }
    if b.to != c.to {
        lemma_id_lt_total(b.to, c.to);
    }
    if leg_lt(c, a) {
        if id_lt(c.to, a.to) {
            if id_lt(a.to, b.to) {
                lemma_id_lt_transitive(c.to, a.to, b.to);
                lemma_id_lt_asymmetric(c.to, b.to);
                if b.to != c.to {
                    lemma_id_lt_total(b.to, c.to);
                } else {
                    lemma_id_lt_irreflexive(c.to);
                }
            } else {
                lemma_id_lt_irreflexive(a.to);
                if b.to != c.to {
                    lemma_id_lt_asymmetric(c.to, b.to);
                } else {
                    lemma_id_lt_irreflexive(c.to);
                }
            }
        } else {
            if id_lt(a.to, b.to) {
                lemma_id_lt_irreflexive(c.to);
                if b.to != c.to {
                    lemma_id_lt_asymmetric(b.to, c.to);
                } else {
                    lemma_id_lt_irreflexive(b.to);
                }
            } else {
                lemma_id_lt_irreflexive(a.to);
                lemma_id_lt_irreflexive(b.to);
            }
        }
    }
}

/// Where `insert_pos` puts `x`: every leg from there on is above `x`, the
/// one before it is not.
proof fn lemma_insert_pos(s: Seq<MintLeg>, x: MintLeg)
    ensures
        0 <= insert_pos(s, x) <= s.len(),
        forall|j: int| insert_pos(s, x) <= j < s.len() ==> leg_lt(x, #[trigger] s[j]),
        insert_pos(s, x) > 0 ==> !leg_lt(x, s[insert_pos(s, x) - 1]),
    decreases s.len(),
{
    if s.len() > 0 && leg_lt(x, s.last()) {
        lemma_insert_pos(s.drop_last(), x);
        assert forall|j: int| insert_pos(s, x) <= j < s.len() implies leg_lt(x, #[trigger] s[j]) by {
            if j < s.len() - 1 {
                assert(s[j] == s.drop_last()[j]);
            }
        }
    }
}

/// `sort_legs` orders the legs and keeps each of them.
proof fn lemma_sort_legs(s: Seq<MintLeg>)
    ensures
        legs_sorted(sort_legs(s)),
        sort_legs(s).to_multiset() == s.to_multiset(),
        sort_legs(s).len() == s.len(),
    decreases s.len(),
{
    broadcast use vstd::seq_lib::group_to_multiset_ensures;

    if s.len() > 0 {
        lemma_sort_legs(s.drop_last());
        let p = sort_legs(s.drop_last());
        let x = s.last();
        let k = insert_pos(p, x);
        lemma_insert_pos(p, x);
        let q = p.insert(k, x);
        assert(s.drop_last().push(x) =~= s);
        assert forall|i: int, j: int| 0 <= i < j < q.len() implies !leg_lt(#[trigger] q[j], #[trigger] q[i]) by {
            if j < k {
                assert(q[i] == p[i] && q[j] == p[j]);
            } else if j == k {
                assert(q[j] == x);
                assert(q[i] == p[i]);
                assert(!leg_lt(x, p[k - 1]));
                if i < k - 1 {
                    assert(!leg_lt(p[k - 1], p[i]));
                    lemma_leg_le_trans(p[i], p[k - 1], x);
                }
            } else if i == k {
                assert(q[i] == x);
                assert(q[j] == p[j - 1]);
                assert(leg_lt(x, p[j - 1]));
                lemma_leg_lt_asym(x, p[j - 1]);
            } else if i < k {
                assert(q[i] == p[i] && q[j] == p[j - 1]);
            } else {
                assert(q[i] == p[i - 1] && q[j] == p[j - 1]);
            }
        }
    }
}

/// Two ordered leg lists of one token holding the same legs are equal.
proof fn lemma_sorted_unique(a: Seq<MintLeg>, b: Seq<MintLeg>, token: TokenId)
    requires
        legs_sorted(a),
        legs_sorted(b),
        a.to_multiset() == b.to_multiset(),
        forall|i: int| 0 <= i < a.len() ==> #[trigger] a[i].token == token,
        forall|i: int| 0 <= i < b.len() ==> #[trigger] b[i].token == token,
    ensures
        a == b,
    decreases a.len(),
{
    broadcast use vstd::seq_lib::group_to_multiset_ensures;

    assert(a.len() == a.to_multiset().len());
    assert(b.len() == b.to_multiset().len());
    if a.len() > 0 {
        let x = a.last();
        let y = b.last();
        assert(a.contains(x));
        assert(a.to_multiset().count(x) > 0);
        assert(b.contains(x));
        let i = choose|i: int| 0 <= i < b.len() && b[i] == x;
        assert(b.contains(y));
        assert(b.to_multiset().count(y) > 0);
        assert(a.contains(y));
        let j = choose|j: int| 0 <= j < a.len() && a[j] == y;
        if i < b.len() - 1 {
            assert(!leg_lt(y, x));
        }
        if j < a.len() - 1 {
            assert(!leg_lt(x, y));
        }
        lemma_leg_lt_asym(x, y);
        if x.to != y.to {
            lemma_id_lt_total(x.to, y.to);
        }
        assert(x.token == token && y.token == token);
        assert(x == y);
        assert(a.remove(a.len() - 1) =~= a.drop_last());
        assert(b.remove(b.len() - 1) =~= b.drop_last());
        lemma_sorted_unique(a.drop_last(), b.drop_last(), token);
        assert(a =~= a.drop_last().push(x));
        assert(b =~= b.drop_last().push(y));
    } else {
        assert(a =~= b);
    }
}

/// Legs of one token that are the same up to order sort alike.
proof fn lemma_sort_legs_equal(a: Seq<MintLeg>, b: Seq<MintLeg>, token: TokenId)
    requires
        a.to_multiset() == b.to_multiset(),
        forall|i: int| 0 <= i < a.len() ==> #[trigger] a[i].token == token,
        forall|i: int| 0 <= i < b.len() ==> #[trigger] b[i].token == token,
    ensures
        sort_legs(a) == sort_legs(b),
{
    broadcast use vstd::seq_lib::group_to_multiset_ensures;

    lemma_sort_legs(a);
    lemma_sort_legs(b);
    let sa = sort_legs(a);
    let sb = sort_legs(b);
    assert forall|i: int| 0 <= i < sa.len() implies #[trigger] sa[i].token == token by {
        assert(sa.contains(sa[i]));
        assert(sa.to_multiset().count(sa[i]) > 0);
        assert(a.contains(sa[i]));
    }
    assert forall|i: int| 0 <= i < sb.len() implies #[trigger] sb[i].token == token by {
        assert(sb.contains(sb[i]));
        assert(sb.to_multiset().count(sb[i]) > 0);
        assert(b.contains(sb[i]));
    }
    lemma_sorted_unique(sa, sb, token);
}

/// The intent hash covers the legs as a set of legs, not as a list: legs of
/// one token in any order give the same preimage, and so the same hash.
pub proof fn lemma_intent_order_free(reason: Seq<u8>, a: Seq<MintLeg>, b: Seq<MintLeg>, token: TokenId)
    requires
        a.to_multiset() == b.to_multiset(),
        forall|i: int| 0 <= i < a.len() ==> #[trigger] a[i].token == token,
        forall|i: int| 0 <= i < b.len() ==> #[trigger] b[i].token == token,
    ensures
        intent_preimage(reason, a) == intent_preimage(reason, b),
{
    lemma_sort_legs_equal(a, b, token);
}

/// The domain tag `"tok-mint-v0"`.
pub open spec fn mint_tag() -> Seq<u8> {
    seq![116u8, 111u8, 107u8, 45u8, 109u8, 105u8, 110u8, 116u8, 45u8, 118u8, 48u8]
}

pub open spec fn leg_bytes(l: MintLeg) -> Seq<u8> {
    l.to@ + l.token@ + le_bytes(l.amount as nat, 8)
}

pub open spec fn legs_bytes(legs: Seq<MintLeg>) -> Seq<u8>
    decreases legs.len(),
{
    if legs.len() == 0 {
        Seq::empty()
    } else {
        legs_bytes(legs.drop_last()) + leg_bytes(legs.last())
    }
}

/// The bytes the intent hash covers: tag ‖ reason ‖ each sorted leg.
pub open spec fn intent_preimage(reason: Seq<u8>, legs: Seq<MintLeg>) -> Seq<u8> {
    mint_tag() + reason + legs_bytes(sort_legs(legs))
}

proof fn lemma_leg_bytes_len(l: MintLeg)
    ensures
        leg_bytes(l).len() == 72,
{
    lemma_le_bytes_len(l.amount as nat, 8);
    assert(l.to@.len() == 32);
    assert(l.token@.len() == 32);
}

proof fn lemma_legs_bytes_len(s: Seq<MintLeg>)
    ensures
        legs_bytes(s).len() == 72 * s.len(),
    decreases s.len(),
{
    if s.len() > 0 {
        lemma_legs_bytes_len(s.drop_last());
        lemma_leg_bytes_len(s.last());
    }
}

/// A leg's bytes give back the leg: recipient, token and amount.
proof fn lemma_leg_bytes_injective(a: MintLeg, b: MintLeg)
    requires
        leg_bytes(a) == leg_bytes(b),
    ensures
        a == b,
{
    lemma_le_bytes_len(a.amount as nat, 8);
    lemma_le_bytes_len(b.amount as nat, 8);
    let x = leg_bytes(a);
    let y = leg_bytes(b);
    assert(a.to@.len() == 32 && b.to@.len() == 32);
    assert(a.token@.len() == 32 && b.token@.len() == 32);
    assert(a.to@ =~= x.subrange(0, 32));
    assert(b.to@ =~= y.subrange(0, 32));
    assert(a.token@ =~= x.subrange(32, 64));
    assert(b.token@ =~= y.subrange(32, 64));
    assert(le_bytes(a.amount as nat, 8) =~= x.subrange(64, 72));
    assert(le_bytes(b.amount as nat, 8) =~= y.subrange(64, 72));
    vstd::array::axiom_array_ext_equal(a.to, b.to);
    vstd::array::axiom_array_ext_equal(a.token, b.token);
    assert(pow256(8) == 0x1_0000_0000_0000_0000) by {
        reveal_with_fuel(pow256, 9);
    }
    lemma_le_bytes_injective(a.amount as nat, b.amount as nat, 8);
}

/// A list of legs' bytes give back the list.
proof fn lemma_legs_bytes_injective(a: Seq<MintLeg>, b: Seq<MintLeg>)
    requires
        legs_bytes(a) == legs_bytes(b),
    ensures
        a == b,
    decreases a.len(),
{
    lemma_legs_bytes_len(a);
    lemma_legs_bytes_len(b);
    if a.len() > 0 {
        let x = legs_bytes(a);
        let n = x.len() as int;
        lemma_legs_bytes_len(a.drop_last());
        lemma_legs_bytes_len(b.drop_last());
        lemma_leg_bytes_len(a.last());
        lemma_leg_bytes_len(b.last());
        assert(legs_bytes(a.drop_last()) =~= x.subrange(0, n - 72));
        assert(legs_bytes(b.drop_last()) =~= x.subrange(0, n - 72));
        assert(leg_bytes(a.last()) =~= x.subrange(n - 72, n));
        assert(leg_bytes(b.last()) =~= x.subrange(n - 72, n));
        lemma_legs_bytes_injective(a.drop_last(), b.drop_last());
        lemma_leg_bytes_injective(a.last(), b.last());
        assert(a =~= a.drop_last().push(a.last()));
        assert(b =~= b.drop_last().push(b.last()));
    } else {
        assert(a =~= b);
    }
}

/// Law: the intent-hash preimage gives back what it binds. Two settles
/// whose preimages agree had the same reason and the same legs (recipient,
/// token and amount of each), up to order; with `lemma_intent_order_free`,
/// two preimages agree exactly when reason and legs do.
pub proof fn lemma_intent_preimage_binds(r1: Seq<u8>, r2: Seq<u8>, a: Seq<MintLeg>, b: Seq<MintLeg>)
    requires
        r1.len() == 32,
        r2.len() == 32,
        intent_preimage(r1, a) == intent_preimage(r2, b),
    ensures
        r1 == r2,
        a.to_multiset() == b.to_multiset(),
{
    let x = intent_preimage(r1, a);
    let y = intent_preimage(r2, b);
    assert(mint_tag().len() == 11);
    assert(r1 =~= x.subrange(11, 43));
    assert(r2 =~= y.subrange(11, 43));
    assert(legs_bytes(sort_legs(a)) =~= x.subrange(43, x.len() as int));
    assert(legs_bytes(sort_legs(b)) =~= y.subrange(43, y.len() as int));
    lemma_legs_bytes_injective(sort_legs(a), sort_legs(b));
    lemma_sort_legs(a);
    lemma_sort_legs(b);
}

/// The legs of an allocation: its positive amounts, in order.
pub open spec fn mint_legs(alloc: Seq<ConserveResult>, token: TokenId) -> Seq<MintLeg>
    decreases alloc.len(),
{
    if alloc.len() == 0 {
        Seq::empty()
    } else {
        let p = mint_legs(alloc.drop_last(), token);
        if alloc.last().amount > 0 {
            p.push(MintLeg { to: alloc.last().neuron, token, amount: alloc.last().amount })
        } else {
            p
        }
    }
}

/// The `(recipient, amount)` batch handed to the ledger.
pub open spec fn leg_pairs(legs: Seq<MintLeg>) -> Seq<(NeuronId, u64)> {
    legs.map_values(|l: MintLeg| (l.to, l.amount))
}

/// Left-to-right fixed-point sum of an allocation's shares.
pub open spec fn share_sum(alloc: Seq<ConserveResult>) -> int
    decreases alloc.len(),
{
    if alloc.len() == 0 {
        0
    } else {
        fx_add(share_sum(alloc.drop_last()), alloc.last().share@)
    }
}

proof fn lemma_mint_legs_total(alloc: Seq<ConserveResult>, token: TokenId)
    ensures
        legs_total(leg_pairs(mint_legs(alloc, token))) == amount_sum(alloc),
        forall|i: int|
            0 <= i < mint_legs(alloc, token).len() ==> (#[trigger] mint_legs(alloc, token)[i]).amount > 0,
    decreases alloc.len(),
{
    if alloc.len() > 0 {
        lemma_mint_legs_total(alloc.drop_last(), token);
        let p = mint_legs(alloc.drop_last(), token);
        if alloc.last().amount > 0 {
            let x = MintLeg { to: alloc.last().neuron, token, amount: alloc.last().amount };
            assert(leg_pairs(p.push(x)).drop_last() =~= leg_pairs(p));
        }
    }
}

proof fn lemma_positive_legs_total(legs: Seq<MintLeg>)
    requires
        legs.len() > 0,
        forall|i: int| 0 <= i < legs.len() ==> (#[trigger] legs[i]).amount > 0,
    ensures
        legs_total(leg_pairs(legs)) > 0,
    decreases legs.len(),
{
    assert(leg_pairs(legs).drop_last() =~= leg_pairs(legs.drop_last()));
    assert(legs[legs.len() - 1].amount > 0);
    assert(leg_pairs(legs).last().1 == legs.last().amount);
    if legs.len() > 1 {
        assert forall|i: int| 0 <= i < legs.len() - 1 implies (#[trigger] legs.drop_last()[i]).amount > 0 by {
            assert(legs.drop_last()[i] == legs[i]);
        }
        lemma_positive_legs_total(legs.drop_last());
    } else {
        assert(leg_pairs(legs.drop_last()).len() == 0);
    }
    assert(legs_total(leg_pairs(legs)) == legs_total(leg_pairs(legs).drop_last()) + leg_pairs(legs).last().1);
}

proof fn lemma_legs_total_insert(p: Seq<(NeuronId, u64)>, k: int, y: (NeuronId, u64))
    requires
        0 <= k <= p.len(),
    ensures
        legs_total(p.insert(k, y)) == legs_total(p) + y.1,
    decreases p.len(),
{
    let u = p.insert(k, y);
    if k == p.len() {
        assert(u.drop_last() =~= p);
    } else {
        assert(u.drop_last() =~= p.drop_last().insert(k, y));
        assert(u.last() == p.last());
        lemma_legs_total_insert(p.drop_last(), k, y);
    }
}

/// Sorting the legs keeps their total.
proof fn lemma_sort_legs_total(s: Seq<MintLeg>)
    ensures
        legs_total(leg_pairs(sort_legs(s))) == legs_total(leg_pairs(s)),
    decreases s.len(),
{
    if s.len() > 0 {
        lemma_sort_legs_total(s.drop_last());
        let p = sort_legs(s.drop_last());
        let x = s.last();
        let k = insert_pos(p, x);
        lemma_insert_pos(p, x);
        assert(leg_pairs(p.insert(k, x)) =~= leg_pairs(p).insert(k, (x.to, x.amount)));
        lemma_legs_total_insert(leg_pairs(p), k, (x.to, x.amount));
        assert(leg_pairs(s).drop_last() =~= leg_pairs(s.drop_last()));
    }
}

proof fn lemma_mint_legs_token(alloc: Seq<ConserveResult>, token: TokenId)
    ensures
        forall|i: int| 0 <= i < mint_legs(alloc, token).len() ==> (#[trigger] mint_legs(alloc, token)[i]).token == token,
    decreases alloc.len(),
{
    if alloc.len() > 0 {
        lemma_mint_legs_token(alloc.drop_last(), token);
        let p = mint_legs(alloc.drop_last(), token);
        if alloc.last().amount > 0 {
            let q = p.push(MintLeg { to: alloc.last().neuron, token, amount: alloc.last().amount });
            assert forall|i: int| 0 <= i < q.len() implies (#[trigger] q[i]).token == token by {
                if i < p.len() {
                    assert(q[i] == p[i]);
                }
            }
        }
    }
}

/// Law: settling two allocations whose legs are the same up to order gives
/// receipts with the same total and the same intent hash: the receipt binds
/// the reason and the set of legs, not the order they came in.
pub proof fn lemma_receipt_order_free(reason: Seq<u8>, a: Seq<ConserveResult>, b: Seq<ConserveResult>, token: TokenId)
    requires
        mint_legs(a, token).to_multiset() == mint_legs(b, token).to_multiset(),
    ensures
        amount_sum(a) == amount_sum(b),
        intent_preimage(reason, mint_legs(a, token)) == intent_preimage(reason, mint_legs(b, token)),
{
    let la = mint_legs(a, token);
    let lb = mint_legs(b, token);
    lemma_mint_legs_token(a, token);
    lemma_mint_legs_token(b, token);
    lemma_sort_legs_equal(la, lb, token);
    lemma_sort_legs_total(la);
    lemma_sort_legs_total(lb);
    lemma_mint_legs_total(a, token);
    lemma_mint_legs_total(b, token);
}

fn leg_less(a: &MintLeg, b: &MintLeg) -> (r: bool)
    ensures
        r == leg_lt(*a, *b),
{
    id_less(&a.to, &b.to) || (id_eq(&a.to, &b.to) && a.amount < b.amount)
}

/// Stable insertion sort of the legs by (recipient, amount).
fn sort_mint_legs(legs: &[MintLeg]) -> (r: Vec<MintLeg>)
    ensures
        r@ == sort_legs(legs@),
{
    let mut out: Vec<MintLeg> = Vec::new();
    let mut i: usize = 0;
    while i < legs.len()
        invariant
            i <= legs.len(),
            out@ == sort_legs(legs@.subrange(0, i as int)),
        decreases legs.len() - i,
    {
        let x = legs[i];
        let mut j: usize = out.len();
        assert(out@.subrange(0, j as int) =~= out@);
        while j > 0 && leg_less(&x, &out[j - 1])
            invariant
                j <= out@.len(),
                insert_pos(out@, x) == insert_pos(out@.subrange(0, j as int), x),
            decreases j,
        {
            proof {
                assert(out@.subrange(0, j as int).drop_last() =~= out@.subrange(0, j - 1));
            }
            j = j - 1;
        }
        proof {
            if j == 0 {
                assert(out@.subrange(0, 0).len() == 0);
            }
            assert(legs@.subrange(0, i + 1).drop_last() =~= legs@.subrange(0, i as int));
        }
        out.insert(j, x);
        i = i + 1;
    }
    assert(legs@.subrange(0, i as int) =~= legs@);
    out
}

fn push_all(buf: &mut Vec<u8>, bytes: &[u8])
    ensures
        final(buf)@ == old(buf)@ + bytes@,
{
    let ghost start = buf@;
    let mut i: usize = 0;
    while i < bytes.len()
        invariant
            i <= bytes.len(),
            buf@ == start + bytes@.subrange(0, i as int),
        decreases bytes.len() - i,
    {
        buf.push(bytes[i]);
        i = i + 1;
        proof {
            assert(buf@ =~= start + bytes@.subrange(0, i as int));
        }
    }
    assert(bytes@.subrange(0, i as int) =~= bytes@);
}

/// Hemera over (tag ‖ reason ‖ legs sorted by recipient, then amount).
fn intent_hash(reason: &[u8; 32], legs: &[MintLeg]) -> (r: [u8; 32])
    ensures
        r@ == hemera_digest(intent_preimage(reason@, legs@)),
{
    let sorted = sort_mint_legs(legs);
    let mut buf: Vec<u8> = Vec::new();
    let tag: [u8; 11] = [116, 111, 107, 45, 109, 105, 110, 116, 45, 118, 48];
    assert(tag@ =~= mint_tag());
    push_all(&mut buf, tag.as_slice());
    push_id(&mut buf, reason);
    let ghost head = buf@;
    let mut i: usize = 0;
    while i < sorted.len()
        invariant
            i <= sorted.len(),
            buf@ == head + legs_bytes(sorted@.subrange(0, i as int)),
        decreases sorted.len() - i,
    {
        let l = sorted[i];
        proof {
            assert(sorted@.subrange(0, i + 1).drop_last() =~= sorted@.subrange(0, i as int));
        }
        push_id(&mut buf, &l.to);
        push_id(&mut buf, &l.token);
        push_le_u64(&mut buf, l.amount);
        i = i + 1;
        proof {
            assert(buf@ =~= head + legs_bytes(sorted@.subrange(0, i as int)));
        }
    }
    assert(sorted@.subrange(0, i as int) =~= sorted@);
    assert(buf@ =~= intent_preimage(reason@, legs@));
    hemera_hash(buf.as_slice())
}

/// Mint a conserved allocation into the ledger: every positive amount
/// becomes one leg of `token`, all legs commit together, and the receipt
/// binds them to `reason` through the intent hash.
pub fn settle_mints(
    ledger: &mut MintLedger,
    token: TokenId,
    allocation: &[ConserveResult],
    reason: &[u8; 32],
) -> (r: Result<MintReceipt, MintError>)
    requires
        amount_sum(allocation@) <= u64::MAX,
    ensures
        ({
            let legs = mint_legs(allocation@, token);
            let batch = leg_pairs(legs);
            &&& legs.len() == 0 ==> r == Err::<MintReceipt, MintError>(MintError::EmptyLegs)
                && *final(ledger) == *old(ledger)
            &&& legs.len() > 0 && old(ledger).mint_conserves(token, batch) ==> (r matches Ok(rec) && {
                &&& rec.legs@ == legs
                &&& rec.total == amount_sum(allocation@)
                &&& rec.conserved_fx@ == share_sum(allocation@)
                &&& rec.intent_hash@ == hemera_digest(intent_preimage(reason@, legs))
                &&& final(ledger).minted_of(token) == sat_add(
                    old(ledger).minted_of(token) as int,
                    amount_sum(allocation@),
                )
                &&& forall|n: NeuronId|
                    #[trigger] final(ledger).balance_of(n, token) == sat_add(
                        old(ledger).balance_of(n, token) as int,
                        legs_to(batch, n),
                    )
                &&& final(ledger).same_except(*old(ledger), token)
            })
            &&& legs.len() > 0 && !old(ledger).mint_conserves(token, batch) ==> r == Err::<
                MintReceipt,
                MintError,
            >(MintError::Ledger(LedgerError::BurnExceedsMint)) && *final(ledger) == *old(ledger)
            &&& old(ledger).minted_of(token) + amount_sum(allocation@) <= u64::MAX
                ==> old(ledger).mint_conserves(token, batch)
        }),
{
    ledger.conservation_holds();
    let mut legs: Vec<MintLeg> = Vec::new();
    let mut i: usize = 0;
    while i < allocation.len()
        invariant
            i <= allocation.len(),
            legs@ == mint_legs(allocation@.subrange(0, i as int), token),
        decreases allocation.len() - i,
    {
        proof {
            assert(allocation@.subrange(0, i + 1).drop_last() =~= allocation@.subrange(0, i as int));
        }
        let c = allocation[i];
        if c.amount > 0 {
            legs.push(MintLeg { to: c.neuron, token, amount: c.amount });
        }
        i = i + 1;
    }
    assert(allocation@.subrange(0, i as int) =~= allocation@);
    proof {
        lemma_mint_legs_total(allocation@, token);
    }
    if legs.len() == 0 {
        return Err(MintError::EmptyLegs);
    }
    let mut batch: Vec<(NeuronId, u64)> = Vec::new();
    let mut k: usize = 0;
    while k < legs.len()
        invariant
            k <= legs.len(),
            batch@ == leg_pairs(legs@.subrange(0, k as int)),
        decreases legs.len() - k,
    {
        batch.push((legs[k].to, legs[k].amount));
        k = k + 1;
        proof {
            assert(batch@ =~= leg_pairs(legs@.subrange(0, k as int)));
        }
    }
    assert(legs@.subrange(0, k as int) =~= legs@);
    proof {
        lemma_positive_legs_total(legs@);
    }
    let total = match ledger.mint_batch(token, batch.as_slice()) {
        Ok(t) => t,
        Err(e) => {
            return Err(MintError::Ledger(e));
        },
    };
    let mut conserved_fx = Fx::zero();
    let mut j: usize = 0;
    while j < allocation.len()
        invariant
            j <= allocation.len(),
            conserved_fx@ == share_sum(allocation@.subrange(0, j as int)),
        decreases allocation.len() - j,
    {
        proof {
            assert(allocation@.subrange(0, j + 1).drop_last() =~= allocation@.subrange(0, j as int));
        }
        conserved_fx = conserved_fx.add(allocation[j].share);
        j = j + 1;
    }
    assert(allocation@.subrange(0, j as int) =~= allocation@);
    let intent = intent_hash(reason, legs.as_slice());
    Ok(MintReceipt { intent_hash: intent, legs, total, conserved_fx })
}

} // verus!
