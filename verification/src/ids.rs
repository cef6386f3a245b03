//! 32-byte identifiers (neurons, tokens, particles) and their byte order.

use vstd::prelude::*;

verus! {

/// Coin class / token particle id.
pub type TokenId = [u8; 32];

/// A neuron's identity card id.
pub type NeuronId = [u8; 32];

/// `a` and `b` agree on their first `k` bytes.
pub open spec fn same_prefix(a: [u8; 32], b: [u8; 32], k: int) -> bool {
    forall|j: int| 0 <= j < k ==> a[j] == b[j]
}

/// Lexicographic (big-endian byte) order on ids, the order `[u8; 32]`'s `Ord`
/// gives.
pub open spec fn id_lt(a: [u8; 32], b: [u8; 32]) -> bool {
    exists|i: int| 0 <= i < 32 && same_prefix(a, b, i) && a[i] < b[i]
}

pub proof fn lemma_id_lt_irreflexive(a: [u8; 32])
    ensures
        !id_lt(a, a),
{
}

pub proof fn lemma_id_lt_asymmetric(a: [u8; 32], b: [u8; 32])
    ensures
        !(id_lt(a, b) && id_lt(b, a)),
{
    if id_lt(a, b) && id_lt(b, a) {
        let i = choose|i: int| 0 <= i < 32 && same_prefix(a, b, i) && a[i] < b[i];
        let k = choose|k: int| 0 <= k < 32 && same_prefix(b, a, k) && b[k] < a[k];
        if i < k {
            assert(b[i] == a[i]);
        } else if k < i {
            assert(a[k] == b[k]);
        }
    }
}

pub proof fn lemma_id_lt_transitive(a: [u8; 32], b: [u8; 32], c: [u8; 32])
    requires
        id_lt(a, b),
        id_lt(b, c),
    ensures
        id_lt(a, c),
{
    let i = choose|i: int| 0 <= i < 32 && same_prefix(a, b, i) && a[i] < b[i];
    let k = choose|k: int| 0 <= k < 32 && same_prefix(b, c, k) && b[k] < c[k];
    let m = if i < k {
        i
    } else {
        k
    };
    assert(same_prefix(a, c, m));
    assert(a[m] < c[m]);
}

pub proof fn lemma_id_lt_total(a: [u8; 32], b: [u8; 32])
    requires
        a != b,
    ensures
        id_lt(a, b) || id_lt(b, a),
{
    if forall|j: int| 0 <= j < 32 ==> a[j] == b[j] {
        assert(a@ =~= b@);
        vstd::array::axiom_array_ext_equal(a, b);
        assert(a == b);
    } else {
        let d = choose|j: int| 0 <= j < 32 && a[j] != b[j];
        lemma_first_difference(a, b, d);
    }
}

proof fn lemma_first_difference(a: [u8; 32], b: [u8; 32], d: int)
    requires
        0 <= d < 32,
        a[d] != b[d],
    ensures
        id_lt(a, b) || id_lt(b, a),
    decreases d,
{
    if same_prefix(a, b, d) {
        if a[d] < b[d] {
            assert(id_lt(a, b));
        } else {
            assert(same_prefix(b, a, d));
            assert(id_lt(b, a));
        }
    } else {
        let e = choose|j: int| 0 <= j < d && a[j] != b[j];
        lemma_first_difference(a, b, e);
    }
}

/// Byte-wise equality of two ids.
pub fn id_eq(a: &[u8; 32], b: &[u8; 32]) -> (r: bool)
    ensures
        r == (*a == *b),
{
    let mut i: usize = 0;
    while i < 32
        invariant
            0 <= i <= 32,
            same_prefix(*a, *b, i as int),
        decreases 32 - i,
    {
        if a[i] != b[i] {
            return false;
        }
        i = i + 1;
    }
    proof {
        assert(a@ =~= b@);
        vstd::array::axiom_array_ext_equal(*a, *b);
    }
    true
}

/// `a` comes strictly before `b` in byte order.
pub fn id_less(a: &[u8; 32], b: &[u8; 32]) -> (r: bool)
    ensures
        r == id_lt(*a, *b),
{
    let mut i: usize = 0;
    while i < 32
        invariant
            0 <= i <= 32,
            same_prefix(*a, *b, i as int),
        decreases 32 - i,
    {
        if a[i] != b[i] {
            proof {
                if a[i as int] > b[i as int] {
                    assert(same_prefix(*b, *a, i as int));
                    assert(id_lt(*b, *a));
                    lemma_id_lt_asymmetric(*a, *b);
                }
            }
            return a[i] < b[i];
        }
        i = i + 1;
    }
    proof {
        assert(a@ =~= b@);
        vstd::array::axiom_array_ext_equal(*a, *b);
        lemma_id_lt_irreflexive(*a);
    }
    false
}

} // verus!
