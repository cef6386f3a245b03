//! Content ids: the Hemera hash over byte strings.

use vstd::prelude::*;

verus! {

/// The 32-byte Hemera (Poseidon2 over Goldilocks) digest of `input`.
pub uninterp spec fn hemera_digest(input: Seq<u8>) -> Seq<u8>;

/// `cyber_hemera::hash`: the digest of `input`, a pure function of the bytes.
#[verifier::external_body]
pub(crate) fn hemera_hash(input: &[u8]) -> (r: [u8; 32])
    ensures
        r@ == hemera_digest(input@),
{
    *cyber_hemera::hash(input).as_bytes()
}

/// Little-endian bytes of `x`, `n` of them.
pub open spec fn le_bytes(x: nat, n: nat) -> Seq<u8>
    decreases n,
{
    if n == 0 {
        Seq::empty()
    } else {
        seq![(x % 256) as u8] + le_bytes(x / 256, (n - 1) as nat)
    }
}

/// `le_bytes(x, n)` has `n` bytes.
pub proof fn lemma_le_bytes_len(x: nat, n: nat)
    ensures
        le_bytes(x, n).len() == n,
    decreases n,
{
    if n > 0 {
        lemma_le_bytes_len(x / 256, (n - 1) as nat);
    }
}

/// Distinct values below `256^n` have distinct `n`-byte encodings.
pub proof fn lemma_le_bytes_injective(x: nat, y: nat, n: nat)
    requires
        le_bytes(x, n) == le_bytes(y, n),
        x < pow256(n),
        y < pow256(n),
    ensures
        x == y,
    decreases n,
{
    if n > 0 {
        let m = (n - 1) as nat;
        lemma_le_bytes_len(x / 256, m);
        lemma_le_bytes_len(y / 256, m);
        let a = le_bytes(x, n);
        let b = le_bytes(y, n);
        assert(a[0] == b[0]);
        assert(a[0] == (x % 256) as u8);
        assert(b[0] == (y % 256) as u8);
        assert(x % 256 == y % 256);
        assert(le_bytes(x / 256, m) =~= a.subrange(1, a.len() as int));
        assert(le_bytes(y / 256, m) =~= b.subrange(1, b.len() as int));
        let p = pow256(m);
        assert(pow256(n) == 256 * p);
        assert(x / 256 < p) by (nonlinear_arith)
            requires
                x < 256 * p,
        ;
        assert(y / 256 < p) by (nonlinear_arith)
            requires
                y < 256 * p,
        ;
        lemma_le_bytes_injective(x / 256, y / 256, m);
        assert(x == 256 * (x / 256) + x % 256) by (nonlinear_arith);
        assert(y == 256 * (y / 256) + y % 256) by (nonlinear_arith);
    }
}

proof fn lemma_le_bytes_step(x: nat, k: nat, n: nat)
    requires
        k < n,
    ensures
        le_bytes(x, n) == le_bytes(x, k) + le_bytes(x / pow256(k), (n - k) as nat),
    decreases k,
{
    if k == 0 {
        assert(le_bytes(x, 0) =~= Seq::<u8>::empty());
        assert(pow256(0) == 1);
        assert(x / 1 == x);
        assert(le_bytes(x, n) =~= le_bytes(x, 0) + le_bytes(x, n));
    } else {
        lemma_le_bytes_step(x / 256, (k - 1) as nat, (n - 1) as nat);
        lemma_pow256_div(x, (k - 1) as nat);
        assert(le_bytes(x, n) =~= le_bytes(x, k) + le_bytes(x / pow256(k), (n - k) as nat));
    }
}

pub open spec fn pow256(k: nat) -> nat
    decreases k,
{
    if k == 0 {
        1
    } else {
        256 * pow256((k - 1) as nat)
    }
}

proof fn lemma_pow256_div(x: nat, k: nat)
    ensures
        (x / 256) / pow256(k) == x / pow256(k + 1),
        pow256(k) > 0,
    decreases k,
{
    if k > 0 {
        lemma_pow256_div(x, (k - 1) as nat);
    }
    assert(pow256(k + 1) == 256 * pow256(k));
    vstd::arithmetic::div_mod::lemma_div_denominator(x as int, 256, pow256(k) as int);
}

/// Append the eight little-endian bytes of `x` (`u64::to_le_bytes`).
pub fn push_le_u64(buf: &mut Vec<u8>, x: u64)
    ensures
        final(buf)@ == old(buf)@ + le_bytes(x as nat, 8),
{
    let mut v = x;
    let mut k: usize = 0;
    let ghost start = buf@;
    assert(pow256(0) == 1);
    assert(buf@ =~= start + le_bytes(x as nat, 0));
    while k < 8
        invariant
            k <= 8,
            v as nat == (x as nat) / pow256(k as nat),
            buf@ == start + le_bytes(x as nat, k as nat),
        decreases 8 - k,
    {
        proof {
            lemma_le_bytes_step(x as nat, k as nat, (k + 1) as nat);
            lemma_pow256_div(x as nat, k as nat);
            assert(le_bytes((v / 256) as nat, 0) =~= Seq::<u8>::empty());
            assert(le_bytes(v as nat, 1) =~= seq![(v % 256) as u8]);
            vstd::arithmetic::div_mod::lemma_div_denominator(x as int, pow256(k as nat) as int, 256);
            assert(pow256((k + 1) as nat) == 256 * pow256(k as nat));
        }
        buf.push((v % 256) as u8);
        v = v / 256;
        k = k + 1;
        proof {
            assert(buf@ =~= start + le_bytes(x as nat, k as nat));
        }
    }
}

/// Append every byte of a 32-byte id.
pub fn push_id(buf: &mut Vec<u8>, id: &[u8; 32])
    ensures
        final(buf)@ == old(buf)@ + id@,
{
    let ghost start = buf@;
    let mut i: usize = 0;
    while i < 32
        invariant
            i <= 32,
            buf@ == start + id@.subrange(0, i as int),
        decreases 32 - i,
    {
        buf.push(id[i]);
        i = i + 1;
        proof {
            assert(buf@ =~= start + id@.subrange(0, i as int));
        }
    }
    assert(id@.subrange(0, 32) =~= id@);
}

} // verus!
