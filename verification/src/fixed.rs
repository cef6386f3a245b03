//! Fixed-point rationals, held as the signed scaled integer that `tru::Fx`
//! represents.
//!
//! A value `x` is stored as `round(x · 2^32)` in the balanced residue range of
//! the Goldilocks field `p = 2^64 − 2^32 + 1`. Ordering and equality read that
//! signed integer directly; every arithmetic step is `tru::Fx`'s own, reached
//! through the trusted wrappers at the bottom of this file.

use vstd::prelude::*;

verus! {

/// The raw encoding of `1.0` (`2^FRAC_BITS` with `FRAC_BITS = 32`).
pub const FX_ONE_RAW: i64 = 4294967296;

/// The Goldilocks prime `2^64 − 2^32 + 1`.
pub open spec fn field_p() -> int {
    18446744069414584321
}

/// `p / 2`, the bound of the balanced residue range.
pub open spec fn half_p() -> int {
    9223372034707292160
}

/// `2^32`, the fixed-point scale.
pub open spec fn scale() -> int {
    4294967296
}

/// The balanced residue of `x` mod p: the signed integer in `[−p/2, p/2]`
/// congruent to `x`.
pub open spec fn balanced(x: int) -> int {
    let r = x % field_p();
    if r > half_p() {
        r - field_p()
    } else {
        r
    }
}

pub open spec fn in_range(x: int) -> bool {
    -half_p() <= x <= half_p()
}

pub open spec fn abs(x: int) -> int {
    if x < 0 {
        -x
    } else {
        x
    }
}

/// Signed integer division rounding toward zero; `0` when `d == 0`.
pub open spec fn trunc_div(n: int, d: int) -> int {
    if d == 0 {
        0
    } else if (n < 0) == (d < 0) {
        abs(n) / abs(d)
    } else {
        -(abs(n) / abs(d))
    }
}

/// Signed division rounding half away from zero.
pub open spec fn round_div(num: int, den: int) -> int {
    let half = abs(den) / 2;
    let bias = if (num >= 0) == (den > 0) {
        half
    } else {
        -half
    };
    trunc_div(num + bias, den)
}

/// Drop the extra scale of a product, rounding half away from zero.
pub open spec fn rescale(prod: int) -> int {
    if prod >= 0 {
        (prod + scale() / 2) / scale()
    } else {
        -((-prod + scale() / 2) / scale())
    }
}

pub open spec fn fx_add(a: int, b: int) -> int {
    balanced(balanced(a) + balanced(b))
}

pub open spec fn fx_sub(a: int, b: int) -> int {
    balanced(balanced(a) - balanced(b))
}

pub open spec fn fx_mul(a: int, b: int) -> int {
    balanced(rescale(balanced(a) * balanced(b)))
}

pub open spec fn fx_div(a: int, b: int) -> int {
    if balanced(b) == 0 {
        0
    } else {
        balanced(round_div(balanced(a) * scale(), balanced(b)))
    }
}

/// `r` is the floor square root of `n`.
pub open spec fn is_isqrt(r: int, n: int) -> bool {
    0 <= r && r * r <= n < (r + 1) * (r + 1)
}

/// `tru::Fx::sqrt` on the signed value `a`: the floor square root of
/// `a · 2^32`, zero for non-positive `a`.
pub open spec fn fx_sqrt(a: int) -> int {
    if balanced(a) <= 0 {
        0
    } else {
        choose|r: int| #[trigger] is_isqrt(r, balanced(a) * scale())
    }
}

/// The floor square root is unique.
pub proof fn lemma_isqrt_unique(r1: int, r2: int, n: int)
    requires
        is_isqrt(r1, n),
        is_isqrt(r2, n),
    ensures
        r1 == r2,
{
    if r1 < r2 {
        assert((r1 + 1) * (r1 + 1) <= r2 * r2) by (nonlinear_arith)
            requires
                0 <= r1 < r2,
        ;
    } else if r2 < r1 {
        assert((r2 + 1) * (r2 + 1) <= r1 * r1) by (nonlinear_arith)
            requires
                0 <= r2 < r1,
        ;
    }
}

/// Every non-negative integer has a floor square root.
pub proof fn lemma_isqrt_exists(n: int)
    requires
        n >= 0,
    ensures
        exists|r: int| #[trigger] is_isqrt(r, n),
    decreases n,
{
    if n == 0 {
        assert(is_isqrt(0, 0));
    } else {
        lemma_isqrt_exists(n - 1);
        let r = choose|r: int| #[trigger] is_isqrt(r, n - 1);
        if (r + 1) * (r + 1) <= n {
            assert(is_isqrt(r + 1, n)) by (nonlinear_arith)
                requires
                    0 <= r,
                    n - 1 < (r + 1) * (r + 1),
                    (r + 1) * (r + 1) <= n,
            ;
        } else {
            assert(is_isqrt(r, n));
        }
    }
}

/// The fixed-point square root is non-negative and monotone on
/// non-negative values.
pub proof fn lemma_fx_sqrt_monotone(a: int, b: int)
    requires
        0 <= a <= b,
        in_range(b),
    ensures
        0 <= fx_sqrt(a) <= fx_sqrt(b),
        fx_sqrt(b) * fx_sqrt(b) <= b * scale(),
{
    lemma_balanced_id(a);
    lemma_balanced_id(b);
    if a > 0 {
        lemma_isqrt_exists(a * scale());
    }
    if b > 0 {
        lemma_isqrt_exists(b * scale());
    }
    if a > 0 {
        let ra = fx_sqrt(a);
        let rb = fx_sqrt(b);
        assert(is_isqrt(ra, a * scale()));
        assert(is_isqrt(rb, b * scale()));
        assert(ra <= rb) by (nonlinear_arith)
            requires
                0 <= ra,
                0 <= rb,
                ra * ra <= a * scale(),
                a * scale() <= b * scale(),
                b * scale() < (rb + 1) * (rb + 1),
        ;
    } else if b > 0 {
        assert(is_isqrt(fx_sqrt(b), b * scale()));
    }
}

pub open spec fn fx_from_int(n: int) -> int {
    balanced(n * scale())
}

pub open spec fn fx_from_ratio(num: int, den: int) -> int {
    if den == 0 {
        0
    } else {
        balanced(round_div(num * scale(), den))
    }
}

/// The pair `(num, den)` halved together until `den < 2^96`.
pub open spec fn ratio_reduce(num: nat, den: nat) -> (nat, nat)
    decreases den,
{
    if den >= 0x1_0000_0000_0000_0000_0000_0000 {
        ratio_reduce(num / 2, den / 2)
    } else {
        (num, den)
    }
}

/// Whether `num · 2^32 + den / 2`, taken after the halving, fits in a
/// `u128`: the sum `tru::Fx::ratio_u128` forms, which panics (or wraps)
/// past that bound.
pub open spec fn ratio_fits(num: nat, den: nat) -> bool {
    den == 0 || ratio_reduce(num, den).0 * scale() + ratio_reduce(num, den).1 / 2 <= u128::MAX
}

pub open spec fn fx_ratio_u128(num: nat, den: nat) -> int {
    if den == 0 {
        0
    } else {
        let (n, d) = ratio_reduce(num, den);
        balanced((n * scale() + d / 2) / (d as int))
    }
}

/// `balanced(x)` is congruent to `x` mod p.
pub proof fn lemma_balanced_congruent(x: int)
    ensures
        balanced(x) % field_p() == x % field_p(),
{
    let r = x % field_p();
    vstd::arithmetic::div_mod::lemma_mod_bound(x, field_p());
    vstd::arithmetic::div_mod::lemma_mod_twice(x, field_p());
    if r > half_p() {
        vstd::arithmetic::div_mod::lemma_mod_sub_multiples_vanish(r, field_p());
    }
}

/// Fixed-point addition is addition mod p, read back balanced.
pub proof fn lemma_fx_add_is_sum(a: int, b: int)
    ensures
        fx_add(a, b) == balanced(a + b),
        fx_sub(a, b) == balanced(a - b),
{
    lemma_balanced_congruent(a);
    lemma_balanced_congruent(b);
    vstd::arithmetic::div_mod::lemma_add_mod_noop(balanced(a), balanced(b), field_p());
    vstd::arithmetic::div_mod::lemma_add_mod_noop(a, b, field_p());
    vstd::arithmetic::div_mod::lemma_sub_mod_noop(balanced(a), balanced(b), field_p());
    vstd::arithmetic::div_mod::lemma_sub_mod_noop(a, b, field_p());
}

/// `balanced` depends only on the residue mod p.
pub proof fn lemma_balanced_same_residue(x: int, y: int)
    requires
        x % field_p() == y % field_p(),
    ensures
        balanced(x) == balanced(y),
{
}

/// A fixed-point rational; its view is the signed scaled integer.
#[derive(Clone, Copy, Debug, PartialEq, Eq, Structural)]
pub struct Fx {
    raw: i64,
}

impl View for Fx {
    type V = int;

    closed spec fn view(&self) -> int {
        self.raw as int
    }
}

pub broadcast proof fn lemma_balanced_in_range(x: int)
    ensures
        #[trigger] in_range(balanced(x)),
{
}

pub broadcast proof fn lemma_balanced_id(x: int)
    requires
        in_range(x),
    ensures
        #[trigger] balanced(x) == x,
{
    if x >= 0 {
        vstd::arithmetic::div_mod::lemma_small_mod(x as nat, field_p() as nat);
    } else {
        vstd::arithmetic::div_mod::lemma_mod_add_multiples_vanish(x, field_p());
        vstd::arithmetic::div_mod::lemma_small_mod((x + field_p()) as nat, field_p() as nat);
    }
}

impl Fx {
    #[verifier::type_invariant]
    spec fn fx_inv(self) -> bool {
        in_range(self.raw as int)
    }

    /// The signed scaled integer this value stands for (`round(x · 2^32)`).
    pub fn raw(&self) -> (r: i64)
        ensures
            r == self@,
            in_range(r as int),
    {
        proof {
            use_type_invariant(self);
        }
        self.raw
    }

    pub fn zero() -> (r: Fx)
        ensures
            r@ == 0,
    {
        Fx { raw: 0 }
    }

    pub fn one() -> (r: Fx)
        ensures
            r@ == scale(),
    {
        Fx { raw: FX_ONE_RAW }
    }

    pub fn is_zero(&self) -> (r: bool)
        ensures
            r == (self@ == 0),
    {
        self.raw == 0
    }

    pub fn lt(&self, other: &Fx) -> (r: bool)
        ensures
            r == (self@ < other@),
    {
        self.raw < other.raw
    }

    pub fn le(&self, other: &Fx) -> (r: bool)
        ensures
            r == (self@ <= other@),
    {
        self.raw <= other.raw
    }

    pub fn gt(&self, other: &Fx) -> (r: bool)
        ensures
            r == (self@ > other@),
    {
        self.raw > other.raw
    }

    pub fn ge(&self, other: &Fx) -> (r: bool)
        ensures
            r == (self@ >= other@),
    {
        self.raw >= other.raw
    }

    pub fn add(self, other: Fx) -> (r: Fx)
        ensures
            r@ == fx_add(self@, other@),
    {
        outside_add(self, other)
    }

    pub fn sub(self, other: Fx) -> (r: Fx)
        ensures
            r@ == fx_sub(self@, other@),
    {
        outside_sub(self, other)
    }

    pub fn mul(self, other: Fx) -> (r: Fx)
        ensures
            r@ == fx_mul(self@, other@),
    {
        outside_mul(self, other)
    }

    /// `self / other` rounded to nearest; zero when `other` is zero.
    pub fn div(self, other: Fx) -> (r: Fx)
        ensures
            r@ == fx_div(self@, other@),
    {
        outside_div(self, other)
    }

    /// Floor square root; zero for non-positive input.
    pub fn sqrt(self) -> (r: Fx)
        ensures
            r@ == fx_sqrt(self@),
    {
        let r = outside_sqrt(self);
        proof {
            if balanced(self@) > 0 {
                let c = choose|c: int| #[trigger] is_isqrt(c, balanced(self@) * scale());
                lemma_isqrt_unique(r@, c, balanced(self@) * scale());
            }
        }
        r
    }

    pub fn from_int(n: i64) -> (r: Fx)
        ensures
            r@ == fx_from_int(n as int),
    {
        outside_from_int(n)
    }

    pub fn from_ratio(num: i64, den: i64) -> (r: Fx)
        ensures
            r@ == fx_from_ratio(num as int, den as int),
    {
        outside_from_ratio(num, den)
    }

    /// `round(num · 2^32 / den)` for `num ≤ den`, where the scaled
    /// numerator plus half the denominator fits in a `u128`.
    pub fn ratio_u128(num: u128, den: u128) -> (r: Fx)
        requires
            num <= den,
            ratio_fits(num as nat, den as nat),
        ensures
            r@ == fx_ratio_u128(num as nat, den as nat),
    {
        outside_ratio_u128(num, den)
    }
}

/// `tru::Fx + tru::Fx`: Goldilocks addition of the two residues, read back
/// as the balanced signed integer.
#[verifier::external_body]
fn outside_add(a: Fx, b: Fx) -> (r: Fx)
    ensures
        r@ == fx_add(a@, b@),
{
    let x = tru::Fx::from_ratio(a.raw, FX_ONE_RAW) + tru::Fx::from_ratio(b.raw, FX_ONE_RAW);
    Fx { raw: x.to_i64_scaled(tru::arithmetic::FRAC_BITS) }
}

/// `tru::Fx - tru::Fx`: Goldilocks subtraction, read back balanced.
#[verifier::external_body]
fn outside_sub(a: Fx, b: Fx) -> (r: Fx)
    ensures
        r@ == fx_sub(a@, b@),
{
    let x = tru::Fx::from_ratio(a.raw, FX_ONE_RAW) - tru::Fx::from_ratio(b.raw, FX_ONE_RAW);
    Fx { raw: x.to_i64_scaled(tru::arithmetic::FRAC_BITS) }
}

/// `tru::Fx * tru::Fx`: signed product, the extra `2^32` dropped rounding
/// half away from zero, reduced mod p.
#[verifier::external_body]
fn outside_mul(a: Fx, b: Fx) -> (r: Fx)
    ensures
        r@ == fx_mul(a@, b@),
{
    let x = tru::Fx::from_ratio(a.raw, FX_ONE_RAW) * tru::Fx::from_ratio(b.raw, FX_ONE_RAW);
    Fx { raw: x.to_i64_scaled(tru::arithmetic::FRAC_BITS) }
}

/// `tru::Fx::div`: `round(a · 2^32 / b)` half away from zero, reduced mod p;
/// zero when `b` is zero.
#[verifier::external_body]
fn outside_div(a: Fx, b: Fx) -> (r: Fx)
    ensures
        r@ == fx_div(a@, b@),
{
    let x = tru::Fx::from_ratio(a.raw, FX_ONE_RAW).div(tru::Fx::from_ratio(b.raw, FX_ONE_RAW));
    Fx { raw: x.to_i64_scaled(tru::arithmetic::FRAC_BITS) }
}

/// `tru::Fx::sqrt`: the floor square root of `a · 2^32`, zero for
/// non-positive `a`.
#[verifier::external_body]
fn outside_sqrt(a: Fx) -> (r: Fx)
    ensures
        balanced(a@) <= 0 ==> r@ == 0,
        balanced(a@) > 0 ==> is_isqrt(r@, balanced(a@) * scale()),
{
    let x = tru::Fx::from_ratio(a.raw, FX_ONE_RAW).sqrt();
    Fx { raw: x.to_i64_scaled(tru::arithmetic::FRAC_BITS) }
}

/// `tru::Fx::from_int`: `n · 2^32` reduced mod p.
#[verifier::external_body]
fn outside_from_int(n: i64) -> (r: Fx)
    ensures
        r@ == fx_from_int(n as int),
{
    Fx { raw: tru::Fx::from_int(n).to_i64_scaled(tru::arithmetic::FRAC_BITS) }
}

/// `tru::Fx::from_ratio`: `round(num · 2^32 / den)` half away from zero,
/// reduced mod p; zero when `den` is zero.
#[verifier::external_body]
fn outside_from_ratio(num: i64, den: i64) -> (r: Fx)
    ensures
        r@ == fx_from_ratio(num as int, den as int),
{
    Fx { raw: tru::Fx::from_ratio(num, den).to_i64_scaled(tru::arithmetic::FRAC_BITS) }
}

/// `tru::Fx::ratio_u128`: both halved until `den < 2^96`, then
/// `(num · 2^32 + den / 2) / den`. Only called with `num ≤ den`, where the
/// shifted numerator cannot lose bits, and where that sum fits in a `u128`
/// (`ratio_fits`); past it the addition overflows.
#[verifier::external_body]
fn outside_ratio_u128(num: u128, den: u128) -> (r: Fx)
    requires
        num <= den,
        ratio_fits(num as nat, den as nat),
    ensures
        r@ == fx_ratio_u128(num as nat, den as nat),
{
    Fx { raw: tru::Fx::ratio_u128(num, den).to_i64_scaled(tru::arithmetic::FRAC_BITS) }
}

} // verus!
