//! Q16.16 fixed-point arithmetic on `i64`.
//!
//! A value `v` stands for the real number `v / 65536`.  Every operation is
//! total: results that would leave `i64` are saturated to `±(2^63 - 1)`, and
//! magnitudes round toward zero, so each operation has an exact integer
//! specification.

use vstd::prelude::*;

verus! {

/// The fixed-point representation of 1.0.
pub const FX_ONE: i64 = 65536;

/// Largest magnitude a saturated result can take.
pub const FX_MAX: i64 = 0x7fff_ffff_ffff_ffff;

/// Magnitude of an integer.
pub open spec fn iabs(a: int) -> int {
    if a < 0 { -a } else { a }
}

/// Saturate an unbounded integer into the symmetric `i64` range.
pub open spec fn sat_i64(v: int) -> int {
    if v > FX_MAX { FX_MAX as int } else if v < -(FX_MAX as int) { -(FX_MAX as int) } else { v }
}

/// Fixed-point product: `a * b / FX_ONE`, rounded toward zero, saturated.
pub open spec fn fx_mul_spec(a: int, b: int) -> int {
    let m = (iabs(a) * iabs(b)) / (FX_ONE as int);
    if (a < 0) == (b < 0) { sat_i64(m) } else { sat_i64(-m) }
}

/// Fixed-point quotient: `a * FX_ONE / b`, rounded toward zero, saturated.
pub open spec fn fx_div_spec(a: int, b: int) -> int
    recommends b != 0,
{
    let m = (iabs(a) * (FX_ONE as int)) / iabs(b);
    if (a < 0) == (b < 0) { sat_i64(m) } else { sat_i64(-m) }
}

/// Saturating sum.
pub open spec fn sat_add_spec(a: int, b: int) -> int {
    sat_i64(a + b)
}

/// Saturating difference.
pub open spec fn sat_sub_spec(a: int, b: int) -> int {
    sat_i64(a - b)
}

pub fn fx_mul(a: i64, b: i64) -> (r: i64)
    ensures
        r == fx_mul_spec(a as int, b as int),
{
    let ua: u128 = if a >= 0 { a as u128 } else { (-(a as i128)) as u128 };
    let ub: u128 = if b >= 0 { b as u128 } else { (-(b as i128)) as u128 };
    proof {
        assert(ua <= 0x8000_0000_0000_0000u128);
        assert(ub <= 0x8000_0000_0000_0000u128);
        assert(ua * ub <= 0x8000_0000_0000_0000u128 * 0x8000_0000_0000_0000u128)
            by (nonlinear_arith)
            requires
                ua <= 0x8000_0000_0000_0000u128,
                ub <= 0x8000_0000_0000_0000u128,
        ;
    }
    let q: u128 = (ua * ub) / 65536;
    let m: u128 = if q > 0x7fff_ffff_ffff_ffffu128 { 0x7fff_ffff_ffff_ffffu128 } else { q };
    if (a < 0) != (b < 0) {
        -(m as i64)
    } else {
        m as i64
    }
}

pub fn fx_div(a: i64, b: i64) -> (r: i64)
    requires
        b != 0,
    ensures
        r == fx_div_spec(a as int, b as int),
{
    let ua: u128 = if a >= 0 { a as u128 } else { (-(a as i128)) as u128 };
    let ub: u128 = if b >= 0 { b as u128 } else { (-(b as i128)) as u128 };
    proof {
        assert(ua <= 0x8000_0000_0000_0000u128);
        assert(ua * 65536 <= 0x8000_0000_0000_0000u128 * 65536) by (nonlinear_arith)
            requires
                ua <= 0x8000_0000_0000_0000u128,
        ;
    }
    let q: u128 = (ua * 65536) / ub;
    let m: u128 = if q > 0x7fff_ffff_ffff_ffffu128 { 0x7fff_ffff_ffff_ffffu128 } else { q };
    if (a < 0) != (b < 0) {
        -(m as i64)
    } else {
        m as i64
    }
}

pub fn sat_add(a: i64, b: i64) -> (r: i64)
    ensures
        r == sat_add_spec(a as int, b as int),
{
    let s: i128 = a as i128 + b as i128;
    if s > 0x7fff_ffff_ffff_ffffi128 {
        0x7fff_ffff_ffff_ffffi64
    } else if s < -0x7fff_ffff_ffff_ffffi128 {
        -0x7fff_ffff_ffff_ffffi64
    } else {
        s as i64
    }
}

pub fn sat_sub(a: i64, b: i64) -> (r: i64)
    ensures
        r == sat_sub_spec(a as int, b as int),
{
    let s: i128 = a as i128 - b as i128;
    if s > 0x7fff_ffff_ffff_ffffi128 {
        0x7fff_ffff_ffff_ffffi64
    } else if s < -0x7fff_ffff_ffff_ffffi128 {
        -0x7fff_ffff_ffff_ffffi64
    } else {
        s as i64
    }
}

/// The magnitude of a saturated product is bounded by the product of the
/// operand bounds, scaled down.
pub proof fn lemma_fx_mul_bound(a: int, b: int, ba: int, bb: int)
    requires
        iabs(a) <= ba,
        iabs(b) <= bb,
    ensures
        iabs(fx_mul_spec(a, b)) <= (ba * bb) / (FX_ONE as int),
{
    let m = (iabs(a) * iabs(b)) / (FX_ONE as int);
    assert(0 <= iabs(a) * iabs(b) && iabs(a) * iabs(b) <= ba * bb) by (nonlinear_arith)
        requires
            0 <= iabs(a) <= ba,
            0 <= iabs(b) <= bb,
    ;
    vstd::arithmetic::div_mod::lemma_div_is_ordered(iabs(a) * iabs(b), ba * bb, FX_ONE as int);
    vstd::arithmetic::div_mod::lemma_div_is_ordered(0, iabs(a) * iabs(b), FX_ONE as int);
}

/// A product of non-negative factors is their exact scaled product.
pub proof fn lemma_fx_mul_nonneg(a: int, b: int)
    requires
        0 <= a,
        0 <= b,
    ensures
        fx_mul_spec(a, b) == sat_i64((a * b) / (FX_ONE as int)),
        0 <= fx_mul_spec(a, b),
{
    assert(0 <= a * b) by (nonlinear_arith)
        requires
            0 <= a,
            0 <= b,
    ;
    vstd::arithmetic::div_mod::lemma_div_is_ordered(0, a * b, FX_ONE as int);
}

/// Squares are non-negative.
pub proof fn lemma_fx_mul_sq(a: int)
    ensures
        fx_mul_spec(a, a) == sat_i64((iabs(a) * iabs(a)) / (FX_ONE as int)),
        0 <= fx_mul_spec(a, a),
{
    assert(0 <= iabs(a) * iabs(a)) by (nonlinear_arith);
    vstd::arithmetic::div_mod::lemma_div_is_ordered(0, iabs(a) * iabs(a), FX_ONE as int);
}

/// Negating one factor negates the product exactly.
pub proof fn lemma_fx_mul_neg_left(a: int, b: int)
    ensures
        fx_mul_spec(-a, b) == -fx_mul_spec(a, b),
{
    let m = (iabs(a) * iabs(b)) / (FX_ONE as int);
    assert(iabs(-a) == iabs(a));
    assert(0 <= iabs(a) * iabs(b)) by (nonlinear_arith)
        requires
            0 <= iabs(a),
            0 <= iabs(b),
    ;
    vstd::arithmetic::div_mod::lemma_div_is_ordered(0, iabs(a) * iabs(b), FX_ONE as int);
    if a == 0 {
        assert(iabs(a) * iabs(b) == 0) by (nonlinear_arith)
            requires
                iabs(a) == 0,
        ;
    }
}

/// Negating the dividend negates the quotient exactly.
pub proof fn lemma_fx_div_neg_left(a: int, b: int)
    requires
        b != 0,
    ensures
        fx_div_spec(-a, b) == -fx_div_spec(a, b),
{
    assert(iabs(-a) == iabs(a));
    assert(0 <= iabs(a) * (FX_ONE as int)) by (nonlinear_arith)
        requires
            0 <= iabs(a),
    ;
    if b != 0 {
        vstd::arithmetic::div_mod::lemma_div_is_ordered(0, iabs(a) * (FX_ONE as int), iabs(b));
        vstd::arithmetic::div_mod::lemma_div_of0(iabs(b));
    }
    if a == 0 {
        assert(iabs(a) * (FX_ONE as int) == 0) by (nonlinear_arith)
            requires
                iabs(a) == 0,
        ;
    }
}

/// Negating the other factor negates the product exactly.
pub proof fn lemma_fx_mul_neg_right(a: int, b: int)
    ensures
        fx_mul_spec(a, -b) == -fx_mul_spec(a, b),
{
    assert(iabs(-b) == iabs(b));
    assert(0 <= iabs(a) * iabs(b)) by (nonlinear_arith)
        requires
            0 <= iabs(a),
            0 <= iabs(b),
    ;
    vstd::arithmetic::div_mod::lemma_div_is_ordered(0, iabs(a) * iabs(b), FX_ONE as int);
    if b == 0 {
        assert(iabs(a) * iabs(b) == 0) by (nonlinear_arith)
            requires
                iabs(b) == 0,
        ;
    }
}

/// Negating both factors leaves the product unchanged.
pub proof fn lemma_fx_mul_neg_both(a: int, b: int)
    ensures
        fx_mul_spec(-a, -b) == fx_mul_spec(a, b),
{
    lemma_fx_mul_neg_left(a, -b);
    lemma_fx_mul_neg_right(a, b);
}

/// The product is monotone in both factors on non-negative operands.
pub proof fn lemma_fx_mul_mono_pair(a1: int, a2: int, b1: int, b2: int)
    requires
        0 <= a1 <= a2,
        0 <= b1 <= b2,
    ensures
        fx_mul_spec(a1, b1) <= fx_mul_spec(a2, b2),
{
    lemma_fx_mul_nonneg(a1, b1);
    lemma_fx_mul_nonneg(a2, b2);
    assert(a1 * b1 <= a2 * b2) by (nonlinear_arith)
        requires
            0 <= a1 <= a2,
            0 <= b1 <= b2,
    ;
    vstd::arithmetic::div_mod::lemma_div_is_ordered(a1 * b1, a2 * b2, FX_ONE as int);
}

/// The magnitude of a saturated quotient is bounded by the scaled dividend
/// bound over the divisor's lower bound.
pub proof fn lemma_fx_div_bound(a: int, b: int, ba: int, bmin: int)
    requires
        iabs(a) <= ba,
        0 < bmin <= iabs(b),
    ensures
        iabs(fx_div_spec(a, b)) <= (ba * (FX_ONE as int)) / bmin,
        0 <= (ba * (FX_ONE as int)) / bmin,
{
    let p = iabs(a) * (FX_ONE as int);
    assert(0 <= p <= ba * (FX_ONE as int)) by (nonlinear_arith)
        requires
            p == iabs(a) * (FX_ONE as int),
            0 <= iabs(a) <= ba,
    ;
    vstd::arithmetic::div_mod::lemma_div_is_ordered(0, p, iabs(b));
    vstd::arithmetic::div_mod::lemma_div_is_ordered_by_denominator(p, bmin, iabs(b));
    vstd::arithmetic::div_mod::lemma_div_is_ordered(p, ba * (FX_ONE as int), bmin);
    vstd::arithmetic::div_mod::lemma_div_is_ordered(0, ba * (FX_ONE as int), bmin);
}

/// The integer square root dominates any root of a lower bound.
pub proof fn lemma_isqrt_ge(n: nat, b: nat)
    requires
        b * b <= n,
    ensures
        b <= isqrt_spec(n),
{
    lemma_isqrt_bounds(n);
    let s = isqrt_spec(n);
    if s < b {
        assert((s + 1) * (s + 1) <= b * b) by (nonlinear_arith)
            requires
                s + 1 <= b,
        ;
    }
}

/// Multiplying by one is the identity on `i64` values.
pub proof fn lemma_fx_mul_one(a: int)
    requires
        iabs(a) <= FX_MAX,
    ensures
        fx_mul_spec(a, FX_ONE as int) == a,
{
    assert(iabs(a) * (FX_ONE as int) / (FX_ONE as int) == iabs(a)) by (nonlinear_arith)
        requires
            0 <= iabs(a),
    ;
}

/// Multiplying by zero gives zero.
pub proof fn lemma_fx_mul_zero(a: int)
    ensures
        fx_mul_spec(a, 0) == 0,
{
    assert(iabs(a) * 0 == 0) by (nonlinear_arith);
}

/// Integer square root, defined by recurrence; `lemma_isqrt_bounds` gives its
/// characteristic property.
pub open spec fn isqrt_spec(n: nat) -> nat
    decreases n,
{
    if n == 0 {
        0
    } else {
        let r = isqrt_spec((n - 1) as nat);
        if (r + 1) * (r + 1) <= n { r + 1 } else { r }
    }
}

pub proof fn lemma_isqrt_bounds(n: nat)
    ensures
        isqrt_spec(n) * isqrt_spec(n) <= n,
        n < (isqrt_spec(n) + 1) * (isqrt_spec(n) + 1),
    decreases n,
{
    let s = isqrt_spec(n);
    if n > 0 {
        lemma_isqrt_bounds((n - 1) as nat);
        let r = isqrt_spec((n - 1) as nat);
        assert(r * r <= n - 1);
        assert(n - 1 < (r + 1) * (r + 1));
        if (r + 1) * (r + 1) <= n {
            assert(s == r + 1);
            assert(n <= s * s);
            assert(n < (s + 1) * (s + 1)) by (nonlinear_arith)
                requires
                    n <= s * s,
                    0 <= s,
            ;
        } else {
            assert(s == r);
            assert(s * s <= n);
            assert(n < (s + 1) * (s + 1));
        }
    } else {
        assert(s == 0);
        assert(s * s == 0) by (nonlinear_arith)
            requires
                s == 0,
        ;
        assert((s + 1) * (s + 1) >= 1) by (nonlinear_arith)
            requires
                0 <= s,
        ;
    }
    assert(s * s <= n);
    assert(n < (s + 1) * (s + 1));
}

pub proof fn lemma_isqrt_unique(n: nat, r: nat)
    requires
        r * r <= n,
        n < (r + 1) * (r + 1),
    ensures
        r == isqrt_spec(n),
{
    lemma_isqrt_bounds(n);
    let s = isqrt_spec(n);
    if r < s {
        assert((r + 1) * (r + 1) <= s * s) by (nonlinear_arith)
            requires
                r + 1 <= s,
        ;
    }
    if s < r {
        assert((s + 1) * (s + 1) <= r * r) by (nonlinear_arith)
            requires
                s + 1 <= r,
        ;
    }
}

/// Binary-search integer square root for `n < 2^80`.
pub fn isqrt_u128(n: u128) -> (r: u128)
    requires
        n < 0x1_0000_0000_0000_0000_0000u128,
    ensures
        r as nat == isqrt_spec(n as nat),
        r * r <= n,
{
    let mut lo: u128 = 0;
    let mut hi: u128 = 0x100_0000_0000u128;
    proof {
        assert(hi * hi == 0x1_0000_0000_0000_0000_0000u128) by (nonlinear_arith)
            requires
                hi == 0x100_0000_0000u128,
        ;
    }
    while lo + 1 < hi
        invariant
            lo < hi,
            hi <= 0x100_0000_0000u128,
            lo * lo <= n,
            n < hi * hi,
        decreases hi - lo,
    {
        let mid: u128 = lo + (hi - lo) / 2;
        proof {
            assert(mid * mid < 0x100_0000_0000u128 * 0x100_0000_0000u128) by (nonlinear_arith)
                requires
                    mid < 0x100_0000_0000u128,
            ;
        }
        if mid * mid <= n {
            lo = mid;
        } else {
            hi = mid;
        }
    }
    proof {
        assert(hi == lo + 1);
        lemma_isqrt_unique(n as nat, lo as nat);
    }
    lo
}

/// Fixed-point square root of a non-negative fixed value:
/// `isqrt(v * FX_ONE)`, so that `fx_sqrt_spec(FX_ONE) == FX_ONE`.
pub open spec fn fx_sqrt_spec(v: int) -> int
    recommends 0 <= v,
{
    isqrt_spec((v * (FX_ONE as int)) as nat) as int
}

pub fn fx_sqrt(v: i64) -> (r: i64)
    requires
        0 <= v,
    ensures
        r == fx_sqrt_spec(v as int),
        0 <= r,
{
    let n: u128 = (v as u128) * 65536;
    proof {
        assert(n < 0x1_0000_0000_0000_0000_0000u128);
        lemma_isqrt_bounds(n as nat);
        assert(isqrt_spec(n as nat) * isqrt_spec(n as nat) <= n);
        assert(isqrt_spec(n as nat) < 0x1_0000_0000_0000u128) by (nonlinear_arith)
            requires
                isqrt_spec(n as nat) * isqrt_spec(n as nat) <= n,
                n < 0x1_0000_0000_0000_0000_0000u128,
        ;
    }
    let r = isqrt_u128(n);
    r as i64
}

} // verus!
