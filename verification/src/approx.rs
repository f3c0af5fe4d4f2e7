//! Rational approximations of the Gaussian bump and the error function.
//!
//! Both follow the same scheme: a cubic correction polynomial with fitted
//! minimax coefficients feeds a simple rational form, so no transcendental
//! has to be evaluated on the hot path.  The fitted coefficients are the
//! Q16.16 renditions of 0.215 and 0.0952 (Gaussian) and of 0.217 and 0.072
//! (error function).  Arguments are clamped into `±GAUSS_DOM` (±8.0), where
//! both kernels have long since decayed to their limit values.

use vstd::prelude::*;
use crate::fx::{
    FX_ONE, FX_MAX, iabs, sat_i64, fx_mul_spec, fx_div_spec, sat_add_spec, fx_sqrt_spec,
    isqrt_spec, fx_mul, fx_div, sat_add, fx_sqrt, lemma_fx_mul_bound, lemma_fx_mul_sq,
    lemma_isqrt_bounds, lemma_fx_mul_zero, lemma_fx_mul_neg_left, lemma_fx_mul_neg_right,
    lemma_fx_mul_neg_both, lemma_fx_mul_mono_pair, lemma_fx_mul_nonneg, lemma_fx_div_neg_left,
};

verus! {

/// Fitted correction coefficients, Q16.16.
pub const C_G1: i64 = 14090;

pub const C_G2: i64 = 6239;

pub const C_E1: i64 = 14221;

pub const C_E2: i64 = 4719;

/// Domain bound for the approximators: 8.0 in Q16.16.
pub const GAUSS_DOM: i64 = 524288;

/// Clamp an argument into the approximators' domain.
pub open spec fn clamp_dom_spec(x: int) -> int {
    if x > GAUSS_DOM { GAUSS_DOM as int } else if x < -(GAUSS_DOM as int) { -(GAUSS_DOM as int) } else { x }
}

/// The cubic correction `x + (c1 + c2 * x^2) * x^3`, evaluated in fixed
/// point as `x + (c1 + c2 * xx) * (x * xx)` with `xx = x * x`.
pub open spec fn poly_spec(c1: int, c2: int, x: int) -> int {
    let xx = fx_mul_spec(x, x);
    sat_add_spec(x, fx_mul_spec(sat_add_spec(c1, fx_mul_spec(c2, xx)), fx_mul_spec(x, xx)))
}

/// Approximation of `exp(-x^2)`: the correction fed into `1 / (1 + y^2)`.
pub open spec fn gauss_spec(x0: int) -> int {
    let y = poly_spec(C_G1 as int, C_G2 as int, clamp_dom_spec(x0));
    ((FX_ONE * FX_ONE) as int) / sat_add_spec(FX_ONE as int, fx_mul_spec(y, y))
}

/// Approximation of `erf(x * sqrt(pi) / 2)`: the correction fed into
/// `y / sqrt(1 + y^2)`.
pub open spec fn erf_spec(x0: int) -> int {
    let y = poly_spec(C_E1 as int, C_E2 as int, clamp_dom_spec(x0));
    fx_div_spec(y, fx_sqrt_spec(sat_add_spec(FX_ONE as int, fx_mul_spec(y, y))))
}

pub fn clamp_dom(x: i64) -> (r: i64)
    ensures
        r == clamp_dom_spec(x as int),
        -(GAUSS_DOM as int) <= r <= GAUSS_DOM as int,
{
    if x > GAUSS_DOM {
        GAUSS_DOM
    } else if x < -GAUSS_DOM {
        -GAUSS_DOM
    } else {
        x
    }
}

/// Magnitude bound for the correction polynomial on the clamped domain.
proof fn lemma_poly_bound(c1: int, c2: int, x: int)
    requires
        iabs(x) <= GAUSS_DOM as int,
        0 <= c1 <= 32768,
        0 <= c2 <= 32768,
    ensures
        iabs(poly_spec(c1, c2, x)) <= 0x4200_0000,
{
    let xx = fx_mul_spec(x, x);
    lemma_fx_mul_bound(x, x, GAUSS_DOM as int, GAUSS_DOM as int);
    assert(iabs(xx) <= 4194304);
    lemma_fx_mul_bound(c2, xx, 32768, 4194304);
    assert(iabs(fx_mul_spec(c2, xx)) <= 2097152);
    let t = sat_add_spec(c1, fx_mul_spec(c2, xx));
    assert(iabs(t) <= 2129920);
    lemma_fx_mul_bound(x, xx, GAUSS_DOM as int, 4194304);
    let u = fx_mul_spec(x, xx);
    assert(iabs(u) <= 33554432);
    lemma_fx_mul_bound(t, u, 2129920, 33554432);
    assert((2129920 * 33554432) / 65536 == 1090519040) by (nonlinear_arith);
    assert(iabs(fx_mul_spec(t, u)) <= 1090519040);
    assert(iabs(poly_spec(c1, c2, x)) <= 0x4200_0000);
}

/// Evaluate the correction polynomial.
fn poly_eval(c1: i64, c2: i64, x: i64) -> (y: i64)
    requires
        -(GAUSS_DOM as int) <= x <= GAUSS_DOM as int,
        0 <= c1 <= 32768,
        0 <= c2 <= 32768,
    ensures
        y == poly_spec(c1 as int, c2 as int, x as int),
        iabs(y as int) <= 0x4200_0000,
{
    proof {
        lemma_poly_bound(c1 as int, c2 as int, x as int);
    }
    let xx = fx_mul(x, x);
    let t = sat_add(c1, fx_mul(c2, xx));
    sat_add(x, fx_mul(t, fx_mul(x, xx)))
}

/// Approximate `exp(-x^2)` for a Q16.16 argument.
///
/// The result equals `gauss_spec(x)` exactly and always lies in `[0, 1]`
/// (that is, `[0, FX_ONE]` in the raw representation).
pub fn gauss_approx(x: i64) -> (r: i64)
    ensures
        r == gauss_spec(x as int),
        0 <= r <= FX_ONE as int,
{
    let xc = clamp_dom(x);
    let y = poly_eval(C_G1, C_G2, xc);
    let m = fx_mul(y, y);
    proof {
        lemma_fx_mul_sq(y as int);
        lemma_fx_mul_bound(y as int, y as int, 0x4200_0000, 0x4200_0000);
    }
    let den = sat_add(FX_ONE, m);
    proof {
        assert(den >= FX_ONE);
        vstd::arithmetic::div_mod::lemma_div_is_ordered_by_denominator(
            0x1_0000_0000,
            FX_ONE as int,
            den as int,
        );
        vstd::arithmetic::div_mod::lemma_div_is_ordered(0, 0x1_0000_0000, den as int);
    }
    let r = (0x1_0000_0000u64 / (den as u64)) as i64;
    r
}

/// Approximate `erf(x * sqrt(pi) / 2)` for a Q16.16 argument.
///
/// The result equals `erf_spec(x)` exactly and always lies in `[-1, 1]`
/// (that is, `[-FX_ONE, FX_ONE]` raw).
pub fn erf_approx(x: i64) -> (r: i64)
    ensures
        r == erf_spec(x as int),
        -(FX_ONE as int) <= r <= FX_ONE as int,
{
    let xc = clamp_dom(x);
    let y = poly_eval(C_E1, C_E2, xc);
    let m = fx_mul(y, y);
    proof {
        lemma_fx_mul_sq(y as int);
    }
    let den_arg = sat_add(FX_ONE, m);
    proof {
        assert(FX_ONE as int <= den_arg);
    }
    let den = fx_sqrt(den_arg);
    proof {
        lemma_sqrt_dominates(y as int, m as int, den_arg as int, den as int);
    }
    let r = fx_div(y, den);
    proof {
        lemma_div_within_one(y as int, den as int, r as int);
    }
    r
}

/// If `m` truncates `y^2 / FX_ONE` then the fixed square root of
/// `FX_ONE + m` is at least `|y|` and at least `FX_ONE`.
proof fn lemma_sqrt_dominates(y: int, m: int, den_arg: int, den: int)
    requires
        iabs(y) <= 0x4200_0000,
        m == sat_i64((iabs(y) * iabs(y)) / (FX_ONE as int)),
        den_arg == sat_add_spec(FX_ONE as int, m),
        den == fx_sqrt_spec(den_arg),
    ensures
        iabs(y) <= den,
        FX_ONE as int <= den,
{
    let f = FX_ONE as int;
    let p = iabs(y) * iabs(y);
    assert(0 <= p <= 0x1104_0000_1000_0000) by (nonlinear_arith)
        requires
            p == iabs(y) * iabs(y),
            0 <= iabs(y) <= 0x4200_0000,
    ;
    vstd::arithmetic::div_mod::lemma_div_is_ordered(0, p, f);
    vstd::arithmetic::div_mod::lemma_div_is_ordered(p, 0x1104_0000_1000_0000, f);
    assert(m == p / f);
    assert(den_arg == f + m);
    // p / f >= (p - f + 1) / f, so f * m >= p - f + 1, hence n >= f*f + p - f + 1 > p.
    vstd::arithmetic::div_mod::lemma_fundamental_div_mod(p, f);
    let n = den_arg * f;
    assert(n == f * f + m * f) by (nonlinear_arith)
        requires
            n == den_arg * f,
            den_arg == f + m,
            f == 65536,
    ;
    assert(m * f > p - f) by (nonlinear_arith)
        requires
            p == f * (p / f) + p % f,
            m == p / f,
            0 <= p % f < f,
            f == 65536,
    ;
    assert(n > p);
    let s = isqrt_spec(n as nat);
    lemma_isqrt_bounds(n as nat);
    assert(den == s);
    // |y| <= s: otherwise |y| >= s + 1 and y^2 >= (s+1)^2 > n.
    if iabs(y) > s {
        assert(p >= (s + 1) * (s + 1)) by (nonlinear_arith)
            requires
                iabs(y) >= s + 1,
                0 <= s,
                p == iabs(y) * iabs(y),
        ;
        assert(false);
    }
    // f <= s: n >= f * f, so (s+1)^2 > f^2, hence s + 1 > f.
    assert(n >= f * f);
    if s < f {
        assert((s + 1) * (s + 1) <= f * f) by (nonlinear_arith)
            requires
                s + 1 <= f,
                0 <= s,
        ;
        assert(false);
    }
}

/// The correction polynomial is an odd function of its argument.
proof fn lemma_poly_odd(c1: int, c2: int, x: int)
    ensures
        poly_spec(c1, c2, -x) == -poly_spec(c1, c2, x),
{
    lemma_fx_mul_neg_both(x, x);
    let xx = fx_mul_spec(x, x);
    lemma_fx_mul_neg_left(x, xx);
    let t = sat_add_spec(c1, fx_mul_spec(c2, xx));
    lemma_fx_mul_neg_right(t, fx_mul_spec(x, xx));
}

/// The Gaussian approximation peaks at the origin with the exact value 1.0.
///
/// `gauss_spec(0)` is `FX_ONE` with no rounding error at all: the correction
/// polynomial vanishes at zero and `1 / (1 + 0)` is exact.
pub proof fn lemma_gauss_at_zero()
    ensures
        gauss_spec(0) == FX_ONE as int,
{
    lemma_fx_mul_zero(0);
    assert(fx_mul_spec(0, 0) == 0);
    lemma_fx_mul_zero(C_G2 as int);
    assert(poly_spec(C_G1 as int, C_G2 as int, 0) == 0) by {
        lemma_fx_mul_zero(sat_add_spec(C_G1 as int, fx_mul_spec(C_G2 as int, 0)));
        lemma_fx_mul_neg_right(C_G2 as int, 0);
        assert(fx_mul_spec(C_G2 as int, 0) == 0) by {
            lemma_fx_mul_zero(C_G2 as int);
        }
        assert(fx_mul_spec(0, 0) == 0);
    }
    assert(sat_add_spec(FX_ONE as int, 0) == FX_ONE as int);
    assert((FX_ONE * FX_ONE) as int / (FX_ONE as int) == FX_ONE as int) by (nonlinear_arith)
        requires
            FX_ONE == 65536,
    ;
}

/// The Gaussian approximation is an even function: mirrored arguments give
/// the identical intensity.
pub proof fn lemma_gauss_even(x: int)
    ensures
        gauss_spec(-x) == gauss_spec(x),
{
    assert(clamp_dom_spec(-x) == -clamp_dom_spec(x));
    lemma_poly_odd(C_G1 as int, C_G2 as int, clamp_dom_spec(x));
    let y = poly_spec(C_G1 as int, C_G2 as int, clamp_dom_spec(x));
    lemma_fx_mul_neg_both(y, y);
}

/// The error-function approximation is an odd function, exactly: the fixed
/// representation rounds magnitudes, so negation commutes with every step.
pub proof fn lemma_erf_odd(x: int)
    ensures
        erf_spec(-x) == -erf_spec(x),
{
    assert(clamp_dom_spec(-x) == -clamp_dom_spec(x));
    let xc = clamp_dom_spec(x);
    lemma_poly_odd(C_E1 as int, C_E2 as int, xc);
    let y = poly_spec(C_E1 as int, C_E2 as int, xc);
    lemma_fx_mul_neg_both(y, y);
    let den = fx_sqrt_spec(sat_add_spec(FX_ONE as int, fx_mul_spec(y, y)));
    lemma_poly_bound(C_E1 as int, C_E2 as int, xc);
    lemma_fx_mul_sq(y);
    lemma_sqrt_dominates(
        y,
        fx_mul_spec(y, y),
        sat_add_spec(FX_ONE as int, fx_mul_spec(y, y)),
        den,
    );
    lemma_fx_div_neg_left(y, den);
}

/// The Gaussian approximation never increases as the argument moves away
/// from the origin: for `0 <= a <= b` the intensity at `b` is at most the
/// intensity at `a`.  Together with `lemma_gauss_even` this makes the bump
/// unimodal over the whole argument range.
pub proof fn lemma_gauss_mono(a: int, b: int)
    requires
        0 <= a <= b,
    ensures
        gauss_spec(b) <= gauss_spec(a),
{
    let ca = clamp_dom_spec(a);
    let cb = clamp_dom_spec(b);
    assert(0 <= ca <= cb);
    lemma_poly_mono(C_G1 as int, C_G2 as int, ca, cb);
    let ya = poly_spec(C_G1 as int, C_G2 as int, ca);
    let yb = poly_spec(C_G1 as int, C_G2 as int, cb);
    assert(0 <= ya <= yb);
    lemma_fx_mul_mono_pair(ya, yb, ya, yb);
    lemma_fx_mul_sq(ya);
    let da = sat_add_spec(FX_ONE as int, fx_mul_spec(ya, ya));
    let db = sat_add_spec(FX_ONE as int, fx_mul_spec(yb, yb));
    assert(1 <= da <= db);
    vstd::arithmetic::div_mod::lemma_div_is_ordered_by_denominator(0x1_0000_0000, da, db);
}

/// On non-negative arguments the correction polynomial is non-negative and
/// monotone.
proof fn lemma_poly_mono(c1: int, c2: int, a: int, b: int)
    requires
        0 <= a <= b,
        0 <= c1 <= 32768,
        0 <= c2 <= 32768,
    ensures
        0 <= poly_spec(c1, c2, a) <= poly_spec(c1, c2, b),
{
    lemma_fx_mul_mono_pair(a, b, a, b);
    lemma_fx_mul_sq(a);
    let xxa = fx_mul_spec(a, a);
    let xxb = fx_mul_spec(b, b);
    assert(0 <= xxa <= xxb);
    lemma_fx_mul_mono_pair(c2, c2, xxa, xxb);
    lemma_fx_mul_nonneg(c2, xxa);
    let ta = sat_add_spec(c1, fx_mul_spec(c2, xxa));
    let tb = sat_add_spec(c1, fx_mul_spec(c2, xxb));
    assert(0 <= ta <= tb);
    lemma_fx_mul_mono_pair(a, b, xxa, xxb);
    lemma_fx_mul_nonneg(a, xxa);
    let ua = fx_mul_spec(a, xxa);
    let ub = fx_mul_spec(b, xxb);
    assert(0 <= ua <= ub);
    lemma_fx_mul_mono_pair(ta, tb, ua, ub);
    lemma_fx_mul_nonneg(ta, ua);
}


/// Past `|x| = 3.0` the error-function approximation sits within 118 raw
/// units (about 1.8e-3) of its limit: it approaches +-1.0 as the argument
/// grows, inside its valid domain.
pub proof fn lemma_erf_approaches_one(x: int)
    requires
        3 * (FX_ONE as int) <= iabs(x),
    ensures
        0 < x ==> FX_ONE as int - 118 <= erf_spec(x) <= FX_ONE as int,
        x < 0 ==> -(FX_ONE as int) <= erf_spec(x) && erf_spec(x) <= -(FX_ONE as int) + 118,
{
    if 0 < x {
        lemma_erf_high(x);
    } else {
        lemma_erf_high(-x);
        lemma_erf_odd(-x);
    }
}

/// The positive half of `lemma_erf_approaches_one`.
proof fn lemma_erf_high(x: int)
    requires
        3 * (FX_ONE as int) <= x,
    ensures
        FX_ONE as int - 118 <= erf_spec(x) <= FX_ONE as int,
{
    let f = FX_ONE as int;
    let xc = clamp_dom_spec(x);
    assert(196608 <= xc <= GAUSS_DOM as int);
    // the correction polynomial at exactly 3.0
    assert(196608 * 196608 / 65536 == 589824) by (nonlinear_arith);
    assert(fx_mul_spec(196608, 196608) == 589824);
    assert(4719 * 589824 / 65536 == 42471) by (nonlinear_arith);
    assert(fx_mul_spec(4719, 589824) == 42471);
    assert(sat_add_spec(14221, 42471) == 56692);
    assert(196608 * 589824 / 65536 == 1769472) by (nonlinear_arith);
    assert(fx_mul_spec(196608, 589824) == 1769472);
    assert(56692 * 1769472 / 65536 == 1530684) by (nonlinear_arith);
    assert(fx_mul_spec(56692, 1769472) == 1530684);
    assert(sat_add_spec(196608, 1530684) == 1727292);
    assert(poly_spec(C_E1 as int, C_E2 as int, 196608) == 1727292);
    lemma_poly_mono(C_E1 as int, C_E2 as int, 196608, xc);
    lemma_poly_bound(C_E1 as int, C_E2 as int, xc);
    let y = poly_spec(C_E1 as int, C_E2 as int, xc);
    assert(1727292 <= y <= 0x4200_0000);
    // the denominator: at least y, at most sqrt(f^2 + y^2)
    lemma_fx_mul_sq(y);
    let m = fx_mul_spec(y, y);
    let p = iabs(y) * iabs(y);
    assert(p == y * y);
    assert(0 <= p <= 0x1104_0000_1000_0000) by (nonlinear_arith)
        requires
            p == y * y,
            0 <= y <= 0x4200_0000,
    ;
    vstd::arithmetic::div_mod::lemma_div_is_ordered(0, p, f);
    vstd::arithmetic::div_mod::lemma_div_is_ordered(p, 0x1104_0000_1000_0000, f);
    assert(m == p / f);
    let den_arg = sat_add_spec(f, m);
    assert(den_arg == f + m);
    let den = fx_sqrt_spec(den_arg);
    lemma_sqrt_dominates(y, m, den_arg, den);
    let n = den_arg * f;
    lemma_isqrt_bounds(n as nat);
    assert(den == isqrt_spec(n as nat));
    assert(den * den <= n);
    vstd::arithmetic::div_mod::lemma_fundamental_div_mod(p, f);
    assert(n <= f * f + p) by (nonlinear_arith)
        requires
            n == den_arg * f,
            den_arg == f + m,
            m == p / f,
            p == f * (p / f) + p % f,
            0 <= p % f,
            f == 65536,
    ;
    // the deciding inequality: (f - 118)^2 * (f^2 + y^2) <= y^2 * f^2 for
    // y past the value the polynomial takes at 3.0
    assert(4279514724 * (4294967296 + p) <= p * 4294967296) by (nonlinear_arith)
        requires
            p == y * y,
            1727292 <= y,
    ;
    assert((65418 * den) * (65418 * den) <= (y * 65536) * (y * 65536)) by (nonlinear_arith)
        requires
            den * den <= 4294967296 + p,
            4279514724 * (4294967296 + p) <= p * 4294967296,
            p == y * y,
            0 <= den,
            0 <= y,
    ;
    assert(65418 * den <= y * 65536) by (nonlinear_arith)
        requires
            (65418 * den) * (65418 * den) <= (y * 65536) * (y * 65536),
            0 <= den,
            0 <= y,
    ;
    // carry the bounds through the final quotient
    vstd::arithmetic::div_mod::lemma_div_is_ordered(65418 * den, y * 65536, den);
    assert((65418 * den) / den == 65418) by (nonlinear_arith)
        requires
            0 < den,
    ;
    let q = (iabs(y) * f) / iabs(den);
    assert(iabs(y) == y && iabs(den) == den);
    assert(q == (y * 65536) / den);
    assert(65418 <= q);
    assert(y * 65536 <= den * 65536);
    vstd::arithmetic::div_mod::lemma_div_is_ordered(y * 65536, den * 65536, den);
    assert(den * 65536 / den == 65536) by (nonlinear_arith)
        requires
            0 < den,
    ;
    assert(q <= 65536);
    assert(erf_spec(x) == sat_i64(q));
    assert(erf_spec(x) == q);
}

/// A fixed quotient whose dividend magnitude is at most the divisor lies in
/// `[-FX_ONE, FX_ONE]`.
proof fn lemma_div_within_one(y: int, den: int, r: int)
    requires
        0 < den,
        iabs(y) <= den,
        r == fx_div_spec(y, den),
    ensures
        iabs(r) <= FX_ONE as int,
{
    let f = FX_ONE as int;
    let m = (iabs(y) * f) / den;
    assert(iabs(y) * f <= den * f) by (nonlinear_arith)
        requires
            iabs(y) <= den,
            f == 65536,
    ;
    vstd::arithmetic::div_mod::lemma_div_is_ordered(iabs(y) * f, den * f, den);
    assert(den * f / den == f) by (nonlinear_arith)
        requires
            0 < den,
            f == 65536,
    ;
    assert(0 <= iabs(y) * f) by (nonlinear_arith)
        requires
            0 <= iabs(y),
            f == 65536,
    ;
    vstd::arithmetic::div_mod::lemma_div_is_ordered(0, iabs(y) * f, den);
    assert(0 <= m <= f);
}

} // verus!
