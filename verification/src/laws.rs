//! Global laws of the engine, stated and proved over the same spec
//! functions that the methods' contracts use.

use vstd::prelude::*;
use crate::fx::{
    FX_ONE, FX_MAX, iabs, fx_mul_spec, fx_div_spec, sat_add_spec,
    lemma_fx_mul_nonneg, lemma_fx_mul_one, lemma_fx_mul_zero, lemma_fx_mul_sq,
};
use crate::approx::{gauss_spec, poly_spec, clamp_dom_spec, C_G1, C_G2};
use crate::scope::{
    GLOW_CAP, cap_spec, fade_seq_spec, splat_dot_spec, splat_line_spec, dot_term_spec,
    in_dot_box_spec, edge_spec, ceil_px, clip_rad_spec, lemma_row_major,
};

verus! {

/// Total energy of a glow buffer: the sum of all cells.
pub open spec fn glow_sum(s: Seq<i64>) -> int
    decreases s.len(),
{
    if s.len() == 0 {
        0
    } else {
        glow_sum(s.drop_last()) + s.last()
    }
}

/// A pointwise-larger buffer has at least as much total energy.
pub proof fn lemma_sum_pointwise_le(a: Seq<i64>, b: Seq<i64>)
    requires
        a.len() == b.len(),
        forall|k: int| 0 <= k < a.len() ==> #[trigger] a[k] <= b[k],
    ensures
        glow_sum(a) <= glow_sum(b),
    decreases a.len(),
{
    if a.len() > 0 {
        lemma_sum_pointwise_le(a.drop_last(), b.drop_last());
    }
}

/// If moreover one cell is strictly larger, so is the total energy.
pub proof fn lemma_sum_pointwise_lt(a: Seq<i64>, b: Seq<i64>, k0: int)
    requires
        a.len() == b.len(),
        forall|k: int| 0 <= k < a.len() ==> #[trigger] a[k] <= b[k],
        0 <= k0 < a.len(),
        a[k0] < b[k0],
    ensures
        glow_sum(a) < glow_sum(b),
    decreases a.len(),
{
    if k0 == a.len() - 1 {
        lemma_sum_pointwise_le(a.drop_last(), b.drop_last());
    } else {
        lemma_sum_pointwise_lt(a.drop_last(), b.drop_last(), k0);
    }
}

/// The Gaussian bump is a non-negative intensity, at most 1.0.
pub proof fn lemma_gauss_nonneg(x: int)
    ensures
        0 <= gauss_spec(x) <= FX_ONE as int,
{
    let y = poly_spec(C_G1 as int, C_G2 as int, clamp_dom_spec(x));
    lemma_fx_mul_sq(y);
    let den = sat_add_spec(FX_ONE as int, fx_mul_spec(y, y));
    assert(den >= FX_ONE as int);
    vstd::arithmetic::div_mod::lemma_div_of0(den);
    vstd::arithmetic::div_mod::lemma_div_is_ordered(0, 0x1_0000_0000, den);
    vstd::arithmetic::div_mod::lemma_div_is_ordered_by_denominator(
        0x1_0000_0000,
        FX_ONE as int,
        den,
    );
}

/// A dot's per-pixel energy deposit is non-negative whenever the amplitude
/// is.
pub proof fn lemma_dot_term_nonneg(x: int, y: int, r: int, amp: int, i: int, j: int)
    requires
        0 <= amp,
    ensures
        0 <= dot_term_spec(x, y, r, amp, i, j),
{
    let zx = gauss_spec(fx_div_spec(i * (FX_ONE as int) - x, r));
    let zy = gauss_spec(fx_div_spec(j * (FX_ONE as int) - y, r));
    lemma_gauss_nonneg(fx_div_spec(i * (FX_ONE as int) - x, r));
    lemma_gauss_nonneg(fx_div_spec(j * (FX_ONE as int) - y, r));
    lemma_fx_mul_nonneg(zy, amp);
    lemma_fx_mul_nonneg(zx, fx_mul_spec(zy, amp));
}

/// A dot splat with non-negative amplitude never drains energy: every cell
/// of the buffer stays at least as bright, and so does the total.
pub proof fn lemma_add_dot_keeps_energy(
    glow: Seq<i64>,
    w: int,
    h: int,
    x: int,
    y: int,
    r: int,
    amp: int,
)
    requires
        0 <= amp,
        forall|k: int| 0 <= k < glow.len() ==> 0 <= #[trigger] glow[k] <= GLOW_CAP,
    ensures
        glow_sum(glow) <= glow_sum(splat_dot_spec(glow, w, h, x, y, r, amp)),
{
    let out = splat_dot_spec(glow, w, h, x, y, r, amp);
    assert forall|k: int| 0 <= k < glow.len() implies #[trigger] glow[k] <= out[k] by {
        if in_dot_box_spec(k, w, x, y, r, h) {
            lemma_dot_term_nonneg(x, y, r, amp, k % w, k / w);
        }
    }
    lemma_sum_pointwise_le(glow, out);
}

/// The centre pixel of a dot whose centre sits exactly on an in-range
/// pixel, with a beam radius of at least one pixel, lies inside the clip
/// box, and the deposit there is exactly the amplitude.
pub proof fn lemma_center_term_is_amp(
    w: int,
    h: int,
    i0: int,
    j0: int,
    r: int,
    amp: int,
)
    requires
        0 <= i0 < w,
        0 <= j0 < h,
        FX_ONE as int <= r,
        r <= 0x1_0000_0000,
        iabs(amp) <= FX_MAX as int,
    ensures
        in_dot_box_spec(j0 * w + i0, w, i0 * 65536, j0 * 65536, r, h),
        dot_term_spec(i0 * 65536, j0 * 65536, r, amp, i0, j0) == amp,
{
    lemma_row_major(i0, j0, w, h);
    let k = j0 * w + i0;
    let rad = clip_rad_spec(r);
    assert(rad >= 163840) by (nonlinear_arith)
        requires
            r >= 65536,
            rad == (5 * r) / 2,
    ;
    assert(rad <= 0x2_8000_0000) by (nonlinear_arith)
        requires
            r <= 0x1_0000_0000,
            rad == (5 * r) / 2,
    ;
    lemma_edge_below(i0, rad, w);
    lemma_edge_above(i0, rad, w);
    lemma_edge_below(j0, rad, h);
    lemma_edge_above(j0, rad, h);
    // the deposit at the centre: both Gaussian arguments are zero
    assert(iabs(0) * 65536 == 0) by (nonlinear_arith);
    vstd::arithmetic::div_mod::lemma_div_of0(iabs(r));
    assert(fx_div_spec(i0 * 65536 - i0 * 65536, r) == 0);
    assert(fx_div_spec(j0 * 65536 - j0 * 65536, r) == 0);
    crate::approx::lemma_gauss_at_zero();
    lemma_fx_mul_one(amp);
    assert(fx_mul_spec(gauss_spec(0), amp) == fx_mul_spec(FX_ONE as int, amp));
    assert(fx_mul_spec(FX_ONE as int, amp) == fx_mul_spec(amp, FX_ONE as int)) by {
        assert(iabs(FX_ONE as int) * iabs(amp) == iabs(amp) * iabs(FX_ONE as int))
            by (nonlinear_arith);
    }
}

/// The low clip-box edge of a centred coordinate is at or below the pixel.
proof fn lemma_edge_below(i0: int, rad: int, n: int)
    requires
        0 <= i0 < n,
        163840 <= rad,
    ensures
        edge_spec(i0 * 65536 - rad, n) <= i0,
{
    let c = i0 * 65536 - rad;
    // ceil(c / F) <= i0 - 2
    assert(-c == (rad - i0 * 65536));
    assert((rad - i0 * 65536) / 65536 >= (163840 - i0 * 65536) / 65536) by {
        vstd::arithmetic::div_mod::lemma_div_is_ordered(
            163840 - i0 * 65536,
            rad - i0 * 65536,
            65536,
        );
    }
    assert((163840 - i0 * 65536) / 65536 == 2 - i0) by {
        vstd::arithmetic::div_mod::lemma_fundamental_div_mod_converse(
            163840 - i0 * 65536,
            65536,
            2 - i0,
            32768,
        );
        assert(163840 - i0 * 65536 == (2 - i0) * 65536 + 32768) by (nonlinear_arith);
    }
    assert(ceil_px(c) <= i0 - 2);
}

/// The high clip-box edge of a centred coordinate is above the pixel.
proof fn lemma_edge_above(i0: int, rad: int, n: int)
    requires
        0 <= i0 < n,
        163840 <= rad,
        rad <= 0x2_8000_0000,
    ensures
        i0 < edge_spec(i0 * 65536 + rad, n),
{
    let c = i0 * 65536 + rad;
    assert((-c) / 65536 <= -(i0 + 2)) by {
        vstd::arithmetic::div_mod::lemma_div_is_ordered(-c, -(i0 * 65536) - 163840, 65536);
        vstd::arithmetic::div_mod::lemma_fundamental_div_mod_converse(
            -(i0 * 65536) - 163840,
            65536,
            -(i0 + 3),
            32768,
        );
        assert(-(i0 * 65536) - 163840 == (-(i0 + 3)) * 65536 + 32768) by (nonlinear_arith);
    }
    assert(ceil_px(c) >= i0 + 2);
}

/// With the centre on an in-range pixel, a radius of at least one pixel, a
/// positive amplitude and headroom below the cell cap, a dot splat strictly
/// increases the total buffer energy.
pub proof fn lemma_add_dot_brightens(
    glow: Seq<i64>,
    w: int,
    h: int,
    i0: int,
    j0: int,
    r: int,
    amp: int,
)
    requires
        glow.len() == w * h,
        0 <= i0 < w,
        0 <= j0 < h,
        FX_ONE as int <= r,
        r <= 0x1_0000_0000,
        0 < amp <= FX_MAX as int,
        forall|k: int| 0 <= k < glow.len() ==> 0 <= #[trigger] glow[k] <= GLOW_CAP,
        glow[j0 * w + i0] + amp <= GLOW_CAP as int,
    ensures
        glow_sum(glow) < glow_sum(
            splat_dot_spec(glow, w, h, i0 * 65536, j0 * 65536, r, amp),
        ),
{
    let x = i0 * 65536;
    let y = j0 * 65536;
    let out = splat_dot_spec(glow, w, h, x, y, r, amp);
    lemma_row_major(i0, j0, w, h);
    let k0 = j0 * w + i0;
    lemma_center_term_is_amp(w, h, i0, j0, r, amp);
    assert(out[k0] == cap_spec(glow[k0] + amp) as i64);
    assert(glow[k0] < out[k0]);
    assert forall|k: int| 0 <= k < glow.len() implies #[trigger] glow[k] <= out[k] by {
        if in_dot_box_spec(k, w, x, y, r, h) {
            lemma_dot_term_nonneg(x, y, r, amp, k % w, k / w);
        }
    }
    lemma_sum_pointwise_lt(glow, out, k0);
}

/// The non-negative-intensity invariant survives every buffer operation:
/// a faded, dot-splatted or line-splatted cell is clamped into
/// `[0, GLOW_CAP]`, whatever the sign of the factor or of the deposit (a
/// line term may round a raw unit below zero; the cell floor keeps the
/// buffer dark rather than negative there).
#[verifier::rlimit(100)]
pub proof fn lemma_cells_stay_nonneg(
    glow: Seq<i64>,
    w: int,
    h: int,
    x0: int,
    y0: int,
    x1: int,
    y1: int,
    r: int,
    amp: int,
    factor: int,
    k: int,
)
    requires
        0 <= k < glow.len(),
        0 <= glow[k],
    ensures
        0 <= fade_seq_spec(glow, factor)[k],
        0 <= splat_dot_spec(glow, w, h, x0, y0, r, amp)[k],
        0 <= splat_line_spec(glow, w, h, x0, y0, x1, y1, r, amp)[k],
{
}

/// Fading by 1.0 leaves every cell of a well-bounded buffer unchanged.
pub proof fn lemma_fade_one(glow: Seq<i64>)
    requires
        forall|k: int| 0 <= k < glow.len() ==> 0 <= #[trigger] glow[k] <= GLOW_CAP,
    ensures
        fade_seq_spec(glow, FX_ONE as int) == glow,
{
    assert forall|k: int| 0 <= k < glow.len() implies
        fade_seq_spec(glow, FX_ONE as int)[k] == glow[k] by {
        lemma_fx_mul_one(glow[k] as int);
    }
    assert(fade_seq_spec(glow, FX_ONE as int) =~= glow);
}

/// Fading by 0 darkens the buffer completely.
pub proof fn lemma_fade_zero(glow: Seq<i64>)
    ensures
        fade_seq_spec(glow, 0) == Seq::new(glow.len(), |k: int| 0i64),
{
    assert forall|k: int| 0 <= k < glow.len() implies fade_seq_spec(glow, 0)[k] == 0i64 by {
        lemma_fx_mul_zero(glow[k] as int);
    }
    assert(fade_seq_spec(glow, 0) =~= Seq::new(glow.len(), |k: int| 0i64));
}

/// Rounding bound for composed fades on one non-negative cell: two fades
/// in a row agree with the single fade by the product factor up to a few
/// raw units (truncation loses less than one unit per multiply, amplified
/// by at most `g / FX_ONE` through the factor product).
proof fn lemma_fade_compose_cell(g: int, a: int, b: int) by (nonlinear_arith)
    requires
        0 <= g <= GLOW_CAP as int,
        0 <= a <= FX_ONE as int,
        0 <= b <= FX_ONE as int,
    ensures
        iabs(((g * a) / 65536 * b) / 65536 - (g * ((a * b) / 65536)) / 65536)
            <= g / 65536 + 2,
{
}

/// Fade is multiplicative up to fixed-point rounding: on a buffer of
/// non-negative cells, fading by `a` and then by `b` differs from fading
/// once by `a * b` by at most `cell / FX_ONE + 2` raw units per cell.
pub proof fn lemma_fade_compose(glow: Seq<i64>, a: int, b: int, k: int)
    requires
        0 <= a <= FX_ONE as int,
        0 <= b <= FX_ONE as int,
        0 <= k < glow.len(),
        0 <= glow[k] <= GLOW_CAP as int,
    ensures
        iabs(
            fade_seq_spec(fade_seq_spec(glow, a), b)[k] as int
                - fade_seq_spec(glow, fx_mul_spec(a, b))[k] as int,
        ) <= glow[k] / 65536 + 2,
{
    let g = glow[k] as int;
    lemma_fx_mul_nonneg(g, a);
    let e1 = fx_mul_spec(g, a);
    assert(g * a <= g * 65536) by (nonlinear_arith)
        requires
            0 <= g,
            a <= 65536,
    ;
    assert(g * 65536 / 65536 == g) by (nonlinear_arith)
        requires
            0 <= g,
    ;
    vstd::arithmetic::div_mod::lemma_div_is_ordered(g * a, g * 65536, 65536);
    assert(0 <= e1 <= g);
    assert(cap_spec(e1) == e1);
    lemma_fx_mul_nonneg(e1, b);
    let e2 = fx_mul_spec(e1, b);
    assert(e1 * b <= e1 * 65536) by (nonlinear_arith)
        requires
            0 <= e1,
            b <= 65536,
    ;
    assert(e1 * 65536 / 65536 == e1) by (nonlinear_arith)
        requires
            0 <= e1,
    ;
    vstd::arithmetic::div_mod::lemma_div_is_ordered(e1 * b, e1 * 65536, 65536);
    assert(0 <= e2 <= e1);
    assert(cap_spec(e2) == e2);
    lemma_fx_mul_nonneg(a, b);
    let ab = fx_mul_spec(a, b);
    assert(a * b <= a * 65536) by (nonlinear_arith)
        requires
            0 <= a,
            b <= 65536,
    ;
    assert(a * 65536 / 65536 == a) by (nonlinear_arith)
        requires
            0 <= a,
    ;
    vstd::arithmetic::div_mod::lemma_div_is_ordered(a * b, a * 65536, 65536);
    assert(0 <= ab <= a);
    lemma_fx_mul_nonneg(g, ab);
    let e3 = fx_mul_spec(g, ab);
    assert(g * ab <= g * 65536) by (nonlinear_arith)
        requires
            0 <= g,
            ab <= 65536,
    ;
    vstd::arithmetic::div_mod::lemma_div_is_ordered(g * ab, g * 65536, 65536);
    assert(0 <= e3 <= g);
    assert(cap_spec(e3) == e3);
    lemma_fade_compose_cell(g, a, b);
    assert(e1 == (g * a) / 65536);
    assert(e2 == ((g * a) / 65536 * b) / 65536);
    assert(ab == (a * b) / 65536);
    assert(e3 == (g * ((a * b) / 65536)) / 65536);
}

} // verus!
