//! The oscilloscope trace engine: glow buffer, splatting, sweep driver.
//!
//! Coordinates, radii, amplitudes and glow intensities are Q16.16 fixed
//! point (see `fx`).  The glow buffer is a `width * height` row-major grid
//! of non-negative intensity accumulators, each held within `[0, GLOW_CAP]`;
//! splats add
//! energy to the cells inside a clip box around the drawn shape, and `fade`
//! decays every cell multiplicatively.

use vstd::prelude::*;
use crate::fx::{
    FX_ONE, iabs, fx_mul_spec, fx_div_spec, sat_add_spec, sat_sub_spec, fx_sqrt_spec,
    fx_mul, fx_div, sat_add, sat_sub, fx_sqrt,
    lemma_fx_mul_bound, lemma_fx_mul_nonneg, lemma_fx_mul_sq, lemma_fx_mul_zero,
    lemma_fx_mul_neg_left, lemma_fx_mul_mono_pair, lemma_fx_div_bound, lemma_isqrt_ge,
};
use crate::approx::{gauss_spec, gauss_approx, erf_spec, erf_approx};

verus! {

/// Largest buffer dimension, in pixels.
pub const DIM_MAX: usize = 16384;

/// Glow cells are clamped into `[0, GLOW_CAP]` (up to 32768.0 in Q16.16):
/// the buffer holds non-negative intensities, and a deposit that would
/// round below zero is floored at dark.
pub const GLOW_CAP: i64 = 0x8000_0000;

/// Largest coordinate magnitude a splat accepts (16384.0, one full
/// maximal buffer width beyond either edge).
pub const COORD_LIM: i64 = 0x4000_0000;

/// Largest beam radius (64.0 pixels).
pub const RAD_MAX: i64 = 4194304;

/// Largest splat amplitude magnitude (64.0).
pub const AMP_MAX: i64 = 4194304;

/// Clamp an intensity into the glow cell range.
pub open spec fn cap_spec(v: int) -> int {
    if v > GLOW_CAP { GLOW_CAP as int } else if v < 0 { 0 } else { v }
}

fn cap_i64(v: i64) -> (r: i64)
    ensures
        r == cap_spec(v as int),
{
    if v > GLOW_CAP {
        GLOW_CAP
    } else if v < 0 {
        0
    } else {
        v
    }
}

/// Ceiling of `c / FX_ONE`: the first pixel column or row at or past the
/// fixed-point coordinate `c`.
pub open spec fn ceil_px(c: int) -> int {
    -((-c) / (FX_ONE as int))
}

/// A clip-box edge: the pixel index for coordinate `c`, clamped into
/// `[0, n]`.
pub open spec fn edge_spec(c: int, n: int) -> int {
    let e = ceil_px(c);
    if e <= 0 { 0 } else if e >= n { n } else { e }
}

/// The clip radius: `CLIP_FACTOR (= 2.5)` times the beam radius.
pub open spec fn clip_rad_spec(r: int) -> int {
    (5 * r) / 2
}

proof fn lemma_ceil_px_pos(d: int)
    requires
        0 < d,
    ensures
        ceil_px(d) == (d + 65535) / 65536,
        0 < ceil_px(d),
{
    let f = 65536;
    let q = d / f;
    let r = d % f;
    vstd::arithmetic::div_mod::lemma_fundamental_div_mod(d, f);
    assert(d == q * f + r) by (nonlinear_arith)
        requires
            d == f * q + r,
    ;
    if r == 0 {
        vstd::arithmetic::div_mod::lemma_fundamental_div_mod_converse(-d, f, -q, 0);
        vstd::arithmetic::div_mod::lemma_fundamental_div_mod_converse(d + 65535, f, q, 65535);
        assert(-d == (-q) * f + 0) by (nonlinear_arith)
            requires
                d == q * f,
        ;
        assert(d + 65535 == q * f + 65535);
        assert(0 < q) by (nonlinear_arith)
            requires
                d == q * f,
                0 < d,
                f == 65536,
        ;
    } else {
        vstd::arithmetic::div_mod::lemma_fundamental_div_mod_converse(-d, f, -q - 1, f - r);
        vstd::arithmetic::div_mod::lemma_fundamental_div_mod_converse(d + 65535, f, q + 1, r - 1);
        assert(-d == (-q - 1) * f + (f - r)) by (nonlinear_arith)
            requires
                d == q * f + r,
        ;
        assert(d + 65535 == (q + 1) * f + (r - 1)) by (nonlinear_arith)
            requires
                d == q * f + r,
                f == 65536,
        ;
        assert(0 <= q) by (nonlinear_arith)
            requires
                d == q * f + r,
                0 < d,
                0 < r < f,
                f == 65536,
        ;
    }
}

/// Compute a clamped clip-box edge for coordinate `c`.
fn edge_px(c: i64, n: usize) -> (r: usize)
    requires
        iabs(c as int) <= 0x6000_0000,
        n <= DIM_MAX,
    ensures
        r as int == edge_spec(c as int, n as int),
        r <= n,
{
    if c <= 0 {
        proof {
            vstd::arithmetic::div_mod::lemma_div_of0(65536);
            if c < 0 {
                vstd::arithmetic::div_mod::lemma_div_is_ordered(0, -(c as int), 65536);
            }
        }
        0
    } else {
        proof {
            lemma_ceil_px_pos(c as int);
        }
        let q: u64 = ((c as u64) + 65535) / 65536;
        if q >= n as u64 {
            n
        } else {
            q as usize
        }
    }
}

/// The energy a dot splat deposits at pixel `(i, j)`: the separable product
/// of the Gaussian profiles along each axis, scaled by the amplitude.
pub open spec fn dot_term_spec(x: int, y: int, r: int, amp: int, i: int, j: int) -> int {
    let zx = gauss_spec(fx_div_spec(i * (FX_ONE as int) - x, r));
    let zy_amp = fx_mul_spec(gauss_spec(fx_div_spec(j * (FX_ONE as int) - y, r)), amp);
    fx_mul_spec(zx, zy_amp)
}

/// Whether row-major cell `k` lies inside the dot's clip box.
pub open spec fn in_dot_box_spec(k: int, w: int, x: int, y: int, r: int, h: int) -> bool {
    let i = k % w;
    let j = k / w;
    let rad = clip_rad_spec(r);
    edge_spec(x - rad, w) <= i < edge_spec(x + rad, w)
        && edge_spec(y - rad, h) <= j < edge_spec(y + rad, h)
}

/// The whole glow buffer after a dot splat: cells inside the clip box gain
/// the dot term (clamped into the cell range), all others are untouched.
pub open spec fn splat_dot_spec(
    glow: Seq<i64>,
    w: int,
    h: int,
    x: int,
    y: int,
    r: int,
    amp: int,
) -> Seq<i64> {
    Seq::new(
        glow.len(),
        |k: int|
            if in_dot_box_spec(k, w, x, y, r, h) {
                cap_spec(glow[k] + dot_term_spec(x, y, r, amp, k % w, k / w)) as i64
            } else {
                glow[k]
            },
    )
}

/// A persistent-glow oscilloscope display.
///
/// Owns a `width * height` glow buffer plus the sweep state that turns an
/// ordered sample stream into screen positions.
pub struct Scope {
    pub width: usize,
    pub height: usize,
    pub glow: Vec<i64>,
    /// Fade time constant, in samples (Q16.16).
    pub tc: i64,
    /// Horizontal advance per sample, as a fraction of the width (Q16.16).
    pub sweep: i64,
    /// Current sweep position, a fraction in `[0, 1]` (Q16.16).
    pub horiz: i64,
    /// Vertical scale: 1.0 maps amplitude 1.0 to half the height (Q16.16).
    pub gain: i64,
    /// Last plotted point, if the next sample should connect to it.
    pub xylast: Option<(i64, i64)>,
}

impl Scope {
    /// Structural invariant: dimensions are positive and bounded, the buffer
    /// has exactly one cell per pixel, every cell is within the glow range,
    /// and the sweep state is a valid fraction.
    pub open spec fn wf(self) -> bool {
        &&& 1 <= self.width <= DIM_MAX
        &&& 1 <= self.height <= DIM_MAX
        &&& self.glow@.len() == self.width * self.height
        &&& forall|k: int|
            0 <= k < self.glow@.len() ==> 0 <= #[trigger] self.glow@[k] <= GLOW_CAP
        &&& 1 <= self.tc
        &&& 1 <= self.sweep <= FX_ONE
        &&& 0 <= self.horiz <= FX_ONE
        &&& 0 <= self.gain <= 262144
        &&& match self.xylast {
            Some(p) => iabs(p.0 as int) <= COORD_LIM as int && iabs(p.1 as int) <= COORD_LIM as int,
            None => true,
        }
    }

    pub open spec fn spec_width(self) -> int {
        self.width as int
    }

    pub open spec fn spec_height(self) -> int {
        self.height as int
    }

    pub open spec fn spec_glow(self) -> Seq<i64> {
        self.glow@
    }

    pub open spec fn spec_tc(self) -> int {
        self.tc as int
    }

    pub open spec fn spec_sweep(self) -> int {
        self.sweep as int
    }

    pub open spec fn spec_horiz(self) -> int {
        self.horiz as int
    }

    pub open spec fn spec_gain(self) -> int {
        self.gain as int
    }

    pub open spec fn spec_xylast(self) -> Option<(i64, i64)> {
        self.xylast
    }

    /// All fields other than the glow buffer, the sweep position and the
    /// last point are unchanged.
    pub open spec fn same_config(self, other: Scope) -> bool {
        &&& self.width == other.width
        &&& self.height == other.height
        &&& self.tc == other.tc
        &&& self.sweep == other.sweep
        &&& self.gain == other.gain
    }

    /// Create a scope with an all-dark buffer, the sweep at the left edge,
    /// unit gain, a fade time constant of 1000 samples and a sweep rate that
    /// crosses the screen in about 1000 samples.
    pub fn new(width: usize, height: usize) -> (s: Scope)
        requires
            1 <= width <= DIM_MAX,
            1 <= height <= DIM_MAX,
        ensures
            s.wf(),
            s.spec_width() == width,
            s.spec_height() == height,
            s.spec_glow() == Seq::new((width * height) as nat, |k: int| 0i64),
            s.spec_tc() == 65536000,
            s.spec_sweep() == 66,
            s.spec_horiz() == 0,
            s.spec_gain() == FX_ONE as int,
            s.spec_xylast() is None,
    {
        proof {
            lemma_dim_product(width as int, height as int);
        }
        let n = width * height;
        let mut glow: Vec<i64> = Vec::new();
        let mut k: usize = 0;
        while k < n
            invariant
                k <= n,
                glow@.len() == k,
                glow@ =~= Seq::new(k as nat, |q: int| 0i64),
            decreases n - k,
        {
            glow.push(0);
            k = k + 1;
        }
        proof {
            assert(glow@ =~= Seq::new(n as nat, |q: int| 0i64));
        }
        Scope {
            width,
            height,
            glow,
            tc: 65536000,
            sweep: 66,
            horiz: 0,
            gain: FX_ONE,
            xylast: None,
        }
    }

    pub fn width(&self) -> (w: usize)
        ensures
            w == self.spec_width(),
    {
        self.width
    }

    pub fn height(&self) -> (h: usize)
        ensures
            h == self.spec_height(),
    {
        self.height
    }

    pub fn sweep_rate(&self) -> (v: i64)
        ensures
            v == self.spec_sweep(),
    {
        self.sweep
    }

    pub fn horiz_pos(&self) -> (v: i64)
        ensures
            v == self.spec_horiz(),
    {
        self.horiz
    }

    pub fn last_point(&self) -> (p: Option<(i64, i64)>)
        ensures
            p == self.spec_xylast(),
    {
        self.xylast
    }

    /// Read one glow cell.
    pub fn glow_value(&self, x: usize, y: usize) -> (g: i64)
        requires
            self.wf(),
            x < self.spec_width(),
            y < self.spec_height(),
        ensures
            g == self.spec_glow()[y * self.spec_width() + x],
    {
        proof {
            lemma_row_major(x as int, y as int, self.width as int, self.height as int);
            lemma_dim_product(self.width as int, self.height as int);
        }
        self.glow[y * self.width + x]
    }

    /// Multiply every glow cell by `factor` (Q16.16): `fade(FX_ONE)` leaves
    /// the buffer unchanged, `fade(0)` darkens it completely.
    pub fn fade(&mut self, factor: i64)
        requires
            old(self).wf(),
        ensures
            final(self).wf(),
            old(self).same_config(*final(self)),
            final(self).spec_horiz() == old(self).spec_horiz(),
            final(self).spec_xylast() == old(self).spec_xylast(),
            final(self).spec_glow() == fade_seq_spec(old(self).spec_glow(), factor as int),
    {
        let ghost g0 = self.glow@;
        let n = self.glow.len();
        let mut k: usize = 0;
        while k < n
            invariant
                k <= n,
                n == g0.len(),
                self.glow@.len() == n,
                self.width == old(self).width,
                self.height == old(self).height,
                self.tc == old(self).tc,
                self.sweep == old(self).sweep,
                self.gain == old(self).gain,
                self.horiz == old(self).horiz,
                self.xylast == old(self).xylast,
                old(self).wf(),
                forall|q: int| k <= q < n ==> self.glow@[q] == g0[q],
                forall|q: int|
                    0 <= q < k ==> self.glow@[q] == cap_spec(
                        fx_mul_spec(g0[q] as int, factor as int),
                    ) as i64,
            decreases n - k,
        {
            let v = cap_i64(fx_mul(self.glow[k], factor));
            self.glow.set(k, v);
            k = k + 1;
        }
        proof {
            assert(self.glow@ =~= fade_seq_spec(g0, factor as int));
        }
    }
}

impl Scope {
    /// Add a dot: a separable 2D Gaussian bump centred at `(x, y)` with
    /// beam radius `r` and amplitude `amp`.  Only cells within the clip box
    /// (2.5 radii around the centre in both axes, clamped to the buffer)
    /// are touched; each gains exactly the dot term for its pixel.  A box
    /// entirely outside the buffer is empty, so the call is a no-op then.
    pub fn add_dot(&mut self, x: i64, y: i64, r: i64, amp: i64)
        requires
            old(self).wf(),
            0 < r <= RAD_MAX as int,
            iabs(x as int) <= COORD_LIM as int,
            iabs(y as int) <= COORD_LIM as int,
            iabs(amp as int) <= AMP_MAX as int,
        ensures
            final(self).wf(),
            old(self).same_config(*final(self)),
            final(self).spec_horiz() == old(self).spec_horiz(),
            final(self).spec_xylast() == old(self).spec_xylast(),
            final(self).spec_glow() == splat_dot_spec(
                old(self).spec_glow(),
                old(self).spec_width(),
                old(self).spec_height(),
                x as int,
                y as int,
                r as int,
                amp as int,
            ),
    {
        let ghost g0 = self.glow@;
        let ghost w = self.width as int;
        let ghost h = self.height as int;
        let rad = ((5 * (r as u64)) / 2) as i64;
        proof {
            assert(rad as int == clip_rad_spec(r as int));
            lemma_dim_product(w, h);
        }
        let i0 = edge_px(x - rad, self.width);
        let i1 = edge_px(x + rad, self.width);
        let j0 = edge_px(y - rad, self.height);
        let j1 = edge_px(y + rad, self.height);
        let mut j = j0;
        while j < j1
            invariant
                old(self).wf(),
                self.width == old(self).width,
                self.height == old(self).height,
                self.tc == old(self).tc,
                self.sweep == old(self).sweep,
                self.gain == old(self).gain,
                self.horiz == old(self).horiz,
                self.xylast == old(self).xylast,
                w == self.width as int,
                h == self.height as int,
                g0 == old(self).glow@,
                g0.len() == w * h,
                w * h <= 0x1000_0000,
                self.glow@.len() == g0.len(),
                0 < r <= RAD_MAX as int,
                iabs(x as int) <= COORD_LIM as int,
                iabs(y as int) <= COORD_LIM as int,
                iabs(amp as int) <= AMP_MAX as int,
                rad as int == clip_rad_spec(r as int),
                0 <= rad <= 10485760,
                i0 as int == edge_spec(x as int - rad, w),
                i1 as int == edge_spec(x as int + rad, w),
                j0 as int == edge_spec(y as int - rad, h),
                j1 as int == edge_spec(y as int + rad, h),
                i0 <= self.width,
                i1 <= self.width,
                j0 as int <= j as int <= j1 as int,
                j1 <= self.height,
                forall|k: int|
                    0 <= k < g0.len() ==> #[trigger] self.glow@[k] == (
                        if in_dot_box_spec(k, w, x as int, y as int, r as int, h) && k / w < j as int {
                            cap_spec(
                                g0[k] + dot_term_spec(x as int, y as int, r as int, amp as int, k % w, k / w),
                            ) as i64
                        } else {
                            g0[k]
                        }),
            decreases j1 as int - j as int,
        {
            let jy = (j as i64) * 65536 - y;
            let zy = gauss_approx(fx_div(jy, r));
            let zy_amp = fx_mul(zy, amp);
            proof {
                lemma_fx_mul_bound(zy as int, amp as int, FX_ONE as int, AMP_MAX as int);
                assert((65536 * 4194304) / 65536 == 4194304) by (nonlinear_arith);
            }
            let mut i = i0;
            while i < i1
                invariant
                    old(self).wf(),
                    self.width == old(self).width,
                    self.height == old(self).height,
                    self.tc == old(self).tc,
                    self.sweep == old(self).sweep,
                    self.gain == old(self).gain,
                    self.horiz == old(self).horiz,
                    self.xylast == old(self).xylast,
                    w == self.width as int,
                    h == self.height as int,
                    g0 == old(self).glow@,
                    g0.len() == w * h,
                    w * h <= 0x1000_0000,
                    self.glow@.len() == g0.len(),
                    0 < r <= RAD_MAX as int,
                    iabs(x as int) <= COORD_LIM as int,
                    iabs(y as int) <= COORD_LIM as int,
                    iabs(amp as int) <= AMP_MAX as int,
                    rad as int == clip_rad_spec(r as int),
                    0 <= rad <= 10485760,
                    i0 as int == edge_spec(x as int - rad, w),
                    i1 as int == edge_spec(x as int + rad, w),
                    j0 as int == edge_spec(y as int - rad, h),
                    j1 as int == edge_spec(y as int + rad, h),
                    i0 as int <= i as int <= i1 as int,
                    i1 <= self.width,
                    j0 as int <= j as int,
                    (j as int) < j1 as int,
                    j1 <= self.height,
                    zy_amp as int == fx_mul_spec(
                        gauss_spec(fx_div_spec(j as int * (FX_ONE as int) - y as int, r as int)),
                        amp as int,
                    ),
                    iabs(zy_amp as int) <= 4194304,
                    forall|k: int|
                        0 <= k < g0.len() ==> #[trigger] self.glow@[k] == (
                            if in_dot_box_spec(k, w, x as int, y as int, r as int, h)
                                && (k / w < j as int || (k / w == j as int && k % w < i as int)) {
                                cap_spec(
                                    g0[k] + dot_term_spec(x as int, y as int, r as int, amp as int, k % w, k / w),
                                ) as i64
                            } else {
                                g0[k]
                            }),
                decreases i1 as int - i as int,
            {
                proof {
                    lemma_row_major(i as int, j as int, w, h);
                }
                let idx = j * self.width + i;
                let zx = gauss_approx(fx_div((i as i64) * 65536 - x, r));
                let z = fx_mul(zx, zy_amp);
                proof {
                    lemma_fx_mul_bound(zx as int, zy_amp as int, FX_ONE as int, 4194304);
                    assert((65536 * 4194304) / 65536 == 4194304) by (nonlinear_arith);
                    assert(0 <= self.glow@[idx as int] <= GLOW_CAP);
                }
                let v = cap_i64(self.glow[idx] + z);
                self.glow.set(idx, v);
                proof {
                    assert(idx as int % w == i as int && idx as int / w == j as int);
                    assert(in_dot_box_spec(idx as int, w, x as int, y as int, r as int, h));
                    assert(v as int == cap_spec(
                        g0[idx as int] + dot_term_spec(
                            x as int,
                            y as int,
                            r as int,
                            amp as int,
                            i as int,
                            j as int,
                        ),
                    ));
                    assert forall|k: int|
                        0 <= k < g0.len() && #[trigger] (k % w) == i as int && k / w == j as int
                            implies k == idx as int by {
                        vstd::arithmetic::div_mod::lemma_fundamental_div_mod(k, w);
                        assert(w * (j as int) == (j as int) * w) by (nonlinear_arith);
                    }
                }
                i = i + 1;
            }
            j = j + 1;
        }
        proof {
            assert(self.glow@ =~= splat_dot_spec(g0, w, h, x as int, y as int, r as int, amp as int));
        }
    }
}

/// `2 / sqrt(pi)` in Q16.16: the scale between the tangential coordinate
/// and the error-function argument.
pub const USCALE: i64 = 73949;

/// Halve a fixed value, rounding toward zero.
pub open spec fn half_spec(a: int) -> int {
    if a >= 0 { a / 2 } else { -((-a) / 2) }
}

fn half_i64(a: i64) -> (r: i64)
    requires
        iabs(a as int) <= 0x7fff_ffff_ffff_ffff,
    ensures
        r == half_spec(a as int),
{
    if a >= 0 {
        ((a as u64) / 2) as i64
    } else {
        -(((-(a as i128)) as u64 / 2) as i64)
    }
}

/// The squared segment length in Q16.16.
pub open spec fn line_len2_spec(x0: int, y0: int, x1: int, y1: int) -> int {
    sat_add_spec(fx_mul_spec(x1 - x0, x1 - x0), fx_mul_spec(y1 - y0, y1 - y0))
}

/// The rotated-frame coefficients of a line splat: `(u, v)` coordinates are
/// affine in the pixel position, `v` measuring radius-normalised distance
/// across the beam and `u` the tangential position scaled for the
/// Gaussian-erf decomposition.
pub struct LineFrame {
    pub vx: i64,
    pub vy: i64,
    pub ux: i64,
    pub uy: i64,
    pub u0: i64,
    pub v0: i64,
    pub ustep: i64,
    pub ampp: i64,
}

/// The frame derived from the endpoints, radius and amplitude.
pub open spec fn frame_spec(x0: int, y0: int, x1: int, y1: int, r: int, amp: int) -> LineFrame {
    let dx = x1 - x0;
    let dy = y1 - y0;
    let len2 = line_len2_spec(x0, y0, x1, y1);
    let slen = fx_sqrt_spec(len2);
    let denom = fx_mul_spec(r, slen);
    let vx = fx_div_spec(-dy, denom);
    let vy = fx_div_spec(dx, denom);
    let ux = fx_mul_spec(vy, USCALE as int);
    let uy = -fx_mul_spec(vx, USCALE as int);
    LineFrame {
        vx: vx as i64,
        vy: vy as i64,
        ux: ux as i64,
        uy: uy as i64,
        u0: sat_add_spec(-fx_mul_spec(x0, ux), -fx_mul_spec(y0, uy)) as i64,
        v0: sat_add_spec(-fx_mul_spec(x0, vx), -fx_mul_spec(y0, vy)) as i64,
        ustep: sat_add_spec(fx_mul_spec(dx, ux), fx_mul_spec(dy, uy)) as i64,
        ampp: fx_div_spec(fx_mul_spec(fx_div_spec(r, USCALE as int), amp), slen) as i64,
    }
}

/// The energy a line splat deposits at pixel `(i, j)`: a Gaussian profile
/// across the beam times the analytic integral of the Gaussian over the
/// swept tangential interval.
pub open spec fn line_term_spec(
    x0: int,
    y0: int,
    x1: int,
    y1: int,
    r: int,
    amp: int,
    i: int,
    j: int,
) -> int {
    let fr = frame_spec(x0, y0, x1, y1, r, amp);
    let u = sat_add_spec(
        sat_add_spec(fx_mul_spec(fr.ux as int, i * 65536), fx_mul_spec(fr.uy as int, j * 65536)),
        fr.u0 as int,
    );
    let v = sat_add_spec(
        sat_add_spec(fx_mul_spec(fr.vx as int, i * 65536), fx_mul_spec(fr.vy as int, j * 65536)),
        fr.v0 as int,
    );
    let ed = erf_spec(u) - erf_spec(sat_sub_spec(u, fr.ustep as int));
    fx_mul_spec(fx_mul_spec(fr.ampp as int, gauss_spec(v)), ed)
}

/// Whether row-major cell `k` lies inside the line's clip box: the
/// segment's bounding box expanded by the clip radius, clamped.
pub open spec fn in_line_box_spec(
    k: int,
    w: int,
    h: int,
    x0: int,
    y0: int,
    x1: int,
    y1: int,
    r: int,
) -> bool {
    let i = k % w;
    let j = k / w;
    let rad = clip_rad_spec(r);
    let xlo = if x0 < x1 { x0 } else { x1 };
    let xhi = if x0 < x1 { x1 } else { x0 };
    let ylo = if y0 < y1 { y0 } else { y1 };
    let yhi = if y0 < y1 { y1 } else { y0 };
    edge_spec(xlo - rad, w) <= i < edge_spec(xhi + rad, w)
        && edge_spec(ylo - rad, h) <= j < edge_spec(yhi + rad, h)
}

/// The whole glow buffer after a line splat.  A sub-pixel segment (squared
/// length below 1.0) falls back to a single dot at the midpoint; otherwise
/// every cell in the clip box gains the line term for its pixel.
pub open spec fn splat_line_spec(
    glow: Seq<i64>,
    w: int,
    h: int,
    x0: int,
    y0: int,
    x1: int,
    y1: int,
    r: int,
    amp: int,
) -> Seq<i64> {
    if line_len2_spec(x0, y0, x1, y1) < FX_ONE {
        splat_dot_spec(glow, w, h, half_spec(x0 + x1), half_spec(y0 + y1), r, amp)
    } else {
        Seq::new(
            glow.len(),
            |k: int|
                if in_line_box_spec(k, w, h, x0, y0, x1, y1, r) {
                    cap_spec(glow[k] + line_term_spec(x0, y0, x1, y1, r, amp, k % w, k / w)) as i64
                } else {
                    glow[k]
                },
        )
    }
}

/// A degenerate segment (both endpoints equal) splats exactly as a single
/// dot of the same amplitude at that point.
pub proof fn lemma_degenerate_line_is_dot(
    glow: Seq<i64>,
    w: int,
    h: int,
    x: int,
    y: int,
    r: int,
    amp: int,
)
    ensures
        splat_line_spec(glow, w, h, x, y, x, y, r, amp) == splat_dot_spec(glow, w, h, x, y, r, amp),
{
    lemma_fx_mul_zero(0);
    assert(fx_mul_spec(0, 0) == 0);
    assert(line_len2_spec(x, y, x, y) == 0);
    assert(half_spec(x + x) == x) by {
        if x + x >= 0 {
            assert((x + x) / 2 == x);
        } else {
            assert((-(x + x)) / 2 == -x);
        }
    }
    assert(half_spec(y + y) == y);
}

/// Compute the rotated frame for a non-degenerate segment.
fn line_frame(x0: i64, y0: i64, x1: i64, y1: i64, r: i64, amp: i64) -> (fr: LineFrame)
    requires
        0 < r <= RAD_MAX as int,
        iabs(x0 as int) <= COORD_LIM as int,
        iabs(y0 as int) <= COORD_LIM as int,
        iabs(x1 as int) <= COORD_LIM as int,
        iabs(y1 as int) <= COORD_LIM as int,
        iabs(amp as int) <= AMP_MAX as int,
        line_len2_spec(x0 as int, y0 as int, x1 as int, y1 as int) >= FX_ONE as int,
    ensures
        fr == frame_spec(x0 as int, y0 as int, x1 as int, y1 as int, r as int, amp as int),
        iabs(fr.ampp as int) <= 268435456,
{
    let dx = x1 - x0;
    let dy = y1 - y0;
    let len2 = sat_add(fx_mul(dx, dx), fx_mul(dy, dy));
    proof {
        lemma_fx_mul_sq(dx as int);
        lemma_fx_mul_sq(dy as int);
        assert(len2 >= FX_ONE);
    }
    let slen = fx_sqrt(len2);
    proof {
        assert((65536 * 65536) as nat <= (len2 * FX_ONE) as nat) by (nonlinear_arith)
            requires
                len2 >= 65536,
                FX_ONE == 65536,
        ;
        lemma_isqrt_ge((len2 * FX_ONE) as nat, 65536nat);
        assert(slen >= 65536);
    }
    let denom = fx_mul(r, slen);
    proof {
        lemma_fx_mul_mono_pair(1, r as int, 65536, slen as int);
        assert(fx_mul_spec(1, 65536) == 1) by (nonlinear_arith);
        assert(denom >= 1);
    }
    let vx = fx_div(-dy, denom);
    let vy = fx_div(dx, denom);
    let ux = fx_mul(vy, USCALE);
    let uy = -fx_mul(vx, USCALE);
    let u0 = sat_add(-fx_mul(x0, ux), -fx_mul(y0, uy));
    let v0 = sat_add(-fx_mul(x0, vx), -fx_mul(y0, vy));
    let ustep = sat_add(fx_mul(dx, ux), fx_mul(dy, uy));
    let ra = fx_div(r, USCALE);
    proof {
        lemma_fx_div_bound(r as int, USCALE as int, RAD_MAX as int, USCALE as int);
        assert((4194304 * 65536) / 73949 == 3717128) by (nonlinear_arith);
    }
    let t2 = fx_mul(ra, amp);
    proof {
        lemma_fx_mul_bound(ra as int, amp as int, 3717128, AMP_MAX as int);
        assert((3717128 * 4194304) / 65536 == 237896192) by (nonlinear_arith);
    }
    let ampp = fx_div(t2, slen);
    proof {
        lemma_fx_div_bound(t2 as int, slen as int, 237896192, 65536);
        assert((237896192 * 65536) / 65536 == 237896192) by (nonlinear_arith);
    }
    LineFrame { vx, vy, ux, uy, u0, v0, ustep, ampp }
}

impl Scope {
    /// Add the energy of a Gaussian-width beam swept along the segment from
    /// `(x0, y0)` to `(x1, y1)`, producing a smooth capsule-shaped glow.  A
    /// sub-pixel segment falls back to a single dot at the midpoint, which
    /// avoids the numerical blow-up of the frame for near-zero lengths.
    pub fn add_line(&mut self, x0: i64, y0: i64, x1: i64, y1: i64, r: i64, amp: i64)
        requires
            old(self).wf(),
            0 < r <= RAD_MAX as int,
            iabs(x0 as int) <= COORD_LIM as int,
            iabs(y0 as int) <= COORD_LIM as int,
            iabs(x1 as int) <= COORD_LIM as int,
            iabs(y1 as int) <= COORD_LIM as int,
            iabs(amp as int) <= AMP_MAX as int,
        ensures
            final(self).wf(),
            old(self).same_config(*final(self)),
            final(self).spec_horiz() == old(self).spec_horiz(),
            final(self).spec_xylast() == old(self).spec_xylast(),
            final(self).spec_glow() == splat_line_spec(
                old(self).spec_glow(),
                old(self).spec_width(),
                old(self).spec_height(),
                x0 as int,
                y0 as int,
                x1 as int,
                y1 as int,
                r as int,
                amp as int,
            ),
    {
        let ghost g0 = self.glow@;
        let ghost w = self.width as int;
        let ghost h = self.height as int;
        let dx = x1 - x0;
        let dy = y1 - y0;
        let len2 = sat_add(fx_mul(dx, dx), fx_mul(dy, dy));
        if len2 < FX_ONE {
            let mx = half_i64(x0 + x1);
            let my = half_i64(y0 + y1);
            self.add_dot(mx, my, r, amp);
            return;
        }
        let fr = line_frame(x0, y0, x1, y1, r, amp);
        let rad = ((5 * (r as u64)) / 2) as i64;
        proof {
            assert(rad as int == clip_rad_spec(r as int));
            lemma_dim_product(w, h);
        }
        let xlo = if x0 < x1 { x0 } else { x1 };
        let xhi = if x0 < x1 { x1 } else { x0 };
        let ylo = if y0 < y1 { y0 } else { y1 };
        let yhi = if y0 < y1 { y1 } else { y0 };
        let i0 = edge_px(xlo - rad, self.width);
        let i1 = edge_px(xhi + rad, self.width);
        let j0 = edge_px(ylo - rad, self.height);
        let j1 = edge_px(yhi + rad, self.height);
        let mut j = j0;
        while j < j1
            invariant
                old(self).wf(),
                self.width == old(self).width,
                self.height == old(self).height,
                self.tc == old(self).tc,
                self.sweep == old(self).sweep,
                self.gain == old(self).gain,
                self.horiz == old(self).horiz,
                self.xylast == old(self).xylast,
                w == self.width as int,
                h == self.height as int,
                g0 == old(self).glow@,
                g0.len() == w * h,
                w * h <= 0x1000_0000,
                self.glow@.len() == g0.len(),
                0 < r <= RAD_MAX as int,
                iabs(x0 as int) <= COORD_LIM as int,
                iabs(y0 as int) <= COORD_LIM as int,
                iabs(x1 as int) <= COORD_LIM as int,
                iabs(y1 as int) <= COORD_LIM as int,
                iabs(amp as int) <= AMP_MAX as int,
                line_len2_spec(x0 as int, y0 as int, x1 as int, y1 as int) >= FX_ONE as int,
                fr == frame_spec(x0 as int, y0 as int, x1 as int, y1 as int, r as int, amp as int),
                iabs(fr.ampp as int) <= 268435456,
                rad as int == clip_rad_spec(r as int),
                0 <= rad <= 10485760,
                i0 as int == edge_spec((if x0 < x1 { x0 } else { x1 }) as int - rad, w),
                i1 as int == edge_spec((if x0 < x1 { x1 } else { x0 }) as int + rad, w),
                j0 as int == edge_spec((if y0 < y1 { y0 } else { y1 }) as int - rad, h),
                j1 as int == edge_spec((if y0 < y1 { y1 } else { y0 }) as int + rad, h),
                i0 <= self.width,
                i1 <= self.width,
                j0 as int <= j as int <= j1 as int,
                j1 <= self.height,
                forall|k: int|
                    0 <= k < g0.len() ==> #[trigger] self.glow@[k] == (
                        if in_line_box_spec(k, w, h, x0 as int, y0 as int, x1 as int, y1 as int, r as int)
                            && k / w < j as int {
                            cap_spec(
                                g0[k] + line_term_spec(
                                    x0 as int, y0 as int, x1 as int, y1 as int,
                                    r as int, amp as int, k % w, k / w,
                                ),
                            ) as i64
                        } else {
                            g0[k]
                        }),
            decreases j1 as int - j as int,
        {
            let jf = (j as i64) * 65536;
            let mut i = i0;
            while i < i1
                invariant
                    old(self).wf(),
                    self.width == old(self).width,
                    self.height == old(self).height,
                    self.tc == old(self).tc,
                    self.sweep == old(self).sweep,
                    self.gain == old(self).gain,
                    self.horiz == old(self).horiz,
                    self.xylast == old(self).xylast,
                    w == self.width as int,
                    h == self.height as int,
                    g0 == old(self).glow@,
                    g0.len() == w * h,
                    w * h <= 0x1000_0000,
                    self.glow@.len() == g0.len(),
                    0 < r <= RAD_MAX as int,
                    iabs(x0 as int) <= COORD_LIM as int,
                    iabs(y0 as int) <= COORD_LIM as int,
                    iabs(x1 as int) <= COORD_LIM as int,
                    iabs(y1 as int) <= COORD_LIM as int,
                    iabs(amp as int) <= AMP_MAX as int,
                    line_len2_spec(x0 as int, y0 as int, x1 as int, y1 as int) >= FX_ONE as int,
                    fr == frame_spec(x0 as int, y0 as int, x1 as int, y1 as int, r as int, amp as int),
                    iabs(fr.ampp as int) <= 268435456,
                    rad as int == clip_rad_spec(r as int),
                    0 <= rad <= 10485760,
                    i0 as int == edge_spec((if x0 < x1 { x0 } else { x1 }) as int - rad, w),
                    i1 as int == edge_spec((if x0 < x1 { x1 } else { x0 }) as int + rad, w),
                    j0 as int == edge_spec((if y0 < y1 { y0 } else { y1 }) as int - rad, h),
                    j1 as int == edge_spec((if y0 < y1 { y1 } else { y0 }) as int + rad, h),
                    i0 as int <= i as int <= i1 as int,
                    i1 <= self.width,
                    j0 as int <= j as int,
                    (j as int) < j1 as int,
                    j1 <= self.height,
                    jf as int == j as int * 65536,
                    forall|k: int|
                        0 <= k < g0.len() ==> #[trigger] self.glow@[k] == (
                            if in_line_box_spec(k, w, h, x0 as int, y0 as int, x1 as int, y1 as int, r as int)
                                && (k / w < j as int || (k / w == j as int && k % w < i as int)) {
                                cap_spec(
                                    g0[k] + line_term_spec(
                                        x0 as int, y0 as int, x1 as int, y1 as int,
                                        r as int, amp as int, k % w, k / w,
                                    ),
                                ) as i64
                            } else {
                                g0[k]
                            }),
                decreases i1 as int - i as int,
            {
                proof {
                    lemma_row_major(i as int, j as int, w, h);
                }
                let idx = j * self.width + i;
                let fi = (i as i64) * 65536;
                let u = sat_add(sat_add(fx_mul(fr.ux, fi), fx_mul(fr.uy, jf)), fr.u0);
                let v = sat_add(sat_add(fx_mul(fr.vx, fi), fx_mul(fr.vy, jf)), fr.v0);
                let gv = gauss_approx(v);
                let e1 = erf_approx(u);
                let e2 = erf_approx(sat_sub(u, fr.ustep));
                let ed = e1 - e2;
                let t = fx_mul(fr.ampp, gv);
                let z = fx_mul(t, ed);
                proof {
                    lemma_fx_mul_bound(fr.ampp as int, gv as int, 268435456, FX_ONE as int);
                    assert((268435456 * 65536) / 65536 == 268435456) by (nonlinear_arith);
                    lemma_fx_mul_bound(t as int, ed as int, 268435456, 131072);
                    assert((268435456 * 131072) / 65536 == 536870912) by (nonlinear_arith);
                    assert(0 <= self.glow@[idx as int] <= GLOW_CAP);
                }
                let vcell = cap_i64(self.glow[idx] + z);
                self.glow.set(idx, vcell);
                proof {
                    assert(idx as int % w == i as int && idx as int / w == j as int);
                    assert(in_line_box_spec(
                        idx as int, w, h, x0 as int, y0 as int, x1 as int, y1 as int, r as int,
                    ));
                    assert(z as int == line_term_spec(
                        x0 as int, y0 as int, x1 as int, y1 as int,
                        r as int, amp as int, i as int, j as int,
                    ));
                    assert forall|k: int|
                        0 <= k < g0.len() && #[trigger] (k % w) == i as int && k / w == j as int
                            implies k == idx as int by {
                        vstd::arithmetic::div_mod::lemma_fundamental_div_mod(k, w);
                        assert(w * (j as int) == (j as int) * w) by (nonlinear_arith);
                    }
                }
                i = i + 1;
            }
            j = j + 1;
        }
        proof {
            assert(self.glow@ =~= splat_line_spec(
                g0, w, h, x0 as int, y0 as int, x1 as int, y1 as int, r as int, amp as int,
            ));
        }
    }

    /// Approximate a line by a fixed number of evenly spaced dots, each
    /// carrying an equal share of the amplitude: a cheaper, lower-fidelity
    /// alternative to `add_line`.
    pub fn add_line_step(&mut self, x0: i64, y0: i64, x1: i64, y1: i64, r: i64, amp: i64)
        requires
            old(self).wf(),
            0 < r <= RAD_MAX as int,
            iabs(x0 as int) <= COORD_LIM as int,
            iabs(y0 as int) <= COORD_LIM as int,
            iabs(x1 as int) <= COORD_LIM as int,
            iabs(y1 as int) <= COORD_LIM as int,
            iabs(amp as int) <= AMP_MAX as int,
        ensures
            final(self).wf(),
            old(self).same_config(*final(self)),
            final(self).spec_horiz() == old(self).spec_horiz(),
            final(self).spec_xylast() == old(self).spec_xylast(),
            final(self).spec_glow() == step_splats_spec(
                old(self).spec_glow(),
                old(self).spec_width(),
                old(self).spec_height(),
                x0 as int,
                y0 as int,
                x1 as int,
                y1 as int,
                r as int,
                fx_div_spec(amp as int, 1310720),
                20,
            ),
    {
        let amp_step = fx_div(amp, 1310720);
        proof {
            lemma_fx_div_bound(amp as int, 1310720, AMP_MAX as int, 1310720);
            assert((4194304 * 65536) / 1310720 == 209715) by (nonlinear_arith);
        }
        let mut k: usize = 0;
        while k < 20
            invariant
                old(self).wf(),
                self.width == old(self).width,
                self.height == old(self).height,
                self.tc == old(self).tc,
                self.sweep == old(self).sweep,
                self.gain == old(self).gain,
                self.horiz == old(self).horiz,
                self.xylast == old(self).xylast,
                self.wf(),
                0 < r <= RAD_MAX as int,
                iabs(x0 as int) <= COORD_LIM as int,
                iabs(y0 as int) <= COORD_LIM as int,
                iabs(x1 as int) <= COORD_LIM as int,
                iabs(y1 as int) <= COORD_LIM as int,
                iabs(amp as int) <= AMP_MAX as int,
                amp_step as int == fx_div_spec(amp as int, 1310720),
                iabs(amp_step as int) <= AMP_MAX as int,
                k <= 20,
                self.glow@ == step_splats_spec(
                    old(self).glow@,
                    self.width as int,
                    self.height as int,
                    x0 as int,
                    y0 as int,
                    x1 as int,
                    y1 as int,
                    r as int,
                    amp_step as int,
                    k as nat,
                ),
            decreases 20 - k,
        {
            let t = fx_mul((k as i64) * 65536 + 32768, 3276);
            proof {
                assert(step_t_spec(k as int) == t as int);
                lemma_fx_mul_nonneg((k as i64) * 65536 + 32768, 3276);
                lemma_fx_mul_bound((k as i64 * 65536 + 32768) as int, 3276, 1277952, 3276);
                assert((1277952 * 3276) / 65536 == 63882) by (nonlinear_arith);
                lemma_interp_bounded(x0 as int, x1 as int, t as int);
                lemma_interp_bounded(y0 as int, y1 as int, t as int);
            }
            let px = sat_add(x0, fx_mul(x1 - x0, t));
            let py = sat_add(y0, fx_mul(y1 - y0, t));
            self.add_dot(px, py, r, amp_step);
            k = k + 1;
        }
    }
}

/// The blend parameter of the `idx`-th of 20 stepped dots: `(idx + 0.5) / 20`
/// in Q16.16.
pub open spec fn step_t_spec(idx: int) -> int {
    fx_mul_spec(idx * 65536 + 32768, 3276)
}

/// A point interpolated between `(x0, y0)` and `(x1, y1)`.
pub open spec fn interp_spec(a: int, b: int, t: int) -> int {
    sat_add_spec(a, fx_mul_spec(b - a, t))
}

/// The glow buffer after `n` stepped dots have been laid down in order.
pub open spec fn step_splats_spec(
    glow: Seq<i64>,
    w: int,
    h: int,
    x0: int,
    y0: int,
    x1: int,
    y1: int,
    r: int,
    amp_step: int,
    n: nat,
) -> Seq<i64>
    decreases n,
{
    if n == 0 {
        glow
    } else {
        let prev = step_splats_spec(glow, w, h, x0, y0, x1, y1, r, amp_step, (n - 1) as nat);
        splat_dot_spec(
            prev,
            w,
            h,
            interp_spec(x0, x1, step_t_spec(n - 1)),
            interp_spec(y0, y1, step_t_spec(n - 1)),
            r,
            amp_step,
        )
    }
}

/// An interpolated coordinate stays within the coordinate range of its
/// endpoints' bounds.
pub proof fn lemma_interp_bounded(a: int, b: int, t: int)
    requires
        iabs(a) <= COORD_LIM as int,
        iabs(b) <= COORD_LIM as int,
        0 <= t <= FX_ONE as int,
    ensures
        iabs(interp_spec(a, b, t)) <= COORD_LIM as int,
{
    let d = b - a;
    if d >= 0 {
        lemma_fx_mul_nonneg(d, t);
        lemma_fx_mul_bound(d, t, d, FX_ONE as int);
        assert((d * 65536) / 65536 == d) by (nonlinear_arith)
            requires
                0 <= d,
        ;
    } else {
        lemma_fx_mul_neg_left(-d, t);
        lemma_fx_mul_nonneg(-d, t);
        lemma_fx_mul_bound(-d, t, -d, FX_ONE as int);
        assert(((-d) * 65536) / 65536 == -d) by (nonlinear_arith)
            requires
                d < 0,
        ;
    }
}

/// Beam radius used by the trace driver: 1.0 pixel.
pub const TRACE_RAD: i64 = 65536;

/// Beam amplitude used by the trace driver: 2.0.
pub const TRACE_AMP: i64 = 131072;

/// Saturate a plotted coordinate into the splatting range.
pub open spec fn coord_sat_spec(v: int) -> int {
    if v > COORD_LIM { COORD_LIM as int } else if v < -(COORD_LIM as int) { -(COORD_LIM as int) } else { v }
}

fn coord_clamp(v: i64) -> (r: i64)
    ensures
        r == coord_sat_spec(v as int),
{
    if v > COORD_LIM {
        COORD_LIM
    } else if v < -COORD_LIM {
        -COORD_LIM
    } else {
        v
    }
}

/// The batch decay factor: a rational approximation of
/// `exp(-n / tc)` evaluated in fixed point as `1 / (1 + t + t^2/2 + t^3/6)`
/// with `t = n / tc` clamped into `[0, 32]`.  Always in `(0, FX_ONE]`, and
/// exactly `FX_ONE` for an empty batch.
pub open spec fn decay_factor_spec(n: nat, tc: int) -> int {
    let nc: int = if n > 16777216 { 16777216 } else { n as int };
    let t0 = fx_div_spec(nc * 65536, tc);
    let t = if t0 > 2097152 { 2097152 } else { t0 };
    let t2 = fx_mul_spec(t, t);
    let t3 = fx_mul_spec(t2, t);
    let s = FX_ONE as int + t + t2 / 2 + t3 / 6;
    0x1_0000_0000int / s
}

/// Compute the batch decay factor.
fn decay_factor(n: usize, tc: i64) -> (r: i64)
    requires
        1 <= tc,
    ensures
        r as int == decay_factor_spec(n as nat, tc as int),
        0 < r <= FX_ONE as int,
        n == 0 ==> r == FX_ONE as int,
{
    let nc: i64 = if n > 16777216 { 16777216 } else { n as i64 };
    let ni: i64 = nc * 65536;
    let t0 = fx_div(ni, tc);
    proof {
        assert(0 <= ni);
        vstd::arithmetic::div_mod::lemma_div_of0(iabs(tc as int));
        assert(0 <= iabs(ni as int) * (FX_ONE as int)) by (nonlinear_arith)
            requires
                0 <= iabs(ni as int),
        ;
        vstd::arithmetic::div_mod::lemma_div_is_ordered(
            0,
            iabs(ni as int) * (FX_ONE as int),
            iabs(tc as int),
        );
        assert(0 <= t0);
    }
    let t = if t0 > 2097152 { 2097152 } else { t0 };
    let t2 = fx_mul(t, t);
    let t3 = fx_mul(t2, t);
    proof {
        lemma_fx_mul_nonneg(t as int, t as int);
        lemma_fx_mul_bound(t as int, t as int, 2097152, 2097152);
        assert((2097152 * 2097152) / 65536 == 67108864) by (nonlinear_arith);
        lemma_fx_mul_nonneg(t2 as int, t as int);
        lemma_fx_mul_bound(t2 as int, t as int, 67108864, 2097152);
        assert((67108864 * 2097152) / 65536 == 2147483648) by (nonlinear_arith);
    }
    let s = FX_ONE + t + ((t2 as u64) / 2) as i64 + ((t3 as u64) / 6) as i64;
    proof {
        assert(FX_ONE as int <= s as int <= 400000000);
        vstd::arithmetic::div_mod::lemma_div_is_ordered_by_denominator(
            0x1_0000_0000,
            FX_ONE as int,
            s as int,
        );
        vstd::arithmetic::div_mod::lemma_div_is_ordered_by_denominator(
            0x1_0000_0000,
            s as int,
            400000000,
        );
        assert(0x1_0000_0000int / 400000000 == 10) by (nonlinear_arith);
        if n == 0 {
            assert(iabs(0) * 65536 == 0) by (nonlinear_arith);
            vstd::arithmetic::div_mod::lemma_div_of0(iabs(tc as int));
            assert(t0 == 0);
            lemma_fx_mul_zero(0);
            assert(t2 == 0 && t3 == 0);
            assert(0x1_0000_0000int / (FX_ONE as int) == FX_ONE as int) by (nonlinear_arith);
        }
    }
    (0x1_0000_0000u64 / (s as u64)) as i64
}

/// One sample's effect on the trace state: plot the new point, connect it
/// to the previous one when the trace is unbroken, advance the sweep, and
/// on wraparound clear the connection (the flyback is invisible).
pub open spec fn step_spec(
    glow: Seq<i64>,
    horiz: int,
    last: Option<(i64, i64)>,
    w: int,
    h: int,
    sweep: int,
    yscale: int,
    s: i64,
) -> (Seq<i64>, int, Option<(i64, i64)>) {
    let x = fx_mul_spec(horiz, w * 65536);
    let y = coord_sat_spec(sat_sub_spec(h * 32768, fx_mul_spec(yscale, s as int)));
    let g1 = match last {
        Some(p) => splat_line_spec(
            glow,
            w,
            h,
            p.0 as int,
            p.1 as int,
            x,
            y,
            TRACE_RAD as int,
            TRACE_AMP as int,
        ),
        None => glow,
    };
    let h1 = horiz + sweep;
    if h1 > FX_ONE {
        (g1, h1 - FX_ONE, None)
    } else {
        (g1, h1, Some((x as i64, y as i64)))
    }
}

/// The trace state after a whole batch, processed strictly in input order.
pub open spec fn drive_spec(
    glow: Seq<i64>,
    horiz: int,
    last: Option<(i64, i64)>,
    w: int,
    h: int,
    sweep: int,
    yscale: int,
    samples: Seq<i64>,
) -> (Seq<i64>, int, Option<(i64, i64)>)
    decreases samples.len(),
{
    if samples.len() == 0 {
        (glow, horiz, last)
    } else {
        let prev = drive_spec(glow, horiz, last, w, h, sweep, yscale, samples.drop_last());
        step_spec(prev.0, prev.1, prev.2, w, h, sweep, yscale, samples.last())
    }
}

impl Scope {
    /// Consume an ordered batch of samples.  The whole buffer fades once by
    /// the batch decay factor, then each sample is plotted in order: it is
    /// connected to the previous point by a beam of radius 1.0 and
    /// amplitude 2.0 unless the trace was broken, the sweep advances, and a
    /// sweep wraparound breaks the trace so that no segment ever spans the
    /// flyback.
    pub fn provide_samples(&mut self, samples: &Vec<i64>)
        requires
            old(self).wf(),
        ensures
            final(self).wf(),
            old(self).same_config(*final(self)),
            ({
                let f = decay_factor_spec(samples@.len(), old(self).spec_tc());
                let d = drive_spec(
                    fade_seq_spec(old(self).spec_glow(), f),
                    old(self).spec_horiz(),
                    old(self).spec_xylast(),
                    old(self).spec_width(),
                    old(self).spec_height(),
                    old(self).spec_sweep(),
                    fx_mul_spec(old(self).spec_height() * 32768, old(self).spec_gain()),
                    samples@,
                );
                &&& final(self).spec_glow() == d.0
                &&& final(self).spec_horiz() == d.1
                &&& final(self).spec_xylast() == d.2
            }),
    {
        let ghost w = self.width as int;
        let ghost h = self.height as int;
        let n = samples.len();
        let factor = decay_factor(n, self.tc);
        self.fade(factor);
        let ghost gf = self.glow@;
        let ghost h0 = self.horiz as int;
        let ghost l0 = self.xylast;
        let y0: i64 = (self.height as i64) * 32768;
        let yscale = fx_mul(y0, self.gain);
        let wf_px: i64 = (self.width as i64) * 65536;
        let mut k: usize = 0;
        while k < n
            invariant
                self.wf(),
                old(self).wf(),
                self.width == old(self).width,
                self.height == old(self).height,
                self.tc == old(self).tc,
                self.sweep == old(self).sweep,
                self.gain == old(self).gain,
                w == self.width as int,
                h == self.height as int,
                n == samples@.len(),
                k <= n,
                y0 as int == h * 32768,
                wf_px as int == w * 65536,
                yscale as int == fx_mul_spec(h * 32768, self.gain as int),
                ({
                    let d = drive_spec(gf, h0, l0, w, h, self.sweep as int, yscale as int, samples@.take(k as int));
                    &&& self.glow@ == d.0
                    &&& self.horiz as int == d.1
                    &&& self.xylast == d.2
                }),
            decreases n - k,
        {
            let ghost dprev = drive_spec(gf, h0, l0, w, h, self.sweep as int, yscale as int, samples@.take(k as int));
            let s = samples[k];
            let x = fx_mul(self.horiz, wf_px);
            proof {
                lemma_fx_mul_bound(self.horiz as int, wf_px as int, FX_ONE as int, COORD_LIM as int);
                assert((65536 * 0x4000_0000) / 65536 == 0x4000_0000) by (nonlinear_arith);
            }
            let y = coord_clamp(sat_sub(y0, fx_mul(yscale, s)));
            if let Some((xl, yl)) = self.xylast {
                self.add_line(xl, yl, x, y, TRACE_RAD, TRACE_AMP);
            }
            self.xylast = Some((x, y));
            self.horiz = self.horiz + self.sweep;
            if self.horiz > FX_ONE {
                self.horiz = self.horiz - FX_ONE;
                self.xylast = None;
            }
            proof {
                assert(samples@.take(k as int + 1).drop_last() =~= samples@.take(k as int));
                assert(samples@.take(k as int + 1).last() == samples@[k as int]);
                let dnext = drive_spec(
                    gf, h0, l0, w, h, self.sweep as int, yscale as int,
                    samples@.take(k as int + 1),
                );
                assert(dnext == step_spec(
                    dprev.0, dprev.1, dprev.2, w, h, self.sweep as int, yscale as int,
                    samples@[k as int],
                ));
            }
            k = k + 1;
        }
        proof {
            assert(samples@.take(n as int) =~= samples@);
        }
    }
}

/// A sample that advances the sweep past the right edge breaks the trace:
/// the state after that sample holds no last point, so the next sample
/// cannot be connected across the flyback.
pub proof fn lemma_step_wraps_breaks_trace(
    glow: Seq<i64>,
    horiz: int,
    last: Option<(i64, i64)>,
    w: int,
    h: int,
    sweep: int,
    yscale: int,
    s: i64,
)
    requires
        horiz + sweep > FX_ONE as int,
    ensures
        step_spec(glow, horiz, last, w, h, sweep, yscale, s).2 is None,
        step_spec(glow, horiz, last, w, h, sweep, yscale, s).1 == horiz + sweep - FX_ONE as int,
{
}

/// The first sample after a break draws nothing: with no last point the
/// glow buffer passes through unchanged, and the sample's own position
/// becomes the new last point (when the sweep does not wrap again).
pub proof fn lemma_step_after_break_draws_nothing(
    glow: Seq<i64>,
    horiz: int,
    w: int,
    h: int,
    sweep: int,
    yscale: int,
    s: i64,
)
    requires
        horiz + sweep <= FX_ONE as int,
    ensures
        step_spec(glow, horiz, None, w, h, sweep, yscale, s).0 == glow,
        step_spec(glow, horiz, None, w, h, sweep, yscale, s).2 == Some(
            (
                fx_mul_spec(horiz, w * 65536) as i64,
                coord_sat_spec(sat_sub_spec(h * 32768, fx_mul_spec(yscale, s as int))) as i64,
            ),
        ),
{
}

/// A sample that does not wrap keeps the sweep strictly increasing: the
/// sweep position is monotone within a batch except for the wraparound.
pub proof fn lemma_step_advances_sweep(
    glow: Seq<i64>,
    horiz: int,
    last: Option<(i64, i64)>,
    w: int,
    h: int,
    sweep: int,
    yscale: int,
    s: i64,
)
    requires
        0 < sweep,
        horiz + sweep <= FX_ONE as int,
    ensures
        step_spec(glow, horiz, last, w, h, sweep, yscale, s).1 == horiz + sweep,
        step_spec(glow, horiz, last, w, h, sweep, yscale, s).1 > horiz,
{
}

/// No segment ever spans the flyback: when a sample wraps the sweep, the
/// trace breaks, and the following sample deposits no glow at all; it only
/// records its own position as the new last point.
pub proof fn lemma_no_segment_spans_wrap(
    glow: Seq<i64>,
    horiz: int,
    last: Option<(i64, i64)>,
    w: int,
    h: int,
    sweep: int,
    yscale: int,
    s1: i64,
    s2: i64,
)
    requires
        0 < sweep,
        horiz + sweep > FX_ONE as int,
        (horiz + sweep - FX_ONE as int) + sweep <= FX_ONE as int,
    ensures
        ({
            let st1 = step_spec(glow, horiz, last, w, h, sweep, yscale, s1);
            let st2 = step_spec(st1.0, st1.1, st1.2, w, h, sweep, yscale, s2);
            &&& st1.2 is None
            &&& st2.0 == st1.0
            &&& st2.2 == Some(
                (
                    fx_mul_spec(st1.1, w * 65536) as i64,
                    coord_sat_spec(
                        sat_sub_spec(h * 32768, fx_mul_spec(yscale, s2 as int)),
                    ) as i64,
                ),
            )
        }),
{
    let st1 = step_spec(glow, horiz, last, w, h, sweep, yscale, s1);
    lemma_step_wraps_breaks_trace(glow, horiz, last, w, h, sweep, yscale, s1);
    lemma_step_after_break_draws_nothing(st1.0, st1.1, w, h, sweep, yscale, s2);
}

/// The glow buffer after a fade: every cell is multiplied by `factor` and
/// clamped back into the cell range.
pub open spec fn fade_seq_spec(glow: Seq<i64>, factor: int) -> Seq<i64> {
    Seq::new(glow.len(), |k: int| cap_spec(fx_mul_spec(glow[k] as int, factor)) as i64)
}

/// The pixel count of a bounded buffer fits comfortably in every index type.
pub proof fn lemma_dim_product(w: int, h: int)
    requires
        0 <= w <= 16384,
        0 <= h <= 16384,
    ensures
        w * h <= 0x1000_0000,
{
    assert(w * h <= 0x1000_0000) by (nonlinear_arith)
        requires
            0 <= w <= 16384,
            0 <= h <= 16384,
    ;
}

/// Row-major indexing: `(j, i)` maps to cell `j * w + i`, and back.
pub proof fn lemma_row_major(i: int, j: int, w: int, h: int)
    requires
        0 <= i < w,
        0 <= j < h,
    ensures
        0 <= j * w + i < w * h,
        (j * w + i) % w == i,
        (j * w + i) / w == j,
{
    vstd::arithmetic::div_mod::lemma_fundamental_div_mod_converse(j * w + i, w, j, i);
    assert(0 <= j * w + i && j * w + i < w * h) by (nonlinear_arith)
        requires
            0 <= i < w,
            0 <= j < h,
    ;
}

} // verus!
