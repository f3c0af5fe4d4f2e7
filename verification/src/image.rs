//! Presentation: tone-map the glow buffer into an RGBA image and overlay a
//! calibration grid.
//!
//! Each glow cell feeds three fixed channel curves (`64*sqrt(min(g,1))`,
//! `255*sqrt(min(g+0.03,1))`, `224*sqrt(min(g+0.1,1))` in Q16.16); the
//! small green and blue offsets tint the dark background toward the
//! phosphor rest colour.  The grid then halves the colour channels of the
//! pixels it covers: a translucent darkening, not a solid colour.

use vstd::prelude::*;
use crate::fx::{FX_ONE, iabs, fx_sqrt_spec, fx_sqrt, isqrt_spec, lemma_isqrt_bounds};
use crate::scope::{Scope, GLOW_CAP, lemma_row_major, lemma_dim_product};

verus! {

/// Offset of the green curve: 0.03 in Q16.16.
pub const GREEN_OFS: i64 = 1966;

/// Offset of the blue curve: 0.1 in Q16.16.
pub const BLUE_OFS: i64 = 6553;

/// Pixel spacing of the full-length grid lines.
pub const GRID_SP: usize = 60;

/// Pixel spacing of the short tick marks along the centre axes.
pub const TICK_SP: usize = 12;

/// Half-length of a tick mark, in pixels.
pub const TICK_LEN: usize = 6;

/// Clamp an intensity into `[0, 1]` before the tone curve.
pub open spec fn clamp01_spec(v: int) -> int {
    if v < 0 { 0 } else if v > FX_ONE { FX_ONE as int } else { v }
}

/// One tone curve: `coef * sqrt(min(max(g + ofs, 0), 1))`, all in Q16.16,
/// yielding a byte in `[0, coef]`.
pub open spec fn tone_channel_spec(coef: int, ofs: int, g: int) -> int {
    (coef * fx_sqrt_spec(clamp01_spec(g + ofs))) / (FX_ONE as int)
}

/// The fully tone-mapped image: four bytes per cell, row-major,
/// interleaved R, G, B and an opaque alpha.
pub open spec fn tonemap_spec(glow: Seq<i64>) -> Seq<u8> {
    Seq::new(
        glow.len() * 4,
        |p: int|
            {
                let g = glow[p / 4] as int;
                if p % 4 == 0 {
                    tone_channel_spec(64, 0, g) as u8
                } else if p % 4 == 1 {
                    tone_channel_spec(255, GREEN_OFS as int, g) as u8
                } else if p % 4 == 2 {
                    tone_channel_spec(224, BLUE_OFS as int, g) as u8
                } else {
                    255u8
                }
            },
    )
}

/// A horizontal grid segment: colour bytes of the pixels in columns
/// `[x0, x1)` of row `y` are halved; alpha and everything else untouched.
pub open spec fn hline_spec(im: Seq<u8>, w: int, x0: int, x1: int, y: int) -> Seq<u8> {
    Seq::new(
        im.len(),
        |p: int|
            if p % 4 != 3 && y * w + x0 <= p / 4 < y * w + x1 {
                (im[p] / 2) as u8
            } else {
                im[p]
            },
    )
}

/// A vertical grid segment: colour bytes of the pixels in rows `[y0, y1)`
/// of column `x` are halved.
pub open spec fn vline_spec(im: Seq<u8>, w: int, x: int, y0: int, y1: int) -> Seq<u8> {
    Seq::new(
        im.len(),
        |p: int|
            if p % 4 != 3 && (p / 4) % w == x && y0 <= (p / 4) / w < y1 {
                (im[p] / 2) as u8
            } else {
                im[p]
            },
    )
}

/// How many grid (or tick) lines fit on each side of the centre.
pub open spec fn side_count_spec(c: int, sp: int) -> int {
    let n = (c + sp - 1) / sp;
    if n >= 1 { n - 1 } else { 0 }
}

/// The image after the first `k` pairs of full-width horizontal grid lines.
pub open spec fn grid_rows_spec(im: Seq<u8>, w: int, h: int, k: nat) -> Seq<u8>
    decreases k,
{
    if k == 0 {
        im
    } else {
        let prev = grid_rows_spec(im, w, h, (k - 1) as nat);
        hline_spec(hline_spec(prev, w, 0, w, h / 2 + k * GRID_SP), w, 0, w, h / 2 - k * GRID_SP)
    }
}

/// The image after the first `k` pairs of full-height vertical grid lines.
pub open spec fn grid_cols_spec(im: Seq<u8>, w: int, h: int, k: nat) -> Seq<u8>
    decreases k,
{
    if k == 0 {
        im
    } else {
        let prev = grid_cols_spec(im, w, h, (k - 1) as nat);
        vline_spec(vline_spec(prev, w, w / 2 + k * GRID_SP, 0, h), w, w / 2 - k * GRID_SP, 0, h)
    }
}

/// The image after the first `k` pairs of horizontal tick marks.
pub open spec fn tick_rows_spec(im: Seq<u8>, w: int, h: int, k: nat) -> Seq<u8>
    decreases k,
{
    let x2 = w / 2;
    let xa = if x2 >= TICK_LEN { x2 - TICK_LEN } else { 0 };
    let xb = if x2 + TICK_LEN <= w { x2 + TICK_LEN } else { w };
    if k == 0 {
        im
    } else {
        let prev = tick_rows_spec(im, w, h, (k - 1) as nat);
        hline_spec(
            hline_spec(prev, w, xa, xb, h / 2 - k * TICK_SP),
            w,
            xa,
            xb,
            h / 2 + k * TICK_SP,
        )
    }
}

/// The image after the first `k` pairs of vertical tick marks.
pub open spec fn tick_cols_spec(im: Seq<u8>, w: int, h: int, k: nat) -> Seq<u8>
    decreases k,
{
    let y2 = h / 2;
    let ya = if y2 >= TICK_LEN { y2 - TICK_LEN } else { 0 };
    let yb = if y2 + TICK_LEN <= h { y2 + TICK_LEN } else { h };
    if k == 0 {
        im
    } else {
        let prev = tick_cols_spec(im, w, h, (k - 1) as nat);
        vline_spec(
            vline_spec(prev, w, w / 2 + k * TICK_SP, ya, yb),
            w,
            w / 2 - k * TICK_SP,
            ya,
            yb,
        )
    }
}

/// The full calibration grid: the two centre lines, the outward grid lines
/// at `GRID_SP` spacing, then the tick marks at `TICK_SP` spacing along the
/// centre axes, applied in that order.
pub open spec fn grid_overlay_spec(im: Seq<u8>, w: int, h: int) -> Seq<u8> {
    let a = hline_spec(im, w, 0, w, h / 2);
    let b = vline_spec(a, w, w / 2, 0, h);
    let c = grid_rows_spec(b, w, h, side_count_spec(h / 2, GRID_SP as int) as nat);
    let d = grid_cols_spec(c, w, h, side_count_spec(w / 2, GRID_SP as int) as nat);
    let e = tick_rows_spec(d, w, h, side_count_spec(h / 2, TICK_SP as int) as nat);
    tick_cols_spec(e, w, h, side_count_spec(w / 2, TICK_SP as int) as nat)
}

/// Evaluate one tone curve.
fn tone_channel(coef: i64, ofs: i64, g: i64) -> (c: u8)
    requires
        0 <= coef <= 255,
        0 <= ofs <= FX_ONE as int,
        iabs(g as int) <= GLOW_CAP as int,
    ensures
        c as int == tone_channel_spec(coef as int, ofs as int, g as int),
{
    let v = g + ofs;
    let c01 = if v < 0 { 0 } else if v > FX_ONE { FX_ONE } else { v };
    let s = fx_sqrt(c01);
    proof {
        lemma_isqrt_bounds((c01 as int * FX_ONE as int) as nat);
        assert(isqrt_spec((c01 as int * FX_ONE as int) as nat) <= 65536) by (nonlinear_arith)
            requires
                isqrt_spec((c01 as int * FX_ONE as int) as nat)
                    * isqrt_spec((c01 as int * FX_ONE as int) as nat)
                    <= (c01 as int * FX_ONE as int) as nat,
                (c01 as int * FX_ONE as int) as nat <= 65536 * 65536,
        ;
        assert(c01 as int * FX_ONE as int <= 65536 * 65536) by (nonlinear_arith)
            requires
                0 <= c01 as int <= 65536,
                FX_ONE == 65536,
        ;
        assert(coef as int * s as int <= 255 * 65536) by (nonlinear_arith)
            requires
                0 <= coef as int <= 255,
                0 <= s as int <= 65536,
        ;
        vstd::arithmetic::div_mod::lemma_div_is_ordered(
            coef as int * s as int,
            (255 * 65536) as int,
            FX_ONE as int,
        );
        assert((255 * 65536) / 65536 == 255) by (nonlinear_arith);
        assert(0 <= coef as int * s as int) by (nonlinear_arith)
            requires
                0 <= coef as int,
                0 <= s as int,
        ;
        vstd::arithmetic::div_mod::lemma_div_is_ordered(0, coef as int * s as int, FX_ONE as int);
    }
    (((coef as u64) * (s as u64)) / 65536) as u8
}

impl Scope {
    /// Tone-map the glow buffer into an RGBA byte image (four bytes per
    /// pixel, row-major, opaque alpha) and overlay the calibration grid.
    /// Reads the buffer only: repeated calls give the same image.
    pub fn as_rgba(&self) -> (im: Vec<u8>)
        requires
            self.wf(),
        ensures
            im@.len() == self.spec_glow().len() * 4,
            im@ == grid_overlay_spec(
                tonemap_spec(self.spec_glow()),
                self.spec_width(),
                self.spec_height(),
            ),
    {
        let n = self.glow.len();
        let mut im: Vec<u8> = Vec::new();
        let mut pix: usize = 0;
        while pix < n
            invariant
                self.wf(),
                pix <= n,
                n == self.glow@.len(),
                im@.len() == pix * 4,
                forall|p: int| 0 <= p < pix * 4 ==> #[trigger] im@[p] == tonemap_spec(self.glow@)[p],
            decreases n - pix,
        {
            let g = self.glow[pix];
            let r = tone_channel(64, 0, g);
            let gr = tone_channel(255, GREEN_OFS, g);
            let b = tone_channel(224, BLUE_OFS, g);
            im.push(r);
            im.push(gr);
            im.push(b);
            im.push(255);
            proof {
                assert forall|p: int| pix * 4 <= p < pix * 4 + 4 implies
                    #[trigger] im@[p] == tonemap_spec(self.glow@)[p] by {
                    vstd::arithmetic::div_mod::lemma_fundamental_div_mod_converse(
                        p,
                        4,
                        pix as int,
                        p - pix * 4,
                    );
                }
            }
            pix = pix + 1;
        }
        proof {
            assert(im@ =~= tonemap_spec(self.glow@));
        }
        self.render_grid_lines(&mut im);
        im
    }

    /// Halve the colour channels of row `y`, columns `[x0, x1)`.
    fn render_hline(&self, x0: usize, x1: usize, y: usize, im: &mut Vec<u8>)
        requires
            self.wf(),
            x0 <= x1,
            x1 <= self.spec_width(),
            y < self.spec_height(),
            old(im)@.len() == self.spec_width() * self.spec_height() * 4,
        ensures
            final(im)@ == hline_spec(old(im)@, self.spec_width(), x0 as int, x1 as int, y as int),
    {
        let ghost im0 = im@;
        let ghost w = self.width as int;
        let ghost h = self.height as int;
        proof {
            lemma_dim_product(w, h);
        }
        proof {
            assert((y as int) * w + (x1 as int) <= w * h) by (nonlinear_arith)
                requires
                    (y as int) < h,
                    x1 as int <= w,
                    0 < w,
            ;
            assert(0 <= (y as int) * w) by (nonlinear_arith)
                requires
                    0 <= y as int,
                    0 < w,
            ;
        }
        let base = y * self.width;
        let mut i = base + x0;
        let stop = base + x1;
        while i < stop
            invariant
                self.wf(),
                w == self.width as int,
                h == self.height as int,
                w * h <= 0x1000_0000,
                im@.len() == im0.len(),
                im0.len() == w * h * 4,
                base == y as int * w,
                x0 <= x1,
                x1 <= w,
                y < h,
                base + x0 as int <= i as int <= base + x1 as int,
                stop == base + x1 as int,
                forall|p: int| 0 <= p < im0.len() ==> #[trigger] im@[p] == (
                    if p % 4 != 3 && base + x0 <= p / 4 < i as int {
                        (im0[p] / 2) as u8
                    } else {
                        im0[p]
                    }),
            decreases stop - i,
        {
            proof {
                assert((i as int) < w * h) by (nonlinear_arith)
                    requires
                        (i as int) < (y as int) * w + x1,
                        x1 <= w,
                        (y as int) < h,
                        0 < w,
                ;
                assert(4 * (i as int) + 3 < im0.len());
                assert forall|p: int| 4 * (i as int) <= p < 4 * (i as int) + 4 implies
                    #[trigger] (p / 4) == i as int && p % 4 == p - 4 * (i as int) by {
                    vstd::arithmetic::div_mod::lemma_fundamental_div_mod_converse(
                        p,
                        4,
                        i as int,
                        p - 4 * (i as int),
                    );
                }
            }
            let b0 = im[i * 4];
            im.set(i * 4, b0 / 2);
            let b1 = im[i * 4 + 1];
            im.set(i * 4 + 1, b1 / 2);
            let b2 = im[i * 4 + 2];
            im.set(i * 4 + 2, b2 / 2);
            proof {
                assert forall|p: int| 0 <= p < im0.len() && #[trigger] (p / 4) == i as int && p % 4 != 3 implies
                    4 * (i as int) <= p < 4 * (i as int) + 3 by {
                    vstd::arithmetic::div_mod::lemma_fundamental_div_mod(p, 4);
                }
            }
            i = i + 1;
        }
        proof {
            assert(im@ =~= hline_spec(im0, w, x0 as int, x1 as int, y as int));
        }
    }

    /// Halve the colour channels of column `x`, rows `[y0, y1)`.
    fn render_vline(&self, x: usize, y0: usize, y1: usize, im: &mut Vec<u8>)
        requires
            self.wf(),
            x < self.spec_width(),
            y0 <= y1,
            y1 <= self.spec_height(),
            old(im)@.len() == self.spec_width() * self.spec_height() * 4,
        ensures
            final(im)@ == vline_spec(old(im)@, self.spec_width(), x as int, y0 as int, y1 as int),
    {
        let ghost im0 = im@;
        let ghost w = self.width as int;
        let ghost h = self.height as int;
        proof {
            lemma_dim_product(w, h);
        }
        let mut j = y0;
        while j < y1
            invariant
                self.wf(),
                w == self.width as int,
                h == self.height as int,
                w * h <= 0x1000_0000,
                im@.len() == im0.len(),
                im0.len() == w * h * 4,
                x < w,
                y0 as int <= j as int <= y1 as int,
                y1 <= h,
                forall|p: int| 0 <= p < im0.len() ==> #[trigger] im@[p] == (
                    if p % 4 != 3 && (p / 4) % w == x as int && y0 <= (p / 4) / w < j as int {
                        (im0[p] / 2) as u8
                    } else {
                        im0[p]
                    }),
            decreases y1 - j,
        {
            proof {
                lemma_row_major(x as int, j as int, w, h);
            }
            let i = j * self.width + x;
            proof {
                assert(4 * (i as int) + 3 < im0.len());
                assert forall|p: int| 4 * (i as int) <= p < 4 * (i as int) + 4 implies
                    #[trigger] (p / 4) == i as int && p % 4 == p - 4 * (i as int) by {
                    vstd::arithmetic::div_mod::lemma_fundamental_div_mod_converse(
                        p,
                        4,
                        i as int,
                        p - 4 * (i as int),
                    );
                }
            }
            let b0 = im[i * 4];
            im.set(i * 4, b0 / 2);
            let b1 = im[i * 4 + 1];
            im.set(i * 4 + 1, b1 / 2);
            let b2 = im[i * 4 + 2];
            im.set(i * 4 + 2, b2 / 2);
            proof {
                assert forall|p: int|
                    0 <= p < im0.len() && #[trigger] ((p / 4) % w) == x as int && (p / 4) / w == j as int
                        && p % 4 != 3 implies 4 * (i as int) <= p < 4 * (i as int) + 3 by {
                    vstd::arithmetic::div_mod::lemma_fundamental_div_mod(p, 4);
                    vstd::arithmetic::div_mod::lemma_fundamental_div_mod(p / 4, w);
                    assert(w * (j as int) == (j as int) * w) by (nonlinear_arith);
                }
            }
            j = j + 1;
        }
        proof {
            assert(im@ =~= vline_spec(im0, w, x as int, y0 as int, y1 as int));
        }
    }

    /// Overlay the full calibration grid on a tone-mapped image.
    fn render_grid_lines(&self, im: &mut Vec<u8>)
        requires
            self.wf(),
            old(im)@.len() == self.spec_width() * self.spec_height() * 4,
        ensures
            final(im)@ == grid_overlay_spec(old(im)@, self.spec_width(), self.spec_height()),
            final(im)@.len() == old(im)@.len(),
    {
        let ghost im0 = im@;
        let ghost w = self.width as int;
        let ghost h = self.height as int;
        let x2 = self.width / 2;
        let y2 = self.height / 2;
        proof {
            assert(h / 2 < h && 0 <= h / 2 && w / 2 < w && 0 <= w / 2) by (nonlinear_arith)
                requires
                    0 < h,
                    0 < w,
            ;
        }
        self.render_hline(0, self.width, y2, im);
        self.render_vline(x2, 0, self.height, im);
        let nrow = (y2 + GRID_SP - 1) / GRID_SP;
        let ghost base_rows = im@;
        let mut i: usize = 1;
        while i < nrow
            invariant
                self.wf(),
                w == self.width as int,
                h == self.height as int,
                x2 == w / 2,
                y2 == h / 2,
                nrow == (h / 2 + GRID_SP - 1) / (GRID_SP as int),
                1 <= i as int,
                nrow >= 1 ==> i as int <= nrow as int,
                base_rows.len() == w * h * 4,
                im@.len() == w * h * 4,
                nrow < 1 ==> i as int == 1,
                im@ == grid_rows_spec(base_rows, w, h, (i - 1) as nat),
            decreases nrow - i,
        {
            proof {
                lemma_grid_row_in_range(h, GRID_SP as int, i as int, nrow as int);
            }
            self.render_hline(0, self.width, y2 + i * GRID_SP, im);
            self.render_hline(0, self.width, y2 - i * GRID_SP, im);
            i = i + 1;
        }
        proof {
            assert((i - 1) as nat == side_count_spec(h / 2, GRID_SP as int) as nat);
        }
        let ncol = (x2 + GRID_SP - 1) / GRID_SP;
        let ghost base_cols = im@;
        let mut i: usize = 1;
        while i < ncol
            invariant
                self.wf(),
                w == self.width as int,
                h == self.height as int,
                x2 == w / 2,
                y2 == h / 2,
                ncol == (w / 2 + GRID_SP - 1) / (GRID_SP as int),
                1 <= i as int,
                ncol >= 1 ==> i as int <= ncol as int,
                base_cols.len() == w * h * 4,
                im@.len() == w * h * 4,
                ncol < 1 ==> i as int == 1,
                im@ == grid_cols_spec(base_cols, w, h, (i - 1) as nat),
            decreases ncol - i,
        {
            proof {
                lemma_grid_row_in_range(w, GRID_SP as int, i as int, ncol as int);
            }
            self.render_vline(x2 + i * GRID_SP, 0, self.height, im);
            self.render_vline(x2 - i * GRID_SP, 0, self.height, im);
            i = i + 1;
        }
        proof {
            assert((i - 1) as nat == side_count_spec(w / 2, GRID_SP as int) as nat);
        }
        let xa = if x2 >= TICK_LEN { x2 - TICK_LEN } else { 0 };
        let xb = if x2 + TICK_LEN <= self.width { x2 + TICK_LEN } else { self.width };
        let ntr = (y2 + TICK_SP - 1) / TICK_SP;
        let ghost base_tr = im@;
        let mut i: usize = 1;
        while i < ntr
            invariant
                self.wf(),
                w == self.width as int,
                h == self.height as int,
                x2 == w / 2,
                y2 == h / 2,
                xa as int == (if w / 2 >= TICK_LEN { w / 2 - TICK_LEN as int } else { 0 }),
                xb as int == (if w / 2 + TICK_LEN <= w { w / 2 + TICK_LEN as int } else { w }),
                xa <= xb,
                xb <= self.width,
                ntr == (h / 2 + TICK_SP - 1) / (TICK_SP as int),
                1 <= i as int,
                ntr >= 1 ==> i as int <= ntr as int,
                base_tr.len() == w * h * 4,
                im@.len() == w * h * 4,
                ntr < 1 ==> i as int == 1,
                im@ == tick_rows_spec(base_tr, w, h, (i - 1) as nat),
            decreases ntr - i,
        {
            proof {
                lemma_grid_row_in_range(h, TICK_SP as int, i as int, ntr as int);
            }
            self.render_hline(xa, xb, y2 - i * TICK_SP, im);
            self.render_hline(xa, xb, y2 + i * TICK_SP, im);
            i = i + 1;
        }
        proof {
            assert((i - 1) as nat == side_count_spec(h / 2, TICK_SP as int) as nat);
        }
        let ya = if y2 >= TICK_LEN { y2 - TICK_LEN } else { 0 };
        let yb = if y2 + TICK_LEN <= self.height { y2 + TICK_LEN } else { self.height };
        let ntc = (x2 + TICK_SP - 1) / TICK_SP;
        let ghost base_tc = im@;
        let mut i: usize = 1;
        while i < ntc
            invariant
                self.wf(),
                w == self.width as int,
                h == self.height as int,
                x2 == w / 2,
                y2 == h / 2,
                ya as int == (if h / 2 >= TICK_LEN { h / 2 - TICK_LEN as int } else { 0 }),
                yb as int == (if h / 2 + TICK_LEN <= h { h / 2 + TICK_LEN as int } else { h }),
                ya <= yb,
                yb <= self.height,
                ntc == (w / 2 + TICK_SP - 1) / (TICK_SP as int),
                1 <= i as int,
                ntc >= 1 ==> i as int <= ntc as int,
                base_tc.len() == w * h * 4,
                im@.len() == w * h * 4,
                ntc < 1 ==> i as int == 1,
                im@ == tick_cols_spec(base_tc, w, h, (i - 1) as nat),
            decreases ntc - i,
        {
            proof {
                lemma_grid_row_in_range(w, TICK_SP as int, i as int, ntc as int);
            }
            self.render_vline(x2 + i * TICK_SP, ya, yb, im);
            self.render_vline(x2 - i * TICK_SP, ya, yb, im);
            i = i + 1;
        }
        proof {
            assert((i - 1) as nat == side_count_spec(w / 2, TICK_SP as int) as nat);
        }
    }
}

/// A grid or tick line at offset `i * sp` from the centre of an axis of
/// length `d` stays strictly inside `[0, d)` on both sides.
proof fn lemma_grid_row_in_range(d: int, sp: int, i: int, n: int)
    requires
        0 < d,
        0 < sp,
        n == (d / 2 + sp - 1) / sp,
        1 <= i < n,
    ensures
        0 <= d / 2 - i * sp,
        d / 2 + i * sp < d,
        i * sp < d / 2,
{
    let c = d / 2;
    vstd::arithmetic::div_mod::lemma_fundamental_div_mod(c + sp - 1, sp);
    assert(i <= n - 1);
    assert((n - 1) * sp <= c - 1) by (nonlinear_arith)
        requires
            c + sp - 1 == sp * n + (c + sp - 1) % sp,
            0 <= (c + sp - 1) % sp < sp,
            0 < sp,
    ;
    assert(i * sp <= (n - 1) * sp) by (nonlinear_arith)
        requires
            i <= n - 1,
            0 < sp,
            1 <= i,
    ;
    assert(0 <= i * sp) by (nonlinear_arith)
        requires
            1 <= i,
            0 < sp,
    ;
    assert(2 * (d / 2) <= d) by {
        vstd::arithmetic::div_mod::lemma_fundamental_div_mod(d, 2);
    }
}

} // verus!
