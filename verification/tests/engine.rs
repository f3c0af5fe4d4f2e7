use scope::approx::{erf_approx, gauss_approx};
use scope::fx::{fx_mul, FX_ONE};
use scope::scope::Scope;

#[test]
fn it_works() {
    assert_eq!(2 + 2, 4);
}

#[test]
fn gauss_peak_is_one() {
    assert_eq!(gauss_approx(0), FX_ONE);
}

#[test]
fn gauss_is_even() {
    for &x in &[1i64, 3300, 16384, 65536, 131072, 400000, 1 << 20, i64::MAX] {
        assert_eq!(gauss_approx(-x), gauss_approx(x));
    }
}

#[test]
fn gauss_decreases_away_from_zero() {
    let points: [i64; 7] = [0, 8192, 16384, 32768, 65536, 131072, 196608];
    let mut prev = gauss_approx(points[0]);
    for &x in &points[1..] {
        let v = gauss_approx(x);
        assert!(v <= prev, "gauss not monotone at {}: {} > {}", x, v, prev);
        prev = v;
    }
}

#[test]
fn gauss_tracks_the_true_gaussian() {
    // stated error band: about 3.2e-3 (~210 raw units), plus a little
    // fixed-point rounding
    for k in 0..=30 {
        let x = k * 6554; // 0.0 to ~3.0 in steps of ~0.1
        let xf = x as f64 / 65536.0;
        let expected = ((-xf * xf).exp() * 65536.0) as i64;
        let got = gauss_approx(x);
        assert!(
            (got - expected).abs() <= 250,
            "gauss({}) = {} but exp gives {}",
            xf,
            got,
            expected
        );
    }
}

#[test]
fn erf_is_odd() {
    for &x in &[1i64, 1000, 32768, 65536, 131072, 300000, 1 << 20] {
        assert_eq!(erf_approx(-x), -erf_approx(x));
    }
}

#[test]
fn erf_approaches_one() {
    // erf(x * sqrt(pi) / 2) -> 1 as x grows; stated band about 1.6e-3
    let v = erf_approx(8 * FX_ONE);
    assert!(v <= FX_ONE);
    assert!(v >= FX_ONE - 110, "erf at domain edge too small: {}", v);
    let w = erf_approx(3 * FX_ONE);
    assert!(w >= FX_ONE - 118, "erf(3) too small: {}", w);
    assert!(erf_approx(-3 * FX_ONE) <= -(FX_ONE - 118));
}

#[test]
fn fade_one_is_a_noop() {
    let mut s = Scope::new(8, 8);
    s.add_dot(4 * FX_ONE, 4 * FX_ONE, FX_ONE, FX_ONE);
    let before: Vec<i64> = (0..8)
        .flat_map(|y| (0..8).map(move |x| (x, y)))
        .map(|(x, y)| s.glow_value(x, y))
        .collect();
    s.fade(FX_ONE);
    let after: Vec<i64> = (0..8)
        .flat_map(|y| (0..8).map(move |x| (x, y)))
        .map(|(x, y)| s.glow_value(x, y))
        .collect();
    assert_eq!(before, after);
}

#[test]
fn fade_zero_darkens_everything() {
    let mut s = Scope::new(8, 8);
    s.add_dot(4 * FX_ONE, 4 * FX_ONE, FX_ONE, FX_ONE);
    assert!(s.glow_value(4, 4) > 0);
    s.fade(0);
    for y in 0..8 {
        for x in 0..8 {
            assert_eq!(s.glow_value(x, y), 0);
        }
    }
}

#[test]
fn fade_composes_multiplicatively() {
    let a: i64 = 50000;
    let b: i64 = 30000;
    let mut s1 = Scope::new(8, 8);
    s1.add_dot(4 * FX_ONE, 4 * FX_ONE, 2 * FX_ONE, 2 * FX_ONE);
    let mut s2 = Scope::new(8, 8);
    s2.add_dot(4 * FX_ONE, 4 * FX_ONE, 2 * FX_ONE, 2 * FX_ONE);
    s1.fade(a);
    s1.fade(b);
    s2.fade(fx_mul(a, b));
    for y in 0..8 {
        for x in 0..8 {
            let v1 = s1.glow_value(x, y);
            let v2 = s2.glow_value(x, y);
            let tol = s2.glow_value(x, y) / 65536 + 3;
            assert!(
                (v1 - v2).abs() <= tol,
                "fade composition off at ({}, {}): {} vs {}",
                x,
                y,
                v1,
                v2
            );
        }
    }
}

#[test]
fn add_dot_deposits_about_pi_times_amp() {
    // total energy of a radius-1 unit dot approaches amp * pi (times one
    // square pixel); the 2.5-radius clip box keeps over 99% of it
    let mut s = Scope::new(16, 16);
    s.add_dot(8 * FX_ONE, 8 * FX_ONE, FX_ONE, FX_ONE);
    let mut sum: i64 = 0;
    for y in 0..16 {
        for x in 0..16 {
            let g = s.glow_value(x, y);
            assert!(g >= 0);
            sum += g;
        }
    }
    let pi_fx = (core::f64::consts::PI * 65536.0) as i64; // 205887
    assert!(sum > pi_fx * 96 / 100, "dot energy too low: {}", sum);
    assert!(sum < pi_fx * 104 / 100, "dot energy too high: {}", sum);
}

#[test]
fn add_dot_strictly_increases_energy() {
    let mut s = Scope::new(16, 16);
    s.add_dot(5 * FX_ONE, 5 * FX_ONE, FX_ONE, 2 * FX_ONE);
    let sum1: i64 = (0..16)
        .flat_map(|y| (0..16).map(move |x| (x, y)))
        .map(|(x, y)| s.glow_value(x, y))
        .sum();
    assert!(sum1 > 0);
    s.add_dot(11 * FX_ONE, 9 * FX_ONE, FX_ONE, FX_ONE);
    let sum2: i64 = (0..16)
        .flat_map(|y| (0..16).map(move |x| (x, y)))
        .map(|(x, y)| s.glow_value(x, y))
        .sum();
    assert!(sum2 > sum1);
}

#[test]
fn dot_outside_buffer_is_a_noop() {
    let mut s = Scope::new(8, 8);
    s.add_dot(-100 * FX_ONE, -100 * FX_ONE, FX_ONE, 4 * FX_ONE);
    s.add_dot(500 * FX_ONE, 3 * FX_ONE, FX_ONE, 4 * FX_ONE);
    for y in 0..8 {
        for x in 0..8 {
            assert_eq!(s.glow_value(x, y), 0);
        }
    }
}

#[test]
fn degenerate_line_equals_dot() {
    let mut s1 = Scope::new(12, 12);
    s1.add_line(0, 0, 0, 0, FX_ONE, 2 * FX_ONE);
    let mut s2 = Scope::new(12, 12);
    s2.add_dot(0, 0, FX_ONE, 2 * FX_ONE);
    for y in 0..12 {
        for x in 0..12 {
            assert_eq!(s1.glow_value(x, y), s2.glow_value(x, y));
        }
    }
}

#[test]
fn line_spreads_energy_along_the_segment() {
    let mut s = Scope::new(32, 16);
    s.add_line(4 * FX_ONE, 8 * FX_ONE, 28 * FX_ONE, 8 * FX_ONE, FX_ONE, 8 * FX_ONE);
    // bright along the row it was drawn on...
    for x in 8..25 {
        assert!(s.glow_value(x, 8) > 0, "no glow at column {}", x);
    }
    // ...and dark far from it
    assert_eq!(s.glow_value(16, 1), 0);
    assert_eq!(s.glow_value(16, 15), 0);
}

#[test]
fn sweep_wraps_exactly_once_and_breaks_the_trace() {
    let mut s = Scope::new(100, 50);
    assert_eq!(s.sweep_rate(), 66);
    // 992 samples: horiz reaches 992 * 66 = 65472, still short of 1.0
    s.provide_samples(&vec![0i64; 992]);
    assert_eq!(s.horiz_pos(), 65472);
    assert!(s.last_point().is_some());
    // the 993rd sample pushes horiz past 1.0: wrap, and the trace breaks
    s.provide_samples(&vec![0i64]);
    assert_eq!(s.horiz_pos(), 2);
    assert!(s.last_point().is_none());
    // the next sample draws nothing and becomes the new last point
    let before = s.glow_value(50, 12);
    s.provide_samples(&vec![FX_ONE]);
    assert_eq!(s.last_point(), Some((200, 0)));
    // the cell only faded (single-sample decay factor): no segment was
    // drawn across the wrap
    assert_eq!(s.glow_value(50, 12), fx_mul(before, 65471));
}

#[test]
fn flat_samples_trace_the_centre_row() {
    let mut s = Scope::new(100, 50);
    s.provide_samples(&vec![0i64; 10]);
    // ten samples advance the sweep by ~0.01 of the width: the glow sits in
    // the first columns of the centre row
    assert!(s.glow_value(0, 25) > FX_ONE);
    assert!(s.glow_value(1, 25) > FX_ONE);
    assert_eq!(s.glow_value(60, 25), 0);
    let im = s.as_rgba();
    assert_eq!(im.len(), 100 * 50 * 4);
    // the trace pixels saturate the tone curves; row 25 is the centre grid
    // line, so each channel is halved once
    for x in [0usize, 1usize] {
        let p = (25 * 100 + x) * 4;
        assert_eq!(&im[p..p + 4], &[32, 127, 112, 255]);
    }
    // off the trace and off the grid: the zero-intensity phosphor tint
    let q = (10 * 100 + 5) * 4;
    assert_eq!(&im[q..q + 4], &[0, 44, 70, 255]);
}

#[test]
fn empty_batch_changes_nothing() {
    let mut s = Scope::new(20, 20);
    s.add_dot(10 * FX_ONE, 10 * FX_ONE, FX_ONE, FX_ONE);
    let before: Vec<i64> = (0..20)
        .flat_map(|y| (0..20).map(move |x| (x, y)))
        .map(|(x, y)| s.glow_value(x, y))
        .collect();
    let h = s.horiz_pos();
    s.provide_samples(&vec![]);
    let after: Vec<i64> = (0..20)
        .flat_map(|y| (0..20).map(move |x| (x, y)))
        .map(|(x, y)| s.glow_value(x, y))
        .collect();
    assert_eq!(before, after);
    assert_eq!(s.horiz_pos(), h);
}

#[test]
fn grid_overlay_halves_center_lines() {
    let s = Scope::new(10, 10);
    let im = s.as_rgba();
    // plain background
    let p = (2 * 10 + 1) * 4;
    assert_eq!(&im[p..p + 4], &[0, 44, 70, 255]);
    // centre row: halved once
    let p = (5 * 10 + 1) * 4;
    assert_eq!(&im[p..p + 4], &[0, 22, 35, 255]);
    // centre column: halved once
    let p = (2 * 10 + 5) * 4;
    assert_eq!(&im[p..p + 4], &[0, 22, 35, 255]);
    // the crossing of both centre lines: halved twice
    let p = (5 * 10 + 5) * 4;
    assert_eq!(&im[p..p + 4], &[0, 11, 17, 255]);
    // alpha is opaque everywhere
    for pix in 0..100 {
        assert_eq!(im[pix * 4 + 3], 255);
    }
}

#[test]
fn as_rgba_is_read_only() {
    let mut s = Scope::new(30, 20);
    s.provide_samples(&vec![0i64; 5]);
    let im1 = s.as_rgba();
    let im2 = s.as_rgba();
    assert_eq!(im1, im2);
}

#[test]
fn add_line_step_approximates_a_line() {
    let mut s = Scope::new(32, 16);
    s.add_line_step(4 * FX_ONE, 8 * FX_ONE, 28 * FX_ONE, 8 * FX_ONE, FX_ONE, 8 * FX_ONE);
    for x in 8..25 {
        assert!(s.glow_value(x, 8) > 0, "no glow at column {}", x);
    }
    assert_eq!(s.glow_value(16, 1), 0);
}
