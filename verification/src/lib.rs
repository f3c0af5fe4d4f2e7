//! An analog-oscilloscope style waveform renderer.
//!
//! A stream of samples is rendered onto a persistent-glow raster buffer:
//! the simulated beam brightens the phosphor where it passes and the glow
//! decays exponentially over time.  All intensities, coordinates and
//! amplitudes are Q16.16 fixed-point values held in `i64` (65536 represents
//! 1.0), so that every arithmetic step has an exact integer meaning that the
//! contracts can state and the verifier can check.

pub mod fx;
pub mod approx;
pub mod scope;
pub mod image;
pub mod laws;
