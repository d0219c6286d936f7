//! Projection, windowed accumulation and frame sequencing for terrestrial
//! laser-scan panoramas.
//!
//! Beam samples arrive as azimuth/zenith angles with slant ranges and
//! reflectance values; the library bins them into a cylindrical raster,
//! optionally restricted to a horizontal-distance window, and normalizes the
//! result to 8-bit intensity. All quantities are fixed-point integers:
//! angles in millidegrees, distances and kernel values scaled by one million.
use vstd::prelude::*;

pub mod accumulate;
pub mod config;
pub mod frames;
pub mod geometry;
pub mod projector;
pub mod raster;
pub mod weight;

verus! {

/// Fixed-point scale used for distances, trigonometric values and weights:
/// one unit of the underlying quantity is `SCALE` ticks.
pub const SCALE: i64 = 1_000_000;

} // verus!
