//! Raster window configuration.
//!
//! From user-level parameters (pixel width, zenith bounds, distance
//! bounds, smoothing factor) the full raster geometry is derived once:
//! pixel height, total pixel count, and the distance midpoint the
//! weighter centers on. Height is never supplied directly; it always
//! comes from the zenith bounds through the projector.
use vstd::prelude::*;
use vstd::arithmetic::div_mod::{lemma_div_is_ordered, lemma_div_pos_is_pos};
use crate::geometry::DIST_FX_MAX;
use crate::projector::{calculate_y, div_floor, zenith_to_y, WIDTH_MAX};
use crate::weight::{SIGMA_FX_MAX, TOLERANCE_FX};

verus! {

/// Largest frame count a sweep may request (a machine limit).
pub const FRAMES_MAX: u32 = 1_000_000;

/// Largest total pixel count a raster may hold (a machine limit that
/// keeps linear indices inside `usize` on every platform).
pub const TOTAL_PIXELS_MAX: usize = 0x7fff_ffff;

/// Largest distance-window edge magnitude a derived configuration may
/// hold, in `SCALE` ticks: sweeps can push a window past the user-level
/// distance bound by up to its start distance and half a view width.
pub const WINDOW_FX_MAX: i64 = 4_000_000_000_000;

/// User-level parameters, before any geometry is derived. Angles are
/// millidegrees, distances and the smoothing factor are in `SCALE` ticks.
///
/// A sweep is enabled by a `to_dist` above minus one distance unit; minus
/// one unit exactly is the sentinel for "no sweep".
pub struct Opt {
    /// Azimuth pixel resolution: raster width in pixels.
    pub width: u32,
    /// Lower edge of the horizontal-distance window.
    pub dist_min: i64,
    /// Upper edge of the horizontal-distance window.
    pub dist_max: i64,
    /// Smallest zenith angle admitted, in millidegrees.
    pub zen_min: i64,
    /// Largest zenith angle admitted (exclusive), in millidegrees.
    pub zen_max: i64,
    /// Sweep start distance.
    pub from_dist: i64,
    /// Sweep end distance; above minus one unit enables the sweep.
    pub to_dist: i64,
    /// Number of frames in a sweep.
    pub total_frames: u32,
    /// Width of each frame's distance window.
    pub range_view: i64,
    /// Worker-pool size; zero asks for auto-detection.
    pub n_threads: usize,
    /// Gaussian smoothing factor; under the tolerance smoothing is off.
    pub sigma: i64,
    /// Produce separate signal and weight rasters.
    pub split: bool,
    /// Output identifier (a path, as bytes).
    pub output: Vec<u8>,
}

/// Everything a single accumulation pass needs, derived once per frame.
pub struct Config {
    /// Output identifier for this frame's raster.
    pub output: Vec<u8>,
    /// Lower edge of the horizontal-distance window, in `SCALE` ticks.
    pub dist_min: i64,
    /// Upper edge of the horizontal-distance window, in `SCALE` ticks.
    pub dist_max: i64,
    /// Midpoint of the window, the Gaussian's center.
    pub dist_mid: i64,
    /// Vertical coordinate of the zenith-minimum edge, in milli-pixels.
    pub y_top: i64,
    /// Vertical coordinate of the zenith-maximum edge, in milli-pixels.
    pub y_bot: i64,
    /// Raster width in pixels.
    pub x_size: u32,
    /// Raster height in pixels, derived from the zenith bounds.
    pub y_size: u32,
    /// Total pixel count: exactly width times height.
    pub total_size: usize,
    /// Smallest admitted zenith angle, in millidegrees.
    pub zen_min: i64,
    /// Largest admitted zenith angle (exclusive), in millidegrees.
    pub zen_max: i64,
    /// Gaussian smoothing factor, in `SCALE` ticks.
    pub sigma: i64,
    /// Sweep start distance.
    pub from_dist: i64,
    /// Sweep end distance.
    pub to_dist: i64,
    /// Number of frames in a sweep.
    pub total_frames: u32,
    /// Width of each frame's distance window.
    pub range_view: i64,
    /// Produce separate signal and weight rasters.
    pub split: bool,
}

/// Why a configuration was rejected before any beam was read.
#[derive(Clone, Copy, PartialEq, Eq, Structural, Debug)]
pub enum ConfigError {
    /// A parameter lies outside the domain the engine is defined on.
    InvalidParameter,
    /// The zenith bounds bracket no vertical extent: derived height would
    /// be zero or negative.
    DegenerateHeight,
    /// The derived raster exceeds the addressable pixel count.
    RasterTooLarge,
    /// A sweep was requested with a zero frame count, which would feed a
    /// logarithm when the suffix width is derived.
    ZeroFrames,
}

/// The accumulation mode, resolved once per configuration rather than per
/// sample: separate signal and weight channels, a single Gaussian-weighted
/// channel, or plain unweighted averaging when smoothing is disabled.
#[derive(Clone, Copy, PartialEq, Eq, Structural, Debug)]
pub enum Mode {
    /// One channel, each sample weighted by its reflectance alone.
    Unweighted,
    /// One channel, reflectance scaled by the Gaussian weight.
    Weighted,
    /// Two channels: raw reflectance and the Gaussian weight, normalized
    /// independently.
    Split,
}

/// The user-level parameters the engine is defined on.
pub open spec fn opt_in_domain(opt: Opt) -> bool {
    &&& 0 < opt.width <= WIDTH_MAX
    &&& 0 <= opt.zen_min <= 180_000
    &&& 0 <= opt.zen_max <= 180_000
    &&& -DIST_FX_MAX <= opt.dist_min <= DIST_FX_MAX
    &&& -DIST_FX_MAX <= opt.dist_max <= DIST_FX_MAX
    &&& 0 <= opt.sigma <= SIGMA_FX_MAX
    &&& -DIST_FX_MAX <= opt.from_dist <= DIST_FX_MAX
    &&& -DIST_FX_MAX <= opt.to_dist <= DIST_FX_MAX
    &&& 0 <= opt.range_view <= DIST_FX_MAX
    &&& opt.total_frames <= FRAMES_MAX
}

/// Vertical coordinate of the raster's top edge for these parameters.
pub open spec fn derived_y_top(opt: Opt) -> int {
    zenith_to_y(opt.width as int, opt.zen_min as int)
}

/// Vertical coordinate of the raster's bottom edge for these parameters.
pub open spec fn derived_y_bot(opt: Opt) -> int {
    zenith_to_y(opt.width as int, opt.zen_max as int)
}

/// Pixel height derived from the zenith bounds: the vertical extent in
/// whole pixels, plus one.
pub open spec fn derived_y_size(opt: Opt) -> int {
    (derived_y_top(opt) - derived_y_bot(opt)) / 1000 + 1
}

/// Total pixel count derived from the parameters.
pub open spec fn derived_total(opt: Opt) -> int {
    opt.width * derived_y_size(opt)
}

/// A well-formed configuration: geometry fields agree with what the
/// projector derives from the angular bounds, and every numeric field
/// lies in the range the accumulator's arithmetic is proved for.
pub open spec fn config_wf(c: Config) -> bool {
    &&& 0 < c.x_size <= WIDTH_MAX
    &&& 0 <= c.zen_min <= 180_000
    &&& 0 <= c.zen_max <= 180_000
    &&& c.y_top == zenith_to_y(c.x_size as int, c.zen_min as int)
    &&& c.y_bot == zenith_to_y(c.x_size as int, c.zen_max as int)
    &&& c.y_bot <= c.y_top
    &&& -1_160 * (c.x_size as int) <= c.y_bot
    &&& c.y_top <= 1_160 * (c.x_size as int)
    &&& c.y_size == (c.y_top - c.y_bot) / 1000 + 1
    &&& c.y_size <= 2_320_001
    &&& c.total_size == c.x_size * c.y_size
    &&& c.total_size <= TOTAL_PIXELS_MAX
    &&& -WINDOW_FX_MAX <= c.dist_min <= WINDOW_FX_MAX
    &&& -WINDOW_FX_MAX <= c.dist_max <= WINDOW_FX_MAX
    &&& c.dist_mid == (c.dist_min + c.dist_max) / 2
    &&& 0 <= c.sigma <= SIGMA_FX_MAX
    &&& -DIST_FX_MAX <= c.from_dist <= DIST_FX_MAX
    &&& -DIST_FX_MAX <= c.to_dist <= DIST_FX_MAX
    &&& 0 <= c.range_view <= DIST_FX_MAX
    &&& c.total_frames <= FRAMES_MAX
}

/// The accumulation mode a configuration resolves to.
pub open spec fn mode_spec(c: Config) -> Mode {
    if c.split {
        Mode::Split
    } else if c.sigma < TOLERANCE_FX {
        Mode::Unweighted
    } else {
        Mode::Weighted
    }
}

impl Config {
    /// Whether the derived fields agree with the parameters they came
    /// from; every verified consumer requires this.
    pub open spec fn wf(self) -> bool {
        config_wf(self)
    }

    /// Resolve the accumulation mode for this configuration.
    pub fn mode(&self) -> (m: Mode)
        ensures
            m == mode_spec(*self),
    {
        if self.split {
            Mode::Split
        } else if self.sigma < TOLERANCE_FX {
            Mode::Unweighted
        } else {
            Mode::Weighted
        }
    }

    /// An independent copy of this configuration (frames of a sweep each
    /// own one).
    pub fn duplicate(&self) -> (c: Config)
        ensures
            c.output@ == self.output@,
            c.dist_min == self.dist_min,
            c.dist_max == self.dist_max,
            c.dist_mid == self.dist_mid,
            c.y_top == self.y_top,
            c.y_bot == self.y_bot,
            c.x_size == self.x_size,
            c.y_size == self.y_size,
            c.total_size == self.total_size,
            c.zen_min == self.zen_min,
            c.zen_max == self.zen_max,
            c.sigma == self.sigma,
            c.from_dist == self.from_dist,
            c.to_dist == self.to_dist,
            c.total_frames == self.total_frames,
            c.range_view == self.range_view,
            c.split == self.split,
    {
        Config {
            output: copy_bytes(&self.output),
            dist_min: self.dist_min,
            dist_max: self.dist_max,
            dist_mid: self.dist_mid,
            y_top: self.y_top,
            y_bot: self.y_bot,
            x_size: self.x_size,
            y_size: self.y_size,
            total_size: self.total_size,
            zen_min: self.zen_min,
            zen_max: self.zen_max,
            sigma: self.sigma,
            from_dist: self.from_dist,
            to_dist: self.to_dist,
            total_frames: self.total_frames,
            range_view: self.range_view,
            split: self.split,
        }
    }

    /// Derive the full raster geometry from user-level parameters.
    ///
    /// Rejected are parameters outside the engine's domain, zenith bounds
    /// that bracket no vertical extent (the derived height would not be
    /// positive), and rasters past the addressable pixel count. Nothing
    /// else fails: on every other input the derived configuration is
    /// returned, well-formed, with every parameter carried over.
    pub fn new(opt: &Opt) -> (res: Result<Config, ConfigError>)
        ensures
            res is Ok <==> opt_in_domain(*opt) && derived_y_bot(*opt) <= derived_y_top(*opt)
                && derived_total(*opt) <= TOTAL_PIXELS_MAX,
            !opt_in_domain(*opt) ==> res == Result::<Config, ConfigError>::Err(
                ConfigError::InvalidParameter,
            ),
            opt_in_domain(*opt) && derived_y_top(*opt) < derived_y_bot(*opt) ==> res
                == Result::<Config, ConfigError>::Err(ConfigError::DegenerateHeight),
            opt_in_domain(*opt) && derived_y_bot(*opt) <= derived_y_top(*opt) && derived_total(
                *opt,
            ) > TOTAL_PIXELS_MAX ==> res == Result::<Config, ConfigError>::Err(
                ConfigError::RasterTooLarge,
            ),
            res matches Ok(c) ==> {
                &&& c.wf()
                &&& c.output@ == opt.output@
                &&& c.dist_min == opt.dist_min
                &&& c.dist_max == opt.dist_max
                &&& c.dist_mid == (opt.dist_min + opt.dist_max) as int / 2
                &&& c.y_top == derived_y_top(*opt)
                &&& c.y_bot == derived_y_bot(*opt)
                &&& c.x_size == opt.width
                &&& c.y_size == derived_y_size(*opt)
                &&& c.total_size == derived_total(*opt)
                &&& c.zen_min == opt.zen_min
                &&& c.zen_max == opt.zen_max
                &&& c.sigma == opt.sigma
                &&& c.from_dist == opt.from_dist
                &&& c.to_dist == opt.to_dist
                &&& c.total_frames == opt.total_frames
                &&& c.range_view == opt.range_view
                &&& c.split == opt.split
            },
    {
        if !(0 < opt.width && opt.width <= WIDTH_MAX && 0 <= opt.zen_min && opt.zen_min <= 180_000
            && 0 <= opt.zen_max && opt.zen_max <= 180_000 && -DIST_FX_MAX <= opt.dist_min
            && opt.dist_min <= DIST_FX_MAX && -DIST_FX_MAX <= opt.dist_max && opt.dist_max
            <= DIST_FX_MAX && 0 <= opt.sigma && opt.sigma <= SIGMA_FX_MAX && -DIST_FX_MAX
            <= opt.from_dist && opt.from_dist <= DIST_FX_MAX && -DIST_FX_MAX <= opt.to_dist
            && opt.to_dist <= DIST_FX_MAX && 0 <= opt.range_view && opt.range_view <= DIST_FX_MAX
            && opt.total_frames <= FRAMES_MAX) {
            return Err(ConfigError::InvalidParameter);
        }
        let y_top = calculate_y(opt.width, opt.zen_min);
        let y_bot = calculate_y(opt.width, opt.zen_max);
        if y_top < y_bot {
            return Err(ConfigError::DegenerateHeight);
        }
        let diff: i64 = y_top - y_bot;
        let y_size_whole: i64 = (((diff) as u64) / 1000u64) as i64;
        proof {
            lemma_div_pos_is_pos(diff as int, 1000);
            lemma_div_is_ordered(diff as int, 2_320_000_000int, 1000);
        }
        let y_size: u32 = (y_size_whole + 1) as u32;
        proof {
            assert((opt.width as int) * (y_size as int) <= 3_000_000_000_000int)
                by (nonlinear_arith)
                requires
                    0 < opt.width <= 1_000_000,
                    0 < y_size <= 2_320_001,
            ;
            assert((opt.width as int) * (y_size as int) >= 1) by (nonlinear_arith)
                requires
                    0 < opt.width,
                    0 < y_size,
            ;
        }
        let total: u64 = (opt.width as u64) * (y_size as u64);
        if total > 0x7fff_ffffu64 {
            return Err(ConfigError::RasterTooLarge);
        }
        let dist_mid = div_floor(opt.dist_min + opt.dist_max, 2);
        Ok(
            Config {
                output: copy_bytes(&opt.output),
                dist_min: opt.dist_min,
                dist_max: opt.dist_max,
                dist_mid,
                y_top,
                y_bot,
                x_size: opt.width,
                y_size,
                total_size: total as usize,
                zen_min: opt.zen_min,
                zen_max: opt.zen_max,
                sigma: opt.sigma,
                from_dist: opt.from_dist,
                to_dist: opt.to_dist,
                total_frames: opt.total_frames,
                range_view: opt.range_view,
                split: opt.split,
            },
        )
    }
}

/// A byte-for-byte copy of a byte vector.
pub fn copy_bytes(v: &Vec<u8>) -> (r: Vec<u8>)
    ensures
        r@ == v@,
{
    let mut r: Vec<u8> = Vec::new();
    let mut i: usize = 0;
    while i < v.len()
        invariant
            0 <= i <= v.len(),
            r@ == v@.subrange(0, i as int),
        decreases v.len() - i,
    {
        r.push(v[i]);
        proof {
            assert(r@ =~= v@.subrange(0, i + 1 as int));
        }
        i = i + 1;
    }
    proof {
        assert(r@ =~= v@);
    }
    r
}

/// Number of workers a requested pool size resolves to, given the
/// machine's available parallelism: an explicit request is honored, an
/// automatic request takes the available cores minus one, and the pool is
/// never empty.
pub open spec fn worker_count_spec(requested: int, available: int) -> int {
    if requested > 0 {
        requested
    } else if available >= 2 {
        available - 1
    } else {
        1
    }
}

/// Resolve a requested worker-pool size against the available
/// parallelism.
pub fn effective_workers(requested: usize, available: usize) -> (n: usize)
    requires
        available >= 1,
    ensures
        n == worker_count_spec(requested as int, available as int),
        n >= 1,
{
    if requested > 0 {
        requested
    } else if available >= 2 {
        available - 1
    } else {
        1
    }
}

/// Relies on num_cpus::get: the number of logical cores, at least one by
/// its documentation.
#[verifier::external_body]
fn logical_cores() -> (n: usize)
    ensures
        n >= 1,
{
    num_cpus::get()
}

/// The worker-pool size for a requested size: explicit when given,
/// otherwise detected from the machine's logical core count.
pub fn pool_size(requested: usize) -> (n: usize)
    ensures
        n >= 1,
        requested > 0 ==> n == requested,
{
    let available = logical_cores();
    effective_workers(requested, available)
}

} // verus!
