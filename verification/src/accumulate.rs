//! Windowed accumulation of beam samples into pixel buffers.
//!
//! One accumulator serves one configuration: beams are admitted by hit
//! count and zenith window, projected to a pixel, and their samples binned
//! by horizontal distance; admitted samples add their (possibly weighted)
//! reflectance to the pixel's signal sum, in split mode their smoothing
//! weight to a parallel weight sum, and their number to the pixel's sample
//! count. A beam whose projected index leaves the raster is a task-scoped
//! fault carrying full diagnostic context; it never touches the buffers.
use vstd::prelude::*;
use vstd::arithmetic::div_mod::{lemma_div_is_ordered, lemma_div_pos_is_pos};
use crate::config::{mode_spec, Config, Mode};
use crate::geometry::{distance_from_zenith_range, horizontal_distance, DIST_FX_MAX};
use crate::projector::{
    azimuth_to_column, calculate_x, calculate_y, div_floor, lemma_zenith_to_y_antitone,
    zenith_to_y, AZ_MD_MAX,
};
use crate::raster::{normalize_channel, normalize_channel_exec, MEAN_FX_MAX};
use crate::weight::{
    lemma_sample_weight_bounds, sample_weight, sample_weight_spec, WEIGHT_FX_MAX,
};

verus! {

/// Largest reflectance magnitude a beam sample may carry, in `SCALE`
/// ticks (a machine limit; one thousand intensity units).
pub const REFL_FX_MAX: i64 = 1_000_000_000;

/// Largest per-sample signal contribution, in `SCALE` ticks.
pub const CONTRIB_FX_MAX: i64 = 100_000_000_000;

/// Most samples one accumulator accepts over its lifetime (a machine
/// limit that keeps every pixel sum inside its integer type).
pub const SAMPLES_CAP: u64 = 1_099_511_627_776;

/// One beam record: a pulse direction with its ordered range and
/// reflectance returns.
pub struct BeamSample {
    /// Beam index within the scan.
    pub shot_n: u64,
    /// Azimuth, in millidegrees.
    pub az: i64,
    /// Zenith, in millidegrees.
    pub zen: i64,
    /// Number of hit returns; always the length of the two vectors.
    pub n_hits: u32,
    /// Reflectance of each return, in `SCALE` ticks.
    pub refl: Vec<i64>,
    /// Slant range of each return, in `SCALE` ticks.
    pub r: Vec<i64>,
}

/// A beam the accumulator's arithmetic is defined on: ranges and
/// reflectances run in parallel, the hit count reflects their length, and
/// every value lies in the machine-limited range.
pub open spec fn beam_valid(b: BeamSample) -> bool {
    &&& b.refl@.len() == b.r@.len()
    &&& b.n_hits == b.r@.len()
    &&& -AZ_MD_MAX <= b.az <= AZ_MD_MAX
    &&& forall|i: int| 0 <= i < b.refl@.len() ==> 0 <= #[trigger] b.refl@[i] <= REFL_FX_MAX
    &&& forall|i: int| 0 <= i < b.r@.len() ==> 0 <= #[trigger] b.r@[i] <= DIST_FX_MAX
}

/// A beam is admitted when it hit anything and its zenith lies in the
/// half-open zenith window.
pub open spec fn admit_beam(c: Config, b: BeamSample) -> bool {
    b.n_hits > 0 && c.zen_min <= b.zen < c.zen_max
}

/// Raster column an admitted beam projects to.
pub open spec fn beam_col(c: Config, b: BeamSample) -> int {
    azimuth_to_column(c.x_size as int, b.az as int)
}

/// Raster row an admitted beam projects to: rows count down from the top
/// edge, so the vertical offset above the bottom edge is subtracted from
/// the last row.
pub open spec fn beam_row(c: Config, b: BeamSample) -> int {
    c.y_size - 1 - (zenith_to_y(c.x_size as int, b.zen as int) - c.y_bot) / 1000
}

/// Linear pixel index an admitted beam projects to.
pub open spec fn beam_index(c: Config, b: BeamSample) -> int {
    beam_col(c, b) + beam_row(c, b) * c.x_size
}

/// Whether the projected index lies inside the raster.
pub open spec fn index_ok(c: Config, b: BeamSample) -> bool {
    0 <= beam_index(c, b) < c.total_size
}

/// Whether a beam triggers the out-of-bounds fault: it is admitted but
/// projects outside the raster.
pub open spec fn beam_faults(c: Config, b: BeamSample) -> bool {
    admit_beam(c, b) && !index_ok(c, b)
}

/// Diagnostic context of an out-of-bounds projection: the raw angles, the
/// computed column, row and linear index, and the configured bound.
#[derive(Clone, Copy, PartialEq, Eq, Structural, Debug)]
pub struct IndexFault {
    /// Azimuth of the offending beam, in millidegrees.
    pub az: i64,
    /// Zenith of the offending beam, in millidegrees.
    pub zen: i64,
    /// Column the beam projected to.
    pub col: i64,
    /// Row the beam projected to.
    pub row: i64,
    /// Linear index the beam projected to.
    pub index: i64,
    /// Total pixel count of the raster it missed.
    pub total: usize,
}

/// An admitted beam's row always lies inside the raster: the zenith
/// window is contained in the vertical extent the height was derived
/// from. Out-of-bounds indices can only come from the column.
pub proof fn lemma_row_in_range(c: Config, b: BeamSample)
    requires
        c.wf(),
        admit_beam(c, b),
    ensures
        0 <= beam_row(c, b) < c.y_size,
{
    lemma_zenith_to_y_antitone(c.x_size as int, c.zen_min as int, b.zen as int);
    lemma_zenith_to_y_antitone(c.x_size as int, b.zen as int, c.zen_max as int);
    let dy = zenith_to_y(c.x_size as int, b.zen as int) - c.y_bot;
    lemma_div_pos_is_pos(dy, 1000);
    lemma_div_is_ordered(dy, c.y_top - c.y_bot, 1000);
}

/// Horizontal distance of one return of a beam.
pub open spec fn sample_hd(b: BeamSample, i: int) -> int {
    horizontal_distance(b.zen as int, b.r@[i] as int)
}

/// A sample is admitted when its horizontal distance lies in the
/// half-open distance window.
pub open spec fn admit_sample(c: Config, hd: int) -> bool {
    c.dist_min <= hd < c.dist_max
}

/// Smoothing weight of one return of a beam, centered on the window
/// midpoint.
pub open spec fn sample_w(c: Config, b: BeamSample, i: int) -> int {
    sample_weight_spec(sample_hd(b, i) - c.dist_mid, c.sigma as int)
}

/// What one admitted return adds to its pixel's signal sum: raw
/// reflectance in the unweighted and split modes, reflectance scaled by
/// the smoothing weight in the weighted mode.
pub open spec fn signal_contrib(c: Config, b: BeamSample, i: int) -> int {
    match mode_spec(c) {
        Mode::Unweighted => b.refl@[i] as int,
        Mode::Weighted => ((b.refl@[i] as int) * sample_w(c, b, i)) / 1_000_000,
        Mode::Split => b.refl@[i] as int,
    }
}

/// Signal added to the beam's pixel by its first `k` returns.
pub open spec fn beam_signal_sum(c: Config, b: BeamSample, k: int) -> int
    decreases
            if k >= 0 {
                k
            } else {
                0
            },
{
    if k <= 0 {
        0
    } else {
        beam_signal_sum(c, b, k - 1) + if admit_sample(c, sample_hd(b, k - 1)) {
            signal_contrib(c, b, k - 1)
        } else {
            0
        }
    }
}

/// Weight added to the beam's pixel by its first `k` returns (used by the
/// split mode's weight channel).
pub open spec fn beam_weight_sum(c: Config, b: BeamSample, k: int) -> int
    decreases
            if k >= 0 {
                k
            } else {
                0
            },
{
    if k <= 0 {
        0
    } else {
        beam_weight_sum(c, b, k - 1) + if admit_sample(c, sample_hd(b, k - 1)) {
            sample_w(c, b, k - 1)
        } else {
            0
        }
    }
}

/// Number of admitted returns among the beam's first `k`.
pub open spec fn beam_count(c: Config, b: BeamSample, k: int) -> int
    decreases
            if k >= 0 {
                k
            } else {
                0
            },
{
    if k <= 0 {
        0
    } else {
        beam_count(c, b, k - 1) + if admit_sample(c, sample_hd(b, k - 1)) {
            1int
        } else {
            0
        }
    }
}

/// Every admitted return contributes a bounded, nonnegative amount to
/// each channel.
pub proof fn lemma_contrib_bounds(c: Config, b: BeamSample, i: int)
    requires
        c.wf(),
        beam_valid(b),
        admit_beam(c, b),
        0 <= i < b.r@.len(),
    ensures
        0 <= sample_w(c, b, i) <= WEIGHT_FX_MAX,
        0 <= signal_contrib(c, b, i) <= CONTRIB_FX_MAX,
{
    crate::geometry::lemma_horizontal_distance_bounded(b.zen as int, b.r@[i] as int);
    lemma_sample_weight_bounds(sample_hd(b, i) - c.dist_mid, c.sigma as int);
    let refl = b.refl@[i] as int;
    let w = sample_w(c, b, i);
    if mode_spec(c) == Mode::Weighted {
        assert(0 <= refl * w <= 40_000_000_000_000_000int) by (nonlinear_arith)
            requires
                0 <= refl <= 1_000_000_000,
                0 <= w <= 40_000_000,
        ;
        lemma_div_pos_is_pos(refl * w, 1_000_000);
        lemma_div_is_ordered(refl * w, 40_000_000_000_000_000int, 1_000_000);
    }
}

/// The per-beam channel sums stay within the per-sample bounds times the
/// admitted count.
pub proof fn lemma_beam_sums_bounds(c: Config, b: BeamSample, k: int)
    requires
        c.wf(),
        beam_valid(b),
        admit_beam(c, b),
        0 <= k <= b.r@.len(),
    ensures
        0 <= beam_count(c, b, k) <= k,
        0 <= beam_signal_sum(c, b, k) <= beam_count(c, b, k) * CONTRIB_FX_MAX,
        0 <= beam_weight_sum(c, b, k) <= beam_count(c, b, k) * (WEIGHT_FX_MAX as int),
    decreases k,
{
    if k > 0 {
        lemma_beam_sums_bounds(c, b, k - 1);
        lemma_contrib_bounds(c, b, k - 1);
    }
}

/// Task-local pixel buffers for one accumulation pass: a signal sum, a
/// sample count and (in split mode) a weight sum per pixel.
pub struct PixelAccumulator {
    /// The configuration this pass serves.
    pub cfg: Config,
    /// Per-pixel signal sums, in `SCALE` ticks.
    pub signal: Vec<i128>,
    /// Per-pixel weight sums, in `SCALE` ticks; empty outside split mode.
    pub weight: Vec<i128>,
    /// Per-pixel admitted-sample counts.
    pub count: Vec<u64>,
    /// Samples offered so far, admitted or not.
    pub samples_seen: u64,
}

impl PixelAccumulator {
    /// The signal sums as mathematical integers.
    pub open spec fn sig_model(self) -> Seq<int> {
        self.signal@.map_values(|v: i128| v as int)
    }

    /// The weight sums as mathematical integers.
    pub open spec fn w_model(self) -> Seq<int> {
        self.weight@.map_values(|v: i128| v as int)
    }

    /// The sample counts as mathematical integers.
    pub open spec fn cnt_model(self) -> Seq<int> {
        self.count@.map_values(|v: u64| v as int)
    }

    /// The accumulator's invariant: buffer lengths match the raster, and
    /// every pixel's sums are nonnegative and bounded by its count times
    /// the per-sample bounds.
    pub open spec fn inv(self) -> bool {
        &&& self.cfg.wf()
        &&& self.signal@.len() == self.cfg.total_size
        &&& self.count@.len() == self.cfg.total_size
        &&& self.weight@.len() == if self.cfg.split {
            self.cfg.total_size as int
        } else {
            0
        }
        &&& self.samples_seen <= SAMPLES_CAP
        &&& forall|j: int|
            0 <= j < self.count@.len() ==> #[trigger] self.count@[j] <= self.samples_seen
        &&& forall|j: int|
            0 <= j < self.signal@.len() ==> 0 <= #[trigger] self.signal@[j] <= self.count@[j] * (
            CONTRIB_FX_MAX as int)
        &&& forall|j: int|
            0 <= j < self.weight@.len() ==> 0 <= #[trigger] self.weight@[j] <= self.count@[j] * (
            WEIGHT_FX_MAX as int)
    }

    /// An empty accumulator for one configuration: every pixel starts
    /// with zero sums and zero samples.
    pub fn new(cfg: Config) -> (a: PixelAccumulator)
        requires
            cfg.wf(),
        ensures
            a.inv(),
            a.cfg == cfg,
            a.samples_seen == 0,
            a.sig_model() =~= Seq::new(cfg.total_size as nat, |j: int| 0int),
            a.cnt_model() =~= Seq::new(cfg.total_size as nat, |j: int| 0int),
            a.w_model() =~= Seq::new(
                if cfg.split {
                    cfg.total_size as nat
                } else {
                    0nat
                },
                |j: int| 0int,
            ),
    {
        let total = cfg.total_size;
        let signal = zero_i128(total);
        let count = zero_u64(total);
        let weight = if cfg.split {
            zero_i128(total)
        } else {
            zero_i128(0)
        };
        let a = PixelAccumulator { cfg, signal, weight, count, samples_seen: 0 };
        proof {
            assert(a.sig_model() =~= Seq::new(total as nat, |j: int| 0int));
            assert(a.cnt_model() =~= Seq::new(total as nat, |j: int| 0int));
            assert(a.w_model() =~= Seq::new(
                if a.cfg.split {
                    total as nat
                } else {
                    0nat
                },
                |j: int| 0int,
            ));
        }
        a
    }

    /// Offer one beam to the accumulator.
    ///
    /// A beam outside the zenith window or without hits changes nothing.
    /// An admitted beam that projects outside the raster is a fault: the
    /// buffers stay untouched and the diagnostic context comes back. An
    /// admitted beam inside the raster adds its admitted samples' sums
    /// and count to exactly its pixel.
    pub fn accumulate_beam(&mut self, b: &BeamSample) -> (res: Result<(), IndexFault>)
        requires
            old(self).inv(),
            beam_valid(*b),
            old(self).samples_seen + b.r@.len() <= SAMPLES_CAP,
        ensures
            final(self).inv(),
            final(self).cfg == old(self).cfg,
            res is Ok <==> !beam_faults(old(self).cfg, *b),
            !admit_beam(old(self).cfg, *b) ==> *final(self) == *old(self),
            beam_faults(old(self).cfg, *b) ==> (*final(self) == *old(self) && (res matches Err(f)
                && f.az == b.az && f.zen == b.zen && f.col == beam_col(old(self).cfg, *b) && f.row
                == beam_row(old(self).cfg, *b) && f.index == beam_index(old(self).cfg, *b)
                && f.total == old(self).cfg.total_size)),
            admit_beam(old(self).cfg, *b) && index_ok(old(self).cfg, *b) ==> {
                let idx = beam_index(old(self).cfg, *b);
                let n = b.r@.len() as int;
                &&& final(self).samples_seen == old(self).samples_seen + b.r@.len()
                &&& final(self).sig_model() == old(self).sig_model().update(
                    idx,
                    old(self).sig_model()[idx] + beam_signal_sum(old(self).cfg, *b, n),
                )
                &&& final(self).cnt_model() == old(self).cnt_model().update(
                    idx,
                    old(self).cnt_model()[idx] + beam_count(old(self).cfg, *b, n),
                )
                &&& final(self).w_model() == if old(self).cfg.split {
                    old(self).w_model().update(
                        idx,
                        old(self).w_model()[idx] + beam_weight_sum(old(self).cfg, *b, n),
                    )
                } else {
                    old(self).w_model()
                }
            },
    {
        if !(b.n_hits > 0 && b.zen >= self.cfg.zen_min && b.zen < self.cfg.zen_max) {
            return Ok(());
        }
        let x_size = self.cfg.x_size;
        let x_milli = calculate_x(x_size, b.az);
        let col = div_floor(x_milli, 1000);
        proof {
            lemma_div_is_ordered(x_milli as int, 6_000_000_000_000int, 1000);
            lemma_div_is_ordered(-6_000_000_000_000int, x_milli as int, 1000);
        }
        let y = calculate_y(x_size, b.zen);
        proof {
            lemma_row_in_range(self.cfg, *b);
        }
        let dy = y - self.cfg.y_bot;
        let row = (self.cfg.y_size as i64) - 1 - div_floor(dy, 1000);
        proof {
            assert(0 <= row * (x_size as int) <= 2_320_001_000_000_000int) by (nonlinear_arith)
                requires
                    0 <= row <= 2_320_001,
                    0 < x_size <= 1_000_000,
            ;
        }
        let index: i64 = col + row * (x_size as i64);
        if index < 0 || index >= self.cfg.total_size as i64 {
            return Err(
                IndexFault {
                    az: b.az,
                    zen: b.zen,
                    col,
                    row,
                    index,
                    total: self.cfg.total_size,
                },
            );
        }
        let idx = index as usize;
        let dist_min = self.cfg.dist_min;
        let dist_max = self.cfg.dist_max;
        let dist_mid = self.cfg.dist_mid;
        let sigma = self.cfg.sigma;
        let mode = self.cfg.mode();
        let n = b.r.len();
        let mut k: usize = 0;
        let mut sig_add: i128 = 0;
        let mut w_add: i128 = 0;
        let mut cnt_add: u64 = 0;
        while k < n
            invariant
                self.cfg.wf(),
                beam_valid(*b),
                admit_beam(self.cfg, *b),
                n == b.r@.len(),
                n <= SAMPLES_CAP,
                dist_min == self.cfg.dist_min,
                dist_max == self.cfg.dist_max,
                dist_mid == self.cfg.dist_mid,
                sigma == self.cfg.sigma,
                mode == mode_spec(self.cfg),
                0 <= k <= n,
                cnt_add == beam_count(self.cfg, *b, k as int),
                sig_add == beam_signal_sum(self.cfg, *b, k as int),
                self.cfg.split ==> w_add == beam_weight_sum(self.cfg, *b, k as int),
                cnt_add <= k,
            decreases n - k,
        {
            proof {
                lemma_beam_sums_bounds(self.cfg, *b, k as int);
                lemma_beam_sums_bounds(self.cfg, *b, k as int + 1);
                lemma_contrib_bounds(self.cfg, *b, k as int);
            }
            let hd = distance_from_zenith_range(b.zen, b.r[k]);
            if hd >= dist_min && hd < dist_max {
                match mode {
                    Mode::Unweighted => {
                        sig_add = sig_add + (b.refl[k] as i128);
                    },
                    Mode::Weighted => {
                        let w = sample_weight(hd - dist_mid, sigma);
                        proof {
                            assert(0 <= (b.refl@[k as int] as int) * (w as int)
                                <= 40_000_000_000_000_000int) by (nonlinear_arith)
                                requires
                                    0 <= b.refl@[k as int] <= 1_000_000_000,
                                    0 <= w <= 40_000_000,
                            ;
                        }
                        let scaled: u64 = ((b.refl[k] as u64) * (w as u64)) / 1_000_000u64;
                        sig_add = sig_add + (scaled as i128);
                    },
                    Mode::Split => {
                        let w = sample_weight(hd - dist_mid, sigma);
                        sig_add = sig_add + (b.refl[k] as i128);
                        w_add = w_add + (w as i128);
                    },
                }
                cnt_add = cnt_add + 1;
            }
            k = k + 1;
        }
        proof {
            lemma_beam_sums_bounds(self.cfg, *b, n as int);
        }
        self.samples_seen = self.samples_seen + (n as u64);
        let cur_c = self.count[idx];
        self.count[idx] = cur_c + cnt_add;
        let cur_s = self.signal[idx];
        self.signal[idx] = cur_s + sig_add;
        if self.cfg.split {
            let cur_w = self.weight[idx];
            self.weight[idx] = cur_w + w_add;
        }
        proof {
            let c = self.cfg;
            let idxi = idx as int;
            let nn = b.r@.len() as int;
            assert(self.sig_model() =~= old(self).sig_model().update(
                idxi,
                old(self).sig_model()[idxi] + beam_signal_sum(c, *b, nn),
            ));
            assert(self.cnt_model() =~= old(self).cnt_model().update(
                idxi,
                old(self).cnt_model()[idxi] + beam_count(c, *b, nn),
            ));
            if c.split {
                assert(self.w_model() =~= old(self).w_model().update(
                    idxi,
                    old(self).w_model()[idxi] + beam_weight_sum(c, *b, nn),
                ));
            } else {
                assert(self.w_model() =~= old(self).w_model());
            }
        }
        Ok(())
    }
}

/// The finished byte raster(s) of one accumulation pass: the signal
/// channel, and in split mode a weight channel of the same dimensions,
/// each normalized independently of the other.
#[derive(Debug)]
pub struct Rasters {
    /// The normalized signal raster.
    pub signal: Vec<u8>,
    /// The normalized weight raster; present only in split mode.
    pub weight: Option<Vec<u8>>,
}

impl PixelAccumulator {
    /// Normalize the accumulated sums to byte rasters.
    ///
    /// Each channel is normalized independently: the signal raster is a
    /// function of the signal sums and counts alone, the weight raster of
    /// the weight sums and counts alone. Pixels without samples become
    /// zero.
    pub fn finalize(&self) -> (out: Rasters)
        requires
            self.inv(),
        ensures
            out.signal@ == normalize_channel(self.sig_model(), self.cnt_model()),
            out.signal@.len() == self.cfg.total_size,
            self.cfg.split ==> (out.weight matches Some(w) && w@ == normalize_channel(
                self.w_model(),
                self.cnt_model(),
            )),
            !self.cfg.split ==> out.weight is None,
    {
        proof {
            assert forall|j: int| 0 <= j < self.weight@.len() implies 0 <= #[trigger] self.weight@[j]
                <= (self.count@[j] as int) * (MEAN_FX_MAX as int) by {
                assert(self.weight@[j] <= self.count@[j] * (WEIGHT_FX_MAX as int));
            }
        }
        let signal = normalize_channel_exec(&self.signal, &self.count);
        let weight = if self.cfg.split {
            Some(normalize_channel_exec(&self.weight, &self.count))
        } else {
            None
        };
        Rasters { signal, weight }
    }
}

/// Every beam of a batch satisfies the accumulator's validity bounds.
pub open spec fn beams_valid(bs: Seq<BeamSample>) -> bool {
    forall|i: int| 0 <= i < bs.len() ==> beam_valid(#[trigger] bs[i])
}

/// Total number of samples carried by the first `k` beams.
pub open spec fn total_samples(bs: Seq<BeamSample>, k: int) -> int
    decreases
            if k >= 0 {
                k
            } else {
                0
            },
{
    if k <= 0 {
        0
    } else {
        total_samples(bs, k - 1) + bs[k - 1].r@.len()
    }
}

/// The sample total grows with the prefix.
pub proof fn lemma_total_samples_mono(bs: Seq<BeamSample>, k1: int, k2: int)
    requires
        0 <= k1 <= k2,
    ensures
        total_samples(bs, k1) <= total_samples(bs, k2),
    decreases k2,
{
    if k1 < k2 {
        lemma_total_samples_mono(bs, k1, k2 - 1);
    }
}

/// Per-pixel signal sums after the first `k` beams of a batch.
pub open spec fn run_signal(c: Config, bs: Seq<BeamSample>, k: int) -> Seq<int>
    decreases
            if k >= 0 {
                k
            } else {
                0
            },
{
    if k <= 0 {
        Seq::new(c.total_size as nat, |j: int| 0int)
    } else {
        let prev = run_signal(c, bs, k - 1);
        let b = bs[k - 1];
        if admit_beam(c, b) && index_ok(c, b) {
            prev.update(
                beam_index(c, b),
                prev[beam_index(c, b)] + beam_signal_sum(c, b, b.r@.len() as int),
            )
        } else {
            prev
        }
    }
}

/// Per-pixel weight sums after the first `k` beams of a batch.
pub open spec fn run_weight(c: Config, bs: Seq<BeamSample>, k: int) -> Seq<int>
    decreases
            if k >= 0 {
                k
            } else {
                0
            },
{
    if k <= 0 {
        Seq::new(c.total_size as nat, |j: int| 0int)
    } else {
        let prev = run_weight(c, bs, k - 1);
        let b = bs[k - 1];
        if admit_beam(c, b) && index_ok(c, b) {
            prev.update(
                beam_index(c, b),
                prev[beam_index(c, b)] + beam_weight_sum(c, b, b.r@.len() as int),
            )
        } else {
            prev
        }
    }
}

/// Per-pixel sample counts after the first `k` beams of a batch.
pub open spec fn run_count(c: Config, bs: Seq<BeamSample>, k: int) -> Seq<int>
    decreases
            if k >= 0 {
                k
            } else {
                0
            },
{
    if k <= 0 {
        Seq::new(c.total_size as nat, |j: int| 0int)
    } else {
        let prev = run_count(c, bs, k - 1);
        let b = bs[k - 1];
        if admit_beam(c, b) && index_ok(c, b) {
            prev.update(
                beam_index(c, b),
                prev[beam_index(c, b)] + beam_count(c, b, b.r@.len() as int),
            )
        } else {
            prev
        }
    }
}

/// No beam among the first `k` triggers the out-of-bounds fault.
pub open spec fn fault_free_prefix(c: Config, bs: Seq<BeamSample>, k: int) -> bool {
    forall|i: int| 0 <= i < k ==> !beam_faults(c, #[trigger] bs[i])
}

/// The accumulated buffers keep the raster's length over any prefix.
pub proof fn lemma_run_lengths(c: Config, bs: Seq<BeamSample>, k: int)
    requires
        0 <= k,
    ensures
        run_signal(c, bs, k).len() == c.total_size,
        run_weight(c, bs, k).len() == c.total_size,
        run_count(c, bs, k).len() == c.total_size,
    decreases k,
{
    if k > 0 {
        lemma_run_lengths(c, bs, k - 1);
    }
}

/// A pass in which no beam is admitted completes without fault, leaves
/// every pixel's count at zero, and normalizes to an all-zero raster: the
/// undefined-pixel policy, not an error, resolves the empty channels.
pub proof fn lemma_unadmitted_pass_is_all_zero(c: Config, bs: Seq<BeamSample>, k: int)
    requires
        0 <= k,
        forall|i: int| 0 <= i < k ==> !admit_beam(c, #[trigger] bs[i]),
    ensures
        fault_free_prefix(c, bs, k),
        run_count(c, bs, k) =~= Seq::new(c.total_size as nat, |j: int| 0int),
        normalize_channel(run_signal(c, bs, k), run_count(c, bs, k)) =~= Seq::new(
            c.total_size as nat,
            |j: int| 0u8,
        ),
    decreases k,
{
    lemma_run_lengths(c, bs, k);
    if k > 0 {
        lemma_unadmitted_pass_is_all_zero(c, bs, k - 1);
    }
    crate::raster::lemma_empty_channel_all_zero(run_signal(c, bs, k), run_count(c, bs, k));
}

/// Two split-mode configurations that agree on the raster geometry and
/// the admission windows, whatever their smoothing factors.
pub open spec fn same_split_admission(c1: Config, c2: Config) -> bool {
    &&& c1.split
    &&& c2.split
    &&& c1.x_size == c2.x_size
    &&& c1.y_size == c2.y_size
    &&& c1.y_bot == c2.y_bot
    &&& c1.total_size == c2.total_size
    &&& c1.zen_min == c2.zen_min
    &&& c1.zen_max == c2.zen_max
    &&& c1.dist_min == c2.dist_min
    &&& c1.dist_max == c2.dist_max
}

/// In split mode one beam's signal sum and sample count do not depend on
/// the smoothing factor: the signal channel holds raw reflectance.
proof fn lemma_split_beam_sums_eq(c1: Config, c2: Config, b: BeamSample, m: int)
    requires
        same_split_admission(c1, c2),
        0 <= m,
    ensures
        beam_signal_sum(c1, b, m) == beam_signal_sum(c2, b, m),
        beam_count(c1, b, m) == beam_count(c2, b, m),
    decreases m,
{
    if m > 0 {
        lemma_split_beam_sums_eq(c1, c2, b, m - 1);
    }
}

/// In split mode the signal raster is independent of the smoothing
/// factor: driving the weight channel through a different numeric range
/// cannot move a single signal byte, because the signal and count
/// channels, and hence their normalization, coincide.
pub proof fn lemma_split_signal_independent_of_sigma(
    c1: Config,
    c2: Config,
    bs: Seq<BeamSample>,
    k: int,
)
    requires
        same_split_admission(c1, c2),
        0 <= k,
    ensures
        run_signal(c1, bs, k) == run_signal(c2, bs, k),
        run_count(c1, bs, k) == run_count(c2, bs, k),
        fault_free_prefix(c1, bs, k) <==> fault_free_prefix(c2, bs, k),
        normalize_channel(run_signal(c1, bs, k), run_count(c1, bs, k)) == normalize_channel(
            run_signal(c2, bs, k),
            run_count(c2, bs, k),
        ),
    decreases k,
{
    if k > 0 {
        lemma_split_signal_independent_of_sigma(c1, c2, bs, k - 1);
        lemma_split_beam_sums_eq(c1, c2, bs[k - 1], bs[k - 1].r@.len() as int);
        assert(beam_index(c1, bs[k - 1]) == beam_index(c2, bs[k - 1]));
        assert(run_signal(c1, bs, k) =~= run_signal(c2, bs, k));
        assert(run_count(c1, bs, k) =~= run_count(c2, bs, k));
        assert forall|i: int| 0 <= i < k && !beam_faults(c1, #[trigger] bs[i]) implies !beam_faults(
            c2,
            bs[i],
        ) by {}
        assert forall|i: int| 0 <= i < k && !beam_faults(c2, #[trigger] bs[i]) implies !beam_faults(
            c1,
            bs[i],
        ) by {}
    } else {
        assert(run_signal(c1, bs, k) =~= run_signal(c2, bs, k));
        assert(run_count(c1, bs, k) =~= run_count(c2, bs, k));
    }
}

/// One full accumulation pass: drive a batch of beams through one
/// configuration and normalize the result.
///
/// Succeeds exactly when no admitted beam projects outside the raster;
/// the first offending beam's diagnostic context comes back otherwise,
/// and no raster is produced for that pass. On success the signal raster
/// (and in split mode the weight raster) is the independent normalization
/// of the accumulated per-pixel sums over the whole batch.
pub fn process(beams: &Vec<BeamSample>, cfg: Config) -> (res: Result<Rasters, IndexFault>)
    requires
        cfg.wf(),
        beams_valid(beams@),
        total_samples(beams@, beams@.len() as int) <= SAMPLES_CAP,
    ensures
        res is Ok <==> fault_free_prefix(cfg, beams@, beams@.len() as int),
        res matches Ok(out) ==> {
            let n = beams@.len() as int;
            &&& out.signal@ == normalize_channel(run_signal(cfg, beams@, n), run_count(cfg, beams@, n))
            &&& cfg.split ==> (out.weight matches Some(w) && w@ == normalize_channel(
                run_weight(cfg, beams@, n),
                run_count(cfg, beams@, n),
            ))
            &&& !cfg.split ==> out.weight is None
        },
        res matches Err(f) ==> exists|i: int|
            0 <= i < beams@.len() && #[trigger] beam_faults(cfg, beams@[i]) && fault_free_prefix(
                cfg,
                beams@,
                i,
            ) && f.az == beams@[i].az && f.zen == beams@[i].zen && f.col == beam_col(
                cfg,
                beams@[i],
            ) && f.row == beam_row(cfg, beams@[i]) && f.index == beam_index(cfg, beams@[i])
            && f.total == cfg.total_size,
{
    let mut acc = PixelAccumulator::new(cfg);
    let n = beams.len();
    let mut i: usize = 0;
    while i < n
        invariant
            n == beams@.len(),
            acc.inv(),
            acc.cfg == cfg,
            cfg.wf(),
            beams_valid(beams@),
            total_samples(beams@, n as int) <= SAMPLES_CAP,
            i <= n,
            fault_free_prefix(cfg, beams@, i as int),
            acc.samples_seen <= total_samples(beams@, i as int),
            acc.sig_model() == run_signal(cfg, beams@, i as int),
            acc.cnt_model() == run_count(cfg, beams@, i as int),
            cfg.split ==> acc.w_model() == run_weight(cfg, beams@, i as int),
        decreases n - i,
    {
        proof {
            lemma_total_samples_mono(beams@, i as int + 1, n as int);
        }
        let res = acc.accumulate_beam(&beams[i]);
        match res {
            Ok(()) => {},
            Err(f) => {
                proof {
                    assert(beam_faults(cfg, beams@[i as int]));
                    assert(!fault_free_prefix(cfg, beams@, beams@.len() as int));
                }
                return Err(f);
            },
        }
        i = i + 1;
    }
    let out = acc.finalize();
    Ok(out)
}

/// A vector of `n` zeros.
fn zero_i128(n: usize) -> (v: Vec<i128>)
    ensures
        v@.len() == n,
        forall|j: int| 0 <= j < n ==> #[trigger] v@[j] == 0,
{
    let mut v: Vec<i128> = Vec::new();
    let mut i: usize = 0;
    while i < n
        invariant
            i <= n,
            v@.len() == i,
            forall|j: int| 0 <= j < i ==> #[trigger] v@[j] == 0,
        decreases n - i,
    {
        v.push(0);
        i = i + 1;
    }
    v
}

/// A vector of `n` zeros.
fn zero_u64(n: usize) -> (v: Vec<u64>)
    ensures
        v@.len() == n,
        forall|j: int| 0 <= j < n ==> #[trigger] v@[j] == 0,
{
    let mut v: Vec<u64> = Vec::new();
    let mut i: usize = 0;
    while i < n
        invariant
            i <= n,
            v@.len() == i,
            forall|j: int| 0 <= j < i ==> #[trigger] v@[j] == 0,
        decreases n - i,
    {
        v.push(0);
        i = i + 1;
    }
    v
}

} // verus!
