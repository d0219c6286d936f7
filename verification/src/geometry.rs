//! Ground-projected range geometry.
//!
//! A beam's slant range is converted to its horizontal component by the
//! sine of the zenith angle: looking at the horizon (zenith of 90 degrees)
//! preserves the full range, looking straight up or down collapses it to
//! zero. Both the distance-window filter and the Gaussian centering use
//! this notion of distance, so "distance" always means horizontal
//! distance.
use vstd::prelude::*;
use vstd::arithmetic::div_mod::{
    lemma_div_by_multiple, lemma_div_pos_is_pos, lemma_multiply_divide_le,
};
use crate::projector::{cos_kernel, cos_quarter, div_floor};

verus! {

/// Largest distance magnitude, in `SCALE` ticks, that the geometry and the
/// accumulator accept (a machine limit; one million distance units).
pub const DIST_FX_MAX: i64 = 1_000_000_000_000;

/// Sine of a zenith angle over the half turn, in `SCALE` ticks: the cosine
/// kernel applied to the angular distance from the horizon.
pub open spec fn sin_zenith(zen_md: int) -> int {
    if zen_md <= 90_000 {
        cos_kernel(90_000 - zen_md)
    } else {
        cos_kernel(zen_md - 90_000)
    }
}

/// Horizontal distance of a slant range observed at a zenith angle, in
/// `SCALE` ticks: the range scaled by the sine of the zenith angle.
pub open spec fn horizontal_distance(zen_md: int, range_fx: int) -> int {
    (range_fx * sin_zenith(zen_md)) / 1_000_000
}

/// Ground-projected component of a slant range.
///
/// Exact at the horizon and at the vertical: a zenith of 90 degrees
/// returns the range unchanged, a zenith of 0 or 180 degrees returns zero.
pub fn distance_from_zenith_range(zen_md: i64, range_fx: i64) -> (hd: i64)
    requires
        0 <= zen_md <= 180_000,
        0 <= range_fx <= DIST_FX_MAX,
    ensures
        hd == horizontal_distance(zen_md as int, range_fx as int),
        0 <= hd <= range_fx,
        zen_md == 90_000 ==> hd == range_fx,
        zen_md == 0 || zen_md == 180_000 ==> hd == 0,
{
    let t: i64 = if zen_md <= 90_000 {
        90_000 - zen_md
    } else {
        zen_md - 90_000
    };
    let s = cos_quarter(t);
    proof {
        assert(0 <= (range_fx as int) * (s as int) <= (range_fx as int) * 1_000_000)
            by (nonlinear_arith)
            requires
                0 <= range_fx,
                0 <= s <= 1_000_000,
        ;
        assert((range_fx as int) * 1_000_000 <= 1_000_000_000_000_000_000int) by (nonlinear_arith)
            requires
                range_fx <= 1_000_000_000_000,
        ;
    }
    let num: i64 = range_fx * s;
    let hd = div_floor(num, 1_000_000);
    proof {
        lemma_div_pos_is_pos(num as int, 1_000_000);
        lemma_multiply_divide_le(num as int, 1_000_000, range_fx as int);
        if s == 1_000_000 {
            lemma_div_by_multiple(range_fx as int, 1_000_000);
        }
        if s == 0 {
            assert((range_fx as int) * (s as int) == 0) by (nonlinear_arith)
                requires
                    s == 0,
            ;
            vstd::arithmetic::div_mod::lemma_div_of0(1_000_000);
        }
    }
    hd
}

/// The horizontal distance never exceeds the slant range and never drops
/// below zero, whatever the zenith angle.
pub proof fn lemma_horizontal_distance_bounded(zen_md: int, range_fx: int)
    requires
        0 <= zen_md <= 180_000,
        0 <= range_fx,
    ensures
        0 <= horizontal_distance(zen_md, range_fx) <= range_fx,
{
    let t = if zen_md <= 90_000 {
        90_000 - zen_md
    } else {
        zen_md - 90_000
    };
    crate::projector::lemma_cos_kernel_in_range(t);
    let s = sin_zenith(zen_md);
    assert(0 <= range_fx * s <= range_fx * 1_000_000) by (nonlinear_arith)
        requires
            0 <= range_fx,
            0 <= s <= 1_000_000,
    ;
    lemma_div_pos_is_pos(range_fx * s, 1_000_000);
    lemma_multiply_divide_le(range_fx * s, 1_000_000, range_fx);
}

} // verus!
