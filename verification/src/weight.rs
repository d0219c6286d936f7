//! Gaussian smoothing weights over horizontal-distance offsets.
//!
//! A sample's weight is a zero-mean Gaussian kernel of its distance from
//! the window midpoint: `1 / sqrt(pi * 2 sigma) * exp(-offset^2 / (2
//! sigma)^2)`, evaluated in fixed point through an integer square root and
//! an exponential with argument reduction: whole e-foldings come from
//! repeated multiplication by one over Euler's number, the fractional
//! remainder from the reciprocal of the exponential series. When the
//! smoothing factor lies under the tolerance, smoothing is disabled and
//! every sample gets the unit weight; the Gaussian is then never
//! evaluated.
use vstd::prelude::*;
use vstd::arithmetic::div_mod::{
    lemma_div_by_multiple, lemma_div_is_ordered, lemma_div_is_ordered_by_denominator,
    lemma_div_multiples_vanish, lemma_div_of0, lemma_div_pos_is_pos,
};

verus! {

/// Smoothing factors under this tolerance, in `SCALE` ticks, disable the
/// Gaussian entirely (one ten-thousandth of a distance unit).
pub const TOLERANCE_FX: i64 = 100;

/// Weight of a sample when smoothing is disabled, in `SCALE` ticks: one.
pub const UNIT_WEIGHT: i64 = 1_000_000;

/// Largest smoothing factor the weighter accepts, in `SCALE` ticks
/// (a machine limit; one million distance units).
pub const SIGMA_FX_MAX: i64 = 1_000_000_000_000;

/// Largest offset magnitude the weighter accepts, in `SCALE` ticks
/// (a machine limit; eight million distance units).
pub const OFFSET_FX_MAX: i64 = 8_000_000_000_000;

/// No weight exceeds this bound, in `SCALE` ticks: forty units, reached
/// only by the Gaussian's peak at the smallest accepted smoothing factor.
pub const WEIGHT_FX_MAX: i64 = 40_000_000;

/// The integer square root: the integer whose square does not exceed the
/// argument while the next square does.
pub open spec fn sqrt_floor(n: int) -> int {
    choose|r: int| 0 <= r && #[trigger] (r * r) <= n && (r + 1) * (r + 1) > n
}

/// An integer square root exists for every nonnegative argument; the
/// returned witness carries its defining bounds.
pub proof fn lemma_sqrt_exists(n: int) -> (r: int)
    requires
        0 <= n,
    ensures
        0 <= r,
        r * r <= n,
        (r + 1) * (r + 1) > n,
    decreases n,
{
    if n == 0 {
        0
    } else {
        let p = lemma_sqrt_exists(n - 1);
        if (p + 1) * (p + 1) <= n {
            assert((p + 2) * (p + 2) > n) by (nonlinear_arith)
                requires
                    0 <= p,
                    (p + 1) * (p + 1) > n - 1,
                    (p + 1) * (p + 1) <= n,
            ;
            p + 1
        } else {
            p
        }
    }
}

/// `sqrt_floor` itself satisfies the square-root bounds.
pub proof fn lemma_sqrt_floor_props(n: int)
    requires
        0 <= n,
    ensures
        0 <= sqrt_floor(n),
        sqrt_floor(n) * sqrt_floor(n) <= n,
        (sqrt_floor(n) + 1) * (sqrt_floor(n) + 1) > n,
{
    let w = lemma_sqrt_exists(n);
    assert(0 <= w && w * w <= n && (w + 1) * (w + 1) > n);
}

/// Two integers satisfying the square-root bounds for the same argument
/// are equal.
pub proof fn lemma_sqrt_unique(n: int, r1: int, r2: int)
    requires
        0 <= r1,
        r1 * r1 <= n,
        (r1 + 1) * (r1 + 1) > n,
        0 <= r2,
        r2 * r2 <= n,
        (r2 + 1) * (r2 + 1) > n,
    ensures
        r1 == r2,
{
    assert(r1 == r2) by (nonlinear_arith)
        requires
            0 <= r1,
            r1 * r1 <= n,
            (r1 + 1) * (r1 + 1) > n,
            0 <= r2,
            r2 * r2 <= n,
            (r2 + 1) * (r2 + 1) > n,
    ;
}

/// Integer square root by bisection.
pub fn isqrt(n: i64) -> (r: i64)
    requires
        0 <= n,
    ensures
        r == sqrt_floor(n as int),
        0 <= r,
        r * r <= n,
        (r + 1) * (r + 1) > n,
{
    let mut lo: i64 = 0;
    let mut hi: i64 = 3_037_000_500;
    proof {
        assert(3_037_000_500int * 3_037_000_500int > 9_223_372_036_854_775_807int)
            by (nonlinear_arith);
    }
    while lo + 1 < hi
        invariant
            0 <= lo < hi <= 3_037_000_500,
            lo * lo <= n,
            hi * hi > n,
            0 <= n <= 9_223_372_036_854_775_807,
        decreases hi - lo,
    {
        let mid: i64 = (((lo + hi) as u64) / 2u64) as i64;
        proof {
            lemma_div_multiples_vanish((lo + 1) as int, 2);
            lemma_div_is_ordered(2 * ((lo + 1) as int), (lo + hi) as int, 2);
            lemma_div_multiples_vanish((hi - 1) as int, 2);
            lemma_div_is_ordered((lo + hi) as int, 2 * ((hi - 1) as int), 2);
            assert(lo + 1 <= mid <= hi - 1);
            assert(0 <= (mid as int) * (mid as int) <= 9_223_372_036_854_775_806int)
                by (nonlinear_arith)
                requires
                    0 <= mid < 3_037_000_500,
            ;
        }
        let mm: i64 = mid * mid;
        if mm <= n {
            lo = mid;
        } else {
            hi = mid;
        }
    }
    proof {
        lemma_sqrt_floor_props(n as int);
        lemma_sqrt_unique(n as int, lo as int, sqrt_floor(n as int));
    }
    lo
}

/// One over Euler's number, in `SCALE` ticks.
pub const INV_E_FX: i64 = 367_879;

/// The exponential of `f` in `[0, 1)`, in `SCALE` ticks: the power series
/// through the eighth power, each power rescaled stepwise.
pub open spec fn exp_series(f: int) -> int {
    let p2 = (f * f) / 1_000_000;
    let p3 = (p2 * f) / 1_000_000;
    let p4 = (p3 * f) / 1_000_000;
    let p5 = (p4 * f) / 1_000_000;
    let p6 = (p5 * f) / 1_000_000;
    let p7 = (p6 * f) / 1_000_000;
    let p8 = (p7 * f) / 1_000_000;
    1_000_000 + f + p2 / 2 + p3 / 6 + p4 / 24 + p5 / 120 + p6 / 720 + p7 / 5040 + p8 / 40320
}

/// The `n`-th power of one over Euler's number, in `SCALE` ticks, by
/// repeated rescaled multiplication; it underflows to zero once the value
/// drops under the fixed-point resolution.
pub open spec fn inv_e_pow(n: nat) -> int
    decreases n,
{
    if n == 0 {
        1_000_000
    } else {
        (inv_e_pow((n - 1) as nat) * 367_879) / 1_000_000
    }
}

/// The exponential of `-q` for nonnegative `q`, in `SCALE` ticks:
/// argument reduction into an integer part, handled by powers of one over
/// Euler's number, and a fractional part, handled by the reciprocal of
/// the exponential series.
pub open spec fn exp_neg(q: int) -> int {
    let n = q / 1_000_000;
    let f = q % 1_000_000;
    (inv_e_pow(n as nat) * (1_000_000_000_000int / exp_series(f))) / 1_000_000
}

/// The Gaussian smoothing weight of an offset, in `SCALE` ticks.
///
/// With `sigma2 = 2 sigma`: the peak factor `1 / sqrt(pi * sigma2)` times
/// the falloff `exp(-offset^2 / sigma2^2)`. Values under one tick round
/// to zero.
pub open spec fn gaussian_weight(offset: int, sigma: int) -> int {
    let sigma2 = 2 * sigma;
    let a = (3_141_593 * sigma2) / 1_000_000;
    let root = sqrt_floor(a * 1_000_000);
    let frac = 1_000_000_000_000int / root;
    let q = (offset * offset * 1_000_000) / (sigma2 * sigma2);
    (frac * exp_neg(q)) / 1_000_000
}

/// Powers of one over Euler's number stay within `[0, 1]`.
pub proof fn lemma_inv_e_pow_props(n: nat)
    ensures
        0 <= inv_e_pow(n) <= 1_000_000,
    decreases n,
{
    if n > 0 {
        lemma_inv_e_pow_props((n - 1) as nat);
        let prev = inv_e_pow((n - 1) as nat);
        lemma_div_pos_is_pos(prev * 367_879, 1_000_000);
        lemma_div_is_ordered(prev * 367_879, 367_879_000_000int, 1_000_000);
    }
}

/// Powers of one over Euler's number never grow with the exponent.
pub proof fn lemma_inv_e_pow_antitone(n1: nat, n2: nat)
    requires
        n1 <= n2,
    ensures
        inv_e_pow(n2) <= inv_e_pow(n1),
    decreases n2,
{
    if n1 < n2 {
        lemma_inv_e_pow_antitone(n1, (n2 - 1) as nat);
        let prev = inv_e_pow((n2 - 1) as nat);
        lemma_inv_e_pow_props((n2 - 1) as nat);
        lemma_div_is_ordered(prev * 367_879, prev * 1_000_000, 1_000_000);
        vstd::arithmetic::div_mod::lemma_div_by_multiple(prev, 1_000_000);
    }
}

/// Once a power of one over Euler's number underflows to zero, every
/// later power is zero too.
pub proof fn lemma_inv_e_pow_zero(k: nat, n: nat)
    requires
        k <= n,
        inv_e_pow(k) == 0,
    ensures
        inv_e_pow(n) == 0,
    decreases n,
{
    if k < n {
        lemma_inv_e_pow_zero(k, (n - 1) as nat);
        assert(0int * 367_879 == 0);
        vstd::arithmetic::div_mod::lemma_div_of0(1_000_000);
    }
}

/// The exponential series stays within `[1, e]` on `[0, 1)`, and so does
/// each rescaled power.
pub proof fn lemma_exp_series_bounds(f: int)
    requires
        0 <= f <= 999_999,
    ensures
        0 <= (f * f) / 1_000_000 <= 999_999,
        0 <= ((f * f) / 1_000_000 * f) / 1_000_000 <= 999_999,
        1_000_000 <= exp_series(f) <= 2_718_281,
{
    let s = 1_000_000int;
    lemma_unit_mul(f, f);
    let p2 = (f * f) / s;
    lemma_unit_mul(p2, f);
    let p3 = (p2 * f) / s;
    lemma_unit_mul(p3, f);
    let p4 = (p3 * f) / s;
    lemma_unit_mul(p4, f);
    let p5 = (p4 * f) / s;
    lemma_unit_mul(p5, f);
    let p6 = (p5 * f) / s;
    lemma_unit_mul(p6, f);
    let p7 = (p6 * f) / s;
    lemma_unit_mul(p7, f);
    assert(p2 / 2 <= 500_000 && p3 / 6 <= 166_667 && p4 / 24 <= 41_667 && p5 / 120 <= 8_334 && p6
        / 720 <= 1_389 && p7 / 5040 <= 199 && ((p7 * f) / s) / 40320 <= 25 && 0 <= p2 / 2 && 0
        <= p3 / 6 && 0 <= p4 / 24 && 0 <= p5 / 120 && 0 <= p6 / 720 && 0 <= p7 / 5040 && 0 <= ((p7
        * f) / s) / 40320);
}

/// A product of two values under one, rescaled, stays under one.
proof fn lemma_unit_mul(a: int, b: int)
    requires
        0 <= a <= 999_999,
        0 <= b <= 999_999,
    ensures
        0 <= (a * b) / 1_000_000 <= 999_999,
{
    assert(0 <= a * b <= 999_998_000_001int) by (nonlinear_arith)
        requires
            0 <= a <= 999_999,
            0 <= b <= 999_999,
    ;
    lemma_div_pos_is_pos(a * b, 1_000_000);
    lemma_div_is_ordered(a * b, 999_998_000_001int, 1_000_000);
}

/// The exponential series grows with its argument.
pub proof fn lemma_exp_series_monotone(f1: int, f2: int)
    requires
        0 <= f1 <= f2 <= 999_999,
    ensures
        exp_series(f1) <= exp_series(f2),
{
    let s = 1_000_000int;
    lemma_exp_series_bounds(f1);
    lemma_exp_series_bounds(f2);
    let p21 = (f1 * f1) / s;
    let p22 = (f2 * f2) / s;
    assert(f1 * f1 <= f2 * f2) by (nonlinear_arith)
        requires
            0 <= f1 <= f2,
    ;
    lemma_div_is_ordered(f1 * f1, f2 * f2, s);
    lemma_exp_step_monotone(p21, f1, p22, f2);
    let p31 = (p21 * f1) / s;
    let p32 = (p22 * f2) / s;
    lemma_exp_step_monotone(p31, f1, p32, f2);
    let p41 = (p31 * f1) / s;
    let p42 = (p32 * f2) / s;
    lemma_exp_step_monotone(p41, f1, p42, f2);
    let p51 = (p41 * f1) / s;
    let p52 = (p42 * f2) / s;
    lemma_exp_step_monotone(p51, f1, p52, f2);
    let p61 = (p51 * f1) / s;
    let p62 = (p52 * f2) / s;
    lemma_exp_step_monotone(p61, f1, p62, f2);
    let p71 = (p61 * f1) / s;
    let p72 = (p62 * f2) / s;
    lemma_exp_step_monotone(p71, f1, p72, f2);
    let p81 = (p71 * f1) / s;
    let p82 = (p72 * f2) / s;
    lemma_div_is_ordered(p21, p22, 2);
    lemma_div_is_ordered(p31, p32, 6);
    lemma_div_is_ordered(p41, p42, 24);
    lemma_div_is_ordered(p51, p52, 120);
    lemma_div_is_ordered(p61, p62, 720);
    lemma_div_is_ordered(p71, p72, 5040);
    lemma_div_is_ordered(p81, p82, 40320);
}

/// One rescaled-power step preserves ordering.
proof fn lemma_exp_step_monotone(a1: int, f1: int, a2: int, f2: int)
    requires
        0 <= a1 <= a2,
        0 <= f1 <= f2,
    ensures
        (a1 * f1) / 1_000_000 <= (a2 * f2) / 1_000_000,
{
    assert(a1 * f1 <= a2 * f2) by (nonlinear_arith)
        requires
            0 <= a1 <= a2,
            0 <= f1 <= f2,
    ;
    lemma_div_is_ordered(a1 * f1, a2 * f2, 1_000_000);
}

/// The negative exponential stays within `[0, 1]` and is exactly one at
/// zero.
pub proof fn lemma_exp_neg_props(q: int)
    requires
        0 <= q,
    ensures
        0 <= exp_neg(q) <= 1_000_000,
        q == 0 ==> exp_neg(q) == 1_000_000,
{
    let n = q / 1_000_000;
    let f = q % 1_000_000;
    lemma_div_pos_is_pos(q, 1_000_000);
    vstd::arithmetic::div_mod::lemma_mod_division_less_than_divisor(q, 1_000_000);
    lemma_exp_series_bounds(f);
    lemma_inv_e_pow_props(n as nat);
    let ef = 1_000_000_000_000int / exp_series(f);
    lemma_div_pos_is_pos(1_000_000_000_000int, exp_series(f));
    lemma_div_is_ordered_by_denominator(1_000_000_000_000int, 1_000_000, exp_series(f));
    assert(0 <= inv_e_pow(n as nat) * ef <= 1_000_000_000_000int) by (nonlinear_arith)
        requires
            0 <= inv_e_pow(n as nat) <= 1_000_000,
            0 <= ef <= 1_000_000,
    ;
    lemma_div_pos_is_pos(inv_e_pow(n as nat) * ef, 1_000_000);
    lemma_div_is_ordered(inv_e_pow(n as nat) * ef, 1_000_000_000_000int, 1_000_000);
    if q == 0 {
        assert(exp_series(0) == 1_000_000) by {
            assert(0int * 0 == 0);
            vstd::arithmetic::div_mod::lemma_div_of0(1_000_000);
        }
        assert(ef == 1_000_000);
        assert(inv_e_pow(0nat) * 1_000_000 == 1_000_000int * 1_000_000);
        vstd::arithmetic::div_mod::lemma_div_by_multiple(1_000_000int, 1_000_000int);
    }
}

/// The negative exponential never grows with its argument, across both
/// the fractional series and the integer power chain.
pub proof fn lemma_exp_neg_antitone(q1: int, q2: int)
    requires
        0 <= q1 <= q2,
    ensures
        exp_neg(q2) <= exp_neg(q1),
{
    let n1 = q1 / 1_000_000;
    let f1 = q1 % 1_000_000;
    let n2 = q2 / 1_000_000;
    let f2 = q2 % 1_000_000;
    lemma_div_pos_is_pos(q1, 1_000_000);
    lemma_div_is_ordered(q1, q2, 1_000_000);
    vstd::arithmetic::div_mod::lemma_mod_division_less_than_divisor(q1, 1_000_000);
    vstd::arithmetic::div_mod::lemma_mod_division_less_than_divisor(q2, 1_000_000);
    lemma_exp_series_bounds(f1);
    lemma_exp_series_bounds(f2);
    lemma_inv_e_pow_props(n1 as nat);
    lemma_inv_e_pow_props(n2 as nat);
    let ef1 = 1_000_000_000_000int / exp_series(f1);
    let ef2 = 1_000_000_000_000int / exp_series(f2);
    lemma_div_pos_is_pos(1_000_000_000_000int, exp_series(f2));
    lemma_div_is_ordered_by_denominator(1_000_000_000_000int, 1_000_000, exp_series(f1));
    lemma_div_is_ordered_by_denominator(1_000_000_000_000int, 1_000_000, exp_series(f2));
    if n1 == n2 {
        vstd::arithmetic::div_mod::lemma_fundamental_div_mod(q1, 1_000_000);
        vstd::arithmetic::div_mod::lemma_fundamental_div_mod(q2, 1_000_000);
        lemma_exp_series_monotone(f1, f2);
        lemma_div_is_ordered_by_denominator(
            1_000_000_000_000int,
            exp_series(f1),
            exp_series(f2),
        );
        assert(inv_e_pow(n1 as nat) * ef2 <= inv_e_pow(n1 as nat) * ef1) by (nonlinear_arith)
            requires
                0 <= inv_e_pow(n1 as nat),
                0 <= ef2 <= ef1,
        ;
        lemma_div_is_ordered(inv_e_pow(n1 as nat) * ef2, inv_e_pow(n1 as nat) * ef1, 1_000_000);
    } else {
        // The farther argument crosses at least one whole power of one
        // over Euler's number, which dominates any fractional factor.
        lemma_div_is_ordered_by_denominator(1_000_000_000_000int, exp_series(f1), 2_718_281);
        assert(ef1 >= 367_879);
        assert(inv_e_pow(n2 as nat) * ef2 <= inv_e_pow(n2 as nat) * 1_000_000) by (nonlinear_arith)
            requires
                0 <= inv_e_pow(n2 as nat),
                0 <= ef2 <= 1_000_000,
        ;
        lemma_div_is_ordered(inv_e_pow(n2 as nat) * ef2, inv_e_pow(n2 as nat) * 1_000_000, 1_000_000);
        vstd::arithmetic::div_mod::lemma_div_by_multiple(inv_e_pow(n2 as nat), 1_000_000);
        lemma_inv_e_pow_antitone((n1 + 1) as nat, n2 as nat);
        assert(inv_e_pow((n1 + 1) as nat) == (inv_e_pow(n1 as nat) * 367_879) / 1_000_000);
        assert(inv_e_pow(n1 as nat) * 367_879 <= inv_e_pow(n1 as nat) * ef1) by (nonlinear_arith)
            requires
                0 <= inv_e_pow(n1 as nat),
                367_879 <= ef1,
        ;
        lemma_div_is_ordered(inv_e_pow(n1 as nat) * 367_879, inv_e_pow(n1 as nat) * ef1, 1_000_000);
    }
}

/// Gaussian smoothing weight of a horizontal-distance offset.
pub fn gaussian_smooth(offset_fx: i64, sigma_fx: i64) -> (w: i64)
    requires
        TOLERANCE_FX <= sigma_fx <= SIGMA_FX_MAX,
        -OFFSET_FX_MAX <= offset_fx <= OFFSET_FX_MAX,
    ensures
        w == gaussian_weight(offset_fx as int, sigma_fx as int),
        0 <= w <= WEIGHT_FX_MAX,
{
    let sigma2: i64 = 2 * sigma_fx;
    let a: i64 = (((3_141_593u64) * (sigma2 as u64)) / 1_000_000u64) as i64;
    proof {
        lemma_div_pos_is_pos(3_141_593 * (sigma2 as int), 1_000_000);
        lemma_div_is_ordered(3_141_593 * (sigma2 as int), 6_300_000_000_000_000_000int, 1_000_000);
        lemma_div_is_ordered(628_318_600int, 3_141_593 * (sigma2 as int), 1_000_000);
    }
    let root = isqrt(a * 1_000_000);
    proof {
        assert(root >= 25_000) by {
            if root < 25_000 {
                assert((root + 1) * (root + 1) <= 625_000_000) by (nonlinear_arith)
                    requires
                        0 <= root < 25_000,
                ;
            }
        }
        lemma_div_pos_is_pos(1_000_000_000_000int, root as int);
        lemma_div_is_ordered_by_denominator(1_000_000_000_000int, 25_000, root as int);
    }
    let frac: i64 = ((1_000_000_000_000u64) / (root as u64)) as i64;
    let off: i64 = if offset_fx < 0 {
        -offset_fx
    } else {
        offset_fx
    };
    proof {
        assert((offset_fx as int) * (offset_fx as int) == (off as int) * (off as int) && 0 <= (
        off as int) * (off as int) <= 64_000_000_000_000_000_000_000_000int) by (nonlinear_arith)
            requires
                off == if offset_fx < 0 {
                    -(offset_fx as int)
                } else {
                    offset_fx as int
                },
                -8_000_000_000_000 <= offset_fx <= 8_000_000_000_000,
        ;
        assert(40_000 <= (sigma2 as int) * (sigma2 as int) <= 4_000_000_000_000_000_000_000_000int)
            by (nonlinear_arith)
            requires
                200 <= sigma2 <= 2_000_000_000_000,
        ;
    }
    let qnum: u128 = (off as u128) * (off as u128) * 1_000_000u128;
    let qden: u128 = (sigma2 as u128) * (sigma2 as u128);
    let q128: u128 = qnum / qden;
    proof {
        lemma_div_pos_is_pos(qnum as int, qden as int);
        assert((offset_fx as int) * (offset_fx as int) * 1_000_000 == qnum as int)
            by (nonlinear_arith)
            requires
                (offset_fx as int) * (offset_fx as int) == (off as int) * (off as int),
                qnum as int == (off as int) * (off as int) * 1_000_000,
        ;
    }
    let nwhole: u128 = q128 / 1_000_000u128;
    let f: i64 = (q128 % 1_000_000u128) as i64;
    proof {
        lemma_div_pos_is_pos(q128 as int, 1_000_000);
        vstd::arithmetic::div_mod::lemma_mod_division_less_than_divisor(q128 as int, 1_000_000);
        lemma_exp_series_bounds(f as int);
        lemma_inv_e_pow_props(0nat);
    }
    let mut p: i64 = 1_000_000;
    let mut i: u128 = 0;
    while i < nwhole && p > 0
        invariant
            0 <= p <= 1_000_000,
            i <= nwhole,
            p as int == inv_e_pow(i as nat),
        decreases nwhole - i,
    {
        proof {
            lemma_div_pos_is_pos((p as int) * 367_879, 1_000_000);
            lemma_div_is_ordered((p as int) * 367_879, 367_879_000_000int, 1_000_000);
            assert(inv_e_pow((i + 1) as nat) == (inv_e_pow(i as nat) * 367_879) / 1_000_000);
        }
        p = (((p as u64) * (INV_E_FX as u64)) / 1_000_000u64) as i64;
        i = i + 1;
    }
    proof {
        if i < nwhole {
            lemma_inv_e_pow_zero(i as nat, nwhole as nat);
        }
        assert(p as int == inv_e_pow(nwhole as nat));
    }
    let p2: i64 = (((f as u64) * (f as u64)) / 1_000_000u64) as i64;
    proof {
        lemma_unit_mul(f as int, f as int);
    }
    let p3: i64 = (((p2 as u64) * (f as u64)) / 1_000_000u64) as i64;
    proof {
        lemma_unit_mul(p2 as int, f as int);
        lemma_unit_mul(p3 as int, f as int);
    }
    let p4: i64 = (((p3 as u64) * (f as u64)) / 1_000_000u64) as i64;
    proof {
        lemma_unit_mul(p4 as int, f as int);
    }
    let p5: i64 = (((p4 as u64) * (f as u64)) / 1_000_000u64) as i64;
    proof {
        lemma_unit_mul(p5 as int, f as int);
    }
    let p6: i64 = (((p5 as u64) * (f as u64)) / 1_000_000u64) as i64;
    proof {
        lemma_unit_mul(p6 as int, f as int);
    }
    let p7: i64 = (((p6 as u64) * (f as u64)) / 1_000_000u64) as i64;
    proof {
        lemma_unit_mul(p7 as int, f as int);
    }
    let p8: i64 = (((p7 as u64) * (f as u64)) / 1_000_000u64) as i64;
    let es: i64 = 1_000_000 + f + ((p2 as u64) / 2u64) as i64 + ((p3 as u64) / 6u64) as i64 + ((
    p4 as u64) / 24u64) as i64 + ((p5 as u64) / 120u64) as i64 + ((p6 as u64) / 720u64) as i64 + ((
    p7 as u64) / 5040u64) as i64 + ((p8 as u64) / 40320u64) as i64;
    proof {
        assert(es as int == exp_series(f as int));
    }
    let ef: i64 = ((1_000_000_000_000u64) / (es as u64)) as i64;
    proof {
        lemma_div_pos_is_pos(1_000_000_000_000int, es as int);
        lemma_div_is_ordered_by_denominator(1_000_000_000_000int, 1_000_000, es as int);
        assert(0 <= (p as int) * (ef as int) <= 1_000_000_000_000int) by (nonlinear_arith)
            requires
                0 <= p <= 1_000_000,
                0 <= ef <= 1_000_000,
        ;
        lemma_div_pos_is_pos((p as int) * (ef as int), 1_000_000);
        lemma_div_is_ordered((p as int) * (ef as int), 1_000_000_000_000int, 1_000_000);
    }
    let ep: i64 = (((p as u64) * (ef as u64)) / 1_000_000u64) as i64;
    proof {
        assert(ep as int == exp_neg(q128 as int));
        assert(0 <= (frac as int) * (ep as int) <= (frac as int) * 1_000_000) by (nonlinear_arith)
            requires
                0 <= frac,
                0 <= ep <= 1_000_000,
        ;
        assert((frac as int) * 1_000_000 <= 40_000_000_000_000int) by (nonlinear_arith)
            requires
                frac <= 40_000_000,
        ;
        lemma_div_pos_is_pos((frac as int) * (ep as int), 1_000_000);
        lemma_div_is_ordered((frac as int) * (ep as int), (frac as int) * 1_000_000, 1_000_000);
        vstd::arithmetic::div_mod::lemma_div_by_multiple(frac as int, 1_000_000);
    }
    (((frac as u64) * (ep as u64)) / 1_000_000u64) as i64
}

/// The weight is even in the offset: only the offset's square enters the
/// kernel.
pub proof fn lemma_weight_even(offset: int, sigma: int)
    ensures
        gaussian_weight(-offset, sigma) == gaussian_weight(offset, sigma),
{
    assert((-offset) * (-offset) == offset * offset) by (nonlinear_arith);
}

/// The weight never grows past its value at offset zero: the Gaussian
/// peaks at the window midpoint, for every accepted smoothing factor.
pub proof fn lemma_weight_peak(offset: int, sigma: int)
    requires
        100 <= sigma,
    ensures
        0 <= gaussian_weight(offset, sigma),
        gaussian_weight(offset, sigma) <= gaussian_weight(0, sigma),
        gaussian_weight(0, sigma) == 1_000_000_000_000int / sqrt_floor(
            ((3_141_593 * (2 * sigma)) / 1_000_000) * 1_000_000,
        ),
        gaussian_weight(0, sigma) <= WEIGHT_FX_MAX,
{
    let sigma2 = 2 * sigma;
    let a = (3_141_593 * sigma2) / 1_000_000;
    lemma_div_pos_is_pos(3_141_593 * sigma2, 1_000_000);
    lemma_div_is_ordered(628_318_600int, 3_141_593 * sigma2, 1_000_000);
    lemma_sqrt_floor_props(a * 1_000_000);
    let root = sqrt_floor(a * 1_000_000);
    assert(root >= 25_000) by {
        if root < 25_000 {
            assert((root + 1) * (root + 1) <= 625_000_000) by (nonlinear_arith)
                requires
                    0 <= root < 25_000,
            ;
        }
    }
    let frac = 1_000_000_000_000int / root;
    lemma_div_pos_is_pos(1_000_000_000_000int, root);
    lemma_div_is_ordered_by_denominator(1_000_000_000_000int, 25_000, root);
    assert(sigma2 * sigma2 >= 40_000) by (nonlinear_arith)
        requires
            sigma2 >= 200,
    ;
    let q = (offset * offset * 1_000_000) / (sigma2 * sigma2);
    assert(offset * offset * 1_000_000 >= 0) by (nonlinear_arith);
    lemma_div_pos_is_pos(offset * offset * 1_000_000, sigma2 * sigma2);
    lemma_exp_neg_props(q);
    assert(0int * 0 * 1_000_000 == 0) by (nonlinear_arith);
    vstd::arithmetic::div_mod::lemma_div_of0(sigma2 * sigma2);
    lemma_exp_neg_props(0);
    assert(gaussian_weight(0, sigma) == frac) by {
        assert((frac * 1_000_000) / 1_000_000 == frac) by {
            vstd::arithmetic::div_mod::lemma_div_by_multiple(frac, 1_000_000);
        }
    }
    assert(0 <= frac * exp_neg(q) <= frac * 1_000_000) by (nonlinear_arith)
        requires
            0 <= frac,
            0 <= exp_neg(q) <= 1_000_000,
    ;
    lemma_div_pos_is_pos(frac * exp_neg(q), 1_000_000);
    lemma_div_is_ordered(frac * exp_neg(q), frac * 1_000_000, 1_000_000);
    vstd::arithmetic::div_mod::lemma_div_by_multiple(frac, 1_000_000);
}

/// The weight never grows as the offset's magnitude does: the Gaussian
/// falls off monotonically on either side of its peak.
pub proof fn lemma_weight_decays_with_offset(o1: int, o2: int, sigma: int)
    requires
        100 <= sigma,
        0 <= o1 <= o2,
    ensures
        gaussian_weight(o2, sigma) <= gaussian_weight(o1, sigma),
{
    lemma_weight_peak(o1, sigma);
    lemma_weight_peak(o2, sigma);
    let sigma2 = 2 * sigma;
    assert(0 <= o1 * o1 * 1_000_000 <= o2 * o2 * 1_000_000 && 0 < sigma2 * sigma2)
        by (nonlinear_arith)
        requires
            0 <= o1 <= o2,
            sigma2 >= 200,
    ;
    let q1 = (o1 * o1 * 1_000_000) / (sigma2 * sigma2);
    let q2 = (o2 * o2 * 1_000_000) / (sigma2 * sigma2);
    lemma_div_pos_is_pos(o1 * o1 * 1_000_000, sigma2 * sigma2);
    lemma_div_is_ordered(o1 * o1 * 1_000_000, o2 * o2 * 1_000_000, sigma2 * sigma2);
    lemma_exp_neg_antitone(q1, q2);
    let a = (3_141_593 * sigma2) / 1_000_000;
    lemma_div_pos_is_pos(3_141_593 * sigma2, 1_000_000);
    lemma_sqrt_floor_props(a * 1_000_000);
    let root = sqrt_floor(a * 1_000_000);
    lemma_div_is_ordered(628_318_600int, 3_141_593 * sigma2, 1_000_000);
    assert(root >= 1) by {
        if root == 0 {
            assert((root + 1) * (root + 1) == 1) by (nonlinear_arith)
                requires
                    root == 0,
            ;
        }
    }
    let frac = 1_000_000_000_000int / root;
    lemma_div_pos_is_pos(1_000_000_000_000int, root);
    lemma_exp_neg_props(q1);
    lemma_exp_neg_props(q2);
    assert(frac * exp_neg(q2) <= frac * exp_neg(q1)) by (nonlinear_arith)
        requires
            0 <= frac,
            0 <= exp_neg(q2) <= exp_neg(q1),
    ;
    lemma_div_is_ordered(frac * exp_neg(q2), frac * exp_neg(q1), 1_000_000);
}

/// The per-sample weight is nonnegative and never exceeds the weight
/// bound, whether smoothing is enabled or bypassed.
pub proof fn lemma_sample_weight_bounds(offset: int, sigma: int)
    requires
        0 <= sigma,
    ensures
        0 <= sample_weight_spec(offset, sigma) <= WEIGHT_FX_MAX,
{
    if sigma >= 100 {
        lemma_weight_peak(offset, sigma);
    }
}

/// The per-sample weight under a smoothing policy: the unit weight when
/// smoothing is disabled by the tolerance, the Gaussian weight otherwise.
pub open spec fn sample_weight_spec(offset: int, sigma: int) -> int {
    if sigma < 100 {
        1_000_000
    } else {
        gaussian_weight(offset, sigma)
    }
}

/// Weight of one admitted sample at a horizontal-distance offset from the
/// window midpoint.
///
/// The tolerance branch is decided here once per call and short-circuits
/// the Gaussian: under the tolerance the kernel is never evaluated and
/// every sample gets the unit weight.
pub fn sample_weight(offset_fx: i64, sigma_fx: i64) -> (w: i64)
    requires
        0 <= sigma_fx <= SIGMA_FX_MAX,
        -OFFSET_FX_MAX <= offset_fx <= OFFSET_FX_MAX,
    ensures
        w == sample_weight_spec(offset_fx as int, sigma_fx as int),
        0 <= w <= WEIGHT_FX_MAX,
        sigma_fx < TOLERANCE_FX ==> w == UNIT_WEIGHT,
{
    if sigma_fx < TOLERANCE_FX {
        UNIT_WEIGHT
    } else {
        gaussian_smooth(offset_fx, sigma_fx)
    }
}

} // verus!
