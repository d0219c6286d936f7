//! Cylindrical projection of beam angles onto raster coordinates.
//!
//! Azimuth maps linearly onto the horizontal axis; zenith maps onto the
//! vertical axis through a Mercator-style stretch (the inverse hyperbolic
//! tangent of the cosine of the zenith angle). Angles are millidegrees,
//! pixel coordinates are milli-pixels, trigonometric values are scaled by
//! `SCALE`.
use vstd::prelude::*;
use vstd::arithmetic::div_mod::{
    lemma_div_is_ordered, lemma_div_is_ordered_by_denominator, lemma_div_multiples_vanish_fancy,
    lemma_div_pos_is_pos, lemma_fundamental_div_mod, lemma_mod_multiples_vanish,
};

verus! {

/// Millidegrees in a half turn.
pub const HALF_TURN_MD: i64 = 180_000;

/// Millidegrees in a full turn.
pub const FULL_TURN_MD: i64 = 360_000;

/// Largest raster width the projector accepts (a machine limit that keeps
/// every intermediate product inside `i64`).
pub const WIDTH_MAX: u32 = 1_000_000;

/// Largest azimuth magnitude, in millidegrees, that the projector accepts
/// (a machine limit; one million degrees of bearing).
pub const AZ_MD_MAX: i64 = 1_000_000_000;

/// Floor division of `a` by a positive divisor `b` (rounds toward negative
/// infinity, as the mathematical quotient in specifications does).
pub fn div_floor(a: i64, b: i64) -> (q: i64)
    requires
        1 <= b <= 4_000_000_000_000_000_000,
        -4_000_000_000_000_000_000 <= a <= 4_000_000_000_000_000_000,
    ensures
        q == a as int / b as int,
{
    if a >= 0 {
        let q = ((a as u64) / (b as u64)) as i64;
        proof {
            lemma_div_pos_is_pos(a as int, b as int);
            lemma_div_is_ordered(a as int, 4_000_000_000_000_000_000int, b as int);
        }
        q
    } else {
        let na = -a;
        let qc = (((na as u64) + ((b - 1) as u64)) / (b as u64)) as i64;
        proof {
            let n = na as int;
            let d = b as int;
            lemma_div_pos_is_pos(n + d - 1, d);
            lemma_div_is_ordered(n + d - 1, 8_000_000_000_000_000_000int, d);
            // (n + d - 1) / d is the least k with k * d >= n, so its negation
            // is the floor of -n / d.
            lemma_fundamental_div_mod(n + d - 1, d);
            vstd::arithmetic::div_mod::lemma_mod_division_less_than_divisor(n + d - 1, d);
            let k = (n + d - 1) / d;
            let rk = (n + d - 1) % d;
            assert(n + d - 1 == d * k + rk);
            assert(0 <= rk < d);
            assert(-n == (-k) * d + (d - 1 - rk)) by (nonlinear_arith)
                requires
                    n + d - 1 == d * k + rk,
            ;
            vstd::arithmetic::div_mod::lemma_fundamental_div_mod_converse(
                -n,
                d,
                -k,
                d - 1 - rk,
            );
        }
        -qc
    }
}

/// Fractional horizontal pixel coordinate of an azimuth, in milli-pixels:
/// the mathematical value `width * (azimuth + 180 degrees) / 360 degrees`
/// pixels, scaled by one thousand and rounded down.
pub open spec fn azimuth_to_x(width: int, az_md: int) -> int {
    (width * (az_md + 180_000)) / 360
}

/// Horizontal pixel coordinate of an azimuth, in milli-pixels.
///
/// The mapping is periodic: a full turn of azimuth advances the result by
/// exactly `width` pixels, so callers must wrap or reject columns outside
/// the raster before indexing.
pub fn calculate_x(width: u32, az_md: i64) -> (x: i64)
    requires
        0 < width <= WIDTH_MAX,
        -AZ_MD_MAX <= az_md <= AZ_MD_MAX,
    ensures
        x == azimuth_to_x(width as int, az_md as int),
        -6_000_000_000_000 <= x <= 6_000_000_000_000,
{
    proof {
        assert(-2_000_000_000_000_000 <= (width as int) * (az_md + 180_000)
            <= 2_000_000_000_000_000) by (nonlinear_arith)
            requires
                0 < width <= 1_000_000,
                -1_000_000_000 <= az_md <= 1_000_000_000,
        ;
    }
    let num: i64 = (width as i64) * (az_md + HALF_TURN_MD);
    let x = div_floor(num, 360);
    proof {
        lemma_div_is_ordered(num as int, 2_000_000_000_000_000int, 360);
        lemma_div_is_ordered(-2_000_000_000_000_000int, num as int, 360);
    }
    x
}

/// Integer raster column of an azimuth: the milli-pixel coordinate scaled
/// down to whole pixels.
pub open spec fn azimuth_to_column(width: int, az_md: int) -> int {
    azimuth_to_x(width, az_md) / 1000
}

/// A full turn of azimuth shifts the horizontal coordinate by exactly the
/// raster width: `azimuth_to_x` is congruent modulo the width (in
/// milli-pixels, modulo one thousand times the width).
pub proof fn lemma_azimuth_periodic(width: int, az_md: int)
    requires
        0 < width,
    ensures
        azimuth_to_x(width, az_md + FULL_TURN_MD) == azimuth_to_x(width, az_md) + 1000 * width,
        azimuth_to_x(width, az_md + FULL_TURN_MD) % (1000 * width) == azimuth_to_x(width, az_md)
            % (1000 * width),
{
    let x = width * (az_md + 180_000);
    assert(width * (az_md + 360_000 + 180_000) == width * (az_md + 180_000) + 360 * (1000
        * width)) by (nonlinear_arith);
    assert((360 * (1000 * width) + x) / 360 == x / 360 + 1000 * width) by {
        lemma_fundamental_div_mod(x, 360);
        vstd::arithmetic::div_mod::lemma_mod_division_less_than_divisor(x, 360);
        let q = x / 360;
        let r = x % 360;
        assert(360 * (1000 * width) + x == 360 * (1000 * width + q) + r) by (nonlinear_arith)
            requires
                x == 360 * q + r,
        ;
        lemma_div_multiples_vanish_fancy(1000 * width + q, r, 360);
    }
    assert(azimuth_to_x(width, az_md + 360_000) == azimuth_to_x(width, az_md) + 1000 * width);
    lemma_mod_multiples_vanish(1, azimuth_to_x(width, az_md), 1000 * width);
    assert(1 * (1000 * width) + azimuth_to_x(width, az_md) == azimuth_to_x(width, az_md + 360_000))
        by (nonlinear_arith)
        requires
            azimuth_to_x(width, az_md + 360_000) == azimuth_to_x(width, az_md) + 1000 * width,
    ;
}

/// On rasters at least 360 pixels wide, the horizontal coordinate grows
/// strictly with azimuth even at millidegree steps: each step advances
/// the exact map by at least one milli-pixel, so the rounding cannot tie.
/// On narrower rasters adjacent millidegrees can share a milli-pixel;
/// only this floor-rounding limits the strictness of the affine map.
pub proof fn lemma_azimuth_strictly_increasing(width: int, az1: int, az2: int)
    requires
        360 <= width,
        az1 < az2,
    ensures
        azimuth_to_x(width, az1) < azimuth_to_x(width, az2),
{
    let x1 = width * (az1 + 180_000);
    let x2 = width * (az2 + 180_000);
    assert(x1 + 360 <= x2) by (nonlinear_arith)
        requires
            360 <= width,
            az1 < az2,
            x1 == width * (az1 + 180_000),
            x2 == width * (az2 + 180_000),
    ;
    assert((x1 + 360) / 360 == x1 / 360 + 1) by {
        lemma_fundamental_div_mod(x1, 360);
        vstd::arithmetic::div_mod::lemma_mod_division_less_than_divisor(x1, 360);
        let q = x1 / 360;
        let r = x1 % 360;
        assert(x1 + 360 == 360 * (q + 1) + r) by (nonlinear_arith)
            requires
                x1 == 360 * q + r,
        ;
        lemma_div_multiples_vanish_fancy(q + 1, r, 360);
    }
    lemma_div_is_ordered(x1 + 360, x2, 360);
}

/// Circle constant (two pi) scaled by `SCALE`.
pub const TAU_FX: i64 = 6_283_185;


/// Numerator of the exact cosine ratio at `t` millidegrees: a quadratic
/// in the squared distance from the quarter turn, vanishing there.
pub open spec fn cos_num(t: int) -> int {
    4_000_000_000_000 * (8_100_000_000 - t * t) + 84 * (8_100_000_000 - t * t) * (8_100_000_000
        - t * t)
}

/// Denominator of the exact cosine ratio at `t` millidegrees: an
/// increasing linear function of the squared angle.
pub open spec fn cos_den(t: int) -> int {
    37_911_240_000_000_000_000_000 + 414_100_000_000 * (t * t)
}

/// Rational approximation of the cosine of `t` millidegrees over the
/// first quarter turn, scaled by `SCALE`. Exact at 0, 60 and 90 degrees
/// by construction, and within two hundred-thousandths of the cosine
/// everywhere between.
pub open spec fn cos_kernel(t: int) -> int {
    (cos_num(t) * 1_000_000) / cos_den(t)
}

/// Cosine of an angle in the first quarter turn, in `SCALE` ticks.
pub fn cos_quarter(t: i64) -> (c: i64)
    requires
        0 <= t <= 90_000,
    ensures
        c == cos_kernel(t as int),
        0 <= c <= 1_000_000,
        t == 0 ==> c == 1_000_000,
        t == 60_000 ==> c == 500_000,
        t == 90_000 ==> c == 0,
{
    proof {
        assert(0 <= (t as int) * (t as int) <= 8_100_000_000) by (nonlinear_arith)
            requires
                0 <= t <= 90_000,
        ;
        if t == 60_000 {
            assert((t as int) * (t as int) == 3_600_000_000) by (nonlinear_arith)
                requires
                    t == 60_000,
            ;
        }
        if t == 0 {
            assert((t as int) * (t as int) == 0) by (nonlinear_arith)
                requires
                    t == 0,
            ;
        }
        if t == 90_000 {
            assert((t as int) * (t as int) == 8_100_000_000) by (nonlinear_arith)
                requires
                    t == 90_000,
            ;
        }
    }
    let v: i64 = t * t;
    let w: i64 = 8_100_000_000 - v;
    proof {
        assert(0 <= 84 * (w as int) * (w as int) <= 5_511_240_000_000_000_000_000int)
            by (nonlinear_arith)
            requires
                0 <= w <= 8_100_000_000,
        ;
    }
    let n: i128 = 4_000_000_000_000i128 * (w as i128) + 84i128 * (w as i128) * (w as i128);
    let den: i128 = 37_911_240_000_000_000_000_000i128 + 414_100_000_000i128 * (v as i128);
    proof {
        lemma_cos_fraction_facts(t as int);
        assert(n as int == cos_num(t as int));
        assert(den as int == cos_den(t as int));
        lemma_div_pos_is_pos(cos_num(t as int) * 1_000_000, cos_den(t as int));
        vstd::arithmetic::div_mod::lemma_multiply_divide_le(
            cos_num(t as int) * 1_000_000,
            cos_den(t as int),
            1_000_000int,
        );
    }
    let c = (((n * 1_000_000) as u128) / (den as u128)) as i64;
    proof {
        if t == 0 {
            assert(4_000_000_000_000 * (8_100_000_000 - 0int * 0) + 84 * (8_100_000_000 - 0int
                * 0) * (8_100_000_000 - 0int * 0) == 37_911_240_000_000_000_000_000int)
                by (nonlinear_arith);
            assert(cos_num(0) == 37_911_240_000_000_000_000_000int);
            assert(cos_den(0) == 37_911_240_000_000_000_000_000int) by (nonlinear_arith);
            assert(cos_kernel(0) == 1_000_000) by {
                vstd::arithmetic::div_mod::lemma_div_by_multiple(
                    1_000_000int,
                    37_911_240_000_000_000_000_000int,
                );
                assert(cos_num(0) * 1_000_000 == 1_000_000int * 37_911_240_000_000_000_000_000int)
                    by (nonlinear_arith)
                    requires
                        cos_num(0) == 37_911_240_000_000_000_000_000int,
                ;
            }
        }
        if t == 60_000 {
            assert(4_000_000_000_000 * (8_100_000_000 - 60_000int * 60_000) + 84 * (8_100_000_000
                - 60_000int * 60_000) * (8_100_000_000 - 60_000int * 60_000)
                == 19_701_000_000_000_000_000_000int) by (nonlinear_arith);
            assert(cos_num(60_000) == 19_701_000_000_000_000_000_000int);
            assert(cos_den(60_000) == 39_402_000_000_000_000_000_000int) by (nonlinear_arith);
            assert(cos_kernel(60_000) == 500_000) by {
                vstd::arithmetic::div_mod::lemma_div_by_multiple(
                    500_000int,
                    39_402_000_000_000_000_000_000int,
                );
                assert(cos_num(60_000) * 1_000_000 == 500_000int
                    * 39_402_000_000_000_000_000_000int) by (nonlinear_arith)
                    requires
                        cos_num(60_000) == 19_701_000_000_000_000_000_000int,
                ;
            }
        }
        if t == 90_000 {
            assert(4_000_000_000_000 * (8_100_000_000 - 90_000int * 90_000) + 84 * (8_100_000_000
                - 90_000int * 90_000) * (8_100_000_000 - 90_000int * 90_000) == 0int)
                by (nonlinear_arith);
            assert(cos_num(90_000) == 0);
            assert(cos_num(90_000) * 1_000_000 == 0) by (nonlinear_arith)
                requires
                    cos_num(90_000) == 0,
            ;
            vstd::arithmetic::div_mod::lemma_div_of0(cos_den(90_000));
        }
    }
    c
}

/// The cosine fraction's parts are nonnegative, bounded, and the
/// numerator never exceeds the denominator.
pub proof fn lemma_cos_fraction_facts(t: int)
    requires
        0 <= t <= 90_000,
    ensures
        0 <= cos_num(t) <= 37_911_240_000_000_000_000_000int,
        37_911_240_000_000_000_000_000int <= cos_den(t) <= 41_265_450_000_000_000_000_000int,
        cos_num(t) * 1_000_000 <= cos_den(t) * 1_000_000,
{
    assert(0 <= cos_num(t) <= 37_911_240_000_000_000_000_000int && 37_911_240_000_000_000_000_000int
        <= cos_den(t) <= 41_265_450_000_000_000_000_000int && cos_num(t) <= cos_den(t))
        by (nonlinear_arith)
        requires
            0 <= t <= 90_000,
            cos_num(t) == 4_000_000_000_000 * (8_100_000_000 - t * t) + 84 * (8_100_000_000 - t
                * t) * (8_100_000_000 - t * t),
            cos_den(t) == 37_911_240_000_000_000_000_000 + 414_100_000_000 * (t * t),
    ;
    assert(cos_num(t) * 1_000_000 <= cos_den(t) * 1_000_000) by (nonlinear_arith)
        requires
            cos_num(t) <= cos_den(t),
    ;
}

/// The cosine kernel stays within `[0, SCALE]` on the first quarter turn.
pub proof fn lemma_cos_kernel_in_range(t: int)
    requires
        0 <= t <= 90_000,
    ensures
        0 <= cos_kernel(t) <= 1_000_000,
{
    lemma_cos_fraction_facts(t);
    lemma_div_pos_is_pos(cos_num(t) * 1_000_000, cos_den(t));
    vstd::arithmetic::div_mod::lemma_multiply_divide_le(
        cos_num(t) * 1_000_000,
        cos_den(t),
        1_000_000int,
    );
}

/// The cosine kernel does not increase on the first quarter turn.
pub proof fn lemma_cos_kernel_antitone(t1: int, t2: int)
    requires
        0 <= t1 <= t2 <= 90_000,
    ensures
        cos_kernel(t1) >= cos_kernel(t2),
{
    lemma_cos_fraction_facts(t1);
    lemma_cos_fraction_facts(t2);
    assert(cos_num(t2) <= cos_num(t1) && cos_den(t1) <= cos_den(t2)) by (nonlinear_arith)
        requires
            0 <= t1 <= t2 <= 90_000,
            cos_num(t1) == 4_000_000_000_000 * (8_100_000_000 - t1 * t1) + 84 * (8_100_000_000 - t1
                * t1) * (8_100_000_000 - t1 * t1),
            cos_num(t2) == 4_000_000_000_000 * (8_100_000_000 - t2 * t2) + 84 * (8_100_000_000 - t2
                * t2) * (8_100_000_000 - t2 * t2),
            cos_den(t1) == 37_911_240_000_000_000_000_000 + 414_100_000_000 * (t1 * t1),
            cos_den(t2) == 37_911_240_000_000_000_000_000 + 414_100_000_000 * (t2 * t2),
    ;
    assert(cos_num(t2) * 1_000_000 <= cos_num(t1) * 1_000_000) by (nonlinear_arith)
        requires
            cos_num(t2) <= cos_num(t1),
    ;
    lemma_div_is_ordered(cos_num(t2) * 1_000_000, cos_num(t1) * 1_000_000, cos_den(t1));
    assert(cos_num(t2) * 1_000_000 >= 0) by (nonlinear_arith)
        requires
            cos_num(t2) >= 0,
    ;
    lemma_div_is_ordered_by_denominator(cos_num(t2) * 1_000_000, cos_den(t1), cos_den(t2));
}

/// The exact rational behind the cosine kernel strictly decreases on the
/// first quarter turn: compared without the final rounding (by cross
/// multiplication), a larger angle gives a strictly smaller cosine.
pub proof fn lemma_cos_ratio_strictly_decreasing(t1: int, t2: int)
    requires
        0 <= t1 < t2 <= 90_000,
    ensures
        cos_num(t1) * cos_den(t2) > cos_num(t2) * cos_den(t1),
{
    lemma_cos_fraction_facts(t1);
    lemma_cos_fraction_facts(t2);
    assert(cos_num(t1) > cos_num(t2) && cos_den(t2) > cos_den(t1)) by (nonlinear_arith)
        requires
            0 <= t1 < t2 <= 90_000,
            cos_num(t1) == 4_000_000_000_000 * (8_100_000_000 - t1 * t1) + 84 * (8_100_000_000 - t1
                * t1) * (8_100_000_000 - t1 * t1),
            cos_num(t2) == 4_000_000_000_000 * (8_100_000_000 - t2 * t2) + 84 * (8_100_000_000 - t2
                * t2) * (8_100_000_000 - t2 * t2),
            cos_den(t1) == 37_911_240_000_000_000_000_000 + 414_100_000_000 * (t1 * t1),
            cos_den(t2) == 37_911_240_000_000_000_000_000 + 414_100_000_000 * (t2 * t2),
    ;
    assert(cos_num(t1) * cos_den(t2) > cos_num(t2) * cos_den(t1)) by (nonlinear_arith)
        requires
            cos_num(t1) > cos_num(t2) >= 0,
            cos_den(t2) > cos_den(t1) >= 1,
    ;
}

/// The exact ratio behind the logarithm argument strictly increases with
/// its argument: compared without rounding (by cross multiplication), a
/// larger cosine gives a strictly larger ratio. Together with the strict
/// decrease of the exact cosine ratio, ties in the executable projection
/// can only come from the fixed-point roundings, never from the
/// mathematical projection.
pub proof fn lemma_atanh_ratio_strictly_increasing(c1: int, c2: int)
    requires
        0 <= c1 < c2 <= 999_999,
    ensures
        (1_000_000 + c1) * (1_000_000 - c2) < (1_000_000 + c2) * (1_000_000 - c1),
{
    assert((1_000_000 + c2) * (1_000_000 - c1) - (1_000_000 + c1) * (1_000_000 - c2) == 2_000_000
        * (c2 - c1)) by (nonlinear_arith);
}

/// The argument of the logarithm behind the inverse hyperbolic tangent of
/// `c` (in `SCALE` ticks): the ratio `(1 + c) / (1 - c)`, in `SCALE`
/// ticks, with `c` clamped just under one where the true stretch
/// diverges.
pub open spec fn atanh_arg(c: int) -> int {
    let cc = if c > 999_999 {
        999_999int
    } else {
        c
    };
    ((1_000_000 + cc) * 1_000_000) / (1_000_000 - cc)
}

/// Mantissa of a logarithm argument: halved until it lies in `[1, 2)`
/// (scale ten million).
pub open spec fn norm_mant(m: int) -> int
    decreases
            if m >= 0 {
                m
            } else {
                0
            },
{
    if m < 20_000_000 {
        m
    } else {
        norm_mant(m / 2)
    }
}

/// Number of halvings that normalization takes.
pub open spec fn norm_shift(m: int) -> int
    decreases
            if m >= 0 {
                m
            } else {
                0
            },
{
    if m < 20_000_000 {
        0
    } else {
        norm_shift(m / 2) + 1
    }
}

/// The series argument for the mantissa's logarithm: `(m - 1) / (m + 1)`
/// at scale ten million, at most one third.
pub open spec fn mant_arg(m: int) -> int {
    ((m - 10_000_000) * 10_000_000) / (m + 10_000_000)
}

/// Logarithm of a mantissa in `[1, 2)` by the odd-power series of the
/// inverse hyperbolic tangent of `(m - 1) / (m + 1)`, scale ten million.
pub open spec fn ln_frac(t: int) -> int {
    let s2 = (t * t) / 10_000_000;
    let p3 = (s2 * t) / 10_000_000;
    let p5 = (p3 * s2) / 10_000_000;
    let p7 = (p5 * s2) / 10_000_000;
    let p9 = (p7 * s2) / 10_000_000;
    2 * (t + p3 / 3 + p5 / 5 + p7 / 7 + p9 / 9)
}

/// Natural logarithm of `m` (scale ten million, `m` at scale ten
/// million): the shift count times the logarithm of two, plus the
/// mantissa's series logarithm.
pub open spec fn ln_fx(m: int) -> int {
    norm_shift(m) * 6_931_472 + ln_frac(mant_arg(norm_mant(m)))
}

/// Inverse hyperbolic tangent of `c` in `[0, 1]` (both in `SCALE`
/// ticks): half the logarithm of `(1 + c) / (1 - c)`, rescaled.
pub open spec fn atanh_fx(c: int) -> int {
    ln_fx(10 * atanh_arg(c)) / 20
}

/// Inverse hyperbolic tangent of a value in `[0, 1]`, in `SCALE` ticks,
/// through the logarithm: the ratio `(1 + c) / (1 - c)` is normalized by
/// halving into `[1, 2)`, the mantissa's logarithm comes from a fast
/// converging series, and the halvings contribute whole logarithms of
/// two. Accurate to a few ticks. The value one itself, where the true
/// stretch diverges, is clamped to one tick under it.
pub fn atanh_unit(c: i64) -> (a: i64)
    requires
        0 <= c <= 1_000_000,
    ensures
        a == atanh_fx(c as int),
        0 <= a <= 7_280_000,
        c == 0 ==> a == 0,
{
    let cc: i64 = if c > 999_999 {
        999_999
    } else {
        c
    };
    let num: i64 = 1_000_000 + cc;
    let den: i64 = 1_000_000 - cc;
    let x: i64 = (((num as u64) * 1_000_000u64) / (den as u64)) as i64;
    proof {
        lemma_div_pos_is_pos((num as int) * 1_000_000, den as int);
        vstd::arithmetic::div_mod::lemma_multiply_divide_le(
            (num as int) * 1_000_000,
            den as int,
            2_000_000_000_000int,
        );
        lemma_div_is_ordered(1_000_000_000_000int, (num as int) * 1_000_000, den as int);
        lemma_div_is_ordered_by_denominator(1_000_000_000_000int, den as int, 1_000_000);
    }
    let mut m: i64 = x * 10;
    let mut k: u32 = 0;
    let ghost m0 = m as int;
    proof {
        vstd::arithmetic::power2::lemma2_to64();
        vstd::arithmetic::div_mod::lemma_div_basics(m0);
    }
    while m >= 20_000_000
        invariant
            10_000_000 <= m,
            10_000_000 <= m0 <= 20_000_000_000_000,
            m as int == m0 / vstd::arithmetic::power2::pow2(k as nat) as int,
            norm_mant(m0) == norm_mant(m as int),
            norm_shift(m0) == norm_shift(m as int) + k,
            k <= 20,
        decreases m,
    {
        proof {
            vstd::arithmetic::power2::lemma2_to64();
            let p = vstd::arithmetic::power2::pow2(k as nat) as int;
            vstd::arithmetic::power2::lemma_pow2_pos(k as nat);
            lemma_fundamental_div_mod(m0, p);
            vstd::arithmetic::div_mod::lemma_mod_division_less_than_divisor(m0, p);
            assert(p * (m as int) <= m0);
            assert(p <= 1_000_000) by (nonlinear_arith)
                requires
                    p * (m as int) <= m0 <= 20_000_000_000_000,
                    m >= 20_000_000,
                    p >= 1,
            ;
            assert(k < 20) by {
                if k >= 20 {
                    if k as nat > 20 {
                        vstd::arithmetic::power2::lemma_pow2_strictly_increases(20, k as nat);
                    }
                }
            }
            vstd::arithmetic::div_mod::lemma_div_denominator(m0, p, 2);
            vstd::arithmetic::power2::lemma_pow2_unfold((k + 1) as nat);
            assert(p * 2 == vstd::arithmetic::power2::pow2((k + 1) as nat));
        }
        m = ((m as u64) / 2u64) as i64;
        k = k + 1;
    }
    proof {
        assert(norm_mant(m0) == m as int);
        assert(norm_shift(m0) == k);
    }
    let t: i64 = ((((m - 10_000_000) as u64) * 10_000_000u64 / ((m + 10_000_000) as u64)) as i64);
    proof {
        lemma_mant_arg_bounds(m as int);
        assert(t as int == mant_arg(m as int));
        assert(0 <= (t as int) * (t as int) <= 11_111_108_888_889int) by (nonlinear_arith)
            requires
                0 <= t <= 3_333_333,
        ;
        lemma_div_pos_is_pos((t as int) * (t as int), 10_000_000);
        lemma_div_is_ordered((t as int) * (t as int), 11_111_108_888_889int, 10_000_000);
    }
    let s2: i64 = (((t as u64) * (t as u64)) / 10_000_000u64) as i64;
    proof {
        assert(0 <= (s2 as int) * (t as int) <= 3_703_699_629_630int) by (nonlinear_arith)
            requires
                0 <= s2 <= 1_111_110,
                0 <= t <= 3_333_333,
        ;
        lemma_div_pos_is_pos((s2 as int) * (t as int), 10_000_000);
        lemma_div_is_ordered((s2 as int) * (t as int), 3_703_699_629_630int, 10_000_000);
    }
    let p3: i64 = (((s2 as u64) * (t as u64)) / 10_000_000u64) as i64;
    proof {
        assert(0 <= (p3 as int) * (s2 as int) <= 411_520_699_590int) by (nonlinear_arith)
            requires
                0 <= p3 <= 370_369,
                0 <= s2 <= 1_111_110,
        ;
        lemma_div_pos_is_pos((p3 as int) * (s2 as int), 10_000_000);
        lemma_div_is_ordered((p3 as int) * (s2 as int), 411_520_699_590int, 10_000_000);
    }
    let p5: i64 = (((p3 as u64) * (s2 as u64)) / 10_000_000u64) as i64;
    proof {
        assert(0 <= (p5 as int) * (s2 as int) <= 45_724_398_720int) by (nonlinear_arith)
            requires
                0 <= p5 <= 41_152,
                0 <= s2 <= 1_111_110,
        ;
        lemma_div_pos_is_pos((p5 as int) * (s2 as int), 10_000_000);
        lemma_div_is_ordered((p5 as int) * (s2 as int), 45_724_398_720int, 10_000_000);
    }
    let p7: i64 = (((p5 as u64) * (s2 as u64)) / 10_000_000u64) as i64;
    proof {
        assert(0 <= (p7 as int) * (s2 as int) <= 5_079_994_920int) by (nonlinear_arith)
            requires
                0 <= p7 <= 4_572,
                0 <= s2 <= 1_111_110,
        ;
        lemma_div_pos_is_pos((p7 as int) * (s2 as int), 10_000_000);
        lemma_div_is_ordered((p7 as int) * (s2 as int), 5_079_994_920int, 10_000_000);
    }
    let p9: i64 = (((p7 as u64) * (s2 as u64)) / 10_000_000u64) as i64;
    proof {
        lemma_ln_frac_bounds(t as int);
    }
    let lnm: i64 = 2 * (t + ((p3 as u64) / 3u64) as i64 + ((p5 as u64) / 5u64) as i64 + ((
    p7 as u64) / 7u64) as i64 + ((p9 as u64) / 9u64) as i64);
    let lnx: i64 = (k as i64) * 6_931_472 + lnm;
    let a: i64 = ((lnx as u64) / 20u64) as i64;
    proof {
        assert(lnx as int == ln_fx(m0));
        lemma_div_pos_is_pos(lnx as int, 20);
        lemma_div_is_ordered(lnx as int, 145_560_912int, 20);
        if c == 0 {
            assert(atanh_arg(0) == 1_000_000) by {
                vstd::arithmetic::div_mod::lemma_div_by_multiple(1_000_000int, 1_000_000int);
                assert((1_000_000int + 0) * 1_000_000 == 1_000_000int * 1_000_000int);
            }
            assert(x == 1_000_000);
            assert(m0 == 10_000_000);
            assert(norm_shift(10_000_000int) == 0);
            assert(norm_mant(10_000_000int) == 10_000_000);
            assert(k == 0 && m == 10_000_000);
            assert(mant_arg(10_000_000int) == 0) by {
                vstd::arithmetic::div_mod::lemma_div_of0(20_000_000);
                assert((10_000_000int - 10_000_000) * 10_000_000 == 0);
            }
            assert(t == 0);
            assert(s2 == 0 && p3 == 0 && p5 == 0 && p7 == 0 && p9 == 0) by {
                vstd::arithmetic::div_mod::lemma_div_of0(10_000_000);
                assert(0int * 0 == 0);
            }
            assert(lnm == 0);
            assert(lnx == 0) by {
                assert(0int * 6_931_472 == 0) by (nonlinear_arith);
            }
        }
    }
    a
}

/// Floor division respects the ordering of exact fractions: when the
/// cross products order two nonnegative fractions, so do their floors.
proof fn lemma_div_frac_ordered(a1: int, b1: int, a2: int, b2: int)
    requires
        0 <= a1,
        1 <= b1,
        1 <= b2,
        a1 * b2 <= a2 * b1,
    ensures
        a1 / b1 <= a2 / b2,
{
    let q = a1 / b1;
    lemma_fundamental_div_mod(a1, b1);
    vstd::arithmetic::div_mod::lemma_mod_division_less_than_divisor(a1, b1);
    lemma_div_pos_is_pos(a1, b1);
    assert(b1 * q <= a1);
    assert(q * b2 <= a2) by (nonlinear_arith)
        requires
            b1 * q <= a1,
            a1 * b2 <= a2 * b1,
            b1 >= 1,
            b2 >= 1,
            q >= 0,
    ;
    vstd::arithmetic::div_mod::lemma_div_by_multiple(q, b2);
    lemma_div_is_ordered(q * b2, a2, b2);
}

/// Normalization lands the mantissa in `[1, 2)` and counts a nonnegative
/// shift.
pub proof fn lemma_norm_props(m: int)
    requires
        m >= 10_000_000,
    ensures
        10_000_000 <= norm_mant(m) < 20_000_000,
        norm_shift(m) >= 0,
    decreases m,
{
    if m >= 20_000_000 {
        lemma_norm_props(m / 2);
    }
}

/// The mantissa's series argument lies in `[0, one third]`.
pub proof fn lemma_mant_arg_bounds(m: int)
    requires
        10_000_000 <= m < 20_000_000,
    ensures
        0 <= mant_arg(m) <= 3_333_333,
{
    assert(0 <= (m - 10_000_000) * 10_000_000) by (nonlinear_arith)
        requires
            m >= 10_000_000,
    ;
    lemma_div_pos_is_pos((m - 10_000_000) * 10_000_000, m + 10_000_000);
    assert((m - 10_000_000) * 10_000_000 < (m + 10_000_000) * 3_333_334) by (nonlinear_arith)
        requires
            10_000_000 <= m <= 19_999_999,
    ;
    vstd::arithmetic::div_mod::lemma_multiply_divide_lt(
        (m - 10_000_000) * 10_000_000,
        m + 10_000_000,
        3_333_334int,
    );
}

/// The mantissa's series argument grows with the mantissa.
proof fn lemma_mant_arg_monotone(m1: int, m2: int)
    requires
        10_000_000 <= m1 <= m2 < 20_000_000,
    ensures
        mant_arg(m1) <= mant_arg(m2),
{
    assert(((m1 - 10_000_000) * 10_000_000) * (m2 + 10_000_000) <= ((m2 - 10_000_000) * 10_000_000)
        * (m1 + 10_000_000)) by (nonlinear_arith)
        requires
            10_000_000 <= m1 <= m2,
    ;
    assert(0 <= (m1 - 10_000_000) * 10_000_000) by (nonlinear_arith)
        requires
            m1 >= 10_000_000,
    ;
    lemma_div_frac_ordered(
        (m1 - 10_000_000) * 10_000_000,
        m1 + 10_000_000,
        (m2 - 10_000_000) * 10_000_000,
        m2 + 10_000_000,
    );
}

/// The mantissa's series logarithm is nonnegative and under the
/// logarithm of two.
pub proof fn lemma_ln_frac_bounds(t: int)
    requires
        0 <= t <= 3_333_333,
    ensures
        0 <= (t * t) / 10_000_000 <= 1_111_110,
        0 <= ((t * t) / 10_000_000 * t) / 10_000_000 <= 370_369,
        0 <= ln_frac(t) <= 6_931_472,
{
    let s = 10_000_000int;
    assert(0 <= t * t <= 11_111_108_888_889int) by (nonlinear_arith)
        requires
            0 <= t <= 3_333_333,
    ;
    lemma_div_pos_is_pos(t * t, s);
    lemma_div_is_ordered(t * t, 11_111_108_888_889int, s);
    let s2 = (t * t) / s;
    assert(0 <= s2 * t <= 3_703_699_629_630int) by (nonlinear_arith)
        requires
            0 <= s2 <= 1_111_110,
            0 <= t <= 3_333_333,
    ;
    lemma_div_pos_is_pos(s2 * t, s);
    lemma_div_is_ordered(s2 * t, 3_703_699_629_630int, s);
    let p3 = (s2 * t) / s;
    assert(0 <= p3 * s2 <= 411_520_699_590int) by (nonlinear_arith)
        requires
            0 <= p3 <= 370_369,
            0 <= s2 <= 1_111_110,
    ;
    lemma_div_pos_is_pos(p3 * s2, s);
    lemma_div_is_ordered(p3 * s2, 411_520_699_590int, s);
    let p5 = (p3 * s2) / s;
    assert(0 <= p5 * s2 <= 45_724_398_720int) by (nonlinear_arith)
        requires
            0 <= p5 <= 41_152,
            0 <= s2 <= 1_111_110,
    ;
    lemma_div_pos_is_pos(p5 * s2, s);
    lemma_div_is_ordered(p5 * s2, 45_724_398_720int, s);
    let p7 = (p5 * s2) / s;
    assert(0 <= p7 * s2 <= 5_079_994_920int) by (nonlinear_arith)
        requires
            0 <= p7 <= 4_572,
            0 <= s2 <= 1_111_110,
    ;
    lemma_div_pos_is_pos(p7 * s2, s);
    lemma_div_is_ordered(p7 * s2, 5_079_994_920int, s);
    let p9 = (p7 * s2) / s;
    assert(p3 / 3 <= 123_456 && p5 / 5 <= 8_230 && p7 / 7 <= 653 && p9 / 9 <= 56 && 0 <= p3 / 3
        && 0 <= p5 / 5 && 0 <= p7 / 7 && 0 <= p9 / 9);
}

/// The mantissa's series logarithm grows with its argument.
proof fn lemma_ln_frac_monotone(t1: int, t2: int)
    requires
        0 <= t1 <= t2 <= 3_333_333,
    ensures
        ln_frac(t1) <= ln_frac(t2),
{
    let s = 10_000_000int;
    lemma_ln_frac_bounds(t1);
    lemma_ln_frac_bounds(t2);
    let s21 = (t1 * t1) / s;
    let s22 = (t2 * t2) / s;
    assert(t1 * t1 <= t2 * t2) by (nonlinear_arith)
        requires
            0 <= t1 <= t2,
    ;
    lemma_div_is_ordered(t1 * t1, t2 * t2, s);
    let p31 = (s21 * t1) / s;
    let p32 = (s22 * t2) / s;
    assert(s21 * t1 <= s22 * t2) by (nonlinear_arith)
        requires
            0 <= s21 <= s22,
            0 <= t1 <= t2,
    ;
    lemma_div_is_ordered(s21 * t1, s22 * t2, s);
    let p51 = (p31 * s21) / s;
    let p52 = (p32 * s22) / s;
    assert(p31 * s21 <= p32 * s22) by (nonlinear_arith)
        requires
            0 <= s21 <= s22,
            0 <= p31 <= p32,
    ;
    lemma_div_is_ordered(p31 * s21, p32 * s22, s);
    let p71 = (p51 * s21) / s;
    let p72 = (p52 * s22) / s;
    assert(p51 * s21 <= p52 * s22) by (nonlinear_arith)
        requires
            0 <= s21 <= s22,
            0 <= p51 <= p52,
    ;
    lemma_div_is_ordered(p51 * s21, p52 * s22, s);
    assert(p71 * s21 <= p72 * s22) by (nonlinear_arith)
        requires
            0 <= s21 <= s22,
            0 <= p71 <= p72,
    ;
    lemma_div_is_ordered(p71 * s21, p72 * s22, s);
    lemma_div_is_ordered(p31, p32, 3);
    lemma_div_is_ordered(p51, p52, 5);
    lemma_div_is_ordered((p51 * s21) / s, (p52 * s22) / s, 7);
    lemma_div_is_ordered((p71 * s21) / s, (p72 * s22) / s, 9);
}

/// The fixed-point logarithm is nonnegative on arguments of at least one.
pub proof fn lemma_ln_fx_nonneg(m: int)
    requires
        m >= 10_000_000,
    ensures
        ln_fx(m) >= 0,
{
    lemma_norm_props(m);
    lemma_mant_arg_bounds(norm_mant(m));
    lemma_ln_frac_bounds(mant_arg(norm_mant(m)));
    assert(norm_shift(m) * 6_931_472 >= 0) by (nonlinear_arith)
        requires
            norm_shift(m) >= 0,
    ;
}

/// The fixed-point logarithm does not decrease as its argument grows.
pub proof fn lemma_ln_fx_monotone(ma: int, mb: int)
    requires
        10_000_000 <= ma <= mb,
    ensures
        ln_fx(ma) <= ln_fx(mb),
    decreases mb,
{
    lemma_norm_props(ma);
    lemma_norm_props(mb);
    if mb < 20_000_000 {
        lemma_mant_arg_bounds(ma);
        lemma_mant_arg_bounds(mb);
        lemma_mant_arg_monotone(ma, mb);
        lemma_ln_frac_monotone(mant_arg(ma), mant_arg(mb));
    } else if ma < 20_000_000 {
        lemma_mant_arg_bounds(ma);
        lemma_ln_frac_bounds(mant_arg(ma));
        lemma_ln_fx_nonneg(mb / 2);
        assert(ln_fx(mb) == ln_fx(mb / 2) + 6_931_472) by {
            assert(norm_shift(mb) == norm_shift(mb / 2) + 1);
            assert(norm_mant(mb) == norm_mant(mb / 2));
            assert((norm_shift(mb / 2) + 1) * 6_931_472 == norm_shift(mb / 2) * 6_931_472
                + 6_931_472) by (nonlinear_arith);
        }
    } else {
        lemma_div_is_ordered(ma, mb, 2);
        lemma_ln_fx_monotone(ma / 2, mb / 2);
        assert(ln_fx(ma) == ln_fx(ma / 2) + 6_931_472) by {
            assert((norm_shift(ma / 2) + 1) * 6_931_472 == norm_shift(ma / 2) * 6_931_472
                + 6_931_472) by (nonlinear_arith);
        }
        assert(ln_fx(mb) == ln_fx(mb / 2) + 6_931_472) by {
            assert((norm_shift(mb / 2) + 1) * 6_931_472 == norm_shift(mb / 2) * 6_931_472
                + 6_931_472) by (nonlinear_arith);
        }
    }
}

/// The logarithm argument is at least one and grows with `c`.
pub proof fn lemma_atanh_arg_props(c: int)
    requires
        0 <= c <= 1_000_000,
    ensures
        1_000_000 <= atanh_arg(c) <= 2_000_000_000_000,
{
    let cc = if c > 999_999 {
        999_999int
    } else {
        c
    };
    lemma_div_is_ordered(1_000_000_000_000int, (1_000_000 + cc) * 1_000_000, 1_000_000 - cc);
    lemma_div_is_ordered_by_denominator(1_000_000_000_000int, 1_000_000 - cc, 1_000_000);
    lemma_div_pos_is_pos((1_000_000 + cc) * 1_000_000, 1_000_000 - cc);
    vstd::arithmetic::div_mod::lemma_multiply_divide_le(
        (1_000_000 + cc) * 1_000_000,
        1_000_000 - cc,
        2_000_000_000_000int,
    );
    assert((1_000_000 + cc) * 1_000_000 <= (1_000_000 - cc) * 2_000_000_000_000int)
        by (nonlinear_arith)
        requires
            0 <= cc <= 999_999,
    ;
}

/// The inverse hyperbolic tangent is nonnegative and does not decrease
/// as its argument grows.
pub proof fn lemma_atanh_fx_monotone(c1: int, c2: int)
    requires
        0 <= c1 <= c2 <= 1_000_000,
    ensures
        0 <= atanh_fx(c1) <= atanh_fx(c2),
{
    let cc1 = if c1 > 999_999 {
        999_999int
    } else {
        c1
    };
    let cc2 = if c2 > 999_999 {
        999_999int
    } else {
        c2
    };
    lemma_atanh_arg_props(c1);
    lemma_atanh_arg_props(c2);
    assert(atanh_arg(c1) <= atanh_arg(c2)) by {
        assert(((1_000_000 + cc1) * 1_000_000) * (1_000_000 - cc2) <= ((1_000_000 + cc2)
            * 1_000_000) * (1_000_000 - cc1)) by (nonlinear_arith)
            requires
                0 <= cc1 <= cc2 <= 999_999,
        ;
        assert(0 <= (1_000_000 + cc1) * 1_000_000) by (nonlinear_arith)
            requires
                cc1 >= 0,
        ;
        lemma_div_frac_ordered(
            (1_000_000 + cc1) * 1_000_000,
            1_000_000 - cc1,
            (1_000_000 + cc2) * 1_000_000,
            1_000_000 - cc2,
        );
    }
    lemma_ln_fx_monotone(10 * atanh_arg(c1), 10 * atanh_arg(c2));
    lemma_ln_fx_nonneg(10 * atanh_arg(c1));
    lemma_div_pos_is_pos(ln_fx(10 * atanh_arg(c1)), 20);
    lemma_div_is_ordered(ln_fx(10 * atanh_arg(c1)), ln_fx(10 * atanh_arg(c2)), 20);
}

/// Fractional vertical coordinate of a zenith angle, in milli-pixels: the
/// Mercator-style stretch `width / (2 pi) * atanh(cos(zenith))`, evaluated
/// through the fixed-point kernels above. Positive above the horizon
/// (zenith under 90 degrees), negative below it.
pub open spec fn zenith_to_y(width: int, zen_md: int) -> int {
    if zen_md <= 90_000 {
        (width * atanh_fx(cos_kernel(zen_md)) * 1000) / 6_283_185
    } else {
        -((width * atanh_fx(cos_kernel(180_000 - zen_md)) * 1000) / 6_283_185)
    }
}

/// Vertical coordinate of a zenith angle, in milli-pixels.
///
/// Used only in differences (a coordinate minus the raster's bottom edge),
/// never as an absolute pixel row.
pub fn calculate_y(width: u32, zen_md: i64) -> (y: i64)
    requires
        0 < width <= WIDTH_MAX,
        0 <= zen_md <= HALF_TURN_MD,
    ensures
        y == zenith_to_y(width as int, zen_md as int),
        -1_160 * (width as int) <= y <= 1_160 * (width as int),
{
    let t: i64 = if zen_md <= 90_000 {
        zen_md
    } else {
        HALF_TURN_MD - zen_md
    };
    let c = cos_quarter(t);
    let a = atanh_unit(c);
    proof {
        assert(0 <= (width as int) * (a as int) * 1000 <= (width as int) * 7_280_000 * 1000)
            by (nonlinear_arith)
            requires
                0 <= a <= 7_280_000,
                0 < width <= 1_000_000,
        ;
    }
    let num: i64 = (width as i64) * a * 1000;
    let mag = div_floor(num, TAU_FX);
    proof {
        lemma_div_pos_is_pos(num as int, 6_283_185);
        lemma_div_is_ordered(num as int, (width as int) * 7_280_000 * 1000, 6_283_185);
        vstd::arithmetic::div_mod::lemma_multiply_divide_le(
            (width as int) * 7_280_000 * 1000,
            6_283_185,
            1_160 * (width as int),
        );
        assert((width as int) * 7_280_000 * 1000 <= 6_283_185 * (1_160 * (width as int)))
            by (nonlinear_arith)
            requires
                0 < width,
        ;
    }
    if zen_md <= 90_000 {
        mag
    } else {
        -mag
    }
}

/// The vertical coordinate does not increase as the zenith angle grows:
/// larger zenith angles sit lower in the raster.
pub proof fn lemma_zenith_to_y_antitone(width: int, z1: int, z2: int)
    requires
        0 < width,
        0 <= z1 <= z2 <= 180_000,
    ensures
        zenith_to_y(width, z1) >= zenith_to_y(width, z2),
{
    if z2 <= 90_000 {
        lemma_zenith_mag_ordered(width, z2, z1);
    } else if z1 > 90_000 {
        lemma_zenith_mag_ordered(width, 180_000 - z1, 180_000 - z2);
    } else {
        lemma_zenith_mag_nonneg(width, z1);
        lemma_zenith_mag_nonneg(width, 180_000 - z2);
    }
}

/// Over the first quarter turn, a smaller angle gives at least as large a
/// stretched magnitude.
proof fn lemma_zenith_mag_ordered(width: int, tsmall: int, tbig: int)
    requires
        0 < width,
        0 <= tsmall <= 90_000,
        0 <= tbig <= tsmall,
    ensures
        (width * atanh_fx(cos_kernel(tbig)) * 1000) / 6_283_185 >= (width * atanh_fx(
            cos_kernel(tsmall),
        ) * 1000) / 6_283_185,
{
    lemma_cos_kernel_antitone(tbig, tsmall);
    lemma_cos_kernel_in_range(tbig);
    lemma_cos_kernel_in_range(tsmall);
    lemma_atanh_fx_monotone(cos_kernel(tsmall), cos_kernel(tbig));
    let ab = atanh_fx(cos_kernel(tbig));
    let a_sm = atanh_fx(cos_kernel(tsmall));
    assert(width * ab * 1000 >= width * a_sm * 1000) by (nonlinear_arith)
        requires
            0 < width,
            0 <= a_sm <= ab,
    ;
    lemma_div_is_ordered(width * a_sm * 1000, width * ab * 1000, 6_283_185);
}

/// The stretched magnitude is never negative on the first quarter turn.
proof fn lemma_zenith_mag_nonneg(width: int, t: int)
    requires
        0 < width,
        0 <= t <= 90_000,
    ensures
        (width * atanh_fx(cos_kernel(t)) * 1000) / 6_283_185 >= 0,
{
    lemma_cos_kernel_in_range(t);
    lemma_atanh_fx_monotone(cos_kernel(t), cos_kernel(t));
    let a = atanh_fx(cos_kernel(t));
    assert(width * a * 1000 >= 0) by (nonlinear_arith)
        requires
            0 < width,
            a >= 0,
    ;
    lemma_div_pos_is_pos(width * a * 1000, 6_283_185);
}

} // verus!
