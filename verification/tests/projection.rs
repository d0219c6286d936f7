use tls_raster::geometry::distance_from_zenith_range;
use tls_raster::projector::{calculate_x, calculate_y, div_floor};
use tls_raster::raster::normalize_to_u8;
use tls_raster::weight::{gaussian_smooth, isqrt, sample_weight, UNIT_WEIGHT, WEIGHT_FX_MAX};

#[test]
fn div_floor_rounds_toward_negative_infinity() {
    assert_eq!(div_floor(7, 2), 3);
    assert_eq!(div_floor(-7, 2), -4);
    assert_eq!(div_floor(6, 3), 2);
    assert_eq!(div_floor(-6, 3), -2);
    assert_eq!(div_floor(0, 5), 0);
}

#[test]
fn azimuth_maps_linearly_across_the_raster() {
    // width 1800: the straight-back direction lands on the left edge, the
    // forward direction in the middle, in milli-pixels.
    assert_eq!(calculate_x(1800, -180_000), 0);
    assert_eq!(calculate_x(1800, 0), 900_000);
    assert_eq!(calculate_x(1800, 180_000), 1_800_000);
}

#[test]
fn azimuth_is_periodic_modulo_the_width() {
    let w = 1800u32;
    for az in [-123_456i64, 0, 77_777, 359_999] {
        let x0 = calculate_x(w, az);
        let x1 = calculate_x(w, az + 360_000);
        assert_eq!(x1, x0 + 1000 * w as i64);
        let m = 1000 * w as i64;
        assert_eq!(x1.rem_euclid(m), x0.rem_euclid(m));
    }
    // At this width a single millidegree already moves the coordinate.
    assert!(calculate_x(w, 0) < calculate_x(w, 1));
}

#[test]
fn zenith_projection_is_monotone_and_zero_at_the_horizon() {
    let w = 1800u32;
    assert_eq!(calculate_y(w, 90_000), 0);
    assert_eq!(calculate_y(w, 30_000), 377_270);
    assert_eq!(calculate_y(w, 120_000), -157_364);
    let mut prev = calculate_y(w, 0);
    for zen in (0..=180_000).step_by(5_000) {
        let y = calculate_y(w, zen);
        assert!(y <= prev);
        prev = y;
    }
}

#[test]
fn horizontal_distance_is_exact_at_the_cardinal_angles() {
    // Looking at the horizon keeps the range, looking straight up or down
    // collapses it, and thirty degrees of zenith halves it exactly.
    assert_eq!(distance_from_zenith_range(90_000, 7_500_000), 7_500_000);
    assert_eq!(distance_from_zenith_range(180_000, 7_500_000), 0);
    assert_eq!(distance_from_zenith_range(0, 7_500_000), 0);
    assert_eq!(distance_from_zenith_range(30_000, 1_000_000), 500_000);
}

#[test]
fn horizontal_distance_never_exceeds_the_range() {
    for zen in (0..=180_000).step_by(9_000) {
        let hd = distance_from_zenith_range(zen, 2_000_000);
        assert!(0 <= hd && hd <= 2_000_000);
    }
}

#[test]
fn integer_square_root_brackets_its_argument() {
    assert_eq!(isqrt(0), 0);
    assert_eq!(isqrt(15), 3);
    assert_eq!(isqrt(16), 4);
    assert_eq!(isqrt(1_000_000_000_000), 1_000_000);
}

#[test]
fn gaussian_weight_matches_the_kernel_at_unit_sigma() {
    // 1/sqrt(2 pi) in SCALE ticks at the peak.
    assert_eq!(gaussian_smooth(0, 1_000_000), 398_942);
    assert_eq!(gaussian_smooth(2_000_000, 1_000_000), 146_762);
    assert_eq!(gaussian_smooth(-2_000_000, 1_000_000), 146_762);
    // Four e-foldings out the weight is small but still positive, as the
    // entry demands: the kernel has no artificial cutoff.
    assert_eq!(gaussian_smooth(4_000_000, 1_000_000), 7_306);
    assert!(gaussian_smooth(4_000_000, 1_000_000) > 0);
}

#[test]
fn gaussian_weight_peaks_at_zero_offset() {
    let sigma = 1_000_000i64;
    let peak = gaussian_smooth(0, sigma);
    for off in [-5_000_000i64, -1, 1, 250_000, 4_000_000, 3_000_000_000_000] {
        let w = gaussian_smooth(off, sigma);
        assert!(0 <= w && w <= peak);
    }
    assert!(peak <= WEIGHT_FX_MAX);
}

#[test]
fn smoothing_bypass_returns_unit_weight() {
    // Under the tolerance the Gaussian is never evaluated: every offset
    // gets the unit weight.
    for off in [-3_000_000i64, 0, 9_000_000] {
        assert_eq!(sample_weight(off, 0), UNIT_WEIGHT);
        assert_eq!(sample_weight(off, 99), UNIT_WEIGHT);
    }
    // At the tolerance the Gaussian takes over.
    assert_eq!(sample_weight(0, 100), 39_905_822);
}

#[test]
fn normalization_maps_the_defined_range_onto_bytes() {
    assert_eq!(normalize_to_u8(0, 0, 10), 0);
    assert_eq!(normalize_to_u8(5, 0, 10), 127);
    assert_eq!(normalize_to_u8(10, 0, 10), 255);
    assert_eq!(normalize_to_u8(3, 3, 3), 0);
    assert_eq!(normalize_to_u8(-2, -2, 2), 0);
    assert_eq!(normalize_to_u8(2, -2, 2), 255);
}
