use tls_raster::accumulate::{process, BeamSample, PixelAccumulator};
use tls_raster::config::{Config, Opt};

/// A one-row raster around the horizon: zenith window [90, 90.1) degrees,
/// width 1800, so the linear index equals the column.
fn row_opt() -> Opt {
    Opt {
        width: 1800,
        dist_min: 0,
        dist_max: 20_000_000,
        zen_min: 90_000,
        zen_max: 90_100,
        from_dist: 0,
        to_dist: -1_000_000,
        total_frames: 120,
        range_view: 6_000_000,
        n_threads: 0,
        sigma: 0,
        split: false,
        output: b"pano.png".to_vec(),
    }
}

fn beam(az: i64, zen: i64, refl: Vec<i64>, r: Vec<i64>) -> BeamSample {
    BeamSample {
        shot_n: 0,
        az,
        zen,
        n_hits: r.len() as u32,
        refl,
        r,
    }
}

#[test]
fn the_horizon_row_raster_is_one_pixel_tall() {
    let cfg = Config::new(&row_opt()).unwrap();
    assert_eq!(cfg.y_size, 1);
    assert_eq!(cfg.total_size, 1800);
}

#[test]
fn an_empty_pass_yields_an_all_zero_raster() {
    let cfg = Config::new(&row_opt()).unwrap();
    let total = cfg.total_size;
    let out = process(&vec![], cfg).unwrap();
    assert_eq!(out.signal.len(), total);
    assert!(out.signal.iter().all(|&b| b == 0));
    assert!(out.weight.is_none());
}

#[test]
fn a_pass_in_which_every_beam_is_filtered_yields_an_all_zero_raster() {
    let cfg = Config::new(&row_opt()).unwrap();
    let total = cfg.total_size;
    let beams = vec![
        // No hits.
        beam(0, 90_000, vec![], vec![]),
        // Zenith below the window.
        beam(0, 89_999, vec![2_000_000], vec![1_000_000]),
        // Zenith at the exclusive upper edge.
        beam(0, 90_100, vec![2_000_000], vec![1_000_000]),
    ];
    let out = process(&beams, cfg).unwrap();
    assert_eq!(out.signal.len(), total);
    assert!(out.signal.iter().all(|&b| b == 0));
}

#[test]
fn the_last_pixel_is_accepted_and_one_past_it_faults() {
    // An azimuth just under the wrap lands on the last column, hence on
    // linear index total - 1; the wrap itself projects to index total.
    let cfg = Config::new(&row_opt()).unwrap();
    let beams = vec![beam(179_999, 90_000, vec![2_000_000], vec![1_000_000])];
    assert!(process(&beams, cfg).is_ok());

    let cfg = Config::new(&row_opt()).unwrap();
    let beams = vec![beam(180_000, 90_000, vec![2_000_000], vec![1_000_000])];
    let fault = process(&beams, cfg).unwrap_err();
    assert_eq!(fault.az, 180_000);
    assert_eq!(fault.zen, 90_000);
    assert_eq!(fault.col, 1800);
    assert_eq!(fault.row, 0);
    assert_eq!(fault.index, 1800);
    assert_eq!(fault.total, 1800);
}

#[test]
fn a_fault_leaves_the_buffers_untouched() {
    let cfg = Config::new(&row_opt()).unwrap();
    let mut acc = PixelAccumulator::new(cfg);
    let bad = beam(180_000, 90_000, vec![2_000_000], vec![1_000_000]);
    assert!(acc.accumulate_beam(&bad).is_err());
    let out = acc.finalize();
    assert!(out.signal.iter().all(|&b| b == 0));
}

#[test]
fn means_are_normalized_over_defined_pixels_only() {
    // Three pixels receive means of 2, 6 and 4 units: the smallest maps to
    // byte 0, the largest to 255, the middle to 127, and every pixel
    // without samples to 0.
    let cfg = Config::new(&row_opt()).unwrap();
    let beams = vec![
        beam(-180_000, 90_000, vec![2_000_000], vec![1_000_000]),
        beam(-179_800, 90_000, vec![6_000_000], vec![1_000_000]),
        beam(-179_600, 90_000, vec![4_000_000], vec![1_000_000]),
    ];
    let out = process(&beams, cfg).unwrap();
    assert_eq!(out.signal[0], 0);
    assert_eq!(out.signal[1], 255);
    assert_eq!(out.signal[2], 127);
    assert!(out.signal[3..].iter().all(|&b| b == 0));
}

#[test]
fn samples_outside_the_distance_window_are_not_counted() {
    // The second return lies past the window, so the pixel's mean is the
    // first return alone: 2 units, not 5.
    let cfg = Config::new(&row_opt()).unwrap();
    let beams = vec![
        beam(
            -180_000,
            90_000,
            vec![2_000_000, 8_000_000],
            vec![1_000_000, 30_000_000],
        ),
        beam(-179_800, 90_000, vec![4_000_000], vec![1_000_000]),
    ];
    let out = process(&beams, cfg).unwrap();
    // Means 2 and 4: the first pixel is the minimum.
    assert_eq!(out.signal[0], 0);
    assert_eq!(out.signal[1], 255);
}

#[test]
fn weighted_mode_scales_reflectance_by_the_kernel() {
    // Two pixels receive the same reflectance at different offsets from
    // the window midpoint (10 units). Without smoothing their means are
    // equal and the raster is flat; with smoothing the kernel separates
    // them: the on-center pixel saturates, the off-center one drops to
    // the floor.
    let beams = || {
        vec![
            beam(-180_000, 90_000, vec![4_000_000], vec![10_000_000]),
            beam(-179_800, 90_000, vec![4_000_000], vec![12_000_000]),
        ]
    };
    let mut opt = row_opt();
    opt.sigma = 0;
    let flat = process(&beams(), Config::new(&opt).unwrap()).unwrap();
    assert_eq!(flat.signal[0], 0);
    assert_eq!(flat.signal[1], 0);
    opt.sigma = 1_000_000;
    let shaped = process(&beams(), Config::new(&opt).unwrap()).unwrap();
    assert_eq!(shaped.signal[0], 255);
    assert_eq!(shaped.signal[1], 0);
}

#[test]
fn split_channels_are_normalized_independently() {
    // The smoothing factor moves the weight channel through a completely
    // different numeric range, but the signal bytes must not move: in
    // split mode the signal channel holds raw reflectance.
    let beams = || {
        vec![
            beam(-180_000, 90_000, vec![2_000_000], vec![1_000_000]),
            beam(-179_800, 90_000, vec![6_000_000], vec![5_000_000]),
            beam(-179_600, 90_000, vec![4_000_000], vec![9_000_000]),
        ]
    };
    let mut opt = row_opt();
    opt.split = true;
    opt.sigma = 0;
    let out_a = process(&beams(), Config::new(&opt).unwrap()).unwrap();
    opt.sigma = 2_000_000;
    let out_b = process(&beams(), Config::new(&opt).unwrap()).unwrap();
    assert_eq!(out_a.signal, out_b.signal);
    assert!(out_a.weight.is_some());
    assert!(out_b.weight.is_some());
    assert_eq!(out_a.signal[0], 0);
    assert_eq!(out_a.signal[1], 255);
    assert_eq!(out_a.signal[2], 127);
}

#[test]
fn without_split_no_weight_raster_is_produced() {
    let cfg = Config::new(&row_opt()).unwrap();
    let beams = vec![beam(0, 90_000, vec![2_000_000], vec![1_000_000])];
    let out = process(&beams, cfg).unwrap();
    assert!(out.weight.is_none());
}
