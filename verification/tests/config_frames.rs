use tls_raster::config::{effective_workers, Config, ConfigError, Mode, Opt};
use tls_raster::frames::{ceil_log10, frame_file_name, frame_plan, pad_decimal};

fn base_opt() -> Opt {
    Opt {
        width: 1800,
        dist_min: 0,
        dist_max: 20_000_000,
        zen_min: 30_000,
        zen_max: 120_000,
        from_dist: 0,
        to_dist: -1_000_000,
        total_frames: 120,
        range_view: 6_000_000,
        n_threads: 0,
        sigma: 0,
        split: false,
        output: b"pano.png".to_vec(),
    }
}

#[test]
fn window_derivation_is_deterministic_and_positive() {
    let opt = base_opt();
    let a = Config::new(&opt).unwrap();
    let b = Config::new(&opt).unwrap();
    assert!(a.y_size > 0);
    assert_eq!(a.y_size, 535);
    assert_eq!(a.y_top, 377_270);
    assert_eq!(a.y_bot, -157_364);
    assert_eq!(a.total_size, 1800 * 535);
    assert_eq!(a.total_size, 963_000);
    assert_eq!(a.dist_mid, 10_000_000);
    assert_eq!(a.y_size, b.y_size);
    assert_eq!(a.total_size, b.total_size);
    assert_eq!(a.y_top, b.y_top);
}

#[test]
fn inverted_zenith_bounds_are_a_degenerate_height() {
    let mut opt = base_opt();
    opt.zen_min = 120_000;
    opt.zen_max = 30_000;
    assert!(matches!(Config::new(&opt), Err(ConfigError::DegenerateHeight)));
}

#[test]
fn out_of_domain_parameters_are_rejected() {
    let mut opt = base_opt();
    opt.width = 0;
    assert!(matches!(Config::new(&opt), Err(ConfigError::InvalidParameter)));
    let mut opt = base_opt();
    opt.zen_max = 200_000;
    assert!(matches!(Config::new(&opt), Err(ConfigError::InvalidParameter)));
    let mut opt = base_opt();
    opt.sigma = -1;
    assert!(matches!(Config::new(&opt), Err(ConfigError::InvalidParameter)));
}

#[test]
fn an_unaddressable_raster_is_rejected() {
    let mut opt = base_opt();
    opt.width = 1_000_000;
    assert!(matches!(Config::new(&opt), Err(ConfigError::RasterTooLarge)));
}

#[test]
fn pool_size_is_positive_and_honors_explicit_requests() {
    assert_eq!(tls_raster::config::pool_size(3), 3);
    assert!(tls_raster::config::pool_size(0) >= 1);
}

#[test]
fn the_accumulation_mode_is_resolved_once_from_the_parameters() {
    let mut opt = base_opt();
    let c = Config::new(&opt).unwrap();
    assert_eq!(c.mode(), Mode::Unweighted);
    opt.sigma = 1_000_000;
    let c = Config::new(&opt).unwrap();
    assert_eq!(c.mode(), Mode::Weighted);
    opt.split = true;
    let c = Config::new(&opt).unwrap();
    assert_eq!(c.mode(), Mode::Split);
}

#[test]
fn worker_count_honors_requests_and_leaves_one_core_free() {
    assert_eq!(effective_workers(4, 8), 4);
    assert_eq!(effective_workers(0, 8), 7);
    assert_eq!(effective_workers(0, 1), 1);
}

#[test]
fn suffix_width_is_the_ceiling_of_the_decimal_logarithm() {
    assert_eq!(ceil_log10(1), 0);
    assert_eq!(ceil_log10(9), 1);
    assert_eq!(ceil_log10(10), 1);
    assert_eq!(ceil_log10(11), 2);
    assert_eq!(ceil_log10(100), 2);
    assert_eq!(ceil_log10(120), 3);
    assert_eq!(ceil_log10(1_000_000), 6);
}

#[test]
fn frame_indices_are_zero_padded() {
    assert_eq!(pad_decimal(5, 3), b"005".to_vec());
    assert_eq!(pad_decimal(0, 1), b"0".to_vec());
    assert_eq!(pad_decimal(7, 0), b"7".to_vec());
    assert_eq!(pad_decimal(1234, 2), b"1234".to_vec());
    assert_eq!(pad_decimal(42, 5), b"00042".to_vec());
}

#[test]
fn frame_names_replace_the_extension_of_the_last_component() {
    assert_eq!(
        frame_file_name(&b"pano.png".to_vec(), 5, 3),
        b"pano.005.png".to_vec()
    );
    assert_eq!(
        frame_file_name(&b"dir.x/pano".to_vec(), 12, 4),
        b"dir.x/pano.0012.png".to_vec()
    );
    assert_eq!(
        frame_file_name(&b"scan".to_vec(), 0, 2),
        b"scan.00.png".to_vec()
    );
}

#[test]
fn a_sweep_expands_into_evenly_spaced_overlapping_windows() {
    let mut opt = base_opt();
    opt.to_dist = 60_000_000;
    opt.from_dist = 0;
    opt.range_view = 6_000_000;
    opt.total_frames = 120;
    let base = Config::new(&opt).unwrap();
    let plan = frame_plan(&base).unwrap();
    assert_eq!(plan.len(), 120);
    assert_eq!(plan[0].dist_min, -3_000_000);
    assert_eq!(plan[0].dist_max, 3_000_000);
    assert_eq!(plan[5].dist_min, -500_000);
    assert_eq!(plan[119].dist_min, 56_500_000);
    for i in 0..119 {
        // The windows advance by 60/120 = 0.5 units per frame and each
        // spans exactly the view width.
        assert_eq!(plan[i + 1].dist_min - plan[i].dist_min, 500_000);
        assert_eq!(plan[i].dist_max - plan[i].dist_min, 6_000_000);
        assert_eq!(plan[i].y_size, base.y_size);
        assert_eq!(plan[i].total_size, base.total_size);
    }
    assert_eq!(plan[5].output, b"pano.005.png".to_vec());
    assert_eq!(plan[0].output, b"pano.000.png".to_vec());
    assert_eq!(plan[119].output, b"pano.119.png".to_vec());
}

#[test]
fn without_a_sweep_the_plan_is_the_base_configuration() {
    let opt = base_opt();
    let base = Config::new(&opt).unwrap();
    let plan = frame_plan(&base).unwrap();
    assert_eq!(plan.len(), 1);
    assert_eq!(plan[0].dist_min, base.dist_min);
    assert_eq!(plan[0].dist_max, base.dist_max);
    assert_eq!(plan[0].output, base.output);
}

#[test]
fn a_sweep_with_zero_frames_is_a_configuration_error() {
    let mut opt = base_opt();
    opt.to_dist = 60_000_000;
    opt.total_frames = 0;
    let base = Config::new(&opt).unwrap();
    assert!(matches!(frame_plan(&base), Err(ConfigError::ZeroFrames)));
}
