//! The laws of the library on concrete frames.

use processinator::arith::Arithmetic;
use processinator::linear::{lstsq, solve_symmetric};
use processinator::{
    denoise, detect_edges, make_test_image, mtf_display_solution, mtf_stats_linked, prepare,
    process, remove_green, saturate, stretch, AutocropParams, DenoiseParams, Image,
    PipelineConfig, StretchAlgorithm, StretchOptions, SyntheticParams, ThresholdMode,
};

/// IEEE 754 double precision arithmetic.
struct Ieee;

impl Arithmetic<f64> for Ieee {
    fn ratio(&self, p: u64, q: u64) -> f64 {
        p as f64 / q as f64
    }

    fn count(&self, n: usize) -> f64 {
        n as f64
    }

    fn infinity(&self) -> f64 {
        f64::INFINITY
    }

    fn turn(&self) -> f64 {
        std::f64::consts::TAU
    }

    fn neg(&self, a: f64) -> f64 {
        -a
    }

    fn abs(&self, a: f64) -> f64 {
        a.abs()
    }

    fn signum(&self, a: f64) -> f64 {
        a.signum()
    }

    fn sqrt(&self, a: f64) -> f64 {
        a.sqrt()
    }

    fn exp(&self, a: f64) -> f64 {
        a.exp()
    }

    fn ln(&self, a: f64) -> f64 {
        a.ln()
    }

    fn ln_1p(&self, a: f64) -> f64 {
        a.ln_1p()
    }

    fn asinh(&self, a: f64) -> f64 {
        a.asinh()
    }

    fn cos(&self, a: f64) -> f64 {
        a.cos()
    }

    fn floor(&self, a: f64) -> f64 {
        a.floor()
    }

    fn ceil(&self, a: f64) -> f64 {
        a.ceil()
    }

    fn plus(&self, a: f64, b: f64) -> f64 {
        a + b
    }

    fn minus(&self, a: f64, b: f64) -> f64 {
        a - b
    }

    fn times(&self, a: f64, b: f64) -> f64 {
        a * b
    }

    fn over(&self, a: f64, b: f64) -> f64 {
        a / b
    }

    fn least(&self, a: f64, b: f64) -> f64 {
        a.min(b)
    }

    fn most(&self, a: f64, b: f64) -> f64 {
        a.max(b)
    }

    fn powf(&self, a: f64, b: f64) -> f64 {
        a.powf(b)
    }

    fn powi(&self, a: f64, n: usize) -> f64 {
        a.powi(n as i32)
    }

    fn clamp(&self, a: f64, low: f64, high: f64) -> f64 {
        a.clamp(low, high)
    }

    fn less(&self, a: f64, b: f64) -> bool {
        a < b
    }

    fn less_or_equal(&self, a: f64, b: f64) -> bool {
        a <= b
    }

    fn equal(&self, a: f64, b: f64) -> bool {
        a == b
    }

    fn is_nan(&self, a: f64) -> bool {
        a.is_nan()
    }

    fn order_key(&self, a: f64) -> u64 {
        // Adding zero turns -0.0 into 0.0
        let bits = (a + 0.0).to_bits();
        if bits >> 63 == 1 {
            !bits
        } else {
            bits | 1 << 63
        }
    }

    fn to_index(&self, a: f64) -> usize {
        a as usize
    }

    fn to_offset(&self, a: f64) -> i64 {
        a as i64
    }

    fn to_byte(&self, a: f64) -> u8 {
        a as u8
    }
}
fn frame(rgb: bool) -> Image<f64> {
    make_test_image(&Ieee, &SyntheticParams {
        width: 48,
        height: 40,
        rgb,
        n_stars: 12,
        nebula_amplitude: 120.0,
        dark_edges: (4, 0, 0, 5),
        seed: 21,
        ..SyntheticParams::defaults(&Ieee)
    })
    .data
}

fn multiplied(image: &Image<f64>, factor: f64) -> Image<f64> {
    let channels = image
        .channels()
        .iter()
        .map(|ch| ch.iter().map(|v| v * factor).collect())
        .collect();
    Image::from_channels(image.width(), image.height(), channels)
}

fn transposed(image: &Image<f64>) -> Image<f64> {
    let (w, h) = (image.width(), image.height());
    let channels = image
        .channels()
        .iter()
        .map(|ch| (0..w * h).map(|i| ch[(i % h) * w + i / h]).collect())
        .collect();
    Image::from_channels(h, w, channels)
}

fn normalized(image: Image<f64>) -> Image<f64> {
    let config = PipelineConfig { gradient_removal: false, ..PipelineConfig::defaults(&Ieee) };
    prepare(&Ieee, image, &config)
}

#[test]
fn clean_frame_ignores_noise_and_hot_pixels() {
    let quiet = SyntheticParams {
        width: 40,
        height: 30,
        n_stars: 9,
        noise_sigma: 0.0,
        seed: 4,
        ..SyntheticParams::defaults(&Ieee)
    };
    let loud = SyntheticParams { noise_sigma: 50.0, hot_pixels: 30, ..quiet };
    let a = make_test_image(&Ieee, &quiet);
    let b = make_test_image(&Ieee, &loud);
    assert_eq!(a.clean, b.clean);
    assert_eq!(a.stars, b.stars);
    assert_ne!(a.data, b.data);
    assert!(b.data.channel(0).iter().all(|&v| v >= 0.0));
}

#[test]
fn transposing_exchanges_the_edges() {
    let img = frame(false);
    let params = AutocropParams::defaults(&Ieee);
    let (top, bottom, left, right) = detect_edges(&Ieee, &img, &params);
    assert_eq!((top, bottom, left, right), (4, 0, 0, 5));
    assert_eq!(detect_edges(&Ieee, &transposed(&img), &params), (left, right, top, bottom));
}

#[test]
fn denoising_is_scale_free() {
    let img = frame(true);
    for mode in [ThresholdMode::Hard, ThresholdMode::Soft] {
        let params = DenoiseParams { mode, ..DenoiseParams::defaults(&Ieee) };
        let out = denoise(&Ieee, &img, &params);
        let big = denoise(&Ieee, &multiplied(&img, 8.0), &params);
        assert_eq!(big, multiplied(&out, 8.0));
    }
    let hard = DenoiseParams::defaults(&Ieee);
    let out = denoise(&Ieee, &img, &hard);
    assert_eq!(denoise(&Ieee, &multiplied(&img, -2.0), &hard), multiplied(&out, -2.0));
}

#[test]
fn channels_are_denoised_apart() {
    let img = frame(true);
    let params = DenoiseParams::defaults(&Ieee);
    let out = denoise(&Ieee, &img, &params);
    for c in 0..3 {
        let mono = Image::new_mono(img.width(), img.height(), img.channel(c).to_vec());
        assert_eq!(denoise(&Ieee, &mono, &params).channel(0), out.channel(c));
    }
}

#[test]
fn scale_counts_are_limited() {
    let img = frame(false);
    let with = |n_scales: usize| {
        denoise(&Ieee, &img, &DenoiseParams { n_scales, ..DenoiseParams::defaults(&Ieee) })
    };
    // Four scales fit into 40 rows
    assert_eq!(with(4), with(50));
    assert_ne!(with(3), with(4));
    assert_eq!(with(0), with(1));
}

#[test]
fn stretching_raw_data_is_scale_free() {
    for rgb in [false, true] {
        let img = frame(rgb);
        for algorithm in [
            StretchAlgorithm::mtf(&Ieee),
            StretchAlgorithm::arcsinh(&Ieee),
            StretchAlgorithm::statistical(&Ieee),
        ] {
            let options = StretchOptions::new(algorithm);
            let out = stretch(&Ieee, img.clone(), &options);
            assert_eq!(stretch(&Ieee, multiplied(&img, 0.25), &options), out);
        }
    }
}

#[test]
fn midtones_curve_is_undone() {
    let img = normalized(frame(false));
    let (bg, sigma) = (0.22, 2.0);
    let solution = mtf_display_solution(&Ieee, &img, bg, sigma);
    let options = StretchOptions {
        algorithm: StretchAlgorithm::Mtf { bg_percent: bg, sigma, linked: true },
        autocrop: false,
        pre_normalized: true,
    };
    let out = stretch(&Ieee, img.clone(), &options);
    let k = 1.0 - solution.midtone;
    for (&v, &y) in img.channel(0).iter().zip(out.channel(0)) {
        let x = ((v - solution.shadows[0]) * solution.scale).clamp(0.0, 1.0);
        let back = (k - 1.0) * y / ((2.0 * k - 1.0) * y - k);
        assert!((back - x).abs() < 1e-9);
    }
}

#[test]
fn linked_solution_follows_its_statistics() {
    let img = normalized(frame(true));
    let sigma = 2.0;
    let solution = mtf_display_solution(&Ieee, &img, 0.22, sigma);
    let stats: Vec<_> = img.channels().iter().map(|ch| mtf_stats_linked(&Ieee, ch)).collect();
    let k = sigma * 1.4826;
    let residual = stats
        .iter()
        .map(|s| (s.median - s.p25) + k * s.mad)
        .fold(f64::INFINITY, f64::min);
    for (s, &shadow) in stats.iter().zip(&solution.shadows) {
        assert_eq!(shadow, (s.median - residual).max(0.0));
    }
    let deepest = solution.shadows.iter().copied().fold(0.0, f64::max);
    assert_eq!(solution.scale, 1.0 / (1.0 - deepest).max(1e-6));
    assert!((1e-4..=0.9999).contains(&solution.midtone));
}

#[test]
fn saturations_compose_and_keep_sums() {
    let pixel = || Image::new_rgb(1, 1, [vec![0.5], vec![0.4], vec![0.45]]);
    let (mut twice, mut once) = (pixel(), pixel());
    saturate(&Ieee, &mut twice, 1.5);
    saturate(&Ieee, &mut twice, 2.0);
    saturate(&Ieee, &mut once, 3.0);
    let sum = |img: &Image<f64>| img.get(0, 0, 0) + img.get(0, 0, 1) + img.get(0, 0, 2);
    for c in 0..3 {
        assert!((twice.get(0, 0, c) - once.get(0, 0, c)).abs() < 1e-12);
    }
    assert!((sum(&twice) - sum(&pixel())).abs() < 1e-12);
    assert_ne!(once, pixel());
}

#[test]
fn steps_are_the_pipeline() {
    let config = PipelineConfig {
        stretch: StretchAlgorithm::arcsinh(&Ieee),
        ..PipelineConfig::defaults(&Ieee)
    };
    let img = frame(true);
    let prepared = prepare(&Ieee, img.clone(), &config);
    let mut out = stretch(&Ieee, prepared, &StretchOptions {
        algorithm: config.stretch,
        autocrop: false,
        pre_normalized: true,
    });
    remove_green(&Ieee, &mut out, config.green_removal);
    saturate(&Ieee, &mut out, config.saturation);
    assert_eq!(out, process(&Ieee, img, &config));
}

#[test]
fn green_stays_in_the_unit_range_unsaturated() {
    let config = PipelineConfig { saturation: 1.0, ..PipelineConfig::defaults(&Ieee) };
    let out = process(&Ieee, frame(true), &config);
    assert!(out.channels().iter().flatten().all(|&v| (0.0..=1.0).contains(&v)));
}

#[test]
fn denoising_in_the_pipeline_denoises_its_result() {
    for (rgb, green_removal, saturation) in [(true, 0.0, 1.0), (false, 0.0, 1.0), (false, 0.7, 1.5)]
    {
        let config = PipelineConfig {
            denoise: true,
            green_removal,
            saturation,
            ..PipelineConfig::defaults(&Ieee)
        };
        let plain = PipelineConfig { denoise: false, ..config };
        let mut smooth = denoise(
            &Ieee,
            &process(&Ieee, frame(rgb), &plain),
            &DenoiseParams {
                n_scales: config.denoise_scales,
                threshold: config.denoise_threshold,
                mode: config.denoise_mode,
            },
        );
        let channels = smooth
            .channels()
            .iter()
            .map(|ch| ch.iter().map(|v| v.clamp(0.0, 1.0)).collect())
            .collect();
        smooth = Image::from_channels(smooth.width(), smooth.height(), channels);
        assert_eq!(process(&Ieee, frame(rgb), &config), smooth);
        assert_ne!(process(&Ieee, frame(rgb), &plain), smooth);
    }
}

#[test]
fn solution_meets_every_equation() {
    let rows = vec![vec![4.0, 1.0, 2.0], vec![1.0, 5.0, 3.0], vec![2.0, 3.0, 6.0]];
    let right = vec![7.0, -2.0, 11.0];
    let x = solve_symmetric(&Ieee, rows.clone(), right.clone()).unwrap();
    for (row, b) in rows.iter().zip(&right) {
        let sum: f64 = row.iter().zip(&x).map(|(a, v)| a * v).sum();
        assert!((sum - b).abs() < 1e-12);
    }
}

#[test]
fn no_other_line_fits_better() {
    let columns = vec![vec![1.0; 5], vec![0.0, 1.0, 2.0, 3.0, 4.0]];
    let target = vec![1.0, 0.0, 4.0, 3.0, 9.0];
    let x = lstsq(&Ieee, &columns, &target).unwrap();
    let misfit = |a: f64, b: f64| -> f64 {
        target
            .iter()
            .enumerate()
            .map(|(i, t)| (t - a * columns[0][i] - b * columns[1][i]).powi(2))
            .sum()
    };
    let least = misfit(x[0], x[1]);
    assert!((least - 13.1).abs() < 1e-9);
    for (da, db) in [(0.01, 0.0), (-0.01, 0.0), (0.0, 0.01), (0.0, -0.01), (1.0, -0.5)] {
        assert!(misfit(x[0] + da, x[1] + db) > least);
    }
}

#[test]
fn peaks_of_sky_and_nebula_are_their_amplitudes() {
    let sky = SyntheticParams {
        width: 9,
        height: 7,
        n_stars: 0,
        noise_sigma: 0.0,
        background: 0.0,
        gradient_amplitude: 64.0,
        ..SyntheticParams::defaults(&Ieee)
    };
    let img = make_test_image(&Ieee, &sky);
    assert!(img.clean.channel(0).iter().all(|v| (0.0..=64.0).contains(v)));
    assert!(img.clean.channel(0).contains(&64.0));
    let nebula = SyntheticParams {
        gradient_amplitude: 0.0,
        nebula_amplitude: 64.0,
        ..sky
    };
    let img = make_test_image(&Ieee, &nebula);
    let peak = img.clean.channel(0).iter().copied().fold(0.0, f64::max);
    assert!((peak - 64.0).abs() < 1e-9);
}
