//! Exact values, edge cases and laws on concrete images.

use image::DynamicImage;
use processinator::arith::Arithmetic;
use processinator::denoise::reflect;
use processinator::enhance::{color_calibrate, contrast, gaussian_blur, reduce_stars};
use processinator::fits_io::{
    image_from_planar, image_of_hdu, is_jpeg, planar_samples, planar_shape, signed_samples,
    to_bytes, unsigned_samples,
};
use processinator::linear::{lstsq, solve_symmetric};
use processinator::stats::{median_of, percentile_pair};
use processinator::stretch::normalize_to_01;
use processinator::synthetic::Rng;
use processinator::{
    autocrop, denoise, detect_edges, make_test_image, mtf_stats_channel, mtf_stats_linked, prepare,
    process, remove_gradient, remove_green, saturate, stretch, to_dynamic_image, AutocropParams,
    DenoiseParams, Error, GradientParams, Image, PipelineConfig, StretchAlgorithm, StretchOptions,
    SyntheticParams, ThresholdMode,
};

/// IEEE 754 double precision arithmetic.
struct Ieee;

impl Arithmetic<f64> for Ieee {
    fn ratio(&self, p: u64, q: u64) -> f64 {
        p as f64 / q as f64
    }

    fn count(&self, n: usize) -> f64 {
        n as f64
    }

    fn infinity(&self) -> f64 {
        f64::INFINITY
    }

    fn turn(&self) -> f64 {
        std::f64::consts::TAU
    }

    fn neg(&self, a: f64) -> f64 {
        -a
    }

    fn abs(&self, a: f64) -> f64 {
        a.abs()
    }

    fn signum(&self, a: f64) -> f64 {
        a.signum()
    }

    fn sqrt(&self, a: f64) -> f64 {
        a.sqrt()
    }

    fn exp(&self, a: f64) -> f64 {
        a.exp()
    }

    fn ln(&self, a: f64) -> f64 {
        a.ln()
    }

    fn ln_1p(&self, a: f64) -> f64 {
        a.ln_1p()
    }

    fn asinh(&self, a: f64) -> f64 {
        a.asinh()
    }

    fn cos(&self, a: f64) -> f64 {
        a.cos()
    }

    fn floor(&self, a: f64) -> f64 {
        a.floor()
    }

    fn ceil(&self, a: f64) -> f64 {
        a.ceil()
    }

    fn plus(&self, a: f64, b: f64) -> f64 {
        a + b
    }

    fn minus(&self, a: f64, b: f64) -> f64 {
        a - b
    }

    fn times(&self, a: f64, b: f64) -> f64 {
        a * b
    }

    fn over(&self, a: f64, b: f64) -> f64 {
        a / b
    }

    fn least(&self, a: f64, b: f64) -> f64 {
        a.min(b)
    }

    fn most(&self, a: f64, b: f64) -> f64 {
        a.max(b)
    }

    fn powf(&self, a: f64, b: f64) -> f64 {
        a.powf(b)
    }

    fn powi(&self, a: f64, n: usize) -> f64 {
        a.powi(n as i32)
    }

    fn clamp(&self, a: f64, low: f64, high: f64) -> f64 {
        a.clamp(low, high)
    }

    fn less(&self, a: f64, b: f64) -> bool {
        a < b
    }

    fn less_or_equal(&self, a: f64, b: f64) -> bool {
        a <= b
    }

    fn equal(&self, a: f64, b: f64) -> bool {
        a == b
    }

    fn is_nan(&self, a: f64) -> bool {
        a.is_nan()
    }

    fn order_key(&self, a: f64) -> u64 {
        // Adding zero turns -0.0 into 0.0
        let bits = (a + 0.0).to_bits();
        if bits >> 63 == 1 {
            !bits
        } else {
            bits | 1 << 63
        }
    }

    fn to_index(&self, a: f64) -> usize {
        a as usize
    }

    fn to_offset(&self, a: f64) -> i64 {
        a as i64
    }

    fn to_byte(&self, a: f64) -> u8 {
        a as u8
    }
}
fn close(a: f64, b: f64) -> bool {
    (a - b).abs() < 1e-12
}

fn ramp(w: usize, h: usize) -> Image<f64> {
    Image::new_mono(w, h, (0..w * h).map(|i| i as f64 / (w * h) as f64).collect())
}

// --- Images ------------------------------------------------------------------

#[test]
fn pixels_are_addressed_row_by_row() {
    let mut img = Image::new_mono(3, 2, vec![0.0, 1.0, 2.0, 3.0, 4.0, 5.0]);
    assert_eq!(img.get(1, 1, 0), 4.0);
    img.set(2, 0, 0, 9.0);
    assert_eq!(img.channel(0), &[0.0, 1.0, 9.0, 3.0, 4.0, 5.0]);
    assert_eq!(img.pixels_per_channel(), 6);
    img.channel_mut(0)[0] = 7.0;
    img.channels_mut()[0][1] = 8.0;
    assert_eq!(img.into_channels(), vec![vec![7.0, 8.0, 9.0, 3.0, 4.0, 5.0]]);
}

#[test]
fn zeros_keep_the_shape() {
    let img = Image::new_rgb(2, 1, [vec![1.0, 2.0], vec![3.0, 4.0], vec![5.0, 6.0]]);
    let zeros = img.zeros_like(&Ieee);
    assert_eq!(zeros, Image::new_rgb(2, 1, [vec![0.0; 2], vec![0.0; 2], vec![0.0; 2]]));
}

#[test]
fn luminance_is_the_channel_mean() {
    let img = Image::new_rgb(2, 1, [vec![1.0, 2.0], vec![3.0, 4.0], vec![5.0, 9.0]]);
    let lum = img.luminance(&Ieee);
    assert!(close(lum[0], 3.0) && close(lum[1], 5.0));
    assert_eq!(ramp(2, 2).luminance(&Ieee), vec![0.0, 0.25, 0.5, 0.75]);
}

#[test]
fn cropping_nothing_changes_nothing() {
    let img = ramp(4, 3);
    assert_eq!(img.crop((0, 0, 0, 0)), img);
}

#[test]
fn crop_keeps_the_interior() {
    let img = Image::new_mono(4, 3, (0..12).map(|i| i as f64).collect());
    let cropped = img.crop((1, 0, 1, 1));
    assert_eq!(cropped, Image::new_mono(2, 2, vec![5.0, 6.0, 9.0, 10.0]));
    assert_eq!(img.channel_interior(0, (1, 0, 1, 1)), vec![5.0, 6.0, 9.0, 10.0]);
}

// --- Statistics --------------------------------------------------------------

#[test]
fn median_averages_the_middle_pair() {
    assert_eq!(median_of(&Ieee, &[3.0, 1.0, 2.0]), 2.0);
    assert_eq!(median_of(&Ieee, &[4.0, 1.0, 3.0, 2.0]), 2.5);
    assert_eq!(median_of(&Ieee, &[-1.0, -3.0, 5.0, -2.0, 0.0]), -1.0);
    assert_eq!(median_of(&Ieee, &[]), 0.0);
}

#[test]
fn percentiles_interpolate() {
    let data = [40.0, 10.0, 30.0, 20.0, 50.0];
    assert_eq!(percentile_pair(&Ieee, &data, 0.0, 100.0), (10.0, 50.0));
    assert_eq!(percentile_pair(&Ieee, &data, 25.0, 60.0), (20.0, 34.0));
    assert_eq!(percentile_pair(&Ieee, &[7.0], 10.0, 90.0), (7.0, 7.0));
    assert_eq!(percentile_pair(&Ieee, &[], 10.0, 90.0), (0.0, 0.0));
}

#[test]
fn percentiles_ignore_nan() {
    let data = [f64::NAN, 2.0, f64::NAN, 1.0, 3.0];
    assert_eq!(percentile_pair(&Ieee, &data, 0.0, 50.0), (1.0, 2.0));
}

// --- Edges -------------------------------------------------------------------

fn edged(rows: usize, cols: usize, dark_rows: usize) -> Image<f64> {
    let data = (0..rows * cols)
        .map(|i| if i / cols < dark_rows { 0.01 } else { 1.0 })
        .collect();
    Image::new_mono(cols, rows, data)
}

#[test]
fn edges_end_at_the_largest_fraction() {
    let params = AutocropParams::defaults(&Ieee);
    assert_eq!(detect_edges(&Ieee, &edged(20, 20, 3), &params), (3, 0, 0, 0));
    // A fifth of the dimension is the most that counts
    assert_eq!(detect_edges(&Ieee, &edged(20, 20, 6), &params), (4, 0, 0, 0));
}

#[test]
fn edges_over_half_the_frame_are_left() {
    let params = AutocropParams {
        max_crop_fraction: 0.45,
        ..AutocropParams::defaults(&Ieee)
    };
    let data = (0..20 * 20)
        .map(|i| if (6..13).contains(&(i / 20)) { 1.0 } else { 0.01 })
        .collect();
    let img = Image::new_mono(20, 20, data);
    // Six dark rows on top and seven below leave fewer than ten
    let (cropped, bounds) = autocrop(&Ieee, &img, &params);
    assert_eq!(bounds, (0, 0, 0, 0));
    assert_eq!(cropped, img);
}

#[test]
fn dark_or_tiny_frames_have_no_edges() {
    let params = AutocropParams::defaults(&Ieee);
    assert_eq!(detect_edges(&Ieee, &Image::new_mono(8, 8, vec![0.0; 64]), &params), (0, 0, 0, 0));
    assert_eq!(detect_edges(&Ieee, &Image::new_mono(9, 1, vec![1.0; 9]), &params), (0, 0, 0, 0));
    assert_eq!(detect_edges(&Ieee, &Image::new_mono(0, 0, vec![]), &params), (0, 0, 0, 0));
}

// --- Denoising ---------------------------------------------------------------

#[test]
fn indices_mirror_at_both_ends() {
    let mirrored: Vec<usize> = (-4..8).map(|i| reflect(i, 4)).collect();
    assert_eq!(mirrored, vec![2, 3, 2, 1, 0, 1, 2, 3, 2, 1, 0, 1]);
    assert_eq!(reflect(-3, 1), 0);
}

#[test]
fn constant_image_has_no_noise() {
    let img = Image::new_mono(16, 16, vec![0.25; 256]);
    assert_eq!(denoise(&Ieee, &img, &DenoiseParams::defaults(&Ieee)), img);
}

/// Checkered noise around a level, and one bright pixel.
fn noisy_point() -> Image<f64> {
    let mut data: Vec<f64> = (0..32 * 32)
        .map(|i| if (i / 32 + i % 32) % 2 == 0 { 1.01 } else { 0.99 })
        .collect();
    data[16 * 32 + 16] = 500.0;
    Image::new_mono(32, 32, data)
}

#[test]
fn hard_mode_keeps_a_bright_pixel() {
    let img = noisy_point();
    let one = DenoiseParams { n_scales: 1, ..DenoiseParams::defaults(&Ieee) };
    let out = denoise(&Ieee, &img, &one);
    assert!((out.get(16, 16, 0) - 500.0).abs() < 1e-9);
}

#[test]
fn soft_mode_shrinks_a_bright_pixel() {
    let img = noisy_point();
    let soft = DenoiseParams {
        n_scales: 1,
        mode: ThresholdMode::Soft,
        ..DenoiseParams::defaults(&Ieee)
    };
    let out = denoise(&Ieee, &img, &soft);
    assert!(out.get(16, 16, 0) < 500.0);
    assert!(out.get(16, 16, 0) > 499.0);
}

#[test]
fn small_noise_is_flattened() {
    let img = Image::new_mono(
        8,
        8,
        (0..64).map(|i| if (i / 8 + i % 8) % 2 == 0 { 1.5 } else { 0.5 }).collect(),
    );
    // The checker is all detail of the finest scale, and below its threshold
    let out = denoise(&Ieee, &img, &DenoiseParams::defaults(&Ieee));
    assert!(out.channel(0).iter().all(|&v| (v - 1.0).abs() < 1e-9));
}

// --- Least squares and gradients ----------------------------------------------

#[test]
fn equations_are_solved_with_pivoting() {
    let x = solve_symmetric(&Ieee, vec![vec![0.0, 2.0], vec![4.0, 1.0]], vec![6.0, 11.0]).unwrap();
    assert!(close(x[0], 2.0) && close(x[1], 3.0));
    assert!(solve_symmetric(&Ieee, vec![vec![1.0, 2.0], vec![2.0, 4.0]], vec![1.0, 2.0]).is_none());
}

#[test]
fn least_squares_fits_a_line() {
    let columns = vec![vec![1.0; 4], vec![0.0, 1.0, 2.0, 3.0]];
    let x = lstsq(&Ieee, &columns, &vec![1.0, 3.0, 5.0, 7.0]).unwrap();
    assert!(close(x[0], 1.0) && close(x[1], 2.0));
}

#[test]
fn linear_gradient_vanishes() {
    let img = ramp(64, 64);
    let out = remove_gradient(&Ieee, &img, &GradientParams::defaults(&Ieee));
    assert!(out.channel(0).iter().all(|&v| v < 0.02));
}

#[test]
fn single_pixel_cannot_be_fitted() {
    let img = Image::new_mono(1, 1, vec![0.75]);
    let out = remove_gradient(&Ieee, &img, &GradientParams::defaults(&Ieee));
    assert_eq!(out, img);
}

// --- Enhancement -------------------------------------------------------------

#[test]
fn contrast_moves_away_from_the_mean() {
    let mut img = Image::new_mono(2, 2, vec![0.25, 0.5, 0.5, 0.75]);
    contrast(&Ieee, &mut img, 2.0);
    assert_eq!(img.channel(0), &[0.0, 0.5, 0.5, 1.0]);
    contrast(&Ieee, &mut img, 0.5);
    assert_eq!(img.channel(0), &[0.0, 0.5, 0.5, 1.0]);
    let mut empty = Image::new_mono(0, 0, vec![]);
    contrast(&Ieee, &mut empty, 2.0);
    assert_eq!(empty.pixels_per_channel(), 0);
}

#[test]
fn calibration_meets_the_mean() {
    let mut img = Image::new_rgb(4, 4, [vec![0.75; 16], vec![0.5; 16], vec![0.25; 16]]);
    color_calibrate(&Ieee, &mut img);
    for c in 0..3 {
        assert!(img.channel(c).iter().all(|&v| close(v, 0.5)));
    }
    let mut mono = ramp(4, 4);
    color_calibrate(&Ieee, &mut mono);
    assert_eq!(mono, ramp(4, 4));
    let mut dark = Image::new_rgb(4, 4, [vec![0.0; 16], vec![0.0; 16], vec![0.0; 16]]);
    color_calibrate(&Ieee, &mut dark);
    assert_eq!(dark.channel(1), &[0.0; 16]);
}

#[test]
fn star_region_is_grown_three_steps() {
    let n = 40;
    let mut data = vec![0.5; n * n];
    data[20 * n + 20] = 1.0;
    let mut img = Image::new_mono(n, n, data);
    reduce_stars(&Ieee, &mut img, 0.8);
    // Inside the grown region the sky is dimmed most; outside it recovers
    assert!(img.get(20, 20, 0) < 0.9);
    assert!(img.get(22, 20, 0) < img.get(25, 20, 0));
    assert!(img.get(25, 20, 0) < img.get(32, 20, 0));
    assert!(close(img.get(33, 20, 0), 0.5));
}

#[test]
fn blur_spreads_a_point_evenly() {
    let mut data = vec![0.0; 81];
    data[40] = 1.0;
    let out = gaussian_blur(&Ieee, &data, 9, 9, 1.0).unwrap();
    let norm: f64 = (-3..=3).map(|d: i32| (-(d * d) as f64 / 2.0).exp()).sum();
    assert!(close(out[40], 1.0 / (norm * norm)));
    assert!(close(out[41], out[31]) && close(out[39], out[49]));
    assert_eq!(gaussian_blur(&Ieee, &data, 9, 9, 0.0).unwrap(), data);
    assert!(gaussian_blur(&Ieee, &data, 9, 9, 1e300).is_none());
}

// --- Stretching --------------------------------------------------------------

fn ready(algorithm: StretchAlgorithm<f64>) -> StretchOptions<f64> {
    StretchOptions { algorithm, autocrop: false, pre_normalized: true }
}

#[test]
fn normalization_spans_the_percentiles() {
    let mut img = Image::new_mono(2, 2, vec![10.0, 20.0, 30.0, 40.0]);
    normalize_to_01(&Ieee, &mut img, (0, 0, 0, 0));
    let low = 10.0 + 0.003 * 10.0;
    let high = 40.0 - 0.0003 * 10.0;
    let expected = (20.0 - low) / (high - low);
    assert_eq!(img.get(0, 0, 0), 0.0);
    assert!((img.get(1, 0, 0) - expected).abs() < 1e-9);
    assert_eq!(img.get(1, 1, 0), 1.0);
}

#[test]
fn normalization_uses_the_interior() {
    let mut img = Image::new_mono(1, 4, vec![1000.0, 10.0, 20.0, 30.0]);
    normalize_to_01(&Ieee, &mut img, (1, 0, 0, 0));
    assert_eq!(img.get(0, 0, 0), 1.0);
    assert!(img.get(0, 2, 0) > 0.49 && img.get(0, 2, 0) < 0.51);
}

#[test]
fn arcsinh_matches_its_formula() {
    let img = Image::new_mono(3, 1, vec![0.0, 0.5, 1.0]);
    let out = stretch(&Ieee, img, &ready(StretchAlgorithm::Arcsinh { factor: 0.25 }));
    assert_eq!(out.get(0, 0, 0), 0.0);
    assert!(close(out.get(1, 0, 0), 2f64.asinh() / 4f64.asinh()));
    assert_eq!(out.get(2, 0, 0), 1.0);
}

#[test]
fn log_matches_its_formula() {
    let img = Image::new_mono(2, 1, vec![0.5, 1.0]);
    let out = stretch(&Ieee, img, &ready(StretchAlgorithm::Log { factor: 1.0 }));
    assert!(close(out.get(0, 0, 0), 51f64.ln() / 101f64.ln()));
    assert!(close(out.get(1, 0, 0), 1.0));
}

#[test]
fn linear_clips_to_its_percentiles() {
    let img = Image::new_mono(5, 1, vec![0.1, 0.2, 0.3, 0.4, 0.5]);
    let algorithm = StretchAlgorithm::Linear { low_percentile: 25.0, high_percentile: 75.0 };
    let out = stretch(&Ieee, img, &ready(algorithm));
    let expected = [0.0, 0.0, 0.5, 1.0, 1.0];
    assert!((0..5).all(|x| close(out.get(x, 0, 0), expected[x])));
    let flat = Image::new_mono(2, 1, vec![0.3, 0.3]);
    assert_eq!(stretch(&Ieee, flat.clone(), &ready(algorithm)), flat);
}

#[test]
fn statistical_moves_the_median() {
    let img = Image::new_mono(5, 1, vec![0.0, 0.25, 0.5, 0.75, 1.0]);
    let algorithm = StretchAlgorithm::Statistical {
        target_median: 0.25,
        low_percentile: 0.0,
        high_percentile: 100.0,
    };
    let out = stretch(&Ieee, img, &ready(algorithm));
    let gamma = 0.25f64.ln() / 0.625f64.ln();
    assert!(close(out.get(1, 0, 0), 0.25f64.powf(gamma)));
    assert_eq!(out.get(0, 0, 0), 0.0);
    assert_eq!(out.get(4, 0, 0), 1.0);
    let dark = Image::new_mono(2, 1, vec![-1.0, -1.0]);
    assert_eq!(stretch(&Ieee, dark.clone(), &ready(algorithm)), dark);
}

#[test]
fn mtf_statistics_filter_their_samples() {
    let data = [-1.0, 0.0, 0.1, 0.2, 0.3, 1.5];
    let linked = mtf_stats_linked(&Ieee, &data);
    assert_eq!(linked.count, 4);
    assert!(close(linked.median, 0.25));
    assert!(close(linked.p25, 0.175));
    assert!(close(linked.mad, 0.1));
    let channel = mtf_stats_channel(&Ieee, &data);
    assert_eq!(channel.count, 3);
    assert!(close(channel.median, 0.2) && close(channel.p25, 0.15));
    let none = mtf_stats_linked(&Ieee, &[0.0, -1.0]);
    assert_eq!((none.median, none.p25, none.mad, none.count), (0.0, 0.0, 0.01, 0));
    assert_eq!(mtf_stats_linked(&Ieee, &[0.5, 0.5]).mad, 1e-6);
}

#[test]
fn mtf_lands_the_background() {
    let img = Image::new_mono(4, 1, vec![0.1, 0.2, 0.3, 0.4]);
    let algorithm = StretchAlgorithm::Mtf { bg_percent: 0.5, sigma: 0.0, linked: true };
    let out = stretch(&Ieee, img, &ready(algorithm));
    // Shadow at the lower quartile, median of what is left at one half
    let shadow = 0.175;
    let m = (0.25 - shadow) / (1.0 - shadow);
    let midtone = m * (0.5 - 1.0) / (2.0 * 0.5 * m - 0.5 - m);
    let x = (0.4 - shadow) / (1.0 - shadow);
    let expected = (midtone - 1.0) * x / ((2.0 * midtone - 1.0) * x - midtone);
    assert!(close(out.get(3, 0, 0), expected));
    assert_eq!(out.get(0, 0, 0), 0.0);
}

#[test]
fn green_is_pulled_to_the_mean() {
    let pixel = || Image::new_rgb(2, 1, [vec![0.2, 0.4], vec![0.8, 0.1], vec![0.4, 0.4]]);
    let mut img = pixel();
    remove_green(&Ieee, &mut img, 0.5);
    assert!(close(img.get(0, 0, 1), 0.55));
    assert_eq!(img.get(1, 0, 1), 0.1);
    let mut full = pixel();
    remove_green(&Ieee, &mut full, 7.0);
    assert!(close(full.get(0, 0, 1), 0.3));
    let mut off = pixel();
    remove_green(&Ieee, &mut off, 0.0);
    assert_eq!(off, pixel());
    let mut mono = ramp(2, 2);
    remove_green(&Ieee, &mut mono, 1.0);
    assert_eq!(mono, ramp(2, 2));
}

#[test]
fn saturation_stays_in_the_unit_range() {
    let mut img = Image::new_rgb(1, 1, [vec![0.9], vec![0.1], vec![0.1]]);
    saturate(&Ieee, &mut img, 10.0);
    assert_eq!((img.get(0, 0, 0), img.get(0, 0, 1)), (1.0, 0.0));
}

// --- Pipeline ----------------------------------------------------------------

#[test]
fn tone_mapping_ignores_denoising() {
    let img = ramp(16, 16);
    let plain = PipelineConfig { gradient_removal: false, ..PipelineConfig::defaults(&Ieee) };
    let smooth = PipelineConfig { denoise: true, denoise_threshold: 0.0, ..plain };
    assert_eq!(prepare(&Ieee, img.clone(), &plain), prepare(&Ieee, img, &smooth));
}

#[test]
fn every_step_keeps_shape_and_range() {
    let frame = make_test_image(&Ieee, &SyntheticParams {
        width: 48,
        height: 40,
        rgb: true,
        n_stars: 10,
        seed: 5,
        ..SyntheticParams::defaults(&Ieee)
    });
    let config = PipelineConfig {
        denoise: true,
        color_calibration: true,
        contrast: 1.2,
        star_reduction: true,
        ..PipelineConfig::defaults(&Ieee)
    };
    let out = process(&Ieee, frame.data.clone(), &config);
    assert_eq!((out.width(), out.height(), out.num_channels()), (48, 40, 3));
    assert!(out.channels().iter().flatten().all(|&v| (0.0..=1.0).contains(&v)));
    assert_eq!(out, process(&Ieee, frame.data, &config));
}

#[test]
fn empty_frame_passes_without_gradient_removal() {
    let config = PipelineConfig { gradient_removal: false, ..PipelineConfig::defaults(&Ieee) };
    let out = process(&Ieee, Image::new_mono(0, 0, vec![]), &config);
    assert_eq!(out.pixels_per_channel(), 0);
}

// --- Synthetic images ----------------------------------------------------------

#[test]
fn random_numbers_are_splitmix() {
    let mut rng = Rng::new(0);
    assert_eq!(rng.next_u64(), 0xE220A8397B1DCDAF);
    assert_eq!(rng.next_u64(), 0x6E789E6AA1B965F4);
    assert_eq!(rng.next_u64(), 0x06C45D188009454F);
    assert_eq!(Rng::new(0).below(10), (0xE220A8397B1DCDAFu64 % 10) as usize);
}

#[test]
fn draws_do_not_repeat() {
    let mut rng = Rng::new(42);
    let mut seen: Vec<u64> = (0..2000).map(|_| rng.next_u64()).collect();
    seen.sort_unstable();
    seen.dedup();
    assert_eq!(seen.len(), 2000);
}

#[test]
fn top_edge_can_cover_the_frame() {
    let params = SyntheticParams {
        width: 4,
        height: 3,
        n_stars: 0,
        noise_sigma: 0.0,
        dark_edges: (3, 9, 0, 9),
        ..SyntheticParams::defaults(&Ieee)
    };
    let img = make_test_image(&Ieee, &params);
    assert!(img.clean.channel(0).iter().all(|&v| v == 800.0 * 0.02));
}

#[test]
fn first_star_comes_from_the_first_draw() {
    let params = SyntheticParams { n_stars: 2, ..SyntheticParams::defaults(&Ieee) };
    let img = make_test_image(&Ieee, &params);
    let margin = 4.0 * 1.6;
    let unit = |n: usize| {
        let mut rng = Rng::new(0);
        let mut z = 0;
        for _ in 0..=n {
            z = rng.next_u64();
        }
        (z >> 11) as f64 / (1u64 << 53) as f64
    };
    assert_eq!(img.stars[0].x, margin + (256.0 - margin - margin) * unit(0));
    assert_eq!(img.stars[1].y, margin + (256.0 - margin - margin) * unit(3));
    let (lo, hi) = (200f64.ln(), 40000f64.ln());
    assert_eq!(img.stars[1].amplitude, (lo + (hi - lo) * unit(5)).exp());
}

#[test]
fn empty_sky_is_the_background() {
    let params = SyntheticParams {
        width: 6,
        height: 5,
        n_stars: 0,
        noise_sigma: 0.0,
        dark_edges: (1, 0, 0, 2),
        rgb: true,
        ..SyntheticParams::defaults(&Ieee)
    };
    let img = make_test_image(&Ieee, &params);
    assert_eq!(img.data, img.clean);
    assert_eq!(img.data.get(0, 1, 0), 800.0);
    assert_eq!(img.data.get(0, 1, 1), 800.0 * 0.85);
    assert_eq!(img.data.get(0, 0, 0), 800.0 * 0.02);
    assert_eq!(img.data.get(4, 3, 0), 800.0 * 0.02);
    assert_eq!(img.data.get(3, 3, 0), 800.0);
}

#[test]
fn hot_pixels_reach_every_channel() {
    let params = SyntheticParams {
        width: 6,
        height: 5,
        n_stars: 0,
        noise_sigma: 0.0,
        hot_pixels: 1,
        rgb: true,
        ..SyntheticParams::defaults(&Ieee)
    };
    let img = make_test_image(&Ieee, &params);
    let mut rng = Rng::new(0);
    let y = rng.below(5);
    let x = rng.below(6);
    for c in 0..3 {
        assert_eq!(img.data.get(x, y, c), 60000.0);
        let hot = img.data.channel(c).iter().filter(|&&v| v == 60000.0).count();
        assert_eq!(hot, 1);
    }
}

#[test]
fn sky_gradient_peaks_at_its_amplitude() {
    let params = SyntheticParams {
        width: 8,
        height: 8,
        n_stars: 0,
        noise_sigma: 0.0,
        gradient_amplitude: 100.0,
        ..SyntheticParams::defaults(&Ieee)
    };
    let img = make_test_image(&Ieee, &params);
    assert_eq!(img.clean.get(0, 0, 0), 800.0);
    assert_eq!(img.clean.get(7, 7, 0), 900.0);
    assert!(close(img.clean.get(7, 0, 0), 850.0));
}

#[test]
fn sky_gradient_of_one_pixel_is_its_amplitude() {
    let params = SyntheticParams {
        width: 1,
        height: 1,
        n_stars: 0,
        noise_sigma: 0.0,
        gradient_amplitude: 100.0,
        ..SyntheticParams::defaults(&Ieee)
    };
    let img = make_test_image(&Ieee, &params);
    assert_eq!(img.clean.get(0, 0, 0), 900.0);
    assert_eq!(img.data, img.clean);
}

#[test]
fn sky_gradient_of_one_column_peaks_at_its_foot() {
    let params = SyntheticParams {
        width: 1,
        height: 3,
        n_stars: 0,
        noise_sigma: 0.0,
        gradient_amplitude: 100.0,
        ..SyntheticParams::defaults(&Ieee)
    };
    let img = make_test_image(&Ieee, &params);
    assert_eq!(img.clean.get(0, 0, 0), 800.0);
    assert!(close(img.clean.get(0, 1, 0), 850.0));
    assert_eq!(img.clean.get(0, 2, 0), 900.0);
}

#[test]
fn nebula_peaks_at_its_amplitude() {
    let params = SyntheticParams {
        width: 16,
        height: 16,
        n_stars: 0,
        noise_sigma: 0.0,
        nebula_amplitude: 50.0,
        ..SyntheticParams::defaults(&Ieee)
    };
    let img = make_test_image(&Ieee, &params);
    let peak = img.clean.channel(0).iter().copied().fold(0.0, f64::max);
    assert!((peak - 850.0).abs() < 1e-9);
}

// --- FITS layout and output ------------------------------------------------------

#[test]
fn planar_data_round_trip() {
    let mono = ramp(3, 2);
    let back = image_from_planar(&planar_shape(&mono), planar_samples(&mono)).unwrap();
    assert_eq!(back, mono);
    let rgb = Image::new_rgb(2, 1, [vec![1.0, 2.0], vec![3.0, 4.0], vec![5.0, 6.0]]);
    assert_eq!(planar_shape(&rgb), vec![2, 1, 3]);
    assert_eq!(planar_samples(&rgb), vec![1.0, 2.0, 3.0, 4.0, 5.0, 6.0]);
    let back = image_from_planar(&planar_shape(&rgb), planar_samples(&rgb)).unwrap();
    assert_eq!(back, rgb);
}

#[test]
fn extra_planes_are_ignored() {
    let img = image_from_planar(&[2, 1, 2], vec![1.0, 2.0, 3.0, 4.0]).unwrap();
    assert_eq!(img, Image::new_mono(2, 1, vec![1.0, 2.0]));
    let img = image_from_planar(&[1, 1, 4], vec![1.0, 2.0, 3.0, 4.0]).unwrap();
    assert_eq!(img, Image::new_rgb(1, 1, [vec![1.0], vec![2.0], vec![3.0]]));
}

#[test]
fn truncated_data_are_refused() {
    let e = image_from_planar(&[25, 40], vec![0.0; 907]).unwrap_err();
    assert!(matches!(e, Error::Fits(_)));
    assert_eq!(
        e.message(),
        "FITS error: truncated FITS data: expected at least 1000 samples, got 907"
    );
}

#[test]
fn samples_without_a_value_read_as_zero() {
    assert_eq!(signed_samples(&[Some(-7), None, Some(i32::MAX)]), vec![-7, 0, i32::MAX]);
    assert_eq!(unsigned_samples(&[None, Some(u32::MAX), Some(3)]), vec![0, u32::MAX, 3]);
    assert!(signed_samples(&[]).is_empty());
    assert!(unsigned_samples(&[]).is_empty());
}

#[test]
fn units_without_an_image_are_skipped() {
    assert!(image_of_hdu::<f64>(&[], vec![]).is_none());
    assert!(image_of_hdu(&[7], vec![1.0; 7]).is_none());
    assert!(image_of_hdu::<f64>(&[4, 3, 0], vec![]).is_none());
    assert_eq!(image_of_hdu(&[2, 1], vec![1.0, 2.0]).unwrap().unwrap().width(), 2);
    assert!(image_of_hdu(&[2, 2], vec![1.0]).unwrap().is_err());
}

#[test]
fn messages_name_their_error() {
    let s = || String::from("x");
    assert_eq!(Error::Io(s()).message(), "I/O error: x");
    assert_eq!(Error::FileNotFound(s()).message(), "FITS file not found: x");
    assert_eq!(Error::NoImageData(s()).message(), "no image data found in FITS file: x");
    assert_eq!(Error::Fits(s()).message(), "FITS error: x");
    assert_eq!(Error::UnsupportedLayout(s()).message(), "unsupported FITS layout: x");
    assert_eq!(Error::Image(s()).message(), "image encoding error: x");
}

#[test]
fn bytes_are_interleaved() {
    let rgb = Image::new_rgb(2, 1, [vec![0.0, 1.0], vec![0.5, 2.0], vec![-1.0, 0.2]]);
    assert_eq!(to_bytes(&Ieee, &rgb), vec![0, 127, 0, 255, 255, 51]);
    match to_dynamic_image(&Ieee, &rgb) {
        DynamicImage::ImageRgb8(img) => {
            assert_eq!((img.width(), img.height()), (2, 1));
            assert_eq!(img.get_pixel(1, 0).0, [255, 255, 51]);
        }
        _ => panic!("not an RGB image"),
    }
}

#[test]
fn mono_becomes_grayscale() {
    let mono = Image::new_mono(1, 2, vec![0.25, 1.0]);
    assert_eq!(to_bytes(&Ieee, &mono), vec![63, 255]);
    match to_dynamic_image(&Ieee, &mono) {
        DynamicImage::ImageLuma8(img) => {
            assert_eq!((img.width(), img.height()), (1, 2));
            assert_eq!(img.get_pixel(0, 1).0, [255]);
        }
        _ => panic!("not a grayscale image"),
    }
}

#[test]
fn jpeg_is_recognized_in_any_case() {
    for name in ["jpg", "JPG", "jpeg", "Jpeg", "jPEG"] {
        assert!(is_jpeg(name));
    }
    for name in ["", "png", "jp", "jpgx", "jpeeg", "jpe"] {
        assert!(!is_jpeg(name));
    }
}
