//! A display stretch that applies the solution per pixel reproduces the
//! pipeline.

use processinator::arith::Arithmetic;
use processinator::{
    make_test_image, mtf_display_solution, mtf_stats_channel, mtf_stats_linked, prepare, process,
    remove_green, saturate, stretch, Image, MtfSolution, MtfStats, PipelineConfig,
    StretchAlgorithm, StretchOptions, SyntheticImage, SyntheticParams,
};

/// IEEE 754 double precision arithmetic.
struct Ieee;

impl Arithmetic<f64> for Ieee {
    fn ratio(&self, p: u64, q: u64) -> f64 {
        p as f64 / q as f64
    }

    fn count(&self, n: usize) -> f64 {
        n as f64
    }

    fn infinity(&self) -> f64 {
        f64::INFINITY
    }

    fn turn(&self) -> f64 {
        std::f64::consts::TAU
    }

    fn neg(&self, a: f64) -> f64 {
        -a
    }

    fn abs(&self, a: f64) -> f64 {
        a.abs()
    }

    fn signum(&self, a: f64) -> f64 {
        a.signum()
    }

    fn sqrt(&self, a: f64) -> f64 {
        a.sqrt()
    }

    fn exp(&self, a: f64) -> f64 {
        a.exp()
    }

    fn ln(&self, a: f64) -> f64 {
        a.ln()
    }

    fn ln_1p(&self, a: f64) -> f64 {
        a.ln_1p()
    }

    fn asinh(&self, a: f64) -> f64 {
        a.asinh()
    }

    fn cos(&self, a: f64) -> f64 {
        a.cos()
    }

    fn floor(&self, a: f64) -> f64 {
        a.floor()
    }

    fn ceil(&self, a: f64) -> f64 {
        a.ceil()
    }

    fn plus(&self, a: f64, b: f64) -> f64 {
        a + b
    }

    fn minus(&self, a: f64, b: f64) -> f64 {
        a - b
    }

    fn times(&self, a: f64, b: f64) -> f64 {
        a * b
    }

    fn over(&self, a: f64, b: f64) -> f64 {
        a / b
    }

    fn least(&self, a: f64, b: f64) -> f64 {
        a.min(b)
    }

    fn most(&self, a: f64, b: f64) -> f64 {
        a.max(b)
    }

    fn powf(&self, a: f64, b: f64) -> f64 {
        a.powf(b)
    }

    fn powi(&self, a: f64, n: usize) -> f64 {
        a.powi(n as i32)
    }

    fn clamp(&self, a: f64, low: f64, high: f64) -> f64 {
        a.clamp(low, high)
    }

    fn less(&self, a: f64, b: f64) -> bool {
        a < b
    }

    fn less_or_equal(&self, a: f64, b: f64) -> bool {
        a <= b
    }

    fn equal(&self, a: f64, b: f64) -> bool {
        a == b
    }

    fn is_nan(&self, a: f64) -> bool {
        a.is_nan()
    }

    fn order_key(&self, a: f64) -> u64 {
        // Adding zero turns -0.0 into 0.0
        let bits = (a + 0.0).to_bits();
        if bits >> 63 == 1 {
            !bits
        } else {
            bits | 1 << 63
        }
    }

    fn to_index(&self, a: f64) -> usize {
        a as usize
    }

    fn to_offset(&self, a: f64) -> i64 {
        a as i64
    }

    fn to_byte(&self, a: f64) -> u8 {
        a as u8
    }
}

/// Plain mono star field with noise.
fn mono_field() -> SyntheticImage<f64> {
    make_test_image(&Ieee, &SyntheticParams {
        seed: 42,
        ..SyntheticParams::defaults(&Ieee)
    })
}

/// RGB star field with a color cast.
fn rgb_field() -> SyntheticImage<f64> {
    make_test_image(&Ieee, &SyntheticParams {
        rgb: true,
        seed: 42,
        ..SyntheticParams::defaults(&Ieee)
    })
}

/// Mono field with a strong sky gradient and some nebulosity.
fn gradient_field() -> SyntheticImage<f64> {
    make_test_image(&Ieee, &SyntheticParams {
        gradient_amplitude: 400.0,
        nebula_amplitude: 200.0,
        seed: 7,
        ..SyntheticParams::defaults(&Ieee)
    })
}

const BG: f64 = 0.15;
const SIGMA: f64 = 3.0;

/// Number of histogram bins.
const HIST_BINS: usize = 1 << 16;

fn config(bg_percent: f64, sigma: f64) -> PipelineConfig<f64> {
    PipelineConfig {
        stretch: StretchAlgorithm::Mtf {
            bg_percent,
            sigma,
            linked: true,
        },
        ..PipelineConfig::defaults(&Ieee)
    }
}

/// Per-pixel application of the solution, as a fragment
/// shader does it: `clamp((v - shadow) * scale)` → MTF → green removal → saturation.
fn shader_stretch(prepared: &Image<f64>, sol: &MtfSolution<f64>, cfg: &PipelineConfig<f64>) -> Image<f64> {
    let mut out = prepared.clone();
    for (c, ch) in out.channels_mut().iter_mut().enumerate() {
        let shadow = sol.shadows[c];
        for v in ch.iter_mut() {
            let x = ((*v - shadow) * sol.scale).clamp(0.0, 1.0);
            let denom = (2.0 * sol.midtone - 1.0) * x - sol.midtone;
            *v = if denom.abs() < 1e-10 {
                x
            } else {
                ((sol.midtone - 1.0) * x / denom).clamp(0.0, 1.0)
            };
        }
    }
    remove_green(&Ieee, &mut out, cfg.green_removal);
    saturate(&Ieee, &mut out, cfg.saturation);
    out
}

fn max_abs_diff(a: &Image<f64>, b: &Image<f64>) -> f64 {
    assert_eq!(a.num_channels(), b.num_channels());
    a.channels()
        .iter()
        .zip(b.channels())
        .flat_map(|(ca, cb)| ca.iter().zip(cb.iter()).map(|(x, y)| (x - y).abs()))
        .fold(0.0, f64::max)
}

#[test]
fn shader_path_matches_pipeline_rgb() {
    let field = rgb_field();
    let cfg = config(BG, SIGMA);
    let expected = process(&Ieee, field.data.clone(), &cfg);

    let prepared = prepare(&Ieee, field.data.clone(), &cfg);
    let sol = mtf_display_solution(&Ieee, &prepared, BG, SIGMA);
    let actual = shader_stretch(&prepared, &sol, &cfg);

    let diff = max_abs_diff(&actual, &expected);
    assert!(diff < 1e-12, "shader path diverged from pipeline: {diff}");
}

#[test]
fn shader_path_matches_pipeline_mono() {
    let field = gradient_field();
    let cfg = config(BG, SIGMA);
    let expected = process(&Ieee, field.data.clone(), &cfg);

    let prepared = prepare(&Ieee, field.data.clone(), &cfg);
    let sol = mtf_display_solution(&Ieee, &prepared, BG, SIGMA);
    let actual = shader_stretch(&prepared, &sol, &cfg);

    let diff = max_abs_diff(&actual, &expected);
    assert!(diff < 1e-12, "shader path diverged from pipeline: {diff}");
}

#[test]
fn prepare_then_stretch_equals_process() {
    // prepare() must stay the exact pre-stretch prefix of process()
    let field = rgb_field();
    let cfg = config(BG, SIGMA);
    let expected = process(&Ieee, field.data.clone(), &cfg);

    let prepared = prepare(&Ieee, field.data.clone(), &cfg);
    let stretched = stretch(
        &Ieee,
        prepared.clone(),
        &StretchOptions {
            algorithm: cfg.stretch.clone(),
            autocrop: false,
            pre_normalized: true,
        },
    );
    let mut finished = stretched;
    remove_green(&Ieee, &mut finished, cfg.green_removal);
    saturate(&Ieee, &mut finished, cfg.saturation);

    assert!(max_abs_diff(&finished, &expected) == 0.0);
}

// ---------------------------------------------------------------------------
// Display-side solution reconstruction (stats + histogram)
// ---------------------------------------------------------------------------

fn histogram(data: &[f64]) -> Vec<u32> {
    let mut hist = vec![0u32; HIST_BINS];
    for &v in data {
        if v > 0.0 {
            let bin = ((v * HIST_BINS as f64) as usize).min(HIST_BINS - 1);
            hist[bin] += 1;
        }
    }
    hist
}

/// Median of the histogrammed values strictly above `threshold`, assuming a
/// uniform distribution inside each bin. None when nothing lies above.
fn conditional_median(hist: &[u32], threshold: f64) -> Option<f64> {
    let bins = hist.len() as f64;
    let t = threshold.max(0.0);
    let tb = ((t * bins) as usize).min(hist.len() - 1);
    let bin_lo = tb as f64 / bins;
    let bin_hi = (tb as f64 + 1.0) / bins;
    let frac_above = if t <= bin_lo {
        1.0
    } else {
        ((bin_hi - t) * bins).max(0.0)
    };

    let first = hist[tb] as f64 * frac_above;
    let total: f64 = first + hist[tb + 1..].iter().map(|&c| c as f64).sum::<f64>();
    if total <= 0.0 {
        return None;
    }

    let target = total / 2.0;
    if first >= target {
        return Some(t + (target / first) * (bin_hi - t));
    }
    let mut acc = first;
    for (i, &c) in hist.iter().enumerate().skip(tb + 1) {
        let c = c as f64;
        if acc + c >= target {
            return Some((i as f64 + (target - acc) / c) / bins);
        }
        acc += c;
    }
    Some((bins - 0.5) / bins)
}

fn midtone_for_background(median: f64, bg_percent: f64) -> f64 {
    if median > 0.0 && median < 1.0 && bg_percent > 0.0 {
        let m = median * (bg_percent - 1.0) / (2.0 * bg_percent * median - bg_percent - median);
        m.clamp(1e-4, 0.9999)
    } else {
        0.5
    }
}

/// The frontend's linked-color solution from serialized stats + histogram.
fn frontend_linked_solution(
    stats: &[MtfStats<f64>],
    hist: &[u32],
    bg_percent: f64,
    sigma: f64,
) -> MtfSolution<f64> {
    let k = sigma * 1.4826;
    let residual = stats
        .iter()
        .map(|s| (s.median - s.p25) + k * s.mad)
        .fold(f64::INFINITY, f64::min);
    let shadows: Vec<f64> = stats
        .iter()
        .map(|s| (s.median - residual).max(0.0))
        .collect();
    let max_shadow = shadows.iter().copied().fold(0.0, f64::max);
    let scale = 1.0 / (1.0 - max_shadow).max(1e-6);

    let ref_idx = std::cmp::min(1, stats.len() - 1);
    let ref_median = match conditional_median(hist, shadows[ref_idx]) {
        Some(mc) => ((mc - shadows[ref_idx]) * scale).clamp(0.0, 1.0),
        None => 0.0,
    };
    MtfSolution {
        shadows,
        scale,
        midtone: midtone_for_background(ref_median, bg_percent),
    }
}

/// The frontend's mono solution — analytic, stats only.
fn frontend_mono_solution(stats: &MtfStats<f64>, bg_percent: f64, sigma: f64) -> MtfSolution<f64> {
    if stats.count == 0 {
        return MtfSolution {
            shadows: vec![0.0],
            scale: 1.0,
            midtone: 0.5,
        };
    }
    let shadow = (stats.p25 - sigma * stats.mad * 1.4826).max(0.0);
    let range = 1.0 - shadow;
    let median_norm = (stats.median - shadow) / range;
    MtfSolution {
        shadows: vec![shadow],
        scale: 1.0 / range,
        midtone: midtone_for_background(median_norm, bg_percent),
    }
}

#[test]
fn frontend_solution_matches_exact_rgb() {
    let field = rgb_field();
    let cfg = config(BG, SIGMA);
    let prepared = prepare(&Ieee, field.data.clone(), &cfg);

    let stats: Vec<MtfStats<f64>> = prepared
        .channels()
        .iter()
        .map(|ch| mtf_stats_linked(&Ieee, ch))
        .collect();
    let hist = histogram(prepared.channel(1));

    for (bg, sigma) in [
        (0.10, 3.0),
        (0.15, 3.0),
        (0.25, 2.0),
        (0.40, 1.0),
        (0.15, 0.0),
    ] {
        let exact = mtf_display_solution(&Ieee, &prepared, bg, sigma);
        let front = frontend_linked_solution(&stats, &hist, bg, sigma);

        // Shadows and scale are pure scalar math over the same stats — exact
        assert_eq!(front.shadows, exact.shadows, "bg={bg} sigma={sigma}");
        assert!((front.scale - exact.scale).abs() < 1e-15);

        // The midtone goes through the histogram approximation
        assert!(
            (front.midtone - exact.midtone).abs() < 1e-3,
            "midtone diverged at bg={bg} sigma={sigma}: {} vs {}",
            front.midtone,
            exact.midtone
        );

        // And the approximation must be invisible in the rendered image
        let img_exact = shader_stretch(&prepared, &exact, &cfg);
        let img_front = shader_stretch(&prepared, &front, &cfg);
        let diff = max_abs_diff(&img_exact, &img_front);
        assert!(
            diff < 2.0 / 255.0,
            "histogram midtone visibly changed the image at bg={bg} sigma={sigma}: {diff}"
        );
    }
}

#[test]
fn frontend_solution_matches_exact_mono() {
    let field = mono_field();
    let cfg = config(BG, SIGMA);
    let prepared = prepare(&Ieee, field.data.clone(), &cfg);

    let stats = mtf_stats_channel(&Ieee, prepared.channel(0));

    for (bg, sigma) in [(0.10, 3.0), (0.15, 3.0), (0.25, 2.0), (0.40, 1.0)] {
        let exact = mtf_display_solution(&Ieee, &prepared, bg, sigma);
        let front = frontend_mono_solution(&stats, bg, sigma);
        // Mono is fully analytic — identical
        assert_eq!(front, exact, "bg={bg} sigma={sigma}");
    }
}

#[test]
fn empty_channel_gets_identity_solution() {
    let flat = Image::new_mono(16, 16, vec![0.0; 256]);
    let sol = mtf_display_solution(&Ieee, &flat, BG, SIGMA);
    assert_eq!(sol.shadows, vec![0.0]);
    assert_eq!(sol.scale, 1.0);
    assert_eq!(sol.midtone, 0.5);

    // ...and the identity solution really is the identity map
    let data: Vec<f64> = (0..256).map(|i| i as f64 / 255.0).collect();
    let img = Image::new_mono(16, 16, data.clone());
    let out = shader_stretch(&img, &sol, &config(BG, SIGMA));
    assert_eq!(out.channel(0), &data[..]);
}
