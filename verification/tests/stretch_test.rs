//! Stretching algorithms.

use processinator::arith::Arithmetic;
use processinator::{saturate, stretch, Image, StretchAlgorithm, StretchOptions};

/// IEEE 754 double precision arithmetic.
struct Ieee;

impl Arithmetic<f64> for Ieee {
    fn ratio(&self, p: u64, q: u64) -> f64 {
        p as f64 / q as f64
    }

    fn count(&self, n: usize) -> f64 {
        n as f64
    }

    fn infinity(&self) -> f64 {
        f64::INFINITY
    }

    fn turn(&self) -> f64 {
        std::f64::consts::TAU
    }

    fn neg(&self, a: f64) -> f64 {
        -a
    }

    fn abs(&self, a: f64) -> f64 {
        a.abs()
    }

    fn signum(&self, a: f64) -> f64 {
        a.signum()
    }

    fn sqrt(&self, a: f64) -> f64 {
        a.sqrt()
    }

    fn exp(&self, a: f64) -> f64 {
        a.exp()
    }

    fn ln(&self, a: f64) -> f64 {
        a.ln()
    }

    fn ln_1p(&self, a: f64) -> f64 {
        a.ln_1p()
    }

    fn asinh(&self, a: f64) -> f64 {
        a.asinh()
    }

    fn cos(&self, a: f64) -> f64 {
        a.cos()
    }

    fn floor(&self, a: f64) -> f64 {
        a.floor()
    }

    fn ceil(&self, a: f64) -> f64 {
        a.ceil()
    }

    fn plus(&self, a: f64, b: f64) -> f64 {
        a + b
    }

    fn minus(&self, a: f64, b: f64) -> f64 {
        a - b
    }

    fn times(&self, a: f64, b: f64) -> f64 {
        a * b
    }

    fn over(&self, a: f64, b: f64) -> f64 {
        a / b
    }

    fn least(&self, a: f64, b: f64) -> f64 {
        a.min(b)
    }

    fn most(&self, a: f64, b: f64) -> f64 {
        a.max(b)
    }

    fn powf(&self, a: f64, b: f64) -> f64 {
        a.powf(b)
    }

    fn powi(&self, a: f64, n: usize) -> f64 {
        a.powi(n as i32)
    }

    fn clamp(&self, a: f64, low: f64, high: f64) -> f64 {
        a.clamp(low, high)
    }

    fn less(&self, a: f64, b: f64) -> bool {
        a < b
    }

    fn less_or_equal(&self, a: f64, b: f64) -> bool {
        a <= b
    }

    fn equal(&self, a: f64, b: f64) -> bool {
        a == b
    }

    fn is_nan(&self, a: f64) -> bool {
        a.is_nan()
    }

    fn order_key(&self, a: f64) -> u64 {
        // Adding zero turns -0.0 into 0.0
        let bits = (a + 0.0).to_bits();
        if bits >> 63 == 1 {
            !bits
        } else {
            bits | 1 << 63
        }
    }

    fn to_index(&self, a: f64) -> usize {
        a as usize
    }

    fn to_offset(&self, a: f64) -> i64 {
        a as i64
    }

    fn to_byte(&self, a: f64) -> u8 {
        a as u8
    }
}

/// Median (even-length inputs average the middle pair).
fn median(values: &[f64]) -> f64 {
    assert!(!values.is_empty());
    let mut buf = values.to_vec();
    buf.sort_by(|a, b| a.partial_cmp(b).unwrap());
    let mid = buf.len() / 2;
    if buf.len() % 2 == 1 {
        buf[mid]
    } else {
        0.5 * (buf[mid - 1] + buf[mid])
    }
}

/// All samples of all channels, concatenated.
fn all_values(img: &Image<f64>) -> Vec<f64> {
    img.channels().iter().flatten().copied().collect()
}

fn image_min(img: &Image<f64>) -> f64 {
    all_values(img).into_iter().fold(f64::INFINITY, f64::min)
}

fn image_max(img: &Image<f64>) -> f64 {
    all_values(img)
        .into_iter()
        .fold(f64::NEG_INFINITY, f64::max)
}

fn image_median(img: &Image<f64>) -> f64 {
    median(&all_values(img))
}

/// Assert every sample lies in [0, 1].
fn assert_unit_range(img: &Image<f64>) {
    assert!(image_min(img) >= 0.0, "min {} < 0", image_min(img));
    assert!(image_max(img) <= 1.0, "max {} > 1", image_max(img));
}

/// Deterministic RNG for building ad-hoc test data (SplitMix64 + Box-Muller).
struct TestRng {
    state: u64,
}

impl TestRng {
    fn new(seed: u64) -> Self {
        Self { state: seed }
    }

    fn next_u64(&mut self) -> u64 {
        self.state = self.state.wrapping_add(0x9E3779B97F4A7C15);
        let mut z = self.state;
        z = (z ^ (z >> 30)).wrapping_mul(0xBF58476D1CE4E5B9);
        z = (z ^ (z >> 27)).wrapping_mul(0x94D049BB133111EB);
        z ^ (z >> 31)
    }

    fn unit(&mut self) -> f64 {
        (self.next_u64() >> 11) as f64 / (1u64 << 53) as f64
    }

    fn normal(&mut self, mean: f64, sigma: f64) -> f64 {
        let u1 = 1.0 - self.unit();
        let u2 = self.unit();
        mean + sigma * (-2.0 * u1.ln()).sqrt() * (std::f64::consts::TAU * u2).cos()
    }
}

/// Simulate a typical FITS image: mostly dark with a few bright pixels.
fn grayscale_image() -> Image<f64> {
    let (w, h) = (256, 256);
    let mut rng = TestRng::new(42);
    let mut data: Vec<f64> = (0..w * h)
        .map(|_| rng.normal(100.0, 10.0).clamp(0.0, 65535.0))
        .collect();
    data[50 * w + 50] = 50000.0; // bright star
    data[100 * w + 150] = 30000.0; // medium star
    data[200 * w + 200] = 65000.0; // very bright star
    Image::new_mono(w, h, data)
}

/// RGB version of the test image.
fn rgb_image() -> Image<f64> {
    let gray = grayscale_image();
    let base = gray.channel(0);
    Image::new_rgb(
        gray.width(),
        gray.height(),
        [
            base.to_vec(),
            base.iter().map(|&v| v * 0.8).collect(),
            base.iter().map(|&v| v * 0.6).collect(),
        ],
    )
}

fn all_algorithms() -> Vec<StretchAlgorithm<f64>> {
    vec![
        StretchAlgorithm::mtf(&Ieee),
        StretchAlgorithm::arcsinh(&Ieee),
        StretchAlgorithm::log(&Ieee),
        StretchAlgorithm::linear(&Ieee),
        StretchAlgorithm::statistical(&Ieee),
    ]
}

// --- Output range: all algorithms should produce output in [0, 1] ---------

#[test]
fn output_range_grayscale() {
    let img = grayscale_image();
    for algo in all_algorithms() {
        let result = stretch(&Ieee, img.clone(), &StretchOptions::new(algo.clone()));
        assert_unit_range(&result);
    }
}

#[test]
fn output_range_rgb() {
    let img = rgb_image();
    for algo in all_algorithms() {
        let result = stretch(&Ieee, img.clone(), &StretchOptions::new(algo.clone()));
        assert_unit_range(&result);
    }
}

// --- Shape: output shape should match input shape --------------------------

#[test]
fn shape_preserved_grayscale() {
    let img = grayscale_image();
    for algo in all_algorithms() {
        let result = stretch(&Ieee, img.clone(), &StretchOptions::new(algo));
        assert_eq!(result.width(), img.width());
        assert_eq!(result.height(), img.height());
        assert_eq!(result.num_channels(), img.num_channels());
    }
}

#[test]
fn shape_preserved_rgb() {
    let img = rgb_image();
    for algo in all_algorithms() {
        let result = stretch(&Ieee, img.clone(), &StretchOptions::new(algo));
        assert_eq!(result.width(), img.width());
        assert_eq!(result.height(), img.height());
        assert_eq!(result.num_channels(), 3);
    }
}

// --- Behavior: stretching actually changes the data distribution -----------

#[test]
fn mtf_reveals_background() {
    let result = stretch(&Ieee, grayscale_image(), &StretchOptions::defaults(&Ieee));
    // After MTF stretch, the median should be closer to bg_percent (0.15)
    let median = image_median(&result);
    assert!(median > 0.01 && median < 0.5, "median = {median}");
}

#[test]
fn linear_uses_percentiles() {
    let result = stretch(
        &Ieee,
        grayscale_image(),
        &StretchOptions::new(StretchAlgorithm::linear(&Ieee)),
    );
    // Most values should be in the middle range after linear stretch
    assert!(image_median(&result) > 0.1);
}

#[test]
fn constant_image_produces_zeros() {
    let img = Image::new_mono(64, 64, vec![1000.0; 64 * 64]);
    let result = stretch(&Ieee, img.clone(), &StretchOptions::defaults(&Ieee));
    assert!(result.channel(0).iter().all(|&v| v == 0.0));
}

#[test]
fn default_algorithm_is_mtf() {
    let img = grayscale_image();
    let default_result = stretch(&Ieee, img.clone(), &StretchOptions::defaults(&Ieee));
    let mtf_result = stretch(&Ieee, img.clone(), &StretchOptions::new(StretchAlgorithm::mtf(&Ieee)));
    assert_eq!(default_result, mtf_result);
}

// --- Color behavior ---------------------------------------------------------

/// The linked MTF must not rebalance channels: a nebula that is brightest
/// in red keeps R > G > B through the stretch (regression test for the old
/// multiplicative background equalization, which crushed red and shifted
/// real captures green). Background and stars are identical across
/// channels so the per-channel normalization stays comparable; only the
/// nebula amplitude differs.
#[test]
fn linked_mtf_preserves_nebula_color() {
    let (w, h) = (256, 256);
    let mut rng = TestRng::new(42);
    let base: Vec<f64> = (0..w * h).map(|_| rng.normal(100.0, 10.0)).collect();

    let mut channels = [base.clone(), base.clone(), base];
    for (ch, nebula_amp) in channels.iter_mut().zip([300.0, 150.0, 75.0]) {
        // Shared bright stars anchor each channel's normalization ceiling
        ch[50 * w + 50] = 50000.0;
        ch[200 * w + 200] = 65000.0;
        // H-alpha-ish nebula: strongest in red
        for y in 100..140 {
            for x in 100..140 {
                ch[y * w + x] += nebula_amp;
            }
        }
    }
    let [r, g, b] = channels;
    let img = Image::new_rgb(w, h, [r, g, b]);

    let result = stretch(&Ieee, img.clone(), &StretchOptions::defaults(&Ieee));
    let nebula_mean = |c: usize| {
        let ch = result.channel(c);
        let mut sum = 0.0;
        for y in 110..130 {
            for x in 110..130 {
                sum += ch[y * w + x];
            }
        }
        sum / 400.0
    };
    let (r, g, b) = (nebula_mean(0), nebula_mean(1), nebula_mean(2));
    assert!(
        r > g + 0.02 && g > b + 0.02,
        "nebula color lost: r={r} g={g} b={b}"
    );
}

#[test]
fn saturate_scales_chroma_around_luminance() {
    let mut img = Image::new_rgb(1, 1, [vec![0.5], vec![0.3], vec![0.2]]);
    saturate(&Ieee, &mut img, 1.5);
    let lum = (0.5 + 0.3 + 0.2) / 3.0;
    for (c, orig) in [0.5, 0.3, 0.2].iter().enumerate() {
        let expected = lum + 1.5 * (orig - lum);
        assert!((img.channel(c)[0] - expected).abs() < 1e-12);
    }
}

#[test]
fn saturate_noop_for_factor_one_and_mono() {
    let mut rgb = Image::new_rgb(1, 1, [vec![0.5], vec![0.3], vec![0.2]]);
    saturate(&Ieee, &mut rgb, 1.0);
    assert_eq!(rgb.channel(0)[0], 0.5);

    let mut mono = Image::new_mono(1, 1, vec![0.5]);
    saturate(&Ieee, &mut mono, 2.0);
    assert_eq!(mono.channel(0)[0], 0.5);
}
