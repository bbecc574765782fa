//! Background gradient removal.

use processinator::arith::Arithmetic;
use processinator::{
    make_test_image, remove_gradient, GradientParams, Image, SyntheticImage, SyntheticParams,
};

/// IEEE 754 double precision arithmetic.
struct Ieee;

impl Arithmetic<f64> for Ieee {
    fn ratio(&self, p: u64, q: u64) -> f64 {
        p as f64 / q as f64
    }

    fn count(&self, n: usize) -> f64 {
        n as f64
    }

    fn infinity(&self) -> f64 {
        f64::INFINITY
    }

    fn turn(&self) -> f64 {
        std::f64::consts::TAU
    }

    fn neg(&self, a: f64) -> f64 {
        -a
    }

    fn abs(&self, a: f64) -> f64 {
        a.abs()
    }

    fn signum(&self, a: f64) -> f64 {
        a.signum()
    }

    fn sqrt(&self, a: f64) -> f64 {
        a.sqrt()
    }

    fn exp(&self, a: f64) -> f64 {
        a.exp()
    }

    fn ln(&self, a: f64) -> f64 {
        a.ln()
    }

    fn ln_1p(&self, a: f64) -> f64 {
        a.ln_1p()
    }

    fn asinh(&self, a: f64) -> f64 {
        a.asinh()
    }

    fn cos(&self, a: f64) -> f64 {
        a.cos()
    }

    fn floor(&self, a: f64) -> f64 {
        a.floor()
    }

    fn ceil(&self, a: f64) -> f64 {
        a.ceil()
    }

    fn plus(&self, a: f64, b: f64) -> f64 {
        a + b
    }

    fn minus(&self, a: f64, b: f64) -> f64 {
        a - b
    }

    fn times(&self, a: f64, b: f64) -> f64 {
        a * b
    }

    fn over(&self, a: f64, b: f64) -> f64 {
        a / b
    }

    fn least(&self, a: f64, b: f64) -> f64 {
        a.min(b)
    }

    fn most(&self, a: f64, b: f64) -> f64 {
        a.max(b)
    }

    fn powf(&self, a: f64, b: f64) -> f64 {
        a.powf(b)
    }

    fn powi(&self, a: f64, n: usize) -> f64 {
        a.powi(n as i32)
    }

    fn clamp(&self, a: f64, low: f64, high: f64) -> f64 {
        a.clamp(low, high)
    }

    fn less(&self, a: f64, b: f64) -> bool {
        a < b
    }

    fn less_or_equal(&self, a: f64, b: f64) -> bool {
        a <= b
    }

    fn equal(&self, a: f64, b: f64) -> bool {
        a == b
    }

    fn is_nan(&self, a: f64) -> bool {
        a.is_nan()
    }

    fn order_key(&self, a: f64) -> u64 {
        // Adding zero turns -0.0 into 0.0
        let bits = (a + 0.0).to_bits();
        if bits >> 63 == 1 {
            !bits
        } else {
            bits | 1 << 63
        }
    }

    fn to_index(&self, a: f64) -> usize {
        a as usize
    }

    fn to_offset(&self, a: f64) -> i64 {
        a as i64
    }

    fn to_byte(&self, a: f64) -> u8 {
        a as u8
    }
}

/// Plain mono star field with noise.
fn mono_field() -> SyntheticImage<f64> {
    make_test_image(&Ieee, &SyntheticParams {
        seed: 42,
        ..SyntheticParams::defaults(&Ieee)
    })
}

/// Mono field with a strong sky gradient and some nebulosity.
fn gradient_field() -> SyntheticImage<f64> {
    make_test_image(&Ieee, &SyntheticParams {
        gradient_amplitude: 400.0,
        nebula_amplitude: 200.0,
        seed: 7,
        ..SyntheticParams::defaults(&Ieee)
    })
}

/// Median (even-length inputs average the middle pair).
fn median(values: &[f64]) -> f64 {
    assert!(!values.is_empty());
    let mut buf = values.to_vec();
    buf.sort_by(|a, b| a.partial_cmp(b).unwrap());
    let mid = buf.len() / 2;
    if buf.len() % 2 == 1 {
        buf[mid]
    } else {
        0.5 * (buf[mid - 1] + buf[mid])
    }
}

/// All samples of all channels, concatenated.
fn all_values(img: &Image<f64>) -> Vec<f64> {
    img.channels().iter().flatten().copied().collect()
}

fn image_min(img: &Image<f64>) -> f64 {
    all_values(img).into_iter().fold(f64::INFINITY, f64::min)
}

fn image_max(img: &Image<f64>) -> f64 {
    all_values(img)
        .into_iter()
        .fold(f64::NEG_INFINITY, f64::max)
}

/// New image with every sample multiplied by `scale`.
fn scaled(img: &Image<f64>, scale: f64) -> Image<f64> {
    let channels = img
        .channels()
        .iter()
        .map(|ch| ch.iter().map(|&v| v * scale).collect())
        .collect();
    Image::from_channels(img.width(), img.height(), channels)
}

/// Assert every sample lies in [0, 1].
fn assert_unit_range(img: &Image<f64>) {
    assert!(image_min(img) >= 0.0, "min {} < 0", image_min(img));
    assert!(image_max(img) <= 1.0, "max {} > 1", image_max(img));
}

/// Spread of row/column medians — a star-robust flatness metric.
fn background_tilt(img: &Image<f64>) -> f64 {
    let w = img.width();
    let h = img.height();
    let ch = img.channel(0);
    let row_medians: Vec<f64> = (0..h).map(|y| median(&ch[y * w..(y + 1) * w])).collect();
    let col_medians: Vec<f64> = (0..w)
        .map(|x| {
            let col: Vec<f64> = (0..h).map(|y| ch[y * w + x]).collect();
            median(&col)
        })
        .collect();
    let ptp = |v: &[f64]| {
        v.iter().copied().fold(f64::NEG_INFINITY, f64::max)
            - v.iter().copied().fold(f64::INFINITY, f64::min)
    };
    ptp(&row_medians) + ptp(&col_medians)
}

#[test]
fn flattens_background() {
    let field = gradient_field();
    let data = scaled(&field.data, 1.0 / image_max(&field.data));
    let result = remove_gradient(&Ieee, &data, &GradientParams::defaults(&Ieee));
    assert!(background_tilt(&result) < 0.35 * background_tilt(&data));
}

/// On an already-flat image the fitted surface should be near-constant.
#[test]
fn no_gradient_is_gentle() {
    let field = mono_field();
    let data = scaled(&field.data, 1.0 / image_max(&field.data));
    let result = remove_gradient(&Ieee, &data, &GradientParams::defaults(&Ieee));
    // The output is background-shifted toward 0 but should stay flat
    assert!(background_tilt(&result) < background_tilt(&data) + 0.01);
}

/// Star contrast above local background must be preserved.
#[test]
fn stars_survive() {
    let field = gradient_field();
    let scale = image_max(&field.data);
    let data = scaled(&field.data, 1.0 / scale);
    let result = remove_gradient(&Ieee, &data, &GradientParams::defaults(&Ieee));

    let bright: Vec<_> = field
        .stars
        .iter()
        .filter(|s| s.amplitude > 5000.0)
        .collect();
    assert!(!bright.is_empty());
    for star in bright {
        let xi = star.x.round() as usize;
        let yi = star.y.round() as usize;
        let ch = result.channel(0);
        let w = result.width();
        let h = result.height();
        let mut window = Vec::new();
        for y in yi.saturating_sub(12)..(yi + 12).min(h) {
            for x in xi.saturating_sub(12)..(xi + 12).min(w) {
                window.push(ch[y * w + x]);
            }
        }
        let local_bg = median(&window);
        let contrast = ch[yi * w + xi] - local_bg;
        // Expected contrast in normalized units (clipping may trim the top)
        let expected = star.amplitude / scale;
        assert!(
            contrast > 0.5 * expected.min(1.0 - local_bg),
            "star at ({xi}, {yi}): contrast {contrast}"
        );
    }
}

#[test]
fn shape_preserved_mono_and_rgb() {
    for rgb in [false, true] {
        let img = make_test_image(&Ieee, &SyntheticParams {
            height: 128,
            width: 128,
            rgb,
            gradient_amplitude: 300.0,
            seed: 6,
            ..SyntheticParams::defaults(&Ieee)
        });
        let data = scaled(&img.data, 1.0 / image_max(&img.data));
        let result = remove_gradient(&Ieee, &data, &GradientParams::defaults(&Ieee));
        assert_eq!(result.width(), data.width());
        assert_eq!(result.height(), data.height());
        assert_eq!(result.num_channels(), data.num_channels());
    }
}

#[test]
fn output_clipped_to_unit_range() {
    let field = gradient_field();
    let data = scaled(&field.data, 1.0 / image_max(&field.data));
    let result = remove_gradient(&Ieee, &data, &GradientParams::defaults(&Ieee));
    assert_unit_range(&result);
}
