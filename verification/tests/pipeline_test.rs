//! The processing pipeline from end to end.

use processinator::arith::Arithmetic;
use processinator::{
    make_test_image, process, Image, PipelineConfig, StretchAlgorithm, SyntheticImage,
    SyntheticParams,
};

/// IEEE 754 double precision arithmetic.
struct Ieee;

impl Arithmetic<f64> for Ieee {
    fn ratio(&self, p: u64, q: u64) -> f64 {
        p as f64 / q as f64
    }

    fn count(&self, n: usize) -> f64 {
        n as f64
    }

    fn infinity(&self) -> f64 {
        f64::INFINITY
    }

    fn turn(&self) -> f64 {
        std::f64::consts::TAU
    }

    fn neg(&self, a: f64) -> f64 {
        -a
    }

    fn abs(&self, a: f64) -> f64 {
        a.abs()
    }

    fn signum(&self, a: f64) -> f64 {
        a.signum()
    }

    fn sqrt(&self, a: f64) -> f64 {
        a.sqrt()
    }

    fn exp(&self, a: f64) -> f64 {
        a.exp()
    }

    fn ln(&self, a: f64) -> f64 {
        a.ln()
    }

    fn ln_1p(&self, a: f64) -> f64 {
        a.ln_1p()
    }

    fn asinh(&self, a: f64) -> f64 {
        a.asinh()
    }

    fn cos(&self, a: f64) -> f64 {
        a.cos()
    }

    fn floor(&self, a: f64) -> f64 {
        a.floor()
    }

    fn ceil(&self, a: f64) -> f64 {
        a.ceil()
    }

    fn plus(&self, a: f64, b: f64) -> f64 {
        a + b
    }

    fn minus(&self, a: f64, b: f64) -> f64 {
        a - b
    }

    fn times(&self, a: f64, b: f64) -> f64 {
        a * b
    }

    fn over(&self, a: f64, b: f64) -> f64 {
        a / b
    }

    fn least(&self, a: f64, b: f64) -> f64 {
        a.min(b)
    }

    fn most(&self, a: f64, b: f64) -> f64 {
        a.max(b)
    }

    fn powf(&self, a: f64, b: f64) -> f64 {
        a.powf(b)
    }

    fn powi(&self, a: f64, n: usize) -> f64 {
        a.powi(n as i32)
    }

    fn clamp(&self, a: f64, low: f64, high: f64) -> f64 {
        a.clamp(low, high)
    }

    fn less(&self, a: f64, b: f64) -> bool {
        a < b
    }

    fn less_or_equal(&self, a: f64, b: f64) -> bool {
        a <= b
    }

    fn equal(&self, a: f64, b: f64) -> bool {
        a == b
    }

    fn is_nan(&self, a: f64) -> bool {
        a.is_nan()
    }

    fn order_key(&self, a: f64) -> u64 {
        // Adding zero turns -0.0 into 0.0
        let bits = (a + 0.0).to_bits();
        if bits >> 63 == 1 {
            !bits
        } else {
            bits | 1 << 63
        }
    }

    fn to_index(&self, a: f64) -> usize {
        a as usize
    }

    fn to_offset(&self, a: f64) -> i64 {
        a as i64
    }

    fn to_byte(&self, a: f64) -> u8 {
        a as u8
    }
}

/// Plain mono star field with noise.
fn mono_field() -> SyntheticImage<f64> {
    make_test_image(&Ieee, &SyntheticParams {
        seed: 42,
        ..SyntheticParams::defaults(&Ieee)
    })
}

/// Median (even-length inputs average the middle pair).
fn median(values: &[f64]) -> f64 {
    assert!(!values.is_empty());
    let mut buf = values.to_vec();
    buf.sort_by(|a, b| a.partial_cmp(b).unwrap());
    let mid = buf.len() / 2;
    if buf.len() % 2 == 1 {
        buf[mid]
    } else {
        0.5 * (buf[mid - 1] + buf[mid])
    }
}

fn mean(values: &[f64]) -> f64 {
    values.iter().sum::<f64>() / values.len() as f64
}

/// Population standard deviation.
fn std_dev(values: &[f64]) -> f64 {
    let m = mean(values);
    (values.iter().map(|v| (v - m) * (v - m)).sum::<f64>() / values.len() as f64).sqrt()
}

/// All samples of all channels, concatenated.
fn all_values(img: &Image<f64>) -> Vec<f64> {
    img.channels().iter().flatten().copied().collect()
}

fn image_min(img: &Image<f64>) -> f64 {
    all_values(img).into_iter().fold(f64::INFINITY, f64::min)
}

fn image_max(img: &Image<f64>) -> f64 {
    all_values(img)
        .into_iter()
        .fold(f64::NEG_INFINITY, f64::max)
}

fn image_median(img: &Image<f64>) -> f64 {
    median(&all_values(img))
}

/// Assert every sample lies in [0, 1].
fn assert_unit_range(img: &Image<f64>) {
    assert!(image_min(img) >= 0.0, "min {} < 0", image_min(img));
    assert!(image_max(img) <= 1.0, "max {} > 1", image_max(img));
}

/// The works: gradient, nebula, dark edges, hot pixels, RGB color cast.
fn full_frame() -> SyntheticImage<f64> {
    make_test_image(&Ieee, &SyntheticParams {
        rgb: true,
        gradient_amplitude: 300.0,
        nebula_amplitude: 150.0,
        dark_edges: (10, 0, 14, 0),
        hot_pixels: 20,
        seed: 13,
        ..SyntheticParams::defaults(&Ieee)
    })
}

#[test]
fn default_config() {
    let frame = full_frame();
    let result = process(&Ieee, frame.data.clone(), &PipelineConfig::defaults(&Ieee));
    assert_eq!(result.width(), frame.data.width());
    assert_eq!(result.height(), frame.data.height());
    assert_eq!(result.num_channels(), frame.data.num_channels());
    assert_unit_range(&result);
}

#[test]
fn all_steps_enabled() {
    let frame = full_frame();
    let config = PipelineConfig {
        denoise: true,
        ..PipelineConfig::defaults(&Ieee)
    };
    let result = process(&Ieee, frame.data.clone(), &config);
    assert_eq!(result.width(), frame.data.width());
    assert_eq!(result.height(), frame.data.height());
    assert_unit_range(&result);
    // A stretched image should have a visible (non-black) background
    assert!(image_median(&result) > 0.01);
}

#[test]
fn all_steps_disabled() {
    let field = mono_field();
    let config = PipelineConfig {
        autocrop: false,
        gradient_removal: false,
        denoise: false,
        ..PipelineConfig::defaults(&Ieee)
    };
    let result = process(&Ieee, field.data.clone(), &config);
    assert_eq!(result.width(), field.data.width());
    assert_eq!(result.height(), field.data.height());
    assert_unit_range(&result);
}

/// The synthetic RGB image has a strong color cast; linked MTF should
/// equalize the per-channel background medians.
#[test]
fn linked_mtf_neutralizes_color_cast() {
    let frame = full_frame();
    let result = process(&Ieee, frame.data.clone(), &PipelineConfig::defaults(&Ieee));
    let w = result.width();
    let h = result.height();
    let medians: Vec<f64> = (0..3)
        .map(|c| {
            let ch = result.channel(c);
            let mut interior = Vec::new();
            for y in 24..h - 24 {
                for x in 24..w - 24 {
                    interior.push(ch[y * w + x]);
                }
            }
            median(&interior)
        })
        .collect();
    let spread = medians.iter().copied().fold(f64::NEG_INFINITY, f64::max)
        - medians.iter().copied().fold(f64::INFINITY, f64::min);
    assert!(spread < 0.05, "channel medians {medians:?}");
}

#[test]
fn denoise_smooths_output() {
    let frame = full_frame();
    let plain = process(
        &Ieee, frame.data.clone(),
        &PipelineConfig {
            denoise: false,
            ..PipelineConfig::defaults(&Ieee)
        },
    );
    let smoothed = process(
        &Ieee, frame.data.clone(),
        &PipelineConfig {
            denoise: true,
            ..PipelineConfig::defaults(&Ieee)
        },
    );
    // Compare local roughness (std of vertical first differences) in a
    // star-free region of the green channel; denoised must be smoother
    let roughness = |img: &Image<f64>| {
        let w = img.width();
        let ch = img.channel(1);
        let mut diffs = Vec::new();
        for y in 20..79 {
            for x in 20..80 {
                diffs.push(ch[(y + 1) * w + x] - ch[y * w + x]);
            }
        }
        std_dev(&diffs)
    };
    assert!(roughness(&smoothed) < roughness(&plain));
}

#[test]
fn alternate_algorithm() {
    let field = mono_field();
    let config = PipelineConfig {
        stretch: StretchAlgorithm::arcsinh(&Ieee),
        ..PipelineConfig::defaults(&Ieee)
    };
    let result = process(&Ieee, field.data.clone(), &config);
    assert_unit_range(&result);
}

#[test]
fn stretch_params_passthrough() {
    let field = mono_field();
    let with_bg = |bg_percent: f64| PipelineConfig {
        stretch: StretchAlgorithm::Mtf {
            bg_percent,
            sigma: 3.0,
            linked: true,
        },
        ..PipelineConfig::defaults(&Ieee)
    };
    let bright = process(&Ieee, field.data.clone(), &with_bg(0.4));
    let dim = process(&Ieee, field.data.clone(), &with_bg(0.05));
    assert!(image_median(&bright) > image_median(&dim));
}
