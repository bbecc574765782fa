//! The synthetic image generator.

use processinator::arith::Arithmetic;
use processinator::{make_test_image, Image, SyntheticParams};

/// IEEE 754 double precision arithmetic.
struct Ieee;

impl Arithmetic<f64> for Ieee {
    fn ratio(&self, p: u64, q: u64) -> f64 {
        p as f64 / q as f64
    }

    fn count(&self, n: usize) -> f64 {
        n as f64
    }

    fn infinity(&self) -> f64 {
        f64::INFINITY
    }

    fn turn(&self) -> f64 {
        std::f64::consts::TAU
    }

    fn neg(&self, a: f64) -> f64 {
        -a
    }

    fn abs(&self, a: f64) -> f64 {
        a.abs()
    }

    fn signum(&self, a: f64) -> f64 {
        a.signum()
    }

    fn sqrt(&self, a: f64) -> f64 {
        a.sqrt()
    }

    fn exp(&self, a: f64) -> f64 {
        a.exp()
    }

    fn ln(&self, a: f64) -> f64 {
        a.ln()
    }

    fn ln_1p(&self, a: f64) -> f64 {
        a.ln_1p()
    }

    fn asinh(&self, a: f64) -> f64 {
        a.asinh()
    }

    fn cos(&self, a: f64) -> f64 {
        a.cos()
    }

    fn floor(&self, a: f64) -> f64 {
        a.floor()
    }

    fn ceil(&self, a: f64) -> f64 {
        a.ceil()
    }

    fn plus(&self, a: f64, b: f64) -> f64 {
        a + b
    }

    fn minus(&self, a: f64, b: f64) -> f64 {
        a - b
    }

    fn times(&self, a: f64, b: f64) -> f64 {
        a * b
    }

    fn over(&self, a: f64, b: f64) -> f64 {
        a / b
    }

    fn least(&self, a: f64, b: f64) -> f64 {
        a.min(b)
    }

    fn most(&self, a: f64, b: f64) -> f64 {
        a.max(b)
    }

    fn powf(&self, a: f64, b: f64) -> f64 {
        a.powf(b)
    }

    fn powi(&self, a: f64, n: usize) -> f64 {
        a.powi(n as i32)
    }

    fn clamp(&self, a: f64, low: f64, high: f64) -> f64 {
        a.clamp(low, high)
    }

    fn less(&self, a: f64, b: f64) -> bool {
        a < b
    }

    fn less_or_equal(&self, a: f64, b: f64) -> bool {
        a <= b
    }

    fn equal(&self, a: f64, b: f64) -> bool {
        a == b
    }

    fn is_nan(&self, a: f64) -> bool {
        a.is_nan()
    }

    fn order_key(&self, a: f64) -> u64 {
        // Adding zero turns -0.0 into 0.0
        let bits = (a + 0.0).to_bits();
        if bits >> 63 == 1 {
            !bits
        } else {
            bits | 1 << 63
        }
    }

    fn to_index(&self, a: f64) -> usize {
        a as usize
    }

    fn to_offset(&self, a: f64) -> i64 {
        a as i64
    }

    fn to_byte(&self, a: f64) -> u8 {
        a as u8
    }
}

/// Median (even-length inputs average the middle pair).
fn median(values: &[f64]) -> f64 {
    assert!(!values.is_empty());
    let mut buf = values.to_vec();
    buf.sort_by(|a, b| a.partial_cmp(b).unwrap());
    let mid = buf.len() / 2;
    if buf.len() % 2 == 1 {
        buf[mid]
    } else {
        0.5 * (buf[mid - 1] + buf[mid])
    }
}

fn mean(values: &[f64]) -> f64 {
    values.iter().sum::<f64>() / values.len() as f64
}

/// Population standard deviation.
fn std_dev(values: &[f64]) -> f64 {
    let m = mean(values);
    (values.iter().map(|v| (v - m) * (v - m)).sum::<f64>() / values.len() as f64).sqrt()
}

/// All samples of all channels, concatenated.
fn all_values(img: &Image<f64>) -> Vec<f64> {
    img.channels().iter().flatten().copied().collect()
}

fn image_min(img: &Image<f64>) -> f64 {
    all_values(img).into_iter().fold(f64::INFINITY, f64::min)
}

/// Std of the elementwise difference over all channels.
fn diff_std(a: &Image<f64>, b: &Image<f64>) -> f64 {
    let av = all_values(a);
    let bv = all_values(b);
    assert_eq!(av.len(), bv.len());
    let diffs: Vec<f64> = av.iter().zip(&bv).map(|(x, y)| x - y).collect();
    std_dev(&diffs)
}

#[test]
fn mono_shape() {
    let img = make_test_image(&Ieee, &SyntheticParams {
        height: 128,
        width: 200,
        seed: 1,
        ..SyntheticParams::defaults(&Ieee)
    });
    assert_eq!((img.data.height(), img.data.width()), (128, 200));
    assert_eq!((img.clean.height(), img.clean.width()), (128, 200));
}

#[test]
fn rgb_shape() {
    let img = make_test_image(&Ieee, &SyntheticParams {
        height: 128,
        width: 200,
        rgb: true,
        seed: 1,
        ..SyntheticParams::defaults(&Ieee)
    });
    assert_eq!((img.data.height(), img.data.width()), (128, 200));
    assert_eq!(img.data.num_channels(), 3);
}

#[test]
fn synthetic_test_deterministic() {
    let a = make_test_image(&Ieee, &SyntheticParams {
        seed: 99,
        ..SyntheticParams::defaults(&Ieee)
    });
    let b = make_test_image(&Ieee, &SyntheticParams {
        seed: 99,
        ..SyntheticParams::defaults(&Ieee)
    });
    assert_eq!(a.data, b.data);
}

#[test]
fn stars_present_and_recorded() {
    let img = make_test_image(&Ieee, &SyntheticParams {
        n_stars: 30,
        seed: 1,
        ..SyntheticParams::defaults(&Ieee)
    });
    assert_eq!(img.stars.len(), 30);
    // Brightest star should tower over the background
    let brightest = img
        .stars
        .iter()
        .max_by(|a, b| a.amplitude.partial_cmp(&b.amplitude).unwrap())
        .unwrap();
    let xi = brightest.x.round() as usize;
    let yi = brightest.y.round() as usize;
    assert!(img.clean.get(xi, yi, 0) > img.background + 0.8 * brightest.amplitude);
}

#[test]
fn noise_matches_config() {
    let img = make_test_image(&Ieee, &SyntheticParams {
        noise_sigma: 25.0,
        n_stars: 0,
        seed: 1,
        ..SyntheticParams::defaults(&Ieee)
    });
    let residual_std = diff_std(&img.data, &img.clean);
    assert!(
        residual_std > 22.0 && residual_std < 28.0,
        "residual std = {residual_std}"
    );
}

#[test]
fn dark_edges_are_dark() {
    let img = make_test_image(&Ieee, &SyntheticParams {
        dark_edges: (15, 0, 0, 0),
        seed: 1,
        ..SyntheticParams::defaults(&Ieee)
    });
    let w = img.data.width();
    let ch = img.data.channel(0);
    let edge_median = median(&ch[..15 * w]);
    let interior_median = median(&ch[30 * w..(img.data.height() - 30) * w]);
    assert!(edge_median < 0.1 * interior_median);
}

#[test]
fn data_non_negative() {
    let img = make_test_image(&Ieee, &SyntheticParams {
        noise_sigma: 100.0,
        seed: 1,
        ..SyntheticParams::defaults(&Ieee)
    });
    assert!(image_min(&img.data) >= 0.0);
}
