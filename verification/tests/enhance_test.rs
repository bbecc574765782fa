//! Contrast, color calibration and star reduction.

use processinator::arith::Arithmetic;
use processinator::enhance::{color_calibrate, contrast, gaussian_blur, reduce_stars};
use processinator::Image;

/// IEEE 754 double precision arithmetic.
struct Ieee;

impl Arithmetic<f64> for Ieee {
    fn ratio(&self, p: u64, q: u64) -> f64 {
        p as f64 / q as f64
    }

    fn count(&self, n: usize) -> f64 {
        n as f64
    }

    fn infinity(&self) -> f64 {
        f64::INFINITY
    }

    fn turn(&self) -> f64 {
        std::f64::consts::TAU
    }

    fn neg(&self, a: f64) -> f64 {
        -a
    }

    fn abs(&self, a: f64) -> f64 {
        a.abs()
    }

    fn signum(&self, a: f64) -> f64 {
        a.signum()
    }

    fn sqrt(&self, a: f64) -> f64 {
        a.sqrt()
    }

    fn exp(&self, a: f64) -> f64 {
        a.exp()
    }

    fn ln(&self, a: f64) -> f64 {
        a.ln()
    }

    fn ln_1p(&self, a: f64) -> f64 {
        a.ln_1p()
    }

    fn asinh(&self, a: f64) -> f64 {
        a.asinh()
    }

    fn cos(&self, a: f64) -> f64 {
        a.cos()
    }

    fn floor(&self, a: f64) -> f64 {
        a.floor()
    }

    fn ceil(&self, a: f64) -> f64 {
        a.ceil()
    }

    fn plus(&self, a: f64, b: f64) -> f64 {
        a + b
    }

    fn minus(&self, a: f64, b: f64) -> f64 {
        a - b
    }

    fn times(&self, a: f64, b: f64) -> f64 {
        a * b
    }

    fn over(&self, a: f64, b: f64) -> f64 {
        a / b
    }

    fn least(&self, a: f64, b: f64) -> f64 {
        a.min(b)
    }

    fn most(&self, a: f64, b: f64) -> f64 {
        a.max(b)
    }

    fn powf(&self, a: f64, b: f64) -> f64 {
        a.powf(b)
    }

    fn powi(&self, a: f64, n: usize) -> f64 {
        a.powi(n as i32)
    }

    fn clamp(&self, a: f64, low: f64, high: f64) -> f64 {
        a.clamp(low, high)
    }

    fn less(&self, a: f64, b: f64) -> bool {
        a < b
    }

    fn less_or_equal(&self, a: f64, b: f64) -> bool {
        a <= b
    }

    fn equal(&self, a: f64, b: f64) -> bool {
        a == b
    }

    fn is_nan(&self, a: f64) -> bool {
        a.is_nan()
    }

    fn order_key(&self, a: f64) -> u64 {
        // Adding zero turns -0.0 into 0.0
        let bits = (a + 0.0).to_bits();
        if bits >> 63 == 1 {
            !bits
        } else {
            bits | 1 << 63
        }
    }

    fn to_index(&self, a: f64) -> usize {
        a as usize
    }

    fn to_offset(&self, a: f64) -> i64 {
        a as i64
    }

    fn to_byte(&self, a: f64) -> u8 {
        a as u8
    }
}

fn gradient_mono(w: usize, h: usize) -> Image<f64> {
    let data: Vec<f64> = (0..w * h).map(|i| i as f64 / (w * h) as f64).collect();
    Image::new_mono(w, h, data)
}

#[test]
fn contrast_widens_spread_and_is_noop_at_one() {
    let mut img = gradient_mono(16, 16);
    let before = img.clone();
    contrast(&Ieee, &mut img, 1.0);
    assert_eq!(img.channel(0), before.channel(0));

    contrast(&Ieee, &mut img, 1.5);
    let spread = |im: &Image<f64>| {
        let ch = im.channel(0);
        let mean = ch.iter().sum::<f64>() / ch.len() as f64;
        ch.iter().map(|v| (v - mean).powi(2)).sum::<f64>() / ch.len() as f64
    };
    assert!(spread(&img) > spread(&before));
    assert!(img.channel(0).iter().all(|&v| (0.0..=1.0).contains(&v)));
}

#[test]
fn color_calibrate_neutralizes_corner_cast() {
    // Flat background with a strong red cast
    let n = 64 * 64;
    let mut img = Image::new_rgb(64, 64, [vec![0.4; n], vec![0.2; n], vec![0.1; n]]);
    color_calibrate(&Ieee, &mut img);
    let bg = |c: usize| img.get(2, 2, c);
    assert!((bg(0) - bg(1)).abs() < 1e-9);
    assert!((bg(1) - bg(2)).abs() < 1e-9);
}

#[test]
fn reduce_stars_dims_peaks_not_background() {
    let n = 64 * 64;
    let mut data = vec![0.1; n];
    data[32 * 64 + 32] = 1.0; // one bright star
    let mut img = Image::new_mono(64, 64, data);
    reduce_stars(&Ieee, &mut img, 0.8);
    assert!(img.get(32, 32, 0) < 1.0, "star should be dimmed");
    // Far corner untouched (blurred mask never reaches it)
    assert!((img.get(2, 2, 0) - 0.1).abs() < 1e-6);
}

#[test]
fn gaussian_blur_preserves_constant_field() {
    let blurred = gaussian_blur(&Ieee, &vec![0.5; 100], 10, 10, 2.0).unwrap();
    assert!(blurred.iter().all(|&v| (v - 0.5).abs() < 1e-9));
}
