//! Dark stacking-edge detection and cropping.

use processinator::arith::Arithmetic;
use processinator::{autocrop, make_test_image, AutocropParams, SyntheticImage, SyntheticParams};

/// IEEE 754 double precision arithmetic.
struct Ieee;

impl Arithmetic<f64> for Ieee {
    fn ratio(&self, p: u64, q: u64) -> f64 {
        p as f64 / q as f64
    }

    fn count(&self, n: usize) -> f64 {
        n as f64
    }

    fn infinity(&self) -> f64 {
        f64::INFINITY
    }

    fn turn(&self) -> f64 {
        std::f64::consts::TAU
    }

    fn neg(&self, a: f64) -> f64 {
        -a
    }

    fn abs(&self, a: f64) -> f64 {
        a.abs()
    }

    fn signum(&self, a: f64) -> f64 {
        a.signum()
    }

    fn sqrt(&self, a: f64) -> f64 {
        a.sqrt()
    }

    fn exp(&self, a: f64) -> f64 {
        a.exp()
    }

    fn ln(&self, a: f64) -> f64 {
        a.ln()
    }

    fn ln_1p(&self, a: f64) -> f64 {
        a.ln_1p()
    }

    fn asinh(&self, a: f64) -> f64 {
        a.asinh()
    }

    fn cos(&self, a: f64) -> f64 {
        a.cos()
    }

    fn floor(&self, a: f64) -> f64 {
        a.floor()
    }

    fn ceil(&self, a: f64) -> f64 {
        a.ceil()
    }

    fn plus(&self, a: f64, b: f64) -> f64 {
        a + b
    }

    fn minus(&self, a: f64, b: f64) -> f64 {
        a - b
    }

    fn times(&self, a: f64, b: f64) -> f64 {
        a * b
    }

    fn over(&self, a: f64, b: f64) -> f64 {
        a / b
    }

    fn least(&self, a: f64, b: f64) -> f64 {
        a.min(b)
    }

    fn most(&self, a: f64, b: f64) -> f64 {
        a.max(b)
    }

    fn powf(&self, a: f64, b: f64) -> f64 {
        a.powf(b)
    }

    fn powi(&self, a: f64, n: usize) -> f64 {
        a.powi(n as i32)
    }

    fn clamp(&self, a: f64, low: f64, high: f64) -> f64 {
        a.clamp(low, high)
    }

    fn less(&self, a: f64, b: f64) -> bool {
        a < b
    }

    fn less_or_equal(&self, a: f64, b: f64) -> bool {
        a <= b
    }

    fn equal(&self, a: f64, b: f64) -> bool {
        a == b
    }

    fn is_nan(&self, a: f64) -> bool {
        a.is_nan()
    }

    fn order_key(&self, a: f64) -> u64 {
        // Adding zero turns -0.0 into 0.0
        let bits = (a + 0.0).to_bits();
        if bits >> 63 == 1 {
            !bits
        } else {
            bits | 1 << 63
        }
    }

    fn to_index(&self, a: f64) -> usize {
        a as usize
    }

    fn to_offset(&self, a: f64) -> i64 {
        a as i64
    }

    fn to_byte(&self, a: f64) -> u8 {
        a as u8
    }
}

/// Plain mono star field with noise.
fn mono_field() -> SyntheticImage<f64> {
    make_test_image(&Ieee, &SyntheticParams {
        seed: 42,
        ..SyntheticParams::defaults(&Ieee)
    })
}

/// Mono field with dark stacking edges on three sides.
fn edged_field() -> SyntheticImage<f64> {
    make_test_image(&Ieee, &SyntheticParams {
        dark_edges: (12, 8, 20, 0),
        seed: 3,
        ..SyntheticParams::defaults(&Ieee)
    })
}

#[test]
fn detects_configured_edges() {
    let field = edged_field();
    let (_, crop) = autocrop(&Ieee, &field.data, &AutocropParams::defaults(&Ieee));
    assert_eq!(crop, field.dark_edges);
}

#[test]
fn cropped_shape_matches() {
    let field = edged_field();
    let (cropped, (top, bottom, left, right)) = autocrop(&Ieee, &field.data, &AutocropParams::defaults(&Ieee));
    assert_eq!(cropped.height(), field.data.height() - top - bottom);
    assert_eq!(cropped.width(), field.data.width() - left - right);
}

#[test]
fn clean_image_not_cropped() {
    let field = mono_field();
    let (cropped, crop) = autocrop(&Ieee, &field.data, &AutocropParams::defaults(&Ieee));
    assert_eq!(crop, (0, 0, 0, 0));
    assert_eq!(cropped.width(), field.data.width());
    assert_eq!(cropped.height(), field.data.height());
}

#[test]
fn rgb_edges_detected() {
    let img = make_test_image(&Ieee, &SyntheticParams {
        rgb: true,
        dark_edges: (10, 0, 0, 16),
        seed: 9,
        ..SyntheticParams::defaults(&Ieee)
    });
    let (cropped, crop) = autocrop(&Ieee, &img.data, &AutocropParams::defaults(&Ieee));
    assert_eq!(crop, (10, 0, 0, 16));
    assert!(cropped.is_color());
}

/// Edges thinner than min_crop_fraction (1%) should not trigger a crop.
#[test]
fn subthreshold_edge_ignored() {
    let img = make_test_image(&Ieee, &SyntheticParams {
        dark_edges: (1, 0, 0, 0),
        seed: 4,
        ..SyntheticParams::defaults(&Ieee)
    });
    let (_, crop) = autocrop(&Ieee, &img.data, &AutocropParams::defaults(&Ieee));
    assert_eq!(crop, (0, 0, 0, 0));
}

#[test]
fn interior_content_unchanged() {
    let field = edged_field();
    let (cropped, (top, _bottom, left, _right)) = autocrop(&Ieee, &field.data, &AutocropParams::defaults(&Ieee));
    for y in 0..cropped.height() {
        for x in 0..cropped.width() {
            assert_eq!(
                cropped.get(x, y, 0),
                field.data.get(x + left, y + top, 0),
                "mismatch at ({x}, {y})"
            );
        }
    }
}
