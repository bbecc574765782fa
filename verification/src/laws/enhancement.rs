//! Laws of contrast, color calibration and star reduction.

use super::answers::{
    is_deterministic, lemma_one_decision, lemma_one_index, lemma_one_sequence, lemma_one_value,
};
use super::statistics::lemma_one_median;
use super::stretching::{lemma_one_image_map, lemma_one_luminance, lemma_one_map};
use crate::arith::{Arithmetic, Formula, Test, decides, evals, indexes, whole};
use crate::enhance::{
    are_peaks, blurred_column, blurred_row, column_peak, contrasted, corner_samples, grown,
    is_blurred, is_blurred_by, is_blurred_with, is_calibrated, is_calibrated_by,
    is_calibrated_plane, is_contrast_off, is_contrasted, is_dimmed, is_dimmed_plane, is_kernel,
    is_maximum, is_maximum_by, is_mean, is_peak, is_star_map, is_star_reduced, radius_of,
    raw_weight, row_peak, scaled_by, window,
};
use crate::frame::{Raster, maps_image};
use crate::plane::{maps, sum_of};
use vstd::prelude::*;

verus! {

/// A contrast boost of one or less changes nothing.
pub proof fn lemma_contrast_of_one<T, A: Arithmetic<T>>(
    ops: &A,
    strength: T,
    image: Raster<T>,
    out: Raster<T>,
)
    requires
        is_deterministic(ops),
        decides(ops, Test::LessOrEqual, Formula::Given(strength), whole(1), true),
        is_contrasted(ops, strength, image, out),
    ensures
        out == image,
{
    let (off, empty) = choose|off: bool, empty: bool| #[trigger]
        is_contrast_off(ops, strength, image, off, empty) && if off || empty {
            out == image
        } else {
            exists|sums: Seq<T>, mean: T| #[trigger]
                is_mean(ops, image, sums, mean) && maps_image(
                    ops,
                    contrasted(mean, strength),
                    image,
                    out,
                )
        };
    lemma_one_decision(ops, Test::LessOrEqual, Formula::Given(strength), whole(1), off, true);
}

/// The contrast boost is deterministic.
pub proof fn lemma_one_contrast<T, A: Arithmetic<T>>(
    ops: &A,
    strength: T,
    image: Raster<T>,
    a: Raster<T>,
    b: Raster<T>,
)
    requires
        is_deterministic(ops),
        is_contrasted(ops, strength, image, a),
        is_contrasted(ops, strength, image, b),
    ensures
        a == b,
{
    let (off, empty) = choose|off: bool, empty: bool| #[trigger]
        is_contrast_off(ops, strength, image, off, empty) && if off || empty {
            a == image
        } else {
            exists|sums: Seq<T>, mean: T| #[trigger]
                is_mean(ops, image, sums, mean) && maps_image(
                    ops,
                    contrasted(mean, strength),
                    image,
                    a,
                )
        };
    let (idle, blank) = choose|off: bool, empty: bool| #[trigger]
        is_contrast_off(ops, strength, image, off, empty) && if off || empty {
            b == image
        } else {
            exists|sums: Seq<T>, mean: T| #[trigger]
                is_mean(ops, image, sums, mean) && maps_image(
                    ops,
                    contrasted(mean, strength),
                    image,
                    b,
                )
        };
    lemma_one_decision(ops, Test::LessOrEqual, Formula::Given(strength), whole(1), off, idle);
    if !off {
        lemma_one_decision(
            ops,
            Test::Equal,
            Formula::Count(image.samples() as usize),
            whole(0),
            empty,
            blank,
        );
        if !empty {
            let (s, m) = choose|sums: Seq<T>, mean: T| #[trigger]
                is_mean(ops, image, sums, mean) && maps_image(
                    ops,
                    contrasted(mean, strength),
                    image,
                    a,
                );
            let (t, n) = choose|sums: Seq<T>, mean: T| #[trigger]
                is_mean(ops, image, sums, mean) && maps_image(
                    ops,
                    contrasted(mean, strength),
                    image,
                    b,
                );
            lemma_one_sequence(
                ops,
                |c: int| sum_of(image.planes[c], image.planes[c].len() as int),
                s,
                t,
            );
            lemma_one_value(
                ops,
                sum_of(s, s.len() as int).over(Formula::Count(image.samples() as usize)),
                m,
                n,
            );
            lemma_one_image_map(ops, contrasted(m, strength), image, a, b);
        }
    }
}

/// A plane has one calibrated plane.
proof fn lemma_one_calibrated_plane<T, A: Arithmetic<T>>(
    ops: &A,
    m: T,
    target: T,
    plane: Seq<T>,
    a: Seq<T>,
    b: Seq<T>,
)
    requires
        is_deterministic(ops),
        is_calibrated_plane(ops, m, target, plane, a),
        is_calibrated_plane(ops, m, target, plane, b),
    ensures
        a == b,
{
    let p = choose|positive: bool| #[trigger]
        decides(ops, Test::Less, whole(0), Formula::Given(m), positive) && if positive {
            exists|scale: T|
                evals(ops, Formula::Given(target).over(Formula::Given(m)), scale)
                    && #[trigger] maps(ops, scaled_by(scale), plane, a)
        } else {
            a == plane
        };
    let q = choose|positive: bool| #[trigger]
        decides(ops, Test::Less, whole(0), Formula::Given(m), positive) && if positive {
            exists|scale: T|
                evals(ops, Formula::Given(target).over(Formula::Given(m)), scale)
                    && #[trigger] maps(ops, scaled_by(scale), plane, b)
        } else {
            b == plane
        };
    lemma_one_decision(ops, Test::Less, whole(0), Formula::Given(m), p, q);
    if p {
        let s = choose|scale: T|
            evals(ops, Formula::Given(target).over(Formula::Given(m)), scale) && #[trigger] maps(
                ops,
                scaled_by(scale),
                plane,
                a,
            );
        let t = choose|scale: T|
            evals(ops, Formula::Given(target).over(Formula::Given(m)), scale) && #[trigger] maps(
                ops,
                scaled_by(scale),
                plane,
                b,
            );
        lemma_one_value(ops, Formula::Given(target).over(Formula::Given(m)), s, t);
        lemma_one_map(ops, scaled_by(s), plane, a, b);
    }
}

/// Color calibration is deterministic.
pub proof fn lemma_one_calibration<T, A: Arithmetic<T>>(
    ops: &A,
    image: Raster<T>,
    a: Raster<T>,
    b: Raster<T>,
)
    requires
        is_deterministic(ops),
        is_calibrated(ops, image, a),
        is_calibrated(ops, image, b),
    ensures
        a == b,
{
    if !(image.planes.len() != 3 || image.width == 0 || image.height == 0) {
        let (s, target, dark) = choose|medians: Seq<T>, target: T, dark: bool| #[trigger]
            is_calibrated_by(ops, image, medians, target, dark, a);
        let (t, aim, dim) = choose|medians: Seq<T>, target: T, dark: bool| #[trigger]
            is_calibrated_by(ops, image, medians, target, dark, b);
        assert forall|c: int| 0 <= c < s.len() implies #[trigger] s[c] == t[c] by {
            lemma_one_median(
                ops,
                corner_samples(image.planes[c], image.width as int, image.height as int),
                s[c],
                t[c],
            );
        }
        assert(s =~= t);
        lemma_one_value(ops, sum_of(s, 3).over(whole(3)), target, aim);
        lemma_one_decision(ops, Test::LessOrEqual, Formula::Given(target), whole(0), dark, dim);
        if !dark {
            assert forall|c: int| 0 <= c < a.planes.len() implies #[trigger] a.planes[c]
                == b.planes[c] by {
                lemma_one_calibrated_plane(
                    ops,
                    s[c],
                    target,
                    image.planes[c],
                    a.planes[c],
                    b.planes[c],
                );
            }
            assert(a.planes =~= b.planes);
        }
    }
}

/// A plane has one maximum filter.
proof fn lemma_one_maximum<T, A: Arithmetic<T>>(
    ops: &A,
    data: Seq<T>,
    w: int,
    h: int,
    r: int,
    a: Seq<T>,
    b: Seq<T>,
)
    requires
        is_deterministic(ops),
        is_maximum(ops, data, w, h, r, a),
        is_maximum(ops, data, w, h, r, b),
    ensures
        a == b,
{
    let s = choose|rows: Seq<T>| #[trigger] is_maximum_by(ops, data, w, h, r, rows, a);
    let t = choose|rows: Seq<T>| #[trigger] is_maximum_by(ops, data, w, h, r, rows, b);
    lemma_one_sequence(
        ops,
        |i: int| row_peak(data, w, i / w, window(i % w, r, w).0, window(i % w, r, w).1),
        s,
        t,
    );
    lemma_one_sequence(
        ops,
        |i: int| column_peak(s, w, i % w, window(i / w, r, h).0, window(i / w, r, h).1),
        a,
        b,
    );
}

/// A plane has one Gaussian blur.
pub proof fn lemma_one_blur<T, A: Arithmetic<T>>(
    ops: &A,
    data: Seq<T>,
    w: int,
    h: int,
    sigma: T,
    a: Option<Seq<T>>,
    b: Option<Seq<T>>,
)
    requires
        is_deterministic(ops),
        is_blurred(ops, data, w, h, sigma, a),
        is_blurred(ops, data, w, h, sigma, b),
    ensures
        a == b,
{
    let p = choose|off: bool| #[trigger]
        decides(ops, Test::LessOrEqual, Formula::Given(sigma), whole(0), off) && if off {
            a == Some(data)
        } else {
            exists|r: usize| #[trigger]
                indexes(ops, radius_of(sigma), r) && match a {
                    Some(s) => 2 * r < usize::MAX && is_blurred_with(ops, data, w, h, sigma, r, s),
                    None => 2 * r >= usize::MAX,
                }
        };
    let q = choose|off: bool| #[trigger]
        decides(ops, Test::LessOrEqual, Formula::Given(sigma), whole(0), off) && if off {
            b == Some(data)
        } else {
            exists|r: usize| #[trigger]
                indexes(ops, radius_of(sigma), r) && match b {
                    Some(s) => 2 * r < usize::MAX && is_blurred_with(ops, data, w, h, sigma, r, s),
                    None => 2 * r >= usize::MAX,
                }
        };
    lemma_one_decision(ops, Test::LessOrEqual, Formula::Given(sigma), whole(0), p, q);
    if !p {
        let r = choose|r: usize| #[trigger]
            indexes(ops, radius_of(sigma), r) && match a {
                Some(s) => 2 * r < usize::MAX && is_blurred_with(ops, data, w, h, sigma, r, s),
                None => 2 * r >= usize::MAX,
            };
        let l = choose|r: usize| #[trigger]
            indexes(ops, radius_of(sigma), r) && match b {
                Some(s) => 2 * r < usize::MAX && is_blurred_with(ops, data, w, h, sigma, r, s),
                None => 2 * r >= usize::MAX,
            };
        lemma_one_index(ops, radius_of(sigma), r, l);
        if a is Some {
            lemma_one_blur_with(ops, data, w, h, sigma, r, a->0, b->0);
        }
    }
}

/// A plane has one Gaussian blur of a given radius.
proof fn lemma_one_blur_with<T, A: Arithmetic<T>>(
    ops: &A,
    data: Seq<T>,
    w: int,
    h: int,
    sigma: T,
    r: usize,
    a: Seq<T>,
    b: Seq<T>,
)
    requires
        is_deterministic(ops),
        is_blurred_with(ops, data, w, h, sigma, r, a),
        is_blurred_with(ops, data, w, h, sigma, r, b),
    ensures
        a == b,
{
    let (raw, norm, kernel, rows) = choose|raw: Seq<T>, norm: T, kernel: Seq<T>, rows: Seq<T>| #[trigger]
        is_kernel(ops, sigma, r, raw, norm, kernel) && #[trigger] is_blurred_by(
            ops,
            data,
            w,
            h,
            r as int,
            kernel,
            rows,
            a,
        );
    let (bare, sum, weights, lines) = choose|raw: Seq<T>, norm: T, kernel: Seq<T>, rows: Seq<T>| #[trigger]
        is_kernel(ops, sigma, r, raw, norm, kernel) && #[trigger] is_blurred_by(
            ops,
            data,
            w,
            h,
            r as int,
            kernel,
            rows,
            b,
        );
    lemma_one_sequence(ops, |i: int| raw_weight(sigma, r, i), raw, bare);
    lemma_one_value(ops, sum_of(raw, raw.len() as int), norm, sum);
    lemma_one_sequence(
        ops,
        |i: int| Formula::Given(raw[i]).over(Formula::Given(norm)),
        kernel,
        weights,
    );
    let n = kernel.len() as int;
    lemma_one_sequence(ops, |i: int| blurred_row(data, kernel, w, r as int, i, n), rows, lines);
    lemma_one_sequence(
        ops,
        |i: int| blurred_column(rows, kernel, w, h, r as int, i, n),
        a,
        b,
    );
}

/// A luminance plane has one set of peaks.
proof fn lemma_one_set_of_peaks<T, A: Arithmetic<T>>(
    ops: &A,
    lum: Seq<T>,
    local: Seq<T>,
    threshold: T,
    s: Seq<bool>,
    t: Seq<bool>,
)
    requires
        is_deterministic(ops),
        are_peaks(ops, lum, local, threshold, s),
        are_peaks(ops, lum, local, threshold, t),
    ensures
        s == t,
{
    assert forall|i: int| 0 <= i < s.len() implies #[trigger] s[i] == t[i] by {
        let v = lum[i];
        assert(is_peak(ops, v, local[i], threshold, s[i]));
        assert(is_peak(ops, v, local[i], threshold, t[i]));
        let p = choose|top: bool| #[trigger]
            decides(ops, Test::Equal, Formula::Given(v), Formula::Given(local[i]), top) && if top {
                decides(ops, Test::Less, Formula::Given(threshold), Formula::Given(v), s[i])
            } else {
                !s[i]
            };
        let q = choose|top: bool| #[trigger]
            decides(ops, Test::Equal, Formula::Given(v), Formula::Given(local[i]), top) && if top {
                decides(ops, Test::Less, Formula::Given(threshold), Formula::Given(v), t[i])
            } else {
                !t[i]
            };
        lemma_one_decision(
            ops,
            Test::Equal,
            Formula::Given(v),
            Formula::Given(local[i]),
            p,
            q,
        );
        if p {
            lemma_one_decision(
                ops,
                Test::Less,
                Formula::Given(threshold),
                Formula::Given(v),
                s[i],
                t[i],
            );
        }
    }
    assert(s =~= t);
}

/// Star reduction is deterministic.
pub proof fn lemma_one_star_reduction<T, A: Arithmetic<T>>(
    ops: &A,
    threshold: T,
    image: Raster<T>,
    a: Raster<T>,
    b: Raster<T>,
)
    requires
        is_deterministic(ops),
        is_star_reduced(ops, threshold, image, a),
        is_star_reduced(ops, threshold, image, b),
    ensures
        a == b,
{
    if image.width != 0 && image.height != 0 {
        let w = image.width as int;
        let h = image.height as int;
        let (lum, local, peaks, reduction, sigma, factors) = choose|
            lum: Seq<T>,
            local: Seq<T>,
            peaks: Seq<bool>,
            reduction: Seq<T>,
            sigma: T,
            factors: Option<Seq<T>>,
        | #[trigger]
            is_star_map(
                ops,
                threshold,
                image,
                lum,
                local,
                peaks,
                reduction,
                sigma,
                factors,
            ) && match factors {
                Some(f) => is_dimmed(ops, f, image, a),
                None => a == image,
            };
        let (light, tops, stars, cut, width, shades) = choose|
            lum: Seq<T>,
            local: Seq<T>,
            peaks: Seq<bool>,
            reduction: Seq<T>,
            sigma: T,
            factors: Option<Seq<T>>,
        | #[trigger]
            is_star_map(
                ops,
                threshold,
                image,
                lum,
                local,
                peaks,
                reduction,
                sigma,
                factors,
            ) && match factors {
                Some(f) => is_dimmed(ops, f, image, b),
                None => b == image,
            };
        lemma_one_luminance(ops, image, lum, light);
        lemma_one_maximum(ops, lum, w, h, 2, local, tops);
        lemma_one_set_of_peaks(ops, lum, local, threshold, peaks, stars);
        let mask = grown(peaks, w, h, 3);
        lemma_one_sequence(
            ops,
            |i: int|
                if mask[i] {
                    Formula::Ratio(7, 10)
                } else {
                    whole(1)
                },
            reduction,
            cut,
        );
        lemma_one_value(ops, whole(2), sigma, width);
        lemma_one_blur(ops, reduction, w, h, sigma, factors, shades);
        if factors is Some {
            let f = factors->0;
            assert forall|c: int| 0 <= c < a.planes.len() implies #[trigger] a.planes[c]
                == b.planes[c] by {
                assert(is_dimmed_plane(ops, f, image.planes[c], a.planes[c]));
                assert(is_dimmed_plane(ops, f, image.planes[c], b.planes[c]));
                lemma_one_sequence(
                    ops,
                    |i: int| scaled_by(f[i])(image.planes[c][i]),
                    a.planes[c],
                    b.planes[c],
                );
            }
            assert(a.planes =~= b.planes);
        }
    }
}

} // verus!
