//! What star reduction does to stars and to everything else.

use super::blurring::{
    bell, blurred_value, exp_is_positive, has_exponentials, is_bounded_around,
    lemma_blur_is_gaussian, lemma_blur_is_mean, lemma_blur_reaches, lemma_product_positive,
};
use super::exact::{
    denotes, into_unit, is_exact, lemma_exact_binary, lemma_exact_product, lemma_exact_ratio,
    lemma_exact_unit, lemma_exact_whole,
};
use super::order::rounds_exactly;
use super::peaks::starts_low;
use super::reals::{
    lemma_product, lemma_product_commutes, lemma_product_distributes, lemma_product_not_negative,
    lemma_product_of_unit, product, sum,
};
use crate::arith::{
    Arithmetic, Binary, Formula, Test, Unary, binary_answers, decides, evals, index_answers,
    indexes, test_answers, unary_answers, whole,
};
use crate::enhance::{
    are_peaks, column_peak, grown, is_blurred_with, is_dimmed, is_dimmed_plane, is_maximum_by,
    is_near, is_peak, is_star_map, is_star_reduced, lemma_grown_is_near, radius_of, row_peak,
    scaled_by, steps, window,
};
use crate::frame::{Raster, channel_sum, is_luminance, luminance_at};
use crate::plane::lemma_pixel;
use vstd::prelude::*;

verus! {

/// The brightness of a pixel: the mean of its channels.
pub open spec fn brightness<T>(val: spec_fn(T) -> real, image: Raster<T>, i: int) -> real {
    if image.planes.len() == 3 {
        (val(image.planes[0][i]) + val(image.planes[1][i]) + val(image.planes[2][i])) / (3 as real)
    } else {
        val(image.planes[0][i])
    }
}

/// A third of a number.
proof fn lemma_third(s: real, third: real)
    requires
        third == (1 as real) / (3 as real),
    ensures
        product(s, third) == s / (3 as real),
{
    reveal(product);
    assert(s * third == s / (3 as real)) by (nonlinear_arith)
        requires
            third == (1 as real) / (3 as real),
    ;
}

/// The luminance of a pixel is its brightness.
pub proof fn lemma_luminance_is_brightness<T, A: Arithmetic<T>>(
    ops: &A,
    val: spec_fn(T) -> real,
    image: Raster<T>,
    lum: Seq<T>,
    i: int,
)
    requires
        is_exact(ops, val),
        image.wf(),
        is_luminance(ops, image, lum),
        0 <= i < image.width * image.height,
    ensures
        val(lum[i]) == brightness(val, image, i),
{
    let p = image.planes;
    if p.len() == 3 {
        reveal_with_fuel(channel_sum, 4);
        lemma_exact_whole(ops, val, 0);
        lemma_exact_whole(ops, val, 1);
        let zero = 0u64 as int as real;
        let (a, b, c) = (val(p[0][i]), val(p[1][i]), val(p[2][i]));
        lemma_exact_binary(
            ops,
            val,
            Binary::Plus,
            channel_sum(p, i, 0),
            Formula::Given(p[0][i]),
            zero,
            a,
        );
        lemma_exact_binary(
            ops,
            val,
            Binary::Plus,
            channel_sum(p, i, 1),
            Formula::Given(p[1][i]),
            zero + a,
            b,
        );
        lemma_exact_binary(
            ops,
            val,
            Binary::Plus,
            channel_sum(p, i, 2),
            Formula::Given(p[2][i]),
            zero + a + b,
            c,
        );
        assert(denotes(ops, val, Formula::<T>::Count(3), 3 as real));
        let one = whole::<T>(1).over(Formula::Count(3));
        let third = (1u64 as int as real) / (3 as real);
        lemma_exact_binary(
            ops,
            val,
            Binary::Over,
            whole(1),
            Formula::Count(3),
            1u64 as int as real,
            3 as real,
        );
        lemma_exact_product(ops, val, channel_sum(p, i, 3), one, zero + a + b + c, third);
        lemma_third(a + b + c, third);
        assert(evals(ops, luminance_at(p, i), lum[i]));
    }
}

/// The largest sample of a row window: not below any of them, and not above
/// what none of them is above.
proof fn lemma_row_peak<T, A: Arithmetic<T>>(
    ops: &A,
    val: spec_fn(T) -> real,
    data: Seq<T>,
    w: int,
    y: int,
    from: int,
    to: int,
    high: real,
    v: T,
)
    requires
        is_exact(ops, val),
        starts_low(ops, val),
        high >= 0 as real,
        forall|k: int| from <= k < to ==> val(#[trigger] data[y * w + k]) <= high,
        evals(ops, row_peak(data, w, y, from, to), v),
    ensures
        val(v) <= high,
        forall|k: int| from <= k < to ==> val(#[trigger] data[y * w + k]) <= val(v),
    decreases to - from,
{
    if from < to {
        let (a, b) = choose|a: T, b: T|
            evals(ops, row_peak(data, w, y, from, to - 1), a) && evals(
                ops,
                Formula::Given(data[y * w + (to - 1)]),
                b,
            ) && #[trigger] binary_answers(ops, Binary::Most, a, b, v);
        lemma_row_peak(ops, val, data, w, y, from, to - 1, high, a);
        assert(val(data[y * w + (to - 1)]) <= high);
        assert forall|k: int| from <= k < to implies val(#[trigger] data[y * w + k]) <= val(v) by {
            if k < to - 1 {
                assert(val(data[y * w + k]) <= val(a));
            }
        }
    }
}

/// The largest sample of a column window.
proof fn lemma_column_peak<T, A: Arithmetic<T>>(
    ops: &A,
    val: spec_fn(T) -> real,
    data: Seq<T>,
    w: int,
    x: int,
    from: int,
    to: int,
    high: real,
    v: T,
)
    requires
        is_exact(ops, val),
        starts_low(ops, val),
        high >= 0 as real,
        forall|k: int| from <= k < to ==> val(#[trigger] data[k * w + x]) <= high,
        evals(ops, column_peak(data, w, x, from, to), v),
    ensures
        val(v) <= high,
        forall|k: int| from <= k < to ==> val(#[trigger] data[k * w + x]) <= val(v),
    decreases to - from,
{
    if from < to {
        let (a, b) = choose|a: T, b: T|
            evals(ops, column_peak(data, w, x, from, to - 1), a) && evals(
                ops,
                Formula::Given(data[(to - 1) * w + x]),
                b,
            ) && #[trigger] binary_answers(ops, Binary::Most, a, b, v);
        lemma_column_peak(ops, val, data, w, x, from, to - 1, high, a);
        assert(val(data[(to - 1) * w + x]) <= high);
        assert forall|k: int| from <= k < to implies val(#[trigger] data[k * w + x]) <= val(v) by {
            if k < to - 1 {
                assert(val(data[k * w + x]) <= val(a));
            }
        }
    }
}

/// A pixel that no pixel within two columns and rows outshines is its own local
/// maximum.
proof fn lemma_local_maximum<T, A: Arithmetic<T>>(
    ops: &A,
    val: spec_fn(T) -> real,
    lum: Seq<T>,
    w: int,
    h: int,
    rows: Seq<T>,
    local: Seq<T>,
    x: int,
    y: int,
)
    requires
        is_exact(ops, val),
        starts_low(ops, val),
        lum.len() == w * h,
        is_maximum_by(ops, lum, w, h, 2, rows, local),
        0 <= x < w,
        0 <= y < h,
        val(lum[y * w + x]) >= 0 as real,
        forall|u: int, v: int|
            0 <= u < w && 0 <= v < h && x - 2 <= u <= x + 2 && y - 2 <= v <= y + 2 ==> val(
                #[trigger] lum[v * w + u],
            ) <= val(lum[y * w + x]),
    ensures
        val(local[y * w + x]) == val(lum[y * w + x]),
{
    let top = val(lum[y * w + x]);
    lemma_pixel(x, y, w, h);
    let p = y * w + x;
    let (from, to) = window(x, 2, w);
    let (first, last) = window(y, 2, h);
    assert forall|v: int| first <= v < last implies val(#[trigger] rows[v * w + x]) <= top by {
        lemma_pixel(x, v, w, h);
        let i = v * w + x;
        assert(evals(
            ops,
            row_peak(lum, w, i / w, window(i % w, 2, w).0, window(i % w, 2, w).1),
            rows[i],
        ));
        assert forall|k: int| from <= k < to implies val(#[trigger] lum[v * w + k]) <= top by {}
        lemma_row_peak(ops, val, lum, w, v, from, to, top, rows[i]);
    }
    assert(val(rows[p]) >= top) by {
        assert(evals(
            ops,
            row_peak(lum, w, p / w, window(p % w, 2, w).0, window(p % w, 2, w).1),
            rows[p],
        ));
        assert forall|k: int| from <= k < to implies val(#[trigger] lum[y * w + k]) <= top by {}
        lemma_row_peak(ops, val, lum, w, y, from, to, top, rows[p]);
        assert(val(lum[y * w + x]) <= val(rows[p]));
    }
    assert(evals(
        ops,
        column_peak(rows, w, p % w, window(p / w, 2, h).0, window(p / w, 2, h).1),
        local[p],
    ));
    lemma_column_peak(ops, val, rows, w, x, first, last, top, local[p]);
    assert(val(rows[y * w + x]) <= val(local[p]));
}

/// A peak is above the threshold, and a pixel above the threshold that equals
/// its local maximum is a peak.
proof fn lemma_peak_is_bright<T, A: Arithmetic<T>>(
    ops: &A,
    val: spec_fn(T) -> real,
    v: T,
    local: T,
    threshold: T,
    r: bool,
)
    requires
        is_exact(ops, val),
        is_peak(ops, v, local, threshold, r),
    ensures
        r == (val(v) == val(local) && val(threshold) < val(v)),
{
    let (f, g, t) = (Formula::Given(v), Formula::Given(local), Formula::Given(threshold));
    let top = choose|top: bool| #[trigger]
        decides(ops, Test::Equal, f, g, top) && if top {
            decides(ops, Test::Less, t, f, r)
        } else {
            !r
        };
    let (x, y) = choose|x: T, y: T|
        evals(ops, f, x) && evals(ops, g, y) && #[trigger] test_answers(
            ops,
            Test::Equal,
            x,
            y,
            top,
        );
    if top {
        let (p, q) = choose|p: T, q: T|
            evals(ops, t, p) && evals(ops, f, q) && #[trigger] test_answers(
                ops,
                Test::Less,
                p,
                q,
                r,
            );
    }
}

/// The blur of the reduction has a radius of six pixels.
proof fn lemma_reduction_radius<T, A: Arithmetic<T>>(
    ops: &A,
    val: spec_fn(T) -> real,
    sigma: T,
    r: usize,
)
    requires
        is_exact(ops, val),
        rounds_exactly(ops, val),
        val(sigma) == 2 as real,
        indexes(ops, radius_of(sigma), r),
    ensures
        r == 6,
{
    lemma_exact_whole(ops, val, 3);
    let f = whole(3).times(Formula::Given(sigma));
    lemma_exact_product(ops, val, whole(3), Formula::Given(sigma), 3 as real, 2 as real);
    lemma_product(3 as real, 2 as real);
    let v = choose|v: T| evals(ops, radius_of(sigma), v) && #[trigger] index_answers(ops, v, r);
    let x = choose|x: T| evals(ops, f, x) && #[trigger] unary_answers(ops, Unary::Ceil, x, v);
    assert(val(x) == 6 as real);
    assert(6 as real <= usize::MAX as int as real);
    lemma_between_five_and_six(r as int);
}

/// The whole number from six on and below seven.
#[verifier::spinoff_prover]
proof fn lemma_between_five_and_six(k: int)
    requires
        ((k - 1) as real) < 6 as real,
        6 as real <= k as real,
    ensures
        k == 6,
{
}

/// The factors of star reduction: between 0.7 and one everywhere, one where
/// nothing within nine columns and rows is above the threshold, and below one
/// at a pixel above the threshold that nothing within two columns and rows
/// outshines.
proof fn lemma_star_map<T, A: Arithmetic<T>>(
    ops: &A,
    val: spec_fn(T) -> real,
    threshold: T,
    image: Raster<T>,
    lum: Seq<T>,
    local: Seq<T>,
    peaks: Seq<bool>,
    reduction: Seq<T>,
    sigma: T,
    factors: Option<Seq<T>>,
    x: int,
    y: int,
)
    requires
        is_exact(ops, val),
        rounds_exactly(ops, val),
        exp_is_positive(ops, val),
        starts_low(ops, val),
        image.wf(),
        0 <= x < image.width,
        0 <= y < image.height,
        is_star_map(
            ops,
            threshold,
            image,
            lum,
            local,
            peaks,
            reduction,
            sigma,
            factors,
        ),
    ensures
        factors is Some,
        (7 as real) / (10 as real) <= val(factors->0[y * image.width + x]) <= 1 as real,
        is_dark_around(val, image, x, y, 9, val(threshold)) ==> val(
            factors->0[y * image.width + x],
        ) == 1 as real,
        is_star(val, image, x, y, val(threshold)) ==> val(factors->0[y * image.width + x])
            < 1 as real,
{
    let (w, h) = (image.width as int, image.height as int);
    let mask = grown(peaks, w, h, 3);
    lemma_pixel(x, y, w, h);
    let p = y * w + x;
    lemma_exact_whole(ops, val, 0);
    lemma_exact_whole(ops, val, 1);
    lemma_exact_whole(ops, val, 2);
    lemma_exact_ratio(ops, val, 7, 10);
    let low = (7u64 as int as real) / (10u64 as int as real);
    assert(val(sigma) == 2 as real);
    let off = choose|off: bool| #[trigger]
        decides(ops, Test::LessOrEqual, Formula::Given(sigma), whole(0), off) && if off {
            factors == Some(reduction)
        } else {
            exists|r: usize| #[trigger]
                indexes(ops, radius_of(sigma), r) && match factors {
                    Some(s) => 2 * r < usize::MAX && is_blurred_with(
                        ops,
                        reduction,
                        w,
                        h,
                        sigma,
                        r,
                        s,
                    ),
                    None => 2 * r >= usize::MAX,
                }
        };
    let (a, b) = choose|a: T, b: T|
        evals(ops, Formula::Given(sigma), a) && evals(ops, whole(0), b) && #[trigger] test_answers(
            ops,
            Test::LessOrEqual,
            a,
            b,
            off,
        );
    assert(!off);
    let r = choose|r: usize| #[trigger]
        indexes(ops, radius_of(sigma), r) && match factors {
            Some(s) => 2 * r < usize::MAX && is_blurred_with(ops, reduction, w, h, sigma, r, s),
            None => 2 * r >= usize::MAX,
        };
    lemma_reduction_radius(ops, val, sigma, r);
    let f = factors->0;
    assert(reduction.len() == w * h) by {
        lemma_grown_is_near(peaks, w, h, x, y, 3);
    }
    assert forall|u: int, v: int| 0 <= u < w && 0 <= v < h implies val(
        #[trigger] reduction[v * w + u],
    ) == if mask[v * w + u] {
        low
    } else {
        1 as real
    } by {
        lemma_pixel(u, v, w, h);
        lemma_grown_is_near(peaks, w, h, u, v, 3);
        let i = v * w + u;
        assert(evals(
            ops,
            if mask[i] {
                Formula::Ratio(7, 10)
            } else {
                whole(1)
            },
            reduction[i],
        ));
    }
    assert(is_bounded_around(val, reduction, w, h, x, y, 6, low, 1 as real));
    lemma_blur_is_mean(ops, val, reduction, w, h, sigma, r, f, x, y, low, 1 as real);
    if is_dark_around(val, image, x, y, 9, val(threshold)) {
        assert forall|u: int, v: int|
            0 <= u < w && 0 <= v < h && x - 6 <= u <= x + 6 && y - 6 <= v <= y + 6 implies 1 as real
            <= val(#[trigger] reduction[v * w + u]) <= 1 as real by {
            lemma_grown_is_near(peaks, w, h, u, v, 3);
            lemma_pixel(u, v, w, h);
            if mask[v * w + u] {
                let (s, t) = choose|s: int, t: int|
                    0 <= s < w && 0 <= t < h && #[trigger] steps(u, v, s, t) <= 3 && peaks[t * w
                        + s];
                lemma_pixel(s, t, w, h);
                let j = t * w + s;
                assert(is_peak(ops, lum[j], local[j], threshold, peaks[j]));
                lemma_peak_is_bright(ops, val, lum[j], local[j], threshold, peaks[j]);
                lemma_luminance_is_brightness(ops, val, image, lum, j);
                assert(brightness(val, image, t * w + s) <= val(threshold));
            }
        }
        lemma_blur_is_mean(ops, val, reduction, w, h, sigma, r, f, x, y, 1 as real, 1 as real);
    }
    if is_star(val, image, x, y, val(threshold)) {
        let rows = choose|rows: Seq<T>| #[trigger] is_maximum_by(ops, lum, w, h, 2, rows, local);
        assert forall|u: int, v: int|
            0 <= u < w && 0 <= v < h && x - 2 <= u <= x + 2 && y - 2 <= v <= y + 2 implies val(
            #[trigger] lum[v * w + u],
        ) <= val(lum[p]) by {
            lemma_pixel(u, v, w, h);
            lemma_luminance_is_brightness(ops, val, image, lum, v * w + u);
            lemma_luminance_is_brightness(ops, val, image, lum, p);
            assert(brightness(val, image, v * w + u) <= brightness(val, image, p));
        }
        lemma_luminance_is_brightness(ops, val, image, lum, p);
        lemma_local_maximum(ops, val, lum, w, h, rows, local, x, y);
        assert(is_peak(ops, lum[p], local[p], threshold, peaks[p]));
        lemma_peak_is_bright(ops, val, lum[p], local[p], threshold, peaks[p]);
        lemma_grown_is_near(peaks, w, h, x, y, 3);
        assert(steps(x, y, x, y) <= 3);
        assert(is_near(peaks, w, h, x, y, 3));
        assert(mask[p]);
        assert(val(reduction[y * w + x]) == low);
    }
}

/// No pixel within `r` columns and rows of `(x, y)` is brighter than the
/// threshold.
pub open spec fn is_dark_around<T>(
    val: spec_fn(T) -> real,
    image: Raster<T>,
    x: int,
    y: int,
    r: int,
    threshold: real,
) -> bool {
    forall|u: int, v: int|
        0 <= u < image.width && 0 <= v < image.height && x - r <= u <= x + r && y - r <= v <= y + r
            ==> #[trigger] brightness(val, image, v * image.width + u) <= threshold
}

/// Pixel `(x, y)` is brighter than the threshold, and no pixel within two
/// columns and rows outshines it.
pub open spec fn is_star<T>(
    val: spec_fn(T) -> real,
    image: Raster<T>,
    x: int,
    y: int,
    threshold: real,
) -> bool {
    &&& brightness(val, image, y * image.width + x) > threshold
    &&& brightness(val, image, y * image.width + x) >= 0 as real
    &&& forall|u: int, v: int|
        0 <= u < image.width && 0 <= v < image.height && x - 2 <= u <= x + 2 && y - 2 <= v <= y + 2
            ==> #[trigger] brightness(val, image, v * image.width + u) <= brightness(
            val,
            image,
            y * image.width + x,
        )
}

/// Star reduction dims stars and nothing else. No sample of the unit range
/// becomes brighter or loses more than three tenths of itself; one with nothing
/// above the threshold within nine columns and rows stays as it is; and one of a
/// star, a pixel above the threshold that nothing within two columns and rows
/// outshines, becomes darker.
pub proof fn lemma_stars_are_dimmed<T, A: Arithmetic<T>>(
    ops: &A,
    val: spec_fn(T) -> real,
    threshold: T,
    image: Raster<T>,
    out: Raster<T>,
    c: int,
    x: int,
    y: int,
    v: real,
    r: real,
)
    requires
        is_exact(ops, val),
        rounds_exactly(ops, val),
        exp_is_positive(ops, val),
        starts_low(ops, val),
        image.wf(),
        is_star_reduced(ops, threshold, image, out),
        0 <= c < image.planes.len(),
        0 <= x < image.width,
        0 <= y < image.height,
        v == val(image.planes[c][y * image.width + x]),
        r == val(out.planes[c][y * image.width + x]),
        0 as real <= v <= 1 as real,
    ensures
        out.same_shape(image),
        product((7 as real) / (10 as real), v) <= r <= v,
        is_dark_around(val, image, x, y, 9, val(threshold)) ==> r == v,
        is_star(val, image, x, y, val(threshold)) && v > 0 as real ==> r < v,
{
    let (w, h) = (image.width as int, image.height as int);
    let (lum, local, peaks, reduction, sigma, factors) = choose|
        lum: Seq<T>,
        local: Seq<T>,
        peaks: Seq<bool>,
        reduction: Seq<T>,
        sigma: T,
        factors: Option<Seq<T>>,
    | #[trigger]
        is_star_map(ops, threshold, image, lum, local, peaks, reduction, sigma, factors)
            && match factors {
            Some(f) => is_dimmed(ops, f, image, out),
            None => out == image,
        };
    lemma_star_map(
        ops,
        val,
        threshold,
        image,
        lum,
        local,
        peaks,
        reduction,
        sigma,
        factors,
        x,
        y,
    );
    lemma_pixel(x, y, w, h);
    let p = y * w + x;
    let f = factors->0;
    let q = val(f[p]);
    let s = image.planes[c][p];
    assert(image.planes[c].len() == w * h);
    assert(is_dimmed_plane(ops, f, image.planes[c], out.planes[c]));
    assert(evals(ops, scaled_by(f[p])(s), out.planes[c][p]));
    lemma_exact_product(ops, val, Formula::Given(s), Formula::Given(f[p]), v, q);
    lemma_exact_unit(ops, val, Formula::Given(s).times(Formula::Given(f[p])), product(v, q));
    let low = (7 as real) / (10 as real);
    lemma_product_not_negative(v, (1 as real) - q);
    lemma_product_not_negative(v, q - low);
    lemma_product_not_negative(v, q);
    lemma_product_distributes(v, 1 as real, q);
    lemma_product_distributes(v, q, low);
    lemma_product_of_unit(v);
    lemma_product_commutes(v, low);
    if q < 1 as real && v > 0 as real {
        lemma_product_positive(v, (1 as real) - q);
    }
}

/// The distance of two pixels along the rows and columns.
pub open spec fn blocks_between(x: int, y: int, u: int, v: int) -> int {
    let across = if u < x {
        x - u
    } else {
        u - x
    };
    let down = if v < y {
        y - v
    } else {
        v - y
    };
    across + down
}

/// Some star is no more than three pixels from `(x, y)`, along the rows and
/// columns.
pub open spec fn is_in_star<T>(
    val: spec_fn(T) -> real,
    image: Raster<T>,
    x: int,
    y: int,
    threshold: real,
) -> bool {
    exists|u: int, v: int|
        0 <= u < image.width && 0 <= v < image.height && #[trigger] blocks_between(x, y, u, v) <= 3
            && is_star(val, image, u, v, threshold)
}

/// The peaks that star reduction finds are the stars.
proof fn lemma_peaks_are_stars<T, A: Arithmetic<T>>(
    ops: &A,
    val: spec_fn(T) -> real,
    threshold: T,
    image: Raster<T>,
    lum: Seq<T>,
    rows: Seq<T>,
    local: Seq<T>,
    peaks: Seq<bool>,
    x: int,
    y: int,
)
    requires
        is_exact(ops, val),
        starts_low(ops, val),
        val(threshold) >= 0 as real,
        image.wf(),
        0 <= x < image.width,
        0 <= y < image.height,
        is_luminance(ops, image, lum),
        is_maximum_by(ops, lum, image.width as int, image.height as int, 2, rows, local),
        are_peaks(ops, lum, local, threshold, peaks),
    ensures
        peaks[y * image.width + x] == is_star(val, image, x, y, val(threshold)),
{
    let (w, h) = (image.width as int, image.height as int);
    lemma_pixel(x, y, w, h);
    let p = y * w + x;
    lemma_luminance_is_brightness(ops, val, image, lum, p);
    assert(is_peak(ops, lum[p], local[p], threshold, peaks[p]));
    lemma_peak_is_bright(ops, val, lum[p], local[p], threshold, peaks[p]);
    if is_star(val, image, x, y, val(threshold)) {
        assert forall|u: int, v: int|
            0 <= u < w && 0 <= v < h && x - 2 <= u <= x + 2 && y - 2 <= v <= y + 2 implies val(
            #[trigger] lum[v * w + u],
        ) <= val(lum[p]) by {
            lemma_pixel(u, v, w, h);
            lemma_luminance_is_brightness(ops, val, image, lum, v * w + u);
            assert(brightness(val, image, v * w + u) <= brightness(val, image, p));
        }
        lemma_local_maximum(ops, val, lum, w, h, rows, local, x, y);
    }
    if peaks[p] {
        assert forall|u: int, v: int|
            0 <= u < w && 0 <= v < h && x - 2 <= u <= x + 2 && y - 2 <= v <= y + 2 implies
            #[trigger] brightness(val, image, v * w + u) <= brightness(val, image, p) by {
            lemma_pixel(u, v, w, h);
            lemma_luminance_is_brightness(ops, val, image, lum, v * w + u);
            lemma_local_is_no_less(ops, val, lum, w, h, rows, local, x, y, u, v);
        }
    }
}

/// A local maximum is no less than what is around it.
proof fn lemma_local_is_no_less<T, A: Arithmetic<T>>(
    ops: &A,
    val: spec_fn(T) -> real,
    lum: Seq<T>,
    w: int,
    h: int,
    rows: Seq<T>,
    local: Seq<T>,
    x: int,
    y: int,
    u: int,
    v: int,
)
    requires
        is_exact(ops, val),
        starts_low(ops, val),
        lum.len() == w * h,
        is_maximum_by(ops, lum, w, h, 2, rows, local),
        0 <= x < w,
        0 <= y < h,
        0 <= u < w,
        0 <= v < h,
        x - 2 <= u <= x + 2,
        y - 2 <= v <= y + 2,
    ensures
        val(lum[v * w + u]) <= val(local[y * w + x]),
{
    lemma_pixel(x, y, w, h);
    lemma_pixel(x, v, w, h);
    let (p, i) = (y * w + x, v * w + x);
    let (from, to) = window(x, 2, w);
    let (first, last) = window(y, 2, h);
    assert(evals(
        ops,
        row_peak(lum, w, i / w, window(i % w, 2, w).0, window(i % w, 2, w).1),
        rows[i],
    ));
    lemma_row_peak_is_no_less(ops, val, lum, w, v, from, to, rows[i], u);
    assert(evals(
        ops,
        column_peak(rows, w, p % w, window(p / w, 2, h).0, window(p / w, 2, h).1),
        local[p],
    ));
    lemma_column_peak_is_no_less(ops, val, rows, w, x, first, last, local[p], v);
}

/// The largest sample of a row window is no less than any of its samples.
proof fn lemma_row_peak_is_no_less<T, A: Arithmetic<T>>(
    ops: &A,
    val: spec_fn(T) -> real,
    data: Seq<T>,
    w: int,
    y: int,
    from: int,
    to: int,
    v: T,
    k: int,
)
    requires
        is_exact(ops, val),
        from <= k < to,
        evals(ops, row_peak(data, w, y, from, to), v),
    ensures
        val(data[y * w + k]) <= val(v),
    decreases to - from,
{
    let (a, b) = choose|a: T, b: T|
        evals(ops, row_peak(data, w, y, from, to - 1), a) && evals(
            ops,
            Formula::Given(data[y * w + (to - 1)]),
            b,
        ) && #[trigger] binary_answers(ops, Binary::Most, a, b, v);
    if k < to - 1 {
        lemma_row_peak_is_no_less(ops, val, data, w, y, from, to - 1, a, k);
    }
}

/// The largest sample of a column window is no less than any of its samples.
proof fn lemma_column_peak_is_no_less<T, A: Arithmetic<T>>(
    ops: &A,
    val: spec_fn(T) -> real,
    data: Seq<T>,
    w: int,
    x: int,
    from: int,
    to: int,
    v: T,
    k: int,
)
    requires
        is_exact(ops, val),
        from <= k < to,
        evals(ops, column_peak(data, w, x, from, to), v),
    ensures
        val(data[k * w + x]) <= val(v),
    decreases to - from,
{
    let (a, b) = choose|a: T, b: T|
        evals(ops, column_peak(data, w, x, from, to - 1), a) && evals(
            ops,
            Formula::Given(data[(to - 1) * w + x]),
            b,
        ) && #[trigger] binary_answers(ops, Binary::Most, a, b, v);
    if k < to - 1 {
        lemma_column_peak_is_no_less(ops, val, data, w, x, from, to - 1, a, k);
    }
}

/// Star reduction multiplies every channel with one map: seven tenths within three
/// pixels of a star, along the rows and columns, and one elsewhere, under a
/// Gaussian blur of two pixels, which reaches six. The result is the map and the
/// weights of the blur.
pub proof fn lemma_star_reduction_is_exact<T, A: Arithmetic<T>>(
    ops: &A,
    val: spec_fn(T) -> real,
    ex: spec_fn(real) -> real,
    threshold: T,
    image: Raster<T>,
    out: Raster<T>,
    x: int,
    y: int,
) -> (r: (Seq<T>, spec_fn(int) -> real))
    requires
        is_exact(ops, val),
        rounds_exactly(ops, val),
        has_exponentials(ops, val, ex),
        exp_is_positive(ops, val),
        starts_low(ops, val),
        val(threshold) >= 0 as real,
        image.wf(),
        is_star_reduced(ops, threshold, image, out),
        0 <= x < image.width,
        0 <= y < image.height,
    ensures
        out.same_shape(image),
        forall|u: int, v: int|
            0 <= u < image.width && 0 <= v < image.height ==> val(
                #[trigger] r.0[v * image.width + u],
            ) == if is_in_star(val, image, u, v, val(threshold)) {
                (7 as real) / (10 as real)
            } else {
                1 as real
            },
        forall|i: int|
            0 <= i <= 12 ==> product(#[trigger] (r.1)(i), sum(bell(ex, 2 as real, 6), 13)) == bell(
                ex,
                2 as real,
                6,
            )(i),
        forall|c: int|
            0 <= c < image.planes.len() ==> val(#[trigger] out.planes[c][y * image.width + x])
                == into_unit(
                product(
                    val(image.planes[c][y * image.width + x]),
                    blurred_value(
                        val,
                        r.0,
                        r.1,
                        image.width as int,
                        image.height as int,
                        6,
                        x,
                        y,
                    ),
                ),
            ),
{
    let (w, h) = (image.width as int, image.height as int);
    let (lum, local, peaks, reduction, sigma, factors) = choose|
        lum: Seq<T>,
        local: Seq<T>,
        peaks: Seq<bool>,
        reduction: Seq<T>,
        sigma: T,
        factors: Option<Seq<T>>,
    | #[trigger]
        is_star_map(ops, threshold, image, lum, local, peaks, reduction, sigma, factors)
            && match factors {
            Some(f) => is_dimmed(ops, f, image, out),
            None => out == image,
        };
    lemma_star_map(
        ops,
        val,
        threshold,
        image,
        lum,
        local,
        peaks,
        reduction,
        sigma,
        factors,
        x,
        y,
    );
    let f = factors->0;
    let rows = choose|rows: Seq<T>| #[trigger] is_maximum_by(ops, lum, w, h, 2, rows, local);
    let mask = grown(peaks, w, h, 3);
    lemma_exact_whole(ops, val, 1);
    lemma_exact_whole(ops, val, 2);
    lemma_exact_ratio(ops, val, 7, 10);
    lemma_grown_is_near(peaks, w, h, x, y, 3);
    assert forall|u: int, v: int| 0 <= u < w && 0 <= v < h implies val(
        #[trigger] reduction[v * w + u],
    ) == if is_in_star(val, image, u, v, val(threshold)) {
        (7 as real) / (10 as real)
    } else {
        1 as real
    } by {
        lemma_pixel(u, v, w, h);
        lemma_grown_is_near(peaks, w, h, u, v, 3);
        let i = v * w + u;
        assert(evals(
            ops,
            if mask[i] {
                Formula::Ratio(7, 10)
            } else {
                whole(1)
            },
            reduction[i],
        ));
        if mask[i] {
            let (s, t) = choose|s: int, t: int|
                0 <= s < w && 0 <= t < h && #[trigger] steps(u, v, s, t) <= 3 && peaks[t * w + s];
            lemma_peaks_are_stars(ops, val, threshold, image, lum, rows, local, peaks, s, t);
            assert(blocks_between(u, v, s, t) <= 3);
        }
        if is_in_star(val, image, u, v, val(threshold)) {
            let (s, t) = choose|s: int, t: int|
                0 <= s < w && 0 <= t < h && #[trigger] blocks_between(u, v, s, t) <= 3 && is_star(
                    val,
                    image,
                    s,
                    t,
                    val(threshold),
                );
            lemma_peaks_are_stars(ops, val, threshold, image, lum, rows, local, peaks, s, t);
            assert(steps(u, v, s, t) <= 3);
        }
    }
    let reach = lemma_blur_reaches(ops, val, reduction, w, h, sigma, f);
    lemma_between_five_and_six(reach as int);
    lemma_eight(val(sigma));
    let k = lemma_blur_is_gaussian(ops, val, ex, reduction, w, h, sigma, reach, f, x, y);
    lemma_pixel(x, y, w, h);
    let p = y * w + x;
    assert forall|c: int| 0 <= c < image.planes.len() implies val(#[trigger] out.planes[c][p])
        == into_unit(
        product(val(image.planes[c][p]), blurred_value(val, reduction, k, w, h, 6, x, y)),
    ) by {
        let s = image.planes[c][p];
        assert(image.planes[c].len() == w * h);
        assert(is_dimmed_plane(ops, f, image.planes[c], out.planes[c]));
        assert(evals(ops, scaled_by(f[p])(s), out.planes[c][p]));
        let (g, q) = (Formula::Given(s), Formula::Given(f[p]));
        lemma_exact_product(ops, val, g, q, val(s), val(f[p]));
        lemma_exact_unit(ops, val, g.times(q), product(val(s), val(f[p])));
    }
    (reduction, k)
}

/// Twice the square of two is not zero.
proof fn lemma_eight(s: real)
    requires
        s == 2 as real,
    ensures
        product(product(2 as real, s), s) != 0 as real,
{
    lemma_product(2 as real, 2 as real);
    lemma_product(4 as real, 2 as real);
    assert((2 as real) * (2 as real) == 4 as real) by (nonlinear_arith);
    assert((4 as real) * (2 as real) == 8 as real) by (nonlinear_arith);
}

} // verus!
