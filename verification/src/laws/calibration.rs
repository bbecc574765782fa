//! What color calibration does to the background.

use super::answers::{is_deterministic, lemma_one_decision, lemma_one_value};
use super::exact::{
    denotes, into_unit, is_exact, lemma_exact_binary, lemma_exact_product, lemma_exact_quotient,
    lemma_exact_unit, lemma_exact_whole,
};
use super::order::{keys_follow, lemma_median_of_equal};
use super::peaks::lemma_is_positive;
use super::reals::{lemma_product_commutes, lemma_quotient_product, product};
use super::statistics::lemma_one_median;
use crate::arith::{
    Arithmetic, Binary, Formula, Test, decides, evals, test_answers, whole,
};
use crate::enhance::{
    around_corner, corner_samples, corner_side, is_calibrated, is_calibrated_by,
    is_calibrated_plane, scaled_by,
};
use crate::frame::Raster;
use crate::plane::{crop_plane, lemma_pixel, lemma_place, maps, sum_of};
use crate::stats::is_median;
use vstd::prelude::*;

verus! {

/// The side of the squares at the corners of a frame whose smaller dimension is
/// `m`: ten pixels, a twentieth of large frames, all of tiny ones.
pub open spec fn side_for(m: int) -> int {
    if m < 10 {
        m
    } else if m < 200 {
        10
    } else {
        m / 20
    }
}

/// The side of the squares at the corners of a frame.
pub open spec fn side_of(w: int, h: int) -> int {
    if w < h {
        side_for(w)
    } else {
        side_for(h)
    }
}

/// Pixel `(x, y)` lies in a square of side `s` at a corner of the frame.
pub open spec fn in_corner(x: int, y: int, w: int, h: int, s: int) -> bool {
    &&& x < s || x >= w - s
    &&& y < s || y >= h - s
}

/// A plane stands for `b` in its four corners.
pub open spec fn has_background<T>(
    val: spec_fn(T) -> real,
    plane: Seq<T>,
    w: int,
    h: int,
    b: real,
) -> bool {
    forall|i: int|
        0 <= i < plane.len() && in_corner(i % w, i / w, w, h, side_of(w, h)) ==> val(
            #[trigger] plane[i],
        ) == b
}

/// Sample `k` of a corner square lies in a corner.
proof fn lemma_corner_place(w: int, h: int, bottom: bool, right: bool, k: int)
    requires
        1 <= w <= usize::MAX,
        1 <= h <= usize::MAX,
        0 <= k < side_of(w, h) * side_of(w, h),
    ensures
        ({
            let bounds = around_corner(w, h, bottom, right);
            let cols = w - bounds.2 - bounds.3;
            let rows = h - bounds.0 - bounds.1;
            let i = (bounds.0 + k / cols) * w + bounds.2 + k % cols;
            &&& cols == side_of(w, h)
            &&& rows == side_of(w, h)
            &&& 0 <= i < w * h
            &&& in_corner(i % w, i / w, w, h, side_of(w, h))
        }),
{
    let s = side_of(w, h);
    assert(s == corner_side(w, h));
    let bounds = around_corner(w, h, bottom, right);
    lemma_place(k, s, s);
    lemma_pixel(bounds.2 + k % s, bounds.0 + k / s, w, h);
}

/// The corner samples of two planes that agree in the corners.
proof fn lemma_same_corner<T>(
    a: Seq<T>,
    b: Seq<T>,
    w: int,
    h: int,
    bottom: bool,
    right: bool,
)
    requires
        1 <= w <= usize::MAX,
        1 <= h <= usize::MAX,
        a.len() == w * h,
        b.len() == w * h,
        forall|i: int|
            0 <= i < a.len() && in_corner(i % w, i / w, w, h, side_of(w, h)) ==> #[trigger] a[i]
                == b[i],
    ensures
        crop_plane(a, w, h, around_corner(w, h, bottom, right)) == crop_plane(
            b,
            w,
            h,
            around_corner(w, h, bottom, right),
        ),
{
    let bounds = around_corner(w, h, bottom, right);
    let p = crop_plane(a, w, h, bounds);
    let q = crop_plane(b, w, h, bounds);
    lemma_side(w, h);
    lemma_corner_place(w, h, bottom, right, 0);
    assert forall|k: int| 0 <= k < p.len() implies #[trigger] p[k] == q[k] by {
        lemma_corner_place(w, h, bottom, right, k);
    }
    assert(p =~= q);
}

/// A corner square has a pixel.
proof fn lemma_side(w: int, h: int)
    requires
        w >= 1,
        h >= 1,
    ensures
        side_of(w, h) >= 1,
        side_of(w, h) * side_of(w, h) >= 1,
{
    let s = side_of(w, h);
    assert(s * s >= 1) by (nonlinear_arith)
        requires
            s >= 1,
    ;
}

/// A corner square of a plane that stands for `b` in its corners.
proof fn lemma_corner_value<T>(
    val: spec_fn(T) -> real,
    plane: Seq<T>,
    w: int,
    h: int,
    bottom: bool,
    right: bool,
    b: real,
)
    requires
        1 <= w <= usize::MAX,
        1 <= h <= usize::MAX,
        plane.len() == w * h,
        has_background(val, plane, w, h, b),
    ensures
        crop_plane(plane, w, h, around_corner(w, h, bottom, right)).len() >= 1,
        forall|k: int|
            0 <= k < crop_plane(plane, w, h, around_corner(w, h, bottom, right)).len() ==> val(
                #[trigger] crop_plane(plane, w, h, around_corner(w, h, bottom, right))[k],
            ) == b,
{
    let bounds = around_corner(w, h, bottom, right);
    let p = crop_plane(plane, w, h, bounds);
    lemma_side(w, h);
    lemma_corner_place(w, h, bottom, right, 0);
    assert forall|k: int| 0 <= k < p.len() implies val(#[trigger] p[k]) == b by {
        lemma_corner_place(w, h, bottom, right, k);
    }
}

/// The corner samples of a plane that stands for `b` in its corners.
proof fn lemma_corner_samples_value<T>(
    val: spec_fn(T) -> real,
    plane: Seq<T>,
    w: int,
    h: int,
    b: real,
)
    requires
        1 <= w <= usize::MAX,
        1 <= h <= usize::MAX,
        plane.len() == w * h,
        has_background(val, plane, w, h, b),
    ensures
        corner_samples(plane, w, h).len() >= 1,
        forall|k: int|
            0 <= k < corner_samples(plane, w, h).len() ==> val(
                #[trigger] corner_samples(plane, w, h)[k],
            ) == b,
{
    lemma_corner_value(val, plane, w, h, false, false, b);
    lemma_corner_value(val, plane, w, h, false, true, b);
    lemma_corner_value(val, plane, w, h, true, false, b);
    lemma_corner_value(val, plane, w, h, true, true, b);
}

/// Only the corners decide how the channels are scaled: calibrating two images
/// that agree in the four corner squares gives two images that agree wherever
/// those do. Pixels elsewhere have no influence on any other pixel.
pub proof fn lemma_only_corners_calibrate<T, A: Arithmetic<T>>(
    ops: &A,
    image: Raster<T>,
    other: Raster<T>,
    a: Raster<T>,
    b: Raster<T>,
)
    requires
        is_deterministic(ops),
        image.wf(),
        other.wf(),
        image.same_shape(other),
        image.width <= usize::MAX,
        image.height <= usize::MAX,
        forall|c: int, i: int|
            #![trigger image.planes[c][i]]
            0 <= c < image.planes.len() && 0 <= i < image.width * image.height && in_corner(
                i % (image.width as int),
                i / (image.width as int),
                image.width as int,
                image.height as int,
                side_of(image.width as int, image.height as int),
            ) ==> image.planes[c][i] == other.planes[c][i],
        is_calibrated(ops, image, a),
        is_calibrated(ops, other, b),
    ensures
        a.same_shape(b),
        forall|c: int, i: int|
            #![trigger a.planes[c][i]]
            0 <= c < a.planes.len() && 0 <= i < image.width * image.height
                && image.planes[c][i] == other.planes[c][i] ==> a.planes[c][i] == b.planes[c][i],
{
    let (w, h) = (image.width as int, image.height as int);
    if !(image.planes.len() != 3 || image.width == 0 || image.height == 0) {
        let (s, target, dark) = choose|medians: Seq<T>, target: T, dark: bool| #[trigger]
            is_calibrated_by(ops, image, medians, target, dark, a);
        let (t, aim, dim) = choose|medians: Seq<T>, target: T, dark: bool| #[trigger]
            is_calibrated_by(ops, other, medians, target, dark, b);
        assert forall|c: int| 0 <= c < s.len() implies #[trigger] s[c] == t[c] by {
            let (p, q) = (image.planes[c], other.planes[c]);
            assert forall|i: int|
                0 <= i < p.len() && in_corner(
                    i % w,
                    i / w,
                    w,
                    h,
                    side_of(w, h),
                ) implies #[trigger] p[i] == q[i] by {
                assert(image.planes[c][i] == other.planes[c][i]);
            }
            lemma_same_corner(p, q, w, h, false, false);
            lemma_same_corner(p, q, w, h, false, true);
            lemma_same_corner(p, q, w, h, true, false);
            lemma_same_corner(p, q, w, h, true, true);
            assert(corner_samples(p, w, h) == corner_samples(q, w, h));
            lemma_one_median(ops, corner_samples(p, w, h), s[c], t[c]);
        }
        assert(s =~= t);
        lemma_one_value(ops, sum_of(s, 3).over(whole(3)), target, aim);
        lemma_one_decision(ops, Test::LessOrEqual, Formula::Given(target), whole(0), dark, dim);
        if !dark {
            assert forall|c: int, i: int|
                #![trigger a.planes[c][i]]
                0 <= c < a.planes.len() && 0 <= i < image.width * image.height
                    && image.planes[c][i] == other.planes[c][i] implies a.planes[c][i]
                == b.planes[c][i] by {
                lemma_one_calibrated_sample(
                    ops,
                    s[c],
                    target,
                    image.planes[c],
                    other.planes[c],
                    a.planes[c],
                    b.planes[c],
                    i,
                );
            }
        }
    }
}

/// Where two planes agree, so do the planes that one scale gives.
proof fn lemma_one_calibrated_sample<T, A: Arithmetic<T>>(
    ops: &A,
    m: T,
    target: T,
    plane: Seq<T>,
    other: Seq<T>,
    a: Seq<T>,
    b: Seq<T>,
    i: int,
)
    requires
        is_deterministic(ops),
        is_calibrated_plane(ops, m, target, plane, a),
        is_calibrated_plane(ops, m, target, other, b),
        0 <= i < plane.len(),
        plane.len() == other.len(),
        plane[i] == other[i],
    ensures
        a[i] == b[i],
{
    let p = choose|positive: bool| #[trigger]
        decides(ops, Test::Less, whole(0), Formula::Given(m), positive) && if positive {
            exists|scale: T|
                evals(ops, Formula::Given(target).over(Formula::Given(m)), scale)
                    && #[trigger] maps(ops, scaled_by(scale), plane, a)
        } else {
            a == plane
        };
    let q = choose|positive: bool| #[trigger]
        decides(ops, Test::Less, whole(0), Formula::Given(m), positive) && if positive {
            exists|scale: T|
                evals(ops, Formula::Given(target).over(Formula::Given(m)), scale)
                    && #[trigger] maps(ops, scaled_by(scale), other, b)
        } else {
            b == other
        };
    lemma_one_decision(ops, Test::Less, whole(0), Formula::Given(m), p, q);
    if p {
        let s = choose|scale: T|
            evals(ops, Formula::Given(target).over(Formula::Given(m)), scale) && #[trigger] maps(
                ops,
                scaled_by(scale),
                plane,
                a,
            );
        let t = choose|scale: T|
            evals(ops, Formula::Given(target).over(Formula::Given(m)), scale) && #[trigger] maps(
                ops,
                scaled_by(scale),
                other,
                b,
            );
        lemma_one_value(ops, Formula::Given(target).over(Formula::Given(m)), s, t);
        assert(evals(ops, scaled_by(s)(plane[i]), a[i]));
        assert(evals(ops, scaled_by(s)(other[i]), b[i]));
        lemma_one_value(ops, scaled_by(s)(plane[i]), a[i], b[i]);
    }
}

/// One sample of a plane whose background `b` is brought to `mean`.
proof fn lemma_calibrated_value<T, A: Arithmetic<T>>(
    ops: &A,
    val: spec_fn(T) -> real,
    m: T,
    target: T,
    plane: Seq<T>,
    out: Seq<T>,
    i: int,
)
    requires
        is_exact(ops, val),
        val(m) > 0 as real,
        is_calibrated_plane(ops, m, target, plane, out),
        0 <= i < plane.len(),
    ensures
        out.len() == plane.len(),
        val(out[i]) == into_unit(product(val(plane[i]), val(target) / val(m))),
{
    lemma_is_positive(ops, val, m);
    let p = choose|positive: bool| #[trigger]
        decides(ops, Test::Less, whole(0), Formula::Given(m), positive) && if positive {
            exists|scale: T|
                evals(ops, Formula::Given(target).over(Formula::Given(m)), scale)
                    && #[trigger] maps(ops, scaled_by(scale), plane, out)
        } else {
            out == plane
        };
    let s = choose|scale: T|
        evals(ops, Formula::Given(target).over(Formula::Given(m)), scale) && #[trigger] maps(
            ops,
            scaled_by(scale),
            plane,
            out,
        );
    let (f, g) = (Formula::Given(plane[i]), Formula::Given(s));
    lemma_exact_quotient(
        ops,
        val,
        Formula::Given(target),
        Formula::Given(m),
        val(target),
        val(m),
        s,
    );
    lemma_exact_product(ops, val, f, g, val(plane[i]), val(s));
    lemma_exact_unit(ops, val, f.times(g), product(val(plane[i]), val(s)));
    assert(evals(ops, scaled_by(s)(plane[i]), out[i]));
}

/// The sum of three samples over three.
proof fn lemma_mean_of_three<T, A: Arithmetic<T>>(
    ops: &A,
    val: spec_fn(T) -> real,
    s: Seq<T>,
    target: T,
)
    requires
        is_exact(ops, val),
        s.len() == 3,
        evals(ops, sum_of(s, 3).over(whole(3)), target),
    ensures
        (3 as real) * val(target) == val(s[0]) + val(s[1]) + val(s[2]),
{
    reveal_with_fuel(sum_of, 4);
    lemma_exact_whole(ops, val, 0);
    lemma_exact_whole(ops, val, 3);
    let (a, b, c) = (val(s[0]), val(s[1]), val(s[2]));
    let zero = 0u64 as int as real;
    lemma_exact_binary(ops, val, Binary::Plus, whole(0), Formula::Given(s[0]), zero, a);
    lemma_exact_binary(ops, val, Binary::Plus, sum_of(s, 1), Formula::Given(s[1]), zero + a, b);
    lemma_exact_binary(
        ops,
        val,
        Binary::Plus,
        sum_of(s, 2),
        Formula::Given(s[2]),
        zero + a + b,
        c,
    );
    assert(denotes(ops, val, sum_of(s, 3), zero + a + b + c));
    lemma_exact_binary(
        ops,
        val,
        Binary::Over,
        sum_of(s, 3),
        whole(3),
        zero + a + b + c,
        3u64 as int as real,
    );
}

/// Calibration neutralizes the background: where the corners of the channels
/// stand for `b[0]`, `b[1]` and `b[2]`, every sample of a channel is multiplied
/// by the mean of the three over its own, within the unit range, so that the
/// background of each channel comes to that mean.
pub proof fn lemma_calibration_neutralizes<T, A: Arithmetic<T>>(
    ops: &A,
    val: spec_fn(T) -> real,
    image: Raster<T>,
    b: Seq<real>,
    mean: real,
    out: Raster<T>,
)
    requires
        is_exact(ops, val),
        keys_follow(ops, val),
        image.wf(),
        image.planes.len() == 3,
        1 <= image.width <= usize::MAX,
        1 <= image.height <= usize::MAX,
        b.len() == 3,
        forall|c: int| 0 <= c < 3 ==> #[trigger] b[c] > 0 as real,
        forall|c: int|
            0 <= c < 3 ==> has_background(
                val,
                #[trigger] image.planes[c],
                image.width as int,
                image.height as int,
                b[c],
            ),
        (3 as real) * mean == b[0] + b[1] + b[2],
        is_calibrated(ops, image, out),
    ensures
        out.same_shape(image),
        forall|c: int, i: int|
            #![trigger out.planes[c][i]]
            0 <= c < 3 && 0 <= i < image.width * image.height ==> val(out.planes[c][i])
                == into_unit(product(val(image.planes[c][i]), mean / b[c])),
        forall|c: int, i: int|
            #![trigger out.planes[c][i]]
            0 <= c < 3 && 0 <= i < image.width * image.height && val(image.planes[c][i]) == b[c]
                && mean <= 1 as real ==> val(out.planes[c][i]) == mean,
{
    let (w, h) = (image.width as int, image.height as int);
    let (s, target, dark) = choose|medians: Seq<T>, target: T, dark: bool| #[trigger]
        is_calibrated_by(ops, image, medians, target, dark, out);
    assert forall|c: int| 0 <= c < 3 implies val(#[trigger] s[c]) == b[c] by {
        lemma_corner_samples_value(val, image.planes[c], w, h, b[c]);
        lemma_median_of_equal(ops, val, corner_samples(image.planes[c], w, h), s[c], b[c]);
    }
    assert(val(s[0]) == b[0] && val(s[1]) == b[1] && val(s[2]) == b[2]);
    lemma_mean_of_three(ops, val, s, target);
    assert(b[0] > 0 as real && b[1] > 0 as real && b[2] > 0 as real);
    assert(val(target) == mean);
    lemma_exact_whole(ops, val, 0);
    let (x, y) = choose|x: T, y: T|
        evals(ops, Formula::Given(target), x) && evals(ops, whole(0), y)
            && #[trigger] test_answers(ops, Test::LessOrEqual, x, y, dark);
    assert(!dark);
    assert forall|c: int, i: int|
        #![trigger out.planes[c][i]]
        0 <= c < 3 && 0 <= i < image.width * image.height implies val(out.planes[c][i])
        == into_unit(product(val(image.planes[c][i]), mean / b[c])) by {
        assert(val(s[c]) == b[c]);
        lemma_calibrated_value(ops, val, s[c], target, image.planes[c], out.planes[c], i);
    }
    assert forall|c: int, i: int|
        #![trigger out.planes[c][i]]
        0 <= c < 3 && 0 <= i < image.width * image.height && val(image.planes[c][i]) == b[c]
            && mean <= 1 as real implies val(out.planes[c][i]) == mean by {
        lemma_product_commutes(b[c], mean / b[c]);
        lemma_quotient_product(mean, b[c]);
    }
}

/// The square of side `s` whose first pixel is `(x, y)`, row by row.
pub open spec fn square<T>(plane: Seq<T>, w: int, x: int, y: int, s: int) -> Seq<T> {
    Seq::new((s * s) as nat, |k: int| plane[(y + k / s) * w + (x + k % s)])
}

/// The four squares at the corners of a plane: the upper ones from the left to the
/// right, the lower ones likewise.
pub open spec fn squares<T>(plane: Seq<T>, w: int, h: int) -> Seq<T> {
    let s = side_of(w, h);
    square(plane, w, 0, 0, s) + square(plane, w, w - s, 0, s) + square(plane, w, 0, h - s, s)
        + square(plane, w, w - s, h - s, s)
}

/// The corner samples are those of the squares.
proof fn lemma_corners_are_squares<T>(plane: Seq<T>, w: int, h: int)
    requires
        1 <= w <= usize::MAX,
        1 <= h <= usize::MAX,
    ensures
        corner_samples(plane, w, h) == squares(plane, w, h),
{
    let s = side_of(w, h);
    lemma_side(w, h);
    lemma_corner_place(w, h, false, false, 0);
    lemma_corner_place(w, h, false, true, 0);
    lemma_corner_place(w, h, true, false, 0);
    lemma_corner_place(w, h, true, true, 0);
    assert(s == corner_side(w, h));
    assert(crop_plane(plane, w, h, around_corner(w, h, false, false)) =~= square(
        plane,
        w,
        0,
        0,
        s,
    ));
    assert(crop_plane(plane, w, h, around_corner(w, h, false, true)) =~= square(
        plane,
        w,
        w - s,
        0,
        s,
    ));
    assert(crop_plane(plane, w, h, around_corner(w, h, true, false)) =~= square(
        plane,
        w,
        0,
        h - s,
        s,
    ));
    assert(crop_plane(plane, w, h, around_corner(w, h, true, true)) =~= square(
        plane,
        w,
        w - s,
        h - s,
        s,
    ));
}

/// The background of a channel is the median of the four squares at its corners.
/// Calibration multiplies every channel with a positive background by the mean of
/// the three backgrounds over its own, within the unit range; it leaves a channel
/// with no such background as it is, and the image where the mean is not positive.
pub proof fn lemma_calibration_scales<T, A: Arithmetic<T>>(
    ops: &A,
    val: spec_fn(T) -> real,
    image: Raster<T>,
    m: Seq<T>,
    mean: real,
    out: Raster<T>,
    c: int,
    i: int,
)
    requires
        is_deterministic(ops),
        is_exact(ops, val),
        image.wf(),
        image.planes.len() == 3,
        1 <= image.width <= usize::MAX,
        1 <= image.height <= usize::MAX,
        m.len() == 3,
        forall|d: int|
            0 <= d < 3 ==> is_median(
                ops,
                squares(image.planes[d], image.width as int, image.height as int),
                #[trigger] m[d],
            ),
        (3 as real) * mean == val(m[0]) + val(m[1]) + val(m[2]),
        is_calibrated(ops, image, out),
        0 <= c < 3,
        0 <= i < image.width * image.height,
    ensures
        mean <= 0 as real ==> out == image,
        mean > 0 as real && val(m[c]) <= 0 as real ==> out.planes[c] == image.planes[c],
        mean > 0 as real && val(m[c]) > 0 as real ==> val(out.planes[c][i]) == into_unit(
            product(val(image.planes[c][i]), mean / val(m[c])),
        ),
{
    let (w, h) = (image.width as int, image.height as int);
    let (s, target, dark) = choose|medians: Seq<T>, target: T, dark: bool| #[trigger]
        is_calibrated_by(ops, image, medians, target, dark, out);
    assert forall|d: int| 0 <= d < 3 implies #[trigger] s[d] == m[d] by {
        lemma_corners_are_squares(image.planes[d], w, h);
        lemma_one_median(ops, squares(image.planes[d], w, h), s[d], m[d]);
    }
    assert(s[0] == m[0] && s[1] == m[1] && s[2] == m[2]);
    lemma_mean_of_three(ops, val, s, target);
    lemma_exact_whole(ops, val, 0);
    let (x, y) = choose|x: T, y: T|
        evals(ops, Formula::Given(target), x) && evals(ops, whole(0), y)
            && #[trigger] test_answers(ops, Test::LessOrEqual, x, y, dark);
    if !dark {
        assert(is_calibrated_plane(ops, m[c], target, image.planes[c], out.planes[c]));
        lemma_is_positive(ops, val, m[c]);
        if val(m[c]) > 0 as real {
            lemma_calibrated_value(ops, val, m[c], target, image.planes[c], out.planes[c], i);
        }
    }
}

} // verus!
