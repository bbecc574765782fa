//! Enhancement operations: mean-anchored contrast, corner-sampled color
//! calibration, and star reduction.
//!
//! Neighborhood filters use clamp-to-edge boundaries.

use crate::arith::{
    Arithmetic, Binary, Formula, Sample, Test, Traced, Unary, decides, evals, indexes, whole,
};
use crate::autocrop::CropBounds;
use crate::frame::{Image, Raster, is_luminance, map_image, maps_image};
use crate::parallel::par_map;
use crate::plane::{
    bounds_fit, copied, crop_plane, crop_samples, lemma_pixel, lemma_place, map_plane, maps, sum,
    sum_of,
};
use crate::stats::{is_median, median_of};
use vstd::prelude::*;

verus! {

// ---------------------------------------------------------------------------
// Contrast
// ---------------------------------------------------------------------------

/// A sample moved away from the mean.
pub open spec fn contrasted<T>(mean: T, strength: T) -> spec_fn(T) -> Formula<T> {
    |v: T|
        Formula::Given(mean).plus(
            Formula::Given(v).minus(Formula::Given(mean)).times(Formula::Given(strength)),
        ).unit()
}

/// The sums of the planes.
pub open spec fn are_sums<T, A: Arithmetic<T>>(
    ops: &A,
    planes: Seq<Seq<T>>,
    sums: Seq<T>,
) -> bool {
    &&& sums.len() == planes.len()
    &&& forall|c: int|
        0 <= c < sums.len() ==> evals(
            ops,
            sum_of(planes[c], planes[c].len() as int),
            #[trigger] sums[c],
        )
}

/// `mean` is the mean of all samples of the image.
pub open spec fn is_mean<T, A: Arithmetic<T>>(
    ops: &A,
    image: Raster<T>,
    sums: Seq<T>,
    mean: T,
) -> bool {
    &&& are_sums(ops, image.planes, sums)
    &&& evals(
        ops,
        sum_of(sums, sums.len() as int).over(Formula::Count(image.samples() as usize)),
        mean,
    )
}

/// `out` is the image after a contrast boost: untouched for a strength of one
/// or less, every sample moved away from the mean of all samples otherwise.
pub open spec fn is_contrasted<T, A: Arithmetic<T>>(
    ops: &A,
    strength: T,
    image: Raster<T>,
    out: Raster<T>,
) -> bool {
    exists|off: bool, empty: bool| #[trigger]
        is_contrast_off(ops, strength, image, off, empty) && if off || empty {
            out == image
        } else {
            exists|sums: Seq<T>, mean: T| #[trigger]
                is_mean(ops, image, sums, mean) && maps_image(
                    ops,
                    contrasted(mean, strength),
                    image,
                    out,
                )
        }
}

/// `off` tells whether the strength is one or less, and `empty` whether the
/// image has no samples.
pub open spec fn is_contrast_off<T, A: Arithmetic<T>>(
    ops: &A,
    strength: T,
    image: Raster<T>,
    off: bool,
    empty: bool,
) -> bool {
    &&& decides(ops, Test::LessOrEqual, Formula::Given(strength), whole(1), off)
    &&& off || decides(
        ops,
        Test::Equal,
        Formula::Count(image.samples() as usize),
        whole(0),
        empty,
    )
}

/// One sample moved away from the mean.
fn contrast_sample<T: Sample, A: Arithmetic<T>>(ops: &A, mean: T, strength: T, v: T) -> (r: T)
    ensures
        evals(ops, contrasted(mean, strength)(v), r),
{
    let middle = Traced::given(ops, mean);
    let rest = Traced::given(ops, v).minus(ops, middle);
    middle.plus(ops, rest.times(ops, Traced::given(ops, strength))).unit(ops).value
}

/// Mean-anchored contrast boost: `v' = mean + (v - mean) * strength`, clipped
/// to [0, 1]. The mean is global across all channels. `strength <= 1.0` is a
/// no-op.
pub fn contrast<T: Sample, A: Arithmetic<T>>(ops: &A, image: &mut Image<T>, strength: T)
    requires
        old(image)@.wf(),
        old(image)@.samples() <= usize::MAX,
    ensures
        final(image)@.wf(),
        is_contrasted(ops, strength, old(image)@, final(image)@),
{
    let ghost before = image@;
    let off = Traced::given(ops, strength).test(ops, Test::LessOrEqual, Traced::whole(ops, 1));
    if off {
        assert(is_contrast_off(ops, strength, before, off, false));
        return;
    }
    let total = Traced::count(ops, image.num_channels() * image.pixels_per_channel());
    let empty = total.test(ops, Test::Equal, Traced::whole(ops, 0));
    assert(is_contrast_off(ops, strength, before, off, empty));
    if empty {
        return;
    }
    let mut sums: Vec<T> = Vec::new();
    let mut c: usize = 0;
    while c < image.num_channels()
        invariant
            image@ == before,
            c <= before.planes.len(),
            sums@.len() == c,
            forall|k: int|
                0 <= k < c ==> evals(
                    ops,
                    sum_of(before.planes[k], before.planes[k].len() as int),
                    #[trigger] sums@[k],
                ),
        decreases before.planes.len() - c,
    {
        sums.push(sum(ops, image.channel(c)));
        c += 1;
    }
    let all = sum(ops, sums.as_slice());
    let ghost f = sum_of(sums@, sums@.len() as int);
    let whole_sum = Traced { value: all, formula: Ghost(f) };
    let mean = whole_sum.over(ops, total).value;
    assert(is_mean(ops, before, sums@, mean));
    let f = |v: T| -> (r: T)
        ensures
            evals(ops, contrasted(mean, strength)(v), r),
    {
        contrast_sample(ops, mean, strength, v)
    };
    let out = map_image(image, &f);
    assert(maps_image(ops, contrasted(mean, strength), before, out@));
    *image = out;
}

// ---------------------------------------------------------------------------
// Color calibration
// ---------------------------------------------------------------------------

/// The side of the corner squares: a twentieth of the smaller dimension, at
/// least ten pixels, and no more than there are.
pub open spec fn corner_side(w: int, h: int) -> int {
    let m = if w < h {
        w
    } else {
        h
    };
    let side = if m / 20 < 10 {
        10
    } else {
        m / 20
    };
    if side < m {
        side
    } else {
        m
    }
}

/// What is cut away around the corner square at the top or the bottom, and at
/// the left or the right.
pub open spec fn around_corner(w: int, h: int, bottom: bool, right: bool) -> CropBounds {
    let rest_h = (h - corner_side(w, h)) as usize;
    let rest_w = (w - corner_side(w, h)) as usize;
    (
        if bottom {
            rest_h
        } else {
            0
        },
        if bottom {
            0
        } else {
            rest_h
        },
        if right {
            rest_w
        } else {
            0
        },
        if right {
            0
        } else {
            rest_w
        },
    )
}

/// The samples of the four corner squares of a plane.
pub open spec fn corner_samples<T>(plane: Seq<T>, w: int, h: int) -> Seq<T> {
    crop_plane(plane, w, h, around_corner(w, h, false, false)) + crop_plane(
        plane,
        w,
        h,
        around_corner(w, h, false, true),
    ) + crop_plane(plane, w, h, around_corner(w, h, true, false)) + crop_plane(
        plane,
        w,
        h,
        around_corner(w, h, true, true),
    )
}

/// The medians of the corners, channel by channel.
pub open spec fn are_corner_medians<T, A: Arithmetic<T>>(
    ops: &A,
    image: Raster<T>,
    medians: Seq<T>,
) -> bool {
    &&& medians.len() == image.planes.len()
    &&& forall|c: int|
        0 <= c < medians.len() ==> is_median(
            ops,
            corner_samples(image.planes[c], image.width as int, image.height as int),
            #[trigger] medians[c],
        )
}

/// A sample times `scale`, in the unit range.
pub open spec fn scaled_by<T>(scale: T) -> spec_fn(T) -> Formula<T> {
    |v: T| Formula::Given(v).times(Formula::Given(scale)).unit()
}

/// `out` is a plane rescaled so that its background `m` meets the target; the
/// plane itself where the background is not positive.
pub open spec fn is_calibrated_plane<T, A: Arithmetic<T>>(
    ops: &A,
    m: T,
    target: T,
    plane: Seq<T>,
    out: Seq<T>,
) -> bool {
    exists|positive: bool| #[trigger]
        decides(ops, Test::Less, whole(0), Formula::Given(m), positive) && if positive {
            exists|scale: T|
                evals(ops, Formula::Given(target).over(Formula::Given(m)), scale)
                    && #[trigger] maps(ops, scaled_by(scale), plane, out)
        } else {
            out == plane
        }
}

/// Every channel of `out` is rescaled so that its background meets the target.
pub open spec fn is_calibrated_to<T, A: Arithmetic<T>>(
    ops: &A,
    medians: Seq<T>,
    target: T,
    image: Raster<T>,
    out: Raster<T>,
) -> bool {
    &&& out.same_shape(image)
    &&& forall|c: int|
        0 <= c < out.planes.len() ==> is_calibrated_plane(
            ops,
            medians[c],
            target,
            image.planes[c],
            #[trigger] out.planes[c],
        )
}

/// `out` is the image after calibration by these corner medians.
pub open spec fn is_calibrated_by<T, A: Arithmetic<T>>(
    ops: &A,
    image: Raster<T>,
    medians: Seq<T>,
    target: T,
    dark: bool,
    out: Raster<T>,
) -> bool {
    &&& are_corner_medians(ops, image, medians)
    &&& evals(ops, sum_of(medians, 3).over(whole(3)), target)
    &&& decides(ops, Test::LessOrEqual, Formula::Given(target), whole(0), dark)
    &&& if dark {
        out == image
    } else {
        is_calibrated_to(ops, medians, target, image, out)
    }
}

/// `out` is the image after color calibration: untouched for mono, for an
/// empty frame and where the mean background is not positive; otherwise each
/// channel rescaled so that its corner median meets the mean of the three.
pub open spec fn is_calibrated<T, A: Arithmetic<T>>(
    ops: &A,
    image: Raster<T>,
    out: Raster<T>,
) -> bool {
    if image.planes.len() != 3 || image.width == 0 || image.height == 0 {
        out == image
    } else {
        exists|medians: Seq<T>, target: T, dark: bool| #[trigger]
            is_calibrated_by(ops, image, medians, target, dark, out)
    }
}

/// Color calibration leaves a mono image untouched.
pub proof fn lemma_calibration_of_mono<T, A: Arithmetic<T>>(
    ops: &A,
    image: Raster<T>,
    out: Raster<T>,
)
    requires
        image.planes.len() == 1,
        is_calibrated(ops, image, out),
    ensures
        out == image,
{
}

/// The side of the corner squares.
fn corner_of(w: usize, h: usize) -> (r: usize)
    ensures
        r == corner_side(w as int, h as int),
        r <= w,
        r <= h,
{
    let m = if w < h {
        w
    } else {
        h
    };
    let side = if m / 20 < 10 {
        10
    } else {
        m / 20
    };
    if side < m {
        side
    } else {
        m
    }
}

/// Adds the samples inside the bounds to the buffer.
fn extend_with_crop<T: Copy>(
    buffer: &mut Vec<T>,
    plane: &[T],
    w: usize,
    h: usize,
    bounds: CropBounds,
)
    requires
        plane@.len() == w * h,
        bounds_fit(w as int, h as int, bounds),
    ensures
        final(buffer)@ == old(buffer)@ + crop_plane(plane@, w as int, h as int, bounds),
{
    let ghost before = buffer@;
    let part = crop_samples(plane, w, h, bounds);
    let mut i: usize = 0;
    while i < part.len()
        invariant
            i <= part@.len(),
            buffer@ =~= before + part@.take(i as int),
        decreases part@.len() - i,
    {
        buffer.push(part[i]);
        i += 1;
    }
    assert(part@.take(part@.len() as int) =~= part@);
}

/// The median of the four corner squares of a plane.
fn corner_median<T: Sample, A: Arithmetic<T>>(ops: &A, plane: &[T], w: usize, h: usize) -> (r: T)
    requires
        plane@.len() == w * h,
    ensures
        is_median(ops, corner_samples(plane@, w as int, h as int), r),
{
    let corner = corner_of(w, h);
    let rest_h: usize = h - corner;
    let rest_w: usize = w - corner;
    let mut samples: Vec<T> = Vec::new();
    extend_with_crop(&mut samples, plane, w, h, (0, rest_h, 0, rest_w));
    extend_with_crop(&mut samples, plane, w, h, (0, rest_h, rest_w, 0));
    extend_with_crop(&mut samples, plane, w, h, (rest_h, 0, 0, rest_w));
    extend_with_crop(&mut samples, plane, w, h, (rest_h, 0, rest_w, 0));
    assert(samples@ =~= corner_samples(plane@, w as int, h as int));
    median_of(ops, samples.as_slice())
}

/// One sample times the scale.
fn scale_sample<T: Sample, A: Arithmetic<T>>(ops: &A, scale: T, v: T) -> (r: T)
    ensures
        evals(ops, scaled_by(scale)(v), r),
{
    Traced::given(ops, v).times(ops, Traced::given(ops, scale)).unit(ops).value
}

/// One plane rescaled so that its background meets the target.
fn calibrate_plane<T: Sample, A: Arithmetic<T>>(
    ops: &A,
    m: T,
    target: T,
    plane: &[T],
) -> (out: Vec<T>)
    ensures
        out@.len() == plane@.len(),
        is_calibrated_plane(ops, m, target, plane@, out@),
{
    let level = Traced::given(ops, m);
    let positive = Traced::whole(ops, 0).test(ops, Test::Less, level);
    if positive {
        let scale = Traced::given(ops, target).over(ops, level).value;
        let f = |v: T| -> (r: T)
            ensures
                evals(ops, scaled_by(scale)(v), r),
        {
            scale_sample(ops, scale, v)
        };
        let out = map_plane(plane, &f);
        assert(maps(ops, scaled_by(scale), plane@, out@));
        out
    } else {
        copied(plane)
    }
}

/// Background color neutralization for RGB images: sample the four frame
/// corners, take each channel's median, and rescale channels so their
/// backgrounds meet at the mean level. Mono images are returned untouched.
pub fn color_calibrate<T: Sample, A: Arithmetic<T>>(ops: &A, image: &mut Image<T>)
    requires
        old(image)@.wf(),
    ensures
        final(image)@.wf(),
        is_calibrated(ops, old(image)@, final(image)@),
{
    let ghost before = image@;
    let w = image.width();
    let h = image.height();
    if !image.is_color() || w == 0 || h == 0 {
        return;
    }
    let mut medians: Vec<T> = Vec::new();
    let mut c: usize = 0;
    while c < 3
        invariant
            image@ == before,
            before.wf(),
            before.planes.len() == 3,
            w == before.width,
            h == before.height,
            c <= 3,
            medians@.len() == c,
            forall|k: int|
                0 <= k < c ==> is_median(
                    ops,
                    corner_samples(before.planes[k], w as int, h as int),
                    #[trigger] medians@[k],
                ),
        decreases 3 - c,
    {
        medians.push(corner_median(ops, image.channel(c), w, h));
        c += 1;
    }
    let total = sum(ops, medians.as_slice());
    let ghost f = sum_of(medians@, medians@.len() as int);
    let all = Traced { value: total, formula: Ghost(f) };
    let target = all.over(ops, Traced::whole(ops, 3)).value;
    let dark = Traced::given(ops, target).test(ops, Test::LessOrEqual, Traced::whole(ops, 0));
    if dark {
        assert(is_calibrated_by(ops, before, medians@, target, dark, before));
        return;
    }
    let mut channels: Vec<Vec<T>> = Vec::new();
    let mut c: usize = 0;
    while c < 3
        invariant
            image@ == before,
            before.wf(),
            before.planes.len() == 3,
            w == before.width,
            h == before.height,
            medians@.len() == 3,
            c <= 3,
            channels@.len() == c,
            forall|k: int| 0 <= k < c ==> (#[trigger] channels@[k])@.len() == w * h,
            forall|k: int|
                0 <= k < c ==> is_calibrated_plane(
                    ops,
                    medians@[k],
                    target,
                    before.planes[k],
                    (#[trigger] channels@[k])@,
                ),
        decreases 3 - c,
    {
        channels.push(calibrate_plane(ops, medians[c], target, image.channel(c)));
        c += 1;
    }
    *image = Image::from_channels(w, h, channels);
    assert forall|k: int| 0 <= k < image@.planes.len() implies is_calibrated_plane(
        ops,
        medians@[k],
        target,
        before.planes[k],
        #[trigger] image@.planes[k],
    ) by {
        assert(image@.planes[k] == channels@[k]@);
    }
    assert(is_calibrated_by(ops, before, medians@, target, dark, image@));
}

// ---------------------------------------------------------------------------
// Star reduction
// ---------------------------------------------------------------------------

/// The first line of the window of radius `r` around line `k` of `n`, and the
/// line after its last.
pub open spec fn window(k: int, r: int, n: int) -> (int, int) {
    (
        if k < r {
            0
        } else {
            k - r
        },
        if k + r + 1 < n {
            k + r + 1
        } else {
            n
        },
    )
}

/// The largest sample of row `y` from column `from` to before `to`, minus
/// infinity for none.
pub open spec fn row_peak<T>(data: Seq<T>, w: int, y: int, from: int, to: int) -> Formula<T>
    decreases to - from,
{
    if to <= from {
        Formula::Infinity.apply(Unary::Neg)
    } else {
        row_peak(data, w, y, from, to - 1).most(Formula::Given(data[y * w + (to - 1)]))
    }
}

/// The largest sample of column `x` from row `from` to before `to`, minus
/// infinity for none.
pub open spec fn column_peak<T>(data: Seq<T>, w: int, x: int, from: int, to: int) -> Formula<T>
    decreases to - from,
{
    if to <= from {
        Formula::Infinity.apply(Unary::Neg)
    } else {
        column_peak(data, w, x, from, to - 1).most(Formula::Given(data[(to - 1) * w + x]))
    }
}

/// `out` holds the largest sample of the square of radius `r` around every
/// pixel, by the largest samples `rows` of the row windows.
pub open spec fn is_maximum_by<T, A: Arithmetic<T>>(
    ops: &A,
    data: Seq<T>,
    w: int,
    h: int,
    r: int,
    rows: Seq<T>,
    out: Seq<T>,
) -> bool {
    &&& rows.len() == data.len()
    &&& out.len() == data.len()
    &&& forall|i: int|
        0 <= i < rows.len() ==> evals(
            ops,
            row_peak(data, w, i / w, window(i % w, r, w).0, window(i % w, r, w).1),
            #[trigger] rows[i],
        )
    &&& forall|i: int|
        0 <= i < out.len() ==> evals(
            ops,
            column_peak(rows, w, i % w, window(i / w, r, h).0, window(i / w, r, h).1),
            #[trigger] out[i],
        )
}

/// `out` is the square maximum filter of radius `r` of a plane.
pub open spec fn is_maximum<T, A: Arithmetic<T>>(
    ops: &A,
    data: Seq<T>,
    w: int,
    h: int,
    r: int,
    out: Seq<T>,
) -> bool {
    exists|rows: Seq<T>| #[trigger] is_maximum_by(ops, data, w, h, r, rows, out)
}

/// The mask grown by one pixel in four directions, at place `i`.
pub open spec fn dilated_at(mask: Seq<bool>, w: int, h: int, i: int) -> bool {
    ||| mask[i]
    ||| i % w > 0 && mask[i - 1]
    ||| i % w + 1 < w && mask[i + 1]
    ||| i / w > 0 && mask[i - w]
    ||| i / w + 1 < h && mask[i + w]
}

/// The mask grown by one pixel in four directions.
pub open spec fn dilated(mask: Seq<bool>, w: int, h: int) -> Seq<bool> {
    Seq::new(mask.len(), |i: int| dilated_at(mask, w, h, i))
}

/// The mask grown `n` times.
pub open spec fn grown(mask: Seq<bool>, w: int, h: int, n: nat) -> Seq<bool>
    decreases n,
{
    if n == 0 {
        mask
    } else {
        dilated(grown(mask, w, h, (n - 1) as nat), w, h)
    }
}

/// The distance of two pixels along the axes.
pub open spec fn steps(x: int, y: int, u: int, v: int) -> int {
    (if x < u {
        u - x
    } else {
        x - u
    }) + (if y < v {
        v - y
    } else {
        y - v
    })
}

/// Some pixel of the mask is set within `n` steps of `(x, y)`.
pub open spec fn is_near(mask: Seq<bool>, w: int, h: int, x: int, y: int, n: int) -> bool {
    exists|u: int, v: int|
        0 <= u < w && 0 <= v < h && #[trigger] steps(x, y, u, v) <= n && mask[v * w + u]
}

/// Growing a mask `n` times sets exactly the pixels within `n` steps of a set
/// one.
pub proof fn lemma_grown_is_near(mask: Seq<bool>, w: int, h: int, x: int, y: int, n: nat)
    requires
        mask.len() == w * h,
        0 <= x < w,
        0 <= y < h,
    ensures
        grown(mask, w, h, n).len() == w * h,
        grown(mask, w, h, n)[y * w + x] == is_near(mask, w, h, x, y, n as int),
    decreases n,
{
    lemma_pixel(x, y, w, h);
    if n == 0 {
        if mask[y * w + x] {
            assert(steps(x, y, x, y) <= 0);
        }
    } else {
        let m = (n - 1) as nat;
        let earlier = grown(mask, w, h, m);
        lemma_grown_is_near(mask, w, h, x, y, m);
        if x > 0 {
            lemma_grown_is_near(mask, w, h, x - 1, y, m);
            lemma_pixel(x - 1, y, w, h);
        }
        if x + 1 < w {
            lemma_grown_is_near(mask, w, h, x + 1, y, m);
            lemma_pixel(x + 1, y, w, h);
        }
        if y > 0 {
            lemma_grown_is_near(mask, w, h, x, y - 1, m);
            lemma_pixel(x, y - 1, w, h);
            assert((y - 1) * w + x == y * w + x - w) by (nonlinear_arith);
        }
        if y + 1 < h {
            lemma_grown_is_near(mask, w, h, x, y + 1, m);
            lemma_pixel(x, y + 1, w, h);
            assert((y + 1) * w + x == y * w + x + w) by (nonlinear_arith);
        }
        let i = y * w + x;
        assert(grown(mask, w, h, n)[i] == dilated_at(earlier, w, h, i));
        if is_near(mask, w, h, x, y, n as int) {
            let (u, v) = choose|u: int, v: int|
                0 <= u < w && 0 <= v < h && #[trigger] steps(x, y, u, v) <= n && mask[v * w + u];
            if steps(x, y, u, v) <= m {
                assert(is_near(mask, w, h, x, y, m as int));
            } else if u < x {
                assert(steps(x - 1, y, u, v) <= m);
                assert(is_near(mask, w, h, x - 1, y, m as int));
            } else if u > x {
                assert(steps(x + 1, y, u, v) <= m);
                assert(is_near(mask, w, h, x + 1, y, m as int));
            } else if v < y {
                assert(steps(x, y - 1, u, v) <= m);
                assert(is_near(mask, w, h, x, y - 1, m as int));
            } else {
                assert(steps(x, y + 1, u, v) <= m);
                assert(is_near(mask, w, h, x, y + 1, m as int));
            }
        }
        if grown(mask, w, h, n)[i] {
            if earlier[i] {
                lemma_near_of_neighbour(mask, w, h, x, y, x, y, m as int);
            } else if x > 0 && earlier[i - 1] {
                lemma_near_of_neighbour(mask, w, h, x - 1, y, x, y, m as int);
            } else if x + 1 < w && earlier[i + 1] {
                lemma_near_of_neighbour(mask, w, h, x + 1, y, x, y, m as int);
            } else if y > 0 && earlier[i - w] {
                lemma_near_of_neighbour(mask, w, h, x, y - 1, x, y, m as int);
            } else {
                lemma_near_of_neighbour(mask, w, h, x, y + 1, x, y, m as int);
            }
        }
    }
}

/// What is within `n` steps of a pixel is within one more of its neighbour.
proof fn lemma_near_of_neighbour(
    mask: Seq<bool>,
    w: int,
    h: int,
    a: int,
    b: int,
    x: int,
    y: int,
    n: int,
)
    requires
        is_near(mask, w, h, a, b, n),
        steps(x, y, a, b) <= 1,
    ensures
        is_near(mask, w, h, x, y, n + 1),
{
    let (u, v) = choose|u: int, v: int|
        0 <= u < w && 0 <= v < h && #[trigger] steps(a, b, u, v) <= n && mask[v * w + u];
    assert(steps(x, y, u, v) <= n + 1);
}

/// An index limited to `[0, n)`.
pub open spec fn limited(k: int, n: int) -> int {
    if k < 0 {
        0
    } else if k >= n {
        n - 1
    } else {
        k
    }
}

/// The radius of a Gaussian kernel: three sigmas.
pub open spec fn radius_of<T>(sigma: T) -> Formula<T> {
    whole(3).times(Formula::Given(sigma)).apply(Unary::Ceil)
}

/// Weight `i` of a Gaussian kernel of radius `r`, not normalized.
pub open spec fn raw_weight<T>(sigma: T, r: usize, i: int) -> Formula<T> {
    let d = Formula::Count(i as usize).minus(Formula::Count(r));
    d.apply(Unary::Neg).times(d).over(
        whole(2).times(Formula::Given(sigma)).times(Formula::Given(sigma)),
    ).apply(Unary::Exp)
}

/// `kernel` is the Gaussian kernel of radius `r`, its weights divided by their
/// sum.
pub open spec fn is_kernel<T, A: Arithmetic<T>>(
    ops: &A,
    sigma: T,
    r: usize,
    raw: Seq<T>,
    norm: T,
    kernel: Seq<T>,
) -> bool {
    &&& raw.len() == 2 * r + 1
    &&& kernel.len() == raw.len()
    &&& forall|i: int| 0 <= i < raw.len() ==> evals(ops, raw_weight(sigma, r, i), #[trigger] raw[i])
    &&& evals(ops, sum_of(raw, raw.len() as int), norm)
    &&& forall|i: int|
        0 <= i < kernel.len() ==> evals(
            ops,
            Formula::Given(raw[i]).over(Formula::Given(norm)),
            #[trigger] kernel[i],
        )
}

/// The first `n` weighted samples of row `i / w` around place `i`, added up
/// from zero.
pub open spec fn blurred_row<T>(
    data: Seq<T>,
    kernel: Seq<T>,
    w: int,
    r: int,
    i: int,
    n: int,
) -> Formula<T>
    decreases n,
{
    if n <= 0 {
        whole(0)
    } else {
        blurred_row(data, kernel, w, r, i, n - 1).plus(
            Formula::Given(data[(i / w) * w + limited(i % w + (n - 1) - r, w)]).times(
                Formula::Given(kernel[n - 1]),
            ),
        )
    }
}

/// The first `n` weighted samples of column `i % w` around place `i`, added up
/// from zero.
pub open spec fn blurred_column<T>(
    data: Seq<T>,
    kernel: Seq<T>,
    w: int,
    h: int,
    r: int,
    i: int,
    n: int,
) -> Formula<T>
    decreases n,
{
    if n <= 0 {
        whole(0)
    } else {
        blurred_column(data, kernel, w, h, r, i, n - 1).plus(
            Formula::Given(data[limited(i / w + (n - 1) - r, h) * w + i % w]).times(
                Formula::Given(kernel[n - 1]),
            ),
        )
    }
}

/// `out` is the plane blurred with the kernel, along the rows into `rows`, then
/// along the columns.
pub open spec fn is_blurred_by<T, A: Arithmetic<T>>(
    ops: &A,
    data: Seq<T>,
    w: int,
    h: int,
    r: int,
    kernel: Seq<T>,
    rows: Seq<T>,
    out: Seq<T>,
) -> bool {
    let n = kernel.len() as int;
    &&& rows.len() == data.len()
    &&& out.len() == data.len()
    &&& forall|i: int|
        0 <= i < rows.len() ==> evals(
            ops,
            blurred_row(data, kernel, w, r, i, n),
            #[trigger] rows[i],
        )
    &&& forall|i: int|
        0 <= i < out.len() ==> evals(
            ops,
            blurred_column(rows, kernel, w, h, r, i, n),
            #[trigger] out[i],
        )
}

/// `out` is the plane blurred with the Gaussian kernel of radius `r`.
pub open spec fn is_blurred_with<T, A: Arithmetic<T>>(
    ops: &A,
    data: Seq<T>,
    w: int,
    h: int,
    sigma: T,
    r: usize,
    out: Seq<T>,
) -> bool {
    exists|raw: Seq<T>, norm: T, kernel: Seq<T>, rows: Seq<T>| #[trigger]
        is_kernel(ops, sigma, r, raw, norm, kernel) && #[trigger] is_blurred_by(
            ops,
            data,
            w,
            h,
            r as int,
            kernel,
            rows,
            out,
        )
}

/// `out` is the plane under a Gaussian blur: the plane itself for a sigma of
/// zero or less, and `None` where the machine cannot hold the kernel.
pub open spec fn is_blurred<T, A: Arithmetic<T>>(
    ops: &A,
    data: Seq<T>,
    w: int,
    h: int,
    sigma: T,
    out: Option<Seq<T>>,
) -> bool {
    exists|off: bool| #[trigger]
        decides(ops, Test::LessOrEqual, Formula::Given(sigma), whole(0), off) && if off {
            out == Some(data)
        } else {
            exists|r: usize| #[trigger]
                indexes(ops, radius_of(sigma), r) && match out {
                    Some(s) => 2 * r < usize::MAX && is_blurred_with(ops, data, w, h, sigma, r, s),
                    None => 2 * r >= usize::MAX,
                }
        }
}

/// The largest sample of the row window around one place.
fn row_peak_sample<T: Sample, A: Arithmetic<T>>(
    ops: &A,
    data: &[T],
    w: usize,
    h: usize,
    r: usize,
    i: usize,
) -> (v: T)
    requires
        data@.len() == w * h,
        i < data@.len(),
    ensures
        evals(
            ops,
            row_peak(
                data@,
                w as int,
                i as int / w as int,
                window(i as int % w as int, r as int, w as int).0,
                window(i as int % w as int, r as int, w as int).1,
            ),
            v,
        ),
{
    proof {
        lemma_place(i as int, w as int, h as int);
    }
    let x = i % w;
    let y = i / w;
    let (from, to) = window_of(x, r, w);
    let mut acc = Traced::infinity(ops).apply(ops, Unary::Neg);
    let mut k: usize = from;
    while k < to
        invariant
            data@.len() == w * h,
            y < h,
            from <= k,
            k <= to || from > to && k == from,
            to <= w,
            acc.holds(ops),
            acc.formula@ == row_peak(data@, w as int, y as int, from as int, k as int),
        decreases to - k,
    {
        proof {
            lemma_pixel(k as int, y as int, w as int, h as int);
            assert(data.len() == w * h);
        }
        acc = acc.with(ops, Binary::Most, Traced::given(ops, data[y * w + k]));
        k += 1;
    }
    acc.value
}

/// The largest sample of the column window around one place.
fn column_peak_sample<T: Sample, A: Arithmetic<T>>(
    ops: &A,
    data: &[T],
    w: usize,
    h: usize,
    r: usize,
    i: usize,
) -> (v: T)
    requires
        data@.len() == w * h,
        i < data@.len(),
    ensures
        evals(
            ops,
            column_peak(
                data@,
                w as int,
                i as int % w as int,
                window(i as int / w as int, r as int, h as int).0,
                window(i as int / w as int, r as int, h as int).1,
            ),
            v,
        ),
{
    proof {
        lemma_place(i as int, w as int, h as int);
    }
    let x = i % w;
    let y = i / w;
    let (from, to) = window_of(y, r, h);
    let mut acc = Traced::infinity(ops).apply(ops, Unary::Neg);
    let mut k: usize = from;
    while k < to
        invariant
            data@.len() == w * h,
            x < w,
            from <= k,
            k <= to || from > to && k == from,
            to <= h,
            acc.holds(ops),
            acc.formula@ == column_peak(data@, w as int, x as int, from as int, k as int),
        decreases to - k,
    {
        proof {
            lemma_pixel(x as int, k as int, w as int, h as int);
            assert(data.len() == w * h);
        }
        acc = acc.with(ops, Binary::Most, Traced::given(ops, data[k * w + x]));
        k += 1;
    }
    acc.value
}

/// The window of radius `r` around line `k` of `n`.
fn window_of(k: usize, r: usize, n: usize) -> (b: (usize, usize))
    requires
        k < n,
    ensures
        b.0 == window(k as int, r as int, n as int).0,
        b.1 == window(k as int, r as int, n as int).1,
        b.0 <= k,
        b.1 <= n,
{
    let from = if k < r {
        0
    } else {
        k - r
    };
    let after: usize = n - k - 1;
    let to = if r < after {
        k + r + 1
    } else {
        n
    };
    (from, to)
}

/// Square (2r+1)x(2r+1) maximum filter, clamp-to-edge. Separable: rows then
/// columns.
fn maximum_filter<T: Sample, A: Arithmetic<T>>(
    ops: &A,
    data: &[T],
    w: usize,
    h: usize,
    r: usize,
) -> (out: Vec<T>)
    requires
        data@.len() == w * h,
    ensures
        out@.len() == data@.len(),
        is_maximum(ops, data@, w as int, h as int, r as int, out@),
{
    let in_row = |i: usize| -> (v: T)
        requires
            data@.len() == w * h,
            i < data@.len(),
        ensures
            evals(
                ops,
                row_peak(
                    data@,
                    w as int,
                    i as int / w as int,
                    window(i as int % w as int, r as int, w as int).0,
                    window(i as int % w as int, r as int, w as int).1,
                ),
                v,
            ),
    {
        row_peak_sample(ops, data, w, h, r, i)
    };
    let rows = par_map(data.len(), in_row);
    let lines = rows.as_slice();
    let in_column = |i: usize| -> (v: T)
        requires
            lines@.len() == w * h,
            i < lines@.len(),
        ensures
            evals(
                ops,
                column_peak(
                    lines@,
                    w as int,
                    i as int % w as int,
                    window(i as int / w as int, r as int, h as int).0,
                    window(i as int / w as int, r as int, h as int).1,
                ),
                v,
            ),
    {
        column_peak_sample(ops, lines, w, h, r, i)
    };
    let out = par_map(data.len(), in_column);
    assert(is_maximum_by(ops, data@, w as int, h as int, r as int, rows@, out@));
    out
}

/// One round of 4-connected binary dilation.
fn dilate4(mask: &[bool], w: usize, h: usize) -> (out: Vec<bool>)
    requires
        mask@.len() == w * h,
    ensures
        out@ == dilated(mask@, w as int, h as int),
{
    let n = mask.len();
    let mut out: Vec<bool> = Vec::with_capacity(n);
    let mut i: usize = 0;
    while i < n
        invariant
            n == mask@.len(),
            mask@.len() == w * h,
            i <= n,
            out@ =~= dilated(mask@, w as int, h as int).take(i as int),
        decreases n - i,
    {
        proof {
            lemma_place(i as int, w as int, h as int);
            let x = i as int % w as int;
            let y = i as int / w as int;
            if x > 0 {
                lemma_pixel(x - 1, y, w as int, h as int);
            }
            if x + 1 < w {
                lemma_pixel(x + 1, y, w as int, h as int);
            }
            if y > 0 {
                lemma_pixel(x, y - 1, w as int, h as int);
                assert((y - 1) * w + x == y * w + x - w) by (nonlinear_arith);
            }
            if y + 1 < h {
                lemma_pixel(x, y + 1, w as int, h as int);
                assert((y + 1) * w + x == y * w + x + w) by (nonlinear_arith);
            }
        }
        let x = i % w;
        let y = i / w;
        let hit = mask[i] || (x > 0 && mask[i - 1]) || (x + 1 < w && mask[i + 1]) || (y > 0
            && mask[i - w]) || (y + 1 < h && mask[i + w]);
        out.push(hit);
        i += 1;
    }
    assert(out@ =~= dilated(mask@, w as int, h as int));
    out
}

/// The line that weight `i` of a kernel of radius `r` reads around line `k`.
fn limited_line(k: usize, i: usize, r: usize, n: usize) -> (j: usize)
    requires
        k < n,
    ensures
        j == limited(k + i - r, n as int),
        j < n,
{
    if i >= r {
        let d: usize = i - r;
        if d < n - k {
            k + d
        } else {
            n - 1
        }
    } else {
        let d: usize = r - i;
        if d <= k {
            k - d
        } else {
            0
        }
    }
}

/// One sample blurred along its row.
fn blur_row_sample<T: Sample, A: Arithmetic<T>>(
    ops: &A,
    data: &[T],
    kernel: &Vec<T>,
    w: usize,
    h: usize,
    r: usize,
    p: usize,
) -> (v: T)
    requires
        data@.len() == w * h,
        p < data@.len(),
    ensures
        evals(
            ops,
            blurred_row(data@, kernel@, w as int, r as int, p as int, kernel@.len() as int),
            v,
        ),
{
    proof {
        lemma_place(p as int, w as int, h as int);
    }
    let x = p % w;
    let y = p / w;
    let mut acc = Traced::whole(ops, 0);
    let mut i: usize = 0;
    while i < kernel.len()
        invariant
            data@.len() == w * h,
            x < w,
            y < h,
            x == p as int % w as int,
            y == p as int / w as int,
            i <= kernel@.len(),
            acc.holds(ops),
            acc.formula@ == blurred_row(
                data@,
                kernel@,
                w as int,
                r as int,
                p as int,
                i as int,
            ),
        decreases kernel@.len() - i,
    {
        let j = limited_line(x, i, r, w);
        proof {
            lemma_pixel(j as int, y as int, w as int, h as int);
            assert(data.len() == w * h);
        }
        let part = Traced::given(ops, data[y * w + j]).times(ops, Traced::given(ops, kernel[i]));
        acc = acc.plus(ops, part);
        i += 1;
    }
    acc.value
}

/// One sample blurred along its column.
fn blur_column_sample<T: Sample, A: Arithmetic<T>>(
    ops: &A,
    data: &[T],
    kernel: &Vec<T>,
    w: usize,
    h: usize,
    r: usize,
    p: usize,
) -> (v: T)
    requires
        data@.len() == w * h,
        p < data@.len(),
    ensures
        evals(
            ops,
            blurred_column(
                data@,
                kernel@,
                w as int,
                h as int,
                r as int,
                p as int,
                kernel@.len() as int,
            ),
            v,
        ),
{
    proof {
        lemma_place(p as int, w as int, h as int);
    }
    let x = p % w;
    let y = p / w;
    let mut acc = Traced::whole(ops, 0);
    let mut i: usize = 0;
    while i < kernel.len()
        invariant
            data@.len() == w * h,
            x < w,
            y < h,
            x == p as int % w as int,
            y == p as int / w as int,
            i <= kernel@.len(),
            acc.holds(ops),
            acc.formula@ == blurred_column(
                data@,
                kernel@,
                w as int,
                h as int,
                r as int,
                p as int,
                i as int,
            ),
        decreases kernel@.len() - i,
    {
        let j = limited_line(y, i, r, h);
        proof {
            lemma_pixel(x as int, j as int, w as int, h as int);
            assert(data.len() == w * h);
        }
        let part = Traced::given(ops, data[j * w + x]).times(ops, Traced::given(ops, kernel[i]));
        acc = acc.plus(ops, part);
        i += 1;
    }
    acc.value
}

/// The Gaussian kernel of radius `r`.
fn gaussian_kernel<T: Sample, A: Arithmetic<T>>(ops: &A, sigma: T, r: usize) -> (kernel: Vec<T>)
    requires
        2 * r < usize::MAX,
    ensures
        exists|raw: Seq<T>, norm: T| #[trigger] is_kernel(ops, sigma, r, raw, norm, kernel@),
{
    let n: usize = 2 * r + 1;
    let mut raw: Vec<T> = Vec::with_capacity(n);
    let mut i: usize = 0;
    while i < n
        invariant
            n == 2 * r + 1,
            i <= n,
            raw@.len() == i,
            forall|k: int|
                0 <= k < i ==> evals(ops, raw_weight(sigma, r, k), #[trigger] raw@[k]),
        decreases n - i,
    {
        let d = Traced::count(ops, i).minus(ops, Traced::count(ops, r));
        let width = Traced::given(ops, sigma);
        let spread = Traced::whole(ops, 2).times(ops, width).times(ops, width);
        let power = d.apply(ops, Unary::Neg).times(ops, d).over(ops, spread);
        raw.push(power.apply(ops, Unary::Exp).value);
        i += 1;
    }
    let norm = sum(ops, raw.as_slice());
    let mut kernel: Vec<T> = Vec::with_capacity(n);
    let mut i: usize = 0;
    while i < n
        invariant
            n == raw@.len(),
            i <= n,
            kernel@.len() == i,
            forall|k: int|
                0 <= k < i ==> evals(
                    ops,
                    Formula::Given(raw@[k]).over(Formula::Given(norm)),
                    #[trigger] kernel@[k],
                ),
        decreases n - i,
    {
        kernel.push(Traced::given(ops, raw[i]).over(ops, Traced::given(ops, norm)).value);
        i += 1;
    }
    assert(is_kernel(ops, sigma, r, raw@, norm, kernel@));
    kernel
}

/// Separable Gaussian blur with a kernel of radius `r`.
fn blur_with<T: Sample, A: Arithmetic<T>>(
    ops: &A,
    data: &[T],
    w: usize,
    h: usize,
    sigma: T,
    r: usize,
) -> (out: Vec<T>)
    requires
        data@.len() == w * h,
        2 * r < usize::MAX,
    ensures
        out@.len() == data@.len(),
        is_blurred_with(ops, data@, w as int, h as int, sigma, r, out@),
{
    let kernel = gaussian_kernel(ops, sigma, r);
    let in_row = |p: usize| -> (v: T)
        requires
            data@.len() == w * h,
            p < data@.len(),
        ensures
            evals(
                ops,
                blurred_row(data@, kernel@, w as int, r as int, p as int, kernel@.len() as int),
                v,
            ),
    {
        blur_row_sample(ops, data, &kernel, w, h, r, p)
    };
    let rows = par_map(data.len(), in_row);
    let lines = rows.as_slice();
    let in_column = |p: usize| -> (v: T)
        requires
            lines@.len() == w * h,
            p < lines@.len(),
        ensures
            evals(
                ops,
                blurred_column(
                    lines@,
                    kernel@,
                    w as int,
                    h as int,
                    r as int,
                    p as int,
                    kernel@.len() as int,
                ),
                v,
            ),
    {
        blur_column_sample(ops, lines, &kernel, w, h, r, p)
    };
    let out = par_map(data.len(), in_column);
    assert(is_blurred_by(ops, data@, w as int, h as int, r as int, kernel@, rows@, out@));
    out
}

/// Separable gaussian blur with clamp-to-edge boundaries, or `None` where the
/// kernel of a sigma is longer than the machine can index.
pub fn gaussian_blur<T: Sample, A: Arithmetic<T>>(
    ops: &A,
    data: &[T],
    w: usize,
    h: usize,
    sigma: T,
) -> (out: Option<Vec<T>>)
    requires
        data@.len() == w * h,
    ensures
        match out {
            Some(s) => s@.len() == data@.len() && is_blurred(
                ops,
                data@,
                w as int,
                h as int,
                sigma,
                Some(s@),
            ),
            None => is_blurred(ops, data@, w as int, h as int, sigma, None),
        },
{
    let width = Traced::given(ops, sigma);
    let off = width.test(ops, Test::LessOrEqual, Traced::whole(ops, 0));
    if off {
        return Some(copied(data));
    }
    let radius = Traced::whole(ops, 3).times(ops, width).apply(ops, Unary::Ceil);
    let r = radius.to_index(ops);
    if r > (usize::MAX - 1) / 2 {
        return None;
    }
    Some(blur_with(ops, data, w, h, sigma, r))
}

/// `r` tells whether `v` is its local maximum and above the threshold.
pub open spec fn is_peak<T, A: Arithmetic<T>>(
    ops: &A,
    v: T,
    local: T,
    threshold: T,
    r: bool,
) -> bool {
    exists|top: bool| #[trigger]
        decides(ops, Test::Equal, Formula::Given(v), Formula::Given(local), top) && if top {
            decides(ops, Test::Less, Formula::Given(threshold), Formula::Given(v), r)
        } else {
            !r
        }
}

/// The flags tell the peaks of a luminance plane.
pub open spec fn are_peaks<T, A: Arithmetic<T>>(
    ops: &A,
    lum: Seq<T>,
    local: Seq<T>,
    threshold: T,
    flags: Seq<bool>,
) -> bool {
    &&& flags.len() == lum.len()
    &&& forall|i: int|
        0 <= i < flags.len() ==> is_peak(ops, lum[i], local[i], threshold, #[trigger] flags[i])
}

/// `out` holds 0.7 where the mask is set and 1 elsewhere.
pub open spec fn is_reduction<T, A: Arithmetic<T>>(
    ops: &A,
    mask: Seq<bool>,
    out: Seq<T>,
) -> bool {
    &&& out.len() == mask.len()
    &&& forall|i: int|
        0 <= i < out.len() ==> evals(
            ops,
            if mask[i] {
                Formula::Ratio(7, 10)
            } else {
                whole(1)
            },
            #[trigger] out[i],
        )
}

/// `out` is a plane times a map of factors, in the unit range.
pub open spec fn is_dimmed_plane<T, A: Arithmetic<T>>(
    ops: &A,
    factors: Seq<T>,
    plane: Seq<T>,
    out: Seq<T>,
) -> bool {
    &&& out.len() == plane.len()
    &&& forall|i: int|
        0 <= i < out.len() ==> evals(ops, scaled_by(factors[i])(plane[i]), #[trigger] out[i])
}

/// Every channel of `out` is the channel of `image` times the map of factors.
pub open spec fn is_dimmed<T, A: Arithmetic<T>>(
    ops: &A,
    factors: Seq<T>,
    image: Raster<T>,
    out: Raster<T>,
) -> bool {
    &&& out.same_shape(image)
    &&& forall|c: int|
        0 <= c < out.planes.len() ==> is_dimmed_plane(
            ops,
            factors,
            image.planes[c],
            #[trigger] out.planes[c],
        )
}

/// `factors` is the map that star reduction multiplies into the channels: 0.7
/// in the regions grown around the peaks, 1 elsewhere, blurred; `None` where
/// the machine cannot hold the kernel of the blur.
pub open spec fn is_star_map<T, A: Arithmetic<T>>(
    ops: &A,
    threshold: T,
    image: Raster<T>,
    lum: Seq<T>,
    local: Seq<T>,
    peaks: Seq<bool>,
    reduction: Seq<T>,
    sigma: T,
    factors: Option<Seq<T>>,
) -> bool {
    let w = image.width as int;
    let h = image.height as int;
    &&& is_luminance(ops, image, lum)
    &&& is_maximum(ops, lum, w, h, 2, local)
    &&& are_peaks(ops, lum, local, threshold, peaks)
    &&& is_reduction(ops, grown(peaks, w, h, 3), reduction)
    &&& evals(ops, whole(2), sigma)
    &&& is_blurred(ops, reduction, w, h, sigma, factors)
}

/// `out` is the image with its bright stars dimmed.
pub open spec fn is_star_reduced<T, A: Arithmetic<T>>(
    ops: &A,
    threshold: T,
    image: Raster<T>,
    out: Raster<T>,
) -> bool {
    if image.width == 0 || image.height == 0 {
        out == image
    } else {
        exists|
            lum: Seq<T>,
            local: Seq<T>,
            peaks: Seq<bool>,
            reduction: Seq<T>,
            sigma: T,
            factors: Option<Seq<T>>,
        | #[trigger]
            is_star_map(
                ops,
                threshold,
                image,
                lum,
                local,
                peaks,
                reduction,
                sigma,
                factors,
            ) && match factors {
                Some(f) => is_dimmed(ops, f, image, out),
                None => out == image,
            }
    }
}

/// The peaks of a luminance plane.
fn find_peaks<T: Sample, A: Arithmetic<T>>(
    ops: &A,
    lum: &[T],
    local: &[T],
    threshold: T,
) -> (flags: Vec<bool>)
    requires
        lum@.len() == local@.len(),
    ensures
        are_peaks(ops, lum@, local@, threshold, flags@),
{
    let mut flags: Vec<bool> = Vec::with_capacity(lum.len());
    let mut i: usize = 0;
    while i < lum.len()
        invariant
            lum@.len() == local@.len(),
            i <= lum@.len(),
            flags@.len() == i,
            forall|k: int|
                0 <= k < i ==> is_peak(ops, lum@[k], local@[k], threshold, #[trigger] flags@[k]),
        decreases lum@.len() - i,
    {
        let v = Traced::given(ops, lum[i]);
        let top = v.test(ops, Test::Equal, Traced::given(ops, local[i]));
        let flag = if top {
            Traced::given(ops, threshold).test(ops, Test::Less, v)
        } else {
            false
        };
        assert(is_peak(ops, lum@[i as int], local@[i as int], threshold, flag));
        flags.push(flag);
        i += 1;
    }
    flags
}

/// The factors that dim the masked pixels.
fn reduction_map<T: Sample, A: Arithmetic<T>>(ops: &A, mask: &[bool]) -> (out: Vec<T>)
    ensures
        is_reduction(ops, mask@, out@),
{
    let mut out: Vec<T> = Vec::with_capacity(mask.len());
    let mut i: usize = 0;
    while i < mask.len()
        invariant
            i <= mask@.len(),
            out@.len() == i,
            forall|k: int|
                0 <= k < i ==> evals(
                    ops,
                    if mask@[k] {
                        Formula::Ratio(7, 10)
                    } else {
                        whole(1)
                    },
                    #[trigger] out@[k],
                ),
        decreases mask@.len() - i,
    {
        let factor = if mask[i] {
            Traced::ratio(ops, 7, 10)
        } else {
            Traced::whole(ops, 1)
        };
        out.push(factor.value);
        i += 1;
    }
    out
}

/// Multiplies a map of factors into a plane.
fn dim_plane<T: Sample, A: Arithmetic<T>>(ops: &A, factors: &[T], plane: &[T]) -> (out: Vec<T>)
    requires
        factors@.len() == plane@.len(),
    ensures
        is_dimmed_plane(ops, factors@, plane@, out@),
{
    let at = |i: usize| -> (r: T)
        requires
            i < factors@.len(),
            i < plane@.len(),
        ensures
            evals(ops, scaled_by(factors@[i as int])(plane@[i as int]), r),
    {
        scale_sample(ops, factors[i], plane[i])
    };
    par_map(plane.len(), at)
}

/// Multiplies a map of factors into every channel.
fn dim_image<T: Sample, A: Arithmetic<T>>(
    ops: &A,
    factors: &[T],
    image: &Image<T>,
) -> (out: Image<T>)
    requires
        image@.wf(),
        factors@.len() == image@.width * image@.height,
    ensures
        out@.wf(),
        is_dimmed(ops, factors@, image@, out@),
{
    let w = image.width();
    let h = image.height();
    let mut channels: Vec<Vec<T>> = Vec::new();
    let mut c: usize = 0;
    while c < image.num_channels()
        invariant
            image@.wf(),
            factors@.len() == image@.width * image@.height,
            w == image@.width,
            h == image@.height,
            c <= image@.planes.len(),
            channels@.len() == c,
            forall|k: int| 0 <= k < c ==> (#[trigger] channels@[k])@.len() == w * h,
            forall|k: int|
                0 <= k < c ==> is_dimmed_plane(
                    ops,
                    factors@,
                    image@.planes[k],
                    (#[trigger] channels@[k])@,
                ),
        decreases image@.planes.len() - c,
    {
        channels.push(dim_plane(ops, factors, image.channel(c)));
        c += 1;
    }
    let out = Image::from_channels(w, h, channels);
    assert forall|k: int| 0 <= k < out@.planes.len() implies is_dimmed_plane(
        ops,
        factors@,
        image@.planes[k],
        #[trigger] out@.planes[k],
    ) by {
        assert(out@.planes[k] == channels@[k]@);
    }
    out
}

/// Dim bright stars to emphasize nebulosity: detect luminance peaks above
/// `threshold` (5x5 local maxima), grow them into star regions (3 rounds of
/// 4-connected dilation), build a reduction map (stars to 0.7), smooth it
/// (gaussian sigma 2), and multiply it into every channel.
pub fn reduce_stars<T: Sample, A: Arithmetic<T>>(ops: &A, image: &mut Image<T>, threshold: T)
    requires
        old(image)@.wf(),
    ensures
        final(image)@.wf(),
        is_star_reduced(ops, threshold, old(image)@, final(image)@),
{
    let ghost before = image@;
    let w = image.width();
    let h = image.height();
    if w == 0 || h == 0 {
        return;
    }
    let lum = image.luminance(ops);
    let local = maximum_filter(ops, lum.as_slice(), w, h, 2);
    let peaks = find_peaks(ops, lum.as_slice(), local.as_slice(), threshold);
    let first = dilate4(peaks.as_slice(), w, h);
    let second = dilate4(first.as_slice(), w, h);
    let mask = dilate4(second.as_slice(), w, h);
    proof {
        reveal_with_fuel(grown, 4);
        assert(mask@ == grown(peaks@, w as int, h as int, 3));
    }
    let reduction = reduction_map(ops, mask.as_slice());
    let sigma = ops.ratio(2, 1);
    match gaussian_blur(ops, reduction.as_slice(), w, h, sigma) {
        Some(factors) => {
            let out = dim_image(ops, factors.as_slice(), image);
            assert(is_star_map(
                ops,
                threshold,
                before,
                lum@,
                local@,
                peaks@,
                reduction@,
                sigma,
                Some(factors@),
            ));
            *image = out;
        },
        None => {
            assert(is_star_map(
                ops,
                threshold,
                before,
                lum@,
                local@,
                peaks@,
                reduction@,
                sigma,
                None,
            ));
        },
    }
}

} // verus!
