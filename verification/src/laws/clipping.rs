//! The black and white points of the linear and the statistical stretch.

use super::answers::{is_deterministic, lemma_one_value};
use super::exact::{into_unit, is_exact, lemma_exact_binary, lemma_exact_unit, lemma_exact_whole};
use super::order::{
    are_numbers, is_percentile_of, keys_follow, lemma_end_percentiles,
    lemma_percentiles_are_exact, rounds_exactly,
};
use super::reals::{lemma_quotient_product, lemma_share_of, product};
use super::stretching::lemma_one_clip;
use crate::arith::{Arithmetic, Binary, Formula, Test, evals, test_answers, whole};
use crate::frame::Raster;
use crate::plane::joined;
use crate::stretch::{
    StretchAlgorithm, StretchOptions, all_samples, gamma_of, is_clipped_by, is_gamma_corrected,
    is_percentile_clipped, is_stretched, rescaled,
};
use vstd::prelude::*;

verus! {

/// The samples of every channel.
pub open spec fn every_sample<T>(image: Raster<T>) -> Seq<T> {
    if image.planes.len() == 3 {
        image.planes[0] + image.planes[1] + image.planes[2]
    } else {
        image.planes[0]
    }
}

/// All samples of an image are those of its channels.
pub proof fn lemma_every_sample<T>(image: Raster<T>)
    requires
        image.wf(),
    ensures
        all_samples(image) == every_sample(image),
{
    reveal_with_fuel(joined, 4);
    assert(all_samples(image) =~= every_sample(image));
}

/// A sample of a channel is one of the samples of the image.
pub proof fn lemma_sample_is_one_of_every<T>(image: Raster<T>, c: int, i: int) -> (k: int)
    requires
        image.wf(),
        0 <= c < image.planes.len(),
        0 <= i < image.width * image.height,
    ensures
        0 <= k < every_sample(image).len(),
        every_sample(image)[k] == image.planes[c][i],
{
    let n = image.width * image.height;
    assert(image.planes[0].len() == n);
    if image.planes.len() == 3 {
        assert(image.planes[1].len() == n);
        assert(image.planes[2].len() == n);
        if c == 0 {
            i
        } else if c == 1 {
            n + i
        } else {
            n + n + i
        }
    } else {
        i
    }
}

/// A sample of the image is one of a channel.
pub proof fn lemma_one_of_every_is_sample<T>(image: Raster<T>, k: int) -> (r: (int, int))
    requires
        image.wf(),
        0 <= k < every_sample(image).len(),
    ensures
        0 <= r.0 < image.planes.len(),
        0 <= r.1 < image.width * image.height,
        every_sample(image)[k] == image.planes[r.0][r.1],
{
    let n = image.width * image.height;
    assert(image.planes[0].len() == n);
    if image.planes.len() == 3 {
        assert(image.planes[1].len() == n);
        assert(image.planes[2].len() == n);
        if k < n {
            (0, k)
        } else if k < n + n {
            (1, k - n)
        } else {
            (2, k - n - n)
        }
    } else {
        (0, k)
    }
}

/// Every sample of every channel lies on one line: black at `low`, white at
/// `high`, and limited to them; the image is left alone where they coincide.
pub open spec fn is_spanned<T>(
    val: spec_fn(T) -> real,
    image: Raster<T>,
    low: real,
    high: real,
    out: Raster<T>,
) -> bool {
    &&& out.same_shape(image)
    &&& low == high ==> out == image
    &&& low != high ==> forall|c: int, i: int|
        #![trigger out.planes[c][i]]
        0 <= c < image.planes.len() && 0 <= i < image.width * image.height ==> val(
            out.planes[c][i],
        ) == into_unit((val(image.planes[c][i]) - low) / (high - low))
}

/// A percentile clip goes by percentiles of the samples of all channels
/// together.
pub proof fn lemma_clip_spans<T, A: Arithmetic<T>>(
    ops: &A,
    val: spec_fn(T) -> real,
    lo_p: T,
    hi_p: T,
    image: Raster<T>,
    flat: bool,
    out: Raster<T>,
)
    requires
        is_exact(ops, val),
        keys_follow(ops, val),
        rounds_exactly(ops, val),
        image.wf(),
        1 <= every_sample(image).len() <= usize::MAX,
        are_numbers(ops, every_sample(image)),
        is_percentile_clipped(ops, lo_p, hi_p, image, flat, out),
    ensures
        exists|low: real, high: real|
            is_percentile_of(val, every_sample(image), val(lo_p), low) && is_percentile_of(
                val,
                every_sample(image),
                val(hi_p),
                high,
            ) && #[trigger] is_spanned(val, image, low, high, out),
{
    let (low, high, range) = choose|low: T, high: T, range: T| #[trigger]
        is_clipped_by(ops, lo_p, hi_p, image, low, high, range, flat, out);
    lemma_every_sample(image);
    lemma_percentiles_are_exact(ops, val, every_sample(image), lo_p, hi_p, low, high);
    let (f, g) = (Formula::Given(low), Formula::Given(high));
    let width = val(high) - val(low);
    lemma_exact_binary(ops, val, Binary::Minus, g, f, val(high), val(low));
    lemma_exact_whole(ops, val, 0);
    let (x, y) = choose|x: T, y: T|
        evals(ops, Formula::Given(range), x) && evals(ops, whole(0), y) && #[trigger] test_answers(
            ops,
            Test::Equal,
            x,
            y,
            flat,
        );
    assert(flat == (width == 0 as real));
    if !flat {
        assert forall|c: int, i: int|
            #![trigger out.planes[c][i]]
            0 <= c < image.planes.len() && 0 <= i < image.width * image.height implies val(
            out.planes[c][i],
        ) == into_unit((val(image.planes[c][i]) - val(low)) / width) by {
            let v = image.planes[c][i];
            let e = Formula::Given(v);
            lemma_exact_binary(ops, val, Binary::Minus, e, f, val(v), val(low));
            let r = Formula::Given(range);
            lemma_exact_binary(ops, val, Binary::Over, e.minus(f), r, val(v) - val(low), width);
            lemma_exact_unit(ops, val, e.minus(f).over(r), (val(v) - val(low)) / width);
            assert(image.planes[c].len() == image.width * image.height);
            assert(evals(ops, rescaled(low, range)(v), out.planes[c][i]));
        }
    }
    assert(is_spanned(val, image, val(low), val(high), out));
}

/// The linear stretch of normalized data is black at its low percentile of the
/// samples of all channels, white at its high one, and straight in between.
pub proof fn lemma_linear_stretch_spans<T, A: Arithmetic<T>>(
    ops: &A,
    val: spec_fn(T) -> real,
    lo_p: T,
    hi_p: T,
    detect: bool,
    image: Raster<T>,
    out: Raster<T>,
)
    requires
        is_exact(ops, val),
        keys_follow(ops, val),
        rounds_exactly(ops, val),
        image.wf(),
        1 <= every_sample(image).len() <= usize::MAX,
        are_numbers(ops, every_sample(image)),
        is_stretched(
            ops,
            (StretchOptions {
                algorithm: StretchAlgorithm::Linear {
                    low_percentile: lo_p,
                    high_percentile: hi_p,
                },
                autocrop: detect,
                pre_normalized: true,
            }),
            image,
            out,
        ),
    ensures
        exists|low: real, high: real|
            is_percentile_of(val, every_sample(image), val(lo_p), low) && is_percentile_of(
                val,
                every_sample(image),
                val(hi_p),
                high,
            ) && #[trigger] is_spanned(val, image, low, high, out),
{
    let flat = choose|flat: bool| #[trigger]
        is_percentile_clipped(ops, lo_p, hi_p, image, flat, out);
    lemma_clip_spans(ops, val, lo_p, hi_p, image, flat, out);
}

/// From percentile 0 to percentile 100 no sample of any channel is clipped: the
/// black point `low` is the least sample of all channels, the white point
/// `high` the greatest, and every sample is `low` with its share of the range.
pub proof fn lemma_full_range_clips_nothing<T, A: Arithmetic<T>>(
    ops: &A,
    val: spec_fn(T) -> real,
    lo_p: T,
    hi_p: T,
    image: Raster<T>,
    flat: bool,
    out: Raster<T>,
)
    requires
        is_exact(ops, val),
        keys_follow(ops, val),
        rounds_exactly(ops, val),
        image.wf(),
        1 <= every_sample(image).len() <= usize::MAX,
        are_numbers(ops, every_sample(image)),
        val(lo_p) == 0 as real,
        val(hi_p) == 100 as real,
        is_percentile_clipped(ops, lo_p, hi_p, image, flat, out),
    ensures
        exists|low: real, high: real| #[trigger] is_full_range(val, image, low, high, out),
{
    lemma_clip_spans(ops, val, lo_p, hi_p, image, flat, out);
    let data = every_sample(image);
    let (low, high) = choose|low: real, high: real|
        is_percentile_of(val, data, val(lo_p), low) && is_percentile_of(val, data, val(hi_p), high)
            && #[trigger] is_spanned(val, image, low, high, out);
    lemma_end_percentiles(val, data, val(lo_p), low);
    lemma_end_percentiles(val, data, val(hi_p), high);
    assert forall|c: int, i: int|
        #![trigger image.planes[c][i]]
        0 <= c < image.planes.len() && 0 <= i < image.width * image.height implies low <= val(
        image.planes[c][i],
    ) <= high by {
        let k = lemma_sample_is_one_of_every(image, c, i);
        assert(low <= val(data[k]) && val(data[k]) <= high);
    }
    let k = choose|k: int| 0 <= k < data.len() && val(#[trigger] data[k]) == low;
    let (c, i) = lemma_one_of_every_is_sample(image, k);
    assert(val(image.planes[c][i]) == low);
    let l = choose|l: int| 0 <= l < data.len() && val(#[trigger] data[l]) == high;
    let (d, j) = lemma_one_of_every_is_sample(image, l);
    assert(val(image.planes[d][j]) == high);
    if low != high {
        assert(low < high);
        assert forall|c: int, i: int|
            #![trigger out.planes[c][i]]
            0 <= c < image.planes.len() && 0 <= i < image.width * image.height implies product(
            val(out.planes[c][i]),
            high - low,
        ) == val(image.planes[c][i]) - low by {
            let v = val(image.planes[c][i]);
            lemma_share_of(v - low, high - low);
            lemma_quotient_product(v - low, high - low);
        }
    }
    assert(is_full_range(val, image, low, high, out));
}

/// `low` and `high` are the least and the greatest sample of all channels, and
/// every sample of `out` is the share of the range that the sample of the image
/// lies above `low`; where there is no range the image is left alone.
pub open spec fn is_full_range<T>(
    val: spec_fn(T) -> real,
    image: Raster<T>,
    low: real,
    high: real,
    out: Raster<T>,
) -> bool {
    &&& forall|c: int, i: int|
        #![trigger image.planes[c][i]]
        0 <= c < image.planes.len() && 0 <= i < image.width * image.height ==> low <= val(
            image.planes[c][i],
        ) <= high
    &&& exists|c: int, i: int|
        0 <= c < image.planes.len() && 0 <= i < image.width * image.height && val(
            #[trigger] image.planes[c][i],
        ) == low
    &&& exists|c: int, i: int|
        0 <= c < image.planes.len() && 0 <= i < image.width * image.height && val(
            #[trigger] image.planes[c][i],
        ) == high
    &&& out.same_shape(image)
    &&& low == high ==> out == image
    &&& low != high ==> forall|c: int, i: int|
        #![trigger out.planes[c][i]]
        0 <= c < image.planes.len() && 0 <= i < image.width * image.height ==> product(
            val(out.planes[c][i]),
            high - low,
        ) == val(image.planes[c][i]) - low
}

/// The statistical stretch is a curve on the linear one: it has the same black
/// and white points, and samples that the linear stretch makes equal, of
/// whichever channels, it makes equal too.
pub proof fn lemma_statistical_stretch_follows_linear<T, A: Arithmetic<T>>(
    ops: &A,
    target: T,
    lo_p: T,
    hi_p: T,
    detect: bool,
    image: Raster<T>,
    linear: Raster<T>,
    out: Raster<T>,
)
    requires
        is_deterministic(ops),
        image.wf(),
        linear.wf(),
        is_stretched(
            ops,
            (StretchOptions {
                algorithm: StretchAlgorithm::Linear {
                    low_percentile: lo_p,
                    high_percentile: hi_p,
                },
                autocrop: detect,
                pre_normalized: true,
            }),
            image,
            linear,
        ),
        is_stretched(
            ops,
            (StretchOptions {
                algorithm: StretchAlgorithm::Statistical {
                    target_median: target,
                    low_percentile: lo_p,
                    high_percentile: hi_p,
                },
                autocrop: detect,
                pre_normalized: true,
            }),
            image,
            out,
        ),
    ensures
        out.same_shape(image),
        forall|c: int, i: int, d: int, j: int|
            #![trigger linear.planes[c][i], linear.planes[d][j]]
            0 <= c < image.planes.len() && 0 <= d < image.planes.len() && 0 <= i < image.width
                * image.height && 0 <= j < image.width * image.height && linear.planes[c][i]
                == linear.planes[d][j] ==> out.planes[c][i] == out.planes[d][j],
{
    let level = choose|flat: bool| #[trigger]
        is_percentile_clipped(ops, lo_p, hi_p, image, flat, linear);
    let (flat, clipped) = choose|flat: bool, clipped: Raster<T>| #[trigger]
        is_percentile_clipped(ops, lo_p, hi_p, image, flat, clipped) && if flat {
            out == clipped
        } else {
            exists|flags: Seq<bool>, median: T, apart: bool, gamma: T| #[trigger]
                is_gamma_corrected(ops, target, clipped, flags, median, apart, gamma, out)
        };
    lemma_one_clip(ops, lo_p, hi_p, image, flat, clipped, level, linear);
    if !flat {
        let (flags, median, apart, gamma) = choose|
            flags: Seq<bool>,
            median: T,
            apart: bool,
            gamma: T,
        | #[trigger]
            is_gamma_corrected(ops, target, clipped, flags, median, apart, gamma, out);
        if out != linear {
            assert forall|c: int, i: int, d: int, j: int|
                #![trigger linear.planes[c][i], linear.planes[d][j]]
                0 <= c < image.planes.len() && 0 <= d < image.planes.len() && 0 <= i < image.width
                    * image.height && 0 <= j < image.width * image.height && linear.planes[c][i]
                    == linear.planes[d][j] implies out.planes[c][i] == out.planes[d][j] by {
                assert(linear.planes[c].len() == linear.width * linear.height);
                assert(linear.planes[d].len() == linear.width * linear.height);
                assert(evals(ops, gamma_of(gamma)(linear.planes[c][i]), out.planes[c][i]));
                assert(evals(ops, gamma_of(gamma)(linear.planes[d][j]), out.planes[d][j]));
                lemma_one_value(
                    ops,
                    gamma_of(gamma)(linear.planes[c][i]),
                    out.planes[c][i],
                    out.planes[d][j],
                );
            }
        }
    }
}

} // verus!
