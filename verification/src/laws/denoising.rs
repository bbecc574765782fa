//! Laws of starlet denoising.

use super::answers::{
    is_deterministic, lemma_one_decision, lemma_one_sequence, lemma_one_value,
};
use super::scaling::{
    all_related, are_related_images, is_linear, is_ordered, lemma_related_decision,
    lemma_related_medians, lemma_related_multiple, lemma_related_product, lemma_related_sum,
    relates,
};
use super::statistics::lemma_one_median;
use crate::arith::{
    Arithmetic, Binary, Formula, Test, Unary, binary_answers, decides, evals, evals_all,
    lemma_select, test_answers, unary_answers, whole,
};
use crate::denoise::{
    DenoiseParams, ThresholdMode, decomposes, decomposes_at, horizontal_at, is_denoised,
    is_denoised_by, is_denoised_image, is_noise_sigma, lemma_mirrored_in_range, magnitudes,
    noise_level_of, rebuilds, rebuilds_at, scale_limit, scales_used, sigma_of, smooths, smooths_via,
    spline_weight, stride, tap, threshold_of, thresholded, vertical_at, vertical_term,
};
use crate::frame::Raster;
use crate::plane::{lemma_pixel, lemma_place};
use crate::stats::is_median;
use vstd::prelude::*;

verus! {

/// Hard thresholding keeps a coefficient above the threshold as it is.
pub proof fn lemma_hard_keeps<T, A: Arithmetic<T>>(ops: &A, d: T, t: T)
    requires
        decides(ops, Test::Less, Formula::Given(t), Formula::Given(d).abs(), true),
    ensures
        evals(ops, thresholded(ThresholdMode::Hard, d, t), d),
{
    lemma_select(
        ops,
        Test::Less,
        Formula::Given(t),
        Formula::Given(d).abs(),
        true,
        Formula::Given(d),
        whole(0),
        d,
    );
}

/// Hard thresholding replaces a coefficient that is not above the threshold by
/// zero.
pub proof fn lemma_hard_drops<T, A: Arithmetic<T>>(ops: &A, d: T, t: T, zero: T)
    requires
        decides(ops, Test::Less, Formula::Given(t), Formula::Given(d).abs(), false),
        evals(ops, whole(0), zero),
    ensures
        evals(ops, thresholded(ThresholdMode::Hard, d, t), zero),
{
    lemma_select(
        ops,
        Test::Less,
        Formula::Given(t),
        Formula::Given(d).abs(),
        false,
        Formula::Given(d),
        whole(0),
        zero,
    );
}

/// The coarse residual is never thresholded: the reconstruction starts from it
/// and adds what thresholding leaves of the detail scales, one after another.
pub proof fn lemma_residual_is_untouched<T, A: Arithmetic<T>>(
    ops: &A,
    params: DenoiseParams<T>,
    channel: Seq<T>,
    w: int,
    h: int,
    coarse: Seq<Seq<T>>,
    details: Seq<Seq<T>>,
    sigma: T,
    out: Seq<T>,
)
    requires
        is_denoised_by(ops, params, channel, w, h, coarse, details, sigma, out),
        decides(ops, Test::LessOrEqual, Formula::Given(sigma), whole(0), false),
        is_deterministic(ops),
    ensures
        exists|limits: Seq<T>, sums: Seq<Seq<T>>| #[trigger]
            rebuilds(ops, params, sigma, coarse.last(), details, limits, sums) && sums[0]
                == coarse.last() && limits.len() == details.len() && out == sums.last(),
{
    let quiet = choose|quiet: bool| #[trigger]
        decides(ops, Test::LessOrEqual, Formula::Given(sigma), whole(0), quiet) && if quiet {
            out == channel
        } else {
            exists|limits: Seq<T>, sums: Seq<Seq<T>>| #[trigger]
                rebuilds(ops, params, sigma, coarse.last(), details, limits, sums)
                    && limits.len() == details.len() && out == sums.last()
        };
    lemma_one_decision(
        ops,
        Test::LessOrEqual,
        Formula::Given(sigma),
        whole(0),
        quiet,
        false,
    );
}

/// A channel has one smoothing.
proof fn lemma_one_smoothing<T, A: Arithmetic<T>>(
    ops: &A,
    data: Seq<T>,
    step: int,
    w: int,
    h: int,
    a: Seq<T>,
    b: Seq<T>,
)
    requires
        is_deterministic(ops),
        smooths(ops, data, step, w, h, a),
        smooths(ops, data, step, w, h, b),
    ensures
        a == b,
{
    let m = choose|mid: Seq<T>| #[trigger] smooths_via(ops, data, step, w, h, mid, a);
    let n = choose|mid: Seq<T>| #[trigger] smooths_via(ops, data, step, w, h, mid, b);
    lemma_one_sequence(ops, |i: int| vertical_at(data, step, w, h, i), m, n);
    lemma_one_sequence(ops, |i: int| horizontal_at(m, step, w, i, 5), a, b);
}

/// A channel has one decomposition, up to scale `k`.
proof fn lemma_one_decomposition<T, A: Arithmetic<T>>(
    ops: &A,
    channel: Seq<T>,
    w: int,
    h: int,
    coarse: Seq<Seq<T>>,
    details: Seq<Seq<T>>,
    rough: Seq<Seq<T>>,
    others: Seq<Seq<T>>,
    k: int,
)
    requires
        is_deterministic(ops),
        decomposes(ops, channel, w, h, coarse, details),
        decomposes(ops, channel, w, h, rough, others),
        details.len() == others.len(),
        0 <= k <= details.len(),
    ensures
        coarse[k] == rough[k],
        forall|j: int| 0 <= j < k ==> #[trigger] details[j] == others[j],
    decreases k,
{
    if k > 0 {
        let j = k - 1;
        lemma_one_decomposition(ops, channel, w, h, coarse, details, rough, others, j);
        assert(decomposes_at(ops, w, h, coarse, details, j));
        assert(decomposes_at(ops, w, h, rough, others, j));
        lemma_one_smoothing(ops, coarse[j], stride(j), w, h, coarse[j + 1], rough[j + 1]);
        lemma_one_sequence(
            ops,
            |i: int| Formula::Given(coarse[j][i]).minus(Formula::Given(coarse[j + 1][i])),
            details[j],
            others[j],
        );
    }
}

/// A detail plane has one noise estimate.
proof fn lemma_one_noise_sigma<T, A: Arithmetic<T>>(ops: &A, finest: Seq<T>, a: T, b: T)
    requires
        is_deterministic(ops),
        is_noise_sigma(ops, finest, a),
        is_noise_sigma(ops, finest, b),
    ensures
        a == b,
{
    let (s, m) = choose|abs: Seq<T>, median: T|
        evals_all(ops, magnitudes(finest), abs) && #[trigger] is_median(ops, abs, median) && evals(
            ops,
            sigma_of(median),
            a,
        );
    let (t, n) = choose|abs: Seq<T>, median: T|
        evals_all(ops, magnitudes(finest), abs) && #[trigger] is_median(ops, abs, median) && evals(
            ops,
            sigma_of(median),
            b,
        );
    lemma_one_sequence(ops, |i: int| magnitudes(finest)[i], s, t);
    lemma_one_median(ops, s, m, n);
    lemma_one_value(ops, sigma_of(m), a, b);
}

/// There is one reconstruction, up to scale `k`.
proof fn lemma_one_reconstruction<T, A: Arithmetic<T>>(
    ops: &A,
    params: DenoiseParams<T>,
    sigma: T,
    residual: Seq<T>,
    details: Seq<Seq<T>>,
    limits: Seq<T>,
    sums: Seq<Seq<T>>,
    bounds: Seq<T>,
    totals: Seq<Seq<T>>,
    k: int,
)
    requires
        is_deterministic(ops),
        rebuilds(ops, params, sigma, residual, details, limits, sums),
        rebuilds(ops, params, sigma, residual, details, bounds, totals),
        limits.len() == bounds.len(),
        0 <= k <= limits.len(),
    ensures
        sums[k] == totals[k],
    decreases k,
{
    if k > 0 {
        let j = k - 1;
        lemma_one_reconstruction(
            ops,
            params,
            sigma,
            residual,
            details,
            limits,
            sums,
            bounds,
            totals,
            j,
        );
        assert(rebuilds_at(ops, params, sigma, details, limits, sums, j));
        assert(rebuilds_at(ops, params, sigma, details, bounds, totals, j));
        lemma_one_value(ops, threshold_of(params.threshold, sigma, j), limits[j], bounds[j]);
        lemma_one_sequence(
            ops,
            |i: int|
                Formula::Given(sums[j][i]).plus(
                    thresholded(params.mode, details[j][i], limits[j]),
                ),
            sums[j + 1],
            totals[j + 1],
        );
    }
}

/// A channel has one denoised channel.
pub proof fn lemma_one_denoised_channel<T, A: Arithmetic<T>>(
    ops: &A,
    params: DenoiseParams<T>,
    channel: Seq<T>,
    w: int,
    h: int,
    a: Seq<T>,
    b: Seq<T>,
)
    requires
        is_deterministic(ops),
        is_denoised(ops, params, channel, w, h, a),
        is_denoised(ops, params, channel, w, h, b),
    ensures
        a == b,
{
    let (coarse, details, sigma) = choose|coarse: Seq<Seq<T>>, details: Seq<Seq<T>>, sigma: T| #[trigger]
        is_denoised_by(ops, params, channel, w, h, coarse, details, sigma, a);
    let (rough, others, noise) = choose|coarse: Seq<Seq<T>>, details: Seq<Seq<T>>, sigma: T| #[trigger]
        is_denoised_by(ops, params, channel, w, h, coarse, details, sigma, b);
    let n = details.len() as int;
    lemma_one_decomposition(ops, channel, w, h, coarse, details, rough, others, n);
    assert(details =~= others);
    lemma_one_noise_sigma(ops, details[0], sigma, noise);
    let first = choose|quiet: bool| #[trigger]
        decides(ops, Test::LessOrEqual, Formula::Given(sigma), whole(0), quiet) && if quiet {
            a == channel
        } else {
            exists|limits: Seq<T>, sums: Seq<Seq<T>>| #[trigger]
                rebuilds(ops, params, sigma, coarse.last(), details, limits, sums)
                    && limits.len() == details.len() && a == sums.last()
        };
    let second = choose|quiet: bool| #[trigger]
        decides(ops, Test::LessOrEqual, Formula::Given(noise), whole(0), quiet) && if quiet {
            b == channel
        } else {
            exists|limits: Seq<T>, sums: Seq<Seq<T>>| #[trigger]
                rebuilds(ops, params, noise, rough.last(), others, limits, sums)
                    && limits.len() == others.len() && b == sums.last()
        };
    lemma_one_decision(
        ops,
        Test::LessOrEqual,
        Formula::Given(sigma),
        whole(0),
        first,
        second,
    );
    if !first {
        let (limits, sums) = choose|limits: Seq<T>, sums: Seq<Seq<T>>| #[trigger]
            rebuilds(ops, params, sigma, coarse.last(), details, limits, sums)
                && limits.len() == details.len() && a == sums.last();
        let (bounds, totals) = choose|limits: Seq<T>, sums: Seq<Seq<T>>| #[trigger]
            rebuilds(ops, params, noise, rough.last(), others, limits, sums)
                && limits.len() == others.len() && b == sums.last();
        lemma_one_reconstruction(
            ops,
            params,
            sigma,
            coarse.last(),
            details,
            limits,
            sums,
            bounds,
            totals,
            n,
        );
    }
}

/// Denoising is deterministic: an image has one denoised image.
pub proof fn lemma_one_denoised_image<T, A: Arithmetic<T>>(
    ops: &A,
    params: DenoiseParams<T>,
    image: Raster<T>,
    a: Raster<T>,
    b: Raster<T>,
)
    requires
        is_deterministic(ops),
        is_denoised_image(ops, params, image, a),
        is_denoised_image(ops, params, image, b),
    ensures
        a == b,
{
    assert forall|c: int| 0 <= c < a.planes.len() implies #[trigger] a.planes[c]
        == b.planes[c] by {
        lemma_one_denoised_channel(
            ops,
            params,
            image.planes[c],
            image.width as int,
            image.height as int,
            a.planes[c],
            b.planes[c],
        );
    }
    assert(a.planes =~= b.planes);
}

// ---------------------------------------------------------------------------
// Channels and scales
// ---------------------------------------------------------------------------

/// Channels never influence each other: a channel of a denoised image is what
/// denoising that channel alone gives.
pub proof fn lemma_channels_are_apart<T, A: Arithmetic<T>>(
    ops: &A,
    params: DenoiseParams<T>,
    image: Raster<T>,
    out: Raster<T>,
    c: int,
    mono: Raster<T>,
    alone: Raster<T>,
)
    requires
        is_deterministic(ops),
        0 <= c < image.planes.len(),
        mono == (Raster {
            width: image.width,
            height: image.height,
            planes: seq![image.planes[c]],
        }),
        is_denoised_image(ops, params, image, out),
        is_denoised_image(ops, params, mono, alone),
    ensures
        out.same_shape(image),
        alone.planes == seq![out.planes[c]],
{
    assert(is_denoised(
        ops,
        params,
        mono.planes[0],
        image.width as int,
        image.height as int,
        alone.planes[0],
    ));
    lemma_one_denoised_channel(
        ops,
        params,
        image.planes[c],
        image.width as int,
        image.height as int,
        out.planes[c],
        alone.planes[0],
    );
    assert(alone.planes =~= seq![out.planes[c]]);
}

/// The scales that are used: no scale counts as one, more than fit count as
/// those that fit, and the kernel of the coarsest one stays inside the image.
pub proof fn lemma_scale_counts(n: int, w: int, h: int)
    requires
        0 <= n,
    ensures
        scales_used(0, w, h) == scales_used(1, w, h),
        n >= scale_limit(if w < h {
            w
        } else {
            h
        }) ==> scales_used(n, w, h) == scale_limit(
            if w < h {
                w
            } else {
                h
            },
        ),
        1 <= scales_used(n, w, h) <= 6,
        scales_used(n, w, h) > 1 ==> 4 * stride(scales_used(n, w, h) - 1) + 1 < w && 4 * stride(
            scales_used(n, w, h) - 1,
        ) + 1 < h,
{
    reveal_with_fuel(stride, 7);
}

/// Two counts of scales that are limited to the same one denoise alike.
pub proof fn lemma_scales_are_limited<T, A: Arithmetic<T>>(
    ops: &A,
    params: DenoiseParams<T>,
    others: DenoiseParams<T>,
    image: Raster<T>,
    a: Raster<T>,
    b: Raster<T>,
)
    requires
        is_deterministic(ops),
        params.threshold == others.threshold,
        params.mode == others.mode,
        scales_used(params.n_scales as int, image.width as int, image.height as int)
            == scales_used(others.n_scales as int, image.width as int, image.height as int),
        is_denoised_image(ops, params, image, a),
        is_denoised_image(ops, others, image, b),
    ensures
        a == b,
{
    let w = image.width as int;
    let h = image.height as int;
    assert forall|c: int| 0 <= c < b.planes.len() implies is_denoised(
        ops,
        params,
        image.planes[c],
        w,
        h,
        #[trigger] b.planes[c],
    ) by {
        let (channel, out) = (image.planes[c], b.planes[c]);
        let (coarse, details, sigma) = choose|
            coarse: Seq<Seq<T>>,
            details: Seq<Seq<T>>,
            sigma: T,
        | #[trigger]
            is_denoised_by(ops, others, channel, w, h, coarse, details, sigma, out);
        let quiet = choose|quiet: bool| #[trigger]
            decides(ops, Test::LessOrEqual, Formula::Given(sigma), whole(0), quiet) && if quiet {
                out == channel
            } else {
                exists|limits: Seq<T>, sums: Seq<Seq<T>>| #[trigger]
                    rebuilds(ops, others, sigma, coarse.last(), details, limits, sums)
                        && limits.len() == details.len() && out == sums.last()
            };
        if !quiet {
            let (limits, sums) = choose|limits: Seq<T>, sums: Seq<Seq<T>>| #[trigger]
                rebuilds(ops, others, sigma, coarse.last(), details, limits, sums)
                    && limits.len() == details.len() && out == sums.last();
            assert forall|j: int| 0 <= j < limits.len() implies #[trigger] rebuilds_at(
                ops,
                params,
                sigma,
                details,
                limits,
                sums,
                j,
            ) by {
                assert(rebuilds_at(ops, others, sigma, details, limits, sums, j));
            }
            assert(rebuilds(ops, params, sigma, coarse.last(), details, limits, sums));
        }
        assert(is_denoised_by(ops, params, channel, w, h, coarse, details, sigma, out));
    }
    lemma_one_denoised_image(ops, params, image, a, b);
}

// ---------------------------------------------------------------------------
// A change of unit
// ---------------------------------------------------------------------------

/// `size` relates the magnitudes of related samples, and the larger of two of
/// them.
pub open spec fn relates_sizes<T, A: Arithmetic<T>>(
    ops: &A,
    rel: spec_fn(T, T) -> bool,
    size: spec_fn(T, T) -> bool,
) -> bool {
    &&& forall|x: T, u: T, p: T, v: T| #[trigger]
        unary_answers(ops, Unary::Abs, x, u) && #[trigger] unary_answers(ops, Unary::Abs, p, v)
            && rel(x, p) ==> size(u, v)
    &&& forall|x: T, y: T, u: T, p: T, q: T, v: T| #[trigger]
        binary_answers(ops, Binary::Most, x, y, u) && #[trigger] binary_answers(
            ops,
            Binary::Most,
            p,
            q,
            v,
        ) && size(x, p) && size(y, q) ==> size(u, v)
}

/// Related sizes with the signs of related samples are related.
pub open spec fn keeps_signs<T, A: Arithmetic<T>>(
    ops: &A,
    rel: spec_fn(T, T) -> bool,
    size: spec_fn(T, T) -> bool,
) -> bool {
    forall|x: T, g: T, y: T, u: T, p: T, k: T, q: T, v: T|
        #![trigger
            unary_answers(ops, Unary::Signum, x, g),
            binary_answers(ops, Binary::Times, g, y, u),
            unary_answers(ops, Unary::Signum, p, k),
            binary_answers(ops, Binary::Times, k, q, v)]
        unary_answers(ops, Unary::Signum, x, g) && binary_answers(ops, Binary::Times, g, y, u)
            && unary_answers(ops, Unary::Signum, p, k) && binary_answers(
            ops,
            Binary::Times,
            k,
            q,
            v,
        ) && rel(x, p) && size(y, q) ==> rel(u, v)
}

/// One term of a vertical pass over related samples.
proof fn lemma_related_vertical_term<T, A: Arithmetic<T>>(
    ops: &A,
    rel: spec_fn(T, T) -> bool,
    data: Seq<T>,
    other: Seq<T>,
    step: int,
    w: int,
    h: int,
    i: int,
    k: int,
)
    requires
        is_deterministic(ops),
        is_linear(ops, rel),
        all_related(rel, data, other),
        data.len() == w * h,
        0 <= i < data.len(),
        0 <= w,
        0 <= h,
    ensures
        relates(
            ops,
            rel,
            vertical_term(data, step, w, h, i, k),
            vertical_term(other, step, w, h, i, k),
        ),
{
    lemma_place(i, w, h);
    let y = tap(i / w, k, step, h);
    lemma_mirrored_in_range(i / w + (k - 2) * step, h);
    lemma_pixel(i % w, y, w, h);
    let j = y * w + i % w;
    assert(rel(data[j], other[j]));
    lemma_related_product(
        ops,
        rel,
        Formula::Ratio(spline_weight(k), 16),
        Formula::Given(data[j]),
        Formula::Given(other[j]),
    );
}

/// A vertical pass over related samples.
proof fn lemma_related_vertical<T, A: Arithmetic<T>>(
    ops: &A,
    rel: spec_fn(T, T) -> bool,
    data: Seq<T>,
    other: Seq<T>,
    step: int,
    w: int,
    h: int,
    i: int,
)
    requires
        is_deterministic(ops),
        is_linear(ops, rel),
        all_related(rel, data, other),
        data.len() == w * h,
        0 <= i < data.len(),
        0 <= w,
        0 <= h,
    ensures
        relates(ops, rel, vertical_at(data, step, w, h, i), vertical_at(other, step, w, h, i)),
{
    let a = |k: int| vertical_term(data, step, w, h, i, k);
    let b = |k: int| vertical_term(other, step, w, h, i, k);
    lemma_related_vertical_term(ops, rel, data, other, step, w, h, i, 0);
    lemma_related_vertical_term(ops, rel, data, other, step, w, h, i, 1);
    lemma_related_vertical_term(ops, rel, data, other, step, w, h, i, 2);
    lemma_related_vertical_term(ops, rel, data, other, step, w, h, i, 3);
    lemma_related_vertical_term(ops, rel, data, other, step, w, h, i, 4);
    let (a1, b1) = (a(0).plus(a(1)), b(0).plus(b(1)));
    let (a2, b2) = (a1.plus(a(2)), b1.plus(b(2)));
    let (a3, b3) = (a2.plus(a(3)), b2.plus(b(3)));
    lemma_related_sum(ops, rel, Binary::Plus, a(0), a(1), b(0), b(1));
    lemma_related_sum(ops, rel, Binary::Plus, a1, a(2), b1, b(2));
    lemma_related_sum(ops, rel, Binary::Plus, a2, a(3), b2, b(3));
    lemma_related_sum(ops, rel, Binary::Plus, a3, a(4), b3, b(4));
}

/// The first terms of a horizontal pass over related samples.
proof fn lemma_related_horizontal<T, A: Arithmetic<T>>(
    ops: &A,
    rel: spec_fn(T, T) -> bool,
    data: Seq<T>,
    other: Seq<T>,
    step: int,
    w: int,
    h: int,
    i: int,
    n: int,
)
    requires
        is_deterministic(ops),
        is_linear(ops, rel),
        all_related(rel, data, other),
        data.len() == w * h,
        0 <= i < data.len(),
        0 <= w,
        0 <= h,
    ensures
        relates(ops, rel, horizontal_at(data, step, w, i, n), horizontal_at(other, step, w, i, n)),
    decreases n,
{
    if n > 0 {
        lemma_related_horizontal(ops, rel, data, other, step, w, h, i, n - 1);
        lemma_place(i, w, h);
        let x = tap(i % w, n - 1, step, w);
        lemma_mirrored_in_range(i % w + (n - 1 - 2) * step, w);
        lemma_pixel(x, i / w, w, h);
        let j = (i / w) * w + x;
        assert(rel(data[j], other[j]));
        let weight = Formula::Ratio(spline_weight(n - 1), 16);
        let (a, b) = (Formula::Given(data[j]), Formula::Given(other[j]));
        lemma_related_product(ops, rel, weight, a, b);
        lemma_related_sum(
            ops,
            rel,
            Binary::Plus,
            horizontal_at(data, step, w, i, n - 1),
            weight.times(a),
            horizontal_at(other, step, w, i, n - 1),
            weight.times(b),
        );
    }
}

/// Smoothing keeps planes related.
proof fn lemma_related_smoothing<T, A: Arithmetic<T>>(
    ops: &A,
    rel: spec_fn(T, T) -> bool,
    data: Seq<T>,
    other: Seq<T>,
    step: int,
    w: int,
    h: int,
    a: Seq<T>,
    b: Seq<T>,
)
    requires
        is_deterministic(ops),
        is_linear(ops, rel),
        all_related(rel, data, other),
        data.len() == w * h,
        0 <= w,
        0 <= h,
        smooths(ops, data, step, w, h, a),
        smooths(ops, other, step, w, h, b),
    ensures
        all_related(rel, a, b),
{
    let m = choose|mid: Seq<T>| #[trigger] smooths_via(ops, data, step, w, h, mid, a);
    let n = choose|mid: Seq<T>| #[trigger] smooths_via(ops, other, step, w, h, mid, b);
    assert forall|i: int| 0 <= i < m.len() implies rel(#[trigger] m[i], n[i]) by {
        lemma_related_vertical(ops, rel, data, other, step, w, h, i);
        assert(evals(ops, vertical_at(other, step, w, h, i), n[i]));
    }
    assert forall|i: int| 0 <= i < a.len() implies rel(#[trigger] a[i], b[i]) by {
        lemma_related_horizontal(ops, rel, m, n, step, w, h, i, 5);
        assert(evals(ops, horizontal_at(n, step, w, i, 5), b[i]));
    }
}

/// Decompositions of related channels are related, up to scale `k`.
proof fn lemma_related_decompositions<T, A: Arithmetic<T>>(
    ops: &A,
    rel: spec_fn(T, T) -> bool,
    channel: Seq<T>,
    other: Seq<T>,
    w: int,
    h: int,
    coarse: Seq<Seq<T>>,
    details: Seq<Seq<T>>,
    rough: Seq<Seq<T>>,
    others: Seq<Seq<T>>,
    k: int,
)
    requires
        is_deterministic(ops),
        is_linear(ops, rel),
        all_related(rel, channel, other),
        channel.len() == w * h,
        0 <= w,
        0 <= h,
        decomposes(ops, channel, w, h, coarse, details),
        decomposes(ops, other, w, h, rough, others),
        details.len() == others.len(),
        0 <= k <= details.len(),
    ensures
        all_related(rel, coarse[k], rough[k]),
        coarse[k].len() == w * h,
        forall|j: int| 0 <= j < k ==> all_related(rel, #[trigger] details[j], others[j]),
        forall|j: int| 0 <= j < k ==> (#[trigger] details[j]).len() == w * h,
    decreases k,
{
    if k > 0 {
        let j = k - 1;
        lemma_related_decompositions(
            ops,
            rel,
            channel,
            other,
            w,
            h,
            coarse,
            details,
            rough,
            others,
            j,
        );
        assert(decomposes_at(ops, w, h, coarse, details, j));
        assert(decomposes_at(ops, w, h, rough, others, j));
        let (a, b) = (coarse[j], coarse[j + 1]);
        let (c, d) = (rough[j], rough[j + 1]);
        lemma_related_smoothing(ops, rel, a, c, stride(j), w, h, b, d);
        assert forall|i: int| 0 <= i < details[j].len() implies rel(
            #[trigger] details[j][i],
            others[j][i],
        ) by {
            assert(rel(a[i], c[i]) && rel(b[i], d[i]));
            lemma_related_sum(
                ops,
                rel,
                Binary::Minus,
                Formula::Given(a[i]),
                Formula::Given(b[i]),
                Formula::Given(c[i]),
                Formula::Given(d[i]),
            );
            assert(evals(ops, Formula::Given(a[i]).minus(Formula::Given(b[i])), details[j][i]));
            assert(evals(ops, Formula::Given(c[i]).minus(Formula::Given(d[i])), others[j][i]));
        }
    }
}

/// The magnitudes of related samples are related by their sizes.
proof fn lemma_related_magnitude<T, A: Arithmetic<T>>(
    ops: &A,
    rel: spec_fn(T, T) -> bool,
    size: spec_fn(T, T) -> bool,
    x: T,
    p: T,
)
    requires
        relates_sizes(ops, rel, size),
        rel(x, p),
    ensures
        relates(ops, size, Formula::Given(x).abs(), Formula::Given(p).abs()),
{
    assert forall|u: T, v: T| #[trigger]
        evals(ops, Formula::Given(x).abs(), u) && #[trigger] evals(
            ops,
            Formula::Given(p).abs(),
            v,
        ) implies size(u, v) by {
        let y = choose|y: T|
            evals(ops, Formula::Given(x), y) && #[trigger] unary_answers(ops, Unary::Abs, y, u);
        let q = choose|y: T|
            evals(ops, Formula::Given(p), y) && #[trigger] unary_answers(ops, Unary::Abs, y, v);
    }
}

/// Noise estimates of related detail planes are related by their sizes.
proof fn lemma_related_noise<T, A: Arithmetic<T>>(
    ops: &A,
    rel: spec_fn(T, T) -> bool,
    size: spec_fn(T, T) -> bool,
    finest: Seq<T>,
    other: Seq<T>,
    a: T,
    b: T,
)
    requires
        is_deterministic(ops),
        is_linear(ops, size),
        is_ordered(ops, size),
        relates_sizes(ops, rel, size),
        all_related(rel, finest, other),
        is_noise_sigma(ops, finest, a),
        is_noise_sigma(ops, other, b),
    ensures
        size(a, b),
{
    let (s, m) = choose|abs: Seq<T>, median: T|
        evals_all(ops, magnitudes(finest), abs) && #[trigger] is_median(ops, abs, median) && evals(
            ops,
            sigma_of(median),
            a,
        );
    let (t, n) = choose|abs: Seq<T>, median: T|
        evals_all(ops, magnitudes(other), abs) && #[trigger] is_median(ops, abs, median) && evals(
            ops,
            sigma_of(median),
            b,
        );
    assert forall|i: int| 0 <= i < s.len() implies size(#[trigger] s[i], t[i]) by {
        assert(rel(finest[i], other[i]));
        lemma_related_magnitude(ops, rel, size, finest[i], other[i]);
        assert(evals(ops, magnitudes(finest)[i], s[i]));
        assert(evals(ops, magnitudes(other)[i], t[i]));
    }
    lemma_related_medians(ops, size, s, t, m, n);
    let c = Formula::Ratio(6745, 10000);
    let (f, g) = (Formula::Given(m), Formula::Given(n));
    lemma_related_multiple(ops, size, Binary::Over, f, g, c);
    lemma_related_multiple(ops, size, Binary::Over, f.over(c), g.over(c), noise_level_of(0));
}

/// Thresholds from related noise estimates are related by their sizes.
proof fn lemma_related_threshold<T, A: Arithmetic<T>>(
    ops: &A,
    size: spec_fn(T, T) -> bool,
    threshold: T,
    scale: int,
    a: T,
    b: T,
)
    requires
        is_deterministic(ops),
        is_linear(ops, size),
        size(a, b),
    ensures
        relates(ops, size, threshold_of(threshold, a, scale), threshold_of(threshold, b, scale)),
{
    let k = if scale == 0 {
        Formula::Given(threshold).plus(whole(1))
    } else {
        Formula::Given(threshold)
    };
    let (f, g) = (Formula::Given(a), Formula::Given(b));
    lemma_related_product(ops, size, k, f, g);
    lemma_related_multiple(
        ops,
        size,
        Binary::Times,
        k.times(f),
        k.times(g),
        noise_level_of(scale),
    );
}

/// Hard thresholding keeps related coefficients related.
proof fn lemma_related_hard<T, A: Arithmetic<T>>(
    ops: &A,
    rel: spec_fn(T, T) -> bool,
    size: spec_fn(T, T) -> bool,
    d: T,
    t: T,
    e: T,
    s: T,
)
    requires
        is_linear(ops, rel),
        is_ordered(ops, size),
        relates_sizes(ops, rel, size),
        rel(d, e),
        size(t, s),
    ensures
        relates(
            ops,
            rel,
            thresholded(ThresholdMode::Hard, d, t),
            thresholded(ThresholdMode::Hard, e, s),
        ),
{
    let f = thresholded(ThresholdMode::Hard, d, t);
    let g = thresholded(ThresholdMode::Hard, e, s);
    assert forall|u: T, v: T| #[trigger]
        evals(ops, f, u) && #[trigger] evals(ops, g, v) implies rel(u, v) by {
        let (x, y, r) = choose|x: T, y: T, r: bool|
            evals(ops, Formula::Given(t), x) && evals(ops, Formula::Given(d).abs(), y)
                && #[trigger] test_answers(ops, Test::Less, x, y, r) && (if r {
                evals(ops, Formula::Given(d), u)
            } else {
                evals(ops, whole(0), u)
            });
        let (p, q, z) = choose|x: T, y: T, r: bool|
            evals(ops, Formula::Given(s), x) && evals(ops, Formula::Given(e).abs(), y)
                && #[trigger] test_answers(ops, Test::Less, x, y, r) && (if r {
                evals(ops, Formula::Given(e), v)
            } else {
                evals(ops, whole(0), v)
            });
        lemma_related_magnitude(ops, rel, size, d, e);
        assert(size(x, p) && size(y, q));
    }
}

/// Soft thresholding keeps related coefficients related.
proof fn lemma_related_soft<T, A: Arithmetic<T>>(
    ops: &A,
    rel: spec_fn(T, T) -> bool,
    size: spec_fn(T, T) -> bool,
    d: T,
    t: T,
    e: T,
    s: T,
)
    requires
        is_linear(ops, size),
        relates_sizes(ops, rel, size),
        keeps_signs(ops, rel, size),
        rel(d, e),
        size(t, s),
    ensures
        relates(
            ops,
            rel,
            thresholded(ThresholdMode::Soft, d, t),
            thresholded(ThresholdMode::Soft, e, s),
        ),
{
    let f = thresholded(ThresholdMode::Soft, d, t);
    let g = thresholded(ThresholdMode::Soft, e, s);
    let (a, b) = (Formula::Given(d).abs(), Formula::Given(e).abs());
    let (m, n) = (a.minus(Formula::Given(t)), b.minus(Formula::Given(s)));
    lemma_related_magnitude(ops, rel, size, d, e);
    lemma_related_sum(ops, size, Binary::Minus, a, Formula::Given(t), b, Formula::Given(s));
    assert forall|u: T, v: T| #[trigger]
        evals(ops, f, u) && #[trigger] evals(ops, g, v) implies rel(u, v) by {
        let (x, y) = choose|x: T, y: T|
            evals(ops, Formula::Given(d).apply(Unary::Signum), x) && evals(
                ops,
                m.most(whole(0)),
                y,
            ) && #[trigger] binary_answers(ops, Binary::Times, x, y, u);
        let (p, q) = choose|x: T, y: T|
            evals(ops, Formula::Given(e).apply(Unary::Signum), x) && evals(
                ops,
                n.most(whole(0)),
                y,
            ) && #[trigger] binary_answers(ops, Binary::Times, x, y, v);
        let (i, j) = choose|i: T, j: T|
            evals(ops, m, i) && evals(ops, whole(0), j) && #[trigger] binary_answers(
                ops,
                Binary::Most,
                i,
                j,
                y,
            );
        let (k, l) = choose|i: T, j: T|
            evals(ops, n, i) && evals(ops, whole(0), j) && #[trigger] binary_answers(
                ops,
                Binary::Most,
                i,
                j,
                q,
            );
        assert(size(i, k) && size(j, l));
        assert(size(y, q));
        let base = choose|z: T|
            evals(ops, Formula::Given(d), z) && #[trigger] unary_answers(ops, Unary::Signum, z, x);
        assert(unary_answers(ops, Unary::Signum, d, x));
        let mate = choose|z: T|
            evals(ops, Formula::Given(e), z) && #[trigger] unary_answers(ops, Unary::Signum, z, p);
        assert(unary_answers(ops, Unary::Signum, e, p));
    }
}

/// Reconstructions from related planes are related, up to scale `k`.
proof fn lemma_related_reconstructions<T, A: Arithmetic<T>>(
    ops: &A,
    rel: spec_fn(T, T) -> bool,
    size: spec_fn(T, T) -> bool,
    params: DenoiseParams<T>,
    sigma: T,
    residual: Seq<T>,
    details: Seq<Seq<T>>,
    limits: Seq<T>,
    sums: Seq<Seq<T>>,
    noise: T,
    rest: Seq<T>,
    others: Seq<Seq<T>>,
    bounds: Seq<T>,
    totals: Seq<Seq<T>>,
    k: int,
)
    requires
        is_deterministic(ops),
        is_linear(ops, rel),
        is_linear(ops, size),
        is_ordered(ops, size),
        relates_sizes(ops, rel, size),
        params.mode == ThresholdMode::Soft ==> keeps_signs(ops, rel, size),
        size(sigma, noise),
        all_related(rel, residual, rest),
        details.len() == others.len(),
        forall|j: int|
            0 <= j < details.len() ==> all_related(rel, #[trigger] details[j], others[j]),
        forall|j: int|
            0 <= j < details.len() ==> (#[trigger] details[j]).len() == residual.len(),
        rebuilds(ops, params, sigma, residual, details, limits, sums),
        rebuilds(ops, params, noise, rest, others, bounds, totals),
        limits.len() == bounds.len(),
        0 <= k <= limits.len(),
    ensures
        all_related(rel, sums[k], totals[k]),
        sums[k].len() == residual.len(),
    decreases k,
{
    if k > 0 {
        let j = k - 1;
        lemma_related_reconstructions(
            ops,
            rel,
            size,
            params,
            sigma,
            residual,
            details,
            limits,
            sums,
            noise,
            rest,
            others,
            bounds,
            totals,
            j,
        );
        assert(rebuilds_at(ops, params, sigma, details, limits, sums, j));
        assert(rebuilds_at(ops, params, noise, others, bounds, totals, j));
        lemma_related_threshold(ops, size, params.threshold, j, sigma, noise);
        assert(size(limits[j], bounds[j]));
        assert forall|i: int| 0 <= i < sums[j + 1].len() implies rel(
            #[trigger] sums[j + 1][i],
            totals[j + 1][i],
        ) by {
            let (d, e) = (details[j][i], others[j][i]);
            assert(all_related(rel, details[j], others[j]));
            assert(rel(d, e));
            let f = thresholded(params.mode, d, limits[j]);
            let g = thresholded(params.mode, e, bounds[j]);
            match params.mode {
                ThresholdMode::Hard => {
                    lemma_related_hard(ops, rel, size, d, limits[j], e, bounds[j]);
                },
                ThresholdMode::Soft => {
                    lemma_related_soft(ops, rel, size, d, limits[j], e, bounds[j]);
                },
            }
            assert(rel(sums[j][i], totals[j][i]));
            let (a, b) = (Formula::Given(sums[j][i]), Formula::Given(totals[j][i]));
            lemma_related_sum(ops, rel, Binary::Plus, a, f, b, g);
            assert(evals(ops, a.plus(f), sums[j + 1][i]));
            assert(evals(ops, b.plus(g), totals[j + 1][i]));
        }
    }
}

/// Denoising a channel in another unit gives the denoised channel in that
/// unit.
proof fn lemma_related_denoised_channels<T, A: Arithmetic<T>>(
    ops: &A,
    rel: spec_fn(T, T) -> bool,
    size: spec_fn(T, T) -> bool,
    params: DenoiseParams<T>,
    w: int,
    h: int,
    channel: Seq<T>,
    other: Seq<T>,
    a: Seq<T>,
    b: Seq<T>,
)
    requires
        is_deterministic(ops),
        is_linear(ops, rel),
        is_linear(ops, size),
        is_ordered(ops, size),
        relates_sizes(ops, rel, size),
        params.mode == ThresholdMode::Soft ==> keeps_signs(ops, rel, size),
        channel.len() == w * h,
        0 <= w,
        0 <= h,
        all_related(rel, channel, other),
        is_denoised(ops, params, channel, w, h, a),
        is_denoised(ops, params, other, w, h, b),
    ensures
        all_related(rel, a, b),
{
    let (coarse, details, sigma) = choose|coarse: Seq<Seq<T>>, details: Seq<Seq<T>>, sigma: T|
        #[trigger]
        is_denoised_by(ops, params, channel, w, h, coarse, details, sigma, a);
    let (rough, others, noise) = choose|coarse: Seq<Seq<T>>, details: Seq<Seq<T>>, sigma: T|
        #[trigger]
        is_denoised_by(ops, params, other, w, h, coarse, details, sigma, b);
    let n = details.len() as int;
    lemma_related_decompositions(
        ops,
        rel,
        channel,
        other,
        w,
        h,
        coarse,
        details,
        rough,
        others,
        n,
    );
    assert(all_related(rel, details[0], others[0]));
    lemma_related_noise(ops, rel, size, details[0], others[0], sigma, noise);
    let first = choose|quiet: bool| #[trigger]
        decides(ops, Test::LessOrEqual, Formula::Given(sigma), whole(0), quiet) && if quiet {
            a == channel
        } else {
            exists|limits: Seq<T>, sums: Seq<Seq<T>>| #[trigger]
                rebuilds(ops, params, sigma, coarse.last(), details, limits, sums)
                    && limits.len() == details.len() && a == sums.last()
        };
    let second = choose|quiet: bool| #[trigger]
        decides(ops, Test::LessOrEqual, Formula::Given(noise), whole(0), quiet) && if quiet {
            b == other
        } else {
            exists|limits: Seq<T>, sums: Seq<Seq<T>>| #[trigger]
                rebuilds(ops, params, noise, rough.last(), others, limits, sums)
                    && limits.len() == others.len() && b == sums.last()
        };
    lemma_related_decision(
        ops,
        size,
        Test::LessOrEqual,
        Formula::Given(sigma),
        whole(0),
        first,
        Formula::Given(noise),
        whole(0),
        second,
    );
    if !first {
        let (limits, sums) = choose|limits: Seq<T>, sums: Seq<Seq<T>>| #[trigger]
            rebuilds(ops, params, sigma, coarse.last(), details, limits, sums)
                && limits.len() == details.len() && a == sums.last();
        let (bounds, totals) = choose|limits: Seq<T>, sums: Seq<Seq<T>>| #[trigger]
            rebuilds(ops, params, noise, rough.last(), others, limits, sums)
                && limits.len() == others.len() && b == sums.last();
        lemma_related_reconstructions(
            ops,
            rel,
            size,
            params,
            sigma,
            coarse.last(),
            details,
            limits,
            sums,
            noise,
            rough.last(),
            others,
            bounds,
            totals,
            n,
        );
    }
}

/// Denoising does not depend on the unit: an image in another unit has the
/// denoised image in that unit. `rel` relates the samples and `size` their
/// magnitudes, so the unit may change the sign too. In soft mode the arithmetic
/// has to keep signs; a zero of the wrong sign breaks that.
pub proof fn lemma_denoising_is_scale_free<T, A: Arithmetic<T>>(
    ops: &A,
    rel: spec_fn(T, T) -> bool,
    size: spec_fn(T, T) -> bool,
    params: DenoiseParams<T>,
    image: Raster<T>,
    other: Raster<T>,
    a: Raster<T>,
    b: Raster<T>,
)
    requires
        is_deterministic(ops),
        is_linear(ops, rel),
        is_linear(ops, size),
        is_ordered(ops, size),
        relates_sizes(ops, rel, size),
        params.mode == ThresholdMode::Soft ==> keeps_signs(ops, rel, size),
        image.wf(),
        are_related_images(rel, image, other),
        is_denoised_image(ops, params, image, a),
        is_denoised_image(ops, params, other, b),
    ensures
        are_related_images(rel, a, b),
{
    assert forall|c: int| 0 <= c < a.planes.len() implies all_related(
        rel,
        #[trigger] a.planes[c],
        b.planes[c],
    ) by {
        assert(all_related(rel, image.planes[c], other.planes[c]));
        lemma_related_denoised_channels(
            ops,
            rel,
            size,
            params,
            image.width as int,
            image.height as int,
            image.planes[c],
            other.planes[c],
            a.planes[c],
            b.planes[c],
        );
    }
}

} // verus!
