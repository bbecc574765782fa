//! Finished images hold samples of the unit range only.

use super::curve::lemma_not_negative;
use super::exact::{is_exact, lemma_exact_binary, lemma_exact_whole};
use crate::arith::{
    Arithmetic, Binary, Formula, Test, Unary, binary_answers, clamp_answers, decides, evals,
    test_answers, whole,
};
use crate::autocrop::CropBounds;
use crate::denoise::is_denoised_image;
use crate::enhance::{
    contrasted, is_calibrated, is_calibrated_by, is_calibrated_plane, is_contrast_off,
    is_contrasted, is_dimmed, is_dimmed_plane, is_mean, is_star_map, scaled_by,
};
use crate::frame::{Raster, maps_image};
use crate::pipeline::{
    PipelineConfig, is_calibrated_if, is_contrasted_if, is_denoised_if, is_enhanced,
    is_enhanced_by, is_prepared, is_prepared_by, is_processed, is_star_reduced_if, is_tone_mapped,
    limited_to_unit,
};
use crate::plane::{crop_plane, maps};
use crate::stretch::{
    StretchAlgorithm, StretchOptions, applies_solution, applies_to_image, are_centers, arcsinh_of,
    are_stats_bounds, gamma_of, is_channel_solution, is_clipped_by, is_gamma_corrected,
    is_green_removed, is_less_green, is_linked_solution, is_normalized, is_normalized_plane,
    is_percentile_clipped, is_ready, is_saturated_around, is_saturated_plane, is_stretched,
    is_stretched_by, is_stretched_channel, is_suppressed, less_green, log_of, normalizes_by, rescaled,
    saturated, shadowed, toned,
};
use vstd::prelude::*;

verus! {

/// A sample is the arithmetic's zero, or what its clamp to the range from zero
/// to one gave.
pub open spec fn is_unit_sample<T, A: Arithmetic<T>>(ops: &A, v: T) -> bool {
    ||| evals(ops, whole(0), v)
    ||| exists|x: T, low: T, high: T|
        evals(ops, whole(0), low) && evals(ops, whole(1), high) && #[trigger] clamp_answers(
            ops,
            x,
            low,
            high,
            v,
        )
}

/// Every sample of a plane is one of the unit range.
pub open spec fn is_unit_plane<T, A: Arithmetic<T>>(ops: &A, plane: Seq<T>) -> bool {
    forall|i: int| 0 <= i < plane.len() ==> is_unit_sample(ops, #[trigger] plane[i])
}

/// Every sample of an image is one of the unit range.
pub open spec fn is_unit_image<T, A: Arithmetic<T>>(ops: &A, image: Raster<T>) -> bool {
    forall|c: int| 0 <= c < image.planes.len() ==> is_unit_plane(ops, #[trigger] image.planes[c])
}

/// A value of a limited formula is a sample of the unit range.
proof fn lemma_limited<T, A: Arithmetic<T>>(ops: &A, f: Formula<T>, v: T)
    requires
        evals(ops, f.unit(), v),
    ensures
        is_unit_sample(ops, v),
{
    let low: Formula<T> = whole(0);
    let high: Formula<T> = whole(1);
    let (x, l, h) = choose|x: T, l: T, h: T|
        evals(ops, f, x) && evals(ops, low, l) && evals(ops, high, h)
            && #[trigger] clamp_answers(ops, x, l, h, v);
    assert(clamp_answers(ops, x, l, h, v));
}

/// A map whose formulas are limited gives a plane of the unit range.
proof fn lemma_limited_map<T, A: Arithmetic<T>>(
    ops: &A,
    f: spec_fn(T) -> Formula<T>,
    g: spec_fn(T) -> Formula<T>,
    data: Seq<T>,
    out: Seq<T>,
)
    requires
        maps(ops, f, data, out),
        forall|v: T| #[trigger] f(v) == g(v).unit(),
    ensures
        is_unit_plane(ops, out),
{
    assert forall|i: int| 0 <= i < out.len() implies is_unit_sample(ops, #[trigger] out[i]) by {
        assert(f(data[i]) == g(data[i]).unit());
        lemma_limited(ops, g(data[i]), out[i]);
    }
}

/// A map of an image whose formulas are limited gives an image of the unit
/// range.
proof fn lemma_limited_image_map<T, A: Arithmetic<T>>(
    ops: &A,
    f: spec_fn(T) -> Formula<T>,
    g: spec_fn(T) -> Formula<T>,
    image: Raster<T>,
    out: Raster<T>,
)
    requires
        maps_image(ops, f, image, out),
        forall|v: T| #[trigger] f(v) == g(v).unit(),
    ensures
        is_unit_image(ops, out),
{
    assert forall|c: int| 0 <= c < out.planes.len() implies is_unit_plane(
        ops,
        #[trigger] out.planes[c],
    ) by {
        lemma_limited_map(ops, f, g, image.planes[c], out.planes[c]);
    }
}

/// A normalized image holds samples of the unit range.
pub proof fn lemma_normalized_in_range<T, A: Arithmetic<T>>(
    ops: &A,
    image: Raster<T>,
    bounds: CropBounds,
    out: Raster<T>,
)
    requires
        is_normalized(ops, image, bounds, out),
    ensures
        is_unit_image(ops, out),
{
    assert forall|c: int| 0 <= c < out.planes.len() implies is_unit_plane(
        ops,
        #[trigger] out.planes[c],
    ) by {
        let plane = image.planes[c];
        let interior = crop_plane(
            plane,
            image.width as int,
            image.height as int,
            bounds,
        );
        assert(is_normalized_plane(ops, plane, interior, out.planes[c]));
        let (lo_p, hi_p, low, high, range, spread, zero) = choose|
            lo_p: T,
            hi_p: T,
            low: T,
            high: T,
            range: T,
            spread: bool,
            zero: T,
        | #[trigger]
            normalizes_by(
                ops,
                plane,
                interior,
                lo_p,
                hi_p,
                low,
                high,
                range,
                spread,
                zero,
                out.planes[c],
            );
        if spread {
            lemma_limited_map(
                ops,
                rescaled(low, range),
                |v: T| Formula::Given(v).minus(Formula::Given(low)).over(Formula::Given(range)),
                plane,
                out.planes[c],
            );
        }
    }
}

/// Applying a solution gives a plane of the unit range.
proof fn lemma_application_in_range<T, A: Arithmetic<T>>(
    ops: &A,
    plane: Seq<T>,
    shadow: T,
    scale: T,
    midtone: T,
    out: Seq<T>,
)
    requires
        applies_solution(ops, plane, shadow, scale, midtone, out),
    ensures
        is_unit_plane(ops, out),
{
    let mid = choose|mid: Seq<T>| #[trigger]
        maps(ops, shadowed(shadow, scale), plane, mid) && maps(ops, toned(midtone), mid, out);
    lemma_limited_map(
        ops,
        shadowed(shadow, scale),
        |v: T| Formula::Given(v).minus(Formula::Given(shadow)).times(Formula::Given(scale)),
        plane,
        mid,
    );
    assert forall|i: int| 0 <= i < out.len() implies is_unit_sample(ops, #[trigger] out[i]) by {
        let x = mid[i];
        let v = out[i];
        let denominator = whole(2).times(Formula::Given(midtone)).minus(whole(1)).times(
            Formula::Given(x),
        ).minus(Formula::Given(midtone));
        let curve = Formula::Given(midtone).minus(whole(1)).times(Formula::Given(x)).over(
            denominator,
        );
        assert(evals(ops, toned(midtone)(x), v));
        let size = denominator.abs();
        let least = Formula::Ratio(1, 10_000_000_000);
        assert(toned(midtone)(x) == Formula::select(
            Test::Less,
            size,
            least,
            Formula::Given(x),
            curve.unit(),
        ));
        let (p, q, r) = choose|p: T, q: T, r: bool|
            evals(ops, size, p) && evals(ops, least, q) && #[trigger] test_answers(
                ops,
                Test::Less,
                p,
                q,
                r,
            ) && (if r {
                evals(ops, Formula::Given(x), v)
            } else {
                evals(ops, curve.unit(), v)
            });
        if r {
            assert(v == x);
            assert(is_unit_sample(ops, mid[i]));
        } else {
            lemma_limited(ops, curve, v);
        }
    }
}

/// A percentile clip of an image of the unit range is one.
proof fn lemma_clip_in_range<T, A: Arithmetic<T>>(
    ops: &A,
    lo_p: T,
    hi_p: T,
    image: Raster<T>,
    flat: bool,
    out: Raster<T>,
)
    requires
        is_unit_image(ops, image),
        is_percentile_clipped(ops, lo_p, hi_p, image, flat, out),
    ensures
        is_unit_image(ops, out),
{
    let (low, high, range) = choose|low: T, high: T, range: T| #[trigger]
        is_clipped_by(ops, lo_p, hi_p, image, low, high, range, flat, out);
    if !flat {
        lemma_limited_image_map(
            ops,
            rescaled(low, range),
            |v: T| Formula::Given(v).minus(Formula::Given(low)).over(Formula::Given(range)),
            image,
            out,
        );
    }
}

/// Every algorithm takes images of the unit range to such images.
proof fn lemma_algorithm_in_range<T, A: Arithmetic<T>>(
    ops: &A,
    algorithm: StretchAlgorithm<T>,
    image: Raster<T>,
    out: Raster<T>,
)
    requires
        is_unit_image(ops, image),
        is_stretched_by(ops, algorithm, image, out),
    ensures
        is_unit_image(ops, out),
{
    match algorithm {
        StretchAlgorithm::Mtf { bg_percent, sigma, linked } => {
            if linked && image.planes.len() == 3 {
                let (shadows, scale, midtone) = choose|shadows: Seq<T>, scale: T, midtone: T| #[trigger]
                    is_linked_solution(
                        ops,
                        image.planes,
                        bg_percent,
                        sigma,
                        shadows,
                        scale,
                        midtone,
                    ) && shadows.len() == 3 && applies_to_image(
                        ops,
                        image,
                        shadows,
                        scale,
                        midtone,
                        out,
                    );
                assert forall|c: int| 0 <= c < out.planes.len() implies is_unit_plane(
                    ops,
                    #[trigger] out.planes[c],
                ) by {
                    lemma_application_in_range(
                        ops,
                        image.planes[c],
                        shadows[c],
                        scale,
                        midtone,
                        out.planes[c],
                    );
                }
            } else {
                assert forall|c: int| 0 <= c < out.planes.len() implies is_unit_plane(
                    ops,
                    #[trigger] out.planes[c],
                ) by {
                    let plane = image.planes[c];
                    assert(is_stretched_channel(ops, bg_percent, sigma, plane, out.planes[c]));
                    let (shadow, scale, midtone) = choose|shadow: T, scale: T, midtone: T| #[trigger]
                        is_channel_solution(ops, plane, bg_percent, sigma, shadow, scale, midtone)
                            && applies_solution(
                            ops,
                            plane,
                            shadow,
                            scale,
                            midtone,
                            out.planes[c],
                        );
                    lemma_application_in_range(
                        ops,
                        plane,
                        shadow,
                        scale,
                        midtone,
                        out.planes[c],
                    );
                }
            }
        },
        StretchAlgorithm::Arcsinh { factor } => {
            let (s, d) = choose|scale: T, denominator: T|
                evals(ops, whole(1).over(Formula::Given(factor)), scale) && evals(
                    ops,
                    Formula::Given(scale).apply(Unary::Asinh),
                    denominator,
                ) && #[trigger] maps_image(ops, arcsinh_of(scale, denominator), image, out);
            lemma_limited_image_map(
                ops,
                arcsinh_of(s, d),
                |v: T|
                    Formula::Given(v).times(Formula::Given(s)).apply(
                        Unary::Asinh,
                    ).over(Formula::Given(d)),
                image,
                out,
            );
        },
        StretchAlgorithm::Log { factor } => {
            let (s, d) = choose|offset: T, denominator: T|
                evals(ops, Formula::Given(factor).times(Formula::Ratio(1, 100)), offset) && evals(
                    ops,
                    whole(1).over(Formula::Given(offset)).apply(Unary::Ln1p),
                    denominator,
                ) && #[trigger] maps_image(ops, log_of(offset, denominator), image, out);
            lemma_limited_image_map(
                ops,
                log_of(s, d),
                |v: T|
                    Formula::Given(v).over(Formula::Given(s)).apply(
                        Unary::Ln1p,
                    ).over(Formula::Given(d)),
                image,
                out,
            );
        },
        StretchAlgorithm::Linear { low_percentile, high_percentile } => {
            let flat = choose|flat: bool| #[trigger]
                is_percentile_clipped(ops, low_percentile, high_percentile, image, flat, out);
            lemma_clip_in_range(ops, low_percentile, high_percentile, image, flat, out);
        },
        StretchAlgorithm::Statistical { target_median, low_percentile, high_percentile } => {
            let (flat, clipped) = choose|flat: bool, clipped: Raster<T>| #[trigger]
                is_percentile_clipped(ops, low_percentile, high_percentile, image, flat, clipped)
                    && if flat {
                    out == clipped
                } else {
                    exists|flags: Seq<bool>, median: T, apart: bool, gamma: T| #[trigger]
                        is_gamma_corrected(
                            ops,
                            target_median,
                            clipped,
                            flags,
                            median,
                            apart,
                            gamma,
                            out,
                        )
                };
            lemma_clip_in_range(ops, low_percentile, high_percentile, image, flat, clipped);
            if !flat {
                let (flags, median, apart, gamma) = choose|
                    flags: Seq<bool>,
                    median: T,
                    apart: bool,
                    gamma: T,
                | #[trigger]
                    is_gamma_corrected(
                        ops,
                        target_median,
                        clipped,
                        flags,
                        median,
                        apart,
                        gamma,
                        out,
                    );
                if out != clipped {
                    lemma_limited_image_map(
                        ops,
                        gamma_of(gamma),
                        |v: T|
                            Formula::Given(v).with(
                                Binary::Pow,
                                Formula::Given(gamma),
                            ),
                        clipped,
                        out,
                    );
                }
            }
        },
    }
}

/// A stretched image holds samples of the unit range, whichever algorithm
/// stretched it; data that are taken as normalized have to hold such samples
/// already.
pub proof fn lemma_stretched_in_range<T, A: Arithmetic<T>>(
    ops: &A,
    options: StretchOptions<T>,
    image: Raster<T>,
    out: Raster<T>,
)
    requires
        options.pre_normalized ==> is_unit_image(ops, image),
        is_stretched(ops, options, image, out),
    ensures
        is_unit_image(ops, out),
{
    let ready = choose|ready: Raster<T>| #[trigger]
        is_ready(ops, options, image, ready) && is_stretched_by(
            ops,
            options.algorithm,
            ready,
            out,
        );
    if !options.pre_normalized {
        let bounds = choose|bounds: CropBounds| #[trigger]
            are_stats_bounds(ops, options.autocrop, image, bounds) && is_normalized(
                ops,
                image,
                bounds,
                ready,
            );
        lemma_normalized_in_range(ops, image, bounds, ready);
    }
    lemma_algorithm_in_range(ops, options.algorithm, ready, out);
}

/// A prepared image holds samples of the unit range.
pub proof fn lemma_prepared_in_range<T, A: Arithmetic<T>>(
    ops: &A,
    config: PipelineConfig<T>,
    image: Raster<T>,
    out: Raster<T>,
)
    requires
        is_prepared(ops, config, image, out),
    ensures
        is_unit_image(ops, out),
{
    let (bounds, normalized, flat) = choose|
        bounds: CropBounds,
        normalized: Raster<T>,
        flat: Raster<T>,
    | #[trigger]
        is_prepared_by(ops, config, image, bounds, normalized, flat, out);
    if config.gradient_removal {
        lemma_normalized_in_range(ops, flat, bounds, out);
    } else {
        lemma_normalized_in_range(ops, image, bounds, out);
    }
}

/// A calibrated image of the unit range is one.
proof fn lemma_calibrated_in_range<T, A: Arithmetic<T>>(
    ops: &A,
    image: Raster<T>,
    out: Raster<T>,
)
    requires
        is_unit_image(ops, image),
        is_calibrated(ops, image, out),
    ensures
        is_unit_image(ops, out),
{
    if out != image {
        let (medians, target, dark) = choose|medians: Seq<T>, target: T, dark: bool| #[trigger]
            is_calibrated_by(ops, image, medians, target, dark, out);
        assert forall|c: int| 0 <= c < out.planes.len() implies is_unit_plane(
            ops,
            #[trigger] out.planes[c],
        ) by {
            let m = medians[c];
            let plane = image.planes[c];
            assert(is_calibrated_plane(ops, m, target, plane, out.planes[c]));
            let positive = choose|positive: bool| #[trigger]
                decides(ops, Test::Less, whole(0), Formula::Given(m), positive) && if positive {
                    exists|scale: T|
                        evals(ops, Formula::Given(target).over(Formula::Given(m)), scale)
                            && #[trigger] maps(ops, scaled_by(scale), plane, out.planes[c])
                } else {
                    out.planes[c] == plane
                };
            if positive {
                let scale = choose|scale: T|
                    evals(ops, Formula::Given(target).over(Formula::Given(m)), scale)
                        && #[trigger] maps(ops, scaled_by(scale), plane, out.planes[c]);
                lemma_limited_map(
                    ops,
                    scaled_by(scale),
                    |v: T| Formula::Given(v).times(Formula::Given(scale)),
                    plane,
                    out.planes[c],
                );
            } else {
                assert(is_unit_plane(ops, image.planes[c]));
            }
        }
    }
}

/// A tone-mapped image holds samples of the unit range.
pub proof fn lemma_tone_mapped_in_range<T, A: Arithmetic<T>>(
    ops: &A,
    config: PipelineConfig<T>,
    image: Raster<T>,
    out: Raster<T>,
)
    requires
        is_tone_mapped(ops, config, image, out),
    ensures
        is_unit_image(ops, out),
{
    let (prepared, calibrated) = choose|prepared: Raster<T>, calibrated: Raster<T>|
        is_prepared(ops, config, image, prepared) && #[trigger] is_calibrated_if(
            ops,
            config.color_calibration,
            prepared,
            calibrated,
        ) && is_stretched(ops, config.stretch_options(), calibrated, out);
    lemma_prepared_in_range(ops, config, image, prepared);
    if config.color_calibration {
        lemma_calibrated_in_range(ops, prepared, calibrated);
    }
    lemma_stretched_in_range(ops, config.stretch_options(), calibrated, out);
}

/// Denoising, contrast and star reduction keep the unit range.
proof fn lemma_dimmed_in_range<T, A: Arithmetic<T>>(
    ops: &A,
    config: PipelineConfig<T>,
    image: Raster<T>,
    smooth: Raster<T>,
    crisp: Raster<T>,
    dimmed: Raster<T>,
)
    requires
        is_unit_image(ops, image),
        is_denoised_if(ops, config, image, smooth),
        is_contrasted_if(ops, config, smooth, crisp),
        is_star_reduced_if(ops, config, crisp, dimmed),
    ensures
        is_unit_image(ops, dimmed),
{
    if config.denoise {
        let raw = choose|raw: Raster<T>| #[trigger]
            is_denoised_image(ops, config.denoise_params(), image, raw) && maps_image(
                ops,
                limited_to_unit(),
                raw,
                smooth,
            );
        lemma_limited_image_map(
            ops,
            limited_to_unit(),
            |v: T| Formula::Given(v),
            raw,
            smooth,
        );
    }
    if crisp != smooth {
        let strength = config.contrast;
        assert(is_contrasted(ops, strength, smooth, crisp));
        let (off, empty) = choose|off: bool, empty: bool| #[trigger]
            is_contrast_off(ops, strength, smooth, off, empty) && if off || empty {
                crisp == smooth
            } else {
                exists|sums: Seq<T>, mean: T| #[trigger]
                    is_mean(ops, smooth, sums, mean) && maps_image(
                        ops,
                        contrasted(mean, strength),
                        smooth,
                        crisp,
                    )
            };
        let (sums, mean) = choose|sums: Seq<T>, mean: T| #[trigger]
            is_mean(ops, smooth, sums, mean) && maps_image(
                ops,
                contrasted(mean, strength),
                smooth,
                crisp,
            );
        lemma_limited_image_map(
            ops,
            contrasted(mean, strength),
            |v: T|
                Formula::Given(mean).plus(
                    Formula::Given(v).minus(Formula::Given(mean)).times(
                        Formula::Given(strength),
                    ),
                ),
            smooth,
            crisp,
        );
    }
    if dimmed != crisp {
        let (lum, local, peaks, reduction, sigma, factors) = choose|
            lum: Seq<T>,
            local: Seq<T>,
            peaks: Seq<bool>,
            reduction: Seq<T>,
            sigma: T,
            factors: Option<Seq<T>>,
        | #[trigger]
            is_star_map(
                ops,
                config.star_threshold,
                crisp,
                lum,
                local,
                peaks,
                reduction,
                sigma,
                factors,
            ) && match factors {
                Some(f) => is_dimmed(ops, f, crisp, dimmed),
                None => dimmed == crisp,
            };
        let f = factors->0;
        assert forall|c: int| 0 <= c < dimmed.planes.len() implies is_unit_plane(
            ops,
            #[trigger] dimmed.planes[c],
        ) by {
            assert(is_dimmed_plane(ops, f, crisp.planes[c], dimmed.planes[c]));
            assert forall|i: int| 0 <= i < dimmed.planes[c].len() implies is_unit_sample(
                ops,
                #[trigger] dimmed.planes[c][i],
            ) by {
                lemma_limited(
                    ops,
                    Formula::Given(crisp.planes[c][i]).times(Formula::Given(f[i])),
                    dimmed.planes[c][i],
                );
            }
        }
    }
}

/// `part` is the amount of green excess that a positive setting takes away.
pub open spec fn is_green_part<T, A: Arithmetic<T>>(ops: &A, amount: T, part: T) -> bool {
    &&& decides(ops, Test::LessOrEqual, Formula::Given(amount), whole(0), false)
    &&& evals(ops, Formula::Given(amount).least(whole(1)), part)
}

/// Every sample of a processed image is one of the unit range, or, in the
/// green channel of a color image whose saturation is left alone, what green
/// removal made of a pixel of such samples.
pub proof fn lemma_processed_in_range<T, A: Arithmetic<T>>(
    ops: &A,
    config: PipelineConfig<T>,
    image: Raster<T>,
    out: Raster<T>,
    c: int,
    i: int,
)
    requires
        is_processed(ops, config, image, out),
        0 <= c < out.planes.len(),
        0 <= i < out.planes[c].len(),
        out.wf(),
    ensures
        is_unit_sample(ops, out.planes[c][i]) || (out.planes.len() == 3 && c == 1 && decides(
            ops,
            Test::Equal,
            Formula::Given(config.saturation),
            whole(1),
            true,
        ) && exists|part: T, r: T, g: T, b: T|
            is_green_part(ops, config.green_removal, part) && is_unit_sample(ops, r)
                && is_unit_sample(ops, g) && is_unit_sample(ops, b) && #[trigger] is_less_green(
                ops,
                part,
                r,
                g,
                b,
                out.planes[c][i],
            )),
{
    let toned = choose|toned: Raster<T>| #[trigger]
        is_tone_mapped(ops, config, image, toned) && is_enhanced(ops, config, toned, out);
    lemma_tone_mapped_in_range(ops, config, image, toned);
    let (smooth, crisp, dimmed, neutral) = choose|
        smooth: Raster<T>,
        crisp: Raster<T>,
        dimmed: Raster<T>,
        neutral: Raster<T>,
    | #[trigger]
        is_enhanced_by(ops, config, toned, smooth, crisp, dimmed, neutral, out);
    lemma_dimmed_in_range(ops, config, toned, smooth, crisp, dimmed);
    if neutral.planes.len() == 3 {
        let off = choose|off: bool| #[trigger]
            decides(ops, Test::Equal, Formula::Given(config.saturation), whole(1), off) && if off {
                out == neutral
            } else {
                exists|lum: Seq<T>| #[trigger]
                    are_centers(ops, neutral, lum) && is_saturated_around(
                        ops,
                        lum,
                        config.saturation,
                        neutral,
                        out,
                    )
            };
        if !off {
            let lum = choose|lum: Seq<T>| #[trigger]
                are_centers(ops, neutral, lum) && is_saturated_around(
                    ops,
                    lum,
                    config.saturation,
                    neutral,
                    out,
                );
            assert(is_saturated_plane(
                ops,
                lum,
                config.saturation,
                neutral.planes[c],
                out.planes[c],
            ));
            let l = lum[i];
            let v = neutral.planes[c][i];
            assert(evals(ops, saturated(l, config.saturation, v), out.planes[c][i]));
            lemma_limited(
                ops,
                Formula::Given(l).plus(
                    Formula::Given(config.saturation).times(
                        Formula::Given(v).minus(Formula::Given(l)),
                    ),
                ),
                out.planes[c][i],
            );
        } else {
            lemma_neutral_in_range(ops, config.green_removal, dimmed, neutral, c, i);
        }
    } else {
        assert(is_unit_plane(ops, dimmed.planes[c]));
    }
}

/// Where the arithmetic is exact, every sample of a processed image lies in the
/// unit range.
#[verifier::spinoff_prover]
pub proof fn lemma_processed_in_unit_range<T, A: Arithmetic<T>>(
    ops: &A,
    val: spec_fn(T) -> real,
    config: PipelineConfig<T>,
    image: Raster<T>,
    out: Raster<T>,
    c: int,
    i: int,
)
    requires
        is_exact(ops, val),
        is_processed(ops, config, image, out),
        0 <= c < out.planes.len(),
        0 <= i < out.planes[c].len(),
        out.wf(),
    ensures
        0 as real <= val(out.planes[c][i]) <= 1 as real,
{
    lemma_processed_in_range(ops, config, image, out, c, i);
    let v = out.planes[c][i];
    if is_unit_sample(ops, v) {
        lemma_unit_value(ops, val, v);
    } else {
        let (part, r, g, b) = choose|part: T, r: T, g: T, b: T|
            is_green_part(ops, config.green_removal, part) && is_unit_sample(ops, r)
                && is_unit_sample(ops, g) && is_unit_sample(ops, b) && #[trigger] is_less_green(
                ops,
                part,
                r,
                g,
                b,
                v,
            );
        lemma_unit_value(ops, val, r);
        lemma_unit_value(ops, val, g);
        lemma_unit_value(ops, val, b);
        lemma_green_part(ops, val, config.green_removal, part);
        lemma_less_green_value(ops, val, part, r, g, b, v);
    }
}

/// A sample of the unit range stands for a number of it.
#[verifier::spinoff_prover]
proof fn lemma_unit_value<T, A: Arithmetic<T>>(ops: &A, val: spec_fn(T) -> real, v: T)
    requires
        is_exact(ops, val),
        is_unit_sample(ops, v),
    ensures
        0 as real <= val(v) <= 1 as real,
{
    lemma_exact_whole(ops, val, 0);
    lemma_exact_whole(ops, val, 1);
    if !evals(ops, whole(0), v) {
        let (x, low, high) = choose|x: T, low: T, high: T|
            evals(ops, whole(0), low) && evals(ops, whole(1), high) && #[trigger] clamp_answers(
                ops,
                x,
                low,
                high,
                v,
            );
    }
}

/// The part of the excess that is taken away lies in the unit range.
#[verifier::spinoff_prover]
proof fn lemma_green_part<T, A: Arithmetic<T>>(
    ops: &A,
    val: spec_fn(T) -> real,
    amount: T,
    part: T,
)
    requires
        is_exact(ops, val),
        is_green_part(ops, amount, part),
    ensures
        0 as real <= val(part) <= 1 as real,
{
    lemma_exact_whole(ops, val, 0);
    lemma_exact_whole(ops, val, 1);
    let (x, y) = choose|x: T, y: T|
        evals(ops, Formula::Given(amount), x) && evals(ops, whole(0), y) && #[trigger] test_answers(
            ops,
            Test::LessOrEqual,
            x,
            y,
            false,
        );
    let (p, q) = choose|p: T, q: T|
        evals(ops, Formula::Given(amount), p) && evals(ops, whole(1), q)
            && #[trigger] binary_answers(ops, Binary::Least, p, q, part);
}

/// Green with a part of its excess over the mean of red and blue taken away
/// lies between the two.
#[verifier::spinoff_prover]
proof fn lemma_less_green_value<T, A: Arithmetic<T>>(
    ops: &A,
    val: spec_fn(T) -> real,
    part: T,
    r: T,
    g: T,
    b: T,
    v: T,
)
    requires
        is_exact(ops, val),
        0 as real <= val(part) <= 1 as real,
        0 as real <= val(r) <= 1 as real,
        0 as real <= val(g) <= 1 as real,
        0 as real <= val(b) <= 1 as real,
        is_less_green(ops, part, r, g, b, v),
    ensures
        0 as real <= val(v) <= 1 as real,
{
    let (fr, fg, fb) = (Formula::Given(r), Formula::Given(g), Formula::Given(b));
    let half = Formula::<T>::Ratio(1, 2);
    let neutral = choose|neutral: T|
        evals(ops, fr.plus(fb).times(half), neutral) && #[trigger] evals(
            ops,
            less_green(g, neutral, part),
            v,
        );
    lemma_exact_binary(ops, val, Binary::Plus, fr, fb, val(r), val(b));
    let (s, h) = choose|s: T, h: T|
        evals(ops, fr.plus(fb), s) && evals(ops, half, h) && #[trigger] binary_answers(
            ops,
            Binary::Times,
            s,
            h,
            neutral,
        );
    assert(call_ensures(A::ratio, (ops, 1u64, 2u64), h));
    lemma_mean_in_range(val(r), val(b), val(h));
    let (fm, fp) = (Formula::Given(neutral), Formula::Given(part));
    lemma_exact_binary(ops, val, Binary::Minus, fg, fm, val(g), val(neutral));
    lemma_exact_binary(
        ops,
        val,
        Binary::Times,
        fp,
        fg.minus(fm),
        val(part),
        val(g) - val(neutral),
    );
    lemma_exact_binary(
        ops,
        val,
        Binary::Minus,
        fg,
        fp.times(fg.minus(fm)),
        val(g),
        val(part) * (val(g) - val(neutral)),
    );
    let (x, y, more) = choose|x: T, y: T, more: bool|
        evals(ops, fm, x) && evals(ops, fg, y) && #[trigger] test_answers(
            ops,
            Test::Less,
            x,
            y,
            more,
        ) && (if more {
            evals(ops, fg.minus(fp.times(fg.minus(fm))), v)
        } else {
            evals(ops, fg, v)
        });
    if more {
        lemma_between_both(val(part), val(g), val(neutral));
    }
}

/// The mean of two numbers of the unit range.
proof fn lemma_mean_in_range(r: real, b: real, h: real)
    by (nonlinear_arith)
    requires
        h * (2 as real) == 1 as real,
        0 as real <= r <= 1 as real,
        0 as real <= b <= 1 as real,
    ensures
        0 as real <= (r + b) * h <= 1 as real,
{
}

/// What a part of an excess leaves lies between the two ends.
#[verifier::spinoff_prover]
proof fn lemma_between_both(a: real, g: real, n: real)
    requires
        0 as real <= a <= 1 as real,
        n < g,
    ensures
        n <= g - a * (g - n) <= g,
{
    lemma_not_negative(a, g - n);
    lemma_not_negative((1 as real) - a, g - n);
    assert(((1 as real) - a) * (g - n) == (g - n) - a * (g - n)) by (nonlinear_arith);
}

/// Green removal leaves red and blue in the unit range, and turns green into
/// what it makes of a pixel of that range.
proof fn lemma_neutral_in_range<T, A: Arithmetic<T>>(
    ops: &A,
    amount: T,
    image: Raster<T>,
    out: Raster<T>,
    c: int,
    i: int,
)
    requires
        is_unit_image(ops, image),
        is_green_removed(ops, amount, image, out),
        out.planes.len() == 3,
        0 <= c < 3,
        0 <= i < out.planes[c].len(),
        out.wf(),
    ensures
        is_unit_sample(ops, out.planes[c][i]) || (c == 1 && exists|part: T, r: T, g: T, b: T|
            is_green_part(ops, amount, part) && is_unit_sample(ops, r) && is_unit_sample(ops, g)
                && is_unit_sample(ops, b) && #[trigger] is_less_green(
                ops,
                part,
                r,
                g,
                b,
                out.planes[c][i],
            )),
{
    let off = choose|off: bool| #[trigger]
        decides(ops, Test::LessOrEqual, Formula::Given(amount), whole(0), off) && if off {
            out == image
        } else {
            exists|part: T| #[trigger]
                is_suppressed(ops, part, image, out) && evals(
                    ops,
                    Formula::Given(amount).least(whole(1)),
                    part,
                )
        };
    if off {
        assert(is_unit_plane(ops, image.planes[c]));
    } else {
        let part = choose|part: T| #[trigger]
            is_suppressed(ops, part, image, out) && evals(
                ops,
                Formula::Given(amount).least(whole(1)),
                part,
            );
        assert(is_unit_plane(ops, image.planes[0]));
        assert(is_unit_plane(ops, image.planes[1]));
        assert(is_unit_plane(ops, image.planes[2]));
        assert(out.planes[0].len() == out.width * out.height);
        assert(out.planes[1].len() == out.width * out.height);
        assert(out.planes[2].len() == out.width * out.height);
        if c == 1 {
            let r = image.planes[0][i];
            let g = image.planes[1][i];
            let b = image.planes[2][i];
            assert(is_less_green(ops, part, r, g, b, out.planes[1][i]));
            assert(is_green_part(ops, amount, part));
            assert(is_unit_sample(ops, r) && is_unit_sample(ops, g) && is_unit_sample(ops, b));
        }
    }
}

} // verus!
