//! Laws of the pipeline.

use super::answers::{is_deterministic, lemma_one_decision};
use super::denoising::lemma_one_denoised_image;
use super::enhancement::{lemma_one_calibration, lemma_one_contrast, lemma_one_star_reduction};
use super::flattening::lemma_one_gradient_free_image;
use super::stretching::{
    lemma_green_removal_of_zero, lemma_one_green_removal, lemma_one_image_map,
    lemma_one_normalized, lemma_one_saturation, lemma_one_stats_bounds, lemma_one_stretch,
    lemma_saturation_of_one,
};
use crate::arith::{Arithmetic, Formula, Test, decides, whole};
use crate::autocrop::{AutocropParams, CropBounds, are_edges};
use crate::denoise::{DenoiseParams, is_denoised_image};
use crate::enhance::{is_calibrated, is_contrasted, is_star_reduced};
use crate::frame::{Raster, maps_image};
use crate::gradient::{GradientParams, is_gradient_free_image};
use crate::pipeline::{
    PipelineConfig, is_calibrated_if, is_contrasted_if, is_denoised_if, is_enhanced, is_enhanced_by,
    is_prepared, is_prepared_by, is_processed, is_star_reduced_if, is_tone_mapped,
    lemma_prepare_is_prefix, lemma_tone_mapping_ignores_denoising, limited_to_unit,
};
use crate::stretch::{
    MtfSolution, StretchAlgorithm, StretchOptions, applies_to_image, is_display_solution,
    is_green_removed, is_normalized, is_saturated, is_stretched, lemma_display_solution_stretches,
};
use vstd::prelude::*;

verus! {

/// Preparing is deterministic: an image has one prepared image.
pub proof fn lemma_one_preparation<T, A: Arithmetic<T>>(
    ops: &A,
    config: PipelineConfig<T>,
    image: Raster<T>,
    a: Raster<T>,
    b: Raster<T>,
)
    requires
        is_deterministic(ops),
        is_prepared(ops, config, image, a),
        is_prepared(ops, config, image, b),
    ensures
        a == b,
{
    let (p, m, f) = choose|bounds: CropBounds, normalized: Raster<T>, flat: Raster<T>| #[trigger]
        is_prepared_by(ops, config, image, bounds, normalized, flat, a);
    let (q, n, g) = choose|bounds: CropBounds, normalized: Raster<T>, flat: Raster<T>| #[trigger]
        is_prepared_by(ops, config, image, bounds, normalized, flat, b);
    lemma_one_stats_bounds(ops, config.autocrop, image, p, q);
    lemma_one_normalized(ops, image, p, m, n);
    if config.gradient_removal {
        lemma_one_gradient_free_image(ops, config.gradient_params(), m, f, g);
        lemma_one_normalized(ops, f, p, a, b);
    }
}

/// The tone mapping is deterministic: an image has one tone-mapped image.
pub proof fn lemma_one_tone_mapping<T, A: Arithmetic<T>>(
    ops: &A,
    config: PipelineConfig<T>,
    image: Raster<T>,
    a: Raster<T>,
    b: Raster<T>,
)
    requires
        is_deterministic(ops),
        is_tone_mapped(ops, config, image, a),
        is_tone_mapped(ops, config, image, b),
    ensures
        a == b,
{
    let (p, c) = choose|prepared: Raster<T>, calibrated: Raster<T>|
        is_prepared(ops, config, image, prepared) && #[trigger] is_calibrated_if(
            ops,
            config.color_calibration,
            prepared,
            calibrated,
        ) && is_stretched(ops, config.stretch_options(), calibrated, a);
    let (q, d) = choose|prepared: Raster<T>, calibrated: Raster<T>|
        is_prepared(ops, config, image, prepared) && #[trigger] is_calibrated_if(
            ops,
            config.color_calibration,
            prepared,
            calibrated,
        ) && is_stretched(ops, config.stretch_options(), calibrated, b);
    lemma_one_preparation(ops, config, image, p, q);
    if config.color_calibration {
        lemma_one_calibration(ops, p, c, d);
    }
    lemma_one_stretch(ops, config.stretch_options(), c, a, b);
}

/// An image has one denoised image, where denoising is configured.
proof fn lemma_one_denoising<T, A: Arithmetic<T>>(
    ops: &A,
    config: PipelineConfig<T>,
    image: Raster<T>,
    a: Raster<T>,
    b: Raster<T>,
)
    requires
        is_deterministic(ops),
        is_denoised_if(ops, config, image, a),
        is_denoised_if(ops, config, image, b),
    ensures
        a == b,
{
    if config.denoise {
        let s = choose|smooth: Raster<T>| #[trigger]
            is_denoised_image(ops, config.denoise_params(), image, smooth) && maps_image(
                ops,
                limited_to_unit(),
                smooth,
                a,
            );
        let t = choose|smooth: Raster<T>| #[trigger]
            is_denoised_image(ops, config.denoise_params(), image, smooth) && maps_image(
                ops,
                limited_to_unit(),
                smooth,
                b,
            );
        lemma_one_denoised_image(ops, config.denoise_params(), image, s, t);
        lemma_one_image_map(ops, limited_to_unit(), s, a, b);
    }
}

/// An image has one contrast boost, where it is configured.
proof fn lemma_one_boost<T, A: Arithmetic<T>>(
    ops: &A,
    config: PipelineConfig<T>,
    image: Raster<T>,
    a: Raster<T>,
    b: Raster<T>,
)
    requires
        is_deterministic(ops),
        is_contrasted_if(ops, config, image, a),
        is_contrasted_if(ops, config, image, b),
    ensures
        a == b,
{
    let p = choose|on: bool| #[trigger]
        decides(ops, Test::Less, whole(1), Formula::Given(config.contrast), on) && if on {
            is_contrasted(ops, config.contrast, image, a)
        } else {
            a == image
        };
    let q = choose|on: bool| #[trigger]
        decides(ops, Test::Less, whole(1), Formula::Given(config.contrast), on) && if on {
            is_contrasted(ops, config.contrast, image, b)
        } else {
            b == image
        };
    lemma_one_decision(ops, Test::Less, whole(1), Formula::Given(config.contrast), p, q);
    if p {
        lemma_one_contrast(ops, config.contrast, image, a, b);
    }
}

/// Processing is deterministic: an image has one processed image.
pub proof fn lemma_one_processing<T, A: Arithmetic<T>>(
    ops: &A,
    config: PipelineConfig<T>,
    image: Raster<T>,
    a: Raster<T>,
    b: Raster<T>,
)
    requires
        is_deterministic(ops),
        is_processed(ops, config, image, a),
        is_processed(ops, config, image, b),
    ensures
        a == b,
{
    let s = choose|toned: Raster<T>| #[trigger]
        is_tone_mapped(ops, config, image, toned) && is_enhanced(ops, config, toned, a);
    let t = choose|toned: Raster<T>| #[trigger]
        is_tone_mapped(ops, config, image, toned) && is_enhanced(ops, config, toned, b);
    lemma_one_tone_mapping(ops, config, image, s, t);
    let (d, c, r, g) = choose|
        smooth: Raster<T>,
        crisp: Raster<T>,
        dimmed: Raster<T>,
        neutral: Raster<T>,
    | #[trigger]
        is_enhanced_by(ops, config, s, smooth, crisp, dimmed, neutral, a);
    let (e, k, m, n) = choose|
        smooth: Raster<T>,
        crisp: Raster<T>,
        dimmed: Raster<T>,
        neutral: Raster<T>,
    | #[trigger]
        is_enhanced_by(ops, config, s, smooth, crisp, dimmed, neutral, b);
    lemma_one_denoising(ops, config, s, d, e);
    lemma_one_boost(ops, config, d, c, k);
    if config.star_reduction {
        lemma_one_star_reduction(ops, config.star_threshold, c, r, m);
    }
    lemma_one_green_removal(ops, config.green_removal, r, g, n);
    lemma_one_saturation(ops, config.saturation, g, a, b);
}

/// A display path reproduces the pipeline exactly: where no optional step is
/// configured, applying the display solution of the prepared image to its
/// pixels, removing the green and saturating gives the processed image.
pub proof fn lemma_display_path_is_pipeline<T, A: Arithmetic<T>>(
    ops: &A,
    config: PipelineConfig<T>,
    bg_percent: T,
    sigma: T,
    image: Raster<T>,
    prepared: Raster<T>,
    solution: MtfSolution<T>,
    toned: Raster<T>,
    neutral: Raster<T>,
    shown: Raster<T>,
    processed: Raster<T>,
)
    requires
        is_deterministic(ops),
        config.stretch == (StretchAlgorithm::Mtf { bg_percent, sigma, linked: true }),
        !config.color_calibration,
        !config.denoise,
        !config.star_reduction,
        decides(ops, Test::Less, whole(1), Formula::Given(config.contrast), false),
        prepared.wf(),
        is_prepared(ops, config, image, prepared),
        is_display_solution(ops, prepared, bg_percent, sigma, solution),
        applies_to_image(
            ops,
            prepared,
            solution.shadows@,
            solution.scale,
            solution.midtone,
            toned,
        ),
        is_green_removed(ops, config.green_removal, toned, neutral),
        is_saturated(ops, config.saturation, neutral, shown),
        is_processed(ops, config, image, processed),
    ensures
        shown == processed,
{
    lemma_display_solution_stretches(ops, prepared, bg_percent, sigma, solution, toned);
    lemma_prepare_is_prefix(ops, config, image, prepared, toned, neutral, shown);
    lemma_one_processing(ops, config, image, shown, processed);
}

/// Preparing, stretching, removing green and saturating, one after another, is
/// processing where no optional step is configured.
pub proof fn lemma_steps_are_pipeline<T, A: Arithmetic<T>>(
    ops: &A,
    config: PipelineConfig<T>,
    image: Raster<T>,
    prepared: Raster<T>,
    toned: Raster<T>,
    neutral: Raster<T>,
    out: Raster<T>,
    processed: Raster<T>,
)
    requires
        is_deterministic(ops),
        !config.color_calibration,
        !config.denoise,
        !config.star_reduction,
        decides(ops, Test::Less, whole(1), Formula::Given(config.contrast), false),
        is_prepared(ops, config, image, prepared),
        is_stretched(ops, config.stretch_options(), prepared, toned),
        is_green_removed(ops, config.green_removal, toned, neutral),
        is_saturated(ops, config.saturation, neutral, out),
        is_processed(ops, config, image, processed),
    ensures
        out == processed,
{
    lemma_prepare_is_prefix(ops, config, image, prepared, toned, neutral, out);
    lemma_one_processing(ops, config, image, out, processed);
}

/// Green and saturation leave the image alone: it is no color image, or the
/// green removal is zero or less and the saturation is one.
pub open spec fn keeps_color<T, A: Arithmetic<T>>(
    ops: &A,
    config: PipelineConfig<T>,
    image: Raster<T>,
) -> bool {
    ||| image.planes.len() != 3
    ||| {
        &&& decides(ops, Test::LessOrEqual, Formula::Given(config.green_removal), whole(0), true)
        &&& decides(ops, Test::Equal, Formula::Given(config.saturation), whole(1), true)
    }
}

/// A finished image is the denoised one where contrast, stars, green and
/// saturation are left alone.
proof fn lemma_finish_is_denoising<T, A: Arithmetic<T>>(
    ops: &A,
    config: PipelineConfig<T>,
    toned: Raster<T>,
    out: Raster<T>,
)
    requires
        is_deterministic(ops),
        !config.star_reduction,
        decides(ops, Test::Less, whole(1), Formula::Given(config.contrast), false),
        keeps_color(ops, config, out),
        is_enhanced(ops, config, toned, out),
    ensures
        is_denoised_if(ops, config, toned, out),
{
    let (smooth, crisp, dimmed, neutral) = choose|
        smooth: Raster<T>,
        crisp: Raster<T>,
        dimmed: Raster<T>,
        neutral: Raster<T>,
    | #[trigger]
        is_enhanced_by(ops, config, toned, smooth, crisp, dimmed, neutral, out);
    assert(is_contrasted_if(ops, config, smooth, smooth));
    lemma_one_boost(ops, config, smooth, crisp, smooth);
    if out.planes.len() == 3 {
        lemma_green_removal_of_zero(ops, config.green_removal, dimmed, neutral);
        lemma_saturation_of_one(ops, config.saturation, neutral, out);
    }
}

/// Denoising in the pipeline is denoising its result: where contrast, stars,
/// green and saturation are left alone, processing with denoising gives what
/// processing without it gives, denoised and limited to the unit range.
pub proof fn lemma_pipeline_denoises_its_result<T, A: Arithmetic<T>>(
    ops: &A,
    config: PipelineConfig<T>,
    image: Raster<T>,
    plain: Raster<T>,
    smooth: Raster<T>,
    limited: Raster<T>,
    denoised: Raster<T>,
)
    requires
        is_deterministic(ops),
        config.denoise,
        !config.star_reduction,
        decides(ops, Test::Less, whole(1), Formula::Given(config.contrast), false),
        keeps_color(ops, config, plain),
        is_processed(ops, (PipelineConfig { denoise: false, ..config }), image, plain),
        is_denoised_image(ops, config.denoise_params(), plain, smooth),
        maps_image(ops, limited_to_unit(), smooth, limited),
        is_processed(ops, config, image, denoised),
    ensures
        denoised == limited,
{
    let without = PipelineConfig { denoise: false, ..config };
    let s = choose|toned: Raster<T>| #[trigger]
        is_tone_mapped(ops, without, image, toned) && is_enhanced(ops, without, toned, plain);
    let t = choose|toned: Raster<T>| #[trigger]
        is_tone_mapped(ops, config, image, toned) && is_enhanced(ops, config, toned, denoised);
    lemma_tone_mapping_ignores_denoising(
        ops,
        without,
        true,
        config.denoise_scales,
        config.denoise_threshold,
        config.denoise_mode,
        image,
        s,
    );
    lemma_one_tone_mapping(ops, config, image, s, t);
    lemma_finish_is_denoising(ops, without, s, plain);
    lemma_finish_is_denoising(ops, config, s, denoised);
    assert(is_denoised_if(ops, config, plain, limited));
    lemma_one_denoising(ops, config, plain, denoised, limited);
}

/// The image that the stretch consumes, step by step: the edges of the default
/// detection, where it is asked for, are left out of the statistics; the
/// channels are normalized; where it is configured, the gradient is removed and
/// the channels are normalized again by the same interior.
pub proof fn lemma_preparation_is_its_steps<T, A: Arithmetic<T>>(
    ops: &A,
    config: PipelineConfig<T>,
    image: Raster<T>,
    detection: AutocropParams<T>,
    bounds: CropBounds,
    normalized: Raster<T>,
    flat: Raster<T>,
    out: Raster<T>,
    prepared: Raster<T>,
)
    requires
        is_deterministic(ops),
        config.autocrop ==> detection.are_defaults(ops) && are_edges(
            ops,
            detection,
            image,
            bounds,
        ),
        !config.autocrop ==> bounds == (0usize, 0usize, 0usize, 0usize),
        is_normalized(ops, image, bounds, normalized),
        config.gradient_removal ==> is_gradient_free_image(
            ops,
            (GradientParams {
                order: config.gradient_order,
                sigma_clip: config.gradient_sigma,
                sample_grid: 32,
            }),
            normalized,
            flat,
        ) && is_normalized(ops, flat, bounds, out),
        !config.gradient_removal ==> out == normalized,
        is_prepared(ops, config, image, prepared),
    ensures
        out == prepared,
{
    assert(is_prepared_by(ops, config, image, bounds, normalized, flat, out));
    lemma_one_preparation(ops, config, image, out, prepared);
}

/// The pipeline is its steps: prepared, calibrated where that is configured,
/// stretched as normalized data, denoised and limited to the unit range where
/// that is configured, contrasted by a strength above one, dimmed at the stars
/// above the star threshold where that is configured, with its green removed
/// and saturated. Each step gets the settings that are its own.
pub proof fn lemma_pipeline_is_its_steps<T, A: Arithmetic<T>>(
    ops: &A,
    config: PipelineConfig<T>,
    image: Raster<T>,
    prepared: Raster<T>,
    calibrated: Raster<T>,
    toned: Raster<T>,
    smooth: Raster<T>,
    limited: Raster<T>,
    boosted: bool,
    crisp: Raster<T>,
    dimmed: Raster<T>,
    neutral: Raster<T>,
    out: Raster<T>,
    processed: Raster<T>,
)
    requires
        is_deterministic(ops),
        is_prepared(ops, config, image, prepared),
        config.color_calibration ==> is_calibrated(ops, prepared, calibrated),
        !config.color_calibration ==> calibrated == prepared,
        is_stretched(
            ops,
            (StretchOptions { algorithm: config.stretch, autocrop: false, pre_normalized: true }),
            calibrated,
            toned,
        ),
        config.denoise ==> is_denoised_image(
            ops,
            (DenoiseParams {
                n_scales: config.denoise_scales,
                threshold: config.denoise_threshold,
                mode: config.denoise_mode,
            }),
            toned,
            smooth,
        ) && maps_image(
            ops,
            |v: T| Formula::Given(v).clamp(Formula::Ratio(0, 1), Formula::Ratio(1, 1)),
            smooth,
            limited,
        ),
        !config.denoise ==> limited == toned,
        decides(ops, Test::Less, Formula::Ratio(1, 1), Formula::Given(config.contrast), boosted),
        boosted ==> is_contrasted(ops, config.contrast, limited, crisp),
        !boosted ==> crisp == limited,
        config.star_reduction ==> is_star_reduced(ops, config.star_threshold, crisp, dimmed),
        !config.star_reduction ==> dimmed == crisp,
        is_green_removed(ops, config.green_removal, dimmed, neutral),
        is_saturated(ops, config.saturation, neutral, out),
        is_processed(ops, config, image, processed),
    ensures
        out == processed,
{
    assert(is_calibrated_if(ops, config.color_calibration, prepared, calibrated));
    assert(is_tone_mapped(ops, config, image, toned));
    if config.denoise {
        assert((|v: T| Formula::Given(v).clamp(Formula::Ratio(0, 1), Formula::Ratio(1, 1)))
            =~= limited_to_unit::<T>());
    }
    assert(is_denoised_if(ops, config, toned, limited));
    assert(is_contrasted_if(ops, config, limited, crisp));
    assert(is_star_reduced_if(ops, config, crisp, dimmed));
    assert(is_enhanced_by(ops, config, toned, limited, crisp, dimmed, neutral, out));
    assert(is_enhanced(ops, config, toned, out));
    assert(is_processed(ops, config, image, out));
    lemma_one_processing(ops, config, image, out, processed);
}

/// Star reduction in the pipeline goes by the star threshold, whatever the
/// contrast is: where denoising is off and the contrast is one or less, the
/// processed image is the tone-mapped one with the stars above
/// `config.star_threshold` dimmed, its green removed, and saturated.
pub proof fn lemma_pipeline_reduces_stars<T, A: Arithmetic<T>>(
    ops: &A,
    config: PipelineConfig<T>,
    image: Raster<T>,
    toned: Raster<T>,
    dimmed: Raster<T>,
    neutral: Raster<T>,
    out: Raster<T>,
    processed: Raster<T>,
)
    requires
        is_deterministic(ops),
        config.star_reduction,
        !config.denoise,
        decides(ops, Test::Less, whole(1), Formula::Given(config.contrast), false),
        is_tone_mapped(ops, config, image, toned),
        is_star_reduced(ops, config.star_threshold, toned, dimmed),
        is_green_removed(ops, config.green_removal, dimmed, neutral),
        is_saturated(ops, config.saturation, neutral, out),
        is_processed(ops, config, image, processed),
    ensures
        out == processed,
{
    assert(is_contrasted_if(ops, config, toned, toned));
    assert(is_enhanced_by(ops, config, toned, toned, toned, dimmed, neutral, out));
    assert(is_enhanced(ops, config, toned, out));
    assert(is_processed(ops, config, image, out));
    lemma_one_processing(ops, config, image, out, processed);
}

} // verus!
