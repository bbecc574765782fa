//! Processing pipeline for astronomy images.
//!
//! Composes processing steps (gradient removal, denoising, stretching) into a
//! configurable pipeline. Each step can be enabled or disabled independently.
//!
//! Stage order: autocrop detection, normalize, gradient removal, renormalize,
//! stretch, denoise, green removal, saturation. All stages after normalization
//! operate on [0, 1] data, so they compose without rescaling tricks. Denoising
//! runs on the stretched image so the tone mapping (anchored on noise
//! statistics) is identical with or without it.

use crate::arith::{Arithmetic, Formula, Sample, Test, Traced, decides, evals, whole};
use crate::autocrop::CropBounds;
use crate::denoise::{DenoiseParams, ThresholdMode, denoise, is_denoised_image};
use crate::enhance::{
    color_calibrate, contrast, is_calibrated, is_contrasted, is_star_reduced, reduce_stars,
};
use crate::gradient::{GradientParams, grid_fits, is_gradient_free_image, remove_gradient};
use crate::frame::{Image, Raster, map_image, maps_image};
use crate::stretch::{
    StretchAlgorithm, StretchOptions, are_stats_bounds, is_default_algorithm, is_green_removed,
    is_normalized, is_saturated, is_stretched, normalize_to_01, remove_green, saturate,
    stats_bounds, stretch,
};
use vstd::prelude::*;

verus! {

/// Configuration for the processing pipeline.
#[derive(Debug)]
pub struct PipelineConfig<T> {
    /// Detect dark stacking edges and exclude them from all statistics (the
    /// frame itself is never cropped).
    pub autocrop: bool,
    /// Enable background gradient removal.
    pub gradient_removal: bool,
    /// Polynomial order for the gradient model (1-3).
    pub gradient_order: usize,
    /// Sigma clip for gradient background sampling.
    pub gradient_sigma: T,
    /// Enable starlet wavelet denoising.
    pub denoise: bool,
    /// Number of wavelet scales to threshold.
    pub denoise_scales: usize,
    /// Denoise threshold in noise sigmas.
    pub denoise_threshold: T,
    /// Hard or soft thresholding.
    pub denoise_mode: ThresholdMode,
    /// Corner-sampled background color neutralization before the stretch (RGB
    /// only).
    pub color_calibration: bool,
    /// Stretch algorithm (with its parameters) to finish with.
    pub stretch: StretchAlgorithm<T>,
    /// Post-stretch mean-anchored contrast boost; 1.0 disables.
    pub contrast: T,
    /// Post-stretch star dimming to emphasize nebulosity.
    pub star_reduction: bool,
    /// Luminance threshold for star detection (0-1).
    pub star_threshold: T,
    /// SCNR-style green suppression after the stretch, 0.0 (off) to 1.0
    /// (full). Deep-sky signal is almost never green; this removes the green
    /// cast OSC sensors leave behind.
    pub green_removal: T,
    /// Post-stretch saturation boost for color images (1.0 = off). Nonlinear
    /// stretches compress channel ratios; a modest boost restores the color
    /// the linear data had.
    pub saturation: T,
}

impl<T: Copy> Clone for PipelineConfig<T> {
    fn clone(&self) -> (r: Self)
        ensures
            r == *self,
    {
        *self
    }
}

impl<T: Copy> Copy for PipelineConfig<T> {

}

impl<T: Sample> PipelineConfig<T> {
    /// Gradient removal and the default stretch, with full green suppression
    /// and a mild saturation boost.
    pub fn defaults<A: Arithmetic<T>>(ops: &A) -> (r: Self)
        ensures
            r.autocrop,
            r.gradient_removal,
            r.gradient_order == 2,
            evals(ops, Formula::Ratio(25, 10), r.gradient_sigma),
            !r.denoise,
            r.denoise_scales == 4,
            evals(ops, whole(3), r.denoise_threshold),
            r.denoise_mode == ThresholdMode::Hard,
            !r.color_calibration,
            is_default_algorithm(ops, r.stretch),
            evals(ops, whole(1), r.contrast),
            !r.star_reduction,
            evals(ops, Formula::Ratio(8, 10), r.star_threshold),
            evals(ops, whole(1), r.green_removal),
            evals(ops, Formula::Ratio(125, 100), r.saturation),
    {
        PipelineConfig {
            autocrop: true,
            gradient_removal: true,
            gradient_order: 2,
            gradient_sigma: ops.ratio(25, 10),
            denoise: false,
            denoise_scales: 4,
            denoise_threshold: ops.ratio(3, 1),
            denoise_mode: ThresholdMode::Hard,
            color_calibration: false,
            stretch: StretchAlgorithm::defaults(ops),
            contrast: ops.ratio(1, 1),
            star_reduction: false,
            star_threshold: ops.ratio(8, 10),
            green_removal: ops.ratio(1, 1),
            saturation: ops.ratio(125, 100),
        }
    }
}

impl<T> PipelineConfig<T> {
    /// The background model: the configured order and clip on the default
    /// grid.
    pub open spec fn gradient_params(self) -> GradientParams<T> {
        GradientParams {
            order: self.gradient_order,
            sigma_clip: self.gradient_sigma,
            sample_grid: 32,
        }
    }

    /// The denoising that is configured.
    pub open spec fn denoise_params(self) -> DenoiseParams<T> {
        DenoiseParams {
            n_scales: self.denoise_scales,
            threshold: self.denoise_threshold,
            mode: self.denoise_mode,
        }
    }

    /// The stretch that is configured, on normalized data.
    pub open spec fn stretch_options(self) -> StretchOptions<T> {
        StretchOptions { algorithm: self.stretch, autocrop: false, pre_normalized: true }
    }

    /// The image has a background to model, where one is asked for.
    pub open spec fn accepts(self, image: Raster<T>) -> bool {
        self.gradient_removal ==> image.width >= 1 && image.height >= 1
    }
}

/// `out` is the image before the stretch, by these edges: normalized, and
/// without its gradient and normalized again where that is configured.
pub open spec fn is_prepared_by<T, A: Arithmetic<T>>(
    ops: &A,
    config: PipelineConfig<T>,
    image: Raster<T>,
    bounds: CropBounds,
    normalized: Raster<T>,
    flat: Raster<T>,
    out: Raster<T>,
) -> bool {
    &&& are_stats_bounds(ops, config.autocrop, image, bounds)
    &&& is_normalized(ops, image, bounds, normalized)
    &&& if config.gradient_removal {
        &&& is_gradient_free_image(ops, config.gradient_params(), normalized, flat)
        &&& is_normalized(ops, flat, bounds, out)
    } else {
        out == normalized
    }
}

/// `out` is the image before the stretch.
pub open spec fn is_prepared<T, A: Arithmetic<T>>(
    ops: &A,
    config: PipelineConfig<T>,
    image: Raster<T>,
    out: Raster<T>,
) -> bool {
    exists|bounds: CropBounds, normalized: Raster<T>, flat: Raster<T>| #[trigger]
        is_prepared_by(ops, config, image, bounds, normalized, flat, out)
}

/// `out` is the tone-mapped image: prepared, calibrated where that is
/// configured, and stretched.
pub open spec fn is_tone_mapped<T, A: Arithmetic<T>>(
    ops: &A,
    config: PipelineConfig<T>,
    image: Raster<T>,
    out: Raster<T>,
) -> bool {
    exists|prepared: Raster<T>, calibrated: Raster<T>|
        is_prepared(ops, config, image, prepared) && #[trigger] is_calibrated_if(
            ops,
            config.color_calibration,
            prepared,
            calibrated,
        ) && is_stretched(ops, config.stretch_options(), calibrated, out)
}

/// `out` is the calibrated image where calibration is on, the image itself
/// otherwise.
pub open spec fn is_calibrated_if<T, A: Arithmetic<T>>(
    ops: &A,
    on: bool,
    image: Raster<T>,
    out: Raster<T>,
) -> bool {
    if on {
        is_calibrated(ops, image, out)
    } else {
        out == image
    }
}

/// A sample limited to the unit range.
pub open spec fn limited_to_unit<T>() -> spec_fn(T) -> Formula<T> {
    |v: T| Formula::Given(v).unit()
}

/// `out` is the denoised image, limited to the unit range, where denoising is
/// configured; the image itself otherwise.
pub open spec fn is_denoised_if<T, A: Arithmetic<T>>(
    ops: &A,
    config: PipelineConfig<T>,
    image: Raster<T>,
    out: Raster<T>,
) -> bool {
    if config.denoise {
        exists|smooth: Raster<T>| #[trigger]
            is_denoised_image(ops, config.denoise_params(), image, smooth) && maps_image(
                ops,
                limited_to_unit(),
                smooth,
                out,
            )
    } else {
        out == image
    }
}

/// `out` is the image with more contrast where a strength above one is
/// configured; the image itself otherwise.
pub open spec fn is_contrasted_if<T, A: Arithmetic<T>>(
    ops: &A,
    config: PipelineConfig<T>,
    image: Raster<T>,
    out: Raster<T>,
) -> bool {
    exists|on: bool| #[trigger]
        decides(ops, Test::Less, whole(1), Formula::Given(config.contrast), on) && if on {
            is_contrasted(ops, config.contrast, image, out)
        } else {
            out == image
        }
}

/// `out` is the image with its stars dimmed where that is configured; the
/// image itself otherwise.
pub open spec fn is_star_reduced_if<T, A: Arithmetic<T>>(
    ops: &A,
    config: PipelineConfig<T>,
    image: Raster<T>,
    out: Raster<T>,
) -> bool {
    if config.star_reduction {
        is_star_reduced(ops, config.star_threshold, image, out)
    } else {
        out == image
    }
}

/// `out` is the finished image of a tone-mapped one: denoised, with contrast
/// and star reduction where they are configured, then green removal and
/// saturation.
pub open spec fn is_enhanced_by<T, A: Arithmetic<T>>(
    ops: &A,
    config: PipelineConfig<T>,
    image: Raster<T>,
    smooth: Raster<T>,
    crisp: Raster<T>,
    dimmed: Raster<T>,
    neutral: Raster<T>,
    out: Raster<T>,
) -> bool {
    &&& is_denoised_if(ops, config, image, smooth)
    &&& is_contrasted_if(ops, config, smooth, crisp)
    &&& is_star_reduced_if(ops, config, crisp, dimmed)
    &&& is_green_removed(ops, config.green_removal, dimmed, neutral)
    &&& is_saturated(ops, config.saturation, neutral, out)
}

/// `out` is the finished image of a tone-mapped one.
pub open spec fn is_enhanced<T, A: Arithmetic<T>>(
    ops: &A,
    config: PipelineConfig<T>,
    image: Raster<T>,
    out: Raster<T>,
) -> bool {
    exists|smooth: Raster<T>, crisp: Raster<T>, dimmed: Raster<T>, neutral: Raster<T>| #[trigger]
        is_enhanced_by(ops, config, image, smooth, crisp, dimmed, neutral, out)
}

/// `out` is the processed image: tone-mapped, then finished.
pub open spec fn is_processed<T, A: Arithmetic<T>>(
    ops: &A,
    config: PipelineConfig<T>,
    image: Raster<T>,
    out: Raster<T>,
) -> bool {
    exists|toned: Raster<T>| #[trigger]
        is_tone_mapped(ops, config, image, toned) && is_enhanced(ops, config, toned, out)
}

/// The pre-stretch prefix of [`process`]: autocrop edge detection,
/// normalization to [0, 1], optional gradient removal, renormalization.
///
/// The result is what the stretch consumes: pass it to
/// [`crate::stretch::stretch`] with `pre_normalized: true`, or hand it to a
/// display stretch together with [`crate::stretch::mtf_display_solution`].
///
/// Consumes the input: full planes of a modern sensor run to hundreds of MB,
/// so callers that need the original clone explicitly rather than paying for a
/// hidden copy.
pub fn prepare<T: Sample, A: Arithmetic<T>>(
    ops: &A,
    image: Image<T>,
    config: &PipelineConfig<T>,
) -> (out: Image<T>)
    requires
        image@.wf(),
        config.accepts(image@),
    ensures
        out@.wf(),
        out@.same_shape(image@),
        is_prepared(ops, *config, image@, out@),
{
    let ghost before = image@;
    let mut ready = image;
    // Detect dark stacking edges once; use the interior for all statistics
    let crop = stats_bounds(ops, &ready, config.autocrop);

    // Normalize to [0, 1]; percentiles come from the interior
    normalize_to_01(ops, &mut ready, crop);
    let ghost normalized = ready@;
    if config.gradient_removal {
        let params = GradientParams {
            order: config.gradient_order,
            sigma_clip: config.gradient_sigma,
            sample_grid: GradientParams::defaults(ops).sample_grid,
        };
        assert(grid_fits(params.sample_grid)) by (nonlinear_arith)
            requires
                params.sample_grid == 32,
        ;
        let mut flat = remove_gradient(ops, &ready, &params);
        let ghost level = flat@;
        // Gradient removal shifts the data range; renormalize so the stretch
        // sees the full [0, 1] span (keeps bright stars near white)
        normalize_to_01(ops, &mut flat, crop);
        assert(is_prepared_by(ops, *config, before, crop, normalized, level, flat@));
        return flat;
    }
    assert(is_prepared_by(ops, *config, before, crop, normalized, normalized, ready@));
    ready
}

/// One sample limited to the unit range.
fn limit_sample<T: Sample, A: Arithmetic<T>>(ops: &A, v: T) -> (r: T)
    ensures
        evals(ops, limited_to_unit()(v), r),
{
    Traced::given(ops, v).unit(ops).value
}

/// The denoised image, limited to the unit range, where denoising is
/// configured.
fn denoise_if<T: Sample, A: Arithmetic<T>>(
    ops: &A,
    image: Image<T>,
    config: &PipelineConfig<T>,
) -> (out: Image<T>)
    requires
        image@.wf(),
    ensures
        out@.wf(),
        out@.same_shape(image@),
        is_denoised_if(ops, *config, image@, out@),
{
    if !config.denoise {
        return image;
    }
    let params = DenoiseParams {
        n_scales: config.denoise_scales,
        threshold: config.denoise_threshold,
        mode: config.denoise_mode,
    };
    let smooth = denoise(ops, &image, &params);
    // Starlet reconstruction can overshoot slightly at hard edges
    let f = |v: T| -> (r: T)
        ensures
            evals(ops, limited_to_unit()(v), r),
    {
        limit_sample(ops, v)
    };
    let out = map_image(&smooth, &f);
    assert(maps_image(ops, limited_to_unit(), smooth@, out@));
    out
}

/// Run the processing pipeline on raw FITS image data.
///
/// Returns the processed image normalized to [0, 1], same shape as the input.
/// Consumes the input (see [`prepare`]).
pub fn process<T: Sample, A: Arithmetic<T>>(
    ops: &A,
    image: Image<T>,
    config: &PipelineConfig<T>,
) -> (out: Image<T>)
    requires
        image@.wf(),
        image@.samples() <= usize::MAX,
        config.accepts(image@),
    ensures
        out@.wf(),
        out@.same_shape(image@),
        is_processed(ops, *config, image@, out@),
{
    let ghost before = image@;
    let mut result = prepare(ops, image, config);
    let ghost prepared = result@;

    // Color calibration operates on the linear (pre-stretch) data, after
    // gradient removal
    if config.color_calibration {
        color_calibrate(ops, &mut result);
    }
    assert(is_calibrated_if(ops, config.color_calibration, prepared, result@));
    assert(result@.same_shape(before));
    let options = StretchOptions {
        algorithm: config.stretch,
        autocrop: false,
        pre_normalized: true,
    };
    let toned = stretch(ops, result, &options);
    let ghost start = toned@;
    assert(is_tone_mapped(ops, *config, before, start));

    // Denoise the stretched image, not the linear data: normalization and the
    // stretch anchor their statistics on the noise width (percentile black
    // point, MAD shadow clip), so denoising first would collapse those
    // statistics and lift the black point into the faintest real signal. After
    // the stretch the tone mapping is identical with or without denoising
    let mut finished = denoise_if(ops, toned, config);
    let ghost smooth = finished@;

    // Post-stretch enhancements: contrast, then star reduction, before the
    // color cosmetics
    let on = Traced::whole(ops, 1).test(ops, Test::Less, Traced::given(ops, config.contrast));
    if on {
        contrast(ops, &mut finished, config.contrast);
    }
    let ghost crisp = finished@;
    assert(is_contrasted_if(ops, *config, smooth, crisp));
    assert(crisp.same_shape(before));
    if config.star_reduction {
        reduce_stars(ops, &mut finished, config.star_threshold);
    }
    let ghost dimmed = finished@;
    assert(is_star_reduced_if(ops, *config, crisp, dimmed));
    assert(dimmed.same_shape(before));
    remove_green(ops, &mut finished, config.green_removal);
    let ghost neutral = finished@;
    assert(neutral.same_shape(before));
    saturate(ops, &mut finished, config.saturation);
    assert(finished@.same_shape(before));
    assert(is_enhanced_by(
        ops,
        *config,
        start,
        smooth,
        crisp,
        dimmed,
        neutral,
        finished@,
    ));
    finished
}

/// Preparing is the exact pre-stretch prefix of processing: where no optional
/// step is configured, stretching a prepared image, removing its green and
/// saturating it is processing it.
pub proof fn lemma_prepare_is_prefix<T, A: Arithmetic<T>>(
    ops: &A,
    config: PipelineConfig<T>,
    image: Raster<T>,
    prepared: Raster<T>,
    toned: Raster<T>,
    neutral: Raster<T>,
    out: Raster<T>,
)
    requires
        !config.color_calibration,
        !config.denoise,
        !config.star_reduction,
        decides(ops, Test::Less, whole(1), Formula::Given(config.contrast), false),
        is_prepared(ops, config, image, prepared),
        is_stretched(ops, config.stretch_options(), prepared, toned),
        is_green_removed(ops, config.green_removal, toned, neutral),
        is_saturated(ops, config.saturation, neutral, out),
    ensures
        is_processed(ops, config, image, out),
{
    assert(is_calibrated_if(ops, config.color_calibration, prepared, prepared));
    assert(is_tone_mapped(ops, config, image, toned));
    assert(is_contrasted_if(ops, config, toned, toned));
    assert(is_enhanced_by(ops, config, toned, toned, toned, toned, neutral, out));
}

/// The tone mapping is the same with or without denoising: it does not depend
/// on how the denoising is configured.
pub proof fn lemma_tone_mapping_ignores_denoising<T, A: Arithmetic<T>>(
    ops: &A,
    config: PipelineConfig<T>,
    on: bool,
    scales: usize,
    threshold: T,
    mode: ThresholdMode,
    image: Raster<T>,
    out: Raster<T>,
)
    requires
        is_tone_mapped(ops, config, image, out),
    ensures
        is_tone_mapped(
            ops,
            PipelineConfig {
                denoise: on,
                denoise_scales: scales,
                denoise_threshold: threshold,
                denoise_mode: mode,
                ..config
            },
            image,
            out,
        ),
{
    let other = PipelineConfig {
        denoise: on,
        denoise_scales: scales,
        denoise_threshold: threshold,
        denoise_mode: mode,
        ..config
    };
    let (prepared, calibrated) = choose|prepared: Raster<T>, calibrated: Raster<T>|
        is_prepared(ops, config, image, prepared) && #[trigger] is_calibrated_if(
            ops,
            config.color_calibration,
            prepared,
            calibrated,
        ) && is_stretched(ops, config.stretch_options(), calibrated, out);
    let (bounds, normalized, flat) = choose|
        bounds: CropBounds,
        normalized: Raster<T>,
        flat: Raster<T>,
    | #[trigger]
        is_prepared_by(ops, config, image, bounds, normalized, flat, prepared);
    assert(is_prepared_by(ops, other, image, bounds, normalized, flat, prepared));
    assert(is_calibrated_if(ops, other.color_calibration, prepared, calibrated));
}

} // verus!
