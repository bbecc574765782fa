//! Image stretching algorithms for astronomy images.
//!
//! Converts linear FITS data (where most detail sits in low pixel values)
//! into visually useful images by applying nonlinear transfer functions.

use crate::arith::{
    Arithmetic, Binary, Formula, Sample, Test, Traced, Unary, decides, evals, lemma_select, whole,
};
use crate::autocrop::{AutocropParams, CropBounds, are_edges, detect_edges};
use crate::frame::{Image, Raster, map_image, maps_image, views};
use crate::parallel::par_map;
use crate::plane::{
    bounds_fit, copied, crop_plane, filled, join, joined, largest, largest_of, map_plane, maps,
    pick, picked,
};
use crate::stats::{are_percentiles, is_median, median_of, percentile_pair};
use vstd::prelude::*;

verus! {

/// A stretch algorithm together with its tuning parameters.
///
/// Construct defaults with [`StretchAlgorithm::mtf`] and friends, then adjust
/// fields where needed.
#[derive(Debug, PartialEq)]
pub enum StretchAlgorithm<T> {
    /// Midtones Transfer Function. Default. Good all-around choice; `linked`
    /// subtracts each channel's background level and applies one shared
    /// stretch, so channel ratios, and therefore color, survive.
    Mtf {
        /// Target background level (0-1).
        bg_percent: T,
        /// Sigmas above background for shadow clipping.
        sigma: T,
        /// Use the same stretch parameters for all channels.
        linked: bool,
    },
    /// Inverse hyperbolic sine. Preserves color ratios well.
    Arcsinh {
        /// Stretch aggressiveness; smaller = more aggressive.
        factor: T,
    },
    /// Logarithmic stretch. Good for high dynamic range images.
    Log {
        /// Stretch aggressiveness; smaller = more aggressive.
        factor: T,
    },
    /// Simple percentile-based linear stretch.
    Linear { low_percentile: T, high_percentile: T },
    /// Percentile clip then gamma correction targeting a median brightness.
    Statistical {
        /// Desired median value after the stretch.
        target_median: T,
        low_percentile: T,
        high_percentile: T,
    },
}

impl<T: Copy> Clone for StretchAlgorithm<T> {
    fn clone(&self) -> (r: Self)
        ensures
            r == *self,
    {
        *self
    }
}

impl<T: Copy> Copy for StretchAlgorithm<T> {

}

/// The default algorithm: a linked midtones transfer function that lands the
/// background at 22%, clipped two sigmas below.
pub open spec fn is_default_algorithm<T, A: Arithmetic<T>>(
    ops: &A,
    algorithm: StretchAlgorithm<T>,
) -> bool {
    match algorithm {
        StretchAlgorithm::Mtf { bg_percent, sigma, linked } => evals(
            ops,
            Formula::Ratio(22, 100),
            bg_percent,
        ) && evals(ops, whole(2), sigma) && linked,
        _ => false,
    }
}

impl<T: Sample> StretchAlgorithm<T> {
    pub fn mtf<A: Arithmetic<T>>(ops: &A) -> (r: Self)
        ensures
            is_default_algorithm(ops, r),
    {
        StretchAlgorithm::Mtf {
            bg_percent: ops.ratio(22, 100),
            sigma: ops.ratio(2, 1),
            linked: true,
        }
    }

    pub fn arcsinh<A: Arithmetic<T>>(ops: &A) -> (r: Self)
        ensures
            match r {
                StretchAlgorithm::Arcsinh { factor } => evals(
                    ops,
                    Formula::Ratio(15, 100),
                    factor,
                ),
                _ => false,
            },
    {
        StretchAlgorithm::Arcsinh { factor: ops.ratio(15, 100) }
    }

    pub fn log<A: Arithmetic<T>>(ops: &A) -> (r: Self)
        ensures
            match r {
                StretchAlgorithm::Log { factor } => evals(ops, Formula::Ratio(15, 100), factor),
                _ => false,
            },
    {
        StretchAlgorithm::Log { factor: ops.ratio(15, 100) }
    }

    pub fn linear<A: Arithmetic<T>>(ops: &A) -> (r: Self)
        ensures
            match r {
                StretchAlgorithm::Linear { low_percentile, high_percentile } => evals(
                    ops,
                    whole(1),
                    low_percentile,
                ) && evals(ops, whole(99), high_percentile),
                _ => false,
            },
    {
        StretchAlgorithm::Linear {
            low_percentile: ops.ratio(1, 1),
            high_percentile: ops.ratio(99, 1),
        }
    }

    pub fn statistical<A: Arithmetic<T>>(ops: &A) -> (r: Self)
        ensures
            match r {
                StretchAlgorithm::Statistical {
                    target_median,
                    low_percentile,
                    high_percentile,
                } => evals(ops, Formula::Ratio(15, 100), target_median) && evals(
                    ops,
                    Formula::Ratio(5, 10),
                    low_percentile,
                ) && evals(ops, Formula::Ratio(999, 10), high_percentile),
                _ => false,
            },
    {
        StretchAlgorithm::Statistical {
            target_median: ops.ratio(15, 100),
            low_percentile: ops.ratio(5, 10),
            high_percentile: ops.ratio(999, 10),
        }
    }

    /// The default algorithm.
    pub fn defaults<A: Arithmetic<T>>(ops: &A) -> (r: Self)
        ensures
            is_default_algorithm(ops, r),
    {
        Self::mtf(ops)
    }
}

/// Options for [`stretch`].
#[derive(Debug)]
pub struct StretchOptions<T> {
    pub algorithm: StretchAlgorithm<T>,
    /// Detect dark stacking edges and exclude them from the normalization
    /// statistics. The output keeps the full frame (nothing is cropped away).
    /// Ignored when `pre_normalized` is set.
    pub autocrop: bool,
    /// The data is already normalized to [0, 1]; skip the internal
    /// normalization pass (used by the pipeline to avoid redundant work).
    pub pre_normalized: bool,
}

impl<T: Copy> Clone for StretchOptions<T> {
    fn clone(&self) -> (r: Self)
        ensures
            r == *self,
    {
        *self
    }
}

impl<T: Copy> Copy for StretchOptions<T> {

}

impl<T: Sample> StretchOptions<T> {
    pub fn new(algorithm: StretchAlgorithm<T>) -> (r: Self)
        ensures
            r == (StretchOptions { algorithm, autocrop: true, pre_normalized: false }),
    {
        StretchOptions { algorithm, autocrop: true, pre_normalized: false }
    }

    /// The default algorithm on raw data, with edge detection.
    pub fn defaults<A: Arithmetic<T>>(ops: &A) -> (r: Self)
        ensures
            is_default_algorithm(ops, r.algorithm),
            r.autocrop,
            !r.pre_normalized,
    {
        Self::new(StretchAlgorithm::defaults(ops))
    }
}

// ---------------------------------------------------------------------------
// Normalization
// ---------------------------------------------------------------------------

/// A sample moved from the range that starts at `low` and is `range` wide to
/// the unit range.
pub open spec fn rescaled<T>(low: T, range: T) -> spec_fn(T) -> Formula<T> {
    |v: T| Formula::Given(v).minus(Formula::Given(low)).over(Formula::Given(range)).unit()
}

/// `out` is a plane normalized by percentiles 0.1 and 99.99 of its interior;
/// all zero where they coincide.
pub open spec fn normalizes_by<T, A: Arithmetic<T>>(
    ops: &A,
    plane: Seq<T>,
    interior: Seq<T>,
    lo_p: T,
    hi_p: T,
    low: T,
    high: T,
    range: T,
    spread: bool,
    zero: T,
    out: Seq<T>,
) -> bool {
    &&& evals(ops, Formula::Ratio(1, 10), lo_p)
    &&& evals(ops, Formula::Ratio(9999, 100), hi_p)
    &&& are_percentiles(ops, interior, lo_p, hi_p, low, high)
    &&& evals(ops, Formula::Given(high).minus(Formula::Given(low)), range)
    &&& decides(ops, Test::Less, whole(0), Formula::Given(range), spread)
    &&& if spread {
        maps(ops, rescaled(low, range), plane, out)
    } else {
        evals(ops, whole(0), zero) && out == Seq::new(plane.len(), |i: int| zero)
    }
}

/// `out` is a plane normalized by its interior.
pub open spec fn is_normalized_plane<T, A: Arithmetic<T>>(
    ops: &A,
    plane: Seq<T>,
    interior: Seq<T>,
    out: Seq<T>,
) -> bool {
    exists|lo_p: T, hi_p: T, low: T, high: T, range: T, spread: bool, zero: T| #[trigger]
        normalizes_by(
            ops,
            plane,
            interior,
            lo_p,
            hi_p,
            low,
            high,
            range,
            spread,
            zero,
            out,
        )
}

/// Every channel of `out` is the normalized channel of `image`, by the
/// interior that the bounds leave.
pub open spec fn is_normalized<T, A: Arithmetic<T>>(
    ops: &A,
    image: Raster<T>,
    bounds: CropBounds,
    out: Raster<T>,
) -> bool {
    &&& out.same_shape(image)
    &&& forall|c: int|
        0 <= c < out.planes.len() ==> is_normalized_plane(
            ops,
            image.planes[c],
            crop_plane(image.planes[c], image.width as int, image.height as int, bounds),
            #[trigger] out.planes[c],
        )
}

/// One sample moved to the unit range.
fn rescale<T: Sample, A: Arithmetic<T>>(ops: &A, low: T, range: T, v: T) -> (r: T)
    ensures
        evals(ops, rescaled(low, range)(v), r),
{
    let part = Traced::given(ops, v).minus(ops, Traced::given(ops, low));
    part.over(ops, Traced::given(ops, range)).unit(ops).value
}

/// A plane normalized by its interior.
fn normalize_plane<T: Sample, A: Arithmetic<T>>(
    ops: &A,
    plane: &[T],
    interior: &[T],
) -> (out: Vec<T>)
    ensures
        out@.len() == plane@.len(),
        is_normalized_plane(ops, plane@, interior@, out@),
{
    let lo_p = ops.ratio(1, 10);
    let hi_p = ops.ratio(9999, 100);
    let zero = ops.ratio(0, 1);
    let (low, high) = percentile_pair(ops, interior, lo_p, hi_p);
    let width = Traced::given(ops, high).minus(ops, Traced::given(ops, low));
    let range = width.value;
    let spread = Traced::whole(ops, 0).test(ops, Test::Less, Traced::given(ops, range));
    let out = if spread {
        let f = |v: T| -> (r: T)
            ensures
                evals(ops, rescaled(low, range)(v), r),
        {
            rescale(ops, low, range, v)
        };
        map_plane(plane, &f)
    } else {
        filled(plane.len(), zero)
    };
    assert(normalizes_by(
        ops,
        plane@,
        interior@,
        lo_p,
        hi_p,
        low,
        high,
        range,
        spread,
        zero,
        out@,
    ));
    out
}

/// Normalize raw FITS data to [0, 1] in place, per channel, with percentiles
/// (0.1, 99.99) computed from the interior left by `stats_bounds`. Percentile
/// clipping keeps hot pixels and bright stars from compressing the useful
/// range; a constant channel comes back all zero.
pub fn normalize_to_01<T: Sample, A: Arithmetic<T>>(
    ops: &A,
    image: &mut Image<T>,
    stats_bounds: CropBounds,
)
    requires
        old(image)@.wf(),
        bounds_fit(old(image)@.width as int, old(image)@.height as int, stats_bounds),
    ensures
        final(image)@.wf(),
        is_normalized(ops, old(image)@, stats_bounds, final(image)@),
{
    let ghost before = image@;
    let w = image.width();
    let h = image.height();
    let mut channels: Vec<Vec<T>> = Vec::new();
    let mut c: usize = 0;
    while c < image.num_channels()
        invariant
            image@ == before,
            before.wf(),
            bounds_fit(before.width as int, before.height as int, stats_bounds),
            w == before.width,
            h == before.height,
            c <= before.planes.len(),
            channels@.len() == c,
            forall|k: int| 0 <= k < c ==> (#[trigger] channels@[k])@.len() == w * h,
            forall|k: int|
                0 <= k < c ==> is_normalized_plane(
                    ops,
                    before.planes[k],
                    crop_plane(before.planes[k], w as int, h as int, stats_bounds),
                    (#[trigger] channels@[k])@,
                ),
        decreases before.planes.len() - c,
    {
        let interior = image.channel_interior(c, stats_bounds);
        let plane = normalize_plane(ops, image.channel(c), interior.as_slice());
        channels.push(plane);
        c += 1;
    }
    *image = Image::from_channels(w, h, channels);
    assert forall|k: int| 0 <= k < image@.planes.len() implies is_normalized_plane(
        ops,
        before.planes[k],
        crop_plane(before.planes[k], w as int, h as int, stats_bounds),
        #[trigger] image@.planes[k],
    ) by {
        assert(image@.planes[k] == channels@[k]@);
    }
}

// ---------------------------------------------------------------------------
// MTF (Midtones Transfer Function)
// ---------------------------------------------------------------------------

/// Order statistics driving an MTF stretch solution.
///
/// Parameter-independent: computed once per channel from the pre-stretch data,
/// they determine the shadows and midtone for *any* `(bg_percent, sigma)`,
/// which is what lets a GPU display path recompute the stretch per slider
/// change without touching the pixels again.
#[derive(Debug, PartialEq)]
pub struct MtfStats<T> {
    /// Median of the valid samples.
    pub median: T,
    /// Lower quartile of the valid samples.
    pub p25: T,
    /// Median absolute deviation around the median.
    pub mad: T,
    /// Number of valid samples the statistics were computed from. 0 means the
    /// channel had no usable data and the stretch is a no-op.
    pub count: usize,
}

impl<T: Copy> Clone for MtfStats<T> {
    fn clone(&self) -> (r: Self)
        ensures
            r == *self,
    {
        *self
    }
}

impl<T: Copy> Copy for MtfStats<T> {

}

/// The scalar solution an MTF stretch applies to the pixels:
/// `v' = MTF(midtone, clamp((v - shadows[c]) * scale, 0, 1))`.
///
/// Produced by [`mtf_display_solution`]; the same values drive the CPU
/// pipeline and any external (e.g. GPU shader) implementation.
#[derive(Debug, PartialEq)]
pub struct MtfSolution<T> {
    /// Per-channel shadow offset (one entry for mono).
    pub shadows: Vec<T>,
    /// Common rescale applied after shadow subtraction.
    pub scale: T,
    /// Shared midtone balance parameter.
    pub midtone: T,
}

impl<T: Copy> Clone for MtfSolution<T> {
    fn clone(&self) -> (r: Self)
        ensures
            r.shadows@ == self.shadows@,
            r.scale == self.scale,
            r.midtone == self.midtone,
    {
        MtfSolution {
            shadows: copied(self.shadows.as_slice()),
            scale: self.scale,
            midtone: self.midtone,
        }
    }
}

/// The flags tell the positive samples.
pub open spec fn are_positive<T, A: Arithmetic<T>>(
    ops: &A,
    data: Seq<T>,
    flags: Seq<bool>,
) -> bool {
    &&& flags.len() == data.len()
    &&& forall|i: int|
        0 <= i < data.len() ==> decides(
            ops,
            Test::Less,
            whole(0),
            Formula::Given(data[i]),
            #[trigger] flags[i],
        )
}

/// `r` tells whether `v` lies strictly between 0 and 1.
pub open spec fn is_inside<T, A: Arithmetic<T>>(ops: &A, v: T, r: bool) -> bool {
    exists|positive: bool| #[trigger]
        decides(ops, Test::Less, whole(0), Formula::Given(v), positive) && if positive {
            decides(ops, Test::Less, Formula::Given(v), whole(1), r)
        } else {
            !r
        }
}

/// The flags tell the samples strictly between 0 and 1.
pub open spec fn are_inside<T, A: Arithmetic<T>>(ops: &A, data: Seq<T>, flags: Seq<bool>) -> bool {
    &&& flags.len() == data.len()
    &&& forall|i: int| 0 <= i < data.len() ==> is_inside(ops, data[i], #[trigger] flags[i])
}

/// The distance of a sample from `center`.
pub open spec fn deviation<T>(center: T) -> spec_fn(T) -> Formula<T> {
    |v: T| Formula::Given(v).minus(Formula::Given(center)).abs()
}

/// `stats` are the lower quartile, the median, the median absolute deviation
/// and the number of the samples.
pub open spec fn are_stats_by<T, A: Arithmetic<T>>(
    ops: &A,
    valid: Seq<T>,
    quarter: T,
    half: T,
    deviations: Seq<T>,
    stats: MtfStats<T>,
) -> bool {
    &&& evals(ops, whole(25), quarter)
    &&& evals(ops, whole(50), half)
    &&& are_percentiles(ops, valid, quarter, half, stats.p25, stats.median)
    &&& maps(ops, deviation(stats.median), valid, deviations)
    &&& is_median(ops, deviations, stats.mad)
    &&& stats.count == valid.len()
}

/// `stats` are the statistics of one or more samples.
pub open spec fn are_stats<T, A: Arithmetic<T>>(
    ops: &A,
    valid: Seq<T>,
    stats: MtfStats<T>,
) -> bool {
    exists|quarter: T, half: T, deviations: Seq<T>| #[trigger]
        are_stats_by(ops, valid, quarter, half, deviations, stats)
}

/// `stats` differs from `raw` in its deviation alone, which is at least 1e-6.
pub open spec fn is_floored<T, A: Arithmetic<T>>(
    ops: &A,
    raw: MtfStats<T>,
    stats: MtfStats<T>,
) -> bool {
    &&& stats.median == raw.median
    &&& stats.p25 == raw.p25
    &&& stats.count == raw.count
    &&& evals(ops, Formula::Given(raw.mad).most(Formula::Ratio(1, 1_000_000)), stats.mad)
}

/// The statistics of the positive samples for the linked path: deviation
/// floored at 1e-6, and `{0, 0, 0.01}` where there is no positive sample.
pub open spec fn are_linked_stats<T, A: Arithmetic<T>>(
    ops: &A,
    data: Seq<T>,
    stats: MtfStats<T>,
) -> bool {
    exists|flags: Seq<bool>| #[trigger]
        are_positive(ops, data, flags) && if picked(data, flags).len() == 0 {
            &&& evals(ops, whole(0), stats.median)
            &&& evals(ops, whole(0), stats.p25)
            &&& evals(ops, Formula::Ratio(1, 100), stats.mad)
            &&& stats.count == 0
        } else {
            exists|raw: MtfStats<T>| #[trigger]
                are_stats(ops, picked(data, flags), raw) && is_floored(ops, raw, stats)
        }
}

/// The statistics of the samples strictly between 0 and 1 for the
/// single-channel path; zeros where there is none.
pub open spec fn are_channel_stats<T, A: Arithmetic<T>>(
    ops: &A,
    data: Seq<T>,
    stats: MtfStats<T>,
) -> bool {
    exists|flags: Seq<bool>| #[trigger]
        are_inside(ops, data, flags) && if picked(data, flags).len() == 0 {
            &&& evals(ops, whole(0), stats.median)
            &&& evals(ops, whole(0), stats.p25)
            &&& evals(ops, whole(0), stats.mad)
            &&& stats.count == 0
        } else {
            are_stats(ops, picked(data, flags), stats)
        }
}

/// The positive samples.
fn positives<T: Sample, A: Arithmetic<T>>(ops: &A, data: &[T]) -> (r: (Vec<T>, Ghost<Seq<bool>>))
    ensures
        are_positive(ops, data@, r.1@),
        r.0@ == picked(data@, r.1@),
{
    let mut flags: Vec<bool> = Vec::with_capacity(data.len());
    let zero = Traced::whole(ops, 0);
    let mut i: usize = 0;
    while i < data.len()
        invariant
            i <= data@.len(),
            zero.holds(ops),
            zero.formula@ == whole::<T>(0),
            flags@.len() == i,
            forall|k: int|
                0 <= k < i ==> decides(
                    ops,
                    Test::Less,
                    whole(0),
                    Formula::Given(data@[k]),
                    #[trigger] flags@[k],
                ),
        decreases data@.len() - i,
    {
        flags.push(zero.test(ops, Test::Less, Traced::given(ops, data[i])));
        i += 1;
    }
    (pick(data, flags.as_slice()), Ghost(flags@))
}

/// Whether a sample lies strictly between 0 and 1.
fn inside<T: Sample, A: Arithmetic<T>>(ops: &A, v: T) -> (r: bool)
    ensures
        is_inside(ops, v, r),
{
    let value = Traced::given(ops, v);
    let positive = Traced::whole(ops, 0).test(ops, Test::Less, value);
    if positive {
        value.test(ops, Test::Less, Traced::whole(ops, 1))
    } else {
        false
    }
}

/// The distance of a sample from the center.
fn deviate<T: Sample, A: Arithmetic<T>>(ops: &A, center: T, v: T) -> (r: T)
    ensures
        evals(ops, deviation(center)(v), r),
{
    Traced::given(ops, v).minus(ops, Traced::given(ops, center)).apply(ops, Unary::Abs).value
}

/// The statistics of the pre-filtered samples, or `None` if there are none.
fn stats_from_valid<T: Sample, A: Arithmetic<T>>(ops: &A, valid: &[T]) -> (r: Option<MtfStats<T>>)
    ensures
        match r {
            Some(stats) => valid@.len() > 0 && are_stats(ops, valid@, stats),
            None => valid@.len() == 0,
        },
{
    let count = valid.len();
    if count == 0 {
        return None;
    }
    let quarter = ops.ratio(25, 1);
    let half = ops.ratio(50, 1);
    let (p25, median) = percentile_pair(ops, valid, quarter, half);
    let f = |v: T| -> (r: T)
        ensures
            evals(ops, deviation(median)(v), r),
    {
        deviate(ops, median, v)
    };
    let deviations = map_plane(valid, &f);
    let mad = median_of(ops, deviations.as_slice());
    let stats = MtfStats { median, p25, mad, count };
    assert(are_stats_by(ops, valid@, quarter, half, deviations@, stats));
    Some(stats)
}

/// Statistics for the linked (color) MTF path: positive samples only, MAD
/// floored at 1e-6. A channel with no positive samples reports
/// `{median: 0, p25: 0, mad: 0.01, count: 0}`.
pub fn mtf_stats_linked<T: Sample, A: Arithmetic<T>>(ops: &A, data: &[T]) -> (stats: MtfStats<T>)
    ensures
        are_linked_stats(ops, data@, stats),
{
    let (valid, flags) = positives(ops, data);
    match stats_from_valid(ops, valid.as_slice()) {
        Some(raw) => {
            let mad = Traced::given(ops, raw.mad).with(
                ops,
                Binary::Most,
                Traced::ratio(ops, 1, 1_000_000),
            ).value;
            let stats = MtfStats { median: raw.median, p25: raw.p25, mad, count: raw.count };
            assert(is_floored(ops, raw, stats));
            stats
        },
        None => MtfStats {
            median: ops.ratio(0, 1),
            p25: ops.ratio(0, 1),
            mad: ops.ratio(1, 100),
            count: 0,
        },
    }
}

/// Statistics for the per-channel (mono/unlinked) MTF path: samples in (0, 1)
/// exclusive, no MAD floor. `count == 0` means the stretch is a no-op for this
/// channel.
pub fn mtf_stats_channel<T: Sample, A: Arithmetic<T>>(ops: &A, data: &[T]) -> (stats: MtfStats<T>)
    ensures
        are_channel_stats(ops, data@, stats),
{
    let mut flags: Vec<bool> = Vec::with_capacity(data.len());
    let mut i: usize = 0;
    while i < data.len()
        invariant
            i <= data@.len(),
            flags@.len() == i,
            forall|k: int| 0 <= k < i ==> is_inside(ops, data@[k], #[trigger] flags@[k]),
        decreases data@.len() - i,
    {
        flags.push(inside(ops, data[i]));
        i += 1;
    }
    assert(are_inside(ops, data@, flags@));
    let valid = pick(data, flags.as_slice());
    match stats_from_valid(ops, valid.as_slice()) {
        Some(stats) => stats,
        None => MtfStats {
            median: ops.ratio(0, 1),
            p25: ops.ratio(0, 1),
            mad: ops.ratio(0, 1),
            count: 0,
        },
    }
}

/// The midtone balance that moves `median` to `bg_percent`, limited to
/// [0.0001, 0.9999].
pub open spec fn balance<T>(median: T, bg_percent: T) -> Formula<T> {
    let m = Formula::Given(median);
    let bg = Formula::Given(bg_percent);
    m.times(bg.minus(whole(1))).over(whole(2).times(bg).times(m).minus(bg).minus(m)).clamp(
        Formula::Ratio(1, 10_000),
        Formula::Ratio(9_999, 10_000),
    )
}

/// `midtone` is the balance that lands a background at `median` on
/// `bg_percent`; one half where the median is not strictly between 0 and 1 or
/// the target is not positive.
pub open spec fn is_midtone<T, A: Arithmetic<T>>(
    ops: &A,
    median: T,
    bg_percent: T,
    midtone: T,
) -> bool {
    exists|between: bool, lit: bool|
        is_inside(ops, median, between) && #[trigger] is_lit(ops, between, bg_percent, lit) && if lit {
            evals(ops, balance(median, bg_percent), midtone)
        } else {
            evals(ops, Formula::Ratio(1, 2), midtone)
        }
}

/// `lit` tells whether the median lies between 0 and 1 and the target is
/// positive.
pub open spec fn is_lit<T, A: Arithmetic<T>>(
    ops: &A,
    between: bool,
    bg_percent: T,
    lit: bool,
) -> bool {
    if between {
        decides(ops, Test::Less, whole(0), Formula::Given(bg_percent), lit)
    } else {
        !lit
    }
}

/// Midtone balance that lands a background at `median` on `bg_percent`.
fn midtone_for_background<T: Sample, A: Arithmetic<T>>(
    ops: &A,
    median: T,
    bg_percent: T,
) -> (midtone: T)
    ensures
        is_midtone(ops, median, bg_percent, midtone),
{
    let between = inside(ops, median);
    let bg = Traced::given(ops, bg_percent);
    let lit = if between {
        Traced::whole(ops, 0).test(ops, Test::Less, bg)
    } else {
        false
    };
    assert(is_lit(ops, between, bg_percent, lit));
    if lit {
        let m = Traced::given(ops, median);
        let above = m.times(ops, bg.minus(ops, Traced::whole(ops, 1)));
        let twice = Traced::whole(ops, 2).times(ops, bg).times(ops, m);
        let below = twice.minus(ops, bg).minus(ops, m);
        above.over(ops, below).clamp(
            ops,
            Traced::ratio(ops, 1, 10_000),
            Traced::ratio(ops, 9_999, 10_000),
        ).value
    } else {
        Traced::ratio(ops, 1, 2).value
    }
}

/// A sample with the shadow subtracted and rescaled, limited to the unit range.
pub open spec fn shadowed<T>(shadow: T, scale: T) -> spec_fn(T) -> Formula<T> {
    |v: T| Formula::Given(v).minus(Formula::Given(shadow)).times(Formula::Given(scale)).unit()
}

/// The smallest residual of the first `n` channels, infinite for none: the
/// distance from the lower quartile to the median, and `sigma` deviations.
pub open spec fn residual_of<T>(stats: Seq<MtfStats<T>>, k: T, n: int) -> Formula<T>
    decreases n,
{
    if n <= 0 {
        Formula::Infinity
    } else {
        let s = stats[n - 1];
        residual_of(stats, k, n - 1).least(
            Formula::Given(s.median).minus(Formula::Given(s.p25)).plus(
                Formula::Given(k).times(Formula::Given(s.mad)),
            ),
        )
    }
}

/// The shadows that land every channel's median at the same residual level.
pub open spec fn are_shadows<T, A: Arithmetic<T>>(
    ops: &A,
    stats: Seq<MtfStats<T>>,
    residual: T,
    shadows: Seq<T>,
) -> bool {
    &&& shadows.len() == stats.len()
    &&& forall|c: int|
        0 <= c < shadows.len() ==> evals(
            ops,
            Formula::Given(stats[c].median).minus(Formula::Given(residual)).most(whole(0)),
            #[trigger] shadows[c],
        )
}

/// The channel that the shared midtone comes from: green.
pub open spec fn reference_channel(n: int) -> int {
    if n >= 2 {
        1
    } else {
        0
    }
}

/// The linked statistics of every channel.
pub open spec fn are_all_linked_stats<T, A: Arithmetic<T>>(
    ops: &A,
    planes: Seq<Seq<T>>,
    stats: Seq<MtfStats<T>>,
) -> bool {
    &&& stats.len() == planes.len()
    &&& forall|c: int|
        0 <= c < stats.len() ==> are_linked_stats(ops, planes[c], #[trigger] stats[c])
}

/// `median` is the median of the samples of a plane that stay positive after
/// the shadow is subtracted.
pub open spec fn is_lit_median<T, A: Arithmetic<T>>(
    ops: &A,
    plane: Seq<T>,
    shadow: T,
    scale: T,
    mapped: Seq<T>,
    flags: Seq<bool>,
    median: T,
) -> bool {
    &&& maps(ops, shadowed(shadow, scale), plane, mapped)
    &&& are_positive(ops, mapped, flags)
    &&& is_median(ops, picked(mapped, flags), median)
}

/// The linked solution, by these statistics and intermediate values.
pub open spec fn is_linked_solution_by<T, A: Arithmetic<T>>(
    ops: &A,
    planes: Seq<Seq<T>>,
    bg_percent: T,
    sigma: T,
    stats: Seq<MtfStats<T>>,
    k: T,
    residual: T,
    mapped: Seq<T>,
    flags: Seq<bool>,
    median: T,
    shadows: Seq<T>,
    scale: T,
    midtone: T,
) -> bool {
    let n = planes.len() as int;
    let green = reference_channel(n);
    &&& are_all_linked_stats(ops, planes, stats)
    &&& evals(ops, Formula::Given(sigma).times(Formula::Ratio(14_826, 10_000)), k)
    &&& evals(ops, residual_of(stats, k, n), residual)
    &&& are_shadows(ops, stats, residual, shadows)
    &&& evals(
        ops,
        whole(1).over(whole(1).minus(largest_of(shadows, n)).most(Formula::Ratio(1, 1_000_000))),
        scale,
    )
    &&& is_lit_median(ops, planes[green], shadows[green], scale, mapped, flags, median)
    &&& is_midtone(ops, median, bg_percent, midtone)
}

/// The solution that the linked stretch applies to the channels: shadow
/// offsets that make the sky neutral, one common rescale, and the midtone of
/// the green channel.
pub open spec fn is_linked_solution<T, A: Arithmetic<T>>(
    ops: &A,
    planes: Seq<Seq<T>>,
    bg_percent: T,
    sigma: T,
    shadows: Seq<T>,
    scale: T,
    midtone: T,
) -> bool {
    exists|
        stats: Seq<MtfStats<T>>,
        k: T,
        residual: T,
        mapped: Seq<T>,
        flags: Seq<bool>,
        median: T,
    | #[trigger]
        is_linked_solution_by(
            ops,
            planes,
            bg_percent,
            sigma,
            stats,
            k,
            residual,
            mapped,
            flags,
            median,
            shadows,
            scale,
            midtone,
        )
}

/// The single-channel solution, by these statistics and intermediate values.
pub open spec fn is_channel_solution_by<T, A: Arithmetic<T>>(
    ops: &A,
    plane: Seq<T>,
    bg_percent: T,
    sigma: T,
    stats: MtfStats<T>,
    range: T,
    median: T,
    shadow: T,
    scale: T,
    midtone: T,
) -> bool {
    &&& are_channel_stats(ops, plane, stats)
    &&& if stats.count == 0 {
        &&& evals(ops, whole(0), shadow)
        &&& evals(ops, whole(1), scale)
        &&& evals(ops, Formula::Ratio(1, 2), midtone)
    } else {
        &&& evals(
            ops,
            Formula::Given(stats.p25).minus(
                Formula::Given(sigma).times(Formula::Given(stats.mad)).times(
                    Formula::Ratio(14_826, 10_000),
                ),
            ).most(whole(0)),
            shadow,
        )
        &&& evals(ops, whole(1).minus(Formula::Given(shadow)), range)
        &&& evals(
            ops,
            Formula::Given(stats.median).minus(Formula::Given(shadow)).over(
                Formula::Given(range),
            ),
            median,
        )
        &&& evals(ops, whole(1).over(Formula::Given(range)), scale)
        &&& is_midtone(ops, median, bg_percent, midtone)
    }
}

/// The solution that the stretch of an independent channel applies: the shadow
/// clip below the lower quartile, the rescale, and the midtone; the identity
/// where the channel has no valid sample.
pub open spec fn is_channel_solution<T, A: Arithmetic<T>>(
    ops: &A,
    plane: Seq<T>,
    bg_percent: T,
    sigma: T,
    shadow: T,
    scale: T,
    midtone: T,
) -> bool {
    exists|stats: MtfStats<T>, range: T, median: T| #[trigger]
        is_channel_solution_by(
            ops,
            plane,
            bg_percent,
            sigma,
            stats,
            range,
            median,
            shadow,
            scale,
            midtone,
        )
}

/// The solution for a whole image: the linked one for color, the
/// single-channel one for mono.
pub open spec fn is_display_solution<T, A: Arithmetic<T>>(
    ops: &A,
    image: Raster<T>,
    bg_percent: T,
    sigma: T,
    solution: MtfSolution<T>,
) -> bool {
    &&& solution.shadows@.len() == image.planes.len()
    &&& if image.planes.len() == 3 {
        is_linked_solution(
            ops,
            image.planes,
            bg_percent,
            sigma,
            solution.shadows@,
            solution.scale,
            solution.midtone,
        )
    } else {
        is_channel_solution(
            ops,
            image.planes[0],
            bg_percent,
            sigma,
            solution.shadows@[0],
            solution.scale,
            solution.midtone,
        )
    }
}

/// One sample with the shadow subtracted.
fn shade<T: Sample, A: Arithmetic<T>>(ops: &A, shadow: T, scale: T, v: T) -> (r: T)
    ensures
        evals(ops, shadowed(shadow, scale)(v), r),
{
    let rest = Traced::given(ops, v).minus(ops, Traced::given(ops, shadow));
    rest.times(ops, Traced::given(ops, scale)).unit(ops).value
}

/// `v' = clamp((v - shadow) * scale, 0, 1)`: the pre-MTF linear map.
fn apply_shadow_scale<T: Sample, A: Arithmetic<T>>(
    ops: &A,
    data: &[T],
    shadow: T,
    scale: T,
) -> (out: Vec<T>)
    ensures
        maps(ops, shadowed(shadow, scale), data@, out@),
{
    let f = |v: T| -> (r: T)
        ensures
            evals(ops, shadowed(shadow, scale)(v), r),
    {
        shade(ops, shadow, scale, v)
    };
    map_plane(data, &f)
}

/// The smallest residual across the channels.
fn smallest_residual<T: Sample, A: Arithmetic<T>>(
    ops: &A,
    stats: &Vec<MtfStats<T>>,
    k: T,
) -> (r: T)
    ensures
        evals(ops, residual_of(stats@, k, stats@.len() as int), r),
{
    let mut acc = Traced::infinity(ops);
    let mut c: usize = 0;
    while c < stats.len()
        invariant
            c <= stats@.len(),
            acc.holds(ops),
            acc.formula@ == residual_of(stats@, k, c as int),
        decreases stats@.len() - c,
    {
        let s = stats[c];
        let rise = Traced::given(ops, s.median).minus(ops, Traced::given(ops, s.p25));
        let noise = Traced::given(ops, k).times(ops, Traced::given(ops, s.mad));
        acc = acc.with(ops, Binary::Least, rise.plus(ops, noise));
        c += 1;
    }
    acc.value
}

/// Solution for the linked path: offsets that flatten the sky cast while
/// leaving channel ratios (color) intact.
///
/// The neutralization is offset-only on purpose. The medians left after the
/// subtraction are set by per-channel *noise* width, so rescaling channels to
/// equalize them would rebalance real signal by noise ratios.
fn mtf_linked_solution<T: Sample, A: Arithmetic<T>>(
    ops: &A,
    channels: &[Vec<T>],
    bg_percent: T,
    sigma: T,
) -> (solution: MtfSolution<T>)
    requires
        channels@.len() >= 1,
    ensures
        solution.shadows@.len() == channels@.len(),
        is_linked_solution(
            ops,
            views(channels@),
            bg_percent,
            sigma,
            solution.shadows@,
            solution.scale,
            solution.midtone,
        ),
{
    let ghost planes = views(channels@);

    // Step 1: Per-channel statistics
    let of_channel = |c: usize| -> (r: MtfStats<T>)
        requires
            c < channels@.len(),
        ensures
            are_linked_stats(ops, channels@[c as int]@, r),
    {
        mtf_stats_linked(ops, channels[c].as_slice())
    };
    let stats = par_map(channels.len(), of_channel);
    assert(are_all_linked_stats(ops, planes, stats@));

    // Step 2: Shadow offsets that land every channel's median at the same
    // residual level, so the sky comes out neutral. The residual is
    // quartile-anchored rather than median-anchored, so frame-filling glow
    // (galaxies, large nebulae) inflates it and survives the clip instead of
    // being subtracted as "background"
    let k = Traced::given(ops, sigma).times(ops, Traced::ratio(ops, 14_826, 10_000)).value;
    let residual = smallest_residual(ops, &stats, k);
    let mut shadows: Vec<T> = Vec::with_capacity(stats.len());
    let mut c: usize = 0;
    while c < stats.len()
        invariant
            c <= stats@.len(),
            shadows@.len() == c,
            forall|j: int|
                0 <= j < c ==> evals(
                    ops,
                    Formula::Given(stats@[j].median).minus(Formula::Given(residual)).most(
                        whole(0),
                    ),
                    #[trigger] shadows@[j],
                ),
        decreases stats@.len() - c,
    {
        let above = Traced::given(ops, stats[c].median).minus(ops, Traced::given(ops, residual));
        shadows.push(above.with(ops, Binary::Most, Traced::whole(ops, 0)).value);
        c += 1;
    }
    assert(are_shadows(ops, stats@, residual, shadows@));

    // Step 3: One common rescale after shadow subtraction so the channels keep
    // their relative scale
    let one = Traced::whole(ops, 1);
    let left = one.minus(ops, largest(ops, shadows.as_slice()));
    let scale = one.over(ops, left.with(ops, Binary::Most, Traced::ratio(ops, 1, 1_000_000))).value;

    // Step 4: Shared midtone from the reference channel (green), as it looks
    // after shadow subtraction
    let green: usize = if channels.len() >= 2 {
        1
    } else {
        0
    };
    let mapped = apply_shadow_scale(ops, channels[green].as_slice(), shadows[green], scale);
    let (lit, flags) = positives(ops, mapped.as_slice());
    let median = median_of(ops, lit.as_slice());
    let midtone = midtone_for_background(ops, median, bg_percent);
    assert(is_linked_solution_by(
        ops,
        planes,
        bg_percent,
        sigma,
        stats@,
        k,
        residual,
        mapped@,
        flags@,
        median,
        shadows@,
        scale,
        midtone,
    ));
    MtfSolution { shadows, scale, midtone }
}

/// Solution for one independent channel. A channel with no valid samples gets
/// the identity solution (shadow 0, scale 1, midtone 0.5: MTF at 0.5 is the
/// identity map).
fn mtf_channel_solution<T: Sample, A: Arithmetic<T>>(
    ops: &A,
    data: &[T],
    bg_percent: T,
    sigma: T,
) -> (solution: MtfSolution<T>)
    ensures
        solution.shadows@.len() == 1,
        is_channel_solution(
            ops,
            data@,
            bg_percent,
            sigma,
            solution.shadows@[0],
            solution.scale,
            solution.midtone,
        ),
{
    let stats = mtf_stats_channel(ops, data);
    let mut shadows: Vec<T> = Vec::new();
    if stats.count == 0 {
        let shadow = ops.ratio(0, 1);
        let scale = ops.ratio(1, 1);
        let midtone = ops.ratio(1, 2);
        shadows.push(shadow);
        assert(is_channel_solution_by(
            ops,
            data@,
            bg_percent,
            sigma,
            stats,
            shadow,
            shadow,
            shadow,
            scale,
            midtone,
        ));
        return MtfSolution { shadows, scale, midtone };
    }
    // Lower-quartile anchor: see mtf_linked_solution for why not the median
    let noise = Traced::given(ops, sigma).times(ops, Traced::given(ops, stats.mad)).times(
        ops,
        Traced::ratio(ops, 14_826, 10_000),
    );
    let anchor = Traced::given(ops, stats.p25).minus(ops, noise);
    let shadow = anchor.with(ops, Binary::Most, Traced::whole(ops, 0)).value;
    let range = Traced::whole(ops, 1).minus(ops, Traced::given(ops, shadow)).value;

    // Midtone balance that lands the background at bg_percent
    let rest = Traced::given(ops, stats.median).minus(ops, Traced::given(ops, shadow));
    let median = rest.over(ops, Traced::given(ops, range)).value;
    let scale = Traced::whole(ops, 1).over(ops, Traced::given(ops, range)).value;
    let midtone = midtone_for_background(ops, median, bg_percent);
    shadows.push(shadow);
    assert(is_channel_solution_by(
        ops,
        data@,
        bg_percent,
        sigma,
        stats,
        range,
        median,
        shadow,
        scale,
        midtone,
    ));
    MtfSolution { shadows, scale, midtone }
}

/// Compute the MTF solution the pipeline would apply to this pre-stretch
/// image: the linked solution for color, the single-channel solution for mono.
/// The input must already be normalized to [0, 1] (the output of
/// [`crate::pipeline::prepare`]).
///
/// Applying `MTF(midtone, clamp((v - shadows[c]) * scale, 0, 1))` per pixel
/// reproduces `StretchAlgorithm::Mtf { linked: true, .. }` exactly.
pub fn mtf_display_solution<T: Sample, A: Arithmetic<T>>(
    ops: &A,
    image: &Image<T>,
    bg_percent: T,
    sigma: T,
) -> (solution: MtfSolution<T>)
    requires
        image@.wf(),
    ensures
        is_display_solution(ops, image@, bg_percent, sigma, solution),
{
    if image.is_color() {
        mtf_linked_solution(ops, image.channels(), bg_percent, sigma)
    } else {
        mtf_channel_solution(ops, image.channel(0), bg_percent, sigma)
    }
}

/// The midtones transfer function `MTF(m, x) = (m - 1) * x / ((2m - 1) * x - m)`
/// in the unit range; `x` itself where the denominator vanishes.
pub open spec fn toned<T>(m: T) -> spec_fn(T) -> Formula<T> {
    |x: T|
        {
            let denominator = whole(2).times(Formula::Given(m)).minus(whole(1)).times(
                Formula::Given(x),
            ).minus(Formula::Given(m));
            Formula::select(
                Test::Less,
                denominator.abs(),
                Formula::Ratio(1, 10_000_000_000),
                Formula::Given(x),
                Formula::Given(m).minus(whole(1)).times(Formula::Given(x)).over(denominator).unit(),
            )
        }
}

/// The midtones transfer function at one sample.
fn tone<T: Sample, A: Arithmetic<T>>(ops: &A, m: T, x: T) -> (r: T)
    ensures
        evals(ops, toned(m)(x), r),
{
    let given = Traced::given(ops, x);
    let mid = Traced::given(ops, m);
    let one = Traced::whole(ops, 1);
    let slope = Traced::whole(ops, 2).times(ops, mid).minus(ops, one);
    let denominator = slope.times(ops, given).minus(ops, mid);
    let size = denominator.apply(ops, Unary::Abs);
    let least = Traced::ratio(ops, 1, 10_000_000_000);
    let vanishes = size.test(ops, Test::Less, least);
    let curve = mid.minus(ops, one).times(ops, given).over(ops, denominator).unit(ops);
    let r = if vanishes {
        x
    } else {
        curve.value
    };
    proof {
        lemma_select(
            ops,
            Test::Less,
            size.formula@,
            least.formula@,
            vanishes,
            given.formula@,
            curve.formula@,
            r,
        );
    }
    r
}

/// Applies the midtones transfer function to a plane.
fn apply_mtf<T: Sample, A: Arithmetic<T>>(ops: &A, data: &[T], m: T) -> (out: Vec<T>)
    ensures
        maps(ops, toned(m), data@, out@),
{
    let f = |v: T| -> (r: T)
        ensures
            evals(ops, toned(m)(v), r),
    {
        tone(ops, m, v)
    };
    map_plane(data, &f)
}

/// `out` is a plane with a solution applied: the shadow subtracted, then the
/// midtones transfer function.
pub open spec fn applies_solution<T, A: Arithmetic<T>>(
    ops: &A,
    plane: Seq<T>,
    shadow: T,
    scale: T,
    midtone: T,
    out: Seq<T>,
) -> bool {
    exists|mid: Seq<T>| #[trigger]
        maps(ops, shadowed(shadow, scale), plane, mid) && maps(ops, toned(midtone), mid, out)
}

/// Applies a solution to a plane.
fn apply_solution<T: Sample, A: Arithmetic<T>>(
    ops: &A,
    plane: &[T],
    shadow: T,
    scale: T,
    midtone: T,
) -> (out: Vec<T>)
    ensures
        out@.len() == plane@.len(),
        applies_solution(ops, plane@, shadow, scale, midtone, out@),
{
    let mid = apply_shadow_scale(ops, plane, shadow, scale);
    apply_mtf(ops, mid.as_slice(), midtone)
}

/// Every channel of `out` is the channel of `image` with the solution applied.
pub open spec fn applies_to_image<T, A: Arithmetic<T>>(
    ops: &A,
    image: Raster<T>,
    shadows: Seq<T>,
    scale: T,
    midtone: T,
    out: Raster<T>,
) -> bool {
    &&& out.same_shape(image)
    &&& forall|c: int|
        0 <= c < out.planes.len() ==> applies_solution(
            ops,
            image.planes[c],
            shadows[c],
            scale,
            midtone,
            #[trigger] out.planes[c],
        )
}

/// `out` is a channel stretched by its own solution.
pub open spec fn is_stretched_channel<T, A: Arithmetic<T>>(
    ops: &A,
    bg_percent: T,
    sigma: T,
    plane: Seq<T>,
    out: Seq<T>,
) -> bool {
    exists|shadow: T, scale: T, midtone: T| #[trigger]
        is_channel_solution(ops, plane, bg_percent, sigma, shadow, scale, midtone)
            && applies_solution(ops, plane, shadow, scale, midtone, out)
}

/// `out` is the image under the MTF stretch: by one linked solution for color,
/// channel by channel otherwise.
pub open spec fn is_mtf_stretched<T, A: Arithmetic<T>>(
    ops: &A,
    bg_percent: T,
    sigma: T,
    linked: bool,
    image: Raster<T>,
    out: Raster<T>,
) -> bool {
    if linked && image.planes.len() == 3 {
        exists|shadows: Seq<T>, scale: T, midtone: T| #[trigger]
            is_linked_solution(ops, image.planes, bg_percent, sigma, shadows, scale, midtone)
                && shadows.len() == 3 && applies_to_image(
                ops,
                image,
                shadows,
                scale,
                midtone,
                out,
            )
    } else {
        &&& out.same_shape(image)
        &&& forall|c: int|
            0 <= c < out.planes.len() ==> is_stretched_channel(
                ops,
                bg_percent,
                sigma,
                image.planes[c],
                #[trigger] out.planes[c],
            )
    }
}

/// Linked RGB mode: subtract each channel's background level (offset
/// neutralization), then apply the same stretch to every channel.
fn stretch_mtf_linked<T: Sample, A: Arithmetic<T>>(
    ops: &A,
    image: &Image<T>,
    bg_percent: T,
    sigma: T,
) -> (out: Image<T>)
    requires
        image@.wf(),
        image@.planes.len() == 3,
    ensures
        out@.wf(),
        is_mtf_stretched(ops, bg_percent, sigma, true, image@, out@),
{
    let w = image.width();
    let h = image.height();
    let solution = mtf_linked_solution(ops, image.channels(), bg_percent, sigma);
    let mut channels: Vec<Vec<T>> = Vec::new();
    let mut c: usize = 0;
    while c < image.num_channels()
        invariant
            image@.wf(),
            image@.planes.len() == 3,
            solution.shadows@.len() == 3,
            w == image@.width,
            h == image@.height,
            c <= image@.planes.len(),
            channels@.len() == c,
            forall|k: int| 0 <= k < c ==> (#[trigger] channels@[k])@.len() == w * h,
            forall|k: int|
                0 <= k < c ==> applies_solution(
                    ops,
                    image@.planes[k],
                    solution.shadows@[k],
                    solution.scale,
                    solution.midtone,
                    (#[trigger] channels@[k])@,
                ),
        decreases image@.planes.len() - c,
    {
        channels.push(
            apply_solution(
                ops,
                image.channel(c),
                solution.shadows[c],
                solution.scale,
                solution.midtone,
            ),
        );
        c += 1;
    }
    let out = Image::from_channels(w, h, channels);
    assert forall|k: int| 0 <= k < out@.planes.len() implies applies_solution(
        ops,
        image@.planes[k],
        solution.shadows@[k],
        solution.scale,
        solution.midtone,
        #[trigger] out@.planes[k],
    ) by {
        assert(out@.planes[k] == channels@[k]@);
    }
    assert(applies_to_image(
        ops,
        image@,
        solution.shadows@,
        solution.scale,
        solution.midtone,
        out@,
    ));
    out
}

/// Unlinked mode (or grayscale): stretch one channel independently.
fn stretch_mtf_channel<T: Sample, A: Arithmetic<T>>(
    ops: &A,
    data: &[T],
    bg_percent: T,
    sigma: T,
) -> (out: Vec<T>)
    ensures
        out@.len() == data@.len(),
        is_stretched_channel(ops, bg_percent, sigma, data@, out@),
{
    let solution = mtf_channel_solution(ops, data, bg_percent, sigma);
    apply_solution(ops, data, solution.shadows[0], solution.scale, solution.midtone)
}

/// Midtones transfer function stretch.
fn stretch_mtf<T: Sample, A: Arithmetic<T>>(
    ops: &A,
    image: &Image<T>,
    bg_percent: T,
    sigma: T,
    linked: bool,
) -> (out: Image<T>)
    requires
        image@.wf(),
    ensures
        out@.wf(),
        is_mtf_stretched(ops, bg_percent, sigma, linked, image@, out@),
{
    if linked && image.is_color() {
        return stretch_mtf_linked(ops, image, bg_percent, sigma);
    }
    let w = image.width();
    let h = image.height();
    let of_channel = |c: usize| -> (r: Vec<T>)
        requires
            image@.wf(),
            c < image@.planes.len(),
        ensures
            r@.len() == image@.width * image@.height,
            is_stretched_channel(ops, bg_percent, sigma, image@.planes[c as int], r@),
    {
        stretch_mtf_channel(ops, image.channel(c), bg_percent, sigma)
    };
    let channels = par_map(image.num_channels(), of_channel);
    let out = Image::from_channels(w, h, channels);
    assert forall|c: int| 0 <= c < out@.planes.len() implies is_stretched_channel(
        ops,
        bg_percent,
        sigma,
        image@.planes[c],
        #[trigger] out@.planes[c],
    ) by {
        assert(out@.planes[c] == channels@[c]@);
    }
    out
}

// ---------------------------------------------------------------------------
// Arcsinh stretch
// ---------------------------------------------------------------------------

/// A sample under the inverse hyperbolic sine.
pub open spec fn arcsinh_of<T>(scale: T, denominator: T) -> spec_fn(T) -> Formula<T> {
    |v: T|
        Formula::Given(v).times(Formula::Given(scale)).apply(Unary::Asinh).over(
            Formula::Given(denominator),
        ).unit()
}

/// `out` is the image under the arcsinh stretch.
pub open spec fn is_arcsinh_stretched<T, A: Arithmetic<T>>(
    ops: &A,
    factor: T,
    image: Raster<T>,
    out: Raster<T>,
) -> bool {
    exists|scale: T, denominator: T|
        evals(ops, whole(1).over(Formula::Given(factor)), scale) && evals(
            ops,
            Formula::Given(scale).apply(Unary::Asinh),
            denominator,
        ) && #[trigger] maps_image(ops, arcsinh_of(scale, denominator), image, out)
}

/// One sample under the inverse hyperbolic sine.
fn arcsinh<T: Sample, A: Arithmetic<T>>(ops: &A, scale: T, denominator: T, v: T) -> (r: T)
    ensures
        evals(ops, arcsinh_of(scale, denominator)(v), r),
{
    let bent = Traced::given(ops, v).times(ops, Traced::given(ops, scale)).apply(
        ops,
        Unary::Asinh,
    );
    bent.over(ops, Traced::given(ops, denominator)).unit(ops).value
}

/// Inverse hyperbolic sine stretch.
fn stretch_arcsinh<T: Sample, A: Arithmetic<T>>(
    ops: &A,
    image: &Image<T>,
    factor: T,
) -> (out: Image<T>)
    requires
        image@.wf(),
    ensures
        out@.wf(),
        is_arcsinh_stretched(ops, factor, image@, out@),
{
    let scale = Traced::whole(ops, 1).over(ops, Traced::given(ops, factor)).value;
    let denominator = Traced::given(ops, scale).apply(ops, Unary::Asinh).value;
    let f = |v: T| -> (r: T)
        ensures
            evals(ops, arcsinh_of(scale, denominator)(v), r),
    {
        arcsinh(ops, scale, denominator, v)
    };
    let out = map_image(image, &f);
    assert(maps_image(ops, arcsinh_of(scale, denominator), image@, out@));
    out
}

// ---------------------------------------------------------------------------
// Log stretch
// ---------------------------------------------------------------------------

/// A sample under the logarithm.
pub open spec fn log_of<T>(offset: T, denominator: T) -> spec_fn(T) -> Formula<T> {
    |v: T|
        Formula::Given(v).over(Formula::Given(offset)).apply(Unary::Ln1p).over(
            Formula::Given(denominator),
        ).unit()
}

/// `out` is the image under the logarithmic stretch.
pub open spec fn is_log_stretched<T, A: Arithmetic<T>>(
    ops: &A,
    factor: T,
    image: Raster<T>,
    out: Raster<T>,
) -> bool {
    exists|offset: T, denominator: T|
        evals(ops, Formula::Given(factor).times(Formula::Ratio(1, 100)), offset) && evals(
            ops,
            whole(1).over(Formula::Given(offset)).apply(Unary::Ln1p),
            denominator,
        ) && #[trigger] maps_image(ops, log_of(offset, denominator), image, out)
}

/// One sample under the logarithm.
fn log<T: Sample, A: Arithmetic<T>>(ops: &A, offset: T, denominator: T, v: T) -> (r: T)
    ensures
        evals(ops, log_of(offset, denominator)(v), r),
{
    let bent = Traced::given(ops, v).over(ops, Traced::given(ops, offset)).apply(ops, Unary::Ln1p);
    bent.over(ops, Traced::given(ops, denominator)).unit(ops).value
}

/// Logarithmic stretch.
fn stretch_log<T: Sample, A: Arithmetic<T>>(
    ops: &A,
    image: &Image<T>,
    factor: T,
) -> (out: Image<T>)
    requires
        image@.wf(),
    ensures
        out@.wf(),
        is_log_stretched(ops, factor, image@, out@),
{
    let offset = Traced::given(ops, factor).times(ops, Traced::ratio(ops, 1, 100)).value;
    let inverse = Traced::whole(ops, 1).over(ops, Traced::given(ops, offset));
    let denominator = inverse.apply(ops, Unary::Ln1p).value;
    let f = |v: T| -> (r: T)
        ensures
            evals(ops, log_of(offset, denominator)(v), r),
    {
        log(ops, offset, denominator, v)
    };
    let out = map_image(image, &f);
    assert(maps_image(ops, log_of(offset, denominator), image@, out@));
    out
}

// ---------------------------------------------------------------------------
// Linear stretch
// ---------------------------------------------------------------------------

/// All samples of an image, channel after channel.
pub open spec fn all_samples<T>(image: Raster<T>) -> Seq<T> {
    joined(image.planes, image.planes.len() as int)
}

/// `out` is the image clipped to two percentiles of all its samples and scaled
/// to the unit range; the image itself, with `flat` set, where they coincide.
pub open spec fn is_clipped_by<T, A: Arithmetic<T>>(
    ops: &A,
    lo_p: T,
    hi_p: T,
    image: Raster<T>,
    low: T,
    high: T,
    range: T,
    flat: bool,
    out: Raster<T>,
) -> bool {
    &&& are_percentiles(ops, all_samples(image), lo_p, hi_p, low, high)
    &&& evals(ops, Formula::Given(high).minus(Formula::Given(low)), range)
    &&& decides(ops, Test::Equal, Formula::Given(range), whole(0), flat)
    &&& if flat {
        out == image
    } else {
        maps_image(ops, rescaled(low, range), image, out)
    }
}

/// `out` is the image clipped to two percentiles and scaled to the unit range.
pub open spec fn is_percentile_clipped<T, A: Arithmetic<T>>(
    ops: &A,
    lo_p: T,
    hi_p: T,
    image: Raster<T>,
    flat: bool,
    out: Raster<T>,
) -> bool {
    exists|low: T, high: T, range: T| #[trigger]
        is_clipped_by(ops, lo_p, hi_p, image, low, high, range, flat, out)
}

/// `out` is the image under the linear stretch.
pub open spec fn is_linear_stretched<T, A: Arithmetic<T>>(
    ops: &A,
    low_percentile: T,
    high_percentile: T,
    image: Raster<T>,
    out: Raster<T>,
) -> bool {
    exists|flat: bool| #[trigger]
        is_percentile_clipped(ops, low_percentile, high_percentile, image, flat, out)
}

/// Clips to two percentiles of all samples and scales to the unit range. Tells
/// whether the percentiles coincide; the image is left as it is then.
fn clip_to_percentiles<T: Sample, A: Arithmetic<T>>(
    ops: &A,
    image: Image<T>,
    lo_p: T,
    hi_p: T,
) -> (r: (Image<T>, bool))
    requires
        image@.wf(),
    ensures
        r.0@.wf(),
        is_percentile_clipped(ops, lo_p, hi_p, image@, r.1, r.0@),
{
    // Percentiles span all channels together
    let all = join(image.channels());
    let (low, high) = percentile_pair(ops, all.as_slice(), lo_p, hi_p);
    let range = Traced::given(ops, high).minus(ops, Traced::given(ops, low)).value;
    let flat = Traced::given(ops, range).test(ops, Test::Equal, Traced::whole(ops, 0));
    if flat {
        assert(is_clipped_by(ops, lo_p, hi_p, image@, low, high, range, flat, image@));
        return (image, true);
    }
    let f = |v: T| -> (r: T)
        ensures
            evals(ops, rescaled(low, range)(v), r),
    {
        rescale(ops, low, range, v)
    };
    let out = map_image(&image, &f);
    assert(maps_image(ops, rescaled(low, range), image@, out@));
    assert(is_clipped_by(ops, lo_p, hi_p, image@, low, high, range, flat, out@));
    (out, false)
}

// ---------------------------------------------------------------------------
// Statistical stretch (gamma correction)
// ---------------------------------------------------------------------------

/// A sample to the power `gamma`, in the unit range.
pub open spec fn gamma_of<T>(gamma: T) -> spec_fn(T) -> Formula<T> {
    |v: T| Formula::Given(v).with(Binary::Pow, Formula::Given(gamma)).unit()
}

/// The power that moves `median` to `target`, limited to [0.2, 5].
pub open spec fn gamma_for<T>(median: T, target: T) -> Formula<T> {
    Formula::Given(target).apply(Unary::Ln).over(Formula::Given(median).apply(Unary::Ln)).clamp(
        Formula::Ratio(1, 5),
        whole(5),
    )
}

/// `apart` tells whether the median is positive and differs from the target.
pub open spec fn is_apart<T, A: Arithmetic<T>>(
    ops: &A,
    median: T,
    target: T,
    apart: bool,
) -> bool {
    exists|positive: bool| #[trigger]
        decides(ops, Test::Less, whole(0), Formula::Given(median), positive) && if positive {
            decides(ops, Test::Equal, Formula::Given(median), Formula::Given(target), !apart)
        } else {
            !apart
        }
}

/// `out` is the clipped image with a gamma correction that brings the median
/// of its positive samples to the target; the clipped image itself where there
/// is none or the median is on target.
pub open spec fn is_gamma_corrected<T, A: Arithmetic<T>>(
    ops: &A,
    target_median: T,
    clipped: Raster<T>,
    flags: Seq<bool>,
    median: T,
    apart: bool,
    gamma: T,
    out: Raster<T>,
) -> bool {
    let lit = picked(all_samples(clipped), flags);
    &&& are_positive(ops, all_samples(clipped), flags)
    &&& if lit.len() == 0 {
        out == clipped
    } else {
        &&& is_median(ops, lit, median)
        &&& is_apart(ops, median, target_median, apart)
        &&& if apart {
            &&& evals(ops, gamma_for(median, target_median), gamma)
            &&& maps_image(ops, gamma_of(gamma), clipped, out)
        } else {
            out == clipped
        }
    }
}

/// `out` is the image under the statistical stretch: clipped to two
/// percentiles, then gamma corrected; the image itself where the percentiles
/// coincide.
pub open spec fn is_statistical_stretched<T, A: Arithmetic<T>>(
    ops: &A,
    target_median: T,
    low_percentile: T,
    high_percentile: T,
    image: Raster<T>,
    out: Raster<T>,
) -> bool {
    exists|flat: bool, clipped: Raster<T>| #[trigger]
        is_percentile_clipped(ops, low_percentile, high_percentile, image, flat, clipped) && if flat {
            out == clipped
        } else {
            exists|flags: Seq<bool>, median: T, apart: bool, gamma: T| #[trigger]
                is_gamma_corrected(
                    ops,
                    target_median,
                    clipped,
                    flags,
                    median,
                    apart,
                    gamma,
                    out,
                )
        }
}

/// One sample to a power.
fn gamma_sample<T: Sample, A: Arithmetic<T>>(ops: &A, gamma: T, v: T) -> (r: T)
    ensures
        evals(ops, gamma_of(gamma)(v), r),
{
    Traced::given(ops, v).with(ops, Binary::Pow, Traced::given(ops, gamma)).unit(ops).value
}

/// Percentile clip, then gamma correction.
fn stretch_statistical<T: Sample, A: Arithmetic<T>>(
    ops: &A,
    image: Image<T>,
    target_median: T,
    low_percentile: T,
    high_percentile: T,
) -> (out: Image<T>)
    requires
        image@.wf(),
    ensures
        out@.wf(),
        is_statistical_stretched(
            ops,
            target_median,
            low_percentile,
            high_percentile,
            image@,
            out@,
        ),
{
    let (clipped, flat) = clip_to_percentiles(ops, image, low_percentile, high_percentile);
    if flat {
        return clipped;
    }
    // Gamma correction to bring the median of the clipped result to target
    let all = join(clipped.channels());
    let (lit, flags) = positives(ops, all.as_slice());
    if lit.len() == 0 {
        assert(is_gamma_corrected(
            ops,
            target_median,
            clipped@,
            flags@,
            target_median,
            false,
            target_median,
            clipped@,
        ));
        return clipped;
    }
    let median = median_of(ops, lit.as_slice());
    let middle = Traced::given(ops, median);
    let target = Traced::given(ops, target_median);
    let positive = Traced::whole(ops, 0).test(ops, Test::Less, middle);
    let apart = if positive {
        !middle.test(ops, Test::Equal, target)
    } else {
        false
    };
    assert(is_apart(ops, median, target_median, apart));
    if !apart {
        assert(is_gamma_corrected(
            ops,
            target_median,
            clipped@,
            flags@,
            median,
            apart,
            median,
            clipped@,
        ));
        return clipped;
    }
    let ratio = target.apply(ops, Unary::Ln).over(ops, middle.apply(ops, Unary::Ln));
    let gamma = ratio.clamp(ops, Traced::ratio(ops, 1, 5), Traced::whole(ops, 5)).value;
    let f = |v: T| -> (r: T)
        ensures
            evals(ops, gamma_of(gamma)(v), r),
    {
        gamma_sample(ops, gamma, v)
    };
    let out = map_image(&clipped, &f);
    assert(maps_image(ops, gamma_of(gamma), clipped@, out@));
    assert(is_gamma_corrected(
        ops,
        target_median,
        clipped@,
        flags@,
        median,
        apart,
        gamma,
        out@,
    ));
    out
}

// ---------------------------------------------------------------------------
// Stretching an image
// ---------------------------------------------------------------------------

/// `out` is a normalized image under the algorithm.
pub open spec fn is_stretched_by<T, A: Arithmetic<T>>(
    ops: &A,
    algorithm: StretchAlgorithm<T>,
    image: Raster<T>,
    out: Raster<T>,
) -> bool {
    match algorithm {
        StretchAlgorithm::Mtf { bg_percent, sigma, linked } => is_mtf_stretched(
            ops,
            bg_percent,
            sigma,
            linked,
            image,
            out,
        ),
        StretchAlgorithm::Arcsinh { factor } => is_arcsinh_stretched(ops, factor, image, out),
        StretchAlgorithm::Log { factor } => is_log_stretched(ops, factor, image, out),
        StretchAlgorithm::Linear { low_percentile, high_percentile } => is_linear_stretched(
            ops,
            low_percentile,
            high_percentile,
            image,
            out,
        ),
        StretchAlgorithm::Statistical { target_median, low_percentile, high_percentile } =>
            is_statistical_stretched(
                ops,
                target_median,
                low_percentile,
                high_percentile,
                image,
                out,
            ),
    }
}

/// `bounds` are the edges that statistics leave out: those of the default
/// detection where it is asked for, none otherwise.
pub open spec fn are_stats_bounds<T, A: Arithmetic<T>>(
    ops: &A,
    detect: bool,
    image: Raster<T>,
    bounds: CropBounds,
) -> bool {
    if detect {
        exists|params: AutocropParams<T>| #[trigger]
            params.are_defaults(ops) && are_edges(ops, params, image, bounds)
    } else {
        bounds == (0usize, 0usize, 0usize, 0usize)
    }
}

/// `ready` is the image that the algorithm gets: the image itself where it is
/// normalized already, the normalized image otherwise.
pub open spec fn is_ready<T, A: Arithmetic<T>>(
    ops: &A,
    options: StretchOptions<T>,
    image: Raster<T>,
    ready: Raster<T>,
) -> bool {
    if options.pre_normalized {
        ready == image
    } else {
        exists|bounds: CropBounds| #[trigger]
            are_stats_bounds(ops, options.autocrop, image, bounds) && is_normalized(
                ops,
                image,
                bounds,
                ready,
            )
    }
}

/// `out` is the stretched image.
pub open spec fn is_stretched<T, A: Arithmetic<T>>(
    ops: &A,
    options: StretchOptions<T>,
    image: Raster<T>,
    out: Raster<T>,
) -> bool {
    exists|ready: Raster<T>| #[trigger]
        is_ready(ops, options, image, ready) && is_stretched_by(
            ops,
            options.algorithm,
            ready,
            out,
        )
}

/// The edges that statistics leave out.
pub fn stats_bounds<T: Sample, A: Arithmetic<T>>(
    ops: &A,
    image: &Image<T>,
    detect: bool,
) -> (bounds: CropBounds)
    requires
        image@.wf(),
    ensures
        are_stats_bounds(ops, detect, image@, bounds),
        bounds_fit(image@.width as int, image@.height as int, bounds),
{
    if detect {
        let params = AutocropParams::defaults(ops);
        detect_edges(ops, image, &params)
    } else {
        (0, 0, 0, 0)
    }
}

/// Stretch image data from linear to nonlinear for display.
///
/// Input values may be in their original FITS range; the output is normalized
/// to [0, 1] with the same shape. Consumes the input: full planes of a modern
/// sensor run to hundreds of MB, so callers that need the original clone
/// explicitly rather than paying for a hidden copy.
pub fn stretch<T: Sample, A: Arithmetic<T>>(
    ops: &A,
    image: Image<T>,
    options: &StretchOptions<T>,
) -> (out: Image<T>)
    requires
        image@.wf(),
    ensures
        out@.wf(),
        out@.same_shape(image@),
        is_stretched(ops, *options, image@, out@),
{
    let ghost before = image@;
    let mut ready = image;
    if !options.pre_normalized {
        // Detect dark stacking edges and compute normalization statistics from
        // the interior only; the full frame is kept so pixel coordinates stay
        // aligned with the FITS
        let bounds = stats_bounds(ops, &ready, options.autocrop);
        normalize_to_01(ops, &mut ready, bounds);
    }
    assert(is_ready(ops, *options, before, ready@));
    let ghost start = ready@;
    let out = match options.algorithm {
        StretchAlgorithm::Mtf { bg_percent, sigma, linked } => stretch_mtf(
            ops,
            &ready,
            bg_percent,
            sigma,
            linked,
        ),
        StretchAlgorithm::Arcsinh { factor } => stretch_arcsinh(ops, &ready, factor),
        StretchAlgorithm::Log { factor } => stretch_log(ops, &ready, factor),
        StretchAlgorithm::Linear { low_percentile, high_percentile } => clip_to_percentiles(
            ops,
            ready,
            low_percentile,
            high_percentile,
        ).0,
        StretchAlgorithm::Statistical { target_median, low_percentile, high_percentile } =>
            stretch_statistical(ops, ready, target_median, low_percentile, high_percentile),
    };
    assert(is_stretched_by(ops, options.algorithm, start, out@));
    proof {
        lemma_stretch_keeps_shape(ops, *options, before, out@);
    }
    out
}

/// A stretch keeps the dimensions and the channels of the image.
pub proof fn lemma_stretch_keeps_shape<T, A: Arithmetic<T>>(
    ops: &A,
    options: StretchOptions<T>,
    image: Raster<T>,
    out: Raster<T>,
)
    requires
        is_stretched(ops, options, image, out),
    ensures
        out.same_shape(image),
{
}

// ---------------------------------------------------------------------------
// Color
// ---------------------------------------------------------------------------

/// Green with `amount` of its excess over `neutral` taken away.
pub open spec fn less_green<T>(g: T, neutral: T, amount: T) -> Formula<T> {
    Formula::select(
        Test::Less,
        Formula::Given(neutral),
        Formula::Given(g),
        Formula::Given(g).minus(
            Formula::Given(amount).times(Formula::Given(g).minus(Formula::Given(neutral))),
        ),
        Formula::Given(g),
    )
}

/// `out` is the green sample of a pixel after suppression.
pub open spec fn is_less_green<T, A: Arithmetic<T>>(
    ops: &A,
    amount: T,
    r: T,
    g: T,
    b: T,
    out: T,
) -> bool {
    exists|neutral: T|
        evals(
            ops,
            Formula::Given(r).plus(Formula::Given(b)).times(Formula::Ratio(1, 2)),
            neutral,
        ) && #[trigger] evals(ops, less_green(g, neutral, amount), out)
}

/// `out` is the image with the given amount of its green excess suppressed.
pub open spec fn is_suppressed<T, A: Arithmetic<T>>(
    ops: &A,
    amount: T,
    image: Raster<T>,
    out: Raster<T>,
) -> bool {
    &&& out.same_shape(image)
    &&& out.planes[0] == image.planes[0]
    &&& out.planes[2] == image.planes[2]
    &&& out.planes[1].len() == image.planes[1].len()
    &&& forall|i: int|
        0 <= i < out.planes[1].len() ==> is_less_green(
            ops,
            amount,
            image.planes[0][i],
            image.planes[1][i],
            image.planes[2][i],
            #[trigger] out.planes[1][i],
        )
}

/// `out` is the image after green removal: untouched for mono or an amount of
/// zero or less, suppressed by at most the whole excess otherwise.
pub open spec fn is_green_removed<T, A: Arithmetic<T>>(
    ops: &A,
    amount: T,
    image: Raster<T>,
    out: Raster<T>,
) -> bool {
    if image.planes.len() != 3 {
        out == image
    } else {
        exists|off: bool| #[trigger]
            decides(ops, Test::LessOrEqual, Formula::Given(amount), whole(0), off) && if off {
                out == image
            } else {
                exists|part: T| #[trigger]
                    is_suppressed(ops, part, image, out) && evals(
                        ops,
                        Formula::Given(amount).least(whole(1)),
                        part,
                    )
            }
    }
}

/// Green removal leaves a mono image untouched.
pub proof fn lemma_green_removal_of_mono<T, A: Arithmetic<T>>(
    ops: &A,
    amount: T,
    image: Raster<T>,
    out: Raster<T>,
)
    requires
        image.planes.len() == 1,
        is_green_removed(ops, amount, image, out),
    ensures
        out == image,
{
}

/// The green sample of one pixel after suppression.
fn suppress<T: Sample, A: Arithmetic<T>>(ops: &A, amount: T, r: T, g: T, b: T) -> (out: T)
    ensures
        is_less_green(ops, amount, r, g, b, out),
{
    let total = Traced::given(ops, r).plus(ops, Traced::given(ops, b));
    let neutral = total.times(ops, Traced::ratio(ops, 1, 2)).value;
    let middle = Traced::given(ops, neutral);
    let green = Traced::given(ops, g);
    let excess = middle.test(ops, Test::Less, green);
    let part = Traced::given(ops, amount).times(ops, green.minus(ops, middle));
    let reduced = green.minus(ops, part);
    let out = if excess {
        reduced.value
    } else {
        g
    };
    proof {
        lemma_select(
            ops,
            Test::Less,
            middle.formula@,
            green.formula@,
            excess,
            reduced.formula@,
            green.formula@,
            out,
        );
        assert(evals(ops, less_green(g, neutral, amount), out));
    }
    out
}

/// SCNR-style green suppression (average-neutral): pull green down toward the
/// mean of red and blue where it dominates. Almost nothing in deep sky is
/// truly green, so a green cast is sensor response, not signal. `amount`
/// blends between untouched (0.0) and fully suppressed (1.0); mono images are
/// returned untouched.
pub fn remove_green<T: Sample, A: Arithmetic<T>>(ops: &A, image: &mut Image<T>, amount: T)
    requires
        old(image)@.wf(),
    ensures
        final(image)@.wf(),
        is_green_removed(ops, amount, old(image)@, final(image)@),
{
    if !image.is_color() {
        return;
    }
    let given = Traced::given(ops, amount);
    let off = given.test(ops, Test::LessOrEqual, Traced::whole(ops, 0));
    if off {
        return;
    }
    let part = given.with(ops, Binary::Least, Traced::whole(ops, 1)).value;
    let ghost before = image@;
    let r = image.channel(0);
    let g = image.channel(1);
    let b = image.channel(2);
    let n = image.pixels_per_channel();
    let at = |i: usize| -> (out: T)
        requires
            i < r@.len(),
            i < g@.len(),
            i < b@.len(),
        ensures
            is_less_green(ops, part, r@[i as int], g@[i as int], b@[i as int], out),
    {
        suppress(ops, part, r[i], g[i], b[i])
    };
    let green = par_map(n, at);
    let red = copied(r);
    let blue = copied(b);
    let w = image.width();
    let h = image.height();
    *image = Image::new_rgb(w, h, [red, green, blue]);
    assert(is_suppressed(ops, part, before, image@));
}

/// The luminance of a pixel for saturation: the mean of its three channels.
pub open spec fn chroma_center<T>(r: T, g: T, b: T) -> Formula<T> {
    Formula::Given(r).plus(Formula::Given(g)).plus(Formula::Given(b)).over(whole(3))
}

/// A sample moved away from, or towards, the luminance `l` of its pixel.
pub open spec fn saturated<T>(l: T, factor: T, v: T) -> Formula<T> {
    Formula::Given(l).plus(
        Formula::Given(factor).times(Formula::Given(v).minus(Formula::Given(l))),
    ).unit()
}

/// `lum` holds the luminance of every pixel.
pub open spec fn are_centers<T, A: Arithmetic<T>>(
    ops: &A,
    image: Raster<T>,
    lum: Seq<T>,
) -> bool {
    &&& lum.len() == image.planes[0].len()
    &&& forall|i: int|
        0 <= i < lum.len() ==> evals(
            ops,
            chroma_center(image.planes[0][i], image.planes[1][i], image.planes[2][i]),
            #[trigger] lum[i],
        )
}

/// `out` is a plane with its chroma scaled around the luminance.
pub open spec fn is_saturated_plane<T, A: Arithmetic<T>>(
    ops: &A,
    lum: Seq<T>,
    factor: T,
    plane: Seq<T>,
    out: Seq<T>,
) -> bool {
    &&& out.len() == plane.len()
    &&& forall|i: int|
        0 <= i < out.len() ==> evals(ops, saturated(lum[i], factor, plane[i]), #[trigger] out[i])
}

/// Every channel of `out` has its chroma scaled around the luminance.
pub open spec fn is_saturated_around<T, A: Arithmetic<T>>(
    ops: &A,
    lum: Seq<T>,
    factor: T,
    image: Raster<T>,
    out: Raster<T>,
) -> bool {
    &&& out.same_shape(image)
    &&& forall|c: int|
        0 <= c < out.planes.len() ==> is_saturated_plane(
            ops,
            lum,
            factor,
            image.planes[c],
            #[trigger] out.planes[c],
        )
}

/// `out` is the image after saturation: untouched for mono or a factor of one,
/// its chroma scaled around the luminance otherwise.
pub open spec fn is_saturated<T, A: Arithmetic<T>>(
    ops: &A,
    factor: T,
    image: Raster<T>,
    out: Raster<T>,
) -> bool {
    if image.planes.len() != 3 {
        out == image
    } else {
        exists|off: bool| #[trigger]
            decides(ops, Test::Equal, Formula::Given(factor), whole(1), off) && if off {
                out == image
            } else {
                exists|lum: Seq<T>| #[trigger]
                    are_centers(ops, image, lum) && is_saturated_around(
                        ops,
                        lum,
                        factor,
                        image,
                        out,
                    )
            }
    }
}

/// Saturation leaves a mono image untouched.
pub proof fn lemma_saturation_of_mono<T, A: Arithmetic<T>>(
    ops: &A,
    factor: T,
    image: Raster<T>,
    out: Raster<T>,
)
    requires
        image.planes.len() == 1,
        is_saturated(ops, factor, image, out),
    ensures
        out == image,
{
}

/// The luminance of one pixel.
fn center<T: Sample, A: Arithmetic<T>>(ops: &A, r: T, g: T, b: T) -> (out: T)
    ensures
        evals(ops, chroma_center(r, g, b), out),
{
    let pair = Traced::given(ops, r).plus(ops, Traced::given(ops, g));
    pair.plus(ops, Traced::given(ops, b)).over(ops, Traced::whole(ops, 3)).value
}

/// One sample with its chroma scaled.
fn saturate_sample<T: Sample, A: Arithmetic<T>>(ops: &A, l: T, factor: T, v: T) -> (out: T)
    ensures
        evals(ops, saturated(l, factor, v), out),
{
    let middle = Traced::given(ops, l);
    let chroma = Traced::given(ops, v).minus(ops, middle);
    middle.plus(ops, Traced::given(ops, factor).times(ops, chroma)).unit(ops).value
}

/// One plane with its chroma scaled.
fn saturate_plane<T: Sample, A: Arithmetic<T>>(
    ops: &A,
    lum: &[T],
    factor: T,
    plane: &[T],
) -> (out: Vec<T>)
    requires
        lum@.len() == plane@.len(),
    ensures
        is_saturated_plane(ops, lum@, factor, plane@, out@),
{
    let at = |i: usize| -> (r: T)
        requires
            i < lum@.len(),
            i < plane@.len(),
        ensures
            evals(ops, saturated(lum@[i as int], factor, plane@[i as int]), r),
    {
        saturate_sample(ops, lum[i], factor, plane[i])
    };
    par_map(plane.len(), at)
}

/// Scale chroma around per-pixel luminance: `factor` > 1 boosts saturation,
/// < 1 mutes it, 1.0 is a no-op. Values stay clamped to [0, 1]; mono images
/// are returned untouched.
///
/// Nonlinear stretches compress channel ratios, so stretched astro images come
/// out grayer than the linear data; a modest boost (1.2-1.4) after stretching
/// restores the color.
pub fn saturate<T: Sample, A: Arithmetic<T>>(ops: &A, image: &mut Image<T>, factor: T)
    requires
        old(image)@.wf(),
    ensures
        final(image)@.wf(),
        is_saturated(ops, factor, old(image)@, final(image)@),
{
    if !image.is_color() {
        return;
    }
    let off = Traced::given(ops, factor).test(ops, Test::Equal, Traced::whole(ops, 1));
    if off {
        return;
    }
    let ghost before = image@;
    let r = image.channel(0);
    let g = image.channel(1);
    let b = image.channel(2);
    let at = |i: usize| -> (out: T)
        requires
            i < r@.len(),
            i < g@.len(),
            i < b@.len(),
        ensures
            evals(ops, chroma_center(r@[i as int], g@[i as int], b@[i as int]), out),
    {
        center(ops, r[i], g[i], b[i])
    };
    let lum = par_map(image.pixels_per_channel(), at);
    let red = saturate_plane(ops, lum.as_slice(), factor, r);
    let green = saturate_plane(ops, lum.as_slice(), factor, g);
    let blue = saturate_plane(ops, lum.as_slice(), factor, b);
    let w = image.width();
    let h = image.height();
    *image = Image::new_rgb(w, h, [red, green, blue]);
    assert(are_centers(ops, before, lum@));
    assert(is_saturated_around(ops, lum@, factor, before, image@));
}

// ---------------------------------------------------------------------------
// Display
// ---------------------------------------------------------------------------

/// The display solution reproduces the linked stretch: applying a display
/// solution of a normalized image to its pixels is a linked MTF stretch of it.
pub proof fn lemma_display_solution_stretches<T, A: Arithmetic<T>>(
    ops: &A,
    image: Raster<T>,
    bg_percent: T,
    sigma: T,
    solution: MtfSolution<T>,
    out: Raster<T>,
)
    requires
        image.wf(),
        is_display_solution(ops, image, bg_percent, sigma, solution),
        applies_to_image(ops, image, solution.shadows@, solution.scale, solution.midtone, out),
    ensures
        is_stretched(
            ops,
            StretchOptions {
                algorithm: StretchAlgorithm::Mtf { bg_percent, sigma, linked: true },
                autocrop: false,
                pre_normalized: true,
            },
            image,
            out,
        ),
{
    let options = StretchOptions {
        algorithm: StretchAlgorithm::Mtf { bg_percent, sigma, linked: true },
        autocrop: false,
        pre_normalized: true,
    };
    assert(is_ready(ops, options, image, image));
    if image.planes.len() == 3 {
        assert(is_mtf_stretched(ops, bg_percent, sigma, true, image, out));
    } else {
        assert forall|c: int| 0 <= c < out.planes.len() implies is_stretched_channel(
            ops,
            bg_percent,
            sigma,
            image.planes[c],
            #[trigger] out.planes[c],
        ) by {
            assert(c == 0);
        }
    }
}

/// The linked stretch applies a display solution: every linked MTF stretch of
/// a normalized image comes from shadows, a scale and a midtone that are the
/// display solution's.
pub proof fn lemma_stretch_applies_display_solution<T, A: Arithmetic<T>>(
    ops: &A,
    image: Raster<T>,
    bg_percent: T,
    sigma: T,
    options: StretchOptions<T>,
    out: Raster<T>,
)
    requires
        image.wf(),
        options.pre_normalized,
        options.algorithm == (StretchAlgorithm::Mtf { bg_percent, sigma, linked: true }),
        is_stretched(ops, options, image, out),
    ensures
        exists|shadows: Seq<T>, scale: T, midtone: T| #[trigger]
            applies_to_image(ops, image, shadows, scale, midtone, out) && if image.planes.len()
                == 3 {
                is_linked_solution(
                    ops,
                    image.planes,
                    bg_percent,
                    sigma,
                    shadows,
                    scale,
                    midtone,
                )
            } else {
                is_channel_solution(
                    ops,
                    image.planes[0],
                    bg_percent,
                    sigma,
                    shadows[0],
                    scale,
                    midtone,
                )
            },
{
    if image.planes.len() == 3 {
        let (shadows, scale, midtone) = choose|shadows: Seq<T>, scale: T, midtone: T| #[trigger]
            is_linked_solution(ops, image.planes, bg_percent, sigma, shadows, scale, midtone)
                && shadows.len() == 3 && applies_to_image(
                ops,
                image,
                shadows,
                scale,
                midtone,
                out,
            );
        assert(applies_to_image(ops, image, shadows, scale, midtone, out));
    } else {
        assert(is_stretched_channel(ops, bg_percent, sigma, image.planes[0], out.planes[0]));
        let (shadow, scale, midtone) = choose|shadow: T, scale: T, midtone: T| #[trigger]
            is_channel_solution(ops, image.planes[0], bg_percent, sigma, shadow, scale, midtone)
                && applies_solution(ops, image.planes[0], shadow, scale, midtone, out.planes[0]);
        assert(applies_to_image(ops, image, seq![shadow], scale, midtone, out));
    }
}

} // verus!
