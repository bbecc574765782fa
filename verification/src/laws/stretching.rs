//! Laws of edge detection, normalization and stretching.

use super::answers::{
    is_deterministic, lemma_one_answering, lemma_one_decision, lemma_one_index,
    lemma_one_sequence, lemma_one_value,
};
use super::statistics::{lemma_one_median, lemma_one_percentile_pair};
use crate::arith::{Arithmetic, Formula, Test, Unary, decides, evals, whole};
use crate::autocrop::{
    AutocropParams, CropBounds, are_dark, are_edges, are_edges_below, are_edges_by, are_edges_of,
    are_ends, are_limits, column_of, edge_of, interior_medians, lemma_edges_keep_half, row_of,
};
use crate::frame::{
    Raster, is_luminance, lemma_crop_content, lemma_crop_nothing, luminance_at, maps_image,
};
use crate::plane::{crop_plane, largest_of, maps, picked};
use crate::stretch::{
    MtfSolution, MtfStats, StretchAlgorithm, StretchOptions, all_samples, applies_solution,
    applies_to_image, arcsinh_of, are_centers, are_channel_stats, are_inside, are_linked_stats,
    are_positive, are_stats, are_stats_bounds, are_stats_by, balance, chroma_center, deviation,
    gamma_for, gamma_of, is_apart, is_channel_solution, is_channel_solution_by, is_clipped_by,
    is_display_solution, is_floored, is_gamma_corrected, is_green_removed, is_inside, is_less_green,
    is_linked_solution, is_linked_solution_by, is_lit, is_midtone, is_mtf_stretched, is_normalized,
    is_normalized_plane, is_percentile_clipped, is_ready, is_saturated, is_saturated_around,
    is_saturated_plane, is_statistical_stretched, is_stretched, is_stretched_by,
    is_stretched_channel, is_suppressed, less_green, log_of, normalizes_by, reference_channel,
    rescaled, residual_of, saturated, shadowed, toned,
};
use vstd::prelude::*;

verus! {

/// A plane has one image under a formula.
pub proof fn lemma_one_map<T, A: Arithmetic<T>>(
    ops: &A,
    f: spec_fn(T) -> Formula<T>,
    data: Seq<T>,
    a: Seq<T>,
    b: Seq<T>,
)
    requires
        is_deterministic(ops),
        maps(ops, f, data, a),
        maps(ops, f, data, b),
    ensures
        a == b,
{
    lemma_one_sequence(ops, |i: int| f(data[i]), a, b);
}

/// An image has one image under a formula.
pub proof fn lemma_one_image_map<T, A: Arithmetic<T>>(
    ops: &A,
    f: spec_fn(T) -> Formula<T>,
    image: Raster<T>,
    a: Raster<T>,
    b: Raster<T>,
)
    requires
        is_deterministic(ops),
        maps_image(ops, f, image, a),
        maps_image(ops, f, image, b),
    ensures
        a == b,
{
    assert forall|c: int| 0 <= c < a.planes.len() implies #[trigger] a.planes[c]
        == b.planes[c] by {
        lemma_one_map(ops, f, image.planes[c], a.planes[c], b.planes[c]);
    }
    assert(a.planes =~= b.planes);
}

/// An image has one luminance.
pub proof fn lemma_one_luminance<T, A: Arithmetic<T>>(
    ops: &A,
    image: Raster<T>,
    a: Seq<T>,
    b: Seq<T>,
)
    requires
        is_deterministic(ops),
        is_luminance(ops, image, a),
        is_luminance(ops, image, b),
    ensures
        a == b,
{
    if image.planes.len() != 1 {
        lemma_one_sequence(ops, |i: int| luminance_at(image.planes, i), a, b);
    }
}

// ---------------------------------------------------------------------------
// Edges
// ---------------------------------------------------------------------------

/// A dimension has one edge at each end.
proof fn lemma_one_pair_of_ends<T, A: Arithmetic<T>>(
    ops: &A,
    params: AutocropParams<T>,
    medians: Seq<T>,
    dark: T,
    a: (usize, usize),
    b: (usize, usize),
)
    requires
        is_deterministic(ops),
        are_ends(ops, params, medians, dark, a.0, a.1),
        are_ends(ops, params, medians, dark, b.0, b.1),
    ensures
        a == b,
{
    let n = medians.len() as int;
    let (s, least, most, k) = choose|flags: Seq<bool>, min_px: int, max_px: int, k: usize|
        are_dark(ops, medians, dark, flags) && #[trigger] are_limits(
            ops,
            params,
            n,
            min_px,
            max_px,
            k,
        ) && #[trigger] edge_of(flags, min_px, max_px) == a.0 && edge_of(
            flags.reverse(),
            min_px,
            max_px,
        ) == a.1;
    let (t, fewest, utmost, l) = choose|flags: Seq<bool>, min_px: int, max_px: int, k: usize|
        are_dark(ops, medians, dark, flags) && #[trigger] are_limits(
            ops,
            params,
            n,
            min_px,
            max_px,
            k,
        ) && #[trigger] edge_of(flags, min_px, max_px) == b.0 && edge_of(
            flags.reverse(),
            min_px,
            max_px,
        ) == b.1;
    lemma_one_answering(
        ops,
        Test::Less,
        |i: int| Formula::Given(medians[i]),
        |i: int| Formula::Given(dark),
        s,
        t,
    );
    lemma_one_index(
        ops,
        Formula::Count(n as usize).times(Formula::Given(params.min_crop_fraction)),
        k,
        l,
    );
    lemma_one_index(
        ops,
        Formula::Count(n as usize).times(Formula::Given(params.max_crop_fraction)),
        most as usize,
        utmost as usize,
    );
}

/// Row and column medians show one set of edges.
proof fn lemma_one_set_of_edges<T, A: Arithmetic<T>>(
    ops: &A,
    params: AutocropParams<T>,
    rows: Seq<T>,
    cols: Seq<T>,
    a: CropBounds,
    b: CropBounds,
)
    requires
        is_deterministic(ops),
        are_edges_of(ops, params, rows, cols, a),
        are_edges_of(ops, params, rows, cols, b),
    ensures
        a == b,
{
    if rows.len() >= 2 && cols.len() >= 2 {
        let (m, none, dark, found) = choose|m: T, none: bool, dark: T, found: CropBounds| #[trigger]
            are_edges_below(ops, params, rows, cols, m, none, dark, found, a);
        let (l, empty, dim, seen) = choose|m: T, none: bool, dark: T, found: CropBounds| #[trigger]
            are_edges_below(ops, params, rows, cols, m, none, dark, found, b);
        lemma_one_median(ops, interior_medians(rows, cols), m, l);
        lemma_one_decision(ops, Test::LessOrEqual, Formula::Given(m), whole(0), none, empty);
        if !none {
            lemma_one_value(
                ops,
                Formula::Given(m).times(Formula::Given(params.threshold)),
                dark,
                dim,
            );
            lemma_one_pair_of_ends(
                ops,
                params,
                rows,
                dark,
                (found.0, found.1),
                (seen.0, seen.1),
            );
            lemma_one_pair_of_ends(
                ops,
                params,
                cols,
                dark,
                (found.2, found.3),
                (seen.2, seen.3),
            );
        }
    }
}

/// Edge detection is deterministic: an image has one set of dark edges.
pub proof fn lemma_one_detection<T, A: Arithmetic<T>>(
    ops: &A,
    params: AutocropParams<T>,
    image: Raster<T>,
    a: CropBounds,
    b: CropBounds,
)
    requires
        is_deterministic(ops),
        are_edges(ops, params, image, a),
        are_edges(ops, params, image, b),
    ensures
        a == b,
{
    let w = image.width as int;
    let h = image.height as int;
    let (lum, rows, cols) = choose|lum: Seq<T>, rows: Seq<T>, cols: Seq<T>| #[trigger]
        are_edges_by(ops, params, image, lum, rows, cols, a);
    let (light, lines, columns) = choose|lum: Seq<T>, rows: Seq<T>, cols: Seq<T>| #[trigger]
        are_edges_by(ops, params, image, lum, rows, cols, b);
    lemma_one_luminance(ops, image, lum, light);
    assert forall|y: int| 0 <= y < h implies #[trigger] rows[y] == lines[y] by {
        lemma_one_median(ops, row_of(lum, w, y), rows[y], lines[y]);
    }
    assert(rows =~= lines);
    assert forall|x: int| 0 <= x < w implies #[trigger] cols[x] == columns[x] by {
        lemma_one_median(ops, column_of(lum, w, h, x), cols[x], columns[x]);
    }
    assert(cols =~= columns);
    lemma_one_set_of_edges(ops, params, rows, cols, a, b);
}

/// Cropping dark edges takes the detected ones and nothing else: the interior
/// keeps its content and at least half of each dimension, and an image without
/// dark edges comes back as it is.
pub proof fn lemma_autocrop_keeps_interior<T, A: Arithmetic<T>>(
    ops: &A,
    params: AutocropParams<T>,
    image: Raster<T>,
    detected: CropBounds,
    cropped: Raster<T>,
    bounds: CropBounds,
)
    requires
        is_deterministic(ops),
        image.wf(),
        are_edges(ops, params, image, detected),
        are_edges(ops, params, image, bounds),
        cropped == image.crop(bounds),
    ensures
        bounds == detected,
        cropped.width == image.width - bounds.2 - bounds.3,
        cropped.height == image.height - bounds.0 - bounds.1,
        cropped.planes.len() == image.planes.len(),
        forall|x: int, y: int, c: int|
            0 <= x < cropped.width && 0 <= y < cropped.height && 0 <= c < image.planes.len()
                ==> #[trigger] cropped.planes[c][y * cropped.width + x] == image.planes[c][(y
                + bounds.0) * image.width + x + bounds.2],
        2 * (bounds.0 + bounds.1) <= image.height,
        2 * (bounds.2 + bounds.3) <= image.width,
        bounds == (0usize, 0usize, 0usize, 0usize) ==> cropped == image,
{
    lemma_one_detection(ops, params, image, detected, bounds);
    lemma_edges_keep_half(ops, params, image, bounds);
    lemma_crop_nothing(image);
    assert forall|x: int, y: int, c: int|
        0 <= x < cropped.width && 0 <= y < cropped.height && 0 <= c
            < image.planes.len() implies #[trigger] cropped.planes[c][y * cropped.width + x]
        == image.planes[c][(y + bounds.0) * image.width + x + bounds.2] by {
        lemma_crop_content(image, bounds, x, y, c);
    }
}

/// An image has one set of edges that statistics leave out.
pub proof fn lemma_one_stats_bounds<T, A: Arithmetic<T>>(
    ops: &A,
    detect: bool,
    image: Raster<T>,
    a: CropBounds,
    b: CropBounds,
)
    requires
        is_deterministic(ops),
        are_stats_bounds(ops, detect, image, a),
        are_stats_bounds(ops, detect, image, b),
    ensures
        a == b,
{
    if detect {
        let p = choose|params: AutocropParams<T>| #[trigger]
            params.are_defaults(ops) && are_edges(ops, params, image, a);
        let q = choose|params: AutocropParams<T>| #[trigger]
            params.are_defaults(ops) && are_edges(ops, params, image, b);
        lemma_one_value(ops, Formula::Ratio(15, 100), p.threshold, q.threshold);
        lemma_one_value(ops, Formula::Ratio(1, 100), p.min_crop_fraction, q.min_crop_fraction);
        lemma_one_value(ops, Formula::Ratio(20, 100), p.max_crop_fraction, q.max_crop_fraction);
        lemma_one_detection(ops, p, image, a, b);
    }
}

// ---------------------------------------------------------------------------
// Normalization
// ---------------------------------------------------------------------------

/// A plane has one normalized plane.
pub proof fn lemma_one_normalized_plane<T, A: Arithmetic<T>>(
    ops: &A,
    plane: Seq<T>,
    interior: Seq<T>,
    a: Seq<T>,
    b: Seq<T>,
)
    requires
        is_deterministic(ops),
        is_normalized_plane(ops, plane, interior, a),
        is_normalized_plane(ops, plane, interior, b),
    ensures
        a == b,
{
    let (lo_p, hi_p, low, high, range, spread, zero) = choose|
        lo_p: T,
        hi_p: T,
        low: T,
        high: T,
        range: T,
        spread: bool,
        zero: T,
    | #[trigger]
        normalizes_by(ops, plane, interior, lo_p, hi_p, low, high, range, spread, zero, a);
    let (lo_q, hi_q, least, most, width, wide, nil) = choose|
        lo_p: T,
        hi_p: T,
        low: T,
        high: T,
        range: T,
        spread: bool,
        zero: T,
    | #[trigger]
        normalizes_by(ops, plane, interior, lo_p, hi_p, low, high, range, spread, zero, b);
    lemma_one_value(ops, Formula::Ratio(1, 10), lo_p, lo_q);
    lemma_one_value(ops, Formula::Ratio(9999, 100), hi_p, hi_q);
    lemma_one_percentile_pair(ops, interior, lo_p, hi_p, low, high, least, most);
    lemma_one_value(ops, Formula::Given(high).minus(Formula::Given(low)), range, width);
    lemma_one_decision(ops, Test::Less, whole(0), Formula::Given(range), spread, wide);
    if spread {
        lemma_one_map(ops, rescaled(low, range), plane, a, b);
    } else {
        lemma_one_value(ops, whole(0), zero, nil);
    }
}

/// Normalization is deterministic: an image has one normalized image.
pub proof fn lemma_one_normalized<T, A: Arithmetic<T>>(
    ops: &A,
    image: Raster<T>,
    bounds: CropBounds,
    a: Raster<T>,
    b: Raster<T>,
)
    requires
        is_deterministic(ops),
        is_normalized(ops, image, bounds, a),
        is_normalized(ops, image, bounds, b),
    ensures
        a == b,
{
    assert forall|c: int| 0 <= c < a.planes.len() implies #[trigger] a.planes[c]
        == b.planes[c] by {
        lemma_one_normalized_plane(
            ops,
            image.planes[c],
            crop_plane(image.planes[c], image.width as int, image.height as int, bounds),
            a.planes[c],
            b.planes[c],
        );
    }
    assert(a.planes =~= b.planes);
}

// ---------------------------------------------------------------------------
// MTF
// ---------------------------------------------------------------------------

/// Samples have one set of flags for the positive ones.
pub proof fn lemma_one_positive<T, A: Arithmetic<T>>(
    ops: &A,
    data: Seq<T>,
    s: Seq<bool>,
    t: Seq<bool>,
)
    requires
        is_deterministic(ops),
        are_positive(ops, data, s),
        are_positive(ops, data, t),
    ensures
        s == t,
{
    lemma_one_answering(
        ops,
        Test::Less,
        |i: int| whole(0),
        |i: int| Formula::Given(data[i]),
        s,
        t,
    );
}

/// A sample is or is not strictly between 0 and 1.
proof fn lemma_one_inside<T, A: Arithmetic<T>>(ops: &A, v: T, r: bool, s: bool)
    requires
        is_deterministic(ops),
        is_inside(ops, v, r),
        is_inside(ops, v, s),
    ensures
        r == s,
{
    let p = choose|positive: bool| #[trigger]
        decides(ops, Test::Less, whole(0), Formula::Given(v), positive) && if positive {
            decides(ops, Test::Less, Formula::Given(v), whole(1), r)
        } else {
            !r
        };
    let q = choose|positive: bool| #[trigger]
        decides(ops, Test::Less, whole(0), Formula::Given(v), positive) && if positive {
            decides(ops, Test::Less, Formula::Given(v), whole(1), s)
        } else {
            !s
        };
    lemma_one_decision(ops, Test::Less, whole(0), Formula::Given(v), p, q);
    if p {
        lemma_one_decision(ops, Test::Less, Formula::Given(v), whole(1), r, s);
    }
}

/// Samples have one set of statistics.
proof fn lemma_one_set_of_stats<T, A: Arithmetic<T>>(
    ops: &A,
    valid: Seq<T>,
    a: MtfStats<T>,
    b: MtfStats<T>,
)
    requires
        is_deterministic(ops),
        are_stats(ops, valid, a),
        are_stats(ops, valid, b),
    ensures
        a == b,
{
    let (q, h, d) = choose|quarter: T, half: T, deviations: Seq<T>| #[trigger]
        are_stats_by(ops, valid, quarter, half, deviations, a);
    let (r, k, e) = choose|quarter: T, half: T, deviations: Seq<T>| #[trigger]
        are_stats_by(ops, valid, quarter, half, deviations, b);
    lemma_one_value(ops, whole(25), q, r);
    lemma_one_value(ops, whole(50), h, k);
    lemma_one_percentile_pair(ops, valid, q, h, a.p25, a.median, b.p25, b.median);
    lemma_one_map(ops, deviation(a.median), valid, d, e);
    lemma_one_median(ops, d, a.mad, b.mad);
}

/// A channel has one set of linked statistics.
pub proof fn lemma_one_linked_stats<T, A: Arithmetic<T>>(
    ops: &A,
    data: Seq<T>,
    a: MtfStats<T>,
    b: MtfStats<T>,
)
    requires
        is_deterministic(ops),
        are_linked_stats(ops, data, a),
        are_linked_stats(ops, data, b),
    ensures
        a == b,
{
    let s = choose|flags: Seq<bool>| #[trigger]
        are_positive(ops, data, flags) && if picked(data, flags).len() == 0 {
            &&& evals(ops, whole(0), a.median)
            &&& evals(ops, whole(0), a.p25)
            &&& evals(ops, Formula::Ratio(1, 100), a.mad)
            &&& a.count == 0
        } else {
            exists|raw: MtfStats<T>| #[trigger]
                are_stats(ops, picked(data, flags), raw) && is_floored(ops, raw, a)
        };
    let t = choose|flags: Seq<bool>| #[trigger]
        are_positive(ops, data, flags) && if picked(data, flags).len() == 0 {
            &&& evals(ops, whole(0), b.median)
            &&& evals(ops, whole(0), b.p25)
            &&& evals(ops, Formula::Ratio(1, 100), b.mad)
            &&& b.count == 0
        } else {
            exists|raw: MtfStats<T>| #[trigger]
                are_stats(ops, picked(data, flags), raw) && is_floored(ops, raw, b)
        };
    lemma_one_positive(ops, data, s, t);
    let valid = picked(data, s);
    if valid.len() == 0 {
        lemma_one_value(ops, whole(0), a.median, b.median);
        lemma_one_value(ops, whole(0), a.p25, b.p25);
        lemma_one_value(ops, Formula::Ratio(1, 100), a.mad, b.mad);
    } else {
        let x = choose|raw: MtfStats<T>| #[trigger]
            are_stats(ops, valid, raw) && is_floored(ops, raw, a);
        let y = choose|raw: MtfStats<T>| #[trigger]
            are_stats(ops, valid, raw) && is_floored(ops, raw, b);
        lemma_one_set_of_stats(ops, valid, x, y);
        lemma_one_value(
            ops,
            Formula::Given(x.mad).most(Formula::Ratio(1, 1_000_000)),
            a.mad,
            b.mad,
        );
    }
}

/// A channel has one set of single-channel statistics.
pub proof fn lemma_one_channel_stats<T, A: Arithmetic<T>>(
    ops: &A,
    data: Seq<T>,
    a: MtfStats<T>,
    b: MtfStats<T>,
)
    requires
        is_deterministic(ops),
        are_channel_stats(ops, data, a),
        are_channel_stats(ops, data, b),
    ensures
        a == b,
{
    let s = choose|flags: Seq<bool>| #[trigger]
        are_inside(ops, data, flags) && if picked(data, flags).len() == 0 {
            &&& evals(ops, whole(0), a.median)
            &&& evals(ops, whole(0), a.p25)
            &&& evals(ops, whole(0), a.mad)
            &&& a.count == 0
        } else {
            are_stats(ops, picked(data, flags), a)
        };
    let t = choose|flags: Seq<bool>| #[trigger]
        are_inside(ops, data, flags) && if picked(data, flags).len() == 0 {
            &&& evals(ops, whole(0), b.median)
            &&& evals(ops, whole(0), b.p25)
            &&& evals(ops, whole(0), b.mad)
            &&& b.count == 0
        } else {
            are_stats(ops, picked(data, flags), b)
        };
    assert forall|i: int| 0 <= i < s.len() implies #[trigger] s[i] == t[i] by {
        lemma_one_inside(ops, data[i], s[i], t[i]);
    }
    assert(s =~= t);
    let valid = picked(data, s);
    if valid.len() == 0 {
        lemma_one_value(ops, whole(0), a.median, b.median);
        lemma_one_value(ops, whole(0), a.p25, b.p25);
        lemma_one_value(ops, whole(0), a.mad, b.mad);
    } else {
        lemma_one_set_of_stats(ops, valid, a, b);
    }
}

/// A median and a target have one midtone.
pub proof fn lemma_one_midtone<T, A: Arithmetic<T>>(ops: &A, median: T, bg_percent: T, a: T, b: T)
    requires
        is_deterministic(ops),
        is_midtone(ops, median, bg_percent, a),
        is_midtone(ops, median, bg_percent, b),
    ensures
        a == b,
{
    let (p, q) = choose|between: bool, lit: bool|
        is_inside(ops, median, between) && #[trigger] is_lit(ops, between, bg_percent, lit)
            && if lit {
            evals(ops, balance(median, bg_percent), a)
        } else {
            evals(ops, Formula::Ratio(1, 2), a)
        };
    let (r, s) = choose|between: bool, lit: bool|
        is_inside(ops, median, between) && #[trigger] is_lit(ops, between, bg_percent, lit)
            && if lit {
            evals(ops, balance(median, bg_percent), b)
        } else {
            evals(ops, Formula::Ratio(1, 2), b)
        };
    lemma_one_inside(ops, median, p, r);
    if p {
        lemma_one_decision(ops, Test::Less, whole(0), Formula::Given(bg_percent), q, s);
    }
    if q {
        lemma_one_value(ops, balance(median, bg_percent), a, b);
    } else {
        lemma_one_value(ops, Formula::Ratio(1, 2), a, b);
    }
}

/// Channels have one linked solution.
pub proof fn lemma_one_linked_solution<T, A: Arithmetic<T>>(
    ops: &A,
    planes: Seq<Seq<T>>,
    bg_percent: T,
    sigma: T,
    shadows: Seq<T>,
    scale: T,
    midtone: T,
    shades: Seq<T>,
    factor: T,
    tone: T,
)
    requires
        is_deterministic(ops),
        planes.len() >= 1,
        is_linked_solution(ops, planes, bg_percent, sigma, shadows, scale, midtone),
        is_linked_solution(ops, planes, bg_percent, sigma, shades, factor, tone),
    ensures
        shadows == shades,
        scale == factor,
        midtone == tone,
{
    let n = planes.len() as int;
    let green = reference_channel(n);
    let (stats, k, residual, mapped, flags, median) = choose|
        stats: Seq<MtfStats<T>>,
        k: T,
        residual: T,
        mapped: Seq<T>,
        flags: Seq<bool>,
        median: T,
    | #[trigger]
        is_linked_solution_by(
            ops,
            planes,
            bg_percent,
            sigma,
            stats,
            k,
            residual,
            mapped,
            flags,
            median,
            shadows,
            scale,
            midtone,
        );
    let (others, l, rest, image, marks, middle) = choose|
        stats: Seq<MtfStats<T>>,
        k: T,
        residual: T,
        mapped: Seq<T>,
        flags: Seq<bool>,
        median: T,
    | #[trigger]
        is_linked_solution_by(
            ops,
            planes,
            bg_percent,
            sigma,
            stats,
            k,
            residual,
            mapped,
            flags,
            median,
            shades,
            factor,
            tone,
        );
    assert forall|c: int| 0 <= c < n implies #[trigger] stats[c] == others[c] by {
        lemma_one_linked_stats(ops, planes[c], stats[c], others[c]);
    }
    assert(stats =~= others);
    lemma_one_value(ops, Formula::Given(sigma).times(Formula::Ratio(14_826, 10_000)), k, l);
    lemma_one_value(ops, residual_of(stats, k, n), residual, rest);
    lemma_one_sequence(
        ops,
        |c: int| Formula::Given(stats[c].median).minus(Formula::Given(residual)).most(whole(0)),
        shadows,
        shades,
    );
    lemma_one_value(
        ops,
        whole(1).over(whole(1).minus(largest_of(shadows, n)).most(Formula::Ratio(1, 1_000_000))),
        scale,
        factor,
    );
    lemma_one_map(ops, shadowed(shadows[green], scale), planes[green], mapped, image);
    lemma_one_positive(ops, mapped, flags, marks);
    lemma_one_median(ops, picked(mapped, flags), median, middle);
    lemma_one_midtone(ops, median, bg_percent, midtone, tone);
}

/// A channel has one solution of its own.
pub proof fn lemma_one_channel_solution<T, A: Arithmetic<T>>(
    ops: &A,
    plane: Seq<T>,
    bg_percent: T,
    sigma: T,
    shadow: T,
    scale: T,
    midtone: T,
    shade: T,
    factor: T,
    tone: T,
)
    requires
        is_deterministic(ops),
        is_channel_solution(ops, plane, bg_percent, sigma, shadow, scale, midtone),
        is_channel_solution(ops, plane, bg_percent, sigma, shade, factor, tone),
    ensures
        shadow == shade,
        scale == factor,
        midtone == tone,
{
    let (stats, range, median) = choose|stats: MtfStats<T>, range: T, median: T| #[trigger]
        is_channel_solution_by(
            ops,
            plane,
            bg_percent,
            sigma,
            stats,
            range,
            median,
            shadow,
            scale,
            midtone,
        );
    let (others, width, middle) = choose|stats: MtfStats<T>, range: T, median: T| #[trigger]
        is_channel_solution_by(
            ops,
            plane,
            bg_percent,
            sigma,
            stats,
            range,
            median,
            shade,
            factor,
            tone,
        );
    lemma_one_channel_stats(ops, plane, stats, others);
    if stats.count == 0 {
        lemma_one_value(ops, whole(0), shadow, shade);
        lemma_one_value(ops, whole(1), scale, factor);
        lemma_one_value(ops, Formula::Ratio(1, 2), midtone, tone);
    } else {
        lemma_one_value(
            ops,
            Formula::Given(stats.p25).minus(
                Formula::Given(sigma).times(Formula::Given(stats.mad)).times(
                    Formula::Ratio(14_826, 10_000),
                ),
            ).most(whole(0)),
            shadow,
            shade,
        );
        lemma_one_value(ops, whole(1).minus(Formula::Given(shadow)), range, width);
        lemma_one_value(
            ops,
            Formula::Given(stats.median).minus(Formula::Given(shadow)).over(
                Formula::Given(range),
            ),
            median,
            middle,
        );
        lemma_one_value(ops, whole(1).over(Formula::Given(range)), scale, factor);
        lemma_one_midtone(ops, median, bg_percent, midtone, tone);
    }
}

/// An image has one display solution.
pub proof fn lemma_one_display_solution<T, A: Arithmetic<T>>(
    ops: &A,
    image: Raster<T>,
    bg_percent: T,
    sigma: T,
    a: MtfSolution<T>,
    b: MtfSolution<T>,
)
    requires
        is_deterministic(ops),
        image.wf(),
        is_display_solution(ops, image, bg_percent, sigma, a),
        is_display_solution(ops, image, bg_percent, sigma, b),
    ensures
        a.shadows@ == b.shadows@,
        a.scale == b.scale,
        a.midtone == b.midtone,
{
    if image.planes.len() == 3 {
        lemma_one_linked_solution(
            ops,
            image.planes,
            bg_percent,
            sigma,
            a.shadows@,
            a.scale,
            a.midtone,
            b.shadows@,
            b.scale,
            b.midtone,
        );
    } else {
        lemma_one_channel_solution(
            ops,
            image.planes[0],
            bg_percent,
            sigma,
            a.shadows@[0],
            a.scale,
            a.midtone,
            b.shadows@[0],
            b.scale,
            b.midtone,
        );
        assert(a.shadows@ =~= b.shadows@);
    }
}

/// A plane has one plane with a solution applied.
pub proof fn lemma_one_application<T, A: Arithmetic<T>>(
    ops: &A,
    plane: Seq<T>,
    shadow: T,
    scale: T,
    midtone: T,
    a: Seq<T>,
    b: Seq<T>,
)
    requires
        is_deterministic(ops),
        applies_solution(ops, plane, shadow, scale, midtone, a),
        applies_solution(ops, plane, shadow, scale, midtone, b),
    ensures
        a == b,
{
    let s = choose|mid: Seq<T>| #[trigger]
        maps(ops, shadowed(shadow, scale), plane, mid) && maps(ops, toned(midtone), mid, a);
    let t = choose|mid: Seq<T>| #[trigger]
        maps(ops, shadowed(shadow, scale), plane, mid) && maps(ops, toned(midtone), mid, b);
    lemma_one_map(ops, shadowed(shadow, scale), plane, s, t);
    lemma_one_map(ops, toned(midtone), s, a, b);
}

/// A channel has one stretch by its own solution.
pub proof fn lemma_one_stretched_channel<T, A: Arithmetic<T>>(
    ops: &A,
    bg_percent: T,
    sigma: T,
    plane: Seq<T>,
    a: Seq<T>,
    b: Seq<T>,
)
    requires
        is_deterministic(ops),
        is_stretched_channel(ops, bg_percent, sigma, plane, a),
        is_stretched_channel(ops, bg_percent, sigma, plane, b),
    ensures
        a == b,
{
    let (shadow, scale, midtone) = choose|shadow: T, scale: T, midtone: T| #[trigger]
        is_channel_solution(ops, plane, bg_percent, sigma, shadow, scale, midtone)
            && applies_solution(ops, plane, shadow, scale, midtone, a);
    let (shade, factor, tone) = choose|shadow: T, scale: T, midtone: T| #[trigger]
        is_channel_solution(ops, plane, bg_percent, sigma, shadow, scale, midtone)
            && applies_solution(ops, plane, shadow, scale, midtone, b);
    lemma_one_channel_solution(
        ops,
        plane,
        bg_percent,
        sigma,
        shadow,
        scale,
        midtone,
        shade,
        factor,
        tone,
    );
    lemma_one_application(ops, plane, shadow, scale, midtone, a, b);
}

/// An image has one MTF stretch.
proof fn lemma_one_mtf_stretch<T, A: Arithmetic<T>>(
    ops: &A,
    bg_percent: T,
    sigma: T,
    linked: bool,
    image: Raster<T>,
    a: Raster<T>,
    b: Raster<T>,
)
    requires
        is_deterministic(ops),
        is_mtf_stretched(ops, bg_percent, sigma, linked, image, a),
        is_mtf_stretched(ops, bg_percent, sigma, linked, image, b),
    ensures
        a == b,
{
    if linked && image.planes.len() == 3 {
        let (shadows, scale, midtone) = choose|shadows: Seq<T>, scale: T, midtone: T| #[trigger]
            is_linked_solution(ops, image.planes, bg_percent, sigma, shadows, scale, midtone)
                && shadows.len() == 3 && applies_to_image(
                ops,
                image,
                shadows,
                scale,
                midtone,
                a,
            );
        let (shades, factor, tone) = choose|shadows: Seq<T>, scale: T, midtone: T| #[trigger]
            is_linked_solution(ops, image.planes, bg_percent, sigma, shadows, scale, midtone)
                && shadows.len() == 3 && applies_to_image(
                ops,
                image,
                shadows,
                scale,
                midtone,
                b,
            );
        lemma_one_linked_solution(
            ops,
            image.planes,
            bg_percent,
            sigma,
            shadows,
            scale,
            midtone,
            shades,
            factor,
            tone,
        );
        assert forall|c: int| 0 <= c < a.planes.len() implies #[trigger] a.planes[c]
            == b.planes[c] by {
            lemma_one_application(
                ops,
                image.planes[c],
                shadows[c],
                scale,
                midtone,
                a.planes[c],
                b.planes[c],
            );
        }
    } else {
        assert forall|c: int| 0 <= c < a.planes.len() implies #[trigger] a.planes[c]
            == b.planes[c] by {
            lemma_one_stretched_channel(
                ops,
                bg_percent,
                sigma,
                image.planes[c],
                a.planes[c],
                b.planes[c],
            );
        }
    }
    assert(a.planes =~= b.planes);
}

// ---------------------------------------------------------------------------
// Other algorithms
// ---------------------------------------------------------------------------

/// An image has one percentile clip.
pub proof fn lemma_one_clip<T, A: Arithmetic<T>>(
    ops: &A,
    lo_p: T,
    hi_p: T,
    image: Raster<T>,
    flat: bool,
    a: Raster<T>,
    level: bool,
    b: Raster<T>,
)
    requires
        is_deterministic(ops),
        is_percentile_clipped(ops, lo_p, hi_p, image, flat, a),
        is_percentile_clipped(ops, lo_p, hi_p, image, level, b),
    ensures
        flat == level,
        a == b,
{
    let (low, high, range) = choose|low: T, high: T, range: T| #[trigger]
        is_clipped_by(ops, lo_p, hi_p, image, low, high, range, flat, a);
    let (least, most, width) = choose|low: T, high: T, range: T| #[trigger]
        is_clipped_by(ops, lo_p, hi_p, image, low, high, range, level, b);
    lemma_one_percentile_pair(ops, all_samples(image), lo_p, hi_p, low, high, least, most);
    lemma_one_value(ops, Formula::Given(high).minus(Formula::Given(low)), range, width);
    lemma_one_decision(ops, Test::Equal, Formula::Given(range), whole(0), flat, level);
    if !flat {
        lemma_one_image_map(ops, rescaled(low, range), image, a, b);
    }
}

/// A median is or is not apart from its target.
pub proof fn lemma_one_apart<T, A: Arithmetic<T>>(ops: &A, median: T, target: T, r: bool, s: bool)
    requires
        is_deterministic(ops),
        is_apart(ops, median, target, r),
        is_apart(ops, median, target, s),
    ensures
        r == s,
{
    let p = choose|positive: bool| #[trigger]
        decides(ops, Test::Less, whole(0), Formula::Given(median), positive) && if positive {
            decides(ops, Test::Equal, Formula::Given(median), Formula::Given(target), !r)
        } else {
            !r
        };
    let q = choose|positive: bool| #[trigger]
        decides(ops, Test::Less, whole(0), Formula::Given(median), positive) && if positive {
            decides(ops, Test::Equal, Formula::Given(median), Formula::Given(target), !s)
        } else {
            !s
        };
    lemma_one_decision(ops, Test::Less, whole(0), Formula::Given(median), p, q);
    if p {
        lemma_one_decision(
            ops,
            Test::Equal,
            Formula::Given(median),
            Formula::Given(target),
            !r,
            !s,
        );
    }
}

/// An image has one statistical stretch.
proof fn lemma_one_statistical_stretch<T, A: Arithmetic<T>>(
    ops: &A,
    target: T,
    lo_p: T,
    hi_p: T,
    image: Raster<T>,
    a: Raster<T>,
    b: Raster<T>,
)
    requires
        is_deterministic(ops),
        is_statistical_stretched(ops, target, lo_p, hi_p, image, a),
        is_statistical_stretched(ops, target, lo_p, hi_p, image, b),
    ensures
        a == b,
{
    let (flat, clipped) = choose|flat: bool, clipped: Raster<T>| #[trigger]
        is_percentile_clipped(ops, lo_p, hi_p, image, flat, clipped) && if flat {
            a == clipped
        } else {
            exists|flags: Seq<bool>, median: T, apart: bool, gamma: T| #[trigger]
                is_gamma_corrected(ops, target, clipped, flags, median, apart, gamma, a)
        };
    let (level, cut) = choose|flat: bool, clipped: Raster<T>| #[trigger]
        is_percentile_clipped(ops, lo_p, hi_p, image, flat, clipped) && if flat {
            b == clipped
        } else {
            exists|flags: Seq<bool>, median: T, apart: bool, gamma: T| #[trigger]
                is_gamma_corrected(ops, target, clipped, flags, median, apart, gamma, b)
        };
    lemma_one_clip(ops, lo_p, hi_p, image, flat, clipped, level, cut);
    if !flat {
        let (flags, median, apart, gamma) = choose|
            flags: Seq<bool>,
            median: T,
            apart: bool,
            gamma: T,
        | #[trigger]
            is_gamma_corrected(ops, target, clipped, flags, median, apart, gamma, a);
        let (marks, middle, off, power) = choose|
            flags: Seq<bool>,
            median: T,
            apart: bool,
            gamma: T,
        | #[trigger]
            is_gamma_corrected(ops, target, clipped, flags, median, apart, gamma, b);
        lemma_one_positive(ops, all_samples(clipped), flags, marks);
        let lit = picked(all_samples(clipped), flags);
        if lit.len() != 0 {
            lemma_one_median(ops, lit, median, middle);
            lemma_one_apart(ops, median, target, apart, off);
            if apart {
                lemma_one_value(ops, gamma_for(median, target), gamma, power);
                lemma_one_image_map(ops, gamma_of(gamma), clipped, a, b);
            }
        }
    }
}

/// A normalized image has one stretch by an algorithm.
proof fn lemma_one_stretch_by<T, A: Arithmetic<T>>(
    ops: &A,
    algorithm: StretchAlgorithm<T>,
    image: Raster<T>,
    a: Raster<T>,
    b: Raster<T>,
)
    requires
        is_deterministic(ops),
        is_stretched_by(ops, algorithm, image, a),
        is_stretched_by(ops, algorithm, image, b),
    ensures
        a == b,
{
    match algorithm {
        StretchAlgorithm::Mtf { bg_percent, sigma, linked } => {
            lemma_one_mtf_stretch(ops, bg_percent, sigma, linked, image, a, b);
        },
        StretchAlgorithm::Arcsinh { factor } => {
            let (s, d) = choose|scale: T, denominator: T|
                evals(ops, whole(1).over(Formula::Given(factor)), scale) && evals(
                    ops,
                    Formula::Given(scale).apply(Unary::Asinh),
                    denominator,
                ) && #[trigger] maps_image(ops, arcsinh_of(scale, denominator), image, a);
            let (t, e) = choose|scale: T, denominator: T|
                evals(ops, whole(1).over(Formula::Given(factor)), scale) && evals(
                    ops,
                    Formula::Given(scale).apply(Unary::Asinh),
                    denominator,
                ) && #[trigger] maps_image(ops, arcsinh_of(scale, denominator), image, b);
            lemma_one_value(ops, whole(1).over(Formula::Given(factor)), s, t);
            lemma_one_value(ops, Formula::Given(s).apply(Unary::Asinh), d, e);
            lemma_one_image_map(ops, arcsinh_of(s, d), image, a, b);
        },
        StretchAlgorithm::Log { factor } => {
            let (s, d) = choose|offset: T, denominator: T|
                evals(ops, Formula::Given(factor).times(Formula::Ratio(1, 100)), offset) && evals(
                    ops,
                    whole(1).over(Formula::Given(offset)).apply(Unary::Ln1p),
                    denominator,
                ) && #[trigger] maps_image(ops, log_of(offset, denominator), image, a);
            let (t, e) = choose|offset: T, denominator: T|
                evals(ops, Formula::Given(factor).times(Formula::Ratio(1, 100)), offset) && evals(
                    ops,
                    whole(1).over(Formula::Given(offset)).apply(Unary::Ln1p),
                    denominator,
                ) && #[trigger] maps_image(ops, log_of(offset, denominator), image, b);
            lemma_one_value(ops, Formula::Given(factor).times(Formula::Ratio(1, 100)), s, t);
            lemma_one_value(ops, whole(1).over(Formula::Given(s)).apply(Unary::Ln1p), d, e);
            lemma_one_image_map(ops, log_of(s, d), image, a, b);
        },
        StretchAlgorithm::Linear { low_percentile, high_percentile } => {
            let s = choose|flat: bool| #[trigger]
                is_percentile_clipped(ops, low_percentile, high_percentile, image, flat, a);
            let t = choose|flat: bool| #[trigger]
                is_percentile_clipped(ops, low_percentile, high_percentile, image, flat, b);
            lemma_one_clip(ops, low_percentile, high_percentile, image, s, a, t, b);
        },
        StretchAlgorithm::Statistical { target_median, low_percentile, high_percentile } => {
            lemma_one_statistical_stretch(
                ops,
                target_median,
                low_percentile,
                high_percentile,
                image,
                a,
                b,
            );
        },
    }
}

/// Stretching is deterministic: an image has one stretched image.
pub proof fn lemma_one_stretch<T, A: Arithmetic<T>>(
    ops: &A,
    options: StretchOptions<T>,
    image: Raster<T>,
    a: Raster<T>,
    b: Raster<T>,
)
    requires
        is_deterministic(ops),
        is_stretched(ops, options, image, a),
        is_stretched(ops, options, image, b),
    ensures
        a == b,
{
    let s = choose|ready: Raster<T>| #[trigger]
        is_ready(ops, options, image, ready) && is_stretched_by(ops, options.algorithm, ready, a);
    let t = choose|ready: Raster<T>| #[trigger]
        is_ready(ops, options, image, ready) && is_stretched_by(ops, options.algorithm, ready, b);
    if !options.pre_normalized {
        let p = choose|bounds: CropBounds| #[trigger]
            are_stats_bounds(ops, options.autocrop, image, bounds) && is_normalized(
                ops,
                image,
                bounds,
                s,
            );
        let q = choose|bounds: CropBounds| #[trigger]
            are_stats_bounds(ops, options.autocrop, image, bounds) && is_normalized(
                ops,
                image,
                bounds,
                t,
            );
        lemma_one_stats_bounds(ops, options.autocrop, image, p, q);
        lemma_one_normalized(ops, image, p, s, t);
    }
    lemma_one_stretch_by(ops, options.algorithm, s, a, b);
}

// ---------------------------------------------------------------------------
// Color
// ---------------------------------------------------------------------------

/// Green removal by an amount of zero or less changes nothing.
pub proof fn lemma_green_removal_of_zero<T, A: Arithmetic<T>>(
    ops: &A,
    amount: T,
    image: Raster<T>,
    out: Raster<T>,
)
    requires
        is_deterministic(ops),
        decides(ops, Test::LessOrEqual, Formula::Given(amount), whole(0), true),
        is_green_removed(ops, amount, image, out),
    ensures
        out == image,
{
    if image.planes.len() == 3 {
        let off = choose|off: bool| #[trigger]
            decides(ops, Test::LessOrEqual, Formula::Given(amount), whole(0), off) && if off {
                out == image
            } else {
                exists|part: T| #[trigger]
                    is_suppressed(ops, part, image, out) && evals(
                        ops,
                        Formula::Given(amount).least(whole(1)),
                        part,
                    )
            };
        lemma_one_decision(ops, Test::LessOrEqual, Formula::Given(amount), whole(0), off, true);
    }
}

/// Saturation by a factor of one changes nothing.
pub proof fn lemma_saturation_of_one<T, A: Arithmetic<T>>(
    ops: &A,
    factor: T,
    image: Raster<T>,
    out: Raster<T>,
)
    requires
        is_deterministic(ops),
        decides(ops, Test::Equal, Formula::Given(factor), whole(1), true),
        is_saturated(ops, factor, image, out),
    ensures
        out == image,
{
    if image.planes.len() == 3 {
        let off = choose|off: bool| #[trigger]
            decides(ops, Test::Equal, Formula::Given(factor), whole(1), off) && if off {
                out == image
            } else {
                exists|lum: Seq<T>| #[trigger]
                    are_centers(ops, image, lum) && is_saturated_around(
                        ops,
                        lum,
                        factor,
                        image,
                        out,
                    )
            };
        lemma_one_decision(ops, Test::Equal, Formula::Given(factor), whole(1), off, true);
    }
}

/// Green removal is deterministic.
pub proof fn lemma_one_green_removal<T, A: Arithmetic<T>>(
    ops: &A,
    amount: T,
    image: Raster<T>,
    a: Raster<T>,
    b: Raster<T>,
)
    requires
        is_deterministic(ops),
        is_green_removed(ops, amount, image, a),
        is_green_removed(ops, amount, image, b),
    ensures
        a == b,
{
    if image.planes.len() == 3 {
        let p = choose|off: bool| #[trigger]
            decides(ops, Test::LessOrEqual, Formula::Given(amount), whole(0), off) && if off {
                a == image
            } else {
                exists|part: T| #[trigger]
                    is_suppressed(ops, part, image, a) && evals(
                        ops,
                        Formula::Given(amount).least(whole(1)),
                        part,
                    )
            };
        let q = choose|off: bool| #[trigger]
            decides(ops, Test::LessOrEqual, Formula::Given(amount), whole(0), off) && if off {
                b == image
            } else {
                exists|part: T| #[trigger]
                    is_suppressed(ops, part, image, b) && evals(
                        ops,
                        Formula::Given(amount).least(whole(1)),
                        part,
                    )
            };
        lemma_one_decision(ops, Test::LessOrEqual, Formula::Given(amount), whole(0), p, q);
        if !p {
            let s = choose|part: T| #[trigger]
                is_suppressed(ops, part, image, a) && evals(
                    ops,
                    Formula::Given(amount).least(whole(1)),
                    part,
                );
            let t = choose|part: T| #[trigger]
                is_suppressed(ops, part, image, b) && evals(
                    ops,
                    Formula::Given(amount).least(whole(1)),
                    part,
                );
            lemma_one_value(ops, Formula::Given(amount).least(whole(1)), s, t);
            lemma_one_suppression(ops, s, image, a, b);
        }
    }
}

/// An image has one suppression of its green.
proof fn lemma_one_suppression<T, A: Arithmetic<T>>(
    ops: &A,
    part: T,
    image: Raster<T>,
    a: Raster<T>,
    b: Raster<T>,
)
    requires
        is_deterministic(ops),
        image.planes.len() == 3,
        is_suppressed(ops, part, image, a),
        is_suppressed(ops, part, image, b),
    ensures
        a == b,
{
    assert forall|i: int| 0 <= i < a.planes[1].len() implies #[trigger] a.planes[1][i]
        == b.planes[1][i] by {
        let r = image.planes[0][i];
        let g = image.planes[1][i];
        let bl = image.planes[2][i];
        assert(is_less_green(ops, part, r, g, bl, a.planes[1][i]));
        assert(is_less_green(ops, part, r, g, bl, b.planes[1][i]));
        let mean = Formula::Given(r).plus(Formula::Given(bl)).times(Formula::Ratio(1, 2));
        let m = choose|neutral: T|
            evals(ops, mean, neutral) && #[trigger] evals(
                ops,
                less_green(g, neutral, part),
                a.planes[1][i],
            );
        let n = choose|neutral: T|
            evals(ops, mean, neutral) && #[trigger] evals(
                ops,
                less_green(g, neutral, part),
                b.planes[1][i],
            );
        lemma_one_value(ops, mean, m, n);
        lemma_one_value(ops, less_green(g, m, part), a.planes[1][i], b.planes[1][i]);
    }
    assert(a.planes[1] =~= b.planes[1]);
    assert(a.planes =~= b.planes);
}

/// Saturation is deterministic.
pub proof fn lemma_one_saturation<T, A: Arithmetic<T>>(
    ops: &A,
    factor: T,
    image: Raster<T>,
    a: Raster<T>,
    b: Raster<T>,
)
    requires
        is_deterministic(ops),
        is_saturated(ops, factor, image, a),
        is_saturated(ops, factor, image, b),
    ensures
        a == b,
{
    if image.planes.len() == 3 {
        let p = choose|off: bool| #[trigger]
            decides(ops, Test::Equal, Formula::Given(factor), whole(1), off) && if off {
                a == image
            } else {
                exists|lum: Seq<T>| #[trigger]
                    are_centers(ops, image, lum) && is_saturated_around(
                        ops,
                        lum,
                        factor,
                        image,
                        a,
                    )
            };
        let q = choose|off: bool| #[trigger]
            decides(ops, Test::Equal, Formula::Given(factor), whole(1), off) && if off {
                b == image
            } else {
                exists|lum: Seq<T>| #[trigger]
                    are_centers(ops, image, lum) && is_saturated_around(
                        ops,
                        lum,
                        factor,
                        image,
                        b,
                    )
            };
        lemma_one_decision(ops, Test::Equal, Formula::Given(factor), whole(1), p, q);
        if !p {
            let s = choose|lum: Seq<T>| #[trigger]
                are_centers(ops, image, lum) && is_saturated_around(ops, lum, factor, image, a);
            let t = choose|lum: Seq<T>| #[trigger]
                are_centers(ops, image, lum) && is_saturated_around(ops, lum, factor, image, b);
            lemma_one_sequence(
                ops,
                |i: int|
                    chroma_center(image.planes[0][i], image.planes[1][i], image.planes[2][i]),
                s,
                t,
            );
            assert forall|c: int| 0 <= c < a.planes.len() implies #[trigger] a.planes[c]
                == b.planes[c] by {
                assert(is_saturated_plane(ops, s, factor, image.planes[c], a.planes[c]));
                assert(is_saturated_plane(ops, s, factor, image.planes[c], b.planes[c]));
                lemma_one_sequence(
                    ops,
                    |i: int| saturated(s[i], factor, image.planes[c][i]),
                    a.planes[c],
                    b.planes[c],
                );
            }
            assert(a.planes =~= b.planes);
        }
    }
}

} // verus!
