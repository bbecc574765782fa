//! Edge detection and stretching do not depend on the unit of raw data.

use super::answers::{is_deterministic, lemma_one_index, lemma_one_value};
use super::scaling::{
    all_related, are_related_images, is_linear, is_ordered, keeps_numbers, lemma_related_decision,
    lemma_related_medians, lemma_related_multiple, lemma_related_percentiles, lemma_related_sum,
    relates,
};
use super::stretching::lemma_one_stretch;
use crate::arith::{
    Arithmetic, Binary, Formula, Test, binary_answers, clamp_answers, evals, whole,
};
use crate::autocrop::{
    AutocropParams, CropBounds, are_dark, are_edges, are_edges_below, are_edges_by, are_ends,
    are_limits, column_of, edge_of, interior_end, interior_medians, interior_start,
    lemma_edges_keep_half, row_of,
};
use crate::frame::{Raster, channel_sum, is_luminance, luminance_at};
use crate::plane::{bounds_fit, crop_plane, lemma_crop_size, lemma_pixel, lemma_place};
use crate::stats::is_median;
use crate::stretch::{
    StretchOptions, are_stats_bounds, is_normalized, is_normalized_plane, is_ready, is_stretched,
    is_stretched_by, normalizes_by, rescaled,
};
use vstd::prelude::*;

verus! {

/// The quotients of related samples are equal.
pub open spec fn keeps_quotients<T, A: Arithmetic<T>>(
    ops: &A,
    rel: spec_fn(T, T) -> bool,
) -> bool {
    forall|x: T, y: T, u: T, p: T, q: T, v: T| #[trigger]
        binary_answers(ops, Binary::Over, x, y, u) && #[trigger] binary_answers(
            ops,
            Binary::Over,
            p,
            q,
            v,
        ) && rel(x, p) && rel(y, q) ==> u == v
}

/// The channel sums of related images are related.
proof fn lemma_related_channel_sums<T, A: Arithmetic<T>>(
    ops: &A,
    rel: spec_fn(T, T) -> bool,
    image: Raster<T>,
    other: Raster<T>,
    i: int,
    n: int,
)
    requires
        is_linear(ops, rel),
        image.wf(),
        are_related_images(rel, image, other),
        0 <= i < image.width * image.height,
        n <= image.planes.len(),
    ensures
        relates(ops, rel, channel_sum(image.planes, i, n), channel_sum(other.planes, i, n)),
    decreases n,
{
    if n > 0 {
        lemma_related_channel_sums(ops, rel, image, other, i, n - 1);
        assert(all_related(rel, image.planes[n - 1], other.planes[n - 1]));
        assert(rel(image.planes[n - 1][i], other.planes[n - 1][i]));
        lemma_related_sum(
            ops,
            rel,
            Binary::Plus,
            channel_sum(image.planes, i, n - 1),
            Formula::Given(image.planes[n - 1][i]),
            channel_sum(other.planes, i, n - 1),
            Formula::Given(other.planes[n - 1][i]),
        );
    }
}

/// The luminances of related images are related.
proof fn lemma_related_luminances<T, A: Arithmetic<T>>(
    ops: &A,
    rel: spec_fn(T, T) -> bool,
    image: Raster<T>,
    other: Raster<T>,
    a: Seq<T>,
    b: Seq<T>,
)
    requires
        is_deterministic(ops),
        is_linear(ops, rel),
        image.wf(),
        are_related_images(rel, image, other),
        is_luminance(ops, image, a),
        is_luminance(ops, other, b),
    ensures
        all_related(rel, a, b),
{
    let n = image.planes.len() as int;
    if n == 1 {
        assert(all_related(rel, image.planes[0], other.planes[0]));
    } else {
        assert forall|i: int| 0 <= i < a.len() implies rel(#[trigger] a[i], b[i]) by {
            lemma_related_channel_sums(ops, rel, image, other, i, n);
            lemma_related_multiple(
                ops,
                rel,
                Binary::Times,
                channel_sum(image.planes, i, n),
                channel_sum(other.planes, i, n),
                whole(1).over(Formula::Count(n as usize)),
            );
            assert(evals(ops, luminance_at(image.planes, i), a[i]));
            assert(evals(ops, luminance_at(other.planes, i), b[i]));
        }
    }
}

/// Lines with related medians have the same dark edges.
pub proof fn lemma_related_ends<T, A: Arithmetic<T>>(
    ops: &A,
    rel: spec_fn(T, T) -> bool,
    params: AutocropParams<T>,
    medians: Seq<T>,
    dark: T,
    a: (usize, usize),
    others: Seq<T>,
    dim: T,
    b: (usize, usize),
)
    requires
        is_deterministic(ops),
        is_ordered(ops, rel),
        all_related(rel, medians, others),
        rel(dark, dim),
        are_ends(ops, params, medians, dark, a.0, a.1),
        are_ends(ops, params, others, dim, b.0, b.1),
    ensures
        a == b,
{
    let n = medians.len() as int;
    let (s, least, most, k) = choose|flags: Seq<bool>, min_px: int, max_px: int, k: usize|
        are_dark(ops, medians, dark, flags) && #[trigger] are_limits(
            ops,
            params,
            n,
            min_px,
            max_px,
            k,
        ) && #[trigger] edge_of(flags, min_px, max_px) == a.0 && edge_of(
            flags.reverse(),
            min_px,
            max_px,
        ) == a.1;
    let (t, fewest, utmost, l) = choose|flags: Seq<bool>, min_px: int, max_px: int, k: usize|
        are_dark(ops, others, dim, flags) && #[trigger] are_limits(
            ops,
            params,
            n,
            min_px,
            max_px,
            k,
        ) && #[trigger] edge_of(flags, min_px, max_px) == b.0 && edge_of(
            flags.reverse(),
            min_px,
            max_px,
        ) == b.1;
    assert forall|i: int| 0 <= i < s.len() implies #[trigger] s[i] == t[i] by {
        assert(rel(medians[i], others[i]));
        lemma_related_decision(
            ops,
            rel,
            Test::Less,
            Formula::Given(medians[i]),
            Formula::Given(dark),
            s[i],
            Formula::Given(others[i]),
            Formula::Given(dim),
            t[i],
        );
    }
    assert(s =~= t);
    lemma_one_index(
        ops,
        Formula::Count(n as usize).times(Formula::Given(params.min_crop_fraction)),
        k,
        l,
    );
    lemma_one_index(
        ops,
        Formula::Count(n as usize).times(Formula::Given(params.max_crop_fraction)),
        most as usize,
        utmost as usize,
    );
}

/// Edge detection does not depend on the unit: an image in another unit has
/// the same dark edges.
pub proof fn lemma_detection_is_scale_free<T, A: Arithmetic<T>>(
    ops: &A,
    rel: spec_fn(T, T) -> bool,
    params: AutocropParams<T>,
    image: Raster<T>,
    other: Raster<T>,
    a: CropBounds,
    b: CropBounds,
)
    requires
        is_deterministic(ops),
        is_linear(ops, rel),
        is_ordered(ops, rel),
        image.wf(),
        are_related_images(rel, image, other),
        are_edges(ops, params, image, a),
        are_edges(ops, params, other, b),
    ensures
        a == b,
{
    let w = image.width as int;
    let h = image.height as int;
    let (lum, rows, cols) = choose|lum: Seq<T>, rows: Seq<T>, cols: Seq<T>| #[trigger]
        are_edges_by(ops, params, image, lum, rows, cols, a);
    let (light, lines, columns) = choose|lum: Seq<T>, rows: Seq<T>, cols: Seq<T>| #[trigger]
        are_edges_by(ops, params, other, lum, rows, cols, b);
    lemma_related_luminances(ops, rel, image, other, lum, light);
    assert forall|y: int| 0 <= y < h implies rel(#[trigger] rows[y], lines[y]) by {
        let (s, t) = (row_of(lum, w, y), row_of(light, w, y));
        if w > 0 {
            lemma_pixel(0, y, w, h);
        } else {
            assert(y * w == 0) by (nonlinear_arith)
                requires
                    w == 0,
            ;
        }
        assert forall|i: int| 0 <= i < s.len() implies rel(#[trigger] s[i], t[i]) by {
            assert(rel(lum[y * w + i], light[y * w + i]));
        }
        assert(is_median(ops, t, lines[y]));
        lemma_related_medians(ops, rel, s, t, rows[y], lines[y]);
    }
    assert forall|x: int| 0 <= x < w implies rel(#[trigger] cols[x], columns[x]) by {
        let (s, t) = (column_of(lum, w, h, x), column_of(light, w, h, x));
        assert forall|i: int| 0 <= i < s.len() implies rel(#[trigger] s[i], t[i]) by {
            lemma_pixel(x, i, w, h);
            assert(rel(lum[i * w + x], light[i * w + x]));
        }
        assert(is_median(ops, t, columns[x]));
        lemma_related_medians(ops, rel, s, t, cols[x], columns[x]);
    }
    if rows.len() >= 2 && cols.len() >= 2 {
        let (m, none, dark, found) = choose|m: T, none: bool, dark: T, found: CropBounds| #[trigger]
            are_edges_below(ops, params, rows, cols, m, none, dark, found, a);
        let (l, empty, dim, seen) = choose|m: T, none: bool, dark: T, found: CropBounds| #[trigger]
            are_edges_below(ops, params, lines, columns, m, none, dark, found, b);
        let (s, t) = (interior_medians(rows, cols), interior_medians(lines, columns));
        assert forall|i: int| 0 <= i < s.len() implies rel(#[trigger] s[i], t[i]) by {
            let top = interior_end(h) - interior_start(h);
            if i < top {
                assert(rel(rows[interior_start(h) + i], lines[interior_start(h) + i]));
            } else {
                let j = interior_start(w) + i - top;
                assert(rel(cols[j], columns[j]));
            }
        }
        lemma_related_medians(ops, rel, s, t, m, l);
        lemma_related_decision(
            ops,
            rel,
            Test::LessOrEqual,
            Formula::Given(m),
            whole(0),
            none,
            Formula::Given(l),
            whole(0),
            empty,
        );
        if !none {
            lemma_related_multiple(
                ops,
                rel,
                Binary::Times,
                Formula::Given(m),
                Formula::Given(l),
                Formula::Given(params.threshold),
            );
            assert(rel(dark, dim));
            lemma_related_ends(
                ops,
                rel,
                params,
                rows,
                dark,
                (found.0, found.1),
                lines,
                dim,
                (seen.0, seen.1),
            );
            lemma_related_ends(
                ops,
                rel,
                params,
                cols,
                dark,
                (found.2, found.3),
                columns,
                dim,
                (seen.2, seen.3),
            );
        }
    }
}

/// Related planes normalize alike.
proof fn lemma_related_normalized_planes<T, A: Arithmetic<T>>(
    ops: &A,
    rel: spec_fn(T, T) -> bool,
    plane: Seq<T>,
    interior: Seq<T>,
    a: Seq<T>,
    other: Seq<T>,
    inside: Seq<T>,
    b: Seq<T>,
)
    requires
        is_deterministic(ops),
        is_linear(ops, rel),
        is_ordered(ops, rel),
        keeps_numbers(ops, rel),
        keeps_quotients(ops, rel),
        all_related(rel, plane, other),
        all_related(rel, interior, inside),
        is_normalized_plane(ops, plane, interior, a),
        is_normalized_plane(ops, other, inside, b),
    ensures
        a == b,
{
    let (lo_p, hi_p, low, high, range, spread, zero) = choose|
        lo_p: T,
        hi_p: T,
        low: T,
        high: T,
        range: T,
        spread: bool,
        zero: T,
    | #[trigger]
        normalizes_by(ops, plane, interior, lo_p, hi_p, low, high, range, spread, zero, a);
    let (lo_q, hi_q, least, most, width, wide, nil) = choose|
        lo_p: T,
        hi_p: T,
        low: T,
        high: T,
        range: T,
        spread: bool,
        zero: T,
    | #[trigger]
        normalizes_by(ops, other, inside, lo_p, hi_p, low, high, range, spread, zero, b);
    lemma_one_value(ops, Formula::Ratio(1, 10), lo_p, lo_q);
    lemma_one_value(ops, Formula::Ratio(9999, 100), hi_p, hi_q);
    lemma_related_percentiles(ops, rel, interior, inside, lo_p, hi_p, low, high, least, most);
    let (f, g) = (Formula::Given(low), Formula::Given(least));
    lemma_related_sum(ops, rel, Binary::Minus, Formula::Given(high), f, Formula::Given(most), g);
    assert(rel(range, width));
    lemma_related_decision(
        ops,
        rel,
        Test::Less,
        whole(0),
        Formula::Given(range),
        spread,
        whole(0),
        Formula::Given(width),
        wide,
    );
    if spread {
        assert forall|i: int| 0 <= i < a.len() implies #[trigger] a[i] == b[i] by {
            assert(rel(plane[i], other[i]));
            let (c, d) = (Formula::Given(plane[i]), Formula::Given(other[i]));
            lemma_related_sum(ops, rel, Binary::Minus, c, f, d, g);
            let (s, t) = (
                c.minus(f).over(Formula::Given(range)),
                d.minus(g).over(Formula::Given(width)),
            );
            assert(evals(ops, rescaled(low, range)(plane[i]), a[i]));
            assert(evals(ops, rescaled(least, width)(other[i]), b[i]));
            let (x, l, h) = choose|x: T, l: T, h: T|
                evals(ops, s, x) && evals(ops, whole(0), l) && evals(ops, whole(1), h)
                    && #[trigger] clamp_answers(ops, x, l, h, a[i]);
            let (y, m, k) = choose|x: T, l: T, h: T|
                evals(ops, t, x) && evals(ops, whole(0), l) && evals(ops, whole(1), h)
                    && #[trigger] clamp_answers(ops, x, l, h, b[i]);
            let (p, q) = choose|p: T, q: T|
                evals(ops, c.minus(f), p) && evals(ops, Formula::Given(range), q)
                    && #[trigger] binary_answers(ops, Binary::Over, p, q, x);
            let (u, v) = choose|p: T, q: T|
                evals(ops, d.minus(g), p) && evals(ops, Formula::Given(width), q)
                    && #[trigger] binary_answers(ops, Binary::Over, p, q, y);
            assert(rel(p, u) && rel(q, v));
            assert(x == y);
            lemma_one_value(ops, whole(0), l, m);
            lemma_one_value(ops, whole(1), h, k);
        }
    } else {
        lemma_one_value(ops, whole(0), zero, nil);
    }
    assert(a =~= b);
}

/// Stretching raw data does not depend on its unit: an image in another unit
/// has the same stretched image.
pub proof fn lemma_stretch_is_scale_free<T, A: Arithmetic<T>>(
    ops: &A,
    rel: spec_fn(T, T) -> bool,
    options: StretchOptions<T>,
    image: Raster<T>,
    other: Raster<T>,
    a: Raster<T>,
    b: Raster<T>,
)
    requires
        is_deterministic(ops),
        is_linear(ops, rel),
        is_ordered(ops, rel),
        keeps_numbers(ops, rel),
        keeps_quotients(ops, rel),
        image.wf(),
        are_related_images(rel, image, other),
        !options.pre_normalized,
        is_stretched(ops, options, image, a),
        is_stretched(ops, options, other, b),
    ensures
        a == b,
{
    let w = image.width as int;
    let h = image.height as int;
    let ready = choose|ready: Raster<T>| #[trigger]
        is_ready(ops, options, image, ready) && is_stretched_by(ops, options.algorithm, ready, a);
    let set = choose|ready: Raster<T>| #[trigger]
        is_ready(ops, options, other, ready) && is_stretched_by(ops, options.algorithm, ready, b);
    let bounds = choose|bounds: CropBounds| #[trigger]
        are_stats_bounds(ops, options.autocrop, image, bounds) && is_normalized(
            ops,
            image,
            bounds,
            ready,
        );
    let edges = choose|bounds: CropBounds| #[trigger]
        are_stats_bounds(ops, options.autocrop, other, bounds) && is_normalized(
            ops,
            other,
            bounds,
            set,
        );
    if options.autocrop {
        let p = choose|params: AutocropParams<T>| #[trigger]
            params.are_defaults(ops) && are_edges(ops, params, image, bounds);
        let q = choose|params: AutocropParams<T>| #[trigger]
            params.are_defaults(ops) && are_edges(ops, params, other, edges);
        lemma_one_value(ops, Formula::Ratio(15, 100), p.threshold, q.threshold);
        lemma_one_value(ops, Formula::Ratio(1, 100), p.min_crop_fraction, q.min_crop_fraction);
        lemma_one_value(ops, Formula::Ratio(20, 100), p.max_crop_fraction, q.max_crop_fraction);
        lemma_detection_is_scale_free(ops, rel, p, image, other, bounds, edges);
        lemma_edges_keep_half(ops, p, image, bounds);
    }
    assert(bounds == edges && bounds_fit(w, h, bounds));
    assert forall|c: int| 0 <= c < ready.planes.len() implies #[trigger] ready.planes[c]
        == set.planes[c] by {
        let (s, t) = (image.planes[c], other.planes[c]);
        let (u, v) = (crop_plane(s, w, h, bounds), crop_plane(t, w, h, bounds));
        assert(all_related(rel, s, t));
        lemma_crop_size(w, h, bounds);
        assert forall|i: int| 0 <= i < u.len() implies rel(#[trigger] u[i], v[i]) by {
            let cols = w - bounds.2 - bounds.3;
            let rows = h - bounds.0 - bounds.1;
            lemma_place(i, cols, rows);
            let x = bounds.2 + i % cols;
            let y = bounds.0 + i / cols;
            lemma_pixel(x, y, w, h);
            assert(y * w + bounds.2 + i % cols == y * w + x);
            assert(rel(s[y * w + x], t[y * w + x]));
        }
        assert(is_normalized_plane(ops, t, v, set.planes[c]));
        lemma_related_normalized_planes(
            ops,
            rel,
            s,
            u,
            ready.planes[c],
            t,
            v,
            set.planes[c],
        );
    }
    assert(ready.planes =~= set.planes);
    let plain = StretchOptions {
        algorithm: options.algorithm,
        autocrop: false,
        pre_normalized: true,
    };
    assert(is_ready(ops, plain, ready, ready));
    lemma_one_stretch(ops, plain, ready, a, b);
}

} // verus!
