//! What normalization makes of a channel.

use super::answers::is_deterministic;
use super::exact::{
    into_unit, is_exact, lemma_exact_binary, lemma_exact_ratio, lemma_exact_unit,
    lemma_exact_whole,
};
use super::order::{
    are_numbers, is_percentile_of, keys_follow, lemma_percentiles_are_exact, rounds_exactly,
};
use super::peaks::lemma_is_positive;
use super::stretching::{
    lemma_one_normalized, lemma_one_normalized_plane, lemma_one_stats_bounds,
};
use crate::arith::{Arithmetic, Binary, Formula, evals};
use crate::autocrop::CropBounds;
use crate::frame::Raster;
use crate::plane::crop_plane;
use crate::stretch::{
    StretchOptions, are_stats_bounds, is_normalized, is_normalized_plane, is_ready, is_stretched,
    is_stretched_by, normalizes_by, rescaled,
};
use vstd::prelude::*;

verus! {

/// Channels never influence each other: a channel of a normalized image is what
/// normalizing that channel alone, by the same interior, gives.
pub proof fn lemma_normalizations_are_apart<T, A: Arithmetic<T>>(
    ops: &A,
    image: Raster<T>,
    bounds: CropBounds,
    out: Raster<T>,
    c: int,
    mono: Raster<T>,
    alone: Raster<T>,
)
    requires
        is_deterministic(ops),
        0 <= c < image.planes.len(),
        mono == (Raster {
            width: image.width,
            height: image.height,
            planes: seq![image.planes[c]],
        }),
        is_normalized(ops, image, bounds, out),
        is_normalized(ops, mono, bounds, alone),
    ensures
        out.same_shape(image),
        alone.planes == seq![out.planes[c]],
{
    let interior = crop_plane(
        image.planes[c],
        image.width as int,
        image.height as int,
        bounds,
    );
    assert(is_normalized_plane(ops, mono.planes[0], interior, alone.planes[0]));
    lemma_one_normalized_plane(ops, image.planes[c], interior, out.planes[c], alone.planes[0]);
    assert(alone.planes =~= seq![out.planes[c]]);
}

/// `out` is black where `plane` stands for `low` or less, white where it stands
/// for `high` or more, and straight in between; all black where there is
/// nothing in between.
pub open spec fn is_plane_spanned<T>(
    val: spec_fn(T) -> real,
    plane: Seq<T>,
    low: real,
    high: real,
    out: Seq<T>,
) -> bool {
    &&& out.len() == plane.len()
    &&& low < high ==> forall|i: int|
        0 <= i < plane.len() ==> val(#[trigger] out[i]) == into_unit(
            (val(plane[i]) - low) / (high - low),
        )
    &&& low >= high ==> forall|i: int| 0 <= i < plane.len() ==> val(#[trigger] out[i]) == 0 as real
}

/// Every channel is normalized from its own percentiles 0.1 and 99.99, those of
/// the pixels inside the bounds.
pub proof fn lemma_normalization_spans<T, A: Arithmetic<T>>(
    ops: &A,
    val: spec_fn(T) -> real,
    image: Raster<T>,
    bounds: CropBounds,
    out: Raster<T>,
    c: int,
    interior: Seq<T>,
)
    requires
        is_exact(ops, val),
        keys_follow(ops, val),
        rounds_exactly(ops, val),
        0 <= c < image.planes.len(),
        interior == crop_plane(
            image.planes[c],
            image.width as int,
            image.height as int,
            bounds,
        ),
        1 <= interior.len() <= usize::MAX,
        are_numbers(ops, interior),
        is_normalized(ops, image, bounds, out),
    ensures
        exists|low: real, high: real|
            is_percentile_of(val, interior, (1 as real) / (10 as real), low) && is_percentile_of(
                val,
                interior,
                (9999 as real) / (100 as real),
                high,
            ) && #[trigger] is_plane_spanned(val, image.planes[c], low, high, out.planes[c]),
{
    let plane = image.planes[c];
    let res = out.planes[c];
    assert(is_normalized_plane(ops, plane, interior, res));
    let (lo_p, hi_p, low, high, range, spread, zero) = choose|
        lo_p: T,
        hi_p: T,
        low: T,
        high: T,
        range: T,
        spread: bool,
        zero: T,
    | #[trigger]
        normalizes_by(ops, plane, interior, lo_p, hi_p, low, high, range, spread, zero, res);
    lemma_exact_ratio(ops, val, 1, 10);
    lemma_exact_ratio(ops, val, 9999, 100);
    lemma_percentiles_are_exact(ops, val, interior, lo_p, hi_p, low, high);
    let (f, g) = (Formula::Given(low), Formula::Given(high));
    lemma_exact_binary(ops, val, Binary::Minus, g, f, val(high), val(low));
    lemma_is_positive(ops, val, range);
    lemma_exact_whole(ops, val, 0);
    let width = val(high) - val(low);
    if spread {
        assert forall|i: int| 0 <= i < plane.len() implies val(#[trigger] res[i]) == into_unit(
            (val(plane[i]) - val(low)) / width,
        ) by {
            let v = plane[i];
            let e = Formula::Given(v);
            let r = Formula::Given(range);
            lemma_exact_binary(ops, val, Binary::Minus, e, f, val(v), val(low));
            lemma_exact_binary(ops, val, Binary::Over, e.minus(f), r, val(v) - val(low), width);
            lemma_exact_unit(ops, val, e.minus(f).over(r), (val(v) - val(low)) / width);
            assert(evals(ops, rescaled(low, range)(v), res[i]));
        }
    }
    assert(is_plane_spanned(val, plane, val(low), val(high), res));
}

/// A stretch of raw data is the stretch, as data that are normalized already, of
/// the image normalized without the edges that statistics leave out.
pub proof fn lemma_stretch_normalizes_first<T, A: Arithmetic<T>>(
    ops: &A,
    options: StretchOptions<T>,
    image: Raster<T>,
    bounds: CropBounds,
    ready: Raster<T>,
    after: StretchOptions<T>,
    out: Raster<T>,
)
    requires
        is_deterministic(ops),
        !options.pre_normalized,
        after.pre_normalized,
        after.algorithm == options.algorithm,
        are_stats_bounds(ops, options.autocrop, image, bounds),
        is_normalized(ops, image, bounds, ready),
    ensures
        is_stretched(ops, options, image, out) <==> is_stretched(ops, after, ready, out),
{
    assert(is_ready(ops, options, image, ready));
    assert(is_ready(ops, after, ready, ready));
    if is_stretched(ops, options, image, out) {
        let other = choose|other: Raster<T>| #[trigger]
            is_ready(ops, options, image, other) && is_stretched_by(
                ops,
                options.algorithm,
                other,
                out,
            );
        let edges = choose|edges: CropBounds| #[trigger]
            are_stats_bounds(ops, options.autocrop, image, edges) && is_normalized(
                ops,
                image,
                edges,
                other,
            );
        lemma_one_stats_bounds(ops, options.autocrop, image, bounds, edges);
        lemma_one_normalized(ops, image, bounds, ready, other);
    }
}

} // verus!
