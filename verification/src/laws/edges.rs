//! What dark edges are.

use super::answers::is_deterministic;
use super::exact::{
    denotes, is_exact, lemma_exact_product, lemma_exact_ratio, lemma_exact_whole,
};
use super::reals::{
    lemma_product_distributes, lemma_product_not_negative, lemma_product_of_unit, lemma_share_of,
    product,
};
use super::statistics::lemma_one_median;
use super::stretching::lemma_one_luminance;
use crate::arith::{
    Arithmetic, Formula, Test, decides, evals, index_answers, indexes, test_answers, whole,
};
use crate::autocrop::{
    AutocropParams, CropBounds, are_dark, are_edges, are_edges_below, are_edges_by, are_ends,
    are_limits, column_of, edge_of, interior_medians, row_of, run_end,
};
use crate::frame::{Raster, is_luminance};
use crate::plane::lemma_pixel;
use crate::stats::is_median;
use crate::stretch::are_stats_bounds;
use vstd::prelude::*;

verus! {

/// An index is the whole part of the number that it is taken from.
pub open spec fn truncates_exactly<T, A: Arithmetic<T>>(
    ops: &A,
    val: spec_fn(T) -> real,
) -> bool {
    forall|x: T, k: usize| #[trigger]
        index_answers(ops, x, k) && 0 as real <= val(x) <= usize::MAX as int as real
            ==> is_whole_part(val(x), k as int)
}

/// `k` is the whole part of `a`.
pub open spec fn is_whole_part(a: real, k: int) -> bool {
    k as real <= a < (k + 1) as real
}

/// Line `k` of the lines, counted from the first or from the last.
pub open spec fn line_from<T>(lines: Seq<T>, back: bool, k: int) -> T {
    if back {
        lines[lines.len() - 1 - k]
    } else {
        lines[k]
    }
}

/// The first `r` lines from one end are dark, and either no more may be or the
/// next one is not.
pub open spec fn is_dark_run<T>(
    val: spec_fn(T) -> real,
    lines: Seq<T>,
    back: bool,
    dark: real,
    limit: int,
    r: int,
) -> bool {
    &&& 0 <= r <= limit
    &&& r <= lines.len()
    &&& forall|k: int| 0 <= k < r ==> val(#[trigger] line_from(lines, back, k)) < dark
    &&& r < limit && r < lines.len() ==> val(line_from(lines, back, r)) >= dark
}

/// `e` lines at one end are a dark edge: the run of dark lines there, unless it
/// is shorter than the least edge.
pub open spec fn is_dark_edge<T>(
    val: spec_fn(T) -> real,
    lines: Seq<T>,
    back: bool,
    dark: real,
    least: int,
    limit: int,
    e: int,
) -> bool {
    exists|r: int| #[trigger]
        is_dark_run(val, lines, back, dark, limit, r) && e == if r >= least {
            r
        } else {
            0
        }
}

/// The least edge of `n` lines: the given fraction of them, and at least one
/// line.
pub open spec fn is_least_edge(n: int, fraction: real, least: int) -> bool {
    exists|k: int| #[trigger]
        is_whole_part(product(n as real, fraction), k) && least == if k < 1 {
            1
        } else {
            k
        }
}

/// Both ends of a dimension have the edges `first` and `last`.
pub open spec fn have_dark_edges<T>(
    val: spec_fn(T) -> real,
    lines: Seq<T>,
    dark: real,
    min_fraction: real,
    max_fraction: real,
    first: int,
    last: int,
) -> bool {
    exists|least: int, limit: int|
        is_least_edge(lines.len() as int, min_fraction, least) && #[trigger] is_whole_part(
            product(lines.len() as real, max_fraction),
            limit,
        ) && #[trigger] is_dark_edge(val, lines, false, dark, least, limit, first) && is_dark_edge(
            val,
            lines,
            true,
            dark,
            least,
            limit,
            last,
        )
}

/// A run of flags is a run of dark lines.
proof fn lemma_run_is_dark<T>(
    val: spec_fn(T) -> real,
    lines: Seq<T>,
    back: bool,
    dark: real,
    flags: Seq<bool>,
    limit: int,
    k: int,
)
    requires
        flags.len() == lines.len(),
        forall|i: int|
            0 <= i < flags.len() ==> #[trigger] flags[i] == (val(line_from(lines, back, i))
                < dark),
        0 <= k <= limit,
        k <= lines.len(),
        forall|i: int| 0 <= i < k ==> val(#[trigger] line_from(lines, back, i)) < dark,
    ensures
        is_dark_run(val, lines, back, dark, limit, run_end(flags, limit, k)),
    decreases flags.len() - k,
{
    if !(k >= limit || k >= flags.len() || !flags[k]) {
        assert forall|i: int| 0 <= i < k + 1 implies val(#[trigger] line_from(lines, back, i))
            < dark by {
            if i == k {
                assert(flags[k]);
            }
        }
        lemma_run_is_dark(val, lines, back, dark, flags, limit, k + 1);
    }
}

/// The whole part of a number of lines.
proof fn lemma_part_of_lines<T, A: Arithmetic<T>>(
    ops: &A,
    val: spec_fn(T) -> real,
    n: int,
    fraction: T,
    k: usize,
)
    requires
        is_exact(ops, val),
        truncates_exactly(ops, val),
        0 <= n <= usize::MAX,
        0 as real <= val(fraction) <= 1 as real,
        indexes(ops, Formula::Count(n as usize).times(Formula::Given(fraction)), k),
    ensures
        is_whole_part(product(n as real, val(fraction)), k as int),
{
    let f = Formula::<T>::Count(n as usize);
    let g = Formula::Given(fraction);
    assert(denotes(ops, val, f, n as real));
    lemma_exact_product(ops, val, f, g, n as real, val(fraction));
    let x = choose|x: T| evals(ops, f.times(g), x) && #[trigger] index_answers(ops, x, k);
    lemma_fraction_of(n, val(fraction));
}

/// A fraction of a number of lines.
proof fn lemma_fraction_of(n: int, q: real)
    requires
        0 <= n <= usize::MAX,
        0 as real <= q <= 1 as real,
    ensures
        0 as real <= product(n as real, q) <= usize::MAX as int as real,
{
    let m = n as real;
    lemma_product_not_negative(m, q);
    lemma_product_not_negative(m, (1 as real) - q);
    lemma_product_distributes(m, 1 as real, q);
    lemma_product_of_unit(m);
}

/// Both ends of a dimension.
proof fn lemma_ends_are_dark<T, A: Arithmetic<T>>(
    ops: &A,
    val: spec_fn(T) -> real,
    params: AutocropParams<T>,
    lines: Seq<T>,
    dark: T,
    first: usize,
    last: usize,
)
    requires
        is_exact(ops, val),
        truncates_exactly(ops, val),
        lines.len() <= usize::MAX,
        0 as real <= val(params.min_crop_fraction) <= 1 as real,
        0 as real <= val(params.max_crop_fraction) <= 1 as real,
        are_ends(ops, params, lines, dark, first, last),
    ensures
        have_dark_edges(
            val,
            lines,
            val(dark),
            val(params.min_crop_fraction),
            val(params.max_crop_fraction),
            first as int,
            last as int,
        ),
{
    let n = lines.len() as int;
    let (flags, min_px, max_px, k) = choose|flags: Seq<bool>, min_px: int, max_px: int, k: usize|
        are_dark(ops, lines, dark, flags) && #[trigger] are_limits(
            ops,
            params,
            n,
            min_px,
            max_px,
            k,
        ) && #[trigger] edge_of(flags, min_px, max_px) == first && edge_of(
            flags.reverse(),
            min_px,
            max_px,
        ) == last;
    lemma_part_of_lines(ops, val, n, params.min_crop_fraction, k);
    lemma_part_of_lines(ops, val, n, params.max_crop_fraction, max_px as usize);
    assert(is_least_edge(n, val(params.min_crop_fraction), min_px));
    assert forall|i: int| 0 <= i < n implies #[trigger] flags[i] == (val(lines[i]) < val(
        dark,
    )) by {
        let (f, g) = (Formula::Given(lines[i]), Formula::Given(dark));
        assert(decides(ops, Test::Less, f, g, flags[i]));
        let (x, y) = choose|x: T, y: T|
            evals(ops, f, x) && evals(ops, g, y) && #[trigger] test_answers(
                ops,
                Test::Less,
                x,
                y,
                flags[i],
            );
    }
    lemma_run_is_dark(val, lines, false, val(dark), flags, max_px, 0);
    let tail = flags.reverse();
    assert forall|i: int| 0 <= i < tail.len() implies #[trigger] tail[i] == (val(
        line_from(lines, true, i),
    ) < val(dark)) by {
        assert(tail[i] == flags[n - 1 - i]);
    }
    lemma_run_is_dark(val, lines, true, val(dark), tail, max_px, 0);
    assert(is_dark_edge(val, lines, false, val(dark), min_px, max_px, first as int));
    assert(is_dark_edge(val, lines, true, val(dark), min_px, max_px, last as int));
}

/// The lines of the central three fifths.
pub open spec fn central<T>(lines: Seq<T>) -> Seq<T> {
    lines.subrange(lines.len() as int / 5, 4 * lines.len() as int / 5)
}

/// Dark edges are runs of dark lines at the borders. A line is dark where the
/// median of its luminance is below the threshold times the median of the
/// central rows and columns. A run is an edge from the least fraction of its
/// dimension on, and counts up to the greatest fraction. Edges that would leave
/// less than half of a dimension do not count, nor does anything where the
/// center is not brighter than zero.
pub proof fn lemma_edges_are_dark<T, A: Arithmetic<T>>(
    ops: &A,
    val: spec_fn(T) -> real,
    params: AutocropParams<T>,
    image: Raster<T>,
    lum: Seq<T>,
    rows: Seq<T>,
    cols: Seq<T>,
    center: T,
    dark: real,
    bounds: CropBounds,
)
    requires
        is_deterministic(ops),
        is_exact(ops, val),
        truncates_exactly(ops, val),
        2 <= image.width <= usize::MAX,
        2 <= image.height <= usize::MAX,
        0 as real <= val(params.min_crop_fraction) <= 1 as real,
        0 as real <= val(params.max_crop_fraction) <= 1 as real,
        is_luminance(ops, image, lum),
        rows.len() == image.height,
        forall|y: int|
            0 <= y < image.height ==> is_median(
                ops,
                Seq::new(image.width, |x: int| lum[y * image.width + x]),
                #[trigger] rows[y],
            ),
        cols.len() == image.width,
        forall|x: int|
            0 <= x < image.width ==> is_median(
                ops,
                Seq::new(image.height, |y: int| lum[y * image.width + x]),
                #[trigger] cols[x],
            ),
        is_median(ops, central(rows) + central(cols), center),
        dark == product(val(center), val(params.threshold)),
        are_edges(ops, params, image, bounds),
    ensures
        val(center) <= 0 as real ==> bounds == (0usize, 0usize, 0usize, 0usize),
        val(center) > 0 as real ==> exists|found: CropBounds|
            have_dark_edges(
                val,
                rows,
                dark,
                val(params.min_crop_fraction),
                val(params.max_crop_fraction),
                found.0 as int,
                found.1 as int,
            ) && have_dark_edges(
                val,
                cols,
                dark,
                val(params.min_crop_fraction),
                val(params.max_crop_fraction),
                found.2 as int,
                found.3 as int,
            ) && bounds == #[trigger] half_kept(image.width as int, image.height as int, found),
{
    let (w, h) = (image.width as int, image.height as int);
    let (light, lines, columns) = choose|lum: Seq<T>, rows: Seq<T>, cols: Seq<T>| #[trigger]
        are_edges_by(ops, params, image, lum, rows, cols, bounds);
    lemma_one_luminance(ops, image, lum, light);
    assert forall|y: int| 0 <= y < h implies #[trigger] rows[y] == lines[y] by {
        lemma_pixel(0, y, w, h);
        assert(row_of(lum, w, y) =~= Seq::new(image.width, |x: int| lum[y * image.width + x]));
        lemma_one_median(ops, row_of(lum, w, y), rows[y], lines[y]);
    }
    assert(rows =~= lines);
    assert forall|x: int| 0 <= x < w implies #[trigger] cols[x] == columns[x] by {
        assert(column_of(lum, w, h, x) =~= Seq::new(
            image.height,
            |y: int| lum[y * image.width + x],
        ));
        lemma_one_median(ops, column_of(lum, w, h, x), cols[x], columns[x]);
    }
    assert(cols =~= columns);
    let (m, none, edge, found) = choose|m: T, none: bool, dark: T, found: CropBounds| #[trigger]
        are_edges_below(ops, params, rows, cols, m, none, dark, found, bounds);
    assert(interior_medians(rows, cols) =~= central(rows) + central(cols));
    lemma_one_median(ops, interior_medians(rows, cols), m, center);
    lemma_exact_whole(ops, val, 0);
    let (p, q) = choose|p: T, q: T|
        evals(ops, Formula::Given(m), p) && evals(ops, whole(0), q) && #[trigger] test_answers(
            ops,
            Test::LessOrEqual,
            p,
            q,
            none,
        );
    assert(none == (val(center) <= 0 as real));
    if !none {
        lemma_exact_product(
            ops,
            val,
            Formula::Given(m),
            Formula::Given(params.threshold),
            val(m),
            val(params.threshold),
        );
        assert(val(edge) == dark);
        lemma_ends_are_dark(ops, val, params, rows, edge, found.0, found.1);
        lemma_ends_are_dark(ops, val, params, cols, edge, found.2, found.3);
        assert(bounds == half_kept(w, h, found));
    }
}

/// The edges where they leave half of both dimensions, none otherwise.
pub open spec fn half_kept(w: int, h: int, found: CropBounds) -> CropBounds {
    if 2 * (found.0 + found.1) <= h && 2 * (found.2 + found.3) <= w {
        found
    } else {
        (0, 0, 0, 0)
    }
}

/// The statistics of a stretch leave out the edges with fewer than fifteen
/// hundredths of the light of the center, from one to twenty hundredths of a
/// dimension, where edges are looked for, and nothing otherwise.
pub proof fn lemma_statistics_leave_out_edges<T, A: Arithmetic<T>>(
    ops: &A,
    val: spec_fn(T) -> real,
    detect: bool,
    image: Raster<T>,
    lum: Seq<T>,
    rows: Seq<T>,
    cols: Seq<T>,
    center: T,
    bounds: CropBounds,
)
    requires
        is_deterministic(ops),
        is_exact(ops, val),
        truncates_exactly(ops, val),
        2 <= image.width <= usize::MAX,
        2 <= image.height <= usize::MAX,
        is_luminance(ops, image, lum),
        rows.len() == image.height,
        forall|y: int|
            0 <= y < image.height ==> is_median(
                ops,
                Seq::new(image.width, |x: int| lum[y * image.width + x]),
                #[trigger] rows[y],
            ),
        cols.len() == image.width,
        forall|x: int|
            0 <= x < image.width ==> is_median(
                ops,
                Seq::new(image.height, |y: int| lum[y * image.width + x]),
                #[trigger] cols[x],
            ),
        is_median(ops, central(rows) + central(cols), center),
        are_stats_bounds(ops, detect, image, bounds),
    ensures
        !detect || val(center) <= 0 as real ==> bounds == (0usize, 0usize, 0usize, 0usize),
        detect && val(center) > 0 as real ==> exists|found: CropBounds|
            have_dark_edges(
                val,
                rows,
                product(val(center), (15 as real) / (100 as real)),
                (1 as real) / (100 as real),
                (20 as real) / (100 as real),
                found.0 as int,
                found.1 as int,
            ) && have_dark_edges(
                val,
                cols,
                product(val(center), (15 as real) / (100 as real)),
                (1 as real) / (100 as real),
                (20 as real) / (100 as real),
                found.2 as int,
                found.3 as int,
            ) && bounds == #[trigger] half_kept(image.width as int, image.height as int, found),
{
    if detect {
        let params = choose|params: AutocropParams<T>| #[trigger]
            params.are_defaults(ops) && are_edges(ops, params, image, bounds);
        lemma_exact_ratio(ops, val, 15, 100);
        lemma_exact_ratio(ops, val, 1, 100);
        lemma_exact_ratio(ops, val, 20, 100);
        lemma_share_of(1 as real, 100 as real);
        lemma_share_of(20 as real, 100 as real);
        let dark = product(val(center), (15 as real) / (100 as real));
        lemma_edges_are_dark(
            ops,
            val,
            params,
            image,
            lum,
            rows,
            cols,
            center,
            dark,
            bounds,
        );
    }
}

} // verus!
