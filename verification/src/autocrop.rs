//! Auto-crop dark or noisy stacking edges from astrophotography images.
//!
//! Alt-az mounts and poor guiding produce dark bars or noisy edges after
//! stacking. This module detects them so stretching and gradient removal can
//! compute statistics from the clean interior.

use crate::arith::{
    Arithmetic, Formula, Sample, Test, Traced, decides, evals, indexes, whole,
};
use crate::frame::{Image, Raster, is_luminance, lemma_crop_nothing};
use crate::parallel::par_map;
use crate::plane::{bounds_fit, lemma_pixel};
use crate::stats::{is_median, median_of};
use vstd::prelude::*;
use vstd::slice::slice_subrange;

verus! {

/// Pixels detected as dark edge on each side: `(top, bottom, left, right)`.
pub type CropBounds = (usize, usize, usize, usize);

/// Tuning for dark-edge detection.
#[derive(Debug)]
pub struct AutocropParams<T> {
    /// An edge is dark if its median is below this fraction of the interior
    /// median.
    pub threshold: T,
    /// Minimum fraction of a dimension a dark run must span to count (avoids
    /// cropping single-pixel noise).
    pub min_crop_fraction: T,
    /// Maximum fraction of a dimension to crop from each edge.
    pub max_crop_fraction: T,
}

impl<T: Copy> Clone for AutocropParams<T> {
    fn clone(&self) -> (r: Self)
        ensures
            r == *self,
    {
        *self
    }
}

impl<T: Copy> Copy for AutocropParams<T> {

}

impl<T> AutocropParams<T> {
    /// The tuning that [`AutocropParams::defaults`] gives.
    pub open spec fn are_defaults<A: Arithmetic<T>>(self, ops: &A) -> bool {
        &&& evals(ops, Formula::Ratio(15, 100), self.threshold)
        &&& evals(ops, Formula::Ratio(1, 100), self.min_crop_fraction)
        &&& evals(ops, Formula::Ratio(20, 100), self.max_crop_fraction)
    }
}

impl<T: Sample> AutocropParams<T> {
    /// Edges darker than 15% of the interior, between 1% and 20% of a
    /// dimension.
    pub fn defaults<A: Arithmetic<T>>(ops: &A) -> (r: Self)
        ensures
            r.are_defaults(ops),
    {
        AutocropParams {
            threshold: ops.ratio(15, 100),
            min_crop_fraction: ops.ratio(1, 100),
            max_crop_fraction: ops.ratio(20, 100),
        }
    }
}

/// One row of a plane.
pub open spec fn row_of<T>(plane: Seq<T>, w: int, y: int) -> Seq<T> {
    plane.subrange(y * w, y * w + w)
}

/// One column of a plane.
pub open spec fn column_of<T>(plane: Seq<T>, w: int, h: int, x: int) -> Seq<T> {
    Seq::new(h as nat, |y: int| plane[y * w + x])
}

/// The medians of the rows.
pub open spec fn are_row_medians<T, A: Arithmetic<T>>(
    ops: &A,
    plane: Seq<T>,
    w: int,
    h: int,
    medians: Seq<T>,
) -> bool {
    &&& medians.len() == h
    &&& forall|y: int| 0 <= y < h ==> is_median(ops, row_of(plane, w, y), #[trigger] medians[y])
}

/// The medians of the columns.
pub open spec fn are_column_medians<T, A: Arithmetic<T>>(
    ops: &A,
    plane: Seq<T>,
    w: int,
    h: int,
    medians: Seq<T>,
) -> bool {
    &&& medians.len() == w
    &&& forall|x: int|
        0 <= x < w ==> is_median(ops, column_of(plane, w, h, x), #[trigger] medians[x])
}

/// Where the central 60% of `n` lines begin.
pub open spec fn interior_start(n: int) -> int {
    n / 5
}

/// Where the central 60% of `n` lines end.
pub open spec fn interior_end(n: int) -> int {
    4 * n / 5
}

/// The medians of the central 60% of the rows, then those of the columns.
pub open spec fn interior_medians<T>(rows: Seq<T>, cols: Seq<T>) -> Seq<T> {
    let h = rows.len() as int;
    let w = cols.len() as int;
    rows.subrange(interior_start(h), interior_end(h)) + cols.subrange(
        interior_start(w),
        interior_end(w),
    )
}

/// The flags tell the medians that lie below the threshold.
pub open spec fn are_dark<T, A: Arithmetic<T>>(
    ops: &A,
    medians: Seq<T>,
    dark: T,
    flags: Seq<bool>,
) -> bool {
    &&& flags.len() == medians.len()
    &&& forall|i: int|
        0 <= i < flags.len() ==> decides(
            ops,
            Test::Less,
            Formula::Given(medians[i]),
            Formula::Given(dark),
            #[trigger] flags[i],
        )
}

/// The length of the run of set flags from `k` on, up to `limit` flags.
pub open spec fn run_end(flags: Seq<bool>, limit: int, k: int) -> int
    decreases flags.len() - k,
{
    if k >= limit || k >= flags.len() || !flags[k] {
        k
    } else {
        run_end(flags, limit, k + 1)
    }
}

/// The dark edge at the start of the flags: the run there, if it is long
/// enough.
pub open spec fn edge_of(flags: Seq<bool>, min_px: int, max_px: int) -> usize {
    let n = run_end(flags, max_px, 0);
    if n >= min_px {
        n as usize
    } else {
        0
    }
}

/// The least and the most pixels that an edge of a dimension can have.
pub open spec fn are_limits<T, A: Arithmetic<T>>(
    ops: &A,
    params: AutocropParams<T>,
    n: int,
    min_px: int,
    max_px: int,
    k: usize,
) -> bool {
    &&& indexes(
        ops,
        Formula::Count(n as usize).times(Formula::Given(params.min_crop_fraction)),
        k,
    )
    &&& min_px == if k < 1 {
        1
    } else {
        k as int
    }
    &&& 0 <= max_px <= usize::MAX
    &&& indexes(
        ops,
        Formula::Count(n as usize).times(Formula::Given(params.max_crop_fraction)),
        max_px as usize,
    )
}

/// The edges at both ends of a dimension.
pub open spec fn are_ends<T, A: Arithmetic<T>>(
    ops: &A,
    params: AutocropParams<T>,
    medians: Seq<T>,
    dark: T,
    first: usize,
    last: usize,
) -> bool {
    exists|flags: Seq<bool>, min_px: int, max_px: int, k: usize|
        are_dark(ops, medians, dark, flags) && #[trigger] are_limits(
            ops,
            params,
            medians.len() as int,
            min_px,
            max_px,
            k,
        ) && #[trigger] edge_of(flags, min_px, max_px) == first && edge_of(
            flags.reverse(),
            min_px,
            max_px,
        ) == last
}

/// At least half of `n` lines are left.
pub open spec fn keeps_half(n: int, first: usize, last: usize) -> bool {
    2 * (n - first - last) >= n
}

/// The bounds, or zero bounds where they would remove more than half of a
/// dimension.
pub open spec fn safe_bounds(w: int, h: int, bounds: CropBounds) -> CropBounds {
    if keeps_half(h, bounds.0, bounds.1) && keeps_half(w, bounds.2, bounds.3) {
        bounds
    } else {
        (0, 0, 0, 0)
    }
}

/// `bounds` are the edges darker than the fraction `params.threshold` of the
/// interior median `m`; zero bounds where that median is not positive.
pub open spec fn are_edges_below<T, A: Arithmetic<T>>(
    ops: &A,
    params: AutocropParams<T>,
    rows: Seq<T>,
    cols: Seq<T>,
    m: T,
    none: bool,
    dark: T,
    found: CropBounds,
    bounds: CropBounds,
) -> bool {
    &&& is_median(ops, interior_medians(rows, cols), m)
    &&& decides(ops, Test::LessOrEqual, Formula::Given(m), whole(0), none)
    &&& if none {
        bounds == (0usize, 0usize, 0usize, 0usize)
    } else {
        &&& evals(ops, Formula::Given(m).times(Formula::Given(params.threshold)), dark)
        &&& are_ends(ops, params, rows, dark, found.0, found.1)
        &&& are_ends(ops, params, cols, dark, found.2, found.3)
        &&& bounds == safe_bounds(cols.len() as int, rows.len() as int, found)
    }
}

/// `bounds` are the edges that these row and column medians show.
pub open spec fn are_edges_of<T, A: Arithmetic<T>>(
    ops: &A,
    params: AutocropParams<T>,
    rows: Seq<T>,
    cols: Seq<T>,
    bounds: CropBounds,
) -> bool {
    if rows.len() < 2 || cols.len() < 2 {
        bounds == (0usize, 0usize, 0usize, 0usize)
    } else {
        exists|m: T, none: bool, dark: T, found: CropBounds| #[trigger]
            are_edges_below(ops, params, rows, cols, m, none, dark, found, bounds)
    }
}

/// `bounds` are the dark edges of an image, from its row and column medians.
pub open spec fn are_edges_by<T, A: Arithmetic<T>>(
    ops: &A,
    params: AutocropParams<T>,
    image: Raster<T>,
    lum: Seq<T>,
    rows: Seq<T>,
    cols: Seq<T>,
    bounds: CropBounds,
) -> bool {
    &&& is_luminance(ops, image, lum)
    &&& are_row_medians(ops, lum, image.width as int, image.height as int, rows)
    &&& are_column_medians(ops, lum, image.width as int, image.height as int, cols)
    &&& are_edges_of(ops, params, rows, cols, bounds)
}

/// `bounds` are the dark edges of an image.
pub open spec fn are_edges<T, A: Arithmetic<T>>(
    ops: &A,
    params: AutocropParams<T>,
    image: Raster<T>,
    bounds: CropBounds,
) -> bool {
    exists|lum: Seq<T>, rows: Seq<T>, cols: Seq<T>| #[trigger]
        are_edges_by(ops, params, image, lum, rows, cols, bounds)
}

/// Detected edges never take more than half of a dimension.
pub proof fn lemma_edges_keep_half<T, A: Arithmetic<T>>(
    ops: &A,
    params: AutocropParams<T>,
    image: Raster<T>,
    bounds: CropBounds,
)
    requires
        are_edges(ops, params, image, bounds),
    ensures
        keeps_half(image.height as int, bounds.0, bounds.1),
        keeps_half(image.width as int, bounds.2, bounds.3),
        bounds_fit(image.width as int, image.height as int, bounds),
{
}

/// A dark edge is no longer than the longest that may be cropped, and its
/// lines are all dark.
pub proof fn lemma_edge_is_dark(flags: Seq<bool>, min_px: int, max_px: int)
    requires
        0 <= max_px,
        flags.len() <= usize::MAX,
    ensures
        edge_of(flags, min_px, max_px) <= max_px,
        edge_of(flags, min_px, max_px) <= flags.len(),
        edge_of(flags, min_px, max_px) == 0 || edge_of(flags, min_px, max_px) >= min_px,
        forall|i: int| 0 <= i < edge_of(flags, min_px, max_px) ==> #[trigger] flags[i],
{
    lemma_run(flags, max_px, 0);
}

/// A run ends within the limit, and all of its flags are set.
proof fn lemma_run(flags: Seq<bool>, limit: int, k: int)
    requires
        0 <= k <= flags.len(),
        k <= limit,
    ensures
        k <= run_end(flags, limit, k) <= limit,
        run_end(flags, limit, k) <= flags.len(),
        forall|i: int| k <= i < run_end(flags, limit, k) ==> #[trigger] flags[i],
    decreases flags.len() - k,
{
    if !(k >= limit || k >= flags.len() || !flags[k]) {
        lemma_run(flags, limit, k + 1);
    }
}

/// The median of one row.
fn row_median<T: Sample, A: Arithmetic<T>>(
    ops: &A,
    plane: &[T],
    w: usize,
    h: usize,
    y: usize,
) -> (r: T)
    requires
        plane@.len() == w * h,
        y < h,
    ensures
        is_median(ops, row_of(plane@, w as int, y as int), r),
{
    proof {
        assert(plane.len() == w * h);
        assert(0 <= y * w && y * w + w <= w * h) by (nonlinear_arith)
            requires
                0 <= y < h,
                0 <= w,
        ;
    }
    median_of(ops, slice_subrange(plane, y * w, y * w + w))
}

/// The median of one column.
fn column_median<T: Sample, A: Arithmetic<T>>(
    ops: &A,
    plane: &[T],
    w: usize,
    h: usize,
    x: usize,
) -> (r: T)
    requires
        plane@.len() == w * h,
        x < w,
    ensures
        is_median(ops, column_of(plane@, w as int, h as int, x as int), r),
{
    let mut column: Vec<T> = Vec::with_capacity(h);
    let mut y: usize = 0;
    while y < h
        invariant
            plane@.len() == w * h,
            x < w,
            y <= h,
            column@.len() == y,
            forall|k: int| 0 <= k < y ==> #[trigger] column@[k] == plane@[k * w + x],
        decreases h - y,
    {
        proof {
            lemma_pixel(x as int, y as int, w as int, h as int);
            assert(plane.len() == w * h);
        }
        column.push(plane[y * w + x]);
        y += 1;
    }
    assert(column@ =~= column_of(plane@, w as int, h as int, x as int));
    median_of(ops, column.as_slice())
}

/// Length of the contiguous dark run at the start of `flags`, or 0 if it is
/// shorter than `min_px`.
fn find_edge(flags: &Vec<bool>, min_px: usize, max_px: usize) -> (r: usize)
    ensures
        r == edge_of(flags@, min_px as int, max_px as int),
{
    let mut count: usize = 0;
    while count < max_px && count < flags.len() && flags[count]
        invariant
            count <= flags@.len(),
            count <= max_px,
            run_end(flags@, max_px as int, 0) == run_end(flags@, max_px as int, count as int),
        decreases flags@.len() - count,
    {
        count += 1;
    }
    if count >= min_px {
        count
    } else {
        0
    }
}

/// The flags in the opposite order.
fn reversed(flags: &Vec<bool>) -> (out: Vec<bool>)
    ensures
        out@ == flags@.reverse(),
{
    let n = flags.len();
    let mut out: Vec<bool> = Vec::with_capacity(n);
    let mut i: usize = 0;
    while i < n
        invariant
            n == flags@.len(),
            i <= n,
            out@ =~= flags@.reverse().take(i as int),
        decreases n - i,
    {
        out.push(flags[n - 1 - i]);
        i += 1;
    }
    assert(out@ =~= flags@.reverse());
    out
}

/// The edges at both ends of a dimension.
fn find_ends<T: Sample, A: Arithmetic<T>>(
    ops: &A,
    params: &AutocropParams<T>,
    medians: &Vec<T>,
    dark: T,
) -> (r: (usize, usize))
    ensures
        are_ends(ops, *params, medians@, dark, r.0, r.1),
{
    let n = medians.len();
    let mut flags: Vec<bool> = Vec::with_capacity(n);
    let mut i: usize = 0;
    while i < n
        invariant
            n == medians@.len(),
            i <= n,
            flags@.len() == i,
            forall|k: int|
                0 <= k < i ==> decides(
                    ops,
                    Test::Less,
                    Formula::Given(medians@[k]),
                    Formula::Given(dark),
                    #[trigger] flags@[k],
                ),
        decreases n - i,
    {
        let value = Traced::given(ops, medians[i]);
        flags.push(value.test(ops, Test::Less, Traced::given(ops, dark)));
        i += 1;
    }
    let size = Traced::count(ops, n);
    let least = size.times(ops, Traced::given(ops, params.min_crop_fraction)).to_index(ops);
    let max_px = size.times(ops, Traced::given(ops, params.max_crop_fraction)).to_index(ops);
    let min_px = if least < 1 {
        1
    } else {
        least
    };
    assert(are_limits(ops, *params, n as int, min_px as int, max_px as int, least));
    let first = find_edge(&flags, min_px, max_px);
    let last = find_edge(&reversed(&flags), min_px, max_px);
    (first, last)
}

/// Where the central 60% of `n` lines end.
fn end_of_interior(n: usize) -> (r: usize)
    ensures
        r == interior_end(n as int),
        r <= n,
{
    let fifth = if n % 5 == 0 {
        n / 5
    } else {
        n / 5 + 1
    };
    n - fifth
}

/// The medians of the central 60% of the rows, then those of the columns.
fn interior_lines<T: Copy>(rows: &Vec<T>, cols: &Vec<T>) -> (out: Vec<T>)
    ensures
        out@ == interior_medians(rows@, cols@),
{
    let h = rows.len();
    let w = cols.len();
    let mut out: Vec<T> = Vec::new();
    let mut i: usize = h / 5;
    let end = end_of_interior(h);
    while i < end
        invariant
            h == rows@.len(),
            h / 5 <= i <= end || end < h / 5 && i == h / 5,
            end <= h,
            out@ =~= rows@.subrange(h as int / 5, i as int),
        decreases end - i,
    {
        out.push(rows[i]);
        i += 1;
    }
    let ghost upper = out@;
    let mut k: usize = w / 5;
    let stop = end_of_interior(w);
    while k < stop
        invariant
            w == cols@.len(),
            w / 5 <= k <= stop || stop < w / 5 && k == w / 5,
            stop <= w,
            out@ =~= upper + cols@.subrange(w as int / 5, k as int),
        decreases stop - k,
    {
        out.push(cols[k]);
        k += 1;
    }
    out
}

/// Whether at least half of `n` lines are left.
fn half_left(n: usize, first: usize, last: usize) -> (r: bool)
    ensures
        r == keeps_half(n as int, first, last),
{
    let lines = n as u128;
    let kept = 2 * (first as u128 + last as u128);
    kept <= lines
}

/// Detect dark stacking edges without materializing the crop.
///
/// Examines row and column medians (of the channel-mean luminance for RGB)
/// and reports contiguous runs from each edge that fall below
/// `threshold * interior_median`.
pub fn detect_edges<T: Sample, A: Arithmetic<T>>(
    ops: &A,
    image: &Image<T>,
    params: &AutocropParams<T>,
) -> (bounds: CropBounds)
    requires
        image@.wf(),
    ensures
        are_edges(ops, *params, image@, bounds),
        bounds_fit(image@.width as int, image@.height as int, bounds),
{
    let w = image.width();
    let h = image.height();
    let lum = image.luminance(ops);
    let mono = lum.as_slice();
    let of_row = |y: usize| -> (r: T)
        requires
            mono@.len() == w * h,
            y < h,
        ensures
            is_median(ops, row_of(mono@, w as int, y as int), r),
    {
        row_median(ops, mono, w, h, y)
    };
    let rows = par_map(h, of_row);
    let of_column = |x: usize| -> (r: T)
        requires
            mono@.len() == w * h,
            x < w,
        ensures
            is_median(ops, column_of(mono@, w as int, h as int, x as int), r),
    {
        column_median(ops, mono, w, h, x)
    };
    let cols = par_map(w, of_column);
    assert(are_row_medians(ops, lum@, w as int, h as int, rows@));
    assert(are_column_medians(ops, lum@, w as int, h as int, cols@));
    let bounds = edges_of_medians(ops, params, &rows, &cols);
    assert(are_edges_by(ops, *params, image@, lum@, rows@, cols@, bounds));
    proof {
        lemma_edges_keep_half(ops, *params, image@, bounds);
    }
    bounds
}

/// The edges that the row and column medians show.
pub fn edges_of_medians<T: Sample, A: Arithmetic<T>>(
    ops: &A,
    params: &AutocropParams<T>,
    rows: &Vec<T>,
    cols: &Vec<T>,
) -> (bounds: CropBounds)
    ensures
        are_edges_of(ops, *params, rows@, cols@, bounds),
{
    let h = rows.len();
    let w = cols.len();
    if h < 2 || w < 2 {
        return (0, 0, 0, 0);
    }
    // Interior reference: median over the central 60% of rows and columns
    let interior = interior_lines(rows, cols);
    let m = median_of(ops, interior.as_slice());
    let level = Traced::given(ops, m);
    let none = level.test(ops, Test::LessOrEqual, Traced::whole(ops, 0));
    if none {
        let ghost zero: CropBounds = (0, 0, 0, 0);
        assert(are_edges_below(ops, *params, rows@, cols@, m, none, m, zero, zero));
        return (0, 0, 0, 0);
    }
    let dark = level.times(ops, Traced::given(ops, params.threshold)).value;
    let (top, bottom) = find_ends(ops, params, rows, dark);
    let (left, right) = find_ends(ops, params, cols, dark);
    let found: CropBounds = (top, bottom, left, right);

    // Safety: never crop away more than half of either dimension
    let bounds: CropBounds = if half_left(h, top, bottom) && half_left(w, left, right) {
        found
    } else {
        (0, 0, 0, 0)
    };
    assert(are_edges_below(ops, *params, rows@, cols@, m, none, dark, found, bounds));
    bounds
}

/// Detect and crop dark/noisy stacking edges.
///
/// Returns the cropped image and the pixels removed per edge. The input is
/// returned unchanged (with zero bounds) when no significant edges are found
/// or when cropping would remove more than half of a dimension.
pub fn autocrop<T: Sample, A: Arithmetic<T>>(
    ops: &A,
    image: &Image<T>,
    params: &AutocropParams<T>,
) -> (r: (Image<T>, CropBounds))
    requires
        image@.wf(),
    ensures
        are_edges(ops, *params, image@, r.1),
        r.0@.wf(),
        r.0@ == image@.crop(r.1),
{
    let bounds = detect_edges(ops, image, params);
    if bounds.0 == 0 && bounds.1 == 0 && bounds.2 == 0 && bounds.3 == 0 {
        proof {
            lemma_crop_nothing(image@);
        }
        (image.clone(), bounds)
    } else {
        (image.crop(bounds), bounds)
    }
}

} // verus!
