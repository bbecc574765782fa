//! Background gradient removal for astrophotography images.
//!
//! Models the sky background as a low-order 2D polynomial surface per channel
//! (sampled on a grid with sigma-clipping to reject stars), evaluates it at
//! reduced resolution, upsamples, and subtracts. This removes light pollution
//! gradients and vignetting while preserving astronomical signal.

use crate::arith::{
    Arithmetic, Formula, Sample, Test, Traced, Unary, decides, evals, indexes, whole,
};
use crate::autocrop::CropBounds;
use crate::frame::{Image, Raster, views};
use crate::linear::{is_least_squares, lstsq};
use crate::parallel::par_map;
use crate::plane::{copied, crop_plane, crop_samples, lemma_pixel, lemma_place, pick, picked};
use crate::stats::{are_percentiles, is_median, median_of, percentile_pair, within};
use vstd::prelude::*;

verus! {

/// Tuning for the background surface fit.
#[derive(Debug)]
pub struct GradientParams<T> {
    /// Polynomial order: 1 = linear tilt, 2 = quadratic (vignetting),
    /// 3 = cubic.
    pub order: usize,
    /// Sigma threshold for rejecting bright samples (stars, objects) from the
    /// background model.
    pub sigma_clip: T,
    /// Grid divisions for background sampling. Higher = more accurate but
    /// slower.
    pub sample_grid: usize,
}

impl<T: Copy> Clone for GradientParams<T> {
    fn clone(&self) -> (r: Self)
        ensures
            r == *self,
    {
        *self
    }
}

impl<T: Copy> Copy for GradientParams<T> {

}

impl<T: Sample> GradientParams<T> {
    /// A quadratic surface over a 32 by 32 grid, clipped at 2.5 sigmas.
    pub fn defaults<A: Arithmetic<T>>(ops: &A) -> (r: Self)
        ensures
            r.order == 2,
            evals(ops, Formula::Ratio(25, 10), r.sigma_clip),
            r.sample_grid == 32,
    {
        GradientParams { order: 2, sigma_clip: ops.ratio(25, 10), sample_grid: 32 }
    }
}

// ---------------------------------------------------------------------------
// Background samples
// ---------------------------------------------------------------------------

/// The number of grid lines in each direction.
pub open spec fn grid_lines(sample_grid: usize) -> usize {
    if sample_grid < 2 {
        2
    } else {
        sample_grid
    }
}

/// Where grid line `g` of `grid` falls among `n` pixels: the first on the
/// first pixel, the last on the last.
pub open spec fn grid_line(g: int, n: int, grid: int) -> int {
    g * (n - 1) / (grid - 1)
}

/// How far a patch reaches from its centre.
pub open spec fn patch_radius(n: int, grid: int) -> int {
    if n / (grid * 2) < 1 {
        1
    } else {
        n / (grid * 2)
    }
}

/// The first pixel of a patch, and the one behind its last.
pub open spec fn patch_span(center: int, n: int, grid: int) -> (int, int) {
    let r = patch_radius(n, grid);
    (
        if center - r < 0 {
            0
        } else {
            center - r
        },
        if center + r + 1 > n {
            n
        } else {
            center + r + 1
        },
    )
}

/// The patch around a pixel, as bounds of the frame.
pub open spec fn patch_bounds(x: int, y: int, w: int, h: int, grid: int) -> CropBounds {
    let rows = patch_span(y, h, grid);
    let cols = patch_span(x, w, grid);
    (rows.0 as usize, (h - rows.1) as usize, cols.0 as usize, (w - cols.1) as usize)
}

/// A background sample: row, column and level.
pub type Background<T> = (usize, usize, T);

/// Sample `k` of the grid, row by row, is the median of the patch around its
/// grid point.
pub open spec fn is_grid_sample<T, A: Arithmetic<T>>(
    ops: &A,
    data: Seq<T>,
    w: int,
    h: int,
    grid: int,
    k: int,
    s: Background<T>,
) -> bool {
    let y = grid_line(k / grid, h, grid);
    let x = grid_line(k % grid, w, grid);
    &&& s.0 == y
    &&& s.1 == x
    &&& is_median(ops, crop_plane(data, w, h, patch_bounds(x, y, w, h, grid)), s.2)
}

/// The samples of the whole grid.
pub open spec fn are_grid_samples<T, A: Arithmetic<T>>(
    ops: &A,
    data: Seq<T>,
    w: int,
    h: int,
    grid: int,
    samples: Seq<Background<T>>,
) -> bool {
    &&& samples.len() == grid * grid
    &&& forall|k: int|
        0 <= k < samples.len() ==> is_grid_sample(ops, data, w, h, grid, k, #[trigger] samples[k])
}

/// The levels of the samples.
pub open spec fn levels<T>(samples: Seq<Background<T>>) -> Seq<T> {
    Seq::new(samples.len(), |i: int| samples[i].2)
}

/// How far a level is from the median level.
pub open spec fn deviation<T>(level: T, median: T) -> Formula<T> {
    Formula::Given(level).minus(Formula::Given(median)).abs()
}

/// The deviations of the samples from the median level.
pub open spec fn are_deviations<T, A: Arithmetic<T>>(
    ops: &A,
    samples: Seq<Background<T>>,
    median: T,
    devs: Seq<T>,
) -> bool {
    &&& devs.len() == samples.len()
    &&& forall|i: int|
        0 <= i < devs.len() ==> evals(ops, deviation(samples[i].2, median), #[trigger] devs[i])
}

/// The mask tells the samples whose deviation is below the limit.
pub open spec fn is_clip_mask<T, A: Arithmetic<T>>(
    ops: &A,
    samples: Seq<Background<T>>,
    median: T,
    limit: T,
    mask: Seq<bool>,
) -> bool {
    &&& mask.len() == samples.len()
    &&& forall|i: int|
        0 <= i < mask.len() ==> decides(
            ops,
            Test::Less,
            deviation(samples[i].2, median),
            Formula::Given(limit),
            #[trigger] mask[i],
        )
}

/// What a round of sigma-clipping measures: the median level and the spread
/// around it, a standard deviation estimated from the median deviation.
pub open spec fn is_spread<T, A: Arithmetic<T>>(
    ops: &A,
    samples: Seq<Background<T>>,
    median: T,
    spread: T,
) -> bool {
    &&& is_median(ops, levels(samples), median)
    &&& exists|devs: Seq<T>, mad: T| #[trigger]
        are_deviations(ops, samples, median, devs) && #[trigger] is_median(ops, devs, mad) && evals(
            ops,
            Formula::Given(mad).times(Formula::Ratio(14826, 10000)),
            spread,
        )
}

/// What a round leaves, given the spread: everything, and no more rounds,
/// where the spread is negligible or fewer than six samples would remain;
/// otherwise the samples within the clip limit.
pub open spec fn clips_to<T, A: Arithmetic<T>>(
    ops: &A,
    sigma_clip: T,
    before: Seq<Background<T>>,
    median: T,
    spread: T,
    after: Seq<Background<T>>,
    stop: bool,
) -> bool {
    exists|flat: bool| #[trigger]
        decides(ops, Test::Less, Formula::Given(spread), Formula::Ratio(1, 10_000_000_000), flat)
            && if flat {
            stop && after == before
        } else {
            exists|limit: T, mask: Seq<bool>|
                evals(ops, Formula::Given(sigma_clip).times(Formula::Given(spread)), limit)
                    && #[trigger] is_clip_mask(ops, before, median, limit, mask) && if picked(
                    before,
                    mask,
                ).len() < 6 {
                    stop && after == before
                } else {
                    !stop && after == picked(before, mask)
                }
        }
}

/// One round of sigma-clipping; `stop` says that it was the last.
pub open spec fn is_clip_round<T, A: Arithmetic<T>>(
    ops: &A,
    sigma_clip: T,
    before: Seq<Background<T>>,
    after: Seq<Background<T>>,
    stop: bool,
) -> bool {
    exists|median: T, spread: T| #[trigger]
        is_spread(ops, before, median, spread) && clips_to(
            ops,
            sigma_clip,
            before,
            median,
            spread,
            after,
            stop,
        )
}

/// Up to `rounds` rounds of sigma-clipping.
pub open spec fn is_clipped<T, A: Arithmetic<T>>(
    ops: &A,
    sigma_clip: T,
    before: Seq<Background<T>>,
    rounds: int,
    after: Seq<Background<T>>,
) -> bool
    decreases rounds,
{
    if rounds <= 0 {
        after == before
    } else {
        exists|next: Seq<Background<T>>, stop: bool| #[trigger]
            is_clip_round(ops, sigma_clip, before, next, stop) && if stop {
                after == next
            } else {
                is_clipped(ops, sigma_clip, next, rounds - 1, after)
            }
    }
}

/// One coordinate of a grid point.
fn grid_coordinate(g: usize, n: usize, grid: usize) -> (r: usize)
    requires
        grid >= 2,
        g < grid,
        n >= 1,
    ensures
        r == grid_line(g as int, n as int, grid as int),
        r < n,
{
    assert(0 <= g * (n - 1) <= (grid - 1) * (n - 1)) by (nonlinear_arith)
        requires
            0 <= g <= grid - 1,
            n >= 1,
    ;
    assert((grid - 1) * (n - 1) < 0x1_0000_0000_0000_0000 * 0x1_0000_0000_0000_0000)
        by (nonlinear_arith)
        requires
            0 <= grid - 1 < 0x1_0000_0000_0000_0000,
            0 <= n - 1 < 0x1_0000_0000_0000_0000,
    ;
    let wide: u128 = (g as u128) * ((n - 1) as u128);
    let r: u128 = wide / ((grid - 1) as u128);
    assert(r <= n - 1) by (nonlinear_arith)
        requires
            r == wide / ((grid - 1) as u128),
            wide <= (grid - 1) * (n - 1),
            grid >= 2,
            n >= 1,
    ;
    r as usize
}

/// The pixels of a patch in one direction.
fn patch_range(center: usize, n: usize, grid: usize) -> (r: (usize, usize))
    requires
        grid >= 2,
        center < n,
    ensures
        r.0 == patch_span(center as int, n as int, grid as int).0,
        r.1 == patch_span(center as int, n as int, grid as int).1,
        r.0 <= center < r.1 <= n,
{
    let half = n / 2 / grid;
    proof {
        vstd::arithmetic::div_mod::lemma_div_denominator(n as int, 2, grid as int);
        assert(n / 2 / grid == n as int / (2 * grid as int));
        assert(2 * grid as int == grid as int * 2);
    }
    let radius = if half < 1 {
        1
    } else {
        half
    };
    let first = if center < radius {
        0
    } else {
        center - radius
    };
    let end = if n - center - 1 < radius {
        n
    } else {
        center + radius + 1
    };
    (first, end)
}

/// One background sample: the median of the patch around grid point `k`.
fn grid_sample<T: Sample, A: Arithmetic<T>>(
    ops: &A,
    data: &[T],
    w: usize,
    h: usize,
    grid: usize,
    k: usize,
) -> (s: Background<T>)
    requires
        data@.len() == w * h,
        w >= 1,
        h >= 1,
        grid >= 2,
        k < grid * grid,
    ensures
        is_grid_sample(ops, data@, w as int, h as int, grid as int, k as int, s),
{
    proof {
        lemma_place(k as int, grid as int, grid as int);
    }
    let y = grid_coordinate(k / grid, h, grid);
    let x = grid_coordinate(k % grid, w, grid);
    let (y0, y1) = patch_range(y, h, grid);
    let (x0, x1) = patch_range(x, w, grid);
    let patch = crop_samples(data, w, h, (y0, h - y1, x0, w - x1));
    (y, x, median_of(ops, patch.as_slice()))
}

/// The background samples of the whole grid.
fn grid_samples<T: Sample, A: Arithmetic<T>>(
    ops: &A,
    data: &[T],
    w: usize,
    h: usize,
    grid: usize,
) -> (samples: Vec<Background<T>>)
    requires
        data@.len() == w * h,
        w >= 1,
        h >= 1,
        grid >= 2,
        grid * grid <= usize::MAX,
    ensures
        are_grid_samples(ops, data@, w as int, h as int, grid as int, samples@),
{
    let mut samples: Vec<Background<T>> = Vec::with_capacity(grid * grid);
    let mut k: usize = 0;
    while k < grid * grid
        invariant
            data@.len() == w * h,
            w >= 1,
            h >= 1,
            grid >= 2,
            grid * grid <= usize::MAX,
            k <= grid * grid,
            samples@.len() == k,
            forall|j: int|
                0 <= j < k ==> is_grid_sample(
                    ops,
                    data@,
                    w as int,
                    h as int,
                    grid as int,
                    j,
                    #[trigger] samples@[j],
                ),
        decreases grid * grid - k,
    {
        let s = grid_sample(ops, data, w, h, grid, k);
        samples.push(s);
        k += 1;
    }
    samples
}

/// The levels of the samples.
fn sample_levels<T: Sample>(samples: &Vec<Background<T>>) -> (out: Vec<T>)
    ensures
        out@ == levels(samples@),
{
    let mut out: Vec<T> = Vec::with_capacity(samples.len());
    let mut i: usize = 0;
    while i < samples.len()
        invariant
            i <= samples@.len(),
            out@ =~= levels(samples@).take(i as int),
        decreases samples@.len() - i,
    {
        out.push(samples[i].2);
        i += 1;
    }
    assert(out@ =~= levels(samples@));
    out
}

/// How far a level is from the median level.
fn deviation_of<T: Sample, A: Arithmetic<T>>(ops: &A, level: T, median: T) -> (r: Traced<T>)
    ensures
        r.holds(ops),
        r.formula@ == deviation(level, median),
{
    Traced::given(ops, level).minus(ops, Traced::given(ops, median)).apply(ops, Unary::Abs)
}

/// The median level of the samples and the spread around it.
fn spread_of<T: Sample, A: Arithmetic<T>>(ops: &A, samples: &Vec<Background<T>>) -> (r: (T, T))
    ensures
        is_spread(ops, samples@, r.0, r.1),
{
    let values = sample_levels(samples);
    let median = median_of(ops, values.as_slice());
    let mut devs: Vec<T> = Vec::with_capacity(samples.len());
    let mut i: usize = 0;
    while i < samples.len()
        invariant
            i <= samples@.len(),
            devs@.len() == i,
            forall|k: int|
                0 <= k < i ==> evals(
                    ops,
                    deviation(samples@[k].2, median),
                    #[trigger] devs@[k],
                ),
        decreases samples@.len() - i,
    {
        devs.push(deviation_of(ops, samples[i].2, median).value);
        i += 1;
    }
    assert(are_deviations(ops, samples@, median, devs@));
    let mad = median_of(ops, devs.as_slice());
    let spread = Traced::given(ops, mad).times(ops, Traced::ratio(ops, 14826, 10000)).value;
    (median, spread)
}

/// One round of sigma-clipping.
fn clip_round<T: Sample, A: Arithmetic<T>>(
    ops: &A,
    sigma_clip: T,
    samples: &Vec<Background<T>>,
) -> (r: (Vec<Background<T>>, bool))
    ensures
        is_clip_round(ops, sigma_clip, samples@, r.0@, r.1),
{
    let (median, spread) = spread_of(ops, samples);
    let tiny = Traced::ratio(ops, 1, 10_000_000_000);
    let flat = Traced::given(ops, spread).test(ops, Test::Less, tiny);
    if flat {
        let same = copied(samples.as_slice());
        assert(clips_to(ops, sigma_clip, samples@, median, spread, same@, true));
        return (same, true);
    }
    let limit = Traced::given(ops, sigma_clip).times(ops, Traced::given(ops, spread)).value;
    let mut mask: Vec<bool> = Vec::with_capacity(samples.len());
    let mut i: usize = 0;
    while i < samples.len()
        invariant
            i <= samples@.len(),
            mask@.len() == i,
            forall|k: int|
                0 <= k < i ==> decides(
                    ops,
                    Test::Less,
                    deviation(samples@[k].2, median),
                    Formula::Given(limit),
                    #[trigger] mask@[k],
                ),
        decreases samples@.len() - i,
    {
        let near = deviation_of(ops, samples[i].2, median).test(
            ops,
            Test::Less,
            Traced::given(ops, limit),
        );
        mask.push(near);
        i += 1;
    }
    assert(is_clip_mask(ops, samples@, median, limit, mask@));
    let kept = pick(samples.as_slice(), mask.as_slice());
    if kept.len() < 6 {
        let same = copied(samples.as_slice());
        assert(clips_to(ops, sigma_clip, samples@, median, spread, same@, true));
        return (same, true);
    }
    assert(clips_to(ops, sigma_clip, samples@, median, spread, kept@, false));
    (kept, false)
}

/// Sigma-clips the samples, to reject stars and bright objects.
fn sigma_clip_samples<T: Sample, A: Arithmetic<T>>(
    ops: &A,
    sigma_clip: T,
    samples: Vec<Background<T>>,
    rounds: usize,
) -> (out: Vec<Background<T>>)
    ensures
        is_clipped(ops, sigma_clip, samples@, rounds as int, out@),
    decreases rounds,
{
    if rounds == 0 {
        return samples;
    }
    let (next, stop) = clip_round(ops, sigma_clip, &samples);
    if stop {
        return next;
    }
    sigma_clip_samples(ops, sigma_clip, next, rounds - 1)
}

// ---------------------------------------------------------------------------
// The polynomial surface
// ---------------------------------------------------------------------------

/// The exponents of `x` and `y` in the terms of one total degree, from the
/// highest power of `x` down.
pub open spec fn degree_terms(total: int) -> Seq<(usize, usize)> {
    Seq::new((total + 1) as nat, |i: int| ((total - i) as usize, i as usize))
}

/// The exponents of `x` and `y` in the terms up to `order`; for order 2 those
/// of `1, x, y, x^2, xy, y^2`.
pub open spec fn poly_exponents(order: int) -> Seq<(usize, usize)>
    decreases order + 1,
{
    if order < 0 {
        Seq::empty()
    } else {
        poly_exponents(order - 1) + degree_terms(order)
    }
}

/// A polynomial of an order has `(order + 1) * (order + 2) / 2` terms.
pub proof fn lemma_term_count(order: int)
    requires
        order >= -1,
    ensures
        poly_exponents(order).len() * 2 == (order + 1) * (order + 2),
    decreases order + 1,
{
    if order >= 0 {
        lemma_term_count(order - 1);
        assert((order + 1) * (order + 2) == order * (order + 1) + 2 * (order + 1))
            by (nonlinear_arith);
    }
}

/// The exponents of the terms up to `order`.
fn exponents(order: usize) -> (out: Vec<(usize, usize)>)
    ensures
        out@ == poly_exponents(order as int),
{
    let mut out: Vec<(usize, usize)> = Vec::new();
    let mut total: usize = 0;
    loop
        invariant_except_break
            total <= order,
            out@ == poly_exponents(total - 1),
        ensures
            out@ == poly_exponents(order as int),
        decreases order - total,
    {
        let ghost before = out@;
        let mut ypow: usize = 0;
        loop
            invariant_except_break
                ypow <= total,
                out@ =~= before + degree_terms(total as int).take(ypow as int),
            ensures
                out@ =~= before + degree_terms(total as int),
            decreases total - ypow,
        {
            out.push((total - ypow, ypow));
            if ypow == total {
                break;
            }
            ypow += 1;
        }
        if total == order {
            break;
        }
        total += 1;
    }
    out
}

/// A pixel as a coordinate between -1 and 1: `k / last * 2 - 1`.
pub open spec fn normalized<T>(k: usize, last: usize) -> Formula<T> {
    Formula::Count(k).over(Formula::Count(last)).times(whole(2)).minus(whole(1))
}

/// The last pixel of a dimension, at least 1.
pub open spec fn last_pixel(n: int) -> usize {
    if n - 1 < 1 {
        1
    } else {
        (n - 1) as usize
    }
}

/// One polynomial term: `x` and `y` to their powers, multiplied.
pub open spec fn term<T>(x: T, y: T, e: (usize, usize)) -> Formula<T> {
    Formula::Given(x).power(e.0).times(Formula::Given(y).power(e.1))
}

/// The normalized coordinates of the samples.
pub open spec fn are_coordinates<T, A: Arithmetic<T>>(
    ops: &A,
    samples: Seq<Background<T>>,
    w: int,
    h: int,
    xn: Seq<T>,
    yn: Seq<T>,
) -> bool {
    &&& xn.len() == samples.len()
    &&& yn.len() == samples.len()
    &&& forall|i: int|
        0 <= i < samples.len() ==> evals(
            ops,
            normalized(samples[i].1, last_pixel(w)),
            #[trigger] xn[i],
        )
    &&& forall|i: int|
        0 <= i < samples.len() ==> evals(
            ops,
            normalized(samples[i].0, last_pixel(h)),
            #[trigger] yn[i],
        )
}

/// The columns of the design matrix: each term at every sample.
pub open spec fn are_columns<T, A: Arithmetic<T>>(
    ops: &A,
    xn: Seq<T>,
    yn: Seq<T>,
    exps: Seq<(usize, usize)>,
    columns: Seq<Seq<T>>,
) -> bool {
    &&& columns.len() == exps.len()
    &&& forall|j: int|
        0 <= j < columns.len() ==> is_column(ops, xn, yn, exps[j], #[trigger] columns[j])
}

/// One column of the design matrix.
pub open spec fn is_column<T, A: Arithmetic<T>>(
    ops: &A,
    xn: Seq<T>,
    yn: Seq<T>,
    e: (usize, usize),
    column: Seq<T>,
) -> bool {
    &&& column.len() == xn.len()
    &&& forall|i: int|
        0 <= i < column.len() ==> evals(ops, term(xn[i], yn[i], e), #[trigger] column[i])
}

/// The fitted coefficients of the surface through the samples, or `None` where
/// the fit has no solution.
pub open spec fn is_fit<T, A: Arithmetic<T>>(
    ops: &A,
    samples: Seq<Background<T>>,
    w: int,
    h: int,
    order: int,
    coeffs: Option<Seq<T>>,
) -> bool {
    exists|xn: Seq<T>, yn: Seq<T>, columns: Seq<Seq<T>>| #[trigger]
        are_coordinates(ops, samples, w, h, xn, yn) && #[trigger] are_columns(
            ops,
            xn,
            yn,
            poly_exponents(order),
            columns,
        ) && is_least_squares(ops, columns, levels(samples), coeffs)
}

/// The normalized coordinates of one dimension of the samples.
fn coordinates<T: Sample, A: Arithmetic<T>>(
    ops: &A,
    places: &Vec<usize>,
    last: usize,
) -> (out: Vec<T>)
    ensures
        out@.len() == places@.len(),
        forall|i: int|
            0 <= i < out@.len() ==> evals(
                ops,
                normalized(#[trigger] places@[i], last),
                out@[i],
            ),
{
    let mut out: Vec<T> = Vec::with_capacity(places.len());
    let mut i: usize = 0;
    while i < places.len()
        invariant
            i <= places@.len(),
            out@.len() == i,
            forall|k: int|
                0 <= k < i ==> evals(ops, normalized(#[trigger] places@[k], last), out@[k]),
        decreases places@.len() - i,
    {
        out.push(normalized_of(ops, places[i], last).value);
        i += 1;
    }
    out
}

/// A pixel as a coordinate between -1 and 1.
fn normalized_of<T: Sample, A: Arithmetic<T>>(ops: &A, k: usize, last: usize) -> (r: Traced<T>)
    ensures
        r.holds(ops),
        r.formula@ == normalized::<T>(k, last),
{
    let part = Traced::count(ops, k).over(ops, Traced::count(ops, last));
    part.times(ops, Traced::whole(ops, 2)).minus(ops, Traced::whole(ops, 1))
}

/// The last pixel of a dimension, at least 1.
fn last_of(n: usize) -> (r: usize)
    requires
        n >= 1,
    ensures
        r == last_pixel(n as int),
        r >= 1,
{
    if n - 1 < 1 {
        1
    } else {
        n - 1
    }
}

/// Polynomial term columns, each evaluated at every sample.
fn poly_terms_2d<T: Sample, A: Arithmetic<T>>(
    ops: &A,
    x: &Vec<T>,
    y: &Vec<T>,
    exps: &Vec<(usize, usize)>,
) -> (columns: Vec<Vec<T>>)
    requires
        x@.len() == y@.len(),
    ensures
        are_columns(ops, x@, y@, exps@, views(columns@)),
{
    let mut columns: Vec<Vec<T>> = Vec::with_capacity(exps.len());
    let mut j: usize = 0;
    while j < exps.len()
        invariant
            x@.len() == y@.len(),
            j <= exps@.len(),
            columns@.len() == j,
            forall|k: int|
                0 <= k < j ==> is_column(ops, x@, y@, exps@[k], (#[trigger] columns@[k])@),
        decreases exps@.len() - j,
    {
        let (xpow, ypow) = exps[j];
        let mut column: Vec<T> = Vec::with_capacity(x.len());
        let mut i: usize = 0;
        while i < x.len()
            invariant
                x@.len() == y@.len(),
                i <= x@.len(),
                column@.len() == i,
                forall|k: int|
                    0 <= k < i ==> evals(
                        ops,
                        term(x@[k], y@[k], (xpow, ypow)),
                        #[trigger] column@[k],
                    ),
            decreases x@.len() - i,
        {
            let xp = Traced::given(ops, x[i]).power(ops, xpow);
            let yp = Traced::given(ops, y[i]).power(ops, ypow);
            column.push(xp.times(ops, yp).value);
            i += 1;
        }
        columns.push(column);
        j += 1;
    }
    columns
}

/// Fits the surface to the samples by least squares.
fn fit_surface<T: Sample, A: Arithmetic<T>>(
    ops: &A,
    samples: &Vec<Background<T>>,
    w: usize,
    h: usize,
    exps: &Vec<(usize, usize)>,
    order: usize,
) -> (coeffs: Option<Vec<T>>)
    requires
        w >= 1,
        h >= 1,
        exps@ == poly_exponents(order as int),
    ensures
        match coeffs {
            Some(c) => c@.len() == exps@.len() && is_fit(
                ops,
                samples@,
                w as int,
                h as int,
                order as int,
                Some(c@),
            ),
            None => is_fit(ops, samples@, w as int, h as int, order as int, None),
        },
{
    let mut xs: Vec<usize> = Vec::with_capacity(samples.len());
    let mut ys: Vec<usize> = Vec::with_capacity(samples.len());
    let mut i: usize = 0;
    while i < samples.len()
        invariant
            i <= samples@.len(),
            xs@.len() == i,
            ys@.len() == i,
            forall|k: int| 0 <= k < i ==> #[trigger] xs@[k] == samples@[k].1,
            forall|k: int| 0 <= k < i ==> #[trigger] ys@[k] == samples@[k].0,
        decreases samples@.len() - i,
    {
        xs.push(samples[i].1);
        ys.push(samples[i].0);
        i += 1;
    }
    let xn = coordinates(ops, &xs, last_of(w));
    let yn = coordinates(ops, &ys, last_of(h));
    proof {
        assert forall|k: int| 0 <= k < samples@.len() implies evals(
            ops,
            normalized(samples@[k].1, last_pixel(w as int)),
            #[trigger] xn@[k],
        ) by {
            assert(xs@[k] == samples@[k].1);
        }
        assert forall|k: int| 0 <= k < samples@.len() implies evals(
            ops,
            normalized(samples@[k].0, last_pixel(h as int)),
            #[trigger] yn@[k],
        ) by {
            assert(ys@[k] == samples@[k].0);
        }
        assert(are_coordinates(ops, samples@, w as int, h as int, xn@, yn@));
    }
    let columns = poly_terms_2d(ops, &xn, &yn, exps);
    let values = sample_levels(samples);
    proof {
        assert forall|j: int| 0 <= j < columns@.len() implies (#[trigger] columns@[j])@.len()
            == values@.len() by {
            assert(views(columns@)[j] == columns@[j]@);
        }
    }
    lstsq(ops, &columns, &values)
}

// ---------------------------------------------------------------------------
// Evaluation and subtraction
// ---------------------------------------------------------------------------

/// The first `n` terms of the surface at a point, added up from zero.
pub open spec fn surface<T>(
    coeffs: Seq<T>,
    exps: Seq<(usize, usize)>,
    x: Formula<T>,
    y: Formula<T>,
    n: int,
) -> Formula<T>
    decreases n,
{
    if n <= 0 {
        whole(0)
    } else {
        surface(coeffs, exps, x, y, n - 1).plus(
            Formula::Given(coeffs[n - 1]).times(x.power(exps[n - 1].0)).times(
                y.power(exps[n - 1].1),
            ),
        )
    }
}

/// The side of the reduced grid that the surface is evaluated on.
pub open spec fn eval_size(w: int, h: int) -> int {
    let m = if w < h {
        w
    } else {
        h
    };
    if m < 2 {
        2
    } else if m > 256 {
        256
    } else {
        m
    }
}

/// The surface on the reduced grid.
pub open spec fn is_model<T, A: Arithmetic<T>>(
    ops: &A,
    coeffs: Seq<T>,
    exps: Seq<(usize, usize)>,
    size: int,
    model: Seq<T>,
) -> bool {
    &&& model.len() == size * size
    &&& forall|i: int|
        0 <= i < model.len() ==> evals(
            ops,
            surface(
                coeffs,
                exps,
                normalized((i % size) as usize, (size - 1) as usize),
                normalized((i / size) as usize, (size - 1) as usize),
                exps.len() as int,
            ),
            #[trigger] model[i],
        )
}

/// Where a pixel falls on the reduced grid, in one direction.
pub open spec fn grid_position<T>(k: int, n: int, size: int) -> Formula<T> {
    Formula::Count(k as usize).over(Formula::Count(last_pixel(n))).times(
        Formula::Count((size - 1) as usize),
    )
}

/// The grid line behind a given one, or the last.
pub open spec fn next_line(k: int, size: int) -> int {
    if k + 1 < size {
        k + 1
    } else {
        size - 1
    }
}

/// The reduced grid around `(sx, sy)`, interpolated bilinearly from the lines
/// `x0` and `y0` on.
pub open spec fn bilinear<T>(
    model: Seq<T>,
    size: int,
    sx: T,
    sy: T,
    x0: usize,
    y0: usize,
) -> Formula<T> {
    let x1 = next_line(x0 as int, size);
    let y1 = next_line(y0 as int, size);
    let fx = Formula::Given(sx).minus(Formula::Count(x0));
    let fy = Formula::Given(sy).minus(Formula::Count(y0));
    let gx = whole(1).minus(fx);
    let gy = whole(1).minus(fy);
    Formula::Given(model[y0 * size + x0]).times(gx).times(gy).plus(
        Formula::Given(model[y0 * size + x1]).times(fx).times(gy),
    ).plus(Formula::Given(model[y1 * size + x0]).times(gx).times(fy)).plus(
        Formula::Given(model[y1 * size + x1]).times(fx).times(fy),
    )
}

/// `r` is the sample at place `i` with the surface subtracted.
pub open spec fn is_flattened_at<T, A: Arithmetic<T>>(
    ops: &A,
    data: Seq<T>,
    w: int,
    h: int,
    model: Seq<T>,
    size: int,
    i: int,
    r: T,
) -> bool {
    exists|sx: T, sy: T, fx: usize, fy: usize|
        evals(ops, grid_position(i % w, w, size), sx) && evals(
            ops,
            grid_position(i / w, h, size),
            sy,
        ) && indexes(ops, Formula::Given(sx).apply(Unary::Floor), fx) && indexes(
            ops,
            Formula::Given(sy).apply(Unary::Floor),
            fy,
        ) && #[trigger] subtracts(
            ops,
            data[i],
            model,
            size,
            sx,
            sy,
            within(fx, size),
            within(fy, size),
            r,
        )
}

/// `r` is `v` less the interpolated surface.
pub open spec fn subtracts<T, A: Arithmetic<T>>(
    ops: &A,
    v: T,
    model: Seq<T>,
    size: int,
    sx: T,
    sy: T,
    x0: usize,
    y0: usize,
    r: T,
) -> bool {
    evals(ops, Formula::Given(v).minus(bilinear(model, size, sx, sy, x0, y0)), r)
}

/// The plane with the surface subtracted.
pub open spec fn is_flattened<T, A: Arithmetic<T>>(
    ops: &A,
    data: Seq<T>,
    w: int,
    h: int,
    model: Seq<T>,
    flat: Seq<T>,
) -> bool {
    &&& flat.len() == data.len()
    &&& forall|i: int|
        0 <= i < flat.len() ==> is_flattened_at(
            ops,
            data,
            w,
            h,
            model,
            eval_size(w, h),
            i,
            #[trigger] flat[i],
        )
}

/// `level` is the first percentile of the flattened plane.
pub open spec fn is_background_level<T, A: Arithmetic<T>>(
    ops: &A,
    flat: Seq<T>,
    level: T,
) -> bool {
    exists|p: T, high: T|
        evals(ops, whole(1), p) && #[trigger] are_percentiles(ops, flat, p, p, level, high)
}

/// Every sample less the level, limited to the unit range.
pub open spec fn is_shifted<T, A: Arithmetic<T>>(
    ops: &A,
    flat: Seq<T>,
    level: T,
    out: Seq<T>,
) -> bool {
    &&& out.len() == flat.len()
    &&& forall|i: int|
        0 <= i < out.len() ==> evals(
            ops,
            Formula::Given(flat[i]).minus(Formula::Given(level)).unit(),
            #[trigger] out[i],
        )
}

/// `out` is the plane with the fitted surface subtracted and the darkest
/// background moved to zero.
pub open spec fn is_level<T, A: Arithmetic<T>>(
    ops: &A,
    data: Seq<T>,
    w: int,
    h: int,
    coeffs: Seq<T>,
    order: int,
    out: Seq<T>,
) -> bool {
    exists|model: Seq<T>, flat: Seq<T>, level: T| #[trigger]
        is_model(ops, coeffs, poly_exponents(order), eval_size(w, h), model)
            && #[trigger] is_flattened(ops, data, w, h, model, flat) && #[trigger] is_shifted(
            ops,
            flat,
            level,
            out,
        ) && is_background_level(ops, flat, level)
}

/// `out` is the channel with its background gradient removed, from these
/// background samples; the channel itself where the fit has no solution.
pub open spec fn is_gradient_free_by<T, A: Arithmetic<T>>(
    ops: &A,
    params: GradientParams<T>,
    data: Seq<T>,
    w: int,
    h: int,
    samples: Seq<Background<T>>,
    kept: Seq<Background<T>>,
    coeffs: Option<Seq<T>>,
    out: Seq<T>,
) -> bool {
    let grid = grid_lines(params.sample_grid) as int;
    &&& are_grid_samples(ops, data, w, h, grid, samples)
    &&& is_clipped(ops, params.sigma_clip, samples, 3, kept)
    &&& is_fit(ops, kept, w, h, params.order as int, coeffs)
    &&& match coeffs {
        Some(c) => is_level(ops, data, w, h, c, params.order as int, out),
        None => out == data,
    }
}

/// `out` is the channel with its background gradient removed.
pub open spec fn is_gradient_free<T, A: Arithmetic<T>>(
    ops: &A,
    params: GradientParams<T>,
    data: Seq<T>,
    w: int,
    h: int,
    out: Seq<T>,
) -> bool {
    exists|samples: Seq<Background<T>>, kept: Seq<Background<T>>, coeffs: Option<Seq<T>>| #[trigger]
        is_gradient_free_by(ops, params, data, w, h, samples, kept, coeffs, out)
}

/// The machine can hold the grid of background samples.
pub open spec fn grid_fits(sample_grid: usize) -> bool {
    grid_lines(sample_grid) * grid_lines(sample_grid) <= usize::MAX
}

/// One value of the surface.
fn surface_value<T: Sample, A: Arithmetic<T>>(
    ops: &A,
    coeffs: &Vec<T>,
    exps: &Vec<(usize, usize)>,
    size: usize,
    i: usize,
) -> (r: T)
    requires
        coeffs@.len() == exps@.len(),
        2 <= size,
    ensures
        evals(
            ops,
            surface(
                coeffs@,
                exps@,
                normalized((i as int % size as int) as usize, (size - 1) as usize),
                normalized((i as int / size as int) as usize, (size - 1) as usize),
                exps@.len() as int,
            ),
            r,
        ),
{
    let x = normalized_of(ops, i % size, size - 1);
    let y = normalized_of(ops, i / size, size - 1);
    let mut acc = Traced::whole(ops, 0);
    let mut j: usize = 0;
    while j < exps.len()
        invariant
            coeffs@.len() == exps@.len(),
            j <= exps@.len(),
            x.holds(ops),
            y.holds(ops),
            acc.holds(ops),
            acc.formula@ == surface(coeffs@, exps@, x.formula@, y.formula@, j as int),
        decreases exps@.len() - j,
    {
        let (xpow, ypow) = exps[j];
        let part = Traced::given(ops, coeffs[j]).times(ops, x.power(ops, xpow));
        acc = acc.plus(ops, part.times(ops, y.power(ops, ypow)));
        j += 1;
    }
    acc.value
}

/// The side of the reduced grid.
fn model_size(w: usize, h: usize) -> (r: usize)
    ensures
        r == eval_size(w as int, h as int),
        2 <= r <= 256,
{
    let m = if w < h {
        w
    } else {
        h
    };
    if m < 2 {
        2
    } else if m > 256 {
        256
    } else {
        m
    }
}

/// A reduced-grid line that is limited to the lines there are.
fn limited(k: usize, size: usize) -> (r: usize)
    requires
        size >= 1,
    ensures
        r == within(k, size as int),
        r < size,
{
    if k < size {
        k
    } else {
        size - 1
    }
}

/// Where a pixel falls on the reduced grid, in one direction.
fn grid_position_of<T: Sample, A: Arithmetic<T>>(
    ops: &A,
    k: usize,
    last: usize,
    size: usize,
) -> (r: Traced<T>)
    requires
        size >= 1,
    ensures
        r.holds(ops),
        r.formula@ == Formula::<T>::Count(k).over(Formula::Count(last)).times(
            Formula::Count((size - 1) as usize),
        ),
{
    let part = Traced::count(ops, k).over(ops, Traced::count(ops, last));
    part.times(ops, Traced::count(ops, size - 1))
}

/// One sample with the surface subtracted.
fn flattened_sample<T: Sample, A: Arithmetic<T>>(
    ops: &A,
    data: &[T],
    w: usize,
    h: usize,
    model: &Vec<T>,
    size: usize,
    i: usize,
) -> (r: T)
    requires
        data@.len() == w * h,
        i < data@.len(),
        2 <= size <= 256,
        model@.len() == size * size,
    ensures
        is_flattened_at(ops, data@, w as int, h as int, model@, size as int, i as int, r),
{
    proof {
        lemma_place(i as int, w as int, h as int);
    }
    let sx = grid_position_of(ops, i % w, last_of(w), size).value;
    let sy = grid_position_of(ops, i / w, last_of(h), size).value;
    let px = Traced::given(ops, sx);
    let py = Traced::given(ops, sy);
    let kx = px.apply(ops, Unary::Floor).to_index(ops);
    let ky = py.apply(ops, Unary::Floor).to_index(ops);
    let x0 = limited(kx, size);
    let y0 = limited(ky, size);
    let x1 = limited(x0 + 1, size);
    let y1 = limited(y0 + 1, size);
    proof {
        lemma_pixel(x0 as int, y0 as int, size as int, size as int);
        lemma_pixel(x1 as int, y0 as int, size as int, size as int);
        lemma_pixel(x0 as int, y1 as int, size as int, size as int);
        lemma_pixel(x1 as int, y1 as int, size as int, size as int);
        assert(model.len() == size * size);
    }
    let one = Traced::whole(ops, 1);
    let fx = px.minus(ops, Traced::count(ops, x0));
    let fy = py.minus(ops, Traced::count(ops, y0));
    let gx = one.minus(ops, fx);
    let gy = one.minus(ops, fy);
    let a = Traced::given(ops, model[y0 * size + x0]).times(ops, gx).times(ops, gy);
    let b = Traced::given(ops, model[y0 * size + x1]).times(ops, fx).times(ops, gy);
    let c = Traced::given(ops, model[y1 * size + x0]).times(ops, gx).times(ops, fy);
    let d = Traced::given(ops, model[y1 * size + x1]).times(ops, fx).times(ops, fy);
    let level = a.plus(ops, b).plus(ops, c).plus(ops, d);
    let r = Traced::given(ops, data[i]).minus(ops, level).value;
    assert(subtracts(
        ops,
        data@[i as int],
        model@,
        size as int,
        sx,
        sy,
        within(kx, size as int),
        within(ky, size as int),
        r,
    ));
    r
}

/// Subtracts the surface and moves the darkest background to zero.
fn level_plane<T: Sample, A: Arithmetic<T>>(
    ops: &A,
    data: &[T],
    w: usize,
    h: usize,
    coeffs: &Vec<T>,
    exps: &Vec<(usize, usize)>,
    order: usize,
) -> (out: Vec<T>)
    requires
        data@.len() == w * h,
        coeffs@.len() == exps@.len(),
        exps@ == poly_exponents(order as int),
    ensures
        out@.len() == data@.len(),
        is_level(ops, data@, w as int, h as int, coeffs@, order as int, out@),
{
    // Evaluate the model at reduced resolution: a low-order polynomial is
    // smooth, so there is no need to evaluate at every pixel
    let size = model_size(w, h);
    assert(size * size <= 65536) by (nonlinear_arith)
        requires
            size <= 256,
    ;
    let on_grid = |i: usize| -> (r: T)
        requires
            coeffs@.len() == exps@.len(),
            2 <= size,
        ensures
            evals(
                ops,
                surface(
                    coeffs@,
                    exps@,
                    normalized((i as int % size as int) as usize, (size - 1) as usize),
                    normalized((i as int / size as int) as usize, (size - 1) as usize),
                    exps@.len() as int,
                ),
                r,
            ),
    {
        surface_value(ops, coeffs, exps, size, i)
    };
    let model = par_map(size * size, on_grid);
    assert(is_model(
        ops,
        coeffs@,
        poly_exponents(order as int),
        eval_size(w as int, h as int),
        model@,
    ));

    // Bilinear upsample to full resolution and subtract
    let at = |i: usize| -> (r: T)
        requires
            data@.len() == w * h,
            i < data@.len(),
            2 <= size <= 256,
            model@.len() == size * size,
        ensures
            is_flattened_at(ops, data@, w as int, h as int, model@, size as int, i as int, r),
    {
        flattened_sample(ops, data, w, h, &model, size, i)
    };
    let flat = par_map(data.len(), at);
    assert(is_flattened(ops, data@, w as int, h as int, model@, flat@));

    // Shift so the darkest background region (1st percentile) sits near zero
    let p = ops.ratio(1, 1);
    let (level, _high) = percentile_pair(ops, flat.as_slice(), p, p);
    let shift = |i: usize| -> (r: T)
        requires
            i < flat@.len(),
        ensures
            evals(
                ops,
                Formula::Given(flat@[i as int]).minus(Formula::Given(level)).unit(),
                r,
            ),
    {
        Traced::given(ops, flat[i]).minus(ops, Traced::given(ops, level)).unit(ops).value
    };
    let out = par_map(flat.len(), shift);
    assert(is_shifted(ops, flat@, level, out@));
    out
}

/// Remove the gradient from a single row-major channel.
fn remove_gradient_channel<T: Sample, A: Arithmetic<T>>(
    ops: &A,
    data: &[T],
    width: usize,
    height: usize,
    params: &GradientParams<T>,
) -> (out: Vec<T>)
    requires
        data@.len() == width * height,
        width >= 1,
        height >= 1,
        grid_fits(params.sample_grid),
    ensures
        out@.len() == data@.len(),
        is_gradient_free(ops, *params, data@, width as int, height as int, out@),
{
    let grid = if params.sample_grid < 2 {
        2
    } else {
        params.sample_grid
    };
    let samples = grid_samples(ops, data, width, height, grid);
    let ghost taken = samples@;
    let kept = sigma_clip_samples(ops, params.sigma_clip, samples, 3);
    let exps = exponents(params.order);
    let coeffs = match fit_surface(ops, &kept, width, height, &exps, params.order) {
        Some(c) => c,
        None => {
            let out = copied(data);
            assert(is_gradient_free_by(
                ops,
                *params,
                data@,
                width as int,
                height as int,
                taken,
                kept@,
                None,
                out@,
            ));
            return out;
        },
    };
    let out = level_plane(ops, data, width, height, &coeffs, &exps, params.order);
    assert(is_gradient_free_by(
        ops,
        *params,
        data@,
        width as int,
        height as int,
        taken,
        kept@,
        Some(coeffs@),
        out@,
    ));
    out
}

/// Every channel of `out` is the channel of `image` without its gradient.
pub open spec fn is_gradient_free_image<T, A: Arithmetic<T>>(
    ops: &A,
    params: GradientParams<T>,
    image: Raster<T>,
    out: Raster<T>,
) -> bool {
    &&& out.same_shape(image)
    &&& forall|c: int|
        0 <= c < out.planes.len() ==> is_gradient_free(
            ops,
            params,
            image.planes[c],
            image.width as int,
            image.height as int,
            #[trigger] out.planes[c],
        )
}

/// Remove the background gradient from each channel.
///
/// Expects data in the [0, 1] range; the output is clipped back to [0, 1] with
/// the darkest background region shifted near zero.
pub fn remove_gradient<T: Sample, A: Arithmetic<T>>(
    ops: &A,
    image: &Image<T>,
    params: &GradientParams<T>,
) -> (out: Image<T>)
    requires
        image@.wf(),
        image@.width >= 1,
        image@.height >= 1,
        grid_fits(params.sample_grid),
    ensures
        out@.wf(),
        is_gradient_free_image(ops, *params, image@, out@),
{
    let w = image.width();
    let h = image.height();
    let n = image.num_channels();
    let channel = |c: usize| -> (r: Vec<T>)
        requires
            image@.wf(),
            c < image@.planes.len(),
            w == image@.width,
            h == image@.height,
            w >= 1,
            h >= 1,
            grid_fits(params.sample_grid),
        ensures
            r@.len() == w * h,
            is_gradient_free(ops, *params, image@.planes[c as int], w as int, h as int, r@),
    {
        remove_gradient_channel(ops, image.channel(c), w, h, params)
    };
    let channels = par_map(n, channel);
    let out = Image::from_channels(w, h, channels);
    assert forall|c: int| 0 <= c < out@.planes.len() implies is_gradient_free(
        ops,
        *params,
        image@.planes[c],
        w as int,
        h as int,
        #[trigger] out@.planes[c],
    ) by {
        assert(out@.planes[c] == channels@[c]@);
    }
    out
}

} // verus!
