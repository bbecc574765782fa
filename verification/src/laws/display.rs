//! Laws of the linked solution and of what it shows.

use super::answers::is_deterministic;
use super::curve::{is_balance, midtones};
use super::exact::{
    into_unit, is_exact, lemma_exact_binary, lemma_exact_unit,
    lemma_exact_whole, lemma_tone_is_exact,
};
use super::stretching::{
    lemma_one_channel_solution, lemma_one_linked_solution, lemma_one_linked_stats,
};
use crate::arith::{Arithmetic, Binary, Formula, binary_answers, clamp_answers, evals, whole};
use crate::frame::Raster;
use crate::plane::{largest_of, maps};
use crate::stretch::{
    MtfSolution, MtfStats, StretchAlgorithm, StretchOptions, applies_solution, applies_to_image,
    are_all_linked_stats, are_shadows, balance, is_channel_solution, is_channel_solution_by,
    is_display_solution, is_inside, is_linked_solution, is_linked_solution_by, is_lit, is_midtone,
    is_stretched, lemma_stretch_applies_display_solution, residual_of, shadowed, toned,
};
use vstd::prelude::*;

verus! {

/// The linked solution follows from the channels' own statistics: the smallest
/// residual of all channels is the background that every channel keeps above
/// its shadow, and one rescale serves all.
pub proof fn lemma_linked_solution_of_stats<T, A: Arithmetic<T>>(
    ops: &A,
    planes: Seq<Seq<T>>,
    bg_percent: T,
    sigma: T,
    stats: Seq<MtfStats<T>>,
    shadows: Seq<T>,
    scale: T,
    midtone: T,
)
    requires
        is_deterministic(ops),
        are_all_linked_stats(ops, planes, stats),
        is_linked_solution(ops, planes, bg_percent, sigma, shadows, scale, midtone),
    ensures
        shadows.len() == planes.len(),
        exists|k: T, residual: T|
            evals(ops, Formula::Given(sigma).times(Formula::Ratio(14_826, 10_000)), k)
                && #[trigger] evals(ops, residual_of(stats, k, planes.len() as int), residual)
                && are_shadows(ops, stats, residual, shadows),
        evals(
            ops,
            whole(1).over(
                whole(1).minus(largest_of(shadows, planes.len() as int)).most(
                    Formula::Ratio(1, 1_000_000),
                ),
            ),
            scale,
        ),
{
    let (own, k, residual, mapped, flags, median) = choose|
        stats: Seq<MtfStats<T>>,
        k: T,
        residual: T,
        mapped: Seq<T>,
        flags: Seq<bool>,
        median: T,
    | #[trigger]
        is_linked_solution_by(
            ops,
            planes,
            bg_percent,
            sigma,
            stats,
            k,
            residual,
            mapped,
            flags,
            median,
            shadows,
            scale,
            midtone,
        );
    assert forall|c: int| 0 <= c < stats.len() implies #[trigger] stats[c] == own[c] by {
        lemma_one_linked_stats(ops, planes[c], stats[c], own[c]);
    }
    assert(stats =~= own);
}

/// A channel with a positive shadow keeps the shared residual above it.
#[verifier::spinoff_prover]
pub proof fn lemma_shadow_leaves_residual<T, A: Arithmetic<T>>(
    ops: &A,
    val: spec_fn(T) -> real,
    stats: Seq<MtfStats<T>>,
    residual: T,
    shadows: Seq<T>,
    c: int,
)
    requires
        is_exact(ops, val),
        are_shadows(ops, stats, residual, shadows),
        0 <= c < shadows.len(),
    ensures
        val(shadows[c]) >= 0 as real,
        val(shadows[c]) > 0 as real ==> val(stats[c].median) - val(shadows[c]) == val(residual),
{
    let (f, g) = (Formula::Given(stats[c].median), Formula::Given(residual));
    lemma_exact_binary(
        ops,
        val,
        Binary::Minus,
        f,
        g,
        val(stats[c].median),
        val(residual),
    );
    lemma_exact_whole(ops, val, 0);
    let v = shadows[c];
    assert(evals(ops, f.minus(g).most(whole(0)), v));
    let (x, y) = choose|x: T, y: T|
        evals(ops, f.minus(g), x) && evals(ops, whole(0), y) && #[trigger] binary_answers(
            ops,
            Binary::Most,
            x,
            y,
            v,
        );
}

/// Limits of 0.0001 and 0.9999 enclose a balance.
proof fn lemma_between(low: real, m: real, high: real)
    by (nonlinear_arith)
    requires
        low * (10_000 as real) == 1 as real,
        high * (10_000 as real) == 9_999 as real,
        low <= m <= high,
    ensures
        1 as real <= 10_000 as real * m <= 9_999 as real,
{
}

/// One half is a balance.
proof fn lemma_half_is_balance(m: real)
    by (nonlinear_arith)
    requires
        m * (2 as real) == 1 as real,
    ensures
        1 as real <= 10_000 as real * m <= 9_999 as real,
{
}

/// The lower limit lies below the upper one.
proof fn lemma_limits(low: real, high: real)
    by (nonlinear_arith)
    requires
        low * (10_000 as real) == 1 as real,
        high * (10_000 as real) == 9_999 as real,
    ensures
        low <= high,
{
}

/// A midtone lies between 0.0001 and 0.9999.
#[verifier::spinoff_prover]
pub proof fn lemma_midtone_is_balance<T, A: Arithmetic<T>>(
    ops: &A,
    val: spec_fn(T) -> real,
    median: T,
    bg_percent: T,
    midtone: T,
)
    requires
        is_exact(ops, val),
        is_midtone(ops, median, bg_percent, midtone),
    ensures
        is_balance(val(midtone)),
{
    let (between, lit) = choose|between: bool, lit: bool|
        is_inside(ops, median, between) && #[trigger] is_lit(ops, between, bg_percent, lit) && if lit {
            evals(ops, balance(median, bg_percent), midtone)
        } else {
            evals(ops, Formula::Ratio(1, 2), midtone)
        };
    if lit {
        let m = Formula::Given(median);
        let bg = Formula::Given(bg_percent);
        let f = m.times(bg.minus(whole(1))).over(whole(2).times(bg).times(m).minus(bg).minus(m));
        let (low, high) = (Formula::<T>::Ratio(1, 10_000), Formula::<T>::Ratio(9_999, 10_000));
        assert(balance(median, bg_percent) == f.clamp(low, high));
        let (x, l, h) = choose|x: T, l: T, h: T|
            evals(ops, f, x) && evals(ops, low, l) && evals(ops, high, h)
                && #[trigger] clamp_answers(ops, x, l, h, midtone);
        assert(call_ensures(A::ratio, (ops, 1u64, 10_000u64), l));
        assert(call_ensures(A::ratio, (ops, 9_999u64, 10_000u64), h));
        lemma_limits(val(l), val(h));
        lemma_between(val(l), val(midtone), val(h));
    } else {
        assert(call_ensures(A::ratio, (ops, 1u64, 2u64), midtone));
        lemma_half_is_balance(val(midtone));
    }
}

/// The midtone of a display solution lies between 0.0001 and 0.9999.
#[verifier::spinoff_prover]
pub proof fn lemma_display_midtone<T, A: Arithmetic<T>>(
    ops: &A,
    val: spec_fn(T) -> real,
    image: Raster<T>,
    bg_percent: T,
    sigma: T,
    solution: MtfSolution<T>,
)
    requires
        is_exact(ops, val),
        is_display_solution(ops, image, bg_percent, sigma, solution),
    ensures
        is_balance(val(solution.midtone)),
{
    let (shadows, scale, midtone) = (solution.shadows@, solution.scale, solution.midtone);
    if image.planes.len() == 3 {
        let planes = image.planes;
        let (stats, k, residual, mapped, flags, median) = choose|
            stats: Seq<MtfStats<T>>,
            k: T,
            residual: T,
            mapped: Seq<T>,
            flags: Seq<bool>,
            median: T,
        | #[trigger]
            is_linked_solution_by(
                ops,
                planes,
                bg_percent,
                sigma,
                stats,
                k,
                residual,
                mapped,
                flags,
                median,
                shadows,
                scale,
                midtone,
            );
        lemma_midtone_is_balance(ops, val, median, bg_percent, midtone);
    } else {
        let plane = image.planes[0];
        let (stats, range, median) = choose|stats: MtfStats<T>, range: T, median: T| #[trigger]
            is_channel_solution_by(
                ops,
                plane,
                bg_percent,
                sigma,
                stats,
                range,
                median,
                shadows[0],
                scale,
                midtone,
            );
        if stats.count == 0 {
            assert(call_ensures(A::ratio, (ops, 1u64, 2u64), midtone));
            lemma_half_is_balance(val(midtone));
        } else {
            lemma_midtone_is_balance(ops, val, median, bg_percent, midtone);
        }
    }
}

/// A linked stretch of a normalized image applies its display solution.
pub proof fn lemma_stretch_is_display_solution<T, A: Arithmetic<T>>(
    ops: &A,
    image: Raster<T>,
    bg_percent: T,
    sigma: T,
    solution: MtfSolution<T>,
    options: StretchOptions<T>,
    out: Raster<T>,
)
    requires
        is_deterministic(ops),
        image.wf(),
        is_display_solution(ops, image, bg_percent, sigma, solution),
        options.pre_normalized,
        options.algorithm == (StretchAlgorithm::Mtf { bg_percent, sigma, linked: true }),
        is_stretched(ops, options, image, out),
    ensures
        solution.shadows@.len() == image.planes.len(),
        applies_to_image(
            ops,
            image,
            solution.shadows@,
            solution.scale,
            solution.midtone,
            out,
        ),
{
    lemma_stretch_applies_display_solution(ops, image, bg_percent, sigma, options, out);
    let planes = image.planes;
    let (own, factor, tone) = (solution.shadows@, solution.scale, solution.midtone);
    if planes.len() == 3 {
        let (shadows, scale, midtone) = choose|shadows: Seq<T>, scale: T, midtone: T| #[trigger]
            applies_to_image(ops, image, shadows, scale, midtone, out) && is_linked_solution(
                ops,
                planes,
                bg_percent,
                sigma,
                shadows,
                scale,
                midtone,
            );
        lemma_one_linked_solution(
            ops,
            planes,
            bg_percent,
            sigma,
            shadows,
            scale,
            midtone,
            own,
            factor,
            tone,
        );
    } else {
        let (shadows, scale, midtone) = choose|shadows: Seq<T>, scale: T, midtone: T| #[trigger]
            applies_to_image(ops, image, shadows, scale, midtone, out) && is_channel_solution(
                ops,
                planes[0],
                bg_percent,
                sigma,
                shadows[0],
                scale,
                midtone,
            );
        lemma_one_channel_solution(
            ops,
            planes[0],
            bg_percent,
            sigma,
            shadows[0],
            scale,
            midtone,
            own[0],
            factor,
            tone,
        );
        assert forall|c: int| 0 <= c < out.planes.len() implies applies_solution(
            ops,
            planes[c],
            own[c],
            factor,
            tone,
            #[trigger] out.planes[c],
        ) by {
            assert(applies_solution(ops, planes[c], shadows[c], scale, midtone, out.planes[c]));
        }
    }
}

/// A linked stretch shows every sample as its display solution says: the shadow
/// taken away, rescaled, limited to the unit range, and sent through the
/// midtones transfer function.
#[verifier::spinoff_prover]
pub proof fn lemma_display_solution_shows<T, A: Arithmetic<T>>(
    ops: &A,
    val: spec_fn(T) -> real,
    image: Raster<T>,
    bg_percent: T,
    sigma: T,
    solution: MtfSolution<T>,
    options: StretchOptions<T>,
    out: Raster<T>,
    c: int,
    i: int,
)
    requires
        is_deterministic(ops),
        is_exact(ops, val),
        image.wf(),
        is_display_solution(ops, image, bg_percent, sigma, solution),
        options.pre_normalized,
        options.algorithm == (StretchAlgorithm::Mtf { bg_percent, sigma, linked: true }),
        is_stretched(ops, options, image, out),
        0 <= c < image.planes.len(),
        0 <= i < image.width * image.height,
    ensures
        solution.shadows@.len() == image.planes.len(),
        val(out.planes[c][i]) == midtones(
            val(solution.midtone),
            into_unit(
                (val(image.planes[c][i]) - val(solution.shadows@[c])) * val(solution.scale),
            ),
        ),
{
    let (scale, midtone) = (solution.scale, solution.midtone);
    lemma_stretch_is_display_solution(ops, image, bg_percent, sigma, solution, options, out);
    let (plane, shadow) = (image.planes[c], solution.shadows@[c]);
    assert(plane.len() == image.width * image.height);
    assert(applies_solution(ops, plane, shadow, scale, midtone, out.planes[c]));
    let mid = choose|mid: Seq<T>| #[trigger]
        maps(ops, shadowed(shadow, scale), plane, mid) && maps(
            ops,
            toned(midtone),
            mid,
            out.planes[c],
        );
    let v = plane[i];
    let (f, g) = (Formula::Given(v), Formula::Given(shadow));
    lemma_exact_binary(ops, val, Binary::Minus, f, g, val(v), val(shadow));
    lemma_exact_binary(
        ops,
        val,
        Binary::Times,
        f.minus(g),
        Formula::Given(scale),
        val(v) - val(shadow),
        val(scale),
    );
    lemma_exact_unit(
        ops,
        val,
        f.minus(g).times(Formula::Given(scale)),
        (val(v) - val(shadow)) * val(scale),
    );
    assert(evals(ops, shadowed(shadow, scale)(v), mid[i]));
    lemma_display_midtone(ops, val, image, bg_percent, sigma, solution);
    lemma_tone_is_exact(ops, val, midtone, mid[i]);
    assert(evals(ops, toned(midtone)(mid[i]), out.planes[c][i]));
}

} // verus!
